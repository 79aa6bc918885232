pub mod block;
pub mod block_laws;
pub mod budget;
pub mod codebook;
pub mod decimal;
pub mod dequant;
pub mod discover;
pub mod fetch;
pub mod format_laws;
pub mod ggml_type;
pub mod gguf;
pub mod gguf_laws;
pub mod gguf_write;
pub mod imatrix;
pub mod json;
pub mod le;
pub mod model;
pub mod pieces;
pub mod plan;
pub mod planes;
pub mod quant_iq;
pub mod rows;
pub mod runtime;
pub mod signs;
pub mod solver;
pub mod sort;
pub mod text;
pub mod text_laws;
pub mod ui;
pub mod value;
pub mod vram;
