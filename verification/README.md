# shoehorn

Fits a model in GGUF format into the memory that is there: from the source's
tensors and the measured errors of their candidates it solves a mix of types
whose size stays within the budget, and writes the mix as a GGUF file.

- `src/` is the library, verified with Verus. The contracts say what every
  function returns; the public proof functions say what holds of several.
- `tests/` runs the library on concrete values.
- `app/` is the program around it: the command line, files, downloads, the GPU
  probe, the web page, and the searches in floating point.

| modules | subject |
|---|---|
| `ggml_type`, `le`, `value`, `gguf`, `gguf_write`, `gguf_laws` | the file format, read and written |
| `model` | split models |
| `planes`, `pieces`, `signs`, `block`, `dequant`, `rows` | the blocks of the quantized types, to bytes and back |
| `quant_iq`, `codebook` | the lattices of the codebook types |
| `imatrix` | importance matrices |
| `budget`, `plan`, `solver`, `runtime` | memory, candidates, the mix, and the runner |
| `fetch`, `discover`, `json`, `vram` | repositories, suggestions, and GPU memory |
| `ui` | the web page's state |
| `text`, `decimal`, `sort` | helpers |

What the library takes on trust from outside: `String::push`,
`String::from_utf8_lossy` and `str::to_lowercase` of the standard library, and
`serde_json::from_slice`. Each stands in one item with its contract.

The lattice tables of the codebook types are data. The program reads them from
`~/.cache/shoehorn/iq_tables.bin`, or from the file that `SHOEHORN_TABLES` names.
