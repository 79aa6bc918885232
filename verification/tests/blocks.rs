use shoehorn::block::{is_blocked, pack_row, shape, unpack_row, Block};
use shoehorn::dequant::{iq4_level, needs_codebook, terms};
use shoehorn::ggml_type::GgmlType;
use shoehorn::pieces::get_scale_min_k4;
use shoehorn::planes::{push_plane, read_plane};
use shoehorn::rows::{
    bf16_to_f32, f32_to_bf16, half_to_f32, push_plain, rows_at_a_time, rows_per_mat, source_row,
};
use shoehorn::gguf::TensorInfo;
use shoehorn::signs::{expand_signs, has_bit, sign_byte, signs_with_parity};

const BLOCKED: [GgmlType; 15] = [
    GgmlType::Q4_0,
    GgmlType::Q4_1,
    GgmlType::Q5_0,
    GgmlType::Q5_1,
    GgmlType::Q8_0,
    GgmlType::Q4K,
    GgmlType::Q5K,
    GgmlType::Q6K,
    GgmlType::Iq2Xxs,
    GgmlType::Iq2Xs,
    GgmlType::Iq2S,
    GgmlType::Iq3Xxs,
    GgmlType::Iq3S,
    GgmlType::Iq4Nl,
    GgmlType::Iq4Xs,
];

fn noise(seed: u64, n: usize) -> Vec<u8> {
    let mut s = seed;
    (0..n)
        .map(|_| {
            s = s.wrapping_mul(6364136223846793005).wrapping_add(1442695040888963407);
            (s >> 40) as u8
        })
        .collect()
}

#[test]
fn bytes_and_fields_determine_each_other() {
    for ty in BLOCKED {
        assert!(is_blocked(ty));
        let (_, size) = ty.block_layout();
        let data = noise(ty.to_u32() as u64, 3 * size as usize);
        let blocks = unpack_row(ty, &data).unwrap();
        assert_eq!(blocks.len(), 3);
        for b in &blocks {
            assert!(b.has_shape(ty));
            assert_eq!(b.codes.len(), shape(ty).codes);
        }
        let mut out = vec![42];
        assert!(pack_row(ty, &blocks, &mut out));
        assert_eq!(&out[1..], &data[..], "{ty:?}");
    }
    assert!(!is_blocked(GgmlType::F16));
    assert!(unpack_row(GgmlType::F32, &[0; 4]).is_none());
    assert!(unpack_row(GgmlType::Q4_0, &[0; 19]).is_none());
}

#[test]
fn misfits_are_not_packed() {
    let mut blocks = unpack_row(GgmlType::Q4_0, &[0; 36]).unwrap();
    blocks[1].codes[5] = 16;
    let mut out = vec![7];
    assert!(!pack_row(GgmlType::Q4_0, &blocks, &mut out));
    assert_eq!(out, vec![7]);
    blocks[1].codes[5] = 15;
    assert!(pack_row(GgmlType::Q4_0, &blocks, &mut out));
    assert_eq!(out.len(), 37);
    assert_eq!(out[19 + 2 + 5], 15);
}

#[test]
fn q4_0_packs_halves_into_nibbles() {
    let b = Block {
        d: 0x1234,
        m: 0,
        scales: vec![],
        mins: vec![],
        signs: vec![],
        codes: (0..32).map(|i| (i % 16) as u16).collect(),
    };
    let mut out = Vec::new();
    b.pack(GgmlType::Q4_0, &mut out);
    let mut want = vec![0x34, 0x12];
    want.extend((0..16).map(|i| i | i << 4));
    assert_eq!(out, want);
    let t = terms(&b, GgmlType::Q4_0, &[]);
    assert_eq!((t[3].scale, t[3].level, t[3].min), (1, -5, 0));
}

#[test]
fn q5_0_keeps_fifth_bits_apart() {
    let mut codes = vec![0u16; 32];
    codes[1] = 31;
    codes[17] = 16;
    let b = Block { d: 0, m: 0, scales: vec![], mins: vec![], signs: vec![], codes };
    let mut out = Vec::new();
    b.pack(GgmlType::Q5_0, &mut out);
    assert_eq!(out[2..6], (1u32 << 1 | 1 << 17).to_le_bytes());
    assert_eq!(out[6 + 1], 0x0f);
    assert_eq!(terms(&b, GgmlType::Q5_0, &[])[1].level, 15);
}

#[test]
fn k_scales_split_over_twelve_bytes() {
    let b = Block {
        d: 1,
        m: 2,
        scales: (0..8).map(|i| 63 - i).collect(),
        mins: (0..8).map(|i| 7 * i).collect(),
        signs: vec![],
        codes: vec![9; 256],
    };
    assert!(b.has_shape(GgmlType::Q4K));
    let mut out = Vec::new();
    b.pack(GgmlType::Q4K, &mut out);
    for j in 0..8 {
        assert_eq!(get_scale_min_k4(j, &out[4..16]), (63 - j as u8, 7 * j as u8));
    }
    assert_eq!(&out[16..], &[0x99; 128][..]);
    let t = terms(&b, GgmlType::Q4K, &[]);
    assert_eq!((t[40].scale, t[40].level, t[40].min), (62, 9, 7));
}

#[test]
fn q6_k_levels_are_centred() {
    let mut b = unpack_row(GgmlType::Q6K, &[0; 210]).unwrap().remove(0);
    b.codes[130] = 63;
    b.scales[8] = 0xff;
    let t = terms(&b, GgmlType::Q6K, &[]);
    assert_eq!((t[130].scale, t[130].level), (-1, 31));
    assert_eq!((t[0].scale, t[0].level), (0, -32));
    let mut out = Vec::new();
    b.pack(GgmlType::Q6K, &mut out);
    // the low nibble of element 130 and its two high bits
    assert_eq!((out[64 + 2], out[128 + 32 + 2]), (0x0f, 0x03));
}

#[test]
fn codebook_levels_carry_signs() {
    assert!(needs_codebook(GgmlType::Iq2Xxs) && needs_codebook(GgmlType::Iq3S));
    assert!(!needs_codebook(GgmlType::Iq4Xs));
    let mut book = vec![0x0808080808080808u64; 256];
    book[3] = 0x2b19080808080819;
    let mut b = unpack_row(GgmlType::Iq2Xxs, &[0; 66]).unwrap().remove(0);
    b.codes[1] = 3;
    b.signs[1] = 1;
    b.scales[0] = 4;
    let t = terms(&b, GgmlType::Iq2Xxs, &book);
    assert_eq!((t[0].scale, t[0].level), (9, 8));
    // sign code 1 stands for the first and, to make their number even, the last
    assert_eq!((t[8].level, t[9].level, t[14].level, t[15].level), (-25, 8, 25, -43));
    assert_eq!(t[255].scale, 1);
}

#[test]
fn four_bit_levels_are_the_fixed_ones() {
    let want = [
        -127, -104, -83, -65, -49, -35, -22, -10, 1, 13, 25, 38, 53, 69, 89, 113,
    ];
    for (i, w) in want.iter().enumerate() {
        assert_eq!(iq4_level(i as u8), *w);
    }
    let mut b = unpack_row(GgmlType::Iq4Xs, &[0; 136]).unwrap().remove(0);
    b.codes[33] = 15;
    b.scales[1] = 40;
    let t = terms(&b, GgmlType::Iq4Xs, &[]);
    assert_eq!((t[33].scale, t[33].level, t[0].scale), (8, 113, -32));
}

#[test]
fn planes_interleave_by_stride() {
    let v: Vec<u8> = (0..8).map(|i| i % 4).collect();
    let mut out = Vec::new();
    push_plane(&mut out, &v, 2, 1);
    assert_eq!(out, vec![0b11100100, 0b11100100]);
    let mut out = Vec::new();
    push_plane(&mut out, &v, 2, 2);
    assert_eq!(out, vec![0 | 2 << 2 | 0 << 4 | 2 << 6, 1 | 3 << 2 | 1 << 4 | 3 << 6]);
    assert_eq!(read_plane(&out, 0, 2, 2, 2), v);
}

#[test]
fn sign_codes_are_even() {
    for bits in 0..=255u8 {
        let neg: Vec<bool> = (0..8).map(|i| bits >> i & 1 == 1).collect();
        assert_eq!(sign_byte(&neg), bits);
        for i in 0..8 {
            assert_eq!(has_bit(bits, i), neg[i]);
        }
        let (code, flipped) = signs_with_parity(&neg, 3);
        assert_eq!(flipped, bits.count_ones() % 2 == 1);
        let full = expand_signs(code);
        assert_eq!(full.count_ones() % 2, 0);
        assert_eq!(full, if flipped { bits ^ 8 } else { bits });
    }
}

#[test]
fn half_precision_widens_exactly() {
    for h in 0..=u16::MAX {
        let want = half::f16::from_bits(h).to_f32();
        assert_eq!(half_to_f32(h), want.to_bits(), "{h:04x}");
    }
}

#[test]
fn brain_floats_are_the_upper_halves() {
    assert_eq!(bf16_to_f32(0x3f80), 1.0f32.to_bits());
    assert_eq!(f32_to_bf16(0x3f80_ffff), 0x3f80);
    for b in 0..=u16::MAX {
        assert_eq!(f32_to_bf16(bf16_to_f32(b)), b);
    }
}

#[test]
fn plain_rows_are_read() {
    let data: Vec<u8> = vec![0, 0x3c, 0, 0xc0];
    assert_eq!(
        source_row(GgmlType::F16, &data, 2),
        Some(vec![1.0f32.to_bits(), (-2.0f32).to_bits()])
    );
    assert_eq!(source_row(GgmlType::F16, &data, 1), None);
    assert_eq!(source_row(GgmlType::Q4_0, &data, 2), None);
    let v = vec![1.5f32.to_bits(), (-0.25f32).to_bits()];
    for ty in [GgmlType::F32, GgmlType::Bf16] {
        let mut out = Vec::new();
        push_plain(ty, &v, &mut out);
        assert_eq!(source_row(ty, &out, 2), Some(v.clone()));
    }
}

#[test]
fn rows_are_grouped() {
    let t = |dims: &[u64]| TensorInfo {
        name: String::new(),
        dims: dims.to_vec(),
        ty: GgmlType::F32,
        offset: 0,
        shard: 0,
    };
    assert_eq!(rows_per_mat(&t(&[4, 5, 6])), 5);
    assert_eq!(rows_per_mat(&t(&[4, 5])), 5);
    assert_eq!(rows_per_mat(&t(&[4])), 1);
    assert_eq!(rows_at_a_time(10, 8), 1);
    assert_eq!(rows_at_a_time(3200, 8), 100);
    assert_eq!(rows_at_a_time(1 << 40, 8), 512);
}
