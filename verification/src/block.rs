//! Quantized blocks: the integer fields of a block and their place in its
//! bytes, for every block format.

use vstd::prelude::*;
use vstd::slice::*;

use crate::ggml_type::GgmlType;
use crate::le::{
    le_bytes, le_round_trip, le_value, le_value_round_trip, push_le, radix_values, u16_of,
};
use crate::pieces::{
    bytes_of, codes_of, fields_of_k_scales, fields_of_pairs, fields_of_words, first_run, high,
    high_parts, interleaved, interleaved_of_runs, join_parts, joined, joined_of_parts, k_mins_of,
    k_scales, k_scales_of, k_scales_of_fields, low, low_of_wide, low_parts, pair_codes, pair_signs,
    pairs, pairs_of_fields, parts_of_joined, push_interleaved, push_k_scales, push_pairs,
    push_words, read_k_scales, read_pairs, read_runs, read_word_scales, read_word_signs,
    runs_of_interleaved, second_run, under, wide, wide_of_low, widened, word_scales, word_signs,
    words, words_of_fields,
};
use crate::planes::{below, plane, plane_of_values, push_plane, read_plane, values, values_of_plane};

verus! {

/// The fields of a block. A format uses some of them and leaves the others
/// empty or zero.
pub struct Block {
    /// The bits of the half-precision scale.
    pub d: u16,
    /// The bits of the half-precision min (or the scale of the mins).
    pub m: u16,
    /// The scale codes of the sub-blocks.
    pub scales: Vec<u8>,
    /// The min codes of the sub-blocks.
    pub mins: Vec<u8>,
    /// The sign codes of the groups of eight elements.
    pub signs: Vec<u8>,
    /// The codes of the elements, or of the codebook points.
    pub codes: Vec<u16>,
}

/// What the fields of a block are.
#[verifier::ext_equal]
pub ghost struct BlockSpec {
    pub d: u16,
    pub m: u16,
    pub scales: Seq<u8>,
    pub mins: Seq<u8>,
    pub signs: Seq<u8>,
    pub codes: Seq<u16>,
}

impl View for Block {
    type V = BlockSpec;

    open spec fn view(&self) -> BlockSpec {
        BlockSpec {
            d: self.d,
            m: self.m,
            scales: self.scales@,
            mins: self.mins@,
            signs: self.signs@,
            codes: self.codes@,
        }
    }
}

/// How many fields a format has, and the limits they are below.
pub struct Shape {
    pub codes: usize,
    pub code_limit: u16,
    pub scales: usize,
    pub scale_limit: u16,
    pub mins: usize,
    pub signs: usize,
    pub sign_limit: u16,
    pub has_m: bool,
}

/// The type stores its elements in blocks of integer fields.
pub open spec fn blocked(ty: GgmlType) -> bool {
    match ty {
        GgmlType::F32 | GgmlType::F16 | GgmlType::Bf16 | GgmlType::Other(_) => false,
        _ => true,
    }
}

/// The shape of a format's blocks.
pub open spec fn shape_of(ty: GgmlType) -> Shape {
    let plain = Shape {
        codes: 32,
        code_limit: 16,
        scales: 0,
        scale_limit: 0,
        mins: 0,
        signs: 0,
        sign_limit: 0,
        has_m: false,
    };
    match ty {
        GgmlType::Q8_0 => Shape { code_limit: 256, ..plain },
        GgmlType::Q4_0 | GgmlType::Iq4Nl => plain,
        GgmlType::Q4_1 => Shape { has_m: true, ..plain },
        GgmlType::Q5_0 => Shape { code_limit: 32, ..plain },
        GgmlType::Q5_1 => Shape { code_limit: 32, has_m: true, ..plain },
        GgmlType::Q6K => Shape {
            codes: 256,
            code_limit: 64,
            scales: 16,
            scale_limit: 256,
            ..plain
        },
        GgmlType::Q4K => Shape {
            codes: 256,
            scales: 8,
            scale_limit: 64,
            mins: 8,
            has_m: true,
            ..plain
        },
        GgmlType::Q5K => Shape {
            codes: 256,
            code_limit: 32,
            scales: 8,
            scale_limit: 64,
            mins: 8,
            has_m: true,
            ..plain
        },
        GgmlType::Iq2Xxs => Shape {
            code_limit: 256,
            scales: 8,
            scale_limit: 16,
            signs: 32,
            sign_limit: 128,
            ..plain
        },
        GgmlType::Iq2Xs => Shape {
            code_limit: 512,
            scales: 16,
            scale_limit: 16,
            signs: 32,
            sign_limit: 128,
            ..plain
        },
        GgmlType::Iq2S => Shape {
            code_limit: 1024,
            scales: 16,
            scale_limit: 16,
            signs: 32,
            sign_limit: 256,
            ..plain
        },
        GgmlType::Iq3Xxs => Shape {
            codes: 64,
            code_limit: 256,
            scales: 8,
            scale_limit: 16,
            signs: 32,
            sign_limit: 128,
            ..plain
        },
        GgmlType::Iq3S => Shape {
            codes: 64,
            code_limit: 512,
            scales: 8,
            scale_limit: 16,
            signs: 32,
            sign_limit: 256,
            ..plain
        },
        GgmlType::Iq4Xs => Shape { codes: 256, scales: 8, scale_limit: 64, ..plain },
        _ => plain,
    }
}

impl BlockSpec {
    /// The block has the shape of the format.
    pub open spec fn fits(self, ty: GgmlType) -> bool {
        let s = shape_of(ty);
        &&& blocked(ty)
        &&& self.codes.len() == s.codes
        &&& under(self.codes, s.code_limit as int)
        &&& self.scales.len() == s.scales
        &&& below(self.scales, s.scale_limit as int)
        &&& self.mins.len() == s.mins
        &&& below(self.mins, 64)
        &&& self.signs.len() == s.signs
        &&& below(self.signs, s.sign_limit as int)
        &&& !s.has_m ==> self.m == 0
    }

    /// The bytes of the block.
    pub open spec fn bytes(self, ty: GgmlType) -> Seq<u8> {
        let d = le_bytes(self.d as nat, 2);
        let m = le_bytes(self.m as nat, 2);
        match ty {
            GgmlType::Q8_0 => d + low(self.codes, 256),
            GgmlType::Q4_0 | GgmlType::Iq4Nl => d + plane(low(self.codes, 16), 4, 16),
            GgmlType::Q4_1 => d + m + plane(low(self.codes, 16), 4, 16),
            GgmlType::Q5_0 => d + plane(high(self.codes, 16), 1, 1) + plane(
                low(self.codes, 16),
                4,
                16,
            ),
            GgmlType::Q5_1 => d + m + plane(high(self.codes, 16), 1, 1) + plane(
                low(self.codes, 16),
                4,
                16,
            ),
            GgmlType::Q6K => plane(low(self.codes, 16), 4, 64) + plane(
                high(self.codes, 16),
                2,
                32,
            ) + self.scales + d,
            GgmlType::Q4K => d + m + k_scales(self.scales, self.mins) + plane(
                low(self.codes, 16),
                4,
                32,
            ),
            GgmlType::Q5K => d + m + k_scales(self.scales, self.mins) + plane(
                high(self.codes, 16),
                1,
                32,
            ) + plane(low(self.codes, 16), 4, 32),
            GgmlType::Iq2Xxs => d + interleaved(
                low(self.codes, 256),
                words(self.signs, self.scales),
            ),
            GgmlType::Iq2Xs => d + pairs(self.codes, self.signs) + plane(self.scales, 4, 1),
            GgmlType::Iq2S => d + low(self.codes, 256) + self.signs + plane(
                high(self.codes, 256),
                2,
                1,
            ) + plane(self.scales, 4, 1),
            GgmlType::Iq3Xxs => d + low(self.codes, 256) + words(self.signs, self.scales),
            GgmlType::Iq3S => d + low(self.codes, 256) + plane(high(self.codes, 256), 1, 1)
                + self.signs + plane(self.scales, 4, 1),
            GgmlType::Iq4Xs => d + plane(high(wide(self.scales), 16), 2, 1) + plane(
                low(wide(self.scales), 16),
                4,
                1,
            ) + plane(low(self.codes, 16), 4, 16),
            _ => seq![],
        }
    }
}

/// The number in two bytes of a block.
pub open spec fn half_at(b: Seq<u8>, at: int) -> u16 {
    le_value(b.subrange(at, at + 2)) as u16
}

/// The fields that the bytes of a block hold.
pub open spec fn block_of(ty: GgmlType, b: Seq<u8>) -> BlockSpec {
    let plain = BlockSpec {
        d: half_at(b, 0),
        m: 0,
        scales: seq![],
        mins: seq![],
        signs: seq![],
        codes: seq![],
    };
    match ty {
        GgmlType::Q8_0 => BlockSpec { codes: wide(b.subrange(2, 34)), ..plain },
        GgmlType::Q4_0 | GgmlType::Iq4Nl => BlockSpec {
            codes: wide(values(b.subrange(2, 18), 4, 16)),
            ..plain
        },
        GgmlType::Q4_1 => BlockSpec {
            m: half_at(b, 2),
            codes: wide(values(b.subrange(4, 20), 4, 16)),
            ..plain
        },
        GgmlType::Q5_0 => BlockSpec {
            codes: joined(values(b.subrange(6, 22), 4, 16), values(b.subrange(2, 6), 1, 1), 16),
            ..plain
        },
        GgmlType::Q5_1 => BlockSpec {
            m: half_at(b, 2),
            codes: joined(values(b.subrange(8, 24), 4, 16), values(b.subrange(4, 8), 1, 1), 16),
            ..plain
        },
        GgmlType::Q6K => BlockSpec {
            d: half_at(b, 208),
            scales: b.subrange(192, 208),
            codes: joined(
                values(b.subrange(0, 128), 4, 64),
                values(b.subrange(128, 192), 2, 32),
                16,
            ),
            ..plain
        },
        GgmlType::Q4K => BlockSpec {
            m: half_at(b, 2),
            scales: k_scales_of(b.subrange(4, 16)),
            mins: k_mins_of(b.subrange(4, 16)),
            codes: wide(values(b.subrange(16, 144), 4, 32)),
            ..plain
        },
        GgmlType::Q5K => BlockSpec {
            m: half_at(b, 2),
            scales: k_scales_of(b.subrange(4, 16)),
            mins: k_mins_of(b.subrange(4, 16)),
            codes: joined(
                values(b.subrange(48, 176), 4, 32),
                values(b.subrange(16, 48), 1, 32),
                16,
            ),
            ..plain
        },
        GgmlType::Iq2Xxs => BlockSpec {
            scales: word_scales(second_run(b.subrange(2, 66))),
            signs: word_signs(second_run(b.subrange(2, 66))),
            codes: wide(first_run(b.subrange(2, 66))),
            ..plain
        },
        GgmlType::Iq2Xs => BlockSpec {
            scales: values(b.subrange(66, 74), 4, 1),
            signs: pair_signs(b.subrange(2, 66)),
            codes: pair_codes(b.subrange(2, 66)),
            ..plain
        },
        GgmlType::Iq2S => BlockSpec {
            scales: values(b.subrange(74, 82), 4, 1),
            signs: b.subrange(34, 66),
            codes: joined(b.subrange(2, 34), values(b.subrange(66, 74), 2, 1), 256),
            ..plain
        },
        GgmlType::Iq3Xxs => BlockSpec {
            scales: word_scales(b.subrange(66, 98)),
            signs: word_signs(b.subrange(66, 98)),
            codes: wide(b.subrange(2, 66)),
            ..plain
        },
        GgmlType::Iq3S => BlockSpec {
            scales: values(b.subrange(106, 110), 4, 1),
            signs: b.subrange(74, 106),
            codes: joined(b.subrange(2, 66), values(b.subrange(66, 74), 1, 1), 256),
            ..plain
        },
        GgmlType::Iq4Xs => BlockSpec {
            scales: low(
                joined(values(b.subrange(4, 8), 4, 1), values(b.subrange(2, 4), 2, 1), 16),
                256,
            ),
            codes: wide(values(b.subrange(8, 136), 4, 16)),
            ..plain
        },
        _ => plain,
    }
}

proof fn half_back(x: u16, b: Seq<u8>, at: int)
    requires
        0 <= at,
        at + 2 <= b.len(),
        b.subrange(at, at + 2) == le_bytes(x as nat, 2),
    ensures
        half_at(b, at) == x,
{
    radix_values();
    le_round_trip(x as nat, 2);
}

proof fn half_len(x: u16)
    ensures
        le_bytes(x as nat, 2).len() == 2,
{
    radix_values();
    le_round_trip(x as nat, 2);
}

proof fn half_forth(b: Seq<u8>, at: int)
    requires
        0 <= at,
        at + 2 <= b.len(),
    ensures
        le_bytes(half_at(b, at) as nat, 2) == b.subrange(at, at + 2),
{
    radix_values();
    le_value_round_trip(b.subrange(at, at + 2));
}

/// The low and high planes of codes come apart and together again.
proof fn split_back(codes: Seq<u16>, limit: int, q: int, bits: int, s: int, t: int, n: int, k: int)
    requires
        limit == 16 * q,
        q == crate::planes::limit(bits),
        crate::planes::plane_bits(bits),
        under(codes, limit),
        s > 0,
        t > 0,
        codes.len() == n * (s * 2),
        codes.len() == k * (t * crate::planes::per_byte(bits)),
    ensures
        plane(low(codes, 16), 4, s).len() == n * s,
        plane(high(codes, 16), bits, t).len() == k * t,
        joined(
            values(plane(low(codes, 16), 4, s), 4, s),
            values(plane(high(codes, 16), bits, t), bits, t),
            16,
        ) == codes,
{
    joined_of_parts(codes, 16, limit);
    assert(below(high(codes, 16), q));
    values_of_plane(low(codes, 16), 4, s, n);
    values_of_plane(high(codes, 16), bits, t, k);
}

proof fn split_forth(lo: Seq<u8>, hi: Seq<u8>, q: int, bits: int, s: int, t: int, n: int, k: int)
    requires
        q == crate::planes::limit(bits),
        crate::planes::plane_bits(bits),
        s > 0,
        t > 0,
        lo.len() == n * s,
        hi.len() == k * t,
        n * (s * 2) == k * (t * crate::planes::per_byte(bits)),
    ensures
        ({
            let codes = joined(values(lo, 4, s), values(hi, bits, t), 16);
            &&& codes.len() == n * (s * 2)
            &&& under(codes, 16 * q)
            &&& plane(low(codes, 16), 4, s) == lo
            &&& plane(high(codes, 16), bits, t) == hi
        }),
{
    plane_of_values(lo, 4, s, n);
    plane_of_values(hi, bits, t, k);
    parts_of_joined(values(lo, 4, s), values(hi, bits, t), 16, q);
}

proof fn nibbles_back(codes: Seq<u16>, s: int, n: int)
    requires
        under(codes, 16),
        s > 0,
        codes.len() == n * (s * 2),
    ensures
        plane(low(codes, 16), 4, s).len() == n * s,
        wide(values(plane(low(codes, 16), 4, s), 4, s)) == codes,
{
    wide_of_low(codes, 16);
    values_of_plane(low(codes, 16), 4, s, n);
}

proof fn nibbles_forth(b: Seq<u8>, s: int, n: int)
    requires
        s > 0,
        b.len() == n * s,
    ensures
        wide(values(b, 4, s)).len() == n * (s * 2),
        under(wide(values(b, 4, s)), 16),
        plane(low(wide(values(b, 4, s)), 16), 4, s) == b,
{
    plane_of_values(b, 4, s, n);
    low_of_wide(values(b, 4, s), 16);
}

proof fn bytes_below(v: Seq<u8>)
    ensures
        below(v, 256),
{
}

proof fn small_back(x: BlockSpec, ty: GgmlType)
    requires
        x.fits(ty),
        ty == GgmlType::Q8_0 || ty == GgmlType::Q4_0 || ty == GgmlType::Iq4Nl || ty
            == GgmlType::Q4_1 || ty == GgmlType::Q5_0 || ty == GgmlType::Q5_1,
    ensures
        x.bytes(ty).len() == ty.block_bytes(),
        block_of(ty, x.bytes(ty)) == x,
{
    let b = x.bytes(ty);
    half_len(x.d);
    half_len(x.m);
    let d = le_bytes(x.d as nat, 2);
    let m = le_bytes(x.m as nat, 2);
    match ty {
        GgmlType::Q8_0 => {
            wide_of_low(x.codes, 256);
            assert(b.subrange(2, 34) =~= low(x.codes, 256));
        },
        GgmlType::Q4_0 | GgmlType::Iq4Nl => {
            nibbles_back(x.codes, 16, 1);
            assert(b.subrange(2, 18) =~= plane(low(x.codes, 16), 4, 16));
        },
        GgmlType::Q4_1 => {
            nibbles_back(x.codes, 16, 1);
            assert(b.subrange(4, 20) =~= plane(low(x.codes, 16), 4, 16));
            assert(b.subrange(2, 4) =~= m);
            half_back(x.m, b, 2);
        },
        GgmlType::Q5_0 => {
            split_back(x.codes, 32, 2, 1, 16, 1, 1, 4);
            assert(b.subrange(6, 22) =~= plane(low(x.codes, 16), 4, 16));
            assert(b.subrange(2, 6) =~= plane(high(x.codes, 16), 1, 1));
        },
        _ => {
            split_back(x.codes, 32, 2, 1, 16, 1, 1, 4);
            assert(b.subrange(8, 24) =~= plane(low(x.codes, 16), 4, 16));
            assert(b.subrange(4, 8) =~= plane(high(x.codes, 16), 1, 1));
            assert(b.subrange(2, 4) =~= m);
            half_back(x.m, b, 2);
        },
    }
    assert(b.subrange(0, 2) =~= d);
    half_back(x.d, b, 0);
    assert(block_of(ty, b) =~= x);
}

proof fn small_forth(b: Seq<u8>, ty: GgmlType)
    requires
        b.len() == ty.block_bytes(),
        ty == GgmlType::Q8_0 || ty == GgmlType::Q4_0 || ty == GgmlType::Iq4Nl || ty
            == GgmlType::Q4_1 || ty == GgmlType::Q5_0 || ty == GgmlType::Q5_1,
    ensures
        block_of(ty, b).fits(ty),
        block_of(ty, b).bytes(ty) == b,
{
    let x = block_of(ty, b);
    half_forth(b, 0);
    match ty {
        GgmlType::Q8_0 => {
            bytes_below(b.subrange(2, 34));
            low_of_wide(b.subrange(2, 34), 256);
        },
        GgmlType::Q4_0 | GgmlType::Iq4Nl => {
            nibbles_forth(b.subrange(2, 18), 16, 1);
        },
        GgmlType::Q4_1 => {
            half_forth(b, 2);
            nibbles_forth(b.subrange(4, 20), 16, 1);
        },
        GgmlType::Q5_0 => {
            split_forth(b.subrange(6, 22), b.subrange(2, 6), 2, 1, 16, 1, 1, 4);
        },
        _ => {
            half_forth(b, 2);
            split_forth(b.subrange(8, 24), b.subrange(4, 8), 2, 1, 16, 1, 1, 4);
        },
    }
    assert(x.bytes(ty) =~= b);
}

proof fn k_back(x: BlockSpec, ty: GgmlType)
    requires
        x.fits(ty),
        ty == GgmlType::Q6K || ty == GgmlType::Q4K || ty == GgmlType::Q5K,
    ensures
        x.bytes(ty).len() == ty.block_bytes(),
        block_of(ty, x.bytes(ty)) == x,
{
    let b = x.bytes(ty);
    half_len(x.d);
    half_len(x.m);
    let d = le_bytes(x.d as nat, 2);
    let m = le_bytes(x.m as nat, 2);
    if ty == GgmlType::Q6K {
        split_back(x.codes, 64, 4, 2, 64, 32, 2, 2);
        assert(b.subrange(0, 128) =~= plane(low(x.codes, 16), 4, 64));
        assert(b.subrange(128, 192) =~= plane(high(x.codes, 16), 2, 32));
        assert(b.subrange(192, 208) =~= x.scales);
        assert(b.subrange(208, 210) =~= d);
        half_back(x.d, b, 208);
    } else {
        fields_of_k_scales(x.scales, x.mins);
        let q = k_scales(x.scales, x.mins);
        if ty == GgmlType::Q4K {
            nibbles_back(x.codes, 32, 4);
            assert(b.subrange(16, 144) =~= plane(low(x.codes, 16), 4, 32));
        } else {
            split_back(x.codes, 32, 2, 1, 32, 32, 4, 1);
            assert(b.subrange(48, 176) =~= plane(low(x.codes, 16), 4, 32));
            assert(b.subrange(16, 48) =~= plane(high(x.codes, 16), 1, 32));
        }
        assert(b.subrange(4, 16) =~= q);
        assert(k_scales_of(q) =~= x.scales);
        assert(k_mins_of(q) =~= x.mins);
        assert(b.subrange(0, 2) =~= d);
        assert(b.subrange(2, 4) =~= m);
        half_back(x.d, b, 0);
        half_back(x.m, b, 2);
    }
    assert(block_of(ty, b) =~= x);
}

proof fn k_forth(b: Seq<u8>, ty: GgmlType)
    requires
        b.len() == ty.block_bytes(),
        ty == GgmlType::Q6K || ty == GgmlType::Q4K || ty == GgmlType::Q5K,
    ensures
        block_of(ty, b).fits(ty),
        block_of(ty, b).bytes(ty) == b,
{
    let x = block_of(ty, b);
    if ty == GgmlType::Q6K {
        half_forth(b, 208);
        bytes_below(b.subrange(192, 208));
        split_forth(b.subrange(0, 128), b.subrange(128, 192), 4, 2, 64, 32, 2, 2);
    } else {
        half_forth(b, 0);
        half_forth(b, 2);
        k_scales_of_fields(b.subrange(4, 16));
        if ty == GgmlType::Q4K {
            nibbles_forth(b.subrange(16, 144), 32, 4);
        } else {
            split_forth(b.subrange(48, 176), b.subrange(16, 48), 2, 1, 32, 32, 4, 1);
        }
    }
    assert(x.bytes(ty) =~= b);
}

proof fn iq2_back(x: BlockSpec, ty: GgmlType)
    requires
        x.fits(ty),
        ty == GgmlType::Iq2Xxs || ty == GgmlType::Iq2Xs || ty == GgmlType::Iq2S,
    ensures
        x.bytes(ty).len() == ty.block_bytes(),
        block_of(ty, x.bytes(ty)) == x,
{
    let b = x.bytes(ty);
    half_len(x.d);
    let d = le_bytes(x.d as nat, 2);
    match ty {
        GgmlType::Iq2Xxs => {
            wide_of_low(x.codes, 256);
            fields_of_words(x.signs, x.scales);
            let w = words(x.signs, x.scales);
            runs_of_interleaved(low(x.codes, 256), w);
            assert(b.subrange(2, 66) =~= interleaved(low(x.codes, 256), w));
        },
        GgmlType::Iq2Xs => {
            fields_of_pairs(x.codes, x.signs);
            values_of_plane(x.scales, 4, 1, 8);
            assert(b.subrange(2, 66) =~= pairs(x.codes, x.signs));
            assert(b.subrange(66, 74) =~= plane(x.scales, 4, 1));
        },
        _ => {
            joined_of_parts(x.codes, 256, 1024);
            assert(below(high(x.codes, 256), 4));
            values_of_plane(high(x.codes, 256), 2, 1, 8);
            values_of_plane(x.scales, 4, 1, 8);
            assert(b.subrange(2, 34) =~= low(x.codes, 256));
            assert(b.subrange(34, 66) =~= x.signs);
            assert(b.subrange(66, 74) =~= plane(high(x.codes, 256), 2, 1));
            assert(b.subrange(74, 82) =~= plane(x.scales, 4, 1));
        },
    }
    assert(b.subrange(0, 2) =~= d);
    half_back(x.d, b, 0);
    assert(block_of(ty, b) =~= x);
}

proof fn iq2_forth(b: Seq<u8>, ty: GgmlType)
    requires
        b.len() == ty.block_bytes(),
        ty == GgmlType::Iq2Xxs || ty == GgmlType::Iq2Xs || ty == GgmlType::Iq2S,
    ensures
        block_of(ty, b).fits(ty),
        block_of(ty, b).bytes(ty) == b,
{
    let x = block_of(ty, b);
    half_forth(b, 0);
    match ty {
        GgmlType::Iq2Xxs => {
            let c = b.subrange(2, 66);
            interleaved_of_runs(c);
            words_of_fields(second_run(c));
            bytes_below(first_run(c));
            low_of_wide(first_run(c), 256);
        },
        GgmlType::Iq2Xs => {
            pairs_of_fields(b.subrange(2, 66));
            plane_of_values(b.subrange(66, 74), 4, 1, 8);
        },
        _ => {
            plane_of_values(b.subrange(66, 74), 2, 1, 8);
            plane_of_values(b.subrange(74, 82), 4, 1, 8);
            bytes_below(b.subrange(2, 34));
            bytes_below(b.subrange(34, 66));
            parts_of_joined(b.subrange(2, 34), values(b.subrange(66, 74), 2, 1), 256, 4);
        },
    }
    assert(x.bytes(ty) =~= b);
}

proof fn iq34_back(x: BlockSpec, ty: GgmlType)
    requires
        x.fits(ty),
        ty == GgmlType::Iq3Xxs || ty == GgmlType::Iq3S || ty == GgmlType::Iq4Xs,
    ensures
        x.bytes(ty).len() == ty.block_bytes(),
        block_of(ty, x.bytes(ty)) == x,
{
    let b = x.bytes(ty);
    half_len(x.d);
    let d = le_bytes(x.d as nat, 2);
    match ty {
        GgmlType::Iq3Xxs => {
            wide_of_low(x.codes, 256);
            fields_of_words(x.signs, x.scales);
            assert(b.subrange(2, 66) =~= low(x.codes, 256));
            assert(b.subrange(66, 98) =~= words(x.signs, x.scales));
        },
        GgmlType::Iq3S => {
            joined_of_parts(x.codes, 256, 512);
            assert(below(high(x.codes, 256), 2));
            values_of_plane(high(x.codes, 256), 1, 1, 8);
            values_of_plane(x.scales, 4, 1, 4);
            assert(b.subrange(2, 66) =~= low(x.codes, 256));
            assert(b.subrange(66, 74) =~= plane(high(x.codes, 256), 1, 1));
            assert(b.subrange(74, 106) =~= x.signs);
            assert(b.subrange(106, 110) =~= plane(x.scales, 4, 1));
        },
        _ => {
            let s = wide(x.scales);
            assert forall|i: int| 0 <= i < s.len() implies (#[trigger] s[i]) < 64 by {
                assert(x.scales[i] < 64);
            }
            split_back(s, 64, 4, 2, 1, 1, 4, 2);
            low_of_wide(x.scales, 256);
            nibbles_back(x.codes, 16, 8);
            assert(b.subrange(2, 4) =~= plane(high(s, 16), 2, 1));
            assert(b.subrange(4, 8) =~= plane(low(s, 16), 4, 1));
            assert(b.subrange(8, 136) =~= plane(low(x.codes, 16), 4, 16));
        },
    }
    assert(b.subrange(0, 2) =~= d);
    half_back(x.d, b, 0);
    assert(block_of(ty, b) =~= x);
}

proof fn iq34_forth(b: Seq<u8>, ty: GgmlType)
    requires
        b.len() == ty.block_bytes(),
        ty == GgmlType::Iq3Xxs || ty == GgmlType::Iq3S || ty == GgmlType::Iq4Xs,
    ensures
        block_of(ty, b).fits(ty),
        block_of(ty, b).bytes(ty) == b,
{
    let x = block_of(ty, b);
    half_forth(b, 0);
    match ty {
        GgmlType::Iq3Xxs => {
            words_of_fields(b.subrange(66, 98));
            bytes_below(b.subrange(2, 66));
            low_of_wide(b.subrange(2, 66), 256);
        },
        GgmlType::Iq3S => {
            plane_of_values(b.subrange(66, 74), 1, 1, 8);
            plane_of_values(b.subrange(106, 110), 4, 1, 4);
            bytes_below(b.subrange(2, 66));
            bytes_below(b.subrange(74, 106));
            parts_of_joined(b.subrange(2, 66), values(b.subrange(66, 74), 1, 1), 256, 2);
        },
        _ => {
            let j = joined(
                values(b.subrange(4, 8), 4, 1),
                values(b.subrange(2, 4), 2, 1),
                16,
            );
            split_forth(b.subrange(4, 8), b.subrange(2, 4), 4, 2, 1, 1, 4, 2);
            assert(wide(x.scales) =~= j);
            assert forall|i: int| 0 <= i < x.scales.len() implies (#[trigger] x.scales[i]) < 64 by {
                assert(j[i] < 64);
            }
            nibbles_forth(b.subrange(8, 136), 16, 8);
        },
    }
    assert(x.bytes(ty) =~= b);
}

/// Unpacking a packed block gives its fields back, and the block has the size
/// that its type says.
pub proof fn unpack_gives_back(x: BlockSpec, ty: GgmlType)
    requires
        x.fits(ty),
    ensures
        x.bytes(ty).len() == ty.block_bytes(),
        block_of(ty, x.bytes(ty)) == x,
{
    match ty {
        GgmlType::Q8_0 | GgmlType::Q4_0 | GgmlType::Iq4Nl | GgmlType::Q4_1 | GgmlType::Q5_0
        | GgmlType::Q5_1 => small_back(x, ty),
        GgmlType::Q6K | GgmlType::Q4K | GgmlType::Q5K => k_back(x, ty),
        GgmlType::Iq2Xxs | GgmlType::Iq2Xs | GgmlType::Iq2S => iq2_back(x, ty),
        _ => iq34_back(x, ty),
    }
}

/// Every block of the right size holds fields of the right shape, and packing
/// them gives the block back.
pub proof fn pack_gives_back(b: Seq<u8>, ty: GgmlType)
    requires
        blocked(ty),
        b.len() == ty.block_bytes(),
    ensures
        block_of(ty, b).fits(ty),
        block_of(ty, b).bytes(ty) == b,
{
    match ty {
        GgmlType::Q8_0 | GgmlType::Q4_0 | GgmlType::Iq4Nl | GgmlType::Q4_1 | GgmlType::Q5_0
        | GgmlType::Q5_1 => small_forth(b, ty),
        GgmlType::Q6K | GgmlType::Q4K | GgmlType::Q5K => k_forth(b, ty),
        GgmlType::Iq2Xxs | GgmlType::Iq2Xs | GgmlType::Iq2S => iq2_forth(b, ty),
        _ => iq34_forth(b, ty),
    }
}

/// Whether the type stores its elements in blocks of integer fields.
pub fn is_blocked(ty: GgmlType) -> (r: bool)
    ensures
        r == blocked(ty),
{
    match ty {
        GgmlType::F32 | GgmlType::F16 | GgmlType::Bf16 | GgmlType::Other(_) => false,
        _ => true,
    }
}

fn small_shape(code_limit: u16, has_m: bool) -> (r: Shape)
    ensures
        r == (Shape {
            codes: 32,
            code_limit,
            scales: 0,
            scale_limit: 0,
            mins: 0,
            signs: 0,
            sign_limit: 0,
            has_m,
        }),
{
    Shape {
        codes: 32,
        code_limit,
        scales: 0,
        scale_limit: 0,
        mins: 0,
        signs: 0,
        sign_limit: 0,
        has_m,
    }
}

fn sub_shape(codes: usize, code_limit: u16, scales: usize, scale_limit: u16) -> (r: Shape)
    ensures
        r == (Shape {
            codes,
            code_limit,
            scales,
            scale_limit,
            mins: 0,
            signs: 0,
            sign_limit: 0,
            has_m: false,
        }),
{
    Shape { codes, code_limit, scales, scale_limit, mins: 0, signs: 0, sign_limit: 0, has_m: false }
}

/// The shape of a format's blocks.
pub fn shape(ty: GgmlType) -> (r: Shape)
    ensures
        r == shape_of(ty),
{
    match ty {
        GgmlType::Q8_0 => small_shape(256, false),
        GgmlType::Q4_1 => small_shape(16, true),
        GgmlType::Q5_0 => small_shape(32, false),
        GgmlType::Q5_1 => small_shape(32, true),
        GgmlType::Q6K => sub_shape(256, 64, 16, 256),
        GgmlType::Q4K => Shape { mins: 8, has_m: true, ..sub_shape(256, 16, 8, 64) },
        GgmlType::Q5K => Shape { mins: 8, has_m: true, ..sub_shape(256, 32, 8, 64) },
        GgmlType::Iq2Xxs => Shape { signs: 32, sign_limit: 128, ..sub_shape(32, 256, 8, 16) },
        GgmlType::Iq2Xs => Shape { signs: 32, sign_limit: 128, ..sub_shape(32, 512, 16, 16) },
        GgmlType::Iq2S => Shape { signs: 32, sign_limit: 256, ..sub_shape(32, 1024, 16, 16) },
        GgmlType::Iq3Xxs => Shape { signs: 32, sign_limit: 128, ..sub_shape(64, 256, 8, 16) },
        GgmlType::Iq3S => Shape { signs: 32, sign_limit: 256, ..sub_shape(64, 512, 8, 16) },
        GgmlType::Iq4Xs => sub_shape(256, 16, 8, 64),
        _ => small_shape(16, false),
    }
}

fn all_below(v: &Vec<u8>, n: u16) -> (r: bool)
    ensures
        r == below(v@, n as int),
{
    for i in 0..v.len()
        invariant
            forall|j: int| 0 <= j < i ==> (#[trigger] v@[j]) < n,
    {
        if v[i] as u16 >= n {
            return false;
        }
    }
    true
}

fn all_under(v: &Vec<u16>, n: u16) -> (r: bool)
    ensures
        r == under(v@, n as int),
{
    for i in 0..v.len()
        invariant
            forall|j: int| 0 <= j < i ==> (#[trigger] v@[j]) < n,
    {
        if v[i] >= n {
            return false;
        }
    }
    true
}

fn half_of(b: &[u8], at: usize) -> (r: u16)
    requires
        at + 2 <= b@.len(),
    ensures
        r == half_at(b@, at as int),
{
    assert(b@.len() == b.len());
    u16_of(slice_subrange(b, at, at + 2))
}

fn push_nibbles(out: &mut Vec<u8>, codes: &Vec<u16>, s: usize)
    requires
        s == 16 || s == 32 || s == 64,
        codes@.len() as int % (2 * s) == 0,
    ensures
        final(out)@ == old(out)@ + plane(low(codes@, 16), 4, s as int),
{
    let lo = low_parts(codes.as_slice(), 16);
    push_plane(out, lo.as_slice(), 4, s);
}

fn push_tops(out: &mut Vec<u8>, codes: &Vec<u16>, bits: usize, s: usize)
    requires
        (bits == 1 && s == 1 && codes@.len() % 8 == 0) || (bits == 1 && s == 32 && codes@.len()
            % 256 == 0) || (bits == 2 && s == 32 && codes@.len() % 128 == 0),
        under(codes@, 16 * crate::planes::limit(bits as int)),
    ensures
        final(out)@ == old(out)@ + plane(high(codes@, 16), bits as int, s as int),
{
    proof {
        joined_of_parts(codes@, 16, 16 * crate::planes::limit(bits as int));
    }
    let hi = high_parts(codes.as_slice(), 16);
    assert(1 * crate::planes::per_byte(1) == 8);
    assert(32 * crate::planes::per_byte(1) == 256);
    assert(32 * crate::planes::per_byte(2) == 128);
    push_plane(out, hi.as_slice(), bits, s);
}

/// Appends a plane with the stride one.
fn push_close(out: &mut Vec<u8>, v: &Vec<u8>, bits: usize)
    requires
        bits == 1 || bits == 2 || bits == 4,
        v@.len() % 8 == 0,
        below(v@, crate::planes::limit(bits as int)),
    ensures
        final(out)@ == old(out)@ + plane(v@, bits as int, 1),
{
    assert(1 * crate::planes::per_byte(1) == 8);
    assert(1 * crate::planes::per_byte(2) == 4);
    assert(1 * crate::planes::per_byte(4) == 2);
    push_plane(out, v.as_slice(), bits, 1);
}

impl Block {
    /// Whether the block has the shape of the format.
    pub fn has_shape(&self, ty: GgmlType) -> (r: bool)
        ensures
            r == self@.fits(ty),
    {
        let s = shape(ty);
        is_blocked(ty) && self.codes.len() == s.codes && all_under(&self.codes, s.code_limit)
            && self.scales.len() == s.scales && all_below(&self.scales, s.scale_limit)
            && self.mins.len() == s.mins && all_below(&self.mins, 64) && self.signs.len()
            == s.signs && all_below(&self.signs, s.sign_limit) && (s.has_m || self.m == 0)
    }

    fn pack_small(&self, ty: GgmlType, out: &mut Vec<u8>)
        requires
            self@.fits(ty),
            ty == GgmlType::Q8_0 || ty == GgmlType::Q4_0 || ty == GgmlType::Iq4Nl || ty
                == GgmlType::Q4_1 || ty == GgmlType::Q5_0 || ty == GgmlType::Q5_1,
        ensures
            final(out)@ == old(out)@ + self@.bytes(ty),
    {
        push_le(out, self.d as u64, 2);
        match ty {
            GgmlType::Q8_0 => {
                let mut lo = low_parts(self.codes.as_slice(), 256);
                out.append(&mut lo);
            },
            GgmlType::Q4_0 | GgmlType::Iq4Nl => {
                push_nibbles(out, &self.codes, 16);
            },
            GgmlType::Q4_1 => {
                push_le(out, self.m as u64, 2);
                push_nibbles(out, &self.codes, 16);
            },
            GgmlType::Q5_0 => {
                push_tops(out, &self.codes, 1, 1);
                push_nibbles(out, &self.codes, 16);
            },
            _ => {
                push_le(out, self.m as u64, 2);
                push_tops(out, &self.codes, 1, 1);
                push_nibbles(out, &self.codes, 16);
            },
        }
        assert(out@ =~= old(out)@ + self@.bytes(ty));
    }

    fn pack_k(&self, ty: GgmlType, out: &mut Vec<u8>)
        requires
            self@.fits(ty),
            ty == GgmlType::Q6K || ty == GgmlType::Q4K || ty == GgmlType::Q5K,
        ensures
            final(out)@ == old(out)@ + self@.bytes(ty),
    {
        match ty {
            GgmlType::Q6K => {
                push_nibbles(out, &self.codes, 64);
                push_tops(out, &self.codes, 2, 32);
                out.extend_from_slice(self.scales.as_slice());
                push_le(out, self.d as u64, 2);
            },
            GgmlType::Q4K => {
                push_le(out, self.d as u64, 2);
                push_le(out, self.m as u64, 2);
                push_k_scales(out, &self.scales, &self.mins);
                push_nibbles(out, &self.codes, 32);
            },
            _ => {
                push_le(out, self.d as u64, 2);
                push_le(out, self.m as u64, 2);
                push_k_scales(out, &self.scales, &self.mins);
                push_tops(out, &self.codes, 1, 32);
                push_nibbles(out, &self.codes, 32);
            },
        }
        assert(out@ =~= old(out)@ + self@.bytes(ty));
    }

    fn pack_iq2(&self, ty: GgmlType, out: &mut Vec<u8>)
        requires
            self@.fits(ty),
            ty == GgmlType::Iq2Xxs || ty == GgmlType::Iq2Xs || ty == GgmlType::Iq2S,
        ensures
            final(out)@ == old(out)@ + self@.bytes(ty),
    {
        push_le(out, self.d as u64, 2);
        match ty {
            GgmlType::Iq2Xxs => {
                proof {
                    fields_of_words(self.signs@, self.scales@);
                }
                let lo = low_parts(self.codes.as_slice(), 256);
                let mut w: Vec<u8> = Vec::new();
                push_words(&mut w, &self.signs, &self.scales);
                assert(w@ =~= words(self.signs@, self.scales@));
                push_interleaved(out, &lo, &w);
            },
            GgmlType::Iq2Xs => {
                push_pairs(out, &self.codes, &self.signs);
                push_close(out, &self.scales, 4);
            },
            _ => {
                proof {
                    joined_of_parts(self.codes@, 256, 1024);
                    assert(below(high(self.codes@, 256), 4));
                }
                let mut lo = low_parts(self.codes.as_slice(), 256);
                let hi = high_parts(self.codes.as_slice(), 256);
                out.append(&mut lo);
                out.extend_from_slice(self.signs.as_slice());
                push_close(out, &hi, 2);
                push_close(out, &self.scales, 4);
            },
        }
        assert(out@ =~= old(out)@ + self@.bytes(ty));
    }

    fn pack_iq34(&self, ty: GgmlType, out: &mut Vec<u8>)
        requires
            self@.fits(ty),
            ty == GgmlType::Iq3Xxs || ty == GgmlType::Iq3S || ty == GgmlType::Iq4Xs,
        ensures
            final(out)@ == old(out)@ + self@.bytes(ty),
    {
        push_le(out, self.d as u64, 2);
        match ty {
            GgmlType::Iq3Xxs => {
                let mut lo = low_parts(self.codes.as_slice(), 256);
                out.append(&mut lo);
                push_words(out, &self.signs, &self.scales);
            },
            GgmlType::Iq3S => {
                proof {
                    joined_of_parts(self.codes@, 256, 512);
                    assert(below(high(self.codes@, 256), 2));
                }
                let mut lo = low_parts(self.codes.as_slice(), 256);
                let hi = high_parts(self.codes.as_slice(), 256);
                out.append(&mut lo);
                push_close(out, &hi, 1);
                out.extend_from_slice(self.signs.as_slice());
                push_close(out, &self.scales, 4);
            },
            _ => {
                let s = widened(&self.scales);
                proof {
                    assert forall|i: int| 0 <= i < s@.len() implies (#[trigger] s@[i]) < 64 by {
                        assert(self.scales@[i] < 64);
                    }
                    joined_of_parts(s@, 16, 64);
                    assert(below(high(s@, 16), 4));
                }
                let hi = high_parts(s.as_slice(), 16);
                let lo = low_parts(s.as_slice(), 16);
                push_close(out, &hi, 2);
                push_close(out, &lo, 4);
                push_nibbles(out, &self.codes, 16);
            },
        }
        assert(out@ =~= old(out)@ + self@.bytes(ty));
    }

    /// Appends the bytes of the block.
    pub fn pack(&self, ty: GgmlType, out: &mut Vec<u8>)
        requires
            self@.fits(ty),
        ensures
            final(out)@ == old(out)@ + self@.bytes(ty),
    {
        match ty {
            GgmlType::Q8_0 | GgmlType::Q4_0 | GgmlType::Iq4Nl | GgmlType::Q4_1 | GgmlType::Q5_0
            | GgmlType::Q5_1 => self.pack_small(ty, out),
            GgmlType::Q6K | GgmlType::Q4K | GgmlType::Q5K => self.pack_k(ty, out),
            GgmlType::Iq2Xxs | GgmlType::Iq2Xs | GgmlType::Iq2S => self.pack_iq2(ty, out),
            _ => self.pack_iq34(ty, out),
        }
    }

    fn unpack_small(ty: GgmlType, b: &[u8]) -> (r: Block)
        requires
            b@.len() == ty.block_bytes(),
            ty == GgmlType::Q8_0 || ty == GgmlType::Q4_0 || ty == GgmlType::Iq4Nl || ty
                == GgmlType::Q4_1 || ty == GgmlType::Q5_0 || ty == GgmlType::Q5_1,
        ensures
            r@ == block_of(ty, b@),
    {
        let d = half_of(b, 0);
        let (m, codes): (u16, Vec<u16>) = match ty {
            GgmlType::Q8_0 => (0, codes_of(b, 2, 34)),
            GgmlType::Q4_0 | GgmlType::Iq4Nl => (0, widened(&read_plane(b, 2, 18, 4, 16))),
            GgmlType::Q4_1 => (half_of(b, 2), widened(&read_plane(b, 4, 20, 4, 16))),
            GgmlType::Q5_0 => (0, read_split(b, 6, 22, 16, 2, 6, 1, 1)),
            _ => (half_of(b, 2), read_split(b, 8, 24, 16, 4, 8, 1, 1)),
        };
        let r = Block { d, m, scales: Vec::new(), mins: Vec::new(), signs: Vec::new(), codes };
        assert(r@ =~= block_of(ty, b@));
        r
    }

    fn unpack_k(ty: GgmlType, b: &[u8]) -> (r: Block)
        requires
            b@.len() == ty.block_bytes(),
            ty == GgmlType::Q6K || ty == GgmlType::Q4K || ty == GgmlType::Q5K,
        ensures
            r@ == block_of(ty, b@),
    {
        let r = match ty {
            GgmlType::Q6K => Block {
                d: half_of(b, 208),
                m: 0,
                scales: bytes_of(b, 192, 208),
                mins: Vec::new(),
                signs: Vec::new(),
                codes: read_split(b, 0, 128, 64, 128, 192, 2, 32),
            },
            GgmlType::Q4K => {
                let (scales, mins) = read_k_scales(b, 4);
                let codes = widened(&read_plane(b, 16, 144, 4, 32));
                Block {
                    d: half_of(b, 0),
                    m: half_of(b, 2),
                    scales,
                    mins,
                    signs: Vec::new(),
                    codes,
                }
            },
            _ => {
                let (scales, mins) = read_k_scales(b, 4);
                let codes = read_split(b, 48, 176, 32, 16, 48, 1, 32);
                Block {
                    d: half_of(b, 0),
                    m: half_of(b, 2),
                    scales,
                    mins,
                    signs: Vec::new(),
                    codes,
                }
            },
        };
        assert(r@ =~= block_of(ty, b@));
        r
    }

    fn unpack_iq2(ty: GgmlType, b: &[u8]) -> (r: Block)
        requires
            b@.len() == ty.block_bytes(),
            ty == GgmlType::Iq2Xxs || ty == GgmlType::Iq2Xs || ty == GgmlType::Iq2S,
        ensures
            r@ == block_of(ty, b@),
    {
        let d = half_of(b, 0);
        let mins: Vec<u8> = Vec::new();
        let r = match ty {
            GgmlType::Iq2Xxs => {
                let (one, two) = read_runs(b, 2, 66);
                let signs = read_word_signs(two.as_slice(), 0, 32);
                let scales = read_word_scales(two.as_slice(), 0, 32);
                assert(two@.subrange(0, 32) =~= two@);
                Block { d, m: 0, scales, mins, signs, codes: widened(&one) }
            },
            GgmlType::Iq2Xs => {
                let (codes, signs) = read_pairs(b, 2, 66);
                let scales = read_plane(b, 66, 74, 4, 1);
                Block { d, m: 0, scales, mins, signs, codes }
            },
            _ => {
                let lo = bytes_of(b, 2, 34);
                let hi = read_plane(b, 66, 74, 2, 1);
                proof {
                    plane_of_values(b@.subrange(66, 74), 2, 1, 8);
                    bytes_below(lo@);
                }
                let codes = join_parts(lo.as_slice(), hi.as_slice(), 256);
                let signs = bytes_of(b, 34, 66);
                let scales = read_plane(b, 74, 82, 4, 1);
                Block { d, m: 0, scales, mins, signs, codes }
            },
        };
        assert(r@ =~= block_of(ty, b@));
        r
    }

    fn unpack_iq34(ty: GgmlType, b: &[u8]) -> (r: Block)
        requires
            b@.len() == ty.block_bytes(),
            ty == GgmlType::Iq3Xxs || ty == GgmlType::Iq3S || ty == GgmlType::Iq4Xs,
        ensures
            r@ == block_of(ty, b@),
    {
        let d = half_of(b, 0);
        let mins: Vec<u8> = Vec::new();
        let r = match ty {
            GgmlType::Iq3Xxs => {
                let signs = read_word_signs(b, 66, 98);
                let scales = read_word_scales(b, 66, 98);
                Block { d, m: 0, scales, mins, signs, codes: codes_of(b, 2, 66) }
            },
            GgmlType::Iq3S => {
                let lo = bytes_of(b, 2, 66);
                let hi = read_plane(b, 66, 74, 1, 1);
                proof {
                    plane_of_values(b@.subrange(66, 74), 1, 1, 8);
                    bytes_below(lo@);
                }
                let codes = join_parts(lo.as_slice(), hi.as_slice(), 256);
                let signs = bytes_of(b, 74, 106);
                let scales = read_plane(b, 106, 110, 4, 1);
                Block { d, m: 0, scales, mins, signs, codes }
            },
            _ => {
                let s = read_split(b, 4, 8, 1, 2, 4, 2, 1);
                let scales = low_parts(s.as_slice(), 256);
                let codes = widened(&read_plane(b, 8, 136, 4, 16));
                Block { d, m: 0, scales, mins, signs: Vec::new(), codes }
            },
        };
        assert(r@ =~= block_of(ty, b@));
        r
    }

    /// The fields of a block.
    pub fn unpack(ty: GgmlType, b: &[u8]) -> (r: Block)
        requires
            blocked(ty),
            b@.len() == ty.block_bytes(),
        ensures
            r@ == block_of(ty, b@),
            r@.fits(ty),
    {
        proof {
            pack_gives_back(b@, ty);
        }
        match ty {
            GgmlType::Q8_0 | GgmlType::Q4_0 | GgmlType::Iq4Nl | GgmlType::Q4_1 | GgmlType::Q5_0
            | GgmlType::Q5_1 => Self::unpack_small(ty, b),
            GgmlType::Q6K | GgmlType::Q4K | GgmlType::Q5K => Self::unpack_k(ty, b),
            GgmlType::Iq2Xxs | GgmlType::Iq2Xs | GgmlType::Iq2S => Self::unpack_iq2(ty, b),
            _ => Self::unpack_iq34(ty, b),
        }
    }
}

/// Codes from a plane of low nibbles and a plane of higher bits.
fn read_split(
    b: &[u8],
    from: usize,
    to: usize,
    s: usize,
    hi_from: usize,
    hi_to: usize,
    bits: usize,
    t: usize,
) -> (r: Vec<u16>)
    requires
        from <= to <= b@.len(),
        hi_from <= hi_to <= b@.len(),
        to - from <= 128,
        hi_to - hi_from <= 64,
        0 < s <= 64,
        0 < t <= 64,
        (to - from) % (s as int) == 0,
        (hi_to - hi_from) % (t as int) == 0,
        bits == 1 || bits == 2,
        (to - from) * 2 == (hi_to - hi_from) * crate::planes::per_byte(bits as int),
    ensures
        r@ == joined(
            values(b@.subrange(from as int, to as int), 4, s as int),
            values(b@.subrange(hi_from as int, hi_to as int), bits as int, t as int),
            16,
        ),
{
    let lo = read_plane(b, from, to, 4, s);
    let hi = read_plane(b, hi_from, hi_to, bits, t);
    proof {
        reveal(values);
    }
    join_parts(lo.as_slice(), hi.as_slice(), 16)
}

/// The blocks of a row.
pub open spec fn blocks_of(ty: GgmlType, data: Seq<u8>) -> Seq<BlockSpec> {
    let n = ty.block_bytes() as int;
    Seq::new(
        (data.len() as int / n) as nat,
        |i: int| block_of(ty, data.subrange(i * n, (i + 1) * n)),
    )
}

/// What blocks are.
pub open spec fn block_views(v: Seq<Block>) -> Seq<BlockSpec> {
    Seq::new(v.len(), |i: int| v[i]@)
}

/// The bytes of blocks in a row.
pub open spec fn row_of(ty: GgmlType, v: Seq<BlockSpec>) -> Seq<u8>
    decreases v.len(),
{
    if v.len() == 0 {
        seq![]
    } else {
        row_of(ty, v.drop_last()) + v.last().bytes(ty)
    }
}

/// The blocks of a row; `None` if the type has no blocks or the row does not
/// consist of whole ones.
pub fn unpack_row(ty: GgmlType, data: &[u8]) -> (r: Option<Vec<Block>>)
    ensures
        match r {
            Some(v) => blocked(ty) && data@.len() as int % ty.block_bytes() as int == 0
                && block_views(v@) == blocks_of(ty, data@),
            None => !blocked(ty) || data@.len() as int % ty.block_bytes() as int != 0,
        },
{
    if !is_blocked(ty) {
        return None;
    }
    let n: usize = ty.block_layout().1 as usize;
    if data.len() % n != 0 {
        return None;
    }
    let count: usize = data.len() / n;
    let mut v: Vec<Block> = Vec::new();
    let ghost all = blocks_of(ty, data@);
    let mut i: usize = 0;
    while i < count
        invariant
            i <= count,
            count == data@.len() / n as nat,
            data@.len() == data.len(),
            blocked(ty),
            n == ty.block_bytes(),
            n > 0,
            all == blocks_of(ty, data@),
            block_views(v@) == all.subrange(0, i as int),
        decreases count - i,
    {
        assert((i + 1) * n <= data@.len() && i * n + n == (i + 1) * n) by (nonlinear_arith)
            requires
                i < count,
                count == data@.len() / n as nat,
                n > 0,
        ;
        assert(0 <= i * n) by (nonlinear_arith)
            requires
                0 <= i,
                0 < n,
        ;
        let x = Block::unpack(ty, slice_subrange(data, i * n, i * n + n));
        let ghost before = v@;
        v.push(x);
        assert(block_views(v@) =~= block_views(before).push(x@));
        assert(all.subrange(0, i + 1) =~= all.subrange(0, i as int).push(x@));
        i += 1;
    }
    assert(all.subrange(0, count as int) =~= all);
    Some(v)
}

/// Appends the blocks of a row; leaves `out` alone and returns `false` if one of
/// them does not have the shape of the format.
pub fn pack_row(ty: GgmlType, blocks: &Vec<Block>, out: &mut Vec<u8>) -> (r: bool)
    ensures
        r == (forall|i: int| 0 <= i < blocks@.len() ==> (#[trigger] blocks@[i])@.fits(ty)),
        r ==> final(out)@ == old(out)@ + row_of(ty, block_views(blocks@)),
        !r ==> final(out)@ == old(out)@,
{
    for i in 0..blocks.len()
        invariant
            forall|j: int| 0 <= j < i ==> (#[trigger] blocks@[j])@.fits(ty),
            out@ == old(out)@,
    {
        if !blocks[i].has_shape(ty) {
            return false;
        }
    }
    let ghost all = block_views(blocks@);
    let ghost start = out@;
    for i in 0..blocks.len()
        invariant
            forall|j: int| 0 <= j < blocks@.len() ==> (#[trigger] blocks@[j])@.fits(ty),
            all == block_views(blocks@),
            out@ == start + row_of(ty, all.subrange(0, i as int)),
    {
        blocks[i].pack(ty, out);
        let ghost part = all.subrange(0, i + 1);
        assert(part.drop_last() =~= all.subrange(0, i as int));
        assert(part.last() == blocks@[i as int]@);
        assert(out@ =~= start + row_of(ty, part));
    }
    assert(all.subrange(0, all.len() as int) =~= all);
    true
}

/// A packed row comes apart into the blocks that it was packed from.
pub proof fn blocks_of_row(ty: GgmlType, v: Seq<BlockSpec>)
    requires
        forall|i: int| 0 <= i < v.len() ==> (#[trigger] v[i]).fits(ty),
        blocked(ty),
    ensures
        row_of(ty, v).len() == v.len() * ty.block_bytes(),
        blocks_of(ty, row_of(ty, v)) == v,
    decreases v.len(),
{
    let n = ty.block_bytes() as int;
    if v.len() > 0 {
        let w = v.drop_last();
        assert forall|i: int| 0 <= i < w.len() implies (#[trigger] w[i]).fits(ty) by {
            assert(w[i] == v[i]);
        }
        blocks_of_row(ty, w);
        assert(v[v.len() - 1].fits(ty));
        unpack_gives_back(v.last(), ty);
        let head = row_of(ty, w);
        let all = row_of(ty, v);
        assert(w.len() * n + n == v.len() * n) by (nonlinear_arith)
            requires
                w.len() + 1 == v.len(),
        ;
        vstd::arithmetic::div_mod::lemma_div_multiples_vanish(v.len() as int, n);
        vstd::arithmetic::div_mod::lemma_div_multiples_vanish(w.len() as int, n);
        assert(n * v.len() as int == v.len() * n && n * w.len() as int == w.len() * n)
            by (nonlinear_arith);
        assert forall|i: int| 0 <= i < v.len() implies #[trigger] blocks_of(ty, all)[i] == v[i] by {
            if i < w.len() {
                assert((i + 1) * n <= w.len() * n && 0 <= i * n && i * n <= (i + 1) * n)
                    by (nonlinear_arith)
                    requires
                        0 <= i < w.len(),
                        n > 0,
                ;
                assert(all.subrange(i * n, (i + 1) * n) =~= head.subrange(i * n, (i + 1) * n));
                assert(blocks_of(ty, head)[i] == w[i]);
            } else {
                assert(i == w.len());
                assert(all.subrange(i * n, (i + 1) * n) =~= v.last().bytes(ty));
            }
        }
        assert(blocks_of(ty, all) =~= v);
    } else {
        assert(blocks_of(ty, row_of(ty, v)) =~= v);
    }
}

} // verus!
