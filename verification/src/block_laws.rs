//! Where the fields of a block lie in its bytes, format by format.
//!
//! Each law holds of a block that is packed and of bytes that are unpacked.

use vstd::arithmetic::power2::*;
use vstd::prelude::*;

use crate::block::{block_of, pack_gives_back, unpack_gives_back, BlockSpec};
use crate::ggml_type::GgmlType;
use crate::le::le_bytes;
use crate::pieces::{high, interleaved, k_scales, low, pairs, wide, word, words};
use crate::planes::{plane, values_lie_in_fields};

verus! {

proof fn both_ways(x: BlockSpec, b: Seq<u8>, ty: GgmlType)
    requires
        (x.fits(ty) && b == x.bytes(ty)) || (crate::block::blocked(ty) && b.len()
            == ty.block_bytes() && x == block_of(ty, b)),
    ensures
        x.fits(ty),
        b == x.bytes(ty),
        b.len() == ty.block_bytes(),
{
    if !(x.fits(ty) && b == x.bytes(ty)) {
        pack_gives_back(b, ty);
    }
    unpack_gives_back(x, ty);
}

proof fn two_bytes(v: u16)
    ensures
        le_bytes(v as nat, 2).len() == 2,
        le_bytes(v as nat, 2)[0] + 256 * le_bytes(v as nat, 2)[1] == v,
{
    reveal_with_fuel(le_bytes, 3);
}

proof fn four_bytes(v: nat)
    requires
        v < 0x1_0000_0000,
    ensures
        le_bytes(v, 4).len() == 4,
        le_bytes(v, 4)[0] + 0x100 * le_bytes(v, 4)[1] + 0x1_0000 * le_bytes(v, 4)[2] + 0x100_0000
            * le_bytes(v, 4)[3] == v,
{
    reveal_with_fuel(le_bytes, 5);
}

/// Q8_0: the scale in two bytes, low byte first, then a byte per element.
#[verifier::spinoff_prover]
#[verifier::rlimit(60)]
pub proof fn q8_0_layout(x: BlockSpec, b: Seq<u8>, e: int)
    requires
        (b == x.bytes(GgmlType::Q8_0) && x.codes.len() == 32 && (forall|i: int|
            0 <= i < 32 ==> (#[trigger] x.codes[i]) < 256) && x.scales.len() == 0 && x.mins.len()
            == 0 && x.signs.len() == 0 && x.m == 0) || (b.len() == 34 && x == block_of(
            GgmlType::Q8_0,
            b,
        )),
        0 <= e < 32,
    ensures
        x.fits(GgmlType::Q8_0),
        b.len() == 34,
        b[0] + 256 * b[1] == x.d,
        b[2 + e] == x.codes[e],
{
    both_ways(x, b, GgmlType::Q8_0);
    two_bytes(x.d);
}

proof fn nibbles(codes: Seq<u16>, s: int, n: int, g: int, h: nat, j: int)
    requires
        s == 16 || s == 32 || s == 64,
        codes.len() == n * (s * 2),
        0 <= g < n,
        h < 2,
        0 <= j < s,
    ensures
        plane(low(codes, 16), 4, s).len() == n * s,
        plane(low(codes, 16), 4, s)[g * s + j] as int / pow2(4 * h) as int % 16 == codes[g * (s * 2)
            + h * s + j] as int % 16,
        0 <= g * s + j < n * s,
        0 <= g * (s * 2) + h * s + j < codes.len(),
{
    lemma2_to64();
    let v = low(codes, 16);
    assert forall|i: int| 0 <= i < v.len() implies (#[trigger] v[i]) < pow2(4) by {}
    values_lie_in_fields(v, 4, s, n, g, h, j);
    assert(0 <= g * (s * 2) + h * s + j < n * (s * 2)) by (nonlinear_arith)
        requires
            0 <= g < n,
            0 <= h < 2,
            0 <= j < s,
    ;
}

/// Q4_0 and IQ4_NL: the scale, then a byte per two elements, the element of the
/// first half of the block in the low nibble.
#[verifier::spinoff_prover]
#[verifier::rlimit(60)]
pub proof fn q4_0_layout(ty: GgmlType, x: BlockSpec, b: Seq<u8>, h: nat, j: int)
    requires
        ty == GgmlType::Q4_0 || ty == GgmlType::Iq4Nl,
        (b == x.bytes(ty) && x.codes.len() == 32 && (forall|i: int|
            0 <= i < 32 ==> (#[trigger] x.codes[i]) < 16) && x.scales.len() == 0 && x.mins.len()
            == 0 && x.signs.len() == 0 && x.m == 0) || (b.len() == 18 && x == block_of(ty, b)),
        h < 2,
        0 <= j < 16,
    ensures
        x.fits(ty),
        b.len() == 18,
        b[0] + 256 * b[1] == x.d,
        b[2 + j] as int / pow2(4 * h) as int % 16 == x.codes[16 * h + j],
{
    both_ways(x, b, ty);
    two_bytes(x.d);
    nibbles(x.codes, 16, 1, 0, h, j);
    assert(x.codes[16 * h + j] < 16);
}

/// Q4_1: the scale and the min in two bytes each, then a byte per two elements.
#[verifier::spinoff_prover]
#[verifier::rlimit(60)]
pub proof fn q4_1_layout(x: BlockSpec, b: Seq<u8>, h: nat, j: int)
    requires
        (b == x.bytes(GgmlType::Q4_1) && x.codes.len() == 32 && (forall|i: int|
            0 <= i < 32 ==> (#[trigger] x.codes[i]) < 16) && x.scales.len() == 0 && x.mins.len()
            == 0 && x.signs.len() == 0) || (b.len() == 20 && x == block_of(GgmlType::Q4_1, b)),
        h < 2,
        0 <= j < 16,
    ensures
        x.fits(GgmlType::Q4_1),
        b.len() == 20,
        b[0] + 256 * b[1] == x.d,
        b[2] + 256 * b[3] == x.m,
        b[4 + j] as int / pow2(4 * h) as int % 16 == x.codes[16 * h + j],
{
    both_ways(x, b, GgmlType::Q4_1);
    two_bytes(x.d);
    two_bytes(x.m);
    nibbles(x.codes, 16, 1, 0, h, j);
    assert(x.codes[16 * h + j] < 16);
}

proof fn top_bits(codes: Seq<u16>, div: int, s: int, n: int, g: int, m: nat, j: int)
    requires
        div == 16 || div == 256,
        s == 1 || s == 32,
        codes.len() == n * (s * 8),
        forall|i: int| 0 <= i < codes.len() ==> (#[trigger] codes[i]) < 2 * div,
        0 <= g < n,
        m < 8,
        0 <= j < s,
    ensures
        plane(high(codes, div), 1, s).len() == n * s,
        plane(high(codes, div), 1, s)[g * s + j] as int / pow2(m) as int % 2 == codes[g * (s * 8)
            + m * s + j] as int / div,
        0 <= g * s + j < n * s,
        0 <= g * (s * 8) + m * s + j < codes.len(),
{
    lemma2_to64();
    let v = high(codes, div);
    assert forall|i: int| 0 <= i < v.len() implies (#[trigger] v[i]) < pow2(1) by {
        assert(codes[i] < 2 * div);
        assert(codes[i] as int / div < 2);
    }
    values_lie_in_fields(v, 1, s, n, g, m, j);
    let e = g * (s * 8) + m * s + j;
    assert(0 <= e < n * (s * 8)) by (nonlinear_arith)
        requires
            0 <= g < n,
            0 <= m < 8,
            0 <= j < s,
            e == g * (s * 8) + m * s + j,
    ;
    assert(codes[e] < 2 * div);
}

/// Q5_0: the scale, then the fifth bits of the elements, eight consecutive ones to
/// a byte, then the low nibbles as in Q4_0.
#[verifier::spinoff_prover]
#[verifier::rlimit(60)]
pub proof fn q5_0_layout(x: BlockSpec, b: Seq<u8>, g: int, m: nat, h: nat, j: int)
    requires
        (b == x.bytes(GgmlType::Q5_0) && x.codes.len() == 32 && (forall|i: int|
            0 <= i < 32 ==> (#[trigger] x.codes[i]) < 32) && x.scales.len() == 0 && x.mins.len()
            == 0 && x.signs.len() == 0 && x.m == 0) || (b.len() == 22 && x == block_of(
            GgmlType::Q5_0,
            b,
        )),
        0 <= g < 4,
        m < 8,
        h < 2,
        0 <= j < 16,
    ensures
        x.fits(GgmlType::Q5_0),
        b.len() == 22,
        b[0] + 256 * b[1] == x.d,
        b[2 + g] as int / pow2(m) as int % 2 == x.codes[8 * g + m] as int / 16,
        b[6 + j] as int / pow2(4 * h) as int % 16 == x.codes[16 * h + j] as int % 16,
{
    both_ways(x, b, GgmlType::Q5_0);
    two_bytes(x.d);
    nibbles(x.codes, 16, 1, 0, h, j);
    top_bits(x.codes, 16, 1, 4, g, m, 0);
}

/// Q5_1: the scale and the min, then the fifth bits and the low nibbles as in Q5_0.
#[verifier::spinoff_prover]
#[verifier::rlimit(60)]
pub proof fn q5_1_layout(x: BlockSpec, b: Seq<u8>, g: int, m: nat, h: nat, j: int)
    requires
        (b == x.bytes(GgmlType::Q5_1) && x.codes.len() == 32 && (forall|i: int|
            0 <= i < 32 ==> (#[trigger] x.codes[i]) < 32) && x.scales.len() == 0 && x.mins.len()
            == 0 && x.signs.len() == 0) || (b.len() == 24 && x == block_of(GgmlType::Q5_1, b)),
        0 <= g < 4,
        m < 8,
        h < 2,
        0 <= j < 16,
    ensures
        x.fits(GgmlType::Q5_1),
        b.len() == 24,
        b[0] + 256 * b[1] == x.d,
        b[2] + 256 * b[3] == x.m,
        b[4 + g] as int / pow2(m) as int % 2 == x.codes[8 * g + m] as int / 16,
        b[8 + j] as int / pow2(4 * h) as int % 16 == x.codes[16 * h + j] as int % 16,
{
    both_ways(x, b, GgmlType::Q5_1);
    two_bytes(x.d);
    two_bytes(x.m);
    nibbles(x.codes, 16, 1, 0, h, j);
    top_bits(x.codes, 16, 1, 4, g, m, 0);
}

proof fn top_pairs(codes: Seq<u16>, div: int, s: int, n: int, g: int, m: nat, j: int)
    requires
        div == 16 || div == 256,
        s == 1 || s == 32,
        codes.len() == n * (s * 4),
        forall|i: int| 0 <= i < codes.len() ==> (#[trigger] codes[i]) < 4 * div,
        0 <= g < n,
        m < 4,
        0 <= j < s,
    ensures
        plane(high(codes, div), 2, s).len() == n * s,
        plane(high(codes, div), 2, s)[g * s + j] as int / pow2(2 * m) as int % 4 == codes[g * (s
            * 4) + m * s + j] as int / div,
        0 <= g * s + j < n * s,
        0 <= g * (s * 4) + m * s + j < codes.len(),
{
    lemma2_to64();
    let v = high(codes, div);
    assert forall|i: int| 0 <= i < v.len() implies (#[trigger] v[i]) < pow2(2) by {
        assert(codes[i] < 4 * div);
        assert(codes[i] as int / div < 4);
    }
    values_lie_in_fields(v, 2, s, n, g, m, j);
    let e = g * (s * 4) + m * s + j;
    assert(0 <= e < n * (s * 4)) by (nonlinear_arith)
        requires
            0 <= g < n,
            0 <= m < 4,
            0 <= j < s,
            e == g * (s * 4) + m * s + j,
    ;
    assert(codes[e] < 4 * div);
}

/// Q6_K: for each half of the block 64 bytes of low nibbles, element `j` with
/// element `j + 64`; then for each half 32 bytes of the two upper bits, of elements
/// `l`, `l + 32`, `l + 64` and `l + 96`; then sixteen scales and the block's scale.
#[verifier::spinoff_prover]
#[verifier::rlimit(60)]
pub proof fn q6_k_layout(
    x: BlockSpec,
    b: Seq<u8>,
    half: int,
    h: nat,
    j: int,
    m: nat,
    l: int,
    i: int,
)
    requires
        (b == x.bytes(GgmlType::Q6K) && x.codes.len() == 256 && (forall|i: int|
            0 <= i < 256 ==> (#[trigger] x.codes[i]) < 64) && x.scales.len() == 16 && x.mins.len()
            == 0 && x.signs.len() == 0 && x.m == 0) || (b.len() == 210 && x == block_of(
            GgmlType::Q6K,
            b,
        )),
        0 <= half < 2,
        h < 2,
        0 <= j < 64,
        m < 4,
        0 <= l < 32,
        0 <= i < 16,
    ensures
        x.fits(GgmlType::Q6K),
        b.len() == 210,
        b[64 * half + j] as int / pow2(4 * h) as int % 16 == x.codes[128 * half + 64 * h + j] as int
            % 16,
        b[128 + 32 * half + l] as int / pow2(2 * m) as int % 4 == x.codes[128 * half + 32 * m
            + l] as int / 16,
        b[192 + i] == x.scales[i],
        b[208] + 256 * b[209] == x.d,
{
    both_ways(x, b, GgmlType::Q6K);
    two_bytes(x.d);
    nibbles(x.codes, 64, 2, half, h, j);
    top_pairs(x.codes, 16, 32, 2, half, m, l);
}

proof fn k_scale_layout(scales: Seq<u8>, mins: Seq<u8>, j: int)
    requires
        scales.len() == 8,
        mins.len() == 8,
        forall|i: int| 0 <= i < 8 ==> (#[trigger] scales[i]) < 64,
        forall|i: int| 0 <= i < 8 ==> (#[trigger] mins[i]) < 64,
        0 <= j < 4,
    ensures
        ({
            let q = k_scales(scales, mins);
            &&& q.len() == 12
            &&& q[j] as int % 64 == scales[j]
            &&& q[j] as int / 64 == scales[j + 4] as int / 16
            &&& q[4 + j] as int % 64 == mins[j]
            &&& q[4 + j] as int / 64 == mins[j + 4] as int / 16
            &&& q[8 + j] as int % 16 == scales[j + 4] as int % 16
            &&& q[8 + j] as int / 16 == mins[j + 4] as int % 16
        }),
{
    assert(scales[j] < 64 && scales[j + 4] < 64 && mins[j] < 64 && mins[j + 4] < 64);
}

/// Q4_K: the scale and the scale of the mins, twelve bytes of six-bit scales and
/// mins, then per 64 elements 32 bytes, the first 32 elements in the low nibbles.
/// The first four scales and mins take the low six bits of a byte each; the others
/// have their low nibbles in the last four bytes and their two upper bits above the
/// first four.
#[verifier::spinoff_prover]
#[verifier::rlimit(60)]
pub proof fn q4_k_layout(x: BlockSpec, b: Seq<u8>, chunk: int, h: nat, l: int, j: int)
    requires
        (b == x.bytes(GgmlType::Q4K) && x.codes.len() == 256 && (forall|i: int|
            0 <= i < 256 ==> (#[trigger] x.codes[i]) < 16) && x.scales.len() == 8 && (forall|
            i: int,
        |
            0 <= i < 8 ==> (#[trigger] x.scales[i]) < 64) && x.mins.len() == 8 && (forall|i: int|
            0 <= i < 8 ==> (#[trigger] x.mins[i]) < 64) && x.signs.len() == 0) || (b.len() == 144
            && x == block_of(GgmlType::Q4K, b)),
        0 <= chunk < 4,
        h < 2,
        0 <= l < 32,
        0 <= j < 4,
    ensures
        x.fits(GgmlType::Q4K),
        b.len() == 144,
        b[0] + 256 * b[1] == x.d,
        b[2] + 256 * b[3] == x.m,
        b[4 + j] as int % 64 == x.scales[j],
        b[4 + j] as int / 64 == x.scales[j + 4] as int / 16,
        b[8 + j] as int % 64 == x.mins[j],
        b[8 + j] as int / 64 == x.mins[j + 4] as int / 16,
        b[12 + j] as int % 16 == x.scales[j + 4] as int % 16,
        b[12 + j] as int / 16 == x.mins[j + 4] as int % 16,
        b[16 + 32 * chunk + l] as int / pow2(4 * h) as int % 16 == x.codes[64 * chunk + 32 * h + l],
{
    both_ways(x, b, GgmlType::Q4K);
    two_bytes(x.d);
    two_bytes(x.m);
    k_scale_layout(x.scales, x.mins, j);
    nibbles(x.codes, 32, 4, chunk, h, l);
    assert(x.codes[64 * chunk + 32 * h + l] < 16);
}

/// Q5_K: as Q4_K, with 32 bytes of fifth bits before the nibbles: bit `2 chunk + h`
/// of byte `l` belongs to element `64 chunk + 32 h + l`.
#[verifier::spinoff_prover]
#[verifier::rlimit(60)]
pub proof fn q5_k_layout(x: BlockSpec, b: Seq<u8>, chunk: int, h: nat, l: int, j: int)
    requires
        (b == x.bytes(GgmlType::Q5K) && x.codes.len() == 256 && (forall|i: int|
            0 <= i < 256 ==> (#[trigger] x.codes[i]) < 32) && x.scales.len() == 8 && (forall|
            i: int,
        |
            0 <= i < 8 ==> (#[trigger] x.scales[i]) < 64) && x.mins.len() == 8 && (forall|i: int|
            0 <= i < 8 ==> (#[trigger] x.mins[i]) < 64) && x.signs.len() == 0) || (b.len() == 176
            && x == block_of(GgmlType::Q5K, b)),
        0 <= chunk < 4,
        h < 2,
        0 <= l < 32,
        0 <= j < 4,
    ensures
        x.fits(GgmlType::Q5K),
        b.len() == 176,
        b[0] + 256 * b[1] == x.d,
        b[2] + 256 * b[3] == x.m,
        b[4 + j] as int % 64 == x.scales[j],
        b[4 + j] as int / 64 == x.scales[j + 4] as int / 16,
        b[8 + j] as int % 64 == x.mins[j],
        b[8 + j] as int / 64 == x.mins[j + 4] as int / 16,
        b[12 + j] as int % 16 == x.scales[j + 4] as int % 16,
        b[12 + j] as int / 16 == x.mins[j + 4] as int % 16,
        b[16 + l] as int / pow2((2 * chunk + h) as nat) as int % 2 == x.codes[64 * chunk + 32 * h
            + l] as int / 16,
        b[48 + 32 * chunk + l] as int / pow2(4 * h) as int % 16 == x.codes[64 * chunk + 32 * h
            + l] as int % 16,
{
    both_ways(x, b, GgmlType::Q5K);
    two_bytes(x.d);
    two_bytes(x.m);
    k_scale_layout(x.scales, x.mins, j);
    nibbles(x.codes, 32, 4, chunk, h, l);
    top_bits(x.codes, 16, 32, 1, 0, (2 * chunk + h) as nat, l);
    assert(b[16 + l] == plane(high(x.codes, 16), 1, 32)[l]);
}

proof fn word_bytes(signs: Seq<u8>, scales: Seq<u8>, i: int)
    requires
        scales.len() == 8,
        signs.len() == 32,
        forall|k: int| 0 <= k < 32 ==> (#[trigger] signs[k]) < 128,
        forall|k: int| 0 <= k < 8 ==> (#[trigger] scales[k]) < 16,
        0 <= i < 8,
    ensures
        ({
            let w = words(signs, scales);
            &&& w.len() == 32
            &&& w[4 * i] + 0x100 * w[4 * i + 1] + 0x1_0000 * w[4 * i + 2] + 0x100_0000 * w[4 * i
                + 3] == signs[4 * i] + 0x80 * signs[4 * i + 1] + 0x4000 * signs[4 * i + 2]
                + 0x20_0000 * signs[4 * i + 3] + 0x1000_0000 * scales[i]
        }),
{
    assert(signs[4 * i] < 128 && signs[4 * i + 1] < 128 && signs[4 * i + 2] < 128 && signs[4 * i
        + 3] < 128 && scales[i] < 16);
    four_bytes(word(signs, scales, i));
    let w = words(signs, scales);
    assert((4 * i + 1) / 4 == i && (4 * i + 2) / 4 == i && (4 * i + 3) / 4 == i);
}

proof fn behind(d: Seq<u8>, a: Seq<u8>, w: Seq<u8>, i: int)
    requires
        d.len() == 2,
        a.len() == 64,
        w.len() == 32,
        0 <= i < 8,
    ensures
        forall|k: int| 0 <= k < 64 ==> #[trigger] (d + a + w)[2 + k] == a[k],
        (d + a + w)[0] == d[0],
        (d + a + w)[1] == d[1],
        (d + a + w)[66 + 4 * i] == w[4 * i],
        (d + a + w)[67 + 4 * i] == w[4 * i + 1],
        (d + a + w)[68 + 4 * i] == w[4 * i + 2],
        (d + a + w)[69 + 4 * i] == w[4 * i + 3],
{
}

proof fn in_turn(b: Seq<u8>, d: Seq<u8>, a: Seq<u8>, w: Seq<u8>, i: int, k: int, total: int)
    requires
        b == d + interleaved(a, w),
        d.len() == 2,
        a.len() == 32,
        w.len() == 32,
        w[4 * i] + 0x100 * w[4 * i + 1] + 0x1_0000 * w[4 * i + 2] + 0x100_0000 * w[4 * i + 3]
            == total,
        0 <= i < 8,
        0 <= k < 4,
    ensures
        b[0] == d[0],
        b[1] == d[1],
        b[2 + 8 * i + k] == a[4 * i + k],
        b[6 + 8 * i] + 0x100 * b[7 + 8 * i] + 0x1_0000 * b[8 + 8 * i] + 0x100_0000 * b[9 + 8 * i]
            == total,
{
    let c = interleaved(a, w);
    assert(c[8 * i + k] == a[4 * i + k]);
    assert(c[8 * i + 4] == w[4 * i]);
    assert(c[8 * i + 5] == w[4 * i + 1]);
    assert(c[8 * i + 6] == w[4 * i + 2]);
    assert(c[8 * i + 7] == w[4 * i + 3]);
}

proof fn paired(d: Seq<u8>, p: Seq<u8>, s: Seq<u8>, i: int, k: int)
    requires
        d.len() == 2,
        p.len() == 64,
        s.len() == 8,
        0 <= i < 32,
        0 <= k < 8,
    ensures
        (d + p + s)[0] == d[0],
        (d + p + s)[1] == d[1],
        (d + p + s)[2 + 2 * i] == p[2 * i],
        (d + p + s)[3 + 2 * i] == p[2 * i + 1],
        (d + p + s)[66 + k] == s[k],
{
}

proof fn pair_bytes(codes: Seq<u16>, signs: Seq<u8>, i: int)
    requires
        codes.len() == 32,
        signs.len() == 32,
        0 <= i < 32,
        codes[i] < 512,
        signs[i] < 128,
    ensures
        pairs(codes, signs).len() == 64,
        pairs(codes, signs)[2 * i] + 256 * pairs(codes, signs)[2 * i + 1] == codes[i] + 512
            * signs[i],
{
    let v = (codes[i] + 512 * signs[i]) as u16;
    two_bytes(v);
    assert((2 * i + 1) / 2 == i && (2 * i) / 2 == i);
}

#[verifier::spinoff_prover]
#[verifier::rlimit(60)]
proof fn iq2_xxs_parts(x: BlockSpec, b: Seq<u8>, i: int, k: int)
    requires
        b == le_bytes(x.d as nat, 2) + interleaved(
            low(x.codes, 256),
            words(x.signs, x.scales),
        ),
        x.codes.len() == 32,
        x.codes[4 * i + k] < 256,
        x.scales.len() == 8,
        x.signs.len() == 32,
        forall|k: int| 0 <= k < 32 ==> (#[trigger] x.signs[k]) < 128,
        forall|k: int| 0 <= k < 8 ==> (#[trigger] x.scales[k]) < 16,
        0 <= i < 8,
        0 <= k < 4,
    ensures
        b[0] + 256 * b[1] == x.d,
        b[2 + 8 * i + k] == x.codes[4 * i + k],
        b[6 + 8 * i] + 0x100 * b[7 + 8 * i] + 0x1_0000 * b[8 + 8 * i] + 0x100_0000 * b[9 + 8 * i]
            == x.signs[4 * i] + 0x80 * x.signs[4 * i + 1] + 0x4000 * x.signs[4 * i + 2]
            + 0x20_0000 * x.signs[4 * i + 3] + 0x1000_0000 * x.scales[i],
{
    two_bytes(x.d);
    word_bytes(x.signs, x.scales, i);
    let d = le_bytes(x.d as nat, 2);
    let w = words(x.signs, x.scales);
    let total = x.signs[4 * i] + 0x80 * x.signs[4 * i + 1] + 0x4000 * x.signs[4 * i + 2]
        + 0x20_0000 * x.signs[4 * i + 3] + 0x1000_0000 * x.scales[i];
    in_turn(b, d, low(x.codes, 256), w, i, k, total);
}

/// IQ2_XXS: the scale, then per 32 elements the codes of four groups in a byte each
/// and a 32-bit word of their four seven-bit sign codes and, on top, the scale.
#[verifier::spinoff_prover]
#[verifier::rlimit(60)]
pub proof fn iq2_xxs_layout(x: BlockSpec, b: Seq<u8>, i: int, k: int)
    requires
        (b == x.bytes(GgmlType::Iq2Xxs) && x.codes.len() == 32 && (forall|i: int|
            0 <= i < 32 ==> (#[trigger] x.codes[i]) < 256) && x.scales.len() == 8 && (forall|
            i: int,
        |
            0 <= i < 8 ==> (#[trigger] x.scales[i]) < 16) && x.signs.len() == 32 && (forall|i: int|
            0 <= i < 32 ==> (#[trigger] x.signs[i]) < 128) && x.mins.len() == 0 && x.m == 0) || (
        b.len() == 66 && x == block_of(GgmlType::Iq2Xxs, b)),
        0 <= i < 8,
        0 <= k < 4,
    ensures
        x.fits(GgmlType::Iq2Xxs),
        b.len() == 66,
        b[0] + 256 * b[1] == x.d,
        b[2 + 8 * i + k] == x.codes[4 * i + k],
        b[6 + 8 * i] + 0x100 * b[7 + 8 * i] + 0x1_0000 * b[8 + 8 * i] + 0x100_0000 * b[9 + 8 * i]
            == x.signs[4 * i] + 0x80 * x.signs[4 * i + 1] + 0x4000 * x.signs[4 * i + 2]
            + 0x20_0000 * x.signs[4 * i + 3] + 0x1000_0000 * x.scales[i],
{
    both_ways(x, b, GgmlType::Iq2Xxs);
    iq2_xxs_parts(x, b, i, k);
}

proof fn scale_nibbles(scales: Seq<u8>, n: int, i: int, h: nat)
    requires
        scales.len() == 2 * n,
        forall|k: int| 0 <= k < scales.len() ==> (#[trigger] scales[k]) < 16,
        0 <= i < n,
        h < 2,
    ensures
        plane(scales, 4, 1).len() == n,
        plane(scales, 4, 1)[i] as int / pow2(4 * h) as int % 16 == scales[2 * i + h],
{
    lemma2_to64();
    assert forall|k: int| 0 <= k < scales.len() implies (#[trigger] scales[k]) < pow2(4) by {}
    values_lie_in_fields(scales, 4, 1, n, i, h, 0);
}

/// IQ2_XS: the scale, then per group of eight elements sixteen bits, a nine-bit code
/// below a seven-bit sign code, then the scales of sixteen elements in a nibble
/// each.
#[verifier::spinoff_prover]
#[verifier::rlimit(60)]
pub proof fn iq2_xs_layout(x: BlockSpec, b: Seq<u8>, i: int, k: int, h: nat)
    requires
        (b == x.bytes(GgmlType::Iq2Xs) && x.codes.len() == 32 && (forall|i: int|
            0 <= i < 32 ==> (#[trigger] x.codes[i]) < 512) && x.scales.len() == 16 && (forall|
            i: int,
        |
            0 <= i < 16 ==> (#[trigger] x.scales[i]) < 16) && x.signs.len() == 32 && (forall|
            i: int,
        |
            0 <= i < 32 ==> (#[trigger] x.signs[i]) < 128) && x.mins.len() == 0 && x.m == 0) || (
        b.len() == 74 && x == block_of(GgmlType::Iq2Xs, b)),
        0 <= i < 32,
        0 <= k < 8,
        h < 2,
    ensures
        x.fits(GgmlType::Iq2Xs),
        b.len() == 74,
        b[0] + 256 * b[1] == x.d,
        b[2 + 2 * i] + 256 * b[3 + 2 * i] == x.codes[i] + 512 * x.signs[i],
        b[66 + k] as int / pow2(4 * h) as int % 16 == x.scales[2 * k + h],
{
    both_ways(x, b, GgmlType::Iq2Xs);
    two_bytes(x.d);
    scale_nibbles(x.scales, 8, k, h);
    assert(x.codes[i] < 512 && x.signs[i] < 128);
    pair_bytes(x.codes, x.signs, i);
    paired(le_bytes(x.d as nat, 2), pairs(x.codes, x.signs), plane(x.scales, 4, 1), i, k);
}

/// IQ2_S: the scale, the low bytes of the ten-bit codes of the groups, their sign
/// bytes, the two upper bits of the codes, four to a byte, then the scales of
/// sixteen elements in a nibble each.
#[verifier::spinoff_prover]
#[verifier::rlimit(60)]
pub proof fn iq2_s_layout(x: BlockSpec, b: Seq<u8>, i: int, g: int, m: nat, k: int, h: nat)
    requires
        (b == x.bytes(GgmlType::Iq2S) && x.codes.len() == 32 && (forall|i: int|
            0 <= i < 32 ==> (#[trigger] x.codes[i]) < 1024) && x.scales.len() == 16 && (forall|
            i: int,
        |
            0 <= i < 16 ==> (#[trigger] x.scales[i]) < 16) && x.signs.len() == 32 && x.mins.len()
            == 0 && x.m == 0) || (b.len() == 82 && x == block_of(GgmlType::Iq2S, b)),
        0 <= i < 32,
        0 <= g < 8,
        m < 4,
        0 <= k < 8,
        h < 2,
    ensures
        x.fits(GgmlType::Iq2S),
        b.len() == 82,
        b[0] + 256 * b[1] == x.d,
        b[2 + i] == x.codes[i] as int % 256,
        b[34 + i] == x.signs[i],
        b[66 + g] as int / pow2(2 * m) as int % 4 == x.codes[4 * g + m] as int / 256,
        b[74 + k] as int / pow2(4 * h) as int % 16 == x.scales[2 * k + h],
{
    both_ways(x, b, GgmlType::Iq2S);
    two_bytes(x.d);
    scale_nibbles(x.scales, 8, k, h);
    top_pairs(x.codes, 256, 1, 8, g, m, 0);
    assert(b[66 + g] == plane(high(x.codes, 256), 2, 1)[g]);
    assert(b[74 + k] == plane(x.scales, 4, 1)[k]);
}

/// IQ3_XXS: the scale, the codes of the groups of four elements in a byte each,
/// then per 32 elements a word of sign codes and the scale as in IQ2_XXS.
#[verifier::spinoff_prover]
#[verifier::rlimit(60)]
pub proof fn iq3_xxs_layout(x: BlockSpec, b: Seq<u8>, i: int, k: int)
    requires
        (b == x.bytes(GgmlType::Iq3Xxs) && x.codes.len() == 64 && (forall|i: int|
            0 <= i < 64 ==> (#[trigger] x.codes[i]) < 256) && x.scales.len() == 8 && (forall|
            i: int,
        |
            0 <= i < 8 ==> (#[trigger] x.scales[i]) < 16) && x.signs.len() == 32 && (forall|i: int|
            0 <= i < 32 ==> (#[trigger] x.signs[i]) < 128) && x.mins.len() == 0 && x.m == 0) || (
        b.len() == 98 && x == block_of(GgmlType::Iq3Xxs, b)),
        0 <= i < 8,
        0 <= k < 64,
    ensures
        x.fits(GgmlType::Iq3Xxs),
        b.len() == 98,
        b[0] + 256 * b[1] == x.d,
        b[2 + k] == x.codes[k],
        b[66 + 4 * i] + 0x100 * b[67 + 4 * i] + 0x1_0000 * b[68 + 4 * i] + 0x100_0000 * b[69 + 4
            * i] == x.signs[4 * i] + 0x80 * x.signs[4 * i + 1] + 0x4000 * x.signs[4 * i + 2]
            + 0x20_0000 * x.signs[4 * i + 3] + 0x1000_0000 * x.scales[i],
{
    both_ways(x, b, GgmlType::Iq3Xxs);
    two_bytes(x.d);
    word_bytes(x.signs, x.scales, i);
    behind(le_bytes(x.d as nat, 2), low(x.codes, 256), words(x.signs, x.scales), i);
    assert(x.codes[k] < 256);
}

/// IQ3_S: the scale, the low bytes of the nine-bit codes of the groups of four
/// elements, their ninth bits, eight to a byte, the sign bytes of eight elements,
/// then the scales of 32 elements in a nibble each.
#[verifier::spinoff_prover]
#[verifier::rlimit(60)]
pub proof fn iq3_s_layout(
    x: BlockSpec,
    b: Seq<u8>,
    c: int,
    g: int,
    m: nat,
    i: int,
    k: int,
    h: nat,
)
    requires
        (b == x.bytes(GgmlType::Iq3S) && x.codes.len() == 64 && (forall|i: int|
            0 <= i < 64 ==> (#[trigger] x.codes[i]) < 512) && x.scales.len() == 8 && (forall|
            i: int,
        |
            0 <= i < 8 ==> (#[trigger] x.scales[i]) < 16) && x.signs.len() == 32 && x.mins.len()
            == 0 && x.m == 0) || (b.len() == 110 && x == block_of(GgmlType::Iq3S, b)),
        0 <= c < 64,
        0 <= g < 8,
        m < 8,
        0 <= i < 32,
        0 <= k < 4,
        h < 2,
    ensures
        x.fits(GgmlType::Iq3S),
        b.len() == 110,
        b[0] + 256 * b[1] == x.d,
        b[2 + c] == x.codes[c] as int % 256,
        b[66 + g] as int / pow2(m) as int % 2 == x.codes[8 * g + m] as int / 256,
        b[74 + i] == x.signs[i],
        b[106 + k] as int / pow2(4 * h) as int % 16 == x.scales[2 * k + h],
{
    both_ways(x, b, GgmlType::Iq3S);
    two_bytes(x.d);
    scale_nibbles(x.scales, 4, k, h);
    top_bits(x.codes, 256, 1, 8, g, m, 0);
    assert(b[66 + g] == plane(high(x.codes, 256), 1, 1)[g]);
    assert(b[106 + k] == plane(x.scales, 4, 1)[k]);
}

/// IQ4_XS: the scale, the two upper bits of the eight six-bit scales, four to a
/// byte, their low nibbles, two to a byte, then per 32 elements sixteen bytes, the
/// first sixteen elements in the low nibbles.
#[verifier::spinoff_prover]
#[verifier::rlimit(60)]
pub proof fn iq4_xs_layout(
    x: BlockSpec,
    b: Seq<u8>,
    u: int,
    m: nat,
    k: int,
    g: int,
    h: nat,
    j: int,
)
    requires
        (b == x.bytes(GgmlType::Iq4Xs) && x.codes.len() == 256 && (forall|i: int|
            0 <= i < 256 ==> (#[trigger] x.codes[i]) < 16) && x.scales.len() == 8 && (forall|
            i: int,
        |
            0 <= i < 8 ==> (#[trigger] x.scales[i]) < 64) && x.signs.len() == 0 && x.mins.len() == 0
            && x.m == 0) || (b.len() == 136 && x == block_of(GgmlType::Iq4Xs, b)),
        0 <= u < 2,
        m < 4,
        0 <= k < 4,
        0 <= g < 8,
        h < 2,
        0 <= j < 16,
    ensures
        x.fits(GgmlType::Iq4Xs),
        b.len() == 136,
        b[0] + 256 * b[1] == x.d,
        b[2 + u] as int / pow2(2 * m) as int % 4 == x.scales[4 * u + m] as int / 16,
        b[4 + k] as int / pow2(4 * h) as int % 16 == x.scales[2 * k + h] as int % 16,
        b[8 + 16 * g + j] as int / pow2(4 * h) as int % 16 == x.codes[32 * g + 16 * h + j],
{
    both_ways(x, b, GgmlType::Iq4Xs);
    two_bytes(x.d);
    let s = wide(x.scales);
    assert forall|i: int| 0 <= i < s.len() implies (#[trigger] s[i]) < 64 by {
        assert(x.scales[i] < 64);
    }
    top_pairs(s, 16, 1, 2, u, m, 0);
    let l = low(s, 16);
    assert forall|i: int| 0 <= i < l.len() implies (#[trigger] l[i]) < 16 by {}
    scale_nibbles(l, 4, k, h);
    nibbles(x.codes, 16, 8, g, h, j);
    assert(x.codes[32 * g + 16 * h + j] < 16);
    assert(b[2 + u] == plane(high(s, 16), 2, 1)[u]);
    assert(b[4 + k] == plane(l, 4, 1)[k]);
    assert(l[2 * k + h] == x.scales[2 * k + h] as int % 16);
}

} // verus!
