//! Rows of unquantized tensors, as the bits of single-precision numbers.

use vstd::arithmetic::power2::{lemma2_to64, lemma_pow2_adds, pow2};
use vstd::prelude::*;
use vstd::slice::*;

use crate::ggml_type::GgmlType;
use crate::gguf::{TensorInfo, TensorSpec};
use crate::le::{
    le_bytes, le_bytes_len, le_round_trip, le_value, push_le, radix_values, u16_of, u32_of,
};

verus! {

/// How often `m` must be doubled to reach 1024.
pub open spec fn doublings(m: nat) -> nat
    decreases 2048 - m,
{
    if m == 0 || m >= 1024 {
        0
    } else {
        1 + doublings(2 * m)
    }
}

/// `m`, doubled until it reaches 1024.
pub open spec fn doubled(m: nat) -> nat
    decreases 2048 - m,
{
    if m == 0 || m >= 1024 {
        m
    } else {
        doubled(2 * m)
    }
}

/// The bits of the single-precision number that equals the half-precision number
/// with the bits `h`: sign, exponent and fraction. What is not a number becomes a
/// quiet one with the same fraction.
pub open spec fn single_of_half(h: u16) -> nat {
    let sign = h as int / 0x8000;
    let exponent = h as int / 0x400 % 32;
    let fraction = h as int % 0x400;
    let rest: int = if exponent == 0 && fraction == 0 {
        0
    } else if exponent == 0 {
        (113 - doublings(fraction as nat)) * 0x80_0000 + (doubled(fraction as nat) - 0x400) * 0x2000
    } else if exponent == 31 && fraction == 0 {
        0x7f80_0000
    } else if exponent == 31 {
        0x7fc0_0000 + fraction % 0x200 * 0x2000
    } else {
        (exponent + 112) * 0x80_0000 + fraction * 0x2000
    };
    (sign * 0x8000_0000 + rest) as nat
}

proof fn doubling_bounds(m: nat)
    requires
        0 < m < 2048,
    ensures
        0x400 <= doubled(m) < 2048,
        m >= 1024 ==> doublings(m) == 0,
        m >= 512 ==> doublings(m) <= 1,
        m >= 256 ==> doublings(m) <= 2,
        m >= 128 ==> doublings(m) <= 3,
        m >= 64 ==> doublings(m) <= 4,
        m >= 32 ==> doublings(m) <= 5,
        m >= 16 ==> doublings(m) <= 6,
        m >= 8 ==> doublings(m) <= 7,
        m >= 4 ==> doublings(m) <= 8,
        m >= 2 ==> doublings(m) <= 9,
        doublings(m) <= 10,
    decreases 2048 - m,
{
    if m < 1024 {
        doubling_bounds(2 * m);
    }
}

/// The bits of a half-precision number in single precision, which holds every
/// half-precision number exactly.
pub fn half_to_f32(h: u16) -> (b: u32)
    ensures
        b == single_of_half(h),
{
    let sign: u32 = h as u32 / 0x8000;
    let exponent: u32 = h as u32 / 0x400 % 32;
    let fraction: u32 = h as u32 % 0x400;
    let rest: u32 = if exponent == 0 && fraction == 0 {
        0
    } else if exponent == 0 {
        let mut m: u32 = fraction;
        let mut k: u32 = 0;
        proof {
            doubling_bounds(fraction as nat);
        }
        while m < 1024
            invariant
                0 < m < 2048,
                k <= 10,
                k + doublings(m as nat) == doublings(fraction as nat),
                doublings(fraction as nat) <= 10,
                doubled(m as nat) == doubled(fraction as nat),
            decreases 2048 - m,
        {
            m = 2 * m;
            k += 1;
        }
        (113 - k) * 0x80_0000 + (m - 0x400) * 0x2000
    } else if exponent == 31 && fraction == 0 {
        0x7f80_0000
    } else if exponent == 31 {
        0x7fc0_0000 + fraction % 0x200 * 0x2000
    } else {
        (exponent + 112) * 0x80_0000 + fraction * 0x2000
    };
    sign * 0x8000_0000 + rest
}

/// The size of a finite half-precision number, in units of the smallest
/// single-precision number.
pub open spec fn half_size(h: u16) -> int {
    let exponent = h as int / 0x400 % 32;
    let fraction = h as int % 0x400;
    if exponent == 0 {
        fraction * pow2(125)
    } else {
        (0x400 + fraction) * pow2((exponent + 124) as nat)
    }
}

/// The size of a finite single-precision number, in units of the smallest one.
pub open spec fn single_size(b: nat) -> int {
    let exponent = b as int / 0x80_0000 % 256;
    let fraction = b as int % 0x80_0000;
    if exponent == 0 {
        fraction
    } else {
        (0x80_0000 + fraction) * pow2((exponent - 1) as nat)
    }
}

proof fn doubled_is_shifted(m: nat)
    requires
        0 < m < 2048,
    ensures
        doubled(m) == m * pow2(doublings(m)),
    decreases 2048 - m,
{
    lemma2_to64();
    if m < 1024 {
        doubled_is_shifted(2 * m);
        let k = doublings(2 * m);
        lemma_pow2_adds(1, k);
        assert(pow2(doublings(m)) == 2 * pow2(k));
        assert((2 * m) * pow2(k) == m * (2 * pow2(k))) by (nonlinear_arith);
    } else {
        assert(m * 1 == m);
    }
}

/// A finite half-precision number and the single-precision number that it is
/// widened to have the same sign and the same size.
pub proof fn widening_is_exact(h: u16)
    requires
        h as int / 0x400 % 32 != 31,
    ensures
        single_of_half(h) / 0x8000_0000 == h as nat / 0x8000,
        single_size(single_of_half(h)) == half_size(h),
{
    let sign = h as int / 0x8000;
    let exponent = h as int / 0x400 % 32;
    let fraction = h as int % 0x400;
    let b = single_of_half(h) as int;
    lemma2_to64();
    if exponent == 0 && fraction == 0 {
        assert(b == sign * 0x8000_0000);
        assert(0 * pow2(125) == 0);
    } else if exponent == 0 {
        let m = fraction as nat;
        doubling_bounds(m);
        doubled_is_shifted(m);
        let k = doublings(m);
        let e = 113 - k;
        let f = (doubled(m) - 0x400) * 0x2000;
        assert(b == sign * 0x8000_0000 + e * 0x80_0000 + f);
        assert(b / 0x80_0000 == sign * 256 + e);
        assert(b / 0x80_0000 % 256 == e && b % 0x80_0000 == f);
        assert(0x80_0000 + f == doubled(m) * 0x2000);
        let p = pow2((112 - k) as nat);
        let q = pow2(k);
        lemma_pow2_adds(13, (112 - k) as nat);
        lemma_pow2_adds(k, (125 - k) as nat);
        assert(pow2(125) == q * (0x2000 * p));
        assert((m * q) * 0x2000 * p == m * (q * (0x2000 * p))) by (nonlinear_arith);
    } else {
        let e = exponent + 112;
        let f = fraction * 0x2000;
        assert(b == sign * 0x8000_0000 + e * 0x80_0000 + f);
        assert(b / 0x80_0000 == sign * 256 + e);
        assert(b / 0x80_0000 % 256 == e && b % 0x80_0000 == f);
        let p = pow2((exponent + 111) as nat);
        lemma_pow2_adds(13, (exponent + 111) as nat);
        assert((0x80_0000 + f) * p == (0x400 + fraction) * (0x2000 * p)) by (nonlinear_arith)
            requires
                f == fraction * 0x2000,
        ;
    }
}

/// The bits of a bfloat16 number in single precision.
pub open spec fn widened_bf16(bits: u16) -> int {
    bits * 0x1_0000
}

/// The bits of a single-precision number cut down to bfloat16.
pub open spec fn cut_to_bf16(bits: u32) -> int {
    bits as int / 0x1_0000
}

/// The bits of a bfloat16 number in single precision.
pub fn bf16_to_f32(bits: u16) -> (b: u32)
    ensures
        b == widened_bf16(bits),
        b == bits * 0x1_0000,
{
    bits as u32 * 0x1_0000
}

/// The bits of a single-precision number cut down to bfloat16.
pub fn f32_to_bf16(bits: u32) -> (b: u16)
    ensures
        b == cut_to_bf16(bits),
        b as int == bits as int / 0x1_0000,
{
    (bits / 0x1_0000) as u16
}

/// Cutting a widened bfloat16 number down gives it back.
pub proof fn bf16_round_trip(bits: u16)
    ensures
        (bits * 0x1_0000) / 0x1_0000 == bits,
{
}

/// The type holds one number per element.
pub open spec fn is_plain(ty: GgmlType) -> bool {
    ty == GgmlType::F32 || ty == GgmlType::F16 || ty == GgmlType::Bf16
}

/// The two bytes of element `i`.
pub open spec fn half_at(data: Seq<u8>, i: int) -> u16 {
    le_value(data.subrange(2 * i, 2 * i + 2)) as u16
}

/// `b` are the bits of element `i` in a row of a plain type.
pub open spec fn element_is(ty: GgmlType, data: Seq<u8>, i: int, b: u32) -> bool {
    match ty {
        GgmlType::F32 => b == le_value(data.subrange(4 * i, 4 * i + 4)),
        GgmlType::F16 => b == single_of_half(half_at(data, i)),
        _ => b == half_at(data, i) * 0x1_0000,
    }
}

/// The elements of a row of a plain type, as the bits of single-precision
/// numbers; `None` for another type, or where the row does not have `n` elements.
pub fn source_row(ty: GgmlType, data: &[u8], n: usize) -> (r: Option<Vec<u32>>)
    ensures
        r is Some <==> is_plain(ty) && data@.len() == n * ty.block_bytes(),
        r matches Some(v) ==> v@.len() == n && (forall|i: int|
            0 <= i < n ==> element_is(ty, data@, i, #[trigger] v@[i])),
{
    let width: usize = match ty {
        GgmlType::F32 => 4,
        GgmlType::F16 | GgmlType::Bf16 => 2,
        _ => {
            return None;
        },
    };
    if data.len() % width != 0 || data.len() / width != n {
        assert(data@.len() != n * width) by {
            if data@.len() == n * width {
                vstd::arithmetic::div_mod::lemma_div_multiples_vanish(n as int, width as int);
                vstd::arithmetic::div_mod::lemma_mod_multiples_basic(n as int, width as int);
                vstd::arithmetic::mul::lemma_mul_is_commutative(n as int, width as int);
            }
        }
        return None;
    }
    let mut v: Vec<u32> = Vec::new();
    for i in 0..n
        invariant
            data@.len() == n * width,
            data@.len() <= usize::MAX,
            ty == GgmlType::F32 ==> width == 4,
            ty == GgmlType::F16 || ty == GgmlType::Bf16 ==> width == 2,
            is_plain(ty),
            v@.len() == i,
            forall|j: int| 0 <= j < i ==> element_is(ty, data@, j, #[trigger] v@[j]),
    {
        if width == 4 {
            assert(n * 4 == data@.len());
            let b = u32_of(slice_subrange(data, 4 * i, 4 * i + 4));
            v.push(b);
        } else {
            assert(n * 2 == data@.len());
            let h = u16_of(slice_subrange(data, 2 * i, 2 * i + 2));
            assert(h == half_at(data@, i as int));
            let b: u32 = match ty {
                GgmlType::F16 => half_to_f32(h),
                _ => bf16_to_f32(h),
            };
            v.push(b);
        }
    }
    Some(v)
}

/// The bytes of a row of single-precision or bfloat16 numbers.
pub open spec fn plain_bytes(ty: GgmlType, v: Seq<u32>) -> Seq<u8>
    decreases v.len(),
{
    if v.len() == 0 {
        seq![]
    } else {
        plain_bytes(ty, v.drop_last()) + (if ty == GgmlType::F32 {
            le_bytes(v.last() as nat, 4)
        } else {
            le_bytes(v.last() as nat / 0x1_0000, 2)
        })
    }
}

/// Appends a row of single-precision or bfloat16 numbers.
pub fn push_plain(ty: GgmlType, v: &[u32], out: &mut Vec<u8>)
    requires
        ty == GgmlType::F32 || ty == GgmlType::Bf16,
    ensures
        final(out)@ == old(out)@ + plain_bytes(ty, v@),
{
    let ghost start = out@;
    assert(v@.subrange(0, 0) =~= seq![]);
    for i in 0..v.len()
        invariant
            ty == GgmlType::F32 || ty == GgmlType::Bf16,
            out@ == start + plain_bytes(ty, v@.subrange(0, i as int)),
    {
        let ghost part = v@.subrange(0, i + 1);
        assert(part.drop_last() =~= v@.subrange(0, i as int));
        match ty {
            GgmlType::F32 => push_le(out, v[i] as u64, 4),
            _ => push_le(out, f32_to_bf16(v[i]) as u64, 2),
        }
        assert(out@ =~= start + plain_bytes(ty, part));
    }
    assert(v@.subrange(0, v@.len() as int) =~= v@);
}

proof fn plain_bytes_at(ty: GgmlType, v: Seq<u32>, i: int)
    requires
        ty == GgmlType::F32 || ty == GgmlType::Bf16,
        0 <= i < v.len(),
    ensures
        plain_bytes(ty, v).len() == v.len() * ty.block_bytes(),
        ty == GgmlType::F32 ==> plain_bytes(ty, v).subrange(4 * i, 4 * i + 4) == le_bytes(
            v[i] as nat,
            4,
        ),
        ty == GgmlType::Bf16 ==> plain_bytes(ty, v).subrange(2 * i, 2 * i + 2) == le_bytes(
            v[i] as nat / 0x1_0000,
            2,
        ),
    decreases v.len(),
{
    let w = v.drop_last();
    let head = plain_bytes(ty, w);
    let all = plain_bytes(ty, v);
    le_bytes_len(v.last() as nat, 4);
    le_bytes_len(v.last() as nat / 0x1_0000, 2);
    if w.len() > 0 {
        plain_bytes_at(ty, w, if i < w.len() {
            i
        } else {
            0
        });
    } else {
        assert(head =~= seq![]);
    }
    if ty == GgmlType::F32 {
        assert(w.len() * ty.block_bytes() == 4 * w.len());
        assert(v.len() * ty.block_bytes() == 4 * v.len());
        if i < w.len() {
            assert(all.subrange(4 * i, 4 * i + 4) =~= head.subrange(4 * i, 4 * i + 4));
        } else {
            assert(all.subrange(4 * i, 4 * i + 4) =~= le_bytes(v[i] as nat, 4));
        }
    } else {
        assert(w.len() * ty.block_bytes() == 2 * w.len());
        assert(v.len() * ty.block_bytes() == 2 * v.len());
        if i < w.len() {
            assert(all.subrange(2 * i, 2 * i + 2) =~= head.subrange(2 * i, 2 * i + 2));
        } else {
            assert(all.subrange(2 * i, 2 * i + 2) =~= le_bytes(v[i] as nat / 0x1_0000, 2));
        }
    }
}

/// Reading a row back gives every element back: a single-precision row as it was,
/// a bfloat16 row cut down.
pub proof fn plain_row_is_read_back(ty: GgmlType, v: Seq<u32>, i: int, b: u32)
    requires
        ty == GgmlType::F32 || ty == GgmlType::Bf16,
        0 <= i < v.len(),
        element_is(ty, plain_bytes(ty, v), i, b),
    ensures
        plain_bytes(ty, v).len() == v.len() * ty.block_bytes(),
        ty == GgmlType::F32 ==> b == v[i],
        ty == GgmlType::Bf16 ==> b == v[i] as int / 0x1_0000 * 0x1_0000,
{
    plain_bytes_at(ty, v, i);
    radix_values();
    le_round_trip(v[i] as nat, 4);
    le_round_trip(v[i] as nat / 0x1_0000, 2);
}

/// How many rows of a tensor share their weights: those of one matrix.
pub open spec fn matrix_rows(t: TensorSpec) -> nat {
    if t.dims.len() >= 3 {
        t.dims[1] as nat
    } else {
        t.rows()
    }
}

/// How many rows of a tensor share their weights.
pub fn rows_per_mat(t: &TensorInfo) -> (r: u64)
    requires
        t@.rows() <= u64::MAX,
    ensures
        r == matrix_rows(t@),
{
    if t.dims.len() >= 3 {
        t.dims[1]
    } else {
        t.n_rows()
    }
}

/// How many rows are encoded at a time.
pub open spec fn share_of_rows(n_rows: int, threads: int) -> int {
    if n_rows / (threads * 4) < 1 {
        1
    } else if n_rows / (threads * 4) > 512 {
        512
    } else {
        n_rows / (threads * 4)
    }
}

/// How many rows are encoded at a time on `threads` threads: four shares for
/// each, but at least one row and at most 512.
pub fn rows_at_a_time(n_rows: u64, threads: u32) -> (r: u64)
    requires
        threads > 0,
    ensures
        r == share_of_rows(n_rows as int, threads as int),
        r as int == (if n_rows as int / (threads * 4) < 1 {
            1
        } else if n_rows as int / (threads * 4) > 512 {
            512
        } else {
            n_rows as int / (threads * 4)
        }),
{
    let n: u64 = n_rows / (threads as u64 * 4);
    if n < 1 {
        1
    } else if n > 512 {
        512
    } else {
        n
    }
}

/// A half-precision number and the one that it is widened to have the same sign and
/// are the same number: fraction times power of two, with the implied leading bit of
/// each where its exponent is not zero. An infinite one stays infinite, and what is
/// no number stays none.
pub proof fn widened_numbers_are_equal(h: u16)
    ensures
        ({
            let b = single_of_half(h) as int;
            let (e, f) = (h as int / 0x400 % 32, h as int % 0x400);
            let (x, y) = (b / 0x80_0000 % 256, b % 0x80_0000);
            &&& 0 <= b < 0x1_0000_0000
            &&& b / 0x8000_0000 == h as int / 0x8000
            &&& e == 31 ==> x == 255 && (y == 0 <==> f == 0)
            &&& e == 0 ==> (if x == 0 {
                y
            } else {
                (0x80_0000 + y) * pow2((x - 1) as nat)
            }) == f * pow2(125)
            &&& 0 < e < 31 ==> x > 0 && (0x80_0000 + y) * pow2((x - 1) as nat) == (0x400 + f)
                * pow2((e + 124) as nat)
        }),
{
    let (e, f) = (h as int / 0x400 % 32, h as int % 0x400);
    if e != 31 {
        widening_is_exact(h);
        if e == 0 && f > 0 {
            doubling_bounds(f as nat);
        }
    }
}

/// The bits of an element of a plain row by its bytes, low byte first: all four of
/// F32, and the upper two, above zeros, of BF16.
pub proof fn plain_elements_by_bytes(data: Seq<u8>, i: int, b: u32)
    requires
        0 <= i,
        4 * i + 4 <= data.len(),
    ensures
        element_is(GgmlType::F32, data, i, b) <==> b == data[4 * i] + 0x100 * data[4 * i + 1]
            + 0x1_0000 * data[4 * i + 2] + 0x100_0000 * data[4 * i + 3],
        element_is(GgmlType::Bf16, data, i, b) <==> b == 0x1_0000 * (data[2 * i] + 0x100 * data[2 * i
            + 1]),
        element_is(GgmlType::F16, data, i, b) <==> b == single_of_half(
            (data[2 * i] + 0x100 * data[2 * i + 1]) as u16,
        ),
{
    reveal_with_fuel(le_value, 5);
    let s = data.subrange(4 * i, 4 * i + 4);
    let w = data.subrange(2 * i, 2 * i + 2);
    assert(s[0] == data[4 * i] && s[1] == data[4 * i + 1] && s[2] == data[4 * i + 2] && s[3]
        == data[4 * i + 3]);
    assert(w[0] == data[2 * i] && w[1] == data[2 * i + 1]);
    assert(le_value(s) == s[0] + 0x100 * s[1] + 0x1_0000 * s[2] + 0x100_0000 * s[3]);
    assert(le_value(w) == w[0] + 0x100 * w[1]);
}

/// What is written of an element: the four bytes of an F32 number, or the upper two
/// of them as BF16, at the element's place.
pub proof fn plain_elements_are_written(ty: GgmlType, v: Seq<u32>, i: int)
    requires
        ty == GgmlType::F32 || ty == GgmlType::Bf16,
        0 <= i < v.len(),
    ensures
        ({
            let b = plain_bytes(ty, v);
            if ty == GgmlType::F32 {
                &&& b.len() == 4 * v.len()
                &&& b[4 * i] + 0x100 * b[4 * i + 1] + 0x1_0000 * b[4 * i + 2] + 0x100_0000 * b[4 * i
                    + 3] == v[i]
            } else {
                &&& b.len() == 2 * v.len()
                &&& b[2 * i] + 0x100 * b[2 * i + 1] == v[i] as int / 0x1_0000
            }
        }),
{
    plain_bytes_at(ty, v, i);
    let b = plain_bytes(ty, v);
    let n = v.len();
    assert(n * 4 == 4 * n && n * 2 == 2 * n);
    assert(ty.block_bytes() == (if ty == GgmlType::F32 {
        4nat
    } else {
        2nat
    }));
    assert(b.len() == n * (if ty == GgmlType::F32 {
        4nat
    } else {
        2nat
    }));
    reveal_with_fuel(le_bytes, 5);
    if ty == GgmlType::F32 {
        let s = b.subrange(4 * i, 4 * i + 4);
        assert(s[0] == b[4 * i] && s[1] == b[4 * i + 1] && s[2] == b[4 * i + 2] && s[3] == b[4 * i
            + 3]);
    } else {
        let s = b.subrange(2 * i, 2 * i + 2);
        assert(s[0] == b[2 * i] && s[1] == b[2 * i + 1]);
    }
}

/// The rows of a matrix share weights: a tensor of three or more dimensions is a
/// stack of matrices of as many rows as its second dimension says, any other is one
/// matrix.
pub proof fn matrices_have_their_rows(t: TensorSpec)
    ensures
        t.dims.len() >= 3 ==> matrix_rows(t) == t.dims[1],
        t.dims.len() == 2 ==> matrix_rows(t) == t.dims[1],
        t.dims.len() == 1 ==> matrix_rows(t) == 1,
{
    if t.dims.len() == 2 {
        let rest = t.dims.subrange(1, 2);
        assert(rest.drop_last() =~= seq![]);
        reveal_with_fuel(crate::gguf::product, 3);
        assert(rest.last() == t.dims[1]);
        assert(crate::gguf::product(rest.drop_last()) == 1);
        let d = rest.last() as nat;
        assert(1 * d == d);
    }
}

/// A bfloat16 number is the upper half of a single-precision one: widening puts zeros
/// below it, and cutting down drops the lower sixteen bits.
pub proof fn bfloats_are_upper_halves(h: u16, low: u16, b: u32)
    ensures
        widened_bf16(h) == h * pow2(16),
        b == widened_bf16(h) + low ==> cut_to_bf16(b) == h,
{
    lemma2_to64();
}

/// The rows that are encoded at a time are at least one and at most 512. In between
/// four shares for each thread, and no more than the rows that there are, are as large
/// as can be.
pub proof fn rows_are_shared_among_threads(n_rows: int, threads: int)
    requires
        0 <= n_rows,
        0 < threads,
    ensures
        ({
            let r = share_of_rows(n_rows, threads);
            &&& 1 <= r <= 512
            &&& r > 1 ==> 4 * threads * r <= n_rows
            &&& r < 512 ==> n_rows < 4 * threads * (r + 1)
        }),
{
    let d = threads * 4;
    let q = n_rows / d;
    let r = share_of_rows(n_rows, threads);
    vstd::arithmetic::div_mod::lemma_fundamental_div_mod(n_rows, d);
    assert(d * (q + 1) == d * q + d) by (nonlinear_arith);
    assert(4 * threads * r == d * r && 4 * threads * (r + 1) == d * (r + 1)) by (nonlinear_arith)
        requires
            d == threads * 4,
    ;
    if r <= q {
        assert(d * r <= d * q) by (nonlinear_arith)
            requires
                r <= q,
                d > 0,
        ;
    }
    if r >= q {
        assert(d * (q + 1) <= d * (r + 1)) by (nonlinear_arith)
            requires
                r >= q,
                d > 0,
        ;
    }
}

} // verus!
