//! The pieces that quantized blocks are made of, beside bit planes: split
//! codes, words of signs and scales, and the packed scales of K-blocks.

use vstd::prelude::*;
use vstd::slice::*;

use crate::le::{
    le_bytes, le_round_trip, le_value, le_value_round_trip, push_le, radix_values, u16_of, u32_of,
};
use crate::planes::below;

verus! {

/// Every code is below `n`.
pub open spec fn under(v: Seq<u16>, n: int) -> bool {
    forall|i: int| 0 <= i < v.len() ==> (#[trigger] v[i]) < n
}

/// The remainders of the codes by `n`.
pub open spec fn low(v: Seq<u16>, n: int) -> Seq<u8> {
    Seq::new(v.len(), |i: int| (v[i] as int % n) as u8)
}

/// The quotients of the codes by `n`.
pub open spec fn high(v: Seq<u16>, n: int) -> Seq<u8> {
    Seq::new(v.len(), |i: int| (v[i] as int / n) as u8)
}

/// The codes with these remainders and quotients.
pub open spec fn joined(lo: Seq<u8>, hi: Seq<u8>, n: int) -> Seq<u16> {
    Seq::new(lo.len(), |i: int| (lo[i] + n * hi[i]) as u16)
}

/// Bytes as codes.
pub open spec fn wide(v: Seq<u8>) -> Seq<u16> {
    Seq::new(v.len(), |i: int| v[i] as u16)
}

/// The low and the high parts of codes make up the codes.
pub proof fn joined_of_parts(v: Seq<u16>, n: int, limit: int)
    requires
        n == 16 || n == 256,
        limit <= 256 * n,
        limit <= 0x1_0000,
        under(v, limit),
    ensures
        joined(low(v, n), high(v, n), n) == v,
        below(low(v, n), n),
        forall|q: int| limit <= q * n ==> below(high(v, n), q),
{
    assert(joined(low(v, n), high(v, n), n) =~= v);
    assert forall|q: int| limit <= q * n implies below(high(v, n), q) by {
        assert forall|i: int| 0 <= i < v.len() implies (#[trigger] high(v, n)[i]) < q by {
            assert(v[i] < limit);
            assert(v[i] < q * n);
            if n == 16 {
                assert(v[i] < q * 16);
            } else {
                assert(v[i] < q * 256);
            }
        }
    }
}

/// Joined codes have the parts that they were joined from.
pub proof fn parts_of_joined(lo: Seq<u8>, hi: Seq<u8>, n: int, q: int)
    requires
        n == 16 || n == 256,
        0 < q,
        q * n <= 0x1_0000,
        lo.len() == hi.len(),
        below(lo, n),
        below(hi, q),
    ensures
        low(joined(lo, hi, n), n) == lo,
        high(joined(lo, hi, n), n) == hi,
        under(joined(lo, hi, n), q * n),
{
    let v = joined(lo, hi, n);
    assert forall|i: int| 0 <= i < v.len() implies (#[trigger] v[i]) == lo[i] + n * hi[i] && v[i]
        < q * n && v[i] as int % n == lo[i] && v[i] as int / n == hi[i] by {
        assert(lo[i] < n);
        assert(hi[i] < q);
        if n == 16 {
            assert(lo[i] + 16 * hi[i] < q * 16);
        } else {
            assert(lo[i] + 256 * hi[i] < q * 256);
        }
    }
    assert(low(v, n) =~= lo);
    assert(high(v, n) =~= hi);
}

/// Codes that fit in bytes are their own low parts.
pub proof fn wide_of_low(v: Seq<u16>, n: int)
    requires
        n == 16 || n == 256,
        under(v, n),
    ensures
        wide(low(v, n)) == v,
        below(low(v, n), n),
{
    assert(wide(low(v, n)) =~= v);
}

/// Bytes are the low parts of their codes.
pub proof fn low_of_wide(v: Seq<u8>, n: int)
    requires
        n == 16 || n == 256,
        below(v, n),
    ensures
        low(wide(v), n) == v,
        under(wide(v), n),
{
    assert(low(wide(v), n) =~= v);
}

/// The remainders of the codes by `n`.
pub fn low_parts(v: &[u16], n: u16) -> (r: Vec<u8>)
    requires
        0 < n <= 256,
    ensures
        r@ == low(v@, n as int),
{
    let mut r: Vec<u8> = Vec::new();
    for i in 0..v.len()
        invariant
            0 < n <= 256,
            r@ == low(v@, n as int).subrange(0, i as int),
    {
        let x: u8 = (v[i] % n) as u8;
        r.push(x);
        assert(low(v@, n as int).subrange(0, i + 1) =~= low(v@, n as int).subrange(0, i as int).push(
            x,
        ));
    }
    assert(low(v@, n as int).subrange(0, v@.len() as int) =~= low(v@, n as int));
    r
}

/// The quotients of the codes by `n`.
pub fn high_parts(v: &[u16], n: u16) -> (r: Vec<u8>)
    requires
        n == 16 || n == 256,
        under(v@, 256 * n),
    ensures
        r@ == high(v@, n as int),
{
    let mut r: Vec<u8> = Vec::new();
    for i in 0..v.len()
        invariant
            n == 16 || n == 256,
            under(v@, 256 * n),
            r@ == high(v@, n as int).subrange(0, i as int),
    {
        assert(v@[i as int] < 256 * n);
        let x: u8 = (v[i] / n) as u8;
        r.push(x);
        assert(high(v@, n as int).subrange(0, i + 1) =~= high(v@, n as int).subrange(
            0,
            i as int,
        ).push(x));
    }
    assert(high(v@, n as int).subrange(0, v@.len() as int) =~= high(v@, n as int));
    r
}

/// The codes with these remainders and quotients.
pub fn join_parts(lo: &[u8], hi: &[u8], n: u16) -> (r: Vec<u16>)
    requires
        0 < n <= 256,
        lo@.len() == hi@.len(),
        below(lo@, n as int),
    ensures
        r@ == joined(lo@, hi@, n as int),
{
    let ghost all = joined(lo@, hi@, n as int);
    let mut r: Vec<u16> = Vec::new();
    for i in 0..lo.len()
        invariant
            0 < n <= 256,
            lo@.len() == hi@.len(),
            below(lo@, n as int),
            all == joined(lo@, hi@, n as int),
            r@ == all.subrange(0, i as int),
    {
        assert(lo@[i as int] < n);
        assert(lo@[i as int] + n * hi@[i as int] <= 0xffff) by (nonlinear_arith)
            requires
                lo@[i as int] < n,
                0 <= hi@[i as int] <= 255,
                0 < n <= 256,
        ;
        let x: u16 = lo[i] as u16 + n * (hi[i] as u16);
        r.push(x);
        assert(all.subrange(0, i + 1) =~= all.subrange(0, i as int).push(x));
    }
    assert(all.subrange(0, lo@.len() as int) =~= all);
    r
}

/// The bytes from `from` to `to` as codes.
pub fn codes_of(b: &[u8], from: usize, to: usize) -> (r: Vec<u16>)
    requires
        from <= to <= b@.len(),
    ensures
        r@ == wide(b@.subrange(from as int, to as int)),
{
    let ghost all = wide(b@.subrange(from as int, to as int));
    let mut r: Vec<u16> = Vec::new();
    for i in from..to
        invariant
            from <= to <= b@.len(),
            all == wide(b@.subrange(from as int, to as int)),
            r@ == all.subrange(0, i - from),
    {
        let x: u16 = b[i] as u16;
        r.push(x);
        assert(all.subrange(0, i + 1 - from) =~= all.subrange(0, i - from).push(x));
    }
    assert(all.subrange(0, to - from) =~= all);
    r
}

/// Bytes as codes.
pub fn widened(b: &Vec<u8>) -> (r: Vec<u16>)
    ensures
        r@ == wide(b@),
{
    let r = codes_of(b.as_slice(), 0, b.len());
    assert(b@.subrange(0, b@.len() as int) =~= b@);
    r
}

/// The bytes from `from` to `to`.
pub fn bytes_of(b: &[u8], from: usize, to: usize) -> (r: Vec<u8>)
    requires
        from <= to <= b@.len(),
    ensures
        r@ == b@.subrange(from as int, to as int),
{
    let ghost all = b@.subrange(from as int, to as int);
    let mut r: Vec<u8> = Vec::new();
    for i in from..to
        invariant
            from <= to <= b@.len(),
            all == b@.subrange(from as int, to as int),
            r@ == all.subrange(0, i - from),
    {
        let x: u8 = b[i];
        r.push(x);
        assert(all.subrange(0, i + 1 - from) =~= all.subrange(0, i - from).push(x));
    }
    assert(all.subrange(0, to - from) =~= all);
    r
}

/// Word `i`: four 7-bit sign codes below a 4-bit scale.
pub open spec fn word(signs: Seq<u8>, scales: Seq<u8>, i: int) -> nat {
    (signs[4 * i] + 0x80 * signs[4 * i + 1] + 0x4000 * signs[4 * i + 2] + 0x20_0000 * signs[4 * i
        + 3] + 0x1000_0000 * scales[i]) as nat
}

/// The bytes of the words.
pub open spec fn words(signs: Seq<u8>, scales: Seq<u8>) -> Seq<u8> {
    Seq::new(4 * scales.len(), |k: int| le_bytes(word(signs, scales, k / 4), 4)[k % 4])
}

/// The four bytes at word `i`.
pub open spec fn quad(b: Seq<u8>, i: int) -> Seq<u8> {
    b.subrange(4 * i, 4 * i + 4)
}

/// The sign codes in words.
pub open spec fn word_signs(b: Seq<u8>) -> Seq<u8> {
    Seq::new(
        b.len(),
        |i: int|
            (if i % 4 == 0 {
                le_value(quad(b, i / 4)) % 0x80
            } else if i % 4 == 1 {
                le_value(quad(b, i / 4)) / 0x80 % 0x80
            } else if i % 4 == 2 {
                le_value(quad(b, i / 4)) / 0x4000 % 0x80
            } else {
                le_value(quad(b, i / 4)) / 0x20_0000 % 0x80
            }) as u8,
    )
}

/// The scales in words.
pub open spec fn word_scales(b: Seq<u8>) -> Seq<u8> {
    Seq::new(b.len() / 4, |i: int| (le_value(quad(b, i)) / 0x1000_0000) as u8)
}

proof fn word_fields(a: int, b: int, c: int, d: int, e: int)
    requires
        0 <= a < 0x80,
        0 <= b < 0x80,
        0 <= c < 0x80,
        0 <= d < 0x80,
        0 <= e < 16,
    ensures
        ({
            let w = a + 0x80 * b + 0x4000 * c + 0x20_0000 * d + 0x1000_0000 * e;
            &&& 0 <= w < 0x1_0000_0000
            &&& w % 0x80 == a
            &&& w / 0x80 % 0x80 == b
            &&& w / 0x4000 % 0x80 == c
            &&& w / 0x20_0000 % 0x80 == d
            &&& w / 0x1000_0000 == e
        }),
{
    let w = a + 0x80 * b + 0x4000 * c + 0x20_0000 * d + 0x1000_0000 * e;
    assert(w / 0x80 == b + 0x80 * c + 0x4000 * d + 0x20_0000 * e);
    assert(w / 0x4000 == c + 0x80 * d + 0x4000 * e);
    assert(w / 0x20_0000 == d + 0x80 * e);
    assert(w / 0x1000_0000 == e);
}

proof fn fields_of_word(w: int)
    requires
        0 <= w < 0x1_0000_0000,
    ensures
        w == w % 0x80 + 0x80 * (w / 0x80 % 0x80) + 0x4000 * (w / 0x4000 % 0x80) + 0x20_0000 * (w
            / 0x20_0000 % 0x80) + 0x1000_0000 * (w / 0x1000_0000),
        w / 0x1000_0000 < 16,
{
    assert(w / 0x4000 == w / 0x80 / 0x80);
    assert(w / 0x20_0000 == w / 0x4000 / 0x80);
    assert(w / 0x1000_0000 == w / 0x20_0000 / 0x80);
}

/// Words hold the signs and the scales that they were made of.
pub proof fn fields_of_words(signs: Seq<u8>, scales: Seq<u8>)
    requires
        signs.len() == 4 * scales.len(),
        below(signs, 0x80),
        below(scales, 16),
    ensures
        words(signs, scales).len() == 4 * scales.len(),
        word_signs(words(signs, scales)) == signs,
        word_scales(words(signs, scales)) == scales,
        forall|i: int|
            0 <= i < scales.len() ==> #[trigger] quad(words(signs, scales), i) == le_bytes(
                word(signs, scales, i),
                4,
            ),
{
    let b = words(signs, scales);
    assert forall|i: int| 0 <= i < scales.len() implies #[trigger] quad(b, i) == le_bytes(
        word(signs, scales, i),
        4,
    ) && le_value(quad(b, i)) == word(signs, scales, i) by {
        word_fits(signs, scales, i);
        radix_values();
        le_round_trip(word(signs, scales, i), 4);
        assert(quad(b, i) =~= le_bytes(word(signs, scales, i), 4));
    }
    assert forall|i: int| 0 <= i < signs.len() implies #[trigger] word_signs(b)[i] == signs[i] by {
        let q = i / 4;
        word_fits(signs, scales, q);
        assert(le_value(quad(b, q)) == word(signs, scales, q));
    }
    assert forall|i: int| 0 <= i < scales.len() implies #[trigger] word_scales(b)[i]
        == scales[i] by {
        word_fits(signs, scales, i);
        assert(le_value(quad(b, i)) == word(signs, scales, i));
    }
    assert(word_signs(b) =~= signs);
    assert(word_scales(b) =~= scales);
}

proof fn word_fits(signs: Seq<u8>, scales: Seq<u8>, i: int)
    requires
        signs.len() == 4 * scales.len(),
        below(signs, 0x80),
        below(scales, 16),
        0 <= i < scales.len(),
    ensures
        word(signs, scales, i) < 0x1_0000_0000,
        word(signs, scales, i) % 0x80 == signs[4 * i],
        word(signs, scales, i) / 0x80 % 0x80 == signs[4 * i + 1],
        word(signs, scales, i) / 0x4000 % 0x80 == signs[4 * i + 2],
        word(signs, scales, i) / 0x20_0000 % 0x80 == signs[4 * i + 3],
        word(signs, scales, i) / 0x1000_0000 == scales[i],
{
    assert(signs[4 * i] < 0x80 && signs[4 * i + 1] < 0x80 && signs[4 * i + 2] < 0x80 && signs[4 * i
        + 3] < 0x80 && scales[i] < 16);
    word_fields(
        signs[4 * i] as int,
        signs[4 * i + 1] as int,
        signs[4 * i + 2] as int,
        signs[4 * i + 3] as int,
        scales[i] as int,
    );
}

proof fn word_of_quad(b: Seq<u8>, i: int)
    requires
        b.len() % 4 == 0,
        0 <= i < b.len() as int / 4,
    ensures
        word(word_signs(b), word_scales(b), i) == le_value(quad(b, i)),
        le_bytes(word(word_signs(b), word_scales(b), i), 4) == quad(b, i),
        word_scales(b)[i] < 16,
{
    let w = le_value(quad(b, i)) as int;
    radix_values();
    le_value_round_trip(quad(b, i));
    fields_of_word(w);
    let s = word_signs(b);
    assert((4 * i) / 4 == i && (4 * i) % 4 == 0);
    assert((4 * i + 1) / 4 == i && (4 * i + 1) % 4 == 1);
    assert((4 * i + 2) / 4 == i && (4 * i + 2) % 4 == 2);
    assert((4 * i + 3) / 4 == i && (4 * i + 3) % 4 == 3);
    assert(s[4 * i] == w % 0x80);
    assert(s[4 * i + 1] == w / 0x80 % 0x80);
    assert(s[4 * i + 2] == w / 0x4000 % 0x80);
    assert(s[4 * i + 3] == w / 0x20_0000 % 0x80);
    assert(word_scales(b)[i] == w / 0x1000_0000);
}

/// Words are made of their signs and scales.
pub proof fn words_of_fields(b: Seq<u8>)
    requires
        b.len() % 4 == 0,
    ensures
        word_signs(b).len() == 4 * word_scales(b).len(),
        below(word_signs(b), 0x80),
        below(word_scales(b), 16),
        words(word_signs(b), word_scales(b)) == b,
{
    let s = word_signs(b);
    let c = word_scales(b);
    assert forall|i: int| 0 <= i < s.len() implies (#[trigger] s[i]) < 0x80 by {
        let w = le_value(quad(b, i / 4));
        assert(s[i] == w % 0x80 || s[i] == w / 0x80 % 0x80 || s[i] == w / 0x4000 % 0x80 || s[i] == w
            / 0x20_0000 % 0x80);
    }
    assert forall|i: int| 0 <= i < c.len() implies (#[trigger] c[i]) < 16 by {
        word_of_quad(b, i);
    }
    assert forall|k: int| 0 <= k < b.len() implies #[trigger] words(s, c)[k] == b[k] by {
        word_of_quad(b, k / 4);
        assert(quad(b, k / 4)[k % 4] == b[k]);
    }
    assert(words(s, c) =~= b);
}

/// Word `i` as a number.
pub fn word_at(signs: &Vec<u8>, scales: &Vec<u8>, i: usize) -> (r: u32)
    requires
        signs@.len() == 4 * scales@.len(),
        scales@.len() <= 64,
        below(signs@, 0x80),
        below(scales@, 16),
        i < scales@.len(),
    ensures
        r == word(signs@, scales@, i as int),
{
    proof {
        word_fits(signs@, scales@, i as int);
    }
    signs[4 * i] as u32 + 0x80 * (signs[4 * i + 1] as u32) + 0x4000 * (signs[4 * i + 2] as u32)
        + 0x20_0000 * (signs[4 * i + 3] as u32) + 0x1000_0000 * (scales[i] as u32)
}

/// Appends words.
pub fn push_words(out: &mut Vec<u8>, signs: &Vec<u8>, scales: &Vec<u8>)
    requires
        signs@.len() == 4 * scales@.len(),
        scales@.len() <= 64,
        below(signs@, 0x80),
        below(scales@, 16),
    ensures
        final(out)@ == old(out)@ + words(signs@, scales@),
{
    let ghost start = out@;
    let ghost all = words(signs@, scales@);
    proof {
        fields_of_words(signs@, scales@);
    }
    for i in 0..scales.len()
        invariant
            signs@.len() == 4 * scales@.len(),
            scales@.len() <= 64,
            below(signs@, 0x80),
            below(scales@, 16),
            all == words(signs@, scales@),
            all.len() == 4 * scales@.len(),
            forall|j: int|
                0 <= j < scales@.len() ==> #[trigger] quad(all, j) == le_bytes(
                    word(signs@, scales@, j),
                    4,
                ),
            out@ == start + all.subrange(0, 4 * i),
    {
        let w = word_at(signs, scales, i);
        push_le(out, w as u64, 4);
        assert(quad(all, i as int) == le_bytes(w as nat, 4));
        assert(all.subrange(0, 4 * (i + 1)) =~= all.subrange(0, 4 * i) + quad(all, i as int));
    }
    assert(all.subrange(0, (4 * scales@.len()) as int) =~= all);
}

fn quad_value(b: &[u8], at: usize) -> (r: u32)
    requires
        at + 4 <= b@.len(),
    ensures
        r == le_value(b@.subrange(at as int, at + 4)),
{
    assert(b@.len() == b.len());
    u32_of(slice_subrange(b, at, at + 4))
}

/// The sign codes in the words from `from` to `to`.
pub fn read_word_signs(b: &[u8], from: usize, to: usize) -> (r: Vec<u8>)
    requires
        from <= to <= b@.len(),
        (to - from) % 4 == 0,
    ensures
        r@ == word_signs(b@.subrange(from as int, to as int)),
{
    let ghost sub = b@.subrange(from as int, to as int);
    let ghost all = word_signs(sub);
    let mut r: Vec<u8> = Vec::new();
    let n: usize = (to - from) / 4;
    for i in 0..n
        invariant
            from <= to <= b@.len(),
            n == (to - from) / 4,
            (to - from) % 4 == 0,
            sub == b@.subrange(from as int, to as int),
            all == word_signs(sub),
            r@ == all.subrange(0, 4 * i),
    {
        let w = quad_value(b, from + 4 * i);
        assert(b@.subrange(from + 4 * i, from + 4 * i + 4) =~= quad(sub, i as int));
        let (x0, x1): (u8, u8) = ((w % 0x80) as u8, (w / 0x80 % 0x80) as u8);
        let (x2, x3): (u8, u8) = ((w / 0x4000 % 0x80) as u8, (w / 0x20_0000 % 0x80) as u8);
        r.push(x0);
        r.push(x1);
        r.push(x2);
        r.push(x3);
        proof {
            let j = 4 * i as int;
            assert(j / 4 == i && j % 4 == 0);
            assert((j + 1) / 4 == i && (j + 1) % 4 == 1);
            assert((j + 2) / 4 == i && (j + 2) % 4 == 2);
            assert((j + 3) / 4 == i && (j + 3) % 4 == 3);
            assert(all[j] == x0 && all[j + 1] == x1 && all[j + 2] == x2 && all[j + 3] == x3);
            assert(all.subrange(0, 4 * (i + 1)) =~= all.subrange(0, 4 * i).push(x0).push(x1).push(
                x2,
            ).push(x3));
        }
    }
    assert(all.subrange(0, 4 * n) =~= all);
    r
}

/// The scales in the words from `from` to `to`.
pub fn read_word_scales(b: &[u8], from: usize, to: usize) -> (r: Vec<u8>)
    requires
        from <= to <= b@.len(),
        (to - from) % 4 == 0,
    ensures
        r@ == word_scales(b@.subrange(from as int, to as int)),
{
    let ghost sub = b@.subrange(from as int, to as int);
    let ghost all = word_scales(sub);
    let mut r: Vec<u8> = Vec::new();
    let n: usize = (to - from) / 4;
    for i in 0..n
        invariant
            from <= to <= b@.len(),
            n == (to - from) / 4,
            (to - from) % 4 == 0,
            sub == b@.subrange(from as int, to as int),
            all == word_scales(sub),
            r@ == all.subrange(0, i as int),
    {
        let w = quad_value(b, from + 4 * i);
        assert(b@.subrange(from + 4 * i, from + 4 * i + 4) =~= quad(sub, i as int));
        let x: u8 = (w / 0x1000_0000) as u8;
        r.push(x);
        assert(all.subrange(0, i + 1) =~= all.subrange(0, i as int).push(x));
    }
    assert(all.subrange(0, n as int) =~= all);
    r
}

/// Two runs of bytes, four of each in turn.
pub open spec fn interleaved(a: Seq<u8>, b: Seq<u8>) -> Seq<u8> {
    Seq::new(
        2 * a.len(),
        |k: int|
            if k % 8 < 4 {
                a[4 * (k / 8) + k % 8]
            } else {
                b[4 * (k / 8) + (k % 8 - 4)]
            },
    )
}

/// The first of two interleaved runs.
pub open spec fn first_run(c: Seq<u8>) -> Seq<u8> {
    Seq::new(c.len() / 2, |i: int| c[8 * (i / 4) + i % 4])
}

/// The second of two interleaved runs.
pub open spec fn second_run(c: Seq<u8>) -> Seq<u8> {
    Seq::new(c.len() / 2, |i: int| c[8 * (i / 4) + i % 4 + 4])
}

/// Interleaved runs come apart.
pub proof fn runs_of_interleaved(a: Seq<u8>, b: Seq<u8>)
    requires
        a.len() == b.len(),
        a.len() % 4 == 0,
    ensures
        first_run(interleaved(a, b)) == a,
        second_run(interleaved(a, b)) == b,
{
    let c = interleaved(a, b);
    assert forall|i: int| 0 <= i < a.len() implies #[trigger] first_run(c)[i] == a[i] by {
        let k = 8 * (i / 4) + i % 4;
        assert(k / 8 == i / 4 && k % 8 == i % 4);
        assert(0 <= k < 2 * a.len());
    }
    assert forall|i: int| 0 <= i < a.len() implies #[trigger] second_run(c)[i] == b[i] by {
        let k = 8 * (i / 4) + i % 4 + 4;
        assert(k / 8 == i / 4 && k % 8 == i % 4 + 4);
        assert(0 <= k < 2 * a.len());
    }
    assert(first_run(c) =~= a);
    assert(second_run(c) =~= b);
}

/// Bytes are the interleaving of their two runs.
pub proof fn interleaved_of_runs(c: Seq<u8>)
    requires
        c.len() % 8 == 0,
    ensures
        interleaved(first_run(c), second_run(c)) == c,
{
    let d = interleaved(first_run(c), second_run(c));
    assert forall|k: int| 0 <= k < c.len() implies #[trigger] d[k] == c[k] by {
        if k % 8 < 4 {
            let i = 4 * (k / 8) + k % 8;
            assert(i / 4 == k / 8 && i % 4 == k % 8);
        } else {
            let i = 4 * (k / 8) + (k % 8 - 4);
            assert(i / 4 == k / 8 && i % 4 == k % 8 - 4);
        }
    }
    assert(d =~= c);
}

/// Appends two runs of bytes, four of each in turn.
pub fn push_interleaved(out: &mut Vec<u8>, a: &Vec<u8>, b: &Vec<u8>)
    requires
        a@.len() == b@.len(),
        a@.len() % 4 == 0,
        a@.len() <= 1024,
    ensures
        final(out)@ == old(out)@ + interleaved(a@, b@),
{
    let ghost start = out@;
    let ghost all = interleaved(a@, b@);
    let n: usize = 2 * a.len();
    for k in 0..n
        invariant
            a@.len() == b@.len(),
            a@.len() % 4 == 0,
            n == 2 * a@.len(),
            n <= 2048,
            all == interleaved(a@, b@),
            out@ == start + all.subrange(0, k as int),
    {
        let x: u8 = if k % 8 < 4 {
            a[4 * (k / 8) + k % 8]
        } else {
            b[4 * (k / 8) + (k % 8 - 4)]
        };
        out.push(x);
        assert(all.subrange(0, k + 1) =~= all.subrange(0, k as int).push(x));
    }
    assert(all.subrange(0, n as int) =~= all);
}

/// The two runs that are interleaved from `from` to `to`.
pub fn read_runs(b: &[u8], from: usize, to: usize) -> (r: (Vec<u8>, Vec<u8>))
    requires
        from <= to <= b@.len(),
        (to - from) % 8 == 0,
    ensures
        r.0@ == first_run(b@.subrange(from as int, to as int)),
        r.1@ == second_run(b@.subrange(from as int, to as int)),
{
    let ghost sub = b@.subrange(from as int, to as int);
    let ghost one = first_run(sub);
    let ghost two = second_run(sub);
    let mut x: Vec<u8> = Vec::new();
    let mut y: Vec<u8> = Vec::new();
    let n: usize = (to - from) / 2;
    for i in 0..n
        invariant
            from <= to <= b@.len(),
            (to - from) % 8 == 0,
            n == (to - from) / 2,
            sub == b@.subrange(from as int, to as int),
            one == first_run(sub),
            two == second_run(sub),
            x@ == one.subrange(0, i as int),
            y@ == two.subrange(0, i as int),
    {
        let at: usize = 8 * (i / 4) + i % 4;
        let u: u8 = b[from + at];
        let v: u8 = b[from + at + 4];
        x.push(u);
        y.push(v);
        assert(one.subrange(0, i + 1) =~= one.subrange(0, i as int).push(u));
        assert(two.subrange(0, i + 1) =~= two.subrange(0, i as int).push(v));
    }
    assert(one.subrange(0, n as int) =~= one);
    assert(two.subrange(0, n as int) =~= two);
    (x, y)
}

/// The bytes of 9-bit codes, each below a 7-bit sign code.
pub open spec fn pairs(codes: Seq<u16>, signs: Seq<u8>) -> Seq<u8> {
    Seq::new(
        2 * codes.len(),
        |k: int| le_bytes((codes[k / 2] + 512 * signs[k / 2]) as nat, 2)[k % 2],
    )
}

/// The two bytes at pair `i`.
pub open spec fn duo(b: Seq<u8>, i: int) -> Seq<u8> {
    b.subrange(2 * i, 2 * i + 2)
}

/// The codes in pairs.
pub open spec fn pair_codes(b: Seq<u8>) -> Seq<u16> {
    Seq::new(b.len() / 2, |i: int| (le_value(duo(b, i)) % 512) as u16)
}

/// The sign codes in pairs.
pub open spec fn pair_signs(b: Seq<u8>) -> Seq<u8> {
    Seq::new(b.len() / 2, |i: int| (le_value(duo(b, i)) / 512) as u8)
}

/// Pairs hold the codes and the signs that they were made of.
pub proof fn fields_of_pairs(codes: Seq<u16>, signs: Seq<u8>)
    requires
        codes.len() == signs.len(),
        under(codes, 512),
        below(signs, 0x80),
    ensures
        pair_codes(pairs(codes, signs)) == codes,
        pair_signs(pairs(codes, signs)) == signs,
        forall|i: int|
            0 <= i < codes.len() ==> #[trigger] duo(pairs(codes, signs), i) == le_bytes(
                (codes[i] + 512 * signs[i]) as nat,
                2,
            ),
{
    let b = pairs(codes, signs);
    assert forall|i: int| 0 <= i < codes.len() implies #[trigger] duo(b, i) == le_bytes(
        (codes[i] + 512 * signs[i]) as nat,
        2,
    ) && le_value(duo(b, i)) == codes[i] + 512 * signs[i] by {
        assert(codes[i] < 512 && signs[i] < 0x80);
        radix_values();
        le_round_trip((codes[i] + 512 * signs[i]) as nat, 2);
        assert(duo(b, i) =~= le_bytes((codes[i] + 512 * signs[i]) as nat, 2));
    }
    assert forall|i: int| 0 <= i < codes.len() implies #[trigger] pair_codes(b)[i] == codes[i]
        && pair_signs(b)[i] == signs[i] by {
        assert(codes[i] < 512 && signs[i] < 0x80);
        assert(le_value(duo(b, i)) == codes[i] + 512 * signs[i]);
    }
    assert(pair_codes(b) =~= codes);
    assert(pair_signs(b) =~= signs);
}

/// Pairs are made of their codes and signs.
pub proof fn pairs_of_fields(b: Seq<u8>)
    requires
        b.len() % 2 == 0,
    ensures
        under(pair_codes(b), 512),
        below(pair_signs(b), 0x80),
        pairs(pair_codes(b), pair_signs(b)) == b,
{
    let c = pair_codes(b);
    let s = pair_signs(b);
    assert forall|i: int| 0 <= i < c.len() implies #[trigger] le_value(duo(b, i)) == c[i] + 512
        * s[i] && s[i] < 0x80 && le_bytes(le_value(duo(b, i)), 2) == duo(b, i) by {
        radix_values();
        le_value_round_trip(duo(b, i));
    }
    assert forall|i: int| 0 <= i < s.len() implies (#[trigger] s[i]) < 0x80 by {
        assert(le_value(duo(b, i)) == c[i] + 512 * s[i]);
    }
    assert forall|k: int| 0 <= k < b.len() implies #[trigger] pairs(c, s)[k] == b[k] by {
        assert(le_value(duo(b, k / 2)) == c[k / 2] + 512 * s[k / 2]);
        assert(duo(b, k / 2)[k % 2] == b[k]);
    }
    assert(pairs(c, s) =~= b);
}

/// Appends pairs.
pub fn push_pairs(out: &mut Vec<u8>, codes: &Vec<u16>, signs: &Vec<u8>)
    requires
        codes@.len() == signs@.len(),
        under(codes@, 512),
        below(signs@, 0x80),
    ensures
        final(out)@ == old(out)@ + pairs(codes@, signs@),
{
    let ghost start = out@;
    let ghost all = pairs(codes@, signs@);
    proof {
        fields_of_pairs(codes@, signs@);
    }
    for i in 0..codes.len()
        invariant
            codes@.len() == signs@.len(),
            under(codes@, 512),
            below(signs@, 0x80),
            all == pairs(codes@, signs@),
            forall|j: int|
                0 <= j < codes@.len() ==> #[trigger] duo(all, j) == le_bytes(
                    (codes@[j] + 512 * signs@[j]) as nat,
                    2,
                ),
            out@ == start + all.subrange(0, 2 * i),
    {
        assert(codes@[i as int] < 512 && signs@[i as int] < 0x80);
        let w: u64 = codes[i] as u64 + 512 * (signs[i] as u64);
        push_le(out, w, 2);
        assert(duo(all, i as int) == le_bytes(w as nat, 2));
        assert(all.subrange(0, 2 * (i + 1)) =~= all.subrange(0, 2 * i) + duo(all, i as int));
    }
    assert(all.subrange(0, (2 * codes@.len()) as int) =~= all);
}

/// The codes and the signs in the pairs from `from` to `to`.
pub fn read_pairs(b: &[u8], from: usize, to: usize) -> (r: (Vec<u16>, Vec<u8>))
    requires
        from <= to <= b@.len(),
        (to - from) % 2 == 0,
    ensures
        r.0@ == pair_codes(b@.subrange(from as int, to as int)),
        r.1@ == pair_signs(b@.subrange(from as int, to as int)),
{
    let ghost sub = b@.subrange(from as int, to as int);
    let ghost one = pair_codes(sub);
    let ghost two = pair_signs(sub);
    let mut x: Vec<u16> = Vec::new();
    let mut y: Vec<u8> = Vec::new();
    let n: usize = (to - from) / 2;
    for i in 0..n
        invariant
            from <= to <= b@.len(),
            (to - from) % 2 == 0,
            n == (to - from) / 2,
            sub == b@.subrange(from as int, to as int),
            one == pair_codes(sub),
            two == pair_signs(sub),
            x@ == one.subrange(0, i as int),
            y@ == two.subrange(0, i as int),
    {
        let w = u16_of(slice_subrange(b, from + 2 * i, from + 2 * i + 2));
        assert(b@.subrange(from + 2 * i, from + 2 * i + 2) =~= duo(sub, i as int));
        let u: u16 = w % 512;
        let v: u8 = (w / 512) as u8;
        x.push(u);
        y.push(v);
        assert(one.subrange(0, i + 1) =~= one.subrange(0, i as int).push(u));
        assert(two.subrange(0, i + 1) =~= two.subrange(0, i as int).push(v));
    }
    assert(one.subrange(0, n as int) =~= one);
    assert(two.subrange(0, n as int) =~= two);
    (x, y)
}

/// The twelve bytes that hold eight 6-bit scales and eight 6-bit mins.
pub open spec fn k_scales(scales: Seq<u8>, mins: Seq<u8>) -> Seq<u8> {
    Seq::new(
        12,
        |k: int|
            (if k < 4 {
                scales[k] + 64 * (scales[k + 4] / 16)
            } else if k < 8 {
                mins[k - 4] + 64 * (mins[k] / 16)
            } else {
                scales[k - 4] % 16 + 16 * (mins[k - 4] % 16)
            }) as u8,
    )
}

/// Scale `j` in the twelve bytes.
pub open spec fn k_scale(q: Seq<u8>, j: int) -> u8 {
    (if j < 4 {
        q[j] % 64
    } else {
        (q[j + 4] % 16 + 16 * (q[j - 4] / 64)) as u8
    })
}

/// Min `j` in the twelve bytes.
pub open spec fn k_min(q: Seq<u8>, j: int) -> u8 {
    (if j < 4 {
        q[j + 4] % 64
    } else {
        (q[j + 4] / 16 + 16 * (q[j] / 64)) as u8
    })
}

/// The twelve bytes hold the scales and the mins that they were made of.
pub proof fn fields_of_k_scales(scales: Seq<u8>, mins: Seq<u8>)
    requires
        scales.len() == 8,
        mins.len() == 8,
        below(scales, 64),
        below(mins, 64),
    ensures
        forall|j: int| 0 <= j < 8 ==> #[trigger] k_scale(k_scales(scales, mins), j) == scales[j],
        forall|j: int| 0 <= j < 8 ==> #[trigger] k_min(k_scales(scales, mins), j) == mins[j],
{
    let q = k_scales(scales, mins);
    assert forall|j: int| 0 <= j < 8 implies #[trigger] k_scale(q, j) == scales[j] by {
        assert(scales[j] < 64);
        if j < 4 {
            assert(scales[j + 4] < 64);
        } else {
            assert(scales[j - 4] < 64 && mins[j] < 64);
        }
    }
    assert forall|j: int| 0 <= j < 8 implies #[trigger] k_min(q, j) == mins[j] by {
        assert(mins[j] < 64);
        if j < 4 {
            assert(mins[j + 4] < 64);
        } else {
            assert(mins[j - 4] < 64 && scales[j] < 64);
        }
    }
}

/// The scales in the twelve bytes.
pub open spec fn k_scales_of(q: Seq<u8>) -> Seq<u8> {
    Seq::new(8, |j: int| k_scale(q, j))
}

/// The mins in the twelve bytes.
pub open spec fn k_mins_of(q: Seq<u8>) -> Seq<u8> {
    Seq::new(8, |j: int| k_min(q, j))
}

/// The twelve bytes are made of their scales and mins.
pub proof fn k_scales_of_fields(q: Seq<u8>)
    requires
        q.len() == 12,
    ensures
        below(k_scales_of(q), 64),
        below(k_mins_of(q), 64),
        k_scales(k_scales_of(q), k_mins_of(q)) == q,
{
    let s = k_scales_of(q);
    let m = k_mins_of(q);
    assert forall|j: int| 0 <= j < 8 implies (#[trigger] s[j]) < 64 by {}
    assert forall|j: int| 0 <= j < 8 implies (#[trigger] m[j]) < 64 by {}
    assert forall|k: int| 0 <= k < 12 implies #[trigger] k_scales(s, m)[k] == q[k] by {
        if k < 4 {
            assert(s[k] == q[k] % 64);
            assert(s[k + 4] / 16 == q[k] / 64);
        } else if k < 8 {
            assert(m[k - 4] == q[k] % 64);
            assert(m[k] / 16 == q[k] / 64);
        } else {
            assert(s[k - 4] % 16 == q[k] % 16);
            assert(m[k - 4] % 16 == q[k] / 16);
        }
    }
    assert(k_scales(s, m) =~= q);
}

/// Scale and min `j` in the twelve bytes.
pub fn get_scale_min_k4(j: usize, q: &[u8]) -> (r: (u8, u8))
    requires
        j < 8,
        q@.len() == 12,
    ensures
        r.0 == k_scale(q@, j as int),
        r.1 == k_min(q@, j as int),
{
    if j < 4 {
        (q[j] % 64, q[j + 4] % 64)
    } else {
        (q[j + 4] % 16 + 16 * (q[j - 4] / 64), q[j + 4] / 16 + 16 * (q[j] / 64))
    }
}

/// Appends the twelve bytes.
pub fn push_k_scales(out: &mut Vec<u8>, scales: &Vec<u8>, mins: &Vec<u8>)
    requires
        scales@.len() == 8,
        mins@.len() == 8,
        below(scales@, 64),
        below(mins@, 64),
    ensures
        final(out)@ == old(out)@ + k_scales(scales@, mins@),
{
    let ghost start = out@;
    let ghost all = k_scales(scales@, mins@);
    for k in 0..12usize
        invariant
            scales@.len() == 8,
            mins@.len() == 8,
            below(scales@, 64),
            below(mins@, 64),
            all == k_scales(scales@, mins@),
            out@ == start + all.subrange(0, k as int),
    {
        let x: u8 = if k < 4 {
            assert(scales@[k as int] < 64 && scales@[k + 4] < 64);
            scales[k] + 64 * (scales[k + 4] / 16)
        } else if k < 8 {
            assert(mins@[k - 4] < 64 && mins@[k as int] < 64);
            mins[k - 4] + 64 * (mins[k] / 16)
        } else {
            scales[k - 4] % 16 + 16 * (mins[k - 4] % 16)
        };
        out.push(x);
        assert(all.subrange(0, k + 1) =~= all.subrange(0, k as int).push(x));
    }
    assert(all.subrange(0, 12) =~= all);
}

/// The scales and the mins in the twelve bytes from `from`.
pub fn read_k_scales(b: &[u8], from: usize) -> (r: (Vec<u8>, Vec<u8>))
    requires
        from + 12 <= b@.len(),
    ensures
        r.0@ == k_scales_of(b@.subrange(from as int, from + 12)),
        r.1@ == k_mins_of(b@.subrange(from as int, from + 12)),
{
    assert(b@.len() == b.len());
    let q = slice_subrange(b, from, from + 12);
    let ghost one = k_scales_of(q@);
    let ghost two = k_mins_of(q@);
    let mut x: Vec<u8> = Vec::new();
    let mut y: Vec<u8> = Vec::new();
    for j in 0..8usize
        invariant
            q@.len() == 12,
            one == k_scales_of(q@),
            two == k_mins_of(q@),
            x@ == one.subrange(0, j as int),
            y@ == two.subrange(0, j as int),
    {
        let (u, v) = get_scale_min_k4(j, q);
        x.push(u);
        y.push(v);
        assert(one.subrange(0, j + 1) =~= one.subrange(0, j as int).push(u));
        assert(two.subrange(0, j + 1) =~= two.subrange(0, j as int).push(v));
    }
    assert(one.subrange(0, 8) =~= one);
    assert(two.subrange(0, 8) =~= two);
    (x, y)
}

} // verus!
