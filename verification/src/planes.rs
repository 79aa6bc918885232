//! Bit planes: sequences of 1-, 2- or 4-bit values packed into bytes.
//!
//! A plane has a stride `s`. Each run of `s` bytes holds `8 / bits` runs of `s`
//! values: the first run in the lowest bits of the bytes, the next above it,
//! and so on.

use vstd::arithmetic::div_mod::*;
use vstd::arithmetic::mul::*;
use vstd::arithmetic::power2::*;
use vstd::prelude::*;

verus! {

/// The widths a plane can have.
pub open spec fn plane_bits(bits: int) -> bool {
    bits == 1 || bits == 2 || bits == 4
}

/// How many values a byte holds.
pub open spec fn per_byte(bits: int) -> int {
    if bits == 4 {
        2
    } else if bits == 2 {
        4
    } else {
        8
    }
}

/// One more than the largest value of `bits` bits.
pub open spec fn limit(bits: int) -> int {
    if bits == 4 {
        16
    } else if bits == 2 {
        4
    } else {
        2
    }
}

/// Which value stands in field `m` of byte `k`.
pub open spec fn slot(k: int, s: int, f: int, m: int) -> int {
    (k / s) * (s * f) + (m * s + k % s)
}

/// Which byte holds value `i`.
pub open spec fn home(i: int, s: int, f: int) -> int {
    (i / (s * f)) * s + i % (s * f) % s
}

/// Which field of its byte holds value `i`.
pub open spec fn place(i: int, s: int, f: int) -> int {
    i % (s * f) / s
}

/// The value in field `m` of byte `k`.
pub open spec fn held(v: Seq<u8>, bits: int, s: int, k: int, m: int) -> int {
    v[slot(k, s, per_byte(bits), m)] as int
}

/// Byte `k` of the plane of `v`.
pub open spec fn plane_byte(v: Seq<u8>, bits: int, s: int, k: int) -> int {
    if bits == 4 {
        held(v, bits, s, k, 0) + 16 * held(v, bits, s, k, 1)
    } else if bits == 2 {
        held(v, bits, s, k, 0) + 4 * held(v, bits, s, k, 1) + 16 * held(v, bits, s, k, 2) + 64
            * held(v, bits, s, k, 3)
    } else {
        held(v, bits, s, k, 0) + 2 * held(v, bits, s, k, 1) + 4 * held(v, bits, s, k, 2) + 8
            * held(v, bits, s, k, 3) + 16 * held(v, bits, s, k, 4) + 32 * held(v, bits, s, k, 5)
            + 64 * held(v, bits, s, k, 6) + 128 * held(v, bits, s, k, 7)
    }
}

/// The plane of `v`.
#[verifier::opaque]
pub open spec fn plane(v: Seq<u8>, bits: int, s: int) -> Seq<u8> {
    Seq::new((v.len() as int / per_byte(bits)) as nat, |k: int| plane_byte(v, bits, s, k) as u8)
}

/// Field `m` of a byte.
pub open spec fn field(b: int, bits: int, m: int) -> int {
    if bits == 4 {
        if m == 0 {
            b % 16
        } else {
            b / 16
        }
    } else if bits == 2 {
        if m == 0 {
            b % 4
        } else if m == 1 {
            b / 4 % 4
        } else if m == 2 {
            b / 16 % 4
        } else {
            b / 64
        }
    } else {
        if m == 0 {
            b % 2
        } else if m == 1 {
            b / 2 % 2
        } else if m == 2 {
            b / 4 % 2
        } else if m == 3 {
            b / 8 % 2
        } else if m == 4 {
            b / 16 % 2
        } else if m == 5 {
            b / 32 % 2
        } else if m == 6 {
            b / 64 % 2
        } else {
            b / 128
        }
    }
}

/// The values in a plane.
#[verifier::opaque]
pub open spec fn values(b: Seq<u8>, bits: int, s: int) -> Seq<u8> {
    Seq::new(
        (b.len() * per_byte(bits)) as nat,
        |i: int|
            field(b[home(i, s, per_byte(bits))] as int, bits, place(i, s, per_byte(bits))) as u8,
    )
}

/// Every value is below `n`.
pub open spec fn below(v: Seq<u8>, n: int) -> bool {
    forall|i: int| 0 <= i < v.len() ==> (#[trigger] v[i]) < n
}

proof fn slot_inverts(i: int, s: int, f: int, n: int)
    requires
        0 <= i < n * (s * f),
        s > 0,
        f > 0,
    ensures
        0 <= place(i, s, f) < f,
        0 <= home(i, s, f) < n * s,
        slot(home(i, s, f), s, f, place(i, s, f)) == i,
{
    let q = s * f;
    assert(q > 0) by (nonlinear_arith)
        requires
            s > 0,
            f > 0,
            q == s * f,
    ;
    let g = i / q;
    let r = i % q;
    lemma_fundamental_div_mod(i, q);
    lemma_mod_bound(i, q);
    lemma_fundamental_div_mod(r, s);
    lemma_mod_bound(r, s);
    let m = r / s;
    let j = r % s;
    assert(0 <= g) by {
        lemma_div_pos_is_pos(i, q);
    }
    assert(g < n) by (nonlinear_arith)
        requires
            i == q * g + r,
            0 <= r,
            i < n * q,
            q > 0,
    ;
    assert(0 <= m) by {
        lemma_div_pos_is_pos(r, s);
    }
    assert(m < f) by (nonlinear_arith)
        requires
            r == s * m + j,
            0 <= j,
            r < q,
            q == s * f,
            s > 0,
    ;
    lemma_fundamental_div_mod_converse(g * s + j, s, g, j);
    assert(g * s + j < n * s) by (nonlinear_arith)
        requires
            g < n,
            0 <= j < s,
    ;
    assert(g * s >= 0) by (nonlinear_arith)
        requires
            g >= 0,
            s > 0,
    ;
    lemma_mul_is_commutative(s, m);
    lemma_mul_is_commutative(q, g);
}

proof fn home_inverts(k: int, s: int, f: int, m: int, n: int)
    requires
        0 <= k < n * s,
        0 <= m < f,
        s > 0,
    ensures
        0 <= slot(k, s, f, m) < n * (s * f),
        home(slot(k, s, f, m), s, f) == k,
        place(slot(k, s, f, m), s, f) == m,
{
    let q = s * f;
    let g = k / s;
    let j = k % s;
    lemma_fundamental_div_mod(k, s);
    lemma_mod_bound(k, s);
    lemma_div_pos_is_pos(k, s);
    assert(g < n) by (nonlinear_arith)
        requires
            k == s * g + j,
            0 <= j,
            k < n * s,
            s > 0,
    ;
    let r = m * s + j;
    assert(0 <= r < q) by (nonlinear_arith)
        requires
            r == m * s + j,
            0 <= j < s,
            0 <= m < f,
            q == s * f,
    ;
    lemma_fundamental_div_mod_converse(g * q + r, q, g, r);
    lemma_fundamental_div_mod_converse(r, s, m, j);
    lemma_mul_is_commutative(s, g);
    assert(0 <= g * q + r < n * q) by (nonlinear_arith)
        requires
            0 <= g < n,
            0 <= r < q,
    ;
}

/// Unpacking a plane gives back the values that it was packed from.
pub proof fn values_of_plane(v: Seq<u8>, bits: int, s: int, n: int)
    requires
        plane_bits(bits),
        s > 0,
        v.len() == n * (s * per_byte(bits)),
        below(v, limit(bits)),
    ensures
        plane(v, bits, s).len() == n * s,
        values(plane(v, bits, s), bits, s) == v,
{
    reveal(plane);
    reveal(values);
    let f = per_byte(bits);
    assert(n * (s * f) == (n * s) * f) by (nonlinear_arith);
    lemma_div_multiples_vanish(n * s, f);
    lemma_mul_is_commutative(n * s, f);
    let b = plane(v, bits, s);
    assert(b.len() == n * s);
    assert forall|i: int| 0 <= i < v.len() implies values(b, bits, s)[i] == #[trigger] v[i] by {
        slot_inverts(i, s, f, n);
        let k = home(i, s, f);
        let m = place(i, s, f);
        plane_byte_fields(v, bits, s, k, n);
        assert(field(plane_byte(v, bits, s, k), bits, m) == held(v, bits, s, k, m));
        assert(b[k] == plane_byte(v, bits, s, k));
    }
    assert(values(b, bits, s) =~= v);
}

/// The fields of a byte hold the values that it was made of.
proof fn plane_byte_fields(v: Seq<u8>, bits: int, s: int, k: int, n: int)
    requires
        plane_bits(bits),
        below(v, limit(bits)),
        v.len() == n * (s * per_byte(bits)),
        0 <= k < n * s,
        s > 0,
    ensures
        0 <= plane_byte(v, bits, s, k) <= 255,
        forall|m: int|
            0 <= m < per_byte(bits) ==> field(plane_byte(v, bits, s, k), bits, m)
                == #[trigger] held(v, bits, s, k, m),
        forall|m: int|
            0 <= m < per_byte(bits) ==> 0 <= #[trigger] held(v, bits, s, k, m) < limit(bits),
{
    assert forall|m: int| 0 <= m < per_byte(bits) implies 0 <= #[trigger] held(v, bits, s, k, m)
        < limit(bits) by {
        home_inverts(k, s, per_byte(bits), m, n);
        assert(v[slot(k, s, per_byte(bits), m)] < limit(bits));
    }
    if bits == 4 {
        byte_of_2(held(v, bits, s, k, 0), held(v, bits, s, k, 1));
    } else if bits == 2 {
        byte_of_4(
            held(v, bits, s, k, 0),
            held(v, bits, s, k, 1),
            held(v, bits, s, k, 2),
            held(v, bits, s, k, 3),
        );
    } else {
        byte_of_8(
            held(v, bits, s, k, 0),
            held(v, bits, s, k, 1),
            held(v, bits, s, k, 2),
            held(v, bits, s, k, 3),
            held(v, bits, s, k, 4),
            held(v, bits, s, k, 5),
            held(v, bits, s, k, 6),
            held(v, bits, s, k, 7),
        );
    }
}

proof fn byte_of_2(a: int, b: int)
    requires
        0 <= a < 16,
        0 <= b < 16,
    ensures
        0 <= a + 16 * b <= 255,
        field(a + 16 * b, 4, 0) == a,
        field(a + 16 * b, 4, 1) == b,
{
}

proof fn byte_of_4(a: int, b: int, c: int, d: int)
    requires
        0 <= a < 4,
        0 <= b < 4,
        0 <= c < 4,
        0 <= d < 4,
    ensures
        0 <= a + 4 * b + 16 * c + 64 * d <= 255,
        field(a + 4 * b + 16 * c + 64 * d, 2, 0) == a,
        field(a + 4 * b + 16 * c + 64 * d, 2, 1) == b,
        field(a + 4 * b + 16 * c + 64 * d, 2, 2) == c,
        field(a + 4 * b + 16 * c + 64 * d, 2, 3) == d,
{
}

proof fn byte_of_8(a: int, b: int, c: int, d: int, e: int, f: int, g: int, h: int)
    requires
        0 <= a < 2,
        0 <= b < 2,
        0 <= c < 2,
        0 <= d < 2,
        0 <= e < 2,
        0 <= f < 2,
        0 <= g < 2,
        0 <= h < 2,
    ensures
        ({
            let x = a + 2 * b + 4 * c + 8 * d + 16 * e + 32 * f + 64 * g + 128 * h;
            &&& 0 <= x <= 255
            &&& field(x, 1, 0) == a
            &&& field(x, 1, 1) == b
            &&& field(x, 1, 2) == c
            &&& field(x, 1, 3) == d
            &&& field(x, 1, 4) == e
            &&& field(x, 1, 5) == f
            &&& field(x, 1, 6) == g
            &&& field(x, 1, 7) == h
        }),
{
    let x6 = g + 2 * h;
    let x5 = f + 2 * x6;
    let x4 = e + 2 * x5;
    let x3 = d + 2 * x4;
    let x2 = c + 2 * x3;
    let x1 = b + 2 * x2;
    let x0 = a + 2 * x1;
    halves(x0);
    half_of(x1, a);
    half_of(x2, b);
    half_of(x3, c);
    half_of(x4, d);
    half_of(x5, e);
    half_of(x6, f);
    half_of(h, g);
}

proof fn half_of(y: int, a: int)
    requires
        0 <= a < 2,
    ensures
        (a + 2 * y) / 2 == y,
        (a + 2 * y) % 2 == a,
{
}

proof fn halves(x: int)
    requires
        0 <= x,
    ensures
        x / 4 == x / 2 / 2,
        x / 8 == x / 4 / 2,
        x / 16 == x / 8 / 2,
        x / 32 == x / 16 / 2,
        x / 64 == x / 32 / 2,
        x / 128 == x / 64 / 2,
{
    lemma_div_denominator(x, 2, 2);
    lemma_div_denominator(x, 4, 2);
    lemma_div_denominator(x, 8, 2);
    lemma_div_denominator(x, 16, 2);
    lemma_div_denominator(x, 32, 2);
    lemma_div_denominator(x, 64, 2);
}

proof fn fields_make_byte(b: int)
    requires
        0 <= b <= 255,
    ensures
        field(b, 4, 0) + 16 * field(b, 4, 1) == b,
        field(b, 2, 0) + 4 * field(b, 2, 1) + 16 * field(b, 2, 2) + 64 * field(b, 2, 3) == b,
        field(b, 1, 0) + 2 * field(b, 1, 1) + 4 * field(b, 1, 2) + 8 * field(b, 1, 3) + 16 * field(
            b,
            1,
            4,
        ) + 32 * field(b, 1, 5) + 64 * field(b, 1, 6) + 128 * field(b, 1, 7) == b,
{
    halves(b);
    assert(b / 16 == b / 4 / 4) by {
        lemma_div_denominator(b, 4, 4);
    }
    assert(b / 64 == b / 16 / 4) by {
        lemma_div_denominator(b, 16, 4);
    }
    lemma_fundamental_div_mod(b, 4);
    lemma_fundamental_div_mod(b / 4, 4);
    lemma_fundamental_div_mod(b / 16, 4);
    lemma_fundamental_div_mod(b, 2);
    lemma_fundamental_div_mod(b / 2, 2);
    lemma_fundamental_div_mod(b / 4, 2);
    lemma_fundamental_div_mod(b / 8, 2);
    lemma_fundamental_div_mod(b / 16, 2);
    lemma_fundamental_div_mod(b / 32, 2);
    lemma_fundamental_div_mod(b / 64, 2);
}

/// Packing the values of a plane gives the plane back.
pub proof fn plane_of_values(b: Seq<u8>, bits: int, s: int, n: int)
    requires
        plane_bits(bits),
        s > 0,
        b.len() == n * s,
    ensures
        values(b, bits, s).len() == n * (s * per_byte(bits)),
        below(values(b, bits, s), limit(bits)),
        plane(values(b, bits, s), bits, s) == b,
{
    reveal(plane);
    reveal(values);
    let f = per_byte(bits);
    let v = values(b, bits, s);
    assert(n * (s * f) == (n * s) * f) by (nonlinear_arith);
    lemma_mul_is_commutative(n * s, f);
    lemma_div_multiples_vanish(n * s, f);
    assert forall|i: int| 0 <= i < v.len() implies (#[trigger] v[i]) < limit(bits) by {
        slot_inverts(i, s, f, n);
    }
    let p = plane(v, bits, s);
    assert forall|k: int| 0 <= k < b.len() implies (#[trigger] p[k]) == b[k] by {
        assert forall|m: int| 0 <= m < f implies #[trigger] held(v, bits, s, k, m) == field(
            b[k] as int,
            bits,
            m,
        ) by {
            home_inverts(k, s, f, m, n);
            let i = slot(k, s, f, m);
            assert(v[i] == field(b[home(i, s, f)] as int, bits, place(i, s, f)) as u8);
        }
        fields_make_byte(b[k] as int);
    }
    assert(p =~= b);
}

/// Appends the plane of `v`.
pub fn push_plane(out: &mut Vec<u8>, v: &[u8], bits: usize, s: usize)
    requires
        plane_bits(bits as int),
        0 < s <= 256,
        v@.len() as int % (s * per_byte(bits as int)) == 0,
        below(v@, limit(bits as int)),
    ensures
        final(out)@ == old(out)@ + plane(v@, bits as int, s as int),
{
    proof {
        reveal(plane);
        reveal(values);
    }
    let ghost p = plane(v@, bits as int, s as int);
    let ghost start = out@;
    let ghost f = per_byte(bits as int);
    let ghost n: int = 0;
    proof {
        n = v@.len() as int / (s * f);
        assert(s * f > 0) by (nonlinear_arith)
            requires
                s > 0,
                f > 0,
        ;
        lemma_fundamental_div_mod(v@.len() as int, s * f);
        lemma_mul_is_commutative(n, s * f);
        values_of_plane(v@, bits as int, s as int, n);
    }
    let per: usize = if bits == 4 {
        2
    } else if bits == 2 {
        4
    } else {
        8
    };
    let count: usize = v.len() / per;
    let mut k: usize = 0;
    while k < count
        invariant
            plane_bits(bits as int),
            0 < s <= 256,
            f == per_byte(bits as int),
            per == f,
            p == plane(v@, bits as int, s as int),
            v@.len() == n * (s * f),
            p.len() == n * s,
            count == p.len(),
            below(v@, limit(bits as int)),
            v@.len() <= usize::MAX,
            k <= count,
            out@ == start + p.subrange(0, k as int),
        decreases count - k,
    {
        proof {
            home_inverts(k as int, s as int, f, 0, n);
            assert(0 < s * f <= 2048) by (nonlinear_arith)
                requires
                    0 < s <= 256,
                    0 < f <= 8,
            ;
            let g = k as int / s as int;
            assert(0 <= g * (s * f)) by (nonlinear_arith)
                requires
                    g >= 0,
                    s * f > 0,
            ;
        }
        let base: usize = (k / s) * (s * per) + k % s;
        proof {
            plane_byte_fields(v@, bits as int, s as int, k as int, n);
            assert forall|m: int| 0 <= m < f implies 0 <= base + m * s < v@.len() && v@[base + m
                * s] == #[trigger] held(v@, bits as int, s as int, k as int, m) by {
                home_inverts(k as int, s as int, f, m, n);
            }
        }
        let b: u8 = if bits == 4 {
            v[base] + 16 * v[base + s]
        } else if bits == 2 {
            v[base] + 4 * v[base + s] + 16 * v[base + 2 * s] + 64 * v[base + 3 * s]
        } else {
            v[base] + 2 * v[base + s] + 4 * v[base + 2 * s] + 8 * v[base + 3 * s] + 16 * v[base + 4
                * s] + 32 * v[base + 5 * s] + 64 * v[base + 6 * s] + 128 * v[base + 7 * s]
        };
        assert(b == p[k as int]) by {
            reveal(plane);
        }
        out.push(b);
        assert(p.subrange(0, k + 1) =~= p.subrange(0, k as int).push(b));
        k += 1;
    }
    assert(p.subrange(0, count as int) =~= p);
}

fn field_of(b: u8, bits: usize, m: usize) -> (r: u8)
    requires
        plane_bits(bits as int),
        m < per_byte(bits as int),
    ensures
        r == field(b as int, bits as int, m as int),
{
    if bits == 4 {
        if m == 0 {
            b % 16
        } else {
            b / 16
        }
    } else if bits == 2 {
        match m {
            0 => b % 4,
            1 => b / 4 % 4,
            2 => b / 16 % 4,
            _ => b / 64,
        }
    } else {
        match m {
            0 => b % 2,
            1 => b / 2 % 2,
            2 => b / 4 % 2,
            3 => b / 8 % 2,
            4 => b / 16 % 2,
            5 => b / 32 % 2,
            6 => b / 64 % 2,
            _ => b / 128,
        }
    }
}

/// The values of the plane that stands in `b` from `from` to `to`.
pub fn read_plane(b: &[u8], from: usize, to: usize, bits: usize, s: usize) -> (r: Vec<u8>)
    requires
        plane_bits(bits as int),
        0 < s <= 256,
        from <= to <= b@.len(),
        to - from <= 4096,
        (to - from) % (s as int) == 0,
    ensures
        r@ == values(b@.subrange(from as int, to as int), bits as int, s as int),
        below(r@, limit(bits as int)),
{
    proof {
        reveal(plane);
        reveal(values);
    }
    let ghost sub = b@.subrange(from as int, to as int);
    let ghost f = per_byte(bits as int);
    let ghost n: int = 0;
    let ghost all = values(sub, bits as int, s as int);
    proof {
        n = (to - from) / (s as int);
        lemma_fundamental_div_mod(to - from, s as int);
        lemma_mul_is_commutative(n, s as int);
        plane_of_values(sub, bits as int, s as int, n);
    }
    let per: usize = if bits == 4 {
        2
    } else if bits == 2 {
        4
    } else {
        8
    };
    let total: usize = (to - from) * per;
    let mut r: Vec<u8> = Vec::new();
    let mut i: usize = 0;
    while i < total
        invariant
            plane_bits(bits as int),
            0 < s <= 256,
            f == per_byte(bits as int),
            per == f,
            from <= to <= b@.len(),
            sub == b@.subrange(from as int, to as int),
            to - from == n * s,
            all == values(sub, bits as int, s as int),
            total == all.len(),
            total == n * (s * f),
            total <= 32768,
            i <= total,
            r@ == all.subrange(0, i as int),
        decreases total - i,
    {
        proof {
            slot_inverts(i as int, s as int, f, n);
            assert(0 < s * f <= 2048) by (nonlinear_arith)
                requires
                    0 < s <= 256,
                    0 < f <= 8,
            ;
        }
        let q: usize = s * per;
        let rest: usize = i % q;
        assert(home(i as int, s as int, f) < n * s);
        assert(rest as int % s as int >= 0);
        assert(i as int / q as int * s >= 0) by (nonlinear_arith)
            requires
                i >= 0,
                q > 0,
                s > 0,
        ;
        let k: usize = (i / q) * s + rest % s;
        let v = field_of(b[from + k], bits, rest / s);
        assert(sub[k as int] == b@[from + k]);
        assert(v == all[i as int]) by {
            reveal(values);
        }
        r.push(v);
        assert(all.subrange(0, i + 1) =~= all.subrange(0, i as int).push(v));
        i += 1;
    }
    assert(all.subrange(0, total as int) =~= all);
    r
}

/// A plane holds value `g * f * s + m * s + j`, where a byte holds `f` values of
/// `bits` bits, in the `m`th field from below of byte `g * s + j`.
pub proof fn values_lie_in_fields(v: Seq<u8>, bits: nat, s: int, n: int, g: int, m: nat, j: int)
    requires
        bits == 1 || bits == 2 || bits == 4,
        s > 0,
        bits == 1 ==> v.len() == n * (s * 8),
        bits == 2 ==> v.len() == n * (s * 4),
        bits == 4 ==> v.len() == n * (s * 2),
        forall|i: int| 0 <= i < v.len() ==> (#[trigger] v[i]) < pow2(bits),
        0 <= g < n,
        0 <= j < s,
        bits * m < 8,
    ensures
        plane(v, bits as int, s).len() == n * s,
        0 <= g * s + j < n * s,
        bits == 1 ==> plane(v, 1, s)[g * s + j] as int / pow2(m) as int % 2 == v[g * (s * 8) + m * s
            + j],
        bits == 2 ==> plane(v, 2, s)[g * s + j] as int / pow2(2 * m) as int % 4 == v[g * (s * 4) + m
            * s + j],
        bits == 4 ==> plane(v, 4, s)[g * s + j] as int / pow2(4 * m) as int % 16 == v[g * (s * 2)
            + m * s + j],
{
    let w = bits as int;
    let f = per_byte(w);
    let k = g * s + j;
    lemma2_to64();
    assert(below(v, limit(w)));
    values_of_plane(v, w, s, n);
    assert(0 <= k < n * s) by (nonlinear_arith)
        requires
            0 <= g < n,
            0 <= j < s,
            k == g * s + j,
    ;
    lemma_mul_is_commutative(g, s);
    lemma_fundamental_div_mod_converse(k, s, g, j);
    plane_byte_fields(v, w, s, k, n);
    reveal(plane);
    let b = plane(v, w, s)[k] as int;
    assert(b == plane_byte(v, w, s, k));
    assert(m < f);
    assert(held(v, w, s, k, m as int) == v[slot(k, s, f, m as int)]);
    assert(field(b, w, m as int) == held(v, w, s, k, m as int));
    assert(slot(k, s, f, m as int) == g * (s * f) + (m * s + j));
    assert(field(b, w, m as int) == b / pow2((bits * m) as nat) as int % limit(w)) by {
        if bits == 1 {
            assert(bits * m == m);
            assert(m == 0 || m == 1 || m == 2 || m == 3 || m == 4 || m == 5 || m == 6 || m == 7);
        } else if bits == 2 {
            assert(bits * m == 2 * m);
            assert(m == 0 || m == 1 || m == 2 || m == 3);
        } else {
            assert(bits * m == 4 * m);
            assert(m == 0 || m == 1);
        }
    }
    if bits == 1 {
        assert(bits * m == m);
    }
}

} // verus!
