//! Sign bytes of groups of eight elements, and the even-parity codes that
//! store seven of the eight signs.

use vstd::arithmetic::power2::*;
use vstd::prelude::*;

verus! {

/// The weight of bit `i`.
pub open spec fn bit(i: int) -> int {
    if i == 0 {
        1
    } else if i == 1 {
        2
    } else if i == 2 {
        4
    } else if i == 3 {
        8
    } else if i == 4 {
        16
    } else if i == 5 {
        32
    } else if i == 6 {
        64
    } else {
        128
    }
}

/// Bit `i` of a byte is set.
pub open spec fn bit_set(b: int, i: int) -> bool {
    b / bit(i) % 2 == 1
}

/// How many of the lowest `n` bits are set.
pub open spec fn ones(b: int, n: int) -> int
    decreases n,
{
    if n <= 0 {
        0
    } else {
        ones(b, n - 1) + (if bit_set(b, n - 1) {
            1int
        } else {
            0int
        })
    }
}

/// The byte of the first `n` signs, where a set bit means negative.
pub open spec fn sign_bits(neg: Seq<bool>, n: int) -> int
    decreases n,
{
    if n <= 0 {
        0
    } else {
        sign_bits(neg, n - 1) + (if neg[n - 1] {
            bit(n - 1)
        } else {
            0
        })
    }
}

/// How many of the first `n` signs are negative.
pub open spec fn negatives(neg: Seq<bool>, n: int) -> int
    decreases n,
{
    if n <= 0 {
        0
    } else {
        negatives(neg, n - 1) + (if neg[n - 1] {
            1int
        } else {
            0int
        })
    }
}

/// The signs with an even number of negatives: the sign at `least` is changed if
/// their number is odd.
pub open spec fn evened(neg: Seq<bool>, least: int) -> Seq<bool> {
    if negatives(neg, 8) % 2 != 0 {
        neg.update(least, !neg[least])
    } else {
        neg
    }
}

/// The eight signs that a 7-bit code stands for: the eighth makes the number of
/// negatives even.
pub open spec fn full_signs(code: int) -> int {
    code + 128 * (ones(code, 7) % 2)
}

proof fn negatives_after(neg: Seq<bool>, i: int, n: int)
    requires
        neg.len() == 8,
        0 <= i < 8,
        n <= 8,
    ensures
        negatives(neg.update(i, !neg[i]), n) == negatives(neg, n) + (if i < n {
            if neg[i] {
                -1int
            } else {
                1int
            }
        } else {
            0int
        }),
    decreases n,
{
    if n > 0 {
        negatives_after(neg, i, n - 1);
    }
}

/// Evened signs have an even number of negatives.
pub proof fn evened_is_even(neg: Seq<bool>, least: int)
    requires
        neg.len() == 8,
        0 <= least < 8,
    ensures
        negatives(evened(neg, least), 8) % 2 == 0,
{
    negatives_after(neg, least, 8);
}

proof fn sign_bits_read(neg: Seq<bool>)
    requires
        neg.len() == 8,
    ensures
        0 <= sign_bits(neg, 8) < 256,
        sign_bits(neg, 8) % 128 == sign_bits(neg, 7),
        sign_bits(neg, 8) / 128 == (if neg[7] {
            1int
        } else {
            0int
        }),
        forall|i: int| 0 <= i < 8 ==> #[trigger] bit_set(sign_bits(neg, 8), i) == neg[i],
        forall|i: int| 0 <= i < 7 ==> #[trigger] bit_set(sign_bits(neg, 7), i) == neg[i],
{
    reveal_with_fuel(sign_bits, 9);
    let n = |i: int| -> int {
        if neg[i] {
            1
        } else {
            0
        }
    };
    let x6 = n(6) + 2 * n(7);
    let x5 = n(5) + 2 * x6;
    let x4 = n(4) + 2 * x5;
    let x3 = n(3) + 2 * x4;
    let x2 = n(2) + 2 * x3;
    let x1 = n(1) + 2 * x2;
    let x0 = n(0) + 2 * x1;
    assert(sign_bits(neg, 8) == x0);
    quotients(x0, x1, x2, x3, x4, x5, x6, n(7), n(0), n(1), n(2), n(3), n(4), n(5), n(6));
    let y6 = n(6);
    let y5 = n(5) + 2 * y6;
    let y4 = n(4) + 2 * y5;
    let y3 = n(3) + 2 * y4;
    let y2 = n(2) + 2 * y3;
    let y1 = n(1) + 2 * y2;
    let y0 = n(0) + 2 * y1;
    assert(sign_bits(neg, 7) == y0);
    quotients(y0, y1, y2, y3, y4, y5, y6, 0, n(0), n(1), n(2), n(3), n(4), n(5), n(6));
}

proof fn quotients(
    x0: int,
    x1: int,
    x2: int,
    x3: int,
    x4: int,
    x5: int,
    x6: int,
    x7: int,
    n0: int,
    n1: int,
    n2: int,
    n3: int,
    n4: int,
    n5: int,
    n6: int,
)
    requires
        0 <= n0 < 2,
        0 <= n1 < 2,
        0 <= n2 < 2,
        0 <= n3 < 2,
        0 <= n4 < 2,
        0 <= n5 < 2,
        0 <= n6 < 2,
        0 <= x7 < 2,
        x6 == n6 + 2 * x7,
        x5 == n5 + 2 * x6,
        x4 == n4 + 2 * x5,
        x3 == n3 + 2 * x4,
        x2 == n2 + 2 * x3,
        x1 == n1 + 2 * x2,
        x0 == n0 + 2 * x1,
    ensures
        x0 / 1 == x0,
        x0 / 2 == x1,
        x0 / 4 == x2,
        x0 / 8 == x3,
        x0 / 16 == x4,
        x0 / 32 == x5,
        x0 / 64 == x6,
        x0 / 128 == x7,
        x0 % 2 == n0,
        x1 % 2 == n1,
        x2 % 2 == n2,
        x3 % 2 == n3,
        x4 % 2 == n4,
        x5 % 2 == n5,
        x6 % 2 == n6,
        x7 % 2 == x7,
{
    vstd::arithmetic::div_mod::lemma_div_denominator(x0, 2, 2);
    vstd::arithmetic::div_mod::lemma_div_denominator(x0, 4, 2);
    vstd::arithmetic::div_mod::lemma_div_denominator(x0, 8, 2);
    vstd::arithmetic::div_mod::lemma_div_denominator(x0, 16, 2);
    vstd::arithmetic::div_mod::lemma_div_denominator(x0, 32, 2);
    vstd::arithmetic::div_mod::lemma_div_denominator(x0, 64, 2);
    assert(x0 / 2 == x1);
    assert(x1 / 2 == x2);
    assert(x2 / 2 == x3);
    assert(x3 / 2 == x4);
    assert(x4 / 2 == x5);
    assert(x5 / 2 == x6);
    assert(x6 / 2 == x7);
}

proof fn ones_of_signs(neg: Seq<bool>, n: int)
    requires
        neg.len() == 8,
        0 <= n <= 7,
    ensures
        ones(sign_bits(neg, 7), n) == negatives(neg, n),
    decreases n,
{
    sign_bits_read(neg);
    if n > 0 {
        ones_of_signs(neg, n - 1);
        assert(bit_set(sign_bits(neg, 7), n - 1) == neg[n - 1]);
    }
}

/// Signs with an even number of negatives are given back by their 7-bit code,
/// which is their byte without its highest bit.
pub proof fn code_gives_back_signs(neg: Seq<bool>)
    requires
        neg.len() == 8,
        negatives(neg, 8) % 2 == 0,
    ensures
        full_signs(sign_bits(neg, 8) % 128) == sign_bits(neg, 8),
        forall|i: int| 0 <= i < 8 ==> #[trigger] bit_set(sign_bits(neg, 8), i) == neg[i],
{
    sign_bits_read(neg);
    ones_of_signs(neg, 7);
}

#[verifier::spinoff_prover]
#[verifier::rlimit(60)]
proof fn bits_of(b: int) -> (neg: Seq<bool>)
    requires
        0 <= b < 256,
    ensures
        neg.len() == 8,
        sign_bits(neg, 8) == b,
        b < 128 ==> !neg[7] && sign_bits(neg, 7) == b,
{
    let neg = Seq::new(8, |i: int| bit_set(b, i));
    let x1 = b / 2;
    let x2 = x1 / 2;
    let x3 = x2 / 2;
    let x4 = x3 / 2;
    let x5 = x4 / 2;
    let x6 = x5 / 2;
    let x7 = x6 / 2;
    let (n0, n1, n2, n3) = (b % 2, x1 % 2, x2 % 2, x3 % 2);
    let (n4, n5, n6) = (x4 % 2, x5 % 2, x6 % 2);
    quotients(b, x1, x2, x3, x4, x5, x6, x7, n0, n1, n2, n3, n4, n5, n6);
    assert(neg[0] == (n0 == 1) && neg[1] == (n1 == 1) && neg[2] == (n2 == 1));
    assert(neg[3] == (n3 == 1) && neg[4] == (n4 == 1) && neg[5] == (n5 == 1));
    assert(neg[6] == (n6 == 1) && neg[7] == (x7 == 1));
    assert(sign_bits(neg, 0) == 0);
    assert(sign_bits(neg, 1) == n0);
    assert(sign_bits(neg, 2) == n0 + 2 * n1);
    assert(sign_bits(neg, 3) == n0 + 2 * n1 + 4 * n2);
    assert(sign_bits(neg, 4) == n0 + 2 * n1 + 4 * n2 + 8 * n3);
    assert(sign_bits(neg, 5) == n0 + 2 * n1 + 4 * n2 + 8 * n3 + 16 * n4);
    assert(sign_bits(neg, 6) == sign_bits(neg, 5) + 32 * n5);
    assert(sign_bits(neg, 7) == sign_bits(neg, 6) + 64 * n6);
    assert(sign_bits(neg, 8) == sign_bits(neg, 7) + 128 * x7);
    neg
}

proof fn inverted_bits(neg: Seq<bool>)
    requires
        neg.len() == 8,
    ensures
        sign_bits(neg.map_values(|b: bool| !b), 8) == 255 - sign_bits(neg, 8),
        sign_bits(neg.map_values(|b: bool| !b), 7) == 127 - sign_bits(neg, 7),
{
    reveal_with_fuel(sign_bits, 9);
}

proof fn inverted_negatives(neg: Seq<bool>, n: int)
    requires
        0 <= n <= neg.len(),
    ensures
        negatives(neg.map_values(|b: bool| !b), n) == n - negatives(neg, n),
    decreases n,
{
    if n > 0 {
        inverted_negatives(neg, n - 1);
    }
}

/// Taking a byte from 255 inverts each of its bits.
pub proof fn inverting_a_byte(b: int, i: int)
    requires
        0 <= b < 256,
        0 <= i < 8,
    ensures
        bit_set(255 - b, i) == !bit_set(b, i),
{
    let neg = bits_of(b);
    let inv = neg.map_values(|b: bool| !b);
    inverted_bits(neg);
    sign_bits_read(neg);
    sign_bits_read(inv);
    assert(bit_set(sign_bits(neg, 8), i) == neg[i]);
    assert(bit_set(sign_bits(inv, 8), i) == inv[i]);
}

/// Taking a 7-bit code from 127 inverts all of the eight signs that it stands
/// for.
pub proof fn inverting_a_code(code: int)
    requires
        0 <= code < 128,
    ensures
        full_signs(127 - code) == 255 - full_signs(code),
{
    let neg = bits_of(code);
    let inv = neg.map_values(|b: bool| !b);
    inverted_bits(neg);
    inverted_negatives(neg, 7);
    ones_of_signs(neg, 7);
    ones_of_signs(inv, 7);
    assert(sign_bits(inv, 7) == 127 - code);
}

/// Whether bit `i` of a byte is set.
pub fn has_bit(b: u8, i: usize) -> (r: bool)
    requires
        i < 8,
    ensures
        r == bit_set(b as int, i as int),
{
    let w: u8 = weight(i);
    b / w % 2 == 1
}

fn weight(i: usize) -> (r: u8)
    requires
        i < 8,
    ensures
        r == bit(i as int),
{
    match i {
        0 => 1,
        1 => 2,
        2 => 4,
        3 => 8,
        4 => 16,
        5 => 32,
        6 => 64,
        _ => 128,
    }
}

/// The byte of eight signs.
pub fn sign_byte(neg: &[bool]) -> (r: u8)
    requires
        neg@.len() == 8,
    ensures
        r == sign_bits(neg@, 8),
{
    proof {
        sign_bits_read(neg@);
        reveal_with_fuel(sign_bits, 9);
    }
    let mut s: u8 = 0;
    for i in 0..8usize
        invariant
            neg@.len() == 8,
            s == sign_bits(neg@, i as int),
            s < bit(i as int) || i == 8,
            i == 0 ==> s == 0,
    {
        if neg[i] {
            s = s + weight(i);
        }
    }
    s
}

/// The 7-bit code of eight signs, and whether the sign at `least` had to be
/// changed to make the number of negatives even.
pub fn signs_with_parity(neg: &[bool], least: usize) -> (r: (u8, bool))
    requires
        neg@.len() == 8,
        least < 8,
    ensures
        r.0 == sign_bits(evened(neg@, least as int), 8) % 128,
        r.0 < 128,
        r.1 == (negatives(neg@, 8) % 2 != 0),
{
    let mut odd: bool = false;
    let mut signs: Vec<bool> = Vec::new();
    for i in 0..8usize
        invariant
            neg@.len() == 8,
            signs@ == neg@.subrange(0, i as int),
            odd == (negatives(neg@, i as int) % 2 != 0),
            negatives(neg@, i as int) >= 0,
    {
        if neg[i] {
            odd = !odd;
        }
        signs.push(neg[i]);
        assert(neg@.subrange(0, i + 1) =~= neg@.subrange(0, i as int).push(neg@[i as int]));
    }
    assert(signs@ =~= neg@);
    if odd {
        let flipped: bool = !signs[least];
        signs.set(least, flipped);
    }
    assert(signs@ =~= evened(neg@, least as int));
    (sign_byte(signs.as_slice()) % 128, odd)
}

/// The eight signs that a 7-bit code stands for.
pub fn expand_signs(code: u8) -> (r: u8)
    requires
        code < 128,
    ensures
        r == full_signs(code as int),
{
    let mut odd: u8 = 0;
    for i in 0..7usize
        invariant
            odd < 2,
            odd as int == ones(code as int, i as int) % 2,
            ones(code as int, i as int) >= 0,
    {
        if has_bit(code, i) {
            odd = 1 - odd;
        }
    }
    code + 128 * odd
}

/// The weights of the bits are the powers of two.
pub proof fn bits_weigh_powers_of_two(b: int, i: nat)
    requires
        0 <= b < 256,
        i < 8,
    ensures
        bit(i as int) == pow2(i),
        bit_set(b, i as int) == (b / pow2(i) as int % 2 == 1),
{
    lemma2_to64();
    assert(i == 0 || i == 1 || i == 2 || i == 3 || i == 4 || i == 5 || i == 6 || i == 7);
}

/// Of the eight signs that a 7-bit code stands for, the first seven are the bits of
/// the code, and an even number are negative.
pub proof fn codes_stand_for_even_signs(code: int)
    requires
        0 <= code < 128,
    ensures
        ({
            let b = full_signs(code);
            &&& 0 <= b < 256
            &&& b % 128 == code
            &&& (b % 2 + b / 2 % 2 + b / 4 % 2 + b / 8 % 2 + b / 16 % 2 + b / 32 % 2 + b / 64 % 2
                + b / 128) % 2 == 0
        }),
{
    let c = code as u8;
    let n = c % 2 + c / 2 % 2 + c / 4 % 2 + c / 8 % 2 + c / 16 % 2 + c / 32 % 2 + c / 64 % 2;
    assert(ones(code, 7) == n) by {
        reveal_with_fuel(ones, 8);
    }
    let q = (n % 2) as u8;
    assert((c + 128 * q) % 2 == c % 2 && (c + 128 * q) / 2 % 2 == c / 2 % 2 && (c + 128 * q) / 4 % 2
        == c / 4 % 2 && (c + 128 * q) / 8 % 2 == c / 8 % 2 && (c + 128 * q) / 16 % 2 == c / 16 % 2
        && (c + 128 * q) / 32 % 2 == c / 32 % 2 && (c + 128 * q) / 64 % 2 == c / 64 % 2 && (c + 128
        * q) / 128 == q && (c + 128 * q) % 128 == c) by (bit_vector)
        requires
            c < 128,
            q < 2,
    ;
    assert(full_signs(code) == c + 128 * q);
}

/// The byte of eight signs has a set bit for every negative one and no other.
pub proof fn set_bits_are_negatives(neg: Seq<bool>, i: nat)
    requires
        neg.len() == 8,
        i < 8,
    ensures
        0 <= sign_bits(neg, 8) < 256,
        (sign_bits(neg, 8) / pow2(i) as int % 2 == 1) == neg[i as int],
{
    sign_bits_read(neg);
    bits_weigh_powers_of_two(sign_bits(neg, 8), i);
    assert(bit_set(sign_bits(neg, 8), i as int) == neg[i as int]);
}

/// Evening signs out changes one sign at most, the given one, and that one exactly
/// where an odd number of them is negative.
pub proof fn evening_changes_one_sign(neg: Seq<bool>, least: int, i: int)
    requires
        neg.len() == 8,
        0 <= least < 8,
        0 <= i < 8,
    ensures
        ({
            let odd = neg[0] != (neg[1] != (neg[2] != (neg[3] != (neg[4] != (neg[5] != (neg[6]
                != neg[7]))))));
            &&& evened(neg, least).len() == 8
            &&& evened(neg, least)[i] == (neg[i] != (odd && i == least))
            &&& odd == (negatives(neg, 8) % 2 != 0)
        }),
{
    reveal_with_fuel(negatives, 9);
}

} // verus!
