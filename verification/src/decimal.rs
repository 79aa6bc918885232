//! Decimal numbers of any length, as text.

use vstd::prelude::*;
use vstd::slice::*;

use crate::text::{is_digit, spelled};

verus! {

/// A power of ten.
pub open spec fn pow10(n: nat) -> nat
    decreases n,
{
    if n == 0 {
        1
    } else {
        10 * pow10((n - 1) as nat)
    }
}

/// Where the first point at or after `i` stands; the length, if there is none.
pub open spec fn point_at(s: Seq<char>, i: int) -> int
    decreases s.len() - i,
{
    if i >= s.len() {
        s.len() as int
    } else if s[i] == '.' {
        i
    } else {
        point_at(s, i + 1)
    }
}

/// The characters of a number: digits and points.
pub open spec fn number_chars(s: Seq<char>) -> bool {
    forall|i: int| 0 <= i < s.len() ==> is_digit(#[trigger] s[i]) || s[i] == '.'
}

/// Digits, with at most one point among them.
pub open spec fn is_decimal(s: Seq<char>) -> bool {
    number_chars(s) && point_at(s, point_at(s, 0) + 1) >= s.len()
}

/// The digits of a decimal number, without its point.
pub open spec fn digits(s: Seq<char>) -> Seq<char> {
    let p = point_at(s, 0);
    if p >= s.len() {
        s
    } else {
        s.subrange(0, p) + s.subrange(p + 1, s.len() as int)
    }
}

/// How many digits stand behind the point.
pub open spec fn places(s: Seq<char>) -> nat {
    let p = point_at(s, 0);
    if p >= s.len() {
        0
    } else {
        (s.len() - p - 1) as nat
    }
}

/// The number is `numerator(s)` over the `places(s)`th power of ten.
pub open spec fn numerator(s: Seq<char>) -> nat {
    spelled(digits(s))
}

/// The first number is less than the second.
pub open spec fn below(a: Seq<char>, b: Seq<char>) -> bool {
    numerator(a) * pow10(places(b)) < numerator(b) * pow10(places(a))
}

/// `c` hundred millions of the number are more than `n`.
pub open spec fn outweighs(s: Seq<char>, c: nat, n: nat) -> bool {
    n * pow10(places(s)) < c * numerator(s) * 100_000_000
}

proof fn point_facts(s: Seq<char>, i: int)
    requires
        0 <= i,
    ensures
        point_at(s, i) <= s.len(),
        i <= s.len() ==> i <= point_at(s, i),
        i < s.len() && point_at(s, i) < s.len() ==> s[point_at(s, i)] == '.',
        forall|j: int| i <= j < point_at(s, i) ==> (#[trigger] s[j]) != '.',
    decreases s.len() - i,
{
    if i < s.len() && s[i] != '.' {
        point_facts(s, i + 1);
    }
}

/// The digits of a decimal number are digits.
proof fn digits_are_digits(s: Seq<char>)
    requires
        is_decimal(s),
    ensures
        forall|i: int| 0 <= i < digits(s).len() ==> is_digit(#[trigger] digits(s)[i]),
        places(s) <= digits(s).len(),
{
    let p = point_at(s, 0);
    point_facts(s, 0);
    point_facts(s, p + 1);
    assert forall|i: int| 0 <= i < digits(s).len() implies is_digit(#[trigger] digits(s)[i]) by {
        if i < p {
            assert(digits(s)[i] == s[i]);
        } else {
            assert(digits(s)[i] == s[i + 1]);
        }
    }
}

fn find_point(s: &[char], from: usize) -> (r: usize)
    ensures
        r == point_at(s@, from as int),
{
    if from >= s.len() {
        return s.len();
    }
    let mut i: usize = from;
    while i < s.len() && s[i] != '.'
        invariant
            from <= i <= s@.len(),
            point_at(s@, from as int) == point_at(s@, i as int),
        decreases s@.len() - i,
    {
        i += 1;
    }
    i
}

/// Whether digits and points are a decimal number.
pub fn decimal_text(s: &[char]) -> (r: bool)
    requires
        number_chars(s@),
    ensures
        r == is_decimal(s@),
{
    let p: usize = find_point(s, 0);
    proof {
        point_facts(s@, 0);
    }
    p >= s.len() || find_point(s, p + 1) >= s.len()
}

fn split_digits(s: &[char]) -> (r: (Vec<char>, usize))
    requires
        is_decimal(s@),
    ensures
        r.0@ == digits(s@),
        r.1 == places(s@),
{
    let len: usize = s.len();
    let p: usize = find_point(s, 0);
    proof {
        point_facts(s@, 0);
    }
    let mut d: Vec<char> = Vec::new();
    d.extend_from_slice(slice_subrange(s, 0, p));
    if p >= len {
        assert(d@ =~= s@);
        return (d, 0);
    }
    d.extend_from_slice(slice_subrange(s, p + 1, len));
    assert(d@ =~= digits(s@));
    (d, len - p - 1)
}

/// The digit at `i`; zero beyond both ends.
spec fn digit_at(s: Seq<char>, i: int) -> int {
    if 0 <= i < s.len() {
        s[i] as int - 48
    } else {
        0
    }
}

/// The number that the `n` digits from `at` on spell.
spec fn run(s: Seq<char>, at: int, n: nat) -> int
    decreases n,
{
    if n == 0 {
        0
    } else {
        run(s, at, (n - 1) as nat) * 10 + digit_at(s, at + n - 1)
    }
}

proof fn times_one(n: nat, x: nat)
    requires
        x == 1,
    ensures
        n * x == n,
{
    assert(n * x == n) by (nonlinear_arith)
        requires
            x == 1,
    ;
}

/// Zeros before digits change nothing, and zeros behind them multiply by ten.
proof fn run_is_spelled(s: Seq<char>, z: nat, n: nat)
    requires
        forall|i: int| 0 <= i < s.len() ==> is_digit(#[trigger] s[i]),
    ensures
        n <= z ==> run(s, -z, n) == 0,
        z <= n <= z + s.len() ==> run(s, -z, n) == spelled(s.subrange(0, n - z)),
        z + s.len() <= n ==> run(s, -z, n) == spelled(s) * pow10((n - z - s.len()) as nat),
    decreases n,
{
    assert(s.subrange(0, s.len() as int) =~= s);
    assert(s.subrange(0, 0) =~= seq![]);
    if n > 0 {
        run_is_spelled(s, z, (n - 1) as nat);
        if z < n <= z + s.len() {
            let t = s.subrange(0, n - z);
            assert(t.drop_last() =~= s.subrange(0, n - z - 1));
            assert(is_digit(s[n - z - 1]));
        }
        if z + s.len() < n {
            let m = (n - z - s.len()) as nat;
            let x = pow10((m - 1) as nat);
            let v = spelled(s);
            assert(v * (10 * x) == (v * x) * 10) by (nonlinear_arith);
        }
    }
    if n == z + s.len() {
        times_one(spelled(s), pow10(0));
    }
}

proof fn pow10_adds(a: nat, b: nat)
    ensures
        pow10(a + b) == pow10(a) * pow10(b),
        pow10(a) > 0,
    decreases a,
{
    if a > 0 {
        pow10_adds((a - 1) as nat, b);
        let (x, y) = (pow10((a - 1) as nat), pow10(b));
        assert((10 * x) * y == 10 * (x * y)) by (nonlinear_arith);
    } else {
        assert(1 * pow10(b) == pow10(b));
    }
}

fn digit_in(v: &Vec<char>, before: u128, j: u128) -> (r: u8)
    requires
        forall|i: int| 0 <= i < v@.len() ==> is_digit(#[trigger] v@[i]),
    ensures
        r == digit_at(v@, j - before),
        r < 10,
{
    if j >= before && j - before < v.len() as u128 {
        let i: usize = (j - before) as usize;
        assert(is_digit(v@[i as int]));
        (v[i] as u32 - 48) as u8
    } else {
        0
    }
}

proof fn below_by_runs(na: nat, nb: nat, pa: nat, pb: nat, m: nat)
    requires
        pa <= m,
        pb <= m,
        m == pa || m == pb,
    ensures
        na * pow10(pb) < nb * pow10(pa) <==> na * pow10((m - pa) as nat) < nb * pow10(
            (m - pb) as nat,
        ),
{
    if m == pa {
        let d = (pa - pb) as nat;
        pow10_adds(d, pb);
        pow10_adds(pb, 0);
        let (x, y) = (pow10(d), pow10(pb));
        assert(pow10(0) == 1);
        assert(nb * (x * y) == (nb * x) * y) by (nonlinear_arith);
        let z = nb * x;
        assert(na * y < z * y <==> na < z) by (nonlinear_arith)
            requires
                y > 0,
        ;
        times_one(na, pow10(0));
    } else {
        let d = (pb - pa) as nat;
        pow10_adds(d, pa);
        pow10_adds(pa, 0);
        let (x, y) = (pow10(d), pow10(pa));
        assert(pow10(0) == 1);
        assert(na * (x * y) == (na * x) * y) by (nonlinear_arith);
        let z = na * x;
        assert(z * y < nb * y <==> z < nb) by (nonlinear_arith)
            requires
                y > 0,
        ;
        times_one(nb, pow10(0));
    }
}

/// Whether the first number is less than the second.
pub fn is_below(a: &[char], b: &[char]) -> (r: bool)
    requires
        is_decimal(a@),
        is_decimal(b@),
    ensures
        r == below(a@, b@),
{
    let (x, px) = split_digits(a);
    let (y, py) = split_digits(b);
    proof {
        digits_are_digits(a@);
        digits_are_digits(b@);
    }
    let wx: u128 = (x.len() - px) as u128;
    let wy: u128 = (y.len() - py) as u128;
    let whole: u128 = if wx > wy {
        wx
    } else {
        wy
    };
    let part: u128 = if px > py {
        px as u128
    } else {
        py as u128
    };
    let (zx, zy): (u128, u128) = (whole - wx, whole - wy);
    let n: u128 = whole + part;
    let mut less: bool = false;
    let mut more: bool = false;
    let mut j: u128 = 0;
    while j < n
        invariant
            j <= n,
            forall|i: int| 0 <= i < x@.len() ==> is_digit(#[trigger] x@[i]),
            forall|i: int| 0 <= i < y@.len() ==> is_digit(#[trigger] y@[i]),
            less == (run(x@, -zx, j as nat) < run(y@, -zy, j as nat)),
            more == (run(x@, -zx, j as nat) > run(y@, -zy, j as nat)),
        decreases n - j,
    {
        let dx: u8 = digit_in(&x, zx, j);
        let dy: u8 = digit_in(&y, zy, j);
        if !less && !more {
            less = dx < dy;
            more = dx > dy;
        }
        j = j + 1;
    }
    proof {
        run_is_spelled(x@, zx as nat, n as nat);
        run_is_spelled(y@, zy as nat, n as nat);
        below_by_runs(numerator(a@), numerator(b@), px as nat, py as nat, part as nat);
    }
    less
}

/// A number up to `u64::MAX`, and all larger ones as the next.
spec fn capped(n: int) -> int {
    if n <= u64::MAX {
        n
    } else {
        u64::MAX + 1
    }
}

/// An excess that matters: below `-c` it never turns positive again, and above
/// zero it stays there.
spec fn clamped(d: int, c: int) -> int {
    if d > 0 {
        1
    } else if d < -c {
        -c
    } else {
        d
    }
}

fn clamp(d: i128, c: i128) -> (r: i128)
    requires
        0 <= c <= 1000,
    ensures
        r == clamped(d as int, c as int),
{
    if d > 0 {
        1
    } else if d < -c {
        -c
    } else {
        d
    }
}

/// Whether `c` hundred millions of the number are more than `n`.
pub fn does_outweigh(s: &[char], c: u64, n: u64) -> (r: bool)
    requires
        is_decimal(s@),
        0 < c <= 1000,
    ensures
        r == outweighs(s@, c as nat, n as nat),
{
    let (v, p) = split_digits(s);
    proof {
        digits_are_digits(s@);
    }
    let len: usize = v.len();
    let whole: usize = len - p;
    let mut m: u128 = 0;
    let mut j: u128 = 0;
    while j < whole as u128 + 8
        invariant
            j <= whole + 8,
            forall|i: int| 0 <= i < v@.len() ==> is_digit(#[trigger] v@[i]),
            0 <= run(v@, 0, j as nat),
            m == capped(run(v@, 0, j as nat)),
        decreases whole + 8 - j,
    {
        let d: u8 = digit_in(&v, 0, j);
        let next: u128 = m * 10 + d as u128;
        m = if next <= u64::MAX as u128 {
            next
        } else {
            u64::MAX as u128 + 1
        };
        j = j + 1;
    }
    let (ci, ni): (i128, i128) = (c as i128, n as i128);
    let ghost first = run(v@, 0, j as nat);
    assert(c * m <= 1000 * m) by (nonlinear_arith)
        requires
            c <= 1000,
            m >= 0,
    ;
    let mut d: i128 = clamp(ci * m as i128 - ni, ci);
    proof {
        if first > u64::MAX {
            assert(c * first > n && c * m > n) by (nonlinear_arith)
                requires
                    c >= 1,
                    first > n,
                    m > n,
            ;
        }
        times_one(n as nat, pow10(0));
    }
    while j < len as u128
        invariant
            whole + 8 <= j,
            j <= len || j == whole + 8,
            forall|i: int| 0 <= i < v@.len() ==> is_digit(#[trigger] v@[i]),
            0 < c <= 1000,
            ci == c,
            d == clamped(
                c * run(v@, 0, j as nat) - n * pow10((j - whole - 8) as nat),
                c as int,
            ),
        decreases len - j,
    {
        let x: u8 = digit_in(&v, 0, j);
        proof {
            let (a, b) = (run(v@, 0, j as nat), pow10((j - whole - 8) as nat));
            let e = c * a - n * b;
            assert(c * (a * 10 + x) == 10 * (c * a) + c * x) by (nonlinear_arith);
            assert(n * (10 * b) == 10 * (n * b)) by (nonlinear_arith);
            assert(0 <= c * x <= 9 * c) by (nonlinear_arith)
                requires
                    0 <= x <= 9,
                    c >= 0,
            ;
            assert(c * x <= 9000);
        }
        d = clamp(10 * d + ci * x as i128, ci);
        j = j + 1;
    }
    proof {
        let (num, pl) = (numerator(s@), p as nat);
        run_is_spelled(v@, 0, j as nat);
        let at = (j - whole - 8) as nat;
        let r = run(v@, 0, j as nat);
        if p >= 8 {
            assert(j == len);
            pow10_adds(at, 8);
            let (x, y) = (pow10(at), 100_000_000nat);
            assert(pow10(8) == y) by {
                reveal_with_fuel(pow10, 9);
            }
            assert(pow10(0) == 1);
            times_one(num, pow10(0));
            assert(n * (x * y) == (n * x) * y) by (nonlinear_arith);
        } else {
            let k = (8 - p) as nat;
            assert(at == 0);
            pow10_adds(k, pl);
            pow10_adds(pl, 0);
            let (x, y) = (pow10(k), pow10(pl));
            assert(x * y == 100_000_000) by {
                reveal_with_fuel(pow10, 9);
            }
            assert(c * num * (x * y) == (c * (num * x)) * y) by (nonlinear_arith);
            let z = c * (num * x);
            assert(n * y < z * y <==> n < z) by (nonlinear_arith)
                requires
                    y > 0,
            ;
        }
    }
    d > 0
}

/// Being less carries over to numbers that are no less.
pub proof fn below_carries_over(a: Seq<char>, b: Seq<char>, c: Seq<char>)
    requires
        !below(b, a),
        below(b, c) || !below(c, b),
    ensures
        !below(c, a),
{
    let (na, nb, nc) = (numerator(a), numerator(b), numerator(c));
    let (x, y, z) = (pow10(places(a)), pow10(places(b)), pow10(places(c)));
    pow10_adds(places(a), 0);
    pow10_adds(places(b), 0);
    pow10_adds(places(c), 0);
    assert(nc * x >= na * z) by (nonlinear_arith)
        requires
            nb * x >= na * y,
            nc * y >= nb * z,
            x > 0,
            y > 0,
            z > 0,
    {
        assert((nb * x) * z >= (na * y) * z);
        assert((nc * y) * x >= (nb * z) * x);
        assert((nb * x) * z == (nb * z) * x);
        assert((nc * x) * y == (nc * y) * x);
        assert((na * z) * y == (na * y) * z);
    }
}

proof fn no_point_is_found(s: Seq<char>, i: int)
    requires
        0 <= i <= s.len(),
        forall|j: int| i <= j < s.len() ==> #[trigger] s[j] != '.',
    ensures
        point_at(s, i) == s.len(),
    decreases s.len() - i,
{
    if i < s.len() {
        no_point_is_found(s, i + 1);
    }
}

proof fn a_point_is_found(s: Seq<char>, i: int, k: int)
    requires
        0 <= i <= k < s.len(),
        forall|j: int| i <= j < k ==> #[trigger] s[j] != '.',
        s[k] == '.',
    ensures
        point_at(s, i) == k,
    decreases k - i,
{
    if i < k {
        a_point_is_found(s, i + 1, k);
    }
}

/// Digits with a point among them are the number that all the digits spell, divided
/// by ten for each digit behind the point.
pub proof fn decimals_are_fractions(a: Seq<char>, b: Seq<char>)
    requires
        forall|i: int| 0 <= i < a.len() ==> 48 <= (#[trigger] a[i]) as int <= 57,
        forall|i: int| 0 <= i < b.len() ==> 48 <= (#[trigger] b[i]) as int <= 57,
    ensures
        is_decimal(a),
        numerator(a) == spelled(a),
        places(a) == 0,
        is_decimal(a + seq!['.'] + b),
        numerator(a + seq!['.'] + b) == spelled(a + b),
        places(a + seq!['.'] + b) == b.len(),
        !is_decimal(a + seq!['.'] + b + seq!['.']),
{
    no_point_is_found(a, 0);
    let s = a + seq!['.'] + b;
    let k = a.len() as int;
    assert forall|j: int| 0 <= j < s.len() && j != k implies #[trigger] s[j] != '.' && is_digit(
        s[j],
    ) by {
        if j < k {
            assert(s[j] == a[j]);
        } else {
            assert(s[j] == b[j - k - 1]);
        }
    }
    a_point_is_found(s, 0, k);
    no_point_is_found(s, k + 1);
    assert(s.subrange(0, k) =~= a);
    assert(s.subrange(k + 1, s.len() as int) =~= b);
    let t = s + seq!['.'];
    assert forall|j: int| 0 <= j < s.len() implies #[trigger] t[j] == s[j] by {}
    a_point_is_found(t, 0, k);
    a_point_is_found(t, k + 1, s.len() as int);
}

/// The powers of ten.
pub proof fn powers_of_ten(n: nat)
    ensures
        pow10(n) == vstd::arithmetic::power::pow(10, n),
    decreases n,
{
    reveal(vstd::arithmetic::power::pow);
    if n > 0 {
        powers_of_ten((n - 1) as nat);
    }
}

/// A number outweighs a count where so many hundred millions of it are more.
pub proof fn outweighing_by_hundred_millions(a: Seq<char>, b: Seq<char>, c: nat, n: nat)
    requires
        forall|i: int| 0 <= i < a.len() ==> 48 <= (#[trigger] a[i]) as int <= 57,
        forall|i: int| 0 <= i < b.len() ==> 48 <= (#[trigger] b[i]) as int <= 57,
    ensures
        outweighs(a, c, n) <==> n < c * spelled(a) * vstd::arithmetic::power::pow(10, 8),
        outweighs(a + seq!['.'] + b, c, n) <==> n * vstd::arithmetic::power::pow(10, b.len()) < c
            * spelled(a + b) * vstd::arithmetic::power::pow(10, 8),
{
    decimals_are_fractions(a, b);
    powers_of_ten(b.len());
    powers_of_ten(8);
    reveal_with_fuel(pow10, 9);
}

} // verus!
