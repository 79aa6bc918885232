//! What the operations on texts mean, character by character.

use vstd::arithmetic::power::*;
use vstd::prelude::*;

use crate::sort::{order_is_stable_sort, order_of, text_before};
use crate::text::{
    all_digits, begins, contains_text, decimal, decimal_padded, digit_char, ends, find, find_from,
    find_from_is_first, is_digit, is_space, line_end, line_end_bounds, line_text, lines_from, lower,
    number_of, occurs_at, rfind, rfind_from_is_last, spelled, split_first, split_last, trim_spaces,
    trimmed_end, trimmed_start, without_suffix,
};

verus! {

/// A text stands where its characters stand.
pub proof fn texts_stand_where_their_characters_do(s: Seq<char>, p: Seq<char>, i: int)
    ensures
        occurs_at(s, p, i) <==> 0 <= i && i + p.len() <= s.len() && forall|j: int|
            0 <= j < p.len() ==> #[trigger] p[j] == s[i + j],
{
    if 0 <= i && i + p.len() <= s.len() {
        let t = s.subrange(i, i + p.len());
        if forall|j: int| 0 <= j < p.len() ==> #[trigger] p[j] == s[i + j] {
            assert(t =~= p);
        }
        if t == p {
            assert forall|j: int| 0 <= j < p.len() implies #[trigger] p[j] == s[i + j] by {
                assert(t[j] == s[i + j]);
            }
        }
    }
}

/// A text is found wherever it stands: at the start, at the end and in between; the
/// first place found is no later, and the last no earlier, than any place.
pub proof fn standing_texts_are_found(a: Seq<char>, p: Seq<char>, b: Seq<char>)
    ensures
        begins(p + b, p),
        ends(a + p, p),
        contains_text(a + p + b, p),
        without_suffix(a + p, p) == Some(a),
        find(a + p + b, p) matches Some(k) && k <= a.len(),
        rfind(a + p + b, p) matches Some(k) && k >= a.len(),
        split_first(a + p + b, p) is Some,
        split_last(a + p + b, p) is Some,
{
    let s = a + p + b;
    assert((p + b).subrange(0, p.len() as int) =~= p);
    assert((a + p).subrange(a.len() as int, (a.len() + p.len()) as int) =~= p);
    assert((a + p).subrange(0, a.len() as int) =~= a);
    assert(s.subrange(a.len() as int, (a.len() + p.len()) as int) =~= p);
    assert(occurs_at(s, p, a.len() as int));
    find_from_is_first(s, p, 0);
    rfind_from_is_last(s, p, s.len() - p.len());
}

/// What is found stands there: a text is put together again from its parts.
pub proof fn found_texts_stand(s: Seq<char>, p: Seq<char>)
    ensures
        begins(s, p) ==> s == p + s.subrange(p.len() as int, s.len() as int),
        ends(s, p) ==> s == s.subrange(0, s.len() - p.len()) + p,
        without_suffix(s, p) matches Some(a) ==> s == a + p,
        split_first(s, p) matches Some((a, b)) ==> s == a + p + b && find(s, p) == Some(
            a.len() as int,
        ),
        split_last(s, p) matches Some((a, b)) ==> s == a + p + b && rfind(s, p) == Some(
            a.len() as int,
        ),
        contains_text(s, p) <==> find(s, p) is Some,
        contains_text(s, p) <==> rfind(s, p) is Some,
{
    find_from_is_first(s, p, 0);
    rfind_from_is_last(s, p, s.len() - p.len());
    if begins(s, p) {
        assert(s =~= s.subrange(0, p.len() as int) + s.subrange(p.len() as int, s.len() as int));
    }
    if ends(s, p) {
        assert(s =~= s.subrange(0, s.len() - p.len()) + s.subrange(
            s.len() - p.len(),
            s.len() as int,
        ));
    }
    if let Some(k) = find(s, p) {
        assert(occurs_at(s, p, k));
        assert(s =~= s.subrange(0, k) + s.subrange(k, k + p.len()) + s.subrange(
            k + p.len(),
            s.len() as int,
        ));
    }
    if let Some(k) = rfind(s, p) {
        assert(occurs_at(s, p, k));
        assert(s =~= s.subrange(0, k) + s.subrange(k, k + p.len()) + s.subrange(
            k + p.len(),
            s.len() as int,
        ));
    }
}

/// Digit `k` of a number in decimal, counted from the right, is the number divided by
/// ten to the power `k`, modulo ten; only zero itself starts with a zero.
pub proof fn decimal_digits_weigh_powers_of_ten(n: nat, k: nat)
    requires
        k < decimal(n).len(),
    ensures
        decimal(n)[decimal(n).len() - 1 - k] as int == 48 + n as int / pow(10, k) % 10,
        n > 0 ==> decimal(n)[0] != '0',
        n == 0 ==> decimal(n) == seq!['0'],
    decreases n,
{
    let d = decimal(n);
    if k == 0 {
        lemma_pow0(10);
        assert(n as int / 1 == n);
        if n >= 10 {
            decimal_digits_weigh_powers_of_ten(n / 10, 0);
            assert(d[0] == decimal(n / 10)[0]);
        }
    } else {
        let h = decimal(n / 10);
        decimal_digits_weigh_powers_of_ten(n / 10, (k - 1) as nat);
        reveal(pow);
        let q = pow(10, (k - 1) as nat);
        lemma_pow_positive(10, (k - 1) as nat);
        assert(pow(10, k) == 10 * q);
        vstd::arithmetic::div_mod::lemma_div_denominator(n as int, 10, q);
        assert(d[d.len() - 1 - k] == h[h.len() - 1 - (k - 1)]);
        assert(d[0] == h[0]);
    }
}

/// A number that is filled up has at least the width, zeros first and its decimal
/// digits last.
pub proof fn filled_numbers_keep_their_digits(n: nat, width: nat, i: int)
    requires
        0 <= i < decimal_padded(n, width).len(),
    ensures
        decimal_padded(n, width).len() == (if width > decimal(n).len() {
            width
        } else {
            decimal(n).len()
        }),
        i < decimal_padded(n, width).len() - decimal(n).len() ==> decimal_padded(n, width)[i]
            == '0',
        i >= decimal_padded(n, width).len() - decimal(n).len() ==> decimal_padded(n, width)[i]
            == decimal(n)[i - (decimal_padded(n, width).len() - decimal(n).len())],
{
}

/// The number that digits spell, taken from the left: each digit adds its value to ten
/// times what the digits before it spell.
pub proof fn digits_spell_from_the_left(s: Seq<char>)
    requires
        forall|i: int| 0 <= i < s.len() ==> 48 <= (#[trigger] s[i]) as int <= 57,
    ensures
        all_digits(s),
        spelled(s) == s.fold_left(0int, |n: int, c: char| 10 * n + (c as int - 48)),
    decreases s.len(),
{
    reveal_with_fuel(Seq::fold_left, 2);
    if s.len() > 0 {
        digits_spell_from_the_left(s.drop_last());
    }
}

/// A text is a number if it is digits, which a plus sign may precede, and the number
/// fits in 64 bits.
pub proof fn digits_are_read_as_numbers(s: Seq<char>)
    requires
        s.len() > 0,
        forall|i: int| 0 <= i < s.len() ==> 48 <= (#[trigger] s[i]) as int <= 57,
    ensures
        ({
            let n = s.fold_left(0int, |n: int, c: char| 10 * n + (c as int - 48));
            &&& n <= 0xffff_ffff_ffff_ffff ==> (number_of(s) matches Some(v) && v == n)
            &&& n > 0xffff_ffff_ffff_ffff ==> number_of(s) is None
            &&& number_of(seq!['+'] + s) == number_of(s)
        }),
{
    digits_spell_from_the_left(s);
    let t = seq!['+'] + s;
    assert(t.subrange(1, t.len() as int) =~= s);
}

/// A text with another character than a digit, but for a plus sign in front, is no
/// number, nor is one without digits.
pub proof fn other_texts_are_no_numbers(s: Seq<char>, i: int)
    requires
        s.len() == 0 || (s.len() == 1 && s[0] == '+') || (0 <= i < s.len() && !(48 <= s[i] as int
            <= 57) && !(i == 0 && s[0] == '+')),
    ensures
        number_of(s) is None,
{
    if 0 <= i < s.len() && !(48 <= s[i] as int <= 57) && !(i == 0 && s[0] == '+') {
        let t = s.subrange(1, s.len() as int);
        if s[0] == '+' {
            assert(t[i - 1] == s[i]);
            assert(!is_digit(t[i - 1]));
        } else {
            assert(!is_digit(s[i]));
        }
    }
}

/// The white space characters, by their code points.
pub proof fn white_space_by_code_point(c: char)
    ensures
        is_space(c) <==> seq![
            0x9int,
            0xa,
            0xb,
            0xc,
            0xd,
            0x20,
            0x85,
            0xa0,
            0x1680,
            0x2000,
            0x2001,
            0x2002,
            0x2003,
            0x2004,
            0x2005,
            0x2006,
            0x2007,
            0x2008,
            0x2009,
            0x200a,
            0x2028,
            0x2029,
            0x202f,
            0x205f,
            0x3000,
        ].contains(c as int),
{
    let t = seq![
        0x9int,
        0xa,
        0xb,
        0xc,
        0xd,
        0x20,
        0x85,
        0xa0,
        0x1680,
        0x2000,
        0x2001,
        0x2002,
        0x2003,
        0x2004,
        0x2005,
        0x2006,
        0x2007,
        0x2008,
        0x2009,
        0x200a,
        0x2028,
        0x2029,
        0x202f,
        0x205f,
        0x3000,
    ];
    let n = c as int;
    assert(n <= 13 ==> (n == 9 ==> t[0] == n) && (n == 10 ==> t[1] == n) && (n == 11 ==> t[2] == n)
        && (n == 12 ==> t[3] == n) && (n == 13 ==> t[4] == n));
    assert(n == 32 ==> t[5] == n);
    assert(n == 0x85 ==> t[6] == n);
    assert(n == 0xa0 ==> t[7] == n);
    assert(n == 0x1680 ==> t[8] == n);
    assert(0x2000 <= n <= 0x200a ==> t[n - 0x2000 + 9] == n);
    assert(n == 0x2028 ==> t[20] == n);
    assert(n == 0x2029 ==> t[21] == n);
    assert(n == 0x202f ==> t[22] == n);
    assert(n == 0x205f ==> t[23] == n);
    assert(n == 0x3000 ==> t[24] == n);
}

proof fn start_is_trimmed(a: Seq<char>, m: Seq<char>)
    requires
        forall|i: int| 0 <= i < a.len() ==> is_space(#[trigger] a[i]),
        m.len() > 0 ==> !is_space(m[0]),
    ensures
        trimmed_start(a + m) == m,
    decreases a.len(),
{
    let s = a + m;
    if a.len() > 0 {
        let b = a.subrange(1, a.len() as int);
        assert forall|i: int| 0 <= i < b.len() implies is_space(#[trigger] b[i]) by {
            assert(b[i] == a[i + 1]);
        }
        start_is_trimmed(b, m);
        assert(s[0] == a[0]);
        assert(s.subrange(1, s.len() as int) =~= b + m);
    } else {
        assert(s =~= m);
    }
}

proof fn end_is_trimmed(m: Seq<char>, b: Seq<char>)
    requires
        forall|i: int| 0 <= i < b.len() ==> is_space(#[trigger] b[i]),
        m.len() > 0 ==> !is_space(m.last()),
    ensures
        trimmed_end(m + b) == m,
    decreases b.len(),
{
    let s = m + b;
    if b.len() > 0 {
        let c = b.drop_last();
        assert forall|i: int| 0 <= i < c.len() implies is_space(#[trigger] c[i]) by {
            assert(c[i] == b[i]);
        }
        end_is_trimmed(m, c);
        assert(s.last() == b.last());
        assert(s.drop_last() =~= m + c);
    } else {
        assert(s =~= m);
    }
}

/// White space on both sides of a text is taken off, and nothing more: a text that
/// neither starts nor ends with white space is left as it is.
pub proof fn surrounding_spaces_are_taken_off(a: Seq<char>, m: Seq<char>, b: Seq<char>)
    requires
        forall|i: int| 0 <= i < a.len() ==> is_space(#[trigger] a[i]),
        forall|i: int| 0 <= i < b.len() ==> is_space(#[trigger] b[i]),
        m.len() > 0,
        !is_space(m[0]),
        !is_space(m.last()),
    ensures
        trim_spaces(a + m + b) == m,
        trim_spaces(a + b) == Seq::<char>::empty(),
{
    start_is_trimmed(a, m + b);
    assert((a + m) + b =~= a + (m + b));
    end_is_trimmed(m, b);
    let ab = a + b;
    assert forall|i: int| 0 <= i < ab.len() implies is_space(#[trigger] ab[i]) by {
        if i < a.len() {
            assert(ab[i] == a[i]);
        } else {
            assert(ab[i] == b[i - a.len()]);
        }
    }
    start_is_trimmed(ab, seq![]);
    assert(ab + seq![] =~= ab);
}

/// In lower case the letters A to Z stand 32 code points further; all other characters,
/// and the number of characters, stay.
pub proof fn capital_letters_are_lowered(s: Seq<char>, i: int)
    requires
        0 <= i < s.len(),
    ensures
        lower(s).len() == s.len(),
        65 <= s[i] as int <= 90 ==> lower(s)[i] as int == s[i] as int + 32,
        !(65 <= s[i] as int <= 90) ==> lower(s)[i] == s[i],
{
}

proof fn line_end_behind(a: Seq<char>, r: Seq<char>, i: int)
    requires
        0 <= i <= r.len(),
    ensures
        line_end(a + r, a.len() + i) == a.len() + line_end(r, i),
    decreases r.len() - i,
{
    if i < r.len() && r[i] != '\n' {
        line_end_behind(a, r, i + 1);
        assert((a + r)[a.len() + i] == r[i]);
    } else if i < r.len() {
        assert((a + r)[a.len() + i] == r[i]);
    }
}

proof fn lines_behind(a: Seq<char>, r: Seq<char>, i: int)
    requires
        0 <= i <= r.len(),
    ensures
        lines_from(a + r, a.len() + i) == lines_from(r, i),
    decreases r.len() - i,
{
    if i < r.len() {
        let s = a + r;
        line_end_behind(a, r, i);
        line_end_bounds(r, i);
        let e = line_end(r, i);
        assert(s.subrange(a.len() + i, a.len() + e) =~= r.subrange(i, e));
        if e < r.len() {
            lines_behind(a, r, e + 1);
        }
    }
}

proof fn line_end_in(a: Seq<char>, r: Seq<char>, i: int)
    requires
        0 <= i <= a.len(),
        forall|k: int| 0 <= k < a.len() ==> #[trigger] a[k] != '\n',
        r.len() > 0 ==> r[0] == '\n',
    ensures
        line_end(a + r, i) == a.len(),
    decreases a.len() - i,
{
    let s = a + r;
    if i < a.len() {
        assert(s[i] == a[i]);
        line_end_in(a, r, i + 1);
    } else if r.len() > 0 {
        assert(s[i] == r[0]);
    }
}

/// A text is its first line, up to the first line feed, and the lines behind it. A
/// carriage return before the line feed is no part of the line.
pub proof fn lines_end_with_line_feeds(a: Seq<char>, r: Seq<char>)
    requires
        forall|k: int| 0 <= k < a.len() ==> #[trigger] a[k] != '\n',
    ensures
        lines_from(a + seq!['\n'] + r, 0) == seq![
            if a.len() > 0 && a[a.len() - 1] as int == 13 {
                a.drop_last()
            } else {
                a
            },
        ] + lines_from(r, 0),
        lines_from(a, 0) == (if a.len() > 0 {
            seq![a]
        } else {
            Seq::<Seq<char>>::empty()
        }),
{
    let s = a + seq!['\n'] + r;
    assert(s =~= a + (seq!['\n'] + r));
    line_end_in(a, seq!['\n'] + r, 0);
    assert(s.subrange(0, a.len() as int) =~= a);
    lines_behind(a + seq!['\n'], r, 0);
    line_end_in(a, seq![], 0);
    assert(a + seq![] =~= a);
    assert(a.subrange(0, a.len() as int) =~= a);
}

proof fn before_behind(p: Seq<char>, a: Seq<char>, b: Seq<char>)
    ensures
        text_before(p + a, p + b) == text_before(a, b),
    decreases p.len(),
{
    let (s, t) = (p + a, p + b);
    if p.len() > 0 {
        let q = p.subrange(1, p.len() as int);
        before_behind(q, a, b);
        assert(s.subrange(1, s.len() as int) =~= q + a);
        assert(t.subrange(1, t.len() as int) =~= q + b);
    } else {
        assert(s =~= a);
        assert(t =~= b);
    }
}

/// Texts are ordered by the first character in which they differ; a text comes before
/// its continuations, and not before itself.
pub proof fn the_first_difference_orders(
    p: Seq<char>,
    x: char,
    a: Seq<char>,
    y: char,
    b: Seq<char>,
)
    requires
        x != y,
    ensures
        text_before(p + (seq![x] + a), p + (seq![y] + b)) <==> (x as int) < y as int,
        text_before(p, p + (seq![y] + b)),
        !text_before(p + b, p),
{
    before_behind(p, seq![x] + a, seq![y] + b);
    before_behind(p, seq![], seq![y] + b);
    before_behind(p, b, seq![]);
    assert(p + seq![] =~= p);
}

/// A stable sort: an index that stands before another has the smaller key, or the same
/// key and the smaller index.
pub proof fn sorted_indices_follow_their_keys(keys: Seq<u64>, a: int, b: int)
    requires
        0 <= a < b < keys.len() <= usize::MAX,
    ensures
        ({
            let o = order_of(keys);
            &&& o.len() == keys.len()
            &&& o[a] < keys.len()
            &&& o[b] < keys.len()
            &&& keys[o[a] as int] < keys[o[b] as int] || (keys[o[a] as int] == keys[o[b] as int]
                && o[a] < o[b])
        }),
{
    order_is_stable_sort(keys);
    let o = order_of(keys);
    assert(crate::sort::precedes(keys, o[a] as int, o[b] as int));
}

} // verus!
