//! Character-level string operations with contracts over `Seq<char>`.

use vstd::prelude::*;

verus! {

/// `String::push` appends one character at the end.
pub assume_specification[ String::push ](s: &mut String, c: char)
    ensures
        final(s)@ == old(s)@.push(c),
;

/// `p` stands in `s` at position `i`.
pub open spec fn occurs_at(s: Seq<char>, p: Seq<char>, i: int) -> bool {
    &&& 0 <= i
    &&& i + p.len() <= s.len()
    &&& s.subrange(i, i + p.len()) == p
}

/// `p` stands somewhere in `s`.
pub open spec fn contains_text(s: Seq<char>, p: Seq<char>) -> bool {
    exists|i: int| occurs_at(s, p, i)
}

/// `s` begins with `p`.
pub open spec fn begins(s: Seq<char>, p: Seq<char>) -> bool {
    occurs_at(s, p, 0)
}

/// `s` ends with `p`.
pub open spec fn ends(s: Seq<char>, p: Seq<char>) -> bool {
    occurs_at(s, p, s.len() - p.len())
}

/// The first position at or after `i` where `p` stands in `s`.
pub open spec fn find_from(s: Seq<char>, p: Seq<char>, i: int) -> Option<int>
    decreases s.len() - i + 1,
{
    if i + p.len() > s.len() {
        None
    } else if occurs_at(s, p, i) {
        Some(i)
    } else {
        find_from(s, p, i + 1)
    }
}

/// The first position where `p` stands in `s`.
pub open spec fn find(s: Seq<char>, p: Seq<char>) -> Option<int> {
    find_from(s, p, 0)
}

/// The last position at or before `i` where `p` stands in `s`.
pub open spec fn rfind_from(s: Seq<char>, p: Seq<char>, i: int) -> Option<int>
    decreases i + 1,
{
    if i < 0 {
        None
    } else if occurs_at(s, p, i) {
        Some(i)
    } else {
        rfind_from(s, p, i - 1)
    }
}

/// The last position where `p` stands in `s`.
pub open spec fn rfind(s: Seq<char>, p: Seq<char>) -> Option<int> {
    rfind_from(s, p, s.len() - p.len())
}

/// What stands before and after the first `p` in `s`.
pub open spec fn split_first(s: Seq<char>, p: Seq<char>) -> Option<(Seq<char>, Seq<char>)> {
    match find(s, p) {
        Some(i) => Some((s.subrange(0, i), s.subrange(i + p.len(), s.len() as int))),
        None => None,
    }
}

/// What stands before and after the last `p` in `s`.
pub open spec fn split_last(s: Seq<char>, p: Seq<char>) -> Option<(Seq<char>, Seq<char>)> {
    match rfind(s, p) {
        Some(i) => Some((s.subrange(0, i), s.subrange(i + p.len(), s.len() as int))),
        None => None,
    }
}

/// `find_from` gives the first occurrence, and there is none where it gives none.
pub proof fn find_from_is_first(s: Seq<char>, p: Seq<char>, i: int)
    requires
        0 <= i,
    ensures
        find_from(s, p, i) matches Some(k) ==> i <= k && occurs_at(s, p, k) && forall|j: int|
            i <= j < k ==> !occurs_at(s, p, j),
        find_from(s, p, i) is None ==> forall|j: int| i <= j ==> !occurs_at(s, p, j),
    decreases s.len() - i + 1,
{
    if i + p.len() <= s.len() && !occurs_at(s, p, i) {
        find_from_is_first(s, p, i + 1);
    }
}

/// `rfind_from` gives the last occurrence, and there is none where it gives none.
pub proof fn rfind_from_is_last(s: Seq<char>, p: Seq<char>, i: int)
    ensures
        rfind_from(s, p, i) matches Some(k) ==> 0 <= k <= i && occurs_at(s, p, k) && forall|j: int|
            k < j <= i ==> !occurs_at(s, p, j),
        rfind_from(s, p, i) is None ==> forall|j: int| j <= i ==> !occurs_at(s, p, j),
    decreases i + 1,
{
    if i >= 0 && !occurs_at(s, p, i) {
        rfind_from_is_last(s, p, i - 1);
    }
}

/// The characters of a string, in order.
pub fn chars_of(s: &str) -> (r: Vec<char>)
    ensures
        r@ == s@,
{
    let mut out: Vec<char> = Vec::new();
    for c in it: s.chars()
        invariant
            it.seq() == s@,
            out@ == s@.subrange(0, it.index() as int),
    {
        out.push(c);
    }
    out
}

/// The string made of some characters, in order.
pub fn string_of(chars: &[char]) -> (r: String)
    ensures
        r@ == chars@,
{
    let mut out = String::new();
    for i in 0..chars.len()
        invariant
            out@ == chars@.subrange(0, i as int),
    {
        out.push(chars[i]);
    }
    assert(chars@.subrange(0, chars@.len() as int) == chars@);
    out
}

/// Whether two character runs are equal.
pub fn same(a: &[char], b: &[char]) -> (r: bool)
    ensures
        r == (a@ == b@),
{
    if a.len() != b.len() {
        return false;
    }
    for i in 0..a.len()
        invariant
            a@.len() == b@.len(),
            a@.subrange(0, i as int) == b@.subrange(0, i as int),
    {
        if a[i] != b[i] {
            assert(a@[i as int] != b@[i as int]);
            return false;
        }
        assert(a@.subrange(0, i + 1) == a@.subrange(0, i as int).push(a@[i as int]));
        assert(b@.subrange(0, i + 1) == b@.subrange(0, i as int).push(b@[i as int]));
    }
    assert(a@.subrange(0, a@.len() as int) == a@);
    assert(b@.subrange(0, b@.len() as int) == b@);
    true
}

/// Whether two strings are equal.
pub fn same_str(a: &str, b: &str) -> (r: bool)
    ensures
        r == (a@ == b@),
{
    same(chars_of(a).as_slice(), chars_of(b).as_slice())
}

/// Whether `p` stands in `s` at position `i`.
pub fn matches_at(s: &[char], p: &[char], i: usize) -> (r: bool)
    ensures
        r == occurs_at(s@, p@, i as int),
{
    if p.len() > s.len() || i > s.len() - p.len() {
        return false;
    }
    for k in 0..p.len()
        invariant
            i + p.len() <= s.len(),
            s@.subrange(i as int, i + k) == p@.subrange(0, k as int),
    {
        if s[i + k] != p[k] {
            assert(s@.subrange(i as int, i + p@.len())[k as int] != p@[k as int]);
            return false;
        }
        assert(s@.subrange(i as int, i + k + 1) == s@.subrange(i as int, i + k).push(s@[i + k]));
        assert(p@.subrange(0, k + 1) == p@.subrange(0, k as int).push(p@[k as int]));
    }
    assert(p@.subrange(0, p@.len() as int) == p@);
    true
}

/// Whether `s` begins with `p`.
pub fn starts(s: &[char], p: &[char]) -> (r: bool)
    ensures
        r == begins(s@, p@),
{
    matches_at(s, p, 0)
}

/// Whether `s` ends with `p`.
pub fn finishes(s: &[char], p: &[char]) -> (r: bool)
    ensures
        r == ends(s@, p@),
{
    if p.len() > s.len() {
        return false;
    }
    matches_at(s, p, s.len() - p.len())
}

/// The first position where `p` stands in `s`.
pub fn position(s: &[char], p: &[char]) -> (r: Option<usize>)
    ensures
        r matches Some(i) ==> find(s@, p@) == Some(i as int) && i + p@.len() <= s@.len(),
        r is None ==> find(s@, p@) is None,
{
    if p.len() > s.len() {
        return None;
    }
    let mut i: usize = 0;
    while i <= s.len() - p.len()
        invariant
            p@.len() <= s@.len(),
            0 <= i <= s@.len() - p@.len() + 1,
            find(s@, p@) == find_from(s@, p@, i as int),
        decreases s@.len() - i,
    {
        if matches_at(s, p, i) {
            return Some(i);
        }
        if i == s.len() - p.len() {
            assert(find_from(s@, p@, i + 1) is None);
            return None;
        }
        i = i + 1;
    }
    None
}

/// The last position where `p` stands in `s`.
pub fn last_position(s: &[char], p: &[char]) -> (r: Option<usize>)
    ensures
        r matches Some(i) ==> rfind(s@, p@) == Some(i as int) && i + p@.len() <= s@.len(),
        r is None ==> rfind(s@, p@) is None,
{
    if p.len() > s.len() {
        return None;
    }
    let mut i: usize = s.len() - p.len();
    loop
        invariant
            p@.len() <= s@.len(),
            i <= s@.len() - p@.len(),
            rfind(s@, p@) == rfind_from(s@, p@, i as int),
        decreases i,
    {
        if matches_at(s, p, i) {
            return Some(i);
        }
        if i == 0 {
            assert(rfind_from(s@, p@, -1) is None);
            return None;
        }
        i = i - 1;
    }
}

/// Whether `p` stands somewhere in `s`.
pub fn includes(s: &[char], p: &[char]) -> (r: bool)
    ensures
        r == contains_text(s@, p@),
{
    let r = position(s, p);
    proof {
        find_from_is_first(s@, p@, 0);
    }
    r.is_some()
}

/// The character of a decimal digit.
pub open spec fn digit_char(d: int) -> char {
    (48 + d) as char
}

/// A number in decimal, without leading zeros.
pub open spec fn decimal(n: nat) -> Seq<char>
    decreases n,
{
    if n < 10 {
        seq![digit_char(n as int)]
    } else {
        decimal(n / 10).push(digit_char((n % 10) as int))
    }
}

/// A number in decimal, filled up with zeros from the left to `width` characters.
pub open spec fn decimal_padded(n: nat, width: nat) -> Seq<char> {
    let d = decimal(n);
    if d.len() >= width {
        d
    } else {
        Seq::new((width - d.len()) as nat, |i: int| '0') + d
    }
}

fn digit(d: u8) -> (c: char)
    requires
        d < 10,
    ensures
        c == digit_char(d as int),
{
    (48 + d) as char
}

/// Appends a number in decimal.
pub fn push_decimal(out: &mut String, n: u64)
    ensures
        final(out)@ == old(out)@ + decimal(n as nat),
    decreases n,
{
    if n >= 10 {
        push_decimal(out, n / 10);
    }
    out.push(digit((n % 10) as u8));
    assert(out@ == old(out)@ + decimal(n as nat));
}

/// A number in decimal.
pub fn to_decimal(n: u64) -> (r: String)
    ensures
        r@ == decimal(n as nat),
{
    let mut out = String::new();
    push_decimal(&mut out, n);
    assert(out@ == decimal(n as nat));
    out
}

/// How many characters a number has in decimal.
fn decimal_len(n: u64) -> (r: usize)
    ensures
        r == decimal(n as nat).len(),
        r <= 20,
{
    let mut rest: u64 = n;
    let mut len: usize = 1;
    while rest >= 10
        invariant
            len + decimal(rest as nat).len() == 1 + decimal(n as nat).len(),
            1 <= len <= 20,
            rest <= u64::MAX,
            len == 1 ==> rest <= u64::MAX,
            len == 2 ==> rest <= 1_844_674_407_370_955_161,
            len == 3 ==> rest <= 184_467_440_737_095_516,
            len == 4 ==> rest <= 18_446_744_073_709_551,
            len == 5 ==> rest <= 1_844_674_407_370_955,
            len == 6 ==> rest <= 184_467_440_737_095,
            len == 7 ==> rest <= 18_446_744_073_709,
            len == 8 ==> rest <= 1_844_674_407_370,
            len == 9 ==> rest <= 184_467_440_737,
            len == 10 ==> rest <= 18_446_744_073,
            len == 11 ==> rest <= 1_844_674_407,
            len == 12 ==> rest <= 184_467_440,
            len == 13 ==> rest <= 18_446_744,
            len == 14 ==> rest <= 1_844_674,
            len == 15 ==> rest <= 184_467,
            len == 16 ==> rest <= 18_446,
            len == 17 ==> rest <= 1_844,
            len == 18 ==> rest <= 184,
            len == 19 ==> rest <= 18,
            len == 20 ==> rest <= 1,
        decreases rest,
    {
        rest = rest / 10;
        len += 1;
    }
    len
}

/// Appends a number in decimal, filled up with zeros from the left.
pub fn push_padded(out: &mut String, n: u64, width: usize)
    ensures
        final(out)@ == old(out)@ + decimal_padded(n as nat, width as nat),
{
    let len = decimal_len(n);
    let ghost start = out@;
    let mut at: usize = len;
    while at < width
        invariant
            len <= at,
            at <= width || at == len,
            out@ == start + Seq::new((at - len) as nat, |i: int| '0'),
        decreases width - at,
    {
        out.push('0');
        at += 1;
        assert(out@ =~= start + Seq::new((at - len) as nat, |i: int| '0'));
    }
    push_decimal(out, n);
    assert(out@ =~= start + decimal_padded(n as nat, width as nat));
}

/// Appends text.
pub fn push_text(out: &mut String, s: &str)
    ensures
        final(out)@ == old(out)@ + s@,
{
    out.append(s);
}

/// A character is a decimal digit.
pub open spec fn is_digit(c: char) -> bool {
    '0' <= c <= '9'
}

/// The number that digits spell.
pub open spec fn spelled(s: Seq<char>) -> nat
    decreases s.len(),
{
    if s.len() == 0 {
        0
    } else {
        spelled(s.drop_last()) * 10 + (s.last() as int - 48) as nat
    }
}

/// All characters are decimal digits.
pub open spec fn all_digits(s: Seq<char>) -> bool {
    forall|i: int| 0 <= i < s.len() ==> is_digit(#[trigger] s[i])
}

/// A number in decimal is digits alone, and spells the number.
pub proof fn decimal_is_spelled(n: nat)
    ensures
        all_digits(decimal(n)),
        spelled(decimal(n)) == n,
        n < 10 ==> decimal(n).len() == 1,
        n < 100 ==> decimal(n).len() <= 2,
        n < 1000 ==> decimal(n).len() <= 3,
        n < 10_000 ==> decimal(n).len() <= 4,
        n < 100_000 ==> decimal(n).len() <= 5,
    decreases n,
{
    let s = decimal(n);
    if n < 10 {
        assert(s.drop_last() =~= seq![]);
        assert(spelled(seq![]) == 0);
    } else {
        decimal_is_spelled(n / 10);
        assert(s.drop_last() =~= decimal(n / 10));
        assert forall|i: int| 0 <= i < s.len() implies is_digit(#[trigger] s[i]) by {
            if i < s.len() - 1 {
                assert(s[i] == decimal(n / 10)[i]);
            }
        }
    }
}

/// The part of `s` before a trailing `p`, if there is one.
pub open spec fn without_suffix(s: Seq<char>, p: Seq<char>) -> Option<Seq<char>> {
    if ends(s, p) {
        Some(s.subrange(0, s.len() - p.len()))
    } else {
        None
    }
}

/// A character is white space.
pub open spec fn is_space(c: char) -> bool {
    let n = c as u32;
    (9 <= n <= 13) || n == 32 || n == 0x85 || n == 0xa0 || n == 0x1680 || (0x2000 <= n <= 0x200a)
        || n == 0x2028 || n == 0x2029 || n == 0x202f || n == 0x205f || n == 0x3000
}

/// A text from its first character that is no white space on.
pub open spec fn trimmed_start(s: Seq<char>) -> Seq<char>
    decreases s.len(),
{
    if s.len() > 0 && is_space(s[0]) {
        trimmed_start(s.subrange(1, s.len() as int))
    } else {
        s
    }
}

/// A text up to its last character that is no white space.
pub open spec fn trimmed_end(s: Seq<char>) -> Seq<char>
    decreases s.len(),
{
    if s.len() > 0 && is_space(s.last()) {
        trimmed_end(s.drop_last())
    } else {
        s
    }
}

/// A text without the white space around it.
pub open spec fn trim_spaces(s: Seq<char>) -> Seq<char> {
    trimmed_end(trimmed_start(s))
}

/// Whether a character is white space.
pub fn space(c: char) -> (r: bool)
    ensures
        r == is_space(c),
{
    let n: u32 = c as u32;
    (9 <= n && n <= 13) || n == 32 || n == 0x85 || n == 0xa0 || n == 0x1680 || (0x2000 <= n && n
        <= 0x200a) || n == 0x2028 || n == 0x2029 || n == 0x202f || n == 0x205f || n == 0x3000
}

/// A text without the white space around it.
pub fn trim(s: &[char]) -> (r: &[char])
    ensures
        r@ == trim_spaces(s@),
{
    let mut from: usize = 0;
    let len: usize = s.len();
    assert(s@.subrange(0, len as int) =~= s@);
    while from < len && space(s[from])
        invariant
            len == s@.len(),
            from <= len,
            trimmed_start(s@) == trimmed_start(s@.subrange(from as int, len as int)),
        ensures
            from <= len,
            trimmed_start(s@) == s@.subrange(from as int, len as int),
        decreases len - from,
    {
        let ghost part = s@.subrange(from as int, len as int);
        assert(part.subrange(1, part.len() as int) =~= s@.subrange(from + 1, len as int));
        from += 1;
    }
    let mut to: usize = len;
    while to > from && space(s[to - 1])
        invariant
            len == s@.len(),
            from <= to <= len,
            trim_spaces(s@) == trimmed_end(s@.subrange(from as int, to as int)),
        ensures
            from <= to <= len,
            trim_spaces(s@) == s@.subrange(from as int, to as int),
        decreases to - from,
    {
        let ghost part = s@.subrange(from as int, to as int);
        assert(part.drop_last() =~= s@.subrange(from as int, to - 1));
        to -= 1;
    }
    vstd::slice::slice_subrange(s, from, to)
}

/// A character with the letters A to Z in lower case.
pub open spec fn lower_char(c: char) -> char {
    if 'A' <= c <= 'Z' {
        (c as u8 + 32) as char
    } else {
        c
    }
}

/// A text with the letters A to Z in lower case.
pub open spec fn lower(s: Seq<char>) -> Seq<char> {
    Seq::new(s.len(), |i: int| lower_char(s[i]))
}

/// A text with the letters A to Z in lower case.
pub fn lowered(s: &[char]) -> (r: Vec<char>)
    ensures
        r@ == lower(s@),
{
    let mut r: Vec<char> = Vec::new();
    for i in 0..s.len()
        invariant
            r@ == lower(s@).subrange(0, i as int),
    {
        let c = s[i];
        let d: char = if 'A' <= c && c <= 'Z' {
            (c as u8 + 32) as char
        } else {
            c
        };
        r.push(d);
        assert(lower(s@).subrange(0, i + 1) =~= lower(s@).subrange(0, i as int).push(d));
    }
    assert(lower(s@).subrange(0, s@.len() as int) =~= lower(s@));
    r
}

/// A line without the carriage return before its end.
pub open spec fn line_text(s: Seq<char>) -> Seq<char> {
    if s.len() > 0 && s.last() == '\r' {
        s.drop_last()
    } else {
        s
    }
}

/// Where the first line feed at or after `i` stands; the length, if there is
/// none.
pub open spec fn line_end(s: Seq<char>, i: int) -> int
    decreases s.len() - i,
{
    if i >= s.len() {
        s.len() as int
    } else if s[i] == '\n' {
        i
    } else {
        line_end(s, i + 1)
    }
}

pub proof fn line_end_bounds(s: Seq<char>, i: int)
    requires
        0 <= i <= s.len(),
    ensures
        i <= line_end(s, i) <= s.len(),
        line_end(s, i) < s.len() ==> s[line_end(s, i)] == '\n',
    decreases s.len() - i,
{
    if i < s.len() && s[i] != '\n' {
        line_end_bounds(s, i + 1);
    }
}

/// The lines of a text from `i` on. A line ends with a line feed, which a
/// carriage return may precede; the last may end without one.
pub open spec fn lines_from(s: Seq<char>, i: int) -> Seq<Seq<char>>
    decreases s.len() - i,
{
    if i < 0 || i >= s.len() {
        seq![]
    } else {
        proof {
            line_end_bounds(s, i);
        }
        let e = line_end(s, i);
        if e >= s.len() {
            seq![s.subrange(i, s.len() as int)]
        } else {
            seq![line_text(s.subrange(i, e))] + lines_from(s, e + 1)
        }
    }
}

/// What texts are.
pub open spec fn char_rows(v: Seq<Vec<char>>) -> Seq<Seq<char>> {
    Seq::new(v.len(), |i: int| v[i]@)
}

/// The lines of a text.
pub fn lines_of(s: &[char]) -> (r: Vec<Vec<char>>)
    ensures
        char_rows(r@) == lines_from(s@, 0),
{
    let mut r: Vec<Vec<char>> = Vec::new();
    let mut i: usize = 0;
    let len: usize = s.len();
    assert(char_rows(r@) + lines_from(s@, 0) =~= lines_from(s@, 0));
    while i < len
        invariant
            len == s@.len(),
            i <= len,
            lines_from(s@, 0) == char_rows(r@) + lines_from(s@, i as int),
        decreases len - i,
    {
        let mut e: usize = i;
        while e < len && s[e] != '\n'
            invariant
                len == s@.len(),
                i <= e <= len,
                line_end(s@, i as int) == line_end(s@, e as int),
            ensures
                e == line_end(s@, i as int),
                i <= e <= len,
            decreases len - e,
        {
            e += 1;
        }
        let stop: usize = if e < len && e > i && s[e - 1] == '\r' {
            e - 1
        } else {
            e
        };
        let mut line: Vec<char> = Vec::new();
        line.extend_from_slice(vstd::slice::slice_subrange(s, i, stop));
        let ghost before = r@;
        let ghost tail = lines_from(s@, i as int);
        proof {
            let whole = s@.subrange(i as int, e as int);
            if e < len {
                assert(line@ =~= line_text(whole)) by {
                    if stop < e {
                        assert(whole.drop_last() =~= s@.subrange(i as int, stop as int));
                    }
                }
            } else {
                assert(line@ =~= s@.subrange(i as int, len as int));
            }
        }
        r.push(line);
        assert(char_rows(r@) =~= char_rows(before).push(line@));
        i = if e < len {
            e + 1
        } else {
            len
        };
        proof {
            let rest = lines_from(s@, i as int);
            assert(tail =~= seq![line@] + rest);
            assert(char_rows(before) + (seq![line@] + rest) =~= char_rows(r@) + rest);
        }
    }
    assert(char_rows(r@) + seq![] =~= char_rows(r@));
    r
}

/// The unsigned 64-bit number that a text spells: digits, which a plus sign may
/// precede.
pub open spec fn number_of(s: Seq<char>) -> Option<u64> {
    let d = if s.len() > 0 && s[0] == '+' {
        s.subrange(1, s.len() as int)
    } else {
        s
    };
    if d.len() > 0 && all_digits(d) && spelled(d) <= u64::MAX {
        Some(spelled(d) as u64)
    } else {
        None
    }
}

proof fn spelled_grows(s: Seq<char>, k: int)
    requires
        0 <= k <= s.len(),
        all_digits(s),
    ensures
        spelled(s.subrange(0, k)) <= spelled(s),
    decreases s.len(),
{
    if k == s.len() {
        assert(s.subrange(0, k) =~= s);
    } else {
        let t = s.drop_last();
        assert forall|i: int| 0 <= i < t.len() implies is_digit(#[trigger] t[i]) by {
            assert(t[i] == s[i]);
        }
        spelled_grows(t, k);
        assert(t.subrange(0, k) =~= s.subrange(0, k));
    }
}

/// Reads an unsigned number.
pub fn parse_number(s: &[char]) -> (r: Option<u64>)
    ensures
        r == number_of(s@),
{
    let len: usize = s.len();
    let from: usize = if len > 0 && s[0] == '+' {
        1
    } else {
        0
    };
    let ghost d = s@.subrange(from as int, len as int);
    assert(from == 0 ==> d =~= s@);
    if from >= len {
        return None;
    }
    let mut i: usize = from;
    while i < len
        invariant
            len == s@.len(),
            from <= i <= len,
            d == s@.subrange(from as int, len as int),
            number_of(s@) == (if d.len() > 0 && all_digits(d) && spelled(d) <= u64::MAX {
                Some(spelled(d) as u64)
            } else {
                None
            }),
            forall|k: int| 0 <= k < i - from ==> is_digit(#[trigger] d[k]),
        decreases len - i,
    {
        if !('0' <= s[i] && s[i] <= '9') {
            assert(!is_digit(d[i - from]));
            return None;
        }
        assert(d[i - from] == s@[i as int]);
        i += 1;
    }
    let mut n: u64 = 0;
    let mut j: usize = from;
    assert(d.subrange(0, 0) =~= seq![]);
    while j < len
        invariant
            len == s@.len(),
            from <= j <= len,
            d == s@.subrange(from as int, len as int),
            d.len() > 0,
            all_digits(d),
            number_of(s@) == (if spelled(d) <= u64::MAX {
                Some(spelled(d) as u64)
            } else {
                None
            }),
            n == spelled(d.subrange(0, j - from)),
        decreases len - j,
    {
        let ghost part = d.subrange(0, j - from + 1);
        proof {
            assert(part.drop_last() =~= d.subrange(0, j - from));
            assert(is_digit(d[j - from]));
            spelled_grows(d, j - from + 1);
        }
        let x: u64 = s[j] as u64 - 48;
        if n > (u64::MAX - x) / 10 {
            return None;
        }
        n = n * 10 + x;
        j += 1;
    }
    assert(d.subrange(0, d.len() as int) =~= d);
    Some(n)
}

} // verus!
