//! Which models are worth fitting to a machine: an estimate of the bits per
//! weight that its memory affords each one. The estimate is deliberately rough.

use vstd::prelude::*;
use vstd::slice::*;

use crate::decimal::{
    below, below_carries_over, decimal_text, does_outweigh, is_below, is_decimal, number_chars,
    numerator, places, pow10,
};
use crate::fetch::{
    base_name, companion, file_list, lowercase, model_files, names_of, paths_of, select_model_files,
    to_lower, total_of,
};
use crate::sort::{order_is_stable_sort, order_of, precedes, stable_order};
use crate::text::{
    chars_of, contains_text, ends, finishes, includes, is_digit, last_position, rfind_from_is_last,
    spelled, string_of,
};

verus! {

/// What the weight budget loses to the KV cache, the compute buffers and the
/// reserve, without the model's metadata to compute it exactly: 160 KiB per token
/// of context on top of a fixed part.
pub open spec fn overhead_of(ctx: nat) -> nat {
    512 * 0x10_0000 + 320 * 0x10_0000 + ctx * 160 * 1024
}

/// What the weight budget loses, as far as it can be counted.
pub fn est_overhead(ctx: u64) -> (r: u64)
    ensures
        r as nat == (if overhead_of(ctx as nat) <= u64::MAX {
            overhead_of(ctx as nat)
        } else {
            u64::MAX as nat
        }),
{
    let n: u128 = 872_415_232 + ctx as u128 * 163_840;
    if n <= u64::MAX as u128 {
        n as u64
    } else {
        u64::MAX
    }
}

/// What the estimated overhead leaves of the memory; `None`, if nothing.
pub fn weight_budget(usable_vram: u64, ctx: u64) -> (r: Option<u64>)
    ensures
        r is None <==> usable_vram <= overhead_of(ctx as nat),
        r matches Some(b) ==> b == usable_vram - overhead_of(ctx as nat),
{
    let lost = est_overhead(ctx);
    if usable_vram <= lost {
        None
    } else {
        Some(usable_vram - lost)
    }
}

/// A number of bits per weight, as a fraction.
#[derive(Debug, Clone, Copy, PartialEq, Eq, Structural)]
pub struct Bits {
    pub num: u128,
    pub den: u64,
}

impl Bits {
    /// At least `hundredths` hundredths of a bit.
    pub open spec fn at_least(self, hundredths: nat) -> bool {
        self.num * 100 >= hundredths * self.den
    }

    /// The fraction can be compared.
    pub open spec fn wf(self) -> bool {
        self.den > 0 && self.num < 0x1_0000_0000_0000_0000_0000_0000
    }

    fn reaches(&self, hundredths: u128) -> (r: bool)
        requires
            self.wf(),
            hundredths <= 1600,
        ensures
            r == self.at_least(hundredths as nat),
    {
        let d: u128 = self.den as u128;
        assert(hundredths * d <= 1600 * 0xffff_ffff_ffff_ffff) by (nonlinear_arith)
            requires
                hundredths <= 1600,
                d <= 0xffff_ffff_ffff_ffff,
        ;
        self.num * 100 >= hundredths * d
    }
}

/// What a number of bits per weight means for quality.
pub open spec fn verdict_text(b: Bits) -> Seq<char> {
    if b.at_least(1600) {
        "runs at full precision"@
    } else if b.at_least(850) {
        "near-lossless (Q8-class)"@
    } else if b.at_least(600) {
        "excellent (Q6-class)"@
    } else if b.at_least(450) {
        "good (Q4/Q5-class)"@
    } else if b.at_least(300) {
        "tight — worthwhile for big models"@
    } else if b.at_least(206) {
        "at the floor, heavily degraded"@
    } else {
        "does not fit"@
    }
}

/// What a number of bits per weight means for quality.
pub fn verdict_for(b: Bits) -> (r: &'static str)
    requires
        b.wf(),
    ensures
        r@ == verdict_text(b),
{
    if b.reaches(1600) {
        "runs at full precision"
    } else if b.reaches(850) {
        "near-lossless (Q8-class)"
    } else if b.reaches(600) {
        "excellent (Q6-class)"
    } else if b.reaches(450) {
        "good (Q4/Q5-class)"
    } else if b.reaches(300) {
        "tight — worthwhile for big models"
    } else if b.reaches(206) {
        "at the floor, heavily degraded"
    } else {
        "does not fit"
    }
}

/// Bytes per parameter of a source: four for F32, two for BF16 and F16.
pub open spec fn param_bytes(files: Seq<Seq<char>>) -> nat {
    if files.len() > 0 && contains_text(lowercase(files[0]), "f32"@) && !contains_text(
        lowercase(files[0]),
        "f16"@,
    ) {
        4
    } else {
        2
    }
}

/// Bytes per parameter of a source.
pub fn bytes_per_param(files: &[String]) -> (r: u64)
    ensures
        r == param_bytes(names_of(files@)),
        r == 2 || r == 4,
{
    if files.len() == 0 {
        return 2;
    }
    let low = to_lower(files[0].as_str());
    let l = chars_of(low.as_str());
    if includes(l.as_slice(), chars_of("f32").as_slice()) && !includes(
        l.as_slice(),
        chars_of("f16").as_slice(),
    ) {
        4
    } else {
        2
    }
}

/// A letter a to z in either case.
pub open spec fn is_letter(c: char) -> bool {
    ('a' <= c <= 'z') || ('A' <= c <= 'Z')
}

/// Where the digits and points from `i` on end.
pub open spec fn number_end(s: Seq<char>, i: int) -> int
    decreases s.len() - i,
{
    if i >= s.len() || !(is_digit(s[i]) || s[i] == '.') {
        i
    } else {
        number_end(s, i + 1)
    }
}

/// A number text without the points around it.
pub open spec fn without_points(s: Seq<char>) -> Seq<char>
    decreases s.len(),
{
    if s.len() > 0 && s.last() == '.' {
        without_points(s.drop_last())
    } else {
        s
    }
}

/// A number starts at `i`: a digit that no letter precedes.
pub open spec fn number_starts(s: Seq<char>, i: int) -> bool {
    is_digit(s[i]) && (i == 0 || !is_letter(s[i - 1]))
}

/// The claim that ends at `e`: a number, then the letter B, then no letter or
/// digit. Digits with two points among them are no number.
pub open spec fn claim(s: Seq<char>, i: int, e: int) -> Option<Seq<char>> {
    let number = without_points(s.subrange(i, e));
    if e < s.len() && (s[e] == 'b' || s[e] == 'B') && (e + 1 == s.len() || !(is_letter(s[e + 1])
        || is_digit(s[e + 1]))) && is_decimal(number) {
        Some(number)
    } else {
        None
    }
}

proof fn number_end_bounds(s: Seq<char>, i: int)
    requires
        0 <= i <= s.len(),
    ensures
        i <= number_end(s, i) <= s.len(),
        i < s.len() && is_digit(s[i]) ==> i < number_end(s, i),
    decreases s.len() - i,
{
    if i < s.len() && (is_digit(s[i]) || s[i] == '.') {
        number_end_bounds(s, i + 1);
    }
}

/// The claims from `i` on, in order.
pub open spec fn claims_from(s: Seq<char>, i: int) -> Seq<Seq<char>>
    decreases s.len() - i,
    when 0 <= i
    via claims_decrease
{
    if i >= s.len() {
        seq![]
    } else if number_starts(s, i) {
        match claim(s, i, number_end(s, i)) {
            Some(c) => seq![c] + claims_from(s, number_end(s, i)),
            None => claims_from(s, number_end(s, i)),
        }
    } else {
        claims_from(s, i + 1)
    }
}

#[via_fn]
proof fn claims_decrease(s: Seq<char>, i: int) {
    if i < s.len() {
        number_end_bounds(s, i);
    }
}

/// The largest of the first `n` numbers, of equal ones the first.
pub open spec fn largest_number(v: Seq<Seq<char>>, n: int) -> Option<Seq<char>>
    decreases n,
{
    if n <= 0 {
        None
    } else {
        match largest_number(v, n - 1) {
            Some(best) => if below(best, v[n - 1]) {
                Some(v[n - 1])
            } else {
                Some(best)
            },
            None => Some(v[n - 1]),
        }
    }
}

/// The largest number of billions of parameters that a repository name claims
/// ("Qwen3.8-27B-GGUF" claims 27).
pub open spec fn params_claimed(s: Seq<char>) -> Option<Seq<char>> {
    largest_number(claims_from(s, 0), claims_from(s, 0).len() as int)
}

/// No claim in a name is larger than the one that is taken, and that is one of
/// them.
pub proof fn no_claim_exceeds_the_largest(v: Seq<Seq<char>>, n: int, i: int)
    requires
        0 <= i < n <= v.len(),
    ensures
        largest_number(v, n) matches Some(c) && !below(c, v[i]) && v.contains(c),
    decreases n,
{
    let last = v[n - 1];
    assert(v.contains(last));
    if i < n - 1 {
        no_claim_exceeds_the_largest(v, n - 1, i);
        below_carries_over(v[i], largest_number(v, n - 1)->0, largest_number(v, n)->0);
    } else if n > 1 {
        no_claim_exceeds_the_largest(v, n - 1, 0);
    }
}

fn letter(c: char) -> (r: bool)
    ensures
        r == is_letter(c),
{
    ('a' <= c && c <= 'z') || ('A' <= c && c <= 'Z')
}

fn digit_here(c: char) -> (r: bool)
    ensures
        r == is_digit(c),
{
    '0' <= c && c <= '9'
}

fn claim_of(s: &[char], i: usize, e: usize) -> (r: Option<String>)
    requires
        i <= e <= s@.len(),
        number_chars(s@.subrange(i as int, e as int)),
    ensures
        match (r, claim(s@, i as int, e as int)) {
            (Some(n), Some(m)) => n@ == m && is_decimal(m),
            (None, None) => true,
            _ => false,
        },
{
    let len: usize = s.len();
    if !(e < len && (s[e] == 'b' || s[e] == 'B') && (e + 1 == len || !(letter(s[e + 1])
        || digit_here(s[e + 1])))) {
        return None;
    }
    let mut to: usize = e;
    let ghost text = s@.subrange(i as int, e as int);
    while to > i && s[to - 1] == '.'
        invariant
            i <= to <= e <= s@.len(),
            number_chars(s@.subrange(i as int, to as int)),
            without_points(s@.subrange(i as int, e as int)) == without_points(
                s@.subrange(i as int, to as int),
            ),
        ensures
            i <= to <= e,
            number_chars(s@.subrange(i as int, to as int)),
            without_points(s@.subrange(i as int, e as int)) == s@.subrange(i as int, to as int),
        decreases to - i,
    {
        let ghost now = s@.subrange(i as int, to as int);
        let ghost next = s@.subrange(i as int, to - 1);
        proof {
            assert(now.drop_last() =~= next);
            assert forall|k: int| 0 <= k < next.len() implies is_digit(#[trigger] next[k])
                || next[k] == '.' by {
                assert(next[k] == now[k]);
            }
        }
        to -= 1;
    }
    let number = slice_subrange(s, i, to);
    if decimal_text(number) {
        Some(string_of(number))
    } else {
        None
    }
}

/// The largest number of billions of parameters that a repository name claims, as
/// the text that claims it.
pub fn name_params_hint(repo: &str) -> (r: Option<String>)
    ensures
        match (r, params_claimed(repo@)) {
            (Some(n), Some(m)) => n@ == m && is_decimal(m),
            (None, None) => true,
            _ => false,
        },
{
    let all = chars_of(repo);
    let s = all.as_slice();
    let len: usize = s.len();
    let mut best: Option<String> = None;
    let ghost mut found: Seq<Seq<char>> = seq![];
    assert(found + claims_from(s@, 0) =~= claims_from(s@, 0));
    let mut i: usize = 0;
    while i < len
        invariant
            len == s@.len(),
            i <= len,
            claims_from(s@, 0) == found + claims_from(s@, i as int),
            match (best, largest_number(found, found.len() as int)) {
                (Some(n), Some(m)) => n@ == m && is_decimal(m),
                (None, None) => true,
                _ => false,
            },
        decreases len - i,
    {
        let starts: bool = digit_here(s[i]) && (i == 0 || !letter(s[i - 1]));
        if starts {
            let mut e: usize = i;
            while e < len && (digit_here(s[e]) || s[e] == '.')
                invariant
                    len == s@.len(),
                    i <= e <= len,
                    number_chars(s@.subrange(i as int, e as int)),
                    number_end(s@, i as int) == number_end(s@, e as int),
                ensures
                    i <= e <= len,
                    number_chars(s@.subrange(i as int, e as int)),
                    e == number_end(s@, i as int),
                decreases len - e,
            {
                let ghost now = s@.subrange(i as int, e as int);
                let ghost next = s@.subrange(i as int, e + 1);
                proof {
                    assert forall|k: int| 0 <= k < next.len() implies is_digit(#[trigger] next[k])
                        || next[k] == '.' by {
                        if k < now.len() {
                            assert(next[k] == now[k]);
                        }
                    }
                }
                e += 1;
            }
            proof {
                number_end_bounds(s@, i as int);
            }
            if let Some(c) = claim_of(s, i, e) {
                let wins: bool = match &best {
                    Some(b) => is_below(
                        chars_of(b.as_str()).as_slice(),
                        chars_of(c.as_str()).as_slice(),
                    ),
                    None => true,
                };
                proof {
                    let next = found.push(c@);
                    assert(found + (seq![c@] + claims_from(s@, e as int)) =~= next + claims_from(
                        s@,
                        e as int,
                    ));
                    same_largest(found, next, found.len() as int);
                    found = next;
                }
                if wins {
                    best = Some(c);
                }
            }
            i = e;
        } else {
            i += 1;
        }
    }
    assert(found + seq![] =~= found);
    best
}

proof fn same_largest(v: Seq<Seq<char>>, w: Seq<Seq<char>>, n: int)
    requires
        n <= v.len(),
        n <= w.len(),
        forall|i: int| 0 <= i < n ==> v[i] == w[i],
    ensures
        largest_number(v, n) == largest_number(w, n),
    decreases n,
{
    if n > 0 {
        same_largest(v, w, n - 1);
    }
}

/// A build that a repository ships with so few bits per weight that only training
/// with it in mind makes it work.
#[derive(Debug, PartialEq, Eq)]
pub struct NativeBuild {
    pub name: String,
    pub bytes: u64,
}

/// What is known of a repository.
#[derive(Debug, PartialEq, Eq)]
pub struct Suggestion {
    pub repo: String,
    pub downloads: u64,
    /// The size of the full-precision source, all shards.
    pub src_bytes: u64,
    /// Bytes per parameter of the source.
    pub param_bytes: u64,
    /// The estimated bits per weight inside the budget, at most sixteen.
    pub bpw: Bits,
    pub verdict: String,
    /// The source is far smaller than the repository's name claims.
    pub suspicious: bool,
    /// A native low-bit build that fits outright.
    pub native: Option<NativeBuild>,
}

/// The bits per weight that a budget affords: no more than sixteen.
pub open spec fn bits_of(budget: nat, total: nat, bytes: nat) -> Bits {
    if budget * 8 * bytes >= 16 * total {
        Bits { num: (16 * total) as u128, den: total as u64 }
    } else {
        Bits { num: (budget * 8 * bytes) as u128, den: total as u64 }
    }
}

/// The source has less than three tenths of the parameters that the name claims.
pub open spec fn too_small(claimed: Option<Seq<char>>, total: nat, bytes: nat) -> bool {
    claimed matches Some(s) && 10 * total * pow10(places(s)) < 3 * bytes * numerator(s)
        * 1_000_000_000
}

/// The file is a build with at least 0.8 and less than 1.5 bits per weight, no
/// companion, and within the budget.
pub open spec fn is_native(
    f: (Seq<char>, u64),
    total: nat,
    bytes: nat,
    budget: nat,
) -> bool {
    let low = lowercase(base_name(f.0));
    &&& ends(f.0, ".gguf"@)
    &&& !companion(low)
    &&& !contains_text(low, "draft"@)
    &&& f.1 * 8 * bytes * 10 >= 8 * total
    &&& f.1 * 8 * bytes * 10 < 15 * total
    &&& f.1 <= budget
}

/// The first of the smallest native builds among the first `n` files.
pub open spec fn native_build(
    v: Seq<(Seq<char>, u64)>,
    total: nat,
    bytes: nat,
    budget: nat,
    n: int,
) -> Option<int>
    decreases n,
{
    if n <= 0 {
        None
    } else {
        let best = native_build(v, total, bytes, budget, n - 1);
        if is_native(v[n - 1], total, bytes, budget) && (best matches Some(b) ==> v[n - 1].1
            < v[b].1) {
            Some(n - 1)
        } else {
            best
        }
    }
}

fn base_text(path: &str) -> (r: String)
    ensures
        r@ == base_name(path@),
{
    let own = chars_of(path);
    let s = own.as_slice();
    let slash = chars_of("/");
    proof {
        rfind_from_is_last(s@, "/"@, s@.len() - "/"@.len());
    }
    let len: usize = s.len();
    match last_position(s, slash.as_slice()) {
        Some(i) => string_of(slice_subrange(s, i + slash.len(), len)),
        None => string_of(s),
    }
}

fn check_native(path: &str, size: u64, total: u64, bytes: u64, budget: u64) -> (r: bool)
    requires
        bytes == 2 || bytes == 4,
    ensures
        r == is_native((path@, size), total as nat, bytes as nat, budget as nat),
{
    let own = chars_of(path);
    if !finishes(own.as_slice(), chars_of(".gguf").as_slice()) {
        return false;
    }
    let base = base_text(path);
    let low = to_lower(base.as_str());
    let l = chars_of(low.as_str());
    let l = l.as_slice();
    if includes(l, chars_of("mmproj").as_slice()) || includes(l, chars_of("dspark").as_slice())
        || includes(l, chars_of("draft").as_slice()) {
        return false;
    }
    let bits: u128 = if bytes == 2 {
        size as u128 * 160
    } else {
        size as u128 * 320
    };
    assert(bits == size * 8 * bytes * 10) by {
        if bytes == 2 {
            assert(size * 8 * 2 * 10 == size * 160);
        } else {
            assert(size * 8 * 4 * 10 == size * 320);
        }
    }
    let t: u128 = total as u128;
    bits >= 8 * t && bits < 15 * t && size <= budget
}

fn find_native(v: &[(String, u64)], total: u64, bytes: u64, budget: u64) -> (r: Option<usize>)
    requires
        bytes == 2 || bytes == 4,
    ensures
        match (
            r,
            native_build(
                file_list(v@),
                total as nat,
                bytes as nat,
                budget as nat,
                v@.len() as int,
            ),
        ) {
            (Some(i), Some(j)) => i == j && i < v@.len(),
            (None, None) => true,
            _ => false,
        },
{
    let ghost all = file_list(v@);
    let mut best: Option<usize> = None;
    for i in 0..v.len()
        invariant
            bytes == 2 || bytes == 4,
            all == file_list(v@),
            match (
                best,
                native_build(all, total as nat, bytes as nat, budget as nat, i as int),
            ) {
                (Some(a), Some(b)) => a == b && a < i,
                (None, None) => true,
                _ => false,
            },
    {
        assert(all[i as int] == (v@[i as int].0@, v@[i as int].1));
        if check_native(v[i].0.as_str(), v[i].1, total, bytes, budget) {
            let wins: bool = match best {
                Some(b) => {
                    assert(all[b as int].1 == v@[b as int].1);
                    v[i].1 < v[b].1
                },
                None => true,
            };
            if wins {
                best = Some(i);
            }
        }
    }
    best
}

/// The verdict on a source that is too small for its name.
pub open spec fn draft_verdict() -> Seq<char> {
    "source is far smaller than the name — likely a draft companion"@
}

/// What is suggested of a repository.
pub open spec fn suggests(
    s: Suggestion,
    id: Seq<char>,
    downloads: u64,
    v: Seq<(Seq<char>, u64)>,
    budget: u64,
) -> bool {
    let files = model_files(v)->0;
    let total = total_of(files) as nat;
    let bytes = param_bytes(paths_of(files));
    let odd = too_small(params_claimed(id), total, bytes);
    &&& s.repo@ == id
    &&& s.downloads == downloads
    &&& s.src_bytes == total
    &&& s.param_bytes == bytes
    &&& s.bpw == bits_of(budget as nat, total, bytes)
    &&& s.suspicious == odd
    &&& s.verdict@ == (if odd {
        draft_verdict()
    } else {
        verdict_text(bits_of(budget as nat, total, bytes))
    })
    &&& match (s.native, native_build(v, total, bytes, budget as nat, v.len() as int)) {
        (Some(n), Some(i)) => n.name@ == base_name(v[i].0) && n.bytes == v[i].1,
        (None, None) => true,
        _ => false,
    }
}

/// What is suggested of a repository, given its files and the weight budget;
/// `None` where it has no full-precision source.
pub fn analyze_repo(
    id: &str,
    downloads: u64,
    entries: &[(String, u64)],
    weight_budget: u64,
) -> (r: Option<Suggestion>)
    ensures
        r is Some <==> (model_files(file_list(entries@)) matches Some(files) && total_of(files)
            > 0),
        r matches Some(s) ==> suggests(s, id@, downloads, file_list(entries@), weight_budget)
            && s.bpw.wf(),
{
    let (files, total) = match select_model_files(entries) {
        Ok(x) => x,
        Err(_) => {
            return None;
        },
    };
    if total == 0 {
        return None;
    }
    let ghost v = file_list(entries@);
    let bytes = bytes_per_param(files.as_slice());
    let bits: u128 = if bytes == 2 {
        weight_budget as u128 * 16
    } else {
        weight_budget as u128 * 32
    };
    assert(bits == weight_budget * 8 * bytes) by {
        if bytes == 2 {
            assert(weight_budget * 8 * 2 == weight_budget * 16);
        } else {
            assert(weight_budget * 8 * 4 == weight_budget * 32);
        }
    }
    let full: u128 = 16 * (total as u128);
    let bpw = Bits {
        num: if bits >= full {
            full
        } else {
            bits
        },
        den: total,
    };
    let suspicious: bool = match name_params_hint(id) {
        Some(s) => {
            proof {
                let (x, y) = (pow10(places(s@)), numerator(s@));
                assert(10 * total * x == 10 * (total * x)) by (nonlinear_arith);
                assert(3 * bytes * y * 1_000_000_000 == 10 * ((3 * bytes) * y * 100_000_000))
                    by (nonlinear_arith);
            }
            does_outweigh(chars_of(s.as_str()).as_slice(), 3 * bytes, total)
        },
        None => false,
    };
    let native: Option<NativeBuild> = match find_native(entries, total, bytes, weight_budget) {
        Some(i) => {
            assert(v[i as int] == (entries@[i as int].0@, entries@[i as int].1));
            Some(NativeBuild { name: base_text(entries[i].0.as_str()), bytes: entries[i].1 })
        },
        None => None,
    };
    let verdict: &'static str = if suspicious {
        "source is far smaller than the name — likely a draft companion"
    } else {
        verdict_for(bpw)
    };
    Some(
        Suggestion {
            repo: id.to_owned(),
            downloads,
            src_bytes: total,
            param_bytes: bytes,
            bpw,
            verdict: verdict.to_owned(),
            suspicious,
            native,
        },
    )
}

/// How good a suggestion is: suspicious ones come last.
pub open spec fn tier(s: Suggestion) -> int {
    if s.suspicious {
        -1
    } else if s.bpw.at_least(450) {
        2
    } else if s.bpw.at_least(300) {
        1
    } else {
        0
    }
}

/// Four times the number of parameters of a suggestion's source.
pub open spec fn quarters(s: Suggestion) -> nat {
    if s.param_bytes == 4 {
        s.src_bytes as nat
    } else {
        2 * s.src_bytes as nat
    }
}

/// Suggestion `a` is listed before `b`: it is of a better tier, or of the same
/// tier with more parameters.
pub open spec fn outranks(a: Suggestion, b: Suggestion) -> bool {
    tier(a) > tier(b) || (tier(a) == tier(b) && quarters(a) > quarters(b))
}

/// How many of the first `n` suggestions outrank one.
pub open spec fn outranked_by(v: Seq<Suggestion>, s: Suggestion, n: int) -> nat
    decreases n,
{
    if n <= 0 {
        0
    } else {
        outranked_by(v, s, n - 1) + (if outranks(v[n - 1], s) {
            1nat
        } else {
            0nat
        })
    }
}

/// Of each of the suggestions by how many it is outranked.
pub open spec fn rank_keys(v: Seq<Suggestion>) -> Seq<u64> {
    Seq::new(v.len(), |i: int| outranked_by(v, v[i], v.len() as int) as u64)
}

/// The suggestions among the first `n` that are worth listing, as indices.
pub open spec fn worthwhile(v: Seq<Suggestion>, n: int) -> Seq<usize>
    decreases n,
{
    if n <= 0 {
        seq![]
    } else if v[n - 1].bpw.at_least(206) {
        worthwhile(v, n - 1).push((n - 1) as usize)
    } else {
        worthwhile(v, n - 1)
    }
}

/// The suggestions at indices.
pub open spec fn at_indices(v: Seq<Suggestion>, idx: Seq<usize>) -> Seq<Suggestion> {
    Seq::new(idx.len(), |i: int| v[idx[i] as int])
}

/// The order in which suggestions are listed, as indices: those with at least
/// 2.06 bits per weight, by tier, then by parameters; equal ones keep their order.
pub open spec fn listing(v: Seq<Suggestion>) -> Seq<usize> {
    let kept = worthwhile(v, v.len() as int);
    let order = order_of(rank_keys(at_indices(v, kept)));
    Seq::new(order.len(), |i: int| kept[order[i] as int])
}

fn tier_of(s: &Suggestion) -> (r: i32)
    requires
        s.bpw.wf(),
    ensures
        r == tier(*s),
{
    if s.suspicious {
        -1
    } else if s.bpw.reaches(450) {
        2
    } else if s.bpw.reaches(300) {
        1
    } else {
        0
    }
}

fn quarters_of(s: &Suggestion) -> (r: u128)
    ensures
        r == quarters(*s),
{
    if s.param_bytes == 4 {
        s.src_bytes as u128
    } else {
        2 * (s.src_bytes as u128)
    }
}

proof fn worthwhile_facts(v: Seq<Suggestion>, n: int)
    requires
        0 <= n <= v.len() <= usize::MAX,
    ensures
        worthwhile(v, n).len() <= n,
        forall|i: int| 0 <= i < worthwhile(v, n).len() ==> (#[trigger] worthwhile(v, n)[i]) < n,
    decreases n,
{
    if n > 0 {
        worthwhile_facts(v, n - 1);
    }
}

/// The order in which suggestions are listed, as indices.
pub fn rank(v: &[Suggestion]) -> (r: Vec<usize>)
    requires
        forall|i: int| 0 <= i < v@.len() ==> (#[trigger] v@[i]).bpw.wf(),
    ensures
        r@ == listing(v@),
        forall|i: int| 0 <= i < r@.len() ==> (#[trigger] r@[i]) < v@.len(),
{
    assert(v@.len() == v.len());
    let mut kept: Vec<usize> = Vec::new();
    for i in 0..v.len()
        invariant
            forall|i: int| 0 <= i < v@.len() ==> (#[trigger] v@[i]).bpw.wf(),
            kept@ == worthwhile(v@, i as int),
    {
        assert(v@[i as int].bpw.wf());
        if v[i].bpw.reaches(206) {
            kept.push(i);
        }
    }
    proof {
        worthwhile_facts(v@, v@.len() as int);
    }
    let ghost sub = at_indices(v@, kept@);
    let ghost all = rank_keys(sub);
    let mut keys: Vec<u64> = Vec::new();
    for i in 0..kept.len()
        invariant
            forall|i: int| 0 <= i < v@.len() ==> (#[trigger] v@[i]).bpw.wf(),
            forall|i: int| 0 <= i < kept@.len() ==> (#[trigger] kept@[i]) < v@.len(),
            sub == at_indices(v@, kept@),
            all == rank_keys(sub),
            keys@ == all.subrange(0, i as int),
    {
        let own = &v[kept[i]];
        assert(sub[i as int] == *own);
        let mut n: u64 = 0;
        for j in 0..kept.len()
            invariant
                forall|i: int| 0 <= i < v@.len() ==> (#[trigger] v@[i]).bpw.wf(),
                forall|i: int| 0 <= i < kept@.len() ==> (#[trigger] kept@[i]) < v@.len(),
                sub == at_indices(v@, kept@),
                own.bpw.wf(),
                n == outranked_by(sub, *own, j as int),
                n <= j,
        {
            let other = &v[kept[j]];
            assert(sub[j as int] == *other);
            assert(v@[kept@[j as int] as int].bpw.wf());
            let (a, b) = (tier_of(other), tier_of(own));
            if a > b || (a == b && quarters_of(other) > quarters_of(own)) {
                n += 1;
            }
        }
        keys.push(n);
        assert(all.subrange(0, i + 1) =~= all.subrange(0, i as int).push(n));
    }
    assert(keys@ =~= all);
    let order = stable_order(keys.as_slice());
    let mut r: Vec<usize> = Vec::new();
    for i in 0..order.len()
        invariant
            forall|i: int| 0 <= i < kept@.len() ==> (#[trigger] kept@[i]) < v@.len(),
            kept@ == worthwhile(v@, v@.len() as int),
            order@ == order_of(rank_keys(at_indices(v@, kept@))),
            order@.len() == kept@.len(),
            forall|j: int| 0 <= j < kept@.len() ==> (#[trigger] order@[j]) < kept@.len(),
            r@ == listing(v@).subrange(0, i as int),
            forall|j: int| 0 <= j < i ==> (#[trigger] r@[j]) < v@.len(),
    {
        let k: usize = kept[order[i]];
        r.push(k);
        assert(listing(v@).subrange(0, i + 1) =~= listing(v@).subrange(0, i as int).push(k));
    }
    assert(listing(v@).subrange(0, order@.len() as int) =~= listing(v@));
    r
}

proof fn outranked_is_bounded(v: Seq<Suggestion>, s: Suggestion, n: int)
    requires
        0 <= n,
    ensures
        outranked_by(v, s, n) <= n,
    decreases n,
{
    if n > 0 {
        outranked_is_bounded(v, s, n - 1);
    }
}

proof fn better_is_outranked_less(v: Seq<Suggestion>, a: Suggestion, b: Suggestion, n: int)
    requires
        0 <= n <= v.len(),
        outranks(a, b),
    ensures
        outranked_by(v, a, n) <= outranked_by(v, b, n),
        (exists|i: int| 0 <= i < n && v[i] == a) ==> outranked_by(v, a, n) < outranked_by(v, b, n),
    decreases n,
{
    if n > 0 {
        better_is_outranked_less(v, a, b, n - 1);
        if exists|i: int| 0 <= i < n && v[i] == a {
            let i = choose|i: int| 0 <= i < n && v[i] == a;
            if i < n - 1 {
                assert(0 <= i < n - 1 && v[i] == a);
            }
        }
    }
}

/// No suggestion is listed behind one that it outranks, and every listed one has
/// at least 2.06 bits per weight.
pub proof fn listing_follows_rank(v: Seq<Suggestion>, i: int, j: int)
    requires
        v.len() <= usize::MAX,
        0 <= i < j < listing(v).len(),
    ensures
        listing(v)[i] < v.len(),
        listing(v)[j] < v.len(),
        !outranks(v[listing(v)[j] as int], v[listing(v)[i] as int]),
        v[listing(v)[i] as int].bpw.at_least(206),
        v[listing(v)[j] as int].bpw.at_least(206),
{
    let n = v.len() as int;
    let kept = worthwhile(v, n);
    worthwhile_facts(v, n);
    worthwhile_are_worthwhile(v, n);
    let sub = at_indices(v, kept);
    let keys = rank_keys(sub);
    order_is_stable_sort(keys);
    let o = order_of(keys);
    let (a, b) = (o[i] as int, o[j] as int);
    assert(precedes(keys, a, b));
    assert(kept[a] < n && kept[b] < n);
    if outranks(sub[b], sub[a]) {
        better_is_outranked_less(sub, sub[b], sub[a], sub.len() as int);
        outranked_is_bounded(sub, sub[a], sub.len() as int);
        outranked_is_bounded(sub, sub[b], sub.len() as int);
        assert(0 <= b < sub.len() && sub[b] == sub[b]);
    }
}

proof fn worthwhile_are_worthwhile(v: Seq<Suggestion>, n: int)
    requires
        0 <= n <= v.len() <= usize::MAX,
    ensures
        forall|i: int|
            0 <= i < worthwhile(v, n).len() ==> v[(#[trigger] worthwhile(v, n)[i]) as int].bpw.at_least(
                206,
            ),
    decreases n,
{
    if n > 0 {
        worthwhile_are_worthwhile(v, n - 1);
    }
}

/// A longer context costs more.
pub proof fn overhead_grows(ctx: nat, longer: nat)
    requires
        ctx < longer,
    ensures
        overhead_of(ctx) < overhead_of(longer),
{
}

/// Every token of context costs 160 KiB, on top of 832 MiB.
pub proof fn every_token_costs_the_same(ctx: nat, more: nat)
    ensures
        overhead_of(0) == 872_415_232,
        overhead_of(ctx + more) == overhead_of(ctx) + 163_840 * more,
{
}

/// Each verdict holds for a range of bits per weight, the lower end included and the
/// upper not. The ranges are stated in hundredths of a bit.
pub proof fn verdicts_by_bits_per_weight(b: Bits)
    requires
        b.den > 0,
    ensures
        ({
            let (n, d) = (100 * b.num, b.den as int);
            &&& 1600 * d <= n ==> verdict_text(b) == "runs at full precision"@
            &&& 850 * d <= n < 1600 * d ==> verdict_text(b) == "near-lossless (Q8-class)"@
            &&& 600 * d <= n < 850 * d ==> verdict_text(b) == "excellent (Q6-class)"@
            &&& 450 * d <= n < 600 * d ==> verdict_text(b) == "good (Q4/Q5-class)"@
            &&& 300 * d <= n < 450 * d ==> verdict_text(b) == "tight — worthwhile for big models"@
            &&& 206 * d <= n < 300 * d ==> verdict_text(b) == "at the floor, heavily degraded"@
            &&& n < 206 * d ==> verdict_text(b) == "does not fit"@
        }),
{
}

/// A source takes four bytes per parameter if its first file is named after F32 and
/// not after a 16-bit format, else two.
pub proof fn parameters_take_two_or_four_bytes(files: Seq<Seq<char>>, l: Seq<char>)
    ensures
        files.len() == 0 ==> param_bytes(files) == 2,
        files.len() > 0 && l == lowercase(files[0]) ==> (param_bytes(files) == 4 <==> contains_text(
            l,
            "f32"@,
        ) && !contains_text(l, "f16"@)),
        param_bytes(files) == 2 || param_bytes(files) == 4,
{
}

/// The bits per weight are the bits of the budget divided by the parameters of the
/// source, which are its bytes divided by the bytes per parameter, but sixteen at most.
pub proof fn bits_are_divided_among_parameters(budget: u64, total: u64, params: nat, bytes: nat)
    requires
        total > 0,
        bytes == 2 || bytes == 4,
        total == params * bytes,
    ensures
        ({
            let b = bits_of(budget as nat, total as nat, bytes);
            &&& b.den > 0
            &&& 8 * budget <= 16 * params ==> b.num * params == 8 * budget * b.den
            &&& 8 * budget >= 16 * params ==> b.num == 16 * b.den
        }),
{
    let b = bits_of(budget as nat, total as nat, bytes);
    let bb = budget as nat;
    if bytes == 2 {
        assert(bb * 8 * 2 == 16 * bb);
        assert(params * 2 == total);
        assert((16 * bb) * params == 8 * bb * (2 * params)) by (nonlinear_arith);
    } else {
        assert(bb * 8 * 4 == 32 * bb);
        assert(params * 4 == total);
        assert((32 * bb) * params == 8 * bb * (4 * params)) by (nonlinear_arith);
    }
    if 8 * budget == 16 * params {
        assert((16 * total) * params == 8 * bb * total) by (nonlinear_arith)
            requires
                8 * bb == 16 * params,
                total >= 0,
        ;
    }
}

/// A source is too small for its name if it has less than three tenths of the billions
/// of parameters that the name claims.
pub proof fn small_sources_have_few_parameters(
    a: Seq<char>,
    b: Seq<char>,
    total: nat,
    params: nat,
    bytes: nat,
)
    requires
        forall|i: int| 0 <= i < a.len() ==> 48 <= (#[trigger] a[i]) as int <= 57,
        forall|i: int| 0 <= i < b.len() ==> 48 <= (#[trigger] b[i]) as int <= 57,
        bytes == 2 || bytes == 4,
        total == params * bytes,
    ensures
        too_small(Some(a), total, bytes) <==> 10 * params < 3 * spelled(a) * 1_000_000_000,
        too_small(Some(a + seq!['.'] + b), total, bytes) <==> 10 * params
            * vstd::arithmetic::power::pow(10, b.len()) < 3 * spelled(a + b) * 1_000_000_000,
        !too_small(None, total, bytes),
{
    crate::decimal::decimals_are_fractions(a, b);
    crate::decimal::powers_of_ten(b.len());
    vstd::arithmetic::power::lemma_pow_positive(10, b.len());
    smaller_by_bytes(total, params, bytes, 1, spelled(a));
    smaller_by_bytes(
        total,
        params,
        bytes,
        vstd::arithmetic::power::pow(10, b.len()) as nat,
        spelled(a + b),
    );
}

proof fn smaller_by_bytes(total: nat, params: nat, bytes: nat, x: nat, n: nat)
    requires
        bytes == 2 || bytes == 4,
        total == params * bytes,
    ensures
        10 * total * x < 3 * bytes * n * 1_000_000_000 <==> 10 * params * x < 3 * n
            * 1_000_000_000,
{
    if bytes == 2 {
        assert(10 * total * x == 2 * (10 * params * x)) by (nonlinear_arith)
            requires
                total == params * 2,
        ;
        assert(3 * bytes * n * 1_000_000_000 == 2 * (3 * n * 1_000_000_000)) by (nonlinear_arith)
            requires
                bytes == 2,
        ;
    } else {
        assert(10 * total * x == 4 * (10 * params * x)) by (nonlinear_arith)
            requires
                total == params * 4,
        ;
        assert(3 * bytes * n * 1_000_000_000 == 4 * (3 * n * 1_000_000_000)) by (nonlinear_arith)
            requires
                bytes == 4,
        ;
    }
}

/// A native build has at least 0.8 and less than 1.5 bits for each parameter of the
/// source, and fits in the budget.
pub proof fn native_builds_have_about_one_bit(
    path: Seq<char>,
    size: u64,
    total: nat,
    params: nat,
    bytes: nat,
    budget: nat,
)
    requires
        bytes == 2 || bytes == 4,
        total == params * bytes,
        path.len() >= 5,
        path.subrange(path.len() - 5, path.len() as int) == ".gguf"@,
    ensures
        is_native((path, size), total, bytes, budget) <==> 8 * params <= 80 * size < 15 * params
            && size <= budget && !contains_text(lowercase(base_name(path)), "mmproj"@)
            && !contains_text(lowercase(base_name(path)), "dspark"@) && !contains_text(
            lowercase(base_name(path)),
            "draft"@,
        ),
{
    reveal_strlit(".gguf");
    let s = size as nat;
    if bytes == 2 {
        assert(s * 8 * 2 * 10 == 160 * s);
        assert(params * 2 == total);
    } else {
        assert(s * 8 * 4 * 10 == 320 * s);
        assert(params * 4 == total);
    }
}

/// Of several native builds the smallest is taken, the first of them where several are
/// equally small.
pub proof fn the_smallest_native_build_is_taken(
    v: Seq<(Seq<char>, u64)>,
    total: nat,
    bytes: nat,
    budget: nat,
    n: int,
    j: int,
)
    requires
        0 <= j < n <= v.len(),
        is_native(v[j], total, bytes, budget),
    ensures
        native_build(v, total, bytes, budget, n) matches Some(b) && 0 <= b < n && is_native(
            v[b],
            total,
            bytes,
            budget,
        ) && (v[b].1 < v[j].1 || (v[b].1 == v[j].1 && b <= j)),
    decreases n,
{
    if j < n - 1 {
        the_smallest_native_build_is_taken(v, total, bytes, budget, n - 1, j);
    } else {
        native_is_native(v, total, bytes, budget, n - 1);
    }
}

proof fn native_is_native(v: Seq<(Seq<char>, u64)>, total: nat, bytes: nat, budget: nat, n: int)
    requires
        0 <= n <= v.len(),
    ensures
        native_build(v, total, bytes, budget, n) matches Some(b) ==> 0 <= b < n && is_native(
            v[b],
            total,
            bytes,
            budget,
        ),
    decreases n,
{
    if n > 0 {
        native_is_native(v, total, bytes, budget, n - 1);
    }
}

/// What is suggested of a repository is for that repository, and its verdict says that
/// the source is too small where it is, else what its bits per weight mean.
pub proof fn suggestions_say_what_they_found(
    s: Suggestion,
    id: Seq<char>,
    downloads: u64,
    v: Seq<(Seq<char>, u64)>,
    budget: u64,
)
    requires
        suggests(s, id, downloads, v, budget),
        model_files(v) is Some,
    ensures
        s.repo@ == id,
        s.downloads == downloads,
        s.src_bytes == total_of(model_files(v)->0),
        s.param_bytes == param_bytes(paths_of(model_files(v)->0)),
        s.bpw == bits_of(budget as nat, s.src_bytes as nat, s.param_bytes as nat),
        s.suspicious <==> too_small(
            params_claimed(id),
            s.src_bytes as nat,
            s.param_bytes as nat,
        ),
        s.suspicious ==> s.verdict@
            == "source is far smaller than the name — likely a draft companion"@,
        !s.suspicious ==> s.verdict@ == verdict_text(s.bpw),
{
}

/// A native build is suggested if the repository has one.
pub proof fn native_builds_are_suggested(
    s: Suggestion,
    id: Seq<char>,
    downloads: u64,
    v: Seq<(Seq<char>, u64)>,
    budget: u64,
    j: int,
)
    requires
        suggests(s, id, downloads, v, budget),
        model_files(v) is Some,
        0 <= j < v.len(),
        is_native(v[j], s.src_bytes as nat, s.param_bytes as nat, budget as nat),
    ensures
        s.native matches Some(b) && b.bytes <= v[j].1 && exists|i: int|
            0 <= i < v.len() && b.name@ == base_name((#[trigger] v[i]).0) && b.bytes == v[i].1,
{
    let n = v.len() as int;
    the_smallest_native_build_is_taken(
        v,
        s.src_bytes as nat,
        s.param_bytes as nat,
        budget as nat,
        n,
        j,
    );
}

/// Suspicious suggestions rank last; of the others those with at least 4.5 bits per
/// weight rank first, then those with at least three. Within these classes the one with
/// more parameters ranks higher.
pub proof fn bits_rank_before_parameters(a: Suggestion, b: Suggestion)
    requires
        a.bpw.den > 0,
        b.bpw.den > 0,
        a.param_bytes == 2 || a.param_bytes == 4,
        b.param_bytes == 2 || b.param_bytes == 4,
    ensures
        ({
            let (x, y) = (a.bpw, b.bpw);
            let (xg, yg) = (100 * x.num >= 450 * x.den, 100 * y.num >= 450 * y.den);
            let (xt, yt) = (100 * x.num >= 300 * x.den, 100 * y.num >= 300 * y.den);
            &&& !a.suspicious && b.suspicious ==> outranks(a, b) && !outranks(b, a)
            &&& !a.suspicious && !b.suspicious && xg && !yg ==> outranks(a, b) && !outranks(b, a)
            &&& !a.suspicious && !b.suspicious && xt && !yt ==> outranks(a, b) && !outranks(b, a)
            &&& (a.suspicious && b.suspicious) || (!a.suspicious && !b.suspicious && xg == yg
                && xt == yt) ==> (outranks(a, b) <==> a.src_bytes * b.param_bytes > b.src_bytes
                * a.param_bytes)
        }),
{
    assert(a.src_bytes * 2 == 2 * a.src_bytes);
    assert(a.src_bytes * 4 == 4 * a.src_bytes);
    assert(b.src_bytes * 2 == 2 * b.src_bytes);
    assert(b.src_bytes * 4 == 4 * b.src_bytes);
}

proof fn worthwhile_are_all(v: Seq<Suggestion>, n: int, i: int)
    requires
        0 <= i < n <= v.len() <= usize::MAX,
        v[i].bpw.at_least(206),
    ensures
        worthwhile(v, n).contains(i as usize),
    decreases n,
{
    let w = worthwhile(v, n);
    if i == n - 1 {
        assert(w[w.len() - 1] == i as usize);
    } else {
        worthwhile_are_all(v, n - 1, i);
        let u = worthwhile(v, n - 1);
        let k = choose|k: int| 0 <= k < u.len() && u[k] == i as usize;
        assert(w[k] == i as usize);
    }
}

proof fn worthwhile_rise(v: Seq<Suggestion>, n: int, i: int, j: int)
    requires
        0 <= n <= v.len() <= usize::MAX,
        0 <= i < j < worthwhile(v, n).len(),
    ensures
        worthwhile(v, n)[i] < worthwhile(v, n)[j],
    decreases n,
{
    if n > 0 {
        worthwhile_facts(v, n - 1);
        let u = worthwhile(v, n - 1);
        if j < u.len() {
            worthwhile_rise(v, n - 1, i, j);
        } else {
            assert(u[i] < n - 1);
        }
    }
}

/// Every suggestion with at least 2.06 bits per weight is listed, and no other.
pub proof fn worthwhile_suggestions_are_listed(v: Seq<Suggestion>, i: int)
    requires
        0 <= i < v.len() <= usize::MAX,
    ensures
        listing(v).contains(i as usize) <==> 100 * v[i].bpw.num >= 206 * v[i].bpw.den,
{
    let n = v.len() as int;
    let kept = worthwhile(v, n);
    worthwhile_facts(v, n);
    worthwhile_are_worthwhile(v, n);
    let keys = rank_keys(at_indices(v, kept));
    order_is_stable_sort(keys);
    let o = order_of(keys);
    let l = listing(v);
    if v[i].bpw.at_least(206) {
        worthwhile_are_all(v, n, i);
        let k = choose|k: int| 0 <= k < kept.len() && kept[k] == i as usize;
        assert(o.contains(k as usize));
        let j = choose|j: int| 0 <= j < o.len() && o[j] == k as usize;
        assert(l[j] == i as usize);
    }
    if l.contains(i as usize) {
        let j = choose|j: int| 0 <= j < l.len() && l[j] == i as usize;
        assert(kept[o[j] as int] == i as usize);
    }
}

/// No suggestion is listed twice, and of two that rank alike the earlier is listed
/// first.
pub proof fn equal_suggestions_keep_their_order(v: Seq<Suggestion>, i: int, j: int)
    requires
        v.len() <= usize::MAX,
        0 <= i < j < listing(v).len(),
    ensures
        listing(v)[i] != listing(v)[j],
        !outranks(v[listing(v)[i] as int], v[listing(v)[j] as int]) ==> listing(v)[i] < listing(
            v,
        )[j],
{
    let n = v.len() as int;
    let kept = worthwhile(v, n);
    worthwhile_facts(v, n);
    let sub = at_indices(v, kept);
    let keys = rank_keys(sub);
    order_is_stable_sort(keys);
    let o = order_of(keys);
    let (a, b) = (o[i] as int, o[j] as int);
    assert(precedes(keys, a, b));
    let m = sub.len() as int;
    outranked_is_bounded(sub, sub[a], m);
    outranked_is_bounded(sub, sub[b], m);
    if a < b {
        worthwhile_rise(v, n, a, b);
    } else {
        worthwhile_rise(v, n, b, a);
        if !outranks(sub[a], sub[b]) {
            no_better_is_outranked_no_less(sub, sub[a], sub[b], m);
        }
    }
}

proof fn no_better_is_outranked_no_less(v: Seq<Suggestion>, a: Suggestion, b: Suggestion, n: int)
    requires
        0 <= n <= v.len(),
        !outranks(a, b),
    ensures
        outranked_by(v, b, n) <= outranked_by(v, a, n),
    decreases n,
{
    if n > 0 {
        no_better_is_outranked_no_less(v, a, b, n - 1);
    }
}

proof fn number_ends_at(s: Seq<char>, i: int, e: int)
    requires
        0 <= i <= e < s.len(),
        forall|k: int| i <= k < e ==> is_digit(#[trigger] s[k]) || s[k] == '.',
        !is_digit(s[e]),
        s[e] != '.',
    ensures
        number_end(s, i) == e,
    decreases e - i,
{
    if i < e {
        number_ends_at(s, i + 1, e);
    }
}

proof fn no_number_starts(s: Seq<char>, i: int, e: int)
    requires
        0 <= i <= e <= s.len(),
        forall|k: int| i <= k < e ==> !is_digit(#[trigger] s[k]),
    ensures
        claims_from(s, i) == claims_from(s, e),
    decreases e - i,
{
    if i < e {
        assert(!is_digit(s[i]));
        no_number_starts(s, i + 1, e);
    }
}

/// A name claims the number that stands before the letter B, in either case, where no
/// letter precedes the number and neither a letter nor a digit follows the B.
pub proof fn names_claim_numbers_before_a_b(
    p: Seq<char>,
    a: Seq<char>,
    letter: char,
    r: Seq<char>,
)
    requires
        forall|i: int| 0 <= i < p.len() ==> !(48 <= (#[trigger] p[i]) as int <= 57),
        p.len() > 0 ==> !(65 <= p.last() as int <= 90) && !(97 <= p.last() as int <= 122),
        a.len() > 0,
        forall|i: int| 0 <= i < a.len() ==> 48 <= (#[trigger] a[i]) as int <= 57,
        letter as int == 66 || letter as int == 98,
        r.len() > 0 ==> !(48 <= r[0] as int <= 57) && !(65 <= r[0] as int <= 90) && !(97
            <= r[0] as int <= 122),
    ensures
        ({
            let s = p + a + seq![letter] + r;
            let e = (p.len() + a.len()) as int;
            claims_from(s, 0) == seq![a] + claims_from(s, e)
        }),
{
    let s = p + a + seq![letter] + r;
    let (n, e) = (p.len() as int, (p.len() + a.len()) as int);
    assert forall|k: int| 0 <= k < n implies !is_digit(#[trigger] s[k]) by {
        assert(s[k] == p[k]);
    }
    no_number_starts(s, 0, n);
    assert forall|k: int| n <= k < e implies is_digit(#[trigger] s[k]) by {
        assert(s[k] == a[k - n]);
    }
    assert(s[e] == letter);
    number_ends_at(s, n, e);
    assert(s[n] == a[0]);
    if n > 0 {
        assert(s[n - 1] == p.last());
    }
    assert(number_starts(s, n));
    assert(s.subrange(n, e) =~= a);
    assert(is_digit(a.last()));
    crate::decimal::decimals_are_fractions(a, seq![]);
    if r.len() > 0 {
        assert(s[e + 1] == r[0]);
    } else {
        assert(s.len() == e + 1);
    }
    assert(claim(s, n, e) == Some(a));
}

/// A number that another character than the letter B follows is no claim.
pub proof fn other_numbers_are_no_claims(p: Seq<char>, a: Seq<char>, c: char, r: Seq<char>)
    requires
        forall|i: int| 0 <= i < p.len() ==> !(48 <= (#[trigger] p[i]) as int <= 57),
        forall|i: int| 0 <= i < a.len() ==> 48 <= (#[trigger] a[i]) as int <= 57,
        c as int != 66 && c as int != 98 && !(48 <= c as int <= 57) && c as int != 46,
        a.len() > 0,
        p.len() > 0 ==> !(65 <= p.last() as int <= 90) && !(97 <= p.last() as int <= 122),
    ensures
        ({
            let s = p + a + seq![c] + r;
            claims_from(s, 0) == claims_from(s, (p.len() + a.len()) as int)
        }),
{
    let s = p + a + seq![c] + r;
    let (n, e) = (p.len() as int, (p.len() + a.len()) as int);
    assert forall|k: int| 0 <= k < n implies !is_digit(#[trigger] s[k]) by {
        assert(s[k] == p[k]);
    }
    no_number_starts(s, 0, n);
    assert forall|k: int| n <= k < e implies is_digit(#[trigger] s[k]) by {
        assert(s[k] == a[k - n]);
    }
    assert(s[e] == c);
    number_ends_at(s, n, e);
    assert(s[n] == a[0]);
    if n > 0 {
        assert(s[n - 1] == p.last());
    }
    assert(number_starts(s, n));
}

/// What a name claims is one of its claims, and no other is larger. A name without
/// claims claims nothing.
pub proof fn names_claim_their_largest_number(s: Seq<char>, i: int)
    ensures
        claims_from(s, 0).len() == 0 ==> params_claimed(s) is None,
        0 <= i < claims_from(s, 0).len() ==> (params_claimed(s) matches Some(c) && claims_from(
            s,
            0,
        ).contains(c) && numerator(c) * pow10(places(claims_from(s, 0)[i])) >= numerator(
            claims_from(s, 0)[i],
        ) * pow10(places(c))),
{
    let v = claims_from(s, 0);
    if 0 <= i < v.len() {
        no_claim_exceeds_the_largest(v, v.len() as int, i);
    }
}

/// A number may have a point among its digits.
pub proof fn names_claim_decimals_before_a_b(
    p: Seq<char>,
    a: Seq<char>,
    b: Seq<char>,
    letter: char,
    r: Seq<char>,
)
    requires
        forall|i: int| 0 <= i < p.len() ==> !(48 <= (#[trigger] p[i]) as int <= 57),
        p.len() > 0 ==> !(65 <= p.last() as int <= 90) && !(97 <= p.last() as int <= 122),
        a.len() > 0,
        b.len() > 0,
        forall|i: int| 0 <= i < a.len() ==> 48 <= (#[trigger] a[i]) as int <= 57,
        forall|i: int| 0 <= i < b.len() ==> 48 <= (#[trigger] b[i]) as int <= 57,
        letter as int == 66 || letter as int == 98,
        r.len() > 0 ==> !(48 <= r[0] as int <= 57) && !(65 <= r[0] as int <= 90) && !(97
            <= r[0] as int <= 122),
    ensures
        ({
            let n = a + seq!['.'] + b;
            let s = p + n + seq![letter] + r;
            claims_from(s, 0) == seq![n] + claims_from(s, (p.len() + n.len()) as int)
        }),
{
    let m = a + seq!['.'] + b;
    let s = p + m + seq![letter] + r;
    let (n, e) = (p.len() as int, (p.len() + m.len()) as int);
    assert forall|k: int| 0 <= k < n implies !is_digit(#[trigger] s[k]) by {
        assert(s[k] == p[k]);
    }
    no_number_starts(s, 0, n);
    assert forall|k: int| n <= k < e implies is_digit(#[trigger] s[k]) || s[k] == '.' by {
        assert(s[k] == m[k - n]);
        if k - n < a.len() {
            assert(m[k - n] == a[k - n]);
        } else if k - n > a.len() {
            assert(m[k - n] == b[k - n - a.len() - 1]);
        }
    }
    assert(s[e] == letter);
    number_ends_at(s, n, e);
    assert(s[n] == a[0]);
    if n > 0 {
        assert(s[n - 1] == p.last());
    }
    assert(number_starts(s, n));
    assert(s.subrange(n, e) =~= m);
    assert(m.last() == b[b.len() - 1]);
    crate::decimal::decimals_are_fractions(a, b);
    if r.len() > 0 {
        assert(s[e + 1] == r[0]);
    } else {
        assert(s.len() == e + 1);
    }
    assert(claim(s, n, e) == Some(m));
}

/// A number before a B that a letter or a digit follows is no claim.
pub proof fn a_b_within_a_word_is_no_unit(
    p: Seq<char>,
    a: Seq<char>,
    letter: char,
    c: char,
    r: Seq<char>,
)
    requires
        forall|i: int| 0 <= i < p.len() ==> !(48 <= (#[trigger] p[i]) as int <= 57),
        p.len() > 0 ==> !(65 <= p.last() as int <= 90) && !(97 <= p.last() as int <= 122),
        a.len() > 0,
        forall|i: int| 0 <= i < a.len() ==> 48 <= (#[trigger] a[i]) as int <= 57,
        letter as int == 66 || letter as int == 98,
        48 <= c as int <= 57 || 65 <= c as int <= 90 || 97 <= c as int <= 122,
    ensures
        ({
            let s = p + a + seq![letter, c] + r;
            claims_from(s, 0) == claims_from(s, (p.len() + a.len()) as int)
        }),
{
    let s = p + a + seq![letter, c] + r;
    let (n, e) = (p.len() as int, (p.len() + a.len()) as int);
    assert forall|k: int| 0 <= k < n implies !is_digit(#[trigger] s[k]) by {
        assert(s[k] == p[k]);
    }
    no_number_starts(s, 0, n);
    assert forall|k: int| n <= k < e implies is_digit(#[trigger] s[k]) by {
        assert(s[k] == a[k - n]);
    }
    assert(s[e] == letter);
    assert(s[e + 1] == c);
    number_ends_at(s, n, e);
    assert(s[n] == a[0]);
    if n > 0 {
        assert(s[n - 1] == p.last());
    }
    assert(number_starts(s, n));
}

/// No number starts at a character that a letter precedes.
pub proof fn no_number_starts_behind_a_letter(s: Seq<char>, i: int)
    requires
        0 < i < s.len(),
        65 <= s[i - 1] as int <= 90 || 97 <= s[i - 1] as int <= 122,
    ensures
        claims_from(s, i) == claims_from(s, i + 1),
{
}

} // verus!
