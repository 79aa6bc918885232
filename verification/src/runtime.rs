//! The text side of planning and running: sizes as given on a command line,
//! totals by type, the arguments of the runner, and what its log reports.

use vstd::arithmetic::power2::*;
use vstd::prelude::*;
use vstd::slice::*;

use crate::budget::{kv_bytes_per_32, kv_unit};
use crate::plan::PlanEntry;
use crate::sort::{
    order_holds_every_index, order_is_stable_sort, order_of, precedes, ranks, ranks_order_as_texts,
    stable_order, text_before, text_ranks,
};
use crate::text::{
    char_rows, chars_of, contains_text, decimal, decimal_padded, find_from_is_first, finishes,
    includes, lines_from, lines_of, lower, lowered, position, push_decimal, push_padded, push_text,
    same, same_str, split_first, string_of, to_decimal, trim, trim_spaces, without_suffix,
};

verus! {

/// The number and the unit of a size.
pub open spec fn size_parts(s: Seq<char>) -> (Seq<char>, nat) {
    let t = lower(trim_spaces(s));
    match without_suffix(t, "gib"@) {
        Some(p) => (trim_spaces(p), 0x4000_0000),
        None => match without_suffix(t, "mib"@) {
            Some(p) => (trim_spaces(p), 0x10_0000),
            None => match without_suffix(t, "gb"@) {
                Some(p) => (trim_spaces(p), 1_000_000_000),
                None => match without_suffix(t, "mb"@) {
                    Some(p) => (trim_spaces(p), 1_000_000),
                    None => match without_suffix(t, "g"@) {
                        Some(p) => (trim_spaces(p), 0x4000_0000),
                        None => match without_suffix(t, "m"@) {
                            Some(p) => (trim_spaces(p), 0x10_0000),
                            None => (trim_spaces(t), 1),
                        },
                    },
                },
            },
        },
    }
}

fn cut<'a>(s: &'a [char], suffix: &str) -> (r: Option<&'a [char]>)
    ensures
        match (r, without_suffix(s@, suffix@)) {
            (Some(p), Some(q)) => p@ == q,
            (None, None) => true,
            _ => false,
        },
{
    let p = chars_of(suffix);
    if finishes(s, p.as_slice()) {
        Some(slice_subrange(s, 0, s.len() - p.len()))
    } else {
        None
    }
}

/// A quotient, rounded to the nearest integer, and between two to the even one.
pub open spec fn rounded(n: nat, d: nat) -> nat {
    if 2 * (n % d) > d || (2 * (n % d) == d && n / d % 2 == 1) {
        n / d + 1
    } else {
        n / d
    }
}

/// A number of `10^places`ths.
pub open spec fn fraction_text(n: nat, scale: nat, places: nat) -> Seq<char> {
    decimal(n / scale) + "."@ + decimal_padded(n % scale, places)
}

/// The text of a size: in GiB with two places, in MiB with one, or in bytes.
pub open spec fn size_text(b: u64) -> Seq<char> {
    if b >= 0x4000_0000 {
        fraction_text(rounded(b as nat * 100, 0x4000_0000), 100, 2) + " GiB"@
    } else if b >= 0x10_0000 {
        fraction_text(rounded(b as nat * 10, 0x10_0000), 10, 1) + " MiB"@
    } else {
        decimal(b as nat) + " B"@
    }
}

fn round_even(n: u128, d: u128) -> (r: u128)
    requires
        0 < d <= 0x4000_0000,
    ensures
        r == rounded(n as nat, d as nat),
{
    let q: u128 = n / d;
    let m: u128 = n % d;
    proof {
        assert(d >= 2 ==> q <= u128::MAX / 2) by (nonlinear_arith)
            requires
                q == n / d,
                d > 0,
        ;
        assert(d == 1 ==> m == 0) by (nonlinear_arith)
            requires
                m == n % d,
        ;
    }
    if 2 * m > d || (2 * m == d && q % 2 == 1) {
        q + 1
    } else {
        q
    }
}

fn push_fraction(out: &mut String, n: u64, scale: u64, places: usize)
    requires
        scale > 0,
    ensures
        final(out)@ == old(out)@ + fraction_text(n as nat, scale as nat, places as nat),
{
    let ghost start = out@;
    push_decimal(out, n / scale);
    push_text(out, ".");
    push_padded(out, n % scale, places);
    assert(out@ =~= start + fraction_text(n as nat, scale as nat, places as nat));
}

/// The text of a size.
pub fn fmt_size(b: u64) -> (r: String)
    ensures
        r@ == size_text(b),
{
    let mut s = String::new();
    if b >= 0x4000_0000 {
        let n: u128 = round_even(b as u128 * 100, 0x4000_0000);
        assert(n <= u64::MAX);
        push_fraction(&mut s, n as u64, 100, 2);
        push_text(&mut s, " GiB");
    } else if b >= 0x10_0000 {
        let n: u128 = round_even(b as u128 * 10, 0x10_0000);
        assert(n <= u64::MAX);
        push_fraction(&mut s, n as u64, 10, 1);
        push_text(&mut s, " MiB");
    } else {
        push_decimal(&mut s, b);
        push_text(&mut s, " B");
    }
    assert(s@ =~= size_text(b));
    s
}

/// Divides a size such as "18GiB" or "800 MB" into the text of its number and
/// the number of bytes in its unit.
pub fn split_size(s: &str) -> (r: (String, u64))
    ensures
        r.0@ == size_parts(s@).0,
        r.1 == size_parts(s@).1,
{
    let all = chars_of(s);
    let t = lowered(trim(all.as_slice()));
    let t = t.as_slice();
    if let Some(p) = cut(t, "gib") {
        return (string_of(trim(p)), 0x4000_0000);
    }
    if let Some(p) = cut(t, "mib") {
        return (string_of(trim(p)), 0x10_0000);
    }
    if let Some(p) = cut(t, "gb") {
        return (string_of(trim(p)), 1_000_000_000);
    }
    if let Some(p) = cut(t, "mb") {
        return (string_of(trim(p)), 1_000_000);
    }
    if let Some(p) = cut(t, "g") {
        return (string_of(trim(p)), 0x4000_0000);
    }
    if let Some(p) = cut(t, "m") {
        return (string_of(trim(p)), 0x10_0000);
    }
    (string_of(trim(t)), 1)
}

/// The number of mebibytes in a line `.. size = <number> MiB`.
pub open spec fn mib_text(line: Seq<char>) -> Option<Seq<char>> {
    match split_first(line, "size ="@) {
        None => None,
        Some((_, rest)) => match without_suffix(trim_spaces(rest), "MiB"@) {
            None => None,
            Some(n) => Some(trim_spaces(n)),
        },
    }
}

/// The line reports the size of the KV cache.
pub open spec fn kv_line(line: Seq<char>) -> bool {
    contains_text(line, "llama_kv_cache: size ="@)
}

/// The number in a line that reports the size of the KV cache: what stands
/// before the parenthesis.
pub open spec fn kv_line_text(line: Seq<char>) -> Option<Seq<char>> {
    match split_first(line, "("@) {
        None => None,
        Some((head, _)) => mib_text(head),
    }
}

/// The size of the KV cache in the last of the first `n` lines that report it.
pub open spec fn kv_text(lines: Seq<Seq<char>>, n: int) -> Option<Seq<char>>
    decreases n,
{
    if n <= 0 {
        None
    } else if kv_line(lines[n - 1]) {
        kv_line_text(lines[n - 1])
    } else {
        kv_text(lines, n - 1)
    }
}

/// The sizes of the compute buffers in the first `n` lines.
pub open spec fn compute_texts(lines: Seq<Seq<char>>, n: int) -> Seq<Seq<char>>
    decreases n,
{
    if n <= 0 {
        seq![]
    } else if !kv_line(lines[n - 1]) && contains_text(lines[n - 1], "compute buffer size ="@) {
        match mib_text(lines[n - 1]) {
            Some(t) => compute_texts(lines, n - 1).push(t),
            None => compute_texts(lines, n - 1),
        }
    } else {
        compute_texts(lines, n - 1)
    }
}

/// The sizes that the runner reports, as the texts of numbers of mebibytes.
#[derive(Debug, PartialEq, Eq)]
pub struct RuntimeSizes {
    pub kv: Option<String>,
    pub compute: Vec<String>,
}

/// The texts of strings.
pub open spec fn string_texts(v: Seq<String>) -> Seq<Seq<char>> {
    Seq::new(v.len(), |i: int| v[i]@)
}

fn read_mib(line: &[char]) -> (r: Option<String>)
    ensures
        match (r, mib_text(line@)) {
            (Some(p), Some(q)) => p@ == q,
            (None, None) => true,
            _ => false,
        },
{
    let mark = chars_of("size =");
    proof {
        find_from_is_first(line@, "size ="@, 0);
    }
    match position(line, mark.as_slice()) {
        None => None,
        Some(i) => {
            let len: usize = line.len();
            let rest = slice_subrange(line, i + mark.len(), len);
            match cut(trim(rest), "MiB") {
                None => None,
                Some(n) => Some(string_of(trim(n))),
            }
        },
    }
}

fn read_kv_line(line: &[char]) -> (r: Option<String>)
    ensures
        match (r, kv_line_text(line@)) {
            (Some(p), Some(q)) => p@ == q,
            (None, None) => true,
            _ => false,
        },
{
    let open = chars_of("(");
    proof {
        find_from_is_first(line@, "("@, 0);
    }
    match position(line, open.as_slice()) {
        None => None,
        Some(i) => read_mib(slice_subrange(line, 0, i)),
    }
}

/// Reads the sizes of the KV cache and of the compute buffers from the runner's
/// log.
pub fn runtime_sizes(log: &str) -> (r: RuntimeSizes)
    ensures
        ({
            let lines = lines_from(log@, 0);
            &&& match (r.kv, kv_text(lines, lines.len() as int)) {
                (Some(p), Some(q)) => p@ == q,
                (None, None) => true,
                _ => false,
            }
            &&& string_texts(r.compute@) == compute_texts(lines, lines.len() as int)
        }),
{
    let all = chars_of(log);
    let lines = lines_of(all.as_slice());
    let ghost rows = char_rows(lines@);
    let kv_mark = chars_of("llama_kv_cache: size =");
    let compute_mark = chars_of("compute buffer size =");
    let mut kv: Option<String> = None;
    let mut compute: Vec<String> = Vec::new();
    assert(string_texts(compute@) =~= seq![]);
    for i in 0..lines.len()
        invariant
            rows == char_rows(lines@),
            kv_mark@ == "llama_kv_cache: size ="@,
            compute_mark@ == "compute buffer size ="@,
            match (kv, kv_text(rows, i as int)) {
                (Some(p), Some(q)) => p@ == q,
                (None, None) => true,
                _ => false,
            },
            string_texts(compute@) == compute_texts(rows, i as int),
    {
        let line = lines[i].as_slice();
        assert(rows[i as int] == line@);
        if includes(line, kv_mark.as_slice()) {
            kv = read_kv_line(line);
        } else if includes(line, compute_mark.as_slice()) {
            if let Some(t) = read_mib(line) {
                let ghost before = compute@;
                compute.push(t);
                assert(string_texts(compute@) =~= string_texts(before).push(t@));
            }
        }
    }
    RuntimeSizes { kv, compute }
}

/// The arguments that set the type of the KV cache.
pub open spec fn cache_args(kv: Seq<char>) -> Seq<Seq<char>> {
    if kv == "f16"@ {
        seq![]
    } else {
        seq!["--cache-type-k"@, kv, "--cache-type-v"@, kv]
    }
}

/// The arguments of the server behind the model's path.
pub open spec fn serve_args_of(ctx: u64, kv: Seq<char>, extra: Seq<Seq<char>>) -> Seq<Seq<char>> {
    seq!["-c"@, decimal(ctx as nat), "-ngl"@, "99"@] + cache_args(kv) + extra
}

fn push_cache_args(out: &mut Vec<String>, kv: &str)
    ensures
        string_texts(final(out)@) == string_texts(old(out)@) + cache_args(kv@),
{
    let ghost before = out@;
    if !same_str(kv, "f16") {
        out.push("--cache-type-k".to_owned());
        out.push(kv.to_owned());
        out.push("--cache-type-v".to_owned());
        out.push(kv.to_owned());
    }
    assert(string_texts(out@) =~= string_texts(before) + cache_args(kv@));
}

/// The arguments of the server behind the model's path; `None` for a type that
/// the KV cache cannot have.
pub fn serve_args(ctx: u64, kv: &str, extra: &[String]) -> (r: Option<Vec<String>>)
    ensures
        r is None <==> kv_unit(kv@) is None,
        r matches Some(v) ==> string_texts(v@) == serve_args_of(
            ctx,
            kv@,
            string_texts(extra@),
        ),
{
    if kv_bytes_per_32(kv).is_none() {
        return None;
    }
    let mut v: Vec<String> = Vec::new();
    v.push("-c".to_owned());
    v.push(to_decimal(ctx));
    v.push("-ngl".to_owned());
    v.push("99".to_owned());
    assert(string_texts(v@) =~= seq!["-c"@, decimal(ctx as nat), "-ngl"@, "99"@]);
    push_cache_args(&mut v, kv);
    let ghost base = string_texts(v@);
    let ghost all = string_texts(extra@);
    for i in 0..extra.len()
        invariant
            all == string_texts(extra@),
            string_texts(v@) == base + all.subrange(0, i as int),
    {
        let ghost before = v@;
        let s = extra[i].clone();
        v.push(s);
        assert(string_texts(v@) =~= string_texts(before).push(s@));
        assert(all.subrange(0, i + 1) =~= all.subrange(0, i as int).push(s@));
        assert(string_texts(v@) =~= base + all.subrange(0, i + 1));
    }
    assert(all.subrange(0, all.len() as int) =~= all);
    Some(v)
}

/// The arguments of a short run that logs the allocations, behind the model's
/// path.
pub open spec fn measure_args_of(ctx: u64, kv: Seq<char>) -> Seq<Seq<char>> {
    seq![
        "-ngl"@,
        "99"@,
        "-c"@,
        decimal(ctx as nat),
        "-n"@,
        "1"@,
        "--temp"@,
        "0"@,
        "-st"@,
        "-v"@,
        "-p"@,
        "hi"@,
    ] + cache_args(kv)
}

/// The arguments of a short run that logs the allocations, behind the model's
/// path.
pub fn measure_args(ctx: u64, kv: &str) -> (r: Vec<String>)
    ensures
        string_texts(r@) == measure_args_of(ctx, kv@),
{
    let mut v: Vec<String> = Vec::new();
    v.push("-ngl".to_owned());
    v.push("99".to_owned());
    v.push("-c".to_owned());
    v.push(to_decimal(ctx));
    v.push("-n".to_owned());
    v.push("1".to_owned());
    v.push("--temp".to_owned());
    v.push("0".to_owned());
    v.push("-st".to_owned());
    v.push("-v".to_owned());
    v.push("-p".to_owned());
    v.push("hi".to_owned());
    assert(string_texts(v@) =~= seq![
        "-ngl"@,
        "99"@,
        "-c"@,
        decimal(ctx as nat),
        "-n"@,
        "1"@,
        "--temp"@,
        "0"@,
        "-st"@,
        "-v"@,
        "-p"@,
        "hi"@,
    ]);
    push_cache_args(&mut v, kv);
    v
}

/// What the entries of one type come to.
#[derive(Debug, PartialEq, Eq)]
pub struct TypeTotal {
    pub name: String,
    pub count: usize,
    pub bytes: u128,
}

/// How many of the first `n` entries have the type name `name`.
pub open spec fn count_named(v: Seq<PlanEntry>, name: Seq<char>, n: int) -> nat
    decreases n,
{
    if n <= 0 {
        0
    } else {
        count_named(v, name, n - 1) + (if v[n - 1].ty.label() == name {
            1nat
        } else {
            0nat
        })
    }
}

/// The size of those of the first `n` entries that have the type name `name`.
pub open spec fn bytes_named(v: Seq<PlanEntry>, name: Seq<char>, n: int) -> nat
    decreases n,
{
    if n <= 0 {
        0
    } else {
        bytes_named(v, name, n - 1) + (if v[n - 1].ty.label() == name {
            v[n - 1].bytes as nat
        } else {
            0nat
        })
    }
}

/// The total is that of the entries with its type name.
pub open spec fn sums_up(v: Seq<PlanEntry>, t: TypeTotal) -> bool {
    &&& t.count == count_named(v, t.name@, v.len() as int)
    &&& t.bytes == bytes_named(v, t.name@, v.len() as int)
    &&& t.count > 0
}

fn total_named(v: &[PlanEntry], name: &[char]) -> (r: (usize, u128))
    ensures
        r.0 == count_named(v@, name@, v@.len() as int),
        r.1 == bytes_named(v@, name@, v@.len() as int),
{
    let mut count: usize = 0;
    let mut bytes: u128 = 0;
    for i in 0..v.len()
        invariant
            count == count_named(v@, name@, i as int),
            count <= i,
            bytes == bytes_named(v@, name@, i as int),
            bytes <= i * u64::MAX,
    {
        assert((i + 1) * u64::MAX == i * u64::MAX + u64::MAX) by (nonlinear_arith);
        assert(i * u64::MAX <= usize::MAX * u64::MAX) by (nonlinear_arith)
            requires
                i <= usize::MAX,
        ;
        let label = chars_of(v[i].ty.name().as_str());
        if same(label.as_slice(), name) {
            count += 1;
            bytes += v[i].bytes as u128;
        }
    }
    (count, bytes)
}

proof fn named_is_counted(v: Seq<PlanEntry>, n: int, i: int)
    requires
        0 <= i < n <= v.len(),
    ensures
        count_named(v, v[i].ty.label(), n) > 0,
    decreases n,
{
    if i < n - 1 {
        named_is_counted(v, n - 1, i);
    }
}

/// What the entries come to by type, in the order of the type names: every type
/// that occurs, once, with the number and the size of its entries.
pub fn type_totals(v: &[PlanEntry]) -> (r: Vec<TypeTotal>)
    ensures
        forall|k: int| 0 <= k < r@.len() ==> sums_up(v@, #[trigger] r@[k]),
        forall|i: int, j: int|
            0 <= i < j < r@.len() ==> text_before(
                (#[trigger] r@[i]).name@,
                (#[trigger] r@[j]).name@,
            ),
        forall|i: int|
            0 <= i < v@.len() ==> exists|k: int|
                0 <= k < r@.len() && (#[trigger] r@[k]).name@ == (#[trigger] v@[i]).ty.label(),
{
    let mut names: Vec<Vec<char>> = Vec::new();
    for i in 0..v.len()
        invariant
            names@.len() == i,
            forall|j: int| 0 <= j < i ==> (#[trigger] names@[j])@ == v@[j].ty.label(),
    {
        names.push(chars_of(v[i].ty.name().as_str()));
    }
    let ghost vs = Seq::new(names@.len(), |i: int| names@[i]@);
    let keys = ranks(&names);
    let order = stable_order(keys.as_slice());
    let mut r: Vec<TypeTotal> = Vec::new();
    proof {
        order_is_stable_sort(keys@);
        assert(v@.len() == v.len());
    }
    for k in 0..order.len()
        invariant
            v@.len() <= usize::MAX,
            names@.len() == v@.len(),
            forall|j: int| 0 <= j < v@.len() ==> (#[trigger] names@[j])@ == v@[j].ty.label(),
            vs == Seq::new(names@.len(), |i: int| names@[i]@),
            keys@ == text_ranks(vs),
            order@ == order_of(keys@),
            order@.len() == v@.len(),
            forall|j: int| 0 <= j < v@.len() ==> (#[trigger] order@[j]) < v@.len(),
            forall|a: int, b: int|
                0 <= a < b < v@.len() ==> precedes(
                    keys@,
                    #[trigger] order@[a] as int,
                    #[trigger] order@[b] as int,
                ),
            forall|j: int| 0 <= j < r@.len() ==> sums_up(v@, #[trigger] r@[j]),
            forall|i: int, j: int|
                0 <= i < j < r@.len() ==> text_before(
                    (#[trigger] r@[i]).name@,
                    (#[trigger] r@[j]).name@,
                ),
            r@.len() == 0 <==> k == 0,
            k > 0 ==> r@[r@.len() - 1].name@ == vs[order@[k - 1] as int],
            forall|j: int|
                0 <= j < k ==> exists|x: int|
                    0 <= x < r@.len() && (#[trigger] r@[x]).name@ == vs[(
                    #[trigger] order@[j]) as int],
    {
        let i: usize = order[k];
        let own = names[i].as_slice();
        let fresh: bool = k == 0 || !same(own, names[order[k - 1]].as_slice());
        let ghost old_r = r@;
        if fresh {
            let (count, bytes) = total_named(v, own);
            proof {
                named_is_counted(v@, v@.len() as int, i as int);
                if k > 0 {
                    let p = order@[k - 1] as int;
                    assert(precedes(keys@, p, order@[k as int] as int));
                    ranks_order_as_texts(vs, p, i as int);
                    assert(text_before(vs[p], vs[i as int]));
                    assert forall|a: int| 0 <= a < r@.len() implies text_before(
                        (#[trigger] r@[a]).name@,
                        vs[i as int],
                    ) by {
                        if a < r@.len() - 1 {
                            assert(text_before(r@[a].name@, r@[r@.len() - 1].name@));
                            crate::sort::before_is_transitive(r@[a].name@, vs[p], vs[i as int]);
                        }
                    }
                }
            }
            r.push(TypeTotal { name: string_of(own), count, bytes });
            assert(r@[r@.len() - 1].name@ == vs[i as int]);
        }
        assert forall|j: int| 0 <= j < k + 1 implies exists|x: int|
            0 <= x < r@.len() && (#[trigger] r@[x]).name@ == vs[(#[trigger] order@[j]) as int] by {
            if j < k {
                let x = choose|x: int|
                    0 <= x < old_r.len() && (#[trigger] old_r[x]).name@ == vs[order@[j] as int];
                assert(r@[x] == old_r[x]);
            } else {
                assert(r@[r@.len() - 1].name@ == vs[order@[j] as int]);
            }
        }
    }
    proof {
        assert forall|i: int| 0 <= i < v@.len() implies exists|k: int|
            0 <= k < r@.len() && (#[trigger] r@[k]).name@ == (#[trigger] v@[i]).ty.label() by {
            order_holds_every_index(keys@, i);
            let j = choose|j: int| 0 <= j < order@.len() && order@[j] == i as usize;
            assert(order@[j] == i);
            assert(names@[i]@ == v@[i].ty.label());
            let x = choose|x: int|
                0 <= x < r@.len() && (#[trigger] r@[x]).name@ == vs[order@[j] as int];
            assert(r@[x].name@ == v@[i].ty.label());
        }
    }
    r
}

/// A rounded quotient is no further from the quotient than one half, and even where it
/// is exactly one half away.
pub proof fn rounding_goes_to_the_nearest(n: nat, d: nat)
    requires
        d > 0,
    ensures
        ({
            let q = rounded(n, d);
            &&& 2 * (q * d) <= 2 * n + d
            &&& 2 * n <= 2 * (q * d) + d
            &&& 2 * (q * d) == 2 * n + d || 2 * n == 2 * (q * d) + d ==> q % 2 == 0
        }),
{
    vstd::arithmetic::div_mod::lemma_fundamental_div_mod(n as int, d as int);
    let (k, m) = (n / d, n % d);
    assert(d * k == k * d) by (nonlinear_arith);
    assert((k + 1) * d == k * d + d) by (nonlinear_arith);
    if rounded(n, d) == k + 1 && 2 * ((k + 1) * d) == 2 * n + d {
        assert(2 * m == d);
    }
}

/// From one gibibyte on, a size is given in hundredths of a gibibyte, with two digits
/// behind the point.
pub proof fn large_sizes_have_two_places(b: u64)
    requires
        b >= pow2(30),
    ensures
        ({
            let q = rounded(100 * b as nat, pow2(30));
            &&& size_text(b).len() == decimal(q / 100).len() + 7
            &&& size_text(b) == decimal(q / 100) + seq![
                '.',
                (48 + q / 10 % 10) as char,
                (48 + q % 10) as char,
                ' ',
                'G',
                'i',
                'B',
            ]
        }),
{
    lemma2_to64();
    reveal_strlit(" GiB");
    reveal_strlit(".");
    let q = rounded(100 * b as nat, pow2(30));
    let r = q % 100;
    assert(r % 10 == q % 10);
    assert(r / 10 == q / 10 % 10);
    two_digits(r);
    let t = seq![
        '.',
        (48 + q / 10 % 10) as char,
        (48 + q % 10) as char,
        ' ',
        'G',
        'i',
        'B',
    ];
    assert("."@ + decimal_padded(r, 2) + " GiB"@ =~= t);
    assert(size_text(b) =~= decimal(q / 100) + ("."@ + decimal_padded(r, 2) + " GiB"@));
}

proof fn two_digits(r: nat)
    requires
        r < 100,
    ensures
        decimal_padded(r, 2) == seq![(48 + r / 10) as char, (48 + r % 10) as char],
{
    let d = decimal(r);
    if r >= 10 {
        assert(decimal(r / 10) == seq![crate::text::digit_char((r / 10) as int)]);
        assert(d =~= seq![(48 + r / 10) as char, (48 + r % 10) as char]);
    } else {
        assert(d == seq![crate::text::digit_char(r as int)]);
        assert(decimal_padded(r, 2) =~= seq!['0', (48 + r % 10) as char]);
        assert('0' == (48 + r / 10) as char);
    }
}

/// From one mebibyte on, a size is given in tenths of a mebibyte, with one digit behind
/// the point; below, in bytes.
pub proof fn small_sizes_have_one_place_or_none(b: u64)
    requires
        b < pow2(30),
    ensures
        b >= pow2(20) ==> ({
            let q = rounded(10 * b as nat, pow2(20));
            size_text(b) == decimal(q / 10) + seq!['.', (48 + q % 10) as char, ' ', 'M', 'i', 'B']
        }),
        b < pow2(20) ==> size_text(b) == decimal(b as nat) + seq![' ', 'B'],
{
    lemma2_to64();
    reveal_strlit(" MiB");
    reveal_strlit(" B");
    reveal_strlit(".");
    if b >= pow2(20) {
        let q = rounded(10 * b as nat, pow2(20));
        let r = q % 10;
        assert(decimal(r) == seq![crate::text::digit_char(r as int)]);
        assert(decimal_padded(r, 1) == decimal(r));
        assert("."@ + decimal_padded(r, 1) + " MiB"@ =~= seq![
            '.',
            (48 + q % 10) as char,
            ' ',
            'M',
            'i',
            'B',
        ]);
        assert(size_text(b) =~= decimal(q / 10) + ("."@ + decimal_padded(r, 1) + " MiB"@));
    } else {
        assert(" B"@ =~= seq![' ', 'B']);
    }
}

proof fn other_endings(s: Seq<char>, p: Seq<char>, k: int)
    requires
        0 <= k < p.len(),
        k < s.len(),
        s[s.len() - 1 - k] != p[p.len() - 1 - k],
    ensures
        without_suffix(s, p) is None,
{
    if crate::text::ends(s, p) {
        let t = s.subrange(s.len() - p.len(), s.len() as int);
        assert(t[p.len() - 1 - k] == s[s.len() - 1 - k]);
    }
}

proof fn own_ending(a: Seq<char>, p: Seq<char>)
    ensures
        without_suffix(a + p, p) == Some(a),
{
    crate::text_laws::standing_texts_are_found(a, p, seq![]);
}

proof fn number_is_cut(m: Seq<char>, w: Seq<char>, u: Seq<char>)
    requires
        m.len() > 0,
        lower(m) == m,
        !crate::text::is_space(m[0]),
        !crate::text::is_space(m.last()),
        forall|i: int| 0 <= i < w.len() ==> crate::text::is_space(#[trigger] w[i]),
        u.len() > 0 ==> !crate::text::is_space(u.last()),
    ensures
        trim_spaces(m + w) == m,
        u.len() > 0 ==> lower(trim_spaces(m + w + u)) == m + w + lower(u),
        trim_spaces(m) == m,
        lower(trim_spaces(m + w)) == m,
{
    let e = Seq::<char>::empty();
    crate::text_laws::surrounding_spaces_are_taken_off(e, m, w);
    assert(e + m + w =~= m + w);
    crate::text_laws::surrounding_spaces_are_taken_off(e, m, e);
    assert(e + m + e =~= m);
    if u.len() > 0 {
        let s = m + w + u;
        assert(s[0] == m[0]);
        assert(s.last() == u.last());
        crate::text_laws::surrounding_spaces_are_taken_off(e, s, e);
        assert(e + s + e =~= s);
        assert(lower(s) =~= m + w + lower(u)) by {
            assert forall|i: int| 0 <= i < s.len() implies lower(s)[i] == (m + w + lower(u))[i] by {
                if i < m.len() {
                    assert(lower(m)[i] == m[i]);
                } else if i < m.len() + w.len() {
                    assert(crate::text::is_space(w[i - m.len()]));
                }
            }
        }
    }
}

/// A size is a number and a unit, in whatever letter case, with or without space
/// between them: GiB and G are two to the power of 30 bytes, MiB and M two to the power
/// of 20, GB and MB powers of ten, and without a unit the number counts bytes.
pub proof fn units_have_their_sizes(m: Seq<char>, w: Seq<char>, u: Seq<char>)
    requires
        m.len() > 0,
        lower(m) == m,
        !crate::text::is_space(m[0]),
        48 <= m.last() as int <= 57,
        forall|i: int| 0 <= i < w.len() ==> crate::text::is_space(#[trigger] w[i]),
    ensures
        lower(u) == seq!['g', 'i', 'b'] ==> size_parts(m + w + u) == (m, pow2(30)),
        lower(u) == seq!['m', 'i', 'b'] ==> size_parts(m + w + u) == (m, pow2(20)),
        lower(u) == seq!['g', 'b'] ==> size_parts(m + w + u) == (m, 1_000_000_000nat),
        lower(u) == seq!['m', 'b'] ==> size_parts(m + w + u) == (m, 1_000_000nat),
        lower(u) == seq!['g'] ==> size_parts(m + w + u) == (m, pow2(30)),
        lower(u) == seq!['m'] ==> size_parts(m + w + u) == (m, pow2(20)),
        size_parts(m + w) == (m, 1nat),
{
    lemma2_to64();
    unit_letters();
    let l = lower(u);
    number_is_cut(m, w, seq![]);
    if l == seq!['g', 'i', 'b'] || l == seq!['m', 'i', 'b'] || l == seq!['g', 'b'] || l == seq![
        'm',
        'b',
    ] || l == seq!['g'] || l == seq!['m'] {
        assert(u.len() == l.len());
        assert(l.last() == crate::text::lower_char(u.last()));
        number_is_cut(m, w, u);
        units_after(m + w, l);
    }
    assert(lower(trim_spaces(m + w)) == m);
    other_endings(m, "gib"@, 0);
    other_endings(m, "mib"@, 0);
    other_endings(m, "gb"@, 0);
    other_endings(m, "mb"@, 0);
    other_endings(m, "g"@, 0);
    other_endings(m, "m"@, 0);
}

proof fn unit_letters()
    ensures
        "gib"@ == seq!['g', 'i', 'b'],
        "mib"@ == seq!['m', 'i', 'b'],
        "gb"@ == seq!['g', 'b'],
        "mb"@ == seq!['m', 'b'],
        "g"@ == seq!['g'],
        "m"@ == seq!['m'],
{
    reveal_strlit("gib");
    reveal_strlit("mib");
    reveal_strlit("gb");
    reveal_strlit("mb");
    reveal_strlit("g");
    reveal_strlit("m");
    assert("gib"@ =~= seq!['g', 'i', 'b']);
    assert("mib"@ =~= seq!['m', 'i', 'b']);
    assert("gb"@ =~= seq!['g', 'b']);
    assert("mb"@ =~= seq!['m', 'b']);
    assert("g"@ =~= seq!['g']);
    assert("m"@ =~= seq!['m']);
}

proof fn units_after(a: Seq<char>, l: Seq<char>)
    requires
        l == "gib"@ || l == "mib"@ || l == "gb"@ || l == "mb"@ || l == "g"@ || l == "m"@,
    ensures
        without_suffix(a + l, l) == Some(a),
        l != "gib"@ ==> without_suffix(a + l, "gib"@) is None,
        l != "gib"@ && l != "mib"@ ==> without_suffix(a + l, "mib"@) is None,
        l == "mb"@ || l == "g"@ || l == "m"@ ==> without_suffix(a + l, "gb"@) is None,
        l == "g"@ || l == "m"@ ==> without_suffix(a + l, "mb"@) is None,
        l == "m"@ ==> without_suffix(a + l, "g"@) is None,
{
    unit_letters();
    own_ending(a, l);
    let s = a + l;
    let n = s.len() as int;
    assert(s[n - 1] == l.last());
    if l == "mib"@ {
        assert(s[n - 3] == 'm');
        other_endings(s, "gib"@, 2);
    } else if l == "gb"@ {
        assert(s[n - 2] == 'g');
        other_endings(s, "gib"@, 1);
        other_endings(s, "mib"@, 1);
    } else if l == "mb"@ {
        assert(s[n - 2] == 'm');
        other_endings(s, "gib"@, 1);
        other_endings(s, "mib"@, 1);
        other_endings(s, "gb"@, 1);
    } else if l == "g"@ || l == "m"@ {
        other_endings(s, "gib"@, 0);
        other_endings(s, "mib"@, 0);
        other_endings(s, "gb"@, 0);
        other_endings(s, "mb"@, 0);
        if l == "m"@ {
            other_endings(s, "g"@, 0);
        }
    }
}

/// The size in a line of the log is the text between the first `size =` and a `MiB` at
/// the end of the line, without the space around it.
pub proof fn log_sizes_stand_before_their_unit(
    x: Seq<char>,
    v: Seq<char>,
    m: Seq<char>,
    w: Seq<char>,
)
    requires
        crate::text::find(x + "size ="@ + (v + m + w + seq!['M', 'i', 'B']), "size ="@) == Some(
            x.len() as int,
        ),
        m.len() > 0,
        !crate::text::is_space(m[0]),
        !crate::text::is_space(m.last()),
        forall|i: int| 0 <= i < v.len() ==> crate::text::is_space(#[trigger] v[i]),
        forall|i: int| 0 <= i < w.len() ==> crate::text::is_space(#[trigger] w[i]),
    ensures
        mib_text(x + "size ="@ + (v + m + w + seq!['M', 'i', 'B'])) == Some(m),
{
    reveal_strlit("MiB");
    let u = seq!['M', 'i', 'B'];
    assert("MiB"@ =~= u);
    let rest = v + m + w + u;
    let line = x + "size ="@ + rest;
    assert(line.subrange((x.len() + "size ="@.len()) as int, line.len() as int) =~= rest);
    let e = Seq::<char>::empty();
    let core = m + w + u;
    assert(core[0] == m[0]);
    assert(core.last() == 'B');
    crate::text_laws::surrounding_spaces_are_taken_off(v, core, e);
    assert(v + core + e =~= rest);
    own_ending(m + w, u);
    crate::text_laws::surrounding_spaces_are_taken_off(e, m, w);
    assert(e + m + w =~= m + w);
}

proof fn same_log(a: Seq<Seq<char>>, b: Seq<Seq<char>>, n: int)
    requires
        0 <= n <= a.len(),
        n <= b.len(),
        forall|i: int| 0 <= i < n ==> #[trigger] a[i] == b[i],
    ensures
        kv_text(a, n) == kv_text(b, n),
        compute_texts(a, n) == compute_texts(b, n),
    decreases n,
{
    if n > 0 {
        same_log(a, b, n - 1);
        assert(a[n - 1] == b[n - 1]);
    }
}

/// What one more line of the log changes: a line on the KV cache gives its size, and
/// another on a compute buffer adds one. All other lines change nothing.
pub proof fn later_lines_of_the_log_count(lines: Seq<Seq<char>>, line: Seq<char>)
    ensures
        ({
            let n = lines.len() as int;
            let more = lines.push(line);
            let cache = contains_text(line, "llama_kv_cache: size ="@);
            let buffer = contains_text(line, "compute buffer size ="@);
            &&& cache ==> compute_texts(more, n + 1) == compute_texts(lines, n) && kv_text(
                more,
                n + 1,
            ) == (match split_first(line, "("@) {
                Some((head, _)) => mib_text(head),
                None => None,
            })
            &&& !cache ==> kv_text(more, n + 1) == kv_text(lines, n)
            &&& !cache && buffer && mib_text(line) is Some ==> compute_texts(more, n + 1)
                == compute_texts(lines, n).push(mib_text(line)->0)
            &&& !cache && (!buffer || mib_text(line) is None) ==> compute_texts(more, n + 1)
                == compute_texts(lines, n)
            &&& kv_text(seq![], 0) is None
            &&& compute_texts(seq![], 0).len() == 0
        }),
{
    let n = lines.len() as int;
    let more = lines.push(line);
    same_log(lines, more, n);
    assert(more[n] == line);
}

/// The arguments of the server and of the measuring run: the context, all layers on
/// the GPU, and both halves of the KV cache of the one type unless that is F16.
pub proof fn runs_are_told_the_cache_type(ctx: u64, kv: Seq<char>, extra: Seq<Seq<char>>, i: int)
    requires
        0 <= i < extra.len(),
    ensures
        ({
            let s = serve_args_of(ctx, kv, extra);
            let m = measure_args_of(ctx, kv);
            let c = if kv == "f16"@ {
                0int
            } else {
                4
            };
            &&& s.len() == 4 + c + extra.len()
            &&& s[0] == "-c"@ && s[1] == decimal(ctx as nat) && s[2] == "-ngl"@ && s[3] == "99"@
            &&& s[4 + c + i] == extra[i]
            &&& m.len() == 12 + c
            &&& m[0] == "-ngl"@ && m[1] == "99"@ && m[2] == "-c"@ && m[3] == decimal(ctx as nat)
            &&& m[4] == "-n"@ && m[5] == "1"@ && m[6] == "--temp"@ && m[7] == "0"@
            &&& m[8] == "-st"@ && m[9] == "-v"@ && m[10] == "-p"@ && m[11] == "hi"@
            &&& kv != "f16"@ ==> {
                &&& s[4] == "--cache-type-k"@ && s[5] == kv
                &&& s[6] == "--cache-type-v"@ && s[7] == kv
                &&& m[12] == "--cache-type-k"@ && m[13] == kv
                &&& m[14] == "--cache-type-v"@ && m[15] == kv
            }
        }),
{
}

/// The totals of a type are the number and the sum of the entries with its name.
pub proof fn totals_are_of_the_entries_named(v: Seq<PlanEntry>, name: Seq<char>, n: int)
    requires
        0 <= n <= v.len(),
    ensures
        ({
            let own = v.take(n).filter(|e: PlanEntry| e.ty.label() == name);
            &&& count_named(v, name, n) == own.len()
            &&& bytes_named(v, name, n) == own.fold_left(0int, |a: int, e: PlanEntry| a + e.bytes)
        }),
    decreases n,
{
    let f = |e: PlanEntry| e.ty.label() == name;
    reveal(Seq::filter);
    reveal_with_fuel(Seq::fold_left, 2);
    if n > 0 {
        totals_are_of_the_entries_named(v, name, n - 1);
        assert(v.take(n).drop_last() =~= v.take(n - 1));
        assert(v.take(n).last() == v[n - 1]);
        let own = v.take(n - 1).filter(f);
        assert(own.push(v[n - 1]).drop_last() =~= own);
    }
}

/// A total of a type counts its entries and adds up their sizes.
pub proof fn totals_add_up(v: Seq<PlanEntry>, t: TypeTotal)
    requires
        sums_up(v, t),
    ensures
        ({
            let own = v.filter(|e: PlanEntry| e.ty.label() == t.name@);
            &&& own.len() > 0
            &&& t.count == own.len()
            &&& t.bytes == own.fold_left(0int, |a: int, e: PlanEntry| a + e.bytes)
        }),
{
    totals_are_of_the_entries_named(v, t.name@, v.len() as int);
    assert(v.take(v.len() as int) =~= v);
}

} // verus!
