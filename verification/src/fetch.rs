//! Model resolution: a local path, a repository id, or a URL; and which files of
//! a repository make up the model.

use vstd::prelude::*;
use vstd::slice::*;
use vstd::utf8::is_ascii_chars;

use crate::model::{parts_of, shard_parts};
use crate::sort::{
    order_is_stable_sort, order_of, precedes, ranks, ranks_order_as_texts, stable_order,
    text_before, text_ranks,
};
use crate::text::{
    begins, chars_of, contains_text, ends, find_from_is_first, finishes, includes, last_position,
    lower, occurs_at, position, push_text, rfind, rfind_from_is_last, same_str, split_first, split_last, starts,
    string_of,
};

verus! {

/// What `str::to_lowercase` makes of text that is not ASCII.
pub uninterp spec fn lower_beyond_ascii(s: Seq<char>) -> Seq<char>;

/// A text in lower case.
pub open spec fn lowercase(s: Seq<char>) -> Seq<char> {
    if is_ascii_chars(s) {
        lower(s)
    } else {
        lower_beyond_ascii(s)
    }
}

/// `str::to_lowercase`: the letters A to Z of an ASCII text in lower case. Of
/// other text the result depends on the text alone; what it is in detail is left
/// unsaid.
#[verifier::external_body]
pub(crate) fn to_lower(s: &str) -> (r: String)
    ensures
        r@ == (if is_ascii_chars(s@) {
            lower(s@)
        } else {
            lower_beyond_ascii(s@)
        }),
{
    s.to_lowercase()
}

/// The precision that a source file is named after.
#[derive(Debug, Clone, Copy, PartialEq, Eq, Structural)]
pub enum Precision {
    Bf16,
    F16,
    F32,
}

/// The last part of a path.
pub open spec fn base_name(p: Seq<char>) -> Seq<char> {
    match split_last(p, "/"@) {
        Some((_, b)) => b,
        None => p,
    }
}

/// A file that rides along with a model: a vision projector, or a drafter for
/// speculative decoding.
pub open spec fn companion(lower_base: Seq<char>) -> bool {
    contains_text(lower_base, "mmproj"@) || contains_text(lower_base, "dspark"@)
}

/// The path in lower case names the precision.
pub open spec fn names_precision(l: Seq<char>, p: Precision) -> bool {
    match p {
        Precision::Bf16 => contains_text(l, "bf16"@),
        Precision::F16 => contains_text(l, "f16"@) && !contains_text(l, "bf16"@),
        Precision::F32 => contains_text(l, "f32"@),
    }
}

/// The file can be the model in that precision.
pub open spec fn source(path: Seq<char>, p: Precision) -> bool {
    &&& ends(path, ".gguf"@)
    &&& !begins(base_name(lowercase(path)), "mmproj"@)
    &&& names_precision(lowercase(path), p)
}

/// The file can be the model in that precision, and where only `plain` files are
/// wanted it does not look like a companion.
pub open spec fn eligible(path: Seq<char>, p: Precision, plain: bool) -> bool {
    source(path, p) && (plain ==> !companion(base_name(lowercase(path))))
}

/// What repository entries are: paths and sizes.
pub open spec fn file_list(v: Seq<(String, u64)>) -> Seq<(Seq<char>, u64)> {
    Seq::new(v.len(), |i: int| (v[i].0@, v[i].1))
}

/// The last of the largest of the first `n` files that can be the model.
pub open spec fn largest(v: Seq<(Seq<char>, u64)>, p: Precision, plain: bool, n: int) -> Option<int>
    decreases n,
{
    if n <= 0 {
        None
    } else {
        let best = largest(v, p, plain, n - 1);
        if eligible(v[n - 1].0, p, plain) && (best matches Some(b) ==> v[n - 1].1 >= v[b].1) {
            Some(n - 1)
        } else {
            best
        }
    }
}

/// The largest BF16 file, else F16, else F32.
pub open spec fn most_precise(v: Seq<(Seq<char>, u64)>, plain: bool) -> Option<int> {
    let n = v.len() as int;
    match largest(v, Precision::Bf16, plain, n) {
        Some(i) => Some(i),
        None => match largest(v, Precision::F16, plain, n) {
            Some(i) => Some(i),
            None => largest(v, Precision::F32, plain, n),
        },
    }
}

/// The file that the model is in. A file that looks like a companion is taken
/// only where there is no other.
pub open spec fn main_file(v: Seq<(Seq<char>, u64)>) -> Option<int> {
    match most_precise(v, true) {
        Some(i) => Some(i),
        None => most_precise(v, false),
    }
}

/// The stem and the count that the names of all shards of a split model share.
pub open spec fn shard_set(path: Seq<char>) -> Option<(Seq<char>, nat)> {
    match shard_parts(path) {
        None => None,
        Some((stem, _, count)) => Some((stem, count)),
    }
}

/// The shards among the first `n` files.
pub open spec fn shards_upto(v: Seq<(Seq<char>, u64)>, set: (Seq<char>, nat), n: int) -> Seq<
    (Seq<char>, u64),
>
    decreases n,
{
    if n <= 0 {
        seq![]
    } else if shard_set(v[n - 1].0) == Some(set) {
        shards_upto(v, set, n - 1).push(v[n - 1])
    } else {
        shards_upto(v, set, n - 1)
    }
}

/// The paths of files.
pub open spec fn paths_of(v: Seq<(Seq<char>, u64)>) -> Seq<Seq<char>> {
    Seq::new(v.len(), |i: int| v[i].0)
}

/// Files in the order of their paths; equal paths keep their order.
pub open spec fn by_path(v: Seq<(Seq<char>, u64)>) -> Seq<(Seq<char>, u64)> {
    Seq::new(v.len(), |i: int| v[order_of(text_ranks(paths_of(v)))[i] as int])
}

/// The files that make up the model.
pub open spec fn model_files(v: Seq<(Seq<char>, u64)>) -> Option<Seq<(Seq<char>, u64)>> {
    match main_file(v) {
        None => None,
        Some(i) => match shard_set(v[i].0) {
            None => Some(seq![v[i]]),
            Some(set) => Some(by_path(shards_upto(v, set, v.len() as int))),
        },
    }
}

/// The size of the first `n` files.
pub open spec fn size_upto(v: Seq<(Seq<char>, u64)>, n: int) -> nat
    decreases n,
{
    if n <= 0 {
        0
    } else {
        size_upto(v, n - 1) + v[n - 1].1 as nat
    }
}

/// The size of files, as far as it can be counted.
pub open spec fn total_of(v: Seq<(Seq<char>, u64)>) -> u64 {
    if size_upto(v, v.len() as int) <= u64::MAX {
        size_upto(v, v.len() as int) as u64
    } else {
        u64::MAX
    }
}

/// The repository has no BF16, F16 or F32 GGUF.
#[derive(Debug, Clone, Copy, PartialEq, Eq, Structural)]
pub struct NoSource;

/// The characters after the last slash.
fn base_of(s: &[char]) -> (r: &[char])
    ensures
        r@ == base_name(s@),
{
    let slash = chars_of("/");
    proof {
        rfind_from_is_last(s@, "/"@, s@.len() - "/"@.len());
    }
    let len: usize = s.len();
    match last_position(s, slash.as_slice()) {
        Some(i) => slice_subrange(s, i + slash.len(), len),
        None => s,
    }
}

fn is_companion(base: &[char]) -> (r: bool)
    ensures
        r == companion(base@),
{
    includes(base, chars_of("mmproj").as_slice()) || includes(base, chars_of("dspark").as_slice())
}

fn is_eligible(path: &str, p: Precision, plain: bool) -> (r: bool)
    ensures
        r == eligible(path@, p, plain),
{
    let own = chars_of(path);
    if !finishes(own.as_slice(), chars_of(".gguf").as_slice()) {
        return false;
    }
    let low = to_lower(path);
    let l = chars_of(low.as_str());
    let base = base_of(l.as_slice());
    if starts(base, chars_of("mmproj").as_slice()) {
        return false;
    }
    if plain && is_companion(base) {
        return false;
    }
    match p {
        Precision::Bf16 => includes(l.as_slice(), chars_of("bf16").as_slice()),
        Precision::F16 => includes(l.as_slice(), chars_of("f16").as_slice()) && !includes(
            l.as_slice(),
            chars_of("bf16").as_slice(),
        ),
        Precision::F32 => includes(l.as_slice(), chars_of("f32").as_slice()),
    }
}

fn find_largest(v: &[(String, u64)], p: Precision, plain: bool) -> (r: Option<usize>)
    ensures
        match (r, largest(file_list(v@), p, plain, v@.len() as int)) {
            (Some(i), Some(j)) => i == j && i < v@.len(),
            (None, None) => true,
            _ => false,
        },
{
    let ghost all = file_list(v@);
    let mut best: Option<usize> = None;
    for i in 0..v.len()
        invariant
            all == file_list(v@),
            match (best, largest(all, p, plain, i as int)) {
                (Some(a), Some(b)) => a == b && a < i,
                (None, None) => true,
                _ => false,
            },
    {
        assert(all[i as int] == (v@[i as int].0@, v@[i as int].1));
        if is_eligible(v[i].0.as_str(), p, plain) {
            let wins: bool = match best {
                Some(b) => {
                    assert(all[b as int].1 == v@[b as int].1);
                    v[i].1 >= v[b].1
                },
                None => true,
            };
            if wins {
                best = Some(i);
            }
        }
    }
    best
}

fn find_most_precise(v: &[(String, u64)], plain: bool) -> (r: Option<usize>)
    ensures
        match (r, most_precise(file_list(v@), plain)) {
            (Some(i), Some(j)) => i == j && i < v@.len(),
            (None, None) => true,
            _ => false,
        },
{
    match find_largest(v, Precision::Bf16, plain) {
        Some(i) => Some(i),
        None => match find_largest(v, Precision::F16, plain) {
            Some(i) => Some(i),
            None => find_largest(v, Precision::F32, plain),
        },
    }
}

fn find_main(v: &[(String, u64)]) -> (r: Option<usize>)
    ensures
        match (r, main_file(file_list(v@))) {
            (Some(i), Some(j)) => i == j && i < v@.len(),
            (None, None) => true,
            _ => false,
        },
{
    match find_most_precise(v, true) {
        Some(i) => Some(i),
        None => find_most_precise(v, false),
    }
}

fn collect_shards(v: &[(String, u64)], stem: &str, count: u64) -> (r: Vec<(String, u64)>)
    ensures
        file_list(r@) == shards_upto(file_list(v@), (stem@, count as nat), v@.len() as int),
{
    let ghost all = file_list(v@);
    let mut r: Vec<(String, u64)> = Vec::new();
    assert(file_list(r@) =~= seq![]);
    for i in 0..v.len()
        invariant
            all == file_list(v@),
            file_list(r@) == shards_upto(all, (stem@, count as nat), i as int),
    {
        assert(all[i as int] == (v@[i as int].0@, v@[i as int].1));
        let is_shard: bool = match parts_of(v[i].0.as_str()) {
            Some((s, _, c)) => same_str(s.as_str(), stem) && c == count,
            None => false,
        };
        if is_shard {
            let ghost before = r@;
            r.push((v[i].0.clone(), v[i].1));
            assert(file_list(r@) =~= file_list(before).push(all[i as int]));
        }
    }
    r
}

fn sort_by_path(v: &Vec<(String, u64)>) -> (r: Vec<(String, u64)>)
    ensures
        file_list(r@) == by_path(file_list(v@)),
{
    let ghost all = file_list(v@);
    let mut names: Vec<Vec<char>> = Vec::new();
    for i in 0..v.len()
        invariant
            names@.len() == i,
            forall|j: int| 0 <= j < i ==> (#[trigger] names@[j])@ == v@[j].0@,
    {
        names.push(chars_of(v[i].0.as_str()));
    }
    assert(Seq::new(names@.len(), |i: int| names@[i]@) =~= paths_of(all));
    let keys = ranks(&names);
    let order = stable_order(keys.as_slice());
    let ghost sorted = by_path(all);
    let mut r: Vec<(String, u64)> = Vec::new();
    for i in 0..order.len()
        invariant
            all == file_list(v@),
            sorted == by_path(all),
            order@ == order_of(text_ranks(paths_of(all))),
            order@.len() == v@.len(),
            forall|j: int| 0 <= j < v@.len() ==> (#[trigger] order@[j]) < v@.len(),
            file_list(r@) == sorted.subrange(0, i as int),
    {
        let k: usize = order[i];
        let ghost before = r@;
        r.push((v[k].0.clone(), v[k].1));
        assert(all[k as int] == (v@[k as int].0@, v@[k as int].1));
        assert(file_list(r@) =~= file_list(before).push(all[k as int]));
        assert(sorted.subrange(0, i + 1) =~= sorted.subrange(0, i as int).push(all[k as int]));
    }
    assert(sorted.subrange(0, v@.len() as int) =~= sorted);
    r
}

fn total_size(v: &Vec<(String, u64)>) -> (r: u64)
    ensures
        r == total_of(file_list(v@)),
{
    let ghost all = file_list(v@);
    let mut total: u64 = 0;
    for i in 0..v.len()
        invariant
            all == file_list(v@),
            total as nat == (if size_upto(all, i as int) <= u64::MAX {
                size_upto(all, i as int)
            } else {
                u64::MAX as nat
            }),
    {
        assert(all[i as int].1 == v@[i as int].1);
        total = if v[i].1 <= u64::MAX - total {
            total + v[i].1
        } else {
            u64::MAX
        };
    }
    total
}

/// The texts of strings.
pub open spec fn names_of(v: Seq<String>) -> Seq<Seq<char>> {
    Seq::new(v.len(), |i: int| v[i]@)
}

/// Chooses which repository files make up the model: the largest BF16 GGUF, then
/// F16, then F32, with every sibling shard, sorted, where the pick is a shard of
/// a split model, `<stem>-<number>-of-<count>.gguf`. Returns the paths and their
/// total size.
pub fn select_model_files(entries: &[(String, u64)]) -> (r: Result<(Vec<String>, u64), NoSource>)
    ensures
        match (r, model_files(file_list(entries@))) {
            (Ok((files, total)), Some(v)) => names_of(files@) == paths_of(v) && total == total_of(
                v,
            ),
            (Err(_), None) => true,
            _ => false,
        },
{
    let ghost all = file_list(entries@);
    let i: usize = match find_main(entries) {
        Some(i) => i,
        None => {
            return Err(NoSource);
        },
    };
    assert(all[i as int] == (entries@[i as int].0@, entries@[i as int].1));
    let files: Vec<(String, u64)> = match parts_of(entries[i].0.as_str()) {
        None => {
            let mut one: Vec<(String, u64)> = Vec::new();
            one.push((entries[i].0.clone(), entries[i].1));
            assert(file_list(one@) =~= seq![all[i as int]]);
            one
        },
        Some((stem, _, count)) => {
            let shards = collect_shards(entries, stem.as_str(), count);
            sort_by_path(&shards)
        },
    };
    let ghost v = file_list(files@);
    let total = total_size(&files);
    let mut names: Vec<String> = Vec::new();
    for k in 0..files.len()
        invariant
            v == file_list(files@),
            names_of(names@) == paths_of(v).subrange(0, k as int),
    {
        let ghost before = names@;
        let s = files[k].0.clone();
        names.push(s);
        assert(v[k as int].0 == s@);
        assert(names_of(names@) =~= names_of(before).push(s@));
        assert(paths_of(v).subrange(0, k + 1) =~= paths_of(v).subrange(0, k as int).push(s@));
    }
    assert(paths_of(v).subrange(0, v.len() as int) =~= paths_of(v));
    Ok((names, total))
}

/// A BF16 source goes before every F16 one, and an F16 source before every F32
/// one: among the plain files, or among all where none is plain.
pub proof fn higher_precision_goes_first(
    v: Seq<(Seq<char>, u64)>,
    i: int,
    p: Precision,
    plain: bool,
)
    requires
        0 <= i < v.len(),
        eligible(v[i].0, p, plain),
        plain || most_precise(v, true) is None,
    ensures
        main_file(v) is Some,
        0 <= main_file(v)->0 < v.len(),
        p == Precision::Bf16 ==> eligible(v[main_file(v)->0].0, Precision::Bf16, plain)
            && v[main_file(v)->0].1 >= v[i].1,
        p == Precision::F16 ==> eligible(v[main_file(v)->0].0, Precision::Bf16, plain) || (
        eligible(v[main_file(v)->0].0, Precision::F16, plain) && v[main_file(v)->0].1 >= v[i].1),
{
    most_precise_facts(v, true);
    most_precise_facts(v, false);
    let n = v.len() as int;
    largest_facts(v, Precision::Bf16, plain, n);
    largest_facts(v, Precision::F16, plain, n);
}

/// The model is found if and only if a file can be it.
pub proof fn a_source_is_found(v: Seq<(Seq<char>, u64)>)
    ensures
        main_file(v) is None <==> (forall|i: int, p: Precision|
            0 <= i < v.len() ==> !#[trigger] source(v[i].0, p)),
        main_file(v) matches Some(i) ==> 0 <= i < v.len() && exists|p: Precision|
            #[trigger] source(v[i].0, p),
{
    most_precise_facts(v, true);
    most_precise_facts(v, false);
    if main_file(v) is None {
        assert forall|i: int, p: Precision| 0 <= i < v.len() implies !#[trigger] source(
            v[i].0,
            p,
        ) by {
            assert(!eligible(v[i].0, p, false));
        }
    }
}

/// A file that rides along with a model is never taken for it where another file
/// can be the model.
pub proof fn companions_are_passed_over(v: Seq<(Seq<char>, u64)>, j: int, p: Precision)
    requires
        0 <= j < v.len(),
        source(v[j].0, p),
        !companion(base_name(lowercase(v[j].0))),
    ensures
        main_file(v) matches Some(i) && 0 <= i < v.len() && !companion(
            base_name(lowercase(v[i].0)),
        ),
{
    most_precise_facts(v, true);
    assert(eligible(v[j].0, p, true));
}

/// The files of a split model come in the order of their paths.
pub proof fn shards_come_in_order(v: Seq<(Seq<char>, u64)>, i: int, j: int)
    requires
        v.len() <= usize::MAX,
        model_files(v) matches Some(f) && 0 <= i < j < f.len(),
    ensures
        !text_before(model_files(v)->0[j].0, model_files(v)->0[i].0),
{
    let m = main_file(v)->0;
    if shard_set(v[m].0) is Some {
        let n = v.len() as int;
        let own = shards_upto(v, shard_set(v[m].0)->0, n);
        shards_are_few(v, shard_set(v[m].0)->0, n);
        let ps = paths_of(own);
        let o = order_of(text_ranks(ps));
        order_is_stable_sort(text_ranks(ps));
        let (a, b) = (o[i] as int, o[j] as int);
        assert(precedes(text_ranks(ps), a, b));
        ranks_order_as_texts(ps, b, a);
    }
}

/// A model of several files is made of shards of one stem and one count, and of
/// every such file of the repository.
pub proof fn shards_belong_together(v: Seq<(Seq<char>, u64)>)
    requires
        v.len() <= usize::MAX,
        main_file(v) matches Some(i) && shard_set(v[i].0) is Some,
    ensures
        ({
            let set = shard_set(v[main_file(v)->0].0);
            let f = model_files(v)->0;
            &&& forall|k: int| 0 <= k < f.len() ==> shard_set((#[trigger] f[k]).0) == set
            &&& forall|j: int|
                0 <= j < v.len() && shard_set((#[trigger] v[j]).0) == set ==> f.contains(v[j])
        }),
{
    let n = v.len() as int;
    let set = shard_set(v[main_file(v)->0].0)->0;
    let own = shards_upto(v, set, n);
    let f = by_path(own);
    shards_are_few(v, set, n);
    shards_are_all(v, set, n);
    let o = order_of(text_ranks(paths_of(own)));
    order_is_stable_sort(text_ranks(paths_of(own)));
    assert forall|k: int| 0 <= k < f.len() implies shard_set((#[trigger] f[k]).0) == Some(set) by {
        assert(f[k] == own[o[k] as int]);
    }
    assert forall|j: int| 0 <= j < n && shard_set((#[trigger] v[j]).0) == Some(
        set,
    ) implies f.contains(v[j]) by {
        let a = choose|a: int| 0 <= a < own.len() && own[a] == v[j];
        assert(o.contains(a as usize));
        let k = choose|k: int| 0 <= k < o.len() && o[k] == a as usize;
        assert(f[k] == v[j]);
    }
}

proof fn shards_are_few(v: Seq<(Seq<char>, u64)>, set: (Seq<char>, nat), n: int)
    requires
        0 <= n,
    ensures
        shards_upto(v, set, n).len() <= n,
    decreases n,
{
    if n > 0 {
        shards_are_few(v, set, n - 1);
    }
}

proof fn shards_are_all(v: Seq<(Seq<char>, u64)>, set: (Seq<char>, nat), n: int)
    requires
        0 <= n <= v.len(),
    ensures
        forall|k: int|
            0 <= k < shards_upto(v, set, n).len() ==> shard_set(
                (#[trigger] shards_upto(v, set, n)[k]).0,
            ) == Some(set),
        forall|j: int|
            0 <= j < n && shard_set((#[trigger] v[j]).0) == Some(set) ==> shards_upto(
                v,
                set,
                n,
            ).contains(v[j]),
    decreases n,
{
    if n > 0 {
        shards_are_all(v, set, n - 1);
        let before = shards_upto(v, set, n - 1);
        let own = shards_upto(v, set, n);
        assert forall|j: int| 0 <= j < n && shard_set((#[trigger] v[j]).0) == Some(
            set,
        ) implies own.contains(v[j]) by {
            if j < n - 1 {
                let k = choose|k: int| 0 <= k < before.len() && before[k] == v[j];
                assert(own[k] == v[j]);
            } else {
                assert(own[own.len() - 1] == v[j]);
            }
        }
    }
}

proof fn largest_facts(v: Seq<(Seq<char>, u64)>, p: Precision, plain: bool, n: int)
    requires
        0 <= n <= v.len(),
    ensures
        largest(v, p, plain, n) matches Some(b) ==> 0 <= b < n && eligible(v[b].0, p, plain) && (
        forall|j: int|
            0 <= j < n && eligible((#[trigger] v[j]).0, p, plain) ==> v[j].1 <= v[b].1),
        largest(v, p, plain, n) is None ==> (forall|j: int|
            0 <= j < n ==> !eligible((#[trigger] v[j]).0, p, plain)),
    decreases n,
{
    if n > 0 {
        largest_facts(v, p, plain, n - 1);
    }
}

proof fn most_precise_facts(v: Seq<(Seq<char>, u64)>, plain: bool)
    ensures
        most_precise(v, plain) matches Some(b) ==> 0 <= b < v.len() && exists|p: Precision|
            #[trigger] eligible(v[b].0, p, plain),
        most_precise(v, plain) is None ==> (forall|j: int, p: Precision|
            0 <= j < v.len() ==> !#[trigger] eligible(v[j].0, p, plain)),
{
    let n = v.len() as int;
    largest_facts(v, Precision::Bf16, plain, n);
    largest_facts(v, Precision::F16, plain, n);
    largest_facts(v, Precision::F32, plain, n);
}

/// A model that is at hand, with an importance matrix if one is known.
#[derive(Debug, PartialEq, Eq)]
pub struct Resolved {
    pub model: String,
    pub imatrix: Option<String>,
}

/// Where a model is to be had.
#[derive(Debug, PartialEq, Eq)]
pub enum Resolution {
    /// It is a file.
    Ready(Resolved),
    /// It is to be downloaded, under the name.
    Url { name: String },
    /// It is in a repository.
    Repo { owner: String, repo: String },
}

/// Why a model cannot be had.
#[derive(Debug, Clone, Copy, PartialEq, Eq, Structural)]
pub enum ResolveError {
    /// The URL ends without a file name.
    NoFileName,
    /// Neither a file, nor a URL, nor a repository id.
    NotFound,
}

/// The text is a URL.
pub open spec fn is_url(s: Seq<char>) -> bool {
    begins(s, "http://"@) || begins(s, "https://"@)
}

/// The owner and the name in a repository id.
pub open spec fn repo_parts(s: Seq<char>) -> Option<(Seq<char>, Seq<char>)> {
    match split_first(s, "/"@) {
        None => None,
        Some((owner, repo)) => if owner.len() > 0 && repo.len() > 0 && !contains_text(repo, "/"@) {
            Some((owner, repo))
        } else {
            None
        },
    }
}

/// Decides where a model is to be had. `present` says whether the text is the path
/// of a file that exists.
pub fn resolve(spec_text: &str, present: bool) -> (r: Result<Resolution, ResolveError>)
    ensures
        if present {
            r matches Ok(Resolution::Ready(m)) && m.model@ == spec_text@ && m.imatrix is None
        } else if is_url(spec_text@) {
            if base_name(spec_text@).len() == 0 {
                r matches Err(e) && e == ResolveError::NoFileName
            } else {
                r matches Ok(Resolution::Url { name }) && name@ == base_name(spec_text@)
            }
        } else {
            match repo_parts(spec_text@) {
                Some((o, n)) => r matches Ok(Resolution::Repo { owner, repo }) && owner@ == o
                    && repo@ == n,
                None => r matches Err(e) && e == ResolveError::NotFound,
            }
        },
{
    if present {
        return Ok(
            Resolution::Ready(Resolved { model: spec_text.to_owned(), imatrix: None }),
        );
    }
    let own = chars_of(spec_text);
    let s = own.as_slice();
    if starts(s, chars_of("http://").as_slice()) || starts(s, chars_of("https://").as_slice()) {
        let base = base_of(s);
        if base.len() == 0 {
            return Err(ResolveError::NoFileName);
        }
        return Ok(Resolution::Url { name: string_of(base) });
    }
    let slash = chars_of("/");
    proof {
        find_from_is_first(s@, "/"@, 0);
    }
    let len: usize = s.len();
    match position(s, slash.as_slice()) {
        None => Err(ResolveError::NotFound),
        Some(i) => {
            let owner = slice_subrange(s, 0, i);
            let repo = slice_subrange(s, i + slash.len(), len);
            if owner.len() > 0 && repo.len() > 0 && !includes(repo, slash.as_slice()) {
                Ok(Resolution::Repo { owner: string_of(owner), repo: string_of(repo) })
            } else {
                Err(ResolveError::NotFound)
            }
        },
    }
}

/// A file to download, and the name it gets.
#[derive(Debug, PartialEq, Eq)]
pub struct Download {
    pub url: String,
    pub name: String,
}

/// Where a repository file is to be had.
pub open spec fn file_url(owner: Seq<char>, repo: Seq<char>, path: Seq<char>) -> Seq<char> {
    "https://huggingface.co/"@ + owner + "/"@ + repo + "/resolve/main/"@ + path
}

/// What to download of a repository.
#[derive(Debug, PartialEq, Eq)]
pub struct RepoPlan {
    /// The files of the model, in order.
    pub files: Vec<Download>,
    /// The size of the files of the model.
    pub total: u64,
    /// The importance matrix that the repository has, if any.
    pub imatrix: Option<Download>,
}

/// The download is of that path, under that name.
pub open spec fn downloads(
    d: Download,
    owner: Seq<char>,
    repo: Seq<char>,
    path: Seq<char>,
    name: Seq<char>,
) -> bool {
    d.url@ == file_url(owner, repo, path) && d.name@ == name
}

/// The first of the files from `i` on that holds an importance matrix.
pub open spec fn imatrix_file(v: Seq<(Seq<char>, u64)>, i: int) -> Option<int>
    decreases v.len() - i,
{
    if i >= v.len() {
        None
    } else if contains_text(lowercase(v[i].0), "imatrix"@) {
        Some(i)
    } else {
        imatrix_file(v, i + 1)
    }
}

fn download_of(owner: &str, repo: &str, path: &str, name: String) -> (r: Download)
    ensures
        downloads(r, owner@, repo@, path@, name@),
{
    let mut url = String::new();
    push_text(&mut url, "https://huggingface.co/");
    push_text(&mut url, owner);
    push_text(&mut url, "/");
    push_text(&mut url, repo);
    push_text(&mut url, "/resolve/main/");
    push_text(&mut url, path);
    assert(url@ =~= file_url(owner@, repo@, path@));
    Download { url, name }
}

fn find_imatrix(entries: &[(String, u64)]) -> (r: Option<usize>)
    ensures
        match (r, imatrix_file(file_list(entries@), 0)) {
            (Some(i), Some(j)) => i == j && i < entries@.len(),
            (None, None) => true,
            _ => false,
        },
{
    let ghost all = file_list(entries@);
    let mark = chars_of("imatrix");
    for i in 0..entries.len()
        invariant
            all == file_list(entries@),
            mark@ == "imatrix"@,
            imatrix_file(all, 0) == imatrix_file(all, i as int),
    {
        assert(all[i as int].0 == entries@[i as int].0@);
        let low = to_lower(entries[i].0.as_str());
        let l = chars_of(low.as_str());
        if includes(l.as_slice(), mark.as_slice()) {
            return Some(i);
        }
    }
    None
}

/// Plans what to download of a repository: the files of the model, each under the
/// last part of its path, and the importance matrix under its path.
pub fn plan_repo(owner: &str, repo: &str, entries: &[(String, u64)]) -> (r: Result<
    RepoPlan,
    NoSource,
>)
    ensures
        match (r, model_files(file_list(entries@))) {
            (Ok(p), Some(v)) => {
                &&& p.files@.len() == v.len()
                &&& forall|i: int|
                    0 <= i < v.len() ==> downloads(
                        #[trigger] p.files@[i],
                        owner@,
                        repo@,
                        v[i].0,
                        base_name(v[i].0),
                    )
                &&& p.total == total_of(v)
                &&& match (p.imatrix, imatrix_file(file_list(entries@), 0)) {
                    (Some(d), Some(i)) => downloads(
                        d,
                        owner@,
                        repo@,
                        entries@[i].0@,
                        entries@[i].0@,
                    ),
                    (None, None) => true,
                    _ => false,
                }
            },
            (Err(_), None) => true,
            _ => false,
        },
{
    let ghost all = file_list(entries@);
    let (names, total) = select_model_files(entries)?;
    let ghost v = model_files(all)->0;
    assert(names_of(names@).len() == paths_of(v).len());
    let mut files: Vec<Download> = Vec::new();
    for i in 0..names.len()
        invariant
            names_of(names@) == paths_of(v),
            names@.len() == v.len(),
            files@.len() == i,
            forall|j: int|
                0 <= j < i ==> downloads(
                    #[trigger] files@[j],
                    owner@,
                    repo@,
                    v[j].0,
                    base_name(v[j].0),
                ),
    {
        assert(names_of(names@)[i as int] == names@[i as int]@);
        assert(paths_of(v)[i as int] == v[i as int].0);
        let own = chars_of(names[i].as_str());
        let base = string_of(base_of(own.as_slice()));
        files.push(download_of(owner, repo, names[i].as_str(), base));
    }
    let imatrix: Option<Download> = match find_imatrix(entries) {
        Some(i) => Some(download_of(owner, repo, entries[i].0.as_str(), entries[i].0.clone())),
        None => None,
    };
    Ok(RepoPlan { files, total, imatrix })
}

/// A model leaves room on the GPU to measure an importance matrix with it.
pub open spec fn leaves_room(model_bytes: u64, vram: Option<u64>) -> bool {
    vram matches Some(v) && model_bytes < v as nat * 4 / 5
}

/// Whether a model leaves room on the GPU to measure an importance matrix with
/// it: it takes less than four fifths of the memory.
pub fn affords_imatrix(model_bytes: u64, vram: Option<u64>) -> (r: bool)
    ensures
        r == leaves_room(model_bytes, vram),
        r == (vram matches Some(v) && model_bytes < v as nat * 4 / 5),
{
    match vram {
        Some(v) => (model_bytes as u128) < v as u128 * 4 / 5,
        None => false,
    }
}

/// A model leaves room if five times its size, and five bytes more, are at most four
/// times the memory. Without a GPU there is none.
pub proof fn room_is_a_fifth_of_the_memory(model_bytes: u64, vram: u64)
    ensures
        leaves_room(model_bytes, Some(vram)) <==> 5 * (model_bytes + 1) <= 4 * vram,
        !leaves_room(model_bytes, None),
{
}

/// The last part of a path is what stands behind its last slash, and the path where it
/// has none.
pub proof fn base_names_stand_behind_the_last_slash(d: Seq<char>, b: Seq<char>)
    requires
        forall|i: int| 0 <= i < b.len() ==> #[trigger] b[i] != '/',
    ensures
        base_name(d + seq!['/'] + b) == b,
        base_name(b) == b,
{
    reveal_strlit("/");
    let s = d + seq!['/'] + b;
    let p = "/"@;
    assert(p =~= seq!['/']);
    let n = d.len() as int;
    assert(s.subrange(n, n + 1) =~= p);
    assert(occurs_at(s, p, n));
    rfind_from_is_last(s, p, s.len() - 1);
    let k = rfind(s, p)->0;
    if k > n {
        assert(s.subrange(k, k + 1)[0] == s[k]);
        assert(s[k] == b[k - n - 1]);
    }
    assert(s.subrange(n + 1, s.len() as int) =~= b);
    rfind_from_is_last(b, p, b.len() - 1);
    if let Some(j) = rfind(b, p) {
        assert(b.subrange(j, j + 1)[0] == b[j]);
    }
}

/// Which files can be the model: their name ends in `.gguf`, the last part of their
/// path does not begin with `mmproj`, and the path names the precision. Letter case
/// does not matter for the last two. A path that names BF16 does not stand for F16.
pub proof fn sources_are_known_by_their_names(path: Seq<char>, l: Seq<char>)
    requires
        l == lowercase(path),
        path.len() >= 5,
        path.subrange(path.len() - 5, path.len() as int) == ".gguf"@,
    ensures
        ({
            let plain = !begins(base_name(l), "mmproj"@);
            &&& source(path, Precision::Bf16) <==> plain && contains_text(l, "bf16"@)
            &&& source(path, Precision::F16) <==> plain && contains_text(l, "f16"@) && !source(
                path,
                Precision::Bf16,
            )
            &&& source(path, Precision::F32) <==> plain && contains_text(l, "f32"@)
        }),
{
    reveal_strlit(".gguf");
}

/// A file whose name does not end in `.gguf` cannot be the model.
pub proof fn other_files_are_no_sources(path: Seq<char>, p: Precision)
    requires
        path.len() < 5 || path.subrange(path.len() - 5, path.len() as int) != ".gguf"@,
    ensures
        !source(path, p),
{
    reveal_strlit(".gguf");
}

/// The largest file that can be the model is taken, and the last of them where several
/// are equally large.
pub proof fn the_largest_source_is_taken(
    v: Seq<(Seq<char>, u64)>,
    p: Precision,
    plain: bool,
    n: int,
    j: int,
)
    requires
        0 <= j < n <= v.len(),
        eligible(v[j].0, p, plain),
    ensures
        largest(v, p, plain, n) matches Some(b) && 0 <= b < n && eligible(v[b].0, p, plain) && (
        v[j].1 < v[b].1 || (v[j].1 == v[b].1 && j <= b)),
    decreases n,
{
    if j < n - 1 {
        the_largest_source_is_taken(v, p, plain, n - 1, j);
    } else {
        largest_facts(v, p, plain, n - 1);
    }
}

/// A file that a lower precision names is taken only where no file of a higher
/// precision can be.
pub proof fn lower_precision_goes_last(v: Seq<(Seq<char>, u64)>, plain: bool, i: int)
    requires
        most_precise(v, plain) == Some(i),
    ensures
        0 <= i < v.len(),
        eligible(v[i].0, Precision::Bf16, plain) || (forall|j: int|
            0 <= j < v.len() ==> !eligible((#[trigger] v[j]).0, Precision::Bf16, plain)),
        eligible(v[i].0, Precision::Bf16, plain) || eligible(v[i].0, Precision::F16, plain) || (
        forall|j: int|
            0 <= j < v.len() ==> !eligible((#[trigger] v[j]).0, Precision::F16, plain) && (
            eligible(v[j].0, Precision::F32, plain) ==> v[j].1 <= v[i].1)),
{
    let n = v.len() as int;
    largest_facts(v, Precision::Bf16, plain, n);
    largest_facts(v, Precision::F16, plain, n);
    largest_facts(v, Precision::F32, plain, n);
}

/// Where the model is one file, that file is all.
pub proof fn a_single_file_is_the_model(v: Seq<(Seq<char>, u64)>, i: int)
    requires
        main_file(v) == Some(i),
        shard_parts(v[i].0) is None,
    ensures
        model_files(v) == Some(seq![v[i]]),
{
}

proof fn shards_are_filtered(v: Seq<(Seq<char>, u64)>, set: (Seq<char>, nat), n: int)
    requires
        0 <= n <= v.len(),
    ensures
        shards_upto(v, set, n) == v.take(n).filter(
            |e: (Seq<char>, u64)| shard_set(e.0) == Some(set),
        ),
    decreases n,
{
    let f = |e: (Seq<char>, u64)| shard_set(e.0) == Some(set);
    reveal(Seq::filter);
    if n > 0 {
        shards_are_filtered(v, set, n - 1);
        assert(v.take(n).drop_last() =~= v.take(n - 1));
        assert(v.take(n).last() == v[n - 1]);
    }
}

/// A split model has as many files as the repository has shards of its stem and count.
pub proof fn no_shard_is_left_out(v: Seq<(Seq<char>, u64)>, i: int, stem: Seq<char>, k: nat, c: nat)
    requires
        v.len() <= usize::MAX,
        main_file(v) == Some(i),
        shard_parts(v[i].0) == Some((stem, k, c)),
    ensures
        model_files(v) matches Some(f) && f.len() == v.filter(
            |e: (Seq<char>, u64)| (shard_parts(e.0) matches Some(q) && q.0 == stem && q.2 == c),
        ).len(),
{
    let n = v.len() as int;
    let set = (stem, c);
    shards_are_filtered(v, set, n);
    assert(v.take(n) =~= v);
    let f = |e: (Seq<char>, u64)| shard_set(e.0) == Some(set);
    let g = |e: (Seq<char>, u64)| (shard_parts(e.0) matches Some(q) && q.0 == stem && q.2 == c);
    assert forall|e: (Seq<char>, u64)| #[trigger] f(e) == g(e) by {}
    assert(f =~= g);
}

/// The size of files is the sum of their sizes, and the largest number where the sum
/// exceeds it.
pub proof fn file_sizes_add_up(v: Seq<(Seq<char>, u64)>)
    ensures
        ({
            let sum = v.fold_left(0int, |n: int, f: (Seq<char>, u64)| n + f.1);
            &&& sum <= 0xffff_ffff_ffff_ffff ==> total_of(v) == sum
            &&& sum > 0xffff_ffff_ffff_ffff ==> total_of(v) == 0xffff_ffff_ffff_ffff
        }),
{
    sizes_are_folded(v, v.len() as int);
    assert(v.take(v.len() as int) =~= v);
}

proof fn sizes_are_folded(v: Seq<(Seq<char>, u64)>, n: int)
    requires
        0 <= n <= v.len(),
    ensures
        size_upto(v, n) == v.take(n).fold_left(0int, |n: int, f: (Seq<char>, u64)| n + f.1),
    decreases n,
{
    reveal_with_fuel(Seq::fold_left, 2);
    if n > 0 {
        sizes_are_folded(v, n - 1);
        assert(v.take(n).drop_last() =~= v.take(n - 1));
    }
}

/// A text is a URL if it begins with `http://` or `https://`.
pub proof fn urls_begin_with_a_scheme(s: Seq<char>)
    ensures
        is_url("http://"@ + s),
        is_url("https://"@ + s),
        is_url(s) ==> (s.len() >= 7 && s.subrange(0, 7) == "http://"@) || (s.len() >= 8
            && s.subrange(0, 8) == "https://"@),
{
    reveal_strlit("http://");
    reveal_strlit("https://");
    assert(("http://"@ + s).subrange(0, 7) =~= "http://"@);
    assert(("https://"@ + s).subrange(0, 8) =~= "https://"@);
}

proof fn no_slash_is_found(s: Seq<char>)
    ensures
        contains_text(s, "/"@) <==> !(forall|i: int| 0 <= i < s.len() ==> #[trigger] s[i] != '/'),
        crate::text::find(s, "/"@) is None <==> !contains_text(s, "/"@),
        "/"@.len() == 1,
{
    reveal_strlit("/");
    let p = "/"@;
    find_from_is_first(s, p, 0);
    if contains_text(s, p) {
        let j = choose|j: int| occurs_at(s, p, j);
        assert(s.subrange(j, j + 1)[0] == s[j]);
        assert(s[j] == '/');
    }
    assert forall|j: int| 0 <= j < s.len() && #[trigger] s[j] == '/' implies contains_text(
        s,
        p,
    ) by {
        assert(s.subrange(j, j + 1) =~= p);
        assert(occurs_at(s, p, j));
    }
}

proof fn first_slash(a: Seq<char>, b: Seq<char>)
    requires
        forall|i: int| 0 <= i < a.len() ==> #[trigger] a[i] != '/',
    ensures
        crate::text::find(a + seq!['/'] + b, "/"@) == Some(a.len() as int),
{
    reveal_strlit("/");
    let p = "/"@;
    let s = a + seq!['/'] + b;
    let n = a.len() as int;
    assert(s.subrange(n, n + 1) =~= p);
    assert(occurs_at(s, p, n));
    find_from_is_first(s, p, 0);
    let k = crate::text::find(s, p)->0;
    if k < n {
        assert(s.subrange(k, k + 1)[0] == s[k]);
        assert(s[k] == a[k]);
    }
}

/// A repository id is an owner and a name with one slash between them, neither empty.
pub proof fn repository_ids_have_one_slash(owner: Seq<char>, repo: Seq<char>)
    requires
        forall|i: int| 0 <= i < owner.len() ==> #[trigger] owner[i] != '/',
    ensures
        repo_parts(owner) is None,
        repo_parts(owner + seq!['/'] + repo) == (if owner.len() > 0 && repo.len() > 0 && (forall|
            i: int,
        |
            0 <= i < repo.len() ==> #[trigger] repo[i] != '/') {
            Some((owner, repo))
        } else {
            None
        }),
{
    no_slash_is_found(owner);
    no_slash_is_found(repo);
    first_slash(owner, repo);
    let s = owner + seq!['/'] + repo;
    let n = owner.len() as int;
    assert(s.subrange(0, n) =~= owner);
    assert(s.subrange(n + 1, s.len() as int) =~= repo);
}

/// A repository file is had under its repository: the address names the owner, then
/// the repository, and ends with the path.
pub proof fn file_addresses_end_with_the_path(
    owner: Seq<char>,
    repo: Seq<char>,
    path: Seq<char>,
)
    ensures
        ({
            let u = file_url(owner, repo, path);
            let head = "https://huggingface.co/"@ + owner + seq!['/'] + repo;
            let tail = "/resolve/main/"@ + path;
            &&& u.len() == head.len() + tail.len()
            &&& u.subrange(0, head.len() as int) == head
            &&& u.subrange(head.len() as int, u.len() as int) == tail
        }),
{
    reveal_strlit("/");
    assert("/"@ =~= seq!['/']);
    let head = "https://huggingface.co/"@ + owner + seq!['/'] + repo;
    let tail = "/resolve/main/"@ + path;
    let u = file_url(owner, repo, path);
    assert(u =~= head + tail);
    assert(u.subrange(0, head.len() as int) =~= head);
    assert(u.subrange(head.len() as int, u.len() as int) =~= tail);
}

/// The importance matrix is the first file whose path holds `imatrix`, in whatever
/// letter case.
pub proof fn the_first_matrix_is_taken(v: Seq<(Seq<char>, u64)>, i: int, j: int)
    requires
        0 <= i <= j < v.len(),
        contains_text(lowercase(v[j].0), "imatrix"@),
    ensures
        imatrix_file(v, i) matches Some(k) && i <= k <= j && contains_text(
            lowercase(v[k].0),
            "imatrix"@,
        ),
    decreases v.len() - i,
{
    if !contains_text(lowercase(v[i].0), "imatrix"@) {
        the_first_matrix_is_taken(v, i + 1, j);
    }
}

/// Without a file whose path holds `imatrix` there is no importance matrix.
pub proof fn without_a_matrix_none_is_taken(v: Seq<(Seq<char>, u64)>, i: int)
    requires
        0 <= i,
        forall|j: int|
            i <= j < v.len() ==> !contains_text(lowercase((#[trigger] v[j]).0), "imatrix"@),
    ensures
        imatrix_file(v, i) is None,
    decreases v.len() - i,
{
    if i < v.len() {
        without_a_matrix_none_is_taken(v, i + 1);
    }
}

/// A projector or a drafter is known by its name.
pub proof fn companions_are_known_by_their_names(a: Seq<char>, b: Seq<char>)
    ensures
        companion(a + "mmproj"@ + b),
        companion(a + "dspark"@ + b),
        companion(a) ==> contains_text(a, "mmproj"@) || contains_text(a, "dspark"@),
{
    crate::text_laws::standing_texts_are_found(a, "mmproj"@, b);
    crate::text_laws::standing_texts_are_found(a, "dspark"@, b);
}

/// The letters A to Z of an ASCII text are put in lower case.
pub proof fn ascii_is_put_in_lower_case(s: Seq<char>, i: int)
    requires
        is_ascii_chars(s),
        0 <= i < s.len(),
    ensures
        lowercase(s).len() == s.len(),
        lowercase(s)[i] as int == (if 65 <= s[i] as int <= 90 {
            s[i] as int + 32
        } else {
            s[i] as int
        }),
{
}

/// A download has the address of its path, and its name.
pub proof fn downloads_have_address_and_name(
    d: Download,
    owner: Seq<char>,
    repo: Seq<char>,
    path: Seq<char>,
    name: Seq<char>,
)
    ensures
        downloads(d, owner, repo, path, name) <==> d.name@ == name && d.url@
            == "https://huggingface.co/"@ + owner + seq!['/'] + repo + ("/resolve/main/"@ + path),
{
    reveal_strlit("/");
    assert("/"@ =~= seq!['/']);
    assert(file_url(owner, repo, path) =~= "https://huggingface.co/"@ + owner + seq!['/'] + repo + (
    "/resolve/main/"@ + path));
}

} // verus!
