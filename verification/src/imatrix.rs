//! Importance matrices: the legacy binary format and the GGUF-based format.
//!
//! Both hold, per tensor name, sums of squared activations per column, as the
//! bits of single-precision numbers, and what the sums are to be divided by.

use vstd::prelude::*;
use vstd::slice::*;

use crate::gguf::{file_of, lossy_string, read, text_of, FileSpec, GgufError, GgufFile, TensorSpec};
use crate::le::{le_value, u32_of};
use crate::text::{chars_of, ends, finishes, same, string_of, without_suffix};

verus! {

/// Why an importance matrix was not taken.
#[derive(Debug, Clone, Copy, PartialEq, Eq, Structural)]
pub enum ImatrixError {
    /// The file ends within a number that begins at the position.
    Truncated { at: usize },
    /// The number of entries is negative or a million or more.
    ImplausibleCount { count: i32 },
    /// The file ends within the name of the entry.
    TruncatedName { entry: usize },
    /// The file ends within the values of the entry.
    TruncatedValues { entry: usize },
    /// The file cannot be read as GGUF.
    Gguf { error: GgufError },
    /// The file does not hold the data of the tensor.
    MissingData { tensor: usize },
    /// There is no tensor of sums.
    NoSums,
}

/// What the sums of an entry are divided by.
#[derive(Debug, PartialEq, Eq)]
pub enum Divisor {
    /// The number of calls, if it is positive.
    Calls(i32),
    /// The bits of the counts, each for a run of sums.
    Counts(Vec<u32>),
}

/// One tensor's sums.
#[derive(Debug, PartialEq, Eq)]
pub struct Entry {
    pub name: String,
    /// The bits of the sums per column.
    pub sums: Vec<u32>,
    pub divisor: Divisor,
}

/// What a divisor is.
pub ghost enum DivisorSpec {
    Calls(i32),
    Counts(Seq<u32>),
}

/// What an entry is.
pub ghost struct EntrySpec {
    pub name: Seq<char>,
    pub sums: Seq<u32>,
    pub divisor: DivisorSpec,
}

impl View for Entry {
    type V = EntrySpec;

    open spec fn view(&self) -> EntrySpec {
        EntrySpec {
            name: self.name@,
            sums: self.sums@,
            divisor: match self.divisor {
                Divisor::Calls(n) => DivisorSpec::Calls(n),
                Divisor::Counts(c) => DivisorSpec::Counts(c@),
            },
        }
    }
}

/// What entries are.
pub open spec fn entry_views(v: Seq<Entry>) -> Seq<EntrySpec> {
    Seq::new(v.len(), |i: int| v[i]@)
}

/// The 32-bit words in `b`, as far as they are whole.
pub open spec fn words_in(b: Seq<u8>) -> Seq<u32> {
    Seq::new(b.len() / 4, |i: int| le_value(b.subrange(4 * i, 4 * i + 4)) as u32)
}

/// The signed number at `pos`.
pub open spec fn i32_at(b: Seq<u8>, pos: int) -> Result<i32, ImatrixError> {
    if pos + 4 <= b.len() {
        Ok((le_value(b.subrange(pos, pos + 4)) as u32) as i32)
    } else {
        Err(ImatrixError::Truncated { at: pos as usize })
    }
}

/// The legacy entry at `pos`, and the position behind it.
pub open spec fn legacy_entry_at(b: Seq<u8>, pos: int, entry: int) -> Result<
    (EntrySpec, int),
    ImatrixError,
> {
    match i32_at(b, pos) {
        Err(e) => Err(e),
        Ok(len) => if len < 0 || pos + 4 + len > b.len() {
            Err(ImatrixError::TruncatedName { entry: entry as usize })
        } else {
            let p = pos + 4 + len;
            match (i32_at(b, p), i32_at(b, p + 4)) {
                (Err(e), _) => Err(e),
                (_, Err(e)) => Err(e),
                (Ok(calls), Ok(n)) => if n < 0 || p + 8 + 4 * n > b.len() {
                    Err(ImatrixError::TruncatedValues { entry: entry as usize })
                } else {
                    Ok(
                        (
                            EntrySpec {
                                name: text_of(b.subrange(pos + 4, p)),
                                sums: words_in(b.subrange(p + 8, p + 8 + 4 * n)),
                                divisor: DivisorSpec::Calls(calls),
                            },
                            p + 8 + 4 * n,
                        ),
                    )
                },
            }
        },
    }
}

/// The `n` legacy entries from `pos` on.
pub open spec fn legacy_entries_at(b: Seq<u8>, pos: int, entry: int, n: nat) -> Result<
    Seq<EntrySpec>,
    ImatrixError,
>
    decreases n,
{
    if n == 0 {
        Ok(seq![])
    } else {
        match legacy_entry_at(b, pos, entry) {
            Err(e) => Err(e),
            Ok((x, p)) => match legacy_entries_at(b, p, entry + 1, (n - 1) as nat) {
                Err(e) => Err(e),
                Ok(rest) => Ok(seq![x] + rest),
            },
        }
    }
}

/// The entries of a file in the legacy format: their number, and each with the
/// length of its name, its name, its number of calls, its number of values, and
/// its values.
pub open spec fn legacy_of(b: Seq<u8>) -> Result<Seq<EntrySpec>, ImatrixError> {
    match i32_at(b, 0) {
        Err(e) => Err(e),
        Ok(n) => if n < 0 || n >= 1_000_000 {
            Err(ImatrixError::ImplausibleCount { count: n })
        } else {
            legacy_entries_at(b, 4, 0, n as nat)
        },
    }
}

fn words_of(b: &[u8]) -> (r: Vec<u32>)
    ensures
        r@ == words_in(b@),
{
    let ghost all = words_in(b@);
    let n: usize = b.len() / 4;
    let mut r: Vec<u32> = Vec::new();
    for i in 0..n
        invariant
            n == b@.len() / 4,
            b@.len() <= usize::MAX,
            all == words_in(b@),
            r@ == all.subrange(0, i as int),
    {
        let x = u32_of(slice_subrange(b, 4 * i, 4 * i + 4));
        r.push(x);
        assert(all.subrange(0, i + 1) =~= all.subrange(0, i as int).push(x));
    }
    assert(all.subrange(0, n as int) =~= all);
    r
}

fn read_i32(b: &[u8], pos: usize) -> (r: Result<i32, ImatrixError>)
    ensures
        r == i32_at(b@, pos as int),
{
    let len: usize = b.len();
    if len < 4 || pos > len - 4 {
        return Err(ImatrixError::Truncated { at: pos });
    }
    Ok(u32_of(slice_subrange(b, pos, pos + 4)) as i32)
}

fn read_legacy_entry(b: &[u8], pos: usize, entry: usize) -> (r: Result<
    (Entry, usize),
    ImatrixError,
>)
    requires
        pos <= b@.len(),
    ensures
        match (r, legacy_entry_at(b@, pos as int, entry as int)) {
            (Ok(x), Ok(y)) => x.0@ == y.0 && x.1 == y.1 && x.1 <= b@.len(),
            (Err(e), Err(f)) => e == f,
            _ => false,
        },
{
    let total: usize = b.len();
    let len: i32 = read_i32(b, pos)?;
    if len < 0 || len as usize > total - pos - 4 {
        return Err(ImatrixError::TruncatedName { entry });
    }
    let p: usize = pos + 4 + len as usize;
    let name = lossy_string(slice_subrange(b, pos + 4, p));
    let calls: i32 = read_i32(b, p)?;
    let n: i32 = read_i32(b, p + 4)?;
    if n < 0 || n as usize > (total - p - 8) / 4 {
        return Err(ImatrixError::TruncatedValues { entry });
    }
    let end: usize = p + 8 + 4 * (n as usize);
    let sums = words_of(slice_subrange(b, p + 8, end));
    Ok((Entry { name, sums, divisor: Divisor::Calls(calls) }, end))
}

/// Reads a file in the legacy format.
pub fn load_legacy(b: &[u8]) -> (r: Result<Vec<Entry>, ImatrixError>)
    ensures
        match (r, legacy_of(b@)) {
            (Ok(v), Ok(w)) => entry_views(v@) == w,
            (Err(e), Err(f)) => e == f,
            _ => false,
        },
{
    let count: i32 = read_i32(b, 0)?;
    if count < 0 || count >= 1_000_000 {
        return Err(ImatrixError::ImplausibleCount { count });
    }
    let n: usize = count as usize;
    let mut pos: usize = 4;
    let mut out: Vec<Entry> = Vec::new();
    let ghost whole = legacy_entries_at(b@, 4, 0, n as nat);
    assert(entry_views(out@) =~= seq![]);
    let mut i: usize = 0;
    proof {
        match whole {
            Ok(w) => {
                assert(entry_views(out@) + w =~= w);
            },
            Err(_) => {},
        }
    }
    while i < n
        invariant
            i <= n,
            n == count as nat,
            0 <= count < 1_000_000,
            i32_at(b@, 0) == Ok::<i32, ImatrixError>(count),
            pos <= b@.len(),
            whole == legacy_entries_at(b@, 4, 0, n as nat),
            match legacy_entries_at(b@, pos as int, i as int, (n - i) as nat) {
                Err(e) => whole == Err::<Seq<EntrySpec>, ImatrixError>(e),
                Ok(rest) => whole == Ok::<Seq<EntrySpec>, ImatrixError>(
                    entry_views(out@) + rest,
                ),
            },
        decreases n - i,
    {
        let ghost before = out@;
        let (x, p) = read_legacy_entry(b, pos, i)?;
        out.push(x);
        proof {
            match legacy_entries_at(b@, p as int, i + 1, (n - i - 1) as nat) {
                Ok(rest) => {
                    assert(entry_views(before) + (seq![x@] + rest) =~= entry_views(out@) + rest);
                },
                Err(_) => {},
            }
        }
        pos = p;
        i += 1;
    }
    assert(entry_views(out@) + seq![] =~= entry_views(out@));
    Ok(out)
}

/// The bytes of a tensor's data in a file.
pub open spec fn data_in(f: FileSpec, b: Seq<u8>, t: TensorSpec) -> Option<Seq<u8>> {
    if t.sized() && f.data_start + t.offset + t.size() <= b.len() {
        Some(
            b.subrange(
                (f.data_start + t.offset) as int,
                (f.data_start + t.offset + t.size()) as int,
            ),
        )
    } else {
        None
    }
}

/// The first of the tensors from `i` on whose data the file does not hold.
pub open spec fn first_missing(f: FileSpec, b: Seq<u8>, i: int) -> Option<int>
    decreases f.tensors.len() - i,
{
    if i >= f.tensors.len() {
        None
    } else if data_in(f, b, f.tensors[i]) is None {
        Some(i)
    } else {
        first_missing(f, b, i + 1)
    }
}

/// The words in the last of the first `n` tensors that is named `name`.
pub open spec fn last_words(f: FileSpec, b: Seq<u8>, name: Seq<char>, n: int) -> Option<Seq<u32>>
    decreases n,
{
    if n <= 0 {
        None
    } else if f.tensors[n - 1].name == name {
        Some(words_in(data_in(f, b, f.tensors[n - 1])->0))
    } else {
        last_words(f, b, name, n - 1)
    }
}

/// The counts that belong to the sums of `name`: none, where no tensor holds any.
pub open spec fn counts_for(f: FileSpec, b: Seq<u8>, name: Seq<char>) -> Seq<u32> {
    match last_words(f, b, name + ".counts"@, f.tensors.len() as int) {
        Some(c) => c,
        None => seq![],
    }
}

/// The entries of the sums among the first `n` tensors, in their order.
pub open spec fn sums_upto(f: FileSpec, b: Seq<u8>, n: int) -> Seq<EntrySpec>
    decreases n,
{
    if n <= 0 {
        seq![]
    } else {
        let t = f.tensors[n - 1];
        match without_suffix(t.name, ".in_sum2"@) {
            Some(name) => sums_upto(f, b, n - 1).push(
                EntrySpec {
                    name,
                    sums: words_in(data_in(f, b, t)->0),
                    divisor: DivisorSpec::Counts(counts_for(f, b, name)),
                },
            ),
            None => sums_upto(f, b, n - 1),
        }
    }
}

/// The entries of a GGUF file with the tensors `<name>.in_sum2` and
/// `<name>.counts`.
pub open spec fn gguf_entries_of(b: Seq<u8>) -> Result<Seq<EntrySpec>, ImatrixError> {
    match file_of(b) {
        Err(error) => Err(ImatrixError::Gguf { error }),
        Ok(f) => match first_missing(f, b, 0) {
            Some(i) => Err(ImatrixError::MissingData { tensor: i as usize }),
            None => {
                let v = sums_upto(f, b, f.tensors.len() as int);
                if v.len() == 0 {
                    Err(ImatrixError::NoSums)
                } else {
                    Ok(v)
                }
            },
        },
    }
}

proof fn none_missing(f: FileSpec, b: Seq<u8>, i: int)
    requires
        first_missing(f, b, i) is None,
        0 <= i,
    ensures
        forall|j: int|
            i <= j < f.tensors.len() ==> data_in(f, b, #[trigger] f.tensors[j]) is Some,
    decreases f.tensors.len() - i,
{
    if i < f.tensors.len() {
        none_missing(f, b, i + 1);
    }
}

/// The words of the last tensor of that name.
fn words_named(f: &GgufFile, b: &[u8], name: &[char]) -> (r: Vec<u32>)
    requires
        first_missing(f@, b@, 0) is None,
    ensures
        r@ == (match last_words(f@, b@, name@, f@.tensors.len() as int) {
            Some(c) => c,
            None => seq![],
        }),
{
    proof {
        none_missing(f@, b@, 0);
    }
    let mut n: usize = f.tensors.len();
    while n > 0
        invariant
            n <= f.tensors@.len(),
            forall|j: int|
                0 <= j < f@.tensors.len() ==> data_in(f@, b@, #[trigger] f@.tensors[j]) is Some,
            last_words(f@, b@, name@, f@.tensors.len() as int) == last_words(
                f@,
                b@,
                name@,
                n as int,
            ),
        decreases n,
    {
        let t = &f.tensors[n - 1];
        assert(f@.tensors[n - 1] == t@);
        let own = chars_of(t.name.as_str());
        if same(own.as_slice(), name) {
            assert(own@ =~= name@);
            return words_of(f.tensor_data(b, t));
        }
        n -= 1;
    }
    Vec::new()
}

/// Reads a file in the GGUF-based format.
pub fn load_gguf(b: &[u8]) -> (r: Result<Vec<Entry>, ImatrixError>)
    ensures
        match (r, gguf_entries_of(b@)) {
            (Ok(v), Ok(w)) => entry_views(v@) == w,
            (Err(e), Err(f)) => e == f,
            _ => false,
        },
{
    let f = match read(b) {
        Ok(f) => f,
        Err(error) => {
            return Err(ImatrixError::Gguf { error });
        },
    };
    let ghost fs = f@;
    let mut i: usize = 0;
    while i < f.tensors.len()
        invariant
            i <= f.tensors@.len(),
            fs == f@,
            file_of(b@) == Ok::<FileSpec, GgufError>(fs),
            first_missing(fs, b@, 0) == first_missing(fs, b@, i as int),
        decreases f.tensors@.len() - i,
    {
        assert(fs.tensors[i as int] == f.tensors@[i as int]@);
        if f.checked_tensor_data(b, &f.tensors[i]).is_none() {
            return Err(ImatrixError::MissingData { tensor: i });
        }
        i += 1;
    }
    proof {
        none_missing(fs, b@, 0);
    }
    let mut out: Vec<Entry> = Vec::new();
    assert(entry_views(out@) =~= seq![]);
    let suffix = chars_of(".in_sum2");
    let counts = chars_of(".counts");
    for k in 0..f.tensors.len()
        invariant
            fs == f@,
            suffix@ == ".in_sum2"@,
            counts@ == ".counts"@,
            first_missing(fs, b@, 0) is None,
            forall|j: int|
                0 <= j < fs.tensors.len() ==> data_in(fs, b@, #[trigger] fs.tensors[j]) is Some,
            entry_views(out@) == sums_upto(fs, b@, k as int),
    {
        let t = &f.tensors[k];
        assert(fs.tensors[k as int] == t@);
        let own = chars_of(t.name.as_str());
        if finishes(own.as_slice(), suffix.as_slice()) {
            let base = slice_subrange(own.as_slice(), 0, own.len() - suffix.len());
            let mut full: Vec<char> = Vec::new();
            full.extend_from_slice(base);
            full.extend_from_slice(counts.as_slice());
            assert(full@ =~= base@ + ".counts"@);
            let sums = words_of(f.tensor_data(b, t));
            let cs = words_named(&f, b, full.as_slice());
            let ghost before = out@;
            let x = Entry { name: string_of(base), sums, divisor: Divisor::Counts(cs) };
            out.push(x);
            assert(entry_views(out@) =~= entry_views(before).push(x@));
        }
    }
    if out.len() == 0 {
        return Err(ImatrixError::NoSums);
    }
    Ok(out)
}

/// The file begins as a GGUF file does.
pub open spec fn is_gguf(b: Seq<u8>) -> bool {
    b.len() >= 4 && b[0] == 0x47 && b[1] == 0x47 && b[2] == 0x55 && b[3] == 0x46
}

/// Reads a file in either format.
pub fn load(b: &[u8]) -> (r: Result<Vec<Entry>, ImatrixError>)
    ensures
        match (
            r,
            if is_gguf(b@) {
                gguf_entries_of(b@)
            } else {
                legacy_of(b@)
            },
        ) {
            (Ok(v), Ok(w)) => entry_views(v@) == w,
            (Err(e), Err(f)) => e == f,
            _ => false,
        },
{
    if b.len() >= 4 && b[0] == 0x47 && b[1] == 0x47 && b[2] == 0x55 && b[3] == 0x46 {
        load_gguf(b)
    } else {
        load_legacy(b)
    }
}

/// Which count divides sum `i`, where `sums` sums share `counts` counts.
pub open spec fn count_for(i: int, sums: int, counts: int) -> int {
    let run = if sums / counts > 1 {
        sums / counts
    } else {
        1
    };
    if i / run < counts - 1 {
        i / run
    } else {
        counts - 1
    }
}

/// Which count divides sum `i`, where `sums` sums share `counts` counts.
pub fn count_index(i: usize, sums: usize, counts: usize) -> (r: usize)
    requires
        counts > 0,
    ensures
        r == count_for(i as int, sums as int, counts as int),
        r < counts,
{
    let share: usize = sums / counts;
    let run: usize = if share > 1 {
        share
    } else {
        1
    };
    assert(i as int / run as int >= 0) by (nonlinear_arith)
        requires
            i >= 0,
            run > 0,
    ;
    let k: usize = i / run;
    if k < counts - 1 {
        k
    } else {
        counts - 1
    }
}

/// The bits of a positive finite single-precision number.
pub open spec fn positive_finite(bits: u32) -> bool {
    0 < bits < 0x7f80_0000
}

/// The bits of the largest positive finite number among the first `n`; zero, if
/// there is none.
pub open spec fn largest_upto(v: Seq<u32>, n: int) -> u32
    decreases n,
{
    if n <= 0 {
        0
    } else {
        let m = largest_upto(v, n - 1);
        if positive_finite(v[n - 1]) && v[n - 1] > m {
            v[n - 1]
        } else {
            m
        }
    }
}

/// The bits of the largest positive finite number; zero, if there is none. (The
/// bits of positive numbers order as the numbers do.)
pub fn largest_weight(v: &[u32]) -> (r: u32)
    ensures
        r == largest_upto(v@, v@.len() as int),
{
    let mut m: u32 = 0;
    for i in 0..v.len()
        invariant
            m == largest_upto(v@, i as int),
    {
        let x: u32 = v[i];
        if x > 0 && x < 0x7f80_0000 && x > m {
            m = x;
        }
    }
    m
}

/// The bits of one.
pub const ONE: u32 = 0x3f80_0000;

/// The bits of the smallest positive number.
pub const LEAST: u32 = 1;

/// What stands in for a weight that is no positive finite number: one, where no
/// weight is; else `scaled`, unless that has vanished itself.
pub open spec fn floor_for(v: Seq<u32>, scaled: u32) -> u32 {
    if largest_upto(v, v.len() as int) == 0 {
        ONE
    } else if positive_finite(scaled) {
        scaled
    } else {
        LEAST
    }
}

/// The weights, with a floor for those that are no positive finite numbers.
pub open spec fn sanitized(v: Seq<u32>, scaled: u32) -> Seq<u32> {
    Seq::new(
        v.len(),
        |i: int|
            if positive_finite(v[i]) {
                v[i]
            } else {
                floor_for(v, scaled)
            },
    )
}

/// Replaces everything that is no positive finite number, which would null out
/// a weighted fit, by one same positive number: `scaled`, which the caller scales
/// down from the largest weight, or one, where no weight is a positive finite
/// number.
pub fn sanitize(v: &mut Vec<u32>, scaled: u32)
    ensures
        final(v)@ == sanitized(old(v)@, scaled),
        forall|i: int| 0 <= i < final(v)@.len() ==> positive_finite(#[trigger] final(v)@[i]),
{
    let n: usize = v.len();
    let floor: u32 = if largest_weight(v.as_slice()) == 0 {
        ONE
    } else if scaled > 0 && scaled < 0x7f80_0000 {
        scaled
    } else {
        LEAST
    };
    let ghost all = sanitized(v@, scaled);
    for i in 0..n
        invariant
            n == v@.len(),
            v@.len() == old(v)@.len(),
            positive_finite(floor),
            floor == floor_for(old(v)@, scaled),
            all == sanitized(old(v)@, scaled),
            forall|j: int| 0 <= j < i ==> #[trigger] v@[j] == all[j] && positive_finite(v@[j]),
            forall|j: int| i <= j < v@.len() ==> v@[j] == old(v)@[j],
    {
        let x: u32 = v[i];
        if !(x > 0 && x < 0x7f80_0000) {
            v.set(i, floor);
        }
    }
    assert(v@ =~= all);
}

/// Weights that were sanitized are positive finite numbers, and stay as they are
/// when they are sanitized again.
pub proof fn sanitized_weights_stay(v: Seq<u32>, a: u32, b: u32)
    ensures
        sanitized(v, a).len() == v.len(),
        forall|i: int| 0 <= i < v.len() ==> positive_finite(#[trigger] sanitized(v, a)[i]),
        sanitized(sanitized(v, a), b) == sanitized(v, a),
{
    assert(sanitized(sanitized(v, a), b) =~= sanitized(v, a));
}

/// Where the weights of row `row_idx` begin among `len` weights, if they cover it.
pub open spec fn row_start(len: int, ne0: int, rows_per_mat: int, row_idx: int) -> Option<int> {
    if len == ne0 {
        Some(0)
    } else if rows_per_mat > 0 && len % ne0 == 0 {
        let mats = len / ne0;
        let own = row_idx / rows_per_mat;
        Some(
            (if own < mats - 1 {
                own
            } else {
                mats - 1
            }) * ne0,
        )
    } else {
        None
    }
}

/// The weights of row `row_idx` of a tensor with rows of `ne0` elements and
/// `rows_per_mat` rows per matrix: the weights may cover one row or one row per
/// matrix.
pub fn row_slice<T>(
    im: Option<&[T]>,
    ne0: usize,
    rows_per_mat: usize,
    row_idx: usize,
) -> (r: Option<&[T]>)
    requires
        im matches Some(v) ==> v@.len() == ne0 || rows_per_mat == 0 || (ne0 > 0 && v@.len() > 0),
    ensures
        match im {
            None => r is None,
            Some(v) => match row_start(
                v@.len() as int,
                ne0 as int,
                rows_per_mat as int,
                row_idx as int,
            ) {
                Some(s) => r matches Some(w) && w@ == v@.subrange(s, s + ne0),
                None => r is None,
            },
        },
        match im {
            None => r is None,
            Some(v) => if v@.len() == ne0 {
                r matches Some(w) && w@ == v@
            } else if rows_per_mat > 0 && v@.len() as int % ne0 as int == 0 {
                let mats = v@.len() as int / ne0 as int;
                let own = row_idx as int / rows_per_mat as int;
                let m = if own < mats - 1 {
                    own
                } else {
                    mats - 1
                };
                r matches Some(w) && w@ == v@.subrange(m * ne0, (m + 1) * ne0)
            } else {
                r is None
            },
        },
{
    match im {
        None => None,
        Some(v) => {
            if v.len() == ne0 {
                Some(v)
            } else if rows_per_mat > 0 && v.len() % ne0 == 0 {
                let mat: usize = row_idx / rows_per_mat;
                let n_mats: usize = v.len() / ne0;
                let ghost len = v@.len() as int;
                assert(len == n_mats * ne0 && n_mats > 0) by {
                    vstd::arithmetic::div_mod::lemma_fundamental_div_mod(len, ne0 as int);
                    vstd::arithmetic::mul::lemma_mul_is_commutative(ne0 as int, n_mats as int);
                    if n_mats == 0 {
                        assert(0 * ne0 == 0);
                    }
                }
                let m: usize = if mat < n_mats - 1 {
                    mat
                } else {
                    n_mats - 1
                };
                assert(0 <= m * ne0 && m * ne0 + ne0 == (m + 1) * ne0 && (m + 1) * ne0 <= n_mats
                    * ne0) by (nonlinear_arith)
                    requires
                        0 <= m < n_mats,
                        0 < ne0,
                ;
                assert(row_idx as int / rows_per_mat as int >= 0) by (nonlinear_arith)
                    requires
                        row_idx >= 0,
                        rows_per_mat > 0,
                ;
                Some(slice_subrange(v, m * ne0, m * ne0 + ne0))
            } else {
                None
            }
        },
    }
}

/// A tensor name without its trailing `.weight`s.
pub open spec fn trimmed(name: Seq<char>) -> Seq<char>
    decreases name.len(),
{
    if ends(name, ".weight"@) && ".weight"@.len() > 0 {
        trimmed(name.subrange(0, name.len() - ".weight"@.len()))
    } else {
        name
    }
}

/// The last of the first `n` entries that is named `name`.
pub open spec fn entry_named(v: Seq<EntrySpec>, name: Seq<char>, n: int) -> Option<int>
    decreases n,
{
    if n <= 0 {
        None
    } else if v[n - 1].name == name {
        Some(n - 1)
    } else {
        entry_named(v, name, n - 1)
    }
}

/// The entry for a tensor: the last with its name, else the last with its name
/// without the trailing `.weight`.
pub open spec fn entry_for(v: Seq<EntrySpec>, name: Seq<char>) -> Option<int> {
    match entry_named(v, name, v.len() as int) {
        Some(i) => Some(i),
        None => entry_named(v, trimmed(name), v.len() as int),
    }
}

fn find_named(v: &[Entry], name: &[char]) -> (r: Option<usize>)
    ensures
        match (r, entry_named(entry_views(v@), name@, v@.len() as int)) {
            (Some(i), Some(j)) => i == j && i < v@.len(),
            (None, None) => true,
            _ => false,
        },
{
    let mut n: usize = v.len();
    while n > 0
        invariant
            n <= v@.len(),
            entry_named(entry_views(v@), name@, v@.len() as int) == entry_named(
                entry_views(v@),
                name@,
                n as int,
            ),
        decreases n,
    {
        let own = chars_of(v[n - 1].name.as_str());
        if same(own.as_slice(), name) {
            assert(own@ =~= name@);
            return Some(n - 1);
        }
        n -= 1;
    }
    None
}

/// The entry for a tensor.
pub fn find_entry(v: &[Entry], name: &str) -> (r: Option<usize>)
    ensures
        match (r, entry_for(entry_views(v@), name@)) {
            (Some(i), Some(j)) => i == j && i < v@.len(),
            (None, None) => true,
            _ => false,
        },
{
    let mut own = chars_of(name);
    match find_named(v, own.as_slice()) {
        Some(i) => Some(i),
        None => {
            let suffix = chars_of(".weight");
            proof {
                reveal_strlit(".weight");
            }
            while finishes(own.as_slice(), suffix.as_slice())
                invariant
                    suffix@ == ".weight"@,
                    suffix@.len() > 0,
                    trimmed(own@) == trimmed(name@),
                ensures
                    own@ == trimmed(name@),
                decreases own@.len(),
            {
                let keep: usize = own.len() - suffix.len();
                own.truncate(keep);
            }
            find_named(v, own.as_slice())
        },
    }
}

/// The words of bytes: four bytes each, low byte first.
pub proof fn words_are_little_endian(b: Seq<u8>, i: int)
    requires
        0 <= i,
        4 * i + 4 <= b.len(),
    ensures
        i < words_in(b).len(),
        4 * words_in(b).len() <= b.len() < 4 * words_in(b).len() + 4,
        words_in(b)[i] == b[4 * i] + 0x100 * b[4 * i + 1] + 0x1_0000 * b[4 * i + 2] + 0x100_0000
            * b[4 * i + 3],
{
    let s = b.subrange(4 * i, 4 * i + 4);
    reveal_with_fuel(le_value, 5);
    assert(s[0] == b[4 * i] && s[1] == b[4 * i + 1] && s[2] == b[4 * i + 2] && s[3] == b[4 * i
        + 3]);
    assert(le_value(s) == s[0] + 0x100 * s[1] + 0x1_0000 * s[2] + 0x100_0000 * s[3]);
}

proof fn signed_word(b: Seq<u8>, pos: int)
    requires
        0 <= pos,
        pos + 4 <= b.len(),
    ensures
        ({
            let w = b[pos] + 0x100 * b[pos + 1] + 0x1_0000 * b[pos + 2] + 0x100_0000 * b[pos + 3];
            i32_at(b, pos) == Ok::<i32, ImatrixError>(
                (if w < 0x8000_0000 {
                    w
                } else {
                    w - 0x1_0000_0000
                }) as i32,
            )
        }),
{
    let s = b.subrange(pos, pos + 4);
    reveal_with_fuel(le_value, 5);
    assert(s[0] == b[pos] && s[1] == b[pos + 1] && s[2] == b[pos + 2] && s[3] == b[pos + 3]);
    assert(le_value(s) == s[0] + 0x100 * s[1] + 0x1_0000 * s[2] + 0x100_0000 * s[3]);
    let w = le_value(s) as u32;
    assert(w as i32 == (if w < 0x8000_0000 {
        w as int
    } else {
        w - 0x1_0000_0000
    })) by (bit_vector);
}

/// A legacy entry: the length of the name in four bytes, the name, the number of
/// calls and the number of values in four bytes each, and the values in four bytes
/// each. The next entry follows.
pub proof fn legacy_entries_by_bytes(
    b: Seq<u8>,
    pos: int,
    entry: int,
    len: int,
    calls: int,
    n: int,
    k: int,
)
    requires
        0 <= pos,
        0 <= len,
        0 <= calls < 0x8000_0000,
        0 <= k < n < 0x8000_0000,
        len < 0x8000_0000,
        pos + 12 + len + 4 * n <= b.len(),
        b[pos] + 0x100 * b[pos + 1] + 0x1_0000 * b[pos + 2] + 0x100_0000 * b[pos + 3] == len,
        ({
            let p = pos + 4 + len;
            &&& b[p] + 0x100 * b[p + 1] + 0x1_0000 * b[p + 2] + 0x100_0000 * b[p + 3] == calls
            &&& b[p + 4] + 0x100 * b[p + 5] + 0x1_0000 * b[p + 6] + 0x100_0000 * b[p + 7] == n
        }),
    ensures
        legacy_entry_at(b, pos, entry) matches Ok((x, end)) && {
            let v = pos + 12 + len + 4 * k;
            &&& end == pos + 12 + len + 4 * n
            &&& x.name == text_of(b.subrange(pos + 4, pos + 4 + len))
            &&& x.divisor == DivisorSpec::Calls(calls as i32)
            &&& x.sums.len() == n
            &&& x.sums[k] == b[v] + 0x100 * b[v + 1] + 0x1_0000 * b[v + 2] + 0x100_0000 * b[v + 3]
        },
{
    let p = pos + 4 + len;
    signed_word(b, pos);
    signed_word(b, p);
    signed_word(b, p + 4);
    let data = b.subrange(p + 8, p + 8 + 4 * n);
    words_are_little_endian(data, k);
}

/// A legacy file begins with the number of its entries in four bytes, which is not
/// negative and below a million.
pub proof fn legacy_files_count_their_entries(b: Seq<u8>)
    requires
        b.len() >= 4,
    ensures
        ({
            let w = b[0] + 0x100 * b[1] + 0x1_0000 * b[2] + 0x100_0000 * b[3];
            &&& w < 1_000_000 ==> legacy_of(b) == legacy_entries_at(b, 4, 0, w as nat)
            &&& w >= 1_000_000 ==> (legacy_of(b) matches Err(ImatrixError::ImplausibleCount {
                count: _,
            }))
        }),
{
    signed_word(b, 0);
}

/// The entries of a legacy file follow each other; as many are read as it counts.
pub proof fn legacy_entries_follow_each_other(b: Seq<u8>, pos: int, entry: int, n: nat)
    requires
        n > 0,
    ensures
        legacy_entries_at(b, pos, entry, 0) == Ok::<Seq<EntrySpec>, ImatrixError>(seq![]),
        legacy_entries_at(b, pos, entry, n) matches Ok(v) ==> v.len() == n && (legacy_entry_at(
            b,
            pos,
            entry,
        ) matches Ok((x, p)) && v[0] == x && legacy_entries_at(
            b,
            p,
            entry + 1,
            (n - 1) as nat,
        ) == Ok::<Seq<EntrySpec>, ImatrixError>(v.subrange(1, v.len() as int))),
    decreases n,
{
    if let Ok((x, p)) = legacy_entry_at(b, pos, entry) {
        if n > 1 {
            legacy_entries_follow_each_other(b, p, entry + 1, (n - 1) as nat);
        }
        if let Ok(rest) = legacy_entries_at(b, p, entry + 1, (n - 1) as nat) {
            assert((seq![x] + rest).subrange(1, (seq![x] + rest).len() as int) =~= rest);
        }
    }
}

/// Of several tensors of one name the last one counts, and its words are those of
/// its data.
pub proof fn the_last_tensor_of_a_name_counts(f: FileSpec, b: Seq<u8>, name: Seq<char>, n: int)
    requires
        0 <= n <= f.tensors.len(),
    ensures
        match last_words(f, b, name, n) {
            Some(w) => exists|k: int|
                0 <= k < n && (#[trigger] f.tensors[k]).name == name && w == words_in(
                    data_in(f, b, f.tensors[k])->0,
                ) && forall|j: int| k < j < n ==> (#[trigger] f.tensors[j]).name != name,
            None => forall|k: int| 0 <= k < n ==> (#[trigger] f.tensors[k]).name != name,
        },
    decreases n,
{
    if n > 0 {
        if f.tensors[n - 1].name != name {
            the_last_tensor_of_a_name_counts(f, b, name, n - 1);
            if let Some(w) = last_words(f, b, name, n) {
                let k = choose|k: int|
                    0 <= k < n - 1 && (#[trigger] f.tensors[k]).name == name && w == words_in(
                        data_in(f, b, f.tensors[k])->0,
                    ) && forall|j: int| k < j < n - 1 ==> (#[trigger] f.tensors[j]).name != name;
                assert(f.tensors[k].name == name);
                assert forall|j: int| k < j < n implies (#[trigger] f.tensors[j]).name != name by {}
            }
        }
    }
}

proof fn entry_named_facts(v: Seq<EntrySpec>, name: Seq<char>, n: int)
    requires
        0 <= n <= v.len(),
    ensures
        match entry_named(v, name, n) {
            Some(i) => 0 <= i < n && v[i].name == name && forall|j: int|
                i < j < n ==> (#[trigger] v[j]).name != name,
            None => forall|j: int| 0 <= j < n ==> (#[trigger] v[j]).name != name,
        },
    decreases n,
{
    if n > 0 {
        entry_named_facts(v, name, n - 1);
    }
}

/// The entry for a tensor has the tensor's name, or, where none has it, the name
/// without the ".weight" at its end; of several the last is taken.
pub proof fn entries_are_found_by_name(v: Seq<EntrySpec>, base: Seq<char>)
    requires
        base.len() < 7 || base.subrange(base.len() - 7, base.len() as int) != ".weight"@,
    ensures
        ({
            let name = base + ".weight"@;
            match entry_for(v, name) {
                Some(i) => {
                    &&& 0 <= i < v.len()
                    &&& v[i].name == name || (v[i].name == base && forall|j: int|
                        0 <= j < v.len() ==> (#[trigger] v[j]).name != name)
                    &&& forall|j: int| i < j < v.len() ==> (#[trigger] v[j]).name != v[i].name
                },
                None => forall|j: int|
                    0 <= j < v.len() ==> (#[trigger] v[j]).name != name && v[j].name != base,
            }
        }),
{
    reveal_strlit(".weight");
    let name = base + ".weight"@;
    let n = v.len() as int;
    entry_named_facts(v, name, n);
    entry_named_facts(v, base, n);
    assert(name.subrange(name.len() - 7, name.len() as int) =~= ".weight"@);
    assert(name.subrange(0, name.len() - 7) =~= base);
    assert(!ends(base, ".weight"@));
    reveal_with_fuel(trimmed, 3);
    assert(trimmed(name) == base);
}

/// Every tensor of a GGUF file whose name ends in ".in_sum2" makes an entry under the
/// rest of its name, with its words as the sums, and the words of the tensor of that
/// name with ".counts" behind it as the counts.
pub proof fn sums_make_entries(f: FileSpec, b: Seq<u8>, n: int, k: int, base: Seq<char>)
    requires
        0 <= k < n <= f.tensors.len(),
        f.tensors[k].name == base + ".in_sum2"@,
    ensures
        sums_upto(f, b, n).len() <= n,
        exists|i: int|
            0 <= i < sums_upto(f, b, n).len() && {
                let x = #[trigger] sums_upto(f, b, n)[i];
                &&& x.name == base
                &&& x.sums == words_in(data_in(f, b, f.tensors[k])->0)
                &&& x.divisor == DivisorSpec::Counts(
                    match last_words(f, b, base + ".counts"@, f.tensors.len() as int) {
                        Some(c) => c,
                        None => seq![],
                    },
                )
            },
    decreases n,
{
    let t = f.tensors[n - 1];
    let v = sums_upto(f, b, n);
    sums_are_few(f, b, n);
    if k == n - 1 {
        reveal_strlit(".in_sum2");
        let name = t.name;
        assert(name.subrange(name.len() - 8, name.len() as int) =~= ".in_sum2"@);
        assert(name.subrange(0, name.len() - 8) =~= base);
        assert(v[v.len() - 1].name == base);
    } else {
        sums_make_entries(f, b, n - 1, k, base);
        let w = sums_upto(f, b, n - 1);
        let i = choose|i: int|
            0 <= i < w.len() && {
                let x = #[trigger] w[i];
                &&& x.name == base
                &&& x.sums == words_in(data_in(f, b, f.tensors[k])->0)
                &&& x.divisor == DivisorSpec::Counts(
                    match last_words(f, b, base + ".counts"@, f.tensors.len() as int) {
                        Some(c) => c,
                        None => seq![],
                    },
                )
            };
        assert(v[i] == w[i]);
    }
}

proof fn sums_are_few(f: FileSpec, b: Seq<u8>, n: int)
    requires
        0 <= n,
    ensures
        sums_upto(f, b, n).len() <= n,
    decreases n,
{
    if n > 0 {
        sums_are_few(f, b, n - 1);
    }
}

/// The data of a tensor stand at its offset in the data section.
pub proof fn data_stand_at_their_offset(f: FileSpec, b: Seq<u8>, t: TensorSpec, i: int)
    requires
        t.sized(),
        f.data_start + t.offset + t.size() <= b.len(),
        0 <= i < t.size(),
    ensures
        data_in(f, b, t) matches Some(d) && d.len() == t.size() && d[i] == b[f.data_start + t.offset
            + i],
{
}

/// Counts divide the sums in runs of equal length: where `counts` counts share
/// `counts * run` sums, the first `run` sums have the first count, and so on.
pub proof fn counts_divide_runs(i: int, run: int, counts: int)
    requires
        counts > 0,
        run > 0,
        0 <= i < counts * run,
    ensures
        ({
            let c = count_for(i, counts * run, counts);
            0 <= c < counts && c * run <= i < c * run + run
        }),
{
    vstd::arithmetic::div_mod::lemma_div_multiples_vanish(run, counts);
    vstd::arithmetic::mul::lemma_mul_is_commutative(run, counts);
    assert((counts * run) / counts == run);
    vstd::arithmetic::div_mod::lemma_fundamental_div_mod(i, run);
    vstd::arithmetic::div_mod::lemma_mod_bound(i, run);
    let q = i / run;
    vstd::arithmetic::mul::lemma_mul_is_commutative(run, q);
    assert(0 <= q <= counts - 1) by (nonlinear_arith)
        requires
            i == q * run + i % run,
            0 <= i % run < run,
            0 <= i < counts * run,
            run > 0,
    ;
}

/// The largest weight is none below any positive finite one, and one of them where
/// there is one. Positive finite numbers are those whose bits lie between zero and
/// the infinite one's.
pub proof fn the_largest_weight_is_one(v: Seq<u32>, n: int, i: int)
    requires
        0 <= i < n <= v.len(),
    ensures
        0 < v[i] < 0x7f80_0000 ==> v[i] <= largest_upto(v, n),
        largest_upto(v, n) == 0 || (0 < largest_upto(v, n) < 0x7f80_0000 && v.contains(
            largest_upto(v, n),
        )),
    decreases n,
{
    assert(v.contains(v[n - 1]));
    if n > 1 {
        the_largest_weight_is_one(v, n - 1, if i < n - 1 {
            i
        } else {
            0
        });
    }
}

/// Weights that are positive finite numbers stay; all others become one same
/// positive finite number: one where no weight is positive and finite, else the
/// scaled-down largest weight, or the least positive number where that vanished.
pub proof fn other_weights_become_one_floor(v: Seq<u32>, scaled: u32, i: int, j: int)
    requires
        0 <= i < v.len(),
        0 <= j < v.len(),
    ensures
        ({
            let w = sanitized(v, scaled);
            let bad = |x: u32| x == 0 || x >= 0x7f80_0000;
            &&& w.len() == v.len()
            &&& 0 < w[i] < 0x7f80_0000
            &&& !bad(v[i]) ==> w[i] == v[i]
            &&& bad(v[i]) && bad(v[j]) ==> w[i] == w[j]
            &&& bad(v[i]) && !bad(v[j]) && 0 < scaled < 0x7f80_0000 ==> w[i] == scaled
            &&& bad(v[i]) && !bad(v[j]) && bad(scaled) ==> w[i] == 1
            &&& (forall|k: int| 0 <= k < v.len() ==> (#[trigger] v[k] == 0 || v[k] >= 0x7f80_0000))
                ==> w[i] == 0x3f80_0000
        }),
{
    let n = v.len() as int;
    the_largest_weight_is_one(v, n, j);
    let m = largest_upto(v, n);
    if m != 0 {
        let k = choose|k: int| 0 <= k < v.len() && v[k] == m;
        assert(v[k] == m);
    }
}

/// Weights for one row serve every row. Weights for `mats` matrices serve the rows of
/// each matrix with that matrix's own, and further rows with the last. Other numbers of
/// weights serve none.
pub proof fn every_matrix_has_its_weights(
    ne0: int,
    mats: int,
    rows_per_mat: int,
    m: int,
    k: int,
    rest: int,
)
    requires
        0 < ne0,
        1 < mats,
        0 < rows_per_mat,
        0 <= m,
        0 <= k < rows_per_mat,
        0 < rest < ne0,
    ensures
        row_start(ne0, ne0, rows_per_mat, m * rows_per_mat + k) == Some(0int),
        m < mats ==> row_start(mats * ne0, ne0, rows_per_mat, m * rows_per_mat + k) == Some(
            m * ne0,
        ),
        m >= mats ==> row_start(mats * ne0, ne0, rows_per_mat, m * rows_per_mat + k) == Some(
            (mats - 1) * ne0,
        ),
        row_start(mats * ne0 + rest, ne0, rows_per_mat, m * rows_per_mat + k) is None,
        row_start(mats * ne0, ne0, 0, m) is None,
{
    let row = m * rows_per_mat + k;
    vstd::arithmetic::div_mod::lemma_fundamental_div_mod_converse(row, rows_per_mat, m, k);
    vstd::arithmetic::div_mod::lemma_fundamental_div_mod_converse(mats * ne0, ne0, mats, 0);
    vstd::arithmetic::div_mod::lemma_fundamental_div_mod_converse(
        mats * ne0 + rest,
        ne0,
        mats,
        rest,
    );
    assert(mats * ne0 > ne0) by (nonlinear_arith)
        requires
            mats > 1,
            ne0 > 0,
    ;
}

} // verus!
