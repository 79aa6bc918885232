//! A model in one or several files.

use vstd::prelude::*;
use vstd::slice::*;

use crate::gguf::{
    file_of, find_kv, kv_views, lookup, read, tensor_views, FileSpec, GgufError, TensorInfo,
    TensorSpec, Value, DEFAULT_ALIGNMENT,
};
use crate::text::{
    all_digits, chars_of, decimal, decimal_is_spelled, decimal_padded, digit_char, finishes,
    is_digit, last_position, occurs_at, push_padded, push_text, rfind, rfind_from_is_last, spelled,
    split_last, string_of, without_suffix,
};
use crate::value::Val;

verus! {

/// Why the files of a model were not taken.
#[derive(Debug, Clone, Copy, PartialEq, Eq, Structural)]
pub enum ModelError {
    /// A file cannot be read as GGUF.
    Parse { shard: usize, error: GgufError },
    /// The data of a tensor would begin beyond the largest file offset.
    OffsetOutOfRange { shard: usize, tensor: usize },
}

/// The files of a model read as one: a single GGUF file, or a split model with
/// its shards in order. Tensor offsets are absolute within their shard.
pub struct Model<'a> {
    pub shards: Vec<&'a [u8]>,
    pub kvs: Vec<(String, Value)>,
    pub tensors: Vec<TensorInfo>,
    pub alignment: u64,
}

/// What a model is, apart from the bytes of its files.
#[verifier::ext_equal]
pub ghost struct ModelSpec {
    pub kvs: Seq<(Seq<char>, Val)>,
    pub tensors: Seq<TensorSpec>,
    pub alignment: u64,
}

impl<'a> View for Model<'a> {
    type V = ModelSpec;

    open spec fn view(&self) -> ModelSpec {
        ModelSpec {
            kvs: kv_views(self.kvs@),
            tensors: tensor_views(self.tensors@),
            alignment: self.alignment,
        }
    }
}

/// The bytes of the files.
pub open spec fn file_views(shards: Seq<&[u8]>) -> Seq<Seq<u8>> {
    Seq::new(shards.len(), |i: int| shards[i]@)
}

/// A tensor of a shard, with its offset from the start of the file.
pub open spec fn settled(t: TensorSpec, start: nat, shard: int) -> TensorSpec {
    TensorSpec { offset: (t.offset + start) as u64, shard: shard as usize, ..t }
}

/// The first of the tensors from `i` on whose absolute offset is out of range.
pub open spec fn first_overflow(ts: Seq<TensorSpec>, start: nat, i: int) -> Option<int>
    decreases ts.len() - i,
{
    if i >= ts.len() {
        None
    } else if ts[i].offset + start > u64::MAX {
        Some(i)
    } else {
        first_overflow(ts, start, i + 1)
    }
}

/// The tensors of a shard, with their offsets from the start of the file.
pub open spec fn settled_all(f: FileSpec, shard: int) -> Seq<TensorSpec> {
    Seq::new(f.tensors.len(), |i: int| settled(f.tensors[i], f.data_start, shard))
}

/// The model in the first `n` files: the metadata of the first file and the
/// tensors of all.
pub open spec fn model_upto(files: Seq<Seq<u8>>, n: int) -> Result<ModelSpec, ModelError>
    decreases n,
{
    if n <= 0 {
        Ok(ModelSpec { kvs: seq![], tensors: seq![], alignment: DEFAULT_ALIGNMENT })
    } else {
        match model_upto(files, n - 1) {
            Err(e) => Err(e),
            Ok(m) => match file_of(files[n - 1]) {
                Err(e) => Err(ModelError::Parse { shard: (n - 1) as usize, error: e }),
                Ok(f) => match first_overflow(f.tensors, f.data_start, 0) {
                    Some(i) => Err(
                        ModelError::OffsetOutOfRange {
                            shard: (n - 1) as usize,
                            tensor: i as usize,
                        },
                    ),
                    None => Ok(
                        ModelSpec {
                            kvs: if n == 1 {
                                f.kvs
                            } else {
                                m.kvs
                            },
                            tensors: m.tensors + settled_all(f, n - 1),
                            alignment: if n == 1 {
                                f.alignment
                            } else {
                                m.alignment
                            },
                        },
                    ),
                },
            },
        }
    }
}

/// The model in files.
pub open spec fn model_of(files: Seq<Seq<u8>>) -> Result<ModelSpec, ModelError> {
    model_upto(files, files.len() as int)
}

proof fn error_stays(files: Seq<Seq<u8>>, n: int, m: int)
    requires
        0 <= n <= m <= files.len(),
        model_upto(files, n) is Err,
    ensures
        model_upto(files, m) == model_upto(files, n),
    decreases m,
{
    if n < m {
        error_stays(files, n, m - 1);
    }
}

/// The total length of the first `n` files.
pub open spec fn bytes_upto(files: Seq<Seq<u8>>, n: int) -> nat
    decreases n,
{
    if n <= 0 {
        0
    } else {
        bytes_upto(files, n - 1) + files[n - 1].len()
    }
}

impl<'a> Model<'a> {
    /// The files hold the data of the tensor.
    pub open spec fn holds(self, t: TensorSpec) -> bool {
        &&& t.shard < self.shards@.len()
        &&& t.sized()
        &&& t.offset + t.size() <= self.shards@[t.shard as int]@.len()
    }

    /// Reads the files of a model.
    pub fn from_shards(shards: Vec<&'a [u8]>) -> (r: Result<Model<'a>, ModelError>)
        ensures
            match (r, model_of(file_views(shards@))) {
                (Ok(m), Ok(s)) => m@ == s && m.shards@ == shards@,
                (Err(e), Err(s)) => e == s,
                _ => false,
            },
    {
        let ghost files = file_views(shards@);
        let mut kvs: Vec<(String, Value)> = Vec::new();
        let mut tensors: Vec<TensorInfo> = Vec::new();
        let mut alignment: u64 = DEFAULT_ALIGNMENT;
        let mut si: usize = 0;
        assert(kv_views(kvs@) =~= seq![]);
        assert(tensor_views(tensors@) =~= seq![]);
        while si < shards.len()
            invariant
                si <= shards@.len(),
                files == file_views(shards@),
                model_upto(files, si as int) == Ok::<ModelSpec, ModelError>(
                    (ModelSpec {
                        kvs: kv_views(kvs@),
                        tensors: tensor_views(tensors@),
                        alignment,
                    }),
                ),
            decreases shards@.len() - si,
        {
            assert(files[si as int] == shards@[si as int]@);
            let g = match read(shards[si]) {
                Ok(g) => g,
                Err(error) => {
                    proof {
                        error_stays(files, si + 1, files.len() as int);
                    }
                    return Err(ModelError::Parse { shard: si, error });
                },
            };
            let ghost f = g@;
            let ghost before = tensor_views(tensors@);
            let ghost all = settled_all(f, si as int);
            let start: u64 = g.data_start;
            let list: Vec<TensorInfo> = g.tensors;
            let mut i: usize = 0;
            while i < list.len()
                invariant
                    i <= list@.len(),
                    si < shards@.len(),
                    files == file_views(shards@),
                    file_of(files[si as int]) == Ok::<FileSpec, GgufError>(f),
                    model_upto(files, si as int) is Ok,
                    tensor_views(list@) == f.tensors,
                    f.data_start == start,
                    all == settled_all(f, si as int),
                    first_overflow(f.tensors, f.data_start, 0) == first_overflow(
                        f.tensors,
                        f.data_start,
                        i as int,
                    ),
                    tensor_views(tensors@) == before + all.subrange(0, i as int),
                decreases list@.len() - i,
            {
                assert(f.tensors[i as int] == list@[i as int]@);
                let mut t = list[i].clone();
                if t.offset > u64::MAX - start {
                    proof {
                        error_stays(files, si + 1, files.len() as int);
                    }
                    return Err(ModelError::OffsetOutOfRange { shard: si, tensor: i });
                }
                t.offset = t.offset + start;
                t.shard = si;
                assert(t@ == all[i as int]);
                let ghost prior = tensors@;
                tensors.push(t);
                assert(tensor_views(tensors@) =~= tensor_views(prior).push(t@));
                assert(all.subrange(0, i + 1) =~= all.subrange(0, i as int).push(t@));
                i += 1;
            }
            assert(all.subrange(0, all.len() as int) =~= all);
            if si == 0 {
                kvs = g.kvs;
                alignment = g.alignment;
            }
            si += 1;
        }
        Ok(Model { shards, kvs, tensors, alignment })
    }

    /// The first value stored under a key.
    pub fn kv(&self, key: &str) -> (r: Option<&Value>)
        ensures
            match (r, lookup(self@.kvs, key@)) {
                (Some(v), Some(w)) => v@ == w,
                (None, None) => true,
                _ => false,
            },
    {
        find_kv(self.kvs.as_slice(), key)
    }

    /// The data of a tensor.
    pub fn tensor_data(&self, t: &TensorInfo) -> (r: &'a [u8])
        requires
            self.holds(t@),
        ensures
            r@ == self.shards@[t.shard as int]@.subrange(
                t.offset as int,
                t.offset + t@.size(),
            ),
    {
        let buf = self.shards[t.shard];
        let len: usize = buf.len();
        let start: usize = t.offset as usize;
        slice_subrange(buf, start, start + t.byte_size() as usize)
    }

    /// The data of a tensor, or `None` where the files do not hold them.
    pub fn checked_tensor_data(&self, t: &TensorInfo) -> (r: Option<&'a [u8]>)
        ensures
            r is Some <==> self.holds(t@),
            r matches Some(d) ==> d@ == self.shards@[t.shard as int]@.subrange(
                t.offset as int,
                t.offset + t@.size(),
            ),
    {
        if t.shard >= self.shards.len() {
            return None;
        }
        let len: u64 = self.shards[t.shard].len() as u64;
        match t.checked_byte_size_as(t.ty) {
            Some(size) => {
                if t.offset <= len && size <= len - t.offset {
                    Some(self.tensor_data(t))
                } else {
                    None
                }
            },
            None => None,
        }
    }

    /// The total length of the files, as far as it can be counted.
    pub fn total_bytes(&self) -> (r: u64)
        ensures
            r as nat == (if bytes_upto(file_views(self.shards@), self.shards@.len() as int)
                <= u64::MAX {
                bytes_upto(file_views(self.shards@), self.shards@.len() as int)
            } else {
                u64::MAX as nat
            }),
    {
        let ghost files = file_views(self.shards@);
        let mut total: u64 = 0;
        let mut i: usize = 0;
        while i < self.shards.len()
            invariant
                i <= self.shards@.len(),
                files == file_views(self.shards@),
                total as nat == (if bytes_upto(files, i as int) <= u64::MAX {
                    bytes_upto(files, i as int)
                } else {
                    u64::MAX as nat
                }),
            decreases self.shards@.len() - i,
        {
            assert(files[i as int] == self.shards@[i as int]@);
            let n: u64 = self.shards[i].len() as u64;
            total = if n <= u64::MAX - total {
                total + n
            } else {
                u64::MAX
            };
            i += 1;
        }
        total
    }
}

/// The number in a field of a shard name: five digits.
pub open spec fn field_number(s: Seq<char>) -> Option<nat> {
    if s.len() == 5 && all_digits(s) {
        Some(spelled(s))
    } else {
        None
    }
}

/// The stem, the number and the count in the name of a shard,
/// `<stem>-<number>-of-<count>.gguf`.
pub open spec fn shard_parts(name: Seq<char>) -> Option<(Seq<char>, nat, nat)> {
    match without_suffix(name, ".gguf"@) {
        None => None,
        Some(base) => match split_last(base, "-of-"@) {
            None => None,
            Some((head, count)) => match split_last(head, "-"@) {
                None => None,
                Some((stem, no)) => match (field_number(no), field_number(count)) {
                    (Some(n), Some(c)) => Some((stem, n, c)),
                    _ => None,
                },
            },
        },
    }
}

/// The name of shard `i` of `count`.
pub open spec fn shard_name(stem: Seq<char>, i: nat, count: nat) -> Seq<char> {
    stem + "-"@ + decimal_padded(i, 5) + "-of-"@ + decimal_padded(count, 5) + ".gguf"@
}

/// The files that belong to a file name.
#[derive(Debug, PartialEq, Eq)]
pub enum Siblings {
    /// The file stands alone.
    Single,
    /// The names of all shards, in order.
    Shards(Vec<String>),
    /// The file is a shard of `count`, but not the first.
    NotFirst { count: u64 },
}

/// The texts of strings.
pub open spec fn texts(v: Seq<String>) -> Seq<Seq<char>> {
    Seq::new(v.len(), |i: int| v[i]@)
}

/// The names of all shards.
pub open spec fn shard_names(stem: Seq<char>, count: nat) -> Seq<Seq<char>> {
    Seq::new(count, |i: int| shard_name(stem, (i + 1) as nat, count))
}

proof fn spelled_bound(s: Seq<char>)
    requires
        all_digits(s),
        s.len() <= 5,
    ensures
        s.len() == 0 ==> spelled(s) == 0,
        s.len() == 1 ==> spelled(s) < 10,
        s.len() == 2 ==> spelled(s) < 100,
        s.len() == 3 ==> spelled(s) < 1000,
        s.len() == 4 ==> spelled(s) < 10_000,
        s.len() == 5 ==> spelled(s) < 100_000,
    decreases s.len(),
{
    if s.len() > 0 {
        let t = s.drop_last();
        assert forall|i: int| 0 <= i < t.len() implies is_digit(#[trigger] t[i]) by {
            assert(t[i] == s[i]);
        }
        spelled_bound(t);
        assert(is_digit(s[s.len() - 1]));
    }
}

fn field_value(s: &[char]) -> (r: Option<u64>)
    ensures
        match (r, field_number(s@)) {
            (Some(n), Some(m)) => n == m && n < 100_000,
            (None, None) => true,
            _ => false,
        },
{
    if s.len() != 5 {
        return None;
    }
    let mut n: u64 = 0;
    let mut i: usize = 0;
    while i < 5
        invariant
            i <= 5,
            s@.len() == 5,
            all_digits(s@.subrange(0, i as int)),
            n == spelled(s@.subrange(0, i as int)),
        decreases 5 - i,
    {
        let c = s[i];
        if !('0' <= c && c <= '9') {
            assert(!is_digit(s@[i as int]));
            return None;
        }
        let ghost part = s@.subrange(0, i + 1);
        proof {
            spelled_bound(s@.subrange(0, i as int));
            assert(part.drop_last() =~= s@.subrange(0, i as int));
            assert forall|k: int| 0 <= k < part.len() implies is_digit(#[trigger] part[k]) by {
                if k < i {
                    assert(part[k] == s@.subrange(0, i as int)[k]);
                }
            }
        }
        n = n * 10 + (c as u64 - 48);
        i += 1;
    }
    assert(s@.subrange(0, 5) =~= s@);
    proof {
        spelled_bound(s@);
    }
    Some(n)
}

/// Reads the stem, the number and the count from the name of a shard.
pub(crate) fn parts_of(name: &str) -> (r: Option<(String, u64, u64)>)
    ensures
        match (r, shard_parts(name@)) {
            (Some(p), Some(q)) => p.0@ == q.0 && p.1 == q.1 && p.2 == q.2 && p.2 < 100_000,
            (None, None) => true,
            _ => false,
        },
{
    let all = chars_of(name);
    let suffix = chars_of(".gguf");
    if !finishes(all.as_slice(), suffix.as_slice()) {
        return None;
    }
    let base = slice_subrange(all.as_slice(), 0, all.len() - suffix.len());
    let of = chars_of("-of-");
    proof {
        rfind_from_is_last(base@, "-of-"@, base@.len() as int);
    }
    match last_position(base, of.as_slice()) {
        None => None,
        Some(at) => {
            let head = slice_subrange(base, 0, at);
            let count = slice_subrange(base, at + of.len(), base.len());
            let dash = chars_of("-");
            match last_position(head, dash.as_slice()) {
                None => None,
                Some(k) => {
                    let stem = slice_subrange(head, 0, k);
                    let no = slice_subrange(head, k + dash.len(), head.len());
                    match (field_value(no), field_value(count)) {
                        (Some(n), Some(c)) => Some((string_of(stem), n, c)),
                        _ => None,
                    }
                },
            }
        },
    }
}

/// For the first shard of a split model, all its shards; for a file that is no
/// shard of several, the file alone.
pub fn split_siblings(name: &str) -> (r: Siblings)
    ensures
        match shard_parts(name@) {
            None => r is Single,
            Some((stem, no, count)) => if count <= 1 {
                r is Single
            } else if no != 1 {
                r matches Siblings::NotFirst { count: c } && c == count
            } else {
                r matches Siblings::Shards(v) && texts(v@) == shard_names(stem, count)
            },
        },
{
    match parts_of(name) {
        None => Siblings::Single,
        Some((stem, no, count)) => {
            if count <= 1 {
                return Siblings::Single;
            }
            if no != 1 {
                return Siblings::NotFirst { count };
            }
            let ghost all = shard_names(stem@, count as nat);
            let mut v: Vec<String> = Vec::new();
            let mut i: u64 = 0;
            while i < count
                invariant
                    i <= count < 100_000,
                    all == shard_names(stem@, count as nat),
                    texts(v@) == all.subrange(0, i as int),
                decreases count - i,
            {
                let mut s = String::new();
                push_text(&mut s, stem.as_str());
                push_text(&mut s, "-");
                push_padded(&mut s, i + 1, 5);
                push_text(&mut s, "-of-");
                push_padded(&mut s, count, 5);
                push_text(&mut s, ".gguf");
                assert(s@ =~= shard_name(stem@, (i + 1) as nat, count as nat));
                let ghost before = v@;
                v.push(s);
                assert(texts(v@) =~= texts(before).push(s@));
                assert(all.subrange(0, i + 1) =~= all.subrange(0, i as int).push(s@));
                i += 1;
            }
            assert(all.subrange(0, count as int) =~= all);
            Siblings::Shards(v)
        },
    }
}

proof fn padded_of_digits(s: Seq<char>)
    requires
        all_digits(s),
        s.len() >= 1,
    ensures
        decimal_padded(spelled(s), s.len()) == s,
        decimal(spelled(s)).len() <= s.len(),
    decreases s.len(),
{
    let t = s.drop_last();
    let d = (s.last() as int - 48) as nat;
    assert(is_digit(s[s.len() - 1]));
    assert(digit_char(d as int) == s.last());
    assert forall|i: int| 0 <= i < t.len() implies is_digit(#[trigger] t[i]) by {
        assert(t[i] == s[i]);
    }
    if t.len() == 0 {
        assert(spelled(t) == 0);
        assert(decimal_padded(spelled(s), 1) =~= s);
    } else {
        padded_of_digits(t);
        let m = spelled(t);
        let n = spelled(s);
        assert(n / 10 == m && n % 10 == d);
        if m == 0 {
            assert(decimal_padded(0, t.len()) == t);
            assert(t =~= Seq::new(t.len(), |i: int| '0')) by {
                assert(decimal(0) =~= seq!['0']);
                assert(decimal_padded(0, t.len()) =~= Seq::new(t.len(), |i: int| '0'));
            }
            assert(decimal_padded(n, s.len()) =~= t.push(s.last()));
        } else {
            assert(decimal(n) == decimal(m).push(digit_char(d as int)));
            assert(decimal_padded(n, s.len()) =~= decimal_padded(m, t.len()).push(s.last()));
        }
        assert(t.push(s.last()) =~= s);
    }
}

/// A text whose last `p` stands before characters that are not the first of `p`.
proof fn last_split(a: Seq<char>, p: Seq<char>, b: Seq<char>)
    requires
        p.len() > 0,
        forall|i: int| 0 <= i < b.len() ==> (#[trigger] b[i]) != p[0],
        forall|i: int| 0 < i < p.len() ==> (#[trigger] p[i]) != p[0] || i + 1 == p.len(),
        b.len() >= 1,
        p.len() > 1 ==> p[p.len() - 1] == p[0],
        p.len() > 2 ==> p[1] != p[0],
        p.len() > 1 ==> (forall|i: int| 0 <= i < b.len() ==> (#[trigger] b[i]) != p[1]),
    ensures
        split_last(a + p + b, p) == Some((a, b)),
{
    let s = a + p + b;
    let top = s.len() - p.len();
    rfind_from_is_last(s, p, top);
    let at = a.len() as int;
    assert(s.subrange(at, at + p.len()) =~= p);
    assert(occurs_at(s, p, at));
    match rfind(s, p) {
        None => {},
        Some(k) => {
            if k > at {
                assert(s.subrange(k, k + p.len())[0] == s[k]);
                assert(s[k] == p[0]);
                if k >= at + p.len() {
                    assert(s[k] == b[k - at - p.len()]);
                } else {
                    assert(s[k] == p[k - at]);
                    assert(k - at + 1 == p.len());
                    if p.len() > 1 {
                        assert(s.subrange(k, k + p.len())[1] == s[k + 1]);
                        assert(s[k + 1] == b[0]);
                    }
                }
            }
            assert(k == at);
        },
    }
    assert(s.subrange(0, at) =~= a);
    assert(s.subrange(at + p.len(), s.len() as int) =~= b);
}

proof fn parts_of_fields(stem: Seq<char>, no: Seq<char>, count: Seq<char>)
    requires
        no.len() == 5,
        count.len() == 5,
        all_digits(no),
        all_digits(count),
    ensures
        shard_parts(stem + "-"@ + no + "-of-"@ + count + ".gguf"@) == Some(
            (stem, spelled(no), spelled(count)),
        ),
{
    reveal_strlit("-");
    reveal_strlit("-of-");
    reveal_strlit(".gguf");
    let head = stem + "-"@ + no;
    let base = head + "-of-"@ + count;
    let name = base + ".gguf"@;
    assert forall|i: int| 0 <= i < no.len() implies (#[trigger] no[i]) != '-' by {
        assert(is_digit(no[i]));
    }
    assert forall|i: int| 0 <= i < count.len() implies (#[trigger] count[i]) != '-' && count[i]
        != 'o' by {
        assert(is_digit(count[i]));
    }
    last_split(stem, "-"@, no);
    last_split(head, "-of-"@, count);
    assert(name.subrange(name.len() - 5, name.len() as int) =~= ".gguf"@);
    assert(name.subrange(0, name.len() - 5) =~= base);
    assert(stem + "-"@ + no + "-of-"@ + count + ".gguf"@ =~= name);
}

/// The first of the shards of a first shard is the file itself.
pub proof fn first_shard_is_the_file(name: Seq<char>)
    requires
        shard_parts(name) matches Some((_, no, count)) && no == 1 && count > 1,
    ensures
        ({
            let (stem, _, count) = shard_parts(name)->0;
            shard_names(stem, count)[0] == name
        }),
{
    reveal_strlit("-");
    reveal_strlit("-of-");
    reveal_strlit(".gguf");
    let base = without_suffix(name, ".gguf"@)->0;
    rfind_from_is_last(base, "-of-"@, base.len() - 4);
    let (head, count) = split_last(base, "-of-"@)->0;
    rfind_from_is_last(head, "-"@, head.len() - 1);
    let (stem, no) = split_last(head, "-"@)->0;
    assert(name =~= base + name.subrange(name.len() - 5, name.len() as int));
    let k = rfind(base, "-of-"@)->0;
    assert(base =~= head + base.subrange(k, k + 4) + count);
    let j = rfind(head, "-"@)->0;
    assert(head =~= stem + head.subrange(j, j + 1) + no);
    assert(name =~= stem + "-"@ + no + "-of-"@ + count + ".gguf"@);
    padded_of_digits(no);
    padded_of_digits(count);
}

proof fn spelled_after_zeros(k: nat, s: Seq<char>)
    requires
        all_digits(s),
    ensures
        all_digits(Seq::new(k, |i: int| '0') + s),
        spelled(Seq::new(k, |i: int| '0') + s) == spelled(s),
    decreases k + s.len(),
{
    let z = Seq::new(k, |i: int| '0');
    let t = z + s;
    if s.len() > 0 {
        let r = s.drop_last();
        assert forall|i: int| 0 <= i < r.len() implies is_digit(#[trigger] r[i]) by {
            assert(r[i] == s[i]);
        }
        spelled_after_zeros(k, r);
        assert(t.drop_last() =~= z + r);
    } else if k > 0 {
        spelled_after_zeros((k - 1) as nat, s);
        assert(t.drop_last() =~= Seq::new((k - 1) as nat, |i: int| '0') + s);
        assert(t.last() == '0');
    } else {
        assert(t =~= s);
    }
}

/// The parts of a shard's name are read back from it.
pub proof fn shard_names_are_read_back(stem: Seq<char>, i: nat, count: nat)
    requires
        i < 100_000,
        count < 100_000,
    ensures
        shard_parts(shard_name(stem, i, count)) == Some((stem, i, count)),
{
    decimal_is_spelled(i);
    decimal_is_spelled(count);
    spelled_after_zeros((5 - decimal(i).len()) as nat, decimal(i));
    spelled_after_zeros((5 - decimal(count).len()) as nat, decimal(count));
    if decimal(i).len() == 5 {
        assert(Seq::new(0, |k: int| '0') + decimal(i) =~= decimal(i));
    }
    if decimal(count).len() == 5 {
        assert(Seq::new(0, |k: int| '0') + decimal(count) =~= decimal(count));
    }
    parts_of_fields(stem, decimal_padded(i, 5), decimal_padded(count, 5));
}

/// A model without files has nothing; each further file adds its tensors behind those
/// before, with their offsets counted from the start of the file and the number of the
/// file. The metadata and the alignment are those of the first file.
pub proof fn files_add_their_tensors(
    files: Seq<Seq<u8>>,
    more: Seq<u8>,
    m: ModelSpec,
    f: FileSpec,
    i: int,
)
    requires
        files.len() < usize::MAX,
        model_of(files) == Ok::<ModelSpec, ModelError>(m),
        file_of(more) == Ok::<FileSpec, GgufError>(f),
        forall|k: int|
            0 <= k < f.tensors.len() ==> (#[trigger] f.tensors[k]).offset + f.data_start
                <= 0xffff_ffff_ffff_ffff,
        0 <= i < f.tensors.len(),
    ensures
        model_of(files.push(more)) matches Ok(w) && {
            let t = w.tensors[m.tensors.len() + i];
            &&& w.tensors.len() == m.tensors.len() + f.tensors.len()
            &&& w.tensors.take(m.tensors.len() as int) == m.tensors
            &&& t.name == f.tensors[i].name
            &&& t.dims == f.tensors[i].dims
            &&& t.ty == f.tensors[i].ty
            &&& t.offset == f.tensors[i].offset + f.data_start
            &&& t.shard == files.len()
            &&& w.kvs == (if files.len() == 0 {
                f.kvs
            } else {
                m.kvs
            })
            &&& w.alignment == (if files.len() == 0 {
                f.alignment
            } else {
                m.alignment
            })
        },
{
    let all = files.push(more);
    assert(all.take(files.len() as int) =~= files.take(files.len() as int));
    same_model(files, all, files.len() as int);
    no_overflow(f.tensors, f.data_start, 0);
    assert(all[all.len() - 1] == more);
    let w = model_of(all)->Ok_0;
    assert(w.tensors.take(m.tensors.len() as int) =~= m.tensors);
}

/// No file at all makes an empty model.
pub proof fn no_files_make_an_empty_model(files: Seq<Seq<u8>>)
    requires
        files.len() == 0,
    ensures
        model_of(files) matches Ok(m) && m.kvs.len() == 0 && m.tensors.len() == 0 && m.alignment
            == 32,
{
}

proof fn same_model(a: Seq<Seq<u8>>, b: Seq<Seq<u8>>, n: int)
    requires
        0 <= n <= a.len(),
        n <= b.len(),
        a.take(n) == b.take(n),
    ensures
        model_upto(a, n) == model_upto(b, n),
    decreases n,
{
    if n > 0 {
        assert(a.take(n)[n - 1] == b.take(n)[n - 1]);
        assert(a.take(n - 1) =~= a.take(n).take(n - 1));
        assert(b.take(n - 1) =~= b.take(n).take(n - 1));
        same_model(a, b, n - 1);
    }
}

proof fn no_overflow(ts: Seq<TensorSpec>, start: nat, i: int)
    requires
        0 <= i,
        forall|k: int|
            0 <= k < ts.len() ==> (#[trigger] ts[k]).offset + start <= 0xffff_ffff_ffff_ffff,
    ensures
        first_overflow(ts, start, i) is None,
    decreases ts.len() - i,
{
    if i < ts.len() {
        no_overflow(ts, start, i + 1);
    }
}

proof fn an_overflow(ts: Seq<TensorSpec>, start: nat, i: int, k: int)
    requires
        0 <= i <= k < ts.len(),
        forall|j: int|
            i <= j < k ==> (#[trigger] ts[j]).offset + start <= 0xffff_ffff_ffff_ffff,
        ts[k].offset + start > 0xffff_ffff_ffff_ffff,
    ensures
        first_overflow(ts, start, i) == Some(k),
    decreases k - i,
{
    if i < k {
        an_overflow(ts, start, i + 1, k);
    }
}

/// The first file that cannot be taken is named, with what is wrong with it, whatever
/// stands behind it.
pub proof fn the_first_bad_file_is_named(
    files: Seq<Seq<u8>>,
    bad: Seq<u8>,
    rest: Seq<Seq<u8>>,
    k: int,
)
    requires
        model_of(files) is Ok,
    ensures
        file_of(bad) matches Err(e) ==> model_of(files.push(bad) + rest) == Err::<
            ModelSpec,
            ModelError,
        >(ModelError::Parse { shard: files.len() as usize, error: e }),
        (file_of(bad) matches Ok(f) && 0 <= k < f.tensors.len() && f.tensors[k].offset
            + f.data_start > 0xffff_ffff_ffff_ffff && (forall|j: int|
            0 <= j < k ==> (#[trigger] f.tensors[j]).offset + f.data_start
                <= 0xffff_ffff_ffff_ffff)) ==> model_of(files.push(bad) + rest) == Err::<
            ModelSpec,
            ModelError,
        >(ModelError::OffsetOutOfRange { shard: files.len() as usize, tensor: k as usize }),
{
    let all = files.push(bad) + rest;
    let n = files.len() as int;
    assert(all.take(n) =~= files.take(n));
    same_model(files, all, n);
    assert(all[n] == bad);
    if let Ok(f) = file_of(bad) {
        if 0 <= k < f.tensors.len() && f.tensors[k].offset + f.data_start > 0xffff_ffff_ffff_ffff
            && (forall|j: int|
            0 <= j < k ==> (#[trigger] f.tensors[j]).offset + f.data_start
                <= 0xffff_ffff_ffff_ffff) {
            an_overflow(f.tensors, f.data_start, 0, k);
            error_stays(all, n + 1, all.len() as int);
        }
    } else {
        error_stays(all, n + 1, all.len() as int);
    }
}

/// The lengths of files add up.
pub proof fn file_lengths_add_up(files: Seq<Seq<u8>>, n: int)
    requires
        0 <= n <= files.len(),
    ensures
        bytes_upto(files, n) == files.take(n).fold_left(0int, |a: int, f: Seq<u8>| a + f.len()),
    decreases n,
{
    reveal_with_fuel(Seq::fold_left, 2);
    if n > 0 {
        file_lengths_add_up(files, n - 1);
        assert(files.take(n).drop_last() =~= files.take(n - 1));
    }
}

/// The name of a shard: the stem, a hyphen, its number in five digits, `-of-`, the
/// count in five digits, and `.gguf`.
pub proof fn shard_names_have_five_digits(stem: Seq<char>, i: nat, count: nat)
    requires
        i < 100_000,
        count < 100_000,
    ensures
        ({
            let s = shard_name(stem, i, count);
            let n = stem.len() as int;
            &&& s.len() == n + 20
            &&& s.subrange(0, n) == stem
            &&& s[n] == '-'
            &&& spelled(s.subrange(n + 1, n + 6)) == i
            &&& all_digits(s.subrange(n + 1, n + 6))
            &&& s.subrange(n + 6, n + 10) == seq!['-', 'o', 'f', '-']
            &&& spelled(s.subrange(n + 10, n + 15)) == count
            &&& all_digits(s.subrange(n + 10, n + 15))
            &&& s.subrange(n + 15, n + 20) == seq!['.', 'g', 'g', 'u', 'f']
        }),
{
    reveal_strlit("-");
    reveal_strlit("-of-");
    reveal_strlit(".gguf");
    five_digits(i);
    five_digits(count);
    let (a, b) = (decimal_padded(i, 5), decimal_padded(count, 5));
    let s = shard_name(stem, i, count);
    let n = stem.len() as int;
    assert(s.subrange(0, n) =~= stem);
    assert(s.subrange(n + 1, n + 6) =~= a);
    assert(s.subrange(n + 6, n + 10) =~= seq!['-', 'o', 'f', '-']);
    assert(s.subrange(n + 10, n + 15) =~= b);
    assert(s.subrange(n + 15, n + 20) =~= seq!['.', 'g', 'g', 'u', 'f']);
}

proof fn five_digits(i: nat)
    requires
        i < 100_000,
    ensures
        decimal_padded(i, 5).len() == 5,
        all_digits(decimal_padded(i, 5)),
        spelled(decimal_padded(i, 5)) == i,
{
    decimal_is_spelled(i);
    spelled_after_zeros((5 - decimal(i).len()) as nat, decimal(i));
}

/// Only the names of shards have parts: a name with a stem, a number and a count is
/// the name of that shard.
pub proof fn only_shard_names_have_parts(name: Seq<char>)
    ensures
        shard_parts(name) matches Some((stem, no, count)) ==> name == shard_name(stem, no, count)
            && no < 100_000 && count < 100_000,
{
    if let Some((stem, n, c)) = shard_parts(name) {
        reveal_strlit("-");
        reveal_strlit("-of-");
        reveal_strlit(".gguf");
        let base = without_suffix(name, ".gguf"@)->0;
        rfind_from_is_last(base, "-of-"@, base.len() - 4);
        let (head, count) = split_last(base, "-of-"@)->0;
        rfind_from_is_last(head, "-"@, head.len() - 1);
        let (st, no) = split_last(head, "-"@)->0;
        assert(name =~= base + name.subrange(name.len() - 5, name.len() as int));
        let k = rfind(base, "-of-"@)->0;
        assert(base =~= head + base.subrange(k, k + 4) + count);
        let j = rfind(head, "-"@)->0;
        assert(head =~= st + head.subrange(j, j + 1) + no);
        assert(name =~= st + "-"@ + no + "-of-"@ + count + ".gguf"@);
        padded_of_digits(no);
        padded_of_digits(count);
        spelled_bound(no);
        spelled_bound(count);
    }
}

/// The shards of a model are numbered from one to their count.
pub proof fn shards_are_numbered_from_one(stem: Seq<char>, count: nat, i: int)
    requires
        0 <= i < count < 100_000,
    ensures
        shard_names(stem, count).len() == count,
        shard_parts(shard_names(stem, count)[i]) == Some((stem, (i + 1) as nat, count)),
{
    shard_names_are_read_back(stem, (i + 1) as nat, count);
}

/// The data of a tensor are held if they end no later than the file that it is in.
pub proof fn data_are_held_up_to_the_end(m: Model<'_>, t: TensorSpec)
    requires
        t.shard < m.shards@.len(),
        t.sized(),
    ensures
        m.holds(t) <==> t.size() <= m.shards@[t.shard as int]@.len() - t.offset,
{
}

/// A tensor of a file that is not there has no data.
pub proof fn missing_files_hold_nothing(m: Model<'_>, t: TensorSpec)
    requires
        t.shard >= m.shards@.len() || !t.sized(),
    ensures
        !m.holds(t),
{
}

} // verus!
