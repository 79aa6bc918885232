//! The GGUF container: what a file holds, and how it is read.
//!
//! A file is a header (magic, version, counts), the metadata entries, the
//! tensor descriptions, and after padding the data section.

use vstd::prelude::*;
use vstd::slice::*;
use vstd::string::*;
use vstd::utf8::*;

use crate::ggml_type::type_of_code;
pub use crate::ggml_type::GgmlType;
use crate::le::{le_value, u16_of, u32_of, u64_of};
use crate::text::same_str;
use crate::value::{views, Val};
pub use crate::value::Value;

verus! {

/// "GGUF" read as a little-endian integer.
pub const GGUF_MAGIC: u32 = 0x4655_4747;

/// The alignment of the data section where the metadata declare none.
pub const DEFAULT_ALIGNMENT: u64 = 32;

/// Why bytes are not a GGUF file.
#[derive(Debug, Clone, Copy, PartialEq, Eq, Structural)]
pub enum GgufError {
    /// `need` more bytes were wanted at position `at`, and the file ends before that.
    Eof { at: u64, need: u64 },
    /// The file begins with another number than `GGUF_MAGIC`.
    BadMagic(u32),
    /// The version is neither 2 nor 3.
    BadVersion(u32),
    /// A metadata value has a type code that stands for no type.
    UnknownValueType(u32),
    /// The metadata declare an alignment of zero.
    ZeroAlignment,
    /// The data section would begin beyond the range of 64-bit offsets.
    DataStartOutOfRange,
}

/// What `String::from_utf8_lossy` makes of bytes that are not UTF-8.
pub uninterp spec fn repaired_text(bytes: Seq<u8>) -> Seq<char>;

/// The text that bytes of a file stand for: their UTF-8 decoding where they
/// are UTF-8, otherwise what replacing the malformed parts gives.
pub open spec fn text_of(bytes: Seq<u8>) -> Seq<char> {
    if valid_utf8(bytes) {
        decode_utf8(bytes)
    } else {
        repaired_text(bytes)
    }
}

/// `String::from_utf8_lossy`: the UTF-8 decoding of the bytes where they are
/// UTF-8. Of other bytes the result depends on the bytes alone; what it is in
/// detail is left unsaid.
#[verifier::external_body]
pub(crate) fn lossy_string(bytes: &[u8]) -> (r: String)
    ensures
        r@ == (if valid_utf8(bytes@) {
            decode_utf8(bytes@)
        } else {
            repaired_text(bytes@)
        }),
{
    String::from_utf8_lossy(bytes).into_owned()
}

/// One tensor of a file.
#[derive(Debug)]
pub struct TensorInfo {
    pub name: String,
    /// Logical dims, ne[0] is the row (contiguous) dimension.
    pub dims: Vec<u64>,
    pub ty: GgmlType,
    /// Offset relative to the start of the data section.
    pub offset: u64,
    /// Which shard of a split model holds this tensor's data.
    pub shard: usize,
}

/// What a `TensorInfo` holds.
pub struct TensorSpec {
    pub name: Seq<char>,
    pub dims: Seq<u64>,
    pub ty: GgmlType,
    pub offset: u64,
    pub shard: usize,
}

impl View for TensorInfo {
    type V = TensorSpec;

    open spec fn view(&self) -> TensorSpec {
        TensorSpec {
            name: self.name@,
            dims: self.dims@,
            ty: self.ty,
            offset: self.offset,
            shard: self.shard,
        }
    }
}

impl Clone for TensorInfo {
    fn clone(&self) -> (r: TensorInfo)
        ensures
            r@ == self@,
    {
        let mut dims: Vec<u64> = Vec::new();
        dims.extend_from_slice(self.dims.as_slice());
        assert(dims@ =~= self.dims@);
        TensorInfo {
            name: self.name.clone(),
            dims,
            ty: self.ty,
            offset: self.offset,
            shard: self.shard,
        }
    }
}

/// The product of some dimensions.
pub open spec fn product(dims: Seq<u64>) -> nat
    decreases dims.len(),
{
    if dims.len() == 0 {
        1
    } else {
        product(dims.drop_last()) * dims.last() as nat
    }
}

impl TensorSpec {
    /// Number of elements.
    pub open spec fn elems(self) -> nat {
        product(self.dims)
    }

    /// Number of rows: the product of all dimensions but the first.
    pub open spec fn rows(self) -> nat {
        product(if self.dims.len() == 0 {
            self.dims
        } else {
            self.dims.subrange(1, self.dims.len() as int)
        })
    }

    /// The row length in bytes as type `ty`.
    pub open spec fn row_size_as(self, ty: GgmlType) -> nat {
        ty.row_size(self.dims[0] as nat)
    }

    /// The size in bytes as type `ty`.
    pub open spec fn size_as(self, ty: GgmlType) -> nat {
        self.row_size_as(ty) * self.rows()
    }

    /// The size in bytes.
    pub open spec fn size(self) -> nat {
        self.size_as(self.ty)
    }

    /// The tensor has a size as type `ty`: it has rows of whole blocks, and
    /// the numbers involved fit in 64 bits.
    pub open spec fn sized_as(self, ty: GgmlType) -> bool {
        &&& self.dims.len() > 0
        &&& ty.divides(self.dims[0] as nat)
        &&& self.row_size_as(ty) <= u64::MAX
        &&& self.rows() <= u64::MAX
        &&& self.size_as(ty) <= u64::MAX
    }

    /// The tensor has a size.
    pub open spec fn sized(self) -> bool {
        self.sized_as(self.ty)
    }
}

/// A product of factors none of which is zero is at least that of a prefix.
pub proof fn product_of_prefix(dims: Seq<u64>, k: int)
    requires
        0 <= k <= dims.len(),
        forall|i: int| 0 <= i < dims.len() ==> dims[i] != 0,
    ensures
        1 <= product(dims.subrange(0, k)) <= product(dims),
    decreases dims.len(),
{
    if k == dims.len() {
        assert(dims.subrange(0, k) =~= dims);
        if k > 0 {
            product_of_prefix(dims.drop_last(), k - 1);
            assert(dims.drop_last().subrange(0, k - 1) =~= dims.drop_last());
            assert(product(dims) >= 1) by (nonlinear_arith)
                requires
                    product(dims.drop_last()) >= 1,
                    dims.last() >= 1,
                    product(dims) == product(dims.drop_last()) * dims.last() as nat,
            ;
        }
    } else {
        product_of_prefix(dims.drop_last(), k);
        assert(dims.drop_last().subrange(0, k) =~= dims.subrange(0, k));
        assert(product(dims.drop_last()) <= product(dims)) by (nonlinear_arith)
            requires
                dims.last() >= 1,
                product(dims) == product(dims.drop_last()) * dims.last() as nat,
        ;
    }
}

/// A product with a factor zero is zero.
pub proof fn product_with_zero(dims: Seq<u64>, i: int)
    requires
        0 <= i < dims.len(),
        dims[i] == 0,
    ensures
        product(dims) == 0,
    decreases dims.len(),
{
    if i == dims.len() - 1 {
        assert(product(dims) == 0) by (nonlinear_arith)
            requires
                product(dims) == product(dims.drop_last()) * dims.last() as nat,
                dims.last() == 0,
        ;
    } else {
        product_with_zero(dims.drop_last(), i);
        assert(product(dims) == 0) by (nonlinear_arith)
            requires
                product(dims) == product(dims.drop_last()) * dims.last() as nat,
                product(dims.drop_last()) == 0,
        ;
    }
}

/// The product of the dimensions from `from` on, or `None` where it does not
/// fit in 64 bits.
fn checked_product(dims: &Vec<u64>, from: usize) -> (r: Option<u64>)
    requires
        from <= dims@.len(),
    ensures
        r is Some <==> product(dims@.subrange(from as int, dims@.len() as int)) <= u64::MAX,
        r matches Some(p) ==> p == product(dims@.subrange(from as int, dims@.len() as int)),
{
    let ghost all = dims@.subrange(from as int, dims@.len() as int);
    for i in from..dims.len()
        invariant
            all == dims@.subrange(from as int, dims@.len() as int),
            from <= dims@.len(),
            forall|k: int| 0 <= k < i - from ==> all[k] != 0,
    {
        if dims[i] == 0 {
            proof {
                product_with_zero(all, i - from);
            }
            return Some(0);
        }
        assert(all[i - from] == dims@[i as int]);
    }
    let mut p: u64 = 1;
    for i in from..dims.len()
        invariant
            all == dims@.subrange(from as int, dims@.len() as int),
            from <= dims@.len(),
            forall|k: int| 0 <= k < all.len() ==> all[k] != 0,
            p == product(all.subrange(0, i - from)),
    {
        let ghost head = all.subrange(0, i - from + 1);
        assert(head.drop_last() =~= all.subrange(0, i - from));
        assert(head.last() == dims@[i as int]);
        match p.checked_mul(dims[i]) {
            Some(q) => {
                p = q;
            },
            None => {
                proof {
                    product_of_prefix(all, i - from + 1);
                }
                return None;
            },
        }
    }
    assert(all.subrange(0, all.len() as int) =~= all);
    Some(p)
}

impl TensorInfo {
    /// Number of elements.
    pub fn n_elements(&self) -> (r: u64)
        requires
            self@.elems() <= u64::MAX,
        ensures
            r == self@.elems(),
    {
        assert(self.dims@.subrange(0, self.dims@.len() as int) =~= self.dims@);
        match checked_product(&self.dims, 0) {
            Some(p) => p,
            None => 0,
        }
    }

    /// Row length in elements.
    pub fn ne0(&self) -> (r: u64)
        requires
            self.dims@.len() > 0,
        ensures
            r == self.dims@[0],
    {
        self.dims[0]
    }

    /// Number of rows.
    pub fn n_rows(&self) -> (r: u64)
        requires
            self@.rows() <= u64::MAX,
        ensures
            r == self@.rows(),
    {
        match self.checked_rows() {
            Some(p) => p,
            None => 0,
        }
    }

    fn checked_rows(&self) -> (r: Option<u64>)
        ensures
            r is Some <==> self@.rows() <= u64::MAX,
            r matches Some(p) ==> p == self@.rows(),
    {
        let from: usize = if self.dims.len() == 0 { 0 } else { 1 };
        assert(self.dims@.len() == 0 ==> self.dims@.subrange(0, 0) =~= self.dims@);
        checked_product(&self.dims, from)
    }

    /// Size in bytes.
    pub fn byte_size(&self) -> (r: u64)
        requires
            self@.sized(),
        ensures
            r == self@.size(),
    {
        self.byte_size_as(self.ty)
    }

    /// Size in bytes after conversion to `ty`.
    pub fn byte_size_as(&self, ty: GgmlType) -> (r: u64)
        requires
            self@.sized_as(ty),
        ensures
            r == self@.size_as(ty),
    {
        ty.row_bytes(self.ne0()) * self.n_rows()
    }

    /// Size in bytes after conversion to `ty`, or `None` where the tensor has
    /// no size as that type.
    pub fn checked_byte_size_as(&self, ty: GgmlType) -> (r: Option<u64>)
        ensures
            r is Some <==> self@.sized_as(ty),
            r matches Some(b) ==> b == self@.size_as(ty),
    {
        if self.dims.len() == 0 {
            return None;
        }
        match (ty.checked_row_bytes(self.dims[0]), self.checked_rows()) {
            (Some(rb), Some(rows)) => rb.checked_mul(rows),
            _ => None,
        }
    }
}

/// The contents of a GGUF file but for the tensor data.
pub struct GgufFile {
    pub kvs: Vec<(String, Value)>,
    pub tensors: Vec<TensorInfo>,
    /// Absolute file offset where the data section begins.
    pub data_start: u64,
    pub alignment: u64,
}

/// What a `GgufFile` holds.
pub struct FileSpec {
    pub kvs: Seq<(Seq<char>, Val)>,
    pub tensors: Seq<TensorSpec>,
    pub data_start: nat,
    pub alignment: u64,
}

/// What metadata entries hold.
pub open spec fn kv_views(kvs: Seq<(String, Value)>) -> Seq<(Seq<char>, Val)> {
    Seq::new(kvs.len(), |i: int| (kvs[i].0@, kvs[i].1@))
}

/// What tensor descriptions hold.
pub open spec fn tensor_views(ts: Seq<TensorInfo>) -> Seq<TensorSpec> {
    Seq::new(ts.len(), |i: int| ts[i]@)
}

impl View for GgufFile {
    type V = FileSpec;

    open spec fn view(&self) -> FileSpec {
        FileSpec {
            kvs: kv_views(self.kvs@),
            tensors: tensor_views(self.tensors@),
            data_start: self.data_start as nat,
            alignment: self.alignment,
        }
    }
}

/// The first value under `key`.
pub open spec fn lookup(kvs: Seq<(Seq<char>, Val)>, key: Seq<char>) -> Option<Val>
    decreases kvs.len(),
{
    if kvs.len() == 0 {
        None
    } else if kvs[0].0 == key {
        Some(kvs[0].1)
    } else {
        lookup(kvs.subrange(1, kvs.len() as int), key)
    }
}

/// The first value under `key`, where there is one.
pub fn find_kv<'a>(kvs: &'a [(String, Value)], key: &str) -> (r: Option<&'a Value>)
    ensures
        r is Some <==> lookup(kv_views(kvs@), key@) is Some,
        r matches Some(v) ==> lookup(kv_views(kvs@), key@) == Some(v@),
{
    let ghost all = kv_views(kvs@);
    assert(all.subrange(0, all.len() as int) =~= all);
    for i in 0..kvs.len()
        invariant
            all == kv_views(kvs@),
            lookup(all, key@) == lookup(all.subrange(i as int, all.len() as int), key@),
    {
        let ghost rest = all.subrange(i as int, all.len() as int);
        assert(rest[0] == (kvs@[i as int].0@, kvs@[i as int].1@));
        assert(rest.subrange(1, rest.len() as int) =~= all.subrange(i + 1, all.len() as int));
        if same_str(kvs[i].0.as_str(), key) {
            return Some(&kvs[i].1);
        }
    }
    None
}

/// The least multiple of `a` that is at least `x`.
pub open spec fn round_up(x: nat, a: nat) -> nat {
    (x + a - 1) as nat / a * a
}

/// `round_up` gives a multiple, at least `x` and less than `a` above it.
pub proof fn round_up_bounds(x: nat, a: nat)
    requires
        a > 0,
    ensures
        x <= round_up(x, a) < x + a,
        round_up(x, a) % a == 0,
        x <= a && x > 0 ==> round_up(x, a) == a,
        x == 0 ==> round_up(x, a) == 0,
{
    let q = (x + a - 1) as nat / a;
    let r = (x + a - 1) as nat % a;
    vstd::arithmetic::div_mod::lemma_fundamental_div_mod((x + a - 1) as int, a as int);
    assert(q * a == a * q) by (nonlinear_arith);
    vstd::arithmetic::div_mod::lemma_mod_multiples_basic(q as int, a as int);
    if x == 0 {
        vstd::arithmetic::div_mod::lemma_basic_div((a - 1) as int, a as int);
        assert(q * a == 0) by (nonlinear_arith)
            requires
                q == 0,
        ;
    } else if x <= a {
        assert(q == 1) by (nonlinear_arith)
            requires
                x + a - 1 == a * q + r,
                0 <= r < a,
                0 < x <= a,
        ;
        assert(q * a == a) by (nonlinear_arith)
            requires
                q == 1,
        ;
    }
}

/// The least multiple of `a` that is at least `x`, where it fits in 64 bits.
pub fn checked_align_up(x: u64, a: u64) -> (r: Option<u64>)
    requires
        a > 0,
    ensures
        r is Some <==> round_up(x as nat, a as nat) <= u64::MAX,
        r matches Some(u) ==> u == round_up(x as nat, a as nat),
{
    proof {
        round_up_bounds(x as nat, a as nat);
    }
    let m: u64 = x % a;
    if m == 0 {
        proof {
            align_exact(x as nat, a as nat);
        }
        Some(x)
    } else {
        proof {
            align_rest(x as nat, a as nat);
        }
        (x - m).checked_add(a)
    }
}

proof fn align_exact(x: nat, a: nat)
    requires
        a > 0,
        x % a == 0,
    ensures
        round_up(x, a) == x,
{
    round_up_bounds(x, a);
    let u = round_up(x, a);
    vstd::arithmetic::div_mod::lemma_fundamental_div_mod(x as int, a as int);
    vstd::arithmetic::div_mod::lemma_fundamental_div_mod(u as int, a as int);
    let p = x / a;
    let q = u / a;
    assert(q == p) by (nonlinear_arith)
        requires
            x == a * p,
            u == a * q,
            x <= u < x + a,
            a > 0,
    ;
}

proof fn align_rest(x: nat, a: nat)
    requires
        a > 0,
        x % a != 0,
    ensures
        round_up(x, a) == x - x % a + a,
{
    round_up_bounds(x, a);
    let u = round_up(x, a);
    vstd::arithmetic::div_mod::lemma_fundamental_div_mod(x as int, a as int);
    vstd::arithmetic::div_mod::lemma_fundamental_div_mod(u as int, a as int);
    let p = x / a;
    let q = u / a;
    let m = x % a;
    assert(q == p + 1) by (nonlinear_arith)
        requires
            x == a * p + m,
            0 < m < a,
            u == a * q,
            x <= u < x + a,
    ;
    assert(a * (p + 1) == a * p + a) by (nonlinear_arith);
}

/// `n` bytes at `pos`, and the position behind them.
pub open spec fn take_at(b: Seq<u8>, pos: int, n: nat) -> Result<(Seq<u8>, int), GgufError> {
    if pos + n > b.len() {
        Err(GgufError::Eof { at: pos as u64, need: n as u64 })
    } else {
        Ok((b.subrange(pos, pos + n), pos + n))
    }
}

/// The four-byte integer at `pos`.
pub open spec fn u32_at(b: Seq<u8>, pos: int) -> Result<(u32, int), GgufError> {
    match take_at(b, pos, 4) {
        Err(e) => Err(e),
        Ok((s, p)) => Ok((le_value(s) as u32, p)),
    }
}

/// The eight-byte integer at `pos`.
pub open spec fn u64_at(b: Seq<u8>, pos: int) -> Result<(u64, int), GgufError> {
    match take_at(b, pos, 8) {
        Err(e) => Err(e),
        Ok((s, p)) => Ok((le_value(s) as u64, p)),
    }
}

/// The string at `pos`: an eight-byte length, then the bytes.
pub open spec fn string_at(b: Seq<u8>, pos: int) -> Result<(Seq<char>, int), GgufError> {
    match u64_at(b, pos) {
        Err(e) => Err(e),
        Ok((n, p)) => match take_at(b, p, n as nat) {
            Err(e) => Err(e),
            Ok((s, q)) => Ok((text_of(s), q)),
        },
    }
}

/// The value of type `ty` at `pos`.
pub open spec fn value_at(b: Seq<u8>, pos: int, ty: u32) -> Result<(Val, int), GgufError>
    decreases b.len() - pos, 0nat,
{
    if ty == 0 || ty == 1 || ty == 7 {
        match take_at(b, pos, 1) {
            Err(e) => Err(e),
            Ok((s, p)) => Ok(
                (
                    if ty == 0 {
                        Val::U8(s[0])
                    } else if ty == 1 {
                        Val::I8(s[0] as i8)
                    } else {
                        Val::Bool(s[0] != 0)
                    },
                    p,
                ),
            ),
        }
    } else if ty == 2 || ty == 3 {
        match take_at(b, pos, 2) {
            Err(e) => Err(e),
            Ok((s, p)) => Ok(
                (
                    if ty == 2 {
                        Val::U16(le_value(s) as u16)
                    } else {
                        Val::I16((le_value(s) as u16) as i16)
                    },
                    p,
                ),
            ),
        }
    } else if ty == 4 || ty == 5 || ty == 6 {
        match u32_at(b, pos) {
            Err(e) => Err(e),
            Ok((x, p)) => Ok(
                (
                    if ty == 4 {
                        Val::U32(x)
                    } else if ty == 5 {
                        Val::I32(x as i32)
                    } else {
                        Val::F32(x)
                    },
                    p,
                ),
            ),
        }
    } else if ty == 8 {
        match string_at(b, pos) {
            Err(e) => Err(e),
            Ok((s, p)) => Ok((Val::Str(s), p)),
        }
    } else if ty == 9 {
        match u32_at(b, pos) {
            Err(e) => Err(e),
            Ok((elem, p)) => match u64_at(b, p) {
                Err(e) => Err(e),
                Ok((n, q)) => match values_at(b, q, elem, n as nat) {
                    Err(e) => Err(e),
                    Ok((vs, r)) => Ok((Val::Arr(elem, vs), r)),
                },
            },
        }
    } else if ty == 10 || ty == 11 || ty == 12 {
        match u64_at(b, pos) {
            Err(e) => Err(e),
            Ok((x, p)) => Ok(
                (
                    if ty == 10 {
                        Val::U64(x)
                    } else if ty == 11 {
                        Val::I64(x as i64)
                    } else {
                        Val::F64(x)
                    },
                    p,
                ),
            ),
        }
    } else {
        Err(GgufError::UnknownValueType(ty))
    }
}

/// `n` values of type `ty`, one after the other, from `pos` on. (A value takes
/// at least one byte, so the last branch is never taken.)
pub open spec fn values_at(b: Seq<u8>, pos: int, ty: u32, n: nat) -> Result<
    (Seq<Val>, int),
    GgufError,
>
    decreases b.len() - pos, n + 1,
{
    if n == 0 {
        Ok((seq![], pos))
    } else {
        match value_at(b, pos, ty) {
            Err(e) => Err(e),
            Ok((v, p)) => if pos < p <= b.len() {
                match values_at(b, p, ty, (n - 1) as nat) {
                    Err(e) => Err(e),
                    Ok((vs, q)) => Ok((seq![v] + vs, q)),
                }
            } else {
                Err(GgufError::UnknownValueType(ty))
            },
        }
    }
}

/// `n` metadata entries from `pos` on: a key, the value's type, the value.
pub open spec fn kvs_at(b: Seq<u8>, pos: int, n: nat) -> Result<
    (Seq<(Seq<char>, Val)>, int),
    GgufError,
>
    decreases n,
{
    if n == 0 {
        Ok((seq![], pos))
    } else {
        match string_at(b, pos) {
            Err(e) => Err(e),
            Ok((key, p)) => match u32_at(b, p) {
                Err(e) => Err(e),
                Ok((ty, q)) => match value_at(b, q, ty) {
                    Err(e) => Err(e),
                    Ok((v, r)) => match kvs_at(b, r, (n - 1) as nat) {
                        Err(e) => Err(e),
                        Ok((rest, end)) => Ok((seq![(key, v)] + rest, end)),
                    },
                },
            },
        }
    }
}

/// `n` dimensions from `pos` on.
pub open spec fn dims_at(b: Seq<u8>, pos: int, n: nat) -> Result<(Seq<u64>, int), GgufError>
    decreases n,
{
    if n == 0 {
        Ok((seq![], pos))
    } else {
        match u64_at(b, pos) {
            Err(e) => Err(e),
            Ok((d, p)) => match dims_at(b, p, (n - 1) as nat) {
                Err(e) => Err(e),
                Ok((rest, q)) => Ok((seq![d] + rest, q)),
            },
        }
    }
}

/// The tensor description at `pos`: name, number of dimensions, dimensions,
/// type, offset.
pub open spec fn tensor_at(b: Seq<u8>, pos: int) -> Result<(TensorSpec, int), GgufError> {
    match string_at(b, pos) {
        Err(e) => Err(e),
        Ok((name, p1)) => match u32_at(b, p1) {
            Err(e) => Err(e),
            Ok((n_dims, p2)) => match dims_at(b, p2, n_dims as nat) {
                Err(e) => Err(e),
                Ok((dims, p3)) => match u32_at(b, p3) {
                    Err(e) => Err(e),
                    Ok((code, p4)) => match u64_at(b, p4) {
                        Err(e) => Err(e),
                        Ok((offset, p5)) => Ok(
                            (
                                TensorSpec { name, dims, ty: type_of_code(code), offset, shard: 0 },
                                p5,
                            ),
                        ),
                    },
                },
            },
        },
    }
}

/// `n` tensor descriptions from `pos` on.
pub open spec fn tensors_at(b: Seq<u8>, pos: int, n: nat) -> Result<
    (Seq<TensorSpec>, int),
    GgufError,
>
    decreases n,
{
    if n == 0 {
        Ok((seq![], pos))
    } else {
        match tensor_at(b, pos) {
            Err(e) => Err(e),
            Ok((t, p)) => match tensors_at(b, p, (n - 1) as nat) {
                Err(e) => Err(e),
                Ok((rest, q)) => Ok((seq![t] + rest, q)),
            },
        }
    }
}

/// The alignment that metadata declare.
pub open spec fn alignment_of(kvs: Seq<(Seq<char>, Val)>) -> u64 {
    match lookup(kvs, "general.alignment"@) {
        Some(v) => match v.unsigned() {
            Some(a) => a,
            None => DEFAULT_ALIGNMENT,
        },
        None => DEFAULT_ALIGNMENT,
    }
}

/// What a file holds, or why its bytes are no GGUF file.
pub open spec fn file_of(b: Seq<u8>) -> Result<FileSpec, GgufError> {
    match u32_at(b, 0) {
        Err(e) => Err(e),
        Ok((magic, p1)) => if magic != GGUF_MAGIC {
            Err(GgufError::BadMagic(magic))
        } else {
            match u32_at(b, p1) {
                Err(e) => Err(e),
                Ok((version, p2)) => if version < 2 || version > 3 {
                    Err(GgufError::BadVersion(version))
                } else {
                    match u64_at(b, p2) {
                        Err(e) => Err(e),
                        Ok((n_tensors, p3)) => match u64_at(b, p3) {
                            Err(e) => Err(e),
                            Ok((n_kv, p4)) => match kvs_at(b, p4, n_kv as nat) {
                                Err(e) => Err(e),
                                Ok((kvs, p5)) => match tensors_at(b, p5, n_tensors as nat) {
                                    Err(e) => Err(e),
                                    Ok((tensors, p6)) => if alignment_of(kvs) == 0 {
                                        Err(GgufError::ZeroAlignment)
                                    } else if round_up(p6 as nat, alignment_of(kvs) as nat)
                                        > u64::MAX {
                                        Err(GgufError::DataStartOutOfRange)
                                    } else {
                                        Ok(
                                            FileSpec {
                                                kvs,
                                                tensors,
                                                data_start: round_up(
                                                    p6 as nat,
                                                    alignment_of(kvs) as nat,
                                                ),
                                                alignment: alignment_of(kvs),
                                            },
                                        )
                                    },
                                },
                            },
                        },
                    }
                },
            }
        },
    }
}

/// A position in a byte slice, up to which it was read.
pub struct Reader<'a> {
    pub buf: &'a [u8],
    pub pos: usize,
}

impl<'a> Reader<'a> {
    /// The position lies in the slice.
    pub open spec fn wf(self) -> bool {
        self.pos <= self.buf@.len()
    }

    /// The reader stands where a successful read leaves it, or where one that ran
    /// out of bytes did so, and after any other failure not before where it was.
    pub open spec fn moved<T>(self, before: Self, outcome: Result<(T, int), GgufError>) -> bool {
        &&& self.buf == before.buf
        &&& self.wf()
        &&& self.pos >= before.pos
        &&& outcome matches Ok((_, p)) ==> self.pos == p
        &&& outcome matches Err(GgufError::Eof { at, need: _ }) ==> self.pos == at
    }

    /// The next `n` bytes.
    pub fn take(&mut self, n: u64) -> (r: Result<&'a [u8], GgufError>)
        requires
            old(self).wf(),
        ensures
            final(self).moved(*old(self), take_at(old(self).buf@, old(self).pos as int, n as nat)),
            r is Err ==> final(self).pos == old(self).pos,
            match (r, take_at(old(self).buf@, old(self).pos as int, n as nat)) {
                (Ok(s), Ok((t, _))) => s@ == t,
                (Err(e), Err(f)) => e == f,
                _ => false,
            },
    {
        if n > (self.buf.len() - self.pos) as u64 {
            return Err(GgufError::Eof { at: self.pos as u64, need: n });
        }
        let end: usize = self.pos + n as usize;
        let s = slice_subrange(self.buf, self.pos, end);
        self.pos = end;
        Ok(s)
    }

    /// The next four-byte integer.
    pub fn u32(&mut self) -> (r: Result<u32, GgufError>)
        requires
            old(self).wf(),
        ensures
            final(self).moved(*old(self), u32_at(old(self).buf@, old(self).pos as int)),
            r is Err ==> final(self).pos == old(self).pos,
            match (r, u32_at(old(self).buf@, old(self).pos as int)) {
                (Ok(x), Ok((y, _))) => x == y,
                (Err(e), Err(f)) => e == f,
                _ => false,
            },
    {
        let s = self.take(4)?;
        Ok(u32_of(s))
    }

    /// The next eight-byte integer.
    pub fn u64(&mut self) -> (r: Result<u64, GgufError>)
        requires
            old(self).wf(),
        ensures
            final(self).moved(*old(self), u64_at(old(self).buf@, old(self).pos as int)),
            r is Err ==> final(self).pos == old(self).pos,
            match (r, u64_at(old(self).buf@, old(self).pos as int)) {
                (Ok(x), Ok((y, _))) => x == y,
                (Err(e), Err(f)) => e == f,
                _ => false,
            },
    {
        let s = self.take(8)?;
        Ok(u64_of(s))
    }

    /// The next string.
    pub fn string(&mut self) -> (r: Result<String, GgufError>)
        requires
            old(self).wf(),
        ensures
            final(self).moved(*old(self), string_at(old(self).buf@, old(self).pos as int)),
            match (r, string_at(old(self).buf@, old(self).pos as int)) {
                (Ok(x), Ok((y, _))) => x@ == y,
                (Err(e), Err(f)) => e == f,
                _ => false,
            },
    {
        let n: u64 = self.u64()?;
        let s = self.take(n)?;
        Ok(lossy_string(s))
    }

    /// The next value, of type `ty`.
    pub fn value(&mut self, ty: u32) -> (r: Result<Value, GgufError>)
        requires
            old(self).wf(),
        ensures
            final(self).moved(*old(self), value_at(old(self).buf@, old(self).pos as int, ty)),
            r is Ok ==> final(self).pos > old(self).pos,
            r is Err && ty != 8 && ty != 9 ==> final(self).pos == old(self).pos,
            match (r, value_at(old(self).buf@, old(self).pos as int, ty)) {
                (Ok(x), Ok((y, _))) => x@ == y,
                (Err(e), Err(f)) => e == f,
                _ => false,
            },
        decreases old(self).buf@.len() - old(self).pos,
    {
        match ty {
            0 => {
                let s = self.take(1)?;
                Ok(Value::U8(s[0]))
            },
            1 => {
                let s = self.take(1)?;
                Ok(Value::I8(s[0] as i8))
            },
            2 => {
                let s = self.take(2)?;
                Ok(Value::U16(u16_of(s)))
            },
            3 => {
                let s = self.take(2)?;
                Ok(Value::I16(u16_of(s) as i16))
            },
            4 => {
                let x: u32 = self.u32()?;
                Ok(Value::U32(x))
            },
            5 => {
                let x: u32 = self.u32()?;
                Ok(Value::I32(x as i32))
            },
            6 => {
                let x: u32 = self.u32()?;
                Ok(Value::F32(x))
            },
            7 => {
                let s = self.take(1)?;
                Ok(Value::Bool(s[0] != 0))
            },
            8 => {
                let s = self.string()?;
                Ok(Value::Str(s))
            },
            9 => {
                let ghost b = self.buf@;
                let ghost start = self.pos as int;
                let elem: u32 = self.u32()?;
                let count: u64 = self.u64()?;
                let ghost from = self.pos as int;
                let mut vals: Vec<Value> = Vec::new();
                let mut i: u64 = 0;
                while i < count
                    invariant
                        i <= count,
                        self.buf@ == b,
                        self.buf == old(self).buf,
                        self.wf(),
                        start == old(self).pos,
                        start + 12 <= self.pos,
                        match values_at(b, self.pos as int, elem, (count - i) as nat) {
                            Err(e) => values_at(b, from, elem, count as nat)
                                == Err::<(Seq<Val>, int), GgufError>(e),
                            Ok((vs, p)) => values_at(b, from, elem, count as nat) == Ok::<
                                (Seq<Val>, int),
                                GgufError,
                            >((views(vals@) + vs, p)),
                        },
                        value_at(b, start, 9) == (match values_at(b, from, elem, count as nat) {
                            Err(e) => Err::<(Val, int), GgufError>(e),
                            Ok((vs, r)) => Ok((Val::Arr(elem, vs), r)),
                        }),
                        ty == 9,
                    decreases count - i,
                {
                    let ghost before = vals@;
                    let ghost rest = values_at(b, self.pos as int, elem, (count - i) as nat);
                    let v = self.value(elem)?;
                    vals.push(v);
                    i = i + 1;
                    proof {
                        assert(views(vals@) =~= views(before).push(v@));
                        match values_at(b, self.pos as int, elem, (count - i) as nat) {
                            Err(e) => {},
                            Ok((vs, p)) => {
                                assert(views(before) + (seq![v@] + vs) =~= views(vals@) + vs);
                            },
                        }
                    }
                }
                proof {
                    crate::value::array_view(elem, vals);
                    assert(views(vals@) + seq![] =~= views(vals@));
                }
                Ok(Value::Arr(elem, vals))
            },
            10 => {
                let x: u64 = self.u64()?;
                Ok(Value::U64(x))
            },
            11 => {
                let x: u64 = self.u64()?;
                Ok(Value::I64(x as i64))
            },
            12 => {
                let x: u64 = self.u64()?;
                Ok(Value::F64(x))
            },
            other => Err(GgufError::UnknownValueType(other)),
        }
    }
}

impl<'a> Reader<'a> {
    /// The next `count` metadata entries.
    fn kvs(&mut self, count: u64) -> (r: Result<Vec<(String, Value)>, GgufError>)
        requires
            old(self).wf(),
        ensures
            final(self).moved(*old(self), kvs_at(old(self).buf@, old(self).pos as int, count as nat)),
            match (r, kvs_at(old(self).buf@, old(self).pos as int, count as nat)) {
                (Ok(x), Ok((y, _))) => kv_views(x@) == y,
                (Err(e), Err(f)) => e == f,
                _ => false,
            },
    {
        let ghost b = self.buf@;
        let ghost from = self.pos as int;
        let mut out: Vec<(String, Value)> = Vec::new();
        let mut i: u64 = 0;
        while i < count
            invariant
                i <= count,
                self.buf@ == b,
                self.buf == old(self).buf,
                self.wf(),
                old(self).pos <= self.pos,
                match kvs_at(b, self.pos as int, (count - i) as nat) {
                    Err(e) => kvs_at(b, from, count as nat) == Err::<
                        (Seq<(Seq<char>, Val)>, int),
                        GgufError,
                    >(e),
                    Ok((vs, p)) => kvs_at(b, from, count as nat) == Ok::<
                        (Seq<(Seq<char>, Val)>, int),
                        GgufError,
                    >((kv_views(out@) + vs, p)),
                },
                from == old(self).pos,
                b == old(self).buf@,
            decreases count - i,
        {
            let ghost before = out@;
            let key = self.string()?;
            let ty: u32 = self.u32()?;
            let v = self.value(ty)?;
            let ghost item = (key@, v@);
            out.push((key, v));
            i = i + 1;
            proof {
                assert(kv_views(out@) =~= kv_views(before).push(item));
                match kvs_at(b, self.pos as int, (count - i) as nat) {
                    Err(e) => {},
                    Ok((vs, p)) => {
                        assert(kv_views(before) + (seq![item] + vs) =~= kv_views(out@) + vs);
                    },
                }
            }
        }
        assert(kv_views(out@) + seq![] =~= kv_views(out@));
        Ok(out)
    }

    /// The next `count` dimensions.
    fn dims(&mut self, count: u32) -> (r: Result<Vec<u64>, GgufError>)
        requires
            old(self).wf(),
        ensures
            final(self).moved(
                *old(self),
                dims_at(old(self).buf@, old(self).pos as int, count as nat),
            ),
            match (r, dims_at(old(self).buf@, old(self).pos as int, count as nat)) {
                (Ok(x), Ok((y, _))) => x@ == y,
                (Err(e), Err(f)) => e == f,
                _ => false,
            },
    {
        let ghost b = self.buf@;
        let ghost from = self.pos as int;
        let mut out: Vec<u64> = Vec::new();
        let mut i: u32 = 0;
        while i < count
            invariant
                i <= count,
                self.buf@ == b,
                self.buf == old(self).buf,
                self.wf(),
                old(self).pos <= self.pos,
                match dims_at(b, self.pos as int, (count - i) as nat) {
                    Err(e) => dims_at(b, from, count as nat) == Err::<(Seq<u64>, int), GgufError>(
                        e,
                    ),
                    Ok((vs, p)) => dims_at(b, from, count as nat) == Ok::<
                        (Seq<u64>, int),
                        GgufError,
                    >((out@ + vs, p)),
                },
                from == old(self).pos,
                b == old(self).buf@,
            decreases count - i,
        {
            let ghost before = out@;
            let d: u64 = self.u64()?;
            out.push(d);
            i = i + 1;
            proof {
                match dims_at(b, self.pos as int, (count - i) as nat) {
                    Err(e) => {},
                    Ok((vs, p)) => {
                        assert(before + (seq![d] + vs) =~= out@ + vs);
                    },
                }
            }
        }
        assert(out@ + seq![] =~= out@);
        Ok(out)
    }

    /// The next tensor description.
    fn tensor(&mut self) -> (r: Result<TensorInfo, GgufError>)
        requires
            old(self).wf(),
        ensures
            final(self).moved(*old(self), tensor_at(old(self).buf@, old(self).pos as int)),
            match (r, tensor_at(old(self).buf@, old(self).pos as int)) {
                (Ok(x), Ok((y, _))) => x@ == y,
                (Err(e), Err(f)) => e == f,
                _ => false,
            },
    {
        let name = self.string()?;
        let n_dims: u32 = self.u32()?;
        let dims = self.dims(n_dims)?;
        let code: u32 = self.u32()?;
        let offset: u64 = self.u64()?;
        Ok(TensorInfo { name, dims, ty: GgmlType::from_u32(code), offset, shard: 0 })
    }

    /// The next `count` tensor descriptions.
    fn tensors(&mut self, count: u64) -> (r: Result<Vec<TensorInfo>, GgufError>)
        requires
            old(self).wf(),
        ensures
            final(self).moved(
                *old(self),
                tensors_at(old(self).buf@, old(self).pos as int, count as nat),
            ),
            match (r, tensors_at(old(self).buf@, old(self).pos as int, count as nat)) {
                (Ok(x), Ok((y, _))) => tensor_views(x@) == y,
                (Err(e), Err(f)) => e == f,
                _ => false,
            },
    {
        let ghost b = self.buf@;
        let ghost from = self.pos as int;
        let mut out: Vec<TensorInfo> = Vec::new();
        let mut i: u64 = 0;
        while i < count
            invariant
                i <= count,
                self.buf@ == b,
                self.buf == old(self).buf,
                self.wf(),
                old(self).pos <= self.pos,
                match tensors_at(b, self.pos as int, (count - i) as nat) {
                    Err(e) => tensors_at(b, from, count as nat) == Err::<
                        (Seq<TensorSpec>, int),
                        GgufError,
                    >(e),
                    Ok((vs, p)) => tensors_at(b, from, count as nat) == Ok::<
                        (Seq<TensorSpec>, int),
                        GgufError,
                    >((tensor_views(out@) + vs, p)),
                },
                from == old(self).pos,
                b == old(self).buf@,
            decreases count - i,
        {
            let ghost before = out@;
            let t = self.tensor()?;
            out.push(t);
            i = i + 1;
            proof {
                assert(tensor_views(out@) =~= tensor_views(before).push(t@));
                match tensors_at(b, self.pos as int, (count - i) as nat) {
                    Err(e) => {},
                    Ok((vs, p)) => {
                        assert(tensor_views(before) + (seq![t@] + vs) =~= tensor_views(out@) + vs);
                    },
                }
            }
        }
        assert(tensor_views(out@) + seq![] =~= tensor_views(out@));
        Ok(out)
    }
}

/// Reads the header, the metadata and the tensor descriptions of a file.
pub fn read(buf: &[u8]) -> (r: Result<GgufFile, GgufError>)
    ensures
        match (r, file_of(buf@)) {
            (Ok(f), Ok(g)) => f@ == g,
            (Err(e), Err(g)) => e == g,
            _ => false,
        },
{
    let mut r = Reader { buf, pos: 0 };
    let magic: u32 = r.u32()?;
    if magic != GGUF_MAGIC {
        return Err(GgufError::BadMagic(magic));
    }
    let version: u32 = r.u32()?;
    if version < 2 || version > 3 {
        return Err(GgufError::BadVersion(version));
    }
    let n_tensors: u64 = r.u64()?;
    let n_kv: u64 = r.u64()?;
    let kvs = r.kvs(n_kv)?;
    let tensors = r.tensors(n_tensors)?;
    let alignment: u64 = match find_kv(kvs.as_slice(), "general.alignment") {
        Some(v) => match v.as_u64() {
            Some(a) => a,
            None => DEFAULT_ALIGNMENT,
        },
        None => DEFAULT_ALIGNMENT,
    };
    if alignment == 0 {
        return Err(GgufError::ZeroAlignment);
    }
    let data_start: u64 = match checked_align_up(r.pos as u64, alignment) {
        Some(p) => p,
        None => {
            return Err(GgufError::DataStartOutOfRange);
        },
    };
    Ok(GgufFile { kvs, tensors, data_start, alignment })
}

impl GgufFile {
    /// Where the data of a tensor begin in the file.
    pub open spec fn data_pos(self, t: TensorSpec) -> nat {
        self.data_start as nat + t.offset as nat
    }

    /// The data of a tensor lie in a file of `len` bytes.
    pub open spec fn holds(self, len: nat, t: TensorSpec) -> bool {
        t.sized() && self.data_pos(t) + t.size() <= len
    }

    /// The data of a tensor, in the file's bytes.
    pub fn tensor_data<'a>(&self, buf: &'a [u8], t: &TensorInfo) -> (r: &'a [u8])
        requires
            self.holds(buf@.len(), t@),
        ensures
            r@ == buf@.subrange(
                self.data_pos(t@) as int,
                (self.data_pos(t@) + t@.size()) as int,
            ),
    {
        let len: usize = buf.len();
        let start: usize = (self.data_start + t.offset) as usize;
        slice_subrange(buf, start, start + t.byte_size() as usize)
    }

    /// The data of a tensor, or `None` where the file does not hold them.
    pub fn checked_tensor_data<'a>(&self, buf: &'a [u8], t: &TensorInfo) -> (r: Option<&'a [u8]>)
        ensures
            r is Some <==> self.holds(buf@.len(), t@),
            r matches Some(d) ==> d@ == buf@.subrange(
                self.data_pos(t@) as int,
                (self.data_pos(t@) + t@.size()) as int,
            ),
    {
        let len: u64 = buf.len() as u64;
        match t.checked_byte_size_as(t.ty) {
            Some(size) => {
                if self.data_start <= len && t.offset <= len - self.data_start && size <= len
                    - self.data_start - t.offset {
                    Some(self.tensor_data(buf, t))
                } else {
                    None
                }
            },
            None => None,
        }
    }
}

/// What is looked up is the value of the first entry with the key, and nothing where
/// no entry has it.
pub proof fn the_first_entry_counts(kvs: Seq<(Seq<char>, Val)>, key: Seq<char>)
    ensures
        match lookup(kvs, key) {
            Some(v) => exists|i: int|
                0 <= i < kvs.len() && #[trigger] kvs[i] == (key, v) && forall|j: int|
                    0 <= j < i ==> (#[trigger] kvs[j]).0 != key,
            None => forall|i: int| 0 <= i < kvs.len() ==> (#[trigger] kvs[i]).0 != key,
        },
    decreases kvs.len(),
{
    if kvs.len() > 0 && kvs[0].0 != key {
        let tail = kvs.subrange(1, kvs.len() as int);
        the_first_entry_counts(tail, key);
        match lookup(kvs, key) {
            Some(v) => {
                let i = choose|i: int|
                    0 <= i < tail.len() && #[trigger] tail[i] == (key, v) && forall|j: int|
                        0 <= j < i ==> (#[trigger] tail[j]).0 != key;
                assert(kvs[i + 1] == (key, v));
                assert forall|j: int| 0 <= j < i + 1 implies (#[trigger] kvs[j]).0 != key by {
                    if j > 0 {
                        assert(tail[j - 1] == kvs[j]);
                    }
                }
            },
            None => {
                assert forall|j: int| 0 <= j < kvs.len() implies (#[trigger] kvs[j]).0 != key by {
                    if j > 0 {
                        assert(tail[j - 1] == kvs[j]);
                    }
                }
            },
        }
    } else if kvs.len() > 0 {
        assert(kvs[0] == (key, kvs[0].1));
    }
}

proof fn product_is_fold(dims: Seq<u64>)
    ensures
        product(dims) == dims.fold_left(1int, |a: int, d: u64| a * d),
    decreases dims.len(),
{
    reveal_with_fuel(Seq::fold_left, 2);
    if dims.len() > 0 {
        product_is_fold(dims.drop_last());
    }
}

/// The size of a tensor as a type: its rows, which all dimensions but the first
/// number, times the blocks of a row times the bytes of a block.
pub proof fn sizes_are_products(t: TensorSpec, ty: GgmlType)
    requires
        t.dims.len() > 0,
        ty.block_elems() > 0,
        t.dims[0] as int % ty.block_elems() as int == 0,
    ensures
        t.elems() == t.dims.fold_left(1int, |a: int, d: u64| a * d),
        t.size_as(ty) * ty.block_elems() == t.dims[0] * ty.block_bytes() * t.dims.subrange(
            1,
            t.dims.len() as int,
        ).fold_left(1int, |a: int, d: u64| a * d),
        t.size() == t.size_as(t.ty),
        t.sized_as(ty) <==> ty.row_size(t.dims[0] as nat) <= u64::MAX && t.dims.subrange(
            1,
            t.dims.len() as int,
        ).fold_left(1int, |a: int, d: u64| a * d) <= u64::MAX && t.size_as(ty) <= u64::MAX,
{
    let rest = t.dims.subrange(1, t.dims.len() as int);
    product_is_fold(t.dims);
    product_is_fold(rest);
    let (n, e, b, r) = (
        t.dims[0] as int,
        ty.block_elems() as int,
        ty.block_bytes() as int,
        product(rest) as int,
    );
    vstd::arithmetic::div_mod::lemma_fundamental_div_mod(n, e);
    let q = n / e;
    assert((q * b * r) * e == (e * q) * b * r) by (nonlinear_arith);
}

/// A position is rounded up to the next multiple: the least that is not below it.
pub proof fn rounding_gives_the_next_multiple(x: nat, a: nat, m: nat)
    requires
        a > 0,
        m % a == 0,
        x <= m,
    ensures
        round_up(x, a) % a == 0,
        x <= round_up(x, a) <= m,
{
    round_up_bounds(x, a);
    let (r, y) = (round_up(x, a) as int, m as int);
    if r > y {
        vstd::arithmetic::div_mod::lemma_fundamental_div_mod(r, a as int);
        vstd::arithmetic::div_mod::lemma_fundamental_div_mod(y, a as int);
        let (i, j, n) = (r / a as int, y / a as int, a as int);
        assert(r - y >= n) by (nonlinear_arith)
            requires
                r == n * i,
                y == n * j,
                r > y,
                n > 0,
        ;
    }
}

/// The data of a tensor begin behind the start of the data by its offset, and are held
/// if they end no later than the file.
pub proof fn data_are_held_up_to_the_end(f: GgufFile, len: nat, t: TensorSpec)
    ensures
        f.data_pos(t) == t.offset + f.data_start,
        t.sized() ==> (f.holds(len, t) <==> t.size() <= len - f.data_start - t.offset),
        !t.sized() ==> !f.holds(len, t),
{
}

} // verus!
