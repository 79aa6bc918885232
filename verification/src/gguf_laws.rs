//! What reading gives back of what was written.

use vstd::prelude::*;
use vstd::utf8::*;

use crate::gguf::{
    alignment_of, dims_at, file_of, kvs_at, round_up, round_up_bounds, string_at, tensor_at,
    tensors_at, u32_at, u64_at, value_at, values_at, FileSpec, GgufError, TensorSpec,
    GGUF_MAGIC,
};
use crate::gguf_write::{
    body_bytes, can_lay_out, dims_bytes, file_bytes, fits, gaps_from, head_bytes, header_bytes,
    info_bytes, infos_bytes, kv_bytes, kvs_bytes, offsets_from, sizes_match, with_gaps, zeros,
};
use crate::le::{le_bytes, le_bytes_len, le_round_trip, radix_values};
use crate::value::{all_bytes, all_typed, string_bytes, Val};

verus! {

/// The bytes `x` stand in `b` at `pos`.
pub open spec fn stands(b: Seq<u8>, pos: int, x: Seq<u8>) -> bool {
    &&& 0 <= pos
    &&& pos + x.len() <= b.len()
    &&& b.subrange(pos, pos + x.len()) == x
}

proof fn stands_split(b: Seq<u8>, pos: int, x: Seq<u8>, y: Seq<u8>)
    requires
        stands(b, pos, x + y),
    ensures
        stands(b, pos, x),
        stands(b, pos + x.len(), y),
{
    let whole = b.subrange(pos, pos + (x + y).len());
    assert(b.subrange(pos, pos + x.len()) =~= x) by {
        assert forall|i: int| 0 <= i < x.len() implies b[pos + i] == x[i] by {
            assert(whole[i] == (x + y)[i]);
        }
    }
    let q = pos + x.len();
    assert(b.subrange(q, q + y.len()) =~= y) by {
        assert forall|i: int| 0 <= i < y.len() implies b[q + i] == y[i] by {
            assert(whole[x.len() + i] == (x + y)[x.len() + i]);
        }
    }
}

proof fn u32_back(b: Seq<u8>, pos: int, x: nat)
    requires
        stands(b, pos, le_bytes(x, 4)),
        x <= u32::MAX,
    ensures
        u32_at(b, pos) == Ok::<(u32, int), GgufError>((x as u32, pos + 4)),
        le_bytes(x, 4).len() == 4,
{
    radix_values();
    le_round_trip(x, 4);
}

proof fn u64_back(b: Seq<u8>, pos: int, x: nat)
    requires
        stands(b, pos, le_bytes(x, 8)),
        x <= u64::MAX,
    ensures
        u64_at(b, pos) == Ok::<(u64, int), GgufError>((x as u64, pos + 8)),
        le_bytes(x, 8).len() == 8,
{
    radix_values();
    le_round_trip(x, 8);
}

/// A string whose bytes stand at a position is read back from there.
pub proof fn string_back(b: Seq<u8>, pos: int, s: Seq<char>)
    requires
        stands(b, pos, string_bytes(s)),
        encode_utf8(s).len() <= u64::MAX,
    ensures
        string_at(b, pos) == Ok::<(Seq<char>, int), GgufError>((s, pos + string_bytes(s).len())),
{
    let n = encode_utf8(s).len();
    stands_split(b, pos, le_bytes(n, 8), encode_utf8(s));
    u64_back(b, pos, n);
    encode_utf8_valid_utf8(s);
    encode_utf8_decode_utf8(s);
}

/// A value whose bytes stand at a position is read back from there.
pub proof fn value_back(b: Seq<u8>, pos: int, v: Val)
    requires
        stands(b, pos, v.bytes()),
        v.well_typed(),
    ensures
        value_at(b, pos, v.type_code()) == Ok::<(Val, int), GgufError>((v, pos + v.bytes().len())),
        v.bytes().len() > 0,
    decreases v,
{
    radix_values();
    match v {
        Val::U8(x) => {
            assert(b.subrange(pos, pos + 1)[0] == x);
        },
        Val::I8(x) => {
            assert(b.subrange(pos, pos + 1)[0] == x as u8);
            assert((x as u8) as i8 == x) by (bit_vector);
        },
        Val::Bool(x) => {
            assert(b.subrange(pos, pos + 1)[0] == (if x { 1u8 } else { 0u8 }));
        },
        Val::U16(x) => {
            le_round_trip(x as nat, 2);
        },
        Val::I16(x) => {
            le_round_trip((x as u16) as nat, 2);
            assert((x as u16) as i16 == x) by (bit_vector);
        },
        Val::U32(x) => {
            u32_back(b, pos, x as nat);
        },
        Val::I32(x) => {
            u32_back(b, pos, (x as u32) as nat);
            assert((x as u32) as i32 == x) by (bit_vector);
        },
        Val::F32(x) => {
            u32_back(b, pos, x as nat);
        },
        Val::Str(s) => {
            string_back(b, pos, s);
            le_bytes_len(encode_utf8(s).len(), 8);
        },
        Val::U64(x) => {
            u64_back(b, pos, x as nat);
        },
        Val::I64(x) => {
            u64_back(b, pos, (x as u64) as nat);
            assert((x as u64) as i64 == x) by (bit_vector);
        },
        Val::F64(x) => {
            u64_back(b, pos, x as nat);
        },
        Val::Arr(t, vs) => {
            let h1 = le_bytes(t as nat, 4);
            let h2 = le_bytes(vs.len(), 8);
            assert(v.bytes() == h1 + h2 + all_bytes(vs));
            stands_split(b, pos, h1 + h2, all_bytes(vs));
            stands_split(b, pos, h1, h2);
            u32_back(b, pos, t as nat);
            u64_back(b, pos + 4, vs.len());
            values_back(b, pos + 12, t, vs);
        },
    }
}

proof fn values_back(b: Seq<u8>, pos: int, t: u32, vs: Seq<Val>)
    requires
        stands(b, pos, all_bytes(vs)),
        all_typed(t, vs),
    ensures
        values_at(b, pos, t, vs.len()) == Ok::<(Seq<Val>, int), GgufError>(
            (vs, pos + all_bytes(vs).len()),
        ),
    decreases vs,
{
    if vs.len() == 0 {
        assert(vs =~= seq![]);
    } else {
        let tail = vs.subrange(1, vs.len() as int);
        stands_split(b, pos, vs[0].bytes(), all_bytes(tail));
        value_back(b, pos, vs[0]);
        values_back(b, pos + vs[0].bytes().len(), t, tail);
        assert(seq![vs[0]] + tail =~= vs);
    }
}

/// Metadata that a file can hold: keys and strings whose lengths fit, and
/// arrays whose elements have the declared type.
pub open spec fn storable(kvs: Seq<(Seq<char>, Val)>) -> bool {
    forall|i: int|
        0 <= i < kvs.len() ==> encode_utf8((#[trigger] kvs[i]).0).len() <= u64::MAX
            && kvs[i].1.well_typed()
}

proof fn kvs_back(b: Seq<u8>, pos: int, kvs: Seq<(Seq<char>, Val)>)
    requires
        stands(b, pos, kvs_bytes(kvs)),
        storable(kvs),
    ensures
        kvs_at(b, pos, kvs.len()) == Ok::<(Seq<(Seq<char>, Val)>, int), GgufError>(
            (kvs, pos + kvs_bytes(kvs).len()),
        ),
    decreases kvs.len(),
{
    if kvs.len() == 0 {
        assert(kvs =~= seq![]);
    } else {
        let tail = kvs.subrange(1, kvs.len() as int);
        let (key, v) = kvs[0];
        let x1 = string_bytes(key);
        let x2 = le_bytes(v.type_code() as nat, 4);
        let x3 = v.bytes();
        stands_split(b, pos, kv_bytes(kvs[0]), kvs_bytes(tail));
        stands_split(b, pos, x1, x2 + x3);
        stands_split(b, pos + x1.len(), x2, x3);
        string_back(b, pos, key);
        u32_back(b, pos + x1.len(), v.type_code() as nat);
        value_back(b, pos + x1.len() + 4, v);
        assert(storable(tail)) by {
            assert forall|i: int| 0 <= i < tail.len() implies encode_utf8(
                (#[trigger] tail[i]).0,
            ).len() <= u64::MAX && tail[i].1.well_typed() by {
                assert(tail[i] == kvs[i + 1]);
            }
        }
        kvs_back(b, pos + kv_bytes(kvs[0]).len(), tail);
        assert(seq![kvs[0]] + tail =~= kvs);
    }
}

proof fn dims_back(b: Seq<u8>, pos: int, dims: Seq<u64>)
    requires
        stands(b, pos, dims_bytes(dims)),
    ensures
        dims_at(b, pos, dims.len()) == Ok::<(Seq<u64>, int), GgufError>(
            (dims, pos + dims_bytes(dims).len()),
        ),
    decreases dims.len(),
{
    if dims.len() == 0 {
        assert(dims =~= seq![]);
    } else {
        let tail = dims.subrange(1, dims.len() as int);
        stands_split(b, pos, le_bytes(dims[0] as nat, 8), dims_bytes(tail));
        u64_back(b, pos, dims[0] as nat);
        dims_back(b, pos + 8, tail);
        assert(seq![dims[0]] + tail =~= dims);
    }
}

/// Tensor descriptions that a file can hold: names whose lengths fit, and
/// types that are read back as themselves.
pub open spec fn describable(infos: Seq<TensorSpec>) -> bool {
    forall|i: int|
        0 <= i < infos.len() ==> encode_utf8((#[trigger] infos[i]).name).len() <= u64::MAX
            && infos[i].ty.canonical()
}

/// The description of a tensor as it stands in a file, with its data offset.
pub open spec fn with_offset(t: TensorSpec, offset: nat) -> TensorSpec {
    TensorSpec { name: t.name, dims: t.dims, ty: t.ty, offset: offset as u64, shard: 0 }
}

/// The descriptions of tensors as they stand in a file.
pub open spec fn placed(infos: Seq<TensorSpec>, start: nat, a: nat) -> Seq<TensorSpec> {
    Seq::new(infos.len(), |i: int| with_offset(infos[i], offsets_from(infos, start, a)[i]))
}

proof fn tensor_back(b: Seq<u8>, pos: int, t: TensorSpec, offset: nat)
    requires
        stands(b, pos, info_bytes(t, offset)),
        encode_utf8(t.name).len() <= u64::MAX,
        t.ty.canonical(),
        t.dims.len() <= u32::MAX,
        offset <= u64::MAX,
    ensures
        tensor_at(b, pos) == Ok::<(TensorSpec, int), GgufError>(
            (with_offset(t, offset), pos + info_bytes(t, offset).len()),
        ),
{
    let x1 = string_bytes(t.name);
    let x2 = le_bytes(t.dims.len(), 4);
    let x3 = dims_bytes(t.dims);
    let x4 = le_bytes(t.ty.code() as nat, 4);
    let x5 = le_bytes(offset, 8);
    stands_split(b, pos, x1, x2 + (x3 + (x4 + x5)));
    let p1 = pos + x1.len();
    stands_split(b, p1, x2, x3 + (x4 + x5));
    string_back(b, pos, t.name);
    u32_back(b, p1, t.dims.len());
    let p2 = p1 + 4;
    stands_split(b, p2, x3, x4 + x5);
    dims_back(b, p2, t.dims);
    let p3 = p2 + x3.len();
    stands_split(b, p3, x4, x5);
    u32_back(b, p3, t.ty.code() as nat);
    u64_back(b, p3 + 4, offset);
}

proof fn tensors_back(b: Seq<u8>, pos: int, infos: Seq<TensorSpec>, start: nat, a: nat)
    requires
        stands(b, pos, infos_bytes(infos, start, a)),
        describable(infos),
        fits(infos, start, a),
        a > 0,
    ensures
        tensors_at(b, pos, infos.len()) == Ok::<(Seq<TensorSpec>, int), GgufError>(
            (placed(infos, start, a), pos + infos_bytes(infos, start, a).len()),
        ),
    decreases infos.len(),
{
    if infos.len() == 0 {
        assert(placed(infos, start, a) =~= seq![]);
    } else {
        let tail = infos.subrange(1, infos.len() as int);
        let offset = round_up(start, a);
        let next = offset + infos[0].size();
        let x = info_bytes(infos[0], offset);
        stands_split(b, pos, x, infos_bytes(tail, next, a));
        tensor_back(b, pos, infos[0], offset);
        assert(describable(tail)) by {
            assert forall|i: int| 0 <= i < tail.len() implies encode_utf8(
                (#[trigger] tail[i]).name,
            ).len() <= u64::MAX && tail[i].ty.canonical() by {
                assert(tail[i] == infos[i + 1]);
            }
        }
        tensors_back(b, pos + x.len(), tail, next, a);
        let o = offsets_from(infos, start, a);
        offsets_len(tail, next, a);
        assert(placed(infos, start, a) =~= seq![with_offset(infos[0], offset)] + placed(
            tail,
            next,
            a,
        )) by {
            assert forall|i: int| 0 < i < infos.len() implies o[i] == offsets_from(tail, next, a)[i
                - 1] by {}
        }
    }
}

proof fn offsets_len(infos: Seq<TensorSpec>, start: nat, a: nat)
    ensures
        offsets_from(infos, start, a).len() == infos.len(),
    decreases infos.len(),
{
    if infos.len() > 0 {
        offsets_len(
            infos.subrange(1, infos.len() as int),
            round_up(start, a) + infos[0].size(),
            a,
        );
    }
}

proof fn head_back(b: Seq<u8>, kvs: Seq<(Seq<char>, Val)>, infos: Seq<TensorSpec>, a: nat)
    requires
        stands(b, 0, head_bytes(kvs, infos, a)),
        storable(kvs),
        describable(infos),
        kvs.len() <= u64::MAX,
        infos.len() <= u64::MAX,
        fits(infos, 0, a),
        a > 0,
    ensures
        u32_at(b, 0) == Ok::<(u32, int), GgufError>((GGUF_MAGIC, 4)),
        u32_at(b, 4) == Ok::<(u32, int), GgufError>((3, 8)),
        u64_at(b, 8) == Ok::<(u64, int), GgufError>((infos.len() as u64, 16)),
        u64_at(b, 16) == Ok::<(u64, int), GgufError>((kvs.len() as u64, 24)),
        kvs_at(b, 24, kvs.len()) == Ok::<(Seq<(Seq<char>, Val)>, int), GgufError>(
            (kvs, 24int + kvs_bytes(kvs).len()),
        ),
        tensors_at(b, 24int + kvs_bytes(kvs).len(), infos.len()) == Ok::<
            (Seq<TensorSpec>, int),
            GgufError,
        >((placed(infos, 0, a), head_bytes(kvs, infos, a).len() as int)),
{
    let x1 = le_bytes(GGUF_MAGIC as nat, 4);
    let x2 = le_bytes(3, 4);
    let x3 = le_bytes(infos.len(), 8);
    let x4 = le_bytes(kvs.len(), 8);
    let x5 = kvs_bytes(kvs);
    let x6 = infos_bytes(infos, 0, a);
    stands_split(b, 0, x1, x2 + (x3 + (x4 + (x5 + x6))));
    u32_back(b, 0, GGUF_MAGIC as nat);
    stands_split(b, 4, x2, x3 + (x4 + (x5 + x6)));
    u32_back(b, 4, 3);
    stands_split(b, 8, x3, x4 + (x5 + x6));
    u64_back(b, 8, infos.len());
    stands_split(b, 16, x4, x5 + x6);
    u64_back(b, 16, kvs.len());
    stands_split(b, 24, x5, x6);
    kvs_back(b, 24, kvs);
    tensors_back(b, (24 + x5.len()) as int, infos, 0, a);
}

/// Reading a written file gives back the metadata, every value of every type
/// as it was, and the tensor descriptions with their data offsets. It does so
/// whatever the data section holds.
///
/// The alignment must be the one that the metadata declare (or the default
/// where they declare none), for that is the one a reader goes by.
pub proof fn read_gives_back_header(
    kvs: Seq<(Seq<char>, Val)>,
    infos: Seq<TensorSpec>,
    body: Seq<u8>,
)
    requires
        storable(kvs),
        describable(infos),
        kvs.len() <= u64::MAX,
        infos.len() <= u64::MAX,
        can_lay_out(kvs, infos, alignment_of(kvs) as nat),
    ensures
        file_of(header_bytes(kvs, infos, alignment_of(kvs) as nat) + body) == Ok::<
            FileSpec,
            GgufError,
        >(
            FileSpec {
                kvs,
                tensors: placed(infos, 0, alignment_of(kvs) as nat),
                data_start: header_bytes(kvs, infos, alignment_of(kvs) as nat).len(),
                alignment: alignment_of(kvs),
            },
        ),
{
    let a = alignment_of(kvs) as nat;
    let head = head_bytes(kvs, infos, a);
    let b = header_bytes(kvs, infos, a) + body;
    round_up_bounds(head.len(), a);
    assert(b.subrange(0, head.len() as int) =~= head);
    head_back(b, kvs, infos, a);
}

/// The offsets of the tensors' data are aligned; each tensor's data begin at
/// or behind the end of the data before them.
pub proof fn offsets_are_aligned_and_ordered(
    infos: Seq<TensorSpec>,
    start: nat,
    a: nat,
    i: int,
    j: int,
)
    requires
        a > 0,
        0 <= i < infos.len(),
        i < j < infos.len(),
    ensures
        offsets_from(infos, start, a).len() == infos.len(),
        offsets_from(infos, start, a)[i] % a == 0,
        offsets_from(infos, start, a)[j] % a == 0,
        start <= offsets_from(infos, start, a)[i],
        offsets_from(infos, start, a)[i] + infos[i].size() <= offsets_from(infos, start, a)[j],
    decreases infos.len(),
{
    round_up_bounds(start, a);
    let tail = infos.subrange(1, infos.len() as int);
    let next = round_up(start, a) + infos[0].size();
    offsets_len(infos, start, a);
    offsets_len(tail, next, a);
    let o = offsets_from(infos, start, a);
    let p = offsets_from(tail, next, a);
    assert(o[j] == p[j - 1]);
    if i > 0 {
        offsets_are_aligned_and_ordered(tail, next, a, i - 1, j - 1);
        assert(o[i] == p[i - 1]);
        assert(infos[i] == tail[i - 1]);
    } else {
        offset_bounds(tail, next, a, j - 1);
    }
}

/// Each offset is aligned and lies at or behind the start.
proof fn offset_bounds(infos: Seq<TensorSpec>, start: nat, a: nat, j: int)
    requires
        a > 0,
        0 <= j < infos.len(),
    ensures
        offsets_from(infos, start, a)[j] % a == 0,
        start <= offsets_from(infos, start, a)[j],
    decreases infos.len(),
{
    round_up_bounds(start, a);
    if j > 0 {
        let tail = infos.subrange(1, infos.len() as int);
        let next = round_up(start, a) + infos[0].size();
        offset_bounds(tail, next, a, j - 1);
        offsets_len(tail, next, a);
        assert(offsets_from(infos, start, a)[j] == offsets_from(tail, next, a)[j - 1]);
    }
}

proof fn body_holds(infos: Seq<TensorSpec>, datas: Seq<Seq<u8>>, start: nat, a: nat, i: int)
    requires
        a > 0,
        sizes_match(infos, datas),
        0 <= i < infos.len(),
    ensures
        offsets_from(infos, start, a).len() == infos.len(),
        start <= offsets_from(infos, start, a)[i],
        stands(
            body_bytes(datas, start, a),
            offsets_from(infos, start, a)[i] - start,
            datas[i],
        ),
    decreases infos.len(),
{
    round_up_bounds(start, a);
    offsets_len(infos, start, a);
    let offset = round_up(start, a);
    let ti = infos.subrange(1, infos.len() as int);
    let td = datas.subrange(1, datas.len() as int);
    let next = offset + infos[0].size();
    let body = body_bytes(datas, start, a);
    let z = zeros((offset - start) as nat);
    let rest = body_bytes(td, next, a);
    assert(datas[0].len() == infos[0].size());
    assert(body == z + (datas[0] + rest));
    if i == 0 {
        assert(body.subrange(offset - start, offset - start + datas[0].len()) =~= datas[0]);
    } else {
        assert(sizes_match(ti, td)) by {
            assert forall|k: int| 0 <= k < ti.len() implies (#[trigger] td[k]).len()
                == ti[k].size() by {
                assert(datas[k + 1].len() == infos[k + 1].size());
            }
        }
        body_holds(ti, td, next, a, i - 1);
        let o = offsets_from(infos, start, a)[i];
        assert(o == offsets_from(ti, next, a)[i - 1]);
        assert(td[i - 1] == datas[i]);
        let n = datas[i].len();
        let skip = z.len() + datas[0].len();
        assert(skip == next - start);
        assert(body.subrange(o - start, o - start + n) =~= rest.subrange(o - next, o - next + n));
    }
}

/// The data of every tensor stand in the written file where the description
/// that is read back says.
pub proof fn read_gives_back_data(
    kvs: Seq<(Seq<char>, Val)>,
    infos: Seq<TensorSpec>,
    datas: Seq<Seq<u8>>,
    i: int,
)
    requires
        storable(kvs),
        describable(infos),
        kvs.len() <= u64::MAX,
        infos.len() <= u64::MAX,
        can_lay_out(kvs, infos, alignment_of(kvs) as nat),
        sizes_match(infos, datas),
        0 <= i < infos.len(),
    ensures
        ({
            let file = file_bytes(kvs, infos, alignment_of(kvs) as nat, datas);
            &&& file_of(file) matches Ok(f)
            &&& f.kvs == kvs
            &&& f.tensors.len() == infos.len()
            &&& f.tensors[i].name == infos[i].name
            &&& f.tensors[i].dims == infos[i].dims
            &&& f.tensors[i].ty == infos[i].ty
            &&& stands(file, (f.data_start + f.tensors[i].offset) as int, datas[i])
        }),
{
    let a = alignment_of(kvs) as nat;
    let header = header_bytes(kvs, infos, a);
    let body = body_bytes(datas, 0, a);
    let file = file_bytes(kvs, infos, a, datas);
    read_gives_back_header(kvs, infos, body);
    body_holds(infos, datas, 0, a, i);
    offset_in_range(infos, 0, a, i);
    let o = offsets_from(infos, 0, a)[i] as int;
    let n = datas[i].len();
    assert(file.subrange(header.len() + o, header.len() + o + n) =~= body.subrange(o, o + n));
}

proof fn offset_in_range(infos: Seq<TensorSpec>, start: nat, a: nat, i: int)
    requires
        fits(infos, start, a),
        0 <= i < infos.len(),
    ensures
        offsets_from(infos, start, a)[i] <= u64::MAX,
    decreases infos.len(),
{
    if i > 0 {
        let tail = infos.subrange(1, infos.len() as int);
        let next = round_up(start, a) + infos[0].size();
        offset_in_range(tail, next, a, i - 1);
        offsets_len(tail, next, a);
        assert(offsets_from(infos, start, a)[i] == offsets_from(tail, next, a)[i - 1]);
    }
}

proof fn gaps_make_the_body(infos: Seq<TensorSpec>, datas: Seq<Seq<u8>>, start: nat, a: nat)
    requires
        sizes_match(infos, datas),
    ensures
        with_gaps(gaps_from(infos, start, a), datas) == body_bytes(datas, start, a),
    decreases infos.len(),
{
    if infos.len() > 0 {
        let ti = infos.subrange(1, infos.len() as int);
        let td = datas.subrange(1, datas.len() as int);
        assert forall|i: int| 0 <= i < ti.len() implies (#[trigger] td[i]).len()
            == ti[i].size() by {
            assert(td[i] == datas[i + 1]);
        }
        let next = round_up(start, a) + infos[0].size();
        assert(datas[0].len() == infos[0].size());
        gaps_make_the_body(ti, td, next, a);
        let gaps = gaps_from(infos, start, a);
        assert(gaps.subrange(1, gaps.len() as int) =~= gaps_from(ti, next, a));
    }
}

/// What is written piece by piece is the file: the header, then for every tensor
/// its gap as zeros and its data.
pub proof fn streamed_pieces_make_the_file(
    kvs: Seq<(Seq<char>, Val)>,
    infos: Seq<TensorSpec>,
    a: nat,
    datas: Seq<Seq<u8>>,
)
    requires
        sizes_match(infos, datas),
        a > 0,
    ensures
        header_bytes(kvs, infos, a) + with_gaps(gaps_from(infos, 0, a), datas) == file_bytes(
            kvs,
            infos,
            a,
            datas,
        ),
{
    gaps_make_the_body(infos, datas, 0, a);
}

} // verus!
