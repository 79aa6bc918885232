//! Writing GGUF version 3.
//!
//! Tensor sizes are known from the descriptions, so the whole header can be
//! laid out before any tensor data exist: the data then follow one tensor at a
//! time, each behind the padding that its alignment asks for.

use vstd::prelude::*;

use crate::gguf::{
    checked_align_up, kv_views, round_up, round_up_bounds, tensor_views, TensorInfo, TensorSpec,
    Value, GGUF_MAGIC,
};
use crate::le::{le_bytes, push_le};
use crate::value::{string_bytes, write_string, write_value, Val};

verus! {

/// `n` zero bytes.
pub open spec fn zeros(n: nat) -> Seq<u8> {
    Seq::new(n, |i: int| 0u8)
}

/// A metadata entry: key, type code, value.
pub open spec fn kv_bytes(kv: (Seq<char>, Val)) -> Seq<u8> {
    string_bytes(kv.0) + (le_bytes(kv.1.type_code() as nat, 4) + kv.1.bytes())
}

/// Metadata entries, one after the other.
pub open spec fn kvs_bytes(kvs: Seq<(Seq<char>, Val)>) -> Seq<u8>
    decreases kvs.len(),
{
    if kvs.len() == 0 {
        seq![]
    } else {
        kv_bytes(kvs[0]) + kvs_bytes(kvs.subrange(1, kvs.len() as int))
    }
}

/// Dimensions, one after the other.
pub open spec fn dims_bytes(dims: Seq<u64>) -> Seq<u8>
    decreases dims.len(),
{
    if dims.len() == 0 {
        seq![]
    } else {
        le_bytes(dims[0] as nat, 8) + dims_bytes(dims.subrange(1, dims.len() as int))
    }
}

/// A tensor description with the given data offset.
pub open spec fn info_bytes(t: TensorSpec, offset: nat) -> Seq<u8> {
    string_bytes(t.name) + (le_bytes(t.dims.len(), 4) + (dims_bytes(t.dims) + (le_bytes(
        t.ty.code() as nat,
        4,
    ) + le_bytes(offset, 8))))
}

/// Tensor descriptions, one after the other, where the data of the first may
/// begin at `start` or at the next aligned offset behind it.
pub open spec fn infos_bytes(infos: Seq<TensorSpec>, start: nat, alignment: nat) -> Seq<u8>
    decreases infos.len(),
{
    if infos.len() == 0 {
        seq![]
    } else {
        let offset = round_up(start, alignment);
        info_bytes(infos[0], offset) + infos_bytes(
            infos.subrange(1, infos.len() as int),
            offset + infos[0].size(),
            alignment,
        )
    }
}

/// The offsets of the tensors' data: each begins at the first aligned offset
/// at which the data before it have ended.
pub open spec fn offsets_from(infos: Seq<TensorSpec>, start: nat, alignment: nat) -> Seq<nat>
    decreases infos.len(),
{
    if infos.len() == 0 {
        seq![]
    } else {
        let offset = round_up(start, alignment);
        seq![offset] + offsets_from(
            infos.subrange(1, infos.len() as int),
            offset + infos[0].size(),
            alignment,
        )
    }
}

/// Where the data of the last tensor end.
pub open spec fn data_end(infos: Seq<TensorSpec>, start: nat, alignment: nat) -> nat
    decreases infos.len(),
{
    if infos.len() == 0 {
        start
    } else {
        data_end(
            infos.subrange(1, infos.len() as int),
            round_up(start, alignment) + infos[0].size(),
            alignment,
        )
    }
}

/// Every tensor has a size, and its data end within the range of 64-bit offsets.
pub open spec fn fits(infos: Seq<TensorSpec>, start: nat, alignment: nat) -> bool
    decreases infos.len(),
{
    infos.len() == 0 || {
        &&& infos[0].sized()
        &&& infos[0].dims.len() <= u32::MAX
        &&& round_up(start, alignment) + infos[0].size() <= u64::MAX
        &&& fits(
            infos.subrange(1, infos.len() as int),
            round_up(start, alignment) + infos[0].size(),
            alignment,
        )
    }
}

/// The header up to its padding.
pub open spec fn head_bytes(
    kvs: Seq<(Seq<char>, Val)>,
    infos: Seq<TensorSpec>,
    alignment: nat,
) -> Seq<u8> {
    le_bytes(GGUF_MAGIC as nat, 4) + (le_bytes(3, 4) + (le_bytes(infos.len(), 8) + (le_bytes(
        kvs.len(),
        8,
    ) + (kvs_bytes(kvs) + infos_bytes(infos, 0, alignment)))))
}

/// Where the data section begins.
pub open spec fn data_section(
    kvs: Seq<(Seq<char>, Val)>,
    infos: Seq<TensorSpec>,
    alignment: nat,
) -> nat {
    round_up(head_bytes(kvs, infos, alignment).len(), alignment)
}

/// The header with the padding that brings the data section to its alignment.
pub open spec fn header_bytes(
    kvs: Seq<(Seq<char>, Val)>,
    infos: Seq<TensorSpec>,
    alignment: nat,
) -> Seq<u8> {
    let head = head_bytes(kvs, infos, alignment);
    head + zeros((data_section(kvs, infos, alignment) - head.len()) as nat)
}

/// The data section: the data of each tensor behind the padding that its
/// offset asks for.
pub open spec fn body_bytes(datas: Seq<Seq<u8>>, start: nat, alignment: nat) -> Seq<u8>
    decreases datas.len(),
{
    if datas.len() == 0 {
        seq![]
    } else {
        let offset = round_up(start, alignment);
        zeros((offset - start) as nat) + (datas[0] + body_bytes(
            datas.subrange(1, datas.len() as int),
            offset + datas[0].len(),
            alignment,
        ))
    }
}

/// A whole file.
pub open spec fn file_bytes(
    kvs: Seq<(Seq<char>, Val)>,
    infos: Seq<TensorSpec>,
    alignment: nat,
    datas: Seq<Seq<u8>>,
) -> Seq<u8> {
    header_bytes(kvs, infos, alignment) + body_bytes(datas, 0, alignment)
}

/// A file can be laid out: the alignment is positive, the tensors fit, and the
/// header and the end of the file lie within the range of 64-bit offsets.
pub open spec fn can_lay_out(
    kvs: Seq<(Seq<char>, Val)>,
    infos: Seq<TensorSpec>,
    alignment: nat,
) -> bool {
    &&& alignment > 0
    &&& fits(infos, 0, alignment)
    &&& data_section(kvs, infos, alignment) + data_end(infos, 0, alignment) <= u64::MAX
}

/// What has to be written around the tensor data.
pub struct Layout {
    /// The header, padded up to the data section.
    pub header: Vec<u8>,
    /// The offset of each tensor's data in the data section.
    pub offsets: Vec<u64>,
    /// How many zero bytes go before each tensor's data.
    pub gaps: Vec<u64>,
    /// The length of the finished file.
    pub total: u64,
}

/// The zero bytes before each tensor's data.
pub open spec fn gaps_from(infos: Seq<TensorSpec>, start: nat, alignment: nat) -> Seq<nat>
    decreases infos.len(),
{
    if infos.len() == 0 {
        seq![]
    } else {
        let offset = round_up(start, alignment);
        seq![(offset - start) as nat] + gaps_from(
            infos.subrange(1, infos.len() as int),
            offset + infos[0].size(),
            alignment,
        )
    }
}

/// 64-bit integers as numbers.
pub open spec fn as_nats(s: Seq<u64>) -> Seq<nat> {
    Seq::new(s.len(), |i: int| s[i] as nat)
}

/// Appends `n` zero bytes.
pub fn push_zeros(out: &mut Vec<u8>, n: u64)
    ensures
        final(out)@ == old(out)@ + zeros(n as nat),
{
    let mut i: u64 = 0;
    while i < n
        invariant
            i <= n,
            out@ == old(out)@ + zeros(i as nat),
        decreases n - i,
    {
        out.push(0);
        i = i + 1;
        assert(out@ =~= old(out)@ + zeros(i as nat));
    }
    assert(zeros(0) =~= Seq::<u8>::empty());
}

struct Places {
    offsets: Vec<u64>,
    gaps: Vec<u64>,
    end: u64,
}

fn place_tensors(infos: &[TensorInfo], alignment: u64) -> (r: Option<Places>)
    requires
        alignment > 0,
    ensures
        r is Some <==> fits(tensor_views(infos@), 0, alignment as nat),
        r matches Some(p) ==> {
            &&& as_nats(p.offsets@) == offsets_from(tensor_views(infos@), 0, alignment as nat)
            &&& as_nats(p.gaps@) == gaps_from(tensor_views(infos@), 0, alignment as nat)
            &&& p.end == data_end(tensor_views(infos@), 0, alignment as nat)
        },
{
    let ghost all = tensor_views(infos@);
    let ghost a = alignment as nat;
    let mut offsets: Vec<u64> = Vec::new();
    let mut gaps: Vec<u64> = Vec::new();
    let mut end: u64 = 0;
    assert(all.subrange(0, all.len() as int) =~= all);
    assert(as_nats(offsets@) =~= Seq::<nat>::empty());
    assert(as_nats(gaps@) =~= Seq::<nat>::empty());
    assert(seq![] + offsets_from(all, 0, a) =~= offsets_from(all, 0, a));
    assert(seq![] + gaps_from(all, 0, a) =~= gaps_from(all, 0, a));
    for i in 0..infos.len()
        invariant
            all == tensor_views(infos@),
            a == alignment,
            a > 0,
            fits(all, 0, a) == fits(all.subrange(i as int, all.len() as int), end as nat, a),
            data_end(all, 0, a) == data_end(
                all.subrange(i as int, all.len() as int),
                end as nat,
                a,
            ),
            offsets_from(all, 0, a) == as_nats(offsets@) + offsets_from(
                all.subrange(i as int, all.len() as int),
                end as nat,
                a,
            ),
            gaps_from(all, 0, a) == as_nats(gaps@) + gaps_from(
                all.subrange(i as int, all.len() as int),
                end as nat,
                a,
            ),
    {
        let ghost rest = all.subrange(i as int, all.len() as int);
        assert(rest[0] == infos@[i as int]@);
        assert(rest.subrange(1, rest.len() as int) =~= all.subrange(i + 1, all.len() as int));
        proof {
            round_up_bounds(end as nat, a);
        }
        let t = &infos[i];
        if t.dims.len() as u64 > 0xffff_ffff {
            return None;
        }
        let size: u64 = match t.checked_byte_size_as(t.ty) {
            Some(s) => s,
            None => {
                return None;
            },
        };
        let offset: u64 = match checked_align_up(end, alignment) {
            Some(o) => o,
            None => {
                return None;
            },
        };
        let next: u64 = match offset.checked_add(size) {
            Some(n) => n,
            None => {
                return None;
            },
        };
        let ghost offsets0 = offsets@;
        let ghost gaps0 = gaps@;
        offsets.push(offset);
        gaps.push(offset - end);
        proof {
            let tail = all.subrange(i + 1, all.len() as int);
            let o = offsets_from(tail, next as nat, a);
            let g = gaps_from(tail, next as nat, a);
            assert(as_nats(offsets@) =~= as_nats(offsets0).push(offset as nat));
            assert(as_nats(gaps@) =~= as_nats(gaps0).push((offset - end) as nat));
            assert(as_nats(offsets0) + (seq![offset as nat] + o) =~= as_nats(offsets@) + o);
            assert(as_nats(gaps0) + (seq![(offset - end) as nat] + g) =~= as_nats(gaps@) + g);
        }
        end = next;
    }
    assert(as_nats(offsets@) + seq![] =~= as_nats(offsets@));
    assert(as_nats(gaps@) + seq![] =~= as_nats(gaps@));
    Some(Places { offsets, gaps, end })
}

fn push_kvs(out: &mut Vec<u8>, kvs: &[(String, Value)])
    ensures
        final(out)@ == old(out)@ + kvs_bytes(kv_views(kvs@)),
{
    let ghost all = kv_views(kvs@);
    let ghost start = out@;
    assert(all.subrange(0, all.len() as int) =~= all);
    for i in 0..kvs.len()
        invariant
            all == kv_views(kvs@),
            start + kvs_bytes(all) == out@ + kvs_bytes(all.subrange(i as int, all.len() as int)),
    {
        let ghost before = out@;
        let ghost rest = all.subrange(i as int, all.len() as int);
        let ghost tail = all.subrange(i + 1, all.len() as int);
        assert(rest.subrange(1, rest.len() as int) =~= tail);
        assert(rest[0] == (kvs@[i as int].0@, kvs@[i as int].1@));
        write_string(out, kvs[i].0.as_str());
        push_le(out, kvs[i].1.type_id() as u64, 4);
        write_value(out, &kvs[i].1);
        assert(out@ =~= before + kv_bytes(rest[0]));
        assert(out@ + kvs_bytes(tail) =~= before + kvs_bytes(rest));
    }
    assert(out@ + seq![] =~= out@);
}

fn push_dims(out: &mut Vec<u8>, dims: &Vec<u64>)
    ensures
        final(out)@ == old(out)@ + dims_bytes(dims@),
{
    let ghost start = out@;
    assert(dims@.subrange(0, dims@.len() as int) =~= dims@);
    for i in 0..dims.len()
        invariant
            start + dims_bytes(dims@) == out@ + dims_bytes(
                dims@.subrange(i as int, dims@.len() as int),
            ),
    {
        let ghost before = out@;
        let ghost rest = dims@.subrange(i as int, dims@.len() as int);
        let ghost tail = dims@.subrange(i + 1, dims@.len() as int);
        assert(rest.subrange(1, rest.len() as int) =~= tail);
        push_le(out, dims[i], 8);
        assert(out@ + dims_bytes(tail) =~= before + dims_bytes(rest));
    }
    assert(out@ + seq![] =~= out@);
}

fn push_infos(out: &mut Vec<u8>, infos: &[TensorInfo], offsets: &Vec<u64>, alignment: u64)
    requires
        alignment > 0,
        as_nats(offsets@) == offsets_from(tensor_views(infos@), 0, alignment as nat),
        offsets@.len() == infos@.len(),
        forall|i: int| 0 <= i < infos@.len() ==> (#[trigger] infos@[i]).dims@.len() <= u32::MAX,
    ensures
        final(out)@ == old(out)@ + infos_bytes(tensor_views(infos@), 0, alignment as nat),
{
    let ghost all = tensor_views(infos@);
    let ghost start = out@;
    let ghost a = alignment as nat;
    let ghost mut at: nat = 0;
    assert(all.subrange(0, all.len() as int) =~= all);
    assert(as_nats(offsets@).subrange(0, offsets@.len() as int) =~= as_nats(offsets@));
    for i in 0..infos.len()
        invariant
            all == tensor_views(infos@),
            a == alignment,
            offsets@.len() == infos@.len(),
            forall|k: int| 0 <= k < infos@.len() ==> (#[trigger] infos@[k]).dims@.len() <= u32::MAX,
            start + infos_bytes(all, 0, a) == out@ + infos_bytes(
                all.subrange(i as int, all.len() as int),
                at,
                a,
            ),
            as_nats(offsets@).subrange(i as int, offsets@.len() as int) == offsets_from(
                all.subrange(i as int, all.len() as int),
                at,
                a,
            ),
    {
        let ghost before = out@;
        let ghost rest = all.subrange(i as int, all.len() as int);
        let ghost tail = all.subrange(i + 1, all.len() as int);
        let ghost offset = round_up(at, a);
        assert(rest.subrange(1, rest.len() as int) =~= tail);
        assert(rest[0] == infos@[i as int]@);
        let ghost left = as_nats(offsets@).subrange(i as int, offsets@.len() as int);
        assert(left[0] == offset);
        assert(offsets@[i as int] == offset);
        write_string(out, infos[i].name.as_str());
        push_le(out, infos[i].dims.len() as u64, 4);
        push_dims(out, &infos[i].dims);
        push_le(out, infos[i].ty.to_u32() as u64, 4);
        push_le(out, offsets[i], 8);
        proof {
            let next = offset + rest[0].size();
            assert(out@ =~= before + info_bytes(rest[0], offset));
            assert(out@ + infos_bytes(tail, next, a) =~= before + infos_bytes(rest, at, a));
            assert(left.subrange(1, left.len() as int) =~= offsets_from(tail, next, a));
            assert(left.subrange(1, left.len() as int) =~= as_nats(offsets@).subrange(
                i + 1,
                offsets@.len() as int,
            ));
            at = next;
        }
    }
    assert(out@ + seq![] =~= out@);
}

/// `fits` bounds the number of dimensions of each tensor, and there are as
/// many offsets and gaps as tensors.
proof fn fits_each(infos: Seq<TensorSpec>, start: nat, a: nat)
    ensures
        offsets_from(infos, start, a).len() == infos.len(),
        gaps_from(infos, start, a).len() == infos.len(),
        fits(infos, start, a) ==> forall|i: int|
            0 <= i < infos.len() ==> (#[trigger] infos[i]).dims.len() <= u32::MAX,
    decreases infos.len(),
{
    if infos.len() > 0 {
        let tail = infos.subrange(1, infos.len() as int);
        fits_each(tail, round_up(start, a) + infos[0].size(), a);
        assert forall|i: int| fits(infos, start, a) && 0 <= i < infos.len() implies (
        #[trigger] infos[i]).dims.len() <= u32::MAX by {
            if i > 0 {
                assert(infos[i] == tail[i - 1]);
            }
        }
    }
}

/// Lays a file out: the header bytes, and where and behind how much padding
/// each tensor's data go. `None` where the file cannot be laid out.
pub fn lay_out(kvs: &[(String, Value)], infos: &[TensorInfo], alignment: u64) -> (r: Option<Layout>)
    ensures
        r is Some <==> can_lay_out(kv_views(kvs@), tensor_views(infos@), alignment as nat),
        r matches Some(l) ==> {
            let (k, t, a) = (kv_views(kvs@), tensor_views(infos@), alignment as nat);
            &&& l.header@ == header_bytes(k, t, a)
            &&& as_nats(l.offsets@) == offsets_from(t, 0, a)
            &&& as_nats(l.gaps@) == gaps_from(t, 0, a)
            &&& l.total == data_section(k, t, a) + data_end(t, 0, a)
        },
{
    if alignment == 0 {
        return None;
    }
    let places = match place_tensors(infos, alignment) {
        Some(p) => p,
        None => {
            return None;
        },
    };
    proof {
        fits_each(tensor_views(infos@), 0, alignment as nat);
        assert(forall|i: int|
            0 <= i < infos@.len() ==> (#[trigger] infos@[i])@ == tensor_views(infos@)[i]);
    }
    let mut header: Vec<u8> = Vec::new();
    push_le(&mut header, GGUF_MAGIC as u64, 4);
    push_le(&mut header, 3, 4);
    push_le(&mut header, infos.len() as u64, 8);
    push_le(&mut header, kvs.len() as u64, 8);
    push_kvs(&mut header, kvs);
    push_infos(&mut header, infos, &places.offsets, alignment);
    assert(header@ =~= head_bytes(kv_views(kvs@), tensor_views(infos@), alignment as nat));
    let head_len: u64 = header.len() as u64;
    let data_start: u64 = match checked_align_up(head_len, alignment) {
        Some(d) => d,
        None => {
            return None;
        },
    };
    let total: u64 = match data_start.checked_add(places.end) {
        Some(t) => t,
        None => {
            return None;
        },
    };
    proof {
        round_up_bounds(head_len as nat, alignment as nat);
    }
    push_zeros(&mut header, data_start - head_len);
    Some(Layout { header, offsets: places.offsets, gaps: places.gaps, total })
}

/// What byte vectors hold.
pub open spec fn data_views(data: Seq<Vec<u8>>) -> Seq<Seq<u8>> {
    Seq::new(data.len(), |i: int| data[i]@)
}

/// There is data for every tensor, of the tensor's size.
pub open spec fn sizes_match(infos: Seq<TensorSpec>, datas: Seq<Seq<u8>>) -> bool {
    &&& infos.len() == datas.len()
    &&& forall|i: int| 0 <= i < infos.len() ==> (#[trigger] datas[i]).len() == infos[i].size()
}

/// Appends a whole file and gives its length: the header, then the data of
/// each tensor in order. `None`, and nothing appended, where the file cannot
/// be laid out.
pub fn write_streaming(
    out: &mut Vec<u8>,
    kvs: &[(String, Value)],
    infos: &[TensorInfo],
    alignment: u64,
    data: &[Vec<u8>],
) -> (r: Option<u64>)
    requires
        sizes_match(tensor_views(infos@), data_views(data@)),
    ensures
        r is Some <==> can_lay_out(kv_views(kvs@), tensor_views(infos@), alignment as nat),
        r is None ==> final(out)@ == old(out)@,
        r matches Some(n) ==> {
            let file = file_bytes(
                kv_views(kvs@),
                tensor_views(infos@),
                alignment as nat,
                data_views(data@),
            );
            &&& final(out)@ == old(out)@ + file
            &&& n == file.len()
        },
{
    let mut layout = match lay_out(kvs, infos, alignment) {
        Some(l) => l,
        None => {
            return None;
        },
    };
    let ghost a = alignment as nat;
    let ghost all = data_views(data@);
    let ghost ts = tensor_views(infos@);
    let ghost start = out@ + layout.header@;
    let ghost mut at: nat = 0;
    out.append(&mut layout.header);
    proof {
        fits_each(ts, 0, a);
        body_len(ts, all, 0, a);
        assert(all.subrange(0, all.len() as int) =~= all);
        assert(ts.subrange(0, ts.len() as int) =~= ts);
        assert(as_nats(layout.gaps@).subrange(0, ts.len() as int) =~= as_nats(layout.gaps@));
    }
    for i in 0..data.len()
        invariant
            all == data_views(data@),
            ts == tensor_views(infos@),
            sizes_match(ts, all),
            layout.gaps@.len() == data@.len(),
            start + body_bytes(all, 0, a) == out@ + body_bytes(
                all.subrange(i as int, all.len() as int),
                at,
                a,
            ),
            as_nats(layout.gaps@).subrange(i as int, ts.len() as int) == gaps_from(
                ts.subrange(i as int, ts.len() as int),
                at,
                a,
            ),
    {
        let ghost before = out@;
        let ghost rest = all.subrange(i as int, all.len() as int);
        let ghost left = as_nats(layout.gaps@).subrange(i as int, ts.len() as int);
        let ghost rest_t = ts.subrange(i as int, ts.len() as int);
        assert(left[0] == layout.gaps@[i as int]);
        push_zeros(out, layout.gaps[i]);
        out.extend_from_slice(data[i].as_slice());
        proof {
            let offset = round_up(at, a);
            let next = offset + rest[0].len();
            let tail = all.subrange(i + 1, all.len() as int);
            assert(rest.subrange(1, rest.len() as int) =~= tail);
            assert(rest_t.subrange(1, rest_t.len() as int) =~= ts.subrange(i + 1, ts.len() as int));
            assert(rest[0] == all[i as int]);
            assert(out@ =~= before + zeros((offset - at) as nat) + rest[0]);
            assert(out@ + body_bytes(tail, next, a) =~= before + body_bytes(rest, at, a));
            assert(left.subrange(1, left.len() as int) =~= as_nats(layout.gaps@).subrange(
                i + 1,
                ts.len() as int,
            ));
            assert(left.subrange(1, left.len() as int) =~= gaps_from(
                rest_t.subrange(1, rest_t.len() as int),
                next,
                a,
            ));
            at = next;
        }
    }
    proof {
        assert(out@ + seq![] =~= out@);
        assert(out@ =~= old(out)@ + file_bytes(kv_views(kvs@), ts, a, all));
        round_up_bounds(head_bytes(kv_views(kvs@), ts, a).len(), a);
    }
    Some(layout.total)
}

/// Pieces of data one after the other, each behind as many zeros as its gap.
pub open spec fn with_gaps(gaps: Seq<nat>, datas: Seq<Seq<u8>>) -> Seq<u8>
    decreases datas.len(),
{
    if datas.len() == 0 {
        seq![]
    } else {
        zeros(gaps[0]) + datas[0] + with_gaps(
            gaps.subrange(1, gaps.len() as int),
            datas.subrange(1, datas.len() as int),
        )
    }
}

/// The data section is as long as the offsets say.
pub proof fn body_len(infos: Seq<TensorSpec>, datas: Seq<Seq<u8>>, start: nat, a: nat)
    requires
        sizes_match(infos, datas),
        a > 0,
    ensures
        start + body_bytes(datas, start, a).len() == data_end(infos, start, a),
    decreases infos.len(),
{
    if infos.len() > 0 {
        round_up_bounds(start, a);
        let ti = infos.subrange(1, infos.len() as int);
        let td = datas.subrange(1, datas.len() as int);
        assert(sizes_match(ti, td)) by {
            assert forall|i: int| 0 <= i < ti.len() implies (#[trigger] td[i]).len()
                == ti[i].size() by {
                assert(datas[i + 1].len() == infos[i + 1].size());
            }
        }
        body_len(ti, td, round_up(start, a) + infos[0].size(), a);
    }
}

} // verus!
