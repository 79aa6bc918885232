//! What a file looks like, byte by byte.

use vstd::arithmetic::power2::*;
use vstd::prelude::*;
use vstd::utf8::*;

use crate::ggml_type::{type_of_code, GgmlType};
use crate::gguf::{
    alignment_of, file_of, lookup, round_up, round_up_bounds, FileSpec, GgufError, TensorSpec,
};
use crate::gguf_write::{
    data_section, dims_bytes, gaps_from, head_bytes, header_bytes, info_bytes, infos_bytes,
    kv_bytes, kvs_bytes, offsets_from,
};
use crate::le::{le_bytes, le_bytes_len, le_value, le_value_round_trip};
use crate::value::{all_bytes, string_bytes, Val};

verus! {

/// A number in bytes: byte `i` from the start holds its bits from `8 i` on.
pub proof fn low_bytes_come_first(x: nat, n: nat, i: nat)
    requires
        i < n,
    ensures
        le_bytes(x, n).len() == n,
        le_bytes(x, n)[i as int] == (x as int / pow2(8 * i) as int) % 256,
    decreases n,
{
    le_bytes_len(x, n);
    lemma2_to64();
    if i > 0 {
        low_bytes_come_first(x / 256, (n - 1) as nat, (i - 1) as nat);
        le_bytes_len(x / 256, (n - 1) as nat);
        let p = pow2((8 * (i - 1)) as nat) as int;
        lemma_pow2_adds(8, (8 * (i - 1)) as nat);
        lemma_pow2_pos((8 * (i - 1)) as nat);
        vstd::arithmetic::div_mod::lemma_div_denominator(x as int, 256, p);
        assert(pow2(8) == 256);
        assert(256 * p == pow2(8 * i));
        assert(le_bytes(x, n)[i as int] == le_bytes(x / 256, (n - 1) as nat)[i - 1]);
    } else {
        assert(pow2(0) == 1);
        assert(x as int / 1 == x);
    }
}

/// The number that bytes spell: its bits from `8 i` on are byte `i` from the start,
/// and it has no others.
pub proof fn bytes_spell_from_the_low_end(s: Seq<u8>, i: nat)
    requires
        i < s.len(),
    ensures
        (le_value(s) as int / pow2(8 * i) as int) % 256 == s[i as int],
        le_value(s) < pow2(8 * s.len()),
{
    le_value_round_trip(s);
    low_bytes_come_first(le_value(s), s.len(), i);
    radix_is_pow2(s.len());
}

proof fn radix_is_pow2(n: nat)
    ensures
        crate::le::radix(n) == pow2(8 * n),
    decreases n,
{
    lemma2_to64();
    if n > 0 {
        radix_is_pow2((n - 1) as nat);
        lemma_pow2_adds(8, (8 * (n - 1)) as nat);
        assert(pow2(8) == 256);
    }
}

/// A string is its length in bytes as a 64-bit number, then its bytes in UTF-8.
pub proof fn strings_have_their_length_first(s: Seq<char>)
    ensures
        string_bytes(s).len() == 8 + encode_utf8(s).len(),
        string_bytes(s).subrange(0, 8) == le_bytes(encode_utf8(s).len(), 8),
        string_bytes(s).subrange(8, 8 + encode_utf8(s).len() as int) == encode_utf8(s),
{
    le_bytes_len(encode_utf8(s).len(), 8);
    assert(string_bytes(s).subrange(0, 8) =~= le_bytes(encode_utf8(s).len(), 8));
    assert(string_bytes(s).subrange(8, 8 + encode_utf8(s).len() as int) =~= encode_utf8(s));
}

/// The code and the bytes of every kind of value. Signed numbers are in two's
/// complement; a truth value is a byte of one or zero.
pub proof fn values_have_their_bytes(v: Val)
    ensures
        match v {
            Val::U8(x) => v.type_code() == 0 && v.bytes() == seq![x],
            Val::I8(x) => v.type_code() == 1 && v.bytes().len() == 1 && (v.bytes()[0] - x) % 256
                == 0,
            Val::U16(x) => v.type_code() == 2 && v.bytes() == le_bytes(x as nat, 2),
            Val::I16(x) => v.type_code() == 3 && v.bytes() == le_bytes(
                (if x < 0 {
                    x + 0x1_0000
                } else {
                    x as int
                }) as nat,
                2,
            ),
            Val::U32(x) => v.type_code() == 4 && v.bytes() == le_bytes(x as nat, 4),
            Val::I32(x) => v.type_code() == 5 && v.bytes() == le_bytes(
                (if x < 0 {
                    x + 0x1_0000_0000
                } else {
                    x as int
                }) as nat,
                4,
            ),
            Val::F32(x) => v.type_code() == 6 && v.bytes() == le_bytes(x as nat, 4),
            Val::Bool(x) => v.type_code() == 7 && v.bytes() == seq![if x { 1u8 } else { 0u8 }],
            Val::Str(s) => v.type_code() == 8 && v.bytes() == string_bytes(s),
            Val::Arr(t, vs) => v.type_code() == 9 && v.bytes() == le_bytes(t as nat, 4) + le_bytes(
                vs.len(),
                8,
            ) + all_bytes(vs),
            Val::U64(x) => v.type_code() == 10 && v.bytes() == le_bytes(x as nat, 8),
            Val::I64(x) => v.type_code() == 11 && v.bytes() == le_bytes(
                (if x < 0 {
                    x + 0x1_0000_0000_0000_0000
                } else {
                    x as int
                }) as nat,
                8,
            ),
            Val::F64(x) => v.type_code() == 12 && v.bytes() == le_bytes(x as nat, 8),
        },
{
    match v {
        Val::I8(x) => {
            assert(x as u8 == (if x < 0 {
                x + 0x100
            } else {
                x as int
            })) by (bit_vector);
        },
        Val::I16(x) => {
            assert(x as u16 == (if x < 0 {
                x + 0x1_0000
            } else {
                x as int
            })) by (bit_vector);
        },
        Val::I32(x) => {
            assert(x as u32 == (if x < 0 {
                x + 0x1_0000_0000
            } else {
                x as int
            })) by (bit_vector);
        },
        Val::I64(x) => {
            assert(x as u64 == (if x < 0 {
                x + 0x1_0000_0000_0000_0000
            } else {
                x as int
            })) by (bit_vector);
        },
        _ => {},
    }
}

/// The elements of an array stand one after the other.
pub proof fn elements_follow_each_other(vs: Seq<Val>, v: Val)
    ensures
        all_bytes(seq![]) == Seq::<u8>::empty(),
        all_bytes(vs.push(v)) == all_bytes(vs) + v.bytes(),
    decreases vs.len(),
{
    let all = vs.push(v);
    if vs.len() == 0 {
        assert(all.subrange(1, 1) =~= seq![]);
        assert(v.bytes() + Seq::<u8>::empty() =~= v.bytes());
        assert(Seq::<u8>::empty() + v.bytes() =~= v.bytes());
        reveal_with_fuel(all_bytes, 2);
    } else {
        let rest = vs.subrange(1, vs.len() as int);
        elements_follow_each_other(rest, v);
        assert(all.subrange(1, all.len() as int) =~= rest.push(v));
        assert(vs[0].bytes() + (all_bytes(rest) + v.bytes()) =~= all_bytes(vs) + v.bytes());
    }
}

/// A value is read as a non-negative integer where it is one.
pub proof fn whole_numbers_are_read(v: Val, n: u64)
    ensures
        v.unsigned() == Some(n) <==> match v {
            Val::U8(x) => x == n,
            Val::U16(x) => x == n,
            Val::U32(x) => x == n,
            Val::U64(x) => x == n,
            Val::I8(x) => x == n,
            Val::I16(x) => x == n,
            Val::I32(x) => x == n,
            Val::I64(x) => x == n,
            _ => false,
        },
{
}

/// An entry of the metadata is its key, the code of the value's type in four bytes,
/// and the value; entries follow each other.
pub proof fn entries_follow_each_other(kvs: Seq<(Seq<char>, Val)>, kv: (Seq<char>, Val))
    ensures
        kvs_bytes(seq![]) == Seq::<u8>::empty(),
        kvs_bytes(kvs.push(kv)) == kvs_bytes(kvs) + string_bytes(kv.0) + le_bytes(
            kv.1.type_code() as nat,
            4,
        ) + kv.1.bytes(),
    decreases kvs.len(),
{
    let own = string_bytes(kv.0) + le_bytes(kv.1.type_code() as nat, 4) + kv.1.bytes();
    assert(kv_bytes(kv) =~= own);
    let all = kvs.push(kv);
    if kvs.len() == 0 {
        assert(all.subrange(1, 1) =~= seq![]);
        reveal_with_fuel(kvs_bytes, 2);
        assert(kvs_bytes(all) =~= own);
        assert(kvs_bytes(all) =~= kvs_bytes(kvs) + string_bytes(kv.0) + le_bytes(
            kv.1.type_code() as nat,
            4,
        ) + kv.1.bytes());
    } else {
        let rest = kvs.subrange(1, kvs.len() as int);
        entries_follow_each_other(rest, kv);
        assert(all.subrange(1, all.len() as int) =~= rest.push(kv));
        assert(kvs_bytes(all) =~= kvs_bytes(kvs) + string_bytes(kv.0) + le_bytes(
            kv.1.type_code() as nat,
            4,
        ) + kv.1.bytes());
    }
}

/// Dimension `i` stands in the bytes from `8 i` on.
pub proof fn dimensions_take_eight_bytes(dims: Seq<u64>, i: int)
    requires
        0 <= i < dims.len(),
    ensures
        dims_bytes(dims).len() == 8 * dims.len(),
        dims_bytes(dims).subrange(8 * i, 8 * i + 8) == le_bytes(dims[i] as nat, 8),
    decreases dims.len(),
{
    le_bytes_len(dims[0] as nat, 8);
    let rest = dims.subrange(1, dims.len() as int);
    let own = le_bytes(dims[0] as nat, 8);
    if rest.len() == 0 {
        assert(dims_bytes(rest) =~= seq![]);
    } else if i > 0 {
        dimensions_take_eight_bytes(rest, i - 1);
        assert(dims_bytes(dims).subrange(8 * i, 8 * i + 8) =~= dims_bytes(rest).subrange(
            8 * (i - 1),
            8 * (i - 1) + 8,
        ));
    } else {
        dimensions_take_eight_bytes(rest, 0);
    }
    if i == 0 {
        assert(dims_bytes(dims).subrange(0, 8) =~= own);
    }
}

/// A tensor description is its name, the number of dimensions in four bytes, the
/// dimensions, the code of the type in four and the data offset in eight bytes.
pub proof fn descriptions_have_their_fields(t: TensorSpec, offset: nat)
    ensures
        info_bytes(t, offset) == string_bytes(t.name) + le_bytes(t.dims.len(), 4) + dims_bytes(
            t.dims,
        ) + le_bytes(t.ty.code() as nat, 4) + le_bytes(offset, 8),
{
    assert(info_bytes(t, offset) =~= string_bytes(t.name) + le_bytes(t.dims.len(), 4) + dims_bytes(
        t.dims,
    ) + le_bytes(t.ty.code() as nat, 4) + le_bytes(offset, 8));
}

/// The data of the first tensor begin at the start of the data section, and those of
/// each further one less than an alignment behind the end of those before; a gap is
/// what lies between.
pub proof fn data_lie_close(infos: Seq<TensorSpec>, start: nat, a: nat, i: int)
    requires
        a > 0,
        0 <= i < infos.len(),
    ensures
        offsets_from(infos, start, a).len() == infos.len(),
        gaps_from(infos, start, a).len() == infos.len(),
        ({
            let o = offsets_from(infos, start, a);
            let end: nat = if i == 0 {
                start
            } else {
                o[i - 1] + infos[i - 1].size()
            };
            &&& o[i] % a == 0
            &&& end <= o[i] < end + a
            &&& gaps_from(infos, start, a)[i] == o[i] - end
            &&& start == 0 && i == 0 ==> o[i] == 0
        }),
    decreases infos.len(),
{
    round_up_bounds(start, a);
    let tail = infos.subrange(1, infos.len() as int);
    let next = round_up(start, a) + infos[0].size();
    let o = offsets_from(infos, start, a);
    let g = gaps_from(infos, start, a);
    if tail.len() > 0 {
        data_lie_close(tail, next, a, if i > 0 {
            i - 1
        } else {
            0
        });
        let p = offsets_from(tail, next, a);
        assert(forall|k: int| 0 < k < infos.len() ==> #[trigger] o[k] == p[k - 1]);
        if i > 0 {
            assert(g[i] == gaps_from(tail, next, a)[i - 1]);
            if i > 1 {
                assert(infos[i - 1] == tail[i - 2]);
            }
        }
    }
}

/// A file begins with the letters GGUF, the version 3 in four bytes, and the numbers
/// of tensors and of metadata entries in eight bytes each; then come the metadata
/// and the tensor descriptions, and zeros up to the alignment.
pub proof fn files_begin_with_their_header(
    kvs: Seq<(Seq<char>, Val)>,
    infos: Seq<TensorSpec>,
    a: nat,
    i: int,
)
    requires
        a > 0,
    ensures
        ({
            let h = header_bytes(kvs, infos, a);
            let end = 24 + kvs_bytes(kvs).len() + infos_bytes(infos, 0, a).len();
            &&& h.len() % a == 0
            &&& end <= h.len() < end + a
            &&& h.subrange(0, 4) == seq![0x47u8, 0x47u8, 0x55u8, 0x46u8]
            &&& h.subrange(4, 8) == seq![3u8, 0u8, 0u8, 0u8]
            &&& h.subrange(8, 16) == le_bytes(infos.len(), 8)
            &&& h.subrange(16, 24) == le_bytes(kvs.len(), 8)
            &&& h.subrange(24, 24 + kvs_bytes(kvs).len() as int) == kvs_bytes(kvs)
            &&& h.subrange(24 + kvs_bytes(kvs).len() as int, end as int) == infos_bytes(
                infos,
                0,
                a,
            )
            &&& end <= i < h.len() ==> h[i] == 0
        }),
{
    let head = head_bytes(kvs, infos, a);
    let h = header_bytes(kvs, infos, a);
    le_bytes_len(infos.len(), 8);
    le_bytes_len(kvs.len(), 8);
    let x1 = le_bytes(crate::gguf::GGUF_MAGIC as nat, 4);
    let x2 = le_bytes(3, 4);
    assert(x1 =~= seq![0x47u8, 0x47u8, 0x55u8, 0x46u8]) by {
        reveal_with_fuel(le_bytes, 5);
    }
    assert(x2 =~= seq![3u8, 0u8, 0u8, 0u8]) by {
        reveal_with_fuel(le_bytes, 5);
    }
    let k = kvs_bytes(kvs);
    let t = infos_bytes(infos, 0, a);
    let end = 24 + k.len() + t.len();
    assert(head.len() == end);
    round_up_bounds(head.len(), a);
    assert(h.len() == data_section(kvs, infos, a));
    assert(h.subrange(0, 4) =~= x1);
    assert(h.subrange(4, 8) =~= x2);
    assert(h.subrange(8, 16) =~= le_bytes(infos.len(), 8));
    assert(h.subrange(16, 24) =~= le_bytes(kvs.len(), 8));
    assert(h.subrange(24, 24 + k.len() as int) =~= k);
    assert(h.subrange(24 + k.len() as int, end as int) =~= t);
}

/// Bytes that do not begin with the letters GGUF, or whose version is neither 2 nor
/// 3, are no file; with one of these versions, the number of tensors is read next.
pub proof fn other_files_are_refused(b: Seq<u8>)
    requires
        b.len() >= 8,
    ensures
        b.subrange(0, 4) != seq![0x47u8, 0x47u8, 0x55u8, 0x46u8] ==> (file_of(b) matches Err(
            GgufError::BadMagic(_),
        )),
        b.subrange(0, 4) == seq![0x47u8, 0x47u8, 0x55u8, 0x46u8] && !((b[4] == 2 || b[4] == 3)
            && b[5] == 0 && b[6] == 0 && b[7] == 0) ==> (file_of(b) matches Err(
            GgufError::BadVersion(_),
        )),
        b.subrange(0, 4) == seq![0x47u8, 0x47u8, 0x55u8, 0x46u8] && (b[4] == 2 || b[4] == 3) && b[5]
            == 0 && b[6] == 0 && b[7] == 0 && b.len() < 16 ==> file_of(b) == Err::<
            FileSpec,
            GgufError,
        >(GgufError::Eof { at: 8, need: 8 }),
{
    let m = b.subrange(0, 4);
    let v = b.subrange(4, 8);
    four_spelled(m);
    four_spelled(v);
    if m != seq![0x47u8, 0x47u8, 0x55u8, 0x46u8] {
        assert(!(m[0] == 0x47 && m[1] == 0x47 && m[2] == 0x55 && m[3] == 0x46)) by {
            if m[0] == 0x47 && m[1] == 0x47 && m[2] == 0x55 && m[3] == 0x46 {
                assert(m =~= seq![0x47u8, 0x47u8, 0x55u8, 0x46u8]);
            }
        }
        assert(le_value(m) != 0x4655_4747);
    } else {
        assert(m[0] == 0x47 && m[1] == 0x47 && m[2] == 0x55 && m[3] == 0x46);
        assert(le_value(m) == 0x4655_4747);
    }
}

proof fn four_spelled(s: Seq<u8>)
    requires
        s.len() == 4,
    ensures
        le_value(s) == s[0] + 0x100 * s[1] + 0x1_0000 * s[2] + 0x100_0000 * s[3],
{
    reveal_with_fuel(le_value, 5);
}

/// The alignment is the number that the metadata declare under "general.alignment",
/// and 32 where they declare none.
pub proof fn alignment_is_declared(kvs: Seq<(Seq<char>, Val)>, n: u64)
    ensures
        lookup(kvs, "general.alignment"@) == Some(Val::U32(n as u32)) && n <= u32::MAX
            ==> alignment_of(kvs) == n,
        lookup(kvs, "general.alignment"@) == Some(Val::U64(n)) ==> alignment_of(kvs) == n,
        lookup(kvs, "general.alignment"@) is None ==> alignment_of(kvs) == 32,
        lookup(kvs, "general.alignment"@) matches Some(Val::Str(_)) ==> alignment_of(kvs) == 32,
{
}

/// The numbers under which files know the types, and how many elements and bytes a
/// block of each has.
pub proof fn types_have_their_numbers_and_sizes(v: u32)
    ensures
        ({
            let ty = type_of_code(v);
            let (e, b) = (ty.block_elems(), ty.block_bytes());
            &&& ty.code() == v
            &&& v == 0 ==> ty == GgmlType::F32 && (e, b) == (1nat, 4nat)
            &&& v == 1 ==> ty == GgmlType::F16 && (e, b) == (1nat, 2nat)
            &&& v == 2 ==> ty == GgmlType::Q4_0 && (e, b) == (32nat, 18nat)
            &&& v == 3 ==> ty == GgmlType::Q4_1 && (e, b) == (32nat, 20nat)
            &&& v == 6 ==> ty == GgmlType::Q5_0 && (e, b) == (32nat, 22nat)
            &&& v == 7 ==> ty == GgmlType::Q5_1 && (e, b) == (32nat, 24nat)
            &&& v == 8 ==> ty == GgmlType::Q8_0 && (e, b) == (32nat, 34nat)
            &&& v == 12 ==> ty == GgmlType::Q4K && (e, b) == (256nat, 144nat)
            &&& v == 13 ==> ty == GgmlType::Q5K && (e, b) == (256nat, 176nat)
            &&& v == 14 ==> ty == GgmlType::Q6K && (e, b) == (256nat, 210nat)
            &&& v == 16 ==> ty == GgmlType::Iq2Xxs && (e, b) == (256nat, 66nat)
            &&& v == 17 ==> ty == GgmlType::Iq2Xs && (e, b) == (256nat, 74nat)
            &&& v == 18 ==> ty == GgmlType::Iq3Xxs && (e, b) == (256nat, 98nat)
            &&& v == 20 ==> ty == GgmlType::Iq4Nl && (e, b) == (32nat, 18nat)
            &&& v == 21 ==> ty == GgmlType::Iq3S && (e, b) == (256nat, 110nat)
            &&& v == 22 ==> ty == GgmlType::Iq2S && (e, b) == (256nat, 82nat)
            &&& v == 23 ==> ty == GgmlType::Iq4Xs && (e, b) == (256nat, 136nat)
            &&& v == 30 ==> ty == GgmlType::Bf16 && (e, b) == (1nat, 2nat)
        }),
{
}

} // verus!
