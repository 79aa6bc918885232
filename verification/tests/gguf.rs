use shoehorn::ggml_type::GgmlType;
use shoehorn::gguf::{checked_align_up, find_kv, read, GgufError, Reader, TensorInfo};
use shoehorn::gguf_write::{lay_out, push_zeros, write_streaming};
use shoehorn::model::{split_siblings, Model, ModelError, Siblings};
use shoehorn::value::{write_string, write_value, Value};

fn tensor(name: &str, dims: &[u64], ty: GgmlType) -> TensorInfo {
    TensorInfo { name: name.to_string(), dims: dims.to_vec(), ty, offset: 0, shard: 0 }
}

fn file(kvs: &[(String, Value)], infos: &[TensorInfo], alignment: u64, data: &[Vec<u8>]) -> Vec<u8> {
    let mut out = Vec::new();
    let n = write_streaming(&mut out, kvs, infos, alignment, data).unwrap();
    assert_eq!(n, out.len() as u64);
    out
}

/// Every Value variant survives a write→read roundtrip, including arrays —
/// exotic metadata from real repos must pass through fits untouched.
#[test]
fn gguf_metadata_roundtrips_every_value_type() {
    let kvs: Vec<(String, Value)> = vec![
        ("general.architecture".into(), Value::Str("llama".into())),
        ("t.u8".into(), Value::U8(7)),
        ("t.i8".into(), Value::I8(-7)),
        ("t.u16".into(), Value::U16(300)),
        ("t.i16".into(), Value::I16(-300)),
        ("t.u32".into(), Value::U32(70000)),
        ("t.i32".into(), Value::I32(-70000)),
        ("t.f32".into(), Value::F32(0.25f32.to_bits())),
        ("t.bool".into(), Value::Bool(true)),
        ("t.str".into(), Value::Str("hé\u{1F980}".into())),
        ("t.u64".into(), Value::U64(1 << 40)),
        ("t.i64".into(), Value::I64(-(1 << 40))),
        ("t.f64".into(), Value::F64(0.125f64.to_bits())),
        (
            "t.arr.str".into(),
            Value::Arr(8, vec![Value::Str("a".into()), Value::Str("b".into())]),
        ),
        (
            "t.arr.f32".into(),
            Value::Arr(6, vec![Value::F32(1.5f32.to_bits()), Value::F32((-2.5f32).to_bits())]),
        ),
    ];
    let infos = vec![tensor("output_norm.weight", &[32], GgmlType::F32)];
    let out = file(&kvs, &infos, 32, &[vec![0u8; 32 * 4]]);

    let back = Model::from_shards(vec![&out]).unwrap();
    for (k, v) in &kvs {
        assert_eq!(back.kv(k), Some(v), "kv {k} did not roundtrip");
    }
    assert_eq!(back.tensors.len(), 1);
}

#[test]
fn header_bytes_are_exact() {
    let kvs = vec![("k".to_string(), Value::U16(0x0102))];
    let infos = vec![tensor("t", &[2, 1], GgmlType::F32)];
    let out = file(&kvs, &infos, 32, &[vec![9; 8]]);
    let mut want: Vec<u8> = b"GGUF".to_vec();
    want.extend(3u32.to_le_bytes());
    want.extend(1u64.to_le_bytes());
    want.extend(1u64.to_le_bytes());
    want.extend(1u64.to_le_bytes());
    want.extend(b"k");
    want.extend(2u32.to_le_bytes());
    want.extend([2, 1]);
    want.extend(1u64.to_le_bytes());
    want.extend(b"t");
    want.extend(2u32.to_le_bytes());
    want.extend(2u64.to_le_bytes());
    want.extend(1u64.to_le_bytes());
    want.extend(0u32.to_le_bytes());
    want.extend(0u64.to_le_bytes());
    while want.len() % 32 != 0 {
        want.push(0);
    }
    want.extend([9; 8]);
    assert_eq!(out, want);
}

#[test]
fn data_and_offsets_are_read_back() {
    let kvs = vec![("general.alignment".to_string(), Value::U32(64))];
    let infos = vec![
        tensor("a", &[3], GgmlType::F32),
        tensor("b", &[32, 2], GgmlType::Q4_0),
        tensor("c", &[5], GgmlType::F16),
    ];
    let data: Vec<Vec<u8>> = vec![(0..12).collect(), (100..136).collect(), (50..60).collect()];
    let out = file(&kvs, &infos, 64, &data);
    let f = read(&out).unwrap();
    assert_eq!(f.alignment, 64);
    assert_eq!(f.data_start % 64, 0);
    let offsets: Vec<u64> = f.tensors.iter().map(|t| t.offset).collect();
    assert_eq!(offsets, vec![0, 64, 128]);
    for ((t, i), d) in f.tensors.iter().zip(&infos).zip(&data) {
        assert_eq!((&t.name, &t.dims, t.ty), (&i.name, &i.dims, i.ty));
        assert_eq!(f.checked_tensor_data(&out, t).unwrap(), &d[..]);
        assert_eq!(f.tensor_data(&out, t), &d[..]);
    }
    // the last tensor is not padded
    assert_eq!(out.len() as u64, f.data_start + 128 + 10);
    assert!(f.checked_tensor_data(&out[..out.len() - 1], &f.tensors[2]).is_none());

    let l = lay_out(&kvs, &infos, 64).unwrap();
    assert_eq!(l.offsets, vec![0, 64, 128]);
    assert_eq!(l.gaps, vec![0, 52, 28]);
    assert_eq!(l.total, out.len() as u64);
    assert_eq!(&l.header[..], &out[..l.header.len()]);
}

#[test]
fn nothing_is_written_without_a_layout() {
    let infos = vec![tensor("a", &[3], GgmlType::F32)];
    let mut out = vec![1, 2];
    assert!(write_streaming(&mut out, &[], &infos, 0, &[vec![0; 12]]).is_none());
    assert_eq!(out, vec![1, 2]);
    assert!(lay_out(&[], &[tensor("a", &[3], GgmlType::Q4_0)], 32).is_none());
    push_zeros(&mut out, 3);
    assert_eq!(out, vec![1, 2, 0, 0, 0]);
}

#[test]
fn each_reading_error_comes() {
    assert!(matches!(read(b"GGU"), Err(GgufError::Eof { at: 0, need: 4 })));
    assert!(matches!(read(b"GGUX"), Err(GgufError::BadMagic(m)) if m == u32::from_le_bytes(*b"GGUX")));
    let mut v1 = b"GGUF".to_vec();
    v1.extend(1u32.to_le_bytes());
    assert!(matches!(read(&v1), Err(GgufError::BadVersion(1))));

    let head = |n_tensors: u64, n_kvs: u64, version: u32| {
        let mut b = b"GGUF".to_vec();
        b.extend(version.to_le_bytes());
        b.extend(n_tensors.to_le_bytes());
        b.extend(n_kvs.to_le_bytes());
        b
    };
    let mut b = head(0, 1, 2);
    write_string(&mut b, "k");
    b.extend(13u32.to_le_bytes());
    assert!(matches!(read(&b), Err(GgufError::UnknownValueType(13))));

    let mut b = head(0, 1, 3);
    write_string(&mut b, "general.alignment");
    b.extend(4u32.to_le_bytes());
    b.extend(0u32.to_le_bytes());
    assert!(matches!(read(&b), Err(GgufError::ZeroAlignment)));

    let mut b = head(0, 1, 3);
    write_string(&mut b, "general.alignment");
    b.extend(10u32.to_le_bytes());
    b.extend(u64::MAX.to_le_bytes());
    assert!(read(&b).is_ok());
    let mut b = head(0, 1, 3);
    write_string(&mut b, "general.alignment");
    b.extend(10u32.to_le_bytes());
    b.extend((u64::MAX - 1).to_le_bytes());
    assert!(read(&b).is_ok());

    // a header that promises more than is there
    let b = head(1, 0, 3);
    assert!(matches!(read(&b), Err(GgufError::Eof { at: 24, need: 8 })));
    // an array that is cut off
    let mut b = head(0, 1, 3);
    write_string(&mut b, "k");
    b.extend(9u32.to_le_bytes());
    b.extend(4u32.to_le_bytes());
    b.extend(u64::MAX.to_le_bytes());
    assert!(matches!(read(&b), Err(GgufError::Eof { .. })));
}

#[test]
fn malformed_text_is_repaired() {
    let mut b = b"GGUF".to_vec();
    b.extend(3u32.to_le_bytes());
    b.extend(0u64.to_le_bytes());
    b.extend(1u64.to_le_bytes());
    write_string(&mut b, "k");
    b.extend(8u32.to_le_bytes());
    b.extend(3u64.to_le_bytes());
    b.extend([b'a', 0xff, b'b']);
    let f = read(&b).unwrap();
    assert_eq!(find_kv(&f.kvs, "k").unwrap().as_str(), Some("a\u{fffd}b"));
    assert!(find_kv(&f.kvs, "j").is_none());
}

#[test]
fn values_as_numbers_and_texts() {
    assert_eq!(Value::U8(1).as_u64(), Some(1));
    assert_eq!(Value::U16(2).as_u64(), Some(2));
    assert_eq!(Value::U32(3).as_u64(), Some(3));
    assert_eq!(Value::U64(4).as_u64(), Some(4));
    assert_eq!(Value::I8(5).as_u64(), Some(5));
    assert_eq!(Value::I32(-5).as_u64(), None);
    assert_eq!(Value::Bool(true).as_u64(), None);
    assert_eq!(Value::F32(0).as_u64(), None);
    assert_eq!(Value::Str("x".into()).as_str(), Some("x"));
    assert_eq!(Value::U8(0).as_str(), None);
    assert_eq!(Value::Arr(4, vec![]).type_id(), 9);
    assert_eq!(Value::F64(0).type_id(), 12);
    let v = Value::Arr(9, vec![Value::Arr(0, vec![Value::U8(3)])]);
    assert_eq!(v.duplicate(), v);
    let mut out = Vec::new();
    write_value(&mut out, &Value::I16(-2));
    assert_eq!(out, vec![0xfe, 0xff]);
}

#[test]
fn types_sizes_and_names() {
    for code in 0..64u32 {
        assert_eq!(GgmlType::from_u32(code).to_u32(), code);
    }
    assert_eq!(GgmlType::from_u32(30), GgmlType::Bf16);
    assert_eq!(GgmlType::from_u32(99), GgmlType::Other(99));
    assert_eq!(GgmlType::Q4K.block_layout(), (256, 144));
    assert_eq!(GgmlType::Q6K.row_bytes(512), 420);
    assert_eq!(GgmlType::Q4_0.checked_row_bytes(33), None);
    assert_eq!(GgmlType::Bf16.checked_row_bytes(u64::MAX), None);
    assert_eq!(GgmlType::Iq2Xxs.name(), "IQ2_XXS");
    assert_eq!(GgmlType::Other(77).name(), "type77");

    let t = tensor("t", &[256, 3, 2], GgmlType::Bf16);
    assert_eq!((t.n_elements(), t.ne0(), t.n_rows()), (1536, 256, 6));
    assert_eq!((t.byte_size(), t.byte_size_as(GgmlType::Q4K)), (3072, 864));
    assert_eq!(t.checked_byte_size_as(GgmlType::Q6K), Some(1260));
    assert_eq!(tensor("t", &[u64::MAX, 2], GgmlType::F32).checked_byte_size_as(GgmlType::F32), None);
    assert_eq!(tensor("t", &[], GgmlType::F32).checked_byte_size_as(GgmlType::F32), None);
    assert_eq!(checked_align_up(33, 32), Some(64));
    assert_eq!(checked_align_up(64, 32), Some(64));
    assert_eq!(checked_align_up(u64::MAX, 2), None);
}

#[test]
fn shards_form_one_model() {
    let kvs = vec![("general.architecture".to_string(), Value::Str("x".into()))];
    let a = file(&kvs, &[tensor("a", &[4], GgmlType::F32)], 32, &[(0..16).collect()]);
    let b = file(&[], &[tensor("b", &[2], GgmlType::F32)], 32, &[(16..24).collect()]);
    let m = Model::from_shards(vec![&a, &b]).unwrap();
    assert_eq!(m.tensors.len(), 2);
    assert_eq!((m.tensors[0].shard, m.tensors[1].shard), (0, 1));
    assert_eq!(m.tensor_data(&m.tensors[0]), &(0..16).collect::<Vec<u8>>()[..]);
    assert_eq!(m.checked_tensor_data(&m.tensors[1]).unwrap(), &(16..24).collect::<Vec<u8>>()[..]);
    assert_eq!(m.total_bytes(), (a.len() + b.len()) as u64);
    assert!(m.kv("general.architecture").is_some());

    match Model::from_shards(vec![&a, b"oops"]) {
        Err(ModelError::Parse { shard: 1, error: GgufError::BadMagic(_) }) => {}
        _ => panic!("the second shard is no file"),
    }
    let cut = Model::from_shards(vec![&a[..a.len() - 1]]).unwrap();
    assert!(cut.checked_tensor_data(&cut.tensors[0]).is_none());
}

#[test]
fn shard_names_come_in_order() {
    assert!(matches!(split_siblings("m.gguf"), Siblings::Single));
    assert!(matches!(split_siblings("m-00001-of-00001.gguf"), Siblings::Single));
    match split_siblings("m-00001-of-00003.gguf") {
        Siblings::Shards(v) => assert_eq!(
            v,
            vec!["m-00001-of-00003.gguf", "m-00002-of-00003.gguf", "m-00003-of-00003.gguf"]
        ),
        _ => panic!("three shards"),
    }
    assert!(matches!(split_siblings("m-00002-of-00003.gguf"), Siblings::NotFirst { count: 3 }));
    assert!(matches!(split_siblings("m-1-of-x.gguf"), Siblings::Single));
    assert!(matches!(split_siblings("m-+0001-of-00002.gguf"), Siblings::Single));
    assert!(matches!(split_siblings("m-00001-of-+0002.gguf"), Siblings::Single));
}

#[test]
fn a_failed_read_leaves_the_position() {
    let bytes = [5u8, 0, 0, 0, 0, 0, 0, 0, b'a', b'b'];
    let mut r = Reader { buf: &bytes, pos: 7 };
    assert_eq!(r.take(4), Err(GgufError::Eof { at: 7, need: 4 }));
    assert_eq!(r.pos, 7);
    assert_eq!(r.u32(), Err(GgufError::Eof { at: 7, need: 4 }));
    assert_eq!(r.u64(), Err(GgufError::Eof { at: 7, need: 8 }));
    assert_eq!(r.pos, 7);
    assert_eq!(r.take(3), Ok(&bytes[7..10]));
    assert_eq!(r.pos, 10);
    let mut r = Reader { buf: &bytes, pos: 0 };
    assert_eq!(r.string(), Err(GgufError::Eof { at: 8, need: 5 }));
    assert_eq!(r.pos, 8);
}

#[test]
fn names_tell_types_apart() {
    let all: Vec<String> = (0..64).map(|v| GgmlType::from_u32(v).name()).collect();
    for (i, a) in all.iter().enumerate() {
        for b in &all[..i] {
            assert_ne!(a, b);
        }
    }
    assert_eq!(GgmlType::from_u32(63).name(), "type63");
}

#[test]
fn pieces_put_together_are_the_file() {
    let kvs = vec![("k".to_string(), Value::Str("v".into()))];
    let infos = [
        tensor("a", &[3], GgmlType::F32),
        tensor("b", &[5], GgmlType::F16),
        tensor("c", &[32], GgmlType::Q8_0),
    ];
    let data: Vec<Vec<u8>> =
        infos.iter().enumerate().map(|(i, t)| vec![i as u8 + 1; t.byte_size() as usize]).collect();
    let l = lay_out(&kvs, &infos, 64).unwrap();
    let mut out = l.header.clone();
    for (gap, d) in l.gaps.iter().zip(&data) {
        out.extend(vec![0; *gap as usize]);
        out.extend(d);
    }
    assert_eq!(l.gaps, vec![0, 52, 54]);
    assert_eq!(out.len() as u64, l.total);
    assert_eq!(out, file(&kvs, &infos, 64, &data));
}
