use shoehorn::ggml_type::GgmlType;
use shoehorn::gguf::{GgufError, TensorInfo};
use shoehorn::gguf_write::write_streaming;
use shoehorn::imatrix::{
    count_index, find_entry, largest_weight, load, load_gguf, load_legacy, row_slice, sanitize,
    Divisor, Entry, ImatrixError,
};

fn legacy(entries: &[(&str, i32, &[f32])]) -> Vec<u8> {
    let mut b = (entries.len() as i32).to_le_bytes().to_vec();
    for (name, calls, values) in entries {
        b.extend((name.len() as i32).to_le_bytes());
        b.extend(name.as_bytes());
        b.extend(calls.to_le_bytes());
        b.extend((values.len() as i32).to_le_bytes());
        for v in *values {
            b.extend(v.to_le_bytes());
        }
    }
    b
}

#[test]
fn legacy_files_are_read() {
    let b = legacy(&[("blk.0.attn_q.weight", 4, &[1.0, 2.0]), ("x", 0, &[])]);
    let v = load(&b).unwrap();
    assert_eq!(
        v,
        vec![
            Entry {
                name: "blk.0.attn_q.weight".into(),
                sums: vec![1.0f32.to_bits(), 2.0f32.to_bits()],
                divisor: Divisor::Calls(4),
            },
            Entry { name: "x".into(), sums: vec![], divisor: Divisor::Calls(0) },
        ]
    );
    // what follows the entries does not matter
    let mut longer = b.clone();
    longer.extend([1, 2, 3]);
    assert_eq!(load(&longer), Ok(v));
}

#[test]
fn legacy_errors_come() {
    assert_eq!(load(&[1, 0]), Err(ImatrixError::Truncated { at: 0 }));
    assert_eq!(
        load(&(-1i32).to_le_bytes()),
        Err(ImatrixError::ImplausibleCount { count: -1 })
    );
    assert_eq!(
        load(&1_000_000i32.to_le_bytes()),
        Err(ImatrixError::ImplausibleCount { count: 1_000_000 })
    );
    let b = legacy(&[("name", 1, &[1.0])]);
    assert_eq!(load_legacy(&b[..9]), Err(ImatrixError::TruncatedName { entry: 0 }));
    assert_eq!(load_legacy(&b[..14]), Err(ImatrixError::Truncated { at: 12 }));
    assert_eq!(load_legacy(&b[..18]), Err(ImatrixError::Truncated { at: 16 }));
    assert_eq!(load_legacy(&b[..22]), Err(ImatrixError::TruncatedValues { entry: 0 }));
    assert!(load_legacy(&b).is_ok());
}

fn sums_file(tensors: &[(&str, &[f32])]) -> Vec<u8> {
    let infos: Vec<TensorInfo> = tensors
        .iter()
        .map(|(n, v)| TensorInfo {
            name: n.to_string(),
            dims: vec![v.len() as u64],
            ty: GgmlType::F32,
            offset: 0,
            shard: 0,
        })
        .collect();
    let data: Vec<Vec<u8>> =
        tensors.iter().map(|(_, v)| v.iter().flat_map(|x| x.to_le_bytes()).collect()).collect();
    let mut out = Vec::new();
    write_streaming(&mut out, &[], &infos, 32, &data).unwrap();
    out
}

#[test]
fn gguf_files_are_read() {
    let b = sums_file(&[
        ("a.weight.in_sum2", &[4.0, 6.0]),
        ("a.weight.counts", &[2.0]),
        ("b.weight.in_sum2", &[1.0]),
    ]);
    let v = load(&b).unwrap();
    assert_eq!(v.len(), 2);
    assert_eq!(v[0].name, "a.weight");
    assert_eq!(v[0].sums, vec![4.0f32.to_bits(), 6.0f32.to_bits()]);
    assert_eq!(v[0].divisor, Divisor::Counts(vec![2.0f32.to_bits()]));
    assert_eq!(v[1].divisor, Divisor::Counts(vec![]));
}

#[test]
fn gguf_errors_come() {
    assert_eq!(load(&sums_file(&[("other", &[1.0])])), Err(ImatrixError::NoSums));
    let b = sums_file(&[("a.in_sum2", &[1.0])]);
    assert_eq!(load(&b[..b.len() - 1]), Err(ImatrixError::MissingData { tensor: 0 }));
    assert_eq!(
        load(b"GGUF"),
        Err(ImatrixError::Gguf { error: GgufError::Eof { at: 4, need: 4 } })
    );
    assert_eq!(
        load_gguf(b"GGXX"),
        Err(ImatrixError::Gguf { error: GgufError::BadMagic(u32::from_le_bytes(*b"GGXX")) })
    );
}

#[test]
fn counts_cover_runs_of_sums() {
    // one count per matrix of four sums
    assert_eq!((0..8).map(|i| count_index(i, 8, 2)).collect::<Vec<_>>(), [0, 0, 0, 0, 1, 1, 1, 1]);
    assert_eq!(count_index(7, 8, 1), 0);
    // more sums than the counts divide stay with the last
    assert_eq!(count_index(8, 9, 2), 1);
    assert_eq!(count_index(1, 2, 5), 1);
}

#[test]
fn weights_are_sanitized() {
    let bits = |v: &[f32]| v.iter().map(|x| x.to_bits()).collect::<Vec<u32>>();
    let mut v = bits(&[1.0, 0.0, -3.0, f32::INFINITY, f32::NAN, 5.0]);
    assert_eq!(largest_weight(&v), 5.0f32.to_bits());
    sanitize(&mut v, 0.5f32.to_bits());
    assert_eq!(v, bits(&[1.0, 0.5, 0.5, 0.5, 0.5, 5.0]));
    assert_eq!(largest_weight(&[]), 0);
}

#[test]
fn rows_take_their_weights() {
    let v = [1, 2, 3, 4, 5, 6];
    assert_eq!(row_slice(Some(&v[..]), 6, 10, 99), Some(&v[..]));
    assert_eq!(row_slice(Some(&v[..]), 2, 4, 3), Some(&v[0..2]));
    assert_eq!(row_slice(Some(&v[..]), 2, 4, 4), Some(&v[2..4]));
    assert_eq!(row_slice(Some(&v[..]), 2, 4, 1000), Some(&v[4..6]));
    assert_eq!(row_slice(Some(&v[..]), 4, 4, 0), None);
    assert_eq!(row_slice(Some(&v[..]), 2, 0, 0), None);
    assert_eq!(row_slice(None::<&[u32]>, 2, 1, 0), None);
}

#[test]
fn entries_are_found_by_name() {
    let e = |name: &str| Entry { name: name.into(), sums: vec![], divisor: Divisor::Calls(1) };
    let v = vec![e("a"), e("b.weight"), e("b.weight"), e("b")];
    assert_eq!(find_entry(&v, "b.weight"), Some(2));
    assert_eq!(find_entry(&v, "a.weight"), Some(0));
    assert_eq!(find_entry(&v, "a.weight.weight"), Some(0));
    assert_eq!(find_entry(&v, "c"), None);
}

#[test]
fn sanitized_weights_are_positive_and_stay() {
    let bits = |v: &[f32]| v.iter().map(|x| x.to_bits()).collect::<Vec<u32>>();
    // no positive finite weight
    let mut v = bits(&[0.0, -1.0, f32::NAN]);
    sanitize(&mut v, 0);
    assert_eq!(v, bits(&[1.0, 1.0, 1.0]));
    // a scaled weight that vanished
    let tiny = f32::from_bits(1);
    let mut v = bits(&[tiny, 0.0, f32::INFINITY]);
    sanitize(&mut v, (tiny * 1e-9).to_bits());
    assert_eq!(v, bits(&[tiny, tiny, tiny]));
    let mut v = bits(&[2.0, 0.0, f32::NEG_INFINITY]);
    sanitize(&mut v, (2.0f32 * 1e-9).to_bits());
    assert_eq!(v, bits(&[2.0, 2.0 * 1e-9, 2.0 * 1e-9]));
    let once = v.clone();
    sanitize(&mut v, 0.25f32.to_bits());
    assert_eq!(v, once);
}
