use shoehorn::budget::{
    compute_budget, default_reserve, hyperparams, kv_bytes_per_32, working_set, Budget, HyperError,
    NoRoom,
};
use shoehorn::ggml_type::GgmlType;
use shoehorn::gguf::TensorInfo;
use shoehorn::gguf_write::write_streaming;
use shoehorn::block::{is_blocked, unpack_row};
use shoehorn::model::Model;
use shoehorn::plan::{
    build_plan, data_source, dispose, file_type_code, output_infos, output_kvs, partition,
    recalibrate, sampling, DataSource, Disposition, Plan, PlanEntry, PlanError,
};
use shoehorn::runtime::{
    fmt_size, measure_args, runtime_sizes, serve_args, split_size, type_totals, RuntimeSizes,
};
use shoehorn::value::Value;

fn tensor(name: &str, dims: &[u64], ty: GgmlType) -> TensorInfo {
    TensorInfo { name: name.to_string(), dims: dims.to_vec(), ty, offset: 0, shard: 0 }
}

fn kvs() -> Vec<(String, Value)> {
    vec![
        ("general.architecture".into(), Value::Str("llama".into())),
        ("llama.block_count".into(), Value::U32(2)),
        ("llama.embedding_length".into(), Value::U32(256)),
        ("llama.attention.head_count".into(), Value::U32(4)),
        ("llama.attention.head_count_kv".into(), Value::U32(2)),
        ("llama.vocab_size".into(), Value::U32(256)),
    ]
}

fn synthetic() -> Vec<TensorInfo> {
    vec![
        tensor("token_embd.weight", &[256, 128], GgmlType::Bf16),
        tensor("blk.0.attn_q.weight", &[256, 256], GgmlType::Bf16),
        tensor("blk.0.ffn_down.weight", &[256, 64], GgmlType::Bf16),
        tensor("blk.1.attn_q.weight", &[256, 256], GgmlType::Bf16),
        tensor("output_norm.weight", &[256], GgmlType::F32),
    ]
}

/// Errors that fall with the size of a type.
fn errors(tensors: &[TensorInfo], to_solve: &[(usize, Vec<GgmlType>)]) -> Vec<Vec<u64>> {
    to_solve
        .iter()
        .map(|(i, types)| {
            types
                .iter()
                .map(|ty| (1u64 << 40) / tensors[*i].checked_byte_size_as(*ty).unwrap())
                .collect()
        })
        .collect()
}

fn fitted(weight_room: u64) -> Result<(Vec<TensorInfo>, Plan), PlanError> {
    let h = hyperparams(&kvs()).unwrap();
    let overhead = 64 * 1024 + 576 * 1024;
    let b = compute_budget(&h, overhead + weight_room, 64, kv_bytes_per_32("f16").unwrap(), 0)
        .unwrap();
    assert_eq!((b.kv_bytes, b.compute_bytes), (64 * 1024, 576 * 1024));
    assert_eq!(b.model_budget, weight_room);
    let ts = synthetic();
    let p = partition(&ts, b.model_budget)?;
    assert_eq!(p.fixed, vec![(4, GgmlType::F32)]);
    assert_eq!(p.fixed_bytes, 1024);
    let plan = build_plan(&ts, b, &errors(&ts, &p.to_solve))?;
    Ok((ts, plan))
}

#[test]
fn tight_budgets_are_used_and_kept() {
    let (ts, plan) = fitted(200 * 1024).unwrap();
    assert!(plan.total_bytes <= plan.budget.model_budget);
    assert!(plan.total_bytes as f64 >= plan.budget.model_budget as f64 * 0.85);
    assert!(plan.entries.iter().any(|e| e.solved && e.ty != GgmlType::F16));
    // every tensor once, in the order of the source
    let order: Vec<usize> = plan.entries.iter().map(|e| e.tensor_idx).collect();
    assert_eq!(order, (0..ts.len()).collect::<Vec<_>>());
    assert_eq!(plan.entries.iter().map(|e| e.bytes).sum::<u64>(), plan.total_bytes);
    assert!(plan.entries.iter().all(|e| e.bytes == ts[e.tensor_idx].byte_size_as(e.ty)));

    // what is written has the planned types and reads back
    let infos = output_infos(&ts, &plan.entries);
    let data: Vec<Vec<u8>> = infos.iter().map(|t| vec![0; t.byte_size() as usize]).collect();
    let mut out = Vec::new();
    let kvs = output_kvs(&kvs(), file_type_code(&plan.entries));
    write_streaming(&mut out, &kvs, &infos, 32, &data).unwrap();
    let refit = Model::from_shards(vec![&out]).unwrap();
    assert_eq!(refit.tensors.len(), ts.len());
    assert_eq!(refit.kv("general.architecture").and_then(Value::as_str), Some("llama"));
    assert!(refit.kv("general.file_type").is_some());
    for (a, b) in ts.iter().zip(&refit.tensors) {
        assert_eq!((&a.name, &a.dims), (&b.name, &b.dims));
        let row = &refit.tensor_data(b)[..b.ty.row_bytes(b.ne0()) as usize];
        assert!(!is_blocked(b.ty) || unpack_row(b.ty, row).is_some());
    }
}

#[test]
fn ample_budgets_take_the_least_error() {
    let (_, plan) = fitted(1 << 30).unwrap();
    assert!(plan.entries.iter().all(|e| e.solved == (e.ty == GgmlType::F16)));
    assert_eq!(file_type_code(&plan.entries), 1);
}

#[test]
fn each_planning_error_comes() {
    assert!(matches!(fitted(1024), Err(PlanError::FixedExceedBudget)));
    assert!(matches!(fitted(1025), Err(PlanError::MixExceedsBudget)));
    let ts = vec![tensor("a", &[4], GgmlType::F32), tensor("b", &[], GgmlType::F32)];
    assert!(matches!(partition(&ts, 1 << 20), Err(PlanError::NoSize { tensor: 1 })));
    let b = fitted(200 * 1024).unwrap().1.budget;
    assert!(matches!(build_plan(&ts, b, &[]), Err(PlanError::NoSize { tensor: 1 })));
    let (ts, plan) = fitted(200 * 1024).unwrap();
    assert!(matches!(
        recalibrate(&plan, &ts, 1 << 40, 0, 0),
        Err(PlanError::MeasuredExceedMemory)
    ));
    assert!(matches!(
        recalibrate(&plan, &ts, plan.budget.usable_vram - 2000, 0, 0),
        Err(PlanError::MixExceedsBudget)
    ));
}

#[test]
fn recalibration_uses_what_was_measured() {
    let (ts, plan) = fitted(200 * 1024).unwrap();
    // the same overhead changes nothing
    let (same, changed) = recalibrate(&plan, &ts, 64 * 1024, 576 * 1024, 0).unwrap();
    assert_eq!(changed, 0);
    assert_eq!(same.total_bytes, plan.total_bytes);
    // less overhead leaves more for the weights
    let (more, changed) = recalibrate(&plan, &ts, 64 * 1024, 476 * 1024, 0).unwrap();
    assert!(changed > 0);
    assert!(more.total_bytes > plan.total_bytes);
    assert_eq!(more.budget.model_budget, 300 * 1024);
}

#[test]
fn tensors_are_disposed_by_name_and_shape() {
    let ladder = |t: &TensorInfo| match dispose(t) {
        Disposition::Solve(v) => v,
        Disposition::Fixed(ty) => panic!("{ty:?}"),
    };
    assert_eq!(ladder(&tensor("x.weight", &[256, 1], GgmlType::F16)).len(), 11);
    assert_eq!(ladder(&tensor("output.weight", &[256, 1], GgmlType::F16))[0], GgmlType::Iq4Xs);
    assert_eq!(ladder(&tensor("x.weight", &[32, 1], GgmlType::F16))[0], GgmlType::Iq4Nl);
    for (name, dims) in [("x.bias", vec![256, 1]), ("x.weight", vec![256]), ("x.weight", vec![33, 1])] {
        let d = dispose(&tensor(name, &dims, GgmlType::Bf16));
        assert!(matches!(d, Disposition::Fixed(GgmlType::F32)));
    }
    let d = dispose(&tensor("x.ids", &[4], GgmlType::Other(26)));
    assert!(matches!(d, Disposition::Fixed(GgmlType::Other(26))));
}

#[test]
fn sampling_takes_at_most_128_rows() {
    assert_eq!(sampling(100, false), (1, 100));
    assert_eq!(sampling(128, false), (1, 128));
    assert_eq!(sampling(129, false), (2, 65));
    assert_eq!(sampling(1000, true), (1, 1000));
    assert_eq!(sampling(1 << 20, false), (1 << 13, 128));
    for n in 1..2000 {
        let (step, sampled) = sampling(n, false);
        assert_eq!(sampled, (0..n).step_by(step as usize).count() as u64);
        assert!(sampled <= 128);
    }
    assert_eq!(sampling(u64::MAX, true), (1, u64::MAX));
}

#[test]
fn hyperparameters_and_their_fallbacks() {
    let h = hyperparams(&kvs()).unwrap();
    assert_eq!((h.arch.as_str(), h.n_layer, h.n_kv_head), ("llama", 2, 2));
    assert_eq!((h.key_len, h.val_len, h.n_embd, h.n_vocab), (64, 64, 256, 256));
    assert_eq!(hyperparams(&[]).err(), Some(HyperError::MissingArchitecture));
    assert_eq!(hyperparams(&kvs()[..1]).err(), Some(HyperError::MissingBlockCount));
    let h = hyperparams(&kvs()[..2]).unwrap();
    assert_eq!((h.n_kv_head, h.n_embd), (1, 0));
    let mut with_tokens = kvs();
    with_tokens.pop();
    with_tokens.push((
        "tokenizer.ggml.tokens".into(),
        Value::Arr(8, vec![Value::Str("a".into()), Value::Str("b".into())]),
    ));
    assert_eq!(hyperparams(&with_tokens).unwrap().n_vocab, 2);
}

#[test]
fn budgets_are_exact() {
    assert_eq!(kv_bytes_per_32("f16"), Some(64));
    assert_eq!(kv_bytes_per_32("q8_0"), Some(34));
    assert_eq!(kv_bytes_per_32("q4_0"), Some(18));
    assert_eq!(kv_bytes_per_32("f32"), None);
    let h = hyperparams(&kvs()).unwrap();
    let b = compute_budget(&h, 1 << 24, 100, 34, 1000).unwrap();
    assert_eq!(b.kv_bytes, 2 * 2 * 128 * 100 * 34 / 32);
    assert_eq!(b.compute_bytes, 100 * 256 * 4 + 100 * 256 * 4 * 8);
    assert_eq!(b.model_budget, (1 << 24) - b.kv_bytes - b.compute_bytes - 1000);
    match compute_budget(&h, 1 << 10, 100, 34, 1000) {
        Err(NoRoom { kv_bytes, compute_bytes }) => {
            assert_eq!((kv_bytes, compute_bytes), (b.kv_bytes, b.compute_bytes));
        }
        Ok(_) => panic!("there is no room"),
    }
    // a longer context leaves less
    let longer = compute_budget(&h, 1 << 24, 200, 34, 1000).unwrap();
    assert!(longer.model_budget < b.model_budget);
    assert_eq!(working_set(100), 74);
    assert_eq!(working_set(u64::MAX), 13650590614545068195);
    assert_eq!((default_reserve(true), default_reserve(false)), (160 << 20, 512 << 20));
}

#[test]
fn output_metadata_replace_the_file_type() {
    let kvs = vec![
        ("a".to_string(), Value::U8(1)),
        ("general.file_type".to_string(), Value::U32(0)),
        ("split.no".to_string(), Value::U16(0)),
        ("general.quantization_version".to_string(), Value::U32(1)),
        ("b".to_string(), Value::U8(2)),
    ];
    assert_eq!(
        output_kvs(&kvs, 15),
        vec![
            ("a".to_string(), Value::U8(1)),
            ("b".to_string(), Value::U8(2)),
            ("general.file_type".to_string(), Value::U32(15)),
            ("general.quantization_version".to_string(), Value::U32(2)),
        ]
    );
}

fn entry(tensor_idx: usize, ty: GgmlType, bytes: u64, solved: bool) -> PlanEntry {
    PlanEntry { tensor_idx, ty, bytes, solved }
}

#[test]
fn data_are_copied_where_they_can_be() {
    let now = [entry(0, GgmlType::Q4K, 1, true), entry(1, GgmlType::F32, 1, false)];
    let then = [entry(0, GgmlType::Q4K, 1, true)];
    assert_eq!(data_source(&now, 0, GgmlType::Bf16, Some(&then)), DataSource::Previous);
    assert_eq!(data_source(&now, 1, GgmlType::F32, Some(&then)), DataSource::Source);
    assert_eq!(data_source(&now, 1, GgmlType::F16, None), DataSource::Encoded);
    assert_eq!(data_source(&now, 0, GgmlType::Q4K, None), DataSource::Source);
}

#[test]
fn totals_are_listed_by_type_name() {
    let v = [
        entry(0, GgmlType::Q6K, 10, true),
        entry(1, GgmlType::F32, 3, false),
        entry(2, GgmlType::Q6K, 5, true),
    ];
    let t = type_totals(&v);
    let rows: Vec<(&str, usize, u128)> = t.iter().map(|t| (t.name.as_str(), t.count, t.bytes)).collect();
    assert_eq!(rows, vec![("F32", 1, 3), ("Q6_K", 2, 15)]);
    assert_eq!(file_type_code(&v), 18);
    assert_eq!(file_type_code(&[]), 1);
}

#[test]
fn sizes_have_numbers_and_units() {
    let of = |s: &str| split_size(s);
    assert_eq!(of("18GiB"), ("18".to_string(), 1 << 30));
    assert_eq!(of(" 800 MB "), ("800".to_string(), 1_000_000));
    assert_eq!(of("1.5gb"), ("1.5".to_string(), 1_000_000_000));
    assert_eq!(of("3G"), ("3".to_string(), 1 << 30));
    assert_eq!(of("7m"), ("7".to_string(), 1 << 20));
    assert_eq!(of("2mib"), ("2".to_string(), 1 << 20));
    assert_eq!(of("123"), ("123".to_string(), 1));
    assert_eq!(of("x"), ("x".to_string(), 1));
}

#[test]
fn sizes_are_shown_as_floats_would_be() {
    assert_eq!(fmt_size(0), "0 B");
    assert_eq!(fmt_size((1 << 20) - 1), "1048575 B");
    assert_eq!(fmt_size(1 << 20), "1.0 MiB");
    assert_eq!(fmt_size((1 << 30) - 1), "1024.0 MiB");
    // between two: to the even one
    assert_eq!(fmt_size((1 << 30) + (1 << 27)), "1.12 GiB");
    assert_eq!(fmt_size((1 << 30) + 3 * (1 << 27)), "1.38 GiB");
    let mut b = 1u64;
    while b < 1 << 50 {
        for x in [b, b + b / 3, b + b / 8, b + 5 * b / 8] {
            let want = if x >= 1 << 30 {
                format!("{:.2} GiB", x as f64 / (1u64 << 30) as f64)
            } else if x >= 1 << 20 {
                format!("{:.1} MiB", x as f64 / (1u64 << 20) as f64)
            } else {
                format!("{x} B")
            };
            assert_eq!(fmt_size(x), want);
        }
        b *= 2;
    }
}

#[test]
fn logs_give_the_measured_sizes() {
    let log = "load\n\
        llama_kv_cache: size =  224.00 MiB (  4096 cells,  28 layers)\n\
        sched: CUDA0 compute buffer size =   304.75 MiB\n\
        sched: CUDA_Host compute buffer size =    14.01 MiB\r\n\
        compute buffer size = oops\n";
    let RuntimeSizes { kv, compute } = runtime_sizes(log);
    assert_eq!(kv.as_deref(), Some("224.00"));
    assert_eq!(compute, vec!["304.75", "14.01"]);
    assert!(runtime_sizes("").kv.is_none());
}

#[test]
fn runner_arguments() {
    let strings = |v: &[&str]| v.iter().map(|s| s.to_string()).collect::<Vec<_>>();
    assert_eq!(
        serve_args(8192, "f16", &strings(&["--port", "1"])),
        Some(strings(&["-c", "8192", "-ngl", "99", "--port", "1"]))
    );
    assert_eq!(
        serve_args(5, "q8_0", &[]),
        Some(strings(&[
            "-c", "5", "-ngl", "99", "--cache-type-k", "q8_0", "--cache-type-v", "q8_0"
        ]))
    );
    assert_eq!(serve_args(5, "q9", &[]), None);
    assert_eq!(measure_args(64, "f16")[..4], strings(&["-ngl", "99", "-c", "64"])[..]);
}

#[test]
fn a_small_model_in_a_small_envelope() {
    let mut kvs: Vec<(String, Value)> =
        vec![("general.architecture".into(), Value::Str("qwen3".into()))];
    for (k, v) in [
        ("block_count", 28),
        ("embedding_length", 1024),
        ("attention.head_count", 16),
        ("attention.head_count_kv", 8),
        ("attention.key_length", 128),
        ("attention.value_length", 128),
        ("vocab_size", 151936),
    ] {
        kvs.push((format!("qwen3.{k}"), Value::U32(v)));
    }
    let h = hyperparams(&kvs).unwrap();
    let b = compute_budget(&h, 7 << 28, 4096, 64, default_reserve(false)).unwrap();
    assert_eq!(b.kv_bytes, 448 << 20);
    assert_eq!(b.compute_bytes, 512 * 151936 * 4 + 512 * 1024 * 32);
    assert_eq!(fmt_size(b.model_budget), "519.2 MiB");
}

#[test]
fn embeddings_keep_four_bits() {
    for name in ["token_embd.weight", "output.weight"] {
        for ne0 in [32, 256, 4096] {
            match dispose(&tensor(name, &[ne0, 1], GgmlType::Bf16)) {
                Disposition::Solve(v) => {
                    assert!(v.iter().all(|ty| ty.row_bytes(ne0) * 8 >= 4 * ne0));
                }
                Disposition::Fixed(_) => panic!("a matrix of weights"),
            }
        }
    }
}

#[test]
fn a_budget_is_a_sum() {
    let h = hyperparams(&kvs()).unwrap();
    let Budget { usable_vram, kv_bytes, compute_bytes, reserve, model_budget } =
        compute_budget(&h, 10 << 30, 4096, 64, 512 << 20).unwrap();
    assert_eq!(kv_bytes + compute_bytes + reserve + model_budget, usable_vram);
}

#[test]
fn the_file_type_is_that_of_the_most_bytes() {
    let v = [
        entry(0, GgmlType::Q4K, 10, true),
        entry(1, GgmlType::Q8_0, 15, true),
        entry(2, GgmlType::Q4K, 10, true),
        entry(3, GgmlType::F16, 100, false),
    ];
    assert_eq!(file_type_code(&v), 15);
    // the first of equals
    let v = [
        entry(0, GgmlType::Q5K, 8, true),
        entry(1, GgmlType::Q6K, 16, true),
        entry(2, GgmlType::Q5K, 8, true),
    ];
    assert_eq!(file_type_code(&v), 17);
    let v = [entry(0, GgmlType::Q8_0, u64::MAX, true), entry(1, GgmlType::Q8_0, u64::MAX, true)];
    assert_eq!(file_type_code(&v), 7);
}

#[test]
fn planned_types_are_those_allowed() {
    let (ts, plan) = fitted(200 * 1024).unwrap();
    for (t, e) in ts.iter().zip(&plan.entries) {
        match dispose(t) {
            Disposition::Fixed(ty) => assert_eq!((e.solved, e.ty), (false, ty)),
            Disposition::Solve(types) => assert!(e.solved && types.contains(&e.ty)),
        }
    }
}

#[test]
fn needs_within_the_estimate_are_borne() {
    // a budget that holds no more than the smallest mix
    let smallest = {
        let (ts, plan) = fitted(1 << 30).unwrap();
        assert_eq!(ts.len(), plan.entries.len());
        plan.fixed_bytes + plan.choices.iter().map(|c| c.cands[0].bytes).sum::<u64>()
    };
    let (ts, plan) = fitted(smallest).unwrap();
    let (again, changed) = recalibrate(&plan, &ts, 576 * 1024, 64 * 1024, 0).unwrap();
    assert_eq!((changed, again.total_bytes), (0, smallest));
    assert!(recalibrate(&plan, &ts, 1, 2, 640 * 1024 - 3).is_ok());
    assert!(matches!(
        recalibrate(&plan, &ts, 1, 0, 640 * 1024),
        Err(PlanError::MixExceedsBudget)
    ));
}
