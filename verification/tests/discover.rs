use shoehorn::discover::{
    analyze_repo, bytes_per_param, est_overhead, name_params_hint, rank, verdict_for,
    weight_budget, Bits, Suggestion,
};

fn bits(num: u128, den: u64) -> Bits {
    Bits { num, den }
}

#[test]
fn verdict_tiers() {
    assert_eq!(verdict_for(bits(165, 10)), "runs at full precision");
    assert_eq!(verdict_for(bits(73, 10)), "excellent (Q6-class)");
    assert_eq!(verdict_for(bits(47, 10)), "good (Q4/Q5-class)");
    assert_eq!(verdict_for(bits(34, 10)), "tight — worthwhile for big models");
    assert_eq!(verdict_for(bits(15, 10)), "does not fit");
}

#[test]
fn verdict_thresholds() {
    assert_eq!(verdict_for(bits(16, 1)), "runs at full precision");
    assert_eq!(verdict_for(bits(1599, 100)), "near-lossless (Q8-class)");
    assert_eq!(verdict_for(bits(85, 10)), "near-lossless (Q8-class)");
    assert_eq!(verdict_for(bits(6, 1)), "excellent (Q6-class)");
    assert_eq!(verdict_for(bits(45, 10)), "good (Q4/Q5-class)");
    assert_eq!(verdict_for(bits(206, 100)), "at the floor, heavily degraded");
    assert_eq!(verdict_for(bits(2059, 1000)), "does not fit");
}

#[test]
fn bonsai_shaped_repo_analyzed_correctly() {
    let entries: Vec<(String, u64)> = vec![
        ("Bonsai-27B-F16.gguf".into(), 53_800_000_000),
        ("Bonsai-27B-Q1_0.gguf".into(), 3_800_000_000),
        ("Bonsai-27B-dspark-bf16.gguf".into(), 7_290_000_000),
        ("Bonsai-27B-mmproj-BF16.gguf".into(), 930_000_000),
    ];
    let s = analyze_repo("prism-ml/Bonsai-27B-gguf", 1, &entries, 15 << 30).unwrap();
    // real F16 wins over the dspark drafter, so params look like 27B
    assert!(!s.suspicious, "27B repo must not read as a draft companion");
    let params = s.src_bytes as f64 / s.param_bytes as f64;
    assert!((26.0..28.0).contains(&(params / 1e9)), "params {}", params / 1e9);
    // and the 1.1 bpw QAT build is surfaced as runnable outright
    let native = s.native.expect("Q1_0 build should be flagged");
    assert!(native.name.contains("Q1_0"), "{}", native.name);
    assert_eq!(native.bytes, 3_800_000_000);
    // ...but not when it doesn't fit the budget
    let tight = analyze_repo("prism-ml/Bonsai-27B-gguf", 1, &entries, 2 << 30).unwrap();
    assert!(tight.native.is_none());
}

fn hint(repo: &str) -> Option<f64> {
    name_params_hint(repo).map(|s| s.parse().unwrap())
}

#[test]
fn name_hints_parse() {
    assert_eq!(hint("owner/Qwen3.8-27B-GGUF"), Some(27.0));
    assert_eq!(hint("owner/LFM2.5-2.6B-GGUF"), Some(2.6));
    assert_eq!(hint("bartowski/Meta-Llama-3.1-8B-Instruct-GGUF"), Some(8.0));
    assert_eq!(hint("owner/maple-preview-GGUF"), None);
}

#[test]
fn odd_name_hints() {
    assert_eq!(hint("a/1.5b-7B-x"), Some(7.0));
    assert_eq!(hint("a/7Bx"), None);
    assert_eq!(hint("a/7.B"), Some(7.0));
    assert_eq!(hint("a/1.2.3B"), None);
    assert_eq!(hint("0.0000000019b"), Some(0.0000000019));
    assert_eq!(hint("a/99999999999999999999B"), Some(99999999999999999999.0));
    assert_eq!(hint("a/1e400B"), Some(0.0));
    assert_eq!(hint("a/x4B"), None);
    assert_eq!(hint(&format!("a/1{}B", "0".repeat(400))), Some(f64::INFINITY));
    assert_eq!(hint("\u{e9}3B"), Some(3.0));
    // the first of equal claims, the larger of close ones
    assert_eq!(name_params_hint("a/7.0B-007B-7B").as_deref(), Some("7.0"));
    assert_eq!(name_params_hint("a/10B-9.999B-010.0001B-2B").as_deref(), Some("010.0001"));
    assert_eq!(name_params_hint("a/0.5B-0.25B-.75B").as_deref(), Some("75"));
}

#[test]
fn sources_far_below_the_claim_are_suspicious() {
    // 0.3 of the claim in bytes, at two bytes per parameter
    let odd = |claim: &str, bytes: u64| one(claim, "m-F16.gguf", bytes, 1 << 40).suspicious;
    assert!(odd("o/m-27B", 16_199_999_999));
    assert!(!odd("o/m-27B", 16_200_000_000));
    assert!(odd("o/m-0.0000000019b", 1));
    assert!(!odd("o/m-0.0000000019b", 2));
    assert!(!odd("o/m-0.00000000166b", 1));
    assert!(odd("o/m-0.0000000016666666666666666666666666666666666667b", 1));
    assert!(!odd("o/m-0.0000000016666666666666666666666666666666666666b", 1));
    assert!(odd(&format!("o/m-1{}B", "0".repeat(400)), u64::MAX));
    assert!(odd("o/m-30744573456182586.025B", u64::MAX));
    assert!(!odd("o/m-30744573456.0B", u64::MAX));
    assert!(!odd("o/m-0.0B", 1));
}

#[test]
fn overhead_scales_with_ctx() {
    assert!(est_overhead(8192) > est_overhead(2048));
    // ~2 GiB at 8k context: 512 MiB reserve + 320 MiB compute + 1.25 GiB KV
    let at_8k = est_overhead(8192);
    assert!(at_8k > (1u64 << 31) - (200 << 20) && at_8k < (1u64 << 31) + (200 << 20));
}

#[test]
fn overhead_is_exact_and_bounded() {
    assert_eq!(est_overhead(0), (512 << 20) + (320 << 20));
    assert_eq!(est_overhead(1) - est_overhead(0), 160 * 1024);
    assert_eq!(est_overhead(u64::MAX), u64::MAX);
    assert_eq!(weight_budget(10 << 30, 0), Some((10 << 30) - (832 << 20)));
    assert_eq!(weight_budget(832 << 20, 0), None);
}

#[test]
fn bytes_per_parameter_by_name() {
    assert_eq!(bytes_per_param(&["m-F32.gguf".to_string()]), 4);
    assert_eq!(bytes_per_param(&["m-bf16-f32.gguf".to_string()]), 2);
    assert_eq!(bytes_per_param(&["m.gguf".to_string()]), 2);
    assert_eq!(bytes_per_param(&[]), 2);
}

fn one(id: &str, name: &str, size: u64, budget: u64) -> Suggestion {
    analyze_repo(id, 3, &[(name.to_string(), size)], budget).unwrap()
}

#[test]
fn estimates_are_exact_fractions() {
    let s = one("o/m", "m-F16.gguf", 2_000, 500);
    assert_eq!(s.bpw, bits(500 * 16, 2_000));
    assert_eq!(s.verdict, "tight — worthwhile for big models");
    assert_eq!((s.downloads, s.src_bytes, s.param_bytes), (3, 2_000, 2));
    // more budget than the source has bits is just full precision
    let s = one("o/m", "m-F32.gguf", 2_000, 1 << 40);
    assert_eq!(s.bpw, bits(16 * 2_000, 2_000));
    assert_eq!(s.verdict, "runs at full precision");
    let s = one("o/m-27B", "m-F16.gguf", 900_000_000, 1 << 40);
    assert!(s.suspicious);
    assert_eq!(s.verdict, "source is far smaller than the name — likely a draft companion");
    assert!(analyze_repo("o/m", 1, &[("m-F16.gguf".to_string(), 0)], 5).is_none());
    assert!(analyze_repo("o/m", 1, &[("m.gguf".to_string(), 9)], 5).is_none());
}

#[test]
fn best_tier_then_biggest_goes_first() {
    let list = vec![
        one("o/tight", "m-F16.gguf", 4_000_000, 1_000_000),
        one("o/small", "m-F16.gguf", 1_000_000, 1_000_000),
        one("o/big", "m-F16.gguf", 1_500_000, 1_000_000),
        one("o/none", "m-F16.gguf", 100_000_000, 1_000_000),
        one("o/odd-9B", "m-F16.gguf", 1_000_000, 1_000_000),
        one("o/same", "m-F16.gguf", 1_000_000, 1_000_000),
    ];
    assert_eq!(rank(&list), vec![2, 1, 5, 0, 4]);
}

#[test]
fn a_lone_drafter_reads_as_a_draft_companion() {
    let entries: Vec<(String, u64)> = vec![
        ("Bonsai-27B-Q1_0.gguf".into(), 3_800_000_000),
        ("Bonsai-27B-dspark-bf16.gguf".into(), 7_290_000_000),
    ];
    let s = analyze_repo("prism-ml/Bonsai-27B-gguf", 1, &entries, 15 << 30).unwrap();
    assert!(s.suspicious);
    assert_eq!(s.src_bytes, 7_290_000_000);
    assert_eq!(s.verdict, "source is far smaller than the name — likely a draft companion");
}
