use shoehorn::json::{popular_repos, repo_entries, AnswerError};
use shoehorn::vram::{parse_rocm_smi, probe, Meaning};

#[test]
fn parses_rocm_smi_json() {
    let json = r#"{
            "card0": {
                "VRAM Total Memory (B)": "17163091968",
                "VRAM Total Used Memory (B)": "1063091968",
                "Card series": "Radeon RX 7900 XTX",
                "Card model": "0x744c"
            }
        }"#;
    let (free, name) = parse_rocm_smi(json).unwrap();
    assert_eq!(free, 17163091968 - 1063091968);
    assert_eq!(name, "Radeon RX 7900 XTX");
}

#[test]
fn rocm_parse_rejects_garbage() {
    assert!(parse_rocm_smi("not json").is_none());
    assert!(parse_rocm_smi("{}").is_none());
    assert!(parse_rocm_smi(r#"{"card0": {"unrelated": "1"}}"#).is_none());
}

#[test]
fn rocm_names_and_numbers_in_other_shapes() {
    let json = r#"{"system": 1, "card1": {"VRAM Total Memory (B)": " 100 ", "Card SKU": "S"}}"#;
    assert_eq!(parse_rocm_smi(json), Some((100, "S".to_string())));
    let json = r#"{"card1": {"VRAM Total Memory (B)": "5", "VRAM Total Used Memory (B)": "9"}}"#;
    assert_eq!(parse_rocm_smi(json), Some((0, "AMD GPU".to_string())));
    let json = r#"{"card1": {"VRAM Total Memory (B)": "99999999999999999999"}}"#;
    assert_eq!(parse_rocm_smi(json), None);
    let json = r#"{"card1": {"VRAM Total Memory (B)": 5}}"#;
    assert_eq!(parse_rocm_smi(json), None);
    assert_eq!(parse_rocm_smi(r#"{"card1": "x"}"#), None);
    assert_eq!(parse_rocm_smi("[1]"), None);
}

#[test]
fn nvidia_goes_before_amd() {
    let amd: &[u8] = br#"{"card0": {"VRAM Total Memory (B)": "7"}}"#;
    assert_eq!(
        probe(Some((5, "A".to_string())), Some(amd)),
        Some((5, "A".to_string(), Meaning::NvmlFree))
    );
    assert_eq!(probe(None, Some(amd)), Some((7, "AMD GPU".to_string(), Meaning::RocmFree)));
    assert_eq!(probe(None, Some(&b"oops"[..])), None);
    assert_eq!(probe(None, None), None);
    assert_eq!(Meaning::RocmFree.text(), "ROCm free VRAM (rocm-smi)");
    assert_eq!(Meaning::NvmlFree.text(), "NVML free VRAM");
}

#[test]
fn listings_are_read_from_answers() {
    let answer: &[u8] = br#"[
        {"path": "a.gguf", "size": 12, "lfs": {"oid": "x"}},
        {"path": "dir", "size": -1},
        {"size": 3},
        7
    ]"#;
    assert_eq!(
        repo_entries(answer),
        Ok(vec![("a.gguf".to_string(), 12), ("dir".to_string(), 0)])
    );
    let answer: &[u8] = br#"[{"id": "o/m", "downloads": 99, "tags": ["x"]}, {"id": 5}]"#;
    assert_eq!(popular_repos(answer), Ok(vec![("o/m".to_string(), 99)]));
    assert_eq!(repo_entries(b"{}"), Err(AnswerError::UnexpectedShape));
    assert_eq!(repo_entries(b"5"), Err(AnswerError::UnexpectedShape));
    assert_eq!(repo_entries(b"["), Err(AnswerError::NotJson));
}
