use shoehorn::fetch::{
    affords_imatrix, plan_repo, resolve, select_model_files, NoSource, Resolution, ResolveError,
};

fn e(items: &[(&str, u64)]) -> Vec<(String, u64)> {
    items.iter().map(|(p, s)| (p.to_string(), *s)).collect()
}

#[test]
fn prefers_bf16_then_f16_then_f32() {
    let entries = e(&[
        ("m-Q4_K_M.gguf", 500),
        ("m-F32.gguf", 4000),
        ("m-F16.gguf", 2000),
        ("m-BF16.gguf", 1999),
    ]);
    let (files, total) = select_model_files(&entries).unwrap();
    assert_eq!(files, vec!["m-BF16.gguf"]);
    assert_eq!(total, 1999);

    let entries = e(&[("m-F32.gguf", 4000), ("m-F16.gguf", 2000)]);
    assert_eq!(select_model_files(&entries).unwrap().0, vec!["m-F16.gguf"]);

    let entries = e(&[("m-F32.gguf", 4000), ("m-Q8_0.gguf", 1000)]);
    assert_eq!(select_model_files(&entries).unwrap().0, vec!["m-F32.gguf"]);
}

#[test]
fn expands_split_models_sorted() {
    let entries = e(&[
        ("BF16/m-BF16-00002-of-00003.gguf", 10),
        ("m-Q4_K_M.gguf", 500),
        ("BF16/m-BF16-00003-of-00003.gguf", 5),
        ("BF16/m-BF16-00001-of-00003.gguf", 10),
    ]);
    let (files, total) = select_model_files(&entries).unwrap();
    assert_eq!(
        files,
        vec![
            "BF16/m-BF16-00001-of-00003.gguf",
            "BF16/m-BF16-00002-of-00003.gguf",
            "BF16/m-BF16-00003-of-00003.gguf",
        ]
    );
    assert_eq!(total, 25);
}

#[test]
fn errors_without_full_precision_candidate() {
    let entries = e(&[("m-Q4_K_M.gguf", 500), ("readme.md", 1)]);
    assert!(select_model_files(&entries).is_err());
}

#[test]
fn ignores_mmproj_projector_files() {
    let entries = e(&[("mmproj-model-F16.gguf", 900), ("m-BF16.gguf", 500)]);
    assert_eq!(select_model_files(&entries).unwrap().0, vec!["m-BF16.gguf"]);
    // a repo with ONLY an mmproj has no usable source
    let entries = e(&[("sub/mmproj-F16.gguf", 900), ("m-Q4_K_M.gguf", 500)]);
    assert!(select_model_files(&entries).is_err());
}

#[test]
fn largest_of_one_precision_wins_and_the_last_of_equals() {
    let entries = e(&[("a-bf16.gguf", 5), ("b-bf16.gguf", 7), ("c-bf16.gguf", 7)]);
    assert_eq!(select_model_files(&entries).unwrap(), (vec!["c-bf16.gguf".to_string()], 7));
}

#[test]
fn case_and_directories_do_not_matter() {
    let entries = e(&[("X/MODEL-Bf16.gguf", 5), ("X/MODEL-BF16.GGUF", 9)]);
    assert_eq!(select_model_files(&entries).unwrap().0, vec!["X/MODEL-Bf16.gguf"]);
    let entries = e(&[("\u{c9}clair-BF16.gguf", 3)]);
    assert_eq!(select_model_files(&entries).unwrap().0, vec!["\u{c9}clair-BF16.gguf"]);
}

#[test]
fn huge_totals_stop_at_the_largest_number() {
    let entries = e(&[
        ("m-BF16-00001-of-00002.gguf", u64::MAX),
        ("m-BF16-00002-of-00002.gguf", 2),
    ]);
    assert_eq!(select_model_files(&entries).unwrap().1, u64::MAX);
}

#[test]
fn resolution_of_paths_urls_and_repositories() {
    match resolve("models/m.gguf", true) {
        Ok(Resolution::Ready(m)) => {
            assert_eq!(m.model, "models/m.gguf");
            assert!(m.imatrix.is_none());
        }
        other => panic!("{other:?}"),
    }
    assert_eq!(
        resolve("https://host/a/b.gguf", false),
        Ok(Resolution::Url { name: "b.gguf".to_string() })
    );
    assert_eq!(resolve("http://host/a/", false), Err(ResolveError::NoFileName));
    assert_eq!(
        resolve("owner/name", false),
        Ok(Resolution::Repo { owner: "owner".to_string(), repo: "name".to_string() })
    );
    assert_eq!(resolve("owner/name/more", false), Err(ResolveError::NotFound));
    assert_eq!(resolve("/name", false), Err(ResolveError::NotFound));
    assert_eq!(resolve("owner/", false), Err(ResolveError::NotFound));
    assert_eq!(resolve("nothing", false), Err(ResolveError::NotFound));
}

#[test]
fn repository_plan_names_downloads() {
    let entries = e(&[
        ("sub/m-F16.gguf", 20),
        ("extra/My.IMATRIX.dat", 1),
        ("other-imatrix.gguf", 1),
    ]);
    let p = plan_repo("o", "r", &entries).unwrap();
    assert_eq!(p.files.len(), 1);
    assert_eq!(p.files[0].url, "https://huggingface.co/o/r/resolve/main/sub/m-F16.gguf");
    assert_eq!(p.files[0].name, "m-F16.gguf");
    assert_eq!(p.total, 20);
    let im = p.imatrix.unwrap();
    assert_eq!(im.url, "https://huggingface.co/o/r/resolve/main/extra/My.IMATRIX.dat");
    assert_eq!(im.name, "extra/My.IMATRIX.dat");

    assert_eq!(plan_repo("o", "r", &e(&[("x.md", 1)])), Err(NoSource));
    assert!(plan_repo("o", "r", &e(&[("m-f32.gguf", 1)])).unwrap().imatrix.is_none());
}

#[test]
fn imatrix_needs_four_fifths_of_the_memory() {
    assert!(affords_imatrix(79, Some(100)));
    assert!(!affords_imatrix(80, Some(100)));
    assert!(affords_imatrix(u64::MAX / 5 * 4 - 1, Some(u64::MAX)));
    assert!(!affords_imatrix(0, None));
}

#[test]
fn only_numbered_shards_of_one_set_belong_together() {
    let entries = e(&[("m-best-of-breed-BF16.gguf", 10), ("m-best-of-breed-Q4_K.gguf", 5)]);
    assert_eq!(
        select_model_files(&entries).unwrap(),
        (vec!["m-best-of-breed-BF16.gguf".to_string()], 10)
    );
    let entries = e(&[
        ("m-BF16-00002-of-00002.gguf", 7),
        ("m-BF16-00001-of-00002.gguf", 9),
        ("m-BF16-v2-00001-of-00003.gguf", 5),
        ("m-BF16-00001-of-00003.gguf", 4),
        ("m-BF16-1-of-2.gguf", 3),
        ("m-BF16-+0001-of-00002.gguf", 2),
    ]);
    let (files, total) = select_model_files(&entries).unwrap();
    assert_eq!(files, vec!["m-BF16-00001-of-00002.gguf", "m-BF16-00002-of-00002.gguf"]);
    assert_eq!(total, 16);
}

#[test]
fn companions_are_taken_only_where_nothing_else_is() {
    let alone = e(&[("x-dspark-bf16.gguf", 7), ("x-Q4_K.gguf", 9)]);
    assert_eq!(select_model_files(&alone).unwrap(), (vec!["x-dspark-bf16.gguf".to_string()], 7));
    let alone = e(&[("x-mmproj-f16.gguf", 7)]);
    assert_eq!(select_model_files(&alone).unwrap().0, vec!["x-mmproj-f16.gguf"]);
    let both = e(&[("x-dspark-bf16.gguf", 99), ("x-mmproj-bf16.gguf", 98), ("x-f32.gguf", 7)]);
    assert_eq!(select_model_files(&both).unwrap().0, vec!["x-f32.gguf"]);
    assert!(select_model_files(&e(&[("mmproj-dspark-bf16.gguf", 1)])).is_err());
}
