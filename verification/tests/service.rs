use i18n_app::api::{download_url, upload_terms_path, FileGroup};
use i18n_app::codec::parse_tree;
use i18n_app::config::Config;
use i18n_app::errors::RemoteFetchError;
use i18n_app::flatmap::FlatMap;
use i18n_app::flatten::flatten_json;
use i18n_app::merge::merge_json_content;
use i18n_app::service::{extract_language_document, find_base, find_file_group, ingest_remote_blob,
    json_diff_report, merge_remote_document, RunTally, TranslationService};
use i18n_app::translation::TranslationFile;

fn flat(pairs: &[(&str, &str)]) -> FlatMap {
    let mut m = FlatMap::new();
    for (k, v) in pairs {
        m.insert((*k).to_string(), (*v).to_string());
    }
    m
}

fn test_config() -> Config {
    let mut c = Config::default();
    c.host = "https://test.com".to_string();
    c.sub_system_name = "test".to_string();
    c.product_code = "test".to_string();
    c.base_language = "en-US".to_string();
    c.path_prefix = "test".to_string();
    c
}

#[test]
fn test_merge_json_content() {
    let local = parse_tree(
        r#"{"common": {"time": {"tomorrow": "Tomorrow", "today": "Today"}}}"#,
    )
    .unwrap();
    let remote = parse_tree(
        r#"{"common": {"time": {"today": "Today Updated", "yesterday": "Yesterday"}}}"#,
    )
    .unwrap();

    let merged = merge_json_content(&local, &remote);
    let merged_flat = flatten_json(&merged);

    assert!(merged_flat.get("common.time.tomorrow").unwrap().as_str() == "Tomorrow");
    assert!(merged_flat.get("common.time.today").unwrap().as_str() == "Today Updated");
    assert!(merged_flat.get("common.time.yesterday").unwrap().as_str() == "Yesterday");

    let local = parse_tree(r#"{"settings": {"display": {"theme": "dark", "font": "Arial"}}}"#)
        .unwrap();
    let remote = parse_tree(r#"{"settings": {"display": {"theme": "light", "size": "large"}}}"#)
        .unwrap();

    let merged = merge_json_content(&local, &remote);
    let merged_flat = flatten_json(&merged);

    assert!(merged_flat.get("settings.display.font").unwrap().as_str() == "Arial");
    assert!(merged_flat.get("settings.display.theme").unwrap().as_str() == "light");
    assert!(merged_flat.get("settings.display.size").unwrap().as_str() == "large");
}

#[test]
fn test_print_json_diff() {
    let local = parse_tree(
        r#"{"common": {"time": {"tomorrow": "Tomorrow", "today": "Today"}}}"#,
    )
    .unwrap();
    let remote = parse_tree(
        r#"{"common": {"time": {"today": "Today Updated", "yesterday": "Yesterday"}}}"#,
    )
    .unwrap();

    let report = json_diff_report(&local, &remote);
    assert_eq!(report.local_only.len(), 1);
    assert_eq!(report.local_only[0], "common.time.tomorrow");
    assert_eq!(report.remote_only.len(), 1);
    assert_eq!(report.remote_only[0], "common.time.yesterday");
    assert_eq!(report.changed.len(), 1);
    assert_eq!(report.changed[0], "common.time.today");
}

#[test]
fn test_merge_scenario_keeps_local_and_adds_remote() {
    let local = parse_tree(r#"{"common": {"a": "X", "b": "Y"}}"#).unwrap();
    let remote = parse_tree(r#"{"common": {"b": "Z", "c": "W"}}"#).unwrap();
    let merged = merge_json_content(&local, &remote);
    let merged_flat = flatten_json(&merged);
    assert_eq!(merged_flat.len(), 3);
    assert_eq!(merged_flat.get("common.a").unwrap().as_str(), "X");
    assert_eq!(merged_flat.get("common.b").unwrap().as_str(), "Z");
    assert_eq!(merged_flat.get("common.c").unwrap().as_str(), "W");
}

#[test]
fn test_merge_blank_remote_keeps_local() {
    let local = parse_tree(r#"{"k": "hello"}"#).unwrap();
    let remote = parse_tree(r#"{"k": " ", "extra": ""}"#).unwrap();
    let merged = merge_json_content(&local, &remote);
    let merged_flat = flatten_json(&merged);
    // the common key keeps its local value; the remote-only key is
    // added even though its value is still empty
    assert_eq!(merged_flat.len(), 2);
    assert_eq!(merged_flat.get("k").unwrap().as_str(), "hello");
    assert_eq!(merged_flat.get("extra").unwrap().as_str(), "");
}

#[test]
fn test_merge_unicode_blank_remote_keeps_local() {
    // a no-break space is whitespace too: the remote value counts as
    // untranslated and never regresses the populated local value
    let local = parse_tree(r#"{"k": "hello"}"#).unwrap();
    let remote = parse_tree("{\"k\": \"\u{00A0}\u{2003}\"}").unwrap();
    let merged = merge_json_content(&local, &remote);
    let merged_flat = flatten_json(&merged);
    assert_eq!(merged_flat.get("k").unwrap().as_str(), "hello");
}

#[test]
fn test_upload_order() {
    assert_eq!(i18n_app::service::upload_order(4, 2), vec![2, 0, 1, 3]);
    assert_eq!(i18n_app::service::upload_order(3, 0), vec![0, 1, 2]);
}

#[test]
fn test_merge_idempotent_on_self() {
    let tree = parse_tree(r#"{"a": "1", "nested": {"b": "2", "c": ""}}"#).unwrap();
    let merged = merge_json_content(&tree, &tree);
    let a = flatten_json(&tree);
    let b = flatten_json(&merged);
    assert_eq!(a.len(), b.len());
    assert_eq!(b.get("a").unwrap().as_str(), "1");
    assert_eq!(b.get("nested.b").unwrap().as_str(), "2");
    assert_eq!(b.get("nested.c").unwrap().as_str(), "");
}

#[test]
fn test_run_tally_partial_failure_still_succeeds() {
    let mut tally = RunTally::new();
    tally.record_success();
    tally.record_success();
    tally.record_failure();
    let summary = tally.finish().unwrap();
    assert_eq!(summary.succeeded, 2);
    assert_eq!(summary.failed, 1);
    assert_eq!(summary.total, 3);
}

#[test]
fn test_run_tally_no_progress() {
    let mut tally = RunTally::new();
    tally.record_failure();
    tally.record_failure();
    tally.record_failure();
    let err = tally.finish().unwrap_err();
    assert_eq!(err.failed, 3);
    assert_eq!(err.total, 3);
}

#[test]
fn test_run_tally_empty_run_is_not_failure() {
    let tally = RunTally::new();
    assert!(tally.finish().is_ok());
}

#[test]
fn test_find_base() {
    let locals = vec![
        TranslationFile::from_content("fr-FR".to_string(), "fr-FR.json".to_string(), flat(&[])),
        TranslationFile::from_content("en-US".to_string(), "en-US.json".to_string(), flat(&[])),
    ];
    assert_eq!(find_base(&locals, "en-US").unwrap(), 1);
    assert!(find_base(&locals, "zh-CN").is_err());
}

#[test]
fn test_find_file_group() {
    let groups = vec![
        FileGroup {
            path_prefix: "/test".to_string(),
            language_code: "en-US".to_string(),
            file_names: vec!["test.json".to_string()],
        },
    ];
    assert_eq!(find_file_group(&groups, "en-US"), Some(0));
    assert_eq!(find_file_group(&groups, "fr-FR"), None);
}

#[test]
fn test_download_url_with_full_url_prefix() {
    let group = FileGroup {
        path_prefix: "https://cdn.test.com/files/".to_string(),
        language_code: "en-US".to_string(),
        file_names: vec!["en-US.json".to_string()],
    };
    let url = download_url("https://test.com", &group, "en-US.json");
    assert_eq!(url, "https://cdn.test.com/files/en-US.json");
}

#[test]
fn test_download_url_with_path_prefix() {
    let group = FileGroup {
        path_prefix: "/test/".to_string(),
        language_code: "en-US".to_string(),
        file_names: vec!["test.json".to_string()],
    };
    let url = download_url("https://test.com/", &group, "test.json");
    assert_eq!(url, "https://test.com/test/test.json");
}

#[test]
fn test_upload_terms_path() {
    assert_eq!(upload_terms_path("app", "locales/en-US.json"), "app/locales");
    assert_eq!(upload_terms_path("app", "en-US.json"), "app/");
}

#[test]
fn test_remote_blob_key() {
    let service = TranslationService::new(test_config());
    assert_eq!(service.remote_blob_key(), "test/languages");
}

#[test]
fn test_get_full_path() {
    let service = TranslationService::new(test_config());
    let t = TranslationFile::from_content(
        "en-US".to_string(),
        "fixtures/en-US.json".to_string(),
        flat(&[]),
    );
    assert_eq!(service.get_full_path(&t, "."), "fixtures/en-US.json");
    let t2 = TranslationFile::from_content(
        "en-US".to_string(),
        "locales/en-US.json".to_string(),
        flat(&[]),
    );
    assert_eq!(service.get_full_path(&t2, "."), "./locales/en-US.json");
}

#[test]
fn test_effective_include_patterns() {
    let mut config = test_config();
    config.includes = vec!["fixtures/locales/*.json".to_string()];
    let service = TranslationService::new(config);
    let kept = service.effective_include_patterns(false);
    assert_eq!(kept, vec!["fixtures/locales/*.json".to_string()]);
    let stripped = service.effective_include_patterns(true);
    assert_eq!(stripped, vec!["locales/*.json".to_string()]);
}

#[test]
fn test_extract_language_document() {
    let blob = r#"{"test/languages": {"key": "Test Value"}}"#;
    let doc = extract_language_document(blob, "test/languages").unwrap();
    let flat_doc = flatten_json(&parse_tree(&doc).unwrap());
    assert_eq!(flat_doc.get("key").unwrap().as_str(), "Test Value");

    assert_eq!(
        extract_language_document(blob, "other/languages").unwrap_err(),
        RemoteFetchError::NoLanguageContent
    );
    assert_eq!(
        extract_language_document("not json", "test/languages").unwrap_err(),
        RemoteFetchError::Parse
    );
}

#[test]
fn test_ingest_remote_blob() {
    let mut cache: Vec<TranslationFile> = Vec::new();
    let blob = r#"{"test/languages": {"key": "Value", "nested": {"inner": "I"}}}"#;
    let pretty = ingest_remote_blob(&mut cache, "en-US", blob, "test/languages").unwrap();
    assert!(pretty.contains("\"key\": \"Value\""));
    assert_eq!(cache.len(), 1);
    assert_eq!(cache[0].language_code, "en-US");
    assert_eq!(cache[0].relative_path, "en-US.json");
    assert_eq!(cache[0].content.get("key").unwrap().as_str(), "Value");
    assert_eq!(cache[0].content.get("nested.inner").unwrap().as_str(), "I");

    // a second blob for the same language merges into the same entry
    let blob2 = r#"{"test/languages": {"more": "M"}}"#;
    ingest_remote_blob(&mut cache, "en-US", blob2, "test/languages").unwrap();
    assert_eq!(cache.len(), 1);
    assert_eq!(cache[0].content.get("more").unwrap().as_str(), "M");
    assert_eq!(cache[0].content.get("key").unwrap().as_str(), "Value");

    // a failing blob leaves the cache unchanged
    assert!(ingest_remote_blob(&mut cache, "en-US", "bad", "test/languages").is_err());
    assert_eq!(cache.len(), 1);
}

#[test]
fn test_merge_remote_document() {
    let remote = parse_tree(r#"{"b": "Z", "c": "W"}"#).unwrap();
    let merged = merge_remote_document(r#"{"a": "X", "b": "Y"}"#, &remote).unwrap();
    let flat_merged = flatten_json(&parse_tree(&merged).unwrap());
    assert_eq!(flat_merged.get("a").unwrap().as_str(), "X");
    assert_eq!(flat_merged.get("b").unwrap().as_str(), "Z");
    assert_eq!(flat_merged.get("c").unwrap().as_str(), "W");

    assert!(merge_remote_document("nope", &remote).is_err());
}

#[test]
fn test_backfill_from_base() {
    let base = TranslationFile::from_content(
        "en-US".to_string(),
        "en-US.json".to_string(),
        flat(&[("a", "1"), ("b", "2")]),
    );
    let mut other = TranslationFile::from_content(
        "fr-FR".to_string(),
        "fr-FR.json".to_string(),
        flat(&[("a", "un")]),
    );
    let missing = i18n_app::service::backfill_from_base(&base, &mut other);
    assert_eq!(missing.len(), 1);
    assert_eq!(missing.get("b").unwrap().as_str(), "2");
    assert_eq!(other.content.len(), 2);
    assert_eq!(other.content.get("a").unwrap().as_str(), "un");
    assert_eq!(other.content.get("b").unwrap().as_str(), "2");
}

#[test]
fn test_config_default() {
    let c = Config::default();
    assert_eq!(c.base_language, "en-US");
    assert_eq!(c.version_no, "1.0.0");
    assert_eq!(c.product_id, 1);
    assert!(c.includes.is_empty());
    assert!(c.exclude.is_empty());
}

#[test]
fn test_flatten_stringifies_composites() {
    // arrays and non-string scalars are kept whole as their rendered text
    let tree = parse_tree(r#"{"n": 7, "arr": [1, "x"], "flag": true}"#).unwrap();
    let flattened = flatten_json(&tree);
    assert_eq!(flattened.get("n").unwrap().as_str(), "7");
    assert_eq!(flattened.get("arr").unwrap().as_str(), "[1,\"x\"]");
    assert_eq!(flattened.get("flag").unwrap().as_str(), "true");
}
