use i18n_app::codec::parse_tree;
use i18n_app::flatmap::FlatMap;
use i18n_app::flatten::{flatten_json, unflatten};
use i18n_app::translation::{diff, get_missing_keys, render_translation_file, TranslationFile};

fn flat(pairs: &[(&str, &str)]) -> FlatMap {
    let mut m = FlatMap::new();
    for (k, v) in pairs {
        m.insert((*k).to_string(), (*v).to_string());
    }
    m
}

#[test]
fn test_flatten_json_simple() {
    let json = parse_tree(r#"{"key": "value"}"#).unwrap();
    let flattened = flatten_json(&json);
    assert_eq!(flattened.get("key").unwrap().as_str(), "value");
}

#[test]
fn test_flatten_json_nested() {
    let json = parse_tree(r#"{"parent": {"child": "value", "child2": "value2"}}"#).unwrap();
    let flattened = flatten_json(&json);
    assert_eq!(flattened.get("parent.child").unwrap().as_str(), "value");
    assert_eq!(flattened.get("parent.child2").unwrap().as_str(), "value2");
}

#[test]
fn test_get_missing_keys() {
    let base_content = flat(&[
        ("key1", "Value1"),
        ("key2", "Value2"),
        ("detail.label_time", "Time"),
    ]);

    let other_content = flat(&[("key1", "å€¼1")]);

    let base = TranslationFile::from_content(
        "en-US".to_string(),
        "en-US.json".to_string(),
        base_content,
    );

    let other = TranslationFile::from_content(
        "zh-CN".to_string(),
        "zh-CN.json".to_string(),
        other_content,
    );

    let missing = get_missing_keys(&base, &other);
    assert_eq!(missing.len(), 2);
    assert_eq!(missing.get("key2").unwrap().as_str(), "Value2");
    assert_eq!(missing.get("detail.label_time").unwrap().as_str(), "Time");
}

#[test]
fn test_save_translation_file() {
    let content = flat(&[
        ("common.time.tomorrow", "Tomorrow"),
        ("common.time.today", "Today"),
    ]);

    let translation = TranslationFile::from_content(
        "en-US".to_string(),
        "test.json".to_string(),
        content,
    );

    let saved = render_translation_file(&translation.content).unwrap();

    let saved_json = parse_tree(&saved).unwrap();
    let saved_flat = flatten_json(&saved_json);
    assert_eq!(saved_flat.get("common.time.tomorrow").unwrap().as_str(), "Tomorrow");
    assert_eq!(saved_flat.get("common.time.today").unwrap().as_str(), "Today");
}

#[test]
fn test_unflatten_structure_conflict() {
    // "a" is first given a scalar value; "a.b" then needs it as an object
    let content = flat(&[("a", "x"), ("a.b", "y")]);
    assert!(unflatten(&content).is_err());
}

#[test]
fn test_unflatten_round_trip() {
    let json = parse_tree(r#"{"parent": {"child": "value"}, "top": "t"}"#).unwrap();
    let flattened = flatten_json(&json);
    let rebuilt = unflatten(&flattened).unwrap();
    let reflattened = flatten_json(&rebuilt);
    assert_eq!(reflattened.len(), 2);
    assert_eq!(reflattened.get("parent.child").unwrap().as_str(), "value");
    assert_eq!(reflattened.get("top").unwrap().as_str(), "t");
}

#[test]
fn test_parse_tree_rejects_bad_json() {
    assert!(parse_tree("not json").is_err());
}

#[test]
fn test_render_pretty_exact() {
    // would fail if the serializer handed its argument back unchanged
    let content = flat(&[("a", "b")]);
    let text = render_translation_file(&content).unwrap();
    assert_eq!(text, "{\n  \"a\": \"b\"\n}");
}

#[test]
fn test_missing_keys_superset_empty() {
    // other holds every key of base (and more): nothing to backfill
    let base = TranslationFile::from_content(
        "en-US".to_string(),
        "en-US.json".to_string(),
        flat(&[("a", "1")]),
    );
    let other = TranslationFile::from_content(
        "de-DE".to_string(),
        "de-DE.json".to_string(),
        flat(&[("a", "x"), ("b", "y")]),
    );
    let missing = get_missing_keys(&base, &other);
    assert_eq!(missing.len(), 0);
    assert!(missing.is_empty());
}

#[test]
fn test_missing_keys_scenario() {
    let base = TranslationFile::from_content(
        "en-US".to_string(),
        "en-US.json".to_string(),
        flat(&[("a", "1"), ("b", "2")]),
    );
    let other = TranslationFile::from_content(
        "fr-FR".to_string(),
        "fr-FR.json".to_string(),
        flat(&[("a", "x")]),
    );
    let missing = get_missing_keys(&base, &other);
    assert_eq!(missing.len(), 1);
    assert_eq!(missing.get("b").unwrap().as_str(), "2");
}

#[test]
fn test_diff_full_upload_when_no_cache() {
    let local = TranslationFile::from_content(
        "en-US".to_string(),
        "en-US.json".to_string(),
        flat(&[("k", "hello"), ("m", "world")]),
    );
    let delta = diff(&local, None);
    assert_eq!(delta.len(), 2);
    assert_eq!(delta.get("k").unwrap().as_str(), "hello");
    assert_eq!(delta.get("m").unwrap().as_str(), "world");
}

#[test]
fn test_diff_empty_remote_triggers_reupload() {
    let local = TranslationFile::from_content(
        "en-US".to_string(),
        "en-US.json".to_string(),
        flat(&[("k", "hello")]),
    );
    let cached = TranslationFile::from_content(
        "en-US".to_string(),
        "en-US.json".to_string(),
        flat(&[("k", "")]),
    );
    let delta = diff(&local, Some(&cached));
    assert_eq!(delta.len(), 1);
    assert_eq!(delta.get("k").unwrap().as_str(), "hello");
}

#[test]
fn test_diff_nonempty_remote_wins() {
    let local = TranslationFile::from_content(
        "en-US".to_string(),
        "en-US.json".to_string(),
        flat(&[("k", "hello")]),
    );
    let cached = TranslationFile::from_content(
        "en-US".to_string(),
        "en-US.json".to_string(),
        flat(&[("k", "world")]),
    );
    let delta = diff(&local, Some(&cached));
    assert_eq!(delta.len(), 0);
}

#[test]
fn test_diff_unicode_blank_remote_counts_as_empty() {
    // vertical tab and no-break space trim away, so the key is
    // re-uploaded just as for an empty remote value
    let local = TranslationFile::from_content(
        "en-US".to_string(),
        "en-US.json".to_string(),
        flat(&[("k", "x")]),
    );
    let cached = TranslationFile::from_content(
        "en-US".to_string(),
        "en-US.json".to_string(),
        flat(&[("k", "\u{000B}\u{00A0}")]),
    );
    let delta = diff(&local, Some(&cached));
    assert_eq!(delta.len(), 1);
    assert_eq!(delta.get("k").unwrap().as_str(), "x");
}

#[test]
fn test_diff_blank_remote_counts_as_empty() {
    let local = TranslationFile::from_content(
        "en-US".to_string(),
        "en-US.json".to_string(),
        flat(&[("k", "x")]),
    );
    let cached = TranslationFile::from_content(
        "en-US".to_string(),
        "en-US.json".to_string(),
        flat(&[("k", "  \t")]),
    );
    let delta = diff(&local, Some(&cached));
    assert_eq!(delta.len(), 1);
    assert_eq!(delta.get("k").unwrap().as_str(), "x");
}

#[test]
fn test_diff_mixed_keys() {
    let local = TranslationFile::from_content(
        "en-US".to_string(),
        "en-US.json".to_string(),
        flat(&[("new", "n"), ("kept", "k"), ("translated", "t")]),
    );
    let cached = TranslationFile::from_content(
        "en-US".to_string(),
        "en-US.json".to_string(),
        flat(&[("kept", ""), ("translated", "already")]),
    );
    let delta = diff(&local, Some(&cached));
    assert_eq!(delta.len(), 2);
    assert_eq!(delta.get("new").unwrap().as_str(), "n");
    assert_eq!(delta.get("kept").unwrap().as_str(), "k");
    assert!(delta.get("translated").is_none());
}
