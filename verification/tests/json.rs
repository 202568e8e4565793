use visual_diff::json_doc::{ignored_keys, prepare_json, prepare_json_side};
use visual_diff::json_syntax::{json_tokens, push_json_token, JsonToken};

#[test]
fn removes_ignored_json_keys_at_every_depth() {
    let before = br#"{"id":1,"meta":{"id":2},"items":[{"id":3,"name":"a"}]}"#;
    let (prepared, _) = prepare_json(before, b"", "id", false).unwrap();

    assert_eq!(prepared, r#"{"items":[{"name":"a"}],"meta":{}}"#);
}

#[test]
fn preserves_raw_json_when_no_options_apply() {
    let raw = b"{\n  \"b\": 2, \"a\": 1\n}\n";
    let (prepared, _) = prepare_json(raw, b"", "", false).unwrap();

    assert_eq!(prepared.as_bytes(), raw);
}

#[test]
fn classifies_json_syntax() {
    let tokens = json_tokens(r#"  "name": "A\"B", "count": -12.5, "ok": true, "value": null"#)
        .into_iter()
        .filter(|(_, kind)| *kind != JsonToken::Plain)
        .map(|(_, kind)| kind)
        .collect::<Vec<_>>();

    assert_eq!(
        tokens,
        vec![
            JsonToken::Key,
            JsonToken::String,
            JsonToken::Key,
            JsonToken::Number,
            JsonToken::Key,
            JsonToken::Boolean,
            JsonToken::Key,
            JsonToken::Null,
        ]
    );
}

#[test]
fn tokens_spell_the_line_and_alternate_in_class() {
    let line = "  {\"k\" :\u{a0}[1e-3, false, \"é\\\\\"], nul}";
    let tokens = json_tokens(line);
    let joined: String = tokens.iter().map(|(t, _)| t.as_str()).collect();
    assert_eq!(joined, line);
    for pair in tokens.windows(2) {
        assert_ne!(pair[0].1, pair[1].1);
    }
    assert!(tokens.iter().all(|(t, _)| !t.is_empty()));
    assert_eq!(tokens[1], ("\"k\"".to_string(), JsonToken::Key));
    assert_eq!(tokens[3], ("1e-3".to_string(), JsonToken::Number));
    assert_eq!(tokens[5], ("false".to_string(), JsonToken::Boolean));
    assert_eq!(tokens[7], ("\"é\\\\\"".to_string(), JsonToken::String));
}

#[test]
fn unterminated_strings_run_to_the_end_of_the_line() {
    let tokens = json_tokens("x \"open \\\" still");
    assert_eq!(tokens.len(), 2);
    assert_eq!(tokens[1], ("\"open \\\" still".to_string(), JsonToken::String));
}

#[test]
fn a_minus_sign_alone_is_plain() {
    let tokens = json_tokens("- -x -1");
    assert_eq!(
        tokens,
        vec![
            ("- -x ".to_string(), JsonToken::Plain),
            ("-1".to_string(), JsonToken::Number),
        ]
    );
}

#[test]
fn pushing_a_token_joins_same_classes() {
    let mut tokens = Vec::new();
    push_json_token(&mut tokens, "{", JsonToken::Plain);
    push_json_token(&mut tokens, " ", JsonToken::Plain);
    push_json_token(&mut tokens, "1", JsonToken::Number);
    assert_eq!(
        tokens,
        vec![
            ("{ ".to_string(), JsonToken::Plain),
            ("1".to_string(), JsonToken::Number),
        ]
    );
}

#[test]
fn reads_ignored_key_lists() {
    assert_eq!(ignored_keys(" id, ,meta\u{2003} ,,"), vec!["id".to_string(), "meta".to_string()]);
    assert!(ignored_keys("").is_empty());
    assert!(ignored_keys(" , ").is_empty());
}

#[test]
fn prettifies_json_with_sorted_keys() {
    let (prepared, after) = prepare_json(br#"{"b":[1,2],"a":null}"#, b"", "", true).unwrap();
    assert_eq!(prepared, "{\n  \"a\": null,\n  \"b\": [\n    1,\n    2\n  ]\n}");
    assert_eq!(after, "");
}

#[test]
fn reports_invalid_json() {
    let error = prepare_json(b"{oops", b"{}", "id", false).unwrap_err();
    assert!(error.starts_with("Invalid JSON: "));
    let error = prepare_json(b"{}", b"[1,", "", true).unwrap_err();
    assert!(error.starts_with("Invalid JSON: "));
}

#[test]
fn raw_json_must_be_utf8() {
    let keys = Vec::new();
    let error = prepare_json_side(b"{\"a\":\"\xff\"}", &keys, false).unwrap_err();
    assert!(error.contains("utf-8"));
    let keys = vec!["a".to_string()];
    assert_eq!(prepare_json_side(b"{\"a\":1,\"b\":2.5}", &keys, false).unwrap(), "{\"b\":2.5}");
}

#[test]
fn prettified_json_is_always_written() {
    let (before, after) = prepare_json(br#"{"b":[1,2],"a":null}"#, br#"[]"#, "", true).unwrap();
    assert_eq!(before, "{\n  \"a\": null,\n  \"b\": [\n    1,\n    2\n  ]\n}");
    assert_eq!(after, "[]");
}

#[test]
fn invalid_after_side_reports_invalid_json() {
    let error = prepare_json(br#"{"a":1}"#, b"{", "a", false).unwrap_err();
    assert!(error.starts_with("Invalid JSON: "));
}
