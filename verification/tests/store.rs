use wispr::store::{default_document, load_reply, prepare_save, saved_reply, StoreError};

#[test]
fn save_then_load_is_json_equivalent() {
    let content = "{\"todo\":\"a\",\"note\":\"b\"}";
    let written = prepare_save(content).unwrap();
    let loaded = load_reply(true, Some(written.clone()));
    assert_eq!(loaded, written);
    let original: serde_json::Value = serde_json::from_str(content).unwrap();
    let reread: serde_json::Value = serde_json::from_str(&loaded).unwrap();
    assert_eq!(original, reread);
}

#[test]
fn save_pretty_prints() {
    let content = "{\"todo\":\"a\",\"note\":\"b\"}";
    let written = prepare_save(content).unwrap();
    assert_ne!(written, content);
    assert!(written.contains('\n'));
    assert_eq!(written, "{\n  \"note\": \"b\",\n  \"todo\": \"a\"\n}");
}

#[test]
fn saving_pretty_text_keeps_it() {
    let once = prepare_save("{\"todo\":\"x\",\"note\":\"\"}").unwrap();
    let twice = prepare_save(&once).unwrap();
    assert_eq!(once, twice);
}

#[test]
fn non_json_content_is_rejected() {
    assert_eq!(prepare_save("not json"), Err(StoreError::InvalidJson));
    assert_eq!(prepare_save(""), Err(StoreError::InvalidJson));
    assert_eq!(prepare_save("{\"todo\":"), Err(StoreError::InvalidJson));
}

#[test]
fn any_json_is_accepted() {
    assert!(prepare_save("[1, 2, 3]").is_ok());
    assert!(prepare_save("\"just a string\"").is_ok());
    assert!(prepare_save("null").is_ok());
}

#[test]
fn default_document_is_the_literal() {
    assert_eq!(default_document(), "{\n    \"todo\": \"\",\n    \"note\": \"\"\n}");
}

#[test]
fn default_document_has_empty_fields() {
    let value: serde_json::Value = serde_json::from_str(&default_document()).unwrap();
    assert_eq!(value["todo"], serde_json::Value::String(String::new()));
    assert_eq!(value["note"], serde_json::Value::String(String::new()));
}

#[test]
fn first_load_of_a_missing_file_is_empty() {
    assert_eq!(load_reply(false, None), "");
}

#[test]
fn second_load_returns_the_default_document() {
    let stored = default_document();
    assert_eq!(load_reply(true, Some(stored.clone())), stored);
}

#[test]
fn unreadable_file_loads_as_empty() {
    assert_eq!(load_reply(true, None), "");
}

#[test]
fn load_returns_the_text_verbatim() {
    let text = String::from("not json at all");
    assert_eq!(load_reply(true, Some(text.clone())), text);
}

#[test]
fn save_reports_the_fixed_token() {
    assert_eq!(saved_reply(), "SAVED");
}
