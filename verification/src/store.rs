use vstd::prelude::*;

verus! {

/// Error of the document store: the content handed to a save is not a
/// JSON document.
#[derive(Clone, Copy, PartialEq, Eq, Structural, Debug)]
pub enum StoreError {
    InvalidJson,
}

/// Whether serde_json reads `s` as a JSON document: names the success of
/// `normalize_json`.
pub uninterp spec fn json_accepts(s: Seq<char>) -> bool;

/// The pretty-printed text that serde_json gives to the JSON document `s`:
/// names the result of `normalize_json`.
pub uninterp spec fn json_pretty(s: Seq<char>) -> Seq<char>;

#[verifier::external_type_specification]
#[verifier::external_body]
pub struct ExSerdeJsonError(serde_json::Error);

/// Relies on `serde_json::from_str::<Value>` and
/// `serde_json::to_string_pretty`: both depend on the characters of
/// `content` alone, and pretty-printing a `Value` does not fail, so the
/// call succeeds exactly when `content` parses.
#[verifier::external_body]
fn normalize_json(content: &str) -> (r: Result<String, serde_json::Error>)
    ensures
        r is Ok <==> json_accepts(content@),
        r is Ok ==> r.unwrap()@ == json_pretty(content@),
{
    serde_json::from_str::<serde_json::Value>(content).and_then(
        |v| serde_json::to_string_pretty(&v),
    )
}

/// Checks that `content` is a JSON document and returns the pretty-printed
/// text that a save writes; a save overwrites the whole file, so this text
/// is the file's entire new content. `StoreError::InvalidJson` exactly
/// where `content` does not parse as JSON, and then nothing is written.
pub fn prepare_save(content: &str) -> (r: Result<String, StoreError>)
    ensures
        r is Ok <==> json_accepts(content@),
        r is Ok ==> r.unwrap()@ == json_pretty(content@),
        r is Err ==> r.unwrap_err() == StoreError::InvalidJson,
{
    match normalize_json(content) {
        Ok(text) => Ok(text),
        Err(_) => Err(StoreError::InvalidJson),
    }
}

/// The fixed token that a completed save reports.
pub fn saved_reply() -> (r: String)
    ensures
        r@ == "SAVED"@,
{
    String::from_str("SAVED")
}

/// The document text written when a load finds no file.
pub open spec fn default_document_spec() -> Seq<char> {
    "{\n    \"todo\": \"\",\n    \"note\": \"\"\n}"@
}

/// The document written on the first load of a missing file: an empty
/// todo and an empty note.
pub fn default_document() -> (r: String)
    ensures
        r@ == default_document_spec(),
{
    String::from_str("{\n    \"todo\": \"\",\n    \"note\": \"\"\n}")
}

/// What a load returns, given whether the file existed and what reading
/// it gave: the file's text verbatim when it was read, and the empty
/// string otherwise — both when the file was missing (the caller then
/// creates it with `default_document`) and when reading it failed.
pub fn load_reply(existed: bool, text: Option<String>) -> (r: String)
    ensures
        existed && text is Some ==> r@ == text.unwrap()@,
        !(existed && text is Some) ==> r@ == Seq::<char>::empty(),
{
    if existed {
        match text {
            Some(t) => t,
            None => String::new(),
        }
    } else {
        String::new()
    }
}

} // verus!
