//! Holding documents against their schemas.

use bliss_playlist_optimizer::schema::check_document;

const SCHEMA: &str = r#"{
  "type": "object",
  "required": ["job_id"],
  "properties": { "job_id": { "type": "string", "minLength": 1 } }
}"#;

#[test]
fn documents_pass_by_their_schema() {
    assert!(check_document(SCHEMA, b"{\"job_id\":\"a\"}", "request", false).is_ok());
    let refused = check_document(SCHEMA, b"{\"job_id\":\"\"}", "request", false).unwrap_err();
    assert_eq!(refused.code, "INVALID_REQUEST");
    assert!(refused.message.starts_with("request schema validation failed: "));
    let missing = check_document(SCHEMA, b"{}", "request", false).unwrap_err();
    assert_eq!(missing.code, "INVALID_REQUEST");
}

#[test]
fn what_is_no_json_is_refused_first() {
    for trusted in [false, true] {
        let refused = check_document(SCHEMA, b"{\"job_id\":", "request", trusted).unwrap_err();
        assert_eq!(refused.code, "INVALID_JSON");
        assert!(refused.message.starts_with("invalid request JSON: "));
    }
}

#[test]
fn trusted_documents_are_not_held_against_a_schema() {
    assert!(check_document(SCHEMA, b"{}", "request", true).is_ok());
}

#[test]
fn schemas_that_cannot_be_used_are_no_matter_of_the_document() {
    for schema in ["{", "{\"type\": 7}"] {
        let failed = check_document(schema, b"{}", "request", false).unwrap_err();
        assert_eq!(failed.code, "INTERNAL_ERROR");
    }
}
