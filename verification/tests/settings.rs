use loom::error::Code;
use loom::settings::{
    parse_project_settings_patch, patch_optional_bool, patch_optional_text,
    patch_optional_text_list, patch_required_bool, patch_text_list, ticket_patch_array,
    PATCH_FIELD_COUNT,
};
use loom::{encode, Value};

fn text(s: &str) -> Value {
    Value::Text(s.to_string())
}

fn texts(items: &[&str]) -> Value {
    Value::Array(items.iter().map(|s| text(s)).collect())
}

/// A patch that changes nothing: every optional field null, the lists empty, the flag false.
fn empty_patch_fields() -> Vec<Value> {
    vec![
        Value::Null,
        Value::Array(Vec::new()),
        Value::Array(Vec::new()),
        Value::Null,
        Value::Null,
        Value::Bool(false),
        Value::Null,
        Value::Null,
        Value::Null,
        Value::Null,
        Value::Null,
        Value::Null,
        Value::Null,
        Value::Null,
        Value::Null,
    ]
}

fn patch_bytes(fields: Vec<Value>) -> Vec<u8> {
    encode(&Value::Array(fields)).unwrap()
}

#[test]
fn empty_patch_reads_as_no_changes() {
    assert_eq!(PATCH_FIELD_COUNT, 15);
    let p = parse_project_settings_patch(&patch_bytes(empty_patch_fields())).unwrap();
    assert_eq!(p.default_projection, None);
    assert!(p.enable_projections.is_empty());
    assert!(p.disable_projections.is_empty());
    assert!(!p.clear_project_owner_principal);
    assert_eq!(p.acceptance_authorities, None);
    assert_eq!(p.acceptance_evidence_enforcement, None);
    assert_eq!(p.expected_root, None);
}

#[test]
fn full_patch_reads_every_field() {
    let fields = vec![
        text("kanban"),
        texts(&["kanban", "scrum"]),
        texts(&["legacy"]),
        text("enforce"),
        text("owner-1"),
        Value::Bool(true),
        texts(&["alice", "bob"]),
        Value::Bool(true),
        texts(&["tests"]),
        texts(&["security"]),
        text("owner summary"),
        text("owner details"),
        text("worker summary"),
        text("worker details"),
        text("root-1"),
    ];
    let p = parse_project_settings_patch(&patch_bytes(fields)).unwrap();
    assert_eq!(p.default_projection.as_deref(), Some("kanban"));
    assert_eq!(p.enable_projections, vec!["kanban", "scrum"]);
    assert_eq!(p.disable_projections, vec!["legacy"]);
    assert_eq!(p.actor_enforcement.as_deref(), Some("enforce"));
    assert_eq!(p.project_owner_principal.as_deref(), Some("owner-1"));
    assert!(p.clear_project_owner_principal);
    assert_eq!(p.acceptance_authorities, Some(vec!["alice".to_string(), "bob".to_string()]));
    assert_eq!(p.acceptance_evidence_enforcement, Some(true));
    assert_eq!(p.required_acceptance_evidence_keys, Some(vec!["tests".to_string()]));
    assert_eq!(p.required_acceptance_reviews, Some(vec!["security".to_string()]));
    assert_eq!(p.owner_contract_summary.as_deref(), Some("owner summary"));
    assert_eq!(p.owner_contract_details.as_deref(), Some("owner details"));
    assert_eq!(p.worker_contract_summary.as_deref(), Some("worker summary"));
    assert_eq!(p.worker_contract_details.as_deref(), Some("worker details"));
    assert_eq!(p.expected_root.as_deref(), Some("root-1"));
}

#[test]
fn patch_must_be_a_fifteen_field_array() {
    let e = parse_project_settings_patch(&encode(&Value::Uint(1)).unwrap()).unwrap_err();
    assert_eq!(e.code, Code::InvalidArgument);
    assert_eq!(e.message, "project settings patch must be an array");
    let mut short = empty_patch_fields();
    short.pop();
    let e = parse_project_settings_patch(&patch_bytes(short)).unwrap_err();
    assert_eq!(e.message, "project settings patch must have 15 fields");
    let e = parse_project_settings_patch(&[0x9f]).unwrap_err();
    assert_eq!(e.code, Code::InvalidArgument);
    assert_eq!(e.message, "project settings patch: indefinite-length item");
}

#[test]
fn field_errors_name_the_field_and_rule() {
    let mut fields = empty_patch_fields();
    fields[5] = Value::Null;
    let e = parse_project_settings_patch(&patch_bytes(fields)).unwrap_err();
    assert_eq!(e.message, "project settings patch clear_project_owner_principal must be bool");

    let mut fields = empty_patch_fields();
    fields[1] = Value::Array(vec![Value::Uint(1)]);
    let e = parse_project_settings_patch(&patch_bytes(fields)).unwrap_err();
    assert_eq!(e.message, "project settings patch enable_projections items must be text");

    let mut fields = empty_patch_fields();
    fields[2] = Value::Null;
    let e = parse_project_settings_patch(&patch_bytes(fields)).unwrap_err();
    assert_eq!(e.message, "project settings patch disable_projections must be an array");

    let mut fields = empty_patch_fields();
    fields[7] = text("yes");
    let e = parse_project_settings_patch(&patch_bytes(fields)).unwrap_err();
    assert_eq!(
        e.message,
        "project settings patch acceptance_evidence_enforcement must be bool or null"
    );

    let mut fields = empty_patch_fields();
    fields[14] = Value::Uint(3);
    let e = parse_project_settings_patch(&patch_bytes(fields)).unwrap_err();
    assert_eq!(e.message, "project settings patch expected_root must be text or null");
}

#[test]
fn evidence_and_review_lists_are_checked_before_the_owner_fields() {
    let mut fields = empty_patch_fields();
    fields[4] = Value::Uint(1);
    fields[9] = Value::Bool(true);
    let e = parse_project_settings_patch(&patch_bytes(fields)).unwrap_err();
    assert_eq!(
        e.message,
        "project settings patch required_acceptance_reviews must be an array or null"
    );

    let mut fields = empty_patch_fields();
    fields[0] = Value::Uint(1);
    fields[8] = Value::Uint(1);
    let e = parse_project_settings_patch(&patch_bytes(fields)).unwrap_err();
    assert_eq!(e.message, "project settings patch default_projection must be text or null");
}

#[test]
fn field_readers() {
    assert_eq!(patch_optional_text(&Value::Null, "f").unwrap(), None);
    assert_eq!(patch_optional_text(&text("x"), "f").unwrap().as_deref(), Some("x"));
    assert_eq!(
        patch_optional_text(&Value::Bool(true), "f").unwrap_err().message,
        "project settings patch f must be text or null"
    );
    assert!(patch_required_bool(&Value::Bool(true), "f").unwrap());
    assert_eq!(patch_optional_bool(&Value::Null, "f").unwrap(), None);
    assert_eq!(patch_optional_bool(&Value::Bool(false), "f").unwrap(), Some(false));
    assert_eq!(patch_text_list(&texts(&["a", "b"]), "f").unwrap(), vec!["a", "b"]);
    assert_eq!(patch_optional_text_list(&Value::Null, "f").unwrap(), None);
    assert_eq!(
        patch_optional_text_list(&text("a"), "f").unwrap_err().message,
        "project settings patch f must be an array or null"
    );
    assert_eq!(
        ticket_patch_array(&encode(&texts(&["a"])).unwrap()).unwrap(),
        vec![text("a")]
    );
}
