use loom::error::Code;
use loom::tickets::{
    check_update_comment, relation_set_triples, ticket_field_value_changes, ticket_update_changes,
    update_comment_types, MutationChange,
};

fn set(field: &str, value: &str) -> MutationChange {
    MutationChange::FieldSet { field: field.to_string(), value: value.to_string() }
}

fn pair(a: &str, b: &str) -> (String, String) {
    (a.to_string(), b.to_string())
}

#[test]
fn field_values_become_field_set_changes_in_order() {
    let changes = ticket_field_value_changes(&[pair("priority", "\"high\""), pair("points", "3")]);
    assert_eq!(changes, vec![set("priority", "\"high\""), set("points", "3")]);
    assert!(ticket_field_value_changes(&[]).is_empty());
}

#[test]
fn update_changes_compose_in_a_fixed_order() {
    let changes = ticket_update_changes(
        &[pair("title", "\"t\"")],
        &["labels".to_string()],
        true,
        Some("done"),
        Some("ready"),
        Some("alice"),
        &[Some("review".to_string()), None],
        &[("r1".to_string(), "blocks".to_string(), "t9".to_string())],
        &["r0".to_string()],
    );
    assert_eq!(
        changes,
        vec![
            set("title", "\"t\""),
            MutationChange::FieldDeleted { field: "labels".to_string(), before: None },
            MutationChange::FieldChanged {
                field: "status".to_string(),
                before: Some("ready".to_string()),
                after: Some("done".to_string()),
            },
            MutationChange::FieldChanged {
                field: "assignee".to_string(),
                before: None,
                after: Some("alice".to_string()),
            },
            set("comment", "review"),
            set("comment", "comment"),
            MutationChange::RelationSet {
                relation_id: "r1".to_string(),
                kind: "blocks".to_string(),
                target_id: "t9".to_string(),
            },
            MutationChange::FieldDeleted { field: "relation:r0".to_string(), before: None },
        ]
    );
}

#[test]
fn an_applied_action_without_a_status_move_is_reported() {
    let changes = ticket_update_changes(&[], &[], true, None, None, None, &[], &[], &[]);
    assert_eq!(changes, vec![set("lifecycle_action", "applied")]);
    let changes = ticket_update_changes(&[], &[], false, None, Some("ready"), None, &[], &[], &[]);
    assert!(changes.is_empty());
}

#[test]
fn a_comment_id_or_type_needs_a_body() {
    assert!(check_update_comment(None, None, None).is_ok());
    assert!(check_update_comment(Some("c1"), Some("note"), Some("text")).is_ok());
    assert!(check_update_comment(None, None, Some("text")).is_ok());
    let e = check_update_comment(Some("c1"), None, None).unwrap_err();
    assert_eq!(e.code, Code::InvalidArgument);
    assert_eq!(e.message, "ticket update comment id and type require comment body");
    assert!(check_update_comment(None, Some("note"), None).is_err());
}

#[test]
fn comment_types_put_the_single_comment_first() {
    let listed = vec![None, Some("note".to_string())];
    assert_eq!(
        update_comment_types(Some("review"), &listed),
        vec![Some("review".to_string()), None, Some("note".to_string())]
    );
    assert_eq!(update_comment_types(None, &listed), listed);
    assert!(update_comment_types(None, &[]).is_empty());
}

#[test]
fn a_relation_without_an_id_is_named_by_its_target() {
    let requests = vec![
        (None, "blocks".to_string(), "T-2".to_string()),
        (Some("R-9".to_string()), "relates".to_string(), "T-3".to_string()),
    ];
    assert_eq!(
        relation_set_triples(&requests),
        vec![
            ("T-2".to_string(), "blocks".to_string(), "T-2".to_string()),
            ("R-9".to_string(), "relates".to_string(), "T-3".to_string()),
        ]
    );
}
