//! Ticket updates: the rule that a single comment needs its body, the comment types and relation
//! triples an update reports, and the change list it reports in its mutation receipt.

use vstd::prelude::*;
use crate::error::{Code, LoomError};

verus! {

broadcast use {
    vstd::seq::group_seq_axioms,
    vstd::seq_lib::group_seq_properties,
    vstd::std_specs::vec::group_vec_axioms,
};

/// One reported change of a mutation.
#[derive(Debug, PartialEq, Eq)]
pub enum MutationChange {
    /// A field was set to a value.
    FieldSet { field: String, value: String },
    /// A field was deleted; `before` is its previous value when known.
    FieldDeleted { field: String, before: Option<String> },
    /// A field changed from `before` to `after`.
    FieldChanged { field: String, before: Option<String>, after: Option<String> },
    /// A relation was set.
    RelationSet { relation_id: String, kind: String, target_id: String },
}

/// The model of a change, with texts as character sequences.
pub enum ChangeModel {
    FieldSet(Seq<char>, Seq<char>),
    FieldDeleted(Seq<char>, Option<Seq<char>>),
    FieldChanged(Seq<char>, Option<Seq<char>>, Option<Seq<char>>),
    RelationSet(Seq<char>, Seq<char>, Seq<char>),
}

/// The characters of an optional string.
pub open spec fn opt_view(s: Option<String>) -> Option<Seq<char>> {
    match s {
        Some(t) => Some(t@),
        None => None,
    }
}

/// The characters of an optional string slice.
pub open spec fn opt_str_view(s: Option<&str>) -> Option<Seq<char>> {
    match s {
        Some(t) => Some(t@),
        None => None,
    }
}

impl MutationChange {
    /// The model of a change.
    pub open spec fn model(&self) -> ChangeModel {
        match self {
            MutationChange::FieldSet { field, value } => ChangeModel::FieldSet(field@, value@),
            MutationChange::FieldDeleted { field, before } => ChangeModel::FieldDeleted(field@, opt_view(*before)),
            MutationChange::FieldChanged { field, before, after } => ChangeModel::FieldChanged(
                field@,
                opt_view(*before),
                opt_view(*after),
            ),
            MutationChange::RelationSet { relation_id, kind, target_id } => ChangeModel::RelationSet(
                relation_id@,
                kind@,
                target_id@,
            ),
        }
    }
}

/// The models of a sequence of changes.
pub open spec fn change_models(s: Seq<MutationChange>) -> Seq<ChangeModel> {
    Seq::new(s.len(), |i: int| s[i].model())
}

/// One `FieldSet` per `(field, value)` pair, in order.
pub open spec fn field_set_changes(fields: Seq<(String, String)>) -> Seq<ChangeModel> {
    Seq::new(fields.len(), |i: int| ChangeModel::FieldSet(fields[i].0@, fields[i].1@))
}

/// One `FieldDeleted` (previous value unknown) per field, in order.
pub open spec fn field_deleted_changes(fields: Seq<String>) -> Seq<ChangeModel> {
    Seq::new(fields.len(), |i: int| ChangeModel::FieldDeleted(fields[i]@, None))
}

/// One `comment` field set per added comment, naming its type (`comment` when untyped).
pub open spec fn comment_changes(types: Seq<Option<String>>) -> Seq<ChangeModel> {
    Seq::new(
        types.len(),
        |i: int|
            ChangeModel::FieldSet(
                "comment"@,
                match types[i] {
                    Some(t) => t@,
                    None => "comment"@,
                },
            ),
    )
}

/// One `RelationSet` per `(relation_id, kind, target_id)`, in order.
pub open spec fn relation_set_changes(sets: Seq<(String, String, String)>) -> Seq<ChangeModel> {
    Seq::new(sets.len(), |i: int| ChangeModel::RelationSet(sets[i].0@, sets[i].1@, sets[i].2@))
}

/// One deletion of the field `relation:<id>` per removed relation, in order.
pub open spec fn relation_removed_changes(ids: Seq<String>) -> Seq<ChangeModel> {
    Seq::new(ids.len(), |i: int| ChangeModel::FieldDeleted("relation:"@ + ids[i]@, None))
}

/// The change list of a ticket update: the fields set, the fields deleted, the status change,
/// the assignee change, an applied lifecycle action that moved no status, the comments added,
/// the relations set, and the relations removed, in that order.
pub open spec fn update_changes(
    set_fields: Seq<(String, String)>,
    delete_fields: Seq<String>,
    action_applied: bool,
    target_status: Option<Seq<char>>,
    observed_source_status: Option<Seq<char>>,
    assignee: Option<Seq<char>>,
    comment_types: Seq<Option<String>>,
    relation_sets: Seq<(String, String, String)>,
    relation_removes: Seq<String>,
) -> Seq<ChangeModel> {
    field_set_changes(set_fields) + field_deleted_changes(delete_fields) + match target_status {
        Some(t) => seq![ChangeModel::FieldChanged("status"@, observed_source_status, Some(t))],
        None => Seq::empty(),
    } + match assignee {
        Some(a) => seq![ChangeModel::FieldChanged("assignee"@, None, Some(a))],
        None => Seq::empty(),
    } + if action_applied && target_status is None {
        seq![ChangeModel::FieldSet("lifecycle_action"@, "applied"@)]
    } else {
        Seq::empty()
    } + comment_changes(comment_types) + relation_set_changes(relation_sets) + relation_removed_changes(
        relation_removes,
    )
}

/// 1 when `b` holds, else 0.
pub open spec fn one_if(b: bool) -> int {
    if b {
        1
    } else {
        0
    }
}

/// A change list laid out as an update reports it: first one `FieldSet` per set field, then one
/// `FieldDeleted` per deleted field, then the status change (when there is a target status), the
/// assignee change (when there is an assignee), and the applied lifecycle action (when an action
/// was applied and no status moved); then one `comment` field set per comment, then one
/// `RelationSet` per relation set, each carrying its own id, kind and target, and last one
/// deletion of `relation:<id>` per removed relation; nothing else.
pub open spec fn laid_out_changes(
    u: Seq<ChangeModel>,
    set_fields: Seq<(String, String)>,
    delete_fields: Seq<String>,
    action_applied: bool,
    target_status: Option<Seq<char>>,
    observed_source_status: Option<Seq<char>>,
    assignee: Option<Seq<char>>,
    comment_types: Seq<Option<String>>,
    relation_sets: Seq<(String, String, String)>,
    relation_removes: Seq<String>,
) -> bool {
    let m: int = (set_fields.len() + delete_fields.len()) as int;
    let st = one_if(target_status is Some);
    let asg = one_if(assignee is Some);
    let act = one_if(action_applied && target_status is None);
    let n = u.len();
    &&& n == m + st + asg + act + comment_types.len() + relation_sets.len() + relation_removes.len()
    &&& forall|i: int|
        0 <= i < set_fields.len() ==> u[i] == ChangeModel::FieldSet(
            (#[trigger] set_fields[i]).0@,
            set_fields[i].1@,
        )
    &&& forall|i: int|
        0 <= i < delete_fields.len() ==> u[set_fields.len() + i] == ChangeModel::FieldDeleted(
            (#[trigger] delete_fields[i])@,
            None,
        )
    &&& (target_status matches Some(t) ==> u[m] == ChangeModel::FieldChanged(
        "status"@,
        observed_source_status,
        Some(t),
    ))
    &&& (assignee matches Some(a) ==> u[m + st] == ChangeModel::FieldChanged("assignee"@, None, Some(a)))
    &&& (action_applied && target_status is None ==> u[m + st + asg] == ChangeModel::FieldSet(
        "lifecycle_action"@,
        "applied"@,
    ))
    &&& forall|i: int|
        0 <= i < comment_types.len() ==> u[m + st + asg + act + i] == ChangeModel::FieldSet(
            "comment"@,
            match #[trigger] comment_types[i] {
                Some(t) => t@,
                None => "comment"@,
            },
        )
    &&& forall|i: int|
        0 <= i < relation_sets.len() ==> u[n - relation_removes.len() - relation_sets.len() + i]
            == ChangeModel::RelationSet(
            (#[trigger] relation_sets[i]).0@,
            relation_sets[i].1@,
            relation_sets[i].2@,
        )
    &&& forall|i: int|
        0 <= i < relation_removes.len() ==> u[n - relation_removes.len() + i] == ChangeModel::FieldDeleted(
            "relation:"@ + (#[trigger] relation_removes[i])@,
            None,
        )
}

/// An update's change list is laid out as `laid_out_changes` says: the set fields, the deleted
/// fields, the status, assignee and lifecycle changes, the comments, the relations set (each its
/// own id, kind and target) and the relations removed, in that order and nothing else.
pub proof fn law_update_change_list_layout(
    set_fields: Seq<(String, String)>,
    delete_fields: Seq<String>,
    action_applied: bool,
    target_status: Option<Seq<char>>,
    observed_source_status: Option<Seq<char>>,
    assignee: Option<Seq<char>>,
    comment_types: Seq<Option<String>>,
    relation_sets: Seq<(String, String, String)>,
    relation_removes: Seq<String>,
)
    ensures
        laid_out_changes(
            update_changes(
                set_fields,
                delete_fields,
                action_applied,
                target_status,
                observed_source_status,
                assignee,
                comment_types,
                relation_sets,
                relation_removes,
            ),
            set_fields,
            delete_fields,
            action_applied,
            target_status,
            observed_source_status,
            assignee,
            comment_types,
            relation_sets,
            relation_removes,
        ),
{
    let a = field_set_changes(set_fields);
    let b = field_deleted_changes(delete_fields);
    let c: Seq<ChangeModel> = match target_status {
        Some(t) => seq![ChangeModel::FieldChanged("status"@, observed_source_status, Some(t))],
        None => Seq::empty(),
    };
    let d: Seq<ChangeModel> = match assignee {
        Some(x) => seq![ChangeModel::FieldChanged("assignee"@, None, Some(x))],
        None => Seq::empty(),
    };
    let e: Seq<ChangeModel> = if action_applied && target_status is None {
        seq![ChangeModel::FieldSet("lifecycle_action"@, "applied"@)]
    } else {
        Seq::empty()
    };
    let f = comment_changes(comment_types);
    let g = relation_set_changes(relation_sets);
    let h = relation_removed_changes(relation_removes);
    let u = update_changes(
        set_fields,
        delete_fields,
        action_applied,
        target_status,
        observed_source_status,
        assignee,
        comment_types,
        relation_sets,
        relation_removes,
    );
    assert(u == a + b + c + d + e + f + g + h);
    let m: int = (set_fields.len() + delete_fields.len()) as int;
    let st = one_if(target_status is Some);
    let asg = one_if(assignee is Some);
    let act = one_if(action_applied && target_status is None);
    assert(c.len() == st && d.len() == asg && e.len() == act);
    let n = u.len();
    assert forall|i: int| 0 <= i < set_fields.len() implies u[i] == ChangeModel::FieldSet(
        (#[trigger] set_fields[i]).0@,
        set_fields[i].1@,
    ) by {
        assert(u[i] == a[i]);
    }
    assert forall|i: int| 0 <= i < delete_fields.len() implies u[set_fields.len() + i]
        == ChangeModel::FieldDeleted((#[trigger] delete_fields[i])@, None) by {
        assert(u[set_fields.len() + i] == b[i]);
    }
    if target_status is Some {
        assert(u[m] == c[0]);
    }
    if assignee is Some {
        assert(u[m + st] == d[0]);
    }
    if action_applied && target_status is None {
        assert(u[m + st + asg] == e[0]);
    }
    assert forall|i: int| 0 <= i < comment_types.len() implies u[m + st + asg + act + i]
        == ChangeModel::FieldSet(
        "comment"@,
        match #[trigger] comment_types[i] {
            Some(t) => t@,
            None => "comment"@,
        },
    ) by {
        assert(u[m + st + asg + act + i] == f[i]);
    }
    assert forall|i: int| 0 <= i < relation_sets.len() implies u[n - relation_removes.len() - relation_sets.len()
        + i] == ChangeModel::RelationSet(
        (#[trigger] relation_sets[i]).0@,
        relation_sets[i].1@,
        relation_sets[i].2@,
    ) by {
        assert(u[n - relation_removes.len() - relation_sets.len() + i] == g[i]);
    }
    assert forall|i: int| 0 <= i < relation_removes.len() implies u[n - relation_removes.len() + i]
        == ChangeModel::FieldDeleted("relation:"@ + (#[trigger] relation_removes[i])@, None) by {
        assert(u[n - relation_removes.len() + i] == h[i]);
    }
}

/// Pushing a change pushes its model.
proof fn lemma_change_models_push(s: Seq<MutationChange>, c: MutationChange)
    ensures
        change_models(s.push(c)) == change_models(s).push(c.model()),
{
    assert(change_models(s.push(c)) =~= change_models(s).push(c.model()));
}

/// Owned copy of an optional string slice.
fn owned(s: Option<&str>) -> (r: Option<String>)
    ensures
        opt_view(r) == opt_str_view(s),
{
    match s {
        Some(t) => Some(String::from_str(t)),
        None => None,
    }
}

/// One `FieldSet` change per `(field, value)` pair of an update's field object (each value in
/// its JSON text form), in order.
pub fn ticket_field_value_changes(fields: &[(String, String)]) -> (r: Vec<MutationChange>)
    ensures
        change_models(r@) == field_set_changes(fields@),
        r@.len() == fields@.len(),
        forall|i: int|
            0 <= i < fields@.len() ==> (#[trigger] r@[i]).model() == ChangeModel::FieldSet(
                fields@[i].0@,
                fields@[i].1@,
            ),
{
    let mut out: Vec<MutationChange> = Vec::new();
    let mut i: usize = 0;
    while i < fields.len()
        invariant
            i <= fields@.len(),
            change_models(out@) == field_set_changes(fields@.take(i as int)),
        decreases fields@.len() - i,
    {
        let ghost prev = out@;
        let c = MutationChange::FieldSet { field: fields[i].0.clone(), value: fields[i].1.clone() };
        proof {
            lemma_change_models_push(prev, c);
            assert(field_set_changes(fields@.take(i + 1)) =~= field_set_changes(fields@.take(i as int)).push(c.model()));
        }
        out.push(c);
        i = i + 1;
    }
    assert(fields@.take(i as int) =~= fields@);
    assert forall|i: int| 0 <= i < fields@.len() implies (#[trigger] out@[i]).model() == ChangeModel::FieldSet(
        fields@[i].0@,
        fields@[i].1@,
    ) by {
        assert(change_models(out@)[i] == out@[i].model());
    }
    out
}

/// The change list a ticket update reports; see `update_changes`.
pub fn ticket_update_changes(
    set_fields: &[(String, String)],
    delete_fields: &[String],
    action_applied: bool,
    target_status: Option<&str>,
    observed_source_status: Option<&str>,
    assignee: Option<&str>,
    comment_types: &[Option<String>],
    relation_sets: &[(String, String, String)],
    relation_removes: &[String],
) -> (r: Vec<MutationChange>)
    ensures
        change_models(r@) == update_changes(
            set_fields@,
            delete_fields@,
            action_applied,
            opt_str_view(target_status),
            opt_str_view(observed_source_status),
            opt_str_view(assignee),
            comment_types@,
            relation_sets@,
            relation_removes@,
        ),
        laid_out_changes(
            change_models(r@),
            set_fields@,
            delete_fields@,
            action_applied,
            opt_str_view(target_status),
            opt_str_view(observed_source_status),
            opt_str_view(assignee),
            comment_types@,
            relation_sets@,
            relation_removes@,
        ),
{
    proof {
        law_update_change_list_layout(
            set_fields@,
            delete_fields@,
            action_applied,
            opt_str_view(target_status),
            opt_str_view(observed_source_status),
            opt_str_view(assignee),
            comment_types@,
            relation_sets@,
            relation_removes@,
        );
    }
    let mut changes = ticket_field_value_changes(set_fields);
    let ghost mut expected = field_set_changes(set_fields@);
    let mut i: usize = 0;
    while i < delete_fields.len()
        invariant
            i <= delete_fields@.len(),
            change_models(changes@) == expected + field_deleted_changes(delete_fields@.take(i as int)),
        decreases delete_fields@.len() - i,
    {
        let ghost prev = changes@;
        let c = MutationChange::FieldDeleted { field: delete_fields[i].clone(), before: None };
        proof {
            lemma_change_models_push(prev, c);
            assert(field_deleted_changes(delete_fields@.take(i + 1)) =~= field_deleted_changes(
                delete_fields@.take(i as int),
            ).push(c.model()));
            assert(change_models(prev.push(c)) =~= expected + field_deleted_changes(delete_fields@.take(i + 1)));
        }
        changes.push(c);
        i = i + 1;
    }
    proof {
        assert(delete_fields@.take(i as int) =~= delete_fields@);
        expected = expected + field_deleted_changes(delete_fields@);
    }
    if let Some(target) = target_status {
        changes.push(
            MutationChange::FieldChanged {
                field: String::from_str("status"),
                before: owned(observed_source_status),
                after: Some(String::from_str(target)),
            },
        );
    }
    proof {
        let status_change = match opt_str_view(target_status) {
            Some(t) => seq![
                ChangeModel::FieldChanged("status"@, opt_str_view(observed_source_status), Some(t)),
            ],
            None => Seq::<ChangeModel>::empty(),
        };
        assert(change_models(changes@) =~= expected + status_change);
        expected = expected + status_change;
    }
    if let Some(a) = assignee {
        changes.push(
            MutationChange::FieldChanged {
                field: String::from_str("assignee"),
                before: None,
                after: Some(String::from_str(a)),
            },
        );
    }
    proof {
        let assignee_change = match opt_str_view(assignee) {
            Some(a) => seq![ChangeModel::FieldChanged("assignee"@, None, Some(a))],
            None => Seq::<ChangeModel>::empty(),
        };
        assert(change_models(changes@) =~= expected + assignee_change);
        expected = expected + assignee_change;
    }
    if action_applied && target_status.is_none() {
        changes.push(
            MutationChange::FieldSet {
                field: String::from_str("lifecycle_action"),
                value: String::from_str("applied"),
            },
        );
    }
    proof {
        let action_change = if action_applied && opt_str_view(target_status) is None {
            seq![ChangeModel::FieldSet("lifecycle_action"@, "applied"@)]
        } else {
            Seq::<ChangeModel>::empty()
        };
        assert(change_models(changes@) =~= expected + action_change);
        expected = expected + action_change;
    }
    let mut j: usize = 0;
    while j < comment_types.len()
        invariant
            j <= comment_types@.len(),
            change_models(changes@) == expected + comment_changes(comment_types@.take(j as int)),
        decreases comment_types@.len() - j,
    {
        let value = match &comment_types[j] {
            Some(t) => t.clone(),
            None => String::from_str("comment"),
        };
        let ghost prev = changes@;
        let c = MutationChange::FieldSet { field: String::from_str("comment"), value };
        proof {
            lemma_change_models_push(prev, c);
            assert(comment_changes(comment_types@.take(j + 1)) =~= comment_changes(
                comment_types@.take(j as int),
            ).push(c.model()));
            assert(change_models(prev.push(c)) =~= expected + comment_changes(comment_types@.take(j + 1)));
        }
        changes.push(c);
        j = j + 1;
    }
    proof {
        assert(comment_types@.take(j as int) =~= comment_types@);
        expected = expected + comment_changes(comment_types@);
    }
    let mut k: usize = 0;
    while k < relation_sets.len()
        invariant
            k <= relation_sets@.len(),
            change_models(changes@) == expected + relation_set_changes(relation_sets@.take(k as int)),
        decreases relation_sets@.len() - k,
    {
        let ghost prev = changes@;
        let c = MutationChange::RelationSet {
            relation_id: relation_sets[k].0.clone(),
            kind: relation_sets[k].1.clone(),
            target_id: relation_sets[k].2.clone(),
        };
        proof {
            lemma_change_models_push(prev, c);
            assert(relation_set_changes(relation_sets@.take(k + 1)) =~= relation_set_changes(
                relation_sets@.take(k as int),
            ).push(c.model()));
            assert(change_models(prev.push(c)) =~= expected + relation_set_changes(relation_sets@.take(k + 1)));
        }
        changes.push(c);
        k = k + 1;
    }
    proof {
        assert(relation_sets@.take(k as int) =~= relation_sets@);
        expected = expected + relation_set_changes(relation_sets@);
    }
    let mut m: usize = 0;
    while m < relation_removes.len()
        invariant
            m <= relation_removes@.len(),
            change_models(changes@) == expected + relation_removed_changes(relation_removes@.take(m as int)),
        decreases relation_removes@.len() - m,
    {
        let field = String::from_str("relation:").concat(relation_removes[m].as_str());
        let ghost prev = changes@;
        let c = MutationChange::FieldDeleted { field, before: None };
        proof {
            lemma_change_models_push(prev, c);
            assert(relation_removed_changes(relation_removes@.take(m + 1)) =~= relation_removed_changes(
                relation_removes@.take(m as int),
            ).push(c.model()));
            assert(change_models(prev.push(c)) =~= expected + relation_removed_changes(
                relation_removes@.take(m + 1),
            ));
        }
        changes.push(c);
        m = m + 1;
    }
    proof {
        assert(relation_removes@.take(m as int) =~= relation_removes@);
    }
    changes
}

/// The characters of each optional string, in order.
pub open spec fn opt_views(s: Seq<Option<String>>) -> Seq<Option<Seq<char>>> {
    Seq::new(s.len(), |i: int| opt_view(s[i]))
}

/// The comment types an update reports, in order: the single comment's type when it names one,
/// then the type (or none) of each listed comment.
pub open spec fn update_comment_types_of(comment_type: Option<Seq<char>>, listed: Seq<Option<String>>) -> Seq<
    Option<Seq<char>>,
> {
    let first: Seq<Option<Seq<char>>> = match comment_type {
        Some(t) => seq![Some(t)],
        None => Seq::empty(),
    };
    first + opt_views(listed)
}

/// The comment types of an update, as `ticket_update_changes` takes them: the single comment's
/// type when it names one, followed by the types of the listed comments.
pub fn update_comment_types(comment_type: Option<&str>, listed: &[Option<String>]) -> (r: Vec<Option<String>>)
    ensures
        opt_views(r@) == update_comment_types_of(opt_str_view(comment_type), listed@),
{
    let mut out: Vec<Option<String>> = Vec::new();
    let ghost first = match comment_type {
        Some(t) => seq![Some(t@)],
        None => Seq::<Option<Seq<char>>>::empty(),
    };
    match comment_type {
        Some(t) => {
            out.push(Some(String::from_str(t)));
        },
        None => {},
    }
    assert(opt_views(out@) =~= first);
    let mut i: usize = 0;
    while i < listed.len()
        invariant
            i <= listed@.len(),
            opt_views(out@) == first + opt_views(listed@.take(i as int)),
        decreases listed@.len() - i,
    {
        let item = match &listed[i] {
            Some(t) => Some(t.clone()),
            None => None,
        };
        let ghost prev = out@;
        out.push(item);
        proof {
            assert(opt_views(listed@.take(i + 1)) =~= opt_views(listed@.take(i as int)).push(opt_view(listed@[i as int])));
            assert(opt_views(prev.push(item)) =~= opt_views(prev).push(opt_view(item)));
        }
        i = i + 1;
    }
    assert(listed@.take(i as int) =~= listed@);
    out
}

/// The relation a set request names: its own id when it gives one, else its target's id.
pub open spec fn relation_id_of(relation_id: Option<String>, target_id: String) -> Seq<char> {
    match relation_id {
        Some(id) => id@,
        None => target_id@,
    }
}

/// The `(relation_id, kind, target_id)` triples of an update's relation set requests, each given
/// as its optional id, its kind and its target: a request without an id names the relation by
/// its target's id.
pub fn relation_set_triples(requests: &[(Option<String>, String, String)]) -> (r: Vec<(String, String, String)>)
    ensures
        r@.len() == requests@.len(),
        forall|i: int|
            0 <= i < r@.len() ==> (#[trigger] r@[i]).0@ == relation_id_of(requests@[i].0, requests@[i].2)
                && r@[i].1@ == requests@[i].1@ && r@[i].2@ == requests@[i].2@,
{
    let mut out: Vec<(String, String, String)> = Vec::new();
    let mut i: usize = 0;
    while i < requests.len()
        invariant
            i <= requests@.len(),
            out@.len() == i,
            forall|j: int|
                0 <= j < i ==> (#[trigger] out@[j]).0@ == relation_id_of(requests@[j].0, requests@[j].2)
                    && out@[j].1@ == requests@[j].1@ && out@[j].2@ == requests@[j].2@,
        decreases requests@.len() - i,
    {
        let id = match &requests[i].0 {
            Some(id) => id.clone(),
            None => requests[i].2.clone(),
        };
        out.push((id, requests[i].1.clone(), requests[i].2.clone()));
        i = i + 1;
    }
    out
}

/// A single comment of a ticket update needs its body: an id or a type without a body is
/// `InvalidArgument`.
pub fn check_update_comment(comment_id: Option<&str>, comment_type: Option<&str>, comment_body: Option<&str>) -> (r: Result<
    (),
    LoomError,
>)
    ensures
        comment_body is None && (comment_id is Some || comment_type is Some) ==> (r matches Err(e) && e.code
            == Code::InvalidArgument && e.message@ == "ticket update comment id and type require comment body"@),
        !(comment_body is None && (comment_id is Some || comment_type is Some)) ==> r is Ok,
{
    if comment_body.is_none() && (comment_id.is_some() || comment_type.is_some()) {
        return Err(LoomError::invalid("ticket update comment id and type require comment body"));
    }
    Ok(())
}

} // verus!
