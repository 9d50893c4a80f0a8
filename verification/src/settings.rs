//! Project settings patches: a canonical CBOR array of fifteen positional fields, each of a
//! fixed shape, read strictly with a named error for the first field out of shape.

use vstd::prelude::*;
use crate::decode::decode;
use crate::error::{Code, LoomError};
use crate::spec::decode_bytes;
use crate::value::{codec_error_text, views, CborValue, Value};

verus! {

broadcast use {
    vstd::seq::group_seq_axioms,
    vstd::seq_lib::group_seq_properties,
    vstd::std_specs::vec::group_vec_axioms,
};

/// The shape a patch field must have.
pub enum PatchFieldKind {
    OptionalText,
    TextList,
    RequiredBool,
    OptionalBool,
    OptionalTextList,
}

/// The message for a patch field `name` that breaks a rule stated by `rule`.
pub open spec fn patch_message(name: Seq<char>, rule: Seq<char>) -> Seq<char> {
    "project settings patch "@ + name + rule
}

/// Whether every item is text.
pub open spec fn all_text(items: Seq<CborValue>) -> bool {
    forall|i: int| 0 <= i < items.len() ==> #[trigger] items[i] is Text
}

/// The texts of items that are all text.
pub open spec fn texts_of(items: Seq<CborValue>) -> Seq<Seq<char>> {
    Seq::new(items.len(), |i: int| items[i]->Text_0)
}

/// The message reported for a field `name` of shape `kind` holding `v`, or `None` when `v` has
/// the shape.
pub open spec fn patch_field_error(kind: PatchFieldKind, v: CborValue, name: Seq<char>) -> Option<Seq<char>> {
    match kind {
        PatchFieldKind::OptionalText => match v {
            CborValue::Null => None,
            CborValue::Text(_) => None,
            _ => Some(patch_message(name, " must be text or null"@)),
        },
        PatchFieldKind::RequiredBool => match v {
            CborValue::Bool(_) => None,
            _ => Some(patch_message(name, " must be bool"@)),
        },
        PatchFieldKind::OptionalBool => match v {
            CborValue::Null => None,
            CborValue::Bool(_) => None,
            _ => Some(patch_message(name, " must be bool or null"@)),
        },
        PatchFieldKind::TextList => match v {
            CborValue::Array(items) => if all_text(items) {
                None
            } else {
                Some(patch_message(name, " items must be text"@))
            },
            _ => Some(patch_message(name, " must be an array"@)),
        },
        PatchFieldKind::OptionalTextList => match v {
            CborValue::Null => None,
            CborValue::Array(items) => if all_text(items) {
                None
            } else {
                Some(patch_message(name, " items must be text"@))
            },
            _ => Some(patch_message(name, " must be an array or null"@)),
        },
    }
}

/// Each field shape accepts exactly its values: an optional text is text or null; a required
/// bool is a bool; an optional bool is a bool or null; a text list is an array of texts; an
/// optional text list is an array of texts or null. Anything else is refused.
pub proof fn law_patch_fields_accept_exactly_their_shapes(v: CborValue, name: Seq<char>)
    ensures
        patch_field_error(PatchFieldKind::OptionalText, v, name) is None <==> (v is Null || v is Text),
        patch_field_error(PatchFieldKind::RequiredBool, v, name) is None <==> v is Bool,
        patch_field_error(PatchFieldKind::OptionalBool, v, name) is None <==> (v is Null || v is Bool),
        patch_field_error(PatchFieldKind::TextList, v, name) is None <==> (v matches CborValue::Array(items)
            && forall|i: int| 0 <= i < items.len() ==> #[trigger] items[i] is Text),
        patch_field_error(PatchFieldKind::OptionalTextList, v, name) is None <==> (v is Null || (v matches CborValue::Array(
            items,
        ) && forall|i: int| 0 <= i < items.len() ==> #[trigger] items[i] is Text)),
{
}

/// The text an optional-text field holds.
pub open spec fn optional_text_of(v: CborValue) -> Option<Seq<char>> {
    match v {
        CborValue::Text(t) => Some(t),
        _ => None,
    }
}

/// The texts an optional text-list field holds.
pub open spec fn optional_texts_of(v: CborValue) -> Option<Seq<Seq<char>>> {
    match v {
        CborValue::Array(items) => Some(texts_of(items)),
        _ => None,
    }
}

/// The characters of each string.
pub open spec fn string_views(v: Seq<String>) -> Seq<Seq<char>> {
    Seq::new(v.len(), |i: int| v[i]@)
}

/// The characters of an optional string.
pub open spec fn optional_string_view(v: Option<String>) -> Option<Seq<char>> {
    match v {
        Some(s) => Some(s@),
        None => None,
    }
}

/// The characters of each string of an optional list.
pub open spec fn optional_strings_view(v: Option<Vec<String>>) -> Option<Seq<Seq<char>>> {
    match v {
        Some(s) => Some(string_views(s@)),
        None => None,
    }
}

/// A failure with class `InvalidArgument` and message `m`.
pub open spec fn is_invalid(e: LoomError, m: Seq<char>) -> bool {
    e.code == Code::InvalidArgument && e.message@ == m
}

/// The items of a patch: its bytes must decode to an array (`InvalidArgument` otherwise).
pub fn ticket_patch_array(bytes: &[u8]) -> (r: Result<Vec<Value>, LoomError>)
    ensures
        match decode_bytes(bytes@) {
            Err(e) => r matches Err(err) && is_invalid(err, "project settings patch: "@ + codec_error_text(e)),
            Ok(CborValue::Array(items)) => r matches Ok(v) && views(v@) == items,
            Ok(_) => r matches Err(err) && is_invalid(err, "project settings patch must be an array"@),
        },
{
    match decode(bytes) {
        Err(e) => {
            let message = String::from_str("project settings patch: ").concat(e.message());
            Err(LoomError::new(Code::InvalidArgument, message))
        },
        Ok(Value::Array(items)) => {
            proof {
                crate::value::lemma_array_view(items);
            }
            Ok(items)
        },
        Ok(_) => Err(LoomError::invalid("project settings patch must be an array")),
    }
}

/// An optional-text field: text or null.
pub fn patch_optional_text(value: &Value, field: &str) -> (r: Result<Option<String>, LoomError>)
    ensures
        match patch_field_error(PatchFieldKind::OptionalText, value@, field@) {
            Some(m) => r matches Err(e) && is_invalid(e, m),
            None => r matches Ok(t) && optional_string_view(t) == optional_text_of(value@),
        },
{
    match value {
        Value::Null => Ok(None),
        Value::Text(text) => Ok(Some(text.clone())),
        _ => {
            let message = String::from_str("project settings patch ").concat(field).concat(
                " must be text or null",
            );
            proof {
                assert(message@ =~= patch_message(field@, " must be text or null"@));
            }
            Err(LoomError::new(Code::InvalidArgument, message))
        },
    }
}

/// A required boolean field.
pub fn patch_required_bool(value: &Value, field: &str) -> (r: Result<bool, LoomError>)
    ensures
        match patch_field_error(PatchFieldKind::RequiredBool, value@, field@) {
            Some(m) => r matches Err(e) && is_invalid(e, m),
            None => r matches Ok(b) && value@ == CborValue::Bool(b),
        },
{
    match value {
        Value::Bool(b) => Ok(*b),
        _ => {
            let message = String::from_str("project settings patch ").concat(field).concat(" must be bool");
            proof {
                assert(message@ =~= patch_message(field@, " must be bool"@));
            }
            Err(LoomError::new(Code::InvalidArgument, message))
        },
    }
}

/// An optional boolean field: bool or null.
pub fn patch_optional_bool(value: &Value, field: &str) -> (r: Result<Option<bool>, LoomError>)
    ensures
        match patch_field_error(PatchFieldKind::OptionalBool, value@, field@) {
            Some(m) => r matches Err(e) && is_invalid(e, m),
            None => r matches Ok(b) && (value@ == CborValue::Null <==> b is None) && (b matches Some(x)
                ==> value@ == CborValue::Bool(x)),
        },
{
    match value {
        Value::Null => Ok(None),
        Value::Bool(b) => Ok(Some(*b)),
        _ => {
            let message = String::from_str("project settings patch ").concat(field).concat(
                " must be bool or null",
            );
            proof {
                assert(message@ =~= patch_message(field@, " must be bool or null"@));
            }
            Err(LoomError::new(Code::InvalidArgument, message))
        },
    }
}

/// A text-list field: an array of texts.
pub fn patch_text_list(value: &Value, field: &str) -> (r: Result<Vec<String>, LoomError>)
    ensures
        match patch_field_error(PatchFieldKind::TextList, value@, field@) {
            Some(m) => r matches Err(e) && is_invalid(e, m),
            None => r matches Ok(t) && string_views(t@) == texts_of(value@->Array_0),
        },
{
    match value {
        Value::Array(items) => {
            proof {
                crate::value::lemma_array_view(*items);
            }
            let ghost iv = views(items@);
            let mut out: Vec<String> = Vec::new();
            let mut i: usize = 0;
            while i < items.len()
                invariant
                    i <= items@.len(),
                    iv == views(items@),
                    value@ == CborValue::Array(iv),
                    out@.len() == i,
                    forall|j: int| 0 <= j < i ==> #[trigger] iv[j] is Text && out@[j]@ == iv[j]->Text_0,
                decreases items@.len() - i,
            {
                match &items[i] {
                    Value::Text(text) => {
                        out.push(text.clone());
                    },
                    _ => {
                        let message = String::from_str("project settings patch ").concat(field).concat(
                            " items must be text",
                        );
                        proof {
                            assert(!(iv[i as int] is Text));
                            assert(!all_text(iv));
                            assert(message@ =~= patch_message(field@, " items must be text"@));
                        }
                        return Err(LoomError::new(Code::InvalidArgument, message));
                    },
                }
                i = i + 1;
            }
            assert(string_views(out@) =~= texts_of(iv));
            Ok(out)
        },
        _ => {
            let message = String::from_str("project settings patch ").concat(field).concat(
                " must be an array",
            );
            proof {
                assert(message@ =~= patch_message(field@, " must be an array"@));
            }
            Err(LoomError::new(Code::InvalidArgument, message))
        },
    }
}

/// An optional text-list field: an array of texts, or null.
pub fn patch_optional_text_list(value: &Value, field: &str) -> (r: Result<Option<Vec<String>>, LoomError>)
    ensures
        match patch_field_error(PatchFieldKind::OptionalTextList, value@, field@) {
            Some(m) => r matches Err(e) && is_invalid(e, m),
            None => r matches Ok(t) && optional_strings_view(t) == optional_texts_of(value@),
        },
{
    match value {
        Value::Null => Ok(None),
        Value::Array(_) => {
            let list = patch_text_list(value, field)?;
            Ok(Some(list))
        },
        _ => {
            let message = String::from_str("project settings patch ").concat(field).concat(
                " must be an array or null",
            );
            proof {
                assert(message@ =~= patch_message(field@, " must be an array or null"@));
            }
            Err(LoomError::new(Code::InvalidArgument, message))
        },
    }
}

/// The number of positional fields of a project settings patch.
pub const PATCH_FIELD_COUNT: usize = 15;

/// The shape of patch field `i`.
pub open spec fn patch_field_kind(i: int) -> PatchFieldKind {
    if i == 1 || i == 2 {
        PatchFieldKind::TextList
    } else if i == 5 {
        PatchFieldKind::RequiredBool
    } else if i == 7 {
        PatchFieldKind::OptionalBool
    } else if i == 6 || i == 8 || i == 9 {
        PatchFieldKind::OptionalTextList
    } else {
        PatchFieldKind::OptionalText
    }
}

/// The name of patch field `i`.
pub open spec fn patch_field_name(i: int) -> Seq<char> {
    if i == 0 {
        "default_projection"@
    } else if i == 1 {
        "enable_projections"@
    } else if i == 2 {
        "disable_projections"@
    } else if i == 3 {
        "actor_enforcement"@
    } else if i == 4 {
        "project_owner_principal"@
    } else if i == 5 {
        "clear_project_owner_principal"@
    } else if i == 6 {
        "acceptance_authorities"@
    } else if i == 7 {
        "acceptance_evidence_enforcement"@
    } else if i == 8 {
        "required_acceptance_evidence_keys"@
    } else if i == 9 {
        "required_acceptance_reviews"@
    } else if i == 10 {
        "owner_contract_summary"@
    } else if i == 11 {
        "owner_contract_details"@
    } else if i == 12 {
        "worker_contract_summary"@
    } else if i == 13 {
        "worker_contract_details"@
    } else {
        "expected_root"@
    }
}

/// The order in which the fields are checked.
pub open spec fn patch_check_order() -> Seq<int> {
    seq![0, 1, 2, 3, 8, 9, 4, 5, 6, 7, 10, 11, 12, 13, 14]
}

/// The message of the first field, in checking order `order`, that is out of shape.
pub open spec fn first_patch_error(items: Seq<CborValue>, order: Seq<int>) -> Option<Seq<char>>
    decreases order.len(),
{
    if order.len() == 0 {
        None
    } else {
        match patch_field_error(patch_field_kind(order[0]), items[order[0]], patch_field_name(order[0])) {
            Some(m) => Some(m),
            None => first_patch_error(items, order.drop_first()),
        }
    }
}

/// A project settings patch, read field by field.
#[derive(Debug)]
pub struct ProjectSettingsPatch {
    pub default_projection: Option<String>,
    pub enable_projections: Vec<String>,
    pub disable_projections: Vec<String>,
    pub actor_enforcement: Option<String>,
    pub project_owner_principal: Option<String>,
    pub clear_project_owner_principal: bool,
    pub acceptance_authorities: Option<Vec<String>>,
    pub acceptance_evidence_enforcement: Option<bool>,
    pub required_acceptance_evidence_keys: Option<Vec<String>>,
    pub required_acceptance_reviews: Option<Vec<String>>,
    pub owner_contract_summary: Option<String>,
    pub owner_contract_details: Option<String>,
    pub worker_contract_summary: Option<String>,
    pub worker_contract_details: Option<String>,
    pub expected_root: Option<String>,
}

/// Whether `p` holds exactly what the fifteen `items` hold.
pub open spec fn patch_holds(p: ProjectSettingsPatch, items: Seq<CborValue>) -> bool {
    &&& optional_string_view(p.default_projection) == optional_text_of(items[0])
    &&& string_views(p.enable_projections@) == texts_of(items[1]->Array_0)
    &&& string_views(p.disable_projections@) == texts_of(items[2]->Array_0)
    &&& optional_string_view(p.actor_enforcement) == optional_text_of(items[3])
    &&& optional_string_view(p.project_owner_principal) == optional_text_of(items[4])
    &&& items[5] == CborValue::Bool(p.clear_project_owner_principal)
    &&& optional_strings_view(p.acceptance_authorities) == optional_texts_of(items[6])
    &&& (items[7] == CborValue::Null <==> p.acceptance_evidence_enforcement is None) && (p.acceptance_evidence_enforcement matches Some(x) ==> items[7] == CborValue::Bool(x))
    &&& optional_strings_view(p.required_acceptance_evidence_keys) == optional_texts_of(items[8])
    &&& optional_strings_view(p.required_acceptance_reviews) == optional_texts_of(items[9])
    &&& optional_string_view(p.owner_contract_summary) == optional_text_of(items[10])
    &&& optional_string_view(p.owner_contract_details) == optional_text_of(items[11])
    &&& optional_string_view(p.worker_contract_summary) == optional_text_of(items[12])
    &&& optional_string_view(p.worker_contract_details) == optional_text_of(items[13])
    &&& optional_string_view(p.expected_root) == optional_text_of(items[14])
}

/// Checking the first field of `order`, then the rest.
proof fn lemma_first_patch_error_step(items: Seq<CborValue>, order: Seq<int>)
    requires
        order.len() > 0,
    ensures
        first_patch_error(items, order) == match patch_field_error(
            patch_field_kind(order[0]),
            items[order[0]],
            patch_field_name(order[0]),
        ) {
            Some(m) => Some(m),
            None => first_patch_error(items, order.drop_first()),
        },
{
}

/// Read a project settings patch: canonical CBOR bytes holding an array of exactly fifteen
/// fields, each of its fixed shape. Reports the decode failure, a non-array, a wrong field
/// count, or else the first field out of shape in checking order.
#[verifier::rlimit(60)]
pub fn parse_project_settings_patch(bytes: &[u8]) -> (r: Result<ProjectSettingsPatch, LoomError>)
    ensures
        match decode_bytes(bytes@) {
            Err(e) => r matches Err(err) && is_invalid(err, "project settings patch: "@ + codec_error_text(e)),
            Ok(CborValue::Array(items)) => if items.len() != PATCH_FIELD_COUNT {
                r matches Err(err) && is_invalid(err, "project settings patch must have 15 fields"@)
            } else {
                match first_patch_error(items, patch_check_order()) {
                    Some(m) => r matches Err(err) && is_invalid(err, m),
                    None => r matches Ok(p) && patch_holds(p, items),
                }
            },
            Ok(_) => r matches Err(err) && is_invalid(err, "project settings patch must be an array"@),
        },
{
    let items = ticket_patch_array(bytes)?;
    if items.len() != PATCH_FIELD_COUNT {
        return Err(LoomError::invalid("project settings patch must have 15 fields"));
    }
    let ghost iv = views(items@);
    let ghost mut order = patch_check_order();
    proof {
        assert(iv.len() == 15);
    }
    proof {
        assert(order =~= patch_check_order().skip(0));
        assert(order[0] == 0);
        assert(items@[0]@ == iv[0]);
        lemma_first_patch_error_step(iv, order);
    }
    let default_projection = match patch_optional_text(&items[0], "default_projection") {
        Ok(v) => v,
        Err(e) => {
            return Err(e);
        },
    };
    proof {
        order = order.drop_first();
    }
    proof {
        assert(order =~= patch_check_order().skip(1));
        assert(order[0] == 1);
        assert(items@[1]@ == iv[1]);
        lemma_first_patch_error_step(iv, order);
    }
    let enable_projections = match patch_text_list(&items[1], "enable_projections") {
        Ok(v) => v,
        Err(e) => {
            return Err(e);
        },
    };
    proof {
        order = order.drop_first();
    }
    proof {
        assert(order =~= patch_check_order().skip(2));
        assert(order[0] == 2);
        assert(items@[2]@ == iv[2]);
        lemma_first_patch_error_step(iv, order);
    }
    let disable_projections = match patch_text_list(&items[2], "disable_projections") {
        Ok(v) => v,
        Err(e) => {
            return Err(e);
        },
    };
    proof {
        order = order.drop_first();
    }
    proof {
        assert(order =~= patch_check_order().skip(3));
        assert(order[0] == 3);
        assert(items@[3]@ == iv[3]);
        lemma_first_patch_error_step(iv, order);
    }
    let actor_enforcement = match patch_optional_text(&items[3], "actor_enforcement") {
        Ok(v) => v,
        Err(e) => {
            return Err(e);
        },
    };
    proof {
        order = order.drop_first();
    }
    proof {
        assert(order =~= patch_check_order().skip(4));
        assert(order[0] == 8);
        assert(items@[8]@ == iv[8]);
        lemma_first_patch_error_step(iv, order);
    }
    let required_acceptance_evidence_keys = match patch_optional_text_list(&items[8], "required_acceptance_evidence_keys") {
        Ok(v) => v,
        Err(e) => {
            return Err(e);
        },
    };
    proof {
        order = order.drop_first();
    }
    proof {
        assert(order =~= patch_check_order().skip(5));
        assert(order[0] == 9);
        assert(items@[9]@ == iv[9]);
        lemma_first_patch_error_step(iv, order);
    }
    let required_acceptance_reviews = match patch_optional_text_list(&items[9], "required_acceptance_reviews") {
        Ok(v) => v,
        Err(e) => {
            return Err(e);
        },
    };
    proof {
        order = order.drop_first();
    }
    proof {
        assert(order =~= patch_check_order().skip(6));
        assert(order[0] == 4);
        assert(items@[4]@ == iv[4]);
        lemma_first_patch_error_step(iv, order);
    }
    let project_owner_principal = match patch_optional_text(&items[4], "project_owner_principal") {
        Ok(v) => v,
        Err(e) => {
            return Err(e);
        },
    };
    proof {
        order = order.drop_first();
    }
    proof {
        assert(order =~= patch_check_order().skip(7));
        assert(order[0] == 5);
        assert(items@[5]@ == iv[5]);
        lemma_first_patch_error_step(iv, order);
    }
    let clear_project_owner_principal = match patch_required_bool(&items[5], "clear_project_owner_principal") {
        Ok(v) => v,
        Err(e) => {
            return Err(e);
        },
    };
    proof {
        order = order.drop_first();
    }
    proof {
        assert(order =~= patch_check_order().skip(8));
        assert(order[0] == 6);
        assert(items@[6]@ == iv[6]);
        lemma_first_patch_error_step(iv, order);
    }
    let acceptance_authorities = match patch_optional_text_list(&items[6], "acceptance_authorities") {
        Ok(v) => v,
        Err(e) => {
            return Err(e);
        },
    };
    proof {
        order = order.drop_first();
    }
    proof {
        assert(order =~= patch_check_order().skip(9));
        assert(order[0] == 7);
        assert(items@[7]@ == iv[7]);
        lemma_first_patch_error_step(iv, order);
    }
    let acceptance_evidence_enforcement = match patch_optional_bool(&items[7], "acceptance_evidence_enforcement") {
        Ok(v) => v,
        Err(e) => {
            return Err(e);
        },
    };
    proof {
        order = order.drop_first();
    }
    proof {
        assert(order =~= patch_check_order().skip(10));
        assert(order[0] == 10);
        assert(items@[10]@ == iv[10]);
        lemma_first_patch_error_step(iv, order);
    }
    let owner_contract_summary = match patch_optional_text(&items[10], "owner_contract_summary") {
        Ok(v) => v,
        Err(e) => {
            return Err(e);
        },
    };
    proof {
        order = order.drop_first();
    }
    proof {
        assert(order =~= patch_check_order().skip(11));
        assert(order[0] == 11);
        assert(items@[11]@ == iv[11]);
        lemma_first_patch_error_step(iv, order);
    }
    let owner_contract_details = match patch_optional_text(&items[11], "owner_contract_details") {
        Ok(v) => v,
        Err(e) => {
            return Err(e);
        },
    };
    proof {
        order = order.drop_first();
    }
    proof {
        assert(order =~= patch_check_order().skip(12));
        assert(order[0] == 12);
        assert(items@[12]@ == iv[12]);
        lemma_first_patch_error_step(iv, order);
    }
    let worker_contract_summary = match patch_optional_text(&items[12], "worker_contract_summary") {
        Ok(v) => v,
        Err(e) => {
            return Err(e);
        },
    };
    proof {
        order = order.drop_first();
    }
    proof {
        assert(order =~= patch_check_order().skip(13));
        assert(order[0] == 13);
        assert(items@[13]@ == iv[13]);
        lemma_first_patch_error_step(iv, order);
    }
    let worker_contract_details = match patch_optional_text(&items[13], "worker_contract_details") {
        Ok(v) => v,
        Err(e) => {
            return Err(e);
        },
    };
    proof {
        order = order.drop_first();
    }
    proof {
        assert(order =~= patch_check_order().skip(14));
        assert(order[0] == 14);
        assert(items@[14]@ == iv[14]);
        lemma_first_patch_error_step(iv, order);
    }
    let expected_root = match patch_optional_text(&items[14], "expected_root") {
        Ok(v) => v,
        Err(e) => {
            return Err(e);
        },
    };
    proof {
        order = order.drop_first();
    }
    proof {
        assert(order.len() == 0);
    }
    Ok(ProjectSettingsPatch {
        default_projection,
        enable_projections,
        disable_projections,
        actor_enforcement,
        project_owner_principal,
        clear_project_owner_principal,
        acceptance_authorities,
        acceptance_evidence_enforcement,
        required_acceptance_evidence_keys,
        required_acceptance_reviews,
        owner_contract_summary,
        owner_contract_details,
        worker_contract_summary,
        worker_contract_details,
        expected_root,
    })
}

} // verus!
