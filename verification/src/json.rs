use vstd::prelude::*;
use crate::fill::data_view;
use crate::text::push_str_chars;

verus! {

broadcast use vstd::seq::group_seq_axioms;

// ---------------------------------------------------------------------------
// The data file: a JSON object of field names and values.
// ---------------------------------------------------------------------------

/// A member value of the data file.
pub enum JsonValue {
    Null,
    Bool(bool),
    /// A number, written as JSON writes it.
    Number(String),
    Str(String),
    /// An array or an object, written as JSON text.
    Other(String),
}

/// The mathematical value of a member value.
pub enum JsonView {
    Null,
    Bool(bool),
    Number(Seq<char>),
    Str(Seq<char>),
    Other(Seq<char>),
}

impl View for JsonValue {
    type V = JsonView;

    open spec fn view(&self) -> JsonView {
        match self {
            JsonValue::Null => JsonView::Null,
            JsonValue::Bool(b) => JsonView::Bool(*b),
            JsonValue::Number(t) => JsonView::Number(t@),
            JsonValue::Str(t) => JsonView::Str(t@),
            JsonValue::Other(t) => JsonView::Other(t@),
        }
    }
}

/// The members of an object, as names and values.
pub open spec fn members_view(m: Seq<(String, JsonValue)>) -> Seq<(Seq<char>, JsonView)> {
    m.map_values(|p: (String, JsonValue)| (p.0@, p.1@))
}

#[verifier::external_type_specification]
#[verifier::external_body]
pub struct ExJsonError(serde_json::Error);

/// The members that `serde_json::from_str` reads from `s` as a JSON object, in key
/// order, each value held as a `JsonView`; `None` where `s` is not a JSON object.
pub uninterp spec fn json_object_members(s: Seq<char>) -> Option<Seq<(Seq<char>, JsonView)>>;

/// Calls `serde_json::from_str` to read a JSON object (`serde_json::Map`, ordered by key)
/// and hands out its members, a number as the text serde_json writes for it and an array
/// or object as its JSON text. Claimed: the outcome is a function of `s` alone,
/// `json_object_members(s@)`; which texts are JSON objects, and the error, are not stated.
#[verifier::external_body]
fn parse_json_object(s: &str) -> (r: Result<Vec<(String, JsonValue)>, serde_json::Error>)
    ensures
        match r {
            Ok(m) => json_object_members(s@) == Some(members_view(m@)),
            Err(_) => json_object_members(s@) is None,
        },
{
    let m = serde_json::from_str::<serde_json::Map<String, serde_json::Value>>(s)?;
    Ok(m.into_iter().map(|(k, v)| {
        let j = match v {
            serde_json::Value::Null => JsonValue::Null,
            serde_json::Value::Bool(b) => JsonValue::Bool(b),
            serde_json::Value::Number(n) => JsonValue::Number(n.to_string()),
            serde_json::Value::String(t) => JsonValue::Str(t),
            other => JsonValue::Other(other.to_string()),
        };
        (k, j)
    }).collect())
}

/// Calls the `Display` of `serde_json::Error`: the message of a parse error. Nothing is
/// claimed of the text.
#[verifier::external_body]
fn json_error_message(e: &serde_json::Error) -> String {
    e.to_string()
}

/// The text a field gets from a member value: strings as they are, numbers and nested
/// values as JSON text, booleans as `true` or `false`; none from null.
pub open spec fn json_text(v: JsonView) -> Option<Seq<char>> {
    match v {
        JsonView::Null => None,
        JsonView::Bool(b) => Some(
            if b {
                "true"@
            } else {
                "false"@
            },
        ),
        JsonView::Number(t) => Some(t),
        JsonView::Str(t) => Some(t),
        JsonView::Other(t) => Some(t),
    }
}

/// The field values given by the members `m`: every member whose value is not null,
/// with its value as text, in order.
pub open spec fn spec_data_from_json(m: Seq<(Seq<char>, JsonView)>) -> Seq<(Seq<char>, Seq<char>)>
    decreases m.len(),
{
    if m.len() == 0 {
        Seq::empty()
    } else {
        let rest = spec_data_from_json(m.drop_last());
        match json_text(m.last().1) {
            Some(t) => rest.push((m.last().0, t)),
            None => rest,
        }
    }
}

/// A copy of `s`.
fn copy_text(s: &str) -> (r: String)
    ensures
        r@ == s@,
{
    let c = crate::text::chars_of(s);
    crate::text::string_from_chars(c.as_slice())
}

/// The text of a member value.
fn value_text(v: &JsonValue) -> (r: Option<String>)
    ensures
        match r {
            Some(t) => json_text(v@) == Some(t@),
            None => json_text(v@) is None,
        },
{
    match v {
        JsonValue::Null => None,
        JsonValue::Bool(b) => {
            let mut chars: Vec<char> = Vec::new();
            if *b {
                push_str_chars(&mut chars, "true");
            } else {
                push_str_chars(&mut chars, "false");
            }
            Some(crate::text::string_from_chars(chars.as_slice()))
        },
        JsonValue::Number(t) => Some(copy_text(t.as_str())),
        JsonValue::Str(t) => Some(copy_text(t.as_str())),
        JsonValue::Other(t) => Some(copy_text(t.as_str())),
    }
}

/// The field values given by the members of the data object: null members are
/// skipped, the others have their value as text.
pub fn data_from_json(members: &[(String, JsonValue)]) -> (r: Vec<(String, String)>)
    ensures
        data_view(r@) == spec_data_from_json(members_view(members@)),
{
    let ghost m = members_view(members@);
    let mut out: Vec<(String, String)> = Vec::new();
    let mut i: usize = 0;
    assert(m.take(0) =~= Seq::<(Seq<char>, JsonView)>::empty());
    while i < members.len()
        invariant
            m == members_view(members@),
            0 <= i <= members@.len(),
            data_view(out@) == spec_data_from_json(m.take(i as int)),
        decreases members@.len() - i,
    {
        assert(m.take(i + 1).drop_last() =~= m.take(i as int));
        assert(m.take(i + 1).last() == (members@[i as int].0@, members@[i as int].1@));
        match value_text(&members[i].1) {
            Some(t) => {
                let k = copy_text(members[i].0.as_str());
                let ghost before = data_view(out@);
                out.push((k, t));
                assert(data_view(out@) =~= before.push((members@[i as int].0@, t@)));
            },
            None => {},
        }
        i = i + 1;
    }
    assert(m.take(members@.len() as int) =~= m);
    out
}

/// Reads the field values of a data file: a JSON object whose members name fields.
/// Null members are skipped; the others give their value as text. An error carries
/// the parser's message.
pub fn parse_data(json: &str) -> (r: Result<Vec<(String, String)>, String>)
    ensures
        r is Ok <==> json_object_members(json@) is Some,
        r matches Ok(d) ==> data_view(d@) == spec_data_from_json(json_object_members(json@)->Some_0),
{
    match parse_json_object(json) {
        Ok(members) => Ok(data_from_json(members.as_slice())),
        Err(e) => Err(json_error_message(&e)),
    }
}

} // verus!
