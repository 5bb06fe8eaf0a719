use vstd::prelude::*;

verus! {

/// A JSON document, holding what the configuration reader looks at.
#[derive(Debug)]
pub enum Json {
    /// `null`.
    Null,
    /// `true` or `false`.
    Bool(bool),
    /// A number: the integer when it is a non-negative one that fits in `u64`,
    /// `None` for any other number.
    Number(Option<u64>),
    /// A string.
    Str(String),
    /// An array.
    Array(Vec<Json>),
    /// An object: its members, each key once, in the order of the keys.
    Object(Vec<(String, Json)>),
}

#[verifier::external_type_specification]
#[verifier::external_body]
pub struct ExJsonValue(serde_json::Value);

/// The document that `serde_json::from_str` reads from a text, or `None`
/// where the text is not JSON.
pub uninterp spec fn json_document(text: Seq<char>) -> Option<Json>;

/// Reads a JSON document with `serde_json::from_str`.
///
/// Claims that the result depends on the text alone; what the document holds
/// is carried over member by member from the `serde_json::Value` that was read.
#[verifier::external_body]
pub(crate) fn read_json(text: &str) -> (r: Option<Json>)
    ensures
        r == json_document(text@),
{
    match serde_json::from_str::<serde_json::Value>(text) {
        Ok(v) => Some(json_of_value(v)),
        Err(_) => None,
    }
}

/// Carries a `serde_json::Value` over into a `Json`, variant by variant; a
/// number keeps what `serde_json::Number::as_u64` gives, an object its members
/// in the order in which `serde_json::Map` yields them.
#[verifier::external_body]
fn json_of_value(v: serde_json::Value) -> Json {
    match v {
        serde_json::Value::Null => Json::Null,
        serde_json::Value::Bool(b) => Json::Bool(b),
        serde_json::Value::Number(n) => Json::Number(n.as_u64()),
        serde_json::Value::String(s) => Json::Str(s),
        serde_json::Value::Array(a) => Json::Array(a.into_iter().map(json_of_value).collect()),
        serde_json::Value::Object(m) => Json::Object(
            m.into_iter().map(|(k, v)| (k, json_of_value(v))).collect(),
        ),
    }
}

/// The value of the first member of `fields` whose key is `key`.
pub open spec fn member(fields: Seq<(String, Json)>, key: Seq<char>) -> Option<Json>
    decreases fields.len(),
{
    if fields.len() == 0 {
        None
    } else if fields[0].0@ == key {
        Some(fields[0].1)
    } else {
        member(fields.drop_first(), key)
    }
}

/// The value of the member of `fields` whose key is `key`.
pub fn get_member<'a>(fields: &'a Vec<(String, Json)>, key: &str) -> (r: Option<&'a Json>)
    ensures
        match r {
            Some(v) => member(fields@, key@) == Some(*v),
            None => member(fields@, key@) is None,
        },
{
    let k = String::from_str(key);
    let mut i: usize = 0;
    assert(fields@.skip(0) =~= fields@);
    while i < fields.len()
        invariant
            i <= fields@.len(),
            k@ == key@,
            member(fields@, key@) == member(fields@.skip(i as int), key@),
        decreases fields@.len() - i,
    {
        let ghost rest = fields@.skip(i as int);
        assert(rest[0] == fields@[i as int]);
        assert(rest.drop_first() =~= fields@.skip(i + 1));
        if fields[i].0 == k {
            return Some(&fields[i].1);
        }
        i = i + 1;
    }
    None
}

} // verus!
