//! JSON texts of one object, whose values are plain or objects of plain values.

use vstd::prelude::*;
use vstd::utf8::*;

verus! {

/// What stands at a place of a JSON text.
#[derive(Debug)]
pub enum Leaf {
    /// A text, in UTF-8.
    Text(Vec<u8>),
    /// A number, as the unsigned and the signed integer that it is, where it is
    /// one.
    Number(Option<u64>, Option<i64>),
    /// An object, by its keys.
    Keys(Vec<String>),
    /// Nothing, or something else.
    Other,
}

/// What stands at a place, by content.
#[verifier::ext_equal]
pub enum LeafModel {
    Text(Seq<u8>),
    Number(Option<u64>, Option<i64>),
    Keys(Seq<Seq<char>>),
    Other,
}

impl Leaf {
    pub open spec fn model(&self) -> LeafModel {
        match self {
            Leaf::Text(text) => LeafModel::Text(text@),
            Leaf::Number(unsigned, signed) => LeafModel::Number(*unsigned, *signed),
            Leaf::Keys(keys) => LeafModel::Keys(keys@.map_values(|key: String| key@)),
            Leaf::Other => LeafModel::Other,
        }
    }
}

pub open spec fn found_model(found: Option<Leaf>) -> Option<LeafModel> {
    match found {
        Some(leaf) => Some(leaf.model()),
        None => None,
    }
}

pub open spec fn name_model(name: Option<&'static str>) -> Option<Seq<char>> {
    match name {
        Some(name) => Some(name@),
        None => None,
    }
}

/// What stands in a JSON text under a key, or under a key of the object there;
/// without keys, the text as a whole. Of a text that is no JSON there is
/// nothing.
pub uninterp spec fn json_at(
    text: Seq<u8>,
    outer: Option<Seq<char>>,
    inner: Option<Seq<char>>,
) -> Option<LeafModel>;

/// The JSON text of an object with these values.
pub uninterp spec fn json_text(
    values: Seq<(Seq<char>, Option<Seq<char>>, LeafModel)>,
) -> Seq<u8>;

/// `serde_json::from_slice` and `Value`'s index by keys: what stands at a place
/// of a text, where the text is JSON. The text and the keys decide it; a text
/// that stands there is in UTF-8.
#[verifier::external_body]
pub(crate) fn look(text: &[u8], outer: Option<&'static str>, inner: Option<&'static str>) -> (found:
    Option<Leaf>)
    ensures
        found_model(found) == json_at(text@, name_model(outer), name_model(inner)),
        found matches Some(Leaf::Text(text)) ==> valid_utf8(text@),
{
    let root: serde_json::Value = serde_json::from_slice(text).ok()?;
    let found = match (outer, inner) {
        (Some(outer), Some(inner)) => &root[outer][inner],
        (Some(outer), None) => &root[outer],
        _ => &root,
    };
    Some(match found {
        serde_json::Value::String(text) => Leaf::Text(text.as_bytes().to_vec()),
        serde_json::Value::Number(number) => Leaf::Number(number.as_u64(), number.as_i64()),
        serde_json::Value::Object(map) => Leaf::Keys(map.keys().cloned().collect()),
        _ => Leaf::Other,
    })
}

/// Whether a number is the same integer both ways.
pub open spec fn whole(unsigned: Option<u64>, signed: Option<i64>) -> bool {
    match unsigned {
        Some(value) => signed == if value <= i64::MAX {
            Some(value as i64)
        } else {
            None
        },
        None => signed matches Some(value) && value < 0,
    }
}

/// Whether a value can be written: a text in UTF-8 or an integer.
pub open spec fn writable(leaf: LeafModel) -> bool {
    match leaf {
        LeafModel::Text(text) => valid_utf8(text),
        LeafModel::Number(unsigned, signed) => whole(unsigned, signed),
        _ => false,
    }
}

/// Whether two places do not get in each other's way.
pub open spec fn apart(
    left: (Seq<char>, Option<Seq<char>>, LeafModel),
    right: (Seq<char>, Option<Seq<char>>, LeafModel),
) -> bool {
    left.0 == right.0 ==> left.1 is Some && right.1 is Some && left.1 != right.1
}

pub open spec fn value_models(
    values: Seq<(&'static str, Option<&'static str>, Leaf)>,
) -> Seq<(Seq<char>, Option<Seq<char>>, LeafModel)> {
    values.map_values(
        |value: (&'static str, Option<&'static str>, Leaf)|
            (value.0@, name_model(value.1), value.2.model()),
    )
}

/// Whether a text holds these values, each at its place, and has no other keys.
pub open spec fn holds(
    text: Seq<u8>,
    values: Seq<(Seq<char>, Option<Seq<char>>, LeafModel)>,
) -> bool {
    &&& forall|i: int|
        0 <= i < values.len() ==> json_at(
            text,
            Some((#[trigger] values[i]).0),
            values[i].1,
        ) == Some(values[i].2)
    &&& json_at(text, None, None) matches Some(LeafModel::Keys(keys)) && keys.no_duplicates()
        && keys.to_set() == values.map_values(
        |value: (Seq<char>, Option<Seq<char>>, LeafModel)| value.0,
    ).to_set()
}

/// `Value`'s mutable index by keys and `serde_json::to_vec_pretty`: the text of
/// an object with these values, which alone decide it. Reading the text gives
/// them back, also behind a line feed, and no other keys.
#[verifier::external_body]
pub(crate) fn render(values: &Vec<(&'static str, Option<&'static str>, Leaf)>) -> (text: Vec<u8>)
    requires
        values@.len() > 0,
        forall|i: int, j: int|
            0 <= i < j < values@.len() ==> apart(
                #[trigger] value_models(values@)[i],
                #[trigger] value_models(values@)[j],
            ),
        forall|i: int|
            0 <= i < values@.len() ==> writable((#[trigger] value_models(values@)[i]).2),
    ensures
        text@ == json_text(value_models(values@)),
        holds(text@.push(10), value_models(values@)),
{
    let mut root = serde_json::Value::Null;
    for (outer, inner, leaf) in values {
        let place = match inner {
            Some(inner) => &mut root[*outer][*inner],
            None => &mut root[*outer],
        };
        *place = match leaf {
            Leaf::Text(text) => serde_json::Value::from(String::from_utf8_lossy(text)),
            Leaf::Number(Some(number), _) => serde_json::Value::from(*number),
            Leaf::Number(_, Some(number)) => serde_json::Value::from(*number),
            _ => serde_json::Value::Null,
        };
    }
    serde_json::to_vec_pretty(&root).unwrap_or_default()
}

} // verus!
