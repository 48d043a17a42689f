use vstd::prelude::*;

use crate::json::{JsonEntry, JsonValue, JV};

verus! {

/// The document that parsing a text as JSON yields, if it is valid JSON:
/// the result of `serde_json::from_str`, with every number carried by the
/// canonical text serde_json renders for it.
pub uninterp spec fn parsed_json(s: Seq<char>) -> Option<JV>;

/// The canonical text of the product of two JSON numbers, both given by
/// their texts, under binary floating point as `serde_json` computes it;
/// nothing when either text is not a number or the product is not finite.
pub uninterp spec fn product_text(a: Seq<char>, b: Seq<char>) -> Option<Seq<char>>;

/// The canonical text of the quotient of two JSON numbers, as
/// `product_text` but for division.
pub uninterp spec fn quotient_text(a: Seq<char>, b: Seq<char>) -> Option<Seq<char>>;

/// The parsed document type of `serde_json`, opaque to the library: a
/// value of it is only ever carried from the parse call into the
/// conversion below.
#[verifier::external_type_specification]
#[verifier::external_body]
pub struct ExValue(serde_json::Value);

// Part of the `parse_json` wrapper below: rebuilds a parsed
// `serde_json::Value` tree as the library's own document type, one
// variant for one variant, numbers by the text serde_json renders.
#[verifier::external_body]
fn value_to_json(v: &serde_json::Value) -> JsonValue {
    match v {
        serde_json::Value::Null => JsonValue::Null,
        serde_json::Value::Bool(b) => JsonValue::Bool(*b),
        serde_json::Value::Number(n) => JsonValue::Num(n.to_string()),
        serde_json::Value::String(s) => JsonValue::Str(s.clone()),
        serde_json::Value::Array(items) => JsonValue::Arr(
            items.iter().map(value_to_json).collect(),
        ),
        serde_json::Value::Object(entries) => JsonValue::Obj(
            entries.iter().map(
                |(k, x)| JsonEntry { name: k.clone(), value: value_to_json(x) },
            ).collect(),
        ),
    }
}

/// Relies on `serde_json::from_str::<serde_json::Value>`: parses a JSON
/// document; the parse depends on the text alone. Object entries come
/// back in the order serde_json's map yields them.
#[verifier::external_body]
pub fn parse_json(text: &str) -> (r: Option<JsonValue>)
    ensures
        r is Some <==> parsed_json(text@) is Some,
        r matches Some(v) ==> v.jv() == parsed_json(text@)->Some_0,
{
    let v: serde_json::Value = serde_json::from_str(text).ok()?;
    Some(value_to_json(&v))
}

/// Relies on `serde_json::Number`: parses both texts as JSON numbers,
/// multiplies them as 64-bit floats, and renders the product canonically;
/// `Number::from_f64` refuses a product that is not finite. The result
/// depends on the two texts alone.
#[verifier::external_body]
pub fn mul_number_text(a: &str, b: &str) -> (r: Option<String>)
    ensures
        r is Some <==> product_text(a@, b@) is Some,
        r matches Some(p) ==> p@ == product_text(a@, b@)->Some_0,
{
    let an: serde_json::Number = serde_json::from_str(a).ok()?;
    let bn: serde_json::Number = serde_json::from_str(b).ok()?;
    let p = serde_json::Number::from_f64(an.as_f64()? * bn.as_f64()?)?;
    Some(p.to_string())
}

/// Relies on `serde_json::Number`: as `mul_number_text`, dividing the
/// first number by the second.
#[verifier::external_body]
pub fn div_number_text(a: &str, b: &str) -> (r: Option<String>)
    ensures
        r is Some <==> quotient_text(a@, b@) is Some,
        r matches Some(p) ==> p@ == quotient_text(a@, b@)->Some_0,
{
    let an: serde_json::Number = serde_json::from_str(a).ok()?;
    let bn: serde_json::Number = serde_json::from_str(b).ok()?;
    let p = serde_json::Number::from_f64(an.as_f64()? / bn.as_f64()?)?;
    Some(p.to_string())
}

} // verus!
