use vstd::prelude::*;
use crate::errors::ParseError;
use crate::tree::{JsonTree, TreeV};

verus! {

#[verifier::external_type_specification]
#[verifier::external_body]
pub struct ExValue(serde_json::Value);

/// The translation tree a text parses to, or nothing where the text is
/// not a JSON document. Both depend on the text alone.
pub uninterp spec fn parsed_tree(text: Seq<char>) -> Option<TreeV>;

/// The pretty-printed JSON text of a translation tree; it depends on
/// the tree alone.
pub uninterp spec fn pretty_text_of(t: TreeV) -> Seq<char>;

/// Relies on serde_json::from_str::<serde_json::Value>: whether a text
/// parses as JSON, and the value it parses to, are functions of the
/// text alone.
#[verifier::external_body]
fn parse_json_text(text: &str) -> (r: Option<JsonTree>)
    ensures
        r is Some <==> parsed_tree(text@) is Some,
        r is Some ==> r->Some_0@ == parsed_tree(text@)->Some_0,
{
    serde_json::from_str::<serde_json::Value>(text).ok().map(|v| value_to_tree(&v))
}

/// The conversion half of `parse_json_text`. Relies on
/// serde_json::Value: an object holds each key once and iterates its
/// entries in a fixed order; a non-string scalar prints to its
/// canonical JSON text.
#[verifier::external_body]
fn value_to_tree(v: &serde_json::Value) -> JsonTree {
    match v {
        serde_json::Value::String(s) => JsonTree::Leaf(s.clone()),
        serde_json::Value::Object(m) => JsonTree::Obj(
            m.iter().map(|(k, c)| (k.clone(), value_to_tree(c))).collect(),
        ),
        other => JsonTree::Leaf(other.to_string()),
    }
}

/// Relies on serde_json::to_string_pretty: the pretty text of a value
/// is a function of the value alone, and serializing an object tree of
/// string leaves cannot fail (only a map with non-string keys can).
#[verifier::external_body]
pub(crate) fn tree_to_pretty(t: &JsonTree) -> (r: String)
    ensures
        r@ == pretty_text_of(t@),
{
    match serde_json::to_string_pretty(&tree_to_value(t)) {
        Ok(s) => s,
        Err(_) => String::new(),
    }
}

/// The conversion half of `tree_to_pretty`: the tree as a serde_json
/// value, object keys in serde_json's own (sorted) order.
#[verifier::external_body]
fn tree_to_value(t: &JsonTree) -> serde_json::Value {
    match t {
        JsonTree::Leaf(s) => serde_json::Value::String(s.clone()),
        JsonTree::Obj(es) => serde_json::Value::Object(
            es.iter().map(|(k, c)| (k.clone(), tree_to_value(c))).collect(),
        ),
    }
}

/// Parses a JSON text into a translation tree. Every scalar of the
/// document becomes a text leaf; arrays and other composite leaves are
/// kept whole as their rendered text.
pub fn parse_tree(text: &str) -> (r: Result<JsonTree, ParseError>)
    ensures
        r is Ok <==> parsed_tree(text@) is Some,
        r is Ok ==> r->Ok_0@ == parsed_tree(text@)->Some_0,
{
    match parse_json_text(text) {
        Some(t) => Ok(t),
        None => Err(ParseError),
    }
}

} // verus!
