//! JSON values, as `serde_json` holds, reads and writes them.
//!
//! A value is known by its tree. What each call of `serde_json` does to trees
//! is stated at the function that makes the call, and believed; the trees that
//! the rest of the library builds with them are proved.

use crate::double::Double;
use vstd::prelude::*;

verus! {

/// What a JSON value is. Numbers are kept apart as `serde_json` keeps them
/// apart: integers that are not negative, negative integers, and doubles.
pub enum JsonTree {
    Null,
    Bool(bool),
    Count(nat),
    Negative(int),
    Number(Double),
    Text(Seq<char>),
    List(Seq<JsonTree>),
    Object(Map<Seq<char>, JsonTree>),
}

/// `serde_json::Value`, known by its tree.
#[verifier::external_type_specification]
#[verifier::external_body]
pub struct ExJsonValue(serde_json::Value);

/// `serde_json::Error`, carried through unopened.
#[verifier::external_type_specification]
#[verifier::external_body]
pub struct ExJsonError(serde_json::Error);

/// The tree of a `serde_json::Value`.
pub uninterp spec fn json_tree(v: serde_json::Value) -> JsonTree;

/// What `serde_json` reads a text as; none where it refuses the text.
pub uninterp spec fn json_parsed(text: Seq<char>) -> Option<JsonTree>;

/// The compact text that `serde_json` writes for a tree, keys in their order.
pub uninterp spec fn json_text(tree: JsonTree) -> Seq<char>;

/// The indented text that `serde_json` writes for a list of trees.
pub uninterp spec fn json_pretty(trees: Seq<JsonTree>) -> Seq<char>;

/// The trees of some values.
pub open spec fn json_trees(vs: Seq<serde_json::Value>) -> Seq<JsonTree> {
    vs.map_values(|v: serde_json::Value| json_tree(v))
}

/// The members of an object, given one after the other: a key that comes again
/// takes its last value.
pub open spec fn members(entries: Seq<(Seq<char>, JsonTree)>) -> Map<Seq<char>, JsonTree>
    decreases entries.len(),
{
    if entries.len() == 0 {
        Map::empty()
    } else {
        members(entries.drop_last()).insert(entries.last().0, entries.last().1)
    }
}

/// The keys and trees of some entries.
pub open spec fn entry_trees(entries: Seq<(String, serde_json::Value)>) -> Seq<
    (Seq<char>, JsonTree),
> {
    entries.map_values(|e: (String, serde_json::Value)| (e.0@, json_tree(e.1)))
}

/// `serde_json::Value::Null` is the JSON null.
#[verifier::external_body]
pub(crate) fn json_null() -> (r: serde_json::Value)
    ensures
        json_tree(r) == JsonTree::Null,
{
    serde_json::Value::Null
}

/// `serde_json::Value::Bool` makes a JSON boolean.
#[verifier::external_body]
pub(crate) fn json_bool(b: bool) -> (r: serde_json::Value)
    ensures
        json_tree(r) == JsonTree::Bool(b),
{
    serde_json::Value::Bool(b)
}

/// `From<u64>` for `serde_json::Value` makes a JSON number that is not
/// negative.
#[verifier::external_body]
pub(crate) fn json_count(n: u64) -> (r: serde_json::Value)
    ensures
        json_tree(r) == JsonTree::Count(n as nat),
{
    serde_json::Value::from(n)
}

/// `serde_json::Value::String` makes a JSON string of a text.
#[verifier::external_body]
pub(crate) fn json_string(s: &str) -> (r: serde_json::Value)
    ensures
        json_tree(r) == JsonTree::Text(s@),
{
    serde_json::Value::String(s.to_string())
}

/// `serde_json::Value::Array` makes a JSON array of some values.
#[verifier::external_body]
pub(crate) fn json_list(items: Vec<serde_json::Value>) -> (r: serde_json::Value)
    ensures
        json_tree(r) == JsonTree::List(json_trees(items@)),
{
    serde_json::Value::Array(items)
}

/// `FromIterator` for `serde_json::Map` collects entries into an object, in
/// which a key that comes again takes its last value.
#[verifier::external_body]
pub(crate) fn json_object(entries: Vec<(String, serde_json::Value)>) -> (r: serde_json::Value)
    ensures
        json_tree(r) == JsonTree::Object(members(entry_trees(entries@))),
{
    serde_json::Value::Object(entries.into_iter().collect())
}

/// `Display` for `serde_json::Value` writes a value as compact JSON, which
/// depends on its tree alone.
#[verifier::external_body]
pub(crate) fn to_text(v: &serde_json::Value) -> (r: String)
    ensures
        r@ == json_text(json_tree(*v)),
{
    v.to_string()
}

/// `serde_json::to_string_pretty` writes values as indented JSON, which
/// depends on their trees alone. It fails where a value's own `Serialize` does
/// or where a key is no string, and neither happens with `serde_json::Value`.
#[verifier::external_body]
pub(crate) fn to_pretty_text(vs: &Vec<serde_json::Value>) -> (r: Result<String, serde_json::Error>)
    ensures
        r is Ok,
        r->Ok_0@ == json_pretty(json_trees(vs@)),
{
    serde_json::to_string_pretty(vs)
}

/// `serde_json::from_str::<serde_json::Value>` reads a text as a JSON value,
/// which depends on the text alone, or refuses it.
#[verifier::external_body]
pub(crate) fn parse(text: &str) -> (r: Result<serde_json::Value, serde_json::Error>)
    ensures
        match r {
            Ok(v) => json_parsed(text@) == Some(json_tree(v)),
            Err(_) => json_parsed(text@) is None,
        },
{
    serde_json::from_str(text)
}

/// `serde_json::Value::get` finds a key in an object, and nothing in any other
/// value.
#[verifier::external_body]
pub(crate) fn has_key(v: &serde_json::Value, key: &str) -> (r: bool)
    ensures
        r == (json_tree(*v) matches JsonTree::Object(m) && m.contains_key(key@)),
{
    v.get(key).is_some()
}

/// A number maker makes a JSON number of every finite double, with that very
/// double in it.
pub open spec fn is_number_maker<N: Fn(Double) -> serde_json::Value>(f: N) -> bool {
    &&& forall|x: Double| x.finite() ==> call_requires(f, (x,))
    &&& forall|x: Double, r: serde_json::Value|
        x.finite() && call_ensures(f, (x,), r) ==> json_tree(r) == JsonTree::Number(x)
}

/// A double in JSON, which has no infinity and no NaN: null takes their place.
pub open spec fn number_tree(x: Double) -> JsonTree {
    if x.finite() {
        JsonTree::Number(x)
    } else {
        JsonTree::Null
    }
}

/// A double as a JSON value.
pub fn json_double<N: Fn(Double) -> serde_json::Value>(number: &N, x: Double) -> (r:
    serde_json::Value)
    requires
        is_number_maker(*number),
    ensures
        json_tree(r) == number_tree(x),
{
    if x.is_finite() {
        number(x)
    } else {
        json_null()
    }
}

/// A number that may be missing, as JSON.
pub open spec fn optional_count(n: Option<u64>) -> JsonTree {
    match n {
        Some(n) => JsonTree::Count(n as nat),
        None => JsonTree::Null,
    }
}

/// A number that may be missing, as a JSON value.
pub fn json_optional(n: Option<u64>) -> (r: serde_json::Value)
    ensures
        json_tree(r) == optional_count(n),
{
    match n {
        Some(n) => json_count(n),
        None => json_null(),
    }
}

/// An object whose keys are all different has each entry under its own key, and
/// no other keys.
pub proof fn lemma_own_members(entries: Seq<(Seq<char>, JsonTree)>)
    requires
        forall|i: int, j: int|
            0 <= i < j < entries.len() ==> (#[trigger] entries[i]).0 != (#[trigger] entries[j]).0,
    ensures
        forall|i: int|
            0 <= i < entries.len() ==> members(entries).contains_key((#[trigger] entries[i]).0)
                && members(entries)[entries[i].0] == entries[i].1,
        forall|key: Seq<char>| #[trigger]
            members(entries).contains_key(key) ==> exists|i: int|
                0 <= i < entries.len() && (#[trigger] entries[i]).0 == key,
    decreases entries.len(),
{
    if entries.len() > 0 {
        let init = entries.drop_last();
        assert forall|i: int, j: int| 0 <= i < j < init.len() implies (#[trigger] init[i]).0
            != (#[trigger] init[j]).0 by {
            assert(init[i] == entries[i] && init[j] == entries[j]);
        }
        lemma_own_members(init);
        assert forall|i: int| 0 <= i < entries.len() implies members(entries).contains_key(
            (#[trigger] entries[i]).0,
        ) && members(entries)[entries[i].0] == entries[i].1 by {
            if i < init.len() {
                assert(init[i] == entries[i]);
                assert(entries[entries.len() - 1].0 != entries[i].0);
            }
        }
        assert forall|key: Seq<char>| #[trigger] members(entries).contains_key(key) implies exists|
            i: int,
        |
            0 <= i < entries.len() && (#[trigger] entries[i]).0 == key by {
            if members(init).contains_key(key) {
                let i = choose|i: int| 0 <= i < init.len() && (#[trigger] init[i]).0 == key;
                assert(entries[i].0 == key);
            } else {
                assert(entries[entries.len() - 1].0 == key);
            }
        }
    }
}

} // verus!
