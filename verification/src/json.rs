//! JSON values of `serde_json`: how they are built, taken apart, written and read.

use crate::text::owned;
use vstd::prelude::*;

verus! {

/// A JSON value of `serde_json`.
#[verifier::external_type_specification]
#[verifier::external_body]
pub struct ExValue(serde_json::Value);

/// What a JSON value is: nothing, a truth value, a number without sign or fraction, any other
/// number by its digits, a text, a list, or an object with its members.
pub enum JsonTree {
    Null,
    Bool(bool),
    Number(u64),
    OtherNumber(Seq<char>),
    Text(Seq<char>),
    List(Seq<JsonTree>),
    Object(Map<Seq<char>, JsonTree>),
}

/// What a `serde_json::Value` holds.
pub uninterp spec fn value_tree(v: serde_json::Value) -> JsonTree;

/// What values hold.
pub open spec fn value_trees(v: Seq<serde_json::Value>) -> Seq<JsonTree> {
    v.map_values(|x: serde_json::Value| value_tree(x))
}

/// What fields hold.
pub open spec fn field_trees(v: Seq<(String, serde_json::Value)>) -> Seq<(Seq<char>, JsonTree)> {
    v.map_values(|p: (String, serde_json::Value)| (p.0@, value_tree(p.1)))
}

/// The members that fields make; of two fields of one name the later counts.
pub open spec fn members(s: Seq<(Seq<char>, JsonTree)>) -> Map<Seq<char>, JsonTree>
    decreases s.len(),
{
    if s.len() == 0 {
        Map::empty()
    } else {
        members(s.drop_last()).insert(s.last().0, s.last().1)
    }
}

/// Numbers, texts, and lists and objects of them, nested less than so deep.
pub open spec fn plain(t: JsonTree, depth: nat) -> bool
    decreases depth,
{
    depth > 0 && match t {
        JsonTree::Number(_) => true,
        JsonTree::Text(_) => true,
        JsonTree::List(s) => forall|i: int|
            0 <= i < s.len() ==> plain(#[trigger] s[i], (depth - 1) as nat),
        JsonTree::Object(m) => m.dom().finite() && forall|k: Seq<char>| #[trigger]
            m.contains_key(k) ==> plain(m[k], (depth - 1) as nat),
        _ => false,
    }
}

/// `serde_json::Value::from` on a number.
#[verifier::external_body]
pub(crate) fn number_value(n: u64) -> (r: serde_json::Value)
    ensures
        value_tree(r) == JsonTree::Number(n),
{
    serde_json::Value::from(n)
}

/// `serde_json::Value::from` on a text.
#[verifier::external_body]
pub(crate) fn text_value(s: &str) -> (r: serde_json::Value)
    ensures
        value_tree(r) == JsonTree::Text(s@),
{
    serde_json::Value::from(s)
}

/// `serde_json::Value::Array`: the list of the values.
#[verifier::external_body]
pub(crate) fn list_value(items: Vec<serde_json::Value>) -> (r: serde_json::Value)
    ensures
        value_tree(r) == JsonTree::List(value_trees(items@)),
{
    serde_json::Value::Array(items)
}

/// `serde_json::Value::Object` on the map collected from fields: of two fields of one name the later
/// counts, and the order of the fields does not.
#[verifier::external_body]
pub(crate) fn object_value(fields: Vec<(String, serde_json::Value)>) -> (r: serde_json::Value)
    ensures
        value_tree(r) == JsonTree::Object(members(field_trees(fields@))),
{
    serde_json::Value::Object(fields.into_iter().collect())
}

/// `serde_json::Value::get` with a name: the member of that name, where the value is an object that
/// has one.
#[verifier::external_body]
pub(crate) fn value_member<'a>(v: &'a serde_json::Value, name: &str) -> (r: Option<
    &'a serde_json::Value,
>)
    ensures
        match r {
            Some(x) => value_tree(*v) matches JsonTree::Object(m) && m.contains_key(name@)
                && value_tree(*x) == m[name@],
            None => !(value_tree(*v) matches JsonTree::Object(m) && m.contains_key(name@)),
        },
{
    v.get(name)
}

/// `serde_json::Value::as_array`: the items, where the value is a list.
#[verifier::external_body]
pub(crate) fn value_items(v: &serde_json::Value) -> (r: Option<&Vec<serde_json::Value>>)
    ensures
        match r {
            Some(a) => value_tree(*v) == JsonTree::List(value_trees(a@)),
            None => !(value_tree(*v) is List),
        },
{
    v.as_array()
}

/// `serde_json::Value::as_u64`: the number, where the value is one without sign or fraction.
#[verifier::external_body]
pub(crate) fn value_number(v: &serde_json::Value) -> (r: Option<u64>)
    ensures
        match r {
            Some(n) => value_tree(*v) == JsonTree::Number(n),
            None => !(value_tree(*v) is Number),
        },
{
    v.as_u64()
}

/// `serde_json::Value::as_str`: the text, where the value is one.
#[verifier::external_body]
pub(crate) fn value_text(v: &serde_json::Value) -> (r: Option<&str>)
    ensures
        match r {
            Some(s) => value_tree(*v) == JsonTree::Text(s@),
            None => !(value_tree(*v) is Text),
        },
{
    v.as_str()
}

/// What `serde_json::to_vec` makes of a value.
pub uninterp spec fn tree_bytes(t: JsonTree) -> Seq<u8>;

/// What `serde_json::from_slice` reads as a value.
pub uninterp spec fn tree_of_bytes(bytes: Seq<u8>) -> Option<JsonTree>;

/// `serde_json::to_vec` on a value: every value has a JSON form, which what it holds settles.
#[verifier::external_body]
pub(crate) fn value_to_bytes(v: &serde_json::Value) -> (r: Option<Vec<u8>>)
    ensures
        r is Some,
        r->0@ == tree_bytes(value_tree(*v)),
{
    serde_json::to_vec(v).ok()
}

/// `serde_json::from_slice` on a value: what it reads is settled by the bytes, and the JSON form of
/// numbers, texts, and shallow lists and objects of them reads as what was written.
#[verifier::external_body]
pub(crate) fn value_from_bytes(bytes: &Vec<u8>) -> (r: Option<serde_json::Value>)
    ensures
        match r {
            Some(v) => tree_of_bytes(bytes@) == Some(value_tree(v)),
            None => tree_of_bytes(bytes@) is None,
        },
        forall|t: JsonTree|
            plain(t, 16) && bytes@ == #[trigger] tree_bytes(t) ==> r is Some && value_tree(r->0)
                == t,
{
    serde_json::from_slice::<serde_json::Value>(bytes).ok()
}

/// A value under a name.
pub(crate) fn field(name: &str, value: serde_json::Value) -> (r: (String, serde_json::Value))
    ensures
        r.0@ == name@,
        r.1 == value,
{
    (owned(name), value)
}

/// No two fields have one name.
pub open spec fn fields_differ(s: Seq<(Seq<char>, JsonTree)>) -> bool {
    forall|i: int, j: int| 0 <= i < j < s.len() ==> (#[trigger] s[i]).0 != (#[trigger] s[j]).0
}

/// Each of fields with different names is found under its name.
pub proof fn lemma_member_found(s: Seq<(Seq<char>, JsonTree)>, i: int)
    requires
        fields_differ(s),
        0 <= i < s.len(),
    ensures
        members(s).contains_key(s[i].0),
        members(s)[s[i].0] == s[i].1,
    decreases s.len(),
{
    let front = s.drop_last();
    if i < s.len() - 1 {
        assert forall|a: int, b: int| 0 <= a < b < front.len() implies (#[trigger] front[a]).0 != (
        #[trigger] front[b]).0 by {
            assert(front[a] == s[a] && front[b] == s[b]);
        }
        lemma_member_found(front, i);
        assert(front[i] == s[i]);
        assert(s[i].0 != s[s.len() - 1].0);
    }
}

/// Plain fields make a plain object.
pub proof fn lemma_plain_object(s: Seq<(Seq<char>, JsonTree)>, depth: nat)
    requires
        forall|i: int| 0 <= i < s.len() ==> plain((#[trigger] s[i]).1, depth),
    ensures
        plain(JsonTree::Object(members(s)), depth + 1),
    decreases s.len(),
{
    if s.len() > 0 {
        let front = s.drop_last();
        assert forall|i: int| 0 <= i < front.len() implies plain((#[trigger] front[i]).1, depth) by {
            assert(front[i] == s[i]);
        }
        lemma_plain_object(front, depth);
        assert(plain(s[s.len() - 1].1, depth));
    }
}

/// What is plain is plain at any greater depth.
pub proof fn lemma_plain_deeper(t: JsonTree, a: nat, b: nat)
    requires
        plain(t, a),
        a <= b,
    ensures
        plain(t, b),
    decreases a,
{
    match t {
        JsonTree::List(s) => {
            assert forall|i: int| 0 <= i < s.len() implies plain(
                #[trigger] s[i],
                (b - 1) as nat,
            ) by {
                lemma_plain_deeper(s[i], (a - 1) as nat, (b - 1) as nat);
            }
        },
        JsonTree::Object(m) => {
            assert forall|k: Seq<char>| #[trigger] m.contains_key(k) implies plain(
                m[k],
                (b - 1) as nat,
            ) by {
                lemma_plain_deeper(m[k], (a - 1) as nat, (b - 1) as nat);
            }
        },
        _ => {},
    }
}

} // verus!
