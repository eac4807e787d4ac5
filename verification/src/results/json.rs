//! A JSON document as a tree, and how values are looked up in it.

use crate::text::same_text;
use vstd::prelude::*;

verus! {

/// A JSON value.
#[derive(Debug)]
pub enum Json {
    Null,
    Bool(bool),
    /// An integer from zero up.
    Unsigned(u64),
    /// Any other number, as it is written.
    Number(String),
    Text(String),
    List(Vec<Json>),
    Object(Vec<(String, Json)>),
}

/// What a JSON value is.
pub enum Shape {
    Null,
    Bool(bool),
    Unsigned(u64),
    Number(Seq<char>),
    Text(Seq<char>),
    List(Seq<Shape>),
    Object(Seq<(Seq<char>, Shape)>),
}

impl Json {
    /// What the value is.
    pub open spec fn shape(self) -> Shape
        decreases self,
    {
        match self {
            Json::Null => Shape::Null,
            Json::Bool(b) => Shape::Bool(b),
            Json::Unsigned(n) => Shape::Unsigned(n),
            Json::Number(s) => Shape::Number(s@),
            Json::Text(s) => Shape::Text(s@),
            Json::List(items) => Shape::List(
                Seq::new(
                    items@.len(),
                    |i: int|
                        if 0 <= i < items@.len() {
                            items@[i].shape()
                        } else {
                            Shape::Null
                        },
                ),
            ),
            Json::Object(pairs) => Shape::Object(
                Seq::new(
                    pairs@.len(),
                    |i: int|
                        if 0 <= i < pairs@.len() {
                            (pairs@[i].0@, pairs@[i].1.shape())
                        } else {
                            (Seq::empty(), Shape::Null)
                        },
                ),
            ),
        }
    }
}

/// What the values of a list are.
pub open spec fn item_shapes(items: Seq<Json>) -> Seq<Shape> {
    Seq::new(items.len(), |i: int| items[i].shape())
}

/// What the pairs of an object are.
pub open spec fn pair_shapes(pairs: Seq<(String, Json)>) -> Seq<(Seq<char>, Shape)> {
    Seq::new(pairs.len(), |i: int| (pairs[i].0@, pairs[i].1.shape()))
}

/// A list of values.
pub fn list(items: Vec<Json>) -> (node: Json)
    ensures
        node.shape() == Shape::List(item_shapes(items@)),
{
    let node = Json::List(items);
    assert(node.shape()->List_0 =~= item_shapes(items@));
    node
}

/// An object with the pairs.
pub fn object(pairs: Vec<(String, Json)>) -> (node: Json)
    ensures
        node.shape() == Shape::Object(pair_shapes(pairs@)),
{
    let node = Json::Object(pairs);
    assert(node.shape()->Object_0 =~= pair_shapes(pairs@));
    node
}

/// Put a pair at the end.
pub fn put(pairs: &mut Vec<(String, Json)>, key: &str, value: Json)
    ensures
        pair_shapes(final(pairs)@) == pair_shapes(old(pairs)@).push((key@, value.shape())),
{
    pairs.push((key.to_owned(), value));
    assert(pair_shapes(pairs@) =~= pair_shapes(old(pairs)@).push((key@, value.shape())));
}

/// The value that stands with the key, from pair `from` on.
pub open spec fn value_of(pairs: Seq<(String, Json)>, key: Seq<char>, from: int) -> Option<Json>
    decreases pairs.len() - from,
{
    if from >= pairs.len() {
        None
    } else if pairs[from].0@ == key {
        Some(pairs[from].1)
    } else {
        value_of(pairs, key, from + 1)
    }
}

/// The value that stands with the key, if there is an object that has it.
pub open spec fn member(node: Option<Json>, key: Seq<char>) -> Option<Json> {
    match node {
        Some(Json::Object(pairs)) => value_of(pairs@, key, 0),
        _ => None,
    }
}

/// What stands with the key, from pair `from` on.
pub open spec fn shape_of(pairs: Seq<(Seq<char>, Shape)>, key: Seq<char>, from: int) -> Option<
    Shape,
>
    decreases pairs.len() - from,
{
    if from >= pairs.len() {
        None
    } else if pairs[from].0 == key {
        Some(pairs[from].1)
    } else {
        shape_of(pairs, key, from + 1)
    }
}

/// A value is found where its shape is found.
proof fn lemma_found_by_shape(node: Json, key: Seq<char>)
    requires
        node.shape() is Object,
    ensures
        member(Some(node), key) is Some <==> shape_of(node.shape()->Object_0, key, 0) is Some,
        member(Some(node), key) matches Some(value) ==> shape_of(node.shape()->Object_0, key, 0)
            == Some(value.shape()),
{
    if let Json::Object(pairs) = node {
        assert(node.shape()->Object_0 =~= pair_shapes(pairs@));
        lemma_found_from(pairs@, key, 0);
    }
}

/// A value is found with the first pair that has its key.
pub proof fn lemma_found_at(node: Json, i: int)
    requires
        node.shape() is Object,
        0 <= i < node.shape()->Object_0.len(),
        forall|j: int|
            0 <= j < i ==> (#[trigger] node.shape()->Object_0[j]).0
                != node.shape()->Object_0[i].0,
    ensures
        member(Some(node), node.shape()->Object_0[i].0) matches Some(value) && value.shape()
            == node.shape()->Object_0[i].1,
{
    let pairs = node.shape()->Object_0;
    lemma_found_by_shape(node, pairs[i].0);
    lemma_first_with_key(pairs, 0, i);
}

/// No value is found for a key that no pair has.
pub proof fn lemma_not_found(node: Json, key: Seq<char>)
    requires
        node.shape() is Object,
        forall|j: int|
            0 <= j < node.shape()->Object_0.len() ==> (#[trigger] node.shape()->Object_0[j]).0
                != key,
    ensures
        member(Some(node), key) is None,
{
    lemma_found_by_shape(node, key);
    lemma_none_with_key(node.shape()->Object_0, key, 0);
}

proof fn lemma_first_with_key(pairs: Seq<(Seq<char>, Shape)>, from: int, i: int)
    requires
        0 <= from <= i < pairs.len(),
        forall|j: int| 0 <= j < i ==> (#[trigger] pairs[j]).0 != pairs[i].0,
    ensures
        shape_of(pairs, pairs[i].0, from) == Some(pairs[i].1),
    decreases i - from,
{
    if from < i {
        lemma_first_with_key(pairs, from + 1, i);
    }
}

proof fn lemma_none_with_key(pairs: Seq<(Seq<char>, Shape)>, key: Seq<char>, from: int)
    requires
        0 <= from,
        forall|j: int| 0 <= j < pairs.len() ==> (#[trigger] pairs[j]).0 != key,
    ensures
        shape_of(pairs, key, from) is None,
    decreases pairs.len() - from,
{
    if from < pairs.len() {
        lemma_none_with_key(pairs, key, from + 1);
    }
}

proof fn lemma_found_from(pairs: Seq<(String, Json)>, key: Seq<char>, from: int)
    requires
        0 <= from,
    ensures
        value_of(pairs, key, from) is Some <==> shape_of(pair_shapes(pairs), key, from) is Some,
        value_of(pairs, key, from) matches Some(value) ==> shape_of(pair_shapes(pairs), key, from)
            == Some(value.shape()),
    decreases pairs.len() - from,
{
    if from < pairs.len() {
        lemma_found_from(pairs, key, from + 1);
    }
}

/// The values of a list are shaped as its shape says.
pub proof fn lemma_items_by_shape(node: Json)
    requires
        node.shape() is List,
    ensures
        item_shapes(items_in(Some(node))) == node.shape()->List_0,
{
    assert(item_shapes(items_in(Some(node))) =~= node.shape()->List_0);
}

/// The integer that a value is, if it is one.
pub open spec fn unsigned_in(node: Option<Json>) -> Option<u64> {
    match node {
        Some(Json::Unsigned(n)) => Some(n),
        _ => None,
    }
}

/// The integer that a value is, or else zero.
pub open spec fn unsigned_or_zero(node: Option<Json>) -> u64 {
    match unsigned_in(node) {
        Some(n) => n,
        None => 0,
    }
}

/// The text that a value is, if it is one.
pub open spec fn text_in(node: Option<Json>) -> Option<Seq<char>> {
    match node {
        Some(Json::Text(s)) => Some(s@),
        _ => None,
    }
}

/// Whether a value is `true`.
pub open spec fn is_true(node: Option<Json>) -> bool {
    node == Some(Json::Bool(true))
}

/// The values of a list; none if it is no list.
pub open spec fn items_in(node: Option<Json>) -> Seq<Json> {
    match node {
        Some(Json::List(items)) => items@,
        _ => Seq::empty(),
    }
}

/// Whether a value is an object.
pub open spec fn is_object(node: Option<Json>) -> bool {
    node matches Some(Json::Object(_))
}

/// The value behind a reference.
pub open spec fn node_of(node: Option<&Json>) -> Option<Json> {
    match node {
        Some(j) => Some(*j),
        None => None,
    }
}

/// Look up a key.
pub fn get<'a>(node: Option<&'a Json>, key: &str) -> (found: Option<&'a Json>)
    ensures
        node_of(found) == member(node_of(node), key@),
{
    match node {
        Some(Json::Object(pairs)) => {
            let mut i: usize = 0;
            while i < pairs.len()
                invariant
                    i <= pairs@.len(),
                    node_of(node) == Some(Json::Object(*pairs)),
                    value_of(pairs@, key@, i as int) == value_of(pairs@, key@, 0),
                decreases pairs@.len() - i,
            {
                if same_text(&pairs[i].0, key) {
                    return Some(&pairs[i].1);
                }
                i = i + 1;
            }
            None
        },
        _ => None,
    }
}

/// The integer that a value is, if it is one.
pub fn as_unsigned(node: Option<&Json>) -> (n: Option<u64>)
    ensures
        n == unsigned_in(node_of(node)),
{
    match node {
        Some(Json::Unsigned(n)) => Some(*n),
        _ => None,
    }
}

/// The integer that a value is, or else zero.
pub fn as_unsigned_or_zero(node: Option<&Json>) -> (n: u64)
    ensures
        n == unsigned_or_zero(node_of(node)),
{
    match node {
        Some(Json::Unsigned(n)) => *n,
        _ => 0,
    }
}

/// The text that a value is, if it is one.
pub fn as_text<'a>(node: Option<&'a Json>) -> (s: Option<&'a str>)
    ensures
        s is Some <==> text_in(node_of(node)) is Some,
        s matches Some(t) ==> text_in(node_of(node)) == Some(t@),
{
    match node {
        Some(Json::Text(s)) => Some(s.as_str()),
        _ => None,
    }
}

/// Whether a value is `true`.
pub fn as_flag(node: Option<&Json>) -> (b: bool)
    ensures
        b == is_true(node_of(node)),
{
    match node {
        Some(Json::Bool(b)) => *b,
        _ => false,
    }
}

/// The list that a value is, if it is one.
pub fn as_list<'a>(node: Option<&'a Json>) -> (items: Option<&'a Vec<Json>>)
    ensures
        items is Some <==> node_of(node) matches Some(Json::List(_)),
        items matches Some(list) ==> node_of(node) == Some(Json::List(*list)),
{
    match node {
        Some(Json::List(items)) => Some(items),
        _ => None,
    }
}

/// The value itself, if it is an object.
pub fn as_object<'a>(node: Option<&'a Json>) -> (object: Option<&'a Json>)
    ensures
        node_of(object) == if is_object(node_of(node)) {
            node_of(node)
        } else {
            None
        },
{
    match node {
        Some(j) => match j {
            Json::Object(_) => Some(j),
            _ => None,
        },
        None => None,
    }
}

} // verus!
