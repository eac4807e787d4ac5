//! JSON as text: what stands in a text, and how a value is written.

use crate::results::json::{self, Json, Shape};
use vstd::prelude::*;
use vstd::string::StringExecFns;

verus! {

/// A value of `serde_json`.
#[verifier::external_type_specification]
#[verifier::external_body]
pub struct ExValue(serde_json::Value);

/// What a JSON text tells. The pairs of an object have no order in it, and no key
/// stands twice.
pub enum Tree {
    Null,
    Bool(bool),
    /// An integer from zero up.
    Unsigned(u64),
    /// Any other number, as it is written.
    Number(Seq<char>),
    Text(Seq<char>),
    List(Seq<Tree>),
    Object(Map<Seq<char>, Tree>),
}

/// What a value of `serde_json` holds.
pub uninterp spec fn held(value: serde_json::Value) -> Tree;

/// What `serde_json::from_str` reads in a text, or else its complaint.
pub uninterp spec fn told_in(text: Seq<char>) -> Result<Tree, Seq<char>>;

/// How `serde_json` writes a value on one line.
pub uninterp spec fn compact_text(tree: Tree) -> Seq<char>;

/// How `serde_json` writes a value over several lines.
pub uninterp spec fn pretty_text(tree: Tree) -> Seq<char>;

/// The last of the first `n` pairs that has the key, or -1.
pub open spec fn last_with<V>(pairs: Seq<(Seq<char>, V)>, key: Seq<char>, n: int) -> int
    decreases n,
{
    if n <= 0 {
        -1
    } else if pairs[n - 1].0 == key {
        n - 1
    } else {
        last_with(pairs, key, n - 1)
    }
}

/// What stands with each key. Where a key stands twice, the later pair counts.
pub open spec fn map_of(pairs: Seq<(Seq<char>, Tree)>) -> Map<Seq<char>, Tree> {
    Map::new(
        |key: Seq<char>| last_with(pairs, key, pairs.len() as int) >= 0,
        |key: Seq<char>| pairs[last_with(pairs, key, pairs.len() as int)].1,
    )
}

/// What a value of `serde_json` is made of.
pub enum Part {
    Null,
    Bool(bool),
    Unsigned(u64),
    Text(String),
    List(Vec<serde_json::Value>),
    Object(Vec<(String, serde_json::Value)>),
}

impl Part {
    /// What the value holds that is made of this.
    pub open spec fn tree(self) -> Tree {
        match self {
            Part::Null => Tree::Null,
            Part::Bool(b) => Tree::Bool(b),
            Part::Unsigned(n) => Tree::Unsigned(n),
            Part::Text(s) => Tree::Text(s@),
            Part::List(items) => Tree::List(Seq::new(items@.len(), |i: int| held(items@[i]))),
            Part::Object(pairs) => Tree::Object(
                map_of(Seq::new(pairs@.len(), |i: int| (pairs@[i].0@, held(pairs@[i].1)))),
            ),
        }
    }
}

/// The constructors of `serde_json::Value`: a value made of `part`. An integer goes
/// through `From<u64>`, the pairs of an object through `FromIterator` of its map.
#[verifier::external_body]
fn seal(part: Part) -> (value: serde_json::Value)
    ensures
        held(value) == part.tree(),
{
    match part {
        Part::Null => serde_json::Value::Null,
        Part::Bool(b) => serde_json::Value::Bool(b),
        Part::Unsigned(n) => serde_json::Value::from(n),
        Part::Text(s) => serde_json::Value::String(s),
        Part::List(items) => serde_json::Value::Array(items),
        Part::Object(pairs) => serde_json::Value::Object(pairs.into_iter().collect()),
    }
}

/// What is inside a value of `serde_json`.
pub enum Content<'a> {
    Null,
    Bool(bool),
    Unsigned(u64),
    Number(String),
    Text(&'a str),
    List(&'a Vec<serde_json::Value>),
    Object(Vec<(&'a String, &'a serde_json::Value)>),
}

impl<'a> Content<'a> {
    /// What the value holds that has this inside.
    pub open spec fn tree(self) -> Tree {
        match self {
            Content::Null => Tree::Null,
            Content::Bool(b) => Tree::Bool(b),
            Content::Unsigned(n) => Tree::Unsigned(n),
            Content::Number(s) => Tree::Number(s@),
            Content::Text(s) => Tree::Text(s@),
            Content::List(items) => Tree::List(Seq::new(items@.len(), |i: int| held(items@[i]))),
            Content::Object(pairs) => Tree::Object(map_of(content_pairs(pairs@))),
        }
    }
}

/// The pairs of an object with what their values hold.
pub open spec fn content_pairs(pairs: Seq<(&String, &serde_json::Value)>) -> Seq<
    (Seq<char>, Tree),
> {
    Seq::new(pairs.len(), |i: int| (pairs[i].0@, held(*pairs[i].1)))
}

/// Whether no key stands twice.
pub open spec fn distinct(pairs: Seq<(Seq<char>, Tree)>) -> bool {
    forall|i: int, j: int|
        0 <= i < j < pairs.len() ==> (#[trigger] pairs[i]).0 != (#[trigger] pairs[j]).0
}

/// The variants of `serde_json::Value`: what is inside the value. A number is an
/// integer where `as_u64` gives one, and else what `to_string` writes. The pairs of an
/// object have distinct keys; their order is left open.
#[verifier::external_body]
fn open<'a>(value: &'a serde_json::Value) -> (content: Content<'a>)
    ensures
        content.tree() == held(*value),
        content matches Content::Object(pairs) ==> distinct(content_pairs(pairs@)),
{
    match value {
        serde_json::Value::Null => Content::Null,
        serde_json::Value::Bool(b) => Content::Bool(*b),
        serde_json::Value::Number(n) => match n.as_u64() {
            Some(u) => Content::Unsigned(u),
            None => Content::Number(n.to_string()),
        },
        serde_json::Value::String(s) => Content::Text(s),
        serde_json::Value::Array(items) => Content::List(items),
        serde_json::Value::Object(map) => Content::Object(map.iter().collect()),
    }
}

/// Whether a text that puts a document down in the order of its keys was taken for it.
pub open spec fn takes_as_put(text: Seq<char>, r: Result<serde_json::Value, String>) -> bool {
    forall|shape: Shape| #[trigger]
        ordered_text(shape) == text && is_tidy(shape, MAX_DEPTH as int) ==> (r matches Ok(value)
            && held(value) == tree_of(shape))
}

/// `serde_json::from_str`: what the text tells, or else the complaint as text. A text
/// that puts a document down with its keys in the order they have there tells the
/// document, if no key stands twice and it is not nested too deep.
#[verifier::external_body]
fn parse(text: &str) -> (r: Result<serde_json::Value, String>)
    ensures
        match r {
            Ok(value) => told_in(text@) == Ok::<Tree, Seq<char>>(held(value)),
            Err(complaint) => told_in(text@) == Err::<Tree, Seq<char>>(complaint@),
        },
        takes_as_put(text@, r),
{
    serde_json::from_str(text).map_err(|e: serde_json::Error| e.to_string())
}

/// Whether a value has no numbers but integers from zero up and is nested at most
/// `depth` deep.
pub open spec fn is_plain(tree: Tree, depth: int) -> bool
    decreases depth,
{
    match tree {
        Tree::Number(_) => false,
        Tree::List(items) => depth > 0 && forall|i: int|
            0 <= i < items.len() ==> is_plain(#[trigger] items[i], depth - 1),
        Tree::Object(map) => depth > 0 && forall|key: Seq<char>| #[trigger]
            map.dom().contains(key) ==> is_plain(map[key], depth - 1),
        _ => true,
    }
}

/// Whether the value stands in the text.
pub open spec fn tells(text: Seq<char>, tree: Tree) -> bool {
    told_in(text) == Ok::<Tree, Seq<char>>(tree)
}

/// How deep `serde_json` reads before it gives up.
pub const MAX_DEPTH: usize = 127;

/// `Display` of `serde_json::Value`: the value on one line. What was written is read
/// again, as long as it is not nested too deep; other numbers than integers from zero
/// up may come back rounded.
#[verifier::external_body]
fn write_compact(value: &serde_json::Value) -> (text: String)
    ensures
        text@ == compact_text(held(*value)),
        is_plain(held(*value), MAX_DEPTH as int) ==> tells(text@, held(*value)),
{
    value.to_string()
}

/// `Display` of `serde_json::Value` with the alternate flag: the value over several
/// lines. What was written is read again, as with `write_compact`.
#[verifier::external_body]
fn write_pretty(value: &serde_json::Value) -> (text: String)
    ensures
        text@ == pretty_text(held(*value)),
        is_plain(held(*value), MAX_DEPTH as int) ==> tells(text@, held(*value)),
{
    format!("{value:#}")
}

/// What a document tells. A number is what stands in its text; what is no number there
/// tells nothing.
pub open spec fn tree_of(shape: Shape) -> Tree
    decreases shape,
{
    match shape {
        Shape::Null => Tree::Null,
        Shape::Bool(b) => Tree::Bool(b),
        Shape::Unsigned(n) => Tree::Unsigned(n),
        Shape::Number(s) => match told_in(s) {
            Ok(tree) => tree,
            Err(_) => Tree::Null,
        },
        Shape::Text(s) => Tree::Text(s),
        Shape::List(items) => Tree::List(
            Seq::new(
                items.len(),
                |i: int|
                    if 0 <= i < items.len() {
                        tree_of(items[i])
                    } else {
                        Tree::Null
                    },
            ),
        ),
        Shape::Object(pairs) => Tree::Object(
            Map::new(
                |key: Seq<char>| last_with(pairs, key, pairs.len() as int) >= 0,
                |key: Seq<char>|
                    {
                        let i = last_with(pairs, key, pairs.len() as int);
                        if 0 <= i < pairs.len() {
                            tree_of(pairs[i].1)
                        } else {
                            Tree::Null
                        }
                    },
            ),
        ),
    }
}

/// A key stands at the same place whatever the values are.
proof fn lemma_last_with<V, W>(
    left: Seq<(Seq<char>, V)>,
    right: Seq<(Seq<char>, W)>,
    key: Seq<char>,
    n: int,
)
    requires
        0 <= n <= left.len(),
        n <= right.len(),
        forall|i: int| 0 <= i < n ==> (#[trigger] left[i]).0 == (#[trigger] right[i]).0,
    ensures
        last_with(left, key, n) == last_with(right, key, n),
        -1 <= last_with(left, key, n) < n,
    decreases n,
{
    if n > 0 {
        assert(left[n - 1].0 == right[n - 1].0);
        lemma_last_with(left, right, key, n - 1);
    }
}

/// The document as a value of `serde_json`.
fn to_value(node: &Json) -> (value: serde_json::Value)
    ensures
        held(value) == tree_of(node.shape()),
    decreases node.shape(),
{
    match node {
        Json::Null => seal(Part::Null),
        Json::Bool(b) => seal(Part::Bool(*b)),
        Json::Unsigned(n) => seal(Part::Unsigned(*n)),
        Json::Number(digits) => match parse(digits) {
            Ok(value) => value,
            Err(_) => seal(Part::Null),
        },
        Json::Text(s) => seal(Part::Text(s.clone())),
        Json::List(items) => {
            let mut values: Vec<serde_json::Value> = Vec::new();
            let mut i: usize = 0;
            while i < items.len()
                invariant
                    i <= items@.len(),
                    *node == Json::List(*items),
                    values@.len() == i,
                    forall|k: int|
                        0 <= k < i ==> held(#[trigger] values@[k]) == tree_of(items@[k].shape()),
                decreases items@.len() - i,
            {
                assert(node.shape()->List_0[i as int] == items@[i as int].shape());
                assert(decreases_to!(node.shape() => node.shape()->List_0[i as int]));
                values.push(to_value(&items[i]));
                i = i + 1;
            }
            let value = seal(Part::List(values));
            assert(held(value)->List_0 =~= tree_of(node.shape())->List_0);
            value
        },
        Json::Object(pairs) => {
            let mut members: Vec<(String, serde_json::Value)> = Vec::new();
            let mut i: usize = 0;
            while i < pairs.len()
                invariant
                    i <= pairs@.len(),
                    *node == Json::Object(*pairs),
                    members@.len() == i,
                    forall|k: int|
                        0 <= k < i ==> (#[trigger] members@[k]).0@ == pairs@[k].0@ && held(
                            members@[k].1,
                        ) == tree_of(pairs@[k].1.shape()),
                decreases pairs@.len() - i,
            {
                assert(node.shape()->Object_0[i as int].1 == pairs@[i as int].1.shape());
                assert(decreases_to!(node.shape() => node.shape()->Object_0[i as int].1));
                members.push((pairs[i].0.clone(), to_value(&pairs[i].1)));
                i = i + 1;
            }
            let ghost told = Seq::new(
                members@.len(),
                |k: int| (members@[k].0@, held(members@[k].1)),
            );
            let value = seal(Part::Object(members));
            proof {
                let shapes = node.shape()->Object_0;
                assert forall|key: Seq<char>| last_with(told, key, told.len() as int) == #[trigger]
                    last_with(shapes, key, shapes.len() as int) by {
                    lemma_last_with(told, shapes, key, told.len() as int);
                }
                assert forall|key: Seq<char>| -1 <= #[trigger] last_with(
                    shapes,
                    key,
                    shapes.len() as int,
                ) < shapes.len() by {
                    lemma_last_with(told, shapes, key, told.len() as int);
                }
                assert(held(value)->Object_0 =~= tree_of(node.shape())->Object_0);
            }
            value
        },
    }
}

/// A document on one line with its keys in the order they have there: what is no list
/// and no object as `serde_json` writes it.
pub open spec fn ordered_text(shape: Shape) -> Seq<char>
    decreases shape, 0int,
{
    match shape {
        Shape::List(items) => "["@ + listed_text(items, items.len() as int) + "]"@,
        Shape::Object(pairs) => "{"@ + paired_text(pairs, pairs.len() as int) + "}"@,
        _ => compact_text(tree_of(shape)),
    }
}

/// The first `n` items of a list, with commas between them.
pub open spec fn listed_text(items: Seq<Shape>, n: int) -> Seq<char>
    decreases items, n,
{
    if n <= 0 || n > items.len() {
        Seq::empty()
    } else {
        listed_text(items, n - 1) + comma(n) + ordered_text(items[n - 1])
    }
}

/// The first `n` pairs of an object, with commas between them.
pub open spec fn paired_text(pairs: Seq<(Seq<char>, Shape)>, n: int) -> Seq<char>
    decreases pairs, n,
{
    if n <= 0 || n > pairs.len() {
        Seq::empty()
    } else {
        paired_text(pairs, n - 1) + comma(n) + compact_text(Tree::Text(pairs[n - 1].0)) + ":"@
            + ordered_text(pairs[n - 1].1)
    }
}

/// What stands before the `n`-th of several, counted from one.
pub open spec fn comma(n: int) -> Seq<char> {
    if n > 1 {
        ","@
    } else {
        Seq::empty()
    }
}

/// Write a document on one line with its keys in the order they have there.
pub fn ordered(node: &Json) -> (text: String)
    ensures
        text@ == ordered_text(node.shape()),
    decreases node.shape(),
{
    match node {
        Json::List(items) => {
            let ghost shapes = node.shape()->List_0;
            let mut text = String::new();
            text.append("[");
            let mut i: usize = 0;
            assert(text@ =~= "["@ + listed_text(shapes, 0));
            while i < items.len()
                invariant
                    i <= items@.len(),
                    *node == Json::List(*items),
                    shapes == node.shape()->List_0,
                    text@ == "["@ + listed_text(shapes, i as int),
                decreases items@.len() - i,
            {
                assert(shapes[i as int] == items@[i as int].shape());
                assert(decreases_to!(node.shape() => node.shape()->List_0[i as int]));
                let ghost before = text@;
                if i > 0 {
                    text.append(",");
                }
                text.append(&ordered(&items[i]));
                assert(text@ =~= before + comma(i + 1) + ordered_text(shapes[i as int]));
                assert(text@ =~= "["@ + listed_text(shapes, i + 1));
                i = i + 1;
            }
            text.append("]");
            assert(text@ =~= ordered_text(node.shape()));
            text
        },
        Json::Object(pairs) => {
            let ghost shapes = node.shape()->Object_0;
            let mut text = String::new();
            text.append("{");
            let mut i: usize = 0;
            assert(text@ =~= "{"@ + paired_text(shapes, 0));
            while i < pairs.len()
                invariant
                    i <= pairs@.len(),
                    *node == Json::Object(*pairs),
                    shapes == node.shape()->Object_0,
                    text@ == "{"@ + paired_text(shapes, i as int),
                decreases pairs@.len() - i,
            {
                assert(shapes[i as int] == (pairs@[i as int].0@, pairs@[i as int].1.shape()));
                assert(decreases_to!(node.shape() => node.shape()->Object_0[i as int].1));
                let ghost before = text@;
                if i > 0 {
                    text.append(",");
                }
                text.append(&write_compact(&seal(Part::Text(pairs[i].0.clone()))));
                text.append(":");
                text.append(&ordered(&pairs[i].1));
                assert(text@ =~= before + comma(i + 1) + compact_text(
                    Tree::Text(shapes[i as int].0),
                ) + ":"@ + ordered_text(shapes[i as int].1));
                assert(text@ =~= "{"@ + paired_text(shapes, i + 1));
                i = i + 1;
            }
            text.append("}");
            assert(text@ =~= ordered_text(node.shape()));
            text
        },
        _ => write_compact(&to_value(node)),
    }
}

/// Whether no key of an object stands twice.
pub open spec fn keys_differ(pairs: Seq<(String, Json)>) -> bool {
    forall|i: int, j: int|
        0 <= i < j < pairs.len() ==> (#[trigger] pairs[i]).0@ != (#[trigger] pairs[j]).0@
}

/// Whether some pair has the key.
pub open spec fn key_stands(pairs: Seq<(String, Json)>, key: Seq<char>) -> bool {
    exists|i: int| 0 <= i < pairs.len() && (#[trigger] pairs[i]).0@ == key
}

/// Whether a document shows what a text tells, each key of an object once and in any
/// order.
pub open spec fn shows(node: Json, tree: Tree) -> bool
    decreases node,
{
    match (node, tree) {
        (Json::Null, Tree::Null) => true,
        (Json::Bool(a), Tree::Bool(b)) => a == b,
        (Json::Unsigned(m), Tree::Unsigned(n)) => m == n,
        (Json::Number(s), Tree::Number(t)) => s@ == t,
        (Json::Text(s), Tree::Text(t)) => s@ == t,
        (Json::List(items), Tree::List(trees)) => {
            &&& items@.len() == trees.len()
            &&& forall|i: int| 0 <= i < items@.len() ==> shows(#[trigger] items@[i], trees[i])
        },
        (Json::Object(pairs), Tree::Object(map)) => {
            &&& keys_differ(pairs@)
            &&& forall|i: int|
                0 <= i < pairs@.len() ==> {
                    &&& map.dom().contains((#[trigger] pairs@[i]).0@)
                    &&& shows(pairs@[i].1, map[pairs@[i].0@])
                }
            &&& forall|key: Seq<char>| #[trigger]
                map.dom().contains(key) ==> key_stands(pairs@, key)
        },
        _ => false,
    }
}

/// Each pair of distinct keys is the last with its key.
proof fn lemma_own_place<V>(pairs: Seq<(Seq<char>, V)>, i: int, n: int)
    requires
        0 <= i < n <= pairs.len(),
        forall|j: int, k: int|
            0 <= j < k < pairs.len() ==> (#[trigger] pairs[j]).0 != (#[trigger] pairs[k]).0,
    ensures
        last_with(pairs, pairs[i].0, n) == i,
    decreases n,
{
    if i < n - 1 {
        assert(pairs[i].0 != pairs[n - 1].0);
        lemma_own_place(pairs, i, n - 1);
    }
}

/// The document that shows what a value of `serde_json` holds.
fn from_value(value: &serde_json::Value) -> (node: Json)
    ensures
        shows(node, held(*value)),
    decreases held(*value),
{
    match open(value) {
        Content::Null => Json::Null,
        Content::Bool(b) => Json::Bool(b),
        Content::Unsigned(n) => Json::Unsigned(n),
        Content::Number(s) => Json::Number(s),
        Content::Text(s) => Json::Text(s.to_owned()),
        Content::List(values) => {
            let ghost trees = held(*value)->List_0;
            let mut items: Vec<Json> = Vec::new();
            let mut i: usize = 0;
            while i < values.len()
                invariant
                    i <= values@.len(),
                    held(*value) == Tree::List(trees),
                    trees == Seq::new(values@.len(), |k: int| held(values@[k])),
                    items@.len() == i,
                    forall|k: int| 0 <= k < i ==> shows(#[trigger] items@[k], trees[k]),
                decreases values@.len() - i,
            {
                assert(decreases_to!(held(*value) => held(*value)->List_0[i as int]));
                items.push(from_value(&values[i]));
                i = i + 1;
            }
            let node = Json::List(items);
            assert(shows(node, Tree::List(trees)));
            node
        },
        Content::Object(members) => {
            let ghost told = content_pairs(members@);
            let ghost map = held(*value)->Object_0;
            let mut pairs: Vec<(String, Json)> = Vec::new();
            let mut i: usize = 0;
            while i < members.len()
                invariant
                    i <= members@.len(),
                    held(*value) == Tree::Object(map),
                    map == map_of(told),
                    told == content_pairs(members@),
                    distinct(told),
                    pairs@.len() == i,
                    forall|k: int|
                        0 <= k < i ==> (#[trigger] pairs@[k]).0@ == told[k].0 && shows(
                            pairs@[k].1,
                            told[k].1,
                        ),
                decreases members@.len() - i,
            {
                let (key, member) = members[i];
                proof {
                    lemma_own_place(told, i as int, told.len() as int);
                    assert(told[i as int] == (key@, held(*member)));
                    assert(map.dom().contains(key@));
                    assert(decreases_to!(held(*value) => held(*value)->Object_0[key@]));
                }
                pairs.push((key.clone(), from_value(member)));
                i = i + 1;
            }
            proof {
                assert forall|k: int| 0 <= k < pairs@.len() implies {
                    &&& map.dom().contains((#[trigger] pairs@[k]).0@)
                    &&& shows(pairs@[k].1, map[pairs@[k].0@])
                } by {
                    lemma_own_place(told, k, told.len() as int);
                }
                assert forall|key: Seq<char>| #[trigger] map.dom().contains(key) implies key_stands(
                    pairs@,
                    key,
                ) by {
                    let k = last_with(told, key, told.len() as int);
                    lemma_found_last(told, key, told.len() as int);
                    assert(pairs@[k].0@ == key);
                }
                assert forall|j: int, k: int| 0 <= j < k < pairs@.len() implies (
                #[trigger] pairs@[j]).0@ != (#[trigger] pairs@[k]).0@ by {
                    assert(told[j].0 != told[k].0);
                }
                assert(keys_differ(pairs@));
            }
            let node = Json::Object(pairs);
            assert(shows(node, Tree::Object(map)));
            node
        },
    }
}

/// The last pair with a key has it.
proof fn lemma_found_last<V>(pairs: Seq<(Seq<char>, V)>, key: Seq<char>, n: int)
    requires
        0 <= n <= pairs.len(),
    ensures
        last_with(pairs, key, n) < n,
        last_with(pairs, key, n) >= 0 ==> pairs[last_with(pairs, key, n)].0 == key,
    decreases n,
{
    if n > 0 {
        lemma_found_last(pairs, key, n - 1);
    }
}

/// Read a document, or say what is wrong with the text.
pub fn read_json(text: &str) -> (r: Result<Json, String>)
    ensures
        match told_in(text@) {
            Ok(tree) => r matches Ok(node) && shows(node, tree),
            Err(complaint) => r matches Err(message) && message@ == complaint,
        },
        forall|shape: Shape| #[trigger]
            ordered_text(shape) == text@ && is_tidy(shape, MAX_DEPTH as int) ==> (r matches Ok(node)
                && tells(text@, tree_of(shape)) && shows(node, tree_of(shape))),
{
    match parse(text) {
        Ok(value) => Ok(from_value(&value)),
        Err(complaint) => Err(complaint),
    }
}

/// Write a document on one line.
pub fn compact(node: &Json) -> (text: String)
    ensures
        text@ == compact_text(tree_of(node.shape())),
        is_plain(tree_of(node.shape()), MAX_DEPTH as int) ==> tells(text@, tree_of(node.shape())),
{
    write_compact(&to_value(node))
}

/// Write a document over several lines.
pub fn pretty(node: &Json) -> (text: String)
    ensures
        text@ == pretty_text(tree_of(node.shape())),
        is_plain(tree_of(node.shape()), MAX_DEPTH as int) ==> tells(text@, tree_of(node.shape())),
{
    write_pretty(&to_value(node))
}

/// What stands with a key is what the text tells with it.
pub proof fn lemma_member_shown(node: Json, tree: Tree, key: Seq<char>)
    requires
        shows(node, tree),
    ensures
        json::member(Some(node), key) is Some <==> (tree matches Tree::Object(map)
            && map.dom().contains(key)),
        json::member(Some(node), key) matches Some(value) ==> shows(value, tree->Object_0[key]),
{
    if let Json::Object(pairs) = node {
        let map = tree->Object_0;
        lemma_value_shown(pairs@, key, 0);
        if map.dom().contains(key) {
            let i = choose|i: int| 0 <= i < pairs@.len() && (#[trigger] pairs@[i]).0@ == key;
            assert(json::value_of(pairs@, key, 0) is Some);
        }
    }
}

/// A key is found where it stands.
proof fn lemma_value_shown(pairs: Seq<(String, Json)>, key: Seq<char>, from: int)
    requires
        0 <= from,
    ensures
        json::value_of(pairs, key, from) is None ==> forall|i: int|
            from <= i < pairs.len() ==> (#[trigger] pairs[i]).0@ != key,
        json::value_of(pairs, key, from) matches Some(value) ==> exists|i: int|
            from <= i < pairs.len() && (#[trigger] pairs[i]).0@ == key && pairs[i].1 == value,
    decreases pairs.len() - from,
{
    if from < pairs.len() {
        lemma_value_shown(pairs, key, from + 1);
        if pairs[from].0@ == key {
            assert(json::value_of(pairs, key, from) == Some(pairs[from].1));
        } else {
            assert forall|i: int| json::value_of(pairs, key, from) is None && from <= i
                < pairs.len() implies (#[trigger] pairs[i]).0@ != key by {
                if i > from {
                }
            }
        }
    }
}

/// Whether a document has no key twice in an object, no numbers but integers from zero
/// up, and is nested at most `depth` deep.
pub open spec fn is_tidy(shape: Shape, depth: int) -> bool
    decreases depth,
{
    match shape {
        Shape::Number(_) => false,
        Shape::List(items) => depth > 0 && forall|i: int|
            0 <= i < items.len() ==> is_tidy(#[trigger] items[i], depth - 1),
        Shape::Object(pairs) => depth > 0 && (forall|i: int, j: int|
            0 <= i < j < pairs.len() ==> (#[trigger] pairs[i]).0 != (#[trigger] pairs[j]).0) && (
        forall|i: int| 0 <= i < pairs.len() ==> is_tidy((#[trigger] pairs[i]).1, depth - 1)),
        _ => true,
    }
}

/// A tidy document shows what its text tells, and the text is read again: whatever is
/// read from it shows the same.
pub proof fn law_tidy_document_is_told(node: Json, depth: int)
    requires
        is_tidy(node.shape(), depth),
    ensures
        is_plain(tree_of(node.shape()), depth),
        shows(node, tree_of(node.shape())),
    decreases depth,
{
    let tree = tree_of(node.shape());
    match node {
        Json::List(items) => {
            let shapes = node.shape()->List_0;
            assert forall|i: int| 0 <= i < items@.len() implies is_plain(
                #[trigger] tree->List_0[i],
                depth - 1,
            ) && shows(items@[i], tree->List_0[i]) by {
                assert(is_tidy(shapes[i], depth - 1));
                law_tidy_document_is_told(items@[i], depth - 1);
            }
            assert(shows(node, Tree::List(tree->List_0)));
        },
        Json::Object(pairs) => {
            let shapes = node.shape()->Object_0;
            let map = tree->Object_0;
            assert forall|i: int| 0 <= i < pairs@.len() implies {
                &&& map.dom().contains((#[trigger] pairs@[i]).0@)
                &&& map[pairs@[i].0@] == tree_of(shapes[i].1)
                &&& is_plain(map[pairs@[i].0@], depth - 1)
                &&& shows(pairs@[i].1, map[pairs@[i].0@])
            } by {
                lemma_own_place(shapes, i, shapes.len() as int);
                assert(is_tidy(shapes[i].1, depth - 1));
                law_tidy_document_is_told(pairs@[i].1, depth - 1);
            }
            assert forall|key: Seq<char>| #[trigger] map.dom().contains(key) implies key_stands(
                pairs@,
                key,
            ) && is_plain(map[key], depth - 1) by {
                let k = last_with(shapes, key, shapes.len() as int);
                lemma_found_last(shapes, key, shapes.len() as int);
                assert(shapes[k].0 == pairs@[k].0@);
                assert(pairs@[k].0@ == key);
            }
            assert forall|i: int, j: int| 0 <= i < j < pairs@.len() implies (
            #[trigger] pairs@[i]).0@ != (#[trigger] pairs@[j]).0@ by {
                assert(shapes[i].0 != shapes[j].0);
            }
            assert(keys_differ(pairs@));
            assert(shows(node, Tree::Object(map)));
        },
        _ => {},
    }
}

} // verus!
