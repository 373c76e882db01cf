//! The tree-shaped data value that the encoder consumes, and its
//! mathematical model.
//!
//! A `Value` is a tagged union over null, booleans, numbers (kept as their
//! canonical decimal text, so no precision is lost), strings, ordered lists,
//! and ordered mappings from string keys to values. Contracts speak of the
//! model `Node`, reached through the view `v@`.

use vstd::prelude::*;

verus! {

/// A tree value: the encoder's input domain.
pub enum Value {
    Null,
    Bool(bool),
    /// A number, held as its canonical decimal text.
    Number(String),
    Str(String),
    List(Vec<Value>),
    Mapping(Vec<(String, Value)>),
}

/// The mathematical model of a tree value.
pub enum Node {
    Null,
    Bool(bool),
    Number(Seq<char>),
    Str(Seq<char>),
    List(Seq<Node>),
    Mapping(Seq<(Seq<char>, Node)>),
}

/// The model of a value: the same tree over `Seq<char>` and `Seq`.
pub open spec fn node_of(v: Value) -> Node
    decreases v, 1int,
{
    match v {
        Value::Null => Node::Null,
        Value::Bool(b) => Node::Bool(b),
        Value::Number(s) => Node::Number(s@),
        Value::Str(s) => Node::Str(s@),
        Value::List(items) => Node::List(nodes_of(items@)),
        Value::Mapping(pairs) => Node::Mapping(entries_of(pairs@)),
    }
}

/// The models of the elements of a list, in order.
pub open spec fn nodes_of(s: Seq<Value>) -> Seq<Node>
    decreases s, 0int,
{
    if s.len() == 0 {
        Seq::empty()
    } else {
        nodes_of(s.drop_last()).push(node_of(s.last()))
    }
}

/// The models of the pairs of a mapping, in order.
pub open spec fn entries_of(s: Seq<(String, Value)>) -> Seq<(Seq<char>, Node)>
    decreases s, 0int,
{
    if s.len() == 0 {
        Seq::empty()
    } else {
        entries_of(s.drop_last()).push((s.last().0@, node_of(s.last().1)))
    }
}

/// Element `i` of a list's model is the model of element `i`.
pub proof fn lemma_nodes_of(s: Seq<Value>, i: int)
    requires
        0 <= i < s.len(),
    ensures
        nodes_of(s).len() == s.len(),
        nodes_of(s)[i] == node_of(s[i]),
    decreases s.len(),
{
    lemma_nodes_of_len(s);
    if i < s.len() - 1 {
        lemma_nodes_of(s.drop_last(), i);
    }
}

pub proof fn lemma_nodes_of_len(s: Seq<Value>)
    ensures
        nodes_of(s).len() == s.len(),
    decreases s.len(),
{
    if s.len() > 0 {
        lemma_nodes_of_len(s.drop_last());
    }
}

/// Pair `i` of a mapping's model is the model of pair `i`.
pub proof fn lemma_entries_of(s: Seq<(String, Value)>, i: int)
    requires
        0 <= i < s.len(),
    ensures
        entries_of(s).len() == s.len(),
        entries_of(s)[i] == (s[i].0@, node_of(s[i].1)),
    decreases s.len(),
{
    lemma_entries_of_len(s);
    if i < s.len() - 1 {
        lemma_entries_of(s.drop_last(), i);
    }
}

pub proof fn lemma_entries_of_len(s: Seq<(String, Value)>)
    ensures
        entries_of(s).len() == s.len(),
    decreases s.len(),
{
    if s.len() > 0 {
        lemma_entries_of_len(s.drop_last());
    }
}

impl View for Value {
    type V = Node;

    open spec fn view(&self) -> Node {
        node_of(*self)
    }
}

/// Nesting depth of a node: 0 for scalars, one more than the deepest
/// child for containers. Bounds the indentation level of the output.
pub open spec fn depth(n: Node) -> nat
    decreases n, 1int,
{
    match n {
        Node::List(items) => 1 + list_depth(items),
        Node::Mapping(pairs) => 1 + map_depth(pairs),
        _ => 0,
    }
}

/// The deepest nesting among the elements of a list.
pub open spec fn list_depth(items: Seq<Node>) -> nat
    decreases items, 0int,
{
    if items.len() == 0 {
        0
    } else if depth(items.last()) >= list_depth(items.drop_last()) {
        depth(items.last())
    } else {
        list_depth(items.drop_last())
    }
}

/// The deepest nesting among the values of a mapping.
pub open spec fn map_depth(pairs: Seq<(Seq<char>, Node)>) -> nat
    decreases pairs, 0int,
{
    if pairs.len() == 0 {
        0
    } else if depth(pairs.last().1) >= map_depth(pairs.drop_last()) {
        depth(pairs.last().1)
    } else {
        map_depth(pairs.drop_last())
    }
}

/// Each list element is at most as deep as the list's element bound.
pub proof fn lemma_list_depth(items: Seq<Node>, i: int)
    requires
        0 <= i < items.len(),
    ensures
        depth(items[i]) <= list_depth(items),
    decreases items.len(),
{
    if i == items.len() - 1 {
        assert(items.last() == items[i]);
    } else {
        lemma_list_depth(items.drop_last(), i);
        assert(items.drop_last()[i] == items[i]);
    }
}

/// Each mapping value is at most as deep as the mapping's value bound.
pub proof fn lemma_map_depth(pairs: Seq<(Seq<char>, Node)>, i: int)
    requires
        0 <= i < pairs.len(),
    ensures
        depth(pairs[i].1) <= map_depth(pairs),
    decreases pairs.len(),
{
    if i == pairs.len() - 1 {
        assert(pairs.last() == pairs[i]);
    } else {
        lemma_map_depth(pairs.drop_last(), i);
        assert(pairs.drop_last()[i] == pairs[i]);
    }
}

} // verus!
