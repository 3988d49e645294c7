//! The insertion-ordered map and set of `indexmap` that hold the graph.
//!
//! Everything in this file is trusted: the contracts restate what the
//! `indexmap` source documents for the methods the graph calls, over a
//! sequence that stands for the entries in insertion order.
use vstd::prelude::*;
use indexmap::{IndexMap, IndexSet};
use crate::graph::nodes::Node;

verus! {

#[verifier::external_type_specification]
#[verifier::external_body]
#[verifier::reject_recursive_types(K)]
#[verifier::reject_recursive_types(V)]
#[verifier::reject_recursive_types(S)]
pub struct ExIndexMap<K, V, S>(IndexMap<K, V, S>);

#[verifier::external_type_specification]
#[verifier::external_body]
#[verifier::reject_recursive_types(T)]
#[verifier::reject_recursive_types(S)]
pub struct ExIndexSet<T, S>(IndexSet<T, S>);

/// The entries of a node map, in insertion order: each key's text with the
/// node stored under it.
pub uninterp spec fn node_entries(m: IndexMap<String, Node>) -> Seq<(Seq<char>, Node)>;

/// The items of an edge set, in insertion order: the texts of the two ends
/// and the kind code.
pub uninterp spec fn edge_items(s: IndexSet<(String, String, u8)>) -> Seq<(Seq<char>, Seq<char>, u8)>;

/// The position of the first entry whose key is `k`.
pub open spec fn key_pos(e: Seq<(Seq<char>, Node)>, k: Seq<char>) -> Option<int> {
    if exists|i: int| 0 <= i < e.len() && e[i].0 == k {
        Some(choose|i: int| 0 <= i < e.len() && e[i].0 == k && forall|j: int| 0 <= j < i ==> e[j].0 != k)
    } else {
        None
    }
}

/// Whether `x` is one of the items.
pub open spec fn has_item(s: Seq<(Seq<char>, Seq<char>, u8)>, x: (Seq<char>, Seq<char>, u8)) -> bool {
    exists|i: int| 0 <= i < s.len() && s[i] == x
}

/// `IndexMap::new`: an empty map.
#[verifier::external_body]
pub(crate) fn node_map_new() -> (m: IndexMap<String, Node>)
    ensures
        node_entries(m) == Seq::<(Seq<char>, Node)>::empty(),
{
    IndexMap::new()
}

/// `IndexMap::insert`: an existing key keeps its place and gets the new
/// value; a new key is appended with its value.
#[verifier::external_body]
pub(crate) fn node_map_insert(m: &mut IndexMap<String, Node>, key: String, value: Node) -> (r: Option<Node>)
    ensures
        match key_pos(node_entries(*old(m)), key@) {
            Some(i) => {
                &&& node_entries(*final(m)) == node_entries(*old(m)).update(i, (key@, value))
                &&& r == Some(node_entries(*old(m))[i].1)
            },
            None => {
                &&& node_entries(*final(m)) == node_entries(*old(m)).push((key@, value))
                &&& r is None
            },
        },
{
    m.insert(key, value)
}

/// `IndexMap::contains_key`.
#[verifier::external_body]
pub(crate) fn node_map_contains_key(m: &IndexMap<String, Node>, key: &String) -> (r: bool)
    ensures
        r == key_pos(node_entries(*m), key@) is Some,
{
    m.contains_key(key)
}

/// `IndexMap::get`: the value stored under `key`.
#[verifier::external_body]
pub(crate) fn node_map_get<'a>(m: &'a IndexMap<String, Node>, key: &String) -> (r: Option<&'a Node>)
    ensures
        match key_pos(node_entries(*m), key@) {
            Some(i) => r == Some(&node_entries(*m)[i].1),
            None => r is None,
        },
{
    m.get(key)
}

/// `IndexMap::len`.
#[verifier::external_body]
pub(crate) fn node_map_len(m: &IndexMap<String, Node>) -> (r: usize)
    ensures
        r == node_entries(*m).len(),
{
    m.len()
}

/// `IndexMap::get_index`: the entry at position `i` in insertion order.
#[verifier::external_body]
pub(crate) fn node_map_get_index<'a>(m: &'a IndexMap<String, Node>, i: usize) -> (r: Option<(&'a String, &'a Node)>)
    ensures
        if i < node_entries(*m).len() {
            r matches Some((k, v)) && k@ == node_entries(*m)[i as int].0 && *v == node_entries(*m)[i as int].1
        } else {
            r is None
        },
{
    m.get_index(i)
}

/// `IndexSet::new`: an empty set.
#[verifier::external_body]
pub(crate) fn edge_set_new() -> (s: IndexSet<(String, String, u8)>)
    ensures
        edge_items(s) == Seq::<(Seq<char>, Seq<char>, u8)>::empty(),
{
    IndexSet::new()
}

/// `IndexSet::insert`: a value equal to an item already present leaves the
/// set unchanged and gives `false`; any other value is appended and gives
/// `true`.
#[verifier::external_body]
pub(crate) fn edge_set_insert(s: &mut IndexSet<(String, String, u8)>, value: (String, String, u8)) -> (r: bool)
    ensures
        r == !has_item(edge_items(*old(s)), (value.0@, value.1@, value.2)),
        edge_items(*final(s)) == if r {
            edge_items(*old(s)).push((value.0@, value.1@, value.2))
        } else {
            edge_items(*old(s))
        },
{
    s.insert(value)
}

/// `IndexSet::len`.
#[verifier::external_body]
pub(crate) fn edge_set_len(s: &IndexSet<(String, String, u8)>) -> (r: usize)
    ensures
        r == edge_items(*s).len(),
{
    s.len()
}

/// `IndexSet::get_index`: the item at position `i` in insertion order.
#[verifier::external_body]
pub(crate) fn edge_set_get_index<'a>(s: &'a IndexSet<(String, String, u8)>, i: usize) -> (r: Option<&'a (String, String, u8)>)
    ensures
        if i < edge_items(*s).len() {
            r matches Some(x) && (x.0@, x.1@, x.2) == edge_items(*s)[i as int]
        } else {
            r is None
        },
{
    s.get_index(i)
}

} // verus!
