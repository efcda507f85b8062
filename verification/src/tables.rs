//! The hash tables of rustc-hash, and what they hold.

use std::hash::BuildHasherDefault;

use rustc_hash::{FxHashMap, FxHashSet, FxHasher};
use vstd::prelude::*;

verus! {

/// rustc-hash's hash function.
#[verifier::external_type_specification]
#[verifier::external_body]
pub struct ExFxHasher(FxHasher);

/// std's builder of hash functions from their defaults.
#[verifier::external_type_specification]
#[verifier::external_body]
#[verifier::reject_recursive_types(H)]
pub struct ExBuildHasherDefault<H>(BuildHasherDefault<H>);

/// A set of nodes.
pub type NodeSet = FxHashSet<u32>;

/// A table from label names to nodes.
pub type LabelTable = FxHashMap<String, u32>;

/// The nodes in a set.
pub uninterp spec fn node_set(set: NodeSet) -> Set<u32>;

/// The nodes in a table, by the characters of their labels.
pub uninterp spec fn label_nodes(table: LabelTable) -> Map<Seq<char>, u32>;

/// `FxHashSet::default`: the set without nodes.
#[verifier::external_body]
pub(crate) fn empty_node_set() -> (set: NodeSet)
    ensures
        node_set(set) == Set::<u32>::empty(),
{
    NodeSet::default()
}

/// `FxHashSet::clone` keeps what the set holds.
#[verifier::external_body]
pub(crate) fn clone_node_set(set: &NodeSet) -> (copy: NodeSet)
    ensures
        node_set(copy) == node_set(*set),
{
    set.clone()
}

/// `FxHashSet::insert` adds a node and tells whether it was new.
#[verifier::external_body]
pub(crate) fn insert_node(set: &mut NodeSet, node: u32) -> (new: bool)
    ensures
        new == !node_set(*old(set)).contains(node),
        node_set(*final(set)) == node_set(*old(set)).insert(node),
{
    set.insert(node)
}

/// `FxHashSet::contains` looks a node up.
#[verifier::external_body]
pub(crate) fn has_node(set: &NodeSet, node: u32) -> (found: bool)
    ensures
        found == node_set(*set).contains(node),
{
    set.contains(&node)
}

/// `FxHashMap::default`: the table without labels.
#[verifier::external_body]
pub(crate) fn empty_label_table() -> (table: LabelTable)
    ensures
        label_nodes(table).dom() == Set::<Seq<char>>::empty(),
{
    LabelTable::default()
}

/// `FxHashMap::clone` keeps what the table holds.
#[verifier::external_body]
pub(crate) fn clone_label_table(table: &LabelTable) -> (copy: LabelTable)
    ensures
        label_nodes(copy) == label_nodes(*table),
{
    table.clone()
}

/// `FxHashMap::insert` maps a label to a node, in place of what it was mapped to
/// before.
#[verifier::external_body]
pub(crate) fn insert_label(table: &mut LabelTable, label: String, node: u32)
    ensures
        label_nodes(*final(table)) == label_nodes(*old(table)).insert(label@, node),
{
    table.insert(label, node);
}

/// `FxHashMap::get` looks a label up.
#[verifier::external_body]
pub(crate) fn find_label(table: &LabelTable, label: &str) -> (node: Option<u32>)
    ensures
        node == if label_nodes(*table).contains_key(label@) {
            Some(label_nodes(*table)[label@])
        } else {
            None
        },
{
    table.get(label).copied()
}

} // verus!
