//! What holds of every tree that the builder grows, and of its JSON text.

use crate::builder::{grow, records};
use crate::json::{json_outcome, EncodeError};
use crate::record::Record;
use crate::tree::{leaf, Tree};
use crate::trie::{
    first_seen, grouped, lemma_grow_is_trie, lemma_seen_distinct, lemma_trie_children, total,
    total_under, trie,
};
use vstd::prelude::*;
use vstd::string::StringSliceAdditionalSpecFns;

verus! {

/// The node that is reached from `t` by going, at each step, to the child
/// with the given index.
pub open spec fn node_at(t: Tree, steps: Seq<int>) -> Tree
    decreases steps.len(),
{
    if steps.len() == 0 {
        t
    } else {
        node_at(t, steps.drop_last()).children[steps.last()]
    }
}

/// Whether every step goes to a child that exists.
pub open spec fn inside(t: Tree, steps: Seq<int>) -> bool
    decreases steps.len(),
{
    steps.len() == 0 || (inside(t, steps.drop_last()) && 0 <= steps.last() < node_at(
        t,
        steps.drop_last(),
    ).children.len())
}

/// The labels on the way from `t` to the node that the steps reach, the
/// label of `t` itself left out.
pub open spec fn path_of(t: Tree, steps: Seq<int>) -> Seq<Seq<char>>
    decreases steps.len(),
{
    if steps.len() == 0 {
        Seq::empty()
    } else {
        path_of(t, steps.drop_last()).push(node_at(t, steps).name)
    }
}

/// The labels of a list of nodes.
pub open spec fn names(nodes: Seq<Tree>) -> Seq<Seq<char>> {
    Seq::new(nodes.len(), |i: int| nodes[i].name)
}

/// Every node of the prefix tree is the prefix tree below its own path.
pub proof fn lemma_node_of_trie(records: Seq<Record>, steps: Seq<int>)
    requires
        inside(trie(records, Seq::empty()), steps),
    ensures
        node_at(trie(records, Seq::empty()), steps) == trie(
            records,
            path_of(trie(records, Seq::empty()), steps),
        ),
    decreases steps.len(),
{
    if steps.len() > 0 {
        let root = trie(records, Seq::empty());
        let up = steps.drop_last();
        lemma_node_of_trie(records, up);
        lemma_trie_children(records, path_of(root, up));
    }
}

/// There is always a root, and it carries the empty label.
pub proof fn law_root_label(records: Seq<Record>)
    ensures
        grow(records).name == Seq::<char>::empty(),
        grow(Seq::<Record>::empty()) == leaf(Seq::empty(), 0),
    decreases records.len(),
{
    if records.len() > 0 {
        law_root_label(records.drop_last());
    }
}

/// The count of the root is the sum of all counts, whatever the order of
/// the records.
pub proof fn law_root_total(records: Seq<Record>)
    ensures
        grow(records).value == total(records),
    decreases records.len(),
{
    if records.len() > 0 {
        law_root_total(records.drop_last());
    }
}

/// In the tree of grouped records every node carries the counts of exactly
/// the records whose path begins with the labels from the root to that node.
pub proof fn law_ancestor_sum(records: Seq<Record>, steps: Seq<int>)
    requires
        grouped(records),
        inside(grow(records), steps),
    ensures
        node_at(grow(records), steps).value == total_under(
            records,
            path_of(grow(records), steps),
        ),
{
    lemma_grow_is_trie(records);
    lemma_node_of_trie(records, steps);
}

/// In the tree of grouped records the children of every node stand in the
/// order in which the records first show their labels after the node's path.
pub proof fn law_child_order(records: Seq<Record>, steps: Seq<int>)
    requires
        grouped(records),
        inside(grow(records), steps),
    ensures
        names(node_at(grow(records), steps).children) == first_seen(
            records,
            path_of(grow(records), steps),
        ),
{
    lemma_grow_is_trie(records);
    lemma_node_of_trie(records, steps);
    let p = path_of(grow(records), steps);
    lemma_trie_children(records, p);
    assert(names(trie(records, p).children) =~= first_seen(records, p));
}

/// In the tree of grouped records no two children of a node have the same
/// label.
pub proof fn law_siblings_differ(records: Seq<Record>, steps: Seq<int>, a: int, b: int)
    requires
        grouped(records),
        inside(grow(records), steps),
        0 <= a < b < node_at(grow(records), steps).children.len(),
    ensures
        node_at(grow(records), steps).children[a].name != node_at(
            grow(records),
            steps,
        ).children[b].name,
{
    lemma_grow_is_trie(records);
    lemma_node_of_trie(records, steps);
    let p = path_of(grow(records), steps);
    lemma_trie_children(records, p);
    lemma_seen_distinct(records, p, a, b);
}

/// Writing the same tree twice gives the same outcome: the same text, or
/// the same error.
pub proof fn law_same_tree_same_json(
    t: Tree,
    first: Result<String, EncodeError>,
    second: Result<String, EncodeError>,
)
    requires
        json_outcome(t, first),
        json_outcome(t, second),
    ensures
        first is Ok <==> second is Ok,
        first is Ok ==> first->Ok_0@ == second->Ok_0@,
        first is Err ==> first->Err_0 == second->Err_0,
{
}

/// Lines with the same text give the same JSON text, run after run.
pub proof fn law_same_lines_same_json(
    first_lines: Seq<&str>,
    second_lines: Seq<&str>,
    first: Result<String, EncodeError>,
    second: Result<String, EncodeError>,
)
    requires
        first_lines.len() == second_lines.len(),
        forall|i: int| 0 <= i < first_lines.len() ==> first_lines[i]@ == second_lines[i]@,
        json_outcome(grow(records(first_lines)), first),
        json_outcome(grow(records(second_lines)), second),
    ensures
        first is Ok <==> second is Ok,
        first is Ok ==> first->Ok_0@ == second->Ok_0@,
        first is Err ==> first->Err_0 == second->Err_0,
{
    assert(records(first_lines) =~= records(second_lines));
}

} // verus!
