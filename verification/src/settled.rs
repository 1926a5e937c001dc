//! Run-length coalescing is idempotent.

use crate::inst::Node;
use crate::opt::{merged, push_run, run_length, run_length_node};
use vstd::prelude::*;

verus! {

/// No run is left to coalesce in this node: it is no loop, or its body is
/// settled.
pub open spec fn settled_node(node: Node) -> bool
    decreases node,
{
    match node {
        Node::Loop(body) => settled(body),
        _ => true,
    }
}

/// No run is left to coalesce in this tree: no node can be merged into the one
/// before it, and every node is settled.
pub open spec fn settled(tree: Seq<Node>) -> bool
    decreases tree,
{
    tree.len() == 0 || {
        &&& settled(tree.drop_last())
        &&& settled_node(tree.last())
        &&& tree.len() >= 2 ==> merged(tree[tree.len() - 2], tree.last()) is None
    }
}

/// Coalescing leaves a settled node.
pub proof fn lemma_run_length_node_settles(node: Node)
    ensures
        settled_node(run_length_node(node)),
    decreases node,
{
    match node {
        Node::Loop(body) => {
            lemma_run_length_settles(body);
        },
        _ => {},
    }
}

/// Coalescing leaves a settled tree.
pub proof fn lemma_run_length_settles(tree: Seq<Node>)
    ensures
        settled(run_length(tree)),
    decreases tree,
{
    if tree.len() > 0 {
        let front = run_length(tree.drop_last());
        let next = run_length_node(tree.last());
        lemma_run_length_settles(tree.drop_last());
        lemma_run_length_node_settles(tree.last());
        let result = push_run(front, next);
        if front.len() > 0 && merged(front.last(), next) is Some {
            // the sum counts no less than the run it takes the place of, so
            // it cannot be merged into the node before it either
            let sum = merged(front.last(), next).unwrap();
            assert(result.drop_last() =~= front.drop_last());
            assert(settled_node(sum));
        } else {
            assert(result.drop_last() =~= front);
        }
    }
}

/// Coalescing changes nothing in a settled node.
pub proof fn lemma_settled_node_stays(node: Node)
    requires
        settled_node(node),
    ensures
        run_length_node(node) == node,
    decreases node,
{
    match node {
        Node::Loop(body) => {
            lemma_settled_stays(body);
        },
        _ => {},
    }
}

/// Coalescing changes nothing in a settled tree.
pub proof fn lemma_settled_stays(tree: Seq<Node>)
    requires
        settled(tree),
    ensures
        run_length(tree) == tree,
    decreases tree,
{
    if tree.len() > 0 {
        lemma_settled_stays(tree.drop_last());
        lemma_settled_node_stays(tree.last());
    }
}

/// Run-length coalescing is idempotent: a second pass over its result
/// changes nothing.
pub proof fn lemma_run_length_idempotent(tree: Seq<Node>)
    ensures
        run_length(run_length(tree)) == run_length(tree),
{
    lemma_run_length_settles(tree);
    lemma_settled_stays(run_length(tree));
}

} // verus!
