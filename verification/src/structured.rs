//! What a tree does, told by its structure: the steps of the flat program it is
//! lowered to, counted without the program.

use crate::inst::{lower_node, Node, Op};
use crate::machine::{effect, lemma_effect_wf, spins, ExecError, State};
use vstd::prelude::*;

verus! {

/// How a walk through a tree ended.
pub enum Status {
    /// The tree was run to its end.
    Done,
    /// The steps allowed were used up before the end of the tree.
    OutOfFuel,
    /// An instruction failed.
    Failed(ExecError),
}

/// The result of running a tree for a limited number of steps: the state
/// reached, the steps that are left, and how the walk ended.
pub struct Walk {
    pub state: State,
    pub left: nat,
    pub status: Status,
}

/// The instruction that a node other than a loop is lowered to.
pub open spec fn plain_op(node: Node) -> Op {
    lower_node(node)[0]
}

/// Runs a tree from the state `s` for at most `fuel` steps, each step being
/// one step of the flat program that the tree is lowered to.
pub open spec fn walk_tree(tree: Seq<Node>, s: State, fuel: nat) -> Walk
    decreases fuel, tree, 0nat,
{
    if tree.len() == 0 {
        Walk { state: s, left: fuel, status: Status::Done }
    } else {
        let front = walk_tree(tree.drop_last(), s, fuel);
        match front.status {
            Status::Done => walk_node(
                tree.last(),
                front.state,
                if front.left <= fuel {
                    front.left
                } else {
                    fuel
                },
            ),
            _ => front,
        }
    }
}

/// Runs one node: a loop as [`walk_loop`] says; any other node takes one
/// step, unless it spins, in which case it uses up every step.
pub open spec fn walk_node(node: Node, s: State, fuel: nat) -> Walk
    decreases fuel, node, 0nat,
{
    match node {
        Node::Loop(body) => walk_loop(body, s, fuel),
        _ => if fuel == 0 || spins(plain_op(node), s) {
            Walk { state: s, left: 0, status: Status::OutOfFuel }
        } else {
            match effect(plain_op(node), s) {
                Ok(next) => Walk { state: next, left: (fuel - 1) as nat, status: Status::Done },
                Err(e) => Walk { state: s, left: 0, status: Status::Failed(e) },
            }
        },
    }
}

/// Runs a loop with the body `body`: one step for the test at its start,
/// then, as long as the cell under the cursor is not zero, the body and one
/// step for the test at its end, from where it goes back to its start.
pub open spec fn walk_loop(body: Seq<Node>, s: State, fuel: nat) -> Walk
    decreases fuel, body, 1nat,
{
    if fuel == 0 {
        Walk { state: s, left: 0, status: Status::OutOfFuel }
    } else if s.cell() == 0 {
        Walk { state: s, left: (fuel - 1) as nat, status: Status::Done }
    } else {
        let inner = walk_tree(body, s, (fuel - 1) as nat);
        match inner.status {
            Status::Done => {
                let left = if inner.left < fuel {
                    inner.left
                } else {
                    (fuel - 1) as nat
                };
                if left == 0 {
                    Walk { state: inner.state, left: 0, status: Status::OutOfFuel }
                } else if inner.state.cell() == 0 {
                    Walk { state: inner.state, left: (left - 1) as nat, status: Status::Done }
                } else {
                    walk_loop(body, inner.state, (left - 1) as nat)
                }
            },
            _ => inner,
        }
    }
}

/// A walk keeps the state well-formed and leaves no more steps than it was
/// given.
pub proof fn lemma_walk_tree_bounds(tree: Seq<Node>, s: State, fuel: nat)
    requires
        s.wf(),
    ensures
        walk_tree(tree, s, fuel).state.wf(),
        walk_tree(tree, s, fuel).left <= fuel,
    decreases fuel, tree, 0nat,
{
    if tree.len() > 0 {
        lemma_walk_tree_bounds(tree.drop_last(), s, fuel);
        let front = walk_tree(tree.drop_last(), s, fuel);
        if front.status is Done {
            lemma_walk_node_bounds(tree.last(), front.state, front.left);
        }
    }
}

/// See [`lemma_walk_tree_bounds`].
pub proof fn lemma_walk_node_bounds(node: Node, s: State, fuel: nat)
    requires
        s.wf(),
    ensures
        walk_node(node, s, fuel).state.wf(),
        walk_node(node, s, fuel).left <= fuel,
    decreases fuel, node, 0nat,
{
    match node {
        Node::Loop(body) => {
            lemma_walk_loop_bounds(body, s, fuel);
        },
        _ => {
            lemma_effect_wf(plain_op(node), s);
        },
    }
}

/// See [`lemma_walk_tree_bounds`].
pub proof fn lemma_walk_loop_bounds(body: Seq<Node>, s: State, fuel: nat)
    requires
        s.wf(),
    ensures
        walk_loop(body, s, fuel).state.wf(),
        walk_loop(body, s, fuel).left <= fuel,
    decreases fuel, body, 1nat,
{
    if fuel > 0 && s.cell() != 0 {
        lemma_walk_tree_bounds(body, s, (fuel - 1) as nat);
        let inner = walk_tree(body, s, (fuel - 1) as nat);
        if inner.status is Done && inner.left > 0 && inner.state.cell() != 0 {
            lemma_walk_loop_bounds(body, inner.state, (inner.left - 1) as nat);
        }
    }
}

/// A walk never fails on a loop's start or end.
pub proof fn lemma_walk_tree_failure(tree: Seq<Node>, s: State, fuel: nat)
    ensures
        walk_tree(tree, s, fuel).status != Status::Failed(ExecError::MalformedJumpError),
    decreases fuel, tree, 0nat,
{
    if tree.len() > 0 {
        lemma_walk_tree_failure(tree.drop_last(), s, fuel);
        let front = walk_tree(tree.drop_last(), s, fuel);
        if front.status is Done {
            lemma_walk_node_failure(
                tree.last(),
                front.state,
                if front.left <= fuel {
                    front.left
                } else {
                    fuel
                },
            );
        }
    }
}

/// See [`lemma_walk_tree_failure`].
pub proof fn lemma_walk_node_failure(node: Node, s: State, fuel: nat)
    ensures
        walk_node(node, s, fuel).status != Status::Failed(ExecError::MalformedJumpError),
    decreases fuel, node, 0nat,
{
    match node {
        Node::Loop(body) => {
            lemma_walk_loop_failure(body, s, fuel);
        },
        _ => {},
    }
}

/// See [`lemma_walk_tree_failure`].
pub proof fn lemma_walk_loop_failure(body: Seq<Node>, s: State, fuel: nat)
    ensures
        walk_loop(body, s, fuel).status != Status::Failed(ExecError::MalformedJumpError),
    decreases fuel, body, 1nat,
{
    if fuel > 0 && s.cell() != 0 {
        lemma_walk_tree_failure(body, s, (fuel - 1) as nat);
        let inner = walk_tree(body, s, (fuel - 1) as nat);
        if inner.status is Done {
            let left = if inner.left < fuel {
                inner.left
            } else {
                (fuel - 1) as nat
            };
            if left > 0 && inner.state.cell() != 0 {
                lemma_walk_loop_failure(body, inner.state, (left - 1) as nat);
            }
        }
    }
}

/// A walk that reached the end of its tree reaches it with more steps too,
/// in the same state, and has those steps left over.
pub proof fn lemma_walk_tree_more(tree: Seq<Node>, s: State, fuel: nat, more: nat)
    requires
        s.wf(),
        walk_tree(tree, s, fuel).status is Done,
    ensures
        walk_tree(tree, s, fuel + more) == (Walk {
            left: walk_tree(tree, s, fuel).left + more,
            ..walk_tree(tree, s, fuel)
        }),
    decreases fuel, tree, 0nat,
{
    if tree.len() > 0 {
        let front = walk_tree(tree.drop_last(), s, fuel);
        lemma_walk_tree_bounds(tree.drop_last(), s, fuel);
        lemma_walk_tree_bounds(tree.drop_last(), s, fuel + more);
        lemma_walk_tree_more(tree.drop_last(), s, fuel, more);
        lemma_walk_node_more(tree.last(), front.state, front.left, more);
    }
}

/// See [`lemma_walk_tree_more`].
pub proof fn lemma_walk_node_more(node: Node, s: State, fuel: nat, more: nat)
    requires
        s.wf(),
        walk_node(node, s, fuel).status is Done,
    ensures
        walk_node(node, s, fuel + more) == (Walk {
            left: walk_node(node, s, fuel).left + more,
            ..walk_node(node, s, fuel)
        }),
    decreases fuel, node, 0nat,
{
    match node {
        Node::Loop(body) => {
            lemma_walk_loop_more(body, s, fuel, more);
        },
        _ => {},
    }
}

/// See [`lemma_walk_tree_more`].
pub proof fn lemma_walk_loop_more(body: Seq<Node>, s: State, fuel: nat, more: nat)
    requires
        s.wf(),
        walk_loop(body, s, fuel).status is Done,
    ensures
        walk_loop(body, s, fuel + more) == (Walk {
            left: walk_loop(body, s, fuel).left + more,
            ..walk_loop(body, s, fuel)
        }),
    decreases fuel, body, 1nat,
{
    if fuel > 0 && s.cell() != 0 {
        let inner = walk_tree(body, s, (fuel - 1) as nat);
        lemma_walk_tree_bounds(body, s, (fuel - 1) as nat);
        lemma_walk_tree_bounds(body, s, (fuel - 1 + more) as nat);
        lemma_walk_tree_more(body, s, (fuel - 1) as nat, more);
        if inner.state.cell() != 0 {
            lemma_walk_loop_more(body, inner.state, (inner.left - 1) as nat, more);
        }
    }
}

/// Running one tree after another is running the first and then, if it was
/// run to its end, the second with the steps that are left.
pub proof fn lemma_walk_concat(a: Seq<Node>, b: Seq<Node>, s: State, fuel: nat)
    requires
        s.wf(),
    ensures
        walk_tree(a + b, s, fuel) == if walk_tree(a, s, fuel).status is Done {
            walk_tree(b, walk_tree(a, s, fuel).state, walk_tree(a, s, fuel).left)
        } else {
            walk_tree(a, s, fuel)
        },
    decreases b.len(),
{
    let first = walk_tree(a, s, fuel);
    lemma_walk_tree_bounds(a, s, fuel);
    if b.len() > 0 {
        assert((a + b).drop_last() =~= a + b.drop_last());
        lemma_walk_concat(a, b.drop_last(), s, fuel);
        if first.status is Done {
            lemma_walk_tree_bounds(b.drop_last(), first.state, first.left);
        }
    }
}

/// A tree of one node runs as that node does.
pub proof fn lemma_walk_single(node: Node, s: State, fuel: nat)
    ensures
        walk_tree(seq![node], s, fuel) == walk_node(node, s, fuel),
{
    let tree = seq![node];
    assert(walk_tree(tree.drop_last(), s, fuel) == Walk {
        state: s,
        left: fuel,
        status: Status::Done,
    });
}

} // verus!
