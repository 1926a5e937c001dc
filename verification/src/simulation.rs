//! One tree doing what another does, in as many steps or more.

use crate::inst::Node;
use crate::machine::State;
use crate::structured::{
    lemma_walk_concat, lemma_walk_single, lemma_walk_tree_bounds, lemma_walk_tree_more, walk_loop,
    walk_tree, Status, Walk,
};
use vstd::prelude::*;

verus! {

/// Two walks ended alike: both at the end of their trees, in one state and
/// with as many steps left; or both out of steps, in one state; or both with
/// the same failure, after the same output.
pub open spec fn same_walk(a: Walk, b: Walk) -> bool {
    match a.status {
        Status::Done => b.status == Status::Done && b.state == a.state && b.left == a.left,
        Status::OutOfFuel => b.status == Status::OutOfFuel && b.state == a.state,
        Status::Failed(e) => b.status == Status::Failed(e) && b.state.output == a.state.output,
    }
}

/// With `k` steps, and `k` is at least `n`, the tree `b` ends as the tree `a`
/// does with `n` steps.
pub open spec fn follows(a: Seq<Node>, b: Seq<Node>, s: State, n: nat, k: nat) -> bool {
    k >= n && same_walk(walk_tree(a, s, n), walk_tree(b, s, k))
}

/// There is a number of steps with which `b` follows `a`.
pub open spec fn can_follow(a: Seq<Node>, b: Seq<Node>, s: State, n: nat) -> bool {
    exists|k: nat| #[trigger] follows(a, b, s, n, k)
}

/// Whatever the tree `a` does within some number of steps, the tree `b` does
/// within that number of steps or more.
pub open spec fn simulates(a: Seq<Node>, b: Seq<Node>) -> bool {
    forall|s: State, n: nat| s.wf() ==> #[trigger] can_follow(a, b, s, n)
}

/// The steps that `b` needs to follow `a`, for a state and a number of steps.
pub proof fn lemma_simulates_witness(a: Seq<Node>, b: Seq<Node>, s: State, n: nat) -> (k: nat)
    requires
        simulates(a, b),
        s.wf(),
    ensures
        follows(a, b, s, n, k),
{
    assert(can_follow(a, b, s, n));
    choose|k: nat| #[trigger] follows(a, b, s, n, k)
}

pub proof fn lemma_simulates_refl(a: Seq<Node>)
    ensures
        simulates(a, a),
{
    assert forall|s: State, n: nat| s.wf() implies #[trigger] can_follow(a, a, s, n) by {
        assert(follows(a, a, s, n, n));
    }
}

pub proof fn lemma_simulates_trans(a: Seq<Node>, b: Seq<Node>, c: Seq<Node>)
    requires
        simulates(a, b),
        simulates(b, c),
    ensures
        simulates(a, c),
{
    assert forall|s: State, n: nat| s.wf() implies #[trigger] can_follow(a, c, s, n) by {
        let k1 = lemma_simulates_witness(a, b, s, n);
        let k2 = lemma_simulates_witness(b, c, s, k1);
        assert(follows(a, c, s, n, k2));
    }
}

/// Trees that are simulated piece by piece are simulated as a whole.
pub proof fn lemma_simulates_concat(a1: Seq<Node>, b1: Seq<Node>, a2: Seq<Node>, b2: Seq<Node>)
    requires
        simulates(a1, b1),
        simulates(a2, b2),
    ensures
        simulates(a1 + a2, b1 + b2),
{
    assert forall|s: State, n: nat| s.wf() implies #[trigger] can_follow(
        a1 + a2,
        b1 + b2,
        s,
        n,
    ) by {
        let k1 = lemma_simulates_witness(a1, b1, s, n);
        let wa = walk_tree(a1, s, n);
        lemma_walk_concat(a1, a2, s, n);
        lemma_walk_tree_bounds(a1, s, n);
        if wa.status is Done {
            let k2 = lemma_simulates_witness(a2, b2, wa.state, wa.left);
            let more = (k2 - wa.left) as nat;
            lemma_walk_tree_more(b1, s, k1, more);
            lemma_walk_concat(b1, b2, s, k1 + more);
            assert(follows(a1 + a2, b1 + b2, s, n, k1 + more));
        } else {
            lemma_walk_concat(b1, b2, s, k1);
            assert(follows(a1 + a2, b1 + b2, s, n, k1));
        }
    }
}

/// The steps that a loop with the body `b` needs to follow a loop with the
/// body `a`, where `b` simulates `a`.
proof fn lemma_loop_follows(a: Seq<Node>, b: Seq<Node>, s: State, n: nat) -> (k: nat)
    requires
        simulates(a, b),
        s.wf(),
    ensures
        k >= n,
        same_walk(walk_loop(a, s, n), walk_loop(b, s, k)),
    decreases n,
{
    if n == 0 {
        0
    } else if s.cell() == 0 {
        n
    } else {
        let rest = (n - 1) as nat;
        let kb = lemma_simulates_witness(a, b, s, rest);
        let wa = walk_tree(a, s, rest);
        lemma_walk_tree_bounds(a, s, rest);
        lemma_walk_tree_bounds(b, s, kb);
        if wa.status is Done && wa.left > 0 && wa.state.cell() != 0 {
            let again = (wa.left - 1) as nat;
            let k2 = lemma_loop_follows(a, b, wa.state, again);
            let more = (k2 - again) as nat;
            lemma_walk_tree_more(b, s, kb, more);
            lemma_walk_tree_bounds(b, s, kb + more);
            kb + more + 1
        } else {
            kb + 1
        }
    }
}

/// Loops whose bodies are simulated are simulated.
pub proof fn lemma_simulates_loop(a: Seq<Node>, b: Seq<Node>)
    requires
        simulates(a, b),
    ensures
        simulates(seq![Node::Loop(a)], seq![Node::Loop(b)]),
{
    let la = seq![Node::Loop(a)];
    let lb = seq![Node::Loop(b)];
    assert forall|s: State, n: nat| s.wf() implies #[trigger] can_follow(la, lb, s, n) by {
        let k = lemma_loop_follows(a, b, s, n);
        lemma_walk_single(Node::Loop(a), s, n);
        lemma_walk_single(Node::Loop(b), s, k);
        assert(follows(la, lb, s, n, k));
    }
}

} // verus!
