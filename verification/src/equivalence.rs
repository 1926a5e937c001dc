//! Optimizing keeps what a program does: the proof, and where it ends.

use crate::inst::{lower, lower_node, Node, Op};
use crate::lowering::{lemma_run_add, lemma_tree_agrees};
use crate::machine::{
    add_mod, run_spec, scan_left, scan_right, ExecError, Machine, Outcome, State, TAPE_LEN,
};
use crate::opt::{
    idiom, merged, optimized, push_run, replace, replace_node, run_length, run_length_node,
};
use crate::simulation::{
    can_follow, follows, lemma_simulates_concat, lemma_simulates_loop, lemma_simulates_refl,
    lemma_simulates_trans, lemma_simulates_witness, simulates,
};
use crate::structured::{
    lemma_walk_concat, lemma_walk_single, walk_loop, walk_node, walk_tree, Status, Walk,
};
use vstd::prelude::*;

verus! {

/// Two runs agree in what can be observed of them: the output, the error if
/// there is one, and else the state and whether the machine has halted.
pub open spec fn same_outcome(
    program_a: Seq<Op>,
    a: Outcome,
    program_b: Seq<Op>,
    b: Outcome,
) -> bool {
    &&& a.error == b.error
    &&& a.machine.state.output == b.machine.state.output
    &&& a.error is None ==> {
        &&& a.machine.state == b.machine.state
        &&& (a.machine.ip >= program_a.len() <==> b.machine.ip >= program_b.len())
    }
}

/// The node that two runs were merged into does what the two do, one after
/// the other.
proof fn lemma_merged_simulates(x: Node, y: Node)
    requires
        merged(x, y) is Some,
    ensures
        simulates(seq![merged(x, y).unwrap()], seq![x, y]),
{
    let m = merged(x, y).unwrap();
    let a = seq![m];
    let b = seq![x, y];
    assert(seq![x] + seq![y] =~= b);
    assert forall|s: State, n: nat| s.wf() implies #[trigger] can_follow(a, b, s, n) by {
        lemma_walk_single(m, s, n);
        if n == 0 {
            lemma_walk_concat(seq![x], seq![y], s, 0);
            lemma_walk_single(x, s, 0);
            assert(follows(a, b, s, n, 0));
        } else {
            let k = n + 1;
            lemma_walk_concat(seq![x], seq![y], s, k);
            lemma_walk_single(x, s, k);
            let wx = walk_node(x, s, k);
            if wx.status is Done {
                lemma_walk_single(y, wx.state, wx.left);
                let wa = walk_node(m, s, n);
                let wy = walk_node(y, wx.state, wx.left);
                if wa.status is Done {
                    assert(wy.state.memory =~= wa.state.memory);
                }
            }
            assert(follows(a, b, s, n, k));
        }
    }
}

/// Run-length coalescing of a node leaves a node that does the same.
pub proof fn lemma_run_length_node_simulates(node: Node)
    ensures
        simulates(seq![run_length_node(node)], seq![node]),
    decreases node,
{
    match node {
        Node::Loop(body) => {
            lemma_run_length_simulates(body);
            lemma_simulates_loop(run_length(body), body);
        },
        _ => {
            lemma_simulates_refl(seq![node]);
        },
    }
}

/// Run-length coalescing of a tree leaves a tree that does the same.
pub proof fn lemma_run_length_simulates(tree: Seq<Node>)
    ensures
        simulates(run_length(tree), tree),
    decreases tree,
{
    if tree.len() == 0 {
        assert(run_length(tree) =~= tree);
        lemma_simulates_refl(tree);
    } else {
        let front = tree.drop_last();
        let last = tree.last();
        let r = run_length(front);
        let y = run_length_node(last);
        lemma_run_length_simulates(front);
        lemma_run_length_node_simulates(last);
        lemma_simulates_concat(r, front, seq![y], seq![last]);
        assert(front + seq![last] =~= tree);
        if r.len() > 0 && merged(r.last(), y) is Some {
            let m = merged(r.last(), y).unwrap();
            lemma_merged_simulates(r.last(), y);
            lemma_simulates_refl(r.drop_last());
            lemma_simulates_concat(r.drop_last(), r.drop_last(), seq![m], seq![r.last(), y]);
            assert(r.drop_last() + seq![m] =~= push_run(r, y));
            assert(r.drop_last() + seq![r.last(), y] =~= r + seq![y]);
            lemma_simulates_trans(push_run(r, y), r + seq![y], tree);
        } else {
            assert(r + seq![y] =~= push_run(r, y));
        }
    }
}

/// The steps in which the loop that clears a cell has cleared it.
proof fn lemma_clear_loop(s: State, more: nat) -> (cost: nat)
    requires
        s.wf(),
    ensures
        cost >= 1,
        walk_loop(seq![Node::DecrementValue(1)], s, cost + more) == (Walk {
            state: s.store(s.pointer as int, 0),
            left: more,
            status: Status::Done,
        }),
    decreases s.cell(),
{
    if s.cell() == 0 {
        assert(s.memory.update(s.pointer as int, 0) =~= s.memory);
        1
    } else {
        let s1 = s.store(s.pointer as int, add_mod(s.cell(), -1));
        if s1.cell() == 0 {
            lemma_walk_single(Node::DecrementValue(1), s, 2 + more);
            3
        } else {
            let cost = lemma_clear_loop(s1, more);
            lemma_walk_single(Node::DecrementValue(1), s, cost + 2 + more);
            assert(s1.store(s1.pointer as int, 0).memory =~= s.store(s.pointer as int, 0).memory);
            cost + 3
        }
    }
}

/// Setting a cell to zero does what the loop that counts it down does.
proof fn lemma_clear_simulates()
    ensures
        simulates(seq![Node::Load(0)], seq![Node::Loop(seq![Node::DecrementValue(1)])]),
{
    let a = seq![Node::Load(0)];
    let body = seq![Node::DecrementValue(1)];
    let b = seq![Node::Loop(body)];
    assert forall|s: State, n: nat| s.wf() implies #[trigger] can_follow(a, b, s, n) by {
        lemma_walk_single(Node::Load(0), s, n);
        if n == 0 {
            lemma_walk_single(Node::Loop(body), s, 0);
            assert(follows(a, b, s, n, 0));
        } else {
            let more = (n - 1) as nat;
            let cost = lemma_clear_loop(s, more);
            lemma_walk_single(Node::Loop(body), s, cost + more);
            assert(follows(a, b, s, n, cost + more));
        }
    }
}

/// A loop that moves by zero on a cell that is not zero never ends, and
/// changes nothing.
proof fn lemma_idle_loop(body: Seq<Node>, s: State, fuel: nat)
    requires
        s.wf(),
        s.cell() != 0,
        body == seq![Node::InclementPointer(0)] || body == seq![Node::DecrementPointer(0)],
    ensures
        walk_loop(body, s, fuel) == (Walk { state: s, left: 0, status: Status::OutOfFuel }),
    decreases fuel,
{
    if fuel > 0 {
        lemma_walk_single(body[0], s, (fuel - 1) as nat);
        if fuel >= 3 {
            lemma_idle_loop(body, s, (fuel - 3) as nat);
        }
    }
}

/// The steps in which the loop that moves right by `per` has found a zero
/// cell, or has left the tape.
proof fn lemma_scan_right_loop(s: State, per: usize, more: nat) -> (cost: nat)
    requires
        s.wf(),
        s.cell() != 0,
        per > 0,
    ensures
        cost >= 1,
        match scan_right(s.memory, s.pointer, per as nat) {
            Some(found) => walk_loop(seq![Node::InclementPointer(per)], s, cost + more) == (Walk {
                state: s.at(found),
                left: more,
                status: Status::Done,
            }),
            None => {
                let w = walk_loop(seq![Node::InclementPointer(per)], s, cost + more);
                w.status == Status::Failed(ExecError::AddressingError) && w.state.output
                    == s.output
            },
        },
    decreases TAPE_LEN - s.pointer,
{
    let node = Node::InclementPointer(per);
    if s.pointer + per >= TAPE_LEN {
        lemma_walk_single(node, s, 1 + more);
        2
    } else {
        let s1 = s.at((s.pointer + per) as nat);
        if s1.cell() == 0 {
            lemma_walk_single(node, s, 2 + more);
            assert(scan_right(s.memory, (s.pointer + per) as nat, per as nat) == Some(s1.pointer));
            3
        } else {
            let cost = lemma_scan_right_loop(s1, per, more);
            lemma_walk_single(node, s, cost + 2 + more);
            cost + 3
        }
    }
}

/// The steps in which the loop that moves left by `per` has found a zero
/// cell, or has left the tape.
proof fn lemma_scan_left_loop(s: State, per: usize, more: nat) -> (cost: nat)
    requires
        s.wf(),
        s.cell() != 0,
        per > 0,
    ensures
        cost >= 1,
        match scan_left(s.memory, s.pointer, per as nat) {
            Some(found) => walk_loop(seq![Node::DecrementPointer(per)], s, cost + more) == (Walk {
                state: s.at(found),
                left: more,
                status: Status::Done,
            }),
            None => {
                let w = walk_loop(seq![Node::DecrementPointer(per)], s, cost + more);
                w.status == Status::Failed(ExecError::AddressingError) && w.state.output
                    == s.output
            },
        },
    decreases s.pointer,
{
    let node = Node::DecrementPointer(per);
    if s.pointer < per {
        lemma_walk_single(node, s, 1 + more);
        2
    } else {
        let s1 = s.at((s.pointer - per) as nat);
        if s1.cell() == 0 {
            lemma_walk_single(node, s, 2 + more);
            assert(scan_left(s.memory, s1.pointer, per as nat) == Some(s1.pointer));
            3
        } else {
            let cost = lemma_scan_left_loop(s1, per, more);
            lemma_walk_single(node, s, cost + 2 + more);
            cost + 3
        }
    }
}

/// A scan to the right does what the loop that moves right does.
proof fn lemma_scan_right_simulates(per: usize)
    ensures
        simulates(
            seq![Node::JumpZeroRight { per }],
            seq![Node::Loop(seq![Node::InclementPointer(per)])],
        ),
{
    let scan = Node::JumpZeroRight { per };
    let body = seq![Node::InclementPointer(per)];
    let a = seq![scan];
    let b = seq![Node::Loop(body)];
    assert forall|s: State, n: nat| s.wf() implies #[trigger] can_follow(a, b, s, n) by {
        lemma_walk_single(scan, s, n);
        if n == 0 || s.cell() == 0 {
            lemma_walk_single(Node::Loop(body), s, n);
            assert(follows(a, b, s, n, n));
        } else if per == 0 {
            lemma_idle_loop(body, s, n);
            lemma_walk_single(Node::Loop(body), s, n);
            assert(follows(a, b, s, n, n));
        } else {
            let more = (n - 1) as nat;
            let cost = lemma_scan_right_loop(s, per, more);
            lemma_walk_single(Node::Loop(body), s, cost + more);
            assert(follows(a, b, s, n, cost + more));
        }
    }
}

/// A scan to the left does what the loop that moves left does.
proof fn lemma_scan_left_simulates(per: usize)
    ensures
        simulates(
            seq![Node::JumpZeroLeft { per }],
            seq![Node::Loop(seq![Node::DecrementPointer(per)])],
        ),
{
    let scan = Node::JumpZeroLeft { per };
    let body = seq![Node::DecrementPointer(per)];
    let a = seq![scan];
    let b = seq![Node::Loop(body)];
    assert forall|s: State, n: nat| s.wf() implies #[trigger] can_follow(a, b, s, n) by {
        lemma_walk_single(scan, s, n);
        if n == 0 || s.cell() == 0 {
            lemma_walk_single(Node::Loop(body), s, n);
            assert(follows(a, b, s, n, n));
        } else if per == 0 {
            lemma_idle_loop(body, s, n);
            lemma_walk_single(Node::Loop(body), s, n);
            assert(follows(a, b, s, n, n));
        } else {
            let more = (n - 1) as nat;
            let cost = lemma_scan_left_loop(s, per, more);
            lemma_walk_single(Node::Loop(body), s, cost + more);
            assert(follows(a, b, s, n, cost + more));
        }
    }
}

/// No loop of this node is replaced by an instruction that adds one cell to
/// another.
pub open spec fn sum_free_node(node: Node) -> bool
    decreases node,
{
    match node {
        Node::Loop(body) => match idiom(body) {
            Some(Node::SumRight(_)) => false,
            Some(Node::SumLeft(_)) => false,
            Some(_) => true,
            None => sum_free(body),
        },
        _ => true,
    }
}

/// No loop of this tree, at any level, is replaced by an instruction that
/// adds one cell to another.
///
/// That instruction adds and leaves the cell it read as it is, where the loop
/// it stands for counts that cell down to zero; and it names its target even
/// where the loop, on a zero cell, would not.
pub open spec fn sum_free(tree: Seq<Node>) -> bool
    decreases tree,
{
    forall|i: int| 0 <= i < tree.len() ==> sum_free_node(#[trigger] tree[i])
}

/// Idiom substitution in a node leaves a node that does the same.
pub proof fn lemma_replace_node_simulates(node: Node)
    requires
        sum_free_node(node),
    ensures
        simulates(seq![replace_node(node)], seq![node]),
    decreases node,
{
    match node {
        Node::Loop(body) => {
            match idiom(body) {
                Some(Node::Load(_)) => {
                    assert(body =~= seq![Node::DecrementValue(1)]);
                    lemma_clear_simulates();
                },
                Some(Node::JumpZeroRight { per }) => {
                    assert(body =~= seq![Node::InclementPointer(per)]);
                    lemma_scan_right_simulates(per);
                },
                Some(Node::JumpZeroLeft { per }) => {
                    assert(body =~= seq![Node::DecrementPointer(per)]);
                    lemma_scan_left_simulates(per);
                },
                Some(_) => {},
                None => {
                    lemma_replace_simulates(body);
                    lemma_simulates_loop(replace(body), body);
                },
            }
        },
        _ => {
            lemma_simulates_refl(seq![node]);
        },
    }
}

/// Idiom substitution in a tree leaves a tree that does the same.
pub proof fn lemma_replace_simulates(tree: Seq<Node>)
    requires
        sum_free(tree),
    ensures
        simulates(replace(tree), tree),
    decreases tree,
{
    if tree.len() == 0 {
        assert(replace(tree) =~= tree);
        lemma_simulates_refl(tree);
    } else {
        let front = tree.drop_last();
        let last = tree.last();
        assert(sum_free(front)) by {
            assert forall|i: int| 0 <= i < front.len() implies sum_free_node(
                #[trigger] front[i],
            ) by {
                assert(front[i] == tree[i]);
            }
        }
        lemma_replace_simulates(front);
        lemma_replace_node_simulates(last);
        lemma_simulates_concat(replace(front), front, seq![replace_node(last)], seq![last]);
        assert(front + seq![last] =~= tree);
        assert(replace(front) + seq![replace_node(last)] =~= replace(tree));
    }
}

/// The flat form of a tree with one more node at its end.
proof fn lemma_lower_push(tree: Seq<Node>, node: Node)
    ensures
        lower(tree.push(node)) == lower(tree) + lower_node(node),
{
    assert(tree.push(node).drop_last() =~= tree);
}

/// Run-length coalescing does not make the flat form of a node longer.
proof fn lemma_run_length_node_shorter(node: Node)
    ensures
        lower_node(run_length_node(node)).len() <= lower_node(node).len(),
    decreases node,
{
    match node {
        Node::Loop(body) => {
            lemma_run_length_shorter(body);
        },
        _ => {},
    }
}

/// Run-length coalescing does not make the flat form of a tree longer.
proof fn lemma_run_length_shorter(tree: Seq<Node>)
    ensures
        lower(run_length(tree)).len() <= lower(tree).len(),
    decreases tree,
{
    if tree.len() > 0 {
        let r = run_length(tree.drop_last());
        let y = run_length_node(tree.last());
        lemma_run_length_shorter(tree.drop_last());
        lemma_run_length_node_shorter(tree.last());
        if r.len() > 0 && merged(r.last(), y) is Some {
            lemma_lower_push(r.drop_last(), merged(r.last(), y).unwrap());
            lemma_lower_push(r.drop_last(), r.last());
        } else {
            lemma_lower_push(r, y);
        }
    }
}

/// Idiom substitution does not make the flat form of a node longer.
proof fn lemma_replace_node_shorter(node: Node)
    ensures
        lower_node(replace_node(node)).len() <= lower_node(node).len(),
    decreases node,
{
    match node {
        Node::Loop(body) => {
            if idiom(body) is None {
                lemma_replace_shorter(body);
            }
        },
        _ => {},
    }
}

/// Idiom substitution does not make the flat form of a tree longer.
proof fn lemma_replace_shorter(tree: Seq<Node>)
    ensures
        lower(replace(tree)).len() <= lower(tree).len(),
    decreases tree,
{
    if tree.len() > 0 {
        lemma_replace_shorter(tree.drop_last());
        lemma_replace_node_shorter(tree.last());
        assert(replace(tree).drop_last() =~= replace(tree.drop_last()));
    }
}

/// The flat form of the optimized tree is no longer than that of the tree.
pub proof fn lemma_optimized_shorter(tree: Seq<Node>)
    ensures
        lower(optimized(tree)).len() <= lower(tree).len(),
{
    lemma_run_length_shorter(tree);
    lemma_replace_shorter(run_length(tree));
}

/// The optimized tree does what the tree does, step for step or faster.
pub proof fn lemma_optimized_simulates(tree: Seq<Node>)
    requires
        sum_free(run_length(tree)),
    ensures
        simulates(optimized(tree), tree),
{
    lemma_run_length_simulates(tree);
    lemma_replace_simulates(run_length(tree));
    lemma_simulates_trans(optimized(tree), run_length(tree), tree);
}

/// The flat forms of two trees, of which the second does what the first
/// does, run alike from the start of their programs: what the first has done
/// after `n` steps, the second has done after the `k` steps returned, and
/// `k` is at least `n`.
pub proof fn lemma_simulated_runs(a: Seq<Node>, b: Seq<Node>, s: State, n: nat) -> (k: nat)
    requires
        simulates(a, b),
        s.wf(),
        lower(a).len() <= usize::MAX,
        lower(b).len() <= usize::MAX,
    ensures
        k >= n,
        same_outcome(
            lower(a),
            run_spec(lower(a), Machine { state: s, ip: 0 }, n),
            lower(b),
            run_spec(lower(b), Machine { state: s, ip: 0 }, k),
        ),
{
    let k = lemma_simulates_witness(a, b, s, n);
    let m = Machine { state: s, ip: 0 };
    let pa = lower(a);
    let pb = lower(b);
    assert(pa.subrange(0, pa.len() as int) =~= pa);
    assert(pb.subrange(0, pb.len() as int) =~= pb);
    lemma_tree_agrees(pa, 0, a, m, n);
    lemma_tree_agrees(pb, 0, b, m, k);
    let wa = walk_tree(a, s, n);
    let wb = walk_tree(b, s, k);
    if wa.status is Done {
        lemma_run_add(pa, m, (n - wa.left) as nat, wa.left);
        lemma_run_add(pb, m, (k - wb.left) as nat, wb.left);
    }
    k
}

/// Optimizing keeps what a program does, for every tree in which no loop
/// becomes an instruction that adds one cell to another: what the lowered
/// optimized tree has done after `n` steps (its state and output, whether it
/// has halted, the error if it has failed), the lowered tree as it was has
/// done after the `k` steps returned, and `k` is at least `n`.
pub proof fn lemma_optimized_runs_alike(tree: Seq<Node>, s: State, n: nat) -> (k: nat)
    requires
        sum_free(run_length(tree)),
        s.wf(),
        lower(tree).len() <= usize::MAX,
    ensures
        k >= n,
        same_outcome(
            lower(optimized(tree)),
            run_spec(lower(optimized(tree)), Machine { state: s, ip: 0 }, n),
            lower(tree),
            run_spec(lower(tree), Machine { state: s, ip: 0 }, k),
        ),
{
    lemma_optimized_simulates(tree);
    lemma_optimized_shorter(tree);
    lemma_simulated_runs(optimized(tree), tree, s, n)
}

/// A run that has ended, by halting or by an error, stays as it is with
/// more steps.
pub proof fn lemma_run_ended(program: Seq<Op>, m: Machine, n: nat, more: nat)
    requires
        run_spec(program, m, n).error is Some || run_spec(program, m, n).machine.ip
            >= program.len(),
    ensures
        run_spec(program, m, n + more) == run_spec(program, m, n),
{
    lemma_run_add(program, m, n, more);
}

/// Optimizing keeps how a program ends, for every tree in which no loop
/// becomes an instruction that adds one cell to another: where the lowered
/// tree has halted or failed after `k` steps, the lowered optimized tree has
/// halted or failed in the same way after `k` steps, with the same output.
pub proof fn lemma_optimized_ends_alike(tree: Seq<Node>, s: State, k: nat)
    requires
        sum_free(run_length(tree)),
        s.wf(),
        lower(tree).len() <= usize::MAX,
        run_spec(lower(tree), Machine { state: s, ip: 0 }, k).error is Some || run_spec(
            lower(tree),
            Machine { state: s, ip: 0 },
            k,
        ).machine.ip >= lower(tree).len(),
    ensures
        same_outcome(
            lower(optimized(tree)),
            run_spec(lower(optimized(tree)), Machine { state: s, ip: 0 }, k),
            lower(tree),
            run_spec(lower(tree), Machine { state: s, ip: 0 }, k),
        ),
{
    let later = lemma_optimized_runs_alike(tree, s, k);
    lemma_run_ended(lower(tree), Machine { state: s, ip: 0 }, k, (later - k) as nat);
}

} // verus!
