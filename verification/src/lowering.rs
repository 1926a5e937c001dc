//! A lowered tree runs, step for step, as the tree is walked.

use crate::inst::{lower, lower_node, Node, Op};
use crate::machine::{run_spec, spins, step_spec, ExecError, Machine, Outcome, State};
use crate::structured::{
    lemma_walk_tree_bounds, lemma_walk_tree_failure, plain_op, walk_loop, walk_node, walk_tree,
    Status, Walk,
};
use vstd::prelude::*;

verus! {

/// `code` stands in `program`, its first instruction at `base`.
pub open spec fn placed(program: Seq<Op>, base: nat, code: Seq<Op>) -> bool {
    &&& base + code.len() <= program.len()
    &&& program.subrange(base as int, (base + code.len()) as int) == code
}

/// A machine that runs `program` from `m`, where `m` stands at `base`, before
/// a piece of code of length `len`, does within `fuel` steps what the walk `w`
/// says: it comes to the end of the piece with the steps of `w` left, or is
/// still inside it, or has failed, in the state of `w` each time.
pub open spec fn agrees(
    program: Seq<Op>,
    base: nat,
    len: nat,
    m: Machine,
    fuel: nat,
    w: Walk,
) -> bool {
    match w.status {
        Status::Done => w.left <= fuel && run_spec(program, m, (fuel - w.left) as nat) == (Outcome {
            machine: Machine { state: w.state, ip: base + len },
            error: None,
        }),
        Status::OutOfFuel => {
            let o = run_spec(program, m, fuel);
            o.error is None && o.machine.state == w.state && base <= o.machine.ip < base + len
        },
        Status::Failed(e) => {
            let o = run_spec(program, m, fuel);
            o.error == Some(e) && o.machine.state == w.state
        },
    }
}

/// A run of `a + b` steps is a run of `a` steps and then, unless that
/// failed, a run of `b` steps from where it ended.
pub proof fn lemma_run_add(program: Seq<Op>, m: Machine, a: nat, b: nat)
    ensures
        run_spec(program, m, a + b) == if run_spec(program, m, a).error is Some {
            run_spec(program, m, a)
        } else {
            run_spec(program, run_spec(program, m, a).machine, b)
        },
    decreases a,
{
    if a > 0 && m.ip < program.len() {
        match step_spec(program, m) {
            Ok(next) => {
                lemma_run_add(program, next, (a - 1) as nat, b);
            },
            Err(e) => {},
        }
    }
}

/// A machine on an instruction that spins stays there, however long it runs.
proof fn lemma_run_spins(program: Seq<Op>, m: Machine, fuel: nat)
    requires
        m.ip < program.len(),
        spins(program[m.ip as int], m.state),
    ensures
        run_spec(program, m, fuel) == (Outcome { machine: m, error: None }),
    decreases fuel,
{
    if fuel > 0 {
        lemma_run_spins(program, m, (fuel - 1) as nat);
    }
}

/// What holds of a run from `mid` holds of the longer run from `m` that
/// comes to `mid` first.
proof fn lemma_agrees_after(
    program: Seq<Op>,
    base: nat,
    len: nat,
    m: Machine,
    steps: nat,
    mid: Machine,
    base2: nat,
    len2: nat,
    fuel: nat,
    w: Walk,
)
    requires
        run_spec(program, m, steps) == (Outcome { machine: mid, error: None }),
        agrees(program, base2, len2, mid, fuel, w),
        base <= base2,
        base2 + len2 <= base + len,
        w.status is Done ==> base2 + len2 == base + len,
    ensures
        agrees(program, base, len, m, steps + fuel, w),
{
    match w.status {
        Status::Done => {
            lemma_run_add(program, m, steps, (fuel - w.left) as nat);
        },
        _ => {
            lemma_run_add(program, m, steps, fuel);
        },
    }
}

/// The flat form of a tree, placed in a program, runs as the tree walks.
pub proof fn lemma_tree_agrees(
    program: Seq<Op>,
    base: nat,
    tree: Seq<Node>,
    m: Machine,
    fuel: nat,
)
    requires
        program.len() <= usize::MAX,
        placed(program, base, lower(tree)),
        m.ip == base,
        m.state.wf(),
    ensures
        agrees(program, base, lower(tree).len(), m, fuel, walk_tree(tree, m.state, fuel)),
    decreases fuel, tree, 0nat,
{
    if tree.len() > 0 {
        let front = lower(tree.drop_last());
        let last = lower_node(tree.last());
        let mid = (base + front.len()) as nat;
        assert(program.subrange(base as int, (base + front.len()) as int) =~= front) by {
            assert(lower(tree).subrange(0, front.len() as int) =~= front);
        }
        assert(program.subrange(mid as int, (mid + last.len()) as int) =~= last) by {
            assert(lower(tree).subrange(front.len() as int, lower(tree).len() as int) =~= last);
        }
        lemma_tree_agrees(program, base, tree.drop_last(), m, fuel);
        lemma_walk_tree_bounds(tree.drop_last(), m.state, fuel);
        let w1 = walk_tree(tree.drop_last(), m.state, fuel);
        if w1.status is Done {
            let m1 = Machine { state: w1.state, ip: mid };
            lemma_node_agrees(program, mid, tree.last(), m1, w1.left);
            lemma_agrees_after(
                program,
                base,
                lower(tree).len(),
                m,
                (fuel - w1.left) as nat,
                m1,
                mid,
                last.len(),
                w1.left,
                walk_node(tree.last(), w1.state, w1.left),
            );
        }
    }
}

/// The flat form of a node, placed in a program, runs as the node walks.
pub proof fn lemma_node_agrees(program: Seq<Op>, base: nat, node: Node, m: Machine, fuel: nat)
    requires
        program.len() <= usize::MAX,
        placed(program, base, lower_node(node)),
        m.ip == base,
        m.state.wf(),
    ensures
        agrees(program, base, lower_node(node).len(), m, fuel, walk_node(node, m.state, fuel)),
    decreases fuel, node, 0nat,
{
    match node {
        Node::Loop(body) => {
            lemma_loop_agrees(program, base, body, m, fuel);
        },
        _ => {
            let op = plain_op(node);
            if fuel == 0 {
                // no step is taken
            } else if spins(op, m.state) {
                lemma_run_spins(program, m, fuel);
            } else {
                reveal_with_fuel(run_spec, 2);
            }
        },
    }
}

/// The flat form of a loop, placed in a program, runs as the loop walks.
pub proof fn lemma_loop_agrees(
    program: Seq<Op>,
    base: nat,
    body: Seq<Node>,
    m: Machine,
    fuel: nat,
)
    requires
        program.len() <= usize::MAX,
        placed(program, base, lower_node(Node::Loop(body))),
        m.ip == base,
        m.state.wf(),
    ensures
        agrees(
            program,
            base,
            lower(body).len() + 2,
            m,
            fuel,
            walk_loop(body, m.state, fuel),
        ),
    decreases fuel, body, 1nat,
{
    let inner = lower(body);
    let n = inner.len();
    let code = lower_node(Node::Loop(body));
    let len = n + 2;
    assert(code[0] == Op::LoopStart { if_zero_add: (n + 2) as usize });
    assert(code[(1 + n) as int] == Op::LoopEnd { if_non_zero_sub: (n + 1) as usize });
    assert(program.subrange((base + 1) as int, (base + 1 + n) as int) =~= inner) by {
        assert(code.subrange(1, (1 + n) as int) =~= inner);
    }
    if fuel == 0 {
        // no step is taken
    } else if m.state.cell() == 0 {
        reveal_with_fuel(run_spec, 2);
    } else {
        let m1 = m.goto(base + 1);
        assert(run_spec(program, m, 1) == Outcome { machine: m1, error: None }) by {
            reveal_with_fuel(run_spec, 2);
        }
        let rest = (fuel - 1) as nat;
        lemma_tree_agrees(program, base + 1, body, m1, rest);
        lemma_walk_tree_bounds(body, m.state, rest);
        let w = walk_tree(body, m.state, rest);
        match w.status {
            Status::Done => {
                let m2 = Machine { state: w.state, ip: base + 1 + n };
                let used = (rest - w.left) as nat;
                lemma_run_add(program, m, 1, used);
                if w.left == 0 {
                    // the machine stands on the loop's end, out of steps
                } else if w.state.cell() == 0 {
                    let m3 = m2.goto(base + n + 2);
                    assert(run_spec(program, m2, 1) == Outcome { machine: m3, error: None }) by {
                        reveal_with_fuel(run_spec, 2);
                    }
                    lemma_run_add(program, m, 1 + used, 1);
                } else {
                    let m3 = m2.goto(base);
                    assert(run_spec(program, m2, 1) == Outcome { machine: m3, error: None }) by {
                        reveal_with_fuel(run_spec, 2);
                    }
                    lemma_run_add(program, m, 1 + used, 1);
                    let again = (w.left - 1) as nat;
                    lemma_loop_agrees(program, base, body, m3, again);
                    lemma_agrees_after(
                        program,
                        base,
                        len,
                        m,
                        1 + used + 1,
                        m3,
                        base,
                        len,
                        again,
                        walk_loop(body, w.state, again),
                    );
                }
            },
            _ => {
                lemma_agrees_after(program, base, len, m, 1, m1, base + 1, n, rest, w);
            },
        }
    }
}

/// The flat form of a tree never fails on a jump: every distance that the
/// lowering has written leads to an instruction of the program, or to its
/// end.
pub proof fn lemma_lowered_jumps_resolve(tree: Seq<Node>, s: State, fuel: nat)
    requires
        lower(tree).len() <= usize::MAX,
        s.wf(),
    ensures
        run_spec(lower(tree), Machine { state: s, ip: 0 }, fuel).error != Some(
            ExecError::MalformedJumpError,
        ),
{
    let program = lower(tree);
    assert(program.subrange(0, program.len() as int) =~= program);
    lemma_tree_agrees(program, 0, tree, Machine { state: s, ip: 0 }, fuel);
    lemma_walk_tree_failure(tree, s, fuel);
    let w = walk_tree(tree, s, fuel);
    if w.status is Done {
        lemma_run_add(program, Machine { state: s, ip: 0 }, (fuel - w.left) as nat, w.left);
    }
}

} // verus!
