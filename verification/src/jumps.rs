//! Which loop start and loop end of a flat program belong to each other, and that
//! lowering writes the distances between them.

use crate::inst::{lower, lower_node, Node, Op};
use vstd::prelude::*;

verus! {

/// By how much an instruction changes the depth of loop nesting.
pub open spec fn delta(op: Op) -> int {
    match op {
        Op::LoopStart { .. } => 1,
        Op::LoopEnd { .. } => -1,
        _ => 0,
    }
}

/// The depth of loop nesting before the instruction at `i`: the loop starts
/// before it, less the loop ends before it.
pub open spec fn depth(program: Seq<Op>, i: int) -> int
    decreases i,
{
    if i <= 0 {
        0
    } else {
        depth(program, i - 1) + delta(program[i - 1])
    }
}

/// The loop start at `s` and the loop end at `e` belong to each other: the
/// depth after `e` is the depth before `s` again, and is greater everywhere
/// between.
pub open spec fn matched(program: Seq<Op>, s: int, e: int) -> bool {
    &&& 0 <= s < e < program.len()
    &&& program[s] is LoopStart
    &&& program[e] is LoopEnd
    &&& depth(program, e + 1) == depth(program, s)
    &&& forall|j: int| s < j <= e ==> #[trigger] depth(program, j) > depth(program, s)
}

/// The distance that the instruction at `i` holds, if it is a loop's start or
/// end, leads to its partner.
pub open spec fn jump_ok(program: Seq<Op>, i: int) -> bool {
    match program[i] {
        Op::LoopStart { if_zero_add } => matched(program, i, i + if_zero_add - 1),
        Op::LoopEnd { if_non_zero_sub } => matched(program, i - if_non_zero_sub, i),
        _ => true,
    }
}

/// Loop starts and ends are balanced, and each holds the distance to its
/// partner.
pub open spec fn well_jumped(program: Seq<Op>) -> bool {
    &&& depth(program, program.len() as int) == 0
    &&& forall|i: int| 0 <= i <= program.len() ==> #[trigger] depth(program, i) >= 0
    &&& forall|i: int| 0 <= i < program.len() ==> #[trigger] jump_ok(program, i)
}

proof fn lemma_depth_prefix(a: Seq<Op>, b: Seq<Op>, i: int)
    requires
        0 <= i <= a.len(),
    ensures
        depth(a + b, i) == depth(a, i),
    decreases i,
{
    if i > 0 {
        lemma_depth_prefix(a, b, i - 1);
    }
}

proof fn lemma_depth_suffix(a: Seq<Op>, b: Seq<Op>, i: int)
    requires
        0 <= i <= b.len(),
    ensures
        depth(a + b, a.len() + i) == depth(a, a.len() as int) + depth(b, i),
    decreases i,
{
    if i > 0 {
        lemma_depth_suffix(a, b, i - 1);
    } else {
        lemma_depth_prefix(a, b, a.len() as int);
    }
}

proof fn lemma_matched_prefix(a: Seq<Op>, b: Seq<Op>, s: int, e: int)
    requires
        matched(a, s, e),
    ensures
        matched(a + b, s, e),
{
    lemma_depth_prefix(a, b, s);
    lemma_depth_prefix(a, b, e + 1);
    assert forall|j: int| s < j <= e implies #[trigger] depth(a + b, j) > depth(a + b, s) by {
        lemma_depth_prefix(a, b, j);
    }
}

proof fn lemma_matched_suffix(a: Seq<Op>, b: Seq<Op>, s: int, e: int)
    requires
        matched(b, s, e),
    ensures
        matched(a + b, a.len() + s, a.len() + e),
{
    lemma_depth_suffix(a, b, s);
    lemma_depth_suffix(a, b, e + 1);
    assert forall|j: int| a.len() + s < j <= a.len() + e implies #[trigger] depth(a + b, j)
        > depth(a + b, a.len() + s) by {
        lemma_depth_suffix(a, b, j - a.len());
    }
}

/// Two well-jumped programs, one after the other, are a well-jumped program.
proof fn lemma_well_jumped_concat(a: Seq<Op>, b: Seq<Op>)
    requires
        well_jumped(a),
        well_jumped(b),
    ensures
        well_jumped(a + b),
{
    let p = a + b;
    lemma_depth_suffix(a, b, b.len() as int);
    assert forall|i: int| 0 <= i <= p.len() implies #[trigger] depth(p, i) >= 0 by {
        if i <= a.len() {
            lemma_depth_prefix(a, b, i);
        } else {
            lemma_depth_suffix(a, b, i - a.len());
        }
    }
    assert forall|i: int| 0 <= i < p.len() implies #[trigger] jump_ok(p, i) by {
        if i < a.len() {
            assert(jump_ok(a, i));
            match a[i] {
                Op::LoopStart { if_zero_add } => {
                    lemma_matched_prefix(a, b, i, i + if_zero_add - 1);
                },
                Op::LoopEnd { if_non_zero_sub } => {
                    lemma_matched_prefix(a, b, i - if_non_zero_sub, i);
                },
                _ => {},
            }
        } else {
            let k = i - a.len();
            assert(jump_ok(b, k));
            match b[k] {
                Op::LoopStart { if_zero_add } => {
                    lemma_matched_suffix(a, b, k, k + if_zero_add - 1);
                },
                Op::LoopEnd { if_non_zero_sub } => {
                    lemma_matched_suffix(a, b, k - if_non_zero_sub, k);
                },
                _ => {},
            }
        }
    }
}

/// A well-jumped body between a loop start and a loop end that hold the
/// distances to each other is a well-jumped program.
proof fn lemma_well_jumped_loop(body: Seq<Op>, skip: usize, back: usize)
    requires
        well_jumped(body),
        skip == body.len() + 2,
        back == body.len() + 1,
    ensures
        well_jumped(
            seq![Op::LoopStart { if_zero_add: skip }] + body + seq![
                Op::LoopEnd { if_non_zero_sub: back },
            ],
        ),
{
    let head = seq![Op::LoopStart { if_zero_add: skip }];
    let tail = seq![Op::LoopEnd { if_non_zero_sub: back }];
    let front = head + body;
    let p = front + tail;
    let n = body.len() as int;
    assert(depth(head, 1) == 1) by {
        assert(depth(head, 0) == 0);
    }
    assert forall|i: int| 0 <= i <= n implies #[trigger] depth(p, 1 + i) == 1 + depth(body, i) by {
        lemma_depth_suffix(head, body, i);
        lemma_depth_prefix(front, tail, 1 + i);
    }
    assert(depth(p, n + 2) == 0) by {
        assert(depth(p, 1 + n) == 1 + depth(body, n));
    }
    assert forall|i: int| 0 <= i <= p.len() implies #[trigger] depth(p, i) >= 0 by {
        if 1 <= i <= n + 1 {
            assert(depth(p, 1 + (i - 1)) == 1 + depth(body, i - 1));
        }
    }
    assert(matched(p, 0, n + 1)) by {
        assert forall|j: int| 0 < j <= n + 1 implies #[trigger] depth(p, j) > depth(p, 0) by {
            assert(depth(p, 1 + (j - 1)) == 1 + depth(body, j - 1));
        }
    }
    assert forall|i: int| 0 <= i < p.len() implies #[trigger] jump_ok(p, i) by {
        if 1 <= i <= n {
            let k = i - 1;
            assert(jump_ok(body, k));
            match body[k] {
                Op::LoopStart { if_zero_add } => {
                    lemma_matched_suffix(head, body, k, k + if_zero_add - 1);
                    lemma_matched_prefix(front, tail, i, i + if_zero_add - 1);
                },
                Op::LoopEnd { if_non_zero_sub } => {
                    lemma_matched_suffix(head, body, k - if_non_zero_sub, k);
                    lemma_matched_prefix(front, tail, i - if_non_zero_sub, i);
                },
                _ => {},
            }
        }
    }
}

/// The flat form of a node is well-jumped, where its length fits in a `usize`.
pub proof fn lemma_lower_node_well_jumped(node: Node)
    requires
        lower_node(node).len() <= usize::MAX,
    ensures
        well_jumped(lower_node(node)),
    decreases node,
{
    match node {
        Node::Loop(body) => {
            let inner = lower(body);
            lemma_lower_well_jumped(body);
            lemma_well_jumped_loop(inner, (inner.len() + 2) as usize, (inner.len() + 1) as usize);
        },
        _ => {
            let p = lower_node(node);
            assert(depth(p, 1) == 0) by {
                assert(depth(p, 0) == 0);
            }
            assert forall|i: int| 0 <= i <= p.len() implies #[trigger] depth(p, i) >= 0 by {
                assert(depth(p, 0) == 0);
            }
        },
    }
}

/// The flat form of a tree is well-jumped, where its length fits in a `usize`.
pub proof fn lemma_lower_well_jumped(tree: Seq<Node>)
    requires
        lower(tree).len() <= usize::MAX,
    ensures
        well_jumped(lower(tree)),
    decreases tree,
{
    if tree.len() > 0 {
        lemma_lower_well_jumped(tree.drop_last());
        lemma_lower_node_well_jumped(tree.last());
        lemma_well_jumped_concat(lower(tree.drop_last()), lower_node(tree.last()));
    }
}

/// A loop start has one partner at most, and so has a loop end.
pub proof fn lemma_matched_unique(program: Seq<Op>, s: int, e: int, s2: int, e2: int)
    requires
        matched(program, s, e),
        matched(program, s2, e2),
        s == s2 || e == e2,
    ensures
        s == s2,
        e == e2,
{
    // the depth just behind the nearer end is that before the start, and
    // greater than that before the start, if the ends are not the same
    if s == s2 {
        if e < e2 {
            assert(depth(program, e + 1) > depth(program, s2));
        }
        if e2 < e {
            assert(depth(program, e2 + 1) > depth(program, s));
        }
    } else {
        if s < s2 {
            assert(depth(program, s2) > depth(program, s));
        }
        if s2 < s {
            assert(depth(program, s) > depth(program, s2));
        }
    }
}

/// The jump invariant of lowering: in the flat form of a tree, whatever its
/// nesting, a loop start at `s` and its loop end at `e` hold the distances
/// with `s + if_zero_add == e + 1` and `e - if_non_zero_sub == s`.
pub proof fn lemma_jump_invariant(tree: Seq<Node>, s: int, e: int)
    requires
        lower(tree).len() <= usize::MAX,
        matched(lower(tree), s, e),
    ensures
        s + lower(tree)[s]->if_zero_add == e + 1,
        e - lower(tree)[e]->if_non_zero_sub == s,
{
    let p = lower(tree);
    lemma_lower_well_jumped(tree);
    assert(jump_ok(p, s));
    assert(jump_ok(p, e));
    lemma_matched_unique(p, s, e, s, s + p[s]->if_zero_add - 1);
    lemma_matched_unique(p, s, e, e - p[e]->if_non_zero_sub, e);
}

} // verus!
