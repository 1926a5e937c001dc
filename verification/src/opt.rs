//! The optimizer: run-length coalescing and idiom substitution.

use crate::inst::{lemma_ast_view, nodes_of, Ast, AstCode, Node};
use vstd::prelude::*;

verus! {

/// The single node that stands for `last` followed by `next`, where both are
/// runs of the same kind and the sum of their counts fits in a `usize`.
pub open spec fn merged(last: Node, next: Node) -> Option<Node> {
    match (last, next) {
        (Node::InclementPointer(a), Node::InclementPointer(b)) => if a + b <= usize::MAX {
            Some(Node::InclementPointer((a + b) as usize))
        } else {
            None
        },
        (Node::DecrementPointer(a), Node::DecrementPointer(b)) => if a + b <= usize::MAX {
            Some(Node::DecrementPointer((a + b) as usize))
        } else {
            None
        },
        (Node::InclementValue(a), Node::InclementValue(b)) => if a + b <= usize::MAX {
            Some(Node::InclementValue((a + b) as usize))
        } else {
            None
        },
        (Node::DecrementValue(a), Node::DecrementValue(b)) => if a + b <= usize::MAX {
            Some(Node::DecrementValue((a + b) as usize))
        } else {
            None
        },
        _ => None,
    }
}

/// `tree` with `next` added at its end: merged into the last node where
/// [`merged`] allows it, and as a node of its own otherwise.
pub open spec fn push_run(tree: Seq<Node>, next: Node) -> Seq<Node> {
    if tree.len() > 0 && merged(tree.last(), next) is Some {
        tree.drop_last().push(merged(tree.last(), next).unwrap())
    } else {
        tree.push(next)
    }
}

/// A node with the runs inside it coalesced: a loop's body is coalesced on its
/// own, and the loop itself stays one node.
pub open spec fn run_length_node(node: Node) -> Node
    decreases node,
{
    match node {
        Node::Loop(body) => Node::Loop(run_length(body)),
        _ => node,
    }
}

/// Run-length coalescing: neighbouring moves of one direction, and
/// neighbouring adjustments of one direction, become one node with the sum of
/// their counts, at every level of the tree.
pub open spec fn run_length(tree: Seq<Node>) -> Seq<Node>
    decreases tree,
{
    if tree.len() == 0 {
        Seq::empty()
    } else {
        push_run(run_length(tree.drop_last()), run_length_node(tree.last()))
    }
}

/// The instruction that does the work of a loop with this body, where the
/// body has one of the five known shapes.
pub open spec fn idiom(body: Seq<Node>) -> Option<Node> {
    if body.len() == 1 {
        match body[0] {
            Node::DecrementValue(count) => if count == 1 {
                Some(Node::Load(0))
            } else {
                None
            },
            Node::InclementPointer(count) => Some(Node::JumpZeroRight { per: count }),
            Node::DecrementPointer(count) => Some(Node::JumpZeroLeft { per: count }),
            _ => None,
        }
    } else if body.len() == 4 {
        match (body[0], body[1], body[2], body[3]) {
            (
                Node::DecrementValue(one),
                Node::InclementPointer(there),
                Node::InclementValue(other),
                Node::DecrementPointer(back),
            ) => if one == 1 && other == 1 && there == back {
                Some(Node::SumRight(there))
            } else {
                None
            },
            (
                Node::DecrementValue(one),
                Node::DecrementPointer(there),
                Node::InclementValue(other),
                Node::InclementPointer(back),
            ) => if one == 1 && other == 1 && there == back {
                Some(Node::SumLeft(there))
            } else {
                None
            },
            _ => None,
        }
    } else {
        None
    }
}

/// What a loop with this body becomes: its idiom where it has one, and else
/// a loop again, with the loops inside its body replaced.
pub open spec fn replace_loop(body: Seq<Node>) -> Node
    decreases body, 1nat,
{
    match idiom(body) {
        Some(node) => node,
        None => Node::Loop(replace(body)),
    }
}

/// What a node becomes: a loop as [`replace_loop`] says, any other node
/// itself.
pub open spec fn replace_node(node: Node) -> Node
    decreases node, 2nat,
{
    match node {
        Node::Loop(body) => replace_loop(body),
        _ => node,
    }
}

/// Idiom substitution: each loop of the tree, at every level, is replaced as
/// [`replace_loop`] says; every other node stays.
pub open spec fn replace(tree: Seq<Node>) -> Seq<Node>
    decreases tree, 0nat,
{
    Seq::new(
        tree.len(),
        |i: int|
            if 0 <= i < tree.len() {
                replace_node(tree[i])
            } else {
                Node::Output
            },
    )
}

/// Both passes: run-length coalescing, then idiom substitution.
pub open spec fn optimized(tree: Seq<Node>) -> Seq<Node> {
    replace(run_length(tree))
}

#[derive(Debug, Default)]
pub struct Optimizer {}

impl Optimizer {
    pub fn new() -> Self {
        Self {  }
    }

    /// Coalesces runs, then replaces the loops that have an idiom.
    pub fn optimize(&self, code: AstCode) -> (result: AstCode)
        ensures
            result@ == optimized(code@),
    {
        let code = run_length_optimize(code);
        let code = replace_patterns(code);
        code
    }
}

/// Adds `next` to the end of `result`, merging it into the last node where
/// both are runs of one kind and the summed count fits.
fn push_merged(result: &mut Vec<Ast>, next: Ast)
    ensures
        nodes_of(final(result)@) == push_run(nodes_of(old(result)@), next@),
{
    let len: usize = result.len();
    broadcast use lemma_ast_view;
    let sum: Option<Ast> = if len == 0 {
        None
    } else {
        match (&result[len - 1], &next) {
            (Ast::InclementPointer(a), Ast::InclementPointer(b)) => match a.checked_add(*b) {
                Some(count) => Some(Ast::InclementPointer(count)),
                None => None,
            },
            (Ast::DecrementPointer(a), Ast::DecrementPointer(b)) => match a.checked_add(*b) {
                Some(count) => Some(Ast::DecrementPointer(count)),
                None => None,
            },
            (Ast::InclementValue(a), Ast::InclementValue(b)) => match a.checked_add(*b) {
                Some(count) => Some(Ast::InclementValue(count)),
                None => None,
            },
            (Ast::DecrementValue(a), Ast::DecrementValue(b)) => match a.checked_add(*b) {
                Some(count) => Some(Ast::DecrementValue(count)),
                None => None,
            },
            _ => None,
        }
    };
    match sum {
        Some(node) => {
            result.set(len - 1, node);
        },
        None => {
            result.push(next);
        },
    }
}

/// Run-length coalescing of a tree.
pub fn run_length_optimize(code: AstCode) -> (result: AstCode)
    ensures
        result@ == run_length(code@),
    decreases code@,
{
    let vec = code.vec();
    let mut result: Vec<Ast> = Vec::new();
    let n: usize = vec.len();
    let mut i: usize = 0;
    while i < n
        invariant
            n == vec.len(),
            i <= n,
            nodes_of(vec@) == code@,
            nodes_of(result@) == run_length(code@.take(i as int)),
        decreases n - i,
    {
        proof {
            lemma_ast_view(vec[i as int]);
            assert(code@.take(i + 1).drop_last() =~= code@.take(i as int));
        }
        let next: Ast = match &vec[i] {
            Ast::Loop(l) => {
                let body = l.clone();
                let l = run_length_optimize(body);
                Ast::Loop(l)
            },
            other => other.clone(),
        };
        proof {
            lemma_ast_view(next);
            assert(next@ == run_length_node(code@[i as int]));
        }
        push_merged(&mut result, next);
        i += 1;
    }
    assert(code@.take(n as int) =~= code@);
    AstCode::new(result)
}

/// Idiom substitution in a tree.
pub fn replace_patterns(code: AstCode) -> (result: AstCode)
    ensures
        result@ == replace(code@),
    decreases code@, 0nat,
{
    broadcast use lemma_ast_view;

    let ghost tree = code@;
    let mut result = code;
    let n: usize = result.vec().len();
    let mut i: usize = 0;
    while i < n
        invariant
            i <= n,
            n == tree.len(),
            tree == code@,
            result@.len() == n,
            forall|j: int| 0 <= j < i ==> result@[j] == replace(tree)[j],
            forall|j: int| i <= j < n ==> result@[j] == tree[j],
        decreases n - i,
    {
        let replaced: Option<Ast> = {
            let vec = result.vec();
            proof {
                lemma_ast_view(vec[i as int]);
            }
            match &vec[i] {
                Ast::Loop(l) => {
                    assert(decreases_to!(tree[i as int] => tree[i as int]->Loop_0));
                    Some(replace_loops(l))
                },
                _ => None,
            }
        };
        assert(match replaced {
            Some(node) => node@ == replace(tree)[i as int],
            None => tree[i as int] == replace(tree)[i as int],
        });
        match replaced {
            Some(node) => {
                let nodes = result.vec_mut();
                nodes.set(i, node);
            },
            None => {},
        }
        i += 1;
    }
    result
}

/// What a loop with the body `loop_code` is replaced by.
pub fn replace_loops(loop_code: &AstCode) -> (result: Ast)
    ensures
        result@ == replace_loop(loop_code@),
    decreases loop_code@, 1nat,
{
    broadcast use lemma_ast_view;

    let vec = loop_code.vec();
    if vec.len() == 1 {
        match &vec[0] {
            Ast::DecrementValue(count) => {
                if *count == 1 {
                    return Ast::Load(0);
                }
            },
            Ast::InclementPointer(count) => {
                return Ast::JumpZeroRight { per: *count };
            },
            Ast::DecrementPointer(count) => {
                return Ast::JumpZeroLeft { per: *count };
            },
            _ => {},
        }
    } else if vec.len() == 4 {
        match (&vec[0], &vec[1], &vec[2], &vec[3]) {
            (
                Ast::DecrementValue(one),
                Ast::InclementPointer(count1),
                Ast::InclementValue(other),
                Ast::DecrementPointer(count2),
            ) => {
                if *one == 1 && *other == 1 && *count1 == *count2 {
                    return Ast::SumRight(*count1);
                }
            },
            (
                Ast::DecrementValue(one),
                Ast::DecrementPointer(count1),
                Ast::InclementValue(other),
                Ast::InclementPointer(count2),
            ) => {
                if *one == 1 && *other == 1 && *count1 == *count2 {
                    return Ast::SumLeft(*count1);
                }
            },
            _ => {},
        }
    }
    // No idiom has this shape: the loop stays, and its body is searched.
    Ast::Loop(replace_patterns(loop_code.clone()))
}

} // verus!
