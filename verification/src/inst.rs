//! The instruction tree, the flat program, and the lowering of the one to the other.

use crate::jumps::{lemma_jump_invariant, lemma_lower_well_jumped, matched, well_jumped};
use vstd::prelude::*;
use vstd::std_specs::cmp::PartialEqSpecImpl;

verus! {

/// One node of an instruction tree, as a mathematical value.
///
/// This is what the contracts of the crate speak of: [`Ast`] holds the same
/// data in executable form and has a `Node` as its view.
pub enum Node {
    /// Move the cursor right by the count.
    InclementPointer(usize),
    /// Move the cursor left by the count.
    DecrementPointer(usize),
    /// Add the count to the cell under the cursor, modulo 256.
    InclementValue(usize),
    /// Subtract the count from the cell under the cursor, modulo 256.
    DecrementValue(usize),
    /// Write the cell under the cursor.
    Output,
    /// Read one byte into the cell under the cursor.
    Input,
    /// Repeat the body while the cell under the cursor is not zero.
    Loop(Seq<Node>),
    /// Set the cell under the cursor.
    Load(u8),
    /// Add the cell under the cursor to the cell that many places to the right.
    SumRight(usize),
    /// Add the cell under the cursor to the cell that many places to the left.
    SumLeft(usize),
    /// Step right by `per` until the cell under the cursor is zero.
    JumpZeroRight { per: usize },
    /// Step left by `per` until the cell under the cursor is zero.
    JumpZeroLeft { per: usize },
}

/// An instruction tree: a sequence of nodes, loops holding their bodies.
#[derive(Debug, Eq, Default, Hash)]
pub struct AstCode(Vec<Ast>);

/// One node of an instruction tree.
#[derive(Debug, Eq, Hash)]
pub enum Ast {
    InclementPointer(usize),
    DecrementPointer(usize),
    InclementValue(usize),
    DecrementValue(usize),
    Output,
    Input,
    Loop(AstCode),
    /// Set the cell under the cursor.
    Load(u8),
    /// Add the cell under the cursor to the cell that many places to the right.
    SumRight(usize),
    /// Add the cell under the cursor to the cell that many places to the left.
    SumLeft(usize),
    /// Step right by `per` until the cell under the cursor is zero.
    JumpZeroRight { per: usize },
    /// Step left by `per` until the cell under the cursor is zero.
    JumpZeroLeft { per: usize },
}

/// The nodes that a sequence of executable nodes stands for, one for one.
pub open spec fn nodes_of(v: Seq<Ast>) -> Seq<Node> {
    Seq::new(v.len(), |i: int| v[i]@)
}

impl Ast {
    /// The node that this value stands for.
    pub closed spec fn model(self) -> Node
        decreases self,
    {
        match self {
            Ast::InclementPointer(count) => Node::InclementPointer(count),
            Ast::DecrementPointer(count) => Node::DecrementPointer(count),
            Ast::InclementValue(count) => Node::InclementValue(count),
            Ast::DecrementValue(count) => Node::DecrementValue(count),
            Ast::Output => Node::Output,
            Ast::Input => Node::Input,
            Ast::Loop(code) => Node::Loop(
                Seq::new(
                    code.0@.len(),
                    |i: int|
                        if 0 <= i < code.0@.len() {
                            code.0@[i].model()
                        } else {
                            Node::Output
                        },
                ),
            ),
            Ast::Load(n) => Node::Load(n),
            Ast::SumRight(count) => Node::SumRight(count),
            Ast::SumLeft(count) => Node::SumLeft(count),
            Ast::JumpZeroRight { per } => Node::JumpZeroRight { per },
            Ast::JumpZeroLeft { per } => Node::JumpZeroLeft { per },
        }
    }
}

impl View for Ast {
    type V = Node;

    open spec fn view(&self) -> Node {
        self.model()
    }
}

impl View for AstCode {
    type V = Seq<Node>;

    closed spec fn view(&self) -> Seq<Node> {
        nodes_of(self.0@)
    }
}

/// What the view of each kind of node is.
pub broadcast proof fn lemma_ast_view(a: Ast)
    ensures
        #![trigger a.model()]
        match a {
            Ast::InclementPointer(count) => a@ == Node::InclementPointer(count),
            Ast::DecrementPointer(count) => a@ == Node::DecrementPointer(count),
            Ast::InclementValue(count) => a@ == Node::InclementValue(count),
            Ast::DecrementValue(count) => a@ == Node::DecrementValue(count),
            Ast::Output => a@ == Node::Output,
            Ast::Input => a@ == Node::Input,
            Ast::Loop(code) => a@ == Node::Loop(code@),
            Ast::Load(n) => a@ == Node::Load(n),
            Ast::SumRight(count) => a@ == Node::SumRight(count),
            Ast::SumLeft(count) => a@ == Node::SumLeft(count),
            Ast::JumpZeroRight { per } => a@ == (Node::JumpZeroRight { per }),
            Ast::JumpZeroLeft { per } => a@ == (Node::JumpZeroLeft { per }),
        },
{
    match a {
        Ast::Loop(code) => {
            assert(a.model()->Loop_0 =~= code@);
        },
        _ => {},
    }
}

impl PartialEqSpecImpl for Ast {
    open spec fn obeys_eq_spec() -> bool {
        true
    }

    /// Two nodes are equal where they stand for the same node.
    open spec fn eq_spec(&self, other: &Ast) -> bool {
        self@ == other@
    }
}

impl PartialEq for Ast {
    fn eq(&self, other: &Ast) -> (equal: bool)
        decreases self,
    {
        proof {
            lemma_ast_view(*self);
            lemma_ast_view(*other);
        }
        match (self, other) {
            (Ast::InclementPointer(a), Ast::InclementPointer(b)) => *a == *b,
            (Ast::DecrementPointer(a), Ast::DecrementPointer(b)) => *a == *b,
            (Ast::InclementValue(a), Ast::InclementValue(b)) => *a == *b,
            (Ast::DecrementValue(a), Ast::DecrementValue(b)) => *a == *b,
            (Ast::Output, Ast::Output) => true,
            (Ast::Input, Ast::Input) => true,
            (Ast::Loop(a), Ast::Loop(b)) => a.eq(b),
            (Ast::Load(a), Ast::Load(b)) => *a == *b,
            (Ast::SumRight(a), Ast::SumRight(b)) => *a == *b,
            (Ast::SumLeft(a), Ast::SumLeft(b)) => *a == *b,
            (Ast::JumpZeroRight { per: a }, Ast::JumpZeroRight { per: b }) => *a == *b,
            (Ast::JumpZeroLeft { per: a }, Ast::JumpZeroLeft { per: b }) => *a == *b,
            _ => false,
        }
    }
}

impl PartialEqSpecImpl for AstCode {
    open spec fn obeys_eq_spec() -> bool {
        true
    }

    /// Two trees are equal where they stand for the same nodes.
    open spec fn eq_spec(&self, other: &AstCode) -> bool {
        self@ == other@
    }
}

impl PartialEq for AstCode {
    fn eq(&self, other: &AstCode) -> (equal: bool)
        decreases self,
    {
        if self.0.len() != other.0.len() {
            assert(self@.len() != other@.len());
            return false;
        }
        let mut i: usize = 0;
        while i < self.0.len()
            invariant
                i <= self.0.len(),
                self.0.len() == other.0.len(),
                forall|j: int| 0 <= j < i ==> self.0@[j]@ == other.0@[j]@,
            decreases self.0.len() - i,
        {
            if !self.0[i].eq(&other.0[i]) {
                assert(self@[i as int] != other@[i as int]);
                return false;
            }
            i += 1;
        }
        assert(self@ =~= other@);
        true
    }
}

impl Clone for Ast {
    fn clone(&self) -> (copy: Self)
        ensures
            copy@ == self@,
        decreases self,
    {
        proof {
            lemma_ast_view(*self);
        }
        let copy = match self {
            Ast::InclementPointer(count) => Ast::InclementPointer(*count),
            Ast::DecrementPointer(count) => Ast::DecrementPointer(*count),
            Ast::InclementValue(count) => Ast::InclementValue(*count),
            Ast::DecrementValue(count) => Ast::DecrementValue(*count),
            Ast::Output => Ast::Output,
            Ast::Input => Ast::Input,
            Ast::Loop(code) => Ast::Loop(code.clone()),
            Ast::Load(n) => Ast::Load(*n),
            Ast::SumRight(count) => Ast::SumRight(*count),
            Ast::SumLeft(count) => Ast::SumLeft(*count),
            Ast::JumpZeroRight { per } => Ast::JumpZeroRight { per: *per },
            Ast::JumpZeroLeft { per } => Ast::JumpZeroLeft { per: *per },
        };
        proof {
            lemma_ast_view(copy);
        }
        copy
    }
}

impl Clone for AstCode {
    fn clone(&self) -> (copy: Self)
        ensures
            copy@ == self@,
        decreases self,
    {
        let mut nodes: Vec<Ast> = Vec::with_capacity(self.0.len());
        let mut i: usize = 0;
        while i < self.0.len()
            invariant
                i <= self.0.len(),
                nodes@.len() == i,
                forall|j: int| 0 <= j < i ==> nodes@[j]@ == self.0@[j]@,
            decreases self.0.len() - i,
        {
            nodes.push(self.0[i].clone());
            i += 1;
        }
        AstCode(nodes)
    }
}

impl AstCode {
    pub fn new(code: Vec<Ast>) -> (tree: Self)
        ensures
            tree@ == nodes_of(code@),
    {
        Self(code)
    }

    pub fn vec(&self) -> (nodes: &Vec<Ast>)
        ensures
            nodes_of(nodes@) == self@,
    {
        &self.0
    }

    pub fn vec_mut(&mut self) -> (nodes: &mut Vec<Ast>)
        ensures
            nodes_of(nodes@) == old(self)@,
            final(self)@ == nodes_of(final(nodes)@),
    {
        &mut self.0
    }
}

/// One instruction of a flat program.
#[derive(Debug, Clone, Copy, PartialEq, Eq, Hash, Structural)]
pub enum Op {
    InclementPointer(usize),
    DecrementPointer(usize),
    InclementValue(usize),
    DecrementValue(usize),
    Output,
    Input,
    /// Start of a loop: where the cell under the cursor is zero, go forward by
    /// `if_zero_add` from this instruction, to one past the matching end.
    LoopStart { if_zero_add: usize },
    /// End of a loop: where the cell under the cursor is not zero, go back by
    /// `if_non_zero_sub` from this instruction, to the matching start.
    LoopEnd { if_non_zero_sub: usize },
    /// Set the cell under the cursor.
    Load(u8),
    /// Add the cell under the cursor to the cell that many places to the right.
    SumRight(usize),
    /// Add the cell under the cursor to the cell that many places to the left.
    SumLeft(usize),
    /// Step right by `per` until the cell under the cursor is zero.
    JumpZeroRight { per: usize },
    /// Step left by `per` until the cell under the cursor is zero.
    JumpZeroLeft { per: usize },
}

/// A flat program: instructions addressed by their index.
#[derive(Debug, PartialEq, Eq, Default, Hash)]
pub struct OpCode(Vec<Op>);

impl View for OpCode {
    type V = Seq<Op>;

    closed spec fn view(&self) -> Seq<Op> {
        self.0@
    }
}

/// A program has as many instructions as a vector can hold, at most.
pub proof fn lemma_program_len(program: OpCode)
    ensures
        program@.len() <= usize::MAX,
{
    assert(program@.len() == program.0.len());
}

impl Clone for OpCode {
    fn clone(&self) -> (copy: Self)
        ensures
            copy@ == self@,
    {
        let mut ops: Vec<Op> = Vec::with_capacity(self.0.len());
        let mut i: usize = 0;
        while i < self.0.len()
            invariant
                i <= self.0.len(),
                ops@ == self.0@.take(i as int),
            decreases self.0.len() - i,
        {
            ops.push(self.0[i]);
            i += 1;
        }
        OpCode(ops)
    }
}

impl OpCode {
    pub fn new(code: Vec<Op>) -> (program: Self)
        ensures
            program@ == code@,
    {
        Self(code)
    }

    pub fn vec(&self) -> (ops: &Vec<Op>)
        ensures
            ops@ == self@,
    {
        &self.0
    }
}

/// The flat form of one node: one instruction, or for a loop its start, its
/// lowered body and its end, each end holding the distance to the other.
pub open spec fn lower_node(node: Node) -> Seq<Op>
    decreases node,
{
    match node {
        Node::InclementPointer(count) => seq![Op::InclementPointer(count)],
        Node::DecrementPointer(count) => seq![Op::DecrementPointer(count)],
        Node::InclementValue(count) => seq![Op::InclementValue(count)],
        Node::DecrementValue(count) => seq![Op::DecrementValue(count)],
        Node::Output => seq![Op::Output],
        Node::Input => seq![Op::Input],
        Node::Loop(body) => {
            let inner = lower(body);
            seq![Op::LoopStart { if_zero_add: (inner.len() + 2) as usize }] + inner
                + seq![Op::LoopEnd { if_non_zero_sub: (inner.len() + 1) as usize }]
        },
        Node::Load(n) => seq![Op::Load(n)],
        Node::SumRight(count) => seq![Op::SumRight(count)],
        Node::SumLeft(count) => seq![Op::SumLeft(count)],
        Node::JumpZeroRight { per } => seq![Op::JumpZeroRight { per }],
        Node::JumpZeroLeft { per } => seq![Op::JumpZeroLeft { per }],
    }
}

/// The flat form of a tree: the flat forms of its nodes, in order.
pub open spec fn lower(tree: Seq<Node>) -> Seq<Op>
    decreases tree,
{
    if tree.len() == 0 {
        Seq::empty()
    } else {
        lower(tree.drop_last()) + lower_node(tree.last())
    }
}

/// Appends the flat form of `code` to `result`. A loop's start is pushed with
/// no distance, and patched once its end has been pushed.
fn emit(code: &AstCode, result: &mut Vec<Op>)
    ensures
        final(result)@ == old(result)@ + lower(code@),
    decreases code,
{
    let ghost before = result@;
    let n: usize = code.0.len();
    let mut i: usize = 0;
    while i < n
        invariant
            n == code.0.len(),
            i <= n,
            result@ == before + lower(code@.take(i as int)),
        decreases n - i,
    {
        let ghost done = result@;
        proof {
            lemma_ast_view(code.0[i as int]);
            assert(code@.take(i + 1).drop_last() =~= code@.take(i as int));
        }
        match &code.0[i] {
            Ast::InclementPointer(count) => result.push(Op::InclementPointer(*count)),
            Ast::DecrementPointer(count) => result.push(Op::DecrementPointer(*count)),
            Ast::InclementValue(count) => result.push(Op::InclementValue(*count)),
            Ast::DecrementValue(count) => result.push(Op::DecrementValue(*count)),
            Ast::Output => result.push(Op::Output),
            Ast::Input => result.push(Op::Input),
            Ast::Loop(body) => {
                result.push(Op::LoopStart { if_zero_add: 0 });
                let loop_start_index: usize = result.len() - 1;
                emit(body, result);
                let back: usize = result.len() - loop_start_index;
                result.push(Op::LoopEnd { if_non_zero_sub: back });
                let skip: usize = result.len() - loop_start_index;
                result.set(loop_start_index, Op::LoopStart { if_zero_add: skip });
            },
            Ast::Load(n) => result.push(Op::Load(*n)),
            Ast::SumRight(count) => result.push(Op::SumRight(*count)),
            Ast::SumLeft(count) => result.push(Op::SumLeft(*count)),
            Ast::JumpZeroRight { per } => result.push(Op::JumpZeroRight { per: *per }),
            Ast::JumpZeroLeft { per } => result.push(Op::JumpZeroLeft { per: *per }),
        }
        assert(result@ =~= done + lower_node(code.0[i as int]@));
        i += 1;
    }
    assert(code@.take(n as int) =~= code@);
}

impl vstd::std_specs::convert::FromSpecImpl<AstCode> for OpCode {
    /// Two programs with the same instructions need not be the same value, so
    /// the lowering is stated over views, in the contract of `from` itself.
    open spec fn obeys_from_spec() -> bool {
        false
    }

    open spec fn from_spec(v: AstCode) -> Self {
        arbitrary()
    }
}

impl From<AstCode> for OpCode {
    /// Lowers a tree to its flat program, in which every loop start and its
    /// loop end hold the distances to each other.
    fn from(value: AstCode) -> (program: Self)
        ensures
            program@ == lower(value@),
            well_jumped(program@),
            forall|s: int, e: int| #[trigger]
                matched(program@, s, e) ==> s + program@[s]->if_zero_add == e + 1 && e
                    - program@[e]->if_non_zero_sub == s,
    {
        let mut result: Vec<Op> = Vec::with_capacity(value.0.len());
        emit(&value, &mut result);
        proof {
            assert(lower(value@).len() == result.len());
            lemma_lower_well_jumped(value@);
            assert forall|s: int, e: int| #[trigger] matched(result@, s, e) implies s
                + result@[s]->if_zero_add == e + 1 && e - result@[e]->if_non_zero_sub == s by {
                lemma_jump_invariant(value@, s, e);
            }
        }
        Self(result)
    }
}

} // verus!
