//! How trees, programs and errors are written out.

use crate::inst::{lemma_ast_view, nodes_of, Ast, AstCode, Node, Op, OpCode};
use crate::machine::ExecError;
use crate::parser::ParseError;
use crate::text::{append_right_aligned, decimal, decimal_text, right_aligned};
use vstd::prelude::*;

verus! {

/// A name, a number in decimal digits, and a closing bracket.
pub open spec fn counted(name: Seq<char>, count: nat) -> Seq<char> {
    name + decimal(count) + ")"@
}

/// How a node is written out: a move or an adjustment as its command and
/// its count, a loop as its body in square brackets, every other node as its
/// name with what it holds.
pub open spec fn shown_node(node: Node) -> Seq<char>
    decreases node,
{
    match node {
        Node::InclementPointer(count) => counted("> ("@, count as nat),
        Node::DecrementPointer(count) => counted("< ("@, count as nat),
        Node::InclementValue(count) => counted("+ ("@, count as nat),
        Node::DecrementValue(count) => counted("- ("@, count as nat),
        Node::Output => "Output"@,
        Node::Input => "Input"@,
        Node::Loop(body) => "["@ + shown(body) + "]"@,
        Node::Load(n) => counted("Load("@, n as nat),
        Node::SumRight(count) => counted("SumRight("@, count as nat),
        Node::SumLeft(count) => counted("SumLeft("@, count as nat),
        Node::JumpZeroRight { per } => counted("JumpZeroRight(per:"@, per as nat),
        Node::JumpZeroLeft { per } => counted("JumpZeroLeft(per:"@, per as nat),
    }
}

/// How a tree is written out: its nodes, one after the other.
pub open spec fn shown(tree: Seq<Node>) -> Seq<char>
    decreases tree,
{
    if tree.len() == 0 {
        Seq::empty()
    } else {
        shown(tree.drop_last()) + shown_node(tree.last())
    }
}

/// How an instruction is written out: as the node that it stands for, a
/// loop's start and end as a bracket and the distance.
pub open spec fn shown_op(op: Op) -> Seq<char> {
    match op {
        Op::InclementPointer(count) => counted("> ("@, count as nat),
        Op::DecrementPointer(count) => counted("< ("@, count as nat),
        Op::InclementValue(count) => counted("+ ("@, count as nat),
        Op::DecrementValue(count) => counted("- ("@, count as nat),
        Op::Output => "Output"@,
        Op::Input => "Input"@,
        Op::LoopStart { if_zero_add } => counted("[ ("@, if_zero_add as nat),
        Op::LoopEnd { if_non_zero_sub } => counted("] ("@, if_non_zero_sub as nat),
        Op::Load(n) => counted("Load("@, n as nat),
        Op::SumRight(count) => counted("SumRight("@, count as nat),
        Op::SumLeft(count) => counted("SumLeft("@, count as nat),
        Op::JumpZeroRight { per } => counted("JumpZeroRight(per:"@, per as nat),
        Op::JumpZeroLeft { per } => counted("JumpZeroLeft(per:"@, per as nat),
    }
}

/// How far the line of the instruction at `i` is indented: by one for each
/// loop that is open there, a loop's end standing under its start. A loop
/// end that closes no loop is not indented.
pub open spec fn indent_at(ops: Seq<Op>, i: int) -> nat
    decreases i, 1nat,
{
    let open = indent_after(ops, i);
    if ops[i] is LoopEnd && open > 0 {
        (open - 1) as nat
    } else {
        open
    }
}

/// How far the line behind the first `i` instructions would be indented
/// if the instruction there were no loop end.
pub open spec fn indent_after(ops: Seq<Op>, i: int) -> nat
    decreases i, 0nat,
{
    if i <= 0 {
        0
    } else if ops[i - 1] is LoopStart {
        indent_at(ops, i - 1) + 1
    } else {
        indent_at(ops, i - 1)
    }
}

/// `n` times four spaces.
pub open spec fn indents(n: nat) -> Seq<char>
    decreases n,
{
    if n == 0 {
        Seq::empty()
    } else {
        indents((n - 1) as nat) + "    "@
    }
}

/// The line of the instruction at `i`: its index, right-aligned to four
/// characters, a colon, the indentation and the instruction.
pub open spec fn line(ops: Seq<Op>, i: int) -> Seq<char> {
    right_aligned(decimal(i as nat), 4) + ":"@ + indents(indent_at(ops, i)) + shown_op(ops[i])
        + "\n"@
}

/// The lines of the first `n` instructions.
pub open spec fn lines(ops: Seq<Op>, n: int) -> Seq<char>
    decreases n,
{
    if n <= 0 {
        Seq::empty()
    } else {
        lines(ops, n - 1) + line(ops, n - 1)
    }
}

/// How a program is written out: a line for each instruction, between a
/// first line and a last.
pub open spec fn shown_program(ops: Seq<Op>) -> Seq<char> {
    "OpCode(\n"@ + lines(ops, ops.len() as int) + ")\n"@
}

fn counted_text(name: &str, count: usize) -> (text: String)
    ensures
        text@ == counted(name@, count as nat),
{
    let mut text = String::from_str(name);
    let digits = decimal_text(count);
    text.append(digits.as_str());
    text.append(")");
    text
}

impl Ast {
    /// Writes the node out.
    pub fn to_string(&self) -> (text: String)
        ensures
            text@ == shown_node(self@),
        decreases self@, 0nat,
    {
        proof {
            lemma_ast_view(*self);
        }
        match self {
            Ast::InclementPointer(count) => counted_text("> (", *count),
            Ast::DecrementPointer(count) => counted_text("< (", *count),
            Ast::InclementValue(count) => counted_text("+ (", *count),
            Ast::DecrementValue(count) => counted_text("- (", *count),
            Ast::Output => String::from_str("Output"),
            Ast::Input => String::from_str("Input"),
            Ast::Loop(code) => {
                let mut text = String::from_str("[");
                proof {
                    assert(decreases_to!(self@ => self@->Loop_0));
                }
                let body = code.to_string();
                text.append(body.as_str());
                text.append("]");
                text
            },
            Ast::Load(n) => counted_text("Load(", *n as usize),
            Ast::SumRight(count) => counted_text("SumRight(", *count),
            Ast::SumLeft(count) => counted_text("SumLeft(", *count),
            Ast::JumpZeroRight { per } => counted_text("JumpZeroRight(per:", *per),
            Ast::JumpZeroLeft { per } => counted_text("JumpZeroLeft(per:", *per),
        }
    }
}

impl AstCode {
    /// Writes the tree out.
    pub fn to_string(&self) -> (text: String)
        ensures
            text@ == shown(self@),
        decreases self@, 1nat,
    {
        let vec = self.vec();
        let n: usize = vec.len();
        let mut text = String::new();
        let mut i: usize = 0;
        while i < n
            invariant
                n == vec.len(),
                i <= n,
                nodes_of(vec@) == self@,
                text@ == shown(self@.take(i as int)),
            decreases n - i,
        {
            proof {
                assert(self@.take(i + 1).drop_last() =~= self@.take(i as int));
                assert(decreases_to!(self@ => self@[i as int]));
            }
            let node = vec[i].to_string();
            text.append(node.as_str());
            i += 1;
        }
        assert(self@.take(n as int) =~= self@);
        text
    }
}

impl Op {
    /// Writes the instruction out.
    pub fn to_string(&self) -> (text: String)
        ensures
            text@ == shown_op(*self),
    {
        match self {
            Op::InclementPointer(count) => counted_text("> (", *count),
            Op::DecrementPointer(count) => counted_text("< (", *count),
            Op::InclementValue(count) => counted_text("+ (", *count),
            Op::DecrementValue(count) => counted_text("- (", *count),
            Op::Output => String::from_str("Output"),
            Op::Input => String::from_str("Input"),
            Op::LoopStart { if_zero_add } => counted_text("[ (", *if_zero_add),
            Op::LoopEnd { if_non_zero_sub } => counted_text("] (", *if_non_zero_sub),
            Op::Load(n) => counted_text("Load(", *n as usize),
            Op::SumRight(count) => counted_text("SumRight(", *count),
            Op::SumLeft(count) => counted_text("SumLeft(", *count),
            Op::JumpZeroRight { per } => counted_text("JumpZeroRight(per:", *per),
            Op::JumpZeroLeft { per } => counted_text("JumpZeroLeft(per:", *per),
        }
    }
}

proof fn lemma_indent_bounds(ops: Seq<Op>, i: int)
    requires
        0 <= i,
    ensures
        indent_after(ops, i) <= i,
        indent_at(ops, i) <= i,
    decreases i,
{
    if i > 0 {
        lemma_indent_bounds(ops, i - 1);
    }
}

impl OpCode {
    /// Writes the program out, one instruction a line, each loop body
    /// indented.
    pub fn to_string(&self) -> (text: String)
        ensures
            text@ == shown_program(self@),
    {
        let ops = self.vec();
        let n: usize = ops.len();
        let mut indent: usize = 0;
        let mut text = String::from_str("OpCode(\n");
        let mut i: usize = 0;
        while i < n
            invariant
                n == ops.len(),
                i <= n,
                indent == indent_after(ops@, i as int),
                text@ == "OpCode(\n"@ + lines(ops@, i as int),
            decreases n - i,
        {
            proof {
                lemma_indent_bounds(ops@, i as int);
            }
            let op = ops[i];
            match op {
                Op::LoopEnd { .. } => {
                    if indent > 0 {
                        indent -= 1;
                    }
                },
                _ => {},
            }
            let index = decimal_text(i);
            append_right_aligned(&mut text, &index, 4);
            text.append(":");
            let mut k: usize = 0;
            let ghost head = text@;
            while k < indent
                invariant
                    k <= indent,
                    text@ == head + indents(k as nat),
                decreases indent - k,
            {
                text.append("    ");
                k += 1;
            }
            let shown = op.to_string();
            text.append(shown.as_str());
            text.append("\n");
            match op {
                Op::LoopStart { .. } => {
                    indent += 1;
                },
                _ => {},
            }
            i += 1;
        }
        text.append(")\n");
        text
    }
}

/// How an error of a run is written out.
pub open spec fn shown_error(error: ExecError) -> Seq<char> {
    match error {
        ExecError::AddressingError => "addressing error: outside the tape"@,
        ExecError::IoExhaustedError => "input exhausted: no byte to read"@,
        ExecError::MalformedJumpError => "malformed jump: a loop leads out of the program"@,
    }
}

impl ExecError {
    /// Writes the error out.
    pub fn to_string(&self) -> (text: String)
        ensures
            text@ == shown_error(*self),
    {
        match self {
            ExecError::AddressingError => String::from_str("addressing error: outside the tape"),
            ExecError::IoExhaustedError => String::from_str("input exhausted: no byte to read"),
            ExecError::MalformedJumpError => String::from_str(
                "malformed jump: a loop leads out of the program",
            ),
        }
    }
}

impl ParseError {
    /// Writes the fault out.
    pub fn to_string(&self) -> (text: String)
        ensures
            text@ == "incomplete loop"@,
    {
        match self {
            ParseError::IncompleteLoop => String::from_str("incomplete loop"),
        }
    }
}

} // verus!
