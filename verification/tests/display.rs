use brainfuck_rs::inst::{Ast, AstCode, Op, OpCode};
use brainfuck_rs::machine::ExecError;
use brainfuck_rs::parser::ParseError;
use brainfuck_rs::text::decimal_text;

#[test]
fn numbers_are_written_in_decimal() {
    assert_eq!(decimal_text(0), "0");
    assert_eq!(decimal_text(7), "7");
    assert_eq!(decimal_text(10), "10");
    assert_eq!(decimal_text(1234567890), "1234567890");
    assert_eq!(decimal_text(30000), "30000");
    assert_eq!(decimal_text(usize::MAX), format!("{}", usize::MAX));
}

#[test]
fn every_node_is_written_out() {
    let nodes = vec![
        (Ast::InclementPointer(1), "> (1)"),
        (Ast::DecrementPointer(20), "< (20)"),
        (Ast::InclementValue(300), "+ (300)"),
        (Ast::DecrementValue(0), "- (0)"),
        (Ast::Output, "Output"),
        (Ast::Input, "Input"),
        (Ast::Loop(AstCode::new(vec![])), "[]"),
        (Ast::Load(255), "Load(255)"),
        (Ast::SumRight(4), "SumRight(4)"),
        (Ast::SumLeft(5), "SumLeft(5)"),
        (Ast::JumpZeroRight { per: 6 }, "JumpZeroRight(per:6)"),
        (Ast::JumpZeroLeft { per: 7 }, "JumpZeroLeft(per:7)"),
    ];
    for (node, text) in nodes {
        assert_eq!(node.to_string(), text);
    }
}

#[test]
fn a_tree_is_written_as_its_nodes() {
    let code = AstCode::new(vec![
        Ast::InclementValue(2),
        Ast::Loop(AstCode::new(vec![
            Ast::Loop(AstCode::new(vec![Ast::DecrementValue(1)])),
            Ast::Output,
        ])),
        Ast::Input,
    ]);
    assert_eq!(code.to_string(), "+ (2)[[- (1)]Output]Input");
    assert_eq!(AstCode::new(vec![]).to_string(), "");
}

#[test]
fn every_instruction_is_written_out() {
    let ops = vec![
        (Op::InclementPointer(1), "> (1)"),
        (Op::DecrementPointer(20), "< (20)"),
        (Op::InclementValue(300), "+ (300)"),
        (Op::DecrementValue(0), "- (0)"),
        (Op::Output, "Output"),
        (Op::Input, "Input"),
        (Op::LoopStart { if_zero_add: 12 }, "[ (12)"),
        (Op::LoopEnd { if_non_zero_sub: 11 }, "] (11)"),
        (Op::Load(9), "Load(9)"),
        (Op::SumRight(4), "SumRight(4)"),
        (Op::SumLeft(5), "SumLeft(5)"),
        (Op::JumpZeroRight { per: 6 }, "JumpZeroRight(per:6)"),
        (Op::JumpZeroLeft { per: 7 }, "JumpZeroLeft(per:7)"),
    ];
    for (op, text) in ops {
        assert_eq!(op.to_string(), text);
    }
}

#[test]
fn a_program_is_written_with_its_loops_indented() {
    let code = AstCode::new(vec![
        Ast::InclementValue(2),
        Ast::Loop(AstCode::new(vec![
            Ast::Loop(AstCode::new(vec![Ast::DecrementValue(1)])),
            Ast::Output,
        ])),
        Ast::Input,
    ]);
    let lines = [
        "OpCode(",
        "   0:+ (2)",
        "   1:[ (6)",
        "   2:    [ (3)",
        "   3:        - (1)",
        "   4:    ] (2)",
        "   5:    Output",
        "   6:] (5)",
        "   7:Input",
        ")",
        "",
    ];
    assert_eq!(OpCode::from(code).to_string(), lines.join("\n"));
    assert_eq!(OpCode::new(vec![]).to_string(), "OpCode(\n)\n");
}

#[test]
fn a_loop_end_without_its_start_is_not_indented() {
    let program = OpCode::new(vec![
        Op::LoopEnd { if_non_zero_sub: 0 },
        Op::LoopStart { if_zero_add: 1 },
        Op::Output,
    ]);
    assert_eq!(program.to_string(), "OpCode(\n   0:] (0)\n   1:[ (1)\n   2:    Output\n)\n");
}

#[test]
fn line_numbers_are_aligned_to_four_columns() {
    let mut ops = Vec::new();
    for _ in 0..10001 {
        ops.push(Op::Output);
    }
    let text = OpCode::new(ops).to_string();
    let lines: Vec<&str> = text.lines().collect();
    assert_eq!(lines[1], "   0:Output");
    assert_eq!(lines[11], "  10:Output");
    assert_eq!(lines[101], " 100:Output");
    assert_eq!(lines[1001], "1000:Output");
    assert_eq!(lines[10001], "10000:Output");
}

#[test]
fn a_fault_is_written_out() {
    assert_eq!(ParseError::IncompleteLoop.to_string(), "incomplete loop");
}

#[test]
fn an_error_of_a_run_is_written_out() {
    assert_eq!(ExecError::AddressingError.to_string(), "addressing error: outside the tape");
    assert_eq!(ExecError::IoExhaustedError.to_string(), "input exhausted: no byte to read");
    assert_eq!(
        ExecError::MalformedJumpError.to_string(),
        "malformed jump: a loop leads out of the program"
    );
}
