use brainfuck_rs::inst::{Ast, AstCode, Op, OpCode};
use brainfuck_rs::interpreter::Interpreter;
use brainfuck_rs::machine::{ExecError, TAPE_LEN};
use brainfuck_rs::opt::Optimizer;
use std::collections::VecDeque;

fn engine(ops: Vec<Op>, input: &[u8]) -> Interpreter {
    Interpreter::new(OpCode::new(ops), VecDeque::from(input.to_vec()), Vec::new())
}

#[test]
fn incl() {
    let mut interpreter = Interpreter::new(
        OpCode::new(vec![
            Op::InclementValue('H' as usize),
            Op::Output,
            Op::InclementValue('e' as usize - 'H' as usize),
            Op::Output,
            Op::InclementValue('l' as usize - 'e' as usize),
            Op::Output,
            Op::Output,
            Op::InclementValue('o' as usize - 'l' as usize),
            Op::Output,
        ]),
        VecDeque::new(),
        Vec::new(),
    );
    assert_eq!(interpreter.run(), Ok(()));

    assert_eq!(*interpreter.writer(), vec![b'H', b'e', b'l', b'l', b'o']);
}

#[test]
fn includes_loop() {
    // +++++++[>++++++++++<-]>++.
    let code = OpCode::new(vec![
        Op::InclementValue(7),
        Op::LoopStart { if_zero_add: 6 },
        Op::InclementPointer(1),
        Op::InclementValue(10),
        Op::DecrementPointer(1),
        Op::DecrementValue(1),
        Op::LoopEnd { if_non_zero_sub: 5 },
        Op::InclementPointer(1),
        Op::InclementValue(2),
        Op::Output,
    ]);

    let mut interpreter = Interpreter::new(code, VecDeque::new(), Vec::new());
    assert_eq!(interpreter.run(), Ok(()));

    assert_eq!(*interpreter.writer(), String::from("H").into_bytes())
}

#[test]
fn input() {
    let input_string = "hello";
    let mut interpreter = Interpreter::new(
        OpCode::new(vec![
            Op::Input,
            Op::InclementPointer(1),
            Op::Input,
            Op::InclementPointer(1),
            Op::Input,
            Op::InclementPointer(1),
            Op::Input,
            Op::InclementPointer(1),
            Op::Input,
            Op::DecrementPointer(4),
            Op::Output,
            Op::InclementPointer(1),
            Op::Output,
            Op::InclementPointer(1),
            Op::Output,
            Op::InclementPointer(1),
            Op::Output,
            Op::InclementPointer(1),
            Op::Output,
        ]),
        VecDeque::from(input_string.as_bytes().to_vec()),
        Vec::new(),
    );
    assert_eq!(interpreter.run(), Ok(()));

    assert_eq!(*interpreter.writer(), input_string.as_bytes());
}

#[test]
fn four_bytes_are_echoed_in_their_order() {
    let mut ops = Vec::new();
    for _ in 0..4 {
        ops.push(Op::Input);
        ops.push(Op::InclementPointer(1));
    }
    ops.push(Op::DecrementPointer(4));
    for _ in 0..4 {
        ops.push(Op::Output);
        ops.push(Op::InclementPointer(1));
    }
    let mut interpreter = engine(ops, b"hello");
    assert_eq!(interpreter.run(), Ok(()));
    assert_eq!(*interpreter.writer(), b"hell".to_vec());
    assert_eq!(*interpreter.reader(), VecDeque::from(b"o".to_vec()));
}

#[test]
fn output_is_written_behind_what_the_writer_holds() {
    let mut interpreter = Interpreter::new(
        OpCode::new(vec![Op::Load(b'b'), Op::Output]),
        VecDeque::new(),
        b"a".to_vec(),
    );
    assert_eq!(interpreter.run(), Ok(()));
    assert_eq!(interpreter.into_writer(), b"ab".to_vec());
}

#[test]
fn a_move_to_the_left_of_the_tape_is_an_addressing_error() {
    let mut interpreter = engine(vec![Op::Output, Op::DecrementPointer(1), Op::Output], b"");
    assert_eq!(interpreter.run(), Err(ExecError::AddressingError));
    assert_eq!(*interpreter.writer(), vec![0]);
    // the failed step has changed nothing, and fails again
    assert!(interpreter.check_token_pointer());
    assert_eq!(interpreter.step(), Err(ExecError::AddressingError));
    assert_eq!(*interpreter.writer(), vec![0]);
}

#[test]
fn a_move_to_the_right_of_the_tape_is_an_addressing_error() {
    assert_eq!(TAPE_LEN, 30000);
    let mut interpreter = engine(
        vec![Op::InclementPointer(29999), Op::Load(1), Op::Output, Op::InclementPointer(1), Op::Output],
        b"",
    );
    assert_eq!(interpreter.run(), Err(ExecError::AddressingError));
    assert_eq!(*interpreter.writer(), vec![1]);

    let mut interpreter = engine(vec![Op::InclementPointer(30000), Op::Output], b"");
    assert_eq!(interpreter.run(), Err(ExecError::AddressingError));
    assert!(interpreter.writer().is_empty());

    let mut interpreter = engine(vec![Op::InclementPointer(1), Op::InclementPointer(usize::MAX)], b"");
    assert_eq!(interpreter.run(), Err(ExecError::AddressingError));
}

#[test]
fn the_last_cell_can_be_used() {
    let mut interpreter = engine(
        vec![Op::InclementPointer(29999), Op::Load(9), Op::DecrementPointer(29999), Op::InclementPointer(29999), Op::Output],
        b"",
    );
    assert_eq!(interpreter.run(), Ok(()));
    assert_eq!(*interpreter.writer(), vec![9]);
}

#[test]
fn reading_past_the_input_is_an_error() {
    let mut interpreter = engine(vec![Op::Input, Op::Output, Op::Input, Op::Output], b"x");
    assert_eq!(interpreter.run(), Err(ExecError::IoExhaustedError));
    assert_eq!(*interpreter.writer(), b"x".to_vec());
}

#[test]
fn a_fed_byte_can_be_read() {
    let mut interpreter = engine(vec![Op::Input, Op::Output], b"");
    assert_eq!(interpreter.step(), Err(ExecError::IoExhaustedError));
    interpreter.feed(b'q');
    assert_eq!(*interpreter.reader(), VecDeque::from(b"q".to_vec()));
    assert_eq!(interpreter.run(), Ok(()));
    assert_eq!(*interpreter.writer(), b"q".to_vec());
    assert!(interpreter.reader().is_empty());
}

#[test]
fn a_loop_start_that_leads_out_of_the_program_is_malformed() {
    let mut interpreter = engine(vec![Op::LoopStart { if_zero_add: 3 }, Op::Output], b"");
    assert_eq!(interpreter.run(), Err(ExecError::MalformedJumpError));
    assert!(interpreter.writer().is_empty());
    // up to the end of the program it is not
    let mut interpreter = engine(vec![Op::LoopStart { if_zero_add: 2 }, Op::Output], b"");
    assert_eq!(interpreter.run(), Ok(()));
    assert!(interpreter.writer().is_empty());
}

#[test]
fn a_loop_end_that_leads_out_of_the_program_is_malformed() {
    let mut interpreter = engine(vec![Op::Load(1), Op::LoopEnd { if_non_zero_sub: 2 }], b"");
    assert_eq!(interpreter.run(), Err(ExecError::MalformedJumpError));
    // on a zero cell the distance is not used
    let mut interpreter = engine(vec![Op::LoopEnd { if_non_zero_sub: 2 }, Op::Output], b"");
    assert_eq!(interpreter.run(), Ok(()));
    assert_eq!(*interpreter.writer(), vec![0]);
}

#[test]
fn a_loop_on_a_zero_cell_is_passed_over_to_just_behind_its_end() {
    let mut interpreter = engine(
        vec![
            Op::LoopStart { if_zero_add: 3 },
            Op::Output,
            Op::LoopEnd { if_non_zero_sub: 2 },
            Op::Load(5),
            Op::Output,
        ],
        b"",
    );
    assert_eq!(interpreter.step(), Ok(()));
    assert_eq!(interpreter.run(), Ok(()));
    assert_eq!(*interpreter.writer(), vec![5]);
}

#[test]
fn a_loop_end_goes_back_to_its_start() {
    // the cell counts 3, 2, 1: the body runs three times
    let mut interpreter = engine(
        vec![
            Op::Load(3),
            Op::LoopStart { if_zero_add: 4 },
            Op::Output,
            Op::DecrementValue(1),
            Op::LoopEnd { if_non_zero_sub: 3 },
            Op::Output,
        ],
        b"",
    );
    let mut steps = 0;
    while interpreter.check_token_pointer() {
        assert_eq!(interpreter.step(), Ok(()));
        steps += 1;
    }
    assert_eq!(*interpreter.writer(), vec![3, 2, 1, 0]);
    // load, then start, output, decrement, end three times, then the output
    assert_eq!(steps, 1 + 3 * 4 + 1);
}

#[test]
fn cells_wrap_around() {
    let mut interpreter = engine(
        vec![
            Op::DecrementValue(1),
            Op::Output,
            Op::InclementValue(2),
            Op::Output,
            Op::InclementValue(255),
            Op::Output,
            Op::InclementValue(256),
            Op::Output,
            Op::InclementValue(257),
            Op::Output,
            Op::DecrementValue(513),
            Op::Output,
            Op::DecrementValue(usize::MAX),
            Op::Output,
        ],
        b"",
    );
    assert_eq!(interpreter.run(), Ok(()));
    let last = 0u8.wrapping_sub((usize::MAX % 256) as u8);
    assert_eq!(*interpreter.writer(), vec![255, 1, 0, 0, 1, 0, last]);
}

#[test]
fn load_sets_the_cell() {
    let mut interpreter = engine(vec![Op::InclementValue(9), Op::Load(200), Op::Output], b"");
    assert_eq!(interpreter.run(), Ok(()));
    assert_eq!(*interpreter.writer(), vec![200]);
}

#[test]
fn a_sum_adds_and_leaves_the_cell_it_read() {
    let mut interpreter = engine(
        vec![
            Op::Load(200),
            Op::InclementPointer(2),
            Op::Load(100),
            Op::DecrementPointer(2),
            Op::SumRight(2),
            Op::Output,
            Op::InclementPointer(2),
            Op::Output,
            Op::SumLeft(1),
            Op::DecrementPointer(1),
            Op::Output,
        ],
        b"",
    );
    assert_eq!(interpreter.run(), Ok(()));
    assert_eq!(*interpreter.writer(), vec![200, 44, 44]);
}

#[test]
fn a_sum_to_a_cell_outside_the_tape_is_an_addressing_error() {
    let mut interpreter = engine(vec![Op::SumLeft(1)], b"");
    assert_eq!(interpreter.run(), Err(ExecError::AddressingError));
    let mut interpreter = engine(vec![Op::SumRight(30000)], b"");
    assert_eq!(interpreter.run(), Err(ExecError::AddressingError));
    let mut interpreter = engine(vec![Op::SumRight(29999), Op::SumLeft(0), Op::SumRight(usize::MAX)], b"");
    assert_eq!(interpreter.step(), Ok(()));
    assert_eq!(interpreter.step(), Ok(()));
    assert_eq!(interpreter.step(), Err(ExecError::AddressingError));
}

#[test]
fn scans_stop_on_the_first_zero_cell() {
    // cells 0, 2, 4 are set; cell 6 is zero
    let mut interpreter = engine(
        vec![
            Op::Load(1),
            Op::InclementPointer(1),
            Op::Load(7),
            Op::InclementPointer(1),
            Op::Load(2),
            Op::InclementPointer(2),
            Op::Load(3),
            Op::DecrementPointer(4),
            Op::JumpZeroRight { per: 2 },
            Op::Load(9),
            Op::DecrementPointer(2),
            Op::Output,
            Op::JumpZeroLeft { per: 3 },
        ],
        b"",
    );
    for _ in 0..9 {
        assert_eq!(interpreter.step(), Ok(()));
    }
    // the scan went from cell 0 over 2 and 4 to 6
    assert_eq!(interpreter.step(), Ok(()));
    assert_eq!(interpreter.step(), Ok(()));
    assert_eq!(interpreter.step(), Ok(()));
    assert_eq!(*interpreter.writer(), vec![3]);
    // from cell 4 the scan to the left goes to cell 1 and then off the tape
    assert_eq!(interpreter.step(), Err(ExecError::AddressingError));
}

#[test]
fn a_scan_on_a_zero_cell_stays() {
    let mut interpreter = engine(
        vec![Op::JumpZeroRight { per: 5 }, Op::JumpZeroLeft { per: 5 }, Op::JumpZeroRight { per: 0 }, Op::Load(1), Op::Output],
        b"",
    );
    assert_eq!(interpreter.run(), Ok(()));
    assert_eq!(*interpreter.writer(), vec![1]);
}

#[test]
fn a_scan_that_leaves_the_tape_is_an_addressing_error() {
    let mut interpreter = engine(vec![Op::Load(1), Op::JumpZeroRight { per: 30000 }], b"");
    assert_eq!(interpreter.run(), Err(ExecError::AddressingError));
    let mut interpreter = engine(vec![Op::Load(1), Op::JumpZeroRight { per: usize::MAX }], b"");
    assert_eq!(interpreter.run(), Err(ExecError::AddressingError));
    let mut interpreter = engine(vec![Op::Load(1), Op::JumpZeroLeft { per: 1 }], b"");
    assert_eq!(interpreter.run(), Err(ExecError::AddressingError));
}

#[test]
fn a_scan_by_zero_on_a_cell_that_is_not_zero_never_ends() {
    let mut interpreter = engine(vec![Op::Load(1), Op::JumpZeroLeft { per: 0 }, Op::Output], b"");
    for _ in 0..1000 {
        assert_eq!(interpreter.step(), Ok(()));
        assert!(interpreter.check_token_pointer());
    }
    assert!(interpreter.writer().is_empty());
}

#[test]
fn a_halted_engine_stays_as_it_is() {
    let mut interpreter = engine(vec![Op::Output], b"");
    assert!(interpreter.check_token_pointer());
    assert_eq!(interpreter.step(), Ok(()));
    assert!(!interpreter.check_token_pointer());
    assert_eq!(interpreter.step(), Ok(()));
    assert_eq!(interpreter.run(), Ok(()));
    assert_eq!(*interpreter.writer(), vec![0]);
}

#[test]
fn an_empty_program_has_halted() {
    let mut interpreter = engine(vec![], b"abc");
    assert!(!interpreter.check_token_pointer());
    assert_eq!(interpreter.run(), Ok(()));
    assert_eq!(interpreter.reader().len(), 3);
}

#[test]
fn update_keeps_the_tape() {
    let mut interpreter = engine(vec![Op::InclementPointer(3), Op::Load(8)], b"");
    assert_eq!(interpreter.run(), Ok(()));
    interpreter.update(OpCode::new(vec![Op::Output, Op::DecrementPointer(3), Op::Output]));
    assert!(interpreter.check_token_pointer());
    assert_eq!(interpreter.run(), Ok(()));
    assert_eq!(*interpreter.writer(), vec![8, 0]);
}

fn plus(n: usize) -> Vec<Ast> {
    std::iter::repeat_with(|| Ast::InclementValue(1)).take(n).collect()
}

fn run_tree(code: AstCode, input: &[u8]) -> (Result<(), ExecError>, Vec<u8>) {
    let mut interpreter =
        Interpreter::new(OpCode::from(code), VecDeque::from(input.to_vec()), Vec::new());
    let result = interpreter.run();
    (result, interpreter.into_writer())
}

/// +++++++[>++++++++++<-]>++.
fn capital_h() -> AstCode {
    let mut nodes = plus(7);
    let mut body = vec![Ast::InclementPointer(1)];
    body.extend(plus(10));
    body.push(Ast::DecrementPointer(1));
    body.push(Ast::DecrementValue(1));
    nodes.push(Ast::Loop(AstCode::new(body)));
    nodes.push(Ast::InclementPointer(1));
    nodes.extend(plus(2));
    nodes.push(Ast::Output);
    AstCode::new(nodes)
}

#[test]
fn seven_times_ten_and_two_is_written_as_one_byte() {
    assert_eq!(run_tree(capital_h(), b""), (Ok(()), vec![72]));
    assert_eq!(run_tree(Optimizer::new().optimize(capital_h()), b""), (Ok(()), vec![72]));
}

fn trees() -> Vec<AstCode> {
    let clear = Ast::Loop(AstCode::new(vec![Ast::DecrementValue(1)]));
    let right = Ast::Loop(AstCode::new(vec![Ast::InclementPointer(1), Ast::InclementPointer(1)]));
    let left = Ast::Loop(AstCode::new(vec![Ast::DecrementPointer(3)]));
    vec![
        capital_h(),
        // ,[.,] echoes its input and then fails to read
        AstCode::new(vec![
            Ast::Input,
            Ast::Loop(AstCode::new(vec![Ast::Output, Ast::Input])),
        ]),
        // reads three bytes, clears the second, scans right by two from the first
        AstCode::new(vec![
            Ast::Input,
            Ast::InclementPointer(1),
            Ast::Input,
            clear.clone(),
            Ast::Output,
            Ast::InclementPointer(1),
            Ast::Input,
            Ast::DecrementPointer(1),
            Ast::DecrementPointer(1),
            right.clone(),
            Ast::InclementValue(1),
            Ast::InclementValue(1),
            Ast::Output,
        ]),
        // scans left off the tape after writing
        AstCode::new(vec![Ast::InclementValue(1), Ast::Output, left.clone(), Ast::Output]),
        // scans right off the tape: every second cell is set on the way
        AstCode::new(vec![
            Ast::InclementValue(1),
            Ast::Loop(AstCode::new(vec![
                Ast::Output,
                Ast::InclementPointer(1),
                Ast::InclementPointer(1),
                Ast::InclementValue(1),
            ])),
        ]),
        // moves that are merged fail as the single moves do
        AstCode::new(vec![
            Ast::Output,
            Ast::InclementPointer(20000),
            Ast::InclementPointer(9999),
            Ast::Output,
            Ast::InclementPointer(1),
            Ast::Output,
        ]),
        AstCode::new(vec![
            Ast::Output,
            Ast::InclementPointer(5),
            Ast::DecrementPointer(3),
            Ast::DecrementPointer(3),
            Ast::Output,
        ]),
        // nested loops with idioms inside
        AstCode::new(vec![
            Ast::Input,
            Ast::Loop(AstCode::new(vec![
                Ast::Output,
                Ast::InclementPointer(1),
                Ast::Input,
                Ast::InclementValue(255),
                Ast::InclementValue(2),
                Ast::Loop(AstCode::new(vec![Ast::Output, clear.clone()])),
                Ast::DecrementPointer(1),
                Ast::DecrementValue(1),
                Ast::DecrementValue(30),
            ])),
            Ast::Output,
        ]),
    ]
}

#[test]
fn optimized_trees_write_what_the_trees_write() {
    let inputs: Vec<&[u8]> = vec![b"", b"a", b"\x01\x02\x03", b"hello world", b"\0\0\0", b"\xff\xfe\x3f"];
    for tree in trees() {
        let optimized = Optimizer::new().optimize(tree.clone());
        for input in &inputs {
            assert_eq!(run_tree(optimized.clone(), input), run_tree(tree.clone(), input));
        }
    }
}

#[test]
fn the_sum_that_replaces_a_loop_leaves_the_cell_that_the_loop_clears() {
    // +++[->+<]., and the same with > before the output
    let mut nodes = plus(3);
    nodes.push(Ast::Loop(AstCode::new(vec![
        Ast::DecrementValue(1),
        Ast::InclementPointer(1),
        Ast::InclementValue(1),
        Ast::DecrementPointer(1),
    ])));
    nodes.push(Ast::Output);
    nodes.push(Ast::InclementPointer(1));
    nodes.push(Ast::Output);
    let tree = AstCode::new(nodes);
    assert_eq!(run_tree(tree.clone(), b""), (Ok(()), vec![0, 3]));
    assert_eq!(run_tree(Optimizer::new().optimize(tree), b""), (Ok(()), vec![3, 3]));
}
