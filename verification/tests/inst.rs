use brainfuck_rs::inst::{Ast, AstCode, Op, OpCode};

#[test]
fn ast_to_op() {
    let code = AstCode::new(vec![
        Ast::InclementPointer(2),
        Ast::InclementValue(1),
        Ast::Loop(AstCode::new(vec![Ast::InclementValue(1)])),
    ]);
    let op = OpCode::from(code);
    // >>+[+]
    assert_eq!(
        *op.vec(),
        vec![
            Op::InclementPointer(2),
            Op::InclementValue(1),
            Op::LoopStart { if_zero_add: 3 },
            Op::InclementValue(1),
            Op::LoopEnd { if_non_zero_sub: 2 },
        ]
    );
}

#[test]
fn lowering_an_empty_tree_gives_an_empty_program() {
    let op = OpCode::from(AstCode::new(vec![]));
    assert!(op.vec().is_empty());
}

#[test]
fn lowering_an_empty_loop() {
    let op = OpCode::from(AstCode::new(vec![Ast::Loop(AstCode::new(vec![]))]));
    assert_eq!(
        *op.vec(),
        vec![Op::LoopStart { if_zero_add: 2 }, Op::LoopEnd { if_non_zero_sub: 1 }]
    );
}

#[test]
fn lowering_keeps_every_kind_of_node() {
    let code = AstCode::new(vec![
        Ast::InclementPointer(3),
        Ast::DecrementPointer(4),
        Ast::InclementValue(5),
        Ast::DecrementValue(6),
        Ast::Output,
        Ast::Input,
        Ast::Load(7),
        Ast::SumRight(8),
        Ast::SumLeft(9),
        Ast::JumpZeroRight { per: 10 },
        Ast::JumpZeroLeft { per: 11 },
    ]);
    assert_eq!(
        *OpCode::from(code).vec(),
        vec![
            Op::InclementPointer(3),
            Op::DecrementPointer(4),
            Op::InclementValue(5),
            Op::DecrementValue(6),
            Op::Output,
            Op::Input,
            Op::Load(7),
            Op::SumRight(8),
            Op::SumLeft(9),
            Op::JumpZeroRight { per: 10 },
            Op::JumpZeroLeft { per: 11 },
        ]
    );
}

#[test]
fn lowering_nested_loops() {
    // +[[-]>[<]]+
    let code = AstCode::new(vec![
        Ast::InclementValue(1),
        Ast::Loop(AstCode::new(vec![
            Ast::Loop(AstCode::new(vec![Ast::DecrementValue(1)])),
            Ast::InclementPointer(1),
            Ast::Loop(AstCode::new(vec![Ast::DecrementPointer(1)])),
        ])),
        Ast::InclementValue(1),
    ]);
    assert_eq!(
        *OpCode::from(code).vec(),
        vec![
            Op::InclementValue(1),
            Op::LoopStart { if_zero_add: 9 },
            Op::LoopStart { if_zero_add: 3 },
            Op::DecrementValue(1),
            Op::LoopEnd { if_non_zero_sub: 2 },
            Op::InclementPointer(1),
            Op::LoopStart { if_zero_add: 3 },
            Op::DecrementPointer(1),
            Op::LoopEnd { if_non_zero_sub: 2 },
            Op::LoopEnd { if_non_zero_sub: 8 },
            Op::InclementValue(1),
        ]
    );
}

/// The index of the loop end that belongs to the loop start at `start`,
/// found by counting the nesting.
fn partner(ops: &[Op], start: usize) -> usize {
    let mut depth = 0usize;
    for (i, op) in ops.iter().enumerate().skip(start) {
        match op {
            Op::LoopStart { .. } => depth += 1,
            Op::LoopEnd { .. } => {
                depth -= 1;
                if depth == 0 {
                    return i;
                }
            }
            _ => {}
        }
    }
    unreachable!()
}

fn nest(depth: usize) -> AstCode {
    if depth == 0 {
        AstCode::new(vec![Ast::InclementValue(1)])
    } else {
        AstCode::new(vec![
            Ast::Output,
            Ast::Loop(nest(depth - 1)),
            Ast::Loop(AstCode::new(vec![])),
            Ast::Loop(nest(depth / 2)),
            Ast::Input,
        ])
    }
}

#[test]
fn every_loop_start_and_its_end_hold_the_distance_to_each_other() {
    let op = OpCode::from(nest(6));
    let ops = op.vec();
    let mut starts = 0;
    for (s, op) in ops.iter().enumerate() {
        if let Op::LoopStart { if_zero_add } = op {
            starts += 1;
            let e = partner(ops, s);
            assert_eq!(s + if_zero_add, e + 1);
            match ops[e] {
                Op::LoopEnd { if_non_zero_sub } => assert_eq!(e - if_non_zero_sub, s),
                _ => unreachable!(),
            }
        }
    }
    assert_eq!(starts, 57);
}

#[test]
fn loops_nested_twenty_deep() {
    let mut code = AstCode::new(vec![Ast::DecrementValue(1)]);
    for _ in 0..20 {
        code = AstCode::new(vec![Ast::InclementPointer(1), Ast::Loop(code)]);
    }
    let op = OpCode::from(code);
    let ops = op.vec();
    assert_eq!(ops.len(), 20 * 3 + 1);
    for (s, op) in ops.iter().enumerate() {
        if let Op::LoopStart { if_zero_add } = op {
            let e = partner(ops, s);
            assert_eq!(s + if_zero_add, e + 1);
            assert_eq!(ops[e], Op::LoopEnd { if_non_zero_sub: e - s });
        }
    }
    assert_eq!(ops[1], Op::LoopStart { if_zero_add: 60 });
    assert_eq!(ops[60], Op::LoopEnd { if_non_zero_sub: 59 });
}

#[test]
fn a_clone_is_equal_to_its_tree() {
    let code = nest(3);
    let copy = code.clone();
    assert_eq!(copy, code);
    assert_eq!(copy.vec().len(), 5);
}

#[test]
fn trees_are_compared_node_by_node() {
    let a = AstCode::new(vec![Ast::Loop(AstCode::new(vec![Ast::DecrementValue(1)]))]);
    let b = AstCode::new(vec![Ast::Loop(AstCode::new(vec![Ast::DecrementValue(2)]))]);
    let c = AstCode::new(vec![Ast::Loop(AstCode::new(vec![]))]);
    assert_ne!(a, b);
    assert_ne!(a, c);
    assert_ne!(Ast::SumRight(1), Ast::SumLeft(1));
    assert_ne!(Ast::JumpZeroRight { per: 1 }, Ast::JumpZeroRight { per: 2 });
    assert_ne!(Ast::Output, Ast::Input);
    assert_eq!(Ast::Load(3), Ast::Load(3));
    assert_ne!(AstCode::new(vec![Ast::Output]), AstCode::new(vec![Ast::Output, Ast::Output]));
}

#[test]
fn vec_mut_changes_the_tree() {
    let mut code = AstCode::new(vec![Ast::Output]);
    code.vec_mut().push(Ast::Input);
    assert_eq!(code, AstCode::new(vec![Ast::Output, Ast::Input]));
}

#[test]
fn a_program_keeps_its_instructions() {
    let ops = vec![Op::Output, Op::Load(4)];
    let program = OpCode::new(ops.clone());
    assert_eq!(*program.vec(), ops);
    assert_eq!(program.clone(), program);
}
