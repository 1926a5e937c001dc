use brainfuck_rs::inst::{Ast, AstCode, Op, OpCode};
use brainfuck_rs::interpreter::Interpreter;
use brainfuck_rs::machine::ExecError;
use brainfuck_rs::opt::{run_length_optimize, Optimizer};
use std::collections::VecDeque;

/// A small generator of numbers that look random, the same on every run.
struct Numbers(u64);

impl Numbers {
    fn next(&mut self, below: u64) -> u64 {
        self.0 = self.0.wrapping_mul(6364136223846793005).wrapping_add(1442695040888963407);
        (self.0 >> 33) % below
    }
}

/// A tree of at most `depth` levels of loops. The greater `plain` is, the
/// fewer of its nodes are loops.
fn random_tree(numbers: &mut Numbers, depth: usize, sums: bool, plain: u64) -> AstCode {
    let len = numbers.next(7) as usize;
    let mut nodes = Vec::new();
    for _ in 0..len {
        let count = 1 + numbers.next(3) as usize;
        let node = match numbers.next(plain) {
            0 | 1 => Ast::InclementPointer(count),
            2 => Ast::DecrementPointer(count),
            3 | 4 => Ast::InclementValue(count),
            5 | 6 => Ast::DecrementValue(1),
            7 => Ast::Output,
            8 => Ast::Input,
            9 if sums => Ast::Loop(AstCode::new(vec![
                Ast::DecrementValue(1),
                Ast::InclementPointer(count),
                Ast::InclementValue(1),
                Ast::DecrementPointer(count),
            ])),
            _ if depth > 0 => Ast::Loop(random_tree(numbers, depth - 1, sums, plain)),
            _ => Ast::Output,
        };
        nodes.push(node);
    }
    AstCode::new(nodes)
}

fn partner(ops: &[Op], start: usize) -> usize {
    let mut depth = 0usize;
    for (i, op) in ops.iter().enumerate().skip(start) {
        match op {
            Op::LoopStart { .. } => depth += 1,
            Op::LoopEnd { .. } => {
                depth -= 1;
                if depth == 0 {
                    return i;
                }
            }
            _ => {}
        }
    }
    unreachable!()
}

fn depth_of(ops: &[Op]) -> usize {
    let mut depth = 0usize;
    let mut deepest = 0;
    for op in ops {
        match op {
            Op::LoopStart { .. } => depth += 1,
            Op::LoopEnd { .. } => depth -= 1,
            _ => {}
        }
        deepest = deepest.max(depth);
    }
    deepest
}

#[test]
fn random_trees_are_lowered_with_matching_distances() {
    let mut numbers = Numbers(7);
    let mut loops = 0;
    let mut deepest = 0;
    for _ in 0..300 {
        let tree = random_tree(&mut numbers, 20, true, 15);
        let program = OpCode::from(tree);
        let ops = program.vec();
        for (s, op) in ops.iter().enumerate() {
            if let Op::LoopStart { if_zero_add } = op {
                let e = partner(ops, s);
                assert_eq!(s + if_zero_add, e + 1);
                assert_eq!(ops[e], Op::LoopEnd { if_non_zero_sub: e - s });
                loops += 1;
            }
        }
        deepest = deepest.max(depth_of(ops));
    }
    assert!(loops > 1000);
    assert_eq!(deepest, 21);
}

#[test]
fn random_trees_are_coalesced_once_and_for_all() {
    let mut numbers = Numbers(11);
    for _ in 0..300 {
        let once = run_length_optimize(random_tree(&mut numbers, 6, true, 13));
        assert_eq!(run_length_optimize(once.clone()), once);
    }
}

/// Steps a program until it has ended, for `limit` steps at most.
fn run_for(tree: AstCode, input: &[u8], limit: usize) -> Option<(Result<(), ExecError>, Vec<u8>)> {
    let mut interpreter =
        Interpreter::new(OpCode::from(tree), VecDeque::from(input.to_vec()), Vec::new());
    for _ in 0..limit {
        if !interpreter.check_token_pointer() {
            return Some((Ok(()), interpreter.into_writer()));
        }
        if let Err(error) = interpreter.step() {
            return Some((Err(error), interpreter.into_writer()));
        }
    }
    if interpreter.check_token_pointer() {
        None
    } else {
        Some((Ok(()), interpreter.into_writer()))
    }
}

#[test]
fn random_trees_without_sums_run_as_their_optimized_trees() {
    let mut numbers = Numbers(3);
    let mut ended = 0;
    let mut failed = 0;
    for round in 0..2000 {
        let tree = random_tree(&mut numbers, 4, false, 12);
        let input: Vec<u8> = (0..numbers.next(6)).map(|_| numbers.next(4) as u8).collect();
        let optimized = Optimizer::new().optimize(tree.clone());
        match run_for(tree.clone(), &input, 20000) {
            Some(outcome) => {
                // the optimized tree ends alike, and in no more steps
                assert_eq!(run_for(optimized, &input, 20000), Some(outcome.clone()), "round {}", round);
                ended += 1;
                if outcome.0.is_err() {
                    failed += 1;
                }
            }
            None => {
                // where the optimized tree ends, the tree ends alike, only later
                if let Some(outcome) = run_for(optimized, &input, 2000) {
                    assert_eq!(run_for(tree, &input, 2000 * 770), Some(outcome), "round {}", round);
                }
            }
        }
    }
    assert!(ended > 1000);
    assert!(failed > 100);
}
