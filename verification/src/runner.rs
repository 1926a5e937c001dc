//! From a source text to what it writes.

use crate::inst::{lower, Node, OpCode};
use crate::interpreter::Interpreter;
use crate::machine::{run_spec, ExecError, Machine, State};
use crate::opt::{optimized, Optimizer};
use crate::parser::{faults, kinds, parsed, ParseError, Parser};
use crate::scanner::{tokens_of, Scanner};
use std::collections::VecDeque;
use vstd::prelude::*;

verus! {

/// What a run of a source text has written, and the error that ended it, if
/// one did.
#[derive(Debug, PartialEq, Eq)]
pub struct Report {
    pub written: Vec<u8>,
    pub error: Option<ExecError>,
}

/// The machine that a run of a tree starts from: at the first instruction,
/// with a tape of zeros, `read` to read and `write` already written.
pub open spec fn first(read: Seq<u8>, write: Seq<u8>) -> Machine {
    Machine { state: State { output: write, ..State::start(read) }, ip: 0 }
}

/// `report` is what the optimized and lowered `tree` has done after
/// `u64::MAX` steps at most.
pub open spec fn reports(tree: Seq<Node>, read: Seq<u8>, write: Seq<u8>, report: Report) -> bool {
    let end = run_spec(lower(optimized(tree)), first(read, write), u64::MAX as nat);
    report.written@ == end.machine.state.output && report.error == end.error
}

/// Scans and parses `source`, optimizes and lowers the tree, and runs the
/// program with the input `read`, writing behind `write`. A source text with
/// faults is not run: its faults are returned.
pub fn run(source: Vec<char>, read: VecDeque<u8>, write: Vec<u8>) -> (result: Result<
    Report,
    Vec<ParseError>,
>)
    ensures
        match result {
            Ok(report) => faults(kinds(tokens_of(source@))) == 0 && reports(
                parsed(kinds(tokens_of(source@))),
                read@,
                write@,
                report,
            ),
            Err(errors) => faults(kinds(tokens_of(source@))) > 0 && errors@.len() == faults(
                kinds(tokens_of(source@)),
            ),
        },
{
    let mut scanner = Scanner::new(source);
    let tokens = scanner.scan_tokens();
    let parser = Parser::new(tokens);
    let program = match parser.parse_tokens() {
        Ok(program) => program,
        Err(errors) => {
            return Err(errors);
        },
    };
    let optimizer = Optimizer::new();
    let program = optimizer.optimize(program);
    let code: OpCode = OpCode::from(program);
    let mut interpreter = Interpreter::new(code, read, write);
    let error = match interpreter.run() {
        Ok(()) => None,
        Err(e) => Some(e),
    };
    let written = interpreter.into_writer();
    let report = Report { written, error };
    Ok(report)
}

} // verus!
