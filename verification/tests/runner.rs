use brainfuck_rs::machine::ExecError;
use brainfuck_rs::parser::ParseError;
use brainfuck_rs::runner::{run, Report};
use std::collections::VecDeque;

fn go(source: &str, input: &[u8]) -> Result<Report, Vec<ParseError>> {
    run(source.chars().collect(), VecDeque::from(input.to_vec()), Vec::new())
}

#[test]
fn a_source_text_is_run() {
    let report = go("+++++++[>++++++++++<-]>++.", b"").unwrap();
    assert_eq!(report, Report { written: vec![72], error: None });
}

#[test]
fn hello_world() {
    let program = "
        # Hello World
        +++++++[>++++++++++<-]>++.        # H
        <++[>++++++++++<-]>+++++++++.     # e
        +++++++..                         # ll
        +++.                              # o
        >++++[>++++++++++<-]>++++.        # (comma)
        <+++[>----<-]>.                   #
        >++++++++[>++++++++++<-]>+++++++. # W
        <<<<.                             # o
        +++.                              # r
        ------.                           # l
        <++[>----<-]>.                    # d
        >>+.                              # !
    ";
    let report = go(program, b"").unwrap();
    assert_eq!(report.error, None);
    assert_eq!(String::from_utf8(report.written).unwrap(), "Hello, World!");
}

#[test]
fn input_is_read() {
    // reads two digits and writes their sum as a digit
    let report = go(",>,<[->+<]>------------------------------------------------.", b"34").unwrap();
    assert_eq!(report, Report { written: b"7".to_vec(), error: None });
}

#[test]
fn a_failed_run_reports_what_was_written() {
    let report = go("+.<.", b"").unwrap();
    assert_eq!(report, Report { written: vec![1], error: Some(ExecError::AddressingError) });
    let report = go(",.,.", b"z").unwrap();
    assert_eq!(report, Report { written: b"z".to_vec(), error: Some(ExecError::IoExhaustedError) });
}

#[test]
fn a_text_with_faults_is_not_run() {
    assert_eq!(go("+.]", b""), Err(vec![ParseError::IncompleteLoop]));
    assert_eq!(go("+.[", b""), Err(vec![ParseError::IncompleteLoop]));
}

#[test]
fn output_goes_behind_what_was_written_before() {
    let report = run("+.".chars().collect(), VecDeque::new(), vec![9, 9]).unwrap();
    assert_eq!(report.written, vec![9, 9, 1]);
}
