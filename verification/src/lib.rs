//! A verified optimizer, lowerer and execution engine for a pointer-and-byte-tape language.

pub mod analyze;
pub mod display;
pub mod equivalence;
pub mod inst;
pub mod interpreter;
pub mod jumps;
pub mod lowering;
pub mod machine;
pub mod opt;
pub mod parser;
pub mod runner;
pub mod scanner;
pub mod settled;
pub mod simulation;
pub mod structured;
pub mod text;
pub mod token;
