//! What a program does to a machine: the meaning of every instruction, of a step
//! and of a run.

use crate::inst::Op;
use vstd::prelude::*;

verus! {

/// The number of cells of the tape.
pub const TAPE_LEN: usize = 30000;

/// Why a run was aborted.
#[derive(Debug, Clone, Copy, PartialEq, Eq, Hash, Structural)]
pub enum ExecError {
    /// The cursor, or the cell that an instruction names, lies outside the tape.
    AddressingError,
    /// An input instruction found no byte to read.
    IoExhaustedError,
    /// A loop instruction holds a distance that leads outside the program.
    MalformedJumpError,
}

/// What a program works on: the tape, the cursor, the input that is still
/// unread and the output written so far.
pub struct State {
    pub memory: Seq<u8>,
    pub pointer: nat,
    pub input: Seq<u8>,
    pub output: Seq<u8>,
}

/// A state together with the index of the next instruction.
pub struct Machine {
    pub state: State,
    pub ip: nat,
}

impl State {
    /// The tape has its full length and the cursor lies on it.
    pub open spec fn wf(self) -> bool {
        self.memory.len() == TAPE_LEN && self.pointer < TAPE_LEN
    }

    /// The state in which every run begins: a tape of zeros, the cursor on
    /// its first cell, nothing written.
    pub open spec fn start(input: Seq<u8>) -> State {
        State {
            memory: Seq::new(TAPE_LEN as nat, |i: int| 0u8),
            pointer: 0,
            input,
            output: Seq::empty(),
        }
    }

    /// The cell under the cursor.
    pub open spec fn cell(self) -> u8 {
        self.memory[self.pointer as int]
    }

    /// This state with `value` in the cell at `at`.
    pub open spec fn store(self, at: int, value: u8) -> State {
        State { memory: self.memory.update(at, value), ..self }
    }

    /// This state with the cursor at `pointer`.
    pub open spec fn at(self, pointer: nat) -> State {
        State { pointer, ..self }
    }
}

impl Machine {
    /// The machine before its first step.
    pub open spec fn start(input: Seq<u8>) -> Machine {
        Machine { state: State::start(input), ip: 0 }
    }

    /// This machine with its instruction pointer at `ip`.
    pub open spec fn goto(self, ip: nat) -> Machine {
        Machine { ip, ..self }
    }
}

/// `cell + n` modulo 256, for `n` of either sign.
pub open spec fn add_mod(cell: u8, n: int) -> u8 {
    ((cell + n) % 256) as u8
}

/// The first position among `from`, `from + per`, `from + 2 * per`, ... whose
/// cell is zero, if one is reached before the end of the tape.
pub open spec fn scan_right(memory: Seq<u8>, from: nat, per: nat) -> Option<nat>
    decreases
            (if from < TAPE_LEN {
                TAPE_LEN - from
            } else {
                0
            }),
{
    if from >= TAPE_LEN || per == 0 {
        None
    } else if memory[from as int] == 0 {
        Some(from)
    } else {
        scan_right(memory, from + per, per)
    }
}

/// The first position among `from`, `from - per`, `from - 2 * per`, ... whose
/// cell is zero, if one is reached before the start of the tape.
pub open spec fn scan_left(memory: Seq<u8>, from: nat, per: nat) -> Option<nat>
    decreases from,
{
    if memory[from as int] == 0 {
        Some(from)
    } else if per == 0 || from < per {
        None
    } else {
        scan_left(memory, (from - per) as nat, per)
    }
}

/// A scan with stride zero on a cell that is not zero never ends: the machine
/// stays on that instruction, with its state as it is.
pub open spec fn spins(op: Op, s: State) -> bool {
    s.cell() != 0 && match op {
        Op::JumpZeroRight { per } => per == 0,
        Op::JumpZeroLeft { per } => per == 0,
        _ => false,
    }
}

/// What an instruction does to the state, apart from the instruction
/// pointer. The two loop instructions leave the state as it is.
pub open spec fn effect(op: Op, s: State) -> Result<State, ExecError> {
    match op {
        Op::InclementPointer(count) => if s.pointer + count < TAPE_LEN {
            Ok(s.at((s.pointer + count) as nat))
        } else {
            Err(ExecError::AddressingError)
        },
        Op::DecrementPointer(count) => if count <= s.pointer {
            Ok(s.at((s.pointer - count) as nat))
        } else {
            Err(ExecError::AddressingError)
        },
        Op::InclementValue(count) => Ok(s.store(s.pointer as int, add_mod(s.cell(), count as int))),
        Op::DecrementValue(count) => Ok(
            s.store(s.pointer as int, add_mod(s.cell(), -(count as int))),
        ),
        Op::Output => Ok(State { output: s.output.push(s.cell()), ..s }),
        Op::Input => if s.input.len() > 0 {
            Ok(State { input: s.input.drop_first(), ..s.store(s.pointer as int, s.input[0]) })
        } else {
            Err(ExecError::IoExhaustedError)
        },
        Op::LoopStart { .. } => Ok(s),
        Op::LoopEnd { .. } => Ok(s),
        Op::Load(n) => Ok(s.store(s.pointer as int, n)),
        Op::SumRight(count) => if s.pointer + count < TAPE_LEN {
            Ok(
                s.store(
                    s.pointer + count,
                    add_mod(s.memory[s.pointer + count], s.cell() as int),
                ),
            )
        } else {
            Err(ExecError::AddressingError)
        },
        Op::SumLeft(count) => if count <= s.pointer {
            Ok(
                s.store(
                    s.pointer - count,
                    add_mod(s.memory[s.pointer - count], s.cell() as int),
                ),
            )
        } else {
            Err(ExecError::AddressingError)
        },
        Op::JumpZeroRight { per } => if s.cell() == 0 {
            Ok(s)
        } else {
            match scan_right(s.memory, s.pointer, per as nat) {
                Some(found) => Ok(s.at(found)),
                None => Err(ExecError::AddressingError),
            }
        },
        Op::JumpZeroLeft { per } => if s.cell() == 0 {
            Ok(s)
        } else {
            match scan_left(s.memory, s.pointer, per as nat) {
                Some(found) => Ok(s.at(found)),
                None => Err(ExecError::AddressingError),
            }
        },
    }
}

/// One step of a machine on a program.
///
/// Past the end of the program the machine has halted and stays as it is. A
/// failing step leaves it as it is, too. A loop start on a zero cell goes
/// forward by its distance, a loop end on a cell that is not zero goes back by
/// its distance, both counted from the instruction itself; every other
/// instruction that succeeds is followed by the next one.
pub open spec fn step_spec(program: Seq<Op>, m: Machine) -> Result<Machine, ExecError> {
    if m.ip >= program.len() {
        Ok(m)
    } else {
        let op = program[m.ip as int];
        if spins(op, m.state) {
            Ok(m)
        } else {
            match op {
                Op::LoopStart { if_zero_add } => if m.state.cell() != 0 {
                    Ok(m.goto(m.ip + 1))
                } else if m.ip + if_zero_add <= program.len() {
                    Ok(m.goto((m.ip + if_zero_add) as nat))
                } else {
                    Err(ExecError::MalformedJumpError)
                },
                Op::LoopEnd { if_non_zero_sub } => if m.state.cell() == 0 {
                    Ok(m.goto(m.ip + 1))
                } else if if_non_zero_sub <= m.ip {
                    Ok(m.goto((m.ip - if_non_zero_sub) as nat))
                } else {
                    Err(ExecError::MalformedJumpError)
                },
                _ => match effect(op, m.state) {
                    Ok(s) => Ok(Machine { state: s, ip: m.ip + 1 }),
                    Err(e) => Err(e),
                },
            }
        }
    }
}

/// How a run ended, or where it stands: the machine, and the error if a step
/// failed.
pub struct Outcome {
    pub machine: Machine,
    pub error: Option<ExecError>,
}

/// A run of at most `fuel` steps: it ends before that where the machine has
/// halted or a step fails.
pub open spec fn run_spec(program: Seq<Op>, m: Machine, fuel: nat) -> Outcome
    decreases fuel,
{
    if fuel == 0 || m.ip >= program.len() {
        Outcome { machine: m, error: None }
    } else {
        match step_spec(program, m) {
            Ok(next) => run_spec(program, next, (fuel - 1) as nat),
            Err(e) => Outcome { machine: m, error: Some(e) },
        }
    }
}

/// A step keeps the tape's length and the cursor on the tape.
pub proof fn lemma_effect_wf(op: Op, s: State)
    requires
        s.wf(),
    ensures
        effect(op, s) matches Ok(next) ==> next.wf(),
{
    match op {
        Op::JumpZeroRight { per } => {
            lemma_scan_right(s.memory, s.pointer, per as nat);
        },
        Op::JumpZeroLeft { per } => {
            lemma_scan_left(s.memory, s.pointer, per as nat);
        },
        _ => {},
    }
}

/// A scan to the right ends on the tape, on a zero cell, at or after its start.
pub proof fn lemma_scan_right(memory: Seq<u8>, from: nat, per: nat)
    ensures
        scan_right(memory, from, per) matches Some(found) ==> from <= found < TAPE_LEN
            && memory[found as int] == 0,
    decreases
            (if from < TAPE_LEN {
                TAPE_LEN - from
            } else {
                0
            }),
{
    if from < TAPE_LEN && per != 0 && memory[from as int] != 0 {
        lemma_scan_right(memory, from + per, per);
    }
}

/// A scan to the left ends on a zero cell, at or before its start.
pub proof fn lemma_scan_left(memory: Seq<u8>, from: nat, per: nat)
    ensures
        scan_left(memory, from, per) matches Some(found) ==> found <= from && memory[found as int]
            == 0,
    decreases from,
{
    if memory[from as int] != 0 && per != 0 && from >= per {
        lemma_scan_left(memory, (from - per) as nat, per);
    }
}

} // verus!
