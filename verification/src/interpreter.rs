//! The execution engine.

use crate::inst::{lemma_program_len, Op, OpCode};
use crate::machine::{
    effect, run_spec, scan_left, scan_right, spins, step_spec, ExecError, Machine, State, TAPE_LEN,
};
use std::collections::VecDeque;
use vstd::prelude::*;

verus! {

/// The execution engine: a program, the tape it works on, the bytes it may
/// still read and the bytes it has written.
#[derive(Debug)]
pub struct Interpreter {
    memory: Vec<u8>,
    mem_pointer: usize,
    code: OpCode,
    ip: usize,
    read: VecDeque<u8>,
    write: Vec<u8>,
}

impl View for Interpreter {
    type V = Machine;

    closed spec fn view(&self) -> Machine {
        Machine {
            state: State {
                memory: self.memory@,
                pointer: self.mem_pointer as nat,
                input: self.read@,
                output: self.write@,
            },
            ip: self.ip as nat,
        }
    }
}

impl Interpreter {
    /// The tape has its full length, the cursor lies on it, and the
    /// instruction pointer lies in the program or at its end. Every engine
    /// that [`Interpreter::new`] made has this, and every method keeps it.
    pub closed spec fn wf(&self) -> bool {
        &&& self.memory@.len() == TAPE_LEN
        &&& self.mem_pointer < TAPE_LEN
        &&& self.ip <= self.code@.len()
    }

    /// The program that this engine runs.
    pub closed spec fn program(&self) -> Seq<Op> {
        self.code@
    }

    /// What a step of the engine with result `result` has done, given the
    /// step that the machine was to make.
    pub open spec fn stepped(
        before: Machine,
        after: Machine,
        result: Result<(), ExecError>,
        step: Result<Machine, ExecError>,
    ) -> bool {
        match step {
            Ok(next) => result is Ok && after == next,
            Err(e) => result == Err::<(), ExecError>(e) && after == before,
        }
    }

    /// What an instruction other than a loop's start or end has done to the
    /// engine, the instruction pointer left as it was.
    spec fn applied(
        before: Machine,
        after: Machine,
        result: Result<(), ExecError>,
        op: Op,
    ) -> bool {
        match effect(op, before.state) {
            Ok(s) => result is Ok && after == (Machine { state: s, ip: before.ip }),
            Err(e) => result == Err::<(), ExecError>(e) && after == before,
        }
    }

    /// An engine at the start of `code`, with a tape of zeros, that reads from
    /// `read` and writes behind what `write` holds.
    pub fn new(code: OpCode, read: VecDeque<u8>, write: Vec<u8>) -> (engine: Self)
        ensures
            engine.wf(),
            engine.program() == code@,
            engine@ == (Machine {
                state: State { output: write@, ..State::start(read@) },
                ip: 0,
            }),
    {
        let memory: Vec<u8> = vec![0u8; TAPE_LEN];
        assert(memory@ =~= State::start(read@).memory);
        Self { memory, mem_pointer: 0, code, ip: 0, read, write }
    }

    /// The bytes that the program has not read yet.
    pub fn reader(&self) -> (unread: &VecDeque<u8>)
        ensures
            unread@ == self@.state.input,
    {
        &self.read
    }

    /// The bytes written so far.
    pub fn writer(&self) -> (written: &Vec<u8>)
        ensures
            written@ == self@.state.output,
    {
        &self.write
    }

    /// Gives up the engine for the bytes written.
    pub fn into_writer(self) -> (written: Vec<u8>)
        ensures
            written@ == self@.state.output,
    {
        self.write
    }

    /// Adds a byte behind the input that is still unread.
    pub fn feed(&mut self, byte: u8)
        requires
            old(self).wf(),
        ensures
            final(self).wf(),
            final(self).program() == old(self).program(),
            final(self)@ == (Machine {
                state: State { input: old(self)@.state.input.push(byte), ..old(self)@.state },
                ..old(self)@
            }),
    {
        self.read.push_back(byte);
    }

    /// Replaces the program and goes to its start; tape, cursor, input and
    /// output stay.
    pub fn update(&mut self, code: OpCode)
        requires
            old(self).wf(),
        ensures
            final(self).wf(),
            final(self).program() == code@,
            final(self)@ == old(self)@.goto(0),
    {
        self.ip = 0;
        self.code = code;
    }

    /// Steps until the machine has halted or a step fails, for at most
    /// `u64::MAX` steps.
    pub fn run(&mut self) -> (result: Result<(), ExecError>)
        requires
            old(self).wf(),
        ensures
            final(self).wf(),
            final(self).program() == old(self).program(),
            final(self)@ == run_spec(old(self).program(), old(self)@, u64::MAX as nat).machine,
            result == match run_spec(old(self).program(), old(self)@, u64::MAX as nat).error {
                Some(e) => Err::<(), ExecError>(e),
                None => Ok(()),
            },
    {
        let mut left: u64 = u64::MAX;
        while left > 0 && self.check_token_pointer()
            invariant
                self.wf(),
                self.program() == old(self).program(),
                run_spec(self.program(), self@, left as nat) == run_spec(
                    old(self).program(),
                    old(self)@,
                    u64::MAX as nat,
                ),
            decreases left,
        {
            match self.step() {
                Ok(()) => {},
                Err(e) => {
                    return Err(e);
                },
            }
            left = left - 1;
        }
        Ok(())
    }

    /// One step: see [`step_spec`]. A halted machine stays as it is.
    pub fn step(&mut self) -> (result: Result<(), ExecError>)
        requires
            old(self).wf(),
        ensures
            final(self).wf(),
            final(self).program() == old(self).program(),
            Self::stepped(
                old(self)@,
                final(self)@,
                result,
                step_spec(old(self).program(), old(self)@),
            ),
    {
        if !self.check_token_pointer() {
            return Ok(());
        }
        let op: Op = self.code.vec()[self.ip];
        let result = match op {
            Op::InclementPointer(count) => self.inclement_pointer(count),
            Op::DecrementPointer(count) => self.decrement_pointer(count),
            Op::InclementValue(count) => self.inclement_value(count),
            Op::DecrementValue(count) => self.decrement_value(count),
            Op::Output => self.output(),
            Op::Input => self.input(),
            Op::LoopStart { if_zero_add } => {
                return self.loop_start(if_zero_add);
            },
            Op::LoopEnd { if_non_zero_sub } => {
                return self.loop_end(if_non_zero_sub);
            },
            Op::Load(n) => self.load(n),
            Op::SumRight(count) => self.sum_right(count),
            Op::SumLeft(count) => self.sum_left(count),
            Op::JumpZeroRight { per } => {
                if per == 0 && self.memory[self.mem_pointer] != 0 {
                    return Ok(());
                }
                self.jump_zero_right(per)
            },
            Op::JumpZeroLeft { per } => {
                if per == 0 && self.memory[self.mem_pointer] != 0 {
                    return Ok(());
                }
                self.jump_zero_left(per)
            },
        };
        if result.is_ok() {
            self.advance();
        }
        result
    }

    /// Whether there is an instruction left to run.
    pub fn check_token_pointer(&self) -> (running: bool)
        requires
            self.wf(),
        ensures
            running == (self@.ip < self.program().len()),
    {
        self.ip < self.code.vec().len()
    }

    /// Goes on to the next instruction.
    fn advance(&mut self)
        requires
            old(self).wf(),
            old(self)@.ip < old(self).program().len(),
        ensures
            final(self).wf(),
            final(self).program() == old(self).program(),
            final(self)@ == old(self)@.goto(old(self)@.ip + 1),
    {
        proof {
            lemma_program_len(self.code);
        }
        self.ip += 1;
    }

    fn inclement_pointer(&mut self, count: usize) -> (result: Result<(), ExecError>)
        requires
            old(self).wf(),
        ensures
            final(self).wf(),
            final(self).program() == old(self).program(),
            Self::applied(old(self)@, final(self)@, result, Op::InclementPointer(count)),
    {
        if count < TAPE_LEN - self.mem_pointer {
            self.mem_pointer += count;
            Ok(())
        } else {
            Err(ExecError::AddressingError)
        }
    }

    fn decrement_pointer(&mut self, count: usize) -> (result: Result<(), ExecError>)
        requires
            old(self).wf(),
        ensures
            final(self).wf(),
            final(self).program() == old(self).program(),
            Self::applied(old(self)@, final(self)@, result, Op::DecrementPointer(count)),
    {
        if count <= self.mem_pointer {
            self.mem_pointer -= count;
            Ok(())
        } else {
            Err(ExecError::AddressingError)
        }
    }

    fn inclement_value(&mut self, count: usize) -> (result: Result<(), ExecError>)
        requires
            old(self).wf(),
        ensures
            final(self).wf(),
            final(self).program() == old(self).program(),
            Self::applied(old(self)@, final(self)@, result, Op::InclementValue(count)),
    {
        let cell: u8 = self.memory[self.mem_pointer];
        let value: u8 = cell.wrapping_add((count % 256) as u8);
        self.memory.set(self.mem_pointer, value);
        Ok(())
    }

    fn decrement_value(&mut self, count: usize) -> (result: Result<(), ExecError>)
        requires
            old(self).wf(),
        ensures
            final(self).wf(),
            final(self).program() == old(self).program(),
            Self::applied(old(self)@, final(self)@, result, Op::DecrementValue(count)),
    {
        let cell: u8 = self.memory[self.mem_pointer];
        let value: u8 = cell.wrapping_sub((count % 256) as u8);
        self.memory.set(self.mem_pointer, value);
        Ok(())
    }

    fn output(&mut self) -> (result: Result<(), ExecError>)
        requires
            old(self).wf(),
        ensures
            final(self).wf(),
            final(self).program() == old(self).program(),
            Self::applied(old(self)@, final(self)@, result, Op::Output),
    {
        let cell: u8 = self.memory[self.mem_pointer];
        self.write.push(cell);
        Ok(())
    }

    fn input(&mut self) -> (result: Result<(), ExecError>)
        requires
            old(self).wf(),
        ensures
            final(self).wf(),
            final(self).program() == old(self).program(),
            Self::applied(old(self)@, final(self)@, result, Op::Input),
    {
        match self.read.pop_front() {
            Some(byte) => {
                self.memory.set(self.mem_pointer, byte);
                Ok(())
            },
            None => Err(ExecError::IoExhaustedError),
        }
    }

    fn loop_start(&mut self, if_zero_add: usize) -> (result: Result<(), ExecError>)
        requires
            old(self).wf(),
            old(self)@.ip < old(self).program().len(),
            old(self).program()[old(self)@.ip as int] == (Op::LoopStart { if_zero_add }),
        ensures
            final(self).wf(),
            final(self).program() == old(self).program(),
            Self::stepped(
                old(self)@,
                final(self)@,
                result,
                step_spec(old(self).program(), old(self)@),
            ),
    {
        proof {
            lemma_program_len(self.code);
        }
        if self.memory[self.mem_pointer] != 0 {
            self.ip += 1;
            return Ok(());
        }
        if if_zero_add <= self.code.vec().len() - self.ip {
            self.ip += if_zero_add;
            Ok(())
        } else {
            Err(ExecError::MalformedJumpError)
        }
    }

    fn loop_end(&mut self, if_non_zero_sub: usize) -> (result: Result<(), ExecError>)
        requires
            old(self).wf(),
            old(self)@.ip < old(self).program().len(),
            old(self).program()[old(self)@.ip as int] == (Op::LoopEnd { if_non_zero_sub }),
        ensures
            final(self).wf(),
            final(self).program() == old(self).program(),
            Self::stepped(
                old(self)@,
                final(self)@,
                result,
                step_spec(old(self).program(), old(self)@),
            ),
    {
        proof {
            lemma_program_len(self.code);
        }
        if self.memory[self.mem_pointer] == 0 {
            self.ip += 1;
            return Ok(());
        }
        if if_non_zero_sub <= self.ip {
            self.ip -= if_non_zero_sub;
            Ok(())
        } else {
            Err(ExecError::MalformedJumpError)
        }
    }

    fn load(&mut self, n: u8) -> (result: Result<(), ExecError>)
        requires
            old(self).wf(),
        ensures
            final(self).wf(),
            final(self).program() == old(self).program(),
            Self::applied(old(self)@, final(self)@, result, Op::Load(n)),
    {
        self.memory.set(self.mem_pointer, n);
        Ok(())
    }

    fn sum_right(&mut self, count: usize) -> (result: Result<(), ExecError>)
        requires
            old(self).wf(),
        ensures
            final(self).wf(),
            final(self).program() == old(self).program(),
            Self::applied(old(self)@, final(self)@, result, Op::SumRight(count)),
    {
        if count < TAPE_LEN - self.mem_pointer {
            let value: u8 = self.memory[self.mem_pointer];
            let target_index: usize = self.mem_pointer + count;
            let sum: u8 = self.memory[target_index].wrapping_add(value);
            self.memory.set(target_index, sum);
            Ok(())
        } else {
            Err(ExecError::AddressingError)
        }
    }

    fn sum_left(&mut self, count: usize) -> (result: Result<(), ExecError>)
        requires
            old(self).wf(),
        ensures
            final(self).wf(),
            final(self).program() == old(self).program(),
            Self::applied(old(self)@, final(self)@, result, Op::SumLeft(count)),
    {
        if count <= self.mem_pointer {
            let value: u8 = self.memory[self.mem_pointer];
            let target_index: usize = self.mem_pointer - count;
            let sum: u8 = self.memory[target_index].wrapping_add(value);
            self.memory.set(target_index, sum);
            Ok(())
        } else {
            Err(ExecError::AddressingError)
        }
    }

    fn jump_zero_right(&mut self, per: usize) -> (result: Result<(), ExecError>)
        requires
            old(self).wf(),
            !spins(Op::JumpZeroRight { per }, old(self)@.state),
        ensures
            final(self).wf(),
            final(self).program() == old(self).program(),
            Self::applied(old(self)@, final(self)@, result, (Op::JumpZeroRight { per })),
    {
        let mut at: usize = self.mem_pointer;
        while self.memory[at] != 0
            invariant
                self.wf(),
                self.memory@.len() == TAPE_LEN,
                at < TAPE_LEN,
                self.memory@[self.mem_pointer as int] != 0 ==> per > 0,
                at != self.mem_pointer ==> self.memory@[self.mem_pointer as int] != 0,
                scan_right(self.memory@, at as nat, per as nat) == scan_right(
                    self.memory@,
                    self.mem_pointer as nat,
                    per as nat,
                ),
            decreases TAPE_LEN - at,
        {
            if per < TAPE_LEN - at {
                at += per;
            } else {
                assert(scan_right(self.memory@, (at + per) as nat, per as nat) is None);
                return Err(ExecError::AddressingError);
            }
        }
        self.mem_pointer = at;
        Ok(())
    }

    fn jump_zero_left(&mut self, per: usize) -> (result: Result<(), ExecError>)
        requires
            old(self).wf(),
            !spins(Op::JumpZeroLeft { per }, old(self)@.state),
        ensures
            final(self).wf(),
            final(self).program() == old(self).program(),
            Self::applied(old(self)@, final(self)@, result, (Op::JumpZeroLeft { per })),
    {
        let mut at: usize = self.mem_pointer;
        while self.memory[at] != 0
            invariant
                self.wf(),
                self.memory@.len() == TAPE_LEN,
                at < TAPE_LEN,
                self.memory@[self.mem_pointer as int] != 0 ==> per > 0,
                at != self.mem_pointer ==> self.memory@[self.mem_pointer as int] != 0,
                scan_left(self.memory@, at as nat, per as nat) == scan_left(
                    self.memory@,
                    self.mem_pointer as nat,
                    per as nat,
                ),
            decreases at,
        {
            if per <= at {
                at -= per;
            } else {
                return Err(ExecError::AddressingError);
            }
        }
        self.mem_pointer = at;
        Ok(())
    }
}

} // verus!
