//! Architectural state, the execution unit and the run loop.
use vstd::prelude::*;
use vstd::bytes::{
    spec_u64_from_le_bytes, spec_u64_to_le_bytes, u64_from_le_bytes, u64_to_le_bytes,
};
use vstd::slice::slice_subrange;
use vstd::utf8::encode_utf8;
use crate::decode::{
    decode, decode_line, operation_wf, Line, Opcode, Operand, Operation, DecodeError,
    REG_COUNT,
};
use crate::text::{decimal, is_sep, is_separator, parse_decimal};
use crate::labels::{line_bytes, resolve, LabelTable};

verus! {

/// Bytes of memory.
pub const MEM_SIZE: usize = 4096;

/// Number of 128-bit vector registers (no instruction uses them yet).
pub const VREG_COUNT: usize = 8;

/// Bit 63: the sign bit of a 64-bit word.
pub const SIGN_BIT: u64 = 0x8000_0000_0000_0000;

/// Zero, negative, carry and signed-overflow bits.
#[derive(Clone, Copy, Debug, PartialEq, Eq, Structural)]
pub struct Flags {
    pub z: bool,
    pub n: bool,
    pub c: bool,
    pub v: bool,
}

/// How the program counter moves after an operation.
#[derive(Clone, Copy, Debug, PartialEq, Eq, Structural)]
pub enum Effect {
    Continue,
    Jump(usize),
    Halt,
}

#[derive(Clone, Copy, Debug, PartialEq, Eq, Structural)]
pub enum Fault {
    Decode(DecodeError),
    /// A load or store that would reach past the end of memory.
    OutOfBoundsMemory,
}

/// Why a run ended without a fault.
#[derive(Clone, Copy, Debug, PartialEq, Eq, Structural)]
pub enum Stop {
    Halted,
    EndOfProgram,
    StepLimit,
}

/// The registers, flags and memory that operations read and write.
pub struct Machine {
    pub regs: Seq<u64>,
    pub flags: Flags,
    pub mem: Seq<u8>,
}

pub open spec fn machine_wf(m: Machine) -> bool {
    m.regs.len() == REG_COUNT && m.mem.len() == MEM_SIZE
}

pub open spec fn wrap(x: int) -> u64 {
    (x % 0x1_0000_0000_0000_0000) as u64
}

/// Flags after adding `b` to `a`: carry when the true sum needs 65 bits,
/// overflow when both operands have one sign and the sum the other.
pub open spec fn add_flags(a: u64, b: u64) -> Flags {
    let sum = wrap(a + b);
    Flags {
        z: sum == 0,
        n: sum >= SIGN_BIT,
        c: a + b > u64::MAX,
        v: (a >= SIGN_BIT) == (b >= SIGN_BIT) && (sum >= SIGN_BIT) != (a >= SIGN_BIT),
    }
}

/// A register slot; a missing or mistyped operand stands for r0.
pub open spec fn reg_of(o: Option<Operand>) -> int {
    match o {
        Some(Operand::Register(r)) => r as int,
        _ => 0,
    }
}

/// An immediate slot; a missing or mistyped operand stands for 0.
pub open spec fn imm_of(o: Option<Operand>) -> u64 {
    match o {
        Some(Operand::Immediate(v)) => v,
        _ => 0,
    }
}

/// A register-or-immediate slot.
pub open spec fn value_of(regs: Seq<u64>, o: Option<Operand>) -> u64 {
    match o {
        Some(Operand::Immediate(v)) => v,
        Some(Operand::Register(r)) => regs[r as int],
        _ => 0,
    }
}

/// A memory slot; a missing or mistyped operand stands for `[r0]`.
pub open spec fn address_of(regs: Seq<u64>, o: Option<Operand>) -> int {
    match o {
        Some(Operand::Memory { base, offset }) => regs[base as int] + offset,
        _ => regs[0] as int,
    }
}

/// A branch target's name; a missing or mistyped operand stands for the empty name.
pub open spec fn name_of(line: Seq<u8>, o: Option<Operand>) -> Seq<u8> {
    match o {
        Some(Operand::Name { start, end }) => line.subrange(start as int, end as int),
        _ => seq![],
    }
}

pub open spec fn in_bounds(addr: int) -> bool {
    0 <= addr && addr + 8 <= MEM_SIZE
}

/// The little-endian word at `addr`.
pub open spec fn load_spec(mem: Seq<u8>, addr: int) -> u64 {
    spec_u64_from_le_bytes(mem.subrange(addr, addr + 8))
}

/// `mem` with the little-endian bytes of `v` at `addr`.
pub open spec fn store_spec(mem: Seq<u8>, addr: int, v: u64) -> Seq<u8> {
    mem.subrange(0, addr) + spec_u64_to_le_bytes(v) + mem.subrange(addr + 8, mem.len() as int)
}

/// What one operation does to the machine, given the label table.
pub open spec fn step_op(
    m: Machine,
    op: Operation,
    line: Seq<u8>,
    labels: Map<Seq<u8>, usize>,
) -> Result<(Machine, Effect), Fault> {
    match op.opcode {
        Opcode::Movi => Ok(
            (Machine { regs: m.regs.update(reg_of(op.op0), imm_of(op.op1)), ..m }, Effect::Continue),
        ),
        Opcode::Load => {
            let addr = address_of(m.regs, op.op1);
            if !in_bounds(addr) {
                Err(Fault::OutOfBoundsMemory)
            } else {
                Ok(
                    (
                        Machine { regs: m.regs.update(reg_of(op.op0), load_spec(m.mem, addr)), ..m },
                        Effect::Continue,
                    ),
                )
            }
        },
        Opcode::Add => {
            let a = m.regs[reg_of(op.op1)];
            let b = value_of(m.regs, op.op2);
            Ok(
                (
                    Machine {
                        regs: m.regs.update(reg_of(op.op0), wrap(a + b)),
                        flags: add_flags(a, b),
                        mem: m.mem,
                    },
                    Effect::Continue,
                ),
            )
        },
        Opcode::Dec => {
            let a = m.regs[reg_of(op.op0)];
            Ok(
                (
                    Machine {
                        regs: m.regs.update(reg_of(op.op0), wrap(a + u64::MAX)),
                        flags: add_flags(a, u64::MAX),
                        mem: m.mem,
                    },
                    Effect::Continue,
                ),
            )
        },
        Opcode::Bne => if m.flags.z {
            Ok((m, Effect::Continue))
        } else {
            let name = name_of(line, op.op0);
            Ok(
                (
                    m,
                    Effect::Jump(
                        if labels.contains_key(name) {
                            labels[name]
                        } else {
                            0
                        },
                    ),
                ),
            )
        },
        Opcode::Halt => Ok((m, Effect::Halt)),
        Opcode::Other => Ok((m, Effect::Continue)),
    }
}

pub open spec fn is_operation(line: Seq<u8>) -> bool {
    decode_line(line) matches Ok(Line::Op(_))
}

/// What one line does: labels and blank lines do nothing.
pub open spec fn exec_line(m: Machine, line: Seq<u8>, labels: Map<Seq<u8>, usize>) -> Result<
    (Machine, Effect),
    Fault,
> {
    match decode_line(line) {
        Err(e) => Err(Fault::Decode(e)),
        Ok(Line::Op(op)) => step_op(m, op, line, labels),
        Ok(_) => Ok((m, Effect::Continue)),
    }
}

/// Where a run ends: the machine, the program counter, the log of the
/// operations executed, and why it stopped.
pub struct Run {
    pub machine: Machine,
    pub pc: int,
    pub log: Seq<Seq<char>>,
    pub outcome: Result<Stop, Fault>,
}

/// Running `p` from line `pc` for at most `fuel` steps.
pub open spec fn run_from(
    m: Machine,
    pc: int,
    log: Seq<Seq<char>>,
    p: Seq<String>,
    labels: Map<Seq<u8>, usize>,
    fuel: nat,
) -> Run
    decreases fuel,
{
    if pc < 0 || pc >= p.len() {
        Run { machine: m, pc, log, outcome: Ok(Stop::EndOfProgram) }
    } else if fuel == 0 {
        Run { machine: m, pc, log, outcome: Ok(Stop::StepLimit) }
    } else {
        let line = line_bytes(p[pc]);
        let log2 = if is_operation(line) {
            log.push(p[pc]@)
        } else {
            log
        };
        match exec_line(m, line, labels) {
            Err(f) => Run { machine: m, pc, log: log2, outcome: Err(f) },
            Ok((m2, Effect::Continue)) => run_from(m2, pc + 1, log2, p, labels, (fuel - 1) as nat),
            Ok((m2, Effect::Jump(t))) => run_from(m2, t as int, log2, p, labels, (fuel - 1) as nat),
            Ok((m2, Effect::Halt)) => Run { machine: m2, pc, log: log2, outcome: Ok(Stop::Halted) },
        }
    }
}

/// Bytes that a lenient register reading strips from either end: `r`, the
/// comma and ASCII whitespace.
pub open spec fn trimmable(b: u8) -> bool {
    b == 114u8 || is_sep(b)
}

pub open spec fn trim_front(s: Seq<u8>) -> Seq<u8>
    decreases s.len(),
{
    if s.len() > 0 && trimmable(s[0]) {
        trim_front(s.drop_first())
    } else {
        s
    }
}

pub open spec fn trim_back(s: Seq<u8>) -> Seq<u8>
    decreases s.len(),
{
    if s.len() > 0 && trimmable(s.last()) {
        trim_back(s.drop_last())
    } else {
        s
    }
}

/// The register index in `s` read leniently: the number that is left after
/// trimming, when it is a decimal numeral that fits in `usize`; anything else
/// reads as 0. The number is not checked against `REG_COUNT`.
pub open spec fn lenient_register(s: Seq<u8>) -> usize {
    match decimal(trim_back(trim_front(s))) {
        Some(v) => if v <= usize::MAX {
            v as usize
        } else {
            0
        },
        None => 0,
    }
}

fn add_with_flags(a: u64, b: u64) -> (r: (u64, Flags))
    ensures
        r.0 == wrap(a + b),
        r.1 == add_flags(a, b),
{
    let carry = b > u64::MAX - a;
    let sum = if carry {
        b - (u64::MAX - a) - 1
    } else {
        a + b
    };
    assert(sum == wrap(a + b));
    let sa = a >= SIGN_BIT;
    let ss = sum >= SIGN_BIT;
    (sum, Flags { z: sum == 0, n: ss, c: carry, v: sa == (b >= SIGN_BIT) && ss != sa })
}

fn reg_index(o: Option<Operand>) -> (r: usize)
    requires
        o matches Some(Operand::Register(i)) ==> i < REG_COUNT,
    ensures
        r == reg_of(o),
        r < REG_COUNT,
{
    match o {
        Some(Operand::Register(r)) => r,
        _ => 0,
    }
}

fn imm_value(o: Option<Operand>) -> (r: u64)
    ensures
        r == imm_of(o),
{
    match o {
        Some(Operand::Immediate(v)) => v,
        _ => 0,
    }
}

/// The emulator: architectural state, the label table, and the log of the
/// instruction texts executed.
#[allow(non_camel_case_types)]
pub struct CRZ64I_Emulator {
    pub regs: [u64; REG_COUNT],
    pub vregs: [[u64; 2]; VREG_COUNT],
    pub memory: [u8; MEM_SIZE],
    pub pc: usize,
    pub flags: Flags,
    pub halted: bool,
    pub labels: LabelTable,
    pub log: Vec<String>,
}

impl CRZ64I_Emulator {
    pub open spec fn machine(&self) -> Machine {
        Machine { regs: self.regs@, flags: self.flags, mem: self.memory@ }
    }

    pub open spec fn log_view(&self) -> Seq<Seq<char>> {
        self.log@.map_values(|s: String| s@)
    }

    /// A machine with every register, flag and memory byte zero, and no labels.
    pub fn new() -> (r: CRZ64I_Emulator)
        ensures
            forall|i: int| 0 <= i < REG_COUNT ==> r.regs@[i] == 0,
            forall|i: int| 0 <= i < MEM_SIZE ==> r.memory@[i] == 0,
            forall|i: int| 0 <= i < VREG_COUNT ==> r.vregs@[i]@ == seq![0u64, 0u64],
            r.flags == (Flags { z: false, n: false, c: false, v: false }),
            r.pc == 0,
            !r.halted,
            r.labels@ == Map::<Seq<u8>, usize>::empty(),
            r.log@.len() == 0,
    {
        let r = CRZ64I_Emulator {
            regs: [0u64; REG_COUNT],
            vregs: [[0u64, 0u64]; VREG_COUNT],
            memory: [0u8; MEM_SIZE],
            pc: 0,
            flags: Flags { z: false, n: false, c: false, v: false },
            halted: false,
            labels: LabelTable::new(),
            log: Vec::new(),
        };
        r
    }
    /// Reads a register number leniently, defaulting to 0 (see `lenient_register`).
    pub fn parse_reg(&self, s: &str) -> (r: usize)
        ensures
            r == lenient_register(encode_utf8(s@)),
    {
        let b = s.as_bytes();
        let mut i: usize = 0;
        assert(b@.subrange(0, b@.len() as int) =~= b@);
        while i < b.len() && (b[i] == 114 || is_separator(b[i]))
            invariant
                i <= b@.len(),
                trim_front(b@) == trim_front(b@.subrange(i as int, b@.len() as int)),
            decreases b.len() - i,
        {
            assert(b@.subrange(i as int, b@.len() as int).drop_first() =~= b@.subrange(
                i + 1,
                b@.len() as int,
            ));
            i = i + 1;
        }
        let ghost rest = b@.subrange(i as int, b@.len() as int);
        let mut j: usize = b.len();
        assert(rest =~= b@.subrange(i as int, j as int));
        while j > i && (b[j - 1] == 114 || is_separator(b[j - 1]))
            invariant
                i <= j <= b@.len(),
                trim_front(b@) == rest,
                trim_back(rest) == trim_back(b@.subrange(i as int, j as int)),
            decreases j,
        {
            assert(b@.subrange(i as int, j as int).drop_last() =~= b@.subrange(
                i as int,
                j - 1,
            ));
            j = j - 1;
        }
        match parse_decimal(b, i, j) {
            Some(v) => if v <= usize::MAX as u64 {
                v as usize
            } else {
                0
            },
            None => 0,
        }
    }

    /// The little-endian word at `addr`.
    pub fn load_u64(&self, addr: usize) -> (r: Result<u64, Fault>)
        ensures
            r == (if in_bounds(addr as int) {
                Ok(load_spec(self.memory@, addr as int))
            } else {
                Err(Fault::OutOfBoundsMemory)
            }),
    {
        if addr > MEM_SIZE - 8 {
            return Err(Fault::OutOfBoundsMemory);
        }
        let bytes = slice_subrange(self.memory.as_slice(), addr, addr + 8);
        Ok(u64_from_le_bytes(bytes))
    }

    /// Writes `value` at `addr` as eight little-endian bytes; out of bounds,
    /// nothing changes.
    pub fn store_u64(&mut self, addr: usize, value: u64) -> (r: Result<(), Fault>)
        ensures
            r == (if in_bounds(addr as int) {
                Ok(())
            } else {
                Err(Fault::OutOfBoundsMemory)
            }),
            final(self).memory@ == (if in_bounds(addr as int) {
                store_spec(old(self).memory@, addr as int, value)
            } else {
                old(self).memory@
            }),
            final(self).regs == old(self).regs,
            final(self).vregs == old(self).vregs,
            final(self).flags == old(self).flags,
            final(self).pc == old(self).pc,
            final(self).halted == old(self).halted,
            final(self).labels == old(self).labels,
            final(self).log == old(self).log,
    {
        if addr > MEM_SIZE - 8 {
            return Err(Fault::OutOfBoundsMemory);
        }
        let bytes = u64_to_le_bytes(value);
        let mut j: usize = 0;
        while j < 8
            invariant
                j <= 8,
                addr + 8 <= MEM_SIZE,
                bytes@ == spec_u64_to_le_bytes(value),
                bytes@.len() == 8,
                forall|k: int|
                    0 <= k < MEM_SIZE ==> #[trigger] self.memory@[k] == if addr <= k < addr + j {
                        bytes@[k - addr]
                    } else {
                        old(self).memory@[k]
                    },
                self.regs == old(self).regs,
                self.vregs == old(self).vregs,
                self.flags == old(self).flags,
                self.pc == old(self).pc,
                self.halted == old(self).halted,
                self.labels == old(self).labels,
                self.log == old(self).log,
            decreases 8 - j,
        {
            self.memory[addr + j] = bytes[j];
            j = j + 1;
        }
        assert(self.memory@ =~= store_spec(old(self).memory@, addr as int, value));
        Ok(())
    }

    /// Applies one decoded operation of `line`.
    fn apply(&mut self, op: Operation, line: &[u8]) -> (r: Result<Effect, Fault>)
        requires
            operation_wf(op, line@.len() as int),
        ensures
            match step_op(old(self).machine(), op, line@, old(self).labels@) {
                Ok((m, e)) => r == Ok::<Effect, Fault>(e) && final(self).machine() == m,
                Err(f) => r == Err::<Effect, Fault>(f) && final(self).machine() == old(self).machine(),
            },
            final(self).vregs == old(self).vregs,
            final(self).pc == old(self).pc,
            final(self).halted == old(self).halted,
            final(self).labels == old(self).labels,
            final(self).log == old(self).log,
    {
        match op.opcode {
            Opcode::Movi => {
                let rd = reg_index(op.op0);
                self.regs[rd] = imm_value(op.op1);
                Ok(Effect::Continue)
            },
            Opcode::Load => {
                let rd = reg_index(op.op0);
                let (b, offset) = match op.op1 {
                    Some(Operand::Memory { base, offset }) => (self.regs[base], offset),
                    _ => (self.regs[0], 0),
                };
                // b + offset may not fit in 64 bits: compare without adding.
                if b > (MEM_SIZE - 8) as u64 || offset > (MEM_SIZE - 8) as u64 - b {
                    return Err(Fault::OutOfBoundsMemory);
                }
                match self.load_u64((b + offset) as usize) {
                    Ok(v) => {
                        self.regs[rd] = v;
                        Ok(Effect::Continue)
                    },
                    Err(f) => Err(f),
                }
            },
            Opcode::Add => {
                let rd = reg_index(op.op0);
                let rs = reg_index(op.op1);
                let a = self.regs[rs];
                let b = match op.op2 {
                    Some(Operand::Immediate(v)) => v,
                    Some(Operand::Register(i)) => self.regs[i],
                    _ => 0,
                };
                let (sum, f) = add_with_flags(a, b);
                self.regs[rd] = sum;
                self.flags = f;
                Ok(Effect::Continue)
            },
            Opcode::Dec => {
                let rd = reg_index(op.op0);
                let (sum, f) = add_with_flags(self.regs[rd], u64::MAX);
                self.regs[rd] = sum;
                self.flags = f;
                Ok(Effect::Continue)
            },
            Opcode::Bne => {
                if self.flags.z {
                    return Ok(Effect::Continue);
                }
                let name = match op.op0 {
                    Some(Operand::Name { start, end }) => slice_subrange(line, start, end),
                    _ => slice_subrange(line, 0, 0),
                };
                assert(name@ == name_of(line@, op.op0));
                match self.labels.get(name) {
                    Some(t) => Ok(Effect::Jump(t)),
                    None => Ok(Effect::Jump(0)),
                }
            },
            Opcode::Halt => Ok(Effect::Halt),
            Opcode::Other => Ok(Effect::Continue),
        }
    }

    /// Decodes and executes one instruction line. Operations are appended to
    /// the log; labels and blank lines do nothing.
    pub fn execute(&mut self, instr: &String) -> (r: Result<Effect, Fault>)
        ensures
            match exec_line(old(self).machine(), line_bytes(*instr), old(self).labels@) {
                Ok((m, e)) => r == Ok::<Effect, Fault>(e) && final(self).machine() == m,
                Err(f) => r == Err::<Effect, Fault>(f) && final(self).machine() == old(self).machine(),
            },
            final(self).log_view() == (if is_operation(line_bytes(*instr)) {
                old(self).log_view().push(instr@)
            } else {
                old(self).log_view()
            }),
            final(self).vregs == old(self).vregs,
            final(self).pc == old(self).pc,
            final(self).halted == old(self).halted,
            final(self).labels == old(self).labels,
    {
        let line = instr.as_str().as_bytes();
        match decode(line) {
            Err(e) => Err(Fault::Decode(e)),
            Ok(Line::Op(op)) => {
                let ghost before = self.log@;
                self.log.push(instr.clone());
                assert(self.log_view() =~= old(self).log_view().push(instr@)) by {
                    assert(self.log@ == before.push(*instr));
                }
                self.apply(op, line)
            },
            Ok(_) => Ok(Effect::Continue),
        }
    }

    /// Replaces the label table with the labels of `program` alone, then runs it
    /// from line 0 until it halts, runs off its end, faults, or has taken
    /// `max_steps` steps. A fault leaves the program counter on the faulting
    /// line.
    pub fn run_program(&mut self, program: &Vec<String>, max_steps: u64) -> (r: Result<
        Stop,
        Fault,
    >)
        ensures
            ({
                let labels = resolve(Map::empty(), program@);
                let run = run_from(
                    old(self).machine(),
                    0,
                    old(self).log_view(),
                    program@,
                    labels,
                    max_steps as nat,
                );
                &&& final(self).labels@ == labels
                &&& final(self).machine() == run.machine
                &&& final(self).pc as int == run.pc
                &&& final(self).log_view() == run.log
                &&& r == run.outcome
                &&& final(self).halted == (run.outcome == Ok::<Stop, Fault>(Stop::Halted))
                &&& final(self).vregs == old(self).vregs
            }),
    {
        self.labels = LabelTable::new();
        self.labels.resolve(program);
        let ghost labels = self.labels@;
        let ghost target = run_from(
            old(self).machine(),
            0,
            old(self).log_view(),
            program@,
            labels,
            max_steps as nat,
        );
        self.pc = 0;
        self.halted = false;
        let mut fuel = max_steps;
        loop
            invariant
                self.labels@ == labels,
                labels == resolve(Map::empty(), program@),
                run_from(self.machine(), self.pc as int, self.log_view(), program@, labels, fuel as nat)
                    == target,
                target == run_from(
                    old(self).machine(),
                    0,
                    old(self).log_view(),
                    program@,
                    labels,
                    max_steps as nat,
                ),
                !self.halted,
                self.vregs == old(self).vregs,
            decreases fuel,
        {
            if self.pc >= program.len() {
                return Ok(Stop::EndOfProgram);
            }
            if fuel == 0 {
                return Ok(Stop::StepLimit);
            }
            match self.execute(&program[self.pc]) {
                Err(f) => return Err(f),
                Ok(Effect::Continue) => {
                    self.pc = self.pc + 1;
                },
                Ok(Effect::Jump(t)) => {
                    self.pc = t;
                },
                Ok(Effect::Halt) => {
                    self.halted = true;
                    return Ok(Stop::Halted);
                },
            }
            fuel = fuel - 1;
        }
    }
}

} // verus!
