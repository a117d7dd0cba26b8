use crz64i::decode::{decode, DecodeError, Line, Opcode, Operand};
use crz64i::labels::LabelTable;
use crz64i::machine::{CRZ64I_Emulator, Effect, Fault, Stop, MEM_SIZE};

fn lines(src: &[&str]) -> Vec<String> {
    src.iter().map(|s| s.to_string()).collect()
}

fn run_line(e: &mut CRZ64I_Emulator, s: &str) -> Result<Effect, Fault> {
    e.execute(&s.to_string())
}

#[test]
fn sums_four_words_in_a_loop() {
    let mut e = CRZ64I_Emulator::new();
    for (i, v) in [10u64, 20, 30, 40].iter().enumerate() {
        assert_eq!(e.store_u64(256 + 8 * i, *v), Ok(()));
    }
    let program = lines(&[
        "MOVI r1 #256",
        "MOVI r2 #4",
        "MOVI r3 #0",
        "loop:",
        "LOAD r4 [r1]",
        "ADD r3 r3 r4",
        "ADD r1 r1 #8",
        "DEC r2",
        "BNE loop",
    ]);
    assert_eq!(e.run_program(&program, 10_000), Ok(Stop::EndOfProgram));
    assert_eq!(e.regs[3], 100);
    assert_eq!(e.regs[2], 0);
    assert_eq!(e.regs[1], 288);
    assert!(e.flags.z);
    assert_eq!(e.pc, 9);
    assert!(!e.halted);
    // 3 moves, then 4 rounds of 5 operations; the label is not logged.
    assert_eq!(e.log.len(), 23);
    assert_eq!(e.log[3], "LOAD r4 [r1]");
    assert_eq!(e.log[22], "BNE loop");
}

#[test]
fn movi_then_read_gives_the_immediate() {
    let mut e = CRZ64I_Emulator::new();
    for i in 0..32u64 {
        let v = 0xdead_beef_0000_0000u64 + i;
        assert_eq!(run_line(&mut e, &format!("MOVI r{}, #{}", i, v)), Ok(Effect::Continue));
        assert_eq!(e.regs[i as usize], v);
    }
    assert_eq!(run_line(&mut e, "MOVI r7 #18446744073709551615"), Ok(Effect::Continue));
    assert_eq!(e.regs[7], u64::MAX);
    assert!(!e.flags.z && !e.flags.n && !e.flags.c && !e.flags.v);
}

fn add_flags(a: u64, b: u64) -> (u64, bool, bool, bool, bool) {
    let mut e = CRZ64I_Emulator::new();
    e.regs[1] = a;
    e.regs[2] = b;
    assert_eq!(run_line(&mut e, "ADD r1, r1, r2"), Ok(Effect::Continue));
    (e.regs[1], e.flags.z, e.flags.n, e.flags.c, e.flags.v)
}

#[test]
fn add_sets_flags() {
    assert_eq!(add_flags(2, 3), (5, false, false, false, false));
    assert_eq!(add_flags(u64::MAX, 1), (0, true, false, true, false));
    assert_eq!(add_flags(0x7fff_ffff_ffff_ffff, 1), (0x8000_0000_0000_0000, false, true, false, true));
    assert_eq!(add_flags(0x8000_0000_0000_0000, 0x8000_0000_0000_0000), (0, true, false, true, true));
    assert_eq!(add_flags(0, 0), (0, true, false, false, false));
    assert_eq!(add_flags(u64::MAX, u64::MAX), (u64::MAX - 1, false, true, true, false));
}

#[test]
fn add_with_immediate_and_same_register() {
    let mut e = CRZ64I_Emulator::new();
    e.regs[4] = 21;
    assert_eq!(run_line(&mut e, "ADD r5 r4 #100"), Ok(Effect::Continue));
    assert_eq!(e.regs[5], 121);
    assert_eq!(run_line(&mut e, "add r4, r4, r4"), Ok(Effect::Continue));
    assert_eq!(e.regs[4], 42);
}

#[test]
fn dec_wraps_and_sets_flags() {
    let mut e = CRZ64I_Emulator::new();
    assert_eq!(run_line(&mut e, "DEC r0"), Ok(Effect::Continue));
    assert_eq!(e.regs[0], u64::MAX);
    assert!(!e.flags.z && e.flags.n && !e.flags.c && !e.flags.v);
    e.regs[2] = 1;
    assert_eq!(run_line(&mut e, "DEC r2"), Ok(Effect::Continue));
    assert_eq!(e.regs[2], 0);
    assert!(e.flags.z && !e.flags.n && e.flags.c && !e.flags.v);
    e.regs[3] = 0x8000_0000_0000_0000;
    assert_eq!(run_line(&mut e, "DEC r3"), Ok(Effect::Continue));
    assert_eq!(e.regs[3], 0x7fff_ffff_ffff_ffff);
    assert!(e.flags.v && e.flags.c && !e.flags.n);
}

#[test]
fn load_reads_back_a_stored_word() {
    let mut e = CRZ64I_Emulator::new();
    let v = 0x0102_0304_0506_0708u64;
    assert_eq!(e.store_u64(1000, v), Ok(()));
    assert_eq!(e.memory[1000], 0x08);
    assert_eq!(e.memory[1007], 0x01);
    assert_eq!(e.load_u64(1000), Ok(v));
    e.regs[6] = 990;
    assert_eq!(run_line(&mut e, "LOAD r2, [r6+10]"), Ok(Effect::Continue));
    assert_eq!(e.regs[2], v);
    assert_eq!(e.store_u64(MEM_SIZE - 8, 7), Ok(()));
    assert_eq!(e.load_u64(MEM_SIZE - 8), Ok(7));
}

#[test]
fn load_past_the_end_faults_and_changes_nothing() {
    let mut e = CRZ64I_Emulator::new();
    e.regs[1] = (MEM_SIZE - 7) as u64;
    e.regs[2] = 55;
    assert_eq!(run_line(&mut e, "LOAD r2 [r1]"), Err(Fault::OutOfBoundsMemory));
    assert_eq!(e.regs[2], 55);
    e.regs[1] = u64::MAX;
    assert_eq!(run_line(&mut e, "LOAD r2 [r1+8]"), Err(Fault::OutOfBoundsMemory));
    assert_eq!(e.regs[2], 55);
    e.regs[1] = 0;
    assert_eq!(run_line(&mut e, "LOAD r2 [r1+4089]"), Err(Fault::OutOfBoundsMemory));
    assert_eq!(e.load_u64(MEM_SIZE - 7), Err(Fault::OutOfBoundsMemory));
    assert_eq!(e.store_u64(MEM_SIZE, 1), Err(Fault::OutOfBoundsMemory));
    assert!(e.memory.iter().all(|b| *b == 0));
    assert_eq!(run_line(&mut e, "LOAD r2 [r1+4088]"), Ok(Effect::Continue));
    assert_eq!(e.regs[2], 0);
}

#[test]
fn branch_goes_to_the_label_line() {
    let program = lines(&["MOVI r1 #1", "loop:", "ADD r1 r1 #0", "BNE loop"]);
    let mut e = CRZ64I_Emulator::new();
    assert_eq!(e.run_program(&program, 4), Ok(Stop::StepLimit));
    assert_eq!(e.pc, 1);
    assert_eq!(e.labels.get(b"loop"), Some(1));
    let mut e = CRZ64I_Emulator::new();
    e.labels.resolve(&program);
    assert_eq!(run_line(&mut e, "BNE loop"), Ok(Effect::Jump(1)));
    e.flags.z = true;
    assert_eq!(run_line(&mut e, "BNE loop"), Ok(Effect::Continue));
}

#[test]
fn unknown_label_jumps_to_line_zero() {
    let mut e = CRZ64I_Emulator::new();
    assert_eq!(run_line(&mut e, "BNE nowhere"), Ok(Effect::Jump(0)));
    assert_eq!(run_line(&mut e, "BNE"), Ok(Effect::Jump(0)));
}

#[test]
fn resolving_twice_gives_the_same_table() {
    let program = lines(&["a:", "MOVI r1 #1", "b:", "HALT", "c:"]);
    let mut t = LabelTable::new();
    t.resolve(&program);
    let first: Vec<Option<usize>> = [&b"a"[..], b"b", b"c", b"d"].iter().map(|n| t.get(n)).collect();
    let n = t.entries.len();
    t.resolve(&program);
    let second: Vec<Option<usize>> = [&b"a"[..], b"b", b"c", b"d"].iter().map(|n| t.get(n)).collect();
    assert_eq!(first, vec![Some(0), Some(2), Some(4), None]);
    assert_eq!(first, second);
    assert_eq!(t.entries.len(), n);
}

#[test]
fn register_numeral_too_long_reads_as_r0() {
    match decode(b"MOVI r99999999999999999999999 #1") {
        Ok(Line::Op(op)) => assert_eq!(op.op0, Some(Operand::Register(0))),
        other => panic!("unexpected {:?}", other),
    }
    match decode(b"LOAD r1 [r99999999999999999999999+8]") {
        Ok(Line::Op(op)) => assert_eq!(op.op1, Some(Operand::Memory { base: 0, offset: 8 })),
        other => panic!("unexpected {:?}", other),
    }
}

#[test]
fn labels_of_an_earlier_run_are_forgotten() {
    let mut e = CRZ64I_Emulator::new();
    let first = lines(&["MOVI r1 #1", "MOVI r2 #2", "old:", "HALT"]);
    assert_eq!(e.run_program(&first, 100), Ok(Stop::Halted));
    assert_eq!(e.labels.get(b"old"), Some(2));
    let second = lines(&["MOVI r5 #1", "BNE old", "MOVI r6 #7", "HALT"]);
    assert_eq!(e.run_program(&second, 4), Ok(Stop::StepLimit));
    assert_eq!(e.labels.get(b"old"), None);
    // Both branches to the unknown name went back to line 0.
    assert_eq!(e.pc, 0);
    assert_eq!(e.regs[6], 0);
}

#[test]
fn later_label_definition_wins() {
    let mut t = LabelTable::new();
    t.resolve(&lines(&["x:", "HALT", "x:"]));
    assert_eq!(t.get(b"x"), Some(2));
}

#[test]
fn halt_stops_the_run() {
    let program = lines(&["MOVI r1 #9", "HALT", "MOVI r1 #10"]);
    let mut e = CRZ64I_Emulator::new();
    assert_eq!(e.run_program(&program, 100), Ok(Stop::Halted));
    assert!(e.halted);
    assert_eq!(e.pc, 1);
    assert_eq!(e.regs[1], 9);
}

#[test]
fn unknown_opcodes_and_blank_lines_do_nothing() {
    let program = lines(&["XCHG r1 r2", "", "   ", "MOVI r1 #3"]);
    let mut e = CRZ64I_Emulator::new();
    assert_eq!(e.run_program(&program, 100), Ok(Stop::EndOfProgram));
    assert_eq!(e.regs[1], 3);
    assert_eq!(e.log.len(), 2);
}

#[test]
fn decode_error_stops_the_run_on_its_line() {
    let program = lines(&["MOVI r1 #3", "MOVI r2 #abc", "MOVI r3 #1"]);
    let mut e = CRZ64I_Emulator::new();
    assert_eq!(e.run_program(&program, 100), Err(Fault::Decode(DecodeError::BadImmediate)));
    assert_eq!(e.pc, 1);
    assert_eq!(e.regs[1], 3);
    assert_eq!(e.regs[3], 0);
}

#[test]
fn infinite_loop_stops_at_the_step_limit() {
    let program = lines(&["top:", "BNE top"]);
    let mut e = CRZ64I_Emulator::new();
    assert_eq!(e.run_program(&program, 1001), Ok(Stop::StepLimit));
    assert_eq!(e.pc, 1);
}

#[test]
fn decodes_operations() {
    match decode(b"  movi r31, #42 ") {
        Ok(Line::Op(op)) => {
            assert_eq!(op.opcode, Opcode::Movi);
            assert_eq!(op.op0, Some(Operand::Register(31)));
            assert_eq!(op.op1, Some(Operand::Immediate(42)));
            assert_eq!(op.op2, None);
        }
        other => panic!("unexpected {:?}", other),
    }
    match decode(b"LOAD r4 [r1+16]") {
        Ok(Line::Op(op)) => {
            assert_eq!(op.opcode, Opcode::Load);
            assert_eq!(op.op1, Some(Operand::Memory { base: 1, offset: 16 }));
        }
        other => panic!("unexpected {:?}", other),
    }
    match decode(b"bne loop") {
        Ok(Line::Op(op)) => {
            assert_eq!(op.opcode, Opcode::Bne);
            assert_eq!(op.op0, Some(Operand::Name { start: 4, end: 8 }));
        }
        other => panic!("unexpected {:?}", other),
    }
    match decode(b"Halt") {
        Ok(Line::Op(op)) => assert_eq!(op.opcode, Opcode::Halt),
        other => panic!("unexpected {:?}", other),
    }
    match decode(b"HALTS") {
        Ok(Line::Op(op)) => assert_eq!(op.opcode, Opcode::Other),
        other => panic!("unexpected {:?}", other),
    }
}

#[test]
fn decodes_labels_and_blank_lines() {
    assert_eq!(decode(b"loop:"), Ok(Line::Label { start: 0, end: 4 }));
    assert_eq!(decode(b"  end:  "), Ok(Line::Label { start: 2, end: 5 }));
    assert_eq!(decode(b""), Ok(Line::Blank));
    assert_eq!(decode(b" ,\t "), Ok(Line::Blank));
}

#[test]
fn rejects_malformed_operands() {
    assert_eq!(decode(b"MOVI r1 #abc"), Err(DecodeError::BadImmediate));
    assert_eq!(decode(b"MOVI r1 #"), Err(DecodeError::BadImmediate));
    assert_eq!(decode(b"MOVI r1 #18446744073709551616"), Err(DecodeError::BadImmediate));
    assert_eq!(decode(b"MOVI r32 #1"), Err(DecodeError::BadRegister));
    assert_eq!(decode(b"LOAD r1 [r1+x]"), Err(DecodeError::BadMemoryRef));
    assert_eq!(decode(b"LOAD r1 [r1"), Err(DecodeError::BadMemoryRef));
    assert_eq!(decode(b"LOAD r1 [q1]"), Err(DecodeError::BadMemoryRef));
    assert_eq!(decode(b"ADD r1 r2 r3 r4"), Err(DecodeError::TooManyOperands));
}

#[test]
fn parse_reg_reads_leniently() {
    let e = CRZ64I_Emulator::new();
    assert_eq!(e.parse_reg("r5"), 5);
    assert_eq!(e.parse_reg(" r12, "), 12);
    assert_eq!(e.parse_reg("rr3r"), 3);
    assert_eq!(e.parse_reg("x"), 0);
    assert_eq!(e.parse_reg(""), 0);
    assert_eq!(e.parse_reg("r40"), 40);
    assert_eq!(e.parse_reg("r99999999999999999999999"), 0);
}

#[test]
fn new_machine_is_zeroed() {
    let e = CRZ64I_Emulator::new();
    assert!(e.regs.iter().all(|r| *r == 0));
    assert!(e.vregs.iter().all(|v| *v == [0, 0]));
    assert_eq!(e.pc, 0);
    assert!(!e.halted);
    assert!(e.log.is_empty());
    assert_eq!(e.labels.get(b"loop"), None);
}
