//! Properties of the machine stated over its specification and proved.
use vstd::prelude::*;
use vstd::bytes::{lemma_auto_spec_u64_to_from_le_bytes, spec_u64_to_le_bytes};
use crate::decode::{
    decode_line, decode_operand, lemma_index_of, DecodeError, Line, Opcode, Operand, Operation,
    REG_COUNT,
};
use crate::text::{dec_text, is_sep, lemma_dec_text, lemma_tokens_concat, lemma_tokens_word, tokens};
use crate::labels::{label_name, lemma_resolve_finds, line_bytes, resolve};
use crate::machine::{
    address_of, exec_line, in_bounds, load_spec, machine_wf, name_of, run_from, step_op,
    store_spec, Effect,
    Fault, Machine, SIGN_BIT, MEM_SIZE,
};

verus! {

/// A 64-bit word read as a two's-complement signed number.
pub open spec fn signed(x: u64) -> int {
    if x >= SIGN_BIT {
        x - 0x1_0000_0000_0000_0000
    } else {
        x as int
    }
}

/// After `MOVI ri, #v` register `ri` holds exactly `v`, and nothing else changes.
pub proof fn law_movi_sets_register(
    m: Machine,
    i: usize,
    v: u64,
    line: Seq<u8>,
    labels: Map<Seq<u8>, usize>,
)
    requires
        machine_wf(m),
        i < REG_COUNT,
    ensures
        ({
            let op = Operation {
                opcode: Opcode::Movi,
                op0: Some(Operand::Register(i)),
                op1: Some(Operand::Immediate(v)),
                op2: None,
            };
            &&& step_op(m, op, line, labels) is Ok
            &&& step_op(m, op, line, labels).unwrap().0.regs[i as int] == v
            &&& step_op(m, op, line, labels).unwrap().0.flags == m.flags
            &&& step_op(m, op, line, labels).unwrap().0.mem == m.mem
            &&& step_op(m, op, line, labels).unwrap().1 == Effect::Continue
        }),
{
}

/// `ADD rd, rd, rs` with `a` in `rd` and `b` in `rs` leaves the sum modulo
/// 2^64 in `rd`, sets Z when that sum is 0, C when the true sum reaches 2^64,
/// N when bit 63 of the sum is set, and V exactly when the signed sum of `a`
/// and `b` leaves the signed 64-bit range, which is when `a` and `b` share a
/// sign bit that the sum does not have.
pub proof fn law_add_flags(
    m: Machine,
    rd: usize,
    rs: usize,
    a: u64,
    b: u64,
    line: Seq<u8>,
    labels: Map<Seq<u8>, usize>,
)
    requires
        machine_wf(m),
        rd < REG_COUNT,
        rs < REG_COUNT,
        m.regs[rd as int] == a,
        m.regs[rs as int] == b,
    ensures
        ({
            let op = Operation {
                opcode: Opcode::Add,
                op0: Some(Operand::Register(rd)),
                op1: Some(Operand::Register(rd)),
                op2: Some(Operand::Register(rs)),
            };
            let r = step_op(m, op, line, labels);
            let sum = (a + b) % 0x1_0000_0000_0000_0000;
            &&& r is Ok
            &&& r.unwrap().0.regs[rd as int] == sum
            &&& r.unwrap().0.flags.z == (sum == 0)
            &&& r.unwrap().0.flags.c == (a + b >= 0x1_0000_0000_0000_0000)
            &&& r.unwrap().0.flags.n == (sum >= SIGN_BIT)
            &&& r.unwrap().0.flags.v == ((a >= SIGN_BIT) == (b >= SIGN_BIT) && (sum >= SIGN_BIT) != (
            a >= SIGN_BIT))
            &&& r.unwrap().0.flags.v == !(i64::MIN <= signed(a) + signed(b) <= i64::MAX)
            &&& r.unwrap().0.flags.v == (((a ^ (sum as u64)) & (b ^ (sum as u64)) & SIGN_BIT) != 0)
        }),
{
    let s = ((a + b) % 0x1_0000_0000_0000_0000) as u64;
    assert(((a ^ s) & (b ^ s) & 0x8000_0000_0000_0000u64) != 0 <==> ((a >= 0x8000_0000_0000_0000u64)
        == (b >= 0x8000_0000_0000_0000u64) && (s >= 0x8000_0000_0000_0000u64) != (a
        >= 0x8000_0000_0000_0000u64))) by (bit_vector);
}

/// Storing the little-endian bytes of `v` at an address and then loading
/// from that address, through `LOAD rd, [rb+offset]`, gives back `v`.
pub proof fn law_load_after_store(
    m: Machine,
    rd: usize,
    rb: usize,
    offset: u64,
    v: u64,
    line: Seq<u8>,
    labels: Map<Seq<u8>, usize>,
)
    requires
        machine_wf(m),
        rd < REG_COUNT,
        rb < REG_COUNT,
        in_bounds(m.regs[rb as int] + offset),
    ensures
        ({
            let addr = m.regs[rb as int] + offset;
            let stored = Machine { mem: store_spec(m.mem, addr, v), ..m };
            let op = Operation {
                opcode: Opcode::Load,
                op0: Some(Operand::Register(rd)),
                op1: Some(Operand::Memory { base: rb, offset }),
                op2: None,
            };
            &&& load_spec(store_spec(m.mem, addr, v), addr) == v
            &&& step_op(stored, op, line, labels) is Ok
            &&& step_op(stored, op, line, labels).unwrap().0.regs[rd as int] == v
        }),
{
    let addr = m.regs[rb as int] + offset;
    lemma_auto_spec_u64_to_from_le_bytes();
    assert(spec_u64_to_le_bytes(v).len() == 8);
    assert(store_spec(m.mem, addr, v).subrange(addr, addr + 8) =~= spec_u64_to_le_bytes(v));
}

/// A `LOAD` whose address plus eight passes the end of memory faults, with a
/// result that no memory byte can influence.
pub proof fn law_load_out_of_bounds(
    m: Machine,
    op: Operation,
    line: Seq<u8>,
    labels: Map<Seq<u8>, usize>,
)
    requires
        machine_wf(m),
        op.opcode == Opcode::Load,
        address_of(m.regs, op.op1) + 8 > MEM_SIZE,
    ensures
        step_op(m, op, line, labels) == Err::<(Machine, Effect), Fault>(Fault::OutOfBoundsMemory),
        forall|mem: Seq<u8>|
            step_op(Machine { mem, ..m }, op, line, labels) == Err::<(Machine, Effect), Fault>(
                Fault::OutOfBoundsMemory,
            ),
{
}

/// In a resolved program, a `BNE` naming a label that is defined at line `k`
/// and at no later line moves the program counter to `k` itself when Z is
/// clear: the next step runs line `k`. With `table` empty, `resolve(table, p)`
/// is the table that `run_program` builds before it runs `p`.
pub proof fn law_branch_to_label(
    p: Seq<String>,
    k: int,
    j: int,
    name: Seq<u8>,
    op: Operation,
    m: Machine,
    table: Map<Seq<u8>, usize>,
    log: Seq<Seq<char>>,
    fuel: nat,
)
    requires
        p.len() <= usize::MAX,
        0 <= k < p.len(),
        0 <= j < p.len(),
        label_name(line_bytes(p[k])) == Some(name),
        forall|i: int| k < i < p.len() ==> label_name(line_bytes(p[i])) != Some(name),
        decode_line(line_bytes(p[j])) == Ok::<Line, DecodeError>(Line::Op(op)),
        op.opcode == Opcode::Bne,
        name_of(line_bytes(p[j]), op.op0) == name,
        !m.flags.z,
    ensures
        step_op(m, op, line_bytes(p[j]), resolve(table, p)) == Ok::<(Machine, Effect), Fault>(
            (m, Effect::Jump(k as usize)),
        ),
        run_from(m, j, log, p, resolve(table, p), fuel + 1) == run_from(
            m,
            k,
            log.push(p[j]@),
            p,
            resolve(table, p),
            fuel,
        ),
{
    lemma_resolve_finds(table, p, p.len() as int, k, name);
}

/// `r<i>`
pub open spec fn reg_text(i: nat) -> Seq<u8> {
    seq![114u8] + dec_text(i)
}

/// `#<v>`
pub open spec fn imm_text(v: nat) -> Seq<u8> {
    seq![35u8] + dec_text(v)
}

/// `[r<b>+<offset>]`
pub open spec fn mem_text(b: nat, offset: nat) -> Seq<u8> {
    seq![91u8] + reg_text(b) + seq![43u8] + dec_text(offset) + seq![93u8]
}

pub open spec fn space() -> Seq<u8> {
    seq![32u8]
}

pub open spec fn comma() -> Seq<u8> {
    seq![44u8, 32u8]
}

/// The text `MOVI r<i>, #<v>`.
pub open spec fn movi_text(i: nat, v: nat) -> Seq<u8> {
    seq![77u8, 79, 86, 73] + space() + reg_text(i) + comma() + imm_text(v)
}

/// The text `ADD r<d>, r<a>, r<b>`.
pub open spec fn add_text(d: nat, a: nat, b: nat) -> Seq<u8> {
    seq![65u8, 68, 68] + space() + reg_text(d) + comma() + reg_text(a) + comma() + reg_text(b)
}

/// The text `LOAD r<d>, [r<b>+<offset>]`.
pub open spec fn load_text(d: nat, b: nat, offset: nat) -> Seq<u8> {
    seq![76u8, 79, 65, 68] + space() + reg_text(d) + comma() + mem_text(b, offset)
}

pub open spec fn no_sep(w: Seq<u8>) -> bool {
    forall|i: int| 0 <= i < w.len() ==> !is_sep(#[trigger] w[i])
}

/// A word, separators, then the rest: the word is the first token and the
/// rest's tokens follow, moved along.
proof fn lemma_lead(w: Seq<u8>, sep: Seq<u8>, rest: Seq<u8>)
    requires
        w.len() >= 1,
        no_sep(w),
        sep.len() >= 1,
        forall|i: int| 0 <= i < sep.len() ==> is_sep(#[trigger] sep[i]),
    ensures
        ({
            let t = tokens(w + sep + rest);
            let u = tokens(rest);
            let k = w.len() + sep.len();
            &&& t.len() == 1 + u.len()
            &&& t[0] == (0int, w.len() as int)
            &&& forall|j: int|
                #![trigger t[j + 1]]
                #![trigger u[j]]
                0 <= j < u.len() ==> t[j + 1] == (u[j].0 + k, u[j].1 + k)
        }),
{
    lemma_tokens_word(w, sep);
    assert((w + sep).last() == sep.last());
    lemma_tokens_concat(w + sep, rest);
}

proof fn lemma_last_word(w: Seq<u8>)
    requires
        w.len() >= 1,
        no_sep(w),
    ensures
        tokens(w) == seq![(0int, w.len() as int)],
{
    lemma_tokens_word(w, Seq::<u8>::empty());
    assert(w + Seq::<u8>::empty() =~= w);
}

proof fn lemma_reg_text(i: nat)
    ensures
        reg_text(i).len() >= 2,
        no_sep(reg_text(i)),
        reg_text(i).subrange(1, reg_text(i).len() as int) == dec_text(i),
        forall|j: int| 0 <= j < reg_text(i).len() ==> #[trigger] reg_text(i)[j] != 43u8,
{
    lemma_dec_text(i);
    assert(reg_text(i).subrange(1, reg_text(i).len() as int) =~= dec_text(i));
    assert forall|j: int| 1 <= j < reg_text(i).len() implies #[trigger] reg_text(i)[j] == dec_text(
        i,
    )[j - 1] by {}
}

proof fn lemma_reg_operand(s: Seq<u8>, a: int, b: int, i: usize)
    requires
        0 <= a <= b <= s.len(),
        s.subrange(a, b) == reg_text(i as nat),
        i < REG_COUNT,
    ensures
        decode_operand(s, a, b) == Ok::<Operand, DecodeError>(Operand::Register(i)),
{
    lemma_reg_text(i as nat);
    lemma_dec_text(i as nat);
}

proof fn lemma_imm_operand(s: Seq<u8>, a: int, b: int, v: u64)
    requires
        0 <= a <= b <= s.len(),
        s.subrange(a, b) == imm_text(v as nat),
    ensures
        decode_operand(s, a, b) == Ok::<Operand, DecodeError>(Operand::Immediate(v)),
{
    lemma_dec_text(v as nat);
    let t = imm_text(v as nat);
    assert(t.subrange(1, t.len() as int) =~= dec_text(v as nat));
}

proof fn lemma_mem_text(rb: usize, offset: u64)
    requires
        rb < REG_COUNT,
    ensures
        mem_text(rb as nat, offset as nat).len() >= 2,
        no_sep(mem_text(rb as nat, offset as nat)),
{
    let r = reg_text(rb as nat);
    let d = dec_text(offset as nat);
    let t = mem_text(rb as nat, offset as nat);
    lemma_reg_text(rb as nat);
    lemma_dec_text(offset as nat);
    assert forall|j: int| 0 <= j < t.len() implies !is_sep(#[trigger] t[j]) by {
        if 1 <= j < 1 + r.len() {
            assert(t[j] == r[j - 1]);
        } else if 1 + r.len() < j < t.len() - 1 {
            assert(t[j] == d[j - 2 - r.len()]);
        }
    }
}

proof fn lemma_mem_operand(s: Seq<u8>, a: int, b: int, rb: usize, offset: u64)
    requires
        0 <= a <= b <= s.len(),
        s.subrange(a, b) == mem_text(rb as nat, offset as nat),
        rb < REG_COUNT,
    ensures
        decode_operand(s, a, b) == Ok::<Operand, DecodeError>(Operand::Memory { base: rb, offset }),
{
    let r = reg_text(rb as nat);
    let d = dec_text(offset as nat);
    let t = mem_text(rb as nat, offset as nat);
    lemma_reg_text(rb as nat);
    lemma_dec_text(rb as nat);
    lemma_dec_text(offset as nat);
    let inner = r + seq![43u8] + d;
    assert(t.subrange(1, t.len() - 1) =~= inner);
    lemma_index_of(inner, 43u8, r.len() as int);
    assert(inner.subrange(0, r.len() as int) =~= r);
    assert(inner.subrange(r.len() + 1int, inner.len() as int) =~= d);
}

/// The text `MOVI r<i>, #<v>` sets register `i` to exactly `v`, and nothing else.
pub proof fn law_movi_text(m: Machine, i: usize, v: u64, labels: Map<Seq<u8>, usize>)
    requires
        machine_wf(m),
        i < REG_COUNT,
    ensures
        exec_line(m, movi_text(i as nat, v as nat), labels) == Ok::<(Machine, Effect), Fault>(
            (Machine { regs: m.regs.update(i as int, v), ..m }, Effect::Continue),
        ),
{
    let w0 = seq![77u8, 79, 86, 73];
    let w1 = reg_text(i as nat);
    let w2 = imm_text(v as nat);
    let s = movi_text(i as nat, v as nat);
    lemma_reg_text(i as nat);
    lemma_dec_text(v as nat);
    assert(no_sep(w2)) by {
        assert forall|j: int| 1 <= j < w2.len() implies #[trigger] w2[j] == dec_text(v as nat)[j
            - 1] by {}
    }
    assert(s =~= w0 + space() + (w1 + comma() + w2));
    lemma_lead(w0, space(), w1 + comma() + w2);
    lemma_lead(w1, comma(), w2);
    lemma_last_word(w2);
    let t = tokens(s);
    assert(t.len() == 3);
    let a1 = 5int;
    let b1 = 5 + w1.len() as int;
    let a2 = b1 + 2;
    assert(t[1] == (a1, b1));
    assert(t[2] == (a2, s.len() as int));
    assert(s.subrange(0, 4) =~= w0);
    assert(s.subrange(a1, b1) =~= w1);
    assert(s.subrange(a2, s.len() as int) =~= w2);
    lemma_reg_operand(s, a1, b1, i);
    lemma_imm_operand(s, a2, s.len() as int, v);
}

#[verifier::rlimit(60)]
proof fn lemma_add_decodes(d: usize, a: usize, b: usize)
    requires
        d < REG_COUNT,
        a < REG_COUNT,
        b < REG_COUNT,
    ensures
        decode_line(add_text(d as nat, a as nat, b as nat)) == Ok::<Line, DecodeError>(
            Line::Op(
                Operation {
                    opcode: Opcode::Add,
                    op0: Some(Operand::Register(d)),
                    op1: Some(Operand::Register(a)),
                    op2: Some(Operand::Register(b)),
                },
            ),
        ),
{
    let w0 = seq![65u8, 68, 68];
    let w1 = reg_text(d as nat);
    let w2 = reg_text(a as nat);
    let w3 = reg_text(b as nat);
    let s = add_text(d as nat, a as nat, b as nat);
    lemma_reg_text(d as nat);
    lemma_reg_text(a as nat);
    lemma_reg_text(b as nat);
    assert(s =~= w0 + space() + (w1 + comma() + (w2 + comma() + w3)));
    lemma_lead(w0, space(), w1 + comma() + (w2 + comma() + w3));
    lemma_lead(w1, comma(), w2 + comma() + w3);
    lemma_lead(w2, comma(), w3);
    lemma_last_word(w3);
    let t = tokens(s);
    let u1 = tokens(w1 + comma() + (w2 + comma() + w3));
    let u2 = tokens(w2 + comma() + w3);
    assert(u2[1] == (w2.len() + 2int, w2.len() + 2 + w3.len() as int));
    assert(u1[2] == (u2[1].0 + w1.len() + 2int, u2[1].1 + w1.len() + 2int));
    assert(t[3] == (u1[2].0 + 4, u1[2].1 + 4));
    let a1 = 4int;
    let b1 = a1 + w1.len() as int;
    let a2 = b1 + 2;
    let b2 = a2 + w2.len() as int;
    let a3 = b2 + 2;
    assert(t.len() == 4);
    assert(t[1] == (a1, b1));
    assert(t[2] == (a2, b2));
    assert(t[3] == (a3, s.len() as int));
    assert(s.subrange(0, 3) =~= w0);
    assert(s.subrange(a1, b1) =~= w1);
    assert(s.subrange(a2, b2) =~= w2);
    assert(s.subrange(a3, s.len() as int) =~= w3);
    lemma_reg_operand(s, a1, b1, d);
    lemma_reg_operand(s, a2, b2, a);
    lemma_reg_operand(s, a3, s.len() as int, b);
}

proof fn lemma_load_decodes(d: usize, rb: usize, offset: u64)
    requires
        d < REG_COUNT,
        rb < REG_COUNT,
    ensures
        decode_line(load_text(d as nat, rb as nat, offset as nat)) == Ok::<Line, DecodeError>(
            Line::Op(
                Operation {
                    opcode: Opcode::Load,
                    op0: Some(Operand::Register(d)),
                    op1: Some(Operand::Memory { base: rb, offset }),
                    op2: None,
                },
            ),
        ),
{
    let w0 = seq![76u8, 79, 65, 68];
    let w1 = reg_text(d as nat);
    let w2 = mem_text(rb as nat, offset as nat);
    let s = load_text(d as nat, rb as nat, offset as nat);
    lemma_reg_text(d as nat);
    lemma_mem_text(rb, offset);
    assert(s =~= w0 + space() + (w1 + comma() + w2));
    lemma_lead(w0, space(), w1 + comma() + w2);
    lemma_lead(w1, comma(), w2);
    lemma_last_word(w2);
    let t = tokens(s);
    let a1 = 5int;
    let b1 = 5 + w1.len() as int;
    let a2 = b1 + 2;
    assert(t.len() == 3);
    assert(t[1] == (a1, b1));
    assert(t[2] == (a2, s.len() as int));
    assert(s.subrange(0, 4) =~= w0);
    assert(s.subrange(a1, b1) =~= w1);
    assert(s.subrange(a2, s.len() as int) =~= w2);
    lemma_reg_operand(s, a1, b1, d);
    lemma_mem_operand(s, a2, s.len() as int, rb, offset);
}

/// The text `ADD r<d>, r<d>, r<s>`, with `a` in `rd` and `b` in `rs`, leaves
/// the sum modulo 2^64 in `rd` and sets Z, C, N and V as `law_add_flags` states.
pub proof fn law_add_text(
    m: Machine,
    rd: usize,
    rs: usize,
    a: u64,
    b: u64,
    labels: Map<Seq<u8>, usize>,
)
    requires
        machine_wf(m),
        rd < REG_COUNT,
        rs < REG_COUNT,
        m.regs[rd as int] == a,
        m.regs[rs as int] == b,
    ensures
        ({
            let r = exec_line(m, add_text(rd as nat, rd as nat, rs as nat), labels);
            let sum = (a + b) % 0x1_0000_0000_0000_0000;
            &&& r is Ok
            &&& r.unwrap().0.regs[rd as int] == sum
            &&& r.unwrap().0.mem == m.mem
            &&& r.unwrap().1 == Effect::Continue
            &&& r.unwrap().0.flags.z == (sum == 0)
            &&& r.unwrap().0.flags.c == (a + b >= 0x1_0000_0000_0000_0000)
            &&& r.unwrap().0.flags.n == (sum >= SIGN_BIT)
            &&& r.unwrap().0.flags.v == ((a >= SIGN_BIT) == (b >= SIGN_BIT) && (sum >= SIGN_BIT) != (
            a >= SIGN_BIT))
            &&& r.unwrap().0.flags.v == !(i64::MIN <= signed(a) + signed(b) <= i64::MAX)
        }),
{
    lemma_add_decodes(rd, rd, rs);
    law_add_flags(m, rd, rs, a, b, add_text(rd as nat, rd as nat, rs as nat), labels);
}

/// The text `LOAD r<d>, [r<b>+<offset>]` reads back the word last stored,
/// little-endian, at that address, and changes no other register and no memory.
pub proof fn law_load_text_after_store(
    m: Machine,
    rd: usize,
    rb: usize,
    offset: u64,
    v: u64,
    labels: Map<Seq<u8>, usize>,
)
    requires
        machine_wf(m),
        rd < REG_COUNT,
        rb < REG_COUNT,
        in_bounds(m.regs[rb as int] + offset),
    ensures
        ({
            let addr = m.regs[rb as int] + offset;
            let stored = Machine { mem: store_spec(m.mem, addr, v), ..m };
            let r = exec_line(stored, load_text(rd as nat, rb as nat, offset as nat), labels);
            &&& r == Ok::<(Machine, Effect), Fault>(
                (Machine { regs: m.regs.update(rd as int, v), ..stored }, Effect::Continue),
            )
        }),
{
    lemma_load_decodes(rd, rb, offset);
    law_load_after_store(m, rd, rb, offset, v, load_text(rd as nat, rb as nat, offset as nat), labels);
}

/// The text `LOAD r<d>, [r<b>+<offset>]` faults exactly when the address plus
/// eight passes the end of memory; otherwise it loads the word there.
pub proof fn law_load_text_bounds(
    m: Machine,
    rd: usize,
    rb: usize,
    offset: u64,
    labels: Map<Seq<u8>, usize>,
)
    requires
        machine_wf(m),
        rd < REG_COUNT,
        rb < REG_COUNT,
    ensures
        ({
            let addr = m.regs[rb as int] + offset;
            let r = exec_line(m, load_text(rd as nat, rb as nat, offset as nat), labels);
            &&& addr + 8 > MEM_SIZE ==> r == Err::<(Machine, Effect), Fault>(Fault::OutOfBoundsMemory)
            &&& addr + 8 <= MEM_SIZE ==> r == Ok::<(Machine, Effect), Fault>(
                (
                    Machine { regs: m.regs.update(rd as int, load_spec(m.mem, addr)), ..m },
                    Effect::Continue,
                ),
            )
        }),
{
    lemma_load_decodes(rd, rb, offset);
}

} // verus!
