//! Instruction decoding: one line of text to a label, a blank line, or an
//! operation with up to three typed operands.
use vstd::prelude::*;
use crate::text::{
    all_digits, decimal, is_digit, lemma_tokens_shape, parse_decimal, spans_match, tokenize,
    tokens,
};

verus! {

/// Number of general-purpose registers.
pub const REG_COUNT: usize = 32;

#[derive(Clone, Copy, Debug, PartialEq, Eq, Structural)]
pub enum Opcode {
    Movi,
    Load,
    Add,
    Dec,
    Bne,
    Halt,
    /// Any mnemonic the machine does not implement; executing it does nothing.
    Other,
}

/// A typed operand. A bare word (a branch target) is kept as the byte range
/// `start..end` of the line it was read from.
#[derive(Clone, Copy, Debug, PartialEq, Eq, Structural)]
pub enum Operand {
    Register(usize),
    Immediate(u64),
    Memory { base: usize, offset: u64 },
    Name { start: usize, end: usize },
}

#[derive(Clone, Copy, Debug, PartialEq, Eq, Structural)]
pub struct Operation {
    pub opcode: Opcode,
    pub op0: Option<Operand>,
    pub op1: Option<Operand>,
    pub op2: Option<Operand>,
}

/// A decoded line. A label's name is the byte range `start..end` of the line,
/// without its colon.
#[derive(Clone, Copy, Debug, PartialEq, Eq, Structural)]
pub enum Line {
    Blank,
    Label { start: usize, end: usize },
    Op(Operation),
}

#[derive(Clone, Copy, Debug, PartialEq, Eq, Structural)]
pub enum DecodeError {
    /// `r<digits>` naming no register.
    BadRegister,
    /// `#` not followed by a decimal numeral that fits in 64 bits.
    BadImmediate,
    /// A bracketed token that is not `[r<n>]` or `[r<n>+<offset>]`.
    BadMemoryRef,
    /// More than three operands.
    TooManyOperands,
}

pub open spec fn upper(b: u8) -> u8 {
    if 97 <= b <= 122 {
        (b - 32) as u8
    } else {
        b
    }
}

/// `t` spells the upper-case word `w`, ignoring ASCII case.
pub open spec fn spells(t: Seq<u8>, w: Seq<u8>) -> bool {
    t.len() == w.len() && forall|i: int| 0 <= i < t.len() ==> upper(#[trigger] t[i]) == w[i]
}

pub open spec fn opcode_of(t: Seq<u8>) -> Opcode {
    if spells(t, seq![77u8, 79, 86, 73]) {
        Opcode::Movi
    } else if spells(t, seq![76u8, 79, 65, 68]) {
        Opcode::Load
    } else if spells(t, seq![65u8, 68, 68]) {
        Opcode::Add
    } else if spells(t, seq![68u8, 69, 67]) {
        Opcode::Dec
    } else if spells(t, seq![66u8, 78, 69]) {
        Opcode::Bne
    } else if spells(t, seq![72u8, 65, 76, 84]) {
        Opcode::Halt
    } else {
        Opcode::Other
    }
}

/// `r` followed by decimal digits.
pub open spec fn register_shaped(t: Seq<u8>) -> bool {
    t.len() >= 2 && t[0] == 114u8 && all_digits(t.subrange(1, t.len() as int))
}

/// The register that `t` names, if it is `r<n>` with `n < REG_COUNT`. A
/// numeral too long for 64 bits does not parse as a number and names r0.
pub open spec fn register_number(t: Seq<u8>) -> Option<usize> {
    if register_shaped(t) {
        match decimal(t.subrange(1, t.len() as int)) {
            Some(v) => if v < REG_COUNT {
                Some(v as usize)
            } else {
                None
            },
            None => Some(0),
        }
    } else {
        None
    }
}

/// Position of the first `x` in `s`, or `s.len()` when there is none.
pub open spec fn index_of(s: Seq<u8>, x: u8) -> int
    decreases s.len(),
{
    if s.len() == 0 {
        0
    } else if s[0] == x {
        0
    } else {
        1 + index_of(s.drop_first(), x)
    }
}

/// The inside of a memory reference: `r<n>` or `r<n>+<offset>`.
pub open spec fn memory_ref(inner: Seq<u8>) -> Option<(usize, u64)> {
    let p = index_of(inner, 43u8);
    match register_number(inner.subrange(0, p)) {
        Some(r) => if p == inner.len() {
            Some((r, 0u64))
        } else {
            match decimal(inner.subrange(p + 1, inner.len() as int)) {
                Some(o) => Some((r, o)),
                None => None,
            }
        },
        None => None,
    }
}

/// The operand written as the token `s[a..b]`.
pub open spec fn decode_operand(s: Seq<u8>, a: int, b: int) -> Result<Operand, DecodeError> {
    let t = s.subrange(a, b);
    if t[0] == 35u8 {
        match decimal(t.subrange(1, t.len() as int)) {
            Some(v) => Ok(Operand::Immediate(v)),
            None => Err(DecodeError::BadImmediate),
        }
    } else if t[0] == 91u8 {
        if t.len() >= 2 && t.last() == 93u8 {
            match memory_ref(t.subrange(1, t.len() - 1)) {
                Some(m) => Ok(Operand::Memory { base: m.0, offset: m.1 }),
                None => Err(DecodeError::BadMemoryRef),
            }
        } else {
            Err(DecodeError::BadMemoryRef)
        }
    } else if register_shaped(t) {
        match register_number(t) {
            Some(r) => Ok(Operand::Register(r)),
            None => Err(DecodeError::BadRegister),
        }
    } else {
        Ok(Operand::Name { start: a as usize, end: b as usize })
    }
}

/// The `k`-th token of `s` (of the token list `t`) read as an operand, if there is one.
pub open spec fn operand_at(s: Seq<u8>, t: Seq<(int, int)>, k: int) -> Result<
    Option<Operand>,
    DecodeError,
> {
    if k < t.len() {
        match decode_operand(s, t[k].0, t[k].1) {
            Ok(o) => Ok(Some(o)),
            Err(e) => Err(e),
        }
    } else {
        Ok(None)
    }
}

/// What a line of text decodes to: no token is a blank line; one token that
/// ends in `:` is a label; otherwise the first token is the mnemonic and the
/// rest, at most three, are operands, read from left to right.
pub open spec fn decode_line(s: Seq<u8>) -> Result<Line, DecodeError> {
    let t = tokens(s);
    if t.len() == 0 {
        Ok(Line::Blank)
    } else if t.len() == 1 && s[t[0].1 - 1] == 58u8 {
        Ok(Line::Label { start: t[0].0 as usize, end: (t[0].1 - 1) as usize })
    } else if t.len() > 4 {
        Err(DecodeError::TooManyOperands)
    } else {
        match operand_at(s, t, 1) {
            Err(e) => Err(e),
            Ok(x) => match operand_at(s, t, 2) {
                Err(e) => Err(e),
                Ok(y) => match operand_at(s, t, 3) {
                    Err(e) => Err(e),
                    Ok(z) => Ok(
                        Line::Op(
                            Operation {
                                opcode: opcode_of(s.subrange(t[0].0, t[0].1)),
                                op0: x,
                                op1: y,
                                op2: z,
                            },
                        ),
                    ),
                },
            },
        }
    }
}

/// Registers name real registers and names lie inside a line of `len` bytes.
pub open spec fn operand_wf(o: Option<Operand>, len: int) -> bool {
    match o {
        Some(Operand::Register(r)) => r < REG_COUNT,
        Some(Operand::Memory { base, offset: _ }) => base < REG_COUNT,
        Some(Operand::Name { start, end }) => start <= end <= len,
        _ => true,
    }
}

pub open spec fn operation_wf(op: Operation, len: int) -> bool {
    operand_wf(op.op0, len) && operand_wf(op.op1, len) && operand_wf(op.op2, len)
}

pub open spec fn line_wf(l: Line, len: int) -> bool {
    match l {
        Line::Blank => true,
        Line::Label { start, end } => start <= end <= len,
        Line::Op(op) => operation_wf(op, len),
    }
}

fn to_upper(b: u8) -> (r: u8)
    ensures
        r == upper(b),
{
    if 97 <= b && b <= 122 {
        b - 32
    } else {
        b
    }
}

fn spells3(s: &[u8], a: usize, b: usize, w0: u8, w1: u8, w2: u8) -> (r: bool)
    requires
        a <= b <= s.len(),
    ensures
        r == spells(s@.subrange(a as int, b as int), seq![w0, w1, w2]),
{
    let r = b - a == 3 && to_upper(s[a]) == w0 && to_upper(s[a + 1]) == w1 && to_upper(s[a + 2])
        == w2;
    let ghost t = s@.subrange(a as int, b as int);
    assert(r ==> forall|i: int| 0 <= i < 3 ==> upper(#[trigger] t[i]) == seq![w0, w1, w2][i]);
    assert(spells(t, seq![w0, w1, w2]) ==> upper(t[0]) == w0 && upper(t[1]) == w1 && upper(t[2])
        == w2);
    r
}

fn spells4(s: &[u8], a: usize, b: usize, w0: u8, w1: u8, w2: u8, w3: u8) -> (r: bool)
    requires
        a <= b <= s.len(),
    ensures
        r == spells(s@.subrange(a as int, b as int), seq![w0, w1, w2, w3]),
{
    let r = b - a == 4 && to_upper(s[a]) == w0 && to_upper(s[a + 1]) == w1 && to_upper(s[a + 2])
        == w2 && to_upper(s[a + 3]) == w3;
    let ghost t = s@.subrange(a as int, b as int);
    assert(r ==> forall|i: int|
        0 <= i < 4 ==> upper(#[trigger] t[i]) == seq![w0, w1, w2, w3][i]);
    assert(spells(t, seq![w0, w1, w2, w3]) ==> upper(t[0]) == w0 && upper(t[1]) == w1 && upper(
        t[2],
    ) == w2 && upper(t[3]) == w3);
    r
}

/// The opcode that the mnemonic `s[a..b]` names.
pub fn classify_opcode(s: &[u8], a: usize, b: usize) -> (r: Opcode)
    requires
        a <= b <= s.len(),
    ensures
        r == opcode_of(s@.subrange(a as int, b as int)),
{
    if spells4(s, a, b, 77, 79, 86, 73) {
        Opcode::Movi
    } else if spells4(s, a, b, 76, 79, 65, 68) {
        Opcode::Load
    } else if spells3(s, a, b, 65, 68, 68) {
        Opcode::Add
    } else if spells3(s, a, b, 68, 69, 67) {
        Opcode::Dec
    } else if spells3(s, a, b, 66, 78, 69) {
        Opcode::Bne
    } else if spells4(s, a, b, 72, 65, 76, 84) {
        Opcode::Halt
    } else {
        Opcode::Other
    }
}

fn digits_only(s: &[u8], lo: usize, hi: usize) -> (r: bool)
    requires
        lo <= hi <= s.len(),
    ensures
        r == all_digits(s@.subrange(lo as int, hi as int)),
{
    let mut i: usize = lo;
    while i < hi
        invariant
            lo <= i <= hi <= s.len(),
            forall|j: int| lo <= j < i ==> is_digit(#[trigger] s@[j]),
        decreases hi - i,
    {
        if s[i] < 48 || s[i] > 57 {
            assert(!is_digit(s@.subrange(lo as int, hi as int)[i - lo]));
            return false;
        }
        i = i + 1;
    }
    assert forall|j: int| 0 <= j < hi - lo implies is_digit(
        #[trigger] s@.subrange(lo as int, hi as int)[j],
    ) by {
        assert(s@.subrange(lo as int, hi as int)[j] == s@[lo + j]);
    }
    true
}

pub proof fn lemma_index_of(s: Seq<u8>, x: u8, k: int)
    requires
        0 <= k <= s.len(),
        forall|j: int| 0 <= j < k ==> s[j] != x,
        k == s.len() || s[k] == x,
    ensures
        index_of(s, x) == k,
    decreases k,
{
    if k > 0 {
        lemma_index_of(s.drop_first(), x, k - 1);
    }
}

/// Position of the first `x` in `s[lo..hi]`, or `hi`.
fn find_byte(s: &[u8], lo: usize, hi: usize, x: u8) -> (r: usize)
    requires
        lo <= hi <= s.len(),
    ensures
        lo <= r <= hi,
        r - lo == index_of(s@.subrange(lo as int, hi as int), x),
{
    let ghost t = s@.subrange(lo as int, hi as int);
    let mut i: usize = lo;
    while i < hi
        invariant
            lo <= i <= hi <= s.len(),
            t == s@.subrange(lo as int, hi as int),
            forall|j: int| lo <= j < i ==> s@[j] != x,
        decreases hi - i,
    {
        if s[i] == x {
            proof {
                lemma_index_of(t, x, i - lo);
            }
            return i;
        }
        i = i + 1;
    }
    proof {
        lemma_index_of(t, x, hi - lo);
    }
    hi
}

/// The register that `s[a..b]` names.
fn parse_register(s: &[u8], a: usize, b: usize) -> (r: Option<usize>)
    requires
        a <= b <= s.len(),
    ensures
        r == register_number(s@.subrange(a as int, b as int)),
{
    let ghost t = s@.subrange(a as int, b as int);
    if b - a >= 2 && s[a] == 114 && digits_only(s, a + 1, b) {
        assert(t.subrange(1, t.len() as int) =~= s@.subrange(a + 1, b as int));
        match parse_decimal(s, a + 1, b) {
            Some(v) => if v < REG_COUNT as u64 {
                Some(v as usize)
            } else {
                None
            },
            None => Some(0),
        }
    } else {
        assert(b - a >= 2 && s[a as int] == 114 ==> t.subrange(1, t.len() as int) =~= s@.subrange(
            a + 1,
            b as int,
        ));
        None
    }
}

/// Reads the token `s[a..b]` as an operand.
pub fn parse_operand(s: &[u8], a: usize, b: usize) -> (r: Result<Operand, DecodeError>)
    requires
        a < b <= s.len(),
    ensures
        r == decode_operand(s@, a as int, b as int),
        r matches Ok(o) ==> operand_wf(Some(o), s@.len() as int),
{
    let ghost t = s@.subrange(a as int, b as int);
    assert(t.subrange(1, t.len() as int) =~= s@.subrange(a + 1, b as int));
    if s[a] == 35 {
        match parse_decimal(s, a + 1, b) {
            Some(v) => Ok(Operand::Immediate(v)),
            None => Err(DecodeError::BadImmediate),
        }
    } else if s[a] == 91 {
        if b - a >= 2 && s[b - 1] == 93 {
            let lo = a + 1;
            let hi = b - 1;
            let ghost inner = s@.subrange(lo as int, hi as int);
            assert(t.subrange(1, t.len() - 1) =~= inner);
            let p = find_byte(s, lo, hi, 43);
            assert(inner.subrange(0, p - lo) =~= s@.subrange(lo as int, p as int));
            match parse_register(s, lo, p) {
                Some(base) => if p == hi {
                    Ok(Operand::Memory { base, offset: 0 })
                } else {
                    assert(inner.subrange(p - lo + 1, inner.len() as int) =~= s@.subrange(
                        p + 1,
                        hi as int,
                    ));
                    match parse_decimal(s, p + 1, hi) {
                        Some(offset) => Ok(Operand::Memory { base, offset }),
                        None => Err(DecodeError::BadMemoryRef),
                    }
                },
                None => Err(DecodeError::BadMemoryRef),
            }
        } else {
            Err(DecodeError::BadMemoryRef)
        }
    } else if b - a >= 2 && s[a] == 114 && digits_only(s, a + 1, b) {
        match parse_register(s, a, b) {
            Some(r) => Ok(Operand::Register(r)),
            None => Err(DecodeError::BadRegister),
        }
    } else {
        Ok(Operand::Name { start: a, end: b })
    }
}

fn operand_of(s: &[u8], toks: &Vec<(usize, usize)>, k: usize) -> (r: Result<
    Option<Operand>,
    DecodeError,
>)
    requires
        spans_match(toks@, tokens(s@)),
    ensures
        r == operand_at(s@, tokens(s@), k as int),
        r matches Ok(o) ==> operand_wf(o, s@.len() as int),
{
    proof {
        lemma_tokens_shape(s@);
    }
    if k < toks.len() {
        match parse_operand(s, toks[k].0, toks[k].1) {
            Ok(o) => Ok(Some(o)),
            Err(e) => Err(e),
        }
    } else {
        Ok(None)
    }
}

/// Decodes one line of program text, given as its bytes.
pub fn decode(s: &[u8]) -> (r: Result<Line, DecodeError>)
    ensures
        r == decode_line(s@),
        r matches Ok(l) ==> line_wf(l, s@.len() as int),
{
    let toks = tokenize(s);
    proof {
        lemma_tokens_shape(s@);
    }
    let n = toks.len();
    if n == 0 {
        return Ok(Line::Blank);
    }
    let a0 = toks[0].0;
    let b0 = toks[0].1;
    if n == 1 && s[b0 - 1] == 58 {
        return Ok(Line::Label { start: a0, end: b0 - 1 });
    }
    if n > 4 {
        return Err(DecodeError::TooManyOperands);
    }
    let x = match operand_of(s, &toks, 1) {
        Ok(o) => o,
        Err(e) => return Err(e),
    };
    let y = match operand_of(s, &toks, 2) {
        Ok(o) => o,
        Err(e) => return Err(e),
    };
    let z = match operand_of(s, &toks, 3) {
        Ok(o) => o,
        Err(e) => return Err(e),
    };
    Ok(Line::Op(Operation { opcode: classify_opcode(s, a0, b0), op0: x, op1: y, op2: z }))
}

} // verus!
