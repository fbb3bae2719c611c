use vstd::prelude::*;
use crate::asterix::{UniOpWt, BinOpWt, CmpOpWt, EquOpWt, OrdOpWt, EquTyp, OrdTyp, OrdOp, Val};
use crate::intrep::{ImOp, Jmp, Term, BasicBlock, Compiler, imop_operand, term_target, jmp_taken, jmp_pops};
use crate::util::DfString;

verus! {

/// Bytecode opcodes.
#[derive(Copy, Clone, Debug, PartialEq, Eq, Structural)]
pub enum Op {
    NOP,
    // LKX
    LKS,
    LKL,
    // base of the unary operations, one opcode for each
    UNO,
    // base of the binary operations, one opcode for each
    BIO,
    // base of the equality comparisons, two for each type
    EQU,
    // base of the order comparisons, four for each type
    ORD,
    DUM,
    // LOC
    LLS,
    LLL,
    SLS,
    SLL,
    ULS,
    ULL,
    // JMP
    JJS,
    JJL,
    JBT,
    JBF,  // these are always short
    JTS,
    JTL,
    JFS,
    JFL,
    // stack ops
    DUP,
    SWP,
    ROT,
    POP,
    HLT,
}

/// The byte of an opcode.
pub open spec fn op_code(op: Op) -> u8 {
    match op {
        Op::NOP => 0,
        Op::LKS => 1,
        Op::LKL => 2,
        Op::UNO => 3,
        Op::BIO => 9,  // UNO + number of unary operations
        Op::EQU => 33,  // BIO + number of binary operations
        Op::ORD => 41,  // EQU + 2 * number of types with equality
        Op::DUM => 57,  // ORD + 4 * number of ordered types
        Op::LLS => 58,
        Op::LLL => 59,
        Op::SLS => 60,
        Op::SLL => 61,
        Op::ULS => 62,
        Op::ULL => 63,
        Op::JJS => 64,
        Op::JJL => 65,
        Op::JBT => 66,
        Op::JBF => 67,
        Op::JTS => 68,
        Op::JTL => 69,
        Op::JFS => 70,
        Op::JFL => 71,
        Op::DUP => 72,
        Op::SWP => 73,
        Op::ROT => 74,
        Op::POP => 75,
        Op::HLT => 76,
    }
}

/// The byte of an opcode.
pub fn op_byte(op: Op) -> (r: u8)
    ensures
        r == op_code(op),
{
    match op {
        Op::NOP => 0,
        Op::LKS => 1,
        Op::LKL => 2,
        Op::UNO => 3,
        Op::BIO => 9,
        Op::EQU => 33,
        Op::ORD => 41,
        Op::DUM => 57,
        Op::LLS => 58,
        Op::LLL => 59,
        Op::SLS => 60,
        Op::SLL => 61,
        Op::ULS => 62,
        Op::ULL => 63,
        Op::JJS => 64,
        Op::JJL => 65,
        Op::JBT => 66,
        Op::JBF => 67,
        Op::JTS => 68,
        Op::JTL => 69,
        Op::JFS => 70,
        Op::JFL => 71,
        Op::DUP => 72,
        Op::SWP => 73,
        Op::ROT => 74,
        Op::POP => 75,
        Op::HLT => 76,
    }
}

impl Default for Op {
    fn default() -> (r: Op)
        ensures
            r == Op::NOP,
    {
        Op::NOP
    }
}

/// The opcode of a short jump.
pub open spec fn s_jmp_op(j: Jmp) -> Op {
    match j {
        Jmp::JX => Op::JJS,
        Jmp::BY(b) => if b {
            Op::JBT
        } else {
            Op::JBF
        },
        Jmp::YX(b) => if b {
            Op::JTS
        } else {
            Op::JFS
        },
        Jmp::CX(_) => Op::NOP,
    }
}

/// The opcode of a long jump, where there is one.
pub open spec fn l_jmp_op(j: Jmp) -> Option<Op> {
    match j {
        Jmp::JX => Some(Op::JJL),
        Jmp::BY(_) => None,
        Jmp::YX(b) => Some(
            if b {
                Op::JTL
            } else {
                Op::JFL
            },
        ),
        Jmp::CX(_) => None,
    }
}

/// Whether a jump opcode jumps when the boolean on top of the stack is
/// `top`; `None` for an opcode that is no jump on a boolean.
pub open spec fn op_jumps(op: Op, top: bool) -> Option<bool> {
    match op {
        Op::JJS | Op::JJL => Some(true),
        Op::JBT | Op::JTS | Op::JTL => Some(top),
        Op::JBF | Op::JFS | Op::JFL => Some(!top),
        _ => None,
    }
}

/// Whether a jump opcode takes the boolean it tests off the stack.
pub open spec fn op_pops(op: Op) -> bool {
    match op {
        Op::JTS | Op::JTL | Op::JFS | Op::JFL => true,
        _ => false,
    }
}

/// A jump that tests a boolean, or none, lowers to an opcode that jumps on
/// the same truth value and pops the boolean just when the jump does; so
/// does its long form, which every such jump but one that keeps the boolean
/// has.
pub proof fn lemma_jump_opcodes_keep_the_test(j: Jmp, top: bool)
    requires
        !(j is CX),
    ensures
        op_jumps(s_jmp_op(j), top) == jmp_taken(j, top),
        op_pops(s_jmp_op(j)) == jmp_pops(j),
        l_jmp_op(j) is None <==> j is BY,
        l_jmp_op(j) is Some ==> op_jumps(l_jmp_op(j)->0, top) == jmp_taken(j, top),
        l_jmp_op(j) is Some ==> op_pops(l_jmp_op(j)->0) == jmp_pops(j),
{
}

impl Op {
    pub fn try_s_jmp(j: Jmp) -> (r: Op)
        requires
            !(j is CX),
        ensures
            r == s_jmp_op(j),
    {
        match j {
            Jmp::JX => Op::JJS,
            Jmp::BY(b) => if b {
                Op::JBT
            } else {
                Op::JBF
            },
            Jmp::YX(b) => if b {
                Op::JTS
            } else {
                Op::JFS
            },
            Jmp::CX(_) => Op::NOP,
        }
    }

    pub fn try_l_jmp(j: Jmp) -> (r: Option<Op>)
        requires
            !(j is CX),
        ensures
            r == l_jmp_op(j),
    {
        match j {
            Jmp::JX => Some(Op::JJL),
            Jmp::BY(_) => None,
            Jmp::YX(b) => Some(
                if b {
                    Op::JTL
                } else {
                    Op::JFL
                },
            ),
            Jmp::CX(_) => None,
        }
    }
}

// Indices of the typed operations ------------------------------------------

pub open spec fn uniop_index(x: UniOpWt) -> u8 {
    match x {
        UniOpWt::NEZ => 0,
        UniOpWt::NER => 1,
        UniOpWt::INR => 2,
        UniOpWt::NOB => 3,
        UniOpWt::NOC => 4,
        UniOpWt::NON => 5,
    }
}

pub open spec fn binop_index(x: BinOpWt) -> u8 {
    match x {
        BinOpWt::ADC => 0,
        BinOpWt::ADN => 1,
        BinOpWt::ADZ => 2,
        BinOpWt::ADR => 3,
        BinOpWt::SUZ => 4,
        BinOpWt::SUR => 5,
        BinOpWt::MUC => 6,
        BinOpWt::MUN => 7,
        BinOpWt::MUZ => 8,
        BinOpWt::MUR => 9,
        BinOpWt::DIN => 10,
        BinOpWt::DIR => 11,
        BinOpWt::MOC => 12,
        BinOpWt::MON => 13,
        BinOpWt::MOZ => 14,
        BinOpWt::ANB => 15,
        BinOpWt::ANC => 16,
        BinOpWt::ANN => 17,
        BinOpWt::IOB => 18,
        BinOpWt::IOC => 19,
        BinOpWt::ION => 20,
        BinOpWt::XOB => 21,
        BinOpWt::XOC => 22,
        BinOpWt::XON => 23,
    }
}

pub open spec fn equtyp_index(x: EquTyp) -> u8 {
    match x {
        EquTyp::B => 0,
        EquTyp::C => 1,
        EquTyp::N => 2,
        EquTyp::Z => 3,
    }
}

pub open spec fn ordtyp_index(x: OrdTyp) -> u8 {
    match x {
        OrdTyp::C => 0,
        OrdTyp::N => 1,
        OrdTyp::Z => 2,
        OrdTyp::R => 3,
    }
}

pub open spec fn ordop_index(x: OrdOp) -> u8 {
    match x {
        OrdOp::Lt => 0,
        OrdOp::Le => 1,
        OrdOp::Gt => 2,
        OrdOp::Ge => 3,
    }
}

/// The opcode byte of a unary operation.
pub open spec fn uniop_code(x: UniOpWt) -> u8 {
    (op_code(Op::UNO) + uniop_index(x)) as u8
}

/// The opcode byte of a binary operation.
pub open spec fn binop_code(x: BinOpWt) -> u8 {
    (op_code(Op::BIO) + binop_index(x)) as u8
}

/// The opcode byte of an equality comparison: `==` comes before `~=`.
pub open spec fn equop_code(x: EquOpWt) -> u8 {
    (op_code(Op::EQU) + equtyp_index(x.1) * 2 + if x.0 {
        0int
    } else {
        1int
    }) as u8
}

/// The opcode byte of an order comparison.
pub open spec fn ordop_code(x: OrdOpWt) -> u8 {
    (op_code(Op::ORD) + ordtyp_index(x.1) * 4 + ordop_index(x.0)) as u8
}

/// The opcode byte of a comparison.
pub open spec fn cmpop_code(x: CmpOpWt) -> u8 {
    match x {
        CmpOpWt::Equ(e) => equop_code(e),
        CmpOpWt::Ord(o) => ordop_code(o),
    }
}

/// The opcode byte of a unary operation.
pub fn uniop_byte(x: UniOpWt) -> (r: u8)
    ensures
        r == uniop_code(x),
{
    let i: u8 = match x {
        UniOpWt::NEZ => 0,
        UniOpWt::NER => 1,
        UniOpWt::INR => 2,
        UniOpWt::NOB => 3,
        UniOpWt::NOC => 4,
        UniOpWt::NON => 5,
    };
    op_byte(Op::UNO) + i
}

/// The opcode byte of a binary operation.
pub fn binop_byte(x: BinOpWt) -> (r: u8)
    ensures
        r == binop_code(x),
{
    let i: u8 = match x {
        BinOpWt::ADC => 0,
        BinOpWt::ADN => 1,
        BinOpWt::ADZ => 2,
        BinOpWt::ADR => 3,
        BinOpWt::SUZ => 4,
        BinOpWt::SUR => 5,
        BinOpWt::MUC => 6,
        BinOpWt::MUN => 7,
        BinOpWt::MUZ => 8,
        BinOpWt::MUR => 9,
        BinOpWt::DIN => 10,
        BinOpWt::DIR => 11,
        BinOpWt::MOC => 12,
        BinOpWt::MON => 13,
        BinOpWt::MOZ => 14,
        BinOpWt::ANB => 15,
        BinOpWt::ANC => 16,
        BinOpWt::ANN => 17,
        BinOpWt::IOB => 18,
        BinOpWt::IOC => 19,
        BinOpWt::ION => 20,
        BinOpWt::XOB => 21,
        BinOpWt::XOC => 22,
        BinOpWt::XON => 23,
    };
    op_byte(Op::BIO) + i
}

/// The opcode byte of an equality comparison.
pub fn equop_byte(x: EquOpWt) -> (r: u8)
    ensures
        r == equop_code(x),
{
    let t: u8 = match x.1 {
        EquTyp::B => 0,
        EquTyp::C => 1,
        EquTyp::N => 2,
        EquTyp::Z => 3,
    };
    let ne: u8 = if x.0 {
        0
    } else {
        1
    };
    op_byte(Op::EQU) + t * 2 + ne
}

/// The opcode byte of an order comparison.
pub fn ordop_byte(x: OrdOpWt) -> (r: u8)
    ensures
        r == ordop_code(x),
{
    let t: u8 = match x.1 {
        OrdTyp::C => 0,
        OrdTyp::N => 1,
        OrdTyp::Z => 2,
        OrdTyp::R => 3,
    };
    let o: u8 = match x.0 {
        OrdOp::Lt => 0,
        OrdOp::Le => 1,
        OrdOp::Gt => 2,
        OrdOp::Ge => 3,
    };
    op_byte(Op::ORD) + t * 4 + o
}

/// The opcode byte of a comparison.
pub fn cmpop_byte(x: CmpOpWt) -> (r: u8)
    ensures
        r == cmpop_code(x),
{
    match x {
        CmpOpWt::Equ(e) => equop_byte(e),
        CmpOpWt::Ord(o) => ordop_byte(o),
    }
}

/// Different typed operations get different opcode bytes, and each falls in
/// the range of its kind.
pub proof fn lemma_op_codes_distinct(a: CmpOpWt, b: CmpOpWt, u: UniOpWt, v: UniOpWt, x: BinOpWt, y: BinOpWt)
    ensures
        cmpop_code(a) == cmpop_code(b) ==> a == b,
        uniop_code(u) == uniop_code(v) ==> u == v,
        binop_code(x) == binop_code(y) ==> x == y,
        op_code(Op::UNO) <= uniop_code(u) < op_code(Op::BIO),
        op_code(Op::BIO) <= binop_code(x) < op_code(Op::EQU),
        op_code(Op::EQU) <= cmpop_code(a) < op_code(Op::DUM),
{
}

// Simple ops --------------------------------------------------------------

/// The byte of an opcode that carries no operand.
pub open spec fn simple_imop_byte(imop: ImOp) -> Option<u8> {
    match imop {
        ImOp::DUP => Some(op_code(Op::DUP)),
        ImOp::SWP => Some(op_code(Op::SWP)),
        ImOp::ROT => Some(op_code(Op::ROT)),
        ImOp::POP => Some(op_code(Op::POP)),
        ImOp::UNO(u) => Some(uniop_code(u)),
        ImOp::BIO(b) => Some(binop_code(b)),
        ImOp::CMP(c) => Some(cmpop_code(c)),
        _ => None,
    }
}

/// Converts only the opcodes that are "simple", i.e. a tag without value.
pub fn imop_to_u8(imop: ImOp) -> (r: Result<u8, ()>)
    ensures
        match simple_imop_byte(imop) {
            Some(b) => r == Ok::<u8, ()>(b),
            None => r is Err,
        },
{
    match imop {
        ImOp::DUP => Ok(op_byte(Op::DUP)),
        ImOp::SWP => Ok(op_byte(Op::SWP)),
        ImOp::ROT => Ok(op_byte(Op::ROT)),
        ImOp::POP => Ok(op_byte(Op::POP)),
        ImOp::UNO(u) => Ok(uniop_byte(u)),
        ImOp::BIO(u) => Ok(binop_byte(u)),
        ImOp::CMP(u) => Ok(cmpop_byte(u)),
        _ => Err(()),
    }
}

/// The opcode of a terminator that is no jump.
pub open spec fn simple_term_op(term: Term) -> Option<Op> {
    match term {
        Term::NOP => Some(Op::NOP),
        Term::HLT => Some(Op::HLT),
        _ => None,
    }
}

/// Converts only the terminators that are simple, not jumps.
pub fn term_to_op(term: Term) -> (r: Result<Op, ()>)
    ensures
        match simple_term_op(term) {
            Some(o) => r == Ok::<Op, ()>(o),
            None => r is Err,
        },
{
    match term {
        Term::NOP => Ok(Op::NOP),
        Term::HLT => Ok(Op::HLT),
        _ => Err(()),
    }
}

// Lowered terminators ------------------------------------------------------

/// The lowered form of a terminator.
#[derive(Copy, Clone, Debug, PartialEq, Eq, Structural)]
pub enum LowerTerm {
    Nop,  // NOP
    One,  // "simple" op
    Jxs(i8),  // short jump
    Jxl(i16),  // long jump
}

pub open spec fn lt_size(t: LowerTerm) -> int {
    match t {
        LowerTerm::Nop => 0,
        LowerTerm::One => 1,
        LowerTerm::Jxs(_) => 2,
        LowerTerm::Jxl(_) => 3,
    }
}

/// The big-endian bytes of a 16-bit number.
pub open spec fn u16_be(x: u16) -> Seq<u8> {
    seq![(x / 256) as u8, (x % 256) as u8]
}

/// The big-endian bytes of a 32-bit number.
pub open spec fn u32_be(x: u32) -> Seq<u8> {
    seq![(x / 0x100_0000) as u8, (x / 0x1_0000 % 256) as u8, (x / 256 % 256) as u8, (x % 256) as u8]
}

/// The big-endian bytes of a 64-bit number.
pub open spec fn u64_be(x: u64) -> Seq<u8> {
    u32_be((x / 0x1_0000_0000) as u32) + u32_be((x % 0x1_0000_0000) as u32)
}

/// The bytes of a jump's operand, where there is one.
pub open spec fn lt_arg(t: LowerTerm) -> Option<(u8, Option<u8>)> {
    match t {
        LowerTerm::Nop | LowerTerm::One => None,
        LowerTerm::Jxs(d) => Some((d as u8, None)),
        LowerTerm::Jxl(d) => Some((u16_be(d as u16)[0], Some(u16_be(d as u16)[1]))),
    }
}

impl LowerTerm {
    /// How many bytes need to be written, including the op itself.
    pub fn size(self) -> (r: usize)
        ensures
            r == lt_size(self),
    {
        match self {
            LowerTerm::Nop => 0,
            LowerTerm::One => 1,
            LowerTerm::Jxs(_) => 2,
            LowerTerm::Jxl(_) => 3,
        }
    }

    pub fn jmp_dist(self) -> (r: Option<isize>)
        ensures
            r == match self {
                LowerTerm::Jxs(d) => Some(d as isize),
                LowerTerm::Jxl(d) => Some(d as isize),
                _ => None::<isize>,
            },
    {
        match self {
            LowerTerm::Nop | LowerTerm::One => None,
            LowerTerm::Jxs(d) => Some(d as isize),
            LowerTerm::Jxl(d) => Some(d as isize),
        }
    }

    /// The serialized jump argument.
    pub fn to_bytes(self) -> (r: Option<(u8, Option<u8>)>)
        ensures
            r == lt_arg(self),
    {
        match self {
            LowerTerm::Nop | LowerTerm::One => None,
            LowerTerm::Jxs(d) => Some((d as u8, None)),
            LowerTerm::Jxl(d) => {
                let u = d as u16;
                Some(((u / 256) as u8, Some((u % 256) as u8)))
            },
        }
    }
}

impl Default for LowerTerm {
    fn default() -> (r: LowerTerm)
        ensures
            r == LowerTerm::Nop,
    {
        LowerTerm::Nop
    }
}

// Lowered blocks -------------------------------------------------------------

/// Whether an opcode can be written in the bytecode: it has a byte of its
/// own, or an operand that fits in two bytes.
pub open spec fn imop_lowerable(op: ImOp) -> bool {
    match imop_operand(op) {
        Some(i) => i <= 0xffff,
        None => simple_imop_byte(op) is Some,
    }
}

/// The bytes of an opcode with an operand: short where it fits in a byte.
pub open spec fn arg_op_bytes(short: Op, long: Op, i: usize) -> Seq<u8> {
    if i < 256 {
        seq![op_code(short), i as u8]
    } else {
        seq![op_code(long)] + u16_be(i as u16)
    }
}

/// The bytes of an opcode.
pub open spec fn imop_bytes(op: ImOp) -> Seq<u8> {
    match op {
        ImOp::LKX(i) => arg_op_bytes(Op::LKS, Op::LKL, i),
        ImOp::LLX(i) => arg_op_bytes(Op::LLS, Op::LLL, i),
        ImOp::SLX(i) => arg_op_bytes(Op::SLS, Op::SLL, i),
        ImOp::ULX(i) => arg_op_bytes(Op::ULS, Op::ULL, i),
        _ => match simple_imop_byte(op) {
            Some(b) => seq![b],
            None => seq![],
        },
    }
}

/// The bytes of a sequence of opcodes.
pub open spec fn code_bytes(s: Seq<ImOp>) -> Seq<u8>
    decreases s.len(),
{
    if s.len() == 0 {
        seq![]
    } else {
        code_bytes(s.drop_last()) + imop_bytes(s.last())
    }
}

/// Each opcode is written in at most three bytes.
pub proof fn lemma_code_bytes_len(s: Seq<ImOp>)
    ensures
        code_bytes(s).len() <= 3 * s.len(),
    decreases s.len(),
{
    if s.len() > 0 {
        lemma_code_bytes_len(s.drop_last());
    }
}

/// A lower level basic block.
#[derive(Debug)]
pub struct LowerBlock {
    pub code: Vec<u8>,  // what will be actually written
    pub term: Op,  // term op
    pub tinf: LowerTerm,  // stores info about the term op
}

/// The bytes of a lowered block: its code, then its terminator, if any.
pub open spec fn lb_bytes(code: Seq<u8>, term: Op, tinf: LowerTerm) -> Seq<u8> {
    if term == Op::NOP {
        code
    } else {
        code + seq![op_code(term)] + match lt_arg(tinf) {
            Some((x, Some(y))) => seq![x, y],
            Some((x, None)) => seq![x],
            None => seq![],
        }
    }
}

impl LowerBlock {
    /// Writes all the opcodes of a block, not its terminator.
    pub fn from_imops(bbcode: &[ImOp]) -> (r: Self)
        requires
            forall|i: int| 0 <= i < bbcode@.len() ==> imop_lowerable(#[trigger] bbcode@[i]),
        ensures
            r.code@ == code_bytes(bbcode@),
            r.term == Op::NOP,
            r.tinf == LowerTerm::Nop,
    {
        let mut res = LowerBlock { code: Vec::new(), term: Op::NOP, tinf: LowerTerm::Nop };
        let mut i: usize = 0;
        while i < bbcode.len()
            invariant
                i <= bbcode@.len(),
                forall|k: int| 0 <= k < bbcode@.len() ==> imop_lowerable(#[trigger] bbcode@[k]),
                res.code@ == code_bytes(bbcode@.take(i as int)),
                res.term == Op::NOP,
                res.tinf == LowerTerm::Nop,
            decreases bbcode@.len() - i,
        {
            assert(bbcode@.take(i + 1).drop_last() =~= bbcode@.take(i as int));
            res.push_imop(&bbcode[i]);
            i += 1;
        }
        assert(bbcode@.take(bbcode@.len() as int) =~= bbcode@);
        res
    }

    pub open spec fn spec_size(&self) -> int {
        self.code@.len() + lt_size(self.tinf)
    }

    pub fn size(&self) -> (r: usize)
        requires
            self.code@.len() + 3 <= usize::MAX,
        ensures
            r == self.spec_size(),
    {
        self.code.len() + self.tinf.size()
    }

    pub fn set_simple_term(&mut self, t: Op)
        ensures
            final(self).code@ == old(self).code@,
            final(self).term == t,
            final(self).tinf == if t == Op::NOP {
                LowerTerm::Nop
            } else {
                LowerTerm::One
            },
    {
        self.term = t;
        self.tinf = if t == Op::NOP {
            LowerTerm::Nop
        } else {
            LowerTerm::One
        };
    }

    /// Moves a jump's distance `dx` bytes closer to zero.
    pub fn shrink_jj_by(&mut self, dx: u8)
        requires
            dx < 128,
            match old(self).tinf {
                LowerTerm::Jxs(d) => d != 0,
                LowerTerm::Jxl(d) => d != 0,
                _ => false,
            },
        ensures
            final(self).code@ == old(self).code@,
            final(self).term == old(self).term,
            match old(self).tinf {
                LowerTerm::Jxs(d) => final(self).tinf == LowerTerm::Jxs(
                    (if d > 0 {
                        d - dx
                    } else {
                        d + dx
                    }) as i8,
                ),
                LowerTerm::Jxl(d) => final(self).tinf == LowerTerm::Jxl(
                    (if d > 0 {
                        d - dx
                    } else {
                        d + dx
                    }) as i16,
                ),
                _ => false,
            },
    {
        match self.tinf {
            LowerTerm::Jxs(d) => {
                let x = dx as i8;
                let nd: i8 = if d > 0 {
                    d - x
                } else {
                    d + x
                };
                self.tinf = LowerTerm::Jxs(nd);
            },
            LowerTerm::Jxl(d) => {
                let x = dx as i16;
                let nd: i16 = if d > 0 {
                    d - x
                } else {
                    d + x
                };
                self.tinf = LowerTerm::Jxl(nd);
            },
            _ => {},
        }
    }

    /// Writes a jump of `dist` bytes; returns true if the jump is short (8
    /// bits), false if long (16).
    pub fn write_jmp(&mut self, jmp: Jmp, dist: isize) -> (r: bool)
        requires
            !(jmp is CX),
            -128 <= dist + 1 <= 127 || (!(jmp is BY) && -32768 <= dist <= 32767),
        ensures
            r == (-128 <= dist + 1 <= 127),
            final(self).code@ == old(self).code@,
            r ==> final(self).term == s_jmp_op(jmp) && final(self).tinf == LowerTerm::Jxs(
                (dist + 1) as i8,
            ),
            !r ==> final(self).term == l_jmp_op(jmp).unwrap() && final(self).tinf == LowerTerm::Jxl(
                dist as i16,
            ),
    {
        if -128 <= dist + 1 && dist + 1 <= 127 {  // +1 because of the NOP
            let j = Op::try_s_jmp(jmp);
            self.term = j;
            self.tinf = LowerTerm::Jxs((dist + 1) as i8);
            return true;
        }
        let j = Op::try_l_jmp(jmp).unwrap();
        self.term = j;
        self.tinf = LowerTerm::Jxl(dist as i16);
        false
    }

    /// Both code and terminator.
    pub fn into_bytes(self) -> (r: Vec<u8>)
        ensures
            r@ == lb_bytes(self.code@, self.term, self.tinf),
    {
        let mut code = self.code;
        if self.term == Op::NOP {
            return code;
        }
        code.push(op_byte(self.term));
        if let Some((x, o)) = self.tinf.to_bytes() {
            code.push(x);
            if let Some(y) = o {  // long jump
                code.push(y);
            }
        }
        code
    }

    fn push_imop(&mut self, imop: &ImOp)
        requires
            imop_lowerable(*imop),
        ensures
            final(self).code@ == old(self).code@ + imop_bytes(*imop),
            final(self).term == old(self).term,
            final(self).tinf == old(self).tinf,
    {
        if let Ok(op) = imop_to_u8(*imop) {  // simple op
            self.push_u8(op);
        } else {  // with operands
            self.push_arg_op(imop);
        }
    }

    fn push_op(&mut self, op: Op)
        ensures
            final(self).code@ == old(self).code@.push(op_code(op)),
            final(self).term == old(self).term,
            final(self).tinf == old(self).tinf,
    {
        self.push_u8(op_byte(op));
    }

    fn push_u8(&mut self, x: u8)
        ensures
            final(self).code@ == old(self).code@.push(x),
            final(self).term == old(self).term,
            final(self).tinf == old(self).tinf,
    {
        self.code.push(x);
    }

    fn push_num(&mut self, b: u16)
        ensures
            final(self).code@ == old(self).code@ + u16_be(b),
            final(self).term == old(self).term,
            final(self).tinf == old(self).tinf,
    {
        self.code.push((b / 256) as u8);
        self.code.push((b % 256) as u8);
    }

    // called when imop is not simple
    fn push_arg_op(&mut self, imop: &ImOp)
        requires
            imop_operand(*imop) matches Some(i) && i <= 0xffff,
        ensures
            final(self).code@ == old(self).code@ + imop_bytes(*imop),
            final(self).term == old(self).term,
            final(self).tinf == old(self).tinf,
    {
        let opnd = imop.get_operand().unwrap();
        if opnd < 256 {  // Short
            self.push_op(
                match imop {
                    ImOp::LKX(_) => Op::LKS,
                    ImOp::LLX(_) => Op::LLS,
                    ImOp::SLX(_) => Op::SLS,
                    _ => Op::ULS,
                },
            );
            self.code.push(opnd as u8);
            return;
        }
        let s = opnd as u16;
        self.push_op(
            match imop {
                ImOp::LKX(_) => Op::LKL,
                ImOp::LLX(_) => Op::LLL,
                ImOp::SLX(_) => Op::SLL,
                _ => Op::ULL,
            },
        );
        self.push_num(s);
    }
}

// Lowering the graph -------------------------------------------------------

/// The number of code bytes of block `k`, without its terminator.
pub open spec fn code_len(bbs: Seq<BasicBlock>, k: int) -> int {
    code_bytes(bbs[k].code@).len() as int
}

/// The size of the blocks `a..b` where each terminator is counted with the
/// largest size a terminator can have (3 bytes).
pub open spec fn max_sum(bbs: Seq<BasicBlock>, a: int, b: int) -> int
    decreases b - a,
{
    if b <= a {
        0
    } else {
        max_sum(bbs, a, b - 1) + code_len(bbs, b - 1) + 3
    }
}

/// The distance of a jump from block `i` to block `t` where every
/// terminator is counted with 3 bytes: forward, the blocks strictly between;
/// backward, the target up to the jumping block itself.
pub open spec fn dist0(bbs: Seq<BasicBlock>, i: int, t: int) -> int {
    if i < t {
        max_sum(bbs, i + 1, t)
    } else {
        -max_sum(bbs, t, i + 1)
    }
}

/// Whether the jump that ends block `i` is written short (one byte).
pub open spec fn is_short(bbs: Seq<BasicBlock>, i: int) -> bool {
    match bbs[i].term {
        Term::JMP(_, t) => -128 <= dist0(bbs, i, t as int) + 1 <= 127,
        _ => false,
    }
}

/// The size of the lowered terminator of block `i`.
pub open spec fn term_size(bbs: Seq<BasicBlock>, i: int) -> int {
    match bbs[i].term {
        Term::NOP => 0,
        Term::HLT => 1,
        Term::JMP(_, _) => if is_short(bbs, i) {
            2
        } else {
            3
        },
        Term::PCH(_) => 0,
    }
}

/// The size of lowered block `k`.
pub open spec fn block_size(bbs: Seq<BasicBlock>, k: int) -> int {
    code_len(bbs, k) + term_size(bbs, k)
}

/// Where lowered block `k` begins in the code of the lowered graph.
pub open spec fn offset(bbs: Seq<BasicBlock>, k: int) -> int
    decreases k,
{
    if k <= 0 {
        0
    } else {
        offset(bbs, k - 1) + block_size(bbs, k - 1)
    }
}

/// The distance written in the jump of block `i`: from the end of block `i`
/// to the beginning of its target.
pub open spec fn final_dist(bbs: Seq<BasicBlock>, i: int) -> int {
    match bbs[i].term {
        Term::JMP(_, t) => offset(bbs, t as int) - offset(bbs, i + 1),
        _ => 0,
    }
}

/// The lowered terminator of block `i`.
pub open spec fn lowered_tinf(bbs: Seq<BasicBlock>, i: int) -> LowerTerm {
    match bbs[i].term {
        Term::NOP => LowerTerm::Nop,
        Term::HLT => LowerTerm::One,
        Term::JMP(_, _) => if is_short(bbs, i) {
            LowerTerm::Jxs(final_dist(bbs, i) as i8)
        } else {
            LowerTerm::Jxl(final_dist(bbs, i) as i16)
        },
        Term::PCH(_) => LowerTerm::Nop,
    }
}

/// The opcode of the lowered terminator of block `i`.
pub open spec fn lowered_op(bbs: Seq<BasicBlock>, i: int) -> Op {
    match bbs[i].term {
        Term::NOP => Op::NOP,
        Term::HLT => Op::HLT,
        Term::JMP(j, _) => if is_short(bbs, i) {
            s_jmp_op(j)
        } else {
            l_jmp_op(j).unwrap()
        },
        Term::PCH(_) => Op::NOP,
    }
}

/// Whether block `k` can be lowered: its opcodes can, and its terminator is
/// a NOP, a halt, or a jump that is not a compare-and-jump, whose target is
/// at most one past the last block, and whose distance fits: in one byte
/// for a jump that leaves a B% on the stack, else in two.
pub open spec fn block_lowerable(bbs: Seq<BasicBlock>, k: int) -> bool {
    &&& forall|j: int| 0 <= j < bbs[k].code@.len() ==> imop_lowerable(#[trigger] bbs[k].code@[j])
    &&& match bbs[k].term {
        Term::NOP | Term::HLT => true,
        Term::PCH(_) => false,
        Term::JMP(j, t) => {
            &&& t <= bbs.len()
            &&& !(j is CX)
            &&& (is_short(bbs, k) || (!(j is BY) && -32768 <= dist0(bbs, k, t as int) <= 32767))
        },
    }
}

/// Whether a graph can be lowered: every block can, and the graph is small
/// enough for 32-bit offsets.
pub open spec fn lowerable(bbs: Seq<BasicBlock>) -> bool {
    &&& forall|k: int| 0 <= k < bbs.len() ==> #[trigger] block_lowerable(bbs, k)
    &&& max_sum(bbs, 0, bbs.len() as int) <= 0x7fff_ffff
}

/// Block `lb` is the lowering of block `i`.
pub open spec fn lb_matches(lb: LowerBlock, bbs: Seq<BasicBlock>, i: int) -> bool {
    &&& lb.code@ == code_bytes(bbs[i].code@)
    &&& lb.term == lowered_op(bbs, i)
    &&& lb.tinf == lowered_tinf(bbs, i)
}

/// The sum of what shrinking each terminator of the blocks `a..b` to its
/// lowered size saves.
pub open spec fn shrink_sum(bbs: Seq<BasicBlock>, a: int, b: int) -> int
    decreases b - a,
{
    if b <= a {
        0
    } else {
        shrink_sum(bbs, a, b - 1) + 3 - term_size(bbs, b - 1)
    }
}

/// Whether the jump of block `k` passes over block `i`, and so moves when
/// block `i` shrinks.
pub open spec fn passes_over(bbs: Seq<BasicBlock>, k: int, i: int) -> bool {
    match bbs[k].term {
        Term::JMP(_, t) => (k <= i && i < t) || (t <= i && i < k),
        _ => false,
    }
}

/// The first distance written for the jump of block `k`.
pub open spec fn base_dist(bbs: Seq<BasicBlock>, k: int) -> int {
    match bbs[k].term {
        Term::JMP(_, t) => dist0(bbs, k, t as int) + if is_short(bbs, k) {
            1int
        } else {
            0int
        },
        _ => 0,
    }
}

/// How much the jump of block `k` has shrunk once the blocks before `i`
/// have their lowered size.
pub open spec fn shrunk(bbs: Seq<BasicBlock>, k: int, i: int) -> int {
    match bbs[k].term {
        Term::JMP(_, t) => if k < t {
            if i <= k {
                0
            } else {
                shrink_sum(bbs, k, if i < t {
                    i
                } else {
                    t as int
                })
            }
        } else {
            if i <= t {
                0
            } else {
                shrink_sum(bbs, t as int, if i < k {
                    i
                } else {
                    k
                })
            }
        },
        _ => 0,
    }
}

/// The distance of the jump of block `k` once the blocks before `i` have
/// their lowered size.
pub open spec fn cur_dist(bbs: Seq<BasicBlock>, k: int, i: int) -> int {
    match bbs[k].term {
        Term::JMP(_, t) => if k < t {
            base_dist(bbs, k) - shrunk(bbs, k, i)
        } else {
            base_dist(bbs, k) + shrunk(bbs, k, i)
        },
        _ => 0,
    }
}

/// The lowered terminator of block `k` once the blocks before `i` have
/// their lowered size.
pub open spec fn cur_tinf(bbs: Seq<BasicBlock>, k: int, i: int) -> LowerTerm {
    match bbs[k].term {
        Term::NOP => LowerTerm::Nop,
        Term::HLT => LowerTerm::One,
        Term::JMP(_, _) => if is_short(bbs, k) {
            LowerTerm::Jxs(cur_dist(bbs, k, i) as i8)
        } else {
            LowerTerm::Jxl(cur_dist(bbs, k, i) as i16)
        },
        Term::PCH(_) => LowerTerm::Nop,
    }
}

proof fn lemma_max_sum_split(bbs: Seq<BasicBlock>, a: int, m: int, b: int)
    requires
        a <= m <= b,
    ensures
        max_sum(bbs, a, b) == max_sum(bbs, a, m) + max_sum(bbs, m, b),
    decreases b - m,
{
    if m < b {
        lemma_max_sum_split(bbs, a, m, b - 1);
    }
}

proof fn lemma_shrink_sum_split(bbs: Seq<BasicBlock>, a: int, m: int, b: int)
    requires
        a <= m <= b,
    ensures
        shrink_sum(bbs, a, b) == shrink_sum(bbs, a, m) + shrink_sum(bbs, m, b),
    decreases b - m,
{
    if m < b {
        lemma_shrink_sum_split(bbs, a, m, b - 1);
    }
}

proof fn lemma_sizes(bbs: Seq<BasicBlock>, k: int)
    ensures
        0 <= term_size(bbs, k) <= 3,
        code_len(bbs, k) >= 0,
        block_size(bbs, k) >= 0,
{
}

proof fn lemma_shrink_sum_nonneg(bbs: Seq<BasicBlock>, a: int, b: int)
    ensures
        shrink_sum(bbs, a, b) >= 0,
    decreases b - a,
{
    if b > a {
        lemma_shrink_sum_nonneg(bbs, a, b - 1);
        lemma_sizes(bbs, b - 1);
    }
}

/// The true sizes of the blocks `a..b` are their largest sizes less what
/// shrinking saves.
proof fn lemma_offsets(bbs: Seq<BasicBlock>, a: int, b: int)
    requires
        0 <= a <= b,
    ensures
        offset(bbs, b) - offset(bbs, a) == max_sum(bbs, a, b) - shrink_sum(bbs, a, b),
        offset(bbs, b) >= offset(bbs, a),
    decreases b - a,
{
    if a < b {
        lemma_offsets(bbs, a, b - 1);
        lemma_sizes(bbs, b - 1);
    }
}

proof fn lemma_shrink_one(bbs: Seq<BasicBlock>, k: int)
    ensures
        shrink_sum(bbs, k, k + 1) == 3 - term_size(bbs, k),
{
    assert(shrink_sum(bbs, k, k) == 0);
}

/// Once all blocks have their lowered size, the distance of a jump is the
/// distance from the end of its block to the beginning of its target, and
/// it fits the width chosen for it.
proof fn lemma_final_dist(bbs: Seq<BasicBlock>, k: int)
    requires
        0 <= k < bbs.len(),
        block_lowerable(bbs, k),
        bbs[k].term is JMP,
    ensures
        cur_dist(bbs, k, bbs.len() as int) == final_dist(bbs, k),
        is_short(bbs, k) ==> -128 <= final_dist(bbs, k) <= 127,
        !is_short(bbs, k) ==> -32768 <= final_dist(bbs, k) <= 32767,
        k < term_target(bbs[k].term).unwrap() ==> final_dist(bbs, k) >= 0,
        k >= term_target(bbs[k].term).unwrap() ==> final_dist(bbs, k) <= -2,
{
    let t = term_target(bbs[k].term).unwrap() as int;
    let n = bbs.len() as int;
    lemma_sizes(bbs, k);
    lemma_shrink_one(bbs, k);
    if k < t {
        lemma_shrink_sum_split(bbs, k, k + 1, t);
        lemma_offsets(bbs, k + 1, t);
        lemma_shrink_sum_nonneg(bbs, k + 1, t);
        assert(shrunk(bbs, k, n) == shrink_sum(bbs, k, t));
        assert(final_dist(bbs, k) == max_sum(bbs, k + 1, t) - shrink_sum(bbs, k + 1, t));
    } else {
        lemma_offsets(bbs, t, k + 1);
        lemma_offsets(bbs, t, k);
        lemma_shrink_sum_split(bbs, t, k, k + 1);
        lemma_shrink_sum_nonneg(bbs, t, k);
        assert(shrunk(bbs, k, n) == shrink_sum(bbs, t, k));
        assert(offset(bbs, k + 1) == offset(bbs, k) + block_size(bbs, k));
    }
}

/// While the blocks get their lowered size, a forward jump stays positive
/// and a backward one negative, between its first and its final distance.
proof fn lemma_cur_dist_bounds(bbs: Seq<BasicBlock>, k: int, i: int)
    requires
        0 <= k < bbs.len(),
        0 <= i <= bbs.len(),
        block_lowerable(bbs, k),
        bbs[k].term is JMP,
    ensures
        ({
            let t = term_target(bbs[k].term).unwrap() as int;
            let c = cur_dist(bbs, k, i);
            let f = final_dist(bbs, k);
            let b = base_dist(bbs, k);
            &&& k < t ==> f <= c <= b
            &&& k < t && k <= i < t ==> c >= f + 3 - term_size(bbs, i)
            &&& k >= t ==> b <= c <= f
        }),
{
    let t = term_target(bbs[k].term).unwrap() as int;
    let n = bbs.len() as int;
    lemma_final_dist(bbs, k);
    lemma_shrink_sum_nonneg(bbs, k, t);
    lemma_shrink_sum_nonneg(bbs, t, k);
    assert(cur_dist(bbs, k, n) == final_dist(bbs, k));
    if k < t {
        assert(shrunk(bbs, k, n) == shrink_sum(bbs, k, t));
        if i > k {
            let m = if i < t {
                i
            } else {
                t
            };
            assert(shrunk(bbs, k, i) == shrink_sum(bbs, k, m));
            lemma_shrink_sum_split(bbs, k, m, t);
            lemma_shrink_sum_nonneg(bbs, k, m);
            lemma_shrink_sum_nonneg(bbs, m, t);
            if i < t {
                lemma_shrink_sum_split(bbs, i, i + 1, t);
                lemma_shrink_sum_nonneg(bbs, i + 1, t);
                lemma_shrink_one(bbs, i);
            }
        } else {
            assert(shrunk(bbs, k, i) == 0);
            if i == k {
                lemma_shrink_sum_split(bbs, k, k + 1, t);
                lemma_shrink_sum_nonneg(bbs, k + 1, t);
                lemma_shrink_one(bbs, k);
            }
        }
    } else {
        assert(shrunk(bbs, k, n) == shrink_sum(bbs, t, k));
        if i > t {
            let m = if i < k {
                i
            } else {
                k
            };
            assert(shrunk(bbs, k, i) == shrink_sum(bbs, t, m));
            lemma_shrink_sum_split(bbs, t, m, k);
            lemma_shrink_sum_nonneg(bbs, t, m);
            lemma_shrink_sum_nonneg(bbs, m, k);
        } else {
            assert(shrunk(bbs, k, i) == 0);
        }
    }
}

/// When block `i` gets its lowered size, a jump that passes over it moves
/// by what block `i` saves, toward zero.
proof fn lemma_shrink_amount(bbs: Seq<BasicBlock>, j: int, i: int)
    requires
        0 <= j < bbs.len(),
        0 <= i < bbs.len(),
        passes_over(bbs, j, i),
    ensures
        cur_dist(bbs, j, i + 1) == if j < term_target(bbs[j].term).unwrap() {
            cur_dist(bbs, j, i) - (3 - term_size(bbs, i))
        } else {
            cur_dist(bbs, j, i) + (3 - term_size(bbs, i))
        },
{
    let t = term_target(bbs[j].term).unwrap() as int;
    lemma_shrink_one(bbs, i);
    if j < t {
        assert(shrunk(bbs, j, i + 1) == shrink_sum(bbs, j, i + 1));
        if i > j {
            lemma_shrink_sum_split(bbs, j, i, i + 1);
        }
    } else {
        assert(shrunk(bbs, j, i + 1) == shrink_sum(bbs, t, i + 1));
        if i > t {
            lemma_shrink_sum_split(bbs, t, i, i + 1);
        }
    }
}

/// One shrinking step of a jump that passes over block `i`, in the terms
/// of the lowered terminators.
proof fn lemma_shrink_step(bbs: Seq<BasicBlock>, j: int, i: int)
    requires
        0 <= j < bbs.len(),
        0 <= i < bbs.len(),
        block_lowerable(bbs, j),
        passes_over(bbs, j, i),
        3 - term_size(bbs, i) > 0,
    ensures
        ({
            let nops = 3 - term_size(bbs, i);
            let t = term_target(bbs[j].term).unwrap() as int;
            match cur_tinf(bbs, j, i) {
                LowerTerm::Jxs(d) => d != 0 && (d > 0 <==> j < t) && cur_tinf(bbs, j, i + 1)
                    == LowerTerm::Jxs(
                    (if d > 0 {
                        d - nops
                    } else {
                        d + nops
                    }) as i8,
                ),
                LowerTerm::Jxl(d) => d != 0 && (d > 0 <==> j < t) && cur_tinf(bbs, j, i + 1)
                    == LowerTerm::Jxl(
                    (if d > 0 {
                        d - nops
                    } else {
                        d + nops
                    }) as i16,
                ),
                _ => false,
            }
        }),
{
    let t = term_target(bbs[j].term).unwrap() as int;
    lemma_cur_dist_bounds(bbs, j, i);
    lemma_cur_dist_bounds(bbs, j, i + 1);
    lemma_final_dist(bbs, j);
    lemma_shrink_amount(bbs, j, i);
    lemma_sizes(bbs, i);
}

/// The lowered graph: each block lowered on its own, then every jump given
/// the distance to its target.
fn bb2lb(bblocks: &Vec<BasicBlock>) -> (r: Vec<LowerBlock>)
    requires
        lowerable(bblocks@),
    ensures
        r@.len() == bblocks@.len(),
        forall|i: int| 0 <= i < r@.len() ==> lb_matches(#[trigger] r@[i], bblocks@, i),
{
    let len = bblocks.len();
    let ghost bbs = bblocks@;
    // lower all the blocks separately
    let mut lblocks: Vec<LowerBlock> = Vec::new();
    let mut k: usize = 0;
    while k < len
        invariant
            len == bbs.len(),
            bbs == bblocks@,
            lowerable(bbs),
            k <= len,
            lblocks@.len() == k,
            forall|j: int|
                0 <= j < k ==> {
                    &&& (#[trigger] lblocks@[j]).code@ == code_bytes(bbs[j].code@)
                    &&& lblocks@[j].term == Op::NOP
                    &&& lblocks@[j].tinf == LowerTerm::Nop
                },
        decreases len - k,
    {
        assert(block_lowerable(bbs, k as int));
        lblocks.push(LowerBlock::from_imops(bblocks[k].code.as_slice()));
        k += 1;
    }
    // compute the jumps supposing every terminator takes 3 bytes
    let mut i: usize = 0;
    while i < len
        invariant
            len == bbs.len(),
            bbs == bblocks@,
            lowerable(bbs),
            i <= len,
            lblocks@.len() == len,
            forall|j: int|
                0 <= j < len ==> (#[trigger] lblocks@[j]).code@ == code_bytes(bbs[j].code@),
            forall|j: int|
                0 <= j < i ==> {
                    &&& (#[trigger] lblocks@[j]).term == lowered_op(bbs, j)
                    &&& lblocks@[j].tinf == cur_tinf(bbs, j, 0)
                },
        decreases len - i,
    {
        write_lb_term(bblocks, &mut lblocks, i);
        i += 1;
    }
    // recompute the jumps with the true sizes
    let mut i: usize = 0;
    while i < len
        invariant
            len == bbs.len(),
            bbs == bblocks@,
            lowerable(bbs),
            i <= len,
            lblocks@.len() == len,
            forall|j: int|
                0 <= j < len ==> {
                    &&& (#[trigger] lblocks@[j]).code@ == code_bytes(bbs[j].code@)
                    &&& lblocks@[j].term == lowered_op(bbs, j)
                    &&& lblocks@[j].tinf == cur_tinf(bbs, j, i as int)
                },
        decreases len - i,
    {
        recomp_term(bblocks, &mut lblocks, i);
        i += 1;
    }
    assert forall|j: int| 0 <= j < len implies lb_matches(#[trigger] lblocks@[j], bbs, j) by {
        assert(block_lowerable(bbs, j));
        if bbs[j].term is JMP {
            lemma_final_dist(bbs, j);
        }
    }
    let ok = check_jumps(bblocks, &lblocks);
    assert(ok);
    lblocks
}

/// Gives block `i` the size it has when lowered, and moves every jump that
/// passes over it accordingly.
fn recomp_term(bblocks: &Vec<BasicBlock>, lblocks: &mut Vec<LowerBlock>, i: usize)
    requires
        lowerable(bblocks@),
        i < bblocks@.len(),
        old(lblocks)@.len() == bblocks@.len(),
        forall|j: int|
            0 <= j < bblocks@.len() ==> {
                &&& (#[trigger] old(lblocks)@[j]).code@ == code_bytes(bblocks@[j].code@)
                &&& old(lblocks)@[j].term == lowered_op(bblocks@, j)
                &&& old(lblocks)@[j].tinf == cur_tinf(bblocks@, j, i as int)
            },
    ensures
        final(lblocks)@.len() == bblocks@.len(),
        forall|j: int|
            0 <= j < bblocks@.len() ==> {
                &&& (#[trigger] final(lblocks)@[j]).code@ == code_bytes(bblocks@[j].code@)
                &&& final(lblocks)@[j].term == lowered_op(bblocks@, j)
                &&& final(lblocks)@[j].tinf == cur_tinf(bblocks@, j, i + 1)
            },
{
    let ghost bbs = bblocks@;
    let len = bblocks.len();
    assert(block_lowerable(bbs, i as int));
    let tsz = lblocks[i].tinf.size();
    assert(tsz == term_size(bbs, i as int));
    let nops_num: u8 = (3 - tsz) as u8;
    // the blocks whose distance does not pass over block i keep it
    assert forall|j: int| 0 <= j < len && !passes_over(bbs, j, i as int) implies cur_tinf(
        bbs,
        j,
        i + 1,
    ) == cur_tinf(bbs, j, i as int) by {
        if bbs[j].term is JMP {
            let t = term_target(bbs[j].term).unwrap() as int;
            if j < t {
                if i < j {
                } else {
                    assert(t <= i);
                }
            } else {
                if i < t {
                } else {
                    assert(j <= i);
                }
            }
        }
    }
    // the others shrink by nops_num
    assert forall|j: int| 0 <= j < len && passes_over(bbs, j, i as int) implies cur_dist(bbs, j, i + 1) == if j < term_target(
        bbs[j].term,
    ).unwrap() {
        cur_dist(bbs, j, i as int) - nops_num
    } else {
        cur_dist(bbs, j, i as int) + nops_num
    } by {
        lemma_shrink_amount(bbs, j, i as int);
    }
    if nops_num == 0 {
        return;
    }
    // edit the jumps before or at block i that jump after it
    let mut j: usize = 0;
    while j <= i
        invariant
            bbs == bblocks@,
            lowerable(bbs),
            len == bbs.len(),
            i < len,
            j <= i + 1,
            nops_num == 3 - term_size(bbs, i as int),
            nops_num > 0,
            lblocks@.len() == len,
            forall|k: int|
                0 <= k < len ==> {
                    &&& (#[trigger] lblocks@[k]).code@ == code_bytes(bbs[k].code@)
                    &&& lblocks@[k].term == lowered_op(bbs, k)
                    &&& lblocks@[k].tinf == cur_tinf(bbs, k, if k < j {
                        i + 1
                    } else {
                        i as int
                    })
                },
            forall|k: int|
                0 <= k < len && !passes_over(bbs, k, i as int) ==> cur_tinf(bbs, k, i + 1)
                    == cur_tinf(bbs, k, i as int),
            forall|k: int|
                0 <= k < len && passes_over(bbs, k, i as int) ==> cur_dist(bbs, k, i + 1) == if k < term_target(
                    bbs[k].term,
                ).unwrap() {
                    cur_dist(bbs, k, i as int) - nops_num
                } else {
                    cur_dist(bbs, k, i as int) + nops_num
                },
        decreases i + 1 - j,
    {
        if let Some(target) = bblocks[j].term.jmp_target() {
            if i < target {
                proof {
                    assert(block_lowerable(bbs, j as int));
                    lemma_shrink_step(bbs, j as int, i as int);
                    assert(lblocks@[j as int].tinf == cur_tinf(bbs, j as int, i as int));
                }
                lblocks[j].shrink_jj_by(nops_num);
            }
        }
        j += 1;
    }
    // edit the jumps after block i that jump before or onto it
    let mut j: usize = i + 1;
    while j < len
        invariant
            bbs == bblocks@,
            lowerable(bbs),
            len == bbs.len(),
            i < len,
            i + 1 <= j <= len,
            nops_num == 3 - term_size(bbs, i as int),
            nops_num > 0,
            lblocks@.len() == len,
            forall|k: int|
                0 <= k < len ==> {
                    &&& (#[trigger] lblocks@[k]).code@ == code_bytes(bbs[k].code@)
                    &&& lblocks@[k].term == lowered_op(bbs, k)
                    &&& lblocks@[k].tinf == cur_tinf(bbs, k, if k < j {
                        i + 1
                    } else {
                        i as int
                    })
                },
            forall|k: int|
                0 <= k < len && !passes_over(bbs, k, i as int) ==> cur_tinf(bbs, k, i + 1)
                    == cur_tinf(bbs, k, i as int),
            forall|k: int|
                0 <= k < len && passes_over(bbs, k, i as int) ==> cur_dist(bbs, k, i + 1) == if k < term_target(
                    bbs[k].term,
                ).unwrap() {
                    cur_dist(bbs, k, i as int) - nops_num
                } else {
                    cur_dist(bbs, k, i as int) + nops_num
                },
        decreases len - j,
    {
        if let Some(target) = bblocks[j].term.jmp_target() {
            if target <= i {
                proof {
                    assert(block_lowerable(bbs, j as int));
                    lemma_shrink_step(bbs, j as int, i as int);
                    assert(lblocks@[j as int].tinf == cur_tinf(bbs, j as int, i as int));
                }
                lblocks[j].shrink_jj_by(nops_num);
            }
        }
        j += 1;
    }
}

/// Writes the terminator of block `i`, a jump with its distance counted
/// as if every terminator took 3 bytes.
fn write_lb_term(bblocks: &Vec<BasicBlock>, lblocks: &mut Vec<LowerBlock>, i: usize)
    requires
        lowerable(bblocks@),
        i < bblocks@.len(),
        old(lblocks)@.len() == bblocks@.len(),
        forall|j: int|
            0 <= j < bblocks@.len() ==> (#[trigger] old(lblocks)@[j]).code@ == code_bytes(
                bblocks@[j].code@,
            ),
    ensures
        final(lblocks)@.len() == bblocks@.len(),
        forall|j: int|
            0 <= j < bblocks@.len() ==> (#[trigger] final(lblocks)@[j]).code@ == code_bytes(
                bblocks@[j].code@,
            ),
        forall|j: int| 0 <= j < bblocks@.len() && j != i ==> final(lblocks)@[j] == old(lblocks)@[j],
        final(lblocks)@[i as int].term == lowered_op(bblocks@, i as int),
        final(lblocks)@[i as int].tinf == cur_tinf(bblocks@, i as int, 0),
{
    let ghost bbs = bblocks@;
    let len = bblocks.len();
    assert(block_lowerable(bbs, i as int));
    let t = bblocks[i].term;
    // simple terminators
    if let Ok(op) = term_to_op(t) {
        lblocks[i].set_simple_term(op);
        return;
    }
    // a jump
    let (jmp, bbi) = match t {
        Term::JMP(j, b) => (j, b),
        _ => (Jmp::JX, 0),
    };
    let (from, to) = if i < bbi {
        (i + 1, bbi)
    } else {
        (bbi, i + 1)
    };
    // the blocks passed over, with their terminators taking 3 bytes
    let mut sum: usize = 0;
    let mut k: usize = from;
    proof {
        lemma_max_sum_split(bbs, 0, from as int, to as int);
        lemma_max_sum_split(bbs, 0, to as int, bbs.len() as int);
        assert forall|a: int, b: int| 0 <= a <= b <= bbs.len() implies max_sum(bbs, a, b) >= 0 by {
            lemma_max_sum_nonneg(bbs, a, b);
        }
    }
    while k < to
        invariant
            from <= k <= to <= bbs.len(),
            bbs == bblocks@,
            lblocks@.len() == bbs.len(),
            forall|j: int|
                0 <= j < bbs.len() ==> (#[trigger] lblocks@[j]).code@ == code_bytes(bbs[j].code@),
            sum == max_sum(bbs, from as int, k as int),
            max_sum(bbs, from as int, to as int) <= 0x7fff_ffff,
            forall|a: int, b: int| 0 <= a <= b <= bbs.len() ==> max_sum(bbs, a, b) >= 0,
        decreases to - k,
    {
        proof {
            lemma_max_sum_split(bbs, from as int, k + 1, to as int);
        }
        sum = sum + lblocks[k].code.len() + 3;
        k += 1;
    }
    let dist: isize = if i < bbi {
        sum as isize
    } else {
        -(sum as isize)
    };
    lblocks[i].write_jmp(jmp, dist);
}

proof fn lemma_max_sum_nonneg(bbs: Seq<BasicBlock>, a: int, b: int)
    ensures
        max_sum(bbs, a, b) >= 0,
    decreases b - a,
{
    if b > a {
        lemma_max_sum_nonneg(bbs, a, b - 1);
    }
}

/// Whether every lowered jump lands on the beginning of its target block.
fn check_jumps(bblocks: &Vec<BasicBlock>, lblocks: &Vec<LowerBlock>) -> (r: bool)
    requires
        lowerable(bblocks@),
        lblocks@.len() == bblocks@.len(),
        forall|i: int| 0 <= i < lblocks@.len() ==> lb_matches(#[trigger] lblocks@[i], bblocks@, i),
    ensures
        r,
{
    let ghost bbs = bblocks@;
    let len = lblocks.len();
    let mut i: usize = 0;
    while i < len
        invariant
            bbs == bblocks@,
            lowerable(bbs),
            len == bbs.len(),
            lblocks@.len() == len,
            forall|j: int| 0 <= j < len ==> lb_matches(#[trigger] lblocks@[j], bbs, j),
            i <= len,
        decreases len - i,
    {
        if let Some(dist) = lblocks[i].tinf.jmp_dist() {
            assert(block_lowerable(bbs, i as int));
            assert(lb_matches(lblocks@[i as int], bbs, i as int));
            let bbi = bblocks[i].term.jmp_target().unwrap();
            proof {
                lemma_final_dist(bbs, i as int);
            }
            let (from, to) = if i < bbi {
                (i + 1, bbi)
            } else {
                (bbi, i + 1)
            };
            let mut blocks_dist: usize = 0;
            let mut k: usize = from;
            proof {
                lemma_offsets(bbs, from as int, to as int);
                lemma_max_sum_split(bbs, 0, from as int, to as int);
                lemma_max_sum_split(bbs, 0, to as int, bbs.len() as int);
                lemma_max_sum_nonneg(bbs, 0, from as int);
                lemma_max_sum_nonneg(bbs, to as int, bbs.len() as int);
                lemma_shrink_sum_nonneg(bbs, from as int, to as int);
            }
            while k < to
                invariant
                    from <= k <= to <= len,
                    bbs == bblocks@,
                    len == bbs.len(),
                    lblocks@.len() == len,
                    forall|j: int| 0 <= j < len ==> lb_matches(#[trigger] lblocks@[j], bbs, j),
                    blocks_dist == offset(bbs, k as int) - offset(bbs, from as int),
                    offset(bbs, to as int) - offset(bbs, from as int) <= 0x7fff_ffff,
                decreases to - k,
            {
                proof {
                    lemma_offsets(bbs, k + 1, to as int);
                    lemma_sizes(bbs, k as int);
                    assert(lb_matches(lblocks@[k as int], bbs, k as int));
                }
                blocks_dist = blocks_dist + lblocks[k].size();
                k += 1;
            }
            let jmp_dist: usize = if dist < 0 {
                (-dist) as usize
            } else {
                dist as usize
            };
            if blocks_dist != jmp_dist {
                return false;
            }
        }
        i += 1;
    }
    true
}

// Serialization --------------------------------------------------------------

/// The magic bytes that begin a bytecode file: `\xDFDRYFART`.
pub open spec fn df_magic() -> Seq<u8> {
    seq![0xdfu8, 68u8, 82u8, 89u8, 70u8, 65u8, 82u8, 84u8]
}

/// The bytes of the identifier pool, after its count.
pub open spec fn idents_body(ids: Seq<DfString>) -> Seq<u8>
    decreases ids.len(),
{
    if ids.len() == 0 {
        seq![]
    } else {
        idents_body(ids.drop_last()) + seq![ids.last()@.len() as u8] + ids.last()@ + seq![0u8]
    }
}

/// The byte that tells the type of a constant.
pub open spec fn ctn_type_byte(v: Val) -> u8 {
    match v {
        Val::C(_) => 2,
        Val::N(_) => 3,
        Val::Z(_) => 4,
        Val::R(_) => 5,
        Val::B(_) => 0,
    }
}

/// The big-endian bytes of the value of a constant.
pub open spec fn val_bytes(v: Val) -> Seq<u8> {
    match v {
        Val::C(c) => seq![c],
        Val::N(n) => u32_be(n),
        Val::Z(z) => u32_be(z as u32),
        Val::R(r) => u64_be(r),
        Val::B(_) => seq![],
    }
}

/// The bytes of the constant pool, after its count.
pub open spec fn consts_body(cs: Seq<Val>) -> Seq<u8>
    decreases cs.len(),
{
    if cs.len() == 0 {
        seq![]
    } else {
        consts_body(cs.drop_last()) + seq![ctn_type_byte(cs.last())] + val_bytes(cs.last())
    }
}

/// The bytes of lowered block `i`.
pub open spec fn block_bytes(bbs: Seq<BasicBlock>, i: int) -> Seq<u8> {
    lb_bytes(code_bytes(bbs[i].code@), lowered_op(bbs, i), lowered_tinf(bbs, i))
}

/// The bytes of the first `n` lowered blocks, one after the other.
pub open spec fn lowered_code(bbs: Seq<BasicBlock>, n: int) -> Seq<u8>
    decreases n,
{
    if n <= 0 {
        seq![]
    } else {
        lowered_code(bbs, n - 1) + block_bytes(bbs, n - 1)
    }
}

/// The bytes of the main routine: the length of its code, the code, a NUL.
pub open spec fn main_bytes(bbs: Seq<BasicBlock>) -> Seq<u8> {
    let code = lowered_code(bbs, bbs.len() as int);
    u32_be(code.len() as u32) + code + seq![0u8]
}

/// The whole bytecode file of a compiled program.
pub open spec fn program_bytes(ids: Seq<DfString>, cs: Seq<Val>, bbs: Seq<BasicBlock>) -> Seq<u8> {
    df_magic() + u16_be(ids.len() as u16) + idents_body(ids) + u16_be(cs.len() as u16)
        + consts_body(cs) + main_bytes(bbs)
}

/// Whether a compiled program can be written: its pools fit their 16-bit
/// counts, every identifier is at most 255 bytes long, no constant is a
/// B%, and its graph can be lowered.
pub open spec fn serializable(ids: Seq<DfString>, cs: Seq<Val>, bbs: Seq<BasicBlock>) -> bool {
    &&& ids.len() <= 0xffff
    &&& forall|i: int| 0 <= i < ids.len() ==> (#[trigger] ids[i])@.len() <= 255
    &&& cs.len() <= 0xffff
    &&& forall|i: int| 0 <= i < cs.len() ==> !(#[trigger] cs[i] is B)
    &&& lowerable(bbs)
}

/// A lowered block is as long as its size.
proof fn lemma_block_bytes_len(bbs: Seq<BasicBlock>, k: int)
    requires
        0 <= k < bbs.len(),
        block_lowerable(bbs, k),
    ensures
        block_bytes(bbs, k).len() == block_size(bbs, k),
{
}

/// The lowered code of the first `n` blocks is as long as the offset of
/// block `n`, and each block `k < n` lies at its offset.
proof fn lemma_lowered_code(bbs: Seq<BasicBlock>, n: int)
    requires
        0 <= n <= bbs.len(),
        forall|k: int| 0 <= k < bbs.len() ==> #[trigger] block_lowerable(bbs, k),
    ensures
        lowered_code(bbs, n).len() == offset(bbs, n),
        forall|k: int|
            0 <= k < n ==> lowered_code(bbs, n).subrange(offset(bbs, k), offset(bbs, k + 1))
                == #[trigger] block_bytes(bbs, k),
    decreases n,
{
    if n > 0 {
        lemma_lowered_code(bbs, n - 1);
        lemma_block_bytes_len(bbs, n - 1);
        lemma_offsets(bbs, 0, n - 1);
        let c = lowered_code(bbs, n);
        let p = lowered_code(bbs, n - 1);
        assert forall|k: int| 0 <= k < n implies c.subrange(offset(bbs, k), offset(bbs, k + 1))
            == #[trigger] block_bytes(bbs, k) by {
            if k < n - 1 {
                lemma_offsets(bbs, k + 1, n - 1);
                lemma_offsets(bbs, k, k + 1);
                lemma_offsets(bbs, 0, k);
                assert(c.subrange(offset(bbs, k), offset(bbs, k + 1)) =~= p.subrange(
                    offset(bbs, k),
                    offset(bbs, k + 1),
                ));
            } else {
                assert(c.subrange(offset(bbs, k), offset(bbs, k + 1)) =~= block_bytes(bbs, k));
            }
        }
    }
}

/// The distance written in a lowered jump.
pub open spec fn lt_dist(t: LowerTerm) -> int {
    match t {
        LowerTerm::Jxs(d) => d as int,
        LowerTerm::Jxl(d) => d as int,
        _ => 0,
    }
}

/// Every jump of the lowered code lands on the first byte of its target:
/// the bytes of each block lie at its offset, and the end of the jumping
/// block plus the distance written in its jump is the offset of the target.
pub proof fn lemma_jumps_land_on_targets(bbs: Seq<BasicBlock>, i: int)
    requires
        lowerable(bbs),
        0 <= i < bbs.len(),
        bbs[i].term is JMP,
    ensures
        ({
            let t = term_target(bbs[i].term).unwrap() as int;
            let code = lowered_code(bbs, bbs.len() as int);
            &&& offset(bbs, i + 1) + lt_dist(lowered_tinf(bbs, i)) == offset(bbs, t)
            &&& code.subrange(offset(bbs, i), offset(bbs, i + 1)) == block_bytes(bbs, i)
            &&& t < bbs.len() ==> code.subrange(offset(bbs, t), offset(bbs, t + 1)) == block_bytes(
                bbs,
                t,
            )
            &&& t == bbs.len() ==> offset(bbs, t) == code.len()
        }),
{
    assert(block_lowerable(bbs, i));
    lemma_final_dist(bbs, i);
    lemma_lowered_code(bbs, bbs.len() as int);
}

/// Writes a compiled program as bytecode.
#[derive(Debug)]
struct Phil {
    out: Vec<u8>,  // accumulator
}

impl Phil {
    pub fn transfart(comp: &Compiler) -> (r: Vec<u8>)
        requires
            serializable(comp.idents@, comp.consts@, comp.curr.blocks@),
        ensures
            r@ == program_bytes(comp.idents@, comp.consts@, comp.curr.blocks@),
    {
        let mut collins = Phil { out: Vec::new() };
        collins.extend_magic();
        collins.push_idents(comp.idents.as_slice());
        collins.push_consts(comp.consts.as_slice());
        collins.push_main(&comp.curr.blocks);
        proof {
            let ids = comp.idents@;
            let cs = comp.consts@;
            assert(collins.out@ =~= program_bytes(ids, cs, comp.curr.blocks@));
        }
        collins.out
    }

    fn at(&self) -> (r: usize)
        ensures
            r == self.out@.len(),
    {
        self.out.len()
    }

    fn overwrite_at(&mut self, bytes: &[u8], at: usize)
        requires
            at + bytes@.len() <= old(self).out@.len(),
        ensures
            final(self).out@ == old(self).out@.take(at as int) + bytes@ + old(self).out@.skip(
                at + bytes@.len(),
            ),
    {
        let out_len = self.out.len();
        let mut i: usize = 0;
        while i < bytes.len()
            invariant
                i <= bytes@.len(),
                at + bytes@.len() <= old(self).out@.len(),
                out_len == old(self).out@.len(),
                self.out@.len() == old(self).out@.len(),
                forall|k: int|
                    0 <= k < self.out@.len() ==> #[trigger] self.out@[k] == if at <= k < at + i {
                        bytes@[k - at]
                    } else {
                        old(self).out@[k]
                    },
            decreases bytes@.len() - i,
        {
            self.out.set(at + i, bytes[i]);
            i += 1;
        }
        assert(self.out@ =~= old(self).out@.take(at as int) + bytes@ + old(self).out@.skip(
            at + bytes@.len(),
        ));
    }

    fn extend_bytes(&mut self, bytes: &[u8])
        ensures
            final(self).out@ == old(self).out@ + bytes@,
    {
        let mut i: usize = 0;
        while i < bytes.len()
            invariant
                i <= bytes@.len(),
                self.out@ == old(self).out@ + bytes@.take(i as int),
            decreases bytes@.len() - i,
        {
            self.out.push(bytes[i]);
            i += 1;
            assert(self.out@ =~= old(self).out@ + bytes@.take(i as int));
        }
        assert(bytes@.take(bytes@.len() as int) =~= bytes@);
    }

    fn extend_u8(&mut self, b: u8)
        ensures
            final(self).out@ == old(self).out@.push(b),
    {
        self.out.push(b);
    }

    fn extend_u16(&mut self, b: u16)
        ensures
            final(self).out@ == old(self).out@ + u16_be(b),
    {
        self.out.push((b / 256) as u8);
        self.out.push((b % 256) as u8);
        assert(self.out@ =~= old(self).out@ + u16_be(b));
    }

    fn extend_u32(&mut self, b: u32)
        ensures
            final(self).out@ == old(self).out@ + u32_be(b),
    {
        self.out.push((b / 0x100_0000) as u8);
        self.out.push((b / 0x1_0000 % 256) as u8);
        self.out.push((b / 256 % 256) as u8);
        self.out.push((b % 256) as u8);
        assert(self.out@ =~= old(self).out@ + u32_be(b));
    }

    fn extend_u64(&mut self, b: u64)
        ensures
            final(self).out@ == old(self).out@ + u64_be(b),
    {
        self.extend_u32((b / 0x1_0000_0000) as u32);
        self.extend_u32((b % 0x1_0000_0000) as u32);
        assert(self.out@ =~= old(self).out@ + u64_be(b));
    }

    fn extend_magic(&mut self)
        ensures
            final(self).out@ == old(self).out@ + df_magic(),
    {
        self.out.push(0xdf);
        self.out.push(68);  // D
        self.out.push(82);  // R
        self.out.push(89);  // Y
        self.out.push(70);  // F
        self.out.push(65);  // A
        self.out.push(82);  // R
        self.out.push(84);  // T
        assert(self.out@ =~= old(self).out@ + df_magic());
    }

    fn extend_val(&mut self, v: &Val)
        requires
            !(*v is B),
        ensures
            final(self).out@ == old(self).out@ + val_bytes(*v),
    {
        match v {
            Val::C(c) => {
                self.extend_u8(*c);
                assert(self.out@ =~= old(self).out@ + val_bytes(*v));
            },
            Val::N(n) => self.extend_u32(*n),
            Val::Z(z) => self.extend_u32(*z as u32),
            Val::R(r) => self.extend_u64(*r),
            Val::B(_) => {},
        }
    }

    fn push_idents(&mut self, idents: &[DfString])
        requires
            idents@.len() <= 0xffff,
            forall|i: int| 0 <= i < idents@.len() ==> (#[trigger] idents@[i])@.len() <= 255,
        ensures
            final(self).out@ == old(self).out@ + u16_be(idents@.len() as u16) + idents_body(idents@),
    {
        self.extend_u16(idents.len() as u16);
        let mut i: usize = 0;
        while i < idents.len()
            invariant
                i <= idents@.len(),
                forall|k: int| 0 <= k < idents@.len() ==> (#[trigger] idents@[k])@.len() <= 255,
                self.out@ == old(self).out@ + u16_be(idents@.len() as u16) + idents_body(
                    idents@.take(i as int),
                ),
            decreases idents@.len() - i,
        {
            let id = idents[i].as_bytes();
            assert(idents@[i as int]@.len() <= 255);
            self.extend_u8(id.len() as u8);
            self.extend_bytes(id);
            self.extend_u8(0);
            assert(idents@.take(i + 1).drop_last() =~= idents@.take(i as int));
            i += 1;
            assert(self.out@ =~= old(self).out@ + u16_be(idents@.len() as u16) + idents_body(
                idents@.take(i as int),
            ));
        }
        assert(idents@.take(idents@.len() as int) =~= idents@);
    }

    fn push_consts(&mut self, consts: &[Val])
        requires
            consts@.len() <= 0xffff,
            forall|i: int| 0 <= i < consts@.len() ==> !(#[trigger] consts@[i] is B),
        ensures
            final(self).out@ == old(self).out@ + u16_be(consts@.len() as u16) + consts_body(consts@),
    {
        self.extend_u16(consts.len() as u16);
        let mut i: usize = 0;
        while i < consts.len()
            invariant
                i <= consts@.len(),
                forall|k: int| 0 <= k < consts@.len() ==> !(#[trigger] consts@[k] is B),
                self.out@ == old(self).out@ + u16_be(consts@.len() as u16) + consts_body(
                    consts@.take(i as int),
                ),
            decreases consts@.len() - i,
        {
            let cn = &consts[i];
            assert(!(consts@[i as int] is B));
            self.extend_u8(ser_ctn_type(cn));
            self.extend_val(cn);
            assert(consts@.take(i + 1).drop_last() =~= consts@.take(i as int));
            i += 1;
            assert(self.out@ =~= old(self).out@ + u16_be(consts@.len() as u16) + consts_body(
                consts@.take(i as int),
            ));
        }
        assert(consts@.take(consts@.len() as int) =~= consts@);
    }

    /// Joins all the blocks in one line, computing the relative jumps;
    /// writes the length of the code before it and a NUL after it.
    fn push_main(&mut self, blocks: &Vec<BasicBlock>)
        requires
            lowerable(blocks@),
        ensures
            final(self).out@ == old(self).out@ + main_bytes(blocks@),
    {
        let ghost bbs = blocks@;
        let lblocks = bb2lb(blocks);
        let len_idx = self.at();
        self.extend_u32(0);  // dummy for the length
        let x0 = self.at();
        let ghost pre = self.out@;
        proof {
            assert forall|k: int| 0 <= k < bbs.len() implies #[trigger] block_lowerable(bbs, k) by {}
            lemma_lowered_code(bbs, bbs.len() as int);
            lemma_offsets(bbs, 0, bbs.len() as int);
            lemma_shrink_sum_nonneg(bbs, 0, bbs.len() as int);
        }
        // emit all the lowered blocks, consuming them
        let n = lblocks.len();
        let mut lbs = lblocks;
        let mut rest: Vec<LowerBlock> = Vec::new();
        // take them in order: reverse once, then pop
        while lbs.len() > 0
            invariant
                rest@.len() + lbs@.len() == n,
                forall|k: int| 0 <= k < rest@.len() ==> #[trigger] rest@[k] == lblocks@[n - 1 - k],
                forall|k: int| 0 <= k < lbs@.len() ==> #[trigger] lbs@[k] == lblocks@[k],
            decreases lbs@.len(),
        {
            let lb = lbs.pop().unwrap();
            rest.push(lb);
        }
        let mut i: usize = 0;
        while rest.len() > 0
            invariant
                n == bbs.len(),
                i + rest@.len() == n,
                forall|k: int| 0 <= k < rest@.len() ==> #[trigger] rest@[k] == lblocks@[n - 1 - k],
                forall|k: int| 0 <= k < n ==> lb_matches(#[trigger] lblocks@[k], bbs, k),
                self.out@ == pre + lowered_code(bbs, i as int),
            decreases rest@.len(),
        {
            let lb = rest.pop().unwrap();
            assert(lb == lblocks@[i as int]);
            assert(lb_matches(lblocks@[i as int], bbs, i as int));
            let bytes = lb.into_bytes();
            self.extend_bytes(bytes.as_slice());
            i += 1;
            assert(self.out@ =~= pre + lowered_code(bbs, i as int));
        }
        let x1 = self.at();
        let len = (x1 - x0) as u32;
        let mut lenb: Vec<u8> = Vec::new();
        lenb.push((len / 0x100_0000) as u8);
        lenb.push((len / 0x1_0000 % 256) as u8);
        lenb.push((len / 256 % 256) as u8);
        lenb.push((len % 256) as u8);
        assert(lenb@ =~= u32_be(len));
        self.overwrite_at(lenb.as_slice(), len_idx);
        self.extend_u8(0);  // final NUL
        assert(self.out@ =~= old(self).out@ + main_bytes(bbs));
    }
}

/// The byte that tells the type of a constant in the pool.
fn ser_ctn_type(v: &Val) -> (r: u8)
    requires
        !(*v is B),
    ensures
        r == ctn_type_byte(*v),
{
    match v {
        Val::C(_) => 2,
        Val::N(_) => 3,
        Val::Z(_) => 4,
        Val::R(_) => 5,
        Val::B(_) => 0,
    }
}

/// The bytecode of a compiled program.
pub fn comp_into_bytes(c: &Compiler) -> (r: Vec<u8>)
    requires
        serializable(c.idents@, c.consts@, c.curr.blocks@),
    ensures
        r@ == program_bytes(c.idents@, c.consts@, c.curr.blocks@),
{
    Phil::transfart(c)
}

} // verus!
