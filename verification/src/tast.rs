use vstd::prelude::*;
use crate::asterix::{Type, Val, ord_negated};
use crate::util::DfString;

verus! {

// The typed AST.

/// The identifiers are indices in the program's table of names.
pub type IdfIdx = usize;

#[derive(Copy, Clone, Debug, PartialEq, Eq, Structural)]
pub enum UniOp {
    NEZ,
    NER,
    INR,
    NOB,
    NOC,
    NON,
}

pub const UNI_OP_COUNT: u8 = 6u8;

#[derive(Copy, Clone, Debug, PartialEq, Eq, Structural)]
pub enum BinOp {
    ADC,
    ADN,
    ADZ,
    ADR,
    SUZ,
    SUR,
    MUC,
    MUN,
    MUZ,
    MUR,
    DIN,
    DIR,
    MOC,
    MON,
    MOZ,  // MOZ is %Z \ %N
    ANB,
    ANC,
    ANN,
    IOB,
    IOC,
    ION,
    XOB,
    XOC,
    XON,
}

pub const BIN_OP_COUNT: u8 = 24u8;

// equality comparisons

#[derive(Copy, Clone, Debug, PartialEq, Eq, Structural)]
pub enum EquTyp {
    B,
    C,
    N,
    Z,
}

pub const EQU_TYP_COUNT: u8 = 4u8;

// order comparisons

/// The types which can be compared by order.
#[derive(Copy, Clone, Debug, PartialEq, Eq, Structural)]
pub enum OrdTyp {
    C,
    N,
    Z,
    R,
}

pub const ORD_TYP_COUNT: u8 = 4u8;

#[derive(Copy, Clone, Debug, PartialEq, Eq, Structural)]
pub struct OrdOp(pub crate::asterix::OrdOp, pub OrdTyp);

#[derive(Copy, Clone, Debug, PartialEq, Eq, Structural)]
pub struct EquOp(pub bool, pub EquTyp);

#[derive(Copy, Clone, Debug, PartialEq, Eq, Structural)]
pub enum CmpOp {
    Equ(EquOp),
    Ord(OrdOp),
}

/// The comparison that holds exactly where `c` does not.
pub open spec fn cmp_negated(c: CmpOp) -> CmpOp {
    match c {
        CmpOp::Equ(x) => CmpOp::Equ(EquOp(!x.0, x.1)),
        CmpOp::Ord(x) => CmpOp::Ord(OrdOp(ord_negated(x.0), x.1)),
    }
}

impl CmpOp {
    pub fn negated(&self) -> (r: Self)
        ensures
            r == cmp_negated(*self),
    {
        match self {
            CmpOp::Equ(x) => CmpOp::Equ(EquOp(!x.0, x.1)),
            CmpOp::Ord(x) => CmpOp::Ord(OrdOp(x.0.negated(), x.1)),
        }
    }
}

/// Negating a comparison twice gives it back, on the same type.
pub proof fn lemma_cmp_negated_involutive(c: CmpOp)
    ensures
        cmp_negated(cmp_negated(c)) == c,
        cmp_negated(c) is Equ <==> c is Equ,
{
}

#[derive(Debug)]
pub struct Expr {
    pub e: Expre,
    pub t: Type,
}

#[derive(Debug)]
pub enum Expre {
    Const(Val),
    Local(IdfIdx, usize),  // last is the depth of scopes
    BinOp(Box<Expr>, BinOp, Box<Expr>),
    UniOp(Box<Expr>, UniOp),
    CmpOp(Box<Expr>, Vec<(CmpOp, Expr)>),
    Tcast(Box<Expr>, Type),
    Array(Vec<Expr>),
}

#[derive(Debug)]
pub struct IfCase {
    pub cond: Expr,
    pub blok: Block,
}

#[derive(Debug)]
pub enum Loop {
    Inf(Block),
    Cdt(Block, Expr, Block),
}

#[derive(Debug)]
pub enum Stmt {
    Declar(IdfIdx, Expr),
    VarAss(IdfIdx, Expr, usize),  // last is the depth of scopes
    IfElse(IfCase, Vec<IfCase>, Option<Block>),
    Loooop(Loop),
}

pub type Block = Vec<Stmt>;

#[derive(Debug)]
pub struct Prog {
    pub idents: Vec<DfString>,
    pub main: Block,
}

} // verus!
