use vstd::prelude::*;
use crate::util::DfString;

verus! {

/// The fundamental types of values.
#[derive(Debug, Clone, Copy, PartialEq, Eq, Structural)]
pub enum Type {
    B,  // bool
    C,  // char
    N,  // natural
    Z,  // zahl
    R,  // real
}

/// The letter that names a type.
pub open spec fn type_letter(t: Type) -> u8 {
    match t {
        Type::B => 66,
        Type::C => 67,
        Type::N => 78,
        Type::Z => 90,
        Type::R => 82,
    }
}

impl Type {
    pub open spec fn spec_is_num(&self) -> bool {
        !(*self is B)
    }

    pub fn is_num(&self) -> (r: bool)
        ensures
            r == self.spec_is_num(),
    {
        !matches!(self, Type::B)
    }

    /// The letter that names the type: `B`, `C`, `N`, `Z` or `R`.
    pub fn letter(&self) -> (r: u8)
        ensures
            r == type_letter(*self),
    {
        match self {
            Type::B => 66u8,
            Type::C => 67u8,
            Type::N => 78u8,
            Type::Z => 90u8,
            Type::R => 82u8,
        }
    }

    /// The zero value of the type: false, 0 or 0.0.
    pub fn default_val(&self) -> (r: Val)
        ensures
            val_type(r) == *self,
            r == match *self {
                Type::B => Val::B(false),
                Type::C => Val::C(0),
                Type::N => Val::N(0),
                Type::Z => Val::Z(0),
                Type::R => Val::R(0),
            },
    {
        match self {
            Type::B => Val::B(false),
            Type::C => Val::C(0),
            Type::N => Val::N(0),
            Type::Z => Val::Z(0),
            Type::R => Val::R(0),
        }
    }

    /// The type of a value.
    pub fn from_val(v: &Val) -> (r: Type)
        ensures
            r == val_type(*v),
    {
        match v {
            Val::B(_) => Type::B,
            Val::C(_) => Type::C,
            Val::N(_) => Type::N,
            Val::Z(_) => Type::Z,
            Val::R(_) => Type::R,
        }
    }
}

pub const ESC_CH: u8 = 63u8;  // '?'

/// A value. A real is held as the bit pattern of its IEEE-754 double.
#[derive(Debug, Clone, Copy)]
pub enum Val {
    B(bool),
    C(u8),
    N(u32),
    Z(i32),
    R(u64),
}

/// The type of a value.
pub open spec fn val_type(v: Val) -> Type {
    match v {
        Val::B(_) => Type::B,
        Val::C(_) => Type::C,
        Val::N(_) => Type::N,
        Val::Z(_) => Type::Z,
        Val::R(_) => Type::R,
    }
}

/// Value equality: reals are never equal, not even to themselves.
pub open spec fn val_eq(a: Val, b: Val) -> bool {
    match (a, b) {
        (Val::B(x), Val::B(y)) => x == y,
        (Val::C(x), Val::C(y)) => x == y,
        (Val::N(x), Val::N(y)) => x == y,
        (Val::Z(x), Val::Z(y)) => x == y,
        _ => false,
    }
}

/// The byte that an escape sequence `?e` stands for.
pub open spec fn spec_escape_char(e: u8) -> Option<u8> {
    if e == 39 {
        Some(39u8)  // '
    } else if e == 34 {
        Some(34u8)  // "
    } else if e == 48 {
        Some(0u8)  // 0
    } else if e == 78 {
        Some(10u8)  // N
    } else if e == 82 {
        Some(13u8)  // R
    } else if e == 84 {
        Some(9u8)  // T
    } else if e == ESC_CH {
        Some(ESC_CH)
    } else {
        None
    }
}

impl Val {
    /// The byte that the escape sequence `?e` stands for.
    pub fn escape_char(e: u8) -> (r: Result<u8, ()>)
        ensures
            r matches Ok(c) ==> spec_escape_char(e) == Some(c),
            r is Err ==> spec_escape_char(e) is None,
    {
        match e {
            39u8 => Ok(39u8),
            34u8 => Ok(34u8),
            48u8 => Ok(0u8),
            78u8 => Ok(10u8),
            82u8 => Ok(13u8),
            84u8 => Ok(9u8),
            63u8 => Ok(ESC_CH),
            _ => Err(()),
        }
    }
}

impl PartialEq for Val {
    fn eq(&self, other: &Val) -> (r: bool) {
        match (self, other) {
            (Val::B(b), Val::B(c)) => *b == *c,
            (Val::C(c), Val::C(d)) => *c == *d,
            (Val::N(n), Val::N(m)) => *n == *m,
            (Val::Z(z), Val::Z(a)) => *z == *a,
            _ => false,
        }
    }
}

impl vstd::std_specs::cmp::PartialEqSpecImpl for Val {
    open spec fn obeys_eq_spec() -> bool {
        true
    }

    open spec fn eq_spec(&self, other: &Val) -> bool {
        val_eq(*self, *other)
    }
}

// AST stuff ------------------------------------

#[derive(Copy, Clone, Debug, PartialEq, Eq, Structural)]
pub enum UniOp {
    Neg,
    Inv,
    Not,
}

#[derive(Copy, Clone, Debug, PartialEq, Eq, Structural)]
pub enum BinOp {
    Add,
    Sub,
    Mul,
    Div,
    Mod,
    And,
    Ior,
    Xor,
    Typ,
}

impl BinOp {
    pub fn is_num(&self) -> (r: bool)
        ensures
            r == (*self is Add || *self is Sub || *self is Mul || *self is Div || *self is Mod),
    {
        matches!(self, BinOp::Add | BinOp::Sub | BinOp::Mul | BinOp::Div | BinOp::Mod)
    }

    pub fn is_bit(&self) -> (r: bool)
        ensures
            r == (*self is And || *self is Ior || *self is Xor),
    {
        matches!(self, BinOp::And | BinOp::Ior | BinOp::Xor)
    }
}

#[derive(Copy, Clone, Debug, PartialEq, Eq, Structural)]
pub enum OrdOp {
    Lt,
    Le,
    Gt,
    Ge,
}

/// The order relation that holds exactly where `o` does not.
pub open spec fn ord_negated(o: OrdOp) -> OrdOp {
    match o {
        OrdOp::Lt => OrdOp::Ge,
        OrdOp::Le => OrdOp::Gt,
        OrdOp::Gt => OrdOp::Le,
        OrdOp::Ge => OrdOp::Lt,
    }
}

/// Whether `a o b` holds of two integers.
pub open spec fn ord_holds(o: OrdOp, a: int, b: int) -> bool {
    match o {
        OrdOp::Lt => a < b,
        OrdOp::Le => a <= b,
        OrdOp::Gt => a > b,
        OrdOp::Ge => a >= b,
    }
}

impl OrdOp {
    pub fn negated(&self) -> (r: Self)
        ensures
            r == ord_negated(*self),
    {
        match self {
            OrdOp::Lt => OrdOp::Ge,
            OrdOp::Le => OrdOp::Gt,
            OrdOp::Gt => OrdOp::Le,
            OrdOp::Ge => OrdOp::Lt,
        }
    }
}

/// The negated order relation holds exactly where the relation does not,
/// and negating twice gives the relation back.
pub proof fn lemma_ord_negated(o: OrdOp, a: int, b: int)
    ensures
        ord_holds(ord_negated(o), a, b) == !ord_holds(o, a, b),
        ord_negated(ord_negated(o)) == o,
{
}

#[derive(Copy, Clone, Debug, PartialEq, Eq, Structural)]
pub enum CmpOp {
    Equ(bool),
    Ord(OrdOp),
}

/// Untyped expressions.
#[derive(Debug)]
pub enum Expr {
    Const(Val),
    Ident(DfString),
    BinOp(Box<Expr>, BinOp, Box<Expr>),
    UniOp(Box<Expr>, UniOp),
    CmpOp(Box<Expr>, Vec<(CmpOp, Expr)>),
}

#[derive(Debug)]
pub enum Loop {
    Inf(Block),
    Cdt(Block, Expr, Block),
}

#[derive(Debug)]
pub enum Stmt {
    Assign(Expr, Expr),
    Loooop(Loop),
}

pub type Block = Vec<Stmt>;

// AST with types, after semantic analysis

#[derive(Copy, Clone, Debug, PartialEq, Eq, Structural)]
pub enum UniOpWt {
    NEZ,
    NER,
    INR,
    NOB,
    NOC,
    NON,
}

#[derive(Copy, Clone, Debug, PartialEq, Eq, Structural)]
pub enum BinOpWt {
    ADC,
    ADN,
    ADZ,
    ADR,
    SUZ,
    SUR,
    MUC,
    MUN,
    MUZ,
    MUR,
    DIN,
    DIR,
    MOC,
    MON,
    MOZ,
    ANB,
    ANC,
    ANN,
    IOB,
    IOC,
    ION,
    XOB,
    XOC,
    XON,
}

// Types which can be compared for equality
#[derive(Copy, Clone, Debug, PartialEq, Eq, Structural)]
pub enum EquTyp {
    B,
    C,
    N,
    Z,
}

// Types which can be compared using OrdOps
#[derive(Copy, Clone, Debug, PartialEq, Eq, Structural)]
pub enum OrdTyp {
    C,
    N,
    Z,
    R,
}

pub const UNI_OP_WT_COUNT: u8 = 6u8;

pub const BIN_OP_WT_COUNT: u8 = 24u8;

pub const EQU_TYP_COUNT: u8 = 4u8;

pub const ORD_TYP_COUNT: u8 = 4u8;

#[derive(Copy, Clone, Debug, PartialEq, Eq, Structural)]
pub struct OrdOpWt(pub OrdOp, pub OrdTyp);

#[derive(Copy, Clone, Debug, PartialEq, Eq, Structural)]
pub struct EquOpWt(pub bool, pub EquTyp);

#[derive(Copy, Clone, Debug, PartialEq, Eq, Structural)]
pub enum CmpOpWt {
    Equ(EquOpWt),
    Ord(OrdOpWt),
}

/// The comparison that holds exactly where `c` does not.
pub open spec fn cmp_wt_negated(c: CmpOpWt) -> CmpOpWt {
    match c {
        CmpOpWt::Equ(x) => CmpOpWt::Equ(EquOpWt(!x.0, x.1)),
        CmpOpWt::Ord(x) => CmpOpWt::Ord(OrdOpWt(ord_negated(x.0), x.1)),
    }
}

impl CmpOpWt {
    pub fn negated(&self) -> (r: Self)
        ensures
            r == cmp_wt_negated(*self),
    {
        match self {
            CmpOpWt::Equ(x) => CmpOpWt::Equ(EquOpWt(!x.0, x.1)),
            CmpOpWt::Ord(x) => CmpOpWt::Ord(OrdOpWt(x.0.negated(), x.1)),
        }
    }
}

/// Negating a comparison twice gives it back, and keeps its operand type.
pub proof fn lemma_cmp_wt_negated_involutive(c: CmpOpWt)
    ensures
        cmp_wt_negated(cmp_wt_negated(c)) == c,
        cmp_wt_negated(c) is Equ <==> c is Equ,
{
}

#[derive(Debug)]
pub struct ExprWt {
    pub e: ExprWte,
    pub t: Type,
}

#[derive(Debug)]
pub enum ExprWte {
    Const(Val),
    Local(DfString, usize),  // last is depth of scopes
    BinOp(Box<ExprWt>, BinOpWt, Box<ExprWt>),
    UniOp(Box<ExprWt>, UniOpWt),
    CmpOp(Box<ExprWt>, Vec<(CmpOpWt, ExprWt)>),
    Tcast(Box<ExprWt>, Type),
}

#[derive(Debug)]
pub enum LoopWt {
    Inf(Vec<StmtWt>),
    Cdt(Vec<StmtWt>, ExprWt, Vec<StmtWt>),
}

#[derive(Debug)]
pub enum StmtWt {
    Declar(DfString, ExprWt),
    VarAss(DfString, ExprWt, usize),  // last is depth of scopes
    Loooop(LoopWt),
}

pub type BlockWt = Vec<StmtWt>;


/// Whether an expression holds no cast, and no more than one comparison in a
/// row.
pub open spec fn expr_no_casts(e: ExprWt) -> bool
    decreases e,
{
    match e.e {
        ExprWte::Tcast(_, _) => false,
        ExprWte::UniOp(x, _) => expr_no_casts(*x),
        ExprWte::BinOp(l, _, r) => expr_no_casts(*l) && expr_no_casts(*r),
        ExprWte::CmpOp(f, v) => expr_no_casts(*f) && v@.len() <= 1 && (v@.len() == 1 ==> expr_no_casts(v@[0].1)),
        _ => true,
    }
}

/// Whether a statement holds no cast.
pub open spec fn stmt_no_casts(s: StmtWt) -> bool
    decreases s, 0int,
{
    match s {
        StmtWt::Declar(_, e) => expr_no_casts(e),
        StmtWt::VarAss(_, e, _) => expr_no_casts(e),
        StmtWt::Loooop(l) => match l {
            LoopWt::Inf(b) => block_no_casts(b@, b@.len() as int),
            LoopWt::Cdt(b0, c, b1) => block_no_casts(b0@, b0@.len() as int) && expr_no_casts(c) && block_no_casts(
                b1@,
                b1@.len() as int,
            ),
        },
    }
}

/// Whether the first `n` statements of a block hold no cast.
pub open spec fn block_no_casts(b: Seq<StmtWt>, n: int) -> bool
    decreases b, n,
{
    if n <= 0 || n > b.len() {
        true
    } else {
        block_no_casts(b, n - 1) && stmt_no_casts(b[n - 1])
    }
}


/// The loops of a statement, nested ones included.
pub open spec fn stmt_loops(s: StmtWt) -> nat
    decreases s, 0int,
{
    match s {
        StmtWt::Loooop(l) => match l {
            LoopWt::Inf(b) => 1 + block_loops(b@, b@.len() as int),
            LoopWt::Cdt(b0, _, b1) => 1 + block_loops(b0@, b0@.len() as int) + block_loops(b1@, b1@.len() as int),
        },
        _ => 0,
    }
}

/// The loops of the first `n` statements of a block, nested ones included.
pub open spec fn block_loops(b: Seq<StmtWt>, n: int) -> nat
    decreases b, n,
{
    if n <= 0 || n > b.len() {
        0
    } else {
        block_loops(b, n - 1) + stmt_loops(b[n - 1])
    }
}

// What the typed operations do ----------------------------------------------------

/// The operator that a typed binary operation performs, read from its name:
/// AD add, SU subtract, MU multiply, DI divide, MO modulo, AN and, IO or,
/// XO exclusive or.
pub open spec fn binop_wt_kind(w: BinOpWt) -> BinOp {
    match w {
        BinOpWt::ADC | BinOpWt::ADN | BinOpWt::ADZ | BinOpWt::ADR => BinOp::Add,
        BinOpWt::SUZ | BinOpWt::SUR => BinOp::Sub,
        BinOpWt::MUC | BinOpWt::MUN | BinOpWt::MUZ | BinOpWt::MUR => BinOp::Mul,
        BinOpWt::DIN | BinOpWt::DIR => BinOp::Div,
        BinOpWt::MOC | BinOpWt::MON | BinOpWt::MOZ => BinOp::Mod,
        BinOpWt::ANB | BinOpWt::ANC | BinOpWt::ANN => BinOp::And,
        BinOpWt::IOB | BinOpWt::IOC | BinOpWt::ION => BinOp::Ior,
        BinOpWt::XOB | BinOpWt::XOC | BinOpWt::XON => BinOp::Xor,
    }
}

/// The type of the left operand of a typed binary operation, read from the
/// last letter of its name.
pub open spec fn binop_wt_ltype(w: BinOpWt) -> Type {
    match w {
        BinOpWt::ANB | BinOpWt::IOB | BinOpWt::XOB => Type::B,
        BinOpWt::ADC | BinOpWt::MUC | BinOpWt::MOC | BinOpWt::ANC | BinOpWt::IOC | BinOpWt::XOC => Type::C,
        BinOpWt::ADN | BinOpWt::MUN | BinOpWt::DIN | BinOpWt::MON | BinOpWt::ANN | BinOpWt::ION | BinOpWt::XON => Type::N,
        BinOpWt::ADZ | BinOpWt::SUZ | BinOpWt::MUZ | BinOpWt::MOZ => Type::Z,
        BinOpWt::ADR | BinOpWt::SUR | BinOpWt::MUR | BinOpWt::DIR => Type::R,
    }
}

/// The type of the right operand of a typed binary operation: that of the
/// left one, but for the modulo of a Z% by an N%.
pub open spec fn binop_wt_rtype(w: BinOpWt) -> Type {
    if w == BinOpWt::MOZ {
        Type::N
    } else {
        binop_wt_ltype(w)
    }
}

/// The operator that a typed unary operation performs: NE negate, IN
/// invert, NO not.
pub open spec fn uniop_wt_kind(w: UniOpWt) -> UniOp {
    match w {
        UniOpWt::NEZ | UniOpWt::NER => UniOp::Neg,
        UniOpWt::INR => UniOp::Inv,
        UniOpWt::NOB | UniOpWt::NOC | UniOpWt::NON => UniOp::Not,
    }
}

/// The type of the operand of a typed unary operation.
pub open spec fn uniop_wt_type(w: UniOpWt) -> Type {
    match w {
        UniOpWt::NOB => Type::B,
        UniOpWt::NOC => Type::C,
        UniOpWt::NON => Type::N,
        UniOpWt::NEZ => Type::Z,
        UniOpWt::NER | UniOpWt::INR => Type::R,
    }
}

/// The type that an equality compares.
pub open spec fn equ_typ_type(e: EquTyp) -> Type {
    match e {
        EquTyp::B => Type::B,
        EquTyp::C => Type::C,
        EquTyp::N => Type::N,
        EquTyp::Z => Type::Z,
    }
}

/// The type that an order compares.
pub open spec fn ord_typ_type(o: OrdTyp) -> Type {
    match o {
        OrdTyp::C => Type::C,
        OrdTyp::N => Type::N,
        OrdTyp::Z => Type::Z,
        OrdTyp::R => Type::R,
    }
}

/// Whether the typed comparison `c` holds between the values `a` and `b`:
/// an equality with `true` where they are equal, with `false` where they are
/// not; an order where the order holds.
pub open spec fn cmp_wt_holds(c: CmpOpWt, a: int, b: int) -> bool {
    match c {
        CmpOpWt::Equ(EquOpWt(eq, _)) => (a == b) == eq,
        CmpOpWt::Ord(OrdOpWt(o, _)) => ord_holds(o, a, b),
    }
}
} // verus!
