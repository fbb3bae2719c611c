use vstd::prelude::*;
use crate::asterix::{
    BinOp, BinOpWt, Block, BlockWt, CmpOp, CmpOpWt, EquOpWt, EquTyp, Expr, ExprWt, ExprWte, Loop, LoopWt,
    OrdOpWt, OrdTyp, Stmt, StmtWt, Type, UniOp, UniOpWt, Val, val_type, binop_wt_kind, binop_wt_ltype,
    binop_wt_rtype, uniop_wt_kind, uniop_wt_type, equ_typ_type, ord_typ_type,
};
use crate::util::{DfString, Stack, VecMap, name_get, name_set, names_of};

verus! {

// The types of the operations -------------------------------------------------

/// The typed operation and the result type of `lt op rt`, where there is one.
pub open spec fn binop_table(lt: Type, op: BinOp, rt: Type) -> Option<(BinOpWt, Type)> {
    match (op, lt, rt) {
        (BinOp::Add, Type::C, Type::C) => Some((BinOpWt::ADC, Type::C)),
        (BinOp::Add, Type::N, Type::N) => Some((BinOpWt::ADN, Type::N)),
        (BinOp::Add, Type::Z, Type::Z) => Some((BinOpWt::ADZ, Type::Z)),
        (BinOp::Add, Type::R, Type::R) => Some((BinOpWt::ADR, Type::R)),
        (BinOp::Sub, Type::Z, Type::Z) => Some((BinOpWt::SUZ, Type::Z)),
        (BinOp::Sub, Type::R, Type::R) => Some((BinOpWt::SUR, Type::R)),
        (BinOp::Mul, Type::C, Type::C) => Some((BinOpWt::MUC, Type::C)),
        (BinOp::Mul, Type::N, Type::N) => Some((BinOpWt::MUN, Type::N)),
        (BinOp::Mul, Type::Z, Type::Z) => Some((BinOpWt::MUZ, Type::Z)),
        (BinOp::Mul, Type::R, Type::R) => Some((BinOpWt::MUR, Type::R)),
        (BinOp::Div, Type::N, Type::N) => Some((BinOpWt::DIN, Type::N)),
        (BinOp::Div, Type::R, Type::R) => Some((BinOpWt::DIR, Type::R)),
        (BinOp::Mod, Type::C, Type::C) => Some((BinOpWt::MOC, Type::C)),
        (BinOp::Mod, Type::N, Type::N) => Some((BinOpWt::MON, Type::N)),
        (BinOp::Mod, Type::Z, Type::N) => Some((BinOpWt::MOZ, Type::N)),
        (BinOp::And, Type::B, Type::B) => Some((BinOpWt::ANB, Type::B)),
        (BinOp::And, Type::C, Type::C) => Some((BinOpWt::ANC, Type::C)),
        (BinOp::And, Type::N, Type::N) => Some((BinOpWt::ANN, Type::N)),
        (BinOp::Ior, Type::B, Type::B) => Some((BinOpWt::IOB, Type::B)),
        (BinOp::Ior, Type::C, Type::C) => Some((BinOpWt::IOC, Type::C)),
        (BinOp::Ior, Type::N, Type::N) => Some((BinOpWt::ION, Type::N)),
        (BinOp::Xor, Type::B, Type::B) => Some((BinOpWt::XOB, Type::B)),
        (BinOp::Xor, Type::C, Type::C) => Some((BinOpWt::XOC, Type::C)),
        (BinOp::Xor, Type::N, Type::N) => Some((BinOpWt::XON, Type::N)),
        _ => None,
    }
}

/// The typed operation and the result type of `lt op rt`; only the
/// operations of the table are known.
pub fn binop_types(lt: &Type, op: &BinOp, rt: &Type) -> (r: (BinOpWt, Type))
    requires
        binop_table(*lt, *op, *rt) is Some,
    ensures
        r == binop_table(*lt, *op, *rt)->Some_0,
{
    match op {
        BinOp::Add => match (lt, rt) {
            (Type::C, Type::C) => (BinOpWt::ADC, Type::C),
            (Type::N, Type::N) => (BinOpWt::ADN, Type::N),
            (Type::Z, Type::Z) => (BinOpWt::ADZ, Type::Z),
            _ => (BinOpWt::ADR, Type::R),
        },
        BinOp::Sub => match (lt, rt) {
            (Type::Z, Type::Z) => (BinOpWt::SUZ, Type::Z),
            _ => (BinOpWt::SUR, Type::R),
        },
        BinOp::Mul => match (lt, rt) {
            (Type::C, Type::C) => (BinOpWt::MUC, Type::C),
            (Type::N, Type::N) => (BinOpWt::MUN, Type::N),
            (Type::Z, Type::Z) => (BinOpWt::MUZ, Type::Z),
            _ => (BinOpWt::MUR, Type::R),
        },
        BinOp::Div => match (lt, rt) {
            (Type::N, Type::N) => (BinOpWt::DIN, Type::N),
            _ => (BinOpWt::DIR, Type::R),
        },
        BinOp::Mod => match (lt, rt) {
            (Type::C, Type::C) => (BinOpWt::MOC, Type::C),
            (Type::N, Type::N) => (BinOpWt::MON, Type::N),
            _ => (BinOpWt::MOZ, Type::N),
        },
        BinOp::And => match (lt, rt) {
            (Type::B, Type::B) => (BinOpWt::ANB, Type::B),
            (Type::C, Type::C) => (BinOpWt::ANC, Type::C),
            _ => (BinOpWt::ANN, Type::N),
        },
        BinOp::Ior => match (lt, rt) {
            (Type::B, Type::B) => (BinOpWt::IOB, Type::B),
            (Type::C, Type::C) => (BinOpWt::IOC, Type::C),
            _ => (BinOpWt::ION, Type::N),
        },
        BinOp::Xor => match (lt, rt) {
            (Type::B, Type::B) => (BinOpWt::XOB, Type::B),
            (Type::C, Type::C) => (BinOpWt::XOC, Type::C),
            _ => (BinOpWt::XON, Type::N),
        },
        BinOp::Typ => vstd::pervasive::unreached(),  // a cast is no binary operation
    }
}

/// The typed operation and the result type of `o t`, where there is one.
pub open spec fn uniop_table(t: Type, o: UniOp) -> Option<(UniOpWt, Type)> {
    match (o, t) {
        (UniOp::Neg, Type::Z) => Some((UniOpWt::NEZ, Type::Z)),
        (UniOp::Neg, Type::R) => Some((UniOpWt::NER, Type::R)),
        (UniOp::Inv, Type::R) => Some((UniOpWt::INR, Type::R)),
        (UniOp::Not, Type::B) => Some((UniOpWt::NOB, Type::B)),
        (UniOp::Not, Type::C) => Some((UniOpWt::NOC, Type::C)),
        (UniOp::Not, Type::N) => Some((UniOpWt::NON, Type::N)),
        _ => None,
    }
}

pub fn uniop_types(t: &Type, o: &UniOp) -> (r: (UniOpWt, Type))
    requires
        uniop_table(*t, *o) is Some,
    ensures
        r == uniop_table(*t, *o)->Some_0,
{
    match o {
        UniOp::Neg => match t {
            Type::Z => (UniOpWt::NEZ, Type::Z),
            _ => (UniOpWt::NER, Type::R),
        },
        UniOp::Inv => (UniOpWt::INR, Type::R),
        UniOp::Not => match t {
            Type::B => (UniOpWt::NOB, Type::B),
            Type::C => (UniOpWt::NOC, Type::C),
            _ => (UniOpWt::NON, Type::N),
        },
    }
}

/// The types that can be compared for equality.
pub open spec fn equ_typ(t: Type) -> Option<EquTyp> {
    match t {
        Type::B => Some(EquTyp::B),
        Type::C => Some(EquTyp::C),
        Type::N => Some(EquTyp::N),
        Type::Z => Some(EquTyp::Z),
        Type::R => None,
    }
}

/// The types that can be compared by order.
pub open spec fn ord_typ(t: Type) -> Option<OrdTyp> {
    match t {
        Type::C => Some(OrdTyp::C),
        Type::N => Some(OrdTyp::N),
        Type::Z => Some(OrdTyp::Z),
        Type::R => Some(OrdTyp::R),
        Type::B => None,
    }
}

impl EquTyp {
    pub fn try_from_type(t: &Type) -> (r: Result<EquTyp, ()>)
        ensures
            match equ_typ(*t) {
                Some(e) => r == Ok::<EquTyp, ()>(e),
                None => r is Err,
            },
    {
        match t {
            Type::B => Ok(EquTyp::B),
            Type::C => Ok(EquTyp::C),
            Type::N => Ok(EquTyp::N),
            Type::Z => Ok(EquTyp::Z),
            _ => Err(()),
        }
    }
}

impl OrdTyp {
    pub fn try_from_type(t: &Type) -> (r: Result<OrdTyp, ()>)
        ensures
            match ord_typ(*t) {
                Some(o) => r == Ok::<OrdTyp, ()>(o),
                None => r is Err,
            },
    {
        match t {
            Type::C => Ok(OrdTyp::C),
            Type::N => Ok(OrdTyp::N),
            Type::Z => Ok(OrdTyp::Z),
            Type::R => Ok(OrdTyp::R),
            _ => Err(()),
        }
    }
}

/// Whether values of type `t` can be compared by `o`.
pub open spec fn cmpop_ok(t: Type, o: CmpOp) -> bool {
    match o {
        CmpOp::Equ(_) => equ_typ(t) is Some,
        CmpOp::Ord(_) => ord_typ(t) is Some,
    }
}

/// The typed comparison `o` on values of type `t`.
pub open spec fn cmpop_typed(t: Type, o: CmpOp) -> CmpOpWt {
    match o {
        CmpOp::Equ(b) => CmpOpWt::Equ(EquOpWt(b, equ_typ(t)->Some_0)),
        CmpOp::Ord(x) => CmpOpWt::Ord(OrdOpWt(x, ord_typ(t)->Some_0)),
    }
}

pub fn cmpop_types(t: &Type, o: &CmpOp) -> (r: CmpOpWt)
    requires
        cmpop_ok(*t, *o),
    ensures
        r == cmpop_typed(*t, *o),
{
    match o {
        CmpOp::Equ(b) => CmpOpWt::Equ(EquOpWt(*b, EquTyp::try_from_type(t).unwrap())),
        CmpOp::Ord(x) => CmpOpWt::Ord(OrdOpWt(*x, OrdTyp::try_from_type(t).unwrap())),
    }
}

// Scopes -----------------------------------------------------------------------

/// The variables of a scope, by name, with their types.
pub type SaScope = Seq<(Seq<u8>, Type)>;

/// The type of `k` in a scope.
pub open spec fn sc_type(s: SaScope, k: Seq<u8>) -> Option<Type> {
    name_get(s, k)
}

/// The scope with `k` bound to `t`: its first binding changed, or a new one.
pub open spec fn sc_set(s: SaScope, k: Seq<u8>, t: Type) -> SaScope {
    name_set(s, k, t)
}

/// The depth and type of the variable `k` in the innermost scope, last, that
/// binds it.
pub open spec fn sa_find(scs: Seq<SaScope>, k: Seq<u8>) -> Option<(usize, Type)>
    decreases scs.len(),
{
    if scs.len() == 0 {
        None
    } else {
        match sc_type(scs.last(), k) {
            Some(t) => Some((0usize, t)),
            None => match sa_find(scs.drop_last(), k) {
                Some((d, t)) => Some(((d + 1) as usize, t)),
                None => None,
            },
        }
    }
}

/// The names of a map, by their bytes.
pub open spec fn sc_model(m: Seq<(DfString, Type)>) -> SaScope {
    names_of(m)
}

/// The name that a cast's type is written with.
pub open spec fn cast_type(n: Seq<u8>) -> Option<Type> {
    if n == seq![78u8] {
        Some(Type::N)
    } else if n == seq![90u8] {
        Some(Type::Z)
    } else if n == seq![82u8] {
        Some(Type::R)
    } else {
        None
    }
}

// Typing ------------------------------------------------------------------------

pub open spec fn sa_expr_size(e: Expr) -> nat
    decreases e,
{
    match e {
        Expr::UniOp(x, _) => 1 + sa_expr_size(*x),
        Expr::BinOp(l, _, r) => 1 + sa_expr_size(*l) + sa_expr_size(*r),
        Expr::CmpOp(f, v) => 1 + sa_expr_size(*f) + if v@.len() >= 1 {
            sa_expr_size(v@[0].1)
        } else {
            0
        },
        _ => 1,
    }
}

/// The type of an expression in these scopes, or nothing where the analysis
/// does not take it: an unknown variable or operation, a cast to another type
/// than N, Z or R, two operands of a comparison of different types, or more
/// than one comparison.
pub open spec fn expr_type(e: Expr, scs: Seq<SaScope>) -> Option<Type>
    decreases e,
{
    match e {
        Expr::Const(v) => Some(val_type(v)),
        Expr::Ident(n) => match sa_find(scs, n@) {
            Some((_, t)) => Some(t),
            None => None,
        },
        Expr::UniOp(x, o) => match expr_type(*x, scs) {
            Some(t) => match uniop_table(t, o) {
                Some((_, rt)) => Some(rt),
                None => None,
            },
            None => None,
        },
        Expr::BinOp(l, o, r) => if o == BinOp::Typ {
            match (expr_type(*l, scs), *r) {
                (Some(_), Expr::Ident(n)) => cast_type(n@),
                _ => None,
            }
        } else {
            match (expr_type(*l, scs), expr_type(*r, scs)) {
                (Some(lt), Some(rt)) => match binop_table(lt, o, rt) {
                    Some((_, t)) => Some(t),
                    None => None,
                },
                _ => None,
            }
        },
        Expr::CmpOp(f, v) => if v@.len() == 0 {
            expr_type(*f, scs)
        } else if v@.len() == 1 {
            match (expr_type(*f, scs), expr_type(v@[0].1, scs)) {
                (Some(ft), Some(gt)) => if ft == gt && cmpop_ok(ft, v@[0].0) {
                    Some(Type::B)
                } else {
                    None
                },
                _ => None,
            }
        } else {
            None
        },
    }
}

/// `w` is the typed expression of `e`.
pub open spec fn typed(e: Expr, scs: Seq<SaScope>, w: ExprWt) -> bool
    decreases e,
{
    &&& expr_type(e, scs) == Some(w.t)
    &&& match e {
        Expr::Const(v) => w.e == ExprWte::Const(v),
        Expr::Ident(n) => match w.e {
            ExprWte::Local(m, d) => m@ == n@ && sa_find(scs, n@) == Some((d, w.t)),
            _ => false,
        },
        Expr::UniOp(x, o) => match w.e {
            ExprWte::UniOp(wx, ow) => typed(*x, scs, *wx) && uniop_table(wx.t, o) == Some((ow, w.t)),
            _ => false,
        },
        Expr::BinOp(l, o, r) => if o == BinOp::Typ {
            match w.e {
                ExprWte::Tcast(wl, t) => typed(*l, scs, *wl) && t == w.t,
                _ => false,
            }
        } else {
            match w.e {
                ExprWte::BinOp(wl, ow, wr) => typed(*l, scs, *wl) && typed(*r, scs, *wr) && binop_table(wl.t, o, wr.t)
                    == Some((ow, w.t)),
                _ => false,
            }
        },
        Expr::CmpOp(f, v) => if v@.len() == 0 {
            typed(*f, scs, w)
        } else {
            match w.e {
                ExprWte::CmpOp(wf, wv) => wv@.len() == 1 && typed(*f, scs, *wf) && typed(v@[0].1, scs, wv@[0].1)
                    && wv@[0].0 == cmpop_typed(wf.t, v@[0].0),
                _ => false,
            }
        },
    }
}

/// The scopes after a statement, or nothing where the analysis does not take
/// it. An assignment to a variable of the same type found in some scope
/// assigns it there; any other assignment declares the variable, with the
/// new type, in the current scope.
pub open spec fn stmt_sa(s: Stmt, scs: Seq<SaScope>) -> Option<Seq<SaScope>>
    decreases s, 0int,
{
    if scs.len() == 0 {
        None
    } else {
        match s {
            Stmt::Assign(a, e) => match (a, expr_type(e, scs)) {
                (Expr::Ident(n), Some(t)) => match sa_find(scs, n@) {
                    Some((_, t2)) => if t2 == t {
                        Some(scs)
                    } else {
                        Some(scs.update(scs.len() - 1, sc_set(scs.last(), n@, t)))
                    },
                    None => Some(scs.update(scs.len() - 1, sc_set(scs.last(), n@, t))),
                },
                _ => None,
            },
            Stmt::Loooop(l) => match l {
                Loop::Inf(b) => match block_sa(b@, b@.len() as int, scs.push(seq![])) {
                    Some(_) => Some(scs),
                    None => None,
                },
                Loop::Cdt(b0, c, b1) => match block_sa(b0@, b0@.len() as int, scs.push(seq![])) {
                    Some(s1) => if expr_type(c, s1) == Some(Type::B) {
                        match block_sa(b1@, b1@.len() as int, s1) {
                            Some(_) => Some(scs),
                            None => None,
                        }
                    } else {
                        None
                    },
                    None => None,
                },
            },
        }
    }
}

/// The scopes after the first `n` statements of a block.
pub open spec fn block_sa(b: Seq<Stmt>, n: int, scs: Seq<SaScope>) -> Option<Seq<SaScope>>
    decreases b, n,
{
    if n <= 0 || n > b.len() {
        Some(scs)
    } else {
        match block_sa(b, n - 1, scs) {
            Some(t) => stmt_sa(b[n - 1], t),
            None => None,
        }
    }
}

/// `w` is the typed statement of `s`.
pub open spec fn typed_stmt(s: Stmt, scs: Seq<SaScope>, w: StmtWt) -> bool
    decreases s, 0int,
{
    match s {
        Stmt::Assign(a, e) => match (a, expr_type(e, scs)) {
            (Expr::Ident(n), Some(t)) => match sa_find(scs, n@) {
                Some((d, t2)) if t2 == t => match w {
                    StmtWt::VarAss(m, we, dd) => m@ == n@ && dd == d && typed(e, scs, we),
                    _ => false,
                },
                _ => match w {
                    StmtWt::Declar(m, we) => m@ == n@ && typed(e, scs, we),
                    _ => false,
                },
            },
            _ => false,
        },
        Stmt::Loooop(l) => match (l, w) {
            (Loop::Inf(b), StmtWt::Loooop(LoopWt::Inf(wb))) => typed_block(b@, b@.len() as int, scs.push(seq![]), wb@),
            (Loop::Cdt(b0, c, b1), StmtWt::Loooop(LoopWt::Cdt(wb0, wc, wb1))) => {
                let s0 = scs.push(seq![]);
                &&& typed_block(b0@, b0@.len() as int, s0, wb0@)
                &&& block_sa(b0@, b0@.len() as int, s0) is Some
                &&& typed(c, block_sa(b0@, b0@.len() as int, s0)->Some_0, wc)
                &&& typed_block(b1@, b1@.len() as int, block_sa(b0@, b0@.len() as int, s0)->Some_0, wb1@)
            },
            _ => false,
        },
    }
}

/// `wb` is the typed block of the first `n` statements of `b`.
pub open spec fn typed_block(b: Seq<Stmt>, n: int, scs: Seq<SaScope>, wb: Seq<StmtWt>) -> bool
    decreases b, n,
{
    if n <= 0 || n > b.len() {
        wb.len() == 0
    } else {
        &&& wb.len() == n
        &&& typed_block(b, n - 1, scs, wb.drop_last())
        &&& block_sa(b, n - 1, scs) is Some
        &&& typed_stmt(b[n - 1], block_sa(b, n - 1, scs)->Some_0, wb.last())
    }
}

/// Whether the analysis takes a program. Its main block has a scope of its
/// own inside the outermost one.
pub open spec fn analyzable(main: Seq<Stmt>) -> bool {
    block_sa(main, main.len() as int, seq![seq![], seq![]]) is Some
}

// The analysis ------------------------------------------------------------------

proof fn lemma_sa_find_at(scs: Seq<SaScope>, k: Seq<u8>, j: int)
    requires
        0 <= j < scs.len(),
        forall|m: int| 0 <= m < j ==> (#[trigger] sc_type(scs[scs.len() - 1 - m], k)) is None,
        sc_type(scs[scs.len() - 1 - j], k) is Some,
        j <= usize::MAX,
    ensures
        sa_find(scs, k) == Some((j as usize, sc_type(scs[scs.len() - 1 - j], k)->Some_0)),
    decreases j,
{
    assert(scs[scs.len() - 1] == scs.last());
    if j > 0 {
        let t = scs.drop_last();
        assert(sc_type(scs[scs.len() - 1 - 0], k) is None);
        assert forall|m: int| 0 <= m < j - 1 implies (#[trigger] sc_type(t[t.len() - 1 - m], k)) is None by {
            assert(t[t.len() - 1 - m] == scs[scs.len() - 1 - (m + 1)]);
        }
        assert(t[t.len() - 1 - (j - 1)] == scs[scs.len() - 1 - j]);
        lemma_sa_find_at(t, k, j - 1);
    }
}

proof fn lemma_sa_find_none(scs: Seq<SaScope>, k: Seq<u8>)
    requires
        forall|m: int| 0 <= m < scs.len() ==> (#[trigger] sc_type(scs[scs.len() - 1 - m], k)) is None,
    ensures
        sa_find(scs, k) is None,
    decreases scs.len(),
{
    if scs.len() > 0 {
        let t = scs.drop_last();
        assert(sc_type(scs[scs.len() - 1 - 0], k) is None);
        assert forall|m: int| 0 <= m < t.len() implies (#[trigger] sc_type(t[t.len() - 1 - m], k)) is None by {
            assert(t[t.len() - 1 - m] == scs[scs.len() - 1 - (m + 1)]);
        }
        lemma_sa_find_none(t, k);
    }
}

/// A block keeps the number of scopes and all the enclosing scopes.
pub(crate) proof fn lemma_block_sa_frame(b: Seq<Stmt>, n: int, scs: Seq<SaScope>)
    requires
        block_sa(b, n, scs) is Some,
    ensures
        block_sa(b, n, scs)->Some_0.len() == scs.len(),
        forall|i: int| 0 <= i < scs.len() - 1 ==> #[trigger] block_sa(b, n, scs)->Some_0[i] == scs[i],
    decreases n,
{
    if 0 < n <= b.len() {
        lemma_block_sa_frame(b, n - 1, scs);
        lemma_stmt_sa_frame(b[n - 1], block_sa(b, n - 1, scs)->Some_0);
    }
}

/// A statement keeps the number of scopes and all the enclosing scopes.
proof fn lemma_stmt_sa_frame(s: Stmt, scs: Seq<SaScope>)
    requires
        stmt_sa(s, scs) is Some,
    ensures
        stmt_sa(s, scs)->Some_0.len() == scs.len(),
        forall|i: int| 0 <= i < scs.len() - 1 ==> #[trigger] stmt_sa(s, scs)->Some_0[i] == scs[i],
{
}

pub(crate) proof fn lemma_block_sa_prefix(b: Seq<Stmt>, n: int, i: int, scs: Seq<SaScope>)
    requires
        block_sa(b, n, scs) is Some,
        0 <= i <= n <= b.len(),
    ensures
        block_sa(b, i, scs) is Some,
    decreases n,
{
    if i < n {
        lemma_block_sa_prefix(b, n - 1, i, scs);
    }
}

/// The variables and their types, scope by scope.
type Idf2Typ = VecMap<DfString, Type>;

/// Semantic analysis: type checking and the resolution of names.
struct SemAnal {
    envs: Stack<Idf2Typ>,  // all the enclosing scopes
    curr: Idf2Typ,  // the innermost scope
}

/// Type checks a program and resolves its names.
pub fn semanalize(main: Block) -> (r: BlockWt)
    requires
        analyzable(main@),
    ensures
        typed_block(main@, main@.len() as int, seq![seq![], seq![]], r@),
{
    let mut sa = SemAnal { envs: Stack::default(), curr: VecMap::new() };
    proof {
        assert(sc_model(sa.curr@) =~= Seq::<(Seq<u8>, Type)>::empty());
        assert(sa.scopes() =~= seq![Seq::<(Seq<u8>, Type)>::empty()]);
        let e = Seq::<(Seq<u8>, Type)>::empty();
        assert(sa.scopes().push(seq![]) =~= seq![e, e]);
        assert(seq![e, e] =~= seq![seq![], seq![]]);
    }
    sa.p_block(main)
}

impl SemAnal {
    spec fn scopes(&self) -> Seq<SaScope> {
        self.envs@.map_values(|m: Idf2Typ| sc_model(m@)).push(sc_model(self.curr@))
    }

    fn init_scope(&mut self)
        ensures
            final(self).scopes() == old(self).scopes().push(seq![]),
    {
        let mut fresh: Idf2Typ = VecMap::new();
        core::mem::swap(&mut self.curr, &mut fresh);
        self.envs.push(fresh);
        proof {
            assert(sc_model(self.curr@) =~= Seq::<(Seq<u8>, Type)>::empty());
            assert(self.scopes() =~= old(self).scopes().push(seq![]));
        }
    }

    fn exit_scope(&mut self)
        requires
            old(self).envs@.len() > 0,
        ensures
            final(self).scopes() == old(self).scopes().drop_last(),
    {
        self.curr = self.envs.pop().unwrap();
        proof {
            assert(self.scopes() =~= old(self).scopes().drop_last());
        }
    }

    /// The type of `i` in the scope `m`.
    fn scope_type(m: &Idf2Typ, i: &DfString) -> (r: Option<Type>)
        ensures
            r == sc_type(sc_model(m@), i@),
    {
        m.get_name(i)
    }

    /// The depth and type of the variable `i`, from the innermost scope out.
    fn find(&self, i: &DfString) -> (r: Option<(usize, Type)>)
        ensures
            r == sa_find(self.scopes(), i@),
    {
        let ghost scs = self.scopes();
        if let Some(t) = Self::scope_type(&self.curr, i) {
            proof {
                lemma_sa_find_at(scs, i@, 0);
            }
            return Some((0, t));
        }
        let n = self.envs.len();
        let mut k: usize = 0;
        while k < n
            invariant
                n == self.envs@.len(),
                scs == self.scopes(),
                k <= n,
                forall|m: int| 0 <= m <= k ==> (#[trigger] sc_type(scs[scs.len() - 1 - m], i@)) is None,
            decreases n - k,
        {
            let env = self.envs.peek(k).unwrap();
            proof {
                assert(scs[scs.len() - 1 - (k + 1)] == sc_model(env@));
            }
            if let Some(t) = Self::scope_type(env, i) {
                proof {
                    lemma_sa_find_at(scs, i@, k + 1);
                }
                return Some((k + 1, t));
            }
            k += 1;
        }
        proof {
            lemma_sa_find_none(scs, i@);
        }
        None
    }

    /// Binds `i` to `t` in the current scope.
    fn set_curr(&mut self, i: &DfString, t: Type)
        ensures
            final(self).scopes() == old(self).scopes().update(
                old(self).scopes().len() - 1,
                sc_set(old(self).scopes().last(), i@, t),
            ),
    {
        self.curr.set_name(i, t);
        proof {
            assert(self.scopes() =~= old(self).scopes().update(
                old(self).scopes().len() - 1,
                sc_set(old(self).scopes().last(), i@, t),
            ));
        }
    }

    // the grammar

    fn no_env_block(&mut self, b: Block, Ghost(gb): Ghost<Seq<Stmt>>) -> (r: BlockWt)
        requires
            gb == b@,
            block_sa(b@, b@.len() as int, old(self).scopes()) is Some,
        ensures
            typed_block(gb, gb.len() as int, old(self).scopes(), r@),
            final(self).scopes() == block_sa(gb, gb.len() as int, old(self).scopes())->Some_0,
        decreases gb, 1nat,
    {
        let ghost scs0 = self.scopes();
        let n = b.len();
        let mut out: Vec<StmtWt> = Vec::new();
        let mut rest = b;
        let mut i: usize = 0;
        while rest.len() > 0
            invariant
                out@.len() == i,
                i + rest@.len() == n,
                n == gb.len(),
                rest@ == gb.skip(i as int),
                typed_block(gb, i as int, scs0, out@),
                block_sa(gb, i as int, scs0) == Some(self.scopes()),
                block_sa(gb, gb.len() as int, scs0) is Some,
            decreases rest@.len(),
        {
            proof {
                lemma_block_sa_prefix(gb, gb.len() as int, i + 1, scs0);
            }
            let s = rest.remove(0);
            assert(s == gb[i as int]);
            proof {
                assert(decreases_to!(gb => gb[i as int]));
            }
            let w = self.p_stmt(s);
            let ghost o = out@;
            out.push(w);
            i += 1;
            proof {
                assert(out@.drop_last() =~= o);
                assert(rest@ =~= gb.skip(i as int));
            }
        }
        out
    }

    fn p_block(&mut self, b: Block) -> (r: BlockWt)
        requires
            block_sa(b@, b@.len() as int, old(self).scopes().push(seq![])) is Some,
        ensures
            typed_block(b@, b@.len() as int, old(self).scopes().push(seq![]), r@),
            final(self).scopes() == old(self).scopes(),
        decreases b, 2nat,
    {
        let ghost scs0 = self.scopes();
        self.init_scope();
        proof {
            assert(decreases_to!(b => b@));
        }
        let b_wt = self.no_env_block(b, Ghost(b@));
        proof {
            lemma_block_sa_frame(b@, b@.len() as int, scs0.push(seq![]));
        }
        self.exit_scope();
        proof {
            assert(self.scopes() =~= scs0);
        }
        b_wt
    }

    fn p_stmt(&mut self, s: Stmt) -> (r: StmtWt)
        requires
            stmt_sa(s, old(self).scopes()) is Some,
        ensures
            typed_stmt(s, old(self).scopes(), r),
            final(self).scopes() == stmt_sa(s, old(self).scopes())->Some_0,
        decreases s, 0nat,
    {
        match s {
            Stmt::Assign(a, e) => self.p_s_assign(a, e),
            Stmt::Loooop(l) => self.p_s_loooop(l),
        }
    }

    fn p_s_assign(&mut self, a: Expr, e: Expr) -> (r: StmtWt)
        requires
            stmt_sa(Stmt::Assign(a, e), old(self).scopes()) is Some,
        ensures
            typed_stmt(Stmt::Assign(a, e), old(self).scopes(), r),
            final(self).scopes() == stmt_sa(Stmt::Assign(a, e), old(self).scopes())->Some_0,
    {
        let ghost ee = e;
        let e_wt = self.p_expr(e);
        match a {
            Expr::Ident(i) => self.p_s_varass(i, e_wt),
            _ => vstd::pervasive::unreached(),  // only variables are assigned to
        }
    }

    // On variable shadowing:
    // if `i` is found in some scope, the innermost, with the same type, it is a
    // normal assignment to that `i`; else `i` is declared in the current scope,
    // with the new type, overwriting or shadowing any other `i`.
    fn p_s_varass(&mut self, i: DfString, e: ExprWt) -> (r: StmtWt)
        requires
            old(self).scopes().len() > 0,
        ensures
            match sa_find(old(self).scopes(), i@) {
                Some((d, t2)) if t2 == e.t => {
                    &&& r == StmtWt::VarAss(i, e, d)
                    &&& final(self).scopes() == old(self).scopes()
                },
                _ => {
                    &&& r == StmtWt::Declar(i, e)
                    &&& final(self).scopes() == old(self).scopes().update(
                        old(self).scopes().len() - 1,
                        sc_set(old(self).scopes().last(), i@, e.t),
                    )
                },
            },
    {
        if let Some((depth, t)) = self.find(&i) {
            // as soon as it finds one, return
            if t == e.t {
                return StmtWt::VarAss(i, e, depth);
            }
        }
        // declare
        self.set_curr(&i, e.t);
        StmtWt::Declar(i, e)
    }

    fn p_s_loooop(&mut self, l: Loop) -> (r: StmtWt)
        requires
            stmt_sa(Stmt::Loooop(l), old(self).scopes()) is Some,
        ensures
            typed_stmt(Stmt::Loooop(l), old(self).scopes(), r),
            final(self).scopes() == old(self).scopes(),
        decreases l, 3nat,
    {
        let ghost l0 = l;
        let res = match l {
            Loop::Inf(b) => self.p_s_loop_inf(b),
            Loop::Cdt(a, c, b) => self.p_s_loop_cdt(a, c, b, Ghost(l0)),
        };
        StmtWt::Loooop(res)
    }

    fn p_s_loop_inf(&mut self, b: Block) -> (r: LoopWt)
        requires
            block_sa(b@, b@.len() as int, old(self).scopes().push(seq![])) is Some,
        ensures
            r matches LoopWt::Inf(wb) && typed_block(b@, b@.len() as int, old(self).scopes().push(seq![]), wb@),
            final(self).scopes() == old(self).scopes(),
        decreases b, 3nat,
    {
        LoopWt::Inf(self.p_block(b))
    }

    fn p_s_loop_cdt(&mut self, b0: Block, cd: Expr, b1: Block, Ghost(l): Ghost<Loop>) -> (r: LoopWt)
        requires
            l == Loop::Cdt(b0, cd, b1),
            stmt_sa(Stmt::Loooop(l), old(self).scopes()) is Some,
        ensures
            typed_stmt(Stmt::Loooop(l), old(self).scopes(), StmtWt::Loooop(r)),
            final(self).scopes() == old(self).scopes(),
        decreases l, 2nat,
    {
        proof {
            assert(decreases_to!(l => l->Cdt_0));
            assert(decreases_to!(l => l->Cdt_2));
            assert(decreases_to!(l->Cdt_0 => l->Cdt_0@));
            assert(decreases_to!(l->Cdt_2 => l->Cdt_2@));
        }
        let ghost scs0 = self.scopes();
        self.init_scope();
        let ghost bb0 = b0;
        let ghost bb1 = b1;
        let b0_wt = self.no_env_block(b0, Ghost(bb0@));
        let ghost s1 = self.scopes();
        let cd_wt = self.p_expr(cd);
        if cd_wt.t != Type::B {
            // the condition of a loop must be a B%
            proof {
                assert(false);
            }
        }
        let b1_wt = self.no_env_block(b1, Ghost(bb1@));
        proof {
            lemma_block_sa_frame(bb0@, bb0@.len() as int, scs0.push(seq![]));
            lemma_block_sa_frame(bb1@, bb1@.len() as int, s1);
        }
        self.exit_scope();
        proof {
            assert(self.scopes() =~= scs0);
        }
        LoopWt::Cdt(b0_wt, cd_wt, b1_wt)
    }

    fn p_expr(&mut self, e: Expr) -> (r: ExprWt)
        requires
            expr_type(e, old(self).scopes()) is Some,
        ensures
            typed(e, old(self).scopes(), r),
            *final(self) == *old(self),
        decreases sa_expr_size(e), 2nat,
    {
        match e {
            Expr::Const(v) => Self::e_const(v),
            Expr::Ident(i) => self.e_ident(i),
            Expr::UniOp(e, o) => self.e_uniop(*e, o),
            Expr::BinOp(l, o, r) => self.e_binop(*l, o, *r),
            Expr::CmpOp(f, v) => self.e_cmpop(*f, v),
        }
    }

    fn e_const(c: Val) -> (r: ExprWt)
        ensures
            r == (ExprWt { e: ExprWte::Const(c), t: val_type(c) }),
    {
        let t = Type::from_val(&c);
        ExprWt { e: ExprWte::Const(c), t: t }
    }

    fn e_ident(&mut self, i: DfString) -> (r: ExprWt)
        requires
            sa_find(old(self).scopes(), i@) is Some,
        ensures
            r == (ExprWt {
                e: ExprWte::Local(i, sa_find(old(self).scopes(), i@)->Some_0.0),
                t: sa_find(old(self).scopes(), i@)->Some_0.1,
            }),
            *final(self) == *old(self),
    {
        match self.find(&i) {
            Some((dep, t)) => ExprWt { e: ExprWte::Local(i, dep), t: t },
            None => vstd::pervasive::unreached(),  // every name is resolved
        }
    }

    fn e_uniop(&mut self, e: Expr, o: UniOp) -> (r: ExprWt)
        requires
            expr_type(Expr::UniOp(Box::new(e), o), old(self).scopes()) is Some,
        ensures
            typed(Expr::UniOp(Box::new(e), o), old(self).scopes(), r),
            *final(self) == *old(self),
        decreases sa_expr_size(e) + 1, 1nat,
    {
        let e_wt = self.p_expr(e);
        let (o_wt, t) = uniop_types(&e_wt.t, &o);
        ExprWt { e: ExprWte::UniOp(Box::new(e_wt), o_wt), t: t }
    }

    fn e_binop(&mut self, l: Expr, o: BinOp, r: Expr) -> (res: ExprWt)
        requires
            expr_type(Expr::BinOp(Box::new(l), o, Box::new(r)), old(self).scopes()) is Some,
        ensures
            typed(Expr::BinOp(Box::new(l), o, Box::new(r)), old(self).scopes(), res),
            *final(self) == *old(self),
        decreases sa_expr_size(l) + sa_expr_size(r) + 1, 1nat,
    {
        if o == BinOp::Typ {
            return self.e_tcast(l, r);
        }
        let l_wt = self.p_expr(l);
        let r_wt = self.p_expr(r);
        let (o_wt, t) = binop_types(&l_wt.t, &o, &r_wt.t);
        ExprWt { e: ExprWte::BinOp(Box::new(l_wt), o_wt, Box::new(r_wt)), t: t }
    }

    fn e_tcast(&mut self, ex: Expr, ty: Expr) -> (r: ExprWt)
        requires
            expr_type(Expr::BinOp(Box::new(ex), BinOp::Typ, Box::new(ty)), old(self).scopes()) is Some,
        ensures
            typed(Expr::BinOp(Box::new(ex), BinOp::Typ, Box::new(ty)), old(self).scopes(), r),
            *final(self) == *old(self),
        decreases sa_expr_size(ex) + sa_expr_size(ty) + 1, 0nat,
    {
        let ex_wt = self.p_expr(ex);
        let ghost tyg = ty;
        let typ: Type = match ty {
            Expr::Ident(i) => {
                let b = i.as_bytes();
                if b.len() == 1 && b[0] == 78 {
                    Type::N
                } else if b.len() == 1 && b[0] == 90 {
                    Type::Z
                } else {
                    proof {
                        assert(b@ =~= seq![82u8]);
                    }
                    Type::R
                }
            },
            _ => vstd::pervasive::unreached(),  // the type of a cast is a name
        };
        proof {
            if let Expr::Ident(i) = tyg {
                if i@.len() == 1 && i@[0] == 78 {
                    assert(i@ =~= seq![78u8]);
                } else if i@.len() == 1 && i@[0] == 90 {
                    assert(i@ =~= seq![90u8]);
                }
            }
        }
        ExprWt { e: ExprWte::Tcast(Box::new(ex_wt), typ), t: typ }
    }

    fn e_cmpop(&mut self, f: Expr, v: Vec<(CmpOp, Expr)>) -> (r: ExprWt)
        requires
            expr_type(Expr::CmpOp(Box::new(f), v), old(self).scopes()) is Some,
        ensures
            typed(Expr::CmpOp(Box::new(f), v), old(self).scopes(), r),
            *final(self) == *old(self),
        decreases sa_expr_size(f) + if v@.len() >= 1 {
            sa_expr_size(v@[0].1)
        } else {
            0
        } + 1, 1nat,
    {
        if v.len() == 0 {
            return self.p_expr(f);
        }
        // a simple comparison
        let ghost v0 = v;
        let f_wt = self.p_expr(f);
        let mut v = v;
        let (o, g) = v.remove(0);
        assert((o, g) == v0@[0]);
        let g_wt = self.p_expr(g);
        let o_wt = cmpop_types(&f_wt.t, &o);
        let res = ExprWt { e: ExprWte::CmpOp(Box::new(f_wt), vec![(o_wt, g_wt)]), t: Type::B };
        let ghost rg = res;
        proof {
            if let ExprWte::CmpOp(wf, wv) = rg.e {
                assert(wv@.len() == 1);
            }
        }
        res
    }
}


// What the tables give -------------------------------------------------------------

/// The typed operation that the table gives for `lt op rt` performs `op`,
/// on a left operand of type `lt` and a right one of type `rt`.
pub proof fn lemma_binop_table_performs(lt: Type, op: BinOp, rt: Type)
    ensures
        binop_table(lt, op, rt) matches Some((w, _)) ==> binop_wt_kind(w) == op && binop_wt_ltype(w) == lt
            && binop_wt_rtype(w) == rt,
{
}

/// The typed operation that the table gives for `o` on a `t` performs `o`
/// on a `t`.
pub proof fn lemma_uniop_table_performs(t: Type, o: UniOp)
    ensures
        uniop_table(t, o) matches Some((w, _)) ==> uniop_wt_kind(w) == o && uniop_wt_type(w) == t,
{
}

/// The typed comparison of `o` on values of type `t` is `o`, on values of
/// type `t`.
pub proof fn lemma_cmpop_typed_keeps(t: Type, o: CmpOp)
    requires
        cmpop_ok(t, o),
    ensures
        match (o, cmpop_typed(t, o)) {
            (CmpOp::Equ(b), CmpOpWt::Equ(EquOpWt(b2, e))) => b2 == b && equ_typ_type(e) == t,
            (CmpOp::Ord(x), CmpOpWt::Ord(OrdOpWt(x2, ot))) => x2 == x && ord_typ_type(ot) == t,
            _ => false,
        },
{
}
} // verus!
