use vstd::prelude::*;
use crate::asterix::{BinOpWt, BlockWt, CmpOpWt, ExprWt, ExprWte, LoopWt, StmtWt, Type, UniOpWt, Val, val_type};
use crate::intrep::{expr_size, intern};
use crate::util::{ArraySet, DfString, Stack, VecMap, name_get, name_set, names_of, no_later_equal, name_first_at};
use crate::asterix::{BinOp, Expr, Loop, Stmt, expr_no_casts, stmt_no_casts, block_no_casts};
use crate::semanal::{SaScope, analyzable, block_sa, sa_find, sc_type, stmt_sa, typed, typed_block, typed_stmt};

verus! {

pub type TmpIdx = u16;  // for the t0, t1, etc. variables

pub type CtnIdx = u16;  // for constants in the pool

pub type LabIdx = u16;  // for the labels L0, L1

#[derive(Debug, Clone, Copy, PartialEq, Eq, Structural)]
pub enum TacBinOp {
    Cmp(CmpOpWt),
    Bin(BinOpWt),
}

/// Three-address code.
#[derive(Debug, Clone, Copy)]
pub enum Tac {
    // MEANING    PSEUDOCODE
    CTN(TmpIdx, CtnIdx),  // constant   T#0 = CTN[#1]
    CPY(TmpIdx, TmpIdx),  // copy       T#0 = T#1
    UNO(TmpIdx, TmpIdx, UniOpWt),  // unary op   T#0 = op T#1
    BIO(TmpIdx, TmpIdx, TacBinOp, TmpIdx),  // binary op  T#0 = T#1 op T#2
    LAB(LabIdx),  // label      L#0:
    JMP(LabIdx),  // jump       goto L#0;
    JIF(LabIdx, TmpIdx, bool),  // jump if #2 if (t#1==#2) goto L#0;
}

/// The variables of a scope, by name, with the temporaries that hold them.
pub type TmpScope = Seq<(Seq<u8>, TmpIdx)>;

pub type Idf2TmpIdx = VecMap<DfString, TmpIdx>;

/// The temporaries of the variables, scope by scope.
#[derive(Debug)]
pub struct Locals {
    cur: Idf2TmpIdx,  // current scope
    pre: Stack<Idf2TmpIdx>,  // parent scopes
}

/// The scope `dp` levels out from the innermost one, which is last.
pub open spec fn tmp_scope_at(scs: Seq<TmpScope>, dp: usize) -> TmpScope {
    scs[scs.len() - 1 - dp]
}

/// The temporary of the variable `id` found `dp` scopes out.
pub open spec fn loc_get(scs: Seq<TmpScope>, id: Seq<u8>, dp: usize) -> Option<TmpIdx> {
    if dp < scs.len() {
        name_get(tmp_scope_at(scs, dp), id)
    } else {
        None
    }
}

/// The scopes with the variable `id`, `dp` scopes out, held by `ti`.
pub open spec fn loc_set(scs: Seq<TmpScope>, id: Seq<u8>, dp: usize, ti: TmpIdx) -> Seq<TmpScope> {
    scs.update(scs.len() - 1 - dp, name_set(tmp_scope_at(scs, dp), id, ti))
}

impl Locals {
    /// The scopes, from the outermost to the current one.
    pub closed spec fn scopes(&self) -> Seq<TmpScope> {
        self.pre@.map_values(|m: Idf2TmpIdx| names_of(m@)).push(names_of(self.cur@))
    }

    pub fn init_scope(&mut self)
        ensures
            final(self).scopes() == old(self).scopes().push(seq![]),
    {
        let mut fresh: Idf2TmpIdx = VecMap::new();
        core::mem::swap(&mut self.cur, &mut fresh);
        self.pre.push(fresh);
        proof {
            assert(names_of(self.cur@) =~= Seq::<(Seq<u8>, TmpIdx)>::empty());
            assert(self.scopes() =~= old(self).scopes().push(seq![]));
        }
    }

    pub fn exit_scope(&mut self)
        requires
            old(self).scopes().len() > 1,
        ensures
            final(self).scopes() == old(self).scopes().drop_last(),
    {
        self.cur = self.pre.pop().unwrap();
        proof {
            assert(self.scopes() =~= old(self).scopes().drop_last());
        }
    }

    pub fn set(&mut self, id: &DfString, dp: usize, ti: TmpIdx)
        requires
            dp < old(self).scopes().len(),
        ensures
            final(self).scopes() == loc_set(old(self).scopes(), id@, dp, ti),
    {
        if dp == 0 {
            self.cur.set_name(id, ti);
        } else {
            let m = self.pre.peek_mut(dp - 1).unwrap();
            m.set_name(id, ti);
        }
        proof {
            assert(self.scopes() =~= loc_set(old(self).scopes(), id@, dp, ti));
        }
    }

    pub fn get(&self, id: &DfString, dp: usize) -> (r: TmpIdx)
        requires
            loc_get(self.scopes(), id@, dp) is Some,
        ensures
            r == loc_get(self.scopes(), id@, dp)->Some_0,
    {
        if dp == 0 {
            self.cur.get_name(id).unwrap()
        } else {
            proof {
                assert(tmp_scope_at(self.scopes(), dp) == names_of(self.pre@[self.pre@.len() - dp]@));
            }
            self.pre.peek(dp - 1).unwrap().get_name(id).unwrap()
        }
    }
}

impl Default for Locals {
    fn default() -> (r: Locals)
        ensures
            r.scopes() == seq![Seq::<(Seq<u8>, TmpIdx)>::empty()],
    {
        let r = Locals { cur: VecMap::new(), pre: Stack::default() };
        proof {
            assert(names_of(r.cur@) =~= Seq::<(Seq<u8>, TmpIdx)>::empty());
            assert(r.scopes() =~= seq![Seq::<(Seq<u8>, TmpIdx)>::empty()]);
        }
        r
    }
}

// Generation ---------------------------------------------------------------------

/// What the generator has made so far: the code, the type of each temporary,
/// the constant pool, the next label and the temporaries of the variables.
pub struct GenModel {
    pub out: Seq<Tac>,
    pub tmp: Seq<Type>,
    pub ctn: Seq<Val>,
    pub lab: LabIdx,
    pub loc: Seq<TmpScope>,
}

/// `g` with `t` appended to its code.
pub open spec fn emit(g: GenModel, t: Tac) -> GenModel {
    GenModel { out: g.out.push(t), ..g }
}

/// `g` with a new temporary of type `t` written by `tac(ti)`, where `ti` is the
/// new temporary's index.
pub open spec fn new_tmp(g: GenModel, tac: Tac, t: Type) -> GenModel {
    GenModel { out: g.out.push(tac), tmp: g.tmp.push(t), ..g }
}

/// The index of the next temporary.
pub open spec fn next_ti(g: GenModel) -> TmpIdx {
    g.tmp.len() as TmpIdx
}

/// `g` with a new label placed at the end of its code.
pub open spec fn new_label(g: GenModel) -> GenModel {
    GenModel { out: g.out.push(Tac::LAB(g.lab)), lab: (g.lab + 1) as LabIdx, ..g }
}

/// The code of an expression, and the temporary that holds its value, or
/// nothing where the generator does not take it: a variable it does not
/// find, a cast, or more than one comparison.
pub open spec fn gen_expr(e: ExprWt, g: GenModel) -> Option<(GenModel, TmpIdx)>
    decreases e,
{
    match e.e {
        ExprWte::Const(v) => {
            let (cs, ci) = intern(g.ctn, v);
            let ti = next_ti(g);
            Some((GenModel { ctn: cs, ..new_tmp(g, Tac::CTN(ti, ci as CtnIdx), val_type(v)) }, ti))
        },
        ExprWte::Local(i, d) => match loc_get(g.loc, i@, d) {
            Some(t) => Some((g, t)),
            None => None,
        },
        ExprWte::UniOp(x, o) => match gen_expr(*x, g) {
            Some((g1, t1)) => Some((new_tmp(g1, Tac::UNO(next_ti(g1), t1, o), x.t), next_ti(g1))),
            None => None,
        },
        ExprWte::BinOp(l, o, r) => match gen_expr(*l, g) {
            Some((g1, t1)) => match gen_expr(*r, g1) {
                Some((g2, t2)) => Some((new_tmp(g2, Tac::BIO(next_ti(g2), t1, TacBinOp::Bin(o), t2), e.t), next_ti(g2))),
                None => None,
            },
            None => None,
        },
        ExprWte::CmpOp(f, v) => match gen_expr(*f, g) {
            Some((g1, t1)) => if v@.len() == 0 {
                Some((g1, t1))
            } else if v@.len() == 1 {
                match gen_expr(v@[0].1, g1) {
                    Some((g2, t2)) => Some((new_tmp(g2, Tac::BIO(next_ti(g2), t1, TacBinOp::Cmp(v@[0].0), t2), Type::B), next_ti(g2))),
                    None => None,
                }
            } else {
                None
            },
            None => None,
        },
        ExprWte::Tcast(_, _) => None,
    }
}

/// The generator after a statement, or nothing where it does not take it.
pub open spec fn gen_stmt(s: StmtWt, g: GenModel) -> Option<GenModel>
    decreases s, 0int,
{
    match s {
        StmtWt::Declar(i, e) => match gen_expr(e, g) {
            Some((g1, ti)) => if g1.loc.len() > 0 {
                Some(GenModel { loc: loc_set(g1.loc, i@, 0, ti), ..g1 })
            } else {
                None
            },
            None => None,
        },
        StmtWt::VarAss(i, e, d) => match gen_expr(e, g) {
            Some((g1, t1)) => match loc_get(g1.loc, i@, d) {
                Some(t0) => Some(emit(g1, Tac::CPY(t0, t1))),
                None => None,
            },
            None => None,
        },
        StmtWt::Loooop(l) => match l {
            // L: b goto L
            LoopWt::Inf(b) => if g.lab < u16::MAX {
                let g1 = new_label(g);
                match gen_block(b@, b@.len() as int, GenModel { loc: g1.loc.push(seq![]), ..g1 }) {
                    Some(g2) => Some(GenModel { loc: g2.loc.drop_last(), ..emit(g2, Tac::JMP(g.lab)) }),
                    None => None,
                }
            } else {
                None
            },
            // L: b0 if (!cd) goto E; b1 goto L; E:
            LoopWt::Cdt(b0, cd, b1) => if g.lab < u16::MAX {
                let g1 = new_label(GenModel { loc: g.loc.push(seq![]), ..g });
                match gen_block(b0@, b0@.len() as int, g1) {
                    Some(g2) => match gen_expr(cd, g2) {
                        Some((g3, ct)) => {
                            let at = g3.out.len();
                            match gen_block(b1@, b1@.len() as int, emit(g3, Tac::JIF(0, ct, false))) {
                                Some(g5) => if g5.lab < u16::MAX {
                                    let g7 = new_label(emit(g5, Tac::JMP(g.lab)));
                                    Some(GenModel {
                                        out: g7.out.update(at as int, Tac::JIF(g5.lab, ct, false)),
                                        loc: g7.loc.drop_last(),
                                        ..g7
                                    })
                                } else {
                                    None
                                },
                                None => None,
                            }
                        },
                        None => None,
                    },
                    None => None,
                }
            } else {
                None
            },
        },
    }
}

/// The generator after the first `n` statements of a block.
pub open spec fn gen_block(b: Seq<StmtWt>, n: int, g: GenModel) -> Option<GenModel>
    decreases b, n,
{
    if n <= 0 || n > b.len() {
        Some(g)
    } else {
        match gen_block(b, n - 1, g) {
            Some(g1) => gen_stmt(b[n - 1], g1),
            None => None,
        }
    }
}

/// The generator before anything is made.
pub open spec fn gen_start() -> GenModel {
    GenModel { out: seq![], tmp: seq![], ctn: seq![], lab: 0, loc: seq![seq![]] }
}

/// The generator after a whole program, whose main block has a scope of its
/// own.
pub open spec fn gen_prog(main: Seq<StmtWt>) -> Option<GenModel> {
    match gen_block(main, main.len() as int, GenModel { loc: seq![seq![], seq![]], ..gen_start() }) {
        Some(g) => Some(GenModel { loc: g.loc.drop_last(), ..g }),
        None => None,
    }
}

/// The generator keeps the code it made, and the number of scopes.
proof fn lemma_gen_expr_frame(e: ExprWt, g: GenModel)
    requires
        gen_expr(e, g) is Some,
    ensures
        gen_expr(e, g)->Some_0.0.out.len() >= g.out.len(),
        forall|k: int| 0 <= k < g.out.len() ==> #[trigger] gen_expr(e, g)->Some_0.0.out[k] == g.out[k],
        gen_expr(e, g)->Some_0.0.loc == g.loc,
        gen_expr(e, g)->Some_0.0.lab == g.lab,
    decreases e,
{
    match e.e {
        ExprWte::UniOp(x, _) => {
            lemma_gen_expr_frame(*x, g);
        },
        ExprWte::BinOp(l, _, r) => {
            lemma_gen_expr_frame(*l, g);
            lemma_gen_expr_frame(*r, gen_expr(*l, g)->Some_0.0);
        },
        ExprWte::CmpOp(f, v) => {
            lemma_gen_expr_frame(*f, g);
            if v@.len() == 1 {
                lemma_gen_expr_frame(v@[0].1, gen_expr(*f, g)->Some_0.0);
            }
        },
        _ => {},
    }
}

proof fn lemma_gen_stmt_frame(s: StmtWt, g: GenModel)
    requires
        gen_stmt(s, g) is Some,
    ensures
        gen_stmt(s, g)->Some_0.out.len() >= g.out.len(),
        forall|k: int| 0 <= k < g.out.len() ==> #[trigger] gen_stmt(s, g)->Some_0.out[k] == g.out[k],
        gen_stmt(s, g)->Some_0.loc.len() == g.loc.len(),
    decreases s, 0int,
{
    match s {
        StmtWt::Declar(_, e) => {
            lemma_gen_expr_frame(e, g);
        },
        StmtWt::VarAss(_, e, _) => {
            lemma_gen_expr_frame(e, g);
        },
        StmtWt::Loooop(l) => match l {
            LoopWt::Inf(b) => {
                let g1 = new_label(g);
                lemma_gen_block_frame(b@, b@.len() as int, GenModel { loc: g1.loc.push(seq![]), ..g1 });
            },
            LoopWt::Cdt(b0, cd, b1) => {
                let g1 = new_label(GenModel { loc: g.loc.push(seq![]), ..g });
                lemma_gen_block_frame(b0@, b0@.len() as int, g1);
                let g2 = gen_block(b0@, b0@.len() as int, g1)->Some_0;
                lemma_gen_expr_frame(cd, g2);
                let (g3, ct) = gen_expr(cd, g2)->Some_0;
                lemma_gen_block_frame(b1@, b1@.len() as int, emit(g3, Tac::JIF(0, ct, false)));
            },
        },
    }
}

pub(crate) proof fn lemma_gen_block_frame(b: Seq<StmtWt>, n: int, g: GenModel)
    requires
        gen_block(b, n, g) is Some,
    ensures
        gen_block(b, n, g)->Some_0.out.len() >= g.out.len(),
        forall|k: int| 0 <= k < g.out.len() ==> #[trigger] gen_block(b, n, g)->Some_0.out[k] == g.out[k],
        gen_block(b, n, g)->Some_0.loc.len() == g.loc.len(),
    decreases b, n,
{
    if 0 < n <= b.len() {
        lemma_gen_block_frame(b, n - 1, g);
        lemma_gen_stmt_frame(b[n - 1], gen_block(b, n - 1, g)->Some_0);
    }
}

proof fn lemma_gen_block_prefix(b: Seq<StmtWt>, n: int, i: int, g: GenModel)
    requires
        gen_block(b, n, g) is Some,
        0 <= i <= n <= b.len(),
    ensures
        gen_block(b, i, g) is Some,
    decreases n,
{
    if i < n {
        lemma_gen_block_prefix(b, n - 1, i, g);
    }
}

/// Generates three-address code.
#[derive(Debug)]
pub struct Gen {
    pub ctn: ArraySet<Val>,  // constant pool
    pub tmp: Vec<Type>,  // type of each temporary
    pub out: Vec<Tac>,  // the code
    pub loc: Locals,  // locals: name -> temporary
    pub lab: u16,  // label counter
}

impl Gen {
    pub open spec fn gm(&self) -> GenModel {
        GenModel { out: self.out@, tmp: self.tmp@, ctn: self.ctn@, lab: self.lab, loc: self.loc.scopes() }
    }

    /// Generates the code of a program.
    pub fn from_prog(main: &BlockWt) -> (r: Self)
        requires
            gen_prog(main@) is Some,
        ensures
            r.gm() == gen_prog(main@)->Some_0,
    {
        let mut s = Gen { ctn: ArraySet::new(), tmp: Vec::new(), out: Vec::new(), loc: Locals::default(), lab: 0 };
        proof {
            assert(s.gm() == gen_start());
            assert(seq![Seq::<(Seq<u8>, TmpIdx)>::empty()].push(seq![]) =~= seq![seq![], seq![]]);
        }
        s.block(main);
        s
    }

    /// The index of the next temporary.
    fn curr_ti(&self) -> (r: TmpIdx)
        ensures
            r == next_ti(self.gm()),
    {
        self.tmp.len() as u16
    }

    fn intern_ctn(&mut self, v: Val) -> (r: CtnIdx)
        requires
            no_later_equal(old(self).ctn@),
        ensures
            final(self).ctn@ == intern(old(self).ctn@, v).0,
            r == intern(old(self).ctn@, v).1 as CtnIdx,
            no_later_equal(final(self).ctn@),
            final(self).out == old(self).out,
            final(self).tmp == old(self).tmp,
            final(self).loc == old(self).loc,
            final(self).lab == old(self).lab,
    {
        let i = self.ctn.add(v);
        proof {
            if exists|j: usize| crate::util::is_first_match(old(self).ctn@, v, Some(j)) {
                let j = choose|j: usize| crate::util::is_first_match(old(self).ctn@, v, Some(j));
                assert(j == i);
            }
        }
        i as u16
    }

    fn push_new_label(&mut self) -> (r: LabIdx)
        requires
            old(self).lab < u16::MAX,
        ensures
            r == old(self).lab,
            final(self).gm() == new_label(old(self).gm()),
            final(self).ctn == old(self).ctn,
    {
        let li = self.lab;
        self.out.push(Tac::LAB(li));
        self.lab += 1;
        li
    }

    /// Pushes `t` and returns its index in the code.
    fn push_tac(&mut self, t: Tac) -> (r: usize)
        ensures
            r == old(self).out@.len(),
            final(self).gm() == emit(old(self).gm(), t),
            final(self).ctn == old(self).ctn,
    {
        let i = self.out.len();
        self.out.push(t);
        i
    }

    fn patch_jif(&mut self, at: usize, new_li: LabIdx)
        requires
            at < old(self).out@.len(),
        ensures
            final(self).gm() == (GenModel {
                out: match old(self).out@[at as int] {
                    Tac::JIF(_, t, b) => old(self).out@.update(at as int, Tac::JIF(new_li, t, b)),
                    _ => old(self).out@,
                },
                ..old(self).gm()
            }),
            final(self).ctn == old(self).ctn,
    {
        // this always works
        if let Tac::JIF(_, t, b) = self.out[at] {
            self.out.set(at, Tac::JIF(new_li, t, b));
        }
    }

    // the grammar

    fn no_env_block(&mut self, b: &BlockWt)
        requires
            no_later_equal(old(self).ctn@),
            gen_block(b@, b@.len() as int, old(self).gm()) is Some,
        ensures
            no_later_equal(final(self).ctn@),
            final(self).gm() == gen_block(b@, b@.len() as int, old(self).gm())->Some_0,
        decreases *b, 1nat,
    {
        let mut i: usize = 0;
        while i < b.len()
            invariant
                i <= b@.len(),
                no_later_equal(self.ctn@),
                gen_block(b@, i as int, old(self).gm()) == Some(self.gm()),
                gen_block(b@, b@.len() as int, old(self).gm()) is Some,
            decreases b@.len() - i,
        {
            proof {
                lemma_gen_block_prefix(b@, b@.len() as int, i + 1, old(self).gm());
                assert(decreases_to!(*b => b@));
                assert(decreases_to!(b@ => b@[i as int]));
            }
            self.stmt(&b[i]);
            i += 1;
        }
    }

    fn block(&mut self, b: &BlockWt)
        requires
            no_later_equal(old(self).ctn@),
            gen_block(b@, b@.len() as int, GenModel { loc: old(self).gm().loc.push(seq![]), ..old(self).gm() }) is Some,
        ensures
            no_later_equal(final(self).ctn@),
            ({
                let g = gen_block(b@, b@.len() as int, GenModel { loc: old(self).gm().loc.push(seq![]), ..old(self).gm() })->Some_0;
                final(self).gm() == GenModel { loc: g.loc.drop_last(), ..g }
            }),
        decreases *b, 2nat,
    {
        let ghost g0 = GenModel { loc: self.gm().loc.push(seq![]), ..self.gm() };
        self.loc.init_scope();
        assert(self.gm() == g0);
        self.no_env_block(b);
        proof {
            lemma_gen_block_frame(b@, b@.len() as int, g0);
        }
        self.loc.exit_scope();
    }

    fn stmt(&mut self, s: &StmtWt)
        requires
            no_later_equal(old(self).ctn@),
            gen_stmt(*s, old(self).gm()) is Some,
        ensures
            no_later_equal(final(self).ctn@),
            final(self).gm() == gen_stmt(*s, old(self).gm())->Some_0,
        decreases *s, 0nat,
    {
        match s {
            StmtWt::Declar(i, e) => self.s_declar(i, e),
            StmtWt::VarAss(i, e, d) => self.s_varass(i, e, *d),
            StmtWt::Loooop(l) => self.s_loooop(l),
        }
    }

    fn s_declar(&mut self, i: &DfString, e: &ExprWt)
        requires
            no_later_equal(old(self).ctn@),
            gen_stmt(StmtWt::Declar(*i, *e), old(self).gm()) is Some,
        ensures
            no_later_equal(final(self).ctn@),
            final(self).gm() == gen_stmt(StmtWt::Declar(*i, *e), old(self).gm())->Some_0,
    {
        let ti = self.expr(e);  // the temporary in which e is stored
        self.loc.set(i, 0, ti);  // the link of its name to its temporary
    }

    fn s_varass(&mut self, i: &DfString, e: &ExprWt, d: usize)
        requires
            no_later_equal(old(self).ctn@),
            gen_stmt(StmtWt::VarAss(*i, *e, d), old(self).gm()) is Some,
        ensures
            no_later_equal(final(self).ctn@),
            final(self).gm() == gen_stmt(StmtWt::VarAss(*i, *e, d), old(self).gm())->Some_0,
    {
        let t1 = self.expr(e);
        let t0 = self.loc.get(i, d);
        self.out.push(Tac::CPY(t0, t1));
    }

    fn s_loooop(&mut self, l: &LoopWt)
        requires
            no_later_equal(old(self).ctn@),
            gen_stmt(StmtWt::Loooop(*l), old(self).gm()) is Some,
        ensures
            no_later_equal(final(self).ctn@),
            final(self).gm() == gen_stmt(StmtWt::Loooop(*l), old(self).gm())->Some_0,
        decreases *l, 3nat,
    {
        match l {
            LoopWt::Inf(b) => self.loop_inf(b),
            LoopWt::Cdt(b, e, c) => self.loop_cdt(b, e, c, Ghost(*l)),
        }
    }

    fn loop_inf(&mut self, b: &BlockWt)
        requires
            no_later_equal(old(self).ctn@),
            gen_stmt(StmtWt::Loooop(LoopWt::Inf(*b)), old(self).gm()) is Some,
        ensures
            no_later_equal(final(self).ctn@),
            final(self).gm() == gen_stmt(StmtWt::Loooop(LoopWt::Inf(*b)), old(self).gm())->Some_0,
        decreases *b, 3nat,
    {
        let start_li = self.push_new_label();
        self.block(b);
        self.out.push(Tac::JMP(start_li));
    }

    fn loop_cdt(&mut self, b0: &BlockWt, cd: &ExprWt, b1: &BlockWt, Ghost(l): Ghost<LoopWt>)
        requires
            l == LoopWt::Cdt(*b0, *cd, *b1),
            no_later_equal(old(self).ctn@),
            gen_stmt(StmtWt::Loooop(l), old(self).gm()) is Some,
        ensures
            no_later_equal(final(self).ctn@),
            final(self).gm() == gen_stmt(StmtWt::Loooop(l), old(self).gm())->Some_0,
        decreases l, 2nat,
    {
        proof {
            assert(decreases_to!(l => l->Cdt_0));
            assert(decreases_to!(l => l->Cdt_2));
        }
        let ghost g = self.gm();
        self.loc.init_scope();
        let start_li = self.push_new_label();
        let ghost g1 = self.gm();
        self.no_env_block(b0);
        let ghost g2 = self.gm();
        let cd_ti = self.expr(cd);
        let ghost g3 = self.gm();
        let patch_i = self.push_tac(Tac::JIF(0, cd_ti, false));  // 0 is patched below
        let ghost g4 = self.gm();
        self.no_env_block(b1);
        let ghost g5 = self.gm();
        self.out.push(Tac::JMP(start_li));
        let end_li = self.push_new_label();
        proof {
            lemma_gen_block_frame(b1@, b1@.len() as int, g4);
            lemma_gen_block_frame(b0@, b0@.len() as int, g1);
            lemma_gen_expr_frame(*cd, g2);
            assert(self.out@[patch_i as int] == Tac::JIF(0, cd_ti, false));
        }
        self.patch_jif(patch_i, end_li);
        self.loc.exit_scope();
    }

    /// Returns the temporary where the value has been stored.
    fn expr(&mut self, e: &ExprWt) -> (r: TmpIdx)
        requires
            no_later_equal(old(self).ctn@),
            gen_expr(*e, old(self).gm()) is Some,
        ensures
            no_later_equal(final(self).ctn@),
            (final(self).gm(), r) == gen_expr(*e, old(self).gm())->Some_0,
        decreases expr_size(*e), 2nat,
    {
        match &e.e {
            ExprWte::Const(v) => self.e_const(v),
            ExprWte::Local(i, d) => self.e_local(i, *d),
            ExprWte::UniOp(e, o) => self.e_uniop(e, o, e.t),
            ExprWte::BinOp(l, o, r) => self.e_binop(l, o, r, e.t),
            ExprWte::CmpOp(f, o) => self.e_cmpop(f, o.as_slice()),
            ExprWte::Tcast(_, _) => vstd::pervasive::unreached(),  // casts are not generated
        }
    }

    fn e_const(&mut self, v: &Val) -> (r: TmpIdx)
        requires
            no_later_equal(old(self).ctn@),
        ensures
            no_later_equal(final(self).ctn@),
            (final(self).gm(), r) == gen_expr(ExprWt { e: ExprWte::Const(*v), t: val_type(*v) }, old(self).gm())->Some_0,
    {
        let ci = self.intern_ctn(*v);
        let ti = self.curr_ti();
        self.out.push(Tac::CTN(ti, ci));
        self.tmp.push(Type::from_val(v));
        ti
    }

    fn e_local(&mut self, i: &DfString, d: usize) -> (r: TmpIdx)
        requires
            loc_get(old(self).gm().loc, i@, d) is Some,
        ensures
            r == loc_get(old(self).gm().loc, i@, d)->Some_0,
            *final(self) == *old(self),
    {
        // the temporary where it was assigned
        self.loc.get(i, d)
    }

    fn e_uniop(&mut self, e: &ExprWt, o: &UniOpWt, typ: Type) -> (r: TmpIdx)
        requires
            no_later_equal(old(self).ctn@),
            gen_expr(*e, old(self).gm()) is Some,
        ensures
            no_later_equal(final(self).ctn@),
            ({
                let (g1, t1) = gen_expr(*e, old(self).gm())->Some_0;
                (final(self).gm(), r) == (new_tmp(g1, Tac::UNO(next_ti(g1), t1, *o), typ), next_ti(g1))
            }),
        decreases expr_size(*e) + 1, 1nat,
    {
        let t1 = self.expr(e);
        let t0 = self.curr_ti();
        self.out.push(Tac::UNO(t0, t1, *o));
        self.tmp.push(typ);
        t0
    }

    fn e_binop(&mut self, l: &ExprWt, o: &BinOpWt, r: &ExprWt, typ: Type) -> (res: TmpIdx)
        requires
            no_later_equal(old(self).ctn@),
            gen_expr(*l, old(self).gm()) is Some,
            gen_expr(*r, gen_expr(*l, old(self).gm())->Some_0.0) is Some,
        ensures
            no_later_equal(final(self).ctn@),
            ({
                let (g1, t1) = gen_expr(*l, old(self).gm())->Some_0;
                let (g2, t2) = gen_expr(*r, g1)->Some_0;
                (final(self).gm(), res) == (new_tmp(g2, Tac::BIO(next_ti(g2), t1, TacBinOp::Bin(*o), t2), typ), next_ti(g2))
            }),
        decreases expr_size(*l) + expr_size(*r) + 1, 1nat,
    {
        let t1 = self.expr(l);
        let t2 = self.expr(r);
        let t0 = self.curr_ti();
        let op = TacBinOp::Bin(*o);
        self.out.push(Tac::BIO(t0, t1, op, t2));
        self.tmp.push(typ);
        t0
    }

    fn e_cmpop(&mut self, first: &ExprWt, others: &[(CmpOpWt, ExprWt)]) -> (r: TmpIdx)
        requires
            no_later_equal(old(self).ctn@),
            gen_expr(*first, old(self).gm()) is Some,
            others@.len() <= 1,
            others@.len() == 1 ==> gen_expr(others@[0].1, gen_expr(*first, old(self).gm())->Some_0.0) is Some,
        ensures
            no_later_equal(final(self).ctn@),
            ({
                let (g1, t1) = gen_expr(*first, old(self).gm())->Some_0;
                if others@.len() == 0 {
                    (final(self).gm(), r) == (g1, t1)
                } else {
                    let (g2, t2) = gen_expr(others@[0].1, g1)->Some_0;
                    (final(self).gm(), r) == (new_tmp(g2, Tac::BIO(next_ti(g2), t1, TacBinOp::Cmp(others@[0].0), t2), Type::B), next_ti(g2))
                }
            }),
        decreases expr_size(*first) + if others@.len() >= 1 {
            expr_size(others@[0].1)
        } else {
            0
        } + 1, 1nat,
    {
        let first_ti = self.expr(first);
        let len_others = others.len();
        if len_others == 0 {
            return first_ti;
        }
        // one comparison
        let second_ti = self.expr(&others[0].1);
        let res_ti = self.curr_ti();
        let op = TacBinOp::Cmp(others[0].0);
        self.out.push(Tac::BIO(res_ti, first_ti, op, second_ti));
        self.tmp.push(Type::B);
        res_ti
    }
}


// What the analysis gives, generation takes ----------------------------------------

/// The labels that a statement takes: one for a loop with no condition, two
/// for a loop with one.
pub open spec fn stmt_labels(s: StmtWt) -> nat
    decreases s, 0int,
{
    match s {
        StmtWt::Loooop(l) => match l {
            LoopWt::Inf(b) => 1 + block_labels(b@, b@.len() as int),
            LoopWt::Cdt(b0, _, b1) => 2 + block_labels(b0@, b0@.len() as int) + block_labels(b1@, b1@.len() as int),
        },
        _ => 0,
    }
}

/// The labels that the first `n` statements of a block take.
pub open spec fn block_labels(b: Seq<StmtWt>, n: int) -> nat
    decreases b, n,
{
    if n <= 0 || n > b.len() {
        0
    } else {
        block_labels(b, n - 1) + stmt_labels(b[n - 1])
    }
}

/// The names that a scope binds, in order.
pub open spec fn scope_names<V>(s: Seq<(Seq<u8>, V)>) -> Seq<Seq<u8>> {
    s.map_values(|p: (Seq<u8>, V)| p.0)
}

/// The scopes of the analysis and of the generation bind the same names,
/// scope by scope.
pub open spec fn same_names(a: Seq<SaScope>, b: Seq<TmpScope>) -> bool {
    &&& a.len() == b.len()
    &&& forall|i: int| 0 <= i < a.len() ==> scope_names(#[trigger] a[i]) == scope_names(b[i])
}

proof fn lemma_first_at_unique<V>(s: Seq<(Seq<u8>, V)>, k: Seq<u8>, i: int, j: int)
    requires
        name_first_at(s, k, i),
        name_first_at(s, k, j),
    ensures
        i == j,
{
    if i < j {
        assert(s[i].0 == k);
    } else if j < i {
        assert(s[j].0 == k);
    }
}

/// Two scopes that bind the same names find a name at the same place.
proof fn lemma_same_names_first<V, W>(a: Seq<(Seq<u8>, V)>, b: Seq<(Seq<u8>, W)>, k: Seq<u8>)
    requires
        scope_names(a) == scope_names(b),
    ensures
        forall|i: int| name_first_at(a, k, i) <==> name_first_at(b, k, i),
        (exists|i: int| name_first_at(a, k, i)) ==> (choose|i: int| name_first_at(a, k, i)) == (choose|i: int|
            name_first_at(b, k, i)),
        name_get(a, k) is Some <==> name_get(b, k) is Some,
{
    assert(a.len() == scope_names(a).len());
    assert(b.len() == scope_names(b).len());
    assert forall|i: int| 0 <= i < a.len() implies (#[trigger] a[i]).0 == b[i].0 by {
        assert(scope_names(a)[i] == a[i].0);
        assert(scope_names(b)[i] == b[i].0);
    }
    assert forall|i: int| name_first_at(a, k, i) <==> name_first_at(b, k, i) by {
        if 0 <= i < a.len() {
            assert(a[i].0 == b[i].0);
            if name_first_at(a, k, i) {
                assert forall|j: int| 0 <= j < i implies (#[trigger] b[j]).0 != k by {
                    assert(a[j].0 == b[j].0);
                }
            }
            if name_first_at(b, k, i) {
                assert forall|j: int| 0 <= j < i implies (#[trigger] a[j]).0 != k by {
                    assert(a[j].0 == b[j].0);
                }
            }
        }
    }
    if exists|i: int| name_first_at(a, k, i) {
        let i = choose|i: int| name_first_at(a, k, i);
        assert(name_first_at(b, k, i));
        let j = choose|j: int| name_first_at(b, k, j);
        lemma_first_at_unique(b, k, i, j);
    }
}

/// Binding a name in two scopes that bind the same names gives scopes that
/// bind the same names.
proof fn lemma_same_names_set<V, W>(a: Seq<(Seq<u8>, V)>, b: Seq<(Seq<u8>, W)>, k: Seq<u8>, v: V, w: W)
    requires
        scope_names(a) == scope_names(b),
    ensures
        scope_names(name_set(a, k, v)) == scope_names(name_set(b, k, w)),
{
    lemma_same_names_first(a, b, k);
    assert(a.len() == scope_names(a).len());
    assert(b.len() == scope_names(b).len());
    assert forall|i: int| 0 <= i < a.len() implies (#[trigger] a[i]).0 == b[i].0 by {
        assert(scope_names(a)[i] == a[i].0);
        assert(scope_names(b)[i] == b[i].0);
    }
    assert(scope_names(name_set(a, k, v)) =~= scope_names(name_set(b, k, w)));
}

/// A variable that the analysis finds `d` scopes out is bound in that scope.
pub(crate) proof fn lemma_sa_find_bound(scs: Seq<SaScope>, k: Seq<u8>)
    requires
        scs.len() <= usize::MAX,
    ensures
        sa_find(scs, k) matches Some((d, t)) ==> d < scs.len() && sc_type(scs[scs.len() - 1 - d], k) == Some(t),
    decreases scs.len(),
{
    if scs.len() > 0 {
        lemma_sa_find_bound(scs.drop_last(), k);
    }
}

/// A typed expression with no cast is one that generation takes, in scopes
/// that bind the same names; it keeps the scopes and the labels.
proof fn lemma_expr_generates(e: Expr, scs: Seq<SaScope>, w: ExprWt, g: GenModel)
    requires
        typed(e, scs, w),
        expr_no_casts(w),
        same_names(scs, g.loc),
        scs.len() <= usize::MAX,
    ensures
        gen_expr(w, g) is Some,
        gen_expr(w, g)->Some_0.0.loc == g.loc,
        gen_expr(w, g)->Some_0.0.lab == g.lab,
    decreases e,
{
    match e {
        Expr::Const(_) => {},
        Expr::Ident(n) => {
            lemma_sa_find_bound(scs, n@);
            let d = w.e->Local_1;
            let i = scs.len() - 1 - d;
            lemma_same_names_first(scs[i], g.loc[i], n@);
        },
        Expr::UniOp(x, _) => {
            let wx = *w.e->UniOp_0;
            lemma_expr_generates(*x, scs, wx, g);
        },
        Expr::BinOp(l, o, r) => {
            if o != BinOp::Typ {
                let wl = *w.e->BinOp_0;
                let wr = *w.e->BinOp_2;
                lemma_expr_generates(*l, scs, wl, g);
                let g1 = gen_expr(wl, g)->Some_0.0;
                lemma_expr_generates(*r, scs, wr, g1);
            }
        },
        Expr::CmpOp(f, v) => {
            if v@.len() == 0 {
                lemma_expr_generates(*f, scs, w, g);
            } else {
                let wf = *w.e->CmpOp_0;
                let wv = w.e->CmpOp_1;
                lemma_expr_generates(*f, scs, wf, g);
                let g1 = gen_expr(wf, g)->Some_0.0;
                lemma_expr_generates(v@[0].1, scs, wv@[0].1, g1);
            }
        },
    }
    lemma_gen_expr_frame(w, g);
}

/// The first `n` statements of a block are those of the block without its
/// last statement, where `n` leaves it out.
proof fn lemma_block_drop_last(b: Seq<StmtWt>, n: int, g: GenModel)
    requires
        0 <= n < b.len(),
    ensures
        gen_block(b, n, g) == gen_block(b.drop_last(), n, g),
        block_labels(b, n) == block_labels(b.drop_last(), n),
        block_no_casts(b, n) == block_no_casts(b.drop_last(), n),
    decreases n,
{
    if n > 0 {
        lemma_block_drop_last(b, n - 1, g);
        assert(b[n - 1] == b.drop_last()[n - 1]);
    }
}

/// A typed statement with no cast, and with enough labels left, is one that
/// generation takes, in scopes that bind the same names; the scopes after it
/// bind the same names too.
proof fn lemma_stmt_generates(s: Stmt, scs: Seq<SaScope>, w: StmtWt, g: GenModel)
    requires
        typed_stmt(s, scs, w),
        stmt_sa(s, scs) is Some,
        stmt_no_casts(w),
        same_names(scs, g.loc),
        scs.len() <= g.lab + 2,
        g.lab + stmt_labels(w) <= 0xffff,
    ensures
        gen_stmt(w, g) is Some,
        same_names(stmt_sa(s, scs)->Some_0, gen_stmt(w, g)->Some_0.loc),
        gen_stmt(w, g)->Some_0.lab == g.lab + stmt_labels(w),
    decreases s, 0int,
{
    match s {
        Stmt::Assign(a, e) => {
            let n = a->Ident_0;
            match w {
                StmtWt::Declar(m, we) => {
                    lemma_expr_generates(e, scs, we, g);
                    let (g1, ti) = gen_expr(we, g)->Some_0;
                    let t = we.t;
                    let last = scs.len() - 1;
                    lemma_same_names_set(scs[last], g1.loc[last], n@, t, ti);
                    let a2 = stmt_sa(s, scs)->Some_0;
                    let b2 = gen_stmt(w, g)->Some_0.loc;
                    assert(a2 == scs.update(last, name_set(scs.last(), n@, t)));
                    assert forall|i: int| 0 <= i < a2.len() implies scope_names(#[trigger] a2[i]) == scope_names(b2[i]) by {
                        if i != last {
                            assert(a2[i] == scs[i]);
                            assert(b2[i] == g1.loc[i]);
                        }
                    }
                },
                StmtWt::VarAss(m, we, d) => {
                    lemma_expr_generates(e, scs, we, g);
                    let g1 = gen_expr(we, g)->Some_0.0;
                    lemma_sa_find_bound(scs, n@);
                    let i = scs.len() - 1 - d;
                    lemma_same_names_first(scs[i], g1.loc[i], n@);
                },
                _ => {},
            }
        },
        Stmt::Loooop(l) => {
            let s0 = scs.push(seq![]);
            match (l, w) {
                (Loop::Inf(b), StmtWt::Loooop(LoopWt::Inf(wb))) => {
                    let g1 = new_label(g);
                    let g1l = GenModel { loc: g1.loc.push(seq![]), ..g1 };
                    assert(same_names(s0, g1l.loc)) by {
                        assert forall|i: int| 0 <= i < s0.len() implies scope_names(#[trigger] s0[i]) == scope_names(g1l.loc[i]) by {
                            if i < scs.len() {
                                assert(s0[i] == scs[i]);
                            } else {
                                assert(scope_names(s0[i]) =~= scope_names(g1l.loc[i]));
                            }
                        }
                    }
                    lemma_block_generates(b@, b@.len() as int, s0, wb@, g1l);
                    let g2 = gen_block(wb@, wb@.len() as int, g1l)->Some_0;
                    let r = block_sa(b@, b@.len() as int, s0)->Some_0;
                    crate::semanal::lemma_block_sa_frame(b@, b@.len() as int, s0);
                    lemma_same_names_drop_last(r, g2.loc);
                    assert(r.drop_last() =~= scs);
                },
                (Loop::Cdt(b0, c, b1), StmtWt::Loooop(LoopWt::Cdt(wb0, wc, wb1))) => {
                    let g1 = new_label(GenModel { loc: g.loc.push(seq![]), ..g });
                    assert(same_names(s0, g1.loc)) by {
                        assert forall|i: int| 0 <= i < s0.len() implies scope_names(#[trigger] s0[i]) == scope_names(g1.loc[i]) by {
                            if i < scs.len() {
                                assert(s0[i] == scs[i]);
                            } else {
                                assert(scope_names(s0[i]) =~= scope_names(g1.loc[i]));
                            }
                        }
                    }
                    lemma_block_generates(b0@, b0@.len() as int, s0, wb0@, g1);
                    let g2 = gen_block(wb0@, wb0@.len() as int, g1)->Some_0;
                    let s1 = block_sa(b0@, b0@.len() as int, s0)->Some_0;
                    crate::semanal::lemma_block_sa_frame(b0@, b0@.len() as int, s0);
                    lemma_expr_generates(c, s1, wc, g2);
                    let (g3, ct) = gen_expr(wc, g2)->Some_0;
                    let g4 = emit(g3, Tac::JIF(0, ct, false));
                    lemma_block_generates(b1@, b1@.len() as int, s1, wb1@, g4);
                    let g5 = gen_block(wb1@, wb1@.len() as int, g4)->Some_0;
                    let r = block_sa(b1@, b1@.len() as int, s1)->Some_0;
                    crate::semanal::lemma_block_sa_frame(b1@, b1@.len() as int, s1);
                    lemma_same_names_drop_last(r, g5.loc);
                    assert(r.drop_last() =~= scs);
                },
                _ => {},
            }
        },
    }
}

/// Scopes that bind the same names still do without their innermost ones.
proof fn lemma_same_names_drop_last(a: Seq<SaScope>, b: Seq<TmpScope>)
    requires
        same_names(a, b),
        a.len() > 0,
    ensures
        same_names(a.drop_last(), b.drop_last()),
{
    assert forall|i: int| 0 <= i < a.len() - 1 implies scope_names(#[trigger] a.drop_last()[i]) == scope_names(
        b.drop_last()[i],
    ) by {
        assert(a.drop_last()[i] == a[i]);
        assert(b.drop_last()[i] == b[i]);
    }
}

/// A typed block with no cast, and with enough labels left, is one that
/// generation takes, in scopes that bind the same names; the scopes after it
/// bind the same names too.
proof fn lemma_block_generates(b: Seq<Stmt>, n: int, scs: Seq<SaScope>, wb: Seq<StmtWt>, g: GenModel)
    requires
        typed_block(b, n, scs, wb),
        block_sa(b, n, scs) is Some,
        0 <= n <= b.len(),
        block_no_casts(wb, n),
        same_names(scs, g.loc),
        scs.len() <= g.lab + 2,
        g.lab + block_labels(wb, n) <= 0xffff,
    ensures
        gen_block(wb, n, g) is Some,
        same_names(block_sa(b, n, scs)->Some_0, gen_block(wb, n, g)->Some_0.loc),
        gen_block(wb, n, g)->Some_0.lab == g.lab + block_labels(wb, n),
    decreases b, n,
{
    if n > 0 {
        lemma_block_drop_last(wb, n - 1, g);
        crate::semanal::lemma_block_sa_prefix(b, n, n - 1, scs);
        lemma_block_generates(b, n - 1, scs, wb.drop_last(), g);
        let g1 = gen_block(wb, n - 1, g)->Some_0;
        let t = block_sa(b, n - 1, scs)->Some_0;
        crate::semanal::lemma_block_sa_frame(b, n - 1, scs);
        lemma_stmt_generates(b[n - 1], t, wb[n - 1], g1);
    }
}

/// A program that the analysis takes, whose typed form holds no cast and
/// whose loops take no more labels than there are, is one that generation
/// takes: what `semanalize` gives, `Gen::from_prog` takes.
pub proof fn lemma_analyzed_program_generates(main: Seq<Stmt>, wb: Seq<StmtWt>)
    requires
        analyzable(main),
        typed_block(main, main.len() as int, seq![seq![], seq![]], wb),
        block_no_casts(wb, wb.len() as int),
        block_labels(wb, wb.len() as int) <= 0xffff,
    ensures
        gen_prog(wb) is Some,
{
    let scs: Seq<SaScope> = seq![seq![], seq![]];
    let g0 = GenModel { loc: seq![seq![], seq![]], ..gen_start() };
    assert(same_names(scs, g0.loc)) by {
        assert forall|i: int| 0 <= i < scs.len() implies scope_names(#[trigger] scs[i]) == scope_names(g0.loc[i]) by {
            assert(scope_names(scs[i]) =~= scope_names(g0.loc[i]));
        }
    }
    lemma_block_generates(main, main.len() as int, scs, wb, g0);
}

// Laws of the locals -----------------------------------------------------------

/// Every `Locals` has a current scope.
pub proof fn lemma_scopes_nonempty(l: &Locals)
    ensures
        l.scopes().len() >= 1,
{
}

/// A name that is set in a scope is found there with its new value.
proof fn lemma_name_get_set<V>(s: Seq<(Seq<u8>, V)>, k: Seq<u8>, v: V)
    ensures
        name_get(name_set(s, k, v), k) == Some(v),
{
    let r = name_set(s, k, v);
    if exists|i: int| name_first_at(s, k, i) {
        let i = choose|i: int| name_first_at(s, k, i);
        assert(name_first_at(r, k, i)) by {
            assert forall|j: int| 0 <= j < i implies (#[trigger] r[j]).0 != k by {
                assert(r[j] == s[j]);
            }
        }
        let j = choose|j: int| name_first_at(r, k, j);
        lemma_first_at_unique(r, k, i, j);
    } else {
        let i = s.len() as int;
        assert(name_first_at(r, k, i)) by {
            assert forall|j: int| 0 <= j < i implies (#[trigger] r[j]).0 != k by {
                assert(r[j] == s[j]);
                if s[j].0 == k {
                    lemma_first_index_ssa(s, k, j);
                }
            }
        }
        let j = choose|j: int| name_first_at(r, k, j);
        lemma_first_at_unique(r, k, i, j);
    }
}

/// Where some binding has a name, there is a first such binding.
proof fn lemma_first_index_ssa<V>(s: Seq<(Seq<u8>, V)>, m: Seq<u8>, i: int)
    requires
        0 <= i < s.len(),
        s[i].0 == m,
    ensures
        exists|j: int| name_first_at(s, m, j),
    decreases i,
{
    if exists|j: int| 0 <= j < i && (#[trigger] s[j]).0 == m {
        let j = choose|j: int| 0 <= j < i && (#[trigger] s[j]).0 == m;
        lemma_first_index_ssa(s, m, j);
    } else {
        assert(name_first_at(s, m, i));
    }
}

/// Setting a variable `dp` scopes out and reading it there gives its
/// temporary; after a new scope is entered, it is found one scope further
/// out.
pub proof fn lemma_loc_get_after_set(scs: Seq<TmpScope>, id: Seq<u8>, dp: usize, ti: TmpIdx)
    requires
        dp < scs.len(),
        dp < usize::MAX,
    ensures
        loc_get(loc_set(scs, id, dp, ti), id, dp) == Some(ti),
        loc_get(loc_set(scs, id, dp, ti).push(seq![]), id, (dp + 1) as usize) == Some(ti),
{
    let i = scs.len() - 1 - dp;
    lemma_name_get_set(scs[i], id, ti);
    let r = loc_set(scs, id, dp, ti);
    assert(r.push(seq![])[i] == r[i]);
}

/// Setting a variable in the current scope leaves the enclosing scopes as
/// they are: leaving a scope drops whatever was set in it.
pub proof fn lemma_inner_set_dropped(scs: Seq<TmpScope>, id: Seq<u8>, ti: TmpIdx)
    requires
        scs.len() >= 1,
    ensures
        loc_set(scs, id, 0, ti).drop_last() == scs.drop_last(),
{
    assert(loc_set(scs, id, 0, ti).drop_last() =~= scs.drop_last());
}

} // verus!
