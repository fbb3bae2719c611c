use vstd::prelude::*;
use vstd::std_specs::cmp::PartialEqSpec;
use crate::asterix::{UniOpWt, BinOpWt, CmpOpWt, Val, ExprWt, ExprWte, StmtWt, LoopWt, BlockWt};
use crate::asterix::{BinOp, Expr, Loop, Stmt, expr_no_casts, stmt_no_casts, block_no_casts, stmt_loops, block_loops, val_eq};
use crate::semanal::{SaScope, analyzable, block_sa, sa_find, sc_type, stmt_sa, typed, typed_block, typed_stmt};
use crate::util::{name_get, name_set, name_first_at};
use crate::ssa_ir::lemma_sa_find_bound;
use crate::util::{ArraySet, VecMap, Stack, DfString, copy_bytes, is_first_match, is_first_key, no_later_equal};

verus! {

pub type CtnIdx = usize;  // in the constant pool

pub type LocIdx = usize;  // in the stack

pub type BbIdx = usize;  // in the vector of basic blocks

/// Intermediate opcodes.
#[derive(Copy, Clone, Debug, PartialEq, Eq, Structural)]
pub enum ImOp {
    // load/store
    LKX(CtnIdx),
    LN1,
    LR1,
    LLX(LocIdx),
    SLX(LocIdx),
    ULX(LocIdx),
    // operations
    UNO(UniOpWt),
    BIO(BinOpWt),
    // comparison
    CMP(CmpOpWt),
    // stack stuff
    DUM,  // … ]      -> … X]   dummy
    DUP,  // … a]     -> … a a]
    SWP,  // … a b]   -> … b a]
    ROT,  // … a b c] -> … c a b]
    POP,  // … a]     -> …]
}

/// The index that an opcode carries, if it carries one.
pub open spec fn imop_operand(op: ImOp) -> Option<usize> {
    match op {
        ImOp::LKX(i) | ImOp::LLX(i) | ImOp::SLX(i) | ImOp::ULX(i) => Some(i),
        _ => None,
    }
}

impl ImOp {
    pub fn get_operand(&self) -> (r: Option<usize>)
        ensures
            r == imop_operand(*self),
    {
        match self {
            ImOp::LKX(i) | ImOp::LLX(i) | ImOp::SLX(i) | ImOp::ULX(i) => Some(*i),
            _ => None,
        }
    }
}

/// Jumps.
#[derive(Copy, Clone, Debug, PartialEq, Eq, Structural)]
pub enum Jmp {
    JX,  // unconditional
    BY(bool),  // BT & BF, leaves B% on the stack
    YX(bool),  // TX & FX
    CX(CmpOpWt),  // cmp + jmp
}

/// Whether a jump is taken when the boolean on top of the stack is `top`;
/// `None` for a comparing jump, which a comparison decides.
pub open spec fn jmp_taken(j: Jmp, top: bool) -> Option<bool> {
    match j {
        Jmp::JX => Some(true),
        Jmp::BY(b) => Some(top == b),
        Jmp::YX(b) => Some(top == b),
        Jmp::CX(_) => None,
    }
}

/// Whether a jump takes the boolean it tests off the stack.
pub open spec fn jmp_pops(j: Jmp) -> bool {
    j is YX
}

impl Jmp {
    pub fn get_cmp(&self) -> (r: Option<CmpOpWt>)
        ensures
            r == match *self {
                Jmp::CX(c) => Some(c),
                _ => None,
            },
    {
        match self {
            Jmp::CX(c) => Some(*c),
            _ => None,
        }
    }
}

/// Terminators of basic blocks.
#[derive(Copy, Clone, Debug, PartialEq, Eq, Structural)]
pub enum Term {
    NOP,  // just go on to the next block
    JMP(Jmp, BbIdx),
    HLT,
    PCH(bool),  // patch indicator, should not end up in the resultant graph
                // true if the patch will be a fall-through
}

/// Whether the terminator can go on to the next block.
pub open spec fn term_can_thru(t: Term) -> bool {
    match t {
        Term::PCH(b) => b,
        Term::NOP => true,
        Term::JMP(j, _) => !(j is JX),
        _ => false,
    }
}

/// The block a terminator jumps to.
pub open spec fn term_target(t: Term) -> Option<BbIdx> {
    match t {
        Term::JMP(_, i) => Some(i),
        _ => None,
    }
}

impl Term {
    /// If this terminator has a case where it just continues like a NOP:
    /// conditional jumps have, gotos have not.
    pub fn can_thru(&self) -> (r: bool)
        ensures
            r == term_can_thru(*self),
    {
        match self {
            Term::PCH(b) => *b,
            Term::NOP => true,
            Term::JMP(j, _) => !matches!(j, Jmp::JX),
            _ => false,
        }
    }

    pub fn jmp_target(&self) -> (r: Option<BbIdx>)
        ensures
            r == term_target(*self),
    {
        match self {
            Term::JMP(_, i) => Some(*i),
            _ => None,
        }
    }

    pub fn set_jmp_target(&mut self, new_i: BbIdx)
        requires
            *old(self) is JMP,
        ensures
            *final(self) == Term::JMP((*old(self))->JMP_0, new_i),
    {
        match self {
            Term::JMP(j, _) => {
                *self = Term::JMP(*j, new_i);
            },
            _ => {},
        }
    }
}

impl Default for Term {
    fn default() -> (r: Term)
        ensures
            r == Term::NOP,
    {
        Term::NOP
    }
}

/// Setting the target of a jump and reading it gives the new target; the
/// kind of jump stays.
pub proof fn lemma_set_then_get_target(t: Term, j: Jmp, old_i: BbIdx, new_i: BbIdx)
    requires
        t == Term::JMP(j, old_i),
    ensures
        term_target(Term::JMP(j, new_i)) == Some(new_i),
        term_can_thru(Term::JMP(j, new_i)) == term_can_thru(t),
{
}

#[derive(Debug, Clone)]
pub struct BasicBlock {
    pub code: Vec<ImOp>,  // non-terminating ops
    pub term: Term,  // the terminator
    pub pred: ArraySet<BbIdx>,  // predecessors, the blocks whose terminator may lead here
}

impl BasicBlock {
    pub fn push(&mut self, imop: ImOp)
        ensures
            final(self).code@ == old(self).code@.push(imop),
            final(self).term == old(self).term,
            final(self).pred == old(self).pred,
    {
        self.code.push(imop);
    }
}

impl Default for BasicBlock {
    fn default() -> (r: BasicBlock)
        ensures
            r.code@ == Seq::<ImOp>::empty(),
            r.term == Term::NOP,
            r.pred@ == Seq::<BbIdx>::empty(),
    {
        BasicBlock { code: Vec::new(), term: Term::NOP, pred: ArraySet::new() }
    }
}

// Scopes ------------------------------------------------------------------

/// What the compiler knows of one scope: the size of the stack, including the
/// enclosing scopes; the local variables, each with its index on the stack, in
/// the order of their first declaration; and the loop variables that are
/// preloaded but not declared yet.
pub struct ScopeModel {
    pub locsiz: usize,
    pub locals: Seq<(Seq<u8>, LocIdx)>,
    pub dummis: Set<Seq<u8>>,
}

/// Whether a variable named `k` is in `ls`.
pub open spec fn has_key(ls: Seq<(Seq<u8>, LocIdx)>, k: Seq<u8>) -> bool {
    exists|i: int| 0 <= i < ls.len() && (#[trigger] ls[i]).0 == k
}

/// Where the variable named `k` is in `ls`.
pub open spec fn key_at(ls: Seq<(Seq<u8>, LocIdx)>, k: Seq<u8>) -> int {
    choose|i: int| 0 <= i < ls.len() && (#[trigger] ls[i]).0 == k
}

/// The stack index of the variable named `k`.
pub open spec fn lookup(ls: Seq<(Seq<u8>, LocIdx)>, k: Seq<u8>) -> Option<LocIdx> {
    if has_key(ls, k) {
        Some(ls[key_at(ls, k)].1)
    } else {
        None
    }
}

/// `ls` with the variable named `k` at stack index `v`: rebound in place, or
/// added at the end.
pub open spec fn bind(ls: Seq<(Seq<u8>, LocIdx)>, k: Seq<u8>, v: LocIdx) -> Seq<(Seq<u8>, LocIdx)> {
    if has_key(ls, k) {
        ls.update(key_at(ls, k), (k, v))
    } else {
        ls.push((k, v))
    }
}

/// No name is bound twice.
pub open spec fn distinct_keys(ls: Seq<(Seq<u8>, LocIdx)>) -> bool {
    forall|i: int, j: int| #![trigger ls[i], ls[j]] 0 <= i < j < ls.len() ==> ls[i].0 != ls[j].0
}

/// A new scope on top of a stack of size `locsiz`.
pub open spec fn fresh_scope(locsiz: usize) -> ScopeModel {
    ScopeModel { locsiz, locals: seq![], dummis: Set::empty() }
}

/// Whether `id` can be declared: a preloaded loop variable always can, another
/// variable where the stack can grow.
pub open spec fn sm_declar_ok(s: ScopeModel, id: Seq<u8>) -> bool {
    s.dummis.contains(id) || s.locsiz < usize::MAX
}

/// The scope after declaring `id`: a preloaded loop variable becomes a
/// variable; another variable takes the next place on the stack.
pub open spec fn sm_declar(s: ScopeModel, id: Seq<u8>) -> ScopeModel {
    if s.dummis.contains(id) {
        ScopeModel { locsiz: s.locsiz, locals: s.locals, dummis: s.dummis.remove(id) }
    } else {
        ScopeModel { locsiz: (s.locsiz + 1) as usize, locals: bind(s.locals, id, s.locsiz), dummis: s.dummis }
    }
}

/// Whether `id` can be preloaded as a loop variable.
pub open spec fn sm_declar_dummy_ok(s: ScopeModel, id: Seq<u8>) -> bool {
    !s.dummis.contains(id) && s.locsiz < usize::MAX
}

/// The scope after preloading `id`: it takes the next place on the stack but
/// is not a variable yet.
pub open spec fn sm_declar_dummy(s: ScopeModel, id: Seq<u8>) -> ScopeModel {
    ScopeModel { locsiz: (s.locsiz + 1) as usize, locals: bind(s.locals, id, s.locsiz), dummis: s.dummis.insert(id) }
}

/// The stack index of the variable `id`, unless it is only preloaded.
pub open spec fn sm_resolve(s: ScopeModel, id: Seq<u8>) -> Option<LocIdx> {
    if s.dummis.contains(id) {
        None
    } else {
        lookup(s.locals, id)
    }
}

/// The scope `de` levels out from the innermost one, which is last.
pub open spec fn scope_at(scs: Seq<ScopeModel>, de: usize) -> ScopeModel {
    scs[scs.len() - 1 - de]
}

/// Whether the variable `id` is found `de` scopes out.
pub open spec fn resolves(scs: Seq<ScopeModel>, id: Seq<u8>, de: usize) -> bool {
    de < scs.len() && sm_resolve(scope_at(scs, de), id) is Some
}

/// The stack index of the variable `id` found `de` scopes out.
pub open spec fn resolved(scs: Seq<ScopeModel>, id: Seq<u8>, de: usize) -> LocIdx {
    match sm_resolve(scope_at(scs, de), id) {
        Some(i) => i,
        None => 0,
    }
}

/// The variables of one scope and the size of the stack below it.
#[derive(Debug)]
pub struct Scope {
    pub locsiz: usize,  // size of the stack, including all its parents
    locals: VecMap<DfString, LocIdx>,  // local vars & their index on the stack
    dummis: Vec<DfString>,  // loop variables preloaded, not yet declared
}

impl Scope {
    pub closed spec fn model(&self) -> ScopeModel {
        ScopeModel {
            locsiz: self.locsiz,
            locals: self.locals@.map_values(|p: (DfString, LocIdx)| (p.0@, p.1)),
            dummis: Set::new(|x: Seq<u8>| exists|i: int| 0 <= i < self.dummis@.len() && (#[trigger] self.dummis@[i])@ == x),
        }
    }

    /// No name is bound or preloaded twice, and every preloaded name is bound.
    pub closed spec fn wf(&self) -> bool {
        &&& distinct_keys(self.model().locals)
        &&& forall|i: int, j: int| #![trigger self.dummis@[i], self.dummis@[j]] 0 <= i < j < self.dummis@.len() ==> self.dummis@[i]@ != self.dummis@[j]@
        &&& forall|x: Seq<u8>| #[trigger] self.model().dummis.contains(x) ==> has_key(self.model().locals, x)
    }

    pub fn with_locsiz(ls: usize) -> (r: Self)
        ensures
            r.wf(),
            r.model() == fresh_scope(ls),
    {
        let r = Scope { locsiz: ls, locals: VecMap::new(), dummis: Vec::new() };
        proof {
            assert(r.model().locals =~= Seq::<(Seq<u8>, LocIdx)>::empty());
            assert(r.model().dummis =~= Set::<Seq<u8>>::empty());
        }
        r
    }

    pub fn incloc(&mut self)
        requires
            old(self).model().locsiz < usize::MAX,
        ensures
            final(self).model() == (ScopeModel { locsiz: (old(self).model().locsiz + 1) as usize, ..old(self).model() }),
            old(self).wf() ==> final(self).wf(),
    {
        self.locsiz += 1;
    }

    pub fn decloc(&mut self)
        requires
            old(self).model().locsiz > 0,
        ensures
            final(self).model() == (ScopeModel { locsiz: (old(self).model().locsiz - 1) as usize, ..old(self).model() }),
            old(self).wf() ==> final(self).wf(),
    {
        self.locsiz -= 1;
    }

    /// Where `id` is among the preloaded names.
    fn dummy_index(&self, id: &DfString) -> (r: Option<usize>)
        ensures
            match r {
                Some(i) => i < self.dummis@.len() && self.dummis@[i as int]@ == id@,
                None => !self.model().dummis.contains(id@),
            },
    {
        let mut i: usize = 0;
        while i < self.dummis.len()
            invariant
                i <= self.dummis@.len(),
                forall|j: int| 0 <= j < i ==> (#[trigger] self.dummis@[j])@ != id@,
            decreases self.dummis@.len() - i,
        {
            if self.dummis[i] == *id {
                return Some(i);
            }
            i += 1;
        }
        None
    }

    pub fn declar(&mut self, id: &DfString)
        requires
            old(self).wf(),
            sm_declar_ok(old(self).model(), id@),
        ensures
            final(self).wf(),
            final(self).model() == sm_declar(old(self).model(), id@),
    {
        let ghost m0 = self.model();
        match self.dummy_index(id) {
            Some(i) => {
                // declared before as a loop variable
                let ghost d0 = self.dummis@;
                let _ = self.dummis.remove(i);
                proof {
                    let d1 = self.dummis@;
                    assert forall|x: Seq<u8>| #[trigger] self.model().dummis.contains(x) == m0.dummis.remove(id@).contains(x) by {
                        if self.model().dummis.contains(x) {
                            let j = choose|j: int| 0 <= j < d1.len() && (#[trigger] d1[j])@ == x;
                            if j < i {
                                assert(d0[j] == d1[j]);
                                assert(x != id@);
                            } else {
                                assert(d0[j + 1] == d1[j]);
                                assert(x != id@);
                            }
                            assert(m0.dummis.contains(x));
                        }
                        if m0.dummis.remove(id@).contains(x) {
                            let j = choose|j: int| 0 <= j < d0.len() && (#[trigger] d0[j])@ == x;
                            assert(j != i);
                            if j < i {
                                assert(d1[j] == d0[j]);
                            } else {
                                assert(d1[j - 1] == d0[j]);
                            }
                        }
                    }
                    assert(self.model().dummis =~= m0.dummis.remove(id@));
                    assert forall|a: int, b: int| #![trigger d1[a], d1[b]] 0 <= a < b < d1.len() implies d1[a]@ != d1[b]@ by {
                        let a0 = if a < i { a } else { a + 1 };
                        let b0 = if b < i { b } else { b + 1 };
                        assert(d1[a] == d0[a0]);
                        assert(d1[b] == d0[b0]);
                        assert(d0[a0]@ != d0[b0]@);
                    }
                    assert(self.model().locals == m0.locals);
                    assert forall|x: Seq<u8>| #[trigger] self.model().dummis.contains(x) implies has_key(self.model().locals, x) by {
                        assert(m0.dummis.contains(x));
                    }
                }
            },
            None => {
                // a new variable
                let k = DfString::from_vec(copy_bytes(id.as_bytes()));
                let ls = self.locsiz;
                let ghost l0 = self.locals@;
                let r = self.locals.set(k, ls);
                proof {
                    let l1 = self.locals@;
                    let f = |p: (DfString, LocIdx)| (p.0@, p.1);
                    if is_first_key(l0, k, None) {
                        assert(!has_key(m0.locals, id@)) by {
                            if has_key(m0.locals, id@) {
                                let j = choose|j: int| 0 <= j < m0.locals.len() && (#[trigger] m0.locals[j]).0 == id@;
                                assert(l0[j].0.eq_spec(&k));
                            }
                        }
                        assert(l1.map_values(f) =~= m0.locals.push((id@, ls)));
                    } else {
                        assert(m0.locals[r as int].0 == id@);
                        assert(has_key(m0.locals, id@));
                        assert(key_at(m0.locals, id@) == r as int);
                        assert(l1.map_values(f) =~= m0.locals.update(r as int, (id@, ls)));
                    }
                    assert(self.model().locals == bind(m0.locals, id@, ls));
                    assert forall|x: Seq<u8>| #[trigger] self.model().dummis.contains(x) implies has_key(self.model().locals, x) by {
                        assert(m0.dummis.contains(x));
                        let j = choose|j: int| 0 <= j < m0.locals.len() && (#[trigger] m0.locals[j]).0 == x;
                        if has_key(m0.locals, id@) && j == key_at(m0.locals, id@) {
                            assert(self.model().locals[j].0 == x);
                        } else {
                            assert(self.model().locals[j] == m0.locals[j]);
                        }
                    }
                }
                self.incloc();
            },
        }
    }

    pub fn declar_dummy(&mut self, id: &DfString)
        requires
            old(self).wf(),
            sm_declar_dummy_ok(old(self).model(), id@),
        ensures
            final(self).wf(),
            final(self).model() == sm_declar_dummy(old(self).model(), id@),
    {
        let ghost m0 = self.model();
        self.declar(id);
        let ghost m1 = self.model();
        let ghost d0 = self.dummis@;
        self.dummis.push(DfString::from_vec(copy_bytes(id.as_bytes())));
        proof {
            let d1 = self.dummis@;
            assert(d1[d0.len() as int]@ == id@);
            assert forall|x: Seq<u8>| #[trigger] self.model().dummis.contains(x) == m0.dummis.insert(id@).contains(x) by {
                if m0.dummis.contains(x) {
                    let j = choose|j: int| 0 <= j < d0.len() && (#[trigger] d0[j])@ == x;
                    assert(d1[j] == d0[j]);
                }
                if self.model().dummis.contains(x) && x != id@ {
                    let j = choose|j: int| 0 <= j < d1.len() && (#[trigger] d1[j])@ == x;
                    assert(j < d0.len());
                    assert(d0[j] == d1[j]);
                }
            }
            assert(self.model().dummis =~= m0.dummis.insert(id@));
            assert forall|a: int, b: int| #![trigger d1[a], d1[b]] 0 <= a < b < d1.len() implies d1[a]@ != d1[b]@ by {
                if b == d0.len() {
                    assert(d1[a] == d0[a]);
                    assert(!m0.dummis.contains(id@));
                } else {
                    assert(d1[a] == d0[a]);
                    assert(d1[b] == d0[b]);
                }
            }
            assert(has_key(self.model().locals, id@)) by {
                let locs = bind(m0.locals, id@, m0.locsiz);
                if has_key(m0.locals, id@) {
                    assert(locs[key_at(m0.locals, id@)].0 == id@);
                } else {
                    assert(locs[m0.locals.len() as int].0 == id@);
                }
            }
            assert(self.model().locals == m1.locals);
            assert forall|x: Seq<u8>| #[trigger] self.model().dummis.contains(x) implies has_key(self.model().locals, x) by {
                if x != id@ {
                    assert(m1.dummis.contains(x));
                }
            }
        }
    }

    pub fn resolve_var(&self, id: &DfString) -> (r: Option<&LocIdx>)
        requires
            self.wf(),
        ensures
            match r {
                Some(x) => sm_resolve(self.model(), id@) == Some(*x),
                None => sm_resolve(self.model(), id@) is None,
            },
    {
        let li = match self.locals.get(id) {
            Some(li) => li,
            None => {
                proof {
                    if has_key(self.model().locals, id@) {
                        let j = choose|j: int| 0 <= j < self.model().locals.len() && (#[trigger] self.model().locals[j]).0 == id@;
                        assert(self.locals@[j].0.eq_spec(id));
                    }
                }
                return None;
            },
        };
        if self.dummy_index(id).is_some() {
            // it is not a variable yet
            None
        } else {
            proof {
                let i = choose|i: usize| is_first_key(self.locals@, *id, Some(i)) && *li == self.locals@[i as int].1;
                assert(self.model().locals[i as int].0 == id@);
                assert(key_at(self.model().locals, id@) == i as int);
            }
            Some(li)
        }
    }
}

impl Default for Scope {
    fn default() -> (r: Scope)
        ensures
            r.wf(),
            r.model() == fresh_scope(0),
    {
        Scope::with_locsiz(0)
    }
}

// Subroutines ---------------------------------------------------------------

/// Whether block `k` is among the blocks `ps`.
pub open spec fn lists(ps: Seq<BbIdx>, k: int) -> bool {
    exists|j: int| 0 <= j < ps.len() && ps[j] as int == k
}

/// `p` with the block `x` added, unless it is there.
pub open spec fn set_add(p: Seq<BbIdx>, x: BbIdx) -> Seq<BbIdx> {
    if p.contains(x) {
        p
    } else {
        p.push(x)
    }
}

/// `p` with the blocks `xs` added in order, each unless it is there.
pub open spec fn set_add_all(p: Seq<BbIdx>, xs: Seq<BbIdx>) -> Seq<BbIdx>
    decreases xs.len(),
{
    if xs.len() == 0 {
        p
    } else {
        set_add(set_add_all(p, xs.drop_last()), xs.last())
    }
}

/// Adding a block to a set of blocks is `set_add`.
proof fn lemma_add_block(p: Seq<BbIdx>, x: BbIdx, r: usize, q: Seq<BbIdx>)
    requires
        is_first_match(p, x, Some(r)) || (is_first_match(p, x, None) && r == p.len()),
        if is_first_match(p, x, None) {
            q == p.push(x)
        } else {
            q == p
        },
    ensures
        q == set_add(p, x),
{
    if p.contains(x) {
        let j = choose|j: int| 0 <= j < p.len() && p[j] == x;
        assert(p[j].eq_spec(&x));
    } else {
        assert forall|j: int| 0 <= j < p.len() implies !(#[trigger] p[j]).eq_spec(&x) by {
            if p[j] == x {
                assert(p.contains(x));
            }
        }
    }
}

/// The compiler state of one subroutine.
#[derive(Debug)]
pub struct SubrEnv {
    pub s_pres: Stack<Scope>,  // enclosing scopes
    pub s_curr: Scope,
    pub blocks: Vec<BasicBlock>,  // graph arena
    pub currbb: BasicBlock,  // current working block
    pub agn: Stack<BbIdx>,  // start of each enclosing loop, outer to inner
    pub brk: Stack<Vec<BbIdx>>,  // per loop, the blocks whose jumps are to be patched
}

/// Whether two states differ at most in the code of the current block.
pub open spec fn same_but_code(a: SubrEnv, b: SubrEnv) -> bool {
    &&& b.s_pres == a.s_pres
    &&& b.s_curr == a.s_curr
    &&& b.blocks == a.blocks
    &&& b.agn == a.agn
    &&& b.brk == a.brk
    &&& b.currbb.term == a.currbb.term
    &&& b.currbb.pred == a.currbb.pred
}

/// Whether two states differ at most in their scopes and in the code of the
/// current block.
pub open spec fn same_but_scopes(a: SubrEnv, b: SubrEnv) -> bool {
    &&& b.blocks == a.blocks
    &&& b.agn == a.agn
    &&& b.brk == a.brk
    &&& b.currbb.term == a.currbb.term
    &&& b.currbb.pred == a.currbb.pred
}

impl SubrEnv {
    /// The scopes, from the outermost to the current one.
    pub closed spec fn scopes(&self) -> Seq<ScopeModel> {
        self.s_pres@.map_values(|s: Scope| s.model()).push(self.s_curr.model())
    }

    pub closed spec fn scopes_wf(&self) -> bool {
        &&& self.s_curr.wf()
        &&& forall|k: int| 0 <= k < self.s_pres@.len() ==> (#[trigger] self.s_pres@[k]).wf()
    }

    /// The stack index of the variable `id` found `de` scopes out.
    pub fn get_loc_idx(&self, id: &DfString, de: usize) -> (r: &LocIdx)
        requires
            self.scopes_wf(),
            resolves(self.scopes(), id@, de),
        ensures
            Some(*r) == sm_resolve(scope_at(self.scopes(), de), id@),
    {
        let sc: &Scope = if de == 0 {
            &self.s_curr
        } else {
            self.s_pres.peek(de - 1).unwrap()
        };
        proof {
            if de > 0 {
                assert(self.scopes()[self.scopes().len() - 1 - de] == self.s_pres@[self.s_pres@.len() - de].model());
            }
        }
        sc.resolve_var(id).unwrap()
    }

    pub fn init_scope(&mut self)
        requires
            old(self).scopes_wf(),
        ensures
            final(self).scopes_wf(),
            final(self).scopes() == old(self).scopes().push(fresh_scope(old(self).scopes().last().locsiz)),
            same_but_scopes(*old(self), *final(self)),
            final(self).currbb.code == old(self).currbb.code,
    {
        let mut new_scope = Scope::with_locsiz(self.s_curr.locsiz);
        core::mem::swap(&mut self.s_curr, &mut new_scope);
        self.s_pres.push(new_scope);
        proof {
            assert(self.scopes() =~= old(self).scopes().push(fresh_scope(old(self).scopes().last().locsiz)));
        }
    }

    pub fn exit_scope(&mut self)
        requires
            old(self).scopes_wf(),
            old(self).s_pres@.len() > 0,
        ensures
            final(self).scopes_wf(),
            final(self).scopes() == old(self).scopes().drop_last(),
            same_but_scopes(*old(self), *final(self)),
            final(self).currbb.code@ == old(self).currbb.code@ + Seq::new(
                if old(self).s_pres@.last().model().locsiz > old(self).s_curr.model().locsiz {
                    (old(self).s_pres@.last().model().locsiz - old(self).s_curr.model().locsiz) as nat
                } else {
                    0
                },
                |i: int| ImOp::POP,
            ),
    {
        let last_s = self.s_pres.pop().unwrap();
        let mut k: usize = self.s_curr.locsiz;
        let ghost c0 = self.currbb.code@;
        while k < last_s.locsiz
            invariant
                old(self).s_curr.locsiz <= k,
                k <= last_s.locsiz || k == old(self).s_curr.locsiz,
                self.currbb.code@ == c0 + Seq::new((k - old(self).s_curr.locsiz) as nat, |i: int| ImOp::POP),
                self.currbb.term == old(self).currbb.term,
                self.currbb.pred == old(self).currbb.pred,
                self.blocks == old(self).blocks,
                self.agn == old(self).agn,
                self.brk == old(self).brk,
                self.s_curr == old(self).s_curr,
                self.s_pres@ == old(self).s_pres@.drop_last(),
            decreases last_s.locsiz - k,
        {
            self.push_op(ImOp::POP);
            k += 1;
            proof {
                assert(self.currbb.code@ =~= c0 + Seq::new((k - old(self).s_curr.locsiz) as nat, |i: int| ImOp::POP));
            }
        }
        proof {
            assert(self.currbb.code@ =~= c0 + Seq::new(
                if last_s.locsiz > old(self).s_curr.locsiz {
                    (last_s.locsiz - old(self).s_curr.locsiz) as nat
                } else {
                    0
                },
                |i: int| ImOp::POP,
            ));
        }
        self.s_curr = last_s;
        proof {
            assert(self.scopes() =~= old(self).scopes().drop_last());
        }
    }

    fn push_op(&mut self, op: ImOp)
        ensures
            final(self).currbb.code@ == old(self).currbb.code@.push(op),
            same_but_code(*old(self), *final(self)),
    {
        self.currbb.push(op);
    }

    fn curr_idx(&self) -> (r: BbIdx)
        ensures
            r == self.blocks@.len(),
    {
        self.blocks.len()
    }

    fn declar(&mut self, id: &DfString)
        requires
            old(self).scopes_wf(),
            sm_declar_ok(old(self).scopes().last(), id@),
        ensures
            final(self).scopes_wf(),
            final(self).scopes() == old(self).scopes().update(
                old(self).scopes().len() - 1,
                sm_declar(old(self).scopes().last(), id@),
            ),
            same_but_scopes(*old(self), *final(self)),
            final(self).currbb.code == old(self).currbb.code,
            final(self).s_pres == old(self).s_pres,
    {
        self.s_curr.declar(id);
        proof {
            assert(self.scopes() =~= old(self).scopes().update(
                old(self).scopes().len() - 1,
                sm_declar(old(self).scopes().last(), id@),
            ));
        }
    }

    fn declar_dummy(&mut self, id: &DfString)
        requires
            old(self).scopes_wf(),
            sm_declar_dummy_ok(old(self).scopes().last(), id@),
        ensures
            final(self).scopes_wf(),
            final(self).scopes() == old(self).scopes().update(
                old(self).scopes().len() - 1,
                sm_declar_dummy(old(self).scopes().last(), id@),
            ),
            same_but_scopes(*old(self), *final(self)),
            final(self).currbb.code@ == old(self).currbb.code@.push(ImOp::DUM),
            final(self).s_pres == old(self).s_pres,
    {
        self.push_op(ImOp::DUM);
        self.s_curr.declar_dummy(id);
        proof {
            assert(self.scopes() =~= old(self).scopes().update(
                old(self).scopes().len() - 1,
                sm_declar_dummy(old(self).scopes().last(), id@),
            ));
        }
    }

    fn slx(&mut self, id: &DfString, de: usize)
        requires
            old(self).scopes_wf(),
            resolves(old(self).scopes(), id@, de),
        ensures
            final(self).currbb.code@ == old(self).currbb.code@.push(ImOp::SLX(resolved(old(self).scopes(), id@, de))),
            same_but_code(*old(self), *final(self)),
    {
        let i = *self.get_loc_idx(id, de);
        self.push_op(ImOp::SLX(i));
    }

    fn llx(&mut self, id: &DfString, de: usize)
        requires
            old(self).scopes_wf(),
            resolves(old(self).scopes(), id@, de),
        ensures
            final(self).currbb.code@ == old(self).currbb.code@.push(ImOp::LLX(resolved(old(self).scopes(), id@, de))),
            same_but_code(*old(self), *final(self)),
    {
        let i = *self.get_loc_idx(id, de);
        self.push_op(ImOp::LLX(i));
    }

    /// Ends the current block with `t`, and starts a new one, which the ended
    /// block falls through to where `t` can; returns the index of the ended
    /// block.
    fn term_curr_bb(&mut self, t: Term) -> (r: BbIdx)
        ensures
            r == old(self).blocks@.len(),
            final(self).blocks@ == old(self).blocks@.push(BasicBlock { code: old(self).currbb.code, term: t, pred: old(self).currbb.pred }),
            final(self).currbb.code@ == Seq::<ImOp>::empty(),
            final(self).currbb.term == Term::NOP,
            final(self).currbb.pred@ == if term_can_thru(t) { seq![r] } else { Seq::<BbIdx>::empty() },
            final(self).s_pres == old(self).s_pres,
            final(self).s_curr == old(self).s_curr,
            final(self).agn == old(self).agn,
            final(self).brk == old(self).brk,
    {
        self.currbb.term = t;
        let last_idx = self.curr_idx();
        let last_term = self.currbb.term;
        let mut aux = BasicBlock::default();
        core::mem::swap(&mut self.currbb, &mut aux);
        self.blocks.push(aux);
        if last_term.can_thru() {
            // NOP, JF, etc.
            self.currbb.pred.add(last_idx);
            proof {
                assert(self.currbb.pred@ =~= seq![last_idx]);
            }
        }
        last_idx
    }

    /// Sets the terminator of block `from` to the jump `term`, and records
    /// `from` among the predecessors of the jump's target.
    fn patch_jump(&mut self, from: BbIdx, term: Term)
        requires
            from < old(self).blocks@.len(),
            term is JMP,
            term->JMP_1 <= old(self).blocks@.len(),
        ensures
            final(self).blocks@.len() == old(self).blocks@.len(),
            forall|k: int| 0 <= k < final(self).blocks@.len() ==> (#[trigger] final(self).blocks@[k]).code == old(self).blocks@[k].code,
            forall|k: int| 0 <= k < final(self).blocks@.len() && k != from ==> (#[trigger] final(self).blocks@[k]).term == old(self).blocks@[k].term,
            final(self).blocks@[from as int].term == term,
            final(self).currbb.code == old(self).currbb.code,
            final(self).currbb.term == old(self).currbb.term,
            final(self).s_pres == old(self).s_pres,
            final(self).s_curr == old(self).s_curr,
            final(self).agn == old(self).agn,
            final(self).brk == old(self).brk,
            term->JMP_1 == old(self).blocks@.len() ==> final(self).currbb.pred@ == set_add(old(self).currbb.pred@, from),
            term->JMP_1 != old(self).blocks@.len() ==> final(self).currbb.pred == old(self).currbb.pred,
            forall|k: int| 0 <= k < final(self).blocks@.len() ==> (#[trigger] final(self).blocks@[k]).pred@ == if k == term->JMP_1 {
                set_add(old(self).blocks@[k].pred@, from)
            } else {
                old(self).blocks@[k].pred@
            },
    {
        let t = term.jmp_target().unwrap();
        self.blocks[from].term = term;
        if t == self.curr_idx() {
            let ghost p = self.currbb.pred@;
            let r = self.currbb.pred.add(from);
            proof {
                lemma_add_block(p, from, r, self.currbb.pred@);
            }
        } else {
            let ghost p = self.blocks@[t as int].pred@;
            let r = self.blocks[t].pred.add(from);
            proof {
                lemma_add_block(p, from, r, self.blocks@[t as int].pred@);
            }
        }
    }

    pub fn init_loop(&mut self, start_bbi: BbIdx)
        ensures
            final(self).agn@ == old(self).agn@.push(start_bbi),
            final(self).brk@.len() == old(self).brk@.len() + 1,
            forall|k: int| 0 <= k < old(self).brk@.len() ==> #[trigger] final(self).brk@[k] == old(self).brk@[k],
            final(self).brk@.last()@ == Seq::<BbIdx>::empty(),
            final(self).s_pres == old(self).s_pres,
            final(self).s_curr == old(self).s_curr,
            final(self).blocks == old(self).blocks,
            final(self).currbb == old(self).currbb,
    {
        self.agn.push(start_bbi);
        self.brk.push(Vec::new());
    }

    /// Leaves the innermost loop: its breaks jump to `end_bbi`.
    pub fn exit_loop(&mut self, end_bbi: BbIdx)
        requires
            old(self).brk@.len() > 0,
            end_bbi <= old(self).blocks@.len(),
            forall|k: int| 0 <= k < old(self).brk@.last()@.len() ==> #[trigger] old(self).brk@.last()@[k] < old(self).blocks@.len(),
        ensures
            final(self).agn@ == if old(self).agn@.len() > 0 { old(self).agn@.drop_last() } else { old(self).agn@ },
            final(self).brk@ == old(self).brk@.drop_last(),
            final(self).blocks@.len() == old(self).blocks@.len(),
            forall|k: int| 0 <= k < final(self).blocks@.len() ==> (#[trigger] final(self).blocks@[k]).code == old(self).blocks@[k].code,
            forall|k: int| 0 <= k < final(self).blocks@.len() ==> (#[trigger] final(self).blocks@[k]).term == if lists(old(self).brk@.last()@, k) {
                Term::JMP(Jmp::JX, end_bbi)
            } else {
                old(self).blocks@[k].term
            },
            final(self).currbb.code == old(self).currbb.code,
            final(self).currbb.term == old(self).currbb.term,
            final(self).s_pres == old(self).s_pres,
            final(self).s_curr == old(self).s_curr,
            end_bbi == old(self).blocks@.len() ==> final(self).currbb.pred@ == set_add_all(
                old(self).currbb.pred@,
                old(self).brk@.last()@,
            ),
            end_bbi != old(self).blocks@.len() ==> final(self).currbb.pred == old(self).currbb.pred,
            forall|k: int| 0 <= k < final(self).blocks@.len() ==> (#[trigger] final(self).blocks@[k]).pred@ == if k == end_bbi {
                set_add_all(old(self).blocks@[k].pred@, old(self).brk@.last()@)
            } else {
                old(self).blocks@[k].pred@
            },
    {
        // discard the agains
        let _ = self.agn.pop();
        // patch the breaks
        let patches = self.brk.pop().unwrap();
        let jj = Term::JMP(Jmp::JX, end_bbi);
        let mut i: usize = 0;
        while i < patches.len()
            invariant
                i <= patches@.len(),
                patches@ == old(self).brk@.last()@,
                end_bbi <= old(self).blocks@.len(),
                jj == Term::JMP(Jmp::JX, end_bbi),
                forall|k: int| 0 <= k < patches@.len() ==> #[trigger] patches@[k] < old(self).blocks@.len(),
                self.agn@ == if old(self).agn@.len() > 0 { old(self).agn@.drop_last() } else { old(self).agn@ },
                self.brk@ == old(self).brk@.drop_last(),
                self.blocks@.len() == old(self).blocks@.len(),
                forall|k: int| 0 <= k < self.blocks@.len() ==> (#[trigger] self.blocks@[k]).code == old(self).blocks@[k].code,
                forall|k: int| 0 <= k < self.blocks@.len() ==> (#[trigger] self.blocks@[k]).term == if lists(patches@.take(i as int), k) {
                    jj
                } else {
                    old(self).blocks@[k].term
                },
                self.currbb.code == old(self).currbb.code,
                self.currbb.term == old(self).currbb.term,
                self.s_pres == old(self).s_pres,
                self.s_curr == old(self).s_curr,
                end_bbi == old(self).blocks@.len() ==> self.currbb.pred@ == set_add_all(
                    old(self).currbb.pred@,
                    patches@.take(i as int),
                ),
                end_bbi != old(self).blocks@.len() ==> self.currbb.pred == old(self).currbb.pred,
                forall|k: int| 0 <= k < self.blocks@.len() ==> (#[trigger] self.blocks@[k]).pred@ == if k == end_bbi {
                    set_add_all(old(self).blocks@[k].pred@, patches@.take(i as int))
                } else {
                    old(self).blocks@[k].pred@
                },
            decreases patches@.len() - i,
        {
            let p = patches[i];
            proof {
                assert(patches@.take(i + 1).drop_last() =~= patches@.take(i as int));
                assert(patches@.take(i + 1).last() == p);
            }
            self.patch_jump(p, jj);
            i += 1;
            proof {
                assert forall|k: int| 0 <= k < self.blocks@.len() implies (#[trigger] self.blocks@[k]).term == if lists(patches@.take(i as int), k) {
                    jj
                } else {
                    old(self).blocks@[k].term
                } by {
                    assert(patches@.take(i as int) =~= patches@.take(i - 1).push(p));
                    if k != p as int {
                        let a = patches@.take(i as int);
                        let b = patches@.take(i - 1);
                        assert(a[i - 1] == p);
                        if lists(a, k) {
                            let j = choose|j: int| 0 <= j < a.len() && a[j] as int == k;
                            assert(j != i - 1);
                            assert(b[j] == a[j]);
                        }
                        if lists(b, k) {
                            let j = choose|j: int| 0 <= j < b.len() && b[j] as int == k;
                            assert(a[j] == b[j]);
                        }
                    } else {
                        assert(patches@.take(i as int)[i - 1] == p);
                    }
                }
            }
        }
        proof {
            assert(patches@.take(patches@.len() as int) =~= patches@);
        }
    }
}

impl Default for SubrEnv {
    fn default() -> (r: SubrEnv)
        ensures
            r.scopes_wf(),
            r.scopes() == seq![fresh_scope(0)],
            r.s_pres@.len() == 0,
            r.blocks@ == Seq::<BasicBlock>::empty(),
            r.currbb.code@ == Seq::<ImOp>::empty(),
            r.currbb.term == Term::NOP,
            r.currbb.pred@ == Seq::<BbIdx>::empty(),
            r.agn@ == Seq::<BbIdx>::empty(),
            r.brk@ == Seq::<Vec<BbIdx>>::empty(),
    {
        let r = SubrEnv {
            s_pres: Stack::default(),
            s_curr: Scope::default(),
            blocks: Vec::new(),
            currbb: BasicBlock::default(),
            agn: Stack::default(),
            brk: Stack::default(),
        };
        proof {
            assert(r.scopes() =~= seq![fresh_scope(0)]);
        }
        r
    }
}

/// Compiles a typed AST into a graph of basic blocks.
#[derive(Debug)]
pub struct Compiler {
    pub consts: ArraySet<Val>,  // constant pool
    pub idents: ArraySet<DfString>,  // identifier pool
    pub curr: SubrEnv,
}

// What the compiler does ------------------------------------------------------

/// Whether the reals of these bits lie within `f64::EPSILON` of 1.0: 1.0
/// itself and the largest double below it.
pub open spec fn near_one(bits: u64) -> bool {
    bits == 0x3FF0_0000_0000_0000u64 || bits == 0x3FEF_FFFF_FFFF_FFFFu64
}

/// The pool after interning `v`, and the index of `v` in it: the first equal
/// constant, or a new one at the end.
pub open spec fn intern(cs: Seq<Val>, v: Val) -> (Seq<Val>, CtnIdx) {
    if exists|i: usize| is_first_match(cs, v, Some(i)) {
        (cs, choose|i: usize| is_first_match(cs, v, Some(i)))
    } else {
        (cs.push(v), cs.len() as CtnIdx)
    }
}

/// The code that loads the constant `v`, and the pool after it.
pub open spec fn const_code(v: Val, cs: Seq<Val>) -> (Seq<ImOp>, Seq<Val>) {
    if v == Val::N(1) {
        (seq![ImOp::LN1], cs)
    } else if v is R && near_one(v->R_0) {
        (seq![ImOp::LR1], cs)
    } else {
        (seq![ImOp::LKX(intern(cs, v).1)], intern(cs, v).0)
    }
}

/// The value that a load opcode pushes, read against the constant pool `cs`;
/// `None` for an opcode that loads no constant, or an index off the pool.
pub open spec fn loaded_value(op: ImOp, cs: Seq<Val>) -> Option<Val> {
    match op {
        ImOp::LN1 => Some(Val::N(1)),
        ImOp::LR1 => Some(Val::R(0x3FF0_0000_0000_0000u64)),
        ImOp::LKX(i) => if i < cs.len() {
            Some(cs[i as int])
        } else {
            None
        },
        _ => None,
    }
}

/// The code of a constant is one load that pushes that very constant (a real
/// within `f64::EPSILON` of 1.0 is loaded as 1.0), and the pool only grows at
/// its end, by at most the constant itself (for a pool that still has room).
pub proof fn lemma_constant_code_loads_it(v: Val, cs: Seq<Val>)
    requires
        cs.len() < usize::MAX,
    ensures
        const_code(v, cs).0.len() == 1,
        const_code(v, cs).1.len() <= cs.len() + 1,
        const_code(v, cs).1.take(cs.len() as int) == cs,
        !(v is R && near_one(v->R_0)) ==> loaded_value(const_code(v, cs).0[0], const_code(v, cs).1) == Some(v),
        v is R && near_one(v->R_0) ==> loaded_value(const_code(v, cs).0[0], const_code(v, cs).1) == Some(
            Val::R(0x3FF0_0000_0000_0000u64),
        ),
{
    if v == Val::N(1) {
        assert(cs.take(cs.len() as int) =~= cs);
    } else if v is R && near_one(v->R_0) {
        assert(cs.take(cs.len() as int) =~= cs);
    } else if exists|i: usize| is_first_match(cs, v, Some(i)) {
        let j = choose|i: usize| is_first_match(cs, v, Some(i));
        assert(val_eq(cs[j as int], v));
        assert(cs[j as int] == v) by {
            match (cs[j as int], v) {
                (Val::B(_), Val::B(_)) => {},
                (Val::C(_), Val::C(_)) => {},
                (Val::N(_), Val::N(_)) => {},
                (Val::Z(_), Val::Z(_)) => {},
                _ => {},
            }
        }
        assert(intern(cs, v).1 == j);
        assert(cs.take(cs.len() as int) =~= cs);
    } else {
        assert(cs.push(v).take(cs.len() as int) =~= cs);
    }
}

/// Whether the compiler takes the expression in these scopes: its variables
/// are found, it has no cast, and it compares at most once.
pub open spec fn expr_ok(e: ExprWt, scs: Seq<ScopeModel>) -> bool
    decreases e,
{
    match e.e {
        ExprWte::Const(_) => true,
        ExprWte::Local(i, d) => resolves(scs, i@, d),
        ExprWte::UniOp(x, _) => expr_ok(*x, scs),
        ExprWte::BinOp(l, _, r) => expr_ok(*l, scs) && expr_ok(*r, scs),
        ExprWte::CmpOp(f, v) => expr_ok(*f, scs) && v@.len() <= 1 && (v@.len() == 1 ==> expr_ok(v@[0].1, scs)),
        ExprWte::Tcast(_, _) => false,
    }
}

/// The code of an expression, operands first, and the pool after it.
pub open spec fn expr_code(e: ExprWt, scs: Seq<ScopeModel>, cs: Seq<Val>) -> (Seq<ImOp>, Seq<Val>)
    decreases e,
{
    match e.e {
        ExprWte::Const(v) => const_code(v, cs),
        ExprWte::Local(i, d) => (seq![ImOp::LLX(resolved(scs, i@, d))], cs),
        ExprWte::UniOp(x, o) => {
            let (c, cs1) = expr_code(*x, scs, cs);
            (c.push(ImOp::UNO(o)), cs1)
        },
        ExprWte::BinOp(l, o, r) => {
            let (cl, cs1) = expr_code(*l, scs, cs);
            let (cr, cs2) = expr_code(*r, scs, cs1);
            ((cl + cr).push(ImOp::BIO(o)), cs2)
        },
        ExprWte::CmpOp(f, v) => {
            let (cf, cs1) = expr_code(*f, scs, cs);
            if v@.len() == 0 {
                (cf, cs1)
            } else {
                let (cr, cs2) = expr_code(v@[0].1, scs, cs1);
                ((cf + cr).push(ImOp::CMP(v@[0].0)), cs2)
            }
        },
        ExprWte::Tcast(_, _) => (seq![], cs),
    }
}

/// The scope after preloading the variables declared by the first `n`
/// statements of `b`, or nothing where one is preloaded twice or the stack
/// cannot grow.
pub open spec fn preload(b: Seq<StmtWt>, n: int, s: ScopeModel) -> Option<ScopeModel>
    decreases n,
{
    if n <= 0 || n > b.len() {
        Some(s)
    } else {
        match preload(b, n - 1, s) {
            None => None,
            Some(t) => match b[n - 1] {
                StmtWt::Declar(i, _) => if sm_declar_dummy_ok(t, i@) {
                    Some(sm_declar_dummy(t, i@))
                } else {
                    None
                },
                _ => Some(t),
            },
        }
    }
}

/// The scopes after a statement, or nothing where the compiler does not take
/// it.
pub open spec fn stmt_effect(s: StmtWt, scs: Seq<ScopeModel>) -> Option<Seq<ScopeModel>>
    decreases s, 0int,
{
    if scs.len() == 0 {
        None
    } else {
        match s {
            StmtWt::Declar(i, e) => if expr_ok(e, scs) && sm_declar_ok(scs.last(), i@) {
                Some(scs.update(scs.len() - 1, sm_declar(scs.last(), i@)))
            } else {
                None
            },
            StmtWt::VarAss(i, e, d) => if expr_ok(e, scs) && resolves(scs, i@, d) {
                Some(scs)
            } else {
                None
            },
            StmtWt::Loooop(l) => {
                let fresh = fresh_scope(scs.last().locsiz);
                match l {
                    LoopWt::Inf(b) => match preload(b@, b@.len() as int, fresh) {
                        None => None,
                        Some(p) => match block_effect(b@, b@.len() as int, scs.push(p)) {
                            None => None,
                            Some(_) => Some(scs),
                        },
                    },
                    LoopWt::Cdt(b0, e, b1) => match preload(b0@, b0@.len() as int, fresh) {
                        None => None,
                        Some(p0) => match preload(b1@, b1@.len() as int, p0) {
                            None => None,
                            Some(p1) => match block_effect(b0@, b0@.len() as int, scs.push(p1)) {
                                None => None,
                                Some(s2) => if expr_ok(e, s2) {
                                    match block_effect(b1@, b1@.len() as int, s2) {
                                        None => None,
                                        Some(_) => Some(scs),
                                    }
                                } else {
                                    None
                                },
                            },
                        },
                    },
                }
            },
        }
    }
}

/// The scopes after the first `n` statements of a block, or nothing where
/// the compiler does not take one of them.
pub open spec fn block_effect(b: Seq<StmtWt>, n: int, scs: Seq<ScopeModel>) -> Option<Seq<ScopeModel>>
    decreases b, n,
{
    if n <= 0 || n > b.len() {
        Some(scs)
    } else {
        match block_effect(b, n - 1, scs) {
            None => None,
            Some(t) => stmt_effect(b[n - 1], t),
        }
    }
}

/// Whether the compiler takes a program.
pub open spec fn compilable(main: Seq<StmtWt>) -> bool {
    block_effect(main, main.len() as int, seq![fresh_scope(0)]) is Some
}

// What the compiler emits ----------------------------------------------------

/// A basic block as a value: its code, its terminator and its predecessors.
pub struct BbModel {
    pub code: Seq<ImOp>,
    pub term: Term,
    pub pred: Seq<BbIdx>,
}

/// What the compiler has emitted: the finished blocks, the code and the
/// predecessors of the current block, and the constant pool.
pub struct Emitted {
    pub blocks: Seq<BbModel>,
    pub code: Seq<ImOp>,
    pub pred: Seq<BbIdx>,
    pub consts: Seq<Val>,
}

pub open spec fn bb_model(b: BasicBlock) -> BbModel {
    BbModel { code: b.code@, term: b.term, pred: b.pred@ }
}

pub open spec fn blocks_model(bbs: Seq<BasicBlock>) -> Seq<BbModel> {
    bbs.map_values(|b: BasicBlock| bb_model(b))
}

/// Nothing emitted yet.
pub open spec fn em_start() -> Emitted {
    Emitted { blocks: seq![], code: seq![], pred: seq![], consts: seq![] }
}

/// The code `c` appended to the current block.
pub open spec fn em_code(m: Emitted, c: Seq<ImOp>) -> Emitted {
    Emitted { code: m.code + c, ..m }
}

/// The code of an expression appended to the current block.
pub open spec fn em_expr(e: ExprWt, scs: Seq<ScopeModel>, m: Emitted) -> Emitted {
    Emitted { code: m.code + expr_code(e, scs, m.consts).0, consts: expr_code(e, scs, m.consts).1, ..m }
}

/// The current block ended with `t`; the next one has the ended one for a
/// predecessor where `t` can fall through.
pub open spec fn em_term(m: Emitted, t: Term) -> Emitted {
    Emitted {
        blocks: m.blocks.push(BbModel { code: m.code, term: t, pred: m.pred }),
        code: seq![],
        pred: if term_can_thru(t) {
            seq![m.blocks.len() as BbIdx]
        } else {
            seq![]
        },
        consts: m.consts,
    }
}

/// A placeholder for each variable that the first `n` statements of `b`
/// declare.
pub open spec fn dum_code(b: Seq<StmtWt>, n: int) -> Seq<ImOp>
    decreases n,
{
    if n <= 0 || n > b.len() {
        seq![]
    } else {
        match b[n - 1] {
            StmtWt::Declar(_, _) => dum_code(b, n - 1).push(ImOp::DUM),
            _ => dum_code(b, n - 1),
        }
    }
}

/// The pops on leaving the scope `inner` for `outer`: one for each place by
/// which the stack of `outer` is larger.
pub open spec fn pops(outer: ScopeModel, inner: ScopeModel) -> Seq<ImOp> {
    Seq::new(
        if outer.locsiz > inner.locsiz {
            (outer.locsiz - inner.locsiz) as nat
        } else {
            0
        },
        |i: int| ImOp::POP,
    )
}

/// The block `br` of `m` ended with a jump if false to the current block,
/// which gets `br` for a predecessor.
pub open spec fn em_patch(m: Emitted, br: int) -> Emitted {
    Emitted {
        blocks: m.blocks.update(
            br,
            BbModel { term: Term::JMP(Jmp::YX(false), m.blocks.len() as BbIdx), ..m.blocks[br] },
        ),
        pred: set_add(m.pred, br as BbIdx),
        ..m
    }
}

/// What the compiler emits for a loop, with the loop's preloaded scope on
/// top of `scs`: a new block, the loop's first block and its condition, a
/// branch out where the condition is false, the second block, and a jump
/// back to the new block; a loop with no condition has no branch.
pub open spec fn em_loop(l: LoopWt, scs: Seq<ScopeModel>, m: Emitted) -> Emitted
    decreases l, 0int,
{
    let m1 = em_term(m, Term::NOP);
    let back = Term::JMP(Jmp::JX, m1.blocks.len() as BbIdx);
    match l {
        LoopWt::Inf(b) => em_term(em_block(b@, b@.len() as int, scs, m1), back),
        LoopWt::Cdt(b0, e, b1) => {
            let s2 = block_effect(b0@, b0@.len() as int, scs)->Some_0;
            let m2 = em_expr(e, s2, em_block(b0@, b0@.len() as int, scs, m1));
            let m3 = em_term(m2, Term::PCH(true));
            let m4 = em_term(em_block(b1@, b1@.len() as int, s2, m3), back);
            em_patch(m4, m2.blocks.len() as int)
        },
    }
}

/// What the compiler emits for a statement in the scopes `scs`.
pub open spec fn em_stmt(s: StmtWt, scs: Seq<ScopeModel>, m: Emitted) -> Emitted
    decreases s, 0int,
{
    match s {
        StmtWt::Declar(_, e) => em_expr(e, scs, m),
        StmtWt::VarAss(i, e, d) => em_code(em_expr(e, scs, m), seq![ImOp::SLX(resolved(scs, i@, d))]),
        StmtWt::Loooop(l) => {
            let fresh = fresh_scope(scs.last().locsiz);
            match l {
                LoopWt::Inf(b) => {
                    let p = preload(b@, b@.len() as int, fresh)->Some_0;
                    let m1 = em_code(m, dum_code(b@, b@.len() as int));
                    let inner = block_effect(b@, b@.len() as int, scs.push(p))->Some_0.last();
                    em_code(em_loop(l, scs.push(p), m1), pops(scs.last(), inner))
                },
                LoopWt::Cdt(b0, e, b1) => {
                    let p0 = preload(b0@, b0@.len() as int, fresh)->Some_0;
                    let p1 = preload(b1@, b1@.len() as int, p0)->Some_0;
                    let m1 = em_code(m, dum_code(b0@, b0@.len() as int) + dum_code(b1@, b1@.len() as int));
                    let s2 = block_effect(b0@, b0@.len() as int, scs.push(p1))->Some_0;
                    let inner = block_effect(b1@, b1@.len() as int, s2)->Some_0.last();
                    em_code(em_loop(l, scs.push(p1), m1), pops(scs.last(), inner))
                },
            }
        },
    }
}

/// What the compiler emits for the first `n` statements of a block.
pub open spec fn em_block(b: Seq<StmtWt>, n: int, scs: Seq<ScopeModel>, m: Emitted) -> Emitted
    decreases b, n,
{
    if n <= 0 || n > b.len() {
        m
    } else {
        em_stmt(b[n - 1], block_effect(b, n - 1, scs)->Some_0, em_block(b, n - 1, scs, m))
    }
}

/// The compiled program: the main block in the outermost scope, ended by a
/// halt.
pub open spec fn compiled(main: Seq<StmtWt>) -> Emitted {
    em_term(em_block(main, main.len() as int, seq![fresh_scope(0)], em_start()), Term::HLT)
}

/// The size of an expression, as far as the compiler goes into it.
pub open spec fn expr_size(e: ExprWt) -> nat
    decreases e,
{
    match e.e {
        ExprWte::UniOp(x, _) => 1 + expr_size(*x),
        ExprWte::BinOp(l, _, r) => 1 + expr_size(*l) + expr_size(*r),
        ExprWte::CmpOp(f, v) => 1 + expr_size(*f) + if v@.len() >= 1 {
            expr_size(v@[0].1)
        } else {
            0
        },
        _ => 1,
    }
}

/// Whether an opcode loads only constants of a pool of `nc` constants.
pub open spec fn ctn_ok(op: ImOp, nc: int) -> bool {
    match op {
        ImOp::LKX(i) => i < nc,
        _ => true,
    }
}

/// Whether a piece of code loads only constants of a pool of `nc` constants.
pub open spec fn code_ok(code: Seq<ImOp>, nc: int) -> bool {
    forall|j: int| 0 <= j < code.len() ==> ctn_ok(#[trigger] code[j], nc)
}

/// Whether a terminator is final in a graph of `n` blocks: no patch is
/// pending, and a jump is a goto or a jump-if-false that lands on a block or
/// just past the last one.
pub open spec fn term_ok(t: Term, n: int) -> bool {
    match t {
        Term::PCH(_) => false,
        Term::JMP(j, tgt) => (j == Jmp::JX || j == Jmp::YX(false)) && tgt <= n,
        _ => true,
    }
}

/// Whether the blocks from `lo` on are final and load only constants of a
/// pool of `nc` constants.
pub open spec fn new_blocks_ok(bbs: Seq<BasicBlock>, lo: int, nc: int) -> bool {
    forall|k: int| lo <= k < bbs.len() ==> term_ok((#[trigger] bbs[k]).term, bbs.len() as int) && code_ok(bbs[k].code@, nc)
}

/// Whether a compiled graph is complete: it ends with a halt, every jump lands
/// on one of its blocks, no patch is pending, and every constant that is
/// loaded is in a pool of `nc` constants.
pub open spec fn compiled_ok(bbs: Seq<BasicBlock>, nc: int) -> bool {
    &&& bbs.len() >= 1
    &&& bbs.last().term == Term::HLT
    &&& forall|k: int| 0 <= k < bbs.len() ==> term_ok((#[trigger] bbs[k]).term, bbs.len() - 1) && code_ok(bbs[k].code@, nc)
}

/// The compiler goes from state `a` to state `b` by adding: constants at the
/// end of the pool, and final blocks after the blocks of `a`, whose code and
/// terminators stay.
pub open spec fn grows(a: Compiler, b: Compiler) -> bool {
    &&& a.consts@.len() <= b.consts@.len()
    &&& forall|i: int| 0 <= i < a.consts@.len() ==> #[trigger] b.consts@[i] == a.consts@[i]
    &&& a.curr.blocks@.len() <= b.curr.blocks@.len()
    &&& forall|k: int| 0 <= k < a.curr.blocks@.len() ==> (#[trigger] b.curr.blocks@[k]).code == a.curr.blocks@[k].code
        && b.curr.blocks@[k].term == a.curr.blocks@[k].term
    &&& new_blocks_ok(b.curr.blocks@, a.curr.blocks@.len() as int, b.consts@.len() as int)
    &&& b.curr.agn@ == a.curr.agn@
    &&& b.curr.brk@.len() == a.curr.brk@.len()
    &&& b.idents == a.idents
}

/// What the compiler `c` has emitted.
pub open spec fn emitted(c: Compiler) -> Emitted {
    Emitted {
        blocks: blocks_model(c.curr.blocks@),
        code: c.curr.currbb.code@,
        pred: c.curr.currbb.pred@,
        consts: c.consts@,
    }
}

proof fn lemma_blocks_model_push(a: Seq<BasicBlock>, x: BasicBlock)
    ensures
        blocks_model(a.push(x)) == blocks_model(a).push(bb_model(x)),
{
    assert(blocks_model(a.push(x)) =~= blocks_model(a).push(bb_model(x)));
}

proof fn lemma_blocks_model_same(a: Seq<BasicBlock>, b: Seq<BasicBlock>)
    requires
        a.len() == b.len(),
        forall|k: int| 0 <= k < a.len() ==> (#[trigger] a[k]).code == b[k].code && a[k].term == b[k].term
            && a[k].pred@ == b[k].pred@,
    ensures
        blocks_model(a) == blocks_model(b),
{
    assert(blocks_model(a) =~= blocks_model(b));
}

/// The compiler's state is consistent: the pool holds no two equal
/// constants, the scopes are well formed, the current block loads only
/// constants of the pool, and no break waits for a patch.
pub open spec fn cwf(c: Compiler) -> bool {
    &&& no_later_equal(c.consts@)
    &&& c.curr.scopes_wf()
    &&& code_ok(c.curr.currbb.code@, c.consts@.len() as int)
    &&& forall|k: int| 0 <= k < c.curr.brk@.len() ==> (#[trigger] c.curr.brk@[k])@.len() == 0
}

proof fn lemma_grows_trans(a: Compiler, b: Compiler, c: Compiler)
    requires
        grows(a, b),
        grows(b, c),
    ensures
        grows(a, c),
{
    assert forall|k: int| a.curr.blocks@.len() <= k < c.curr.blocks@.len() implies term_ok((#[trigger] c.curr.blocks@[k]).term, c.curr.blocks@.len() as int)
        && code_ok(c.curr.blocks@[k].code@, c.consts@.len() as int) by {
        if k < b.curr.blocks@.len() {
            assert(term_ok(b.curr.blocks@[k].term, b.curr.blocks@.len() as int));
            assert(code_ok(b.curr.blocks@[k].code@, b.consts@.len() as int));
        }
    }
}

/// A block that the compiler takes begins with statements that it takes.
proof fn lemma_block_prefix(b: Seq<StmtWt>, n: int, i: int, scs: Seq<ScopeModel>)
    requires
        block_effect(b, n, scs) is Some,
        0 <= i <= n <= b.len(),
    ensures
        block_effect(b, i, scs) is Some,
    decreases n,
{
    if i < n {
        lemma_block_prefix(b, n - 1, i, scs);
    }
}

/// A block keeps the number of scopes and all the enclosing scopes.
proof fn lemma_block_frame(b: Seq<StmtWt>, n: int, scs: Seq<ScopeModel>)
    requires
        block_effect(b, n, scs) is Some,
    ensures
        block_effect(b, n, scs)->Some_0.len() == scs.len(),
        forall|i: int| 0 <= i < scs.len() - 1 ==> #[trigger] block_effect(b, n, scs)->Some_0[i] == scs[i],
    decreases n,
{
    if 0 < n <= b.len() {
        lemma_block_frame(b, n - 1, scs);
        lemma_stmt_frame(b[n - 1], block_effect(b, n - 1, scs)->Some_0);
    }
}

/// A statement keeps the number of scopes and all the enclosing scopes.
proof fn lemma_stmt_frame(s: StmtWt, scs: Seq<ScopeModel>)
    requires
        stmt_effect(s, scs) is Some,
    ensures
        stmt_effect(s, scs)->Some_0.len() == scs.len(),
        forall|i: int| 0 <= i < scs.len() - 1 ==> #[trigger] stmt_effect(s, scs)->Some_0[i] == scs[i],
{
    match s {
        StmtWt::Declar(id, e) => {
            assert(stmt_effect(s, scs)->Some_0 == scs.update(scs.len() - 1, sm_declar(scs.last(), id@)));
        },
        _ => {},
    }
}

/// A preloading that succeeds begins with preloadings that succeed.
proof fn lemma_preload_prefix(b: Seq<StmtWt>, n: int, i: int, s: ScopeModel)
    requires
        preload(b, n, s) is Some,
        0 <= i <= n <= b.len(),
    ensures
        preload(b, i, s) is Some,
    decreases n,
{
    if i < n {
        lemma_preload_prefix(b, n - 1, i, s);
    }
}

impl Compiler {
    /// Compiles the main block of a program: its graph ends with a halt.
    pub fn from_asterix(main: &BlockWt) -> (r: Self)
        requires
            compilable(main@),
        ensures
            emitted(r) == compiled(main@),
            compiled_ok(r.curr.blocks@, r.consts@.len() as int),
            no_later_equal(r.consts@),
            r.idents@ == Seq::<DfString>::empty(),
    {
        let mut program = Self::default();
        program.no_env_block(main);
        let ghost before = program;
        program.term_curr_bb(Term::HLT);
        proof {
            let bbs = program.curr.blocks@;
            assert forall|k: int| 0 <= k < bbs.len() implies term_ok((#[trigger] bbs[k]).term, bbs.len() - 1) && code_ok(bbs[k].code@, program.consts@.len() as int) by {
                if k < bbs.len() - 1 {
                    assert(bbs[k] == before.curr.blocks@[k]);
                }
            }
        }
        program
    }

    fn intern_ctn(&mut self, v: &Val) -> (r: CtnIdx)
        requires
            no_later_equal(old(self).consts@),
        ensures
            (final(self).consts@, r) == intern(old(self).consts@, *v),
            no_later_equal(final(self).consts@),
            final(self).curr == old(self).curr,
            final(self).idents == old(self).idents,
    {
        match self.consts.index_of(v) {
            Some(i) => {
                proof {
                    let j = choose|j: usize| is_first_match(self.consts@, *v, Some(j));
                    assert(j == i);
                }
                i
            },
            None => {
                let r = self.consts.add(*v);
                proof {
                    assert(!exists|i: usize| is_first_match(old(self).consts@, *v, Some(i)));
                }
                r
            },
        }
    }

    fn push_op(&mut self, op: ImOp)
        ensures
            final(self).curr.currbb.code@ == old(self).curr.currbb.code@.push(op),
            same_but_code(old(self).curr, final(self).curr),
            final(self).consts == old(self).consts,
            final(self).idents == old(self).idents,
            emitted(*final(self)) == em_code(emitted(*old(self)), seq![op]),
    {
        self.curr.push_op(op);
        assert(self.curr.currbb.code@ =~= old(self).curr.currbb.code@ + seq![op]);
    }

    fn term_curr_bb(&mut self, t: Term) -> (r: BbIdx)
        ensures
            r == old(self).curr.blocks@.len(),
            final(self).curr.blocks@ == old(self).curr.blocks@.push(BasicBlock { code: old(self).curr.currbb.code, term: t, pred: old(self).curr.currbb.pred }),
            final(self).curr.currbb.code@ == Seq::<ImOp>::empty(),
            final(self).curr.s_pres == old(self).curr.s_pres,
            final(self).curr.s_curr == old(self).curr.s_curr,
            final(self).curr.agn == old(self).curr.agn,
            final(self).curr.brk == old(self).curr.brk,
            final(self).consts == old(self).consts,
            final(self).idents == old(self).idents,
            emitted(*final(self)) == em_term(emitted(*old(self)), t),
    {
        let r = self.curr.term_curr_bb(t);
        proof {
            lemma_blocks_model_push(
                old(self).curr.blocks@,
                BasicBlock { code: old(self).curr.currbb.code, term: t, pred: old(self).curr.currbb.pred },
            );
        }
        r
    }

    fn curr_idx(&self) -> (r: BbIdx)
        ensures
            r == self.curr.blocks@.len(),
    {
        self.curr.curr_idx()
    }

    // Expressions

    fn expr(&mut self, ex: &ExprWt)
        requires
            cwf(*old(self)),
            expr_ok(*ex, old(self).curr.scopes()),
        ensures
            cwf(*final(self)),
            final(self).curr.currbb.code@ == old(self).curr.currbb.code@ + expr_code(*ex, old(self).curr.scopes(), old(self).consts@).0,
            final(self).consts@ == expr_code(*ex, old(self).curr.scopes(), old(self).consts@).1,
            grows(*old(self), *final(self)),
            same_but_code(old(self).curr, final(self).curr),
            emitted(*final(self)) == em_expr(*ex, old(self).curr.scopes(), emitted(*old(self))),
        decreases expr_size(*ex), 2nat,
    {
        match &ex.e {
            ExprWte::Const(v) => self.e_const(v),
            ExprWte::Local(i, d) => {
                self.curr.llx(i, *d);
                proof {
                    assert(self.curr.currbb.code@ =~= old(self).curr.currbb.code@ + expr_code(*ex, old(self).curr.scopes(), old(self).consts@).0);
                }
            },
            ExprWte::UniOp(e, o) => self.e_uniop(e, o),
            ExprWte::BinOp(l, o, r) => self.e_binop(l, o, r),
            ExprWte::CmpOp(f, v) => self.e_cmpop(f, v.as_slice()),
            ExprWte::Tcast(_, _) => {},  // casts are not compiled
        }
    }

    fn e_const(&mut self, v: &Val)
        requires
            cwf(*old(self)),
        ensures
            cwf(*final(self)),
            final(self).curr.currbb.code@ == old(self).curr.currbb.code@ + const_code(*v, old(self).consts@).0,
            final(self).consts@ == const_code(*v, old(self).consts@).1,
            grows(*old(self), *final(self)),
            same_but_code(old(self).curr, final(self).curr),
    {
        match v {
            Val::N(1) => {
                self.push_op(ImOp::LN1);
                proof {
                    assert(self.curr.currbb.code@ =~= old(self).curr.currbb.code@ + const_code(*v, old(self).consts@).0);
                }
                return;
            },
            Val::R(r) => {
                // the reals within f64::EPSILON of 1.0
                if *r == 0x3FF0_0000_0000_0000u64 || *r == 0x3FEF_FFFF_FFFF_FFFFu64 {
                    self.push_op(ImOp::LR1);
                    proof {
                        assert(self.curr.currbb.code@ =~= old(self).curr.currbb.code@ + const_code(*v, old(self).consts@).0);
                    }
                    return;
                }
            },
            _ => {},
        }
        let idx = self.intern_ctn(v);
        self.push_op(ImOp::LKX(idx));
        proof {
            assert(self.curr.currbb.code@ =~= old(self).curr.currbb.code@ + const_code(*v, old(self).consts@).0);
            let code = self.curr.currbb.code@;
            assert forall|j: int| 0 <= j < code.len() implies ctn_ok(#[trigger] code[j], self.consts@.len() as int) by {
                if j < code.len() - 1 {
                    assert(ctn_ok(old(self).curr.currbb.code@[j], old(self).consts@.len() as int));
                }
            }
        }
    }

    fn e_uniop(&mut self, e: &ExprWt, o: &UniOpWt)
        requires
            cwf(*old(self)),
            expr_ok(*e, old(self).curr.scopes()),
        ensures
            cwf(*final(self)),
            final(self).curr.currbb.code@ == (old(self).curr.currbb.code@ + expr_code(*e, old(self).curr.scopes(), old(self).consts@).0).push(ImOp::UNO(*o)),
            final(self).consts@ == expr_code(*e, old(self).curr.scopes(), old(self).consts@).1,
            grows(*old(self), *final(self)),
            same_but_code(old(self).curr, final(self).curr),
        decreases expr_size(*e) + 1, 1nat,
    {
        self.expr(e);
        self.push_op(ImOp::UNO(*o));
    }

    fn e_binop(&mut self, l: &ExprWt, o: &BinOpWt, r: &ExprWt)
        requires
            cwf(*old(self)),
            expr_ok(*l, old(self).curr.scopes()),
            expr_ok(*r, old(self).curr.scopes()),
        ensures
            ({
                let (cl, cs1) = expr_code(*l, old(self).curr.scopes(), old(self).consts@);
                let (cr, cs2) = expr_code(*r, old(self).curr.scopes(), cs1);
                &&& final(self).curr.currbb.code@ == old(self).curr.currbb.code@ + (cl + cr).push(ImOp::BIO(*o))
                &&& final(self).consts@ == cs2
            }),
            cwf(*final(self)),
            grows(*old(self), *final(self)),
            same_but_code(old(self).curr, final(self).curr),
        decreases expr_size(*l) + expr_size(*r) + 1, 1nat,
    {
        let ghost s0 = *self;
        self.expr(l);
        let ghost s1 = *self;
        self.expr(r);
        let ghost s2 = *self;
        self.push_op(ImOp::BIO(*o));
        proof {
            lemma_grows_trans(s0, s1, s2);
            let (cl, cs1) = expr_code(*l, s0.curr.scopes(), s0.consts@);
            let (cr, cs2) = expr_code(*r, s0.curr.scopes(), cs1);
            assert(self.curr.currbb.code@ =~= old(self).curr.currbb.code@ + (cl + cr).push(ImOp::BIO(*o)));
        }
    }

    fn e_cmpop(&mut self, l: &ExprWt, v: &[(CmpOpWt, ExprWt)])
        requires
            cwf(*old(self)),
            expr_ok(*l, old(self).curr.scopes()),
            v@.len() <= 1,
            v@.len() == 1 ==> expr_ok(v@[0].1, old(self).curr.scopes()),
        ensures
            ({
                let (cf, cs1) = expr_code(*l, old(self).curr.scopes(), old(self).consts@);
                if v@.len() == 0 {
                    &&& final(self).curr.currbb.code@ == old(self).curr.currbb.code@ + cf
                    &&& final(self).consts@ == cs1
                } else {
                    let (cr, cs2) = expr_code(v@[0].1, old(self).curr.scopes(), cs1);
                    &&& final(self).curr.currbb.code@ == old(self).curr.currbb.code@ + (cf + cr).push(ImOp::CMP(v@[0].0))
                    &&& final(self).consts@ == cs2
                }
            }),
            cwf(*final(self)),
            grows(*old(self), *final(self)),
            same_but_code(old(self).curr, final(self).curr),
        decreases expr_size(*l) + if v@.len() >= 1 { expr_size(v@[0].1) } else { 0 } + 1, 1nat,
    {
        let ghost s0 = *self;
        self.expr(l);
        if v.len() == 0 {
            return;
        }
        // a single comparison
        let ghost s1 = *self;
        self.expr(&v[0].1);
        let ghost s2 = *self;
        self.push_op(ImOp::CMP(v[0].0));
        proof {
            lemma_grows_trans(s0, s1, s2);
            let (cf, cs1) = expr_code(*l, s0.curr.scopes(), s0.consts@);
            let (cr, cs2) = expr_code(v@[0].1, s0.curr.scopes(), cs1);
            assert(self.curr.currbb.code@ =~= old(self).curr.currbb.code@ + (cf + cr).push(ImOp::CMP(v@[0].0)));
        }
    }

    // Statements

    /// Compiles a block in a scope of its own.
    fn block(&mut self, b: &BlockWt)
        requires
            cwf(*old(self)),
            block_effect(b@, b@.len() as int, old(self).curr.scopes().push(fresh_scope(old(self).curr.scopes().last().locsiz))) is Some,
        ensures
            cwf(*final(self)),
            final(self).curr.scopes() == old(self).curr.scopes(),
            grows(*old(self), *final(self)),
            emitted(*final(self)) == if b@.len() == 0 {
                emitted(*old(self))
            } else {
                let scs = old(self).curr.scopes();
                let scs1 = scs.push(fresh_scope(scs.last().locsiz));
                em_code(
                    em_block(b@, b@.len() as int, scs1, emitted(*old(self))),
                    pops(scs.last(), block_effect(b@, b@.len() as int, scs1)->Some_0.last()),
                )
            },
    {
        if b.len() == 0 {
            return;
        }
        let ghost s0 = *self;
        self.curr.init_scope();
        let ghost s1 = *self;
        self.no_env_block(b);
        let ghost s2 = *self;
        proof {
            lemma_block_frame(b@, b@.len() as int, s1.curr.scopes());
            let n = s2.curr.scopes().len();
            assert(s2.curr.s_pres@.last().model() == s2.curr.scopes()[n - 2]);
            assert(s2.curr.scopes()[n - 2] == s0.curr.scopes().last());
        }
        self.curr.exit_scope();
        proof {
            assert(self.curr.scopes() =~= s0.curr.scopes());
            assert(self.curr.currbb.code@ =~= s2.curr.currbb.code@ + pops(
                s0.curr.scopes().last(),
                s2.curr.scopes().last(),
            ));
        }
    }

    fn no_env_block(&mut self, b: &BlockWt)
        requires
            cwf(*old(self)),
            block_effect(b@, b@.len() as int, old(self).curr.scopes()) is Some,
        ensures
            cwf(*final(self)),
            final(self).curr.scopes() == block_effect(b@, b@.len() as int, old(self).curr.scopes())->Some_0,
            grows(*old(self), *final(self)),
            emitted(*final(self)) == em_block(b@, b@.len() as int, old(self).curr.scopes(), emitted(*old(self))),
        decreases *b, 1nat,
    {
        let mut i: usize = 0;
        while i < b.len()
            invariant
                i <= b@.len(),
                cwf(*self),
                block_effect(b@, i as int, old(self).curr.scopes()) == Some(self.curr.scopes()),
                block_effect(b@, b@.len() as int, old(self).curr.scopes()) is Some,
                grows(*old(self), *self),
                emitted(*self) == em_block(b@, i as int, old(self).curr.scopes(), emitted(*old(self))),
            decreases b@.len() - i,
        {
            proof {
                lemma_block_prefix(b@, b@.len() as int, i + 1, old(self).curr.scopes());
                assert(decreases_to!(*b => b@));
                assert(decreases_to!(b@ => b@[i as int]));
            }
            let ghost s0 = *self;
            self.stmt(&b[i]);
            proof {
                lemma_grows_trans(*old(self), s0, *self);
            }
            i += 1;
        }
    }

    fn stmt(&mut self, s: &StmtWt)
        requires
            cwf(*old(self)),
            stmt_effect(*s, old(self).curr.scopes()) is Some,
        ensures
            cwf(*final(self)),
            final(self).curr.scopes() == stmt_effect(*s, old(self).curr.scopes())->Some_0,
            grows(*old(self), *final(self)),
            emitted(*final(self)) == em_stmt(*s, old(self).curr.scopes(), emitted(*old(self))),
        decreases *s, 0nat,
    {
        match s {
            StmtWt::Declar(i, e) => self.s_declar(i, e),
            StmtWt::VarAss(i, e, d) => self.s_varass(i, e, *d),
            StmtWt::Loooop(l) => self.s_loooop(l),
        }
    }

    fn s_declar(&mut self, id: &DfString, ex: &ExprWt)
        requires
            cwf(*old(self)),
            expr_ok(*ex, old(self).curr.scopes()),
            sm_declar_ok(old(self).curr.scopes().last(), id@),
        ensures
            cwf(*final(self)),
            final(self).curr.scopes() == old(self).curr.scopes().update(
                old(self).curr.scopes().len() - 1,
                sm_declar(old(self).curr.scopes().last(), id@),
            ),
            final(self).curr.currbb.code@ == old(self).curr.currbb.code@ + expr_code(*ex, old(self).curr.scopes(), old(self).consts@).0,
            final(self).curr.blocks == old(self).curr.blocks,
            grows(*old(self), *final(self)),
            emitted(*final(self)) == em_expr(*ex, old(self).curr.scopes(), emitted(*old(self))),
    {
        self.expr(ex);
        self.curr.declar(id);
    }

    fn s_varass(&mut self, id: &DfString, ex: &ExprWt, de: usize)
        requires
            cwf(*old(self)),
            expr_ok(*ex, old(self).curr.scopes()),
            resolves(old(self).curr.scopes(), id@, de),
        ensures
            cwf(*final(self)),
            final(self).curr.scopes() == old(self).curr.scopes(),
            final(self).curr.currbb.code@ == (old(self).curr.currbb.code@ + expr_code(*ex, old(self).curr.scopes(), old(self).consts@).0).push(
                ImOp::SLX(resolved(old(self).curr.scopes(), id@, de)),
            ),
            final(self).curr.blocks == old(self).curr.blocks,
            grows(*old(self), *final(self)),
            emitted(*final(self)) == em_code(
                em_expr(*ex, old(self).curr.scopes(), emitted(*old(self))),
                seq![ImOp::SLX(resolved(old(self).curr.scopes(), id@, de))],
            ),
    {
        self.expr(ex);
        let ghost c1 = self.curr.currbb.code@;
        self.curr.slx(id, de);
        assert(self.curr.currbb.code@ =~= c1 + seq![ImOp::SLX(resolved(old(self).curr.scopes(), id@, de))]);
    }

    fn s_loooop(&mut self, lo: &LoopWt)
        requires
            cwf(*old(self)),
            stmt_effect(StmtWt::Loooop(*lo), old(self).curr.scopes()) is Some,
        ensures
            cwf(*final(self)),
            final(self).curr.scopes() == old(self).curr.scopes(),
            grows(*old(self), *final(self)),
            emitted(*final(self)) == em_stmt(StmtWt::Loooop(*lo), old(self).curr.scopes(), emitted(*old(self))),
        decreases *lo, 2nat,
    {
        let ghost s0 = *self;
        let ghost scs = old(self).curr.scopes();
        self.curr.init_scope();
        self.preload_loop(lo);
        let ghost s1 = *self;
        let ghost fresh = fresh_scope(scs.last().locsiz);
        match lo {
            LoopWt::Inf(b) => {
                proof {
                    let p = preload(b@, b@.len() as int, fresh)->Some_0;
                    assert(s1.curr.scopes() =~= scs.push(p));
                    lemma_block_frame(b@, b@.len() as int, s1.curr.scopes());
                }
                self.s_inf_loop(b);
            },
            LoopWt::Cdt(p, e, b) => {
                proof {
                    let p0 = preload(p@, p@.len() as int, fresh)->Some_0;
                    let p1 = preload(b@, b@.len() as int, p0)->Some_0;
                    assert(s1.curr.scopes() =~= scs.push(p1));
                    lemma_block_frame(p@, p@.len() as int, s1.curr.scopes());
                    let s2 = block_effect(p@, p@.len() as int, s1.curr.scopes())->Some_0;
                    lemma_block_frame(b@, b@.len() as int, s2);
                }
                self.s_cdt_loop(p, e, b, Ghost(*lo));
            },
        }
        let ghost s2 = *self;
        proof {
            let n = s2.curr.scopes().len();
            assert(n == scs.len() + 1);
            assert(s2.curr.s_pres@.last().model() == s2.curr.scopes()[n - 2]);
            assert(s2.curr.scopes()[n - 2] == scs.last());
        }
        self.curr.exit_scope();
        proof {
            lemma_grows_trans(s0, s1, s2);
            assert(self.curr.scopes() =~= s0.curr.scopes());
            assert(self.curr.currbb.code@ =~= s2.curr.currbb.code@ + pops(scs.last(), s2.curr.scopes().last()));
        }
    }

    // assigns all the loop's locals to 0%N
    // so as not to enter & exit its scope at every iteration
    fn preload_loop(&mut self, lo: &LoopWt)
        requires
            cwf(*old(self)),
            match *lo {
                LoopWt::Inf(b) => preload(b@, b@.len() as int, old(self).curr.scopes().last()) is Some,
                LoopWt::Cdt(b0, _, b1) => match preload(b0@, b0@.len() as int, old(self).curr.scopes().last()) {
                    Some(p0) => preload(b1@, b1@.len() as int, p0) is Some,
                    None => false,
                },
            },
        ensures
            cwf(*final(self)),
            final(self).curr.scopes() == old(self).curr.scopes().update(
                old(self).curr.scopes().len() - 1,
                match *lo {
                    LoopWt::Inf(b) => preload(b@, b@.len() as int, old(self).curr.scopes().last())->Some_0,
                    LoopWt::Cdt(b0, _, b1) => preload(
                        b1@,
                        b1@.len() as int,
                        preload(b0@, b0@.len() as int, old(self).curr.scopes().last())->Some_0,
                    )->Some_0,
                },
            ),
            final(self).curr.s_pres == old(self).curr.s_pres,
            final(self).curr.blocks == old(self).curr.blocks,
            grows(*old(self), *final(self)),
            emitted(*final(self)) == em_code(
                emitted(*old(self)),
                match *lo {
                    LoopWt::Inf(b) => dum_code(b@, b@.len() as int),
                    LoopWt::Cdt(b0, _, b1) => dum_code(b0@, b0@.len() as int) + dum_code(b1@, b1@.len() as int),
                },
            ),
    {
        let block = match lo {
            LoopWt::Inf(b) | LoopWt::Cdt(b, _, _) => b,  // will check the 2nd block later
        };
        let ghost s0 = *self;
        self.preload_block(block);
        if let LoopWt::Cdt(_, _, b) = lo {
            let ghost s1 = *self;
            self.preload_block(b);
            proof {
                lemma_grows_trans(s0, s1, *self);
                assert(self.curr.scopes() =~= old(self).curr.scopes().update(
                    old(self).curr.scopes().len() - 1,
                    preload(b@, b@.len() as int, s1.curr.scopes().last())->Some_0,
                ));
                assert(self.curr.currbb.code@ =~= old(self).curr.currbb.code@ + (dum_code(
                    block@,
                    block@.len() as int,
                ) + dum_code(b@, b@.len() as int)));
            }
        }
    }

    /// Preloads the variables that the statements of `block` declare.
    fn preload_block(&mut self, block: &BlockWt)
        requires
            cwf(*old(self)),
            preload(block@, block@.len() as int, old(self).curr.scopes().last()) is Some,
        ensures
            cwf(*final(self)),
            final(self).curr.scopes() == old(self).curr.scopes().update(
                old(self).curr.scopes().len() - 1,
                preload(block@, block@.len() as int, old(self).curr.scopes().last())->Some_0,
            ),
            final(self).curr.s_pres == old(self).curr.s_pres,
            final(self).curr.blocks == old(self).curr.blocks,
            grows(*old(self), *final(self)),
            emitted(*final(self)) == em_code(emitted(*old(self)), dum_code(block@, block@.len() as int)),
    {
        let ghost scs = old(self).curr.scopes();
        let mut i: usize = 0;
        proof {
            assert(scs.update(scs.len() - 1, scs.last()) =~= scs);
            assert(old(self).curr.currbb.code@ + dum_code(block@, 0) =~= old(self).curr.currbb.code@);
        }
        while i < block.len()
            invariant
                i <= block@.len(),
                cwf(*self),
                scs == old(self).curr.scopes(),
                preload(block@, block@.len() as int, scs.last()) is Some,
                preload(block@, i as int, scs.last()) is Some,
                self.curr.scopes() == scs.update(scs.len() - 1, preload(block@, i as int, scs.last())->Some_0),
                self.curr.s_pres == old(self).curr.s_pres,
                self.curr.blocks == old(self).curr.blocks,
                grows(*old(self), *self),
                emitted(*self) == em_code(emitted(*old(self)), dum_code(block@, i as int)),
            decreases block@.len() - i,
        {
            proof {
                lemma_preload_prefix(block@, block@.len() as int, i + 1, scs.last());
            }
            let ghost s0 = *self;
            if let StmtWt::Declar(id, _) = &block[i] {
                self.curr.declar_dummy(id);
                proof {
                    let code = self.curr.currbb.code@;
                    assert forall|j: int| 0 <= j < code.len() implies ctn_ok(#[trigger] code[j], self.consts@.len() as int) by {
                        if j < code.len() - 1 {
                            assert(ctn_ok(s0.curr.currbb.code@[j], s0.consts@.len() as int));
                        }
                    }
                }
            }
            i += 1;
            proof {
                assert(self.curr.scopes() =~= scs.update(scs.len() - 1, preload(block@, i as int, scs.last())->Some_0));
                assert(self.curr.currbb.code@ =~= old(self).curr.currbb.code@ + dum_code(block@, i as int));
            }
        }
    }

    fn s_inf_loop(&mut self, b: &BlockWt)
        requires
            cwf(*old(self)),
            block_effect(b@, b@.len() as int, old(self).curr.scopes()) is Some,
        ensures
            cwf(*final(self)),
            final(self).curr.scopes() == block_effect(b@, b@.len() as int, old(self).curr.scopes())->Some_0,
            grows(*old(self), *final(self)),
            emitted(*final(self)) == em_loop(LoopWt::Inf(*b), old(self).curr.scopes(), emitted(*old(self))),
        decreases *b, 2nat,
    {
        //  [b]<-+ (h)
        //   |   |
        //   +---+
        let ghost s0 = *self;
        self.term_curr_bb(Term::NOP);  // start b
        let h = self.curr_idx();
        self.curr.init_loop(h);
        let ghost s1 = *self;
        self.no_env_block(b);
        let ghost s2 = *self;
        self.term_curr_bb(Term::JMP(Jmp::JX, h));
        let end = self.curr_idx();
        let ghost s3 = *self;
        self.curr.exit_loop(end);
        proof {
            assert(s1.curr.brk@.last()@.len() == 0);
            assert(s3.curr.brk@.last()@ =~= Seq::<BbIdx>::empty());
            lemma_blocks_model_same(self.curr.blocks@, s3.curr.blocks@);
            assert(emitted(*self) == emitted(s3));
            let bbs = self.curr.blocks@;
            assert forall|k: int| 0 <= k < bbs.len() implies (#[trigger] bbs[k]).term == s3.curr.blocks@[k].term by {
                assert(!lists(s3.curr.brk@.last()@, k));
            }
            assert forall|k: int| s0.curr.blocks@.len() <= k < bbs.len() implies term_ok((#[trigger] bbs[k]).term, bbs.len() as int)
                && code_ok(bbs[k].code@, self.consts@.len() as int) by {
                assert(bbs[k].term == s3.curr.blocks@[k].term);
                if k < s2.curr.blocks@.len() && k >= s1.curr.blocks@.len() {
                    assert(s2.curr.blocks@[k] == s3.curr.blocks@[k]);
                } else if k < s1.curr.blocks@.len() {
                    assert(s2.curr.blocks@[k] == s3.curr.blocks@[k]);
                    assert(s2.curr.blocks@[k].term == s1.curr.blocks@[k].term);
                    assert(s2.curr.blocks@[k].code == s1.curr.blocks@[k].code);
                }
            }
            assert(self.curr.agn@ =~= s0.curr.agn@);
            assert forall|k: int| 0 <= k < self.curr.brk@.len() implies (#[trigger] self.curr.brk@[k])@.len() == 0 by {
                assert(self.curr.brk@[k] == s3.curr.brk@[k]);
            }
        }
    }

    fn s_cdt_loop(
        &mut self,
        b0: &BlockWt,  // might be empty
        cond: &ExprWt,
        b1: &BlockWt,
        Ghost(lo): Ghost<LoopWt>,
    )
        requires
            lo == LoopWt::Cdt(*b0, *cond, *b1),
            cwf(*old(self)),
            match block_effect(b0@, b0@.len() as int, old(self).curr.scopes()) {
                Some(s2) => expr_ok(*cond, s2) && block_effect(b1@, b1@.len() as int, s2) is Some,
                None => false,
            },
        ensures
            cwf(*final(self)),
            final(self).curr.scopes() == block_effect(
                b1@,
                b1@.len() as int,
                block_effect(b0@, b0@.len() as int, old(self).curr.scopes())->Some_0,
            )->Some_0,
            grows(*old(self), *final(self)),
            emitted(*final(self)) == em_loop(lo, old(self).curr.scopes(), emitted(*old(self))),
        decreases lo, 1nat,
    {
        //  [b0]<--+
        //   V     |
        //  [cond]-|-+ (if false)
        //   V     | |
        //  [b1]---+ |
        //  ...<-----+
        proof {
            assert(decreases_to!(lo => lo->Cdt_0));
            assert(decreases_to!(lo => lo->Cdt_2));
        }
        let ghost s0 = *self;
        self.term_curr_bb(Term::NOP);
        let loop_start = self.curr_idx();
        self.curr.init_loop(loop_start);
        let ghost s1 = *self;
        self.no_env_block(b0);
        let ghost s2 = *self;
        self.expr(cond);
        let ghost s3 = *self;
        let branch = self.term_curr_bb(Term::PCH(true));
        let ghost s4 = *self;
        self.no_env_block(b1);
        let ghost s5 = *self;
        self.term_curr_bb(Term::JMP(Jmp::JX, loop_start));
        let outside = self.curr_idx();
        let ghost s6 = *self;
        self.curr.exit_loop(outside);
        let ghost s7 = *self;
        self.curr.patch_jump(branch, Term::JMP(Jmp::YX(false), outside));
        proof {
            assert(s6.curr.brk@.last()@ =~= Seq::<BbIdx>::empty());
            lemma_blocks_model_same(s7.curr.blocks@, s6.curr.blocks@);
            assert(emitted(s7) == emitted(s6));
            let m4 = emitted(s6);
            assert(blocks_model(self.curr.blocks@) =~= em_patch(m4, branch as int).blocks);
            assert(emitted(*self) == em_patch(m4, branch as int));
            lemma_grows_trans(s2, s3, s3);
            assert(s1.curr.brk@.last()@.len() == 0);
            assert(s6.curr.brk@.last()@ =~= Seq::<BbIdx>::empty());
            let bbs = self.curr.blocks@;
            let nc = self.consts@.len() as int;
            assert forall|k: int| 0 <= k < bbs.len() && k != branch implies (#[trigger] bbs[k]).term == s6.curr.blocks@[k].term
                && bbs[k].code == s6.curr.blocks@[k].code by {
                assert(!lists(s6.curr.brk@.last()@, k));
                assert(s7.curr.blocks@[k].term == s6.curr.blocks@[k].term);
            }
            assert(bbs[branch as int].code == s6.curr.blocks@[branch as int].code) by {
                assert(s7.curr.blocks@[branch as int].code == s6.curr.blocks@[branch as int].code);
            }
            assert forall|k: int| s0.curr.blocks@.len() <= k < bbs.len() implies term_ok((#[trigger] bbs[k]).term, bbs.len() as int)
                && code_ok(bbs[k].code@, nc) by {
                if k == branch {
                    assert(s5.curr.blocks@[k].code == s4.curr.blocks@[k].code);
                    assert(s6.curr.blocks@[k] == s5.curr.blocks@[k]);
                    assert(code_ok(s3.curr.currbb.code@, s3.consts@.len() as int));
                } else if k > branch && k < s5.curr.blocks@.len() {
                    assert(s6.curr.blocks@[k] == s5.curr.blocks@[k]);
                } else if k > branch {
                    assert(k == s5.curr.blocks@.len());
                } else if k >= s1.curr.blocks@.len() {
                    assert(s3.curr.blocks@[k] == s4.curr.blocks@[k]);
                    assert(s6.curr.blocks@[k] == s5.curr.blocks@[k]);
                    assert(s5.curr.blocks@[k].term == s4.curr.blocks@[k].term);
                    assert(s5.curr.blocks@[k].code == s4.curr.blocks@[k].code);
                } else {
                    assert(s3.curr.blocks@[k] == s4.curr.blocks@[k]);
                    assert(s6.curr.blocks@[k] == s5.curr.blocks@[k]);
                    assert(s5.curr.blocks@[k].term == s4.curr.blocks@[k].term);
                    assert(s5.curr.blocks@[k].code == s4.curr.blocks@[k].code);
                    assert(s2.curr.blocks@[k].term == s1.curr.blocks@[k].term);
                    assert(s2.curr.blocks@[k].code == s1.curr.blocks@[k].code);
                }
            }
            assert forall|k: int| 0 <= k < s0.curr.blocks@.len() implies (#[trigger] bbs[k]).code == s0.curr.blocks@[k].code
                && bbs[k].term == s0.curr.blocks@[k].term by {
                assert(s3.curr.blocks@[k] == s4.curr.blocks@[k]);
                assert(s6.curr.blocks@[k] == s5.curr.blocks@[k]);
            }
            assert(self.curr.agn@ =~= s0.curr.agn@);
            assert forall|k: int| 0 <= k < self.curr.brk@.len() implies (#[trigger] self.curr.brk@[k])@.len() == 0 by {
                assert(self.curr.brk@[k] == s6.curr.brk@[k]);
            }
            let code = self.curr.currbb.code@;
            assert(code == s7.curr.currbb.code@);
        }
    }
}

impl Default for Compiler {
    fn default() -> (r: Self)
        ensures
            cwf(r),
            r.consts@ == Seq::<Val>::empty(),
            r.idents@ == Seq::<DfString>::empty(),
            r.curr.scopes() == seq![fresh_scope(0)],
            r.curr.s_pres@.len() == 0,
            r.curr.blocks@ == Seq::<BasicBlock>::empty(),
            r.curr.agn@ == Seq::<BbIdx>::empty(),
            r.curr.brk@ == Seq::<Vec<BbIdx>>::empty(),
            emitted(r) == em_start(),
    {
        assert(blocks_model(Seq::<BasicBlock>::empty()) =~= Seq::<BbModel>::empty());
        Compiler { consts: ArraySet::new(), idents: ArraySet::new(), curr: SubrEnv::default() }
    }
}


// What the analysis gives, the compiler takes ---------------------------------------

/// Whether statement `j` of `b` declares the variable `k`.
pub open spec fn declares_at(b: Seq<StmtWt>, j: int, k: Seq<u8>) -> bool {
    0 <= j < b.len() && b[j] is Declar && b[j]->Declar_0@ == k
}

/// Whether no two statements of `b` declare the same variable.
pub open spec fn declares_distinct(b: Seq<StmtWt>) -> bool {
    forall|i: int, j: int, k: Seq<u8>| #![trigger declares_at(b, i, k), declares_at(b, j, k)]
        declares_at(b, i, k) && declares_at(b, j, k) ==> i == j
}

/// The declarations among the first `n` statements of `b`.
pub open spec fn decl_count(b: Seq<StmtWt>, n: int) -> nat
    decreases n,
{
    if n <= 0 || n > b.len() {
        0
    } else {
        decl_count(b, n - 1) + if b[n - 1] is Declar {
            1nat
        } else {
            0nat
        }
    }
}

/// Whether the blocks of each loop declare each variable at most once.
pub open spec fn stmt_declares_once(s: StmtWt) -> bool
    decreases s, 0int,
{
    match s {
        StmtWt::Loooop(l) => match l {
            LoopWt::Inf(b) => declares_distinct(b@) && block_declares_once(b@, b@.len() as int),
            LoopWt::Cdt(b0, _, b1) => declares_distinct(b0@ + b1@) && block_declares_once(b0@, b0@.len() as int)
                && block_declares_once(b1@, b1@.len() as int),
        },
        _ => true,
    }
}

/// Whether, in the first `n` statements of a block, the blocks of each loop
/// declare each variable at most once.
pub open spec fn block_declares_once(b: Seq<StmtWt>, n: int) -> bool
    decreases b, n,
{
    if n <= 0 || n > b.len() {
        true
    } else {
        block_declares_once(b, n - 1) && stmt_declares_once(b[n - 1])
    }
}

/// The places on the stack that a statement takes at most: one for a
/// declaration in a block that is not preloaded (`pre` false); for a loop,
/// one for each declaration of its blocks, which are preloaded, and those of
/// its blocks.
pub open spec fn stmt_places(s: StmtWt, pre: bool) -> nat
    decreases s, 0int,
{
    match s {
        StmtWt::Declar(_, _) => if pre {
            0
        } else {
            1
        },
        StmtWt::VarAss(_, _, _) => 0,
        StmtWt::Loooop(l) => match l {
            LoopWt::Inf(b) => decl_count(b@, b@.len() as int) + block_places(b@, b@.len() as int, true),
            LoopWt::Cdt(b0, _, b1) => decl_count(b0@, b0@.len() as int) + decl_count(b1@, b1@.len() as int)
                + block_places(b0@, b0@.len() as int, true) + block_places(b1@, b1@.len() as int, true),
        },
    }
}

/// The places on the stack that the first `n` statements of a block take at
/// most.
pub open spec fn block_places(b: Seq<StmtWt>, n: int, pre: bool) -> nat
    decreases b, n,
{
    if n <= 0 || n > b.len() {
        0
    } else {
        block_places(b, n - 1, pre) + stmt_places(b[n - 1], pre)
    }
}

/// Whether the compiler resolves `k` in the scope `s`.
pub open spec fn resolvable(s: ScopeModel, k: Seq<u8>) -> bool {
    sm_resolve(s, k) is Some
}

/// The scopes of the analysis and of the compiler agree: the analysis has one
/// more, outermost and empty; each other one binds the variables that the
/// compiler resolves in its scope; and every preloaded variable is bound.
pub open spec fn scopes_match(sa: Seq<SaScope>, cs: Seq<ScopeModel>) -> bool {
    &&& sa.len() == cs.len() + 1
    &&& forall|k: Seq<u8>| #[trigger] sc_type(sa[0], k) is None
    &&& forall|i: int, k: Seq<u8>| #![trigger resolvable(cs[i], k)] #![trigger sc_type(sa.drop_first()[i], k)]
        0 <= i < cs.len() ==> (resolvable(cs[i], k) <==> sc_type(sa.drop_first()[i], k) is Some)
    &&& forall|i: int, k: Seq<u8>| 0 <= i < cs.len() && (#[trigger] cs[i].dummis.contains(k)) ==> has_key(cs[i].locals, k)
}

/// A name is bound after binding it, and the other names as before.
proof fn lemma_bind_has_key(ls: Seq<(Seq<u8>, LocIdx)>, k: Seq<u8>, v: LocIdx, m: Seq<u8>)
    ensures
        has_key(bind(ls, k, v), m) <==> has_key(ls, m) || m == k,
{
    let r = bind(ls, k, v);
    if has_key(ls, k) {
        let i = key_at(ls, k);
        assert(r[i].0 == k);
        if has_key(ls, m) && m != k {
            let j = key_at(ls, m);
            assert(r[j] == ls[j]);
        }
        if has_key(r, m) && m != k {
            let j = key_at(r, m);
            assert(r[j] == ls[j]);
        }
    } else {
        assert(r[ls.len() as int].0 == k);
        if has_key(ls, m) {
            let j = key_at(ls, m);
            assert(r[j] == ls[j]);
        }
        if has_key(r, m) && m != k {
            let j = key_at(r, m);
            assert(r[j] == ls[j]);
        }
    }
}

/// A name is found in a scope after setting it, and the other names as
/// before.
proof fn lemma_name_set_has<V>(s: Seq<(Seq<u8>, V)>, k: Seq<u8>, v: V, m: Seq<u8>)
    ensures
        name_get(name_set(s, k, v), m) is Some <==> name_get(s, m) is Some || m == k,
{
    let r = name_set(s, k, v);
    assert forall|i: int| 0 <= i < s.len() implies (#[trigger] r[i]).0 == s[i].0 by {
        if exists|j: int| name_first_at(s, k, j) {
            let j = choose|j: int| name_first_at(s, k, j);
            if i == j {
                assert(r[i] == (k, v));
            }
        }
    }
    lemma_first_of_names(s, m);
    lemma_first_of_names(r, m);
    let has_s = exists|i: int| 0 <= i < s.len() && (#[trigger] s[i]).0 == m;
    let has_r = exists|i: int| 0 <= i < r.len() && (#[trigger] r[i]).0 == m;
    if exists|j: int| name_first_at(s, k, j) {
        let j = choose|j: int| name_first_at(s, k, j);
        assert(r.len() == s.len());
        if has_s {
            let i = choose|i: int| 0 <= i < s.len() && (#[trigger] s[i]).0 == m;
            assert(r[i].0 == m);
        }
        if has_r {
            let i = choose|i: int| 0 <= i < r.len() && (#[trigger] r[i]).0 == m;
            assert(s[i].0 == m);
        }
        if m == k {
            assert(s[j].0 == m);
        }
    } else {
        assert(r.len() == s.len() + 1);
        assert(r[s.len() as int] == (k, v));
        if has_s {
            let i = choose|i: int| 0 <= i < s.len() && (#[trigger] s[i]).0 == m;
            assert(r[i].0 == m);
        }
        if has_r && m != k {
            let i = choose|i: int| 0 <= i < r.len() && (#[trigger] r[i]).0 == m;
            assert(i < s.len());
            assert(s[i].0 == m);
        }
        if m == k {
            assert(r[s.len() as int].0 == m);
        }
    }
}

/// A name is found in a scope where some binding has it.
proof fn lemma_first_of_names<V>(s: Seq<(Seq<u8>, V)>, m: Seq<u8>)
    ensures
        name_get(s, m) is Some <==> exists|i: int| 0 <= i < s.len() && (#[trigger] s[i]).0 == m,
    decreases s.len(),
{
    if exists|i: int| 0 <= i < s.len() && (#[trigger] s[i]).0 == m {
        let i = choose|i: int| 0 <= i < s.len() && (#[trigger] s[i]).0 == m;
        lemma_first_index(s, m, i);
    }
}

/// Where some binding has a name, there is a first such binding.
proof fn lemma_first_index<V>(s: Seq<(Seq<u8>, V)>, m: Seq<u8>, i: int)
    requires
        0 <= i < s.len(),
        s[i].0 == m,
    ensures
        exists|j: int| name_first_at(s, m, j),
    decreases i,
{
    if exists|j: int| 0 <= j < i && (#[trigger] s[j]).0 == m {
        let j = choose|j: int| 0 <= j < i && (#[trigger] s[j]).0 == m;
        lemma_first_index(s, m, j);
    } else {
        assert(name_first_at(s, m, i));
    }
}

/// Preloading the declarations of the first `n` statements of a block, none
/// of them preloaded yet and no two of the same variable, with room on the
/// stack, succeeds: each declared variable is bound and preloaded, the stack
/// grows by one for each, and no variable is newly resolved.
proof fn lemma_preload(b: Seq<StmtWt>, n: int, s: ScopeModel)
    requires
        0 <= n <= b.len(),
        declares_distinct(b),
        forall|j: int, k: Seq<u8>| 0 <= j < n && #[trigger] declares_at(b, j, k) ==> !s.dummis.contains(k),
        s.locsiz + decl_count(b, n) <= usize::MAX,
        forall|k: Seq<u8>| #[trigger] s.dummis.contains(k) ==> has_key(s.locals, k),
    ensures
        preload(b, n, s) is Some,
        preload(b, n, s)->Some_0.locsiz == s.locsiz + decl_count(b, n),
        forall|k: Seq<u8>| #[trigger] preload(b, n, s)->Some_0.dummis.contains(k) <==> (s.dummis.contains(k)
            || exists|j: int| 0 <= j < n && #[trigger] declares_at(b, j, k)),
        forall|k: Seq<u8>| #[trigger] preload(b, n, s)->Some_0.dummis.contains(k) ==> has_key(
            preload(b, n, s)->Some_0.locals,
            k,
        ),
        forall|k: Seq<u8>| #[trigger] resolvable(preload(b, n, s)->Some_0, k) ==> resolvable(s, k),
    decreases n,
{
    if n > 0 {
        lemma_preload(b, n - 1, s);
        let t = preload(b, n - 1, s)->Some_0;
        if let StmtWt::Declar(i, _) = b[n - 1] {
            let id = i@;
            assert(declares_at(b, n - 1, id));
            assert(!t.dummis.contains(id)) by {
                if t.dummis.contains(id) {
                    if !s.dummis.contains(id) {
                        let j = choose|j: int| 0 <= j < n - 1 && #[trigger] declares_at(b, j, id);
                        assert(declares_at(b, j, id) && declares_at(b, n - 1, id));
                    }
                }
            }
            let r = sm_declar_dummy(t, id);
            assert(preload(b, n, s) == Some(r));
            assert forall|k: Seq<u8>| #[trigger] r.dummis.contains(k) <==> (s.dummis.contains(k) || exists|j: int|
                0 <= j < n && #[trigger] declares_at(b, j, k)) by {
                if k == id {
                    assert(declares_at(b, n - 1, k));
                } else if exists|j: int| 0 <= j < n && #[trigger] declares_at(b, j, k) {
                    let j = choose|j: int| 0 <= j < n && #[trigger] declares_at(b, j, k);
                    assert(j != n - 1);
                    assert(0 <= j < n - 1 && declares_at(b, j, k));
                }
            }
            assert forall|k: Seq<u8>| #[trigger] r.dummis.contains(k) implies has_key(r.locals, k) by {
                lemma_bind_has_key(t.locals, id, t.locsiz, k);
            }
            assert forall|k: Seq<u8>| #[trigger] resolvable(r, k) implies resolvable(t, k) by {
                lemma_bind_has_key(t.locals, id, t.locsiz, k);
            }
        } else {
            assert(preload(b, n, s) == Some(t));
            assert forall|k: Seq<u8>| #[trigger] t.dummis.contains(k) <==> (s.dummis.contains(k) || exists|j: int|
                0 <= j < n && #[trigger] declares_at(b, j, k)) by {
                if exists|j: int| 0 <= j < n && #[trigger] declares_at(b, j, k) {
                    let j = choose|j: int| 0 <= j < n && #[trigger] declares_at(b, j, k);
                    assert(0 <= j < n - 1 && declares_at(b, j, k));
                }
            }
        }
    }
}

/// A variable that the analysis finds `d` scopes out is one that the compiler
/// resolves `d` scopes out, in scopes that agree.
proof fn lemma_find_resolves(sa: Seq<SaScope>, cs: Seq<ScopeModel>, k: Seq<u8>)
    requires
        scopes_match(sa, cs),
        sa.len() <= usize::MAX,
        sa_find(sa, k) is Some,
    ensures
        resolves(cs, k, sa_find(sa, k)->Some_0.0),
{
    lemma_sa_find_bound(sa, k);
    let d = sa_find(sa, k)->Some_0.0;
    let i = sa.len() - 1 - d;
    assert(sc_type(sa[0], k) is None);
    assert(i >= 1);
    assert(sa.drop_first()[i - 1] == sa[i]);
    assert(resolvable(cs[i - 1], k) <==> sc_type(sa.drop_first()[i - 1], k) is Some);
}

/// A typed expression with no cast is one that the compiler takes, in
/// scopes that agree.
proof fn lemma_expr_compiles(e: Expr, sa: Seq<SaScope>, w: ExprWt, cs: Seq<ScopeModel>)
    requires
        typed(e, sa, w),
        expr_no_casts(w),
        scopes_match(sa, cs),
        sa.len() <= usize::MAX,
    ensures
        expr_ok(w, cs),
    decreases e,
{
    match e {
        Expr::Const(_) => {},
        Expr::Ident(n) => {
            lemma_find_resolves(sa, cs, n@);
        },
        Expr::UniOp(x, _) => {
            lemma_expr_compiles(*x, sa, *w.e->UniOp_0, cs);
        },
        Expr::BinOp(l, o, r) => {
            if o != BinOp::Typ {
                lemma_expr_compiles(*l, sa, *w.e->BinOp_0, cs);
                lemma_expr_compiles(*r, sa, *w.e->BinOp_2, cs);
            }
        },
        Expr::CmpOp(f, v) => {
            if v@.len() == 0 {
                lemma_expr_compiles(*f, sa, w, cs);
            } else {
                lemma_expr_compiles(*f, sa, *w.e->CmpOp_0, cs);
                lemma_expr_compiles(v@[0].1, sa, w.e->CmpOp_1@[0].1, cs);
            }
        },
    }
}

/// The declarations of two blocks that together declare no variable twice:
/// each block declares none twice, and they declare none in common.
proof fn lemma_declares_split(b0: Seq<StmtWt>, b1: Seq<StmtWt>)
    requires
        declares_distinct(b0 + b1),
    ensures
        declares_distinct(b0),
        declares_distinct(b1),
        forall|i: int, j: int, k: Seq<u8>| #![trigger declares_at(b0, i, k), declares_at(b1, j, k)]
            !(declares_at(b0, i, k) && declares_at(b1, j, k)),
{
    let c = b0 + b1;
    assert forall|i: int, k: Seq<u8>| #[trigger] declares_at(b0, i, k) implies declares_at(c, i, k) by {
        assert(c[i] == b0[i]);
    }
    assert forall|j: int, k: Seq<u8>| #[trigger] declares_at(b1, j, k) implies declares_at(c, j + b0.len(), k) by {
        assert(c[j + b0.len()] == b1[j]);
    }
    assert forall|i: int, j: int, k: Seq<u8>| declares_at(b1, i, k) && declares_at(b1, j, k) implies i == j by {
        assert(declares_at(c, i + b0.len(), k) && declares_at(c, j + b0.len(), k));
    }
    assert forall|i: int, j: int, k: Seq<u8>| #![trigger declares_at(b0, i, k), declares_at(b1, j, k)]
        !(declares_at(b0, i, k) && declares_at(b1, j, k)) by {
        if declares_at(b0, i, k) && declares_at(b1, j, k) {
            assert(declares_at(c, i, k) && declares_at(c, j + b0.len(), k));
        }
    }
}

/// The first `n` statements of a block are those of the block without its
/// last statement, where `n` leaves it out.
proof fn lemma_block_drop_last_c(b: Seq<StmtWt>, n: int, cs: Seq<ScopeModel>, pre: bool)
    requires
        0 <= n < b.len(),
    ensures
        block_effect(b, n, cs) == block_effect(b.drop_last(), n, cs),
        block_places(b, n, pre) == block_places(b.drop_last(), n, pre),
        block_loops(b, n) == block_loops(b.drop_last(), n),
        block_no_casts(b, n) == block_no_casts(b.drop_last(), n),
        block_declares_once(b, n) == block_declares_once(b.drop_last(), n),
    decreases n,
{
    if n > 0 {
        lemma_block_drop_last_c(b, n - 1, cs, pre);
        assert(b[n - 1] == b.drop_last()[n - 1]);
    }
}

/// A new scope, preloaded with the declarations of `b`, agrees with a new,
/// empty scope of the analysis.
proof fn lemma_push_match(sa: Seq<SaScope>, cs: Seq<ScopeModel>, p: ScopeModel)
    requires
        scopes_match(sa, cs),
        forall|k: Seq<u8>| !(#[trigger] resolvable(p, k)),
        forall|k: Seq<u8>| #[trigger] p.dummis.contains(k) ==> has_key(p.locals, k),
    ensures
        scopes_match(sa.push(seq![]), cs.push(p)),
{
    let sa2 = sa.push(seq![]);
    let cs2 = cs.push(p);
    assert(sa2[0] == sa[0]);
    assert forall|i: int, k: Seq<u8>| 0 <= i < cs2.len() implies (resolvable(cs2[i], k) <==> sc_type(
        sa2.drop_first()[i],
        k,
    ) is Some) by {
        if i < cs.len() {
            assert(cs2[i] == cs[i]);
            assert(sa2.drop_first()[i] == sa.drop_first()[i]);
        } else {
            assert(sa2.drop_first()[i] == Seq::<(Seq<u8>, crate::asterix::Type)>::empty());
            assert(cs2[i] == p);
        }
    }
    assert forall|i: int, k: Seq<u8>| 0 <= i < cs2.len() && (#[trigger] cs2[i].dummis.contains(k)) implies has_key(
        cs2[i].locals,
        k,
    ) by {
        if i < cs.len() {
            assert(cs2[i] == cs[i]);
        }
    }
}

/// A typed statement with no cast, whose loops declare no variable twice,
/// and with room on the stack, is one that the compiler takes, in scopes that
/// agree; the scopes after it agree too. In a preloaded block (`pre`), the
/// variables that later statements declare, `pend`, stay preloaded.
proof fn lemma_stmt_compiles(s: Stmt, sa: Seq<SaScope>, w: StmtWt, cs: Seq<ScopeModel>, pre: bool, pend: Set<Seq<u8>>)
    requires
        typed_stmt(s, sa, w),
        stmt_sa(s, sa) is Some,
        stmt_no_casts(w),
        stmt_declares_once(w),
        scopes_match(sa, cs),
        cs.len() >= 1,
        cs.last().locsiz + stmt_places(w, pre) <= usize::MAX,
        sa.len() + stmt_loops(w) <= usize::MAX,
        pre ==> forall|k: Seq<u8>| #[trigger] pend.contains(k) ==> cs.last().dummis.contains(k),
        pre && w is Declar ==> cs.last().dummis.contains(w->Declar_0@) && !pend.contains(w->Declar_0@),
        !pre ==> cs.last().dummis == Set::<Seq<u8>>::empty(),
    ensures
        stmt_effect(w, cs) is Some,
        scopes_match(stmt_sa(s, sa)->Some_0, stmt_effect(w, cs)->Some_0),
        stmt_effect(w, cs)->Some_0.len() == cs.len(),
        stmt_effect(w, cs)->Some_0.last().locsiz <= cs.last().locsiz + stmt_places(w, pre),
        pre ==> forall|k: Seq<u8>| #[trigger] pend.contains(k) ==> stmt_effect(w, cs)->Some_0.last().dummis.contains(k),
        !pre ==> stmt_effect(w, cs)->Some_0.last().dummis == Set::<Seq<u8>>::empty(),
    decreases s, 0int,
{
    let c = cs.last();
    let last = cs.len() - 1;
    match s {
        Stmt::Assign(a, e) => {
            let n = a->Ident_0;
            match w {
                StmtWt::Declar(m, we) => {
                    lemma_expr_compiles(e, sa, we, cs);
                    let k = m@;
                    let t = we.t;
                    let c2 = sm_declar(c, k);
                    let cs2 = cs.update(last, c2);
                    let sa2 = sa.update(sa.len() - 1, name_set(sa.last(), k, t));
                    assert(stmt_effect(w, cs) == Some(cs2));
                    assert(stmt_sa(s, sa) == Some(sa2));
                    assert(sa2[0] == sa[0]);
                    assert forall|i: int, x: Seq<u8>| 0 <= i < cs2.len() implies (resolvable(cs2[i], x) <==> sc_type(
                        sa2.drop_first()[i],
                        x,
                    ) is Some) by {
                        if i < last {
                            assert(cs2[i] == cs[i]);
                            assert(sa2.drop_first()[i] == sa.drop_first()[i]);
                        } else {
                            assert(cs2[i] == c2);
                            assert(sa2.drop_first()[i] == name_set(sa.last(), k, t));
                            assert(sa.drop_first()[i] == sa.last());
                            assert(resolvable(cs[i], x) <==> sc_type(sa.drop_first()[i], x) is Some);
                            lemma_name_set_has(sa.last(), k, t, x);
                            lemma_bind_has_key(c.locals, k, c.locsiz, x);
                            if pre {
                                assert(c.dummis.contains(k) ==> has_key(c.locals, k));
                            }
                        }
                    }
                    assert forall|i: int, x: Seq<u8>| 0 <= i < cs2.len() && (#[trigger] cs2[i].dummis.contains(x)) implies has_key(
                        cs2[i].locals,
                        x,
                    ) by {
                        if i < last {
                            assert(cs2[i] == cs[i]);
                        } else {
                            lemma_bind_has_key(c.locals, k, c.locsiz, x);
                        }
                    }
                    if !pre {
                        assert(c2.dummis =~= Set::<Seq<u8>>::empty());
                    }
                },
                StmtWt::VarAss(m, we, d) => {
                    lemma_expr_compiles(e, sa, we, cs);
                    lemma_find_resolves(sa, cs, n@);
                },
                _ => {},
            }
        },
        Stmt::Loooop(l) => {
            let fresh = fresh_scope(c.locsiz);
            let sa0 = sa.push(seq![]);
            match (l, w) {
                (Loop::Inf(b), StmtWt::Loooop(LoopWt::Inf(wb))) => {
                    lemma_preload(wb@, wb@.len() as int, fresh);
                    let p = preload(wb@, wb@.len() as int, fresh)->Some_0;
                    assert forall|x: Seq<u8>| !(#[trigger] resolvable(p, x)) by {
                        assert(!has_key(fresh.locals, x));
                    }
                    lemma_push_match(sa, cs, p);
                    let none = Set::<Seq<u8>>::empty();
                    assert forall|j: int, x: Seq<u8>| 0 <= j < wb@.len() && #[trigger] declares_at(wb@, j, x) implies p.dummis.contains(
                        x,
                    ) && !none.contains(x) by {}
                    lemma_block_compiles(b@, b@.len() as int, sa0, wb@, cs.push(p), true, none);
                },
                (Loop::Cdt(b0, cond, b1), StmtWt::Loooop(LoopWt::Cdt(wb0, wc, wb1))) => {
                    lemma_declares_split(wb0@, wb1@);
                    lemma_preload(wb0@, wb0@.len() as int, fresh);
                    let p0 = preload(wb0@, wb0@.len() as int, fresh)->Some_0;
                    assert forall|j: int, x: Seq<u8>| 0 <= j < wb1@.len() && #[trigger] declares_at(wb1@, j, x) implies !p0.dummis.contains(
                        x,
                    ) by {
                        if p0.dummis.contains(x) {
                            let i = choose|i: int| 0 <= i < wb0@.len() && #[trigger] declares_at(wb0@, i, x);
                            assert(declares_at(wb0@, i, x) && declares_at(wb1@, j, x));
                        }
                    }
                    lemma_preload(wb1@, wb1@.len() as int, p0);
                    let p1 = preload(wb1@, wb1@.len() as int, p0)->Some_0;
                    assert forall|x: Seq<u8>| !(#[trigger] resolvable(p1, x)) by {
                        assert(!has_key(fresh.locals, x));
                        if resolvable(p1, x) {
                            assert(resolvable(p0, x));
                        }
                    }
                    lemma_push_match(sa, cs, p1);
                    let later = Set::new(|x: Seq<u8>| exists|j: int| 0 <= j < wb1@.len() && #[trigger] declares_at(wb1@, j, x));
                    assert forall|x: Seq<u8>| #[trigger] later.contains(x) implies p1.dummis.contains(x) by {}
                    assert forall|j: int, x: Seq<u8>| 0 <= j < wb0@.len() && #[trigger] declares_at(wb0@, j, x) implies p1.dummis.contains(
                        x,
                    ) && !later.contains(x) by {
                        assert(p0.dummis.contains(x));
                        if later.contains(x) {
                            let i = choose|i: int| 0 <= i < wb1@.len() && #[trigger] declares_at(wb1@, i, x);
                            assert(declares_at(wb0@, j, x) && declares_at(wb1@, i, x));
                        }
                    }
                    let cs0 = cs.push(p1);
                    lemma_block_compiles(b0@, b0@.len() as int, sa0, wb0@, cs0, true, later);
                    let s1 = block_sa(b0@, b0@.len() as int, sa0)->Some_0;
                    let s2 = block_effect(wb0@, wb0@.len() as int, cs0)->Some_0;
                    crate::semanal::lemma_block_sa_frame(b0@, b0@.len() as int, sa0);
                    lemma_expr_compiles(cond, s1, wc, s2);
                    let none = Set::<Seq<u8>>::empty();
                    assert forall|j: int, x: Seq<u8>| 0 <= j < wb1@.len() && #[trigger] declares_at(wb1@, j, x) implies s2.last().dummis.contains(
                        x,
                    ) && !none.contains(x) by {
                        assert(later.contains(x));
                    }
                    lemma_block_compiles(b1@, b1@.len() as int, s1, wb1@, s2, true, none);
                },
                _ => {},
            }
        },
    }
}

/// A typed block with no cast, whose loops declare no variable twice, and
/// with room on the stack, is one that the compiler takes, in scopes that
/// agree; the scopes after it agree too. In a preloaded block (`pre`), its
/// declarations and those that come after it, `later`, are preloaded.
proof fn lemma_block_compiles(
    b: Seq<Stmt>,
    n: int,
    sa: Seq<SaScope>,
    wb: Seq<StmtWt>,
    cs: Seq<ScopeModel>,
    pre: bool,
    later: Set<Seq<u8>>,
)
    requires
        typed_block(b, n, sa, wb),
        block_sa(b, n, sa) is Some,
        0 <= n <= b.len(),
        block_no_casts(wb, n),
        block_declares_once(wb, n),
        scopes_match(sa, cs),
        cs.len() >= 1,
        cs.last().locsiz + block_places(wb, n, pre) <= usize::MAX,
        sa.len() + block_loops(wb, n) <= usize::MAX,
        pre ==> declares_distinct(wb),
        pre ==> forall|k: Seq<u8>| #[trigger] later.contains(k) ==> cs.last().dummis.contains(k),
        pre ==> forall|j: int, k: Seq<u8>| 0 <= j < n && #[trigger] declares_at(wb, j, k) ==> cs.last().dummis.contains(k)
            && !later.contains(k),
        !pre ==> cs.last().dummis == Set::<Seq<u8>>::empty(),
    ensures
        block_effect(wb, n, cs) is Some,
        scopes_match(block_sa(b, n, sa)->Some_0, block_effect(wb, n, cs)->Some_0),
        block_effect(wb, n, cs)->Some_0.len() == cs.len(),
        block_effect(wb, n, cs)->Some_0.last().locsiz <= cs.last().locsiz + block_places(wb, n, pre),
        pre ==> forall|k: Seq<u8>| #[trigger] later.contains(k) ==> block_effect(wb, n, cs)->Some_0.last().dummis.contains(k),
        !pre ==> block_effect(wb, n, cs)->Some_0.last().dummis == Set::<Seq<u8>>::empty(),
    decreases b, n,
{
    if n > 0 {
        let w = wb[n - 1];
        let wd = wb.drop_last();
        lemma_block_drop_last_c(wb, n - 1, cs, pre);
        crate::semanal::lemma_block_sa_prefix(b, n, n - 1, sa);
        let later2 = match w {
            StmtWt::Declar(i, _) => later.insert(i@),
            _ => later,
        };
        if pre {
            assert forall|i: int, j: int, k: Seq<u8>| #![trigger declares_at(wd, i, k), declares_at(wd, j, k)]
                declares_at(wd, i, k) && declares_at(wd, j, k) implies i == j by {
                assert(declares_at(wb, i, k) && declares_at(wb, j, k));
            }
            assert forall|k: Seq<u8>| #[trigger] later2.contains(k) implies cs.last().dummis.contains(k) by {
                if !later.contains(k) {
                    assert(declares_at(wb, n - 1, k));
                }
            }
            assert forall|j: int, k: Seq<u8>| 0 <= j < n - 1 && #[trigger] declares_at(wd, j, k) implies cs.last().dummis.contains(
                k,
            ) && !later2.contains(k) by {
                assert(declares_at(wb, j, k));
                if w is Declar && w->Declar_0@ == k {
                    assert(declares_at(wb, n - 1, k));
                }
            }
        }
        lemma_block_compiles(b, n - 1, sa, wd, cs, pre, later2);
        let t = block_effect(wb, n - 1, cs)->Some_0;
        let sat = block_sa(b, n - 1, sa)->Some_0;
        crate::semanal::lemma_block_sa_frame(b, n - 1, sa);
        if pre && w is Declar {
            let k = w->Declar_0@;
            assert(declares_at(wb, n - 1, k));
            assert(!later.contains(k));
            assert(later2.contains(k));
            assert(t.last().dummis.contains(k));
        }
        if pre {
            assert forall|k: Seq<u8>| #[trigger] later.contains(k) implies t.last().dummis.contains(k) by {
                assert(later2.contains(k));
            }
        }
        lemma_stmt_compiles(b[n - 1], sat, w, t, pre, later);
    }
}

/// A program that the analysis takes, whose typed form holds no cast, whose
/// loops declare no variable twice in their blocks, and whose variables and
/// loops fit in a `usize`, is one that the compiler takes: what `semanalize`
/// gives, `Compiler::from_asterix` takes.
pub proof fn lemma_analyzed_program_compiles(main: Seq<Stmt>, wb: Seq<StmtWt>)
    requires
        analyzable(main),
        typed_block(main, main.len() as int, seq![seq![], seq![]], wb),
        block_no_casts(wb, wb.len() as int),
        block_declares_once(wb, wb.len() as int),
        block_places(wb, wb.len() as int, false) + block_loops(wb, wb.len() as int) + 2 <= usize::MAX,
    ensures
        compilable(wb),
{
    let sa: Seq<SaScope> = seq![seq![], seq![]];
    let cs = seq![fresh_scope(0)];
    assert(scopes_match(sa, cs)) by {
        assert forall|i: int, k: Seq<u8>| 0 <= i < cs.len() implies (resolvable(cs[i], k) <==> sc_type(
            sa.drop_first()[i],
            k,
        ) is Some) by {
            assert(sa.drop_first()[i] == Seq::<(Seq<u8>, crate::asterix::Type)>::empty());
            assert(!has_key(cs[i].locals, k));
        }
    }
    assert(cs.last().dummis =~= Set::<Seq<u8>>::empty());
    lemma_block_compiles(main, main.len() as int, sa, wb, cs, false, Set::empty());
}

} // verus!
