use vstd::prelude::*;
use crate::intrep::{BasicBlock, ImOp};

verus! {

/// What a rule gives for a window: the opcodes that replace it, or nothing
/// where the rule does not apply.
pub open spec fn arr_seq<const M: usize>(r: Option<[ImOp; M]>) -> Option<Seq<ImOp>> {
    match r {
        Some(a) => Some(a@),
        None => None,
    }
}

/// The code from position `i` on, after replacing, left to right and without
/// overlap, each window of `n` opcodes that `f` rewrites, the last window
/// included.
pub open spec fn peep_from(code: Seq<ImOp>, n: int, f: spec_fn(Seq<ImOp>) -> Option<Seq<ImOp>>, i: int) -> Seq<ImOp>
    decreases code.len() - i,
{
    if n <= 0 || i < 0 || i > code.len() - n {
        code.subrange(i, code.len() as int)
    } else {
        match f(code.subrange(i, i + n)) {
            Some(res) => res + peep_from(code, n, f, i + n),
            None => seq![code[i]] + peep_from(code, n, f, i + 1),
        }
    }
}

/// The code after one peephole pass with rule `f` over windows of `n`.
pub open spec fn peep(code: Seq<ImOp>, n: int, f: spec_fn(Seq<ImOp>) -> Option<Seq<ImOp>>) -> Seq<ImOp> {
    if code.len() < n {
        code
    } else {
        peep_from(code, n, f, 0)
    }
}

/// Does a generic (disjoint) peephole optimization on one basic block: each
/// window of `N` opcodes that `subs` rewrites is replaced by its `M` opcodes.
fn peephole<P, const N: usize, const M: usize>(
    bb: &mut BasicBlock,
    subs: P,
    Ghost(f): Ghost<spec_fn(Seq<ImOp>) -> Option<Seq<ImOp>>>,
)
    where P: Fn(&[ImOp]) -> Option<[ImOp; M]>,
    requires
        N >= 1,
        M <= N,  // the window should not grow
        forall|w: &[ImOp]| w@.len() == N ==> call_requires(subs, (w,)),
        forall|w: &[ImOp], r: Option<[ImOp; M]>| call_ensures(subs, (w,), r) ==> arr_seq(r) == f(w@),
    ensures
        final(bb).code@ == peep(old(bb).code@, N as int, f),
        final(bb).term == old(bb).term,
        final(bb).pred == old(bb).pred,
{
    let code_len = bb.code.len();
    if code_len < N {
        return;
    }
    let ghost code = bb.code@;
    let imax = code_len - N;
    let mut out: Vec<ImOp> = Vec::new();
    let mut i: usize = 0;
    while i <= imax
        invariant
            bb.code@ == code,
            code_len == code.len(),
            imax == code_len - N,
            N >= 1,
            i <= code_len,
            forall|w: &[ImOp]| w@.len() == N ==> call_requires(subs, (w,)),
            forall|w: &[ImOp], r: Option<[ImOp; M]>| call_ensures(subs, (w,), r) ==> arr_seq(r) == f(w@),
            out@ + peep_from(code, N as int, f, i as int) == peep_from(code, N as int, f, 0),
        decreases code_len - i,
    {
        let w = &bb.code.as_slice()[i..i + N];
        assert(w@ == code.subrange(i as int, i + N));
        match subs(w) {
            Some(res) => {
                let ghost o = out@;
                let mut j: usize = 0;
                while j < M
                    invariant
                        j <= M,
                        res@.len() == M,
                        out@ == o + res@.take(j as int),
                    decreases M - j,
                {
                    out.push(res[j]);
                    j += 1;
                    assert(out@ =~= o + res@.take(j as int));
                }
                assert(res@.take(M as int) =~= res@);
                assert(o + (res@ + peep_from(code, N as int, f, i + N)) =~= out@ + peep_from(code, N as int, f, i + N));
                i += N;  // advance past the found window
            },
            None => {
                let ghost o = out@;
                out.push(bb.code[i]);
                assert(o + (seq![code[i as int]] + peep_from(code, N as int, f, i + 1)) =~= out@ + peep_from(code, N as int, f, i + 1));
                i += 1;
            },
        }
    }
    // the rest is kept
    let ghost mid = out@;
    let ghost i0 = i;
    while i < code_len
        invariant
            bb.code@ == code,
            code_len == code.len(),
            i0 <= i <= code_len,
            out@ == mid + code.subrange(i0 as int, i as int),
        decreases code_len - i,
    {
        out.push(bb.code[i]);
        i += 1;
        assert(out@ =~= mid + code.subrange(i0 as int, i as int));
    }
    assert(out@ =~= peep_from(code, N as int, f, 0));
    bb.code = out;
}

/// LLX(a) SLX(a) -> Ø
pub open spec fn load_store() -> spec_fn(Seq<ImOp>) -> Option<Seq<ImOp>> {
    |w: Seq<ImOp>| if w.len() == 2 && w[0] is LLX && w[1] == ImOp::SLX(w[0]->LLX_0) {
        Some(Seq::<ImOp>::empty())
    } else {
        None
    }
}

/// SLX(a) LLX(a) -> ULX(a)
pub open spec fn store_load() -> spec_fn(Seq<ImOp>) -> Option<Seq<ImOp>> {
    |w: Seq<ImOp>| if w.len() == 2 && w[0] is SLX && w[1] == ImOp::LLX(w[0]->SLX_0) {
        Some(seq![ImOp::ULX(w[0]->SLX_0)])
    } else {
        None
    }
}

/// LLX(a) LLX(a) -> LLX(a) DUP
pub open spec fn load_load() -> spec_fn(Seq<ImOp>) -> Option<Seq<ImOp>> {
    |w: Seq<ImOp>| if w.len() == 2 && w[0] is LLX && w[1] == w[0] {
        Some(seq![w[0], ImOp::DUP])
    } else {
        None
    }
}

/// LKX(a) LKX(a) -> LKX(a) DUP
pub open spec fn lkx_lkx() -> spec_fn(Seq<ImOp>) -> Option<Seq<ImOp>> {
    |w: Seq<ImOp>| if w.len() == 2 && w[0] is LKX && w[1] == w[0] {
        Some(seq![w[0], ImOp::DUP])
    } else {
        None
    }
}

/// The code after all the peephole rules, in turn.
pub open spec fn opt_code(code: Seq<ImOp>) -> Seq<ImOp> {
    peep(peep(peep(peep(code, 2, load_store()), 2, store_load()), 2, load_load()), 2, lkx_lkx())
}

fn ll_sl(w: &[ImOp]) -> (r: Option<[ImOp; 0]>)
    requires
        w@.len() == 2,
    ensures
        arr_seq(r) == load_store()(w@),
{
    match (w[0], w[1]) {
        (ImOp::LLX(x), ImOp::SLX(y)) => if x == y {
            let a: [ImOp; 0] = [];
            assert(a@ =~= Seq::<ImOp>::empty());
            Some(a)
        } else {
            None
        },
        _ => None,
    }
}

fn sl_ll(w: &[ImOp]) -> (r: Option<[ImOp; 1]>)
    requires
        w@.len() == 2,
    ensures
        arr_seq(r) == store_load()(w@),
{
    match (w[0], w[1]) {
        (ImOp::SLX(x), ImOp::LLX(y)) => if x == y {
            let a: [ImOp; 1] = [ImOp::ULX(x)];
            assert(a@ =~= seq![ImOp::ULX(x)]);
            Some(a)
        } else {
            None
        },
        _ => None,
    }
}

fn ll_ll(w: &[ImOp]) -> (r: Option<[ImOp; 2]>)
    requires
        w@.len() == 2,
    ensures
        arr_seq(r) == load_load()(w@),
{
    match (w[0], w[1]) {
        (ImOp::LLX(x), ImOp::LLX(y)) => if x == y {
            let a: [ImOp; 2] = [ImOp::LLX(x), ImOp::DUP];
            assert(a@ =~= seq![ImOp::LLX(x), ImOp::DUP]);
            Some(a)
        } else {
            None
        },
        _ => None,
    }
}

fn lk_lk(w: &[ImOp]) -> (r: Option<[ImOp; 2]>)
    requires
        w@.len() == 2,
    ensures
        arr_seq(r) == lkx_lkx()(w@),
{
    match (w[0], w[1]) {
        (ImOp::LKX(x), ImOp::LKX(y)) => if x == y {
            let a: [ImOp; 2] = [ImOp::LKX(x), ImOp::DUP];
            assert(a@ =~= seq![ImOp::LKX(x), ImOp::DUP]);
            Some(a)
        } else {
            None
        },
        _ => None,
    }
}

/// Does all the peephole rules on a block, one after the other.
pub fn opt_one_bb(bb: &mut BasicBlock)
    ensures
        final(bb).code@ == opt_code(old(bb).code@),
        final(bb).term == old(bb).term,
        final(bb).pred == old(bb).pred,
{
    // LLX(a) SLX(a) -> Ø
    peephole::<_, 2, 0>(bb, ll_sl, Ghost(load_store()));
    // SLX(a) LLX(a) -> ULX(a)
    peephole::<_, 2, 1>(bb, sl_ll, Ghost(store_load()));
    // LLX(a) LLX(a) -> LLX(a) DUP
    peephole::<_, 2, 2>(bb, ll_ll, Ghost(load_load()));
    // LKX(a) LKX(a) -> LKX(a) DUP
    peephole::<_, 2, 2>(bb, lk_lk, Ghost(lkx_lkx()));
}

/// A pass whose rule never makes a window longer leaves the code from `i` on
/// no longer than it was.
proof fn lemma_peep_from_len(code: Seq<ImOp>, n: int, f: spec_fn(Seq<ImOp>) -> Option<Seq<ImOp>>, i: int)
    requires
        0 <= i <= code.len(),
        n >= 1,
        forall|w: Seq<ImOp>| #[trigger] f(w) is Some ==> f(w)->Some_0.len() <= n,
    ensures
        peep_from(code, n, f, i).len() <= code.len() - i,
    decreases code.len() - i,
{
    if i <= code.len() - n {
        lemma_peep_from_len(code, n, f, i + n);
        lemma_peep_from_len(code, n, f, i + 1);
    }
}

proof fn lemma_peep_len(code: Seq<ImOp>, n: int, f: spec_fn(Seq<ImOp>) -> Option<Seq<ImOp>>)
    requires
        n >= 1,
        forall|w: Seq<ImOp>| #[trigger] f(w) is Some ==> f(w)->Some_0.len() <= n,
    ensures
        peep(code, n, f).len() <= code.len(),
{
    if code.len() >= n {
        lemma_peep_from_len(code, n, f, 0);
    }
}

/// The peephole rules never make a block's code longer.
pub proof fn lemma_opt_code_no_longer(code: Seq<ImOp>)
    ensures
        opt_code(code).len() <= code.len(),
{
    let c1 = peep(code, 2, load_store());
    let c2 = peep(c1, 2, store_load());
    let c3 = peep(c2, 2, load_load());
    lemma_peep_len(code, 2, load_store());
    lemma_peep_len(c1, 2, store_load());
    lemma_peep_len(c2, 2, load_load());
    lemma_peep_len(c3, 2, lkx_lkx());
}


// What the rules keep ---------------------------------------------------------------

/// What an opcode does on a stack machine whose locals are the bottom slots
/// of its stack, with the constant pool `cs`: the stack after it, or nothing
/// where it cannot run. `LKX(i)` pushes constant `i`, `LLX(i)` pushes slot
/// `i`, `SLX(i)` pops the top into slot `i`, `ULX(i)` copies the top into
/// slot `i`, `DUP` pushes the top again. Other opcodes are given no meaning
/// here.
pub open spec fn step_op(op: ImOp, st: Seq<int>, cs: Seq<int>) -> Option<Seq<int>> {
    match op {
        ImOp::LKX(i) => if i < cs.len() {
            Some(st.push(cs[i as int]))
        } else {
            None
        },
        ImOp::LLX(i) => if i < st.len() {
            Some(st.push(st[i as int]))
        } else {
            None
        },
        ImOp::SLX(i) => if st.len() >= 1 && i < st.len() - 1 {
            Some(st.drop_last().update(i as int, st.last()))
        } else {
            None
        },
        ImOp::ULX(i) => if st.len() >= 1 && i < st.len() - 1 {
            Some(st.update(i as int, st.last()))
        } else {
            None
        },
        ImOp::DUP => if st.len() >= 1 {
            Some(st.push(st.last()))
        } else {
            None
        },
        _ => None,
    }
}

/// The stack after running `code` from `st`, or nothing where it cannot run.
pub open spec fn run_ops(code: Seq<ImOp>, st: Seq<int>, cs: Seq<int>) -> Option<Seq<int>>
    decreases code.len(),
{
    if code.len() == 0 {
        Some(st)
    } else {
        match step_op(code[0], st, cs) {
            Some(s2) => run_ops(code.drop_first(), s2, cs),
            None => None,
        }
    }
}

/// Whether rewriting `w` as `r` keeps what the code does: from every stack
/// where `w` runs, `r` runs to the same stack.
pub open spec fn keeps_meaning(w: Seq<ImOp>, r: Seq<ImOp>) -> bool {
    forall|st: Seq<int>, cs: Seq<int>| #[trigger] run_ops(w, st, cs) is Some ==> run_ops(r, st, cs) == run_ops(w, st, cs)
}

/// The window of the two opcodes `a` and `b`.
pub open spec fn pair(a: ImOp, b: ImOp) -> Seq<ImOp> {
    seq![a, b]
}

proof fn lemma_run_two(a: ImOp, b: ImOp, st: Seq<int>, cs: Seq<int>)
    ensures
        run_ops(seq![a, b], st, cs) == match step_op(a, st, cs) {
            Some(s1) => step_op(b, s1, cs),
            None => None,
        },
{
    if let Some(s1) = step_op(a, st, cs) {
        assert(seq![a, b].drop_first() =~= seq![b]);
        assert(seq![b].drop_first() =~= Seq::<ImOp>::empty());
        assert(run_ops(seq![b], s1, cs) == match step_op(b, s1, cs) {
            Some(s2) => run_ops(Seq::<ImOp>::empty(), s2, cs),
            None => None,
        });
    }
}

proof fn lemma_run_one(a: ImOp, st: Seq<int>, cs: Seq<int>)
    ensures
        run_ops(seq![a], st, cs) == step_op(a, st, cs),
{
    assert(seq![a].drop_first() =~= Seq::<ImOp>::empty());
    if let Some(s1) = step_op(a, st, cs) {
        assert(run_ops(Seq::<ImOp>::empty(), s1, cs) == Some(s1));
    }
}

/// Every rewrite of every peephole rule keeps what the code does, on every
/// stack; and each rule rewrites every window it is for: a load and a store
/// of one local, a store and a load of one local, two loads of one local,
/// two loads of one constant.
pub proof fn lemma_rules_keep_meaning(w: Seq<ImOp>)
    ensures
        load_store()(w) matches Some(r) ==> keeps_meaning(w, r),
        store_load()(w) matches Some(r) ==> keeps_meaning(w, r),
        load_load()(w) matches Some(r) ==> keeps_meaning(w, r),
        lkx_lkx()(w) matches Some(r) ==> keeps_meaning(w, r),
        forall|a: usize| #[trigger] load_store()(pair(ImOp::LLX(a), ImOp::SLX(a))) is Some,
        forall|a: usize| #[trigger] store_load()(pair(ImOp::SLX(a), ImOp::LLX(a))) is Some,
        forall|a: usize| #[trigger] load_load()(pair(ImOp::LLX(a), ImOp::LLX(a))) is Some,
        forall|a: usize| #[trigger] lkx_lkx()(pair(ImOp::LKX(a), ImOp::LKX(a))) is Some,
{
    if w.len() == 2 {
        assert(w =~= seq![w[0], w[1]]);
        if let Some(r) = load_store()(w) {
            assert forall|st: Seq<int>, cs: Seq<int>| #[trigger] run_ops(w, st, cs) is Some implies run_ops(r, st, cs)
                == run_ops(w, st, cs) by {
                lemma_run_two(w[0], w[1], st, cs);
                let a = w[0]->LLX_0;
                let s1 = st.push(st[a as int]);
                assert(s1.drop_last().update(a as int, s1.last()) =~= st);
            }
        }
        if let Some(r) = store_load()(w) {
            assert forall|st: Seq<int>, cs: Seq<int>| #[trigger] run_ops(w, st, cs) is Some implies run_ops(r, st, cs)
                == run_ops(w, st, cs) by {
                lemma_run_two(w[0], w[1], st, cs);
                lemma_run_one(r[0], st, cs);
                assert(r =~= seq![r[0]]);
                let a = w[0]->SLX_0;
                let s1 = st.drop_last().update(a as int, st.last());
                assert(s1.push(s1[a as int]) =~= st.update(a as int, st.last()));
            }
        }
        if let Some(r) = load_load()(w) {
            assert forall|st: Seq<int>, cs: Seq<int>| #[trigger] run_ops(w, st, cs) is Some implies run_ops(r, st, cs)
                == run_ops(w, st, cs) by {
                lemma_run_two(w[0], w[1], st, cs);
                lemma_run_two(r[0], r[1], st, cs);
                assert(r =~= seq![r[0], r[1]]);
            }
        }
        if let Some(r) = lkx_lkx()(w) {
            assert forall|st: Seq<int>, cs: Seq<int>| #[trigger] run_ops(w, st, cs) is Some implies run_ops(r, st, cs)
                == run_ops(w, st, cs) by {
                lemma_run_two(w[0], w[1], st, cs);
                lemma_run_two(r[0], r[1], st, cs);
                assert(r =~= seq![r[0], r[1]]);
            }
        }
    }
}
} // verus!
