use vstd::prelude::*;
use crate::intrep::{BasicBlock, Jmp, Term};

verus! {

/// Every jump of the blocks lands on one of them.
pub open spec fn targets_ok(bbs: Seq<BasicBlock>) -> bool {
    forall|k: int| 0 <= k < bbs.len() ==> match (#[trigger] bbs[k]).term {
        Term::JMP(_, t) => t < bbs.len(),
        _ => true,
    }
}

/// The terminators after threading the jump of block `i`: a jump to an empty
/// block that only goes to another block goes straight there.
pub open spec fn thr1_terms(ts: Seq<Term>, empty: Seq<bool>, i: int) -> Seq<Term> {
    match ts[i] {
        Term::JMP(j, tgt) => if empty[tgt as int] {
            match ts[tgt as int] {
                Term::JMP(Jmp::JX, tgt2) => ts.update(i, Term::JMP(j, tgt2)),
                _ => ts,
            }
        } else {
            ts
        },
        _ => ts,
    }
}

/// The terminators after threading the jumps of the first `n` blocks, in turn.
pub open spec fn thr_upto(ts: Seq<Term>, empty: Seq<bool>, n: int) -> Seq<Term>
    decreases n,
{
    if n <= 0 {
        ts
    } else {
        thr1_terms(thr_upto(ts, empty, n - 1), empty, n - 1)
    }
}

pub open spec fn terms_of(bbs: Seq<BasicBlock>) -> Seq<Term> {
    bbs.map_values(|b: BasicBlock| b.term)
}

pub open spec fn empties(bbs: Seq<BasicBlock>) -> Seq<bool> {
    bbs.map_values(|b: BasicBlock| b.code@.len() == 0)
}

/// Threads the jumps of all the blocks, in turn.
pub fn thr(bbs: &mut [BasicBlock])
    requires
        targets_ok(old(bbs)@),
    ensures
        final(bbs)@.len() == old(bbs)@.len(),
        targets_ok(final(bbs)@),
        terms_of(final(bbs)@) == thr_upto(terms_of(old(bbs)@), empties(old(bbs)@), old(bbs)@.len() as int),
        forall|k: int| 0 <= k < final(bbs)@.len() ==> (#[trigger] final(bbs)@[k]).code == old(bbs)@[k].code
            && final(bbs)@[k].pred == old(bbs)@[k].pred,
{
    let n = bbs.len();
    let mut i: usize = 0;
    while i < n
        invariant
            n == old(bbs)@.len(),
            bbs@.len() == n,
            i <= n,
            targets_ok(bbs@),
            terms_of(bbs@) == thr_upto(terms_of(old(bbs)@), empties(old(bbs)@), i as int),
            forall|k: int| 0 <= k < bbs@.len() ==> (#[trigger] bbs@[k]).code == old(bbs)@[k].code
                && bbs@[k].pred == old(bbs)@[k].pred,
        decreases n - i,
    {
        proof {
            assert(empties(bbs@) =~= empties(old(bbs)@));
        }
        thr1(bbs, i);
        i += 1;
    }
}

fn thr1(b: &mut [BasicBlock], i: usize)
    requires
        i < old(b)@.len(),
        targets_ok(old(b)@),
    ensures
        final(b)@.len() == old(b)@.len(),
        targets_ok(final(b)@),
        terms_of(final(b)@) == thr1_terms(terms_of(old(b)@), empties(old(b)@), i as int),
        forall|k: int| 0 <= k < final(b)@.len() ==> (#[trigger] final(b)@[k]).code == old(b)@[k].code
            && final(b)@[k].pred == old(b)@[k].pred,
{
    let tgt = match b[i].term.jmp_target() {
        Some(t) => t,
        None => {
            proof {
                assert(terms_of(b@) =~= thr1_terms(terms_of(old(b)@), empties(old(b)@), i as int));
            }
            return;
        },
    };
    if b[tgt].code.len() != 0 {
        proof {
            assert(terms_of(b@) =~= thr1_terms(terms_of(old(b)@), empties(old(b)@), i as int));
        }
        return;
    }
    let tgt2 = match b[tgt].term {
        Term::JMP(Jmp::JX, t2) => t2,
        _ => {
            proof {
                assert(terms_of(b@) =~= thr1_terms(terms_of(old(b)@), empties(old(b)@), i as int));
            }
            return;
        },
    };
    b[i].term.set_jmp_target(tgt2);
    proof {
        assert(terms_of(b@) =~= thr1_terms(terms_of(old(b)@), empties(old(b)@), i as int));
    }
}

} // verus!
