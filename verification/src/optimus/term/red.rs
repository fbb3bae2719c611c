use vstd::prelude::*;
use crate::asterix::cmp_wt_negated;
use crate::intrep::{BasicBlock, BbIdx, ImOp, Jmp, Term};

verus! {

/// The code and terminator of a block after reducing its terminator: a
/// jump-if-false right after a comparison becomes a compare-and-jump on the
/// negated comparison, and a POP right before a halt goes away.
pub open spec fn red_spec(code: Seq<ImOp>, term: Term) -> (Seq<ImOp>, Term) {
    if code.len() == 0 {
        (code, term)
    } else {
        match term {
            Term::JMP(Jmp::YX(false), tgt) => match code.last() {
                ImOp::CMP(c) => (code.drop_last(), Term::JMP(Jmp::CX(cmp_wt_negated(c)), tgt)),
                _ => (code, term),
            },
            Term::HLT => if code.last() == ImOp::POP {
                (code.drop_last(), term)
            } else {
                (code, term)
            },
            _ => (code, term),
        }
    }
}

/// Whether the reduction takes the block: it does not reduce a jump-if-true
/// yet.
pub open spec fn reducible(code: Seq<ImOp>, term: Term) -> bool {
    code.len() == 0 || !(term matches Term::JMP(Jmp::YX(true), _))
}

pub fn red(bb: &mut BasicBlock, bbi: usize)
    requires
        reducible(old(bb).code@, old(bb).term),
    ensures
        (final(bb).code@, final(bb).term) == red_spec(old(bb).code@, old(bb).term),
        final(bb).pred == old(bb).pred,
{
    if bb.code.len() == 0 {
        return;
    }
    match bb.term {
        Term::JMP(j, tgt) => jmp(bb, bbi, j, tgt),
        Term::HLT => ignoring_terms(bb),
        _ => {},
    }
}

fn jmp(bb: &mut BasicBlock, bbi: usize, jop: Jmp, tgt: BbIdx)
    requires
        old(bb).code@.len() > 0,
        old(bb).term == Term::JMP(jop, tgt),
        jop != Jmp::YX(true),
    ensures
        (final(bb).code@, final(bb).term) == red_spec(old(bb).code@, old(bb).term),
        final(bb).pred == old(bb).pred,
{
    match jop {
        Jmp::JX => {},  // a goto stays, even to the next block
        Jmp::YX(b) => if !b {
            jfx(bb, tgt);
        },
        _ => {},
    }
}

fn jfx(bb: &mut BasicBlock, tgt: BbIdx)
    requires
        old(bb).code@.len() > 0,
        old(bb).term == Term::JMP(Jmp::YX(false), tgt),
    ensures
        (final(bb).code@, final(bb).term) == red_spec(old(bb).code@, old(bb).term),
        final(bb).pred == old(bb).pred,
{
    let new_term = match bb.code.as_slice().last().unwrap() {
        ImOp::CMP(c) => Term::JMP(Jmp::CX(c.negated()), tgt),
        _ => {
            return;  // do nothing
        },
    };
    bb.code.pop();
    bb.term = new_term;
}

fn ignoring_terms(bb: &mut BasicBlock)
    requires
        old(bb).code@.len() > 0,
        old(bb).term == Term::HLT,
    ensures
        (final(bb).code@, final(bb).term) == red_spec(old(bb).code@, old(bb).term),
        final(bb).pred == old(bb).pred,
{
    if *bb.code.as_slice().last().unwrap() == ImOp::POP {
        bb.code.pop();
    }
}

} // verus!
