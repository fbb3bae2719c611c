pub mod peep;  // peephole
pub mod term;  // the terminators of basic blocks

use vstd::prelude::*;
use crate::intrep::{BasicBlock, Compiler, ImOp, Jmp, Term, compiled_ok, term_ok, term_target};
use crate::optimus::peep::opt_code;
use crate::optimus::term::red::{red_spec, reducible};
use crate::optimus::term::thr::targets_ok;

verus! {

pub const OPT_PASSES: usize = 5;

/// A block's code and terminator after one pass: the peephole rules, then the
/// reduction of its terminator.
pub open spec fn opt_block(code: Seq<ImOp>, term: Term) -> (Seq<ImOp>, Term) {
    red_spec(opt_code(code), term)
}

/// A block's code and terminator after `n` passes.
pub open spec fn opt_passes(code: Seq<ImOp>, term: Term, n: nat) -> (Seq<ImOp>, Term)
    decreases n,
{
    if n == 0 {
        (code, term)
    } else {
        let (c, t) = opt_passes(code, term, (n - 1) as nat);
        opt_block(c, t)
    }
}

/// The blocks hold no jump-if-true.
pub open spec fn no_jump_if_true(bbs: Seq<BasicBlock>) -> bool {
    forall|k: int| 0 <= k < bbs.len() ==> !((#[trigger] bbs[k]).term matches Term::JMP(Jmp::YX(true), _))
}

/// Optimizes every block of the compiled graph, a few passes over them all.
pub fn opt_bblocks(comp: &mut Compiler)
    requires
        no_jump_if_true(old(comp).curr.blocks@),
    ensures
        final(comp).curr.blocks@.len() == old(comp).curr.blocks@.len(),
        forall|k: int| 0 <= k < final(comp).curr.blocks@.len() ==> (
            (#[trigger] final(comp).curr.blocks@[k]).code@, final(comp).curr.blocks@[k].term)
            == opt_passes(old(comp).curr.blocks@[k].code@, old(comp).curr.blocks@[k].term, OPT_PASSES as nat)
            && final(comp).curr.blocks@[k].pred == old(comp).curr.blocks@[k].pred,
        final(comp).consts == old(comp).consts,
        final(comp).idents == old(comp).idents,
        final(comp).curr.currbb == old(comp).curr.currbb,
{
    let n = comp.curr.blocks.len();
    let mut pass: usize = 0;
    while pass < OPT_PASSES
        invariant
            pass <= OPT_PASSES,
            n == old(comp).curr.blocks@.len(),
            comp.curr.blocks@.len() == n,
            no_jump_if_true(comp.curr.blocks@),
            forall|k: int| 0 <= k < n ==> (
                (#[trigger] comp.curr.blocks@[k]).code@, comp.curr.blocks@[k].term)
                == opt_passes(old(comp).curr.blocks@[k].code@, old(comp).curr.blocks@[k].term, pass as nat)
                && comp.curr.blocks@[k].pred == old(comp).curr.blocks@[k].pred,
            comp.consts == old(comp).consts,
            comp.idents == old(comp).idents,
            comp.curr.currbb == old(comp).curr.currbb,
        decreases OPT_PASSES - pass,
    {
        let mut bbi: usize = 0;
        while bbi < n
            invariant
                pass < OPT_PASSES,
                bbi <= n,
                n == old(comp).curr.blocks@.len(),
                comp.curr.blocks@.len() == n,
                no_jump_if_true(comp.curr.blocks@),
                forall|k: int| 0 <= k < n ==> (
                    (#[trigger] comp.curr.blocks@[k]).code@, comp.curr.blocks@[k].term)
                    == opt_passes(old(comp).curr.blocks@[k].code@, old(comp).curr.blocks@[k].term, if k < bbi { (pass + 1) as nat } else { pass as nat })
                    && comp.curr.blocks@[k].pred == old(comp).curr.blocks@[k].pred,
                comp.consts == old(comp).consts,
                comp.idents == old(comp).idents,
                comp.curr.currbb == old(comp).curr.currbb,
            decreases n - bbi,
        {
            let ghost b0 = comp.curr.blocks@[bbi as int];
            peep::opt_one_bb(&mut comp.curr.blocks[bbi]);
            term::reduce(&mut comp.curr.blocks[bbi], bbi);
            bbi += 1;
        }
        pass += 1;
    }
}

/// The optimizer takes every graph the compiler gives: it holds no
/// jump-if-true, and every jump lands on one of its blocks.
pub proof fn lemma_compiled_optimizable(bbs: Seq<BasicBlock>, nc: int)
    requires
        compiled_ok(bbs, nc),
    ensures
        no_jump_if_true(bbs),
        targets_ok(bbs),
{
    assert forall|k: int| 0 <= k < bbs.len() implies !((#[trigger] bbs[k]).term matches Term::JMP(Jmp::YX(true), _)) by {
        assert(term_ok(bbs[k].term, bbs.len() - 1));
    }
    assert forall|k: int| 0 <= k < bbs.len() implies match (#[trigger] bbs[k]).term {
        Term::JMP(_, t) => t < bbs.len(),
        _ => true,
    } by {
        assert(term_ok(bbs[k].term, bbs.len() - 1));
    }
}

/// Optimizing a block never changes where it jumps, nor whether it jumps.
pub proof fn lemma_opt_keeps_target(code: Seq<ImOp>, term: Term, n: nat)
    ensures
        term_target(opt_passes(code, term, n).1) == term_target(term),
        opt_passes(code, term, n).1 is JMP <==> term is JMP,
    decreases n,
{
    if n > 0 {
        lemma_opt_keeps_target(code, term, (n - 1) as nat);
    }
}

} // verus!
