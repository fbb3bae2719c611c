pub mod red;  // reduction
pub mod thr;  // jump threading

use vstd::prelude::*;
use crate::intrep::BasicBlock;
use crate::optimus::term::red::{red_spec, reducible};

verus! {

pub fn reduce(bb: &mut BasicBlock, bbi: usize)
    requires
        reducible(old(bb).code@, old(bb).term),
    ensures
        (final(bb).code@, final(bb).term) == red_spec(old(bb).code@, old(bb).term),
        final(bb).pred == old(bb).pred,
{
    red::red(bb, bbi);
}

} // verus!
