use vstd::prelude::*;

pub mod util;
pub mod asterix;
pub mod intrep;
pub mod genesis;
pub mod tok;
pub mod lex;
pub mod ast;
pub mod pars;
pub mod optimus;
pub mod dflib;
pub mod tast;
pub mod semanal;
pub mod ssa_ir;
pub mod cgen;

verus! {
} // verus!
