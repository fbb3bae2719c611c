use vstd::prelude::*;

verus! {

/// The native functions.
#[allow(non_camel_case_types)]
#[derive(Debug, Copy, Clone, PartialEq, Eq, Structural)]
pub enum NatFn {
    A_LEN,
}

/// The number of arguments a native function takes.
pub open spec fn natfn_arity(f: NatFn) -> usize {
    match f {
        NatFn::A_LEN => 1,
    }
}

impl NatFn {
    pub fn arity(&self) -> (r: usize)
        ensures
            r == natfn_arity(*self),
    {
        match self {
            NatFn::A_LEN => 1,
        }
    }
}

} // verus!
