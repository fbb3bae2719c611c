use vstd::prelude::*;

verus! {

/// The native procedures.
#[allow(non_camel_case_types)]
#[derive(Debug, Copy, Clone, PartialEq, Eq, Structural)]
pub enum NatPc {
    IO_PUT,
    IO_PUTLN,
    GC,
    A_EKE,
}

/// The number of arguments a native procedure takes.
pub open spec fn natpc_arity(p: NatPc) -> usize {
    match p {
        NatPc::IO_PUT => 1,
        NatPc::IO_PUTLN => 1,
        NatPc::GC => 0,
        NatPc::A_EKE => 2,
    }
}

impl NatPc {
    pub fn arity(&self) -> (r: usize)
        ensures
            r == natpc_arity(*self),
    {
        match self {
            NatPc::IO_PUT => 1,
            NatPc::IO_PUTLN => 1,
            NatPc::GC => 0,
            NatPc::A_EKE => 2,
        }
    }
}

} // verus!
