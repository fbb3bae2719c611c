use vstd::prelude::*;

verus! {

/// The native tables.
#[derive(Debug, Copy, Clone, PartialEq, Eq, Structural)]
pub enum NatTb {
    STD,
    IO,
    A,
}

/// The name of a native table: `STD`, `STD$io` or `STD$a`.
pub open spec fn nattb_name(t: NatTb) -> Seq<char> {
    match t {
        NatTb::STD => seq!['S', 'T', 'D'],
        NatTb::IO => seq!['S', 'T', 'D', '$', 'i', 'o'],
        NatTb::A => seq!['S', 'T', 'D', '$', 'a'],
    }
}

impl NatTb {
    pub fn name(&self) -> (r: &'static str)
        ensures
            r@ == nattb_name(*self),
    {
        match self {
            NatTb::STD => {
                proof {
                    reveal_strlit("STD");
                }
                "STD"
            },
            NatTb::IO => {
                proof {
                    reveal_strlit("STD$io");
                }
                "STD$io"
            },
            NatTb::A => {
                proof {
                    reveal_strlit("STD$a");
                }
                "STD$a"
            },
        }
    }
}

} // verus!
