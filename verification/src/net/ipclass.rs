//! The classful-addressing class of an IPv4 address.

use vstd::prelude::*;

verus! {

use vstd::string::StringExecFns;

#[derive(Debug, PartialEq, Eq, Structural, Clone, Copy)]
pub enum IPClass {
    A,
    B,
    C,
    D,
    E,
}

impl IPClass {
    /// The one-letter name of the class.
    pub open spec fn spec_text(self) -> Seq<char> {
        match self {
            IPClass::A => seq!['A'],
            IPClass::B => seq!['B'],
            IPClass::C => seq!['C'],
            IPClass::D => seq!['D'],
            IPClass::E => seq!['E'],
        }
    }

    /// The one-letter name of the class, as text.
    pub fn to_string(&self) -> (r: String)
        ensures
            r@ == self.spec_text(),
    {
        proof {
            reveal_strlit("A");
            reveal_strlit("B");
            reveal_strlit("C");
            reveal_strlit("D");
            reveal_strlit("E");
        }
        let mut out = String::new();
        match self {
            IPClass::A => out.append("A"),
            IPClass::B => out.append("B"),
            IPClass::C => out.append("C"),
            IPClass::D => out.append("D"),
            IPClass::E => out.append("E"),
        }
        proof {
            assert(out@ =~= self.spec_text());
        }
        out
    }
}

} // verus!
