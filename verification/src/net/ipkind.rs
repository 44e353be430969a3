//! Whether an IPv4 address belongs to a private, public or special range.

use vstd::prelude::*;

verus! {

use vstd::string::StringExecFns;

#[derive(Debug, PartialEq, Eq)]
pub enum IPKind {
    Private,
    Public,
    Special(&'static str),
}

impl IPKind {
    /// The descriptive text of the kind, as shown to users.
    pub open spec fn spec_text(self) -> Seq<char> {
        match self {
            IPKind::Private => "Private Internet"@,
            IPKind::Public => "Public Internet"@,
            IPKind::Special(kind) => "Special ("@ + kind@ + ")"@,
        }
    }

    /// The descriptive text of the kind.
    pub fn to_string(&self) -> (r: String)
        ensures
            r@ == self.spec_text(),
    {
        let mut out = String::new();
        match self {
            IPKind::Private => out.append("Private Internet"),
            IPKind::Public => out.append("Public Internet"),
            IPKind::Special(kind) => {
                out.append("Special (");
                out.append(kind);
                out.append(")");
            },
        }
        proof {
            assert(out@ =~= self.spec_text());
        }
        out
    }
}

} // verus!
