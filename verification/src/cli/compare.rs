//! The compare command core: two prefixes in, their relationship out.

use vstd::prelude::*;

verus! {

use vstd::string::StringExecFns;
use crate::cli::arg_parser;
use crate::cli::arg_parser::cidr_arg_outcome;
use crate::cli::errors::ErrorKind;
use crate::net::cidr::CIDR;
use crate::net::cidr::CIDRComparison;
use crate::net::cidr::cidr_text;
use crate::net::cidr::parse_outcome;
use crate::net::cidr::spec_compare;

/// The compare command: renders one line naming the relationship.
pub struct CLI {
    pub out: String,
}

/// The wording of each comparison outcome.
pub open spec fn comparison_text(c: CIDRComparison) -> Seq<char> {
    match c {
        CIDRComparison::Subset => "is a subset of"@,
        CIDRComparison::Superset => "is a superset of"@,
        CIDRComparison::Equals => "is the same as"@,
        CIDRComparison::Different => "is in a different network than"@,
    }
}

/// The line the compare command prints for two parsed prefixes.
pub open spec fn compare_line(a: CIDR, b: CIDR) -> Seq<char> {
    cidr_text(a.addr(), a.plen()) + " "@ + comparison_text(
        spec_compare(a.addr(), a.plen(), b.addr(), b.plen()),
    ) + " "@ + cidr_text(b.addr(), b.plen()) + seq!['\n']
}

impl CLI {
    /// A compare command writing after `out`.
    pub fn new(out: String) -> (r: Self)
        ensures
            r.out@ == out@,
    {
        CLI { out }
    }

    /// Parses both arguments and appends the comparison line to `out`.
    pub fn execute(&mut self, raw_cidr: String, raw_other: String) -> (r: Result<(), ErrorKind>)
        ensures
            match r {
                Ok(_) => raw_cidr@.len() > 0 && raw_other@.len() > 0 && exists|a: CIDR, b: CIDR|
                    #[trigger] parse_outcome(raw_cidr@, Ok(a)) && #[trigger] parse_outcome(
                        raw_other@,
                        Ok(b),
                    ) && final(self).out@ == old(self).out@ + compare_line(a, b),
                Err(e) => final(self).out@ == old(self).out@ && (cidr_arg_outcome(
                    "CIDR"@,
                    raw_cidr@,
                    Err(e),
                ) || (raw_cidr@.len() > 0 && (exists|a: CIDR| #[trigger] parse_outcome(
                    raw_cidr@,
                    Ok(a),
                )) && cidr_arg_outcome("OTHER_CIDR"@, raw_other@, Err(e)))),
            },
    {
        proof {
            reveal_strlit("\n");
        }
        let cidr = match arg_parser::parse_cidr("CIDR", raw_cidr) {
            Ok(c) => c,
            Err(e) => {
                return Err(e);
            },
        };
        let other = match arg_parser::parse_cidr("OTHER_CIDR", raw_other) {
            Ok(c) => c,
            Err(e) => {
                return Err(e);
            },
        };
        let description: &str = match cidr.compare(&other) {
            CIDRComparison::Subset => "is a subset of",
            CIDRComparison::Superset => "is a superset of",
            CIDRComparison::Equals => "is the same as",
            CIDRComparison::Different => "is in a different network than",
        };
        let cidr_str = cidr.to_string();
        let other_str = other.to_string();
        self.out.append(cidr_str.as_str());
        self.out.append(" ");
        self.out.append(description);
        self.out.append(" ");
        self.out.append(other_str.as_str());
        self.out.append("\n");
        proof {
            assert(final(self).out@ =~= old(self).out@ + compare_line(cidr, other));
        }
        Ok(())
    }
}

} // verus!
