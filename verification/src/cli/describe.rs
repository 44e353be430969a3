//! The describe command core: one prefix in, its full report out.

use vstd::prelude::*;

verus! {

use vstd::string::StringExecFns;
use crate::cli::arg_parser;
use crate::cli::arg_parser::cidr_arg_outcome;
use crate::cli::cidr_formatter::CIDRFormatter;
use crate::cli::cidr_formatter::report_text;
use crate::cli::errors::ErrorKind;
use crate::net::cidr::CIDR;
use crate::net::cidr::parse_outcome;

/// The describe command: renders the report of one prefix into `out`.
pub struct CLI {
    pub out: String,
    pub with_binary: bool,
}

impl CLI {
    /// A describe command writing after `out`, with binary columns on.
    pub fn new(out: String) -> (r: Self)
        ensures
            r.out@ == out@,
            r.with_binary == true,
    {
        CLI { out, with_binary: true }
    }

    /// Parses the argument and appends the prefix's report to `out`.
    pub fn execute(&mut self, raw_cidr: String) -> (r: Result<(), ErrorKind>)
        ensures
            final(self).with_binary == old(self).with_binary,
            match r {
                Ok(_) => raw_cidr@.len() > 0 && exists|c: CIDR|
                    #[trigger] parse_outcome(raw_cidr@, Ok(c)) && final(self).out@ == old(
                        self,
                    ).out@ + report_text(c.addr(), c.plen(), old(self).with_binary),
                Err(e) => final(self).out@ == old(self).out@ && cidr_arg_outcome(
                    "CIDR"@,
                    raw_cidr@,
                    Err(e),
                ),
            },
    {
        let cidr = match arg_parser::parse_cidr("CIDR", raw_cidr) {
            Ok(c) => c,
            Err(e) => {
                return Err(e);
            },
        };
        let formatter = CIDRFormatter { cidr, with_binary: self.with_binary };
        let text = formatter.to_string();
        self.out.append(text.as_str());
        Ok(())
    }
}

} // verus!
