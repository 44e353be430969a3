//! The split command core: a network prefix subdivided under a finer
//! mask, with the full report of each sub-block; a host prefix is
//! reported once, reinterpreted under the new mask.

use vstd::prelude::*;

verus! {

use vstd::string::StringExecFns;
use vstd::arithmetic::power2::pow2;
use crate::cli::arg_parser;
use crate::cli::arg_parser::cidr_arg_outcome;
use crate::cli::arg_parser::mask_arg_outcome;
use crate::cli::cidr_formatter::CIDRFormatter;
use crate::cli::cidr_formatter::report_text;
use crate::cli::errors::ErrorKind;
use crate::net::cidr::CIDR;
use crate::net::cidr::parse_outcome;
use crate::net::mask::Mask;
use crate::net::mask::align_down;
use crate::net::mask::block_of;

/// The split command: renders the sub-blocks of a network prefix.
pub struct CLI {
    pub out: String,
    pub with_binary: bool,
}

/// One entry of the split output: a separator line and a full report.
pub open spec fn split_entry(a: int, p: int, wb: bool) -> Seq<char> {
    "========"@ + seq!['\n'] + report_text(a, p, wb)
}

/// The first `k` entries of the split of `base` under length `m`.
pub open spec fn split_entries(base: int, m: int, k: int, wb: bool) -> Seq<char>
    decreases k,
{
    if k <= 0 {
        Seq::empty()
    } else {
        split_entries(base, m, k - 1, wb) + split_entry(base + (k - 1) * block_of(m), m, wb)
    }
}

/// The whole split output for a parsed prefix and a parsed mask.
pub open spec fn split_output(c: CIDR, m: Mask, wb: bool) -> Seq<char> {
    let base = align_down(c.addr(), c.plen());
    if c.addr() != base {
        report_text(c.addr(), m.spec_len(), wb)
    } else {
        let count = if m.spec_len() > c.plen() {
            pow2((m.spec_len() - c.plen()) as nat) as int
        } else {
            1
        };
        split_entries(base, m.spec_len(), count, wb)
    }
}

impl CLI {
    /// A split command writing after `out`, with binary columns on.
    pub fn new(out: String) -> (r: Self)
        ensures
            r.out@ == out@,
            r.with_binary == true,
    {
        CLI { out, with_binary: true }
    }

    /// Parses the arguments and appends the split's reports to `out`.
    pub fn execute(&mut self, raw_cidr: String, raw_new_mask: String) -> (r: Result<
        (),
        ErrorKind,
    >)
        ensures
            final(self).with_binary == old(self).with_binary,
            match r {
                Ok(_) => raw_cidr@.len() > 0 && raw_new_mask@.len() > 0 && exists|c: CIDR, m: Mask|
                    #[trigger] parse_outcome(raw_cidr@, Ok(c)) && #[trigger] mask_arg_outcome(
                        "MASK"@,
                        raw_new_mask@,
                        Ok(m),
                    ) && final(self).out@ == old(self).out@ + split_output(
                        c,
                        m,
                        old(self).with_binary,
                    ),
                Err(e) => final(self).out@ == old(self).out@ && (cidr_arg_outcome(
                    "CIDR"@,
                    raw_cidr@,
                    Err(e),
                ) || (raw_cidr@.len() > 0 && (exists|c: CIDR| #[trigger] parse_outcome(
                    raw_cidr@,
                    Ok(c),
                )) && mask_arg_outcome("MASK"@, raw_new_mask@, Err(e)))),
            },
    {
        proof {
            reveal_strlit("\n");
        }
        let cidr = match arg_parser::parse_cidr("CIDR", raw_cidr) {
            Ok(c) => c,
            Err(e) => {
                return Err(e);
            },
        };
        let new_mask = match arg_parser::parse_mask("MASK", raw_new_mask) {
            Ok(m) => m,
            Err(e) => {
                return Err(e);
            },
        };
        if !cidr.is_network_address() {
            let formatter = CIDRFormatter {
                cidr: CIDR::new(cidr.ip(), new_mask),
                with_binary: self.with_binary,
            };
            let text = formatter.to_string();
            self.out.append(text.as_str());
            return Ok(());
        }
        let networks = cidr.split(new_mask);
        let ghost base = align_down(cidr.addr(), cidr.plen());
        let ghost m = new_mask.spec_len();
        let n = networks.len();
        let mut i: usize = 0;
        proof {
            assert(old(self).out@ + split_entries(base, m, 0, old(self).with_binary) =~= old(
                self,
            ).out@);
        }
        while i < n
            invariant
                i <= n == networks@.len(),
                self.with_binary == old(self).with_binary,
                forall|k: int|
                    0 <= k < n ==> (#[trigger] networks@[k]).spec_mask() == new_mask
                        && networks@[k].addr() == base + k * block_of(m) && networks@[k].wf(),
                m == new_mask.spec_len(),
                self.out@ == old(self).out@ + split_entries(base, m, i as int, self.with_binary),
            decreases n - i,
        {
            self.out.append("========");
            self.out.append("\n");
            let formatter = CIDRFormatter { cidr: networks[i], with_binary: self.with_binary };
            let text = formatter.to_string();
            self.out.append(text.as_str());
            proof {
                reveal_strlit("\n");
                assert(self.out@ =~= old(self).out@ + split_entries(
                    base,
                    m,
                    i + 1,
                    self.with_binary,
                ));
            }
            i = i + 1;
        }
        Ok(())
    }
}

} // verus!
