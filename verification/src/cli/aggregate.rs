//! The aggregate command core: one prefix reinterpreted across a range
//! of prefix lengths, one line per length.

use vstd::prelude::*;

verus! {

use vstd::string::StringExecFns;
use crate::cli::arg_parser;
use crate::cli::arg_parser::cidr_arg_outcome;
use crate::cli::arg_parser::mask_arg_outcome;
use crate::cli::errors::ErrorKind;
use crate::net::cidr::CIDR;
use crate::net::cidr::cidr_text;
use crate::net::cidr::parse_outcome;
use crate::net::mask::Mask;
use crate::net::mask::align_down;
use crate::net::mask::lemma_len_unique;

/// The aggregate command: renders one line per prefix length.
pub struct CLI {
    pub out: String,
}

/// The line printed for the prefix reinterpreted at length `l`.
pub open spec fn aggregate_line(a: int, p: int, l: int) -> Seq<char> {
    cidr_text(
        if l < p {
            align_down(a, l)
        } else {
            a
        },
        l,
    ) + seq!['\n']
}

/// The lines for every length from `lo` to `hi` inclusive, ascending.
pub open spec fn aggregate_lines(a: int, p: int, lo: int, hi: int) -> Seq<char>
    decreases hi + 1 - lo,
{
    if lo > hi {
        Seq::empty()
    } else {
        aggregate_line(a, p, lo) + aggregate_lines(a, p, lo + 1, hi)
    }
}

/// The whole output: lengths from the smaller to the larger of the
/// prefix's own length and the requested one.
pub open spec fn aggregate_output(a: int, p: int, l: int) -> Seq<char> {
    let lo = if l < p {
        l
    } else {
        p
    };
    let hi = if l < p {
        p
    } else {
        l
    };
    aggregate_lines(a, p, lo, hi)
}

/// Lines over a range split at the far end.
proof fn lemma_lines_snoc(a: int, p: int, lo: int, hi: int)
    requires
        lo <= hi + 1,
    ensures
        aggregate_lines(a, p, lo, hi + 1) == aggregate_lines(a, p, lo, hi) + aggregate_line(
            a,
            p,
            hi + 1,
        ),
    decreases hi + 1 - lo,
{
    if lo == hi + 1 {
        assert(aggregate_lines(a, p, lo, hi) == Seq::<char>::empty());
        assert(aggregate_lines(a, p, lo, hi + 1) == aggregate_line(a, p, lo) + aggregate_lines(
            a,
            p,
            lo + 1,
            hi + 1,
        ));
        assert(aggregate_lines(a, p, lo + 1, hi + 1) == Seq::<char>::empty());
        assert(aggregate_lines(a, p, lo, hi + 1) =~= Seq::<char>::empty() + aggregate_line(
            a,
            p,
            lo,
        ));
    } else {
        lemma_lines_snoc(a, p, lo + 1, hi);
        assert(aggregate_lines(a, p, lo, hi + 1) =~= aggregate_lines(a, p, lo, hi)
            + aggregate_line(a, p, hi + 1));
    }
}

impl CLI {
    /// An aggregate command writing after `out`.
    pub fn new(out: String) -> (r: Self)
        ensures
            r.out@ == out@,
    {
        CLI { out }
    }

    /// Parses the arguments and appends one line per length to `out`.
    pub fn execute(&mut self, raw_cidr: String, raw_mask: String) -> (r: Result<(), ErrorKind>)
        ensures
            match r {
                Ok(_) => raw_cidr@.len() > 0 && raw_mask@.len() > 0 && exists|c: CIDR, m: Mask|
                    #[trigger] parse_outcome(raw_cidr@, Ok(c)) && #[trigger] mask_arg_outcome(
                        "MASK"@,
                        raw_mask@,
                        Ok(m),
                    ) && final(self).out@ == old(self).out@ + aggregate_output(
                        c.addr(),
                        c.plen(),
                        m.spec_len(),
                    ),
                Err(e) => final(self).out@ == old(self).out@ && (cidr_arg_outcome(
                    "CIDR"@,
                    raw_cidr@,
                    Err(e),
                ) || (raw_cidr@.len() > 0 && (exists|c: CIDR| #[trigger] parse_outcome(
                    raw_cidr@,
                    Ok(c),
                )) && mask_arg_outcome("MASK"@, raw_mask@, Err(e)))),
            },
    {
        proof {
            reveal_strlit("\n");
        }
        let cidr = match arg_parser::parse_cidr("CIDR", raw_cidr) {
            Ok(c) => c,
            Err(e) => {
                return Err(e);
            },
        };
        let mask = match arg_parser::parse_mask("MASK", raw_mask) {
            Ok(m) => m,
            Err(e) => {
                return Err(e);
            },
        };
        let cl = cidr.mask().prefix_length();
        let ml = mask.prefix_length();
        let start = if ml < cl {
            ml
        } else {
            cl
        };
        let stop = if ml < cl {
            cl
        } else {
            ml
        };
        let ghost a = cidr.addr();
        let ghost p = cidr.plen();
        let mut l = start;
        proof {
            assert(aggregate_lines(a, p, start as int, start as int - 1) == Seq::<char>::empty());
            assert(old(self).out@ + Seq::<char>::empty() =~= old(self).out@);
        }
        while l <= stop
            invariant
                start <= l <= stop + 1,
                stop <= 32,
                cidr.wf(),
                a == cidr.addr(),
                p == cidr.plen(),
                self.out@ == old(self).out@ + aggregate_lines(a, p, start as int, l as int - 1),
            decreases stop + 1 - l,
        {
            let step_mask = match Mask::new(l) {
                Ok(m) => m,
                Err(_) => {
                    proof {
                        assert(false);
                    }
                    return Ok(());
                },
            };
            proof {
                lemma_len_unique(step_mask, l as int);
            }
            let aggregated = cidr.aggregate(step_mask);
            let line = aggregated.to_string();
            self.out.append(line.as_str());
            self.out.append("\n");
            proof {
                reveal_strlit("\n");
                lemma_lines_snoc(a, p, start as int, l as int - 1);
                assert(self.out@ =~= old(self).out@ + aggregate_lines(
                    a,
                    p,
                    start as int,
                    l as int,
                ));
            }
            l = l + 1;
        }
        proof {
            assert(aggregate_lines(a, p, start as int, stop as int) == aggregate_output(
                a,
                p,
                mask.spec_len(),
            ));
        }
        Ok(())
    }
}

} // verus!
