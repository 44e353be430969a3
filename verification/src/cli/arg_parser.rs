//! Argument parsing shared by the command cores: raw text in, a value or
//! a user-facing message out.

use vstd::prelude::*;

verus! {

use vstd::string::StringExecFns;
use crate::cli::errors::ErrorKind;
use crate::net::cidr::CIDR;
use crate::net::cidr::CIDRParsingError;
use crate::net::cidr::parse_outcome;
use crate::net::mask::Mask;
use crate::net::mask::MaskParsingError;
use crate::text::uint_text_value;

/// The message that rejects an empty argument named `name`.
pub open spec fn empty_arg_msg(name: Seq<char>) -> Seq<char> {
    "expecting non empty "@ + name + " argument"@
}

/// What `parse_cidr` returns for argument text `raw` under name `name`.
pub open spec fn cidr_arg_outcome(
    name: Seq<char>,
    raw: Seq<char>,
    r: Result<CIDR, ErrorKind>,
) -> bool {
    match r {
        Ok(c) => raw.len() > 0 && parse_outcome(raw, Ok(c)),
        Err(ErrorKind::InvalidInput(m)) => (raw.len() == 0 && m@ == empty_arg_msg(name)) || (
        raw.len() > 0 && parse_outcome(raw, Err(CIDRParsingError::InvalidMaskLength)) && m@
            == "masklength must be between 0 and 32"@) || (raw.len() > 0 && parse_outcome(
            raw,
            Err(CIDRParsingError::InvalidHostFormat),
        ) && m@ == "invalid IPv4 CIDR format"@),
    }
}

/// What `parse_mask` returns for argument text `raw` under name `name`.
pub open spec fn mask_arg_outcome(
    name: Seq<char>,
    raw: Seq<char>,
    r: Result<Mask, ErrorKind>,
) -> bool {
    match r {
        Ok(m) => raw.len() > 0 && m.is_netmask() && 0 <= m.spec_len() <= 32 && uint_text_value(raw)
            == Some(m.spec_len()),
        Err(ErrorKind::InvalidInput(msg)) => (raw.len() == 0 && msg@ == empty_arg_msg(name)) || (
        raw.len() > 0 && (match uint_text_value(raw) {
            Some(w) => w > 32,
            None => false,
        }) && msg@ == "mask length must be between 0 and 32"@) || (raw.len() > 0
            && uint_text_value(raw) is None && msg@ == "invalid mask format"@),
    }
}

/// Builds the empty-argument message for `name`.
fn empty_arg_message(name: &str) -> (r: String)
    ensures
        r@ == empty_arg_msg(name@),
{
    let mut m = String::new();
    m.append("expecting non empty ");
    m.append(name);
    m.append(" argument");
    proof {
        assert(m@ =~= empty_arg_msg(name@));
    }
    m
}

/// Parses a CIDR argument, mapping each failure to its message.
pub fn parse_cidr(name: &str, raw: String) -> (r: Result<CIDR, ErrorKind>)
    ensures
        cidr_arg_outcome(name@, raw@, r),
        r matches Ok(c) ==> c.wf(),
{
    if raw.as_str().is_empty() {
        return Err(ErrorKind::InvalidInput(empty_arg_message(name)));
    }
    match CIDR::parse(raw.as_str()) {
        Ok(cidr) => Ok(cidr),
        Err(CIDRParsingError::InvalidMaskLength) => {
            let mut m = String::new();
            m.append("masklength must be between 0 and 32");
            Err(ErrorKind::InvalidInput(m))
        },
        Err(CIDRParsingError::InvalidHostFormat) => {
            let mut m = String::new();
            m.append("invalid IPv4 CIDR format");
            Err(ErrorKind::InvalidInput(m))
        },
    }
}

/// Parses a prefix-length argument, mapping each failure to its message.
pub fn parse_mask(name: &str, raw: String) -> (r: Result<Mask, ErrorKind>)
    ensures
        mask_arg_outcome(name@, raw@, r),
        r matches Ok(m) ==> m.is_netmask(),
{
    if raw.as_str().is_empty() {
        return Err(ErrorKind::InvalidInput(empty_arg_message(name)));
    }
    match Mask::parse(raw.as_str()) {
        Ok(mask) => Ok(mask),
        Err(MaskParsingError::InvalidRange) => {
            let mut m = String::new();
            m.append("mask length must be between 0 and 32");
            Err(ErrorKind::InvalidInput(m))
        },
        Err(MaskParsingError::InvalidFormat) => {
            let mut m = String::new();
            m.append("invalid mask format");
            Err(ErrorKind::InvalidInput(m))
        },
    }
}

} // verus!
