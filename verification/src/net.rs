//! The core network types: addresses, prefix masks and CIDR prefixes.

pub mod cidr;
pub mod ipclass;
pub mod ipkind;
pub mod ipv4;
pub mod mask;

pub use cidr::CIDRComparison;
pub use cidr::CIDRParsingError;
pub use cidr::CIDR;
pub use ipclass::IPClass;
pub use ipkind::IPKind;
pub use ipv4::IPParsingError;
pub use ipv4::IPv4;
pub use mask::Mask;
pub use mask::MaskParsingError;

use vstd::prelude::*;

verus! {

/// Splits a 32-bit value into its four big-endian octets.
pub fn group_octets(value: u32) -> (r: [u8; 4])
    ensures
        r[0] == value / 0x1000000,
        r[1] == (value / 0x10000) % 0x100,
        r[2] == (value / 0x100) % 0x100,
        r[3] == value % 0x100,
{
    proof {
        assert(((value >> 24) & 0xFF) == value / 0x1000000 && ((value >> 16) & 0xFF) == (value
            / 0x10000) % 0x100 && ((value >> 8) & 0xFF) == (value / 0x100) % 0x100 && (value
            & 0xFF) == value % 0x100) by (bit_vector);
    }
    let a = ((value >> 24) & 0xFF) as u8;
    let b = ((value >> 16) & 0xFF) as u8;
    let c = ((value >> 8) & 0xFF) as u8;
    let d = (value & 0xFF) as u8;
    [a, b, c, d]
}

} // verus!
