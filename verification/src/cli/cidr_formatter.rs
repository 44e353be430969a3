//! The multi-field report of one prefix, as the describe and split
//! commands print it.

use vstd::prelude::*;

verus! {

use vstd::string::StringExecFns;
use crate::net::cidr::CIDR;
use crate::net::cidr::cidr_text;
use crate::net::ipv4::spec_class;
use crate::net::ipv4::spec_is_private;
use crate::net::ipv4::spec_is_special;
use crate::net::ipv4::spec_special_name;
use crate::net::mask::Mask;
use crate::net::mask::align_down;
use crate::net::mask::hosts_of;
use crate::net::mask::mask_bits_of;
use crate::net::mask::wild_bits_of;
use crate::net::mask::lemma_align_down_bounds;
use crate::net::mask::lemma_block_bounds;
use crate::net::ipv4::lemma_ipv4_bounds;
use crate::text::dec_text;
use crate::text::dotted_bin_text;
use crate::text::dotted_dec_text;
use crate::text::padded;
use crate::text::push_dec_u32;
use crate::text::push_dotted_bin;
use crate::text::push_padded;

/// Renders the report of `cidr`, with binary columns unless switched off.
pub struct CIDRFormatter {
    pub cidr: CIDR,
    pub with_binary: bool,
}

/// The binary column of a line: the dotted binary of `v`, or nothing.
pub open spec fn opt_bin(v: int, wb: bool) -> Seq<char> {
    if wb {
        dotted_bin_text(v)
    } else {
        Seq::empty()
    }
}

/// The kind text of an address value, as the report prints it.
pub open spec fn kind_text(a: int) -> Seq<char> {
    if spec_is_private(a) {
        "Private Internet"@
    } else if spec_is_special(a) {
        "Special ("@ + spec_special_name(a) + ")"@
    } else {
        "Public Internet"@
    }
}

/// The Address line of the report.
pub open spec fn line_address(a: int, wb: bool) -> Seq<char> {
    "Address:   "@ + padded(dotted_dec_text(a), 15) + "      "@ + opt_bin(a, wb) + seq!['\n']
}

/// The Netmask line of the report.
pub open spec fn line_netmask(p: int, wb: bool) -> Seq<char> {
    "Netmask:   "@ + padded(dotted_dec_text(mask_bits_of(p)) + " = "@ + dec_text(p as nat), 20)
        + " "@ + opt_bin(mask_bits_of(p), wb) + seq!['\n']
}

/// The Wildcard line of the report.
pub open spec fn line_wildcard(p: int, wb: bool) -> Seq<char> {
    "Wildcard:  "@ + padded(dotted_dec_text(wild_bits_of(p)), 15) + "      "@ + opt_bin(
        wild_bits_of(p),
        wb,
    ) + seq!['\n']
}

/// The Network line of the report.
pub open spec fn line_network(a: int, p: int, wb: bool) -> Seq<char> {
    "Network:   "@ + padded(cidr_text(align_down(a, p), p), 18) + "   "@ + opt_bin(
        align_down(a, p),
        wb,
    ) + seq!['\n']
}

/// A host-range line: label, address or "n/a", optional binary column.
pub open spec fn host_line(label: Seq<char>, v: int, defined: bool, wb: bool) -> Seq<char> {
    if defined {
        label + padded(dotted_dec_text(v), 18) + "   "@ + opt_bin(v, wb) + seq!['\n']
    } else {
        label + padded("n/a"@, 18) + "   "@ + seq!['\n']
    }
}

/// The closing line: host count, class and kind.
pub open spec fn line_hosts(a: int, p: int) -> Seq<char> {
    "Hosts/Net: "@ + padded(dec_text(hosts_of(p) as nat), 10) + "           class "@ + spec_class(
        a,
    ).spec_text() + ", "@ + kind_text(a) + seq!['\n']
}

/// The whole report of a prefix with address `a` and length `p`.
pub open spec fn report_text(a: int, p: int, wb: bool) -> Seq<char> {
    let wild = wild_bits_of(p);
    let net = align_down(a, p);
    let usable = p < 31;
    line_address(a, wb) + line_netmask(p, wb) + line_wildcard(p, wb) + "=>"@ + seq!['\n']
        + line_network(a, p, wb) + host_line("HostMin:   "@, net + 1, usable, wb) + host_line(
        "HostMax:   "@,
        net + wild - 1,
        usable,
        wb,
    ) + host_line("Broadcast: "@, net + wild, usable, wb) + line_hosts(a, p)
}

/// Appends the Address line to `out`.
fn push_line_address(out: &mut String, ip: crate::net::ipv4::IPv4, wb: bool)
    ensures
        final(out)@ == old(out)@ + line_address(ip@, wb),
{
    proof {
        reveal_strlit("\n");
    }
    out.append("Address:   ");
    let ip_text = ip.to_string();
    push_padded(out, &ip_text, 15);
    out.append("      ");
    if wb {
        push_dotted_bin(out, ip.octets());
    }
    out.append("\n");
    proof {
        assert(final(out)@ =~= old(out)@ + line_address(ip@, wb));
    }
}

/// Appends the Netmask line to `out`.
fn push_line_netmask(out: &mut String, mask: Mask, wb: bool)
    requires
        mask.is_netmask(),
    ensures
        final(out)@ == old(out)@ + line_netmask(mask.spec_len(), wb),
{
    proof {
        reveal_strlit("\n");
        assert(mask.has_len(mask.spec_len()));
    }
    out.append("Netmask:   ");
    let mut mask_field = mask.to_string();
    mask_field.append(" = ");
    push_dec_u32(&mut mask_field, mask.prefix_length() as u32);
    push_padded(out, &mask_field, 20);
    out.append(" ");
    if wb {
        push_dotted_bin(out, mask.value());
    }
    out.append("\n");
    proof {
        assert(final(out)@ =~= old(out)@ + line_netmask(mask.spec_len(), wb));
    }
}

/// Appends the Wildcard line to `out`.
fn push_line_wildcard(out: &mut String, mask: Mask, wb: bool)
    requires
        mask.is_netmask(),
    ensures
        final(out)@ == old(out)@ + line_wildcard(mask.spec_len(), wb),
{
    proof {
        reveal_strlit("\n");
        assert(mask.has_len(mask.spec_len()));
    }
    let wildcard = mask.wildcard();
    out.append("Wildcard:  ");
    let wild_text = wildcard.to_string();
    push_padded(out, &wild_text, 15);
    out.append("      ");
    if wb {
        push_dotted_bin(out, wildcard.value());
    }
    out.append("\n");
    proof {
        assert(final(out)@ =~= old(out)@ + line_wildcard(mask.spec_len(), wb));
    }
}

/// Appends the Network line to `out`.
fn push_line_network(out: &mut String, cidr: &CIDR, wb: bool)
    requires
        cidr.wf(),
    ensures
        final(out)@ == old(out)@ + line_network(cidr.addr(), cidr.plen(), wb),
{
    proof {
        reveal_strlit("\n");
        lemma_ipv4_bounds(cidr.spec_ip());
        crate::net::cidr::lemma_network_idempotent(cidr.addr(), cidr.plen());
        assert(cidr.spec_mask().has_len(cidr.plen()));
        lemma_block_bounds(cidr.plen());
    }
    let network = cidr.network_address();
    out.append("Network:   ");
    let net_text = network.to_string();
    push_padded(out, &net_text, 18);
    out.append("   ");
    if wb {
        push_dotted_bin(out, network.ip().octets());
    }
    out.append("\n");
    proof {
        assert(final(out)@ =~= old(out)@ + line_network(cidr.addr(), cidr.plen(), wb));
    }
}

/// Appends the closing Hosts/class/kind line to `out`.
fn push_line_hosts(out: &mut String, cidr: &CIDR)
    requires
        cidr.wf(),
    ensures
        final(out)@ == old(out)@ + line_hosts(cidr.addr(), cidr.plen()),
{
    proof {
        reveal_strlit("\n");
        assert(cidr.spec_mask().has_len(cidr.plen()));
    }
    out.append("Hosts/Net: ");
    let mut hosts_text = String::new();
    push_dec_u32(&mut hosts_text, cidr.hosts());
    push_padded(out, &hosts_text, 10);
    out.append("           class ");
    let class_text = cidr.class().to_string();
    out.append(class_text.as_str());
    out.append(", ");
    match cidr.kind() {
        crate::net::ipkind::IPKind::Private => out.append("Private Internet"),
        crate::net::ipkind::IPKind::Public => out.append("Public Internet"),
        crate::net::ipkind::IPKind::Special(k) => {
            out.append("Special (");
            out.append(k);
            out.append(")");
        },
    }
    out.append("\n");
    proof {
        assert(final(out)@ =~= old(out)@ + line_hosts(cidr.addr(), cidr.plen()));
    }
}

/// Appends a host-range line for `addr` (or "n/a") to `out`.
fn push_host_line(
    out: &mut String,
    label: &str,
    addr: Option<crate::net::ipv4::IPv4>,
    ghost_v: Ghost<int>,
    wb: bool,
)
    requires
        match addr {
            Some(a) => a@ == ghost_v@,
            None => true,
        },
    ensures
        final(out)@ == old(out)@ + host_line(label@, ghost_v@, addr is Some, wb),
{
    proof {
        reveal_strlit("\n");
    }
    out.append(label);
    match addr {
        Some(a) => {
            let t = a.to_string();
            push_padded(out, &t, 18);
            out.append("   ");
            if wb {
                push_dotted_bin(out, a.octets());
            }
            out.append("\n");
            proof {
                assert(final(out)@ =~= old(out)@ + host_line(label@, ghost_v@, true, wb));
            }
        },
        None => {
            let mut t = String::new();
            t.append("n/a");
            push_padded(out, &t, 18);
            out.append("   ");
            out.append("\n");
            proof {
                assert(final(out)@ =~= old(out)@ + host_line(label@, ghost_v@, false, wb));
            }
        },
    }
}

impl CIDRFormatter {
    /// Renders the report into a fresh string.
    #[verifier::rlimit(60)]
    pub fn to_string(&self) -> (r: String)
        requires
            self.cidr.wf(),
        ensures
            r@ == report_text(self.cidr.addr(), self.cidr.plen(), self.with_binary),
    {
        let ghost a = self.cidr.addr();
        let ghost p = self.cidr.plen();
        let ghost net = align_down(a, p);
        let ghost wild = wild_bits_of(p);
        proof {
            reveal_strlit("\n");
            assert(self.cidr.spec_mask().has_len(self.cidr.plen()));
            lemma_ipv4_bounds(self.cidr.spec_ip());
            lemma_align_down_bounds(a, p);
            lemma_block_bounds(p);
        }
        let cidr = &self.cidr;
        let wb = self.with_binary;
        let mut out = String::new();
        push_line_address(&mut out, cidr.ip(), wb);
        push_line_netmask(&mut out, cidr.mask(), wb);
        push_line_wildcard(&mut out, cidr.mask(), wb);
        out.append("=>");
        out.append("\n");
        push_line_network(&mut out, cidr, wb);
        let first = cidr.first_address();
        push_host_line(&mut out, "HostMin:   ", first, Ghost(net + 1), wb);
        let last = cidr.last_address();
        push_host_line(&mut out, "HostMax:   ", last, Ghost(net + wild - 1), wb);
        let bcast = cidr.broadcast_address();
        push_host_line(&mut out, "Broadcast: ", bcast, Ghost(net + wild), wb);
        push_line_hosts(&mut out, cidr);
        proof {
            assert(first is Some == (p < 31));
            assert(last is Some == (p < 31));
            assert(bcast is Some == (p < 31));
            assert(out@ =~= report_text(a, p, wb));
        }
        out
    }
}

} // verus!
