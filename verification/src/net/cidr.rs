//! CIDR prefixes: an address paired with a prefix mask, and the derived
//! network-boundary, split, aggregate and comparison operations.

use vstd::prelude::*;

verus! {

use vstd::arithmetic::power2::pow2;
use vstd::arithmetic::power2::lemma_pow2_adds;
use vstd::arithmetic::power2::lemma_pow2_pos;
use vstd::arithmetic::power2::lemma2_to64;
use vstd::bits::lemma_u64_shl_is_mul;
use crate::net::ipclass::IPClass;
use crate::net::ipkind::IPKind;
use crate::net::ipv4::IPv4;
use crate::net::ipv4::lemma_ipv4_eq;
use crate::net::ipv4::lemma_ipv4_bounds;
use crate::net::ipv4::lemma_dotted_no_slash;
use crate::net::ipv4::lemma_dotted_inj;
use crate::net::ipv4::parse_dotted_chars;
use crate::text::dec_text;
use crate::text::dotted_dec_text;
use crate::text::find_char;
use crate::text::is_dec_digit;
use crate::text::lemma_dec_text_shape;
use crate::text::lemma_dec_val_of_dec_text;
use crate::text::push_dec_u32;
use crate::text::push_dotted_dec;
use crate::text::str_chars;
use crate::text::subvec;
use crate::text::parse_uint_u8;
use crate::text::uint_text_value;
use vstd::string::StringExecFns;
use crate::net::ipv4::spec_class;
use crate::net::ipv4::spec_is_private;
use crate::net::ipv4::spec_is_public;
use crate::net::ipv4::spec_is_special;
use crate::net::ipv4::spec_special_name;
use crate::net::mask::Mask;
use crate::net::mask::MaskParsingError;
use crate::net::mask::align_down;
use crate::net::mask::block_of;
use crate::net::mask::hosts_of;
use crate::net::mask::wild_bits_of;
use crate::net::mask::lemma_align_down_bounds;
use crate::net::mask::lemma_block_bounds;
use crate::net::mask::lemma_len_unique;
use crate::net::mask::lemma_mask_eq;

#[derive(Debug, PartialEq, Eq, Structural, Clone, Copy)]
pub enum CIDRComparison {
    Subset,
    Superset,
    Equals,
    Different,
}

#[derive(Debug, PartialEq, Eq, Structural, Clone, Copy)]
pub enum CIDRParsingError {
    InvalidMaskLength,
    InvalidHostFormat,
}

/// A CIDR prefix: an address (not necessarily the network address of its
/// block) together with a prefix mask.
#[derive(Debug, PartialEq, Eq, Structural, Clone, Copy)]
pub struct CIDR {
    ip: IPv4,
    mask: Mask,
}

/// Whether address `x` lies in the block of `a` at prefix length `p`,
/// network and broadcast addresses included. Well-defined for every
/// prefix length, /31 and /32 among them.
pub open spec fn spec_contains(a: int, p: int, x: int) -> bool {
    align_down(a, p) <= x <= align_down(a, p) + wild_bits_of(p)
}

/// The relationship of block (`a`, `pa`) to block (`b`, `pb`).
pub open spec fn spec_compare(a: int, pa: int, b: int, pb: int) -> CIDRComparison {
    if pa == pb && align_down(a, pa) == align_down(b, pb) {
        CIDRComparison::Equals
    } else if pa < pb && spec_contains(a, pa, b) {
        CIDRComparison::Superset
    } else if pb < pa && spec_contains(b, pb, a) {
        CIDRComparison::Subset
    } else {
        CIDRComparison::Different
    }
}

impl CIDR {
    /// The address component.
    pub closed spec fn spec_ip(self) -> IPv4 {
        self.ip
    }

    /// The mask component.
    pub closed spec fn spec_mask(self) -> Mask {
        self.mask
    }

    /// The 32-bit value of the address component.
    pub open spec fn addr(self) -> int {
        self.spec_ip()@
    }

    /// Well-formedness: the mask is a contiguous prefix mask.
    pub open spec fn wf(self) -> bool {
        self.spec_mask().is_netmask()
    }

    /// The prefix length of the mask component.
    pub open spec fn plen(self) -> int {
        self.spec_mask().spec_len()
    }
}

/// Prefixes are equal exactly when both components are: a host prefix and
/// its network prefix are distinct values.
pub proof fn lemma_cidr_eq(a: CIDR, b: CIDR)
    ensures
        (a == b) <==> (a.spec_ip() == b.spec_ip() && a.spec_mask() == b.spec_mask()),
{
}

impl CIDR {
    /// Pairs an address with a mask.
    pub fn new(ip: IPv4, mask: Mask) -> (r: Self)
        requires
            mask.is_netmask(),
        ensures
            r.spec_ip() == ip,
            r.spec_mask() == mask,
            r.wf(),
    {
        CIDR { ip, mask }
    }

    /// The address component, as a fresh value.
    pub fn ip(&self) -> (r: IPv4)
        ensures
            r == self.spec_ip(),
    {
        let r = IPv4::new_from_raw_bytes(self.ip.octets());
        proof {
            lemma_ipv4_eq(r, self.spec_ip());
        }
        r
    }

    /// The mask component.
    pub fn mask(&self) -> (r: Mask)
        ensures
            r == self.spec_mask(),
    {
        self.mask
    }

    /// The wildcard of the mask component.
    pub fn wildcard_mask(&self) -> (r: Mask)
        ensures
            r.bits() == 0xFFFFFFFF - self.spec_mask().bits(),
            self.wf() ==> r.bits() == wild_bits_of(self.plen()),
    {
        self.mask.wildcard()
    }

    /// The same block, with the address normalised to its network address.
    pub fn network_address(&self) -> (r: CIDR)
        requires
            self.wf(),
        ensures
            r.spec_mask() == self.spec_mask(),
            r.addr() == align_down(self.addr(), self.plen()),
            r.wf(),
    {
        CIDR { ip: self.mask.network_address(&self.ip), mask: self.mask }
    }

    /// Whether the address already is the network address of its block.
    pub fn is_network_address(&self) -> (r: bool)
        requires
            self.wf(),
        ensures
            r == (self.addr() == align_down(self.addr(), self.plen())),
    {
        let na = self.network_address();
        let r = na == *self;
        proof {
            if na.addr() == self.addr() {
                lemma_ipv4_eq(na.spec_ip(), self.spec_ip());
            }
        }
        r
    }

    /// The first usable host address, absent for /31 and /32 prefixes.
    pub fn first_address(&self) -> (r: Option<IPv4>)
        requires
            self.wf(),
        ensures
            match r {
                Some(a) => self.plen() < 31 && a@ == align_down(self.addr(), self.plen()) + 1,
                None => self.plen() >= 31,
            },
    {
        self.mask.first_address(&self.ip)
    }

    /// The last usable host address, absent for /31 and /32 prefixes.
    pub fn last_address(&self) -> (r: Option<IPv4>)
        requires
            self.wf(),
        ensures
            match r {
                Some(a) => self.plen() < 31 && a@ == align_down(self.addr(), self.plen())
                    + wild_bits_of(self.plen()) - 1,
                None => self.plen() >= 31,
            },
    {
        self.mask.last_address(&self.ip)
    }

    /// The broadcast address, absent for /31 and /32 prefixes.
    pub fn broadcast_address(&self) -> (r: Option<IPv4>)
        requires
            self.wf(),
        ensures
            match r {
                Some(a) => self.plen() < 31 && a@ == align_down(self.addr(), self.plen())
                    + wild_bits_of(self.plen()),
                None => self.plen() >= 31,
            },
    {
        self.mask.broadcast_address(&self.ip)
    }

    /// The usable host count of the block.
    pub fn hosts(&self) -> (r: u32)
        requires
            self.wf(),
        ensures
            r == hosts_of(self.plen()),
    {
        self.mask.hosts()
    }

    /// The classful class of the address component.
    pub fn class(&self) -> (r: IPClass)
        ensures
            r == spec_class(self.addr()),
    {
        self.ip.class()
    }

    /// The kind (private, public, special) of the address component.
    pub fn kind(&self) -> (r: IPKind)
        ensures
            (r is Private) == spec_is_private(self.addr()),
            (r is Public) == spec_is_public(self.addr()),
            (r is Special) == spec_is_special(self.addr()),
            r matches IPKind::Special(t) ==> t@ == spec_special_name(self.addr()),
    {
        self.ip.kind()
    }

    /// Whether this block contains the given address. Well-defined for
    /// every prefix length, the single- and two-address blocks included.
    fn contains(&self, other: &IPv4) -> (r: bool)
        requires
            self.wf(),
        ensures
            r == spec_contains(self.addr(), self.plen(), other@),
    {
        let start = self.mask.network_address(&self.ip).octets();
        let wild = self.mask.wildcard().value();
        proof {
            lemma_ipv4_bounds(self.spec_ip());
            lemma_align_down_bounds(self.addr(), self.plen());
            assert(self.spec_mask().has_len(self.plen()));
        }
        let end = start + wild;
        let o = other.octets();
        start <= o && o <= end
    }

    /// How this block relates to `other`: the same block, a strict
    /// superset or subset, or neither.
    pub fn compare(&self, other: &CIDR) -> (r: CIDRComparison)
        requires
            self.wf(),
            other.wf(),
        ensures
            r == spec_compare(self.addr(), self.plen(), other.addr(), other.plen()),
    {
        let network = self.network_address();
        let other_network = other.network_address();

        proof {
            assert(self.spec_mask().has_len(self.plen()));
            assert(other.spec_mask().has_len(other.plen()));
            lemma_ipv4_bounds(self.spec_ip());
            lemma_ipv4_bounds(other.spec_ip());
            lemma_network_idempotent(self.addr(), self.plen());
            lemma_network_idempotent(other.addr(), other.plen());
            if self.spec_mask() == other.spec_mask() {
                lemma_len_unique(self.spec_mask(), other.plen());
            }
            if self.plen() == other.plen() {
                lemma_mask_eq(self.spec_mask(), other.spec_mask());
            }
            if network.addr() == other_network.addr() {
                lemma_ipv4_eq(network.spec_ip(), other_network.spec_ip());
            }
        }
        if network == other_network {
            CIDRComparison::Equals
        } else if self.mask.prefix_length() < other.mask.prefix_length() && network.contains(
            &other.ip(),
        ) {
            CIDRComparison::Superset
        } else if other.mask.prefix_length() < self.mask.prefix_length() && other_network.contains(
            &self.ip(),
        ) {
            CIDRComparison::Subset
        } else {
            CIDRComparison::Different
        }
    }

    /// Reinterprets this prefix under `mask`: normalised to the network
    /// address when `mask` is coarser, the raw address kept otherwise.
    pub fn aggregate(&self, mask: Mask) -> (r: CIDR)
        requires
            self.wf(),
            mask.is_netmask(),
        ensures
            r.spec_mask() == mask,
            r.wf(),
            r.addr() == if mask.spec_len() < self.plen() {
                align_down(self.addr(), mask.spec_len())
            } else {
                self.addr()
            },
    {
        proof {
            assert(self.spec_mask().has_len(self.plen()));
            assert(mask.has_len(mask.spec_len()));
        }
        let cidr = CIDR::new(IPv4::new_from_raw_bytes(self.ip.octets()), mask);
        if mask.prefix_length() < self.mask.prefix_length() {
            cidr.network_address()
        } else {
            cidr
        }
    }

    /// Splits this prefix's block into the blocks of a finer mask, in
    /// ascending address order. A coarser or equal mask yields the single
    /// block of this prefix's network address reinterpreted under `mask`.
    ///
    /// The result holds one entry per sub-block: O(2^(new - old)) space.
    pub fn split(&self, mask: Mask) -> (r: Vec<CIDR>)
        requires
            self.wf(),
            mask.is_netmask(),
        ensures
            ({
                let base = align_down(self.addr(), self.plen());
                let m = mask.spec_len();
                &&& (m > self.plen() ==> r@.len() == pow2((m - self.plen()) as nat))
                &&& (m <= self.plen() ==> r@.len() == 1)
                &&& forall|i: int|
                    0 <= i < r@.len() ==> (#[trigger] r@[i]).spec_mask() == mask && r@[i].addr()
                        == base + i * block_of(m) && r@[i].wf()
            }),
    {
        proof {
            assert(self.spec_mask().has_len(self.plen()));
            assert(mask.has_len(mask.spec_len()));
            lemma_ipv4_bounds(self.spec_ip());
            lemma_align_down_bounds(self.addr(), self.plen());
        }
        let base = self.mask.network_address(&self.ip).octets();
        let n = self.mask.prefix_length();
        let m = mask.prefix_length();
        let mut networks: Vec<CIDR> = Vec::new();
        if m <= n {
            networks.push(CIDR::new(IPv4::new_from_raw_bytes(base), mask));
            proof {
                assert(networks@.len() == 1);
                assert(networks@[0].addr() == align_down(self.addr(), self.plen()) + 0 * block_of(
                    mask.spec_len(),
                ));
            }
            return networks;
        }
        let d = m - n;
        let count: u64 = 1u64 << (d as u64);
        let step: u64 = 1u64 << ((32 - m) as u64);
        proof {
            vstd::bits::lemma_u64_pow2_no_overflow(d as nat);
            vstd::bits::lemma_u64_pow2_no_overflow((32 - m) as nat);
            lemma_u64_shl_is_mul(1u64, d as u64);
            lemma_u64_shl_is_mul(1u64, (32 - m) as u64);
            lemma2_to64();
            assert(count == pow2(d as nat));
            assert(step == block_of(m as int));
            lemma_pow2_adds(d as nat, (32 - m) as nat);
            assert(pow2(d as nat) * pow2((32 - m) as nat) == block_of(n as int));
            lemma_pow2_pos(d as nat);
            lemma_pow2_pos((32 - m) as nat);
        }
        let mut i: u64 = 0;
        while i < count
            invariant
                i <= count,
                networks@.len() == i,
                self.wf(),
                mask.is_netmask(),
                mask.has_len(m as int),
                self.spec_mask().has_len(n as int),
                n as int == self.plen(),
                m as int == mask.spec_len(),
                n < m <= 32,
                count == pow2((m - n) as nat),
                step == block_of(m as int),
                count * step == block_of(n as int),
                base == align_down(self.addr(), self.plen()),
                base + block_of(n as int) <= 0x1_0000_0000,
                forall|k: int|
                    0 <= k < i ==> (#[trigger] networks@[k]).spec_mask() == mask
                        && networks@[k].addr() == base + k * block_of(m as int)
                        && networks@[k].wf(),
            decreases count - i,
        {
            proof {
                lemma_block_bounds(m as int);
                assert(i * step < count * step) by {
                    vstd::arithmetic::mul::lemma_mul_strict_inequality(
                        i as int,
                        count as int,
                        step as int,
                    );
                    vstd::arithmetic::mul::lemma_mul_is_commutative(i as int, step as int);
                    vstd::arithmetic::mul::lemma_mul_is_commutative(count as int, step as int);
                }
                vstd::arithmetic::mul::lemma_mul_nonnegative(i as int, step as int);
            }
            let raw = (base as u64) + i * step;
            networks.push(CIDR::new(IPv4::new_from_raw_bytes(raw as u32), mask));
            i = i + 1;
        }
        networks
    }
}

/// The position of the first '/' in `s`, or `s.len()` when there is none.
pub open spec fn first_slash(s: Seq<char>) -> int
    decreases s.len(),
{
    if s.len() == 0 {
        0
    } else if s[0] == '/' {
        0
    } else {
        1 + first_slash(s.subrange(1, s.len() as int))
    }
}

/// Whether `s` holds a '/' anywhere.
pub open spec fn has_slash(s: Seq<char>) -> bool {
    exists|i: int| 0 <= i < s.len() && s[i] == '/'
}

/// The text before the first '/', or all of `s` when there is none.
pub open spec fn cidr_head(s: Seq<char>) -> Seq<char> {
    s.subrange(0, first_slash(s))
}

/// The text after the first '/'.
pub open spec fn cidr_tail(s: Seq<char>) -> Seq<char> {
    s.subrange(first_slash(s) + 1, s.len() as int)
}

/// `first_slash` finds the first '/', or the length when there is none.
pub proof fn lemma_first_slash(s: Seq<char>)
    ensures
        0 <= first_slash(s) <= s.len(),
        first_slash(s) < s.len() ==> s[first_slash(s)] == '/',
        forall|j: int| 0 <= j < first_slash(s) ==> s[j] != '/',
    decreases s.len(),
{
    if s.len() == 0 {
    } else if s[0] == '/' {
    } else {
        let t = s.subrange(1, s.len() as int);
        lemma_first_slash(t);
        assert forall|j: int| 0 <= j < first_slash(s) implies s[j] != '/' by {
            if j >= 1 {
                assert(s[j] == t[j - 1]);
            }
        }
        if first_slash(s) < s.len() {
            assert(s[first_slash(s)] == t[first_slash(t)]);
        }
    }
}

/// The text of a prefix: dotted-quad address, '/', decimal prefix length.
pub open spec fn cidr_text(a: int, p: int) -> Seq<char> {
    dotted_dec_text(a) + seq!['/'] + dec_text(p as nat)
}

/// What `CIDR::parse` may return on input `s`: the accepted text forms
/// and the error each rejected form maps to.
pub open spec fn parse_outcome(s: Seq<char>, r: Result<CIDR, CIDRParsingError>) -> bool {
    match r {
        Ok(c) => c.wf() && (if first_slash(s) == s.len() {
            s == dotted_dec_text(c.addr()) && c.plen() == 32
        } else {
            &&& cidr_head(s) == dotted_dec_text(c.addr())
            &&& !has_slash(cidr_tail(s))
            &&& uint_text_value(cidr_tail(s)) == Some(c.plen())
            &&& 0 <= c.plen() <= 32
        }),
        Err(CIDRParsingError::InvalidHostFormat) => (first_slash(s) < s.len() && has_slash(
            cidr_tail(s),
        )) || (forall|v: u32| cidr_head(s) != dotted_dec_text(v as int)),
        Err(CIDRParsingError::InvalidMaskLength) => {
            &&& first_slash(s) < s.len()
            &&& !has_slash(cidr_tail(s))
            &&& exists|v: u32| cidr_head(s) == dotted_dec_text(v as int)
            &&& match uint_text_value(cidr_tail(s)) {
                Some(w) => w > 32,
                None => true,
            }
        },
    }
}

impl CIDR {
    /// Parses `<dotted-quad>` or `<dotted-quad>/<prefix-length>` text.
    /// More than one '/' or a bad address is `InvalidHostFormat`; a bad or
    /// out-of-range prefix length is `InvalidMaskLength`; a missing
    /// prefix length defaults to 32.
    pub fn parse(s: &str) -> (r: Result<CIDR, CIDRParsingError>)
        ensures
            parse_outcome(s@, r),
    {
        let cs = str_chars(s);
        let n = cs.len();
        proof {
            lemma_first_slash(s@);
        }
        let k = match find_char(&cs, 0, '/') {
            Some(i) => i,
            None => n,
        };
        proof {
            if k < n {
                if (k as int) < first_slash(s@) {
                    assert(s@[k as int] == '/');
                    assert(false);
                }
                if first_slash(s@) < k {
                    assert(s@[first_slash(s@)] == '/');
                    assert(false);
                }
            } else {
                if first_slash(s@) < s@.len() {
                    assert(s@[first_slash(s@)] == '/');
                    assert(false);
                }
            }
            assert(k as int == first_slash(s@));
        }
        if k < n {
            match find_char(&cs, k + 1, '/') {
                Some(i) => {
                    proof {
                        let t = cidr_tail(s@);
                        assert(t[i - k - 1] == s@[i as int]);
                        assert(has_slash(t));
                    }
                    return Err(CIDRParsingError::InvalidHostFormat);
                },
                None => {
                    proof {
                        let t = cidr_tail(s@);
                        assert forall|j: int| 0 <= j < t.len() implies t[j] != '/' by {
                            assert(t[j] == s@[k + 1 + j]);
                        }
                    }
                },
            }
        }
        let head = subvec(&cs, 0, k);
        let ip = match parse_dotted_chars(&head) {
            Some(ip) => ip,
            None => {
                proof {
                    assert(head@ == cidr_head(s@));
                }
                return Err(CIDRParsingError::InvalidHostFormat);
            },
        };
        if k == n {
            let mask = match Mask::new(32) {
                Ok(m) => m,
                Err(_) => {
                    proof {
                        assert(false);
                    }
                    return Err(CIDRParsingError::InvalidHostFormat);
                },
            };
            proof {
                lemma_len_unique(mask, 32);
                assert(cidr_head(s@) =~= s@);
            }
            Ok(CIDR::new(ip, mask))
        } else {
            match parse_uint_u8(&cs, k + 1, n) {
                Some(v) => {
                    if v <= 32 {
                        let mask = match Mask::new(v) {
                            Ok(m) => m,
                            Err(_) => {
                                proof {
                                    assert(false);
                                }
                                return Err(CIDRParsingError::InvalidHostFormat);
                            },
                        };
                        proof {
                            lemma_len_unique(mask, v as int);
                        }
                        Ok(CIDR::new(ip, mask))
                    } else {
                        proof {
                            lemma_ipv4_bounds(ip);
                            assert(cidr_head(s@) == dotted_dec_text(((ip@) as u32) as int));
                        }
                        Err(CIDRParsingError::InvalidMaskLength)
                    }
                },
                None => {
                    proof {
                        lemma_ipv4_bounds(ip);
                        assert(cidr_head(s@) == dotted_dec_text(((ip@) as u32) as int));
                    }
                    Err(CIDRParsingError::InvalidMaskLength)
                },
            }
        }
    }

    /// The text of the prefix: address, '/', prefix length.
    pub fn to_string(&self) -> (r: String)
        requires
            self.wf(),
        ensures
            r@ == cidr_text(self.addr(), self.plen()),
    {
        proof {
            reveal_strlit("/");
        }
        let mut out = String::new();
        push_dotted_dec(&mut out, self.ip.octets());
        out.append("/");
        push_dec_u32(&mut out, self.mask.prefix_length() as u32);
        proof {
            assert(self.spec_mask().has_len(self.plen()));
            assert(out@ =~= cidr_text(self.addr(), self.plen()));
        }
        out
    }
}

/// Printing a prefix and parsing the text back can only yield the same
/// prefix: re-parsing a prefix's own text is the identity.
pub proof fn lemma_parse_round_trip(c: CIDR, r: Result<CIDR, CIDRParsingError>)
    requires
        c.wf(),
        parse_outcome(cidr_text(c.addr(), c.plen()), r),
    ensures
        r == Ok::<CIDR, CIDRParsingError>(c),
{
    assert(c.spec_mask().has_len(c.plen()));
    lemma_ipv4_bounds(c.spec_ip());
    let a = c.addr();
    let p = c.plen();
    let s = cidr_text(a, p);
    let d = dotted_dec_text(a);
    let m = dec_text(p as nat);
    lemma_dotted_no_slash(a);
    lemma_dec_text_shape(p as nat);
    lemma_first_slash(s);
    // the one '/' of the text stands right after the address
    assert(first_slash(s) == d.len()) by {
        assert(s[d.len() as int] == '/');
        if first_slash(s) < d.len() {
            assert(s[first_slash(s)] == d[first_slash(s)]);
        }
        if first_slash(s) > d.len() {
            assert(s[d.len() as int] != '/');
        }
    }
    assert(cidr_head(s) =~= d);
    assert(cidr_tail(s) =~= m);
    assert(!has_slash(m)) by {
        assert forall|i: int| 0 <= i < m.len() implies m[i] != '/' by {
            assert(is_dec_digit(m[i]));
        }
    }
    assert(uint_text_value(m) == Some(p)) by {
        assert(is_dec_digit(m[0]));
        assert(m[0] != '+');
        lemma_dec_val_of_dec_text(p as nat);
    }
    match r {
        Ok(e) => {
            assert(dotted_dec_text(e.addr()) == dotted_dec_text(a));
            lemma_ipv4_bounds(e.spec_ip());
            lemma_dotted_inj(e.addr(), a);
            assert(e.spec_mask().has_len(e.plen()));
            lemma_mask_eq(e.spec_mask(), c.spec_mask());
            lemma_ipv4_eq(e.spec_ip(), c.spec_ip());
            assert(e == c);
        },
        Err(CIDRParsingError::InvalidHostFormat) => {
            assert(cidr_head(s) == dotted_dec_text((a as u32) as int));
            assert(false);
        },
        Err(CIDRParsingError::InvalidMaskLength) => {
            assert(false);
        },
    }
}

/// The network address of a block is its own network address: normalising
/// a prefix to its block start is idempotent.
pub proof fn lemma_network_idempotent(a: int, p: int)
    requires
        0 <= p <= 32,
        0 <= a < 0x1_0000_0000,
    ensures
        align_down(align_down(a, p), p) == align_down(a, p),
{
    lemma_align_down_bounds(a, p);
    let n = align_down(a, p);
    assert(n % block_of(p) == 0);
}

/// Comparison is symmetric under swapping roles: one block strictly
/// contains another exactly when the other is strictly contained; and a
/// block compared with itself is Equals.
pub proof fn lemma_compare_swap(a: int, pa: int, b: int, pb: int)
    ensures
        (spec_compare(a, pa, b, pb) == CIDRComparison::Superset) <==> (spec_compare(b, pb, a, pa)
            == CIDRComparison::Subset),
        spec_compare(a, pa, a, pa) == CIDRComparison::Equals,
{
}

/// Each sub-block of a split lies within the block that was split.
pub proof fn lemma_split_blocks_within(base: int, n: int, m: int, i: int)
    requires
        0 <= n <= m <= 32,
        0 <= i < pow2((m - n) as nat),
    ensures
        base + i * block_of(m) >= base,
        base + i * block_of(m) + wild_bits_of(m) <= base + block_of(n) - 1,
{
    lemma_block_bounds(m);
    lemma_block_bounds(n);
    vstd::arithmetic::mul::lemma_mul_nonnegative(i, block_of(m));
    lemma_pow2_adds((m - n) as nat, (32 - m) as nat);
    assert(pow2((m - n) as nat) * pow2((32 - m) as nat) == block_of(n));
    assert((i + 1) * block_of(m) <= pow2((m - n) as nat) * block_of(m)) by {
        vstd::arithmetic::mul::lemma_mul_inequality(i + 1, pow2((m - n) as nat) as int, block_of(m));
    }
    assert((i + 1) * block_of(m) == i * block_of(m) + block_of(m)) by {
        vstd::arithmetic::mul::lemma_mul_is_distributive_add_other_way(block_of(m), i, 1);
    }
}

/// Splitting is a partition: every address of the split block lies in
/// exactly one sub-block, the one at index `(x - base) / block`.
pub proof fn lemma_split_partition(base: int, n: int, m: int, x: int)
    requires
        0 <= n <= m <= 32,
        base <= x < base + block_of(n),
    ensures
        ({
            let i = (x - base) / block_of(m);
            &&& 0 <= i < pow2((m - n) as nat)
            &&& base + i * block_of(m) <= x <= base + i * block_of(m) + wild_bits_of(m)
            &&& forall|j: int|
                0 <= j < pow2((m - n) as nat) && j != i ==> !(base + #[trigger] (j * block_of(m))
                    <= x <= base + j * block_of(m) + wild_bits_of(m))
        }),
{
    lemma_block_bounds(m);
    lemma_block_bounds(n);
    let blk = block_of(m);
    let t = x - base;
    let i = t / blk;
    broadcast use vstd::arithmetic::div_mod::group_mod_properties;

    vstd::arithmetic::div_mod::lemma_fundamental_div_mod(t, blk);
    assert(t == blk * (t / blk) + t % blk);
    vstd::arithmetic::div_mod::lemma_div_pos_is_pos(t, blk);
    assert(i * blk <= t <= i * blk + blk - 1) by {
        vstd::arithmetic::mul::lemma_mul_is_commutative(i, blk);
    }
    lemma_pow2_adds((m - n) as nat, (32 - m) as nat);
    assert(pow2((m - n) as nat) * pow2((32 - m) as nat) == block_of(n));
    assert(i < pow2((m - n) as nat)) by {
        if i >= pow2((m - n) as nat) {
            vstd::arithmetic::mul::lemma_mul_inequality(pow2((m - n) as nat) as int, i, blk);
            vstd::arithmetic::mul::lemma_mul_is_commutative(i, blk);
        }
    }
    assert forall|j: int|
        0 <= j < pow2((m - n) as nat) && j != i implies !(base + #[trigger] (j * block_of(m)) <= x
        <= base + j * block_of(m) + wild_bits_of(m)) by {
        if base + j * blk <= x <= base + j * blk + wild_bits_of(m) {
            if j < i {
                vstd::arithmetic::mul::lemma_mul_inequality(j + 1, i, blk);
                vstd::arithmetic::mul::lemma_mul_is_distributive_add_other_way(blk, j, 1);
            } else {
                vstd::arithmetic::mul::lemma_mul_inequality(i + 1, j, blk);
                vstd::arithmetic::mul::lemma_mul_is_distributive_add_other_way(blk, i, 1);
            }
        }
    }
}

/// Aggregating a sub-block back at the coarser length recovers the block
/// that was split: aggregation is the left inverse of splitting.
pub proof fn lemma_aggregate_inverts_split(base: int, n: int, m: int, i: int)
    requires
        0 <= n <= m <= 32,
        0 <= base < 0x1_0000_0000,
        base % block_of(n) == 0,
        0 <= i < pow2((m - n) as nat),
    ensures
        align_down(base + i * block_of(m), n) == base,
{
    lemma_block_bounds(m);
    lemma_block_bounds(n);
    let blk = block_of(m);
    let t = i * blk;
    vstd::arithmetic::mul::lemma_mul_nonnegative(i, blk);
    lemma_pow2_adds((m - n) as nat, (32 - m) as nat);
    assert(pow2((m - n) as nat) * pow2((32 - m) as nat) == block_of(n));
    assert(t + blk <= block_of(n)) by {
        vstd::arithmetic::mul::lemma_mul_inequality(i + 1, pow2((m - n) as nat) as int, blk);
        vstd::arithmetic::mul::lemma_mul_is_distributive_add_other_way(blk, i, 1);
    }
    broadcast use vstd::arithmetic::div_mod::group_mod_properties;

    assert((base + t) % block_of(n) == t % block_of(n)) by {
        vstd::arithmetic::div_mod::lemma_mod_multiples_vanish(
            base / block_of(n),
            t,
            block_of(n),
        );
        vstd::arithmetic::div_mod::lemma_fundamental_div_mod(base, block_of(n));
    }
    vstd::arithmetic::div_mod::lemma_small_mod(t as nat, block_of(n) as nat);
}

} // verus!
