//! Prefix masks: a contiguous run of 1-bits from the most significant bit,
//! and the address arithmetic a mask induces (network, host range,
//! broadcast, host count).
//!
//! A `Mask` value holds raw 32-bit mask bits. Values built by [`Mask::new`]
//! satisfy the netmask invariant (`is_netmask`); [`Mask::wildcard`] returns
//! the complement bits in the same type, as the host mask.

use vstd::prelude::*;

verus! {

use vstd::arithmetic::power2::pow2;
use vstd::arithmetic::power2::lemma_pow2_strictly_increases;
use vstd::arithmetic::power2::lemma2_to64;
use vstd::bits::low_bits_mask;
use vstd::bits::lemma_u32_shl_is_mul;
use vstd::bits::lemma_u32_pow2_no_overflow;
use vstd::bits::lemma_u32_low_bits_mask_is_mod;
use crate::net::ipv4::IPv4;
use crate::text::dotted_bin_text;
use crate::text::dotted_dec_text;
use crate::text::dotted_dec_string;
use crate::text::dotted_bin_string;
use crate::text::uint_text_value;
use crate::text::dec_text;
use crate::text::push_dec_u32;
use crate::text::str_chars;
use crate::text::parse_uint_u8;
use crate::text::is_uint_text;

#[derive(Debug, PartialEq, Eq, Structural, Clone, Copy)]
pub enum MaskParsingError {
    InvalidRange,
    InvalidFormat,
}

/// The size of the address block a prefix of length `p` spans, including
/// network and broadcast addresses: 2^(32 - p).
pub open spec fn block_of(p: int) -> int {
    pow2((32 - p) as nat) as int
}

/// The mask bits of a prefix of length `p`: the top `p` bits set.
pub open spec fn mask_bits_of(p: int) -> int {
    0x1_0000_0000 - block_of(p)
}

/// The wildcard (host mask) bits of a prefix of length `p`.
pub open spec fn wild_bits_of(p: int) -> int {
    block_of(p) - 1
}

/// `a` rounded down to the start of its block at prefix length `p`.
pub open spec fn align_down(a: int, p: int) -> int {
    a - a % block_of(p)
}

/// The usable host count of a prefix of length `p`: the block size less
/// network and broadcast, except that a single host route counts itself.
pub open spec fn hosts_of(p: int) -> int {
    if p == 32 {
        1
    } else {
        block_of(p) - 2
    }
}

/// A 32-bit prefix mask value.
#[derive(Debug, PartialEq, Eq, Structural, Clone, Copy, PartialOrd)]
pub struct Mask(u32);

impl Mask {
    /// The raw 32-bit bits of the mask.
    pub closed spec fn bits(self) -> int {
        self.0 as int
    }

    /// Whether the mask is exactly the prefix mask of length `p`.
    pub open spec fn has_len(self, p: int) -> bool {
        0 <= p <= 32 && self.bits() == mask_bits_of(p)
    }

    /// Whether the bits form a contiguous prefix mask.
    pub open spec fn is_netmask(self) -> bool {
        exists|p: int| self.has_len(p)
    }

    /// The prefix length of a contiguous mask.
    pub open spec fn spec_len(self) -> int {
        choose|p: int| self.has_len(p)
    }
}

/// Masks with the same bits are the same mask.
pub proof fn lemma_mask_eq(a: Mask, b: Mask)
    requires
        a.bits() == b.bits(),
    ensures
        a == b,
{
}

/// Mask bits fit in 32 bits.
pub proof fn lemma_mask_bounds(m: Mask)
    ensures
        0 <= m.bits() <= 0xFFFFFFFF,
{
}

/// A mask has at most one prefix length; in particular a mask built from
/// prefix length `p` (so that `has_len(p)` holds) reports `p` back from
/// `prefix_length`: construction and length read-back round-trip.
pub proof fn lemma_len_unique(m: Mask, p: int)
    requires
        m.has_len(p),
    ensures
        m.is_netmask(),
        m.spec_len() == p,
{
    assert(m.is_netmask());
    let q = m.spec_len();
    assert(m.has_len(q));
    if q != p {
        if q < p {
            lemma_pow2_strictly_increases((32 - p) as nat, (32 - q) as nat);
        } else {
            lemma_pow2_strictly_increases((32 - q) as nat, (32 - p) as nat);
        }
    }
}

/// Block sizes are positive and bounded by the address space.
pub proof fn lemma_block_bounds(p: int)
    requires
        0 <= p <= 32,
    ensures
        1 <= block_of(p) <= 0x1_0000_0000,
        p < 32 ==> block_of(p) >= 2,
        0 <= mask_bits_of(p) <= 0xFFFFFFFF,
{
    lemma2_to64();
    if p > 0 {
        lemma_pow2_strictly_increases((32 - p) as nat, 32);
    }
    if p < 32 {
        lemma_pow2_strictly_increases(0, (32 - p) as nat);
    }
}

/// The shifted form of the mask bits: for `h < 32`, shifting all-ones left
/// by `h` clears exactly the low `h` bits.
pub proof fn lemma_mask_shift_form(h: u32)
    requires
        h < 32,
    ensures
        (0xFFFFFFFFu32 << h) as int == 0x1_0000_0000 - pow2(h as nat),
{
    lemma_u32_pow2_no_overflow(h as nat);
    lemma_u32_shl_is_mul(1u32, h);
    let e = (1u32 << h);
    assert(vstd::prelude::add((0xFFFFFFFFu32 << h) as u64, e as u64) == 0x1_0000_0000u64)
        by (bit_vector)
        requires
            h < 32,
            e == (1u32 << h),
    ;
    assert((0xFFFFFFFFu32 << h) as int + e as int == 0x1_0000_0000);
}

/// Bit `j` of a prefix mask of host width `h`: clear below `h`, set above.
pub proof fn lemma_netmask_bit(m: u32, h: u32, j: u32)
    requires
        h <= 32,
        m as int == 0x1_0000_0000 - pow2(h as nat),
        j < 32,
    ensures
        (m >> j) & 1 == (if j < h {
            0u32
        } else {
            1u32
        }),
{
    lemma2_to64();
    if h == 32 {
        assert(m == 0);
        assert((0u32 >> j) & 1 == 0) by (bit_vector);
    } else {
        lemma_mask_shift_form(h);
        assert(m == (0xFFFFFFFFu32 << h));
        assert(j < h ==> ((0xFFFFFFFFu32 << h) >> j) & 1 == 0) by (bit_vector)
            requires
                h < 32,
                j < 32,
        ;
        assert(j >= h ==> ((0xFFFFFFFFu32 << h) >> j) & 1 == 1) by (bit_vector)
            requires
                h < 32,
                j < 32,
        ;
    }
}

/// Masking with a prefix mask rounds an address down to its block start.
pub proof fn lemma_and_netmask(x: u32, m: u32, h: u32)
    requires
        h <= 32,
        m as int == 0x1_0000_0000 - pow2(h as nat),
    ensures
        (x & m) as int == x as int - x as int % pow2(h as nat) as int,
{
    lemma2_to64();
    if h == 32 {
        assert(m == 0);
        assert(x & 0 == 0) by (bit_vector);
        assert(x as int % 0x1_0000_0000 == x as int);
    } else {
        lemma_u32_pow2_no_overflow(h as nat);
        let w = low_bits_mask(h as nat) as u32;
        lemma_u32_low_bits_mask_is_mod(x, h as nat);
        assert(x & w == x % (pow2(h as nat) as u32));
        assert(m as int == 0xFFFFFFFF - w);
        assert(vstd::prelude::add((x & m) as u64, (x & w) as u64) == x as u64) by (bit_vector)
            requires
                m as u64 == vstd::prelude::sub(0xFFFFFFFFu64, w as u64),
                w < 0xFFFFFFFFu64,
                m <= 0xFFFFFFFFu64,
                x <= 0xFFFFFFFFu64,
        ;
        assert((x & m) as int + (x & w) as int == x as int);
        assert((x % (pow2(h as nat) as u32)) as int == x as int % pow2(h as nat) as int);
    }
}

/// An aligned value stays within the address space block grid.
pub proof fn lemma_align_down_bounds(a: int, p: int)
    requires
        0 <= p <= 32,
        0 <= a < 0x1_0000_0000,
    ensures
        0 <= align_down(a, p) <= a,
        align_down(a, p) + wild_bits_of(p) <= 0xFFFFFFFF,
        align_down(a, p) % block_of(p) == 0,
{
    lemma_block_bounds(p);
    let b = block_of(p);
    broadcast use vstd::arithmetic::div_mod::group_mod_properties;

    assert(0 <= a % b < b);
    assert(a % b <= a) by {
        vstd::arithmetic::div_mod::lemma_mod_decreases(a as nat, b as nat);
    }
    let n = align_down(a, p);
    assert(n % b == 0) by {
        vstd::arithmetic::div_mod::lemma_sub_mod_noop(a, a % b, b);
        vstd::arithmetic::div_mod::lemma_small_mod(0, b as nat);
    }
    // n is a multiple of b below 2^32, and b divides 2^32, so n + b <= 2^32.
    let c = pow2(p as nat) as int;
    assert(b * c == 0x1_0000_0000) by {
        vstd::arithmetic::power2::lemma_pow2_adds((32 - p) as nat, p as nat);
        lemma2_to64();
    }
    let k = n / b;
    assert(n == k * b) by {
        vstd::arithmetic::div_mod::lemma_fundamental_div_mod(n, b);
    }
    assert(k < c) by {
        if k >= c {
            vstd::arithmetic::mul::lemma_mul_inequality(c, k, b);
            vstd::arithmetic::mul::lemma_mul_is_commutative(c, b);
            vstd::arithmetic::mul::lemma_mul_is_commutative(k, b);
        }
    }
    assert(n + b <= 0x1_0000_0000) by {
        vstd::arithmetic::mul::lemma_mul_inequality(k, c - 1, b);
        vstd::arithmetic::mul::lemma_mul_is_distributive_sub_other_way(b, c, 1);
    }
}

impl Mask {
    /// Builds the mask of a prefix length, rejecting lengths over 32.
    pub fn new(value: u8) -> (r: Result<Self, MaskParsingError>)
        ensures
            match r {
                Ok(m) => value <= 32 && m.has_len(value as int),
                Err(e) => value > 32 && e == MaskParsingError::InvalidRange,
            },
    {
        if value > 32 {
            return Err(MaskParsingError::InvalidRange);
        }
        let mut mask: u32 = 0;
        if value > 0 {
            let h = (32 - value) as u32;
            mask = 0xFFFFFFFFu32 << h;
            proof {
                lemma_mask_shift_form(h);
            }
        } else {
            proof {
                lemma2_to64();
            }
        }
        Ok(Mask(mask))
    }

    /// The prefix length: 32 less the number of trailing zero bits.
    pub fn prefix_length(&self) -> (r: u8)
        ensures
            r <= 32,
            self.is_netmask() ==> r as int == self.spec_len(),
    {
        let ghost h: int = if self.is_netmask() {
            32 - self.spec_len()
        } else {
            0
        };
        proof {
            if self.is_netmask() {
                assert(self.has_len(self.spec_len()));
            }
        }
        let m = self.0;
        let mut i: u8 = 0;
        while i < 32 && (m >> (i as u32)) & 1 == 0
            invariant
                i <= 32,
                m == self.0,
                self.is_netmask() ==> self.has_len(32 - h) && 0 <= h <= 32,
                self.is_netmask() ==> i as int <= h,
            decreases 32 - i,
        {
            proof {
                if self.is_netmask() {
                    lemma_netmask_bit(m, h as u32, i as u32);
                }
            }
            i = i + 1;
        }
        proof {
            if self.is_netmask() {
                if (i as int) < h {
                    lemma_netmask_bit(m, h as u32, i as u32);
                    assert(false);
                }
                assert(i as int == h);
            }
        }
        32 - i
    }

    /// The prefix length of the mask, under the shorter name.
    pub fn len(&self) -> (r: u8)
        ensures
            r <= 32,
            self.is_netmask() ==> r as int == self.spec_len(),
    {
        self.prefix_length()
    }

    /// The wildcard (host) mask: the bitwise complement.
    pub fn wildcard(&self) -> (r: Mask)
        ensures
            r.bits() == 0xFFFFFFFF - self.bits(),
            self.is_netmask() ==> r.bits() == wild_bits_of(self.spec_len()),
    {
        let m0 = self.0;
        let w = !m0;
        proof {
            assert(vstd::prelude::add((!m0) as u64, m0 as u64) == 0xFFFFFFFFu64) by (bit_vector);
            assert(w as int == 0xFFFFFFFF - m0 as int);
            if self.is_netmask() {
                assert(self.has_len(self.spec_len()));
            }
        }
        Mask(w)
    }

    /// Parses a bare decimal prefix length: text that is not an unsigned
    /// integer literal is a format error; a value over 32 is a range
    /// error, however large.
    pub fn parse(s: &str) -> (r: Result<Self, MaskParsingError>)
        ensures
            match r {
                Ok(m) => m.is_netmask() && 0 <= m.spec_len() <= 32 && uint_text_value(s@)
                    == Some(m.spec_len()),
                Err(MaskParsingError::InvalidRange) => match uint_text_value(s@) {
                    Some(w) => w > 32,
                    None => false,
                },
                Err(MaskParsingError::InvalidFormat) => uint_text_value(s@) is None,
            },
    {
        let cs = str_chars(s);
        let n = cs.len();
        proof {
            assert(cs@.subrange(0, n as int) =~= s@);
        }
        if !is_uint_text(&cs, 0, n) {
            return Err(MaskParsingError::InvalidFormat);
        }
        match parse_uint_u8(&cs, 0, n) {
            Some(v) => {
                if v <= 32 {
                    match Mask::new(v) {
                        Ok(m) => {
                            proof {
                                lemma_len_unique(m, v as int);
                            }
                            Ok(m)
                        },
                        Err(_) => {
                            // unreachable: new accepts every length up to 32
                            Err(MaskParsingError::InvalidFormat)
                        },
                    }
                } else {
                    Err(MaskParsingError::InvalidRange)
                }
            },
            None => {
                // the text is a valid integer literal, so a refused
                // accumulation means its value is over 255, hence over 32
                Err(MaskParsingError::InvalidRange)
            },
        }
    }

    /// The network address of `ip` under this mask.
    pub fn network_address(&self, ip: &IPv4) -> (r: IPv4)
        requires
            self.is_netmask(),
        ensures
            r@ == align_down(ip@, self.spec_len()),
    {
        proof {
            assert(self.has_len(self.spec_len()));
        }
        let o = ip.octets();
        let n = o & self.0;
        proof {
            lemma_and_netmask(o, self.0, (32 - self.spec_len()) as u32);
        }
        IPv4::new_from_raw_bytes(n)
    }

    /// The first usable host address of `ip`'s block, absent for /31 and
    /// /32 prefixes.
    pub fn first_address(&self, ip: &IPv4) -> (r: Option<IPv4>)
        requires
            self.is_netmask(),
        ensures
            match r {
                Some(a) => self.spec_len() < 31 && a@ == align_down(ip@, self.spec_len()) + 1,
                None => self.spec_len() >= 31,
            },
    {
        if self.prefix_length() >= 31 {
            return None;
        }
        let o = ip.octets();
        proof {
            assert(self.has_len(self.spec_len()));
            lemma_and_netmask(o, self.0, (32 - self.spec_len()) as u32);
            lemma_align_down_bounds(ip@, self.spec_len());
            lemma_block_bounds(self.spec_len());
        }
        let address = (o & self.0) + 1;
        Some(IPv4::new_from_raw_bytes(address))
    }

    /// The last usable host address of `ip`'s block, absent for /31 and
    /// /32 prefixes.
    pub fn last_address(&self, ip: &IPv4) -> (r: Option<IPv4>)
        requires
            self.is_netmask(),
        ensures
            match r {
                Some(a) => self.spec_len() < 31 && a@ == align_down(ip@, self.spec_len())
                    + wild_bits_of(self.spec_len()) - 1,
                None => self.spec_len() >= 31,
            },
    {
        if self.prefix_length() >= 31 {
            return None;
        }
        let o = ip.octets();
        proof {
            assert(self.has_len(self.spec_len()));
            lemma_and_netmask(o, self.0, (32 - self.spec_len()) as u32);
            lemma_align_down_bounds(ip@, self.spec_len());
            lemma_block_bounds(self.spec_len());
            lemma_pow2_strictly_increases(1, (32 - self.spec_len()) as nat);
            lemma2_to64();
        }
        let address = (o & self.0) + (self.wildcard().0 - 1);
        Some(IPv4::new_from_raw_bytes(address))
    }

    /// The broadcast address of `ip`'s block, absent for /31 and /32
    /// prefixes.
    pub fn broadcast_address(&self, ip: &IPv4) -> (r: Option<IPv4>)
        requires
            self.is_netmask(),
        ensures
            match r {
                Some(a) => self.spec_len() < 31 && a@ == align_down(ip@, self.spec_len())
                    + wild_bits_of(self.spec_len()),
                None => self.spec_len() >= 31,
            },
    {
        if self.prefix_length() >= 31 {
            return None;
        }
        let o = ip.octets();
        proof {
            assert(self.has_len(self.spec_len()));
            lemma_and_netmask(o, self.0, (32 - self.spec_len()) as u32);
            lemma_align_down_bounds(ip@, self.spec_len());
            lemma_block_bounds(self.spec_len());
        }
        let address = (o & self.0) + self.wildcard().0;
        Some(IPv4::new_from_raw_bytes(address))
    }

    /// The usable host count of a block under this mask.
    pub fn hosts(&self) -> (r: u32)
        requires
            self.is_netmask(),
        ensures
            r == hosts_of(self.spec_len()),
    {
        proof {
            assert(self.has_len(self.spec_len()));
            lemma_block_bounds(self.spec_len());
        }
        if self.prefix_length() == 32 {
            return 1;
        }
        self.wildcard().0 - 1
    }

    /// The raw 32-bit value of the mask bits.
    pub fn value(&self) -> (r: u32)
        ensures
            r as int == self.bits(),
    {
        self.0
    }

    /// The dotted-decimal text of the mask bits.
    pub fn to_string(&self) -> (r: String)
        ensures
            r@ == dotted_dec_text(self.bits()),
    {
        dotted_dec_string(self.0)
    }

    /// The dotted binary text of the mask bits.
    pub fn to_binary_string(&self) -> (r: String)
        ensures
            r@ == dotted_bin_text(self.bits()),
    {
        dotted_bin_string(self.0)
    }

    /// The "/length" notation of the mask, as diagnostics print it.
    pub fn to_prefix_string(&self) -> (r: String)
        requires
            self.is_netmask(),
        ensures
            r@ == seq!['/'] + dec_text(self.spec_len() as nat),
    {
        proof {
            reveal_strlit("/");
            assert(self.has_len(self.spec_len()));
        }
        let mut out = String::new();
        out.append("/");
        push_dec_u32(&mut out, self.prefix_length() as u32);
        proof {
            assert(out@ =~= seq!['/'] + dec_text(self.spec_len() as nat));
        }
        out
    }
}

/// Taking the wildcard twice gives the original mask back: with `w` the
/// wildcard of `m` and `ww` the wildcard of `w`, as `Mask::wildcard`
/// ensures them, `ww` is `m` itself.
pub proof fn lemma_wildcard_involution(m: Mask, w: Mask, ww: Mask)
    requires
        w.bits() == 0xFFFFFFFF - m.bits(),
        ww.bits() == 0xFFFFFFFF - w.bits(),
    ensures
        ww == m,
{
    lemma_mask_bounds(m);
    lemma_mask_eq(ww, m);
}

} // verus!
