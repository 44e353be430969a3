//! 32-bit IPv4 address values: construction, parsing, formatting and
//! classification.

use vstd::prelude::*;

verus! {

use crate::net::ipclass::IPClass;
use crate::net::ipkind::IPKind;
use crate::text::dotted_bin_text;
use crate::text::dotted_dec_text;
use crate::text::dotted_dec_string;
use crate::text::dotted_bin_string;
use crate::text::dec_text;
use crate::text::is_dec_digit;
use crate::text::lemma_dec_text_shape;
use crate::text::lemma_dec_val_of_dec_text;
use crate::text::str_chars;
use crate::text::find_char;
use crate::text::parse_octet;

#[derive(Debug, PartialEq, Eq, Structural, Clone, Copy)]
pub enum IPParsingError {
    InvalidFormat,
}

/// An IPv4 address, stored as its 32-bit value in big-endian octet order.
#[derive(Debug, PartialEq, Eq, Structural, Clone, Copy)]
pub struct IPv4(u32);

impl View for IPv4 {
    type V = int;

    closed spec fn view(&self) -> int {
        self.0 as int
    }
}

/// Addresses with the same 32-bit value are the same address.
pub proof fn lemma_ipv4_eq(a: IPv4, b: IPv4)
    requires
        a@ == b@,
    ensures
        a == b,
{
}

/// An address value fits in 32 bits.
pub proof fn lemma_ipv4_bounds(a: IPv4)
    ensures
        0 <= a@ <= 0xFFFFFFFF,
{
}

impl IPv4 {
    /// Builds an address from its four octets.
    pub fn new(a: u8, b: u8, c: u8, d: u8) -> (r: Self)
        ensures
            r@ == a * 0x1000000 + b * 0x10000 + c * 0x100 + d,
    {
        let mut addr = (a as u32) * 0x1000000;
        addr = addr + (b as u32) * 0x10000;
        addr = addr + (c as u32) * 0x100;
        addr = addr + (d as u32);
        IPv4(addr)
    }

    /// Builds an address directly from its 32-bit value.
    pub fn new_from_raw_bytes(addr: u32) -> (r: Self)
        ensures
            r@ == addr,
    {
        IPv4(addr)
    }

    /// The 32-bit value of the address.
    pub fn octets(&self) -> (r: u32)
        ensures
            r == self@,
    {
        self.0
    }

    /// The dotted-decimal text of the address.
    pub fn to_string(&self) -> (r: String)
        ensures
            r@ == dotted_dec_text(self@),
    {
        dotted_dec_string(self.0)
    }

    /// The dotted binary text of the address.
    pub fn to_binary_string(&self) -> (r: String)
        ensures
            r@ == dotted_bin_text(self@),
    {
        dotted_bin_string(self.0)
    }

    /// The classful class of the address, from its first octet.
    pub fn class(&self) -> (r: IPClass)
        ensures
            r == spec_class(self@),
    {
        let octets = crate::net::group_octets(self.octets());
        let first_octet = octets[0];
        if first_octet < 128 {
            return IPClass::A;
        }
        if first_octet < 192 {
            return IPClass::B;
        }
        if first_octet < 224 {
            return IPClass::C;
        }
        if first_octet < 240 {
            return IPClass::D;
        }
        IPClass::E
    }

    /// Whether the address is private, public or in a special-use range.
    pub fn kind(&self) -> (r: IPKind)
        ensures
            (r is Private) == spec_is_private(self@),
            (r is Public) == spec_is_public(self@),
            (r is Special) == spec_is_special(self@),
            r matches IPKind::Special(t) ==> t@ == spec_special_name(self@),
    {
        let octets = crate::net::group_octets(self.octets());
        let first_octet = octets[0];
        let second_octet = octets[1];
        let third_octet = octets[2];
        if first_octet == 10 {
            IPKind::Private
        } else if first_octet == 169 && second_octet == 254 {
            IPKind::Special("link-local")
        } else if first_octet == 172 && 16 <= second_octet && second_octet <= 31 {
            IPKind::Private
        } else if first_octet == 192 && second_octet == 168 {
            IPKind::Private
        } else if first_octet == 192 && second_octet == 0 && third_octet == 2 {
            IPKind::Special("documentation")
        } else if first_octet == 198 && second_octet == 51 && third_octet == 100 {
            IPKind::Special("documentation")
        } else if first_octet == 203 && second_octet == 0 && third_octet == 113 {
            IPKind::Special("documentation")
        } else if first_octet == 127 {
            IPKind::Special("localhost")
        } else {
            IPKind::Public
        }
    }

    /// Parses dotted-quad text; accepts exactly the canonical dotted-decimal
    /// form of some address.
    pub fn parse(s: &str) -> (r: Result<IPv4, IPParsingError>)
        ensures
            match r {
                Ok(ip) => s@ == dotted_dec_text(ip@),
                Err(e) => e == IPParsingError::InvalidFormat && forall|v: u32|
                    s@ != dotted_dec_text(v as int),
            },
    {
        let cs = str_chars(s);
        match parse_dotted_chars(&cs) {
            Some(ip) => Ok(ip),
            None => Err(IPParsingError::InvalidFormat),
        }
    }
}

/// The classful class of an address value.
pub open spec fn spec_class(a: int) -> IPClass {
    let fo = a / 0x1000000;
    if fo < 128 {
        IPClass::A
    } else if fo < 192 {
        IPClass::B
    } else if fo < 224 {
        IPClass::C
    } else if fo < 240 {
        IPClass::D
    } else {
        IPClass::E
    }
}

/// Whether an address value lies in one of the private ranges
/// (10/8, 172.16/12, 192.168/16).
pub open spec fn spec_is_private(a: int) -> bool {
    let o0 = a / 0x1000000;
    let o1 = (a / 0x10000) % 0x100;
    o0 == 10 || (o0 == 172 && 16 <= o1 <= 31) || (o0 == 192 && o1 == 168)
}

/// Whether an address value lies in one of the special-use ranges
/// (link-local, localhost, documentation).
pub open spec fn spec_is_special(a: int) -> bool {
    let o0 = a / 0x1000000;
    let o1 = (a / 0x10000) % 0x100;
    let o2 = (a / 0x100) % 0x100;
    (o0 == 169 && o1 == 254) || o0 == 127 || (o0 == 192 && o1 == 0 && o2 == 2) || (o0 == 198 && o1
        == 51 && o2 == 100) || (o0 == 203 && o1 == 0 && o2 == 113)
}

/// Neither private nor special.
pub open spec fn spec_is_public(a: int) -> bool {
    !spec_is_private(a) && !spec_is_special(a)
}

/// The label of the special range an address value lies in.
pub open spec fn spec_special_name(a: int) -> Seq<char> {
    let o0 = a / 0x1000000;
    let o1 = (a / 0x10000) % 0x100;
    if o0 == 169 && o1 == 254 {
        "link-local"@
    } else if o0 == 127 {
        "localhost"@
    } else {
        "documentation"@
    }
}

/// How a composed address value decomposes back into its octets.
proof fn lemma_octet_compose(o0: int, o1: int, o2: int, o3: int)
    requires
        0 <= o0 <= 255,
        0 <= o1 <= 255,
        0 <= o2 <= 255,
        0 <= o3 <= 255,
    ensures
        ({
            let v = o0 * 0x1000000 + o1 * 0x10000 + o2 * 0x100 + o3;
            v / 0x1000000 == o0 && (v / 0x10000) % 0x100 == o1 && (v / 0x100) % 0x100 == o2 && v
                % 0x100 == o3 && 0 <= v <= 0xFFFFFFFF
        }),
{
    let v = o0 * 0x1000000 + o1 * 0x10000 + o2 * 0x100 + o3;
    assert(v / 0x1000000 == o0 && (v / 0x10000) % 0x100 == o1 && (v / 0x100) % 0x100 == o2 && v
        % 0x100 == o3) by (nonlinear_arith)
        requires
            0 <= o0 <= 255 && 0 <= o1 <= 255 && 0 <= o2 <= 255 && 0 <= o3 <= 255 && v == o0
                * 0x1000000 + o1 * 0x10000 + o2 * 0x100 + o3,
    ;
}

/// Where the dots of a dotted-quad text stand: the structure of
/// `dotted_dec_text` as four digit runs with '.' between them.
proof fn lemma_dotted_structure(v: int)
    requires
        0 <= v <= 0xFFFFFFFF,
    ensures
        ({
            let a0 = dec_text((v / 0x1000000) as nat);
            let a1 = dec_text(((v / 0x10000) % 0x100) as nat);
            let a2 = dec_text(((v / 0x100) % 0x100) as nat);
            let a3 = dec_text((v % 0x100) as nat);
            let s = dotted_dec_text(v);
            let l0 = a0.len() as int;
            let l1 = a1.len() as int;
            let l2 = a2.len() as int;
            let l3 = a3.len() as int;
            &&& s.len() == l0 + l1 + l2 + l3 + 3
            &&& s.subrange(0, l0) == a0
            &&& s[l0] == '.'
            &&& s.subrange(l0 + 1, l0 + 1 + l1) == a1
            &&& s[l0 + 1 + l1] == '.'
            &&& s.subrange(l0 + 2 + l1, l0 + 2 + l1 + l2) == a2
            &&& s[l0 + 2 + l1 + l2] == '.'
            &&& s.subrange(l0 + 3 + l1 + l2, s.len() as int) == a3
            &&& (forall|j: int| 0 <= j < s.len() && s[j] == '.' ==> j == l0 || j == l0 + 1 + l1
                || j == l0 + 2 + l1 + l2)
        }),
{
    let a0 = dec_text((v / 0x1000000) as nat);
    let a1 = dec_text(((v / 0x10000) % 0x100) as nat);
    let a2 = dec_text(((v / 0x100) % 0x100) as nat);
    let a3 = dec_text((v % 0x100) as nat);
    let s = dotted_dec_text(v);
    let l0 = a0.len() as int;
    let l1 = a1.len() as int;
    let l2 = a2.len() as int;
    let l3 = a3.len() as int;
    lemma_dec_text_shape((v / 0x1000000) as nat);
    lemma_dec_text_shape(((v / 0x10000) % 0x100) as nat);
    lemma_dec_text_shape(((v / 0x100) % 0x100) as nat);
    lemma_dec_text_shape((v % 0x100) as nat);
    assert(s.subrange(0, l0) =~= a0);
    assert(s.subrange(l0 + 1, l0 + 1 + l1) =~= a1);
    assert(s.subrange(l0 + 2 + l1, l0 + 2 + l1 + l2) =~= a2);
    assert(s.subrange(l0 + 3 + l1 + l2, s.len() as int) =~= a3);
    assert forall|j: int| 0 <= j < s.len() && s[j] == '.' implies j == l0 || j == l0 + 1 + l1 || j
        == l0 + 2 + l1 + l2 by {
        if j < l0 {
            assert(s[j] == a0[j]);
            assert(is_dec_digit(a0[j]));
        } else if l0 + 1 <= j < l0 + 1 + l1 {
            assert(s[j] == a1[j - l0 - 1]);
            assert(is_dec_digit(a1[j - l0 - 1]));
        } else if l0 + 2 + l1 <= j < l0 + 2 + l1 + l2 {
            assert(s[j] == a2[j - l0 - 2 - l1]);
            assert(is_dec_digit(a2[j - l0 - 2 - l1]));
        } else if l0 + 3 + l1 + l2 <= j < s.len() {
            assert(s[j] == a3[j - l0 - 3 - l1 - l2]);
            assert(is_dec_digit(a3[j - l0 - 3 - l1 - l2]));
        }
    }
}

/// No character of dotted-quad text is a '/': its characters are decimal
/// digits and dots.
pub proof fn lemma_dotted_no_slash(v: int)
    requires
        0 <= v <= 0xFFFFFFFF,
    ensures
        forall|j: int|
            0 <= j < dotted_dec_text(v).len() ==> #[trigger] dotted_dec_text(v)[j] != '/',
{
    lemma_dotted_structure(v);
    let a0 = dec_text((v / 0x1000000) as nat);
    let a1 = dec_text(((v / 0x10000) % 0x100) as nat);
    let a2 = dec_text(((v / 0x100) % 0x100) as nat);
    let a3 = dec_text((v % 0x100) as nat);
    let s = dotted_dec_text(v);
    let l0 = a0.len() as int;
    let l1 = a1.len() as int;
    let l2 = a2.len() as int;
    lemma_dec_text_shape((v / 0x1000000) as nat);
    lemma_dec_text_shape(((v / 0x10000) % 0x100) as nat);
    lemma_dec_text_shape(((v / 0x100) % 0x100) as nat);
    lemma_dec_text_shape((v % 0x100) as nat);
    assert forall|j: int| 0 <= j < s.len() implies #[trigger] s[j] != '/' by {
        if j < l0 {
            assert(s[j] == a0[j]);
            assert(is_dec_digit(a0[j]));
        } else if j == l0 || j == l0 + 1 + l1 || j == l0 + 2 + l1 + l2 {
            assert(s[j] == '.');
        } else if l0 + 1 <= j < l0 + 1 + l1 {
            assert(s[j] == a1[j - l0 - 1]);
            assert(is_dec_digit(a1[j - l0 - 1]));
        } else if l0 + 2 + l1 <= j < l0 + 2 + l1 + l2 {
            assert(s[j] == a2[j - l0 - 2 - l1]);
            assert(is_dec_digit(a2[j - l0 - 2 - l1]));
        } else {
            assert(s[j] == a3[j - l0 - 3 - l1 - l2]);
            assert(is_dec_digit(a3[j - l0 - 3 - l1 - l2]));
        }
    }
}

/// Dotted-quad text determines the address value: the text of two
/// different values differs.
pub proof fn lemma_dotted_inj(v1: int, v2: int)
    requires
        0 <= v1 <= 0xFFFFFFFF,
        0 <= v2 <= 0xFFFFFFFF,
        dotted_dec_text(v1) == dotted_dec_text(v2),
    ensures
        v1 == v2,
{
    lemma_dotted_structure(v1);
    lemma_dotted_structure(v2);
    let s = dotted_dec_text(v1);
    let b0 = dec_text((v1 / 0x1000000) as nat);
    let c0 = dec_text((v2 / 0x1000000) as nat);
    lemma_dec_text_shape((v1 / 0x1000000) as nat);
    lemma_dec_text_shape((v2 / 0x1000000) as nat);
    // the first dot stands at the end of the first segment in both readings
    assert(b0.len() == c0.len()) by {
        if b0.len() < c0.len() {
            assert(s[b0.len() as int] == '.');
            assert(s[b0.len() as int] == c0[b0.len() as int]);
            assert(is_dec_digit(c0[b0.len() as int]));
        } else if c0.len() < b0.len() {
            assert(s[c0.len() as int] == '.');
            assert(s[c0.len() as int] == b0[c0.len() as int]);
            assert(is_dec_digit(b0[c0.len() as int]));
        }
    }
    let l0 = b0.len() as int;
    assert(b0 =~= c0);
    assert(v1 / 0x1000000 == v2 / 0x1000000) by {
        lemma_dec_val_of_dec_text((v1 / 0x1000000) as nat);
        lemma_dec_val_of_dec_text((v2 / 0x1000000) as nat);
    }
    let b1 = dec_text(((v1 / 0x10000) % 0x100) as nat);
    let c1 = dec_text(((v2 / 0x10000) % 0x100) as nat);
    lemma_dec_text_shape(((v1 / 0x10000) % 0x100) as nat);
    lemma_dec_text_shape(((v2 / 0x10000) % 0x100) as nat);
    assert(b1.len() == c1.len()) by {
        if b1.len() < c1.len() {
            assert(s[l0 + 1 + b1.len()] == '.');
            assert(s[l0 + 1 + b1.len()] == c1[b1.len() as int]);
            assert(is_dec_digit(c1[b1.len() as int]));
        } else if c1.len() < b1.len() {
            assert(s[l0 + 1 + c1.len()] == '.');
            assert(s[l0 + 1 + c1.len()] == b1[c1.len() as int]);
            assert(is_dec_digit(b1[c1.len() as int]));
        }
    }
    let l1 = b1.len() as int;
    assert(b1 =~= c1);
    assert((v1 / 0x10000) % 0x100 == (v2 / 0x10000) % 0x100) by {
        lemma_dec_val_of_dec_text(((v1 / 0x10000) % 0x100) as nat);
        lemma_dec_val_of_dec_text(((v2 / 0x10000) % 0x100) as nat);
    }
    let b2 = dec_text(((v1 / 0x100) % 0x100) as nat);
    let c2 = dec_text(((v2 / 0x100) % 0x100) as nat);
    lemma_dec_text_shape(((v1 / 0x100) % 0x100) as nat);
    lemma_dec_text_shape(((v2 / 0x100) % 0x100) as nat);
    assert(b2.len() == c2.len()) by {
        if b2.len() < c2.len() {
            assert(s[l0 + 2 + l1 + b2.len()] == '.');
            assert(s[l0 + 2 + l1 + b2.len()] == c2[b2.len() as int]);
            assert(is_dec_digit(c2[b2.len() as int]));
        } else if c2.len() < b2.len() {
            assert(s[l0 + 2 + l1 + c2.len()] == '.');
            assert(s[l0 + 2 + l1 + c2.len()] == b2[c2.len() as int]);
            assert(is_dec_digit(b2[c2.len() as int]));
        }
    }
    assert(b2 =~= c2);
    assert((v1 / 0x100) % 0x100 == (v2 / 0x100) % 0x100) by {
        lemma_dec_val_of_dec_text(((v1 / 0x100) % 0x100) as nat);
        lemma_dec_val_of_dec_text(((v2 / 0x100) % 0x100) as nat);
    }
    let b3 = dec_text((v1 % 0x100) as nat);
    let c3 = dec_text((v2 % 0x100) as nat);
    assert(b3.len() == c3.len());
    assert(b3 =~= c3);
    assert(v1 % 0x100 == v2 % 0x100) by {
        lemma_dec_val_of_dec_text((v1 % 0x100) as nat);
        lemma_dec_val_of_dec_text((v2 % 0x100) as nat);
    }
    // the four octets determine the value
    assert(v1 == v2) by {
        lemma_decompose(v1);
        lemma_decompose(v2);
    }
}

/// A 32-bit value is the composition of its four octets.
pub proof fn lemma_decompose(v: int)
    requires
        0 <= v <= 0xFFFFFFFF,
    ensures
        v == (v / 0x1000000) * 0x1000000 + ((v / 0x10000) % 0x100) * 0x10000 + ((v / 0x100)
            % 0x100) * 0x100 + v % 0x100,
{
    assert(v == (v / 0x1000000) * 0x1000000 + ((v / 0x10000) % 0x100) * 0x10000 + ((v / 0x100)
        % 0x100) * 0x100 + v % 0x100) by (nonlinear_arith)
        requires
            0 <= v <= 0xFFFFFFFF,
    ;
}

/// Parses a character sequence as canonical dotted-quad text.
#[verifier::rlimit(60)]
pub(crate) fn parse_dotted_chars(cs: &Vec<char>) -> (r: Option<IPv4>)
    ensures
        match r {
            Some(ip) => cs@ == dotted_dec_text(ip@),
            None => forall|v: u32| cs@ != dotted_dec_text(v as int),
        },
{
    let n = cs.len();
    let d1 = match find_char(cs, 0, '.') {
        Some(i) => i,
        None => {
            proof {
                assert forall|v: u32| cs@ != dotted_dec_text(v as int) by {
                    lemma_dotted_structure(v as int);
                }
            }
            return None;
        },
    };
    let o0 = match parse_octet(cs, 0, d1) {
        Some(o) => o,
        None => {
            proof {
                assert forall|v: u32| cs@ != dotted_dec_text(v as int) by {
                    lemma_dotted_structure(v as int);
                    if cs@ == dotted_dec_text(v as int) {
                        let a0 = dec_text(((v as int) / 0x1000000) as nat);
                        lemma_dec_text_shape(((v as int) / 0x1000000) as nat);
                        assert(d1 == a0.len());
                        assert(cs@.subrange(0, d1 as int) == a0);
                    }
                }
            }
            return None;
        },
    };
    let d2 = match find_char(cs, d1 + 1, '.') {
        Some(i) => i,
        None => {
            proof {
                assert forall|v: u32| cs@ != dotted_dec_text(v as int) by {
                    lemma_dotted_structure(v as int);
                    if cs@ == dotted_dec_text(v as int) {
                        let a0 = dec_text(((v as int) / 0x1000000) as nat);
                        lemma_dec_text_shape(((v as int) / 0x1000000) as nat);
                        assert(d1 == a0.len());
                    }
                }
            }
            return None;
        },
    };
    let o1 = match parse_octet(cs, d1 + 1, d2) {
        Some(o) => o,
        None => {
            proof {
                assert forall|v: u32| cs@ != dotted_dec_text(v as int) by {
                    lemma_dotted_structure(v as int);
                    if cs@ == dotted_dec_text(v as int) {
                        let a0 = dec_text(((v as int) / 0x1000000) as nat);
                        let a1 = dec_text((((v as int) / 0x10000) % 0x100) as nat);
                        lemma_dec_text_shape(((v as int) / 0x1000000) as nat);
                        lemma_dec_text_shape((((v as int) / 0x10000) % 0x100) as nat);
                        assert(d1 == a0.len());
                        assert(d2 == a0.len() + 1 + a1.len());
                        assert(cs@.subrange(d1 + 1, d2 as int) == a1);
                    }
                }
            }
            return None;
        },
    };
    let d3 = match find_char(cs, d2 + 1, '.') {
        Some(i) => i,
        None => {
            proof {
                assert forall|v: u32| cs@ != dotted_dec_text(v as int) by {
                    lemma_dotted_structure(v as int);
                    if cs@ == dotted_dec_text(v as int) {
                        let a0 = dec_text(((v as int) / 0x1000000) as nat);
                        let a1 = dec_text((((v as int) / 0x10000) % 0x100) as nat);
                        lemma_dec_text_shape(((v as int) / 0x1000000) as nat);
                        lemma_dec_text_shape((((v as int) / 0x10000) % 0x100) as nat);
                        assert(d1 == a0.len());
                        assert(d2 == a0.len() + 1 + a1.len());
                    }
                }
            }
            return None;
        },
    };
    let o2 = match parse_octet(cs, d2 + 1, d3) {
        Some(o) => o,
        None => {
            proof {
                assert forall|v: u32| cs@ != dotted_dec_text(v as int) by {
                    lemma_dotted_structure(v as int);
                    if cs@ == dotted_dec_text(v as int) {
                        let a0 = dec_text(((v as int) / 0x1000000) as nat);
                        let a1 = dec_text((((v as int) / 0x10000) % 0x100) as nat);
                        let a2 = dec_text((((v as int) / 0x100) % 0x100) as nat);
                        lemma_dec_text_shape(((v as int) / 0x1000000) as nat);
                        lemma_dec_text_shape((((v as int) / 0x10000) % 0x100) as nat);
                        lemma_dec_text_shape((((v as int) / 0x100) % 0x100) as nat);
                        assert(d1 == a0.len());
                        assert(d2 == a0.len() + 1 + a1.len());
                        assert(d3 == a0.len() + 2 + a1.len() + a2.len());
                        assert(cs@.subrange(d2 + 1, d3 as int) == a2);
                    }
                }
            }
            return None;
        },
    };
    match find_char(cs, d3 + 1, '.') {
        Some(_) => {
            proof {
                assert forall|v: u32| cs@ != dotted_dec_text(v as int) by {
                    lemma_dotted_structure(v as int);
                    if cs@ == dotted_dec_text(v as int) {
                        let a0 = dec_text(((v as int) / 0x1000000) as nat);
                        let a1 = dec_text((((v as int) / 0x10000) % 0x100) as nat);
                        let a2 = dec_text((((v as int) / 0x100) % 0x100) as nat);
                        lemma_dec_text_shape(((v as int) / 0x1000000) as nat);
                        lemma_dec_text_shape((((v as int) / 0x10000) % 0x100) as nat);
                        lemma_dec_text_shape((((v as int) / 0x100) % 0x100) as nat);
                        assert(d1 == a0.len());
                        assert(d2 == a0.len() + 1 + a1.len());
                        assert(d3 == a0.len() + 2 + a1.len() + a2.len());
                    }
                }
            }
            return None;
        },
        None => {},
    }
    let o3 = match parse_octet(cs, d3 + 1, n) {
        Some(o) => o,
        None => {
            proof {
                assert forall|v: u32| cs@ != dotted_dec_text(v as int) by {
                    lemma_dotted_structure(v as int);
                    if cs@ == dotted_dec_text(v as int) {
                        let a0 = dec_text(((v as int) / 0x1000000) as nat);
                        let a1 = dec_text((((v as int) / 0x10000) % 0x100) as nat);
                        let a2 = dec_text((((v as int) / 0x100) % 0x100) as nat);
                        let a3 = dec_text(((v as int) % 0x100) as nat);
                        lemma_dec_text_shape(((v as int) / 0x1000000) as nat);
                        lemma_dec_text_shape((((v as int) / 0x10000) % 0x100) as nat);
                        lemma_dec_text_shape((((v as int) / 0x100) % 0x100) as nat);
                        lemma_dec_text_shape(((v as int) % 0x100) as nat);
                        assert(d1 == a0.len());
                        assert(d2 == a0.len() + 1 + a1.len());
                        assert(d3 == a0.len() + 2 + a1.len() + a2.len());
                        assert(cs@.subrange(d3 + 1, n as int) == a3);
                    }
                }
            }
            return None;
        },
    };
    let ip = IPv4::new(o0, o1, o2, o3);
    proof {
        lemma_octet_compose(o0 as int, o1 as int, o2 as int, o3 as int);
        assert(cs@ =~= dotted_dec_text(ip@));
    }
    Some(ip)
}

} // verus!
