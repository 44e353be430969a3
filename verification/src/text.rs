//! Decimal and binary text forms of the numeric values the library works
//! with, together with the spec-level grammar of that text.
//!
//! `dec_text` is the canonical decimal form of a number (no leading zeros,
//! no sign); `dec_val` reads a digit string back. The executable functions
//! are proved to produce and to recognise exactly these forms.

use vstd::prelude::*;

verus! {

use vstd::arithmetic::power2::pow2;
use vstd::string::{StrSliceExecFns, StringExecFns};

/// The decimal digit character for a value 0..=9.
pub open spec fn dec_digit_char(d: int) -> char {
    if d == 0 {
        '0'
    } else if d == 1 {
        '1'
    } else if d == 2 {
        '2'
    } else if d == 3 {
        '3'
    } else if d == 4 {
        '4'
    } else if d == 5 {
        '5'
    } else if d == 6 {
        '6'
    } else if d == 7 {
        '7'
    } else if d == 8 {
        '8'
    } else {
        '9'
    }
}

/// Whether `c` is an ASCII decimal digit.
pub open spec fn is_dec_digit(c: char) -> bool {
    48 <= c as u32 <= 57
}

/// The numeric value of a digit character.
pub open spec fn digit_val(c: char) -> int {
    c as u32 - 48
}

/// Canonical decimal text of a non-negative number: no sign, no leading
/// zeros ("0" for zero itself).
pub open spec fn dec_text(n: nat) -> Seq<char>
    decreases n,
{
    if n < 10 {
        seq![dec_digit_char(n as int)]
    } else {
        dec_text(n / 10).push(dec_digit_char((n % 10) as int))
    }
}

/// The number a digit string denotes (most significant digit first).
pub open spec fn dec_val(s: Seq<char>) -> int
    decreases s.len(),
{
    if s.len() == 0 {
        0
    } else {
        dec_val(s.drop_last()) * 10 + digit_val(s.last())
    }
}

/// Whether every character of `s` is a decimal digit.
pub open spec fn all_dec_digits(s: Seq<char>) -> bool {
    forall|i: int| 0 <= i < s.len() ==> is_dec_digit(#[trigger] s[i])
}

/// A digit character round-trips through its value.
pub proof fn lemma_digit_char_val(c: char)
    requires
        is_dec_digit(c),
    ensures
        dec_digit_char(digit_val(c)) == c,
        0 <= digit_val(c) <= 9,
{
}

/// The value of a digit character built from a value 0..=9.
pub proof fn lemma_digit_val_char(d: int)
    requires
        0 <= d <= 9,
    ensures
        is_dec_digit(dec_digit_char(d)),
        digit_val(dec_digit_char(d)) == d,
{
}

/// Shape of canonical decimal text: digits only, at least one of them,
/// and no leading zero unless the number is zero itself.
pub proof fn lemma_dec_text_shape(n: nat)
    ensures
        dec_text(n).len() >= 1,
        all_dec_digits(dec_text(n)),
        n >= 1 ==> dec_text(n)[0] != '0',
        n == 0 ==> dec_text(n) == seq!['0'],
    decreases n,
{
    if n < 10 {
        lemma_digit_val_char(n as int);
        assert(dec_text(n) == seq![dec_digit_char(n as int)]);
    } else {
        lemma_dec_text_shape(n / 10);
        lemma_digit_val_char((n % 10) as int);
        let prev = dec_text(n / 10);
        assert(dec_text(n) == prev.push(dec_digit_char((n % 10) as int)));
        assert forall|i: int| 0 <= i < dec_text(n).len() implies is_dec_digit(
            #[trigger] dec_text(n)[i],
        ) by {
            if i < prev.len() {
                assert(dec_text(n)[i] == prev[i]);
            }
        }
    }
}

/// Reading canonical decimal text back yields the number.
pub proof fn lemma_dec_val_of_dec_text(n: nat)
    ensures
        dec_val(dec_text(n)) == n,
    decreases n,
{
    if n < 10 {
        lemma_digit_val_char(n as int);
        assert(dec_text(n).drop_last() =~= Seq::<char>::empty());
        assert(dec_val(Seq::<char>::empty()) == 0);
        assert(dec_text(n).last() == dec_digit_char(n as int));
    } else {
        lemma_dec_val_of_dec_text(n / 10);
        lemma_digit_val_char((n % 10) as int);
        let prev = dec_text(n / 10);
        assert(dec_text(n).drop_last() =~= prev);
        assert(dec_text(n).last() == dec_digit_char((n % 10) as int));
    }
}

/// A digit string is non-negative, and positive when it has no leading zero
/// and is not just "0".
pub proof fn lemma_dec_val_nonneg(s: Seq<char>)
    requires
        all_dec_digits(s),
    ensures
        dec_val(s) >= 0,
    decreases s.len(),
{
    if s.len() > 0 {
        assert(all_dec_digits(s.drop_last())) by {
            assert(forall|i: int|
                0 <= i < s.drop_last().len() ==> #[trigger] s.drop_last()[i] == s[i]);
        }
        lemma_dec_val_nonneg(s.drop_last());
        lemma_digit_char_val(s.last());
    }
}

/// A digit string without a leading zero denotes a positive number, unless
/// it is "0" itself.
pub proof fn lemma_dec_val_positive(s: Seq<char>)
    requires
        all_dec_digits(s),
        s.len() >= 1,
        s[0] != '0',
    ensures
        dec_val(s) >= 1,
    decreases s.len(),
{
    if s.len() == 1 {
        lemma_digit_char_val(s[0]);
        assert(s.drop_last() =~= Seq::<char>::empty());
        assert(dec_val(Seq::<char>::empty()) == 0);
        assert(s.last() == s[0]);
        assert(digit_val(s[0]) >= 1) by {
            if digit_val(s[0]) == 0 {
                assert(s[0] == dec_digit_char(0));
            }
        }
    } else {
        let p = s.drop_last();
        assert(all_dec_digits(p)) by {
            assert(forall|i: int| 0 <= i < p.len() ==> #[trigger] p[i] == s[i]);
        }
        assert(p[0] == s[0]);
        lemma_dec_val_positive(p);
        lemma_digit_char_val(s.last());
        assert(dec_val(s) == dec_val(p) * 10 + digit_val(s.last()));
    }
}

/// A non-empty all-digit string with no leading zero is the canonical
/// decimal text of its own value.
pub proof fn lemma_digits_canonical(s: Seq<char>)
    requires
        all_dec_digits(s),
        s.len() >= 1,
        s.len() > 1 ==> s[0] != '0',
    ensures
        dec_val(s) >= 0,
        s == dec_text(dec_val(s) as nat),
    decreases s.len(),
{
    lemma_dec_val_nonneg(s);
    if s.len() == 1 {
        lemma_digit_char_val(s[0]);
        assert(s.drop_last() =~= Seq::<char>::empty());
        assert(dec_val(Seq::<char>::empty()) == 0);
        assert(s.last() == s[0]);
        assert(dec_val(s) == digit_val(s[0]));
        assert(s =~= seq![s[0]]);
    } else {
        let p = s.drop_last();
        assert(all_dec_digits(p)) by {
            assert(forall|i: int| 0 <= i < p.len() ==> #[trigger] p[i] == s[i]);
        }
        assert(p[0] == s[0]);
        lemma_dec_val_positive(p);
        lemma_digits_canonical(p);
        lemma_digit_char_val(s.last());
        let v = dec_val(s);
        assert(v == dec_val(p) * 10 + digit_val(s.last()));
        assert(v / 10 == dec_val(p) && v % 10 == digit_val(s.last())) by {
            vstd::arithmetic::div_mod::lemma_fundamental_div_mod_converse(
                v,
                10,
                dec_val(p),
                digit_val(s.last()),
            );
        }
        assert(v >= 10);
        assert(dec_text(v as nat) == dec_text((v / 10) as nat).push(
            dec_digit_char((v % 10) as int),
        ));
        assert(s =~= p.push(s.last()));
    }
}

/// Appending further digits never shrinks the value.
pub proof fn lemma_dec_val_extend(s: Seq<char>, t: Seq<char>)
    requires
        all_dec_digits(t),
        s.is_prefix_of(t),
    ensures
        dec_val(s) <= dec_val(t),
    decreases t.len(),
{
    assert(all_dec_digits(s)) by {
        assert(forall|i: int| 0 <= i < s.len() ==> #[trigger] s[i] == t[i]);
    }
    lemma_dec_val_nonneg(s);
    if s.len() < t.len() {
        let p = t.drop_last();
        assert(all_dec_digits(p)) by {
            assert(forall|i: int| 0 <= i < p.len() ==> #[trigger] p[i] == t[i]);
        }
        assert(s.is_prefix_of(p)) by {
            assert(forall|i: int| 0 <= i < s.len() ==> #[trigger] s[i] == p[i]);
        }
        lemma_dec_val_extend(s, p);
        lemma_dec_val_nonneg(p);
        lemma_digit_char_val(t.last());
    } else {
        assert(s =~= t);
    }
}

/// The single-character string for a decimal digit.
pub fn digit_str(d: u8) -> (s: &'static str)
    requires
        d <= 9,
    ensures
        s@ == seq![dec_digit_char(d as int)],
{
    proof {
        reveal_strlit("0");
        reveal_strlit("1");
        reveal_strlit("2");
        reveal_strlit("3");
        reveal_strlit("4");
        reveal_strlit("5");
        reveal_strlit("6");
        reveal_strlit("7");
        reveal_strlit("8");
        reveal_strlit("9");
    }
    let s: &'static str = if d == 0 {
        "0"
    } else if d == 1 {
        "1"
    } else if d == 2 {
        "2"
    } else if d == 3 {
        "3"
    } else if d == 4 {
        "4"
    } else if d == 5 {
        "5"
    } else if d == 6 {
        "6"
    } else if d == 7 {
        "7"
    } else if d == 8 {
        "8"
    } else {
        "9"
    };
    proof {
        assert(s@ =~= seq![dec_digit_char(d as int)]);
    }
    s
}

/// Appends the canonical decimal text of `n` to `out`.
pub fn push_dec_u32(out: &mut String, n: u32)
    ensures
        final(out)@ == old(out)@ + dec_text(n as nat),
    decreases n,
{
    if n < 10 {
        out.append(digit_str(n as u8));
        proof {
            assert(final(out)@ =~= old(out)@ + dec_text(n as nat));
        }
    } else {
        push_dec_u32(out, n / 10);
        out.append(digit_str((n % 10) as u8));
        proof {
            assert(final(out)@ =~= old(out)@ + dec_text(n as nat));
        }
    }
}

/// Bit `k` of `n` (0 = least significant).
pub open spec fn bit_of(n: int, k: nat) -> int {
    (n / pow2(k) as int) % 2
}

/// The zero-padded 8-bit binary text of an octet, most significant bit first.
pub open spec fn bin8_text(n: int) -> Seq<char> {
    Seq::new(8, |i: int| if bit_of(n, (7 - i) as nat) == 1 { '1' } else { '0' })
}

/// Appends the 8-bit binary text of `n` to `out`.
pub fn push_bin_u8(out: &mut String, n: u8)
    ensures
        final(out)@ == old(out)@ + bin8_text(n as int),
{
    let mut i: usize = 0;
    proof {
        assert(out@ =~= old(out)@ + bin8_text(n as int).subrange(0, 0));
    }
    while i < 8
        invariant
            i <= 8,
            out@ == old(out)@ + bin8_text(n as int).subrange(0, i as int),
        decreases 8 - i,
    {
        let sh = (7 - i) as u8;
        let b = (n >> sh) & 1;
        proof {
            vstd::bits::lemma_u8_shr_is_div(n, sh);
            assert((n >> sh) & 1 == (n >> sh) % 2) by (bit_vector);
            assert(b as int == bit_of(n as int, sh as nat));
        }
        if b == 1 {
            out.append("1");
        } else {
            out.append("0");
        }
        proof {
            reveal_strlit("0");
            reveal_strlit("1");
            let bt = bin8_text(n as int);
            assert(bt.subrange(0, i + 1) =~= bt.subrange(0, i as int).push(bt[i as int]));
            assert(out@ =~= old(out)@ + bt.subrange(0, i + 1));
        }
        i = i + 1;
    }
    proof {
        assert(bin8_text(n as int).subrange(0, 8) =~= bin8_text(n as int));
    }
}

/// The dotted-decimal text of a 32-bit value, octet by octet.
pub open spec fn dotted_dec_text(v: int) -> Seq<char> {
    dec_text((v / 0x1000000) as nat) + seq!['.'] + dec_text(((v / 0x10000) % 0x100) as nat)
        + seq!['.'] + dec_text(((v / 0x100) % 0x100) as nat) + seq!['.'] + dec_text(
        (v % 0x100) as nat,
    )
}

/// The dotted binary text of a 32-bit value: four 8-bit groups joined by '.'.
pub open spec fn dotted_bin_text(v: int) -> Seq<char> {
    bin8_text(v / 0x1000000) + seq!['.'] + bin8_text((v / 0x10000) % 0x100) + seq!['.'] + bin8_text(
        (v / 0x100) % 0x100,
    ) + seq!['.'] + bin8_text(v % 0x100)
}

/// Appends the dotted-decimal text of `v` to `out`.
pub fn push_dotted_dec(out: &mut String, v: u32)
    ensures
        final(out)@ == old(out)@ + dotted_dec_text(v as int),
{
    proof {
        reveal_strlit(".");
    }
    push_dec_u32(out, v / 0x1000000);
    out.append(".");
    push_dec_u32(out, (v / 0x10000) % 0x100);
    out.append(".");
    push_dec_u32(out, (v / 0x100) % 0x100);
    out.append(".");
    push_dec_u32(out, v % 0x100);
    proof {
        assert(final(out)@ =~= old(out)@ + dotted_dec_text(v as int));
    }
}

/// Appends the dotted binary text of `v` to `out`.
pub fn push_dotted_bin(out: &mut String, v: u32)
    ensures
        final(out)@ == old(out)@ + dotted_bin_text(v as int),
{
    proof {
        reveal_strlit(".");
    }
    push_bin_u8(out, (v / 0x1000000) as u8);
    out.append(".");
    push_bin_u8(out, ((v / 0x10000) % 0x100) as u8);
    out.append(".");
    push_bin_u8(out, ((v / 0x100) % 0x100) as u8);
    out.append(".");
    push_bin_u8(out, (v % 0x100) as u8);
    proof {
        assert(final(out)@ =~= old(out)@ + dotted_bin_text(v as int));
    }
}

/// The dotted-decimal text of `v` as a fresh string.
pub fn dotted_dec_string(v: u32) -> (r: String)
    ensures
        r@ == dotted_dec_text(v as int),
{
    let mut out = String::new();
    push_dotted_dec(&mut out, v);
    proof {
        assert(out@ =~= dotted_dec_text(v as int));
    }
    out
}

/// The dotted binary text of `v` as a fresh string.
pub fn dotted_bin_string(v: u32) -> (r: String)
    ensures
        r@ == dotted_bin_text(v as int),
{
    let mut out = String::new();
    push_dotted_bin(&mut out, v);
    proof {
        assert(out@ =~= dotted_bin_text(v as int));
    }
    out
}

/// `k` spaces (none when `k <= 0`).
pub open spec fn spaces(k: int) -> Seq<char>
    decreases k,
{
    if k <= 0 {
        Seq::empty()
    } else {
        spaces(k - 1).push(' ')
    }
}

/// Appends `k` spaces to `out`.
pub fn push_spaces(out: &mut String, k: usize)
    ensures
        final(out)@ == old(out)@ + spaces(k as int),
{
    proof {
        reveal_strlit(" ");
    }
    let mut i: usize = 0;
    proof {
        assert(out@ =~= old(out)@ + spaces(0));
    }
    while i < k
        invariant
            i <= k,
            out@ == old(out)@ + spaces(i as int),
        decreases k - i,
    {
        out.append(" ");
        proof {
            reveal_strlit(" ");
            assert(" "@ =~= seq![' ']);
            assert(spaces(i + 1) == spaces(i as int).push(' '));
            assert(out@ =~= old(out)@ + spaces(i + 1));
        }
        i = i + 1;
    }
}

/// `s` padded on the right with spaces to at least width `w`.
pub open spec fn padded(s: Seq<char>, w: int) -> Seq<char> {
    s + spaces(w - s.len())
}

/// Appends `s`, space-padded on the right to width `w`, to `out`.
pub fn push_padded(out: &mut String, s: &String, w: usize)
    ensures
        final(out)@ == old(out)@ + padded(s@, w as int),
{
    out.append(s.as_str());
    let n = s.as_str().unicode_len();
    if n < w {
        push_spaces(out, w - n);
    } else {
        proof {
            assert(spaces(w - s@.len()) =~= Seq::<char>::empty());
        }
    }
    proof {
        assert(final(out)@ =~= old(out)@ + padded(s@, w as int));
    }
}

/// The characters of a string slice as a vector.
pub fn str_chars(s: &str) -> (r: Vec<char>)
    ensures
        r@ == s@,
{
    let n = s.unicode_len();
    let mut r: Vec<char> = Vec::new();
    let mut i: usize = 0;
    while i < n
        invariant
            i <= n,
            n == s@.len(),
            r@ == s@.subrange(0, i as int),
        decreases n - i,
    {
        let c = s.get_char(i);
        r.push(c);
        proof {
            assert(r@ =~= s@.subrange(0, i + 1));
        }
        i = i + 1;
    }
    proof {
        assert(r@ =~= s@);
    }
    r
}

/// The index just past the run of decimal digits starting at `from`,
/// stopping at `to`.
pub fn scan_digits(cs: &Vec<char>, from: usize, to: usize) -> (e: usize)
    requires
        from <= to <= cs@.len(),
    ensures
        from <= e <= to,
        forall|i: int| from <= i < e ==> is_dec_digit(#[trigger] cs@[i]),
        e < to ==> !is_dec_digit(cs@[e as int]),
{
    let mut i = from;
    while i < to
        invariant
            from <= i <= to <= cs@.len(),
            forall|j: int| from <= j < i ==> is_dec_digit(#[trigger] cs@[j]),
        decreases to - i,
    {
        let u = cs[i] as u32;
        if !(48 <= u && u <= 57) {
            return i;
        }
        i = i + 1;
    }
    i
}

/// Reads the all-digit range `[from, to)` as a number, refusing values
/// over 255.
pub fn accumulate_digits(cs: &Vec<char>, from: usize, to: usize) -> (r: Option<u32>)
    requires
        from <= to <= cs@.len(),
        forall|i: int| from <= i < to ==> is_dec_digit(#[trigger] cs@[i]),
    ensures
        match r {
            Some(v) => v as int == dec_val(cs@.subrange(from as int, to as int)) && v <= 255,
            None => dec_val(cs@.subrange(from as int, to as int)) > 255,
        },
{
    let ghost s = cs@.subrange(from as int, to as int);
    let mut acc: u32 = 0;
    let mut i = from;
    proof {
        assert(cs@.subrange(from as int, from as int) =~= Seq::<char>::empty());
    }
    while i < to
        invariant
            from <= i <= to <= cs@.len(),
            forall|j: int| from <= j < to ==> is_dec_digit(#[trigger] cs@[j]),
            s == cs@.subrange(from as int, to as int),
            acc <= 255,
            acc as int == dec_val(cs@.subrange(from as int, i as int)),
        decreases to - i,
    {
        let u = cs[i] as u32;
        let d = u - 48;
        let next = acc * 10 + d;
        proof {
            let p = cs@.subrange(from as int, i as int);
            let q = cs@.subrange(from as int, i + 1);
            assert(q.drop_last() =~= p);
            assert(q.last() == cs@[i as int]);
            assert(digit_val(cs@[i as int]) == d);
            lemma_digit_char_val(cs@[i as int]);
            assert(dec_val(q) == next);
        }
        if next > 255 {
            proof {
                let q = cs@.subrange(from as int, i + 1);
                assert forall|j: int| 0 <= j < s.len() implies is_dec_digit(#[trigger] s[j]) by {
                    assert(s[j] == cs@[from + j]);
                }
                assert forall|j: int| 0 <= j < q.len() implies #[trigger] q[j] == s[j] by {
                    assert(q[j] == cs@[from + j]);
                    assert(s[j] == cs@[from + j]);
                }
                assert(q.is_prefix_of(s));
                lemma_dec_val_extend(q, s);
            }
            return None;
        }
        acc = next;
        i = i + 1;
    }
    Some(acc)
}

/// Reads `[from, to)` as the canonical decimal text of an octet value.
pub fn parse_octet(cs: &Vec<char>, from: usize, to: usize) -> (r: Option<u8>)
    requires
        from <= to <= cs@.len(),
    ensures
        match r {
            Some(v) => cs@.subrange(from as int, to as int) == dec_text(v as nat),
            None => forall|v: u8| cs@.subrange(from as int, to as int) != dec_text(v as nat),
        },
{
    let ghost s = cs@.subrange(from as int, to as int);
    if from == to {
        proof {
            assert forall|v: u8| s != dec_text(v as nat) by {
                lemma_dec_text_shape(v as nat);
            }
        }
        return None;
    }
    let e = scan_digits(cs, from, to);
    if e < to {
        proof {
            assert(s[e - from] == cs@[e as int]);
            assert(!is_dec_digit(s[e - from]));
            assert forall|v: u8| s != dec_text(v as nat) by {
                lemma_dec_text_shape(v as nat);
                if s == dec_text(v as nat) {
                    assert(is_dec_digit(dec_text(v as nat)[e - from]));
                }
            }
        }
        return None;
    }
    let first = cs[from] as u32;
    if first == 48 && to - from > 1 {
        proof {
            assert(s[0] == cs@[from as int]);
            assert(s[0] as u32 == 48);
            assert(s[0] == '0') by {
                lemma_digit_char_val(s[0]);
            }
            assert forall|v: u8| s != dec_text(v as nat) by {
                lemma_dec_text_shape(v as nat);
                if s == dec_text(v as nat) {
                    if v >= 1 {
                        assert(dec_text(v as nat)[0] != '0');
                    } else {
                        assert(dec_text(v as nat).len() == 1);
                    }
                }
            }
        }
        return None;
    }
    match accumulate_digits(cs, from, to) {
        Some(v) => {
            proof {
                assert forall|j: int| 0 <= j < s.len() implies is_dec_digit(#[trigger] s[j]) by {
                    assert(s[j] == cs@[from + j]);
                }
                assert(s[0] == cs@[from as int]);
                lemma_digit_char_val(s[0]);
                lemma_digits_canonical(s);
                assert(s =~= cs@.subrange(from as int, to as int));
                assert(dec_val(s) == v);
                assert(s == dec_text(v as nat));
            }
            Some(v as u8)
        },
        None => {
            proof {
                assert forall|v: u8| s != dec_text(v as nat) by {
                    if s == dec_text(v as nat) {
                        lemma_dec_val_of_dec_text(v as nat);
                    }
                }
            }
            None
        },
    }
}

/// The number denoted by integer text in the style of the platform's
/// unsigned parser: an optional leading '+', then one or more digits.
pub open spec fn uint_text_value(s: Seq<char>) -> Option<int> {
    let digits = if s.len() >= 1 && s[0] == '+' {
        s.subrange(1, s.len() as int)
    } else {
        s
    };
    if digits.len() >= 1 && all_dec_digits(digits) {
        Some(dec_val(digits))
    } else {
        None
    }
}

/// Whether `[from, to)` is unsigned integer text: an optional leading
/// '+', then one or more digits, whatever the value.
pub fn is_uint_text(cs: &Vec<char>, from: usize, to: usize) -> (r: bool)
    requires
        from <= to <= cs@.len(),
    ensures
        r == (uint_text_value(cs@.subrange(from as int, to as int)) is Some),
{
    let ghost s = cs@.subrange(from as int, to as int);
    let d_from = if to > from && cs[from] == '+' {
        from + 1
    } else {
        from
    };
    let ghost digits = cs@.subrange(d_from as int, to as int);
    proof {
        if s.len() >= 1 && s[0] == '+' {
            assert(digits =~= s.subrange(1, s.len() as int));
        } else {
            assert(digits =~= s);
        }
    }
    if d_from == to {
        return false;
    }
    let e = scan_digits(cs, d_from, to);
    if e < to {
        proof {
            assert(digits[e - d_from] == cs@[e as int]);
            assert(!is_dec_digit(digits[e - d_from]));
            assert(!all_dec_digits(digits));
        }
        return false;
    }
    proof {
        assert forall|j: int| 0 <= j < digits.len() implies is_dec_digit(
            #[trigger] digits[j],
        ) by {
            assert(digits[j] == cs@[d_from + j]);
        }
    }
    true
}

/// Reads `[from, to)` as unsigned integer text, refusing values over 255.
pub fn parse_uint_u8(cs: &Vec<char>, from: usize, to: usize) -> (r: Option<u8>)
    requires
        from <= to <= cs@.len(),
    ensures
        match r {
            Some(v) => uint_text_value(cs@.subrange(from as int, to as int)) == Some(v as int),
            None => match uint_text_value(cs@.subrange(from as int, to as int)) {
                Some(w) => w > 255,
                None => true,
            },
        },
{
    let ghost s = cs@.subrange(from as int, to as int);
    let d_from = if to > from && cs[from] == '+' {
        from + 1
    } else {
        from
    };
    let ghost digits = cs@.subrange(d_from as int, to as int);
    proof {
        if s.len() >= 1 && s[0] == '+' {
            assert(digits =~= s.subrange(1, s.len() as int));
        } else {
            assert(digits =~= s);
        }
    }
    if d_from == to {
        return None;
    }
    let e = scan_digits(cs, d_from, to);
    if e < to {
        proof {
            assert(digits[e - d_from] == cs@[e as int]);
            assert(!is_dec_digit(digits[e - d_from]));
            assert(!all_dec_digits(digits));
        }
        return None;
    }
    proof {
        assert forall|j: int| 0 <= j < digits.len() implies is_dec_digit(
            #[trigger] digits[j],
        ) by {
            assert(digits[j] == cs@[d_from + j]);
        }
    }
    match accumulate_digits(cs, d_from, to) {
        Some(v) => Some(v as u8),
        None => None,
    }
}

/// A copy of the range `[from, to)` of `cs`.
pub fn subvec(cs: &Vec<char>, from: usize, to: usize) -> (r: Vec<char>)
    requires
        from <= to <= cs@.len(),
    ensures
        r@ == cs@.subrange(from as int, to as int),
{
    let mut r: Vec<char> = Vec::new();
    let mut i = from;
    while i < to
        invariant
            from <= i <= to <= cs@.len(),
            r@ == cs@.subrange(from as int, i as int),
        decreases to - i,
    {
        r.push(cs[i]);
        proof {
            assert(r@ =~= cs@.subrange(from as int, i + 1));
        }
        i = i + 1;
    }
    r
}

/// The first position of `target` at or after `from`, if any.
pub fn find_char(cs: &Vec<char>, from: usize, target: char) -> (r: Option<usize>)
    requires
        from <= cs@.len(),
    ensures
        match r {
            Some(i) => from <= i < cs@.len() && cs@[i as int] == target && forall|j: int|
                from <= j < i ==> cs@[j] != target,
            None => forall|j: int| from <= j < cs@.len() ==> cs@[j] != target,
        },
{
    let mut i = from;
    let n = cs.len();
    while i < n
        invariant
            from <= i <= n == cs@.len(),
            forall|j: int| from <= j < i ==> cs@[j] != target,
        decreases n - i,
    {
        if cs[i] == target {
            return Some(i);
        }
        i = i + 1;
    }
    None
}

} // verus!
