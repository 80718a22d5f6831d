//! Byte-level text helpers: decimal and hexadecimal numerals, and the
//! conversion between ASCII byte buffers and `String`s.
//!
//! The mapping-table parser and the dump formatter both work on bytes;
//! this module states what a numeral means and proves the parsers and
//! printers against that meaning.

use vstd::prelude::*;
use vstd::utf8::{
    decode_utf8, encode_utf8, encode_utf8_decode_utf8, encode_utf8_valid_utf8,
    is_ascii_chars, is_ascii_chars_encode_utf8, valid_utf8,
};

verus! {

pub open spec fn is_dec_digit(b: u8) -> bool {
    0x30 <= b <= 0x39
}

pub open spec fn is_hex_digit(b: u8) -> bool {
    is_dec_digit(b) || (0x61 <= b <= 0x66) || (0x41 <= b <= 0x46)
}

/// The numeric value of one hexadecimal digit byte.
pub open spec fn hex_digit_value(b: u8) -> nat
    recommends
        is_hex_digit(b),
{
    if is_dec_digit(b) {
        (b - 0x30) as nat
    } else if 0x61 <= b <= 0x66 {
        (b - 0x61 + 10) as nat
    } else {
        (b - 0x41 + 10) as nat
    }
}

pub open spec fn all_dec_digits(s: Seq<u8>) -> bool {
    forall|i: int| 0 <= i < s.len() ==> is_dec_digit(#[trigger] s[i])
}

pub open spec fn all_hex_digits(s: Seq<u8>) -> bool {
    forall|i: int| 0 <= i < s.len() ==> is_hex_digit(#[trigger] s[i])
}

/// The value of a big-endian hexadecimal numeral.
pub open spec fn hex_value(s: Seq<u8>) -> nat
    decreases s.len(),
{
    if s.len() == 0 {
        0
    } else {
        hex_value(s.drop_last()) * 16 + hex_digit_value(s.last())
    }
}

/// The value of a big-endian decimal numeral.
pub open spec fn dec_value(s: Seq<u8>) -> nat
    decreases s.len(),
{
    if s.len() == 0 {
        0
    } else {
        dec_value(s.drop_last()) * 10 + (if is_dec_digit(s.last()) {
            (s.last() - 0x30) as nat
        } else {
            0
        })
    }
}

proof fn lemma_hex_value_take_step(s: Seq<u8>, i: int)
    requires
        0 <= i < s.len(),
    ensures
        hex_value(s.take(i + 1)) == hex_value(s.take(i)) * 16 + hex_digit_value(s[i]),
{
    assert(s.take(i + 1).drop_last() =~= s.take(i));
    assert(s.take(i + 1).last() == s[i]);
}

proof fn lemma_dec_value_take_step(s: Seq<u8>, i: int)
    requires
        0 <= i < s.len(),
        is_dec_digit(s[i]),
    ensures
        dec_value(s.take(i + 1)) == dec_value(s.take(i)) * 10 + (s[i] - 0x30),
{
    assert(s.take(i + 1).drop_last() =~= s.take(i));
    assert(s.take(i + 1).last() == s[i]);
}

/// A numeral's value never shrinks as digits are appended.
proof fn lemma_hex_prefix_le(s: Seq<u8>, i: int)
    requires
        0 <= i <= s.len(),
    ensures
        hex_value(s.take(i)) <= hex_value(s),
    decreases s.len() - i,
{
    if i == s.len() {
        assert(s.take(i) =~= s);
    } else {
        lemma_hex_value_take_step(s, i);
        lemma_hex_prefix_le(s, i + 1);
    }
}

proof fn lemma_dec_prefix_le(s: Seq<u8>, i: int)
    requires
        0 <= i <= s.len(),
    ensures
        dec_value(s.take(i)) <= dec_value(s),
    decreases s.len() - i,
{
    if i == s.len() {
        assert(s.take(i) =~= s);
    } else {
        assert(s.take(i + 1).drop_last() =~= s.take(i));
        lemma_dec_prefix_le(s, i + 1);
    }
}

/// Parses a nonempty all-hexadecimal token; `None` exactly on an empty or
/// malformed token or a value that does not fit in `usize`.
pub fn parse_hex_usize(s: &[u8]) -> (r: Option<usize>)
    ensures
        match r {
            Some(v) => s@.len() > 0 && all_hex_digits(s@) && v == hex_value(s@),
            None => s@.len() == 0 || !all_hex_digits(s@) || hex_value(s@) > usize::MAX,
        },
{
    if s.len() == 0 {
        return None;
    }
    let mut acc: usize = 0;
    let mut i: usize = 0;
    while i < s.len()
        invariant
            0 <= i <= s@.len(),
            all_hex_digits(s@.take(i as int)),
            acc == hex_value(s@.take(i as int)),
        decreases s@.len() - i,
    {
        let b = s[i];
        let d: usize = if 0x30 <= b && b <= 0x39 {
            (b - 0x30) as usize
        } else if 0x61 <= b && b <= 0x66 {
            (b - 0x61 + 10) as usize
        } else if 0x41 <= b && b <= 0x46 {
            (b - 0x41 + 10) as usize
        } else {
            return None;
        };
        let shifted = match acc.checked_mul(16) {
            Some(m) => m,
            None => {
                proof {
                    lemma_hex_value_take_step(s@, i as int);
                    lemma_hex_prefix_le(s@, i as int + 1);
                }
                return None;
            },
        };
        let next = match shifted.checked_add(d) {
            Some(n) => n,
            None => {
                proof {
                    lemma_hex_value_take_step(s@, i as int);
                    lemma_hex_prefix_le(s@, i as int + 1);
                }
                return None;
            },
        };
        proof {
            lemma_hex_value_take_step(s@, i as int);
        }
        acc = next;
        i = i + 1;
    }
    proof {
        assert(s@.take(i as int) =~= s@);
    }
    Some(acc)
}

/// Parses a nonempty all-decimal token; `None` exactly on an empty or
/// malformed token or a value that does not fit in `usize`.
pub fn parse_dec_usize(s: &[u8]) -> (r: Option<usize>)
    ensures
        match r {
            Some(v) => s@.len() > 0 && all_dec_digits(s@) && v == dec_value(s@),
            None => s@.len() == 0 || !all_dec_digits(s@) || dec_value(s@) > usize::MAX,
        },
{
    if s.len() == 0 {
        return None;
    }
    let mut acc: usize = 0;
    let mut i: usize = 0;
    while i < s.len()
        invariant
            0 <= i <= s@.len(),
            all_dec_digits(s@.take(i as int)),
            acc == dec_value(s@.take(i as int)),
        decreases s@.len() - i,
    {
        let b = s[i];
        if !(0x30 <= b && b <= 0x39) {
            return None;
        }
        let d: usize = (b - 0x30) as usize;
        let shifted = match acc.checked_mul(10) {
            Some(m) => m,
            None => {
                proof {
                    lemma_dec_value_take_step(s@, i as int);
                    lemma_dec_prefix_le(s@, i as int + 1);
                }
                return None;
            },
        };
        let next = match shifted.checked_add(d) {
            Some(n) => n,
            None => {
                proof {
                    lemma_dec_value_take_step(s@, i as int);
                    lemma_dec_prefix_le(s@, i as int + 1);
                }
                return None;
            },
        };
        proof {
            lemma_dec_value_take_step(s@, i as int);
        }
        acc = next;
        i = i + 1;
    }
    proof {
        assert(s@.take(i as int) =~= s@);
    }
    Some(acc)
}

/// The canonical decimal numeral of `n`: no leading zero except for `0`.
pub open spec fn dec_digits(n: nat) -> Seq<u8>
    decreases n,
{
    if n < 10 {
        seq![(0x30 + n) as u8]
    } else {
        dec_digits(n / 10).push((0x30 + n % 10) as u8)
    }
}

/// The canonical upper-case hexadecimal numeral of `n`.
pub open spec fn hex_digits(n: nat) -> Seq<u8>
    decreases n,
{
    if n < 16 {
        seq![spec_hex_digit(n)]
    } else {
        hex_digits(n / 16).push(spec_hex_digit(n % 16))
    }
}

pub open spec fn spec_hex_digit(d: nat) -> u8
    recommends
        d < 16,
{
    if d < 10 {
        (0x30 + d) as u8
    } else {
        (0x41 + (d - 10)) as u8
    }
}

/// `hex_digits(n)` left-padded with `0` bytes to at least `width` digits.
pub open spec fn hex_digits_padded(n: nat, width: nat) -> Seq<u8> {
    if hex_digits(n).len() >= width {
        hex_digits(n)
    } else {
        Seq::new((width - hex_digits(n).len()) as nat, |i: int| 0x30u8) + hex_digits(n)
    }
}

/// Writes the canonical decimal numeral of `n` onto the end of `out`.
pub fn push_dec(out: &mut Vec<u8>, n: u64)
    ensures
        final(out)@ == old(out)@ + dec_digits(n as nat),
    decreases n,
{
    if n < 10 {
        out.push((0x30 + n) as u8);
    } else {
        push_dec(out, n / 10);
        out.push((0x30 + (n % 10)) as u8);
        proof {
            assert(out@ =~= old(out)@ + dec_digits(n as nat));
        }
    }
}

/// Writes the canonical upper-case hexadecimal numeral of `n` onto `out`.
pub fn push_hex(out: &mut Vec<u8>, n: u64)
    ensures
        final(out)@ == old(out)@ + hex_digits(n as nat),
    decreases n,
{
    if n < 16 {
        out.push(hex_digit_byte(n % 16));
    } else {
        push_hex(out, n / 16);
        out.push(hex_digit_byte(n % 16));
        proof {
            assert(out@ =~= old(out)@ + hex_digits(n as nat));
        }
    }
}

fn hex_digit_byte(d: u64) -> (r: u8)
    requires
        d < 16,
    ensures
        r == spec_hex_digit(d as nat),
{
    if d < 10 {
        (0x30 + d) as u8
    } else {
        (0x41 + (d - 10)) as u8
    }
}

/// `dec_digits(n)` left-padded with `0` bytes to at least `width` digits.
pub open spec fn dec_digits_padded(n: nat, width: nat) -> Seq<u8> {
    if dec_digits(n).len() >= width {
        dec_digits(n)
    } else {
        Seq::new((width - dec_digits(n).len()) as nat, |i: int| 0x30u8) + dec_digits(n)
    }
}

/// Writes the decimal numeral of `n` left-padded with zeros to at least
/// `width` digits.
pub fn push_dec_padded(out: &mut Vec<u8>, n: u64, width: usize)
    ensures
        final(out)@ == old(out)@ + dec_digits_padded(n as nat, width as nat),
{
    let mut digits: Vec<u8> = Vec::new();
    push_dec(&mut digits, n);
    let mut pad: usize = 0;
    let dlen = digits.len();
    if dlen < width {
        pad = width - dlen;
    }
    let ghost base = out@;
    let mut k: usize = 0;
    while k < pad
        invariant
            0 <= k <= pad,
            pad == if dec_digits(n as nat).len() >= width {
                0int
            } else {
                width - dec_digits(n as nat).len()
            },
            out@ =~= base + Seq::new(k as nat, |i: int| 0x30u8),
        decreases pad - k,
    {
        out.push(0x30);
        proof {
            assert(out@ =~= base + Seq::new((k + 1) as nat, |i: int| 0x30u8));
        }
        k = k + 1;
    }
    let mut j: usize = 0;
    while j < digits.len()
        invariant
            0 <= j <= digits@.len(),
            digits@ == dec_digits(n as nat),
            out@ =~= base + Seq::new(pad as nat, |i: int| 0x30u8) + digits@.take(j as int),
        decreases digits@.len() - j,
    {
        out.push(digits[j]);
        proof {
            assert(out@ =~= base + Seq::new(pad as nat, |i: int| 0x30u8) + digits@.take(
                j as int + 1,
            ));
        }
        j = j + 1;
    }
    proof {
        assert(digits@.take(digits@.len() as int) =~= digits@);
        assert(out@ =~= base + dec_digits_padded(n as nat, width as nat));
    }
}

/// Every byte of a hexadecimal numeral is printable ASCII.
pub proof fn lemma_hex_digits_ascii(n: nat)
    ensures
        ascii_seq(hex_digits(n)),
    decreases n,
{
    if n < 16 {
    } else {
        lemma_hex_digits_ascii(n / 16);
        assert forall|i: int| 0 <= i < hex_digits(n).len() implies #[trigger] hex_digits(
            n,
        )[i] < 0x80 by {
            if i < hex_digits(n / 16).len() {
                assert(hex_digits(n)[i] == hex_digits(n / 16)[i]);
            }
        }
    }
}

/// Every byte of a decimal numeral is printable ASCII.
pub proof fn lemma_dec_digits_ascii(n: nat)
    ensures
        ascii_seq(dec_digits(n)),
    decreases n,
{
    if n < 10 {
    } else {
        lemma_dec_digits_ascii(n / 10);
        assert forall|i: int| 0 <= i < dec_digits(n).len() implies #[trigger] dec_digits(
            n,
        )[i] < 0x80 by {
            if i < dec_digits(n / 10).len() {
                assert(dec_digits(n)[i] == dec_digits(n / 10)[i]);
            }
        }
    }
}

/// The padded numerals stay ASCII.
pub proof fn lemma_padded_ascii(n: nat, width: nat)
    ensures
        ascii_seq(hex_digits_padded(n, width)),
        ascii_seq(dec_digits_padded(n, width)),
{
    lemma_hex_digits_ascii(n);
    lemma_dec_digits_ascii(n);
}

/// Writes the hexadecimal numeral of `n` left-padded with zeros to at
/// least `width` digits, as the `0`-padded fixed-width field of a dump
/// line.
pub fn push_hex_padded(out: &mut Vec<u8>, n: u64, width: usize)
    ensures
        final(out)@ == old(out)@ + hex_digits_padded(n as nat, width as nat),
{
    let mut digits: Vec<u8> = Vec::new();
    push_hex(&mut digits, n);
    let mut pad: usize = 0;
    let dlen = digits.len();
    if dlen < width {
        pad = width - dlen;
    }
    let ghost base = out@;
    let mut k: usize = 0;
    while k < pad
        invariant
            0 <= k <= pad,
            pad == if hex_digits(n as nat).len() >= width {
                0int
            } else {
                width - hex_digits(n as nat).len()
            },
            out@ =~= base + Seq::new(k as nat, |i: int| 0x30u8),
        decreases pad - k,
    {
        out.push(0x30);
        proof {
            assert(out@ =~= base + Seq::new((k + 1) as nat, |i: int| 0x30u8));
        }
        k = k + 1;
    }
    let mut j: usize = 0;
    while j < digits.len()
        invariant
            0 <= j <= digits@.len(),
            digits@ == hex_digits(n as nat),
            out@ =~= base + Seq::new(pad as nat, |i: int| 0x30u8) + digits@.take(j as int),
        decreases digits@.len() - j,
    {
        out.push(digits[j]);
        proof {
            assert(out@ =~= base + Seq::new(pad as nat, |i: int| 0x30u8) + digits@.take(
                j as int + 1,
            ));
        }
        j = j + 1;
    }
    proof {
        assert(digits@.take(digits@.len() as int) =~= digits@);
        if hex_digits(n as nat).len() >= width as nat {
            assert(out@ =~= base + hex_digits_padded(n as nat, width as nat));
        } else {
            assert(out@ =~= base + hex_digits_padded(n as nat, width as nat));
        }
    }
}

/// The characters standing for a sequence of ASCII bytes, one for one.
pub open spec fn chars_of_ascii(v: Seq<u8>) -> Seq<char> {
    Seq::new(v.len(), |i: int| v[i] as char)
}

pub open spec fn ascii_seq(v: Seq<u8>) -> bool {
    forall|i: int| 0 <= i < v.len() ==> #[trigger] v[i] < 0x80
}

/// Relies on `String::from_utf8`: it succeeds exactly on valid UTF-8 and
/// then yields the decoded characters.
#[verifier::external_body]
fn utf8_to_string(v: Vec<u8>) -> (r: Option<String>)
    ensures
        match r {
            Some(s) => valid_utf8(v@) && s@ == decode_utf8(v@),
            None => !valid_utf8(v@),
        },
{
    String::from_utf8(v).ok()
}

/// An all-ASCII byte sequence is valid UTF-8 and decodes to the same
/// values read as characters.
pub proof fn lemma_ascii_utf8(v: Seq<u8>)
    requires
        ascii_seq(v),
    ensures
        valid_utf8(v),
        decode_utf8(v) == chars_of_ascii(v),
{
    let chars = chars_of_ascii(v);
    assert(is_ascii_chars(chars)) by {
        assert forall|i: int| 0 <= i < chars.len() implies '\0' <= #[trigger] chars[i]
            <= '\u{7f}' by {
            assert(v[i] < 0x80);
        }
    }
    is_ascii_chars_encode_utf8(chars);
    assert(encode_utf8(chars) =~= v);
    encode_utf8_valid_utf8(chars);
    encode_utf8_decode_utf8(chars);
}

/// Turns a buffer of ASCII bytes into the `String` of the same characters.
pub fn ascii_string(v: Vec<u8>) -> (r: String)
    requires
        ascii_seq(v@),
    ensures
        r@ == chars_of_ascii(v@),
{
    proof {
        lemma_ascii_utf8(v@);
    }
    let ghost bytes = v@;
    match utf8_to_string(v) {
        Some(s) => s,
        None => {
            proof {
                assert(false);
            }
            String::new()
        },
    }
}

/// Turns arbitrary bytes into a `String` when they are valid UTF-8.
pub fn utf8_string(v: Vec<u8>) -> (r: Option<String>)
    ensures
        match r {
            Some(s) => valid_utf8(v@) && s@ == decode_utf8(v@),
            None => !valid_utf8(v@),
        },
{
    utf8_to_string(v)
}

} // verus!
