//! Rendering of the primitive token kinds that make up canonical JSON:
//! decimal integers, UTF-16 code units for key comparison, UTF-8 bytes for
//! output, and the canonical string-escape table.

use vstd::prelude::*;
use vstd::utf8::encode_scalar;

verus! {

// ---------------------------------------------------------------------------
// Decimal rendering of integers
// ---------------------------------------------------------------------------

/// The ASCII digit for a value in 0..10.
pub open spec fn dec_digit(n: int) -> u8
    recommends
        0 <= n < 10,
{
    (0x30 + n) as u8
}

/// The decimal digit string of a non-negative integer, most significant first.
pub open spec fn dec_of(n: nat) -> Seq<u8>
    decreases n,
{
    if n < 10 {
        seq![dec_digit(n as int)]
    } else {
        dec_of(n / 10).push(dec_digit((n % 10) as int))
    }
}

/// The canonical rendering of a (signed) integer: an optional `-` sign
/// followed by the decimal digits of its magnitude.
pub open spec fn int_bytes(i: int) -> Seq<u8> {
    if i < 0 {
        seq![0x2du8] + dec_of((-i) as nat)
    } else {
        dec_of(i as nat)
    }
}

/// Appends the decimal digits of `n` to `out`.
pub fn push_dec_u128(out: &mut Vec<u8>, n: u128)
    ensures
        final(out)@ == old(out)@ + dec_of(n as nat),
    decreases n,
{
    if n < 10 {
        out.push(0x30 + n as u8);
        assert(final(out)@ =~= old(out)@ + dec_of(n as nat));
    } else {
        push_dec_u128(out, n / 10);
        out.push(0x30 + (n % 10) as u8);
        assert(final(out)@ =~= old(out)@ + dec_of(n as nat));
    }
}

// ---------------------------------------------------------------------------
// UTF-16 code units (the comparison form of object keys)
// ---------------------------------------------------------------------------

/// The UTF-16 code units of one character: itself for the basic plane,
/// a surrogate pair for supplementary characters.
pub open spec fn units_of_char(c: char) -> Seq<u16> {
    let v = c as u32;
    if v < 0x10000 {
        seq![v as u16]
    } else {
        seq![
            (0xD800 + (v - 0x10000) / 0x400) as u16,
            (0xDC00 + (v - 0x10000) % 0x400) as u16,
        ]
    }
}

/// The UTF-16 code-unit sequence of a character sequence.
pub open spec fn units_of(s: Seq<char>) -> Seq<u16>
    decreases s.len(),
{
    if s.len() == 0 {
        Seq::empty()
    } else {
        units_of(s.drop_last()) + units_of_char(s.last())
    }
}

/// Appends the UTF-16 code units of `c` to `out`.
pub fn push_units(out: &mut Vec<u16>, c: char)
    ensures
        final(out)@ == old(out)@ + units_of_char(c),
{
    let v = c as u32;
    if v < 0x10000 {
        out.push(v as u16);
        assert(final(out)@ =~= old(out)@ + units_of_char(c));
    } else {
        out.push((0xD800 + (v - 0x10000) / 0x400) as u16);
        out.push((0xDC00 + (v - 0x10000) % 0x400) as u16);
        assert(final(out)@ =~= old(out)@ + units_of_char(c));
    }
}

// ---------------------------------------------------------------------------
// UTF-8 output bytes
// ---------------------------------------------------------------------------

/// Appends the UTF-8 encoding of `c` to `out`, exactly as
/// `vstd::utf8::encode_scalar` describes it.
pub fn push_utf8(out: &mut Vec<u8>, c: char)
    ensures
        final(out)@ == old(out)@ + encode_scalar(c as u32),
{
    proof {
        vstd::utf8::char_is_scalar(c);
    }
    let v = c as u32;
    if v <= 0x7F {
        out.push((v & 0x7F) as u8);
    } else if v <= 0x7FF {
        out.push(0xC0 | ((v >> 6) & 0x1F) as u8);
        out.push(0x80 | (v & 0x3F) as u8);
    } else if v <= 0xFFFF {
        out.push(0xE0 | ((v >> 12) & 0x0F) as u8);
        out.push(0x80 | ((v >> 6) & 0x3F) as u8);
        out.push(0x80 | (v & 0x3F) as u8);
    } else {
        out.push(0xF0 | ((v >> 18) & 0x7) as u8);
        out.push(0x80 | ((v >> 12) & 0x3F) as u8);
        out.push(0x80 | ((v >> 6) & 0x3F) as u8);
        out.push(0x80 | (v & 0x3F) as u8);
    }
    assert(final(out)@ =~= old(out)@ + encode_scalar(c as u32));
}

// ---------------------------------------------------------------------------
// The canonical escape table
// ---------------------------------------------------------------------------

/// Characters that the canonical form must escape inside a string:
/// the C0 controls, the quotation mark and the reverse solidus.
pub open spec fn is_escaped(c: char) -> bool {
    (c as u32) < 0x20 || c == '"' || c == '\\'
}

/// Characters the escape writer accepts: the mandatory set and, for callers
/// that ask for it, the solidus.
pub open spec fn can_escape(c: char) -> bool {
    is_escaped(c) || c == '/'
}

/// The lowercase hexadecimal digit for a value in 0..16.
pub open spec fn hex_digit(n: u8) -> u8
    recommends
        n < 16,
{
    if n < 10 {
        (0x30 + n) as u8
    } else {
        (0x57 + n) as u8
    }
}

/// The canonical escape sequence of an escapable character: the two-byte
/// short forms for backspace, tab, line feed, form feed, carriage return,
/// quote, reverse solidus and solidus, and `\u00` with two lowercase hex
/// digits for the remaining C0 controls.
pub open spec fn esc_seq(c: char) -> Seq<u8>
    recommends
        can_escape(c),
{
    let v = c as u32;
    if v == 0x08 {
        seq![0x5Cu8, 0x62u8]
    } else if v == 0x09 {
        seq![0x5Cu8, 0x74u8]
    } else if v == 0x0A {
        seq![0x5Cu8, 0x6Eu8]
    } else if v == 0x0C {
        seq![0x5Cu8, 0x66u8]
    } else if v == 0x0D {
        seq![0x5Cu8, 0x72u8]
    } else if v == 0x22 {
        seq![0x5Cu8, 0x22u8]
    } else if v == 0x5C {
        seq![0x5Cu8, 0x5Cu8]
    } else if v == 0x2F {
        seq![0x5Cu8, 0x2Fu8]
    } else {
        seq![0x5Cu8, 0x75u8, 0x30u8, 0x30u8, hex_digit((v >> 4) as u8), hex_digit((v & 0xF) as u8)]
    }
}

/// One string-body piece: the escape sequence for escaped characters, the
/// plain UTF-8 bytes for everything else.
pub open spec fn char_piece(c: char) -> Seq<u8> {
    if is_escaped(c) {
        esc_seq(c)
    } else {
        encode_scalar(c as u32)
    }
}

/// The canonical body of a string: every character rendered through the
/// escape table.
pub open spec fn str_body(s: Seq<char>) -> Seq<u8>
    decreases s.len(),
{
    if s.len() == 0 {
        Seq::empty()
    } else {
        str_body(s.drop_last()) + char_piece(s.last())
    }
}

/// The canonical rendering of a string: the escaped body between quotes.
pub open spec fn str_bytes(s: Seq<char>) -> Seq<u8> {
    seq![0x22u8] + str_body(s) + seq![0x22u8]
}

/// Whether `c` must be escaped in canonical output.
pub fn is_escaped_char(c: char) -> (r: bool)
    ensures
        r == is_escaped(c),
{
    let v = c as u32;
    v < 0x20 || v == 0x22 || v == 0x5C
}

/// Appends the canonical escape sequence of `c` to `out`.
pub fn push_escape(out: &mut Vec<u8>, c: char)
    requires
        can_escape(c),
    ensures
        final(out)@ == old(out)@ + esc_seq(c),
{
    let v = c as u32;
    out.push(0x5C);
    if v == 0x08 {
        out.push(0x62);
    } else if v == 0x09 {
        out.push(0x74);
    } else if v == 0x0A {
        out.push(0x6E);
    } else if v == 0x0C {
        out.push(0x66);
    } else if v == 0x0D {
        out.push(0x72);
    } else if v == 0x22 {
        out.push(0x22);
    } else if v == 0x5C {
        out.push(0x5C);
    } else if v == 0x2F {
        out.push(0x2F);
    } else {
        assert(v < 0x20);
        out.push(0x75);
        out.push(0x30);
        out.push(0x30);
        let hi = (v >> 4) as u8;
        let lo = (v & 0xF) as u8;
        assert(hi < 16 && lo < 16) by (bit_vector)
            requires
                hi == (v >> 4) as u8 && lo == (v & 0xF) as u8 && v < 0x20,
        ;
        out.push(if hi < 10 { 0x30 + hi } else { 0x57 + hi });
        out.push(if lo < 10 { 0x30 + lo } else { 0x57 + lo });
    }
    assert(final(out)@ =~= old(out)@ + esc_seq(c));
}

// ---------------------------------------------------------------------------
// Double-precision bit patterns
// ---------------------------------------------------------------------------

/// The bit pattern of a double with its sign bit cleared.
pub open spec fn f64_abs_bits(bits: u64) -> u64 {
    bits & 0x7FFF_FFFF_FFFF_FFFF
}

/// Whether the double with this bit pattern is a NaN.
pub open spec fn f64_is_nan(bits: u64) -> bool {
    f64_abs_bits(bits) > 0x7FF0_0000_0000_0000
}

/// Whether the double with this bit pattern is an infinity.
pub open spec fn f64_is_infinite(bits: u64) -> bool {
    f64_abs_bits(bits) == 0x7FF0_0000_0000_0000
}

/// Whether the double with this bit pattern is a (possibly negative) zero.
pub open spec fn f64_is_zero(bits: u64) -> bool {
    f64_abs_bits(bits) == 0
}

/// The bit pattern of a single-precision float with its sign bit cleared.
pub open spec fn f32_abs_bits(bits: u32) -> u32 {
    bits & 0x7FFF_FFFF
}

/// Whether the single-precision float with this bit pattern is a NaN.
pub open spec fn f32_is_nan(bits: u32) -> bool {
    f32_abs_bits(bits) > 0x7F80_0000
}

/// Whether the single-precision float with this bit pattern is an infinity.
pub open spec fn f32_is_infinite(bits: u32) -> bool {
    f32_abs_bits(bits) == 0x7F80_0000
}

/// Whether the single-precision float with this bit pattern is a
/// (possibly negative) zero.
pub open spec fn f32_is_zero(bits: u32) -> bool {
    f32_abs_bits(bits) == 0
}

} // verus!

verus! {

/// `str_body` grows one character at a time.
pub proof fn lemma_str_body_take(s: Seq<char>, i: int)
    requires
        0 <= i < s.len(),
    ensures
        str_body(s.take(i + 1)) == str_body(s.take(i)) + char_piece(s[i]),
{
    assert(s.take(i + 1).drop_last() =~= s.take(i));
    assert(s.take(i + 1).last() == s[i]);
}

} // verus!
