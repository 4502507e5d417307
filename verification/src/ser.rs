//! The canonical formatter: a streaming visitor that receives one call per
//! JSON primitive or structural event, buffers object members until their
//! object closes, and emits strict minimal JSON with sorted members.

use vstd::prelude::*;
use vstd::utf8::encode_utf8;

use crate::encode::{can_escape, char_piece, dec_of, esc_seq, f32_is_infinite, f32_is_nan,
    f32_is_zero, f64_is_infinite, f64_is_nan, f64_is_zero, int_bytes, is_escaped,
    is_escaped_char, push_dec_u128, units_of, units_of_char};
use crate::entry::EntryModel;
use crate::error::{Error, NumberWidth};
use crate::object::{byte_units, can_write, close_key, in_key_state, obj_bytes, push_frame,
    push_key, wr, wr_sink, ObjectStack};

verus! {

/// The largest integer magnitude exactly representable in an IEEE-754
/// double: 2^53 - 1.
pub const MAX_SAFE_INTEGER_U64: u64 = 9007199254740991;

/// The safe-integer bound, as an `i64`.
pub const MAX_SAFE_INTEGER_I64: i64 = 9007199254740991;

/// The safe-integer bound, as a `u128`.
pub const MAX_SAFE_INTEGER_U128: u128 = 9007199254740991;

/// The safe-integer bound, as an `i128`.
pub const MAX_SAFE_INTEGER_I128: i128 = 9007199254740991;

/// The canonical rendering of `null`.
pub open spec fn null_bytes() -> Seq<u8> {
    seq![0x6Eu8, 0x75u8, 0x6Cu8, 0x6Cu8]
}

/// The canonical rendering of a boolean.
pub open spec fn bool_bytes(b: bool) -> Seq<u8> {
    if b {
        seq![0x74u8, 0x72u8, 0x75u8, 0x65u8]
    } else {
        seq![0x66u8, 0x61u8, 0x6Cu8, 0x73u8, 0x65u8]
    }
}

/// Renders a sign and a magnitude as decimal text.
fn render_int(neg: bool, mag: u128) -> (r: Vec<u8>)
    ensures
        neg ==> r@ == seq![0x2Du8] + dec_of(mag as nat),
        !neg ==> r@ == dec_of(mag as nat),
{
    let mut r: Vec<u8> = Vec::new();
    if neg {
        r.push(0x2D);
    }
    push_dec_u128(&mut r, mag);
    r
}

/// The streaming canonical formatter.
///
/// An external driver walks a value and calls one method per event, in
/// document order; the formatter only reacts. Writes are routed by the
/// scope rules of [`crate::object`]: straight to the sink at top level and
/// inside arrays, into the current member's buffers inside objects.
pub struct CanonicalFormatter {
    stack: ObjectStack,
}

impl View for CanonicalFormatter {
    type V = Seq<Seq<EntryModel>>;

    closed spec fn view(&self) -> Seq<Seq<EntryModel>> {
        self.stack@
    }
}

impl CanonicalFormatter {
    /// A formatter with no open objects.
    pub fn new() -> (r: Self)
        ensures
            r@ == Seq::<Seq<EntryModel>>::empty(),
    {
        CanonicalFormatter { stack: ObjectStack::new() }
    }

    /// Whether the next write would belong to an object key.
    pub fn is_in_key(&self) -> (r: bool)
        requires
            can_write(self@),
        ensures
            r == in_key_state(self@),
    {
        self.stack.is_in_key()
    }

    /// Writes `null` to the active scope.
    pub fn write_null(&mut self, sink: &mut Vec<u8>)
        requires
            can_write(old(self)@),
        ensures
            final(self)@ == wr(old(self)@, null_bytes(), Seq::empty()),
            final(sink)@ == wr_sink(old(self)@, old(sink)@, null_bytes()),
    {
        let mut t: Vec<u8> = Vec::new();
        t.push(0x6E);
        t.push(0x75);
        t.push(0x6C);
        t.push(0x6C);
        proof {
            assert(t@ =~= null_bytes());
        }
        self.stack.scope_write(sink, t.as_slice());
    }

    /// Writes `true` or `false` to the active scope.
    pub fn write_bool(&mut self, sink: &mut Vec<u8>, value: bool)
        requires
            can_write(old(self)@),
        ensures
            final(self)@ == wr(old(self)@, bool_bytes(value), Seq::empty()),
            final(sink)@ == wr_sink(old(self)@, old(sink)@, bool_bytes(value)),
    {
        let mut t: Vec<u8> = Vec::new();
        if value {
            t.push(0x74);
            t.push(0x72);
            t.push(0x75);
            t.push(0x65);
        } else {
            t.push(0x66);
            t.push(0x61);
            t.push(0x6C);
            t.push(0x73);
            t.push(0x65);
        }
        proof {
            assert(t@ =~= bool_bytes(value));
        }
        self.stack.scope_write(sink, t.as_slice());
    }

    /// Writes decimal digits to the active scope; inside a key the same
    /// text also extends the key's comparison units.
    fn write_int(&mut self, sink: &mut Vec<u8>, neg: bool, mag: u128)
        requires
            can_write(old(self)@),
        ensures
            ({
                let t = if neg {
                    seq![0x2Du8] + dec_of(mag as nat)
                } else {
                    dec_of(mag as nat)
                };
                final(self)@ == wr(old(self)@, t, byte_units(t)) && final(sink)@ == wr_sink(
                    old(self)@,
                    old(sink)@,
                    t,
                )
            }),
    {
        let t = render_int(neg, mag);
        self.stack.scope_write_with_key_ascii(sink, &t);
    }

    /// Writes an 8-bit signed integer value; always within the safe range.
    pub fn write_i8(&mut self, sink: &mut Vec<u8>, value: i8)
        requires
            can_write(old(self)@),
        ensures
            final(self)@ == wr(old(self)@, int_bytes(value as int), byte_units(
                int_bytes(value as int),
            )),
            final(sink)@ == wr_sink(old(self)@, old(sink)@, int_bytes(value as int)),
    {
        let neg = value < 0;
        let mag: u128 = if neg {
            (-(value as i32)) as u128
        } else {
            value as u128
        };
        self.write_int(sink, neg, mag);
    }

    /// Writes a 16-bit signed integer value; always within the safe range.
    pub fn write_i16(&mut self, sink: &mut Vec<u8>, value: i16)
        requires
            can_write(old(self)@),
        ensures
            final(self)@ == wr(old(self)@, int_bytes(value as int), byte_units(
                int_bytes(value as int),
            )),
            final(sink)@ == wr_sink(old(self)@, old(sink)@, int_bytes(value as int)),
    {
        let neg = value < 0;
        let mag: u128 = if neg {
            (-(value as i32)) as u128
        } else {
            value as u128
        };
        self.write_int(sink, neg, mag);
    }

    /// Writes a 32-bit signed integer value; always within the safe range.
    pub fn write_i32(&mut self, sink: &mut Vec<u8>, value: i32)
        requires
            can_write(old(self)@),
        ensures
            final(self)@ == wr(old(self)@, int_bytes(value as int), byte_units(
                int_bytes(value as int),
            )),
            final(sink)@ == wr_sink(old(self)@, old(sink)@, int_bytes(value as int)),
    {
        let neg = value < 0;
        let mag: u128 = if neg {
            (-(value as i64)) as u128
        } else {
            value as u128
        };
        self.write_int(sink, neg, mag);
    }

    /// Writes an 8-bit unsigned integer value; always within the safe range.
    pub fn write_u8(&mut self, sink: &mut Vec<u8>, value: u8)
        requires
            can_write(old(self)@),
        ensures
            final(self)@ == wr(old(self)@, int_bytes(value as int), byte_units(
                int_bytes(value as int),
            )),
            final(sink)@ == wr_sink(old(self)@, old(sink)@, int_bytes(value as int)),
    {
        self.write_int(sink, false, value as u128);
    }

    /// Writes a 16-bit unsigned integer value; always within the safe range.
    pub fn write_u16(&mut self, sink: &mut Vec<u8>, value: u16)
        requires
            can_write(old(self)@),
        ensures
            final(self)@ == wr(old(self)@, int_bytes(value as int), byte_units(
                int_bytes(value as int),
            )),
            final(sink)@ == wr_sink(old(self)@, old(sink)@, int_bytes(value as int)),
    {
        self.write_int(sink, false, value as u128);
    }

    /// Writes a 32-bit unsigned integer value; always within the safe range.
    pub fn write_u32(&mut self, sink: &mut Vec<u8>, value: u32)
        requires
            can_write(old(self)@),
        ensures
            final(self)@ == wr(old(self)@, int_bytes(value as int), byte_units(
                int_bytes(value as int),
            )),
            final(sink)@ == wr_sink(old(self)@, old(sink)@, int_bytes(value as int)),
    {
        self.write_int(sink, false, value as u128);
    }

    /// Writes a 64-bit signed integer. Used as a JSON value, a magnitude
    /// beyond 2^53 - 1 is rejected; used as a key it always renders.
    pub fn write_i64(&mut self, sink: &mut Vec<u8>, value: i64) -> (r: Result<(), Error>)
        requires
            can_write(old(self)@),
        ensures
            ({
                let st = old(self)@;
                if !in_key_state(st) && (value > MAX_SAFE_INTEGER_I64 || value
                    < -MAX_SAFE_INTEGER_I64) {
                    r == Err::<(), Error>(
                        (Error::IntegerOutOfSafeRange { width: NumberWidth::I64 }),
                    ) && final(self)@ == st && final(sink)@ == old(sink)@
                } else {
                    r == Ok::<(), Error>(()) && final(self)@ == wr(
                        st,
                        int_bytes(value as int),
                        byte_units(int_bytes(value as int)),
                    ) && final(sink)@ == wr_sink(st, old(sink)@, int_bytes(value as int))
                }
            }),
    {
        if !self.is_in_key() && (value > MAX_SAFE_INTEGER_I64 || value < -MAX_SAFE_INTEGER_I64) {
            Err(Error::IntegerOutOfSafeRange { width: NumberWidth::I64 })
        } else {
            let neg = value < 0;
            let mag: u128 = if neg {
                (-(value as i128)) as u128
            } else {
                value as u128
            };
            self.write_int(sink, neg, mag);
            Ok(())
        }
    }

    /// Writes a 128-bit signed integer. Used as a JSON value, a magnitude
    /// beyond 2^53 - 1 is rejected; used as a key it always renders.
    pub fn write_i128(&mut self, sink: &mut Vec<u8>, value: i128) -> (r: Result<(), Error>)
        requires
            can_write(old(self)@),
        ensures
            ({
                let st = old(self)@;
                if !in_key_state(st) && (value > MAX_SAFE_INTEGER_I128 || value
                    < -MAX_SAFE_INTEGER_I128) {
                    r == Err::<(), Error>(
                        (Error::IntegerOutOfSafeRange { width: NumberWidth::I128 }),
                    ) && final(self)@ == st && final(sink)@ == old(sink)@
                } else {
                    r == Ok::<(), Error>(()) && final(self)@ == wr(
                        st,
                        int_bytes(value as int),
                        byte_units(int_bytes(value as int)),
                    ) && final(sink)@ == wr_sink(st, old(sink)@, int_bytes(value as int))
                }
            }),
    {
        if !self.is_in_key() && (value > MAX_SAFE_INTEGER_I128 || value < -MAX_SAFE_INTEGER_I128) {
            Err(Error::IntegerOutOfSafeRange { width: NumberWidth::I128 })
        } else {
            let neg = value < 0;
            let mag: u128 = if value == i128::MIN {
                170141183460469231731687303715884105728u128
            } else if neg {
                (-value) as u128
            } else {
                value as u128
            };
            self.write_int(sink, neg, mag);
            Ok(())
        }
    }

    /// Writes a 64-bit unsigned integer. Used as a JSON value, a magnitude
    /// beyond 2^53 - 1 is rejected; used as a key it always renders.
    pub fn write_u64(&mut self, sink: &mut Vec<u8>, value: u64) -> (r: Result<(), Error>)
        requires
            can_write(old(self)@),
        ensures
            ({
                let st = old(self)@;
                if !in_key_state(st) && value > MAX_SAFE_INTEGER_U64 {
                    r == Err::<(), Error>(
                        (Error::IntegerOutOfSafeRange { width: NumberWidth::U64 }),
                    ) && final(self)@ == st && final(sink)@ == old(sink)@
                } else {
                    r == Ok::<(), Error>(()) && final(self)@ == wr(
                        st,
                        int_bytes(value as int),
                        byte_units(int_bytes(value as int)),
                    ) && final(sink)@ == wr_sink(st, old(sink)@, int_bytes(value as int))
                }
            }),
    {
        if !self.is_in_key() && value > MAX_SAFE_INTEGER_U64 {
            Err(Error::IntegerOutOfSafeRange { width: NumberWidth::U64 })
        } else {
            self.write_int(sink, false, value as u128);
            Ok(())
        }
    }

    /// Writes a 128-bit unsigned integer. Used as a JSON value, a magnitude
    /// beyond 2^53 - 1 is rejected; used as a key it always renders.
    pub fn write_u128(&mut self, sink: &mut Vec<u8>, value: u128) -> (r: Result<(), Error>)
        requires
            can_write(old(self)@),
        ensures
            ({
                let st = old(self)@;
                if !in_key_state(st) && value > MAX_SAFE_INTEGER_U128 {
                    r == Err::<(), Error>(
                        (Error::IntegerOutOfSafeRange { width: NumberWidth::U128 }),
                    ) && final(self)@ == st && final(sink)@ == old(sink)@
                } else {
                    r == Ok::<(), Error>(()) && final(self)@ == wr(
                        st,
                        int_bytes(value as int),
                        byte_units(int_bytes(value as int)),
                    ) && final(sink)@ == wr_sink(st, old(sink)@, int_bytes(value as int))
                }
            }),
    {
        if !self.is_in_key() && value > MAX_SAFE_INTEGER_U128 {
            Err(Error::IntegerOutOfSafeRange { width: NumberWidth::U128 })
        } else {
            self.write_int(sink, false, value);
            Ok(())
        }
    }

    /// Writes a double given by its bit pattern. NaN and infinities are
    /// fatal; both zeros render as `0`; any other value renders as the
    /// caller-supplied shortest round-trip text (the ECMAScript
    /// number-to-string form, which only a floating-point library can
    /// compute).
    pub fn write_f64(&mut self, sink: &mut Vec<u8>, bits: u64, finite_text: &str) -> (r: Result<
        (),
        Error,
    >)
        requires
            can_write(old(self)@),
        ensures
            ({
                let st = old(self)@;
                if f64_is_nan(bits) {
                    r == Err::<(), Error>((Error::NonFiniteNumber { infinite: false }))
                        && final(self)@ == st && final(sink)@ == old(sink)@
                } else if f64_is_infinite(bits) {
                    r == Err::<(), Error>((Error::NonFiniteNumber { infinite: true }))
                        && final(self)@ == st && final(sink)@ == old(sink)@
                } else if f64_is_zero(bits) {
                    r == Ok::<(), Error>(()) && final(self)@ == wr(
                        st,
                        seq![0x30u8],
                        byte_units(seq![0x30u8]),
                    ) && final(sink)@ == wr_sink(st, old(sink)@, seq![0x30u8])
                } else {
                    r == Ok::<(), Error>(()) && final(self)@ == wr(
                        st,
                        encode_utf8(finite_text@),
                        units_of(finite_text@),
                    ) && final(sink)@ == wr_sink(st, old(sink)@, encode_utf8(finite_text@))
                }
            }),
    {
        let abs = bits & 0x7FFF_FFFF_FFFF_FFFF;
        if abs > 0x7FF0_0000_0000_0000 {
            Err(Error::NonFiniteNumber { infinite: false })
        } else if abs == 0x7FF0_0000_0000_0000 {
            Err(Error::NonFiniteNumber { infinite: true })
        } else if abs == 0 {
            let mut t: Vec<u8> = Vec::new();
            t.push(0x30);
            proof {
                assert(t@ =~= seq![0x30u8]);
            }
            self.stack.scope_write_with_key_ascii(sink, &t);
            Ok(())
        } else {
            self.stack.scope_write_with_key_str(sink, finite_text);
            Ok(())
        }
    }

    /// Writes a single-precision float given by its bit pattern, under the
    /// same rules as [`Self::write_f64`].
    pub fn write_f32(&mut self, sink: &mut Vec<u8>, bits: u32, finite_text: &str) -> (r: Result<
        (),
        Error,
    >)
        requires
            can_write(old(self)@),
        ensures
            ({
                let st = old(self)@;
                if f32_is_nan(bits) {
                    r == Err::<(), Error>((Error::NonFiniteNumber { infinite: false }))
                        && final(self)@ == st && final(sink)@ == old(sink)@
                } else if f32_is_infinite(bits) {
                    r == Err::<(), Error>((Error::NonFiniteNumber { infinite: true }))
                        && final(self)@ == st && final(sink)@ == old(sink)@
                } else if f32_is_zero(bits) {
                    r == Ok::<(), Error>(()) && final(self)@ == wr(
                        st,
                        seq![0x30u8],
                        byte_units(seq![0x30u8]),
                    ) && final(sink)@ == wr_sink(st, old(sink)@, seq![0x30u8])
                } else {
                    r == Ok::<(), Error>(()) && final(self)@ == wr(
                        st,
                        encode_utf8(finite_text@),
                        units_of(finite_text@),
                    ) && final(sink)@ == wr_sink(st, old(sink)@, encode_utf8(finite_text@))
                }
            }),
    {
        let abs = bits & 0x7FFF_FFFF;
        if abs > 0x7F80_0000 {
            Err(Error::NonFiniteNumber { infinite: false })
        } else if abs == 0x7F80_0000 {
            Err(Error::NonFiniteNumber { infinite: true })
        } else if abs == 0 {
            let mut t: Vec<u8> = Vec::new();
            t.push(0x30);
            proof {
                assert(t@ =~= seq![0x30u8]);
            }
            self.stack.scope_write_with_key_ascii(sink, &t);
            Ok(())
        } else {
            self.stack.scope_write_with_key_str(sink, finite_text);
            Ok(())
        }
    }

    /// Writes a number that has already been rendered to text.
    pub fn write_number_str(&mut self, sink: &mut Vec<u8>, value: &str)
        requires
            can_write(old(self)@),
        ensures
            final(self)@ == wr(old(self)@, encode_utf8(value@), units_of(value@)),
            final(sink)@ == wr_sink(old(self)@, old(sink)@, encode_utf8(value@)),
    {
        self.stack.scope_write_with_key_str(sink, value);
    }

    /// Opens a string: writes the opening quote, which never belongs to the
    /// key's comparison text.
    pub fn begin_string(&mut self, sink: &mut Vec<u8>)
        requires
            can_write(old(self)@),
        ensures
            final(self)@ == wr(old(self)@, seq![0x22u8], Seq::empty()),
            final(sink)@ == wr_sink(old(self)@, old(sink)@, seq![0x22u8]),
    {
        let mut t: Vec<u8> = Vec::new();
        t.push(0x22);
        proof {
            assert(t@ =~= seq![0x22u8]);
        }
        self.stack.scope_write(sink, t.as_slice());
    }

    /// Closes a string: writes the closing quote.
    pub fn end_string(&mut self, sink: &mut Vec<u8>)
        requires
            can_write(old(self)@),
        ensures
            final(self)@ == wr(old(self)@, seq![0x22u8], Seq::empty()),
            final(sink)@ == wr_sink(old(self)@, old(sink)@, seq![0x22u8]),
    {
        self.begin_string(sink);
    }

    /// Writes a string fragment that needs no escaping.
    pub fn write_string_fragment(&mut self, sink: &mut Vec<u8>, fragment: &str)
        requires
            can_write(old(self)@),
        ensures
            final(self)@ == wr(old(self)@, encode_utf8(fragment@), units_of(fragment@)),
            final(sink)@ == wr_sink(old(self)@, old(sink)@, encode_utf8(fragment@)),
    {
        self.stack.scope_write_with_key_str(sink, fragment);
    }

    /// Writes the canonical escape sequence for `c`, while the key's
    /// comparison text receives the unescaped character itself.
    pub fn write_char_escape(&mut self, sink: &mut Vec<u8>, c: char)
        requires
            can_write(old(self)@),
            can_escape(c),
        ensures
            final(self)@ == wr(old(self)@, esc_seq(c), units_of_char(c)),
            final(sink)@ == wr_sink(old(self)@, old(sink)@, esc_seq(c)),
    {
        self.stack.scope_write_escape(sink, c);
    }

    /// Streams one character of a string body through the canonical escape
    /// table: escaped if the table demands it, plain UTF-8 otherwise.
    pub fn write_string_char(&mut self, sink: &mut Vec<u8>, c: char)
        requires
            can_write(old(self)@),
        ensures
            final(self)@ == wr(old(self)@, char_piece(c), units_of_char(c)),
            final(sink)@ == wr_sink(old(self)@, old(sink)@, char_piece(c)),
    {
        if is_escaped_char(c) {
            self.stack.scope_write_escape(sink, c);
        } else {
            self.stack.scope_write_with_key_char(sink, c);
        }
    }

    /// Opens an array: a plain `[` in the active scope. Arrays hold no
    /// buffering state of their own.
    pub fn begin_array(&mut self, sink: &mut Vec<u8>)
        requires
            can_write(old(self)@),
        ensures
            final(self)@ == wr(old(self)@, seq![0x5Bu8], Seq::empty()),
            final(sink)@ == wr_sink(old(self)@, old(sink)@, seq![0x5Bu8]),
    {
        let mut t: Vec<u8> = Vec::new();
        t.push(0x5B);
        proof {
            assert(t@ =~= seq![0x5Bu8]);
        }
        self.stack.scope_write(sink, t.as_slice());
    }

    /// Closes an array: a plain `]` in the active scope.
    pub fn end_array(&mut self, sink: &mut Vec<u8>)
        requires
            can_write(old(self)@),
        ensures
            final(self)@ == wr(old(self)@, seq![0x5Du8], Seq::empty()),
            final(sink)@ == wr_sink(old(self)@, old(sink)@, seq![0x5Du8]),
    {
        let mut t: Vec<u8> = Vec::new();
        t.push(0x5D);
        proof {
            assert(t@ =~= seq![0x5Du8]);
        }
        self.stack.scope_write(sink, t.as_slice());
    }

    /// Separates array elements: a comma before every element but the first.
    pub fn begin_array_value(&mut self, sink: &mut Vec<u8>, first: bool)
        requires
            can_write(old(self)@),
        ensures
            ({
                let sep: Seq<u8> = if first {
                    Seq::empty()
                } else {
                    seq![0x2Cu8]
                };
                final(self)@ == wr(old(self)@, sep, Seq::empty()) && final(sink)@ == wr_sink(
                    old(self)@,
                    old(sink)@,
                    sep,
                )
            }),
    {
        if first {
            proof {
                crate::object::lemma_wr_empty(old(self)@, old(sink)@);
            }
        } else {
            let mut t: Vec<u8> = Vec::new();
            t.push(0x2C);
            proof {
                assert(t@ =~= seq![0x2Cu8]);
            }
            self.stack.scope_write(sink, t.as_slice());
        }
    }

    /// Ends an array element; nothing is written.
    pub fn end_array_value(&mut self, _sink: &mut Vec<u8>)
        ensures
            final(self)@ == old(self)@,
            final(_sink)@ == old(_sink)@,
    {
    }

    /// Opens an object: pushes a fresh frame; nothing is written until the
    /// object closes.
    pub fn begin_object(&mut self, _sink: &mut Vec<u8>)
        ensures
            final(self)@ == push_frame(old(self)@),
            final(_sink)@ == old(_sink)@,
    {
        self.stack.start_object();
    }

    /// Closes an object: pops its frame, sorts and renders the buffered
    /// members, and routes the rendered text to the enclosing scope.
    pub fn end_object(&mut self, sink: &mut Vec<u8>)
        requires
            old(self)@.len() > 0,
            old(self)@.len() > 1 ==> old(self)@[old(self)@.len() - 2].len() > 0,
        ensures
            final(self)@ == wr(old(self)@.drop_last(), obj_bytes(old(self)@.last()), Seq::empty()),
            final(sink)@ == wr_sink(
                old(self)@.drop_last(),
                old(sink)@,
                obj_bytes(old(self)@.last()),
            ),
    {
        self.stack.end_object(sink);
    }

    /// Begins an object member: a fresh entry whose key is open. The
    /// `first` flag is ignored; separators are decided when the object
    /// closes and its members are sorted.
    pub fn begin_object_key(&mut self, _sink: &mut Vec<u8>, _first: bool)
        requires
            old(self)@.len() > 0,
        ensures
            final(self)@ == push_key(old(self)@),
            final(_sink)@ == old(_sink)@,
    {
        self.stack.start_key();
    }

    /// Ends an object member's key: writes now fill the member's value.
    pub fn end_object_key(&mut self, _sink: &mut Vec<u8>)
        requires
            old(self)@.len() > 0,
            old(self)@.last().len() > 0,
        ensures
            final(self)@ == close_key(old(self)@),
            final(_sink)@ == old(_sink)@,
    {
        self.stack.end_key();
    }

    /// Begins an object member's value; nothing is written.
    pub fn begin_object_value(&mut self, _sink: &mut Vec<u8>)
        ensures
            final(self)@ == old(self)@,
            final(_sink)@ == old(_sink)@,
    {
    }

    /// Ends an object member's value; nothing is written.
    pub fn end_object_value(&mut self, _sink: &mut Vec<u8>)
        ensures
            final(self)@ == old(self)@,
            final(_sink)@ == old(_sink)@,
    {
    }

    /// Writes pre-rendered JSON text into the active scope unchanged. The
    /// driver is responsible for re-parsing raw text and re-serializing it
    /// through the other methods when canonical form must be enforced.
    pub fn write_raw_fragment(&mut self, sink: &mut Vec<u8>, fragment: &str)
        requires
            can_write(old(self)@),
        ensures
            final(self)@ == wr(old(self)@, encode_utf8(fragment@), units_of(fragment@)),
            final(sink)@ == wr_sink(old(self)@, old(sink)@, encode_utf8(fragment@)),
    {
        self.stack.scope_write_with_key_str(sink, fragment);
    }
}

} // verus!
