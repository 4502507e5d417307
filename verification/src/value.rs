//! The value tree and the canonicalization entry points: a JSON value, the
//! specification of its unique canonical byte encoding, and the driver that
//! walks a value through the streaming formatter and provably produces
//! exactly that encoding.

use vstd::prelude::*;
use vstd::utf8::{decode_utf8, encode_utf8, valid_utf8};
use vstd::string::StrSliceExecFns;

use crate::encode::{f64_is_infinite, f64_is_nan, f64_is_zero, int_bytes, str_bytes, str_body,
    units_of, lemma_str_body_take};
use crate::entry::EntryModel;
use crate::error::{Error, NumberWidth};
use crate::object::{can_write, in_value_scope, lemma_units_of_take, lemma_wr_compose,
    lemma_wr_shape, lemma_wr_value_units, obj_bytes, push_key, wr, wr_sink};
use crate::ser::{bool_bytes, null_bytes, CanonicalFormatter, MAX_SAFE_INTEGER_I64};

verus! {

/// A JSON value.
///
/// A double is carried as its IEEE-754 bit pattern together with its
/// shortest round-trip decimal text (the ECMAScript number-to-string form),
/// which only a floating-point library can compute and which the
/// canonicalizer therefore takes as given; the canonicalizer itself decides
/// the class of the bits, rejects NaN and infinities, and renders both
/// zeros as `0` without consulting the text.
///
/// Object members are kept in creation order; the canonical form sorts them
/// by UTF-16 code units and lets the last write to a key win.
#[derive(Debug)]
pub enum Value {
    Null,
    Bool(bool),
    Int(i64),
    Float { bits: u64, text: String },
    Str(String),
    Array(Vec<Value>),
    Object(Vec<(String, Value)>),
}

/// The member model that canonicalizing a key/value pair builds: the key's
/// units and quoted text, the value's rendered bytes.
pub open spec fn entry_model_of(k: Seq<char>, v: Value) -> EntryModel
    decreases v, 1nat,
{
    EntryModel {
        raw_key: units_of(k),
        key_out: str_bytes(k),
        value_out: canon(v),
        in_key: false,
    }
}

/// The canonical byte encoding of a value. For values that cannot be
/// encoded (a NaN or infinite double, an integer outside the safe range
/// somewhere inside), see [`first_err`]; this function then has no claim to
/// make.
pub open spec fn canon(v: Value) -> Seq<u8>
    decreases v, 0nat,
{
    match v {
        Value::Null => null_bytes(),
        Value::Bool(b) => bool_bytes(b),
        Value::Int(i) => int_bytes(i as int),
        Value::Float { bits, text } => if f64_is_zero(bits) {
            seq![0x30u8]
        } else {
            encode_utf8(text@)
        },
        Value::Str(s) => str_bytes(s@),
        Value::Array(vs) => seq![0x5Bu8] + arr_join(vs@) + seq![0x5Du8],
        Value::Object(es) => obj_bytes(obj_models(es@)),
    }
}

/// The canonical renderings of array elements, joined by commas.
pub open spec fn arr_join(vs: Seq<Value>) -> Seq<u8>
    decreases vs, 0nat,
{
    if vs.len() == 0 {
        Seq::empty()
    } else if vs.len() == 1 {
        canon(vs[0])
    } else {
        arr_join(vs.drop_last()) + seq![0x2Cu8] + canon(vs.last())
    }
}

/// The member models of an object's pairs, in creation order.
pub open spec fn obj_models(es: Seq<(String, Value)>) -> Seq<EntryModel>
    decreases es, 0nat,
{
    if es.len() == 0 {
        Seq::empty()
    } else {
        obj_models(es.drop_last()).push(entry_model_of(es.last().0@, es.last().1))
    }
}

/// The first error that canonicalizing this value meets, walking the tree
/// in document order, or `None` when the whole value is encodable.
pub open spec fn first_err(v: Value) -> Option<Error>
    decreases v,
{
    match v {
        Value::Int(i) => if i > MAX_SAFE_INTEGER_I64 || i < -MAX_SAFE_INTEGER_I64 {
            Some(Error::IntegerOutOfSafeRange { width: NumberWidth::I64 })
        } else {
            None
        },
        Value::Float { bits, text } => if f64_is_nan(bits) {
            Some(Error::NonFiniteNumber { infinite: false })
        } else if f64_is_infinite(bits) {
            Some(Error::NonFiniteNumber { infinite: true })
        } else {
            None
        },
        Value::Array(vs) => arr_err(vs@),
        Value::Object(es) => objs_err(es@),
        _ => None,
    }
}

/// The first error among array elements, front first.
pub open spec fn arr_err(vs: Seq<Value>) -> Option<Error>
    decreases vs,
{
    if vs.len() == 0 {
        None
    } else if first_err(vs.first()) is Some {
        first_err(vs.first())
    } else {
        arr_err(vs.drop_first())
    }
}

/// The first error among object member values, in creation order. Keys are
/// strings and never fail.
pub open spec fn objs_err(es: Seq<(String, Value)>) -> Option<Error>
    decreases es,
{
    if es.len() == 0 {
        None
    } else if first_err(es.first().1) is Some {
        first_err(es.first().1)
    } else {
        objs_err(es.drop_first())
    }
}

/// `arr_join` grows one element at a time.
proof fn lemma_arr_join_take(vs: Seq<Value>, i: int)
    requires
        0 <= i < vs.len(),
    ensures
        i == 0 ==> arr_join(vs.take(1)) == canon(vs[0]),
        i > 0 ==> arr_join(vs.take(i + 1)) == arr_join(vs.take(i)) + seq![0x2Cu8] + canon(vs[i]),
{
    assert(vs.take(i + 1).drop_last() =~= vs.take(i));
    assert(vs.take(i + 1).last() == vs[i]);
    if i == 0 {
        assert(arr_join(vs.take(1)) == canon(vs.take(1)[0]));
    }
}

/// `obj_models` grows one member at a time.
proof fn lemma_obj_models_take(es: Seq<(String, Value)>, i: int)
    requires
        0 <= i < es.len(),
    ensures
        obj_models(es.take(i + 1)) == obj_models(es.take(i)).push(
            entry_model_of(es[i].0@, es[i].1),
        ),
{
    assert(es.take(i + 1).drop_last() =~= es.take(i));
    assert(es.take(i + 1).last() == es[i]);
}

/// Skipping error-free elements does not change the first array error.
proof fn lemma_arr_err_skip(vs: Seq<Value>, i: int)
    requires
        0 <= i <= vs.len(),
        forall|k: int| 0 <= k < i ==> first_err(vs[k]) is None,
    ensures
        arr_err(vs) == arr_err(vs.skip(i)),
    decreases i,
{
    if i == 0 {
        assert(vs.skip(0) =~= vs);
    } else {
        assert(first_err(vs.first()) is None);
        lemma_arr_err_skip(vs.drop_first(), i - 1);
        assert(vs.drop_first().skip(i - 1) =~= vs.skip(i));
    }
}

/// Skipping error-free members does not change the first object error.
proof fn lemma_objs_err_skip(es: Seq<(String, Value)>, i: int)
    requires
        0 <= i <= es.len(),
        forall|k: int| 0 <= k < i ==> first_err(es[k].1) is None,
    ensures
        objs_err(es) == objs_err(es.skip(i)),
    decreases i,
{
    if i == 0 {
        assert(es.skip(0) =~= es);
    } else {
        assert(first_err(es.first().1) is None);
        lemma_objs_err_skip(es.drop_first(), i - 1);
        assert(es.drop_first().skip(i - 1) =~= es.skip(i));
    }
}

/// The member model a finished key leaves behind: units and quoted text
/// filled in, value still empty.
pub open spec fn key_entry(k: Seq<char>) -> EntryModel {
    EntryModel {
        raw_key: units_of(k),
        key_out: str_bytes(k),
        value_out: Seq::empty(),
        in_key: false,
    }
}

/// Streams a whole string value through the formatter: opening quote, every
/// character through the escape table, closing quote.
pub fn write_str_value(fmt: &mut CanonicalFormatter, sink: &mut Vec<u8>, s: &str)
    requires
        can_write(old(fmt)@),
    ensures
        final(fmt)@ == wr(old(fmt)@, str_bytes(s@), units_of(s@)),
        final(sink)@ == wr_sink(old(fmt)@, old(sink)@, str_bytes(s@)),
{
    let ghost st = old(fmt)@;
    let ghost sk = old(sink)@;
    fmt.begin_string(sink);
    proof {
        assert(seq![0x22u8] + str_body(s@.take(0)) =~= seq![0x22u8]);
        assert(units_of(s@.take(0)) =~= Seq::<u16>::empty());
    }
    let n = s.unicode_len();
    let mut i: usize = 0;
    while i < n
        invariant
            n == s@.len(),
            i <= n,
            can_write(st),
            fmt@ == wr(st, seq![0x22u8] + str_body(s@.take(i as int)), units_of(
                s@.take(i as int),
            )),
            sink@ == wr_sink(st, sk, seq![0x22u8] + str_body(s@.take(i as int))),
        decreases n - i,
    {
        let ghost t_pre = seq![0x22u8] + str_body(s@.take(i as int));
        let ghost u_pre = units_of(s@.take(i as int));
        proof {
            lemma_wr_shape(st, t_pre, u_pre);
        }
        let c = s.get_char(i);
        fmt.write_string_char(sink, c);
        proof {
            lemma_wr_compose(st, sk, t_pre, u_pre, crate::encode::char_piece(c),
                crate::encode::units_of_char(c));
            lemma_str_body_take(s@, i as int);
            lemma_units_of_take(s@, i as int);
            assert(t_pre + crate::encode::char_piece(c) =~= seq![0x22u8] + str_body(
                s@.take(i + 1),
            ));
        }
        i = i + 1;
    }
    let ghost t_body = seq![0x22u8] + str_body(s@.take(n as int));
    let ghost u_body = units_of(s@.take(n as int));
    proof {
        lemma_wr_shape(st, t_body, u_body);
    }
    fmt.end_string(sink);
    proof {
        lemma_wr_compose(st, sk, t_body, u_body, seq![0x22u8], Seq::empty());
        assert(s@.take(n as int) =~= s@);
        assert(t_body + seq![0x22u8] =~= str_bytes(s@));
        assert(u_body + Seq::<u16>::empty() =~= units_of(s@));
    }
}

/// Writes one object member's key: begins the member, streams the key text
/// as a string, and closes the key. The enclosing frame gains one finished
/// key entry; nothing reaches the sink.
fn write_key(fmt: &mut CanonicalFormatter, sink: &mut Vec<u8>, s: &str, first: bool)
    requires
        old(fmt)@.len() > 0,
    ensures
        final(fmt)@ == old(fmt)@.update(
            old(fmt)@.len() - 1,
            old(fmt)@.last().push(key_entry(s@)),
        ),
        final(sink)@ == old(sink)@,
{
    let ghost st = old(fmt)@;
    fmt.begin_object_key(sink, first);
    write_str_value(fmt, sink, s);
    proof {
        lemma_wr_shape(push_key(st), str_bytes(s@), units_of(s@));
    }
    fmt.end_object_key(sink);
    proof {
        assert(final(fmt)@ =~~= st.update(st.len() - 1, st.last().push(key_entry(s@))));
    }
}

/// Serializes one value through the formatter. In a value position the net
/// effect is exactly one routed write of the value's canonical bytes; on
/// the first error the call stops and reports it, and any partial output is
/// void.
#[verifier::loop_isolation(false)]
pub fn write_value(fmt: &mut CanonicalFormatter, sink: &mut Vec<u8>, v: &Value) -> (r: Result<
    (),
    Error,
>)
    requires
        in_value_scope(old(fmt)@),
    ensures
        ({
            let st = old(fmt)@;
            match r {
                Ok(u) => first_err(*v) is None && final(fmt)@ == wr(st, canon(*v), Seq::empty())
                    && final(sink)@ == wr_sink(st, old(sink)@, canon(*v)),
                Err(e) => first_err(*v) == Some(e),
            }
        }),
    decreases *v,
{
    let ghost st = old(fmt)@;
    let ghost sk = old(sink)@;
    match v {
        Value::Null => {
            fmt.write_null(sink);
            Ok(())
        },
        Value::Bool(b) => {
            fmt.write_bool(sink, *b);
            Ok(())
        },
        Value::Int(i) => {
            let r = fmt.write_i64(sink, *i);
            proof {
                if !(*i > MAX_SAFE_INTEGER_I64 || *i < -MAX_SAFE_INTEGER_I64) {
                    lemma_wr_value_units(st, int_bytes(*i as int), crate::object::byte_units(
                        int_bytes(*i as int),
                    ));
                }
            }
            r
        },
        Value::Float { bits, text } => {
            let r = fmt.write_f64(sink, *bits, text.as_str());
            proof {
                if !f64_is_nan(*bits) && !f64_is_infinite(*bits) {
                    if f64_is_zero(*bits) {
                        lemma_wr_value_units(st, seq![0x30u8], crate::object::byte_units(
                            seq![0x30u8],
                        ));
                    } else {
                        lemma_wr_value_units(st, encode_utf8(text@), units_of(text@));
                    }
                }
            }
            r
        },
        Value::Str(s) => {
            write_str_value(fmt, sink, s.as_str());
            proof {
                lemma_wr_value_units(st, str_bytes(s@), units_of(s@));
            }
            Ok(())
        },
        Value::Array(vs) => {
            fmt.begin_array(sink);
            proof {
                assert(seq![0x5Bu8] + arr_join(vs@.take(0)) =~= seq![0x5Bu8]);
            }
            let n = vs.len();
            let mut i: usize = 0;
            while i < n
                invariant
                    n == vs@.len(),
                    i <= n,
                    in_value_scope(st),
                    fmt@ == wr(st, seq![0x5Bu8] + arr_join(vs@.take(i as int)), Seq::empty()),
                    sink@ == wr_sink(st, sk, seq![0x5Bu8] + arr_join(vs@.take(i as int))),
                    forall|k: int| 0 <= k < i ==> first_err(vs@[k]) is None,
                decreases n - i,
            {
                let ghost t_pre = seq![0x5Bu8] + arr_join(vs@.take(i as int));
                proof {
                    lemma_wr_shape(st, t_pre, Seq::empty());
                }
                fmt.begin_array_value(sink, i == 0);
                let ghost sep: Seq<u8> = if i == 0 {
                    Seq::empty()
                } else {
                    seq![0x2Cu8]
                };
                proof {
                    lemma_wr_compose(st, sk, t_pre, Seq::empty(), sep, Seq::empty());
                    lemma_wr_shape(st, t_pre + sep, Seq::empty());
                }
                let res = write_value(fmt, sink, &vs[i]);
                match res {
                    Ok(u) => {},
                    Err(e) => {
                        proof {
                            lemma_arr_err_skip(vs@, i as int);
                            assert(vs@.skip(i as int).first() == vs@[i as int]);
                            assert(arr_err(vs@.skip(i as int)) == Some(e));
                            assert(first_err(*v) == arr_err(vs@));
                        }
                        return Err(e);
                    },
                }
                fmt.end_array_value(sink);
                proof {
                    lemma_wr_compose(st, sk, t_pre + sep, Seq::empty(), canon(vs@[i as int]),
                        Seq::empty());
                    lemma_arr_join_take(vs@, i as int);
                    assert((t_pre + sep) + canon(vs@[i as int]) =~= seq![0x5Bu8] + arr_join(
                        vs@.take(i + 1),
                    ));
                    assert((Seq::<u16>::empty() + Seq::<u16>::empty()) + Seq::<u16>::empty()
                        =~= Seq::<u16>::empty());
                }
                i = i + 1;
            }
            let ghost t_items = seq![0x5Bu8] + arr_join(vs@.take(n as int));
            proof {
                lemma_wr_shape(st, t_items, Seq::empty());
            }
            fmt.end_array(sink);
            proof {
                lemma_wr_compose(st, sk, t_items, Seq::empty(), seq![0x5Du8], Seq::empty());
                assert(vs@.take(n as int) =~= vs@);
                assert(t_items + seq![0x5Du8] =~= canon(*v));
                assert(Seq::<u16>::empty() + Seq::<u16>::empty() =~= Seq::<u16>::empty());
                lemma_arr_err_skip(vs@, n as int);
                assert(vs@.skip(n as int) =~= Seq::<Value>::empty());
            }
            Ok(())
        },
        Value::Object(es) => {
            fmt.begin_object(sink);
            proof {
                assert(obj_models(es@.take(0)) =~= Seq::<EntryModel>::empty());
                assert(fmt@ =~= st.push(obj_models(es@.take(0))));
            }
            let n = es.len();
            let mut i: usize = 0;
            while i < n
                invariant
                    n == es@.len(),
                    i <= n,
                    in_value_scope(st),
                    fmt@ == st.push(obj_models(es@.take(i as int))),
                    sink@ == sk,
                    forall|k: int| 0 <= k < i ==> first_err(es@[k].1) is None,
                decreases n - i,
            {
                let ghost models_i = obj_models(es@.take(i as int));
                let pair = &es[i];
                write_key(fmt, sink, pair.0.as_str(), i == 0);
                proof {
                    assert(fmt@ =~= st.push(models_i.push(key_entry(pair.0@))));
                    assert(in_value_scope(fmt@));
                }
                fmt.begin_object_value(sink);
                let res = write_value(fmt, sink, &pair.1);
                match res {
                    Ok(u) => {},
                    Err(e) => {
                        proof {
                            lemma_objs_err_skip(es@, i as int);
                            assert(es@.skip(i as int).first() == es@[i as int]);
                            assert(objs_err(es@.skip(i as int)) == Some(e));
                            assert(first_err(*v) == objs_err(es@));
                        }
                        return Err(e);
                    },
                }
                fmt.end_object_value(sink);
                proof {
                    lemma_obj_models_take(es@, i as int);
                    assert(fmt@ =~~= st.push(obj_models(es@.take(i + 1))));
                }
                i = i + 1;
            }
            proof {
                assert(es@.take(n as int) =~= es@);
                assert(fmt@.len() > 1 ==> fmt@[fmt@.len() - 2].len() > 0);
            }
            fmt.end_object(sink);
            proof {
                assert(st.push(obj_models(es@)).drop_last() =~= st);
                lemma_objs_err_skip(es@, n as int);
                assert(es@.skip(n as int) =~= Seq::<(String, Value)>::empty());
            }
            Ok(())
        },
    }
}

/// Relies on `String::from_utf8`: a vector of valid UTF-8 bytes becomes the
/// string those bytes spell.
#[verifier::external_body]
fn string_from_utf8(v: Vec<u8>) -> (r: String)
    ensures
        valid_utf8(v@) ==> r@ == decode_utf8(v@),
{
    match String::from_utf8(v) {
        Ok(s) => s,
        Err(_) => String::new(),
    }
}

/// Serializes the given value canonically into a caller-supplied byte
/// sink. On an error, bytes already appended are void and the sink should
/// be discarded or reset.
pub fn to_sink(sink: &mut Vec<u8>, value: &Value) -> (r: Result<(), Error>)
    ensures
        ({
            match r {
                Ok(u) => first_err(*value) is None && final(sink)@ == old(sink)@ + canon(*value),
                Err(e) => first_err(*value) == Some(e),
            }
        }),
{
    let mut fmt = CanonicalFormatter::new();
    write_value(&mut fmt, sink, value)
}

/// Serializes the given value as a canonical JSON byte vector.
pub fn to_vec(value: &Value) -> (r: Result<Vec<u8>, Error>)
    ensures
        ({
            match r {
                Ok(b) => first_err(*value) is None && b@ == canon(*value),
                Err(e) => first_err(*value) == Some(e),
            }
        }),
{
    let mut data: Vec<u8> = Vec::new();
    match to_sink(&mut data, value) {
        Ok(u) => {
            proof {
                assert(data@ =~= canon(*value));
            }
            Ok(data)
        },
        Err(e) => Err(e),
    }
}

/// Serializes the given value as a canonical JSON string: the text whose
/// UTF-8 encoding is the canonical byte encoding.
pub fn to_string(value: &Value) -> (r: Result<String, Error>)
    ensures
        ({
            match r {
                Ok(s) => first_err(*value) is None && s@ == decode_utf8(canon(*value))
                    && encode_utf8(s@) == canon(*value),
                Err(e) => first_err(*value) == Some(e),
            }
        }),
{
    match to_vec(value) {
        Ok(data) => {
            proof {
                crate::laws::lemma_canon_valid_utf8(*value);
                vstd::utf8::decode_utf8_encode_utf8(canon(*value));
            }
            Ok(string_from_utf8(data))
        },
        Err(e) => Err(e),
    }
}

} // verus!
