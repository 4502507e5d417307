//! Library-wide laws: facts about the canonical encoding that hold for
//! every value, proved once and usable by every caller.

use vstd::prelude::*;
use vstd::multiset::Multiset;
use vstd::utf8::{encode_scalar, encode_utf8, is_leading_byte_width_1, partial_valid_utf8,
    partial_valid_utf8_extend_ascii_block, valid_utf8, valid_utf8_concat, encode_utf8_valid_utf8};

use crate::encode::{char_piece, dec_of, esc_seq, hex_digit, int_bytes, is_escaped, str_body,
    str_bytes, f64_is_zero};
use crate::entry::EntryModel;
use crate::object::{dedup_keys, entry_item, frame_has_key, insert_sorted, join_items, obj_bytes,
    sort_entries};
use crate::ser::{bool_bytes, null_bytes};
use crate::value::{arr_join, canon, entry_model_of, obj_models, Value};

verus! {

// ---------------------------------------------------------------------------
// The canonical encoding is valid UTF-8
// ---------------------------------------------------------------------------

/// A run of ASCII bytes is valid UTF-8.
proof fn lemma_ascii_valid(s: Seq<u8>)
    requires
        forall|i: int| 0 <= i < s.len() ==> s[i] < 0x80,
    ensures
        valid_utf8(s),
{
    assert(forall|i: int| 0 <= i < s.len() ==> #[trigger] is_leading_byte_width_1(s[i]));
    assert(s.subrange(0, 0) =~= Seq::<u8>::empty());
    assert(partial_valid_utf8(s, 0));
    partial_valid_utf8_extend_ascii_block(s, 0, s.len() as int);
    assert(s.subrange(0, s.len() as int) =~= s);
}

/// Decimal digit strings are ASCII.
proof fn lemma_dec_of_ascii(n: nat)
    ensures
        forall|i: int| 0 <= i < dec_of(n).len() ==> dec_of(n)[i] < 0x80,
    decreases n,
{
    if n < 10 {
        assert(dec_of(n) =~= seq![crate::encode::dec_digit(n as int)]);
        assert(crate::encode::dec_digit(n as int) < 0x80);
    } else {
        lemma_dec_of_ascii(n / 10);
        assert(dec_of(n) == dec_of(n / 10).push(crate::encode::dec_digit((n % 10) as int)));
        assert(forall|i: int|
            0 <= i < dec_of(n).len() ==> dec_of(n)[i] == (if i < dec_of(n / 10).len() {
                dec_of(n / 10)[i]
            } else {
                crate::encode::dec_digit((n % 10) as int)
            }));
    }
}

/// Rendered integers are valid UTF-8.
proof fn lemma_int_bytes_valid(i: int)
    ensures
        valid_utf8(int_bytes(i)),
{
    if i < 0 {
        lemma_dec_of_ascii((-i) as nat);
        lemma_ascii_valid(int_bytes(i));
    } else {
        lemma_dec_of_ascii(i as nat);
        lemma_ascii_valid(int_bytes(i));
    }
}

/// Every piece a string body is made of is valid UTF-8.
proof fn lemma_char_piece_valid(c: char)
    ensures
        valid_utf8(char_piece(c)),
{
    if is_escaped(c) {
        let v = c as u32;
        assert(v < 0x20 || v == 0x22 || v == 0x5C);
        if !(v == 0x08 || v == 0x09 || v == 0x0A || v == 0x0C || v == 0x0D || v == 0x22 || v
            == 0x5C || v == 0x2F) {
            assert(((v >> 4) as u8) < 16 && ((v & 0xF) as u8) < 16) by (bit_vector)
                requires
                    v < 0x20,
            ;
            assert(hex_digit((v >> 4) as u8) < 0x80);
            assert(hex_digit((v & 0xF) as u8) < 0x80);
        }
        assert(forall|i: int| 0 <= i < esc_seq(c).len() ==> esc_seq(c)[i] < 0x80);
        lemma_ascii_valid(esc_seq(c));
    } else {
        encode_utf8_valid_utf8(seq![c]);
        assert(seq![c].drop_first() =~= Seq::<char>::empty());
        assert(encode_utf8(seq![c].drop_first()) =~= Seq::<u8>::empty());
        assert(seq![c][0] == c);
        assert(encode_utf8(seq![c]) =~= encode_scalar(c as u32));
    }
}

/// Escaped string bodies are valid UTF-8.
proof fn lemma_str_body_valid(s: Seq<char>)
    ensures
        valid_utf8(str_body(s)),
    decreases s.len(),
{
    if s.len() == 0 {
    } else {
        lemma_str_body_valid(s.drop_last());
        lemma_char_piece_valid(s.last());
        valid_utf8_concat(str_body(s.drop_last()), char_piece(s.last()));
    }
}

/// Quoted, escaped strings are valid UTF-8.
proof fn lemma_str_bytes_valid(s: Seq<char>)
    ensures
        valid_utf8(str_bytes(s)),
{
    lemma_str_body_valid(s);
    lemma_ascii_valid(seq![0x22u8]);
    valid_utf8_concat(seq![0x22u8], str_body(s));
    valid_utf8_concat(seq![0x22u8] + str_body(s), seq![0x22u8]);
}

/// Whether every member's rendered key and value are valid UTF-8.
spec fn entries_valid(s: Seq<EntryModel>) -> bool {
    forall|i: int|
        0 <= i < s.len() ==> valid_utf8(#[trigger] s[i].key_out) && valid_utf8(s[i].value_out)
}

/// Deduplication keeps only existing members.
proof fn lemma_dedup_valid(s: Seq<EntryModel>)
    requires
        entries_valid(s),
    ensures
        entries_valid(dedup_keys(s)),
    decreases s.len(),
{
    if s.len() == 0 {
    } else {
        assert(entries_valid(s.drop_first()));
        lemma_dedup_valid(s.drop_first());
        if !frame_has_key(s.drop_first(), s.first().raw_key) {
            let d = seq![s.first()] + dedup_keys(s.drop_first());
            assert(valid_utf8(s[0].key_out) && valid_utf8(s[0].value_out));
            assert(d[0] == s[0]);
            assert(forall|i: int|
                1 <= i < d.len() ==> d[i] == dedup_keys(s.drop_first())[i - 1]);
            assert(forall|i: int|
                0 <= i < d.len() ==> valid_utf8(#[trigger] d[i].key_out) && valid_utf8(
                    d[i].value_out,
                ));
            assert(dedup_keys(s) == d);
        }
    }
}

/// Insertion keeps only the inserted and existing members.
proof fn lemma_insert_valid(e: EntryModel, s: Seq<EntryModel>)
    requires
        valid_utf8(e.key_out),
        valid_utf8(e.value_out),
        entries_valid(s),
    ensures
        entries_valid(insert_sorted(e, s)),
    decreases s.len(),
{
    if s.len() == 0 {
        assert(entries_valid(seq![e]));
    } else if crate::object::units_lt(e.raw_key, s.first().raw_key) {
        assert(entries_valid(seq![e] + s));
    } else {
        assert(entries_valid(s.drop_first()));
        lemma_insert_valid(e, s.drop_first());
        let d = seq![s.first()] + insert_sorted(e, s.drop_first());
        assert(forall|i: int|
            0 <= i < d.len() ==> valid_utf8(#[trigger] d[i].key_out) && valid_utf8(
                d[i].value_out,
            ));
    }
}

/// Sorting keeps only existing members.
proof fn lemma_sort_valid(s: Seq<EntryModel>)
    requires
        entries_valid(s),
    ensures
        entries_valid(sort_entries(s)),
    decreases s.len(),
{
    if s.len() == 0 {
    } else {
        assert(entries_valid(s.drop_last()));
        lemma_sort_valid(s.drop_last());
        lemma_insert_valid(s.last(), sort_entries(s.drop_last()));
    }
}

/// Joined members are valid UTF-8.
proof fn lemma_join_items_valid(s: Seq<EntryModel>)
    requires
        entries_valid(s),
    ensures
        valid_utf8(join_items(s)),
    decreases s.len(),
{
    if s.len() == 0 {
    } else if s.len() == 1 {
        lemma_ascii_valid(seq![0x3Au8]);
        valid_utf8_concat(s[0].key_out, seq![0x3Au8]);
        valid_utf8_concat(s[0].key_out + seq![0x3Au8], s[0].value_out);
    } else {
        assert(entries_valid(s.drop_last()));
        lemma_join_items_valid(s.drop_last());
        lemma_ascii_valid(seq![0x2Cu8]);
        lemma_ascii_valid(seq![0x3Au8]);
        valid_utf8_concat(s.last().key_out, seq![0x3Au8]);
        valid_utf8_concat(s.last().key_out + seq![0x3Au8], s.last().value_out);
        valid_utf8_concat(join_items(s.drop_last()), seq![0x2Cu8]);
        valid_utf8_concat(join_items(s.drop_last()) + seq![0x2Cu8], entry_item(s.last()));
        assert((join_items(s.drop_last()) + seq![0x2Cu8]) + entry_item(s.last()) =~= join_items(
            s,
        ));
    }
}

/// The canonical encoding of any value is valid UTF-8, so canonical output
/// is always well-formed text.
pub proof fn lemma_canon_valid_utf8(v: Value)
    ensures
        valid_utf8(canon(v)),
    decreases v, 0nat,
{
    match v {
        Value::Null => {
            lemma_ascii_valid(null_bytes());
        },
        Value::Bool(b) => {
            lemma_ascii_valid(bool_bytes(b));
        },
        Value::Int(i) => {
            lemma_int_bytes_valid(i as int);
        },
        Value::Float { bits, text } => {
            if f64_is_zero(bits) {
                lemma_ascii_valid(seq![0x30u8]);
            } else {
                encode_utf8_valid_utf8(text@);
            }
        },
        Value::Str(s) => {
            lemma_str_bytes_valid(s@);
        },
        Value::Array(vs) => {
            lemma_arr_join_valid(vs@);
            lemma_ascii_valid(seq![0x5Bu8]);
            lemma_ascii_valid(seq![0x5Du8]);
            valid_utf8_concat(seq![0x5Bu8], arr_join(vs@));
            valid_utf8_concat(seq![0x5Bu8] + arr_join(vs@), seq![0x5Du8]);
        },
        Value::Object(es) => {
            lemma_obj_models_valid(es@);
            lemma_dedup_valid(obj_models(es@));
            lemma_sort_valid(dedup_keys(obj_models(es@)));
            lemma_join_items_valid(sort_entries(dedup_keys(obj_models(es@))));
            lemma_ascii_valid(seq![0x7Bu8]);
            lemma_ascii_valid(seq![0x7Du8]);
            valid_utf8_concat(seq![0x7Bu8], join_items(sort_entries(dedup_keys(obj_models(es@)))));
            valid_utf8_concat(
                seq![0x7Bu8] + join_items(sort_entries(dedup_keys(obj_models(es@)))),
                seq![0x7Du8],
            );
        },
    }
}

/// The joined elements of an array are valid UTF-8.
proof fn lemma_arr_join_valid(vs: Seq<Value>)
    ensures
        valid_utf8(arr_join(vs)),
    decreases vs, 1nat,
{
    if vs.len() == 0 {
    } else if vs.len() == 1 {
        lemma_canon_valid_utf8(vs[0]);
    } else {
        lemma_arr_join_valid(vs.drop_last());
        lemma_canon_valid_utf8(vs.last());
        lemma_ascii_valid(seq![0x2Cu8]);
        valid_utf8_concat(arr_join(vs.drop_last()), seq![0x2Cu8]);
        valid_utf8_concat(arr_join(vs.drop_last()) + seq![0x2Cu8], canon(vs.last()));
    }
}

/// Every member model an object builds has a valid key and value rendering.
proof fn lemma_obj_models_valid(es: Seq<(String, Value)>)
    ensures
        entries_valid(obj_models(es)),
    decreases es, 1nat,
{
    if es.len() == 0 {
    } else {
        lemma_obj_models_valid(es.drop_last());
        lemma_str_bytes_valid(es.last().0@);
        lemma_canon_valid_utf8(es.last().1);
        let p = obj_models(es.drop_last());
        let m = p.push(entry_model_of(es.last().0@, es.last().1));
        assert(m[m.len() - 1] == entry_model_of(es.last().0@, es.last().1));
        assert(valid_utf8(entry_model_of(es.last().0@, es.last().1).key_out));
        assert(valid_utf8(entry_model_of(es.last().0@, es.last().1).value_out));
        assert(forall|i: int| 0 <= i < p.len() ==> m[i] == #[trigger] p[i]);
        assert(forall|i: int|
            0 <= i < m.len() ==> valid_utf8(#[trigger] m[i].key_out) && valid_utf8(
                m[i].value_out,
            ));
        assert(obj_models(es) == m);
    }
}

// ---------------------------------------------------------------------------
// Determinism
// ---------------------------------------------------------------------------

/// Determinism: the canonical bytes are a function of the value alone, so
/// two canonicalizations of the same value are byte-identical.
pub proof fn lemma_determinism(v: Value, b1: Seq<u8>, b2: Seq<u8>)
    requires
        b1 == canon(v),
        b2 == canon(v),
    ensures
        b1 == b2,
{
}

} // verus!

verus! {

// ---------------------------------------------------------------------------
// The member order is a total order
// ---------------------------------------------------------------------------

use crate::object::units_lt;
use crate::encode::{units_of, units_of_char};

/// Two unit sequences neither of which precedes the other are equal.
proof fn lemma_units_not_lt_eq(a: Seq<u16>, b: Seq<u16>)
    requires
        !units_lt(a, b),
        !units_lt(b, a),
    ensures
        a == b,
    decreases a.len(),
{
    if b.len() == 0 {
        assert(a.len() == 0);
        assert(a =~= b);
    } else if a.len() == 0 {
        assert(units_lt(a, b));
    } else {
        assert(a.first() == b.first());
        lemma_units_not_lt_eq(a.drop_first(), b.drop_first());
        assert(forall|i: int| 1 <= i < a.len() ==> a[i] == a.drop_first()[i - 1]);
        assert(forall|i: int| 1 <= i < b.len() ==> b[i] == b.drop_first()[i - 1]);
        assert(a.len() == b.len());
        assert(a =~= b);
    }
}

/// The member order is asymmetric.
proof fn lemma_units_lt_asym(a: Seq<u16>, b: Seq<u16>)
    requires
        units_lt(a, b),
    ensures
        !units_lt(b, a),
    decreases a.len(),
{
    if b.len() == 0 {
    } else if a.len() == 0 {
    } else if a.first() == b.first() {
        if units_lt(b, a) {
            lemma_units_lt_asym(a.drop_first(), b.drop_first());
        }
    }
}

/// The member order is transitive.
proof fn lemma_units_lt_trans(a: Seq<u16>, b: Seq<u16>, c: Seq<u16>)
    requires
        units_lt(a, b),
        units_lt(b, c),
    ensures
        units_lt(a, c),
    decreases b.len(),
{
    if a.len() == 0 {
    } else {
        if a.first() == b.first() && b.first() == c.first() {
            lemma_units_lt_trans(a.drop_first(), b.drop_first(), c.drop_first());
        }
    }
}

// ---------------------------------------------------------------------------
// Sorting: shape, content, order
// ---------------------------------------------------------------------------

/// Members in non-decreasing key order.
pub open spec fn sorted_entries(s: Seq<EntryModel>) -> bool {
    forall|i: int, j: int|
        0 <= i < j < s.len() ==> !units_lt(#[trigger] s[j].raw_key, #[trigger] s[i].raw_key)
}

/// Pairwise distinct key units.
pub open spec fn distinct_keys(s: Seq<EntryModel>) -> bool {
    forall|i: int, j: int|
        0 <= i < j < s.len() ==> #[trigger] s[i].raw_key != #[trigger] s[j].raw_key
}

/// Where the insertion lands: before the first strictly greater key.
spec fn insert_pos(e: EntryModel, s: Seq<EntryModel>) -> int
    decreases s.len(),
{
    if s.len() == 0 {
        0
    } else if units_lt(e.raw_key, s.first().raw_key) {
        0
    } else {
        1 + insert_pos(e, s.drop_first())
    }
}

/// The insertion splits the run at [`insert_pos`].
proof fn lemma_insert_form(e: EntryModel, s: Seq<EntryModel>)
    ensures
        0 <= insert_pos(e, s) <= s.len(),
        forall|k: int|
            0 <= k < insert_pos(e, s) ==> !units_lt(e.raw_key, #[trigger] s[k].raw_key),
        insert_pos(e, s) < s.len() ==> units_lt(e.raw_key, s[insert_pos(e, s)].raw_key),
        insert_sorted(e, s) == s.take(insert_pos(e, s)) + seq![e] + s.skip(insert_pos(e, s)),
    decreases s.len(),
{
    let p = insert_pos(e, s);
    if s.len() == 0 {
        assert(insert_sorted(e, s) =~= s.take(0) + seq![e] + s.skip(0));
    } else if units_lt(e.raw_key, s.first().raw_key) {
        assert(insert_sorted(e, s) =~= s.take(0) + seq![e] + s.skip(0));
    } else {
        let t = s.drop_first();
        lemma_insert_form(e, t);
        let q = insert_pos(e, t);
        assert(forall|k: int| 0 <= k < q ==> t[k] == s[k + 1]);
        assert(insert_sorted(e, s) == seq![s.first()] + insert_sorted(e, t));
        assert(seq![s.first()] + (t.take(q) + seq![e] + t.skip(q)) =~= s.take(p) + seq![e]
            + s.skip(p));
        assert(p < s.len() ==> s[p] == t[q]);
        assert forall|k: int| 0 <= k < p implies !units_lt(e.raw_key, #[trigger] s[k].raw_key) by {
            if k > 0 {
                assert(t[k - 1] == s[k]);
                assert(!units_lt(e.raw_key, t[k - 1].raw_key));
            }
        }
    }
}

/// Insertion adds exactly the inserted member to the content.
proof fn lemma_insert_multiset(e: EntryModel, s: Seq<EntryModel>)
    ensures
        insert_sorted(e, s).to_multiset() == s.to_multiset().insert(e),
{
    broadcast use vstd::seq_lib::group_to_multiset_ensures;

    lemma_insert_form(e, s);
    let p = insert_pos(e, s);
    vstd::seq_lib::lemma_multiset_commutative(s.take(p) + seq![e], s.skip(p));
    vstd::seq_lib::lemma_multiset_commutative(s.take(p), seq![e]);
    vstd::seq_lib::lemma_multiset_commutative(s.take(p), s.skip(p));
    assert(s.take(p) + s.skip(p) =~= s);
    assert(seq![e] =~= Seq::<EntryModel>::empty().push(e));
    assert(seq![e].to_multiset() =~= Multiset::<EntryModel>::empty().insert(e));
    assert((s.take(p) + seq![e] + s.skip(p)).to_multiset() =~= s.to_multiset().insert(e));
}

/// Insertion into a sorted run keeps it sorted.
proof fn lemma_insert_sorted_keeps(e: EntryModel, s: Seq<EntryModel>)
    requires
        sorted_entries(s),
    ensures
        sorted_entries(insert_sorted(e, s)),
{
    lemma_insert_form(e, s);
    let p = insert_pos(e, s);
    let t = insert_sorted(e, s);
    assert forall|i: int, j: int| 0 <= i < j < t.len() implies !units_lt(
        #[trigger] t[j].raw_key,
        #[trigger] t[i].raw_key,
    ) by {
        if i < p && j < p {
        } else if i < p && j == p {
            assert(t[i] == s[i]);
            assert(t[j] == e);
            assert(!units_lt(e.raw_key, s[i].raw_key));
        } else if i < p && j > p {
            assert(t[i] == s[i]);
            assert(t[j] == s[j - 1]);
        } else if i == p && j > p {
            assert(t[i] == e);
            assert(t[j] == s[j - 1]);
            if units_lt(s[j - 1].raw_key, e.raw_key) {
                assert(p < s.len());
                assert(units_lt(e.raw_key, s[p].raw_key));
                lemma_units_lt_trans(s[j - 1].raw_key, e.raw_key, s[p].raw_key);
                assert(j - 1 >= p);
                if j - 1 > p {
                    assert(!units_lt(s[j - 1].raw_key, s[p].raw_key));
                } else {
                    lemma_units_lt_asym(e.raw_key, s[p].raw_key);
                }
            }
        } else {
            assert(t[i] == s[i - 1]);
            assert(t[j] == s[j - 1]);
        }
    }
}

/// Insertion's key set is the old one plus the inserted key.
proof fn lemma_insert_has_key(e: EntryModel, s: Seq<EntryModel>, k: Seq<u16>)
    ensures
        frame_has_key(insert_sorted(e, s), k) <==> (k == e.raw_key || frame_has_key(s, k)),
{
    lemma_insert_form(e, s);
    let p = insert_pos(e, s);
    let t = insert_sorted(e, s);
    if frame_has_key(t, k) {
        let j = choose|j: int| 0 <= j < t.len() && t[j].raw_key == k;
        if j < p {
            assert(t[j] == s[j]);
            assert(frame_has_key(s, k));
        } else if j == p {
            assert(t[j] == e);
        } else {
            assert(t[j] == s[j - 1]);
            assert(frame_has_key(s, k));
        }
    }
    if k == e.raw_key {
        assert(t[p] == e);
        assert(frame_has_key(t, k));
    }
    if frame_has_key(s, k) {
        let j = choose|j: int| 0 <= j < s.len() && s[j].raw_key == k;
        if j < p {
            assert(t[j] == s[j]);
        } else {
            assert(t[j + 1] == s[j]);
        }
        assert(frame_has_key(t, k));
    }
}

/// Insertion of a fresh key keeps keys distinct.
proof fn lemma_insert_distinct(e: EntryModel, s: Seq<EntryModel>)
    requires
        distinct_keys(s),
        !frame_has_key(s, e.raw_key),
    ensures
        distinct_keys(insert_sorted(e, s)),
{
    lemma_insert_form(e, s);
    let p = insert_pos(e, s);
    let t = insert_sorted(e, s);
    assert forall|i: int, j: int| 0 <= i < j < t.len() implies #[trigger] t[i].raw_key
        != #[trigger] t[j].raw_key by {
        if i == p {
            assert(t[i] == e);
            assert(t[j] == s[j - 1]);
            if e.raw_key == s[j - 1].raw_key {
                assert(frame_has_key(s, e.raw_key));
            }
        } else if j == p {
            assert(t[j] == e);
            assert(t[i] == s[i]);
            if e.raw_key == s[i].raw_key {
                assert(frame_has_key(s, e.raw_key));
            }
        } else {
            let i2: int = if i < p { i } else { i - 1 };
            let j2: int = if j < p { j } else { j - 1 };
            assert(t[i] == s[i2]);
            assert(t[j] == s[j2]);
        }
    }
}

/// Sorting keeps the content, establishes the order, keeps the key set,
/// and keeps keys distinct.
proof fn lemma_sort_props(s: Seq<EntryModel>)
    ensures
        sort_entries(s).to_multiset() == s.to_multiset(),
        sorted_entries(sort_entries(s)),
        forall|k: Seq<u16>| frame_has_key(sort_entries(s), k) <==> frame_has_key(s, k),
        distinct_keys(s) ==> distinct_keys(sort_entries(s)),
    decreases s.len(),
{
    broadcast use vstd::seq_lib::group_to_multiset_ensures;

    if s.len() == 0 {
        assert(sort_entries(s).to_multiset() =~= s.to_multiset());
    } else {
        let d = s.drop_last();
        assert(forall|i: int| 0 <= i < d.len() ==> d[i] == s[i]);
        lemma_sort_props(d);
        let r = sort_entries(d);
        lemma_insert_multiset(s.last(), r);
        assert(s =~= d.push(s.last()));
        assert(s.to_multiset() == d.push(s.last()).to_multiset());
        assert(sort_entries(s).to_multiset() =~= s.to_multiset());
        lemma_insert_sorted_keeps(s.last(), r);
        assert forall|k: Seq<u16>| frame_has_key(sort_entries(s), k) <==> frame_has_key(
            s,
            k,
        ) by {
            lemma_insert_has_key(s.last(), r, k);
            if frame_has_key(s, k) {
                let j = choose|j: int| 0 <= j < s.len() && s[j].raw_key == k;
                if j < d.len() {
                    assert(d[j].raw_key == k);
                    assert(frame_has_key(d, k));
                } else {
                    assert(k == s.last().raw_key);
                }
            }
            if frame_has_key(d, k) {
                let j = choose|j: int| 0 <= j < d.len() && d[j].raw_key == k;
                assert(s[j].raw_key == k);
                assert(frame_has_key(s, k));
            }
        }
        if distinct_keys(s) {
            assert(distinct_keys(d));
            if frame_has_key(d, s.last().raw_key) {
                let j = choose|j: int| 0 <= j < d.len() && d[j].raw_key == s.last().raw_key;
                assert(s[j].raw_key == s[s.len() - 1].raw_key);
            }
            lemma_insert_distinct(s.last(), r);
        }
    }
}

/// Two sorted runs with distinct keys and the same content are identical.
proof fn lemma_sorted_unique(s1: Seq<EntryModel>, s2: Seq<EntryModel>)
    requires
        sorted_entries(s1),
        sorted_entries(s2),
        distinct_keys(s1),
        distinct_keys(s2),
        s1.to_multiset() == s2.to_multiset(),
    ensures
        s1 == s2,
    decreases s1.len(),
{
    broadcast use vstd::seq_lib::group_to_multiset_ensures;

    assert(s1.len() == s1.to_multiset().len());
    assert(s2.len() == s2.to_multiset().len());
    if s1.len() == 0 {
        assert(s1 =~= s2);
    } else {
        assert(s2.len() == s1.len());
        let x = s1[0];
        assert(s1.contains(x));
        assert(s1.to_multiset().count(x) > 0);
        assert(s2.to_multiset().count(x) > 0);
        assert(s2.contains(x));
        let j = choose|j: int| 0 <= j < s2.len() && s2[j] == x;
        let y = s2[0];
        assert(s2.contains(y));
        assert(s2.to_multiset().count(y) > 0);
        assert(s1.to_multiset().count(y) > 0);
        assert(s1.contains(y));
        let k = choose|k: int| 0 <= k < s1.len() && s1[k] == y;
        if j == 0 {
            assert(s2[0] == x);
        } else {
            assert(!units_lt(s2[j].raw_key, s2[0].raw_key));
            assert(!units_lt(x.raw_key, y.raw_key));
            if k == 0 {
                assert(y == x);
                assert(s2[0].raw_key == s2[j].raw_key);
                assert(false);
            } else {
                assert(!units_lt(s1[k].raw_key, s1[0].raw_key));
                assert(!units_lt(y.raw_key, x.raw_key));
                lemma_units_not_lt_eq(x.raw_key, y.raw_key);
                assert(s2[0].raw_key == s2[j].raw_key);
                assert(false);
            }
        }
        let t1 = s1.drop_first();
        let t2 = s2.drop_first();
        assert(t1 =~= s1.remove(0));
        assert(t2 =~= s2.remove(0));
        assert(t1.to_multiset() == s1.to_multiset().remove(x));
        assert(t2.to_multiset() == s2.to_multiset().remove(s2[0]));
        assert(forall|i: int| 0 <= i < t1.len() ==> t1[i] == s1[i + 1]);
        assert(forall|i: int| 0 <= i < t2.len() ==> t2[i] == s2[i + 1]);
        lemma_sorted_unique(t1, t2);
        assert(s2[0] == x);
        assert forall|i: int| 0 <= i < s1.len() implies s1[i] == s2[i] by {
            if i > 0 {
                assert(s1[i] == t1[i - 1]);
                assert(s2[i] == t2[i - 1]);
            }
        }
        assert(s1 =~= s2);
    }
}

/// When keys are already distinct, the last-write-wins pass keeps every
/// member.
proof fn lemma_dedup_distinct_id(s: Seq<EntryModel>)
    requires
        distinct_keys(s),
    ensures
        dedup_keys(s) == s,
    decreases s.len(),
{
    if s.len() == 0 {
        assert(dedup_keys(s) =~= s);
    } else {
        let t = s.drop_first();
        assert(forall|i: int| 0 <= i < t.len() ==> t[i] == s[i + 1]);
        if frame_has_key(t, s.first().raw_key) {
            let j = choose|j: int| 0 <= j < t.len() && t[j].raw_key == s.first().raw_key;
            assert(s[j + 1].raw_key == s[0].raw_key);
            assert(false);
        }
        assert(distinct_keys(t));
        lemma_dedup_distinct_id(t);
        assert(dedup_keys(s) =~= s);
    }
}

// ---------------------------------------------------------------------------
// UTF-16 encoding is injective
// ---------------------------------------------------------------------------

/// Distinct texts have distinct UTF-16 unit sequences.
proof fn lemma_units_of_injective(s1: Seq<char>, s2: Seq<char>)
    requires
        units_of(s1) == units_of(s2),
    ensures
        s1 == s2,
    decreases s1.len(),
{
    if s1.len() == 0 {
        if s2.len() > 0 {
            assert(units_of(s2).len() >= units_of(s2.drop_last()).len() + 1);
            assert(units_of(s1).len() == 0);
            lemma_units_of_len_pos(s2);
            assert(false);
        }
        assert(s1 =~= s2);
    } else if s2.len() == 0 {
        lemma_units_of_len_pos(s1);
        assert(false);
    } else {
        let c1 = s1.last();
        let c2 = s2.last();
        let v1 = c1 as u32;
        let v2 = c2 as u32;
        proof_char_facts(c1);
        proof_char_facts(c2);
        let u = units_of(s1);
        let a1 = units_of(s1.drop_last());
        let a2 = units_of(s2.drop_last());
        assert(u == a1 + units_of_char(c1));
        assert(u == a2 + units_of_char(c2));
        assert(vstd::utf8::is_scalar(v1));
        assert(vstd::utf8::is_scalar(v2));
        if v1 < 0x10000 && v2 < 0x10000 {
            assert(units_of_char(c1).len() == 1 && units_of_char(c2).len() == 1);
            assert(u.len() == a1.len() + 1 && u.len() == a2.len() + 1);
            assert(u.last() == units_of_char(c1)[0]);
            assert(u.last() == units_of_char(c2)[0]);
            assert(u.last() == (v1 as u16));
            assert(u.last() == (v2 as u16));
            assert(v1 == v2);
            vstd::utf8::char_u32_cast(c1, v1);
            vstd::utf8::char_u32_cast(c2, v2);
            assert(c1 == c2);
            assert(a1.len() == u.len() - 1 && a2.len() == u.len() - 1);
            assert(forall|i: int| 0 <= i < a1.len() ==> a1[i] == u[i] && a2[i] == u[i]);
            assert(a1 =~= a2);
            lemma_units_of_injective(s1.drop_last(), s2.drop_last());
            assert(s1.len() == s2.len());
            assert(forall|i: int|
                0 <= i < s1.len() - 1 ==> s1[i] == s1.drop_last()[i] && s2[i]
                    == s2.drop_last()[i]);
            assert(s1 =~= s2);
        } else if v1 >= 0x10000 && v2 >= 0x10000 {
            let w1 = v1 - 0x10000;
            let w2 = v2 - 0x10000;
            assert(units_of_char(c1).len() == 2);
            assert(units_of_char(c2).len() == 2);
            assert(u.len() == a1.len() + 2 && u.len() == a2.len() + 2);
            assert(u[u.len() - 2] == units_of_char(c1)[0] && u[u.len() - 1] == units_of_char(
                c1,
            )[1]);
            assert(u[u.len() - 2] == units_of_char(c2)[0] && u[u.len() - 1] == units_of_char(
                c2,
            )[1]);
            assert(u.last() == ((0xDC00 + w1 % 0x400) as u16));
            assert(u.last() == ((0xDC00 + w2 % 0x400) as u16));
            assert(u[u.len() - 2] == ((0xD800 + w1 / 0x400) as u16));
            assert(u[u.len() - 2] == ((0xD800 + w2 / 0x400) as u16));
            assert(0 <= w1 % 0x400 < 0x400 && 0 <= w2 % 0x400 < 0x400);
            assert(w1 % 0x400 == w2 % 0x400);
            assert(0 <= w1 / 0x400 <= 0x43F && 0 <= w2 / 0x400 <= 0x43F);
            assert(w1 / 0x400 == w2 / 0x400);
            vstd::arithmetic::div_mod::lemma_fundamental_div_mod(w1, 0x400);
            vstd::arithmetic::div_mod::lemma_fundamental_div_mod(w2, 0x400);
            assert(w1 == w2);
            assert(v1 == v2);
            vstd::utf8::char_u32_cast(c1, v1);
            vstd::utf8::char_u32_cast(c2, v2);
            assert(c1 == c2);
            assert(a1.len() == u.len() - 2 && a2.len() == u.len() - 2);
            assert(forall|i: int| 0 <= i < a1.len() ==> a1[i] == u[i] && a2[i] == u[i]);
            assert(a1 =~= a2);
            lemma_units_of_injective(s1.drop_last(), s2.drop_last());
            assert(s1.len() == s2.len());
            assert(forall|i: int|
                0 <= i < s1.len() - 1 ==> s1[i] == s1.drop_last()[i] && s2[i]
                    == s2.drop_last()[i]);
            assert(s1 =~= s2);
        } else if v1 < 0x10000 {
            assert(!(0xD800 <= v1 <= 0xDFFF));
            assert(units_of_char(c1).len() == 1 && units_of_char(c2).len() == 2);
            assert(u.last() == units_of_char(c1)[0]);
            assert(u.last() == units_of_char(c2)[1]);
            assert(u.last() == (v1 as u16));
            let w2 = v2 - 0x10000;
            assert(u.last() == ((0xDC00 + w2 % 0x400) as u16));
            assert(0xDC00 <= 0xDC00 + w2 % 0x400 < 0xE000);
            assert(false);
        } else {
            assert(!(0xD800 <= v2 <= 0xDFFF));
            assert(units_of_char(c2).len() == 1 && units_of_char(c1).len() == 2);
            assert(u.last() == units_of_char(c2)[0]);
            assert(u.last() == units_of_char(c1)[1]);
            assert(u.last() == (v2 as u16));
            let w1 = v1 - 0x10000;
            assert(u.last() == ((0xDC00 + w1 % 0x400) as u16));
            assert(0xDC00 <= 0xDC00 + w1 % 0x400 < 0xE000);
            assert(false);
        }
    }
}

/// The scalar facts every character satisfies.
proof fn proof_char_facts(c: char)
    ensures
        vstd::utf8::is_scalar(c as u32),
{
    vstd::utf8::char_is_scalar(c);
}

/// A non-empty text has at least one unit.
proof fn lemma_units_of_len_pos(s: Seq<char>)
    requires
        s.len() > 0,
    ensures
        units_of(s).len() > 0,
{
}

// ---------------------------------------------------------------------------
// Reordering invariance
// ---------------------------------------------------------------------------

/// `obj_models` maps the pairs one for one.
proof fn lemma_obj_models_index(es: Seq<(String, Value)>)
    ensures
        obj_models(es).len() == es.len(),
        forall|i: int|
            0 <= i < es.len() ==> #[trigger] obj_models(es)[i] == entry_model_of(
                es[i].0@,
                es[i].1,
            ),
    decreases es.len(),
{
    if es.len() > 0 {
        lemma_obj_models_index(es.drop_last());
        assert(forall|i: int| 0 <= i < es.len() - 1 ==> es.drop_last()[i] == es[i]);
    }
}

/// Reordering the pairs reorders the member models.
proof fn lemma_obj_models_multiset(es1: Seq<(String, Value)>, es2: Seq<(String, Value)>)
    requires
        es1.to_multiset() == es2.to_multiset(),
    ensures
        obj_models(es1).to_multiset() == obj_models(es2).to_multiset(),
    decreases es1.len(),
{
    broadcast use vstd::seq_lib::group_to_multiset_ensures;

    assert(es1.len() == es1.to_multiset().len());
    assert(es2.len() == es2.to_multiset().len());
    if es1.len() == 0 {
        assert(es2.len() == es1.len());
        assert(obj_models(es1) =~= obj_models(es2));
    } else {
        assert(es2.len() == es1.len());
        let p = es1.last();
        assert(es1.contains(p));
        assert(es1.to_multiset().count(p) > 0);
        assert(es2.to_multiset().count(p) > 0);
        assert(es2.contains(p));
        let j = choose|j: int| 0 <= j < es2.len() && es2[j] == p;
        let d1 = es1.drop_last();
        let d2 = es2.remove(j);
        assert(d1 =~= es1.remove(es1.len() - 1));
        assert(d1.to_multiset() == es1.to_multiset().remove(p));
        assert(d2.to_multiset() == es2.to_multiset().remove(p));
        lemma_obj_models_multiset(d1, d2);
        lemma_obj_models_index(es1);
        lemma_obj_models_index(es2);
        lemma_obj_models_index(d1);
        lemma_obj_models_index(d2);
        let m1 = obj_models(es1);
        let m2 = obj_models(es2);
        assert(obj_models(d2) =~= m2.remove(j));
        assert(m1 =~= obj_models(d1).push(entry_model_of(p.0@, p.1)));
        assert(m1.to_multiset() == obj_models(d1).to_multiset().insert(
            entry_model_of(p.0@, p.1),
        ));
        assert(m2.remove(j).to_multiset() == m2.to_multiset().remove(m2[j]));
        assert(m2[j] == entry_model_of(p.0@, p.1));
        assert(m2.contains(m2[j]));
        assert(m2.to_multiset().count(m2[j]) > 0);
        assert(m1.to_multiset() =~= m2.to_multiset());
    }
}

/// Reordering invariance: canonicalizing an object does not depend on the
/// order in which its members were given. Two objects holding the same
/// members as a multiset, each with pairwise distinct key texts as a map
/// has, canonicalize to identical bytes.
pub proof fn lemma_reordering_invariance(v1: Value, v2: Value)
    requires
        v1 is Object,
        v2 is Object,
        (v1->Object_0)@.to_multiset() == (v2->Object_0)@.to_multiset(),
        forall|i: int, j: int|
            0 <= i < j < (v1->Object_0)@.len() ==> #[trigger] ((v1->Object_0)@[i].0)@
                != #[trigger] ((v1->Object_0)@[j].0)@,
        forall|i: int, j: int|
            0 <= i < j < (v2->Object_0)@.len() ==> #[trigger] ((v2->Object_0)@[i].0)@
                != #[trigger] ((v2->Object_0)@[j].0)@,
    ensures
        canon(v1) == canon(v2),
{
    let es1 = (v1->Object_0)@;
    let es2 = (v2->Object_0)@;
    let m1 = obj_models(es1);
    let m2 = obj_models(es2);
    lemma_obj_models_index(es1);
    lemma_obj_models_index(es2);
    assert forall|i: int, j: int| 0 <= i < j < m1.len() implies #[trigger] m1[i].raw_key
        != #[trigger] m1[j].raw_key by {
        if m1[i].raw_key == m1[j].raw_key {
            lemma_units_of_injective(es1[i].0@, es1[j].0@);
        }
    }
    assert forall|i: int, j: int| 0 <= i < j < m2.len() implies #[trigger] m2[i].raw_key
        != #[trigger] m2[j].raw_key by {
        if m2[i].raw_key == m2[j].raw_key {
            lemma_units_of_injective(es2[i].0@, es2[j].0@);
        }
    }
    lemma_obj_models_multiset(es1, es2);
    lemma_dedup_distinct_id(m1);
    lemma_dedup_distinct_id(m2);
    lemma_sort_props(m1);
    lemma_sort_props(m2);
    lemma_sorted_unique(sort_entries(m1), sort_entries(m2));
    assert(canon(v1) == obj_bytes(m1));
    assert(canon(v2) == obj_bytes(m2));
}

} // verus!
