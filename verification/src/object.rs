//! The frame/stack buffering machinery: one [`Object`] frame per open JSON
//! object, a stack of frames, and the scope routing that decides whether a
//! primitive write lands in the output sink or in the innermost frame's
//! current member.

use vstd::prelude::*;
use vstd::utf8::encode_utf8;

use crate::encode::{esc_seq, units_of, units_of_char, can_escape, push_escape, push_units,
    push_utf8};
use vstd::string::StrSliceExecFns;
use crate::entry::{Entry, EntryModel, fresh_entry};

verus! {

// ---------------------------------------------------------------------------
// The write-transition specification
// ---------------------------------------------------------------------------

/// The UTF-16 units of a run of ASCII output bytes (digits and the like),
/// unit for byte.
pub open spec fn byte_units(t: Seq<u8>) -> Seq<u16> {
    t.map_values(|b: u8| b as u16)
}

/// Whether a primitive write is currently legal: either no object is open,
/// or the innermost frame has a member under construction.
pub open spec fn can_write(st: Seq<Seq<EntryModel>>) -> bool {
    st.len() == 0 || st.last().len() > 0
}

/// Whether the next write belongs to a key.
pub open spec fn in_key_state(st: Seq<Seq<EntryModel>>) -> bool {
    st.len() > 0 && st.last().len() > 0 && st.last().last().in_key
}

/// Whether the next write lands in a value position: writable, and not
/// inside a key.
pub open spec fn in_value_scope(st: Seq<Seq<EntryModel>>) -> bool {
    can_write(st) && !in_key_state(st)
}

/// One member after a write of output text `t` whose key text has the
/// UTF-16 units `u`: key writes are dual, value writes leave `raw_key` alone.
pub open spec fn upd_entry(e: EntryModel, t: Seq<u8>, u: Seq<u16>) -> EntryModel {
    if e.in_key {
        EntryModel { raw_key: e.raw_key + u, key_out: e.key_out + t, ..e }
    } else {
        EntryModel { value_out: e.value_out + t, ..e }
    }
}

/// The stack after a routed write of output text `t` with key units `u`:
/// the innermost frame's current member receives it, or nothing changes when
/// the stack is empty (the sink receives it instead, see [`wr_sink`]).
pub open spec fn wr(st: Seq<Seq<EntryModel>>, t: Seq<u8>, u: Seq<u16>) -> Seq<Seq<EntryModel>> {
    if st.len() > 0 && st.last().len() > 0 {
        let fr = st.last();
        st.update(st.len() - 1, fr.update(fr.len() - 1, upd_entry(fr.last(), t, u)))
    } else {
        st
    }
}

/// The sink after a routed write of output text `t`: extended exactly when
/// no object is open.
pub open spec fn wr_sink(st: Seq<Seq<EntryModel>>, sink: Seq<u8>, t: Seq<u8>) -> Seq<u8> {
    if st.len() == 0 {
        sink + t
    } else {
        sink
    }
}

/// The stack after a new frame opens.
pub open spec fn push_frame(st: Seq<Seq<EntryModel>>) -> Seq<Seq<EntryModel>> {
    st.push(Seq::empty())
}

/// The stack after a new member begins in the innermost frame.
pub open spec fn push_key(st: Seq<Seq<EntryModel>>) -> Seq<Seq<EntryModel>>
    recommends
        st.len() > 0,
{
    st.update(st.len() - 1, st.last().push(fresh_entry()))
}

/// The stack after the innermost frame's current key closes.
pub open spec fn close_key(st: Seq<Seq<EntryModel>>) -> Seq<Seq<EntryModel>>
    recommends
        st.len() > 0 && st.last().len() > 0,
{
    let fr = st.last();
    st.update(
        st.len() - 1,
        fr.update(fr.len() - 1, (EntryModel { in_key: false, ..fr.last() })),
    )
}

/// Routed writes compose: two successive writes are one write of the
/// concatenated text and units, and the sink grows accordingly.
pub proof fn lemma_wr_compose(
    st: Seq<Seq<EntryModel>>,
    sink: Seq<u8>,
    t1: Seq<u8>,
    u1: Seq<u16>,
    t2: Seq<u8>,
    u2: Seq<u16>,
)
    ensures
        wr(wr(st, t1, u1), t2, u2) == wr(st, t1 + t2, u1 + u2),
        wr_sink(wr(st, t1, u1), wr_sink(st, sink, t1), t2) == wr_sink(st, sink, t1 + t2),
{
    if st.len() > 0 && st.last().len() > 0 {
        assert(wr(wr(st, t1, u1), t2, u2) =~~= wr(st, t1 + t2, u1 + u2));
    } else {
        assert(wr(wr(st, t1, u1), t2, u2) =~~= wr(st, t1 + t2, u1 + u2));
    }
    assert(wr_sink(wr(st, t1, u1), wr_sink(st, sink, t1), t2) =~= wr_sink(st, sink, t1 + t2));
}

/// A write of nothing changes nothing.
pub proof fn lemma_wr_empty(st: Seq<Seq<EntryModel>>, sink: Seq<u8>)
    ensures
        wr(st, Seq::empty(), Seq::empty()) == st,
        wr_sink(st, sink, Seq::empty()) == sink,
{
    if st.len() > 0 && st.last().len() > 0 {
        assert(wr(st, Seq::empty(), Seq::empty()) =~~= st);
    }
    assert(wr_sink(st, sink, Seq::empty()) =~= sink);
}

/// Routed writes keep the shape of the stack: frame count, member counts
/// and key/value positions are all unchanged.
pub proof fn lemma_wr_shape(st: Seq<Seq<EntryModel>>, t: Seq<u8>, u: Seq<u16>)
    ensures
        wr(st, t, u).len() == st.len(),
        st.len() > 0 ==> wr(st, t, u).last().len() == st.last().len(),
        can_write(wr(st, t, u)) == can_write(st),
        in_key_state(wr(st, t, u)) == in_key_state(st),
        in_value_scope(wr(st, t, u)) == in_value_scope(st),
{
}

// ---------------------------------------------------------------------------
// Small buffer helpers
// ---------------------------------------------------------------------------

/// Appends a byte slice to a buffer.
fn append_bytes(dst: &mut Vec<u8>, src: &[u8])
    ensures
        final(dst)@ == old(dst)@ + src@,
{
    let mut i: usize = 0;
    while i < src.len()
        invariant
            i <= src@.len(),
            dst@ == old(dst)@ + src@.take(i as int),
        decreases src@.len() - i,
    {
        let b = *vstd::slice::slice_index_get(src, i);
        dst.push(b);
        assert(dst@ =~= old(dst)@ + src@.take(i + 1));
        i = i + 1;
    }
    assert(final(dst)@ =~= old(dst)@ + src@);
}

/// Appends one UTF-16 unit per ASCII byte.
fn append_byte_units(dst: &mut Vec<u16>, src: &Vec<u8>)
    ensures
        final(dst)@ == old(dst)@ + byte_units(src@),
{
    let mut i: usize = 0;
    while i < src.len()
        invariant
            i <= src@.len(),
            dst@ == old(dst)@ + byte_units(src@.take(i as int)),
        decreases src@.len() - i,
    {
        let b = src[i];
        dst.push(b as u16);
        assert(dst@ =~= old(dst)@ + byte_units(src@.take(i + 1)));
        i = i + 1;
    }
    assert(final(dst)@ =~= old(dst)@ + byte_units(src@));
}

/// `units_of` grows one character at a time.
pub proof fn lemma_units_of_take(s: Seq<char>, i: int)
    requires
        0 <= i < s.len(),
    ensures
        units_of(s.take(i + 1)) == units_of(s.take(i)) + units_of_char(s[i]),
{
    assert(s.take(i + 1).drop_last() =~= s.take(i));
    assert(s.take(i + 1).last() == s[i]);
}

/// Appends the UTF-16 units of a whole string.
fn append_str_units(dst: &mut Vec<u16>, s: &str)
    ensures
        final(dst)@ == old(dst)@ + units_of(s@),
{
    let n = s.unicode_len();
    let mut i: usize = 0;
    while i < n
        invariant
            n == s@.len(),
            i <= n,
            dst@ == old(dst)@ + units_of(s@.take(i as int)),
        decreases n - i,
    {
        let c = s.get_char(i);
        push_units(dst, c);
        proof {
            lemma_units_of_take(s@, i as int);
        }
        i = i + 1;
    }
    assert(s@.take(n as int) =~= s@);
}

/// Appends the UTF-8 bytes of a whole string.
fn append_str_bytes(dst: &mut Vec<u8>, s: &str)
    ensures
        final(dst)@ == old(dst)@ + encode_utf8(s@),
{
    append_bytes(dst, s.as_bytes());
}

// ---------------------------------------------------------------------------
// Frames and the stack
// ---------------------------------------------------------------------------

/// One open JSON object: its members in creation order. Only the last
/// member is ever written to.
pub struct Object {
    pub entries: Vec<Entry>,
}

impl View for Object {
    type V = Seq<EntryModel>;

    open spec fn view(&self) -> Seq<EntryModel> {
        self.entries@.map_values(|e: Entry| e@)
    }
}

impl Object {
    /// Opens a fresh frame with no members.
    pub fn new() -> (r: Self)
        ensures
            r@ == Seq::<EntryModel>::empty(),
    {
        let r = Object { entries: Vec::new() };
        proof {
            assert(r@ =~= Seq::<EntryModel>::empty());
        }
        r
    }
}

/// The stack of open object frames, innermost last. An empty stack routes
/// writes to the output sink.
pub struct ObjectStack {
    pub objects: Vec<Object>,
}

impl View for ObjectStack {
    type V = Seq<Seq<EntryModel>>;

    open spec fn view(&self) -> Seq<Seq<EntryModel>> {
        self.objects@.map_values(|o: Object| o@)
    }
}

impl ObjectStack {
    /// An empty stack: all writes go to the sink.
    pub fn new() -> (r: Self)
        ensures
            r@ == Seq::<Seq<EntryModel>>::empty(),
    {
        let r = ObjectStack { objects: Vec::new() };
        proof {
            assert(r@ =~= Seq::<Seq<EntryModel>>::empty());
        }
        r
    }

    /// Whether any object frame is open.
    pub fn has_current_object(&self) -> (r: bool)
        ensures
            r == (self@.len() > 0),
    {
        self.objects.len() > 0
    }

    /// Whether the next write belongs to a key.
    pub fn is_in_key(&self) -> (r: bool)
        requires
            can_write(self@),
        ensures
            r == in_key_state(self@),
    {
        if self.objects.len() == 0 {
            false
        } else {
            let o = &self.objects[self.objects.len() - 1];
            o.entries[o.entries.len() - 1].in_key
        }
    }

    /// Opens a new frame.
    pub fn start_object(&mut self)
        ensures
            final(self)@ == push_frame(old(self)@),
    {
        self.objects.push(Object::new());
        proof {
            assert(final(self)@ =~~= push_frame(old(self)@));
        }
    }

    /// Begins a new member in the innermost frame.
    pub fn start_key(&mut self)
        requires
            old(self)@.len() > 0,
        ensures
            final(self)@ == push_key(old(self)@),
    {
        let mut obj = self.objects.pop().unwrap();
        obj.entries.push(Entry::new());
        self.objects.push(obj);
        proof {
            assert(final(self)@ =~~= push_key(old(self)@));
        }
    }

    /// Closes the current member's key: further writes fill its value.
    pub fn end_key(&mut self)
        requires
            old(self)@.len() > 0,
            old(self)@.last().len() > 0,
        ensures
            final(self)@ == close_key(old(self)@),
    {
        let mut obj = self.objects.pop().unwrap();
        let mut e = obj.entries.pop().unwrap();
        e.in_key = false;
        obj.entries.push(e);
        self.objects.push(obj);
        proof {
            assert(final(self)@ =~~= close_key(old(self)@));
        }
    }

    /// Routes a plain write: the bytes go to the active scope and never to
    /// the key's comparison text (used for quotes and structural tokens).
    pub fn scope_write(&mut self, sink: &mut Vec<u8>, bytes: &[u8])
        requires
            can_write(old(self)@),
        ensures
            final(self)@ == wr(old(self)@, bytes@, Seq::empty()),
            final(sink)@ == wr_sink(old(self)@, old(sink)@, bytes@),
    {
        if self.objects.len() > 0 {
            let mut obj = self.objects.pop().unwrap();
            let mut e = obj.entries.pop().unwrap();
            if e.in_key {
                append_bytes(&mut e.key_out, bytes);
            } else {
                append_bytes(&mut e.value_out, bytes);
            }
            obj.entries.push(e);
            self.objects.push(obj);
            proof {
                assert(final(self)@ =~~= wr(old(self)@, bytes@, Seq::empty()));
            }
        } else {
            append_bytes(sink, bytes);
        }
    }

    /// Routes a dual write of string text: the UTF-8 bytes go to the active
    /// scope, and while a key is open its UTF-16 units also extend the
    /// comparison text.
    pub fn scope_write_with_key_str(&mut self, sink: &mut Vec<u8>, s: &str)
        requires
            can_write(old(self)@),
        ensures
            final(self)@ == wr(old(self)@, encode_utf8(s@), units_of(s@)),
            final(sink)@ == wr_sink(old(self)@, old(sink)@, encode_utf8(s@)),
    {
        if self.objects.len() > 0 {
            let mut obj = self.objects.pop().unwrap();
            let mut e = obj.entries.pop().unwrap();
            if e.in_key {
                append_str_bytes(&mut e.key_out, s);
                append_str_units(&mut e.raw_key, s);
            } else {
                append_str_bytes(&mut e.value_out, s);
            }
            obj.entries.push(e);
            self.objects.push(obj);
            proof {
                assert(final(self)@ =~~= wr(old(self)@, encode_utf8(s@), units_of(s@)));
            }
        } else {
            append_str_bytes(sink, s);
        }
    }

    /// Routes a dual write of ASCII bytes (rendered numbers): while a key is
    /// open, the same text extends the comparison units byte for byte.
    pub fn scope_write_with_key_ascii(&mut self, sink: &mut Vec<u8>, bytes: &Vec<u8>)
        requires
            can_write(old(self)@),
        ensures
            final(self)@ == wr(old(self)@, bytes@, byte_units(bytes@)),
            final(sink)@ == wr_sink(old(self)@, old(sink)@, bytes@),
    {
        if self.objects.len() > 0 {
            let mut obj = self.objects.pop().unwrap();
            let mut e = obj.entries.pop().unwrap();
            if e.in_key {
                append_bytes(&mut e.key_out, bytes.as_slice());
                append_byte_units(&mut e.raw_key, bytes);
            } else {
                append_bytes(&mut e.value_out, bytes.as_slice());
            }
            obj.entries.push(e);
            self.objects.push(obj);
            proof {
                assert(final(self)@ =~~= wr(old(self)@, bytes@, byte_units(bytes@)));
            }
        } else {
            append_bytes(sink, bytes.as_slice());
        }
    }

    /// Routes one unescaped string character: its UTF-8 bytes to the active
    /// scope, its UTF-16 units to an open key's comparison text.
    pub fn scope_write_with_key_char(&mut self, sink: &mut Vec<u8>, c: char)
        requires
            can_write(old(self)@),
        ensures
            final(self)@ == wr(old(self)@, vstd::utf8::encode_scalar(c as u32), units_of_char(c)),
            final(sink)@ == wr_sink(old(self)@, old(sink)@, vstd::utf8::encode_scalar(c as u32)),
    {
        if self.objects.len() > 0 {
            let mut obj = self.objects.pop().unwrap();
            let mut e = obj.entries.pop().unwrap();
            if e.in_key {
                push_utf8(&mut e.key_out, c);
                push_units(&mut e.raw_key, c);
            } else {
                push_utf8(&mut e.value_out, c);
            }
            obj.entries.push(e);
            self.objects.push(obj);
            proof {
                assert(final(self)@ =~~= wr(
                    old(self)@,
                    vstd::utf8::encode_scalar(c as u32),
                    units_of_char(c),
                ));
            }
        } else {
            push_utf8(sink, c);
        }
    }

    /// Routes one escaped character: the escape sequence to the active
    /// scope, the original character's unit to an open key's comparison
    /// text. This is where key text and key output diverge.
    pub fn scope_write_escape(&mut self, sink: &mut Vec<u8>, c: char)
        requires
            can_write(old(self)@),
            can_escape(c),
        ensures
            final(self)@ == wr(old(self)@, esc_seq(c), units_of_char(c)),
            final(sink)@ == wr_sink(old(self)@, old(sink)@, esc_seq(c)),
    {
        proof {
            assert(units_of_char(c) =~= seq![(c as u32) as u16]);
        }
        if self.objects.len() > 0 {
            let mut obj = self.objects.pop().unwrap();
            let mut e = obj.entries.pop().unwrap();
            if e.in_key {
                push_escape(&mut e.key_out, c);
                let v = c as u32;
                e.raw_key.push(v as u16);
            } else {
                push_escape(&mut e.value_out, c);
            }
            obj.entries.push(e);
            self.objects.push(obj);
            proof {
                assert(final(self)@ =~~= wr(old(self)@, esc_seq(c), units_of_char(c)));
            }
        } else {
            push_escape(sink, c);
        }
    }
}

} // verus!

verus! {

// ---------------------------------------------------------------------------
// Member ordering, duplicate policy, and object rendering
// ---------------------------------------------------------------------------

/// The model of a sequence of members.
pub open spec fn ms(es: Seq<Entry>) -> Seq<EntryModel> {
    es.map_values(|e: Entry| e@)
}

/// Strict lexicographic order on UTF-16 code-unit sequences: unit by unit,
/// with a strict prefix ordered first. This is the member order of the
/// canonical form.
pub open spec fn units_lt(a: Seq<u16>, b: Seq<u16>) -> bool
    decreases a.len(),
{
    if b.len() == 0 {
        false
    } else if a.len() == 0 {
        true
    } else if a.first() < b.first() {
        true
    } else if a.first() > b.first() {
        false
    } else {
        units_lt(a.drop_first(), b.drop_first())
    }
}

/// Whether some member of `es` has exactly the key units `k`.
pub open spec fn frame_has_key(es: Seq<EntryModel>, k: Seq<u16>) -> bool {
    exists|j: int| 0 <= j < es.len() && es[j].raw_key == k
}

/// The duplicate-key policy: the last write wins. A member survives only if
/// no later member carries the same key text.
pub open spec fn dedup_keys(es: Seq<EntryModel>) -> Seq<EntryModel>
    decreases es.len(),
{
    if es.len() == 0 {
        Seq::empty()
    } else if frame_has_key(es.drop_first(), es.first().raw_key) {
        dedup_keys(es.drop_first())
    } else {
        seq![es.first()] + dedup_keys(es.drop_first())
    }
}

/// Inserts a member into an already sorted run, before the first member
/// whose key is strictly greater.
pub open spec fn insert_sorted(e: EntryModel, s: Seq<EntryModel>) -> Seq<EntryModel>
    decreases s.len(),
{
    if s.len() == 0 {
        seq![e]
    } else if units_lt(e.raw_key, s.first().raw_key) {
        seq![e] + s
    } else {
        seq![s.first()] + insert_sorted(e, s.drop_first())
    }
}

/// Sorts members by their key units: insertion from the left.
pub open spec fn sort_entries(s: Seq<EntryModel>) -> Seq<EntryModel>
    decreases s.len(),
{
    if s.len() == 0 {
        Seq::empty()
    } else {
        insert_sorted(s.last(), sort_entries(s.drop_last()))
    }
}

/// One rendered member: escaped key, colon, rendered value.
pub open spec fn entry_item(e: EntryModel) -> Seq<u8> {
    e.key_out + seq![0x3Au8] + e.value_out
}

/// The rendered members joined by commas.
pub open spec fn join_items(s: Seq<EntryModel>) -> Seq<u8>
    decreases s.len(),
{
    if s.len() == 0 {
        Seq::empty()
    } else if s.len() == 1 {
        entry_item(s[0])
    } else {
        join_items(s.drop_last()) + seq![0x2Cu8] + entry_item(s.last())
    }
}

/// The canonical rendering of a closed object frame: deduplicate, sort,
/// join, brace.
pub open spec fn obj_bytes(es: Seq<EntryModel>) -> Seq<u8> {
    seq![0x7Bu8] + join_items(sort_entries(dedup_keys(es))) + seq![0x7Du8]
}

/// Compares two key-unit buffers in the canonical member order.
pub fn units_lt_exec(a: &Vec<u16>, b: &Vec<u16>) -> (r: bool)
    ensures
        r == units_lt(a@, b@),
{
    let mut i: usize = 0;
    proof {
        assert(a@.skip(0) =~= a@);
        assert(b@.skip(0) =~= b@);
    }
    while i < a.len() && i < b.len()
        invariant
            i <= a@.len(),
            i <= b@.len(),
            units_lt(a@, b@) == units_lt(a@.skip(i as int), b@.skip(i as int)),
            forall|k: int| 0 <= k < i ==> a@[k] == b@[k],
        decreases a@.len() - i,
    {
        let x = a[i];
        let y = b[i];
        if x < y {
            return true;
        }
        if x > y {
            return false;
        }
        proof {
            assert(a@.skip(i as int).drop_first() =~= a@.skip(i + 1));
            assert(b@.skip(i as int).drop_first() =~= b@.skip(i + 1));
        }
        i = i + 1;
    }
    a.len() < b.len()
}

/// Whether two key-unit buffers hold the same units.
fn units_eq(a: &Vec<u16>, b: &Vec<u16>) -> (r: bool)
    ensures
        r == (a@ == b@),
{
    if a.len() != b.len() {
        return false;
    }
    let mut i: usize = 0;
    while i < a.len()
        invariant
            a@.len() == b@.len(),
            i <= a@.len(),
            forall|k: int| 0 <= k < i ==> a@[k] == b@[k],
        decreases a@.len() - i,
    {
        if a[i] != b[i] {
            return false;
        }
        i = i + 1;
    }
    proof {
        assert(a@ =~= b@);
    }
    true
}

/// Whether a later member reuses the key units `k`.
fn contains_key(src: &Vec<Entry>, k: &Vec<u16>) -> (r: bool)
    ensures
        r == frame_has_key(ms(src@), k@),
{
    let mut j: usize = 0;
    while j < src.len()
        invariant
            j <= src@.len(),
            forall|k2: int| 0 <= k2 < j ==> ms(src@)[k2].raw_key != k@,
        decreases src@.len() - j,
    {
        if units_eq(&src[j].raw_key, k) {
            assert(ms(src@)[j as int].raw_key == k@);
            return true;
        }
        j = j + 1;
    }
    false
}

/// Where `insert_sorted` puts the member: at the first strictly greater key.
proof fn lemma_insert_sorted_split(e: EntryModel, s: Seq<EntryModel>, j: int)
    requires
        0 <= j <= s.len(),
        forall|k: int| 0 <= k < j ==> !units_lt(e.raw_key, s[k].raw_key),
        j < s.len() ==> units_lt(e.raw_key, s[j].raw_key),
    ensures
        insert_sorted(e, s) == s.take(j) + seq![e] + s.skip(j),
    decreases j,
{
    if j == 0 {
        assert(insert_sorted(e, s) =~= s.take(0) + seq![e] + s.skip(0));
    } else {
        assert(!units_lt(e.raw_key, s[0].raw_key));
        let t = s.drop_first();
        assert(forall|k: int| 0 <= k < j - 1 ==> t[k] == s[k + 1]);
        lemma_insert_sorted_split(e, t, j - 1);
        assert(insert_sorted(e, s) == seq![s.first()] + insert_sorted(e, t));
        assert(seq![s.first()] + (t.take(j - 1) + seq![e] + t.skip(j - 1)) =~= s.take(j)
            + seq![e] + s.skip(j));
    }
}

/// Inserts one member into a sorted run of members.
fn insert_entry(dst: &mut Vec<Entry>, e: Entry)
    ensures
        ms(final(dst)@) == insert_sorted(e@, ms(old(dst)@)),
{
    let mut j: usize = 0;
    while j < dst.len() && !units_lt_exec(&e.raw_key, &dst[j].raw_key)
        invariant
            j <= dst@.len(),
            dst@ == old(dst)@,
            forall|k: int| 0 <= k < j ==> !units_lt(e@.raw_key, ms(dst@)[k].raw_key),
        decreases dst@.len() - j,
    {
        j = j + 1;
    }
    proof {
        lemma_insert_sorted_split(e@, ms(old(dst)@), j as int);
    }
    dst.insert(j, e);
    proof {
        assert(ms(final(dst)@) =~~= ms(old(dst)@).take(j as int) + seq![e@] + ms(old(dst)@).skip(
            j as int,
        ));
    }
}

/// `join_items` grows one member at a time.
proof fn lemma_join_items_take(s: Seq<EntryModel>, i: int)
    requires
        0 <= i < s.len(),
    ensures
        i == 0 ==> join_items(s.take(1)) == entry_item(s[0]),
        i > 0 ==> join_items(s.take(i + 1)) == join_items(s.take(i)) + seq![0x2Cu8] + entry_item(
            s[i],
        ),
{
    assert(s.take(i + 1).drop_last() =~= s.take(i));
    assert(s.take(i + 1).last() == s[i]);
    if i == 0 {
        assert(join_items(s.take(1)) == entry_item(s.take(1)[0]));
    }
}

/// `sort_entries` grows one member at a time.
proof fn lemma_sort_entries_take(s: Seq<EntryModel>, i: int)
    requires
        0 <= i < s.len(),
    ensures
        sort_entries(s.take(i + 1)) == insert_sorted(s[i], sort_entries(s.take(i))),
{
    assert(s.take(i + 1).drop_last() =~= s.take(i));
    assert(s.take(i + 1).last() == s[i]);
}

impl Object {
    /// Consumes the frame and renders it canonically: members deduplicated
    /// by the last-write-wins policy, sorted by their key units, joined with
    /// separators, and wrapped in braces.
    pub fn write_to(self) -> (r: Vec<u8>)
        ensures
            r@ == obj_bytes(self@),
    {
        let ghost orig: Seq<EntryModel> = self@;
        let Object { mut entries } = self;

        // Deduplicate: the last write to a key wins.
        let mut kept: Vec<Entry> = Vec::new();
        while entries.len() > 0
            invariant
                dedup_keys(orig) == ms(kept@) + dedup_keys(ms(entries@)),
            decreases entries@.len(),
        {
            let ghost pre: Seq<Entry> = entries@;
            let e = entries.remove(0);
            proof {
                assert(ms(pre).drop_first() =~= ms(entries@));
                assert(ms(pre).first() == e@);
            }
            if !contains_key(&entries, &e.raw_key) {
                kept.push(e);
                proof {
                    assert(ms(kept@).drop_last() =~= ms(kept@.drop_last()));
                    assert(dedup_keys(ms(pre)) =~= seq![e@] + dedup_keys(ms(entries@)));
                    assert(ms(kept@) =~= ms(kept@.drop_last()) + seq![e@]);
                    assert(dedup_keys(orig) =~= ms(kept@) + dedup_keys(ms(entries@)));
                }
            }
        }
        proof {
            assert(ms(entries@) =~= Seq::<EntryModel>::empty());
            assert(dedup_keys(orig) =~= ms(kept@));
        }

        // Sort by key units.
        let ghost deduped: Seq<EntryModel> = ms(kept@);
        let mut sorted: Vec<Entry> = Vec::new();
        while kept.len() > 0
            invariant
                ms(kept@) == deduped.skip(deduped.len() - kept@.len()),
                kept@.len() <= deduped.len(),
                ms(sorted@) == sort_entries(deduped.take(deduped.len() - kept@.len())),
            decreases kept@.len(),
        {
            let ghost pre: Seq<Entry> = kept@;
            let ghost idx: int = deduped.len() - pre.len();
            let e = kept.remove(0);
            proof {
                assert(ms(pre).first() == e@);
                assert(deduped.skip(idx).first() == deduped[idx]);
                assert(e@ == deduped[idx]);
                assert(ms(pre).drop_first() =~= ms(kept@));
                assert(deduped.skip(idx).drop_first() =~= deduped.skip(idx + 1));
            }
            insert_entry(&mut sorted, e);
            proof {
                lemma_sort_entries_take(deduped, idx);
                assert(ms(sorted@) == sort_entries(deduped.take(idx + 1)));
            }
        }
        proof {
            assert(deduped.take(deduped.len() - 0) =~= deduped);
            assert(ms(sorted@) == sort_entries(deduped));
        }

        // Join and wrap.
        let ghost items: Seq<EntryModel> = ms(sorted@);
        let mut r: Vec<u8> = Vec::new();
        r.push(0x7B);
        let mut k: usize = 0;
        while k < sorted.len()
            invariant
                k <= sorted@.len(),
                items == ms(sorted@),
                r@ == seq![0x7Bu8] + join_items(items.take(k as int)),
            decreases sorted@.len() - k,
        {
            if k > 0 {
                r.push(0x2C);
            }
            append_bytes(&mut r, sorted[k].key_out.as_slice());
            r.push(0x3A);
            append_bytes(&mut r, sorted[k].value_out.as_slice());
            proof {
                lemma_join_items_take(items, k as int);
                assert(items[k as int] == ms(sorted@)[k as int]);
                assert(r@ =~= seq![0x7Bu8] + join_items(items.take(k + 1)));
            }
            k = k + 1;
        }
        r.push(0x7D);
        proof {
            assert(items.take(items.len() as int) =~= items);
            assert(r@ =~= obj_bytes(orig));
        }
        r
    }
}

impl ObjectStack {
    /// Closes the innermost object: pops its frame, renders it, and routes
    /// the rendered bytes into the enclosing scope (or the sink when this
    /// was the outermost object). The rendered text never joins a key's
    /// comparison units: a whole object cannot be a key.
    pub fn end_object(&mut self, sink: &mut Vec<u8>)
        requires
            old(self)@.len() > 0,
            old(self)@.len() > 1 ==> old(self)@[old(self)@.len() - 2].len() > 0,
        ensures
            final(self)@ == wr(
                old(self)@.drop_last(),
                obj_bytes(old(self)@.last()),
                Seq::empty(),
            ),
            final(sink)@ == wr_sink(
                old(self)@.drop_last(),
                old(sink)@,
                obj_bytes(old(self)@.last()),
            ),
    {
        let obj = self.objects.pop().unwrap();
        proof {
            assert(obj@ == old(self)@.last());
            assert(self@ =~= old(self)@.drop_last());
        }
        let rendered = obj.write_to();
        self.scope_write(sink, rendered.as_slice());
    }
}

} // verus!

verus! {

/// In a value position the key-unit side of a write is irrelevant.
pub proof fn lemma_wr_value_units(st: Seq<Seq<EntryModel>>, t: Seq<u8>, u: Seq<u16>)
    requires
        !in_key_state(st),
    ensures
        wr(st, t, u) == wr(st, t, Seq::empty()),
{
    if st.len() > 0 && st.last().len() > 0 {
        assert(wr(st, t, u) =~~= wr(st, t, Seq::empty()));
    }
}

} // verus!
