//! One buffered object member: the key text in its comparison form, the
//! escaped key bytes, and the rendered value bytes.

use vstd::prelude::*;

verus! {

/// One object member being assembled.
///
/// While `in_key` is true, incoming writes belong to the key: escaped output
/// bytes go to `key_out` and the unescaped UTF-16 code units of the key text
/// go to `raw_key`, which exists only to drive the member sort. Once the key
/// closes, `in_key` turns false and writes fill `value_out`.
pub struct Entry {
    /// UTF-16 code units of the unescaped key text, for comparison only.
    pub raw_key: Vec<u16>,
    /// Fully escaped and quoted key bytes, ready for output.
    pub key_out: Vec<u8>,
    /// Fully rendered value bytes, ready for output.
    pub value_out: Vec<u8>,
    /// True while incoming writes still belong to the key.
    pub in_key: bool,
}

/// The mathematical shadow of an [`Entry`].
#[verifier::ext_equal]
pub struct EntryModel {
    pub raw_key: Seq<u16>,
    pub key_out: Seq<u8>,
    pub value_out: Seq<u8>,
    pub in_key: bool,
}

impl View for Entry {
    type V = EntryModel;

    open spec fn view(&self) -> EntryModel {
        EntryModel {
            raw_key: self.raw_key@,
            key_out: self.key_out@,
            value_out: self.value_out@,
            in_key: self.in_key,
        }
    }
}

/// The model of a freshly begun member: all buffers empty, key open.
pub open spec fn fresh_entry() -> EntryModel {
    EntryModel {
        raw_key: Seq::empty(),
        key_out: Seq::empty(),
        value_out: Seq::empty(),
        in_key: true,
    }
}

impl Entry {
    /// Begins a new member, ready to receive its key.
    pub fn new() -> (r: Self)
        ensures
            r@ == fresh_entry(),
    {
        let r = Entry {
            raw_key: Vec::new(),
            key_out: Vec::new(),
            value_out: Vec::new(),
            in_key: true,
        };
        proof {
            assert(r@ =~= fresh_entry());
        }
        r
    }
}

} // verus!
