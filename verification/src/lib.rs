//! Canonical JSON serialization following the JSON Canonicalization Scheme
//! of RFC 8785: a unique, deterministic, byte-stable rendering of a JSON
//! value, suitable as input to hashes and signatures.
//!
//! The core is the streaming [`ser::CanonicalFormatter`]: an external driver
//! walks a value and calls one method per primitive or structural event; the
//! formatter buffers each object's members until the object closes, sorts
//! them by the UTF-16 code units of their unescaped key text, and emits
//! strict minimal JSON. [`value::Value`] and the entry points
//! [`value::to_string`], [`value::to_vec`] and [`value::to_sink`] drive the
//! formatter over an owned value tree, with the output proved equal to the
//! canonical encoding [`value::canon`] specifies.

pub mod encode;
pub mod entry;
pub mod error;
pub mod laws;
pub mod object;
pub mod ser;
pub mod value;
