//! The persistence gateway's decision logic.
//!
//! Reading and writing the file itself is the shell's job; this module fixes
//! what is loaded from whatever the file held and what is written back, so
//! that every storage failure collapses to "start empty" and a write always
//! carries the current texts in order.

use vstd::prelude::*;

use crate::codec::decode;
use crate::codec::encode;
use crate::codec::spec_decode;
use crate::codec::spec_encode;

verus! {

/// The texts to start from, given the raw file content, or nothing where the
/// file was absent or unreadable. An absent file and a document that does
/// not decode both load as no templates at all: loss of the save file never
/// prevents a start.
pub fn load_from_raw(raw: Option<String>) -> (items: Vec<String>)
    ensures
        match raw {
            Some(text) => match spec_decode(text@) {
                Some(ts) => items.deep_view() == ts,
                None => items@.len() == 0,
            },
            None => items@.len() == 0,
        },
{
    match raw {
        None => Vec::new(),
        Some(text) => match decode(text.as_str()) {
            None => Vec::new(),
            Some(items) => items,
        },
    }
}

/// The document to write back for the given texts: exactly their encoding,
/// in order.
pub fn save_payload(items: &Vec<String>) -> (doc: String)
    ensures
        doc@ == spec_encode(items.deep_view()),
{
    encode(items)
}

} // verus!
