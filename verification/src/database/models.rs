//! Records stored in the database.
use vstd::prelude::*;

verus! {

/// A hash of a snippet, at a position of the snippet's fingerprint.
#[derive(Debug, Clone)]
pub struct Fingerprint {
    pub id: i64,
    pub snippet_id: i64,
    pub hash_type: String,
    pub hash_value: String,
    pub position: u32,
}

} // verus!
