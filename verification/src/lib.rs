//! Codec for the obfuscated game-save format: a gzip-compressed,
//! URL-safe-base64-encoded, XOR-obfuscated XML document in a plist-like
//! dialect, decoded through a pull-style tokenizer into typed values.

pub mod de;
pub mod error;
pub mod laws;
pub mod local_levels;
pub mod num;
pub mod raw;
pub mod ser;
pub mod text;
pub mod token;
pub mod transform;
pub mod value;

use vstd::prelude::*;

verus! {

} // verus!
