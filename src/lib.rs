//! String processing on encrypted bytes.
//!
//! Every operation here runs as a fixed-shape computation over encrypted
//! bytes: it visits every candidate position, combines per-position results
//! with selects, and never branches on a secret. Strings are buffers of fixed
//! capacity whose text is followed by zero padding.
//!
//! - `fhe_char`: the encrypted byte and its operations.
//! - `fhe_string`: the padded buffer, its text, and zero compaction.
//! - `server_key`: contains, starts_with, ends_with, find, rfind, is_empty, len.
//! - `case_compare`: case mapping, equality and lexicographic comparison.
//! - `transform`: strip, concatenate, repeat and trim.
//! - `replace`: replace and replacen.
//! - `split`, `rsplit`, `whitespace`: the split family.
//! - `clear`: the operations with a plaintext pattern.
//! - `client_key`: encryption and decryption.
//! - `laws`: properties that relate several calls.
//! - `compressed`, `seeders`: key material and seeds.
use vstd::prelude::*;

pub mod case_compare;
pub mod clear;
pub mod client_key;
pub mod compressed;
pub mod fhe_char;
pub mod fhe_string;
pub mod laws;
pub mod replace;
pub mod rsplit;
pub mod seeders;
pub mod server_key;
pub mod split;
pub mod transform;
pub mod whitespace;

verus! {

} // verus!
