//! Trusted boundary to the outside crates: the XXHash64 hash and Unicode
//! lowercasing. Every other use of those results is verified against the
//! contracts stated here.
use vstd::prelude::*;

verus! {

/// The XXHash64 digest of `data` under `seed`, as twox_hash computes it.
/// The digest is a pure function of the seed and the bytes alone.
pub uninterp spec fn xxh64_of(seed: u64, data: Seq<u8>) -> u64;

/// Relies on twox_hash::XxHash64::oneshot: the XXHash64 digest of the given
/// bytes under the given seed, a deterministic function of both.
#[verifier::external_body]
pub fn xxh64(seed: u64, data: &[u8]) -> (r: u64)
    ensures
        r == xxh64_of(seed, data@),
{
    twox_hash::XxHash64::oneshot(seed, data)
}

/// The Unicode lowercase mapping of a character sequence, as
/// str::to_lowercase computes it: a function of the characters alone.
pub uninterp spec fn lower_of(s: Seq<char>) -> Seq<char>;

/// Relies on str::to_lowercase: the result depends on the characters alone,
/// and an empty string stays empty.
#[verifier::external_body]
pub fn lowercase(s: &str) -> (r: String)
    ensures
        r@ == lower_of(s@),
        s@.len() == 0 ==> r@.len() == 0,
{
    s.to_lowercase()
}


/// Relies on String's FromIterator over characters: collecting characters
/// yields the string of exactly those characters.
#[verifier::external_body]
pub fn string_from_chars(v: &Vec<char>) -> (r: String)
    ensures
        r@ == v@,
{
    v.iter().collect()
}

/// Relies on String::from_utf8: it succeeds exactly on valid UTF-8 and
/// returns the decoded character sequence.
#[verifier::external_body]
pub fn utf8_to_string(b: Vec<u8>) -> (r: Option<String>)
    ensures
        match r {
            Some(s) => vstd::utf8::valid_utf8(b@) && s@ == vstd::utf8::decode_utf8(b@),
            None => !vstd::utf8::valid_utf8(b@),
        },
{
    match String::from_utf8(b) {
        Ok(s) => Some(s),
        Err(_) => None,
    }
}

} // verus!
