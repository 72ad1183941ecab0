//! Declarations taken on trust: each names or wraps exactly one function of an
//! outside crate, or of std where vstd leaves it unspecified. Everything else
//! in this crate is verified against these contracts.

use vstd::prelude::*;

verus! {

/// Unicode lowercase form of a character sequence, as `str::to_lowercase`
/// produces it.
pub uninterp spec fn lower_of(s: Seq<char>) -> Seq<char>;

/// Relies on `str::to_lowercase`: the result depends on the characters alone.
#[verifier::external_body]
pub fn to_lower(s: &str) -> (r: String)
    ensures
        r@ == lower_of(s@),
{
    s.to_lowercase()
}

/// Whether `char::is_alphanumeric` accepts `c`.
pub uninterp spec fn is_word_char(c: char) -> bool;

/// Relies on `char::is_alphanumeric`: a fixed classification of each character.
pub assume_specification[ char::is_alphanumeric ](c: char) -> (r: bool)
    ensures
        r == is_word_char(c),
;

/// Relies on `char::from_u32`, documented to yield a char exactly for Unicode
/// scalar values: every `u32` below the surrogate range, or between the
/// surrogate range and 0x10FFFF, and no other.
pub assume_specification[ char::from_u32 ](v: u32) -> (r: Option<char>)
    ensures
        (v < 0xD800 || (0xE000 <= v && v <= 0x10FFFF)) <==> r is Some,
        r matches Some(c) ==> c as u32 == v,
;

/// Relies on `String::from_iter` over characters: collecting yields a string
/// of exactly those characters.
#[verifier::external_body]
pub fn chars_to_string(cs: &Vec<char>) -> (s: String)
    ensures
        s@ == cs@,
{
    cs.iter().collect()
}

/// 64-bit XXH3 digest of the UTF-8 bytes of a character sequence.
pub uninterp spec fn xxh3_of(s: Seq<char>) -> u64;

/// Relies on `xxhash_rust::xxh3::xxh3_64`: the digest depends on the input
/// bytes alone, and the UTF-8 bytes of a `str` depend on its characters alone.
#[verifier::external_body]
pub fn xxh3_str(s: &str) -> (r: u64)
    ensures
        r == xxh3_of(s@),
{
    xxhash_rust::xxh3::xxh3_64(s.as_bytes())
}

} // verus!
