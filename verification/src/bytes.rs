//! Searching in captured bytes.

use crate::text::{lemma_search_absent, lemma_search_found, occurs_at, search};
use crate::text::{lemma_position_unique, position};
use vstd::prelude::*;
use vstd::utf8::{decode_utf8, valid_utf8};

verus! {

/// `memchr::memmem::find`: the index of the first occurrence of `needle`
/// in `haystack`, or `None` where it occurs nowhere.
#[verifier::external_body]
fn memmem_find(haystack: &[u8], needle: &[u8]) -> (r: Option<usize>)
    ensures
        match r {
            Some(i) => occurs_at(haystack@, needle@, i as int) && forall|j: int|
                0 <= j < i ==> !occurs_at(haystack@, needle@, j),
            None => forall|j: int| !occurs_at(haystack@, needle@, j),
        },
{
    memchr::memmem::find(haystack, needle)
}

/// Index of the first occurrence of `needle` in `haystack`, if any.
pub fn find_bytes(haystack: &[u8], needle: &[u8]) -> (r: Option<usize>)
    ensures
        match r {
            Some(i) => i + needle.len() <= haystack.len() && search(haystack@, needle@) == Some(
                i as int,
            ),
            None => search(haystack@, needle@) is None,
        },
{
    let r = memmem_find(haystack, needle);
    proof {
        match r {
            Some(i) => lemma_search_found(haystack@, needle@, 0, i as int),
            None => lemma_search_absent(haystack@, needle@, 0),
        }
    }
    r
}

/// `core::str::from_utf8`: the text of `bytes` where they are valid UTF-8,
/// `None` where they are not.
#[verifier::external_body]
pub(crate) fn utf8_strict(bytes: &[u8]) -> (r: Option<String>)
    ensures
        r is Some <==> valid_utf8(bytes@),
        r matches Some(s) ==> s@ == decode_utf8(bytes@),
{
    match core::str::from_utf8(bytes) {
        Ok(s) => Some(s.to_owned()),
        Err(_) => None,
    }
}

/// `memchr::memchr`: the index of the first byte of `haystack` equal to
/// `needle`, or `None` where there is none.
#[verifier::external_body]
fn memchr_first(needle: u8, haystack: &[u8]) -> (r: Option<usize>)
    ensures
        match r {
            Some(i) => i < haystack@.len() && haystack@[i as int] == needle && forall|j: int|
                0 <= j < i ==> haystack@[j] != needle,
            None => forall|j: int| 0 <= j < haystack@.len() ==> haystack@[j] != needle,
        },
{
    memchr::memchr(needle, haystack)
}

/// Index of the first byte of `haystack` equal to `needle`, or its
/// length where there is none.
pub fn find_byte(needle: u8, haystack: &[u8]) -> (r: usize)
    ensures
        r <= haystack@.len(),
        r as int == position(haystack@, needle),
{
    let r = match memchr_first(needle, haystack) {
        Some(i) => i,
        None => haystack.len(),
    };
    proof {
        lemma_position_unique(haystack@, needle, r as int);
    }
    r
}

} // verus!
