//! Finding replay URLs in the files of the download cache.

use crate::bytes::{find_byte, find_bytes, utf8_strict};
use crate::delivery::MAX_MATCH_ID;
use crate::ingestion_cache::IngestionCache;
use crate::listener::{is_new, should_deliver};
use crate::salts::{url_record, Salts};
use crate::text::{
    append_chars, chars_of, contains_seq, find_sub, has_prefix, lemma_position, position, search,
    starts_with, string_of,
};
use vstd::prelude::*;
use vstd::utf8::{decode_utf8, valid_utf8};

verus! {

/// Only the first `MAX_BYTES_TO_READ` bytes of a file are looked at.
pub const MAX_BYTES_TO_READ: usize = 200;

/// The bytes `.valve.net`.
pub open spec fn domain_marker() -> Seq<u8> {
    seq![46u8, 118u8, 97u8, 108u8, 118u8, 101u8, 46u8, 110u8, 101u8, 116u8]
}

/// Whether `b` may stand in a host name: an ASCII letter, a digit or a dot.
pub open spec fn is_host_byte(b: u8) -> bool {
    ||| 48 <= b <= 57
    ||| 65 <= b <= 90
    ||| 97 <= b <= 122
    ||| b == 46
}

/// Whether `b` ends a path: a space, a quote of either kind, a null
/// byte, a line feed or a carriage return.
pub open spec fn is_path_end(b: u8) -> bool {
    b == 32 || b == 39 || b == 0 || b == 10 || b == 13 || b == 34
}

/// Where the host name that ends before index `i` begins.
pub open spec fn host_start(data: Seq<u8>, i: int) -> int
    decreases i,
{
    if i <= 0 || i > data.len() {
        0
    } else if !is_host_byte(data[i - 1]) {
        i
    } else {
        host_start(data, i - 1)
    }
}

/// Index of the first byte of `s` that ends a path, or `s.len()`.
pub open spec fn path_len(s: Seq<u8>) -> int
    decreases s.len(),
{
    if s.len() == 0 || is_path_end(s[0]) {
        0
    } else {
        1 + path_len(s.drop_first())
    }
}

/// What the occurrence of the domain marker at index `i` of `data` gives.
pub enum Found {
    /// The replay URL that stands there.
    Url(Seq<char>),
    /// Nothing; the search goes on behind the marker.
    Skip,
    /// Nothing, and nothing can follow: the path has no end.
    Stop,
}

/// What the occurrence of the domain marker at index `i` of `data`
/// gives: the host runs from the last byte before `i` that cannot stand
/// in a host name up to the end of the marker and must begin with
/// `replay`; the path runs from the first slash behind the host up to
/// the first byte that ends a path and must name the application.
pub open spec fn found_at(data: Seq<u8>, i: int) -> Found {
    let host_end = i + domain_marker().len();
    let host = data.subrange(host_start(data, i), host_end);
    let slash = host_end + position(data.skip(host_end), 47u8);
    let rest = data.skip(slash);
    let path = rest.take(path_len(rest));
    if !valid_utf8(host) || !starts_with(decode_utf8(host), "replay"@) {
        Found::Skip
    } else if slash >= data.len() {
        Found::Skip
    } else if path_len(rest) >= rest.len() {
        Found::Stop
    } else if !valid_utf8(path) || !contains_seq(decode_utf8(path), "1422450"@) {
        Found::Skip
    } else {
        Found::Url("http://"@ + decode_utf8(host) + decode_utf8(path))
    }
}

/// The replay URL found in `data` from index `from` on: that of the
/// first occurrence of the domain marker that gives one.
pub open spec fn replay_url_from(data: Seq<u8>, from: int) -> Option<Seq<char>>
    decreases data.len() - from,
{
    if from < 0 || from > data.len() {
        None
    } else {
        match search(data.skip(from), domain_marker()) {
            None => None,
            Some(k) => if k < 0 || from + k + domain_marker().len() > data.len() {
                None
            } else {
                match found_at(data, from + k) {
                    Found::Url(url) => Some(url),
                    Found::Stop => None,
                    Found::Skip => replay_url_from(data, from + k + domain_marker().len()),
                }
            },
        }
    }
}

/// The replay URL written in the first bytes of a cache file.
pub open spec fn replay_url(data: Seq<u8>) -> Option<Seq<char>> {
    if data.len() <= MAX_BYTES_TO_READ {
        replay_url_from(data, 0)
    } else {
        replay_url_from(data.take(MAX_BYTES_TO_READ as int), 0)
    }
}

/// The records that the files of the cache give for one batch: of each
/// file that holds a replay URL the record of that URL, where it has one
/// that may be delivered.
pub open spec fn batch_of(files: Seq<Vec<u8>>) -> Seq<Salts>
    decreases files.len(),
{
    if files.len() == 0 {
        Seq::empty()
    } else {
        let before = batch_of(files.drop_last());
        match replay_url(files.last()@) {
            Some(url) => match url_record(url) {
                Some(record) => if record.match_id <= MAX_MATCH_ID {
                    before.push(record)
                } else {
                    before
                },
                None => before,
            },
            None => before,
        }
    }
}

/// A change that the watcher reports of a file.
#[derive(Debug, Clone, Copy, PartialEq, Eq, Structural)]
pub enum FileChange {
    Created,
    DataModified,
    Other,
}

/// The record to deliver after `change` to a file that holds `data`: that
/// of its replay URL, where the file was created or its data modified and
/// the record carries a salt not yet delivered.
pub open spec fn record_to_deliver(
    entries: Map<u64, (bool, bool)>,
    change: FileChange,
    data: Seq<u8>,
) -> Option<Salts> {
    if change == FileChange::Other {
        None
    } else {
        match replay_url(data) {
            None => None,
            Some(url) => match url_record(url) {
                Some(record) => if is_new(entries, record) {
                    Some(record)
                } else {
                    None
                },
                None => None,
            },
        }
    }
}

pub proof fn lemma_path_len(s: Seq<u8>, n: int)
    requires
        0 <= n <= s.len(),
        forall|j: int| 0 <= j < n ==> !is_path_end(s[j]),
        n < s.len() ==> is_path_end(s[n]),
    ensures
        path_len(s) == n,
    decreases n,
{
    if n > 0 {
        let t = s.drop_first();
        assert forall|j: int| 0 <= j < n - 1 implies !is_path_end(t[j]) by {
            assert(t[j] == s[j + 1]);
        }
        lemma_path_len(t, n - 1);
    }
}

/// Whether `b` may stand in a host name.
fn host_byte(b: u8) -> (r: bool)
    ensures
        r == is_host_byte(b),
{
    (48 <= b && b <= 57) || (65 <= b && b <= 90) || (97 <= b && b <= 122) || b == 46
}

/// The smaller of two indexes.
fn least(a: usize, b: usize) -> (r: usize)
    ensures
        r <= a,
        r <= b,
        r == a || r == b,
{
    if a <= b {
        a
    } else {
        b
    }
}

/// Index of the first byte of `s` that ends a path, or its length.
fn path_end(s: &[u8]) -> (n: usize)
    ensures
        n <= s@.len(),
        n as int == path_len(s@),
{
    proof {
        lemma_position(s@, 32u8);
        lemma_position(s@, 39u8);
        lemma_position(s@, 0u8);
        lemma_position(s@, 10u8);
        lemma_position(s@, 13u8);
        lemma_position(s@, 34u8);
    }
    let a = least(find_byte(32, s), find_byte(39, s));
    let b = least(find_byte(0, s), find_byte(10, s));
    let c = least(find_byte(13, s), find_byte(34, s));
    let n = least(a, least(b, c));
    proof {
        lemma_path_len(s@, n as int);
    }
    n
}

/// Where the host name that ends before index `i` begins.
fn find_host_start(data: &[u8], i: usize) -> (r: usize)
    requires
        i <= data@.len(),
    ensures
        r <= i,
        r as int == host_start(data@, i as int),
{
    let mut k: usize = i;
    while k > 0 && host_byte(data[k - 1])
        invariant
            k <= i <= data@.len(),
            host_start(data@, i as int) == host_start(data@, k as int),
        decreases k,
    {
        k -= 1;
    }
    k
}

/// What the occurrence of the domain marker at index `i` gives. The
/// result is `None` for `Found::Skip`, `Some(None)` for `Found::Stop`.
fn look_at(data: &[u8], i: usize) -> (r: Option<Option<String>>)
    requires
        i + 10 <= data.len(),
    ensures
        match r {
            None => found_at(data@, i as int) is Skip,
            Some(None) => found_at(data@, i as int) is Stop,
            Some(Some(url)) => found_at(data@, i as int) == Found::Url(url@),
        },
{
    let host_end: usize = i + 10;
    let start = find_host_start(data, i);
    let host = match utf8_strict(&data[start..host_end]) {
        Some(h) => chars_of(h.as_str()),
        None => {
            return None;
        },
    };
    if !has_prefix(&host, &chars_of("replay")) {
        return None;
    }
    let tail: &[u8] = &data[host_end..data.len()];
    assert(tail@ =~= data@.skip(host_end as int));
    let slash: usize = host_end + find_byte(47, tail);
    if slash >= data.len() {
        return None;
    }
    let rest: &[u8] = &data[slash..data.len()];
    assert(rest@ =~= data@.skip(slash as int));
    let n = path_end(rest);
    if n >= rest.len() {
        return Some(None);
    }
    assert(rest@.subrange(0, n as int) =~= rest@.take(n as int));
    let path = match utf8_strict(&rest[0..n]) {
        Some(p) => chars_of(p.as_str()),
        None => {
            return None;
        },
    };
    if find_sub(&path, &chars_of("1422450")).is_none() {
        return None;
    }
    let mut url: Vec<char> = Vec::new();
    append_chars(&mut url, &chars_of("http://"));
    append_chars(&mut url, &host);
    append_chars(&mut url, &path);
    assert(url@ =~= "http://"@ + host@ + path@);
    Some(Some(string_of(&url)))
}

/// The replay URL written in the first bytes of a cache file, if any.
pub fn extract_replay_url(data: &[u8]) -> (r: Option<String>)
    ensures
        match r {
            Some(url) => replay_url(data@) == Some(url@),
            None => replay_url(data@) is None,
        },
{
    let head: &[u8] = if data.len() <= MAX_BYTES_TO_READ {
        data
    } else {
        &data[0..MAX_BYTES_TO_READ]
    };
    assert(data@.len() > MAX_BYTES_TO_READ ==> head@ =~= data@.take(MAX_BYTES_TO_READ as int));
    let marker: Vec<u8> = vec![46u8, 118u8, 97u8, 108u8, 118u8, 101u8, 46u8, 110u8, 101u8, 116u8];
    assert(marker@ =~= domain_marker());
    let mut from: usize = 0;
    loop
        invariant
            from <= head@.len(),
            marker@ == domain_marker(),
            replay_url(data@) == replay_url_from(head@, from as int),
        decreases head@.len() - from,
    {
        let tail: &[u8] = &head[from..head.len()];
        assert(tail@ =~= head@.skip(from as int));
        let k = match find_bytes(tail, marker.as_slice()) {
            Some(k) => k,
            None => {
                return None;
            },
        };
        match look_at(head, from + k) {
            Some(Some(url)) => {
                return Some(url);
            },
            Some(None) => {
                return None;
            },
            None => {},
        }
        from = from + k + 10;
    }
}

/// The records that the files found in the cache give for the first
/// batch. `files` holds the first bytes of each file.
pub fn initial_cache_dir_ingest(files: &Vec<Vec<u8>>) -> (batch: Vec<Salts>)
    ensures
        batch@ == batch_of(files@),
{
    let mut batch: Vec<Salts> = Vec::new();
    let mut i: usize = 0;
    assert(files@.take(0) =~= Seq::<Vec<u8>>::empty());
    while i < files.len()
        invariant
            i <= files.len(),
            batch@ == batch_of(files@.take(i as int)),
        decreases files.len() - i,
    {
        proof {
            let longer = files@.take(i + 1);
            assert(longer.drop_last() =~= files@.take(i as int));
            assert(longer.last() == files@[i as int]);
        }
        match extract_replay_url(files[i].as_slice()) {
            Some(url) => match Salts::from_url(url.as_str()) {
                Some(record) => {
                    if record.match_id <= MAX_MATCH_ID {
                        batch.push(record);
                    }
                },
                None => {},
            },
            None => {},
        }
        i += 1;
    }
    assert(files@.take(i as int) =~= files@);
    batch
}

/// What the watcher delivers after `change` to a file whose first bytes
/// are `data`: the record of its replay URL, where that is new.
pub fn watch_cache_dir(cache: &IngestionCache, change: FileChange, data: &[u8]) -> (r: Option<
    Salts,
>)
    ensures
        r == record_to_deliver(cache@, change, data@),
{
    if change == FileChange::Other {
        return None;
    }
    let url = match extract_replay_url(data) {
        Some(u) => u,
        None => {
            return None;
        },
    };
    match Salts::from_url(url.as_str()) {
        Some(record) => if should_deliver(cache, &record) {
            Some(record)
        } else {
            None
        },
        None => None,
    }
}

} // verus!
