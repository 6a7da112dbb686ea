//! The per-packet step of the capture loop: reassembly by connection,
//! extraction of identifiers, and the decision whether to deliver them.

use crate::http::{extract_url, url_in};
use crate::ingestion_cache::{ingested, is_ingested, mark_ingested, marked, IngestionCache};
use crate::packet::{packet_key, TcpStreamId};
use crate::salts::{url_record, Salts};
use crate::stream::{
    appended, exceeds, lemma_fragments_join, StreamBuffer, MAX_STREAM_BUFFER_SIZE,
};
use std::time::Instant;
use vstd::prelude::*;

verus! {

/// Number of connections above which idle ones are dropped.
pub const MAX_CONCURRENT_STREAMS: usize = 1000;

/// Idle time, in nanoseconds, after which a connection may be dropped.
pub const STREAM_TIMEOUT_NANOS: u128 = 30_000_000_000;

/// The identifiers that the bytes `payload` carry: those of the URL of
/// the request found in them.
pub open spec fn extracted(payload: Seq<u8>) -> Option<Salts> {
    match url_in(payload) {
        None => None,
        Some(url) => url_record(url),
    }
}

/// A request that arrives in two fragments which fit the buffer together
/// gives the same URL, and so the same identifiers, from the buffer as
/// from the two fragments joined.
pub proof fn lemma_fragments_give_same_url(first: Seq<u8>, second: Seq<u8>)
    requires
        first.len() + second.len() <= MAX_STREAM_BUFFER_SIZE,
    ensures
        url_in(appended(appended(Seq::empty(), first), second)) == url_in(first + second),
        extracted(appended(appended(Seq::empty(), first), second)) == extracted(first + second),
{
    lemma_fragments_join(first, second);
}

/// Reads the identifiers of the replay request found in `payload`, if any.
pub fn extract_salts(payload: &[u8]) -> (r: Option<Salts>)
    ensures
        r == extracted(payload@),
{
    match extract_url(payload) {
        Some(url) => Salts::from_url(url.as_str()),
        None => None,
    }
}

/// Whether a delivery of `salts` would tell the collector something new.
pub open spec fn is_new(entries: Map<u64, (bool, bool)>, salts: Salts) -> bool {
    ||| salts.metadata_salt is Some && !ingested(entries, salts.match_id, true)
    ||| salts.replay_salt is Some && !ingested(entries, salts.match_id, false)
}

/// What the cache holds after a delivery of `salts` succeeded: each salt
/// that the record carries is marked.
pub open spec fn delivered(
    entries: Map<u64, (bool, bool)>,
    limit: usize,
    salts: Salts,
) -> Map<u64, (bool, bool)> {
    let first = if salts.metadata_salt is Some {
        marked(entries, limit, salts.match_id, true)
    } else {
        entries
    };
    if salts.replay_salt is Some {
        marked(first, limit, salts.match_id, false)
    } else {
        first
    }
}

/// Whether `salts` should be delivered: it carries a salt that was not
/// delivered for its match before.
pub fn should_deliver(cache: &IngestionCache, salts: &Salts) -> (r: bool)
    ensures
        r == is_new(cache@, *salts),
{
    (salts.metadata_salt.is_some() && !is_ingested(cache, salts.match_id, true)) || (
    salts.replay_salt.is_some() && !is_ingested(cache, salts.match_id, false))
}

/// Records that `salts` was delivered.
pub fn record_delivery(cache: &mut IngestionCache, salts: &Salts)
    ensures
        final(cache)@ == delivered(old(cache)@, old(cache).limit(), *salts),
        final(cache).limit() == old(cache).limit(),
{
    if salts.metadata_salt.is_some() {
        mark_ingested(cache, salts.match_id, true);
    }
    if salts.replay_salt.is_some() {
        mark_ingested(cache, salts.match_id, false);
    }
}

/// Index of the first entry of `entries` under `key`, or its length.
pub open spec fn index_of_key(entries: Seq<(TcpStreamId, Seq<u8>, Instant)>, key: TcpStreamId) -> int
    decreases entries.len(),
{
    if entries.len() == 0 {
        0
    } else if entries[0].0 == key {
        0
    } else {
        1 + index_of_key(entries.drop_first(), key)
    }
}

/// The bytes held under `key`; none where the key is new.
pub open spec fn held(entries: Seq<(TcpStreamId, Seq<u8>, Instant)>, key: TcpStreamId) -> Seq<u8> {
    let i = index_of_key(entries, key);
    if 0 <= i < entries.len() {
        entries[i].1
    } else {
        Seq::empty()
    }
}

/// `entries` with `bytes` held under `key`, last active at `stamp`: in
/// place where the key is known, at the end where it is new.
pub open spec fn updated(
    entries: Seq<(TcpStreamId, Seq<u8>, Instant)>,
    key: TcpStreamId,
    bytes: Seq<u8>,
    stamp: Instant,
) -> Seq<(TcpStreamId, Seq<u8>, Instant)> {
    let i = index_of_key(entries, key);
    if 0 <= i < entries.len() {
        entries.update(i, (key, bytes, stamp))
    } else {
        entries.push((key, bytes, stamp))
    }
}

/// What a buffer keeps of the bytes `bytes` that it came to hold:
/// nothing where they gave identifiers, otherwise all of them.
pub open spec fn left_over(bytes: Seq<u8>) -> Seq<u8> {
    if extracted(bytes) is Some {
        Seq::empty()
    } else {
        bytes
    }
}

/// Whether `after` is what a table that held `before` may hold once
/// `payload` was offered to the buffer of `key`. That buffer holds the
/// payload added to what it held, or nothing where that gave
/// identifiers, and is stamped with its last activity; every other entry
/// is as it was. Where the payload was dropped by the cap of a buffer
/// that gave no identifiers, nothing changed at all.
pub open spec fn fed(
    before: Seq<(TcpStreamId, Seq<u8>, Instant)>,
    after: Seq<(TcpStreamId, Seq<u8>, Instant)>,
    key: TcpStreamId,
    payload: Seq<u8>,
) -> bool {
    let was = held(before, key);
    let bytes = appended(was, payload);
    &&& exists|stamp: Instant| after == #[trigger] updated(before, key, left_over(bytes), stamp)
    &&& (index_of_key(before, key) < before.len() && was.len() + payload.len()
        > MAX_STREAM_BUFFER_SIZE && extracted(bytes) is None) ==> after == before
}

/// The entries of `entries` whose idle time is within `timeout`, in order.
pub open spec fn kept(
    entries: Seq<(TcpStreamId, Seq<u8>, Instant)>,
    idle: Seq<u128>,
    timeout: u128,
) -> Seq<(TcpStreamId, Seq<u8>, Instant)>
    decreases entries.len(),
{
    if entries.len() == 0 || idle.len() != entries.len() {
        Seq::empty()
    } else {
        let rest = kept(entries.drop_first(), idle.drop_first(), timeout);
        if idle[0] > timeout {
            rest
        } else {
            seq![entries[0]] + rest
        }
    }
}

/// Whether no key occurs twice in `entries`.
pub open spec fn distinct_keys(entries: Seq<(TcpStreamId, Seq<u8>, Instant)>) -> bool {
    forall|i: int, j: int|
        0 <= i < j < entries.len() ==> (#[trigger] entries[i]).0 != (#[trigger] entries[j]).0
}

/// Whether `after` is what pruning may leave of `before`: all of it
/// while the table is within its cap, otherwise the entries that some
/// reading of their idle times finds within the timeout.
pub open spec fn pruned(
    before: Seq<(TcpStreamId, Seq<u8>, Instant)>,
    after: Seq<(TcpStreamId, Seq<u8>, Instant)>,
) -> bool {
    if before.len() <= MAX_CONCURRENT_STREAMS {
        after == before
    } else {
        exists|idle: Seq<u128>|
            idle.len() == before.len() && after == #[trigger] kept(
                before,
                idle,
                STREAM_TIMEOUT_NANOS,
            )
    }
}

/// What `index_of_key` returns is the first index that holds `key`.
pub proof fn lemma_index_of_key(entries: Seq<(TcpStreamId, Seq<u8>, Instant)>, key: TcpStreamId)
    ensures
        0 <= index_of_key(entries, key) <= entries.len(),
        forall|j: int| 0 <= j < index_of_key(entries, key) ==> (#[trigger] entries[j]).0 != key,
        index_of_key(entries, key) < entries.len() ==> entries[index_of_key(entries, key)].0
            == key,
    decreases entries.len(),
{
    if entries.len() > 0 && entries[0].0 != key {
        let t = entries.drop_first();
        lemma_index_of_key(t, key);
        assert forall|j: int| 0 <= j < index_of_key(entries, key) implies (
        #[trigger] entries[j]).0 != key by {
            if j > 0 {
                assert(entries[j] == t[j - 1]);
            }
        }
    }
}

/// The identifiers that the frame `payload` brings to light: those that
/// the buffer of its connection carries once the frame is added. A frame
/// of no TCP connection brings none.
pub open spec fn found_in(entries: Seq<(TcpStreamId, Seq<u8>, Instant)>, payload: Seq<u8>) -> Option<
    Salts,
> {
    match packet_key(payload) {
        None => None,
        Some(key) => extracted(appended(held(entries, key), payload)),
    }
}

/// Whether `after` is what the table may hold once the frame `payload`
/// went through a table that held `before`. A frame of no TCP connection
/// changes nothing. Otherwise the frame was offered to the buffer of its
/// connection, and the table was then pruned.
pub open spec fn reassembled(
    before: Seq<(TcpStreamId, Seq<u8>, Instant)>,
    after: Seq<(TcpStreamId, Seq<u8>, Instant)>,
    payload: Seq<u8>,
) -> bool {
    match packet_key(payload) {
        None => after == before,
        Some(key) => exists|fed_table: Seq<(TcpStreamId, Seq<u8>, Instant)>|
            #[trigger] fed(before, fed_table, key, payload) && pruned(fed_table, after),
    }
}

/// One connection and the bytes seen on it.
pub struct StreamEntry {
    key: TcpStreamId,
    buffer: StreamBuffer,
}

/// The connections being reassembled, each key held once.
pub struct ConnectionTable {
    entries: Vec<StreamEntry>,
}

impl ConnectionTable {
    /// The keys, the bytes held under them and the instants of their last
    /// activity, in order of arrival.
    pub closed spec fn entries(&self) -> Seq<(TcpStreamId, Seq<u8>, Instant)> {
        Seq::new(
            self.entries@.len(),
            |i: int|
                (
                    self.entries@[i].key,
                    self.entries@[i].buffer@,
                    self.entries@[i].buffer.last_activity(),
                ),
        )
    }

    /// Whether the table holds each key once.
    pub open spec fn wf(&self) -> bool {
        distinct_keys(self.entries())
    }

    /// A table without connections.
    pub fn new() -> (table: ConnectionTable)
        ensures
            table.entries() == Seq::<(TcpStreamId, Seq<u8>, Instant)>::empty(),
            table.wf(),
    {
        let table = ConnectionTable { entries: Vec::new() };
        assert(table.entries() =~= Seq::<(TcpStreamId, Seq<u8>, Instant)>::empty());
        table
    }

    /// The number of connections held.
    pub fn len(&self) -> (n: usize)
        ensures
            n == self.entries().len(),
    {
        self.entries.len()
    }

    /// Index of the entry under `key`, or the number of entries.
    fn find(&self, key: &TcpStreamId) -> (i: usize)
        ensures
            i as int == index_of_key(self.entries(), *key),
            i <= self.entries().len(),
            i < self.entries().len() ==> self.entries()[i as int].0 == *key,
    {
        let mut i: usize = 0;
        let ghost all = self.entries();
        assert(all.skip(0) =~= all);
        while i < self.entries.len() && !(self.entries[i].key == *key)
            invariant
                i <= self.entries.len(),
                all == self.entries(),
                all.len() == self.entries.len(),
                index_of_key(all, *key) == i + index_of_key(all.skip(i as int), *key),
            decreases self.entries.len() - i,
        {
            assert(all.skip(i as int)[0] == all[i as int]);
            assert(all.skip(i as int).drop_first() =~= all.skip(i + 1));
            i += 1;
        }
        proof {
            if i < self.entries.len() {
                assert(all.skip(i as int)[0] == all[i as int]);
            }
        }
        i
    }

    /// Offers `payload` to the buffer of `key`, which is created where
    /// the key is new, and reads the identifiers that the buffer then
    /// carries. A buffer that gave identifiers is emptied.
    pub fn feed(&mut self, key: TcpStreamId, payload: &[u8]) -> (r: Option<Salts>)
        requires
            old(self).wf(),
        ensures
            final(self).wf(),
            r == extracted(appended(held(old(self).entries(), key), payload@)),
            fed(old(self).entries(), final(self).entries(), key, payload@),
    {
        let ghost before = self.entries();
        proof {
            lemma_index_of_key(before, key);
        }
        let i = self.find(&key);
        let known = i < self.entries.len();
        let mut buffer = if known {
            self.entries.remove(i).buffer
        } else {
            StreamBuffer::new()
        };
        assert(buffer@ == held(before, key));
        buffer.append(payload);
        let salts = extract_salts(buffer.data().as_slice());
        if salts.is_some() {
            buffer.clear();
        }
        let ghost bytes = buffer@;
        let ghost stamp = buffer.last_activity();
        self.entries.insert(i, StreamEntry { key, buffer });
        proof {
            let after = self.entries();
            let want = updated(before, key, bytes, stamp);
            assert(after.len() == want.len());
            assert forall|j: int| 0 <= j < after.len() implies after[j] == want[j] by {
                if j < i {
                    assert(after[j] == before[j]);
                } else if j > i {
                    assert(after[j] == before[j]);
                }
            }
            assert(after =~= want);
            assert(bytes == left_over(appended(held(before, key), payload@)));
            assert(after == updated(
                before,
                key,
                left_over(appended(held(before, key), payload@)),
                stamp,
            ));
            if known && held(before, key).len() + payload@.len() > MAX_STREAM_BUFFER_SIZE
                && salts is None {
                assert(want =~= before);
            }
            assert forall|a: int, b: int| 0 <= a < b < after.len() implies (#[trigger] after[a]).0
                != (#[trigger] after[b]).0 by {
                if known {
                    assert(after[a].0 == before[a].0);
                    assert(after[b].0 == before[b].0);
                } else {
                    if b < i {
                        assert(after[a] == before[a]);
                        assert(after[b] == before[b]);
                    } else {
                        assert(after[a] == before[a]);
                    }
                }
            }
        }
        salts
    }

    /// The idle time of each connection, in order, in nanoseconds.
    fn idle_times(&self) -> (idle: Vec<u128>)
        ensures
            idle@.len() == self.entries().len(),
    {
        let mut idle: Vec<u128> = Vec::new();
        let mut i: usize = 0;
        while i < self.entries.len()
            invariant
                i <= self.entries.len(),
                idle@.len() == i,
            decreases self.entries.len() - i,
        {
            idle.push(self.entries[i].buffer.idle_nanos());
            i += 1;
        }
        idle
    }

    /// Drops each connection whose idle time, given in `idle` in the
    /// order of the table, is longer than `timeout`.
    pub fn retain_fresh(&mut self, idle: &Vec<u128>, timeout: u128)
        requires
            old(self).wf(),
            idle@.len() == old(self).entries().len(),
        ensures
            final(self).wf(),
            final(self).entries() == kept(old(self).entries(), idle@, timeout),
    {
        let ghost before = self.entries();
        let mut i: usize = self.entries.len();
        assert(before.skip(i as int) =~= Seq::<(TcpStreamId, Seq<u8>, Instant)>::empty());
        assert(before.take(i as int) =~= before);
        assert(before + kept(before.skip(i as int), idle@.skip(i as int), timeout) =~= before);
        while i > 0
            invariant
                i <= before.len(),
                idle@.len() == before.len(),
                i <= self.entries.len(),
                distinct_keys(self.entries()),
                self.entries() == before.take(i as int) + kept(
                    before.skip(i as int),
                    idle@.skip(i as int),
                    timeout,
                ),
            decreases i,
        {
            i -= 1;
            let ghost now = self.entries();
            let ghost tail = kept(before.skip(i + 1), idle@.skip(i + 1), timeout);
            proof {
                assert(before.skip(i as int).drop_first() =~= before.skip(i + 1));
                assert(idle@.skip(i as int).drop_first() =~= idle@.skip(i + 1));
                assert(before.skip(i as int)[0] == before[i as int]);
                assert(idle@.skip(i as int)[0] == idle@[i as int]);
                assert(before.take(i + 1) =~= before.take(i as int).push(before[i as int]));
            }
            if exceeds(idle[i], timeout) {
                self.entries.remove(i);
                proof {
                    let after = self.entries();
                    assert(after =~= now.remove(i as int));
                    assert(now.remove(i as int) =~= before.take(i as int) + tail);
                    assert forall|a: int, b: int| 0 <= a < b < after.len() implies (
                    #[trigger] after[a]).0 != (#[trigger] after[b]).0 by {
                        let a0 = if a < i { a } else { a + 1 };
                        let b0 = if b < i { b } else { b + 1 };
                        assert(after[a] == now[a0]);
                        assert(after[b] == now[b0]);
                    }
                }
            } else {
                assert(now =~= before.take(i as int) + (seq![before[i as int]] + tail));
            }
        }
        assert(before.skip(0) =~= before);
        assert(idle@.skip(0) =~= idle@);
        assert(before.take(0) + kept(before, idle@, timeout) =~= kept(before, idle@, timeout));
    }

    /// Drops the connections that have been idle for longer than the
    /// timeout, where the table holds more than its cap.
    pub fn prune(&mut self)
        requires
            old(self).wf(),
        ensures
            final(self).wf(),
            pruned(old(self).entries(), final(self).entries()),
    {
        if self.entries.len() > MAX_CONCURRENT_STREAMS {
            let idle = self.idle_times();
            self.retain_fresh(&idle, STREAM_TIMEOUT_NANOS);
        }
    }

    /// Takes one captured frame through reassembly: finds its connection,
    /// offers the frame to that connection's buffer, reads the
    /// identifiers that the buffer then carries, and prunes the table. A
    /// frame of no TCP connection changes nothing.
    pub fn process_payload(&mut self, payload: &[u8]) -> (r: Option<Salts>)
        requires
            old(self).wf(),
        ensures
            final(self).wf(),
            r == found_in(old(self).entries(), payload@),
            reassembled(old(self).entries(), final(self).entries(), payload@),
    {
        let key = match TcpStreamId::from_packet(payload) {
            Some(k) => k,
            None => {
                return None;
            },
        };
        let salts = self.feed(key, payload);
        let ghost fed_table = self.entries();
        self.prune();
        assert(fed(old(self).entries(), fed_table, key, payload@) && pruned(
            fed_table,
            self.entries(),
        ));
        salts
    }
}

/// What one captured frame gives to deliver: the identifiers that its
/// connection's buffer carries once the frame is added, where they hold
/// a salt that was not delivered before.
pub open spec fn to_deliver(
    entries: Seq<(TcpStreamId, Seq<u8>, Instant)>,
    cached: Map<u64, (bool, bool)>,
    payload: Seq<u8>,
) -> Option<Salts> {
    match found_in(entries, payload) {
        Some(salts) => if is_new(cached, salts) {
            Some(salts)
        } else {
            None
        },
        None => None,
    }
}

/// Takes one captured frame through reassembly, which changes the table
/// as `process_payload` does, and says what is to be delivered for it, if
/// anything.
pub fn on_payload(table: &mut ConnectionTable, cache: &IngestionCache, payload: &[u8]) -> (r:
    Option<Salts>)
    requires
        old(table).wf(),
    ensures
        final(table).wf(),
        r == to_deliver(old(table).entries(), cache@, payload@),
        reassembled(old(table).entries(), final(table).entries(), payload@),
{
    match table.process_payload(payload) {
        Some(salts) => if should_deliver(cache, &salts) {
            Some(salts)
        } else {
            None
        },
        None => None,
    }
}

} // verus!
