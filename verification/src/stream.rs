//! Per-connection byte accumulation.

use std::time::Duration;
use std::time::Instant;
use vstd::prelude::*;

verus! {

/// Largest number of bytes one connection may accumulate.
pub const MAX_STREAM_BUFFER_SIZE: usize = 16384;

#[verifier::external_type_specification]
#[verifier::external_body]
pub struct ExInstant(Instant);

/// What a buffer holds after `payload` is offered to a buffer holding `data`:
/// the concatenation when it fits under the cap, otherwise `data` untouched.
pub open spec fn appended(data: Seq<u8>, payload: Seq<u8>) -> Seq<u8> {
    if data.len() + payload.len() <= MAX_STREAM_BUFFER_SIZE {
        data + payload
    } else {
        data
    }
}

/// What a buffer holding `data` holds after each of `fragments` is offered in turn.
pub open spec fn appended_all(data: Seq<u8>, fragments: Seq<Seq<u8>>) -> Seq<u8>
    decreases fragments.len(),
{
    if fragments.len() == 0 {
        data
    } else {
        appended_all(appended(data, fragments[0]), fragments.drop_first())
    }
}

/// However many fragments are offered, and however large, a buffer that
/// starts within the cap stays within it.
pub proof fn lemma_cap_holds(data: Seq<u8>, fragments: Seq<Seq<u8>>)
    requires
        data.len() <= MAX_STREAM_BUFFER_SIZE,
    ensures
        appended_all(data, fragments).len() <= MAX_STREAM_BUFFER_SIZE,
    decreases fragments.len(),
{
    if fragments.len() > 0 {
        lemma_cap_holds(appended(data, fragments[0]), fragments.drop_first());
    }
}

/// Two fragments that fit together leave an empty buffer holding their
/// concatenation, so whatever is read from the buffer is what would be
/// read from the joined bytes.
pub proof fn lemma_fragments_join(first: Seq<u8>, second: Seq<u8>)
    requires
        first.len() + second.len() <= MAX_STREAM_BUFFER_SIZE,
    ensures
        appended(appended(Seq::empty(), first), second) == first + second,
        appended_all(Seq::empty(), seq![first, second]) == first + second,
{
    let empty = Seq::<u8>::empty();
    assert(empty + first =~= first);
    let both = seq![first, second];
    assert(both.drop_first() =~= seq![second]);
    assert(seq![second].drop_first() =~= Seq::<Seq<u8>>::empty());
    assert(appended_all(appended(first, second), Seq::<Seq<u8>>::empty()) == first + second);
    assert(appended_all(first, seq![second]) == first + second);
}

/// `Instant::now`: the present reading of the monotonic clock.
#[verifier::external_body]
fn now() -> Instant {
    Instant::now()
}

/// `Instant::elapsed`: the time that has passed since `since`, by the
/// clock when the call is made.
#[verifier::external_body]
fn elapsed(since: &Instant) -> Duration {
    since.elapsed()
}

/// `Duration::as_nanos`: the length of `d` in nanoseconds.
#[verifier::external_body]
fn nanos_of(d: &Duration) -> u128 {
    d.as_nanos()
}

/// Whether an idle time is longer than the timeout allows.
pub fn exceeds(elapsed_nanos: u128, timeout_nanos: u128) -> (r: bool)
    ensures
        r == (elapsed_nanos > timeout_nanos),
{
    elapsed_nanos > timeout_nanos
}

/// The bytes of `data` followed by those of `payload`.
fn joined(data: &Vec<u8>, payload: &[u8]) -> (out: Vec<u8>)
    ensures
        out@ == data@ + payload@,
{
    let mut out: Vec<u8> = data.clone();
    out.extend_from_slice(payload);
    assert(out@ =~= data@ + payload@);
    out
}

/// The bytes seen so far on one connection, with the time of the last
/// change. It never holds more than `MAX_STREAM_BUFFER_SIZE` bytes.
#[derive(Debug)]
pub struct StreamBuffer {
    data: Vec<u8>,
    last_activity: Instant,
}

impl View for StreamBuffer {
    type V = Seq<u8>;

    closed spec fn view(&self) -> Seq<u8> {
        self.data@
    }
}

impl StreamBuffer {
    #[verifier::type_invariant]
    spec fn within_cap(self) -> bool {
        self.data@.len() <= MAX_STREAM_BUFFER_SIZE
    }

    /// The instant of the last change.
    pub closed spec fn last_activity(&self) -> Instant {
        self.last_activity
    }

    /// An empty buffer, active now.
    pub fn new() -> (buffer: StreamBuffer)
        ensures
            buffer@ == Seq::<u8>::empty(),
    {
        StreamBuffer { data: Vec::new(), last_activity: now() }
    }

    /// The bytes held.
    pub fn data(&self) -> (bytes: &Vec<u8>)
        ensures
            bytes@ == self@,
            bytes@.len() <= MAX_STREAM_BUFFER_SIZE,
    {
        proof {
            use_type_invariant(self);
        }
        &self.data
    }

    /// Adds `payload` at the end and marks the buffer active, unless that
    /// would take the buffer over the cap: then nothing changes.
    pub fn append(&mut self, payload: &[u8])
        ensures
            final(self)@ == appended(old(self)@, payload@),
            final(self)@.len() <= MAX_STREAM_BUFFER_SIZE,
            old(self)@.len() + payload@.len() > MAX_STREAM_BUFFER_SIZE
                ==> final(self).last_activity() == old(self).last_activity(),
    {
        proof {
            use_type_invariant(&*self);
        }
        if payload.len() <= MAX_STREAM_BUFFER_SIZE && self.data.len() <= MAX_STREAM_BUFFER_SIZE
            - payload.len() {
            self.data = joined(&self.data, payload);
            self.last_activity = now();
        }
    }

    /// Empties the buffer and marks it active.
    pub fn clear(&mut self)
        ensures
            final(self)@ == Seq::<u8>::empty(),
    {
        self.data = Vec::new();
        self.last_activity = now();
    }

    /// The time since the last change, in nanoseconds, by the clock when
    /// the call is made.
    pub(crate) fn idle_nanos(&self) -> u128 {
        nanos_of(&elapsed(&self.last_activity))
    }

    /// Whether more than `timeout` has passed since the last change, by
    /// the clock when the call is made.
    pub fn is_stale(&self, timeout: Duration) -> bool {
        exceeds(self.idle_nanos(), nanos_of(&timeout))
    }
}

} // verus!
