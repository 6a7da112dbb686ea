//! Queueing the matches of which Statlocker is told.

use crate::text::{append_chars, chars_of, decimal, digits_of, string_of};
use vstd::prelude::*;

verus! {

/// Number of matches that may wait to be announced.
pub const QUEUE_CAPACITY: usize = 1000;

/// The address that announces `match_id`, signed with the account id
/// where one is known.
pub open spec fn populate_address(match_id: u64, username: Option<u32>) -> Seq<char> {
    let signature = match username {
        Some(id) => "?username=ingest-tool:"@ + digits_of(id as nat),
        None => Seq::empty(),
    };
    "https://statlocker.gg/api/match/"@ + digits_of(match_id as nat) + "/populate"@ + signature
}

/// Whether each element of `s` is smaller than the next.
pub open spec fn strictly_increasing(s: Seq<u64>) -> bool {
    forall|i: int, j: int| 0 <= i < j < s.len() ==> s[i] < s[j]
}

/// The number of elements of `s` that are smaller than `x`, where `s` is increasing.
pub open spec fn rank(s: Seq<u64>, x: u64) -> int
    decreases s.len(),
{
    if s.len() == 0 || s[0] >= x {
        0
    } else {
        1 + rank(s.drop_first(), x)
    }
}

/// The increasing sequence `s` with `x` put in its place, unless it is there already.
pub open spec fn with_id(s: Seq<u64>, x: u64) -> Seq<u64> {
    let at = rank(s, x);
    if 0 <= at < s.len() && s[at] == x {
        s
    } else if 0 <= at <= s.len() {
        s.insert(at, x)
    } else {
        s
    }
}

/// The values of `ids` in increasing order, each once.
pub open spec fn sorted_distinct(ids: Seq<u64>) -> Seq<u64>
    decreases ids.len(),
{
    if ids.len() == 0 {
        Seq::empty()
    } else {
        with_id(sorted_distinct(ids.drop_last()), ids.last())
    }
}

/// What waits after `match_id` is offered: it joins the line while the
/// notifier is enabled and the line has room.
pub open spec fn offered(enabled: bool, pending: Seq<u64>, match_id: u64) -> Seq<u64> {
    if enabled && pending.len() < QUEUE_CAPACITY {
        pending.push(match_id)
    } else {
        pending
    }
}

/// What waits after each of `ids` is offered in turn.
pub open spec fn offered_all(enabled: bool, pending: Seq<u64>, ids: Seq<u64>) -> Seq<u64>
    decreases ids.len(),
{
    if ids.len() == 0 {
        pending
    } else {
        offered(enabled, offered_all(enabled, pending, ids.drop_last()), ids.last())
    }
}

pub proof fn lemma_rank(s: Seq<u64>, x: u64)
    requires
        strictly_increasing(s),
    ensures
        0 <= rank(s, x) <= s.len(),
        forall|j: int| 0 <= j < rank(s, x) ==> s[j] < x,
        forall|j: int| rank(s, x) <= j < s.len() ==> s[j] >= x,
    decreases s.len(),
{
    if s.len() > 0 && s[0] < x {
        let t = s.drop_first();
        assert forall|i: int, j: int| 0 <= i < j < t.len() implies t[i] < t[j] by {
            assert(t[i] == s[i + 1] && t[j] == s[j + 1]);
        }
        lemma_rank(t, x);
        assert forall|j: int| 0 <= j < rank(s, x) implies s[j] < x by {
            if j > 0 {
                assert(s[j] == t[j - 1]);
            }
        }
        assert forall|j: int| rank(s, x) <= j < s.len() implies s[j] >= x by {
            assert(s[j] == t[j - 1]);
        }
    }
}

/// Putting an id in its place keeps the order and adds just that id.
pub proof fn lemma_with_id(s: Seq<u64>, x: u64)
    requires
        strictly_increasing(s),
    ensures
        strictly_increasing(with_id(s, x)),
        forall|y: u64| with_id(s, x).contains(y) <==> (y == x || s.contains(y)),
{
    lemma_rank(s, x);
    let at = rank(s, x);
    let r = with_id(s, x);
    if at < s.len() && s[at] == x {
        assert(s.contains(x));
    } else {
        assert forall|i: int, j: int| 0 <= i < j < r.len() implies r[i] < r[j] by {
            let i0 = if i < at { i } else { i - 1 };
            let j0 = if j < at { j } else { j - 1 };
            if i != at {
                assert(r[i] == s[i0]);
            }
            if j != at {
                assert(r[j] == s[j0]);
            }
        }
        assert forall|y: u64| r.contains(y) <==> (y == x || s.contains(y)) by {
            if r.contains(y) {
                let k = choose|k: int| 0 <= k < r.len() && r[k] == y;
                if k != at {
                    let k0 = if k < at { k } else { k - 1 };
                    assert(r[k] == s[k0]);
                }
            }
            if y == x {
                assert(r[at] == x);
            }
            if s.contains(y) {
                let k = choose|k: int| 0 <= k < s.len() && s[k] == y;
                let k1 = if k < at { k } else { k + 1 };
                assert(r[k1] == s[k]);
            }
        }
    }
}

/// The sorted ids are in increasing order and are exactly the ids given.
pub proof fn lemma_sorted_distinct(ids: Seq<u64>)
    ensures
        strictly_increasing(sorted_distinct(ids)),
        forall|y: u64| sorted_distinct(ids).contains(y) <==> ids.contains(y),
    decreases ids.len(),
{
    if ids.len() > 0 {
        let before = ids.drop_last();
        lemma_sorted_distinct(before);
        lemma_with_id(sorted_distinct(before), ids.last());
        assert forall|y: u64| sorted_distinct(ids).contains(y) <==> ids.contains(y) by {
            if ids.contains(y) {
                let k = choose|k: int| 0 <= k < ids.len() && ids[k] == y;
                if k < ids.len() - 1 {
                    assert(before[k] == y);
                }
            }
            if before.contains(y) {
                let k = choose|k: int| 0 <= k < before.len() && before[k] == y;
                assert(ids[k] == y);
            }
            assert(ids[ids.len() - 1] == ids.last());
        }
    }
}

/// The address that announces `match_id`.
pub fn populate_url(match_id: u64, username: Option<u32>) -> (url: String)
    ensures
        url@ == populate_address(match_id, username),
{
    let mut out: Vec<char> = Vec::new();
    append_chars(&mut out, &chars_of("https://statlocker.gg/api/match/"));
    append_chars(&mut out, &decimal(match_id));
    append_chars(&mut out, &chars_of("/populate"));
    let ghost head = out@;
    match username {
        Some(id) => {
            append_chars(&mut out, &chars_of("?username=ingest-tool:"));
            append_chars(&mut out, &decimal(id as u64));
            assert(out@ =~= head + ("?username=ingest-tool:"@ + digits_of(id as nat)));
        },
        None => {
            assert(out@ =~= head + Seq::<char>::empty());
        },
    }
    string_of(&out)
}

/// The values of `ids` in increasing order, each once.
pub fn sort_ids(ids: &[u64]) -> (out: Vec<u64>)
    ensures
        out@ == sorted_distinct(ids@),
        strictly_increasing(out@),
        forall|y: u64| out@.contains(y) <==> ids@.contains(y),
{
    let mut out: Vec<u64> = Vec::new();
    let mut i: usize = 0;
    assert(ids@.take(0) =~= Seq::<u64>::empty());
    while i < ids.len()
        invariant
            i <= ids.len(),
            out@ == sorted_distinct(ids@.take(i as int)),
            strictly_increasing(out@),
        decreases ids.len() - i,
    {
        let x: u64 = ids[i];
        proof {
            let longer = ids@.take(i + 1);
            assert(longer.drop_last() =~= ids@.take(i as int));
            assert(longer.last() == x);
            lemma_with_id(out@, x);
            lemma_rank(out@, x);
        }
        let mut at: usize = 0;
        assert(out@.skip(0) =~= out@);
        while at < out.len() && out[at] < x
            invariant
                at <= out.len(),
                rank(out@, x) == at + rank(out@.skip(at as int), x),
            decreases out.len() - at,
        {
            assert(out@.skip(at as int).drop_first() =~= out@.skip(at + 1));
            at += 1;
        }
        assert(at < out.len() ==> out@.skip(at as int)[0] == out@[at as int]);
        if !(at < out.len() && out[at] == x) {
            out.insert(at, x);
        }
        i += 1;
    }
    assert(ids@.take(i as int) =~= ids@);
    proof {
        lemma_sorted_distinct(ids@);
    }
    out
}

/// Whether announcements are made, and the matches that wait for theirs,
/// oldest first.
pub struct Statlocker {
    enabled: bool,
    pending: Vec<u64>,
}

impl Statlocker {
    /// Whether announcements are made.
    pub closed spec fn enabled(&self) -> bool {
        self.enabled
    }

    /// The matches that wait, oldest first.
    pub closed spec fn pending(&self) -> Seq<u64> {
        self.pending@
    }

    /// A notifier that is enabled and has nothing waiting.
    pub fn new() -> (state: Statlocker)
        ensures
            state.enabled(),
            state.pending() == Seq::<u64>::empty(),
    {
        Statlocker { enabled: true, pending: Vec::new() }
    }

    /// Takes the match that has waited longest, and gives the address
    /// that announces it.
    pub fn next_request(&mut self, username: Option<u32>) -> (r: Option<String>)
        ensures
            final(self).enabled() == old(self).enabled(),
            match r {
                Some(url) => old(self).pending().len() > 0 && url@ == populate_address(
                    old(self).pending()[0],
                    username,
                ) && final(self).pending() == old(self).pending().drop_first(),
                None => old(self).pending().len() == 0
                    && final(self).pending() == old(self).pending(),
            },
    {
        if self.pending.len() == 0 {
            return None;
        }
        let match_id = self.pending.remove(0);
        assert(self.pending@ =~= old(self).pending().drop_first());
        Some(populate_url(match_id, username))
    }
}

/// Stops all further announcements; what waits stays.
pub fn disable(state: &mut Statlocker)
    ensures
        !final(state).enabled(),
        final(state).pending() == old(state).pending(),
{
    state.enabled = false;
}

/// Offers `match_id` for announcement. It is taken while the notifier is
/// enabled and fewer than `QUEUE_CAPACITY` matches wait.
pub fn notify(state: &mut Statlocker, match_id: u64) -> (taken: bool)
    ensures
        final(state).enabled() == old(state).enabled(),
        final(state).pending() == offered(old(state).enabled(), old(state).pending(), match_id),
        taken == (old(state).enabled() && old(state).pending().len() < QUEUE_CAPACITY),
{
    if state.enabled && state.pending.len() < QUEUE_CAPACITY {
        state.pending.push(match_id);
        true
    } else {
        false
    }
}

/// Offers each of `match_ids` once, in increasing order.
pub fn notify_many(state: &mut Statlocker, match_ids: &[u64])
    ensures
        final(state).enabled() == old(state).enabled(),
        final(state).pending() == offered_all(
            old(state).enabled(),
            old(state).pending(),
            sorted_distinct(match_ids@),
        ),
{
    let ids = sort_ids(match_ids);
    let mut i: usize = 0;
    assert(ids@.take(0) =~= Seq::<u64>::empty());
    while i < ids.len()
        invariant
            i <= ids.len(),
            state.enabled() == old(state).enabled(),
            state.pending() == offered_all(
                old(state).enabled(),
                old(state).pending(),
                ids@.take(i as int),
            ),
        decreases ids.len() - i,
    {
        proof {
            let longer = ids@.take(i + 1);
            assert(longer.drop_last() =~= ids@.take(i as int));
            assert(longer.last() == ids@[i as int]);
        }
        notify(state, ids[i]);
        i += 1;
    }
    assert(ids@.take(i as int) =~= ids@);
}

} // verus!
