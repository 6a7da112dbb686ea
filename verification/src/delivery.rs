//! Deciding, attempt by attempt, how a record is delivered to the collector.

use crate::error::{Error, TransportError};
use crate::ingestion_cache::IngestionCache;
use crate::listener::{delivered, record_delivery};
use crate::salts::Salts;
use vstd::prelude::*;

verus! {

/// Largest match id that is delivered.
pub const MAX_MATCH_ID: u64 = 100_000_000;

/// Number of attempts after which a delivery is given up.
pub const MAX_ATTEMPTS: u32 = 10;

/// Seconds to wait before an attempt is repeated.
pub const RETRY_DELAY_SECS: u64 = 3;

/// What one attempt came to: a response of the collector with its status
/// and body, or a failure of the client.
#[derive(Debug, PartialEq, Eq)]
pub enum Reply {
    Response { status: u16, body: String },
    Failure(TransportError),
}

/// What the caller does next: wait `delay_secs` seconds and make attempt
/// number `attempt`, or stop with success or with an error.
#[derive(Debug, PartialEq, Eq)]
pub enum Action {
    Send { attempt: u32, delay_secs: u64 },
    Delivered,
    Failed(Error),
}

/// Whether `status` reports success.
pub open spec fn is_success(status: u16) -> bool {
    200 <= status < 300
}

/// How the delivery of `salts` begins: with the first attempt, unless the
/// match id lies above the ceiling.
pub open spec fn first_action(salts: Salts) -> Action {
    if salts.match_id > MAX_MATCH_ID {
        Action::Failed(Error::MatchIdTooLarge)
    } else {
        Action::Send { attempt: 1, delay_secs: 0 }
    }
}

/// Whether attempt number `attempt` that came to `reply` was the last:
/// it was when the attempts are used up or the collector said 400.
pub open spec fn is_terminal(attempt: u32, reply: Reply) -> bool {
    ||| attempt >= MAX_ATTEMPTS
    ||| reply matches Reply::Response { status, .. } && status == 400
    ||| reply matches Reply::Failure(TransportError::Status(code)) && code == 400
}

/// What follows attempt number `attempt` that came to `reply`.
pub open spec fn next_action(attempt: u32, reply: Reply) -> Action {
    if reply matches Reply::Response { status, .. } && is_success(status) {
        Action::Delivered
    } else if is_terminal(attempt, reply) {
        match reply {
            Reply::Response { body, .. } => Action::Failed(Error::FailedToIngest(body)),
            Reply::Failure(e) => Action::Failed(Error::Ureq(e)),
        }
    } else {
        Action::Send { attempt: (attempt + 1) as u32, delay_secs: RETRY_DELAY_SECS }
    }
}

/// How a single request that came to `reply` ended.
pub open spec fn settled(reply: Reply) -> Result<(), Error> {
    match reply {
        Reply::Response { status, body } => if is_success(status) {
            Ok(())
        } else {
            Err(Error::FailedToIngest(body))
        },
        Reply::Failure(e) => Err(Error::Ureq(e)),
    }
}

/// The records of `records` whose match id is within the ceiling, in order.
pub open spec fn deliverable(records: Seq<Salts>) -> Seq<Salts> {
    records.filter(|r: Salts| r.match_id <= MAX_MATCH_ID)
}

/// What the cache holds after each of `records` was delivered in turn.
pub open spec fn delivered_all(
    entries: Map<u64, (bool, bool)>,
    limit: usize,
    records: Seq<Salts>,
) -> Map<u64, (bool, bool)>
    decreases records.len(),
{
    if records.len() == 0 {
        entries
    } else {
        delivered(
            delivered_all(entries, limit, records.drop_last()),
            limit,
            records.last(),
        )
    }
}

/// Begins the delivery of `salts`. A record whose match id lies above
/// the ceiling is refused at once, before anything is sent.
pub fn begin(salts: &Salts) -> (action: Action)
    ensures
        action == first_action(*salts),
        salts.match_id > MAX_MATCH_ID <==> action == Action::Failed(Error::MatchIdTooLarge),
        salts.match_id > MAX_MATCH_ID ==> !(action is Send),
{
    if salts.match_id > MAX_MATCH_ID {
        Action::Failed(Error::MatchIdTooLarge)
    } else {
        Action::Send { attempt: 1, delay_secs: 0 }
    }
}

/// Decides what follows attempt number `attempt` that came to `reply`:
/// success on a 2xx status; an error that carries the answer once the
/// attempts are used up or on status 400; another attempt otherwise.
pub fn advance(attempt: u32, reply: Reply) -> (action: Action)
    ensures
        action == next_action(attempt, reply),
        action matches Action::Send { attempt: next, delay_secs } ==> next == attempt + 1 && next
            <= MAX_ATTEMPTS && delay_secs == RETRY_DELAY_SECS,
{
    match reply {
        Reply::Response { status, body } => {
            if 200 <= status && status < 300 {
                Action::Delivered
            } else if attempt >= MAX_ATTEMPTS || status == 400 {
                Action::Failed(Error::FailedToIngest(body))
            } else {
                Action::Send { attempt: attempt + 1, delay_secs: RETRY_DELAY_SECS }
            }
        },
        Reply::Failure(e) => {
            let definitive = match &e {
                TransportError::Status(code) => *code == 400,
                TransportError::Other(_) => false,
            };
            if attempt >= MAX_ATTEMPTS || definitive {
                Action::Failed(Error::Ureq(e))
            } else {
                Action::Send { attempt: attempt + 1, delay_secs: RETRY_DELAY_SECS }
            }
        },
    }
}

/// How a request that is made once, without retry, ended.
pub fn settle(reply: Reply) -> (r: Result<(), Error>)
    ensures
        r == settled(reply),
{
    match reply {
        Reply::Response { status, body } => {
            if 200 <= status && status < 300 {
                Ok(())
            } else {
                Err(Error::FailedToIngest(body))
            }
        },
        Reply::Failure(e) => Err(Error::Ureq(e)),
    }
}

/// The records of `records` that may be delivered in one batch: those
/// whose match id is within the ceiling.
pub fn begin_many(records: &Vec<Salts>) -> (batch: Vec<Salts>)
    ensures
        batch@ == deliverable(records@),
{
    let mut batch: Vec<Salts> = Vec::new();
    let mut i: usize = 0;
    let ghost keep = |r: Salts| r.match_id <= MAX_MATCH_ID;
    assert(records@.take(0) =~= Seq::<Salts>::empty());
    while i < records.len()
        invariant
            i <= records.len(),
            keep == |r: Salts| r.match_id <= MAX_MATCH_ID,
            batch@ == records@.take(i as int).filter(keep),
        decreases records.len() - i,
    {
        proof {
            let longer = records@.take(i + 1);
            assert(longer.drop_last() =~= records@.take(i as int));
            assert(longer.last() == records@[i as int]);
            reveal(Seq::filter);
        }
        if records[i].match_id <= MAX_MATCH_ID {
            batch.push(records[i]);
        }
        i += 1;
    }
    assert(records@.take(i as int) =~= records@);
    batch
}

/// Records that each of `records` was delivered.
pub fn record_deliveries(cache: &mut IngestionCache, records: &Vec<Salts>)
    ensures
        final(cache)@ == delivered_all(old(cache)@, old(cache).limit(), records@),
        final(cache).limit() == old(cache).limit(),
{
    let mut i: usize = 0;
    assert(records@.take(0) =~= Seq::<Salts>::empty());
    while i < records.len()
        invariant
            i <= records.len(),
            cache.limit() == old(cache).limit(),
            cache@ == delivered_all(old(cache)@, old(cache).limit(), records@.take(i as int)),
        decreases records.len() - i,
    {
        proof {
            let longer = records@.take(i + 1);
            assert(longer.drop_last() =~= records@.take(i as int));
            assert(longer.last() == records@[i as int]);
        }
        record_delivery(cache, &records[i]);
        i += 1;
    }
    assert(records@.take(i as int) =~= records@);
}

} // verus!
