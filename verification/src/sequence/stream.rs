//! Replay ∪ live, with the gap closed.

use crate::protocol::ResyncReason;
use crate::ring::{self, Entry};
use crate::sequence::log::{
    a_replay_is_exact, copies, EventLog, LogError, MemoryLog, Published, Replay,
};
use crate::sequence::resume::Resume;
use crate::time::Duration;
use vstd::prelude::*;

pub use crate::error::StreamError;

verus! {

/// The result of [`resumable`]: what to tell the client and what to send.
pub struct Resumed<S> {
    /// `Some` when the cursor could not be served — emit a `resync` frame
    /// (and the connect snapshot) before the stream.
    pub resync: Option<(ResyncReason, u64)>,
    /// True when the connect snapshot should be sent: a first connection or
    /// a failed resume. A served replay carries the state transitions
    /// already, so no snapshot is needed.
    pub snapshot: bool,
    /// Replayed events followed by live ones, without overlap.
    pub stream: S,
}

/// Replayed events, the live ones that follow them, and the rule that keeps
/// the two from overlapping.
pub struct Joined<E, S> {
    /// What the log replayed.
    pub replay: Vec<Published<E>>,
    /// The live stream; every item goes through [`Joined::keep`].
    pub live: S,
    /// The last sequence that the client has once it has the replay.
    pub floor: u64,
}

/// Whether a live event gets past a floor: those below the replayed floor
/// are the overlap and are dropped; an UNSEQUENCED live event (`seq == 0`:
/// the log write failed and the publisher broadcast anyway) always passes —
/// it carries no `id:`, so it cannot disturb the cursor, and the log's gap
/// mark makes the next reconnect resync.
pub open spec fn passes(seq: u64, floor: u64) -> bool {
    seq == 0 || seq > floor
}

/// The sequence a client has after a replay.
pub open spec fn floor_after<E>(cursor: u64, replay: Seq<Published<E>>) -> u64 {
    if replay.len() > 0 {
        replay.last().seq
    } else {
        cursor
    }
}

impl<E, S> Resumed<Joined<E, S>> {
    /// A connection that gets a snapshot and every live event.
    pub open spec fn starts_over(self, resync: Option<(ResyncReason, u64)>, live: S) -> bool {
        &&& self.resync == resync
        &&& self.snapshot
        &&& self.stream.replay@ == Seq::<Published<E>>::empty()
        &&& self.stream.live == live
        &&& self.stream.floor == 0
    }

    /// What becomes of a connection with a cursor once the log has answered.
    pub open spec fn follows(
        self,
        cursor: u64,
        answer: Result<Replay<E>, LogError>,
        live: S,
    ) -> bool {
        match answer {
            Ok(Replay::Events(events)) => {
                &&& self.resync is None
                &&& !self.snapshot
                &&& self.stream.replay == events
                &&& self.stream.live == live
                &&& self.stream.floor == floor_after(cursor, events@)
            },
            Ok(Replay::Expired { earliest }) => self.starts_over(
                Some((ResyncReason::Expired, earliest)),
                live,
            ),
            Ok(Replay::Unknown) | Err(_) => self.starts_over(
                Some((ResyncReason::Unknown, 0)),
                live,
            ),
        }
    }
}

impl<E, S> Joined<E, S> {
    /// Whether a live item is sent on. Errors always are.
    pub fn keep(&self, item: &Result<Published<E>, StreamError>) -> (r: bool)
        ensures
            r == match item {
                Ok(p) => passes(p.seq, self.floor),
                Err(_) => true,
            },
    {
        match item {
            Ok(p) => p.seq == 0 || p.seq > self.floor,
            Err(_) => true,
        }
    }
}

/// A connection that gets a snapshot and every live event.
fn start_over<E, S>(resync: Option<(ResyncReason, u64)>, live: S) -> (r: Resumed<Joined<E, S>>)
    ensures
        r.starts_over(resync, live),
{
    Resumed { resync, snapshot: true, stream: Joined { replay: Vec::new(), live, floor: 0 } }
}

/// A first connection: there is no cursor, so the log is not read.
pub fn first_connection<E, S>(live: S) -> (r: Resumed<Joined<E, S>>)
    ensures
        r.starts_over(None, live),
{
    start_over(None, live)
}

/// A connection with a cursor that is not a number: the log is not read.
pub fn malformed_cursor<E, S>(live: S) -> (r: Resumed<Joined<E, S>>)
    ensures
        r.starts_over(Some((ResyncReason::Unknown, 0)), live),
{
    start_over(Some((ResyncReason::Unknown, 0)), live)
}

/// What becomes of a connection with a cursor once the log has answered.
pub fn follow<E, S>(cursor: u64, answer: Result<Replay<E>, LogError>, live: S) -> (r: Resumed<
    Joined<E, S>,
>)
    ensures
        r.follows(cursor, answer, live),
{
    match answer {
        Ok(Replay::Events(events)) => {
            let n: usize = events.len();
            let floor: u64 = if n > 0 {
                events[n - 1].seq
            } else {
                cursor
            };
            Resumed {
                resync: None,
                snapshot: false,
                stream: Joined { replay: events, live, floor },
            }
        },
        Ok(Replay::Expired { earliest }) => start_over(
            Some((ResyncReason::Expired, earliest)),
            live,
        ),
        // A failing log must not take the live path down with it: serve
        // a snapshot and say the cursor could not be honoured.
        Ok(Replay::Unknown) | Err(_) => start_over(Some((ResyncReason::Unknown, 0)), live),
    }
}

/// Build the event stream for one connection.
///
/// Order matters and the API enforces it: `subscribe` is called FIRST (join
/// the live fan-out), the log is read second, and only live events with
/// `seq` above the last replayed one pass — so nothing published between
/// the two steps is lost or duplicated. A caller cannot get this wrong by
/// creating the subscription late, because it does not create it at all.
pub fn resumable<L: EventLog, S, F: FnOnce() -> S>(
    log: &mut L,
    topic: &str,
    resume: Resume,
    subscribe: F,
    limit: usize,
    now: &Duration,
) -> (r: Resumed<Joined<L::Event, S>>)
    requires
        old(log).valid(),
        subscribe.requires(()),
    ensures
        final(log).valid(),
        subscribe.ensures((), r.stream.live),
        match resume {
            Resume::NoCursor => *final(log) == *old(log) && r.starts_over(None, r.stream.live),
            Resume::Malformed => *final(log) == *old(log) && r.starts_over(
                Some((ResyncReason::Unknown, 0)),
                r.stream.live,
            ),
            Resume::Since(cursor) => exists|answer: Result<Replay<L::Event>, LogError>|
                #[trigger] L::since_spec(
                    *old(log),
                    topic@,
                    cursor,
                    limit,
                    *now,
                    *final(log),
                    answer,
                ) && r.follows(cursor, answer, r.stream.live),
        },
{
    let live = subscribe();
    match resume {
        Resume::NoCursor => first_connection(live),
        Resume::Malformed => malformed_cursor(live),
        Resume::Since(cursor) => {
            let answer = log.since(topic, cursor, limit, now);
            follow(cursor, answer, live)
        },
    }
}

// ---------------------------------------------------------------------------
// Laws
// ---------------------------------------------------------------------------

/// What a connection with a cursor gets of a log in memory. A cursor that
/// can be served gets every event of the topic after it — no snapshot, no
/// `resync` — and a floor that is the last sequence it then has. Any other
/// gets a snapshot and a `resync`, which says `unknown` exactly when this log
/// never assigned the number.
pub proof fn a_cursor_is_served_or_refused<E: Clone, S>(
    before: MemoryLog<E>,
    after: MemoryLog<E>,
    topic: Seq<char>,
    seq: u64,
    limit: usize,
    now: Duration,
    answer: Result<Replay<E>, LogError>,
    live: S,
    r: Resumed<Joined<E, S>>,
)
    requires
        before.wf(),
        <MemoryLog<E> as EventLog>::since_spec(before, topic, seq, limit, now, after, answer),
        r.follows(seq, answer, live),
    ensures
        r.snapshot == r.resync is Some,
        r.resync matches Some(resync) ==> (resync.0 == ResyncReason::Unknown <==> seq
            > before@.last_seq),
        r.resync is None ==> {
            let missed = ring::after(before@.topic(topic).history, seq);
            &&& copies(r.stream.replay@, missed)
            &&& r.stream.floor == if missed.len() > 0 {
                missed.last().seq
            } else {
                seq
            }
        },
{
    before.wf_view();
    a_replay_is_exact(before@, topic, seq, limit, now);
}

/// The entries that get past a floor, in order.
pub open spec fn kept<E>(s: Seq<Entry<E>>, floor: u64) -> Seq<Entry<E>>
    decreases s.len(),
{
    if s.len() == 0 {
        Seq::empty()
    } else if passes(s.last().seq, floor) {
        kept(s.drop_last(), floor).push(s.last())
    } else {
        kept(s.drop_last(), floor)
    }
}

proof fn lemma_kept_is_after<E>(s: Seq<Entry<E>>, floor: u64)
    requires
        forall|i: int| 0 <= i < s.len() ==> (#[trigger] s[i]).seq > 0,
    ensures
        kept(s, floor) == ring::after(s, floor),
    decreases s.len(),
{
    if s.len() > 0 {
        assert(s.last() == s[s.len() - 1]);
        assert forall|i: int| 0 <= i < s.drop_last().len() implies (#[trigger] s.drop_last()[i]).seq
            > 0 by {
            assert(s.drop_last()[i] == s[i]);
        }
        lemma_kept_is_after(s.drop_last(), floor);
    }
}

/// Nothing is lost or sent twice. Let `all` be what a topic takes in the
/// course of a connection, of which `read` entries were there when the log
/// was read and `joined` when the live stream was joined. Since the stream
/// is joined first, the exact replay and the live events that get past its
/// floor are together every event after the cursor, each once and in order.
pub proof fn replay_and_live_are_everything_after_the_cursor<E>(
    all: Seq<Entry<E>>,
    joined: int,
    read: int,
    cursor: u64,
    floor: u64,
)
    requires
        ring::ascending(all),
        0 <= joined <= read <= all.len(),
        floor == if ring::after(all.take(read), cursor).len() > 0 {
            ring::after(all.take(read), cursor).last().seq
        } else {
            cursor
        },
    ensures
        ring::after(all.take(read), cursor) + kept(all.skip(joined), floor) == ring::after(
            all,
            cursor,
        ),
{
    let past = all.take(read);
    let replay = ring::after(past, cursor);
    let overlap = all.subrange(joined, read);
    let fresh = all.skip(read);
    assert(all =~= past + fresh);
    assert(all.skip(joined) =~= overlap + fresh);
    ring::after_in_two_parts(past, fresh, cursor);
    assert forall|i: int| 0 <= i < all.skip(joined).len() implies (#[trigger] all.skip(
        joined,
    )[i]).seq > 0 by {
        assert(all.skip(joined)[i] == all[i + joined]);
    }
    lemma_kept_is_after(all.skip(joined), floor);
    ring::after_in_two_parts(overlap, fresh, floor);
    ring::the_last_that_follows_is_the_last(past, cursor);
    assert forall|i: int| 0 <= i < overlap.len() implies (#[trigger] overlap[i]).seq <= floor by {
        assert(overlap[i] == past[i + joined]);
    }
    ring::nothing_follows_the_highest(overlap, floor);
    if replay.len() > 0 {
        assert forall|i: int| 0 <= i < fresh.len() implies (#[trigger] fresh[i]).seq > floor
            && fresh[i].seq > cursor by {
            assert(fresh[i] == all[i + read]);
            assert(past.last() == all[read - 1]);
            assert(all[read - 1].seq < all[i + read].seq);
        }
        ring::everything_follows_a_lower(fresh, floor);
        ring::everything_follows_a_lower(fresh, cursor);
    }
    assert(ring::after(all.skip(joined), floor) =~= ring::after(fresh, cursor));
}

/// A live event passes exactly when it is above the floor; one without a
/// number always does.
pub proof fn only_what_was_seen_is_dropped(seq: u64, floor: u64)
    ensures
        seq > 0 ==> (passes(seq, floor) <==> seq > floor),
        passes(0, floor),
{
}

/// What becomes of a connection with a cursor, by what the log answers: events
/// are replayed, with no snapshot and nothing to tell, and live events pass
/// above the last of them, or above the cursor when there is none; an expired
/// cursor is told so, with what the log named; one that is unknown, or that
/// the log failed on, is told that. A client that is told anything gets a
/// snapshot, no replay, and every live event.
pub proof fn what_the_log_answers_is_told<E, S>(
    r: Resumed<Joined<E, S>>,
    cursor: u64,
    answer: Result<Replay<E>, LogError>,
    live: S,
    seq: u64,
)
    requires
        r.follows(cursor, answer, live),
    ensures
        r.stream.live == live,
        r.snapshot <==> !(answer matches Ok(Replay::Events(_))),
        answer matches Ok(Replay::Events(events)) ==> r.resync is None && r.stream.replay == events
            && r.stream.floor == if events@.len() > 0 {
            events@[events@.len() - 1].seq
        } else {
            cursor
        },
        answer matches Ok(Replay::Expired { earliest }) ==> r.resync == Some(
            (ResyncReason::Expired, earliest),
        ),
        answer is Err || (answer matches Ok(Replay::Unknown)) ==> r.resync == Some(
            (ResyncReason::Unknown, 0u64),
        ),
        r.snapshot ==> r.stream.replay@.len() == 0 && passes(seq, r.stream.floor),
{
}

/// A client within what a log retains is served: an assigned cursor not below
/// the last gap, whose later events on the topic the log all holds, are among
/// the last `capacity`, not older than `ttl` and no more than the limit, gets
/// exactly those events, each under its own number and in order — no
/// snapshot, and no `resync`.
pub proof fn a_client_within_the_retention_is_served<E: Clone, S>(
    before: MemoryLog<E>,
    after: MemoryLog<E>,
    topic: Seq<char>,
    seq: u64,
    limit: usize,
    now: Duration,
    answer: Result<Replay<E>, LogError>,
    live: S,
    r: Resumed<Joined<E, S>>,
    k: int,
)
    requires
        before.wf(),
        before@.gap_floor <= seq <= before@.last_seq,
        <MemoryLog<E> as EventLog>::since_spec(before, topic, seq, limit, now, after, answer),
        r.follows(seq, answer, live),
        ({
            let t = before@.topic(topic);
            &&& t.history.len() - t.ring.len() <= k <= t.history.len()
            &&& t.history.len() - k <= before@.capacity
            &&& t.history.len() - k <= limit
            &&& forall|i: int| 0 <= i < k ==> (#[trigger] t.history[i]).seq <= seq
            &&& forall|i: int|
                k <= i < t.history.len() ==> (#[trigger] t.history[i]).seq > seq && now@
                    - t.history[i].at@ <= before@.ttl@
        }),
    ensures
        r.resync is None,
        !r.snapshot,
        r.stream.replay@.len() == before@.topic(topic).history.len() - k,
        forall|i: int|
            0 <= i < r.stream.replay@.len() ==> (#[trigger] r.stream.replay@[i]).seq
                == before@.topic(topic).history[k + i].seq && cloned(
                before@.topic(topic).history[k + i].payload,
                r.stream.replay@[i].event,
            ),
{
    before.wf_view();
    crate::sequence::log::what_is_held_is_replayed(before@, topic, seq, limit, now, k);
    let missed = before@.topic(topic).history.skip(k);
    assert(copies(r.stream.replay@, missed));
    assert forall|i: int| 0 <= i < r.stream.replay@.len() implies (
    #[trigger] r.stream.replay@[i]).seq == before@.topic(topic).history[k + i].seq && cloned(
        before@.topic(topic).history[k + i].payload,
        r.stream.replay@[i].event,
    ) by {
        assert(missed[i] == before@.topic(topic).history[k + i]);
    }
}

/// A connection that starts over gets a snapshot, what there is to tell, no
/// replay, and every live event.
pub proof fn a_connection_that_starts_over<E, S>(
    r: Resumed<Joined<E, S>>,
    resync: Option<(ResyncReason, u64)>,
    live: S,
    seq: u64,
)
    requires
        r.starts_over(resync, live),
    ensures
        r.snapshot,
        r.resync == resync,
        r.stream.replay@.len() == 0,
        r.stream.live == live,
        passes(seq, r.stream.floor),
{
}

} // verus!
