//! Replay ∪ live, with the gap closed.

use crate::cursor::Cursor;
use crate::protocol::{token_of, Resync, ResyncReason, ResyncView};
use crate::ring::{self, Entry};
use crate::server::log::{
    a_replay_is_exact, copies, cursor_text, cursors_never_collide, is_generation, seq_behind,
    EventLog, LogError, MemoryLog, Published, Replay, Stored,
};
use crate::server::resume::Resume;
use crate::time::Duration;
use vstd::hash_set::StringHashSet;
use vstd::prelude::*;

pub use crate::error::StreamError;

verus! {

/// The result of [`resumable`]: what to tell the client and what to send.
pub struct Resumed<S> {
    /// `Some` when the cursor could not be served — emit a `resync` frame
    /// (and the connect snapshot) before the stream.
    pub resync: Option<Resync>,
    /// True when the connect snapshot should be sent: a first connection or
    /// a failed resume. A served replay carries the state transitions
    /// already, so no snapshot is needed.
    pub snapshot: bool,
    /// Replayed events followed by live ones, without overlap.
    pub stream: S,
}

/// Replayed events, the live ones that follow them, and the rule that keeps
/// the two from overlapping.
pub struct Joined<E, S> {
    /// What the log replayed.
    pub replay: Vec<Published<E>>,
    /// The live stream; every item goes through [`Joined::keep`].
    pub live: S,
    /// What the client already has: its own cursor's event and the replay.
    pub seen: StringHashSet,
}

/// A `resync` frame that is to be sent, if any.
pub open spec fn resync_view(r: Option<Resync>) -> Option<ResyncView> {
    match r {
        Some(r) => Some(r@),
        None => None,
    }
}

/// The tokens of published events.
pub open spec fn tokens<E>(events: Seq<Published<E>>) -> Set<Seq<char>>
    decreases events.len(),
{
    if events.len() == 0 {
        Set::empty()
    } else {
        match token_of(events.last().cursor) {
            Some(token) => tokens(events.drop_last()).insert(token),
            None => tokens(events.drop_last()),
        }
    }
}

/// Whether a live event is sent to a client that has the events of `seen`:
/// one that the replay already delivered, or that the client's own cursor
/// names, is dropped. A live event without a cursor (the log write failed;
/// see [`EventLog::mark_gap`]) always passes.
pub open spec fn passes(token: Option<Seq<char>>, seen: Set<Seq<char>>) -> bool {
    match token {
        Some(token) => !seen.contains(token),
        None => true,
    }
}

impl<E, S> Resumed<Joined<E, S>> {
    /// A connection that gets a snapshot and every live event but its own
    /// cursor's.
    pub open spec fn starts_over(
        self,
        resync: Option<ResyncView>,
        seen: Set<Seq<char>>,
        live: S,
    ) -> bool {
        &&& resync_view(self.resync) == resync
        &&& self.snapshot
        &&& self.stream.replay@ == Seq::<Published<E>>::empty()
        &&& self.stream.live == live
        &&& self.stream.seen@ == seen
    }

    /// What becomes of a connection with a cursor once the log has answered.
    pub open spec fn follows(
        self,
        token: Seq<char>,
        answer: Result<Replay<E>, LogError>,
        live: S,
    ) -> bool {
        let own = Set::<Seq<char>>::empty().insert(token);
        match answer {
            Ok(Replay::Events(events)) => {
                &&& self.resync is None
                &&& !self.snapshot
                &&& self.stream.replay == events
                &&& self.stream.live == live
                &&& self.stream.seen@ == tokens(events@).insert(token)
            },
            Ok(Replay::Expired { earliest }) => self.starts_over(
                Some(
                    ResyncView { reason: ResyncReason::Expired, earliest: token_of(earliest) },
                ),
                own,
                live,
            ),
            Ok(Replay::Unknown) | Err(_) => self.starts_over(
                Some(ResyncView { reason: ResyncReason::Unknown, earliest: None }),
                own,
                live,
            ),
        }
    }
}

impl<E, S> Joined<E, S> {
    /// Whether a live item is sent on. Errors always are.
    pub fn keep(&self, item: &Result<Published<E>, StreamError>) -> (r: bool)
        ensures
            r == match item {
                Ok(p) => passes(token_of(p.cursor), self.seen@),
                Err(_) => true,
            },
    {
        match item {
            Ok(p) => match &p.cursor {
                Some(c) => !self.seen.contains(c.as_str()),
                None => true,
            },
            Err(_) => true,
        }
    }
}

/// The tokens of published events.
fn tokens_of<E>(events: &Vec<Published<E>>) -> (seen: StringHashSet)
    ensures
        seen@ == tokens(events@),
{
    let mut seen = StringHashSet::new();
    let mut i: usize = 0;
    assert(events@.take(0) =~= Seq::<Published<E>>::empty());
    while i < events.len()
        invariant
            i <= events.len(),
            seen@ == tokens(events@.take(i as int)),
        decreases events.len() - i,
    {
        assert(events@.take(i + 1).drop_last() =~= events@.take(i as int));
        if let Some(c) = &events[i].cursor {
            seen.insert(c.to_text());
        }
        i += 1;
    }
    assert(events@.take(i as int) =~= events@);
    seen
}

/// A connection that gets a snapshot and every live event that is not in
/// `seen`.
fn start_over<E, S>(resync: Option<Resync>, seen: StringHashSet, live: S) -> (r: Resumed<
    Joined<E, S>,
>)
    ensures
        r.starts_over(resync_view(resync), seen@, live),
{
    Resumed { resync, snapshot: true, stream: Joined { replay: Vec::new(), live, seen } }
}

/// A first connection: there is no cursor, so the log is not read.
pub fn first_connection<E, S>(live: S) -> (r: Resumed<Joined<E, S>>)
    ensures
        r.starts_over(None, Set::empty(), live),
{
    start_over(None, StringHashSet::new(), live)
}

/// A connection with a value that is not a cursor: the log is not read.
pub fn invalid_cursor<E, S>(live: S) -> (r: Resumed<Joined<E, S>>)
    ensures
        r.starts_over(
            Some(ResyncView { reason: ResyncReason::Unknown, earliest: None }),
            Set::empty(),
            live,
        ),
{
    start_over(Some(Resync::unknown()), StringHashSet::new(), live)
}

/// What becomes of a connection with a cursor once the log has answered.
///
/// The overlap check is a set of the replayed cursors, kept for the life
/// of the connection: at most `limit` tokens, and the only thing that
/// works for cursors the server cannot order.
pub fn follow<E, S>(cursor: &Cursor, answer: Result<Replay<E>, LogError>, live: S) -> (r: Resumed<
    Joined<E, S>,
>)
    ensures
        r.follows(cursor@, answer, live),
{
    match answer {
        Ok(Replay::Events(events)) => {
            let mut seen = tokens_of(&events);
            seen.insert(cursor.to_text());
            Resumed {
                resync: None,
                snapshot: false,
                stream: Joined { replay: events, live, seen },
            }
        },
        Ok(Replay::Expired { earliest }) => {
            let mut seen = StringHashSet::new();
            seen.insert(cursor.to_text());
            start_over(Some(Resync::expired(earliest)), seen, live)
        },
        // A failing log must not take the live path down with it: serve
        // a snapshot and say the cursor could not be honoured.
        Ok(Replay::Unknown) | Err(_) => {
            let mut seen = StringHashSet::new();
            seen.insert(cursor.to_text());
            start_over(Some(Resync::unknown()), seen, live)
        },
    }
}

/// Build the event stream for one connection.
///
/// Order matters and the API enforces it: `subscribe` is called FIRST (join
/// the live fan-out), the log is read second, and a live event whose cursor
/// the replay already delivered — or that the client's own cursor names —
/// is dropped, so nothing published between the two steps is lost or
/// duplicated. A caller cannot get this wrong by creating the subscription
/// late, because it does not create it at all.
pub fn resumable<L: EventLog, S, F: FnOnce() -> S>(
    log: &mut L,
    topic: &str,
    resume: Resume,
    subscribe: F,
    limit: usize,
    now: &Duration,
) -> (r: Resumed<Joined<L::Event, S>>)
    requires
        old(log).valid(),
        subscribe.requires(()),
    ensures
        final(log).valid(),
        subscribe.ensures((), r.stream.live),
        match resume {
            Resume::NoCursor => *final(log) == *old(log) && r.starts_over(
                None,
                Set::empty(),
                r.stream.live,
            ),
            Resume::Invalid => *final(log) == *old(log) && r.starts_over(
                Some(ResyncView { reason: ResyncReason::Unknown, earliest: None }),
                Set::empty(),
                r.stream.live,
            ),
            Resume::Since(cursor) => exists|answer: Result<Replay<L::Event>, LogError>|
                #[trigger] L::since_spec(
                    *old(log),
                    topic@,
                    cursor@,
                    limit,
                    *now,
                    *final(log),
                    answer,
                ) && r.follows(cursor@, answer, r.stream.live),
        },
{
    let live = subscribe();
    match resume {
        Resume::NoCursor => first_connection(live),
        Resume::Invalid => invalid_cursor(live),
        Resume::Since(cursor) => {
            let answer = log.since(topic, &cursor, limit, now);
            follow(&cursor, answer, live)
        },
    }
}

// ---------------------------------------------------------------------------
// Laws
// ---------------------------------------------------------------------------

/// The entries that a client with `seen` is sent, in order.
pub open spec fn kept<E>(s: Seq<Entry<Stored<E>>>, seen: Set<Seq<char>>) -> Seq<Entry<Stored<E>>>
    decreases s.len(),
{
    if s.len() == 0 {
        Seq::empty()
    } else if passes(Some(s.last().payload.cursor@), seen) {
        kept(s.drop_last(), seen).push(s.last())
    } else {
        kept(s.drop_last(), seen)
    }
}

/// The tokens of entries.
pub open spec fn entry_tokens<E>(entries: Seq<Entry<Stored<E>>>) -> Set<Seq<char>> {
    Set::new(
        |token: Seq<char>|
            exists|i: int|
                0 <= i < entries.len() && token == (#[trigger] entries[i]).payload.cursor@,
    )
}

/// Events that are copies of entries have their tokens.
pub proof fn copies_have_the_tokens<E: Clone>(
    events: Seq<Published<E>>,
    entries: Seq<Entry<Stored<E>>>,
)
    requires
        copies(events, entries),
    ensures
        tokens(events) == entry_tokens(entries),
    decreases events.len(),
{
    if events.len() > 0 {
        let less = entries.drop_last();
        assert forall|i: int| 0 <= i < events.drop_last().len() implies token_of(
            (#[trigger] events.drop_last()[i]).cursor,
        ) == Some(less[i].payload.cursor@) && cloned(
            less[i].payload.event,
            events.drop_last()[i].event,
        ) by {
            assert(events.drop_last()[i] == events[i]);
        }
        copies_have_the_tokens(events.drop_last(), less);
        let last = entries.last();
        assert(events.last() == events[events.len() - 1]);
        assert(tokens(events) == entry_tokens(less).insert(last.payload.cursor@));
        assert forall|token: Seq<char>| #[trigger] entry_tokens(entries).contains(token) implies entry_tokens(
            less,
        ).insert(last.payload.cursor@).contains(token) by {
            let i = choose|i: int|
                0 <= i < entries.len() && token == (#[trigger] entries[i]).payload.cursor@;
            if i < entries.len() - 1 {
                assert(less[i] == entries[i]);
            }
        }
        assert forall|token: Seq<char>|
            entry_tokens(less).insert(last.payload.cursor@).contains(
                token,
            ) implies #[trigger] entry_tokens(entries).contains(token) by {
            if token == last.payload.cursor@ {
                assert(entries[entries.len() - 1] == last);
            } else {
                let i = choose|i: int|
                    0 <= i < less.len() && token == (#[trigger] less[i]).payload.cursor@;
                assert(entries[i] == less[i]);
            }
        }
        assert(tokens(events) =~= entry_tokens(entries));
    } else {
        assert(tokens(events) =~= entry_tokens(entries));
    }
}

/// What a connection with a cursor gets of a log in memory. A cursor that
/// can be served gets every event of the topic after it — no snapshot, no
/// `resync` — and everything it then has is kept from it live. Any other
/// gets a snapshot and a `resync`, which says `unknown` exactly when this log
/// never issued the cursor.
pub proof fn a_cursor_is_served_or_refused<E: Clone, S>(
    before: MemoryLog<E>,
    after: MemoryLog<E>,
    topic: Seq<char>,
    token: Seq<char>,
    limit: usize,
    now: Duration,
    answer: Result<Replay<E>, LogError>,
    live: S,
    r: Resumed<Joined<E, S>>,
)
    requires
        before.wf(),
        <MemoryLog<E> as EventLog>::since_spec(before, topic, token, limit, now, after, answer),
        r.follows(token, answer, live),
    ensures
        r.snapshot == r.resync is Some,
        r.resync matches Some(resync) ==> (resync.reason == ResyncReason::Unknown
            <==> !before@.issued(token)),
        r.resync is None ==> before@.issued(token) && {
            let missed = ring::after(
                before@.topic(topic).history,
                seq_behind(before@.generation, token)->0,
            );
            &&& copies(r.stream.replay@, missed)
            &&& r.stream.seen@ == entry_tokens(missed).insert(token)
        },
{
    before.wf_view();
    a_replay_is_exact(before@, topic, token, limit, now);
    if let Ok(Replay::Events(events)) = answer {
        let missed = ring::after(
            before@.topic(topic).history,
            seq_behind(before@.generation, token)->0,
        );
        copies_have_the_tokens(events@, missed);
    }
}

proof fn lemma_kept_concat<E>(
    a: Seq<Entry<Stored<E>>>,
    b: Seq<Entry<Stored<E>>>,
    seen: Set<Seq<char>>,
)
    ensures
        kept(a + b, seen) == kept(a, seen) + kept(b, seen),
    decreases b.len(),
{
    if b.len() == 0 {
        assert(a + b =~= a);
        assert(kept(a, seen) + kept(b, seen) =~= kept(a, seen));
    } else {
        assert((a + b).drop_last() =~= a + b.drop_last());
        assert((a + b).last() == b.last());
        lemma_kept_concat(a, b.drop_last(), seen);
        assert(kept(a, seen) + kept(b, seen) =~= if passes(Some(b.last().payload.cursor@), seen) {
            (kept(a, seen) + kept(b.drop_last(), seen)).push(b.last())
        } else {
            kept(a, seen) + kept(b.drop_last(), seen)
        });
    }
}

proof fn lemma_kept_none<E>(s: Seq<Entry<Stored<E>>>, seen: Set<Seq<char>>)
    requires
        forall|i: int| 0 <= i < s.len() ==> seen.contains((#[trigger] s[i]).payload.cursor@),
    ensures
        kept(s, seen) == Seq::<Entry<Stored<E>>>::empty(),
    decreases s.len(),
{
    if s.len() > 0 {
        assert(s.last() == s[s.len() - 1]);
        assert forall|i: int| 0 <= i < s.drop_last().len() implies seen.contains(
            (#[trigger] s.drop_last()[i]).payload.cursor@,
        ) by {
            assert(s.drop_last()[i] == s[i]);
        }
        lemma_kept_none(s.drop_last(), seen);
    }
}

proof fn lemma_kept_all<E>(s: Seq<Entry<Stored<E>>>, seen: Set<Seq<char>>)
    requires
        forall|i: int| 0 <= i < s.len() ==> !seen.contains((#[trigger] s[i]).payload.cursor@),
    ensures
        kept(s, seen) == s,
    decreases s.len(),
{
    if s.len() > 0 {
        assert(s.last() == s[s.len() - 1]);
        assert forall|i: int| 0 <= i < s.drop_last().len() implies !seen.contains(
            (#[trigger] s.drop_last()[i]).payload.cursor@,
        ) by {
            assert(s.drop_last()[i] == s[i]);
        }
        lemma_kept_all(s.drop_last(), seen);
        assert(s.drop_last().push(s.last()) =~= s);
    } else {
        assert(kept(s, seen) =~= s);
    }
}

/// Nothing is lost or sent twice. Let `all` be what a topic takes in the
/// course of a connection, of which `read` entries were there when the log
/// was read and `joined` when the live stream was joined; let `seq` be the
/// sequence behind the client's cursor, issued before the log was read. The
/// stream is joined before the log is read, and not before the client's own
/// event was published. Then the exact replay and the live events that the
/// client has not seen are together every event after the cursor, each once
/// and in order.
pub proof fn replay_and_live_are_everything_after_the_cursor<E>(
    all: Seq<Entry<Stored<E>>>,
    generation: Seq<char>,
    joined: int,
    read: int,
    seq: u64,
)
    requires
        is_generation(generation),
        ring::ascending(all),
        forall|i: int|
            0 <= i < all.len() ==> (#[trigger] all[i]).payload.cursor@ == cursor_text(
                generation,
                all[i].seq,
            ),
        0 <= joined <= read <= all.len(),
        forall|i: int| joined <= i < all.len() ==> (#[trigger] all[i]).seq >= seq,
        forall|i: int| read <= i < all.len() ==> (#[trigger] all[i]).seq > seq,
    ensures
        ({
            let replay = ring::after(all.take(read), seq);
            let seen = entry_tokens(replay).insert(cursor_text(generation, seq));
            replay + kept(all.skip(joined), seen) == ring::after(all, seq)
        }),
{
    let past = all.take(read);
    let replay = ring::after(past, seq);
    let seen = entry_tokens(replay).insert(cursor_text(generation, seq));
    let overlap = all.subrange(joined, read);
    let fresh = all.skip(read);
    assert(all =~= past + fresh);
    assert(all.skip(joined) =~= overlap + fresh);
    ring::after_in_two_parts(past, fresh, seq);
    lemma_kept_concat(overlap, fresh, seen);
    assert forall|i: int| 0 <= i < overlap.len() implies seen.contains(
        (#[trigger] overlap[i]).payload.cursor@,
    ) by {
        let e = all[i + joined];
        assert(overlap[i] == e);
        if e.seq > seq {
            assert(past[i + joined] == e);
            ring::what_is_above_follows(past, seq, i + joined);
            let j = choose|j: int| 0 <= j < replay.len() && replay[j] == e;
            assert(replay[j].payload.cursor@ == e.payload.cursor@);
        }
    }
    lemma_kept_none(overlap, seen);
    assert forall|i: int| 0 <= i < fresh.len() implies !seen.contains(
        (#[trigger] fresh[i]).payload.cursor@,
    ) by {
        let e = all[i + read];
        assert(fresh[i] == e);
        if e.payload.cursor@ == cursor_text(generation, seq) {
            cursors_never_collide(generation, e.seq, generation, seq);
        }
        if entry_tokens(replay).contains(e.payload.cursor@) {
            let j = choose|j: int|
                0 <= j < replay.len() && e.payload.cursor@ == (#[trigger] replay[j]).payload.cursor@;
            ring::what_follows_was_there(past, seq);
            let k = choose|k: int| 0 <= k < past.len() && past[k] == replay[j];
            assert(past[k] == all[k]);
            cursors_never_collide(generation, e.seq, generation, all[k].seq);
            assert(all[k].seq < all[i + read].seq);
        }
    }
    lemma_kept_all(fresh, seen);
    assert forall|i: int| 0 <= i < fresh.len() implies (#[trigger] fresh[i]).seq > seq by {
        assert(fresh[i] == all[i + read]);
    }
    ring::everything_follows_a_lower(fresh, seq);
    assert(kept(all.skip(joined), seen) =~= fresh);
}

/// A live event is kept from a client exactly when it has it already; one
/// that has no cursor never is.
pub proof fn only_what_was_seen_is_dropped(token: Seq<char>, seen: Set<Seq<char>>)
    ensures
        passes(Some(token), seen) <==> !seen.contains(token),
        passes(None, seen),
{
}

/// The tokens of what is replayed are those of its events, and no others.
pub proof fn what_is_replayed_is_seen<E>(events: Seq<Published<E>>, token: Seq<char>)
    ensures
        tokens(events).contains(token) <==> exists|i: int|
            0 <= i < events.len() && token_of((#[trigger] events[i]).cursor) == Some(token),
    decreases events.len(),
{
    if events.len() > 0 {
        let most = events.drop_last();
        what_is_replayed_is_seen(most, token);
        if tokens(most).contains(token) {
            let i = choose|i: int|
                0 <= i < most.len() && token_of((#[trigger] most[i]).cursor) == Some(token);
            assert(token_of(events[i].cursor) == Some(token));
        }
        if token_of(events.last().cursor) == Some(token) {
            assert(token_of(events[events.len() - 1].cursor) == Some(token));
        }
        if exists|i: int|
            0 <= i < events.len() && token_of((#[trigger] events[i]).cursor) == Some(token) {
            let i = choose|i: int|
                0 <= i < events.len() && token_of((#[trigger] events[i]).cursor) == Some(token);
            if i < most.len() {
                assert(token_of(most[i].cursor) == Some(token));
            }
        }
    }
}

/// What becomes of a connection with a cursor, by what the log answers: events
/// are replayed, with no snapshot and nothing to tell; an expired cursor is
/// told so, with what the log named; one that is unknown, or that the log
/// failed on, is told that. A client that is told anything gets a snapshot, no
/// replay, and every live event but that of its own cursor.
pub proof fn what_the_log_answers_is_told<E, S>(
    r: Resumed<Joined<E, S>>,
    token: Seq<char>,
    answer: Result<Replay<E>, LogError>,
    live: S,
    other: Seq<char>,
)
    requires
        r.follows(token, answer, live),
    ensures
        r.stream.live == live,
        r.stream.seen@.contains(token),
        r.snapshot <==> !(answer matches Ok(Replay::Events(_))),
        answer matches Ok(Replay::Events(events)) ==> r.resync is None && r.stream.replay
            == events,
        answer matches Ok(Replay::Expired { earliest }) ==> r.resync is Some && r.resync->0.reason
            == ResyncReason::Expired && token_of(r.resync->0.earliest) == token_of(earliest),
        answer is Err || (answer matches Ok(Replay::Unknown)) ==> r.resync is Some
            && r.resync->0.reason == ResyncReason::Unknown && r.resync->0.earliest is None,
        r.snapshot ==> r.stream.replay@.len() == 0,
        r.snapshot && other != token ==> passes(Some(other), r.stream.seen@),
{
}

/// A client within what a log retains is served: a cursor issued after the last
/// gap, whose later events on the topic the log all holds, are among the last
/// `capacity`, not older than `ttl` and no more than the limit, gets exactly
/// those events, each under its own cursor and in order — no snapshot, and no
/// `resync`.
pub proof fn a_client_within_the_retention_is_served<E: Clone, S>(
    before: MemoryLog<E>,
    after: MemoryLog<E>,
    topic: Seq<char>,
    seq: u64,
    limit: usize,
    now: Duration,
    answer: Result<Replay<E>, LogError>,
    live: S,
    r: Resumed<Joined<E, S>>,
    k: int,
)
    requires
        before.wf(),
        before@.gap_floor < seq <= before@.last_seq,
        <MemoryLog<E> as EventLog>::since_spec(
            before,
            topic,
            before@.generation + seq!['-'] + crate::text::decimal(seq as nat),
            limit,
            now,
            after,
            answer,
        ),
        r.follows(
            before@.generation + seq!['-'] + crate::text::decimal(seq as nat),
            answer,
            live,
        ),
        ({
            let t = before@.topic(topic);
            &&& t.history.len() - t.ring.len() <= k <= t.history.len()
            &&& t.history.len() - k <= before@.capacity
            &&& t.history.len() - k <= limit
            &&& forall|i: int| 0 <= i < k ==> (#[trigger] t.history[i]).seq <= seq
            &&& forall|i: int|
                k <= i < t.history.len() ==> (#[trigger] t.history[i]).seq > seq && now@
                    - t.history[i].at@ <= before@.ttl@
        }),
    ensures
        r.resync is None,
        !r.snapshot,
        r.stream.replay@.len() == before@.topic(topic).history.len() - k,
        forall|i: int|
            0 <= i < r.stream.replay@.len() ==> token_of((#[trigger] r.stream.replay@[i]).cursor)
                == Some(before@.topic(topic).history[k + i].payload.cursor@) && cloned(
                before@.topic(topic).history[k + i].payload.event,
                r.stream.replay@[i].event,
            ),
{
    before.wf_view();
    crate::server::log::what_is_held_is_replayed(before@, topic, seq, limit, now, k);
    let missed = before@.topic(topic).history.skip(k);
    assert(copies(r.stream.replay@, missed));
    assert forall|i: int| 0 <= i < r.stream.replay@.len() implies token_of(
        (#[trigger] r.stream.replay@[i]).cursor,
    ) == Some(before@.topic(topic).history[k + i].payload.cursor@) && cloned(
        before@.topic(topic).history[k + i].payload.event,
        r.stream.replay@[i].event,
    ) by {
        assert(missed[i] == before@.topic(topic).history[k + i]);
    }
}

/// A connection that starts over gets a snapshot, what there is to tell, no
/// replay, and every live event that it has not seen.
pub proof fn a_connection_that_starts_over<E, S>(
    r: Resumed<Joined<E, S>>,
    resync: Option<ResyncView>,
    seen: Set<Seq<char>>,
    live: S,
    token: Seq<char>,
)
    requires
        r.starts_over(resync, seen, live),
    ensures
        r.snapshot,
        resync is None <==> r.resync is None,
        resync matches Some(said) ==> r.resync->0@ == said,
        r.stream.replay@.len() == 0,
        r.stream.live == live,
        passes(Some(token), r.stream.seen@) <==> !seen.contains(token),
        passes(None, r.stream.seen@),
{
}

} // verus!
