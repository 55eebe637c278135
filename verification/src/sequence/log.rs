//! The replay buffer behind the resume contract.
//!
//! [`EventLog`] is the only storage seam: the crate ships [`MemoryLog`],
//! a per-topic ring that suits a single-process server (a restart makes
//! old cursors `Unknown`, which the client answers with a snapshot — no
//! loss). A shared store (SQL, Redis Streams) implements the same trait
//! when the server scales out.

use crate::ring::{self, Entry, TopicView, Topics};
use crate::time::Duration;
use vstd::prelude::*;

pub use crate::error::LogError;

verus! {

/// An event with the sequence number the log assigned to it.
#[derive(Debug, PartialEq, Eq)]
pub struct Published<E> {
    /// Monotonic across the whole log (not per topic), starting at 1.
    pub seq: u64,
    /// The payload.
    pub event: E,
}

impl<E: Clone> Clone for Published<E> {
    fn clone(&self) -> (p: Self)
        ensures
            p.seq == self.seq,
            cloned(self.event, p.event),
    {
        Published { seq: self.seq, event: self.event.clone() }
    }
}

/// The answer to "everything after `seq`".
#[derive(Debug, PartialEq, Eq)]
pub enum Replay<E> {
    /// Events with `seq > cursor`, ascending. May be empty.
    Events(Vec<Published<E>>),
    /// The cursor is older than the retained window (or the gap is larger
    /// than the replay limit). `earliest` is the oldest retained sequence.
    Expired {
        /// Oldest sequence the log can still replay.
        earliest: u64,
    },
    /// The cursor was never issued by this log.
    Unknown,
}

/// An answer over the entries that a log holds.
#[verifier::ext_equal]
pub enum Answer<E> {
    Events(Seq<Entry<E>>),
    Expired { earliest: u64 },
    Unknown,
}

/// Whether published events are copies of entries, one for one.
pub open spec fn copies<E: Clone>(events: Seq<Published<E>>, entries: Seq<Entry<E>>) -> bool {
    &&& events.len() == entries.len()
    &&& forall|i: int|
        0 <= i < events.len() ==> (#[trigger] events[i]).seq == entries[i].seq && cloned(
            entries[i].payload,
            events[i].event,
        )
}

impl<E: Clone> Replay<E> {
    /// Whether this tells what `answer` says.
    pub open spec fn tells(self, answer: Answer<E>) -> bool {
        match (self, answer) {
            (Replay::Events(events), Answer::Events(entries)) => copies(events@, entries),
            (Replay::Expired { earliest }, Answer::Expired { earliest: at }) => earliest == at,
            (Replay::Unknown, Answer::Unknown) => true,
            _ => false,
        }
    }
}

/// A log as its callers know it.
#[verifier::ext_equal]
pub struct LogView<E> {
    pub topics: Map<Seq<char>, TopicView<E>>,
    /// The names of the topics, each once, in the order of their first event.
    pub names: Seq<Seq<char>>,
    /// The last sequence assigned (0 before the first append).
    pub last_seq: u64,
    /// Cursors below this are unreplayable whatever the rings hold.
    pub gap_floor: u64,
    pub capacity: usize,
    pub ttl: Duration,
}

impl<E> LogView<E> {
    /// A log without events.
    pub open spec fn fresh(capacity: usize, ttl: Duration) -> LogView<E> {
        LogView {
            topics: Map::empty(),
            names: Seq::empty(),
            last_seq: 0,
            gap_floor: 0,
            capacity: if capacity >= 1 {
                capacity
            } else {
                1
            },
            ttl,
        }
    }

    /// One topic.
    pub open spec fn topic(self, name: Seq<char>) -> TopicView<E> {
        ring::topic_in(self.topics, name)
    }

    /// How many entries all rings hold.
    pub open spec fn held(self) -> nat {
        ring::held(self.topics, self.names)
    }

    /// Every topic is well formed and numbered within what was assigned; the
    /// names are those of the topics.
    pub open spec fn wf(self) -> bool {
        &&& self.gap_floor <= self.last_seq < u64::MAX
        &&& self.names.no_duplicates()
        &&& forall|name: Seq<char>|
            #[trigger] self.topics.contains_key(name) <==> self.names.contains(name)
        &&& forall|name: Seq<char>|
            #[trigger] self.topics.contains_key(name) ==> self.topics[name].wf()
        &&& forall|name: Seq<char>, i: int|
            self.topics.contains_key(name) && 0 <= i < self.topics[name].history.len()
                ==> (#[trigger] self.topics[name].history[i]).seq <= self.last_seq
    }

    /// One topic, trimmed as it is at `now`.
    pub open spec fn topic_at(self, name: Seq<char>, now: Duration) -> TopicView<E> {
        self.topic(name).trimmed(self.capacity, self.ttl, now)
    }

    /// The log after an append.
    pub open spec fn appended(self, name: Seq<char>, event: E, now: Duration) -> LogView<E> {
        let seq = (self.last_seq + 1) as u64;
        let entry = Entry { seq, at: now, payload: event };
        LogView {
            topics: self.topics.insert(
                name,
                self.topic(name).appended(entry).trimmed(self.capacity, self.ttl, now),
            ),
            names: if self.topics.contains_key(name) {
                self.names
            } else {
                self.names.push(name)
            },
            last_seq: seq,
            ..self
        }
    }

    /// Whether a read from `seq` gets to the rings.
    pub open spec fn reaches(self, seq: u64) -> bool {
        self.gap_floor <= seq <= self.last_seq
    }

    /// The log after a read: the topic was trimmed if the read got to it.
    pub open spec fn read(self, name: Seq<char>, seq: u64, now: Duration) -> LogView<E> {
        if self.reaches(seq) && self.topics.contains_key(name) {
            LogView { topics: self.topics.insert(name, self.topic_at(name, now)), ..self }
        } else {
            self
        }
    }

    /// What the log answers to "everything after `seq`, at most `limit`".
    pub open spec fn answer(
        self,
        name: Seq<char>,
        seq: u64,
        limit: usize,
        now: Duration,
    ) -> Answer<E> {
        let t = self.topic_at(name, now);
        let events = ring::after(t.ring, seq);
        if seq > self.last_seq {
            Answer::Unknown
        } else if seq < self.gap_floor {
            Answer::Expired { earliest: (self.gap_floor + 1) as u64 }
        } else if t.lost_after(seq) {
            Answer::Expired {
                earliest: if t.ring.len() > 0 {
                    t.ring[0].seq
                } else {
                    (t.trimmed_to + 1) as u64
                },
            }
        } else if events.len() > limit {
            Answer::Expired { earliest: events[0].seq }
        } else {
            Answer::Events(events)
        }
    }

    /// The log after a trim by age.
    pub open spec fn trimmed(self, older_than: Duration, now: Duration) -> LogView<E> {
        LogView {
            topics: ring::all_trimmed(self.topics, self.capacity, older_than, now),
            ..self
        }
    }

    /// The log after a gap was declared.
    pub open spec fn marked(self) -> LogView<E> {
        LogView { gap_floor: self.last_seq, ..self }
    }
}

/// A bounded, sequence-numbered event log.
///
/// `topic` partitions events (one screen, one channel …) while `seq` stays
/// global, so a client of a quiet topic can present a cursor issued for a
/// busier one and still get an exact, empty replay.
///
/// Every operation takes the time, read from one clock that does not go
/// back.
pub trait EventLog: Sized {
    /// The payload type.
    type Event: Clone;

    /// What the log keeps between calls.
    spec fn valid(&self) -> bool;

    /// Whether the log can number one more event.
    spec fn has_room(&self) -> bool;

    /// What an append may do.
    spec fn append_spec(
        before: Self,
        topic: Seq<char>,
        event: Self::Event,
        now: Duration,
        after: Self,
        r: Result<u64, LogError>,
    ) -> bool;

    /// What a read may do.
    spec fn since_spec(
        before: Self,
        topic: Seq<char>,
        seq: u64,
        limit: usize,
        now: Duration,
        after: Self,
        r: Result<Replay<Self::Event>, LogError>,
    ) -> bool;

    /// What a trim may do.
    spec fn trim_spec(
        before: Self,
        older_than: Duration,
        now: Duration,
        after: Self,
        r: Result<u64, LogError>,
    ) -> bool;

    /// What a gap mark may do.
    spec fn mark_gap_spec(before: Self, after: Self, r: Result<(), LogError>) -> bool;

    /// Append and return the assigned sequence.
    fn append(&mut self, topic: &str, event: Self::Event, now: &Duration) -> (r: Result<
        u64,
        LogError,
    >)
        requires
            old(self).valid(),
            old(self).has_room(),
        ensures
            final(self).valid(),
            Self::append_spec(*old(self), topic@, event, *now, *final(self), r),
    ;

    /// Everything after `seq` on `topic`, at most `limit` events.
    fn since(&mut self, topic: &str, seq: u64, limit: usize, now: &Duration) -> (r: Result<
        Replay<Self::Event>,
        LogError,
    >)
        requires
            old(self).valid(),
        ensures
            final(self).valid(),
            Self::since_spec(*old(self), topic@, seq, limit, *now, *final(self), r),
    ;

    /// Drop events older than `older_than`; returns how many.
    fn trim(&mut self, older_than: &Duration, now: &Duration) -> (r: Result<u64, LogError>)
        requires
            old(self).valid(),
        ensures
            final(self).valid(),
            Self::trim_spec(*old(self), *older_than, *now, *final(self), r),
    ;

    /// Declare that events up to now may be missing from the log (a write
    /// failed after the state changed): every cursor issued before this
    /// point answers `Expired`, so a client reconnecting across the gap
    /// reloads a snapshot instead of silently missing what was lost.
    fn mark_gap(&mut self) -> (r: Result<(), LogError>)
        requires
            old(self).valid(),
        ensures
            final(self).valid(),
            Self::mark_gap_spec(*old(self), *final(self), r),
    ;
}

/// The default log: per-topic rings in memory, bounded by count and age.
pub struct MemoryLog<E> {
    topics: Topics<E>,
    next_seq: u64,
    gap_floor: u64,
    capacity: usize,
    ttl: Duration,
}

impl<E> View for MemoryLog<E> {
    type V = LogView<E>;

    closed spec fn view(&self) -> LogView<E> {
        LogView {
            topics: self.topics@,
            names: self.topics.names(),
            last_seq: (self.next_seq - 1) as u64,
            gap_floor: self.gap_floor,
            capacity: self.capacity,
            ttl: self.ttl,
        }
    }
}

impl<E> MemoryLog<E> {
    /// The topics can be found, and the rings hold no more than was
    /// numbered.
    pub closed spec fn wf(self) -> bool {
        &&& self.topics.wf()
        &&& self.next_seq >= 1
        &&& self@.held() <= self@.last_seq
        &&& self@.wf()
    }

    /// A well-formed log has a well-formed view.
    pub proof fn wf_view(self)
        requires
            self.wf(),
        ensures
            self@.wf(),
    {
    }

    /// A log keeping at most `capacity` events per topic for at most `ttl`.
    pub fn new(capacity: usize, ttl: Duration) -> (log: Self)
        ensures
            log.wf(),
            log@ == LogView::<E>::fresh(capacity, ttl),
    {
        MemoryLog {
            topics: Topics::new(),
            next_seq: 1,
            gap_floor: 0,
            capacity: if capacity >= 1 {
                capacity
            } else {
                1
            },
            ttl,
        }
    }

    /// The last sequence assigned (0 before the first append).
    pub fn last_seq(&self) -> (seq: u64)
        requires
            self.wf(),
        ensures
            seq == self@.last_seq,
    {
        self.next_seq - 1
    }
}

/// Copies of the entries of a ring from `from` on.
fn copy_from<E: Clone>(t: &ring::Topic<E>, from: usize) -> (events: Vec<Published<E>>)
    requires
        from <= t@.ring.len(),
    ensures
        copies(events@, t@.ring.skip(from as int)),
{
    let n: usize = t.len();
    let mut events: Vec<Published<E>> = Vec::new();
    let mut i: usize = from;
    while i < n
        invariant
            from <= i <= n == t@.ring.len(),
            events@.len() == i - from,
            forall|j: int|
                0 <= j < events@.len() ==> (#[trigger] events@[j]).seq == t@.ring[from + j].seq
                    && cloned(t@.ring[from + j].payload, events@[j].event),
        decreases n - i,
    {
        let e = t.entry(i);
        events.push(Published { seq: e.seq, event: e.payload.clone() });
        i += 1;
    }
    events
}

impl<E: Clone> EventLog for MemoryLog<E> {
    type Event = E;

    open spec fn valid(&self) -> bool {
        self.wf()
    }

    open spec fn has_room(&self) -> bool {
        self@.last_seq < u64::MAX - 1
    }

    open spec fn append_spec(
        before: Self,
        topic: Seq<char>,
        event: E,
        now: Duration,
        after: Self,
        r: Result<u64, LogError>,
    ) -> bool {
        &&& after@ == before@.appended(topic, event, now)
        &&& r == Ok::<u64, LogError>(after@.last_seq)
    }

    open spec fn since_spec(
        before: Self,
        topic: Seq<char>,
        seq: u64,
        limit: usize,
        now: Duration,
        after: Self,
        r: Result<Replay<E>, LogError>,
    ) -> bool {
        &&& after@ == before@.read(topic, seq, now)
        &&& r matches Ok(replay) && replay.tells(before@.answer(topic, seq, limit, now))
    }

    open spec fn trim_spec(
        before: Self,
        older_than: Duration,
        now: Duration,
        after: Self,
        r: Result<u64, LogError>,
    ) -> bool {
        &&& after@ == before@.trimmed(older_than, now)
        &&& r matches Ok(n) && n == before@.held() - after@.held()
    }

    open spec fn mark_gap_spec(before: Self, after: Self, r: Result<(), LogError>) -> bool {
        &&& after@ == before@.marked()
        &&& r is Ok
    }

    fn append(&mut self, topic: &str, event: E, now: &Duration) -> (r: Result<u64, LogError>) {
        let ghost was = *self;
        let seq: u64 = self.next_seq;
        let entry = Entry { seq, at: *now, payload: event };
        assert forall|i: int| 0 <= i < was@.topic(topic@).history.len() implies (
        #[trigger] was@.topic(topic@).history[i]).seq < seq by {
            assert(was@.topics[topic@].history[i].seq <= was@.last_seq);
        }
        self.topics.push(topic, entry, self.capacity, &self.ttl, now);
        self.next_seq = seq + 1;
        proof {
            assert(self@ == was@.appended(topic@, event, *now));
            appending_keeps_order(was@, topic@, event, *now);
        }
        Ok(seq)
    }

    fn since(&mut self, topic: &str, seq: u64, limit: usize, now: &Duration) -> (r: Result<
        Replay<E>,
        LogError,
    >) {
        if seq > self.last_seq() {
            return Ok(Replay::Unknown);
        }
        if seq < self.gap_floor {
            return Ok(Replay::Expired { earliest: self.gap_floor + 1 });
        }
        let ghost was = *self;
        proof {
            reading_keeps_order(was@, topic@, seq, *now);
        }
        match self.topics.trimmed(topic, self.capacity, &self.ttl, now) {
            // Nothing was ever published on this topic: an exact, empty replay.
            None => {
                let none: Vec<Published<E>> = Vec::new();
                assert(copies(none@, Seq::<Entry<E>>::empty()));
                Ok(Replay::Events(none))
            },
            Some(t) => {
                assert(t@ == was@.topic_at(topic@, *now));
                assert(t@.trimmed_to <= was@.last_seq) by {
                    if t@.dropped() > 0 {
                        ring::trimming_drops_the_oldest(
                            was@.topics[topic@],
                            was@.capacity,
                            was@.ttl,
                            *now,
                        );
                        assert(t@.history == was@.topics[topic@].history);
                        assert(t@.history[t@.dropped() - 1].seq <= was@.last_seq);
                    }
                }
                if seq < t.trimmed_to() {
                    let earliest: u64 = if t.len() > 0 {
                        t.entry(0).seq
                    } else {
                        t.trimmed_to() + 1
                    };
                    return Ok(Replay::Expired { earliest });
                }
                let k: usize = t.position_after(seq);
                if t.len() - k > limit {
                    return Ok(Replay::Expired { earliest: t.entry(k).seq });
                }
                Ok(Replay::Events(copy_from(t, k)))
            },
        }
    }

    fn trim(&mut self, older_than: &Duration, now: &Duration) -> (r: Result<u64, LogError>) {
        let ghost was = *self;
        let dropped: u64 = self.topics.trim_all(self.capacity, older_than, now);
        proof {
            trimming_keeps_order(was@, *older_than, *now);
        }
        Ok(dropped)
    }

    fn mark_gap(&mut self) -> (r: Result<(), LogError>) {
        let ghost was = *self;
        let last: u64 = self.last_seq();
        if self.gap_floor < last {
            self.gap_floor = last;
        }
        proof {
            marking_keeps_order(was@);
            assert(self@ == was@.marked());
        }
        Ok(())
    }
}

// ---------------------------------------------------------------------------
// Laws
// ---------------------------------------------------------------------------

/// An append keeps a log well formed; it adds the event to the end of its
/// topic's history and leaves every other topic as it was.
pub proof fn appending_keeps_order<E>(log: LogView<E>, name: Seq<char>, event: E, now: Duration)
    requires
        log.wf(),
        log.last_seq < u64::MAX - 1,
    ensures
        log.appended(name, event, now).wf(),
        log.appended(name, event, now).last_seq == log.last_seq + 1,
        log.appended(name, event, now).gap_floor == log.gap_floor,
        log.appended(name, event, now).topic(name).history == log.topic(name).history.push(
            Entry { seq: (log.last_seq + 1) as u64, at: now, payload: event },
        ),
        forall|other: Seq<char>|
            other != name ==> #[trigger] log.appended(name, event, now).topic(other) == log.topic(
                other,
            ),
{
    let entry = Entry { seq: (log.last_seq + 1) as u64, at: now, payload: event };
    let t = log.topic(name);
    assert(t.wf()) by {
        if !log.topics.contains_key(name) {
            assert(t.ring =~= t.history.skip(0));
        }
    }
    let next = log.appended(name, event, now);
    ring::appending_to_the_end(t, entry);
    ring::trimming_drops_the_oldest(t.appended(entry), log.capacity, log.ttl, now);
    assert forall|other: Seq<char>| #[trigger] next.topics.contains_key(
        other,
    ) <==> next.names.contains(other) by {
        if !log.topics.contains_key(name) {
            if log.names.contains(other) {
                let i = choose|i: int| 0 <= i < log.names.len() && log.names[i] == other;
                assert(next.names[i] == other);
            }
            if other == name {
                assert(next.names[log.names.len() as int] == name);
            }
            if next.names.contains(other) && other != name {
                let i = choose|i: int| 0 <= i < next.names.len() && next.names[i] == other;
                assert(log.names[i] == other);
            }
        }
    }
    assert(next.names.no_duplicates()) by {
        if !log.topics.contains_key(name) {
            assert forall|i: int, j: int|
                0 <= i < next.names.len() && 0 <= j < next.names.len() && i
                    != j implies next.names[i] != next.names[j] by {
                let a = log.names.len() as int;
                if i < a {
                    assert(log.names.contains(log.names[i]));
                }
                if j < a {
                    assert(log.names.contains(log.names[j]));
                }
            }
        }
    }
    assert forall|other: Seq<char>, i: int|
        next.topics.contains_key(other) && 0 <= i < next.topics[other].history.len() implies (
    #[trigger] next.topics[other].history[i]).seq <= next.last_seq by {
        if other == name {
            if i < t.history.len() {
                assert(log.topics.contains_key(name));
                assert(next.topics[other].history[i] == log.topics[name].history[i]);
            }
        } else {
            assert(log.topics.contains_key(other));
            assert(next.topics[other].history[i] == log.topics[other].history[i]);
        }
    }
}

/// A read keeps a log well formed and every history as it was.
pub proof fn reading_keeps_order<E>(log: LogView<E>, name: Seq<char>, seq: u64, now: Duration)
    requires
        log.wf(),
    ensures
        log.read(name, seq, now).wf(),
        log.read(name, seq, now).last_seq == log.last_seq,
        log.read(name, seq, now).gap_floor == log.gap_floor,
        forall|other: Seq<char>|
            (#[trigger] log.read(name, seq, now).topic(other)).history == log.topic(other).history,
{
    let next = log.read(name, seq, now);
    if log.topics.contains_key(name) {
        ring::trimming_drops_the_oldest(log.topics[name], log.capacity, log.ttl, now);
    }
    assert forall|other: Seq<char>, i: int|
        next.topics.contains_key(other) && 0 <= i < next.topics[other].history.len() implies (
    #[trigger] next.topics[other].history[i]).seq <= next.last_seq by {
        assert(log.topics.contains_key(other));
        assert(next.topics[other].history[i] == log.topics[other].history[i]);
    }
}

/// A trim keeps a log well formed and every history as it was.
pub proof fn trimming_keeps_order<E>(log: LogView<E>, older_than: Duration, now: Duration)
    requires
        log.wf(),
    ensures
        log.trimmed(older_than, now).wf(),
        log.trimmed(older_than, now).last_seq == log.last_seq,
        log.trimmed(older_than, now).gap_floor == log.gap_floor,
        forall|other: Seq<char>|
            (#[trigger] log.trimmed(older_than, now).topic(other)).history == log.topic(
                other,
            ).history,
        forall|other: Seq<char>|
            (#[trigger] log.trimmed(older_than, now).topic(other)).ring.len() <= log.topic(
                other,
            ).ring.len(),
{
    let next = log.trimmed(older_than, now);
    assert forall|other: Seq<char>| #[trigger] log.topics.contains_key(other) implies {
        &&& next.topics[other].wf()
        &&& next.topics[other].history == log.topics[other].history
        &&& next.topics[other].ring.len() <= log.topics[other].ring.len()
    } by {
        ring::trimming_drops_the_oldest(log.topics[other], log.capacity, older_than, now);
    }
    assert forall|other: Seq<char>, i: int|
        next.topics.contains_key(other) && 0 <= i < next.topics[other].history.len() implies (
    #[trigger] next.topics[other].history[i]).seq <= next.last_seq by {
        assert(log.topics.contains_key(other));
        assert(next.topics[other].history[i] == log.topics[other].history[i]);
    }
}

/// A gap mark keeps a log well formed; it never lowers the floor.
pub proof fn marking_keeps_order<E>(log: LogView<E>)
    requires
        log.wf(),
    ensures
        log.marked().wf(),
        log.marked().gap_floor >= log.gap_floor,
{
    let next = log.marked();
    assert forall|other: Seq<char>, i: int|
        next.topics.contains_key(other) && 0 <= i < next.topics[other].history.len() implies (
    #[trigger] next.topics[other].history[i]).seq <= next.last_seq by {
        assert(log.topics[other].history[i].seq <= log.last_seq);
    }
}

/// No silent gap: events that are answered are exactly those that were ever
/// published on the topic after the cursor, in order. Whenever one of them
/// can no longer be given, or they are more than the limit, the answer is
/// `Expired`; a number that was never assigned is `Unknown`.
pub proof fn a_replay_is_exact<E>(
    log: LogView<E>,
    name: Seq<char>,
    seq: u64,
    limit: usize,
    now: Duration,
)
    requires
        log.wf(),
    ensures
        log.answer(name, seq, limit, now) is Unknown <==> seq > log.last_seq,
        log.answer(name, seq, limit, now) matches Answer::Events(events) ==> events == ring::after(
            log.topic(name).history,
            seq,
        ),
        log.answer(name, seq, limit, now) is Events <==> log.reaches(seq) && ring::after(
            log.topic_at(name, now).ring,
            seq,
        ) == ring::after(log.topic(name).history, seq) && ring::after(
            log.topic(name).history,
            seq,
        ).len() <= limit,
{
    let t = log.topic(name);
    assert(t.wf()) by {
        if !log.topics.contains_key(name) {
            assert(t.ring =~= t.history.skip(0));
        }
    }
    ring::trimming_drops_the_oldest(t, log.capacity, log.ttl, now);
    let at = log.topic_at(name, now);
    if at.lost_after(seq) {
        ring::a_drop_above_loses_an_entry(at, seq);
    } else {
        ring::ring_holds_what_follows(at, seq);
    }
}

/// The cursor of the last event is always served, on every topic: nothing
/// came after it.
pub proof fn the_last_cursor_is_up_to_date<E>(
    log: LogView<E>,
    name: Seq<char>,
    limit: usize,
    now: Duration,
)
    requires
        log.wf(),
    ensures
        log.answer(name, log.last_seq, limit, now) == Answer::<E>::Events(Seq::empty()),
{
    let t = log.topic(name);
    assert(t.wf()) by {
        if !log.topics.contains_key(name) {
            assert(t.ring =~= t.history.skip(0));
        }
    }
    ring::trimming_drops_the_oldest(t, log.capacity, log.ttl, now);
    let at = log.topic_at(name, now);
    if at.dropped() > 0 {
        assert(log.topics.contains_key(name));
        assert(at.history[at.dropped() - 1] == log.topics[name].history[at.dropped() - 1]);
    }
    ring::ring_holds_what_follows(at, log.last_seq);
    assert forall|i: int| 0 <= i < t.history.len() implies (#[trigger] t.history[i]).seq
        <= log.last_seq by {
        assert(log.topics.contains_key(name));
        assert(t.history[i] == log.topics[name].history[i]);
    }
    ring::nothing_follows_the_highest(t.history, log.last_seq);
}

/// A topic that never saw an event answers every assigned cursor, unless a
/// gap was marked since, with an exact, empty replay.
pub proof fn a_quiet_topic_has_nothing_to_replay<E>(
    log: LogView<E>,
    name: Seq<char>,
    seq: u64,
    limit: usize,
    now: Duration,
)
    requires
        log.wf(),
        !log.topics.contains_key(name),
        log.reaches(seq),
    ensures
        log.answer(name, seq, limit, now) == Answer::<E>::Events(Seq::empty()),
{
}

/// A marked gap expires every earlier cursor, on every topic, and whatever
/// is appended, read or trimmed after it; a gap is never taken back.
pub proof fn a_gap_expires_every_earlier_cursor<E>(
    log: LogView<E>,
    later: LogView<E>,
    name: Seq<char>,
    seq: u64,
    limit: usize,
    now: Duration,
)
    requires
        later.last_seq >= log.last_seq,
        later.gap_floor >= log.marked().gap_floor,
        seq < log.last_seq,
    ensures
        later.answer(name, seq, limit, now) is Expired,
{
}

/// What is done to a log.
pub enum Deed<E> {
    Append { name: Seq<char>, event: E, now: Duration },
    Read { name: Seq<char>, seq: u64, now: Duration },
    Trim { older_than: Duration, now: Duration },
    Mark,
}

impl<E> Deed<E> {
    /// The log after it.
    pub open spec fn done(self, log: LogView<E>) -> LogView<E> {
        match self {
            Deed::Append { name, event, now } => log.appended(name, event, now),
            Deed::Read { name, seq, now } => log.read(name, seq, now),
            Deed::Trim { older_than, now } => log.trimmed(older_than, now),
            Deed::Mark => log.marked(),
        }
    }

    /// Whether a log does it: an append needs a number.
    pub open spec fn fits(self, log: LogView<E>) -> bool {
        self is Append ==> log.last_seq < u64::MAX - 1
    }

    /// Whether an entry is no older than it may be when it is done: than
    /// `ttl`, or what a trim asks for.
    pub open spec fn finds_young(self, e: Entry<E>, ttl: Duration) -> bool {
        match self {
            Deed::Append { now, .. } => now@ - e.at@ <= ttl@,
            Deed::Read { now, .. } => now@ - e.at@ <= ttl@,
            Deed::Trim { older_than, now } => now@ - e.at@ <= older_than@,
            Deed::Mark => true,
        }
    }
}

/// A log after some deeds, one after the other.
pub open spec fn after_deeds<E>(log: LogView<E>, deeds: Seq<Deed<E>>) -> LogView<E>
    decreases deeds.len(),
{
    if deeds.len() == 0 {
        log
    } else {
        deeds.last().done(after_deeds(log, deeds.drop_last()))
    }
}

/// Whether a log does all deeds.
pub open spec fn all_fit<E>(log: LogView<E>, deeds: Seq<Deed<E>>) -> bool
    decreases deeds.len(),
{
    deeds.len() > 0 ==> all_fit(log, deeds.drop_last()) && deeds.last().fits(
        after_deeds(log, deeds.drop_last()),
    )
}

proof fn lemma_topic_wf<E>(log: LogView<E>, name: Seq<char>)
    requires
        log.wf(),
    ensures
        log.topic(name).wf(),
        forall|i: int|
            0 <= i < log.topic(name).history.len() ==> (#[trigger] log.topic(name).history[i]).seq
                <= log.last_seq,
{
    let t = log.topic(name);
    if log.topics.contains_key(name) {
        assert forall|i: int| 0 <= i < t.history.len() implies (#[trigger] t.history[i]).seq
            <= log.last_seq by {
            assert(t.history[i] == log.topics[name].history[i]);
        }
    } else {
        assert(t.ring =~= t.history.skip(0));
    }
}

/// Deeds keep a log well formed and its bounds.
pub proof fn deeds_keep_order<E>(log: LogView<E>, deeds: Seq<Deed<E>>)
    requires
        log.wf(),
        all_fit(log, deeds),
    ensures
        after_deeds(log, deeds).wf(),
        after_deeds(log, deeds).capacity == log.capacity,
        after_deeds(log, deeds).ttl == log.ttl,
    decreases deeds.len(),
{
    if deeds.len() > 0 {
        let before = after_deeds(log, deeds.drop_last());
        deeds_keep_order(log, deeds.drop_last());
        match deeds.last() {
            Deed::Append { name, event, now } => {
                appending_keeps_order(before, name, event, now);
            },
            Deed::Read { name, seq, now } => {
                reading_keeps_order(before, name, seq, now);
            },
            Deed::Trim { older_than, now } => {
                trimming_keeps_order(before, older_than, now);
            },
            Deed::Mark => {
                marking_keeps_order(before);
            },
        }
    }
}

/// Retention: whatever was done to a log since it was made, an event that is
/// among the last `capacity` of its topic, and was not older than `ttl` at any
/// read or write nor than what any trim asked for, is still held.
pub proof fn what_is_recent_and_young_is_held<E>(
    capacity: usize,
    ttl: Duration,
    deeds: Seq<Deed<E>>,
    name: Seq<char>,
    i: int,
)
    requires
        capacity > 0,
        all_fit(LogView::<E>::fresh(capacity, ttl), deeds),
        ({
            let log = after_deeds(LogView::<E>::fresh(capacity, ttl), deeds);
            let history = log.topic(name).history;
            &&& 0 <= i < history.len()
            &&& history.len() - i <= capacity
            &&& forall|d: int|
                0 <= d < deeds.len() ==> (#[trigger] deeds[d]).finds_young(history[i], ttl)
        }),
    ensures
        ({
            let t = after_deeds(LogView::<E>::fresh(capacity, ttl), deeds).topic(name);
            let gone = t.history.len() - t.ring.len();
            gone <= i && t.ring[i - gone] == t.history[i]
        }),
    decreases deeds.len(),
{
    let start = LogView::<E>::fresh(capacity, ttl);
    deeds_keep_order(start, deeds);
    if deeds.len() > 0 {
        let most = deeds.drop_last();
        let before = after_deeds(start, most);
        let log = after_deeds(start, deeds);
        let t = log.topic(name);
        let was = before.topic(name);
        deeds_keep_order(start, most);
        lemma_topic_wf(before, name);
        lemma_topic_wf(log, name);
        let last = deeds[deeds.len() - 1];
        assert(last == deeds.last());
        assert(last.finds_young(t.history[i], ttl));
        assert forall|d: int| 0 <= d < most.len() implies (#[trigger] most[d]).finds_young(
            t.history[i],
            ttl,
        ) by {
            assert(deeds[d].finds_young(t.history[i], ttl));
        }
        let j = i - was.dropped();
        match last {
            Deed::Append { name: other, event, now } => {
                appending_keeps_order(before, other, event, now);
                if i < was.history.len() {
                    assert(t.history[i] == was.history[i]);
                    what_is_recent_and_young_is_held(capacity, ttl, most, name, i);
                }
                if other == name {
                    let grown = was.appended(
                        Entry { seq: (before.last_seq + 1) as u64, at: now, payload: event },
                    );
                    assert(grown.ring[j] == t.history[i]);
                    ring::what_is_recent_and_young_is_kept(grown, capacity, ttl, now);
                    assert(grown.ring.len() - j <= capacity);
                } else {
                    assert(t == was);
                }
            },
            Deed::Read { name: other, seq, now } => {
                reading_keeps_order(before, other, seq, now);
                assert(t.history == was.history);
                what_is_recent_and_young_is_held(capacity, ttl, most, name, i);
                assert(was.ring[j] == t.history[i]);
                ring::what_is_recent_and_young_is_kept(was, capacity, ttl, now);
                assert(was.ring.len() - j <= capacity);
            },
            Deed::Trim { older_than, now } => {
                trimming_keeps_order(before, older_than, now);
                assert(t.history == was.history);
                what_is_recent_and_young_is_held(capacity, ttl, most, name, i);
                assert(was.ring[j] == t.history[i]);
                ring::what_is_recent_and_young_is_kept(was, capacity, older_than, now);
                assert(was.ring.len() - j <= capacity);
            },
            Deed::Mark => {
                assert(t == was);
                what_is_recent_and_young_is_held(capacity, ttl, most, name, i);
            },
        }
    }
}

/// A replay is owed: a cursor that was assigned, and is not below the last
/// gap, is answered with every event of the topic after it, as long as the log
/// holds them all, they are among the last `capacity` of the topic, none is
/// older than `ttl`, and they are no more than the limit.
#[verifier::rlimit(40)]
pub proof fn what_is_held_is_replayed<E>(
    log: LogView<E>,
    name: Seq<char>,
    seq: u64,
    limit: usize,
    now: Duration,
    k: int,
)
    requires
        log.wf(),
        log.gap_floor <= seq <= log.last_seq,
        ({
            let t = log.topic(name);
            &&& t.history.len() - t.ring.len() <= k <= t.history.len()
            &&& t.history.len() - k <= log.capacity
            &&& t.history.len() - k <= limit
            &&& forall|i: int| 0 <= i < k ==> (#[trigger] t.history[i]).seq <= seq
            &&& forall|i: int|
                k <= i < t.history.len() ==> (#[trigger] t.history[i]).seq > seq && now@
                    - t.history[i].at@ <= log.ttl@
        }),
    ensures
        log.answer(name, seq, limit, now) == Answer::<E>::Events(log.topic(name).history.skip(k)),
{
    let t = log.topic(name);
    let at = log.topic_at(name, now);
    lemma_topic_wf(log, name);
    ring::trimming_drops_the_oldest(t, log.capacity, log.ttl, now);
    ring::what_is_recent_and_young_is_kept(t, log.capacity, log.ttl, now);
    let d = t.dropped();
    if k < t.history.len() {
        assert(t.ring[k - d] == t.history[k]);
    }
    assert(at.dropped() <= k);
    if at.dropped() > 0 {
        assert(t.history[at.dropped() - 1].seq <= seq);
    }
    ring::ring_holds_what_follows(at, seq);
    let low = t.history.take(k);
    let high = t.history.skip(k);
    assert(t.history =~= low + high);
    ring::after_in_two_parts(low, high, seq);
    assert forall|i: int| 0 <= i < low.len() implies (#[trigger] low[i]).seq <= seq by {
        assert(low[i] == t.history[i]);
    }
    assert forall|i: int| 0 <= i < high.len() implies (#[trigger] high[i]).seq > seq by {
        assert(high[i] == t.history[k + i]);
    }
    ring::nothing_follows_the_highest(low, seq);
    ring::everything_follows_a_lower(high, seq);
    assert(ring::after(t.history, seq) =~= high);
}

/// The retention that a log promises, as its clients see it: whatever was
/// done to it since it was made, an assigned cursor not below the last gap is
/// answered with every event of the topic after it, when they are among the
/// last `capacity` of the topic, none was older than `ttl` at any read or
/// write, this one included, nor than what any trim asked for, and they are no
/// more than the limit.
pub proof fn a_client_within_the_retention_is_served<E>(
    capacity: usize,
    ttl: Duration,
    deeds: Seq<Deed<E>>,
    name: Seq<char>,
    seq: u64,
    limit: usize,
    now: Duration,
    k: int,
)
    requires
        capacity > 0,
        all_fit(LogView::<E>::fresh(capacity, ttl), deeds),
        ({
            let log = after_deeds(LogView::<E>::fresh(capacity, ttl), deeds);
            let history = log.topic(name).history;
            &&& log.gap_floor <= seq <= log.last_seq
            &&& 0 <= k <= history.len()
            &&& history.len() - k <= capacity
            &&& history.len() - k <= limit
            &&& forall|i: int| 0 <= i < k ==> (#[trigger] history[i]).seq <= seq
            &&& forall|i: int|
                k <= i < history.len() ==> (#[trigger] history[i]).seq > seq && now@
                    - history[i].at@ <= ttl@
            &&& forall|i: int, d: int|
                k <= i < history.len() && 0 <= d < deeds.len() ==> (
                #[trigger] deeds[d]).finds_young(#[trigger] history[i], ttl)
        }),
    ensures
        ({
            let log = after_deeds(LogView::<E>::fresh(capacity, ttl), deeds);
            log.answer(name, seq, limit, now) == Answer::<E>::Events(
                log.topic(name).history.skip(k),
            )
        }),
{
    let start = LogView::<E>::fresh(capacity, ttl);
    let log = after_deeds(start, deeds);
    let t = log.topic(name);
    deeds_keep_order(start, deeds);
    lemma_topic_wf(log, name);
    if k < t.history.len() {
        what_is_recent_and_young_is_held(capacity, ttl, deeds, name, k);
    }
    what_is_held_is_replayed(log, name, seq, limit, now, k);
}

/// The other side of it: a cursor after which the topic took an event that is
/// no longer held is answered `Expired`, and so is one that more events
/// follow than the limit, and one below a gap.
pub proof fn what_cannot_be_replayed_is_expired<E>(
    log: LogView<E>,
    name: Seq<char>,
    seq: u64,
    limit: usize,
    now: Duration,
    i: int,
)
    requires
        log.wf(),
        seq <= log.last_seq,
        ({
            let t = log.topic(name);
            ||| seq < log.gap_floor
            ||| 0 <= i < t.history.len() - t.ring.len() && t.history[i].seq > seq
            ||| 0 <= i < t.history.len() && t.history[i].seq > seq && t.history.len() - i > limit
        }),
    ensures
        log.answer(name, seq, limit, now) is Expired,
{
    let t = log.topic(name);
    let at = log.topic_at(name, now);
    lemma_topic_wf(log, name);
    ring::trimming_drops_the_oldest(t, log.capacity, log.ttl, now);
    if seq >= log.gap_floor && !at.lost_after(seq) {
        ring::ring_holds_what_follows(at, seq);
        if i < at.dropped() - 1 {
            assert(t.history[i].seq < t.history[at.dropped() - 1].seq);
        }
        assert(i >= at.dropped());
        let low = t.history.take(i);
        let high = t.history.skip(i);
        assert(t.history =~= low + high);
        ring::after_in_two_parts(low, high, seq);
        assert forall|j: int| 0 <= j < high.len() implies (#[trigger] high[j]).seq > seq by {
            assert(high[j] == t.history[i + j]);
            if j > 0 {
                assert(t.history[i].seq < t.history[i + j].seq);
            }
        }
        ring::everything_follows_a_lower(high, seq);
    }
}

/// What an expired answer names is no earlier than what the log can still
/// give: below a gap, the first number after it; where events were lost, the
/// oldest one held, or the number after the last one lost when none is held;
/// past the limit, the first event after the cursor.
pub proof fn the_earliest_is_the_oldest_left<E>(
    log: LogView<E>,
    name: Seq<char>,
    seq: u64,
    limit: usize,
    now: Duration,
    earliest: u64,
)
    requires
        log.wf(),
        log.answer(name, seq, limit, now) == (Answer::<E>::Expired { earliest }),
    ensures
        ({
            let t = log.topic_at(name, now);
            let gone = t.history.len() - t.ring.len();
            if seq < log.gap_floor {
                earliest == log.gap_floor + 1
            } else if gone > 0 && t.history[gone - 1].seq > seq {
                if t.ring.len() > 0 {
                    earliest == t.ring[0].seq
                } else {
                    earliest == t.history[gone - 1].seq + 1
                }
            } else {
                &&& exists|j: int| 0 <= j < t.ring.len() && (#[trigger] t.ring[j]).seq == earliest
                &&& earliest > seq
                &&& forall|j: int|
                    0 <= j < t.ring.len() && (#[trigger] t.ring[j]).seq > seq ==> earliest
                        <= t.ring[j].seq
            }
        }),
{
    let t = log.topic(name);
    let at = log.topic_at(name, now);
    lemma_topic_wf(log, name);
    ring::trimming_drops_the_oldest(t, log.capacity, log.ttl, now);
    if at.dropped() > 0 {
        assert(at.history[at.dropped() - 1].seq <= log.last_seq);
    }
    if seq >= log.gap_floor && !at.lost_after(seq) {
        let d = at.dropped();
        assert forall|i: int, j: int| 0 <= i < j < at.ring.len() implies at.ring[i].seq
            < at.ring[j].seq by {
            assert(at.history[d + i].seq < at.history[d + j].seq);
        }
        ring::the_first_that_follows_is_the_least(at.ring, seq);
        let first = ring::after(at.ring, seq)[0];
        let j = choose|j: int| 0 <= j < at.ring.len() && at.ring[j] == first;
        assert(at.ring[j].seq == earliest);
    }
}

/// A new log has assigned nothing and marked no gap, and keeps at least one
/// event of each topic.
pub proof fn a_new_log_is_empty<E>(capacity: usize, ttl: Duration)
    ensures
        ({
            let log = LogView::<E>::fresh(capacity, ttl);
            &&& log.last_seq == 0 && log.gap_floor == 0
            &&& log.ttl == ttl
            &&& log.capacity >= 1
            &&& capacity >= 1 ==> log.capacity == capacity
            &&& capacity == 0 ==> log.capacity == 1
            &&& forall|name: Seq<char>| (#[trigger] log.topic(name)).history.len() == 0
        }),
{
}

/// A read touches no topic but its own.
pub proof fn a_read_leaves_other_topics_alone<E>(
    log: LogView<E>,
    name: Seq<char>,
    seq: u64,
    now: Duration,
    other: Seq<char>,
)
    requires
        other != name,
    ensures
        log.read(name, seq, now).topic(other) == log.topic(other),
{
}

/// A trim by age leaves nothing older in any topic, as events are appended in
/// the order of time, and drops nothing that is younger and among the last
/// `capacity`.
pub proof fn a_trim_drops_what_is_older<E>(
    log: LogView<E>,
    older_than: Duration,
    now: Duration,
    name: Seq<char>,
    i: int,
)
    requires
        log.wf(),
        forall|a: int, b: int|
            0 <= a < b < log.topic(name).ring.len() ==> (#[trigger] log.topic(name).ring[a]).at@
                <= (#[trigger] log.topic(name).ring[b]).at@,
        0 <= i < log.topic(name).ring.len(),
    ensures
        ({
            let ring = log.topic(name).ring;
            let left = log.trimmed(older_than, now).topic(name).ring;
            i >= ring.len() - left.len() <==> ring.len() - i <= log.capacity && now@ - ring[i].at@
                <= older_than@
        }),
{
    ring::a_trim_keeps_what_is_recent_and_young(
        log.topic(name),
        log.capacity,
        older_than,
        now,
        i,
    );
}

/// An append assigns the next number, keeps the time of the event with it, and
/// marks nothing.
pub proof fn what_an_append_makes<E>(log: LogView<E>, name: Seq<char>, event: E, now: Duration)
    requires
        log.wf(),
        log.last_seq < u64::MAX - 1,
    ensures
        ({
            let next = log.appended(name, event, now);
            let history = next.topic(name).history;
            &&& history.len() == log.topic(name).history.len() + 1
            &&& history.drop_last() == log.topic(name).history
            &&& history.last().seq == log.last_seq + 1
            &&& history.last().at == now
            &&& history.last().payload == event
            &&& next.last_seq == log.last_seq + 1
            &&& next.gap_floor == log.gap_floor
            &&& next.capacity == log.capacity && next.ttl == log.ttl
            &&& log.capacity > 0 ==> next.topic(name).ring.len() > 0
                && next.topic(name).ring.last() == history.last()
        }),
{
    let next = log.appended(name, event, now);
    appending_keeps_order(log, name, event, now);
    let history = next.topic(name).history;
    assert(history.drop_last() =~= log.topic(name).history);
    lemma_topic_wf(log, name);
    lemma_topic_wf(next, name);
    let grown = log.topic(name).appended(
        Entry { seq: (log.last_seq + 1) as u64, at: now, payload: event },
    );
    ring::what_is_recent_and_young_is_kept(grown, log.capacity, log.ttl, now);
    assert(grown.ring[grown.ring.len() - 1] == history.last());
}

/// What an append does to a log in memory: it never fails, hands out the next
/// number, and puts the event at the end of its topic.
pub proof fn what_an_append_hands_out<E: Clone>(
    before: MemoryLog<E>,
    topic: Seq<char>,
    event: E,
    now: Duration,
    after: MemoryLog<E>,
    r: Result<u64, LogError>,
)
    requires
        before.wf(),
        before@.last_seq < u64::MAX - 1,
        <MemoryLog<E> as EventLog>::append_spec(before, topic, event, now, after, r),
    ensures
        before.has_room(),
        r is Ok,
        r->Ok_0 == before@.last_seq + 1,
        after@.last_seq == before@.last_seq + 1,
        after@.topic(topic).history.drop_last() == before@.topic(topic).history,
        after@.topic(topic).history.last().payload == event,
        after@.topic(topic).history.last().seq == r->Ok_0,
        forall|other: Seq<char>|
            other != topic ==> #[trigger] after@.topic(other) == before@.topic(other),
{
    before.wf_view();
    appending_keeps_order(before@, topic, event, now);
    what_an_append_makes(before@, topic, event, now);
}

/// What a read of a log in memory gives: it never fails; a number that was
/// never assigned is unknown, a refusal names what the log says, and what is
/// replayed are the events with their numbers, one for one.
pub proof fn what_a_read_gives<E: Clone>(
    before: MemoryLog<E>,
    topic: Seq<char>,
    seq: u64,
    limit: usize,
    now: Duration,
    after: MemoryLog<E>,
    r: Result<Replay<E>, LogError>,
)
    requires
        before.wf(),
        <MemoryLog<E> as EventLog>::since_spec(before, topic, seq, limit, now, after, r),
    ensures
        r is Ok,
        r->Ok_0 is Unknown <==> seq > before@.last_seq,
        before@.answer(topic, seq, limit, now) matches Answer::Expired { earliest }
            ==> r->Ok_0 is Expired && r->Ok_0->earliest == earliest,
        before@.answer(topic, seq, limit, now) matches Answer::Events(entries) ==> {
            &&& r->Ok_0 is Events
            &&& r->Ok_0->Events_0@.len() == entries.len()
            &&& forall|i: int|
                0 <= i < entries.len() ==> (#[trigger] r->Ok_0->Events_0@[i]).seq == entries[i].seq
                    && cloned(entries[i].payload, r->Ok_0->Events_0@[i].event)
        },
        after@.last_seq == before@.last_seq,
        after@.gap_floor == before@.gap_floor,
        forall|name: Seq<char>|
            (#[trigger] after@.topic(name)).history == before@.topic(name).history,
{
    before.wf_view();
    a_replay_is_exact(before@, topic, seq, limit, now);
    reading_keeps_order(before@, topic, seq, now);
}

/// What a gap mark and a trim do to a log in memory: neither fails. A mark puts
/// the floor at the last number and leaves every topic as it was; a trim counts
/// what it drops.
pub proof fn what_a_mark_and_a_trim_do<E: Clone>(
    before: MemoryLog<E>,
    marked: MemoryLog<E>,
    r: Result<(), LogError>,
    older_than: Duration,
    now: Duration,
    trimmed: MemoryLog<E>,
    n: Result<u64, LogError>,
)
    requires
        <MemoryLog<E> as EventLog>::mark_gap_spec(before, marked, r),
        <MemoryLog<E> as EventLog>::trim_spec(before, older_than, now, trimmed, n),
    ensures
        r is Ok,
        marked@.gap_floor == before@.last_seq,
        marked@.last_seq == before@.last_seq,
        forall|name: Seq<char>| #[trigger] marked@.topic(name) == before@.topic(name),
        n is Ok,
        n->Ok_0 == before@.held() - trimmed@.held(),
        before@.held() == ring::held(before@.topics, before@.names),
        trimmed@.last_seq == before@.last_seq,
        trimmed@.gap_floor == before@.gap_floor,
{
}

} // verus!
