//! The replay buffer behind the resume contract.
//!
//! [`EventLog`] is the only storage seam: the crate ships [`MemoryLog`],
//! a per-topic ring that suits a single-process server. A shared store
//! (SQL, Redis Streams) implements the same trait when the server scales
//! out; its cursors are its own — the trait never reads one.

use crate::cursor;
use crate::jitter;
use crate::protocol::token_of;
use crate::ring::{self, Entry, TopicView, Topics};
use crate::text;
use crate::time::Duration;
use vstd::prelude::*;

pub use crate::cursor::Cursor;
pub use crate::error::LogError;

verus! {

/// An event as it travels from the log to a response.
#[derive(Debug, PartialEq, Eq)]
pub struct Published<E> {
    /// The cursor the log issued for it — every replayed event carries one.
    /// `None` is a live event the log could not take (the write failed
    /// after the state changed): it goes out without an `id:`, so it
    /// cannot move the client's cursor, and [`EventLog::mark_gap`] makes
    /// the next reconnect resync.
    pub cursor: Option<Cursor>,
    /// The payload.
    pub event: E,
}

impl<E: Clone> Clone for Published<E> {
    fn clone(&self) -> (p: Self)
        ensures
            token_of(p.cursor) == token_of(self.cursor),
            cloned(self.event, p.event),
    {
        let cursor = match &self.cursor {
            Some(c) => Some(c.clone()),
            None => None,
        };
        Published { cursor, event: self.event.clone() }
    }
}

/// The answer to "everything after this cursor".
#[derive(Debug, PartialEq, Eq)]
pub enum Replay<E> {
    /// The events that followed the cursor, in order. May be empty: the
    /// client is up to date.
    Events(Vec<Published<E>>),
    /// The log can no longer replay from the cursor: it is older than the
    /// retained window, the gap is wider than the replay limit, or a gap
    /// was marked since. `earliest` is the oldest event still retained on
    /// the topic, when there is one.
    Expired {
        /// The oldest cursor the log could still replay from.
        earliest: Option<Cursor>,
    },
    /// The cursor was never issued by this log.
    Unknown,
}

/// An event in a ring, with the cursor that was issued for it.
pub struct Stored<E> {
    /// Built once; a replay and the fan-out clone the reference.
    pub cursor: Cursor,
    /// The payload.
    pub event: E,
}

/// An answer over the entries that a log holds.
#[verifier::ext_equal]
pub enum Answer<E> {
    Events(Seq<Entry<Stored<E>>>),
    Expired { earliest: Option<Seq<char>> },
    Unknown,
}

/// Whether published events are copies of entries, one for one, each with
/// the cursor of its entry.
pub open spec fn copies<E: Clone>(
    events: Seq<Published<E>>,
    entries: Seq<Entry<Stored<E>>>,
) -> bool {
    &&& events.len() == entries.len()
    &&& forall|i: int|
        0 <= i < events.len() ==> token_of((#[trigger] events[i]).cursor) == Some(
            entries[i].payload.cursor@,
        ) && cloned(entries[i].payload.event, events[i].event)
}

impl<E: Clone> Replay<E> {
    /// Whether this tells what `answer` says.
    pub open spec fn tells(self, answer: Answer<E>) -> bool {
        match (self, answer) {
            (Replay::Events(events), Answer::Events(entries)) => copies(events@, entries),
            (Replay::Expired { earliest }, Answer::Expired { earliest: at }) => token_of(earliest)
                == at,
            (Replay::Unknown, Answer::Unknown) => true,
            _ => false,
        }
    }
}

// ---------------------------------------------------------------------------
// Cursors
// ---------------------------------------------------------------------------

/// A digit of base sixteen, in lower case.
pub open spec fn hex_digit(d: nat) -> char {
    if d < 10 {
        ('0' as int + d) as char
    } else {
        ('a' as int + (d - 10)) as char
    }
}

/// The last `width` digits of `n` in base sixteen.
pub open spec fn hex(n: nat, width: nat) -> Seq<char>
    decreases width,
{
    if width == 0 {
        Seq::empty()
    } else {
        hex(n / 16, (width - 1) as nat).push(hex_digit(n % 16))
    }
}

/// A generation: eight lower-case digits of base sixteen.
pub open spec fn is_generation(g: Seq<char>) -> bool {
    &&& g.len() == 8
    &&& forall|i: int| 0 <= i < 8 ==> is_hex_digit(#[trigger] g[i])
}

/// A lower-case digit of base sixteen.
pub open spec fn is_hex_digit(c: char) -> bool {
    ('0' <= c && c <= '9') || ('a' <= c && c <= 'f')
}

/// The cursor of a sequence: `<generation>-<sequence>`.
pub open spec fn cursor_text(generation: Seq<char>, seq: u64) -> Seq<char> {
    generation + seq!['-'] + text::decimal(seq as nat)
}

/// The sequence behind a cursor of a generation; `None` for any other token.
pub open spec fn seq_behind(generation: Seq<char>, token: Seq<char>) -> Option<u64> {
    if exists|seq: u64| token == #[trigger] cursor_text(generation, seq) {
        Some(choose|seq: u64| token == #[trigger] cursor_text(generation, seq))
    } else {
        None
    }
}

/// Cursors never collide: neither across generations nor within one.
pub proof fn cursors_never_collide(g: Seq<char>, n: u64, h: Seq<char>, m: u64)
    requires
        is_generation(g),
        is_generation(h),
        cursor_text(g, n) == cursor_text(h, m),
    ensures
        g == h,
        n == m,
{
    let a = cursor_text(g, n);
    assert(a.take(8) =~= g);
    assert(a.take(8) =~= h);
    assert(a.skip(9) =~= text::decimal(n as nat));
    assert(a.skip(9) =~= text::decimal(m as nat));
    text::lemma_decimal_injective(n as nat, m as nat);
}

/// Every cursor of a generation is read back as its sequence.
pub proof fn issued_cursors_are_recognised(generation: Seq<char>, seq: u64)
    requires
        is_generation(generation),
    ensures
        seq_behind(generation, cursor_text(generation, seq)) == Some(seq),
{
    let token = cursor_text(generation, seq);
    let found = choose|n: u64| token == #[trigger] cursor_text(generation, n);
    cursors_never_collide(generation, seq, generation, found);
}

proof fn lemma_hex(n: nat, width: nat)
    ensures
        hex(n, width).len() == width,
        forall|i: int| 0 <= i < width ==> is_hex_digit(#[trigger] hex(n, width)[i]),
    decreases width,
{
    if width > 0 {
        lemma_hex(n / 16, (width - 1) as nat);
        assert(is_hex_digit(hex_digit(n % 16)));
        assert forall|i: int| 0 <= i < width implies is_hex_digit(#[trigger] hex(n, width)[i]) by {
            if i < width - 1 {
                assert(hex(n, width)[i] == hex(n / 16, (width - 1) as nat)[i]);
            }
        }
    }
}

proof fn lemma_hex_injective(n: nat, m: nat, width: nat)
    requires
        n < sixteen_to(width),
        m < sixteen_to(width),
        hex(n, width) == hex(m, width),
    ensures
        n == m,
    decreases width,
{
    if width > 0 {
        let less = (width - 1) as nat;
        let a = hex(n, width);
        let b = hex(m, width);
        assert(a.drop_last() =~= hex(n / 16, less));
        assert(b.drop_last() =~= hex(m / 16, less));
        assert(a.last() == hex_digit(n % 16));
        assert(b.last() == hex_digit(m % 16));
        lemma_hex_injective(n / 16, m / 16, less);
    }
}

spec fn sixteen_to(width: nat) -> nat
    decreases width,
{
    if width == 0 {
        1
    } else {
        16 * sixteen_to((width - 1) as nat)
    }
}

/// Two logs that drew different numbers are of different generations.
pub proof fn draws_tell_generations_apart(n: u32, m: u32)
    requires
        n != m,
    ensures
        is_generation(hex(n as nat, 8)),
        hex(n as nat, 8) != hex(m as nat, 8),
{
    lemma_hex(n as nat, 8);
    assert(sixteen_to(8) == 0x1_0000_0000) by {
        reveal_with_fuel(sixteen_to, 9);
    }
    if hex(n as nat, 8) == hex(m as nat, 8) {
        lemma_hex_injective(n as nat, m as nat, 8);
    }
}

/// Hex, a dash and digits are within the cursor alphabet.
pub proof fn cursors_are_tokens(generation: Seq<char>, seq: u64)
    requires
        is_generation(generation),
    ensures
        cursor::is_token(cursor_text(generation, seq)),
{
    let d = text::decimal(seq as nat);
    let token = cursor_text(generation, seq);
    text::lemma_decimal(seq as nat);
    text::lemma_decimal_len(seq as nat);
    assert forall|i: int| 0 <= i < token.len() implies cursor::unreserved(#[trigger] token[i]) by {
        if i < 8 {
            assert(is_hex_digit(generation[i]));
            assert(token[i] == generation[i]);
        } else if i > 8 {
            assert(text::is_digit(d[i - 9]));
            assert(token[i] == d[i - 9]);
        }
    }
    assert forall|i: int| 0 <= i < token.len() implies #[trigger] token[i] < '\u{80}' by {
        assert(cursor::unreserved(token[i]));
    }
    text::lemma_encode_ascii(token);
}

/// One digit of base sixteen, in lower case.
fn hex_char(d: u32) -> (c: char)
    requires
        d < 16,
    ensures
        c == hex_digit(d as nat),
{
    if d < 10 {
        (48u8 + d as u8) as char
    } else {
        (97u8 + (d - 10) as u8) as char
    }
}

/// The last `width` digits of a number in base sixteen.
fn push_hex(out: &mut String, n: u32, width: u32)
    ensures
        final(out)@ == old(out)@ + hex(n as nat, width as nat),
    decreases width,
{
    if width > 0 {
        push_hex(out, n / 16, width - 1);
        out.push(hex_char(n % 16));
        assert(out@ =~= old(out)@ + hex(n as nat, width as nat));
    } else {
        assert(out@ =~= old(out)@ + hex(n as nat, width as nat));
    }
}

// ---------------------------------------------------------------------------
// The log
// ---------------------------------------------------------------------------

/// A log as its callers know it.
#[verifier::ext_equal]
pub struct LogView<E> {
    pub topics: Map<Seq<char>, TopicView<Stored<E>>>,
    /// What every cursor of this log begins with.
    pub generation: Seq<char>,
    /// The last sequence issued (0 before the first append).
    pub last_seq: u64,
    /// Sequences at or below this cannot be replayed from, whatever the
    /// rings hold.
    pub gap_floor: u64,
    pub capacity: usize,
    pub ttl: Duration,
}

impl<E> LogView<E> {
    /// A log without events.
    pub open spec fn fresh(generation: Seq<char>, capacity: usize, ttl: Duration) -> LogView<E> {
        LogView {
            topics: Map::empty(),
            generation,
            last_seq: 0,
            gap_floor: 0,
            capacity: if capacity >= 1 {
                capacity
            } else {
                1
            },
            ttl,
        }
    }

    /// One topic.
    pub open spec fn topic(self, name: Seq<char>) -> TopicView<Stored<E>> {
        ring::topic_in(self.topics, name)
    }

    /// Whether an entry was issued by this log: it is numbered within what
    /// was, and carries the cursor of its number.
    pub open spec fn issued_entry(self, e: Entry<Stored<E>>) -> bool {
        e.seq <= self.last_seq && e.payload.cursor@ == cursor_text(self.generation, e.seq)
    }

    /// Every topic is well formed and holds what this log issued.
    pub open spec fn wf(self) -> bool {
        &&& is_generation(self.generation)
        &&& self.gap_floor <= self.last_seq
        &&& forall|name: Seq<char>|
            #[trigger] self.topics.contains_key(name) ==> self.topics[name].wf()
        &&& forall|name: Seq<char>, i: int|
            self.topics.contains_key(name) && 0 <= i < self.topics[name].history.len()
                ==> self.issued_entry(#[trigger] self.topics[name].history[i])
    }

    /// Whether the log issued a token as a cursor.
    pub open spec fn issued(self, token: Seq<char>) -> bool {
        exists|seq: u64|
            0 < seq <= self.last_seq && token == #[trigger] cursor_text(self.generation, seq)
    }

    /// One topic, trimmed as it is at `now`.
    pub open spec fn topic_at(self, name: Seq<char>, now: Duration) -> TopicView<Stored<E>> {
        self.topic(name).trimmed(self.capacity, self.ttl, now)
    }

    /// The entry that the next append makes.
    pub open spec fn next_entry(self, cursor: Cursor, event: E, now: Duration) -> Entry<
        Stored<E>,
    > {
        Entry {
            seq: (self.last_seq + 1) as u64,
            at: now,
            payload: Stored { cursor, event },
        }
    }

    /// The log after an append that issued `cursor`.
    pub open spec fn appended(
        self,
        name: Seq<char>,
        cursor: Cursor,
        event: E,
        now: Duration,
    ) -> LogView<E> {
        let entry = self.next_entry(cursor, event, now);
        LogView {
            topics: self.topics.insert(
                name,
                self.topic(name).appended(entry).trimmed(self.capacity, self.ttl, now),
            ),
            last_seq: entry.seq,
            ..self
        }
    }

    /// The log after a read: the topic was trimmed if the cursor was issued
    /// here.
    pub open spec fn read(self, name: Seq<char>, token: Seq<char>, now: Duration) -> LogView<E> {
        if self.issued(token) && self.topics.contains_key(name) {
            LogView { topics: self.topics.insert(name, self.topic_at(name, now)), ..self }
        } else {
            self
        }
    }

    /// The cursor of the first entry, when there is one.
    pub open spec fn first_cursor(entries: Seq<Entry<Stored<E>>>) -> Option<Seq<char>> {
        if entries.len() > 0 {
            Some(entries[0].payload.cursor@)
        } else {
            None
        }
    }

    /// What the log answers to "everything after this cursor, at most
    /// `limit`". A gap at or after the cursor, or a trim above it, means
    /// events after it are gone: nothing the ring holds can close that.
    pub open spec fn answer(
        self,
        name: Seq<char>,
        token: Seq<char>,
        limit: usize,
        now: Duration,
    ) -> Answer<E> {
        if !self.issued(token) {
            Answer::Unknown
        } else {
            let seq = seq_behind(self.generation, token)->0;
            let t = self.topic_at(name, now);
            let events = ring::after(t.ring, seq);
            if seq <= self.gap_floor || t.lost_after(seq) {
                Answer::Expired {
                    earliest: Self::first_cursor(ring::after(t.ring, self.gap_floor)),
                }
            } else if events.len() > limit {
                Answer::Expired { earliest: Self::first_cursor(events) }
            } else {
                Answer::Events(events)
            }
        }
    }

    /// The log after a gap was declared.
    pub open spec fn marked(self) -> LogView<E> {
        LogView { gap_floor: self.last_seq, ..self }
    }
}

/// A bounded event log that issues cursors.
///
/// `topic` partitions events (one screen, one channel …); a cursor is
/// issued by the log as a whole, so a client of a quiet topic can present
/// one issued for a busier topic and still get an exact, empty replay. What
/// a cursor looks like is the log's business — see [`Cursor`] for the wire
/// alphabet every log must stay within.
///
/// Every operation takes the time, read from one clock that does not go
/// back.
pub trait EventLog: Sized {
    /// The payload type.
    type Event: Clone;

    /// What the log keeps between calls.
    spec fn valid(&self) -> bool;

    /// Whether the log can number one more event.
    spec fn has_room(&self) -> bool;

    /// What an append may do.
    spec fn append_spec(
        before: Self,
        topic: Seq<char>,
        event: Self::Event,
        now: Duration,
        after: Self,
        r: Result<Cursor, LogError>,
    ) -> bool;

    /// What a read may do.
    spec fn since_spec(
        before: Self,
        topic: Seq<char>,
        token: Seq<char>,
        limit: usize,
        now: Duration,
        after: Self,
        r: Result<Replay<Self::Event>, LogError>,
    ) -> bool;

    /// What a gap mark may do.
    spec fn mark_gap_spec(before: Self, after: Self, r: Result<(), LogError>) -> bool;

    /// Append and return the cursor issued for the event.
    fn append(&mut self, topic: &str, event: Self::Event, now: &Duration) -> (r: Result<
        Cursor,
        LogError,
    >)
        requires
            old(self).valid(),
            old(self).has_room(),
        ensures
            final(self).valid(),
            Self::append_spec(*old(self), topic@, event, *now, *final(self), r),
    ;

    /// Everything after `cursor` on `topic`, at most `limit` events.
    fn since(&mut self, topic: &str, cursor: &Cursor, limit: usize, now: &Duration) -> (r: Result<
        Replay<Self::Event>,
        LogError,
    >)
        requires
            old(self).valid(),
        ensures
            final(self).valid(),
            Self::since_spec(*old(self), topic@, cursor@, limit, *now, *final(self), r),
    ;

    /// Declare that events up to now may be missing from the log (a write
    /// failed after the state changed): every cursor issued so far answers
    /// `Expired`, so a client reconnecting across the gap reloads a
    /// snapshot instead of silently missing what was lost.
    fn mark_gap(&mut self) -> (r: Result<(), LogError>)
        requires
            old(self).valid(),
        ensures
            final(self).valid(),
            Self::mark_gap_spec(*old(self), *final(self), r),
    ;
}

/// The default log: per-topic rings in memory, bounded by count and age.
///
/// Its cursors are `<generation>-<sequence>`: a generation drawn at random
/// when the log is created, and a sequence counted across the whole log
/// from 1. A cursor from another generation — an earlier process, another
/// replica — is `Unknown`, which the client answers with a snapshot; the
/// numbering never collides across restarts.
pub struct MemoryLog<E> {
    topics: Topics<Stored<E>>,
    generation: String,
    last_seq: u64,
    gap_floor: u64,
    capacity: usize,
    ttl: Duration,
}

impl<E> View for MemoryLog<E> {
    type V = LogView<E>;

    closed spec fn view(&self) -> LogView<E> {
        LogView {
            topics: self.topics@,
            generation: self.generation@,
            last_seq: self.last_seq,
            gap_floor: self.gap_floor,
            capacity: self.capacity,
            ttl: self.ttl,
        }
    }
}

impl<E> MemoryLog<E> {
    /// The topics can be found, and hold what this log issued.
    pub closed spec fn wf(self) -> bool {
        &&& self.topics.wf()
        &&& self@.wf()
    }

    /// A well-formed log has a well-formed view.
    pub proof fn wf_view(self)
        requires
            self.wf(),
        ensures
            self@.wf(),
    {
    }

    /// A log keeping at most `capacity` events per topic for at most `ttl`,
    /// of a generation drawn at random: 32 random bits, hex — distinct
    /// across restarts and replicas for any practical purpose, short on
    /// every frame.
    pub fn new(capacity: usize, ttl: Duration) -> (log: Self)
        ensures
            log.wf(),
            exists|draw: u32|
                log@ == LogView::<E>::fresh(#[trigger] hex(draw as nat, 8), capacity, ttl),
    {
        let draw: u64 = jitter::uniform(0..0x1_0000_0000);
        Self::with_generation(draw as u32, capacity, ttl)
    }

    /// A log of the generation that `draw` stands for.
    pub fn with_generation(draw: u32, capacity: usize, ttl: Duration) -> (log: Self)
        ensures
            log.wf(),
            log@ == LogView::<E>::fresh(hex(draw as nat, 8), capacity, ttl),
    {
        let mut generation = String::new();
        push_hex(&mut generation, draw, 8);
        proof {
            assert(generation@ =~= hex(draw as nat, 8));
            lemma_hex(draw as nat, 8);
        }
        MemoryLog {
            topics: Topics::new(),
            generation,
            last_seq: 0,
            gap_floor: 0,
            capacity: if capacity >= 1 {
                capacity
            } else {
                1
            },
            ttl,
        }
    }

    /// What every cursor of this log begins with.
    pub fn generation(&self) -> (g: &str)
        ensures
            g@ == self@.generation,
    {
        self.generation.as_str()
    }

    /// The last sequence issued (0 before the first append).
    pub fn last_seq(&self) -> (seq: u64)
        ensures
            seq == self@.last_seq,
    {
        self.last_seq
    }

    /// The cursor of a sequence.
    fn cursor(&self, seq: u64) -> (c: Cursor)
        requires
            self.wf(),
        ensures
            c@ == cursor_text(self@.generation, seq),
    {
        let mut token = self.generation.clone();
        token.push('-');
        text::push_decimal(&mut token, seq as u128);
        proof {
            assert(token@ =~= cursor_text(self.generation@, seq));
            cursors_are_tokens(self.generation@, seq);
            cursor::accepted_is_a_token(token@);
        }
        Cursor::checked(token)
    }

    /// The sequence behind a cursor of this generation; `None` for any
    /// other token.
    pub fn seq_of(&self, cursor: &Cursor) -> (r: Option<u64>)
        requires
            self.wf(),
        ensures
            r == seq_behind(self@.generation, cursor@),
    {
        let chars = text::chars_of(cursor.as_str());
        let prefix = text::chars_of(self.generation.as_str());
        let n: usize = chars.len();
        let ghost g = self.generation@;
        let ghost token = cursor@;
        proof {
            if seq_behind(g, token) is Some {
                let seq = seq_behind(g, token)->0;
                assert(token == cursor_text(g, seq));
                text::lemma_decimal(seq as nat);
                assert(token.take(8) =~= g);
                assert(token[8] == '-');
                assert(token.skip(9) =~= text::decimal(seq as nat));
            }
        }
        if n < 10 || !text::range_eq(&chars, 0, 8, &prefix) || chars[8] != '-' {
            assert(token.subrange(0, 8) =~= token.take(8));
            return None;
        }
        let ghost digits = token.skip(9);
        assert(chars@.subrange(9, n as int) =~= digits);
        // Only what an append writes: no `+`, and no zeros in front.
        if chars[9] == '0' && n > 10 {
            proof {
                if seq_behind(g, token) is Some {
                    let seq = seq_behind(g, token)->0;
                    assert(digits[0] == '0');
                    if seq == 0 {
                        assert(text::decimal(0) =~= seq!['0']);
                    }
                }
            }
            return None;
        }
        let r: Option<u64> = text::parse_digits(&chars, 9, n);
        proof {
            match r {
                Some(seq) => {
                    text::lemma_canonical_digits(digits);
                    assert(token.take(8) =~= g);
                    assert(token =~= cursor_text(g, seq));
                    issued_cursors_are_recognised(g, seq);
                },
                None => {},
            }
        }
        r
    }
}

/// Copies of the entries of a ring from `from` on.
fn copy_from<E: Clone>(t: &ring::Topic<Stored<E>>, from: usize) -> (events: Vec<Published<E>>)
    requires
        from <= t@.ring.len(),
    ensures
        copies(events@, t@.ring.skip(from as int)),
{
    let n: usize = t.len();
    let mut events: Vec<Published<E>> = Vec::new();
    let mut i: usize = from;
    while i < n
        invariant
            from <= i <= n == t@.ring.len(),
            events@.len() == i - from,
            forall|j: int|
                0 <= j < events@.len() ==> token_of((#[trigger] events@[j]).cursor) == Some(
                    t@.ring[from + j].payload.cursor@,
                ) && cloned(t@.ring[from + j].payload.event, events@[j].event),
        decreases n - i,
    {
        let e = t.entry(i);
        events.push(
            Published { cursor: Some(e.payload.cursor.clone()), event: e.payload.event.clone() },
        );
        i += 1;
    }
    events
}

impl<E: Clone> EventLog for MemoryLog<E> {
    type Event = E;

    open spec fn valid(&self) -> bool {
        self.wf()
    }

    open spec fn has_room(&self) -> bool {
        self@.last_seq < u64::MAX
    }

    open spec fn append_spec(
        before: Self,
        topic: Seq<char>,
        event: E,
        now: Duration,
        after: Self,
        r: Result<Cursor, LogError>,
    ) -> bool {
        r matches Ok(cursor) && cursor@ == cursor_text(
            before@.generation,
            (before@.last_seq + 1) as u64,
        ) && after@ == before@.appended(topic, cursor, event, now)
    }

    open spec fn since_spec(
        before: Self,
        topic: Seq<char>,
        token: Seq<char>,
        limit: usize,
        now: Duration,
        after: Self,
        r: Result<Replay<E>, LogError>,
    ) -> bool {
        &&& after@ == before@.read(topic, token, now)
        &&& r matches Ok(replay) && replay.tells(before@.answer(topic, token, limit, now))
    }

    open spec fn mark_gap_spec(before: Self, after: Self, r: Result<(), LogError>) -> bool {
        &&& after@ == before@.marked()
        &&& r is Ok
    }

    fn append(&mut self, topic: &str, event: E, now: &Duration) -> (r: Result<Cursor, LogError>) {
        let ghost was = *self;
        let seq: u64 = self.last_seq + 1;
        let cursor = self.cursor(seq);
        let entry = Entry { seq, at: *now, payload: Stored { cursor: cursor.clone(), event } };
        assert forall|i: int| 0 <= i < ring::topic_in(self.topics@, topic@).history.len() implies (
        #[trigger] ring::topic_in(self.topics@, topic@).history[i]).seq < seq by {
            assert(was@.issued_entry(was@.topics[topic@].history[i]));
        }
        self.topics.push(topic, entry, self.capacity, &self.ttl, now);
        self.last_seq = seq;
        proof {
            assert(self@ == was@.appended(topic@, cursor, event, *now));
            appending_keeps_order(was@, topic@, cursor, event, *now);
        }
        Ok(cursor)
    }

    fn since(&mut self, topic: &str, cursor: &Cursor, limit: usize, now: &Duration) -> (r: Result<
        Replay<E>,
        LogError,
    >) {
        let ghost was = *self;
        let seq: u64 = match self.seq_of(cursor) {
            Some(seq) => seq,
            None => {
                proof {
                    issued_cursors_have_a_sequence(was@, cursor@);
                }
                return Ok(Replay::Unknown);
            },
        };
        proof {
            issued_cursors_have_a_sequence(was@, cursor@);
        }
        if seq == 0 || seq > self.last_seq {
            return Ok(Replay::Unknown);
        }
        let gap_floor: u64 = self.gap_floor;
        proof {
            reading_keeps_order(was@, topic@, cursor@, *now);
        }
        match self.topics.trimmed(topic, self.capacity, &self.ttl, now) {
            // Nothing was ever published on this topic: an exact, empty
            // replay — unless a gap swallowed the cursor's own successors.
            None => if seq <= gap_floor {
                Ok(Replay::Expired { earliest: None })
            } else {
                let none: Vec<Published<E>> = Vec::new();
                assert(copies(none@, Seq::<Entry<Stored<E>>>::empty()));
                Ok(Replay::Events(none))
            },
            Some(t) => {
                assert(t@ == was@.topic_at(topic@, *now));
                if seq <= gap_floor || seq < t.trimmed_to() {
                    // The oldest event a client could still replay from: the
                    // first one the ring holds past the gap.
                    let k: usize = t.position_after(gap_floor);
                    let earliest = if k < t.len() {
                        Some(t.entry(k).payload.cursor.clone())
                    } else {
                        None
                    };
                    return Ok(Replay::Expired { earliest });
                }
                let k: usize = t.position_after(seq);
                if t.len() - k > limit {
                    let earliest = Some(t.entry(k).payload.cursor.clone());
                    return Ok(Replay::Expired { earliest });
                }
                Ok(Replay::Events(copy_from(t, k)))
            },
        }
    }

    fn mark_gap(&mut self) -> (r: Result<(), LogError>) {
        let ghost was = *self;
        self.gap_floor = self.last_seq;
        proof {
            marking_keeps_order(was@);
            assert(self@ == was@.marked());
        }
        Ok(())
    }
}

// ---------------------------------------------------------------------------
// Laws
// ---------------------------------------------------------------------------

/// A cursor was issued exactly when the sequence behind it was.
pub proof fn issued_cursors_have_a_sequence<E>(log: LogView<E>, token: Seq<char>)
    requires
        is_generation(log.generation),
    ensures
        log.issued(token) <==> (seq_behind(log.generation, token) matches Some(seq) && 0 < seq
            <= log.last_seq),
{
    if log.issued(token) {
        let seq = choose|seq: u64|
            0 < seq <= log.last_seq && token == #[trigger] cursor_text(log.generation, seq);
        issued_cursors_are_recognised(log.generation, seq);
    }
}

proof fn lemma_topic_wf<E>(log: LogView<E>, name: Seq<char>)
    requires
        log.wf(),
    ensures
        log.topic(name).wf(),
        forall|i: int|
            0 <= i < log.topic(name).history.len() ==> log.issued_entry(
                #[trigger] log.topic(name).history[i],
            ),
{
    let t = log.topic(name);
    if log.topics.contains_key(name) {
        assert forall|i: int| 0 <= i < t.history.len() implies log.issued_entry(
            #[trigger] t.history[i],
        ) by {
            assert(t.history[i] == log.topics[name].history[i]);
        }
    } else {
        assert(t.ring =~= t.history.skip(0));
    }
}

/// An append keeps a log well formed; it adds the event to the end of its
/// topic's history and leaves every other topic as it was.
pub proof fn appending_keeps_order<E>(
    log: LogView<E>,
    name: Seq<char>,
    cursor: Cursor,
    event: E,
    now: Duration,
)
    requires
        log.wf(),
        log.last_seq < u64::MAX,
        cursor@ == cursor_text(log.generation, (log.last_seq + 1) as u64),
    ensures
        log.appended(name, cursor, event, now).wf(),
        log.appended(name, cursor, event, now).last_seq == log.last_seq + 1,
        log.appended(name, cursor, event, now).gap_floor == log.gap_floor,
        log.appended(name, cursor, event, now).topic(name).history == log.topic(name).history.push(
            log.next_entry(cursor, event, now),
        ),
        forall|other: Seq<char>|
            other != name ==> #[trigger] log.appended(name, cursor, event, now).topic(other)
                == log.topic(other),
{
    let entry = log.next_entry(cursor, event, now);
    let t = log.topic(name);
    lemma_topic_wf(log, name);
    let next = log.appended(name, cursor, event, now);
    assert forall|i: int| 0 <= i < t.history.len() implies (#[trigger] t.history[i]).seq
        < entry.seq by {
        assert(log.issued_entry(t.history[i]));
    }
    ring::appending_to_the_end(t, entry);
    ring::trimming_drops_the_oldest(t.appended(entry), log.capacity, log.ttl, now);
    assert forall|other: Seq<char>, i: int|
        next.topics.contains_key(other) && 0 <= i
            < next.topics[other].history.len() implies next.issued_entry(
        #[trigger] next.topics[other].history[i],
    ) by {
        if other == name {
            if i < t.history.len() {
                assert(log.issued_entry(t.history[i]));
            }
        } else {
            assert(log.issued_entry(log.topics[other].history[i]));
        }
    }
}

/// A read keeps a log well formed and every history as it was.
pub proof fn reading_keeps_order<E>(
    log: LogView<E>,
    name: Seq<char>,
    token: Seq<char>,
    now: Duration,
)
    requires
        log.wf(),
    ensures
        log.read(name, token, now).wf(),
        log.read(name, token, now).last_seq == log.last_seq,
        log.read(name, token, now).gap_floor == log.gap_floor,
        forall|other: Seq<char>|
            (#[trigger] log.read(name, token, now).topic(other)).history == log.topic(
                other,
            ).history,
{
    let next = log.read(name, token, now);
    lemma_topic_wf(log, name);
    ring::trimming_drops_the_oldest(log.topic(name), log.capacity, log.ttl, now);
    assert forall|other: Seq<char>, i: int|
        next.topics.contains_key(other) && 0 <= i
            < next.topics[other].history.len() implies next.issued_entry(
        #[trigger] next.topics[other].history[i],
    ) by {
        assert(log.issued_entry(log.topics[other].history[i]));
    }
}

/// A gap mark keeps a log well formed; it never lowers the floor.
pub proof fn marking_keeps_order<E>(log: LogView<E>)
    requires
        log.wf(),
    ensures
        log.marked().wf(),
        log.marked().last_seq == log.last_seq,
        log.marked().gap_floor >= log.gap_floor,
{
    let next = log.marked();
    assert forall|other: Seq<char>, i: int|
        next.topics.contains_key(other) && 0 <= i
            < next.topics[other].history.len() implies next.issued_entry(
        #[trigger] next.topics[other].history[i],
    ) by {
        assert(log.issued_entry(log.topics[other].history[i]));
    }
}

/// No silent gap: events that are answered are exactly those that were ever
/// published on the topic after the cursor, in order. They are answered
/// whenever every one of them can still be given, they are no more than the
/// limit, and no gap was marked since the cursor was issued. A cursor that
/// this log never issued, and no other, is `Unknown`.
pub proof fn a_replay_is_exact<E>(
    log: LogView<E>,
    name: Seq<char>,
    token: Seq<char>,
    limit: usize,
    now: Duration,
)
    requires
        log.wf(),
    ensures
        log.answer(name, token, limit, now) is Unknown <==> !log.issued(token),
        log.answer(name, token, limit, now) matches Answer::Events(events) ==> events
            == ring::after(log.topic(name).history, seq_behind(log.generation, token)->0),
        log.answer(name, token, limit, now) is Events <==> log.issued(token) && {
            let seq = seq_behind(log.generation, token)->0;
            let missed = ring::after(log.topic(name).history, seq);
            &&& seq > log.gap_floor
            &&& ring::after(log.topic_at(name, now).ring, seq) == missed
            &&& missed.len() <= limit
        },
{
    if log.issued(token) {
        issued_cursors_have_a_sequence(log, token);
        let seq = seq_behind(log.generation, token)->0;
        lemma_topic_wf(log, name);
        ring::trimming_drops_the_oldest(log.topic(name), log.capacity, log.ttl, now);
        let at = log.topic_at(name, now);
        if at.lost_after(seq) {
            ring::a_drop_above_loses_an_entry(at, seq);
        } else {
            ring::ring_holds_what_follows(at, seq);
        }
    }
}

/// A cursor of another log is unknown, whatever either log has issued: a
/// restart costs one resync, never a silent gap or a collision.
pub proof fn a_cursor_of_another_log_is_unknown<E>(
    log: LogView<E>,
    other: LogView<E>,
    name: Seq<char>,
    token: Seq<char>,
    limit: usize,
    now: Duration,
)
    requires
        log.wf(),
        other.wf(),
        log.generation != other.generation,
        other.issued(token),
    ensures
        log.answer(name, token, limit, now) is Unknown,
{
    if log.issued(token) {
        let n = choose|n: u64|
            0 < n <= log.last_seq && token == #[trigger] cursor_text(log.generation, n);
        let m = choose|m: u64|
            0 < m <= other.last_seq && token == #[trigger] cursor_text(other.generation, m);
        cursors_never_collide(log.generation, n, other.generation, m);
    }
}

/// The cursor of the last event is always served, on every topic, unless a
/// gap was marked at it: nothing came after it.
pub proof fn the_last_cursor_is_up_to_date<E>(
    log: LogView<E>,
    name: Seq<char>,
    limit: usize,
    now: Duration,
)
    requires
        log.wf(),
        log.gap_floor < log.last_seq,
    ensures
        log.answer(name, cursor_text(log.generation, log.last_seq), limit, now) == Answer::<
            E,
        >::Events(Seq::empty()),
{
    let token = cursor_text(log.generation, log.last_seq);
    issued_cursors_are_recognised(log.generation, log.last_seq);
    issued_cursors_have_a_sequence(log, token);
    lemma_topic_wf(log, name);
    let t = log.topic(name);
    ring::trimming_drops_the_oldest(t, log.capacity, log.ttl, now);
    let at = log.topic_at(name, now);
    if at.dropped() > 0 {
        assert(log.issued_entry(t.history[at.dropped() - 1]));
    }
    ring::ring_holds_what_follows(at, log.last_seq);
    assert forall|i: int| 0 <= i < t.history.len() implies (#[trigger] t.history[i]).seq
        <= log.last_seq by {
        assert(log.issued_entry(t.history[i]));
    }
    ring::nothing_follows_the_highest(t.history, log.last_seq);
}

/// A topic that never saw an event answers every cursor issued since the
/// last gap with an exact, empty replay.
pub proof fn a_quiet_topic_has_nothing_to_replay<E>(
    log: LogView<E>,
    name: Seq<char>,
    token: Seq<char>,
    limit: usize,
    now: Duration,
)
    requires
        log.wf(),
        !log.topics.contains_key(name),
        log.issued(token),
        seq_behind(log.generation, token)->0 > log.gap_floor,
    ensures
        log.answer(name, token, limit, now) == Answer::<E>::Events(Seq::empty()),
{
}

/// A marked gap expires every cursor issued up to it, the last included, on
/// every topic, whatever is appended or read after it.
pub proof fn a_gap_expires_every_cursor_issued_before_it<E>(
    log: LogView<E>,
    later: LogView<E>,
    name: Seq<char>,
    token: Seq<char>,
    limit: usize,
    now: Duration,
)
    requires
        log.wf(),
        log.issued(token),
        later.generation == log.generation,
        later.last_seq >= log.last_seq,
        later.gap_floor >= log.marked().gap_floor,
    ensures
        later.answer(name, token, limit, now) is Expired,
{
    issued_cursors_have_a_sequence(log, token);
    issued_cursors_have_a_sequence(later, token);
}

/// The cursor that an expired answer names was issued by this log, and a
/// client that holds it has lost nothing: with a limit
/// of at least what the ring holds, it is answered with events.
pub proof fn the_earliest_can_be_replayed_from<E>(
    log: LogView<E>,
    name: Seq<char>,
    token: Seq<char>,
    limit: usize,
    now: Duration,
    earliest: Seq<char>,
    enough: usize,
)
    requires
        log.wf(),
        log.answer(name, token, limit, now) == (Answer::<E>::Expired { earliest: Some(earliest) }),
        log.topic(name).ring.len() <= enough,
    ensures
        log.issued(earliest),
        log.answer(name, earliest, enough, now) is Events,
{
    issued_cursors_have_a_sequence(log, token);
    let seq = seq_behind(log.generation, token)->0;
    lemma_topic_wf(log, name);
    let t = log.topic(name);
    ring::trimming_drops_the_oldest(t, log.capacity, log.ttl, now);
    let at = log.topic_at(name, now);
    let from = if seq <= log.gap_floor || at.lost_after(seq) {
        log.gap_floor
    } else {
        seq
    };
    ring::what_follows_was_there(at.ring, from);
    let e = ring::after(at.ring, from)[0];
    let i = choose|i: int| 0 <= i < at.ring.len() && at.ring[i] == e;
    assert(at.ring[i] == at.history[i + at.dropped()]);
    assert(log.issued_entry(at.history[i + at.dropped()]));
    assert(at.history[i + at.dropped()].seq > 0);
    issued_cursors_are_recognised(log.generation, e.seq);
    issued_cursors_have_a_sequence(log, earliest);
    if at.dropped() > 0 {
        assert(at.history[at.dropped() - 1].seq < at.history[i + at.dropped()].seq);
    }
    ring::what_follows_was_there(at.ring, e.seq);
}

/// What is done to a log.
pub enum Deed<E> {
    Append { name: Seq<char>, cursor: Cursor, event: E, now: Duration },
    Read { name: Seq<char>, token: Seq<char>, now: Duration },
    Mark,
}

impl<E> Deed<E> {
    /// The log after it.
    pub open spec fn done(self, log: LogView<E>) -> LogView<E> {
        match self {
            Deed::Append { name, cursor, event, now } => log.appended(name, cursor, event, now),
            Deed::Read { name, token, now } => log.read(name, token, now),
            Deed::Mark => log.marked(),
        }
    }

    /// Whether a log does it: an append issues the next cursor.
    pub open spec fn fits(self, log: LogView<E>) -> bool {
        self matches Deed::Append { cursor, .. } ==> log.last_seq < u64::MAX && cursor@
            == cursor_text(log.generation, (log.last_seq + 1) as u64)
    }

    /// Whether an entry is no older than `ttl` when it is done.
    pub open spec fn finds_young(self, e: Entry<Stored<E>>, ttl: Duration) -> bool {
        match self {
            Deed::Append { now, .. } => now@ - e.at@ <= ttl@,
            Deed::Read { now, .. } => now@ - e.at@ <= ttl@,
            Deed::Mark => true,
        }
    }
}

/// A log after some deeds, one after the other.
pub open spec fn after_deeds<E>(log: LogView<E>, deeds: Seq<Deed<E>>) -> LogView<E>
    decreases deeds.len(),
{
    if deeds.len() == 0 {
        log
    } else {
        deeds.last().done(after_deeds(log, deeds.drop_last()))
    }
}

/// Whether a log does all deeds.
pub open spec fn all_fit<E>(log: LogView<E>, deeds: Seq<Deed<E>>) -> bool
    decreases deeds.len(),
{
    deeds.len() > 0 ==> all_fit(log, deeds.drop_last()) && deeds.last().fits(
        after_deeds(log, deeds.drop_last()),
    )
}

/// Deeds keep a log well formed, its generation and its bounds.
pub proof fn deeds_keep_order<E>(log: LogView<E>, deeds: Seq<Deed<E>>)
    requires
        log.wf(),
        all_fit(log, deeds),
    ensures
        after_deeds(log, deeds).wf(),
        after_deeds(log, deeds).generation == log.generation,
        after_deeds(log, deeds).capacity == log.capacity,
        after_deeds(log, deeds).ttl == log.ttl,
    decreases deeds.len(),
{
    if deeds.len() > 0 {
        let before = after_deeds(log, deeds.drop_last());
        deeds_keep_order(log, deeds.drop_last());
        match deeds.last() {
            Deed::Append { name, cursor, event, now } => {
                appending_keeps_order(before, name, cursor, event, now);
            },
            Deed::Read { name, token, now } => {
                reading_keeps_order(before, name, token, now);
            },
            Deed::Mark => {
                marking_keeps_order(before);
            },
        }
    }
}

/// Retention: whatever was done to a log since it was made, an event that is
/// among the last `capacity` of its topic, and was not older than `ttl` at any
/// read or write, is still held.
pub proof fn what_is_recent_and_young_is_held<E>(
    generation: Seq<char>,
    capacity: usize,
    ttl: Duration,
    deeds: Seq<Deed<E>>,
    name: Seq<char>,
    i: int,
)
    requires
        is_generation(generation),
        capacity > 0,
        all_fit(LogView::<E>::fresh(generation, capacity, ttl), deeds),
        ({
            let log = after_deeds(LogView::<E>::fresh(generation, capacity, ttl), deeds);
            let history = log.topic(name).history;
            &&& 0 <= i < history.len()
            &&& history.len() - i <= capacity
            &&& forall|d: int|
                0 <= d < deeds.len() ==> (#[trigger] deeds[d]).finds_young(history[i], ttl)
        }),
    ensures
        ({
            let t = after_deeds(LogView::<E>::fresh(generation, capacity, ttl), deeds).topic(name);
            let gone = t.history.len() - t.ring.len();
            gone <= i && t.ring[i - gone] == t.history[i]
        }),
    decreases deeds.len(),
{
    let start = LogView::<E>::fresh(generation, capacity, ttl);
    deeds_keep_order(start, deeds);
    if deeds.len() > 0 {
        let most = deeds.drop_last();
        let before = after_deeds(start, most);
        let log = after_deeds(start, deeds);
        let t = log.topic(name);
        let was = before.topic(name);
        deeds_keep_order(start, most);
        lemma_topic_wf(before, name);
        lemma_topic_wf(log, name);
        let last = deeds[deeds.len() - 1];
        assert(last == deeds.last());
        assert(last.finds_young(t.history[i], ttl));
        assert forall|d: int| 0 <= d < most.len() implies (#[trigger] most[d]).finds_young(
            t.history[i],
            ttl,
        ) by {
            assert(deeds[d].finds_young(t.history[i], ttl));
        }
        match last {
            Deed::Append { name: other, cursor, event, now } => {
                appending_keeps_order(before, other, cursor, event, now);
                if i < was.history.len() {
                    assert(t.history[i] == was.history[i]);
                    what_is_recent_and_young_is_held(generation, capacity, ttl, most, name, i);
                }
                if other == name {
                    let grown = was.appended(before.next_entry(cursor, event, now));
                    let j = i - was.dropped();
                    assert(grown.ring[j] == t.history[i]);
                    ring::what_is_recent_and_young_is_kept(grown, capacity, ttl, now);
                    assert(grown.ring.len() - j <= capacity);
                } else {
                    assert(t == was);
                }
            },
            Deed::Read { name: other, token, now } => {
                reading_keeps_order(before, other, token, now);
                assert(t.history == was.history);
                what_is_recent_and_young_is_held(generation, capacity, ttl, most, name, i);
                let j = i - was.dropped();
                assert(was.ring[j] == t.history[i]);
                ring::what_is_recent_and_young_is_kept(was, capacity, ttl, now);
                assert(was.ring.len() - j <= capacity);
            },
            Deed::Mark => {
                assert(t == was);
                what_is_recent_and_young_is_held(generation, capacity, ttl, most, name, i);
            },
        }
    }
}

/// A replay is owed: a cursor that the log issued after its last gap is
/// answered with every event of the topic after it, as long as the log holds
/// them all, they are among the last `capacity` of the topic, none is older
/// than `ttl`, and they are no more than the limit.
#[verifier::rlimit(40)]
pub proof fn what_is_held_is_replayed<E>(
    log: LogView<E>,
    name: Seq<char>,
    seq: u64,
    limit: usize,
    now: Duration,
    k: int,
)
    requires
        log.wf(),
        log.gap_floor < seq <= log.last_seq,
        ({
            let t = log.topic(name);
            &&& t.history.len() - t.ring.len() <= k <= t.history.len()
            &&& t.history.len() - k <= log.capacity
            &&& t.history.len() - k <= limit
            &&& forall|i: int| 0 <= i < k ==> (#[trigger] t.history[i]).seq <= seq
            &&& forall|i: int|
                k <= i < t.history.len() ==> (#[trigger] t.history[i]).seq > seq && now@
                    - t.history[i].at@ <= log.ttl@
        }),
    ensures
        log.answer(name, log.generation + seq!['-'] + text::decimal(seq as nat), limit, now)
            == Answer::<E>::Events(log.topic(name).history.skip(k)),
{
    let token = cursor_text(log.generation, seq);
    let t = log.topic(name);
    let at = log.topic_at(name, now);
    issued_cursors_are_recognised(log.generation, seq);
    issued_cursors_have_a_sequence(log, token);
    lemma_topic_wf(log, name);
    ring::trimming_drops_the_oldest(t, log.capacity, log.ttl, now);
    ring::what_is_recent_and_young_is_kept(t, log.capacity, log.ttl, now);
    let d = t.dropped();
    if k < t.history.len() {
        assert(t.ring[k - d] == t.history[k]);
    }
    assert(at.dropped() <= k);
    if at.dropped() > 0 {
        assert(t.history[at.dropped() - 1].seq <= seq);
    }
    ring::ring_holds_what_follows(at, seq);
    let low = t.history.take(k);
    let high = t.history.skip(k);
    assert(t.history =~= low + high);
    ring::after_in_two_parts(low, high, seq);
    assert forall|i: int| 0 <= i < low.len() implies (#[trigger] low[i]).seq <= seq by {
        assert(low[i] == t.history[i]);
    }
    assert forall|i: int| 0 <= i < high.len() implies (#[trigger] high[i]).seq > seq by {
        assert(high[i] == t.history[k + i]);
    }
    ring::nothing_follows_the_highest(low, seq);
    ring::everything_follows_a_lower(high, seq);
    assert(ring::after(t.history, seq) =~= high);
}

/// The retention that a log promises, as its clients see it: whatever was
/// done to it since it was made, a cursor issued after the last gap is
/// answered with every event of the topic after it, when they are among the
/// last `capacity` of the topic, none was older than `ttl` at any read or
/// write, this one included, and they are no more than the limit.
pub proof fn a_client_within_the_retention_is_served<E>(
    generation: Seq<char>,
    capacity: usize,
    ttl: Duration,
    deeds: Seq<Deed<E>>,
    name: Seq<char>,
    seq: u64,
    limit: usize,
    now: Duration,
    k: int,
)
    requires
        is_generation(generation),
        capacity > 0,
        all_fit(LogView::<E>::fresh(generation, capacity, ttl), deeds),
        ({
            let log = after_deeds(LogView::<E>::fresh(generation, capacity, ttl), deeds);
            let history = log.topic(name).history;
            &&& log.gap_floor < seq <= log.last_seq
            &&& 0 <= k <= history.len()
            &&& history.len() - k <= capacity
            &&& history.len() - k <= limit
            &&& forall|i: int| 0 <= i < k ==> (#[trigger] history[i]).seq <= seq
            &&& forall|i: int|
                k <= i < history.len() ==> (#[trigger] history[i]).seq > seq && now@
                    - history[i].at@ <= ttl@
            &&& forall|i: int, d: int|
                k <= i < history.len() && 0 <= d < deeds.len() ==> (
                #[trigger] deeds[d]).finds_young(#[trigger] history[i], ttl)
        }),
    ensures
        ({
            let log = after_deeds(LogView::<E>::fresh(generation, capacity, ttl), deeds);
            log.answer(name, generation + seq!['-'] + text::decimal(seq as nat), limit, now)
                == Answer::<E>::Events(log.topic(name).history.skip(k))
        }),
{
    let start = LogView::<E>::fresh(generation, capacity, ttl);
    let log = after_deeds(start, deeds);
    let t = log.topic(name);
    deeds_keep_order(start, deeds);
    lemma_topic_wf(log, name);
    if k < t.history.len() {
        what_is_recent_and_young_is_held(generation, capacity, ttl, deeds, name, k);
    }
    what_is_held_is_replayed(log, name, seq, limit, now, k);
}

/// The other side of it: a cursor after which the topic took an event that is
/// no longer held is answered `Expired`, and so is one that more events
/// follow than the limit, and one issued before a gap.
pub proof fn what_cannot_be_replayed_is_expired<E>(
    log: LogView<E>,
    name: Seq<char>,
    seq: u64,
    limit: usize,
    now: Duration,
    i: int,
)
    requires
        log.wf(),
        0 < seq <= log.last_seq,
        ({
            let t = log.topic(name);
            ||| seq <= log.gap_floor
            ||| 0 <= i < t.history.len() - t.ring.len() && t.history[i].seq > seq
            ||| 0 <= i < t.history.len() && t.history[i].seq > seq && t.history.len() - i > limit
        }),
    ensures
        log.answer(name, log.generation + seq!['-'] + text::decimal(seq as nat), limit, now)
            is Expired,
{
    let token = cursor_text(log.generation, seq);
    let t = log.topic(name);
    let at = log.topic_at(name, now);
    issued_cursors_are_recognised(log.generation, seq);
    issued_cursors_have_a_sequence(log, token);
    lemma_topic_wf(log, name);
    ring::trimming_drops_the_oldest(t, log.capacity, log.ttl, now);
    if seq > log.gap_floor && !at.lost_after(seq) {
        ring::ring_holds_what_follows(at, seq);
        if i < at.dropped() - 1 {
            assert(t.history[i].seq < t.history[at.dropped() - 1].seq);
        }
        assert(i >= at.dropped());
        let low = t.history.take(i);
        let high = t.history.skip(i);
        assert(t.history =~= low + high);
        ring::after_in_two_parts(low, high, seq);
        assert forall|j: int| 0 <= j < high.len() implies (#[trigger] high[j]).seq > seq by {
            assert(high[j] == t.history[i + j]);
            if j > 0 {
                assert(t.history[i].seq < t.history[i + j].seq);
            }
        }
        ring::everything_follows_a_lower(high, seq);
    }
}

/// What an expired answer names is the oldest event that a client could still
/// go on from: past a gap or a trim, the first one held after the last gap;
/// past the limit, the first one after the cursor. `i` is its place among
/// what is held at `now`, or the number of what is held when there is none.
pub proof fn the_earliest_is_the_oldest_of_use<E>(
    log: LogView<E>,
    name: Seq<char>,
    seq: u64,
    limit: usize,
    now: Duration,
    i: int,
)
    requires
        log.wf(),
        0 < seq <= log.last_seq,
        log.answer(name, log.generation + seq!['-'] + text::decimal(seq as nat), limit, now)
            is Expired,
        ({
            let held = log.topic_at(name, now).ring;
            let t = log.topic_at(name, now);
            let lost = seq <= log.gap_floor || exists|j: int|
                0 <= j < t.history.len() - held.len() && (#[trigger] t.history[j]).seq > seq;
            let from = if lost {
                log.gap_floor
            } else {
                seq
            };
            &&& 0 <= i <= held.len()
            &&& forall|j: int| 0 <= j < i ==> (#[trigger] held[j]).seq <= from
            &&& i < held.len() ==> held[i].seq > from
        }),
    ensures
        ({
            let held = log.topic_at(name, now).ring;
            log.answer(name, log.generation + seq!['-'] + text::decimal(seq as nat), limit, now)
                == (Answer::<E>::Expired {
                earliest: if i < held.len() {
                    Some(held[i].payload.cursor@)
                } else {
                    None
                },
            })
        }),
{
    let token = cursor_text(log.generation, seq);
    issued_cursors_are_recognised(log.generation, seq);
    issued_cursors_have_a_sequence(log, token);
    lemma_topic_wf(log, name);
    let t = log.topic(name);
    ring::trimming_drops_the_oldest(t, log.capacity, log.ttl, now);
    let at = log.topic_at(name, now);
    let d = at.dropped();
    if at.lost_after(seq) {
        assert(at.history[d - 1].seq > seq);
    } else {
        assert forall|j: int| 0 <= j < d implies (#[trigger] at.history[j]).seq <= seq by {
            if j < d - 1 {
                assert(at.history[j].seq < at.history[d - 1].seq);
            }
        }
    }
    let from = if seq <= log.gap_floor || at.lost_after(seq) {
        log.gap_floor
    } else {
        seq
    };
    let low = at.ring.take(i);
    let high = at.ring.skip(i);
    assert(at.ring =~= low + high);
    ring::after_in_two_parts(low, high, from);
    assert forall|j: int| 0 <= j < low.len() implies (#[trigger] low[j]).seq <= from by {
        assert(low[j] == at.ring[j]);
    }
    assert forall|j: int| 0 <= j < high.len() implies (#[trigger] high[j]).seq > from by {
        assert(high[j] == at.ring[i + j]);
        assert(at.ring[i + j] == at.history[d + i + j]);
        if j > 0 {
            assert(at.history[d + i].seq < at.history[d + i + j].seq);
        }
    }
    ring::nothing_follows_the_highest(low, from);
    ring::everything_follows_a_lower(high, from);
    assert(ring::after(at.ring, from) =~= high);
}

/// A new log has issued nothing and marked no gap, and keeps at least one
/// event of each topic.
pub proof fn a_new_log_is_empty<E>(generation: Seq<char>, capacity: usize, ttl: Duration, token: Seq<char>)
    ensures
        ({
            let log = LogView::<E>::fresh(generation, capacity, ttl);
            &&& !log.issued(token)
            &&& log.last_seq == 0 && log.gap_floor == 0
            &&& log.generation == generation
            &&& log.ttl == ttl
            &&& log.capacity >= 1
            &&& capacity >= 1 ==> log.capacity == capacity
            &&& capacity == 0 ==> log.capacity == 1
            &&& forall|name: Seq<char>| (#[trigger] log.topic(name)).history.len() == 0
        }),
{
}

/// A read touches no topic but its own, and none at all for a cursor that the
/// log did not issue.
pub proof fn a_read_leaves_other_topics_alone<E>(
    log: LogView<E>,
    name: Seq<char>,
    token: Seq<char>,
    now: Duration,
    other: Seq<char>,
)
    requires
        other != name || !log.issued(token),
    ensures
        log.read(name, token, now).topic(other) == log.topic(other),
{
}

/// What was issued: the cursors of the numbers from 1 to the last, and no other
/// text.
pub proof fn what_was_issued<E>(log: LogView<E>, seq: u64, token: Seq<char>)
    requires
        is_generation(log.generation),
    ensures
        log.issued(log.generation + seq!['-'] + text::decimal(seq as nat)) <==> 0 < seq
            <= log.last_seq,
        log.issued(token) ==> exists|n: u64|
            0 < n <= log.last_seq && token == log.generation + seq!['-'] + #[trigger] text::decimal(
                n as nat,
            ),
{
    let issued = cursor_text(log.generation, seq);
    issued_cursors_are_recognised(log.generation, seq);
    issued_cursors_have_a_sequence(log, issued);
    if 0 < seq <= log.last_seq {
        assert(issued == cursor_text(log.generation, seq));
    }
    if log.issued(token) {
        let n = choose|n: u64|
            0 < n <= log.last_seq && token == #[trigger] cursor_text(log.generation, n);
        assert(token == log.generation + seq!['-'] + text::decimal(n as nat));
    }
}

/// An append issues the next number's cursor, keeps the time of the event with
/// it, and marks nothing.
pub proof fn what_an_append_makes<E>(
    log: LogView<E>,
    name: Seq<char>,
    cursor: Cursor,
    event: E,
    now: Duration,
)
    requires
        log.wf(),
        log.last_seq < u64::MAX,
        cursor@ == log.generation + seq!['-'] + text::decimal((log.last_seq + 1) as nat),
    ensures
        ({
            let next = log.appended(name, cursor, event, now);
            let history = next.topic(name).history;
            &&& history.len() == log.topic(name).history.len() + 1
            &&& history.drop_last() == log.topic(name).history
            &&& history.last().seq == log.last_seq + 1
            &&& history.last().at == now
            &&& history.last().payload.cursor == cursor
            &&& history.last().payload.event == event
            &&& next.last_seq == log.last_seq + 1
            &&& next.issued(cursor@)
            &&& next.gap_floor == log.gap_floor && next.generation == log.generation
            &&& next.capacity == log.capacity && next.ttl == log.ttl
            &&& log.capacity > 0 ==> next.topic(name).ring.len() > 0
                && next.topic(name).ring.last() == history.last()
        }),
{
    let next = log.appended(name, cursor, event, now);
    assert(cursor@ == cursor_text(log.generation, (log.last_seq + 1) as u64));
    appending_keeps_order(log, name, cursor, event, now);
    what_was_issued(next, (log.last_seq + 1) as u64, cursor@);
    let history = next.topic(name).history;
    assert(history.drop_last() =~= log.topic(name).history);
    lemma_topic_wf(log, name);
    lemma_topic_wf(next, name);
    let grown = log.topic(name).appended(log.next_entry(cursor, event, now));
    ring::what_is_recent_and_young_is_kept(grown, log.capacity, log.ttl, now);
    assert(grown.ring[grown.ring.len() - 1] == history.last());
}

/// What an append does to a log in memory: it never fails, hands out the next
/// cursor, and puts the event at the end of its topic. There is room for as
/// many as 64 bits count.
pub proof fn what_an_append_hands_out<E: Clone>(
    before: MemoryLog<E>,
    topic: Seq<char>,
    event: E,
    now: Duration,
    after: MemoryLog<E>,
    r: Result<Cursor, LogError>,
)
    requires
        before.wf(),
        before@.last_seq < u64::MAX,
        <MemoryLog<E> as EventLog>::append_spec(before, topic, event, now, after, r),
    ensures
        before.has_room(),
        r is Ok,
        r->Ok_0@ == before@.generation + seq!['-'] + text::decimal((before@.last_seq + 1) as nat),
        after@.last_seq == before@.last_seq + 1,
        after@.topic(topic).history.drop_last() == before@.topic(topic).history,
        after@.topic(topic).history.last().payload.event == event,
        after@.topic(topic).history.last().payload.cursor@ == r->Ok_0@,
        forall|other: Seq<char>|
            other != topic ==> #[trigger] after@.topic(other) == before@.topic(other),
{
    before.wf_view();
    appending_keeps_order(before@, topic, r->Ok_0, event, now);
    what_an_append_makes(before@, topic, r->Ok_0, event, now);
}

/// What a read of a log in memory gives: it never fails; a text that is no
/// cursor of the log's is unknown, a refusal names what the log says, and what
/// is replayed are the events with their cursors, one for one.
pub proof fn what_a_read_gives<E: Clone>(
    before: MemoryLog<E>,
    topic: Seq<char>,
    token: Seq<char>,
    limit: usize,
    now: Duration,
    after: MemoryLog<E>,
    r: Result<Replay<E>, LogError>,
)
    requires
        before.wf(),
        <MemoryLog<E> as EventLog>::since_spec(before, topic, token, limit, now, after, r),
    ensures
        r is Ok,
        r->Ok_0 is Unknown <==> forall|n: u64|
            token == before@.generation + seq!['-'] + #[trigger] text::decimal(n as nat) ==> n == 0
                || n > before@.last_seq,
        before@.answer(topic, token, limit, now) matches Answer::Expired { earliest }
            ==> r->Ok_0 is Expired && token_of(r->Ok_0->earliest) == earliest,
        before@.answer(topic, token, limit, now) matches Answer::Events(entries) ==> {
            &&& r->Ok_0 is Events
            &&& r->Ok_0->Events_0@.len() == entries.len()
            &&& forall|i: int|
                0 <= i < entries.len() ==> token_of((#[trigger] r->Ok_0->Events_0@[i]).cursor)
                    == Some(entries[i].payload.cursor@) && cloned(
                    entries[i].payload.event,
                    r->Ok_0->Events_0@[i].event,
                )
        },
        after@.last_seq == before@.last_seq,
        after@.gap_floor == before@.gap_floor,
        forall|name: Seq<char>|
            (#[trigger] after@.topic(name)).history == before@.topic(name).history,
{
    before.wf_view();
    a_replay_is_exact(before@, topic, token, limit, now);
    reading_keeps_order(before@, topic, token, now);
    what_was_issued(before@, 0, token);
    if before@.issued(token) {
        let n = choose|n: u64|
            0 < n <= before@.last_seq && token == before@.generation + seq!['-']
                + #[trigger] text::decimal(n as nat);
        assert(token == before@.generation + seq!['-'] + text::decimal(n as nat));
    } else {
        assert forall|n: u64|
            token == before@.generation + seq!['-'] + #[trigger] text::decimal(
                n as nat,
            ) implies n == 0 || n > before@.last_seq by {
            what_was_issued(before@, n, token);
        }
    }
}

/// What a gap mark does to a log in memory: it never fails, puts the floor at
/// the last cursor, and leaves every topic as it was.
pub proof fn what_a_mark_does<E: Clone>(
    before: MemoryLog<E>,
    after: MemoryLog<E>,
    r: Result<(), LogError>,
)
    requires
        <MemoryLog<E> as EventLog>::mark_gap_spec(before, after, r),
    ensures
        r is Ok,
        after@.gap_floor == before@.last_seq,
        after@.last_seq == before@.last_seq,
        after@.generation == before@.generation,
        forall|name: Seq<char>| #[trigger] after@.topic(name) == before@.topic(name),
{
}

} // verus!
