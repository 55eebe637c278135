//! A server that ends streams every way an intermediary can, so a client —
//! in any language — can prove the profile against it.
//!
//! [`Chaos`] serves one topic. A producer publishes numbered events; each
//! connection ends the way its [`Cut`] says: cleanly after `n` events (a
//! `take`), by a reset with no terminating chunk (a proxy timeout, a
//! dropped network), by rotation (`max_age`), or never. A "restart" swaps
//! the log for a fresh one — a new generation, so every cursor the old
//! log issued is unknown: one `resync`, and none of the new cursors can be
//! mistaken for an old one.

use crate::error::StreamError;
use crate::protocol::{token_of, Event, EventView};
use crate::server::log::{EventLog, LogError, LogView, MemoryLog, Published, Replay};
use crate::server::response::{millis_of, BuilderView, MaxAge, SseResponseBuilder};
use crate::server::resume::Resume;
use crate::server::stream::{resumable, resync_view, Joined, Resumed};
use crate::text;
use crate::time::{Duration, NANOS_PER_MILLI, NANOS_PER_SEC};
use std::ops::Range;
use vstd::prelude::*;
use vstd::utf8;

verus! {

/// How each connection ends.
#[derive(Debug, Clone, Copy, PartialEq, Eq, Structural)]
pub enum Cut {
    /// Never on purpose: the stream lives until the client leaves.
    Never,
    /// A clean end after this many events (a `take`).
    After(usize),
    /// A reset after this many events — no terminating chunk, the way a
    /// proxy timeout or a dropped network looks from the client.
    Abort(usize),
    /// Rotation: every response ends after exactly this lifetime.
    Rotate(Duration),
}

/// What comes before and after the first colon of a text.
pub open spec fn halves(s: Seq<char>) -> (Seq<char>, Option<Seq<char>>) {
    let at = text::span_until(s, ':') as int;
    if at < s.len() {
        (s.take(at), Some(s.skip(at + 1)))
    } else {
        (s, None)
    }
}

/// Whether a text describes a way of ending connections:
/// `never|after:N|abort:N|rotate:MS`.
pub open spec fn describes(spec: Seq<char>, cut: Option<Cut>) -> bool {
    match halves(spec) {
        (word, None) => if word == "never"@ {
            cut == Some(Cut::Never)
        } else {
            cut is None
        },
        (word, Some(value)) => if word == "after"@ {
            match text::text_to_usize(value) {
                Some(n) => cut == Some(Cut::After(n)),
                None => cut is None,
            }
        } else if word == "abort"@ {
            match text::text_to_usize(value) {
                Some(n) => cut == Some(Cut::Abort(n)),
                None => cut is None,
            }
        } else if word == "rotate"@ {
            match text::text_to_u64(value) {
                Some(ms) => cut matches Some(Cut::Rotate(age)) && age@ == ms * NANOS_PER_MILLI,
                None => cut is None,
            }
        } else {
            cut is None
        },
    }
}

/// Read a way of ending connections: `never|after:N|abort:N|rotate:MS`.
pub fn parse_cut(spec: &str) -> (cut: Option<Cut>)
    ensures
        describes(spec@, cut),
{
    let chars = text::chars_of(spec);
    let n: usize = chars.len();
    let at: usize = text::find_char(&chars, 0, n, ':');
    assert(chars@.subrange(0, n as int) =~= spec@);
    if at >= n {
        return if text::text_eq(spec, "never") {
            Some(Cut::Never)
        } else {
            None
        };
    }
    let word = spec.substring_char(0, at);
    let value = spec.substring_char(at + 1, n);
    assert(word@ =~= spec@.take(at as int));
    assert(value@ =~= spec@.skip(at + 1));
    proof {
        reveal_strlit("after");
        reveal_strlit("abort");
        reveal_strlit("rotate");
        assert("after"@[1] != "abort"@[1]);
        assert("after"@.len() != "rotate"@.len());
        assert("abort"@.len() != "rotate"@.len());
    }
    if text::text_eq(word, "after") {
        match text::parse_usize(value) {
            Some(n) => Some(Cut::After(n)),
            None => None,
        }
    } else if text::text_eq(word, "abort") {
        match text::parse_usize(value) {
            Some(n) => Some(Cut::Abort(n)),
            None => None,
        }
    } else if text::text_eq(word, "rotate") {
        match text::parse_u64(value) {
            Some(ms) => Some(Cut::Rotate(Duration::from_millis(ms))),
            None => None,
        }
    } else {
        None
    }
}

/// `event: tick`, the cursor as `id:`, the number as `data:`; an error is
/// told in words.
pub open spec fn frame_of(item: Result<Published<u64>, StreamError>) -> EventView {
    match item {
        Ok(p) => EventView {
            id: token_of(p.cursor),
            name: Some("tick"@),
            data: Some(text::decimal(p.event as nat)),
            ..EventView::empty()
        },
        Err(e) => EventView { name: Some("error"@), data: Some(e.text()), ..EventView::empty() },
    }
}

/// `event: tick`, the cursor as `id:`, the number as `data:`; an error is
/// told in words.
pub fn frame(item: Result<Published<u64>, StreamError>) -> (e: Event)
    ensures
        e@ == frame_of(item),
{
    match item {
        Ok(p) => Event::named("tick").cursor(p.cursor).data(
            text::decimal_text(p.event as u128).as_str(),
        ),
        Err(e) => Event::named("error").data(e.to_text().as_str()),
    }
}

impl Cut {
    /// Whether the stream ends cleanly before its item `index`.
    pub fn ends_at(&self, index: usize) -> (r: bool)
        ensures
            r == (*self matches Cut::After(n) && index >= n),
    {
        match self {
            Cut::After(n) => index >= *n,
            _ => false,
        }
    }

    /// What is sent for item `index`; `None` resets the connection.
    pub fn pass(&self, index: usize, item: Result<Published<u64>, StreamError>) -> (r: Option<
        Event,
    >)
        ensures
            if *self matches Cut::Abort(n) && index >= n {
                r is None
            } else {
                r matches Some(e) && e@ == frame_of(item)
            },
    {
        match self {
            Cut::Abort(n) => if index < *n {
                Some(frame(item))
            } else {
                None
            },
            _ => Some(frame(item)),
        }
    }
}

/// `str::from_utf8`: the text of bytes that are valid UTF-8; `None` for its
/// error, which any other bytes give.
#[verifier::external_body]
fn utf8_text(bytes: &[u8]) -> (r: Option<&str>)
    ensures
        match r {
            Some(s) => utf8::valid_utf8(bytes@) && s@ == utf8::decode_utf8(bytes@),
            None => !utf8::valid_utf8(bytes@),
        },
{
    std::str::from_utf8(bytes).ok()
}

/// The event that a published body holds: decimal text, white space around
/// it aside.
pub open spec fn body_number(body: Seq<u8>) -> Option<u64> {
    if utf8::valid_utf8(body) {
        text::text_to_u64(text::trim(utf8::decode_utf8(body)))
    } else {
        None
    }
}

/// The event that a published body holds; `None` when it is not decimal
/// text.
pub fn event_of_body(body: &[u8]) -> (r: Option<u64>)
    ensures
        r == body_number(body@),
{
    match utf8_text(body) {
        Some(s) => text::parse_u64(text::trimmed(s)),
        None => None,
    }
}

/// What the server saw, for a test to assert on.
#[derive(Debug, Clone, Copy, PartialEq, Eq, Structural)]
pub struct Stats {
    /// Stream connections opened.
    pub connections: usize,
    /// Of those, the ones that carried a cursor.
    pub resumed_requests: usize,
}

impl Default for Stats {
    fn default() -> (s: Self)
        ensures
            s == (Stats { connections: 0, resumed_requests: 0 }),
    {
        Stats { connections: 0, resumed_requests: 0 }
    }
}

/// The topic that the server serves.
pub const TOPIC: &'static str = "t";

/// The most events that a reconnect replays.
pub const REPLAY_LIMIT: usize = 500;

/// The server: one topic, one way of ending connections.
pub struct Chaos {
    /// Swapped for an empty one by [`Chaos::restart`].
    pub log: MemoryLog<u64>,
    /// How each connection ends.
    pub cut: Cut,
    /// The `retry:` hint every response opens with.
    pub retry: Duration,
    /// The keep-alive interval.
    pub keep_alive: Duration,
    /// The connection just before which the server restarts; 0 for none.
    pub restart_on: usize,
    /// Counters for assertions.
    pub stats: Stats,
}

/// A log without events that keeps 10 000 for 60s.
pub open spec fn is_fresh(log: LogView<u64>) -> bool {
    &&& log == LogView::<u64>::fresh(log.generation, 10_000, log.ttl)
    &&& log.ttl@ == 60 * NANOS_PER_SEC
}

impl Chaos {
    /// The log is well formed, and no more requests carried a cursor than
    /// there were.
    pub open spec fn wf(self) -> bool {
        &&& self.log.wf()
        &&& self.stats.resumed_requests <= self.stats.connections
    }

    /// A server that ends connections as `cut` says. Defaults: a `retry:`
    /// hint of 50ms and a `ping` every 200ms, so a test crosses many
    /// reconnects in a second; the log keeps 10 000 events for 60s.
    pub fn new(cut: Cut) -> (c: Self)
        ensures
            c.wf(),
            is_fresh(c.log@),
            c.cut == cut,
            c.retry@ == 50 * NANOS_PER_MILLI,
            c.keep_alive@ == 200 * NANOS_PER_MILLI,
            c.restart_on == 0,
            c.stats == (Stats { connections: 0, resumed_requests: 0 }),
    {
        Chaos {
            log: Self::fresh_log(),
            cut,
            retry: Duration::from_millis(50),
            keep_alive: Duration::from_millis(200),
            restart_on: 0,
            stats: Stats::default(),
        }
    }

    fn fresh_log() -> (log: MemoryLog<u64>)
        ensures
            log.wf(),
            is_fresh(log@),
    {
        MemoryLog::new(10_000, Duration::from_secs(60))
    }

    /// Restart the server (swap the log) just before serving the `n`th
    /// connection; 0 never.
    pub fn restart_on_connection(self, n: usize) -> (c: Self)
        ensures
            c == (Chaos { restart_on: n, ..self }),
    {
        Chaos { restart_on: n, ..self }
    }

    /// The `retry:` hint every response opens with.
    pub fn with_retry(self, retry: Duration) -> (c: Self)
        ensures
            c == (Chaos { retry, ..self }),
    {
        Chaos { retry, ..self }
    }

    /// The keep-alive interval.
    pub fn with_keep_alive(self, every: Duration) -> (c: Self)
        ensures
            c == (Chaos { keep_alive: every, ..self }),
    {
        Chaos { keep_alive: every, ..self }
    }

    /// Publish one event: append it to the log, and hand out what goes on
    /// the bus. The log is written first, so a subscriber never sees an
    /// event the log does not have.
    pub fn publish(&mut self, event: u64, now: &Duration) -> (p: Published<u64>)
        requires
            old(self).wf(),
            old(self).log@.last_seq < u64::MAX,
        ensures
            final(self).wf(),
            *final(self) == (Chaos { log: final(self).log, ..*old(self) }),
            p.event == event,
            p.cursor matches Some(cursor) && <MemoryLog<u64> as EventLog>::append_spec(
                old(self).log,
                TOPIC@,
                event,
                *now,
                final(self).log,
                Ok(cursor),
            ),
    {
        let cursor = match self.log.append(TOPIC, event, now) {
            Ok(cursor) => Some(cursor),
            Err(_) => None,
        };
        Published { cursor, event }
    }

    /// A process restart in miniature: every cursor the old log issued is
    /// unknown to the new, empty one, whose own cursors are a new
    /// generation.
    pub fn restart(&mut self)
        requires
            old(self).wf(),
        ensures
            final(self).wf(),
            is_fresh(final(self).log@),
            *final(self) == (Chaos { log: final(self).log, ..*old(self) }),
    {
        self.log = Self::fresh_log();
    }

    /// Count a connection; restart if this is the one for it. True when the
    /// server restarted.
    pub fn count_connection(&mut self, resume: &Resume) -> (restarted: bool)
        requires
            old(self).wf(),
            old(self).stats.connections < usize::MAX,
        ensures
            final(self).wf(),
            restarted == (old(self).stats.connections + 1 == old(self).restart_on),
            if restarted {
                is_fresh(final(self).log@)
            } else {
                final(self).log == old(self).log
            },
            *final(self) == (Chaos {
                log: final(self).log,
                stats: Stats {
                    connections: (old(self).stats.connections + 1) as usize,
                    resumed_requests: if resume is Since {
                        (old(self).stats.resumed_requests + 1) as usize
                    } else {
                        old(self).stats.resumed_requests
                    },
                },
                ..*old(self)
            }),
    {
        self.stats.connections = self.stats.connections + 1;
        let restarted: bool = self.stats.connections == self.restart_on;
        if resume.cursor().is_some() {
            self.stats.resumed_requests = self.stats.resumed_requests + 1;
        }
        if restarted {
            self.restart();
        }
        restarted
    }

    /// What a response is built with: the hint, the keep-alive, the `resync`
    /// of a failed resume, and the lifetime of a rotation.
    pub open spec fn built_with(
        self,
        resync: Option<crate::protocol::ResyncView>,
    ) -> BuilderView {
        BuilderView {
            retry: Some(
                Range {
                    start: millis_of(self.retry@),
                    end: (millis_of(self.retry@) + 1) as u64,
                },
            ),
            keep_alive: Some(self.keep_alive@),
            max_age: match self.cut {
                Cut::Rotate(age) => Some(
                    MaxAge {
                        millis: Range {
                            start: millis_of(age@),
                            end: (millis_of(age@) + 1) as u64,
                        },
                        announced_secs: millis_of(age@) / 1000,
                    },
                ),
                _ => None,
            },
            head: match resync {
                Some(resync) => seq![EventView::resync(resync)],
                None => seq![],
            },
        }
    }

    /// Open a stream for a connection: what its response is built with, and
    /// the events that go through [`Cut::pass`].
    pub fn open<S, F: FnOnce() -> S>(&mut self, resume: Resume, subscribe: F, now: &Duration) -> (r:
        (SseResponseBuilder, Joined<u64, S>))
        requires
            old(self).wf(),
            subscribe.requires(()),
            millis_of(old(self).retry@) < u64::MAX,
            old(self).cut matches Cut::Rotate(age) ==> millis_of(age@) < u64::MAX,
        ensures
            final(self).wf(),
            *final(self) == (Chaos { log: final(self).log, ..*old(self) }),
            subscribe.ensures((), r.1.live),
            r.0@.fits(),
            exists|resumed: Resumed<Joined<u64, S>>|
                #[trigger] opens(old(self).log, resume, *now, final(self).log, resumed)
                    && resumed.stream == r.1 && r.0@ == old(self).built_with(
                    resync_view(resumed.resync),
                ),
    {
        let resumed = resumable(&mut self.log, TOPIC, resume, subscribe, REPLAY_LIMIT, now);
        assert(opens(old(self).log, resume, *now, self.log, resumed));
        let builder = SseResponseBuilder::new().retry(self.retry).keep_alive(
            self.keep_alive,
        ).resync(resumed.resync);
        let builder = match self.cut {
            Cut::Rotate(age) => {
                let ms: u64 = age.as_millis_u64();
                builder.max_age_jitter(Range { start: ms, end: ms + 1 })
            },
            _ => builder,
        };
        assert(builder@.head =~= self.built_with(resync_view(resumed.resync)).head);
        (builder, resumed.stream)
    }
}

/// What a stream resumes with: see [`resumable`].
pub open spec fn opens<S>(
    before: MemoryLog<u64>,
    resume: Resume,
    now: Duration,
    after: MemoryLog<u64>,
    r: Resumed<Joined<u64, S>>,
) -> bool {
    match resume {
        Resume::NoCursor => after == before && r.starts_over(None, Set::empty(), r.stream.live),
        Resume::Invalid => after == before && r.starts_over(
            Some(
                crate::protocol::ResyncView {
                    reason: crate::protocol::ResyncReason::Unknown,
                    earliest: None,
                },
            ),
            Set::empty(),
            r.stream.live,
        ),
        Resume::Since(cursor) => exists|answer: Result<Replay<u64>, LogError>|
            #[trigger] <MemoryLog<u64> as EventLog>::since_spec(
                before,
                TOPIC@,
                cursor@,
                REPLAY_LIMIT,
                now,
                after,
                answer,
            ) && r.follows(cursor@, answer, r.stream.live),
    }
}

// ---------------------------------------------------------------------------
// Laws
// ---------------------------------------------------------------------------

proof fn lemma_halves(word: Seq<char>, value: Seq<char>)
    requires
        forall|i: int| 0 <= i < word.len() ==> word[i] != ':',
    ensures
        halves(word + seq![':'] + value) == (word, Some(value)),
        halves(word) == (word, None::<Seq<char>>),
{
    let s = word + seq![':'] + value;
    let n = word.len() as int;
    assert forall|i: int| 0 <= i < n implies s[i] != ':' by {
        assert(s[i] == word[i]);
    }
    text::lemma_span_until_is(s, ':', n);
    text::lemma_span_until_is(word, ':', n);
    assert(s.take(n) =~= word);
    assert(s.skip(n + 1) =~= value);
    assert(word.take(n) =~= word);
}

/// What the ways of ending connections are written as, with any number.
pub proof fn cuts_are_read_as_they_are_written(n: u64, cut: Option<Cut>)
    ensures
        describes("never"@, cut) <==> cut == Some(Cut::Never),
        n <= usize::MAX ==> (describes("after:"@ + text::decimal(n as nat), cut) <==> cut == Some(
            Cut::After(n as usize),
        )),
        n <= usize::MAX ==> (describes("abort:"@ + text::decimal(n as nat), cut) <==> cut == Some(
            Cut::Abort(n as usize),
        )),
        describes("rotate:"@ + text::decimal(n as nat), cut) <==> (cut matches Some(
            Cut::Rotate(age),
        ) && age@ == n * 1_000_000),
{
    reveal_strlit("never");
    reveal_strlit("after");
    reveal_strlit("abort");
    reveal_strlit("rotate");
    reveal_strlit("after:");
    reveal_strlit("abort:");
    reveal_strlit("rotate:");
    let d = text::decimal(n as nat);
    let none = Seq::<char>::empty();
    text::numbers_read_back(n as nat, none);
    assert(none + d =~= d);
    lemma_halves("never"@, d);
    lemma_halves("after"@, d);
    lemma_halves("abort"@, d);
    lemma_halves("rotate"@, d);
    assert("after:"@ + d =~= "after"@ + seq![':'] + d);
    assert("abort:"@ + d =~= "abort"@ + seq![':'] + d);
    assert("rotate:"@ + d =~= "rotate"@ + seq![':'] + d);
    assert("after"@[1] != "abort"@[1]);
    assert("after"@.len() != "rotate"@.len());
    assert("abort"@.len() != "rotate"@.len());
}

/// Nothing else is a way of ending connections: no other word, none of the
/// three without a number, and not `never` with anything after it.
pub proof fn nothing_else_is_a_cut(word: Seq<char>, value: Seq<char>, cut: Option<Cut>)
    requires
        forall|i: int| 0 <= i < word.len() ==> word[i] != ':',
        word != "never"@,
        text::text_to_u64(value) is None || (word != "after"@ && word != "abort"@ && word
            != "rotate"@),
    ensures
        describes(word, cut) <==> cut is None,
        describes(word + seq![':'] + value, cut) <==> cut is None,
        describes("never"@ + seq![':'] + value, cut) <==> cut is None,
{
    reveal_strlit("never");
    reveal_strlit("after");
    reveal_strlit("abort");
    reveal_strlit("rotate");
    assert("never"@[0] != "after"@[0]);
    assert("never"@[0] != "abort"@[0]);
    assert("never"@[0] != "rotate"@[0]);
    lemma_halves(word, value);
    lemma_halves("never"@, value);
}

/// A published body is the decimal of its event, with white space around it or
/// without.
pub proof fn bodies_are_read_as_they_are_written(
    n: u64,
    a: Seq<char>,
    b: Seq<char>,
)
    requires
        forall|i: int| 0 <= i < a.len() ==> text::is_white_space(#[trigger] a[i]),
        forall|i: int| 0 <= i < b.len() ==> text::is_white_space(#[trigger] b[i]),
    ensures
        body_number(utf8::encode_utf8(a + text::decimal(n as nat) + b)) == Some(n),
{
    let d = text::decimal(n as nat);
    let none = Seq::<char>::empty();
    text::lemma_decimal(n as nat);
    text::numbers_read_back(n as nat, none);
    assert(none + d =~= d);
    assert(text::is_digit(d[0]));
    assert(text::is_digit(d[d.len() - 1]));
    text::trimming_takes_white_space_off_the_ends(a, d, b);
    utf8::encode_utf8_valid_utf8(a + d + b);
    utf8::encode_utf8_decode_utf8(a + d + b);
}

/// An event of the server is a `tick` with its number, under its cursor; a
/// failure is told in words, under none.
pub proof fn ticks_carry_their_number(p: Published<u64>, e: StreamError)
    ensures
        ({
            let ev = frame_of(Ok(p));
            &&& ev.name == Some("tick"@)
            &&& ev.data == Some(text::decimal(p.event as nat))
            &&& ev.id == token_of(p.cursor)
            &&& ev.retry is None && ev.comment is None
        }),
        ({
            let ev = frame_of(Err(e));
            &&& ev.name == Some("error"@)
            &&& ev.data == Some(e.text())
            &&& ev.id is None && ev.retry is None && ev.comment is None
        }),
{
}

/// A server's responses open with its hint and its `ping`, at the interval it
/// was given; a failed resume is told right after, and a rotation ends at
/// exactly its age.
pub proof fn a_response_is_built_as_the_server_says(
    c: Chaos,
    resync: Option<crate::protocol::ResyncView>,
    retry: u64,
    age: u64,
    retry_draw: u64,
    age_draw: u64,
    now: nat,
)
    requires
        c.retry@ == retry * 1_000_000,
        retry < u64::MAX,
        c.cut matches Cut::Rotate(span) ==> span@ == age * 1_000_000 && age < u64::MAX,
    ensures
        ({
            let f = c.built_with(resync).built(retry_draw, age_draw, now);
            &&& f.head[0] == (EventView {
                retry: Some((retry * 1_000_000) as nat),
                ..EventView::empty()
            }).encoded()
            &&& f.head.len() == if resync is Some {
                3int
            } else {
                2int
            }
            &&& resync matches Some(said) ==> f.head[2] == EventView::resync(said).encoded()
            &&& f.keep_alive matches Some(ka) && ka.every == c.keep_alive@
            &&& c.cut is Rotate ==> f.deadline == Some(
                crate::time::later(now, (age * 1_000_000) as nat),
            )
            &&& !(c.cut is Rotate) ==> f.deadline is None
        }),
{
    crate::server::response::milliseconds_of_a_span(retry, 0);
    if c.cut is Rotate {
        crate::server::response::milliseconds_of_a_span(age, 0);
    }
}

/// A client of the server that missed no more than 500 events, none of them
/// lost to the log, is served every one of them.
pub proof fn a_reconnect_replays_up_to_five_hundred<S>(
    before: MemoryLog<u64>,
    cursor: crate::cursor::Cursor,
    now: Duration,
    after: MemoryLog<u64>,
    r: Resumed<Joined<u64, S>>,
    seq: u64,
    k: int,
)
    requires
        before.wf(),
        opens(before, Resume::Since(cursor), now, after, r),
        cursor@ == before@.generation + seq!['-'] + text::decimal(seq as nat),
        before@.gap_floor < seq <= before@.last_seq,
        ({
            let t = before@.topic("t"@);
            &&& t.history.len() - t.ring.len() <= k <= t.history.len()
            &&& t.history.len() - k <= before@.capacity
            &&& t.history.len() - k <= 500
            &&& forall|i: int| 0 <= i < k ==> (#[trigger] t.history[i]).seq <= seq
            &&& forall|i: int|
                k <= i < t.history.len() ==> (#[trigger] t.history[i]).seq > seq && now@
                    - t.history[i].at@ <= before@.ttl@
        }),
    ensures
        r.resync is None,
        !r.snapshot,
        r.stream.replay@.len() == before@.topic("t"@).history.len() - k,
{
    let answer = choose|answer: Result<Replay<u64>, LogError>|
        #[trigger] <MemoryLog<u64> as EventLog>::since_spec(
            before,
            TOPIC@,
            cursor@,
            REPLAY_LIMIT,
            now,
            after,
            answer,
        ) && r.follows(cursor@, answer, r.stream.live);
    crate::server::stream::a_client_within_the_retention_is_served(
        before,
        after,
        "t"@,
        seq,
        REPLAY_LIMIT,
        now,
        answer,
        r.stream.live,
        r,
        k,
    );
}

/// A server starts with an empty log that keeps ten thousand events for a
/// minute.
pub proof fn a_fresh_log_keeps_a_minute(log: LogView<u64>)
    requires
        is_fresh(log),
    ensures
        log.capacity == 10_000,
        log.ttl@ == 60_000_000_000,
        log.last_seq == 0,
        log.gap_floor == 0,
        forall|name: Seq<char>| (#[trigger] log.topic(name)).history.len() == 0,
{
}

} // verus!
