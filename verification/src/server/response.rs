//! The HTTP response: a body that frames events, keeps the connection alive
//! with a named `ping` and, when asked, ends on its own after a lifetime so
//! that connections rotate.

use crate::headers;
use crate::jitter;
use crate::protocol::{small_frames_fit, Event, EventView, Ping, Resync, PING_EVERY_SECS};
use crate::server::stream::resync_view;
use crate::text;
use crate::time::{self, Duration, NANOS_PER_MILLI, NANOS_PER_SEC};
use crate::wire;
use bytes::Bytes;
use http::HeaderMap;
use std::collections::VecDeque;
use std::ops::Range;
use vstd::prelude::*;
use vstd::utf8;

verus! {

/// The `Content-Type` every SSE response carries.
pub const CONTENT_TYPE_VALUE: &'static str = "text/event-stream; charset=utf-8";

// ---------------------------------------------------------------------------
// The body
// ---------------------------------------------------------------------------

/// What polling the event stream gave.
pub enum Polled<E> {
    /// The next event.
    Event(Event),
    /// The stream failed.
    Failed(E),
    /// The stream is over.
    Ended,
    /// Nothing yet.
    Pending,
}

/// What the body does next.
pub enum Step<E> {
    /// Send these bytes.
    Frame(Bytes),
    /// End with the stream's error.
    Failed(E),
    /// End.
    End,
    /// Wait for the event stream or the next timer.
    Wait,
}

/// The keep-alive: when the next one is due.
struct KeepAlive {
    due: Duration,
    every: Duration,
    frame: Bytes,
}

/// The keep-alive by its numbers and bytes.
#[verifier::ext_equal]
pub struct KeepAliveView {
    pub due: nat,
    pub every: nat,
    pub frame: Seq<u8>,
}

/// The frames of a response, apart from its event stream: head frames come
/// first; while the stream is quiet, a keep-alive frame goes out every
/// interval; past the rotation deadline — armed when the response is built —
/// the body ends at the next frame boundary.
pub struct Frames {
    head: VecDeque<Bytes>,
    keep_alive: Option<KeepAlive>,
    deadline: Option<Duration>,
    done: bool,
}

/// The frames of a response by their bytes and times.
#[verifier::ext_equal]
pub struct FramesView {
    pub head: Seq<Seq<u8>>,
    pub keep_alive: Option<KeepAliveView>,
    pub deadline: Option<nat>,
    pub done: bool,
}

/// The bytes of frames.
pub open spec fn contents(frames: Seq<Bytes>) -> Seq<Seq<u8>> {
    frames.map_values(|b: Bytes| wire::content(b))
}

impl View for Frames {
    type V = FramesView;

    closed spec fn view(&self) -> FramesView {
        FramesView {
            head: contents(self.head@),
            keep_alive: match self.keep_alive {
                Some(ka) => Some(
                    KeepAliveView {
                        due: ka.due@,
                        every: ka.every@,
                        frame: wire::content(ka.frame),
                    },
                ),
                None => None,
            },
            deadline: match self.deadline {
                Some(at) => Some(at@),
                None => None,
            },
            done: self.done,
        }
    }
}

impl FramesView {
    /// Whether the rotation deadline has come.
    pub open spec fn expired(self, now: nat) -> bool {
        self.deadline matches Some(at) && now >= at
    }

    /// Whether the body goes on with the event stream: no head frame is
    /// left, it has not ended, and the deadline has not come.
    pub open spec fn wants_event(self, now: nat) -> bool {
        self.head.len() == 0 && !self.done && !self.expired(now)
    }

    /// The body with its keep-alive put off by an interval.
    pub open spec fn put_off(self, now: nat) -> FramesView {
        match self.keep_alive {
            Some(ka) => FramesView {
                keep_alive: Some(KeepAliveView { due: time::later(now, ka.every), ..ka }),
                ..self
            },
            None => self,
        }
    }

    /// The body once it has ended.
    pub open spec fn ended(self) -> FramesView {
        FramesView { done: true, ..self }
    }

    /// Whether a keep-alive is due.
    pub open spec fn ping_due(self, now: nat) -> bool {
        self.keep_alive matches Some(ka) && now >= ka.due
    }

    /// Whether the body has nothing more to send.
    pub open spec fn is_over(self) -> bool {
        self.done && self.head.len() == 0
    }
}

impl Frames {
    /// What the body does before it turns to the event stream: head frames
    /// first, then the end. Rotation: past the deadline the response ends
    /// here — between frames, after every head frame, never inside one. A
    /// client speaking the profile reopens at once and resumes from its
    /// cursor, so an event left behind is replayed on the next connection.
    /// `None` asks for the next event ([`Frames::step`]).
    pub fn begin<E>(&mut self, now: &Duration) -> (r: Option<Step<E>>)
        ensures
            if old(self)@.head.len() > 0 {
                &&& r matches Some(Step::Frame(b)) && wire::content(b) == old(self)@.head[0]
                &&& final(self)@ == (FramesView {
                    head: old(self)@.head.drop_first(),
                    ..old(self)@
                })
            } else if old(self)@.done || old(self)@.expired(now@) {
                &&& r matches Some(Step::End)
                &&& final(self)@ == old(self)@.ended()
            } else {
                &&& r is None
                &&& final(self)@ == old(self)@
            },
    {
        let ghost was = self@;
        if let Some(bytes) = self.head.pop_front() {
            assert(contents(self.head@) =~= was.head.drop_first());
            return Some(Step::Frame(bytes));
        }
        assert(contents(self.head@) =~= was.head);
        if self.done {
            return Some(Step::End);
        }
        if let Some(deadline) = &self.deadline {
            if now.at_least(deadline) {
                self.done = true;
                return Some(Step::End);
            }
        }
        None
    }

    /// What the body does with what polling the event stream gave. An event
    /// puts the keep-alive off; while the stream is quiet, a keep-alive that
    /// is due goes out.
    pub fn step<E>(&mut self, polled: Polled<E>, now: &Duration) -> (r: Step<E>)
        requires
            old(self)@.wants_event(now@),
            polled matches Polled::Event(event) ==> event@.fits(),
        ensures
            match polled {
                Polled::Event(event) => {
                    &&& r matches Step::Frame(b) && wire::content(b) == event@.encoded()
                    &&& final(self)@ == old(self)@.put_off(now@)
                },
                Polled::Failed(e) => {
                    &&& r == Step::Failed(e)
                    &&& final(self)@ == old(self)@.ended()
                },
                Polled::Ended => {
                    &&& r is End
                    &&& final(self)@ == old(self)@.ended()
                },
                Polled::Pending => if old(self)@.ping_due(now@) {
                    &&& r matches Step::Frame(b) && wire::content(b)
                        == old(self)@.keep_alive->0.frame
                    &&& final(self)@ == old(self)@.put_off(now@)
                } else {
                    &&& r is Wait
                    &&& final(self)@ == old(self)@
                },
            },
    {
        match polled {
            Polled::Event(event) => {
                if let Some(ka) = &mut self.keep_alive {
                    ka.due = now.later(&ka.every);
                }
                Step::Frame(event.encode())
            },
            Polled::Failed(e) => {
                self.done = true;
                Step::Failed(e)
            },
            Polled::Ended => {
                self.done = true;
                Step::End
            },
            Polled::Pending => {
                if let Some(ka) = &mut self.keep_alive {
                    if now.at_least(&ka.due) {
                        ka.due = now.later(&ka.every);
                        return Step::Frame(wire::share(&ka.frame));
                    }
                }
                Step::Wait
            },
        }
    }

    /// The earliest time at which a body that waits has something to do
    /// though the event stream stays quiet; `None` when there is none.
    pub fn wake_at(&self) -> (r: Option<Duration>)
        ensures
            match (self@.deadline, self@.keep_alive) {
                (Some(at), Some(ka)) => r matches Some(d) && d@ == if at <= ka.due {
                    at
                } else {
                    ka.due
                },
                (Some(at), None) => r matches Some(d) && d@ == at,
                (None, Some(ka)) => r matches Some(d) && d@ == ka.due,
                (None, None) => r is None,
            },
    {
        match (&self.deadline, &self.keep_alive) {
            (Some(at), Some(ka)) => if ka.due.at_least(at) {
                Some(*at)
            } else {
                Some(ka.due)
            },
            (Some(at), None) => Some(*at),
            (None, Some(ka)) => Some(ka.due),
            (None, None) => None,
        }
    }

    /// True when the body has nothing more to send.
    pub fn is_end_stream(&self) -> (r: bool)
        ensures
            r == self@.is_over(),
    {
        self.done && self.head.len() == 0
    }
}

/// The response body: an event stream and the frames around it.
pub struct SseBody<S> {
    /// The event stream.
    pub events: S,
    /// Everything else.
    pub frames: Frames,
}

/// A built response: headers plus the [`SseBody`].
pub struct SseResponse<S> {
    body: SseBody<S>,
}

/// What the headers of an SSE response hold: `Content-Type`,
/// `Cache-Control: no-cache, no-transform` (no intermediary may buffer or
/// recompress the stream) and `X-Accel-Buffering: no` (nginx).
pub open spec fn sse_values() -> Map<Seq<char>, Seq<u8>> {
    headers::no_values().insert(
        "content-type"@,
        utf8::encode_utf8(CONTENT_TYPE_VALUE@),
    ).insert("cache-control"@, utf8::encode_utf8("no-cache, no-transform"@)).insert(
        "x-accel-buffering"@,
        utf8::encode_utf8("no"@),
    )
}

impl<S> SseResponse<S> {
    /// The body.
    pub closed spec fn body(self) -> SseBody<S> {
        self.body
    }

    /// The headers and the body of the response.
    pub fn into_parts(self) -> (r: (HeaderMap, SseBody<S>))
        ensures
            headers::first_values(r.0) == sse_values(),
            r.1 == self.body(),
    {
        proof {
            reveal_strlit("content-type");
            reveal_strlit("cache-control");
            reveal_strlit("x-accel-buffering");
            reveal_strlit("text/event-stream; charset=utf-8");
            reveal_strlit("no-cache, no-transform");
            reveal_strlit("no");
        }
        let mut h = headers::no_headers();
        headers::put(&mut h, "content-type", CONTENT_TYPE_VALUE);
        headers::put(&mut h, "cache-control", "no-cache, no-transform");
        headers::put(&mut h, "x-accel-buffering", "no");
        (h, self.body)
    }
}

// ---------------------------------------------------------------------------
// The builder
// ---------------------------------------------------------------------------

/// Rotation: the lifetime window a connection draws from and what the
/// `ping` announces for it.
#[derive(Debug, PartialEq, Eq)]
pub struct MaxAge {
    /// Milliseconds, drawn uniformly per connection.
    pub millis: Range<u64>,
    /// The nominal lifetime in whole seconds; 0 announces nothing.
    pub announced_secs: u64,
}

/// A copy of a range.
fn copy_range(range: &Range<u64>) -> (r: Range<u64>)
    ensures
        r == *range,
{
    Range { start: range.start, end: range.end }
}

impl Clone for MaxAge {
    fn clone(&self) -> (r: Self)
        ensures
            r == *self,
    {
        MaxAge { millis: copy_range(&self.millis), announced_secs: self.announced_secs }
    }
}

/// Configures the frames that open every connection, the keep-alive and
/// the rotation.
#[derive(Debug)]
pub struct SseResponseBuilder {
    retry: Option<Range<u64>>,
    keep_alive: Option<Duration>,
    /// The rotation, when there is one.
    pub max_age: Option<MaxAge>,
    head: Vec<Event>,
}

/// A configuration.
#[verifier::ext_equal]
pub struct BuilderView {
    /// Where the `retry:` hint is drawn from, in milliseconds.
    pub retry: Option<Range<u64>>,
    /// The keep-alive interval in nanoseconds; `None` sends no `ping`.
    pub keep_alive: Option<nat>,
    pub max_age: Option<MaxAge>,
    /// The frames before the stream.
    pub head: Seq<EventView>,
}

/// Frames by their texts.
pub open spec fn event_views(events: Seq<Event>) -> Seq<EventView> {
    events.map_values(|e: Event| e@)
}

impl View for SseResponseBuilder {
    type V = BuilderView;

    closed spec fn view(&self) -> BuilderView {
        BuilderView {
            retry: self.retry,
            keep_alive: match self.keep_alive {
                Some(every) => Some(every@),
                None => None,
            },
            max_age: self.max_age,
            head: event_views(self.head@),
        }
    }
}

/// The milliseconds of a span, as 64 bits hold them.
pub open spec fn millis_of(span: nat) -> u64 {
    (span / NANOS_PER_MILLI as nat % 0x1_0000_0000_0000_0000) as u64
}

impl BuilderView {
    /// The defaults: `retry:` jittered in 500..1000ms, `ping` every 15s,
    /// no rotation.
    pub open spec fn initial() -> BuilderView {
        BuilderView {
            retry: Some(Range { start: 500, end: 1000 }),
            keep_alive: Some((PING_EVERY_SECS * NANOS_PER_SEC) as nat),
            max_age: None,
            head: Seq::empty(),
        }
    }

    /// The `ping` that goes out: the interval in whole seconds — one under a
    /// second announces the default — and the rotation age, if there is one
    /// to announce.
    pub open spec fn ping(self) -> Ping {
        let secs = (self.keep_alive->0 / NANOS_PER_SEC as nat) as u64;
        Ping {
            every: if secs > 0 {
                secs
            } else {
                PING_EVERY_SECS
            },
            max_age: match self.max_age {
                Some(age) => if age.announced_secs > 0 {
                    Some(age.announced_secs)
                } else {
                    None
                },
                None => None,
            },
        }
    }

    /// The `retry:` hint, when there is one.
    pub open spec fn hint(self, draw: u64) -> Seq<EventView> {
        match self.retry {
            Some(range) => seq![
                EventView {
                    retry: Some((jitter::picked(range, draw) * NANOS_PER_MILLI) as nat),
                    ..EventView::empty()
                },
            ],
            None => seq![],
        }
    }

    /// The `ping` at connect, when there is one: a client learns at once
    /// that this server sends pings and can arm its dead-man timer — a
    /// connection cut before the first interval would otherwise sit
    /// half-open with nothing to detect.
    pub open spec fn greeting(self) -> Seq<EventView> {
        match self.keep_alive {
            Some(_) => seq![EventView::ping(self.ping())],
            None => seq![],
        }
    }

    /// The frames before the stream: the `retry:` hint, the `ping`, then
    /// `resync` and other head frames in the order they were added.
    pub open spec fn opening(self, draw: u64) -> Seq<EventView> {
        self.hint(draw) + self.greeting() + self.head
    }

    /// Every head frame fits a buffer.
    pub open spec fn fits(self) -> bool {
        forall|i: int| 0 <= i < self.head.len() ==> (#[trigger] self.head[i]).fits()
    }

    /// The frames of a response built at `now`.
    pub open spec fn built(self, retry_draw: u64, age_draw: u64, now: nat) -> FramesView {
        FramesView {
            head: encodings(self.opening(retry_draw)),
            keep_alive: match self.keep_alive {
                Some(every) => Some(
                    KeepAliveView {
                        due: time::later(now, every),
                        every,
                        frame: EventView::ping(self.ping()).encoded(),
                    },
                ),
                None => None,
            },
            deadline: match self.max_age {
                Some(age) => Some(
                    time::later(
                        now,
                        (jitter::picked(age.millis, age_draw) * NANOS_PER_MILLI) as nat,
                    ),
                ),
                None => None,
            },
            done: false,
        }
    }
}

/// The wire bytes of frames.
pub open spec fn encodings(events: Seq<EventView>) -> Seq<Seq<u8>> {
    events.map_values(|e: EventView| e.encoded())
}

/// The middle of a range.
pub open spec fn midpoint(range: Range<u64>) -> u64 {
    if range.end > range.start {
        (range.start + (range.end - range.start) / 2) as u64
    } else {
        range.start
    }
}

impl Clone for SseResponseBuilder {
    fn clone(&self) -> (b: Self)
        ensures
            b@ == self@,
    {
        let retry = match &self.retry {
            Some(range) => Some(copy_range(range)),
            None => None,
        };
        let max_age = match &self.max_age {
            Some(age) => Some(age.clone()),
            None => None,
        };
        let b = SseResponseBuilder {
            retry,
            keep_alive: self.keep_alive,
            max_age,
            head: self.head.clone(),
        };
        assert(b@.head =~= self@.head);
        b
    }
}

impl Default for SseResponseBuilder {
    fn default() -> (b: Self)
        ensures
            b@ == BuilderView::initial(),
    {
        let b = SseResponseBuilder {
            retry: Some(Range { start: 500, end: 1000 }),
            keep_alive: Some(Duration::from_secs(PING_EVERY_SECS)),
            max_age: None,
            head: Vec::new(),
        };
        assert(b@.head =~= Seq::<EventView>::empty());
        b
    }
}

impl SseResponseBuilder {
    /// The defaults: `retry:` jittered in 500..1000ms, `ping` every 15s,
    /// no rotation.
    pub fn new() -> (b: Self)
        ensures
            b@ == BuilderView::initial(),
    {
        Self::default()
    }

    /// Rotation: end the response after `age`, jittered ±10% per connection
    /// so a fleet does not reconnect in lockstep. The end is an ordinary end
    /// of the response at a frame boundary, after every head frame; a client
    /// speaking the profile reopens at once and resumes from its cursor,
    /// so a rotation costs nothing. Keep the age below any intermediary's
    /// response timeout, so the server — not the proxy — ends the stream.
    /// The default `ping` announces the nominal age in whole seconds
    /// (`{"every":15,"max_age":30}`); under a second nothing is announced.
    /// No age at all means no rotation — a configuration's `0` can be
    /// passed through unchanged.
    pub fn max_age(self, age: Duration) -> (b: Self)
        requires
            millis_of(age@) + millis_of(age@) / 10 + 1 <= u64::MAX,
        ensures
            b@ == (BuilderView {
                max_age: if age@ == 0 {
                    None
                } else {
                    let ms = millis_of(age@);
                    Some(
                        MaxAge {
                            millis: Range {
                                start: (ms - ms / 10) as u64,
                                end: (ms + ms / 10 + 1) as u64,
                            },
                            announced_secs: (age@ / NANOS_PER_SEC as nat) as u64,
                        },
                    )
                },
                ..self@
            }),
    {
        if age.is_zero() {
            return SseResponseBuilder { max_age: None, ..self };
        }
        let ms: u64 = age.as_millis_u64();
        let spread: u64 = ms / 10;
        self.max_age_window(Range { start: ms - spread, end: ms + spread + 1 }, age.as_secs())
    }

    /// Rotation with an explicit lifetime window in milliseconds, drawn
    /// uniformly per connection (`ms..ms + 1` is exact). The `ping`
    /// announces the window's midpoint in whole seconds.
    pub fn max_age_jitter(self, millis: Range<u64>) -> (b: Self)
        ensures
            b@ == (BuilderView {
                max_age: Some(MaxAge { millis, announced_secs: midpoint(millis) / 1000 }),
                ..self@
            }),
    {
        let mid: u64 = millis.start + millis.end.saturating_sub(millis.start) / 2;
        self.max_age_window(millis, mid / 1000)
    }

    fn max_age_window(self, millis: Range<u64>, announced_secs: u64) -> (b: Self)
        ensures
            b@ == (BuilderView { max_age: Some(MaxAge { millis, announced_secs }), ..self@ }),
    {
        SseResponseBuilder { max_age: Some(MaxAge { millis, announced_secs }), ..self }
    }

    /// A `retry:` hint drawn uniformly from `millis` per connection, so a
    /// fleet's browsers do not reconnect in lockstep. Default `500..1000`.
    pub fn retry_jitter(self, millis: Range<u64>) -> (b: Self)
        ensures
            b@ == (BuilderView { retry: Some(millis), ..self@ }),
    {
        SseResponseBuilder { retry: Some(millis), ..self }
    }

    /// A fixed `retry:` hint.
    pub fn retry(self, delay: Duration) -> (b: Self)
        requires
            millis_of(delay@) < u64::MAX,
        ensures
            b@ == (BuilderView {
                retry: Some(
                    Range {
                        start: millis_of(delay@),
                        end: (millis_of(delay@) + 1) as u64,
                    },
                ),
                ..self@
            }),
    {
        let ms: u64 = delay.as_millis_u64();
        SseResponseBuilder { retry: Some(Range { start: ms, end: ms + 1 }), ..self }
    }

    /// No `retry:` hint (the browser default applies: 3s Chromium, 5s Firefox).
    pub fn no_retry(self) -> (b: Self)
        ensures
            b@ == (BuilderView { retry: None, ..self@ }),
    {
        SseResponseBuilder { retry: None, ..self }
    }

    /// Send [`Event::ping`] whenever the stream has been quiet for `every`.
    /// Default 15s — under every common proxy idle timeout. The frame is
    /// the profile's: it announces the interval (whole seconds; under a
    /// second it announces the default) and the rotation age, so a client
    /// can arm its dead-man timer — a comment keep-alive would be
    /// invisible to `EventSource` and announce nothing.
    pub fn keep_alive(self, every: Duration) -> (b: Self)
        ensures
            b@ == (BuilderView { keep_alive: Some(every@), ..self@ }),
    {
        SseResponseBuilder { keep_alive: Some(every), ..self }
    }

    /// No keep-alive.
    pub fn no_keep_alive(self) -> (b: Self)
        ensures
            b@ == (BuilderView { keep_alive: None, ..self@ }),
    {
        SseResponseBuilder { keep_alive: None, ..self }
    }

    /// Announce a failed resume: [`crate::server::stream::Resumed::resync`].
    /// `None` adds nothing.
    pub fn resync(self, resync: Option<Resync>) -> (b: Self)
        ensures
            b@ == (BuilderView {
                head: match resync_view(resync) {
                    Some(resync) => self@.head.push(EventView::resync(resync)),
                    None => self@.head,
                },
                ..self@
            }),
            self@.fits() ==> b@.fits(),
    {
        match resync {
            Some(resync) => self.head(Event::resync_of(&resync)),
            None => self,
        }
    }

    /// Any frame to send before the stream (a connect snapshot, for example).
    pub fn head(self, event: Event) -> (b: Self)
        ensures
            b@ == (BuilderView { head: self@.head.push(event@), ..self@ }),
    {
        let mut head = self.head;
        head.push(event);
        let b = SseResponseBuilder { head, ..self };
        assert(b@.head =~= self@.head.push(event@));
        b
    }

    /// Build with the event stream. The first frame on the wire is the
    /// `retry:` hint, then the `ping`, then `resync` and other head frames
    /// in the order they were added, then the stream.
    pub fn build<S>(self, events: S, now: &Duration) -> (r: SseResponse<S>)
        requires
            self@.fits(),
        ensures
            r.body().events == events,
            exists|retry_draw: u64, age_draw: u64|
                r.body().frames@ == #[trigger] self@.built(retry_draw, age_draw, now@),
    {
        let retry_draw: u64 = jitter::draw();
        let age_draw: u64 = jitter::draw();
        self.build_with(events, retry_draw, age_draw, now)
    }

    /// Build with the event stream and given draws for the `retry:` hint and
    /// the lifetime.
    pub fn build_with<S>(
        self,
        events: S,
        retry_draw: u64,
        age_draw: u64,
        now: &Duration,
    ) -> (r: SseResponse<S>)
        requires
            self@.fits(),
        ensures
            r.body().events == events,
            r.body().frames@ == self@.built(retry_draw, age_draw, now@),
    {
        let ghost conf = self@;
        let mut head: VecDeque<Bytes> = VecDeque::new();
        if let Some(range) = self.retry {
            let ms: u64 = jitter::pick(range, retry_draw);
            let hint = Event::new().retry(Duration::from_millis(ms));
            proof {
                time::spans_are_bounded(hint.retry->0);
                small_frames_fit(hint@);
            }
            head.push_back(hint.encode());
        }
        assert(contents(head@) =~= encodings(conf.hint(retry_draw)));
        let keep_alive = match self.keep_alive {
            Some(every) => {
                // The announced interval is whole seconds: a sub-second
                // keep-alive (tests, tight links) announces the default and
                // the client keeps its default window.
                let secs: u64 = every.as_secs();
                let max_age = match &self.max_age {
                    Some(age) => if age.announced_secs > 0 {
                        Some(age.announced_secs)
                    } else {
                        None
                    },
                    None => None,
                };
                let ping = Ping {
                    every: if secs > 0 {
                        secs
                    } else {
                        PING_EVERY_SECS
                    },
                    max_age,
                };
                assert(ping == conf.ping());
                proof {
                    pings_fit(ping);
                }
                let frame = Event::ping_of(&ping).encode();
                head.push_back(wire::share(&frame));
                Some(KeepAlive { due: now.later(&every), every, frame })
            },
            None => None,
        };
        let ghost before = conf.hint(retry_draw) + conf.greeting();
        assert(contents(head@) =~= encodings(before));
        let mut i: usize = 0;
        while i < self.head.len()
            invariant
                i <= self.head.len(),
                conf.head == event_views(self.head@),
                conf.fits(),
                contents(head@) == encodings(before + conf.head.take(i as int)),
            decreases self.head.len() - i,
        {
            let event = &self.head[i];
            assert(event@ == conf.head[i as int]);
            head.push_back(event.encode());
            proof {
                let done = before + conf.head.take(i as int);
                assert(before + conf.head.take(i + 1) =~= done.push(event@));
                assert(encodings(done.push(event@)) =~= encodings(done).push(event@.encoded()));
                assert(contents(head@) =~= encodings(done).push(event@.encoded()));
            }
            i += 1;
        }
        assert(before + conf.head.take(i as int) =~= conf.opening(retry_draw));
        let deadline = match self.max_age {
            Some(age) => {
                let ms: u64 = jitter::pick(age.millis, age_draw);
                Some(now.later(&Duration::from_millis(ms)))
            },
            None => None,
        };
        SseResponse {
            body: SseBody { events, frames: Frames { head, keep_alive, deadline, done: false } },
        }
    }
}

/// A `ping` frame fits a buffer.
pub proof fn pings_fit(ping: Ping)
    ensures
        EventView::ping(ping).fits(),
{
    reveal_strlit("{\"every\":");
    reveal_strlit(",\"max_age\":");
    reveal_strlit("}");
    reveal_strlit("ping");
    text::lemma_decimal_len(ping.every as nat);
    if let Some(age) = ping.max_age {
        text::lemma_decimal_len(age as nat);
    }
    small_frames_fit(EventView::ping(ping));
}

// ---------------------------------------------------------------------------
// Refusal
// ---------------------------------------------------------------------------

/// The parts of a response that opens no stream.
pub struct Refusal {
    /// The status code.
    pub status: u16,
    /// The headers.
    pub headers: HeaderMap,
    /// The body.
    pub body: Bytes,
}

/// The response for "the stream cannot be opened right now" (the upstream
/// is down, for example): 503 with `Retry-After`. A non-200 makes the
/// browser stop its own retry loop, so the client's watchdog takes over
/// with backoff instead of hammering every few seconds.
pub fn unavailable(retry_after: Duration) -> (r: Refusal)
    ensures
        r.status == 503,
        headers::first_values(r.headers) == headers::no_values().insert(
            "retry-after"@,
            utf8::encode_utf8(
                text::decimal(
                    if retry_after@ < NANOS_PER_SEC {
                        1
                    } else {
                        retry_after@ / NANOS_PER_SEC as nat
                    },
                ),
            ),
        ),
        wire::content(r.body) == utf8::encode_utf8("stream unavailable"@),
{
    let whole: u64 = retry_after.as_secs();
    let secs = text::decimal_text(
        if whole >= 1 {
            whole as u128
        } else {
            1
        },
    );
    proof {
        reveal_strlit("retry-after");
        if whole >= 1 {
            text::lemma_decimal(whole as nat);
        } else {
            text::lemma_decimal(1);
        }
        assert forall|i: int| 0 <= i < secs@.len() implies (' ' <= #[trigger] secs@[i] && secs@[i]
            <= '~') by {
            assert(text::is_digit(secs@[i]));
        }
    }
    let mut h = headers::no_headers();
    headers::put(&mut h, "retry-after", secs.as_str());
    Refusal {
        status: 503,
        headers: h,
        body: wire::from_static("stream unavailable".as_bytes()),
    }
}

// ---------------------------------------------------------------------------
// Laws
// ---------------------------------------------------------------------------

/// A rotation's lifetime is drawn within ten percent of the nominal age.
pub proof fn a_lifetime_is_within_ten_percent(ms: u64, draw: u64)
    requires
        ms + ms / 10 + 1 <= u64::MAX,
    ensures
        ({
            let range = Range { start: (ms - ms / 10) as u64, end: (ms + ms / 10 + 1) as u64 };
            let drawn = jitter::picked(range, draw);
            ms - ms / 10 <= drawn <= ms + ms / 10
        }),
{
    let range = Range { start: (ms - ms / 10) as u64, end: (ms + ms / 10 + 1) as u64 };
    jitter::picks_are_in_range(range, draw);
}

/// A body that is over stays over, whatever the time.
pub proof fn what_is_over_asks_for_nothing(f: FramesView, now: nat)
    requires
        f.is_over(),
    ensures
        !f.wants_event(now),
        f.ended() == f,
{
}

/// A body with a keep-alive that sent something at `sent` and has been quiet
/// since has a `ping` to send once an interval has passed, and none before.
pub proof fn silence_lasts_one_interval(f: FramesView, sent: nat, now: nat)
    requires
        f.keep_alive is Some,
    ensures
        f.put_off(sent).ping_due(now) <==> now >= time::later(sent, f.keep_alive->0.every),
        f.put_off(sent).keep_alive->0.every == f.keep_alive->0.every,
        f.put_off(sent).keep_alive->0.frame == f.keep_alive->0.frame,
{
}

/// Every connection with a keep-alive hears a `ping` before the stream, and
/// a `retry:` hint before that when there is one; what was added comes after,
/// in order.
pub proof fn the_opening_is_hint_ping_head(b: BuilderView, draw: u64)
    ensures
        b.retry is Some ==> b.opening(draw)[0].retry == Some(
            (jitter::picked(b.retry->0, draw) * NANOS_PER_MILLI) as nat,
        ),
        b.keep_alive is Some ==> b.opening(draw)[b.hint(draw).len() as int] == EventView::ping(
            b.ping(),
        ),
        b.opening(draw).skip((b.opening(draw).len() - b.head.len()) as int) == b.head,
{
    assert(b.opening(draw).skip((b.opening(draw).len() - b.head.len()) as int) =~= b.head);
}

/// The `ping` tells the interval at which the server sends it, in whole
/// seconds: a keep-alive of `secs` seconds and a fraction announces `secs`, at
/// connect and every time after; one under a second announces the default of
/// 15. The window of a client that follows it, `2 × every + 5s`, outlasts
/// the interval.
pub proof fn the_ping_announces_the_interval(
    b: BuilderView,
    secs: u64,
    part: nat,
    retry_draw: u64,
    age_draw: u64,
    now: nat,
)
    requires
        part < 1_000_000_000,
        b.keep_alive == Some((secs * 1_000_000_000 + part) as nat),
    ensures
        ({
            let f = b.built(retry_draw, age_draw, now);
            let hinted: int = if b.retry is Some {
                1
            } else {
                0
            };
            let ping = Ping {
                every: if secs >= 1 {
                    secs
                } else {
                    15
                },
                max_age: match b.max_age {
                    Some(age) if age.announced_secs > 0 => Some(age.announced_secs),
                    _ => None,
                },
            };
            &&& f.head.len() == hinted + 1 + b.head.len()
            &&& f.head[hinted] == EventView::ping(ping).encoded()
            &&& f.keep_alive matches Some(ka) && ka.frame == EventView::ping(ping).encoded()
                && ka.every == secs * 1_000_000_000 + part
            &&& ping.every <= 0x7fff_ffff_ffff_fff0 ==> crate::client::window_for(
                (ping.every * 1_000_000_000) as nat,
            ) > b.keep_alive->0
        }),
{
    let n = secs * 1_000_000_000 + part;
    assert(n / 1_000_000_000 == secs) by (nonlinear_arith)
        requires
            n == secs * 1_000_000_000 + part,
            0 <= part < 1_000_000_000,
    ;
}

/// The opening of a response, frame by frame: the hint that was drawn, in
/// milliseconds, when there is one; the `ping`, when there is a keep-alive;
/// then what was added, in order. Nothing is sent by then, and nothing is over.
pub proof fn a_response_opens_so(b: BuilderView, retry_draw: u64, age_draw: u64, now: nat, ms: u64)
    requires
        b.retry matches Some(range) ==> range.start <= ms < range.end && retry_draw == ms
            - range.start,
    ensures
        ({
            let f = b.built(retry_draw, age_draw, now);
            let hint = EventView { retry: Some((ms * 1_000_000) as nat), ..EventView::empty() };
            let hinted: int = if b.retry is Some {
                1
            } else {
                0
            };
            let greeted: int = if b.keep_alive is Some {
                1
            } else {
                0
            };
            &&& f.head.len() == hinted + greeted + b.head.len()
            &&& b.retry is Some ==> f.head[0] == hint.encoded()
            &&& forall|i: int|
                0 <= i < b.head.len() ==> f.head[hinted + greeted + i] == (
                #[trigger] b.head[i]).encoded()
            &&& f.keep_alive is Some <==> b.keep_alive is Some
            &&& f.keep_alive matches Some(ka) ==> ka.every == b.keep_alive->0 && ka.due
                == time::later(now, b.keep_alive->0)
            &&& f.deadline is Some <==> b.max_age is Some
            &&& !f.done
        }),
{
    if let Some(range) = b.retry {
        vstd::arithmetic::div_mod::lemma_small_mod(
            retry_draw as nat,
            (range.end - range.start) as nat,
        );
    }
}

/// A rotation is within its window: the deadline is the time of the opening
/// and some of the milliseconds that the window holds, any of which can be
/// drawn.
pub proof fn a_rotation_is_within_its_window(
    b: BuilderView,
    retry_draw: u64,
    age_draw: u64,
    now: nat,
    ms: u64,
)
    requires
        b.max_age matches Some(age) && age.millis.start <= ms < age.millis.end && age_draw == ms
            - age.millis.start,
    ensures
        b.built(retry_draw, age_draw, now).deadline == Some(
            time::later(now, (ms * 1_000_000) as nat),
        ),
{
    let range = b.max_age->0.millis;
    vstd::arithmetic::div_mod::lemma_small_mod(age_draw as nat, (range.end - range.start) as nat);
}

/// A body turns to the event stream once every head frame is out, until it
/// has ended or its deadline has come.
pub proof fn when_a_body_takes_events(f: FramesView, now: nat)
    ensures
        f.wants_event(now) <==> f.head.len() == 0 && !f.done && (f.deadline is None || now
            < f.deadline->0),
        f.expired(now) <==> f.deadline is Some && f.deadline->0 <= now,
        f.is_over() <==> f.done && f.head.len() == 0,
        f.ended().done && f.ended() == (FramesView { done: true, ..f }),
{
}

/// What is sent puts the next keep-alive off by one interval, and changes
/// nothing else; without a keep-alive there is nothing to put off.
pub proof fn what_is_sent_puts_the_ping_off(f: FramesView, now: nat)
    ensures
        f.put_off(now).head == f.head,
        f.put_off(now).deadline == f.deadline,
        f.put_off(now).done == f.done,
        f.keep_alive is None ==> f.put_off(now).keep_alive is None && !f.ping_due(now),
        f.keep_alive matches Some(ka) ==> f.put_off(now).keep_alive == Some(
            KeepAliveView { due: time::later(now, ka.every), every: ka.every, frame: ka.frame },
        ) && (f.ping_due(now) <==> now >= ka.due),
{
}

/// The defaults: a hint of half a second to a second, a `ping` every 15
/// seconds, no rotation and no other frame.
pub proof fn the_defaults()
    ensures
        ({
            let b = BuilderView::initial();
            &&& b.retry matches Some(range) && range.start == 500 && range.end == 1000
            &&& b.keep_alive == Some(15_000_000_000nat)
            &&& b.max_age is None
            &&& b.head.len() == 0
        }),
{
}

/// A span in milliseconds, for any below half a billion years.
pub proof fn milliseconds_of_a_span(ms: u64, nanos: nat)
    requires
        nanos < 1_000_000,
    ensures
        millis_of((ms * 1_000_000 + nanos) as nat) == ms,
{
    let n = ms * 1_000_000 + nanos;
    assert(n / 1_000_000 == ms) by (nonlinear_arith)
        requires
            n == ms * 1_000_000 + nanos,
            0 <= nanos < 1_000_000,
    ;
}

/// The middle of a range is as far from its start as from its end, to one.
pub proof fn the_middle_is_in_the_middle(range: Range<u64>)
    requires
        range.start <= range.end,
    ensures
        0 <= (range.end - midpoint(range)) - (midpoint(range) - range.start) <= 1,
{
}

/// The headers that tell every intermediary to let the stream through.
pub proof fn the_headers_of_a_stream()
    ensures
        sse_values().contains_key("content-type"@),
        headers::header_text(sse_values(), "content-type"@) == Some(
            "text/event-stream; charset=utf-8"@,
        ),
        headers::header_text(sse_values(), "cache-control"@) == Some("no-cache, no-transform"@),
        headers::header_text(sse_values(), "x-accel-buffering"@) == Some("no"@),
        sse_values().dom().len() == 3,
{
    reveal_strlit("content-type");
    reveal_strlit("cache-control");
    reveal_strlit("x-accel-buffering");
    reveal_strlit("text/event-stream; charset=utf-8");
    reveal_strlit("no-cache, no-transform");
    reveal_strlit("no");
    assert("content-type"@.len() != "cache-control"@.len());
    assert("content-type"@.len() != "x-accel-buffering"@.len());
    assert("cache-control"@.len() != "x-accel-buffering"@.len());
    headers::visible_text_reads_back("text/event-stream; charset=utf-8"@);
    headers::visible_text_reads_back("no-cache, no-transform"@);
    headers::visible_text_reads_back("no"@);
}

/// What a server that refuses asks for is the floor that a client keeps to:
/// the whole seconds of the span, and at least one.
pub proof fn a_refusal_is_heard_as_it_was_said(secs: u64)
    ensures
        crate::client::retry_after(
            headers::no_values().insert(
                "retry-after"@,
                utf8::encode_utf8(text::decimal(secs as nat)),
            ),
        ) == Some((secs * 1_000_000_000) as nat),
{
    reveal_strlit("-");
    text::only_digits_are_numbers("-"@, 0);
    crate::client::retry_after_is_read(headers::no_values(), secs, "-"@);
}

} // verus!
