//! The client half of the resumable SSE profile: what a subscription makes
//! of the bytes it reads, and when it reconnects.
//!
//! * every reconnect presents the last id seen, so a server speaking the
//!   profile replays the gap,
//! * a healthy stream the far end cut is reopened at once (jittered ≤250ms);
//!   a transport error or a non-200 goes through full-jitter exponential
//!   backoff (1s → 30s), and a `503` honours `Retry-After` as the floor,
//! * the server's `retry:` hint replaces the base delay after a clean end,
//! * once the server has sent `ping`, silence longer than the dead-man
//!   window reopens the stream (a half-open connection is detected),
//! * `resync` is surfaced so the caller reloads a snapshot, and drops the
//!   cursor,
//! * what the server announces in `ping` — its keep-alive interval and,
//!   when it rotates streams, their lifetime — is kept as
//!   [`Link::server_hints`].

use crate::headers;
use crate::jitter;
use crate::parse::{
    byte_read, bytes_read, Frame, FrameView, Parsed, ParsedView, Parser, ParserView,
};
use crate::payload::{self, HintsView};
use crate::protocol::{opt_nanos, EventView, Ping, Resync, ResyncView, PING, RESYNC};
use crate::roundtrip::{
    a_cut_frame_leaves_no_trace, an_event_completes_its_frame, between_frames, dispatch_of,
    hint_of, id_after, parse_of_encode,
};
use crate::text;
use crate::time::{Duration, LAST_NANO, NANOS_PER_MILLI, NANOS_PER_SEC};
use http::HeaderMap;
use std::ops::Range;
use vstd::prelude::*;
use vstd::utf8;

pub use crate::payload::{parse_ping, parse_resync, ServerHints};

verus! {

/// Full-jitter exponential backoff parameters.
#[derive(Debug, Clone, Copy)]
pub struct Backoff {
    /// First cap (attempt 0 draws from `0..base`).
    pub base: Duration,
    /// Largest cap.
    pub max: Duration,
    /// Never wait less than this.
    pub floor: Duration,
}

/// Reopen at once after a stream that had been live this long ends.
#[derive(Debug, Clone, Copy)]
pub struct Eager {
    /// A stream live for at least this long was cut by the far end.
    pub healthy: Duration,
    /// Spread the reopen over this window.
    pub jitter: Duration,
}

/// The dead-man window: how long a silence after a `ping` means half-open.
#[derive(Debug, Clone, Copy, PartialEq, Eq, Structural)]
pub enum Deadman {
    /// Follow the interval the server's `ping` announces (`2 × every + 5s`);
    /// 35s until it announces one. The profile's recommendation.
    Auto,
    /// A fixed window, whatever the server announces.
    Fixed(Duration),
    /// No dead-man: a half-open connection is left to the transport.
    Off,
}

impl Default for Deadman {
    fn default() -> (d: Self)
        ensures
            d == Deadman::Auto,
    {
        Deadman::Auto
    }
}

/// Client behaviour. `Default` is the profile's recommendation.
#[derive(Debug)]
pub struct Options {
    /// Send `Last-Event-ID` on reconnects.
    pub resume: bool,
    /// Extra request headers (auth, for example).
    pub headers: HeaderMap,
    /// Time allowed for the response head to arrive.
    pub connect_timeout: Duration,
    /// Silence after a `ping` has been seen that means half-open.
    pub deadman: Deadman,
    /// Backoff after transport errors and non-200 responses.
    pub backoff: Backoff,
    /// Immediate reopen after a healthy stream ends. `None` disables.
    pub eager: Option<Eager>,
    /// Delay after a clean end when the server sent no `retry:` hint.
    pub default_retry: Duration,
}

impl Default for Options {
    fn default() -> (o: Self)
        ensures
            o.resume,
            headers::first_values(o.headers) == headers::no_values(),
            o.connect_timeout@ == 20 * NANOS_PER_SEC,
            o.deadman == Deadman::Auto,
            o.backoff.base@ == NANOS_PER_SEC,
            o.backoff.max@ == 30 * NANOS_PER_SEC,
            o.backoff.floor@ == 200 * NANOS_PER_MILLI,
            o.eager matches Some(eager) && eager.healthy@ == 5 * NANOS_PER_SEC && eager.jitter@
                == 250 * NANOS_PER_MILLI,
            o.default_retry@ == 3 * NANOS_PER_SEC,
    {
        Options {
            resume: true,
            headers: headers::no_headers(),
            connect_timeout: Duration::from_secs(20),
            deadman: Deadman::Auto,
            backoff: Backoff {
                base: Duration::from_secs(1),
                max: Duration::from_secs(30),
                floor: Duration::from_millis(200),
            },
            eager: Some(
                Eager { healthy: Duration::from_secs(5), jitter: Duration::from_millis(250) },
            ),
            default_retry: Duration::from_secs(3),
        }
    }
}

/// Why the client is waiting before its next attempt.
#[derive(Debug, PartialEq, Eq)]
pub enum Cause {
    /// The server ended the response on purpose: a rotation (`max_age`),
    /// a `take`, a deadline. A proxy timeout or a network drop usually
    /// shows as [`Cause::Transport`] instead — the response is cut without
    /// its terminating chunk; a proxy that ends the response cleanly lands
    /// here too, which a rotation-cadence check tells apart.
    Ended,
    /// The request or the read failed.
    Transport(String),
    /// A non-200 response (the browser would give up here).
    Http(u16),
    /// No `ping` within the dead-man window.
    Deadman,
}

/// Transport status, mirrored from the browser client's vocabulary.
#[derive(Debug, PartialEq, Eq)]
pub enum Status {
    /// A request is in flight.
    Connecting,
    /// The stream is open.
    Live,
    /// Waiting `after` before the next attempt.
    Retrying {
        /// The wait.
        after: Duration,
        /// Why.
        cause: Cause,
    },
}

/// What a subscription yields.
#[derive(Debug, PartialEq, Eq)]
pub enum Message {
    /// Transport status changes.
    Status(Status),
    /// A data event (named or default), with the last event id in force.
    Event(Frame),
    /// A keep-alive.
    Ping,
    /// The server could not replay from the cursor; reload a snapshot.
    Resync(Resync),
}

impl Clone for Cause {
    fn clone(&self) -> (r: Self)
        ensures
            r == *self,
    {
        match self {
            Cause::Ended => Cause::Ended,
            Cause::Transport(why) => Cause::Transport(why.clone()),
            Cause::Http(status) => Cause::Http(*status),
            Cause::Deadman => Cause::Deadman,
        }
    }
}

impl Clone for Status {
    fn clone(&self) -> (r: Self)
        ensures
            r == *self,
    {
        match self {
            Status::Connecting => Status::Connecting,
            Status::Live => Status::Live,
            Status::Retrying { after, cause } => Status::Retrying {
                after: *after,
                cause: cause.clone(),
            },
        }
    }
}

impl Clone for Message {
    fn clone(&self) -> (r: Self)
        ensures
            r == *self,
    {
        match self {
            Message::Status(status) => Message::Status(status.clone()),
            Message::Event(frame) => Message::Event(frame.clone()),
            Message::Ping => Message::Ping,
            Message::Resync(resync) => Message::Resync(resync.clone()),
        }
    }
}

// ---------------------------------------------------------------------------
// The dead-man window
// ---------------------------------------------------------------------------

/// Default dead-man window when ping announces no interval, in seconds.
pub const DEFAULT_DEADMAN: u64 = 35;

/// The dead-man window of a keep-alive interval, in nanoseconds: `2 × every
/// + 5s`, or the longest span there is.
pub open spec fn window_for(every: nat) -> nat {
    let window = 2 * every + 5 * NANOS_PER_SEC;
    if window <= LAST_NANO {
        window as nat
    } else {
        LAST_NANO as nat
    }
}

/// Compute the dead-man window for a keep-alive interval: `2 × every + 5s`.
pub fn deadman_for(every: Duration) -> (window: Duration)
    ensures
        window@ == window_for(every@),
{
    every.later(&every).later(&Duration::from_secs(5))
}

/// The window at the start of a connection.
pub open spec fn first_window(deadman: Deadman) -> Option<nat> {
    match deadman {
        Deadman::Auto => Some((DEFAULT_DEADMAN * NANOS_PER_SEC) as nat),
        Deadman::Fixed(window) => Some(window@),
        Deadman::Off => None,
    }
}

// ---------------------------------------------------------------------------
// Reading
// ---------------------------------------------------------------------------

/// Messages by their texts.
#[verifier::ext_equal]
pub enum MessageView {
    Status(Status),
    Event(FrameView),
    Ping,
    Resync(ResyncView),
}

impl View for Message {
    type V = MessageView;

    open spec fn view(&self) -> MessageView {
        match self {
            Message::Status(status) => MessageView::Status(*status),
            Message::Event(frame) => MessageView::Event(frame@),
            Message::Ping => MessageView::Ping,
            Message::Resync(resync) => MessageView::Resync(resync@),
        }
    }
}

/// The views of a list of messages.
pub open spec fn message_views(messages: Seq<Message>) -> Seq<MessageView> {
    messages.map_values(|m: Message| m@)
}

/// Where a subscription stands.
#[verifier::ext_equal]
pub struct LinkView {
    /// The parser of the current connection; its last event id is the
    /// cursor.
    pub parser: ParserView,
    /// Whether a `ping` came on this connection.
    pub ping_seen: bool,
    /// The dead-man window.
    pub window: Option<nat>,
    /// Whether the window follows what the server announces.
    pub auto: bool,
    /// The latest `retry:` hint.
    pub retry_hint: Option<nat>,
    /// What the latest `ping` announced.
    pub hints: HintsView,
    /// Attempts since the last stream was live.
    pub attempt: u32,
}

impl LinkView {
    /// A subscription that has never been connected.
    pub open spec fn fresh(options: Options) -> LinkView {
        LinkView {
            parser: ParserView::initial(),
            ping_seen: false,
            window: first_window(options.deadman),
            auto: options.deadman == Deadman::Auto,
            retry_hint: None,
            hints: HintsView { ping_every: None, max_age: None },
            attempt: 0,
        }
    }
}

/// The cursor that a request presents: the last id seen, unless the client
/// chose not to resume.
pub open spec fn presented_by(l: LinkView, options: Options) -> Option<Seq<char>> {
    if options.resume {
        l.parser.last_event_id
    } else {
        None
    }
}

/// What a request for a stream accepts.
pub const ACCEPTED: &'static str = "text/event-stream";

/// What a GET for a stream carries.
pub struct Request<'a> {
    /// The value of `Accept`.
    pub accept: &'static str,
    /// The headers of [`Options::headers`], all of them.
    pub headers: &'a HeaderMap,
    /// The value of `Last-Event-ID`, which is sent only when there is one.
    pub last_event_id: Option<&'a str>,
}

/// Whether a frame is of the profile's own names.
pub open spec fn is_named(frame: FrameView, name: Seq<char>) -> bool {
    frame.name == Some(name)
}

/// What becomes of one thing that the parser completed.
pub open spec fn handled(l: LinkView, item: ParsedView) -> (LinkView, Seq<MessageView>) {
    match item {
        ParsedView::Retry(delay) => (LinkView { retry_hint: Some(delay), ..l }, seq![]),
        ParsedView::Event(frame) => if is_named(frame, PING@) {
            let hints = payload::ping_hints(frame.data);
            (
                LinkView {
                    ping_seen: true,
                    hints,
                    window: match hints.ping_every {
                        Some(every) => if l.auto {
                            Some(window_for(every))
                        } else {
                            l.window
                        },
                        None => l.window,
                    },
                    ..l
                },
                seq![MessageView::Ping],
            )
        } else if is_named(frame, RESYNC@) {
            (
                LinkView { parser: ParserView { last_event_id: None, ..l.parser }, ..l },
                seq![MessageView::Resync(payload::resync_read(frame.data))],
            )
        } else {
            (l, seq![MessageView::Event(frame)])
        },
    }
}

/// What becomes of all that the parser completed, one after the other.
pub open spec fn all_handled(l: LinkView, items: Seq<ParsedView>) -> (LinkView, Seq<MessageView>)
    decreases items.len(),
{
    if items.len() == 0 {
        (l, seq![])
    } else {
        let before = all_handled(l, items.drop_last());
        let last = handled(before.0, items.last());
        (last.0, before.1 + last.1)
    }
}

/// What becomes of one byte.
pub open spec fn byte_taken(l: LinkView, b: u8) -> (LinkView, Seq<MessageView>) {
    let read = byte_read(l.parser, b);
    all_handled(LinkView { parser: read.0, ..l }, read.1)
}

/// What becomes of a run of bytes, one after the other.
pub open spec fn bytes_taken(l: LinkView, bytes: Seq<u8>) -> (LinkView, Seq<MessageView>)
    decreases bytes.len(),
{
    if bytes.len() == 0 {
        (l, seq![])
    } else {
        let before = bytes_taken(l, bytes.drop_last());
        let last = byte_taken(before.0, bytes.last());
        (last.0, before.1 + last.1)
    }
}

// ---------------------------------------------------------------------------
// Waiting
// ---------------------------------------------------------------------------

/// The milliseconds of a span, as 64 bits hold them.
pub open spec fn millis_of(span: Duration) -> u64 {
    (span@ / NANOS_PER_MILLI as nat % 0x1_0000_0000_0000_0000) as u64
}

/// The wait of an attempt, in nanoseconds.
pub open spec fn backoff_span(backoff: Backoff, attempt: u32, draw: u64) -> nat {
    (jitter::backoff_wait(
        attempt,
        millis_of(backoff.base),
        millis_of(backoff.max),
        millis_of(backoff.floor),
        draw,
    ) * NANOS_PER_MILLI) as nat
}

/// The wait of an attempt for a given draw.
pub fn backoff_from(options: &Options, attempt: u32, draw: u64) -> (wait: Duration)
    ensures
        wait@ == backoff_span(options.backoff, attempt, draw),
{
    let ms: u64 = jitter::backoff_ms_from(
        attempt,
        options.backoff.base.as_millis_u64(),
        options.backoff.max.as_millis_u64(),
        options.backoff.floor.as_millis_u64(),
        draw,
    );
    Duration::from_millis(ms)
}

/// The wait of an attempt: full-jitter exponential backoff.
pub fn backoff(options: &Options, attempt: u32) -> (wait: Duration)
    ensures
        exists|draw: u64|
            wait@ == #[trigger] backoff_span(options.backoff, attempt, draw),
{
    let d: u64 = jitter::draw();
    backoff_from(options, attempt, d)
}

/// The attempt after one.
pub open spec fn next_attempt(attempt: u32) -> u32 {
    if u32::MAX > attempt {
        (attempt + 1) as u32
    } else {
        attempt
    }
}

/// The floor that a refused request asks for, in nanoseconds: a
/// `Retry-After` of whole seconds.
pub open spec fn retry_after(values: Map<Seq<char>, Seq<u8>>) -> Option<nat> {
    match headers::header_text(values, "retry-after"@) {
        Some(value) => match text::text_to_u64(value) {
            Some(secs) => Some((secs * NANOS_PER_SEC) as nat),
            None => None,
        },
        None => None,
    }
}

/// A wait that is no shorter than a floor, when there is one.
pub open spec fn at_least(wait: nat, floor: Option<nat>) -> nat {
    match floor {
        Some(floor) => if wait >= floor {
            wait
        } else {
            floor
        },
        None => wait,
    }
}

/// The wait after a stream that lived for `lived` ended, in nanoseconds.
pub open spec fn wait_after_end(
    options: Options,
    retry_hint: Option<nat>,
    lived: nat,
    draw: u64,
) -> nat {
    match options.eager {
        Some(eager) if lived >= eager.healthy@ => (jitter::picked(
            Range { start: 0, end: millis_of(eager.jitter) },
            draw,
        ) * NANOS_PER_MILLI) as nat,
        _ => match retry_hint {
            Some(delay) => delay,
            None => options.default_retry@,
        },
    }
}

/// Whether a status says to wait `after`.
pub open spec fn waits(status: Status, after: nat) -> bool {
    status matches Status::Retrying { after: d, .. } && d@ == after
}

/// Whether a status says why.
pub open spec fn because(status: Status, cause: Cause) -> bool {
    status matches Status::Retrying { cause: c, .. } && c == cause
}

// ---------------------------------------------------------------------------
// The subscription
// ---------------------------------------------------------------------------

/// What a subscription remembers: within a connection, the parser and the
/// dead-man window; across connections, the cursor, the hints and how many
/// attempts have failed.
pub struct Link {
    options: Options,
    parser: Parser,
    ping_seen: bool,
    window: Option<Duration>,
    retry_hint: Option<Duration>,
    hints: ServerHints,
    attempt: u32,
}

impl View for Link {
    type V = LinkView;

    closed spec fn view(&self) -> LinkView {
        LinkView {
            parser: self.parser@,
            ping_seen: self.ping_seen,
            window: opt_nanos(self.window),
            auto: self.options.deadman == Deadman::Auto,
            retry_hint: opt_nanos(self.retry_hint),
            hints: self.hints@,
            attempt: self.attempt,
        }
    }
}

impl Link {
    /// What it was made with.
    pub closed spec fn config(self) -> Options {
        self.options
    }

    /// A subscription that has never been connected.
    pub fn new(options: Options) -> (l: Self)
        ensures
            l.config() == options,
            l@ == LinkView::fresh(options),
    {
        let window = Self::window_of(&options);
        Link {
            options,
            parser: Parser::new(),
            ping_seen: false,
            window,
            retry_hint: None,
            hints: ServerHints::default(),
            attempt: 0,
        }
    }

    fn window_of(options: &Options) -> (window: Option<Duration>)
        ensures
            opt_nanos(window) == first_window(options.deadman),
    {
        match options.deadman {
            Deadman::Auto => Some(Duration::from_secs(DEFAULT_DEADMAN)),
            Deadman::Fixed(window) => Some(window),
            Deadman::Off => None,
        }
    }

    /// How it behaves.
    pub fn options(&self) -> (o: &Options)
        ensures
            *o == self.config(),
    {
        &self.options
    }

    /// The last id seen.
    pub fn last_event_id(&self) -> (id: Option<&str>)
        ensures
            text::opt_str(id) == self@.parser.last_event_id,
    {
        self.parser.last_event_id()
    }

    /// The cursor that the next request presents.
    pub fn request_cursor(&self) -> (id: Option<&str>)
        ensures
            text::opt_str(id) == presented_by(self@, self.config()),
    {
        if self.options.resume {
            self.parser.last_event_id()
        } else {
            None
        }
    }

    /// What the next request carries.
    pub fn request(&self) -> (r: Request<'_>)
        ensures
            r.accept@ == "text/event-stream"@,
            *r.headers == self.config().headers,
            text::opt_str(r.last_event_id) == presented_by(self@, self.config()),
    {
        Request {
            accept: ACCEPTED,
            headers: &self.options.headers,
            last_event_id: self.request_cursor(),
        }
    }

    /// What the server's latest `ping` announced (empty until one arrives).
    pub fn server_hints(&self) -> (h: ServerHints)
        ensures
            h@ == self@.hints,
    {
        self.hints
    }

    /// How long a silence on this connection may last: there is no limit
    /// until the first `ping`.
    pub fn silence_limit(&self) -> (window: Option<Duration>)
        ensures
            opt_nanos(window) == if self@.ping_seen {
                self@.window
            } else {
                None
            },
    {
        if self.ping_seen {
            self.window
        } else {
            None
        }
    }

    /// A stream is open: a new parser, and a new dead-man window. The cursor
    /// persists across connections: a frame without an id on the new stream
    /// must not erase it (only an empty `id:` and a `resync` do).
    pub fn opened(&mut self)
        ensures
            final(self).config() == old(self).config(),
            final(self)@ == (LinkView {
                parser: ParserView {
                    last_event_id: text::non_empty(old(self)@.parser.last_event_id),
                    ..ParserView::initial()
                },
                ping_seen: false,
                window: first_window(old(self).config().deadman),
                attempt: 0,
                ..old(self)@
            }),
    {
        let last = match self.parser.last_event_id() {
            Some(id) => Some(id.to_owned()),
            None => None,
        };
        self.parser = Parser::new().with_last_event_id(last);
        self.ping_seen = false;
        self.window = Self::window_of(&self.options);
        self.attempt = 0;
    }

    /// Take in bytes of the open stream; what they say to the subscriber.
    pub fn take(&mut self, chunk: &[u8]) -> (messages: Vec<Message>)
        ensures
            final(self).config() == old(self).config(),
            (final(self)@, message_views(messages@)) == bytes_taken(old(self)@, chunk@),
    {
        let mut messages: Vec<Message> = Vec::new();
        let mut i: usize = 0;
        assert(message_views(messages@) =~= seq![]);
        assert(chunk@.take(0) =~= seq![]);
        while i < chunk.len()
            invariant
                i <= chunk.len(),
                self.config() == old(self).config(),
                (self@, message_views(messages@)) == bytes_taken(
                    old(self)@,
                    chunk@.take(i as int),
                ),
            decreases chunk.len() - i,
        {
            assert(chunk@.take(i + 1).drop_last() =~= chunk@.take(i as int));
            self.take_byte(chunk[i], &mut messages);
            i += 1;
        }
        assert(chunk@.take(i as int) =~= chunk@);
        messages
    }

    fn take_byte(&mut self, b: u8, messages: &mut Vec<Message>)
        ensures
            final(self).config() == old(self).config(),
            final(self)@ == byte_taken(old(self)@, b).0,
            message_views(final(messages)@) == message_views(old(messages)@) + byte_taken(
                old(self)@,
                b,
            ).1,
    {
        let mut items: Vec<Parsed> = Vec::new();
        self.parser.feed_byte(b, &mut items);
        let ghost begun = self@;
        let ghost views = byte_read(old(self)@.parser, b).1;
        assert(crate::parse::parsed_views(items@) =~= views);
        assert(views.take(0) =~= seq![]);
        assert(message_views(messages@) =~= message_views(old(messages)@) + seq![]);
        let mut i: usize = 0;
        while i < items.len()
            invariant
                i <= items.len(),
                views == crate::parse::parsed_views(items@),
                self.config() == old(self).config(),
                self@ == all_handled(begun, views.take(i as int)).0,
                message_views(messages@) == message_views(old(messages)@) + all_handled(
                    begun,
                    views.take(i as int),
                ).1,
            decreases items.len() - i,
        {
            proof {
                assert(views.take(i + 1).drop_last() =~= views.take(i as int));
                assert(views.take(i + 1).last() == items@[i as int]@);
            }
            let ghost sent = message_views(messages@);
            let ghost before = self@;
            match self.handle(&items[i]) {
                Some(message) => {
                    messages.push(message);
                    assert(message_views(messages@) =~= sent + seq![message@]);
                },
                None => {
                    assert(message_views(messages@) =~= sent + seq![]);
                },
            }
            assert(message_views(messages@) == sent + handled(before, items@[i as int]@).1);
            assert(sent + handled(before, items@[i as int]@).1 =~= message_views(old(messages)@)
                + (all_handled(begun, views.take(i as int)).1 + handled(
                before,
                items@[i as int]@,
            ).1));
            i += 1;
        }
        assert(views.take(i as int) =~= views);
    }

    fn handle(&mut self, item: &Parsed) -> (message: Option<Message>)
        ensures
            final(self).config() == old(self).config(),
            final(self)@ == handled(old(self)@, item@).0,
            match message {
                Some(m) => handled(old(self)@, item@).1 == seq![m@],
                None => handled(old(self)@, item@).1 == Seq::<MessageView>::empty(),
            },
    {
        proof {
            reveal_strlit("ping");
            reveal_strlit("resync");
            assert("ping"@.len() != "resync"@.len());
        }
        match item {
            Parsed::Retry(delay) => {
                self.retry_hint = Some(*delay);
                None
            },
            Parsed::Event(frame) => {
                let name = frame.name.as_ref();
                if let Some(name) = name {
                    if text::text_eq(name.as_str(), PING) {
                        let hints = payload::parse_ping(frame.data.as_str());
                        self.ping_seen = true;
                        self.hints = hints;
                        if self.options.deadman == Deadman::Auto {
                            if let Some(every) = hints.ping_every {
                                self.window = Some(deadman_for(every));
                            }
                        }
                        return Some(Message::Ping);
                    }
                    if text::text_eq(name.as_str(), RESYNC) {
                        let resync = Resync::from_json(frame.data.as_str());
                        self.parser.forget_last_event_id();
                        return Some(Message::Resync(resync));
                    }
                }
                Some(Message::Event(frame.clone()))
            },
        }
    }

    /// The request could not be sent, or the read failed.
    pub fn failed(&mut self, why: String, draw: u64) -> (status: Status)
        ensures
            final(self).config() == old(self).config(),
            final(self)@ == (LinkView { attempt: next_attempt(old(self)@.attempt), ..old(self)@ }),
            waits(status, backoff_span(old(self).config().backoff, old(self)@.attempt, draw)),
            because(status, Cause::Transport(why)),
    {
        let after = backoff_from(&self.options, self.attempt, draw);
        self.count_attempt();
        Status::Retrying { after, cause: Cause::Transport(why) }
    }

    /// The response was not a 200. `Retry-After`, when it is readable, is
    /// the floor of the wait.
    pub fn refused(&mut self, status: u16, response: &HeaderMap, draw: u64) -> (r: Status)
        ensures
            final(self).config() == old(self).config(),
            final(self)@ == (LinkView { attempt: next_attempt(old(self)@.attempt), ..old(self)@ }),
            waits(
                r,
                at_least(
                    backoff_span(old(self).config().backoff, old(self)@.attempt, draw),
                    retry_after(headers::first_values(*response)),
                ),
            ),
            because(r, Cause::Http(status)),
            r->after@ >= backoff_span(old(self).config().backoff, old(self)@.attempt, draw),
            retry_after(headers::first_values(*response)) matches Some(floor) ==> r->after@
                >= floor,
            r->after@ == backoff_span(old(self).config().backoff, old(self)@.attempt, draw)
                || retry_after(headers::first_values(*response)) == Some(r->after@),
    {
        proof {
            reveal_strlit("retry-after");
        }
        let mut after = backoff_from(&self.options, self.attempt, draw);
        self.count_attempt();
        if let Some(value) = headers::get_text(response, "retry-after") {
            if let Some(secs) = text::parse_u64(value) {
                after = after.longer(Duration::from_secs(secs));
            }
        }
        Status::Retrying { after, cause: Cause::Http(status) }
    }

    /// No byte came within the dead-man window: reopen at once.
    pub fn fell_silent(&self) -> (status: Status)
        ensures
            waits(status, 0),
            because(status, Cause::Deadman),
    {
        Status::Retrying { after: Duration::zero(), cause: Cause::Deadman }
    }

    /// The response ended after `lived`: a healthy stream is reopened at
    /// once, any other follows the `retry:` hint.
    pub fn ended(&self, lived: Duration, draw: u64) -> (status: Status)
        ensures
            waits(status, wait_after_end(self.config(), self@.retry_hint, lived@, draw)),
            because(status, Cause::Ended),
    {
        let after = match self.options.eager {
            Some(eager) if lived.at_least(&eager.healthy) => {
                let ms: u64 = jitter::pick(
                    Range { start: 0, end: eager.jitter.as_millis_u64() },
                    draw,
                );
                Duration::from_millis(ms)
            },
            _ => match self.retry_hint {
                Some(delay) => delay,
                None => self.options.default_retry,
            },
        };
        Status::Retrying { after, cause: Cause::Ended }
    }

    fn count_attempt(&mut self)
        ensures
            final(self).config() == old(self).config(),
            final(self)@ == (LinkView { attempt: next_attempt(old(self)@.attempt), ..old(self)@ }),
    {
        if u32::MAX > self.attempt {
            self.attempt = self.attempt + 1;
        }
    }
}

// ---------------------------------------------------------------------------
// Laws
// ---------------------------------------------------------------------------

/// It does not matter how the bytes of a stream are cut into chunks.
pub proof fn chunks_do_not_matter(l: LinkView, a: Seq<u8>, b: Seq<u8>)
    ensures
        bytes_taken(l, a + b).0 == bytes_taken(bytes_taken(l, a).0, b).0,
        bytes_taken(l, a + b).1 == bytes_taken(l, a).1 + bytes_taken(bytes_taken(l, a).0, b).1,
    decreases b.len(),
{
    let mid = bytes_taken(l, a);
    if b.len() == 0 {
        assert(a + b =~= a);
        assert(mid.1 + seq![] =~= mid.1);
    } else {
        chunks_do_not_matter(l, a, b.drop_last());
        assert((a + b).drop_last() =~= a + b.drop_last());
        assert((a + b).last() == b.last());
        let rest = bytes_taken(mid.0, b.drop_last());
        let last = byte_taken(rest.0, b.last());
        assert(mid.1 + rest.1 + last.1 =~= mid.1 + (rest.1 + last.1));
    }
}

/// Whether an item is a `resync` event.
pub open spec fn is_resync(item: ParsedView) -> bool {
    item matches ParsedView::Event(frame) && is_named(frame, RESYNC@) && !is_named(frame, PING@)
}

proof fn lemma_all_handled_concat(l: LinkView, a: Seq<ParsedView>, b: Seq<ParsedView>)
    ensures
        all_handled(l, a + b).0 == all_handled(all_handled(l, a).0, b).0,
        all_handled(l, a + b).1 == all_handled(l, a).1 + all_handled(all_handled(l, a).0, b).1,
    decreases b.len(),
{
    let mid = all_handled(l, a);
    if b.len() == 0 {
        assert(a + b =~= a);
        assert(mid.1 + seq![] =~= mid.1);
    } else {
        lemma_all_handled_concat(l, a, b.drop_last());
        assert((a + b).drop_last() =~= a + b.drop_last());
        assert((a + b).last() == b.last());
        let rest = all_handled(mid.0, b.drop_last());
        let last = handled(rest.0, b.last());
        assert(mid.1 + rest.1 + last.1 =~= mid.1 + (rest.1 + last.1));
    }
}

/// Only a `resync` touches the parser.
proof fn lemma_handling_keeps_parser(l: LinkView, parser: ParserView, items: Seq<ParsedView>)
    requires
        forall|i: int| 0 <= i < items.len() ==> !is_resync(#[trigger] items[i]),
    ensures
        all_handled(l, items).0.parser == l.parser,
        all_handled(LinkView { parser, ..l }, items) == (
            LinkView { parser, ..all_handled(l, items).0 },
            all_handled(l, items).1,
        ),
    decreases items.len(),
{
    if items.len() > 0 {
        let most = items.drop_last();
        assert forall|i: int| 0 <= i < most.len() implies !is_resync(#[trigger] most[i]) by {
            assert(most[i] == items[i]);
        }
        lemma_handling_keeps_parser(l, parser, most);
        assert(!is_resync(items[items.len() - 1]));
    }
}

/// Bytes without a `resync` in them: what the parser completes is handled.
proof fn lemma_no_resync(l: LinkView, bytes: Seq<u8>)
    requires
        forall|i: int|
            0 <= i < bytes_read(l.parser, bytes).1.len() ==> !is_resync(
                #[trigger] bytes_read(l.parser, bytes).1[i],
            ),
    ensures
        bytes_taken(l, bytes) == all_handled(
            LinkView { parser: bytes_read(l.parser, bytes).0, ..l },
            bytes_read(l.parser, bytes).1,
        ),
        bytes_taken(l, bytes).0.parser == bytes_read(l.parser, bytes).0,
    decreases bytes.len(),
{
    if bytes.len() > 0 {
        let most = bytes_read(l.parser, bytes.drop_last());
        let last = byte_read(most.0, bytes.last());
        let all = bytes_read(l.parser, bytes);
        assert forall|i: int| 0 <= i < most.1.len() implies !is_resync(#[trigger] most.1[i]) by {
            assert(most.1[i] == all.1[i]);
        }
        assert forall|i: int| 0 <= i < last.1.len() implies !is_resync(#[trigger] last.1[i]) by {
            assert(last.1[i] == all.1[i + most.1.len()]);
        }
        lemma_no_resync(l, bytes.drop_last());
        let begun = LinkView { parser: most.0, ..l };
        lemma_handling_keeps_parser(begun, last.0, most.1);
        let mid = all_handled(begun, most.1).0;
        lemma_handling_keeps_parser(LinkView { parser: last.0, ..mid }, last.0, last.1);
        lemma_all_handled_concat(LinkView { parser: last.0, ..l }, most.1, last.1);
        assert(LinkView { parser: last.0, ..begun } == LinkView { parser: last.0, ..l });
    } else {
        assert(LinkView { parser: l.parser, ..l } == l);
    }
}

/// What a server encoded is what the subscriber hears: the bytes of any
/// frame, read between two frames, leave the cursor that the frame asks for
/// and say what its `retry:` hint and its event say — no more, whatever its
/// texts hold.
pub proof fn a_frame_is_heard_as_it_was_sent(l: LinkView, ev: EventView)
    requires
        between_frames(l.parser),
    ensures
        bytes_taken(l, ev.encoded()) == all_handled(
            LinkView {
                parser: ParserView {
                    at_start: false,
                    last_event_id: id_after(ev, l.parser.last_event_id),
                    ..l.parser
                },
                ..l
            },
            hint_of(ev) + dispatch_of(ev, l.parser.last_event_id),
        ),
{
    let bytes = ev.encoded();
    parse_of_encode(l.parser, ev);
    an_event_completes_its_frame(l.parser, ev);
    let most = bytes_read(l.parser, bytes.drop_last());
    let last = byte_read(most.0, bytes.last());
    let all = bytes_read(l.parser, bytes);
    let hint = hint_of(ev);
    assert(last.1 =~= dispatch_of(ev, l.parser.last_event_id)) by {
        assert(all.1 == hint + last.1);
        assert(last.1 =~= all.1.skip(hint.len() as int));
        assert(dispatch_of(ev, l.parser.last_event_id) =~= all.1.skip(hint.len() as int));
    }
    lemma_no_resync(l, bytes.drop_last());
    let begun = LinkView { parser: most.0, ..l };
    lemma_handling_keeps_parser(begun, last.0, hint);
    lemma_all_handled_concat(LinkView { parser: last.0, ..l }, hint, last.1);
    assert(LinkView { parser: last.0, ..begun } == LinkView { parser: last.0, ..l });
}

/// A frame that is cut short, anywhere, is not heard, and leaves the cursor
/// where it was.
pub proof fn a_cut_frame_is_not_heard(l: LinkView, ev: EventView, n: int)
    requires
        between_frames(l.parser),
        0 <= n < ev.encoded().len(),
    ensures
        bytes_taken(l, ev.encoded().take(n)).1 == Seq::<MessageView>::empty(),
        bytes_taken(l, ev.encoded().take(n)).0.parser.last_event_id == l.parser.last_event_id,
{
    let bytes = ev.encoded().take(n);
    a_cut_frame_leaves_no_trace(l.parser, ev, n);
    let items = bytes_read(l.parser, bytes).1;
    assert forall|i: int| 0 <= i < items.len() implies !is_resync(#[trigger] items[i]) by {
        assert(!(items[i] is Event));
    }
    lemma_no_resync(l, bytes);
    lemma_hints_say_nothing(
        LinkView { parser: bytes_read(l.parser, bytes).0, ..l },
        items,
    );
}

proof fn lemma_hints_say_nothing(l: LinkView, items: Seq<ParsedView>)
    requires
        forall|i: int| 0 <= i < items.len() ==> !(#[trigger] items[i] is Event),
    ensures
        all_handled(l, items).1 == Seq::<MessageView>::empty(),
    decreases items.len(),
{
    if items.len() > 0 {
        let most = items.drop_last();
        assert forall|i: int| 0 <= i < most.len() implies !(#[trigger] most[i] is Event) by {
            assert(most[i] == items[i]);
        }
        lemma_hints_say_nothing(l, most);
        assert(!(items[items.len() - 1] is Event));
        assert(Seq::<MessageView>::empty() + Seq::<MessageView>::empty() =~= Seq::<
            MessageView,
        >::empty());
    }
}

/// Handling one thing is handling it alone.
pub proof fn lemma_one_handled(l: LinkView, item: ParsedView)
    ensures
        all_handled(l, seq![item]) == handled(l, item),
{
    let one = seq![item];
    assert(one.drop_last() =~= Seq::<ParsedView>::empty());
    assert(all_handled(l, one.drop_last()) == (l, Seq::<MessageView>::empty()));
    assert(Seq::<MessageView>::empty() + handled(l, item).1 =~= handled(l, item).1);
}

/// The profile's own names have nothing to fold.
proof fn lemma_names()
    ensures
        crate::protocol::folded(PING@) == PING@,
        crate::protocol::folded(RESYNC@) == RESYNC@,
        PING@ != RESYNC@,
        PING@.len() > 0,
        RESYNC@.len() > 0,
{
    reveal_strlit("ping");
    reveal_strlit("resync");
    assert(crate::protocol::folded(PING@) =~= PING@);
    assert(crate::protocol::folded(RESYNC@) =~= RESYNC@);
    assert(PING@.len() != RESYNC@.len());
}

/// A refused cursor is given up: the `resync` frame that a server sends is
/// heard as that `resync`, and leaves no cursor to present.
pub proof fn a_resync_drops_the_cursor(l: LinkView, resync: ResyncView)
    requires
        between_frames(l.parser),
        resync.earliest matches Some(token) ==> crate::cursor::is_token(token),
    ensures
        bytes_taken(l, EventView::resync(resync).encoded()).1 == seq![MessageView::Resync(resync)],
        bytes_taken(l, EventView::resync(resync).encoded()).0 == (LinkView {
            parser: ParserView { at_start: false, last_event_id: None, ..l.parser },
            ..l
        }),
{
    let ev = EventView::resync(resync);
    let data = resync.payload();
    a_frame_is_heard_as_it_was_sent(l, ev);
    payload::resync_payload_reads_back(resync);
    lemma_names();
    reveal_strlit("{\"reason\":\"");
    reveal_strlit("\",\"earliest\":");
    reveal_strlit("\"");
    reveal_strlit("\"}");
    reveal_strlit("null}");
    reveal_strlit("expired");
    reveal_strlit("unknown");
    assert forall|i: int| 0 <= i < data.len() implies data[i] != '\r' by {
        if let Some(token) = resync.earliest {
            assert forall|j: int| 0 <= j < token.len() implies token[j] != '\r' by {
                assert(crate::cursor::unreserved(token[j]));
            }
        }
    }
    text::joined_lines_are_the_text(data);
    let dispatch = dispatch_of(ev, l.parser.last_event_id);
    assert(hint_of(ev) + dispatch =~= seq![dispatch[0]]);
    let heard = LinkView {
        parser: ParserView {
            at_start: false,
            last_event_id: id_after(ev, l.parser.last_event_id),
            ..l.parser
        },
        ..l
    };
    lemma_one_handled(heard, dispatch[0]);
}

/// The `ping` frame that a server sends is heard as a `ping`: it leaves the
/// cursor as it was, hands over what it announces, and arms the dead-man
/// window — `2 × every + 5s` when the client follows the server.
pub proof fn a_ping_arms_the_dead_man(l: LinkView, ping: Ping)
    requires
        between_frames(l.parser),
        ping.every > 0,
    ensures
        ({
            let after = bytes_taken(l, EventView::ping(ping).encoded());
            &&& after.1 == seq![MessageView::Ping]
            &&& after.0.parser.last_event_id == l.parser.last_event_id
            &&& between_frames(after.0.parser)
            &&& after.0.ping_seen
            &&& after.0.hints == (HintsView {
                ping_every: payload::announced(ping.every),
                max_age: match ping.max_age {
                    Some(age) => payload::announced(age),
                    None => None,
                },
            })
            &&& after.0.window == if l.auto {
                Some(window_for((ping.every * NANOS_PER_SEC) as nat))
            } else {
                l.window
            }
            &&& after.0.attempt == l.attempt
        }),
{
    let ev = EventView::ping(ping);
    let data = ping.payload();
    a_frame_is_heard_as_it_was_sent(l, ev);
    payload::ping_payload_reads_back(ping);
    lemma_names();
    reveal_strlit("{\"every\":");
    reveal_strlit(",\"max_age\":");
    reveal_strlit("}");
    text::lemma_decimal(ping.every as nat);
    if let Some(age) = ping.max_age {
        text::lemma_decimal(age as nat);
    }
    assert forall|i: int| 0 <= i < data.len() implies data[i] != '\r' by {
        let d = text::decimal(ping.every as nat);
        assert forall|j: int| 0 <= j < d.len() implies d[j] != '\r' by {
            assert(text::is_digit(d[j]));
        }
        if let Some(age) = ping.max_age {
            let a = text::decimal(age as nat);
            assert forall|j: int| 0 <= j < a.len() implies a[j] != '\r' by {
                assert(text::is_digit(a[j]));
            }
        }
    }
    text::joined_lines_are_the_text(data);
    let dispatch = dispatch_of(ev, l.parser.last_event_id);
    assert(hint_of(ev) + dispatch =~= seq![dispatch[0]]);
    let heard = LinkView {
        parser: ParserView {
            at_start: false,
            last_event_id: id_after(ev, l.parser.last_event_id),
            ..l.parser
        },
        ..l
    };
    lemma_one_handled(heard, dispatch[0]);
}

/// The dead-man rule applies only once a `ping` was heard on the connection.
pub proof fn only_a_ping_arms_the_dead_man(l: LinkView, bytes: Seq<u8>)
    ensures
        bytes_taken(l, bytes).0.ping_seen <==> l.ping_seen || bytes_taken(l, bytes).1.contains(
            MessageView::Ping,
        ),
    decreases bytes.len(),
{
    if bytes.len() > 0 {
        let before = bytes_taken(l, bytes.drop_last());
        only_a_ping_arms_the_dead_man(l, bytes.drop_last());
        let read = byte_read(before.0.parser, bytes.last());
        let begun = LinkView { parser: read.0, ..before.0 };
        lemma_ping_seen(begun, read.1);
        lemma_contains_concat(before.1, all_handled(begun, read.1).1, MessageView::Ping);
    } else {
        assert(!Seq::<MessageView>::empty().contains(MessageView::Ping));
    }
}

proof fn lemma_ping_seen(l: LinkView, items: Seq<ParsedView>)
    ensures
        all_handled(l, items).0.ping_seen <==> l.ping_seen || all_handled(l, items).1.contains(
            MessageView::Ping,
        ),
    decreases items.len(),
{
    if items.len() > 0 {
        let before = all_handled(l, items.drop_last());
        lemma_ping_seen(l, items.drop_last());
        let last = handled(before.0, items.last());
        lemma_contains_concat(before.1, last.1, MessageView::Ping);
        if last.1.len() > 0 {
            assert(last.1 =~= seq![last.1[0]]);
            if last.1[0] == MessageView::Ping {
                assert(last.1.contains(MessageView::Ping));
            } else if last.1.contains(MessageView::Ping) {
                let i = choose|i: int| 0 <= i < last.1.len() && last.1[i] == MessageView::Ping;
                assert(i == 0);
            }
        }
    } else {
        assert(!Seq::<MessageView>::empty().contains(MessageView::Ping));
    }
}

proof fn lemma_contains_concat(a: Seq<MessageView>, b: Seq<MessageView>, m: MessageView)
    ensures
        (a + b).contains(m) <==> a.contains(m) || b.contains(m),
{
    if a.contains(m) {
        let i = choose|i: int| 0 <= i < a.len() && a[i] == m;
        assert((a + b)[i] == m);
    }
    if b.contains(m) {
        let i = choose|i: int| 0 <= i < b.len() && b[i] == m;
        assert((a + b)[i + a.len()] == m);
    }
    if (a + b).contains(m) {
        let i = choose|i: int| 0 <= i < (a + b).len() && (a + b)[i] == m;
        if i < a.len() {
            assert(a[i] == m);
        } else {
            assert(b[i - a.len()] == m);
        }
    }
}

/// A healthy stream that ended is reopened within the eager window, whatever
/// the server hinted; one that ended sooner follows the hint.
pub proof fn a_healthy_stream_is_reopened_at_once(
    options: Options,
    retry_hint: Option<nat>,
    lived: nat,
    draw: u64,
)
    requires
        options.eager is Some,
    ensures
        lived >= options.eager->0.healthy@ ==> wait_after_end(options, retry_hint, lived, draw)
            <= millis_of(options.eager->0.jitter) * NANOS_PER_MILLI,
        lived < options.eager->0.healthy@ && retry_hint is Some ==> wait_after_end(
            options,
            retry_hint,
            lived,
            draw,
        ) == retry_hint->0,
{
    jitter::picks_are_in_range(
        Range { start: 0, end: millis_of(options.eager->0.jitter) },
        draw,
    );
}

/// A floor only lengthens a wait: the wait after a refusal is no shorter than
/// the backoff, no shorter than the floor that the server asked for, and is
/// one of the two.
pub proof fn a_floor_only_lengthens(wait: nat, floor: Option<nat>)
    ensures
        at_least(wait, floor) >= wait,
        floor is None ==> at_least(wait, floor) == wait,
        floor matches Some(f) ==> at_least(wait, floor) >= f,
        floor matches Some(f) ==> at_least(wait, floor) == wait || at_least(wait, floor) == f,
{
}

/// The floor that a refusal asks for is its `Retry-After` in seconds, when
/// that is a number.
pub proof fn retry_after_is_read(values: Map<Seq<char>, Seq<u8>>, secs: u64, other: Seq<char>)
    requires
        headers::is_visible(other),
        text::text_to_u64(other) is None,
    ensures
        retry_after(
            values.insert("retry-after"@, utf8::encode_utf8(text::decimal(secs as nat))),
        ) == Some((secs * 1_000_000_000) as nat),
        retry_after(values.insert("retry-after"@, utf8::encode_utf8(other))) is None,
        retry_after(values.remove("retry-after"@)) is None,
{
    let d = text::decimal(secs as nat);
    let none = Seq::<char>::empty();
    text::lemma_decimal(secs as nat);
    assert forall|i: int| 0 <= i < d.len() implies (' ' <= #[trigger] d[i] && d[i] <= '~') by {
        assert(text::is_digit(d[i]));
    }
    headers::a_header_is_found_by_its_name(values, "retry-after"@, d);
    headers::a_header_is_found_by_its_name(values, "retry-after"@, other);
    text::numbers_read_back(secs as nat, none);
    assert(none + d =~= d);
}

/// The dead-man window of an interval is twice as long and five seconds more,
/// for every interval up to some hundred billion years; it begins at 35 seconds
/// for a client that follows the server, and stays what a fixed one says.
pub proof fn the_window_follows_the_interval(secs: u64, nanos: nat, window: Duration)
    requires
        nanos < 1_000_000_000,
        secs <= 0x7fff_ffff_ffff_fff0,
    ensures
        window_for((secs * 1_000_000_000 + nanos) as nat) == 2 * (secs * 1_000_000_000 + nanos)
            + 5_000_000_000,
        first_window(Deadman::Auto) == Some(35_000_000_000nat),
        first_window(Deadman::Fixed(window)) == Some(window@),
        first_window(Deadman::Off) is None,
{
}

/// A stream that ended too soon to be healthy, or for a client that is not
/// eager, waits as the server hinted, or else the default.
pub proof fn a_short_stream_follows_the_hint(
    options: Options,
    retry_hint: Option<nat>,
    lived: nat,
    draw: u64,
)
    requires
        options.eager matches Some(eager) ==> lived < eager.healthy@,
    ensures
        retry_hint matches Some(delay) ==> wait_after_end(options, retry_hint, lived, draw)
            == delay,
        retry_hint is None ==> wait_after_end(options, retry_hint, lived, draw)
            == options.default_retry@,
{
}

/// An eager reopen is spread over the whole of its window: any of its
/// milliseconds can be drawn.
pub proof fn an_eager_reopen_is_spread(
    options: Options,
    retry_hint: Option<nat>,
    lived: nat,
    ms: u64,
)
    requires
        options.eager matches Some(eager) && lived >= eager.healthy@ && ms < millis_of(
            eager.jitter,
        ),
    ensures
        wait_after_end(options, retry_hint, lived, ms) == ms * 1_000_000,
{
    let end = millis_of(options.eager->0.jitter);
    vstd::arithmetic::div_mod::lemma_small_mod(ms as nat, end as nat);
}

/// A span in milliseconds, for any below half a billion years.
pub proof fn milliseconds_of_a_span(span: Duration, ms: u64, nanos: nat)
    requires
        nanos < 1_000_000,
        span@ == ms * 1_000_000 + nanos,
    ensures
        millis_of(span) == ms,
{
    assert(span@ / 1_000_000 == ms) by (nonlinear_arith)
        requires
            span@ == ms * 1_000_000 + nanos,
            0 <= nanos < 1_000_000,
    ;
}

/// A `retry:` hint is remembered, and is the only thing that it changes.
pub proof fn a_hint_is_remembered(l: LinkView, delay: nat)
    ensures
        handled(l, ParsedView::Retry(delay)) == (
            LinkView { retry_hint: Some(delay), ..l },
            Seq::<MessageView>::empty(),
        ),
{
}

/// An event under any name but the profile's own two, and one under none, is
/// heard as it is, and changes nothing.
pub proof fn events_are_passed_on(l: LinkView, frame: FrameView)
    requires
        frame.name != Some("ping"@) && frame.name != Some("resync"@),
    ensures
        handled(l, ParsedView::Event(frame)) == (l, seq![MessageView::Event(frame)]),
{
}

/// Whatever a `ping` holds, it is heard as a `ping`: it arms the dead-man,
/// replaces what was announced before, and moves neither the cursor nor the
/// window of a client that does not follow the server.
pub proof fn every_ping_counts(l: LinkView, frame: FrameView)
    requires
        frame.name == Some("ping"@),
    ensures
        ({
            let after = handled(l, ParsedView::Event(frame));
            &&& after.1 == seq![MessageView::Ping]
            &&& after.0.ping_seen
            &&& after.0.hints == payload::ping_hints(frame.data)
            &&& after.0.parser == l.parser
            &&& after.0.retry_hint == l.retry_hint
            &&& after.0.attempt == l.attempt
            &&& after.0.auto == l.auto
            &&& !l.auto || payload::ping_hints(frame.data).ping_every is None ==> after.0.window
                == l.window
        }),
{
}

/// Whatever a `resync` holds, it is heard, and drops the cursor; nothing else
/// changes.
pub proof fn every_resync_drops_the_cursor(l: LinkView, frame: FrameView)
    requires
        frame.name == Some("resync"@),
    ensures
        handled(l, ParsedView::Event(frame)) == (
            LinkView { parser: ParserView { last_event_id: None, ..l.parser }, ..l },
            seq![MessageView::Resync(payload::resync_read(frame.data))],
        ),
{
    reveal_strlit("ping");
    reveal_strlit("resync");
    assert("ping"@.len() != "resync"@.len());
}

/// Attempts are counted one by one, and never run over.
pub proof fn attempts_are_counted(attempt: u32)
    ensures
        attempt < 0xffff_ffff ==> next_attempt(attempt) == attempt + 1,
        next_attempt(0xffff_ffff) == 0xffff_ffff,
{
}

/// A new subscription has no cursor, no hints and no failed attempts, and its
/// dead-man is not armed.
pub proof fn a_new_subscription_knows_nothing(options: Options)
    ensures
        ({
            let l = LinkView::fresh(options);
            &&& l.parser.last_event_id is None
            &&& l.retry_hint is None
            &&& l.hints.ping_every is None && l.hints.max_age is None
            &&& l.attempt == 0
            &&& !l.ping_seen
            &&& presented_by(l, options) is None
            &&& l.auto <==> options.deadman == Deadman::Auto
        }),
{
}

/// A client that resumes presents the last id seen; one that does not presents
/// none.
pub proof fn the_last_id_is_presented(l: LinkView, options: Options)
    ensures
        options.resume ==> presented_by(l, options) == l.parser.last_event_id,
        !options.resume ==> presented_by(l, options) is None,
{
}

/// The wait after a failed attempt, in milliseconds: what was drawn below the
/// cap of the attempt, or the floor when that is more. The cap is the base
/// after no failure, and twice as much after each, up to the largest.
pub proof fn a_backoff_is_drawn_below_its_cap(
    backoff: Backoff,
    base: u64,
    max: u64,
    floor: u64,
    attempt: u32,
    draw: u64,
)
    requires
        backoff.base@ == base * 1_000_000,
        backoff.max@ == max * 1_000_000,
        backoff.floor@ == floor * 1_000_000,
    ensures
        backoff_span(backoff, attempt, draw) >= backoff.floor@,
        backoff_span(backoff, attempt, draw) == backoff.floor@ || backoff_span(
            backoff,
            attempt,
            draw,
        ) < backoff.max@,
        attempt == 0 && floor <= draw < base && base <= max ==> backoff_span(
            backoff,
            attempt,
            draw,
        ) == draw * 1_000_000,
        floor <= draw < jitter::backoff_cap(attempt, base, max) ==> backoff_span(
            backoff,
            attempt,
            draw,
        ) == draw * 1_000_000,
{
    milliseconds_of_a_span(backoff.base, base, 0);
    milliseconds_of_a_span(backoff.max, max, 0);
    milliseconds_of_a_span(backoff.floor, floor, 0);
    jitter::a_wait_is_drawn_below_the_cap(attempt, base, max, floor, draw);
    jitter::the_cap_doubles(attempt, base, max);
}

/// A status that says to wait is one of waiting, for just that long and for
/// just that cause.
pub proof fn what_a_pause_says(status: Status, after: nat, cause: Cause)
    ensures
        waits(status, after) <==> status is Retrying && status->after@ == after,
        because(status, cause) <==> status is Retrying && status->cause == cause,
{
}

} // verus!
