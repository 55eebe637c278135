//! A subscription step by step: what to do next, given what happened.
//!
//! The caller performs each [`Act`] — sends the request, reads the stream,
//! sleeps — and hands back what came of it as an [`Input`]; every
//! [`Turn`] tells the subscriber's messages and the next act.

use crate::client::{
    at_least, backoff_span, because, bytes_taken, first_window, message_views, next_attempt,
    presented_by, retry_after, wait_after_end, waits, Cause, Link, LinkView, Message, MessageView,
    Options, Request, Status,
};
use crate::headers;
use crate::parse::ParserView;
use crate::protocol::opt_nanos;
use crate::text;
use crate::time::{elapsed, Duration};
use http::HeaderMap;
use vstd::prelude::*;

verus! {

/// Where a subscription is between two inputs.
#[derive(Debug, Clone, Copy, PartialEq, Eq, Structural)]
pub enum Phase {
    /// A request is in flight.
    Connecting,
    /// The stream is open.
    Reading {
        /// Since when.
        opened: Duration,
    },
    /// Waiting before the next attempt.
    Waiting,
}

/// What came of an act.
pub enum Input<'a> {
    /// The request could not be sent, or no head came within the limit.
    Unsent(String),
    /// The head of a response.
    Head {
        /// Its status code.
        status: u16,
        /// Its headers.
        headers: &'a HeaderMap,
    },
    /// Bytes of the open stream.
    Chunk(&'a [u8]),
    /// The read failed.
    Broken(String),
    /// The response ended.
    Ended,
    /// Nothing came within the limit that was given.
    Silent,
    /// The wait is over.
    Waited,
}

/// What to do next.
#[derive(Debug, PartialEq, Eq)]
pub enum Act {
    /// Send what [`Session::request`] gives, and wait for the head of the
    /// response no longer than [`Session::head_limit`].
    Request,
    /// Read the open stream, for no longer than the limit if there is one.
    Read(Option<Duration>),
    /// Wait.
    Sleep(Duration),
}

/// What one input leads to.
pub struct Turn {
    /// What the subscriber hears.
    pub messages: Vec<Message>,
    /// What to do next.
    pub act: Act,
}

impl Turn {
    /// Whether this tells of one status and goes on with `act`.
    pub open spec fn tells(self, status: Status, act: Act) -> bool {
        &&& message_views(self.messages@) == seq![MessageView::Status(status)]
        &&& self.act == act
    }

    /// Whether this is a wait of `after`, for a cause.
    pub open spec fn pauses(self, after: nat, cause: Cause) -> bool {
        &&& self.messages@.len() == 1
        &&& self.messages@[0] matches Message::Status(status) && waits(status, after) && because(
            status,
            cause,
        )
        &&& self.act matches Act::Sleep(wait) && wait@ == after
    }

    /// Whether this goes on reading, for no longer than a limit.
    pub open spec fn reads(self, limit: Option<nat>) -> bool {
        self.act matches Act::Read(window) && opt_nanos(window) == limit
    }
}

/// Whether an input can come of what a phase does.
pub open spec fn expects(phase: Phase, input: Input) -> bool {
    match input {
        Input::Unsent(_) | Input::Head { .. } => phase is Connecting,
        Input::Chunk(_) | Input::Broken(_) | Input::Ended | Input::Silent => phase is Reading,
        Input::Waited => phase is Waiting,
    }
}

/// A link whose stream has just opened.
pub open spec fn opened_link(l: LinkView, options: Options) -> LinkView {
    LinkView {
        parser: ParserView {
            last_event_id: text::non_empty(l.parser.last_event_id),
            ..ParserView::initial()
        },
        ping_seen: false,
        window: first_window(options.deadman),
        attempt: 0,
        ..l
    }
}

/// A link after one more failed attempt.
pub open spec fn tried_again(l: LinkView) -> LinkView {
    LinkView { attempt: next_attempt(l.attempt), ..l }
}

/// How long a silence may last.
pub open spec fn limit_of(l: LinkView) -> Option<nat> {
    if l.ping_seen {
        l.window
    } else {
        None
    }
}

/// A subscription.
pub struct Session {
    link: Link,
    phase: Phase,
}

impl Session {
    /// What it remembers.
    pub closed spec fn link(self) -> LinkView {
        self.link@
    }

    /// How it behaves.
    pub closed spec fn config(self) -> Options {
        self.link.config()
    }

    /// Where it is.
    pub closed spec fn at(self) -> Phase {
        self.phase
    }

    /// Begin: the first request goes out.
    pub fn start(options: Options) -> (r: (Self, Turn))
        ensures
            r.0.config() == options,
            r.0.at() == Phase::Connecting,
            r.0.link() == LinkView::fresh(options),
            r.1.tells(Status::Connecting, Act::Request),
    {
        let session = Session { link: Link::new(options), phase: Phase::Connecting };
        let turn = Self::told(Status::Connecting, Act::Request);
        (session, turn)
    }

    fn told(status: Status, act: Act) -> (t: Turn)
        ensures
            t.tells(status, act),
            t.messages@ == seq![Message::Status(status)],
    {
        let mut messages: Vec<Message> = Vec::new();
        messages.push(Message::Status(status));
        assert(message_views(messages@) =~= seq![MessageView::Status(status)]);
        Turn { messages, act }
    }

    /// What it remembers, for reading.
    pub fn memory(&self) -> (l: &Link)
        ensures
            l@ == self.link(),
            l.config() == self.config(),
    {
        &self.link
    }

    /// The cursor that the next request presents.
    pub fn request_cursor(&self) -> (id: Option<&str>)
        ensures
            text::opt_str(id) == presented_by(self.link(), self.config()),
    {
        self.link.request_cursor()
    }

    /// What the next request carries.
    pub fn request(&self) -> (r: Request<'_>)
        ensures
            r.accept@ == "text/event-stream"@,
            *r.headers == self.config().headers,
            text::opt_str(r.last_event_id) == presented_by(self.link(), self.config()),
    {
        self.link.request()
    }

    /// How long the head of the response to the next request may take. The
    /// stream that follows a head is under no such limit.
    pub fn head_limit(&self) -> (limit: Duration)
        ensures
            limit@ == self.config().connect_timeout@,
    {
        self.link.options().connect_timeout
    }

    /// Where it is.
    pub fn phase(&self) -> (p: Phase)
        ensures
            p == self.at(),
    {
        self.phase
    }

    /// One step. `draw` is for the jitter of a wait, `now` for how long a
    /// stream has lived.
    pub fn turn(&mut self, input: Input<'_>, draw: u64, now: &Duration) -> (t: Turn)
        requires
            expects(old(self).at(), input),
        ensures
            final(self).config() == old(self).config(),
            match input {
                Input::Unsent(why) | Input::Broken(why) => {
                    &&& final(self).at() == Phase::Waiting
                    &&& final(self).link() == tried_again(old(self).link())
                    &&& t.pauses(
                        backoff_span(old(self).config().backoff, old(self).link().attempt, draw),
                        Cause::Transport(why),
                    )
                },
                Input::Head { status, headers } => if status == 200 {
                    &&& final(self).at() == (Phase::Reading { opened: *now })
                    &&& final(self).link() == opened_link(old(self).link(), old(self).config())
                    &&& t.tells(Status::Live, Act::Read(None))
                } else {
                    &&& final(self).at() == Phase::Waiting
                    &&& final(self).link() == tried_again(old(self).link())
                    &&& t.pauses(
                        at_least(
                            backoff_span(
                                old(self).config().backoff,
                                old(self).link().attempt,
                                draw,
                            ),
                            retry_after(headers::first_values(*headers)),
                        ),
                        Cause::Http(status),
                    )
                },
                Input::Chunk(bytes) => {
                    &&& final(self).at() == old(self).at()
                    &&& (final(self).link(), message_views(t.messages@)) == bytes_taken(
                        old(self).link(),
                        bytes@,
                    )
                    &&& t.reads(limit_of(final(self).link()))
                },
                Input::Ended => {
                    &&& final(self).at() == Phase::Waiting
                    &&& final(self).link() == old(self).link()
                    &&& t.pauses(
                        wait_after_end(
                            old(self).config(),
                            old(self).link().retry_hint,
                            elapsed(now@, old(self).at()->opened@),
                            draw,
                        ),
                        Cause::Ended,
                    )
                },
                Input::Silent => {
                    &&& final(self).at() == Phase::Waiting
                    &&& final(self).link() == old(self).link()
                    &&& t.pauses(0, Cause::Deadman)
                },
                Input::Waited => {
                    &&& final(self).at() == Phase::Connecting
                    &&& final(self).link() == old(self).link()
                    &&& t.tells(Status::Connecting, Act::Request)
                },
            },
    {
        match input {
            Input::Unsent(why) | Input::Broken(why) => {
                let status = self.link.failed(why, draw);
                self.pause(status)
            },
            Input::Head { status, headers } => if status == 200 {
                self.link.opened();
                self.phase = Phase::Reading { opened: *now };
                Self::told(Status::Live, Act::Read(None))
            } else {
                let status = self.link.refused(status, headers, draw);
                self.pause(status)
            },
            Input::Chunk(bytes) => {
                let messages = self.link.take(bytes);
                let limit = self.link.silence_limit();
                Turn { messages, act: Act::Read(limit) }
            },
            Input::Ended => {
                let lived = match self.phase {
                    Phase::Reading { opened } => now.since(&opened),
                    _ => Duration::zero(),
                };
                let status = self.link.ended(lived, draw);
                self.pause(status)
            },
            Input::Silent => {
                let status = self.link.fell_silent();
                self.pause(status)
            },
            Input::Waited => {
                self.phase = Phase::Connecting;
                Self::told(Status::Connecting, Act::Request)
            },
        }
    }

    fn pause(&mut self, status: Status) -> (t: Turn)
        requires
            status is Retrying,
        ensures
            final(self).config() == old(self).config(),
            final(self).link() == old(self).link(),
            final(self).at() == Phase::Waiting,
            t.messages@ == seq![Message::Status(status)],
            t.act == Act::Sleep(status->after),
    {
        self.phase = Phase::Waiting;
        let after = match &status {
            Status::Retrying { after, .. } => *after,
            _ => Duration::zero(),
        };
        Self::told(status, Act::Sleep(after))
    }
}

/// The limit on the head bounds nothing else: whatever it is, a stream that
/// opens has no limit until its first `ping`, and is otherwise what it would
/// be under any other.
pub proof fn the_connect_timeout_bounds_the_head_alone(l: LinkView, a: Options, b: Options)
    requires
        b == (Options { connect_timeout: b.connect_timeout, ..a }),
    ensures
        limit_of(opened_link(l, a)) is None,
        opened_link(l, a) == opened_link(l, b),
        LinkView::fresh(a) == LinkView::fresh(b),
        presented_by(l, a) == presented_by(l, b),
        forall|lived: nat, draw: u64|
            wait_after_end(a, l.retry_hint, lived, draw) == #[trigger] wait_after_end(
                b,
                l.retry_hint,
                lived,
                draw,
            ),
{
}

/// A stream that opens goes on from the cursor that the client has: it keeps
/// the cursor and what the server hinted, starts a new parser, counts attempts
/// anew, and has no limit on silence before a `ping`.
pub proof fn an_opened_stream_keeps_the_cursor(l: LinkView, options: Options)
    requires
        l.parser.last_event_id matches Some(id) ==> id.len() > 0,
    ensures
        ({
            let after = opened_link(l, options);
            &&& after.parser.last_event_id == l.parser.last_event_id
            &&& after.parser.line.len() == 0 && after.parser.data.len() == 0
            &&& after.parser.event is None && after.parser.pending_id is None
            &&& after.parser.at_start && !after.parser.saw_cr
            &&& after.retry_hint == l.retry_hint
            &&& after.hints == l.hints
            &&& after.attempt == 0
            &&& !after.ping_seen
            &&& limit_of(after) is None
            &&& after.auto == l.auto
            &&& after.window == first_window(options.deadman)
        }),
{
}

/// A failed attempt changes nothing but the count.
pub proof fn a_failed_attempt_is_counted(l: LinkView)
    ensures
        tried_again(l).attempt >= l.attempt,
        l.attempt < 0xffff_ffff ==> tried_again(l).attempt == l.attempt + 1,
        tried_again(l) == (LinkView { attempt: tried_again(l).attempt, ..l }),
{
}

/// Silence is limited once a `ping` was heard, and then to the window.
pub proof fn silence_is_limited_after_a_ping(l: LinkView)
    ensures
        l.ping_seen ==> limit_of(l) == l.window,
        !l.ping_seen ==> limit_of(l) is None,
{
}

/// What a turn tells: one message, the status, and what to do next; a pause is
/// told as it is slept.
pub proof fn what_a_turn_tells(t: Turn, status: Status, act: Act, after: nat, cause: Cause, limit: Option<nat>)
    ensures
        t.tells(status, act) ==> t.messages@.len() == 1 && t.messages@[0] == Message::Status(status)
            && t.act == act,
        t.pauses(after, cause) ==> t.messages@.len() == 1 && t.messages@[0] is Status
            && t.messages@[0]->Status_0 is Retrying && t.messages@[0]->Status_0->after@ == after
            && t.messages@[0]->Status_0->cause == cause && t.act is Sleep && t.act->Sleep_0@
            == after,
        t.reads(limit) ==> t.act is Read && opt_nanos(t.act->Read_0) == limit,
{
    if t.tells(status, act) {
        let views = message_views(t.messages@);
        assert(views.len() == 1);
        assert(views[0] == t.messages@[0]@);
        assert(views[0] == MessageView::Status(status));
    }
}

/// An input can come of what a subscription does: of a request in flight that
/// it could not be sent or a head; of an open stream bytes, a failure, its end
/// or silence; of a wait that it is over.
pub proof fn what_can_come(opened: Duration, why: String, status: u16, headers: &HeaderMap, bytes: &[u8])
    ensures
        expects(Phase::Connecting, Input::Unsent(why)),
        expects(Phase::Connecting, Input::Head { status, headers }),
        expects((Phase::Reading { opened }), Input::Chunk(bytes)),
        expects((Phase::Reading { opened }), Input::Broken(why)),
        expects((Phase::Reading { opened }), Input::Ended),
        expects((Phase::Reading { opened }), Input::Silent),
        expects(Phase::Waiting, Input::Waited),
{
}

} // verus!
