//! The wire format: one [`Event`] is one SSE frame.

use crate::cursor::{self, Cursor};
use crate::text;
use crate::time::{Duration, NANOS_PER_MILLI};
use crate::wire;
use bytes::{Bytes, BytesMut};
use vstd::prelude::*;
use vstd::utf8;

verus! {

/// Keep-alive event name. Carries no `id`, so it never moves the client's
/// resume cursor.
pub const PING: &'static str = "ping";

/// Sent once, right after connect, when the server could not replay from
/// the client's `Last-Event-ID`. The client reloads a snapshot.
pub const RESYNC: &'static str = "resync";

/// The keep-alive interval the profile recommends and [`Event::ping`]
/// announces, seconds.
pub const PING_EVERY_SECS: u64 = 15;

/// Why a resume could not be served.
#[derive(Debug, Clone, Copy, PartialEq, Eq, Structural)]
pub enum ResyncReason {
    /// The id is older than what the log retains.
    Expired,
    /// The id is not one this server issued — a restart, a different
    /// deployment, or a malformed value.
    Unknown,
}

impl ResyncReason {
    /// The wire spelling.
    pub open spec fn text(self) -> Seq<char> {
        match self {
            ResyncReason::Expired => "expired"@,
            ResyncReason::Unknown => "unknown"@,
        }
    }

    /// The wire spelling (`expired` | `unknown`).
    pub fn as_str(self) -> (s: &'static str)
        ensures
            s@ == self.text(),
    {
        match self {
            ResyncReason::Expired => "expired",
            ResyncReason::Unknown => "unknown",
        }
    }
}

/// The payload of a `resync` frame: why the cursor could not be served, and
/// the oldest cursor that could have been, when there is one.
#[derive(Debug, PartialEq, Eq)]
pub struct Resync {
    /// Why the cursor could not be served.
    pub reason: ResyncReason,
    /// The oldest cursor the server could still have replayed from.
    pub earliest: Option<Cursor>,
}

/// A resync as its reason and the text of its cursor.
#[verifier::ext_equal]
pub struct ResyncView {
    pub reason: ResyncReason,
    pub earliest: Option<Seq<char>>,
}

impl View for Resync {
    type V = ResyncView;

    open spec fn view(&self) -> ResyncView {
        ResyncView { reason: self.reason, earliest: token_of(self.earliest) }
    }
}

impl Clone for Resync {
    fn clone(&self) -> (r: Self)
        ensures
            r == *self,
    {
        let earliest = match &self.earliest {
            Some(c) => Some(c.clone()),
            None => None,
        };
        Resync { reason: self.reason, earliest }
    }
}

/// The token of an optional cursor.
pub open spec fn token_of(c: Option<Cursor>) -> Option<Seq<char>> {
    match c {
        Some(c) => Some(c@),
        None => None,
    }
}

impl ResyncView {
    /// The JSON of the payload:
    /// `{"reason":"expired","earliest":"7f3a9c2e-47900"}`.
    pub open spec fn payload(self) -> Seq<char> {
        "{\"reason\":\""@ + self.reason.text() + "\",\"earliest\":"@ + (match self.earliest {
            Some(token) => "\""@ + token + "\"}"@,
            None => "null}"@,
        })
    }
}

impl Resync {
    /// The cursor was never issued by this server.
    pub fn unknown() -> (r: Resync)
        ensures
            r@ == (ResyncView { reason: ResyncReason::Unknown, earliest: None }),
    {
        Resync { reason: ResyncReason::Unknown, earliest: None }
    }

    /// The cursor can no longer be replayed from.
    pub fn expired(earliest: Option<Cursor>) -> (r: Resync)
        ensures
            r@ == (ResyncView { reason: ResyncReason::Expired, earliest: token_of(earliest) }),
            r.earliest == earliest,
    {
        Resync { reason: ResyncReason::Expired, earliest }
    }

    /// The payload as JSON.
    pub fn to_json(&self) -> (s: String)
        ensures
            s@ == self@.payload(),
            self@.earliest matches Some(token) ==> cursor::is_token(token),
    {
        let mut s = "{\"reason\":\"".to_owned();
        s.append(self.reason.as_str());
        s.append("\",\"earliest\":");
        let ghost head = s@;
        match &self.earliest {
            Some(c) => {
                s.append("\"");
                s.append(c.as_str());
                s.append("\"}");
                assert(s@ =~= head + ("\""@ + c@ + "\"}"@));
            },
            None => {
                s.append("null}");
            },
        }
        s
    }
}

/// The payload of a `ping` frame: the keep-alive interval and, when the
/// server rotates streams, their lifetime, both in whole seconds.
#[derive(Debug, Clone, Copy, PartialEq, Eq, Structural)]
pub struct Ping {
    /// The keep-alive interval.
    pub every: u64,
    /// The lifetime after which a healthy stream ends on purpose.
    pub max_age: Option<u64>,
}

impl Ping {
    /// The JSON of the payload: `{"every":15}` or `{"every":15,"max_age":30}`.
    pub open spec fn payload(self) -> Seq<char> {
        match self.max_age {
            Some(age) => "{\"every\":"@ + text::decimal(self.every as nat) + ",\"max_age\":"@
                + text::decimal(age as nat) + "}"@,
            None => "{\"every\":"@ + text::decimal(self.every as nat) + "}"@,
        }
    }

    /// The payload as JSON.
    pub fn to_json(&self) -> (s: String)
        ensures
            s@ == self.payload(),
    {
        let mut s = "{\"every\":".to_owned();
        text::push_decimal(&mut s, self.every as u128);
        if let Some(age) = self.max_age {
            s.append(",\"max_age\":");
            text::push_decimal(&mut s, age as u128);
        }
        s.append("}");
        s
    }
}

/// A character that JSON writes as itself inside a string.
pub open spec fn json_plain(s: Seq<char>) -> bool {
    forall|i: int|
        0 <= i < s.len() ==> ' ' <= #[trigger] s[i] <= '~' && s[i] != '"' && s[i] != '\\'
}

/// `serde_json::Value`'s `Display` of an object with a number and a text in
/// it: compact JSON with the keys in order. Stated for keys and a text that
/// need no escaping and keys that are in order as they are given.
#[verifier::external_body]
fn json_object(key_a: &str, number: u64, key_b: &str, word: &str) -> (r: String)
    requires
        json_plain(key_a@),
        json_plain(key_b@),
        json_plain(word@),
        key_a@.len() > 0,
        key_b@.len() > 0,
        key_a@[0] < key_b@[0],
    ensures
        r@ == "{\""@ + key_a@ + "\":"@ + text::decimal(number as nat) + ",\""@ + key_b@ + "\":\""@
            + word@ + "\"}"@,
{
    let mut object = serde_json::Map::new();
    object.insert(key_a.to_owned(), serde_json::Value::from(number));
    object.insert(key_b.to_owned(), serde_json::Value::from(word));
    serde_json::Value::Object(object).to_string()
}

/// One SSE frame. Build it with the chainable setters and encode with
/// [`Event::encode`]; every field is optional so the same type expresses a
/// data event, a bare `retry:` hint, or a comment.
#[derive(Debug, PartialEq, Eq)]
pub struct Event {
    /// `id:` — the resume cursor. Must not contain a newline or NUL.
    pub id: Option<String>,
    /// `event:` — the name a client listens to.
    pub name: Option<String>,
    /// `data:` — one `data:` line per line of text.
    pub data: Option<String>,
    /// `retry:` — reconnection delay hint for the browser's own retry.
    pub retry: Option<Duration>,
    /// `: …` — a comment line, invisible to `EventSource`.
    pub comment: Option<String>,
}

/// A frame as its texts; the delay in nanoseconds.
#[verifier::ext_equal]
pub struct EventView {
    pub id: Option<Seq<char>>,
    pub name: Option<Seq<char>>,
    pub data: Option<Seq<char>>,
    pub retry: Option<nat>,
    pub comment: Option<Seq<char>>,
}

/// An optional span in nanoseconds.
pub open spec fn opt_nanos(d: Option<Duration>) -> Option<nat> {
    match d {
        Some(d) => Some(d@),
        None => None,
    }
}

impl View for Event {
    type V = EventView;

    open spec fn view(&self) -> EventView {
        EventView {
            id: text::opt_text(self.id),
            name: text::opt_text(self.name),
            data: text::opt_text(self.data),
            retry: opt_nanos(self.retry),
            comment: text::opt_text(self.comment),
        }
    }
}

impl Clone for Event {
    fn clone(&self) -> (r: Self)
        ensures
            r == *self,
    {
        Event {
            id: text::opt_clone(&self.id),
            name: text::opt_clone(&self.name),
            data: text::opt_clone(&self.data),
            retry: self.retry,
            comment: text::opt_clone(&self.comment),
        }
    }
}

// ---------------------------------------------------------------------------
// The encoding
// ---------------------------------------------------------------------------

/// A character that could not stand in a single-line field.
pub open spec fn folds(c: char) -> bool {
    c == '\n' || c == '\r' || c == '\0'
}

/// A text as a single-line field holds it: line breaks and NULs are spaces.
pub open spec fn folded(s: Seq<char>) -> Seq<char> {
    s.map_values(
        |c: char|
            if folds(c) {
                ' '
            } else {
                c
            },
    )
}

/// An optional text as a single-line field holds it.
pub open spec fn opt_folded(s: Option<Seq<char>>) -> Option<Seq<char>> {
    match s {
        Some(s) => Some(folded(s)),
        None => None,
    }
}

/// The line of a field, when it is there.
pub open spec fn opt_line(label: Seq<char>, value: Option<Seq<char>>) -> Seq<Seq<char>> {
    match value {
        Some(value) => seq![label + value],
        None => seq![],
    }
}

/// A delay as the `retry:` field writes it: whole milliseconds.
pub open spec fn opt_millis(retry: Option<nat>) -> Option<Seq<char>> {
    match retry {
        Some(nanos) => Some(text::decimal(nanos / NANOS_PER_MILLI as nat)),
        None => None,
    }
}

/// One `data:` line per line of the payload.
pub open spec fn data_lines(data: Option<Seq<char>>) -> Seq<Seq<char>> {
    match data {
        Some(data) => text::lines(data).map_values(|line: Seq<char>| "data: "@ + line),
        None => seq![],
    }
}

impl EventView {
    /// A frame without fields.
    pub open spec fn empty() -> EventView {
        EventView { id: None, name: None, data: None, retry: None, comment: None }
    }

    /// The lines before the `data:` lines.
    pub open spec fn field_lines(self) -> Seq<Seq<char>> {
        opt_line("retry: "@, opt_millis(self.retry)) + opt_line("id: "@, opt_folded(self.id))
            + opt_line("event: "@, opt_folded(self.name))
    }

    /// The lines of the frame, in their fixed order; the last one is blank.
    pub open spec fn lines(self) -> Seq<Seq<char>> {
        self.field_lines() + data_lines(self.data) + opt_line(": "@, opt_folded(self.comment))
            + seq![seq![]]
    }

    /// The text of the frame.
    pub open spec fn text(self) -> Seq<char> {
        text::terminated(self.lines())
    }

    /// The wire bytes of the frame.
    pub open spec fn encoded(self) -> Seq<u8> {
        utf8::encode_utf8(self.text())
    }

    /// The frame fits a buffer.
    pub open spec fn fits(self) -> bool {
        self.encoded().len() <= wire::max_bytes()
    }

    /// The `resync` frame of a sequence-numbered log.
    pub open spec fn resync_seq(reason: ResyncReason, earliest_seq: u64) -> EventView {
        EventView {
            id: Some(seq![]),
            name: Some(RESYNC@),
            data: Some(
                "{\"earliest_seq\":"@ + text::decimal(earliest_seq as nat) + ",\"reason\":\""@
                    + reason.text() + "\"}"@,
            ),
            ..EventView::empty()
        }
    }

    /// The `resync` frame: an empty id, and the payload.
    pub open spec fn resync(resync: ResyncView) -> EventView {
        EventView {
            id: Some(seq![]),
            name: Some(RESYNC@),
            data: Some(resync.payload()),
            ..EventView::empty()
        }
    }

    /// The `ping` frame: no id, and the payload.
    pub open spec fn ping(ping: Ping) -> EventView {
        EventView { name: Some(PING@), data: Some(ping.payload()), ..EventView::empty() }
    }
}

/// `id:` and `event:` are single-line fields; a line break inside one would
/// forge a second field. Fold it to a space rather than trusting the caller.
pub fn strip_line_breaks(s: &str) -> (r: String)
    ensures
        r@ == folded(s@),
{
    let mut r = String::new();
    let chars = text::chars_of(s);
    let mut i: usize = 0;
    while i < chars.len()
        invariant
            chars@ == s@,
            i <= chars.len(),
            r@ == folded(s@).take(i as int),
        decreases chars.len() - i,
    {
        let c = chars[i];
        if c == '\n' || c == '\r' || c == '\0' {
            r.push(' ');
        } else {
            r.push(c);
        }
        i += 1;
        assert(folded(s@).take(i as int) =~= folded(s@).take(i - 1).push(folded(s@)[i - 1]));
    }
    assert(folded(s@).take(chars.len() as int) =~= folded(s@));
    r
}

/// Lines that lead a text take no more bytes than it does.
proof fn lemma_lead_fits(lead: Seq<Seq<char>>, rest: Seq<Seq<char>>)
    ensures
        utf8::encode_utf8(text::terminated(lead)).len() <= utf8::encode_utf8(
            text::terminated(lead + rest),
        ).len(),
{
    text::lemma_terminated_concat(lead, rest);
    text::lemma_encode_concat(text::terminated(lead), text::terminated(rest));
}

/// The places where six groups of lines can be parted.
proof fn lemma_regroup(
    a: Seq<Seq<char>>,
    b: Seq<Seq<char>>,
    c: Seq<Seq<char>>,
    d: Seq<Seq<char>>,
    e: Seq<Seq<char>>,
    f: Seq<Seq<char>>,
)
    ensures
        Seq::<Seq<char>>::empty() + a == a,
        a + (b + c + d + e + f) == a + b + c + d + e + f,
        a + b + (c + d + e + f) == a + b + c + d + e + f,
        a + b + c + (d + e + f) == a + b + c + d + e + f,
        a + b + c + d + (e + f) == a + b + c + d + e + f,
{
    assert(Seq::<Seq<char>>::empty() + a =~= a);
    assert(a + (b + c + d + e + f) =~= a + b + c + d + e + f);
    assert(a + b + (c + d + e + f) =~= a + b + c + d + e + f);
    assert(a + b + c + (d + e + f) =~= a + b + c + d + e + f);
    assert(a + b + c + d + (e + f) =~= a + b + c + d + e + f);
}

/// To push a line is to add a list of one.
proof fn lemma_push_is_add(lead: Seq<Seq<char>>, line: Seq<char>)
    ensures
        lead.push(line) == lead + seq![line],
{
    assert(lead.push(line) =~= lead + seq![line]);
}

/// Append one line: a label, a value and the line feed.
fn put_line(out: &mut BytesMut, label: &str, value: &str, Ghost(lead): Ghost<Seq<Seq<char>>>)
    requires
        wire::written(*old(out)) == utf8::encode_utf8(text::terminated(lead)),
        utf8::encode_utf8(text::terminated(lead.push(label@ + value@))).len() <= wire::max_bytes(),
    ensures
        wire::written(*final(out)) == utf8::encode_utf8(
            text::terminated(lead.push(label@ + value@)),
        ),
{
    proof {
        let line = label@ + value@;
        assert(lead.push(line).drop_last() =~= lead);
        text::lemma_encode_concat(text::terminated(lead), line.push('\n'));
        assert(line.push('\n') =~= line + seq!['\n']);
        text::lemma_encode_concat(line, seq!['\n']);
        text::lemma_encode_concat(label@, value@);
        text::lemma_encode_ascii_char('\n');
    }
    wire::put_slice(out, label.as_bytes());
    wire::put_slice(out, value.as_bytes());
    wire::put_u8(out, 10);
    proof {
        let line = label@ + value@;
        assert(wire::written(*out) =~= utf8::encode_utf8(text::terminated(lead)) + (
        utf8::encode_utf8(label@) + utf8::encode_utf8(value@) + seq![10u8]));
    }
}

/// Append the line of an optional field. `lead` stands in the buffer already,
/// `rest` is still to come.
fn put_opt(
    out: &mut BytesMut,
    label: &str,
    value: Option<String>,
    Ghost(lead): Ghost<Seq<Seq<char>>>,
    Ghost(rest): Ghost<Seq<Seq<char>>>,
)
    requires
        wire::written(*old(out)) == utf8::encode_utf8(text::terminated(lead)),
        utf8::encode_utf8(
            text::terminated(lead + opt_line(label@, text::opt_text(value)) + rest),
        ).len() <= wire::max_bytes(),
    ensures
        wire::written(*final(out)) == utf8::encode_utf8(
            text::terminated(lead + opt_line(label@, text::opt_text(value))),
        ),
{
    proof {
        lemma_lead_fits(lead + opt_line(label@, text::opt_text(value)), rest);
    }
    match value {
        Some(value) => {
            assert(lead.push(label@ + value@) =~= lead + seq![label@ + value@]);
            put_line(out, label, value.as_str(), Ghost(lead));
        },
        None => {
            assert(lead + seq![] =~= lead);
        },
    }
}

/// Append the `data:` lines of an optional payload.
fn put_data(
    out: &mut BytesMut,
    data: &Option<String>,
    Ghost(lead): Ghost<Seq<Seq<char>>>,
    Ghost(rest): Ghost<Seq<Seq<char>>>,
)
    requires
        wire::written(*old(out)) == utf8::encode_utf8(text::terminated(lead)),
        utf8::encode_utf8(
            text::terminated(lead + data_lines(text::opt_text(*data)) + rest),
        ).len() <= wire::max_bytes(),
    ensures
        wire::written(*final(out)) == utf8::encode_utf8(
            text::terminated(lead + data_lines(text::opt_text(*data))),
        ),
{
    let ghost d = data_lines(text::opt_text(*data));
    if let Some(data) = data {
        let lines = text::split_lines(data.as_str());
        let mut i: usize = 0;
        assert(text::texts(lines@).len() == d.len());
        assert(lead + d.take(0) =~= lead);
        while i < lines.len()
            invariant
                i <= lines.len(),
                lines.len() == d.len(),
                text::texts(lines@) == text::lines(data@),
                d == data_lines(Some(data@)),
                utf8::encode_utf8(text::terminated(lead + d + rest)).len() <= wire::max_bytes(),
                wire::written(*out) == utf8::encode_utf8(
                    text::terminated(lead + d.take(i as int)),
                ),
            decreases lines.len() - i,
        {
            proof {
                let value = lines@[i as int]@;
                assert(text::texts(lines@)[i as int] == value);
                assert(d[i as int] == "data: "@ + value);
                assert((lead + d.take(i as int)).push("data: "@ + value) =~= lead + d.take(i + 1));
                assert((lead + d.take(i + 1)) + (d.skip(i + 1) + rest) =~= lead + d + rest);
                lemma_lead_fits(lead + d.take(i + 1), d.skip(i + 1) + rest);
            }
            put_line(out, "data: ", lines[i].as_str(), Ghost(lead + d.take(i as int)));
            i += 1;
        }
        assert(d.take(i as int) =~= d);
    } else {
        assert(lead + d =~= lead);
    }
}

/// An optional text as a single-line field holds it.
fn fold_opt(s: &Option<String>) -> (r: Option<String>)
    ensures
        text::opt_text(r) == opt_folded(text::opt_text(*s)),
{
    match s {
        Some(s) => Some(strip_line_breaks(s.as_str())),
        None => None,
    }
}

impl Default for Event {
    fn default() -> (e: Self)
        ensures
            e@ == EventView::empty(),
    {
        Event { id: None, name: None, data: None, retry: None, comment: None }
    }
}

impl Event {
    /// An empty frame; set fields with the chainable setters.
    pub fn new() -> (e: Self)
        ensures
            e@ == EventView::empty(),
    {
        Event { id: None, name: None, data: None, retry: None, comment: None }
    }

    /// A frame with an `event:` name.
    pub fn named(name: &str) -> (e: Self)
        ensures
            e@ == (EventView { name: Some(name@), ..EventView::empty() }),
    {
        Event { name: Some(name.to_owned()), ..Event::new() }
    }

    /// A comment-only frame (`: text`).
    pub fn comment(words: &str) -> (e: Self)
        ensures
            e@ == (EventView { comment: Some(words@), ..EventView::empty() }),
    {
        Event { comment: Some(words.to_owned()), ..Event::new() }
    }

    /// The `resync` frame of a sequence-numbered log. `earliest_seq` is the
    /// oldest sequence the log still holds (0 when unknown).
    pub fn resync(reason: ResyncReason, earliest_seq: u64) -> (e: Self)
        ensures
            e@ == EventView::resync_seq(reason, earliest_seq),
    {
        proof {
            reveal_strlit("earliest_seq");
            reveal_strlit("reason");
            reveal_strlit("expired");
            reveal_strlit("unknown");
            reveal_strlit("");
        }
        let payload = json_object("earliest_seq", earliest_seq, "reason", reason.as_str());
        proof {
            reveal_strlit("{\"");
            reveal_strlit("\":");
            reveal_strlit(",\"");
            reveal_strlit("\":\"");
            reveal_strlit("{\"earliest_seq\":");
            reveal_strlit(",\"reason\":\"");
            assert("{\"earliest_seq\":"@ =~= "{\""@ + "earliest_seq"@ + "\":"@);
            assert(",\"reason\":\""@ =~= ",\""@ + "reason"@ + "\":\""@);
            assert(payload@ =~= "{\"earliest_seq\":"@ + text::decimal(earliest_seq as nat)
                + ",\"reason\":\""@ + reason.text() + "\"}"@);
        }
        // An EMPTY `id:` resets the browser's last event id (WHATWG), so its
        // own next retry does not resend the cursor this frame rejected.
        let e = Event::named(RESYNC).id("").data(payload.as_str());
        assert(e@.id->0 =~= seq![]);
        e
    }

    /// The `resync` frame for a failed resume.
    pub fn resync_of(resync: &Resync) -> (e: Self)
        ensures
            e@ == EventView::resync(resync@),
            e@.fits(),
    {
        proof {
            reveal_strlit("");
        }
        let e = Event::named(RESYNC).id("").data(resync.to_json().as_str());
        proof {
            assert(e@.id->0 =~= seq![]);
            resyncs_fit(resync@);
        }
        e
    }

    /// The keep-alive frame: `event: ping` carrying the interval in seconds
    /// (`{"every":15}`).
    pub fn ping() -> (e: Self)
        ensures
            e@ == EventView::ping((Ping { every: PING_EVERY_SECS, max_age: None })),
    {
        Event::ping_every(PING_EVERY_SECS)
    }

    /// The keep-alive frame carrying a specific interval in seconds:
    /// `{"every":<secs>}`.
    pub fn ping_every(every_secs: u64) -> (e: Self)
        ensures
            e@ == EventView::ping((Ping { every: every_secs, max_age: None })),
    {
        Event::ping_with(every_secs, None)
    }

    /// The keep-alive frame announcing the interval and, when the server
    /// rotates streams, the lifetime after which a healthy stream ends on
    /// purpose: `{"every":15,"max_age":30}`. Both in whole seconds; `None`
    /// announces no rotation.
    pub fn ping_with(every_secs: u64, max_age_secs: Option<u64>) -> (e: Self)
        ensures
            e@ == EventView::ping((Ping { every: every_secs, max_age: max_age_secs })),
    {
        Event::ping_of(&Ping { every: every_secs, max_age: max_age_secs })
    }

    /// The keep-alive frame of a payload.
    pub fn ping_of(ping: &Ping) -> (e: Self)
        ensures
            e@ == EventView::ping(*ping),
    {
        Event::named(PING).data(ping.to_json().as_str())
    }

    /// Set `id:`.
    pub fn id(self, id: &str) -> (e: Self)
        ensures
            e@ == (EventView { id: Some(id@), ..self@ }),
    {
        Event { id: Some(id.to_owned()), ..self }
    }

    /// Set `id:` from a sequence number.
    pub fn seq(self, seq: u64) -> (e: Self)
        ensures
            e@ == (EventView { id: Some(text::decimal(seq as nat)), ..self@ }),
    {
        Event { id: Some(text::decimal_text(seq as u128)), ..self }
    }

    /// Set `id:` from the cursor the log issued; `None` (a live event the log
    /// could not take) leaves the frame without one.
    pub fn cursor(self, cursor: Option<Cursor>) -> (e: Self)
        ensures
            e@ == (EventView { id: token_of(cursor), ..self@ }),
    {
        let id = match cursor {
            Some(c) => Some(c.to_text()),
            None => None,
        };
        Event { id, ..self }
    }

    /// Set `event:`.
    pub fn name(self, name: &str) -> (e: Self)
        ensures
            e@ == (EventView { name: Some(name@), ..self@ }),
    {
        Event { name: Some(name.to_owned()), ..self }
    }

    /// Set `data:` from text. Multi-line text becomes several `data:` lines.
    pub fn data(self, data: &str) -> (e: Self)
        ensures
            e@ == (EventView { data: Some(data@), ..self@ }),
    {
        Event { data: Some(data.to_owned()), ..self }
    }

    /// Set `retry:` (milliseconds on the wire).
    pub fn retry(self, delay: Duration) -> (e: Self)
        ensures
            e@ == (EventView { retry: Some(delay@), ..self@ }),
    {
        Event { retry: Some(delay), ..self }
    }

    /// True when the frame carries an `id:` — i.e. it moves the cursor.
    pub fn has_id(&self) -> (r: bool)
        ensures
            r == self@.id is Some,
    {
        self.id.is_some()
    }

    /// Encode as wire bytes, terminated by the blank line.
    ///
    /// Field order is `retry`, `id`, `event`, `data`, comment — the
    /// specification does not require an order, but a fixed one keeps the
    /// golden vectors stable across implementations.
    pub fn encode(&self) -> (bytes: Bytes)
        requires
            self@.fits(),
        ensures
            wire::content(bytes) == self@.encoded(),
    {
        let room: usize = match &self.data {
            Some(data) => data.as_str().as_bytes().len(),
            None => 0,
        };
        let mut out = wire::buffer(
            if room <= 0x1000_0000 {
                64 + room
            } else {
                64
            },
        );
        let ghost ev = self@;
        let ghost a = opt_line("retry: "@, opt_millis(ev.retry));
        let ghost b = opt_line("id: "@, opt_folded(ev.id));
        let ghost c = opt_line("event: "@, opt_folded(ev.name));
        let ghost d = data_lines(ev.data);
        let ghost e = opt_line(": "@, opt_folded(ev.comment));
        let ghost f: Seq<Seq<char>> = seq![seq![]];
        proof {
            assert(wire::written(out) =~= utf8::encode_utf8(text::terminated(Seq::empty())));
            lemma_regroup(a, b, c, d, e, f);
            assert(ev.lines() == a + b + c + d + e + f);
        }
        let retry = match self.retry {
            Some(retry) => Some(text::decimal_text(retry.as_millis())),
            None => None,
        };
        put_opt(&mut out, "retry: ", retry, Ghost(Seq::empty()), Ghost(b + c + d + e + f));
        put_opt(&mut out, "id: ", fold_opt(&self.id), Ghost(a), Ghost(c + d + e + f));
        put_opt(&mut out, "event: ", fold_opt(&self.name), Ghost(a + b), Ghost(d + e + f));
        put_data(&mut out, &self.data, Ghost(a + b + c), Ghost(e + f));
        put_opt(&mut out, ": ", fold_opt(&self.comment), Ghost(a + b + c + d), Ghost(f));
        proof {
            reveal_strlit("");
            assert(""@ + ""@ =~= Seq::<char>::empty());
            lemma_push_is_add(a + b + c + d + e, Seq::<char>::empty());
        }
        put_line(&mut out, "", "", Ghost(a + b + c + d + e));
        wire::freeze(out)
    }
}

// ---------------------------------------------------------------------------
// Size
// ---------------------------------------------------------------------------

/// The characters of an optional text.
pub open spec fn opt_len(s: Option<Seq<char>>) -> nat {
    match s {
        Some(s) => s.len(),
        None => 0,
    }
}

impl EventView {
    /// The characters of all texts of the frame.
    pub open spec fn weight(self) -> nat {
        opt_len(self.id) + opt_len(self.name) + opt_len(self.data) + opt_len(self.comment)
    }
}

proof fn lemma_opt_line_len(label: Seq<char>, value: Option<Seq<char>>)
    ensures
        text::terminated(opt_line(label, value)).len() <= label.len() + opt_len(value) + 1,
{
    match value {
        Some(value) => text::lemma_terminated_one(label + value),
        None => {},
    }
}

proof fn lemma_data_len(line: Seq<char>, s: Seq<char>)
    ensures
        text::terminated(
            text::lines_from(line, s).map_values(|line: Seq<char>| "data: "@ + line),
        ).len() <= line.len() + 7 + 7 * s.len(),
    decreases s.len(),
{
    reveal_strlit("data: ");
    let label = |line: Seq<char>| "data: "@ + line;
    let one = seq![line];
    assert(one.map_values(label) =~= seq!["data: "@ + line]);
    text::lemma_terminated_one("data: "@ + line);
    if s.len() == 0 {
    } else if text::is_break(s[0]) {
        let n: int = if s.len() > 1 && s[0] == '\r' && s[1] == '\n' {
            2
        } else {
            1
        };
        let rest = text::lines_from(seq![], s.skip(n));
        lemma_data_len(seq![], s.skip(n));
        assert((one + rest).map_values(label) =~= one.map_values(label) + rest.map_values(label));
        text::lemma_terminated_concat(one.map_values(label), rest.map_values(label));
    } else {
        lemma_data_len(line.push(s[0]), s.skip(1));
    }
}

/// A frame whose texts are not of the order of the machine's whole memory
/// fits a buffer.
pub proof fn small_frames_fit(ev: EventView)
    requires
        ev.weight() <= isize::MAX / 64,
        ev.retry matches Some(nanos) ==> nanos <= u128::MAX,
    ensures
        ev.fits(),
{
    reveal_strlit("retry: ");
    reveal_strlit("id: ");
    reveal_strlit("event: ");
    reveal_strlit(": ");
    let a = opt_line("retry: "@, opt_millis(ev.retry));
    let b = opt_line("id: "@, opt_folded(ev.id));
    let c = opt_line("event: "@, opt_folded(ev.name));
    let d = data_lines(ev.data);
    let e = opt_line(": "@, opt_folded(ev.comment));
    let f: Seq<Seq<char>> = seq![seq![]];
    text::lemma_terminated_concat(a, b);
    text::lemma_terminated_concat(a + b, c);
    text::lemma_terminated_concat(a + b + c, d);
    text::lemma_terminated_concat(a + b + c + d, e);
    text::lemma_terminated_concat(a + b + c + d + e, f);
    lemma_opt_line_len("retry: "@, opt_millis(ev.retry));
    lemma_opt_line_len("id: "@, opt_folded(ev.id));
    lemma_opt_line_len("event: "@, opt_folded(ev.name));
    lemma_opt_line_len(": "@, opt_folded(ev.comment));
    text::lemma_terminated_one(Seq::<char>::empty());
    if let Some(nanos) = ev.retry {
        text::lemma_decimal_len(nanos / NANOS_PER_MILLI as nat);
    }
    if let Some(data) = ev.data {
        lemma_data_len(seq![], data);
    }
    text::lemma_encode_len_bound(ev.text());
}

/// A `resync` frame fits a buffer.
pub proof fn resyncs_fit(resync: ResyncView)
    requires
        resync.earliest matches Some(token) ==> cursor::is_token(token),
    ensures
        EventView::resync(resync).fits(),
{
    reveal_strlit("{\"reason\":\"");
    reveal_strlit("\",\"earliest\":");
    reveal_strlit("\"");
    reveal_strlit("\"}");
    reveal_strlit("null}");
    reveal_strlit("expired");
    reveal_strlit("unknown");
    reveal_strlit("resync");
    if let Some(token) = resync.earliest {
        text::lemma_encode_len(token);
    }
    small_frames_fit(EventView::resync(resync));
}

/// How many bytes an optional text has.
fn opt_bytes(s: &Option<String>) -> (n: u128)
    ensures
        opt_len(text::opt_text(*s)) <= n <= 4 * opt_len(text::opt_text(*s)),
        n <= usize::MAX,
{
    match s {
        Some(s) => {
            proof {
                text::lemma_encode_len(s@);
                text::lemma_encode_len_bound(s@);
            }
            s.as_str().as_bytes().len() as u128
        },
        None => 0,
    }
}

impl Event {
    /// Whether the frame certainly fits a buffer; only texts of the order of
    /// the machine's whole memory do not.
    pub fn is_encodable(&self) -> (r: bool)
        ensures
            r ==> self@.fits(),
            4 * self@.weight() <= isize::MAX / 64 ==> r,
    {
        let bytes: u128 = opt_bytes(&self.id) + opt_bytes(&self.name) + opt_bytes(&self.data)
            + opt_bytes(&self.comment);
        let r: bool = bytes <= (isize::MAX / 64) as u128;
        proof {
            if r {
                if let Some(d) = self.retry {
                    crate::time::spans_are_bounded(d);
                }
                small_frames_fit(self@);
            }
        }
        r
    }
}

// ---------------------------------------------------------------------------
// Laws
// ---------------------------------------------------------------------------

/// A single-line field holds its text as it is, character for character, but
/// for a space in place of every line feed, carriage return and NUL.
pub proof fn folding_keeps_everything_else(s: Seq<char>)
    ensures
        folded(s).len() == s.len(),
        forall|i: int|
            0 <= i < s.len() ==> #[trigger] folded(s)[i] == if s[i] == '\n' || s[i] == '\r' || s[i]
                == '\0' {
                ' '
            } else {
                s[i]
            },
{
}

/// A field line as it is written, when the field is there.
pub open spec fn written_line(label: Seq<char>, value: Option<Seq<char>>) -> Seq<char> {
    match value {
        Some(value) => label + value + seq!['\n'],
        None => seq![],
    }
}

proof fn lemma_written_line(label: Seq<char>, value: Option<Seq<char>>)
    ensures
        text::terminated(opt_line(label, value)) == written_line(label, value),
{
    match value {
        Some(value) => {
            text::lemma_terminated_one(label + value);
            assert((label + value).push('\n') =~= label + value + seq!['\n']);
        },
        None => {
            assert(text::terminated(Seq::<Seq<char>>::empty()) =~= Seq::<char>::empty());
        },
    }
}

/// A frame as it is written: `retry:`, `id:`, `event:`, `data:` and the
/// comment, in this order and each only when it is there, every line with its
/// line feed, and a blank line at the end. Of a payload without line breaks
/// there is one `data:` line.
pub proof fn a_frame_is_written_line_by_line(ev: EventView)
    requires
        ev.data matches Some(data) ==> text::single_line(data),
    ensures
        ev.text() == written_line(
            "retry: "@,
            match ev.retry {
                Some(nanos) => Some(text::decimal(nanos / 1_000_000)),
                None => None,
            },
        ) + written_line("id: "@, opt_folded(ev.id)) + written_line(
            "event: "@,
            opt_folded(ev.name),
        ) + written_line("data: "@, ev.data) + written_line(": "@, opt_folded(ev.comment)) + seq![
            '\n',
        ],
        ev.encoded() == utf8::encode_utf8(ev.text()),
{
    let a = opt_line("retry: "@, opt_millis(ev.retry));
    let b = opt_line("id: "@, opt_folded(ev.id));
    let c = opt_line("event: "@, opt_folded(ev.name));
    let d = data_lines(ev.data);
    let e = opt_line(": "@, opt_folded(ev.comment));
    let f: Seq<Seq<char>> = seq![seq![]];
    text::lemma_terminated_concat(a, b);
    text::lemma_terminated_concat(a + b, c);
    text::lemma_terminated_concat(a + b + c, d);
    text::lemma_terminated_concat(a + b + c + d, e);
    text::lemma_terminated_concat(a + b + c + d + e, f);
    text::lemma_terminated_one(Seq::<char>::empty());
    assert(Seq::<char>::empty().push('\n') =~= seq!['\n']);
    lemma_written_line("retry: "@, opt_millis(ev.retry));
    lemma_written_line("id: "@, opt_folded(ev.id));
    lemma_written_line("event: "@, opt_folded(ev.name));
    lemma_written_line("data: "@, ev.data);
    lemma_written_line(": "@, opt_folded(ev.comment));
    if let Some(data) = ev.data {
        assert forall|i: int| 0 <= i < data.len() implies data[i] != '\n' && #[trigger] data[i]
            != '\r' by {
            assert(!text::is_break(data[i]));
        }
        text::line_breaks_end_lines(data, Seq::empty());
        assert(d =~= seq!["data: "@ + data]);
    }
    assert(ev.lines() == a + b + c + d + e + f);
}

/// A `resync` frame resets the id, names itself, and says why and from where
/// on.
pub proof fn a_resync_is_written_so(resync: ResyncView)
    requires
        resync.earliest matches Some(token) ==> cursor::is_token(token),
    ensures
        EventView::resync(resync).text() == "id: "@ + seq!['\n'] + "event: resync"@ + seq!['\n']
            + "data: {\"reason\":\""@ + (match resync.reason {
            ResyncReason::Expired => "expired"@,
            ResyncReason::Unknown => "unknown"@,
        }) + "\",\"earliest\":"@ + (match resync.earliest {
            Some(token) => seq!['"'] + token + seq!['"'],
            None => "null"@,
        }) + "}"@ + seq!['\n', '\n'],
{
    let ev = EventView::resync(resync);
    reveal_strlit("{\"reason\":\"");
    reveal_strlit("\",\"earliest\":");
    reveal_strlit("\"");
    reveal_strlit("\"}");
    reveal_strlit("null}");
    reveal_strlit("null");
    reveal_strlit("}");
    reveal_strlit("expired");
    reveal_strlit("unknown");
    reveal_strlit("id: ");
    reveal_strlit("event: ");
    reveal_strlit("event: resync");
    reveal_strlit("resync");
    reveal_strlit("data: ");
    reveal_strlit("data: {\"reason\":\"");
    let data = resync.payload();
    assert forall|i: int| 0 <= i < data.len() implies !text::is_break(#[trigger] data[i]) by {
        if let Some(token) = resync.earliest {
            assert forall|j: int| 0 <= j < token.len() implies !text::is_break(
                #[trigger] token[j],
            ) by {
                assert(cursor::unreserved(token[j]));
            }
        }
    }
    a_frame_is_written_line_by_line(ev);
    assert(folded(Seq::<char>::empty()) =~= Seq::<char>::empty());
    assert(folded(RESYNC@) =~= RESYNC@);
    assert(ev.text() =~= "id: "@ + seq!['\n'] + "event: resync"@ + seq!['\n']
        + "data: {\"reason\":\""@ + (match resync.reason {
        ResyncReason::Expired => "expired"@,
        ResyncReason::Unknown => "unknown"@,
    }) + "\",\"earliest\":"@ + (match resync.earliest {
        Some(token) => seq!['"'] + token + seq!['"'],
        None => "null"@,
    }) + "}"@ + seq!['\n', '\n']);
}

/// A `ping` frame carries no id; it names itself, and tells the interval and
/// the age, if there is one, in seconds.
pub proof fn a_ping_is_written_so(ping: Ping)
    ensures
        EventView::ping(ping).text() == "event: ping"@ + seq!['\n'] + "data: {\"every\":"@
            + text::decimal(ping.every as nat) + (match ping.max_age {
            Some(age) => ",\"max_age\":"@ + text::decimal(age as nat),
            None => seq![],
        }) + "}"@ + seq!['\n', '\n'],
{
    let ev = EventView::ping(ping);
    reveal_strlit("{\"every\":");
    reveal_strlit(",\"max_age\":");
    reveal_strlit("}");
    reveal_strlit("event: ");
    reveal_strlit("ping");
    reveal_strlit("event: ping");
    reveal_strlit("data: ");
    reveal_strlit("data: {\"every\":");
    let data = ping.payload();
    text::lemma_decimal(ping.every as nat);
    if let Some(age) = ping.max_age {
        text::lemma_decimal(age as nat);
    }
    assert forall|i: int| 0 <= i < data.len() implies !text::is_break(#[trigger] data[i]) by {
        let d = text::decimal(ping.every as nat);
        assert forall|j: int| 0 <= j < d.len() implies !text::is_break(#[trigger] d[j]) by {
            assert(text::is_digit(d[j]));
        }
        if let Some(age) = ping.max_age {
            let a = text::decimal(age as nat);
            assert forall|j: int| 0 <= j < a.len() implies !text::is_break(#[trigger] a[j]) by {
                assert(text::is_digit(a[j]));
            }
        }
    }
    a_frame_is_written_line_by_line(ev);
    assert(folded(PING@) =~= PING@);
    assert(ev.text() =~= "event: ping"@ + seq!['\n'] + "data: {\"every\":"@ + text::decimal(
        ping.every as nat,
    ) + (match ping.max_age {
        Some(age) => ",\"max_age\":"@ + text::decimal(age as nat),
        None => seq![],
    }) + "}"@ + seq!['\n', '\n']);
}

} // verus!
