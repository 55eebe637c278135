//! The payloads of `ping` and `resync`, read back. Each is one JSON object; a
//! member that the reader does not know is passed over, and of two with one
//! name the first counts. A `resync` that is anything else says nothing; in a
//! `ping` that is anything else the keys are searched for.

use crate::cursor::{self, Cursor};
use crate::json::{self, Member};
use crate::protocol::{opt_nanos, Ping, Resync, ResyncReason, ResyncView};
use crate::text;
use crate::time::{Duration, NANOS_PER_SEC};
use vstd::prelude::*;

verus! {

/// What the server announced in its `ping` on the current (or last)
/// connection. Informational: the reconnect policy does not change for it.
#[derive(Debug, Clone, Copy, PartialEq, Eq, Structural)]
pub struct ServerHints {
    /// `{"every": n}` — the keep-alive interval.
    pub ping_every: Option<Duration>,
    /// `{"max_age": n}` — the lifetime after which the server ends a
    /// healthy stream on purpose (rotation); `None` when it announces none.
    pub max_age: Option<Duration>,
}

/// The hints in nanoseconds.
#[verifier::ext_equal]
pub struct HintsView {
    pub ping_every: Option<nat>,
    pub max_age: Option<nat>,
}

impl View for ServerHints {
    type V = HintsView;

    open spec fn view(&self) -> HintsView {
        HintsView { ping_every: opt_nanos(self.ping_every), max_age: opt_nanos(self.max_age) }
    }
}

impl Default for ServerHints {
    fn default() -> (h: Self)
        ensures
            h@ == (HintsView { ping_every: None, max_age: None }),
    {
        ServerHints { ping_every: None, max_age: None }
    }
}

/// The number that a text starts with.
pub open spec fn leading_number(s: Seq<char>) -> Option<u64> {
    text::digits_to_u64(s.take(json::digit_run(s) as int))
}

/// What follows the first occurrence of a quoted key and a colon, white space
/// aside.
pub open spec fn text_after(data: Seq<char>, quoted_key: Seq<char>) -> Option<Seq<char>> {
    match text::find_from(data, quoted_key, 0) {
        Some(i) => {
            let rest = text::trim_start(data.skip((i + quoted_key.len()) as int));
            if json::starts(rest, ':') {
                Some(text::trim_start(rest.skip(1)))
            } else {
                None
            }
        },
        None => None,
    }
}

/// What stands under a name: the value of the first such member of an object;
/// in a text that is no object, all that follows the first occurrence of the
/// key.
pub open spec fn text_under(data: Seq<char>, quoted_key: Seq<char>) -> Option<Seq<char>> {
    if json::is_object(data) {
        json::member_value(data, quoted_key)
    } else {
        text_after(data, quoted_key)
    }
}

/// The positive number of seconds under a name, in nanoseconds.
pub open spec fn secs_under(data: Seq<char>, quoted_key: Seq<char>) -> Option<nat> {
    match text_under(data, quoted_key) {
        Some(value) => match leading_number(value) {
            Some(secs) => announced(secs),
            None => None,
        },
        None => None,
    }
}

/// A number of seconds as a hint: zero announces nothing.
pub open spec fn announced(secs: u64) -> Option<nat> {
    if secs > 0 {
        Some((secs * NANOS_PER_SEC) as nat)
    } else {
        None
    }
}

/// The sequence number under a name.
pub open spec fn number_under(data: Seq<char>, quoted_key: Seq<char>) -> Option<u64> {
    match json::member_value(data, quoted_key) {
        Some(value) => text::digits_to_u64(value),
        None => None,
    }
}

/// What stands between the first quote of a string and the next, as it is
/// written.
pub open spec fn unquoted(value: Seq<char>) -> Option<Seq<char>> {
    if json::starts(value, '"') {
        let rest = value.skip(1);
        Some(rest.take(text::span_until(rest, '"') as int))
    } else {
        None
    }
}

/// The text of the string under a name.
pub open spec fn string_under(data: Seq<char>, quoted_key: Seq<char>) -> Option<Seq<char>> {
    match json::member_value(data, quoted_key) {
        Some(value) => unquoted(value),
        None => None,
    }
}

/// What a `ping` payload announces.
pub open spec fn ping_hints(data: Seq<char>) -> HintsView {
    HintsView {
        ping_every: secs_under(data, "\"every\""@),
        max_age: secs_under(data, "\"max_age\""@),
    }
}

/// What a `resync` payload with a sequence number says: `unknown` and 0 for
/// anything malformed.
pub open spec fn resync_fields(data: Seq<char>) -> (Seq<char>, u64) {
    (
        match string_under(data, "\"reason\""@) {
            Some(reason) => reason,
            None => "unknown"@,
        },
        match number_under(data, "\"earliest_seq\""@) {
            Some(n) => n,
            None => 0,
        },
    )
}

/// What a `resync` payload with a cursor says: `unknown` for any reason but
/// `expired`, and no cursor where none can be read.
pub open spec fn resync_read(data: Seq<char>) -> ResyncView {
    ResyncView {
        reason: if string_under(data, "\"reason\""@) == Some("expired"@) {
            ResyncReason::Expired
        } else {
            ResyncReason::Unknown
        },
        earliest: match string_under(data, "\"earliest\""@) {
            Some(token) => if cursor::verdict(token) is Ok {
                Some(token)
            } else {
                None
            },
            None => None,
        },
    }
}

/// The value under `"key"` in a JSON object, as it is written — `quoted_key`
/// carries its own quotes. `None` when there is no such member, or no object.
pub fn json_member<'a>(data: &'a str, quoted_key: &str) -> (r: Option<&'a str>)
    ensures
        text::opt_str(r) == json::member_value(data@, quoted_key@),
        !json::is_object(data@) ==> r is None,
{
    let chars = text::chars_of(data);
    let key = text::chars_of(quoted_key);
    match json::find_value(&chars, &key) {
        json::Found::Value { from, to } => Some(data.substring_char(from, to)),
        _ => None,
    }
}

/// The value under `"key"` in a JSON object — `quoted_key` carries its own
/// quotes. In a text that is no object, the text after `"key":`.
pub fn json_value<'a>(data: &'a str, quoted_key: &str) -> (r: Option<&'a str>)
    ensures
        text::opt_str(r) == text_under(data@, quoted_key@),
{
    let chars = text::chars_of(data);
    let key = text::chars_of(quoted_key);
    let n: usize = chars.len();
    match json::find_value(&chars, &key) {
        json::Found::Value { from, to } => Some(data.substring_char(from, to)),
        json::Found::NoMember => None,
        json::Found::NoObject => match text::find_text(&chars, &key) {
            Some(i) => {
                let from: usize = text::skip_space(&chars, i + key.len(), n);
                assert(chars@.subrange(i + key.len(), n as int) =~= data@.skip(i + key@.len()));
                if from < n && chars[from] == ':' {
                    let ghost rest = chars@.subrange(from as int, n as int);
                    let at: usize = text::skip_space(&chars, from + 1, n);
                    assert(chars@.subrange(from + 1, n as int) =~= rest.skip(1));
                    Some(data.substring_char(at, n))
                } else {
                    None
                }
            },
            None => None,
        },
    }
}

/// The leading run of digits of `value` as a number; `None` when there is
/// none.
pub fn json_digits(value: &str) -> (r: Option<u64>)
    ensures
        r == leading_number(value@),
{
    let chars = text::chars_of(value);
    let n: usize = chars.len();
    let len: usize = json::skip_digits(&chars, 0, n);
    assert(chars@.subrange(0, n as int) =~= value@);
    assert(chars@.subrange(0, len as int) =~= value@.take(len as int));
    text::parse_digits(&chars, 0, len)
}

/// A positive whole-second field, or `None`.
pub fn json_secs(data: &str, quoted_key: &str) -> (r: Option<Duration>)
    ensures
        opt_nanos(r) == secs_under(data@, quoted_key@),
{
    match json_value(data, quoted_key) {
        Some(value) => match json_digits(value) {
            Some(secs) => if secs > 0 {
                Some(Duration::from_secs(secs))
            } else {
                None
            },
            None => None,
        },
        None => None,
    }
}

/// A sequence number of a JSON object, or `None`.
pub fn json_number(data: &str, quoted_key: &str) -> (r: Option<u64>)
    ensures
        r == number_under(data@, quoted_key@),
{
    match json_member(data, quoted_key) {
        Some(value) => {
            let chars = text::chars_of(value);
            assert(chars@.subrange(0, chars.len() as int) =~= value@);
            text::parse_digits(&chars, 0, chars.len())
        },
        None => None,
    }
}

/// A string field of a JSON object, as it is written up to the next quote, or
/// `None`.
pub fn json_string(data: &str, quoted_key: &str) -> (r: Option<String>)
    ensures
        text::opt_text(r) == string_under(data@, quoted_key@),
{
    match json_member(data, quoted_key) {
        Some(value) => {
            let chars = text::chars_of(value);
            let n: usize = chars.len();
            if n > 0 && chars[0] == '"' {
                let end: usize = text::find_char(&chars, 1, n, '"');
                let r = text::string_of(&chars, 1, end);
                assert(chars@.subrange(1, n as int) =~= value@.skip(1));
                assert(r@ =~= value@.skip(1).take(end - 1));
                Some(r)
            } else {
                None
            }
        },
        None => None,
    }
}

/// The `ping` payload's hints: `{"every":15,"max_age":30}`, either field
/// optional, zero meaning absent.
pub fn parse_ping(data: &str) -> (h: ServerHints)
    ensures
        h@ == ping_hints(data@),
{
    ServerHints {
        ping_every: json_secs(data, "\"every\""),
        max_age: json_secs(data, "\"max_age\""),
    }
}

/// `{"reason":"expired","earliest_seq":9}` — the reason and the oldest
/// sequence the server still holds; `unknown` / 0 for anything malformed.
pub fn parse_resync(data: &str) -> (r: (String, u64))
    ensures
        (r.0@, r.1) == resync_fields(data@),
        !json::is_object(data@) ==> r.0@ == "unknown"@ && r.1 == 0,
{
    let reason = match json_string(data, "\"reason\"") {
        Some(reason) => reason,
        None => "unknown".to_owned(),
    };
    let earliest_seq: u64 = match json_number(data, "\"earliest_seq\"") {
        Some(n) => n,
        None => 0,
    };
    (reason, earliest_seq)
}

impl Resync {
    /// Read a payload: `{"reason":"expired","earliest":"7f3a9c2e-47900"}`.
    /// Anything malformed is the reason `unknown` and no cursor.
    pub fn from_json(data: &str) -> (r: Resync)
        ensures
            r@ == resync_read(data@),
            !json::is_object(data@) ==> r@ == (ResyncView {
                reason: ResyncReason::Unknown,
                earliest: None,
            }),
    {
        let reason = match json_string(data, "\"reason\"") {
            Some(reason) => if text::text_eq(reason.as_str(), "expired") {
                ResyncReason::Expired
            } else {
                ResyncReason::Unknown
            },
            None => ResyncReason::Unknown,
        };
        let earliest = match json_string(data, "\"earliest\"") {
            Some(token) => match Cursor::from_string(token) {
                Ok(c) => Some(c),
                Err(_) => None,
            },
            None => None,
        };
        Resync { reason, earliest }
    }
}

// ---------------------------------------------------------------------------
// Laws
// ---------------------------------------------------------------------------

/// A `resync` that is not an object says nothing: it is `unknown`, with
/// nothing to name.
pub proof fn a_malformed_resync_is_unknown(data: Seq<char>)
    requires
        !json::is_object(data),
    ensures
        resync_fields(data) == ("unknown"@, 0u64),
        resync_read(data) == (ResyncView { reason: ResyncReason::Unknown, earliest: None }),
{
}

proof fn lemma_first_named_skips(a: Seq<Member>, m: Member, b: Seq<Member>, quoted_key: Seq<char>)
    requires
        m.name != quoted_key,
    ensures
        json::first_named(a.push(m) + b, quoted_key) == json::first_named(a + b, quoted_key),
    decreases b.len(),
{
    if b.len() == 0 {
        assert(a.push(m) + b =~= a.push(m));
        assert(a + b =~= a);
        assert(a.push(m).drop_last() =~= a);
    } else {
        lemma_first_named_skips(a, m, b.drop_last(), quoted_key);
        assert((a.push(m) + b).drop_last() =~= a.push(m) + b.drop_last());
        assert((a + b).drop_last() =~= a + b.drop_last());
    }
}

/// A field that the reader does not know is ignored, whatever its value and
/// wherever it stands: the payload says what it would say without it.
pub proof fn unknown_fields_are_ignored(
    data: Seq<char>,
    without: Seq<char>,
    a: Seq<Member>,
    unknown: Member,
    b: Seq<Member>,
)
    requires
        json::members(data) == Some(a.push(unknown) + b),
        json::members(without) == Some(a + b),
    ensures
        unknown.name != "\"every\""@ && unknown.name != "\"max_age\""@ ==> ping_hints(data)
            == ping_hints(without),
        unknown.name != "\"reason\""@ && unknown.name != "\"earliest_seq\""@ ==> resync_fields(data)
            == resync_fields(without),
        unknown.name != "\"reason\""@ && unknown.name != "\"earliest\""@ ==> resync_read(data)
            == resync_read(without),
{
    if unknown.name != "\"every\""@ {
        lemma_first_named_skips(a, unknown, b, "\"every\""@);
    }
    if unknown.name != "\"max_age\""@ {
        lemma_first_named_skips(a, unknown, b, "\"max_age\""@);
    }
    if unknown.name != "\"reason\""@ {
        lemma_first_named_skips(a, unknown, b, "\"reason\""@);
    }
    if unknown.name != "\"earliest_seq\""@ {
        lemma_first_named_skips(a, unknown, b, "\"earliest_seq\""@);
    }
    if unknown.name != "\"earliest\""@ {
        lemma_first_named_skips(a, unknown, b, "\"earliest\""@);
    }
}

/// A decimal is the number that it starts with.
proof fn lemma_leading_number(n: u64)
    ensures
        leading_number(text::decimal(n as nat)) == Some(n),
{
    let d = text::decimal(n as nat);
    text::lemma_decimal(n as nat);
    json::lemma_digit_run_is(d, seq![]);
    assert(d + Seq::<char>::empty() =~= d);
    assert(d.take(d.len() as int) =~= d);
}

/// What a server announces in its `ping` is what the client reads: the
/// interval and the age, with zero meaning absent.
pub proof fn ping_payload_reads_back(ping: Ping)
    ensures
        ping_hints(ping.payload()) == (HintsView {
            ping_every: announced(ping.every),
            max_age: match ping.max_age {
                Some(age) => announced(age),
                None => None,
            },
        }),
{
    reveal_strlit("{\"every\":");
    reveal_strlit(",\"max_age\":");
    reveal_strlit("}");
    reveal_strlit("\"every\"");
    reveal_strlit("\"max_age\"");
    reveal_strlit("every");
    reveal_strlit("max_age");
    let every = "every"@;
    let age_key = "max_age"@;
    assert(json::quoted(every) =~= "\"every\""@);
    assert(json::quoted(age_key) =~= "\"max_age\""@);
    assert("\"every\""@.len() != "\"max_age\""@.len());
    let d = text::decimal(ping.every as nat);
    json::lemma_decimal_is_value(ping.every as nat);
    lemma_leading_number(ping.every);
    let s = ping.payload();
    match ping.max_age {
        Some(age) => {
            let a = text::decimal(age as nat);
            json::lemma_decimal_is_value(age as nat);
            lemma_leading_number(age);
            assert(s =~= seq!['{'] + json::written(every, d) + seq![','] + json::written(
                age_key,
                a,
            ) + seq!['}']);
            json::two_members_read_back(every, d, age_key, a);
        },
        None => {
            assert(s =~= seq!['{'] + json::written(every, d) + seq!['}']);
            json::one_member_reads_back(every, d);
        },
    }
    let members = json::members(s)->0;
    json::lemma_first_named(members, "\"every\""@);
    json::lemma_first_named(members, "\"max_age\""@);
}

/// A token is written as it is.
proof fn lemma_token_is_plain(token: Seq<char>)
    requires
        cursor::is_token(token),
    ensures
        json::is_plain(token),
{
    assert forall|i: int| 0 <= i < token.len() implies #[trigger] token[i] != '"' && token[i]
        != '\\' && token[i] >= ' ' by {
        assert(cursor::unreserved(token[i]));
    }
}

/// A plain text is what stands between its quotes.
proof fn lemma_unquoted(word: Seq<char>)
    requires
        json::is_plain(word),
    ensures
        unquoted(json::quoted(word)) == Some(word),
{
    let rest = json::quoted(word).skip(1);
    assert(rest =~= word + seq!['"']);
    assert forall|i: int| 0 <= i < word.len() implies rest[i] != '"' by {
        assert(rest[i] == word[i]);
    }
    text::lemma_span_until_is(rest, '"', word.len() as int);
    assert(rest.take(word.len() as int) =~= word);
}

/// What a server says in its `resync` is what the client reads: the reason,
/// and the cursor or that there is none.
pub proof fn resync_payload_reads_back(resync: ResyncView)
    requires
        resync.earliest matches Some(token) ==> cursor::is_token(token),
    ensures
        resync_read(resync.payload()) == resync,
{
    reveal_strlit("{\"reason\":\"");
    reveal_strlit("\",\"earliest\":");
    reveal_strlit("\"");
    reveal_strlit("\"}");
    reveal_strlit("null}");
    reveal_strlit("null");
    reveal_strlit("\"reason\"");
    reveal_strlit("\"earliest\"");
    reveal_strlit("reason");
    reveal_strlit("earliest");
    reveal_strlit("expired");
    reveal_strlit("unknown");
    let s = resync.payload();
    let word = resync.reason.text();
    let reason = "reason"@;
    let earliest = "earliest"@;
    assert(json::quoted(reason) =~= "\"reason\""@);
    assert(json::quoted(earliest) =~= "\"earliest\""@);
    assert("\"reason\""@.len() != "\"earliest\""@.len());
    assert("expired"@[0] != "unknown"@[0]);
    assert(json::is_plain(word));
    json::lemma_quoted_is_value(word);
    lemma_unquoted(word);
    let last = match resync.earliest {
        Some(token) => json::quoted(token),
        None => "null"@,
    };
    match resync.earliest {
        Some(token) => {
            lemma_token_is_plain(token);
            json::lemma_quoted_is_value(token);
            lemma_unquoted(token);
            cursor::accepted_is_a_token(token);
        },
        None => {
            json::lemma_null_is_value();
        },
    }
    assert(s =~= seq!['{'] + json::written(reason, json::quoted(word)) + seq![','] + json::written(
        earliest,
        last,
    ) + seq!['}']);
    json::two_members_read_back(reason, json::quoted(word), earliest, last);
    let members = json::members(s)->0;
    json::lemma_first_named(members, "\"reason\""@);
    json::lemma_first_named(members, "\"earliest\""@);
}

/// What a server with sequence numbers says in its `resync` is what the client
/// reads: the reason and the number.
pub proof fn resync_numbers_read_back(reason: ResyncReason, earliest_seq: u64)
    ensures
        ({
            let data = crate::protocol::EventView::resync_seq(reason, earliest_seq).data->0;
            &&& resync_fields(data) == (reason.text(), earliest_seq)
            &&& reason == ResyncReason::Expired ==> resync_fields(data).0 == "expired"@
            &&& reason == ResyncReason::Unknown ==> resync_fields(data).0 == "unknown"@
        }),
{
    reveal_strlit("{\"earliest_seq\":");
    reveal_strlit(",\"reason\":\"");
    reveal_strlit("\"}");
    reveal_strlit("\"reason\"");
    reveal_strlit("\"earliest_seq\"");
    reveal_strlit("reason");
    reveal_strlit("earliest_seq");
    reveal_strlit("expired");
    reveal_strlit("unknown");
    let s = crate::protocol::EventView::resync_seq(reason, earliest_seq).data->0;
    let word = reason.text();
    let d = text::decimal(earliest_seq as nat);
    let a = "earliest_seq"@;
    let b = "reason"@;
    assert(json::quoted(a) =~= "\"earliest_seq\""@);
    assert(json::quoted(b) =~= "\"reason\""@);
    assert("\"reason\""@.len() != "\"earliest_seq\""@.len());
    assert(json::is_plain(word));
    json::lemma_quoted_is_value(word);
    lemma_unquoted(word);
    json::lemma_decimal_is_value(earliest_seq as nat);
    text::lemma_decimal(earliest_seq as nat);
    assert(s =~= seq!['{'] + json::written(a, d) + seq![','] + json::written(
        b,
        json::quoted(word),
    ) + seq!['}']);
    json::two_members_read_back(a, d, b, json::quoted(word));
    let members = json::members(s)->0;
    json::lemma_first_named(members, "\"reason\""@);
    json::lemma_first_named(members, "\"earliest_seq\""@);
}

/// A number that a text starts with ends where its digits do.
pub proof fn a_number_ends_with_its_digits(n: u64, rest: Seq<char>)
    requires
        rest.len() > 0 ==> !('0' <= rest[0] && rest[0] <= '9'),
    ensures
        leading_number(text::decimal(n as nat) + rest) == Some(n),
        leading_number(rest) is None,
{
    let d = text::decimal(n as nat);
    text::lemma_decimal(n as nat);
    json::lemma_digit_run_is(d, rest);
    assert((d + rest).take(d.len() as int) =~= d);
    assert(rest.take(0) =~= Seq::<char>::empty());
}

/// A `ping` announces the seconds of its first `every` and of its first
/// `max_age`, wherever they stand among its members, whatever the others hold
/// and however much white space there is. Where a name is missing, or its value
/// is no number, nothing is announced.
pub proof fn a_ping_is_read_by_its_members(
    pieces: Seq<json::Piece>,
    lead: Seq<char>,
    end: Seq<char>,
    i: int,
    secs: u64,
)
    requires
        pieces.len() > 0,
        forall|j: int| 0 <= j < pieces.len() ==> (#[trigger] pieces[j]).wf(),
        json::is_blank(lead) && json::is_blank(end),
    ensures
        ({
            let data = lead + seq!['{'] + (json::listed(json::piece_texts(pieces)) + seq!['}']
                + end);
            let first = |name: Seq<char>|
                0 <= i < pieces.len() && pieces[i].name == name && forall|j: int|
                    0 <= j < i ==> (#[trigger] pieces[j]).name != name;
            let missing = |name: Seq<char>|
                forall|j: int| 0 <= j < pieces.len() ==> (#[trigger] pieces[j]).name != name;
            let told = if secs > 0 {
                Some((secs * 1_000_000_000) as nat)
            } else {
                None
            };
            &&& first("every"@) && pieces[i].value == text::decimal(secs as nat) ==> ping_hints(
                data,
            ).ping_every == told
            &&& first("max_age"@) && pieces[i].value == text::decimal(secs as nat) ==> ping_hints(
                data,
            ).max_age == told
            &&& first("every"@) && !text::is_digit(pieces[i].value[0]) ==> ping_hints(
                data,
            ).ping_every is None
            &&& missing("every"@) ==> ping_hints(data).ping_every is None
            &&& missing("max_age"@) ==> ping_hints(data).max_age is None
        }),
{
    reveal_strlit("every");
    reveal_strlit("max_age");
    reveal_strlit("\"every\"");
    reveal_strlit("\"max_age\"");
    assert(json::quoted("every"@) =~= "\"every\""@);
    assert(json::quoted("max_age"@) =~= "\"max_age\""@);
    json::an_object_reads_back(pieces, lead, Seq::empty(), end);
    let members = json::piece_members(pieces);
    assert forall|j: int| 0 <= j < pieces.len() implies (#[trigger] members[j]).name
        == json::quoted(pieces[j].name) && members[j].value == pieces[j].value by {}
    lemma_names_of_members(pieces, "every"@);
    lemma_names_of_members(pieces, "max_age"@);
    json::the_first_of_a_name_counts(members, "\"every\""@, i);
    json::the_first_of_a_name_counts(members, "\"max_age\""@, i);
    lemma_leading_number(secs);
    if 0 <= i < pieces.len() && !text::is_digit(pieces[i].value[0]) {
        assert(pieces[i].wf());
        assert(pieces[i].value.take(0) =~= Seq::<char>::empty());
    }
}

/// Members have a quoted name exactly where their pieces have the name.
proof fn lemma_names_of_members(pieces: Seq<json::Piece>, name: Seq<char>)
    ensures
        forall|j: int|
            0 <= j < pieces.len() ==> ((#[trigger] json::piece_members(pieces)[j]).name
                == json::quoted(name) <==> pieces[j].name == name),
{
    assert forall|j: int| 0 <= j < pieces.len() implies ((#[trigger] json::piece_members(
        pieces,
    )[j]).name == json::quoted(name) <==> pieces[j].name == name) by {
        let other = pieces[j].name;
        if json::quoted(other) == json::quoted(name) {
            assert(json::quoted(other).subrange(1, json::quoted(other).len() - 1) =~= other);
            assert(json::quoted(name).subrange(1, json::quoted(name).len() - 1) =~= name);
        }
    }
}

proof fn lemma_find_skip(s: Seq<char>, key: Seq<char>, i: nat, j: nat)
    requires
        i <= j,
        j + key.len() <= s.len(),
        forall|k: int| i <= k < j ==> #[trigger] s.subrange(k, k + key.len()) != key,
    ensures
        text::find_from(s, key, i) == text::find_from(s, key, j),
    decreases j - i,
{
    if i < j {
        assert(s.subrange(i as int, (i + key.len()) as int) != key);
        lemma_find_skip(s, key, i + 1, j);
    }
}

/// In a `ping` that is no object, the seconds are the digits after the first
/// occurrence of the quoted key and a colon, white space aside.
pub proof fn a_malformed_ping_is_searched(
    key: Seq<char>,
    lead: Seq<char>,
    a: Seq<char>,
    b: Seq<char>,
    secs: u64,
    rest: Seq<char>,
)
    requires
        key == "\"every\""@ || key == "\"max_age\""@,
        rest.len() > 0 ==> !('0' <= rest[0] && rest[0] <= '9'),
        json::is_blank(a) && json::is_blank(b),
        ({
            let data = lead + key + (a + seq![':'] + b + text::decimal(secs as nat) + rest);
            &&& !json::is_object(data)
            &&& forall|k: int|
                0 <= k < lead.len() ==> #[trigger] data.subrange(k, k + key.len()) != key
        }),
    ensures
        ({
            let data = lead + key + (a + seq![':'] + b + text::decimal(secs as nat) + rest);
            let told = if secs > 0 {
                Some((secs * 1_000_000_000) as nat)
            } else {
                None
            };
            &&& key == "\"every\""@ ==> ping_hints(data).ping_every == told
            &&& key == "\"max_age\""@ ==> ping_hints(data).max_age == told
        }),
{
    let d = text::decimal(secs as nat);
    let after = a + seq![':'] + b + d + rest;
    let data = lead + key + after;
    lemma_find_skip(data, key, 0, lead.len());
    assert(data.subrange(lead.len() as int, (lead.len() + key.len()) as int) =~= key);
    assert(data.skip((lead.len() + key.len()) as int) =~= after);
    text::lemma_decimal(secs as nat);
    assert(text::is_digit(d[0]));
    let value = d + rest;
    assert(value[0] == d[0]);
    let colon = seq![':'] + (b + value);
    assert(after =~= a + colon);
    text::lemma_trim_start_is(a, colon);
    assert(colon.skip(1) =~= b + value);
    text::lemma_trim_start_is(b, value);
    a_number_ends_with_its_digits(secs, rest);
}

/// A `resync` says the text of its first `reason` and the number of its first
/// `earliest_seq`, or names the token of its first `earliest`, wherever they
/// stand among its members and whatever the others hold.
pub proof fn a_resync_is_read_by_its_members(
    pieces: Seq<json::Piece>,
    lead: Seq<char>,
    end: Seq<char>,
    i: int,
    word: Seq<char>,
    n: u64,
)
    requires
        pieces.len() > 0,
        forall|j: int| 0 <= j < pieces.len() ==> (#[trigger] pieces[j]).wf(),
        json::is_blank(lead) && json::is_blank(end),
        json::is_plain(word),
    ensures
        ({
            let data = lead + seq!['{'] + (json::listed(json::piece_texts(pieces)) + seq!['}']
                + end);
            let first = |name: Seq<char>|
                0 <= i < pieces.len() && pieces[i].name == name && forall|j: int|
                    0 <= j < i ==> (#[trigger] pieces[j]).name != name;
            let missing = |name: Seq<char>|
                forall|j: int| 0 <= j < pieces.len() ==> (#[trigger] pieces[j]).name != name;
            let said = seq!['"'] + word + seq!['"'];
            &&& first("reason"@) && pieces[i].value == said ==> resync_fields(data).0 == word
            &&& first("reason"@) && pieces[i].value == said ==> (resync_read(data).reason
                == ResyncReason::Expired <==> word == "expired"@)
            &&& first("earliest_seq"@) && pieces[i].value == text::decimal(n as nat)
                ==> resync_fields(data).1 == n
            &&& first("earliest"@) && pieces[i].value == said && cursor::verdict(word) is Ok
                ==> resync_read(data).earliest == Some(word)
            &&& first("earliest"@) && pieces[i].value == said && cursor::verdict(word) is Err
                ==> resync_read(data).earliest is None
            &&& missing("reason"@) ==> resync_fields(data).0 == "unknown"@ && resync_read(
                data,
            ).reason == ResyncReason::Unknown
            &&& missing("earliest_seq"@) ==> resync_fields(data).1 == 0
            &&& missing("earliest"@) ==> resync_read(data).earliest is None
        }),
{
    reveal_strlit("reason");
    reveal_strlit("earliest_seq");
    reveal_strlit("earliest");
    reveal_strlit("\"reason\"");
    reveal_strlit("\"earliest_seq\"");
    reveal_strlit("\"earliest\"");
    assert(json::quoted("reason"@) =~= "\"reason\""@);
    assert(json::quoted("earliest_seq"@) =~= "\"earliest_seq\""@);
    assert(json::quoted("earliest"@) =~= "\"earliest\""@);
    json::an_object_reads_back(pieces, lead, Seq::empty(), end);
    let members = json::piece_members(pieces);
    assert forall|j: int| 0 <= j < pieces.len() implies (#[trigger] members[j]).name
        == json::quoted(pieces[j].name) && members[j].value == pieces[j].value by {}
    lemma_names_of_members(pieces, "reason"@);
    lemma_names_of_members(pieces, "earliest_seq"@);
    lemma_names_of_members(pieces, "earliest"@);
    json::the_first_of_a_name_counts(members, "\"reason\""@, i);
    json::the_first_of_a_name_counts(members, "\"earliest_seq\""@, i);
    json::the_first_of_a_name_counts(members, "\"earliest\""@, i);
    lemma_unquoted(word);
    text::lemma_decimal(n as nat);
}

/// Of a string, what is said is what stands before its next quote.
pub proof fn a_string_is_read_to_its_next_quote(word: Seq<char>, rest: Seq<char>)
    requires
        !word.contains('"'),
    ensures
        unquoted(seq!['"'] + word + seq!['"'] + rest) == Some(word),
        rest.len() == 0 || rest[0] != '"' ==> unquoted(rest) is None,
{
    let tail = (seq!['"'] + word + seq!['"'] + rest).skip(1);
    assert(tail =~= word + seq!['"'] + rest);
    assert forall|i: int| 0 <= i < word.len() implies tail[i] != '"' by {
        assert(word.contains(word[i]));
    }
    text::lemma_span_until_is(tail, '"', word.len() as int);
    assert(tail.take(word.len() as int) =~= word);
}

} // verus!
