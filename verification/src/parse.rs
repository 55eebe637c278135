//! A WHATWG-faithful SSE parser for clients and tests.
//!
//! Feed bytes as they arrive; get back dispatched frames and `retry:`
//! hints. The parser keeps the last event id exactly as the specification
//! does: an `id:` line sets it (even on a frame with no data), an EMPTY
//! `id:` resets it, and a NUL in the value is ignored.

use crate::text;
use crate::time::{Duration, NANOS_PER_MILLI};
use vstd::prelude::*;
use vstd::utf8;

verus! {

/// Line feed.
pub const LF: u8 = 10;

/// Carriage return.
pub const CR: u8 = 13;

/// One dispatched event.
#[derive(Debug, PartialEq, Eq)]
pub struct Frame {
    /// `event:` name; `None` for the default `message` event.
    pub name: Option<String>,
    /// Joined `data:` lines (the trailing newline removed).
    pub data: String,
    /// The last event id in force when this frame was dispatched.
    pub id: Option<String>,
}

/// What a chunk of bytes produced.
#[derive(Debug, PartialEq, Eq)]
pub enum Parsed {
    /// A frame with data.
    Event(Frame),
    /// A `retry:` hint (milliseconds on the wire).
    Retry(Duration),
}

/// Incremental parser. One per connection.
#[derive(Debug)]
pub struct Parser {
    line: Vec<u8>,
    saw_cr: bool,
    at_start: bool,
    data: String,
    event: Option<String>,
    pending_id: Option<String>,
    last_event_id: Option<String>,
}

/// The texts of a frame.
#[verifier::ext_equal]
pub struct FrameView {
    pub name: Option<Seq<char>>,
    pub data: Seq<char>,
    pub id: Option<Seq<char>>,
}

/// What a line produced: a frame, or a hint in nanoseconds.
#[verifier::ext_equal]
pub enum ParsedView {
    Event(FrameView),
    Retry(nat),
}

/// Where a parser stands in its stream.
#[verifier::ext_equal]
pub struct ParserView {
    /// The bytes of the line in progress.
    pub line: Seq<u8>,
    /// The last byte was a CR: a LF now belongs to it.
    pub saw_cr: bool,
    /// No line has ended yet: a byte order mark may lead.
    pub at_start: bool,
    /// The `data:` lines of the frame in progress, each with its newline.
    pub data: Seq<char>,
    /// The `event:` name of the frame in progress.
    pub event: Option<Seq<char>>,
    /// The `id:` value of the frame in progress.
    pub pending_id: Option<Seq<char>>,
    /// The last event id.
    pub last_event_id: Option<Seq<char>>,
}

impl View for Frame {
    type V = FrameView;

    open spec fn view(&self) -> FrameView {
        FrameView {
            name: text::opt_text(self.name),
            data: self.data@,
            id: text::opt_text(self.id),
        }
    }
}

impl View for Parsed {
    type V = ParsedView;

    open spec fn view(&self) -> ParsedView {
        match self {
            Parsed::Event(frame) => ParsedView::Event(frame@),
            Parsed::Retry(delay) => ParsedView::Retry(delay@),
        }
    }
}

impl View for Parser {
    type V = ParserView;

    closed spec fn view(&self) -> ParserView {
        ParserView {
            line: self.line@,
            saw_cr: self.saw_cr,
            at_start: self.at_start,
            data: self.data@,
            event: text::opt_text(self.event),
            pending_id: text::opt_text(self.pending_id),
            last_event_id: text::opt_text(self.last_event_id),
        }
    }
}

impl Clone for Frame {
    fn clone(&self) -> (r: Self)
        ensures
            r == *self,
    {
        Frame {
            name: text::opt_clone(&self.name),
            data: self.data.clone(),
            id: text::opt_clone(&self.id),
        }
    }
}

impl Clone for Parsed {
    fn clone(&self) -> (r: Self)
        ensures
            r == *self,
    {
        match self {
            Parsed::Event(frame) => Parsed::Event(frame.clone()),
            Parsed::Retry(delay) => Parsed::Retry(*delay),
        }
    }
}

/// The views of a list of parsed items.
pub open spec fn parsed_views(items: Seq<Parsed>) -> Seq<ParsedView> {
    items.map_values(|p: Parsed| p@)
}

impl ParserView {
    /// A parser that has read nothing, where a byte order mark may lead.
    pub open spec fn initial() -> ParserView {
        ParserView {
            line: seq![],
            saw_cr: false,
            at_start: true,
            data: seq![],
            event: None,
            pending_id: None,
            last_event_id: None,
        }
    }
}

// ---------------------------------------------------------------------------
// The format
// ---------------------------------------------------------------------------

/// The field name of a line: what stands before the first colon.
pub open spec fn field_of(line: Seq<char>) -> Seq<char> {
    line.take(text::span_until(line, ':') as int)
}

/// The value of a line: what stands after the first colon and one space.
pub open spec fn value_of(line: Seq<char>) -> Seq<char> {
    let n = text::span_until(line, ':');
    if n >= line.len() {
        seq![]
    } else {
        let rest = line.skip((n + 1) as int);
        if rest.len() > 0 && rest[0] == ' ' {
            rest.skip(1)
        } else {
            rest
        }
    }
}

/// A blank line: the pending id takes force, and the frame goes out when it
/// has data.
pub open spec fn dispatched(st: ParserView) -> (ParserView, Seq<ParsedView>) {
    let last = match st.pending_id {
        Some(id) => text::non_empty(Some(id)),
        None => st.last_event_id,
    };
    let next = ParserView {
        data: seq![],
        event: None,
        pending_id: None,
        last_event_id: last,
        ..st
    };
    if st.data.len() == 0 {
        (next, seq![])
    } else {
        (
            next,
            seq![
                ParsedView::Event(
                    FrameView { name: st.event, data: st.data.drop_last(), id: last },
                ),
            ],
        )
    }
}

/// What one line of text means: a blank line dispatches, a line that starts
/// with a colon is a comment, and any other sets the field it names. An empty
/// event name is that of the default event. Unknown fields, an id with a NUL
/// in it and a `retry:` that is not a number that 64 bits hold are ignored.
pub open spec fn line_read(st: ParserView, line: Seq<char>) -> (ParserView, Seq<ParsedView>) {
    let field = field_of(line);
    let value = value_of(line);
    if line.len() == 0 {
        dispatched(st)
    } else if line[0] == ':' {
        (st, seq![])
    } else if field == "event"@ {
        (ParserView { event: text::non_empty(Some(value)), ..st }, seq![])
    } else if field == "data"@ {
        (ParserView { data: st.data + value.push('\n'), ..st }, seq![])
    } else if field == "id"@ {
        if value.contains('\0') {
            (st, seq![])
        } else {
            (ParserView { pending_id: Some(value), ..st }, seq![])
        }
    } else if field == "retry"@ {
        match text::digits_to_u64(value) {
            Some(ms) => (st, seq![ParsedView::Retry((ms * NANOS_PER_MILLI) as nat)]),
            None => (st, seq![]),
        }
    } else {
        (st, seq![])
    }
}

/// The UTF-8 byte order mark.
pub open spec fn bom() -> Seq<u8> {
    seq![0xEFu8, 0xBBu8, 0xBFu8]
}

/// A line without the byte order mark that may lead the first one.
pub open spec fn without_bom(line: Seq<u8>, at_start: bool) -> Seq<u8> {
    if at_start && bom().is_prefix_of(line) {
        line.skip(3)
    } else {
        line
    }
}

/// What `String::from_utf8_lossy` makes of bytes that are not valid UTF-8.
pub uninterp spec fn replaced_text(bytes: Seq<u8>) -> Seq<char>;

/// The text of bytes: their decoding when they are valid UTF-8, otherwise
/// with a replacement character for each part that is not.
pub open spec fn decoded(bytes: Seq<u8>) -> Seq<char> {
    if utf8::valid_utf8(bytes) {
        utf8::decode_utf8(bytes)
    } else {
        replaced_text(bytes)
    }
}

/// The end of the line in progress.
pub open spec fn line_ended(st: ParserView) -> (ParserView, Seq<ParsedView>) {
    line_read(
        ParserView { line: seq![], at_start: false, ..st },
        decoded(without_bom(st.line, st.at_start)),
    )
}

/// One byte: CR, LF and the pair CR LF each end a line once; any other byte
/// is part of one.
pub open spec fn byte_read(st: ParserView, b: u8) -> (ParserView, Seq<ParsedView>) {
    if st.saw_cr && b == LF {
        (ParserView { saw_cr: false, ..st }, seq![])
    } else if b == CR {
        line_ended(ParserView { saw_cr: true, ..st })
    } else if b == LF {
        line_ended(ParserView { saw_cr: false, ..st })
    } else {
        (ParserView { saw_cr: false, line: st.line.push(b), ..st }, seq![])
    }
}

/// A run of bytes, one after the other: where the parser stands after them,
/// and all that they completed.
pub open spec fn bytes_read(st: ParserView, bytes: Seq<u8>) -> (ParserView, Seq<ParsedView>)
    decreases bytes.len(),
{
    if bytes.len() == 0 {
        (st, seq![])
    } else {
        let before = bytes_read(st, bytes.drop_last());
        let last = byte_read(before.0, bytes.last());
        (last.0, before.1 + last.1)
    }
}

// ---------------------------------------------------------------------------
// The parser
// ---------------------------------------------------------------------------

/// `String::from_utf8_lossy`: valid UTF-8 is decoded; for other bytes the
/// text is named, not spelled out.
#[verifier::external_body]
fn lossy(bytes: &[u8]) -> (r: String)
    ensures
        r@ == (if utf8::valid_utf8(bytes@) {
            utf8::decode_utf8(bytes@)
        } else {
            replaced_text(bytes@)
        }),
{
    String::from_utf8_lossy(bytes).into_owned()
}

impl Default for Parser {
    /// A parser in the middle of a stream, where no byte order mark can lead.
    fn default() -> (p: Self)
        ensures
            p@ == (ParserView { at_start: false, ..ParserView::initial() }),
    {
        Parser {
            line: Vec::new(),
            saw_cr: false,
            at_start: false,
            data: String::new(),
            event: None,
            pending_id: None,
            last_event_id: None,
        }
    }
}

impl Parser {
    /// A parser positioned at the start of a stream (a leading BOM is skipped).
    pub fn new() -> (p: Self)
        ensures
            p@ == ParserView::initial(),
    {
        Parser {
            line: Vec::new(),
            saw_cr: false,
            at_start: true,
            data: String::new(),
            event: None,
            pending_id: None,
            last_event_id: None,
        }
    }

    /// A parser for a RECONNECTION: the last event id persists across
    /// connections (the browser keeps it too), so frames without an `id:`
    /// on the new stream still report the cursor in force.
    pub fn with_last_event_id(self, id: Option<String>) -> (p: Self)
        ensures
            p@ == (ParserView { last_event_id: text::non_empty(text::opt_text(id)), ..self@ }),
    {
        let mut p = self;
        p.last_event_id = match id {
            Some(s) => if s.as_str().is_empty() {
                None
            } else {
                Some(s)
            },
            None => None,
        };
        p
    }

    /// The last event id string, `None` when unset or reset.
    pub fn last_event_id(&self) -> (id: Option<&str>)
        ensures
            text::opt_str(id) == self@.last_event_id,
    {
        match &self.last_event_id {
            Some(id) => Some(id.as_str()),
            None => None,
        }
    }

    /// Drop the last event id, as an empty `id:` does.
    pub fn forget_last_event_id(&mut self)
        ensures
            final(self)@ == (ParserView { last_event_id: None, ..old(self)@ }),
    {
        self.last_event_id = None;
    }

    /// Feed bytes; returns everything they completed.
    pub fn feed(&mut self, bytes: &[u8]) -> (out: Vec<Parsed>)
        ensures
            (final(self)@, parsed_views(out@)) == bytes_read(old(self)@, bytes@),
    {
        let mut out: Vec<Parsed> = Vec::new();
        let mut i: usize = 0;
        assert(parsed_views(out@) =~= seq![]);
        assert(bytes@.take(0) =~= seq![]);
        while i < bytes.len()
            invariant
                i <= bytes.len(),
                (self@, parsed_views(out@)) == bytes_read(old(self)@, bytes@.take(i as int)),
            decreases bytes.len() - i,
        {
            let b: u8 = bytes[i];
            let ghost before = self@;
            let ghost done = parsed_views(out@);
            self.feed_byte(b, &mut out);
            proof {
                assert(bytes@.take(i + 1).drop_last() =~= bytes@.take(i as int));
                assert(bytes@.take(i + 1).last() == b);
            }
            i += 1;
        }
        assert(bytes@.take(bytes.len() as int) =~= bytes@);
        out
    }

    pub(crate) fn feed_byte(&mut self, b: u8, out: &mut Vec<Parsed>)
        ensures
            final(self)@ == byte_read(old(self)@, b).0,
            parsed_views(final(out)@) == parsed_views(old(out)@) + byte_read(old(self)@, b).1,
    {
        if self.saw_cr {
            self.saw_cr = false;
            if b == LF {
                // the LF of a CR LF
                assert(parsed_views(out@) =~= parsed_views(out@) + seq![]);
                return;
            }
        }
        if b == CR {
            self.saw_cr = true;
            self.end_line(out);
        } else if b == LF {
            self.end_line(out);
        } else {
            self.line.push(b);
            assert(parsed_views(out@) =~= parsed_views(out@) + seq![]);
        }
    }

    fn end_line(&mut self, out: &mut Vec<Parsed>)
        ensures
            final(self)@ == line_ended(old(self)@).0,
            parsed_views(final(out)@) == parsed_views(old(out)@) + line_ended(old(self)@).1,
    {
        let mut line: Vec<u8> = Vec::new();
        std::mem::swap(&mut line, &mut self.line);
        let mut start: usize = 0;
        if self.at_start {
            self.at_start = false;
            if line.len() >= 3 && line[0] == 0xEF && line[1] == 0xBB && line[2] == 0xBF {
                start = 3;
                assert(bom() =~= line@.subrange(0, 3));
            }
        }
        let body = vstd::slice::slice_subrange(line.as_slice(), start, line.len());
        assert(body@ =~= without_bom(old(self)@.line, old(self)@.at_start));
        let decoded_line = lossy(body);
        assert(self@ =~= (ParserView { line: seq![], at_start: false, ..old(self)@ }));
        self.read_line(decoded_line.as_str(), out);
    }

    /// Take in one line of text, without its line ending.
    pub fn read_line(&mut self, line: &str, out: &mut Vec<Parsed>)
        ensures
            final(self)@ == line_read(old(self)@, line@).0,
            parsed_views(final(out)@) == parsed_views(old(out)@) + line_read(old(self)@, line@).1,
    {
        assert(parsed_views(out@) =~= parsed_views(out@) + seq![]);
        let chars = text::chars_of(line);
        let n: usize = chars.len();
        if n == 0 {
            self.dispatch(out);
            return;
        }
        if chars[0] == ':' {
            return;
        }
        assert(chars@.subrange(0, n as int) =~= line@);
        let colon: usize = text::find_char(&chars, 0, n, ':');
        let field = text::string_of(&chars, 0, colon);
        assert(field@ =~= field_of(line@));
        let from: usize = if colon < n {
            if colon + 1 < n && chars[colon + 1] == ' ' {
                colon + 2
            } else {
                colon + 1
            }
        } else {
            n
        };
        let value = text::string_of(&chars, from, n);
        assert(value@ =~= value_of(line@));
        if text::text_eq(field.as_str(), "event") {
            self.event = if value.as_str().is_empty() {
                None
            } else {
                Some(value)
            };
        } else if text::text_eq(field.as_str(), "data") {
            self.data.append(value.as_str());
            self.data.push('\n');
            assert(self.data@ =~= old(self)@.data + value@.push('\n'));
        } else if text::text_eq(field.as_str(), "id") {
            if !has_nul(value.as_str()) {
                self.pending_id = Some(value);
            }
        } else if text::text_eq(field.as_str(), "retry") {
            // Only ASCII digits count (`u64::from_str` would also take a `+`).
            if let Some(ms) = text::parse_digits(&chars, from, n) {
                let ghost before = parsed_views(out@);
                out.push(Parsed::Retry(Duration::from_millis(ms)));
                assert(parsed_views(out@) =~= before + seq![
                    ParsedView::Retry((ms * NANOS_PER_MILLI) as nat),
                ]);
            }
        }
    }

    fn dispatch(&mut self, out: &mut Vec<Parsed>)
        ensures
            final(self)@ == dispatched(old(self)@).0,
            parsed_views(final(out)@) == parsed_views(old(out)@) + dispatched(old(self)@).1,
    {
        assert(parsed_views(out@) =~= parsed_views(out@) + seq![]);
        if let Some(id) = self.pending_id.take() {
            self.last_event_id = if id.as_str().is_empty() {
                None
            } else {
                Some(id)
            };
        }
        let event = self.event.take();
        if self.data.as_str().is_empty() {
            assert(self.data@ =~= seq![]);
            return;
        }
        let mut data = String::new();
        std::mem::swap(&mut data, &mut self.data);
        // the trailing newline
        let len: usize = data.as_str().unicode_len();
        let joined = data.as_str().substring_char(0, len - 1).to_owned();
        assert(joined@ =~= old(self)@.data.drop_last());
        let frame = Frame { name: event, data: joined, id: text::opt_clone(&self.last_event_id) };
        let ghost before = parsed_views(out@);
        out.push(Parsed::Event(frame));
        assert(parsed_views(out@) =~= before + seq![ParsedView::Event(frame@)]);
    }
}

/// Whether a text holds a NUL.
fn has_nul(s: &str) -> (r: bool)
    ensures
        r == s@.contains('\0'),
{
    let chars = text::chars_of(s);
    let n: usize = chars.len();
    let at: usize = text::find_char(&chars, 0, n, '\0');
    proof {
        assert(chars@.subrange(0, n as int) =~= s@);
        text::lemma_span_until(s@, '\0');
    }
    at < n
}

// ---------------------------------------------------------------------------
// Laws
// ---------------------------------------------------------------------------

/// Chunk boundaries do not matter: two chunks, one after the other, leave
/// the parser where their concatenation does and complete the same items.
pub proof fn chunk_boundaries_do_not_matter(st: ParserView, a: Seq<u8>, b: Seq<u8>)
    ensures
        bytes_read(st, a + b).0 == bytes_read(bytes_read(st, a).0, b).0,
        bytes_read(st, a + b).1 == bytes_read(st, a).1 + bytes_read(bytes_read(st, a).0, b).1,
    decreases b.len(),
{
    if b.len() == 0 {
        assert(a + b =~= a);
        assert(bytes_read(st, a).1 + seq![] =~= bytes_read(st, a).1);
    } else {
        chunk_boundaries_do_not_matter(st, a, b.drop_last());
        assert((a + b).drop_last() =~= a + b.drop_last());
        assert((a + b).last() == b.last());
        let mid = bytes_read(st, a);
        let most = bytes_read(mid.0, b.drop_last());
        let last = byte_read(most.0, b.last());
        assert((mid.1 + most.1) + last.1 =~= mid.1 + (most.1 + last.1));
    }
}

/// A line's field is what stands before its first colon, and its value what
/// stands after it. One space after the colon is not part of the value;
/// without one, nothing is taken off. A line without a colon is all field.
pub proof fn a_line_is_a_field_and_a_value(field: Seq<char>, value: Seq<char>)
    requires
        !field.contains(':'),
    ensures
        field_of(field + seq![':'] + value) == field,
        value.len() == 0 || value[0] != ' ' ==> value_of(field + seq![':'] + value) == value,
        field_of(field + seq![':', ' '] + value) == field,
        value_of(field + seq![':', ' '] + value) == value,
        field_of(field) == field,
        value_of(field) == Seq::<char>::empty(),
{
    let n = field.len() as int;
    let tight = field + seq![':'] + value;
    let spaced = field + seq![':', ' '] + value;
    assert forall|i: int| 0 <= i < n implies field[i] != ':' by {
        assert(field.contains(field[i]));
    }
    assert forall|i: int| 0 <= i < n implies tight[i] != ':' && spaced[i] != ':' by {
        assert(field[i] != ':');
    }
    text::lemma_span_until_is(tight, ':', n);
    text::lemma_span_until_is(spaced, ':', n);
    text::lemma_span_until_is(field, ':', n);
    assert(tight.take(n) =~= field);
    assert(spaced.take(n) =~= field);
    assert(field.take(n) =~= field);
    assert(tight.skip(n + 1) =~= value);
    assert(spaced.skip(n + 1) =~= seq![' '] + value);
    assert((seq![' '] + value).skip(1) =~= value);
}

/// What each line does, for any value that does not start with a space, with a
/// space before it or without: `data` adds a line to the payload, `event` sets
/// the name (an empty one is that of the default event), `id` sets the pending
/// id unless there is a NUL in it, `retry` hands out its milliseconds when it
/// is digits that 64 bits hold. Nothing else is touched.
#[verifier::rlimit(40)]
pub proof fn what_each_field_does(st: ParserView, value: Seq<char>, spaced: bool)
    requires
        value.len() == 0 || value[0] != ' ',
    ensures
        ({
            let colon = if spaced {
                seq![':', ' ']
            } else {
                seq![':']
            };
            let none = Seq::<ParsedView>::empty();
            &&& line_read(st, seq!['d', 'a', 't', 'a'] + colon + value) == (
                ParserView { data: st.data + value + seq!['\n'], ..st },
                none,
            )
            &&& line_read(st, seq!['e', 'v', 'e', 'n', 't'] + colon + value) == (
                ParserView {
                    event: if value.len() > 0 {
                        Some(value)
                    } else {
                        None
                    },
                    ..st
                },
                none,
            )
            &&& !value.contains('\0') ==> line_read(st, seq!['i', 'd'] + colon + value) == (
                ParserView { pending_id: Some(value), ..st },
                none,
            )
            &&& value.contains('\0') ==> line_read(st, seq!['i', 'd'] + colon + value) == (
                st,
                none,
            )
            &&& forall|n: nat|
                value == #[trigger] text::decimal(n) && n <= 0xffff_ffff_ffff_ffff ==> line_read(
                    st,
                    seq!['r', 'e', 't', 'r', 'y'] + colon + value,
                ) == (st, seq![ParsedView::Retry((n * 1_000_000) as nat)])
            &&& value.len() == 0 || !text::all_digits(value) ==> line_read(
                st,
                seq!['r', 'e', 't', 'r', 'y'] + colon + value,
            ) == (st, none)
        }),
{
    let colon = if spaced {
        seq![':', ' ']
    } else {
        seq![':']
    };
    reveal_strlit("data");
    reveal_strlit("event");
    reveal_strlit("id");
    reveal_strlit("retry");
    let data = seq!['d', 'a', 't', 'a'];
    let event = seq!['e', 'v', 'e', 'n', 't'];
    let id = seq!['i', 'd'];
    let retry = seq!['r', 'e', 't', 'r', 'y'];
    assert(data =~= "data"@);
    assert(event =~= "event"@);
    assert(id =~= "id"@);
    assert(retry =~= "retry"@);
    assert("event"@[0] != "retry"@[0]);
    lemma_no_colon(data);
    lemma_no_colon(event);
    lemma_no_colon(id);
    lemma_no_colon(retry);
    a_line_is_a_field_and_a_value(data, value);
    a_line_is_a_field_and_a_value(event, value);
    a_line_is_a_field_and_a_value(id, value);
    a_line_is_a_field_and_a_value(retry, value);
    assert(st.data + value.push('\n') =~= st.data + value + seq!['\n']);
    assert forall|n: nat|
        value == #[trigger] text::decimal(n) && n <= 0xffff_ffff_ffff_ffff implies line_read(
        st,
        retry + colon + value,
    ) == (st, seq![ParsedView::Retry((n * 1_000_000) as nat)]) by {
        text::lemma_decimal(n);
    }
}

proof fn lemma_no_colon(s: Seq<char>)
    requires
        forall|i: int| 0 <= i < s.len() ==> s[i] != ':',
    ensures
        !s.contains(':'),
{
}

/// A comment and a field of any other name do nothing; a blank line sends the
/// event out.
pub proof fn other_lines_do_nothing(st: ParserView, field: Seq<char>, rest: Seq<char>)
    requires
        !field.contains(':'),
        field.len() > 0,
        field != "data"@ && field != "event"@ && field != "id"@ && field != "retry"@,
    ensures
        line_read(st, seq![':'] + rest) == (st, Seq::<ParsedView>::empty()),
        line_read(st, field + seq![':'] + rest) == (st, Seq::<ParsedView>::empty()),
        line_read(st, field) == (st, Seq::<ParsedView>::empty()),
{
    a_line_is_a_field_and_a_value(field, rest);
    assert(field_of(field + seq![':'] + rest) == field);
}

/// A blank line ends a frame. Its id, if it has one, is then in force — an
/// empty one resets it — and the next frame starts with nothing. The event
/// goes out when there was a `data` line: its payload without the last line
/// feed, its name, and the id in force.
pub proof fn a_blank_line_sends_the_event(st: ParserView, payload: Seq<char>)
    ensures
        ({
            let blank = Seq::<char>::empty();
            let id = if st.pending_id is None {
                st.last_event_id
            } else if st.pending_id->0.len() == 0 {
                None
            } else {
                st.pending_id
            };
            let after = line_read(st, blank);
            &&& after.0.last_event_id == id
            &&& after.0.pending_id is None && after.0.event is None && after.0.data.len() == 0
            &&& after.0.line == st.line && after.0.saw_cr == st.saw_cr && after.0.at_start
                == st.at_start
            &&& st.data.len() == 0 ==> after.1.len() == 0
            &&& st.data == payload + seq!['\n'] ==> after.1 == seq![
                ParsedView::Event(FrameView { name: st.event, data: payload, id }),
            ]
        }),
{
    if st.data == payload + seq!['\n'] {
        assert(st.data.drop_last() =~= payload);
    }
}

proof fn lemma_bytes_of_a_line(st: ParserView, line: Seq<u8>)
    requires
        !st.saw_cr,
        forall|i: int| 0 <= i < line.len() ==> line[i] != 13 && #[trigger] line[i] != 10,
    ensures
        bytes_read(st, line) == (
            ParserView { line: st.line + line, ..st },
            Seq::<ParsedView>::empty(),
        ),
    decreases line.len(),
{
    if line.len() == 0 {
        assert(st.line + line =~= st.line);
    } else {
        lemma_bytes_of_a_line(st, line.drop_last());
        assert(line[line.len() - 1] != 13 && line[line.len() - 1] != 10);
        assert((st.line + line.drop_last()).push(line.last()) =~= st.line + line);
        assert(Seq::<ParsedView>::empty() + seq![] =~= Seq::<ParsedView>::empty());
    }
}

/// A line feed, a carriage return and the two together end a line alike, and
/// once: what is read is the text of the bytes, without the byte order mark
/// that may lead the very first line.
#[verifier::rlimit(40)]
pub proof fn a_line_ends_once(st: ParserView, line: Seq<u8>, text: Seq<char>)
    requires
        !st.saw_cr,
        st.line.len() == 0,
        forall|i: int| 0 <= i < line.len() ==> line[i] != 13 && #[trigger] line[i] != 10,
        utf8::valid_utf8(line),
        text == utf8::decode_utf8(line),
        line.len() == 0 || line[0] != 0xEF,
    ensures
        ({
            let begun = ParserView { at_start: false, ..st };
            let read = line_read(begun, text);
            &&& bytes_read(st, line + seq![10u8]) == read
            &&& bytes_read(st, line + seq![13u8]) == (ParserView { saw_cr: true, ..read.0 }, read.1)
            &&& bytes_read(st, line + seq![13u8, 10u8]) == read
            &&& st.at_start ==> bytes_read(st, seq![0xEFu8, 0xBBu8, 0xBFu8] + line + seq![10u8])
                == read
        }),
{
    let begun = ParserView { at_start: false, ..st };
    let read = line_read(begun, text);
    let none = Seq::<ParsedView>::empty();
    lemma_bytes_of_a_line(st, line);
    assert(st.line + line =~= line);
    if bom().is_prefix_of(line) {
        assert(bom()[0] == line[0]);
    }
    let a = line + seq![10u8];
    assert(a.drop_last() =~= line);
    let mid = ParserView { line, ..st };
    assert(ParserView { line: seq![], at_start: false, saw_cr: false, ..mid } =~= begun);
    assert(none + read.1 =~= read.1);
    assert(bytes_read(st, a) == read);
    let b = line + seq![13u8];
    assert(b.drop_last() =~= line);
    let returned = ParserView { saw_cr: true, ..begun };
    assert(ParserView { line: seq![], at_start: false, ..(ParserView { saw_cr: true, ..mid }) }
        =~= returned);
    lemma_saw_cr_does_not_matter(begun, text);
    let after = line_read(returned, text);
    assert(none + after.1 =~= after.1);
    assert(bytes_read(st, b) == after);
    let c = line + seq![13u8, 10u8];
    assert(c.drop_last() =~= b);
    assert(c.last() == 10u8);
    assert(after.0.saw_cr);
    assert(ParserView { saw_cr: false, ..after.0 } =~= read.0);
    assert(after.1 + none =~= after.1);
    if st.at_start {
        let marked = bom() + line;
        assert forall|i: int| 0 <= i < marked.len() implies marked[i] != 13 && #[trigger] marked[i]
            != 10 by {
            if i >= 3 {
                assert(marked[i] == line[i - 3]);
            }
        }
        lemma_bytes_of_a_line(st, marked);
        assert(st.line + marked =~= marked);
        let d = seq![0xEFu8, 0xBBu8, 0xBFu8] + line + seq![10u8];
        assert(d.drop_last() =~= marked);
        assert(bom() =~= marked.subrange(0, 3));
        assert(marked.skip(3) =~= line);
        let held = ParserView { line: marked, ..st };
        assert(ParserView { line: seq![], at_start: false, saw_cr: false, ..held } =~= begun);
        assert(bytes_read(st, d) == read);
    }
}

/// A line means the same whichever way the one before it ended.
proof fn lemma_saw_cr_does_not_matter(st: ParserView, line: Seq<char>)
    ensures
        line_read(ParserView { saw_cr: true, ..st }, line) == (
            ParserView { saw_cr: true, ..line_read(st, line).0 },
            line_read(st, line).1,
        ),
{
}

/// A byte order mark is taken off the very first line, once; on any other line
/// it is part of the text.
pub proof fn a_mark_leads_the_first_line_only(st: ParserView, line: Seq<u8>)
    requires
        !st.saw_cr,
        st.line.len() == 0,
        forall|i: int| 0 <= i < line.len() ==> line[i] != 13 && #[trigger] line[i] != 10,
    ensures
        ({
            let begun = ParserView { at_start: false, ..st };
            let mark = seq![0xEFu8, 0xBBu8, 0xBFu8];
            &&& !st.at_start && utf8::valid_utf8(line) ==> bytes_read(st, line + seq![10u8])
                == line_read(begun, utf8::decode_utf8(line))
            &&& st.at_start && utf8::valid_utf8(line) ==> bytes_read(st, mark + line + seq![10u8])
                == line_read(begun, utf8::decode_utf8(line))
        }),
{
    let begun = ParserView { at_start: false, ..st };
    let none = Seq::<ParsedView>::empty();
    lemma_bytes_of_a_line(st, line);
    assert(st.line + line =~= line);
    let a = line + seq![10u8];
    assert(a.drop_last() =~= line);
    let mid = ParserView { line, ..st };
    assert(ParserView { line: seq![], at_start: false, saw_cr: false, ..mid } =~= begun);
    let read = line_read(begun, utf8::decode_utf8(line));
    assert(none + read.1 =~= read.1);
    let marked = bom() + line;
    assert forall|i: int| 0 <= i < marked.len() implies marked[i] != 13 && #[trigger] marked[i]
        != 10 by {
        if i >= 3 {
            assert(marked[i] == line[i - 3]);
        }
    }
    lemma_bytes_of_a_line(st, marked);
    assert(st.line + marked =~= marked);
    let d = seq![0xEFu8, 0xBBu8, 0xBFu8] + line + seq![10u8];
    assert(d.drop_last() =~= marked);
    assert(bom() =~= marked.subrange(0, 3));
    assert(marked.skip(3) =~= line);
    let held = ParserView { line: marked, ..st };
    assert(ParserView { line: seq![], at_start: false, saw_cr: false, ..held } =~= begun);
}

} // verus!
