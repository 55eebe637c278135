//! What a parser reads back of what an encoder wrote.

use crate::parse::{
    byte_read, bytes_read, chunk_boundaries_do_not_matter, decoded, dispatched, field_of,
    line_read, value_of, FrameView, ParsedView, ParserView, CR, LF,
};
use crate::protocol::{
    data_lines, folded, folds, opt_folded, opt_line, opt_millis, EventView,
};
use crate::text;
use crate::time::NANOS_PER_MILLI;
use vstd::prelude::*;
use vstd::utf8;

verus! {

/// A parser between two frames: nothing of the next one has arrived.
pub open spec fn between_frames(st: ParserView) -> bool {
    &&& st.line.len() == 0
    &&& !st.saw_cr
    &&& st.data.len() == 0
    &&& st.event is None
    &&& st.pending_id is None
}

/// The `retry:` hint that a frame hands over: whole milliseconds, when 64
/// bits hold them.
pub open spec fn hint_of(ev: EventView) -> Seq<ParsedView> {
    match ev.retry {
        Some(nanos) => if nanos / NANOS_PER_MILLI as nat <= u64::MAX {
            seq![ParsedView::Retry(nanos / NANOS_PER_MILLI as nat * NANOS_PER_MILLI as nat)]
        } else {
            seq![]
        },
        None => seq![],
    }
}

/// The last event id after a frame, when it was `last` before: a frame
/// without an `id:` keeps it, an empty one resets it.
pub open spec fn id_after(ev: EventView, last: Option<Seq<char>>) -> Option<Seq<char>> {
    match ev.id {
        Some(id) => text::non_empty(Some(folded(id))),
        None => last,
    }
}

/// The event that a frame dispatches: one with data does, under its name (an
/// empty one is that of the default event), with its lines joined and the id
/// then in force.
pub open spec fn dispatch_of(ev: EventView, last: Option<Seq<char>>) -> Seq<ParsedView> {
    match ev.data {
        Some(data) => seq![
            ParsedView::Event(
                FrameView {
                    name: text::non_empty(opt_folded(ev.name)),
                    data: text::joined(text::lines(data)),
                    id: id_after(ev, last),
                },
            ),
        ],
        None => seq![],
    }
}

/// Lines of text, one after the other.
pub open spec fn lines_read(st: ParserView, lines: Seq<Seq<char>>) -> (ParserView, Seq<ParsedView>)
    decreases lines.len(),
{
    if lines.len() == 0 {
        (st, seq![])
    } else {
        let before = lines_read(st, lines.drop_last());
        let last = line_read(ParserView { at_start: false, ..before.0 }, lines.last());
        (last.0, before.1 + last.1)
    }
}

/// A line that an encoder writes: no line break inside, and it starts with
/// no byte order mark.
pub open spec fn plain_line(line: Seq<char>) -> bool {
    text::single_line(line) && (line.len() > 0 ==> line[0] < '\u{80}')
}

proof fn lemma_plain_bytes(st: ParserView, bytes: Seq<u8>)
    requires
        !st.saw_cr,
        forall|i: int| 0 <= i < bytes.len() ==> #[trigger] bytes[i] != CR && bytes[i] != LF,
    ensures
        bytes_read(st, bytes) == (
            ParserView { line: st.line + bytes, ..st },
            Seq::<ParsedView>::empty(),
        ),
    decreases bytes.len(),
{
    if bytes.len() == 0 {
        assert(st.line + bytes =~= st.line);
    } else {
        lemma_plain_bytes(st, bytes.drop_last());
        assert(bytes[bytes.len() - 1] != CR && bytes[bytes.len() - 1] != LF);
        assert((st.line + bytes.drop_last()).push(bytes.last()) =~= st.line + bytes);
        assert(Seq::<ParsedView>::empty() + seq![] =~= Seq::<ParsedView>::empty());
    }
}

proof fn lemma_line_bytes(st: ParserView, line: Seq<char>)
    requires
        st.line.len() == 0,
        !st.saw_cr,
        plain_line(line),
    ensures
        bytes_read(st, utf8::encode_utf8(line.push('\n'))) == line_read(
            ParserView { at_start: false, ..st },
            line,
        ),
{
    let body = utf8::encode_utf8(line);
    assert(line.push('\n') =~= line + seq!['\n']);
    text::lemma_encode_concat(line, seq!['\n']);
    text::lemma_encode_ascii_char('\n');
    assert forall|i: int| 0 <= i < line.len() implies line[i] != '\n' && line[i] != '\r' by {
        assert(!text::is_break(line[i]));
    }
    text::lemma_encode_free_of(line, '\n');
    text::lemma_encode_free_of(line, '\r');
    lemma_plain_bytes(st, body);
    let whole = utf8::encode_utf8(line.push('\n'));
    assert(whole.drop_last() =~= body);
    assert(whole.last() == LF);
    assert(st.line + body =~= body);
    assert(!crate::parse::bom().is_prefix_of(body)) by {
        if line.len() > 0 {
            lemma_first_byte(line);
            if crate::parse::bom().is_prefix_of(body) {
                assert(body[0] == crate::parse::bom()[0]);
            }
        }
    }
    utf8::encode_utf8_valid_utf8(line);
    utf8::encode_utf8_decode_utf8(line);
    lemma_line_end(st, body, line);
    lemma_last_byte(st, whole);
}

proof fn lemma_last_byte(st: ParserView, bytes: Seq<u8>)
    requires
        bytes.len() > 0,
        bytes_read(st, bytes.drop_last()).1 == Seq::<ParsedView>::empty(),
    ensures
        bytes_read(st, bytes) == byte_read(bytes_read(st, bytes.drop_last()).0, bytes.last()),
{
    let r = byte_read(bytes_read(st, bytes.drop_last()).0, bytes.last());
    assert(Seq::<ParsedView>::empty() + r.1 =~= r.1);
}

/// A line feed ends the line that stands before it.
proof fn lemma_line_end(st: ParserView, body: Seq<u8>, line: Seq<char>)
    requires
        st.line.len() == 0,
        !st.saw_cr,
        decoded(body) == line,
        !crate::parse::bom().is_prefix_of(body),
    ensures
        byte_read(ParserView { line: body, ..st }, LF) == line_read(
            ParserView { at_start: false, ..st },
            line,
        ),
{
    let mid = ParserView { line: body, ..st };
    assert(ParserView { line: seq![], at_start: false, ..mid } =~= (ParserView {
        at_start: false,
        ..st
    }));
    assert(ParserView { saw_cr: false, ..mid } =~= mid);
}

proof fn lemma_first_byte(line: Seq<char>)
    requires
        line.len() > 0,
        line[0] < '\u{80}',
    ensures
        utf8::encode_utf8(line).len() > 0,
        utf8::encode_utf8(line)[0] < 0x80,
{
    assert(line =~= seq![line[0]] + line.drop_first());
    text::lemma_encode_concat(seq![line[0]], line.drop_first());
    text::lemma_encode_ascii_char(line[0]);
    let head = utf8::encode_utf8(seq![line[0]]);
    assert(head[0] == line[0] as u8);
    assert(utf8::encode_utf8(line)[0] == head[0]);
    lemma_ascii_byte(line[0]);
}

proof fn lemma_ascii_byte(c: char)
    requires
        c < '\u{80}',
    ensures
        (c as u8) < 0x80u8,
{
}

proof fn lemma_line_keeps(st: ParserView, line: Seq<char>)
    ensures
        line_read(st, line).0.line == st.line,
        line_read(st, line).0.saw_cr == st.saw_cr,
        line_read(st, line).0.at_start == st.at_start,
{
}

proof fn lemma_lines_keep(st: ParserView, lines: Seq<Seq<char>>)
    ensures
        lines_read(st, lines).0.line == st.line,
        lines_read(st, lines).0.saw_cr == st.saw_cr,
        lines.len() > 0 ==> !lines_read(st, lines).0.at_start,
    decreases lines.len(),
{
    if lines.len() > 0 {
        lemma_lines_keep(st, lines.drop_last());
        let before = lines_read(st, lines.drop_last());
        lemma_line_keeps(ParserView { at_start: false, ..before.0 }, lines.last());
    }
}

proof fn lemma_lines_bytes(st: ParserView, lines: Seq<Seq<char>>)
    requires
        st.line.len() == 0,
        !st.saw_cr,
        forall|i: int| 0 <= i < lines.len() ==> plain_line(#[trigger] lines[i]),
    ensures
        bytes_read(st, utf8::encode_utf8(text::terminated(lines))) == lines_read(st, lines),
    decreases lines.len(),
{
    if lines.len() == 0 {
        assert(utf8::encode_utf8(text::terminated(lines)) =~= seq![]);
    } else {
        let most = lines.drop_last();
        assert forall|i: int| 0 <= i < most.len() implies plain_line(#[trigger] most[i]) by {
            assert(plain_line(lines[i]));
        }
        lemma_lines_bytes(st, most);
        lemma_lines_keep(st, most);
        assert(plain_line(lines[lines.len() - 1]));
        let a = utf8::encode_utf8(text::terminated(most));
        let b = utf8::encode_utf8(lines.last().push('\n'));
        text::lemma_encode_concat(text::terminated(most), lines.last().push('\n'));
        chunk_boundaries_do_not_matter(st, a, b);
        lemma_line_bytes(lines_read(st, most).0, lines.last());
    }
}

proof fn lemma_lines_concat(st: ParserView, a: Seq<Seq<char>>, b: Seq<Seq<char>>)
    ensures
        lines_read(st, a + b).0 == lines_read(lines_read(st, a).0, b).0,
        lines_read(st, a + b).1 == lines_read(st, a).1 + lines_read(lines_read(st, a).0, b).1,
    decreases b.len(),
{
    if b.len() == 0 {
        assert(a + b =~= a);
        assert(lines_read(st, a).1 + seq![] =~= lines_read(st, a).1);
    } else {
        lemma_lines_concat(st, a, b.drop_last());
        assert((a + b).drop_last() =~= a + b.drop_last());
        assert((a + b).last() == b.last());
        let mid = lines_read(st, a);
        let most = lines_read(mid.0, b.drop_last());
        let last = line_read(ParserView { at_start: false, ..most.0 }, b.last());
        assert((mid.1 + most.1) + last.1 =~= mid.1 + (most.1 + last.1));
    }
}

proof fn lemma_one_line(st: ParserView, line: Seq<char>)
    ensures
        lines_read(st, seq![line]) == line_read(ParserView { at_start: false, ..st }, line),
{
    let one = seq![line];
    assert(one.drop_last() =~= Seq::<Seq<char>>::empty());
    assert(lines_read(st, one.drop_last()) == (st, Seq::<ParsedView>::empty()));
    let r = line_read(ParserView { at_start: false, ..st }, line);
    assert(Seq::<ParsedView>::empty() + r.1 =~= r.1);
}

/// A line made of a field name, a colon, a space and a value reads as them.
proof fn lemma_field(name: Seq<char>, value: Seq<char>)
    requires
        name.len() > 0,
        forall|i: int| 0 <= i < name.len() ==> name[i] != ':',
    ensures
        field_of(name + seq![':', ' '] + value) == name,
        value_of(name + seq![':', ' '] + value) == value,
        (name + seq![':', ' '] + value).len() > 0,
        (name + seq![':', ' '] + value)[0] != ':',
{
    let line = name + seq![':', ' '] + value;
    let n = name.len() as int;
    assert(line[n] == ':');
    assert forall|i: int| 0 <= i < n implies line[i] != ':' by {
        assert(line[i] == name[i]);
    }
    text::lemma_span_until_is(line, ':', n);
    assert(field_of(line) =~= name);
    let rest = line.skip(n + 1);
    assert(rest[0] == ' ');
    assert(rest.skip(1) =~= value);
}

proof fn lemma_fold_free(s: Seq<char>)
    ensures
        text::single_line(folded(s)),
        !folded(s).contains('\0'),
{
    assert forall|i: int| 0 <= i < folded(s).len() implies !folds(#[trigger] folded(s)[i]) by {}
}

proof fn lemma_retry(st: ParserView, ev: EventView)
    requires
        !st.at_start,
    ensures
        lines_read(st, opt_line("retry: "@, opt_millis(ev.retry))) == (st, hint_of(ev)),
{
    reveal_strlit("retry: ");
    reveal_strlit("retry");
    reveal_strlit("event");
    reveal_strlit("data");
    reveal_strlit("id");
    if let Some(nanos) = ev.retry {
        let ms = nanos / NANOS_PER_MILLI as nat;
        let value = text::decimal(ms);
        assert("retry: "@ + value =~= "retry"@ + seq![':', ' '] + value);
        lemma_field("retry"@, value);
        text::lemma_decimal(ms);
        lemma_one_line(st, "retry: "@ + value);
        assert(ParserView { at_start: false, ..st } =~= st);
        assert("retry"@.len() != "data"@.len());
        assert("retry"@.len() != "id"@.len());
        assert("retry"@[0] != "event"@[0]);
        if ms <= u64::MAX {
            assert(hint_of(ev) =~= line_read(st, "retry: "@ + value).1);
        }
    }
}

proof fn lemma_id(st: ParserView, ev: EventView)
    requires
        !st.at_start,
        st.pending_id is None,
    ensures
        lines_read(st, opt_line("id: "@, opt_folded(ev.id))) == (
            ParserView { pending_id: opt_folded(ev.id), ..st },
            Seq::<ParsedView>::empty(),
        ),
{
    reveal_strlit("id: ");
    reveal_strlit("id");
    reveal_strlit("event");
    reveal_strlit("data");
    if let Some(id) = ev.id {
        let value = folded(id);
        assert("id: "@ + value =~= "id"@ + seq![':', ' '] + value);
        lemma_field("id"@, value);
        lemma_fold_free(id);
        lemma_one_line(st, "id: "@ + value);
        assert(ParserView { at_start: false, ..st } =~= st);
        assert("id"@.len() != "data"@.len());
        assert("id"@.len() != "event"@.len());
    }
}

proof fn lemma_name(st: ParserView, ev: EventView)
    requires
        !st.at_start,
        st.event is None,
    ensures
        lines_read(st, opt_line("event: "@, opt_folded(ev.name))) == (
            ParserView { event: text::non_empty(opt_folded(ev.name)), ..st },
            Seq::<ParsedView>::empty(),
        ),
{
    reveal_strlit("event: ");
    reveal_strlit("event");
    if let Some(name) = ev.name {
        let value = folded(name);
        assert("event: "@ + value =~= "event"@ + seq![':', ' '] + value);
        lemma_field("event"@, value);
        lemma_one_line(st, "event: "@ + value);
        assert(ParserView { at_start: false, ..st } =~= st);
    }
}

proof fn lemma_data(st: ParserView, lines: Seq<Seq<char>>)
    requires
        !st.at_start,
        st.data.len() == 0,
    ensures
        lines_read(st, lines.map_values(|line: Seq<char>| "data: "@ + line)) == (
            ParserView { data: text::terminated(lines), ..st },
            Seq::<ParsedView>::empty(),
        ),
    decreases lines.len(),
{
    reveal_strlit("data: ");
    reveal_strlit("data");
    reveal_strlit("event");
    let labelled = lines.map_values(|line: Seq<char>| "data: "@ + line);
    if lines.len() == 0 {
        assert(text::terminated(lines) =~= st.data);
    } else {
        let most = lines.drop_last();
        lemma_data(st, most);
        assert(labelled.drop_last() =~= most.map_values(|line: Seq<char>| "data: "@ + line));
        let value = lines.last();
        assert(labelled.last() == "data: "@ + value);
        assert("data: "@ + value =~= "data"@ + seq![':', ' '] + value);
        lemma_field("data"@, value);
        assert("data"@.len() != "event"@.len());
        let mid = ParserView { data: text::terminated(most), ..st };
        assert(ParserView { at_start: false, ..mid } =~= mid);
        assert(Seq::<ParsedView>::empty() + seq![] =~= Seq::<ParsedView>::empty());
    }
}

proof fn lemma_comment(st: ParserView, ev: EventView)
    requires
        !st.at_start,
    ensures
        lines_read(st, opt_line(": "@, opt_folded(ev.comment))) == (
            st,
            Seq::<ParsedView>::empty(),
        ),
{
    reveal_strlit(": ");
    if let Some(comment) = ev.comment {
        let value = folded(comment);
        lemma_one_line(st, ": "@ + value);
        assert((": "@ + value)[0] == ':');
        assert(ParserView { at_start: false, ..st } =~= st);
    }
}

proof fn lemma_labelled_plain(label: Seq<char>, value: Seq<char>)
    requires
        label.len() > 0,
        plain_line(label),
        text::single_line(value),
    ensures
        plain_line(label + value),
{
    let line = label + value;
    assert forall|i: int| 0 <= i < line.len() implies !text::is_break(#[trigger] line[i]) by {
        if i < label.len() {
            assert(!text::is_break(label[i]));
        } else {
            assert(!text::is_break(value[i - label.len()]));
        }
    }
}

proof fn lemma_lines_plain(ev: EventView)
    ensures
        forall|i: int| 0 <= i < ev.lines().len() ==> plain_line(#[trigger] ev.lines()[i]),
{
    reveal_strlit("retry: ");
    reveal_strlit("id: ");
    reveal_strlit("event: ");
    reveal_strlit("data: ");
    reveal_strlit(": ");
    let a = opt_line("retry: "@, opt_millis(ev.retry));
    let b = opt_line("id: "@, opt_folded(ev.id));
    let c = opt_line("event: "@, opt_folded(ev.name));
    let d = data_lines(ev.data);
    let e = opt_line(": "@, opt_folded(ev.comment));
    assert forall|i: int| 0 <= i < a.len() implies plain_line(#[trigger] a[i]) by {
        let value = opt_millis(ev.retry)->0;
        text::lemma_decimal((ev.retry->0) / NANOS_PER_MILLI as nat);
        assert forall|j: int| 0 <= j < value.len() implies !text::is_break(
            #[trigger] value[j],
        ) by {
            assert(text::is_digit(value[j]));
        }
        lemma_labelled_plain("retry: "@, value);
    }
    assert forall|i: int| 0 <= i < b.len() implies plain_line(#[trigger] b[i]) by {
        lemma_fold_free(ev.id->0);
        lemma_labelled_plain("id: "@, folded(ev.id->0));
    }
    assert forall|i: int| 0 <= i < c.len() implies plain_line(#[trigger] c[i]) by {
        lemma_fold_free(ev.name->0);
        lemma_labelled_plain("event: "@, folded(ev.name->0));
    }
    assert forall|i: int| 0 <= i < d.len() implies plain_line(#[trigger] d[i]) by {
        text::lemma_lines_from(seq![], ev.data->0);
        assert(text::single_line(text::lines(ev.data->0)[i]));
        lemma_labelled_plain("data: "@, text::lines(ev.data->0)[i]);
    }
    assert forall|i: int| 0 <= i < e.len() implies plain_line(#[trigger] e[i]) by {
        lemma_fold_free(ev.comment->0);
        lemma_labelled_plain(": "@, folded(ev.comment->0));
    }
    lemma_plain_concat(a, b);
    lemma_plain_concat(a + b, c);
    lemma_plain_concat(a + b + c, d);
    lemma_plain_concat(a + b + c + d, e);
    lemma_plain_concat(a + b + c + d + e, seq![seq![]]);
}

proof fn lemma_plain_concat(a: Seq<Seq<char>>, b: Seq<Seq<char>>)
    requires
        forall|i: int| 0 <= i < a.len() ==> plain_line(#[trigger] a[i]),
        forall|i: int| 0 <= i < b.len() ==> plain_line(#[trigger] b[i]),
    ensures
        forall|i: int| 0 <= i < (a + b).len() ==> plain_line(#[trigger] (a + b)[i]),
{
    assert forall|i: int| 0 <= i < (a + b).len() implies plain_line(#[trigger] (a + b)[i]) by {
        if i < a.len() {
            assert(plain_line(a[i]));
        } else {
            assert(plain_line(b[i - a.len()]));
        }
    }
}

/// A parser that has read all of a frame but the blank line at its end.
pub open spec fn with_fields(st: ParserView, ev: EventView) -> ParserView {
    ParserView {
        pending_id: opt_folded(ev.id),
        event: text::non_empty(opt_folded(ev.name)),
        data: match ev.data {
            Some(data) => text::terminated(text::lines(data)),
            None => st.data,
        },
        ..st
    }
}

/// The lines of a frame before its blank line, read between two frames.
proof fn lemma_frame_fields(st: ParserView, ev: EventView)
    requires
        between_frames(st),
        !st.at_start,
    ensures
        lines_read(st, ev.lines().drop_last()) == (with_fields(st, ev), hint_of(ev)),
{
    let none = Seq::<ParsedView>::empty();
    let a = opt_line("retry: "@, opt_millis(ev.retry));
    let b = opt_line("id: "@, opt_folded(ev.id));
    let c = opt_line("event: "@, opt_folded(ev.name));
    let d = data_lines(ev.data);
    let e = opt_line(": "@, opt_folded(ev.comment));
    let hint = hint_of(ev);
    assert(hint + none =~= hint);
    lemma_retry(st, ev);
    let st1 = ParserView { pending_id: opt_folded(ev.id), ..st };
    lemma_lines_concat(st, a, b);
    lemma_id(st, ev);
    let st2 = ParserView { event: text::non_empty(opt_folded(ev.name)), ..st1 };
    lemma_lines_concat(st, a + b, c);
    lemma_name(st1, ev);
    lemma_lines_concat(st, a + b + c, d);
    if let Some(data) = ev.data {
        lemma_data(st2, text::lines(data));
    }
    lemma_lines_concat(st, a + b + c + d, e);
    lemma_comment(with_fields(st, ev), ev);
    assert(ev.lines().drop_last() =~= a + b + c + d + e);
}

/// The lines of a frame, read between two frames.
proof fn lemma_frame_lines(st: ParserView, ev: EventView)
    requires
        between_frames(st),
        !st.at_start,
    ensures
        lines_read(st, ev.lines()).0 == (ParserView {
            last_event_id: id_after(ev, st.last_event_id),
            ..st
        }),
        lines_read(st, ev.lines()).1 == hint_of(ev) + dispatch_of(ev, st.last_event_id),
{
    let st3 = with_fields(st, ev);
    lemma_frame_fields(st, ev);
    assert(ParserView { at_start: false, ..st3 } =~= st3);
    assert(ev.lines().last() =~= Seq::<char>::empty());
    if let Some(data) = ev.data {
        text::lemma_lines_from(seq![], data);
        let all = text::lines(data);
        assert(text::terminated(all).len() > 0);
    }
    assert(dispatched(st3).0 =~= (ParserView {
        last_event_id: id_after(ev, st.last_event_id),
        ..st
    })) by {
        assert(st.data =~= seq![]);
    }
    assert(dispatched(st3).1 =~= dispatch_of(ev, st.last_event_id));
}

/// The event of a frame goes out with the frame's very last byte; before it,
/// the bytes give no more than the `retry:` hint.
pub proof fn an_event_completes_its_frame(st: ParserView, ev: EventView)
    requires
        between_frames(st),
    ensures
        ev.encoded().len() > 0,
        bytes_read(st, ev.encoded().drop_last()).1 == hint_of(ev),
{
    let most = ev.lines().drop_last();
    assert(ev.lines().last() =~= Seq::<char>::empty());
    let lf = Seq::<char>::empty().push('\n');
    text::lemma_encode_concat(text::terminated(most), lf);
    assert(lf =~= seq!['\n']);
    text::lemma_encode_ascii_char('\n');
    assert(ev.encoded().drop_last() =~= utf8::encode_utf8(text::terminated(most)));
    lemma_lines_plain(ev);
    assert forall|i: int| 0 <= i < most.len() implies plain_line(#[trigger] most[i]) by {
        assert(most[i] == ev.lines()[i]);
    }
    lemma_lines_bytes(st, most);
    let begun = ParserView { at_start: false, ..st };
    lemma_frame_fields(begun, ev);
    lemma_begun(st, most);
}

/// What was encoded is what is parsed: the bytes of any frame, read between
/// two frames, give its `retry:` hint and — when it has data — one event
/// under its name, with its data lines joined by line feeds and the id then
/// in force. No text in the frame, whatever it holds, adds a field, a second
/// event or anything else, and the parser stands between two frames again.
pub proof fn parse_of_encode(st: ParserView, ev: EventView)
    requires
        between_frames(st),
    ensures
        bytes_read(st, ev.encoded()).0 == (ParserView {
            at_start: false,
            last_event_id: id_after(ev, st.last_event_id),
            ..st
        }),
        bytes_read(st, ev.encoded()).1 == hint_of(ev) + dispatch_of(ev, st.last_event_id),
        between_frames(bytes_read(st, ev.encoded()).0),
{
    lemma_lines_plain(ev);
    lemma_lines_bytes(st, ev.lines());
    let begun = ParserView { at_start: false, ..st };
    lemma_frame_lines(begun, ev);
    lemma_begun(st, ev.lines());
    assert(ev.lines().len() > 0);
}

/// A line that is not blank moves no id and completes no event.
proof fn lemma_line_keeps_id(st: ParserView, line: Seq<char>)
    requires
        line.len() > 0,
    ensures
        line_read(st, line).0.last_event_id == st.last_event_id,
        forall|i: int|
            0 <= i < line_read(st, line).1.len() ==> !(#[trigger] line_read(st, line).1[i] is Event),
{
}

proof fn lemma_lines_keep_id(st: ParserView, lines: Seq<Seq<char>>)
    requires
        forall|i: int| 0 <= i < lines.len() ==> (#[trigger] lines[i]).len() > 0,
    ensures
        lines_read(st, lines).0.last_event_id == st.last_event_id,
        forall|i: int|
            0 <= i < lines_read(st, lines).1.len() ==> !(#[trigger] lines_read(
                st,
                lines,
            ).1[i] is Event),
    decreases lines.len(),
{
    if lines.len() > 0 {
        let most = lines.drop_last();
        assert forall|i: int| 0 <= i < most.len() implies (#[trigger] most[i]).len() > 0 by {
            assert(most[i] == lines[i]);
        }
        lemma_lines_keep_id(st, most);
        let before = lines_read(st, most);
        assert(lines[lines.len() - 1].len() > 0);
        lemma_line_keeps_id(ParserView { at_start: false, ..before.0 }, lines.last());
        let last = line_read(ParserView { at_start: false, ..before.0 }, lines.last());
        assert forall|i: int| 0 <= i < lines_read(st, lines).1.len() implies !(
        #[trigger] lines_read(st, lines).1[i] is Event) by {
            if i < before.1.len() {
                assert(!(before.1[i] is Event));
            } else {
                assert(!(last.1[i - before.1.len()] is Event));
            }
        }
    }
}

/// The beginning of some lines, none of them blank, cut anywhere.
proof fn lemma_cut_lines(st: ParserView, lines: Seq<Seq<char>>, n: int)
    requires
        st.line.len() == 0,
        !st.saw_cr,
        forall|i: int| 0 <= i < lines.len() ==> plain_line(#[trigger] lines[i]),
        forall|i: int| 0 <= i < lines.len() ==> (#[trigger] lines[i]).len() > 0,
        0 <= n <= utf8::encode_utf8(text::terminated(lines)).len(),
    ensures
        ({
            let read = bytes_read(st, utf8::encode_utf8(text::terminated(lines)).take(n));
            &&& read.0.last_event_id == st.last_event_id
            &&& forall|i: int| 0 <= i < read.1.len() ==> !(#[trigger] read.1[i] is Event)
        }),
    decreases lines.len(),
{
    let all = utf8::encode_utf8(text::terminated(lines));
    if lines.len() == 0 {
        assert(all =~= seq![]);
        assert(all.take(n) =~= seq![]);
    } else if n == all.len() {
        assert(all.take(n) =~= all);
        lemma_lines_bytes(st, lines);
        lemma_lines_keep_id(st, lines);
    } else {
        let most = lines.drop_last();
        let last = lines.last();
        assert forall|i: int| 0 <= i < most.len() implies plain_line(#[trigger] most[i])
            && most[i].len() > 0 by {
            assert(most[i] == lines[i]);
            assert(plain_line(lines[i]));
        }
        let a = utf8::encode_utf8(text::terminated(most));
        let b = utf8::encode_utf8(last);
        let lf = seq!['\n'];
        text::lemma_encode_concat(text::terminated(most), last.push('\n'));
        assert(last.push('\n') =~= last + lf);
        text::lemma_encode_concat(last, lf);
        text::lemma_encode_ascii_char('\n');
        if n <= a.len() {
            assert(all.take(n) =~= a.take(n));
            lemma_cut_lines(st, most, n);
        } else {
            let q = b.take(n - a.len());
            assert(all.take(n) =~= a + q);
            chunk_boundaries_do_not_matter(st, a, q);
            lemma_lines_bytes(st, most);
            lemma_lines_keep(st, most);
            lemma_lines_keep_id(st, most);
            assert(plain_line(lines[lines.len() - 1]));
            assert forall|i: int| 0 <= i < last.len() implies last[i] != '\n' && last[i] != '\r' by {
                assert(!text::is_break(last[i]));
            }
            text::lemma_encode_free_of(last, '\n');
            text::lemma_encode_free_of(last, '\r');
            assert forall|i: int| 0 <= i < q.len() implies #[trigger] q[i] != CR && q[i] != LF by {
                assert(q[i] == b[i]);
            }
            lemma_plain_bytes(lines_read(st, most).0, q);
            assert(bytes_read(st, a + q).1 =~= lines_read(st, most).1);
        }
    }
}

/// A frame that is cut short, anywhere, leaves no trace: no event, and the
/// cursor stays where it was.
pub proof fn a_cut_frame_leaves_no_trace(st: ParserView, ev: EventView, n: int)
    requires
        between_frames(st),
        0 <= n < ev.encoded().len(),
    ensures
        bytes_read(st, ev.encoded().take(n)).0.last_event_id == st.last_event_id,
        forall|i: int|
            0 <= i < bytes_read(st, ev.encoded().take(n)).1.len() ==> !(#[trigger] bytes_read(
                st,
                ev.encoded().take(n),
            ).1[i] is Event),
{
    reveal_strlit("retry: ");
    reveal_strlit("id: ");
    reveal_strlit("event: ");
    reveal_strlit("data: ");
    reveal_strlit(": ");
    let most = ev.lines().drop_last();
    assert(ev.lines().last() =~= Seq::<char>::empty());
    let lf = Seq::<char>::empty().push('\n');
    text::lemma_encode_concat(text::terminated(most), lf);
    assert(lf =~= seq!['\n']);
    text::lemma_encode_ascii_char('\n');
    let bytes = utf8::encode_utf8(text::terminated(most));
    assert(ev.encoded().take(n) =~= bytes.take(n));
    lemma_lines_plain(ev);
    let a = opt_line("retry: "@, opt_millis(ev.retry));
    let b = opt_line("id: "@, opt_folded(ev.id));
    let c = opt_line("event: "@, opt_folded(ev.name));
    let d = data_lines(ev.data);
    let e = opt_line(": "@, opt_folded(ev.comment));
    assert(most =~= a + b + c + d + e);
    assert forall|i: int| 0 <= i < most.len() implies plain_line(#[trigger] most[i])
        && most[i].len() > 0 by {
        assert(most[i] == ev.lines()[i]);
        assert(plain_line(ev.lines()[i]));
        let j1 = i - a.len();
        let j2 = j1 - b.len();
        let j3 = j2 - c.len();
        let j4 = j3 - d.len();
        if i < a.len() {
            assert(most[i] == a[i]);
        } else if j1 < b.len() {
            assert(most[i] == b[j1]);
        } else if j2 < c.len() {
            assert(most[i] == c[j2]);
        } else if j3 < d.len() {
            assert(most[i] == d[j3]);
        } else {
            assert(most[i] == e[j4]);
        }
    }
    lemma_cut_lines(st, most, n);
}

/// Past the first line it no longer matters that a stream had just begun.
proof fn lemma_begun(st: ParserView, lines: Seq<Seq<char>>)
    ensures
        lines.len() > 0 ==> lines_read(st, lines) == lines_read(
            ParserView { at_start: false, ..st },
            lines,
        ),
    decreases lines.len(),
{
    if lines.len() > 1 {
        lemma_begun(st, lines.drop_last());
    } else if lines.len() == 1 {
        assert(lines =~= seq![lines[0]]);
        lemma_one_line(st, lines[0]);
        lemma_one_line(ParserView { at_start: false, ..st }, lines[0]);
    }
}

/// A payload without carriage returns arrives as it was sent.
pub proof fn payload_arrives_unchanged(st: ParserView, ev: EventView, data: Seq<char>)
    requires
        between_frames(st),
        ev.data == Some(data),
        forall|i: int| 0 <= i < data.len() ==> data[i] != '\r',
    ensures
        bytes_read(st, ev.encoded()).1.last() == ParsedView::Event(
            FrameView {
                name: text::non_empty(opt_folded(ev.name)),
                data,
                id: id_after(ev, st.last_event_id),
            },
        ),
{
    parse_of_encode(st, ev);
    text::joined_lines_are_the_text(data);
}

/// A frame that carries no `id:` never moves the cursor.
pub proof fn no_id_keeps_the_cursor(st: ParserView, ev: EventView)
    requires
        between_frames(st),
        ev.id is None,
    ensures
        bytes_read(st, ev.encoded()).0.last_event_id == st.last_event_id,
{
    parse_of_encode(st, ev);
}

} // verus!
