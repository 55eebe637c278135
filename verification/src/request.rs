//! The cursor of a request: from a header, or from the query for clients
//! that cannot set headers.

use crate::headers;
use crate::text;
use http::HeaderMap;
use vstd::prelude::*;

verus! {

/// Header the browser's own reconnect sends automatically.
pub const HEADER: &'static str = "last-event-id";

/// Query parameter for clients that cannot set request headers — a fresh
/// `new EventSource(url)` after a watchdog reopen, for example.
pub const QUERY: &'static str = "last_event_id";

/// The value of a `key=value` pair, white space around it aside, when the
/// key is `key` and the value is not empty.
pub open spec fn pair_value(pair: Seq<char>, key: Seq<char>) -> Option<Seq<char>> {
    let at = text::span_until(pair, '=') as int;
    if at < pair.len() && pair.take(at) == key {
        text::non_empty(Some(text::trim(pair.skip(at + 1))))
    } else {
        None
    }
}

/// The value of the first pair of a query that has the key and a value.
pub open spec fn value_in(query: Seq<char>, key: Seq<char>) -> Option<Seq<char>>
    decreases query.len(),
{
    let end = text::span_until(query, '&') as int;
    match pair_value(query.take(end), key) {
        Some(value) => Some(value),
        None => if 0 <= end < query.len() {
            value_in(query.skip(end + 1), key)
        } else {
            None
        },
    }
}

/// What stands in a request where a cursor may.
#[derive(Debug)]
pub enum Presented<'a> {
    /// Nothing, or an empty value.
    Absent,
    /// A text, without the white space around it.
    Text(&'a str),
    /// A header value that is not text.
    Unreadable,
}

/// What stands in a request where a cursor may, by its text.
#[verifier::ext_equal]
pub enum PresentedView {
    Absent,
    Text(Seq<char>),
    Unreadable,
}

impl<'a> View for Presented<'a> {
    type V = PresentedView;

    open spec fn view(&self) -> PresentedView {
        match self {
            Presented::Absent => PresentedView::Absent,
            Presented::Text(s) => PresentedView::Text(s@),
            Presented::Unreadable => PresentedView::Unreadable,
        }
    }
}

/// The value of the header: an empty one counts as absent.
pub open spec fn in_header(values: Map<Seq<char>, Seq<u8>>) -> PresentedView {
    if values.contains_key(HEADER@) {
        match headers::readable(values[HEADER@]) {
            Some(value) => match text::non_empty(Some(text::trim(value))) {
                Some(value) => PresentedView::Text(value),
                None => PresentedView::Absent,
            },
            None => PresentedView::Unreadable,
        }
    } else {
        PresentedView::Absent
    }
}

/// The value of the query: an empty one counts as absent.
pub open spec fn in_query(query: Option<Seq<char>>) -> PresentedView {
    match query {
        Some(query) => match value_in(query, QUERY@) {
            Some(value) => PresentedView::Text(value),
            None => PresentedView::Absent,
        },
        None => PresentedView::Absent,
    }
}

/// The cursor that a request presents: the header's when it is present, else
/// the query's.
pub open spec fn presented(
    values: Map<Seq<char>, Seq<u8>>,
    query: Option<Seq<char>>,
) -> PresentedView {
    if in_header(values) is Absent {
        in_query(query)
    } else {
        in_header(values)
    }
}

/// The first `key=value` pair in a query string, without percent-decoding:
/// a cursor's alphabet has nothing to decode, and anything else is not a
/// cursor.
pub fn query_value<'a>(query: &'a str, key: &str) -> (r: Option<&'a str>)
    ensures
        text::opt_str(r) == value_in(query@, key@),
{
    let chars = text::chars_of(query);
    let wanted = text::chars_of(key);
    let n: usize = chars.len();
    let mut from: usize = 0;
    assert(query@.skip(0) =~= query@);
    loop
        invariant
            chars@ == query@,
            wanted@ == key@,
            n == chars.len(),
            from <= n,
            value_in(query@.skip(from as int), key@) == value_in(query@, key@),
        decreases n - from,
    {
        let end: usize = text::find_char(&chars, from, n, '&');
        let at: usize = text::find_char(&chars, from, end, '=');
        let ghost rest = query@.skip(from as int);
        let ghost pair = rest.take(end - from);
        assert(chars@.subrange(from as int, n as int) =~= rest);
        assert(chars@.subrange(from as int, end as int) =~= pair);
        assert(chars@.subrange(from as int, at as int) =~= pair.take(at - from));
        if at < end && text::range_eq(&chars, from, at, &wanted) {
            let a: usize = text::skip_space(&chars, at + 1, end);
            let b: usize = text::skip_space_back(&chars, a, end);
            assert(chars@.subrange(at + 1, end as int) =~= pair.skip(at - from + 1));
            if a < b {
                return Some(query.substring_char(a, b));
            }
        }
        assert(pair_value(pair, key@) is None);
        if end >= n {
            return None;
        }
        assert(rest.skip(end - from + 1) =~= query@.skip(end + 1));
        from = end + 1;
    }
}

/// The cursor that a request presents, as it stands there. The header wins
/// over the query when both are present; an empty value counts as absent.
pub fn presented_cursor<'a>(headers: &'a HeaderMap, query: Option<&'a str>) -> (r: Presented<'a>)
    ensures
        r@ == presented(headers::first_values(*headers), text::opt_str(query)),
{
    proof {
        reveal_strlit("last-event-id");
    }
    match headers::read_text(headers, HEADER) {
        Some(Ok(value)) => {
            let value = text::trimmed(value);
            if value.unicode_len() > 0 {
                return Presented::Text(value);
            }
        },
        Some(Err(_)) => {
            return Presented::Unreadable;
        },
        None => {},
    }
    match query {
        Some(query) => match query_value(query, QUERY) {
            Some(value) => Presented::Text(value),
            None => Presented::Absent,
        },
        None => Presented::Absent,
    }
}

/// A pair is found wherever it stands in a query: what a query made of two
/// gives is what the first gives, or else what the second does.
pub proof fn a_pair_is_found_wherever_it_stands(a: Seq<char>, b: Seq<char>, key: Seq<char>)
    ensures
        value_in(a + seq!['&'] + b, key) == match value_in(a, key) {
            Some(value) => Some(value),
            None => value_in(b, key),
        },
    decreases a.len(),
{
    let whole = a + seq!['&'] + b;
    let end = text::span_until(a, '&') as int;
    text::lemma_span_until(a, '&');
    assert forall|i: int| 0 <= i < end implies whole[i] != '&' by {
        assert(a[i] != '&');
    }
    assert(whole[end] == '&');
    text::lemma_span_until_is(whole, '&', end);
    assert(whole.take(end) =~= a.take(end));
    if end < a.len() {
        let rest = a.skip(end + 1);
        assert(whole.skip(end + 1) =~= rest + seq!['&'] + b);
        a_pair_is_found_wherever_it_stands(rest, b, key);
    } else {
        assert(whole.skip(end + 1) =~= b);
    }
}

/// One pair gives what stands after the first `=`, without the white space
/// around it, when what stands before is the key; a pair with another key,
/// with nothing but white space after the `=`, or without one gives nothing.
pub proof fn a_pair_is_a_key_and_a_value(name: Seq<char>, value: Seq<char>, key: Seq<char>)
    requires
        !name.contains('=') && !name.contains('&'),
        !value.contains('&'),
    ensures
        name == key && text::trim(value).len() > 0 ==> value_in(name + seq!['='] + value, key)
            == Some(text::trim(value)),
        name != key || text::trim(value).len() == 0 ==> value_in(name + seq!['='] + value, key)
            is None,
        value_in(name, key) is None,
{
    let pair = name + seq!['='] + value;
    let n = name.len() as int;
    assert forall|i: int| 0 <= i < n implies name[i] != '=' && name[i] != '&' by {
        assert(name.contains(name[i]));
    }
    assert forall|i: int| 0 <= i < pair.len() implies pair[i] != '&' by {
        if i > n {
            assert(value.contains(value[i - n - 1]));
            assert(pair[i] == value[i - n - 1]);
        } else if i < n {
            assert(pair[i] == name[i]);
        }
    }
    text::lemma_span_until_is(pair, '&', pair.len() as int);
    text::lemma_span_until_is(name, '&', n);
    assert(pair.take(pair.len() as int) =~= pair);
    assert(name.take(n) =~= name);
    assert forall|i: int| 0 <= i < n implies pair[i] != '=' by {
        assert(pair[i] == name[i]);
    }
    text::lemma_span_until_is(pair, '=', n);
    text::lemma_span_until_is(name, '=', n);
    assert(pair.take(n) =~= name);
    assert(pair.skip(n + 1) =~= value);
}

/// The header wins: one that is text, and not blank, is what a request
/// presents, without the white space around it, whatever the query says. One
/// that cannot be read is not passed over for the query either.
pub proof fn the_header_wins_over_the_query(
    values: Map<Seq<char>, Seq<u8>>,
    text: Seq<char>,
    query: Option<Seq<char>>,
)
    requires
        values.contains_key("last-event-id"@),
    ensures
        headers::readable(values["last-event-id"@]) == Some(text) && text::trim(text).len() > 0
            ==> presented(values, query) == PresentedView::Text(text::trim(text)),
        headers::readable(values["last-event-id"@]) is None ==> presented(values, query)
            == PresentedView::Unreadable,
        headers::readable(values["last-event-id"@]) == Some(text) && text::trim(text).len() == 0
            ==> presented(values, query) == presented(values.remove("last-event-id"@), query),
{
}

/// Without the header, the query's `last_event_id` is what a request presents,
/// and without that nothing is.
pub proof fn the_query_stands_in_for_the_header(
    values: Map<Seq<char>, Seq<u8>>,
    query: Seq<char>,
)
    requires
        !values.contains_key("last-event-id"@),
    ensures
        presented(values, None) == PresentedView::Absent,
        value_in(query, "last_event_id"@) matches Some(value) ==> presented(values, Some(query))
            == PresentedView::Text(value),
        value_in(query, "last_event_id"@) is None ==> presented(values, Some(query))
            == PresentedView::Absent,
{
}

/// A cursor in the query is found wherever it stands, when no pair before it
/// gives one.
pub proof fn a_cursor_in_the_query_is_found(
    values: Map<Seq<char>, Seq<u8>>,
    a: Seq<char>,
    token: Seq<char>,
    b: Seq<char>,
)
    requires
        !values.contains_key("last-event-id"@),
        crate::cursor::is_token(token),
        value_in(a, "last_event_id"@) is None,
    ensures
        presented(
            values,
            Some(a + seq!['&'] + ("last_event_id="@ + token) + seq!['&'] + b),
        ) == PresentedView::Text(token),
        presented(values, Some("last_event_id="@ + token)) == PresentedView::Text(token),
{
    reveal_strlit("last_event_id");
    reveal_strlit("last_event_id=");
    let key = "last_event_id"@;
    let pair = "last_event_id="@ + token;
    assert(pair =~= key + seq!['='] + token);
    assert forall|i: int| 0 <= i < token.len() implies !text::is_white_space(#[trigger] token[i])
        && token[i] != '&' by {
        assert(crate::cursor::unreserved(token[i]));
    }
    let none = Seq::<char>::empty();
    assert(!text::is_white_space(token[0]));
    assert(!text::is_white_space(token[token.len() - 1]));
    text::trimming_takes_white_space_off_the_ends(none, token, none);
    assert(none + token + none =~= token);
    a_pair_is_a_key_and_a_value(key, token, key);
    a_pair_is_found_wherever_it_stands(a, pair, key);
    a_pair_is_found_wherever_it_stands(a + seq!['&'] + pair, b, key);
    assert(a + seq!['&'] + ("last_event_id="@ + token) + seq!['&'] + b =~= (a + seq!['&'] + pair)
        + seq!['&'] + b);
}

} // verus!
