//! HTTP headers and request heads, as the library reads and writes them.

use http::header::{InvalidHeaderValue, ToStrError};
use http::request::Parts;
use http::{HeaderMap, HeaderValue};
use vstd::prelude::*;
use vstd::utf8;

verus! {

/// A header multimap (`http`).
#[verifier::external_type_specification]
#[verifier::external_body]
#[verifier::reject_recursive_types(T)]
pub struct ExHeaderMap<T>(HeaderMap<T>);

/// A header value (`http`).
#[verifier::external_type_specification]
#[verifier::external_body]
pub struct ExHeaderValue(HeaderValue);

/// The error of a header value that is not visible ASCII (`http`).
#[verifier::external_type_specification]
#[verifier::external_body]
pub struct ExToStrError(ToStrError);

/// The error of a text that cannot be a header value (`http`).
#[verifier::external_type_specification]
#[verifier::external_body]
pub struct ExInvalidHeaderValue(InvalidHeaderValue);

/// The head of a request (`http`).
#[verifier::external_type_specification]
#[verifier::external_body]
pub struct ExParts(Parts);

/// What a header map holds: the first value of each name, the names in
/// lower case.
pub uninterp spec fn first_values(headers: HeaderMap) -> Map<Seq<char>, Seq<u8>>;

/// The bytes of a header value.
pub uninterp spec fn value_bytes(value: HeaderValue) -> Seq<u8>;

/// The query of a request head.
pub uninterp spec fn query_of(parts: Parts) -> Option<Seq<char>>;

/// The headers of a request head, as [`first_values`] tells them.
pub uninterp spec fn headers_of(parts: Parts) -> Map<Seq<char>, Seq<u8>>;

/// Whether a text holds no ASCII capital, as every name in a header map.
pub open spec fn lower_case(name: Seq<char>) -> bool {
    forall|i: int| 0 <= i < name.len() ==> !('A' <= #[trigger] name[i] && name[i] <= 'Z')
}

/// Whether a byte of a header value can be read as text: visible ASCII, a
/// space or a tab.
pub open spec fn visible(b: u8) -> bool {
    (32 <= b && b < 127) || b == 9
}

/// Bytes of ASCII as text.
pub open spec fn ascii_text(bytes: Seq<u8>) -> Seq<char> {
    Seq::new(bytes.len(), |i: int| bytes[i] as char)
}

/// A header value as text, when every byte of it is visible.
pub open spec fn readable(bytes: Seq<u8>) -> Option<Seq<char>> {
    if forall|i: int| 0 <= i < bytes.len() ==> visible(#[trigger] bytes[i]) {
        Some(ascii_text(bytes))
    } else {
        None
    }
}

/// The text of a header: its first value, when it is there and readable.
pub open spec fn header_text(values: Map<Seq<char>, Seq<u8>>, name: Seq<char>) -> Option<
    Seq<char>,
> {
    if values.contains_key(name) {
        readable(values[name])
    } else {
        None
    }
}

/// `HeaderMap::get` with a lower-case name: the first value under it, if
/// there is one.
#[verifier::external_body]
fn first_value<'a>(headers: &'a HeaderMap, name: &str) -> (r: Option<&'a HeaderValue>)
    requires
        lower_case(name@),
    ensures
        match r {
            Some(value) => first_values(*headers).contains_key(name@) && value_bytes(*value)
                == first_values(*headers)[name@],
            None => !first_values(*headers).contains_key(name@),
        },
{
    headers.get(name)
}

/// `HeaderValue::to_str`: the value as text if every byte of it is visible
/// ASCII or a tab, else an error.
#[verifier::external_body]
fn value_str(value: &HeaderValue) -> (r: Result<&str, ToStrError>)
    ensures
        match r {
            Ok(s) => readable(value_bytes(*value)) == Some(s@),
            Err(_) => readable(value_bytes(*value)) is None,
        },
{
    value.to_str()
}

/// Whether a byte may stand in a header value.
pub open spec fn valid_byte(b: u8) -> bool {
    (b >= 32 && b != 127) || b == 9
}

/// Whether bytes may be a header value.
pub open spec fn is_value(bytes: Seq<u8>) -> bool {
    forall|i: int| 0 <= i < bytes.len() ==> valid_byte(#[trigger] bytes[i])
}

/// `HeaderValue::from_str`: a value of the text's bytes if every one may
/// stand in a header value, else an error.
#[verifier::external_body]
fn value_of(text: &str) -> (r: Result<HeaderValue, InvalidHeaderValue>)
    ensures
        match r {
            Ok(value) => is_value(utf8::encode_utf8(text@)) && value_bytes(value)
                == utf8::encode_utf8(text@),
            Err(_) => !is_value(utf8::encode_utf8(text@)),
        },
{
    HeaderValue::from_str(text)
}

/// What an empty header map holds.
pub open spec fn no_values() -> Map<Seq<char>, Seq<u8>> {
    Map::empty()
}

/// `HeaderMap::new`: no headers.
#[verifier::external_body]
pub(crate) fn no_headers() -> (headers: HeaderMap)
    ensures
        first_values(headers) == no_values(),
{
    HeaderMap::new()
}

/// Whether a text is a short header name in lower case.
pub open spec fn is_name(name: Seq<char>) -> bool {
    &&& 0 < name.len() <= 64
    &&& forall|i: int|
        0 <= i < name.len() ==> (('a' <= #[trigger] name[i] && name[i] <= 'z') || name[i] == '-')
}

/// `HeaderMap::insert` with a lower-case name, into a map with room: the
/// value becomes the only one under the name; every other name keeps its
/// values.
#[verifier::external_body]
fn insert_value(headers: &mut HeaderMap, name: &'static str, value: HeaderValue)
    requires
        is_name(name@),
        first_values(*old(headers)).dom().finite(),
        first_values(*old(headers)).len() < 16,
    ensures
        first_values(*final(headers)) == first_values(*old(headers)).insert(
            name@,
            value_bytes(value),
        ),
{
    headers.insert(name, value);
}

/// Whether a text is visible ASCII.
pub open spec fn is_visible(text: Seq<char>) -> bool {
    forall|i: int| 0 <= i < text.len() ==> (' ' <= #[trigger] text[i] && text[i] <= '~')
}

/// Set a header.
pub(crate) fn put(headers: &mut HeaderMap, name: &'static str, text: &str)
    requires
        is_name(name@),
        is_visible(text@),
        first_values(*old(headers)).dom().finite(),
        first_values(*old(headers)).len() < 16,
    ensures
        first_values(*final(headers)) == first_values(*old(headers)).insert(
            name@,
            utf8::encode_utf8(text@),
        ),
{
    proof {
        visible_text_reads_back(text@);
        assert forall|i: int| 0 <= i < utf8::encode_utf8(text@).len() implies valid_byte(
            #[trigger] utf8::encode_utf8(text@)[i],
        ) by {
            assert(visible(utf8::encode_utf8(text@)[i]));
        }
    }
    if let Ok(value) = value_of(text) {
        insert_value(headers, name, value);
    }
}

/// Visible ASCII that is written as a header value is read back as it was.
pub proof fn visible_text_reads_back(text: Seq<char>)
    requires
        is_visible(text),
    ensures
        readable(utf8::encode_utf8(text)) == Some(text),
        forall|i: int|
            0 <= i < utf8::encode_utf8(text).len() ==> visible(
                #[trigger] utf8::encode_utf8(text)[i],
            ),
{
    crate::text::lemma_encode_ascii(text);
    let bytes = utf8::encode_utf8(text);
    assert forall|i: int| 0 <= i < bytes.len() implies visible(#[trigger] bytes[i]) && bytes[i] as char
        == text[i] by {
        lemma_visible_char(text[i]);
    }
    assert(ascii_text(bytes) =~= text);
}

proof fn lemma_visible_char(c: char)
    requires
        ' ' <= c <= '~',
    ensures
        visible(c as u8),
        (c as u8) as char == c,
{
}

/// `request::Parts::headers`: the headers of a request head.
#[verifier::external_body]
pub(crate) fn head_headers(parts: &Parts) -> (headers: &HeaderMap)
    ensures
        first_values(*headers) == headers_of(*parts),
{
    &parts.headers
}

/// `Uri::query` on `request::Parts::uri`: the query of a request head, if it
/// has one.
#[verifier::external_body]
pub(crate) fn head_query(parts: &Parts) -> (query: Option<&str>)
    ensures
        crate::text::opt_str(query) == query_of(*parts),
{
    parts.uri.query()
}

/// The first value of a header as text: whether it is there, and if so
/// whether it is readable.
pub fn read_text<'a>(headers: &'a HeaderMap, name: &str) -> (r: Option<
    Result<&'a str, ToStrError>,
>)
    requires
        lower_case(name@),
    ensures
        r is Some <==> first_values(*headers).contains_key(name@),
        r matches Some(Ok(s)) ==> readable(first_values(*headers)[name@]) == Some(s@),
        r matches Some(Err(_)) ==> readable(first_values(*headers)[name@]) is None,
{
    match first_value(headers, name) {
        Some(value) => Some(value_str(value)),
        None => None,
    }
}

/// The text of a header: its first value, when it is there and readable.
pub fn get_text<'a>(headers: &'a HeaderMap, name: &str) -> (r: Option<&'a str>)
    requires
        lower_case(name@),
    ensures
        crate::text::opt_str(r) == header_text(first_values(*headers), name@),
{
    match read_text(headers, name) {
        Some(Ok(s)) => Some(s),
        _ => None,
    }
}

/// A header value is text when every byte of it is visible ASCII, a space or a
/// tab, and then it is that text, byte for byte; one other byte anywhere, and
/// it is not.
pub proof fn what_can_be_read(bytes: Seq<u8>, i: int)
    requires
        0 <= i < bytes.len(),
    ensures
        bytes[i] >= 127 || (bytes[i] < 32 && bytes[i] != 9) ==> readable(bytes) is None,
        (forall|j: int|
            0 <= j < bytes.len() ==> (32 <= #[trigger] bytes[j] && bytes[j] <= 126) || bytes[j]
                == 9) ==> readable(bytes) is Some && readable(bytes)->0.len() == bytes.len()
            && readable(bytes)->0[i] == bytes[i] as char,
{
    if bytes[i] >= 127 || (bytes[i] < 32 && bytes[i] != 9) {
        assert(!visible(bytes[i]));
    }
}

/// The text of a header is that of its own value, whatever the others are.
pub proof fn a_header_is_found_by_its_name(
    values: Map<Seq<char>, Seq<u8>>,
    name: Seq<char>,
    text: Seq<char>,
)
    requires
        is_visible(text),
    ensures
        header_text(values.insert(name, utf8::encode_utf8(text)), name) == Some(text),
        header_text(values.remove(name), name) is None,
{
    visible_text_reads_back(text);
}

} // verus!
