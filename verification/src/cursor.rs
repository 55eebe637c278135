//! The resume cursor: an opaque token the server issues on `id:` and a
//! client hands back on reconnect.

use crate::text;
use std::fmt::Formatter;
use std::sync::Arc;
use vstd::prelude::*;
use vstd::utf8;

verus! {

/// The longest token the profile allows, in bytes.
pub const MAX_LEN: usize = 128;

/// A resume cursor — the `id:` of an event, and the `Last-Event-ID` (or
/// `?last_event_id=`) a client presents on reconnect.
///
/// Opaque to the client: only the log that issued it can order it or say
/// whether it can still replay from it. On the wire it is 1 to 128 bytes
/// of the URL-unreserved alphabet (`A–Z a–z 0–9 - . _ ~`), so it travels
/// in a header, a query string and a JSON string without any encoding. A
/// log builds its tokens however it likes within that alphabet: a sequence
/// number, `<generation>-<sequence>`, a stream id, a hex digest.
///
/// Cloning is a reference count: a cursor is copied into every replayed
/// event and every fan-out receiver, and none of those should allocate.
#[derive(Eq, Hash)]
pub struct Cursor(Arc<String>);

/// A formatter (`std`).
#[verifier::external_type_specification]
#[verifier::external_body]
pub struct ExFormatter<'a>(Formatter<'a>);

/// The error of a formatter (`std`).
#[verifier::external_type_specification]
#[verifier::external_body]
pub struct ExFormatError(std::fmt::Error);

/// What was written through a formatter.
pub uninterp spec fn printed(f: Formatter) -> Seq<char>;

/// `Formatter::write_str`: on success the text was written, after what was
/// there. Nothing is claimed of when it succeeds, nor of what an error
/// leaves.
#[verifier::external_body]
fn write_text(f: &mut Formatter<'_>, s: &str) -> (r: Result<(), std::fmt::Error>)
    ensures
        r is Ok ==> printed(*final(f)) == printed(*old(f)) + s@,
{
    f.write_str(s)
}

impl std::fmt::Debug for Cursor {
    /// `Cursor(<token>)`.
    fn fmt(&self, f: &mut Formatter<'_>) -> (r: Result<(), std::fmt::Error>)
        ensures
            r is Ok ==> printed(*final(f)) == printed(*old(f)) + ("Cursor("@ + self@ + ")"@),
    {
        let shown = self.to_debug_text();
        write_text(f, shown.as_str())
    }
}

/// Why a string is not a cursor.
#[derive(Debug, Clone, Copy, PartialEq, Eq, Structural)]
pub enum InvalidCursor {
    /// The token is empty.
    Empty,
    /// The token is longer than [`MAX_LEN`] bytes.
    TooLong(usize),
    /// The token contains a character outside the unreserved alphabet.
    Character(char),
}

/// The URL-unreserved alphabet.
pub open spec fn unreserved(c: char) -> bool {
    ||| 'a' <= c <= 'z'
    ||| 'A' <= c <= 'Z'
    ||| '0' <= c <= '9'
    ||| c == '-'
    ||| c == '.'
    ||| c == '_'
    ||| c == '~'
}

/// Only unreserved characters.
pub open spec fn all_unreserved(token: Seq<char>) -> bool {
    forall|i: int| 0 <= i < token.len() ==> unreserved(#[trigger] token[i])
}

/// A token of the profile: 1 to [`MAX_LEN`] bytes of the unreserved alphabet.
pub open spec fn is_token(token: Seq<char>) -> bool {
    &&& token.len() > 0
    &&& utf8::encode_utf8(token).len() <= MAX_LEN
    &&& all_unreserved(token)
}

/// The first character of `token` outside the alphabet, when there is one.
pub open spec fn first_reserved(token: Seq<char>) -> Option<char>
    decreases token.len(),
{
    if token.len() == 0 {
        None
    } else if !unreserved(token[0]) {
        Some(token[0])
    } else {
        first_reserved(token.drop_first())
    }
}

/// Whether `token` is a cursor, or the first reason why it is not: that it
/// is empty comes before its length, and its length before its characters.
pub open spec fn verdict(token: Seq<char>) -> Result<(), InvalidCursor> {
    if token.len() == 0 {
        Err(InvalidCursor::Empty)
    } else if utf8::encode_utf8(token).len() > MAX_LEN {
        Err(InvalidCursor::TooLong(utf8::encode_utf8(token).len() as usize))
    } else {
        match first_reserved(token) {
            Some(c) => Err(InvalidCursor::Character(c)),
            None => Ok(()),
        }
    }
}

/// A text is accepted exactly when it is a token of the profile.
pub proof fn accepted_is_a_token(token: Seq<char>)
    ensures
        verdict(token) is Ok <==> is_token(token),
{
    lemma_first_reserved(token);
}

/// There is no first reserved character exactly when there is none.
proof fn lemma_first_reserved(token: Seq<char>)
    ensures
        first_reserved(token) is None <==> all_unreserved(token),
        first_reserved(token) matches Some(c) ==> !unreserved(c) && token.contains(c),
    decreases token.len(),
{
    if token.len() > 0 {
        let rest = token.drop_first();
        lemma_first_reserved(rest);
        assert forall|i: int| 0 <= i < rest.len() implies rest[i] == #[trigger] token[i + 1] by {}
        if unreserved(token[0]) {
            if all_unreserved(rest) {
                assert forall|i: int| 0 <= i < token.len() implies unreserved(
                    #[trigger] token[i],
                ) by {
                    if i > 0 {
                        assert(unreserved(rest[i - 1]));
                    }
                }
            } else {
                let i = choose|i: int| 0 <= i < rest.len() && !unreserved(#[trigger] rest[i]);
                assert(!unreserved(token[i + 1]));
            }
            if let Some(c) = first_reserved(rest) {
                let i = choose|i: int| 0 <= i < rest.len() && rest[i] == c;
                assert(token[i + 1] == c);
            }
        }
    }
}

/// Whether a character is in the unreserved alphabet.
pub fn is_unreserved(c: char) -> (r: bool)
    ensures
        r == unreserved(c),
{
    ('a' <= c && c <= 'z') || ('A' <= c && c <= 'Z') || ('0' <= c && c <= '9') || c == '-' || c
        == '.' || c == '_' || c == '~'
}

/// Check a token against the profile.
pub fn validate(token: &str) -> (r: Result<(), InvalidCursor>)
    ensures
        r == verdict(token@),
{
    if token.is_empty() {
        return Err(InvalidCursor::Empty);
    }
    let len: usize = token.as_bytes().len();
    if len > MAX_LEN {
        return Err(InvalidCursor::TooLong(len));
    }
    let chars = text::chars_of(token);
    let mut i: usize = 0;
    assert(token@.skip(0) =~= token@);
    while i < chars.len()
        invariant
            chars@ == token@,
            i <= chars.len(),
            0 < token@.len(),
            utf8::encode_utf8(token@).len() <= MAX_LEN,
            first_reserved(token@) == first_reserved(token@.skip(i as int)),
        decreases chars.len() - i,
    {
        if !is_unreserved(chars[i]) {
            return Err(InvalidCursor::Character(chars[i]));
        }
        assert(token@.skip(i as int).drop_first() =~= token@.skip(i + 1));
        i += 1;
    }
    Ok(())
}

/// What `format!("{:?}", c)` writes for a character.
pub uninterp spec fn char_debug(c: char) -> Seq<char>;

/// `char`'s `Debug`: the character in single quotes, escaped where std
/// escapes it. The text is named, not spelled out.
#[verifier::external_body]
fn debug_char(c: char) -> (r: String)
    ensures
        r@ == char_debug(c),
{
    format!("{:?}", c)
}

impl InvalidCursor {
    /// The reason in words.
    pub open spec fn text(self) -> Seq<char> {
        match self {
            InvalidCursor::Empty => "cursor is empty"@,
            InvalidCursor::TooLong(n) => "cursor is "@ + text::decimal(n as nat)
                + " bytes; at most 128"@,
            InvalidCursor::Character(c) => "cursor contains "@ + char_debug(c)
                + "; only A-Z a-z 0-9 - . _ ~"@,
        }
    }

    /// The reason in words.
    pub fn to_text(&self) -> (s: String)
        ensures
            s@ == self.text(),
    {
        match self {
            InvalidCursor::Empty => "cursor is empty".to_owned(),
            InvalidCursor::TooLong(n) => {
                let mut s = "cursor is ".to_owned();
                text::push_decimal(&mut s, *n as u128);
                s.append(" bytes; at most 128");
                s
            },
            InvalidCursor::Character(c) => {
                let mut s = "cursor contains ".to_owned();
                s.append(debug_char(*c).as_str());
                s.append("; only A-Z a-z 0-9 - . _ ~");
                s
            },
        }
    }
}

impl View for Cursor {
    type V = Seq<char>;

    /// The token.
    closed spec fn view(&self) -> Seq<char> {
        (*self.0)@
    }
}

impl Cursor {
    #[verifier::type_invariant]
    spec fn inv(self) -> bool {
        is_token(self.0@)
    }

    /// The very string that was handed over is kept.
    pub closed spec fn holds(&self, token: String) -> bool {
        *self == Cursor(Arc::new(token))
    }

    /// Validate a token.
    pub fn parse(token: &str) -> (r: Result<Self, InvalidCursor>)
        ensures
            match r {
                Ok(c) => verdict(token@) is Ok && c@ == token@,
                Err(e) => verdict(token@) == Err::<(), InvalidCursor>(e),
            },
    {
        proof {
            accepted_is_a_token(token@);
        }
        match validate(token) {
            Ok(()) => Ok(Cursor(Arc::new(token.to_owned()))),
            Err(e) => Err(e),
        }
    }

    /// Validate a token that is owned already, and keep it.
    pub fn from_string(token: String) -> (r: Result<Self, InvalidCursor>)
        ensures
            match r {
                Ok(c) => verdict(token@) is Ok && c@ == token@ && c.holds(token),
                Err(e) => verdict(token@) == Err::<(), InvalidCursor>(e),
            },
    {
        proof {
            accepted_is_a_token(token@);
        }
        match validate(token.as_str()) {
            Ok(()) => Ok(Cursor(Arc::new(token))),
            Err(e) => Err(e),
        }
    }

    /// A token that is known to be valid.
    pub fn checked(token: String) -> (c: Self)
        requires
            is_token(token@),
        ensures
            c@ == token@,
            c.holds(token),
    {
        Cursor(Arc::new(token))
    }

    /// The token.
    pub fn as_str(&self) -> (r: &str)
        ensures
            r@ == self@,
            is_token(r@),
    {
        proof {
            use_type_invariant(self);
        }
        self.0.as_str()
    }

    /// The token, copied.
    pub fn to_text(&self) -> (r: String)
        ensures
            r@ == self@,
            is_token(r@),
    {
        self.as_str().to_owned()
    }

    /// The token as a debug print shows it: `Cursor(<token>)`.
    pub fn to_debug_text(&self) -> (r: String)
        ensures
            r@ == "Cursor("@ + self@ + ")"@,
    {
        let mut s = "Cursor(".to_owned();
        s.append(self.as_str());
        s.append(")");
        s
    }
}

impl Clone for Cursor {
    fn clone(&self) -> (r: Self)
        ensures
            r == *self,
    {
        proof {
            use_type_invariant(self);
        }
        Cursor(self.0.clone())
    }
}

impl PartialEq for Cursor {
    fn eq(&self, other: &Cursor) -> (r: bool) {
        text::text_eq(self.as_str(), other.as_str())
    }
}

impl vstd::std_specs::cmp::PartialEqSpecImpl for Cursor {
    open spec fn obeys_eq_spec() -> bool {
        true
    }

    open spec fn eq_spec(&self, other: &Cursor) -> bool {
        self@ == other@
    }
}

impl<'a> PartialEq<&'a str> for Cursor {
    fn eq(&self, other: &&'a str) -> (r: bool) {
        text::text_eq(self.as_str(), *other)
    }
}

impl<'a> vstd::std_specs::cmp::PartialEqSpecImpl<&'a str> for Cursor {
    open spec fn obeys_eq_spec() -> bool {
        true
    }

    open spec fn eq_spec(&self, other: &&'a str) -> bool {
        self@ == (*other)@
    }
}

impl PartialEq<str> for Cursor {
    fn eq(&self, other: &str) -> (r: bool) {
        text::text_eq(self.as_str(), other)
    }
}

impl vstd::std_specs::cmp::PartialEqSpecImpl<str> for Cursor {
    open spec fn obeys_eq_spec() -> bool {
        true
    }

    open spec fn eq_spec(&self, other: &str) -> bool {
        self@ == other@
    }
}

impl std::str::FromStr for Cursor {
    type Err = InvalidCursor;

    fn from_str(s: &str) -> (r: Result<Self, InvalidCursor>)
        ensures
            match r {
                Ok(c) => verdict(s@) is Ok && c@ == s@,
                Err(e) => verdict(s@) == Err::<(), InvalidCursor>(e),
            },
    {
        Cursor::parse(s)
    }
}

impl TryFrom<String> for Cursor {
    type Error = InvalidCursor;

    fn try_from(s: String) -> (r: Result<Self, InvalidCursor>)
        ensures
            match r {
                Ok(c) => verdict(s@) is Ok && c@ == s@,
                Err(e) => verdict(s@) == Err::<(), InvalidCursor>(e),
            },
    {
        Cursor::from_string(s)
    }
}

impl vstd::std_specs::convert::TryFromSpecImpl<String> for Cursor {
    open spec fn obeys_try_from_spec() -> bool {
        true
    }

    closed spec fn try_from_spec(s: String) -> Result<Self, InvalidCursor> {
        match verdict(s@) {
            Ok(()) => Ok(Cursor(Arc::new(s))),
            Err(e) => Err(e),
        }
    }
}

impl<'a> From<&'a Cursor> for String {
    fn from(c: &'a Cursor) -> (r: String)
        ensures
            r@ == c@,
    {
        (*c.0).clone()
    }
}

impl<'a> vstd::std_specs::convert::FromSpecImpl<&'a Cursor> for String {
    open spec fn obeys_from_spec() -> bool {
        true
    }

    closed spec fn from_spec(c: &'a Cursor) -> String {
        *c.0
    }
}

impl AsRef<str> for Cursor {
    fn as_ref(&self) -> (r: &str)
        ensures
            r@ == self@,
    {
        self.as_str()
    }
}

// ---------------------------------------------------------------------------
// Laws
// ---------------------------------------------------------------------------

/// The alphabet by its code points: digits, capitals, small letters, and `-`,
/// `.`, `_` and `~`.
pub proof fn the_alphabet(c: char)
    ensures
        unreserved(c) <==> {
            let n = c as u32;
            48 <= n <= 57 || 65 <= n <= 90 || 97 <= n <= 122 || n == 45 || n == 46 || n == 95 || n
                == 126
        },
{
}

/// What is refused, and why: the empty text; one of more than 128 bytes, with
/// their number; or else one with a character outside the alphabet, with the
/// first such. Anything else is accepted.
pub proof fn refusals_say_why(token: Seq<char>, n: usize, i: int)
    ensures
        token.len() == 0 ==> verdict(token) == Err::<(), InvalidCursor>(InvalidCursor::Empty),
        token.len() > 0 && utf8::encode_utf8(token).len() > 128 && utf8::encode_utf8(token).len()
            == n ==> verdict(token) == Err::<(), InvalidCursor>(InvalidCursor::TooLong(n)),
        utf8::encode_utf8(token).len() <= 128 && 0 <= i < token.len() && !unreserved(token[i]) && (
        forall|j: int| 0 <= j < i ==> unreserved(#[trigger] token[j])) ==> verdict(token) == Err::<
            (),
            InvalidCursor,
        >(InvalidCursor::Character(token[i])),
        0 < token.len() && utf8::encode_utf8(token).len() <= 128 && (forall|j: int|
            0 <= j < token.len() ==> unreserved(#[trigger] token[j])) ==> verdict(token) is Ok,
{
    accepted_is_a_token(token);
    if 0 <= i < token.len() && !unreserved(token[i]) && (forall|j: int|
        0 <= j < i ==> unreserved(#[trigger] token[j])) {
        lemma_first_reserved_is(token, i);
    }
}

proof fn lemma_first_reserved_is(token: Seq<char>, i: int)
    requires
        0 <= i < token.len(),
        !unreserved(token[i]),
        forall|j: int| 0 <= j < i ==> unreserved(#[trigger] token[j]),
    ensures
        first_reserved(token) == Some(token[i]),
    decreases token.len(),
{
    if i > 0 {
        let rest = token.drop_first();
        assert(unreserved(token[0]));
        assert forall|j: int| 0 <= j < i - 1 implies unreserved(#[trigger] rest[j]) by {
            assert(rest[j] == token[j + 1]);
        }
        lemma_first_reserved_is(rest, i - 1);
    }
}

/// Cursors are equal when their tokens are, and to a text when it is their
/// token.
pub proof fn cursors_are_equal_by_their_tokens(a: Cursor, b: Cursor, s: &str)
    ensures
        vstd::std_specs::cmp::PartialEqSpec::eq_spec(&a, &b) <==> a@ == b@,
        vstd::std_specs::cmp::PartialEqSpec::eq_spec(&a, s) <==> a@ == s@,
        vstd::std_specs::cmp::PartialEqSpec::eq_spec(&a, &s) <==> a@ == s@,
{
}

} // verus!
