//! Where a reconnecting client wants to resume from.

use crate::cursor::{self, Cursor};
use crate::headers;
use crate::request::{self, Presented, PresentedView};
use crate::text;
use http::request::Parts;
use http::HeaderMap;
use vstd::prelude::*;

pub use crate::request::{HEADER, QUERY};

verus! {

/// The client's resume request, parsed from the header or the query.
#[derive(Debug, PartialEq, Eq)]
pub enum Resume {
    /// No cursor: a first connection. The server sends its connect snapshot.
    NoCursor,
    /// Replay everything after this cursor.
    Since(Cursor),
    /// A value that is not a cursor at all (outside the token alphabet, too
    /// long, or no text). Answered like a cursor the log never issued: `resync
    /// (unknown)` and a snapshot, so the client drops it.
    Invalid,
}

/// A resume request by its token.
#[verifier::ext_equal]
pub enum ResumeView {
    NoCursor,
    Since(Seq<char>),
    Invalid,
}

impl View for Resume {
    type V = ResumeView;

    open spec fn view(&self) -> ResumeView {
        match self {
            Resume::NoCursor => ResumeView::NoCursor,
            Resume::Since(c) => ResumeView::Since(c@),
            Resume::Invalid => ResumeView::Invalid,
        }
    }
}

impl ResumeView {
    /// What a presented value asks for.
    pub open spec fn of(raw: PresentedView) -> ResumeView {
        match raw {
            PresentedView::Absent => ResumeView::NoCursor,
            PresentedView::Text(s) => if cursor::is_token(s) {
                ResumeView::Since(s)
            } else {
                ResumeView::Invalid
            },
            PresentedView::Unreadable => ResumeView::Invalid,
        }
    }
}

impl Clone for Resume {
    fn clone(&self) -> (r: Self)
        ensures
            r == *self,
    {
        match self {
            Resume::NoCursor => Resume::NoCursor,
            Resume::Since(c) => Resume::Since(c.clone()),
            Resume::Invalid => Resume::Invalid,
        }
    }
}

impl Resume {
    /// Parse from a request. The header wins over the query when both are
    /// present; an empty value counts as absent.
    pub fn parse(headers: &HeaderMap, query: Option<&str>) -> (r: Self)
        ensures
            r@ == ResumeView::of(
                request::presented(headers::first_values(*headers), text::opt_str(query)),
            ),
    {
        match request::presented_cursor(headers, query) {
            Presented::Absent => Resume::NoCursor,
            Presented::Text(s) => {
                proof {
                    cursor::accepted_is_a_token(s@);
                }
                match Cursor::parse(s) {
                    Ok(c) => Resume::Since(c),
                    Err(_) => Resume::Invalid,
                }
            },
            Presented::Unreadable => Resume::Invalid,
        }
    }

    /// Parse from the request head (`http::request::Parts`).
    pub fn from_parts(parts: &Parts) -> (r: Self)
        ensures
            r@ == ResumeView::of(
                request::presented(headers::headers_of(*parts), headers::query_of(*parts)),
            ),
    {
        Self::parse(headers::head_headers(parts), headers::head_query(parts))
    }

    /// The cursor, when there is one.
    pub fn cursor(&self) -> (r: Option<&Cursor>)
        ensures
            match r {
                Some(c) => *self == Resume::Since(*c),
                None => !(self is Since),
            },
    {
        match self {
            Resume::Since(c) => Some(c),
            Resume::NoCursor | Resume::Invalid => None,
        }
    }
}

/// Every token of the profile is a cursor to resume from, and nothing else is:
/// any other text, and a value that is no text, is invalid, and only nothing is
/// a first connection.
pub proof fn what_a_request_asks_for(token: Seq<char>)
    ensures
        ResumeView::of(PresentedView::Absent) == ResumeView::NoCursor,
        ResumeView::of(PresentedView::Unreadable) == ResumeView::Invalid,
        cursor::verdict(token) is Ok ==> ResumeView::of(PresentedView::Text(token))
            == ResumeView::Since(token),
        cursor::verdict(token) is Err ==> ResumeView::of(PresentedView::Text(token))
            == ResumeView::Invalid,
{
    cursor::accepted_is_a_token(token);
}

} // verus!
