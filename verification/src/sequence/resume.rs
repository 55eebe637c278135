//! Where a reconnecting client wants to resume from.

use crate::headers;
use crate::request::{self, Presented, PresentedView};
use crate::text;
use http::request::Parts;
use http::HeaderMap;
use vstd::prelude::*;

pub use crate::request::{HEADER, QUERY};

verus! {

/// The client's resume request, parsed from the header or the query.
#[derive(Debug, Clone, Copy, PartialEq, Eq, Structural)]
pub enum Resume {
    /// No cursor: a first connection. The server sends its connect snapshot.
    NoCursor,
    /// Replay everything with `seq > n`.
    Since(u64),
    /// A cursor that is not a sequence number. Treated as unknown: the
    /// server answers with `resync(unknown)` and a snapshot.
    Malformed,
}

impl Resume {
    /// What a presented cursor asks for.
    pub open spec fn of(raw: PresentedView) -> Resume {
        match raw {
            PresentedView::Absent => Resume::NoCursor,
            PresentedView::Text(s) => match text::text_to_u64(s) {
                Some(n) => if n == 0 {
                    Resume::NoCursor
                } else {
                    Resume::Since(n)
                },
                None => Resume::Malformed,
            },
            PresentedView::Unreadable => Resume::Malformed,
        }
    }

    /// The number that stands for a request where there is no room for more.
    pub open spec fn number(self) -> u64 {
        match self {
            Resume::NoCursor => 0,
            Resume::Since(n) => n,
            Resume::Malformed => u64::MAX,
        }
    }

    /// The request that a number stands for.
    pub open spec fn of_number(n: u64) -> Resume {
        if n == 0 {
            Resume::NoCursor
        } else if n == u64::MAX {
            Resume::Malformed
        } else {
            Resume::Since(n)
        }
    }

    /// Parse from a request. The header wins over the query when both are
    /// present; an empty value counts as absent.
    pub fn parse(headers: &HeaderMap, query: Option<&str>) -> (r: Self)
        ensures
            r == Self::of(
                request::presented(headers::first_values(*headers), text::opt_str(query)),
            ),
    {
        match request::presented_cursor(headers, query) {
            Presented::Absent => Resume::NoCursor,
            Presented::Text(s) => match text::parse_u64(s) {
                Some(n) => if n == 0 {
                    Resume::NoCursor
                } else {
                    Resume::Since(n)
                },
                None => Resume::Malformed,
            },
            Presented::Unreadable => Resume::Malformed,
        }
    }

    /// Parse from the request head (`http::request::Parts`).
    pub fn from_parts(parts: &Parts) -> (r: Self)
        ensures
            r == Self::of(
                request::presented(headers::headers_of(*parts), headers::query_of(*parts)),
            ),
    {
        Self::parse(headers::head_headers(parts), headers::head_query(parts))
    }

    /// The cursor on an internal wire that has no room for an enum: `0` for
    /// none, `u64::MAX` for malformed (which any log reports as unknown).
    pub fn since(self) -> (n: u64)
        ensures
            n == self.number(),
    {
        match self {
            Resume::NoCursor => 0,
            Resume::Since(n) => n,
            Resume::Malformed => u64::MAX,
        }
    }

    /// Inverse of [`Resume::since`].
    pub fn from_since(n: u64) -> (r: Self)
        ensures
            r == Self::of_number(n),
    {
        if n == 0 {
            Resume::NoCursor
        } else if n == u64::MAX {
            Resume::Malformed
        } else {
            Resume::Since(n)
        }
    }
}

/// A request survives the internal wire, unless it asks for one of the two
/// numbers that stand for something else there; every number survives the
/// way through a request.
pub proof fn the_internal_wire_is_faithful(r: Resume, n: u64)
    requires
        r matches Resume::Since(n) ==> 0 < n < u64::MAX,
    ensures
        Resume::of_number(r.number()) == r,
        Resume::of_number(n).number() == n,
{
}

/// Every number from 1 on is a cursor to resume from, 0 and nothing at all are
/// a first connection, and anything else is malformed.
pub proof fn what_a_request_asks_for(n: u64, other: Seq<char>)
    requires
        text::text_to_u64(other) is None,
    ensures
        n > 0 ==> Resume::of(PresentedView::Text(text::decimal(n as nat))) == Resume::Since(n),
        Resume::of(PresentedView::Text(text::decimal(0))) == Resume::NoCursor,
        Resume::of(PresentedView::Absent) == Resume::NoCursor,
        Resume::of(PresentedView::Text(other)) == Resume::Malformed,
        Resume::of(PresentedView::Unreadable) == Resume::Malformed,
{
    let none = Seq::<char>::empty();
    text::numbers_read_back(n as nat, none);
    text::numbers_read_back(0, none);
    assert(none + text::decimal(n as nat) =~= text::decimal(n as nat));
    assert(none + text::decimal(0) =~= text::decimal(0));
}

} // verus!
