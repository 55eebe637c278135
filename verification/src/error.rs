//! What can go wrong between a log and a stream.

use crate::text;
use vstd::prelude::*;
use vstd::std_specs::convert::FromSpecImpl;

verus! {

/// A storage failure. Memory never fails; a backend maps its own errors.
#[derive(Debug)]
pub enum LogError {
    /// The storage backend failed.
    Backend(String),
}

impl LogError {
    /// The error in words.
    pub open spec fn text(self) -> Seq<char> {
        match self {
            LogError::Backend(why) => "event log backend: "@ + why@,
        }
    }

    /// The error in words.
    pub fn to_text(&self) -> (s: String)
        ensures
            s@ == self.text(),
    {
        match self {
            LogError::Backend(why) => {
                let mut s = "event log backend: ".to_owned();
                s.append(why.as_str());
                s
            },
        }
    }
}

/// Why the live stream stopped delivering.
#[derive(Debug)]
#[non_exhaustive]
pub enum StreamError {
    /// A slow consumer fell behind the fan-out buffer and lost `n` events.
    /// The right answer is to end the response: the client reconnects with
    /// its cursor and the log replays what the buffer dropped.
    Lagged(u64),
    /// The log failed.
    Log(LogError),
}

impl StreamError {
    /// The error in words.
    pub open spec fn text(self) -> Seq<char> {
        match self {
            StreamError::Lagged(n) => "consumer lagged by "@ + text::decimal(n as nat)
                + " events"@,
            StreamError::Log(e) => e.text(),
        }
    }

    /// The error in words.
    pub fn to_text(&self) -> (s: String)
        ensures
            s@ == self.text(),
    {
        match self {
            StreamError::Lagged(n) => {
                let mut s = "consumer lagged by ".to_owned();
                text::push_decimal(&mut s, *n as u128);
                s.append(" events");
                s
            },
            StreamError::Log(e) => e.to_text(),
        }
    }
}

impl From<LogError> for StreamError {
    fn from(e: LogError) -> (r: StreamError) {
        StreamError::Log(e)
    }
}

impl FromSpecImpl<LogError> for StreamError {
    open spec fn obeys_from_spec() -> bool {
        true
    }

    open spec fn from_spec(e: LogError) -> StreamError {
        StreamError::Log(e)
    }
}

} // verus!
