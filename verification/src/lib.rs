//! The resumable Server-Sent Events profile.
//!
//! The profile in one breath: every state change carries an `id:` — a
//! [`Cursor`], opaque to the client, issued by the server's log; a
//! reconnecting client presents it and the server replays what it missed
//! — or answers `resync` when it cannot; a named `ping` lets the client
//! run a dead-man timer; a jittered `retry:` and an optional rotation age
//! announced in the `ping` keep a fleet's reconnects spread and under the
//! server's control.
//!
//! * The wire: frames and their encoder ([`protocol`]), the parser
//!   ([`parse`]), cursors ([`cursor`]), scheduling jitter ([`jitter`]), and
//!   what a parser reads back of what an encoder wrote ([`roundtrip`]).
//! * The server half ([`server`]): the log that issues cursors, the resume
//!   request, replay joined with the live stream, and the response. The same
//!   contract over plain sequence numbers is in [`sequence`].
//! * The client half: what a subscription makes of the bytes it reads and
//!   how long it waits ([`client`]), the payloads it understands
//!   ([`payload`], over [`json`]), and its life step by step ([`session`]).
//! * A server that cuts streams on purpose ([`testkit`]), and the proof that
//!   a client loses nothing to it ([`exactly_once`]).

pub mod client;
pub mod cursor;
pub mod error;
pub mod exactly_once;
pub mod headers;
pub mod jitter;
pub mod json;
pub mod parse;
pub mod payload;
pub mod protocol;
pub mod request;
pub mod ring;
pub mod roundtrip;
pub mod sequence;
pub mod server;
pub mod session;
pub mod testkit;
pub mod text;
pub mod time;
pub mod wire;

pub use cursor::{Cursor, InvalidCursor};
pub use parse::{Frame, Parsed, Parser};
pub use protocol::{Event, Ping, Resync, ResyncReason, PING, PING_EVERY_SECS, RESYNC};
