//! The resume contract over opaque cursors: what a log issues, and what a
//! response sends.

pub mod log;
pub mod response;
pub mod resume;
pub mod stream;
