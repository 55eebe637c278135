//! The resume contract over plain sequence numbers: the cursor is the number
//! of the last event the client saw.

pub mod log;
pub mod resume;
pub mod stream;
