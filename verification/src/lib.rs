//! HTTP/1.x message framing across the events of TLS connections.
//!
//! Writes and reads on a connection don't line up with HTTP messages: a request body can span
//! several writes, and a streamed (chunked) response arrives as many reads, interleaved with other
//! connections. [`Http1Tracker`] buffers each connection and direction separately and hands back
//! complete messages, with chunked bodies already decoded.

pub mod bytes;
pub mod connections;
pub mod event;
pub mod feeding_laws;
pub mod head;
pub mod laws;
pub mod message;
pub mod reading_laws;
pub mod spelling;
pub mod splitting;
pub mod stepping_laws;
pub mod stream;
pub mod streams;
pub mod tracker;
pub mod written;

pub use event::Event;
pub use message::Http1Message;
pub use tracker::{Feed, Http1Tracker};
