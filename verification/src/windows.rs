//! The windows of a reliable stream.
//!
//! A sender keeps written bytes in a [`SendWindow`] until they are acknowledged, and a receiver
//! puts the bytes that arrive in any order back into stream order with a [`RecvWindow`]. Both
//! speak of the stream by wrapping 32-bit positions.

pub mod stream;
pub mod send;
pub mod recv;
pub mod coverage;
pub mod delivery;

pub use self::recv::{RecvWindow, RecvWindowReader};
pub use self::send::{AckResult, SendWindow, SendWindowWriter};
pub use self::stream::{stream_cmp, stream_ge, stream_gt, stream_le, stream_lt, StreamPos};
