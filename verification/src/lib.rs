//! Multiplexed, optionally reliable, transport agnostic networking channels for games.

pub mod buffer;
pub mod channel_builder;
pub mod chat;
pub mod chunk;
pub mod chunk_transfer;
pub mod codec;
pub mod compressed_bincode_channel;
pub mod compressed_typed_channel;
pub mod event_watch;
pub mod framing;
pub mod link_condition;
pub mod message_channels;
pub mod message_transfer;
pub mod packet;
pub mod packet_multiplexer;
pub mod packet_pool;
pub mod pool;
pub mod reliable_bincode_channel;
pub mod reliable_channel;
pub mod ring_buffer;
pub mod snappy;
pub mod spsc;
pub mod stream_buffer;
pub mod test_util;
pub mod unreliable_bincode_channel;
pub mod unreliable_channel;
pub mod windows;
pub mod wrap_cmp;
