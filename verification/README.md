# turbulence

Multiplexed, optionally reliable, transport agnostic networking channels for games, verified with
Verus.

The library takes some kind of *unreliable* and *unordered* transport of packets and turns it into a
set of independent channels, each of which can optionally be made *reliable* and *ordered*. It
performs no I/O, reads no clock and spawns no task: a driver hands it the packets that arrive and the
current time, and transmits the packets that it hands back.

## Layout

- `src/` is the library. Every function in it is verified against its contract.
  - `ring_buffer`, `windows`: the byte ring, and the send and receive windows of a reliable stream.
    `windows::delivery` proves that what is read is what was written, in the same order, and
    `windows::coverage` that what is ready is the longest run of what was stored.
  - `reliable_channel`: the protocol over these windows. `segment` holds its packets, `round` what is
    done after each wake-up, `reliability` the proof that nothing is lost, whatever becomes of the
    packets on the way, and `completion` the proof that everything is read in the end.
  - `unreliable_channel`: messages that are coalesced into packets.
  - `framing`, `stream_buffer`, `chunk`, `snappy`: messages with a length prefix, buffers in front of
    a reliable stream, and chunks of messages that are compressed where that makes them shorter.
    `message_transfer` and `chunk_transfer` prove that the messages that are sent, one by one or in
    chunks, are those that are received.
  - `reliable_bincode_channel`, `unreliable_bincode_channel`, `compressed_bincode_channel`,
    `compressed_typed_channel`: channels of serialized messages.
  - `packet_multiplexer`, `channel_builder`, `message_channels`: many channels over one stream of
    packets, and access to them by message type.
  - `packet`, `buffer`, `packet_pool`, `pool`, `spsc`, `event_watch`, `codec`, `wrap_cmp`: packets,
    pools, queues, events and numbers.
  - `link_condition`, `test_util`, `chat`: a lossy link and a clock for tests, and the replies of a
    chat server.
- `tests/` runs the library.
- `app/` is the asynchronous side: runtimes, wakers, bandwidth in floating point, serialization with
  `serde` and `bincode`, and a chat over UDP.

Functions whose names start with `law_` state what holds of several operations together. What is
believed of other crates without proof is written down at the functions marked
`#[verifier::external_body]` and at the `assume_specification` items, in `codec`, `packet_multiplexer`,
`pool`, `snappy` and `spsc`.
