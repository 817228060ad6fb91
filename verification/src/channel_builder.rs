//! Channels of all kinds on a packet multiplexer.

use vstd::prelude::*;

use crate::compressed_bincode_channel::CompressedBincodeChannel;
use crate::compressed_typed_channel::CompressedTypedChannel;
use crate::framing::PREFIX_LEN;
use crate::packet::{Packet, PacketPool, WellFormed};
use crate::packet_multiplexer::{
    DuplicateChannel, MuxPacket, MuxPacketPool, PacketChannel, PacketMultiplexer,
};
use crate::reliable_bincode_channel::ReliableBincodeChannel;
use crate::reliable_channel::segment::ACK_LEN;
use crate::reliable_channel::{ReliableChannel, SenderView, Settings, Status};
use crate::spsc::{Receiver, Sender};
use crate::unreliable_bincode_channel::{UnreliableBincodeChannel, UnreliableBincodeView};
use crate::unreliable_channel::{UnreliableChannel, UnreliableView};
use crate::windows::recv::RecvView;
use crate::windows::send::SendView;

verus! {

/// Copies of this pool can be used in its place.
pub open spec fn copies_alike<P: PacketPool + Clone>(pool: P) -> bool {
    forall|copy: P| #[trigger]
        cloned(pool, copy) ==> copy.wf() && copy.limit() == pool.limit()
}

/// The ends of the queues between a channel and the multiplexer.
pub type Ends<P> = (Sender<MuxPacket<P>, WellFormed>, Receiver<MuxPacket<P>, WellFormed>);

/// `channel` was opened on a multiplexer, with queues that hold nothing and have room for
/// `buffer_size` packets each.
pub open spec fn newly_opened<P: Packet>(
    before: PacketMultiplexer<P>,
    after: PacketMultiplexer<P>,
    channel: PacketChannel,
    buffer_size: usize,
    ends: Ends<P>,
) -> bool {
    &&& !before.channels().contains(channel)
    &&& after.channels() == before.channels().push(channel)
    &&& after.outgoing_queues() == before.outgoing_queues().push(ends.0.queue())
    &&& after.incoming_queues() == before.incoming_queues().push(ends.1.queue())
    &&& ends.0.capacity() == buffer_size
    &&& ends.1.capacity() == buffer_size
    &&& ends.0.taken() == Seq::<MuxPacket<P>>::empty()
    &&& ends.0.answers().len() == 0
    &&& ends.1.answers().len() == 0
}

/// `opened` is a reliable channel that has not been used yet.
pub open spec fn unused_channel<P: PacketPool, I: Copy>(
    opened: ReliableChannel<P, I>,
    settings: Settings,
    limit: nat,
) -> bool {
    &&& opened.wf()
    &&& opened.status == Status::Running
    &&& opened.task.limit() == limit
    &&& opened.task.init_send() == settings.init_send
    &&& opened.sender() == (SenderView::<I> {
        window: SendView {
            capacity: settings.send_window_size as nat,
            send_pos: 0,
            sent: Seq::empty(),
            pending: Seq::empty(),
            unacked: Seq::empty(),
        },
        remote_recv_available: settings.init_send as nat,
        unacked: Seq::empty(),
    })
    &&& opened.shared.recv_window@ == (RecvView {
        recv_pos: 0,
        ready: Seq::empty(),
        ahead: Seq::new(settings.recv_window_size as nat, |i: int| None),
    })
}

/// A channel that was opened is one more channel of the multiplexer. Its ends belong to the queues that the
/// multiplexer uses for it, which have the room that was asked for, and nothing has gone through them.
pub proof fn law_opened_channel_is_connected<P: Packet>(
    before: PacketMultiplexer<P>,
    after: PacketMultiplexer<P>,
    channel: PacketChannel,
    buffer_size: usize,
    ends: Ends<P>,
)
    requires
        newly_opened(before, after, channel, buffer_size, ends),
    ensures
        after.channels().drop_last() == before.channels(),
        after.channels().last() == channel,
        !before.channels().contains(channel),
        after.outgoing_queues().last() == ends.0.queue(),
        after.incoming_queues().last() == ends.1.queue(),
        ends.0.queue().capacity == buffer_size,
        ends.1.queue().capacity == buffer_size,
        ends.0.queued().len() == 0,
        ends.0.slot() is None,
        ends.1.received().len() == 0,
{
    assert(after.channels().drop_last() =~= before.channels());
    assert(ends.0.taken().len() == 0);
}

/// A reliable channel that has not been used yet has a send window and a receive window of the sizes that
/// were asked for, all of them free. It may send `init_send` bytes before it hears of the remote.
pub proof fn law_unused_channel_is_empty<P: PacketPool, I: Copy>(
    opened: ReliableChannel<P, I>,
    settings: Settings,
    limit: nat,
)
    requires
        unused_channel(opened, settings, limit),
    ensures
        opened.status is Running,
        opened.task.limit() == limit,
        opened.sender().window.room() == settings.send_window_size,
        opened.sender().window.pending.len() == 0,
        opened.sender().remote_recv_available == settings.init_send,
        opened.sender().unacked.len() == 0,
        opened.shared.recv_window@.ready.len() == 0,
        opened.shared.recv_window@.window_end() == settings.recv_window_size,
        forall|k: int|
            0 <= k < settings.recv_window_size ==> opened.shared.recv_window@.ahead[k] is None,
{
}

/// Helper that allows for easily opening different channel types on a `PacketMultiplexer`.
///
/// Contains a `MuxPacketPool` and a runtime that is used for each created channel.
pub struct ChannelBuilder<R, P> {
    pub runtime: R,
    pub pool: MuxPacketPool<P>,
}

impl<R, P: PacketPool + Clone> ChannelBuilder<R, P> {
    pub open spec fn wf(&self) -> bool {
        &&& self.pool.wf()
        &&& copies_alike(self.pool.inner())
    }

    pub fn new(runtime: R, pool: P) -> (builder: Self)
        requires
            pool.wf(),
            pool.limit() >= 1,
            copies_alike(pool),
        ensures
            builder.wf(),
            builder.runtime == runtime,
            builder.pool.inner() == pool,
    {
        ChannelBuilder { runtime, pool: MuxPacketPool::new(pool) }
    }

    /// Opens an unreliable channel.
    pub fn open_unreliable_channel(
        &self,
        multiplexer: &mut PacketMultiplexer<P::Packet>,
        channel: PacketChannel,
        buffer_size: usize,
    ) -> (result: Result<(UnreliableChannel<MuxPacketPool<P>>, Ends<P::Packet>), DuplicateChannel>)
        requires
            self.wf(),
            old(multiplexer).wf(),
            buffer_size <= usize::MAX / 4,
        ensures
            final(multiplexer).wf(),
            match result {
                Ok((opened, ends)) => {
                    &&& newly_opened(
                        *old(multiplexer),
                        *final(multiplexer),
                        channel,
                        buffer_size,
                        ends,
                    )
                    &&& opened.wf()
                    &&& opened@ == (UnreliableView {
                        limit: self.pool.limit(),
                        out: Seq::empty(),
                        unread: Seq::empty(),
                    })
                },
                Err(_) => {
                    &&& old(multiplexer).channels().contains(channel)
                    &&& *final(multiplexer) == *old(multiplexer)
                },
            },
    {
        match multiplexer.open_channel(channel, buffer_size) {
            Ok(ends) => Ok((UnreliableChannel::new(self.pool.clone()), ends)),
            Err(error) => Err(error),
        }
    }

    /// Opens an unreliable channel of serialized messages.
    pub fn open_unreliable_bincode_channel(
        &self,
        multiplexer: &mut PacketMultiplexer<P::Packet>,
        channel: PacketChannel,
        buffer_size: usize,
    ) -> (result: Result<
        (UnreliableBincodeChannel<MuxPacketPool<P>>, Ends<P::Packet>),
        DuplicateChannel,
    >)
        requires
            self.wf(),
            self.pool.limit() >= PREFIX_LEN,
            old(multiplexer).wf(),
            buffer_size <= usize::MAX / 4,
        ensures
            final(multiplexer).wf(),
            match result {
                Ok((opened, ends)) => {
                    &&& newly_opened(
                        *old(multiplexer),
                        *final(multiplexer),
                        channel,
                        buffer_size,
                        ends,
                    )
                    &&& opened.wf()
                    &&& opened@ == (UnreliableBincodeView {
                        channel: UnreliableView {
                            limit: self.pool.limit(),
                            out: Seq::empty(),
                            unread: Seq::empty(),
                        },
                        pending: Seq::empty(),
                    })
                },
                Err(_) => {
                    &&& old(multiplexer).channels().contains(channel)
                    &&& *final(multiplexer) == *old(multiplexer)
                },
            },
    {
        match self.open_unreliable_channel(multiplexer, channel, buffer_size) {
            Ok((opened, ends)) => Ok((UnreliableBincodeChannel::new(opened), ends)),
            Err(error) => Err(error),
        }
    }

    /// Opens a reliable channel.
    pub fn open_reliable_channel<I: Copy>(
        &self,
        multiplexer: &mut PacketMultiplexer<P::Packet>,
        channel: PacketChannel,
        buffer_size: usize,
        settings: &Settings,
    ) -> (result: Result<(ReliableChannel<MuxPacketPool<P>, I>, Ends<P::Packet>), DuplicateChannel>)
        requires
            self.wf(),
            self.pool.limit() >= ACK_LEN,
            settings.valid(),
            old(multiplexer).wf(),
            buffer_size <= usize::MAX / 4,
        ensures
            final(multiplexer).wf(),
            match result {
                Ok((opened, ends)) => {
                    &&& newly_opened(
                        *old(multiplexer),
                        *final(multiplexer),
                        channel,
                        buffer_size,
                        ends,
                    )
                    &&& unused_channel(opened, *settings, self.pool.limit())
                },
                Err(_) => {
                    &&& old(multiplexer).channels().contains(channel)
                    &&& *final(multiplexer) == *old(multiplexer)
                },
            },
    {
        match multiplexer.open_channel(channel, buffer_size) {
            Ok(ends) => Ok((ReliableChannel::new(self.pool.clone(), settings), ends)),
            Err(error) => Err(error),
        }
    }

    /// Opens a reliable channel of serialized messages.
    pub fn open_reliable_bincode_channel<I: Copy>(
        &self,
        multiplexer: &mut PacketMultiplexer<P::Packet>,
        channel: PacketChannel,
        buffer_size: usize,
        reliability_settings: &Settings,
        max_message_len: u16,
    ) -> (result: Result<
        (ReliableBincodeChannel, ReliableChannel<MuxPacketPool<P>, I>, Ends<P::Packet>),
        DuplicateChannel,
    >)
        requires
            self.wf(),
            self.pool.limit() >= ACK_LEN,
            reliability_settings.valid(),
            old(multiplexer).wf(),
            buffer_size <= usize::MAX / 4,
        ensures
            final(multiplexer).wf(),
            match result {
                Ok((opened, reliable, ends)) => {
                    &&& newly_opened(
                        *old(multiplexer),
                        *final(multiplexer),
                        channel,
                        buffer_size,
                        ends,
                    )
                    &&& unused_channel(reliable, *reliability_settings, self.pool.limit())
                    &&& opened.wf()
                    &&& opened.max_message_len() == max_message_len
                    &&& opened.outgoing() == Seq::<u8>::empty()
                    &&& opened.incoming() == Seq::<u8>::empty()
                },
                Err(_) => {
                    &&& old(multiplexer).channels().contains(channel)
                    &&& *final(multiplexer) == *old(multiplexer)
                },
            },
    {
        match self.open_reliable_channel(multiplexer, channel, buffer_size, reliability_settings) {
            Ok((reliable, ends)) => Ok((ReliableBincodeChannel::new(max_message_len), reliable, ends)),
            Err(error) => Err(error),
        }
    }

    /// Opens a reliable channel of serialized and compressed messages.
    pub fn open_compressed_bincode_channel<I: Copy>(
        &self,
        multiplexer: &mut PacketMultiplexer<P::Packet>,
        channel: PacketChannel,
        buffer_size: usize,
        reliability_settings: &Settings,
    ) -> (result: Result<
        (CompressedBincodeChannel, ReliableChannel<MuxPacketPool<P>, I>, Ends<P::Packet>),
        DuplicateChannel,
    >)
        requires
            self.wf(),
            self.pool.limit() >= ACK_LEN,
            reliability_settings.valid(),
            old(multiplexer).wf(),
            buffer_size <= usize::MAX / 4,
        ensures
            final(multiplexer).wf(),
            match result {
                Ok((opened, reliable, ends)) => {
                    &&& newly_opened(
                        *old(multiplexer),
                        *final(multiplexer),
                        channel,
                        buffer_size,
                        ends,
                    )
                    &&& unused_channel(reliable, *reliability_settings, self.pool.limit())
                    &&& opened.wf()
                    &&& opened.sender().queued() == Seq::<u8>::empty()
                    &&& opened.sender().outgoing() == Seq::<u8>::empty()
                    &&& opened.receiver().incoming() == Seq::<u8>::empty()
                    &&& opened.receiver().unread() == Seq::<u8>::empty()
                },
                Err(_) => {
                    &&& old(multiplexer).channels().contains(channel)
                    &&& *final(multiplexer) == *old(multiplexer)
                },
            },
    {
        match self.open_reliable_channel(multiplexer, channel, buffer_size, reliability_settings) {
            Ok((reliable, ends)) => Ok((CompressedBincodeChannel::new(), reliable, ends)),
            Err(error) => Err(error),
        }
    }

    /// Opens a reliable channel of serialized and compressed messages of limited length.
    pub fn open_compressed_typed_channel<I: Copy>(
        &self,
        multiplexer: &mut PacketMultiplexer<P::Packet>,
        channel: PacketChannel,
        buffer_size: usize,
        reliability_settings: &Settings,
        max_chunk_len: u16,
    ) -> (result: Result<
        (CompressedTypedChannel, ReliableChannel<MuxPacketPool<P>, I>, Ends<P::Packet>),
        DuplicateChannel,
    >)
        requires
            self.wf(),
            self.pool.limit() >= ACK_LEN,
            reliability_settings.valid(),
            old(multiplexer).wf(),
            buffer_size <= usize::MAX / 4,
            max_chunk_len > 1,
        ensures
            final(multiplexer).wf(),
            match result {
                Ok((opened, reliable, ends)) => {
                    &&& newly_opened(
                        *old(multiplexer),
                        *final(multiplexer),
                        channel,
                        buffer_size,
                        ends,
                    )
                    &&& unused_channel(reliable, *reliability_settings, self.pool.limit())
                    &&& opened.wf()
                    &&& opened.max_chunk_len() == max_chunk_len
                    &&& opened.sender().queued() == Seq::<u8>::empty()
                    &&& opened.sender().outgoing() == Seq::<u8>::empty()
                    &&& opened.receiver().incoming() == Seq::<u8>::empty()
                    &&& opened.receiver().unread() == Seq::<u8>::empty()
                },
                Err(_) => {
                    &&& old(multiplexer).channels().contains(channel)
                    &&& *final(multiplexer) == *old(multiplexer)
                },
            },
    {
        match self.open_reliable_channel(multiplexer, channel, buffer_size, reliability_settings) {
            Ok((reliable, ends)) => Ok((CompressedTypedChannel::new(max_chunk_len as usize), reliable, ends)),
            Err(error) => Err(error),
        }
    }
}

} // verus!
