//! Buffers between a reliable stream and the frames that it carries.

use vstd::prelude::*;

use crate::packet::PacketPool;
use crate::reliable_channel::{Error, ReliableChannel, Status};
use crate::ring_buffer::min_nat;
use crate::windows::recv::RecvView;
use crate::windows::send::{law_write_fills_window, SendView};

verus! {

/// Bytes on their way into a reliable channel.
#[verifier::ext_equal]
pub struct SendSide {
    pub window: SendView,
    pub status: Status,
    /// The bytes that have not been written to the channel yet.
    pub outgoing: Seq<u8>,
}

impl SendSide {
    /// What an attempt to write all outgoing bytes returns: whether nothing is left.
    pub open spec fn drain_result(self) -> Result<bool, Error> {
        if self.outgoing.len() == 0 {
            Ok(true)
        } else {
            match self.status.error() {
                Some(error) => Err(error),
                None => Ok(self.outgoing.len() <= self.window.room()),
            }
        }
    }

    /// The state after an attempt to write all outgoing bytes.
    pub open spec fn drained(self) -> SendSide {
        if self.outgoing.len() == 0 {
            self
        } else if self.status.error() is Some {
            SendSide { status: self.status.reported(), ..self }
        } else {
            SendSide {
                window: self.window.written(self.outgoing),
                outgoing: self.outgoing.skip(
                    min_nat(self.window.room(), self.outgoing.len()) as int,
                ),
                ..self
            }
        }
    }

    /// What an attempt to write all outgoing bytes and to flush the channel returns.
    pub open spec fn flush_result(self) -> Result<bool, Error> {
        if self.drain_result() == Ok::<bool, Error>(true) && self.status == Status::Shutdown {
            Err(Error::Shutdown)
        } else {
            self.drain_result()
        }
    }
}

/// The bytes that an attempt to write all outgoing bytes hands to the channel.
pub open spec fn moved(side: SendSide) -> Seq<u8> {
    if side.status.error() is Some {
        Seq::empty()
    } else {
        side.outgoing.take(min_nat(side.window.room(), side.outgoing.len()) as int)
    }
}

/// Bytes on their way out of a reliable channel.
#[verifier::ext_equal]
pub struct RecvSide {
    pub window: RecvView,
    pub status: Status,
    /// The bytes that have been read from the channel.
    pub incoming: Seq<u8>,
}

impl RecvSide {
    /// The bytes that have been read, and those that can be read.
    pub open spec fn arrived(self) -> Seq<u8> {
        self.incoming + self.window.ready
    }

    /// What an attempt to have `end` bytes returns: whether they are there.
    pub open spec fn fill_result(self, end: nat) -> Result<bool, Error> {
        if self.incoming.len() >= end {
            Ok(true)
        } else {
            match self.status.error() {
                Some(error) => Err(error),
                None => Ok(end <= self.arrived().len()),
            }
        }
    }

    /// The state after an attempt to have `end` bytes.
    pub open spec fn filled(self, end: nat) -> RecvSide {
        if self.incoming.len() >= end {
            self
        } else if self.status.error() is Some {
            RecvSide { status: self.status.reported(), ..self }
        } else {
            let n = min_nat((end - self.incoming.len()) as nat, self.window.ready.len());
            RecvSide {
                window: self.window.reading(n),
                incoming: self.incoming + self.window.ready.take(n as int),
                ..self
            }
        }
    }
}

/// Reading moves bytes from the channel to those that have been read, and neither drops nor reorders
/// any.
pub proof fn law_fill_keeps_arrived(side: RecvSide, end: nat)
    ensures
        side.filled(end).arrived() == side.arrived(),
        side.fill_result(end) == Ok::<bool, Error>(true) ==> side.filled(end).incoming
            == side.arrived().take(
            (if side.incoming.len() >= end {
                side.incoming.len()
            } else {
                end
            }) as int,
        ),
{
    let after = side.filled(end);
    assert(after.arrived() =~= side.arrived());
    assert(side.fill_result(end) == Ok::<bool, Error>(true) ==> after.incoming
        =~= side.arrived().take(after.incoming.len() as int));
}

/// Reading some bytes first and then the rest is the same as reading all of them at once.
pub proof fn law_fill_in_steps(side: RecvSide, first: nat, end: nat)
    requires
        first <= end,
    ensures
        side.fill_result(first) == Ok::<bool, Error>(true) ==> {
            &&& side.filled(first).fill_result(end) == side.fill_result(end)
            &&& side.filled(first).filled(end) == side.filled(end)
        },
        side.fill_result(first) != Ok::<bool, Error>(true) ==> {
            &&& side.fill_result(first) == side.fill_result(end)
            &&& side.filled(first) == side.filled(end)
        },
{
    assert(side.fill_result(first) == Ok::<bool, Error>(true) ==> side.filled(first).filled(end)
        =~= side.filled(end));
    assert(side.fill_result(first) != Ok::<bool, Error>(true) ==> side.filled(first)
        =~= side.filled(end));
}

/// Writing moves bytes from the outgoing ones to the channel, and neither drops nor reorders any.
pub proof fn law_drain_keeps_stream(side: SendSide)
    ensures
        side.drained().window.pending + side.drained().outgoing == side.window.pending
            + side.outgoing,
        side.drain_result() == Ok::<bool, Error>(true) ==> side.drained().outgoing.len() == 0,
{
    let after = side.drained();
    assert(after.window.pending + after.outgoing =~= side.window.pending + side.outgoing);
}

/// As long as the channel works, bytes are left to be written only if the channel is full, and the answer
/// tells whether any are left. A channel that has failed takes nothing, and tells why if there is
/// anything to be written.
pub proof fn law_drain_fills_channel(side: SendSide)
    requires
        side.window.valid(),
    ensures
        ({
            let after = side.drained();
            &&& side.status is Running ==> {
                &&& side.drain_result() == Ok::<bool, Error>(after.outgoing.len() == 0)
                &&& after.outgoing.len() > 0 ==> after.window.sent.len() + after.window.pending.len()
                    == side.window.capacity
                &&& side.flush_result() == side.drain_result()
            }
            &&& side.status !is Running ==> {
                &&& after.window == side.window
                &&& after.outgoing == side.outgoing
            }
            &&& side.outgoing.len() == 0 ==> {
                &&& side.drain_result() == Ok::<bool, Error>(true)
                &&& after == side
                &&& side.flush_result() is Err <==> side.status is Shutdown
            }
            &&& side.outgoing.len() > 0 && side.status !is Running ==> {
                &&& side.drain_result() is Err
                &&& side.flush_result() == side.drain_result()
                &&& after.status is Shutdown
                &&& side.status matches Status::Failed(error) ==> side.drain_result() == Err::<
                    bool,
                    Error,
                >(error)
            }
        }),
{
    law_write_fills_window(side.window, side.outgoing);
}

/// As long as the channel works, bytes are missing only if the channel has no more that could be read, and
/// no more bytes are read than are asked for. The answer tells whether they are all there. A channel that
/// has failed gives nothing, and tells why if anything is missing.
pub proof fn law_fill_takes_what_is_asked_for(side: RecvSide, end: nat)
    ensures
        ({
            let after = side.filled(end);
            &&& after.incoming.len() >= side.incoming.len()
            &&& after.incoming.take(side.incoming.len() as int) == side.incoming
            &&& after.incoming.len() <= end || after == side
            &&& side.status is Running ==> {
                &&& side.fill_result(end) == Ok::<bool, Error>(after.incoming.len() >= end)
                &&& after.incoming.len() < end ==> after.window.ready.len() == 0
            }
            &&& side.status !is Running ==> {
                &&& after.window == side.window
                &&& after.incoming == side.incoming
                &&& side.fill_result(end) is Err <==> side.incoming.len() < end
            }
            &&& side.incoming.len() >= end ==> {
                &&& side.fill_result(end) == Ok::<bool, Error>(true)
                &&& after == side
            }
            &&& side.incoming.len() < end && side.status !is Running ==> {
                &&& after.status is Shutdown
                &&& side.status matches Status::Failed(error) ==> side.fill_result(end) == Err::<
                    bool,
                    Error,
                >(error)
            }
        }),
{
    assert(side.filled(end).incoming.take(side.incoming.len() as int) =~= side.incoming);
}

/// Bytes that are to be written to a reliable channel.
pub struct WriteBuffer {
    buffer: Vec<u8>,
    pos: usize,
}

impl WriteBuffer {
    /// The bytes that have not been written yet.
    pub closed spec fn view(&self) -> Seq<u8> {
        self.buffer@.skip(self.pos as int)
    }

    pub closed spec fn wf(&self) -> bool {
        self.pos <= self.buffer@.len()
    }

    /// The state of these bytes and the channel that they are written to.
    pub open spec fn side<P: PacketPool, I: Copy>(&self, channel: ReliableChannel<P, I>) -> SendSide {
        SendSide {
            window: channel.shared.send_window@,
            status: channel.status,
            outgoing: self@,
        }
    }

    pub fn new() -> (result: Self)
        ensures
            result.wf(),
            result@ == Seq::<u8>::empty(),
    {
        let result = WriteBuffer { buffer: Vec::new(), pos: 0 };
        assert(result@ =~= Seq::<u8>::empty());
        result
    }

    /// Whether all bytes have been written.
    pub fn is_empty(&self) -> (result: bool)
        requires
            self.wf(),
        ensures
            result == (self@.len() == 0),
    {
        self.pos == self.buffer.len()
    }

    /// Replaces the bytes, once all of them have been written.
    pub fn set(&mut self, buffer: Vec<u8>)
        ensures
            final(self).wf(),
            final(self)@ == buffer@,
    {
        assert(buffer@.skip(0) =~= buffer@);
        self.buffer = buffer;
        self.pos = 0;
    }

    /// Writes as many bytes as there is room for in the channel. Returns whether all bytes have been
    /// written.
    pub fn drain<P: PacketPool, I: Copy>(&mut self, channel: &mut ReliableChannel<P, I>) -> (result:
        Result<bool, Error>)
        requires
            old(self).wf(),
            old(channel).wf(),
        ensures
            final(self).wf(),
            final(channel).wf(),
            final(channel).task == old(channel).task,
            final(channel).shared.recv_window == old(channel).shared.recv_window,
            result == old(self).side(*old(channel)).drain_result(),
            final(self).side(*final(channel)) == old(self).side(*old(channel)).drained(),
    {
        if self.pos < self.buffer.len() {
            let rest = vstd::slice::slice_subrange(
                self.buffer.as_slice(),
                self.pos,
                self.buffer.len(),
            );
            assert(rest@ =~= self@);
            match channel.write(rest) {
                Ok(len) => {
                    self.pos = self.pos + len;
                    assert(self@ =~= old(self)@.skip(len as int));
                },
                Err(error) => {
                    return Err(error);
                },
            }
        }
        Ok(self.pos == self.buffer.len())
    }
}

/// Bytes that are read from a reliable channel.
pub struct ReadBuffer {
    buffer: Vec<u8>,
    pos: usize,
}

impl ReadBuffer {
    /// The bytes that have been read.
    pub closed spec fn view(&self) -> Seq<u8> {
        self.buffer@.take(self.pos as int)
    }

    pub closed spec fn wf(&self) -> bool {
        self.pos <= self.buffer@.len()
    }

    /// The state of these bytes and the channel that they are read from.
    pub open spec fn side<P: PacketPool, I: Copy>(&self, channel: ReliableChannel<P, I>) -> RecvSide {
        RecvSide {
            window: channel.shared.recv_window@,
            status: channel.status,
            incoming: self@,
        }
    }

    pub fn new() -> (result: Self)
        ensures
            result.wf(),
            result@ == Seq::<u8>::empty(),
    {
        let result = ReadBuffer { buffer: Vec::new(), pos: 0 };
        assert(result@ =~= Seq::<u8>::empty());
        result
    }

    /// The number of bytes that have been read.
    pub fn len(&self) -> (len: usize)
        requires
            self.wf(),
        ensures
            len == self@.len(),
    {
        self.pos
    }

    /// The bytes that have been read.
    pub fn as_slice(&self) -> (bytes: &[u8])
        requires
            self.wf(),
        ensures
            bytes@ == self@,
    {
        vstd::slice::slice_subrange(self.buffer.as_slice(), 0, self.pos)
    }

    /// Forgets the bytes that have been read.
    pub fn clear(&mut self)
        ensures
            final(self).wf(),
            final(self)@ == Seq::<u8>::empty(),
    {
        self.pos = 0;
        assert(self@ =~= Seq::<u8>::empty());
    }

    /// Reads from the channel until `end` bytes have been read. Returns whether they have.
    pub fn fill<P: PacketPool, I: Copy>(
        &mut self,
        channel: &mut ReliableChannel<P, I>,
        end: usize,
    ) -> (result: Result<bool, Error>)
        requires
            old(self).wf(),
            old(channel).wf(),
        ensures
            final(self).wf(),
            final(channel).wf(),
            final(channel).task == old(channel).task,
            final(channel).shared.send_window == old(channel).shared.send_window,
            result == old(self).side(*old(channel)).fill_result(end as nat),
            final(self).side(*final(channel)) == old(self).side(*old(channel)).filled(end as nat),
    {
        if self.pos < end {
            self.buffer.resize(end, 0);
            assert(self@ =~= old(self)@);
            let (_, rest) = self.buffer.as_mut_slice().split_at_mut(self.pos);
            match channel.read(rest) {
                Ok(len) => {
                    self.pos = self.pos + len;
                    assert(self@ =~= old(self)@ + old(channel).shared.recv_window@.ready.take(
                        len as int,
                    ));
                },
                Err(error) => {
                    assert(self@ =~= old(self)@);
                    return Err(error);
                },
            }
        }
        Ok(self.pos >= end)
    }
}

} // verus!
