//! The two ends of a `crossbeam_channel` queue, with a record of what they were used for.
//!
//! The record is ghost. The functions that use the queue say in their contracts how it changes, and no
//! other code can change it.

use std::marker::PhantomData;

use vstd::prelude::*;

use crate::spsc::{Condition, Queue, TryRecvError, TrySendError};

verus! {

/// `crossbeam_channel::Sender`, for items that meet the condition `C`.
#[verifier::external_body]
#[verifier::reject_recursive_types(T)]
#[verifier::reject_recursive_types(C)]
struct SendHandle<T, C> {
    queue: crossbeam_channel::Sender<T>,
    condition: PhantomData<C>,
}

/// `crossbeam_channel::Receiver`, for items that meet the condition `C`.
#[verifier::external_body]
#[verifier::reject_recursive_types(T)]
#[verifier::reject_recursive_types(C)]
struct RecvHandle<T, C> {
    queue: crossbeam_channel::Receiver<T>,
    condition: PhantomData<C>,
}

/// The sending end of a queue whose items meet the condition `C`.
#[verifier::reject_recursive_types(T)]
#[verifier::reject_recursive_types(C)]
pub(crate) struct SendEnd<T, C> {
    handle: SendHandle<T, C>,
    queue: Ghost<Queue>,
    sent: Ghost<Seq<T>>,
    answers: Ghost<Seq<Result<(), TrySendError<T>>>>,
}

/// The receiving end of a queue whose items meet the condition `C`.
#[verifier::reject_recursive_types(T)]
#[verifier::reject_recursive_types(C)]
pub(crate) struct RecvEnd<T, C> {
    handle: RecvHandle<T, C>,
    queue: Ghost<Queue>,
    answers: Ghost<Seq<Result<T, TryRecvError>>>,
}

/// `crossbeam_channel::bounded`: makes a queue. A capacity is left out if the next power of two
/// above it cannot be doubled.
///
/// The two ends are those of the same queue, which has that capacity. Nothing else reaches it, and
/// nothing has been sent.
#[verifier::external_body]
pub(crate) fn bounded<T, C: Condition<T>>(capacity: usize) -> (ends: (SendEnd<T, C>, RecvEnd<T, C>))
    requires
        capacity <= usize::MAX / 4,
    ensures
        ends.0.queue() == ends.1.queue(),
        ends.0.queue().capacity == capacity,
        ends.0.sent().len() == 0,
        ends.0.answers().len() == 0,
        ends.1.answers().len() == 0,
{
    let (sender, receiver) = crossbeam_channel::bounded(capacity);
    let send = SendHandle { queue: sender, condition: PhantomData };
    let recv = RecvHandle { queue: receiver, condition: PhantomData };
    (
        SendEnd {
            handle: send,
            queue: Ghost(Queue { id: 0, capacity: capacity as nat }),
            sent: Ghost(Seq::empty()),
            answers: Ghost(Seq::empty()),
        },
        RecvEnd { handle: recv, queue: Ghost(Queue { id: 0, capacity: capacity as nat }), answers: Ghost(Seq::empty()) },
    )
}

impl<T, C: Condition<T>> SendEnd<T, C> {
    /// Which queue this is an end of.
    pub(crate) closed spec fn queue(&self) -> Queue {
        self.queue@
    }

    /// The items that were put in the queue, oldest first.
    pub(crate) closed spec fn sent(&self) -> Seq<T> {
        self.sent@
    }

    /// What the queue answered each time that an item was handed to it.
    pub(crate) closed spec fn answers(&self) -> Seq<Result<(), TrySendError<T>>> {
        self.answers@
    }

    /// `crossbeam_channel::Sender::try_send`: puts the item in the queue, or hands back that item.
    ///
    /// The item must meet the condition of the queue, and this is the only way into it. Whether the
    /// item is put in the queue depends on what the receiver has taken, and on whether it is gone.
    /// There is no room only while the queue holds as many items as it can, so at least that many must
    /// have been sent.
    #[verifier::external_body]
    pub(crate) fn try_send(&mut self, item: T) -> (result: Result<(), TrySendError<T>>)
        requires
            C::met(item),
        ensures
            final(self).queue() == old(self).queue(),
            final(self).answers() == old(self).answers().push(result),
            match result {
                Ok(()) => final(self).sent() == old(self).sent().push(item),
                Err(error) => error.item() == item && final(self).sent() == old(self).sent(),
            },
            result matches Err(TrySendError::Full(_)) ==> old(self).sent().len() >= old(
                self,
            ).queue().capacity,
    {
        match self.handle.queue.try_send(item) {
            Ok(()) => Ok(()),
            Err(crossbeam_channel::TrySendError::Full(item)) => Err(TrySendError::Full(item)),
            Err(crossbeam_channel::TrySendError::Disconnected(item)) => Err(
                TrySendError::Disconnected(item),
            ),
        }
    }
}

impl<T, C: Condition<T>> RecvEnd<T, C> {
    /// Which queue this is an end of.
    pub(crate) closed spec fn queue(&self) -> Queue {
        self.queue@
    }

    /// What the queue answered each time that an item was asked for.
    pub(crate) closed spec fn answers(&self) -> Seq<Result<T, TryRecvError>> {
        self.answers@
    }

    /// `crossbeam_channel::Receiver::try_recv`: takes the oldest item from the queue.
    ///
    /// An item that comes out of the queue is one that [`SendEnd::try_send`] put in, so it meets the
    /// condition of the queue. Which item that is, and whether there is one, depends on what the
    /// sender has sent, and on whether it is gone.
    #[verifier::external_body]
    pub(crate) fn try_recv(&mut self) -> (result: Result<T, TryRecvError>)
        ensures
            final(self).queue() == old(self).queue(),
            final(self).answers() == old(self).answers().push(result),
            result matches Ok(item) ==> C::met(item),
    {
        match self.handle.queue.try_recv() {
            Ok(item) => Ok(item),
            Err(crossbeam_channel::TryRecvError::Empty) => Err(TryRecvError::Empty),
            Err(crossbeam_channel::TryRecvError::Disconnected) => Err(TryRecvError::Disconnected),
        }
    }
}

} // verus!
