//! Bounded queues between one sender and one receiver.
//!
//! The ends of a queue never block. An item that does not fit yet can be kept in a slot of the
//! sender, and the user waits until there is room.
//!
//! A queue may ask a condition of its items. What the sender is handed must meet it, so what the
//! receiver takes meets it too.

use std::marker::PhantomData;

use vstd::prelude::*;

mod ends;

use self::ends::{bounded, RecvEnd, SendEnd};

verus! {

/// The queue is disconnected.
#[derive(Debug, Clone, Copy, PartialEq, Eq, Structural)]
pub struct Disconnected;

/// Why an item is not received.
#[derive(Debug, Clone, Copy, PartialEq, Eq, Structural)]
pub enum TryRecvError {
    /// There is no item yet.
    Empty,
    /// There is no item, and the sender is gone.
    Disconnected,
}

/// Why an item is not sent. The item is handed back.
#[derive(Debug, PartialEq, Eq)]
pub enum TrySendError<T> {
    /// There is no room yet.
    Full(T),
    /// The receiver is gone.
    Disconnected(T),
}

impl<T> TrySendError<T> {
    /// The item that is not sent.
    pub open spec fn item(self) -> T {
        match self {
            TrySendError::Full(item) => item,
            TrySendError::Disconnected(item) => item,
        }
    }

    /// `item` is not sent for the same reason.
    pub open spec fn with_item(self, item: T) -> TrySendError<T> {
        match self {
            TrySendError::Full(_) => TrySendError::Full(item),
            TrySendError::Disconnected(_) => TrySendError::Disconnected(item),
        }
    }

    pub fn is_full(&self) -> (result: bool)
        ensures
            result == (self is Full),
    {
        match self {
            TrySendError::Full(_) => true,
            TrySendError::Disconnected(_) => false,
        }
    }

    /// The item that is not sent.
    pub fn into_inner(self) -> (item: T)
        ensures
            item == self.item(),
    {
        match self {
            TrySendError::Full(item) => item,
            TrySendError::Disconnected(item) => item,
        }
    }
}

/// Which queue it is, and how many items it can hold.
pub struct Queue {
    pub id: int,
    pub capacity: nat,
}

/// What a queue asks of its items.
pub trait Condition<T> {
    /// Whether an item meets the condition.
    spec fn met(item: T) -> bool;
}

/// The condition that every item meets.
#[derive(Debug, Clone, Copy)]
pub struct Unconditional;

impl<T> Condition<T> for Unconditional {
    open spec fn met(item: T) -> bool {
        true
    }
}

/// The sequence of at most one item.
pub open spec fn items_of<T>(slot: Option<T>) -> Seq<T> {
    match slot {
        Some(item) => seq![item],
        None => Seq::empty(),
    }
}

/// What becomes of the slot, and whether there is room in it, once the item that waited has been
/// handed to the queue. The item is dropped if the receiver is gone.
pub open spec fn settling<T>(outcome: Result<(), TrySendError<T>>) -> (
    Option<T>,
    Result<bool, Disconnected>,
) {
    match outcome {
        Ok(()) => (None, Ok(true)),
        Err(TrySendError::Full(item)) => (Some(item), Ok(false)),
        Err(TrySendError::Disconnected(_)) => (None, Err(Disconnected)),
    }
}

/// Deals with the queue's answer to the item that waited, for [`Sender::poll_ready`].
pub fn settled<T>(outcome: Result<(), TrySendError<T>>) -> (result: (
    Option<T>,
    Result<bool, Disconnected>,
))
    ensures
        result == settling(outcome),
{
    match outcome {
        Ok(()) => (None, Ok(true)),
        Err(TrySendError::Full(item)) => (Some(item), Ok(false)),
        Err(TrySendError::Disconnected(_)) => (None, Err(Disconnected)),
    }
}

/// What becomes of the slot, and of an item that is to be sent next, once the item that waited has been
/// handed to the queue. That one goes on waiting if it is not sent, and the next one is handed back
/// for the same reason.
pub open spec fn passing<T>(outcome: Result<(), TrySendError<T>>, item: T) -> (
    Option<T>,
    Result<T, TrySendError<T>>,
) {
    match outcome {
        Ok(()) => (None, Ok(item)),
        Err(error) => (Some(error.item()), Err(error.with_item(item))),
    }
}

/// Deals with the queue's answer to the item that waited, for [`Sender::try_send`].
pub fn passed<T>(outcome: Result<(), TrySendError<T>>, item: T) -> (result: (
    Option<T>,
    Result<T, TrySendError<T>>,
))
    ensures
        result == passing(outcome, item),
{
    match outcome {
        Ok(()) => (None, Ok(item)),
        Err(TrySendError::Full(inner)) => (Some(inner), Err(TrySendError::Full(item))),
        Err(TrySendError::Disconnected(inner)) => (
            Some(inner),
            Err(TrySendError::Disconnected(item)),
        ),
    }
}

/// An item that waited goes on waiting exactly if there is no room for it yet, so that it is not lost. If the
/// receiver is gone it is dropped by a sender that is only made ready, and kept by one that was to send
/// another item. That one is handed back unless the item that waited was sent.
pub proof fn law_waiting_item<T>(waiting: T, item: T)
    ensures
        settling(Ok::<(), TrySendError<T>>(())) == (None::<T>, Ok::<bool, Disconnected>(true)),
        settling(Err::<(), TrySendError<T>>(TrySendError::Full(waiting))) == (
            Some(waiting),
            Ok::<bool, Disconnected>(false),
        ),
        settling(Err::<(), TrySendError<T>>(TrySendError::Disconnected(waiting))) == (
            None::<T>,
            Err::<bool, Disconnected>(Disconnected),
        ),
        passing(Ok::<(), TrySendError<T>>(()), item) == (None::<T>, Ok::<T, TrySendError<T>>(item)),
        passing(Err::<(), TrySendError<T>>(TrySendError::Full(waiting)), item) == (
            Some(waiting),
            Err::<T, TrySendError<T>>(TrySendError::Full(item)),
        ),
        passing(Err::<(), TrySendError<T>>(TrySendError::Disconnected(waiting)), item) == (
            Some(waiting),
            Err::<T, TrySendError<T>>(TrySendError::Disconnected(item)),
        ),
{
}

/// Room for one item that meets the condition `C`.
#[verifier::reject_recursive_types(T)]
#[verifier::reject_recursive_types(C)]
struct Slot<T, C: Condition<T>> {
    item: Option<T>,
    condition: PhantomData<C>,
}

impl<T, C: Condition<T>> Slot<T, C> {
    /// The item meets the condition.
    #[verifier::type_invariant]
    spec fn item_meets_condition(self) -> bool {
        self.item matches Some(item) ==> C::met(item)
    }

    /// A slot with an item, or without one.
    fn holding(item: Option<T>) -> (slot: Self)
        requires
            item matches Some(item) ==> C::met(item),
        ensures
            slot.item == item,
    {
        Slot { item, condition: PhantomData }
    }

    /// Takes the item out.
    fn take(&mut self) -> (item: Option<T>)
        ensures
            item == old(self).item,
            item matches Some(item) ==> C::met(item),
            final(self).item is None,
    {
        proof {
            use_type_invariant(&*self);
        }
        let mut item: Option<T> = None;
        std::mem::swap(&mut self.item, &mut item);
        item
    }
}

/// The sending end of a queue whose items meet the condition `C`.
#[verifier::reject_recursive_types(T)]
#[verifier::reject_recursive_types(C)]
pub struct Sender<T, C: Condition<T> = Unconditional> {
    end: SendEnd<T, C>,
    slot: Slot<T, C>,
}

impl<T, C: Condition<T>> Sender<T, C> {
    /// Which queue this is an end of.
    pub closed spec fn queue(&self) -> Queue {
        self.end.queue()
    }

    /// The number of items that the queue can hold.
    pub open spec fn capacity(&self) -> nat {
        self.queue().capacity
    }

    /// The items that were put in the queue, oldest first.
    pub closed spec fn queued(&self) -> Seq<T> {
        self.end.sent()
    }

    /// What the queue answered each time that an item was handed to it.
    pub closed spec fn answers(&self) -> Seq<Result<(), TrySendError<T>>> {
        self.end.answers()
    }

    /// The item that waits until there is room in the queue.
    pub closed spec fn slot(&self) -> Option<T> {
        self.slot.item
    }

    /// The items that were handed to this end, oldest first.
    pub open spec fn taken(&self) -> Seq<T> {
        self.queued() + items_of(self.slot())
    }

    /// This is what becomes of `before` when `item` is handed to the queue, which answers with
    /// `answer`.
    pub open spec fn handed(&self, before: Self, item: T, answer: Result<(), TrySendError<T>>) -> bool {
        &&& self.queue() == before.queue()
        &&& self.answers() == before.answers().push(answer)
        &&& match answer {
            Ok(()) => self.queued() == before.queued().push(item),
            Err(error) => error.item() == item && self.queued() == before.queued(),
        }
    }

    /// What [`Sender::try_send`] returns for `item` if it turns `before` into this: the queue's answer to
    /// the item, or to the one that waited if that was not sent.
    pub open spec fn outcome(&self, before: Self, item: T) -> Result<(), TrySendError<T>> {
        let asked = before.answers().len() as int;
        if before.slot() is None {
            self.answers()[asked]
        } else {
            match passing(self.answers()[asked], item).1 {
                Ok(_) => self.answers()[asked + 1],
                Err(error) => Err(error),
            }
        }
    }

    /// This is what [`Sender::try_send`] makes of `before` when it is called with `item`.
    pub open spec fn tried(&self, before: Self, item: T) -> bool {
        let asked = before.answers().len() as int;
        let first = self.answers()[asked];
        match before.slot() {
            None => self.handed(before, item, first) && self.slot() is None,
            Some(waiting) => {
                &&& self.slot() == passing(first, item).0
                &&& if first is Ok {
                    let second = self.answers()[asked + 1];
                    &&& self.queue() == before.queue()
                    &&& self.answers() == before.answers().push(first).push(second)
                    &&& match second {
                        Ok(()) => self.queued() == before.queued().push(waiting).push(item),
                        Err(error) => {
                            &&& error.item() == item
                            &&& self.queued() == before.queued().push(waiting)
                        },
                    }
                } else {
                    self.handed(before, waiting, first)
                }
            },
        }
    }

    /// Puts an item in the queue, and before it the one that waits.
    ///
    /// If there is no room the item is handed back. No item overtakes another one, and none is lost.
    /// There is room for as many items as the queue can hold.
    pub fn try_send(&mut self, item: T) -> (result: Result<(), TrySendError<T>>)
        requires
            C::met(item),
        ensures
            final(self).tried(*old(self), item),
            result == final(self).outcome(*old(self), item),
            match result {
                Ok(()) => {
                    &&& final(self).slot() is None
                    &&& final(self).queued() == old(self).taken().push(item)
                },
                Err(error) => {
                    &&& error.item() == item
                    &&& final(self).taken() == old(self).taken()
                    &&& final(self).slot() is Some ==> final(self).slot() == old(self).slot()
                    &&& error is Full ==> old(self).taken().len() >= old(self).capacity()
                },
            },
            // The answer to what was handed to the queue last is the one that is returned.
            final(self).answers().len() > old(self).answers().len(),
            result is Ok <==> final(self).answers().last() is Ok,
            result is Err ==> {
                &&& result->Err_0 is Full <==> final(self).answers().last()->Err_0 is Full
                &&& result->Err_0 is Disconnected <==> final(self).answers().last()->Err_0
                    is Disconnected
            },
            final(self).capacity() == old(self).capacity(),
    {
        let item: T = match self.slot.take() {
            Some(prev) => {
                let outcome = self.end.try_send(prev);
                let (slot, next) = passed(outcome, item);
                self.slot = Slot::holding(slot);
                match next {
                    Ok(item) => item,
                    Err(error) => {
                        return Err(error);
                    },
                }
            },
            None => item,
        };
        assert(self.queued() =~= old(self).taken());
        self.end.try_send(item)
    }

    /// What [`Sender::poll_ready`] returns if it turns `before` into this: what the queue's answer to the
    /// item that waited comes to, if one did.
    pub open spec fn readiness(&self, before: Self) -> Result<bool, Disconnected> {
        if before.slot() is None {
            Ok(true)
        } else {
            settling(self.answers()[before.answers().len() as int]).1
        }
    }

    /// This is what [`Sender::poll_ready`] makes of `before`.
    pub open spec fn polled(&self, before: Self) -> bool {
        match before.slot() {
            None => *self == before,
            Some(waiting) => {
                let answer = self.answers()[before.answers().len() as int];
                &&& self.handed(before, waiting, answer)
                &&& self.slot() == settling(answer).0
            },
        }
    }

    /// Makes room in the slot by putting the item that waits in the queue. Returns whether there is
    /// room.
    ///
    /// The item is dropped if the receiver is gone.
    pub fn poll_ready(&mut self) -> (result: Result<bool, Disconnected>)
        ensures
            final(self).polled(*old(self)),
            result == final(self).readiness(*old(self)),
            match result {
                Ok(true) => {
                    &&& final(self).slot() is None
                    &&& final(self).queued() == old(self).taken()
                },
                Ok(false) => {
                    &&& old(self).slot() is Some
                    &&& final(self).slot() == old(self).slot()
                    &&& final(self).queued() == old(self).queued()
                    &&& old(self).queued().len() >= old(self).capacity()
                },
                Err(_) => {
                    &&& old(self).slot() is Some
                    &&& final(self).slot() is None
                    &&& final(self).queued() == old(self).queued()
                },
            },
            // Without an item that waits the queue is left alone. Otherwise its answer is returned.
            old(self).slot() is None ==> *final(self) == *old(self),
            old(self).slot() is Some ==> {
                let answer = final(self).answers().last();
                &&& final(self).answers().len() == old(self).answers().len() + 1
                &&& answer is Ok <==> result == Ok::<bool, Disconnected>(true)
                &&& result == Ok::<bool, Disconnected>(false) ==> answer is Err && answer->Err_0 is Full
                &&& result is Err ==> answer is Err && answer->Err_0 is Disconnected
            },
            final(self).capacity() == old(self).capacity(),
    {
        match self.slot.take() {
            Some(item) => {
                let outcome = self.end.try_send(item);
                let (slot, result) = settled(outcome);
                self.slot = Slot::holding(slot);
                assert(result == Ok::<bool, Disconnected>(true) ==> self.queued() =~= old(
                    self,
                ).taken());
                result
            },
            None => {
                assert(self.queued() =~= old(self).taken());
                Ok(true)
            },
        }
    }

    /// Whether there is room in the slot.
    pub fn is_ready(&self) -> (result: bool)
        ensures
            result == (self.slot() is None),
    {
        self.slot.item.is_none()
    }

    /// Puts an item in the slot, which must have been made ready by [`Sender::poll_ready`].
    pub fn start_send(&mut self, item: T)
        requires
            old(self).slot() is None,
            C::met(item),
        ensures
            final(self).slot() == Some(item),
            final(self).queued() == old(self).queued(),
            final(self).taken() == old(self).taken().push(item),
            final(self).queue() == old(self).queue(),
            final(self).capacity() == old(self).capacity(),
            final(self).answers() == old(self).answers(),
    {
        self.slot = Slot::holding(Some(item));
        assert(self.taken() =~= old(self).taken().push(item));
    }
}

/// The items among a queue's answers, in the order in which they came out.
pub open spec fn items_in<T>(answers: Seq<Result<T, TryRecvError>>) -> Seq<T>
    decreases answers.len(),
{
    if answers.len() == 0 {
        Seq::empty()
    } else {
        match answers.last() {
            Ok(item) => items_in(answers.drop_last()).push(item),
            Err(_) => items_in(answers.drop_last()),
        }
    }
}

/// The receiving end of a queue whose items meet the condition `C`.
#[verifier::reject_recursive_types(T)]
#[verifier::reject_recursive_types(C)]
pub struct Receiver<T, C: Condition<T> = Unconditional> {
    end: RecvEnd<T, C>,
}

impl<T, C: Condition<T>> Receiver<T, C> {
    /// Which queue this is an end of.
    pub closed spec fn queue(&self) -> Queue {
        self.end.queue()
    }

    /// The number of items that the queue can hold.
    pub open spec fn capacity(&self) -> nat {
        self.queue().capacity
    }

    /// What the queue answered each time that an item was asked for.
    pub closed spec fn answers(&self) -> Seq<Result<T, TryRecvError>> {
        self.end.answers()
    }

    /// The items that came out of the queue, oldest first.
    pub open spec fn received(&self) -> Seq<T> {
        items_in(self.answers())
    }

    /// Takes the oldest item from the queue.
    ///
    /// Which item that is, and whether there is one, depends on what the sender has sent.
    pub fn try_recv(&mut self) -> (result: Result<T, TryRecvError>)
        ensures
            final(self).queue() == old(self).queue(),
            final(self).capacity() == old(self).capacity(),
            final(self).answers() == old(self).answers().push(result),
            final(self).received() == old(self).received() + items_of(result.ok()),
            result matches Ok(item) ==> C::met(item),
    {
        let result = self.end.try_recv();
        assert(self.answers().drop_last() =~= old(self).answers());
        assert(self.received() =~= old(self).received() + items_of(result.ok()));
        result
    }
}

/// The two ends of a queue that nothing was sent through and nothing was asked of.
pub open spec fn unused_queue<T, C: Condition<T>>(
    sender: Sender<T, C>,
    receiver: Receiver<T, C>,
) -> bool {
    &&& sender.queue() == receiver.queue()
    &&& sender.queued().len() == 0
    &&& sender.slot() is None
    &&& sender.answers().len() == 0
    &&& receiver.answers().len() == 0
}

/// Makes a queue with room for `capacity` items, which meet the condition `C`.
pub fn conditional_channel<T, C: Condition<T>>(capacity: usize) -> (ends: (
    Sender<T, C>,
    Receiver<T, C>,
))
    requires
        capacity <= usize::MAX / 4,
    ensures
        unused_queue(ends.0, ends.1),
        ends.0.capacity() == capacity,
        ends.1.capacity() == capacity,
{
    let (send_end, recv_end) = bounded(capacity);
    (Sender { end: send_end, slot: Slot::holding(None) }, Receiver { end: recv_end })
}

/// Makes a queue with room for `capacity` items.
pub fn channel<T>(capacity: usize) -> (ends: (Sender<T>, Receiver<T>))
    requires
        capacity <= usize::MAX / 4,
    ensures
        unused_queue(ends.0, ends.1),
        ends.0.capacity() == capacity,
        ends.1.capacity() == capacity,
{
    conditional_channel(capacity)
}

} // verus!
