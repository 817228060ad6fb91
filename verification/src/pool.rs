//! Items that are used again.

use crossbeam::queue::SegQueue;
use vstd::prelude::*;

verus! {

/// Trait for pooled items that allows them to change state when they re-enter the pool.
pub trait Init: Sized {
    /// Re-initialize this value before it is returned to the pool.  Default implementation does
    /// nothing.
    fn initialize(&mut self)
        default_ensures
            *final(self) == *old(self),
    {
    }
}

/// `crossbeam::queue::SegQueue`, a queue that many threads may use at once.
#[verifier::external_type_specification]
#[verifier::external_body]
#[verifier::reject_recursive_types(T)]
pub struct ExSegQueue<T>(crossbeam::queue::SegQueue<T>);

/// `crossbeam::queue::SegQueue::new`: makes an empty queue.
pub assume_specification<T>[ crossbeam::queue::SegQueue::<T>::new ]() -> (queue:
    crossbeam::queue::SegQueue<T>)
;

/// A sharable pool of items of type `T`, to which values are returned after use.
#[verifier::reject_recursive_types(T)]
pub struct Pool<T> {
    items: SegQueue<T>,
}

/// `crossbeam::queue::SegQueue::push`: adds an item, which must have been re-initialized.
///
/// This is the only way for an item to enter the queue of a pool.
#[verifier::external_body]
fn push_item<T: Init>(pool: &Pool<T>, item: T)
    requires
        exists|value: &mut T|
            #[trigger] call_ensures(T::initialize, (value,), ()) && *final(value) == item,
{
    pool.items.push(item);
}

/// `crossbeam::queue::SegQueue::pop`: takes an item, if there is one.
///
/// An item that comes out of the queue is one that [`push_item`] put in, so it was re-initialized.
/// Which item that is depends on what was returned to the pool, and by whom else it is used.
#[verifier::external_body]
fn pop_item<T: Init>(pool: &Pool<T>) -> (unused: Option<T>)
    ensures
        unused matches Some(item) ==> exists|value: &mut T|
            #[trigger] call_ensures(T::initialize, (value,), ()) && *final(value) == item,
{
    pool.items.pop().ok()
}

/// An unused item, or a new one if there is none.
pub fn reuse<T, F: FnOnce() -> T>(unused: Option<T>, f: F) -> (item: T)
    requires
        unused is None ==> f.requires(()),
    ensures
        match unused {
            Some(unused) => item == unused,
            None => f.ensures((), item),
        },
{
    match unused {
        Some(item) => item,
        None => f(),
    }
}

impl<T: Init> Pool<T> {
    /// Construct a new empty pool.
    pub fn new() -> Pool<T> {
        Pool { items: SegQueue::new() }
    }

    /// Acquire an item from the pool, or construct a new one if one is not available.
    ///
    /// An item from the pool was re-initialized when it was returned. Which of these happens
    /// depends on what was returned to the pool.
    pub fn acquire_with<F: FnOnce() -> T>(&self, f: F) -> (item: T)
        requires
            f.requires(()),
        ensures
            f.ensures((), item) || exists|value: &mut T|
                #[trigger] call_ensures(T::initialize, (value,), ()) && *final(value) == item,
    {
        reuse(pop_item(self), f)
    }

    /// Returns an item to the pool after it is re-initialized.
    pub fn release(&self, item: T) {
        let mut item = item;
        item.initialize();
        push_item(self, item);
    }
}

} // verus!
