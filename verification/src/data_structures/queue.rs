//! A queue of cloneable values, stored in a vector.
use vstd::prelude::*;

verus! {

/// Why a queue could not hand out an element.
#[derive(Debug, Clone, Copy, PartialEq, Eq, Structural)]
pub enum QueueError {
    /// The queue holds no element.
    Empty,
}

/// A queue: what was added first is removed first.
#[derive(Debug)]
pub struct Queue<T: Clone> {
    queue: Vec<T>,
}

/// What a queue does. The elements are modelled as a sequence, the oldest first.
pub trait IsQueue<T: Clone> {
    /// The elements that are held, the oldest first.
    spec fn items(&self) -> Seq<T>;

    /// Adds `value`. This always succeeds, and returns `Ok(None)`.
    fn add(&mut self, value: T) -> (result: Result<Option<T>, QueueError>)
        ensures
            result == Ok::<Option<T>, QueueError>(None),
            final(self).items() == old(self).items().push(value),
    ;

    /// Takes out the element that was added first, and returns it.
    ///
    /// Fails with `Empty`, and changes nothing, exactly where nothing is held.
    fn remove(&mut self) -> (result: Result<T, QueueError>)
        ensures
            old(self).items().len() > 0 ==> result == Ok::<T, QueueError>(old(self).items().first())
                && final(self).items() == old(self).items().drop_first(),
            old(self).items().len() == 0 ==> result == Err::<T, QueueError>(QueueError::Empty)
                && final(self).items() == old(self).items(),
    ;

    /// Returns a clone of the element that `remove` would take out, and leaves it in place.
    ///
    /// Fails with `Empty` exactly where nothing is held.
    fn read(&self) -> (result: Result<T, QueueError>)
        ensures
            self.items().len() > 0 ==> result is Ok && cloned(self.items().first(), result->Ok_0),
            self.items().len() == 0 ==> result == Err::<T, QueueError>(QueueError::Empty),
    ;

    /// The number of elements that are held.
    fn size(&self) -> (n: usize)
        ensures
            n == self.items().len(),
    ;
}

impl<T: Clone> Queue<T> {
    /// Creates an empty queue.
    pub fn new() -> (queue: Queue<T>)
        ensures
            queue.items() == Seq::<T>::empty(),
    {
        Queue { queue: Vec::new() }
    }
}

impl<T: Clone> Default for Queue<T> {
    /// Creates an empty queue.
    fn default() -> (queue: Queue<T>)
        ensures
            queue.items() == Seq::<T>::empty(),
    {
        Queue { queue: Vec::new() }
    }
}

impl<T: Clone> IsQueue<T> for Queue<T> {
    closed spec fn items(&self) -> Seq<T> {
        self.queue@
    }

    fn add(&mut self, value: T) -> (result: Result<Option<T>, QueueError>) {
        self.queue.push(value);
        Ok(None)
    }

    fn remove(&mut self) -> (result: Result<T, QueueError>) {
        if !self.queue.is_empty() {
            let value = self.queue.remove(0);
            proof {
                assert(old(self).queue@.remove(0) =~= old(self).queue@.drop_first());
            }
            Ok(value)
        } else {
            Err(QueueError::Empty)
        }
    }

    fn read(&self) -> (result: Result<T, QueueError>) {
        if !self.queue.is_empty() {
            Ok(self.queue[0].clone())
        } else {
            Err(QueueError::Empty)
        }
    }

    fn size(&self) -> (n: usize) {
        self.queue.len()
    }
}

} // verus!
