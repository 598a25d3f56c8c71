//! A stack of cloneable values, stored in a vector.
use vstd::prelude::*;

verus! {

/// Why a stack could not hand out an element.
#[derive(Debug, Clone, Copy, PartialEq, Eq, Structural)]
pub enum StackError {
    /// The stack holds no element.
    Empty,
}

/// A stack: what was added last is removed first.
#[derive(Debug)]
pub struct Stack<T: Clone> {
    stack: Vec<T>,
}

/// What a stack does. The elements are modelled as a sequence, the oldest first, so that the top is last.
pub trait IsStack<T: Clone> {
    /// The elements that are held, the oldest first, so that the top is last.
    spec fn items(&self) -> Seq<T>;

    /// Adds `value`. This always succeeds, and returns `Ok(None)`.
    fn add(&mut self, value: T) -> (result: Result<Option<T>, StackError>)
        ensures
            result == Ok::<Option<T>, StackError>(None),
            final(self).items() == old(self).items().push(value),
    ;

    /// Takes out the element that was added last, and returns it.
    ///
    /// Fails with `Empty`, and changes nothing, exactly where nothing is held.
    fn remove(&mut self) -> (result: Result<T, StackError>)
        ensures
            old(self).items().len() > 0 ==> result == Ok::<T, StackError>(old(self).items().last())
                && final(self).items() == old(self).items().drop_last(),
            old(self).items().len() == 0 ==> result == Err::<T, StackError>(StackError::Empty)
                && final(self).items() == old(self).items(),
    ;

    /// Returns a clone of the element that `remove` would take out, and leaves it in place.
    ///
    /// Fails with `Empty` exactly where nothing is held.
    fn read(&self) -> (result: Result<T, StackError>)
        ensures
            self.items().len() > 0 ==> result is Ok && cloned(self.items().last(), result->Ok_0),
            self.items().len() == 0 ==> result == Err::<T, StackError>(StackError::Empty),
    ;

    /// The number of elements that are held.
    fn size(&self) -> (n: usize)
        ensures
            n == self.items().len(),
    ;
}

impl<T: Clone> Stack<T> {
    /// Creates an empty stack.
    pub fn new() -> (stack: Stack<T>)
        ensures
            stack.items() == Seq::<T>::empty(),
    {
        Stack { stack: Vec::new() }
    }
}

impl<T: Clone> Default for Stack<T> {
    /// Creates an empty stack.
    fn default() -> (stack: Stack<T>)
        ensures
            stack.items() == Seq::<T>::empty(),
    {
        Stack { stack: Vec::new() }
    }
}

impl<T: Clone> IsStack<T> for Stack<T> {
    closed spec fn items(&self) -> Seq<T> {
        self.stack@
    }

    fn add(&mut self, value: T) -> (result: Result<Option<T>, StackError>) {
        self.stack.push(value);
        Ok(None)
    }

    fn remove(&mut self) -> (result: Result<T, StackError>) {
        if !self.stack.is_empty() {
            let top = self.stack.pop();
            proof {
                assert(old(self).stack@.subrange(0, old(self).stack@.len() - 1) =~= old(self).stack@.drop_last());
            }
            Ok(top.unwrap())
        } else {
            Err(StackError::Empty)
        }
    }

    fn read(&self) -> (result: Result<T, StackError>) {
        if !self.stack.is_empty() {
            Ok(self.stack[self.stack.len() - 1].clone())
        } else {
            Err(StackError::Empty)
        }
    }

    fn size(&self) -> (n: usize) {
        self.stack.len()
    }
}

} // verus!
