//! A contiguous vector backed by caller-supplied storage.
//!
//! `StackVec` behaves like a vector whose capacity is fixed at the length
//! of the storage it was built around: `push` fails once that capacity is
//! reached, and no operation ever grows or shrinks the backing store.

use vstd::prelude::*;

verus! {

/// A vector of at most `capacity()` elements living in the first
/// `len()` slots of its backing storage.
pub struct StackVec<T> {
    storage: Vec<T>,
    len: usize,
}

impl<T> StackVec<T> {
    /// The elements currently held, in order: the first `len` slots of
    /// the backing storage.
    pub closed spec fn view(&self) -> Seq<T> {
        self.storage@.take(self.len as int)
    }

    /// The fixed capacity: the length of the backing storage.
    pub closed spec fn spec_capacity(&self) -> nat {
        self.storage@.len()
    }

    /// The length never exceeds the capacity.
    pub closed spec fn wf(&self) -> bool {
        self.len <= self.storage@.len()
    }

    /// A well-formed vector never holds more elements than its capacity.
    pub proof fn lemma_len_bounded(&self)
        requires
            self.wf(),
        ensures
            self@.len() <= self.spec_capacity(),
    {
    }

    /// An empty `StackVec` that uses `storage` as its backing store and
    /// can hold `storage.len()` elements.
    pub fn new(storage: Vec<T>) -> (r: StackVec<T>)
        ensures
            r.wf(),
            r@ == Seq::<T>::empty(),
            r.spec_capacity() == storage@.len(),
    {
        let r = StackVec { storage, len: 0 };
        proof {
            assert(r@ =~= Seq::<T>::empty());
        }
        r
    }

    /// A `StackVec` over `storage` whose first `len` elements count as
    /// already pushed. `len` must not exceed the storage's length.
    pub fn with_len(storage: Vec<T>, len: usize) -> (r: StackVec<T>)
        requires
            len <= storage@.len(),
        ensures
            r.wf(),
            r@ == storage@.take(len as int),
            r.spec_capacity() == storage@.len(),
    {
        StackVec { storage, len }
    }

    /// How many elements this vector can hold.
    pub fn capacity(&self) -> (r: usize)
        ensures
            r == self.spec_capacity(),
    {
        self.storage.len()
    }

    /// Keep only the first `len` elements. A `len` at or above the
    /// current length changes nothing; the capacity never changes.
    pub fn truncate(&mut self, len: usize)
        requires
            old(self).wf(),
        ensures
            final(self).wf(),
            final(self).spec_capacity() == old(self).spec_capacity(),
            len < old(self)@.len() ==> final(self)@ == old(self)@.take(len as int),
            len >= old(self)@.len() ==> final(self)@ == old(self)@,
    {
        if len < self.len {
            self.len = len;
            proof {
                assert(self.storage@.take(len as int) =~= old(self)@.take(len as int));
            }
        }
    }

    /// The elements as an owned vector, consuming `self`.
    pub fn into_slice(self) -> (r: Vec<T>)
        requires
            self.wf(),
        ensures
            r@ == self@,
    {
        let mut storage = self.storage;
        storage.truncate(self.len);
        storage
    }

    /// The elements as a borrowed slice.
    pub fn as_slice(&self) -> (r: &[T])
        requires
            self.wf(),
        ensures
            r@ == self@,
    {
        vstd::slice::slice_subrange(self.storage.as_slice(), 0, self.len)
    }

    /// How many elements the vector holds.
    pub fn len(&self) -> (r: usize)
        requires
            self.wf(),
        ensures
            r == self@.len(),
    {
        self.len
    }

    /// Whether the vector holds no elements.
    pub fn is_empty(&self) -> (r: bool)
        requires
            self.wf(),
        ensures
            r == (self@.len() == 0),
    {
        self.len == 0
    }

    /// Whether the vector is at capacity.
    pub fn is_full(&self) -> (r: bool)
        requires
            self.wf(),
        ensures
            r == (self@.len() == self.spec_capacity()),
    {
        self.len == self.storage.len()
    }

    /// The element at index `i`.
    pub fn get(&self, i: usize) -> (r: &T)
        requires
            self.wf(),
            i < self@.len(),
        ensures
            *r == self@[i as int],
    {
        vstd::slice::slice_index_get(self.storage.as_slice(), i)
    }

    /// Append `value` if the vector is not full; report `Err` and change
    /// nothing when it is.
    pub fn push(&mut self, value: T) -> (r: Result<(), ()>)
        requires
            old(self).wf(),
        ensures
            final(self).wf(),
            final(self).spec_capacity() == old(self).spec_capacity(),
            old(self)@.len() >= old(self).spec_capacity() ==> r == Err::<(), ()>(())
                && final(self)@ == old(self)@,
            old(self)@.len() < old(self).spec_capacity() ==> r == Ok::<(), ()>(()) && final(self)@
                == old(self)@.push(value),
    {
        if self.len == self.storage.len() {
            return Err(());
        }
        self.storage[self.len] = value;
        self.len = self.len + 1;
        proof {
            assert(self.storage@.take(self.len as int) =~= old(self)@.push(value));
        }
        Ok(())
    }
}

impl<T: Copy> StackVec<T> {
    /// Remove and return the last element, or `None` when the vector is
    /// empty. The capacity never changes.
    pub fn pop(&mut self) -> (r: Option<T>)
        requires
            old(self).wf(),
        ensures
            final(self).wf(),
            final(self).spec_capacity() == old(self).spec_capacity(),
            old(self)@.len() == 0 ==> r == None::<T> && final(self)@ == old(self)@,
            old(self)@.len() > 0 ==> r == Some(old(self)@.last())
                && final(self)@ == old(self)@.drop_last(),
    {
        if self.len > 0 {
            self.len = self.len - 1;
            let v = self.storage[self.len];
            proof {
                assert(self.storage@.take(self.len as int) =~= old(self)@.drop_last());
            }
            Some(v)
        } else {
            None
        }
    }
}

} // verus!
