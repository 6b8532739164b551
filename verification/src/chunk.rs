use vstd::prelude::*;

use crate::config::CHUNK_SIZE;
use crate::errors::Error;

verus! {

/// Fixed-capacity contiguous node storage, the leaf/slot primitive shared by
/// both tree engines. A chunk never holds more than `CHUNK_SIZE` elements;
/// insertion and removal shift the surviving elements while preserving their
/// order. No ordering is imposed by the chunk itself — sorted-by-key versus
/// insertion-order semantics belong to the owning tree node.
pub struct Chunk<A> {
    data: Vec<A>,
}

impl<A> View for Chunk<A> {
    type V = Seq<A>;

    closed spec fn view(&self) -> Seq<A> {
        self.data@
    }
}

impl<A> Chunk<A> {
    /// Capacity bound: the one structural invariant of chunk storage.
    pub closed spec fn wf(&self) -> bool {
        self.data@.len() <= CHUNK_SIZE
    }

    pub fn new() -> (r: Self)
        ensures
            r@ == Seq::<A>::empty(),
            r.wf(),
    {
        Chunk { data: Vec::new() }
    }

    pub fn len(&self) -> (r: usize)
        ensures
            r == self@.len(),
    {
        self.data.len()
    }

    pub fn is_empty(&self) -> (r: bool)
        ensures
            r == (self@.len() == 0),
    {
        self.data.len() == 0
    }

    pub fn is_full(&self) -> (r: bool)
        ensures
            r == (self@.len() >= CHUNK_SIZE),
    {
        self.data.len() >= CHUNK_SIZE
    }

    pub fn get(&self, index: usize) -> (r: &A)
        requires
            index < self@.len(),
        ensures
            *r == self@[index as int],
    {
        &self.data[index]
    }

    /// Inserts at `offset`, shifting elements to its right; fails with
    /// `Capacity` (leaving the chunk unchanged) when already full.
    pub fn insert(&mut self, offset: usize, value: A) -> (r: Result<(), Error>)
        requires
            old(self).wf(),
            offset <= old(self)@.len(),
        ensures
            final(self).wf(),
            match r {
                Ok(()) => old(self)@.len() < CHUNK_SIZE
                    && final(self)@ == old(self)@.insert(offset as int, value),
                Err(e) => e == Error::Capacity
                    && old(self)@.len() == CHUNK_SIZE
                    && final(self)@ == old(self)@,
            },
    {
        if self.data.len() >= CHUNK_SIZE {
            Err(Error::Capacity)
        } else {
            self.data.insert(offset, value);
            Ok(())
        }
    }

    /// Appends at the back; fails with `Capacity` when already full.
    pub fn push_back(&mut self, value: A) -> (r: Result<(), Error>)
        requires
            old(self).wf(),
        ensures
            final(self).wf(),
            match r {
                Ok(()) => old(self)@.len() < CHUNK_SIZE
                    && final(self)@ == old(self)@.push(value),
                Err(e) => e == Error::Capacity
                    && old(self)@.len() == CHUNK_SIZE
                    && final(self)@ == old(self)@,
            },
    {
        if self.data.len() >= CHUNK_SIZE {
            Err(Error::Capacity)
        } else {
            self.data.push(value);
            proof {
                assert(self@ =~= old(self)@.push(value));
            }
            Ok(())
        }
    }

    /// Prepends at the front; fails with `Capacity` when already full.
    pub fn push_front(&mut self, value: A) -> (r: Result<(), Error>)
        requires
            old(self).wf(),
        ensures
            final(self).wf(),
            match r {
                Ok(()) => old(self)@.len() < CHUNK_SIZE
                    && final(self)@ == old(self)@.insert(0, value),
                Err(e) => e == Error::Capacity
                    && old(self)@.len() == CHUNK_SIZE
                    && final(self)@ == old(self)@,
            },
    {
        self.insert(0, value)
    }

    /// Overwrites the slot at `offset`.
    pub fn set(&mut self, offset: usize, value: A)
        requires
            old(self).wf(),
            offset < old(self)@.len(),
        ensures
            final(self).wf(),
            final(self)@ == old(self)@.update(offset as int, value),
    {
        self.data[offset] = value;
    }

    /// Removes the element at `offset`, shifting its right neighbours left.
    pub fn remove(&mut self, offset: usize) -> (r: A)
        requires
            old(self).wf(),
            offset < old(self)@.len(),
        ensures
            final(self).wf(),
            final(self)@ == old(self)@.remove(offset as int),
            r == old(self)@[offset as int],
    {
        self.data.remove(offset)
    }
}

impl<A: Copy> Chunk<A> {
    /// A fresh chunk holding a copy of the elements in `[from, to)`.
    pub fn dup_range(&self, from: usize, to: usize) -> (r: Chunk<A>)
        requires
            self.wf(),
            from <= to <= self@.len(),
        ensures
            r@ == self@.subrange(from as int, to as int),
            r.wf(),
    {
        let mut data: Vec<A> = Vec::new();
        let mut i: usize = from;
        while i < to
            invariant
                from <= i <= to <= self@.len(),
                self.wf(),
                data@ == self@.subrange(from as int, i as int),
            decreases to - i,
        {
            data.push(self.data[i]);
            proof {
                assert(data@ =~= self@.subrange(from as int, i + 1 as int));
            }
            i = i + 1;
        }
        Chunk { data }
    }

    /// Deep copy of the whole chunk: the clone-node step of copy-on-write.
    pub fn dup(&self) -> (r: Chunk<A>)
        requires
            self.wf(),
        ensures
            r@ == self@,
            r.wf(),
    {
        let r = self.dup_range(0, self.data.len());
        proof {
            assert(self@.subrange(0, self@.len() as int) =~= self@);
        }
        r
    }

    /// Splits into two chunks whose lengths sum to the original length.
    pub fn split_at(&self, offset: usize) -> (r: (Chunk<A>, Chunk<A>))
        requires
            self.wf(),
            offset <= self@.len(),
        ensures
            r.0@ == self@.take(offset as int),
            r.1@ == self@.skip(offset as int),
            r.0.wf(),
            r.1.wf(),
            r.0@.len() + r.1@.len() == self@.len(),
    {
        let left = self.dup_range(0, offset);
        let right = self.dup_range(offset, self.data.len());
        proof {
            assert(left@ =~= self@.take(offset as int));
            assert(right@ =~= self@.skip(offset as int));
        }
        (left, right)
    }

    /// Joins `other` onto the back; fails with `Capacity` (leaving the chunk
    /// unchanged) when the combined length would exceed `CHUNK_SIZE`.
    pub fn append(&mut self, other: &Chunk<A>) -> (r: Result<(), Error>)
        requires
            old(self).wf(),
            other.wf(),
        ensures
            final(self).wf(),
            match r {
                Ok(()) => old(self)@.len() + other@.len() <= CHUNK_SIZE
                    && final(self)@ == old(self)@ + other@,
                Err(e) => e == Error::Capacity
                    && old(self)@.len() + other@.len() > CHUNK_SIZE
                    && final(self)@ == old(self)@,
            },
    {
        if self.data.len() + other.data.len() > CHUNK_SIZE {
            Err(Error::Capacity)
        } else {
            let mut i: usize = 0;
            let n = other.data.len();
            while i < n
                invariant
                    i <= n == other@.len(),
                    other.wf(),
                    old(self)@.len() + other@.len() <= CHUNK_SIZE,
                    self.data@ == old(self)@ + other@.take(i as int),
                decreases n - i,
            {
                self.data.push(other.data[i]);
                proof {
                    assert(self.data@ =~= old(self)@ + other@.take(i + 1 as int));
                }
                i = i + 1;
            }
            proof {
                assert(other@.take(n as int) =~= other@);
            }
            Ok(())
        }
    }
}

} // verus!
