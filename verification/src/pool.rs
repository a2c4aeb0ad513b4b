//! A bounded pool of values that are used again.
//!
//! Taking a value out of the pool never waits: where the pool is empty, a
//! fresh value is made. A value that is given back is reset and kept, unless
//! the pool is full; then it is dropped.

use vstd::prelude::*;

verus! {

/// A value that a pool can hand out again.
pub trait Recyclable: Sized {
    /// Whether the value is as good as new.
    spec fn is_fresh(&self) -> bool;

    fn new() -> (r: Self)
        ensures
            r.is_fresh(),
    ;

    fn reset(&mut self)
        ensures
            final(self).is_fresh(),
    ;
}

impl Recyclable for Vec<u8> {
    open spec fn is_fresh(&self) -> bool {
        self@.len() == 0
    }

    fn new() -> (r: Self) {
        Vec::new()
    }

    fn reset(&mut self) {
        self.clear();
    }
}

/// A pool of at most `capacity` values.
pub struct Pool<T: Recyclable> {
    items: Vec<T>,
    capacity: usize,
}

impl<T: Recyclable> Pool<T> {
    /// The values in the pool.
    pub closed spec fn items(&self) -> Seq<T> {
        self.items@
    }

    /// The most values that the pool keeps.
    pub closed spec fn spec_capacity(&self) -> usize {
        self.capacity
    }

    /// The pool is not over its capacity, and every value in it is fresh.
    pub open spec fn wf(&self) -> bool {
        &&& self.items().len() <= self.spec_capacity()
        &&& forall|i: int| 0 <= i < self.items().len() ==> (#[trigger] self.items()[i]).is_fresh()
    }

    /// A pool that holds `size` fresh values and keeps at most `capacity`,
    /// or `size` where that is more.
    pub fn new(size: usize, capacity: usize) -> (r: Self)
        ensures
            r.wf(),
            r.items().len() == size,
            r.spec_capacity() == if size <= capacity {
                capacity
            } else {
                size
            },
    {
        let mut items: Vec<T> = Vec::with_capacity(capacity);
        let mut i: usize = 0;
        while i < size
            invariant
                i <= size,
                items@.len() == i,
                forall|j: int| 0 <= j < items@.len() ==> (#[trigger] items@[j]).is_fresh(),
            decreases size - i,
        {
            items.push(T::new());
            i += 1;
        }
        if size <= capacity {
            Pool { items, capacity }
        } else {
            Pool { items, capacity: size }
        }
    }

    /// The number of values in the pool.
    pub fn len(&self) -> (r: usize)
        ensures
            r == self.items().len(),
    {
        self.items.len()
    }

    /// Takes a value out of the pool, or makes a fresh one where the pool is
    /// empty.
    pub fn detached(&mut self) -> (r: T)
        requires
            old(self).wf(),
        ensures
            final(self).wf(),
            r.is_fresh(),
            final(self).spec_capacity() == old(self).spec_capacity(),
            old(self).items().len() > 0 ==> r == old(self).items().last() && final(self).items()
                == old(self).items().drop_last(),
            old(self).items().len() == 0 ==> final(self).items() == old(self).items(),
    {
        match self.items.pop() {
            Some(item) => {
                assert(old(self).items()[old(self).items().len() - 1].is_fresh());
                item
            },
            None => T::new(),
        }
    }

    /// Gives a value back to the pool. The pool resets and keeps it, or drops
    /// it where the pool is full.
    pub fn return_item(&mut self, item: T)
        requires
            old(self).wf(),
        ensures
            final(self).wf(),
            final(self).spec_capacity() == old(self).spec_capacity(),
            final(self).items().len() == if old(self).items().len() < old(self).spec_capacity() {
                old(self).items().len() + 1nat
            } else {
                old(self).items().len()
            },
            final(self).items().subrange(0, old(self).items().len() as int) == old(self).items(),
    {
        let mut item = item;
        if self.items.len() < self.capacity {
            item.reset();
            self.items.push(item);
        }
        assert(self.items@.subrange(0, old(self).items().len() as int) =~= old(self).items());
    }
}

} // verus!
