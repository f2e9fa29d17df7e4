use vstd::prelude::*;

verus! {

/// A bump cursor over a fixed number of slots. Slots are reserved in order
/// and only the most recently reserved slot can be handed back.
pub struct ConcurrentArena {
    next: usize,
    item_capacity: usize,
}

impl ConcurrentArena {
    /// Slots reserved so far.
    pub closed spec fn reserved(&self) -> nat {
        self.next as nat
    }

    /// Slots the arena can hold.
    pub closed spec fn slots(&self) -> nat {
        self.item_capacity as nat
    }

    pub closed spec fn wf(&self) -> bool {
        self.next <= self.item_capacity
    }

    /// An arena of `item_capacity` slots, none reserved.
    pub fn new(item_capacity: usize) -> (r: Self)
        ensures
            r.wf(),
            r.reserved() == 0,
            r.slots() == item_capacity,
    {
        ConcurrentArena { next: 0, item_capacity }
    }

    /// Reserves the next slot and returns its index; fails only when every
    /// slot is reserved.
    pub fn push(&mut self) -> (r: Option<usize>)
        requires
            old(self).wf(),
        ensures
            final(self).wf(),
            final(self).slots() == old(self).slots(),
            old(self).reserved() < old(self).slots() ==> r == Some(old(self).reserved() as usize)
                && final(self).reserved() == old(self).reserved() + 1,
            old(self).reserved() >= old(self).slots() ==> r is None && final(self).reserved()
                == old(self).reserved(),
    {
        if self.next >= self.item_capacity {
            return None;
        }
        let index = self.next;
        self.next = index + 1;
        Some(index)
    }

    /// The slot at `index`, if it has been reserved.
    pub fn get(&self, index: usize) -> (r: Option<usize>)
        ensures
            index < self.reserved() ==> r == Some(index),
            index >= self.reserved() ==> r is None,
    {
        if index >= self.next {
            None
        } else {
            Some(index)
        }
    }

    /// Hands slot `index` back; succeeds exactly when it is the most
    /// recently reserved slot.
    pub fn try_remove(&mut self, index: usize) -> (r: bool)
        requires
            old(self).wf(),
        ensures
            final(self).wf(),
            final(self).slots() == old(self).slots(),
            r == (index as int + 1 == old(self).reserved()),
            r ==> final(self).reserved() == index,
            !r ==> final(self).reserved() == old(self).reserved(),
    {
        if index < self.item_capacity && self.next == index + 1 {
            self.next = index;
            true
        } else {
            false
        }
    }

    /// Number of slots of the arena.
    pub fn elem_count(&self) -> (r: usize)
        ensures
            r == self.slots(),
    {
        self.item_capacity
    }
}

/// A vector-like store with a fixed capacity. Items are appended and read
/// by index; only the most recently appended item can be removed.
pub struct ConcurrentArray<T> {
    inner: ConcurrentArena,
    items: Vec<T>,
    capacity: usize,
}

impl<T> View for ConcurrentArray<T> {
    type V = Seq<T>;

    closed spec fn view(&self) -> Seq<T> {
        self.items@
    }
}

impl<T> ConcurrentArray<T> {
    /// How many items the array can hold.
    pub closed spec fn capacity_spec(&self) -> nat {
        self.capacity as nat
    }

    pub closed spec fn wf(&self) -> bool {
        &&& self.inner.wf()
        &&& self.inner.reserved() == self.items.len()
        &&& self.inner.slots() == self.capacity
    }

    /// An empty array that holds up to `capacity` items.
    pub fn new(capacity: usize) -> (r: Self)
        ensures
            r.wf(),
            r@ == Seq::<T>::empty(),
            r.capacity_spec() == capacity,
    {
        ConcurrentArray { inner: ConcurrentArena::new(capacity), items: Vec::new(), capacity }
    }

    /// Appends `item` and returns its index, or `None` when the array is full.
    pub fn push(&mut self, item: T) -> (r: Option<usize>)
        requires
            old(self).wf(),
        ensures
            final(self).wf(),
            final(self).capacity_spec() == old(self).capacity_spec(),
            old(self)@.len() < old(self).capacity_spec() ==> r == Some(old(self)@.len() as usize)
                && final(self)@ == old(self)@.push(item),
            old(self)@.len() >= old(self).capacity_spec() ==> r is None && final(self)@ == old(
                self,
            )@,
    {
        match self.inner.push() {
            Some(index) => {
                self.items.push(item);
                Some(index)
            },
            None => None,
        }
    }

    /// Removes the item at `index`; succeeds exactly when it is the most
    /// recently appended item.
    pub fn remove(&mut self, index: usize) -> (r: bool)
        requires
            old(self).wf(),
        ensures
            final(self).wf(),
            final(self).capacity_spec() == old(self).capacity_spec(),
            r == (index as int + 1 == old(self)@.len()),
            r ==> final(self)@ == old(self)@.drop_last(),
            !r ==> final(self)@ == old(self)@,
    {
        if index >= self.capacity {
            return false;
        }
        if self.inner.try_remove(index) {
            self.items.pop();
            true
        } else {
            false
        }
    }

    /// The item at `index`, if one was appended there.
    pub fn get(&self, index: usize) -> (r: Option<&T>)
        requires
            self.wf(),
        ensures
            match r {
                Some(x) => index < self@.len() && *x == self@[index as int],
                None => index >= self@.len(),
            },
    {
        match self.inner.get(index) {
            Some(i) => Some(&self.items[i]),
            None => None,
        }
    }

    /// Number of items appended so far.
    pub fn len(&self) -> (r: usize)
        requires
            self.wf(),
        ensures
            r == self@.len(),
    {
        self.items.len()
    }
}

} // verus!
