use vstd::prelude::*;

verus! {

/// The capacity the amortized growth policy picks when `required` slots are
/// needed and `cap` are reserved: at least double the current capacity (with a
/// capacity of zero counted as one), saturating at `usize::MAX`, and never less
/// than what is required.
pub open spec fn amortized_capacity(cap: nat, required: nat) -> nat {
    let base: nat = if cap == 0 { 1 } else { cap };
    let doubled: nat = if base * 2 > usize::MAX { usize::MAX as nat } else { base * 2 };
    if doubled >= required { doubled } else { required }
}

/// The capacity after making room for `additional` more elements when `len`
/// are stored and `cap` are reserved: unchanged when it already suffices.
pub open spec fn capacity_after_reserve(len: nat, cap: nat, additional: nat) -> nat {
    if len + additional > cap { amortized_capacity(cap, len + additional) } else { cap }
}

/// Whether `capacity` elements of type `T` take at most `isize::MAX` bytes,
/// the most one allocation may hold.
pub open spec fn fits_in_memory<T>(capacity: nat) -> bool {
    capacity * vstd::layout::size_of::<T>() <= isize::MAX
}

/// A growable array that keeps its own capacity bookkeeping.
///
/// The elements live in `items`; `cap` is the capacity the container has
/// reserved for them, grown by the amortized doubling policy.
pub struct Vec<T> {
    items: std::vec::Vec<T>,
    cap: usize,
}

impl<T> View for Vec<T> {
    type V = Seq<T>;

    closed spec fn view(&self) -> Seq<T> {
        self.items@
    }
}

impl<T> Vec<T> {
    /// The capacity currently reserved.
    pub closed spec fn capacity(&self) -> nat {
        self.cap as nat
    }

    /// The capacity always covers the stored elements and fits in memory.
    pub closed spec fn wf(&self) -> bool {
        &&& self.items@.len() <= self.cap
        &&& fits_in_memory::<T>(self.cap as nat)
    }

    /// An empty vector that has reserved nothing.
    pub fn new() -> (v: Self)
        ensures
            v.wf(),
            v@ == Seq::<T>::empty(),
            v.capacity() == 0,
    {
        Vec { items: std::vec::Vec::new(), cap: 0 }
    }

    /// An empty vector with room for `capacity` elements.
    pub fn with_capacity(capacity: usize) -> (v: Self)
        requires
            fits_in_memory::<T>(capacity as nat),
        ensures
            v.wf(),
            v@ == Seq::<T>::empty(),
            v.capacity() == capacity,
    {
        Vec { items: std::vec::Vec::with_capacity(capacity), cap: capacity }
    }

    /// Makes sure there is room for `additional` more elements, at least
    /// doubling the capacity when it has to grow.
    fn grow_amortized(&mut self, additional: usize)
        requires
            old(self).wf(),
            old(self)@.len() + additional <= usize::MAX,
            old(self)@.len() + additional > old(self).capacity() ==> fits_in_memory::<T>(
                capacity_after_reserve(old(self)@.len(), old(self).capacity(), additional as nat),
            ),
        ensures
            final(self).wf(),
            final(self)@ == old(self)@,
            final(self).capacity() == capacity_after_reserve(
                old(self)@.len(),
                old(self).capacity(),
                additional as nat,
            ),
    {
        let required_capacity = self.items.len() + additional;
        if required_capacity > self.cap {
            let base: usize = if self.cap == 0 { 1 } else { self.cap };
            let doubled: usize = match base.checked_mul(2) {
                Some(d) => d,
                None => usize::MAX,
            };
            let new_capacity: usize = if doubled >= required_capacity {
                doubled
            } else {
                required_capacity
            };
            self.grow(new_capacity);
        }
    }

    /// Moves the elements into storage with room for `new_capacity` elements.
    fn grow(&mut self, new_capacity: usize)
        requires
            old(self).wf(),
            old(self)@.len() <= new_capacity,
            fits_in_memory::<T>(new_capacity as nat),
        ensures
            final(self).wf(),
            final(self)@ == old(self)@,
            final(self).capacity() == new_capacity,
    {
        let additional = new_capacity - self.items.len();
        self.items.reserve(additional);
        self.cap = new_capacity;
    }

    /// Appends `value` at the end.
    pub fn push(&mut self, value: T)
        requires
            old(self).wf(),
            old(self)@.len() < usize::MAX,
            old(self)@.len() == old(self).capacity() ==> fits_in_memory::<T>(
                capacity_after_reserve(old(self)@.len(), old(self).capacity(), 1),
            ),
        ensures
            final(self).wf(),
            final(self)@ == old(self)@.push(value),
            final(self).capacity() == (if old(self)@.len() == old(self).capacity() {
                capacity_after_reserve(old(self)@.len(), old(self).capacity(), 1)
            } else {
                old(self).capacity()
            }),
    {
        let _ = self.push_mut(value);
    }

    /// Appends `value` at the end and hands back a mutable reference to it.
    pub fn push_mut(&mut self, value: T) -> (r: &mut T)
        requires
            old(self).wf(),
            old(self)@.len() < usize::MAX,
            old(self)@.len() == old(self).capacity() ==> fits_in_memory::<T>(
                capacity_after_reserve(old(self)@.len(), old(self).capacity(), 1),
            ),
        ensures
            *r == value,
            final(self).wf(),
            final(self)@ == old(self)@.push(*final(r)),
            final(self).capacity() == (if old(self)@.len() == old(self).capacity() {
                capacity_after_reserve(old(self)@.len(), old(self).capacity(), 1)
            } else {
                old(self).capacity()
            }),
    {
        if self.items.len() == self.cap {
            self.grow_amortized(1);
        }
        let index = self.items.len();
        self.items.push(value);
        &mut self.items[index]
    }

    /// Removes the last element and returns it, or `None` when empty.
    pub fn pop(&mut self) -> (r: Option<T>)
        requires
            old(self).wf(),
        ensures
            final(self).wf(),
            final(self).capacity() == old(self).capacity(),
            old(self)@.len() == 0 ==> r is None && final(self)@ == old(self)@,
            old(self)@.len() > 0 ==> r == Some(old(self)@.last()) && final(self)@
                == old(self)@.drop_last(),
    {
        self.items.pop()
    }

    /// Removes the element at `index`, shifting the later ones left.
    pub fn remove(&mut self, index: usize) -> (r: T)
        requires
            old(self).wf(),
            index < old(self)@.len(),
        ensures
            final(self).wf(),
            final(self).capacity() == old(self).capacity(),
            r == old(self)@[index as int],
            final(self)@ == old(self)@.remove(index as int),
    {
        self.items.remove(index)
    }

    /// Inserts `value` at `index`, shifting the later ones right.
    pub fn insert(&mut self, index: usize, value: T)
        requires
            old(self).wf(),
            index <= old(self)@.len(),
            old(self)@.len() < usize::MAX,
            old(self)@.len() == old(self).capacity() ==> fits_in_memory::<T>(
                capacity_after_reserve(old(self)@.len(), old(self).capacity(), 1),
            ),
        ensures
            final(self).wf(),
            final(self)@ == old(self)@.insert(index as int, value),
            final(self).capacity() == (if old(self)@.len() == old(self).capacity() {
                capacity_after_reserve(old(self)@.len(), old(self).capacity(), 1)
            } else {
                old(self).capacity()
            }),
    {
        if self.items.len() == self.cap {
            self.grow_amortized(1);
        }
        self.items.insert(index, value);
    }
}

impl<T> std::ops::Deref for Vec<T> {
    type Target = [T];

    fn deref(&self) -> (r: &[T])
        ensures
            r@ == self@,
    {
        self.items.as_slice()
    }
}


/// A vector's capacity always covers its elements.
pub proof fn law_len_within_capacity<T>(v: &Vec<T>)
    requires
        v.wf(),
    ensures
        v@.len() <= v.capacity(),
{
}

/// Popping right after a push gives back the pushed value and leaves the
/// vector holding what it held before the push.
pub proof fn law_push_then_pop<T>(
    before: &Vec<T>,
    pushed: &Vec<T>,
    popped: &Vec<T>,
    value: T,
    result: Option<T>,
)
    requires
        before.wf(),
        pushed@ == before@.push(value),
        pushed@.len() > 0 ==> result == Some(pushed@.last()) && popped@ == pushed@.drop_last(),
    ensures
        result == Some(value),
        popped@ == before@,
{
    assert(before@.push(value).drop_last() =~= before@);
}

/// Removing at an index right after inserting there gives back the inserted
/// value and leaves the vector holding what it held before the insertion.
pub proof fn law_insert_then_remove<T>(
    before: &Vec<T>,
    inserted: &Vec<T>,
    removed: &Vec<T>,
    index: int,
    value: T,
    result: T,
)
    requires
        before.wf(),
        0 <= index <= before@.len(),
        inserted@ == before@.insert(index, value),
        result == inserted@[index],
        removed@ == inserted@.remove(index),
    ensures
        result == value,
        removed@ == before@,
{
    assert(before@.insert(index, value).remove(index) =~= before@);
}

/// Making room for `additional` more elements leaves room for them, never
/// shrinks the capacity, and when it grows it at least doubles it, short of
/// `usize::MAX`.
pub proof fn law_growth_is_amortized(len: nat, cap: nat, additional: nat)
    requires
        len <= cap,
        len + additional <= usize::MAX,
    ensures
        capacity_after_reserve(len, cap, additional) >= len + additional,
        capacity_after_reserve(len, cap, additional) >= cap,
        capacity_after_reserve(len, cap, additional) <= usize::MAX || cap > usize::MAX,
        len + additional > cap && 2 * cap <= usize::MAX ==> capacity_after_reserve(
            len,
            cap,
            additional,
        ) >= 2 * cap,
{
}

} // verus!
