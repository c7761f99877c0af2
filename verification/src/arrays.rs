//! Growable arrays behind one interface, which differ in how they make
//! room: one item at a time, by a fixed step, or by a share of what they
//! have.

use vstd::prelude::*;

verus! {

/// What every growable array offers: its items by index, and insertion and
/// removal at any index.
pub trait IArray<T> {
    /// The items from the first to the last.
    spec fn items(&self) -> Seq<T>;

    /// Whether `copy` is what the array may hand out for its item `item`.
    spec fn hands_out(&self, item: T, copy: T) -> bool;

    /// Forgets all items.
    fn reset(&mut self)
        ensures
            final(self).items() == Seq::<T>::empty(),
    ;

    /// The number of items.
    fn size(&self) -> (n: usize)
        ensures
            n == self.items().len(),
    ;

    /// Puts `item` behind the last item.
    fn add(&mut self, item: T)
        ensures
            final(self).items() == old(self).items().push(item),
    ;

    /// A copy of the item at `index`.
    fn get(&self, index: usize) -> (item: T)
        requires
            index < self.items().len(),
        ensures
            self.hands_out(self.items()[index as int], item),
    ;

    /// Puts `item` at `index`, before the item that was there.
    fn add_at(&mut self, item: T, index: usize)
        requires
            index <= old(self).items().len(),
        ensures
            final(self).items() == old(self).items().insert(index as int, item),
    ;

    /// Takes the item at `index` out and returns it.
    fn remove(&mut self, index: usize) -> (item: T)
        requires
            index < old(self).items().len(),
        ensures
            item == old(self).items()[index as int],
            final(self).items() == old(self).items().remove(index as int),
    ;
}

/// The number of items that `v` can hold before it allocates again:
/// `Vec::capacity`. It is never less than the number of items held.
#[verifier::external_body]
pub(crate) fn capacity<E>(v: &Vec<E>) -> (cap: usize)
    ensures
        cap >= v.len(),
{
    v.capacity()
}

/// An array that makes room as its vector sees fit.
pub struct SingleArray<T> {
    array: Vec<T>,
}

impl<T> SingleArray<T> {
    pub fn new() -> (array: Self)
        ensures
            array.spec_items() == Seq::<T>::empty(),
    {
        SingleArray { array: Vec::new() }
    }

    /// The items from the first to the last.
    pub closed spec fn spec_items(&self) -> Seq<T> {
        self.array@
    }
}

impl<T> IArray<T> for SingleArray<T> where T: Clone {
    open spec fn items(&self) -> Seq<T> {
        self.spec_items()
    }

    open spec fn hands_out(&self, item: T, copy: T) -> bool {
        cloned(item, copy)
    }

    fn reset(&mut self) {
        self.array.clear();
    }

    fn size(&self) -> (n: usize) {
        self.array.len()
    }

    fn add(&mut self, item: T) {
        self.array.push(item);
    }

    fn get(&self, index: usize) -> (item: T) {
        self.array[index].clone()
    }

    fn add_at(&mut self, item: T, index: usize) {
        self.array.insert(index, item);
    }

    fn remove(&mut self, index: usize) -> (item: T) {
        self.array.remove(index)
    }
}

/// An array that makes room for a fixed number of items whenever it is
/// full.
pub struct VectorArray<T> {
    array: Vec<T>,
    vector: usize,
}

impl<T> VectorArray<T> {
    /// An empty array that grows by `vector` items at a time.
    pub fn new(vector: usize) -> (array: Self)
        ensures
            array.spec_items() == Seq::<T>::empty(),
            array.step() == vector,
    {
        VectorArray { array: Vec::new(), vector }
    }

    /// The items from the first to the last.
    pub closed spec fn spec_items(&self) -> Seq<T> {
        self.array@
    }

    /// The number of items by which the array grows.
    pub closed spec fn step(&self) -> usize {
        self.vector
    }

    /// The item at `index`, to be changed in place.
    pub fn get_mut(&mut self, index: usize) -> (item: &mut T)
        requires
            index < old(self).spec_items().len(),
        ensures
            *item == old(self).spec_items()[index as int],
            final(self).spec_items() == old(self).spec_items().update(index as int, *final(item)),
            final(self).step() == old(self).step(),
    {
        &mut self.array[index]
    }
}

impl<T> IArray<T> for VectorArray<T> where T: Clone {
    open spec fn items(&self) -> Seq<T> {
        self.spec_items()
    }

    open spec fn hands_out(&self, item: T, copy: T) -> bool {
        cloned(item, copy)
    }

    fn reset(&mut self) {
        self.array.clear();
    }

    fn size(&self) -> (n: usize) {
        self.array.len()
    }

    fn add(&mut self, item: T) {
        let at = self.size();
        self.add_at(item, at);
    }

    fn get(&self, index: usize) -> (item: T) {
        self.array[index].clone()
    }

    fn add_at(&mut self, item: T, index: usize) {
        let cap = capacity(&self.array);
        if self.size() == cap {
            let new_capacity = cap.wrapping_add(self.vector);
            self.array.reserve(new_capacity.wrapping_sub(cap));
        }
        self.array.insert(index, item);
    }

    fn remove(&mut self, index: usize) -> (item: T) {
        self.array.remove(index)
    }
}

/// An array that makes room for a share of what it holds whenever it is
/// full: `factor` items for every hundred.
pub struct FactorArray<T> {
    array: Vec<T>,
    factor: usize,
    init_length: usize,
}

impl<T> FactorArray<T> {
    /// An empty array with room for `init_length` items that grows by
    /// `factor` percent.
    pub fn new(factor: usize, init_length: usize) -> (array: Self)
        ensures
            array.spec_items() == Seq::<T>::empty(),
    {
        FactorArray { array: Vec::with_capacity(init_length), factor, init_length }
    }

    /// The items from the first to the last.
    pub closed spec fn spec_items(&self) -> Seq<T> {
        self.array@
    }
}

impl<T> IArray<T> for FactorArray<T> where T: Clone {
    open spec fn items(&self) -> Seq<T> {
        self.spec_items()
    }

    open spec fn hands_out(&self, item: T, copy: T) -> bool {
        cloned(item, copy)
    }

    fn reset(&mut self) {
        self.array.clear();
        self.array.reserve(self.init_length);
    }

    fn size(&self) -> (n: usize) {
        self.array.len()
    }

    fn add(&mut self, item: T) {
        let at = self.size();
        self.add_at(item, at);
    }

    fn get(&self, index: usize) -> (item: T) {
        self.array[index].clone()
    }

    fn add_at(&mut self, item: T, index: usize) {
        let cap = capacity(&self.array);
        if self.size() == cap {
            let new_capacity = cap.wrapping_add(cap.wrapping_mul(self.factor) / 100);
            self.array.reserve(new_capacity.wrapping_sub(cap));
        }
        self.array.insert(index, item);
    }

    fn remove(&mut self, index: usize) -> (item: T) {
        self.array.remove(index)
    }
}

} // verus!
