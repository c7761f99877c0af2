//! Arrays that take an item at any index and differ in how they make
//! room, a list, and a queue that hands out by priority.

use crate::arrays::capacity;
use vstd::prelude::*;

verus! {

/// What every array of this kind offers: its items by index, and
/// insertion and removal at any index.
pub trait DynamicArray<T> {
    /// The items from the first to the last.
    spec fn items(&self) -> Seq<T>;

    /// Puts `item` at `index`, before the item that was there.
    fn add(&mut self, item: T, index: usize)
        requires
            index <= old(self).items().len(),
        ensures
            final(self).items() == old(self).items().insert(index as int, item),
    ;

    /// Takes the item at `index` out and returns it; nothing where the
    /// array has no such index.
    fn remove(&mut self, index: usize) -> (item: Option<T>)
        ensures
            index < old(self).items().len() ==> item == Some(old(self).items()[index as int])
                && final(self).items() == old(self).items().remove(index as int),
            index >= old(self).items().len() ==> item.is_none() && final(self).items() == old(
                self,
            ).items(),
    ;

    /// The number of items.
    fn size(&self) -> (n: usize)
        ensures
            n == self.items().len(),
    ;

    /// The item at `index`.
    fn get(&self, index: usize) -> (item: &T)
        requires
            index < self.items().len(),
        ensures
            *item == self.items()[index as int],
    ;

    /// Forgets all items, taking them out from the front one by one.
    fn reset(&mut self)
        ensures
            final(self).items() == Seq::<T>::empty(),
    ;
}

/// An array that makes room for one item more whenever it is full.
pub struct SingleArray<T> {
    array: Vec<T>,
}

impl<T> SingleArray<T> {
    pub fn new() -> (array: Self)
        ensures
            array.items() == Seq::<T>::empty(),
    {
        SingleArray { array: Vec::new() }
    }

    pub fn with_default() -> (array: Self)
        ensures
            array.items() == Seq::<T>::empty(),
    {
        Self::new()
    }

    /// The items from the first to the last.
    pub closed spec fn spec_items(&self) -> Seq<T> {
        self.array@
    }

    /// Makes room for one item more.
    fn resize(&mut self)
        ensures
            final(self).array@ == old(self).array@,
    {
        self.array.reserve(1);
    }
}

impl<T> DynamicArray<T> for SingleArray<T> {
    open spec fn items(&self) -> Seq<T> {
        self.spec_items()
    }

    fn add(&mut self, item: T, index: usize) {
        self.resize();
        self.array.insert(index, item);
    }

    fn remove(&mut self, index: usize) -> (item: Option<T>) {
        if index >= self.array.len() {
            return None;
        }
        Some(self.array.remove(index))
    }

    fn size(&self) -> (n: usize) {
        self.array.len()
    }

    fn get(&self, index: usize) -> (item: &T) {
        &self.array[index]
    }

    fn reset(&mut self) {
        while self.array.len() > 0
            invariant
                true,
            decreases self.array.len(),
        {
            self.array.remove(0);
        }
    }
}

/// An array that makes room for a fixed number of items whenever it is
/// full.
pub struct VectorArray<T> {
    array: Vec<T>,
    vector: usize,
}

impl<T> VectorArray<T> {
    /// An empty array that grows by ten items at a time.
    pub fn with_default() -> (array: Self)
        ensures
            array.items() == Seq::<T>::empty(),
            array.step() == 10,
    {
        Self::new(10)
    }

    /// An empty array that grows by `vector` items at a time.
    pub fn new(vector: usize) -> (array: Self)
        ensures
            array.items() == Seq::<T>::empty(),
            array.step() == vector,
    {
        VectorArray { array: Vec::new(), vector }
    }

    /// The items from the first to the last.
    pub closed spec fn spec_items(&self) -> Seq<T> {
        self.array@
    }

    /// The number of items by which the array grows.
    pub closed spec fn step(&self) -> usize {
        self.vector
    }

    /// Makes room for `vector` items more.
    fn resize(&mut self)
        ensures
            final(self).array@ == old(self).array@,
            final(self).vector == old(self).vector,
    {
        let cap = capacity(&self.array);
        let new_capacity = cap.wrapping_add(self.vector);
        self.array.reserve(new_capacity.wrapping_sub(self.array.len()));
    }
}

impl<T> DynamicArray<T> for VectorArray<T> {
    open spec fn items(&self) -> Seq<T> {
        self.spec_items()
    }

    fn add(&mut self, item: T, index: usize)
        ensures
            final(self).step() == old(self).step(),
    {
        if self.array.len() == capacity(&self.array) {
            self.resize();
        }
        self.array.insert(index, item);
    }

    fn remove(&mut self, index: usize) -> (item: Option<T>)
        ensures
            final(self).step() == old(self).step(),
    {
        if index >= self.array.len() {
            return None;
        }
        Some(self.array.remove(index))
    }

    fn size(&self) -> (n: usize) {
        self.array.len()
    }

    fn get(&self, index: usize) -> (item: &T) {
        &self.array[index]
    }

    fn reset(&mut self)
        ensures
            final(self).step() == old(self).step(),
    {
        while self.array.len() > 0
            invariant
                self.vector == old(self).vector,
            decreases self.array.len(),
        {
            self.array.remove(0);
        }
    }
}

/// An array that makes room for a share of what it holds whenever it is
/// full: `factor` items for every hundred.
pub struct FactorArray<T> {
    array: Vec<T>,
    factor: usize,
}

impl<T> FactorArray<T> {
    /// An empty array with room for `init_length` items that grows by
    /// `factor` percent.
    pub fn new(factor: usize, init_length: usize) -> (array: Self)
        ensures
            array.items() == Seq::<T>::empty(),
    {
        FactorArray { array: Vec::with_capacity(init_length), factor }
    }

    /// An empty array with room for ten items that grows by half.
    pub fn with_default() -> (array: Self)
        ensures
            array.items() == Seq::<T>::empty(),
    {
        Self::new(50, 10)
    }

    /// The items from the first to the last.
    pub closed spec fn spec_items(&self) -> Seq<T> {
        self.array@
    }

    /// Makes room for `factor` percent more.
    fn resize(&mut self)
        ensures
            final(self).array@ == old(self).array@,
            final(self).factor == old(self).factor,
    {
        let cap = capacity(&self.array);
        let new_capacity = cap.wrapping_add(cap.wrapping_mul(self.factor) / 100);
        self.array.reserve(new_capacity.wrapping_sub(self.array.len()));
    }
}

impl<T> DynamicArray<T> for FactorArray<T> {
    open spec fn items(&self) -> Seq<T> {
        self.spec_items()
    }

    fn add(&mut self, item: T, index: usize) {
        if self.array.len() == capacity(&self.array) {
            self.resize();
        }
        self.array.insert(index, item);
    }

    fn remove(&mut self, index: usize) -> (item: Option<T>) {
        if index >= self.array.len() {
            return None;
        }
        Some(self.array.remove(index))
    }

    fn size(&self) -> (n: usize) {
        self.array.len()
    }

    fn get(&self, index: usize) -> (item: &T) {
        &self.array[index]
    }

    fn reset(&mut self) {
        while self.array.len() > 0
            invariant
                true,
            decreases self.array.len(),
        {
            self.array.remove(0);
        }
    }
}

/// An array that makes room for as much again whenever it is full.
pub struct ArrayList<T> {
    array: Vec<T>,
}

impl<T> ArrayList<T> {
    /// An empty array with room for ten items.
    pub fn with_default() -> (array: Self)
        ensures
            array.items() == Seq::<T>::empty(),
    {
        Self::new(10)
    }

    /// An empty array with room for `capacity` items.
    pub fn new(capacity: usize) -> (array: Self)
        ensures
            array.items() == Seq::<T>::empty(),
    {
        ArrayList { array: Vec::with_capacity(capacity) }
    }

    /// The items from the first to the last.
    pub closed spec fn spec_items(&self) -> Seq<T> {
        self.array@
    }

    /// Makes room for as much again.
    fn resize(&mut self)
        ensures
            final(self).array@ == old(self).array@,
    {
        let cap = capacity(&self.array);
        let new_capacity = cap.wrapping_mul(2);
        self.array.reserve(new_capacity.wrapping_sub(self.array.len()));
    }
}

impl<T> DynamicArray<T> for ArrayList<T> {
    open spec fn items(&self) -> Seq<T> {
        self.spec_items()
    }

    fn add(&mut self, item: T, index: usize) {
        if self.array.len() == capacity(&self.array) {
            self.resize();
        }
        self.array.insert(index, item);
    }

    fn remove(&mut self, index: usize) -> (item: Option<T>) {
        if index >= self.array.len() {
            return None;
        }
        Some(self.array.remove(index))
    }

    fn size(&self) -> (n: usize) {
        self.array.len()
    }

    fn get(&self, index: usize) -> (item: &T) {
        &self.array[index]
    }

    fn reset(&mut self) {
        while self.array.len() > 0
            invariant
                true,
            decreases self.array.len(),
        {
            self.array.remove(0);
        }
    }
}

/// An array that starts without room and makes room for one item, then
/// for as much again whenever it is full.
pub struct SpaceArray<T> {
    array: Vec<T>,
}

impl<T> SpaceArray<T> {
    pub fn new() -> (array: Self)
        ensures
            array.items() == Seq::<T>::empty(),
    {
        SpaceArray { array: Vec::new() }
    }

    /// The items from the first to the last.
    pub closed spec fn spec_items(&self) -> Seq<T> {
        self.array@
    }

    /// Makes room for one item where there is none, else for as much
    /// again.
    fn resize(&mut self)
        ensures
            final(self).array@ == old(self).array@,
    {
        let cap = capacity(&self.array);
        let new_capacity = if cap == 0 {
            1
        } else {
            cap.wrapping_mul(2)
        };
        self.array.reserve(new_capacity.wrapping_sub(self.array.len()));
    }
}

impl<T> DynamicArray<T> for SpaceArray<T> {
    open spec fn items(&self) -> Seq<T> {
        self.spec_items()
    }

    fn add(&mut self, item: T, index: usize) {
        if self.array.len() == capacity(&self.array) {
            self.resize();
        }
        self.array.insert(index, item);
    }

    fn remove(&mut self, index: usize) -> (item: Option<T>) {
        if index >= self.array.len() {
            return None;
        }
        Some(self.array.remove(index))
    }

    fn size(&self) -> (n: usize) {
        self.array.len()
    }

    fn get(&self, index: usize) -> (item: &T) {
        &self.array[index]
    }

    fn reset(&mut self) {
        while self.array.len() > 0
            invariant
                true,
            decreases self.array.len(),
        {
            self.array.remove(0);
        }
    }
}

/// A list of items that takes and gives at any place. It holds its items
/// in a vector.
pub struct DoubleLinkedList<T> {
    items: Vec<T>,
}

impl<T> View for DoubleLinkedList<T> {
    type V = Seq<T>;

    /// The items from the first to the last.
    closed spec fn view(&self) -> Seq<T> {
        self.items@
    }
}

impl<T> DoubleLinkedList<T> {
    pub fn new() -> (list: Self)
        ensures
            list@ == Seq::<T>::empty(),
    {
        DoubleLinkedList { items: Vec::new() }
    }

    /// The number of items.
    pub fn size(&self) -> (n: usize)
        ensures
            n == self@.len(),
    {
        self.items.len()
    }

    /// Puts `item` behind the last item.
    pub fn add(&mut self, item: T)
        ensures
            final(self)@ == old(self)@.push(item),
    {
        let at = self.items.len();
        self.add_at(item, at);
        proof {
            assert(old(self)@.insert(old(self)@.len() as int, item) =~= old(self)@.push(item));
        }
    }

    /// Puts `item` at `index`, before the item that was there.
    pub fn add_at(&mut self, item: T, index: usize)
        requires
            index <= old(self)@.len(),
        ensures
            final(self)@ == old(self)@.insert(index as int, item),
    {
        self.items.insert(index, item);
    }

    /// Takes the item at `index` out and returns it.
    pub fn remove(&mut self, index: usize) -> (item: T)
        requires
            index < old(self)@.len(),
        ensures
            item == old(self)@[index as int],
            final(self)@ == old(self)@.remove(index as int),
    {
        self.items.remove(index)
    }
}

/// The items of one priority in a queue, in the order in which they came.
pub struct PriorityRec<T> {
    priority: i32,
    recs: DoubleLinkedList<T>,
}

/// A queue that hands out the items of the highest priority first, and
/// among those the one that came first.
pub struct PriorityQueue<T> {
    data: Vec<PriorityRec<T>>,
}

/// The index of the first of the records whose priority is not above
/// `priority`; their number where every priority is above it.
pub open spec fn place<T>(records: Seq<(i32, Seq<T>)>, priority: i32) -> int
    decreases records.len(),
{
    if records.len() == 0 {
        0
    } else if records[0].0 > priority {
        1 + place(records.skip(1), priority)
    } else {
        0
    }
}

/// The place of a priority lies among the records or behind them; every
/// record before it has a priority above, and the record at it has not.
pub proof fn lemma_place<T>(records: Seq<(i32, Seq<T>)>, priority: i32)
    ensures
        0 <= place(records, priority) <= records.len(),
        forall|i: int| 0 <= i < place(records, priority) ==> (#[trigger] records[i]).0 > priority,
        place(records, priority) < records.len() ==> records[place(records, priority)].0
            <= priority,
    decreases records.len(),
{
    if records.len() > 0 && records[0].0 > priority {
        let rest = records.skip(1);
        lemma_place(rest, priority);
        assert forall|i: int| 0 <= i < place(records, priority) implies (#[trigger] records[i]).0
            > priority by {
            if i > 0 {
                assert(rest[i - 1] == records[i]);
            }
        }
        if place(records, priority) < records.len() {
            assert(rest[place(rest, priority)] == records[place(records, priority)]);
        }
    }
}

/// Where every record before an index has a priority above `priority`
/// and the one at it, if any, has not, the index is the place of
/// `priority`.
pub proof fn lemma_place_is<T>(records: Seq<(i32, Seq<T>)>, priority: i32, at: int)
    requires
        0 <= at <= records.len(),
        forall|i: int| 0 <= i < at ==> (#[trigger] records[i]).0 > priority,
        at < records.len() ==> records[at].0 <= priority,
    ensures
        place(records, priority) == at,
{
    lemma_place(records, priority);
    let p = place(records, priority);
    if p < at {
        assert(records[p].0 > priority);
    } else if p > at {
        assert(records[at].0 > priority);
    }
}

/// The records of a queue after an item of a priority has come: behind
/// the items of its priority where there are any, else as a record of its
/// own at the place of its priority.
pub open spec fn enqueued<T>(records: Seq<(i32, Seq<T>)>, priority: i32, item: T) -> Seq<
    (i32, Seq<T>),
> {
    let at = place(records, priority);
    if at < records.len() && records[at].0 == priority {
        records.update(at, (priority, records[at].1.push(item)))
    } else {
        records.insert(at, (priority, seq![item]))
    }
}

/// The records of a queue after its first item has left.
pub open spec fn dequeued<T>(records: Seq<(i32, Seq<T>)>) -> Seq<(i32, Seq<T>)> {
    if records.len() == 0 {
        records
    } else if records[0].1.len() <= 1 {
        records.skip(1)
    } else {
        records.update(0, (records[0].0, records[0].1.skip(1)))
    }
}

/// Whether the records are those of a queue: the priorities fall from
/// each record to the next, and no record is without items.
pub open spec fn queued<T>(records: Seq<(i32, Seq<T>)>) -> bool {
    &&& forall|i: int, j: int|
        0 <= i < j < records.len() ==> (#[trigger] records[i]).0 > (#[trigger] records[j]).0
    &&& forall|i: int| 0 <= i < records.len() ==> (#[trigger] records[i]).1.len() > 0
}

/// A queue stays a queue when an item comes and when one leaves.
pub proof fn lemma_queue_stays<T>(records: Seq<(i32, Seq<T>)>, priority: i32, item: T)
    requires
        queued(records),
    ensures
        queued(enqueued(records, priority, item)),
        queued(dequeued(records)),
{
    lemma_place(records, priority);
    let at = place(records, priority);
    let after = enqueued(records, priority, item);
    assert forall|i: int, j: int| 0 <= i < j < after.len() implies (#[trigger] after[i]).0 > (
    #[trigger] after[j]).0 by {
        if at < records.len() && records[at].0 == priority {
            assert(after[i].0 == records[i].0 && after[j].0 == records[j].0);
        } else {
            let a = if i < at {
                i
            } else {
                i - 1
            };
            let b = if j < at {
                j
            } else {
                j - 1
            };
            if i != at && j != at {
                assert(after[i] == records[a] && after[j] == records[b]);
            } else if i == at {
                assert(after[j] == records[b]);
                if b > at {
                    assert(records[at].0 > records[b].0);
                }
            } else {
                assert(after[i] == records[a]);
            }
        }
    }
    assert forall|i: int| 0 <= i < after.len() implies (#[trigger] after[i]).1.len() > 0 by {
        if at < records.len() && records[at].0 == priority {
            if i != at {
                assert(after[i] == records[i]);
            }
        } else if i < at {
            assert(after[i] == records[i]);
        } else if i > at {
            assert(after[i] == records[i - 1]);
        }
    }
    let left = dequeued(records);
    if records.len() > 0 {
        if records[0].1.len() <= 1 {
            assert forall|i: int, j: int| 0 <= i < j < left.len() implies (#[trigger] left[i]).0
                > (#[trigger] left[j]).0 by {
                assert(left[i] == records[i + 1] && left[j] == records[j + 1]);
            }
            assert forall|i: int| 0 <= i < left.len() implies (#[trigger] left[i]).1.len() > 0 by {
                assert(left[i] == records[i + 1]);
            }
        } else {
            assert forall|i: int, j: int| 0 <= i < j < left.len() implies (#[trigger] left[i]).0
                > (#[trigger] left[j]).0 by {
                assert(left[i].0 == records[i].0 && left[j].0 == records[j].0);
            }
            assert forall|i: int| 0 <= i < left.len() implies (#[trigger] left[i]).1.len() > 0 by {
                if i > 0 {
                    assert(left[i] == records[i]);
                }
            }
        }
    }
}

impl<T> View for PriorityQueue<T> {
    type V = Seq<(i32, Seq<T>)>;

    /// The records of the queue: for every priority that has items, from
    /// the highest down, the priority and its items in the order in which
    /// they came.
    closed spec fn view(&self) -> Seq<(i32, Seq<T>)> {
        Seq::new(self.data@.len(), |i: int| (self.data@[i].priority, self.data@[i].recs@))
    }
}

impl<T> PriorityQueue<T> {
    /// What every operation keeps: the priorities fall from each record
    /// to the next, and no record is without items.
    pub open spec fn wf(&self) -> bool {
        queued(self@)
    }

    /// A queue without items.
    pub fn new() -> (queue: Self)
        ensures
            queue@ == Seq::<(i32, Seq<T>)>::empty(),
            queue.wf(),
    {
        let queue = PriorityQueue { data: Vec::new() };
        assert(queue@ =~= Seq::<(i32, Seq<T>)>::empty());
        queue
    }

    /// Takes in `item` with the priority `priority`: behind the items of
    /// that priority where there are any, else as the first of its
    /// priority, before all items of lower priority.
    pub fn enqueue(&mut self, priority: i32, item: T)
        ensures
            final(self)@ == enqueued(old(self)@, priority, item),
            old(self).wf() ==> final(self).wf(),
    {
        let ghost records = self@;
        proof {
            if queued(records) {
                lemma_queue_stays(records, priority, item);
            }
        }
        let mut i: usize = 0;
        while i < self.data.len()
            invariant
                i <= self.data.len(),
                *self == *old(self),
                records == self@,
                forall|k: int| 0 <= k < i ==> (#[trigger] records[k]).0 > priority,
            decreases self.data.len() - i,
        {
            if self.data[i].priority == priority {
                proof {
                    lemma_place_is(records, priority, i as int);
                }
                self.data[i].recs.add(item);
                proof {
                    assert(self@ =~= enqueued(records, priority, item));
                }
                return;
            }
            if self.data[i].priority < priority {
                proof {
                    lemma_place_is(records, priority, i as int);
                }
                let mut new_rec = PriorityRec { priority, recs: DoubleLinkedList::new() };
                new_rec.recs.add(item);
                self.data.insert(i, new_rec);
                proof {
                    assert(new_rec.recs@ =~= seq![item]);
                    assert(self@ =~= enqueued(records, priority, item));
                }
                return;
            }
            i += 1;
        }
        proof {
            lemma_place_is(records, priority, i as int);
        }
        let mut new_rec = PriorityRec { priority, recs: DoubleLinkedList::new() };
        new_rec.recs.add(item);
        self.data.push(new_rec);
        proof {
            assert(new_rec.recs@ =~= seq![item]);
            assert(records.insert(records.len() as int, (priority, seq![item])) =~= records.push(
                (priority, seq![item]),
            ));
            assert(self@ =~= enqueued(records, priority, item));
        }
    }

    /// Hands out the item that is next: of the items of the highest
    /// priority the one that came first. Nothing where the queue is
    /// empty.
    pub fn dequeue(&mut self) -> (item: Option<T>)
        requires
            old(self).wf(),
        ensures
            final(self).wf(),
            final(self)@ == dequeued(old(self)@),
            old(self)@.len() == 0 ==> item.is_none(),
            old(self)@.len() > 0 ==> item == Some(old(self)@[0].1[0]),
    {
        let ghost records = self@;
        proof {
            if records.len() > 0 {
                lemma_queue_stays(records, records[0].0, records[0].1[0]);
            }
        }
        if self.data.len() == 0 {
            None
        } else {
            proof {
                assert(records[0].1.len() > 0);
            }
            let item = self.data[0].recs.remove(0);
            proof {
                assert(records[0].1.remove(0) =~= records[0].1.skip(1));
            }
            if self.data[0].recs.size() == 0 {
                self.data.remove(0);
            }
            proof {
                assert(self@ =~= dequeued(records));
            }
            Some(item)
        }
    }
}

/// The blocks with empty blocks behind them, as many as it takes for the
/// index `block` to be that of a block.
pub open spec fn padded<T>(blocks: Seq<Seq<T>>, block: int) -> Seq<Seq<T>> {
    if block < blocks.len() {
        blocks
    } else {
        blocks + Seq::new((block + 1 - blocks.len()) as nat, |i: int| Seq::<T>::empty())
    }
}

/// The blocks after `item` was put in for the index `index`, where a
/// block is meant to hold `vector` items: into the block `index /
/// vector`, which is made if it is not there, at the place `index %
/// vector`, or at the front where the block is shorter than that.
pub open spec fn put_in<T>(blocks: Seq<Seq<T>>, vector: int, index: int, item: T) -> Seq<Seq<T>> {
    let block = index / vector;
    let position = index % vector;
    let room = padded(blocks, block);
    let at = if room[block].len() < position {
        0
    } else {
        position
    };
    room.update(block, room[block].insert(at, item))
}

/// An array in blocks, each meant for the same number of items. An item
/// goes into the block that its index names; a block takes it whether or
/// not it is full.
pub struct MatrixArray<T> {
    size: usize,
    vector: usize,
    array: Vec<Vec<T>>,
}

impl<T> MatrixArray<T> {
    /// The blocks, each with its items.
    pub closed spec fn blocks(&self) -> Seq<Seq<T>> {
        Seq::new(self.array@.len(), |i: int| self.array@[i]@)
    }

    /// The number of items that a block is meant for.
    pub closed spec fn step(&self) -> usize {
        self.vector
    }

    /// The number of items that the array counts.
    pub closed spec fn count(&self) -> usize {
        self.size
    }

    /// An empty array with blocks for `vector` items.
    pub fn new(vector: usize) -> (array: Self)
        ensures
            array.blocks() == Seq::<Seq<T>>::empty(),
            array.step() == vector,
            array.count() == 0,
    {
        let array = MatrixArray { size: 0, vector, array: Vec::new() };
        assert(array.blocks() =~= Seq::<Seq<T>>::empty());
        array
    }

    /// An empty array with blocks for ten items.
    pub fn with_default() -> (array: Self)
        ensures
            array.blocks() == Seq::<Seq<T>>::empty(),
            array.step() == 10,
            array.count() == 0,
    {
        Self::new(10)
    }

    /// The number of items that the array counts.
    pub fn size(&self) -> (n: usize)
        ensures
            n == self.count(),
    {
        self.size
    }

    /// Puts `item` in for the index `index`: into the block `index /
    /// vector`, which is made if it is not there, at the place `index %
    /// vector`, or at the front where the block is shorter than that.
    pub fn add(&mut self, item: T, index: usize)
        requires
            old(self).step() > 0,
            index <= old(self).count(),
            old(self).count() < usize::MAX,
        ensures
            final(self).blocks() == put_in(
                old(self).blocks(),
                old(self).step() as int,
                index as int,
                item,
            ),
            final(self).count() == old(self).count() + 1,
            final(self).step() == old(self).step(),
    {
        let block_index = index / self.vector;
        let position = index % self.vector;
        let ghost before = self.blocks();
        while block_index >= self.array.len()
            invariant
                self.size == old(self).size,
                self.vector == old(self).vector,
                before.len() <= self.array.len() <= block_index + 1 || self.array.len()
                    == before.len(),
                forall|i: int| 0 <= i < before.len() ==> self.array@[i]@ == #[trigger] before[i],
                forall|i: int|
                    before.len() <= i < self.array.len() ==> (#[trigger] self.array@[i])@
                        == Seq::<T>::empty(),
            decreases block_index + 1 - self.array.len(),
        {
            self.array.push(Vec::new());
        }
        proof {
            assert(self.blocks() =~= padded(before, block_index as int));
        }
        let ghost room = self.blocks();
        if self.array[block_index].len() < position {
            self.array[block_index].insert(0, item);
        } else {
            self.array[block_index].insert(position, item);
        }
        self.size += 1;
        proof {
            assert(self.blocks() =~= put_in(before, old(self).vector as int, index as int, item));
        }
    }

    /// The item for the index `index`: the one at the place `index %
    /// vector` of the block `index / vector`, which must be there.
    pub fn get(&self, index: usize) -> (item: &T)
        requires
            self.step() > 0,
            index < self.count(),
            index / self.step() < self.blocks().len(),
            index % self.step() < self.blocks()[(index / self.step()) as int].len(),
        ensures
            *item == self.blocks()[(index / self.step()) as int][(index % self.step()) as int],
    {
        let block_index = index / self.vector;
        let position = index % self.vector;
        &self.array[block_index][position]
    }

    /// The item for the index `index`, to be changed in place.
    pub fn get_mut(&mut self, index: usize) -> (item: &mut T)
        requires
            old(self).step() > 0,
            index < old(self).count(),
            index / old(self).step() < old(self).blocks().len(),
            index % old(self).step() < old(self).blocks()[(index / old(self).step()) as int].len(),
        ensures
            *item == old(self).blocks()[(index / old(self).step()) as int][(index % old(
                self,
            ).step()) as int],
            final(self).blocks() =~= old(self).blocks().update(
                (index / old(self).step()) as int,
                old(self).blocks()[(index / old(self).step()) as int].update(
                    (index % old(self).step()) as int,
                    *final(item),
                ),
            ),
            final(self).count() == old(self).count(),
            final(self).step() == old(self).step(),
    {
        let block_index = index / self.vector;
        let position = index % self.vector;
        &mut self.array[block_index][position]
    }

    /// Forgets all items, taking the blocks out from the front one by
    /// one.
    pub fn reset(&mut self)
        ensures
            final(self).blocks() == Seq::<Seq<T>>::empty(),
            final(self).count() == 0,
            final(self).step() == old(self).step(),
    {
        while self.array.len() > 0
            invariant
                self.vector == old(self).vector,
            decreases self.array.len(),
        {
            self.array.remove(0);
        }
        self.size = 0;
        proof {
            assert(self.blocks() =~= Seq::<Seq<T>>::empty());
        }
    }

    /// Takes out the item for the index `index` and returns it; nothing
    /// where the array counts no such index or has no block for it. The
    /// blocks behind give their first items forward, as `taken_out`
    /// says.
    pub fn remove(&mut self, index: usize) -> (item: Option<T>)
        requires
            old(self).step() > 0,
        ensures
            final(self).step() == old(self).step(),
            index >= old(self).count() || taken_from(
                old(self).blocks(),
                old(self).step() as int,
                index as int,
            ) < 0 ==> {
                &&& item.is_none()
                &&& final(self).blocks() == old(self).blocks()
                &&& final(self).count() == old(self).count()
            },
            index < old(self).count() && taken_from(
                old(self).blocks(),
                old(self).step() as int,
                index as int,
            ) >= 0 ==> {
                let from = taken_from(old(self).blocks(), old(self).step() as int, index as int);
                let position = index as int % old(self).step() as int;
                &&& item == if position < old(self).blocks()[from].len() {
                    Some(old(self).blocks()[from][position])
                } else {
                    None
                }
                &&& final(self).blocks() == taken_out(
                    old(self).blocks(),
                    old(self).step() as int,
                    index as int,
                )
                &&& final(self).count() == old(self).count() - 1
            },
    {
        let ghost before = self.blocks();
        if index >= self.size {
            return None;
        }
        let mut block_index = index / self.vector;
        let position = index % self.vector;
        if block_index >= self.array.len() {
            return None;
        }
        let block_size = self.array[block_index].len();
        if position >= block_size {
            if block_index == 0 {
                return None;
            }
            block_index -= 1;
        }
        let removed_item = if position < self.array[block_index].len() {
            Some(self.array[block_index].remove(position))
        } else {
            None
        };
        self.size -= 1;
        let ghost less = self.blocks();
        proof {
            assert(less =~= if position < before[block_index as int].len() {
                before.update(block_index as int, before[block_index as int].remove(position as int))
            } else {
                before
            });
        }
        let mut i = block_index + 1;
        while i < self.array.len() && self.array[i].len() > 0
            invariant
                1 <= i,
                self.vector == old(self).vector,
                self.size == old(self).size - 1,
                pulled(self.blocks(), i as int) == pulled(less, block_index + 1),
            decreases self.array.len() - i,
        {
            let ghost now = self.blocks();
            let item = self.array[i].remove(0);
            self.array[i - 1].push(item);
            proof {
                assert(self.blocks() =~= now.update(i - 1, now[i - 1].push(now[i as int][0])).update(
                    i as int,
                    now[i as int].skip(1),
                )) by {
                    assert(now[i as int].remove(0) =~= now[i as int].skip(1));
                }
            }
            i += 1;
        }
        let ghost moved = self.blocks();
        if self.array.len() > 0 && self.array[self.array.len() - 1].len() == 0 {
            self.array.remove(self.array.len() - 1);
        }
        proof {
            assert(moved == pulled(less, block_index + 1));
            assert(self.blocks() =~= trimmed(moved));
        }
        removed_item
    }
}

/// The block from which the item for the index `index` is taken: the
/// block `index / vector` where it reaches to the place `index % vector`,
/// else the block before it; -1 where there is no such block.
pub open spec fn taken_from<T>(blocks: Seq<Seq<T>>, vector: int, index: int) -> int {
    let block = index / vector;
    let position = index % vector;
    if block >= blocks.len() {
        -1
    } else if position < blocks[block].len() {
        block
    } else {
        block - 1
    }
}

/// The blocks after every block from the index `from` on, up to the
/// first that is empty, has given its first item to the end of the block
/// before it.
pub open spec fn pulled<T>(blocks: Seq<Seq<T>>, from: int) -> Seq<Seq<T>>
    decreases blocks.len() - from,
{
    if from <= 0 || from >= blocks.len() || blocks[from].len() == 0 {
        blocks
    } else {
        pulled(
            blocks.update(from - 1, blocks[from - 1].push(blocks[from][0])).update(
                from,
                blocks[from].skip(1),
            ),
            from + 1,
        )
    }
}

/// The blocks without the last of them, where that is empty.
pub open spec fn trimmed<T>(blocks: Seq<Seq<T>>) -> Seq<Seq<T>> {
    if blocks.len() > 0 && blocks.last().len() == 0 {
        blocks.drop_last()
    } else {
        blocks
    }
}

/// The blocks after the item for the index `index` was taken out: the
/// block from which it is taken loses the item at the place `index %
/// vector`, if it reaches so far; the blocks behind it give their first
/// items forward, and a last block that is left empty goes.
pub open spec fn taken_out<T>(blocks: Seq<Seq<T>>, vector: int, index: int) -> Seq<Seq<T>> {
    let from = taken_from(blocks, vector, index);
    let position = index % vector;
    if from < 0 {
        blocks
    } else {
        let less = if position < blocks[from].len() {
            blocks.update(from, blocks[from].remove(position))
        } else {
            blocks
        };
        trimmed(pulled(less, from + 1))
    }
}

} // verus!