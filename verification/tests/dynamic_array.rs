use treapkit::dynamic_array::{
    ArrayList, DoubleLinkedList, DynamicArray, FactorArray, MatrixArray, PriorityQueue,
    SingleArray, SpaceArray, VectorArray,
};

fn exercise<A: DynamicArray<i32>>(array: &mut A) {
    assert_eq!(array.size(), 0);
    for i in 0..25 {
        array.add(i, i as usize);
    }
    assert_eq!(array.size(), 25);
    array.add(100, 0);
    array.add(200, 13);
    assert_eq!(*array.get(0), 100);
    assert_eq!(*array.get(1), 0);
    assert_eq!(*array.get(13), 200);
    assert_eq!(*array.get(14), 12);
    assert_eq!(*array.get(26), 24);
    assert_eq!(array.remove(13), Some(200));
    assert_eq!(array.remove(0), Some(100));
    assert_eq!(array.remove(25), None);
    assert_eq!(array.remove(24), Some(24));
    assert_eq!(array.size(), 24);
    for i in 0..24 {
        assert_eq!(*array.get(i), i as i32);
    }
    array.reset();
    assert_eq!(array.size(), 0);
    assert_eq!(array.remove(0), None);
}

#[test]
fn single_array_takes_and_gives_at_any_index() {
    exercise(&mut SingleArray::new());
    exercise(&mut SingleArray::with_default());
}

#[test]
fn vector_array_takes_and_gives_at_any_index() {
    exercise(&mut VectorArray::new(3));
    exercise(&mut VectorArray::with_default());
}

#[test]
fn factor_array_takes_and_gives_at_any_index() {
    exercise(&mut FactorArray::new(50, 2));
    exercise(&mut FactorArray::with_default());
}

#[test]
fn array_list_takes_and_gives_at_any_index() {
    exercise(&mut ArrayList::new(1));
    exercise(&mut ArrayList::with_default());
}

#[test]
fn space_array_takes_and_gives_at_any_index() {
    exercise(&mut SpaceArray::new());
}

#[test]
fn the_list_takes_and_gives_at_any_place() {
    let mut list = DoubleLinkedList::new();
    assert_eq!(list.size(), 0);
    list.add(1);
    list.add(3);
    list.add_at(2, 1);
    list.add_at(0, 0);
    list.add_at(4, 4);
    assert_eq!(list.size(), 5);
    assert_eq!(list.remove(2), 2);
    assert_eq!(list.remove(0), 0);
    assert_eq!(list.remove(2), 4);
    assert_eq!(list.remove(0), 1);
    assert_eq!(list.remove(0), 3);
    assert_eq!(list.size(), 0);
}

#[test]
fn the_queue_hands_out_by_priority_and_then_by_arrival() {
    let mut priority_queue = PriorityQueue::new();
    assert_eq!(priority_queue.dequeue(), None);
    priority_queue.enqueue(0, 1000);
    priority_queue.enqueue(1, 100);
    priority_queue.enqueue(1, 101);
    assert_eq!(priority_queue.dequeue(), Some(100));
    priority_queue.enqueue(-1, -1000);
    priority_queue.enqueue(100, 1);
    assert_eq!(priority_queue.dequeue(), Some(1));
    assert_eq!(priority_queue.dequeue(), Some(101));
    assert_eq!(priority_queue.dequeue(), Some(1000));
    assert_eq!(priority_queue.dequeue(), Some(-1000));
    assert_eq!(priority_queue.dequeue(), None);
}

#[test]
fn the_queue_keeps_the_order_of_arrival_within_a_priority() {
    let mut queue = PriorityQueue::new();
    for (priority, item) in [(2, 'a'), (5, 'b'), (2, 'c'), (5, 'd'), (3, 'e'), (2, 'f')] {
        queue.enqueue(priority, item);
    }
    let mut out = Vec::new();
    while let Some(item) = queue.dequeue() {
        out.push(item);
    }
    assert_eq!(out, vec!['b', 'd', 'e', 'a', 'c', 'f']);
}

#[test]
fn the_matrix_array_puts_items_into_the_block_of_their_index() {
    let mut array = MatrixArray::new(3);
    for i in 0..7 {
        array.add(i, i as usize);
    }
    assert_eq!(array.size(), 7);
    for i in 0..7 {
        assert_eq!(*array.get(i), i as i32);
    }
    array.add(99, 1);
    assert_eq!(array.size(), 8);
    assert_eq!(*array.get(1), 99);
    assert_eq!(*array.get(2), 1);
    assert_eq!(*array.get(3), 3);
    assert_eq!(array.remove(1), Some(99));
    assert_eq!(array.size(), 7);
    assert_eq!(*array.get(0), 0);
    assert_eq!(*array.get(2), 2);
    assert_eq!(*array.get(3), 4);
    assert_eq!(*array.get(5), 6);
    assert_eq!(array.remove(100), None);
    assert_eq!(array.remove(6), None);
    assert_eq!(array.size(), 7);
    *array.get_mut(4) = 50;
    assert_eq!(*array.get(4), 50);
    array.reset();
    assert_eq!(array.size(), 0);
    assert_eq!(array.remove(0), None);
}

#[test]
fn the_matrix_array_by_default_has_blocks_of_ten() {
    let mut array = MatrixArray::with_default();
    for i in 0..25 {
        array.add(i, i as usize);
    }
    assert_eq!(*array.get(24), 24);
    assert_eq!(array.remove(9), Some(9));
    assert_eq!(*array.get(10), 11);
    assert_eq!(array.size(), 24);
}
