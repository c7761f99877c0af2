use treapkit::arrays::{FactorArray, IArray, SingleArray, VectorArray};

fn exercise(array: &mut dyn IArray<i32>) {
    assert_eq!(array.size(), 0);
    for i in 0..10 {
        array.add(i * 10);
    }
    assert_eq!(array.size(), 10);
    assert_eq!(array.get(0), 0);
    assert_eq!(array.get(9), 90);
    array.add_at(5, 1);
    assert_eq!(array.get(0), 0);
    assert_eq!(array.get(1), 5);
    assert_eq!(array.get(2), 10);
    assert_eq!(array.size(), 11);
    array.add_at(7, 11);
    assert_eq!(array.get(11), 7);
    assert_eq!(array.remove(1), 5);
    assert_eq!(array.remove(0), 0);
    assert_eq!(array.get(0), 10);
    assert_eq!(array.remove(9), 7);
    assert_eq!(array.size(), 9);
    array.reset();
    assert_eq!(array.size(), 0);
    array.add(1);
    assert_eq!(array.get(0), 1);
}

#[test]
fn single_array_inserts_and_removes_by_index() {
    exercise(&mut SingleArray::new());
}

#[test]
fn vector_array_inserts_and_removes_by_index() {
    exercise(&mut VectorArray::new(3));
    exercise(&mut VectorArray::new(0));
}

#[test]
fn factor_array_inserts_and_removes_by_index() {
    exercise(&mut FactorArray::new(50, 2));
    exercise(&mut FactorArray::new(0, 0));
}

#[test]
fn vector_array_items_can_be_changed_in_place() {
    let mut array = VectorArray::new(2);
    array.add(String::from("a"));
    array.add(String::from("b"));
    array.get_mut(1).push('!');
    assert_eq!(array.get(1), "b!");
    assert_eq!(array.get(0), "a");
}

#[test]
fn arrays_grow_far_past_their_first_room() {
    let mut array = FactorArray::new(100, 1);
    for i in 0..1000 {
        array.add(i);
    }
    assert_eq!(array.size(), 1000);
    assert_eq!(array.get(999), 999);
    let mut array = VectorArray::new(1);
    for i in 0..1000 {
        array.add_at(i, 0);
    }
    assert_eq!(array.get(0), 999);
    assert_eq!(array.get(999), 0);
}
