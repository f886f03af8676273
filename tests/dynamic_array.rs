use data_structures::dynamic_array::{Array, IndexOutOfBounds};

#[test]
fn array_grows_past_capacity() {
    let mut array = Array::<i32>::new(2);
    array.add(0);
    array.add(1);
    array.add(2);
    array.add(3);
    assert_eq!(array.len(), 4);
    assert_eq!(array.capacity, 8);
    assert_eq!(array.arr.len(), 8);
    assert_eq!(array.get(3), Some(&3));
    assert_eq!(array.get(4), Some(&0));
    assert_eq!(array.get(8), None);
    assert_eq!(array.index(1), 1);
    assert_eq!(array.index(9), -1);
}

#[test]
fn array_zero_capacity_grows() {
    let mut array = Array::<u8>::new(0);
    assert!(array.is_empty());
    array.add(5);
    assert_eq!(array.capacity, 1);
    array.add(6);
    assert_eq!(array.capacity, 2);
    assert_eq!(array.len(), 2);
    assert_eq!(array.get(0), Some(&5));
}

#[test]
fn array_set_and_errors() {
    let mut array = Array::<i32>::default();
    assert_eq!(array.arr.len(), 16);
    assert_eq!(array.set(1, 0), Ok(()));
    assert_eq!(array.get(0), Some(&1));
    assert_eq!(array.len(), 0);
    array.add(10);
    array.add(20);
    assert_eq!(array.set(30, 1), Ok(()));
    assert_eq!(array.get(1), Some(&30));
    assert_eq!(array.set(40, 15), Ok(()));
    assert_eq!(array.arr[15], 40);
    assert_eq!(array.set(30, 16), Err(IndexOutOfBounds));
    assert_eq!(array.len(), 2);
}

#[test]
fn array_remove_at_and_remove() {
    let mut array = Array::<i32>::new(4);
    for v in [1, 2, 3, 4, 5] {
        array.add(v);
    }
    assert_eq!(array.remove_at(1), Ok(()));
    assert_eq!(array.len(), 4);
    assert_eq!(array.get(1), Some(&3));
    assert_eq!(array.index(2), -1);
    assert_eq!(array.remove_at(4), Err(IndexOutOfBounds));
    assert_eq!(array.remove(), Ok(()));
    assert_eq!(array.len(), 3);
    assert_eq!(array.get(2), Some(&4));
    assert_eq!(array.get(3), Some(&0));
    assert_eq!(array.capacity, 8);
    array.clear();
    assert!(array.is_empty());
    assert_eq!(array.remove(), Err(IndexOutOfBounds));
    assert_eq!(array.index(1), -1);
}
