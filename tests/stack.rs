use data_structures::stack::{brackets_are_valid, init_stack, Stack};

#[test]
fn push() {
    let mut stack = init_stack();

    assert_eq!(stack.pop(), Some(6));
    assert_eq!(stack.pop(), Some(5));
    assert_eq!(stack.pop(), Some(4));
    assert_eq!(stack.pop(), Some(3));
    assert_eq!(stack.pop(), Some(2));
    assert_eq!(stack.pop(), Some(1));
    assert_eq!(stack.pop(), None);
}

#[test]
fn peek() {
    let mut stack = init_stack();

    assert_eq!(stack.peek(), Some(&6));
    stack.pop();
    stack.pop();
    assert_eq!(stack.peek(), Some(&4));
    stack.push(99);
    assert_eq!(stack.peek(), Some(&99));
}

#[test]
fn is_empty() {
    let mut stack = Stack::<i32>::new();

    assert_eq!(stack.is_empty(), true);
    stack.push(5);
    assert_eq!(stack.is_empty(), false);
    stack.pop();
    assert_eq!(stack.is_empty(), true);
}

#[test]
fn into_iter() {
    let mut iter = init_stack().into_iter();

    assert_eq!(iter.next(), Some(6));
    assert_eq!(iter.next(), Some(5));
    assert_eq!(iter.next(), Some(4));
    assert_eq!(iter.next(), Some(3));
    assert_eq!(iter.next(), Some(2));
    assert_eq!(iter.next(), Some(1));
    assert_eq!(iter.next(), None);
}

#[test]
fn iter() {
    let stack = init_stack();
    let mut iter = stack.iter();

    assert_eq!(iter.next(), Some(&6));
    assert_eq!(iter.next(), Some(&5));
    assert_eq!(iter.next(), Some(&4));
    assert_eq!(iter.next(), Some(&3));
    assert_eq!(iter.next(), Some(&2));
    assert_eq!(iter.next(), Some(&1));
    assert_eq!(iter.next(), None);
}

#[test]
fn iter_mut() {
    let mut stack = init_stack();
    let mut iter = stack.iter_mut();

    assert_eq!(iter.next(), Some(&mut 6));
    assert_eq!(iter.next(), Some(&mut 5));
    assert_eq!(iter.next(), Some(&mut 4));
    assert_eq!(iter.next(), Some(&mut 3));
    assert_eq!(iter.next(), Some(&mut 2));
    assert_eq!(iter.next(), Some(&mut 1));
    assert_eq!(iter.next(), None);
}

#[test]
fn check_brackets_are_valid() {
    assert_eq!(brackets_are_valid("[({})]"), true);
    assert_eq!(brackets_are_valid("[(})]"), false);
    assert_eq!(brackets_are_valid("({])"), false);
    assert_eq!(brackets_are_valid("{}"), true);
    assert_eq!(brackets_are_valid(""), true);
}

#[test]
fn brackets_edge_cases() {
    assert_eq!(brackets_are_valid(")"), false);
    assert_eq!(brackets_are_valid("()]"), false);
    assert_eq!(brackets_are_valid("(("), false);
    assert_eq!(brackets_are_valid("a(b)[c]"), false);
    assert_eq!(brackets_are_valid("([]{()})"), true);
}

#[test]
fn iter_mut_writes_through() {
    let mut stack = init_stack();
    {
        let mut iter = stack.iter_mut();
        while let Some(v) = iter.next() {
            *v *= 10;
        }
    }
    assert_eq!(stack.pop(), Some(60));
    assert_eq!(stack.size, 5);
    assert_eq!(stack.peek(), Some(&50));
}
