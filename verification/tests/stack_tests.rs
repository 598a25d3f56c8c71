use algorithms::data_structures::stack::{IsStack, Stack, StackError};

#[test]
fn test_new_stack() {
    let stack: Stack<isize> = Stack::new();
    assert_eq!(stack.size(), 0);
}

#[test]
fn stack_test_add() {
    let mut stack: Stack<i32> = Stack::new();
    assert_eq!(stack.add(42).unwrap(), None);
    assert_eq!(stack.size(), 1);
}

#[test]
fn stack_test_remove() {
    let mut stack: Stack<isize> = Stack::new();
    let _ = stack.add(42);
    assert_eq!(stack.remove().unwrap(), 42);
    assert_eq!(stack.size(), 0);
}

#[test]
fn stack_test_read() {
    let mut stack: Stack<isize> = Stack::new();
    let _ = stack.add(42);
    assert_eq!(stack.read().unwrap(), 42);
}

#[test]
fn test_stack_new_stack() {
    let stack: Stack<isize> = Stack::new();
    assert_eq!(stack.size(), 0);
}

#[test]
fn test_stack_add() {
    let mut stack: Stack<i32> = Stack::new();
    assert_eq!(stack.add(42).unwrap(), None);
    assert_eq!(stack.size(), 1);
}

#[test]
fn test_stack_remove() {
    let mut stack: Stack<isize> = Stack::new();
    let _ = stack.add(42);
    assert_eq!(stack.remove().unwrap(), 42);
    assert_eq!(stack.size(), 0);
}

#[test]
fn test_stack_read() {
    let mut stack: Stack<isize> = Stack::new();
    let _ = stack.add(42);
    assert_eq!(stack.read().unwrap(), 42);
}

#[test]
fn stack_removes_the_latest_first() {
    let mut stack: Stack<u8> = Stack::new();
    let _ = stack.add(1);
    let _ = stack.add(2);
    let _ = stack.add(3);
    assert_eq!(stack.read(), Ok(3));
    assert_eq!(stack.size(), 3);
    assert_eq!(stack.remove(), Ok(3));
    assert_eq!(stack.remove(), Ok(2));
    let _ = stack.add(4);
    assert_eq!(stack.remove(), Ok(4));
    assert_eq!(stack.remove(), Ok(1));
    assert_eq!(stack.size(), 0);
}

#[test]
fn stack_read_of_empty_fails() {
    let stack: Stack<isize> = Stack::new();
    assert_eq!(stack.read(), Err(StackError::Empty));
}

#[test]
fn stack_remove_of_empty_fails_and_changes_nothing() {
    let mut stack: Stack<isize> = Stack::default();
    assert_eq!(stack.remove(), Err(StackError::Empty));
    assert_eq!(stack.size(), 0);
    let _ = stack.add(7);
    assert_eq!(stack.remove(), Ok(7));
    assert_eq!(stack.remove(), Err(StackError::Empty));
}

#[test]
fn stack_read_clones_and_keeps_the_element() {
    let mut stack: Stack<String> = Stack::new();
    let _ = stack.add(String::from("first"));
    let _ = stack.add(String::from("second"));
    assert_eq!(stack.read().unwrap(), "second");
    assert_eq!(stack.read().unwrap(), "second");
    assert_eq!(stack.size(), 2);
}
