use oxython::vm::{InterpretResult, Stack, STACK_MAX};

#[test]
fn stack_is_last_in_first_out() {
    let mut s: Stack<i64> = Stack::new(0);
    s.push(1);
    s.push(2);
    assert_eq!(s.top(), 2);
    assert_eq!(*s.peek(0), 2);
    assert_eq!(*s.peek(1), 1);
    assert_eq!(s.pop(), 2);
    assert_eq!(s.last_popped(), 2);
    assert_eq!(s.peek_top(), Some(1));
    assert_eq!(s.pop(), 1);
    assert_eq!(s.peek_top(), None);
}

#[test]
fn stack_slots_survive_above_top() {
    let mut s: Stack<i64> = Stack::new(0);
    s.push(1);
    s.push(2);
    s.pop();
    s.set_top(2);
    assert_eq!(s.peek_top(), Some(2));
    assert_eq!(*s.get(1), 2);
    s.set(0, 5);
    s.swap(0, 1);
    assert_eq!(*s.get(0), 2);
    assert_eq!(*s.get(1), 5);
    s.push(9);
    assert_eq!(s.top(), 3);
}

#[test]
fn stack_reset_and_last_popped() {
    let mut s: Stack<i64> = Stack::new(-1);
    assert_eq!(s.last_popped(), -1);
    s.push(4);
    s.pop();
    s.reset(-1);
    assert_eq!(s.top(), 0);
    assert_eq!(s.last_popped(), -1);
    s.set_last_popped(7);
    assert_eq!(s.last_popped(), 7);
    assert_eq!(STACK_MAX, 256);
}

#[test]
fn interpret_results_compare() {
    assert_eq!(InterpretResult::Success, InterpretResult::Success);
    assert_ne!(InterpretResult::RuntimeError, InterpretResult::CompileError);
}

#[test]
fn stack_insert_shifts_values_up() {
    let mut s: Stack<i64> = Stack::new(0);
    s.push(10);
    s.push(20);
    s.push(30);
    s.push(99);
    s.pop();
    s.pop();
    s.pop();
    s.push(20);
    // slots: [10, 20, 30, 99], top 2
    s.insert(1, 7);
    assert_eq!(s.top(), 3);
    assert_eq!(*s.get(0), 10);
    assert_eq!(*s.get(1), 7);
    assert_eq!(*s.get(2), 20);
    assert_eq!(*s.get(3), 99);
    s.insert(3, 8);
    assert_eq!(s.top(), 4);
    assert_eq!(*s.peek(0), 8);
}
