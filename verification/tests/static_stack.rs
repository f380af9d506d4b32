use kelner::collections::static_stack::StaticStack;

#[test]
fn static_stack_return_correct_item() {
    let mut stack: StaticStack<u64> = StaticStack::new(6);
    assert!(stack.push(10).is_ok());
    assert!(stack.push(20).is_ok());
    assert!(stack.push(30).is_ok());
    assert_eq!(stack.pop().unwrap(), 30);
    assert_eq!(stack.pop().unwrap(), 20);
    assert_eq!(stack.pop().unwrap(), 10);
}

#[test]
fn static_stack_return_correct_len() {
    let mut stack: StaticStack<u64> = StaticStack::new(6);

    assert_eq!(stack.len(), 0);

    assert!(stack.push(1).is_ok());
    assert_eq!(stack.len(), 1);

    assert!(stack.push(2).is_ok());
    assert_eq!(stack.len(), 2);

    assert!(stack.push(3).is_ok());
    assert_eq!(stack.len(), 3);

    assert!(stack.pop().is_ok());
    assert_eq!(stack.len(), 2);

    assert!(stack.pop().is_ok());
    assert_eq!(stack.len(), 1);

    assert!(stack.pop().is_ok());
    assert_eq!(stack.len(), 0);
}

#[test]
#[should_panic]
fn pop_when_empty() {
    let mut stack: StaticStack<u64> = StaticStack::new(6);

    // This one should return an error, because the stack is empty.
    stack.pop().unwrap();
}

#[test]
#[should_panic]
fn static_stack_push_when_full() {
    let mut stack: StaticStack<u64> = StaticStack::new(6);
    assert!(stack.push(1).is_ok());
    assert!(stack.push(2).is_ok());
    assert!(stack.push(3).is_ok());
    assert!(stack.push(4).is_ok());
    assert!(stack.push(5).is_ok());
    assert!(stack.push(6).is_ok());

    // This one should return an error, because the stack is full already.
    stack.push(6).unwrap();
}
