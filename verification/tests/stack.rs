use bitstack::{EmptyStackError, Stack1};

#[test]
fn push_and_pop() {
    let mut stack = Stack1::new();
    let _ = stack.push(false);
    let _ = stack.push(true);
    let result1 = stack.pop();
    let result2 = stack.pop();
    assert_eq!(result1, Ok(true));
    assert_eq!(result2, Ok(false));
}

#[test]
fn size_increase_when_push() {
    let mut stack = Stack1::new();
    let _ = stack.push(false);
    let result1: u32 = stack.size();
    let _ = stack.push(true);
    let result2: u32 = stack.size();
    assert_eq!(result2, result1 + 1);
}

#[test]
fn push_and_top() {
    let mut stack = Stack1::new();
    let _ = stack.push(false);
    let result1 = stack.top();
    let _ = stack.push(true);
    let result2 = stack.top();
    assert_eq!(result1, Ok(false));
    assert_eq!(result2, Ok(true));
}

#[test]
fn size_decreases_when_pop() {
    let mut stack = Stack1::new();
    let _ = stack.push(false);
    let _ = stack.push(true);
    let result1: u32 = stack.size();
    let _ = stack.pop();
    let result2: u32 = stack.size();
    assert_eq!(result1, result2 + 1);
}

#[test]
fn empty_when_created() {
    let result: u32 = Stack1::new().size();
    assert_eq!(result, 0);
}

#[test]
fn empty_does_not_pop() {
    let mut stack = Stack1::new();
    let result = stack.pop();
    assert_eq!(result, Err(EmptyStackError));
}
