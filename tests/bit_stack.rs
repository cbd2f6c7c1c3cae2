use ordered_tree::Stack1;

#[test]
fn new_stack_is_empty() {
    let mut s = Stack1::new();
    assert_eq!(s.size(), 0);
    assert_eq!(s.top(), Err("Empty stack".to_string()));
    assert_eq!(s.pop(), Err("Empty stack".to_string()));
    assert_eq!(s.size(), 0);
}

#[test]
fn pops_come_back_last_in_first_out() {
    let mut s = Stack1::new();
    assert_eq!(s.push(true), Ok(true));
    assert_eq!(s.push(false), Ok(false));
    assert_eq!(s.push(true), Ok(true));
    assert_eq!(s.size(), 3);
    assert_eq!(s.pop(), Ok(true));
    assert_eq!(s.pop(), Ok(false));
    assert_eq!(s.pop(), Ok(true));
    assert!(s.pop().is_err());
    assert_eq!(s.size(), 0);
}

#[test]
fn top_does_not_remove() {
    let mut s = Stack1::new();
    s.push(false).unwrap();
    assert_eq!(s.top(), Ok(false));
    assert_eq!(s.top(), Ok(false));
    assert_eq!(s.size(), 1);
    s.push(true).unwrap();
    assert_eq!(s.top(), Ok(true));
    assert_eq!(s.size(), 2);
}

#[test]
fn pops_reverse_pushes() {
    let pushed: Vec<bool> = (0..40).map(|i| i % 3 == 0 || i % 7 == 1).collect();
    let mut s = Stack1::new();
    for &b in &pushed {
        assert_eq!(s.push(b), Ok(b));
    }
    assert_eq!(s.size(), 40);
    let mut popped = Vec::new();
    for _ in 0..40 {
        popped.push(s.pop().unwrap());
    }
    let mut reversed = pushed.clone();
    reversed.reverse();
    assert_eq!(popped, reversed);
    assert_eq!(s.size(), 0);
}

#[test]
fn full_stack_refuses_a_push() {
    let mut s = Stack1::new();
    for i in 0..63 {
        assert_eq!(s.push(i % 2 == 0), Ok(i % 2 == 0));
    }
    assert_eq!(s.size(), 63);
    assert_eq!(s.push(true), Err("Full stack".to_string()));
    assert_eq!(s.push(false), Err("Full stack".to_string()));
    assert_eq!(s.size(), 63);
    assert_eq!(s.top(), Ok(true));
    for i in (0..63).rev() {
        assert_eq!(s.pop(), Ok(i % 2 == 0));
    }
    assert!(s.pop().is_err());
}

#[test]
fn all_true_fills_the_word() {
    let mut s = Stack1::new();
    for _ in 0..63 {
        s.push(true).unwrap();
    }
    assert_eq!(s.size(), 63);
    assert!(s.push(true).is_err());
    assert_eq!(s.pop(), Ok(true));
    assert_eq!(s.size(), 62);
    assert_eq!(s.push(false), Ok(false));
    assert_eq!(s.size(), 63);
}
