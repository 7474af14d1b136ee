use trw::frontier::Frontier;

#[test]
fn pops_least_key_first() {
    let mut f = Frontier::new();
    assert_eq!(f.pop(), None);
    f.push(5, 0, 0);
    f.push(2, 1, 1);
    f.push(9, 2, 2);
    f.push(2, 3, 3);
    let a = f.pop().unwrap();
    let b = f.pop().unwrap();
    assert_eq!(a.0, 2);
    assert_eq!(b.0, 2);
    assert!(a != b);
    assert_eq!(f.pop(), Some((5, 0, 0)));
    // a key below what was popped is still found
    f.push(0, 7, 7);
    assert_eq!(f.pop(), Some((0, 7, 7)));
    assert_eq!(f.pop(), Some((9, 2, 2)));
    assert_eq!(f.pop(), None);
}

#[test]
fn extreme_keys() {
    let mut f = Frontier::new();
    f.push(255, 1, 2);
    f.push(0, 3, 4);
    assert_eq!(f.pop(), Some((0, 3, 4)));
    assert_eq!(f.pop(), Some((255, 1, 2)));
    assert_eq!(f.pop(), None);
}
