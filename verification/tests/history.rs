use open_task::history::Ring;

#[test]
fn evicts_oldest_when_full() {
    let mut r = Ring::new(3);
    for i in 0..5 {
        r.push(i);
    }
    assert_eq!(r.len(), 3);
    assert_eq!(r.iter().copied().collect::<Vec<_>>(), vec![2, 3, 4]);
    assert_eq!(r.latest(), Some(&4));
}

#[test]
fn zero_capacity_is_clamped_to_one() {
    let mut r = Ring::new(0);
    r.push('a');
    r.push('b');
    assert_eq!(r.capacity(), 1);
    assert_eq!(r.latest(), Some(&'b'));
}

#[test]
fn ring_holds_the_newest_values() {
    let mut r = Ring::new(4);
    assert!(r.is_empty());
    assert_eq!(r.latest(), None);
    for i in 0..10 {
        r.push(i);
        assert!(r.len() <= r.capacity());
    }
    assert_eq!(r.iter().copied().collect::<Vec<_>>(), vec![6, 7, 8, 9]);
    r.clear();
    assert!(r.is_empty());
    assert_eq!(r.capacity(), 4);
}

#[test]
fn after_a_clear_only_the_newest_later_pushes_remain() {
    let mut r = Ring::new(3);
    for v in 1..=5 {
        r.push(v);
    }
    r.clear();
    assert_eq!(r.capacity(), 3);
    assert!(r.is_empty());
    for v in [7, 8, 9, 10] {
        r.push(v);
    }
    assert_eq!(r.len(), 3);
    assert_eq!(r.iter().copied().collect::<Vec<_>>(), vec![8, 9, 10]);
    assert_eq!(r.latest(), Some(&10));
}
