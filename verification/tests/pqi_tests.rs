use graph::pqi::PQi;

#[test]
fn new_queue_holds_n_positions() {
    let q: PQi<u64> = PQi::new(3, vec![30, 10, 20], 2);
    assert!(!q.empty());
    let q0: PQi<u64> = PQi::new(0, vec![30, 10, 20], 2);
    assert!(q0.empty());
}

#[test]
fn getmin_insert_lower_sequence() {
    let mut q: PQi<u64> = PQi::new(3, vec![30, 10, 20], 2);
    // all positions hold item 0 at first
    assert_eq!(q.getmin(), 0);
    q.insert(2);
    // the sift-down puts item 2 back at the front, and position 2 holds item 0
    assert_eq!(q.getmin(), 0);
    q.lower(2);
    assert_eq!(q.getmin(), 2);
    assert!(!q.empty());
    assert_eq!(q.getmin(), 0);
    assert!(q.empty());
}

#[test]
fn checks_tell_which_calls_may_run() {
    let mut q: PQi<u64> = PQi::new(3, vec![30, 10, 20], 2);
    assert!(q.check_take_min());
    // positions 0..=3 exist, so there is no free position past n = 3
    assert!(!q.check_insert(1));
    // item 7 has no slot in qp
    assert!(!q.check_lower(7));
    assert!(q.check_lower(2));
    assert_eq!(q.getmin(), 0);
    assert!(q.check_insert(2));
    assert!(!q.check_insert(9));
    q.insert(2);
    assert!(q.check_take_min());
}

#[test]
fn check_take_min_refuses_empty_queue() {
    let q: PQi<u64> = PQi::new(0, vec![30, 10, 20], 2);
    assert!(!q.check_take_min());
    // a queue made with size 0 has the single position 0, so nothing fits
    assert!(!q.check_insert(1));
}

#[test]
fn check_take_min_refuses_items_without_keys() {
    // every position holds item 0, but there are no keys at all
    let q: PQi<u64> = PQi::new(2, vec![], 2);
    assert!(!q.check_take_min());
}
