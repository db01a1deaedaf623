use id_pool::IdPool;

#[test]
fn request() {
    let mut pool = IdPool::new();
    assert_eq!(Some(1), pool.request_id());
    assert_eq!(Some(2), pool.request_id());
    assert_eq!(Some(3), pool.request_id());
}

#[test]
fn request_return() {
    let mut pool = IdPool::new_ranged(1..usize::MAX);
    assert_eq!(Some(1), pool.request_id());
    assert_eq!(Some(2), pool.request_id());
    assert_eq!(Some(3), pool.request_id());
    assert_eq!(Ok(()), pool.return_id(1));
    assert_eq!(Some(1), pool.request_id());
    assert_eq!(Ok(()), pool.return_id(2));
    assert_eq!(Some(2), pool.request_id());
    assert_eq!(Some(4), pool.request_id());
    assert_eq!(Ok(()), pool.return_id(3));
    assert_eq!(Ok(()), pool.return_id(4));
    assert_eq!(Err(5), pool.return_id(5));
}

#[test]
fn used_count() {
    let mut pool = IdPool::new_ranged(1..10);
    assert_eq!(Some(1), pool.request_id());
    assert_eq!(Some(2), pool.request_id());
    assert_eq!(Some(3), pool.request_id());
    assert_eq!(Ok(()), pool.return_id(1));
    assert_eq!(2, pool.get_used());
}

#[test]
fn smallest_first_until_exhaustion() {
    let mut pool = IdPool::new_ranged(1..50);
    for expected in 1..50 {
        assert_eq!(Some(expected), pool.request_id());
    }
    assert_eq!(None, pool.request_id());
    assert_eq!(49, pool.get_used());
}

#[test]
fn exhaustion_single_id() {
    let mut pool = IdPool::new_ranged(1..2);
    assert_eq!(Some(1), pool.request_id());
    assert_eq!(None, pool.request_id());
    // exhaustion is recoverable: returning the id frees it again
    assert_eq!(Ok(()), pool.return_id(1));
    assert_eq!(Some(1), pool.request_id());
    assert_eq!(None, pool.request_id());
}

#[test]
fn returns_coalesce_into_one_range() {
    let mut pool = IdPool::new_ranged(1..10);
    for expected in 1..6 {
        assert_eq!(Some(expected), pool.request_id());
    }
    // free list is now [6, 10); give back 2, 4, 3 so that the last return
    // bridges the two singleton ranges into [2, 5)
    assert_eq!(Ok(()), pool.return_id(2));
    assert_eq!(Ok(()), pool.return_id(4));
    assert_eq!(Ok(()), pool.return_id(3));
    assert_eq!(2, pool.get_used());
    // the merged range hands its ids back smallest first, then [6, 10) goes on
    assert_eq!(Some(2), pool.request_id());
    assert_eq!(Some(3), pool.request_id());
    assert_eq!(Some(4), pool.request_id());
    assert_eq!(Some(6), pool.request_id());
}

#[test]
fn return_merges_upward_into_following_range() {
    let mut pool = IdPool::new_ranged(1..10);
    for expected in 1..6 {
        assert_eq!(Some(expected), pool.request_id());
    }
    // free list is [6, 10); returning 5 extends it downward to [5, 10)
    assert_eq!(Ok(()), pool.return_id(5));
    assert_eq!(Some(5), pool.request_id());
    assert_eq!(Some(6), pool.request_id());
}

#[test]
fn allocate_then_return_restores_pool() {
    let mut pool = IdPool::new_ranged(1..10);
    assert_eq!(Some(1), pool.request_id());
    assert_eq!(Ok(()), pool.return_id(1));
    assert_eq!(0, pool.get_used());
    // the free set is back to [1, 10): the same ids come out again
    assert_eq!(Some(1), pool.request_id());
    assert_eq!(Some(2), pool.request_id());
}

#[test]
fn double_return_is_rejected_and_harmless() {
    let mut pool = IdPool::new_ranged(1..10);
    assert_eq!(Some(1), pool.request_id());
    assert_eq!(Some(2), pool.request_id());
    assert_eq!(Ok(()), pool.return_id(1));
    let used_before = pool.get_used();
    // a second return of the same id fails and changes nothing
    assert_eq!(Err(1), pool.return_id(1));
    assert_eq!(used_before, pool.get_used());
    assert_eq!(Some(1), pool.request_id());
    assert_eq!(Some(3), pool.request_id());
}

#[test]
fn return_of_interior_free_id_is_rejected() {
    let mut pool = IdPool::new_ranged(1..10);
    assert_eq!(Some(1), pool.request_id());
    // 5 sits in the middle of the free range [2, 10)
    assert_eq!(Err(5), pool.return_id(5));
    assert_eq!(1, pool.get_used());
}

#[test]
fn return_below_every_range_inserts_a_new_one() {
    let mut pool = IdPool::new_ranged(5..10);
    assert_eq!(Some(5), pool.request_id());
    // 2 was never handed out, but the pool accepts it below its ranges
    assert_eq!(Ok(()), pool.return_id(2));
    assert_eq!(0, pool.get_used());
    assert_eq!(Some(2), pool.request_id());
    // 5 itself is still held, so the next free id is 6
    assert_eq!(Some(6), pool.request_id());
}

#[test]
fn return_above_every_range_appends_a_new_one() {
    let mut pool = IdPool::new_ranged(1..5);
    for expected in 1..5 {
        assert_eq!(Some(expected), pool.request_id());
    }
    assert_eq!(None, pool.request_id());
    assert_eq!(Ok(()), pool.return_id(20));
    assert_eq!(Some(20), pool.request_id());
    assert_eq!(None, pool.request_id());
}

#[test]
fn export_import_round_trip() {
    let mut pool = IdPool::new_ranged(1..10);
    for expected in 1..5 {
        assert_eq!(Some(expected), pool.request_id());
    }
    assert_eq!(Ok(()), pool.return_id(2));
    let (list, used) = pool.export_state();
    assert_eq!(vec![(2, 3), (5, 10)], list);
    assert_eq!(3, used);
    let mut rebuilt = IdPool::import_state(list, used).unwrap();
    assert_eq!(3, rebuilt.get_used());
    assert_eq!(Some(2), rebuilt.request_id());
    assert_eq!(Some(5), rebuilt.request_id());
}

#[test]
fn import_rejects_malformed_lists() {
    // an empty range
    assert!(IdPool::import_state(vec![(3, 3)], 0).is_none());
    // an inverted range
    assert!(IdPool::import_state(vec![(7, 2)], 0).is_none());
    // adjacent ranges that should have been coalesced
    assert!(IdPool::import_state(vec![(1, 5), (5, 8)], 0).is_none());
    // overlapping ranges
    assert!(IdPool::import_state(vec![(1, 5), (4, 8)], 0).is_none());
    // ranges out of order
    assert!(IdPool::import_state(vec![(5, 6), (1, 2)], 0).is_none());
    // the empty list is a valid (exhausted) pool
    let mut empty = IdPool::import_state(Vec::new(), 4).unwrap();
    assert_eq!(4, empty.get_used());
    assert_eq!(None, empty.request_id());
}
