use rtos::list::{Link, NodePool, OrderedList, MAX_TICK};

#[test]
fn fresh_list_is_empty_and_contains_nothing() {
    let mut pool = NodePool::new();
    let l = OrderedList::init(&mut pool);
    let n = pool.new_node(7, 1);
    assert_eq!(l.count, 0);
    assert!(!l.contains(&pool, n));
    assert_eq!(l.cursor, Link::Sentinel);
    assert_eq!(l.first, Link::Sentinel);
    assert_eq!(l.last, Link::Sentinel);
}

#[test]
fn sorted_insert_orders_by_key() {
    // Keys inserted as [5, 1, 3]; walking yields owners in key order 1, 3, 5.
    let mut pool = NodePool::new();
    let mut l = OrderedList::init(&mut pool);
    let n5 = pool.new_node(5, 500);
    let n1 = pool.new_node(1, 100);
    let n3 = pool.new_node(3, 300);
    l.insert_sorted(&mut pool, n5);
    l.insert_sorted(&mut pool, n1);
    l.insert_sorted(&mut pool, n3);
    assert_eq!(l.count, 3);
    assert_eq!(l.peek_head_owner(&pool), 100);
    assert_eq!(l.advance_cursor_and_get_owner(&pool), 100);
    assert_eq!(l.advance_cursor_and_get_owner(&pool), 300);
    assert_eq!(l.advance_cursor_and_get_owner(&pool), 500);
}

#[test]
fn sorted_insert_keeps_tie_insertion_order() {
    // Two nodes with key 10, A then B: A stays before B.
    let mut pool = NodePool::new();
    let mut l = OrderedList::init(&mut pool);
    let a = pool.new_node(10, 1);
    let b = pool.new_node(10, 2);
    l.insert_sorted(&mut pool, a);
    l.insert_sorted(&mut pool, b);
    assert_eq!(l.advance_cursor_and_get_owner(&pool), 1);
    assert_eq!(l.advance_cursor_and_get_owner(&pool), 2);
}

#[test]
fn maximal_key_sits_at_the_tail() {
    // M carries the maximal key, X the key 5: X is retrieved first, and M
    // sits directly before the sentinel (it is the last node of each lap).
    let mut pool = NodePool::new();
    let mut l = OrderedList::init(&mut pool);
    let m = pool.new_node(MAX_TICK, 77);
    let x = pool.new_node(5, 55);
    l.insert_sorted(&mut pool, m);
    l.insert_sorted(&mut pool, x);
    assert_eq!(l.peek_head_owner(&pool), 55);
    assert_eq!(l.advance_cursor_and_get_owner(&pool), 55);
    assert_eq!(l.advance_cursor_and_get_owner(&pool), 77);
    assert_eq!(l.last, Link::Node(m));
    // The lap wraps past the sentinel back to X.
    assert_eq!(l.advance_cursor_and_get_owner(&pool), 55);
}

#[test]
fn two_maximal_keys_keep_insertion_order() {
    let mut pool = NodePool::new();
    let mut l = OrderedList::init(&mut pool);
    let a = pool.new_node(MAX_TICK, 1);
    let b = pool.new_node(MAX_TICK, 2);
    l.insert_sorted(&mut pool, a);
    l.insert_sorted(&mut pool, b);
    assert_eq!(l.advance_cursor_and_get_owner(&pool), 1);
    assert_eq!(l.advance_cursor_and_get_owner(&pool), 2);
}

#[test]
fn insert_at_end_places_before_cursor() {
    // With the cursor parked on A, an unordered insert lands directly
    // before the cursor: it is the last node the round robin hands out.
    let mut pool = NodePool::new();
    let mut l = OrderedList::init(&mut pool);
    let a = pool.new_node(1, 10);
    let b = pool.new_node(2, 20);
    l.insert_sorted(&mut pool, a);
    l.insert_sorted(&mut pool, b);
    assert_eq!(l.advance_cursor_and_get_owner(&pool), 10);
    // Key 0 would sort first, but insert_at_end ignores keys.
    let c = pool.new_node(0, 30);
    l.insert_at_end(&mut pool, c);
    assert_eq!(l.count, 3);
    // From A the lap continues B, then C (directly before A), then A again.
    assert_eq!(l.advance_cursor_and_get_owner(&pool), 20);
    assert_eq!(l.advance_cursor_and_get_owner(&pool), 30);
    assert_eq!(l.advance_cursor_and_get_owner(&pool), 10);
}

#[test]
fn insert_at_end_with_cursor_on_sentinel_appends() {
    let mut pool = NodePool::new();
    let mut l = OrderedList::init(&mut pool);
    let a = pool.new_node(1, 10);
    let b = pool.new_node(2, 20);
    l.insert_sorted(&mut pool, a);
    l.insert_at_end(&mut pool, b);
    assert_eq!(l.last, Link::Node(b));
    assert_eq!(l.peek_head_owner(&pool), 10);
}

#[test]
fn remove_returns_prior_count_and_decrements() {
    let mut pool = NodePool::new();
    let mut l = OrderedList::init(&mut pool);
    let a = pool.new_node(1, 10);
    let b = pool.new_node(2, 20);
    l.insert_sorted(&mut pool, a);
    l.insert_sorted(&mut pool, b);
    assert_eq!(l.remove(&mut pool, a), 2);
    assert_eq!(l.count, 1);
    assert!(!l.contains(&pool, a));
    assert!(l.contains(&pool, b));
    assert_eq!(pool.node_container(a), None);
}

#[test]
fn removing_sole_node_resets_the_list() {
    let mut pool = NodePool::new();
    let mut l = OrderedList::init(&mut pool);
    let a = pool.new_node(9, 10);
    l.insert_sorted(&mut pool, a);
    let _ = l.advance_cursor_and_get_owner(&pool);
    assert_eq!(l.remove(&mut pool, a), 1);
    // Back to the freshly initialized state: cursor at the sentinel, chain
    // self-linked, no items.
    assert_eq!(l.count, 0);
    assert_eq!(l.cursor, Link::Sentinel);
    assert_eq!(l.first, Link::Sentinel);
    assert_eq!(l.last, Link::Sentinel);
    // And the list works again like a fresh one.
    let b = pool.new_node(3, 30);
    l.insert_sorted(&mut pool, b);
    assert_eq!(l.peek_head_owner(&pool), 30);
    assert_eq!(l.advance_cursor_and_get_owner(&pool), 30);
}

#[test]
fn remove_repairs_cursor_to_predecessor() {
    // Chain A, B, C with the cursor on A; removing B keeps the lap intact:
    // the next advances return C then A — B is never returned.
    let mut pool = NodePool::new();
    let mut l = OrderedList::init(&mut pool);
    let a = pool.new_node(1, 10);
    let b = pool.new_node(2, 20);
    let c = pool.new_node(3, 30);
    l.insert_sorted(&mut pool, a);
    l.insert_sorted(&mut pool, b);
    l.insert_sorted(&mut pool, c);
    assert_eq!(l.advance_cursor_and_get_owner(&pool), 10);
    assert_eq!(l.remove(&mut pool, b), 3);
    assert_eq!(l.advance_cursor_and_get_owner(&pool), 30);
    assert_eq!(l.advance_cursor_and_get_owner(&pool), 10);
}

#[test]
fn removing_the_cursor_node_moves_cursor_to_predecessor() {
    let mut pool = NodePool::new();
    let mut l = OrderedList::init(&mut pool);
    let a = pool.new_node(1, 10);
    let b = pool.new_node(2, 20);
    let c = pool.new_node(3, 30);
    l.insert_sorted(&mut pool, a);
    l.insert_sorted(&mut pool, b);
    l.insert_sorted(&mut pool, c);
    // Park the cursor on B, then remove B itself.
    let _ = l.advance_cursor_and_get_owner(&pool);
    assert_eq!(l.advance_cursor_and_get_owner(&pool), 20);
    assert_eq!(l.cursor, Link::Node(b));
    let _ = l.remove(&mut pool, b);
    // The cursor was repaired to A, so the next advance visits B's former
    // successor C: nothing is skipped or revisited.
    assert_eq!(l.cursor, Link::Node(a));
    assert_eq!(l.advance_cursor_and_get_owner(&pool), 30);
}

#[test]
fn round_robin_visits_all_once_then_repeats() {
    // One lap of `count` advances returns every owner exactly once, and the
    // next call repeats the lap's first owner.
    let mut pool = NodePool::new();
    let mut l = OrderedList::init(&mut pool);
    let owners = [11usize, 22, 33, 44, 55];
    for (i, o) in owners.iter().enumerate() {
        let n = pool.new_node(i as u32, *o);
        l.insert_sorted(&mut pool, n);
    }
    let mut seen = Vec::new();
    for _ in 0..l.count {
        seen.push(l.advance_cursor_and_get_owner(&pool));
    }
    assert_eq!(seen, vec![11, 22, 33, 44, 55]);
    assert_eq!(l.advance_cursor_and_get_owner(&pool), 11);
}

#[test]
fn membership_follows_the_holding_list() {
    let mut pool = NodePool::new();
    let mut l1 = OrderedList::init(&mut pool);
    let mut l2 = OrderedList::init(&mut pool);
    let n = pool.new_node(4, 40);
    l1.insert_sorted(&mut pool, n);
    assert!(l1.contains(&pool, n));
    assert!(!l2.contains(&pool, n));
    // Moving a node between lists is an explicit remove then insert.
    let _ = l1.remove(&mut pool, n);
    l2.insert_sorted(&mut pool, n);
    assert!(!l1.contains(&pool, n));
    assert!(l2.contains(&pool, n));
}

#[test]
fn node_accessors_report_stored_fields() {
    let mut pool = NodePool::new();
    let n = pool.new_node(123, 9);
    assert_eq!(pool.node_value(n), 123);
    assert_eq!(pool.node_owner(n), 9);
    assert_eq!(pool.node_container(n), None);
    pool.set_node_value(n, 456);
    assert_eq!(pool.node_value(n), 456);
    assert_eq!(pool.node_owner(n), 9);
}

#[test]
fn two_lists_share_one_pool_without_interference() {
    let mut pool = NodePool::new();
    let mut ready = OrderedList::init(&mut pool);
    let mut delayed = OrderedList::init(&mut pool);
    let a = pool.new_node(1, 10);
    let b = pool.new_node(2, 20);
    let c = pool.new_node(3, 30);
    ready.insert_sorted(&mut pool, a);
    delayed.insert_sorted(&mut pool, b);
    ready.insert_sorted(&mut pool, c);
    assert_eq!(ready.count, 2);
    assert_eq!(delayed.count, 1);
    assert_eq!(ready.peek_head_owner(&pool), 10);
    assert_eq!(delayed.peek_head_owner(&pool), 20);
    let _ = ready.remove(&mut pool, a);
    assert_eq!(delayed.count, 1);
    assert_eq!(delayed.peek_head_owner(&pool), 20);
}
