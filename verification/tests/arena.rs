use price_level::arena::Arena;
use price_level::order::{Order, OrderId, OrderStatus, OrderType, Timestamp};

fn stored(sequence: i32, shares: u32) -> Order {
    Order::with_entry_time(sequence, OrderType::BID, 50, shares, Timestamp { secs: 0, nanos: 0 })
}

#[test]
fn empty_store_holds_nothing() {
    let arena = Arena::new();
    let id = OrderId { slot: 0, generation: 0 };
    assert!(!arena.holds(id));
    assert!(arena.get(id).is_none());
}

#[test]
fn allocate_stores_under_distinct_handles() {
    let mut arena = Arena::new();
    let a = arena.allocate(stored(1, 10));
    let b = arena.allocate(stored(2, 20));
    assert_ne!(a, b);
    assert!(arena.holds(a));
    assert!(arena.holds(b));
    assert_eq!(arena.get(a), Some(&stored(1, 10)));
    assert_eq!(arena.order(b), &stored(2, 20));
}

#[test]
fn release_hands_the_order_back() {
    let mut arena = Arena::new();
    let a = arena.allocate(stored(1, 10));
    let b = arena.allocate(stored(2, 20));
    let taken = arena.release(a);
    assert_eq!(taken, stored(1, 10));
    assert!(!arena.holds(a));
    assert!(arena.get(a).is_none());
    assert!(arena.holds(b));
    assert_eq!(arena.get(b), Some(&stored(2, 20)));
}

#[test]
fn slot_is_reused_under_a_new_generation() {
    let mut arena = Arena::new();
    let a = arena.allocate(stored(1, 10));
    arena.release(a);
    let b = arena.allocate(stored(2, 20));
    assert_eq!(b.slot, a.slot);
    assert_ne!(b.generation, a.generation);
    assert!(!arena.holds(a));
    assert!(arena.get(a).is_none());
    assert_eq!(arena.get(b), Some(&stored(2, 20)));
}

#[test]
fn handles_are_never_given_out_twice() {
    let mut arena = Arena::new();
    let mut seen: Vec<OrderId> = Vec::new();
    let mut round: i32 = 0;
    while round < 50 {
        let a = arena.allocate(stored(round, 1));
        let b = arena.allocate(stored(round, 2));
        assert!(!seen.contains(&a));
        assert!(!seen.contains(&b));
        seen.push(a);
        seen.push(b);
        arena.release(a);
        if round % 2 == 0 {
            arena.release(b);
        }
        round += 1;
    }
}

#[test]
fn setters_change_one_field_of_one_order() {
    let mut arena = Arena::new();
    let a = arena.allocate(stored(1, 10));
    let b = arena.allocate(stored(2, 20));
    arena.set_next(a, Some(b));
    arena.set_prev(b, Some(a));
    arena.set_remaining(b, 5, OrderStatus::PARTIAL);
    let mut first = stored(1, 10);
    first.next = Some(b);
    let mut second = stored(2, 20);
    second.prev = Some(a);
    second.shares = 5;
    second.order_status = OrderStatus::PARTIAL;
    assert_eq!(arena.get(a), Some(&first));
    assert_eq!(arena.get(b), Some(&second));
    arena.set_next(a, None);
    assert_eq!(arena.get(a), Some(&stored(1, 10)));
}
