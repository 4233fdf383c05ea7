use price_level::order::{Order, OrderId, OrderStatus, OrderType, Timestamp};

#[test]
fn new_order_waits_unlinked() {
    let order = Order::new(7, OrderType::BID, 101, 250);
    assert_eq!(order.sequence, 7);
    assert_eq!(order.order_type, OrderType::BID);
    assert_eq!(order.price, 101);
    assert_eq!(order.shares, 250);
    assert_eq!(order.order_status, OrderStatus::WAIT);
    assert_eq!(order.next, None);
    assert_eq!(order.prev, None);
}

#[test]
fn new_order_is_stamped_by_the_clock() {
    let first = Order::new(1, OrderType::ASK, 5, 1);
    let second = Order::new(2, OrderType::ASK, 5, 1);
    // Any working clock reads later than the first of January 2020.
    assert!(first.entry_time.secs > 1_577_836_800);
    assert!(first.entry_time.nanos < 2_000_000_000);
    assert!(second.entry_time.secs >= first.entry_time.secs);
}

#[test]
fn with_entry_time_keeps_every_argument() {
    let at = Timestamp { secs: 1_700_000_000, nanos: 123_456_789 };
    let order = Order::with_entry_time(-3, OrderType::ASK, u64::MAX, u32::MAX, at);
    assert_eq!(
        order,
        Order {
            sequence: -3,
            order_type: OrderType::ASK,
            price: u64::MAX,
            shares: u32::MAX,
            entry_time: at,
            order_status: OrderStatus::WAIT,
            next: None,
            prev: None,
        }
    );
}

#[test]
fn clone_copies_state_and_drops_links() {
    let at = Timestamp { secs: 12, nanos: 34 };
    let mut order = Order::with_entry_time(9, OrderType::BID, 77, 600, at);
    order.order_status = OrderStatus::PARTIAL;
    order.shares = 450;
    order.next = Some(OrderId { slot: 4, generation: 2 });
    order.prev = Some(OrderId { slot: 1, generation: 0 });
    let copy = order.clone();
    assert_eq!(copy.sequence, 9);
    assert_eq!(copy.order_type, OrderType::BID);
    assert_eq!(copy.price, 77);
    assert_eq!(copy.shares, 450);
    assert_eq!(copy.entry_time, at);
    assert_eq!(copy.order_status, OrderStatus::PARTIAL);
    assert_eq!(copy.next, None);
    assert_eq!(copy.prev, None);
    // The original keeps its links.
    assert_eq!(order.next, Some(OrderId { slot: 4, generation: 2 }));
    assert_eq!(order.prev, Some(OrderId { slot: 1, generation: 0 }));
}

#[test]
fn clone_is_independent_of_the_original() {
    let at = Timestamp { secs: 1, nanos: 2 };
    let order = Order::with_entry_time(1, OrderType::BID, 10, 100, at);
    let mut copy = order.clone();
    copy.shares = 40;
    copy.order_status = OrderStatus::CANCEL;
    assert_eq!(order.shares, 100);
    assert_eq!(order.order_status, OrderStatus::WAIT);
}

#[test]
fn only_full_and_cancel_are_terminal() {
    assert!(!OrderStatus::WAIT.terminal());
    assert!(!OrderStatus::PARTIAL.terminal());
    assert!(OrderStatus::FULL.terminal());
    assert!(OrderStatus::CANCEL.terminal());
}
