//! The mathematical model of a price level: a sequence of orders in arrival
//! order, the handles that name them, and the shares they add up to.

use crate::order::{Order, OrderId};
use vstd::prelude::*;

verus! {

/// The handle at position `i` of a queue, or nothing where the queue has no
/// such position.
pub open spec fn handle_at(ids: Seq<OrderId>, i: int) -> Option<OrderId> {
    if 0 <= i < ids.len() {
        Some(ids[i])
    } else {
        None
    }
}

/// The shares that remain over all the orders of a queue.
pub open spec fn total_shares(orders: Seq<Order>) -> nat
    decreases orders.len(),
{
    if orders.len() == 0 {
        0
    } else {
        total_shares(orders.drop_last()) + orders.last().shares as nat
    }
}

/// A queue without repeated handles, once the handle at position `k` is
/// taken out, holds every other handle it held and no more.
pub proof fn lemma_remove_keeps_others(ids: Seq<OrderId>, k: int)
    requires
        ids.no_duplicates(),
        0 <= k < ids.len(),
    ensures
        ids.remove(k).no_duplicates(),
        forall|id: OrderId| #[trigger]
            ids.remove(k).contains(id) <==> ids.contains(id) && id != ids[k],
{
    let rest = ids.remove(k);
    assert forall|id: OrderId| #[trigger] rest.contains(id) <==> ids.contains(id) && id != ids[k] by {
        if rest.contains(id) {
            let j = choose|j: int| 0 <= j < rest.len() && rest[j] == id;
            if j < k {
                assert(ids[j] == id);
            } else {
                assert(ids[j + 1] == id);
            }
        }
        if ids.contains(id) && id != ids[k] {
            let j = choose|j: int| 0 <= j < ids.len() && ids[j] == id;
            if j < k {
                assert(rest[j] == id);
            } else {
                assert(rest[j - 1] == id);
            }
        }
    }
}

/// An order that joins a queue adds its shares to the total.
pub proof fn lemma_total_shares_push(orders: Seq<Order>, order: Order)
    ensures
        total_shares(orders.push(order)) == total_shares(orders) + order.shares,
{
    assert(orders.push(order).drop_last() =~= orders);
}

/// An order that leaves a queue takes its shares out of the total.
pub proof fn lemma_total_shares_remove(orders: Seq<Order>, k: int)
    requires
        0 <= k < orders.len(),
    ensures
        total_shares(orders.remove(k)) == total_shares(orders) - orders[k].shares,
    decreases orders.len(),
{
    if k == orders.len() - 1 {
        assert(orders.remove(k) =~= orders.drop_last());
    } else {
        lemma_total_shares_remove(orders.drop_last(), k);
        assert(orders.remove(k).drop_last() =~= orders.drop_last().remove(k));
    }
}

/// Replacing one order of a queue changes the total by the difference in
/// shares.
pub proof fn lemma_total_shares_update(orders: Seq<Order>, k: int, order: Order)
    requires
        0 <= k < orders.len(),
    ensures
        total_shares(orders.update(k, order)) == total_shares(orders) - orders[k].shares
            + order.shares,
    decreases orders.len(),
{
    if k == orders.len() - 1 {
        assert(orders.update(k, order).drop_last() =~= orders.drop_last());
    } else {
        lemma_total_shares_update(orders.drop_last(), k, order);
        assert(orders.update(k, order).drop_last() =~= orders.drop_last().update(k, order));
    }
}

} // verus!
