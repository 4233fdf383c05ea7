//! What holds of a price level after one operation, and after a run of them.
//!
//! The operations of `Limit` say in their contracts how the level after a
//! call relates to the level before it. The theorems here follow a level
//! through such steps.

use crate::limit::{appended, inserted, removed, unlinked, Limit};
use crate::order::{Order, OrderId, OrderStatus};
use crate::queue::{
    handle_at, lemma_remove_keeps_others, lemma_total_shares_push, lemma_total_shares_remove,
    total_shares,
};
use vstd::prelude::*;

verus! {

/// An order that a level takes in arrives without links, becomes the new
/// tail behind the old one, and leaves every other order as it was.
pub proof fn lemma_insert_appends(pre: Limit, order: Order, id: OrderId, post: Limit)
    requires
        pre.wf(),
        post.wf(),
        inserted(pre, order, id, post),
    ensures
        order.is_detached(),
        appended(pre, order, id, post),
{
    let n = pre.ids().len() as int;
    assert(post.ids()[n] == id);
    assert(post@[n] == order);
    assert(post.rests_at(n));
    lemma_total_shares_push(pre@, order);
    assert forall|other: OrderId| #[trigger]
        pre.ids().contains(other) implies post.order_of(other) == (Order {
        next: if pre.tail() == Some(other) {
            Some(id)
        } else {
            pre.order_of(other).next
        },
        ..pre.order_of(other)
    }) by {
        let j = choose|j: int| 0 <= j < n && pre.ids()[j] == other;
        assert(pre.rests_at(j));
        assert(post.rests_at(j));
        assert(post.ids()[j] == other);
        assert(post@[j] == pre@[j]);
    }
}

/// Removing an order moves `head` on to the second order where the first one
/// leaves, moves `tail` back to the last but one where the last one leaves,
/// and ties the two neighbours of an order in the middle to each other. The
/// count drops by one and the volume by the shares the order had left, and
/// the orders that stay keep their state.
pub proof fn lemma_remove_relinks(
    pre: Limit,
    id: OrderId,
    status: OrderStatus,
    gone: Order,
    post: Limit,
)
    requires
        pre.wf(),
        post.wf(),
        removed(pre, id, status, gone, post),
    ensures
        unlinked(pre, id, post),
        gone.shares == pre.order_of(id).shares,
        pre.head() == Some(id) ==> post.head() == handle_at(pre.ids(), 1),
        pre.tail() == Some(id) ==> post.tail() == handle_at(pre.ids(), pre.ids().len() - 2),
        ({
            let k = pre.ids().index_of(id);
            0 < k < pre.ids().len() - 1 ==> {
                &&& post.order_of(pre.ids()[k - 1]).next == Some(pre.ids()[k + 1])
                &&& post.order_of(pre.ids()[k + 1]).prev == Some(pre.ids()[k - 1])
            }
        }),
{
    let k = pre.ids().index_of(id);
    let n = pre.ids().len() as int;
    assert(pre.rests_at(k));
    lemma_total_shares_remove(pre@, k);
    lemma_remove_keeps_others(pre.ids(), k);
    assert forall|other: OrderId| #[trigger]
        post.ids().contains(other) implies post.order_of(other) == (Order {
        next: if pre.order_of(other).next == Some(id) {
            pre.order_of(id).next
        } else {
            pre.order_of(other).next
        },
        prev: if pre.order_of(other).prev == Some(id) {
            pre.order_of(id).prev
        } else {
            pre.order_of(other).prev
        },
        ..pre.order_of(other)
    }) by {
        let j = choose|j: int| 0 <= j < n - 1 && post.ids()[j] == other;
        assert(post.rests_at(j));
        assert(post@[j] == pre@.remove(k)[j]);
        if j < k {
            assert(pre.rests_at(j));
            assert(pre.ids()[j] == other);
        } else {
            assert(pre.rests_at(j + 1));
            assert(pre.ids()[j + 1] == other);
        }
    }
    if 0 < k < n - 1 {
        assert(post.rests_at(k - 1));
        assert(post.rests_at(k));
        assert(post.ids()[k - 1] == pre.ids()[k - 1]);
        assert(post.ids()[k] == pre.ids()[k + 1]);
    }
}

/// Step `i` of a run of inserts: the level after it is well formed and is
/// the level before it with `orders[i]` taken in under `ids[i]`.
pub open spec fn insert_step(
    levels: Seq<Limit>,
    orders: Seq<Order>,
    ids: Seq<OrderId>,
    i: int,
) -> bool {
    levels[i + 1].wf() && inserted(levels[i], orders[i], ids[i], levels[i + 1])
}

/// The first `n` inserts of a run into an empty level leave exactly the
/// first `n` orders in the level, under the first `n` handles.
proof fn lemma_insert_prefix(levels: Seq<Limit>, orders: Seq<Order>, ids: Seq<OrderId>, n: int)
    requires
        levels.len() == orders.len() + 1,
        ids.len() == orders.len(),
        levels[0].wf(),
        levels[0].ids().len() == 0,
        forall|i: int| 0 <= i < orders.len() ==> #[trigger] insert_step(levels, orders, ids, i),
        0 <= n <= orders.len(),
    ensures
        levels[n].wf(),
        levels[n].ids() == ids.subrange(0, n),
        levels[n]@ == orders.subrange(0, n),
    decreases n,
{
    if n == 0 {
        assert(levels[0].ids() =~= ids.subrange(0, 0));
        assert(levels[0]@ =~= orders.subrange(0, 0));
    } else {
        lemma_insert_prefix(levels, orders, ids, n - 1);
        assert(insert_step(levels, orders, ids, n - 1));
        assert(levels[n].ids() =~= ids.subrange(0, n));
        assert(levels[n]@ =~= orders.subrange(0, n));
    }
}

/// A run of inserts into an empty level, each of them taken, leaves a level
/// whose count is the number of inserts and whose volume is the sum of the
/// shares inserted. The level holds the orders in the order of their arrival
/// and loses none; `head` names the first of them and `tail` the last; and
/// following the forward links from `head`, or the backward links from
/// `tail`, passes through every one of them.
pub proof fn lemma_inserts_fill_level(levels: Seq<Limit>, orders: Seq<Order>, ids: Seq<OrderId>)
    requires
        levels.len() == orders.len() + 1,
        ids.len() == orders.len(),
        levels[0].wf(),
        levels[0].ids().len() == 0,
        forall|i: int| 0 <= i < orders.len() ==> #[trigger] insert_step(levels, orders, ids, i),
    ensures
        levels.last().size() == orders.len(),
        levels.last().volume() == total_shares(orders),
        levels.last()@ == orders,
        levels.last().ids() == ids,
        ids.no_duplicates(),
        levels.last().head() == handle_at(ids, 0),
        levels.last().tail() == handle_at(ids, ids.len() - 1),
        forall|i: int|
            0 <= i < ids.len() ==> {
                &&& (#[trigger] levels.last().order_of(ids[i])).next == handle_at(ids, i + 1)
                &&& levels.last().order_of(ids[i]).prev == handle_at(ids, i - 1)
                &&& levels.last().order_of(ids[i]).detached() == orders[i]
            },
{
    let n = orders.len() as int;
    lemma_insert_prefix(levels, orders, ids, n);
    assert(ids.subrange(0, n) =~= ids);
    assert(orders.subrange(0, n) =~= orders);
    let last = levels.last();
    assert forall|i: int| 0 <= i < ids.len() implies {
        &&& (#[trigger] last.order_of(ids[i])).next == handle_at(ids, i + 1)
        &&& last.order_of(ids[i]).prev == handle_at(ids, i - 1)
        &&& last.order_of(ids[i]).detached() == orders[i]
    } by {
        assert(last.rests_at(i));
        assert(last@[i] == orders[i]);
    }
}

/// Step `i` of a run of removals: the level after it is well formed and is
/// the level before it with the order behind `ids[i]` gone.
pub open spec fn remove_step(
    levels: Seq<Limit>,
    ids: Seq<OrderId>,
    statuses: Seq<OrderStatus>,
    gone: Seq<Order>,
    i: int,
) -> bool {
    levels[i + 1].wf() && removed(levels[i], ids[i], statuses[i], gone[i], levels[i + 1])
}

/// After `n` removals of a run, the level holds `n` orders fewer.
proof fn lemma_remove_prefix(
    levels: Seq<Limit>,
    ids: Seq<OrderId>,
    statuses: Seq<OrderStatus>,
    gone: Seq<Order>,
    n: int,
)
    requires
        levels.len() == ids.len() + 1,
        statuses.len() == ids.len(),
        gone.len() == ids.len(),
        levels[0].wf(),
        forall|i: int| 0 <= i < ids.len() ==> #[trigger] remove_step(levels, ids, statuses, gone, i),
        0 <= n <= ids.len(),
    ensures
        levels[n].wf(),
        levels[n].ids().len() == levels[0].ids().len() - n,
    decreases n,
{
    if n > 0 {
        lemma_remove_prefix(levels, ids, statuses, gone, n - 1);
        assert(remove_step(levels, ids, statuses, gone, n - 1));
    }
}

/// Removing as many orders as a level holds, each removal taken, removes
/// every order: the level ends with no order, no volume, and neither `head`
/// nor `tail`.
pub proof fn lemma_removals_empty_level(
    levels: Seq<Limit>,
    ids: Seq<OrderId>,
    statuses: Seq<OrderStatus>,
    gone: Seq<Order>,
)
    requires
        levels.len() == ids.len() + 1,
        statuses.len() == ids.len(),
        gone.len() == ids.len(),
        levels[0].wf(),
        levels[0].size() == ids.len(),
        forall|i: int| 0 <= i < ids.len() ==> #[trigger] remove_step(levels, ids, statuses, gone, i),
    ensures
        levels.last().size() == 0,
        levels.last().volume() == 0,
        levels.last().head() is None,
        levels.last().tail() is None,
        levels.last()@ == Seq::<Order>::empty(),
{
    lemma_remove_prefix(levels, ids, statuses, gone, ids.len() as int);
    assert(levels.last()@ =~= Seq::<Order>::empty());
}

} // verus!
