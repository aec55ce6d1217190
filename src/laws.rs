//! Properties of the order book that relate its operations.
use vstd::prelude::*;

use crate::order_book::{
    at_least_as_good, cancelled, crosses, lemma_match, lemma_remove_wf, lemma_rest_pos,
    lemma_sides_after, lemma_sides_swap, match_spec, opposite, queue_wf, rest_pos, submit_spec,
    traded, valid_order, BookState, Order, OrderSide,
};
use crate::price::Price;

verus! {

/// The total size left to fill over a queue.
pub open spec fn total_size(q: Seq<Order>) -> nat
    decreases q.len(),
{
    if q.len() == 0 {
        0
    } else {
        q[0].size as nat + total_size(q.drop_first())
    }
}

proof fn lemma_total_size_update_front(q: Seq<Order>, o: Order)
    requires
        q.len() > 0,
    ensures
        total_size(q.update(0, o)) + q[0].size == total_size(q) + o.size,
{
    reveal_with_fuel(total_size, 2);
    assert(q.update(0, o).drop_first() =~= q.drop_first());
}

/// What matching takes from the resting orders equals what the incoming order
/// loses, and both equal the sizes traded.
proof fn lemma_match_conserves(
    opp: Seq<Order>,
    side: OrderSide,
    limit: Price,
    size: nat,
    taker_id: u64,
    seq: int,
)
    requires
        queue_wf(opp, opposite(side)),
    ensures
        ({
            let m = match_spec(opp, side, limit, size, taker_id, seq);
            &&& total_size(opp) == total_size(m.rest) + traded(m.trades)
            &&& size == m.left + traded(m.trades)
        }),
    decreases opp.len(),
{
    lemma_match(opp, side, limit, size, taker_id, seq);
    reveal_with_fuel(traded, 2);
    reveal_with_fuel(total_size, 2);
    if size == 0 || opp.len() == 0 || !crosses(side, limit, opp[0].price) {
    } else {
        let m = opp[0];
        if size < m.size {
            let reduced = Order {
                id: m.id,
                side: m.side,
                price: m.price,
                original_size: m.original_size,
                size: (m.size - size) as u64,
                owner: m.owner,
            };
            lemma_total_size_update_front(opp, reduced);
        } else {
            let tail = opp.drop_first();
            assert(queue_wf(tail, opposite(side))) by {
                assert forall|i: int, j: int| 0 <= i < j < tail.len() implies
                    at_least_as_good(opposite(side), (#[trigger] tail[i]).price, (#[trigger] tail[j]).price)
                    && (tail[i].price.units() == tail[j].price.units() ==> tail[i].id < tail[j].id) by {
                    assert(tail[i] == opp[i + 1] && tail[j] == opp[j + 1]);
                }
            }
            lemma_match_conserves(tail, side, limit, (size - m.size) as nat, taker_id, seq + 1);
            let r = match_spec(opp, side, limit, size, taker_id, seq);
            assert(r.trades.drop_first() =~= match_spec(tail, side, limit, (size - m.size) as nat, taker_id, seq + 1).trades);
        }
    }
}

/// After any submission of a valid order to a well-formed book, the book is
/// well formed, and in particular the best bid is strictly below the best ask
/// or one side is empty.
pub proof fn lemma_submit_keeps_uncrossed(b: BookState, side: OrderSide, price: Price, size: u64, owner: u64)
    requires
        b.wf(),
        b.has_capacity(),
        valid_order(price, size),
    ensures
        submit_spec(b, side, price, size, owner).0.wf(),
        submit_spec(b, side, price, size, owner).0.no_cross(),
{
    lemma_sides_swap(b.bids, b.asks, b.next_id);
    let seq = b.next_trade_seq as int;
    match side {
        OrderSide::Bid => lemma_sides_after(b.bids, b.asks, side, b.next_id, price, size, owner, seq),
        OrderSide::Ask => lemma_sides_after(b.asks, b.bids, side, b.next_id, price, size, owner, seq),
    }
    let n = submit_spec(b, side, price, size, owner).0;
    lemma_sides_swap(n.bids, n.asks, n.next_id);
}

/// After any cancellation on a well-formed book, the book is well formed and
/// uncrossed.
pub proof fn lemma_cancel_keeps_uncrossed(b: BookState, id: u64, n: BookState)
    requires
        b.wf(),
        cancelled(b, id, n),
    ensures
        n.wf(),
        n.no_cross(),
{
    lemma_sides_swap(b.bids, b.asks, b.next_id);
    if exists|i: int| 0 <= i < b.bids.len() && (#[trigger] b.bids[i]).id == id && n.bids == b.bids.remove(i) && n.asks == b.asks {
        let i = choose|i: int| 0 <= i < b.bids.len() && (#[trigger] b.bids[i]).id == id && n.bids == b.bids.remove(i) && n.asks == b.asks;
        lemma_remove_wf(b.bids, b.asks, OrderSide::Bid, b.next_id, i);
    } else {
        let i = choose|i: int| 0 <= i < b.asks.len() && (#[trigger] b.asks[i]).id == id && n.asks == b.asks.remove(i) && n.bids == b.bids;
        lemma_remove_wf(b.asks, b.bids, OrderSide::Ask, b.next_id, i);
        lemma_sides_swap(n.bids, n.asks, n.next_id);
    }
}

/// Once an order is cancelled the book no longer holds its id, so cancelling
/// it again fails with `OrderNotFound`.
pub proof fn lemma_cancel_idempotent(b: BookState, id: u64, n: BookState)
    requires
        b.wf(),
        cancelled(b, id, n),
    ensures
        !n.holds(id),
{
    lemma_sides_swap(b.bids, b.asks, b.next_id);
    if exists|i: int| 0 <= i < b.bids.len() && (#[trigger] b.bids[i]).id == id && n.bids == b.bids.remove(i) && n.asks == b.asks {
        let i = choose|i: int| 0 <= i < b.bids.len() && (#[trigger] b.bids[i]).id == id && n.bids == b.bids.remove(i) && n.asks == b.asks;
        lemma_remove_wf(b.bids, b.asks, OrderSide::Bid, b.next_id, i);
        assert forall|j: int| 0 <= j < n.asks.len() implies (#[trigger] n.asks[j]).id != id by {
            assert(b.bids[i].id != b.asks[j].id);
        }
    } else {
        let i = choose|i: int| 0 <= i < b.asks.len() && (#[trigger] b.asks[i]).id == id && n.asks == b.asks.remove(i) && n.bids == b.bids;
        lemma_remove_wf(b.asks, b.bids, OrderSide::Ask, b.next_id, i);
        assert forall|j: int| 0 <= j < n.bids.len() implies (#[trigger] n.bids[j]).id != id by {
            assert(b.asks[i].id != b.bids[j].id);
        }
    }
}

/// A cancellation emits no trade: the trade numbering is unchanged, and every
/// order left in the book is exactly as it was.
pub proof fn lemma_cancel_trades_nothing(b: BookState, id: u64, n: BookState)
    requires
        cancelled(b, id, n),
    ensures
        n.next_trade_seq == b.next_trade_seq,
        forall|j: int| 0 <= j < n.bids.len() ==> holds_order(b.bids, #[trigger] n.bids[j]),
        forall|j: int| 0 <= j < n.asks.len() ==> holds_order(b.asks, #[trigger] n.asks[j]),
{
    if exists|i: int| 0 <= i < b.bids.len() && (#[trigger] b.bids[i]).id == id && n.bids == b.bids.remove(i) && n.asks == b.asks {
        let i = choose|i: int| 0 <= i < b.bids.len() && (#[trigger] b.bids[i]).id == id && n.bids == b.bids.remove(i) && n.asks == b.asks;
        b.bids.remove_ensures(i);
        assert forall|j: int| 0 <= j < n.bids.len() implies holds_order(b.bids, #[trigger] n.bids[j]) by {
            if j >= i {
                assert(n.bids[j] == b.bids[j + 1]);
            }
        }
        assert forall|j: int| 0 <= j < n.asks.len() implies holds_order(b.asks, #[trigger] n.asks[j]) by {
            assert(n.asks[j] == b.asks[j]);
        }
    } else {
        let i = choose|i: int| 0 <= i < b.asks.len() && (#[trigger] b.asks[i]).id == id && n.asks == b.asks.remove(i) && n.bids == b.bids;
        b.asks.remove_ensures(i);
        assert forall|j: int| 0 <= j < n.asks.len() implies holds_order(b.asks, #[trigger] n.asks[j]) by {
            if j >= i {
                assert(n.asks[j] == b.asks[j + 1]);
            }
        }
        assert forall|j: int| 0 <= j < n.bids.len() implies holds_order(b.bids, #[trigger] n.bids[j]) by {
            assert(n.bids[j] == b.bids[j]);
        }
    }
}

/// Whether `o` is one of the orders of `q`.
pub open spec fn holds_order(q: Seq<Order>, o: Order) -> bool {
    exists|i: int| 0 <= i < q.len() && q[i] == o
}

/// Every trade of a submission is at the price of its maker, an order that was
/// resting on the opposing side before the submission.
pub proof fn lemma_trades_at_maker_price(b: BookState, side: OrderSide, price: Price, size: u64, owner: u64)
    requires
        b.wf(),
        valid_order(price, size),
    ensures
        ({
            let trades = submit_spec(b, side, price, size, owner).2;
            let opp = b.queue(opposite(side));
            forall|i: int|
                0 <= i < trades.len() ==> exists|j: int|
                    0 <= j < opp.len() && opp[j].id == (#[trigger] trades[i]).maker_id && opp[j].price
                        == trades[i].price
        }),
{
    lemma_sides_swap(b.bids, b.asks, b.next_id);
    let opp = b.queue(opposite(side));
    lemma_match(opp, side, price, size as nat, b.next_id, b.next_trade_seq as int);
    let trades = submit_spec(b, side, price, size, owner).2;
    assert forall|i: int| 0 <= i < trades.len() implies exists|j: int|
        0 <= j < opp.len() && opp[j].id == (#[trigger] trades[i]).maker_id && opp[j].price == trades[i].price by {
        assert(opp[i].id == trades[i].maker_id);
    }
}

/// What a submission takes from the resting orders, what the incoming order
/// loses, and the sizes of its trades are the same amount.
pub proof fn lemma_submit_conserves(b: BookState, side: OrderSide, price: Price, size: u64, owner: u64)
    requires
        b.wf(),
        valid_order(price, size),
    ensures
        ({
            let (n, resting, trades) = submit_spec(b, side, price, size, owner);
            let left = match resting {
                Some(id) => n.queue(side)[rest_pos(b.queue(side), side, price) as int].size as nat,
                None => 0,
            };
            &&& total_size(b.queue(opposite(side))) == total_size(n.queue(opposite(side))) + traded(trades)
            &&& size == left + traded(trades)
        }),
{
    lemma_sides_swap(b.bids, b.asks, b.next_id);
    let opp = b.queue(opposite(side));
    let own = b.queue(side);
    lemma_match_conserves(opp, side, price, size as nat, b.next_id, b.next_trade_seq as int);
    let m = match_spec(opp, side, price, size as nat, b.next_id, b.next_trade_seq as int);
    if m.left > 0 {
        lemma_rest_pos(own, side, price);
        let o = Order { id: b.next_id, side, price, original_size: size, size: m.left as u64, owner };
        own.insert_ensures(rest_pos(own, side, price) as int, o);
    }
}

/// First come, first served within a price: of two resting orders at the same
/// price, the later one trades only after the earlier one has.
pub proof fn lemma_fifo_within_level(
    b: BookState,
    side: OrderSide,
    price: Price,
    size: u64,
    owner: u64,
    first: int,
    second: int,
    t: int,
)
    requires
        b.wf(),
        valid_order(price, size),
        0 <= first < b.queue(opposite(side)).len(),
        0 <= second < b.queue(opposite(side)).len(),
        b.queue(opposite(side))[first].price.units() == b.queue(opposite(side))[second].price.units(),
        b.queue(opposite(side))[first].id < b.queue(opposite(side))[second].id,
        0 <= t < submit_spec(b, side, price, size, owner).2.len(),
        submit_spec(b, side, price, size, owner).2[t].maker_id == b.queue(opposite(side))[second].id,
    ensures
        exists|s: int|
            0 <= s < t && (#[trigger] submit_spec(b, side, price, size, owner).2[s]).maker_id == b.queue(
                opposite(side),
            )[first].id,
{
    lemma_makers_in_queue_order(b, side, price, size, owner, first, second, t);
}

/// Price before time: of two resting orders, the one at the strictly better
/// price trades before the other, whenever they were submitted.
pub proof fn lemma_price_priority(
    b: BookState,
    side: OrderSide,
    price: Price,
    size: u64,
    owner: u64,
    better: int,
    worse: int,
    t: int,
)
    requires
        b.wf(),
        valid_order(price, size),
        0 <= better < b.queue(opposite(side)).len(),
        0 <= worse < b.queue(opposite(side)).len(),
        !at_least_as_good(
            opposite(side),
            b.queue(opposite(side))[worse].price,
            b.queue(opposite(side))[better].price,
        ),
        0 <= t < submit_spec(b, side, price, size, owner).2.len(),
        submit_spec(b, side, price, size, owner).2[t].maker_id == b.queue(opposite(side))[worse].id,
    ensures
        exists|s: int|
            0 <= s < t && (#[trigger] submit_spec(b, side, price, size, owner).2[s]).maker_id == b.queue(
                opposite(side),
            )[better].id,
{
    lemma_makers_in_queue_order(b, side, price, size, owner, better, worse, t);
}

/// Trades take makers in queue order: the maker of the `t`-th trade is the
/// `t`-th order of the opposing queue, so an order ahead of it traded earlier.
proof fn lemma_makers_in_queue_order(
    b: BookState,
    side: OrderSide,
    price: Price,
    size: u64,
    owner: u64,
    ahead: int,
    behind: int,
    t: int,
)
    requires
        b.wf(),
        0 <= ahead < b.queue(opposite(side)).len(),
        0 <= behind < b.queue(opposite(side)).len(),
        ahead != behind,
        !({
            let q = b.queue(opposite(side));
            &&& at_least_as_good(opposite(side), q[behind].price, q[ahead].price)
            &&& (q[behind].price.units() == q[ahead].price.units() ==> q[behind].id < q[ahead].id)
        }),
        0 <= t < submit_spec(b, side, price, size, owner).2.len(),
        submit_spec(b, side, price, size, owner).2[t].maker_id == b.queue(opposite(side))[behind].id,
    ensures
        exists|s: int|
            0 <= s < t && (#[trigger] submit_spec(b, side, price, size, owner).2[s]).maker_id == b.queue(
                opposite(side),
            )[ahead].id,
{
    lemma_sides_swap(b.bids, b.asks, b.next_id);
    let q = b.queue(opposite(side));
    lemma_match(q, side, price, size as nat, b.next_id, b.next_trade_seq as int);
    let trades = submit_spec(b, side, price, size, owner).2;
    assert(trades[t].maker_id == q[t].id);
    if t != behind {
        if t < behind {
            assert(q[t].id != q[behind].id);
        } else {
            assert(q[behind].id != q[t].id);
        }
    }
    assert(t == behind);
    assert(ahead < behind);
    assert(trades[ahead].maker_id == q[ahead].id);
}

} // verus!
