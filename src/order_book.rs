//! One instrument's order book: bids and asks kept in priority order, and the
//! price-time priority matching of incoming orders against them.
use core::cmp::Ordering;
use vstd::prelude::*;

use crate::price::{compare, Price};

verus! {

/// The side of the book an order rests on.
#[derive(Clone, Copy, Debug, PartialEq, Eq, Structural)]
pub enum OrderSide {
    Ask,
    Bid,
}

/// Why an operation on a book or on the market registry was refused.
#[derive(Clone, Copy, Debug, PartialEq, Eq, Structural)]
pub enum MatchError {
    DuplicateMarket,
    MarketNotFound,
    InvalidOrder,
    OrderNotFound,
}

/// A resting order. Its id is assigned on submission and increases with
/// submission time, so it also serves as the order's time priority.
#[derive(Clone, Copy, Debug)]
pub struct Order {
    pub id: u64,
    pub side: OrderSide,
    pub price: Price,
    pub original_size: u64,
    /// What is left to fill, in lot units.
    pub size: u64,
    /// An opaque reference to whoever submitted the order.
    pub owner: u64,
}

/// One fill between a resting (maker) order and an incoming (taker) order.
#[derive(Clone, Copy, Debug)]
pub struct Trade {
    pub maker_id: u64,
    pub taker_id: u64,
    /// Always the maker's price.
    pub price: Price,
    pub size: u64,
    pub seq: u64,
}

/// What a submission produced: the trades in the order they happened, and the
/// id of the resting remainder, if any of the order is left.
pub struct SubmitResult {
    pub resting_order_id: Option<u64>,
    pub trades: Vec<Trade>,
}

pub open spec fn opposite(side: OrderSide) -> OrderSide {
    match side {
        OrderSide::Bid => OrderSide::Ask,
        OrderSide::Ask => OrderSide::Bid,
    }
}

/// Whether price `a` is at least as good as price `b` for an order on `side`:
/// higher is better for bids, lower for asks.
pub open spec fn at_least_as_good(side: OrderSide, a: Price, b: Price) -> bool {
    match side {
        OrderSide::Bid => a.units() >= b.units(),
        OrderSide::Ask => a.units() <= b.units(),
    }
}

/// Whether an incoming order on `side` with limit `limit` may trade with a
/// resting order (on the other side) at `resting`.
pub open spec fn crosses(side: OrderSide, limit: Price, resting: Price) -> bool {
    at_least_as_good(side, limit, resting)
}

/// A queue of resting orders on `side`, best price first and, within one
/// price, earliest submission first.
pub open spec fn queue_wf(q: Seq<Order>, side: OrderSide) -> bool {
    &&& forall|i: int|
        0 <= i < q.len() ==> {
            &&& (#[trigger] q[i]).side == side
            &&& q[i].price.wf()
            &&& q[i].price.units() > 0
            &&& 0 < q[i].size <= q[i].original_size
        }
    &&& forall|i: int, j: int|
        0 <= i < j < q.len() ==> {
            &&& at_least_as_good(side, (#[trigger] q[i]).price, (#[trigger] q[j]).price)
            &&& q[i].price.units() == q[j].price.units() ==> q[i].id < q[j].id
        }
}

/// Whether some order in `q` has id `id`.
pub open spec fn holds_id(q: Seq<Order>, id: u64) -> bool {
    exists|i: int| 0 <= i < q.len() && (#[trigger] q[i]).id == id
}

/// The ids of `own` and `opp` are pairwise distinct and all below `next_id`.
pub open spec fn ids_wf(own: Seq<Order>, opp: Seq<Order>, next_id: u64) -> bool {
    &&& forall|i: int| 0 <= i < own.len() ==> (#[trigger] own[i]).id < next_id
    &&& forall|i: int| 0 <= i < opp.len() ==> (#[trigger] opp[i]).id < next_id
    &&& forall|i: int, j: int|
        0 <= i < j < own.len() ==> (#[trigger] own[i]).id != (#[trigger] own[j]).id
    &&& forall|i: int, j: int|
        0 <= i < j < opp.len() ==> (#[trigger] opp[i]).id != (#[trigger] opp[j]).id
    &&& forall|i: int, j: int|
        0 <= i < own.len() && 0 <= j < opp.len() ==> (#[trigger] own[i]).id
            != (#[trigger] opp[j]).id
}

/// The best order on `side` does not cross the best order on the other side.
pub open spec fn uncrossed(own: Seq<Order>, opp: Seq<Order>, side: OrderSide) -> bool {
    own.len() > 0 && opp.len() > 0 ==> !crosses(side, own[0].price, opp[0].price)
}

/// A well-formed pair of queues, `own` on `side` and `opp` on the other side.
pub open spec fn sides_wf(own: Seq<Order>, opp: Seq<Order>, side: OrderSide, next_id: u64) -> bool {
    &&& queue_wf(own, side)
    &&& queue_wf(opp, opposite(side))
    &&& uncrossed(own, opp, side)
    &&& ids_wf(own, opp, next_id)
}

/// The abstract state of a book.
pub ghost struct BookState {
    pub bids: Seq<Order>,
    pub asks: Seq<Order>,
    /// The id the next submitted order gets.
    pub next_id: u64,
    /// The sequence number the next trade gets.
    pub next_trade_seq: u64,
}

impl BookState {
    pub open spec fn queue(self, side: OrderSide) -> Seq<Order> {
        match side {
            OrderSide::Bid => self.bids,
            OrderSide::Ask => self.asks,
        }
    }

    /// Both queues in priority order, ids unique, and the best bid strictly
    /// below the best ask whenever both sides hold orders.
    pub open spec fn wf(self) -> bool {
        sides_wf(self.bids, self.asks, OrderSide::Bid, self.next_id)
    }

    /// The best bid is strictly below the best ask, or a side is empty.
    pub open spec fn no_cross(self) -> bool {
        self.bids.len() > 0 && self.asks.len() > 0 ==> self.bids[0].price.units()
            < self.asks[0].price.units()
    }

    /// Room for one more order id and for as many trades as there are
    /// resting orders.
    pub open spec fn has_capacity(self) -> bool {
        &&& self.next_id < u64::MAX
        &&& self.next_trade_seq + self.bids.len() + self.asks.len() <= u64::MAX
    }

    pub open spec fn holds(self, id: u64) -> bool {
        holds_id(self.bids, id) || holds_id(self.asks, id)
    }
}

/// What matching leaves: the opposing queue, the trades in order, and the
/// size of the incoming order still unfilled.
pub ghost struct MatchOutcome {
    pub rest: Seq<Order>,
    pub trades: Seq<Trade>,
    pub left: nat,
}

pub open spec fn trade_of(maker: Order, taker_id: u64, size: nat, seq: int) -> Trade {
    Trade { maker_id: maker.id, taker_id, price: maker.price, size: size as u64, seq: seq as u64 }
}

/// Matching an incoming order on `side` with limit `limit` and size `size`
/// against the opposing queue `opp`: while the incoming order is unfilled and
/// the best opposing order crosses it, trade at the resting order's price for
/// as much as both have, removing resting orders that are filled.
pub open spec fn match_spec(
    opp: Seq<Order>,
    side: OrderSide,
    limit: Price,
    size: nat,
    taker_id: u64,
    seq: int,
) -> MatchOutcome
    decreases opp.len(),
{
    if size == 0 || opp.len() == 0 || !crosses(side, limit, opp[0].price) {
        MatchOutcome { rest: opp, trades: seq![], left: size }
    } else {
        let m = opp[0];
        if size < m.size {
            let reduced = Order {
                id: m.id,
                side: m.side,
                price: m.price,
                original_size: m.original_size,
                size: (m.size - size) as u64,
                owner: m.owner,
            };
            MatchOutcome {
                rest: opp.update(0, reduced),
                trades: seq![trade_of(m, taker_id, size, seq)],
                left: 0,
            }
        } else {
            let r = match_spec(opp.drop_first(), side, limit, (size - m.size) as nat, taker_id, seq + 1);
            MatchOutcome {
                rest: r.rest,
                trades: seq![trade_of(m, taker_id, m.size as nat, seq)] + r.trades,
                left: r.left,
            }
        }
    }
}

/// The place a new order at `price` takes in the queue `q` on `side`: behind
/// every order at a price at least as good.
pub open spec fn rest_pos(q: Seq<Order>, side: OrderSide, price: Price) -> nat
    decreases q.len(),
{
    if q.len() == 0 || !at_least_as_good(side, q[0].price, price) {
        0
    } else {
        1 + rest_pos(q.drop_first(), side, price)
    }
}

/// The sum of the sizes of `trades`.
pub open spec fn traded(trades: Seq<Trade>) -> nat
    decreases trades.len(),
{
    if trades.len() == 0 {
        0
    } else {
        trades[0].size as nat + traded(trades.drop_first())
    }
}

/// `a` is `b` with possibly less left to fill.
pub open spec fn same_but_size(a: Order, b: Order) -> bool {
    &&& a.id == b.id
    &&& a.side == b.side
    &&& a.price == b.price
    &&& a.original_size == b.original_size
    &&& a.owner == b.owner
    &&& 0 < a.size <= b.size
}

/// What matching does to the opposing queue and what trades it emits: the
/// remaining queue is the one matched against with a prefix removed and its new front
/// possibly reduced; the i-th trade is against the i-th resting order, at that
/// order's price; each trade but the last fills its maker; the sizes traded add
/// up to what the incoming order lost; and an unfilled remainder no longer
/// crosses the queue.
#[verifier::spinoff_prover]
#[verifier::rlimit(60)]
pub proof fn lemma_match(
    opp: Seq<Order>,
    side: OrderSide,
    limit: Price,
    size: nat,
    taker_id: u64,
    seq: int,
)
    requires
        queue_wf(opp, opposite(side)),
    ensures
        ({
            let r = match_spec(opp, side, limit, size, taker_id, seq);
            let k = opp.len() - r.rest.len();
            &&& r.left <= size
            &&& size == r.left + traded(r.trades)
            &&& 0 <= k <= r.trades.len() <= opp.len()
            &&& r.left > 0 ==> k == r.trades.len()
            &&& forall|i: int|
                0 <= i < r.rest.len() ==> same_but_size(#[trigger] r.rest[i], opp[i + k])
            &&& forall|i: int| 0 < i < r.rest.len() ==> r.rest[i] == opp[i + k]
            &&& r.left > 0 && r.rest.len() > 0 ==> !crosses(side, limit, r.rest[0].price)
            &&& forall|i: int|
                0 <= i < r.trades.len() ==> {
                    &&& (#[trigger] r.trades[i]).maker_id == opp[i].id
                    &&& r.trades[i].taker_id == taker_id
                    &&& r.trades[i].price == opp[i].price
                    &&& r.trades[i].seq == (seq + i) as u64
                    &&& 0 < r.trades[i].size <= opp[i].size
                    &&& crosses(side, limit, opp[i].price)
                    &&& i + 1 < r.trades.len() ==> r.trades[i].size == opp[i].size
                }
        }),
    decreases opp.len(),
{
    reveal_with_fuel(traded, 2);
    if size == 0 || opp.len() == 0 || !crosses(side, limit, opp[0].price) {
    } else {
        let m = opp[0];
        if size < m.size {
            let r = match_spec(opp, side, limit, size, taker_id, seq);
            assert(traded(r.trades) == size) by {
                assert(r.trades.drop_first() =~= seq![]);
            }
        } else {
            let tail = opp.drop_first();
            assert(queue_wf(tail, opposite(side))) by {
                assert forall|i: int, j: int| 0 <= i < j < tail.len() implies
                    at_least_as_good(opposite(side), (#[trigger] tail[i]).price, (#[trigger] tail[j]).price)
                    && (tail[i].price.units() == tail[j].price.units() ==> tail[i].id < tail[j].id) by {
                    assert(tail[i] == opp[i + 1] && tail[j] == opp[j + 1]);
                }
            }
            lemma_match(tail, side, limit, (size - m.size) as nat, taker_id, seq + 1);
            let sub = match_spec(tail, side, limit, (size - m.size) as nat, taker_id, seq + 1);
            let r = match_spec(opp, side, limit, size, taker_id, seq);
            let t = trade_of(m, taker_id, m.size as nat, seq);
            assert(r.trades == seq![t] + sub.trades);
            assert(r.trades.drop_first() =~= sub.trades);
            assert forall|i: int| 0 < i < r.trades.len() implies #[trigger] r.trades[i] == sub.trades[i - 1] by {}
            assert forall|i: int| 0 <= i < r.rest.len() implies same_but_size(#[trigger] r.rest[i], opp[i + (opp.len() - r.rest.len())]) by {
                assert(opp[i + (opp.len() - r.rest.len())] == tail[i + (tail.len() - sub.rest.len())]);
            }
            assert forall|i: int| 0 < i < r.rest.len() implies r.rest[i] == opp[i + (opp.len() - r.rest.len())] by {
                assert(opp[i + (opp.len() - r.rest.len())] == tail[i + (tail.len() - sub.rest.len())]);
            }
            assert forall|i: int| 0 <= i < r.trades.len() implies {
                &&& (#[trigger] r.trades[i]).maker_id == opp[i].id
                &&& r.trades[i].taker_id == taker_id
                &&& r.trades[i].price == opp[i].price
                &&& r.trades[i].seq == (seq + i) as u64
                &&& 0 < r.trades[i].size <= opp[i].size
                &&& crosses(side, limit, opp[i].price)
                &&& i + 1 < r.trades.len() ==> r.trades[i].size == opp[i].size
            } by {
                if i > 0 {
                    assert(sub.trades[i - 1] == r.trades[i]);
                    assert(tail[i - 1] == opp[i]);
                }
            }
        }
    }
}

/// Matches an incoming order against the opposing queue `opp`, as
/// `match_spec` describes, numbering trades from `seq`; returns the unfilled
/// size and the trades.
fn match_incoming(
    opp: &mut Vec<Order>,
    side: OrderSide,
    limit: Price,
    size: u64,
    taker_id: u64,
    seq: u64,
) -> (res: (u64, Vec<Trade>))
    requires
        queue_wf(old(opp)@, opposite(side)),
        limit.wf(),
        seq + old(opp)@.len() <= u64::MAX,
    ensures
        ({
            let m = match_spec(old(opp)@, side, limit, size as nat, taker_id, seq as int);
            &&& final(opp)@ == m.rest
            &&& res.1@ == m.trades
            &&& res.0 == m.left
        }),
{
    let ghost opp0 = opp@;
    let mut left: u64 = size;
    let mut trades: Vec<Trade> = Vec::new();
    let mut crossing: bool = true;
    let mut next_seq: u64 = seq;
    while crossing && left > 0 && opp.len() > 0
        invariant
            forall|i: int| 0 <= i < opp@.len() ==> (#[trigger] opp@[i]).price.wf() && opp@[i].size > 0,
            limit.wf(),
            crossing && left > 0 ==> next_seq + opp@.len() <= u64::MAX,
            !crossing ==> opp@.len() > 0 && !crosses(side, limit, opp@[0].price),
            ({
                let cur = match_spec(opp@, side, limit, left as nat, taker_id, next_seq as int);
                match_spec(opp0, side, limit, size as nat, taker_id, seq as int) == MatchOutcome {
                    rest: cur.rest,
                    trades: trades@ + cur.trades,
                    left: cur.left,
                }
            }),
        decreases left as int + if crossing { 1int } else { 0int },
    {
        let m = opp[0];
        let c = compare(&limit, &m.price);
        let cross = match side {
            OrderSide::Bid => match c {
                Ordering::Less => false,
                _ => true,
            },
            OrderSide::Ask => match c {
                Ordering::Greater => false,
                _ => true,
            },
        };
        let ghost before = opp@;
        let ghost trades_before = trades@;
        if !cross {
            crossing = false;
        } else if left < m.size {
            let reduced = Order {
                id: m.id,
                side: m.side,
                price: m.price,
                original_size: m.original_size,
                size: m.size - left,
                owner: m.owner,
            };
            opp.set(0, reduced);
            let t = Trade { maker_id: m.id, taker_id, price: m.price, size: left, seq: next_seq };
            trades.push(t);
            assert(trades@ + seq![] =~= trades_before + seq![t]);
            next_seq = next_seq + 1;
            left = 0;
        } else {
            opp.remove(0);
            assert(opp@ =~= before.drop_first());
            let t = Trade { maker_id: m.id, taker_id, price: m.price, size: m.size, seq: next_seq };
            trades.push(t);
            left = left - m.size;
            next_seq = next_seq + 1;
            let ghost cur = match_spec(opp@, side, limit, left as nat, taker_id, next_seq as int);
            assert(trades@ + cur.trades =~= trades_before + (seq![t] + cur.trades));
        }
    }
    (left, trades)
}

/// In a queue in priority order, `rest_pos` splits the orders at a price at
/// least as good as `price` from those at a strictly worse one.
pub proof fn lemma_rest_pos(q: Seq<Order>, side: OrderSide, price: Price)
    requires
        queue_wf(q, side),
    ensures
        rest_pos(q, side, price) <= q.len(),
        forall|i: int|
            0 <= i < rest_pos(q, side, price) ==> at_least_as_good(side, (#[trigger] q[i]).price, price),
        forall|i: int|
            rest_pos(q, side, price) <= i < q.len() ==> !at_least_as_good(side, (#[trigger] q[i]).price, price),
    decreases q.len(),
{
    if q.len() == 0 {
    } else if !at_least_as_good(side, q[0].price, price) {
        assert forall|i: int| 0 <= i < q.len() implies !at_least_as_good(side, (#[trigger] q[i]).price, price) by {
            if i > 0 {
                assert(at_least_as_good(side, q[0].price, q[i].price));
            }
        }
    } else {
        let tail = q.drop_first();
        assert(queue_wf(tail, side)) by {
            assert forall|i: int, j: int| 0 <= i < j < tail.len() implies
                at_least_as_good(side, (#[trigger] tail[i]).price, (#[trigger] tail[j]).price)
                && (tail[i].price.units() == tail[j].price.units() ==> tail[i].id < tail[j].id) by {
                assert(tail[i] == q[i + 1] && tail[j] == q[j + 1]);
            }
        }
        lemma_rest_pos(tail, side, price);
        assert forall|i: int| 0 < i < q.len() implies #[trigger] q[i] == tail[i - 1] by {}
    }
}

/// Inserting a new order, with an id above every id in the queue, at
/// `rest_pos` keeps the queue in priority order.
#[verifier::spinoff_prover]
#[verifier::rlimit(60)]
pub proof fn lemma_insert_wf(q: Seq<Order>, side: OrderSide, o: Order)
    requires
        queue_wf(q, side),
        o.side == side,
        o.price.wf(),
        o.price.units() > 0,
        0 < o.size <= o.original_size,
        forall|i: int| 0 <= i < q.len() ==> (#[trigger] q[i]).id < o.id,
    ensures
        queue_wf(q.insert(rest_pos(q, side, o.price) as int, o), side),
{
    lemma_rest_pos(q, side, o.price);
    let k = rest_pos(q, side, o.price) as int;
    let n = q.insert(k, o);
    q.insert_ensures(k, o);
    assert forall|i: int| 0 <= i < n.len() implies n[i] == (if i < k { q[i] } else if i == k { o } else { q[i - 1] }) by {
        if i > k {
            assert(n[(i - 1) + 1] == q[i - 1]);
        }
    }
    assert forall|i: int, j: int| 0 <= i < j < n.len() implies
        at_least_as_good(side, (#[trigger] n[i]).price, (#[trigger] n[j]).price)
        && (n[i].price.units() == n[j].price.units() ==> n[i].id < n[j].id) by {
        if j < k {
        } else if j == k {
        } else if i < k {
            assert(n[j] == q[j - 1]);
        } else if i == k {
            assert(n[j] == q[j - 1]);
        } else {
            assert(n[i] == q[i - 1] && n[j] == q[j - 1]);
        }
    }
}

/// Whether a resting order at `a` is at least as good as `b` on `side`.
fn price_at_least_as_good(side: OrderSide, a: &Price, b: &Price) -> (r: bool)
    requires
        a.wf(),
        b.wf(),
    ensures
        r == at_least_as_good(side, *a, *b),
{
    let c = compare(a, b);
    match side {
        OrderSide::Bid => match c {
            Ordering::Less => false,
            _ => true,
        },
        OrderSide::Ask => match c {
            Ordering::Greater => false,
            _ => true,
        },
    }
}

/// Puts `o` into the queue `q` behind every order at a price at least as good.
fn rest_order(q: &mut Vec<Order>, o: Order)
    requires
        queue_wf(old(q)@, o.side),
        o.price.wf(),
    ensures
        final(q)@ == old(q)@.insert(rest_pos(old(q)@, o.side, o.price) as int, o),
{
    proof {
        lemma_rest_pos(q@, o.side, o.price);
    }
    let mut i: usize = 0;
    let mut found: bool = false;
    while !found && i < q.len()
        invariant
            queue_wf(q@, o.side),
            o.price.wf(),
            0 <= i <= q@.len(),
            forall|j: int| 0 <= j < i ==> at_least_as_good(o.side, (#[trigger] q@[j]).price, o.price),
            found ==> i < q@.len() && !at_least_as_good(o.side, q@[i as int].price, o.price),
        decreases q@.len() - i + if found { 0int } else { 1int },
    {
        if price_at_least_as_good(o.side, &q[i].price, &o.price) {
            i = i + 1;
        } else {
            found = true;
        }
    }
    q.insert(i, o);
}

/// An order may be submitted when its price is a positive decimal in range and
/// its size is positive.
pub open spec fn valid_order(price: Price, size: u64) -> bool {
    price.wf() && price.units() > 0 && size > 0
}

/// The queue on the incoming order's own side after matching left `left`
/// unfilled: the remainder rests behind every order at a price at least as good.
pub open spec fn after_own(
    own: Seq<Order>,
    side: OrderSide,
    price: Price,
    size: u64,
    left: nat,
    id: u64,
    owner: u64,
) -> Seq<Order> {
    if left > 0 {
        let o = Order { id, side, price, original_size: size, size: left as u64, owner };
        own.insert(rest_pos(own, side, price) as int, o)
    } else {
        own
    }
}

/// The book, the id of the resting remainder and the trades after a valid
/// order is submitted to `b`. The incoming order takes the id `b.next_id`.
pub open spec fn submit_spec(
    b: BookState,
    side: OrderSide,
    price: Price,
    size: u64,
    owner: u64,
) -> (BookState, Option<u64>, Seq<Trade>) {
    let m = match_spec(b.queue(opposite(side)), side, price, size as nat, b.next_id, b.next_trade_seq as int);
    let own = after_own(b.queue(side), side, price, size, m.left, b.next_id, owner);
    let next = BookState {
        bids: if side == OrderSide::Bid { own } else { m.rest },
        asks: if side == OrderSide::Bid { m.rest } else { own },
        next_id: (b.next_id + 1) as u64,
        next_trade_seq: (b.next_trade_seq + m.trades.len()) as u64,
    };
    (next, if m.left > 0 { Some(b.next_id) } else { None }, m.trades)
}

/// A book is well formed read from either side.
pub proof fn lemma_sides_swap(bids: Seq<Order>, asks: Seq<Order>, next_id: u64)
    ensures
        sides_wf(bids, asks, OrderSide::Bid, next_id) == sides_wf(asks, bids, OrderSide::Ask, next_id),
{
    assert(ids_wf(bids, asks, next_id) == ids_wf(asks, bids, next_id)) by {
        if ids_wf(bids, asks, next_id) {
            assert forall|i: int, j: int| 0 <= i < asks.len() && 0 <= j < bids.len() implies (#[trigger] asks[i]).id != (#[trigger] bids[j]).id by {
                assert(bids[j].id != asks[i].id);
            }
        }
        if ids_wf(asks, bids, next_id) {
            assert forall|i: int, j: int| 0 <= i < bids.len() && 0 <= j < asks.len() implies (#[trigger] bids[i]).id != (#[trigger] asks[j]).id by {
                assert(asks[j].id != bids[i].id);
            }
        }
    }
}

/// A queue cut from the front of a well-formed queue, its new front possibly
/// reduced, is well formed, with the same ids in the same places.
#[verifier::spinoff_prover]
#[verifier::rlimit(60)]
pub proof fn lemma_rest_wf(opp: Seq<Order>, rest: Seq<Order>, k: int, os: OrderSide)
    requires
        queue_wf(opp, os),
        0 <= k,
        rest.len() + k == opp.len(),
        forall|i: int| 0 <= i < rest.len() ==> same_but_size(#[trigger] rest[i], opp[i + k]),
        forall|i: int, j: int| 0 <= i < j < opp.len() ==> (#[trigger] opp[i]).id != (#[trigger] opp[j]).id,
    ensures
        queue_wf(rest, os),
        forall|i: int| 0 <= i < rest.len() ==> (#[trigger] rest[i]).id == opp[i + k].id,
        forall|i: int, j: int| 0 <= i < j < rest.len() ==> (#[trigger] rest[i]).id != (#[trigger] rest[j]).id,
{
    assert forall|i: int| 0 <= i < rest.len() implies {
        &&& (#[trigger] rest[i]).side == os
        &&& rest[i].price.wf()
        &&& rest[i].price.units() > 0
        &&& 0 < rest[i].size <= rest[i].original_size
    } by {
        assert(same_but_size(rest[i], opp[i + k]));
    }
    assert forall|i: int, j: int| 0 <= i < j < rest.len() implies {
        &&& at_least_as_good(os, (#[trigger] rest[i]).price, (#[trigger] rest[j]).price)
        &&& rest[i].price.units() == rest[j].price.units() ==> rest[i].id < rest[j].id
    } by {
        assert(same_but_size(rest[i], opp[i + k]));
        assert(same_but_size(rest[j], opp[j + k]));
    }
    assert forall|i: int, j: int| 0 <= i < j < rest.len() implies (#[trigger] rest[i]).id != (#[trigger] rest[j]).id by {
        assert(same_but_size(rest[i], opp[i + k]));
        assert(same_but_size(rest[j], opp[j + k]));
        assert(opp[i + k].id != opp[j + k].id);
    }
}

/// The incoming order's own queue stays well formed once its remainder rests,
/// its ids stay distinct from those of `others`, and its front is the old front
/// or the new order.
#[verifier::spinoff_prover]
#[verifier::rlimit(60)]
pub proof fn lemma_own_after(
    own: Seq<Order>,
    others: Seq<Order>,
    side: OrderSide,
    price: Price,
    size: u64,
    left: nat,
    id: u64,
    owner: u64,
)
    requires
        queue_wf(own, side),
        valid_order(price, size),
        left <= size,
        id < u64::MAX,
        forall|i: int| 0 <= i < own.len() ==> (#[trigger] own[i]).id < id,
        forall|i: int| 0 <= i < others.len() ==> (#[trigger] others[i]).id < id,
        forall|i: int, j: int| 0 <= i < j < own.len() ==> (#[trigger] own[i]).id != (#[trigger] own[j]).id,
        forall|i: int, j: int|
            0 <= i < own.len() && 0 <= j < others.len() ==> (#[trigger] own[i]).id != (#[trigger] others[j]).id,
    ensures
        ({
            let own2 = after_own(own, side, price, size, left, id, owner);
            &&& queue_wf(own2, side)
            &&& forall|i: int| 0 <= i < own2.len() ==> (#[trigger] own2[i]).id < id + 1
            &&& forall|i: int, j: int| 0 <= i < j < own2.len() ==> (#[trigger] own2[i]).id != (#[trigger] own2[j]).id
            &&& forall|i: int, j: int|
                0 <= i < own2.len() && 0 <= j < others.len() ==> (#[trigger] own2[i]).id != (#[trigger] others[j]).id
            &&& own2.len() > 0 ==> (own.len() > 0 && own2[0] == own[0]) || (left > 0 && own2[0].price == price)
        }),
{
    let own2 = after_own(own, side, price, size, left, id, owner);
    if left > 0 {
        let o = Order { id, side, price, original_size: size, size: left as u64, owner };
        let pos = rest_pos(own, side, price) as int;
        lemma_rest_pos(own, side, price);
        lemma_insert_wf(own, side, o);
        own.insert_ensures(pos, o);
        assert forall|i: int| 0 <= i < own2.len() implies #[trigger] own2[i] == (if i < pos { own[i] } else if i == pos { o } else { own[i - 1] }) by {
            if i > pos {
                assert(own2[(i - 1) + 1] == own[i - 1]);
            }
        }
        assert forall|i: int, j: int| 0 <= i < j < own2.len() implies (#[trigger] own2[i]).id != (#[trigger] own2[j]).id by {
            if j < pos {
            } else if j == pos {
                assert(own[i].id < id);
            } else if i < pos {
                assert(own2[j] == own[j - 1]);
            } else if i == pos {
                assert(own2[j] == own[j - 1]);
                assert(own[j - 1].id < id);
            } else {
                assert(own2[i] == own[i - 1] && own2[j] == own[j - 1]);
            }
        }
        assert forall|i: int, j: int| 0 <= i < own2.len() && 0 <= j < others.len() implies (#[trigger] own2[i]).id != (#[trigger] others[j]).id by {
            if i < pos {
                assert(own[i].id != others[j].id);
            } else if i > pos {
                assert(own2[i] == own[i - 1]);
                assert(own[i - 1].id != others[j].id);
            }
        }
        assert forall|i: int| 0 <= i < own2.len() implies (#[trigger] own2[i]).id < id + 1 by {
            if i > pos {
                assert(own2[i] == own[i - 1]);
            }
        }
        if pos > 0 {
            assert(own2[0] == own[0]);
        }
    }
}

/// Submitting a valid order keeps the pair of queues well formed.
#[verifier::spinoff_prover]
#[verifier::rlimit(60)]
pub proof fn lemma_sides_after(
    own: Seq<Order>,
    opp: Seq<Order>,
    side: OrderSide,
    next_id: u64,
    price: Price,
    size: u64,
    owner: u64,
    seq: int,
)
    requires
        sides_wf(own, opp, side, next_id),
        valid_order(price, size),
        next_id < u64::MAX,
    ensures
        ({
            let m = match_spec(opp, side, price, size as nat, next_id, seq);
            sides_wf(
                after_own(own, side, price, size, m.left, next_id, owner),
                m.rest,
                side,
                (next_id + 1) as u64,
            )
        }),
{
    let m = match_spec(opp, side, price, size as nat, next_id, seq);
    lemma_match(opp, side, price, size as nat, next_id, seq);
    let k = opp.len() - m.rest.len();
    let rest = m.rest;
    let os = opposite(side);
    lemma_rest_wf(opp, rest, k, os);
    assert forall|i: int| 0 <= i < rest.len() implies (#[trigger] rest[i]).id < next_id by {
        assert(rest[i].id == opp[i + k].id);
    }
    assert forall|i: int, j: int| 0 <= i < own.len() && 0 <= j < rest.len() implies (#[trigger] own[i]).id != (#[trigger] rest[j]).id by {
        assert(rest[j].id == opp[j + k].id);
    }
    lemma_own_after(own, rest, side, price, size, m.left, next_id, owner);
    let own2 = after_own(own, side, price, size, m.left, next_id, owner);
    assert(uncrossed(own2, rest, side)) by {
        if own2.len() > 0 && rest.len() > 0 {
            assert(same_but_size(rest[0], opp[k]));
            if own.len() > 0 && own2[0] == own[0] {
                if k > 0 {
                    assert(at_least_as_good(os, opp[0].price, opp[k].price));
                }
            }
        }
    }
}

/// `n` is `b` without the order `id`, removed from whichever queue held it,
/// every other order kept in place and no trade numbered.
pub open spec fn cancelled(b: BookState, id: u64, n: BookState) -> bool {
    &&& n.next_id == b.next_id
    &&& n.next_trade_seq == b.next_trade_seq
    &&& {
        ||| exists|i: int|
            0 <= i < b.bids.len() && (#[trigger] b.bids[i]).id == id && n.bids == b.bids.remove(i)
                && n.asks == b.asks
        ||| exists|i: int|
            0 <= i < b.asks.len() && (#[trigger] b.asks[i]).id == id && n.asks == b.asks.remove(i)
                && n.bids == b.bids
    }
}

/// Removing any order keeps the pair of queues well formed.
#[verifier::spinoff_prover]
#[verifier::rlimit(60)]
pub proof fn lemma_remove_wf(own: Seq<Order>, opp: Seq<Order>, side: OrderSide, next_id: u64, i: int)
    requires
        sides_wf(own, opp, side, next_id),
        0 <= i < own.len(),
    ensures
        sides_wf(own.remove(i), opp, side, next_id),
        !holds_id(own.remove(i), own[i].id),
{
    let n = own.remove(i);
    own.remove_ensures(i);
    assert forall|j: int| 0 <= j < n.len() implies #[trigger] n[j] == (if j < i { own[j] } else { own[j + 1] }) by {}
    assert forall|a: int, b: int| 0 <= a < b < n.len() implies
        at_least_as_good(side, (#[trigger] n[a]).price, (#[trigger] n[b]).price)
        && (n[a].price.units() == n[b].price.units() ==> n[a].id < n[b].id)
        && n[a].id != n[b].id by {
        let a2 = if a < i { a } else { a + 1 };
        let b2 = if b < i { b } else { b + 1 };
        assert(n[a] == own[a2] && n[b] == own[b2]);
    }
    assert forall|a: int, b: int| 0 <= a < n.len() && 0 <= b < opp.len() implies (#[trigger] n[a]).id != (#[trigger] opp[b]).id by {
        let a2 = if a < i { a } else { a + 1 };
        assert(n[a] == own[a2]);
    }
    assert(uncrossed(n, opp, side)) by {
        if n.len() > 0 && opp.len() > 0 && i == 0 {
            assert(n[0] == own[1]);
            assert(at_least_as_good(side, own[0].price, own[1].price));
        }
    }
    assert forall|j: int| 0 <= j < n.len() implies (#[trigger] n[j]).id != own[i].id by {
        let j2 = if j < i { j } else { j + 1 };
        assert(n[j] == own[j2]);
    }
}

/// The number of price levels among the first `n` orders of a queue in
/// priority order: one for the first order, and one more at each change of price.
pub open spec fn levels_in(q: Seq<Order>, n: int) -> nat
    decreases n,
{
    if n <= 0 {
        0
    } else if n == 1 {
        1
    } else {
        levels_in(q, n - 1) + if q[n - 1].price.units() == q[n - 2].price.units() {
            0nat
        } else {
            1nat
        }
    }
}

/// The order book of one instrument.
pub struct OrderBook {
    bids: Vec<Order>,
    asks: Vec<Order>,
    next_id: u64,
    next_trade_seq: u64,
}

impl View for OrderBook {
    type V = BookState;

    closed spec fn view(&self) -> BookState {
        BookState {
            bids: self.bids@,
            asks: self.asks@,
            next_id: self.next_id,
            next_trade_seq: self.next_trade_seq,
        }
    }
}

/// The index of the order `id` in `q`, if it is there.
fn find_order(q: &Vec<Order>, id: u64) -> (r: Option<usize>)
    ensures
        r matches Some(i) ==> i < q@.len() && q@[i as int].id == id,
        r is None <==> !holds_id(q@, id),
{
    let mut i: usize = 0;
    while i < q.len()
        invariant
            0 <= i <= q@.len(),
            forall|j: int| 0 <= j < i ==> (#[trigger] q@[j]).id != id,
        decreases q@.len() - i,
    {
        if q[i].id == id {
            return Some(i);
        }
        i = i + 1;
    }
    None
}

/// A copy of the queue `q`.
fn copy_queue(q: &Vec<Order>) -> (r: Vec<Order>)
    ensures
        r@ == q@,
{
    let mut r: Vec<Order> = Vec::new();
    let mut i: usize = 0;
    while i < q.len()
        invariant
            0 <= i <= q@.len(),
            r@ == q@.take(i as int),
        decreases q@.len() - i,
    {
        r.push(q[i]);
        i = i + 1;
        assert(r@ =~= q@.take(i as int));
    }
    assert(q@.take(q@.len() as int) =~= q@);
    r
}

impl OrderBook {
    pub open spec fn wf(&self) -> bool {
        self@.wf()
    }

    /// An empty book; the first order gets id 1.
    pub fn new() -> (r: OrderBook)
        ensures
            r.wf(),
            r@ == (BookState { bids: seq![], asks: seq![], next_id: 1, next_trade_seq: 1 }),
    {
        let r = OrderBook { bids: Vec::new(), asks: Vec::new(), next_id: 1, next_trade_seq: 1 };
        assert(r@.bids =~= seq![] && r@.asks =~= seq![]);
        r
    }

    /// Submits an order: matches it against the opposing side at the resting
    /// orders' prices, best price first and first come first within a price,
    /// then rests what is left at its own price. An order with a price that is
    /// not a positive in-range decimal, or with size zero, is refused and the
    /// book is left as it was.
    pub fn add_order(&mut self, side: OrderSide, price: Price, size: u64, owner: u64) -> (r: Result<SubmitResult, MatchError>)
        requires
            old(self).wf(),
            old(self)@.has_capacity(),
        ensures
            final(self).wf(),
            r is Ok <==> valid_order(price, size),
            r matches Ok(res) ==> submit_spec(old(self)@, side, price, size, owner) == (
            final(self)@,
            res.resting_order_id,
            res.trades@,
            ),
            r matches Err(e) ==> e == MatchError::InvalidOrder && final(self)@ == old(self)@,
    {
        if !price.is_wf() || size == 0 {
            return Err(MatchError::InvalidOrder);
        }
        if !price.is_positive() {
            return Err(MatchError::InvalidOrder);
        }
        let ghost b0 = self@;
        let id = self.next_id;
        let seq = self.next_trade_seq;
        proof {
            lemma_sides_swap(b0.bids, b0.asks, b0.next_id);
            lemma_match(b0.queue(opposite(side)), side, price, size as nat, id, seq as int);
            match side {
                OrderSide::Bid => lemma_sides_after(b0.bids, b0.asks, side, id, price, size, owner, seq as int),
                OrderSide::Ask => lemma_sides_after(b0.asks, b0.bids, side, id, price, size, owner, seq as int),
            }
        }
        let (left, trades) = match side {
            OrderSide::Bid => match_incoming(&mut self.asks, side, price, size, id, seq),
            OrderSide::Ask => match_incoming(&mut self.bids, side, price, size, id, seq),
        };
        let resting = if left > 0 {
            let o = Order { id, side, price, original_size: size, size: left, owner };
            match side {
                OrderSide::Bid => rest_order(&mut self.bids, o),
                OrderSide::Ask => rest_order(&mut self.asks, o),
            }
            Some(id)
        } else {
            None
        };
        self.next_id = id + 1;
        self.next_trade_seq = seq + trades.len() as u64;
        proof {
            lemma_sides_swap(self.bids@, self.asks@, self.next_id);
        }
        Ok(SubmitResult { resting_order_id: resting, trades })
    }

    /// Removes the resting order `id`; fails with `OrderNotFound`, leaving the
    /// book as it was, where no resting order has that id. Never trades.
    pub fn cancel_order(&mut self, id: u64) -> (r: Result<(), MatchError>)
        requires
            old(self).wf(),
        ensures
            final(self).wf(),
            r is Ok <==> old(self)@.holds(id),
            r is Ok ==> cancelled(old(self)@, id, final(self)@),
            r matches Err(e) ==> e == MatchError::OrderNotFound && final(self)@ == old(self)@,
    {
        let ghost b0 = self@;
        proof {
            lemma_sides_swap(b0.bids, b0.asks, b0.next_id);
        }
        match find_order(&self.bids, id) {
            Some(i) => {
                proof {
                    lemma_remove_wf(b0.bids, b0.asks, OrderSide::Bid, b0.next_id, i as int);
                }
                self.bids.remove(i);
                assert(self@.bids == b0.bids.remove(i as int));
                return Ok(());
            },
            None => {},
        }
        match find_order(&self.asks, id) {
            Some(i) => {
                proof {
                    lemma_remove_wf(b0.asks, b0.bids, OrderSide::Ask, b0.next_id, i as int);
                    lemma_sides_swap(b0.bids, b0.asks.remove(i as int), b0.next_id);
                }
                self.asks.remove(i);
                assert(self@.asks == b0.asks.remove(i as int));
                Ok(())
            },
            None => Err(MatchError::OrderNotFound),
        }
    }

    /// The highest bid price, if any bid rests.
    pub fn best_bid(&self) -> (r: Option<Price>)
        ensures
            r == (if self@.bids.len() > 0 { Some(self@.bids[0].price) } else { None::<Price> }),
    {
        if self.bids.len() > 0 {
            Some(self.bids[0].price)
        } else {
            None
        }
    }

    /// The lowest ask price, if any ask rests.
    pub fn best_ask(&self) -> (r: Option<Price>)
        ensures
            r == (if self@.asks.len() > 0 { Some(self@.asks[0].price) } else { None::<Price> }),
    {
        if self.asks.len() > 0 {
            Some(self.asks[0].price)
        } else {
            None
        }
    }

    /// The number of distinct prices at which orders rest on `side`.
    pub fn level_count(&self, side: OrderSide) -> (r: usize)
        requires
            self.wf(),
        ensures
            r == levels_in(self@.queue(side), self@.queue(side).len() as int),
    {
        proof {
            lemma_sides_swap(self@.bids, self@.asks, self@.next_id);
        }
        let q = match side {
            OrderSide::Bid => &self.bids,
            OrderSide::Ask => &self.asks,
        };
        if q.len() == 0 {
            return 0;
        }
        let mut count: usize = 1;
        let mut i: usize = 1;
        while i < q.len()
            invariant
                q@ == self@.queue(side),
                queue_wf(q@, side),
                1 <= i <= q@.len(),
                count == levels_in(q@, i as int),
                count <= i,
            decreases q@.len() - i,
        {
            let c = compare(&q[i].price, &q[i - 1].price);
            match c {
                Ordering::Equal => {},
                _ => {
                    count = count + 1;
                },
            }
            i = i + 1;
        }
        count
    }

    /// The resting orders on `side`, best first.
    pub fn orders(&self, side: OrderSide) -> (r: Vec<Order>)
        ensures
            r@ == self@.queue(side),
    {
        match side {
            OrderSide::Bid => copy_queue(&self.bids),
            OrderSide::Ask => copy_queue(&self.asks),
        }
    }
}

} // verus!
