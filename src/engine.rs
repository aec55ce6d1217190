//! The market registry: one order book per trading pair, and the routing of
//! orders and cancellations to it.
use vstd::prelude::*;

use crate::order_book::{
    cancelled, submit_spec, valid_order, BookState, MatchError, OrderBook, OrderSide, SubmitResult,
};
use crate::price::Price;

verus! {

/// A trading pair: the base symbol and the quote symbol.
#[derive(Debug)]
pub struct Pair {
    base: String,
    quote: String,
}

impl View for Pair {
    type V = (Seq<char>, Seq<char>);

    closed spec fn view(&self) -> (Seq<char>, Seq<char>) {
        (self.base@, self.quote@)
    }
}

impl Pair {
    pub fn new(base: &str, quote: &str) -> (r: Pair)
        ensures
            r@ == (base@, quote@),
    {
        Pair { base: base.to_owned(), quote: quote.to_owned() }
    }

    /// Whether both symbols are the same.
    pub fn same(&self, other: &Pair) -> (r: bool)
        ensures
            r == (self@ == other@),
    {
        self.base == other.base && self.quote == other.quote
    }
}

impl PartialEq for Pair {
    fn eq(&self, other: &Pair) -> (r: bool) {
        self.same(other)
    }
}

impl vstd::std_specs::cmp::PartialEqSpecImpl for Pair {
    open spec fn obeys_eq_spec() -> bool {
        true
    }

    open spec fn eq_spec(&self, other: &Pair) -> bool {
        self@ == other@
    }
}

impl Eq for Pair {
}

/// The abstract registry: each pair with its book, in the order they were added.
pub type Markets = Seq<((Seq<char>, Seq<char>), BookState)>;

/// Whether the pair `key` has a book in `m`.
pub open spec fn listed(m: Markets, key: (Seq<char>, Seq<char>)) -> bool {
    exists|i: int| 0 <= i < m.len() && (#[trigger] m[i]).0 == key
}

/// The registry of markets.
pub struct Engine {
    markets: Vec<(Pair, OrderBook)>,
}

impl View for Engine {
    type V = Markets;

    closed spec fn view(&self) -> Markets {
        self.markets@.map_values(|e: (Pair, OrderBook)| (e.0@, e.1@))
    }
}

impl Engine {
    /// Each pair is listed once and each book is well formed.
    pub open spec fn wf(&self) -> bool {
        &&& forall|i: int| 0 <= i < self@.len() ==> (#[trigger] self@[i]).1.wf()
        &&& forall|i: int, j: int|
            0 <= i < j < self@.len() ==> (#[trigger] self@[i]).0 != (#[trigger] self@[j]).0
    }

    /// Every book has room for one more submission.
    pub open spec fn has_capacity(&self) -> bool {
        forall|i: int| 0 <= i < self@.len() ==> (#[trigger] self@[i]).1.has_capacity()
    }

    /// A registry with no market.
    pub fn new() -> (r: Engine)
        ensures
            r.wf(),
            r@.len() == 0,
    {
        let r = Engine { markets: Vec::new() };
        assert(r@ =~= Seq::empty());
        r
    }

    /// The number of markets.
    pub fn market_count(&self) -> (r: usize)
        ensures
            r == self@.len(),
    {
        self.markets.len()
    }

    /// Where `pair` stands in the registry, if it is listed.
    fn find(&self, pair: &Pair) -> (r: Option<usize>)
        ensures
            r matches Some(i) ==> i < self@.len() && self@[i as int].0 == pair@,
            r is None <==> !listed(self@, pair@),
    {
        let mut i: usize = 0;
        while i < self.markets.len()
            invariant
                0 <= i <= self@.len(),
                self@.len() == self.markets@.len(),
                forall|j: int| 0 <= j < i ==> (#[trigger] self@[j]).0 != pair@,
            decreases self.markets@.len() - i,
        {
            if self.markets[i].0.same(pair) {
                assert(self@[i as int].0 == pair@);
                return Some(i);
            }
            i = i + 1;
        }
        None
    }

    /// Lists `base`/`quote` with an empty book; fails with `DuplicateMarket`,
    /// changing nothing, where the pair is already listed.
    pub fn add_market(&mut self, base: &str, quote: &str) -> (r: Result<(), MatchError>)
        requires
            old(self).wf(),
        ensures
            final(self).wf(),
            r is Ok <==> !listed(old(self)@, (base@, quote@)),
            r is Ok ==> final(self)@ == old(self)@.push(
                (
                    (base@, quote@),
                    BookState { bids: seq![], asks: seq![], next_id: 1, next_trade_seq: 1 },
                ),
            ),
            r matches Err(e) ==> e == MatchError::DuplicateMarket && final(self)@ == old(self)@,
    {
        let pair = Pair::new(base, quote);
        match self.find(&pair) {
            Some(_) => Err(MatchError::DuplicateMarket),
            None => {
                let book = OrderBook::new();
                self.markets.push((pair, book));
                assert(self@ =~= old(self)@.push(((base@, quote@), book@)));
                Ok(())
            },
        }
    }

    /// Routes an order to the book of `pair`, as `OrderBook::add_order` does;
    /// fails with `MarketNotFound`, changing nothing, where the pair is not listed.
    pub fn submit_order(
        &mut self,
        pair: &Pair,
        side: OrderSide,
        price: Price,
        size: u64,
        owner: u64,
    ) -> (r: Result<SubmitResult, MatchError>)
        requires
            old(self).wf(),
            old(self).has_capacity(),
        ensures
            final(self).wf(),
            final(self)@.len() == old(self)@.len(),
            forall|j: int| 0 <= j < old(self)@.len() ==> (#[trigger] final(self)@[j]).0 == old(self)@[j].0,
            !listed(old(self)@, pair@) ==> (r is Err && r->Err_0 == MatchError::MarketNotFound
                && final(self)@ == old(self)@),
            listed(old(self)@, pair@) ==> (r is Ok <==> valid_order(price, size)),
            r matches Ok(res) ==> exists|i: int|
                0 <= i < old(self)@.len() && (#[trigger] old(self)@[i]).0 == pair@ && ({
                    let (n, resting, trades) = submit_spec(old(self)@[i].1, side, price, size, owner);
                    &&& final(self)@ == old(self)@.update(i, (pair@, n))
                    &&& res.resting_order_id == resting
                    &&& res.trades@ == trades
                }),
            r matches Err(e) ==> final(self)@ == old(self)@,
            r is Err && listed(old(self)@, pair@) ==> r->Err_0 == MatchError::InvalidOrder,
    {
        match self.find(pair) {
            None => Err(MatchError::MarketNotFound),
            Some(i) => {
                let ghost before = self@;
                let mut entry = self.markets.remove(i);
                let r = entry.1.add_order(side, price, size, owner);
                self.markets.insert(i, entry);
                assert(self@ =~= before.update(i as int, (pair@, entry.1@)));
                r
            },
        }
    }

    /// Routes a cancellation to the book of `pair`, as
    /// `OrderBook::cancel_order` does; fails with `MarketNotFound`, changing
    /// nothing, where the pair is not listed.
    pub fn cancel_order(&mut self, pair: &Pair, id: u64) -> (r: Result<(), MatchError>)
        requires
            old(self).wf(),
        ensures
            final(self).wf(),
            final(self)@.len() == old(self)@.len(),
            forall|j: int| 0 <= j < old(self)@.len() ==> (#[trigger] final(self)@[j]).0 == old(self)@[j].0,
            !listed(old(self)@, pair@) ==> r == Err::<(), MatchError>(MatchError::MarketNotFound)
                && final(self)@ == old(self)@,
            listed(old(self)@, pair@) ==> exists|i: int|
                0 <= i < old(self)@.len() && (#[trigger] old(self)@[i]).0 == pair@ && (r is Ok
                    <==> old(self)@[i].1.holds(id)) && (r is Ok ==> final(self)@.len()
                    == old(self)@.len() && final(self)@[i].0 == pair@ && cancelled(
                    old(self)@[i].1,
                    id,
                    final(self)@[i].1,
                ) && forall|j: int|
                    0 <= j < old(self)@.len() && j != i ==> final(self)@[j] == old(self)@[j]) && (
                r is Err ==> r == Err::<(), MatchError>(MatchError::OrderNotFound) && final(self)@
                    == old(self)@),
    {
        match self.find(pair) {
            None => Err(MatchError::MarketNotFound),
            Some(i) => {
                let ghost before = self@;
                let mut entry = self.markets.remove(i);
                let r = entry.1.cancel_order(id);
                self.markets.insert(i, entry);
                assert(self@ =~= before.update(i as int, (pair@, entry.1@)));
                r
            },
        }
    }

    /// The book of `pair`, if it is listed.
    pub fn book(&self, pair: &Pair) -> (r: Option<&OrderBook>)
        ensures
            r is None <==> !listed(self@, pair@),
            r matches Some(b) ==> exists|i: int|
                0 <= i < self@.len() && (#[trigger] self@[i]).0 == pair@ && self@[i].1 == b@,
    {
        match self.find(pair) {
            None => None,
            Some(i) => Some(&self.markets[i].1),
        }
    }
}

} // verus!
