//! The order book.
use crate::guarantees::{
    law_buy_submission, law_sell_submission, law_snapshot_levels, law_totals_fit,
};
use crate::ladder::Ladder;
use crate::laws::law_book_stays_valid;
use crate::model::{executes, filled, summarizes, totals_fit, volume, BookView};
use crate::types::{Fill, Order, PriceLevel, Side};
use vstd::prelude::*;

verus! {

/// The resting orders of both sides of a market, matched by price and then by time.
#[derive(Debug)]
pub struct OrderBook {
    /// Resting buy orders; the highest price is the best.
    bids: Ladder,
    /// Resting sell orders; the lowest price is the best.
    asks: Ladder,
}

impl View for OrderBook {
    type V = BookView;

    closed spec fn view(&self) -> BookView {
        BookView { bids: self.bids@, asks: self.asks@ }
    }
}

impl Default for OrderBook {
    fn default() -> (book: OrderBook)
        ensures
            book@ == BookView::empty(),
            book@.bids.len() == 0,
            book@.asks.len() == 0,
    {
        OrderBook { bids: Ladder::new(Side::Buy), asks: Ladder::new(Side::Sell) }
    }
}

impl OrderBook {
    #[verifier::type_invariant]
    spec fn well_formed(self) -> bool {
        &&& self.bids.wf()
        &&& self.bids.side() == Side::Buy
        &&& self.asks.wf()
        &&& self.asks.side() == Side::Sell
        &&& self@.uncrossed()
    }

    proof fn lemma_valid(&self)
        requires
            self.well_formed(),
        ensures
            self@.valid(),
    {
        self.bids.lemma_valid();
        self.asks.lemma_valid();
    }

    /// A book without orders.
    pub fn new() -> (book: OrderBook)
        ensures
            book@ == BookView::empty(),
            book@.bids.len() == 0,
            book@.asks.len() == 0,
    {
        OrderBook::default()
    }

    /// Matches the incoming order against the resting orders and returns the fills. What is left
    /// of it is added to the book.
    pub fn submit(&mut self, taker: Order) -> (fills: Vec<Fill>)
        ensures
            old(self)@.valid(),
            final(self)@.valid(),
            executes(taker, old(self)@.makers_for(taker.side), fills@),
            final(self)@ == old(self)@.submitted(taker, fills@),
            taker.side is Buy ==> {
                let asks = old(self)@.asks;
                let bids = old(self)@.bids;
                let asks_after = final(self)@.asks;
                let bids_after = final(self)@.bids;
                let fills = fills@;
                let n = fills.len() as int;
                &&& n <= asks.len()
                &&& forall|i: int| 0 <= i < n ==> (#[trigger] fills[i]).price <= taker.price
                &&& forall|i: int|
                    0 <= i < n ==> {
                        let fill = #[trigger] fills[i];
                        &&& fill.maker_order_id == asks[i].id
                        &&& fill.taker_order_id == taker.id
                        &&& fill.price == asks[i].price
                        &&& 0 < fill.qty <= asks[i].qty
                        &&& i < n - 1 ==> fill.qty == asks[i].qty
                    }
                &&& (forall|i: int|
                    0 <= i < asks.len() ==> (#[trigger] asks[i]).price > taker.price) ==> n == 0
                &&& taker.qty > 0 && asks.len() > 0 && asks[0].price <= taker.price ==> n > 0
                &&& filled(fills) <= taker.qty
                &&& filled(fills) < taker.qty ==> {
                    &&& n > 0 ==> fills[n - 1].qty == asks[n - 1].qty
                    &&& forall|i: int|
                        n <= i < asks.len() ==> (#[trigger] asks[i]).price > taker.price
                }
                &&& asks_after == (if n > 0 && fills[n - 1].qty < asks[n - 1].qty {
                    let kept = (asks[n - 1].qty - fills[n - 1].qty) as u64;
                    asks.skip(n - 1).update(0, Order { qty: kept, ..asks[n - 1] })
                } else {
                    asks.skip(n)
                })
                &&& filled(fills) == taker.qty ==> bids_after == bids
                &&& filled(fills) < taker.qty ==> {
                    let rest = Order {
                        id: taker.id,
                        side: taker.side,
                        price: taker.price,
                        qty: (taker.qty - filled(fills)) as u64,
                        seq: taker.seq,
                    };
                    exists|k: int|
                        {
                            &&& 0 <= k <= bids.len()
                            &&& bids_after == #[trigger] bids.insert(k, rest)
                            &&& forall|i: int|
                                0 <= i < k ==> (#[trigger] bids[i]).price >= taker.price
                            &&& forall|i: int|
                                k <= i < bids.len() ==> (#[trigger] bids[i]).price < taker.price
                        }
                }
            },
            taker.side is Sell ==> {
                let bids = old(self)@.bids;
                let asks = old(self)@.asks;
                let bids_after = final(self)@.bids;
                let asks_after = final(self)@.asks;
                let fills = fills@;
                let n = fills.len() as int;
                &&& n <= bids.len()
                &&& forall|i: int| 0 <= i < n ==> (#[trigger] fills[i]).price >= taker.price
                &&& forall|i: int|
                    0 <= i < n ==> {
                        let fill = #[trigger] fills[i];
                        &&& fill.maker_order_id == bids[i].id
                        &&& fill.taker_order_id == taker.id
                        &&& fill.price == bids[i].price
                        &&& 0 < fill.qty <= bids[i].qty
                        &&& i < n - 1 ==> fill.qty == bids[i].qty
                    }
                &&& (forall|i: int|
                    0 <= i < bids.len() ==> (#[trigger] bids[i]).price < taker.price) ==> n == 0
                &&& taker.qty > 0 && bids.len() > 0 && bids[0].price >= taker.price ==> n > 0
                &&& filled(fills) <= taker.qty
                &&& filled(fills) < taker.qty ==> {
                    &&& n > 0 ==> fills[n - 1].qty == bids[n - 1].qty
                    &&& forall|i: int|
                        n <= i < bids.len() ==> (#[trigger] bids[i]).price < taker.price
                }
                &&& bids_after == (if n > 0 && fills[n - 1].qty < bids[n - 1].qty {
                    let kept = (bids[n - 1].qty - fills[n - 1].qty) as u64;
                    bids.skip(n - 1).update(0, Order { qty: kept, ..bids[n - 1] })
                } else {
                    bids.skip(n)
                })
                &&& filled(fills) == taker.qty ==> asks_after == asks
                &&& filled(fills) < taker.qty ==> {
                    let rest = Order {
                        id: taker.id,
                        side: taker.side,
                        price: taker.price,
                        qty: (taker.qty - filled(fills)) as u64,
                        seq: taker.seq,
                    };
                    exists|k: int|
                        {
                            &&& 0 <= k <= asks.len()
                            &&& asks_after == #[trigger] asks.insert(k, rest)
                            &&& forall|i: int|
                                0 <= i < k ==> (#[trigger] asks[i]).price <= taker.price
                            &&& forall|i: int|
                                k <= i < asks.len() ==> (#[trigger] asks[i]).price > taker.price
                        }
                }
            },
    {
        proof {
            use_type_invariant(&*self);
            self.lemma_valid();
        }
        let ghost incoming = taker;
        let ghost before = self@;
        match taker.side {
            Side::Buy => {
                let mut asks = Ladder::new(Side::Sell);
                std::mem::swap(&mut self.asks, &mut asks);
                let (fills, remainder) = asks.execute(taker);
                proof {
                    law_book_stays_valid(before, incoming, fills@);
                    law_buy_submission(before, incoming, fills@);
                }
                if remainder.qty > 0 {
                    let mut bids = Ladder::new(Side::Buy);
                    std::mem::swap(&mut self.bids, &mut bids);
                    bids.rest(remainder);
                    self.bids = bids;
                }
                self.asks = asks;
                fills
            },
            Side::Sell => {
                let mut bids = Ladder::new(Side::Buy);
                std::mem::swap(&mut self.bids, &mut bids);
                let (fills, remainder) = bids.execute(taker);
                proof {
                    law_book_stays_valid(before, incoming, fills@);
                    law_sell_submission(before, incoming, fills@);
                }
                if remainder.qty > 0 {
                    let mut asks = Ladder::new(Side::Sell);
                    std::mem::swap(&mut self.asks, &mut asks);
                    asks.rest(remainder);
                    self.asks = asks;
                }
                self.bids = bids;
                fills
            },
        }
    }

    /// The total quantity at each bid price, highest price first.
    pub fn bids_snapshot(&self) -> (levels: Vec<PriceLevel>)
        requires
            totals_fit(self@.bids),
        ensures
            self@.valid(),
            summarizes(Side::Buy, self@.bids, levels@),
            forall|i: int, j: int|
                0 <= i < j < levels@.len() ==> (#[trigger] levels@[i]).price > (
                #[trigger] levels@[j]).price,
            forall|i: int|
                0 <= i < levels@.len() ==> (#[trigger] levels@[i]).qty == volume(
                    self@.bids.filter(|o: Order| o.price == levels@[i].price),
                ),
            forall|i: int|
                0 <= i < levels@.len() ==> self@.bids.map_values(|o: Order| o.price).contains(
                    (#[trigger] levels@[i]).price,
                ),
            forall|k: int|
                0 <= k < self@.bids.len() ==> levels@.map_values(|l: PriceLevel| l.price).contains(
                    (#[trigger] self@.bids[k]).price,
                ),
    {
        self.checked_bids_snapshot().unwrap()
    }

    /// The total quantity at each ask price, lowest price first.
    pub fn asks_snapshot(&self) -> (levels: Vec<PriceLevel>)
        requires
            totals_fit(self@.asks),
        ensures
            self@.valid(),
            summarizes(Side::Sell, self@.asks, levels@),
            forall|i: int, j: int|
                0 <= i < j < levels@.len() ==> (#[trigger] levels@[i]).price < (
                #[trigger] levels@[j]).price,
            forall|i: int|
                0 <= i < levels@.len() ==> (#[trigger] levels@[i]).qty == volume(
                    self@.asks.filter(|o: Order| o.price == levels@[i].price),
                ),
            forall|i: int|
                0 <= i < levels@.len() ==> self@.asks.map_values(|o: Order| o.price).contains(
                    (#[trigger] levels@[i]).price,
                ),
            forall|k: int|
                0 <= k < self@.asks.len() ==> levels@.map_values(|l: PriceLevel| l.price).contains(
                    (#[trigger] self@.asks[k]).price,
                ),
    {
        self.checked_asks_snapshot().unwrap()
    }

    /// As `bids_snapshot`, or `None` if the total quantity at a price exceeds `u64::MAX`.
    pub fn checked_bids_snapshot(&self) -> (levels: Option<Vec<PriceLevel>>)
        ensures
            self@.valid(),
            levels is Some <==> totals_fit(self@.bids),
            levels matches Some(levels) ==> summarizes(Side::Buy, self@.bids, levels@),
            levels is Some <==> forall|k: int|
                #![trigger self@.bids[k]]
                0 <= k < self@.bids.len() ==> volume(
                    self@.bids.filter(|o: Order| o.price == self@.bids[k].price),
                ) <= u64::MAX,
            levels matches Some(levels) ==> {
                &&& forall|i: int, j: int|
                    0 <= i < j < levels@.len() ==> (#[trigger] levels@[i]).price > (
                    #[trigger] levels@[j]).price
                &&& forall|i: int|
                    0 <= i < levels@.len() ==> (#[trigger] levels@[i]).qty == volume(
                        self@.bids.filter(|o: Order| o.price == levels@[i].price),
                    )
                &&& forall|i: int|
                    0 <= i < levels@.len() ==> self@.bids.map_values(|o: Order| o.price).contains(
                        (#[trigger] levels@[i]).price,
                    )
                &&& forall|k: int|
                    0 <= k < self@.bids.len() ==> levels@.map_values(|l: PriceLevel| l.price).contains(
                        (#[trigger] self@.bids[k]).price,
                    )
            },
    {
        proof {
            use_type_invariant(self);
            self.lemma_valid();
        }
        let levels = self.bids.summary();
        proof {
            law_totals_fit(self@.bids);
            if levels is Some {
                law_snapshot_levels(Side::Buy, self@.bids, levels->0@);
            }
        }
        levels
    }

    /// As `asks_snapshot`, or `None` if the total quantity at a price exceeds `u64::MAX`.
    pub fn checked_asks_snapshot(&self) -> (levels: Option<Vec<PriceLevel>>)
        ensures
            self@.valid(),
            levels is Some <==> totals_fit(self@.asks),
            levels matches Some(levels) ==> summarizes(Side::Sell, self@.asks, levels@),
            levels is Some <==> forall|k: int|
                #![trigger self@.asks[k]]
                0 <= k < self@.asks.len() ==> volume(
                    self@.asks.filter(|o: Order| o.price == self@.asks[k].price),
                ) <= u64::MAX,
            levels matches Some(levels) ==> {
                &&& forall|i: int, j: int|
                    0 <= i < j < levels@.len() ==> (#[trigger] levels@[i]).price < (
                    #[trigger] levels@[j]).price
                &&& forall|i: int|
                    0 <= i < levels@.len() ==> (#[trigger] levels@[i]).qty == volume(
                        self@.asks.filter(|o: Order| o.price == levels@[i].price),
                    )
                &&& forall|i: int|
                    0 <= i < levels@.len() ==> self@.asks.map_values(|o: Order| o.price).contains(
                        (#[trigger] levels@[i]).price,
                    )
                &&& forall|k: int|
                    0 <= k < self@.asks.len() ==> levels@.map_values(|l: PriceLevel| l.price).contains(
                        (#[trigger] self@.asks[k]).price,
                    )
            },
    {
        proof {
            use_type_invariant(self);
            self.lemma_valid();
        }
        let levels = self.asks.summary();
        proof {
            law_totals_fit(self@.asks);
            if levels is Some {
                law_snapshot_levels(Side::Sell, self@.asks, levels->0@);
            }
        }
        levels
    }
}

} // verus!
