//! What a caller can rely on, in plain comparisons of the orders, fills and levels.
use crate::laws::{accepted_by, law_fills_respect_limits, shown};
use crate::model::{
    at_price, best_first, better, executes, fill_against, filled, left_resting, lemma_filled,
    lemma_filter_all, lemma_filter_none, lemma_open_taker_does_not_cross, opposite, queued,
    reached, rests_at, shows, summarizes, time_ordered, totals_fit, volume, with_qty, BookView,
};
use crate::types::{Fill, Order, PriceLevel, Side};
use vstd::prelude::*;

verus! {

/// Totals are sums: nothing adds up to nothing, and one more adds its quantity.
pub proof fn law_totals_are_sums(
    orders: Seq<Order>,
    order: Order,
    fills: Seq<Fill>,
    fill: Fill,
    levels: Seq<PriceLevel>,
    level: PriceLevel,
)
    ensures
        volume(Seq::empty()) == 0,
        volume(orders.push(order)) == volume(orders) + order.qty,
        filled(Seq::empty()) == 0,
        filled(fills.push(fill)) == filled(fills) + fill.qty,
        shown(Seq::empty()) == 0,
        shown(levels.push(level)) == shown(levels) + level.qty,
{
    assert(orders.push(order).drop_last() =~= orders);
    assert(fills.push(fill).drop_last() =~= fills);
    assert(levels.push(level).drop_last() =~= levels);
}

/// What a valid book is: bids from the highest price, asks from the lowest, each on its side and
/// for a positive quantity, and every bid below every ask.
pub proof fn law_valid_book(book: BookView)
    ensures
        book.valid() <==> {
            &&& forall|i: int, j: int|
                0 <= i < j < book.bids.len() ==> (#[trigger] book.bids[i]).price >= (
                #[trigger] book.bids[j]).price
            &&& forall|i: int, j: int|
                0 <= i < j < book.asks.len() ==> (#[trigger] book.asks[i]).price <= (
                #[trigger] book.asks[j]).price
            &&& forall|i: int|
                0 <= i < book.bids.len() ==> (#[trigger] book.bids[i]).side is Buy
                    && book.bids[i].qty > 0
            &&& forall|i: int|
                0 <= i < book.asks.len() ==> (#[trigger] book.asks[i]).side is Sell
                    && book.asks[i].qty > 0
            &&& forall|i: int, j: int|
                0 <= i < book.bids.len() && 0 <= j < book.asks.len() ==> (
                #[trigger] book.bids[i]).price < (#[trigger] book.asks[j]).price
        },
{
}

/// Where a price would be queued: behind the orders at that price or a better one.
proof fn lemma_queue_position(side: Side, orders: Seq<Order>, price: u64) -> (k: int)
    requires
        best_first(side, orders),
    ensures
        0 <= k <= orders.len(),
        forall|i: int| 0 <= i < k ==> !better(side, price, (#[trigger] orders[i]).price),
        forall|i: int| k <= i < orders.len() ==> better(side, price, (#[trigger] orders[i]).price),
    decreases orders.len(),
{
    let n = orders.len() as int;
    if n == 0 {
        0
    } else if better(side, price, orders[n - 1].price) {
        let init = orders.drop_last();
        let k = lemma_queue_position(side, init, price);
        assert forall|i: int| 0 <= i < k implies !better(
            side,
            price,
            (#[trigger] orders[i]).price,
        ) by {
            assert(orders[i] == init[i]);
        }
        assert forall|i: int| k <= i < n implies better(
            side,
            price,
            (#[trigger] orders[i]).price,
        ) by {
            if i < n - 1 {
                assert(orders[i] == init[i]);
            }
        }
        k
    } else {
        assert forall|i: int| 0 <= i < n implies !better(
            side,
            price,
            (#[trigger] orders[i]).price,
        ) by {
            if i < n - 1 {
                assert(!better(side, orders[n - 1].price, orders[i].price));
            }
        }
        n
    }
}

/// Filtering with a predicate that holds of the first `k` orders and of no other.
proof fn lemma_filter_front(orders: Seq<Order>, pred: spec_fn(Order) -> bool, k: int)
    requires
        0 <= k <= orders.len(),
        forall|i: int| 0 <= i < k ==> pred(#[trigger] orders[i]),
        forall|i: int| k <= i < orders.len() ==> !pred(#[trigger] orders[i]),
    ensures
        orders.filter(pred) == orders.take(k),
{
    let front = orders.take(k);
    let back = orders.skip(k);
    assert(orders =~= front + back);
    Seq::filter_distributes_over_add(front, back, pred);
    lemma_filter_all(front, pred);
    assert forall|i: int| 0 <= i < back.len() implies !pred(#[trigger] back[i]) by {
        assert(back[i] == orders[k + i]);
    }
    lemma_filter_none(back, pred);
    assert(front + Seq::<Order>::empty() =~= front);
}

/// Filtering with a predicate that holds of none of the first `k` orders and of all others.
proof fn lemma_filter_back(orders: Seq<Order>, pred: spec_fn(Order) -> bool, k: int)
    requires
        0 <= k <= orders.len(),
        forall|i: int| 0 <= i < k ==> !pred(#[trigger] orders[i]),
        forall|i: int| k <= i < orders.len() ==> pred(#[trigger] orders[i]),
    ensures
        orders.filter(pred) == orders.skip(k),
{
    let front = orders.take(k);
    let back = orders.skip(k);
    assert(orders =~= front + back);
    Seq::filter_distributes_over_add(front, back, pred);
    lemma_filter_none(front, pred);
    assert forall|i: int| 0 <= i < back.len() implies pred(#[trigger] back[i]) by {
        assert(back[i] == orders[k + i]);
    }
    lemma_filter_all(back, pred);
    assert(Seq::<Order>::empty() + back =~= back);
}

/// An order that comes to rest is inserted behind the orders at its price or a better one.
proof fn lemma_queued_inserts(side: Side, orders: Seq<Order>, order: Order) -> (k: int)
    requires
        best_first(side, orders),
    ensures
        0 <= k <= orders.len(),
        queued(side, orders, order) == orders.insert(k, order),
        forall|i: int| 0 <= i < k ==> !better(side, order.price, (#[trigger] orders[i]).price),
        forall|i: int|
            k <= i < orders.len() ==> better(side, order.price, (#[trigger] orders[i]).price),
{
    let k = lemma_queue_position(side, orders, order.price);
    lemma_filter_front(orders, |o: Order| !better(side, order.price, o.price), k);
    lemma_filter_back(orders, |o: Order| better(side, order.price, o.price), k);
    assert(queued(side, orders, order) == orders.take(k).push(order) + orders.skip(k));
    assert(orders.take(k).push(order) + orders.skip(k) =~= orders.insert(k, order));
    k
}

/// What the fills do to the makers, as far as it is the same for both sides.
proof fn lemma_submission(book: BookView, taker: Order, fills: Seq<Fill>)
    requires
        book.valid(),
        executes(taker, book.makers_for(taker.side), fills),
    ensures
        filled(fills) <= taker.qty,
        ({
            let makers = book.makers_for(taker.side);
            let n = fills.len() as int;
            &&& forall|i: int|
                0 <= i < fills.len() ==> (#[trigger] fills[i]).taker_order_id == taker.id
                    && fills[i].maker_order_id == makers[i].id
            &&& left_resting(makers, fills) == if n > 0 && fills.last().qty < makers[n - 1].qty {
                makers.skip(n - 1).update(
                    0,
                    with_qty(makers[n - 1], (makers[n - 1].qty - fills.last().qty) as u64),
                )
            } else {
                makers.skip(n)
            }
            &&& filled(fills) < taker.qty && n > 0 ==> fills.last().qty == makers[n - 1].qty
        }),
{
    let makers = book.makers_for(taker.side);
    let n = fills.len() as int;
    lemma_filled(taker, makers, fills);
    law_fills_respect_limits(book, taker, fills);
    assert forall|i: int| 0 <= i < fills.len() implies (#[trigger] fills[i]).taker_order_id
        == taker.id && fills[i].maker_order_id == makers[i].id by {
        assert(fills[i] == fill_against(taker, makers, i));
    }
    if n > 0 {
        let kept = with_qty(makers[n - 1], (makers[n - 1].qty - fills.last().qty) as u64);
        assert(seq![kept] + makers.skip(n) =~= makers.skip(n - 1).update(0, kept));
    } else {
        assert(makers.skip(0) =~= makers);
    }
    if filled(fills) < taker.qty {
        lemma_open_taker_does_not_cross(taker, makers, opposite(taker.side), fills);
        if n > 0 && fills.last().qty < makers[n - 1].qty {
            assert(left_resting(makers, fills).len() == makers.skip(n).len() + 1);
        }
    }
}

/// What a buy order does. It trades with the asks from the front, each at the ask's own price
/// and none above the buy limit, one after the other to the last unit; where it is not satisfied,
/// every ask that is left is above the limit. What is left of it rests behind the bids at its
/// price or a higher one.
pub proof fn law_buy_submission(book: BookView, taker: Order, fills: Seq<Fill>)
    requires
        book.valid(),
        taker.side is Buy,
        executes(taker, book.makers_for(taker.side), fills),
    ensures
        ({
            let asks = book.asks;
            let bids = book.bids;
            let asks_after = book.submitted(taker, fills).asks;
            let bids_after = book.submitted(taker, fills).bids;
            let n = fills.len() as int;
            &&& n <= asks.len()
            &&& forall|i: int| 0 <= i < n ==> (#[trigger] fills[i]).price <= taker.price
            &&& forall|i: int|
                0 <= i < n ==> {
                    let fill = #[trigger] fills[i];
                    &&& fill.maker_order_id == asks[i].id
                    &&& fill.taker_order_id == taker.id
                    &&& fill.price == asks[i].price
                    &&& 0 < fill.qty <= asks[i].qty
                    &&& i < n - 1 ==> fill.qty == asks[i].qty
                }
            &&& (forall|i: int|
                0 <= i < asks.len() ==> (#[trigger] asks[i]).price > taker.price) ==> n == 0
            &&& taker.qty > 0 && asks.len() > 0 && asks[0].price <= taker.price ==> n > 0
            &&& filled(fills) <= taker.qty
            &&& filled(fills) < taker.qty ==> {
                &&& n > 0 ==> fills[n - 1].qty == asks[n - 1].qty
                &&& forall|i: int|
                    n <= i < asks.len() ==> (#[trigger] asks[i]).price > taker.price
            }
            &&& asks_after == (if n > 0 && fills[n - 1].qty < asks[n - 1].qty {
                let kept = (asks[n - 1].qty - fills[n - 1].qty) as u64;
                asks.skip(n - 1).update(0, Order { qty: kept, ..asks[n - 1] })
            } else {
                asks.skip(n)
            })
            &&& filled(fills) == taker.qty ==> bids_after == bids
            &&& filled(fills) < taker.qty ==> {
                let rest = Order {
                    id: taker.id,
                    side: taker.side,
                    price: taker.price,
                    qty: (taker.qty - filled(fills)) as u64,
                    seq: taker.seq,
                };
                exists|k: int|
                    {
                        &&& 0 <= k <= bids.len()
                        &&& bids_after == #[trigger] bids.insert(k, rest)
                        &&& forall|i: int|
                            0 <= i < k ==> (#[trigger] bids[i]).price >= taker.price
                        &&& forall|i: int|
                            k <= i < bids.len() ==> (#[trigger] bids[i]).price < taker.price
                    }
            }
        }),
{
    lemma_submission(book, taker, fills);
    law_fills_respect_limits(book, taker, fills);
    assert(taker.qty > 0 && book.asks.len() > 0 && book.asks[0].price <= taker.price ==> reached(
        taker,
        book.asks,
        0,
    )) by {
        assert(book.asks.take(0) =~= Seq::empty());
    }
    if fills.len() > 0 {
        assert(fills[0].price == book.asks[0].price);
    }
    if filled(fills) < taker.qty {
        let rest = with_qty(taker, (taker.qty - filled(fills)) as u64);
        lemma_open_taker_does_not_cross(taker, book.asks, Side::Sell, fills);
        let k = lemma_queued_inserts(Side::Buy, book.bids, rest);
        assert(book.submitted(taker, fills).bids == book.bids.insert(k, rest));
    }
}

/// What a sell order does. It trades with the bids from the front, each at the bid's own price
/// and none below the sell limit, one after the other to the last unit; where it is not
/// satisfied, every bid that is left is below the limit. What is left of it rests behind the asks
/// at its price or a lower one.
pub proof fn law_sell_submission(book: BookView, taker: Order, fills: Seq<Fill>)
    requires
        book.valid(),
        taker.side is Sell,
        executes(taker, book.makers_for(taker.side), fills),
    ensures
        ({
            let bids = book.bids;
            let asks = book.asks;
            let bids_after = book.submitted(taker, fills).bids;
            let asks_after = book.submitted(taker, fills).asks;
            let n = fills.len() as int;
            &&& n <= bids.len()
            &&& forall|i: int| 0 <= i < n ==> (#[trigger] fills[i]).price >= taker.price
            &&& forall|i: int|
                0 <= i < n ==> {
                    let fill = #[trigger] fills[i];
                    &&& fill.maker_order_id == bids[i].id
                    &&& fill.taker_order_id == taker.id
                    &&& fill.price == bids[i].price
                    &&& 0 < fill.qty <= bids[i].qty
                    &&& i < n - 1 ==> fill.qty == bids[i].qty
                }
            &&& (forall|i: int|
                0 <= i < bids.len() ==> (#[trigger] bids[i]).price < taker.price) ==> n == 0
            &&& taker.qty > 0 && bids.len() > 0 && bids[0].price >= taker.price ==> n > 0
            &&& filled(fills) <= taker.qty
            &&& filled(fills) < taker.qty ==> {
                &&& n > 0 ==> fills[n - 1].qty == bids[n - 1].qty
                &&& forall|i: int|
                    n <= i < bids.len() ==> (#[trigger] bids[i]).price < taker.price
            }
            &&& bids_after == (if n > 0 && fills[n - 1].qty < bids[n - 1].qty {
                let kept = (bids[n - 1].qty - fills[n - 1].qty) as u64;
                bids.skip(n - 1).update(0, Order { qty: kept, ..bids[n - 1] })
            } else {
                bids.skip(n)
            })
            &&& filled(fills) == taker.qty ==> asks_after == asks
            &&& filled(fills) < taker.qty ==> {
                let rest = Order {
                    id: taker.id,
                    side: taker.side,
                    price: taker.price,
                    qty: (taker.qty - filled(fills)) as u64,
                    seq: taker.seq,
                };
                exists|k: int|
                    {
                        &&& 0 <= k <= asks.len()
                        &&& asks_after == #[trigger] asks.insert(k, rest)
                        &&& forall|i: int|
                            0 <= i < k ==> (#[trigger] asks[i]).price <= taker.price
                        &&& forall|i: int|
                            k <= i < asks.len() ==> (#[trigger] asks[i]).price > taker.price
                    }
            }
        }),
{
    lemma_submission(book, taker, fills);
    law_fills_respect_limits(book, taker, fills);
    assert(taker.qty > 0 && book.bids.len() > 0 && book.bids[0].price >= taker.price ==> reached(
        taker,
        book.bids,
        0,
    )) by {
        assert(book.bids.take(0) =~= Seq::empty());
    }
    if fills.len() > 0 {
        assert(fills[0].price == book.bids[0].price);
    }
    if filled(fills) < taker.qty {
        let rest = with_qty(taker, (taker.qty - filled(fills)) as u64);
        lemma_open_taker_does_not_cross(taker, book.bids, Side::Buy, fills);
        let k = lemma_queued_inserts(Side::Sell, book.asks, rest);
        assert(book.submitted(taker, fills).asks == book.asks.insert(k, rest));
    }
}

/// What a snapshot is: bids from the highest price and asks from the lowest, each price once; a
/// level for exactly the prices at which an order rests; and each quantity the sum over the
/// orders of that price.
pub proof fn law_snapshot_levels(side: Side, orders: Seq<Order>, levels: Seq<PriceLevel>)
    requires
        summarizes(side, orders, levels),
    ensures
        side is Buy ==> forall|i: int, j: int|
            0 <= i < j < levels.len() ==> (#[trigger] levels[i]).price > (
            #[trigger] levels[j]).price,
        side is Sell ==> forall|i: int, j: int|
            0 <= i < j < levels.len() ==> (#[trigger] levels[i]).price < (
            #[trigger] levels[j]).price,
        forall|i: int|
            0 <= i < levels.len() ==> (#[trigger] levels[i]).qty == volume(
                orders.filter(|o: Order| o.price == levels[i].price),
            ),
        forall|i: int|
            0 <= i < levels.len() ==> orders.map_values(|o: Order| o.price).contains(
                (#[trigger] levels[i]).price,
            ),
        forall|k: int|
            0 <= k < orders.len() ==> levels.map_values(|l: PriceLevel| l.price).contains(
                (#[trigger] orders[k]).price,
            ),
{
    let order_prices = orders.map_values(|o: Order| o.price);
    let level_prices = levels.map_values(|l: PriceLevel| l.price);
    assert forall|i: int| 0 <= i < levels.len() implies order_prices.contains(
        (#[trigger] levels[i]).price,
    ) by {
        assert(shows(levels, levels[i].price));
        assert(rests_at(orders, levels[i].price));
        let k = choose|k: int|
            0 <= k < orders.len() && (#[trigger] orders[k]).price == levels[i].price;
        assert(order_prices[k] == levels[i].price);
    }
    assert forall|k: int| 0 <= k < orders.len() implies level_prices.contains(
        (#[trigger] orders[k]).price,
    ) by {
        assert(rests_at(orders, orders[k].price));
        assert(shows(levels, orders[k].price));
        let i = choose|i: int|
            0 <= i < levels.len() && (#[trigger] levels[i]).price == orders[k].price;
        assert(level_prices[i] == orders[k].price);
    }
}

/// When there is a snapshot: whenever the quantities at each price at which an order rests add up
/// to a `u64`.
pub proof fn law_totals_fit(orders: Seq<Order>)
    ensures
        totals_fit(orders) <==> forall|k: int|
            #![trigger orders[k]]
            0 <= k < orders.len() ==> volume(orders.filter(|o: Order| o.price == orders[k].price))
                <= u64::MAX,
{
    if totals_fit(orders) {
        assert forall|k: int| #![trigger orders[k]] 0 <= k < orders.len() implies volume(
            orders.filter(|o: Order| o.price == orders[k].price),
        ) <= u64::MAX by {
            assert(volume(at_price(orders, orders[k].price)) <= u64::MAX);
        }
    } else {
        let p = choose|p: u64| volume(#[trigger] at_price(orders, p)) > u64::MAX;
        if forall|k: int| 0 <= k < orders.len() ==> (#[trigger] orders[k]).price != p {
            lemma_filter_none(orders, |o: Order| o.price == p);
            assert(volume(at_price(orders, p)) == 0);
        }
        let k = choose|k: int| 0 <= k < orders.len() && (#[trigger] orders[k]).price == p;
        assert(volume(orders.filter(|o: Order| o.price == orders[k].price)) == volume(
            at_price(orders, p),
        ));
    }
}

/// What it means that orders stand by time: of two at one price, the one ahead has the smaller
/// sequence number. And which orders a matcher has numbered: those up to its last number.
pub proof fn law_time_ordered(orders: Seq<Order>, seq: u64)
    ensures
        time_ordered(orders) <==> forall|i: int, j: int|
            0 <= i < j < orders.len() && (#[trigger] orders[i]).price == (
            #[trigger] orders[j]).price ==> orders[i].seq < orders[j].seq,
        accepted_by(orders, seq) <==> forall|i: int|
            0 <= i < orders.len() ==> (#[trigger] orders[i]).seq <= seq,
{
}

} // verus!
