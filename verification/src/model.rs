//! Price-time priority matching, stated over sequences of orders.
//!
//! Each side of the book is modelled as the sequence of its resting orders, the order that
//! trades next first.
use crate::types::{Fill, Order, PriceLevel, Side};
use vstd::prelude::*;

verus! {

/// Whether, on `side` of the book, price `p` trades before price `q`: the highest bid and the
/// lowest ask come first.
pub open spec fn better(side: Side, p: u64, q: u64) -> bool {
    match side {
        Side::Buy => p > q,
        Side::Sell => p < q,
    }
}

/// The side that an order of `side` trades against.
pub open spec fn opposite(side: Side) -> Side {
    match side {
        Side::Buy => Side::Sell,
        Side::Sell => Side::Buy,
    }
}

/// Whether the limit of `taker` allows a trade at `price`.
pub open spec fn crosses(taker: Order, price: u64) -> bool {
    match taker.side {
        Side::Buy => price <= taker.price,
        Side::Sell => price >= taker.price,
    }
}

/// The total quantity of `orders`.
pub open spec fn volume(orders: Seq<Order>) -> nat
    decreases orders.len(),
{
    if orders.len() == 0 {
        0
    } else {
        volume(orders.drop_last()) + orders.last().qty as nat
    }
}

/// The total quantity of `fills`.
pub open spec fn filled(fills: Seq<Fill>) -> nat
    decreases fills.len(),
{
    if fills.len() == 0 {
        0
    } else {
        filled(fills.drop_last()) + fills.last().qty as nat
    }
}

/// The orders of `orders` whose price is `price`, in the same order.
pub open spec fn at_price(orders: Seq<Order>, price: u64) -> Seq<Order> {
    orders.filter(|o: Order| o.price == price)
}

/// Whether an order of `orders` has price `price`.
pub open spec fn rests_at(orders: Seq<Order>, price: u64) -> bool {
    exists|i: int| 0 <= i < orders.len() && (#[trigger] orders[i]).price == price
}

/// Whether `levels` holds a level of price `price`.
pub open spec fn shows(levels: Seq<PriceLevel>, price: u64) -> bool {
    exists|i: int| 0 <= i < levels.len() && (#[trigger] levels[i]).price == price
}

/// Whether `levels` sums up `orders`: a level for each price at which an order rests and for no
/// other, best price first, each with the total quantity at its price.
pub open spec fn summarizes(side: Side, orders: Seq<Order>, levels: Seq<PriceLevel>) -> bool {
    &&& forall|p: u64| #[trigger] rests_at(orders, p) <==> #[trigger] shows(levels, p)
    &&& forall|i: int, j: int|
        0 <= i < j < levels.len() ==> better(
            side,
            (#[trigger] levels[i]).price,
            (#[trigger] levels[j]).price,
        )
    &&& forall|i: int|
        0 <= i < levels.len() ==> (#[trigger] levels[i]).qty == volume(
            at_price(orders, levels[i].price),
        )
}

/// Whether the total quantity at each price is a `u64`.
pub open spec fn totals_fit(orders: Seq<Order>) -> bool {
    forall|p: u64| volume(#[trigger] at_price(orders, p)) <= u64::MAX
}

/// Whether no order of `orders` stands behind one at a worse price.
pub open spec fn best_first(side: Side, orders: Seq<Order>) -> bool {
    forall|i: int, j: int|
        0 <= i < j < orders.len() ==> !better(side, #[trigger] orders[j].price, #[trigger] orders[i].price)
}

/// Whether the orders at each price stand in the order of their sequence numbers.
pub open spec fn time_ordered(orders: Seq<Order>) -> bool {
    forall|i: int, j: int|
        0 <= i < j < orders.len() && (#[trigger] orders[i]).price == (#[trigger] orders[j]).price
            ==> orders[i].seq < orders[j].seq
}

/// Whether `taker` trades against the maker at position `i`: its limit allows the maker's price,
/// and the makers ahead do not satisfy it.
pub open spec fn reached(taker: Order, makers: Seq<Order>, i: int) -> bool {
    crosses(taker, makers[i].price) && volume(makers.take(i)) < taker.qty
}

/// The execution of `taker` against the maker at position `i`: at the maker's price, for as much
/// as the maker has and as the makers ahead leave open.
pub open spec fn fill_against(taker: Order, makers: Seq<Order>, i: int) -> Fill {
    let open = taker.qty - volume(makers.take(i));
    Fill {
        maker_order_id: makers[i].id,
        taker_order_id: taker.id,
        price: makers[i].price,
        qty: if makers[i].qty <= open {
            makers[i].qty
        } else {
            open as u64
        },
    }
}

/// Whether `fills` are the executions of `taker` against `makers`: one for each maker that it
/// reaches, in their order, and no other.
pub open spec fn executes(taker: Order, makers: Seq<Order>, fills: Seq<Fill>) -> bool {
    &&& fills.len() <= makers.len()
    &&& forall|i: int|
        0 <= i < makers.len() ==> (#[trigger] reached(taker, makers, i) <==> i < fills.len())
    &&& forall|i: int|
        0 <= i < fills.len() ==> #[trigger] fills[i] == fill_against(taker, makers, i)
}

/// `order` with its quantity replaced.
pub open spec fn with_qty(order: Order, qty: u64) -> Order {
    Order { qty, ..order }
}

/// What rests of `makers` after `fills`: the makers that were filled are gone, and the last that
/// was reached keeps, in its place, what it was not filled for.
pub open spec fn left_resting(makers: Seq<Order>, fills: Seq<Fill>) -> Seq<Order> {
    if fills.len() == 0 {
        makers
    } else {
        let last = makers[fills.len() - 1];
        let behind = makers.skip(fills.len() as int);
        if fills.last().qty < last.qty {
            seq![with_qty(last, (last.qty - fills.last().qty) as u64)] + behind
        } else {
            behind
        }
    }
}

/// `orders` with `order` added: behind every order at its price or a better one, and ahead of
/// every order at a worse price.
pub open spec fn queued(side: Side, orders: Seq<Order>, order: Order) -> Seq<Order> {
    orders.filter(|o: Order| !better(side, order.price, o.price)).push(order) + orders.filter(
        |o: Order| better(side, order.price, o.price),
    )
}

/// `orders` with what `fills` leave of `taker` added, if anything is left.
pub open spec fn with_remainder(side: Side, orders: Seq<Order>, taker: Order, fills: Seq<Fill>) -> Seq<
    Order,
> {
    if filled(fills) < taker.qty {
        queued(side, orders, with_qty(taker, (taker.qty - filled(fills)) as u64))
    } else {
        orders
    }
}

/// The resting orders of both sides, the order that trades next first.
#[verifier::ext_equal]
pub struct BookView {
    pub bids: Seq<Order>,
    pub asks: Seq<Order>,
}

/// Whether `orders` can rest on `side`: all are of that side, none is empty, best price first.
pub open spec fn valid_side(side: Side, orders: Seq<Order>) -> bool {
    &&& best_first(side, orders)
    &&& forall|i: int| 0 <= i < orders.len() ==> (#[trigger] orders[i]).side == side
    &&& forall|i: int| 0 <= i < orders.len() ==> (#[trigger] orders[i]).qty > 0
}

impl BookView {
    /// The book without orders.
    pub open spec fn empty() -> BookView {
        BookView { bids: Seq::empty(), asks: Seq::empty() }
    }

    /// Whether every bid is below every ask.
    pub open spec fn uncrossed(self) -> bool {
        forall|i: int, j: int|
            0 <= i < self.bids.len() && 0 <= j < self.asks.len() ==> (#[trigger] self.bids[i]).price
                < (#[trigger] self.asks[j]).price
    }

    /// Whether this can be the state of a book: both sides are in order, and they do not cross.
    pub open spec fn valid(self) -> bool {
        &&& valid_side(Side::Buy, self.bids)
        &&& valid_side(Side::Sell, self.asks)
        &&& self.uncrossed()
    }

    /// The resting orders that an order of side `taker` trades against.
    pub open spec fn makers_for(self, taker: Side) -> Seq<Order> {
        match taker {
            Side::Buy => self.asks,
            Side::Sell => self.bids,
        }
    }

    /// The book after `taker` traded for `fills` and its remainder was put to rest.
    pub open spec fn submitted(self, taker: Order, fills: Seq<Fill>) -> BookView {
        match taker.side {
            Side::Buy => BookView {
                bids: with_remainder(Side::Buy, self.bids, taker, fills),
                asks: left_resting(self.asks, fills),
            },
            Side::Sell => BookView {
                bids: left_resting(self.bids, fills),
                asks: with_remainder(Side::Sell, self.asks, taker, fills),
            },
        }
    }
}

/// The volume of one order more.
pub proof fn lemma_volume_step(orders: Seq<Order>, i: int)
    requires
        0 <= i < orders.len(),
    ensures
        volume(orders.take(i + 1)) == volume(orders.take(i)) + orders[i].qty,
{
    assert(orders.take(i + 1).drop_last() =~= orders.take(i));
}

/// The volume of a longer prefix is no smaller.
pub proof fn lemma_volume_monotone(orders: Seq<Order>, i: int, j: int)
    requires
        0 <= i <= j <= orders.len(),
    ensures
        volume(orders.take(i)) <= volume(orders.take(j)),
    decreases j - i,
{
    if i < j {
        lemma_volume_monotone(orders, i, j - 1);
        lemma_volume_step(orders, j - 1);
    }
}

/// Behind a maker that is not reached, none is.
pub proof fn lemma_reached_is_prefix(taker: Order, makers: Seq<Order>, side: Side, n: int)
    requires
        taker.side != side,
        best_first(side, makers),
        0 <= n < makers.len(),
        !reached(taker, makers, n),
    ensures
        forall|i: int| n <= i < makers.len() ==> !#[trigger] reached(taker, makers, i),
{
    assert forall|i: int| n <= i < makers.len() implies !#[trigger] reached(taker, makers, i) by {
        lemma_volume_monotone(makers, n, i);
        if n < i {
            assert(!better(side, makers[i].price, makers[n].price));
        }
    }
}

/// The first `k` fills take all that the first `k` makers have, or all that `taker` asks for.
pub proof fn lemma_filled_prefix(taker: Order, makers: Seq<Order>, fills: Seq<Fill>, k: int)
    requires
        executes(taker, makers, fills),
        0 <= k <= fills.len(),
    ensures
        filled(fills.take(k)) == if volume(makers.take(k)) <= taker.qty {
            volume(makers.take(k))
        } else {
            taker.qty as nat
        },
    decreases k,
{
    if k > 0 {
        lemma_filled_prefix(taker, makers, fills, k - 1);
        lemma_volume_step(makers, k - 1);
        assert(fills.take(k).drop_last() =~= fills.take(k - 1));
        assert(reached(taker, makers, k - 1));
        assert(fills[k - 1] == fill_against(taker, makers, k - 1));
    } else {
        assert(fills.take(0) =~= Seq::empty());
        assert(makers.take(0) =~= Seq::empty());
    }
}

/// The fills together take all that the makers reached have, or all that `taker` asks for.
pub proof fn lemma_filled(taker: Order, makers: Seq<Order>, fills: Seq<Fill>)
    requires
        executes(taker, makers, fills),
    ensures
        filled(fills) == if volume(makers.take(fills.len() as int)) <= taker.qty {
            volume(makers.take(fills.len() as int))
        } else {
            taker.qty as nat
        },
{
    lemma_filled_prefix(taker, makers, fills, fills.len() as int);
    assert(fills.take(fills.len() as int) =~= fills);
}

/// A queue holds the orders it held and the order added.
pub proof fn lemma_queued_members(side: Side, orders: Seq<Order>, order: Order)
    ensures
        forall|i: int|
            #![trigger queued(side, orders, order)[i]]
            0 <= i < queued(side, orders, order).len() ==> queued(side, orders, order)[i] == order
                || orders.contains(queued(side, orders, order)[i]),
{
    let pred_ahead = |o: Order| !better(side, order.price, o.price);
    let pred_behind = |o: Order| better(side, order.price, o.price);
    let ahead = orders.filter(pred_ahead);
    let behind = orders.filter(pred_behind);
    let all = queued(side, orders, order);
    assert forall|i: int| #![trigger all[i]] 0 <= i < all.len() implies all[i] == order
        || orders.contains(all[i]) by {
        if i < ahead.len() {
            assert(all[i] == ahead[i]);
            assert(ahead.contains(ahead[i]));
            orders.lemma_filter_contains_rev(pred_ahead, ahead[i]);
        } else if i > ahead.len() {
            let k = i - ahead.len() - 1;
            assert(all[i] == behind[k]);
            assert(behind.contains(behind[k]));
            orders.lemma_filter_contains_rev(pred_behind, behind[k]);
        }
    }
}

/// What rests after the fills rested at the same price before them.
pub proof fn lemma_left_resting_prices(makers: Seq<Order>, fills: Seq<Fill>)
    requires
        fills.len() <= makers.len(),
    ensures
        forall|i: int|
            #![trigger left_resting(makers, fills)[i]]
            0 <= i < left_resting(makers, fills).len() ==> {
                let k = i + makers.len() - left_resting(makers, fills).len();
                0 <= k < makers.len() && left_resting(makers, fills)[i].price == makers[k].price
            },
{
}

/// What rests after the fills lies beyond the limit of a taker that is not satisfied.
pub proof fn lemma_open_taker_does_not_cross(
    taker: Order,
    makers: Seq<Order>,
    side: Side,
    fills: Seq<Fill>,
)
    requires
        taker.side != side,
        best_first(side, makers),
        executes(taker, makers, fills),
        filled(fills) < taker.qty,
    ensures
        left_resting(makers, fills) == makers.skip(fills.len() as int),
        forall|i: int|
            fills.len() <= i < makers.len() ==> !crosses(taker, (#[trigger] makers[i]).price),
{
    let n = fills.len() as int;
    lemma_filled(taker, makers, fills);
    if n > 0 {
        lemma_filled_prefix(taker, makers, fills, n - 1);
        lemma_volume_step(makers, n - 1);
        assert(fills[n - 1] == fill_against(taker, makers, n - 1));
        assert(fills.take(n - 1) =~= fills.drop_last());
    }
    assert(left_resting(makers, fills) =~= makers.skip(n));
    assert forall|i: int| n <= i < makers.len() implies !crosses(taker, (#[trigger] makers[i]).price) by {
        assert(!reached(taker, makers, n));
        if n < i {
            assert(!better(side, makers[i].price, makers[n].price));
        }
    }
}

/// Filtering keeps a sequence whose orders all satisfy `pred`.
pub proof fn lemma_filter_all(orders: Seq<Order>, pred: spec_fn(Order) -> bool)
    requires
        forall|i: int| 0 <= i < orders.len() ==> pred(#[trigger] orders[i]),
    ensures
        orders.filter(pred) == orders,
    decreases orders.len(),
{
    reveal(Seq::filter);
    if orders.len() > 0 {
        lemma_filter_all(orders.drop_last(), pred);
    }
}

/// Filtering empties a sequence of which no order satisfies `pred`.
pub proof fn lemma_filter_none(orders: Seq<Order>, pred: spec_fn(Order) -> bool)
    requires
        forall|i: int| 0 <= i < orders.len() ==> !pred(#[trigger] orders[i]),
    ensures
        orders.filter(pred) == Seq::<Order>::empty(),
    decreases orders.len(),
{
    reveal(Seq::filter);
    if orders.len() > 0 {
        lemma_filter_none(orders.drop_last(), pred);
    }
}

} // verus!
