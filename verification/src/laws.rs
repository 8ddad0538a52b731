//! What holds of every submission, proved from the contract of `OrderBook::submit`.
use crate::model::{
    at_price, best_first, better, crosses, executes, fill_against, filled,
    left_resting, lemma_filled, lemma_filled_prefix, lemma_filter_all, lemma_filter_none,
    lemma_left_resting_prices, lemma_open_taker_does_not_cross, lemma_queued_members,
    lemma_volume_step, opposite, queued, reached, rests_at, shows, summarizes, time_ordered,
    valid_side, volume, with_qty, BookView,
};
use crate::types::{Fill, Order, PriceLevel, Side};
use vstd::prelude::*;

verus! {

/// An order and the book determine the fills.
pub proof fn law_fills_are_determined(
    taker: Order,
    makers: Seq<Order>,
    fills: Seq<Fill>,
    others: Seq<Fill>,
)
    requires
        executes(taker, makers, fills),
        executes(taker, makers, others),
    ensures
        fills == others,
{
    if fills.len() < others.len() {
        assert(reached(taker, makers, fills.len() as int));
    }
    if others.len() < fills.len() {
        assert(reached(taker, makers, others.len() as int));
    }
    assert forall|i: int| 0 <= i < fills.len() implies fills[i] == others[i] by {
        assert(fills[i] == fill_against(taker, makers, i));
        assert(others[i] == fill_against(taker, makers, i));
    }
    assert(fills =~= others);
}

/// Price priority: fills come best price first, and no order that is left resting has a better
/// price than one that was filled.
pub proof fn law_price_priority(book: BookView, taker: Order, fills: Seq<Fill>)
    requires
        book.valid(),
        executes(taker, book.makers_for(taker.side), fills),
    ensures
        forall|i: int, j: int|
            0 <= i < j < fills.len() ==> !better(
                opposite(taker.side),
                (#[trigger] fills[j]).price,
                (#[trigger] fills[i]).price,
            ),
        ({
            let left = book.submitted(taker, fills).makers_for(taker.side);
            forall|i: int, j: int|
                0 <= i < fills.len() && 0 <= j < left.len() ==> !better(
                    opposite(taker.side),
                    (#[trigger] left[j]).price,
                    (#[trigger] fills[i]).price,
                )
        }),
{
    let makers = book.makers_for(taker.side);
    let side = opposite(taker.side);
    let left = book.submitted(taker, fills).makers_for(taker.side);
    assert(left == left_resting(makers, fills));
    lemma_left_resting_prices(makers, fills);
    assert forall|i: int, j: int| 0 <= i < fills.len() && 0 <= j < left.len() implies !better(
        side,
        (#[trigger] left[j]).price,
        (#[trigger] fills[i]).price,
    ) by {
        let k = j + makers.len() - left.len();
        assert(left[j].price == makers[k].price);
        assert(fills[i] == fill_against(taker, makers, i));
        assert(i <= k);
    }
    assert forall|i: int, j: int| 0 <= i < j < fills.len() implies !better(
        side,
        (#[trigger] fills[j]).price,
        (#[trigger] fills[i]).price,
    ) by {
        assert(fills[i] == fill_against(taker, makers, i));
        assert(fills[j] == fill_against(taker, makers, j));
    }
}

/// Time priority: where the resting orders are queued by sequence number, an earlier order is
/// filled before a later one at its price, and none that is left resting is earlier than one at
/// its price that was filled.
pub proof fn law_time_priority(book: BookView, taker: Order, fills: Seq<Fill>)
    requires
        book.valid(),
        executes(taker, book.makers_for(taker.side), fills),
        time_ordered(book.makers_for(taker.side)),
    ensures
        ({
            let makers = book.makers_for(taker.side);
            let left = book.submitted(taker, fills).makers_for(taker.side);
            &&& forall|i: int|
                0 <= i < fills.len() ==> (#[trigger] fills[i]).maker_order_id == makers[i].id
            &&& forall|i: int, j: int|
                0 <= i < j < fills.len() && (#[trigger] fills[i]).price == (#[trigger] fills[j]).price
                    ==> makers[i].seq < makers[j].seq
            &&& forall|i: int, j: int|
                0 <= i < fills.len() && 0 <= j < left.len() && (#[trigger] fills[i]).price == (
                #[trigger] left[j]).price ==> makers[i].seq <= left[j].seq
        }),
{
    let makers = book.makers_for(taker.side);
    let left = book.submitted(taker, fills).makers_for(taker.side);
    assert(left == left_resting(makers, fills));
    lemma_left_resting_prices(makers, fills);
    assert forall|i: int, j: int|
        0 <= i < j < fills.len() && (#[trigger] fills[i]).price == (#[trigger] fills[j]).price implies makers[i].seq
        < makers[j].seq by {
        assert(fills[i] == fill_against(taker, makers, i));
        assert(fills[j] == fill_against(taker, makers, j));
    }
    assert forall|i: int, j: int|
        0 <= i < fills.len() && 0 <= j < left.len() && (#[trigger] fills[i]).price == (
        #[trigger] left[j]).price implies makers[i].seq <= left[j].seq by {
        let k = j + makers.len() - left.len();
        assert(fills[i] == fill_against(taker, makers, i));
        assert(left[j].seq == makers[k].seq);
        assert(left[j].price == makers[k].price);
    }
}

/// Every fill is for a positive quantity, at the maker's price, within the taker's limit; and
/// every maker reached but the last is filled whole.
pub proof fn law_fills_respect_limits(book: BookView, taker: Order, fills: Seq<Fill>)
    requires
        book.valid(),
        executes(taker, book.makers_for(taker.side), fills),
    ensures
        ({
            let makers = book.makers_for(taker.side);
            &&& forall|i: int|
                0 <= i < fills.len() ==> {
                    let fill = #[trigger] fills[i];
                    &&& 0 < fill.qty <= makers[i].qty
                    &&& fill.price == makers[i].price
                    &&& crosses(taker, fill.price)
                }
            &&& forall|i: int|
                0 <= i < fills.len() - 1 ==> (#[trigger] fills[i]).qty == makers[i].qty
        }),
{
    let makers = book.makers_for(taker.side);
    assert forall|i: int| 0 <= i < fills.len() implies ({
        let fill = #[trigger] fills[i];
        &&& 0 < fill.qty <= makers[i].qty
        &&& fill.price == makers[i].price
        &&& crosses(taker, fill.price)
    }) by {
        assert(reached(taker, makers, i));
        assert(fills[i] == fill_against(taker, makers, i));
    }
    assert forall|i: int| 0 <= i < fills.len() - 1 implies (#[trigger] fills[i]).qty
        == makers[i].qty by {
        assert(reached(taker, makers, i + 1));
        lemma_volume_step(makers, i);
        assert(fills[i] == fill_against(taker, makers, i));
    }
}

pub(crate) proof fn lemma_volume_add(a: Seq<Order>, b: Seq<Order>)
    ensures
        volume(a + b) == volume(a) + volume(b),
    decreases b.len(),
{
    if b.len() == 0 {
        assert(a + b =~= a);
    } else {
        lemma_volume_add(a, b.drop_last());
        assert((a + b).drop_last() =~= a + b.drop_last());
    }
}

pub(crate) proof fn lemma_volume_split(orders: Seq<Order>, pred: spec_fn(Order) -> bool, other: spec_fn(Order) -> bool)
    requires
        forall|o: Order| #[trigger] other(o) <==> !pred(o),
    ensures
        volume(orders) == volume(orders.filter(pred)) + volume(orders.filter(other)),
    decreases orders.len(),
{
    reveal(Seq::filter);
    if orders.len() > 0 {
        let init = orders.drop_last();
        lemma_volume_split(init, pred, other);
        let last = orders.last();
        assert(init.filter(pred).push(last).drop_last() =~= init.filter(pred));
        assert(init.filter(other).push(last).drop_last() =~= init.filter(other));
        assert(other(last) <==> !pred(last));
    }
}

proof fn lemma_volume_queued(side: Side, orders: Seq<Order>, order: Order)
    ensures
        volume(queued(side, orders, order)) == volume(orders) + order.qty,
{
    let ahead = |o: Order| !better(side, order.price, o.price);
    let behind = |o: Order| better(side, order.price, o.price);
    lemma_volume_split(orders, ahead, behind);
    lemma_volume_add(orders.filter(ahead).push(order), orders.filter(behind));
    assert(orders.filter(ahead).push(order).drop_last() =~= orders.filter(ahead));
}

pub(crate) proof fn lemma_volume_left(taker: Order, makers: Seq<Order>, fills: Seq<Fill>)
    requires
        executes(taker, makers, fills),
    ensures
        volume(left_resting(makers, fills)) + filled(fills) == volume(makers),
{
    let n = fills.len() as int;
    if n > 0 {
        let last = makers[n - 1];
        let behind = makers.skip(n);
        lemma_filled(taker, makers, fills);
        lemma_filled_prefix(taker, makers, fills, n - 1);
        lemma_volume_step(makers, n - 1);
        lemma_volume_add(makers.take(n), behind);
        assert(makers.take(n) + behind =~= makers);
        assert(reached(taker, makers, n - 1));
        assert(fills[n - 1] == fill_against(taker, makers, n - 1));
        assert(fills.take(n - 1) =~= fills.drop_last());
        let kept = with_qty(last, (last.qty - fills.last().qty) as u64);
        lemma_volume_add(seq![kept], behind);
        assert(seq![kept].drop_last() =~= Seq::empty());
        assert(volume(Seq::<Order>::empty()) == 0);
        assert(volume(seq![kept]) == kept.qty);
    }
}

/// Quantity is conserved: the makers lose what the fills take, and what they do not take of the
/// incoming order is added to its own side.
pub proof fn law_quantity_is_conserved(book: BookView, taker: Order, fills: Seq<Fill>)
    requires
        executes(taker, book.makers_for(taker.side), fills),
    ensures
        filled(fills) <= taker.qty,
        ({
            let after = book.submitted(taker, fills);
            let own = opposite(taker.side);
            &&& volume(after.makers_for(taker.side)) + filled(fills) == volume(
                book.makers_for(taker.side),
            )
            &&& volume(after.makers_for(own)) + filled(fills) == volume(book.makers_for(own))
                + taker.qty
        }),
{
    let makers = book.makers_for(taker.side);
    let own = book.makers_for(opposite(taker.side));
    lemma_filled(taker, makers, fills);
    lemma_volume_left(taker, makers, fills);
    if filled(fills) < taker.qty {
        lemma_volume_queued(
            taker.side,
            own,
            with_qty(taker, (taker.qty - filled(fills)) as u64),
        );
    }
}

/// The fills take as much as the limits allow: all that is asked for, or all that rests at
/// prices within the taker's limit.
pub proof fn law_fills_are_maximal(book: BookView, taker: Order, fills: Seq<Fill>)
    requires
        book.valid(),
        executes(taker, book.makers_for(taker.side), fills),
    ensures
        ({
            let available = volume(
                book.makers_for(taker.side).filter(|o: Order| crosses(taker, o.price)),
            );
            filled(fills) == if available <= taker.qty {
                available
            } else {
                taker.qty as nat
            }
        }),
{
    let makers = book.makers_for(taker.side);
    let pred = |o: Order| crosses(taker, o.price);
    let n = fills.len() as int;
    lemma_filled(taker, makers, fills);
    let front = makers.take(n);
    let back = makers.skip(n);
    assert(front + back =~= makers);
    Seq::filter_distributes_over_add(front, back, pred);
    assert forall|i: int| 0 <= i < front.len() implies pred(#[trigger] front[i]) by {
        assert(reached(taker, makers, i));
    }
    lemma_filter_all(front, pred);
    lemma_volume_add(front, back.filter(pred));
    if filled(fills) < taker.qty {
        lemma_open_taker_does_not_cross(taker, makers, opposite(taker.side), fills);
        assert forall|i: int| 0 <= i < back.len() implies !pred(#[trigger] back[i]) by {
            assert(back[i] == makers[n + i]);
        }
        lemma_filter_none(back, pred);
        assert(volume(back.filter(pred)) == 0);
    }
}

/// An order that crosses nothing is not filled and rests whole.
pub proof fn law_no_cross_rests_whole(book: BookView, taker: Order, fills: Seq<Fill>)
    requires
        book.valid(),
        executes(taker, book.makers_for(taker.side), fills),
        book.makers_for(taker.side).len() > 0 ==> !crosses(
            taker,
            book.makers_for(taker.side)[0].price,
        ),
    ensures
        fills.len() == 0,
        book.submitted(taker, fills).makers_for(taker.side) == book.makers_for(taker.side),
        taker.qty > 0 ==> book.submitted(taker, fills).makers_for(opposite(taker.side)) == queued(
            taker.side,
            book.makers_for(opposite(taker.side)),
            taker,
        ),
{
    let makers = book.makers_for(taker.side);
    if fills.len() > 0 {
        assert(reached(taker, makers, 0));
    }
    assert(with_qty(taker, taker.qty) == taker);
}

/// An order for nothing changes nothing.
pub proof fn law_empty_order_is_ignored(book: BookView, taker: Order, fills: Seq<Fill>)
    requires
        executes(taker, book.makers_for(taker.side), fills),
        taker.qty == 0,
    ensures
        fills.len() == 0,
        book.submitted(taker, fills) == book,
{
    if fills.len() > 0 {
        assert(reached(taker, book.makers_for(taker.side), 0));
    }
}

proof fn lemma_filter_within(
    orders: Seq<Order>,
    outer: spec_fn(Order) -> bool,
    inner: spec_fn(Order) -> bool,
)
    requires
        forall|o: Order| #[trigger] inner(o) ==> outer(o),
    ensures
        orders.filter(outer).filter(inner) == orders.filter(inner),
    decreases orders.len(),
{
    reveal(Seq::filter);
    if orders.len() > 0 {
        let init = orders.drop_last();
        lemma_filter_within(init, outer, inner);
        assert(init.filter(outer).push(orders.last()).drop_last() =~= init.filter(outer));
        assert(inner(orders.last()) ==> outer(orders.last()));
    }
}

proof fn lemma_filter_apart(
    orders: Seq<Order>,
    outer: spec_fn(Order) -> bool,
    inner: spec_fn(Order) -> bool,
)
    requires
        forall|o: Order| #[trigger] inner(o) ==> !outer(o),
    ensures
        orders.filter(outer).filter(inner) == Seq::<Order>::empty(),
{
    let kept = orders.filter(outer);
    assert forall|i: int| 0 <= i < kept.len() implies !inner(#[trigger] kept[i]) by {
        orders.lemma_filter_pred(outer, i);
    }
    lemma_filter_none(kept, inner);
}

/// Within a price, orders queue first in, first out: an order that comes to rest stands last at
/// its price, and the orders at every other price stay as they are.
pub proof fn law_price_level_is_fifo(side: Side, orders: Seq<Order>, order: Order, price: u64)
    ensures
        at_price(queued(side, orders, order), price) == if price == order.price {
            at_price(orders, price).push(order)
        } else {
            at_price(orders, price)
        },
{
    let ahead = |o: Order| !better(side, order.price, o.price);
    let behind = |o: Order| better(side, order.price, o.price);
    let pred = |o: Order| o.price == price;
    let front = orders.filter(ahead);
    let back = orders.filter(behind);
    Seq::filter_distributes_over_add(front.push(order), back, pred);
    assert(front.push(order) =~= front + seq![order]);
    Seq::filter_distributes_over_add(front, seq![order], pred);
    if price == order.price {
        lemma_filter_all(seq![order], pred);
    } else {
        lemma_filter_none(seq![order], pred);
    }
    if better(side, order.price, price) {
        lemma_filter_apart(orders, ahead, pred);
        lemma_filter_within(orders, behind, pred);
    } else {
        lemma_filter_within(orders, ahead, pred);
        lemma_filter_apart(orders, behind, pred);
    }
    assert(at_price(queued(side, orders, order), price) =~= if price == order.price {
        at_price(orders, price).push(order)
    } else {
        at_price(orders, price)
    });
}

/// Filtering keeps a relation that holds of each order and every one behind it.
proof fn lemma_filter_keeps_pairs(
    orders: Seq<Order>,
    pred: spec_fn(Order) -> bool,
    related: spec_fn(Order, Order) -> bool,
)
    requires
        forall|i: int, j: int|
            0 <= i < j < orders.len() ==> related(#[trigger] orders[i], #[trigger] orders[j]),
    ensures
        forall|i: int, j: int|
            #![trigger orders.filter(pred)[i], orders.filter(pred)[j]]
            0 <= i < j < orders.filter(pred).len() ==> related(
                orders.filter(pred)[i],
                orders.filter(pred)[j],
            ),
    decreases orders.len(),
{
    reveal(Seq::filter);
    if orders.len() > 0 {
        let init = orders.drop_last();
        let last = orders.last();
        let kept = init.filter(pred);
        lemma_filter_keeps_pairs(init, pred, related);
        if pred(last) {
            let all = kept.push(last);
            assert(orders.filter(pred) == all);
            assert forall|i: int, j: int| 0 <= i < j < all.len() implies related(
                #[trigger] all[i],
                #[trigger] all[j],
            ) by {
                assert(all[i] == kept[i]);
                if j == kept.len() {
                    assert(kept.contains(kept[i]));
                    init.lemma_filter_contains_rev(pred, kept[i]);
                    let k = choose|k: int| 0 <= k < init.len() && init[k] == kept[i];
                    assert(orders[k] == kept[i]);
                } else {
                    assert(all[j] == kept[j]);
                }
            }
        }
    }
}

proof fn lemma_filter_keeps_time_order(orders: Seq<Order>, pred: spec_fn(Order) -> bool)
    requires
        time_ordered(orders),
    ensures
        time_ordered(orders.filter(pred)),
{
    let related = |a: Order, b: Order| a.price == b.price ==> a.seq < b.seq;
    lemma_filter_keeps_pairs(orders, pred, related);
    let kept = orders.filter(pred);
    assert forall|i: int, j: int|
        0 <= i < j < kept.len() && (#[trigger] kept[i]).price == (#[trigger] kept[j]).price implies kept[i].seq
        < kept[j].seq by {
        assert(related(kept[i], kept[j]));
    }
}

proof fn lemma_filter_keeps_best_first(side: Side, orders: Seq<Order>, pred: spec_fn(Order) -> bool)
    requires
        best_first(side, orders),
    ensures
        best_first(side, orders.filter(pred)),
{
    let related = |a: Order, b: Order| !better(side, b.price, a.price);
    lemma_filter_keeps_pairs(orders, pred, related);
    let kept = orders.filter(pred);
    assert forall|i: int, j: int| 0 <= i < j < kept.len() implies !better(
        side,
        #[trigger] kept[j].price,
        #[trigger] kept[i].price,
    ) by {
        assert(related(kept[i], kept[j]));
    }
}

/// Whether every order of `orders` was accepted by sequence number `seq`.
pub open spec fn accepted_by(orders: Seq<Order>, seq: u64) -> bool {
    forall|i: int| 0 <= i < orders.len() ==> (#[trigger] orders[i]).seq <= seq
}

proof fn lemma_queued_time_order(side: Side, orders: Seq<Order>, order: Order)
    requires
        time_ordered(orders),
        forall|i: int| 0 <= i < orders.len() ==> (#[trigger] orders[i]).seq < order.seq,
    ensures
        time_ordered(queued(side, orders, order)),
        accepted_by(queued(side, orders, order), order.seq),
{
    let ahead = |o: Order| !better(side, order.price, o.price);
    let behind = |o: Order| better(side, order.price, o.price);
    let front = orders.filter(ahead);
    let back = orders.filter(behind);
    let all = queued(side, orders, order);
    lemma_filter_keeps_time_order(orders, ahead);
    lemma_filter_keeps_time_order(orders, behind);
    lemma_queued_members(side, orders, order);
    assert forall|i: int| 0 <= i < all.len() implies (#[trigger] all[i]).seq <= order.seq by {
        if all[i] != order {
            let k = choose|k: int| 0 <= k < orders.len() && orders[k] == all[i];
            assert(orders[k].seq < order.seq);
        }
    }
    assert forall|i: int, j: int|
        0 <= i < j < all.len() && (#[trigger] all[i]).price == (#[trigger] all[j]).price implies all[i].seq
        < all[j].seq by {
        let n = front.len() as int;
        if i < n {
            assert(all[i] == front[i]);
            orders.lemma_filter_pred(ahead, i);
            assert(front.contains(front[i]));
            orders.lemma_filter_contains_rev(ahead, front[i]);
            let k = choose|k: int| 0 <= k < orders.len() && orders[k] == front[i];
            assert(orders[k].seq < order.seq);
        } else if i > n {
            assert(all[i] == back[i - n - 1]);
        }
        if j < n {
            assert(all[j] == front[j]);
        } else if j > n {
            assert(all[j] == back[j - n - 1]);
            orders.lemma_filter_pred(behind, j - n - 1);
        }
    }
}

proof fn lemma_left_time_order(makers: Seq<Order>, fills: Seq<Fill>, seq: u64)
    requires
        fills.len() <= makers.len(),
        time_ordered(makers),
        accepted_by(makers, seq),
    ensures
        time_ordered(left_resting(makers, fills)),
        accepted_by(left_resting(makers, fills), seq),
{
    let left = left_resting(makers, fills);
    let d = makers.len() - left.len();
    assert forall|i: int| 0 <= i < left.len() implies (#[trigger] left[i]).seq == makers[i + d].seq
        && left[i].price == makers[i + d].price by {}
    assert forall|i: int, j: int|
        0 <= i < j < left.len() && (#[trigger] left[i]).price == (#[trigger] left[j]).price implies left[i].seq
        < left[j].seq by {
        assert(makers[i + d].seq < makers[j + d].seq);
    }
}

/// Submitting orders with increasing sequence numbers keeps each price in the order of the
/// sequence numbers.
pub proof fn law_time_order_is_kept(book: BookView, taker: Order, fills: Seq<Fill>, seq: u64)
    requires
        executes(taker, book.makers_for(taker.side), fills),
        time_ordered(book.bids),
        time_ordered(book.asks),
        accepted_by(book.bids, seq),
        accepted_by(book.asks, seq),
        seq < taker.seq,
    ensures
        time_ordered(book.submitted(taker, fills).bids),
        time_ordered(book.submitted(taker, fills).asks),
        accepted_by(book.submitted(taker, fills).bids, taker.seq),
        accepted_by(book.submitted(taker, fills).asks, taker.seq),
{
    let makers = book.makers_for(taker.side);
    let own = book.makers_for(opposite(taker.side));
    lemma_left_time_order(makers, fills, seq);
    if filled(fills) < taker.qty {
        let remainder = with_qty(taker, (taker.qty - filled(fills)) as u64);
        lemma_queued_time_order(taker.side, own, remainder);
    }
    assert(accepted_by(own, taker.seq));
    assert(accepted_by(left_resting(makers, fills), taker.seq));
}

proof fn lemma_submitted_uncrossed(book: BookView, taker: Order, fills: Seq<Fill>)
    requires
        book.valid(),
        executes(taker, book.makers_for(taker.side), fills),
    ensures
        book.submitted(taker, fills).uncrossed(),
{
    let after = book.submitted(taker, fills);
    let makers = book.makers_for(taker.side);
    let left = left_resting(makers, fills);
    let open = filled(fills) < taker.qty;
    let remainder = with_qty(taker, (taker.qty - filled(fills)) as u64);
    lemma_left_resting_prices(makers, fills);
    match taker.side {
        Side::Buy => {
            if open {
                lemma_open_taker_does_not_cross(taker, makers, Side::Sell, fills);
                lemma_queued_members(Side::Buy, book.bids, remainder);
            }
            assert forall|i: int, j: int|
                0 <= i < after.bids.len() && 0 <= j < after.asks.len() implies (
            #[trigger] after.bids[i]).price < (#[trigger] after.asks[j]).price by {
                let k = j + makers.len() - left.len();
                assert(after.asks[j].price == makers[k].price);
                let bid = after.bids[i];
                if bid != remainder || !open {
                    let h = choose|h: int| 0 <= h < book.bids.len() && book.bids[h] == bid;
                    assert(book.bids[h].price < book.asks[k].price);
                }
            }
        },
        Side::Sell => {
            if open {
                lemma_open_taker_does_not_cross(taker, makers, Side::Buy, fills);
                lemma_queued_members(Side::Sell, book.asks, remainder);
            }
            assert forall|i: int, j: int|
                0 <= i < after.bids.len() && 0 <= j < after.asks.len() implies (
            #[trigger] after.bids[i]).price < (#[trigger] after.asks[j]).price by {
                let k = i + makers.len() - left.len();
                assert(after.bids[i].price == makers[k].price);
                let ask = after.asks[j];
                if ask != remainder || !open {
                    let h = choose|h: int| 0 <= h < book.asks.len() && book.asks[h] == ask;
                    assert(book.bids[k].price < book.asks[h].price);
                }
            }
        },
    }
}

proof fn lemma_left_valid(taker: Order, makers: Seq<Order>, side: Side, fills: Seq<Fill>)
    requires
        valid_side(side, makers),
        executes(taker, makers, fills),
    ensures
        valid_side(side, left_resting(makers, fills)),
{
    let left = left_resting(makers, fills);
    let d = makers.len() - left.len();
    lemma_left_resting_prices(makers, fills);
    assert forall|i: int| 0 <= i < left.len() implies (#[trigger] left[i]).side == side
        && left[i].qty > 0 && left[i].price == makers[i + d].price by {
        assert(makers[i + d].side == side);
        assert(makers[i + d].qty > 0);
    }
    assert forall|i: int, j: int| 0 <= i < j < left.len() implies !better(
        side,
        #[trigger] left[j].price,
        #[trigger] left[i].price,
    ) by {
        assert(!better(side, makers[j + d].price, makers[i + d].price));
    }
}

proof fn lemma_queued_valid(side: Side, orders: Seq<Order>, order: Order)
    requires
        valid_side(side, orders),
        order.side == side,
        order.qty > 0,
    ensures
        valid_side(side, queued(side, orders, order)),
{
    let ahead = |o: Order| !better(side, order.price, o.price);
    let behind = |o: Order| better(side, order.price, o.price);
    let front = orders.filter(ahead);
    let back = orders.filter(behind);
    let n = front.len() as int;
    let all = queued(side, orders, order);
    lemma_filter_keeps_best_first(side, orders, ahead);
    lemma_filter_keeps_best_first(side, orders, behind);
    lemma_queued_members(side, orders, order);
    assert forall|i: int| 0 <= i < all.len() implies (#[trigger] all[i]).side == side && all[i].qty
        > 0 by {
        if all[i] != order {
            let k = choose|k: int| 0 <= k < orders.len() && orders[k] == all[i];
            assert(orders[k].side == side && orders[k].qty > 0);
        }
    }
    assert forall|i: int, j: int| 0 <= i < j < all.len() implies !better(
        side,
        #[trigger] all[j].price,
        #[trigger] all[i].price,
    ) by {
        if i < n {
            assert(all[i] == front[i]);
            orders.lemma_filter_pred(ahead, i);
        } else if i > n {
            assert(all[i] == back[i - n - 1]);
        }
        if j < n {
            assert(all[j] == front[j]);
        } else if j > n {
            assert(all[j] == back[j - n - 1]);
            orders.lemma_filter_pred(behind, j - n - 1);
        }
    }
}

/// Every submission keeps the book in order: each side best price first and without empty
/// orders, and every bid below every ask.
pub proof fn law_book_stays_valid(book: BookView, taker: Order, fills: Seq<Fill>)
    requires
        book.valid(),
        executes(taker, book.makers_for(taker.side), fills),
    ensures
        book.submitted(taker, fills).valid(),
{
    let makers = book.makers_for(taker.side);
    let own = book.makers_for(opposite(taker.side));
    lemma_submitted_uncrossed(book, taker, fills);
    lemma_left_valid(taker, makers, opposite(taker.side), fills);
    if filled(fills) < taker.qty {
        let remainder = with_qty(taker, (taker.qty - filled(fills)) as u64);
        lemma_queued_valid(taker.side, own, remainder);
    }
}

/// The total quantity of `levels`.
pub open spec fn shown(levels: Seq<PriceLevel>) -> nat
    decreases levels.len(),
{
    if levels.len() == 0 {
        0
    } else {
        shown(levels.drop_last()) + levels.last().qty as nat
    }
}

/// A snapshot shows all the quantity that rests, and nothing else.
pub proof fn law_snapshot_shows_all(side: Side, orders: Seq<Order>, levels: Seq<PriceLevel>)
    requires
        summarizes(side, orders, levels),
    ensures
        shown(levels) == volume(orders),
    decreases levels.len(),
{
    if levels.len() == 0 {
        if orders.len() > 0 {
            assert(rests_at(orders, orders[0].price));
            assert(shows(levels, orders[0].price));
        }
    } else {
        let init = levels.drop_last();
        let last = levels.last();
        let there = |o: Order| o.price == last.price;
        let elsewhere = |o: Order| o.price != last.price;
        let others = orders.filter(elsewhere);
        lemma_volume_split(orders, there, elsewhere);
        assert forall|p: u64| #[trigger] rests_at(others, p) <==> #[trigger] shows(init, p) by {
            if rests_at(others, p) {
                let k = choose|k: int| 0 <= k < others.len() && (#[trigger] others[k]).price == p;
                orders.lemma_filter_pred(elsewhere, k);
                assert(others.contains(others[k]));
                orders.lemma_filter_contains_rev(elsewhere, others[k]);
                assert(rests_at(orders, p));
                assert(shows(levels, p));
                let i = choose|i: int| 0 <= i < levels.len() && (#[trigger] levels[i]).price == p;
                assert(init[i] == levels[i]);
            }
            if shows(init, p) {
                let i = choose|i: int| 0 <= i < init.len() && (#[trigger] init[i]).price == p;
                assert(levels[i] == init[i]);
                assert(shows(levels, p));
                assert(rests_at(orders, p));
                let k = choose|k: int| 0 <= k < orders.len() && (#[trigger] orders[k]).price == p;
                orders.lemma_filter_contains(elsewhere, k);
                let h = choose|h: int| 0 <= h < others.len() && others[h] == orders[k];
                assert(others[h].price == p);
            }
        }
        assert forall|i: int| 0 <= i < init.len() implies (#[trigger] init[i]).qty == volume(
            at_price(others, init[i].price),
        ) by {
            let price = init[i].price;
            assert(levels[i] == init[i]);
            lemma_filter_within(orders, elsewhere, |o: Order| o.price == price);
        }
        assert forall|i: int, j: int| 0 <= i < j < init.len() implies better(
            side,
            (#[trigger] init[i]).price,
            (#[trigger] init[j]).price,
        ) by {
            assert(levels[i] == init[i] && levels[j] == init[j]);
        }
        law_snapshot_shows_all(side, others, init);
    }
}

proof fn lemma_same_levels(
    side: Side,
    orders: Seq<Order>,
    levels: Seq<PriceLevel>,
    others: Seq<PriceLevel>,
    n: int,
)
    requires
        summarizes(side, orders, levels),
        summarizes(side, orders, others),
        0 <= n <= levels.len(),
    ensures
        n <= others.len(),
        forall|i: int| 0 <= i < n ==> #[trigger] levels[i] == others[i],
    decreases n,
{
    if n > 0 {
        let k = n - 1;
        lemma_same_levels(side, orders, levels, others, k);
        assert(shows(levels, levels[k].price));
        assert(rests_at(orders, levels[k].price));
        assert(shows(others, levels[k].price));
        let h = choose|h: int| 0 <= h < others.len() && (#[trigger] others[h]).price
            == levels[k].price;
        if h < k {
            assert(levels[h] == others[h]);
        }
        assert(shows(others, others[k].price));
        assert(rests_at(orders, others[k].price));
        assert(shows(levels, others[k].price));
        let g = choose|g: int| 0 <= g < levels.len() && (#[trigger] levels[g]).price
            == others[k].price;
        if g < k {
            assert(levels[g] == others[g]);
        }
        assert(levels[k].price == others[k].price);
    }
}

/// The resting orders determine the snapshot.
pub proof fn law_snapshot_is_determined(
    side: Side,
    orders: Seq<Order>,
    levels: Seq<PriceLevel>,
    others: Seq<PriceLevel>,
)
    requires
        summarizes(side, orders, levels),
        summarizes(side, orders, others),
    ensures
        levels == others,
{
    lemma_same_levels(side, orders, levels, others, levels.len() as int);
    lemma_same_levels(side, orders, others, levels, others.len() as int);
    assert(levels =~= others);
}

/// The snapshot of a side is empty exactly when nothing rests there.
pub proof fn law_empty_snapshot(side: Side, orders: Seq<Order>, levels: Seq<PriceLevel>)
    requires
        summarizes(side, orders, levels),
    ensures
        levels.len() == 0 <==> orders.len() == 0,
{
    if orders.len() > 0 {
        assert(rests_at(orders, orders[0].price));
        assert(shows(levels, orders[0].price));
    }
    if levels.len() > 0 {
        assert(shows(levels, levels[0].price));
        assert(rests_at(orders, levels[0].price));
    }
}

/// Every bid that a snapshot shows is below every ask.
pub proof fn law_snapshots_are_uncrossed(
    book: BookView,
    bids: Seq<PriceLevel>,
    asks: Seq<PriceLevel>,
)
    requires
        book.valid(),
        summarizes(Side::Buy, book.bids, bids),
        summarizes(Side::Sell, book.asks, asks),
    ensures
        forall|i: int, j: int|
            0 <= i < bids.len() && 0 <= j < asks.len() ==> (#[trigger] bids[i]).price < (
            #[trigger] asks[j]).price,
{
    assert forall|i: int, j: int| 0 <= i < bids.len() && 0 <= j < asks.len() implies (
    #[trigger] bids[i]).price < (#[trigger] asks[j]).price by {
        assert(shows(bids, bids[i].price));
        assert(shows(asks, asks[j].price));
        assert(rests_at(book.bids, bids[i].price));
        assert(rests_at(book.asks, asks[j].price));
    }
}

} // verus!
