//! How quantities move: at each price, over a history of submissions, and when an order is split.
use crate::laws::{
    law_book_stays_valid, law_fills_are_maximal, law_fills_respect_limits,
    law_price_level_is_fifo, law_quantity_is_conserved, lemma_volume_add, lemma_volume_left,
};
use crate::model::{
    at_price, crosses, executes, fill_against, filled, left_resting, lemma_filled,
    lemma_filled_prefix, lemma_filter_all, lemma_volume_step, opposite, reached, rests_at, shows, summarizes,
    valid_side, volume, with_qty, BookView,
};
use crate::types::{Fill, Order, PriceLevel, Side};
use vstd::prelude::*;

verus! {

proof fn lemma_volume_covers(orders: Seq<Order>, i: int)
    requires
        0 <= i < orders.len(),
    ensures
        orders[i].qty <= volume(orders),
    decreases orders.len(),
{
    if i < orders.len() - 1 {
        lemma_volume_covers(orders.drop_last(), i);
    }
}

/// Every level that a snapshot shows has a positive quantity.
pub proof fn law_snapshot_levels_are_positive(
    side: Side,
    orders: Seq<Order>,
    levels: Seq<PriceLevel>,
)
    requires
        valid_side(side, orders),
        summarizes(side, orders, levels),
    ensures
        forall|i: int| 0 <= i < levels.len() ==> (#[trigger] levels[i]).qty > 0,
{
    assert forall|i: int| 0 <= i < levels.len() implies (#[trigger] levels[i]).qty > 0 by {
        let p = levels[i].price;
        let pred = |o: Order| o.price == p;
        assert(shows(levels, p));
        assert(rests_at(orders, p));
        let k = choose|k: int| 0 <= k < orders.len() && (#[trigger] orders[k]).price == p;
        orders.lemma_filter_contains(pred, k);
        let there = at_price(orders, p);
        let h = choose|h: int| 0 <= h < there.len() && there[h] == orders[k];
        lemma_volume_covers(there, h);
    }
}

/// The fills of `fills` at price `price`.
pub open spec fn fills_at(fills: Seq<Fill>, price: u64) -> Seq<Fill> {
    fills.filter(|f: Fill| f.price == price)
}

proof fn lemma_filled_at_step(fills: Seq<Fill>, k: int, price: u64)
    requires
        0 <= k < fills.len(),
    ensures
        filled(fills_at(fills.take(k + 1), price)) == filled(fills_at(fills.take(k), price)) + (
        if fills[k].price == price {
            fills[k].qty as nat
        } else {
            0
        }),
{
    reveal(Seq::filter);
    let init = fills_at(fills.take(k), price);
    assert(fills.take(k + 1).drop_last() =~= fills.take(k));
    assert(init.push(fills[k]).drop_last() =~= init);
}

proof fn lemma_volume_at_step(orders: Seq<Order>, k: int, price: u64)
    requires
        0 <= k < orders.len(),
    ensures
        volume(at_price(orders.take(k + 1), price)) == volume(at_price(orders.take(k), price)) + (
        if orders[k].price == price {
            orders[k].qty as nat
        } else {
            0
        }),
{
    reveal(Seq::filter);
    let init = at_price(orders.take(k), price);
    assert(orders.take(k + 1).drop_last() =~= orders.take(k));
    assert(init.push(orders[k]).drop_last() =~= init);
}

proof fn lemma_whole_fills_at(makers: Seq<Order>, fills: Seq<Fill>, k: int, price: u64)
    requires
        0 <= k <= fills.len() <= makers.len(),
        forall|i: int|
            0 <= i < k ==> (#[trigger] fills[i]).price == makers[i].price && fills[i].qty
                == makers[i].qty,
    ensures
        filled(fills_at(fills.take(k), price)) == volume(at_price(makers.take(k), price)),
    decreases k,
{
    if k > 0 {
        lemma_whole_fills_at(makers, fills, k - 1, price);
        lemma_filled_at_step(fills, k - 1, price);
        lemma_volume_at_step(makers, k - 1, price);
        assert(fills[k - 1].price == makers[k - 1].price);
    } else {
        reveal(Seq::filter);
        assert(fills.take(0) =~= Seq::empty());
        assert(makers.take(0) =~= Seq::empty());
    }
}

proof fn lemma_volume_at_add(a: Seq<Order>, b: Seq<Order>, price: u64)
    ensures
        volume(at_price(a + b, price)) == volume(at_price(a, price)) + volume(at_price(b, price)),
{
    Seq::filter_distributes_over_add(a, b, |o: Order| o.price == price);
    lemma_volume_add(at_price(a, price), at_price(b, price));
}

proof fn lemma_volume_at_one(order: Order, price: u64)
    ensures
        volume(at_price(seq![order], price)) == if order.price == price {
            order.qty as nat
        } else {
            0
        },
{
    lemma_volume_at_step(seq![order], 0, price);
    reveal(Seq::filter);
    assert(seq![order].take(1) =~= seq![order]);
    assert(seq![order].take(0) =~= Seq::empty());
}

/// At each price, the makers lose what was filled there, and the taker's own side gains what is
/// left of the taker at its own price and nothing elsewhere.
pub proof fn law_price_totals(book: BookView, taker: Order, fills: Seq<Fill>, price: u64)
    requires
        book.valid(),
        executes(taker, book.makers_for(taker.side), fills),
    ensures
        ({
            let after = book.submitted(taker, fills);
            let own = opposite(taker.side);
            &&& volume(at_price(after.makers_for(taker.side), price)) + filled(
                fills_at(fills, price),
            ) == volume(at_price(book.makers_for(taker.side), price))
            &&& volume(at_price(after.makers_for(own), price)) == volume(
                at_price(book.makers_for(own), price),
            ) + (if price == taker.price {
                taker.qty - filled(fills)
            } else {
                0
            })
        }),
{
    let makers = book.makers_for(taker.side);
    let own = book.makers_for(opposite(taker.side));
    let n = fills.len() as int;
    law_quantity_is_conserved(book, taker, fills);
    law_fills_respect_limits(book, taker, fills);
    if n > 0 {
        let last = makers[n - 1];
        let behind = makers.skip(n);
        lemma_whole_fills_at(makers, fills, n - 1, price);
        lemma_filled_at_step(fills, n - 1, price);
        lemma_volume_at_step(makers, n - 1, price);
        assert(fills.take(n) =~= fills);
        assert(makers.take(n) + behind =~= makers);
        lemma_volume_at_add(makers.take(n), behind, price);
        if fills[n - 1].qty < last.qty {
            let kept = with_qty(last, (last.qty - fills.last().qty) as u64);
            lemma_volume_at_add(seq![kept], behind, price);
            lemma_volume_at_one(kept, price);
        }
    } else {
        reveal(Seq::filter);
        assert(fills_at(fills, price) =~= Seq::empty());
    }
    if filled(fills) < taker.qty {
        let remainder = with_qty(taker, (taker.qty - filled(fills)) as u64);
        law_price_level_is_fifo(taker.side, own, remainder, price);
        assert(at_price(own, price).push(remainder).drop_last() =~= at_price(own, price));
    }
}

/// One submission to a book: the order and the fills it led to.
pub struct Submission {
    pub taker: Order,
    pub fills: Seq<Fill>,
}

/// The book that the submissions of `history` make, one after the other, of an empty book.
pub open spec fn book_after(history: Seq<Submission>) -> BookView
    decreases history.len(),
{
    if history.len() == 0 {
        BookView::empty()
    } else {
        book_after(history.drop_last()).submitted(history.last().taker, history.last().fills)
    }
}

/// Whether each submission of `history` led to the fills that the book before it gives.
pub open spec fn happened(history: Seq<Submission>) -> bool
    decreases history.len(),
{
    history.len() > 0 ==> {
        let init = history.drop_last();
        let last = history.last();
        &&& happened(init)
        &&& executes(last.taker, book_after(init).makers_for(last.taker.side), last.fills)
    }
}

/// The total quantity of the orders of `side` that were submitted.
pub open spec fn submitted_qty(history: Seq<Submission>, side: Side) -> nat
    decreases history.len(),
{
    if history.len() == 0 {
        0
    } else {
        submitted_qty(history.drop_last(), side) + (if history.last().taker.side == side {
            history.last().taker.qty as nat
        } else {
            0
        })
    }
}

/// The total quantity that was traded.
pub open spec fn traded_qty(history: Seq<Submission>) -> nat
    decreases history.len(),
{
    if history.len() == 0 {
        0
    } else {
        traded_qty(history.drop_last()) + filled(history.last().fills)
    }
}

/// Over every history, the book is in order, all that was bid was traded or rests as a bid, and
/// all that was offered was traded or rests as an ask.
pub proof fn law_history_conserves_quantity(history: Seq<Submission>)
    requires
        happened(history),
    ensures
        book_after(history).valid(),
        submitted_qty(history, Side::Buy) == traded_qty(history) + volume(book_after(history).bids),
        submitted_qty(history, Side::Sell) == traded_qty(history) + volume(
            book_after(history).asks,
        ),
    decreases history.len(),
{
    if history.len() > 0 {
        let init = history.drop_last();
        let last = history.last();
        law_history_conserves_quantity(init);
        law_book_stays_valid(book_after(init), last.taker, last.fills);
        law_quantity_is_conserved(book_after(init), last.taker, last.fills);
    }
}

/// `makers` without the first `qty` of their quantity.
spec fn without_first(makers: Seq<Order>, qty: nat) -> Seq<Order>
    decreases makers.len(),
{
    if qty == 0 || makers.len() == 0 {
        makers
    } else if makers[0].qty <= qty {
        without_first(makers.drop_first(), (qty - makers[0].qty) as nat)
    } else {
        makers.update(0, with_qty(makers[0], (makers[0].qty - qty) as u64))
    }
}

proof fn lemma_without_first_twice(makers: Seq<Order>, a: nat, b: nat)
    requires
        forall|i: int| 0 <= i < makers.len() ==> (#[trigger] makers[i]).qty > 0,
    ensures
        without_first(without_first(makers, a), b) == without_first(makers, a + b),
    decreases makers.len(),
{
    if a > 0 && makers.len() > 0 {
        let tail = makers.drop_first();
        assert(forall|i: int| 0 <= i < tail.len() ==> #[trigger] tail[i] == makers[i + 1]);
        if makers[0].qty <= a {
            lemma_without_first_twice(tail, (a - makers[0].qty) as nat, b);
        } else if b > 0 {
            let kept = with_qty(makers[0], (makers[0].qty - a) as u64);
            assert(makers.update(0, kept).drop_first() =~= tail);
            assert(without_first(makers, a + b) =~= without_first(makers.update(0, kept), b));
        }
    }
}

/// `without_first` skips makers that are taken whole.
proof fn lemma_without_first_skips(makers: Seq<Order>, k: int, qty: nat)
    requires
        forall|i: int| 0 <= i < makers.len() ==> (#[trigger] makers[i]).qty > 0,
        0 <= k <= makers.len(),
        volume(makers.take(k)) <= qty,
    ensures
        without_first(makers, qty) == without_first(
            makers.skip(k),
            (qty - volume(makers.take(k))) as nat,
        ),
    decreases k,
{
    if k == 0 {
        assert(makers.skip(0) =~= makers);
        assert(makers.take(0) =~= Seq::empty());
    } else {
        lemma_volume_step(makers, k - 1);
        lemma_without_first_skips(makers, k - 1, qty);
        let rest = makers.skip(k - 1);
        assert(rest[0] == makers[k - 1]);
        assert(rest.drop_first() =~= makers.skip(k));
    }
}

/// What rests after the fills is what rested before without the first of its quantity.
proof fn lemma_left_is_without_first(
    taker: Order,
    makers: Seq<Order>,
    side: Side,
    fills: Seq<Fill>,
)
    requires
        valid_side(side, makers),
        executes(taker, makers, fills),
    ensures
        left_resting(makers, fills) == without_first(makers, filled(fills)),
{
    let n = fills.len() as int;
    if n > 0 {
        lemma_filled(taker, makers, fills);
        lemma_filled_prefix(taker, makers, fills, n - 1);
        lemma_volume_step(makers, n - 1);
        assert(reached(taker, makers, n - 1));
        assert(fills[n - 1] == fill_against(taker, makers, n - 1));
        assert(fills.take(n - 1) =~= fills.drop_last());
        lemma_without_first_skips(makers, n - 1, filled(fills));
        let rest = makers.skip(n - 1);
        assert(rest[0] == makers[n - 1]);
        assert(rest.drop_first() =~= makers.skip(n));
        assert(without_first(makers.skip(n), 0) == makers.skip(n));
        assert(left_resting(makers, fills) =~= without_first(rest, fills.last().qty as nat));
    }
}

/// What the fills take is no longer available to an order with the same limit.
proof fn lemma_available_left(taker: Order, makers: Seq<Order>, fills: Seq<Fill>)
    requires
        executes(taker, makers, fills),
    ensures
        volume(left_resting(makers, fills).filter(|o: Order| crosses(taker, o.price))) + filled(fills)
            == volume(makers.filter(|o: Order| crosses(taker, o.price))),
{
    let pred = |o: Order| crosses(taker, o.price);
    let n = fills.len() as int;
    let front = makers.take(n);
    let behind = makers.skip(n);
    let left = left_resting(makers, fills);
    lemma_volume_left(taker, makers, fills);
    assert(front + behind =~= makers);
    Seq::filter_distributes_over_add(front, behind, pred);
    assert forall|i: int| 0 <= i < front.len() implies pred(#[trigger] front[i]) by {
        assert(reached(taker, makers, i));
    }
    lemma_filter_all(front, pred);
    lemma_volume_add(front, behind.filter(pred));
    lemma_volume_add(front, behind);
    let kept = left.take(left.len() - behind.len());
    assert(kept + behind =~= left);
    Seq::filter_distributes_over_add(kept, behind, pred);
    assert forall|i: int| 0 <= i < kept.len() implies pred(#[trigger] kept[i]) by {
        assert(reached(taker, makers, n - 1));
    }
    lemma_filter_all(kept, pred);
    lemma_volume_add(kept, behind.filter(pred));
    lemma_volume_add(kept, behind);
}

/// Splitting an order in two changes neither how much is traded nor what the makers keep: an
/// order for the whole does the same to them as its two parts, submitted one after the other.
pub proof fn law_split_order_trades_the_same(
    book: BookView,
    first: Order,
    second: Order,
    whole: Order,
    first_fills: Seq<Fill>,
    second_fills: Seq<Fill>,
    whole_fills: Seq<Fill>,
)
    requires
        book.valid(),
        first.side == whole.side,
        second.side == whole.side,
        first.price == whole.price,
        second.price == whole.price,
        whole.qty == first.qty + second.qty,
        executes(first, book.makers_for(first.side), first_fills),
        executes(
            second,
            book.submitted(first, first_fills).makers_for(second.side),
            second_fills,
        ),
        executes(whole, book.makers_for(whole.side), whole_fills),
    ensures
        filled(whole_fills) == filled(first_fills) + filled(second_fills),
        ({
            let between = book.submitted(first, first_fills);
            between.submitted(second, second_fills).makers_for(whole.side) == book.submitted(
                whole,
                whole_fills,
            ).makers_for(whole.side)
        }),
{
    let side = opposite(whole.side);
    let makers = book.makers_for(whole.side);
    let between = book.submitted(first, first_fills);
    let left = between.makers_for(whole.side);
    law_book_stays_valid(book, first, first_fills);
    law_fills_are_maximal(book, first, first_fills);
    law_fills_are_maximal(book, whole, whole_fills);
    law_fills_are_maximal(between, second, second_fills);
    lemma_available_left(first, makers, first_fills);
    let by_first = |o: Order| crosses(first, o.price);
    let by_second = |o: Order| crosses(second, o.price);
    let by_whole = |o: Order| crosses(whole, o.price);
    assert(by_first =~= by_second);
    assert(by_first =~= by_whole);
    lemma_left_is_without_first(first, makers, side, first_fills);
    lemma_left_is_without_first(second, left, side, second_fills);
    lemma_left_is_without_first(whole, makers, side, whole_fills);
    lemma_without_first_twice(makers, filled(first_fills), filled(second_fills));
}

} // verus!
