//! Buying and selling are mirror images of each other.
use crate::model::{
    better, executes, fill_against, filled, left_resting, opposite, queued, reached, volume,
    with_qty, BookView,
};
use crate::types::{Fill, Order, Side};
use vstd::prelude::*;

verus! {

/// The price that is as far from the top as `price` is from the bottom.
pub open spec fn mirror_price(price: u64) -> u64 {
    (u64::MAX - price) as u64
}

/// `order` on the other side, at the mirrored price.
pub open spec fn mirror(order: Order) -> Order {
    Order { side: opposite(order.side), price: mirror_price(order.price), ..order }
}

/// Each order of `orders`, mirrored.
pub open spec fn mirror_orders(orders: Seq<Order>) -> Seq<Order> {
    orders.map_values(|o: Order| mirror(o))
}

/// Each fill of `fills`, at the mirrored price.
pub open spec fn mirror_fills(fills: Seq<Fill>) -> Seq<Fill> {
    fills.map_values(|f: Fill| Fill { price: mirror_price(f.price), ..f })
}

/// `book` with its sides exchanged and its prices mirrored.
pub open spec fn mirror_book(book: BookView) -> BookView {
    BookView { bids: mirror_orders(book.asks), asks: mirror_orders(book.bids) }
}

proof fn lemma_mirror_volume(orders: Seq<Order>)
    ensures
        volume(mirror_orders(orders)) == volume(orders),
    decreases orders.len(),
{
    if orders.len() > 0 {
        lemma_mirror_volume(orders.drop_last());
        assert(mirror_orders(orders).drop_last() =~= mirror_orders(orders.drop_last()));
    }
}

proof fn lemma_mirror_filled(fills: Seq<Fill>)
    ensures
        filled(mirror_fills(fills)) == filled(fills),
    decreases fills.len(),
{
    if fills.len() > 0 {
        lemma_mirror_filled(fills.drop_last());
        assert(mirror_fills(fills).drop_last() =~= mirror_fills(fills.drop_last()));
    }
}

proof fn lemma_mirror_filter(
    orders: Seq<Order>,
    pred: spec_fn(Order) -> bool,
    mirrored: spec_fn(Order) -> bool,
)
    requires
        forall|o: Order| mirrored(#[trigger] mirror(o)) <==> pred(o),
    ensures
        mirror_orders(orders).filter(mirrored) == mirror_orders(orders.filter(pred)),
    decreases orders.len(),
{
    reveal(Seq::filter);
    if orders.len() > 0 {
        let init = orders.drop_last();
        let last = orders.last();
        lemma_mirror_filter(init, pred, mirrored);
        assert(mirror_orders(orders).drop_last() =~= mirror_orders(init));
        assert(mirror_orders(orders).last() == mirror(last));
        assert(mirrored(mirror(last)) <==> pred(last));
        assert(mirror_orders(init.filter(pred)).push(mirror(last)) =~= mirror_orders(
            init.filter(pred).push(last),
        ));
    } else {
        assert(mirror_orders(orders).filter(mirrored) =~= mirror_orders(orders.filter(pred)));
    }
}

proof fn lemma_mirror_queued(side: Side, orders: Seq<Order>, order: Order)
    ensures
        queued(opposite(side), mirror_orders(orders), mirror(order)) == mirror_orders(
            queued(side, orders, order),
        ),
{
    let m = mirror(order);
    let ahead = |o: Order| !better(side, order.price, o.price);
    let behind = |o: Order| better(side, order.price, o.price);
    let m_ahead = |o: Order| !better(opposite(side), m.price, o.price);
    let m_behind = |o: Order| better(opposite(side), m.price, o.price);
    lemma_mirror_filter(orders, ahead, m_ahead);
    lemma_mirror_filter(orders, behind, m_behind);
    assert(queued(opposite(side), mirror_orders(orders), m) =~= mirror_orders(
        queued(side, orders, order),
    ));
}

proof fn lemma_mirror_executes(taker: Order, makers: Seq<Order>, fills: Seq<Fill>)
    requires
        executes(taker, makers, fills),
    ensures
        executes(mirror(taker), mirror_orders(makers), mirror_fills(fills)),
        left_resting(mirror_orders(makers), mirror_fills(fills)) == mirror_orders(
            left_resting(makers, fills),
        ),
{
    let m_taker = mirror(taker);
    let m_makers = mirror_orders(makers);
    let m_fills = mirror_fills(fills);
    assert forall|i: int| 0 <= i < makers.len() implies (#[trigger] reached(m_taker, m_makers, i)
        <==> i < fills.len()) by {
        assert(m_makers.take(i) =~= mirror_orders(makers.take(i)));
        lemma_mirror_volume(makers.take(i));
        assert(reached(taker, makers, i) <==> i < fills.len());
    }
    assert forall|i: int| 0 <= i < fills.len() implies #[trigger] m_fills[i] == fill_against(
        m_taker,
        m_makers,
        i,
    ) by {
        assert(m_makers.take(i) =~= mirror_orders(makers.take(i)));
        lemma_mirror_volume(makers.take(i));
        assert(fills[i] == fill_against(taker, makers, i));
    }
    assert(left_resting(m_makers, m_fills) =~= mirror_orders(left_resting(makers, fills)));
}

/// Selling is the mirror image of buying: mirroring the book and the order mirrors the fills and
/// the book that comes of them.
pub proof fn law_sides_are_mirror_images(book: BookView, taker: Order, fills: Seq<Fill>)
    requires
        executes(taker, book.makers_for(taker.side), fills),
    ensures
        executes(
            mirror(taker),
            mirror_book(book).makers_for(mirror(taker).side),
            mirror_fills(fills),
        ),
        mirror_book(book).submitted(mirror(taker), mirror_fills(fills)) == mirror_book(
            book.submitted(taker, fills),
        ),
{
    let own = book.makers_for(opposite(taker.side));
    lemma_mirror_executes(taker, book.makers_for(taker.side), fills);
    lemma_mirror_filled(fills);
    if filled(fills) < taker.qty {
        let qty = (taker.qty - filled(fills)) as u64;
        lemma_mirror_queued(taker.side, own, with_qty(taker, qty));
        assert(mirror(with_qty(taker, qty)) == with_qty(mirror(taker), qty));
    }
}

} // verus!
