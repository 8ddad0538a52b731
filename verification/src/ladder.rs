//! One side of the order book: a queue of resting orders for each price.
use crate::model::{
    at_price, best_first, better, executes, fill_against, filled, left_resting, lemma_filter_all,
    lemma_filter_none, lemma_reached_is_prefix, lemma_volume_monotone, lemma_volume_step, queued,
    reached, rests_at, shows, summarizes, totals_fit, valid_side, volume, with_qty,
};
use crate::types::{Fill, Order, PriceLevel, Side};
use std::collections::btree_map::Iter;
use std::collections::{BTreeMap, VecDeque};
use vstd::prelude::*;
use vstd::std_specs::cmp::OrdSpec;
use vstd::std_specs::iter::IteratorSpec;

verus! {

/// Whether `p` is the price of `prices` that trades first on `side`.
spec fn is_best(side: Side, prices: Set<u64>, p: u64) -> bool {
    &&& prices.contains(p)
    &&& forall|q: u64| #[trigger] prices.contains(q) ==> !better(side, q, p)
}

/// The price of `prices` that trades first on `side`, if there is any.
spec fn best_of(side: Side, prices: Set<u64>) -> u64 {
    choose|p: u64| is_best(side, prices, p)
}

proof fn lemma_best_exists(side: Side, prices: Set<u64>)
    requires
        prices.finite(),
        !prices.is_empty(),
    ensures
        is_best(side, prices, best_of(side, prices)),
    decreases prices.len(),
{
    let a = prices.choose();
    let others = prices.remove(a);
    if others.is_empty() {
        assert forall|q: u64| #[trigger] prices.contains(q) implies !better(side, q, a) by {
            assert(!others.contains(q));
        }
        assert(is_best(side, prices, a));
    } else {
        lemma_best_exists(side, others);
        let b = best_of(side, others);
        let p = if better(side, a, b) {
            a
        } else {
            b
        };
        assert forall|q: u64| #[trigger] prices.contains(q) implies !better(side, q, p) by {
            assert(q == a || others.contains(q));
        }
        assert(is_best(side, prices, p));
    }
}

/// The orders of all the queues in `queues`, best price first, each queue from its front.
spec fn listed(side: Side, queues: Map<u64, Seq<Order>>) -> Seq<Order>
    decreases queues.dom().len(),
    when queues.dom().finite()
{
    if queues.dom().is_empty() {
        Seq::empty()
    } else {
        proof {
            lemma_best_exists(side, queues.dom());
        }
        let p = best_of(side, queues.dom());
        queues[p] + listed(side, queues.remove(p))
    }
}

/// Whether each queue holds orders of its own price only.
spec fn priced(queues: Map<u64, Seq<Order>>) -> bool {
    forall|p: u64, i: int|
        queues.contains_key(p) && 0 <= i < queues[p].len() ==> (#[trigger] queues[p][i]).price == p
}

proof fn lemma_listed_best(side: Side, queues: Map<u64, Seq<Order>>, p: u64)
    requires
        queues.dom().finite(),
        is_best(side, queues.dom(), p),
    ensures
        listed(side, queues) == queues[p] + listed(side, queues.remove(p)),
{
    lemma_best_exists(side, queues.dom());
    assert(best_of(side, queues.dom()) == p);
}

/// The listing holds exactly the queued orders, best price first.
proof fn lemma_listed(side: Side, queues: Map<u64, Seq<Order>>)
    requires
        queues.dom().finite(),
        priced(queues),
    ensures
        best_first(side, listed(side, queues)),
        forall|i: int|
            #![trigger listed(side, queues)[i]]
            0 <= i < listed(side, queues).len() ==> {
                let o = listed(side, queues)[i];
                queues.contains_key(o.price) && queues[o.price].contains(o)
            },
    decreases queues.dom().len(),
{
    if !queues.dom().is_empty() {
        lemma_best_exists(side, queues.dom());
        let p = best_of(side, queues.dom());
        let rest = queues.remove(p);
        lemma_listed(side, rest);
        let s = listed(side, queues);
        let tail = listed(side, rest);
        assert(s == queues[p] + tail);
        assert forall|i: int| #![trigger s[i]] 0 <= i < s.len() implies queues.contains_key(s[i].price)
            && queues[s[i].price].contains(s[i]) by {
            if i < queues[p].len() {
                assert(s[i] == queues[p][i]);
            } else {
                assert(s[i] == tail[i - queues[p].len()]);
            }
        }
        assert forall|i: int, j: int| 0 <= i < j < s.len() implies !better(
            side,
            #[trigger] s[j].price,
            #[trigger] s[i].price,
        ) by {
            if i < queues[p].len() {
                assert(s[i] == queues[p][i]);
                assert(queues.dom().contains(s[j].price));
            } else {
                assert(s[i] == tail[i - queues[p].len()]);
                assert(s[j] == tail[j - queues[p].len()]);
            }
        }
    }
}

/// The queue of `p`, empty if there is none.
spec fn queue_at(queues: Map<u64, Seq<Order>>, p: u64) -> Seq<Order> {
    if queues.contains_key(p) {
        queues[p]
    } else {
        Seq::empty()
    }
}

/// The listed orders at a price are the queue of that price.
proof fn lemma_listed_at(side: Side, queues: Map<u64, Seq<Order>>, p: u64)
    requires
        queues.dom().finite(),
        priced(queues),
    ensures
        at_price(listed(side, queues), p) == queue_at(queues, p),
    decreases queues.dom().len(),
{
    let pred = |o: Order| o.price == p;
    if queues.dom().is_empty() {
        lemma_filter_none(listed(side, queues), pred);
    } else {
        lemma_best_exists(side, queues.dom());
        let b = best_of(side, queues.dom());
        let rest = queues.remove(b);
        lemma_listed_at(side, rest, p);
        Seq::filter_distributes_over_add(queues[b], listed(side, rest), pred);
        if b == p {
            lemma_filter_all(queues[b], pred);
        } else {
            lemma_filter_none(queues[b], pred);
        }
        assert(at_price(listed(side, queues), p) == queue_at(queues, p));
    }
}

/// Queueing passes the orders at the order's price or a better one.
proof fn lemma_queued_passes(side: Side, front: Seq<Order>, tail: Seq<Order>, order: Order)
    requires
        forall|i: int| 0 <= i < front.len() ==> !better(side, order.price, (#[trigger] front[i]).price),
    ensures
        queued(side, front + tail, order) == front + queued(side, tail, order),
{
    let ahead = |o: Order| !better(side, order.price, o.price);
    let behind = |o: Order| better(side, order.price, o.price);
    Seq::filter_distributes_over_add(front, tail, ahead);
    Seq::filter_distributes_over_add(front, tail, behind);
    lemma_filter_all(front, ahead);
    lemma_filter_none(front, behind);
    assert(queued(side, front + tail, order) =~= front + queued(side, tail, order));
}

/// Queueing stops before the orders at a worse price.
proof fn lemma_queued_stops(side: Side, tail: Seq<Order>, order: Order)
    requires
        forall|i: int| 0 <= i < tail.len() ==> better(side, order.price, (#[trigger] tail[i]).price),
    ensures
        queued(side, tail, order) == seq![order] + tail,
{
    lemma_filter_none(tail, |o: Order| !better(side, order.price, o.price));
    lemma_filter_all(tail, |o: Order| better(side, order.price, o.price));
    assert(queued(side, tail, order) =~= seq![order] + tail);
}

/// Pushing an order on the queue of its price puts it behind the orders at its price or a better
/// one and ahead of the others.
proof fn lemma_listed_push(side: Side, queues: Map<u64, Seq<Order>>, order: Order)
    requires
        queues.dom().finite(),
        priced(queues),
    ensures
        listed(side, queues.insert(order.price, queue_at(queues, order.price).push(order)))
            == queued(side, listed(side, queues), order),
    decreases queues.dom().len(),
{
    let p = order.price;
    let pushed = queues.insert(p, queue_at(queues, p).push(order));
    lemma_best_exists(side, pushed.dom());
    let b = best_of(side, pushed.dom());
    lemma_listed_best(side, pushed, b);
    let front = queue_at(queues, b);
    let rest = queues.remove(b);
    let tail = listed(side, rest);
    assert(listed(side, queues) == front + tail) by {
        if queues.contains_key(b) {
            assert forall|q: u64| #[trigger] queues.dom().contains(q) implies !better(side, q, b) by {
                assert(pushed.dom().contains(q));
            }
            lemma_listed_best(side, queues, b);
        } else {
            assert(rest =~= queues);
            assert(front + tail =~= tail);
        }
    }
    assert(!better(side, p, b)) by {
        assert(pushed.dom().contains(p));
    }
    lemma_queued_passes(side, front, tail, order);
    if b == p {
        assert(pushed.remove(b) =~= rest);
        lemma_listed(side, rest);
        assert forall|i: int| 0 <= i < tail.len() implies better(side, p, (#[trigger] tail[i]).price) by {
            assert(rest.contains_key(tail[i].price));
            assert(pushed.dom().contains(tail[i].price));
        }
        lemma_queued_stops(side, tail, order);
        assert(front.push(order) + tail =~= front + (seq![order] + tail));
    } else {
        assert(pushed.remove(b) =~= rest.insert(p, queue_at(rest, p).push(order)));
        lemma_listed_push(side, rest, order);
    }
}

/// Whether `all` holds every level of `levels` once, in increasing order of price.
spec fn enumerates(all: Seq<(&u64, &VecDeque<Order>)>, levels: Map<u64, VecDeque<Order>>) -> bool {
    &&& forall|i: int|
        0 <= i < all.len() ==> levels.contains_key(*(#[trigger] all[i]).0) && levels[*all[i].0]
            == *all[i].1
    &&& forall|p: u64| #[trigger]
        levels.contains_key(p) ==> exists|i: int| 0 <= i < all.len() && *(#[trigger] all[i]).0 == p
    &&& forall|i: int, j: int|
        0 <= i < j < all.len() ==> *(#[trigger] all[i]).0 < *(#[trigger] all[j]).0
}

/// Takes the first of the items that `items` has left.
fn take_first<I: Iterator>(items: &mut I) -> (first: Option<I::Item>)
    requires
        <I as IteratorSpec>::obeys_prophetic_iter_laws(old(items)),
    ensures
        <I as IteratorSpec>::remaining(old(items)).len() == 0 ==> first is None,
        <I as IteratorSpec>::remaining(old(items)).len() > 0 ==> first == Some(
            <I as IteratorSpec>::remaining(old(items))[0],
        ),
        <I as IteratorSpec>::remaining(old(items)).len() > 0 ==> <I as IteratorSpec>::remaining(
            final(items),
        ) == <I as IteratorSpec>::remaining(old(items)).drop_first(),
{
    items.next()
}

/// Takes the last of the items that `items` has left.
fn take_last<I: DoubleEndedIterator>(items: &mut I) -> (last: Option<I::Item>)
    requires
        <I as IteratorSpec>::obeys_prophetic_iter_laws(old(items)),
    ensures
        <I as IteratorSpec>::remaining(old(items)).len() == 0 ==> last is None,
        <I as IteratorSpec>::remaining(old(items)).len() > 0 ==> last == Some(
            <I as IteratorSpec>::remaining(old(items)).last(),
        ),
        <I as IteratorSpec>::remaining(old(items)).len() > 0 ==> <I as IteratorSpec>::remaining(
            final(items),
        ) == <I as IteratorSpec>::remaining(old(items)).drop_last(),
{
    items.next_back()
}

/// The queues of a price map, as sequences.
spec fn queues(levels: Map<u64, VecDeque<Order>>) -> Map<u64, Seq<Order>> {
    levels.map_values(|q: VecDeque<Order>| q@)
}

/// The levels in increasing order of price.
fn entries_of(levels: &BTreeMap<u64, VecDeque<Order>>) -> (entries: Iter<'_, u64, VecDeque<Order>>)
    ensures
        enumerates(entries.remaining(), levels@),
        entries.remaining().len() == levels@.dom().len(),
{
    let entries = levels.iter();
    proof {
        let all = entries.remaining();
        let prices = all.map_values(|kv: (&u64, &VecDeque<Order>)| *kv.0);
        assert forall|i: int| 0 <= i < all.len() implies levels@.contains_key(*(#[trigger] all[i]).0)
            && levels@[*all[i].0] == *all[i].1 by {
            assert(levels@.contains_key(*all[i].0));
        }
        assert forall|p: u64| #[trigger] levels@.contains_key(p) implies exists|i: int|
            0 <= i < all.len() && *(#[trigger] all[i]).0 == p by {
            assert(all.contains((&p, &levels@[p])));
        }
        assert(vstd::laws_cmp::obeys_cmp::<u64>());
        assert(vstd::std_specs::btree::increasing_seq(prices));
        assert forall|i: int, j: int| 0 <= i < j < all.len() implies *(#[trigger] all[i]).0 < *(
        #[trigger] all[j]).0 by {
            assert(prices[i].cmp_spec(&prices[j]) is Less);
        }
    }
    entries
}

/// The total quantity of a queue, or `None` if it is no `u64`.
fn total_qty(level: &VecDeque<Order>) -> (total: Option<u64>)
    ensures
        match total {
            Some(qty) => qty == volume(level@),
            None => volume(level@) > u64::MAX,
        },
{
    let mut total: u64 = 0;
    let mut i: usize = 0;
    proof {
        assert(level@.take(0) =~= Seq::empty());
    }
    while i < level.len()
        invariant
            i <= level@.len(),
            total == volume(level@.take(i as int)),
        decreases level@.len() - i,
    {
        proof {
            lemma_volume_step(level@, i as int);
            lemma_volume_monotone(level@, i + 1, level@.len() as int);
            assert(level@.take(level@.len() as int) =~= level@);
        }
        match total.checked_add(level[i].qty) {
            Some(sum) => {
                total = sum;
            },
            None => {
                return None;
            },
        }
        i = i + 1;
    }
    assert(level@.take(level@.len() as int) =~= level@);
    Some(total)
}

/// The resting orders of one side of the book.
#[derive(Debug)]
pub struct Ladder {
    side: Side,
    levels: BTreeMap<u64, VecDeque<Order>>,
}

impl Ladder {
    /// The resting orders, the order that trades next first.
    pub closed spec fn view(&self) -> Seq<Order> {
        listed(self.side, queues(self.levels@))
    }

    /// The side of the book that this is.
    pub closed spec fn side(&self) -> Side {
        self.side
    }

    /// No level is empty; each holds orders of its price and of this side, none of them empty.
    pub closed spec fn wf(&self) -> bool {
        &&& priced(queues(self.levels@))
        &&& forall|p: u64| #[trigger]
            self.levels@.contains_key(p) ==> self.levels@[p]@.len() > 0
        &&& forall|p: u64, i: int|
            self.levels@.contains_key(p) && 0 <= i < self.levels@[p]@.len() ==> {
                let o = #[trigger] self.levels@[p]@[i];
                o.side == self.side && o.qty > 0
            }
    }

    /// An empty side.
    pub fn new(side: Side) -> (ladder: Ladder)
        ensures
            ladder.wf(),
            ladder.side() == side,
            ladder@ == Seq::<Order>::empty(),
    {
        let ladder = Ladder { side, levels: BTreeMap::new() };
        assert(queues(ladder.levels@).dom() =~= Set::empty());
        ladder
    }

    /// What rests on a well-formed side can rest there.
    pub proof fn lemma_valid(&self)
        requires
            self.wf(),
        ensures
            valid_side(self.side(), self@),
    {
        let m = queues(self.levels@);
        assert(m.dom() =~= self.levels@.dom());
        lemma_listed(self.side, m);
        assert forall|i: int| 0 <= i < self@.len() implies (#[trigger] self@[i]).side == self.side
            && self@[i].qty > 0 by {
            let o = self@[i];
            let k = choose|k: int| 0 <= k < m[o.price].len() && m[o.price][k] == o;
            assert(self.levels@[o.price]@[k] == o);
        }
    }

    /// The best price at which an order rests.
    fn best_price(&self) -> (best: Option<u64>)
        ensures
            best is None <==> self.levels@.dom().is_empty(),
            best matches Some(p) ==> is_best(self.side, self.levels@.dom(), p),
    {
        let mut entries = entries_of(&self.levels);
        let ghost all = entries.remaining();
        let end = match self.side {
            Side::Buy => take_last(&mut entries),
            Side::Sell => take_first(&mut entries),
        };
        match end {
            Some((price, _)) => {
                assert forall|q: u64| #[trigger] self.levels@.dom().contains(q) implies !better(
                    self.side,
                    q,
                    *price,
                ) by {
                    assert(self.levels@.contains_key(q));
                    let i = choose|i: int| 0 <= i < all.len() && *(#[trigger] all[i]).0 == q;
                }
                Some(*price)
            },
            None => None,
        }
    }

    /// Matches `taker` against the resting orders, and returns the executions with what is left
    /// of `taker`.
    pub fn execute(&mut self, taker: Order) -> (result: (Vec<Fill>, Order))
        requires
            old(self).wf(),
            taker.side != old(self).side(),
        ensures
            final(self).wf(),
            final(self).side() == old(self).side(),
            executes(taker, old(self)@, result.0@),
            final(self)@ == left_resting(old(self)@, result.0@),
            filled(result.0@) <= taker.qty,
            result.1 == with_qty(taker, (taker.qty - filled(result.0@)) as u64),
    {
        let ghost incoming = taker;
        let ghost makers = self@;
        let mut taker = taker;
        let mut fills: Vec<Fill> = Vec::new();
        proof {
            self.lemma_valid();
            assert(makers.skip(0) =~= makers);
            assert(makers.take(0) =~= Seq::empty());
        }
        while taker.qty > 0
            invariant
                self.wf(),
                self.side() == old(self).side(),
                incoming.side != self.side(),
                makers == old(self)@,
                valid_side(self.side(), makers),
                fills@.len() <= makers.len(),
                forall|i: int| 0 <= i < fills@.len() ==> #[trigger] reached(incoming, makers, i),
                forall|i: int|
                    0 <= i < fills@.len() ==> #[trigger] fills@[i] == fill_against(
                        incoming,
                        makers,
                        i,
                    ),
                self@ == left_resting(makers, fills@),
                filled(fills@) <= incoming.qty,
                taker == with_qty(incoming, (incoming.qty - filled(fills@)) as u64),
                filled(fills@) <= volume(makers.take(fills@.len() as int)),
                taker.qty > 0 ==> self@ == makers.skip(fills@.len() as int),
                taker.qty > 0 ==> filled(fills@) == volume(makers.take(fills@.len() as int)),
            ensures
                fills@.len() < makers.len() ==> !reached(incoming, makers, fills@.len() as int),
            decreases taker.qty,
        {
            let ghost n = fills@.len() as int;
            let ghost before = queues(self.levels@);
            let ghost earlier_levels = self.levels@;
            let best = match self.best_price() {
                Some(p) => p,
                None => {
                    assert(before.dom() =~= self.levels@.dom());
                    break;
                },
            };
            proof {
                assert(before.dom() =~= self.levels@.dom());
                lemma_listed_best(self.side, before, best);
                assert(before[best] == self.levels@[best]@);
                assert(self@[0] == before[best][0]);
                assert(makers[n] == self@[0]);
            }
            let crossed = match self.side {
                Side::Sell => best <= taker.price,
                Side::Buy => best >= taker.price,
            };
            if !crossed {
                break;
            }
            let mut level = self.levels.remove(&best).unwrap();
            let mut maker = level.pop_front().unwrap();
            let ghost reached_maker = maker;
            let ghost rest = listed(self.side, before.remove(best));
            let qty: u64 = if taker.qty <= maker.qty {
                taker.qty
            } else {
                maker.qty
            };
            let fill = Fill {
                maker_order_id: maker.id,
                taker_order_id: taker.id,
                price: maker.price,
                qty,
            };
            let ghost earlier = fills@;
            fills.push(fill);
            maker.qty = maker.qty - qty;
            taker.qty = taker.qty - qty;
            let ghost behind = level@;
            if maker.qty > 0 {
                level.push_front(maker);
            }
            let ghost level_left = level@;
            if level.len() > 0 {
                self.levels.insert(best, level);
            }
            proof {
                lemma_volume_step(makers, n);
                assert(fills@.drop_last() =~= earlier);
                assert(reached(incoming, makers, n));
                assert(fill == fill_against(incoming, makers, n));
                let after = queues(self.levels@);
                assert(after.remove(best) =~= before.remove(best));
                if level_left.len() > 0 {
                    assert(is_best(self.side, after.dom(), best)) by {
                        assert forall|q: u64| #[trigger] after.dom().contains(q) implies !better(
                            self.side,
                            q,
                            best,
                        ) by {
                            assert(q == best || before.dom().contains(q));
                        }
                    }
                    assert(after[best] == level_left);
                    lemma_listed_best(self.side, after, best);
                } else {
                    assert(after =~= before.remove(best));
                }
                assert forall|p: u64, i: int|
                    self.levels@.contains_key(p) && 0 <= i < self.levels@[p]@.len() implies ({
                    let o = #[trigger] self.levels@[p]@[i];
                    o.price == p && o.side == self.side && o.qty > 0
                }) by {
                    let k = i + before[best].len() - level_left.len();
                    if p != best {
                        assert(self.levels@[p]@[i] == earlier_levels[p]@[i]);
                        assert(before[p][i] == earlier_levels[p]@[i]);
                    } else {
                        assert(before[best][k] == earlier_levels[best]@[k]);
                    }
                }
                assert(self@ == level_left + rest);
                assert(makers.skip(n) == seq![reached_maker] + behind + rest);
                assert(makers.skip(n + 1) =~= makers.skip(n).skip(1));
                assert(makers.skip(n + 1) =~= behind + rest);
                assert(self@ =~= left_resting(makers, fills@));
            }
        }
        proof {
            if fills@.len() < makers.len() {
                lemma_reached_is_prefix(incoming, makers, self.side(), fills@.len() as int);
            }
        }
        (fills, taker)
    }

    /// Puts `order` to rest, behind the orders that rest at its price.
    pub fn rest(&mut self, order: Order)
        requires
            old(self).wf(),
            order.side == old(self).side(),
            order.qty > 0,
        ensures
            final(self).wf(),
            final(self).side() == old(self).side(),
            final(self)@ == queued(old(self).side(), old(self)@, order),
    {
        let ghost before = self.levels@;
        let ghost resting = order;
        proof {
            assert(queues(before).dom() =~= before.dom());
            lemma_listed_push(self.side, queues(before), order);
        }
        let price: u64 = order.price;
        let mut level = match self.levels.remove(&price) {
            Some(level) => level,
            None => VecDeque::new(),
        };
        level.push_back(order);
        let ghost pushed = level@;
        self.levels.insert(price, level);
        proof {
            let earlier = queue_at(queues(before), price);
            assert(pushed == earlier.push(resting));
            assert(queues(self.levels@) =~= queues(before).insert(price, pushed));
            assert forall|p: u64, i: int|
                self.levels@.contains_key(p) && 0 <= i < self.levels@[p]@.len() implies ({
                let o = #[trigger] self.levels@[p]@[i];
                o.price == p && o.side == self.side && o.qty > 0
            }) by {
                if p != price || i < earlier.len() {
                    assert(self.levels@[p]@[i] == before[p]@[i]);
                    assert(queues(before)[p][i] == before[p]@[i]);
                }
            }
        }
    }

    /// Whether `levels` holds the totals of the first entries of `all`, counted from the best price.
    spec fn sums_up(&self, all: Seq<(&u64, &VecDeque<Order>)>, levels: Seq<PriceLevel>) -> bool {
        forall|i: int|
            0 <= i < levels.len() ==> {
                let entry = all[if self.side is Sell {
                    i
                } else {
                    all.len() - 1 - i
                }];
                &&& (#[trigger] levels[i]).price == *entry.0
                &&& levels[i].qty == volume(entry.1@)
            }
    }

    proof fn lemma_summary(&self, all: Seq<(&u64, &VecDeque<Order>)>, levels: Seq<PriceLevel>)
        requires
            self.wf(),
            enumerates(all, self.levels@),
            levels.len() == all.len(),
            self.sums_up(all, levels),
        ensures
            totals_fit(self@),
            summarizes(self.side, self@, levels),
    {
        let m = queues(self.levels@);
        assert(m.dom() =~= self.levels@.dom());
        lemma_listed(self.side, m);
        let place = |i: int| if self.side is Sell { i } else { all.len() - 1 - i };
        assert forall|i: int| 0 <= i < levels.len() implies (#[trigger] levels[i]).qty == volume(
            at_price(self@, levels[i].price),
        ) by {
            assert(all[place(i)].1@ == m[*all[place(i)].0]);
            lemma_listed_at(self.side, m, levels[i].price);
        }
        assert forall|p: u64| #[trigger] self.levels@.contains_key(p) implies shows(levels, p) by {
            let k = choose|k: int| 0 <= k < all.len() && *(#[trigger] all[k]).0 == p;
            assert(levels[place(k)].price == p);
        }
        assert forall|p: u64| #[trigger] rests_at(self@, p) <==> #[trigger] shows(levels, p) by {
            if rests_at(self@, p) {
                let k = choose|k: int| 0 <= k < self@.len() && (#[trigger] self@[k]).price == p;
                assert(self.levels@.contains_key(p));
            }
            if shows(levels, p) {
                let i = choose|i: int| 0 <= i < levels.len() && (#[trigger] levels[i]).price == p;
                assert(self.levels@.contains_key(*all[place(i)].0));
                lemma_listed_at(self.side, m, p);
                let first = at_price(self@, p)[0];
                assert(at_price(self@, p).contains(first));
                self@.lemma_filter_contains_rev(|o: Order| o.price == p, first);
            }
        }
        assert forall|p: u64| volume(#[trigger] at_price(self@, p)) <= u64::MAX by {
            lemma_listed_at(self.side, m, p);
            if self.levels@.contains_key(p) {
                assert(shows(levels, p));
                let i = choose|i: int| 0 <= i < levels.len() && (#[trigger] levels[i]).price == p;
                assert(levels[i].qty == volume(at_price(self@, p)));
            }
        }
    }

    /// The total quantity at each price, best price first, or `None` if one is no `u64`.
    pub fn summary(&self) -> (levels: Option<Vec<PriceLevel>>)
        requires
            self.wf(),
        ensures
            levels is Some <==> totals_fit(self@),
            levels matches Some(levels) ==> summarizes(self.side(), self@, levels@),
    {
        let mut entries = entries_of(&self.levels);
        let ghost all = entries.remaining();
        let ghost m = queues(self.levels@);
        let count: usize = self.levels.len();
        let mut levels: Vec<PriceLevel> = Vec::new();
        let mut done: usize = 0;
        while done < count
            invariant
                self.wf(),
                m == queues(self.levels@),
                enumerates(all, self.levels@),
                count == all.len(),
                done <= count,
                levels@.len() == done,
                self.side is Sell ==> entries.remaining() == all.skip(done as int),
                self.side is Buy ==> entries.remaining() == all.take(count - done),
                self.sums_up(all, levels@),
            decreases count - done,
        {
            let entry = match self.side {
                Side::Buy => take_last(&mut entries),
                Side::Sell => take_first(&mut entries),
            };
            let (price, level) = entry.unwrap();
            proof {
                assert(m.dom() =~= self.levels@.dom());
                lemma_listed_at(self.side, m, *price);
            }
            match total_qty(level) {
                Some(qty) => {
                    levels.push(PriceLevel { price: *price, qty });
                },
                None => {
                    assert(volume(at_price(self@, *price)) > u64::MAX);
                    return None;
                },
            }
            done = done + 1;
        }
        proof {
            self.lemma_summary(all, levels@);
        }
        Some(levels)
    }
}

} // verus!
