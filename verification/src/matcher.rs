//! The matcher: it numbers the orders of a stream and matches them in turn.
use crate::book::OrderBook;
use crate::guarantees::{law_buy_submission, law_sell_submission};
use crate::laws::{accepted_by, law_fills_are_determined, law_time_order_is_kept};
use crate::model::{executes, filled, time_ordered, BookView};
use crate::types::{Fill, Order, Side};
use vstd::prelude::*;

verus! {

/// What a matcher knows: its book and the number of the last order that it matched.
#[verifier::ext_equal]
pub struct MatcherView {
    pub book: BookView,
    pub seq: u64,
}

impl MatcherView {
    /// Whether the orders at each price stand in the order in which the matcher numbered them.
    pub open spec fn time_ordered(self) -> bool {
        &&& time_ordered(self.book.bids)
        &&& time_ordered(self.book.asks)
        &&& accepted_by(self.book.bids, self.seq)
        &&& accepted_by(self.book.asks, self.seq)
    }
}

/// `order` with its sequence number replaced.
pub open spec fn with_seq(order: Order, seq: u64) -> Order {
    Order { seq, ..order }
}

/// Whether a matcher in state `before` that matches `order` comes to state `after` and yields
/// `fills`: the order gets the next sequence number and is submitted to the book.
pub open spec fn processes(
    before: MatcherView,
    order: Order,
    fills: Seq<Fill>,
    after: MatcherView,
) -> bool {
    let numbered = with_seq(order, after.seq);
    &&& after.seq == before.seq + 1
    &&& executes(numbered, before.book.makers_for(order.side), fills)
    &&& after.book == before.book.submitted(numbered, fills)
}

/// The state of a matcher and an order determine the fills and the next state.
pub proof fn law_processing_is_determined(
    before: MatcherView,
    order: Order,
    fills: Seq<Fill>,
    after: MatcherView,
    other_fills: Seq<Fill>,
    other_after: MatcherView,
)
    requires
        processes(before, order, fills, after),
        processes(before, order, other_fills, other_after),
    ensures
        fills == other_fills,
        after == other_after,
{
    law_fills_are_determined(
        with_seq(order, after.seq),
        before.book.makers_for(order.side),
        fills,
        other_fills,
    );
}

/// Processing keeps the order: its fills name its id, they stay within its limit, and what they
/// leave of it comes to rest under its id, on its side and at its price, with the next sequence
/// number and the quantity that was not filled.
pub proof fn law_processing_keeps_the_order(
    before: MatcherView,
    order: Order,
    fills: Seq<Fill>,
    after: MatcherView,
)
    requires
        before.book.valid(),
        processes(before, order, fills, after),
    ensures
        after.seq == before.seq + 1,
        order.side is Buy ==> {
            let asks = before.book.asks;
            let bids = before.book.bids;
            let asks_after = after.book.asks;
            let bids_after = after.book.bids;
            let n = fills.len() as int;
            &&& n <= asks.len()
            &&& forall|i: int| 0 <= i < n ==> (#[trigger] fills[i]).price <= order.price
            &&& forall|i: int|
                0 <= i < n ==> {
                    let fill = #[trigger] fills[i];
                    &&& fill.maker_order_id == asks[i].id
                    &&& fill.taker_order_id == order.id
                    &&& fill.price == asks[i].price
                    &&& 0 < fill.qty <= asks[i].qty
                    &&& i < n - 1 ==> fill.qty == asks[i].qty
                }
            &&& (forall|i: int|
                0 <= i < asks.len() ==> (#[trigger] asks[i]).price > order.price) ==> n == 0
            &&& order.qty > 0 && asks.len() > 0 && asks[0].price <= order.price ==> n > 0
            &&& filled(fills) <= order.qty
            &&& filled(fills) < order.qty ==> {
                &&& n > 0 ==> fills[n - 1].qty == asks[n - 1].qty
                &&& forall|i: int|
                    n <= i < asks.len() ==> (#[trigger] asks[i]).price > order.price
            }
            &&& asks_after == (if n > 0 && fills[n - 1].qty < asks[n - 1].qty {
                let kept = (asks[n - 1].qty - fills[n - 1].qty) as u64;
                asks.skip(n - 1).update(0, Order { qty: kept, ..asks[n - 1] })
            } else {
                asks.skip(n)
            })
            &&& filled(fills) == order.qty ==> bids_after == bids
            &&& filled(fills) < order.qty ==> {
                let rest = Order {
                    id: order.id,
                    side: order.side,
                    price: order.price,
                    qty: (order.qty - filled(fills)) as u64,
                    seq: after.seq,
                };
                exists|k: int|
                    {
                        &&& 0 <= k <= bids.len()
                        &&& bids_after == #[trigger] bids.insert(k, rest)
                        &&& forall|i: int|
                            0 <= i < k ==> (#[trigger] bids[i]).price >= order.price
                        &&& forall|i: int|
                            k <= i < bids.len() ==> (#[trigger] bids[i]).price < order.price
                    }
            }
        },
        order.side is Sell ==> {
            let bids = before.book.bids;
            let asks = before.book.asks;
            let bids_after = after.book.bids;
            let asks_after = after.book.asks;
            let n = fills.len() as int;
            &&& n <= bids.len()
            &&& forall|i: int| 0 <= i < n ==> (#[trigger] fills[i]).price >= order.price
            &&& forall|i: int|
                0 <= i < n ==> {
                    let fill = #[trigger] fills[i];
                    &&& fill.maker_order_id == bids[i].id
                    &&& fill.taker_order_id == order.id
                    &&& fill.price == bids[i].price
                    &&& 0 < fill.qty <= bids[i].qty
                    &&& i < n - 1 ==> fill.qty == bids[i].qty
                }
            &&& (forall|i: int|
                0 <= i < bids.len() ==> (#[trigger] bids[i]).price < order.price) ==> n == 0
            &&& order.qty > 0 && bids.len() > 0 && bids[0].price >= order.price ==> n > 0
            &&& filled(fills) <= order.qty
            &&& filled(fills) < order.qty ==> {
                &&& n > 0 ==> fills[n - 1].qty == bids[n - 1].qty
                &&& forall|i: int|
                    n <= i < bids.len() ==> (#[trigger] bids[i]).price < order.price
            }
            &&& bids_after == (if n > 0 && fills[n - 1].qty < bids[n - 1].qty {
                let kept = (bids[n - 1].qty - fills[n - 1].qty) as u64;
                bids.skip(n - 1).update(0, Order { qty: kept, ..bids[n - 1] })
            } else {
                bids.skip(n)
            })
            &&& filled(fills) == order.qty ==> asks_after == asks
            &&& filled(fills) < order.qty ==> {
                let rest = Order {
                    id: order.id,
                    side: order.side,
                    price: order.price,
                    qty: (order.qty - filled(fills)) as u64,
                    seq: after.seq,
                };
                exists|k: int|
                    {
                        &&& 0 <= k <= asks.len()
                        &&& asks_after == #[trigger] asks.insert(k, rest)
                        &&& forall|i: int|
                            0 <= i < k ==> (#[trigger] asks[i]).price <= order.price
                        &&& forall|i: int|
                            k <= i < asks.len() ==> (#[trigger] asks[i]).price > order.price
                    }
            }
        },
{
    match order.side {
        Side::Buy => law_buy_submission(before.book, with_seq(order, after.seq), fills),
        Side::Sell => law_sell_submission(before.book, with_seq(order, after.seq), fills),
    }
}

/// An entry of the order stream, as far as it could be read.
#[derive(Debug)]
pub enum StreamEntry {
    /// The entry has no payload.
    MissingData,
    /// The payload is no order.
    Malformed,
    Order(Order),
}

/// Matches the orders of one stream.
#[derive(Debug)]
pub struct Matcher {
    book: OrderBook,
    seq: u64,
}

impl View for Matcher {
    type V = MatcherView;

    closed spec fn view(&self) -> MatcherView {
        MatcherView { book: self.book@, seq: self.seq }
    }
}

impl Matcher {
    #[verifier::type_invariant]
    spec fn well_formed(self) -> bool {
        self@.book.valid() && self@.time_ordered()
    }

    /// A matcher that has seen no order.
    pub fn new() -> (matcher: Matcher)
        ensures
            matcher@ == (MatcherView { book: BookView::empty(), seq: 0 }),
            matcher@.book.bids.len() == 0,
            matcher@.book.asks.len() == 0,
            matcher@.seq == 0,
    {
        Matcher { book: OrderBook::new(), seq: 0 }
    }

    /// The book.
    pub fn book(&self) -> (book: &OrderBook)
        ensures
            book@ == self@.book,
            self@.book.valid(),
            self@.time_ordered(),
    {
        proof {
            use_type_invariant(self);
        }
        &self.book
    }

    /// The number of the last order that was matched.
    pub fn seq(&self) -> (seq: u64)
        ensures
            seq == self@.seq,
            self@.book.valid(),
            self@.time_ordered(),
    {
        proof {
            use_type_invariant(self);
        }
        self.seq
    }

    /// Gives `order` the next sequence number and submits it to the book.
    pub fn process(&mut self, order: Order) -> (fills: Vec<Fill>)
        requires
            old(self)@.seq < u64::MAX,
        ensures
            processes(old(self)@, order, fills@, final(self)@),
            old(self)@.book.valid(),
            old(self)@.time_ordered(),
            final(self)@.book.valid(),
            final(self)@.time_ordered(),
            final(self)@.seq == old(self)@.seq + 1,
            order.side is Buy ==> {
                let asks = old(self)@.book.asks;
                let bids = old(self)@.book.bids;
                let asks_after = final(self)@.book.asks;
                let bids_after = final(self)@.book.bids;
                let fills = fills@;
                let n = fills.len() as int;
                &&& n <= asks.len()
                &&& forall|i: int| 0 <= i < n ==> (#[trigger] fills[i]).price <= order.price
                &&& forall|i: int|
                    0 <= i < n ==> {
                        let fill = #[trigger] fills[i];
                        &&& fill.maker_order_id == asks[i].id
                        &&& fill.taker_order_id == order.id
                        &&& fill.price == asks[i].price
                        &&& 0 < fill.qty <= asks[i].qty
                        &&& i < n - 1 ==> fill.qty == asks[i].qty
                    }
                &&& (forall|i: int|
                    0 <= i < asks.len() ==> (#[trigger] asks[i]).price > order.price) ==> n == 0
                &&& order.qty > 0 && asks.len() > 0 && asks[0].price <= order.price ==> n > 0
                &&& filled(fills) <= order.qty
                &&& filled(fills) < order.qty ==> {
                    &&& n > 0 ==> fills[n - 1].qty == asks[n - 1].qty
                    &&& forall|i: int|
                        n <= i < asks.len() ==> (#[trigger] asks[i]).price > order.price
                }
                &&& asks_after == (if n > 0 && fills[n - 1].qty < asks[n - 1].qty {
                    let kept = (asks[n - 1].qty - fills[n - 1].qty) as u64;
                    asks.skip(n - 1).update(0, Order { qty: kept, ..asks[n - 1] })
                } else {
                    asks.skip(n)
                })
                &&& filled(fills) == order.qty ==> bids_after == bids
                &&& filled(fills) < order.qty ==> {
                    let rest = Order {
                        id: order.id,
                        side: order.side,
                        price: order.price,
                        qty: (order.qty - filled(fills)) as u64,
                        seq: final(self)@.seq,
                    };
                    exists|k: int|
                        {
                            &&& 0 <= k <= bids.len()
                            &&& bids_after == #[trigger] bids.insert(k, rest)
                            &&& forall|i: int|
                                0 <= i < k ==> (#[trigger] bids[i]).price >= order.price
                            &&& forall|i: int|
                                k <= i < bids.len() ==> (#[trigger] bids[i]).price < order.price
                        }
                }
            },
            order.side is Sell ==> {
                let bids = old(self)@.book.bids;
                let asks = old(self)@.book.asks;
                let bids_after = final(self)@.book.bids;
                let asks_after = final(self)@.book.asks;
                let fills = fills@;
                let n = fills.len() as int;
                &&& n <= bids.len()
                &&& forall|i: int| 0 <= i < n ==> (#[trigger] fills[i]).price >= order.price
                &&& forall|i: int|
                    0 <= i < n ==> {
                        let fill = #[trigger] fills[i];
                        &&& fill.maker_order_id == bids[i].id
                        &&& fill.taker_order_id == order.id
                        &&& fill.price == bids[i].price
                        &&& 0 < fill.qty <= bids[i].qty
                        &&& i < n - 1 ==> fill.qty == bids[i].qty
                    }
                &&& (forall|i: int|
                    0 <= i < bids.len() ==> (#[trigger] bids[i]).price < order.price) ==> n == 0
                &&& order.qty > 0 && bids.len() > 0 && bids[0].price >= order.price ==> n > 0
                &&& filled(fills) <= order.qty
                &&& filled(fills) < order.qty ==> {
                    &&& n > 0 ==> fills[n - 1].qty == bids[n - 1].qty
                    &&& forall|i: int|
                        n <= i < bids.len() ==> (#[trigger] bids[i]).price < order.price
                }
                &&& bids_after == (if n > 0 && fills[n - 1].qty < bids[n - 1].qty {
                    let kept = (bids[n - 1].qty - fills[n - 1].qty) as u64;
                    bids.skip(n - 1).update(0, Order { qty: kept, ..bids[n - 1] })
                } else {
                    bids.skip(n)
                })
                &&& filled(fills) == order.qty ==> asks_after == asks
                &&& filled(fills) < order.qty ==> {
                    let rest = Order {
                        id: order.id,
                        side: order.side,
                        price: order.price,
                        qty: (order.qty - filled(fills)) as u64,
                        seq: final(self)@.seq,
                    };
                    exists|k: int|
                        {
                            &&& 0 <= k <= asks.len()
                            &&& asks_after == #[trigger] asks.insert(k, rest)
                            &&& forall|i: int|
                                0 <= i < k ==> (#[trigger] asks[i]).price <= order.price
                            &&& forall|i: int|
                                k <= i < asks.len() ==> (#[trigger] asks[i]).price > order.price
                        }
                }
            },
    {
        proof {
            use_type_invariant(&*self);
        }
        let ghost before = self@;
        let seq: u64 = self.seq + 1;
        let order = Order { seq, ..order };
        let ghost numbered = order;
        let mut book = OrderBook::new();
        std::mem::swap(&mut self.book, &mut book);
        let fills = book.submit(order);
        proof {
            law_time_order_is_kept(before.book, numbered, fills@, before.seq);
        }
        self.seq = seq;
        self.book = book;
        fills
    }

    /// Handles one entry of the stream. An entry that holds no order is skipped, which `None`
    /// says; an order is processed.
    pub fn handle(&mut self, entry: StreamEntry) -> (fills: Option<Vec<Fill>>)
        requires
            entry is Order ==> old(self)@.seq < u64::MAX,
        ensures
            match entry {
                StreamEntry::Order(order) => fills matches Some(fills) && processes(
                    old(self)@,
                    order,
                    fills@,
                    final(self)@,
                ),
                _ => fills is None && final(self)@ == old(self)@,
            },
            final(self)@.book.valid(),
            final(self)@.time_ordered(),
    {
        proof {
            use_type_invariant(&*self);
        }
        match entry {
            StreamEntry::MissingData | StreamEntry::Malformed => None,
            StreamEntry::Order(order) => Some(self.process(order)),
        }
    }
}

/// What is left to do once an entry was handled.
#[derive(Debug, Clone, Copy, PartialEq, Eq, Structural)]
pub enum EntryTask {
    /// Publish the fills.
    Publish,
    /// Store the snapshot of the book.
    StoreSnapshot,
    /// Tell the stream that the entry is done with.
    Acknowledge,
}

/// What follows a task.
#[derive(Debug, Clone, Copy, PartialEq, Eq, Structural)]
pub enum EntryStep {
    Perform(EntryTask),
    /// Go on with the next entry.
    Done,
    /// Give up.
    Abort,
}

/// What follows `task`. An entry that was skipped only has to be acknowledged, and the stream may
/// miss that. An order is acknowledged once its snapshot is stored, whatever became of its fills,
/// and the matcher gives up where storing or acknowledging fails.
pub open spec fn step_after(matched: bool, task: EntryTask, succeeded: bool) -> EntryStep {
    match task {
        EntryTask::Publish => EntryStep::Perform(EntryTask::StoreSnapshot),
        EntryTask::StoreSnapshot => if succeeded {
            EntryStep::Perform(EntryTask::Acknowledge)
        } else {
            EntryStep::Abort
        },
        EntryTask::Acknowledge => if succeeded || !matched {
            EntryStep::Done
        } else {
            EntryStep::Abort
        },
    }
}

/// The first task for an entry: an order has fills to publish, any other entry has not.
pub fn first_task(matched: bool) -> (task: EntryTask)
    ensures
        task == if matched {
            EntryTask::Publish
        } else {
            EntryTask::Acknowledge
        },
{
    if matched {
        EntryTask::Publish
    } else {
        EntryTask::Acknowledge
    }
}

/// Decides what follows `task` for an entry that was `matched` or skipped.
pub fn next_task(matched: bool, task: EntryTask, succeeded: bool) -> (step: EntryStep)
    ensures
        step == step_after(matched, task, succeeded),
        task is Publish ==> step == EntryStep::Perform(EntryTask::StoreSnapshot),
        task is StoreSnapshot && succeeded ==> step == EntryStep::Perform(EntryTask::Acknowledge),
        task is StoreSnapshot && !succeeded ==> step is Abort,
        task is Acknowledge && succeeded ==> step is Done,
        task is Acknowledge && !succeeded && matched ==> step is Abort,
        task is Acknowledge && !succeeded && !matched ==> step is Done,
{
    match task {
        EntryTask::Publish => EntryStep::Perform(EntryTask::StoreSnapshot),
        EntryTask::StoreSnapshot => if succeeded {
            EntryStep::Perform(EntryTask::Acknowledge)
        } else {
            EntryStep::Abort
        },
        EntryTask::Acknowledge => if succeeded || !matched {
            EntryStep::Done
        } else {
            EntryStep::Abort
        },
    }
}

/// How an entry ends: one that was skipped is always done with, and an order exactly if it was
/// acknowledged. The matcher gives up on an order whose snapshot was not stored, and nothing that
/// becomes of its fills makes it give up.
pub proof fn law_entry_ends(matched: bool, succeeded: bool)
    ensures
        step_after(matched, EntryTask::Acknowledge, succeeded) is Done <==> succeeded || !matched,
        step_after(matched, EntryTask::Acknowledge, succeeded) is Abort <==> !succeeded && matched,
        step_after(matched, EntryTask::StoreSnapshot, succeeded) is Abort <==> !succeeded,
        !(step_after(matched, EntryTask::Publish, succeeded) is Abort),
        step_after(matched, EntryTask::Publish, succeeded) == step_after(
            matched,
            EntryTask::Publish,
            !succeeded,
        ),
{
}

/// The tasks that are performed from `task` on, where `succeeds` tells of each whether it does.
pub open spec fn tasks_from(
    matched: bool,
    task: EntryTask,
    succeeds: spec_fn(EntryTask) -> bool,
) -> Seq<EntryTask>
    decreases
            match task {
                EntryTask::Publish => 2int,
                EntryTask::StoreSnapshot => 1int,
                EntryTask::Acknowledge => 0int,
            },
{
    match step_after(matched, task, succeeds(task)) {
        EntryStep::Perform(next) => seq![task] + tasks_from(matched, next, succeeds),
        _ => seq![task],
    }
}

/// An order is acknowledged exactly when the snapshot that shows it was stored, after its fills
/// were handed out; an entry that was skipped is only acknowledged.
pub proof fn law_order_is_acknowledged_after_its_snapshot(succeeds: spec_fn(EntryTask) -> bool)
    ensures
        tasks_from(true, EntryTask::Publish, succeeds) == (if succeeds(EntryTask::StoreSnapshot) {
            seq![EntryTask::Publish, EntryTask::StoreSnapshot, EntryTask::Acknowledge]
        } else {
            seq![EntryTask::Publish, EntryTask::StoreSnapshot]
        }),
        tasks_from(false, EntryTask::Acknowledge, succeeds) == seq![EntryTask::Acknowledge],
{
    reveal_with_fuel(tasks_from, 3);
    assert(tasks_from(true, EntryTask::Publish, succeeds) =~= (if succeeds(
        EntryTask::StoreSnapshot,
    ) {
        seq![EntryTask::Publish, EntryTask::StoreSnapshot, EntryTask::Acknowledge]
    } else {
        seq![EntryTask::Publish, EntryTask::StoreSnapshot]
    }));
}

} // verus!
