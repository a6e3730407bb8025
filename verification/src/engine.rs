//! The matching engine: executes the price-time-priority matching loop of an
//! incoming order against the book, emits the resulting trades, and rests
//! any unfilled remainder.

use vstd::prelude::*;

use crate::book::OrderBook;
use crate::book::eligible_count;
use crate::book::idx_of_id;
use crate::book::insert_pos;
use crate::book::lemma_eligible_count_bounds;
use crate::book::lemma_idx_of_id;
use crate::book::prio_before;
use crate::order::Order;
use crate::order::OrderStatus;
use crate::order::Side;
use crate::order::price_eligible;
use crate::order::spec_fill_qty;
use crate::order::spec_price_eligible;

verus! {

/// An immutable record of one matched quantity between exactly two orders.
/// Trades are never merged or split after creation.
#[derive(Clone, Copy, Debug, PartialEq, Eq, Structural)]
pub struct Trade {
    /// The buying counterparty.
    pub buy_order_id: u64,
    /// The selling counterparty.
    pub sell_order_id: u64,
    /// The execution price: the resting order's price, so price improvement
    /// goes to the incoming order.
    pub price: u32,
    /// Quantity matched, always positive.
    pub volume: u32,
}

/// The trade one fill emits: counterparties taken from each order's side,
/// priced at the resting order's limit.
pub open spec fn spec_trade(incoming: Order, resting: Order, qty: u32) -> Trade {
    Trade {
        buy_order_id: if incoming.side == Side::Buy {
            incoming.id
        } else {
            resting.id
        },
        sell_order_id: if incoming.side == Side::Buy {
            resting.id
        } else {
            incoming.id
        },
        price: resting.price,
        volume: qty,
    }
}

/// One matching pass of `incoming` against the priority-ordered resting
/// orders `resting` of the opposite side: while the incoming order has open
/// volume and the best resting order is price-eligible, both are filled by
/// the minimum of their remaining volumes and a trade is emitted; a resting
/// order filled to zero leaves the book. Returns the emitted trades in
/// order, the surviving resting orders, and the incoming order's final
/// state.
pub open spec fn spec_sweep(incoming: Order, resting: Seq<Order>) -> (Seq<Trade>, Seq<
    Order,
>, Order)
    decreases resting.len(),
{
    if incoming.volume_remaining == 0 || resting.len() == 0 || !spec_price_eligible(
        incoming.side,
        incoming.price,
        resting[0].price,
    ) {
        (Seq::<Trade>::empty(), resting, incoming)
    } else {
        let qty = spec_fill_qty(resting[0], incoming);
        let top_after = resting[0].spec_after_fill(qty);
        let incoming_after = incoming.spec_after_fill(qty);
        let trade = spec_trade(incoming, resting[0], qty);
        if top_after.volume_remaining == 0 {
            let rest = spec_sweep(incoming_after, resting.drop_first());
            (seq![trade] + rest.0, rest.1, rest.2)
        } else {
            (seq![trade], resting.update(0, top_after), incoming_after)
        }
    }
}

/// Whether two orders agree on everything a matching pass never changes:
/// identity, side, price, sequence, and the submitted totals.
pub open spec fn same_core(a: Order, b: Order) -> bool {
    &&& a.id == b.id
    &&& a.side == b.side
    &&& a.price == b.price
    &&& a.sequence == b.sequence
    &&& a.total_volume == b.total_volume
    &&& a.concealed_volume == b.concealed_volume
}

/// Shape of a matching pass, and conservation on every order it touches
/// (`volume_filled + volume_remaining == total_volume` throughout, and no
/// remaining volume ever goes below zero): the surviving resting orders are
/// a suffix of the originals, each with its identity, price, and sequence
/// untouched, still well-formed, still open, and with no more volume than it
/// started with; the incoming order keeps its identity and stays
/// well-formed, its remaining volume only falling and its filled volume only
/// rising.
pub proof fn lemma_sweep_shape(incoming: Order, resting: Seq<Order>)
    requires
        incoming.wf(),
        forall|i: int|
            0 <= i < resting.len() ==> (#[trigger] resting[i]).wf()
                && resting[i].volume_remaining > 0,
    ensures
        ({
            let (ts, rs, fin) = spec_sweep(incoming, resting);
            let shift = resting.len() - rs.len();
            &&& rs.len() <= resting.len()
            &&& forall|i: int|
                0 <= i < rs.len() ==> same_core(#[trigger] rs[i], resting[i + shift])
                    && rs[i].wf() && rs[i].volume_remaining > 0 && rs[i].volume_remaining
                    <= resting[i + shift].volume_remaining
            &&& fin.wf()
            &&& same_core(fin, incoming)
            &&& fin.volume_remaining <= incoming.volume_remaining
            &&& incoming.volume_filled <= fin.volume_filled
        }),
    decreases resting.len(),
{
    if !(incoming.volume_remaining == 0 || resting.len() == 0 || !spec_price_eligible(
        incoming.side,
        incoming.price,
        resting[0].price,
    )) {
        let qty = spec_fill_qty(resting[0], incoming);
        let top_after = resting[0].spec_after_fill(qty);
        let incoming_after = incoming.spec_after_fill(qty);
        if top_after.volume_remaining == 0 {
            assert forall|i: int|
                0 <= i < resting.drop_first().len() implies (#[trigger] resting.drop_first()[
                i
            ]).wf() && resting.drop_first()[i].volume_remaining > 0 by {
                assert(resting.drop_first()[i] == resting[i + 1]);
            }
            lemma_sweep_shape(incoming_after, resting.drop_first());
            let rs = spec_sweep(incoming_after, resting.drop_first()).1;
            let shift = resting.len() - rs.len();
            assert forall|i: int|
                0 <= i < rs.len() implies same_core(#[trigger] rs[i], resting[i + shift])
                && rs[i].wf() && rs[i].volume_remaining > 0 && rs[i].volume_remaining
                <= resting[i + shift].volume_remaining by {
                assert(same_core(rs[i], resting.drop_first()[i + shift - 1]));
                assert(resting.drop_first()[i + shift - 1] == resting[i + shift]);
            }
        } else {
            let rs = resting.update(0, top_after);
            assert forall|i: int|
                0 <= i < rs.len() implies same_core(#[trigger] rs[i], resting[i]) && rs[i].wf()
                && rs[i].volume_remaining > 0 && rs[i].volume_remaining <= resting[
                i
            ].volume_remaining by {
                if i > 0 {
                    assert(rs[i] == resting[i]);
                }
            }
        }
    }
}

/// Runs the matching loop of `*incoming` against the side vector `resting`,
/// mutating both exactly as `spec_sweep` describes and returning the emitted
/// trades.
fn sweep(incoming: &mut Order, resting: &mut Vec<Order>) -> (trades: Vec<Trade>)
    requires
        old(incoming).wf(),
        forall|i: int|
            0 <= i < old(resting)@.len() ==> (#[trigger] old(resting)@[i]).wf() && old(
                resting,
            )@[i].volume_remaining > 0,
    ensures
        ({
            let (ts, rs, fin) = spec_sweep(*old(incoming), old(resting)@);
            &&& trades@ == ts
            &&& final(resting)@ == rs
            &&& *final(incoming) == fin
        }),
{
    let ghost inc0 = *incoming;
    let ghost rest0 = resting@;
    let mut trades: Vec<Trade> = Vec::new();
    while resting.len() > 0 && incoming.volume_remaining > 0 && price_eligible(
        incoming.side,
        incoming.price,
        resting[0].price,
    )
        invariant
            incoming.wf(),
            forall|i: int|
                0 <= i < resting@.len() ==> (#[trigger] resting@[i]).wf()
                    && resting@[i].volume_remaining > 0,
            spec_sweep(inc0, rest0).0 == trades@ + spec_sweep(*incoming, resting@).0,
            spec_sweep(inc0, rest0).1 == spec_sweep(*incoming, resting@).1,
            spec_sweep(inc0, rest0).2 == spec_sweep(*incoming, resting@).2,
        decreases resting@.len(), incoming.volume_remaining,
    {
        let ghost inc_pre = *incoming;
        let ghost rest_pre = resting@;
        let ghost trades_pre = trades@;
        let mut top = resting.remove(0);
        let qty = top.fill(incoming);
        let trade = Trade {
            buy_order_id: if incoming.side == Side::Buy {
                incoming.id
            } else {
                top.id
            },
            sell_order_id: if incoming.side == Side::Buy {
                top.id
            } else {
                incoming.id
            },
            price: top.price,
            volume: qty,
        };
        trades.push(trade);
        proof {
            assert(trade == spec_trade(inc_pre, rest_pre[0], qty));
            assert(trades@ =~= trades_pre + seq![trade]);
        }
        if top.volume_remaining > 0 {
            resting.insert(0, top);
            proof {
                assert(resting@ =~= rest_pre.update(0, top));
                assert(spec_sweep(inc_pre, rest_pre).0 == seq![trade]);
                assert(spec_sweep(inc_pre, rest_pre).1 == resting@);
                assert(spec_sweep(inc_pre, rest_pre).2 == *incoming);
                assert(incoming.volume_remaining == 0);
                assert(trades_pre + seq![trade] + spec_sweep(*incoming, resting@).0
                    =~= trades_pre + (seq![trade] + spec_sweep(*incoming, resting@).0));
                assert(trades@ + Seq::<Trade>::empty() =~= trades@);
            }
        } else {
            proof {
                assert(resting@ =~= rest_pre.drop_first());
                let rest = spec_sweep(*incoming, resting@);
                assert(spec_sweep(inc_pre, rest_pre).0 == seq![trade] + rest.0);
                assert(spec_sweep(inc_pre, rest_pre).1 == rest.1);
                assert(spec_sweep(inc_pre, rest_pre).2 == rest.2);
                assert(trades_pre + (seq![trade] + rest.0) =~= (trades_pre + seq![trade])
                    + rest.0);
            }
        }
    }
    proof {
        assert(spec_sweep(*incoming, resting@).0 == Seq::<Trade>::empty());
        assert(trades@ + Seq::<Trade>::empty() =~= trades@);
    }
    trades
}

/// Total quantity of a sequence of trades.
pub open spec fn sum_trade_volumes(ts: Seq<Trade>) -> int
    decreases ts.len(),
{
    if ts.len() == 0 {
        0
    } else {
        ts[0].volume + sum_trade_volumes(ts.drop_first())
    }
}

/// Total open quantity of a sequence of orders.
pub open spec fn sum_remaining(s: Seq<Order>) -> int
    decreases s.len(),
{
    if s.len() == 0 {
        0
    } else {
        s[0].volume_remaining + sum_remaining(s.drop_first())
    }
}

/// A total of non-negative quantities is non-negative.
pub proof fn lemma_sum_remaining_nonneg(s: Seq<Order>)
    ensures
        sum_remaining(s) >= 0,
    decreases s.len(),
{
    if s.len() > 0 {
        lemma_sum_remaining_nonneg(s.drop_first());
    }
}

/// Trade volume conservation: over one matching pass, the emitted trade
/// volumes add up exactly to the volume the incoming order gained as filled,
/// equally to the volume it lost as remaining, and to the minimum of its
/// open volume and the total open volume of the price-eligible resting
/// orders.
pub proof fn lemma_trade_volume_conservation(incoming: Order, resting: Seq<Order>)
    requires
        incoming.wf(),
        forall|i: int|
            0 <= i < resting.len() ==> (#[trigger] resting[i]).wf()
                && resting[i].volume_remaining > 0,
    ensures
        ({
            let (ts, rs, fin) = spec_sweep(incoming, resting);
            let eligible = resting.take(
                eligible_count(resting, incoming.side, incoming.price),
            );
            &&& sum_trade_volumes(ts) == fin.volume_filled - incoming.volume_filled
            &&& sum_trade_volumes(ts) == incoming.volume_remaining - fin.volume_remaining
            &&& sum_trade_volumes(ts) == vstd::math::min(
                incoming.volume_remaining as int,
                sum_remaining(eligible),
            )
        }),
    decreases resting.len(),
{
    let c = eligible_count(resting, incoming.side, incoming.price);
    let eligible = resting.take(c);
    lemma_eligible_count_bounds(resting, incoming.side, incoming.price);
    lemma_sum_remaining_nonneg(eligible);
    if incoming.volume_remaining == 0 || resting.len() == 0 || !spec_price_eligible(
        incoming.side,
        incoming.price,
        resting[0].price,
    ) {
    } else {
        let qty = spec_fill_qty(resting[0], incoming);
        let top_after = resting[0].spec_after_fill(qty);
        let incoming_after = incoming.spec_after_fill(qty);
        let trade = spec_trade(incoming, resting[0], qty);
        lemma_eligible_count_bounds(
            resting.drop_first(),
            incoming.side,
            incoming.price,
        );
        assert(c >= 1);
        assert(eligible.drop_first() =~= resting.drop_first().take(c - 1));
        assert(sum_remaining(eligible) == resting[0].volume_remaining + sum_remaining(
            resting.drop_first().take(c - 1),
        ));
        lemma_sum_remaining_nonneg(resting.drop_first().take(c - 1));
        assert forall|i: int|
            0 <= i < resting.drop_first().len() implies (#[trigger] resting.drop_first()[
            i
        ]).wf() && resting.drop_first()[i].volume_remaining > 0 by {
            assert(resting.drop_first()[i] == resting[i + 1]);
        }
        if top_after.volume_remaining == 0 {
            lemma_trade_volume_conservation(incoming_after, resting.drop_first());
            let rest = spec_sweep(incoming_after, resting.drop_first());
            let ts = seq![trade] + rest.0;
            assert(ts[0] == trade);
            assert(ts.drop_first() =~= rest.0);
            assert(eligible_count(
                resting.drop_first(),
                incoming_after.side,
                incoming_after.price,
            ) == c - 1);
        } else {
            let ts = seq![trade];
            assert(ts.len() == 1);
            assert(ts[0] == trade);
            assert(ts.drop_first() =~= Seq::<Trade>::empty());
            assert(sum_trade_volumes(ts.drop_first()) == 0);
            assert(sum_trade_volumes(ts) == qty);
        }
    }
}

/// What one emitted trade says of the pair that struck it: priced at the
/// resting order's limit, a positive quantity, counterparties taken from
/// each order's side, and the resting order price-eligible against the
/// incoming limit.
pub open spec fn trade_between(t: Trade, incoming: Order, resting: Order) -> bool {
    &&& t.price == resting.price
    &&& t.volume > 0
    &&& (incoming.side == Side::Buy ==> t.buy_order_id == incoming.id && t.sell_order_id
        == resting.id)
    &&& (incoming.side == Side::Sell ==> t.sell_order_id == incoming.id && t.buy_order_id
        == resting.id)
    &&& spec_price_eligible(incoming.side, incoming.price, resting.price)
}

/// Price-time priority: over one matching pass against a priority-sorted
/// side, the k-th emitted trade is struck against the k-th resting order —
/// a better-priced resting order always trades first, and among equal prices
/// the earlier arrival (lower sequence) trades first, never a later one.
pub proof fn lemma_price_time_priority(incoming: Order, resting: Seq<Order>)
    requires
        forall|i: int| 0 <= i < resting.len() ==> (#[trigger] resting[i]).volume_remaining > 0,
        forall|i: int, j: int|
            0 <= i < j < resting.len() ==> prio_before(
                resting[i],
                resting[j],
                incoming.side.spec_opposite(),
            ),
    ensures
        ({
            let (ts, rs, fin) = spec_sweep(incoming, resting);
            &&& ts.len() <= resting.len()
            &&& forall|k: int| 0 <= k < ts.len() ==> trade_between(#[trigger] ts[k], incoming, resting[k])
            &&& forall|k: int, l: int|
                0 <= k < l < ts.len() ==> prio_before(
                    resting[k],
                    resting[l],
                    incoming.side.spec_opposite(),
                )
        }),
    decreases resting.len(),
{
    if incoming.volume_remaining == 0 || resting.len() == 0 || !spec_price_eligible(
        incoming.side,
        incoming.price,
        resting[0].price,
    ) {
    } else {
        let qty = spec_fill_qty(resting[0], incoming);
        let top_after = resting[0].spec_after_fill(qty);
        let incoming_after = incoming.spec_after_fill(qty);
        let trade = spec_trade(incoming, resting[0], qty);
        if top_after.volume_remaining == 0 {
            assert forall|i: int|
                0 <= i < resting.drop_first().len() implies (#[trigger] resting.drop_first()[
                i
            ]).volume_remaining > 0 by {
                assert(resting.drop_first()[i] == resting[i + 1]);
            }
            assert forall|i: int, j: int|
                0 <= i < j < resting.drop_first().len() implies prio_before(
                resting.drop_first()[i],
                resting.drop_first()[j],
                incoming_after.side.spec_opposite(),
            ) by {
                assert(resting.drop_first()[i] == resting[i + 1]);
                assert(resting.drop_first()[j] == resting[j + 1]);
            }
            lemma_price_time_priority(incoming_after, resting.drop_first());
            let rest = spec_sweep(incoming_after, resting.drop_first());
            let ts = seq![trade] + rest.0;
            assert(ts[0] == trade);
            assert(trade_between(trade, incoming, resting[0]));
            assert forall|k: int| 0 <= k < ts.len() implies trade_between(
                #[trigger] ts[k],
                incoming,
                resting[k],
            ) by {
                if k > 0 {
                    assert(ts[k] == rest.0[k - 1]);
                    assert(trade_between(rest.0[k - 1], incoming_after, resting.drop_first()[
                        k - 1
                    ]));
                    assert(resting.drop_first()[k - 1] == resting[k]);
                }
            }
        } else {
            let ts = seq![trade];
            assert(trade_between(ts[0], incoming, resting[0]));
        }
    }
}

/// A matching pass leaves the book well-formed, and an incoming id absent
/// from the book stays absent.
proof fn lemma_sweep_book_wf(pre: OrderBook, post: OrderBook, incoming: Order)
    requires
        pre.wf(),
        incoming.wf(),
        !pre.contains_id(incoming.id),
        ({
            let (ts, rs, fin) = spec_sweep(incoming, pre.side_seq(incoming.side.spec_opposite()));
            &&& post.side_seq(incoming.side.spec_opposite()) == rs
            &&& post.side_seq(incoming.side) == pre.side_seq(incoming.side)
            &&& post.next_sequence == pre.next_sequence
        }),
    ensures
        post.wf(),
        !post.contains_id(incoming.id),
{
    let opp = incoming.side.spec_opposite();
    let orig = pre.side_seq(opp);
    let rs = spec_sweep(incoming, orig).1;
    let shift = orig.len() - rs.len();
    lemma_idx_of_id(pre.bids@, incoming.id);
    lemma_idx_of_id(pre.asks@, incoming.id);
    match incoming.side {
        Side::Buy => {
            lemma_sweep_shape(incoming, orig);
            assert forall|i: int, j: int| 0 <= i < j < rs.len() implies prio_before(
                rs[i],
                rs[j],
                Side::Sell,
            ) && rs[i].id != rs[j].id by {
                assert(same_core(rs[i], orig[i + shift]));
                assert(same_core(rs[j], orig[j + shift]));
                assert(prio_before(orig[i + shift], orig[j + shift], Side::Sell));
            }
            assert forall|i: int|
                0 <= i < rs.len() implies (#[trigger] rs[i]).side == Side::Sell && rs[i].sequence
                < post.next_sequence && rs[i].id != incoming.id by {
                assert(same_core(rs[i], orig[i + shift]));
            }
            assert forall|i: int, j: int|
                0 <= i < post.bids@.len() && 0 <= j < rs.len() implies post.bids@[i].id
                != rs[j].id by {
                assert(same_core(rs[j], orig[j + shift]));
            }
            lemma_idx_of_id(post.bids@, incoming.id);
            lemma_idx_of_id(post.asks@, incoming.id);
            if idx_of_id(post.asks@, incoming.id) >= 0 {
                let k = idx_of_id(post.asks@, incoming.id);
                assert(rs[k].id != incoming.id);
            }
        },
        Side::Sell => {
            lemma_sweep_shape(incoming, orig);
            assert forall|i: int, j: int| 0 <= i < j < rs.len() implies prio_before(
                rs[i],
                rs[j],
                Side::Buy,
            ) && rs[i].id != rs[j].id by {
                assert(same_core(rs[i], orig[i + shift]));
                assert(same_core(rs[j], orig[j + shift]));
                assert(prio_before(orig[i + shift], orig[j + shift], Side::Buy));
            }
            assert forall|i: int|
                0 <= i < rs.len() implies (#[trigger] rs[i]).side == Side::Buy && rs[i].sequence
                < post.next_sequence && rs[i].id != incoming.id by {
                assert(same_core(rs[i], orig[i + shift]));
            }
            assert forall|i: int, j: int|
                0 <= i < rs.len() && 0 <= j < post.asks@.len() implies rs[i].id
                != post.asks@[j].id by {
                assert(same_core(rs[i], orig[i + shift]));
            }
            lemma_idx_of_id(post.bids@, incoming.id);
            lemma_idx_of_id(post.asks@, incoming.id);
            if idx_of_id(post.bids@, incoming.id) >= 0 {
                let k = idx_of_id(post.bids@, incoming.id);
                assert(rs[k].id != incoming.id);
            }
        },
    }
}

/// Final status of the incoming order after one matching pass: `Filled` if
/// nothing remains, `PartiallyFilled` if something matched and something
/// remains, `Rested` if nothing matched at all.
pub open spec fn spec_final_status(fin: Order) -> OrderStatus {
    if fin.volume_remaining == 0 {
        OrderStatus::Filled
    } else if fin.volume_filled > 0 {
        OrderStatus::PartiallyFilled
    } else {
        OrderStatus::Rested
    }
}

/// Matches a validated incoming order against the book.
///
/// The pass is exactly `spec_sweep` of the incoming order against the
/// opposite side: trades are emitted in price-time priority order, resting
/// orders filled to zero leave the book, and if the incoming order ends with
/// open volume it rests on its own side, stamped with the next sequence
/// number and carrying its final status. Returns the ordered trades and that
/// final status.
#[verifier::rlimit(80)]
pub fn matching(incoming: Order, book: &mut OrderBook) -> (r: (Vec<Trade>, OrderStatus))
    requires
        old(book).wf(),
        incoming.wf(),
        incoming.volume_remaining > 0,
        incoming.volume_filled == 0,
        incoming.status == OrderStatus::New,
        !old(book).contains_id(incoming.id),
        old(book).next_sequence < u64::MAX,
    ensures
        final(book).wf(),
        ({
            let (ts, rs, fin) = spec_sweep(
                incoming,
                old(book).side_seq(incoming.side.spec_opposite()),
            );
            let status = spec_final_status(fin);
            &&& r.0@ == ts
            &&& r.1 == status
            &&& final(book).side_seq(incoming.side.spec_opposite()) == rs
            &&& (fin.volume_remaining == 0 ==> final(book).side_seq(incoming.side) == old(
                book,
            ).side_seq(incoming.side) && final(book).next_sequence == old(book).next_sequence)
            &&& (fin.volume_remaining > 0 ==> ({
                let rested = fin.with_status(status).with_sequence(old(book).next_sequence);
                &&& final(book).side_seq(incoming.side) == old(book).side_seq(
                    incoming.side,
                ).insert(insert_pos(old(book).side_seq(incoming.side), rested, incoming.side), rested)
                &&& final(book).next_sequence == old(book).next_sequence + 1
            }))
        }),
{
    let ghost pre = *book;
    let ghost opp = incoming.side.spec_opposite();
    let ghost swept = spec_sweep(incoming, pre.side_seq(opp));
    let mut inc = incoming;
    let trades = match inc.side {
        Side::Buy => {
            let t = sweep(&mut inc, &mut book.asks);
            proof {
                assert(book.side_seq(opp) == swept.1);
                assert(book.side_seq(incoming.side) == pre.side_seq(incoming.side));
                assert(t@ == swept.0);
                assert(inc == swept.2);
            }
            t
        },
        Side::Sell => {
            let t = sweep(&mut inc, &mut book.bids);
            proof {
                assert(book.side_seq(opp) == swept.1);
                assert(book.side_seq(incoming.side) == pre.side_seq(incoming.side));
                assert(t@ == swept.0);
                assert(inc == swept.2);
            }
            t
        },
    };
    proof {
        lemma_sweep_shape(incoming, pre.side_seq(opp));
        lemma_sweep_book_wf(pre, *book, incoming);
        assert(book.next_sequence == pre.next_sequence);
    }
    let status = if inc.volume_remaining == 0 {
        OrderStatus::Filled
    } else if inc.volume_filled > 0 {
        OrderStatus::PartiallyFilled
    } else {
        OrderStatus::Rested
    };
    proof {
        assert(status == spec_final_status(swept.2));
        assert(inc.id == incoming.id && inc.side == incoming.side);
    }
    if inc.volume_remaining > 0 {
        inc.status = status;
        proof {
            assert(inc == swept.2.with_status(spec_final_status(swept.2)));
        }
        book.insert_resting(inc);
        proof {
            let rested = swept.2.with_status(spec_final_status(swept.2)).with_sequence(
                pre.next_sequence,
            );
            assert(inc.with_sequence(pre.next_sequence) == rested);
            assert(book.side_seq(incoming.side) == pre.side_seq(incoming.side).insert(
                insert_pos(pre.side_seq(incoming.side), rested, incoming.side),
                rested,
            ));
            assert(book.side_seq(opp) == swept.1);
            assert(book.next_sequence == pre.next_sequence + 1);
        }
    } else {
        proof {
            assert(book.side_seq(incoming.side) == pre.side_seq(incoming.side));
            assert(book.side_seq(opp) == swept.1);
            assert(book.next_sequence == pre.next_sequence);
        }
    }
    (trades, status)
}

} // verus!
