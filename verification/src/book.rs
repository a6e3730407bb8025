//! The order book: resting orders for one instrument, partitioned into a bid
//! side and an ask side, each kept in strict price-time priority order.

use vstd::prelude::*;

use crate::order::Order;
use crate::order::Side;
use crate::order::spec_price_eligible;
use crate::order::price_eligible;

verus! {

/// Failures of book operations.
///
/// `DuplicateId` and `InvalidState` signal caller-contract violations;
/// `NotFound` on `remove` is a normal race outcome (for instance a late
/// cancel of an order that already matched), not a defect.
#[derive(Clone, Copy, Debug, PartialEq, Eq, Structural)]
pub enum BookError {
    DuplicateId,
    InvalidState,
    NotFound,
}

/// Per-instrument container of resting orders.
///
/// The fields are exposed so that contracts can speak about the book's
/// contents; every operation requires and preserves `wf()`, and callers that
/// mutate the fields directly are responsible for re-establishing it.
pub struct OrderBook {
    /// Buy side, ordered by price descending, then sequence ascending.
    pub bids: Vec<Order>,
    /// Sell side, ordered by price ascending, then sequence ascending.
    pub asks: Vec<Order>,
    /// Next arrival counter to assign; larger than every resting sequence.
    pub next_sequence: u64,
}

/// Strict priority between two resting orders of one side: a better price
/// always comes first, and among equal prices the earlier arrival (lower
/// sequence) comes first.
pub open spec fn prio_before(a: Order, b: Order, side: Side) -> bool {
    match side {
        Side::Buy => a.price > b.price || (a.price == b.price && a.sequence < b.sequence),
        Side::Sell => a.price < b.price || (a.price == b.price && a.sequence < b.sequence),
    }
}

/// Well-formedness of one side of the book: the orders are strictly sorted
/// by price-time priority, individually well-formed with open volume, belong
/// to the side, and carry sequence numbers below the book's next counter.
pub open spec fn side_wf(s: Seq<Order>, side: Side, next_sequence: u64) -> bool {
    &&& forall|i: int, j: int| 0 <= i < j < s.len() ==> prio_before(s[i], s[j], side)
    &&& forall|i: int| 0 <= i < s.len() ==> s[i].wf()
    &&& forall|i: int| 0 <= i < s.len() ==> s[i].volume_remaining > 0
    &&& forall|i: int| 0 <= i < s.len() ==> s[i].side == side
    &&& forall|i: int| 0 <= i < s.len() ==> s[i].sequence < next_sequence
}

/// No order id occurs twice within `s`.
pub open spec fn ids_unique(s: Seq<Order>) -> bool {
    forall|i: int, j: int| 0 <= i < j < s.len() ==> s[i].id != s[j].id
}

/// No order id occurs on both `a` and `b`.
pub open spec fn ids_disjoint(a: Seq<Order>, b: Seq<Order>) -> bool {
    forall|i: int, j: int|
        0 <= i < a.len() && 0 <= j < b.len() ==> a[i].id != b[j].id
}

/// Index of the first order in `s` carrying `id`, or -1 if there is none.
pub open spec fn idx_of_id(s: Seq<Order>, id: u64) -> int
    decreases s.len(),
{
    if s.len() == 0 {
        -1
    } else if s[0].id == id {
        0
    } else if idx_of_id(s.drop_first(), id) < 0 {
        -1
    } else {
        1 + idx_of_id(s.drop_first(), id)
    }
}

/// `idx_of_id` finds exactly the first occurrence of `id` in `s`.
pub proof fn lemma_idx_of_id(s: Seq<Order>, id: u64)
    ensures
        -1 <= idx_of_id(s, id) < s.len(),
        idx_of_id(s, id) >= 0 ==> s[idx_of_id(s, id)].id == id,
        idx_of_id(s, id) == -1 ==> forall|i: int| 0 <= i < s.len() ==> s[i].id != id,
        forall|i: int| 0 <= i < idx_of_id(s, id) ==> s[i].id != id,
    decreases s.len(),
{
    if s.len() > 0 && s[0].id != id {
        lemma_idx_of_id(s.drop_first(), id);
        assert forall|i: int| 0 <= i < s.len() && idx_of_id(s, id) == -1 implies s[i].id != id by {
            if i > 0 {
                assert(s.drop_first()[i - 1].id != id);
            }
        }
        assert forall|i: int| 0 <= i < idx_of_id(s, id) implies s[i].id != id by {
            if i > 0 {
                assert(s.drop_first()[i - 1].id != id);
            }
        }
    }
}

/// If `s[i]` carries `id` and no earlier order does, `idx_of_id` is `i`.
pub proof fn lemma_idx_of_id_first(s: Seq<Order>, id: u64, i: int)
    requires
        0 <= i < s.len(),
        s[i].id == id,
        forall|k: int| 0 <= k < i ==> s[k].id != id,
    ensures
        idx_of_id(s, id) == i,
    decreases s.len(),
{
    if i > 0 {
        assert forall|k: int| 0 <= k < i - 1 implies s.drop_first()[k].id != id by {
            assert(s[k + 1].id != id);
        }
        lemma_idx_of_id_first(s.drop_first(), id, i - 1);
    }
}

impl OrderBook {
    /// The resting orders of one side, best priority first.
    pub open spec fn side_seq(self, side: Side) -> Seq<Order> {
        match side {
            Side::Buy => self.bids@,
            Side::Sell => self.asks@,
        }
    }

    /// Whether some resting order, on either side, carries `id`.
    pub open spec fn contains_id(self, id: u64) -> bool {
        idx_of_id(self.bids@, id) >= 0 || idx_of_id(self.asks@, id) >= 0
    }

    /// The book invariant: both sides are well-formed and no order id
    /// occurs twice anywhere in the book.
    pub open spec fn wf(self) -> bool {
        &&& side_wf(self.bids@, Side::Buy, self.next_sequence)
        &&& side_wf(self.asks@, Side::Sell, self.next_sequence)
        &&& ids_unique(self.bids@)
        &&& ids_unique(self.asks@)
        &&& ids_disjoint(self.bids@, self.asks@)
    }

    /// Creates an empty book. Sequence numbers start at 1.
    pub fn new() -> (r: OrderBook)
        ensures
            r.wf(),
            r.bids@.len() == 0,
            r.asks@.len() == 0,
            r.next_sequence == 1,
    {
        OrderBook { bids: Vec::new(), asks: Vec::new(), next_sequence: 1 }
    }

    /// Returns the best-priority resting order on `side`, if any, without
    /// mutating the book.
    pub fn peek_top(&self, side: Side) -> (r: Option<Order>)
        ensures
            self.side_seq(side).len() == 0 ==> r is None,
            self.side_seq(side).len() > 0 ==> r == Some(self.side_seq(side)[0]),
    {
        match side {
            Side::Buy => {
                if self.bids.len() > 0 {
                    Some(self.bids[0])
                } else {
                    None
                }
            },
            Side::Sell => {
                if self.asks.len() > 0 {
                    Some(self.asks[0])
                } else {
                    None
                }
            },
        }
    }

    /// Rests `order` in the book: stamps it with the next sequence number
    /// and inserts it into its own side at its price-time priority position.
    /// The other side is untouched.
    pub(crate) fn insert_resting(&mut self, order: Order)
        requires
            old(self).wf(),
            order.wf(),
            order.volume_remaining > 0,
            !old(self).contains_id(order.id),
            old(self).next_sequence < u64::MAX,
        ensures
            final(self).wf(),
            final(self).next_sequence == old(self).next_sequence + 1,
            ({
                let stamped = order.with_sequence(old(self).next_sequence);
                final(self).side_seq(order.side) == old(self).side_seq(order.side).insert(
                    insert_pos(old(self).side_seq(order.side), stamped, order.side),
                    stamped,
                )
            }),
            final(self).side_seq(order.side.spec_opposite()) == old(self).side_seq(
                order.side.spec_opposite(),
            ),
    {
        let ghost pre = *self;
        let mut stamped = order;
        stamped.sequence = self.next_sequence;
        self.next_sequence = self.next_sequence + 1;
        proof {
            lemma_idx_of_id(pre.bids@, order.id);
            lemma_idx_of_id(pre.asks@, order.id);
            assert(stamped == order.with_sequence(pre.next_sequence));
        }
        match stamped.side {
            Side::Buy => {
                proof {
                    lemma_insert_stamped_wf(pre.bids@, stamped, Side::Buy, pre.next_sequence);
                    lemma_insert_pos_props(pre.bids@, stamped, Side::Buy);
                    pre.bids@.insert_ensures(
                        insert_pos(pre.bids@, stamped, Side::Buy),
                        stamped,
                    );
                }
                insert_sorted(&mut self.bids, stamped, Side::Buy);
                proof {
                    let p = insert_pos(pre.bids@, stamped, Side::Buy);
                    assert forall|i: int, j: int|
                        0 <= i < j < self.bids@.len() implies self.bids@[i].id
                        != self.bids@[j].id by {
                        lemma_inserted_element(pre.bids@, stamped, p, i);
                        lemma_inserted_element(pre.bids@, stamped, p, j);
                    }
                    assert forall|i: int, j: int|
                        0 <= i < self.bids@.len() && 0 <= j < self.asks@.len()
                        implies self.bids@[i].id != self.asks@[j].id by {
                        lemma_inserted_element(pre.bids@, stamped, p, i);
                    }
                }
            },
            Side::Sell => {
                proof {
                    lemma_insert_stamped_wf(pre.asks@, stamped, Side::Sell, pre.next_sequence);
                    lemma_insert_pos_props(pre.asks@, stamped, Side::Sell);
                    pre.asks@.insert_ensures(
                        insert_pos(pre.asks@, stamped, Side::Sell),
                        stamped,
                    );
                }
                insert_sorted(&mut self.asks, stamped, Side::Sell);
                proof {
                    let p = insert_pos(pre.asks@, stamped, Side::Sell);
                    assert forall|i: int, j: int|
                        0 <= i < j < self.asks@.len() implies self.asks@[i].id
                        != self.asks@[j].id by {
                        lemma_inserted_element(pre.asks@, stamped, p, i);
                        lemma_inserted_element(pre.asks@, stamped, p, j);
                    }
                    assert forall|i: int, j: int|
                        0 <= i < self.bids@.len() && 0 <= j < self.asks@.len()
                        implies self.bids@[i].id != self.asks@[j].id by {
                        lemma_inserted_element(pre.asks@, stamped, p, j);
                    }
                }
            },
        }
    }

    /// Inserts an order into the book, assigning the next sequence number
    /// and maintaining the priority ordering invariant. Fails with
    /// `DuplicateId` if an order with the same id already rests anywhere in
    /// the book, and with `InvalidState` if the order has nothing left to
    /// fill; on failure the book is unchanged.
    pub fn insert(&mut self, order: Order) -> (r: Result<(), BookError>)
        requires
            old(self).wf(),
            order.wf(),
            old(self).next_sequence < u64::MAX,
        ensures
            final(self).wf(),
            old(self).contains_id(order.id) ==> r == Err::<(), BookError>(BookError::DuplicateId)
                && *final(self) == *old(self),
            !old(self).contains_id(order.id) && order.volume_remaining == 0 ==> r == Err::<
                (),
                BookError,
            >(BookError::InvalidState) && *final(self) == *old(self),
            !old(self).contains_id(order.id) && order.volume_remaining > 0 ==> ({
                let stamped = order.with_sequence(old(self).next_sequence);
                &&& r == Ok::<(), BookError>(())
                &&& final(self).next_sequence == old(self).next_sequence + 1
                &&& final(self).side_seq(order.side) == old(self).side_seq(order.side).insert(
                    insert_pos(old(self).side_seq(order.side), stamped, order.side),
                    stamped,
                )
                &&& final(self).side_seq(order.side.spec_opposite()) == old(self).side_seq(
                    order.side.spec_opposite(),
                )
            }),
    {
        if self.contains_order_id(order.id) {
            return Err(BookError::DuplicateId);
        }
        if order.volume_remaining == 0 {
            return Err(BookError::InvalidState);
        }
        self.insert_resting(order);
        Ok(())
    }

    /// Removes and returns the resting order carrying `order_id`, from
    /// whichever side holds it. Returns `NotFound` if no resting order
    /// carries the id — a normal, non-fatal outcome, with the book left
    /// unchanged.
    pub fn remove(&mut self, order_id: u64) -> (r: Result<Order, BookError>)
        requires
            old(self).wf(),
        ensures
            final(self).wf(),
            final(self).next_sequence == old(self).next_sequence,
            !old(self).contains_id(order_id) ==> r == Err::<Order, BookError>(BookError::NotFound)
                && *final(self) == *old(self),
            idx_of_id(old(self).bids@, order_id) >= 0 ==> ({
                let i = idx_of_id(old(self).bids@, order_id);
                &&& r == Ok::<Order, BookError>(old(self).bids@[i])
                &&& final(self).bids@ == old(self).bids@.remove(i)
                &&& final(self).asks@ == old(self).asks@
            }),
            idx_of_id(old(self).asks@, order_id) >= 0 ==> ({
                let i = idx_of_id(old(self).asks@, order_id);
                &&& r == Ok::<Order, BookError>(old(self).asks@[i])
                &&& final(self).asks@ == old(self).asks@.remove(i)
                &&& final(self).bids@ == old(self).bids@
            }),
    {
        let ghost pre = *self;
        if let Some(i) = find_index_of_id(&self.bids, order_id) {
            proof {
                lemma_remove_side_wf(pre.bids@, Side::Buy, pre.next_sequence, i as int);
                lemma_idx_of_id(pre.bids@, order_id);
                lemma_idx_of_id(pre.asks@, order_id);
                if idx_of_id(pre.asks@, order_id) >= 0 {
                    assert(pre.bids@[i as int].id != pre.asks@[idx_of_id(
                        pre.asks@,
                        order_id,
                    )].id);
                }
                assert forall|a: int, b: int|
                    0 <= a < pre.bids@.remove(i as int).len() && 0 <= b < pre.asks@.len()
                    implies pre.bids@.remove(i as int)[a].id != pre.asks@[b].id by {
                    assert(pre.bids@.remove(i as int)[a] == pre.bids@[a] || pre.bids@.remove(
                        i as int,
                    )[a] == pre.bids@[a + 1]);
                }
            }
            let removed = self.bids.remove(i);
            return Ok(removed);
        }
        if let Some(i) = find_index_of_id(&self.asks, order_id) {
            proof {
                lemma_remove_side_wf(pre.asks@, Side::Sell, pre.next_sequence, i as int);
                lemma_idx_of_id(pre.bids@, order_id);
                assert forall|a: int, b: int|
                    0 <= a < pre.bids@.len() && 0 <= b < pre.asks@.remove(i as int).len()
                    implies pre.bids@[a].id != pre.asks@.remove(i as int)[b].id by {
                    assert(pre.asks@.remove(i as int)[b] == pre.asks@[b] || pre.asks@.remove(
                        i as int,
                    )[b] == pre.asks@[b + 1]);
                }
            }
            let removed = self.asks.remove(i);
            return Ok(removed);
        }
        Err(BookError::NotFound)
    }

    /// Returns a snapshot of the resting orders on the side opposite `side`
    /// that are price-eligible against `limit_price`, in strict
    /// price-then-time priority order: the eligible orders form a prefix of
    /// the opposite side.
    pub fn best_opposite(&self, side: Side, limit_price: u32) -> (r: Vec<Order>)
        ensures
            ({
                let s = self.side_seq(side.spec_opposite());
                r@ == s.take(eligible_count(s, side, limit_price))
            }),
    {
        let opposite = match side {
            Side::Buy => &self.asks,
            Side::Sell => &self.bids,
        };
        let mut r: Vec<Order> = Vec::new();
        let mut i: usize = 0;
        while i < opposite.len() && price_eligible(side, limit_price, opposite[i].price)
            invariant
                0 <= i <= opposite@.len(),
                forall|k: int|
                    0 <= k < i ==> spec_price_eligible(side, limit_price, opposite@[k].price),
                r@ == opposite@.take(i as int),
            decreases opposite@.len() - i,
        {
            r.push(opposite[i]);
            proof {
                assert(opposite@.take(i as int).push(opposite@[i as int]) =~= opposite@.take(
                    i as int + 1,
                ));
            }
            i = i + 1;
        }
        proof {
            lemma_eligible_count_first(opposite@, side, limit_price, i as int);
        }
        r
    }

    /// Whether some resting order, on either side, carries `id`.
    pub fn contains_order_id(&self, id: u64) -> (r: bool)
        ensures
            r == self.contains_id(id),
    {
        let in_bids = find_index_of_id(&self.bids, id).is_some();
        let in_asks = find_index_of_id(&self.asks, id).is_some();
        proof {
            lemma_idx_of_id(self.bids@, id);
            lemma_idx_of_id(self.asks@, id);
        }
        in_bids || in_asks
    }
}

/// Position at which a newly arriving order `o` rests within side `s`:
/// after every resting order with priority over `o`, before the rest. With
/// a fresh (largest) sequence number, `o` rests after every order of equal
/// price.
pub open spec fn insert_pos(s: Seq<Order>, o: Order, side: Side) -> int
    decreases s.len(),
{
    if s.len() == 0 {
        0
    } else if prio_before(s[0], o, side) {
        1 + insert_pos(s.drop_first(), o, side)
    } else {
        0
    }
}

/// `insert_pos` is in bounds, every order before it has priority over `o`,
/// and the order at it (if any) does not.
pub proof fn lemma_insert_pos_props(s: Seq<Order>, o: Order, side: Side)
    ensures
        0 <= insert_pos(s, o, side) <= s.len(),
        forall|k: int| 0 <= k < insert_pos(s, o, side) ==> prio_before(s[k], o, side),
        insert_pos(s, o, side) < s.len() ==> !prio_before(s[insert_pos(s, o, side)], o, side),
    decreases s.len(),
{
    if s.len() > 0 && prio_before(s[0], o, side) {
        lemma_insert_pos_props(s.drop_first(), o, side);
        assert forall|k: int| 0 <= k < insert_pos(s, o, side) implies prio_before(
            s[k],
            o,
            side,
        ) by {
            if k > 0 {
                assert(prio_before(s.drop_first()[k - 1], o, side));
            }
        }
    }
}

/// If every order before `i` has priority over `o` and the order at `i`
/// (if any) does not, then `insert_pos` is `i`.
pub proof fn lemma_insert_pos_first(s: Seq<Order>, o: Order, side: Side, i: int)
    requires
        0 <= i <= s.len(),
        forall|k: int| 0 <= k < i ==> prio_before(s[k], o, side),
        i < s.len() ==> !prio_before(s[i], o, side),
    ensures
        insert_pos(s, o, side) == i,
    decreases s.len(),
{
    if i > 0 {
        assert forall|k: int| 0 <= k < i - 1 implies prio_before(s.drop_first()[k], o, side) by {
            assert(prio_before(s[k + 1], o, side));
        }
        lemma_insert_pos_first(s.drop_first(), o, side, i - 1);
    }
}

/// Inserting an order with a fresh (largest) sequence number at its
/// `insert_pos` keeps a side strictly sorted by price-time priority.
pub proof fn lemma_insert_pos_sorted(s: Seq<Order>, o: Order, side: Side)
    requires
        forall|i: int, j: int| 0 <= i < j < s.len() ==> prio_before(s[i], s[j], side),
        forall|i: int| 0 <= i < s.len() ==> s[i].sequence < o.sequence,
    ensures
        ({
            let r = s.insert(insert_pos(s, o, side), o);
            forall|i: int, j: int| 0 <= i < j < r.len() ==> prio_before(r[i], r[j], side)
        }),
{
    let p = insert_pos(s, o, side);
    lemma_insert_pos_props(s, o, side);
    s.insert_ensures(p, o);
    let r = s.insert(p, o);
    assert forall|i: int, j: int| 0 <= i < j < r.len() implies prio_before(r[i], r[j], side) by {
        if i < p && j < p {
            assert(r[i] == s[i] && r[j] == s[j]);
        } else if i < p && j == p {
            assert(r[i] == s[i] && r[j] == o);
        } else if i < p && j > p {
            assert(r[i] == s[i] && r[j] == s[j - 1]);
            if p < s.len() {
                assert(prio_before(s[i], s[j - 1], side));
            }
        } else if i == p && j > p {
            assert(r[i] == o && r[j] == s[j - 1]);
            assert(!prio_before(s[p], o, side));
            assert(s[p].sequence != o.sequence);
            assert(prio_before(o, s[p], side));
            if j - 1 > p {
                assert(prio_before(s[p], s[j - 1], side));
            }
        } else {
            assert(r[i] == s[i - 1] && r[j] == s[j - 1]);
        }
    }
}

/// Length of the price-eligible prefix of `s` against an incoming order on
/// side `incoming_side` with limit `limit`.
pub open spec fn eligible_count(s: Seq<Order>, incoming_side: Side, limit: u32) -> int
    decreases s.len(),
{
    if s.len() == 0 {
        0
    } else if !spec_price_eligible(incoming_side, limit, s[0].price) {
        0
    } else {
        1 + eligible_count(s.drop_first(), incoming_side, limit)
    }
}

/// The eligible prefix is never longer than the side itself.
pub proof fn lemma_eligible_count_bounds(s: Seq<Order>, incoming_side: Side, limit: u32)
    ensures
        0 <= eligible_count(s, incoming_side, limit) <= s.len(),
    decreases s.len(),
{
    if s.len() > 0 && spec_price_eligible(incoming_side, limit, s[0].price) {
        lemma_eligible_count_bounds(s.drop_first(), incoming_side, limit);
    }
}

/// If the first `i` orders of `s` are price-eligible and the next one (if
/// any) is not, the eligible prefix has length `i`.
pub proof fn lemma_eligible_count_first(s: Seq<Order>, incoming_side: Side, limit: u32, i: int)
    requires
        0 <= i <= s.len(),
        forall|k: int| 0 <= k < i ==> spec_price_eligible(incoming_side, limit, s[k].price),
        i < s.len() ==> !spec_price_eligible(incoming_side, limit, s[i].price),
    ensures
        eligible_count(s, incoming_side, limit) == i,
    decreases s.len(),
{
    if i > 0 {
        assert forall|k: int| 0 <= k < i - 1 implies spec_price_eligible(
            incoming_side,
            limit,
            s.drop_first()[k].price,
        ) by {
            assert(spec_price_eligible(incoming_side, limit, s[k + 1].price));
        }
        lemma_eligible_count_first(s.drop_first(), incoming_side, limit, i - 1);
    }
}

/// Removing one order keeps a side well-formed and its ids unique, and
/// every surviving order is one of the original orders.
pub proof fn lemma_remove_side_wf(s: Seq<Order>, side: Side, next: u64, i: int)
    requires
        side_wf(s, side, next),
        ids_unique(s),
        0 <= i < s.len(),
    ensures
        side_wf(s.remove(i), side, next),
        ids_unique(s.remove(i)),
        forall|k: int|
            0 <= k < s.remove(i).len() ==> (#[trigger] s.remove(i)[k]) == s[k] || s.remove(i)[k]
                == s[k + 1],
{
    s.remove_ensures(i);
    let r = s.remove(i);
    assert forall|k: int| 0 <= k < r.len() implies (#[trigger] r[k]) == s[k] || r[k] == s[k + 1] by {
        if k < i {
            assert(r[k] == s[k]);
        } else {
            assert(r[k] == s[k + 1]);
        }
    }
    assert forall|a: int, b: int| 0 <= a < b < r.len() implies prio_before(r[a], r[b], side)
        && r[a].id != r[b].id by {
        let a2: int = if a < i { a } else { a + 1 };
        let b2: int = if b < i { b } else { b + 1 };
        assert(r[a] == s[a2] && r[b] == s[b2]);
        assert(prio_before(s[a2], s[b2], side));
    }
}

/// Each element of `s.insert(p, o)` is `o` or an element of `s`, at the
/// expected shifted index.
pub proof fn lemma_inserted_element(s: Seq<Order>, o: Order, p: int, i: int)
    requires
        0 <= p <= s.len(),
        0 <= i < s.insert(p, o).len(),
    ensures
        i == p ==> s.insert(p, o)[i] == o,
        i < p ==> s.insert(p, o)[i] == s[i],
        i > p ==> s.insert(p, o)[i] == s[i - 1],
{
    s.insert_ensures(p, o);
}

/// A side stays well-formed when an open, well-formed order of that side,
/// stamped with the side's next sequence number, rests at its priority
/// position.
pub proof fn lemma_insert_stamped_wf(s: Seq<Order>, o: Order, side: Side, next: u64)
    requires
        side_wf(s, side, next),
        o.wf(),
        o.volume_remaining > 0,
        o.side == side,
        o.sequence == next,
        next < u64::MAX,
    ensures
        side_wf(s.insert(insert_pos(s, o, side), o), side, (next + 1) as u64),
{
    let p = insert_pos(s, o, side);
    lemma_insert_pos_props(s, o, side);
    lemma_insert_pos_sorted(s, o, side);
    s.insert_ensures(p, o);
    let r = s.insert(p, o);
    assert forall|i: int|
        0 <= i < r.len() implies r[i].wf() && r[i].volume_remaining > 0 && r[i].side == side
        && r[i].sequence < next + 1 by {
        if i < p {
            assert(r[i] == s[i]);
        } else if i == p {
            assert(r[i] == o);
        } else {
            assert(r[i] == s[i - 1]);
        }
    }
}

/// Inserts `o` into the side vector `v` at its priority position.
fn insert_sorted(v: &mut Vec<Order>, o: Order, side: Side)
    ensures
        final(v)@ == old(v)@.insert(insert_pos(old(v)@, o, side), o),
{
    let mut i: usize = 0;
    while i < v.len() && price_time_before(v[i], o, side)
        invariant
            0 <= i <= v@.len(),
            forall|k: int| 0 <= k < i ==> prio_before(v@[k], o, side),
        decreases v@.len() - i,
    {
        i = i + 1;
    }
    proof {
        lemma_insert_pos_first(v@, o, side, i as int);
    }
    v.insert(i, o);
}

/// Decides `prio_before` for two orders of one side.
fn price_time_before(a: Order, b: Order, side: Side) -> (r: bool)
    ensures
        r == prio_before(a, b, side),
{
    match side {
        Side::Buy => a.price > b.price || (a.price == b.price && a.sequence < b.sequence),
        Side::Sell => a.price < b.price || (a.price == b.price && a.sequence < b.sequence),
    }
}

/// Finds the index of the first order in `v` carrying `id`.
fn find_index_of_id(v: &Vec<Order>, id: u64) -> (r: Option<usize>)
    ensures
        r is Some ==> r->0 < v@.len() && idx_of_id(v@, id) == r->0,
        r is None ==> idx_of_id(v@, id) == -1,
{
    let mut i: usize = 0;
    while i < v.len()
        invariant
            0 <= i <= v@.len(),
            forall|k: int| 0 <= k < i ==> v@[k].id != id,
        decreases v@.len() - i,
    {
        if v[i].id == id {
            proof {
                lemma_idx_of_id_first(v@, id, i as int);
            }
            return Some(i);
        }
        i = i + 1;
    }
    proof {
        lemma_idx_of_id(v@, id);
    }
    None
}

} // verus!
