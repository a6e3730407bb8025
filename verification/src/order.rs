//! Limit orders: sides, statuses, and the fill step shared by matching.

use vstd::prelude::*;

verus! {

/// The side of an order: a bid (`Buy`) or an ask (`Sell`).
#[derive(Clone, Copy, Debug, PartialEq, Eq, Structural)]
pub enum Side {
    Buy,
    Sell,
}

/// Lifecycle of an order.
///
/// `New` orders enter the engine; one matching pass leaves them `Filled`,
/// `PartiallyFilled`, or `Rested`. Resting orders may later become
/// `PartiallyFilled`, `Filled`, or `Canceled`. `Rejected` is reached only by
/// validation outside this core, before an order reaches the engine.
#[derive(Clone, Copy, Debug, PartialEq, Eq, Structural)]
pub enum OrderStatus {
    New,
    PartiallyFilled,
    Filled,
    Rested,
    Canceled,
    Rejected,
}

/// One resting or incoming limit order.
#[derive(Clone, Copy, Debug, PartialEq, Eq, Structural)]
pub struct Order {
    /// Unique identifier, assigned by the caller, immutable.
    pub id: u64,
    /// Buy or Sell.
    pub side: Side,
    /// Integer limit price; matching compares against it with `<=` / `>=`.
    pub price: u32,
    /// Original submitted quantity, immutable once set, always positive.
    pub total_volume: u32,
    /// Portion of `total_volume` not shown to counterparties; affects only
    /// disclosure, never matching priority.
    pub concealed_volume: u32,
    /// Cumulative quantity matched so far; starts at 0 and never decreases.
    pub volume_filled: u32,
    /// Quantity still open; `volume_filled + volume_remaining == total_volume`.
    pub volume_remaining: u32,
    /// Current lifecycle status.
    pub status: OrderStatus,
    /// Arrival counter used as the time-priority tie-break; assigned by the
    /// book at insertion, not at order creation.
    pub sequence: u64,
}

impl Side {
    /// The side a given side trades against.
    pub open spec fn spec_opposite(self) -> Side {
        match self {
            Side::Buy => Side::Sell,
            Side::Sell => Side::Buy,
        }
    }

    /// Returns the side a given side trades against.
    pub fn opposite(self) -> (r: Side)
        ensures
            r == self.spec_opposite(),
    {
        match self {
            Side::Buy => Side::Sell,
            Side::Sell => Side::Buy,
        }
    }
}

impl Order {
    /// Well-formedness: the volume conservation invariant, a positive total,
    /// and a concealed portion no larger than the total.
    pub open spec fn wf(self) -> bool {
        &&& self.volume_filled + self.volume_remaining == self.total_volume
        &&& self.total_volume > 0
        &&& self.concealed_volume <= self.total_volume
    }

    /// A copy of the order with the given status.
    pub open spec fn with_status(self, status: OrderStatus) -> Order {
        Order {
            id: self.id,
            side: self.side,
            price: self.price,
            total_volume: self.total_volume,
            concealed_volume: self.concealed_volume,
            volume_filled: self.volume_filled,
            volume_remaining: self.volume_remaining,
            status: status,
            sequence: self.sequence,
        }
    }

    /// A copy of the order with the given sequence number.
    pub open spec fn with_sequence(self, sequence: u64) -> Order {
        Order {
            id: self.id,
            side: self.side,
            price: self.price,
            total_volume: self.total_volume,
            concealed_volume: self.concealed_volume,
            volume_filled: self.volume_filled,
            volume_remaining: self.volume_remaining,
            status: self.status,
            sequence: sequence,
        }
    }

    /// Records a fill of `qty` against this order: `qty` moves from
    /// `volume_remaining` to `volume_filled`, and the status becomes `Filled`
    /// when nothing remains, else `PartiallyFilled`.
    pub open spec fn spec_after_fill(self, qty: u32) -> Order
        recommends
            qty <= self.volume_remaining,
    {
        Order {
            id: self.id,
            side: self.side,
            price: self.price,
            total_volume: self.total_volume,
            concealed_volume: self.concealed_volume,
            volume_filled: (self.volume_filled + qty) as u32,
            volume_remaining: (self.volume_remaining - qty) as u32,
            status: if self.volume_remaining == qty {
                OrderStatus::Filled
            } else {
                OrderStatus::PartiallyFilled
            },
            sequence: self.sequence,
        }
    }

    /// Matches this resting order against an incoming counterparty: the
    /// traded quantity is the minimum of the two remaining volumes, both
    /// orders' bookkeeping is updated by exactly that quantity, and the
    /// quantity is returned.
    pub fn fill(&mut self, other: &mut Order) -> (qty: u32)
        requires
            old(self).wf(),
            old(other).wf(),
            old(self).volume_remaining > 0,
            old(other).volume_remaining > 0,
        ensures
            qty == spec_fill_qty(*old(self), *old(other)),
            qty > 0,
            *final(self) == old(self).spec_after_fill(qty),
            *final(other) == old(other).spec_after_fill(qty),
            final(self).wf(),
            final(other).wf(),
    {
        let qty = if self.volume_remaining <= other.volume_remaining {
            self.volume_remaining
        } else {
            other.volume_remaining
        };
        self.volume_remaining = self.volume_remaining - qty;
        self.volume_filled = self.volume_filled + qty;
        self.status = if self.volume_remaining == 0 {
            OrderStatus::Filled
        } else {
            OrderStatus::PartiallyFilled
        };
        other.volume_remaining = other.volume_remaining - qty;
        other.volume_filled = other.volume_filled + qty;
        other.status = if other.volume_remaining == 0 {
            OrderStatus::Filled
        } else {
            OrderStatus::PartiallyFilled
        };
        qty
    }
}

/// The quantity one fill between `a` and `b` trades: the minimum of the two
/// remaining volumes, so neither side's remaining volume can go negative.
pub open spec fn spec_fill_qty(a: Order, b: Order) -> u32 {
    if a.volume_remaining <= b.volume_remaining {
        a.volume_remaining
    } else {
        b.volume_remaining
    }
}

/// Whether a resting order priced at `resting_price` is price-eligible
/// against an incoming order on side `incoming_side` with limit `limit`:
/// an ask must be at or below a bid's limit, a bid at or above an ask's.
pub open spec fn spec_price_eligible(incoming_side: Side, limit: u32, resting_price: u32) -> bool {
    match incoming_side {
        Side::Buy => resting_price <= limit,
        Side::Sell => resting_price >= limit,
    }
}

/// Decides price eligibility of a resting price against an incoming limit.
pub fn price_eligible(incoming_side: Side, limit: u32, resting_price: u32) -> (r: bool)
    ensures
        r == spec_price_eligible(incoming_side, limit, resting_price),
{
    match incoming_side {
        Side::Buy => resting_price <= limit,
        Side::Sell => resting_price >= limit,
    }
}

} // verus!
