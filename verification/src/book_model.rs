//! What one outcome's book holds, as plain sequences, and what matching,
//! resting and cancelling do to them.

use vstd::prelude::*;
use crate::side::Side;

verus! {

/// An order waiting in a book.
pub struct RestingOrder {
    pub id: u64,
    pub price: int,
    pub quantity: int,
}

/// One order's share of a call: the quantity it traded and what that cost it
/// (positive: paid, negative: received).
pub struct FillView {
    pub order: u64,
    pub quantity: int,
    pub cost: int,
}

/// Both sides of one book, each in matching order: best price first, and
/// among equal prices the order that came first.
pub struct BookView {
    pub bids: Seq<RestingOrder>,
    pub asks: Seq<RestingOrder>,
}

impl BookView {
    /// The orders resting on `side`.
    pub open spec fn side(self, side: Side) -> Seq<RestingOrder> {
        match side {
            Side::Buy => self.bids,
            Side::Sell => self.asks,
        }
    }

    /// This book with `orders` in place of what rested on `side`.
    pub open spec fn with_side(self, side: Side, orders: Seq<RestingOrder>) -> BookView {
        match side {
            Side::Buy => BookView { bids: orders, asks: self.asks },
            Side::Sell => BookView { bids: self.bids, asks: orders },
        }
    }

    /// Whether an order with this id rests on either side.
    pub open spec fn rests(self, id: u64) -> bool {
        holds(self.bids, id) || holds(self.asks, id)
    }

    /// This book without the orders that have this id.
    pub open spec fn without(self, id: u64) -> BookView {
        BookView { bids: removed(self.bids, id), asks: removed(self.asks, id) }
    }

    /// Whether every resting order has a positive quantity and a price that
    /// is not negative.
    pub open spec fn wf(self) -> bool {
        positive(self.bids) && positive(self.asks)
    }

    /// Whether no two resting orders have the same id.
    pub open spec fn distinct(self) -> bool {
        &&& distinct(self.bids)
        &&& distinct(self.asks)
        &&& forall|id: u64| !(#[trigger] holds(self.bids, id) && #[trigger] holds(self.asks, id))
    }

    /// Whether both sides stand in the order of their prices, the best first.
    pub open spec fn sorted(self) -> bool {
        sorted(self.bids, Side::Buy) && sorted(self.asks, Side::Sell)
    }

    /// Whether every resting order has a price strictly between 0 and
    /// `contract_price`.
    pub open spec fn priced(self, contract_price: int) -> bool {
        priced(self.bids, contract_price) && priced(self.asks, contract_price)
    }
}

/// Whether one of `orders` has this id.
pub open spec fn holds(orders: Seq<RestingOrder>, id: u64) -> bool {
    exists|k: int| 0 <= k < orders.len() && #[trigger] orders[k].id == id
}

/// Whether every order has a positive quantity and a price that is not negative.
pub open spec fn positive(orders: Seq<RestingOrder>) -> bool {
    forall|k: int|
        0 <= k < orders.len() ==> (#[trigger] orders[k]).quantity > 0 && orders[k].price >= 0
}

/// Whether no two of `orders` have the same id.
pub open spec fn distinct(orders: Seq<RestingOrder>) -> bool {
    forall|k: int, l: int|
        0 <= k < l < orders.len() ==> (#[trigger] orders[k]).id != (#[trigger] orders[l]).id
}

/// Whether the orders of `side` stand in the order of their prices, the
/// best first: the highest bid, the lowest ask.
pub open spec fn sorted(orders: Seq<RestingOrder>, side: Side) -> bool {
    forall|k: int, l: int|
        0 <= k < l < orders.len() ==> ahead_of(
            side,
            (#[trigger] orders[k]).price,
            (#[trigger] orders[l]).price,
        )
}

/// Whether every price lies strictly between 0 and `contract_price`.
pub open spec fn priced(orders: Seq<RestingOrder>, contract_price: int) -> bool {
    forall|k: int| 0 <= k < orders.len() ==> 0 < (#[trigger] orders[k]).price < contract_price
}

/// The total quantity of `orders`.
pub open spec fn resting_quantity(orders: Seq<RestingOrder>) -> int
    decreases orders.len(),
{
    if orders.len() == 0 {
        0
    } else {
        orders[0].quantity + resting_quantity(orders.drop_first())
    }
}

/// The total quantity of the leading orders of `orders` that are priced at `price`.
pub open spec fn level_sum(orders: Seq<RestingOrder>, price: int) -> int
    decreases orders.len(),
{
    if orders.len() == 0 || orders[0].price != price {
        0
    } else {
        orders[0].quantity + level_sum(orders.drop_first(), price)
    }
}

/// The quantity resting at the best price of `orders`; 0 where there is none.
pub open spec fn level_quantity(orders: Seq<RestingOrder>) -> int {
    if orders.len() == 0 {
        0
    } else {
        level_sum(orders, orders[0].price)
    }
}

/// The smaller of two integers.
pub open spec fn least(a: int, b: int) -> int {
    if a > b {
        b
    } else {
        a
    }
}

/// What is left of `orders` once `quantity` was taken from the front.
pub open spec fn consumed(orders: Seq<RestingOrder>, quantity: int) -> Seq<RestingOrder>
    decreases orders.len(),
{
    if orders.len() == 0 || quantity <= 0 {
        orders
    } else if quantity >= orders[0].quantity {
        consumed(orders.drop_first(), quantity - orders[0].quantity)
    } else {
        seq![
            RestingOrder {
                id: orders[0].id,
                price: orders[0].price,
                quantity: orders[0].quantity - quantity,
            },
        ] + orders.drop_first()
    }
}

/// How much of `quantity` the orders can supply.
pub open spec fn matched_quantity(orders: Seq<RestingOrder>, quantity: int) -> int
    decreases orders.len(),
{
    if orders.len() == 0 || quantity <= 0 {
        0
    } else {
        let taken = least(quantity, orders[0].quantity);
        taken + matched_quantity(orders.drop_first(), quantity - taken)
    }
}

/// The money that changes hands when `quantity` is taken from the front of
/// `orders`, each order at its own price.
pub open spec fn matched_value(orders: Seq<RestingOrder>, quantity: int) -> int
    decreases orders.len(),
{
    if orders.len() == 0 || quantity <= 0 {
        0
    } else {
        let taken = least(quantity, orders[0].quantity);
        orders[0].price * taken + matched_value(orders.drop_first(), quantity - taken)
    }
}

/// `value` as a cost of the side that buys, or as the proceeds of the side that sells.
pub open spec fn signed_cost(side: Side, value: int) -> int {
    match side {
        Side::Buy => value,
        Side::Sell => -value,
    }
}

/// The fills of the resting orders when an order of side `taker` takes
/// `quantity` from the front of `orders`, in the order in which they trade.
pub open spec fn maker_fills(orders: Seq<RestingOrder>, quantity: int, taker: Side) -> Seq<FillView>
    decreases orders.len(),
{
    if orders.len() == 0 || quantity <= 0 {
        Seq::empty()
    } else {
        let taken = least(quantity, orders[0].quantity);
        seq![
            FillView {
                order: orders[0].id,
                quantity: taken,
                cost: signed_cost(taker.spec_opposite(), orders[0].price * taken),
            },
        ] + maker_fills(orders.drop_first(), quantity - taken, taker)
    }
}

/// The fill of the order that takes `quantity` from the front of `orders`.
pub open spec fn taker_fill(orders: Seq<RestingOrder>, id: u64, taker: Side, quantity: int) -> FillView {
    FillView {
        order: id,
        quantity: matched_quantity(orders, quantity),
        cost: signed_cost(taker, matched_value(orders, quantity)),
    }
}

/// All fills of a market order: the resting orders it trades with, then the
/// order itself, unless nothing traded.
pub open spec fn market_fills(orders: Seq<RestingOrder>, id: u64, taker: Side, quantity: int) -> Seq<
    FillView,
> {
    if matched_quantity(orders, quantity) == 0 {
        maker_fills(orders, quantity, taker)
    } else {
        maker_fills(orders, quantity, taker).push(taker_fill(orders, id, taker, quantity))
    }
}

/// Whether an order resting on `side` at `resting_price` keeps its place
/// before one that arrives at `price`.
pub open spec fn ahead_of(side: Side, resting_price: int, price: int) -> bool {
    match side {
        Side::Buy => resting_price >= price,
        Side::Sell => resting_price <= price,
    }
}

/// `orders` of `side` with `order` put in its place: behind every order with
/// a better or the same price.
pub open spec fn inserted(orders: Seq<RestingOrder>, side: Side, order: RestingOrder) -> Seq<
    RestingOrder,
>
    decreases orders.len(),
{
    if orders.len() > 0 && ahead_of(side, orders[0].price, order.price) {
        seq![orders[0]] + inserted(orders.drop_first(), side, order)
    } else {
        seq![order] + orders
    }
}

/// `orders` without the orders that have this id.
pub open spec fn removed(orders: Seq<RestingOrder>, id: u64) -> Seq<RestingOrder>
    decreases orders.len(),
{
    if orders.len() == 0 {
        orders
    } else if orders[0].id == id {
        removed(orders.drop_first(), id)
    } else {
        seq![orders[0]] + removed(orders.drop_first(), id)
    }
}

/// Whether a limit order of `side` at `price` trades with a resting order at `resting_price`.
pub open spec fn crosses(side: Side, price: int, resting_price: int) -> bool {
    match side {
        Side::Buy => price >= resting_price,
        Side::Sell => price <= resting_price,
    }
}

} // verus!
