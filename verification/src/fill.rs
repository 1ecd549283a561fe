//! The fills that a call hands back.

use vstd::prelude::*;
use crate::amount::Amount;
use crate::book_model::FillView;

verus! {

/// What one order traded during one call: its quantity, always positive, and
/// its cost, positive where it paid and negative where it received.
#[derive(Clone, Copy, Debug, PartialEq, Eq, Structural)]
pub struct OrderMatch {
    pub order: u64,
    pub quantity: Amount,
    pub cost: Amount,
}

impl View for OrderMatch {
    type V = FillView;

    open spec fn view(&self) -> FillView {
        FillView { order: self.order, quantity: self.quantity@, cost: self.cost@ }
    }
}

/// The views of a list of fills, one for one.
pub open spec fn fill_views(fills: Seq<OrderMatch>) -> Seq<FillView> {
    fills.map_values(|f: OrderMatch| f@)
}

/// Whether `fills` holds each entry of `totals` once, and nothing else.
pub open spec fn lists(fills: Seq<OrderMatch>, totals: Map<u64, FillView>) -> bool {
    &&& forall|i: int, j: int| 0 <= i < j < fills.len() ==> fills[i].order != fills[j].order
    &&& forall|i: int|
        0 <= i < fills.len() ==> totals.contains_key((#[trigger] fills[i]).order)
            && totals[fills[i].order] == fills[i]@
    &&& forall|id: u64| #[trigger]
        totals.contains_key(id) ==> exists|i: int|
            0 <= i < fills.len() && (#[trigger] fills[i]).order == id
}

} // verus!
