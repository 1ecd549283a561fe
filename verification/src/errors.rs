//! The errors that callers can recover from.

use vstd::prelude::*;

verus! {

/// Why a limit order was turned away.
#[derive(Clone, Copy, Debug, PartialEq, Eq, Structural)]
pub enum ProcessLimitOrder {
    /// The outcome is not one of the market's, the price does not lie
    /// strictly between 0 and the contract price, or the quantity is not
    /// positive.
    OrderValidationFailed,
}

} // verus!
