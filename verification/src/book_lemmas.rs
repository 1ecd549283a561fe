//! Facts about matching, resting and cancelling in one book.

use vstd::prelude::*;
use crate::book_model::{
    ahead_of, consumed, distinct, holds, inserted, level_quantity, level_sum, maker_fills,
    market_fills, matched_quantity, matched_value, positive, priced, removed, resting_quantity,
    sorted, RestingOrder,
};
use crate::side::Side;

verus! {

/// A price level of positive orders has a total that is not negative, and
/// at least the quantity of its first order.
pub proof fn lemma_level_sum_bounds(orders: Seq<RestingOrder>, price: int)
    requires
        positive(orders),
    ensures
        level_sum(orders, price) >= 0,
        orders.len() > 0 && orders[0].price == price ==> level_sum(orders, price)
            >= orders[0].quantity,
    decreases orders.len(),
{
    if orders.len() > 0 && orders[0].price == price {
        assert(orders[0].quantity > 0);
        lemma_level_sum_bounds(orders.drop_first(), price);
    }
}

/// Where positive orders rest, the best price has a positive quantity.
pub proof fn lemma_level_quantity_positive(orders: Seq<RestingOrder>)
    requires
        positive(orders),
    ensures
        level_quantity(orders) >= 0,
        orders.len() > 0 ==> level_quantity(orders) > 0,
{
    if orders.len() > 0 {
        lemma_level_sum_bounds(orders, orders[0].price);
        assert(orders[0].quantity > 0);
    }
}

/// A quantity that the leading orders at `price` can supply is matched in
/// full, and all of it at `price`.
pub proof fn lemma_matched_in_level(orders: Seq<RestingOrder>, quantity: int, price: int)
    requires
        positive(orders),
        0 <= quantity <= level_sum(orders, price),
    ensures
        matched_quantity(orders, quantity) == quantity,
        matched_value(orders, quantity) == price * quantity,
    decreases orders.len(),
{
    if orders.len() == 0 || quantity <= 0 {
        assert(quantity == 0);
        assert(price * quantity == 0) by (nonlinear_arith)
            requires
                quantity == 0,
        ;
    } else {
        assert(orders[0].price == price);
        assert(orders[0].quantity > 0);
        let taken = if quantity > orders[0].quantity {
            orders[0].quantity
        } else {
            quantity
        };
        lemma_level_sum_bounds(orders.drop_first(), price);
        lemma_matched_in_level(orders.drop_first(), quantity - taken, price);
        assert(price * taken + price * (quantity - taken) == price * quantity)
            by (nonlinear_arith);
    }
}

/// A positive quantity within the best level of positive orders is matched
/// in full at the best price.
pub proof fn lemma_matched_at_best(orders: Seq<RestingOrder>, quantity: int)
    requires
        positive(orders),
        0 < quantity <= level_quantity(orders),
    ensures
        orders.len() > 0,
        matched_quantity(orders, quantity) == quantity,
        matched_value(orders, quantity) == orders[0].price * quantity,
{
    lemma_matched_in_level(orders, quantity, orders[0].price);
}

/// Taking from positive orders leaves positive orders.
pub proof fn lemma_consumed_positive(orders: Seq<RestingOrder>, quantity: int)
    requires
        positive(orders),
    ensures
        positive(consumed(orders, quantity)),
    decreases orders.len(),
{
    if orders.len() == 0 || quantity <= 0 {
    } else if quantity >= orders[0].quantity {
        lemma_consumed_positive(orders.drop_first(), quantity - orders[0].quantity);
    } else {
        let rest = consumed(orders, quantity);
        assert forall|k: int| 0 <= k < rest.len() implies (#[trigger] rest[k]).quantity > 0
            && rest[k].price >= 0 by {
            if k == 0 {
                assert(orders[0].price >= 0);
            } else {
                assert(rest[k] == orders[k]);
            }
        }
    }
}

/// Taking from orders leaves their prices as they are.
pub proof fn lemma_consumed_priced(orders: Seq<RestingOrder>, quantity: int, contract_price: int)
    requires
        priced(orders, contract_price),
    ensures
        priced(consumed(orders, quantity), contract_price),
    decreases orders.len(),
{
    if orders.len() == 0 || quantity <= 0 {
    } else if quantity >= orders[0].quantity {
        let before = orders.drop_first();
        assert forall|k: int| 0 <= k < before.len() implies 0 < (#[trigger] before[k]).price
            < contract_price by {
            assert(before[k] == orders[k + 1]);
        }
        lemma_consumed_priced(before, quantity - orders[0].quantity, contract_price);
    } else {
        let rest = consumed(orders, quantity);
        assert forall|k: int| 0 <= k < rest.len() implies 0 < (#[trigger] rest[k]).price
            < contract_price by {
            if k == 0 {
                assert(rest[0].price == orders[0].price);
            } else {
                assert(rest[k] == orders[k]);
            }
        }
    }
}

/// Taking from positive orders never adds to their total quantity.
pub proof fn lemma_consumed_quantity(orders: Seq<RestingOrder>, quantity: int)
    requires
        positive(orders),
    ensures
        0 <= resting_quantity(consumed(orders, quantity)) <= resting_quantity(orders),
    decreases orders.len(),
{
    if orders.len() == 0 {
    } else {
        let before = orders.drop_first();
        assert(orders[0].quantity > 0);
        assert forall|k: int| 0 <= k < before.len() implies (#[trigger] before[k]).quantity > 0
            && before[k].price >= 0 by {
            assert(before[k] == orders[k + 1]);
        }
        lemma_consumed_quantity(before, quantity - orders[0].quantity);
        lemma_consumed_quantity(before, 0);
        if quantity <= 0 {
            assert(consumed(before, 0) == before);
        } else if quantity >= orders[0].quantity {
        } else {
            let rest = consumed(orders, quantity);
            assert(rest.drop_first() =~= before);
            assert(consumed(before, 0) == before);
        }
    }
}

/// The quantity at a price level is part of the total quantity.
pub proof fn lemma_level_within_total(orders: Seq<RestingOrder>, price: int)
    requires
        positive(orders),
    ensures
        level_sum(orders, price) <= resting_quantity(orders),
        0 <= resting_quantity(orders),
    decreases orders.len(),
{
    if orders.len() > 0 {
        let before = orders.drop_first();
        assert(orders[0].quantity > 0);
        assert forall|k: int| 0 <= k < before.len() implies (#[trigger] before[k]).quantity > 0
            && before[k].price >= 0 by {
            assert(before[k] == orders[k + 1]);
        }
        lemma_level_within_total(before, price);
    }
}

/// Taking from a book brings no new id into it.
pub proof fn lemma_consumed_holds(orders: Seq<RestingOrder>, quantity: int, id: u64)
    ensures
        holds(consumed(orders, quantity), id) ==> holds(orders, id),
    decreases orders.len(),
{
    let rest = consumed(orders, quantity);
    if holds(rest, id) {
        let k = choose|k: int| 0 <= k < rest.len() && #[trigger] rest[k].id == id;
        if orders.len() == 0 || quantity <= 0 {
        } else if quantity >= orders[0].quantity {
            lemma_consumed_holds(orders.drop_first(), quantity - orders[0].quantity, id);
            let tail = orders.drop_first();
            let m = choose|m: int| 0 <= m < tail.len() && #[trigger] tail[m].id == id;
            assert(orders[m + 1].id == id);
        } else {
            assert(orders[k].id == id);
        }
    }
}

/// What is left after taking is what was there from some order on; only
/// the first of them may have less quantity.
pub proof fn lemma_consumed_tail(orders: Seq<RestingOrder>, quantity: int) -> (d: int)
    ensures
        0 <= d <= orders.len(),
        consumed(orders, quantity).len() == orders.len() - d,
        forall|k: int|
            0 <= k < orders.len() - d ==> (#[trigger] consumed(orders, quantity)[k]).id
                == orders[k + d].id && consumed(orders, quantity)[k].price == orders[k + d].price,
    decreases orders.len(),
{
    if orders.len() == 0 || quantity <= 0 {
        0
    } else if quantity >= orders[0].quantity {
        let before = orders.drop_first();
        let d = lemma_consumed_tail(before, quantity - orders[0].quantity);
        assert forall|k: int| 0 <= k < orders.len() - (d + 1) implies (#[trigger] consumed(
            orders,
            quantity,
        )[k]).id == orders[k + d + 1].id && consumed(orders, quantity)[k].price == orders[k + d
            + 1].price by {
            assert(before[k + d] == orders[k + d + 1]);
        }
        d + 1
    } else {
        0
    }
}

/// Taking from orders with distinct ids leaves distinct ids.
pub proof fn lemma_consumed_distinct(orders: Seq<RestingOrder>, quantity: int)
    requires
        distinct(orders),
    ensures
        distinct(consumed(orders, quantity)),
{
    let d = lemma_consumed_tail(orders, quantity);
    let rest = consumed(orders, quantity);
    assert forall|k: int, l: int| 0 <= k < l < rest.len() implies (#[trigger] rest[k]).id != (
    #[trigger] rest[l]).id by {
        assert(orders[k + d].id != orders[l + d].id);
    }
}

/// Taking from orders that stand in the order of their prices leaves them so.
pub proof fn lemma_consumed_sorted(orders: Seq<RestingOrder>, quantity: int, side: Side)
    requires
        sorted(orders, side),
    ensures
        sorted(consumed(orders, quantity), side),
{
    let d = lemma_consumed_tail(orders, quantity);
    let rest = consumed(orders, quantity);
    assert forall|k: int, l: int| 0 <= k < l < rest.len() implies ahead_of(
        side,
        (#[trigger] rest[k]).price,
        (#[trigger] rest[l]).price,
    ) by {
        assert(ahead_of(side, orders[k + d].price, orders[l + d].price));
    }
}

/// Once an id is cancelled, no order with that id rests.
pub proof fn lemma_removed_gone(orders: Seq<RestingOrder>, id: u64)
    ensures
        !holds(removed(orders, id), id),
    decreases orders.len(),
{
    let rest = removed(orders, id);
    if orders.len() > 0 {
        lemma_removed_gone(orders.drop_first(), id);
        let tail = removed(orders.drop_first(), id);
        if holds(rest, id) {
            let k = choose|k: int| 0 <= k < rest.len() && #[trigger] rest[k].id == id;
            if orders[0].id != id {
                assert(k > 0);
                assert(tail[k - 1].id == id);
            }
        }
    }
}

/// What rests after a cancel are the orders with another id, and all of them.
pub proof fn lemma_removed_keeps(orders: Seq<RestingOrder>, id: u64, other: u64)
    requires
        other != id,
    ensures
        holds(removed(orders, id), other) <==> holds(orders, other),
    decreases orders.len(),
{
    let rest = removed(orders, id);
    if orders.len() > 0 {
        lemma_removed_keeps(orders.drop_first(), id, other);
        let before = orders.drop_first();
        let tail = removed(before, id);
        if holds(rest, other) {
            let k = choose|k: int| 0 <= k < rest.len() && #[trigger] rest[k].id == other;
            if orders[0].id == id || k > 0 {
                let j = if orders[0].id == id {
                    k
                } else {
                    k - 1
                };
                assert(tail[j].id == other);
                let m = choose|m: int| 0 <= m < before.len() && #[trigger] before[m].id == other;
                assert(orders[m + 1].id == other);
            } else {
                assert(orders[0].id == other);
            }
        }
        if holds(orders, other) {
            let k = choose|k: int| 0 <= k < orders.len() && #[trigger] orders[k].id == other;
            if k == 0 {
                assert(rest[0].id == other);
            } else {
                assert(before[k - 1].id == other);
                let m = choose|m: int| 0 <= m < tail.len() && #[trigger] tail[m].id == other;
                if orders[0].id == id {
                    assert(rest[m].id == other);
                } else {
                    assert(rest[m + 1].id == other);
                }
            }
        }
    }
}

/// A cancel leaves positive orders positive.
pub proof fn lemma_removed_positive(orders: Seq<RestingOrder>, id: u64)
    requires
        positive(orders),
    ensures
        positive(removed(orders, id)),
    decreases orders.len(),
{
    if orders.len() > 0 {
        let before = orders.drop_first();
        assert forall|k: int| 0 <= k < before.len() implies (#[trigger] before[k]).quantity > 0
            && before[k].price >= 0 by {
            assert(before[k] == orders[k + 1]);
        }
        lemma_removed_positive(before, id);
        let tail = removed(before, id);
        let rest = removed(orders, id);
        assert forall|k: int| 0 <= k < rest.len() implies (#[trigger] rest[k]).quantity > 0
            && rest[k].price >= 0 by {
            if orders[0].id != id {
                if k == 0 {
                    assert(rest[0] == orders[0]);
                } else {
                    assert(rest[k] == tail[k - 1]);
                }
            }
        }
    }
}

/// A cancel leaves the prices of the other orders as they are.
pub proof fn lemma_removed_priced(orders: Seq<RestingOrder>, id: u64, contract_price: int)
    requires
        priced(orders, contract_price),
    ensures
        priced(removed(orders, id), contract_price),
    decreases orders.len(),
{
    if orders.len() > 0 {
        let before = orders.drop_first();
        assert forall|k: int| 0 <= k < before.len() implies 0 < (#[trigger] before[k]).price
            < contract_price by {
            assert(before[k] == orders[k + 1]);
        }
        lemma_removed_priced(before, id, contract_price);
        let tail = removed(before, id);
        let rest = removed(orders, id);
        assert forall|k: int| 0 <= k < rest.len() implies 0 < (#[trigger] rest[k]).price
            < contract_price by {
            if orders[0].id != id {
                if k == 0 {
                    assert(rest[0] == orders[0]);
                } else {
                    assert(rest[k] == tail[k - 1]);
                }
            }
        }
    }
}

/// A cancel among distinct ids leaves distinct ids.
pub proof fn lemma_removed_distinct(orders: Seq<RestingOrder>, id: u64)
    requires
        distinct(orders),
    ensures
        distinct(removed(orders, id)),
    decreases orders.len(),
{
    if orders.len() > 0 {
        let before = orders.drop_first();
        assert forall|k: int, l: int| 0 <= k < l < before.len() implies (#[trigger] before[k]).id
            != (#[trigger] before[l]).id by {
            assert(orders[k + 1].id != orders[l + 1].id);
        }
        lemma_removed_distinct(before, id);
        let tail = removed(before, id);
        let rest = removed(orders, id);
        if orders[0].id != id {
            lemma_removed_keeps(before, id, orders[0].id);
            if holds(before, orders[0].id) {
                let m = choose|m: int| 0 <= m < before.len() && #[trigger] before[m].id
                    == orders[0].id;
                assert(orders[0].id != orders[m + 1].id);
            }
            assert forall|k: int, l: int| 0 <= k < l < rest.len() implies (#[trigger] rest[k]).id
                != (#[trigger] rest[l]).id by {
                if k == 0 {
                    assert(tail[l - 1].id == rest[l].id);
                } else {
                    assert(tail[k - 1].id != tail[l - 1].id);
                }
            }
        }
    }
}

/// An order with a new id that comes to rest among distinct ids leaves
/// distinct ids.
pub proof fn lemma_inserted_distinct(orders: Seq<RestingOrder>, side: Side, order: RestingOrder)
    requires
        distinct(orders),
        !holds(orders, order.id),
    ensures
        distinct(inserted(orders, side, order)),
    decreases orders.len(),
{
    let all = inserted(orders, side, order);
    if orders.len() > 0 && ahead_of(side, orders[0].price, order.price) {
        let before = orders.drop_first();
        assert forall|k: int, l: int| 0 <= k < l < before.len() implies (#[trigger] before[k]).id
            != (#[trigger] before[l]).id by {
            assert(orders[k + 1].id != orders[l + 1].id);
        }
        if holds(before, order.id) {
            let m = choose|m: int| 0 <= m < before.len() && #[trigger] before[m].id == order.id;
            assert(orders[m + 1].id == order.id);
        }
        lemma_inserted_distinct(before, side, order);
        let tail = inserted(before, side, order);
        lemma_inserted_holds(before, side, order, orders[0].id);
        assert(orders[0].id != order.id);
        if holds(before, orders[0].id) {
            let m = choose|m: int| 0 <= m < before.len() && #[trigger] before[m].id
                == orders[0].id;
            assert(orders[0].id != orders[m + 1].id);
        }
        assert forall|k: int, l: int| 0 <= k < l < all.len() implies (#[trigger] all[k]).id != (
        #[trigger] all[l]).id by {
            if k == 0 {
                assert(tail[l - 1].id == all[l].id);
            } else {
                assert(tail[k - 1].id != tail[l - 1].id);
            }
        }
    } else {
        assert forall|k: int, l: int| 0 <= k < l < all.len() implies (#[trigger] all[k]).id != (
        #[trigger] all[l]).id by {
            if k == 0 {
                assert(orders[l - 1].id == all[l].id);
            } else {
                assert(orders[k - 1].id != orders[l - 1].id);
            }
        }
    }
}

/// Each order that is left after a cancel was there before.
pub proof fn lemma_removed_from(orders: Seq<RestingOrder>, id: u64, k: int) -> (m: int)
    requires
        0 <= k < removed(orders, id).len(),
    ensures
        0 <= m < orders.len(),
        removed(orders, id)[k] == orders[m],
    decreases orders.len(),
{
    if orders[0].id == id {
        lemma_removed_from(orders.drop_first(), id, k) + 1
    } else if k == 0 {
        0
    } else {
        lemma_removed_from(orders.drop_first(), id, k - 1) + 1
    }
}

/// A cancel among orders that stand in the order of their prices leaves
/// them so.
pub proof fn lemma_removed_sorted(orders: Seq<RestingOrder>, id: u64, side: Side)
    requires
        sorted(orders, side),
    ensures
        sorted(removed(orders, id), side),
    decreases orders.len(),
{
    if orders.len() > 0 {
        let before = orders.drop_first();
        assert forall|k: int, l: int| 0 <= k < l < before.len() implies ahead_of(
            side,
            (#[trigger] before[k]).price,
            (#[trigger] before[l]).price,
        ) by {
            assert(ahead_of(side, orders[k + 1].price, orders[l + 1].price));
        }
        lemma_removed_sorted(before, id, side);
        let tail = removed(before, id);
        let rest = removed(orders, id);
        if orders[0].id != id {
            assert forall|k: int, l: int| 0 <= k < l < rest.len() implies ahead_of(
                side,
                (#[trigger] rest[k]).price,
                (#[trigger] rest[l]).price,
            ) by {
                if k == 0 {
                    let m = lemma_removed_from(before, id, l - 1);
                    assert(rest[l] == tail[l - 1]);
                    assert(ahead_of(side, orders[0].price, orders[m + 1].price));
                } else {
                    assert(ahead_of(side, tail[k - 1].price, tail[l - 1].price));
                }
            }
        }
    }
}

/// An order that comes to rest among orders that stand in the order of
/// their prices leaves them so.
pub proof fn lemma_inserted_sorted(orders: Seq<RestingOrder>, side: Side, order: RestingOrder)
    requires
        sorted(orders, side),
    ensures
        sorted(inserted(orders, side, order), side),
        forall|k: int|
            0 <= k < inserted(orders, side, order).len() ==> #[trigger] inserted(
                orders,
                side,
                order,
            )[k] == order || exists|m: int|
                0 <= m < orders.len() && inserted(orders, side, order)[k] == #[trigger] orders[m],
    decreases orders.len(),
{
    let all = inserted(orders, side, order);
    if orders.len() > 0 && ahead_of(side, orders[0].price, order.price) {
        let before = orders.drop_first();
        assert forall|k: int, l: int| 0 <= k < l < before.len() implies ahead_of(
            side,
            (#[trigger] before[k]).price,
            (#[trigger] before[l]).price,
        ) by {
            assert(ahead_of(side, orders[k + 1].price, orders[l + 1].price));
        }
        lemma_inserted_sorted(before, side, order);
        let tail = inserted(before, side, order);
        assert forall|k: int| 0 <= k < all.len() implies #[trigger] all[k] == order || exists|
            m: int,
        | 0 <= m < orders.len() && all[k] == #[trigger] orders[m] by {
            if k == 0 {
                assert(all[0] == orders[0]);
            } else {
                assert(all[k] == tail[k - 1]);
                if tail[k - 1] != order {
                    let m = choose|m: int| 0 <= m < before.len() && tail[k - 1]
                        == #[trigger] before[m];
                    assert(all[k] == orders[m + 1]);
                }
            }
        }
        assert forall|k: int, l: int| 0 <= k < l < all.len() implies ahead_of(
            side,
            (#[trigger] all[k]).price,
            (#[trigger] all[l]).price,
        ) by {
            if k == 0 {
                assert(all[l] == tail[l - 1]);
                if tail[l - 1] != order {
                    let m = choose|m: int| 0 <= m < before.len() && tail[l - 1]
                        == #[trigger] before[m];
                    assert(ahead_of(side, orders[0].price, orders[m + 1].price));
                }
            } else {
                assert(ahead_of(side, tail[k - 1].price, tail[l - 1].price));
            }
        }
    } else {
        assert forall|k: int| 0 <= k < all.len() implies #[trigger] all[k] == order || exists|
            m: int,
        | 0 <= m < orders.len() && all[k] == #[trigger] orders[m] by {
            if k > 0 {
                assert(all[k] == orders[k - 1]);
            }
        }
        assert forall|k: int, l: int| 0 <= k < l < all.len() implies ahead_of(
            side,
            (#[trigger] all[k]).price,
            (#[trigger] all[l]).price,
        ) by {
            assert(all[l] == orders[l - 1]);
            if k == 0 {
                if l - 1 > 0 {
                    assert(ahead_of(side, orders[0].price, orders[l - 1].price));
                }
            } else {
                assert(all[k] == orders[k - 1]);
                assert(ahead_of(side, orders[k - 1].price, orders[l - 1].price));
            }
        }
    }
}

/// A cancel of an id that does not rest changes nothing.
pub proof fn lemma_removed_absent(orders: Seq<RestingOrder>, id: u64)
    requires
        !holds(orders, id),
    ensures
        removed(orders, id) == orders,
    decreases orders.len(),
{
    if orders.len() > 0 {
        let before = orders.drop_first();
        assert(orders[0].id != id);
        if holds(before, id) {
            let m = choose|m: int| 0 <= m < before.len() && #[trigger] before[m].id == id;
            assert(orders[m + 1].id == id);
        }
        lemma_removed_absent(before, id);
        assert(seq![orders[0]] + before =~= orders);
    }
}

/// An order that comes to rest is the one new id in its book.
pub proof fn lemma_inserted_holds(
    orders: Seq<RestingOrder>,
    side: Side,
    order: RestingOrder,
    id: u64,
)
    ensures
        holds(inserted(orders, side, order), id) <==> holds(orders, id) || id == order.id,
        inserted(orders, side, order).len() == orders.len() + 1,
    decreases orders.len(),
{
    let all = inserted(orders, side, order);
    if orders.len() > 0 && ahead_of(side, orders[0].price, order.price) {
        let before = orders.drop_first();
        lemma_inserted_holds(before, side, order, id);
        let tail = inserted(before, side, order);
        if holds(all, id) {
            let k = choose|k: int| 0 <= k < all.len() && #[trigger] all[k].id == id;
            if k == 0 {
                assert(orders[0].id == id);
            } else {
                assert(tail[k - 1].id == id);
                if id != order.id {
                    let m = choose|m: int| 0 <= m < before.len() && #[trigger] before[m].id == id;
                    assert(orders[m + 1].id == id);
                }
            }
        }
        if holds(orders, id) {
            let k = choose|k: int| 0 <= k < orders.len() && #[trigger] orders[k].id == id;
            if k == 0 {
                assert(all[0].id == id);
            } else {
                assert(before[k - 1].id == id);
                let m = choose|m: int| 0 <= m < tail.len() && #[trigger] tail[m].id == id;
                assert(all[m + 1].id == id);
            }
        }
        if id == order.id {
            let m = choose|m: int| 0 <= m < tail.len() && #[trigger] tail[m].id == id;
            assert(all[m + 1].id == id);
        }
    } else {
        if holds(all, id) {
            let k = choose|k: int| 0 <= k < all.len() && #[trigger] all[k].id == id;
            if k > 0 {
                assert(orders[k - 1].id == id);
            }
        }
        if holds(orders, id) {
            let k = choose|k: int| 0 <= k < orders.len() && #[trigger] orders[k].id == id;
            assert(all[k + 1].id == id);
        }
        if id == order.id {
            assert(all[0].id == id);
        }
    }
}

/// A positive order that comes to rest among positive orders leaves them positive.
pub proof fn lemma_inserted_positive(orders: Seq<RestingOrder>, side: Side, order: RestingOrder)
    requires
        positive(orders),
        order.quantity > 0,
        order.price >= 0,
    ensures
        positive(inserted(orders, side, order)),
    decreases orders.len(),
{
    let all = inserted(orders, side, order);
    if orders.len() > 0 && ahead_of(side, orders[0].price, order.price) {
        let before = orders.drop_first();
        assert forall|k: int| 0 <= k < before.len() implies (#[trigger] before[k]).quantity > 0
            && before[k].price >= 0 by {
            assert(before[k] == orders[k + 1]);
        }
        lemma_inserted_positive(before, side, order);
        let tail = inserted(before, side, order);
        assert forall|k: int| 0 <= k < all.len() implies (#[trigger] all[k]).quantity > 0
            && all[k].price >= 0 by {
            if k == 0 {
                assert(all[0] == orders[0]);
            } else {
                assert(all[k] == tail[k - 1]);
            }
        }
    } else {
        assert forall|k: int| 0 <= k < all.len() implies (#[trigger] all[k]).quantity > 0
            && all[k].price >= 0 by {
            if k > 0 {
                assert(all[k] == orders[k - 1]);
            }
        }
    }
}

/// An order with a price in range that comes to rest among such orders
/// leaves all prices in range.
pub proof fn lemma_inserted_priced(
    orders: Seq<RestingOrder>,
    side: Side,
    order: RestingOrder,
    contract_price: int,
)
    requires
        priced(orders, contract_price),
        0 < order.price < contract_price,
    ensures
        priced(inserted(orders, side, order), contract_price),
    decreases orders.len(),
{
    let all = inserted(orders, side, order);
    if orders.len() > 0 && ahead_of(side, orders[0].price, order.price) {
        let before = orders.drop_first();
        assert forall|k: int| 0 <= k < before.len() implies 0 < (#[trigger] before[k]).price
            < contract_price by {
            assert(before[k] == orders[k + 1]);
        }
        lemma_inserted_priced(before, side, order, contract_price);
        let tail = inserted(before, side, order);
        assert forall|k: int| 0 <= k < all.len() implies 0 < (#[trigger] all[k]).price
            < contract_price by {
            if k == 0 {
                assert(all[0] == orders[0]);
            } else {
                assert(all[k] == tail[k - 1]);
            }
        }
    } else {
        assert forall|k: int| 0 <= k < all.len() implies 0 < (#[trigger] all[k]).price
            < contract_price by {
            if k > 0 {
                assert(all[k] == orders[k - 1]);
            }
        }
    }
}

/// An order that comes to rest adds its quantity to the total.
pub proof fn lemma_inserted_quantity(orders: Seq<RestingOrder>, side: Side, order: RestingOrder)
    ensures
        resting_quantity(inserted(orders, side, order)) == resting_quantity(orders)
            + order.quantity,
    decreases orders.len(),
{
    let all = inserted(orders, side, order);
    if orders.len() > 0 && ahead_of(side, orders[0].price, order.price) {
        lemma_inserted_quantity(orders.drop_first(), side, order);
        assert(all.drop_first() =~= inserted(orders.drop_first(), side, order));
    } else {
        assert(all.drop_first() =~= orders);
    }
}

/// Every resting order's fill is the fill of an order that rested, for a
/// positive quantity.
pub proof fn lemma_maker_fills_rest(orders: Seq<RestingOrder>, quantity: int, taker: Side, k: int)
    requires
        positive(orders),
        0 <= k < maker_fills(orders, quantity, taker).len(),
    ensures
        holds(orders, maker_fills(orders, quantity, taker)[k].order),
        maker_fills(orders, quantity, taker)[k].quantity > 0,
    decreases orders.len(),
{
    let fills = maker_fills(orders, quantity, taker);
    if orders.len() == 0 || quantity <= 0 {
    } else {
        assert(orders[0].quantity > 0);
        if k == 0 {
            assert(orders[0].id == fills[0].order);
        } else {
            let before = orders.drop_first();
            let taken = if quantity > orders[0].quantity {
                orders[0].quantity
            } else {
                quantity
            };
            assert forall|j: int| 0 <= j < before.len() implies (#[trigger] before[j]).quantity
                > 0 && before[j].price >= 0 by {
                assert(before[j] == orders[j + 1]);
            }
            lemma_maker_fills_rest(before, quantity - taken, taker, k - 1);
            let id = fills[k].order;
            let m = choose|m: int| 0 <= m < before.len() && #[trigger] before[m].id == id;
            assert(orders[m + 1].id == id);
        }
    }
}

/// A market order that nothing can be matched against has no fills; one
/// that is matched ends with the fill of the order itself.
pub proof fn lemma_market_fills_shape(orders: Seq<RestingOrder>, id: u64, taker: Side, quantity: int)
    ensures
        matched_quantity(orders, quantity) != 0 ==> market_fills(orders, id, taker, quantity).len()
            == maker_fills(orders, quantity, taker).len() + 1 && market_fills(
            orders,
            id,
            taker,
            quantity,
        ).subrange(0, maker_fills(orders, quantity, taker).len() as int) == maker_fills(
            orders,
            quantity,
            taker,
        ),
{
    if matched_quantity(orders, quantity) != 0 {
        let makers = maker_fills(orders, quantity, taker);
        assert(market_fills(orders, id, taker, quantity).subrange(0, makers.len() as int)
            =~= makers);
    }
}

} // verus!
