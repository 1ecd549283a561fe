//! How small an order has to be for every sum on its way to fit.

use vstd::prelude::*;
use crate::amount::{in_range, MAX_UNITS};
use crate::book_lemmas::{lemma_level_within_total, lemma_matched_at_best};
use crate::matching_lemmas::{
    lemma_basket_quantity_bounds, lemma_legs_books, lemma_legs_no_more, lemma_legs_priced,
    lemma_own_step_books, lemma_own_step_no_more, lemma_own_step_priced, no_more,
};
use crate::book_model::{
    level_quantity, maker_fills, market_fills, matched_quantity, matched_value, positive,
    resting_quantity, taker_fill, BookView, FillView, RestingOrder,
};
use crate::matching::{
    at_rest, basket_fill, basket_price, basket_price_upto, basket_quantity, basket_step,
    basket_step_fits, books_priced, books_wf, fits, leg_quote, legs_fit_upto,
    legs_upto, merge_fits, merged, merged_all, merges_fit, next_path, next_progress,
    next_quantity, own_step, own_step_fits, quotes_fit, run_fits, start, valid_order,
    MarketView, Path, Progress, Taker,
};
use crate::side::Side;

verus! {

/// `x` without its sign.
pub open spec fn magnitude(x: int) -> int {
    if x < 0 {
        -x
    } else {
        x
    }
}

/// Whether every entry has a quantity from 0 to `quantity` and a cost of
/// a magnitude up to `cost`.
pub open spec fn bounded(totals: Map<u64, FillView>, quantity: int, cost: int) -> bool {
    forall|id: u64| #[trigger]
        totals.contains_key(id) ==> 0 <= totals[id].quantity <= quantity && magnitude(
            totals[id].cost,
        ) <= cost
}

/// The quantities of `fills`, added up.
pub open spec fn fills_quantity(fills: Seq<FillView>) -> int
    decreases fills.len(),
{
    if fills.len() == 0 {
        0
    } else {
        fills[0].quantity + fills_quantity(fills.drop_first())
    }
}

/// The costs of `fills` without their signs, added up.
pub open spec fn fills_value(fills: Seq<FillView>) -> int
    decreases fills.len(),
{
    if fills.len() == 0 {
        0
    } else {
        magnitude(fills[0].cost) + fills_value(fills.drop_first())
    }
}

/// Whether no fill has a negative quantity.
pub open spec fn fills_positive(fills: Seq<FillView>) -> bool {
    forall|k: int| 0 <= k < fills.len() ==> (#[trigger] fills[k]).quantity >= 0
}

/// Whether the total quantity on each side of each book fits.
pub open spec fn sides_fit(books: Seq<BookView>) -> bool {
    forall|i: int|
        0 <= i < books.len() ==> resting_quantity((#[trigger] books[i]).bids) <= MAX_UNITS
            && resting_quantity(books[i].asks) <= MAX_UNITS
}

/// The sums of fills that are not negative are not negative.
pub proof fn lemma_fills_sums_positive(fills: Seq<FillView>)
    requires
        fills_positive(fills),
    ensures
        fills_quantity(fills) >= 0,
        fills_value(fills) >= 0,
    decreases fills.len(),
{
    if fills.len() > 0 {
        let rest = fills.drop_first();
        assert(fills[0].quantity >= 0);
        assert forall|k: int| 0 <= k < rest.len() implies (#[trigger] rest[k]).quantity >= 0 by {
            assert(rest[k] == fills[k + 1]);
        }
        lemma_fills_sums_positive(rest);
    }
}

/// One more fill adds its quantity and the magnitude of its cost to the sums.
pub proof fn lemma_fills_sums_push(fills: Seq<FillView>, last: FillView)
    ensures
        fills_quantity(fills.push(last)) == fills_quantity(fills) + last.quantity,
        fills_value(fills.push(last)) == fills_value(fills) + magnitude(last.cost),
    decreases fills.len(),
{
    if fills.len() == 0 {
        assert(fills.push(last).drop_first() =~= fills);
    } else {
        assert(fills.push(last).drop_first() =~= fills.drop_first().push(last));
        lemma_fills_sums_push(fills.drop_first(), last);
    }
}

/// A fill within what is left of the range can be merged, and raises the
/// bounds by its quantity and by the magnitude of its cost.
pub proof fn lemma_merge_bounded(totals: Map<u64, FillView>, fill: FillView, quantity: int, cost: int)
    requires
        bounded(totals, quantity, cost),
        0 <= fill.quantity,
        quantity + fill.quantity <= MAX_UNITS,
        cost + magnitude(fill.cost) <= MAX_UNITS,
        0 <= quantity,
        0 <= cost,
    ensures
        merge_fits(totals, fill),
        bounded(merged(totals, fill), quantity + fill.quantity, cost + magnitude(fill.cost)),
{
    let after = merged(totals, fill);
    assert forall|id: u64| #[trigger] after.contains_key(id) implies 0 <= after[id].quantity
        <= quantity + fill.quantity && magnitude(after[id].cost) <= cost + magnitude(
        fill.cost,
    ) by {
        if id != fill.order {
            assert(totals.contains_key(id));
        }
    }
}

/// Fills whose sums stay within what is left of the range can be merged,
/// and raise the bounds by their sums.
pub proof fn lemma_merges_bounded(
    totals: Map<u64, FillView>,
    fills: Seq<FillView>,
    quantity: int,
    cost: int,
)
    requires
        bounded(totals, quantity, cost),
        fills_positive(fills),
        quantity + fills_quantity(fills) <= MAX_UNITS,
        cost + fills_value(fills) <= MAX_UNITS,
        0 <= quantity,
        0 <= cost,
    ensures
        merges_fit(totals, fills),
        bounded(
            merged_all(totals, fills),
            quantity + fills_quantity(fills),
            cost + fills_value(fills),
        ),
    decreases fills.len(),
{
    if fills.len() > 0 {
        let rest = fills.drop_first();
        assert(fills[0].quantity >= 0);
        assert forall|k: int| 0 <= k < rest.len() implies (#[trigger] rest[k]).quantity >= 0 by {
            assert(rest[k] == fills[k + 1]);
        }
        lemma_fills_sums_positive(rest);
        lemma_merge_bounded(totals, fills[0], quantity, cost);
        lemma_merges_bounded(
            merged(totals, fills[0]),
            rest,
            quantity + fills[0].quantity,
            cost + magnitude(fills[0].cost),
        );
    }
}

/// Bounds that hold keep holding when they are raised.
pub proof fn lemma_bounded_raised(
    totals: Map<u64, FillView>,
    quantity: int,
    cost: int,
    more_quantity: int,
    more_cost: int,
)
    requires
        bounded(totals, quantity, cost),
        quantity <= more_quantity,
        cost <= more_cost,
    ensures
        bounded(totals, more_quantity, more_cost),
{
    assert forall|id: u64| #[trigger] totals.contains_key(id) implies 0 <= totals[id].quantity
        <= more_quantity && magnitude(totals[id].cost) <= more_cost by {}
}

/// The fills of the resting orders add up to what was matched: in quantity,
/// and in value.
pub proof fn lemma_maker_fills_sums(orders: Seq<RestingOrder>, quantity: int, taker: Side)
    requires
        positive(orders),
    ensures
        fills_positive(maker_fills(orders, quantity, taker)),
        fills_quantity(maker_fills(orders, quantity, taker)) == matched_quantity(orders, quantity),
        fills_value(maker_fills(orders, quantity, taker)) == matched_value(orders, quantity),
    decreases orders.len(),
{
    let fills = maker_fills(orders, quantity, taker);
    if orders.len() == 0 || quantity <= 0 {
    } else {
        let before = orders.drop_first();
        assert(orders[0].quantity > 0 && orders[0].price >= 0);
        assert forall|k: int| 0 <= k < before.len() implies (#[trigger] before[k]).quantity > 0
            && before[k].price >= 0 by {
            assert(before[k] == orders[k + 1]);
        }
        let taken = if quantity > orders[0].quantity {
            orders[0].quantity
        } else {
            quantity
        };
        lemma_maker_fills_sums(before, quantity - taken, taker);
        let rest = maker_fills(before, quantity - taken, taker);
        assert(fills.drop_first() =~= rest);
        let price = orders[0].price;
        assert(price * taken >= 0) by (nonlinear_arith)
            requires
                price >= 0,
                taken > 0,
        ;
        assert forall|k: int| 0 <= k < fills.len() implies (#[trigger] fills[k]).quantity
            >= 0 by {
            if k > 0 {
                assert(fills[k] == rest[k - 1]);
            }
        }
    }
}

/// The price of the basket lies between the contract price and the contract
/// price less one contract price for each book it was read from.
pub proof fn lemma_basket_price_bounds(
    books: Seq<BookView>,
    contract_price: int,
    outcome: int,
    side: Side,
    n: int,
)
    requires
        books_priced(books, contract_price),
        0 < contract_price,
        0 <= n <= books.len(),
    ensures
        contract_price - n * contract_price <= basket_price_upto(
            books,
            contract_price,
            outcome,
            side,
            n,
        ) <= contract_price,
    decreases n,
{
    if n > 0 {
        lemma_basket_price_bounds(books, contract_price, outcome, side, n - 1);
        assert((n - 1) * contract_price + contract_price == n * contract_price)
            by (nonlinear_arith);
        if n - 1 != outcome {
            let book = books[n - 1];
            assert(book.priced(contract_price));
            if book.side(side).len() > 0 {
                assert(0 < book.side(side)[0].price < contract_price);
            }
            assert(0 <= leg_quote(books, n - 1, side).0 < contract_price);
        }
    } else {
        assert(0 * contract_price == 0) by (nonlinear_arith);
    }
}

/// A step in the order's own book fits where twice the quantity at the
/// contract price is left of the range, and raises the bounds by no more.
pub proof fn lemma_own_step_capacity(
    p: Progress,
    taker: Taker,
    taken: int,
    contract_price: int,
    bound: int,
)
    requires
        books_wf(p.books),
        books_priced(p.books, contract_price),
        0 <= taker.outcome < p.books.len(),
        0 < taken <= level_quantity(p.books[taker.outcome].side(taker.side.spec_opposite())),
        bounded(p.totals, bound, bound),
        0 <= bound,
        0 < contract_price,
        bound + 2 * (contract_price * taken) <= MAX_UNITS,
    ensures
        own_step_fits(p, taker, taken),
        bounded(
            own_step(p, taker, taken).totals,
            bound + 2 * (contract_price * taken),
            bound + 2 * (contract_price * taken),
        ),
{
    let book = p.books[taker.outcome];
    let resting = book.side(taker.side.spec_opposite());
    assert(book.wf());
    assert(book.priced(contract_price));
    lemma_matched_at_best(resting, taken);
    let price = resting[0].price;
    assert(0 < price < contract_price);
    assert(0 <= price * taken <= contract_price * taken && taken <= contract_price * taken)
        by (nonlinear_arith)
        requires
            0 < price < contract_price,
            0 < taken,
    ;
    let makers = maker_fills(resting, taken, taker.side);
    let own = taker_fill(resting, taker.id, taker.side, taken);
    let fills = market_fills(resting, taker.id, taker.side, taken);
    assert(fills == makers.push(own));
    lemma_maker_fills_sums(resting, taken, taker.side);
    lemma_fills_sums_push(makers, own);
    assert(magnitude(own.cost) == price * taken);
    assert forall|k: int| 0 <= k < fills.len() implies (#[trigger] fills[k]).quantity >= 0 by {
        if k < makers.len() {
            assert(fills[k] == makers[k]);
        }
    }
    lemma_merges_bounded(p.totals, fills, bound, bound);
    lemma_bounded_raised(
        merged_all(p.totals, fills),
        bound + fills_quantity(fills),
        bound + fills_value(fills),
        bound + 2 * (contract_price * taken),
        bound + 2 * (contract_price * taken),
    );
}

/// The legs in the first `n` books fit where `n` times the quantity at the
/// contract price is left of the range, and raise the bounds by no more.
pub proof fn lemma_legs_capacity(
    p: Progress,
    taker: Taker,
    taken: int,
    n: int,
    contract_price: int,
    bound: int,
)
    requires
        books_wf(p.books),
        books_priced(p.books, contract_price),
        0 <= n <= p.books.len(),
        0 < contract_price,
        0 < taken,
        forall|j: int|
            0 <= j < p.books.len() && j != taker.outcome ==> taken <= level_quantity(
                #[trigger] p.books[j].side(taker.side),
            ),
        bounded(p.totals, bound, bound),
        0 <= bound,
        bound + n * (contract_price * taken) <= MAX_UNITS,
    ensures
        legs_fit_upto(p, taker, taken, n),
        bounded(
            legs_upto(p, taker, taken, n).totals,
            bound + n * (contract_price * taken),
            bound + n * (contract_price * taken),
        ),
    decreases n,
{
    let unit = contract_price * taken;
    assert(0 < unit && taken <= unit) by (nonlinear_arith)
        requires
            unit == contract_price * taken,
            0 < contract_price,
            0 < taken,
    ;
    if n > 0 {
        assert((n - 1) * unit + unit == n * unit && 0 <= (n - 1) * unit) by (nonlinear_arith)
            requires
                n >= 1,
                unit > 0,
        ;
        lemma_legs_capacity(p, taker, taken, n - 1, contract_price, bound);
        let q = legs_upto(p, taker, taken, n - 1);
        let before = bound + (n - 1) * unit;
        if n - 1 != taker.outcome {
            lemma_legs_books(p, taker, taken, n - 1);
            let resting = q.books[n - 1].side(taker.side);
            assert(q.books[n - 1] == p.books[n - 1]);
            assert(p.books[n - 1].wf());
            assert(p.books[n - 1].priced(contract_price));
            assert(taken <= level_quantity(p.books[n - 1].side(taker.side)));
            lemma_matched_at_best(resting, taken);
            let price = resting[0].price;
            assert(0 < price < contract_price);
            assert(0 <= price * taken <= contract_price * taken) by (nonlinear_arith)
                requires
                    0 < price < contract_price,
                    0 < taken,
            ;
            let makers = maker_fills(resting, taken, taker.side.spec_opposite());
            lemma_maker_fills_sums(resting, taken, taker.side.spec_opposite());
            lemma_merges_bounded(q.totals, makers, before, before);
            lemma_bounded_raised(
                merged_all(q.totals, makers),
                before + fills_quantity(makers),
                before + fills_value(makers),
                bound + n * unit,
                bound + n * unit,
            );
        } else {
            lemma_bounded_raised(q.totals, before, before, bound + n * unit, bound + n * unit);
        }
    } else {
        assert(0 * unit == 0) by (nonlinear_arith);
    }
}

/// A basket fits where twice the quantity at the contract price, once for
/// each book, is left of the range, and raises the bounds by no more.
pub proof fn lemma_basket_step_capacity(
    p: Progress,
    taker: Taker,
    taken: int,
    contract_price: int,
    bound: int,
)
    requires
        books_wf(p.books),
        books_priced(p.books, contract_price),
        0 <= taker.outcome < p.books.len(),
        0 < contract_price,
        0 < taken <= basket_quantity(p.books, taker.outcome, taker.side),
        bounded(p.totals, bound, bound),
        0 <= bound,
        bound + 2 * (p.books.len() * (contract_price * taken)) <= MAX_UNITS,
    ensures
        basket_step_fits(
            p,
            taker,
            basket_price(p.books, contract_price, taker.outcome, taker.side),
            taken,
        ),
        bounded(
            basket_step(
                p,
                taker,
                basket_price(p.books, contract_price, taker.outcome, taker.side),
                taken,
            ).totals,
            bound + 2 * (p.books.len() * (contract_price * taken)),
            bound + 2 * (p.books.len() * (contract_price * taken)),
        ),
{
    let n = p.books.len() as int;
    let unit = contract_price * taken;
    let price = basket_price(p.books, contract_price, taker.outcome, taker.side);
    assert(0 < unit && taken <= unit) by (nonlinear_arith)
        requires
            unit == contract_price * taken,
            0 < contract_price,
            0 < taken,
    ;
    assert(unit <= n * unit) by (nonlinear_arith)
        requires
            n >= 1,
            unit > 0,
    ;
    lemma_basket_quantity_bounds(p.books, taker.outcome, taker.side, n);
    lemma_legs_capacity(p, taker, taken, n, contract_price, bound);
    lemma_basket_price_bounds(p.books, contract_price, taker.outcome, taker.side, n);
    assert(magnitude(price * taken) <= n * unit) by (nonlinear_arith)
        requires
            contract_price - n * contract_price <= price <= contract_price,
            unit == contract_price * taken,
            0 < taken,
            n >= 1,
            0 < contract_price,
    ;
    let legs = legs_upto(p, taker, taken, n);
    let own = basket_fill(taker, price, taken);
    assert(magnitude(own.cost) == magnitude(price * taken));
    lemma_merge_bounded(legs.totals, own, bound + n * unit, bound + n * unit);
    lemma_bounded_raised(
        merged(legs.totals, own),
        bound + n * unit + own.quantity,
        bound + n * unit + magnitude(own.cost),
        bound + 2 * (n * unit),
        bound + 2 * (n * unit),
    );
}

/// Sides that fit still fit where none of them holds more.
pub proof fn lemma_sides_still_fit(before: Seq<BookView>, after: Seq<BookView>)
    requires
        sides_fit(before),
        no_more(before, after),
    ensures
        sides_fit(after),
{
    assert forall|i: int| 0 <= i < after.len() implies resting_quantity(
        (#[trigger] after[i]).bids,
    ) <= MAX_UNITS && resting_quantity(after[i].asks) <= MAX_UNITS by {
        assert(resting_quantity(before[i].bids) <= MAX_UNITS);
    }
}

/// What an order of `quantity` may add to any entry, in quantity and in
/// cost: twice the quantity at the contract price, once for each book.
pub open spec fn allowance(books: int, contract_price: int, quantity: int) -> int {
    2 * (books * (contract_price * quantity))
}

/// Every sum fits on the way from `p` where the totals of all sides fit and
/// the allowance of the whole order does.
proof fn lemma_run_capacity(contract_price: int, taker: Taker, p: Progress, quantity: int)
    requires
        p.books.len() >= 2,
        books_wf(p.books),
        books_priced(p.books, contract_price),
        sides_fit(p.books),
        0 <= taker.outcome < p.books.len(),
        0 < taker.price < contract_price,
        0 <= p.remaining <= quantity,
        bounded(
            p.totals,
            allowance(p.books.len() as int, contract_price, quantity - p.remaining),
            allowance(p.books.len() as int, contract_price, quantity - p.remaining),
        ),
        allowance(p.books.len() as int, contract_price, quantity) <= MAX_UNITS,
    ensures
        run_fits(contract_price, taker, p),
    decreases p.remaining,
{
    let n = p.books.len() as int;
    let done = quantity - p.remaining;
    let bound = allowance(n, contract_price, done);
    if p.remaining > 0 {
        assert(quotes_fit(p.books, contract_price, taker.outcome, taker.side)) by {
            let own = p.books[taker.outcome];
            assert(own.wf());
            let resting = own.side(taker.side.spec_opposite());
            if resting.len() > 0 {
                lemma_level_within_total(resting, resting[0].price);
            }
            assert(resting_quantity(own.bids) <= MAX_UNITS);
            assert forall|j: int| 0 <= j < p.books.len() && j != taker.outcome implies
                level_quantity(#[trigger] p.books[j].side(taker.side)) <= MAX_UNITS by {
                let leg = p.books[j].side(taker.side);
                assert(p.books[j].wf());
                assert(resting_quantity(p.books[j].bids) <= MAX_UNITS);
                if leg.len() > 0 {
                    lemma_level_within_total(leg, leg[0].price);
                }
            }
            assert forall|m: int| 0 <= m <= p.books.len() implies in_range(
                #[trigger] basket_price_upto(p.books, contract_price, taker.outcome, taker.side, m),
            ) by {
                lemma_basket_price_bounds(p.books, contract_price, taker.outcome, taker.side, m);
                assert(m * contract_price <= 2 * (n * (contract_price * quantity))
                    && contract_price <= 2 * (n * (contract_price * quantity)))
                    by (nonlinear_arith)
                    requires
                        0 <= m <= n,
                        n >= 2,
                        0 < contract_price,
                        quantity >= 1,
                ;
            }
        }
        if !at_rest(contract_price, taker, p) {
            let taken = next_quantity(contract_price, taker, p);
            let q = next_progress(contract_price, taker, p);
            assert(0 < taken <= p.remaining);
            assert(bound + 2 * (n * (contract_price * taken)) == allowance(
                n,
                contract_price,
                done + taken,
            ) && allowance(n, contract_price, done + taken) <= allowance(
                n,
                contract_price,
                quantity,
            ) && 0 <= bound && 2 * (contract_price * taken) <= 2 * (n * (contract_price * taken)))
                by (nonlinear_arith)
                requires
                    bound == 2 * (n * (contract_price * done)),
                    0 <= done,
                    0 < taken,
                    done + taken <= quantity,
                    n >= 2,
                    0 < contract_price,
            ;
            match next_path(contract_price, taker, p) {
                Path::Own => {
                    lemma_own_step_capacity(p, taker, taken, contract_price, bound);
                    lemma_bounded_raised(
                        q.totals,
                        bound + 2 * (contract_price * taken),
                        bound + 2 * (contract_price * taken),
                        allowance(n, contract_price, done + taken),
                        allowance(n, contract_price, done + taken),
                    );
                    lemma_own_step_books(p, taker, taken);
                    lemma_own_step_priced(p, taker, taken, contract_price);
                    lemma_own_step_no_more(p, taker, taken);
                },
                Path::Basket => {
                    lemma_basket_step_capacity(p, taker, taken, contract_price, bound);
                    lemma_legs_books(p, taker, taken, n);
                    lemma_legs_priced(p, taker, taken, n, contract_price);
                    lemma_legs_no_more(p, taker, taken, n);
                },
                Path::Stop => {},
            }
            lemma_sides_still_fit(p.books, q.books);
            lemma_run_capacity(contract_price, taker, q, quantity);
        }
    }
}

/// A valid order fits where the total quantity on each side of each book
/// fits, and so does twice the order's quantity at the contract price, once
/// for each book.
pub proof fn law_small_orders_fit(market: MarketView, taker: Taker, quantity: int)
    requires
        market.wf(),
        valid_order(market, taker.outcome, taker.price, quantity),
        sides_fit(market.books),
        allowance(market.books.len() as int, market.contract_price, quantity) <= MAX_UNITS,
    ensures
        fits(market, taker, quantity),
{
    let p = start(market, quantity);
    assert(allowance(market.books.len() as int, market.contract_price, 0) == 0)
        by (nonlinear_arith);
    lemma_run_capacity(market.contract_price, taker, p, quantity);
}

} // verus!
