//! What holds of every limit order: the quantity it brings is conserved, a
//! basket costs its price, and only resting orders are filled.

use vstd::prelude::*;
use crate::book_lemmas::{
    lemma_inserted_holds, lemma_inserted_quantity, lemma_level_quantity_positive,
    lemma_maker_fills_rest, lemma_matched_at_best,
};
use crate::book_model::{
    holds, inserted, maker_fills, market_fills, resting_quantity, signed_cost, taker_fill,
    FillView, RestingOrder,
};
use crate::book_model::BookView;
use crate::matching::{
    at_rest, basket_price, basket_price_upto, basket_quantity, basket_quantity_upto, books_wf,
    filled_cost, legs_open, legs_price, legs_price_upto,
    filled_quantity, legs_upto, matched, merged, merged_all, next_path,
    next_progress, next_quantity, own_quote, rests_in, run, settled, start,
    valid_order, MarketView, Path, Progress, Taker,
};
use crate::matching_lemmas::{
    lemma_legs_books, lemma_own_step_books, lemma_run_books, no_new_ids,
};
use crate::side::Side;

verus! {

/// Merging a list and then one more fill is merging the longer list.
pub proof fn lemma_merged_all_push(totals: Map<u64, FillView>, fills: Seq<FillView>, last: FillView)
    ensures
        merged_all(totals, fills.push(last)) == merged(merged_all(totals, fills), last),
    decreases fills.len(),
{
    if fills.len() == 0 {
        assert(fills.push(last).drop_first() =~= fills);
        assert(merged_all(merged(totals, last), fills) == merged(totals, last));
    } else {
        assert(fills.push(last).drop_first() =~= fills.drop_first().push(last));
        lemma_merged_all_push(merged(totals, fills[0]), fills.drop_first(), last);
    }
}

/// Fills of other orders leave the entry of `id` as it is.
pub proof fn lemma_merged_all_others(totals: Map<u64, FillView>, fills: Seq<FillView>, id: u64)
    requires
        forall|k: int| 0 <= k < fills.len() ==> (#[trigger] fills[k]).order != id,
    ensures
        merged_all(totals, fills).contains_key(id) == totals.contains_key(id),
        totals.contains_key(id) ==> merged_all(totals, fills)[id] == totals[id],
    decreases fills.len(),
{
    if fills.len() > 0 {
        assert(fills[0].order != id);
        let rest = fills.drop_first();
        assert forall|k: int| 0 <= k < rest.len() implies (#[trigger] rest[k]).order != id by {
            assert(rest[k] == fills[k + 1]);
        }
        lemma_merged_all_others(merged(totals, fills[0]), rest, id);
    }
}

/// An id has an entry after a merge only where it had one before or one
/// of the fills is its own.
pub proof fn lemma_merged_all_keys(totals: Map<u64, FillView>, fills: Seq<FillView>, id: u64)
    requires
        merged_all(totals, fills).contains_key(id),
    ensures
        totals.contains_key(id) || exists|k: int|
            0 <= k < fills.len() && (#[trigger] fills[k]).order == id,
    decreases fills.len(),
{
    if fills.len() > 0 {
        let rest = fills.drop_first();
        lemma_merged_all_keys(merged(totals, fills[0]), rest, id);
        if !totals.contains_key(id) && fills[0].order != id {
            let k = choose|k: int| 0 <= k < rest.len() && (#[trigger] rest[k]).order == id;
            assert(fills[k + 1].order == id);
        }
    }
}

/// The fills of the resting orders never touch the entry of an id that does not rest.
pub proof fn lemma_makers_leave(
    totals: Map<u64, FillView>,
    orders: Seq<RestingOrder>,
    quantity: int,
    taker: Side,
    id: u64,
)
    requires
        crate::book_model::positive(orders),
        !holds(orders, id),
    ensures
        merged_all(totals, maker_fills(orders, quantity, taker)).contains_key(id)
            == totals.contains_key(id),
        totals.contains_key(id) ==> merged_all(totals, maker_fills(orders, quantity, taker))[id]
            == totals[id],
{
    let fills = maker_fills(orders, quantity, taker);
    assert forall|k: int| 0 <= k < fills.len() implies (#[trigger] fills[k]).order != id by {
        lemma_maker_fills_rest(orders, quantity, taker, k);
    }
    lemma_merged_all_others(totals, fills, id);
}

/// The legs of a basket leave the entry of an id that rests nowhere as it is.
pub proof fn lemma_legs_leave(p: Progress, taker: Taker, taken: int, n: int, id: u64)
    requires
        books_wf(p.books),
        0 <= n <= p.books.len(),
        !rests_in(p.books, id),
    ensures
        legs_upto(p, taker, taken, n).totals.contains_key(id) == p.totals.contains_key(id),
        p.totals.contains_key(id) ==> legs_upto(p, taker, taken, n).totals[id] == p.totals[id],
    decreases n,
{
    if n > 0 {
        lemma_legs_leave(p, taker, taken, n - 1, id);
        if n - 1 != taker.outcome {
            let q = legs_upto(p, taker, taken, n - 1);
            lemma_legs_books(p, taker, taken, n - 1);
            assert(q.books[n - 1] == p.books[n - 1]);
            assert(p.books[n - 1].wf());
            assert(!p.books[n - 1].rests(id));
            lemma_makers_leave(
                q.totals,
                q.books[n - 1].side(taker.side),
                taken,
                taker.side.spec_opposite(),
                id,
            );
        }
    }
}

/// What one step adds to the order's own entry: the quantity it took, and
/// its cost. Every other step of the proof of the laws rests on this.
pub proof fn lemma_step_fills_taker(contract_price: int, taker: Taker, p: Progress)
    requires
        books_wf(p.books),
        0 <= taker.outcome < p.books.len(),
        !rests_in(p.books, taker.id),
        !at_rest(contract_price, taker, p),
    ensures
        0 < next_quantity(contract_price, taker, p) <= p.remaining,
        next_progress(contract_price, taker, p).remaining == p.remaining - next_quantity(
            contract_price,
            taker,
            p,
        ),
        filled_quantity(next_progress(contract_price, taker, p).totals, taker.id)
            == filled_quantity(p.totals, taker.id) + next_quantity(contract_price, taker, p),
        next_path(contract_price, taker, p) == Path::Basket ==> filled_cost(
            next_progress(contract_price, taker, p).totals,
            taker.id,
        ) == filled_cost(p.totals, taker.id) + signed_cost(
            taker.side,
            basket_price(p.books, contract_price, taker.outcome, taker.side) * next_quantity(
                contract_price,
                taker,
                p,
            ),
        ),
        next_path(contract_price, taker, p) == Path::Own ==> filled_cost(
            next_progress(contract_price, taker, p).totals,
            taker.id,
        ) == filled_cost(p.totals, taker.id) + signed_cost(
            taker.side,
            own_quote(p.books, contract_price, taker.outcome, taker.side).0 * next_quantity(
                contract_price,
                taker,
                p,
            ),
        ),
        books_wf(next_progress(contract_price, taker, p).books),
        no_new_ids(p.books, next_progress(contract_price, taker, p).books),
{
    let taken = next_quantity(contract_price, taker, p);
    let id = taker.id;
    match next_path(contract_price, taker, p) {
        Path::Own => {
            let resting = p.books[taker.outcome].side(taker.side.spec_opposite());
            assert(p.books[taker.outcome].wf());
            assert(!p.books[taker.outcome].rests(id));
            lemma_level_quantity_positive(resting);
            lemma_matched_at_best(resting, taken);
            let makers = maker_fills(resting, taken, taker.side);
            let own = taker_fill(resting, id, taker.side, taken);
            assert(market_fills(resting, id, taker.side, taken) == makers.push(own));
            lemma_merged_all_push(p.totals, makers, own);
            lemma_makers_leave(p.totals, resting, taken, taker.side, id);
            lemma_own_step_books(p, taker, taken);
        },
        Path::Basket => {
            let n = p.books.len() as int;
            lemma_legs_leave(p, taker, taken, n, id);
            lemma_legs_books(p, taker, taken, n);
        },
        Path::Stop => {},
    }
}

/// Whether `orders` holds `order` as it is.
pub open spec fn holds_order(orders: Seq<RestingOrder>, order: RestingOrder) -> bool {
    exists|k: int| 0 <= k < orders.len() && #[trigger] orders[k] == order
}

/// An order that comes to rest is held as it came.
pub proof fn lemma_inserted_holds_order(orders: Seq<RestingOrder>, side: Side, order: RestingOrder)
    ensures
        holds_order(inserted(orders, side, order), order),
    decreases orders.len(),
{
    let all = inserted(orders, side, order);
    if orders.len() > 0 && crate::book_model::ahead_of(side, orders[0].price, order.price) {
        let tail = inserted(orders.drop_first(), side, order);
        lemma_inserted_holds_order(orders.drop_first(), side, order);
        let k = choose|k: int| 0 <= k < tail.len() && #[trigger] tail[k] == order;
        assert(all[k + 1] == order);
    } else {
        assert(all[0] == order);
    }
}

/// Matching keeps the sum of what the order traded and what remains of it.
proof fn lemma_run_keeps_quantity(contract_price: int, taker: Taker, p: Progress)
    requires
        books_wf(p.books),
        0 <= taker.outcome < p.books.len(),
        !rests_in(p.books, taker.id),
        0 <= p.remaining,
    ensures
        filled_quantity(run(contract_price, taker, p).totals, taker.id) + run(
            contract_price,
            taker,
            p,
        ).remaining == filled_quantity(p.totals, taker.id) + p.remaining,
        0 <= run(contract_price, taker, p).remaining,
        books_wf(run(contract_price, taker, p).books),
        no_new_ids(p.books, run(contract_price, taker, p).books),
    decreases p.remaining,
{
    if !at_rest(contract_price, taker, p) {
        let q = next_progress(contract_price, taker, p);
        lemma_step_fills_taker(contract_price, taker, p);
        assert(!rests_in(q.books, taker.id)) by {
            if rests_in(q.books, taker.id) {
                let i = choose|i: int| 0 <= i < q.books.len() && (#[trigger] q.books[i]).rests(taker.id);
                assert(p.books[i].rests(taker.id));
            }
        }
        lemma_run_keeps_quantity(contract_price, taker, q);
        let e = run(contract_price, taker, q);
        assert forall|j: int, id: u64|
            0 <= j < e.books.len() && (#[trigger] e.books[j].rests(id)) implies p.books[j].rests(
            id,
        ) by {
            assert(q.books[j].rests(id));
        }
    }
}

/// The quantity that a valid order traded and the quantity that is left
/// of it add up to the quantity it came with. What is left and positive
/// rests in the order's own book, on its side, at its price.
pub proof fn law_quantity_is_conserved(market: MarketView, taker: Taker, quantity: int)
    requires
        market.wf(),
        valid_order(market, taker.outcome, taker.price, quantity),
        !market.rests(taker.id),
    ensures
        filled_quantity(matched(market, taker, quantity).totals, taker.id) + matched(
            market,
            taker,
            quantity,
        ).remaining == quantity,
        0 <= matched(market, taker, quantity).remaining,
        matched(market, taker, quantity).remaining > 0 ==> holds_order(
            settled(taker, matched(market, taker, quantity))[taker.outcome].side(taker.side),
            (RestingOrder {
                id: taker.id,
                price: taker.price,
                quantity: matched(market, taker, quantity).remaining,
            }),
        ),
        matched(market, taker, quantity).remaining == 0 ==> !rests_in(
            settled(taker, matched(market, taker, quantity)),
            taker.id,
        ),
{
    let p = start(market, quantity);
    let e = matched(market, taker, quantity);
    lemma_run_keeps_quantity(market.contract_price, taker, p);
    if e.remaining > 0 {
        lemma_inserted_holds_order(
            e.books[taker.outcome].side(taker.side),
            taker.side,
            RestingOrder { id: taker.id, price: taker.price, quantity: e.remaining },
        );
    } else {
        if rests_in(e.books, taker.id) {
            let i = choose|i: int| 0 <= i < e.books.len() && (#[trigger] e.books[i]).rests(taker.id);
            assert(p.books[i].rests(taker.id));
        }
    }
}

/// Whenever a valid order takes a basket, its own fill grows by the quantity
/// taken, and its cost by that quantity at the basket price of that moment:
/// the contract price less the best price on its side in every other book.
/// A buy pays that cost; a sell receives it.
pub proof fn law_basket_costs_its_price(contract_price: int, taker: Taker, p: Progress)
    requires
        books_wf(p.books),
        0 <= taker.outcome < p.books.len(),
        !rests_in(p.books, taker.id),
        !at_rest(contract_price, taker, p),
        next_path(contract_price, taker, p) == Path::Basket,
    ensures
        filled_quantity(next_progress(contract_price, taker, p).totals, taker.id)
            == filled_quantity(p.totals, taker.id) + next_quantity(contract_price, taker, p),
        filled_cost(next_progress(contract_price, taker, p).totals, taker.id) == filled_cost(
            p.totals,
            taker.id,
        ) + signed_cost(
            taker.side,
            basket_price(p.books, contract_price, taker.outcome, taker.side) * next_quantity(
                contract_price,
                taker,
                p,
            ),
        ),
{
    lemma_step_fills_taker(contract_price, taker, p);
}

/// An id with an entry after the legs of a basket had one before or rests
/// in one of the books.
proof fn lemma_legs_keys(p: Progress, taker: Taker, taken: int, n: int, id: u64)
    requires
        books_wf(p.books),
        0 <= n <= p.books.len(),
        legs_upto(p, taker, taken, n).totals.contains_key(id),
    ensures
        p.totals.contains_key(id) || rests_in(p.books, id),
    decreases n,
{
    if n > 0 && n - 1 != taker.outcome {
        let q = legs_upto(p, taker, taken, n - 1);
        lemma_legs_books(p, taker, taken, n - 1);
        let resting = q.books[n - 1].side(taker.side);
        let fills = maker_fills(resting, taken, taker.side.spec_opposite());
        lemma_merged_all_keys(q.totals, fills, id);
        if q.totals.contains_key(id) {
            lemma_legs_keys(p, taker, taken, n - 1, id);
        } else {
            let k = choose|k: int| 0 <= k < fills.len() && (#[trigger] fills[k]).order == id;
            assert(q.books[n - 1].wf());
            lemma_maker_fills_rest(resting, taken, taker.side.spec_opposite(), k);
            assert(p.books[n - 1].rests(id));
        }
    } else if n > 0 {
        lemma_legs_keys(p, taker, taken, n - 1, id);
    }
}

/// An id with an entry after one step had one before, is the order's own,
/// or rests in one of the books.
proof fn lemma_step_keys(contract_price: int, taker: Taker, p: Progress, id: u64)
    requires
        books_wf(p.books),
        0 <= taker.outcome < p.books.len(),
        next_progress(contract_price, taker, p).totals.contains_key(id),
    ensures
        p.totals.contains_key(id) || id == taker.id || rests_in(p.books, id),
{
    let taken = next_quantity(contract_price, taker, p);
    match next_path(contract_price, taker, p) {
        Path::Own => {
            let resting = p.books[taker.outcome].side(taker.side.spec_opposite());
            let makers = maker_fills(resting, taken, taker.side);
            let fills = market_fills(resting, taker.id, taker.side, taken);
            lemma_merged_all_keys(p.totals, fills, id);
            if !p.totals.contains_key(id) && id != taker.id {
                let k = choose|k: int| 0 <= k < fills.len() && (#[trigger] fills[k]).order == id;
                assert(k < makers.len());
                assert(fills[k] == makers[k]);
                assert(p.books[taker.outcome].wf());
                lemma_maker_fills_rest(resting, taken, taker.side, k);
                assert(p.books[taker.outcome].rests(id));
            }
        },
        Path::Basket => {
            if id != taker.id {
                lemma_legs_keys(p, taker, taken, p.books.len() as int, id);
            }
        },
        Path::Stop => {},
    }
}

/// An id with an entry where the order comes to rest had one before, is the
/// order's own, or rests in one of the books.
proof fn lemma_run_keys(contract_price: int, taker: Taker, p: Progress, id: u64)
    requires
        books_wf(p.books),
        0 <= taker.outcome < p.books.len(),
        run(contract_price, taker, p).totals.contains_key(id),
    ensures
        p.totals.contains_key(id) || id == taker.id || rests_in(p.books, id),
    decreases p.remaining,
{
    if !at_rest(contract_price, taker, p) {
        let q = next_progress(contract_price, taker, p);
        let taken = next_quantity(contract_price, taker, p);
        match next_path(contract_price, taker, p) {
            Path::Own => {
                lemma_own_step_books(p, taker, taken);
            },
            Path::Basket => {
                lemma_legs_books(p, taker, taken, p.books.len() as int);
            },
            Path::Stop => {},
        }
        lemma_run_keys(contract_price, taker, q, id);
        if q.totals.contains_key(id) {
            lemma_step_keys(contract_price, taker, p, id);
        } else if rests_in(q.books, id) {
            let i = choose|i: int| 0 <= i < q.books.len() && (#[trigger] q.books[i]).rests(id);
            assert(p.books[i].rests(id));
        }
    }
}

/// Only the order itself and orders that rest in the market when it comes
/// are filled. An order that was cancelled, and so rests no more, is never
/// matched again.
pub proof fn law_only_resting_orders_trade(
    market: MarketView,
    taker: Taker,
    quantity: int,
    id: u64,
)
    requires
        market.wf(),
        0 <= taker.outcome < market.books.len(),
        matched(market, taker, quantity).totals.contains_key(id),
    ensures
        id == taker.id || market.rests(id),
{
    lemma_run_keys(market.contract_price, taker, start(market, quantity), id);
}

/// After a valid order, an id rests in a book only where it rested there
/// before, or is the order's own and the book its own.
pub proof fn law_only_the_order_comes_to_rest(
    market: MarketView,
    taker: Taker,
    quantity: int,
    j: int,
    id: u64,
)
    requires
        market.wf(),
        valid_order(market, taker.outcome, taker.price, quantity),
        0 <= j < market.books.len(),
        settled(taker, matched(market, taker, quantity))[j].rests(id),
    ensures
        market.books[j].rests(id) || (id == taker.id && j == taker.outcome),
{
    let e = matched(market, taker, quantity);
    lemma_run_books(market.contract_price, taker, start(market, quantity));
    if e.remaining > 0 && j == taker.outcome {
        lemma_inserted_holds(
            e.books[j].side(taker.side),
            taker.side,
            RestingOrder { id: taker.id, price: taker.price, quantity: e.remaining },
            id,
        );
        if id != taker.id {
            assert(e.books[j].rests(id));
        }
    } else {
        assert(e.books[j].rests(id));
    }
}

/// After a valid order, no side of any book holds more quantity than
/// before, but for the order's own side of its own book, which holds at
/// most the order's quantity more.
pub proof fn law_sides_grow_by_the_remainder(
    market: MarketView,
    taker: Taker,
    quantity: int,
    j: int,
    side: Side,
)
    requires
        market.wf(),
        valid_order(market, taker.outcome, taker.price, quantity),
        0 <= j < market.books.len(),
    ensures
        j != taker.outcome || side != taker.side ==> resting_quantity(
            settled(taker, matched(market, taker, quantity))[j].side(side),
        ) <= resting_quantity(market.books[j].side(side)),
        resting_quantity(settled(taker, matched(market, taker, quantity))[j].side(side))
            <= resting_quantity(market.books[j].side(side)) + quantity,
{
    let e = matched(market, taker, quantity);
    lemma_run_books(market.contract_price, taker, start(market, quantity));
    assert(resting_quantity(e.books[j].bids) <= resting_quantity(market.books[j].bids));
    if e.remaining > 0 && j == taker.outcome {
        lemma_inserted_quantity(
            e.books[j].side(taker.side),
            taker.side,
            RestingOrder { id: taker.id, price: taker.price, quantity: e.remaining },
        );
    }
}

/// The quote of the basket as far as the first `n` books.
proof fn lemma_basket_quote_upto(
    books: Seq<BookView>,
    contract_price: int,
    outcome: int,
    side: Side,
    n: int,
)
    requires
        books_wf(books),
        0 <= n <= books.len(),
    ensures
        basket_price_upto(books, contract_price, outcome, side, n) == contract_price
            - legs_price_upto(books, outcome, side, n),
        0 <= basket_quantity_upto(books, outcome, side, n),
        basket_quantity_upto(books, outcome, side, n) > 0 <==> forall|j: int|
            0 <= j < n && j != outcome ==> (#[trigger] books[j].side(side)).len() > 0,
    decreases n,
{
    if n > 0 {
        lemma_basket_quote_upto(books, contract_price, outcome, side, n - 1);
        if n - 1 != outcome {
            assert(books[n - 1].wf());
            lemma_level_quantity_positive(books[n - 1].side(side));
        }
        if basket_quantity_upto(books, outcome, side, n) > 0 {
            assert forall|j: int| 0 <= j < n && j != outcome implies (#[trigger] books[j].side(
                side,
            )).len() > 0 by {
                if j == n - 1 {
                } else {
                    assert(basket_quantity_upto(books, outcome, side, n - 1) > 0);
                }
            }
        }
    }
}

/// The price of the basket is the contract price less the best price on
/// the order's side in every other book; it may be negative. Its quantity is
/// never negative, and positive exactly where every other book has an order
/// resting on that side.
pub proof fn law_basket_quote(books: Seq<BookView>, contract_price: int, outcome: int, side: Side)
    requires
        books_wf(books),
    ensures
        basket_price(books, contract_price, outcome, side) == contract_price - legs_price(
            books,
            outcome,
            side,
        ),
        0 <= basket_quantity(books, outcome, side),
        basket_quantity(books, outcome, side) > 0 <==> legs_open(books, outcome, side),
{
    lemma_basket_quote_upto(books, contract_price, outcome, side, books.len() as int);
}

} // verus!
