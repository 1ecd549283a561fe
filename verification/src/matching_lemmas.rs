//! Facts about the steps of matching across the books of a market.

use vstd::prelude::*;
use crate::amount::MAX_UNITS;
use crate::book_lemmas::{
    lemma_consumed_distinct, lemma_consumed_holds, lemma_consumed_positive,
    lemma_consumed_priced, lemma_consumed_quantity, lemma_consumed_sorted,
    lemma_inserted_distinct, lemma_inserted_holds, lemma_level_quantity_positive,
    lemma_removed_distinct, lemma_removed_gone, lemma_removed_keeps,
};
use crate::book_model::{
    consumed, holds, inserted, level_quantity, resting_quantity, BookView, RestingOrder,
};
use crate::matching::{
    at_rest, basket_quantity_upto, books_distinct, books_priced, books_sorted, books_wf,
    leg_step, legs_fit_upto, legs_upto, next_path, next_progress, next_quantity, own_step,
    rests_in, run, Path, Progress, Taker,
};
use crate::side::Side;

verus! {

/// Whether no order of `after` has an id that `before` lacks in the same book.
pub open spec fn no_new_ids(before: Seq<BookView>, after: Seq<BookView>) -> bool {
    &&& after.len() == before.len()
    &&& forall|j: int, id: u64|
        0 <= j < after.len() && (#[trigger] after[j].rests(id)) ==> before[j].rests(id)
}

/// Whether no side of `after` holds more quantity than the same side of `before`.
pub open spec fn no_more(before: Seq<BookView>, after: Seq<BookView>) -> bool {
    &&& after.len() == before.len()
    &&& forall|j: int|
        0 <= j < after.len() ==> resting_quantity((#[trigger] after[j]).bids) <= resting_quantity(
            before[j].bids,
        ) && resting_quantity(after[j].asks) <= resting_quantity(before[j].asks)
}

/// The quantity of a basket is an amount, never negative, and no leg among
/// the books it was read from has less at its best price.
pub proof fn lemma_basket_quantity_bounds(books: Seq<BookView>, outcome: int, side: Side, n: int)
    requires
        books_wf(books),
        0 <= n <= books.len(),
    ensures
        0 <= basket_quantity_upto(books, outcome, side, n) <= MAX_UNITS,
        forall|j: int|
            0 <= j < n && j != outcome ==> basket_quantity_upto(books, outcome, side, n)
                <= level_quantity(#[trigger] books[j].side(side)),
        forall|j: int|
            0 <= j < n && j != outcome && basket_quantity_upto(books, outcome, side, n) > 0 ==> (
            #[trigger] books[j].side(side)).len() > 0,
    decreases n,
{
    if n > 0 {
        lemma_basket_quantity_bounds(books, outcome, side, n - 1);
        if n - 1 != outcome {
            assert(books[n - 1].wf());
            lemma_level_quantity_positive(books[n - 1].side(side));
        }
    }
}

/// Taking from one side of a book leaves a book of positive orders, with no new id.
pub proof fn lemma_taken_book(book: BookView, side: Side, taken: int)
    requires
        book.wf(),
    ensures
        book.with_side(side, consumed(book.side(side), taken)).wf(),
        forall|id: u64| #[trigger]
            book.with_side(side, consumed(book.side(side), taken)).rests(id) ==> book.rests(id),
{
    lemma_consumed_positive(book.side(side), taken);
    assert forall|id: u64| #[trigger]
        book.with_side(side, consumed(book.side(side), taken)).rests(id) implies book.rests(
        id,
    ) by {
        lemma_consumed_holds(book.side(side), taken, id);
    }
}

/// A step in the order's own book touches that book alone, leaves positive
/// orders, and brings no new id.
pub proof fn lemma_own_step_books(p: Progress, taker: Taker, taken: int)
    requires
        books_wf(p.books),
        0 <= taker.outcome < p.books.len(),
    ensures
        books_wf(own_step(p, taker, taken).books),
        no_new_ids(p.books, own_step(p, taker, taken).books),
{
    let after = own_step(p, taker, taken).books;
    let book = p.books[taker.outcome];
    assert(book.wf());
    lemma_taken_book(book, taker.side.spec_opposite(), taken);
    assert forall|i: int| 0 <= i < after.len() implies (#[trigger] after[i]).wf() by {
        if i != taker.outcome {
            assert(p.books[i].wf());
        }
    }
}

/// One leg touches book `j` alone, leaves positive orders, and brings no new id.
pub proof fn lemma_leg_step_books(p: Progress, taker: Taker, j: int, taken: int)
    requires
        books_wf(p.books),
        0 <= j < p.books.len(),
    ensures
        books_wf(leg_step(p, taker, j, taken).books),
        no_new_ids(p.books, leg_step(p, taker, j, taken).books),
        leg_step(p, taker, j, taken).remaining == p.remaining,
        forall|i: int|
            0 <= i < p.books.len() && i != j ==> #[trigger] leg_step(p, taker, j, taken).books[i]
                == p.books[i],
{
    let after = leg_step(p, taker, j, taken).books;
    let book = p.books[j];
    assert(book.wf());
    lemma_taken_book(book, taker.side, taken);
    assert forall|i: int| 0 <= i < after.len() implies (#[trigger] after[i]).wf() by {
        if i != j {
            assert(p.books[i].wf());
        }
    }
}

/// The legs in the first `n` books leave the order's own book and the books
/// from `n` on as they were, leave positive orders, and bring no new id.
pub proof fn lemma_legs_books(p: Progress, taker: Taker, taken: int, n: int)
    requires
        books_wf(p.books),
        0 <= n <= p.books.len(),
    ensures
        books_wf(legs_upto(p, taker, taken, n).books),
        no_new_ids(p.books, legs_upto(p, taker, taken, n).books),
        legs_upto(p, taker, taken, n).remaining == p.remaining,
        forall|i: int|
            0 <= i < p.books.len() && (i >= n || i == taker.outcome) ==> #[trigger] legs_upto(
                p,
                taker,
                taken,
                n,
            ).books[i] == p.books[i],
    decreases n,
{
    if n > 0 {
        lemma_legs_books(p, taker, taken, n - 1);
        if n - 1 != taker.outcome {
            let q = legs_upto(p, taker, taken, n - 1);
            lemma_leg_step_books(q, taker, n - 1, taken);
            let after = leg_step(q, taker, n - 1, taken).books;
            assert forall|j: int, id: u64|
                0 <= j < after.len() && (#[trigger] after[j].rests(id)) implies p.books[j].rests(
                id,
            ) by {
                assert(q.books[j].rests(id));
            }
        }
    }
}

/// A step in the order's own book adds quantity to no side.
pub proof fn lemma_own_step_no_more(p: Progress, taker: Taker, taken: int)
    requires
        books_wf(p.books),
        0 <= taker.outcome < p.books.len(),
    ensures
        no_more(p.books, own_step(p, taker, taken).books),
{
    let book = p.books[taker.outcome];
    assert(book.wf());
    lemma_consumed_quantity(book.side(taker.side.spec_opposite()), taken);
}

/// The legs in the first `n` books add quantity to no side.
pub proof fn lemma_legs_no_more(p: Progress, taker: Taker, taken: int, n: int)
    requires
        books_wf(p.books),
        0 <= n <= p.books.len(),
    ensures
        no_more(p.books, legs_upto(p, taker, taken, n).books),
    decreases n,
{
    if n > 0 {
        lemma_legs_no_more(p, taker, taken, n - 1);
        if n - 1 != taker.outcome {
            let q = legs_upto(p, taker, taken, n - 1);
            lemma_legs_books(p, taker, taken, n - 1);
            let after = leg_step(q, taker, n - 1, taken).books;
            let book = q.books[n - 1];
            assert(book.wf());
            lemma_consumed_quantity(book.side(taker.side), taken);
            assert forall|j: int| 0 <= j < after.len() implies resting_quantity(
                (#[trigger] after[j]).bids,
            ) <= resting_quantity(p.books[j].bids) && resting_quantity(after[j].asks)
                <= resting_quantity(p.books[j].asks) by {
                assert(resting_quantity(q.books[j].bids) <= resting_quantity(p.books[j].bids));
            }
        }
    }
}

/// Matching leaves positive orders, brings no new id into any book, adds
/// quantity to no side, and leaves no more of the order than there was.
pub proof fn lemma_run_books(contract_price: int, taker: Taker, p: Progress)
    requires
        books_wf(p.books),
        0 <= taker.outcome < p.books.len(),
        0 <= p.remaining,
    ensures
        books_wf(run(contract_price, taker, p).books),
        no_new_ids(p.books, run(contract_price, taker, p).books),
        no_more(p.books, run(contract_price, taker, p).books),
        0 <= run(contract_price, taker, p).remaining <= p.remaining,
    decreases p.remaining,
{
    if !at_rest(contract_price, taker, p) {
        let q = next_progress(contract_price, taker, p);
        let taken = next_quantity(contract_price, taker, p);
        match next_path(contract_price, taker, p) {
            Path::Own => {
                lemma_own_step_books(p, taker, taken);
                lemma_own_step_no_more(p, taker, taken);
            },
            Path::Basket => {
                lemma_legs_books(p, taker, taken, p.books.len() as int);
                lemma_legs_no_more(p, taker, taken, p.books.len() as int);
            },
            Path::Stop => {},
        }
        lemma_run_books(contract_price, taker, q);
        let e = run(contract_price, taker, q);
        assert forall|j: int, id: u64|
            0 <= j < e.books.len() && (#[trigger] e.books[j].rests(id)) implies p.books[j].rests(
            id,
        ) by {
            assert(q.books[j].rests(id));
        }
        assert forall|j: int| 0 <= j < e.books.len() implies resting_quantity(
            (#[trigger] e.books[j]).bids,
        ) <= resting_quantity(p.books[j].bids) && resting_quantity(e.books[j].asks)
            <= resting_quantity(p.books[j].asks) by {
            assert(resting_quantity(q.books[j].bids) <= resting_quantity(p.books[j].bids));
        }
    }
}

/// A step in the order's own book leaves every price in range.
pub proof fn lemma_own_step_priced(p: Progress, taker: Taker, taken: int, contract_price: int)
    requires
        books_priced(p.books, contract_price),
        0 <= taker.outcome < p.books.len(),
    ensures
        books_priced(own_step(p, taker, taken).books, contract_price),
{
    let after = own_step(p, taker, taken).books;
    let book = p.books[taker.outcome];
    assert(book.priced(contract_price));
    lemma_consumed_priced(book.side(taker.side.spec_opposite()), taken, contract_price);
    assert forall|i: int| 0 <= i < after.len() implies (#[trigger] after[i]).priced(
        contract_price,
    ) by {
        if i != taker.outcome {
            assert(p.books[i].priced(contract_price));
        }
    }
}

/// One leg leaves every price in range.
pub proof fn lemma_leg_step_priced(p: Progress, taker: Taker, j: int, taken: int, contract_price: int)
    requires
        books_priced(p.books, contract_price),
        0 <= j < p.books.len(),
    ensures
        books_priced(leg_step(p, taker, j, taken).books, contract_price),
{
    let after = leg_step(p, taker, j, taken).books;
    let book = p.books[j];
    assert(book.priced(contract_price));
    lemma_consumed_priced(book.side(taker.side), taken, contract_price);
    assert forall|i: int| 0 <= i < after.len() implies (#[trigger] after[i]).priced(
        contract_price,
    ) by {
        if i != j {
            assert(p.books[i].priced(contract_price));
        }
    }
}

/// The legs in the first `n` books leave every price in range.
pub proof fn lemma_legs_priced(p: Progress, taker: Taker, taken: int, n: int, contract_price: int)
    requires
        books_priced(p.books, contract_price),
        0 <= n <= p.books.len(),
    ensures
        books_priced(legs_upto(p, taker, taken, n).books, contract_price),
        legs_upto(p, taker, taken, n).books.len() == p.books.len(),
    decreases n,
{
    if n > 0 {
        lemma_legs_priced(p, taker, taken, n - 1, contract_price);
        if n - 1 != taker.outcome {
            lemma_leg_step_priced(
                legs_upto(p, taker, taken, n - 1),
                taker,
                n - 1,
                taken,
                contract_price,
            );
        }
    }
}

/// A step in the order's own book leaves every side in the order of its prices.
pub proof fn lemma_own_step_sorted(p: Progress, taker: Taker, taken: int)
    requires
        books_sorted(p.books),
        0 <= taker.outcome < p.books.len(),
    ensures
        books_sorted(own_step(p, taker, taken).books),
{
    let after = own_step(p, taker, taken).books;
    let book = p.books[taker.outcome];
    let other = taker.side.spec_opposite();
    assert(book.sorted());
    lemma_consumed_sorted(book.side(other), taken, other);
    assert forall|i: int| 0 <= i < after.len() implies (#[trigger] after[i]).sorted() by {
        if i != taker.outcome {
            assert(p.books[i].sorted());
        }
    }
}

/// One leg leaves every side in the order of its prices.
pub proof fn lemma_leg_step_sorted(p: Progress, taker: Taker, j: int, taken: int)
    requires
        books_sorted(p.books),
        0 <= j < p.books.len(),
    ensures
        books_sorted(leg_step(p, taker, j, taken).books),
{
    let after = leg_step(p, taker, j, taken).books;
    let book = p.books[j];
    assert(book.sorted());
    lemma_consumed_sorted(book.side(taker.side), taken, taker.side);
    assert forall|i: int| 0 <= i < after.len() implies (#[trigger] after[i]).sorted() by {
        if i != j {
            assert(p.books[i].sorted());
        }
    }
}

/// A book that takes the place of another and holds no id that the other
/// lacked leaves the ids of the market distinct.
pub proof fn lemma_update_distinct(books: Seq<BookView>, i: int, book: BookView)
    requires
        books_distinct(books),
        0 <= i < books.len(),
        book.distinct(),
        forall|id: u64| #[trigger] book.rests(id) ==> books[i].rests(id),
    ensures
        books_distinct(books.update(i, book)),
{
    let after = books.update(i, book);
    assert forall|j: int| 0 <= j < after.len() implies (#[trigger] after[j]).distinct() by {
        if j != i {
            assert(books[j].distinct());
        }
    }
    assert forall|j: int, k: int, id: u64|
        0 <= j < after.len() && 0 <= k < after.len() && (#[trigger] after[j].rests(id)) && (
        #[trigger] after[k].rests(id)) implies j == k by {
        assert(books[j].rests(id));
        assert(books[k].rests(id));
    }
}

/// Taking from one side of a book with distinct ids leaves distinct ids.
pub proof fn lemma_taken_book_distinct(book: BookView, side: Side, taken: int)
    requires
        book.distinct(),
    ensures
        book.with_side(side, consumed(book.side(side), taken)).distinct(),
{
    let after = book.with_side(side, consumed(book.side(side), taken));
    lemma_consumed_distinct(book.side(side), taken);
    assert forall|id: u64| !(#[trigger] holds(after.bids, id) && #[trigger] holds(
        after.asks,
        id,
    )) by {
        lemma_consumed_holds(book.side(side), taken, id);
        assert(!(holds(book.bids, id) && holds(book.asks, id)));
    }
}

/// A step in the order's own book leaves the ids of the market distinct.
pub proof fn lemma_own_step_distinct(p: Progress, taker: Taker, taken: int)
    requires
        books_distinct(p.books),
        0 <= taker.outcome < p.books.len(),
    ensures
        books_distinct(own_step(p, taker, taken).books),
{
    let book = p.books[taker.outcome];
    let other = taker.side.spec_opposite();
    assert(book.distinct());
    lemma_taken_book_distinct(book, other, taken);
    assert forall|id: u64| #[trigger]
        book.with_side(other, consumed(book.side(other), taken)).rests(id) implies book.rests(
        id,
    ) by {
        lemma_consumed_holds(book.side(other), taken, id);
    }
    lemma_update_distinct(
        p.books,
        taker.outcome,
        book.with_side(other, consumed(book.side(other), taken)),
    );
}

/// One leg leaves the ids of the market distinct.
pub proof fn lemma_leg_step_distinct(p: Progress, taker: Taker, j: int, taken: int)
    requires
        books_distinct(p.books),
        0 <= j < p.books.len(),
    ensures
        books_distinct(leg_step(p, taker, j, taken).books),
{
    let book = p.books[j];
    assert(book.distinct());
    lemma_taken_book_distinct(book, taker.side, taken);
    assert forall|id: u64| #[trigger]
        book.with_side(taker.side, consumed(book.side(taker.side), taken)).rests(
            id,
        ) implies book.rests(id) by {
        lemma_consumed_holds(book.side(taker.side), taken, id);
    }
    lemma_update_distinct(
        p.books,
        j,
        book.with_side(taker.side, consumed(book.side(taker.side), taken)),
    );
}

/// An order with an id that rests nowhere, come to rest in book `i`, leaves
/// the ids of the market distinct.
pub proof fn lemma_rested_distinct(books: Seq<BookView>, i: int, side: Side, order: RestingOrder)
    requires
        books_distinct(books),
        0 <= i < books.len(),
        !rests_in(books, order.id),
    ensures
        books_distinct(
            books.update(i, books[i].with_side(side, inserted(books[i].side(side), side, order))),
        ),
{
    let book = books[i];
    let rested = book.with_side(side, inserted(book.side(side), side, order));
    let after = books.update(i, rested);
    assert(book.distinct());
    assert(!book.rests(order.id));
    lemma_inserted_distinct(book.side(side), side, order);
    assert forall|id: u64| !(#[trigger] holds(rested.bids, id) && #[trigger] holds(
        rested.asks,
        id,
    )) by {
        lemma_inserted_holds(book.side(side), side, order, id);
        assert(!(holds(book.bids, id) && holds(book.asks, id)));
    }
    assert forall|j: int| 0 <= j < after.len() implies (#[trigger] after[j]).distinct() by {
        if j != i {
            assert(books[j].distinct());
        }
    }
    assert forall|j: int, k: int, id: u64|
        0 <= j < after.len() && 0 <= k < after.len() && (#[trigger] after[j].rests(id)) && (
        #[trigger] after[k].rests(id)) implies j == k by {
        lemma_inserted_holds(book.side(side), side, order, id);
        if id == order.id {
            if j != i {
                assert(books[j].rests(id));
            }
            if k != i {
                assert(books[k].rests(id));
            }
        } else {
            assert(books[j].rests(id));
            assert(books[k].rests(id));
        }
    }
}

/// A cancel in book `i` leaves the ids of the market distinct.
pub proof fn lemma_cancelled_distinct(books: Seq<BookView>, i: int, id: u64)
    requires
        books_distinct(books),
        0 <= i < books.len(),
    ensures
        books_distinct(books.update(i, books[i].without(id))),
        books[i].rests(id) ==> !rests_in(books.update(i, books[i].without(id)), id),
{
    let book = books[i];
    let after = book.without(id);
    assert(book.distinct());
    lemma_removed_distinct(book.bids, id);
    lemma_removed_distinct(book.asks, id);
    lemma_removed_gone(book.bids, id);
    lemma_removed_gone(book.asks, id);
    assert forall|other: u64| #[trigger] after.rests(other) implies book.rests(other) by {
        if other != id {
            lemma_removed_keeps(book.bids, id, other);
            lemma_removed_keeps(book.asks, id, other);
        }
    }
    assert forall|other: u64| !(#[trigger] holds(after.bids, other) && #[trigger] holds(
        after.asks,
        other,
    )) by {
        if other != id {
            lemma_removed_keeps(book.bids, id, other);
            lemma_removed_keeps(book.asks, id, other);
        }
        assert(!(holds(book.bids, other) && holds(book.asks, other)));
    }
    lemma_update_distinct(books, i, after);
    if book.rests(id) {
        let all = books.update(i, after);
        if rests_in(all, id) {
            let j = choose|j: int| 0 <= j < all.len() && (#[trigger] all[j]).rests(id);
            assert(books[j].rests(id));
        }
    }
}

/// Where the sums of the legs in the first `n` books fit, those of the
/// legs in the first `m` fit, for `m` up to `n`.
pub proof fn lemma_legs_fit_prefix(p: Progress, taker: Taker, taken: int, m: int, n: int)
    requires
        0 <= m <= n,
        legs_fit_upto(p, taker, taken, n),
    ensures
        legs_fit_upto(p, taker, taken, m),
    decreases n - m,
{
    if m < n {
        lemma_legs_fit_prefix(p, taker, taken, m, n - 1);
    }
}

} // verus!
