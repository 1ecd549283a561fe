//! The market: a contract price and one book per outcome.

use vstd::prelude::*;
use crate::amount::{decimal_numeral, in_range, Amount, MAX_PLACES, MAX_UNITS};
use crate::book_lemmas::{
    lemma_inserted_positive, lemma_inserted_priced, lemma_inserted_sorted,
    lemma_level_quantity_positive, lemma_market_fills_shape, lemma_matched_at_best,
    lemma_removed_absent, lemma_removed_gone, lemma_removed_positive, lemma_removed_priced,
    lemma_removed_sorted,
};
use crate::book_model::{level_quantity, BookView, RestingOrder};
use crate::errors::ProcessLimitOrder;
use crate::fill::{fill_views, lists, OrderMatch};
use crate::fill_map::FillMap;
use crate::laws::law_basket_quote;
use crate::matching::{
    at, at_rest, basket_price, basket_price_upto, basket_quantity, basket_quantity_upto,
    basket_step, basket_step_fits, choose_path, fits, leg_step, legs_fit_upto, legs_upto,
    legs_open, legs_price, matched, next_path, own_step, own_step_fits, quotes_fit, run,
    run_fits, settled, side_quote,
    start, taker_of, valid_order, MarketView, Path,
};
use crate::matching_lemmas::{
    lemma_basket_quantity_bounds, lemma_cancelled_distinct, lemma_leg_step_books,
    lemma_leg_step_distinct, lemma_leg_step_priced, lemma_legs_books, lemma_legs_fit_prefix,
    lemma_own_step_books, lemma_own_step_distinct, lemma_own_step_priced,
    lemma_own_step_sorted, lemma_leg_step_sorted, lemma_rested_distinct, no_new_ids,
};
use crate::outcome_book::{
    best_level, book_text, book_to_text, book_view, cancel, market_order, new_book, places_fit,
    resting_places, rest_order, written_with,
};
use crate::side::Side;
use rust_ob::OrderBook;
use vstd::string::StringExecFns;

verus! {

/// A market of two or more outcomes of which exactly one comes true. A
/// complete set, one unit of every outcome, is worth the contract price.
pub struct PieOrderBook {
    contract_price: Amount,
    price_places: u32,
    quantity_places: u32,
    order_books: Vec<OrderBook<u64>>,
}

impl View for PieOrderBook {
    type V = MarketView;

    closed spec fn view(&self) -> MarketView {
        MarketView {
            contract_price: self.contract_price@,
            books: self.order_books@.map_values(|book: OrderBook<u64>| book_view(book)),
            price_places: self.price_places as nat,
            quantity_places: self.quantity_places as nat,
        }
    }
}

/// A book in which nothing rests.
pub open spec fn empty_book() -> BookView {
    BookView { bids: Seq::empty(), asks: Seq::empty() }
}

/// The dump of a market as far as its first `n` books: a line with the
/// contract price, then for each book a blank line, a title line with its
/// number, and its table.
pub open spec fn rendering_upto(market: MarketView, n: int) -> Seq<char>
    decreases n,
{
    if n <= 0 {
        "Contract Price: "@ + decimal_numeral(market.contract_price, market.price_places)
            + "\n"@
    } else {
        rendering_upto(market, n - 1) + "\n-----OUTCOME ORDERBOOK "@ + decimal_numeral(n - 1, 0)
            + "-----\n"@ + book_text(
            market.books[n - 1].bids,
            market.books[n - 1].asks,
            market.price_places,
            market.quantity_places,
        )
    }
}

/// The dump of a market.
pub open spec fn rendering(market: MarketView) -> Seq<char> {
    rendering_upto(market, market.books.len() as int)
}

/// An id that rests nowhere still rests nowhere where no book has a new id.
proof fn lemma_still_absent(before: MarketView, after: MarketView, id: u64)
    requires
        !before.rests(id),
        no_new_ids(before.books, after.books),
    ensures
        !after.rests(id),
{
    if after.rests(id) {
        let i = choose|i: int| 0 <= i < after.books.len() && (#[trigger] after.books[i]).rests(id);
        assert(before.books[i].rests(id));
    }
}

impl PieOrderBook {
    /// Whether every order in every book is written with the market's places.
    pub closed spec fn written(&self) -> bool {
        forall|i: int|
            0 <= i < self.order_books@.len() ==> written_with(
                #[trigger] self.order_books@[i],
                self.price_places as nat,
                self.quantity_places as nat,
            )
    }

    /// Books that are written with the market's places stay so where each of
    /// them is as it was or written so.
    proof fn lemma_still_written(&self, before: Seq<OrderBook<u64>>)
        requires
            before.len() == self.order_books@.len(),
            forall|j: int|
                0 <= j < before.len() ==> written_with(
                    #[trigger] before[j],
                    self.price_places as nat,
                    self.quantity_places as nat,
                ),
            forall|j: int|
                0 <= j < before.len() ==> #[trigger] self.order_books@[j] == before[j]
                    || written_with(
                    self.order_books@[j],
                    self.price_places as nat,
                    self.quantity_places as nat,
                ),
        ensures
            self.written(),
    {
        assert forall|j: int| 0 <= j < self.order_books@.len() implies written_with(
            #[trigger] self.order_books@[j],
            self.price_places as nat,
            self.quantity_places as nat,
        ) by {
            assert(written_with(before[j], self.price_places as nat, self.quantity_places as nat));
        }
    }

    /// There are two outcomes or more; a cost can be written with the
    /// places of a price and of a quantity together; every order that rests
    /// is written with the market's places, has a positive quantity and a
    /// price strictly between 0 and the contract price; each side of each
    /// book stands in the order of its prices; and no two orders have the
    /// same id.
    pub open spec fn wf(&self) -> bool {
        self@.wf() && self.written()
    }

    /// A market of `outcomes` empty books whose prices and quantities are
    /// whole numbers.
    pub fn new(contract_price: Amount, outcomes: usize) -> (r: Self)
        requires
            outcomes >= 2,
        ensures
            r.wf(),
            r@.contract_price == contract_price@,
            r@.books == Seq::new(outcomes as nat, |i: int| empty_book()),
            r@.price_places == 0,
            r@.quantity_places == 0,
    {
        PieOrderBook::with_places(contract_price, outcomes, 0, 0)
    }

    /// A market of `outcomes` empty books whose prices are written with
    /// `price_places` decimal places and whose quantities with
    /// `quantity_places`: with one place for prices, the amount 3 is the
    /// price 0.3. The two together must not be more than 28, since a cost
    /// has the places of both.
    pub fn with_places(
        contract_price: Amount,
        outcomes: usize,
        price_places: u32,
        quantity_places: u32,
    ) -> (r: Self)
        requires
            outcomes >= 2,
            price_places + quantity_places <= MAX_PLACES,
        ensures
            r.wf(),
            r@.contract_price == contract_price@,
            r@.books == Seq::new(outcomes as nat, |i: int| empty_book()),
            r@.price_places == price_places,
            r@.quantity_places == quantity_places,
    {
        let mut order_books: Vec<OrderBook<u64>> = Vec::new();
        let mut i: usize = 0;
        while i < outcomes
            invariant
                i <= outcomes,
                order_books@.len() == i,
                forall|j: int| 0 <= j < i ==> book_view(#[trigger] order_books@[j]) == empty_book(),
                forall|j: int|
                    0 <= j < i ==> resting_places(#[trigger] order_books@[j]) == Seq::<
                        (nat, nat),
                    >::empty(),
            decreases outcomes - i,
        {
            order_books.push(new_book());
            i = i + 1;
        }
        let r = PieOrderBook { contract_price, price_places, quantity_places, order_books };
        assert(r@.books =~= Seq::new(outcomes as nat, |i: int| empty_book()));
        r
    }

    /// The market of [`PieOrderBook::with_places`], where there are two
    /// outcomes or more and the places are 28 at most together; else none.
    pub fn try_with_places(
        contract_price: Amount,
        outcomes: usize,
        price_places: u32,
        quantity_places: u32,
    ) -> (r: Option<Self>)
        ensures
            r is Some <==> outcomes >= 2 && price_places + quantity_places <= MAX_PLACES,
            r matches Some(market) ==> market.wf() && market@.contract_price == contract_price@
                && market@.books == Seq::new(outcomes as nat, |i: int| empty_book())
                && market@.price_places == price_places && market@.quantity_places
                == quantity_places,
    {
        if outcomes < 2 || price_places > MAX_PLACES || quantity_places > MAX_PLACES
            - price_places {
            None
        } else {
            Some(PieOrderBook::with_places(contract_price, outcomes, price_places, quantity_places))
        }
    }

    /// A market of `outcomes` empty books whose prices and quantities are
    /// whole numbers, where there are two outcomes or more; else none.
    pub fn try_new(contract_price: Amount, outcomes: usize) -> (r: Option<Self>)
        ensures
            r is Some <==> outcomes >= 2,
            r matches Some(market) ==> market.wf() && market@.contract_price == contract_price@
                && market@.books == Seq::new(outcomes as nat, |i: int| empty_book())
                && market@.price_places == 0 && market@.quantity_places == 0,
    {
        PieOrderBook::try_with_places(contract_price, outcomes, 0, 0)
    }

    /// The decimal places that prices are written with.
    pub fn price_places(&self) -> (r: u32)
        ensures
            r == self@.price_places,
    {
        self.price_places
    }

    /// The decimal places that quantities are written with.
    pub fn quantity_places(&self) -> (r: u32)
        ensures
            r == self@.quantity_places,
    {
        self.quantity_places
    }

    /// The number of outcomes.
    pub fn outcomes(&self) -> (r: usize)
        ensures
            r == self@.books.len(),
    {
        self.order_books.len()
    }

    /// What a complete set is worth.
    pub fn contract_price(&self) -> (r: Amount)
        ensures
            r@ == self@.contract_price,
    {
        self.contract_price
    }

    /// The market as text, for a reader: the contract price and every book.
    pub fn render(&self) -> (r: String)
        requires
            self.wf(),
        ensures
            r@ == rendering(self@),
    {
        let mut text = String::from_str("Contract Price: ");
        text.append(self.contract_price.to_text(self.price_places).as_str());
        text.append("\n");
        let mut i: usize = 0;
        while i < self.order_books.len()
            invariant
                self.wf(),
                i <= self.order_books@.len(),
                self.order_books@.len() == self@.books.len(),
                text@ == rendering_upto(self@, i as int),
            decreases self.order_books@.len() - i,
        {
            let number = Amount::new(i as i128).unwrap();
            text.append("\n-----OUTCOME ORDERBOOK ");
            text.append(number.to_text(0).as_str());
            text.append("-----\n");
            assert(written_with(
                self.order_books@[i as int],
                self.price_places as nat,
                self.quantity_places as nat,
            ));
            text.append(book_to_text(&self.order_books[i]).as_str());
            i = i + 1;
        }
        text
    }

    /// Whether a limit order passes: the outcome is one of the market's, the
    /// price lies strictly between 0 and the contract price, and the quantity
    /// is positive.
    pub fn accepts(&self, outcome: usize, price: Amount, quantity: Amount) -> (r: bool)
        ensures
            r == valid_order(self@, outcome as int, price@, quantity@),
    {
        outcome < self.order_books.len() && price.units() > 0 && price.units()
            < self.contract_price.units() && quantity.units() > 0
    }

    /// The best price on `side` of the book of `outcome` and the quantity
    /// that rests at that price; where nothing rests there, `default_price`
    /// and no quantity.
    pub fn get_order_book_best_price_quantity(
        &self,
        outcome: usize,
        side: Side,
        default_price: Amount,
    ) -> (r: (Amount, Amount))
        requires
            self.wf(),
            outcome < self@.books.len(),
            level_quantity(self@.books[outcome as int].side(side)) <= MAX_UNITS,
        ensures
            (r.0@, r.1@) == side_quote(self@.books[outcome as int].side(side), default_price@),
    {
        assert(self@.books[outcome as int].wf());
        assert(written_with(
            self.order_books@[outcome as int],
            self.price_places as nat,
            self.quantity_places as nat,
        ));
        match best_level(&self.order_books[outcome], side) {
            Some(quote) => quote,
            None => (default_price, Amount::zero()),
        }
    }

    /// The quote of the basket for an order of `side` on `outcome`: the
    /// contract price less the best price on `side` in every other book, and
    /// the least quantity that any of them has at its best price.
    pub fn get_other_order_books_best_price_quantity(&self, outcome: usize, side: Side) -> (r: (
        Amount,
        Amount,
    ))
        requires
            self.wf(),
            outcome < self@.books.len(),
            quotes_fit(self@.books, self@.contract_price, outcome as int, side),
        ensures
            r.0@ == basket_price(self@.books, self@.contract_price, outcome as int, side),
            r.1@ == basket_quantity(self@.books, outcome as int, side),
            r.0@ == self@.contract_price - legs_price(self@.books, outcome as int, side),
            r.1@ > 0 <==> legs_open(self@.books, outcome as int, side),
            r.1@ >= 0,
    {
        proof {
            law_basket_quote(self@.books, self@.contract_price, outcome as int, side);
        }
        let mut price = self.contract_price;
        let mut quantity = Amount::max_value();
        let mut i: usize = 0;
        while i < self.order_books.len()
            invariant
                self.wf(),
                outcome < self@.books.len(),
                quotes_fit(self@.books, self@.contract_price, outcome as int, side),
                i <= self.order_books@.len(),
                self.order_books@.len() == self@.books.len(),
                price@ == basket_price_upto(
                    self@.books,
                    self@.contract_price,
                    outcome as int,
                    side,
                    i as int,
                ),
                quantity@ == basket_quantity_upto(self@.books, outcome as int, side, i as int),
            decreases self.order_books@.len() - i,
        {
            if i != outcome {
                assert(level_quantity(self@.books[i as int].side(side)) <= MAX_UNITS);
                let (leg_price, leg_quantity) = self.get_order_book_best_price_quantity(
                    i,
                    side,
                    Amount::zero(),
                );
                assert(in_range(
                    basket_price_upto(
                        self@.books,
                        self@.contract_price,
                        outcome as int,
                        side,
                        i as int + 1,
                    ),
                ));
                price = price.checked_sub(leg_price).unwrap();
                quantity = quantity.min(leg_quantity);
            }
            i = i + 1;
        }
        (price, quantity)
    }

    /// One step in the order's own book: the order takes `taken` from the
    /// other side, every fill is added to `totals`, and what remains comes back.
    fn match_own(
        &mut self,
        totals: &mut FillMap,
        id: u64,
        outcome: usize,
        side: Side,
        price: Amount,
        remaining: Amount,
        taken: Amount,
    ) -> (left: Amount)
        requires
            old(self).wf(),
            old(totals).wf(),
            outcome < old(self)@.books.len(),
            !old(self)@.rests(id),
            0 < taken@ <= remaining@,
            own_step_fits(
                at(old(self)@, remaining@, old(totals)@),
                taker_of(id, outcome as int, side, price@),
                taken@,
            ),
        ensures
            final(self).wf(),
            final(totals).wf(),
            final(self)@.contract_price == old(self)@.contract_price,
            final(self)@.price_places == old(self)@.price_places,
            final(self)@.quantity_places == old(self)@.quantity_places,
            final(self)@.books.len() == old(self)@.books.len(),
            !final(self)@.rests(id),
            at(final(self)@, left@, final(totals)@) == own_step(
                at(old(self)@, remaining@, old(totals)@),
                taker_of(id, outcome as int, side, price@),
                taken@,
            ),
    {
        let ghost before = self@;
        let ghost p = at(self@, remaining@, totals@);
        let ghost taker = taker_of(id, outcome as int, side, price@);
        proof {
            assert(before.books[outcome as int].wf());
            assert(!before.books[outcome as int].rests(id));
        }
        assert(places_fit(self.price_places as nat, self.quantity_places as nat)
            && written_with(
            self.order_books@[outcome as int],
            self.price_places as nat,
            self.quantity_places as nat,
        ));
        let ghost stored = self.order_books@;
        let places = self.quantity_places;
        let fills = market_order(&mut self.order_books[outcome], id, side, taken, places)
            .unwrap();
        proof {
            self.lemma_still_written(stored);
        }
        proof {
            assert(fill_views(fills@).subrange(0, fills@.len() as int) =~= fill_views(fills@));
        }
        totals.add_order_matches(&fills, fills.len());
        proof {
            use_type_invariant(remaining);
            use_type_invariant(taken);
        }
        let left = remaining.checked_sub(taken).unwrap();
        proof {
            let after = own_step(p, taker, taken@);
            assert(self@.books[outcome as int] == after.books[outcome as int]);
            assert(self@.books =~= after.books);
            lemma_own_step_books(p, taker, taken@);
            lemma_own_step_priced(p, taker, taken@, before.contract_price);
            lemma_own_step_sorted(p, taker, taken@);
            lemma_own_step_distinct(p, taker, taken@);
            lemma_still_absent(before, self@, id);
        }
        left
    }

    /// One basket: the complement of the order takes `taken` from the
    /// order's side of every other book, the fills of the resting orders
    /// are added to `totals`, then the order's own fill at the basket price.
    /// What remains comes back.
    fn match_basket(
        &mut self,
        totals: &mut FillMap,
        id: u64,
        outcome: usize,
        side: Side,
        price: Amount,
        remaining: Amount,
        basket_price: Amount,
        taken: Amount,
    ) -> (left: Amount)
        requires
            old(self).wf(),
            old(totals).wf(),
            outcome < old(self)@.books.len(),
            !old(self)@.rests(id),
            0 < taken@ <= remaining@,
            taken@ <= basket_quantity(old(self)@.books, outcome as int, side),
            side == Side::Sell ==> basket_price@ >= 0,
            basket_step_fits(
                at(old(self)@, remaining@, old(totals)@),
                taker_of(id, outcome as int, side, price@),
                basket_price@,
                taken@,
            ),
        ensures
            final(self).wf(),
            final(totals).wf(),
            final(self)@.contract_price == old(self)@.contract_price,
            final(self)@.price_places == old(self)@.price_places,
            final(self)@.quantity_places == old(self)@.quantity_places,
            final(self)@.books.len() == old(self)@.books.len(),
            !final(self)@.rests(id),
            at(final(self)@, left@, final(totals)@) == basket_step(
                at(old(self)@, remaining@, old(totals)@),
                taker_of(id, outcome as int, side, price@),
                basket_price@,
                taken@,
            ),
    {
        let ghost before = self@;
        let ghost p = at(self@, remaining@, totals@);
        let ghost taker = taker_of(id, outcome as int, side, price@);
        let ghost n = before.books.len() as int;
        let mut i: usize = 0;
        while i < self.order_books.len()
            invariant
                before.wf(),
                self.wf(),
                totals.wf(),
                n == before.books.len(),
                self.order_books@.len() == n,
                outcome < n,
                i <= n,
                p == at(before, remaining@, old(totals)@),
                taker == taker_of(id, outcome as int, side, price@),
                self@.contract_price == before.contract_price,
                self@.price_places == before.price_places,
                self@.quantity_places == before.quantity_places,
                0 < taken@,
                taken@ <= basket_quantity(before.books, outcome as int, side),
                legs_fit_upto(p, taker, taken@, n),
                !self@.rests(id),
                at(self@, remaining@, totals@) == legs_upto(p, taker, taken@, i as int),
            decreases n - i,
        {
            if i != outcome {
                let ghost here = at(self@, remaining@, totals@);
                let ghost market = self@;
                let ghost resting = self@.books[i as int].side(side);
                proof {
                    lemma_legs_fit_prefix(p, taker, taken@, i as int + 1, n);
                    lemma_legs_books(p, taker, taken@, i as int);
                    lemma_basket_quantity_bounds(before.books, outcome as int, side, n);
                    assert(self@.books[i as int] == before.books[i as int]);
                    assert(before.books[i as int].wf());
                    assert(taken@ <= level_quantity(before.books[i as int].side(side)));
                    lemma_matched_at_best(resting, taken@);
                    assert(!self@.books[i as int].rests(id));
                    assert(side.spec_opposite().spec_opposite() == side);
                    lemma_market_fills_shape(resting, id, side.spec_opposite(), taken@);
                }
                assert(places_fit(self.price_places as nat, self.quantity_places as nat)
                    && written_with(
                    self.order_books@[i as int],
                    self.price_places as nat,
                    self.quantity_places as nat,
                ));
                let ghost stored = self.order_books@;
                let places = self.quantity_places;
                let fills = market_order(
                    &mut self.order_books[i],
                    id,
                    side.opposite(),
                    taken,
                    places,
                ).unwrap();
                proof {
                    self.lemma_still_written(stored);
                }
                totals.add_order_matches(&fills, fills.len() - 1);
                proof {
                    let after = leg_step(here, taker, i as int, taken@);
                    assert(self@.books[i as int] == after.books[i as int]);
                    assert(self@.books =~= after.books);
                    lemma_leg_step_books(here, taker, i as int, taken@);
                    lemma_leg_step_priced(here, taker, i as int, taken@, before.contract_price);
                    lemma_leg_step_sorted(here, taker, i as int, taken@);
                    lemma_leg_step_distinct(here, taker, i as int, taken@);
                    lemma_still_absent(market, self@, id);
                }
            }
            i = i + 1;
        }
        let product = basket_price.checked_mul(taken).unwrap();
        let cost = match side {
            Side::Buy => product,
            Side::Sell => product.negative(),
        };
        proof {
            assert(basket_price@ >= 0 && taken@ > 0 ==> basket_price@ * taken@ >= 0)
                by (nonlinear_arith);
        }
        totals.add_order_match_to_map(&OrderMatch { order: id, quantity: taken, cost });
        proof {
            use_type_invariant(remaining);
            use_type_invariant(taken);
        }
        let left = remaining.checked_sub(taken).unwrap();
        left
    }

    /// Matches a limit order and rests what is left of it.
    ///
    /// An order that does not pass validation is turned away and changes
    /// nothing. Any other order is matched step by step, each step in its own
    /// book or as a basket across all the others, until nothing remains or
    /// nothing in reach is left; the remainder then rests in its own book at
    /// its price. The fills come back summed by order id, each id once.
    ///
    /// The id of a valid order must rest nowhere in the market, and every sum
    /// on its way must fit; `capacity::law_small_orders_fit` says which
    /// orders are small enough for that in any case.
    pub fn process_limit_order(
        &mut self,
        id: u64,
        outcome: usize,
        side: Side,
        price: Amount,
        quantity: Amount,
    ) -> (r: Result<Vec<OrderMatch>, ProcessLimitOrder>)
        requires
            old(self).wf(),
            valid_order(old(self)@, outcome as int, price@, quantity@) ==> !old(self)@.rests(id)
                && fits(old(self)@, taker_of(id, outcome as int, side, price@), quantity@),
        ensures
            final(self).wf(),
            final(self)@.contract_price == old(self)@.contract_price,
            final(self)@.price_places == old(self)@.price_places,
            final(self)@.quantity_places == old(self)@.quantity_places,
            valid_order(old(self)@, outcome as int, price@, quantity@) <==> r is Ok,
            r matches Err(e) ==> e == ProcessLimitOrder::OrderValidationFailed && final(self)@
                == old(self)@,
            r matches Ok(fills) ==> fills@.len() == matched(
                old(self)@,
                taker_of(id, outcome as int, side, price@),
                quantity@,
            ).totals.dom().len(),
            r matches Ok(fills) ==> lists(
                fills@,
                matched(old(self)@, taker_of(id, outcome as int, side, price@), quantity@).totals,
            ) && final(self)@.books == settled(
                taker_of(id, outcome as int, side, price@),
                matched(old(self)@, taker_of(id, outcome as int, side, price@), quantity@),
            ),
    {
        if !self.accepts(outcome, price, quantity) {
            return Err(ProcessLimitOrder::OrderValidationFailed);
        }
        let ghost before = self@;
        let ghost taker = taker_of(id, outcome as int, side, price@);
        let ghost cp = before.contract_price;
        let own_default = match side {
            Side::Buy => self.contract_price,
            Side::Sell => Amount::zero(),
        };
        let mut remaining = quantity;
        let mut totals = FillMap::new();
        let mut open = true;
        while open && remaining.units() > 0
            invariant
                self.wf(),
                totals.wf(),
                self@.contract_price == cp,
                self@.price_places == before.price_places,
                self@.quantity_places == before.quantity_places,
                self@.books.len() == before.books.len(),
                outcome < self@.books.len(),
                0 < price@ < cp,
                taker == taker_of(id, outcome as int, side, price@),
                own_default@ == crate::matching::own_default(side, cp),
                !self@.rests(id),
                0 <= remaining@,
                run(cp, taker, at(self@, remaining@, totals@)) == run(
                    cp,
                    taker,
                    start(before, quantity@),
                ),
                run_fits(cp, taker, at(self@, remaining@, totals@)),
                !open ==> next_path(cp, taker, at(self@, remaining@, totals@)) == Path::Stop,
            decreases remaining@, (if open { 1int } else { 0int }),
        {
            let (own_price, own_quantity) = self.get_order_book_best_price_quantity(
                outcome,
                side.opposite(),
                own_default,
            );
            let (basket_price, basket_quantity) = self.get_other_order_books_best_price_quantity(
                outcome,
                side,
            );
            proof {
                lemma_basket_quantity_bounds(
                    self@.books,
                    outcome as int,
                    side,
                    self@.books.len() as int,
                );
                assert(self@.books[outcome as int].wf());
                lemma_level_quantity_positive(
                    self@.books[outcome as int].side(side.spec_opposite()),
                );
            }
            match choose_path(side, price, own_price, basket_price, basket_quantity) {
                Path::Own => {
                    let taken = own_quantity.min(remaining);
                    remaining = self.match_own(
                        &mut totals,
                        id,
                        outcome,
                        side,
                        price,
                        remaining,
                        taken,
                    );
                },
                Path::Basket => {
                    let taken = basket_quantity.min(remaining);
                    remaining = self.match_basket(
                        &mut totals,
                        id,
                        outcome,
                        side,
                        price,
                        remaining,
                        basket_price,
                        taken,
                    );
                },
                Path::Stop => {
                    open = false;
                },
            }
        }
        let ghost end = at(self@, remaining@, totals@);
        proof {
            assert(at_rest(cp, taker, end));
            assert(run(cp, taker, end) == end);
        }
        if remaining.units() > 0 {
            let ghost market = self@;
            proof {
                assert(self@.books[outcome as int].wf());
                assert(self@.books[outcome as int].sorted());
                assert(!self@.books[outcome as int].rests(id));
                lemma_level_quantity_positive(
                    self@.books[outcome as int].side(side.spec_opposite()),
                );
            }
            assert(written_with(
                self.order_books@[outcome as int],
                self.price_places as nat,
                self.quantity_places as nat,
            ));
            let ghost stored = self.order_books@;
            let price_places = self.price_places;
            let quantity_places = self.quantity_places;
            let rested = rest_order(
                &mut self.order_books[outcome],
                id,
                side,
                price,
                remaining,
                price_places,
                quantity_places,
            ).unwrap();
            assert(rested@.len() == 0);
            proof {
                self.lemma_still_written(stored);
            }
            proof {
                let own = market.books[outcome as int];
                let order = RestingOrder { id, price: price@, quantity: remaining@ };
                assert(own.priced(cp));
                lemma_inserted_positive(own.side(side), side, order);
                lemma_inserted_priced(own.side(side), side, order, cp);
                lemma_inserted_sorted(own.side(side), side, order);
                lemma_rested_distinct(market.books, outcome as int, side, order);
                assert(self@.books[outcome as int] == settled(taker, end)[outcome as int]);
                assert(self@.books =~= settled(taker, end));
                assert forall|j: int| 0 <= j < self@.books.len() implies (
                #[trigger] self@.books[j]).wf() && self@.books[j].priced(cp)
                    && self@.books[j].sorted() by {
                    if j != outcome {
                        assert(market.books[j].wf());
                        assert(market.books[j].priced(cp));
                        assert(market.books[j].sorted());
                    }
                }
            }
        }
        Ok(totals.into_fills())
    }

    /// Takes the order `id` out of the book of `outcome`. The order must
    /// rest there.
    pub fn cancel_order(&mut self, outcome: usize, id: u64)
        requires
            old(self).wf(),
            outcome < old(self)@.books.len(),
            old(self)@.books[outcome as int].rests(id),
        ensures
            final(self).wf(),
            final(self)@.contract_price == old(self)@.contract_price,
            final(self)@.price_places == old(self)@.price_places,
            final(self)@.quantity_places == old(self)@.quantity_places,
            final(self)@.books == old(self)@.books.update(
                outcome as int,
                old(self)@.books[outcome as int].without(id),
            ),
            !final(self)@.rests(id),
    {
        let found = self.try_cancel_order(outcome, id);
        assert(found);
    }

    /// Takes the order `id` out of the book of `outcome` if it rests there,
    /// and says whether it did. Else the market stays as it is.
    pub fn try_cancel_order(&mut self, outcome: usize, id: u64) -> (found: bool)
        requires
            old(self).wf(),
        ensures
            final(self).wf(),
            found == (outcome < old(self)@.books.len()
                && old(self)@.books[outcome as int].rests(id)),
            final(self)@.contract_price == old(self)@.contract_price,
            final(self)@.price_places == old(self)@.price_places,
            final(self)@.quantity_places == old(self)@.quantity_places,
            found ==> final(self)@.books == old(self)@.books.update(
                outcome as int,
                old(self)@.books[outcome as int].without(id),
            ),
            found ==> !final(self)@.rests(id),
            !found ==> final(self)@ == old(self)@,
    {
        if outcome >= self.order_books.len() {
            return false;
        }
        let ghost before = self@;
        assert(before.books[outcome as int].wf());
        let ghost stored = self.order_books@;
        let found = cancel(&mut self.order_books[outcome], id);
        proof {
            self.lemma_still_written(stored);
        }
        proof {
            let book = before.books[outcome as int];
            assert(book.priced(before.contract_price));
            lemma_removed_positive(book.bids, id);
            lemma_removed_positive(book.asks, id);
            lemma_removed_priced(book.bids, id, before.contract_price);
            lemma_removed_priced(book.asks, id, before.contract_price);
            assert(book.sorted());
            lemma_removed_sorted(book.bids, id, Side::Buy);
            lemma_removed_sorted(book.asks, id, Side::Sell);
            lemma_cancelled_distinct(before.books, outcome as int, id);
            lemma_removed_gone(book.bids, id);
            lemma_removed_gone(book.asks, id);
            assert(self@.books =~= before.books.update(outcome as int, book.without(id)));
            if !found {
                lemma_removed_absent(book.bids, id);
                lemma_removed_absent(book.asks, id);
                assert(self@.books =~= before.books);
            }
            assert forall|j: int| 0 <= j < self@.books.len() implies (
            #[trigger] self@.books[j]).wf() && self@.books[j].priced(before.contract_price)
                && self@.books[j].sorted() by {
                if j != outcome {
                    assert(self@.books[j] == before.books[j]);
                    assert(before.books[j].wf());
                    assert(before.books[j].priced(before.contract_price));
                    assert(before.books[j].sorted());
                }
            }
        }
        found
    }
}

} // verus!
