//! What a limit order does to a market, step by step, as mathematics: the
//! quotes it sees, the path it takes, and the books and fills it leaves.

use vstd::prelude::*;
use crate::amount::{in_range, Amount, MAX_PLACES, MAX_UNITS};
use crate::book_model::{
    consumed, inserted, least, level_quantity, maker_fills, market_fills, matched_value,
    signed_cost, BookView, FillView, RestingOrder,
};
use crate::side::Side;

verus! {

/// A market: what a complete set is worth, one book per outcome, and the
/// decimal places that prices and quantities are written with. Every price
/// and every quantity is a whole number of steps of that size.
pub struct MarketView {
    pub contract_price: int,
    pub books: Seq<BookView>,
    pub price_places: nat,
    pub quantity_places: nat,
}

impl MarketView {
    /// There are two outcomes or more; a cost can be written with the
    /// places of a price and of a quantity together; every order that rests
    /// has a positive quantity and a price strictly between 0 and the
    /// contract price; each side of each book stands in the order of its
    /// prices; and no two orders have the same id.
    pub open spec fn wf(self) -> bool {
        &&& self.books.len() >= 2
        &&& self.price_places + self.quantity_places <= MAX_PLACES
        &&& books_wf(self.books)
        &&& books_priced(self.books, self.contract_price)
        &&& books_sorted(self.books)
        &&& books_distinct(self.books)
    }

    /// Whether an order with this id rests in one of the books.
    pub open spec fn rests(self, id: u64) -> bool {
        rests_in(self.books, id)
    }
}

/// Whether every book holds positive orders only.
pub open spec fn books_wf(books: Seq<BookView>) -> bool {
    forall|i: int| 0 <= i < books.len() ==> (#[trigger] books[i]).wf()
}

/// Whether every resting order has a price strictly between 0 and `contract_price`.
pub open spec fn books_priced(books: Seq<BookView>, contract_price: int) -> bool {
    forall|i: int| 0 <= i < books.len() ==> (#[trigger] books[i]).priced(contract_price)
}

/// Whether each side of each book stands in the order of its prices, the
/// best first.
pub open spec fn books_sorted(books: Seq<BookView>) -> bool {
    forall|i: int| 0 <= i < books.len() ==> (#[trigger] books[i]).sorted()
}

/// Whether no two resting orders have the same id, in one book or in two.
pub open spec fn books_distinct(books: Seq<BookView>) -> bool {
    &&& forall|i: int| 0 <= i < books.len() ==> (#[trigger] books[i]).distinct()
    &&& forall|i: int, j: int, id: u64|
        0 <= i < books.len() && 0 <= j < books.len() && (#[trigger] books[i].rests(id)) && (
        #[trigger] books[j].rests(id)) ==> i == j
}

/// Whether an order with this id rests in one of `books`.
pub open spec fn rests_in(books: Seq<BookView>, id: u64) -> bool {
    exists|i: int| 0 <= i < books.len() && (#[trigger] books[i]).rests(id)
}

/// The quantity that `totals` has for the order `id`; 0 where it has no entry.
pub open spec fn filled_quantity(totals: Map<u64, FillView>, id: u64) -> int {
    if totals.contains_key(id) {
        totals[id].quantity
    } else {
        0
    }
}

/// The cost that `totals` has for the order `id`; 0 where it has no entry.
pub open spec fn filled_cost(totals: Map<u64, FillView>, id: u64) -> int {
    if totals.contains_key(id) {
        totals[id].cost
    } else {
        0
    }
}

/// What stays the same about a limit order while it is matched.
pub struct Taker {
    pub id: u64,
    pub outcome: int,
    pub side: Side,
    pub price: int,
}

/// Where a limit order stands between two steps: the books as they are, the
/// quantity still to match, and the fills so far, summed by order id.
pub struct Progress {
    pub books: Seq<BookView>,
    pub remaining: int,
    pub totals: Map<u64, FillView>,
}

/// Where the next part of an order trades.
#[derive(Clone, Copy, Debug, PartialEq, Eq, Structural)]
pub enum Path {
    /// Against the other side of its own outcome's book.
    Own,
    /// Against its own side of every other outcome's book.
    Basket,
    /// Nowhere: nothing in reach is left.
    Stop,
}

/// Whether the four conditions on a limit order hold: the outcome is one of
/// the market's, the price lies strictly between 0 and the contract price,
/// and the quantity is positive.
pub open spec fn valid_order(market: MarketView, outcome: int, price: int, quantity: int) -> bool {
    &&& 0 <= outcome < market.books.len()
    &&& 0 < price < market.contract_price
    &&& 0 < quantity
}

/// The price that an empty side quotes to an order of `side` in its own
/// book, one that no valid order reaches: the contract price to a buy, 0 to
/// a sell.
pub open spec fn own_default(side: Side, contract_price: int) -> int {
    match side {
        Side::Buy => contract_price,
        Side::Sell => 0,
    }
}

/// The best price of `orders` and the quantity at that price; where nothing
/// rests, `default_price` and no quantity.
pub open spec fn side_quote(orders: Seq<RestingOrder>, default_price: int) -> (int, int) {
    if orders.len() == 0 {
        (default_price, 0)
    } else {
        (orders[0].price, level_quantity(orders))
    }
}

/// What the other side of the order's own book quotes.
pub open spec fn own_quote(books: Seq<BookView>, contract_price: int, outcome: int, side: Side) -> (
    int,
    int,
) {
    side_quote(books[outcome].side(side.spec_opposite()), own_default(side, contract_price))
}

/// What book `j` quotes to a basket on `side`. An empty leg quotes no
/// quantity, and a price of 0.
pub open spec fn leg_quote(books: Seq<BookView>, j: int, side: Side) -> (int, int) {
    side_quote(books[j].side(side), 0)
}

/// The contract price less the best prices that the first `n` books, the
/// order's own left out, have on the order's side.
pub open spec fn basket_price_upto(
    books: Seq<BookView>,
    contract_price: int,
    outcome: int,
    side: Side,
    n: int,
) -> int
    decreases n,
{
    if n <= 0 {
        contract_price
    } else if n - 1 == outcome {
        basket_price_upto(books, contract_price, outcome, side, n - 1)
    } else {
        basket_price_upto(books, contract_price, outcome, side, n - 1) - leg_quote(
            books,
            n - 1,
            side,
        ).0
    }
}

/// The least quantity that the first `n` books, the order's own left out,
/// have at their best price on the order's side; the largest amount where
/// there is no such book.
pub open spec fn basket_quantity_upto(books: Seq<BookView>, outcome: int, side: Side, n: int) -> int
    decreases n,
{
    if n <= 0 {
        MAX_UNITS as int
    } else if n - 1 == outcome {
        basket_quantity_upto(books, outcome, side, n - 1)
    } else {
        least(basket_quantity_upto(books, outcome, side, n - 1), leg_quote(books, n - 1, side).1)
    }
}

/// The price of the basket: the contract price less the best price on the
/// order's side in every other book.
pub open spec fn basket_price(books: Seq<BookView>, contract_price: int, outcome: int, side: Side) -> int {
    basket_price_upto(books, contract_price, outcome, side, books.len() as int)
}

/// The quantity of the basket: the least that any other book has at its best
/// price on the order's side. One empty leg makes it 0.
pub open spec fn basket_quantity(books: Seq<BookView>, outcome: int, side: Side) -> int {
    basket_quantity_upto(books, outcome, side, books.len() as int)
}

/// The best prices that the first `n` books, the order's own left out, have
/// on the order's side, added up. An empty side adds nothing.
pub open spec fn legs_price_upto(books: Seq<BookView>, outcome: int, side: Side, n: int) -> int
    decreases n,
{
    if n <= 0 {
        0
    } else if n - 1 == outcome {
        legs_price_upto(books, outcome, side, n - 1)
    } else {
        legs_price_upto(books, outcome, side, n - 1) + leg_quote(books, n - 1, side).0
    }
}

/// The best price on the order's side in every other book, added up.
pub open spec fn legs_price(books: Seq<BookView>, outcome: int, side: Side) -> int {
    legs_price_upto(books, outcome, side, books.len() as int)
}

/// Whether every other book has an order resting on the order's side.
pub open spec fn legs_open(books: Seq<BookView>, outcome: int, side: Side) -> bool {
    forall|j: int| 0 <= j < books.len() && j != outcome ==> (#[trigger] books[j].side(side)).len() > 0
}

/// The path of the next part of an order. Its own book has it when the price
/// reaches the own quote, unless the basket has quantity and a strictly
/// better price: lower for a buy, higher for a sell. At the same price the
/// order stays in its own book. Else the basket has it when it has quantity
/// and the price reaches its price.
pub open spec fn chosen_path(
    side: Side,
    price: int,
    own_price: int,
    basket_price: int,
    basket_quantity: int,
) -> Path {
    match side {
        Side::Buy => {
            if price >= own_price && !(own_price > basket_price && basket_quantity != 0) {
                Path::Own
            } else if price >= basket_price && basket_quantity != 0 {
                Path::Basket
            } else {
                Path::Stop
            }
        },
        Side::Sell => {
            if price <= own_price && !(own_price < basket_price && basket_quantity != 0) {
                Path::Own
            } else if price <= basket_price && basket_quantity != 0 {
                Path::Basket
            } else {
                Path::Stop
            }
        },
    }
}

/// The path of the next part of an order, from the quotes it sees.
pub fn choose_path(
    side: Side,
    price: Amount,
    own_price: Amount,
    basket_price: Amount,
    basket_quantity: Amount,
) -> (r: Path)
    ensures
        r == chosen_path(side, price@, own_price@, basket_price@, basket_quantity@),
{
    let basket_open = basket_quantity.units() != 0;
    match side {
        Side::Buy => {
            if price.units() >= own_price.units() && !(own_price.units() > basket_price.units()
                && basket_open) {
                Path::Own
            } else if price.units() >= basket_price.units() && basket_open {
                Path::Basket
            } else {
                Path::Stop
            }
        },
        Side::Sell => {
            if price.units() <= own_price.units() && !(own_price.units() < basket_price.units()
                && basket_open) {
                Path::Own
            } else if price.units() <= basket_price.units() && basket_open {
                Path::Basket
            } else {
                Path::Stop
            }
        },
    }
}

/// `totals` with one more fill: added to the entry of its order, or a new entry.
pub open spec fn merged(totals: Map<u64, FillView>, fill: FillView) -> Map<u64, FillView> {
    if totals.contains_key(fill.order) {
        totals.insert(
            fill.order,
            FillView {
                order: fill.order,
                quantity: totals[fill.order].quantity + fill.quantity,
                cost: totals[fill.order].cost + fill.cost,
            },
        )
    } else {
        totals.insert(fill.order, fill)
    }
}

/// Whether the sums that one more fill asks for fit.
pub open spec fn merge_fits(totals: Map<u64, FillView>, fill: FillView) -> bool {
    totals.contains_key(fill.order) ==> in_range(totals[fill.order].quantity + fill.quantity)
        && in_range(totals[fill.order].cost + fill.cost)
}

/// `totals` with `fills` merged in, first to last.
pub open spec fn merged_all(totals: Map<u64, FillView>, fills: Seq<FillView>) -> Map<u64, FillView>
    decreases fills.len(),
{
    if fills.len() == 0 {
        totals
    } else {
        merged_all(merged(totals, fills[0]), fills.drop_first())
    }
}

/// Whether every sum fits while `fills` are merged in, first to last.
pub open spec fn merges_fit(totals: Map<u64, FillView>, fills: Seq<FillView>) -> bool
    decreases fills.len(),
{
    fills.len() == 0 || (merge_fits(totals, fills[0]) && merges_fit(
        merged(totals, fills[0]),
        fills.drop_first(),
    ))
}

/// Whether the quotes can be read: every total at a best price fits, and so
/// does the basket price at every book on the way.
pub open spec fn quotes_fit(books: Seq<BookView>, contract_price: int, outcome: int, side: Side) -> bool {
    &&& level_quantity(books[outcome].side(side.spec_opposite())) <= MAX_UNITS
    &&& forall|j: int|
        0 <= j < books.len() && j != outcome ==> level_quantity(#[trigger] books[j].side(side))
            <= MAX_UNITS
    &&& forall|n: int|
        0 <= n <= books.len() ==> in_range(
            #[trigger] basket_price_upto(books, contract_price, outcome, side, n),
        )
}

/// The order takes `taken` from the other side of its own book.
pub open spec fn own_step(p: Progress, taker: Taker, taken: int) -> Progress {
    let other = taker.side.spec_opposite();
    let resting = p.books[taker.outcome].side(other);
    Progress {
        books: p.books.update(
            taker.outcome,
            p.books[taker.outcome].with_side(other, consumed(resting, taken)),
        ),
        remaining: p.remaining - taken,
        totals: merged_all(p.totals, market_fills(resting, taker.id, taker.side, taken)),
    }
}

/// Whether the sums of that step fit.
pub open spec fn own_step_fits(p: Progress, taker: Taker, taken: int) -> bool {
    let resting = p.books[taker.outcome].side(taker.side.spec_opposite());
    &&& matched_value(resting, taken) <= MAX_UNITS
    &&& merges_fit(p.totals, market_fills(resting, taker.id, taker.side, taken))
}

/// One leg of a basket: the complement of the order takes `taken` from the
/// order's side of book `j`. Only the resting orders' fills are kept.
pub open spec fn leg_step(p: Progress, taker: Taker, j: int, taken: int) -> Progress {
    let resting = p.books[j].side(taker.side);
    Progress {
        books: p.books.update(j, p.books[j].with_side(taker.side, consumed(resting, taken))),
        remaining: p.remaining,
        totals: merged_all(p.totals, maker_fills(resting, taken, taker.side.spec_opposite())),
    }
}

/// Whether the sums of that leg fit.
pub open spec fn leg_fits(p: Progress, taker: Taker, j: int, taken: int) -> bool {
    let resting = p.books[j].side(taker.side);
    &&& matched_value(resting, taken) <= MAX_UNITS
    &&& merges_fit(p.totals, maker_fills(resting, taken, taker.side.spec_opposite()))
}

/// The legs of a basket in the first `n` books, the order's own left out.
pub open spec fn legs_upto(p: Progress, taker: Taker, taken: int, n: int) -> Progress
    decreases n,
{
    if n <= 0 {
        p
    } else if n - 1 == taker.outcome {
        legs_upto(p, taker, taken, n - 1)
    } else {
        leg_step(legs_upto(p, taker, taken, n - 1), taker, n - 1, taken)
    }
}

/// Whether the sums of those legs fit.
pub open spec fn legs_fit_upto(p: Progress, taker: Taker, taken: int, n: int) -> bool
    decreases n,
{
    if n <= 0 {
        true
    } else if n - 1 == taker.outcome {
        legs_fit_upto(p, taker, taken, n - 1)
    } else {
        legs_fit_upto(p, taker, taken, n - 1) && leg_fits(
            legs_upto(p, taker, taken, n - 1),
            taker,
            n - 1,
            taken,
        )
    }
}

/// The order's own fill for a basket: the quantity at the basket price, paid
/// by a buy and received by a sell.
pub open spec fn basket_fill(taker: Taker, price: int, taken: int) -> FillView {
    FillView { order: taker.id, quantity: taken, cost: signed_cost(taker.side, price * taken) }
}

/// The order takes `taken` as a basket at `price`: one leg in every other
/// book, then its own fill.
pub open spec fn basket_step(p: Progress, taker: Taker, price: int, taken: int) -> Progress {
    let legs = legs_upto(p, taker, taken, p.books.len() as int);
    Progress {
        books: legs.books,
        remaining: p.remaining - taken,
        totals: merged(legs.totals, basket_fill(taker, price, taken)),
    }
}

/// Whether the sums of that step fit.
pub open spec fn basket_step_fits(p: Progress, taker: Taker, price: int, taken: int) -> bool {
    let legs = legs_upto(p, taker, taken, p.books.len() as int);
    &&& legs_fit_upto(p, taker, taken, p.books.len() as int)
    &&& in_range(price * taken)
    &&& merge_fits(legs.totals, basket_fill(taker, price, taken))
}

/// How much the next step takes on `path`.
pub open spec fn step_quantity(path: Path, own_quantity: int, basket_quantity: int, remaining: int) -> int {
    match path {
        Path::Own => least(own_quantity, remaining),
        Path::Basket => least(basket_quantity, remaining),
        Path::Stop => 0,
    }
}

/// The path that the order takes next from `p`.
pub open spec fn next_path(contract_price: int, taker: Taker, p: Progress) -> Path {
    chosen_path(
        taker.side,
        taker.price,
        own_quote(p.books, contract_price, taker.outcome, taker.side).0,
        basket_price(p.books, contract_price, taker.outcome, taker.side),
        basket_quantity(p.books, taker.outcome, taker.side),
    )
}

/// How much the order takes next from `p`.
pub open spec fn next_quantity(contract_price: int, taker: Taker, p: Progress) -> int {
    step_quantity(
        next_path(contract_price, taker, p),
        own_quote(p.books, contract_price, taker.outcome, taker.side).1,
        basket_quantity(p.books, taker.outcome, taker.side),
        p.remaining,
    )
}

/// Where the order stands after its next step from `p`.
pub open spec fn next_progress(contract_price: int, taker: Taker, p: Progress) -> Progress {
    let taken = next_quantity(contract_price, taker, p);
    match next_path(contract_price, taker, p) {
        Path::Own => own_step(p, taker, taken),
        Path::Basket => basket_step(
            p,
            taker,
            basket_price(p.books, contract_price, taker.outcome, taker.side),
            taken,
        ),
        Path::Stop => p,
    }
}

/// Whether the order has come to rest at `p`: nothing remains, or nothing
/// more can be taken.
pub open spec fn at_rest(contract_price: int, taker: Taker, p: Progress) -> bool {
    p.remaining <= 0 || next_quantity(contract_price, taker, p) <= 0
}

/// Matching from `p` until the order comes to rest.
pub open spec fn run(contract_price: int, taker: Taker, p: Progress) -> Progress
    decreases p.remaining,
{
    if at_rest(contract_price, taker, p) {
        p
    } else {
        run(contract_price, taker, next_progress(contract_price, taker, p))
    }
}

/// Whether every sum fits on the way from `p` to where the order comes to rest.
pub open spec fn run_fits(contract_price: int, taker: Taker, p: Progress) -> bool
    decreases p.remaining,
{
    if p.remaining <= 0 {
        true
    } else if !quotes_fit(p.books, contract_price, taker.outcome, taker.side) {
        false
    } else if at_rest(contract_price, taker, p) {
        true
    } else {
        let taken = next_quantity(contract_price, taker, p);
        &&& match next_path(contract_price, taker, p) {
            Path::Own => own_step_fits(p, taker, taken),
            Path::Basket => basket_step_fits(
                p,
                taker,
                basket_price(p.books, contract_price, taker.outcome, taker.side),
                taken,
            ),
            Path::Stop => true,
        }
        &&& run_fits(contract_price, taker, next_progress(contract_price, taker, p))
    }
}

/// The limit order `id` on `outcome`, as matching sees it.
pub open spec fn taker_of(id: u64, outcome: int, side: Side, price: int) -> Taker {
    Taker { id, outcome, side, price }
}

/// A call in flight: the market's books, what remains, the fills so far.
pub open spec fn at(market: MarketView, remaining: int, totals: Map<u64, FillView>) -> Progress {
    Progress { books: market.books, remaining, totals }
}

/// Where a limit order of `quantity` comes to rest in `market`.
pub open spec fn matched(market: MarketView, taker: Taker, quantity: int) -> Progress {
    run(market.contract_price, taker, start(market, quantity))
}

/// Whether every sum fits while a limit order of `quantity` is matched in `market`.
pub open spec fn fits(market: MarketView, taker: Taker, quantity: int) -> bool {
    run_fits(market.contract_price, taker, start(market, quantity))
}

/// Where matching starts: the market's books, the whole quantity, no fill.
pub open spec fn start(market: MarketView, quantity: int) -> Progress {
    Progress { books: market.books, remaining: quantity, totals: Map::empty() }
}

/// The books once what remains of the order rests on its own side.
pub open spec fn settled(taker: Taker, p: Progress) -> Seq<BookView> {
    if p.remaining > 0 {
        p.books.update(
            taker.outcome,
            p.books[taker.outcome].with_side(
                taker.side,
                inserted(
                    p.books[taker.outcome].side(taker.side),
                    taker.side,
                    RestingOrder { id: taker.id, price: taker.price, quantity: p.remaining },
                ),
            ),
        )
    } else {
        p.books
    }
}

} // verus!
