//! One outcome's limit order book, `rust_ob::OrderBook`, and the calls the
//! matching makes into it.

use vstd::prelude::*;
use crate::amount::{Amount, MAX_PLACES, MAX_UNITS};
use crate::book_model::{
    consumed, crosses, inserted, level_quantity, market_fills, matched_value, positive, removed,
    sorted, BookView, RestingOrder,
};
use crate::fill::{fill_views, OrderMatch};
use crate::side::Side;
use rust_ob::OrderBook;

verus! {

/// `rust_ob::OrderBook`, taken as it is: what is inside a book is known
/// only through [`resting_bids`] and [`resting_asks`].
#[verifier::external_type_specification]
#[verifier::external_body]
#[verifier::reject_recursive_types(OrderID)]
pub struct ExOrderBook<OrderID>(OrderBook<OrderID>);

/// The buy orders resting in `book`, in matching order: highest price first,
/// and among equal prices the order that came first. A price and a quantity
/// stand here as whole numbers of steps: the digits that they are written
/// with, without the point.
pub uninterp spec fn resting_bids(book: OrderBook<u64>) -> Seq<RestingOrder>;

/// The sell orders resting in `book`, in matching order: lowest price first,
/// and among equal prices the order that came first. A price and a quantity
/// stand here as whole numbers of steps: the digits that they are written
/// with, without the point.
pub uninterp spec fn resting_asks(book: OrderBook<u64>) -> Seq<RestingOrder>;

/// For each order resting in `book`, the decimal places that its price and
/// its quantity are written with.
pub uninterp spec fn resting_places(book: OrderBook<u64>) -> Seq<(nat, nat)>;

/// Whether every order resting in `book` has its price written with
/// `price_places` decimal places and its quantity with `quantity_places`.
pub open spec fn written_with(book: OrderBook<u64>, price_places: nat, quantity_places: nat) -> bool {
    forall|k: int|
        0 <= k < resting_places(book).len() ==> #[trigger] resting_places(book)[k] == (
            price_places,
            quantity_places,
        )
}

/// Whether a price and a quantity written with these places have a product
/// that can be written.
pub open spec fn places_fit(price_places: nat, quantity_places: nat) -> bool {
    price_places + quantity_places <= MAX_PLACES
}

/// The text that a book with these resting orders prints, where prices and
/// quantities are written with these places.
pub uninterp spec fn book_text(
    bids: Seq<RestingOrder>,
    asks: Seq<RestingOrder>,
    price_places: nat,
    quantity_places: nat,
) -> Seq<char>;

/// What `book` holds.
pub open spec fn book_view(book: OrderBook<u64>) -> BookView {
    BookView { bids: resting_bids(book), asks: resting_asks(book) }
}

/// `OrderBook::new`: a book in which nothing rests.
#[verifier::external_body]
pub(crate) fn new_book() -> (book: OrderBook<u64>)
    ensures
        resting_bids(book) == Seq::<RestingOrder>::empty(),
        resting_asks(book) == Seq::<RestingOrder>::empty(),
        resting_places(book) == Seq::<(nat, nat)>::empty(),
{
    OrderBook::new()
}

/// `OrderBook::get_highest_priority_price_quantity`: the best price on `side`
/// and the total quantity resting at that price, or `None` where nothing
/// rests there. All quantities must be written with the same places and
/// their total must fit: the book adds it up unchecked, and a sum of more
/// digits than fit would be rounded.
#[verifier::external_body]
pub(crate) fn best_level(book: &OrderBook<u64>, side: Side) -> (r: Option<(Amount, Amount)>)
    requires
        positive(book_view(*book).side(side)),
        level_quantity(book_view(*book).side(side)) <= MAX_UNITS,
        exists|p: nat, q: nat| written_with(*book, p, q),
    ensures
        r is None <==> book_view(*book).side(side).len() == 0,
        r matches Some((price, quantity)) ==> price@ == book_view(*book).side(side)[0].price
            && quantity@ == level_quantity(book_view(*book).side(side)),
{
    let s = match side {
        Side::Buy => rust_ob::Side::Buy,
        Side::Sell => rust_ob::Side::Sell,
    };
    match book.get_highest_priority_price_quantity(s) {
        Some((p, q)) => Some((Amount { units: p.mantissa() }, Amount { units: q.mantissa() })),
        None => None,
    }
}

/// `OrderBook::process_market_order`: an order of `side` takes `quantity`
/// from the front of the other side, each resting order at its own price.
/// It hands back the fills of the resting orders it traded with, in the
/// order in which they traded, and last its own. What the other side cannot
/// supply is dropped: nothing of the order stays in the book. The book
/// refuses an id that rests in it and a quantity that is not positive, and
/// adds up the money unchecked, so the total must fit. The quantity is
/// handed over with `places` decimal places, which must be those of every
/// resting quantity; a cost then has the places of a price and of a
/// quantity together, and is exact where those are 28 at most.
#[verifier::external_body]
pub(crate) fn market_order(
    book: &mut OrderBook<u64>,
    id: u64,
    side: Side,
    quantity: Amount,
    places: u32,
) -> (r: Option<Vec<OrderMatch>>)
    requires
        quantity@ > 0,
        !book_view(*old(book)).rests(id),
        positive(book_view(*old(book)).side(side.spec_opposite())),
        matched_value(book_view(*old(book)).side(side.spec_opposite()), quantity@) <= MAX_UNITS,
        exists|p: nat| places_fit(p, places as nat) && written_with(*old(book), p, places as nat),
    ensures
        forall|p: nat, q: nat|
            written_with(*old(book), p, q) ==> written_with(*final(book), p, q),
        r matches Some(fills) && fill_views(fills@) == market_fills(
            book_view(*old(book)).side(side.spec_opposite()),
            id,
            side,
            quantity@,
        ),
        book_view(*final(book)).side(side.spec_opposite()) == consumed(
            book_view(*old(book)).side(side.spec_opposite()),
            quantity@,
        ),
        book_view(*final(book)).side(side) == book_view(*old(book)).side(side),
{
    let s = match side {
        Side::Buy => rust_ob::Side::Buy,
        Side::Sell => rust_ob::Side::Sell,
    };
    let q = rust_decimal::Decimal::from_i128_with_scale(quantity.units, places);
    match book.process_market_order(id, s, q) {
        Ok(v) => Some(v.iter().map(|m| OrderMatch {
            order: m.order,
            quantity: Amount { units: m.quantity.mantissa() },
            cost: Amount { units: m.cost.mantissa() },
        }).collect()),
        Err(_) => None,
    }
}

/// `OrderBook::process_limit_order`, for an order that trades with nothing:
/// the other side is empty or its best price is out of the order's reach.
/// The order then rests on its own side, behind every order with a better
/// or the same price, and the call hands back no fill. The book refuses an id
/// that rests in it and a quantity that is not positive. Price and quantity
/// are handed over with the given decimal places, which must be those of
/// every resting order, so that prices compare as their steps do.
#[verifier::external_body]
pub(crate) fn rest_order(
    book: &mut OrderBook<u64>,
    id: u64,
    side: Side,
    price: Amount,
    quantity: Amount,
    price_places: u32,
    quantity_places: u32,
) -> (r: Option<Vec<OrderMatch>>)
    requires
        quantity@ > 0,
        price_places <= MAX_PLACES,
        quantity_places <= MAX_PLACES,
        written_with(*old(book), price_places as nat, quantity_places as nat),
        !book_view(*old(book)).rests(id),
        sorted(book_view(*old(book)).side(side), side),
        book_view(*old(book)).side(side.spec_opposite()).len() > 0 ==> !crosses(
            side,
            price@,
            book_view(*old(book)).side(side.spec_opposite())[0].price,
        ),
    ensures
        r is Some,
        r matches Some(fills) ==> fills@.len() == 0,
        written_with(*final(book), price_places as nat, quantity_places as nat),
        book_view(*final(book)).side(side) == inserted(
            book_view(*old(book)).side(side),
            side,
            (RestingOrder { id, price: price@, quantity: quantity@ }),
        ),
        book_view(*final(book)).side(side.spec_opposite()) == book_view(*old(book)).side(
            side.spec_opposite(),
        ),
{
    let s = match side {
        Side::Buy => rust_ob::Side::Buy,
        Side::Sell => rust_ob::Side::Sell,
    };
    let p = rust_decimal::Decimal::from_i128_with_scale(price.units, price_places);
    let q = rust_decimal::Decimal::from_i128_with_scale(quantity.units, quantity_places);
    match book.process_limit_order(id, s, p, q) {
        Ok(v) => Some(v.iter().map(|m| OrderMatch {
            order: m.order,
            quantity: Amount { units: m.quantity.mantissa() },
            cost: Amount { units: m.cost.mantissa() },
        }).collect()),
        Err(_) => None,
    }
}

/// `OrderBook::cancel_order`: takes the order with this id out of the book
/// and says whether there was one. Every other order keeps its place.
#[verifier::external_body]
pub(crate) fn cancel(book: &mut OrderBook<u64>, id: u64) -> (found: bool)
    ensures
        found == book_view(*old(book)).rests(id),
        resting_bids(*final(book)) == removed(resting_bids(*old(book)), id),
        resting_asks(*final(book)) == removed(resting_asks(*old(book)), id),
        forall|p: nat, q: nat|
            written_with(*old(book), p, q) ==> written_with(*final(book), p, q),
{
    book.cancel_order(id).is_ok()
}

/// `Display` of `OrderBook`: a table of the resting orders.
#[verifier::external_body]
pub(crate) fn book_to_text(book: &OrderBook<u64>) -> (r: String)
    ensures
        forall|p: nat, q: nat|
            written_with(*book, p, q) ==> r@ == book_text(
                resting_bids(*book),
                resting_asks(*book),
                p,
                q,
            ),
{
    format!("{}", book)
}

} // verus!
