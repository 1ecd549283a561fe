use rust_pie_ob::{Amount, OrderMatch, PieOrderBook, Side};
use std::collections::BTreeMap;

#[derive(Clone, Copy, Debug, PartialEq)]
struct Resting {
    id: u64,
    price: i64,
    quantity: i64,
}

#[derive(Clone, Debug, Default)]
struct Book {
    bids: Vec<Resting>,
    asks: Vec<Resting>,
}

impl Book {
    fn side(&mut self, side: Side) -> &mut Vec<Resting> {
        match side {
            Side::Buy => &mut self.bids,
            Side::Sell => &mut self.asks,
        }
    }
}

struct Market {
    contract_price: i64,
    price_places: u32,
    quantity_places: u32,
    books: Vec<Book>,
}

/// `units` steps, written with `places` decimal places.
fn written(units: i64, places: u32) -> String {
    if places == 0 {
        return units.to_string();
    }
    let step = 10i64.pow(places);
    let sign = if units < 0 { "-" } else { "" };
    let size = units.abs();
    format!("{}{}.{:0width$}", sign, size / step, size % step, width = places as usize)
}

/// The quantity at the best price.
fn level_quantity(orders: &[Resting]) -> i64 {
    match orders.first() {
        None => 0,
        Some(first) => orders
            .iter()
            .take_while(|o| o.price == first.price)
            .map(|o| o.quantity)
            .sum(),
    }
}

/// Takes `quantity` from the front; the fills of the resting orders come
/// back as (id, quantity, price).
fn take(orders: &mut Vec<Resting>, mut quantity: i64) -> Vec<(u64, i64, i64)> {
    let mut fills = Vec::new();
    while quantity > 0 && !orders.is_empty() {
        let taken = quantity.min(orders[0].quantity);
        fills.push((orders[0].id, taken, orders[0].price));
        quantity -= taken;
        if taken == orders[0].quantity {
            orders.remove(0);
        } else {
            orders[0].quantity -= taken;
        }
    }
    fills
}

fn rest(orders: &mut Vec<Resting>, side: Side, order: Resting) {
    let place = orders
        .iter()
        .position(|o| match side {
            Side::Buy => o.price < order.price,
            Side::Sell => o.price > order.price,
        })
        .unwrap_or(orders.len());
    orders.insert(place, order);
}

fn merge(totals: &mut BTreeMap<u64, (i64, i64)>, id: u64, quantity: i64, cost: i64) {
    let entry = totals.entry(id).or_insert((0, 0));
    entry.0 += quantity;
    entry.1 += cost;
}

impl Market {
    fn new(contract_price: i64, outcomes: usize, price_places: u32, quantity_places: u32) -> Market {
        Market {
            contract_price,
            price_places,
            quantity_places,
            books: vec![Book::default(); outcomes],
        }
    }

    fn submit(
        &mut self,
        id: u64,
        outcome: usize,
        side: Side,
        price: i64,
        quantity: i64,
    ) -> Option<BTreeMap<u64, (i64, i64)>> {
        if outcome >= self.books.len() || price <= 0 || price >= self.contract_price || quantity <= 0
        {
            return None;
        }
        let mut totals = BTreeMap::new();
        let mut remaining = quantity;
        while remaining > 0 {
            let other = self.books[outcome].side(side.opposite()).clone();
            let (own_price, own_quantity) = match other.first() {
                Some(first) => (first.price, level_quantity(&other)),
                None => match side {
                    Side::Buy => (self.contract_price, 0),
                    Side::Sell => (0, 0),
                },
            };
            let mut basket_price = self.contract_price;
            let mut basket_quantity = i64::MAX;
            for j in 0..self.books.len() {
                if j != outcome {
                    let leg = self.books[j].side(side).clone();
                    basket_price -= leg.first().map_or(0, |o| o.price);
                    basket_quantity = basket_quantity.min(level_quantity(&leg));
                }
            }
            let basket_open = basket_quantity != 0;
            let (own, basket) = match side {
                Side::Buy => (
                    price >= own_price && !(own_price > basket_price && basket_open),
                    price >= basket_price && basket_open,
                ),
                Side::Sell => (
                    price <= own_price && !(own_price < basket_price && basket_open),
                    price <= basket_price && basket_open,
                ),
            };
            // what the maker pays is what the taker receives
            let taker_sign = match side {
                Side::Buy => 1,
                Side::Sell => -1,
            };
            if own {
                let taken = own_quantity.min(remaining);
                let fills = take(self.books[outcome].side(side.opposite()), taken);
                let mut value = 0;
                for (maker, quantity, at) in fills {
                    merge(&mut totals, maker, quantity, -taker_sign * at * quantity);
                    value += at * quantity;
                }
                merge(&mut totals, id, taken, taker_sign * value);
                remaining -= taken;
            } else if basket {
                let taken = basket_quantity.min(remaining);
                for j in 0..self.books.len() {
                    if j != outcome {
                        for (maker, quantity, at) in take(self.books[j].side(side), taken) {
                            merge(&mut totals, maker, quantity, taker_sign * at * quantity);
                        }
                    }
                }
                merge(&mut totals, id, taken, taker_sign * basket_price * taken);
                remaining -= taken;
            } else {
                break;
            }
        }
        if remaining > 0 {
            rest(self.books[outcome].side(side), side, Resting { id, price, quantity: remaining });
        }
        Some(totals)
    }

    fn cancel(&mut self, outcome: usize, id: u64) -> bool {
        if outcome >= self.books.len() {
            return false;
        }
        let book = &mut self.books[outcome];
        let before = book.bids.len() + book.asks.len();
        book.bids.retain(|o| o.id != id);
        book.asks.retain(|o| o.id != id);
        book.bids.len() + book.asks.len() < before
    }

    fn render(&self) -> String {
        let price = |units: i64| written(units, self.price_places);
        let quantity = |units: i64| written(units, self.quantity_places);
        let mut text = format!("Contract Price: {}\n", price(self.contract_price));
        for (i, book) in self.books.iter().enumerate() {
            text += &format!("\n-----OUTCOME ORDERBOOK {}-----\n", i);
            text += &format!("{:->18}{:->18}{:->18}{:->18}\n", "ID", "SIDE", "PRICE", "QUANTITY");
            for o in book.asks.iter().rev() {
                text += &format!(
                    "{:>18}{:>18}{:>18}{:>18}\n",
                    o.id,
                    "Sell",
                    price(o.price),
                    quantity(o.quantity)
                );
            }
            for o in book.bids.iter() {
                text += &format!(
                    "{:>18}{:>18}{:>18}{:>18}\n",
                    o.id,
                    "Buy",
                    price(o.price),
                    quantity(o.quantity)
                );
            }
        }
        text
    }

    fn resting(&self) -> Vec<(usize, u64)> {
        let mut all = Vec::new();
        for (i, book) in self.books.iter().enumerate() {
            for o in book.bids.iter().chain(book.asks.iter()) {
                all.push((i, o.id));
            }
        }
        all
    }
}

struct Dice(u64);

impl Dice {
    fn roll(&mut self, sides: u64) -> u64 {
        self.0 = self.0.wrapping_mul(6364136223846793005).wrapping_add(1442695040888963407);
        (self.0 >> 33) % sides
    }
}

fn as_totals(fills: Vec<OrderMatch>) -> BTreeMap<u64, (i64, i64)> {
    let count = fills.len();
    let totals: BTreeMap<u64, (i64, i64)> = fills
        .into_iter()
        .map(|f| (f.order, (f.quantity.units() as i64, f.cost.units() as i64)))
        .collect();
    // each id once
    assert_eq!(totals.len(), count);
    totals
}

fn play(seed: u64, contract_price: i64, outcomes: usize, steps: usize) {
    play_with_places(seed, contract_price, outcomes, steps, 0, 0);
}

fn play_with_places(
    seed: u64,
    contract_price: i64,
    outcomes: usize,
    steps: usize,
    price_places: u32,
    quantity_places: u32,
) {
    let mut dice = Dice(seed);
    let mut pie = PieOrderBook::with_places(
        Amount::from_i64(contract_price),
        outcomes,
        price_places,
        quantity_places,
    );
    let mut market = Market::new(contract_price, outcomes, price_places, quantity_places);
    let mut next_id = 1;
    for _ in 0..steps {
        let resting = market.resting();
        match dice.roll(10) {
            0 if !resting.is_empty() => {
                let (outcome, id) = resting[dice.roll(resting.len() as u64) as usize];
                assert!(market.cancel(outcome, id));
                pie.cancel_order(outcome, id);
            },
            1 => {
                let outcome = dice.roll(outcomes as u64 + 1) as usize;
                let id = dice.roll(next_id + 3);
                assert_eq!(pie.try_cancel_order(outcome, id), market.cancel(outcome, id));
            },
            _ => {
                let outcome = dice.roll(outcomes as u64 + 1) as usize;
                let side = if dice.roll(2) == 0 { Side::Buy } else { Side::Sell };
                let price = dice.roll(contract_price as u64 + 2) as i64 - 1;
                let quantity = dice.roll(12) as i64 - 1;
                let id = next_id;
                let expected = market.submit(id, outcome, side, price, quantity);
                let got = pie.process_limit_order(
                    id,
                    outcome,
                    side,
                    Amount::from_i64(price),
                    Amount::from_i64(quantity),
                );
                assert_eq!(got.is_ok(), expected.is_some());
                if let (Ok(fills), Some(totals)) = (got, expected) {
                    next_id += 1;
                    let got = as_totals(fills);
                    assert_eq!(got, totals);
                    // what the order traded and what rests of it make up its quantity
                    let traded = got.get(&id).map_or(0, |f| f.0);
                    let own = &market.books[outcome];
                    let rests = own
                        .bids
                        .iter()
                        .chain(own.asks.iter())
                        .find(|o| o.id == id)
                        .map_or(0, |o| o.quantity);
                    assert_eq!(traded + rests, quantity);
                }
            },
        }
        assert_eq!(pie.render(), market.render());
    }
}

#[test]
fn two_outcomes_follow_the_rules() {
    for seed in 0..20 {
        play(seed, 10, 2, 300);
    }
}

#[test]
fn three_outcomes_follow_the_rules() {
    for seed in 100..120 {
        play(seed, 20, 3, 300);
    }
}

#[test]
fn five_outcomes_follow_the_rules() {
    for seed in 200..220 {
        play(seed, 100, 5, 300);
    }
}

#[test]
fn narrow_prices_follow_the_rules() {
    for seed in 300..330 {
        play(seed, 4, 3, 200);
    }
}

#[test]
fn decimal_places_follow_the_rules() {
    for seed in 400..410 {
        play_with_places(seed, 10, 2, 200, 1, 0);
        play_with_places(seed, 20, 3, 200, 2, 3);
        play_with_places(seed, 100, 4, 200, 0, 5);
        play_with_places(seed, 7, 3, 200, 9, 9);
    }
}
