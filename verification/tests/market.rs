use rust_pie_ob::errors::ProcessLimitOrder;
use rust_pie_ob::fill_map::FillMap;
use rust_pie_ob::matching::{choose_path, Path};
use rust_pie_ob::{Amount, OrderMatch, PieOrderBook, Side};

fn amount(units: i64) -> Amount {
    Amount::from_i64(units)
}

fn fill(order: u64, quantity: i64, cost: i64) -> OrderMatch {
    OrderMatch { order, quantity: amount(quantity), cost: amount(cost) }
}

fn sorted(mut fills: Vec<OrderMatch>) -> Vec<OrderMatch> {
    fills.sort_by(|a, b| a.order.cmp(&b.order));
    fills
}

#[test]
fn two_outcomes_make_a_market() {
    let pie = PieOrderBook::new(amount(10), 2);
    assert_eq!(pie.outcomes(), 2);
    assert_eq!(pie.contract_price(), amount(10));
}

#[test]
fn validation_checks_each_bound() {
    let pie = PieOrderBook::new(amount(10), 3);
    assert!(pie.accepts(0, amount(1), amount(1)));
    assert!(pie.accepts(2, amount(9), amount(1)));
    assert!(!pie.accepts(3, amount(5), amount(1)));
    assert!(!pie.accepts(0, amount(0), amount(1)));
    assert!(!pie.accepts(0, amount(10), amount(1)));
    assert!(!pie.accepts(0, amount(5), amount(0)));
    assert!(!pie.accepts(0, amount(5), amount(-3)));
}

#[test]
fn rejected_order_changes_nothing() {
    let mut pie = PieOrderBook::new(amount(10), 2);
    assert_eq!(pie.process_limit_order(1, 0, Side::Buy, amount(3), amount(5)), Ok(vec![]));
    let before = pie.render();
    assert_eq!(
        pie.process_limit_order(2, 1, Side::Buy, amount(10), amount(5)),
        Err(ProcessLimitOrder::OrderValidationFailed)
    );
    assert_eq!(
        pie.process_limit_order(2, 2, Side::Buy, amount(8), amount(5)),
        Err(ProcessLimitOrder::OrderValidationFailed)
    );
    assert_eq!(
        pie.process_limit_order(2, 1, Side::Sell, amount(8), amount(0)),
        Err(ProcessLimitOrder::OrderValidationFailed)
    );
    assert_eq!(pie.render(), before);
    // the id of a rejected order is still free, and the resting bid is still there
    let res = pie.process_limit_order(2, 1, Side::Buy, amount(8), amount(5)).unwrap();
    assert_eq!(sorted(res), vec![fill(1, 5, 15), fill(2, 5, 35)]);
}

#[test]
fn own_book_match_walks_the_price_levels() {
    let mut pie = PieOrderBook::new(amount(10), 2);
    assert_eq!(pie.process_limit_order(1, 0, Side::Sell, amount(4), amount(4)), Ok(vec![]));
    assert_eq!(pie.process_limit_order(2, 0, Side::Sell, amount(3), amount(2)), Ok(vec![]));
    let res = pie.process_limit_order(3, 0, Side::Buy, amount(8), amount(3)).unwrap();
    assert_eq!(sorted(res), vec![fill(1, 1, -4), fill(2, 2, -6), fill(3, 3, 10)]);
}

#[test]
fn one_price_level_is_shared_in_arrival_order() {
    let mut pie = PieOrderBook::new(amount(10), 2);
    assert_eq!(pie.process_limit_order(1, 0, Side::Sell, amount(4), amount(2)), Ok(vec![]));
    assert_eq!(pie.process_limit_order(2, 0, Side::Sell, amount(4), amount(2)), Ok(vec![]));
    let res = pie.process_limit_order(3, 0, Side::Buy, amount(4), amount(3)).unwrap();
    assert_eq!(sorted(res), vec![fill(1, 2, -8), fill(2, 1, -4), fill(3, 3, 12)]);
    // one unit of order 2 is left at 4
    let res = pie.process_limit_order(4, 0, Side::Buy, amount(9), amount(5)).unwrap();
    assert_eq!(sorted(res), vec![fill(2, 1, -4), fill(4, 1, 4)]);
}

#[test]
fn remainder_rests_and_trades_later() {
    let mut pie = PieOrderBook::new(amount(10), 2);
    assert_eq!(pie.process_limit_order(1, 0, Side::Buy, amount(3), amount(5)), Ok(vec![]));
    // the basket costs 10 - 3 = 7 and has 5 units; 2 of the 7 units rest at 8
    let res = pie.process_limit_order(2, 1, Side::Buy, amount(8), amount(7)).unwrap();
    assert_eq!(sorted(res), vec![fill(1, 5, 15), fill(2, 5, 35)]);
    let res = pie.process_limit_order(3, 1, Side::Sell, amount(8), amount(4)).unwrap();
    assert_eq!(sorted(res), vec![fill(2, 2, 16), fill(3, 2, -16)]);
    // what is left of order 3 rests as an ask at 8
    let res = pie.process_limit_order(4, 1, Side::Buy, amount(9), amount(2)).unwrap();
    assert_eq!(sorted(res), vec![fill(3, 2, -16), fill(4, 2, 16)]);
}

#[test]
fn sell_takes_the_basket_of_asks() {
    let mut pie = PieOrderBook::new(amount(10), 2);
    assert_eq!(pie.process_limit_order(1, 0, Side::Sell, amount(4), amount(2)), Ok(vec![]));
    // the basket pays 10 - 4 = 6 for each of 2 units
    let res = pie.process_limit_order(2, 1, Side::Sell, amount(5), amount(2)).unwrap();
    assert_eq!(sorted(res), vec![fill(1, 2, -8), fill(2, 2, -12)]);
}

#[test]
fn sell_out_of_reach_of_the_basket_rests() {
    let mut pie = PieOrderBook::new(amount(10), 2);
    assert_eq!(pie.process_limit_order(1, 0, Side::Sell, amount(4), amount(2)), Ok(vec![]));
    // the basket pays 6, the order asks 7
    assert_eq!(pie.process_limit_order(2, 1, Side::Sell, amount(7), amount(2)), Ok(vec![]));
    let res = pie.process_limit_order(3, 1, Side::Buy, amount(7), amount(1)).unwrap();
    assert_eq!(sorted(res), vec![fill(2, 1, -7), fill(3, 1, 7)]);
}

#[test]
fn basket_needs_every_other_book() {
    let mut pie = PieOrderBook::new(amount(10), 3);
    assert_eq!(pie.process_limit_order(1, 0, Side::Buy, amount(3), amount(5)), Ok(vec![]));
    // the book of outcome 1 has no bid: no basket for a buy on outcome 2
    assert_eq!(pie.process_limit_order(2, 2, Side::Buy, amount(9), amount(5)), Ok(vec![]));
    // all of order 2 rests
    let res = pie.process_limit_order(3, 2, Side::Sell, amount(9), amount(6)).unwrap();
    assert_eq!(sorted(res), vec![fill(2, 5, 45), fill(3, 5, -45)]);
}

#[test]
fn basket_of_high_bids_pays_the_buyer() {
    let mut pie = PieOrderBook::new(amount(10), 3);
    assert_eq!(pie.process_limit_order(1, 0, Side::Buy, amount(3), amount(5)), Ok(vec![]));
    assert_eq!(pie.process_limit_order(2, 2, Side::Buy, amount(9), amount(5)), Ok(vec![]));
    // 10 - 3 - 9 = -2: the buyer of outcome 1 receives 2
    let res = pie.process_limit_order(3, 1, Side::Buy, amount(2), amount(1)).unwrap();
    assert_eq!(sorted(res), vec![fill(1, 1, 3), fill(2, 1, 9), fill(3, 1, -2)]);
}

#[test]
fn basket_takes_the_least_leg() {
    let mut pie = PieOrderBook::new(amount(10), 3);
    assert_eq!(pie.process_limit_order(1, 0, Side::Buy, amount(3), amount(5)), Ok(vec![]));
    assert_eq!(pie.process_limit_order(2, 1, Side::Buy, amount(2), amount(1)), Ok(vec![]));
    // 10 - 3 - 2 = 5, and the leg of outcome 1 has one unit
    let res = pie.process_limit_order(3, 2, Side::Buy, amount(9), amount(4)).unwrap();
    assert_eq!(sorted(res), vec![fill(1, 1, 3), fill(2, 1, 2), fill(3, 1, 5)]);
}

#[test]
fn buy_prefers_its_own_book_at_the_same_price() {
    let mut pie = PieOrderBook::new(amount(10), 2);
    assert_eq!(pie.process_limit_order(1, 0, Side::Buy, amount(4), amount(1)), Ok(vec![]));
    assert_eq!(pie.process_limit_order(2, 1, Side::Sell, amount(6), amount(1)), Ok(vec![]));
    // own ask 6, basket 10 - 4 = 6
    let res = pie.process_limit_order(3, 1, Side::Buy, amount(6), amount(1)).unwrap();
    assert_eq!(sorted(res), vec![fill(2, 1, -6), fill(3, 1, 6)]);
}

#[test]
fn sell_prefers_its_own_book_at_the_same_price() {
    let mut pie = PieOrderBook::new(amount(10), 2);
    assert_eq!(pie.process_limit_order(1, 0, Side::Sell, amount(4), amount(1)), Ok(vec![]));
    assert_eq!(pie.process_limit_order(2, 1, Side::Buy, amount(6), amount(1)), Ok(vec![]));
    // own bid 6, basket 10 - 4 = 6
    let res = pie.process_limit_order(3, 1, Side::Sell, amount(6), amount(1)).unwrap();
    assert_eq!(sorted(res), vec![fill(2, 1, 6), fill(3, 1, -6)]);
    // the ask of order 1 was not touched
    let res = pie.process_limit_order(4, 0, Side::Buy, amount(4), amount(1)).unwrap();
    assert_eq!(sorted(res), vec![fill(1, 1, -4), fill(4, 1, 4)]);
}

#[test]
fn sell_tie_leaves_the_other_book_alone() {
    let mut pie = PieOrderBook::new(amount(10), 2);
    assert_eq!(pie.process_limit_order(1, 0, Side::Buy, amount(4), amount(1)), Ok(vec![]));
    assert_eq!(pie.process_limit_order(2, 1, Side::Sell, amount(6), amount(1)), Ok(vec![]));
    // own bid 4, basket 10 - 6 = 4
    let res = pie.process_limit_order(3, 0, Side::Sell, amount(4), amount(1)).unwrap();
    assert_eq!(sorted(res), vec![fill(1, 1, 4), fill(3, 1, -4)]);
    assert!(pie.try_cancel_order(1, 2));
}

#[test]
fn sell_takes_the_basket_when_it_pays_more() {
    let mut pie = PieOrderBook::new(amount(10), 2);
    assert_eq!(pie.process_limit_order(1, 0, Side::Sell, amount(3), amount(1)), Ok(vec![]));
    assert_eq!(pie.process_limit_order(2, 1, Side::Buy, amount(6), amount(1)), Ok(vec![]));
    // own bid 6, basket 10 - 3 = 7
    let res = pie.process_limit_order(3, 1, Side::Sell, amount(6), amount(1)).unwrap();
    assert_eq!(sorted(res), vec![fill(1, 1, -3), fill(3, 1, -7)]);
}

#[test]
fn cancelled_order_is_gone() {
    let mut pie = PieOrderBook::new(amount(10), 2);
    assert_eq!(pie.process_limit_order(1, 0, Side::Buy, amount(3), amount(5)), Ok(vec![]));
    pie.cancel_order(0, 1);
    // nothing is left to form a basket with
    assert_eq!(pie.process_limit_order(2, 1, Side::Buy, amount(8), amount(3)), Ok(vec![]));
    // and a second cancel finds nothing
    assert!(!pie.try_cancel_order(0, 1));
}

#[test]
fn cancel_that_finds_nothing_changes_nothing() {
    let mut pie = PieOrderBook::new(amount(10), 2);
    assert_eq!(pie.process_limit_order(1, 0, Side::Buy, amount(3), amount(5)), Ok(vec![]));
    let before = pie.render();
    assert!(!pie.try_cancel_order(1, 1));
    assert!(!pie.try_cancel_order(2, 1));
    assert!(!pie.try_cancel_order(0, 7));
    assert_eq!(pie.render(), before);
    assert!(pie.try_cancel_order(0, 1));
    assert!(pie.render() != before);
}

#[test]
fn cancel_keeps_the_other_orders_in_place() {
    let mut pie = PieOrderBook::new(amount(10), 2);
    assert_eq!(pie.process_limit_order(1, 0, Side::Sell, amount(4), amount(1)), Ok(vec![]));
    assert_eq!(pie.process_limit_order(2, 0, Side::Sell, amount(4), amount(1)), Ok(vec![]));
    assert_eq!(pie.process_limit_order(3, 0, Side::Sell, amount(4), amount(1)), Ok(vec![]));
    pie.cancel_order(0, 2);
    let res = pie.process_limit_order(4, 0, Side::Buy, amount(4), amount(1)).unwrap();
    assert_eq!(sorted(res), vec![fill(1, 1, -4), fill(4, 1, 4)]);
    let res = pie.process_limit_order(5, 0, Side::Buy, amount(4), amount(1)).unwrap();
    assert_eq!(sorted(res), vec![fill(3, 1, -4), fill(5, 1, 4)]);
}

#[test]
fn traded_and_resting_quantity_add_up() {
    let mut pie = PieOrderBook::new(amount(100), 3);
    assert_eq!(pie.process_limit_order(1, 0, Side::Buy, amount(30), amount(4)), Ok(vec![]));
    assert_eq!(pie.process_limit_order(2, 1, Side::Buy, amount(20), amount(6)), Ok(vec![]));
    assert_eq!(pie.process_limit_order(3, 2, Side::Sell, amount(45), amount(3)), Ok(vec![]));
    // own ask 45 for 3, then the basket at 100 - 30 - 20 = 50 for 4
    let res = pie.process_limit_order(4, 2, Side::Buy, amount(60), amount(10)).unwrap();
    let own = res.iter().find(|f| f.order == 4).unwrap();
    assert_eq!(*own, fill(4, 7, 3 * 45 + 4 * 50));
    // the other 3 units rest as a bid at 60
    let res = pie.process_limit_order(5, 2, Side::Sell, amount(1), amount(9)).unwrap();
    let bid = res.iter().find(|f| f.order == 4).unwrap();
    assert_eq!(*bid, fill(4, 3, 180));
}

#[test]
fn path_goes_by_price_and_quantity() {
    let a = amount;
    // buy: own book when in reach and the basket is not cheaper
    assert_eq!(choose_path(Side::Buy, a(5), a(5), a(5), a(1)), Path::Own);
    assert_eq!(choose_path(Side::Buy, a(5), a(5), a(4), a(1)), Path::Basket);
    assert_eq!(choose_path(Side::Buy, a(5), a(5), a(4), a(0)), Path::Own);
    assert_eq!(choose_path(Side::Buy, a(5), a(6), a(5), a(1)), Path::Basket);
    assert_eq!(choose_path(Side::Buy, a(5), a(6), a(5), a(0)), Path::Stop);
    assert_eq!(choose_path(Side::Buy, a(5), a(6), a(6), a(1)), Path::Stop);
    // sell: own book when in reach and the basket does not pay more
    assert_eq!(choose_path(Side::Sell, a(5), a(5), a(5), a(1)), Path::Own);
    assert_eq!(choose_path(Side::Sell, a(5), a(5), a(6), a(1)), Path::Basket);
    assert_eq!(choose_path(Side::Sell, a(5), a(5), a(6), a(0)), Path::Own);
    assert_eq!(choose_path(Side::Sell, a(5), a(6), a(5), a(1)), Path::Own);
    assert_eq!(choose_path(Side::Sell, a(5), a(5), a(5), a(0)), Path::Own);
    assert_eq!(choose_path(Side::Sell, a(5), a(4), a(5), a(1)), Path::Basket);
    assert_eq!(choose_path(Side::Sell, a(5), a(4), a(5), a(0)), Path::Stop);
    assert_eq!(choose_path(Side::Sell, a(5), a(4), a(4), a(1)), Path::Stop);
}

#[test]
fn fills_of_one_order_are_summed() {
    let mut map = FillMap::new();
    map.add_order_match_to_map(&fill(7, 2, 10));
    map.add_order_match_to_map(&fill(3, 1, -4));
    map.add_order_match_to_map(&fill(7, 5, -3));
    assert_eq!(sorted(map.into_fills()), vec![fill(3, 1, -4), fill(7, 7, 7)]);
}

#[test]
fn first_fills_of_a_list_are_summed() {
    let mut map = FillMap::new();
    let fills = vec![fill(1, 1, 1), fill(2, 2, 2), fill(1, 3, 3), fill(9, 9, 9)];
    map.add_order_matches(&fills, 3);
    assert_eq!(sorted(map.into_fills()), vec![fill(1, 4, 4), fill(2, 2, 2)]);
}

#[test]
fn market_prints_its_price_and_books() {
    let pie = PieOrderBook::new(amount(10), 2);
    let header = "----------------ID--------------SIDE-------------PRICE----------QUANTITY\n";
    let expected = format!(
        "Contract Price: 10\n\n-----OUTCOME ORDERBOOK 0-----\n{}\n-----OUTCOME ORDERBOOK 1-----\n{}",
        header, header
    );
    assert_eq!(pie.render(), expected);
}

#[test]
fn market_prints_its_resting_orders() {
    let mut pie = PieOrderBook::new(amount(10), 2);
    assert_eq!(pie.process_limit_order(12, 1, Side::Buy, amount(3), amount(5)), Ok(vec![]));
    let text = pie.render();
    let row = format!("{:>18}{:>18}{:>18}{:>18}\n", 12, "Buy", 3, 5);
    assert!(text.ends_with(&row));
}

#[test]
fn large_amounts_stay_exact() {
    let price = Amount::new(1i128 << 39).unwrap();
    let quantity = Amount::new(1i128 << 50).unwrap();
    let mut pie = PieOrderBook::new(Amount::new(1i128 << 40).unwrap(), 2);
    assert_eq!(pie.process_limit_order(1, 0, Side::Sell, price, quantity), Ok(vec![]));
    let res = pie.process_limit_order(2, 0, Side::Buy, price, quantity).unwrap();
    let cost = Amount::new(1i128 << 89).unwrap();
    assert_eq!(
        sorted(res),
        vec![
            OrderMatch { order: 1, quantity, cost: cost.negative() },
            OrderMatch { order: 2, quantity, cost },
        ]
    );
    // a basket at 10 - 3, for a quantity beyond 64 bits
    let many = Amount::new(1i128 << 70).unwrap();
    let three = Amount::from_i64(3);
    let mut pie = PieOrderBook::new(Amount::from_i64(10), 2);
    assert_eq!(pie.process_limit_order(1, 0, Side::Buy, three, many), Ok(vec![]));
    let res = pie.process_limit_order(2, 1, Side::Buy, Amount::from_i64(8), many).unwrap();
    assert_eq!(
        sorted(res),
        vec![
            OrderMatch { order: 1, quantity: many, cost: Amount::new(3i128 << 70).unwrap() },
            OrderMatch { order: 2, quantity: many, cost: Amount::new(7i128 << 70).unwrap() },
        ]
    );
}

#[test]
fn fewer_than_two_outcomes_make_no_market() {
    assert!(PieOrderBook::try_new(amount(10), 0).is_none());
    assert!(PieOrderBook::try_new(amount(10), 1).is_none());
    let pie = PieOrderBook::try_new(amount(10), 2).unwrap();
    assert_eq!(pie.outcomes(), 2);
    assert_eq!(pie.contract_price(), amount(10));
}

#[test]
fn basket_quote_is_the_rest_of_the_contract_price() {
    let mut pie = PieOrderBook::new(amount(100), 4);
    assert_eq!(pie.process_limit_order(1, 0, Side::Buy, amount(20), amount(2)), Ok(vec![]));
    assert_eq!(pie.process_limit_order(2, 0, Side::Buy, amount(20), amount(3)), Ok(vec![]));
    assert_eq!(pie.process_limit_order(3, 0, Side::Buy, amount(15), amount(9)), Ok(vec![]));
    assert_eq!(pie.process_limit_order(4, 1, Side::Buy, amount(50), amount(7)), Ok(vec![]));
    // one leg is empty: no quantity, and its price counts 0
    assert_eq!(
        pie.get_other_order_books_best_price_quantity(3, Side::Buy),
        (amount(30), amount(0))
    );
    assert_eq!(pie.process_limit_order(5, 2, Side::Buy, amount(40), amount(6)), Ok(vec![]));
    // 100 - 20 - 50 - 40, and the least of 5, 7 and 6
    assert_eq!(
        pie.get_other_order_books_best_price_quantity(3, Side::Buy),
        (amount(-10), amount(5))
    );
    assert_eq!(
        pie.get_other_order_books_best_price_quantity(0, Side::Buy),
        (amount(10), amount(0))
    );
    assert_eq!(
        pie.get_other_order_books_best_price_quantity(3, Side::Sell),
        (amount(100), amount(0))
    );
}

#[test]
fn own_quote_is_the_best_level_or_the_default() {
    let mut pie = PieOrderBook::new(amount(100), 2);
    assert_eq!(pie.process_limit_order(1, 0, Side::Sell, amount(30), amount(2)), Ok(vec![]));
    assert_eq!(pie.process_limit_order(2, 0, Side::Sell, amount(30), amount(3)), Ok(vec![]));
    assert_eq!(pie.process_limit_order(3, 0, Side::Sell, amount(31), amount(9)), Ok(vec![]));
    assert_eq!(
        pie.get_order_book_best_price_quantity(0, Side::Sell, amount(100)),
        (amount(30), amount(5))
    );
    assert_eq!(
        pie.get_order_book_best_price_quantity(0, Side::Buy, amount(0)),
        (amount(0), amount(0))
    );
    assert_eq!(
        pie.get_order_book_best_price_quantity(1, Side::Sell, amount(100)),
        (amount(100), amount(0))
    );
}

#[test]
fn market_with_decimal_places_trades_in_steps() {
    // contract price 1.0; prices with one place, quantities with two
    let mut pie = PieOrderBook::with_places(amount(10), 2, 1, 2);
    assert_eq!(pie.price_places(), 1);
    assert_eq!(pie.quantity_places(), 2);
    // buy 1.50 of outcome 0 at 0.3
    assert_eq!(pie.process_limit_order(1, 0, Side::Buy, amount(3), amount(150)), Ok(vec![]));
    // buy 1.00 of outcome 1 at 0.8: the basket costs 1.0 - 0.3 = 0.7
    let res = pie.process_limit_order(2, 1, Side::Buy, amount(8), amount(100)).unwrap();
    // costs 0.300 and 0.700, with three places
    assert_eq!(sorted(res), vec![fill(1, 100, 300), fill(2, 100, 700)]);
    let header = "----------------ID--------------SIDE-------------PRICE----------QUANTITY\n";
    let row = format!("{:>18}{:>18}{:>18}{:>18}\n", 1, "Buy", "0.3", "0.50");
    let expected = format!(
        "Contract Price: 1.0\n\n-----OUTCOME ORDERBOOK 0-----\n{}{}\n-----OUTCOME ORDERBOOK 1-----\n{}",
        header, row, header
    );
    assert_eq!(pie.render(), expected);
    // sell 0.75 of outcome 0 at 0.2: 0.50 at 0.3 in its own book, 0.25 rests
    let res = pie.process_limit_order(3, 0, Side::Sell, amount(2), amount(75)).unwrap();
    assert_eq!(sorted(res), vec![fill(1, 50, 150), fill(3, 50, -150)]);
    let res = pie.process_limit_order(4, 0, Side::Buy, amount(9), amount(25)).unwrap();
    assert_eq!(sorted(res), vec![fill(3, 25, -50), fill(4, 25, 50)]);
}

#[test]
fn places_are_twenty_eight_at_most() {
    assert!(PieOrderBook::try_with_places(amount(10), 2, 28, 0).is_some());
    assert!(PieOrderBook::try_with_places(amount(10), 2, 14, 14).is_some());
    assert!(PieOrderBook::try_with_places(amount(10), 2, 0, 28).is_some());
    assert!(PieOrderBook::try_with_places(amount(10), 2, 15, 14).is_none());
    assert!(PieOrderBook::try_with_places(amount(10), 2, 29, 0).is_none());
    assert!(PieOrderBook::try_with_places(amount(10), 2, u32::MAX, 2).is_none());
    assert!(PieOrderBook::try_with_places(amount(10), 1, 1, 1).is_none());
    let pie = PieOrderBook::try_with_places(amount(10), 3, 4, 6).unwrap();
    assert_eq!((pie.outcomes(), pie.price_places(), pie.quantity_places()), (3, 4, 6));
    let pie = PieOrderBook::new(amount(10), 3);
    assert_eq!((pie.price_places(), pie.quantity_places()), (0, 0));
}

#[test]
fn many_places_stay_exact() {
    // prices with 14 places, quantities with 14: a cost has 28
    let one = 100_000_000_000_000;
    let mut pie = PieOrderBook::with_places(amount(one), 2, 14, 14);
    assert_eq!(
        pie.process_limit_order(1, 0, Side::Sell, amount(one / 4), amount(2 * one)),
        Ok(vec![])
    );
    let res = pie.process_limit_order(2, 0, Side::Buy, amount(one / 2), amount(one)).unwrap();
    let cost = Amount::new((one / 4) as i128 * one as i128).unwrap();
    assert_eq!(
        sorted(res),
        vec![
            OrderMatch { order: 1, quantity: amount(one), cost: cost.negative() },
            OrderMatch { order: 2, quantity: amount(one), cost },
        ]
    );
    assert_eq!(cost.to_text(28), "0.2500000000000000000000000000");
}
