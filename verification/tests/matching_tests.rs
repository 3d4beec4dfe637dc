use orderbook::Order;
use orderbook::OrderBook;
use orderbook::Price;
use orderbook::Side;
use orderbook::TickerSymbol;
use orderbook::TimeStamp;

#[test]
fn test() {
    let mut orderbook = OrderBook::new("STNK");
    let buy = Order {
        user_id: 1,
        timestamp: TimeStamp::new(),
        price: Price::try_from("100.05").unwrap(),
        quantity: 100,
        side: Side::Buy,
    };
    let sell = Order {
        user_id: 2,
        timestamp: TimeStamp::new(),
        price: Price::try_from("99.95").unwrap(),
        quantity: 100,
        side: Side::Sell,
    };

    println!("{:?}", buy.price);

    orderbook.add_order(sell.clone());
    orderbook.add_order(buy.clone());
    orderbook.add_order(buy.clone());
    orderbook.add_order(sell.clone());
    println!("test");
}

#[test]
fn test_clear() {
    let mut orderbook = OrderBook::new("STNK");
    let buy = Order {
        user_id: 1,
        timestamp: TimeStamp::new(),
        price: Price::try_from("100.05").unwrap(),
        quantity: 100,
        side: Side::Buy,
    };
    let sell = Order {
        user_id: 2,
        timestamp: TimeStamp::new(),
        price: Price::try_from("99.95").unwrap(),
        quantity: 100,
        side: Side::Sell,
    };

    println!("{:?}", buy.price);

    orderbook.add_order(sell.clone());
    orderbook.add_order(buy.clone());
    println!("test");

    orderbook.clear();
}

#[test]
fn test_ticker_symbol() {
    let symbol = TickerSymbol::new("STNK");
    assert_eq!(symbol.to_string(), "STNK");

    let symbol = TickerSymbol::new("STN");
    assert_eq!(symbol.to_string(), "STN");

    let symbol = TickerSymbol::new("ST");
    assert_eq!(symbol.to_string(), "ST");

    let symbol = TickerSymbol::new("STNKY");
    assert_eq!(symbol.to_string(), "STNK");
}

fn order(user_id: u64, ts: u128, price: &str, quantity: u64, side: Side) -> Order {
    Order {
        user_id,
        timestamp: TimeStamp(ts),
        price: Price::try_from(price).unwrap(),
        quantity,
        side,
    }
}

#[test]
fn crossing_orders_trade_at_resting_price() {
    // sell 100 @ 99.95, then buy 100 @ 100.05: one trade of 100 at the
    // resting sell's price, and the book is empty afterwards
    let mut book = OrderBook::new("STNK");
    let sell = order(2, 10, "99.95", 100, Side::Sell);
    let buy = order(1, 11, "100.05", 100, Side::Buy);

    let trades = book.add_order(sell);
    assert_eq!(trades.len(), 0);

    let trades = book.add_order(buy);
    assert_eq!(trades.len(), 1);
    assert_eq!(trades[0].quantity, 100);
    assert_eq!(trades[0].price, Price::try_from("99.95").unwrap());
    assert_eq!(trades[0].buy_user, 1);
    assert_eq!(trades[0].sell_user, 2);

    assert_eq!(book.clear().len(), 0);
}

#[test]
fn fifo_fills_at_equal_price() {
    // buy 50 @ 100.00, buy 100 @ 100.00, then sell 120 @ 99.00: two trades
    // totaling 120 in FIFO order (50 first, then 70 of the second order);
    // the second buy rests with quantity 30 at 100.00
    let mut book = OrderBook::new("STNK");
    book.add_order(order(1, 10, "100.00", 50, Side::Buy));
    book.add_order(order(2, 11, "100.00", 100, Side::Buy));

    let trades = book.add_order(order(3, 12, "99.00", 120, Side::Sell));
    assert_eq!(trades.len(), 2);
    assert_eq!(trades[0].quantity, 50);
    assert_eq!(trades[0].buy_user, 1);
    assert_eq!(trades[0].price, Price::try_from("100.00").unwrap());
    assert_eq!(trades[1].quantity, 70);
    assert_eq!(trades[1].buy_user, 2);
    assert_eq!(trades[1].price, Price::try_from("100.00").unwrap());
    assert_eq!(trades[0].quantity + trades[1].quantity, 120);

    let resting = book.clear();
    assert_eq!(resting.len(), 1);
    assert_eq!(resting[0].user_id, 2);
    assert_eq!(resting[0].quantity, 30);
    assert_eq!(resting[0].price, Price::try_from("100.00").unwrap());
}

#[test]
fn cancelled_order_never_trades() {
    // buy 100 @ 100.00, cancel it, then sell 100 @ 99.00: no trades, and
    // the sell rests at 99.00
    let mut book = OrderBook::new("STNK");
    let buy = order(1, 10, "100.00", 100, Side::Buy);
    book.add_order(buy);

    let removed = book.cancel_order(&buy).unwrap();
    assert_eq!(removed.user_id, 1);
    assert_eq!(removed.quantity, 100);

    let sell = order(2, 11, "99.00", 100, Side::Sell);
    let trades = book.add_order(sell);
    assert_eq!(trades.len(), 0);

    let resting = book.clear();
    assert_eq!(resting.len(), 1);
    assert_eq!(resting[0].user_id, 2);
    assert_eq!(resting[0].price, Price::try_from("99.00").unwrap());
}

#[test]
fn better_price_fills_first() {
    // asks at 98.00 and 99.00: an incoming buy exhausts the lower ask
    // before touching the higher one
    let mut book = OrderBook::new("STNK");
    book.add_order(order(11, 10, "99.00", 40, Side::Sell));
    book.add_order(order(10, 11, "98.00", 100, Side::Sell));

    let trades = book.add_order(order(1, 12, "100.00", 120, Side::Buy));
    assert_eq!(trades.len(), 2);
    assert_eq!(trades[0].sell_user, 10);
    assert_eq!(trades[0].quantity, 100);
    assert_eq!(trades[0].price, Price::try_from("98.00").unwrap());
    assert_eq!(trades[1].sell_user, 11);
    assert_eq!(trades[1].quantity, 20);
    assert_eq!(trades[1].price, Price::try_from("99.00").unwrap());

    // the remainder of the 99.00 ask still rests
    let resting = book.clear();
    assert_eq!(resting.len(), 1);
    assert_eq!(resting[0].user_id, 11);
    assert_eq!(resting[0].quantity, 20);
}

#[test]
fn quantity_is_conserved_on_partial_fill() {
    // an incoming sell of 80 against a resting buy of 50: one trade of 50,
    // and the 30 left over rests on the sell side
    let mut book = OrderBook::new("STNK");
    book.add_order(order(1, 10, "100.00", 50, Side::Buy));

    let trades = book.add_order(order(2, 11, "100.00", 80, Side::Sell));
    let filled: u64 = trades.iter().map(|t| t.quantity).sum();
    assert_eq!(filled, 50);

    let resting = book.clear();
    assert_eq!(resting.len(), 1);
    assert_eq!(resting[0].user_id, 2);
    assert_eq!(resting[0].side, Side::Sell);
    assert_eq!(resting[0].quantity, 80 - filled);
}

#[test]
fn cancel_missing_order_reports_not_found() {
    let mut book = OrderBook::new("STNK");
    let buy = order(1, 10, "100.00", 100, Side::Buy);
    assert!(book.cancel_order(&buy).is_err());

    book.add_order(buy);
    // same user, another timestamp: a different identity
    let other = order(1, 99, "100.00", 100, Side::Buy);
    assert!(book.cancel_order(&other).is_err());
    // wrong price: the level is not found
    let wrong_price = order(1, 10, "101.00", 100, Side::Buy);
    assert!(book.cancel_order(&wrong_price).is_err());

    // the resting order itself is still there and cancellable
    assert!(book.cancel_order(&buy).is_ok());
    assert!(book.cancel_order(&buy).is_err());
}

#[test]
fn cancel_leaves_other_orders_untouched() {
    let mut book = OrderBook::new("STNK");
    let a = order(1, 10, "100.00", 10, Side::Buy);
    let b = order(2, 11, "100.00", 20, Side::Buy);
    let c = order(3, 12, "101.00", 30, Side::Buy);
    book.add_order(a);
    book.add_order(b);
    book.add_order(c);

    let removed = book.cancel_order(&b).unwrap();
    assert_eq!(removed.user_id, 2);
    assert_eq!(removed.quantity, 20);

    // best bid first: c at 101.00, then a at 100.00
    let resting = book.clear();
    assert_eq!(resting.len(), 2);
    assert_eq!(resting[0].user_id, 3);
    assert_eq!(resting[1].user_id, 1);
}

#[test]
fn clear_returns_both_sides_and_empties_the_book() {
    let mut book = OrderBook::new("STNK");
    let bid = order(1, 10, "100.00", 10, Side::Buy);
    let ask_low = order(2, 11, "101.00", 20, Side::Sell);
    let ask_high = order(3, 12, "102.00", 30, Side::Sell);
    book.add_order(bid);
    book.add_order(ask_high);
    book.add_order(ask_low);

    // bids first, then asks best (lowest) first; each order exactly once
    let resting = book.clear();
    assert_eq!(resting.len(), 3);
    assert_eq!(resting[0], bid);
    assert_eq!(resting[1], ask_low);
    assert_eq!(resting[2], ask_high);

    assert_eq!(book.clear().len(), 0);
}

#[test]
fn zero_quantity_order_neither_trades_nor_rests() {
    let mut book = OrderBook::new("STNK");
    book.add_order(order(1, 10, "100.00", 100, Side::Sell));

    let trades = book.add_order(order(2, 11, "100.00", 0, Side::Buy));
    assert_eq!(trades.len(), 0);

    let resting = book.clear();
    assert_eq!(resting.len(), 1);
    assert_eq!(resting[0].user_id, 1);
}
