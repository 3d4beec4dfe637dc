use orderbook::Order;
use orderbook::ParseError;
use orderbook::Price;
use orderbook::Side;
use orderbook::TickerSymbol;
use orderbook::TimeStamp;
use orderbook::Trade;

#[test]
fn parse_normalizes_to_five_fractional_digits() {
    let p = Price::try_from("100.05").unwrap();
    assert_eq!(p, Price { integral: 100, fractional: 5000 });

    let p = Price::try_from("0.5").unwrap();
    assert_eq!(p, Price { integral: 0, fractional: 50000 });

    let p = Price::try_from("7.00001").unwrap();
    assert_eq!(p, Price { integral: 7, fractional: 1 });

    // no fractional part at all
    let p = Price::try_from("100").unwrap();
    assert_eq!(p, Price { integral: 100, fractional: 0 });

    // anything after a second dot is ignored
    let p = Price::try_from("1.2.3").unwrap();
    assert_eq!(p, Price { integral: 1, fractional: 20000 });
}

#[test]
fn parse_rejects_bad_integral() {
    assert_eq!(Price::try_from(""), Err(ParseError::BadIntegral));
    assert_eq!(Price::try_from(".5"), Err(ParseError::BadIntegral));
    assert_eq!(Price::try_from("abc"), Err(ParseError::BadIntegral));
    assert_eq!(Price::try_from("12a.5"), Err(ParseError::BadIntegral));
    // one past u64::MAX
    assert_eq!(
        Price::try_from("18446744073709551616"),
        Err(ParseError::BadIntegral)
    );
    // exactly u64::MAX still parses
    assert_eq!(
        Price::try_from("18446744073709551615"),
        Ok(Price { integral: u64::MAX, fractional: 0 })
    );
}

#[test]
fn parse_rejects_bad_fractional() {
    assert_eq!(Price::try_from("100."), Err(ParseError::BadFractional));
    assert_eq!(Price::try_from("100.x"), Err(ParseError::BadFractional));
    assert_eq!(Price::try_from("100.5a"), Err(ParseError::BadFractional));
}

#[test]
fn parse_rejects_too_long_fractional() {
    // six digits are refused, not rounded
    assert_eq!(Price::try_from("1.123456"), Err(ParseError::FractionalTooLong));
    // length is checked before the digits
    assert_eq!(Price::try_from("1.abcdef"), Err(ParseError::FractionalTooLong));
    assert_eq!(
        Price::try_from("1.12345"),
        Ok(Price { integral: 1, fractional: 12345 })
    );
}

#[test]
fn display_pads_to_five_digits() {
    assert_eq!(Price::try_from("100.05").unwrap().to_string(), "100.05000");
    assert_eq!(Price::try_from("0.00001").unwrap().to_string(), "0.00001");
    assert_eq!(Price::try_from("0").unwrap().to_string(), "0.00000");
    assert_eq!(Price::try_from("42.12345").unwrap().to_string(), "42.12345");
    assert_eq!(Price::try_from("10").unwrap().to_string(), "10.00000");
}

#[test]
fn price_orders_by_integral_then_fractional() {
    let a = Price::try_from("99.95").unwrap();
    let b = Price::try_from("100.05").unwrap();
    let c = Price::try_from("100.06").unwrap();
    assert!(a.lt(&b));
    assert!(b.lt(&c));
    assert!(a.le(&a));
    assert!(!b.lt(&a));
    assert!(!c.le(&b));
}

#[test]
fn ticker_symbol_trims_and_rejects_non_ascii() {
    assert_eq!(TickerSymbol::new("").to_string(), "");
    assert_eq!(TickerSymbol::new("A").to_string(), "A");
    // truncating a multi-byte character leaves non-ASCII bytes
    assert_eq!(TickerSymbol::new("ABé").to_string(), "NULL");
}

#[test]
fn trade_from_orders_records_both_users() {
    let buy = Order {
        user_id: 7,
        timestamp: TimeStamp(1),
        price: Price::try_from("100.05").unwrap(),
        quantity: 5,
        side: Side::Buy,
    };
    let sell = Order {
        user_id: 8,
        timestamp: TimeStamp(2),
        price: Price::try_from("99.95").unwrap(),
        quantity: 5,
        side: Side::Sell,
    };
    let t: Trade = Trade::from_orders(&buy, &sell, sell.price, 5);
    assert_eq!(t.quantity, 5);
    assert_eq!(t.price, sell.price);
    assert_eq!(t.buy_user, 7);
    assert_eq!(t.sell_user, 8);
}
