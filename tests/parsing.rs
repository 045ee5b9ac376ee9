use order_matching::order::{Order, OrderType};
use order_matching::parse::{line2order, ParseError};

#[test]
fn reads_a_buy() {
    assert_eq!(
        line2order("2 Buy 5 BTC @ 100 USD"),
        Ok(Order { id: 2, order_type: OrderType::Buy, price: 100, quantity: 5 })
    );
}

#[test]
fn reads_a_sell_with_suffix_and_extra_spaces() {
    assert_eq!(
        line2order("  17:abc:d\tSell  3 BTC @ 250 USD \n"),
        Ok(Order { id: 17, order_type: OrderType::Sell, price: 250, quantity: 3 })
    );
}

#[test]
fn unicode_whitespace_separates_words() {
    assert_eq!(
        line2order("4\u{a0}Sell\u{3000}1 BTC @ 9 USD"),
        Ok(Order { id: 4, order_type: OrderType::Sell, price: 9, quantity: 1 })
    );
}

#[test]
fn plus_sign_and_leading_zeros_are_numbers() {
    assert_eq!(
        line2order("+08 Buy +0012 BTC @ 007 USD"),
        Ok(Order { id: 8, order_type: OrderType::Buy, price: 7, quantity: 12 })
    );
}

#[test]
fn largest_numbers() {
    let line = format!("{} Sell {} BTC @ {} USD", usize::MAX, u32::MAX, u32::MAX);
    assert_eq!(
        line2order(&line),
        Ok(Order { id: usize::MAX, order_type: OrderType::Sell, price: u32::MAX, quantity: u32::MAX })
    );
}

#[test]
fn wrong_word_count_is_format_error() {
    assert_eq!(line2order("1 Buy 5 BTC @ 100"), Err(ParseError::InvalidFormat));
    assert_eq!(line2order("1 Buy 5 BTC @ 100 USD x"), Err(ParseError::InvalidFormat));
    assert_eq!(line2order(""), Err(ParseError::InvalidFormat));
}

#[test]
fn wrong_fixed_words_are_format_errors() {
    assert_eq!(line2order("1 Buy 5 ETH @ 100 USD"), Err(ParseError::InvalidFormat));
    assert_eq!(line2order("1 Buy 5 BTC at 100 USD"), Err(ParseError::InvalidFormat));
    assert_eq!(line2order("1 Buy 5 BTC @ 100 EUR"), Err(ParseError::InvalidFormat));
}

#[test]
fn bad_side_is_order_type_error() {
    assert_eq!(line2order("1 buy 5 BTC @ 100 USD"), Err(ParseError::InvalidOrderType));
    assert_eq!(line2order("1 Hold 5 BTC @ 100 USD"), Err(ParseError::InvalidOrderType));
}

#[test]
fn bad_numbers_are_number_errors() {
    assert_eq!(line2order("x Buy 5 BTC @ 100 USD"), Err(ParseError::InvalidNumber));
    assert_eq!(line2order(":1 Buy 5 BTC @ 100 USD"), Err(ParseError::InvalidNumber));
    assert_eq!(line2order("1 Buy -5 BTC @ 100 USD"), Err(ParseError::InvalidNumber));
    assert_eq!(line2order("1 Buy + BTC @ 100 USD"), Err(ParseError::InvalidNumber));
    assert_eq!(line2order("1 Buy 5 BTC @ 4294967296 USD"), Err(ParseError::InvalidNumber));
    assert_eq!(line2order("1 Buy 5 BTC @ 1e3 USD"), Err(ParseError::InvalidNumber));
}

#[test]
fn id_is_checked_before_side() {
    assert_eq!(line2order("x Hold 5 BTC @ 100 USD"), Err(ParseError::InvalidNumber));
    assert_eq!(line2order("1 Hold x BTC @ 100 USD"), Err(ParseError::InvalidOrderType));
}
