use order_matching::book::RestingBook;
use order_matching::engine::processorder;
use order_matching::order::{Order, OrderType, RestingOrder, Trade};

fn sell(id: usize, quantity: u32, price: u32) -> Order {
    Order { id, order_type: OrderType::Sell, price, quantity }
}

fn buy(id: usize, quantity: u32, price: u32) -> Order {
    Order { id, order_type: OrderType::Buy, price, quantity }
}

fn trade(buy_id: usize, sell_id: usize, price: u32, quantity_traded: u32) -> Trade {
    Trade { buy_id, sell_id, price, quantity_traded }
}

fn drain(book: &mut RestingBook) -> Vec<(usize, u32, u32)> {
    let mut out = Vec::new();
    while let Some(e) = book.pop_min() {
        out.push((e.id, e.quantity, e.price));
    }
    out
}

fn run(orders: &[Order]) -> (RestingBook, Vec<Trade>) {
    let mut book = RestingBook::new();
    let mut trades = Vec::new();
    for o in orders {
        processorder(*o, &mut book, &mut trades);
    }
    (book, trades)
}

#[test]
fn scenario_full_fill() {
    let (mut book, trades) = run(&[sell(1, 5, 100), buy(2, 5, 100)]);
    assert_eq!(trades, vec![trade(2, 1, 100, 5)]);
    assert!(book.is_empty());
    assert_eq!(drain(&mut book), vec![]);
}

#[test]
fn scenario_partial_fill_rests() {
    let (mut book, trades) = run(&[sell(1, 10, 50), buy(2, 4, 50)]);
    assert_eq!(trades, vec![trade(2, 1, 50, 4)]);
    assert_eq!(drain(&mut book), vec![(1, 6, 50)]);
}

#[test]
fn scenario_price_gap_no_match() {
    let (mut book, trades) = run(&[sell(1, 5, 100), buy(2, 5, 90)]);
    assert!(trades.is_empty());
    assert_eq!(drain(&mut book), vec![(1, 5, 100)]);
}

#[test]
fn scenario_multi_level_sweep() {
    let (mut book, trades) = run(&[sell(1, 3, 10), sell(2, 3, 12), buy(3, 5, 12)]);
    assert_eq!(trades, vec![trade(3, 1, 10, 3), trade(3, 2, 12, 2)]);
    assert_eq!(drain(&mut book), vec![(2, 1, 12)]);
}

#[test]
fn lower_price_filled_before_higher() {
    let (mut book, trades) = run(&[sell(1, 4, 12), sell(2, 4, 10), buy(3, 8, 15)]);
    assert_eq!(trades, vec![trade(3, 2, 10, 4), trade(3, 1, 12, 4)]);
    assert!(book.is_empty());
    assert_eq!(drain(&mut book), vec![]);
}

#[test]
fn equal_prices_fill_in_arrival_order() {
    let (mut book, trades) = run(&[sell(7, 2, 20), sell(5, 2, 20), sell(6, 2, 20), buy(9, 5, 20)]);
    assert_eq!(trades, vec![trade(9, 7, 20, 2), trade(9, 5, 20, 2), trade(9, 6, 20, 1)]);
    assert_eq!(drain(&mut book), vec![(6, 1, 20)]);
}

#[test]
fn trade_price_is_resting_price_not_buy_limit() {
    let (_, trades) = run(&[sell(1, 3, 40), buy(2, 3, 95)]);
    assert_eq!(trades, vec![trade(2, 1, 40, 3)]);
}

#[test]
fn sweep_stops_at_limit_and_drops_remainder() {
    let (mut book, trades) = run(&[sell(1, 2, 10), sell(2, 2, 30), buy(3, 10, 20)]);
    assert_eq!(trades, vec![trade(3, 1, 10, 2)]);
    assert_eq!(drain(&mut book), vec![(2, 2, 30)]);
}

#[test]
fn unfilled_buy_never_rests() {
    let (mut book, trades) = run(&[buy(1, 5, 100), sell(2, 5, 100)]);
    assert!(trades.is_empty());
    assert_eq!(drain(&mut book), vec![(2, 5, 100)]);
}

#[test]
fn buy_into_empty_book_trades_nothing() {
    let (book, trades) = run(&[buy(1, 5, 100)]);
    assert!(trades.is_empty());
    assert!(book.is_empty());
}

#[test]
fn sell_orders_never_match_each_other() {
    let (mut book, trades) = run(&[sell(1, 5, 10), sell(2, 5, 5)]);
    assert!(trades.is_empty());
    assert_eq!(drain(&mut book), vec![(2, 5, 5), (1, 5, 10)]);
}

#[test]
fn zero_quantity_sell_does_not_rest() {
    let (book, trades) = run(&[sell(1, 0, 10)]);
    assert!(trades.is_empty());
    assert!(book.is_empty());
}

#[test]
fn zero_quantity_buy_trades_nothing() {
    let (mut book, trades) = run(&[sell(1, 5, 10), buy(2, 0, 10)]);
    assert!(trades.is_empty());
    assert_eq!(drain(&mut book), vec![(1, 5, 10)]);
}

#[test]
fn conservation_of_quantity() {
    let orders = [sell(1, 3, 10), sell(2, 4, 11), sell(3, 6, 12), buy(4, 9, 12)];
    let (mut book, trades) = run(&orders);
    let traded: u32 = trades.iter().map(|t| t.quantity_traded).sum();
    assert_eq!(traded, 9);
    assert_eq!(trades, vec![trade(4, 1, 10, 3), trade(4, 2, 11, 4), trade(4, 3, 12, 2)]);
    assert_eq!(drain(&mut book), vec![(3, 4, 12)]);
}

#[test]
fn no_zero_quantity_entry_survives() {
    let (mut book, _) = run(&[sell(1, 5, 10), sell(2, 5, 10), buy(3, 5, 10)]);
    let left = drain(&mut book);
    assert_eq!(left, vec![(2, 5, 10)]);
    assert!(left.iter().all(|e| e.1 > 0));
}

#[test]
fn largest_values_do_not_overflow() {
    let (mut book, trades) =
        run(&[sell(usize::MAX, u32::MAX, u32::MAX), buy(0, u32::MAX - 1, u32::MAX)]);
    assert_eq!(trades, vec![trade(0, usize::MAX, u32::MAX, u32::MAX - 1)]);
    assert_eq!(drain(&mut book), vec![(usize::MAX, 1, u32::MAX)]);
}

#[test]
fn book_operations() {
    let mut book = RestingBook::new();
    assert!(book.has_room());
    assert_eq!(book.peek_min(), None);
    assert_eq!(book.pop_min(), None);
    book.insert(sell(1, 5, 30));
    book.insert(sell(2, 6, 20));
    book.insert(sell(3, 7, 20));
    assert!(!book.is_empty());
    let best = book.peek_min().unwrap();
    assert_eq!((best.id, best.price, best.quantity), (2, 20, 6));
    let top: RestingOrder = book.pop_min().unwrap();
    assert_eq!(top, best);
    let next = book.peek_min().unwrap();
    assert_eq!((next.id, next.price, next.quantity), (3, 20, 7));
    book.reinsert_with_reduced_quantity(top, 1);
    let again = book.peek_min().unwrap();
    assert_eq!((again.id, again.price, again.quantity, again.arrival), (2, 20, 1, top.arrival));
    assert_eq!(drain(&mut book), vec![(2, 1, 20), (3, 7, 20), (1, 5, 30)]);
}
