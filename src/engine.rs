//! The matching engine: one order at a time against the resting book.
use vstd::prelude::*;
use crate::book::{book_after_sell, book_valid, RestingBook};
use crate::order::{Order, OrderType, RestingOrder, Trade};

verus! {

/// The trade of `q` units between the incoming buy and a resting sell, at
/// the resting sell's price.
pub open spec fn trade_of(buy: Order, top: RestingOrder, q: u32) -> Trade {
    Trade { buy_id: buy.id, sell_id: top.id, price: top.price, quantity_traded: q }
}

/// Sweeps the book from its best ask with a buy that still wants
/// `remaining` units: the trades made, and the book left behind. The sweep
/// stops when nothing is wanted, the book is empty, or the best ask is
/// above the buy's limit; what is still wanted then is dropped.
pub open spec fn match_buy(book: Seq<RestingOrder>, buy: Order, remaining: u32) -> (
    Seq<Trade>,
    Seq<RestingOrder>,
)
    decreases book.len(),
{
    if remaining == 0 || book.len() == 0 || book[0].price > buy.price {
        (Seq::empty(), book)
    } else if book[0].quantity <= remaining {
        let rest = match_buy(book.drop_first(), buy, (remaining - book[0].quantity) as u32);
        (seq![trade_of(buy, book[0], book[0].quantity)] + rest.0, rest.1)
    } else {
        (
            seq![trade_of(buy, book[0], remaining)],
            seq![RestingOrder { quantity: (book[0].quantity - remaining) as u32, ..book[0] }]
                + book.drop_first(),
        )
    }
}

/// Processes one order. A sell order rests in the book and trades nothing.
/// A buy order sweeps the book from the best ask while its limit price is at
/// or above that ask, appending one trade per resting order it meets; what
/// it cannot fill is dropped and never rests.
pub fn processorder(order: Order, book: &mut RestingBook, trades: &mut Vec<Trade>)
    requires
        old(book).wf(),
        old(book).arrivals() < u64::MAX,
    ensures
        final(book).wf(),
        order.order_type == OrderType::Sell ==> {
            &&& final(trades)@ == old(trades)@
            &&& final(book)@ == book_after_sell(old(book)@, order, old(book).arrivals())
            &&& final(book).arrivals() == old(book).arrivals() + 1
        },
        order.order_type == OrderType::Buy ==> {
            &&& final(trades)@ == old(trades)@ + match_buy(old(book)@, order, order.quantity).0
            &&& final(book)@ == match_buy(old(book)@, order, order.quantity).1
            &&& final(book).arrivals() == old(book).arrivals()
        },
        forall|i: int| 0 <= i < final(book)@.len() ==> #[trigger] final(book)@[i].quantity > 0,
{
    proof {
        book.lemma_valid();
    }
    match order.order_type {
        OrderType::Sell => {
            book.insert(order);
        },
        OrderType::Buy => {
            let mut remaining: u32 = order.quantity;
            let ghost done: Seq<Trade> = Seq::empty();
            while remaining > 0
                invariant
                    book.wf(),
                    book.arrivals() == old(book).arrivals(),
                    trades@ == old(trades)@ + done,
                    match_buy(old(book)@, order, order.quantity) == (
                        done + match_buy(book@, order, remaining).0,
                        match_buy(book@, order, remaining).1,
                    ),
                ensures
                    book.wf(),
                    book.arrivals() == old(book).arrivals(),
                    trades@ == old(trades)@ + done,
                    match_buy(old(book)@, order, order.quantity) == (done, book@),
                decreases remaining,
            {
                proof {
                    book.lemma_valid();
                    assert(done + Seq::<Trade>::empty() =~= done);
                }
                let top = match book.peek_min() {
                    None => {
                        break;
                    },
                    Some(top) => top,
                };
                if top.price > order.price {
                    break;
                }
                let ghost before = book@;
                let _ = book.pop_min();
                if top.quantity <= remaining {
                    trades.push(
                        Trade {
                            buy_id: order.id,
                            sell_id: top.id,
                            price: top.price,
                            quantity_traded: top.quantity,
                        },
                    );
                    remaining = remaining - top.quantity;
                    proof {
                        let t = trade_of(order, top, top.quantity);
                        assert(done + (seq![t] + match_buy(book@, order, remaining).0) =~= (done
                            + seq![t]) + match_buy(book@, order, remaining).0);
                        done = done + seq![t];
                    }
                } else {
                    let t = Trade {
                        buy_id: order.id,
                        sell_id: top.id,
                        price: top.price,
                        quantity_traded: remaining,
                    };
                    trades.push(t);
                    proof {
                        assert(forall|i: int|
                            0 <= i < book@.len() ==> (#[trigger] book@[i]) == before[i + 1]);
                    }
                    book.reinsert_with_reduced_quantity(top, top.quantity - remaining);
                    remaining = 0;
                    proof {
                        assert(done + seq![t] + Seq::<Trade>::empty() =~= done + seq![t]);
                        done = done + seq![t];
                    }
                }
            }
        },
    }
    proof {
        book.lemma_valid();
    }
}

} // verus!
