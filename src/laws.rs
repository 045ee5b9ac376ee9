//! What holds of every sweep of the book by a buy order.
use vstd::prelude::*;
use crate::book::book_valid;
use crate::engine::{match_buy, trade_of};
use crate::order::{key_lt, Order, RestingOrder, Trade};

verus! {

/// The units traded over a sequence of trades.
pub open spec fn total_traded(t: Seq<Trade>) -> nat
    decreases t.len(),
{
    if t.len() == 0 {
        0
    } else {
        (t[0].quantity_traded + total_traded(t.drop_first())) as nat
    }
}

/// The quantity that the entry with the given arrival holds in the book; zero
/// when no entry has it.
pub open spec fn resting_quantity(s: Seq<RestingOrder>, arrival: u64) -> nat {
    if exists|j: int| 0 <= j < s.len() && (#[trigger] s[j]).arrival == arrival {
        let j = choose|j: int| 0 <= j < s.len() && (#[trigger] s[j]).arrival == arrival;
        s[j].quantity as nat
    } else {
        0
    }
}

proof fn lemma_resting_quantity_at(s: Seq<RestingOrder>, j: int)
    requires
        book_valid(s),
        0 <= j < s.len(),
    ensures
        resting_quantity(s, s[j].arrival) == s[j].quantity,
{
    assert(s[j].arrival == s[j].arrival);
    let k = choose|k: int| 0 <= k < s.len() && (#[trigger] s[k]).arrival == s[j].arrival;
    if k < j {
        assert(s[k].arrival != s[j].arrival);
    } else if k > j {
        assert(s[j].arrival != s[k].arrival);
    }
}

proof fn lemma_resting_quantity_absent(s: Seq<RestingOrder>, a: u64)
    requires
        forall|j: int| 0 <= j < s.len() ==> (#[trigger] s[j]).arrival != a,
    ensures
        resting_quantity(s, a) == 0,
{
}

proof fn lemma_valid_skip(s: Seq<RestingOrder>, k: int)
    requires
        book_valid(s),
        0 <= k <= s.len(),
    ensures
        book_valid(s.skip(k)),
{
    let t = s.skip(k);
    assert forall|x: int, y: int| 0 <= x < y < t.len() implies key_lt(
        #[trigger] t[x].key(),
        #[trigger] t[y].key(),
    ) && t[x].arrival != t[y].arrival by {
        assert(t[x] == s[k + x] && t[y] == s[k + y]);
    }
    assert forall|x: int| 0 <= x < t.len() implies #[trigger] t[x].quantity > 0 by {
        assert(t[x] == s[k + x]);
    }
}

/// The book that a sweep leaves behind is again a valid book: in particular
/// no entry with nothing left in it survives.
pub proof fn lemma_sweep_keeps_valid(book: Seq<RestingOrder>, buy: Order, r: u32)
    requires
        book_valid(book),
    ensures
        book_valid(match_buy(book, buy, r).1),
    decreases book.len(),
{
    if r == 0 || book.len() == 0 || book[0].price > buy.price {
    } else if book[0].quantity <= r {
        lemma_valid_skip(book, 1);
        assert(book.skip(1) =~= book.drop_first());
        lemma_sweep_keeps_valid(book.drop_first(), buy, (r - book[0].quantity) as u32);
    } else {
        let b = match_buy(book, buy, r).1;
        assert(b[0].key() == book[0].key() && b[0].arrival == book[0].arrival);
        assert forall|x: int, y: int| 0 <= x < y < b.len() implies key_lt(
            #[trigger] b[x].key(),
            #[trigger] b[y].key(),
        ) && b[x].arrival != b[y].arrival by {
            assert(b[y] == book[y]);
            if x > 0 {
                assert(b[x] == book[x]);
            }
        }
        assert forall|x: int| 0 <= x < b.len() implies #[trigger] b[x].quantity > 0 by {
            if x > 0 {
                assert(b[x] == book[x]);
            }
        }
    }
}

/// The sweep takes the first entries of the book in order, each in full but
/// perhaps the last, which may be left with what was not taken; the rest of
/// the book is untouched.
proof fn lemma_sweep_shape(book: Seq<RestingOrder>, buy: Order, r: u32)
    requires
        book_valid(book),
    ensures
        ({
            let (t, b) = match_buy(book, buy, r);
            let n = t.len() as int;
            &&& n <= book.len()
            &&& total_traded(t) <= r
            &&& forall|i: int|
                0 <= i < n ==> #[trigger] t[i] == trade_of(buy, book[i], t[i].quantity_traded)
                    && 0 < t[i].quantity_traded <= book[i].quantity && book[i].price <= buy.price
            &&& forall|i: int| 0 <= i < n - 1 ==> #[trigger] t[i].quantity_traded == book[i].quantity
            &&& (n == 0 || t[n - 1].quantity_traded == book[n - 1].quantity) ==> b == book.skip(n)
            &&& (n > 0 && t[n - 1].quantity_traded < book[n - 1].quantity) ==> b == seq![
                RestingOrder {
                    quantity: (book[n - 1].quantity - t[n - 1].quantity_traded) as u32,
                    ..book[n - 1]
                },
            ] + book.skip(n)
            &&& (book.len() > 0 && book[0].price > buy.price) ==> n == 0
        }),
    decreases book.len(),
{
    if r == 0 || book.len() == 0 || book[0].price > buy.price {
        assert(book.skip(0) =~= book);
        assert(total_traded(match_buy(book, buy, r).0) == 0);
    } else if book[0].quantity <= r {
        let d = book.drop_first();
        assert(book_valid(d)) by {
            assert forall|i: int, j: int| 0 <= i < j < d.len() implies key_lt(
                #[trigger] d[i].key(),
                #[trigger] d[j].key(),
            ) && d[i].arrival != d[j].arrival by {
                assert(d[i] == book[i + 1] && d[j] == book[j + 1]);
            }
            assert forall|i: int| 0 <= i < d.len() implies #[trigger] d[i].quantity > 0 by {
                assert(d[i] == book[i + 1]);
            }
        }
        let r2 = (r - book[0].quantity) as u32;
        lemma_sweep_shape(d, buy, r2);
        let rest = match_buy(d, buy, r2);
        let t0 = trade_of(buy, book[0], book[0].quantity);
        let t = seq![t0] + rest.0;
        let n = t.len() as int;
        assert(t.drop_first() =~= rest.0);
        assert(total_traded(t) == book[0].quantity + total_traded(rest.0));
        assert(d.skip(n - 1) =~= book.skip(n));
        assert forall|i: int| 0 <= i < n implies #[trigger] t[i] == trade_of(
            buy,
            book[i],
            t[i].quantity_traded,
        ) && 0 < t[i].quantity_traded <= book[i].quantity && book[i].price <= buy.price by {
            if i > 0 {
                assert(t[i] == rest.0[i - 1] && book[i] == d[i - 1]);
                if i - 1 > 0 {
                    assert(key_lt(book[0].key(), book[i].key()));
                }
            }
        }
        assert forall|i: int| 0 <= i < n - 1 implies #[trigger] t[i].quantity_traded
            == book[i].quantity by {
            if i > 0 {
                assert(t[i] == rest.0[i - 1] && book[i] == d[i - 1]);
            }
        }
        if n > 1 {
            assert(t[n - 1] == rest.0[n - 2] && book[n - 1] == d[n - 2]);
        }
    } else {
        let t = seq![trade_of(buy, book[0], r)];
        assert(t.drop_first() =~= Seq::<Trade>::empty());
        assert(total_traded(t.drop_first()) == 0);
        assert(total_traded(t) == r);
        assert(book.skip(1) =~= book.drop_first());
    }
}

/// Conservation: a buy trades no more than it asked for, each resting order
/// it met has lost exactly what it traded, and the orders it did not meet
/// keep all they had.
pub proof fn lemma_conservation(book: Seq<RestingOrder>, buy: Order)
    requires
        book_valid(book),
    ensures
        ({
            let (t, b) = match_buy(book, buy, buy.quantity);
            &&& total_traded(t) <= buy.quantity
            &&& t.len() <= book.len()
            &&& forall|i: int|
                0 <= i < t.len() ==> #[trigger] t[i].sell_id == book[i].id && resting_quantity(
                    b,
                    book[i].arrival,
                ) + t[i].quantity_traded == book[i].quantity
            &&& forall|i: int|
                t.len() <= i < book.len() ==> resting_quantity(b, #[trigger] book[i].arrival)
                    == book[i].quantity
        }),
{
    lemma_sweep_shape(book, buy, buy.quantity);
    let (t, b) = match_buy(book, buy, buy.quantity);
    let n = t.len() as int;
    let partial = n > 0 && t[n - 1].quantity_traded < book[n - 1].quantity;
    assert forall|i: int| 0 <= i < n implies #[trigger] t[i].sell_id == book[i].id
        && resting_quantity(b, book[i].arrival) + t[i].quantity_traded == book[i].quantity by {
        assert(t[i] == trade_of(buy, book[i], t[i].quantity_traded));
        if partial && i == n - 1 {
            assert(b[0].arrival == book[i].arrival);
            lemma_sweep_keeps_valid(book, buy, buy.quantity);
            lemma_resting_quantity_at(b, 0);
        } else {
            assert forall|j: int| 0 <= j < b.len() implies (#[trigger] b[j]).arrival
                != book[i].arrival by {
                if partial {
                    if j > 0 {
                        assert(b[j] == book[n - 1 + j]);
                    } else {
                        assert(b[0].arrival == book[n - 1].arrival);
                    }
                } else {
                    assert(b[j] == book[n + j]);
                }
            }
            lemma_resting_quantity_absent(b, book[i].arrival);
        }
    }
    assert forall|i: int| n <= i < book.len() implies resting_quantity(
        b,
        #[trigger] book[i].arrival,
    ) == book[i].quantity by {
        lemma_sweep_keeps_valid(book, buy, buy.quantity);
        if partial {
            assert(b[i - n + 1] == book[i]);
            lemma_resting_quantity_at(b, i - n + 1);
        } else {
            assert(b[i - n] == book[i]);
            lemma_resting_quantity_at(b, i - n);
        }
    }
}

/// Price fidelity: the i-th trade of a buy is made with the i-th resting
/// order in the book, at that order's price; the buy's own price never sets
/// the price of a trade.
pub proof fn lemma_price_fidelity(book: Seq<RestingOrder>, buy: Order)
    requires
        book_valid(book),
    ensures
        ({
            let t = match_buy(book, buy, buy.quantity).0;
            forall|i: int|
                0 <= i < t.len() ==> #[trigger] t[i].price == book[i].price && t[i].sell_id
                    == book[i].id && t[i].buy_id == buy.id
        }),
{
    lemma_sweep_shape(book, buy, buy.quantity);
}

/// No crossing: every trade is at a price at or below the buy's limit, and a
/// buy whose limit is below the best ask trades nothing.
pub proof fn lemma_no_cross(book: Seq<RestingOrder>, buy: Order)
    requires
        book_valid(book),
    ensures
        ({
            let t = match_buy(book, buy, buy.quantity).0;
            &&& forall|i: int| 0 <= i < t.len() ==> #[trigger] t[i].price <= buy.price
            &&& (book.len() > 0 && book[0].price > buy.price) ==> t.len() == 0
        }),
{
    lemma_sweep_shape(book, buy, buy.quantity);
}

/// Price priority: the trades of a buy come at prices that never go down, and
/// every resting order it meets is filled in full before the next one trades.
pub proof fn lemma_price_priority(book: Seq<RestingOrder>, buy: Order)
    requires
        book_valid(book),
    ensures
        ({
            let t = match_buy(book, buy, buy.quantity).0;
            &&& forall|i: int, j: int|
                0 <= i < j < t.len() ==> #[trigger] t[i].price <= #[trigger] t[j].price
            &&& forall|i: int|
                0 <= i < t.len() - 1 ==> #[trigger] t[i].quantity_traded == book[i].quantity
        }),
{
    lemma_sweep_shape(book, buy, buy.quantity);
    let t = match_buy(book, buy, buy.quantity).0;
    assert forall|i: int, j: int| 0 <= i < j < t.len() implies #[trigger] t[i].price
        <= #[trigger] t[j].price by {
        assert(t[i] == trade_of(buy, book[i], t[i].quantity_traded));
        assert(t[j] == trade_of(buy, book[j], t[j].quantity_traded));
        assert(key_lt(book[i].key(), book[j].key()));
    }
}

} // verus!
