//! The resting book: sell orders waiting for buyers, lowest price first and,
//! among equal prices, earliest arrival first.
use vstd::prelude::*;
use crate::order::{key_le, key_lt, Order, RestingOrder};
use crate::queue::{
    queue_entries, queue_new, queue_peek, queue_pop, queue_push, Queue, QueueItem, QueueMap,
};

verus! {

/// A sequence of resting orders is a valid book: strictly ordered by
/// (price, arrival), arrival numbers pairwise distinct, no empty entry.
pub open spec fn book_valid(s: Seq<RestingOrder>) -> bool {
    &&& forall|i: int, j: int|
        0 <= i < j < s.len() ==> key_lt(#[trigger] s[i].key(), #[trigger] s[j].key())
    &&& forall|i: int, j: int|
        0 <= i < j < s.len() ==> #[trigger] s[i].arrival != #[trigger] s[j].arrival
    &&& forall|i: int| 0 <= i < s.len() ==> #[trigger] s[i].quantity > 0
}

/// Places `r` after every entry whose price is at or below its own: price
/// first, then time of arrival.
pub open spec fn insert_by_price(s: Seq<RestingOrder>, r: RestingOrder) -> Seq<RestingOrder>
    decreases s.len(),
{
    if s.len() == 0 {
        seq![r]
    } else if r.price < s[0].price {
        seq![r] + s
    } else {
        seq![s[0]] + insert_by_price(s.drop_first(), r)
    }
}

/// The entry that a sell order becomes when it arrives as number `arrival`.
pub open spec fn resting_of(order: Order, arrival: u64) -> RestingOrder {
    RestingOrder { id: order.id, price: order.price, quantity: order.quantity, arrival }
}

/// The book after a sell order arrives as number `arrival`: an order of
/// quantity zero leaves nothing behind.
pub open spec fn book_after_sell(s: Seq<RestingOrder>, order: Order, arrival: u64) -> Seq<
    RestingOrder,
> {
    if order.quantity == 0 {
        s
    } else {
        insert_by_price(s, resting_of(order, arrival))
    }
}

/// What the heap stores for a resting order.
pub open spec fn item_of(e: RestingOrder) -> QueueItem {
    (e.arrival, e.id, e.quantity)
}

/// The heap holds exactly the entries of `s`, each under its key.
pub open spec fn mirrors(m: QueueMap, s: Seq<RestingOrder>) -> bool {
    &&& forall|i: int|
        0 <= i < s.len() ==> m.contains_key(#[trigger] item_of(s[i])) && m[item_of(s[i])]
            == s[i].key()
    &&& forall|k: QueueItem|
        #[trigger] m.contains_key(k) ==> exists|i: int| 0 <= i < s.len() && item_of(s[i]) == k
}

proof fn lemma_empty_iff(m: QueueMap, s: Seq<RestingOrder>)
    requires
        mirrors(m, s),
    ensures
        (m == QueueMap::empty()) <==> s.len() == 0,
{
    if s.len() == 0 {
        assert(m =~= QueueMap::empty());
    } else {
        assert(m.contains_key(item_of(s[0])));
    }
}

/// An entry of least key in the heap is the first entry of the book.
proof fn lemma_least_is_first(m: QueueMap, s: Seq<RestingOrder>, item: QueueItem, key: (u32, u64))
    requires
        mirrors(m, s),
        book_valid(s),
        m.contains_key(item),
        m[item] == key,
        forall|k: QueueItem| #[trigger] m.contains_key(k) ==> key_le(key, m[k]),
    ensures
        s.len() > 0,
        item == item_of(s[0]),
        key == s[0].key(),
{
    let i = choose|i: int| 0 <= i < s.len() && item_of(s[i]) == item;
    assert(m.contains_key(item_of(s[0])));
    if i > 0 {
        assert(key_lt(s[0].key(), s[i].key()));
    }
}

proof fn lemma_mirrors_drop_first(m: QueueMap, s: Seq<RestingOrder>)
    requires
        mirrors(m, s),
        book_valid(s),
        s.len() > 0,
    ensures
        mirrors(m.remove(item_of(s[0])), s.drop_first()),
        book_valid(s.drop_first()),
{
    let m2 = m.remove(item_of(s[0]));
    let s2 = s.drop_first();
    assert forall|i: int| 0 <= i < s2.len() implies m2.contains_key(#[trigger] item_of(s2[i]))
        && m2[item_of(s2[i])] == s2[i].key() by {
        assert(s2[i] == s[i + 1]);
        assert(s[0].arrival != s[i + 1].arrival);
        assert(m.contains_key(item_of(s[i + 1])));
    }
    assert forall|k: QueueItem| #[trigger] m2.contains_key(k) implies exists|i: int|
        0 <= i < s2.len() && item_of(s2[i]) == k by {
        assert(m.contains_key(k));
        let j = choose|j: int| 0 <= j < s.len() && item_of(s[j]) == k;
        assert(j != 0);
        assert(item_of(s2[j - 1]) == k);
    }
    assert forall|i: int, j: int| 0 <= i < j < s2.len() implies key_lt(
        #[trigger] s2[i].key(),
        #[trigger] s2[j].key(),
    ) && s2[i].arrival != s2[j].arrival by {
        assert(s2[i] == s[i + 1] && s2[j] == s[j + 1]);
    }
    assert forall|i: int| 0 <= i < s2.len() implies #[trigger] s2[i].quantity > 0 by {
        assert(s2[i] == s[i + 1]);
    }
}

/// Where `insert_by_price` places the new entry.
proof fn lemma_insert_position(s: Seq<RestingOrder>, r: RestingOrder) -> (pos: int)
    requires
        book_valid(s),
    ensures
        0 <= pos <= s.len(),
        insert_by_price(s, r) == s.insert(pos, r),
        forall|i: int| 0 <= i < pos ==> (#[trigger] s[i]).price <= r.price,
        forall|i: int| pos <= i < s.len() ==> (#[trigger] s[i]).price > r.price,
    decreases s.len(),
{
    if s.len() == 0 {
        assert(insert_by_price(s, r) =~= s.insert(0, r));
        0
    } else if r.price < s[0].price {
        assert(insert_by_price(s, r) =~= s.insert(0, r));
        assert forall|i: int| 0 <= i < s.len() implies (#[trigger] s[i]).price > r.price by {
            if i > 0 {
                assert(key_lt(s[0].key(), s[i].key()));
            }
        }
        0
    } else {
        let t = s.drop_first();
        assert(book_valid(t)) by {
            assert forall|i: int, j: int| 0 <= i < j < t.len() implies key_lt(
                #[trigger] t[i].key(),
                #[trigger] t[j].key(),
            ) && t[i].arrival != t[j].arrival by {
                assert(t[i] == s[i + 1] && t[j] == s[j + 1]);
            }
            assert forall|i: int| 0 <= i < t.len() implies #[trigger] t[i].quantity > 0 by {
                assert(t[i] == s[i + 1]);
            }
        }
        let p = lemma_insert_position(t, r);
        assert(insert_by_price(s, r) =~= s.insert(p + 1, r));
        assert forall|i: int| 0 <= i < p + 1 implies (#[trigger] s[i]).price <= r.price by {
            if i > 0 {
                assert(s[i] == t[i - 1]);
            }
        }
        assert forall|i: int| p + 1 <= i < s.len() implies (#[trigger] s[i]).price > r.price by {
            assert(s[i] == t[i - 1]);
        }
        p + 1
    }
}

/// Inserting an entry whose arrival is later than every other one keeps the
/// book valid, and the heap with it in mirrors the new book.
proof fn lemma_insert_keeps_valid(m: QueueMap, s: Seq<RestingOrder>, r: RestingOrder)
    requires
        mirrors(m, s),
        book_valid(s),
        r.quantity > 0,
        forall|i: int| 0 <= i < s.len() ==> (#[trigger] s[i]).arrival < r.arrival,
    ensures
        book_valid(insert_by_price(s, r)),
        mirrors(m.insert(item_of(r), r.key()), insert_by_price(s, r)),
{
    let pos = lemma_insert_position(s, r);
    let s2 = s.insert(pos, r);
    let m2 = m.insert(item_of(r), r.key());
    s.insert_ensures(pos, r);
    assert forall|i: int| 0 <= i < s2.len() implies #[trigger] s2[i] == if i < pos {
        s[i]
    } else if i == pos {
        r
    } else {
        s[i - 1]
    } by {
        if i > pos {
            assert(s2[(i - 1) + 1] == s[i - 1]);
        }
    }
    assert forall|i: int, j: int| 0 <= i < j < s2.len() implies key_lt(
        #[trigger] s2[i].key(),
        #[trigger] s2[j].key(),
    ) && s2[i].arrival != s2[j].arrival by {
        if i < pos && j > pos {
            assert(s[i] == s2[i] && s[j - 1] == s2[j]);
        }
    }
    assert forall|i: int| 0 <= i < s2.len() implies m2.contains_key(#[trigger] item_of(s2[i]))
        && m2[item_of(s2[i])] == s2[i].key() by {
        if i != pos {
            let e = s2[i];
            assert(e.arrival < r.arrival);
        }
    }
    assert forall|k: QueueItem| #[trigger] m2.contains_key(k) implies exists|i: int|
        0 <= i < s2.len() && item_of(s2[i]) == k by {
        if k == item_of(r) {
            assert(item_of(s2[pos]) == k);
        } else {
            assert(m.contains_key(k));
            let j = choose|j: int| 0 <= j < s.len() && item_of(s[j]) == k;
            if j < pos {
                assert(item_of(s2[j]) == k);
            } else {
                assert(item_of(s2[j + 1]) == k);
            }
        }
    }
}

/// The resting sell orders, held in a heap of the `priority_queue` crate.
pub struct RestingBook {
    queue: Queue,
    next_arrival: u64,
    entries: Ghost<Seq<RestingOrder>>,
}

impl View for RestingBook {
    type V = Seq<RestingOrder>;

    /// The resting orders in the order they will be matched.
    closed spec fn view(&self) -> Seq<RestingOrder> {
        self.entries@
    }
}

impl RestingBook {
    /// The number the next sell order will get as its arrival.
    pub closed spec fn arrivals(&self) -> u64 {
        self.next_arrival
    }

    /// The entries form a valid book, every one numbered before the next
    /// arrival, and the heap holds exactly them.
    pub closed spec fn wf(&self) -> bool {
        &&& book_valid(self.entries@)
        &&& forall|i: int|
            0 <= i < self.entries@.len() ==> (#[trigger] self.entries@[i]).arrival
                < self.next_arrival
        &&& mirrors(queue_entries(self.queue), self.entries@)
    }

    /// A well-formed book is valid, and every entry in it arrived before
    /// the next number to be given out.
    pub proof fn lemma_valid(&self)
        requires
            self.wf(),
        ensures
            book_valid(self@),
            forall|i: int| 0 <= i < self@.len() ==> (#[trigger] self@[i]).arrival < self.arrivals(),
    {
    }

    /// An empty book.
    pub fn new() -> (r: RestingBook)
        ensures
            r.wf(),
            r@ == Seq::<RestingOrder>::empty(),
            r.arrivals() == 0,
    {
        let r = RestingBook { queue: queue_new(), next_arrival: 0, entries: Ghost(Seq::empty()) };
        proof {
            assert(mirrors(queue_entries(r.queue), r.entries@));
        }
        r
    }

    /// Whether another sell order can still be numbered.
    pub fn has_room(&self) -> (r: bool)
        ensures
            r == (self.arrivals() < u64::MAX),
    {
        self.next_arrival < u64::MAX
    }

    /// Whether no sell order rests.
    pub fn is_empty(&self) -> (r: bool)
        requires
            self.wf(),
        ensures
            r == (self@.len() == 0),
    {
        proof {
            lemma_empty_iff(queue_entries(self.queue), self.entries@);
        }
        queue_peek(&self.queue).is_none()
    }

    /// The best ask: the lowest-priced entry, earliest first among equal prices.
    pub fn peek_min(&self) -> (r: Option<RestingOrder>)
        requires
            self.wf(),
        ensures
            r == (if self@.len() == 0 {
                None
            } else {
                Some(self@[0])
            }),
    {
        proof {
            lemma_empty_iff(queue_entries(self.queue), self.entries@);
        }
        match queue_peek(&self.queue) {
            None => None,
            Some((item, key)) => {
                proof {
                    lemma_least_is_first(queue_entries(self.queue), self.entries@, item, key);
                }
                Some(RestingOrder { id: item.1, price: key.0, quantity: item.2, arrival: item.0 })
            },
        }
    }

    /// Removes and returns the best ask.
    pub fn pop_min(&mut self) -> (r: Option<RestingOrder>)
        requires
            old(self).wf(),
        ensures
            final(self).wf(),
            final(self).arrivals() == old(self).arrivals(),
            r == (if old(self)@.len() == 0 {
                None
            } else {
                Some(old(self)@[0])
            }),
            final(self)@ == (if old(self)@.len() == 0 {
                old(self)@
            } else {
                old(self)@.drop_first()
            }),
    {
        proof {
            lemma_empty_iff(queue_entries(self.queue), self.entries@);
        }
        let ghost m = queue_entries(self.queue);
        let ghost s = self.entries@;
        match queue_pop(&mut self.queue) {
            None => None,
            Some((item, key)) => {
                proof {
                    lemma_least_is_first(m, s, item, key);
                    lemma_mirrors_drop_first(m, s);
                    self.entries = Ghost(s.drop_first());
                }
                Some(RestingOrder { id: item.1, price: key.0, quantity: item.2, arrival: item.0 })
            },
        }
    }

    /// Adds a sell order as the newest arrival. An order of quantity zero is
    /// inert: it is numbered but nothing rests.
    pub fn insert(&mut self, order: Order)
        requires
            old(self).wf(),
            old(self).arrivals() < u64::MAX,
        ensures
            final(self).wf(),
            final(self).arrivals() == old(self).arrivals() + 1,
            final(self)@ == book_after_sell(old(self)@, order, old(self).arrivals()),
    {
        let arrival = self.next_arrival;
        if order.quantity > 0 {
            let ghost r = resting_of(order, arrival);
            proof {
                lemma_insert_keeps_valid(queue_entries(self.queue), self.entries@, r);
            }
            queue_push(&mut self.queue, (arrival, order.id, order.quantity), order.price, arrival);
            proof {
                self.entries = Ghost(insert_by_price(self.entries@, r));
            }
        }
        self.next_arrival = arrival + 1;
        proof {
            assert forall|i: int| 0 <= i < self.entries@.len() implies (
            #[trigger] self.entries@[i]).arrival < self.next_arrival by {
                if order.quantity > 0 {
                    let s0 = old(self).entries@;
                    let pos = lemma_insert_position(s0, resting_of(order, arrival));
                    s0.insert_ensures(pos, resting_of(order, arrival));
                    if i > pos {
                        assert(self.entries@[(i - 1) + 1] == s0[i - 1]);
                    }
                }
            }
        }
    }

    /// Puts back an entry just taken with `pop_min`, with its quantity
    /// replaced by `new_quantity`; it keeps its price and its arrival, so it
    /// is again the best ask.
    pub fn reinsert_with_reduced_quantity(&mut self, order: RestingOrder, new_quantity: u32)
        requires
            old(self).wf(),
            new_quantity > 0,
            order.arrival < old(self).arrivals(),
            old(self)@.len() > 0 ==> key_lt(order.key(), old(self)@[0].key()),
            forall|i: int|
                0 <= i < old(self)@.len() ==> (#[trigger] old(self)@[i]).arrival != order.arrival,
        ensures
            final(self).wf(),
            final(self).arrivals() == old(self).arrivals(),
            final(self)@ == seq![RestingOrder { quantity: new_quantity, ..order }] + old(self)@,
    {
        let r = RestingOrder { quantity: new_quantity, ..order };
        let ghost m = queue_entries(self.queue);
        let ghost s = self.entries@;
        queue_push(&mut self.queue, (r.arrival, r.id, r.quantity), r.price, r.arrival);
        proof {
            let s2 = seq![r] + s;
            let m2 = m.insert(item_of(r), r.key());
            assert forall|i: int, j: int| 0 <= i < j < s2.len() implies key_lt(
                #[trigger] s2[i].key(),
                #[trigger] s2[j].key(),
            ) && s2[i].arrival != s2[j].arrival by {
                if i == 0 {
                    assert(s2[j] == s[j - 1]);
                    if j > 1 {
                        assert(key_lt(s[0].key(), s[j - 1].key()));
                    }
                } else {
                    assert(s2[i] == s[i - 1] && s2[j] == s[j - 1]);
                }
            }
            assert forall|i: int| 0 <= i < s2.len() implies #[trigger] s2[i].quantity > 0 by {
                if i > 0 {
                    assert(s2[i] == s[i - 1]);
                }
            }
            assert forall|i: int| 0 <= i < s2.len() implies m2.contains_key(
                #[trigger] item_of(s2[i]),
            ) && m2[item_of(s2[i])] == s2[i].key() by {
                if i > 0 {
                    assert(s2[i] == s[i - 1]);
                }
            }
            assert forall|k: QueueItem| #[trigger] m2.contains_key(k) implies exists|i: int|
                0 <= i < s2.len() && item_of(s2[i]) == k by {
                if k == item_of(r) {
                    assert(item_of(s2[0]) == k);
                } else {
                    let j = choose|j: int| 0 <= j < s.len() && item_of(s[j]) == k;
                    assert(item_of(s2[j + 1]) == k);
                }
            }
            assert forall|i: int| 0 <= i < s2.len() implies (#[trigger] s2[i]).arrival
                < self.next_arrival by {
                if i > 0 {
                    assert(s2[i] == s[i - 1]);
                }
            }
            self.entries = Ghost(s2);
        }
    }
}

} // verus!
