//! Reading one order from a line of text:
//! `<id>[:<anything>] <Buy|Sell> <quantity> BTC @ <price> USD`.
use vstd::prelude::*;
use crate::order::{Order, OrderType};

verus! {

/// Why a line is not an order.
#[derive(Clone, Copy, Debug, PartialEq, Eq, Structural)]
pub enum ParseError {
    /// Not seven words, or one of the fixed words `BTC`, `@`, `USD` is wrong.
    InvalidFormat,
    /// The side is neither `Buy` nor `Sell`.
    InvalidOrderType,
    /// The id, the quantity or the price is not an unsigned number that fits.
    InvalidNumber,
}

/// Unicode White_Space, the characters that separate words.
pub open spec fn is_whitespace(c: char) -> bool {
    let u = c as u32;
    (0x9 <= u <= 0xd) || u == 0x20 || u == 0x85 || u == 0xa0 || u == 0x1680 || (0x2000 <= u
        <= 0x200a) || u == 0x2028 || u == 0x2029 || u == 0x202f || u == 0x205f || u == 0x3000
}

/// Reads `s` from the left: the words completed so far, and the word being read.
pub open spec fn scan(s: Seq<char>) -> (Seq<Seq<char>>, Seq<char>)
    decreases s.len(),
{
    if s.len() == 0 {
        (Seq::empty(), Seq::empty())
    } else {
        let (done, cur) = scan(s.drop_last());
        if is_whitespace(s.last()) {
            if cur.len() > 0 {
                (done.push(cur), Seq::empty())
            } else {
                (done, cur)
            }
        } else {
            (done, cur.push(s.last()))
        }
    }
}

/// The maximal runs of non-whitespace characters of `s`, left to right.
pub open spec fn words(s: Seq<char>) -> Seq<Seq<char>> {
    let (done, cur) = scan(s);
    if cur.len() > 0 {
        done.push(cur)
    } else {
        done
    }
}

/// `k` is the place of the first `:` in `t`, or its length if there is none.
pub open spec fn first_colon_at(t: Seq<char>, k: int) -> bool {
    &&& 0 <= k <= t.len()
    &&& k == t.len() || t[k] == ':'
    &&& forall|j: int| 0 <= j < k ==> t[j] != ':'
}

/// What comes before the first `:` of `t`; all of `t` if it holds none.
pub open spec fn before_colon(t: Seq<char>) -> Seq<char> {
    t.take(choose|k: int| first_colon_at(t, k))
}

pub open spec fn is_digit(c: char) -> bool {
    '0' <= c && c <= '9'
}

/// The value of a string of decimal digits.
pub open spec fn digits_value(d: Seq<char>) -> int
    decreases d.len(),
{
    if d.len() == 0 {
        0
    } else {
        digits_value(d.drop_last()) * 10 + (d.last() as u32 - '0' as u32)
    }
}

/// The digits of an unsigned number: all after a leading `+`, if any.
pub open spec fn unsigned_digits(t: Seq<char>) -> Seq<char> {
    if t.len() > 0 && t[0] == '+' {
        t.drop_first()
    } else {
        t
    }
}

/// An unsigned number as Rust reads one: an optional `+`, then one or more
/// decimal digits, with a value of at most `max`.
pub open spec fn parse_unsigned(t: Seq<char>, max: int) -> Option<int> {
    let d = unsigned_digits(t);
    if d.len() > 0 && (forall|i: int| 0 <= i < d.len() ==> is_digit(#[trigger] d[i]))
        && digits_value(d) <= max {
        Some(digits_value(d))
    } else {
        None
    }
}

/// The order that a line stands for, or why it stands for none. The checks
/// come in this order: the shape of the line, the id, the side, then the
/// quantity and the price.
pub open spec fn parse_order(s: Seq<char>) -> Result<Order, ParseError> {
    let w = words(s);
    if w.len() != 7 || w[6] != seq!['U', 'S', 'D'] || w[4] != seq!['@'] || w[3] != seq![
        'B',
        'T',
        'C',
    ] {
        Err(ParseError::InvalidFormat)
    } else if parse_unsigned(before_colon(w[0]), usize::MAX as int) is None {
        Err(ParseError::InvalidNumber)
    } else if w[1] != seq!['B', 'u', 'y'] && w[1] != seq!['S', 'e', 'l', 'l'] {
        Err(ParseError::InvalidOrderType)
    } else if parse_unsigned(w[2], u32::MAX as int) is None || parse_unsigned(
        w[5],
        u32::MAX as int,
    ) is None {
        Err(ParseError::InvalidNumber)
    } else {
        Ok(
            Order {
                id: parse_unsigned(before_colon(w[0]), usize::MAX as int)->0 as usize,
                order_type: if w[1] == seq!['B', 'u', 'y'] {
                    OrderType::Buy
                } else {
                    OrderType::Sell
                },
                quantity: parse_unsigned(w[2], u32::MAX as int)->0 as u32,
                price: parse_unsigned(w[5], u32::MAX as int)->0 as u32,
            },
        )
    }
}

/// Splits a line into its words.
fn split_words(line: &str) -> (r: Vec<Vec<char>>)
    ensures
        r@.len() == words(line@).len(),
        forall|i: int| 0 <= i < r@.len() ==> (#[trigger] r@[i])@ == words(line@)[i],
{
    let mut done: Vec<Vec<char>> = Vec::new();
    let mut cur: Vec<char> = Vec::new();
    for c in it: line.chars()
        invariant
            it.seq() == line@,
            done@.len() == scan(it.seq().take(it.index() as int)).0.len(),
            forall|i: int|
                0 <= i < done@.len() ==> (#[trigger] done@[i])@ == scan(
                    it.seq().take(it.index() as int),
                ).0[i],
            cur@ == scan(it.seq().take(it.index() as int)).1,
    {
        let ghost before = it.seq().take(it.index() as int);
        proof {
            assert(it.seq().take(it.index() + 1).drop_last() == before);
        }
        if is_space(c) {
            if cur.len() > 0 {
                done.push(cur);
                cur = Vec::new();
            }
        } else {
            cur.push(c);
        }
    }
    if cur.len() > 0 {
        done.push(cur);
    }
    proof {
        assert(line@.take(line@.len() as int) == line@);
    }
    done
}

fn is_space(c: char) -> (r: bool)
    ensures
        r == is_whitespace(c),
{
    let u = c as u32;
    (0x9 <= u && u <= 0xd) || u == 0x20 || u == 0x85 || u == 0xa0 || u == 0x1680 || (0x2000 <= u
        && u <= 0x200a) || u == 0x2028 || u == 0x2029 || u == 0x202f || u == 0x205f || u == 0x3000
}

/// The first `:` of a word is the only place that marks its end.
proof fn lemma_first_colon_unique(t: Seq<char>, k: int)
    requires
        first_colon_at(t, k),
    ensures
        before_colon(t) == t.take(k),
{
    let c = choose|j: int| first_colon_at(t, j);
    assert(first_colon_at(t, c));
    if c < k {
        assert(t[c] == ':');
    } else if c > k {
        assert(t[k] == ':');
    }
}

/// Where the id ends in the first word.
fn find_colon(t: &Vec<char>) -> (k: usize)
    ensures
        first_colon_at(t@, k as int),
{
    let mut k: usize = 0;
    while k < t.len()
        invariant
            k <= t@.len(),
            forall|j: int| 0 <= j < k ==> t@[j] != ':',
        decreases t.len() - k,
    {
        if t[k] == ':' {
            return k;
        }
        k = k + 1;
    }
    k
}

/// Digits read further never make a number smaller.
proof fn lemma_digits_grow(d: Seq<char>, k: int)
    requires
        0 <= k <= d.len(),
        forall|i: int| 0 <= i < d.len() ==> is_digit(#[trigger] d[i]),
    ensures
        digits_value(d.take(k)) <= digits_value(d),
        0 <= digits_value(d.take(k)),
    decreases d.len() - k,
{
    if k < d.len() {
        lemma_digits_grow(d, k + 1);
        assert(d.take(k + 1).drop_last() == d.take(k));
        lemma_digits_nonneg(d.take(k));
    } else {
        assert(d.take(k) == d);
        lemma_digits_nonneg(d);
    }
}

proof fn lemma_digits_nonneg(d: Seq<char>)
    requires
        forall|i: int| 0 <= i < d.len() ==> is_digit(#[trigger] d[i]),
    ensures
        0 <= digits_value(d),
    decreases d.len(),
{
    if d.len() > 0 {
        lemma_digits_nonneg(d.drop_last());
    }
}

/// Reads `t[..end]` as an unsigned number of at most `max`.
fn parse_number(t: &Vec<char>, end: usize, max: usize) -> (r: Option<usize>)
    requires
        end <= t@.len(),
    ensures
        match r {
            Some(v) => parse_unsigned(t@.take(end as int), max as int) == Some(v as int),
            None => parse_unsigned(t@.take(end as int), max as int) is None,
        },
{
    let ghost s = t@.take(end as int);
    let start: usize = if end > 0 && t[0] == '+' {
        1
    } else {
        0
    };
    let ghost d = s.skip(start as int);
    proof {
        if start == 1 {
            assert(d =~= s.drop_first());
        } else {
            assert(d =~= s);
        }
        assert(d =~= t@.subrange(start as int, end as int));
    }
    if start == end {
        return None;
    }
    let mut i: usize = start;
    while i < end
        invariant
            start <= i <= end <= t@.len(),
            d == t@.subrange(start as int, end as int),
            s == t@.take(end as int),
            d == unsigned_digits(s),
            forall|j: int| 0 <= j < i - start ==> is_digit(#[trigger] d[j]),
        decreases end - i,
    {
        if !('0' <= t[i] && t[i] <= '9') {
            assert(d[i - start] == t@[i as int]);
            return None;
        }
        assert(d[i - start] == t@[i as int]);
        i = i + 1;
    }
    let mut v: usize = 0;
    let mut i: usize = start;
    while i < end
        invariant
            start <= i <= end <= t@.len(),
            d == t@.subrange(start as int, end as int),
            s == t@.take(end as int),
            d == unsigned_digits(s),
            forall|j: int| 0 <= j < d.len() ==> is_digit(#[trigger] d[j]),
            v as int == digits_value(d.take(i - start)),
            v <= max,
        decreases end - i,
    {
        proof {
            assert(d[i - start] == t@[i as int]);
            assert(is_digit(d[i - start]));
        }
        let dv = (t[i] as u32 - '0' as u32) as usize;
        proof {
            assert(d.take(i - start + 1).drop_last() == d.take(i - start));
            assert(d.take(i - start + 1).last() == t@[i as int]);
        }
        if dv > max || v > (max - dv) / 10 {
            proof {
                assert(v * 10 + dv > max) by (nonlinear_arith)
                    requires
                        dv > max || v > (max - dv) / 10,
                        v >= 0,
                ;
                lemma_digits_grow(d, i - start + 1);
            }
            return None;
        }
        proof {
            assert(v * 10 + dv <= max) by (nonlinear_arith)
                requires
                    v <= (max - dv) / 10,
                    dv <= max,
            ;
        }
        v = v * 10 + dv;
        i = i + 1;
    }
    proof {
        assert(d.take(d.len() as int) == d);
    }
    Some(v)
}

fn same_word(t: &Vec<char>, w: &Vec<char>) -> (r: bool)
    ensures
        r == (t@ == w@),
{
    if t.len() != w.len() {
        return false;
    }
    let mut i: usize = 0;
    while i < t.len()
        invariant
            t@.len() == w@.len(),
            i <= t@.len(),
            forall|j: int| 0 <= j < i ==> t@[j] == w@[j],
        decreases t.len() - i,
    {
        if t[i] != w[i] {
            return false;
        }
        i = i + 1;
    }
    assert(t@ =~= w@);
    true
}

/// Reads the whole of `t` as an unsigned number of at most `max`.
fn parse_word(t: &Vec<char>, max: usize) -> (r: Option<usize>)
    ensures
        match r {
            Some(v) => parse_unsigned(t@, max as int) == Some(v as int),
            None => parse_unsigned(t@, max as int) is None,
        },
{
    assert(t@.take(t@.len() as int) == t@);
    parse_number(t, t.len(), max)
}

/// Reads one order from a line: `<id>[:<anything>] <Buy|Sell> <quantity>
/// BTC @ <price> USD`, words separated by whitespace.
pub fn line2order(l: &str) -> (r: Result<Order, ParseError>)
    ensures
        r == parse_order(l@),
{
    let parts = split_words(l);
    let ghost w = words(l@);
    if parts.len() != 7 {
        return Err(ParseError::InvalidFormat);
    }
    let usd = vec!['U', 'S', 'D'];
    let at = vec!['@'];
    let btc = vec!['B', 'T', 'C'];
    proof {
        assert(usd@ =~= seq!['U', 'S', 'D']);
        assert(at@ =~= seq!['@']);
        assert(btc@ =~= seq!['B', 'T', 'C']);
        assert(parts@[6]@ == w[6] && parts@[4]@ == w[4] && parts@[3]@ == w[3]);
    }
    if !same_word(&parts[6], &usd) || !same_word(&parts[4], &at) || !same_word(&parts[3], &btc) {
        return Err(ParseError::InvalidFormat);
    }
    let k = find_colon(&parts[0]);
    proof {
        assert(parts@[0]@ == w[0] && parts@[1]@ == w[1]);
        assert(parts@[2]@ == w[2] && parts@[5]@ == w[5]);
        lemma_first_colon_unique(w[0], k as int);
    }
    let id = match parse_number(&parts[0], k, usize::MAX) {
        Some(v) => v,
        None => {
            return Err(ParseError::InvalidNumber);
        },
    };
    let buy = vec!['B', 'u', 'y'];
    let sell = vec!['S', 'e', 'l', 'l'];
    proof {
        assert(buy@ =~= seq!['B', 'u', 'y']);
        assert(sell@ =~= seq!['S', 'e', 'l', 'l']);
    }
    let order_type = if same_word(&parts[1], &buy) {
        OrderType::Buy
    } else if same_word(&parts[1], &sell) {
        OrderType::Sell
    } else {
        return Err(ParseError::InvalidOrderType);
    };
    let quantity = match parse_word(&parts[2], u32::MAX as usize) {
        Some(v) => v as u32,
        None => {
            return Err(ParseError::InvalidNumber);
        },
    };
    let price = match parse_word(&parts[5], u32::MAX as usize) {
        Some(v) => v as u32,
        None => {
            return Err(ParseError::InvalidNumber);
        },
    };
    Ok(Order { id, order_type, price, quantity })
}

} // verus!
