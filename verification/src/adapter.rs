//! Reconciliation of decoded feed messages against the local book:
//! envelope validation, exact fixed-point unit conversion from the
//! wire's decimal text, and the per-event dispatch with its
//! replace-on-duplicate recovery.

use vstd::prelude::*;

use crate::book::{
    apply_add, book_contains_id, book_wf, crosses, id_in, ids_unique, insert_pos, match_rec,
    modify_id, remove_id, remove_id_seq, BookModel, Order, OrderError, OrderId, Orderbook,
    OrderModel, OrderType, Price, Quantity, Side,
};
use crate::messages::{DataModel, EventModel, EventType, OrderEvent, Response, ResponseModel};

verus! {

use vstd::string::StrSliceExecFns;
use vstd::string::StringExecFns;

#[derive(Clone, Copy, PartialEq, Eq, Structural, Debug)]
pub enum ParseError {
    /// The envelope names a channel other than `level3`.
    InvalidChannel,
    /// The envelope's message kind is neither `snapshot` nor `update`.
    InvalidType,
    /// The envelope carries no data.
    Empty,
    /// A price or quantity is not a decimal numeral, or does not fit
    /// the fixed-point range.
    InvalidNumber,
    /// The book refused a mutation.
    OrderError(OrderError),
}

pub open spec fn is_digit(c: char) -> bool {
    '0' <= c && c <= '9'
}

pub open spec fn digit_val(c: char) -> int {
    c as int - 48
}

pub open spec fn all_digits(s: Seq<char>) -> bool {
    forall|i: int| 0 <= i < s.len() ==> is_digit(s[i])
}

/// The number a digit run denotes, most significant first.
pub open spec fn digits_val(s: Seq<char>) -> int
    decreases s.len(),
{
    if s.len() == 0 {
        0
    } else {
        digits_val(s.drop_last()) * 10 + digit_val(s.last())
    }
}

pub open spec fn pow10(k: nat) -> int
    decreases k,
{
    if k == 0 {
        1
    } else {
        10 * pow10((k - 1) as nat)
    }
}

/// Index of the first dot, or the length when there is none.
pub open spec fn dot_pos(s: Seq<char>) -> int
    decreases s.len(),
{
    if s.len() == 0 {
        0
    } else if s[0] == '.' {
        0
    } else {
        1 + dot_pos(s.drop_first())
    }
}

pub open spec fn int_part(s: Seq<char>) -> Seq<char> {
    s.take(dot_pos(s))
}

pub open spec fn frac_part(s: Seq<char>) -> Seq<char> {
    if dot_pos(s) == s.len() {
        Seq::empty()
    } else {
        s.skip(dot_pos(s) + 1)
    }
}

/// A plain decimal numeral: digits, then optionally a dot and more
/// digits, nothing else and nothing empty.
pub open spec fn valid_decimal(s: Seq<char>) -> bool {
    &&& int_part(s).len() > 0
    &&& all_digits(int_part(s))
    &&& (dot_pos(s) == s.len() || (frac_part(s).len() > 0 && all_digits(frac_part(s))))
}

/// The fraction brought to exactly `k` digits: padded with zeros when
/// short, cut after the `k`-th digit when long — cutting is what makes
/// the conversion truncate rather than round.
pub open spec fn frac_scaled(f: Seq<char>, k: nat) -> int {
    if f.len() >= k {
        digits_val(f.take(k as int))
    } else {
        digits_val(f) * pow10((k - f.len()) as nat)
    }
}

/// The numeral's value multiplied by ten to the `k`, truncated toward
/// zero.
pub open spec fn scaled_value(s: Seq<char>, k: nat) -> int {
    digits_val(int_part(s)) * pow10(k) + frac_scaled(frac_part(s), k)
}

proof fn lemma_digits_val_nonneg(s: Seq<char>)
    requires
        all_digits(s),
    ensures
        digits_val(s) >= 0,
    decreases s.len(),
{
    if s.len() > 0 {
        lemma_digits_val_nonneg(s.drop_last());
        assert(is_digit(s.last()));
    }
}

/// A digit run is worth at least any of its prefixes.
proof fn lemma_digits_prefix_mono(s: Seq<char>, j: int)
    requires
        all_digits(s),
        0 <= j <= s.len(),
    ensures
        digits_val(s.take(j)) <= digits_val(s),
    decreases s.len() - j,
{
    if j < s.len() {
        lemma_digits_prefix_mono(s, j + 1);
        assert(s.take(j + 1).drop_last() =~= s.take(j));
        assert(s.take(j + 1).last() == s[j]);
        assert(is_digit(s[j]));
        assert forall|x: int| 0 <= x < j implies is_digit(s.take(j)[x]) by {
            assert(s.take(j)[x] == s[x]);
        }
        lemma_digits_val_nonneg(s.take(j));
        assert(digits_val(s.take(j + 1)) == digits_val(s.take(j)) * 10 + digit_val(s[j]));
        assert(digits_val(s.take(j)) * 10 >= digits_val(s.take(j))) by (nonlinear_arith)
            requires
                digits_val(s.take(j)) >= 0,
        ;
    } else {
        assert(s.take(j) =~= s);
    }
}

/// Where a dotless run of length `i` ends the scan, the dot position
/// is exactly there.
proof fn lemma_dot_pos_at(s: Seq<char>, i: int)
    requires
        0 <= i <= s.len(),
        forall|j: int| 0 <= j < i ==> s[j] != '.',
        i == s.len() || s[i] == '.',
    ensures
        dot_pos(s) == i,
    decreases i,
{
    if i > 0 {
        assert forall|j: int| 0 <= j < i - 1 implies s.drop_first()[j] != '.' by {
            assert(s.drop_first()[j] == s[j + 1]);
        }
        if i < s.len() {
            assert(s.drop_first()[i - 1] == s[i]);
        }
        lemma_dot_pos_at(s.drop_first(), i - 1);
    }
}

/// Parses a decimal numeral and scales it by ten to the `k`,
/// truncating; nothing on malformed text or fixed-point overflow.
fn parse_scaled(s: &str, k: usize, p10: u64) -> (r: Option<u64>)
    requires
        1 <= k <= 8,
        p10 == pow10(k as nat),
    ensures
        valid_decimal(s@) && scaled_value(s@, k as nat) <= u64::MAX ==> r == Some(
            scaled_value(s@, k as nat) as u64,
        ),
        !(valid_decimal(s@) && scaled_value(s@, k as nat) <= u64::MAX) ==> r is None,
{
    let n = s.unicode_len();
    let mut i: usize = 0;
    let mut acc: u64 = 0;
    // Integer part.
    loop
        invariant
            0 <= i <= n,
            n == s@.len(),
            1 <= k <= 8,
            p10 == pow10(k as nat),
            acc == digits_val(s@.take(i as int)),
            forall|j: int| 0 <= j < i ==> is_digit(s@[j]) && s@[j] != '.',
        ensures
            0 <= i <= n,
            acc == digits_val(s@.take(i as int)),
            forall|j: int| 0 <= j < i ==> is_digit(s@[j]) && s@[j] != '.',
            i == n || s@[i as int] == '.',
        decreases n - i,
    {
        if i == n {
            break;
        }
        let c = s.get_char(i);
        if c == '.' {
            break;
        }
        if !('0' <= c && c <= '9') {
            proof {
                lemma_invalid_no_dot(s@, i as int);
            }
            return None;
        }
        let d = (c as u32 - 48) as u64;
        proof {
            assert(s@.take(i + 1).drop_last() =~= s@.take(i as int));
            assert(s@.take(i + 1).last() == s@[i as int]);
        }
        let acc10 = match acc.checked_mul(10) {
            Some(v) => v,
            None => {
                proof {
                    lemma_overflow_invalid(s@, i as int, k as nat);
                }
                return None;
            },
        };
        acc = match acc10.checked_add(d) {
            Some(v) => v,
            None => {
                proof {
                    lemma_overflow_invalid(s@, i as int, k as nat);
                }
                return None;
            },
        };
        i += 1;
    }
    proof {
        lemma_dot_pos_at(s@, i as int);
        assert(int_part(s@) =~= s@.take(i as int));
    }
    if i == 0 {
        // Empty integer part: not a numeral.
        return None;
    }
    let ghost ip = int_part(s@);
    let mut facc: u64 = 0;
    let mut cnt: usize = 0;
    if i < n {
        // Fraction part, cut after `k` digits.
        let ghost fp = frac_part(s@);
        proof {
            assert(fp =~= s@.skip(i + 1));
        }
        if i + 1 == n {
            // A trailing dot with nothing after it: not a numeral.
            return None;
        }
        let mut j = i + 1;
        loop
            invariant
                i + 1 <= j <= n,
                n == s@.len(),
                1 <= k <= 8,
                1 <= i < n,
                dot_pos(s@) == i as int,
                fp == s@.skip(i as int + 1),
                cnt == (if j - i - 1 <= k {
                    j - i - 1
                } else {
                    k as int
                }),
                facc == digits_val(fp.take(cnt as int)),
                facc < pow10(cnt as nat),
                forall|m: int| 0 <= m < j - i - 1 ==> is_digit(fp[m]),
            ensures
                fp == s@.skip(i as int + 1),
                cnt == (if fp.len() <= k {
                    fp.len() as int
                } else {
                    k as int
                }),
                facc == digits_val(fp.take(cnt as int)),
                facc < pow10(cnt as nat),
                all_digits(fp),
            decreases n - j,
        {
            if j == n {
                break;
            }
            let c = s.get_char(j);
            if !('0' <= c && c <= '9') {
                proof {
                    if valid_decimal(s@) {
                        assert(frac_part(s@) == fp);
                        assert(fp[j - i - 1] == s@[j as int]);
                        assert(is_digit(fp[j - i - 1]));
                    }
                }
                return None;
            }
            if cnt < k {
                let d = (c as u32 - 48) as u64;
                proof {
                    assert(fp.take(cnt + 1).drop_last() =~= fp.take(cnt as int));
                    assert(fp.take(cnt + 1).last() == fp[cnt as int]);
                    assert(fp[cnt as int] == s@[i + 1 + cnt]);
                    assert(pow10((cnt + 1) as nat) == 10 * pow10(cnt as nat));
                    lemma_pow10_le((cnt + 1) as nat, 8);
                    reveal_with_fuel(pow10, 9);
                    assert(pow10(8) == 100_000_000);
                }
                facc = facc * 10 + d;
                cnt += 1;
            }
            j += 1;
        }
        // Pad a short fraction with zeros up to `k` digits.
        if cnt < k {
            proof {
                assert(cnt == fp.len());
                assert(fp.take(cnt as int) =~= fp);
                assert(facc == digits_val(fp));
                assert(pow10((cnt - fp.len()) as nat) == 1);
                assert(digits_val(fp) * 1 == digits_val(fp)) by (nonlinear_arith);
            }
            loop
                invariant
                    fp.len() <= cnt <= k,
                    1 <= k <= 8,
                    facc == digits_val(fp) * pow10((cnt - fp.len()) as nat),
                    facc < pow10(cnt as nat),
                    all_digits(fp),
                ensures
                    cnt == k,
                    facc == digits_val(fp) * pow10((cnt - fp.len()) as nat),
                    facc < pow10(cnt as nat),
                decreases k - cnt,
            {
                if cnt >= k {
                    break;
                }
                proof {
                    lemma_pow10_le((cnt + 1) as nat, 8);
                    reveal_with_fuel(pow10, 9);
                    assert(pow10(8) == 100_000_000);
                    assert(pow10((cnt + 1 - fp.len()) as nat) == 10 * pow10(
                        (cnt - fp.len()) as nat,
                    ));
                    assert(pow10((cnt + 1) as nat) == 10 * pow10(cnt as nat));
                    assert(digits_val(fp) * (10 * pow10((cnt - fp.len()) as nat)) == (
                    digits_val(fp) * pow10((cnt - fp.len()) as nat)) * 10) by (nonlinear_arith);
                }
                facc = facc * 10;
                cnt += 1;
            }
        }
        proof {
            assert(frac_scaled(fp, k as nat) == facc);
        }
    } else {
        proof {
            assert(frac_part(s@) =~= Seq::<char>::empty());
            assert(frac_scaled(frac_part(s@), k as nat) == 0);
        }
    }
    proof {
        assert(valid_decimal(s@));
        lemma_pow10_le(k as nat, 8);
        lemma_digits_val_nonneg(ip);
    }
    let hi = match acc.checked_mul(p10) {
        Some(v) => v,
        None => {
            proof {
                assert(digits_val(ip) * pow10(k as nat) > u64::MAX);
                assert(scaled_value(s@, k as nat) > u64::MAX) by {
                    assert(frac_scaled(frac_part(s@), k as nat) >= 0) by {
                        if dot_pos(s@) < s@.len() {
                            frac_scaled_nonneg(frac_part(s@), k as nat);
                        }
                    }
                }
            }
            return None;
        },
    };
    let tot = match hi.checked_add(facc) {
        Some(v) => v,
        None => {
            proof {
                assert(scaled_value(s@, k as nat) > u64::MAX);
            }
            return None;
        },
    };
    proof {
        assert(tot == scaled_value(s@, k as nat));
    }
    Some(tot)
}

proof fn frac_scaled_nonneg(f: Seq<char>, k: nat)
    requires
        all_digits(f),
    ensures
        frac_scaled(f, k) >= 0,
{
    if f.len() >= k {
        assert forall|x: int| 0 <= x < k implies is_digit(f.take(k as int)[x]) by {
            assert(f.take(k as int)[x] == f[x]);
        }
        lemma_digits_val_nonneg(f.take(k as int));
    } else {
        lemma_digits_val_nonneg(f);
        lemma_pow10_pos((k - f.len()) as nat);
        assert(digits_val(f) * pow10((k - f.len()) as nat) >= 0) by (nonlinear_arith)
            requires
                digits_val(f) >= 0,
                pow10((k - f.len()) as nat) > 0,
        ;
    }
}

proof fn lemma_pow10_pos(k: nat)
    ensures
        pow10(k) >= 1,
    decreases k,
{
    if k > 0 {
        lemma_pow10_pos((k - 1) as nat);
    }
}

proof fn lemma_pow10_le(a: nat, b: nat)
    requires
        a <= b,
    ensures
        0 < pow10(a) <= pow10(b),
    decreases b,
{
    lemma_pow10_pos(a);
    if a < b {
        lemma_pow10_le(a, (b - 1) as nat);
        lemma_pow10_pos((b - 1) as nat);
    }
}

/// A non-digit, non-dot character before any dot spoils the numeral.
proof fn lemma_invalid_no_dot(s: Seq<char>, i: int)
    requires
        0 <= i < s.len(),
        forall|j: int| 0 <= j < i ==> s[j] != '.',
        s[i] != '.',
        !is_digit(s[i]),
    ensures
        !valid_decimal(s),
{
    if valid_decimal(s) {
        if dot_pos(s) == s.len() {
            assert(int_part(s) =~= s);
            assert(is_digit(int_part(s)[i]));
        } else {
            lemma_dot_pos_run(s);
            if i < dot_pos(s) {
                assert(int_part(s)[i] == s[i]);
                assert(is_digit(int_part(s)[i]));
            } else if i == dot_pos(s) {
                assert(s[i] == '.');
            } else {
                assert(frac_part(s)[i - dot_pos(s) - 1] == s[i]);
                assert(is_digit(frac_part(s)[i - dot_pos(s) - 1]));
            }
        }
    }
}

/// Everything before the dot position is not a dot; at it, either the
/// text ends or a dot stands.
proof fn lemma_dot_pos_run(s: Seq<char>)
    ensures
        0 <= dot_pos(s) <= s.len(),
        forall|j: int| 0 <= j < dot_pos(s) ==> s[j] != '.',
        dot_pos(s) == s.len() || s[dot_pos(s)] == '.',
    decreases s.len(),
{
    if s.len() > 0 && s[0] != '.' {
        lemma_dot_pos_run(s.drop_first());
        assert forall|j: int| 0 <= j < dot_pos(s) implies s[j] != '.' by {
            if j > 0 {
                assert(s.drop_first()[j - 1] == s[j]);
            }
        }
        if dot_pos(s) < s.len() {
            assert(s.drop_first()[dot_pos(s) - 1] == s[dot_pos(s)]);
        }
    }
}

/// Integer-part overflow at any prefix already puts the scaled value
/// past the fixed-point range.
proof fn lemma_overflow_invalid(s: Seq<char>, i: int, k: nat)
    requires
        0 <= i < s.len(),
        forall|j: int| 0 <= j < i ==> is_digit(s[j]) && s[j] != '.',
        is_digit(s[i]),
        s[i] != '.',
        digits_val(s.take(i)) * 10 + digit_val(s[i]) > u64::MAX,
    ensures
        valid_decimal(s) ==> scaled_value(s, k) > u64::MAX,
{
    if valid_decimal(s) {
        lemma_dot_pos_run(s);
        let d = dot_pos(s);
        assert(i < d || d == s.len() || s[d] == '.');
        assert(i < d || i >= d);
        if i >= d && d < s.len() {
            assert(s[d] == '.');
            assert(d < i ==> !is_digit(s[d]));
            assert(d == i ==> s[i] == '.');
            assert(false);
        }
        // So the whole prefix through i lies in the integer part.
        assert(i < int_part(s).len());
        assert forall|x: int| 0 <= x < i + 1 implies is_digit(
            #[trigger] int_part(s).take(i + 1)[x],
        ) by {
            assert(int_part(s).take(i + 1)[x] == s[x]);
        }
        assert(int_part(s).take(i + 1) =~= s.take(i + 1));
        assert(s.take(i + 1).drop_last() =~= s.take(i));
        assert(s.take(i + 1).last() == s[i]);
        assert(digits_val(s.take(i + 1)) > u64::MAX);
        lemma_digits_prefix_mono(int_part(s), i + 1);
        assert(digits_val(int_part(s)) > u64::MAX);
        lemma_pow10_pos(k);
        lemma_digits_val_nonneg(int_part(s));
        assert(digits_val(int_part(s)) * pow10(k) >= digits_val(int_part(s))) by (
        nonlinear_arith)
            requires
                digits_val(int_part(s)) >= 0,
                pow10(k) >= 1,
        ;
        if d < s.len() {
            frac_scaled_nonneg(frac_part(s), k);
        }
    }
}

/// Wire price to integer cents: the decimal times one hundred,
/// truncated toward zero.
pub fn to_price(wire_price: &str) -> (r: Option<Price>)
    ensures
        valid_decimal(wire_price@) && scaled_value(wire_price@, 2) <= u64::MAX ==> r
            == Some(Price(scaled_value(wire_price@, 2) as u64)),
        !(valid_decimal(wire_price@) && scaled_value(wire_price@, 2) <= u64::MAX) ==> r is None,
{
    proof {
        reveal_with_fuel(pow10, 3);
    }
    match parse_scaled(wire_price, 2, 100) {
        Some(v) => Some(Price(v)),
        None => None,
    }
}

/// Wire quantity to integer units: the decimal times ten to the
/// eighth, truncated toward zero.
pub fn to_quantity(wire_qty: &str) -> (r: Option<Quantity>)
    ensures
        valid_decimal(wire_qty@) && scaled_value(wire_qty@, 8) <= u64::MAX ==> r == Some(
            Quantity(scaled_value(wire_qty@, 8) as u64),
        ),
        !(valid_decimal(wire_qty@) && scaled_value(wire_qty@, 8) <= u64::MAX) ==> r is None,
{
    proof {
        reveal_with_fuel(pow10, 9);
    }
    match parse_scaled(wire_qty, 8, 100_000_000) {
        Some(v) => Some(Quantity(v)),
        None => None,
    }
}

/// Wraps the exchange's id text unchanged.
pub fn to_order_id(wire_id: &str) -> (r: OrderId)
    ensures
        r@ == wire_id@,
{
    OrderId::new(wire_id.to_owned())
}

/// Positional side assignment: the bid list means buy, the ask list
/// sell.
pub fn to_side(is_bid: bool) -> (r: Side)
    ensures
        r == (if is_bid {
            Side::Buy
        } else {
            Side::Sell
        }),
{
    if is_bid {
        Side::Buy
    } else {
        Side::Sell
    }
}

/// Builds the order an event denotes: the exchange's id, a
/// good-till-cancelled limit order on the positional side, price and
/// quantity converted to fixed point. Nothing where a numeral is
/// malformed or out of range.
pub fn to_order(kraken_order: &OrderEvent, is_bid: bool) -> (r: Option<Order>)
    ensures
        event_price_ok(kraken_order@) && event_qty_ok(kraken_order@) ==> (match r {
            Some(o) => o@ == event_order(kraken_order@, is_bid) && o.order_type
                == OrderType::GoodTillCancelled,
            None => false,
        }),
        !(event_price_ok(kraken_order@) && event_qty_ok(kraken_order@)) ==> r is None,
{
    let price = match to_price(kraken_order.limit_price.as_str()) {
        Some(p) => p,
        None => {
            return None;
        },
    };
    let quantity = match to_quantity(kraken_order.order_qty.as_str()) {
        Some(q) => q,
        None => {
            return None;
        },
    };
    Some(
        Order::new(
            to_order_id(kraken_order.order_id.as_str()),
            OrderType::GoodTillCancelled,
            to_side(is_bid),
            price,
            quantity,
        ),
    )
}

pub open spec fn event_price_ok(ev: EventModel) -> bool {
    valid_decimal(ev.limit_price) && scaled_value(ev.limit_price, 2) <= u64::MAX
}

pub open spec fn event_qty_ok(ev: EventModel) -> bool {
    valid_decimal(ev.order_qty) && scaled_value(ev.order_qty, 8) <= u64::MAX
}

/// The order an event denotes, with both units converted and the side
/// taken from the list the event stood in.
pub open spec fn event_order(ev: EventModel, is_bid: bool) -> OrderModel {
    OrderModel {
        id: ev.order_id,
        is_buy: is_bid,
        price: scaled_value(ev.limit_price, 2) as u64,
        qty: scaled_value(ev.order_qty, 8) as u64,
    }
}

/// What one event does to the book, and the error it reports if any.
/// An `Add` whose id already rests replaces that order; a `Modify` or
/// `Delete` of an unknown id fails and changes nothing.
pub open spec fn apply_event(b: BookModel, ev: EventModel, is_bid: bool) -> (
    BookModel,
    Option<ParseError>,
) {
    match ev.event {
        EventType::Add => {
            if !(event_price_ok(ev) && event_qty_ok(ev)) {
                (b, Some(ParseError::InvalidNumber))
            } else {
                let o = event_order(ev, is_bid);
                if book_contains_id(b, o.id) {
                    (apply_add(remove_id(b, o.id), o), None)
                } else {
                    (apply_add(b, o), None)
                }
            }
        },
        EventType::Modify => {
            if !event_qty_ok(ev) {
                (b, Some(ParseError::InvalidNumber))
            } else if book_contains_id(b, ev.order_id) {
                (modify_id(b, ev.order_id, scaled_value(ev.order_qty, 8) as u64), None)
            } else {
                (b, Some(ParseError::OrderError(OrderError::NotFound)))
            }
        },
        EventType::Delete => {
            if book_contains_id(b, ev.order_id) {
                (remove_id(b, ev.order_id), None)
            } else {
                (b, Some(ParseError::OrderError(OrderError::NotFound)))
            }
        },
    }
}

/// A unique id is gone after its removal.
proof fn lemma_remove_id_gone_seq(s: Seq<OrderModel>, id: Seq<char>)
    requires
        ids_unique(s),
    ensures
        !id_in(remove_id_seq(s, id), id),
    decreases s.len(),
{
    if s.len() > 0 {
        if s[0].id == id {
            if id_in(s.drop_first(), id) {
                let j = choose|j: int|
                    0 <= j < s.drop_first().len() && s.drop_first()[j].id == id;
                assert(s[j + 1].id == id);
                assert(s[0].id != s[j + 1].id);
            }
        } else {
            assert forall|i: int, j: int|
                0 <= i < j < s.drop_first().len() implies s.drop_first()[i].id
                != s.drop_first()[j].id by {
                assert(s.drop_first()[i] == s[i + 1]);
                assert(s.drop_first()[j] == s[j + 1]);
            }
            lemma_remove_id_gone_seq(s.drop_first(), id);
            let t = seq![s[0]] + remove_id_seq(s.drop_first(), id);
            if id_in(t, id) {
                let j = choose|j: int| 0 <= j < t.len() && t[j].id == id;
                assert(j > 0);
                assert(remove_id_seq(s.drop_first(), id)[j - 1].id == id);
            }
        }
    }
}

/// One event list, leftmost first, stopped by the first error.
pub open spec fn apply_events(b: BookModel, evs: Seq<EventModel>, is_bid: bool) -> (
    BookModel,
    Option<ParseError>,
)
    decreases evs.len(),
{
    if evs.len() == 0 {
        (b, None)
    } else {
        let st = apply_event(b, evs[0], is_bid);
        if st.1 is Some {
            st
        } else {
            apply_events(st.0, evs.drop_first(), is_bid)
        }
    }
}

/// One delta: every bid event, then every ask event.
pub open spec fn apply_data(b: BookModel, d: DataModel) -> (BookModel, Option<ParseError>) {
    let st = apply_events(b, d.bids, true);
    if st.1 is Some {
        st
    } else {
        apply_events(st.0, d.asks, false)
    }
}

/// Every delta of a frame, in order, stopped by the first error.
pub open spec fn apply_datas(b: BookModel, ds: Seq<DataModel>) -> (
    BookModel,
    Option<ParseError>,
)
    decreases ds.len(),
{
    if ds.len() == 0 {
        (b, None)
    } else {
        let st = apply_data(b, ds[0]);
        if st.1 is Some {
            st
        } else {
            apply_datas(st.0, ds.drop_first())
        }
    }
}

pub open spec fn empty_book() -> BookModel {
    BookModel { bids: Seq::empty(), asks: Seq::empty() }
}

/// The book a frame is applied to: a snapshot discards every resting
/// order first.
pub open spec fn reconcile_start(b: BookModel, msg: ResponseModel) -> BookModel {
    if msg.message_type == "snapshot"@ {
        empty_book()
    } else {
        b
    }
}

/// Stepping an event fold by one: a clean step extends the prefix, a
/// failing step settles the whole list.
#[verifier::rlimit(50)]
proof fn lemma_events_step(b: BookModel, evs: Seq<EventModel>, is_bid: bool, i: int)
    requires
        0 <= i < evs.len(),
        apply_events(b, evs.take(i), is_bid).1 is None,
    ensures
        ({
            let bi = apply_events(b, evs.take(i), is_bid).0;
            let st = apply_event(bi, evs[i], is_bid);
            &&& (st.1 is None ==> apply_events(b, evs.take(i + 1), is_bid) == (
                st.0,
                Option::<ParseError>::None,
            ))
            &&& (st.1 is Some ==> apply_events(b, evs, is_bid) == st)
        }),
    decreases i,
{
    let bi = apply_events(b, evs.take(i), is_bid).0;
    let st = apply_event(bi, evs[i], is_bid);
    if i == 0 {
        assert(evs.take(0) =~= Seq::<EventModel>::empty());
        assert(bi == b);
        assert(evs.take(1)[0] == evs[0]);
        assert(evs.take(1).drop_first() =~= Seq::<EventModel>::empty());
        if st.1 is None {
            assert(apply_events(b, evs.take(1), is_bid) == apply_events(
                st.0,
                evs.take(1).drop_first(),
                is_bid,
            ));
        } else {
            assert(apply_events(b, evs, is_bid) == st);
        }
    } else {
        let h = apply_event(b, evs[0], is_bid);
        assert(evs.take(i)[0] == evs[0]);
        assert(h.1 is None);
        assert(apply_events(b, evs.take(i), is_bid) == apply_events(
            h.0,
            evs.take(i).drop_first(),
            is_bid,
        ));
        assert(evs.take(i).drop_first() =~= evs.drop_first().take(i - 1));
        assert(evs.take(i + 1).drop_first() =~= evs.drop_first().take(i));
        assert(evs.drop_first()[i - 1] == evs[i]);
        lemma_events_step(h.0, evs.drop_first(), is_bid, i - 1);
        assert(evs.take(i + 1)[0] == evs[0]);
        if st.1 is None {
            assert(apply_events(b, evs.take(i + 1), is_bid) == apply_events(
                h.0,
                evs.take(i + 1).drop_first(),
                is_bid,
            ));
        } else {
            assert(apply_events(b, evs, is_bid) == apply_events(h.0, evs.drop_first(), is_bid));
        }
    }
}

/// The same stepping at the level of whole deltas.
#[verifier::rlimit(50)]
proof fn lemma_datas_step(b: BookModel, ds: Seq<DataModel>, i: int)
    requires
        0 <= i < ds.len(),
        apply_datas(b, ds.take(i)).1 is None,
    ensures
        ({
            let bi = apply_datas(b, ds.take(i)).0;
            let st = apply_data(bi, ds[i]);
            &&& (st.1 is None ==> apply_datas(b, ds.take(i + 1)) == (
                st.0,
                Option::<ParseError>::None,
            ))
            &&& (st.1 is Some ==> apply_datas(b, ds) == st)
        }),
    decreases i,
{
    let bi = apply_datas(b, ds.take(i)).0;
    let st = apply_data(bi, ds[i]);
    if i == 0 {
        assert(ds.take(0) =~= Seq::<DataModel>::empty());
        assert(bi == b);
        assert(ds.take(1)[0] == ds[0]);
        assert(ds.take(1).drop_first() =~= Seq::<DataModel>::empty());
        if st.1 is None {
            assert(apply_datas(b, ds.take(1)) == apply_datas(st.0, ds.take(1).drop_first()));
        } else {
            assert(apply_datas(b, ds) == st);
        }
    } else {
        let h = apply_data(b, ds[0]);
        assert(ds.take(i)[0] == ds[0]);
        assert(h.1 is None);
        assert(apply_datas(b, ds.take(i)) == apply_datas(h.0, ds.take(i).drop_first()));
        assert(ds.take(i).drop_first() =~= ds.drop_first().take(i - 1));
        assert(ds.take(i + 1).drop_first() =~= ds.drop_first().take(i));
        assert(ds.drop_first()[i - 1] == ds[i]);
        lemma_datas_step(h.0, ds.drop_first(), i - 1);
        assert(ds.take(i + 1)[0] == ds[0]);
        if st.1 is None {
            assert(apply_datas(b, ds.take(i + 1)) == apply_datas(
                h.0,
                ds.take(i + 1).drop_first(),
            ));
        } else {
            assert(apply_datas(b, ds) == apply_datas(h.0, ds.drop_first()));
        }
    }
}

/// Applies one event to the book. The bid list stands for buys, the
/// ask list for sells, as `is_bid` says.
pub fn process_event(orderbook: &mut Orderbook, event: &OrderEvent, is_bid: bool) -> (r:
    Result<(), ParseError>)
    requires
        old(orderbook).wf(),
    ensures
        final(orderbook).wf(),
        final(orderbook)@ == apply_event(old(orderbook)@, event@, is_bid).0,
        r == (match apply_event(old(orderbook)@, event@, is_bid).1 {
            Option::None => Ok::<(), ParseError>(()),
            Option::Some(e) => Err::<(), ParseError>(e),
        }),
{
    let ghost pre = orderbook@;
    match event.event {
        EventType::Add => {
            let order = match to_order(event, is_bid) {
                Some(o) => o,
                None => {
                    return Err(ParseError::InvalidNumber);
                },
            };
            match orderbook.add_order(order) {
                Ok(()) => Ok(()),
                Err(OrderError::IdExists) => {
                    // The exchange resent an order that already rests:
                    // replace it with the event's state.
                    let cr = orderbook.cancel_order(to_order_id(event.order_id.as_str()));
                    proof {
                        assert(cr == Ok::<(), OrderError>(()));
                        lemma_remove_id_gone_seq(pre.bids, event@.order_id);
                        lemma_remove_id_gone_seq(pre.asks, event@.order_id);
                    }
                    let order2 = match to_order(event, is_bid) {
                        Some(o) => o,
                        None => {
                            proof {
                                assert(false);
                            }
                            return Err(ParseError::InvalidNumber);
                        },
                    };
                    match orderbook.add_order(order2) {
                        Ok(()) => Ok(()),
                        Err(e) => {
                            proof {
                                assert(false);
                            }
                            Err(ParseError::OrderError(e))
                        },
                    }
                },
                Err(e) => {
                    proof {
                        assert(false);
                    }
                    Err(ParseError::OrderError(e))
                },
            }
        },
        EventType::Modify => {
            let quantity = match to_quantity(event.order_qty.as_str()) {
                Some(q) => q,
                None => {
                    return Err(ParseError::InvalidNumber);
                },
            };
            match orderbook.modify_order(to_order_id(event.order_id.as_str()), quantity) {
                Ok(()) => Ok(()),
                Err(e) => Err(ParseError::OrderError(e)),
            }
        },
        EventType::Delete => {
            match orderbook.cancel_order(to_order_id(event.order_id.as_str())) {
                Ok(()) => Ok(()),
                Err(e) => Err(ParseError::OrderError(e)),
            }
        },
    }
}


/// Reconciles one decoded frame against the book. The channel must be
/// `level3`; a frame of another channel, an empty one, or one of an
/// unknown kind is rejected before any mutation. A snapshot frame
/// resets the book first; then every delta's bid events and ask
/// events apply in exchange-send order, stopping at the first failing
/// event.
#[verifier::loop_isolation(false)]
#[verifier::rlimit(60)]
pub fn process_message(orderbook: &mut Orderbook, message: Response) -> (r: Result<
    (),
    ParseError,
>)
    requires
        old(orderbook).wf(),
    ensures
        final(orderbook).wf(),
        message@.channel != "level3"@ ==> r == Err::<(), ParseError>(ParseError::InvalidChannel)
            && *final(orderbook) == *old(orderbook),
        message@.channel == "level3"@ && message@.data.len() == 0 ==> r == Err::<
            (),
            ParseError,
        >(ParseError::Empty) && *final(orderbook) == *old(orderbook),
        message@.channel == "level3"@ && message@.data.len() > 0 && message@.message_type
            != "snapshot"@ && message@.message_type != "update"@ ==> r == Err::<(), ParseError>(
            ParseError::InvalidType,
        ) && *final(orderbook) == *old(orderbook),
        message@.channel == "level3"@ && (message@.message_type == "snapshot"@
            || message@.message_type == "update"@) && message@.data.len() > 0 ==> ({
            let st = apply_datas(reconcile_start(old(orderbook)@, message@), message@.data);
            &&& final(orderbook)@ == st.0
            &&& r == (match st.1 {
                Option::None => Ok::<(), ParseError>(()),
                Option::Some(e) => Err::<(), ParseError>(e),
            })
        }),
{
    let level3 = String::from_str("level3");
    if !message.channel.eq(&level3) {
        return Err(ParseError::InvalidChannel);
    }
    if message.data.len() == 0 {
        return Err(ParseError::Empty);
    }
    let snap = String::from_str("snapshot");
    let upd = String::from_str("update");
    let is_snapshot = message.message_type.eq(&snap);
    let is_update = message.message_type.eq(&upd);
    if !is_snapshot && !is_update {
        return Err(ParseError::InvalidType);
    }
    if is_snapshot {
        orderbook.clear();
        proof {
            assert(orderbook@.bids =~= empty_book().bids);
            assert(orderbook@.asks =~= empty_book().asks);
        }
    }
    let ghost start = orderbook@;
    proof {
        assert(start == reconcile_start(old(orderbook)@, message@));
        assert(apply_datas(start, message@.data.take(0)) == (
            start,
            Option::<ParseError>::None,
        )) by {
            assert(message@.data.take(0) =~= Seq::<DataModel>::empty());
        }
    }
    let mut di: usize = 0;
    while di < message.data.len()
        invariant
            di <= message.data@.len(),
            orderbook.wf(),
            apply_datas(start, message@.data.take(di as int)) == (
                orderbook@,
                Option::<ParseError>::None,
            ),
        decreases message.data@.len() - di,
    {
        let ghost bd = orderbook@;
        let data = &message.data[di];
        proof {
            assert(data@ == message@.data[di as int]);
            assert(apply_events(bd, data@.bids.take(0), true) == (
                bd,
                Option::<ParseError>::None,
            )) by {
                assert(data@.bids.take(0) =~= Seq::<EventModel>::empty());
            }
        }
        let mut ei: usize = 0;
        while ei < data.bids.len()
            invariant
                ei <= data.bids@.len(),
                orderbook.wf(),
                apply_events(bd, data@.bids.take(ei as int), true) == (
                    orderbook@,
                    Option::<ParseError>::None,
                ),
            decreases data.bids@.len() - ei,
        {
            let ghost bi = orderbook@;
            proof {
                assert(data.bids@[ei as int]@ == data@.bids[ei as int]);
            }
            match process_event(orderbook, &data.bids[ei], true) {
                Ok(()) => {},
                Err(e) => {
                    proof {
                        lemma_events_step(bd, data@.bids, true, ei as int);
                        lemma_datas_step(start, message@.data, di as int);
                    }
                    return Err(e);
                },
            }
            proof {
                lemma_events_step(bd, data@.bids, true, ei as int);
            }
            ei += 1;
        }
        proof {
            assert(data@.bids.take(data@.bids.len() as int) =~= data@.bids);
        }
        let ghost bmid = orderbook@;
        proof {
            assert(apply_events(bd, data@.bids, true) == (bmid, Option::<ParseError>::None));
            assert(apply_events(bmid, data@.asks.take(0), false) == (
                bmid,
                Option::<ParseError>::None,
            )) by {
                assert(data@.asks.take(0) =~= Seq::<EventModel>::empty());
            }
        }
        let mut ai: usize = 0;
        while ai < data.asks.len()
            invariant
                ai <= data.asks@.len(),
                orderbook.wf(),
                apply_events(bmid, data@.asks.take(ai as int), false) == (
                    orderbook@,
                    Option::<ParseError>::None,
                ),
            decreases data.asks@.len() - ai,
        {
            let ghost bi = orderbook@;
            proof {
                assert(data.asks@[ai as int]@ == data@.asks[ai as int]);
            }
            match process_event(orderbook, &data.asks[ai], false) {
                Ok(()) => {},
                Err(e) => {
                    proof {
                        lemma_events_step(bmid, data@.asks, false, ai as int);
                        lemma_datas_step(start, message@.data, di as int);
                    }
                    return Err(e);
                },
            }
            proof {
                lemma_events_step(bmid, data@.asks, false, ai as int);
            }
            ai += 1;
        }
        proof {
            assert(data@.asks.take(data@.asks.len() as int) =~= data@.asks);
            assert(apply_data(bd, data@) == (orderbook@, Option::<ParseError>::None));
            lemma_datas_step(start, message@.data, di as int);
        }
        di += 1;
    }
    proof {
        assert(message@.data.take(message@.data.len() as int) =~= message@.data);
    }
    Ok(())
}


/// An `Add` whose id has never been seen, and whose limit does not
/// reach the opposite side's best price, leaves the opposite side
/// untouched and rests exactly one new order on its own side — the
/// converted event: positional side, price in cents, quantity in
/// eighth-decimal units.
pub proof fn lemma_add_unseen_rests(b: BookModel, ev: EventModel, is_bid: bool)
    requires
        book_wf(b),
        ev.event == EventType::Add,
        event_price_ok(ev),
        event_qty_ok(ev),
        scaled_value(ev.order_qty, 8) > 0,
        !book_contains_id(b, ev.order_id),
        is_bid ==> b.asks.len() == 0 || !crosses(
            true,
            scaled_value(ev.limit_price, 2) as u64,
            b.asks[0].price,
        ),
        !is_bid ==> b.bids.len() == 0 || !crosses(
            false,
            scaled_value(ev.limit_price, 2) as u64,
            b.bids[0].price,
        ),
    ensures
        apply_event(b, ev, is_bid).1 is None,
        ({
            let post = apply_event(b, ev, is_bid).0;
            let o = event_order(ev, is_bid);
            &&& (is_bid ==> post.asks == b.asks && post.bids == b.bids.insert(
                insert_pos(b.bids, true, o.price),
                o,
            ))
            &&& (!is_bid ==> post.bids == b.bids && post.asks == b.asks.insert(
                insert_pos(b.asks, false, o.price),
                o,
            ))
        }),
{
    let o = event_order(ev, is_bid);
    if is_bid {
        assert(match_rec(b.asks, true, o.price, o.qty) == (b.asks, o.qty));
    } else {
        assert(match_rec(b.bids, false, o.price, o.qty) == (b.bids, o.qty));
    }
}

/// A `Modify` of an id that is not resting fails — the book refuses
/// it where the quantity converts, the numeral itself where it does
/// not — and either way the book is left entirely unchanged.
pub proof fn lemma_modify_unknown_leaves_book(b: BookModel, ev: EventModel, is_bid: bool)
    requires
        ev.event == EventType::Modify,
        !book_contains_id(b, ev.order_id),
    ensures
        apply_event(b, ev, is_bid).0 == b,
        apply_event(b, ev, is_bid).1 is Some,
        event_qty_ok(ev) ==> apply_event(b, ev, is_bid) == (
            b,
            Some(ParseError::OrderError(OrderError::NotFound)),
        ),
        !event_qty_ok(ev) ==> apply_event(b, ev, is_bid) == (
            b,
            Some(ParseError::InvalidNumber),
        ),
{
}

/// An `Add` whose id already rests replaces that order: the old entry
/// leaves first, and — when the new limit does not cross what remains
/// of the opposite side — exactly one order rests under the id
/// afterwards, carrying the newest price and quantity.
pub proof fn lemma_add_duplicate_replaces(b: BookModel, ev: EventModel, is_bid: bool)
    requires
        book_wf(b),
        ev.event == EventType::Add,
        event_price_ok(ev),
        event_qty_ok(ev),
        scaled_value(ev.order_qty, 8) > 0,
        book_contains_id(b, ev.order_id),
        is_bid ==> remove_id(b, ev.order_id).asks.len() == 0 || !crosses(
            true,
            scaled_value(ev.limit_price, 2) as u64,
            remove_id(b, ev.order_id).asks[0].price,
        ),
        !is_bid ==> remove_id(b, ev.order_id).bids.len() == 0 || !crosses(
            false,
            scaled_value(ev.limit_price, 2) as u64,
            remove_id(b, ev.order_id).bids[0].price,
        ),
    ensures
        apply_event(b, ev, is_bid).1 is None,
        !book_contains_id(remove_id(b, ev.order_id), ev.order_id),
        ({
            let post = apply_event(b, ev, is_bid).0;
            let b2 = remove_id(b, ev.order_id);
            let o = event_order(ev, is_bid);
            &&& (is_bid ==> post.asks == b2.asks && post.bids == b2.bids.insert(
                insert_pos(b2.bids, true, o.price),
                o,
            ))
            &&& (!is_bid ==> post.bids == b2.bids && post.asks == b2.asks.insert(
                insert_pos(b2.asks, false, o.price),
                o,
            ))
        }),
{
    lemma_remove_id_gone_seq(b.bids, ev.order_id);
    lemma_remove_id_gone_seq(b.asks, ev.order_id);
    let b2 = remove_id(b, ev.order_id);
    let o = event_order(ev, is_bid);
    if is_bid {
        assert(match_rec(b2.asks, true, o.price, o.qty) == (b2.asks, o.qty));
    } else {
        assert(match_rec(b2.bids, false, o.price, o.qty) == (b2.bids, o.qty));
    }
}

} // verus!
