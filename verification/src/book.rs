//! The local limit order book: resting orders per side, price-time
//! priority, and the mutation interface the feed reconciler drives
//! (`add_order` with replace-on-duplicate recovery at the caller,
//! `cancel_order`, `modify_order`), plus the read side (`get_levels`,
//! `midprice`) and the snapshot reset (`clear`).

use vstd::prelude::*;

verus! {

#[derive(Clone, Copy, PartialEq, Eq, Structural, Debug)]
pub enum Side {
    Buy,
    Sell,
}

#[derive(Clone, Copy, PartialEq, Eq, Structural, Debug)]
pub enum OrderType {
    GoodTillCancelled,
}

#[derive(Clone, Copy, PartialEq, Eq, Structural, Debug)]
pub enum OrderError {
    IdExists,
    NotFound,
}

/// Exchange-assigned opaque order identifier; never generated locally.
#[derive(Debug)]
pub struct OrderId(pub String);

impl View for OrderId {
    type V = Seq<char>;

    open spec fn view(&self) -> Seq<char> {
        self.0@
    }
}

impl OrderId {
    pub fn new(text: String) -> (r: OrderId)
        ensures
            r@ == text@,
    {
        OrderId(text)
    }
}

/// Price in integer fixed point: cents, wire price times one hundred.
#[derive(Clone, Copy, PartialEq, Eq, Structural, Debug)]
pub struct Price(pub u64);

impl Price {
    pub fn new(cents: u64) -> (r: Price)
        ensures
            r.0 == cents,
    {
        Price(cents)
    }
}

/// Quantity in integer fixed point: wire quantity times ten to the eighth.
#[derive(Clone, Copy, PartialEq, Eq, Structural, Debug)]
pub struct Quantity(pub u64);

#[derive(Debug)]
pub struct Order {
    pub order_id: OrderId,
    pub order_type: OrderType,
    pub side: Side,
    pub price: Price,
    pub quantity: Quantity,
}

/// Ghost image of one resting order.
pub ghost struct OrderModel {
    pub id: Seq<char>,
    pub is_buy: bool,
    pub price: u64,
    pub qty: u64,
}

impl View for Order {
    type V = OrderModel;

    open spec fn view(&self) -> OrderModel {
        OrderModel {
            id: self.order_id@,
            is_buy: self.side == Side::Buy,
            price: self.price.0,
            qty: self.quantity.0,
        }
    }
}

impl Order {
    pub fn new(
        order_id: OrderId,
        order_type: OrderType,
        side: Side,
        price: Price,
        quantity: Quantity,
    ) -> (r: Order)
        ensures
            r@ == (OrderModel {
                id: order_id@,
                is_buy: side == Side::Buy,
                price: price.0,
                qty: quantity.0,
            }),
            r.order_type == order_type,
    {
        Order { order_id, order_type, side, price, quantity }
    }
}

/// Ghost image of the whole book: each side in priority order,
/// best price first, ties in arrival order.
pub ghost struct BookModel {
    pub bids: Seq<OrderModel>,
    pub asks: Seq<OrderModel>,
}

pub open spec fn orders_view(v: Seq<Order>) -> Seq<OrderModel> {
    v.map_values(|o: Order| o@)
}

/// The book itself. Bids are held best (highest) price first,
/// asks best (lowest) price first; ties keep arrival order.
#[derive(Debug)]
pub struct Orderbook {
    pub bids: Vec<Order>,
    pub asks: Vec<Order>,
}

impl View for Orderbook {
    type V = BookModel;

    open spec fn view(&self) -> BookModel {
        BookModel { bids: orders_view(self.bids@), asks: orders_view(self.asks@) }
    }
}

pub open spec fn id_in(s: Seq<OrderModel>, id: Seq<char>) -> bool {
    exists|i: int| 0 <= i < s.len() && s[i].id == id
}

pub open spec fn ids_unique(s: Seq<OrderModel>) -> bool {
    forall|i: int, j: int| 0 <= i < j < s.len() ==> s[i].id != s[j].id
}

pub open spec fn ids_disjoint(a: Seq<OrderModel>, b: Seq<OrderModel>) -> bool {
    forall|i: int, j: int|
        0 <= i < a.len() && 0 <= j < b.len() ==> a[i].id != b[j].id
}

/// Priority order of one side: for bids descending prices, for asks
/// ascending; equal prices stay in arrival order, which the sequence
/// order itself records.
pub open spec fn sorted_side(s: Seq<OrderModel>, is_buy: bool) -> bool {
    forall|i: int, j: int|
        0 <= i < j < s.len() ==> (if is_buy {
            s[i].price >= s[j].price
        } else {
            s[i].price <= s[j].price
        })
}

pub open spec fn side_ok(s: Seq<OrderModel>, is_buy: bool) -> bool {
    forall|i: int| 0 <= i < s.len() ==> s[i].is_buy == is_buy && s[i].qty > 0
}

pub open spec fn book_wf(b: BookModel) -> bool {
    &&& sorted_side(b.bids, true)
    &&& sorted_side(b.asks, false)
    &&& side_ok(b.bids, true)
    &&& side_ok(b.asks, false)
    &&& ids_unique(b.bids)
    &&& ids_unique(b.asks)
    &&& ids_disjoint(b.bids, b.asks)
}

pub open spec fn book_contains_id(b: BookModel, id: Seq<char>) -> bool {
    id_in(b.bids, id) || id_in(b.asks, id)
}

/// One side with the first order under `id` taken out.
pub open spec fn remove_id_seq(s: Seq<OrderModel>, id: Seq<char>) -> Seq<OrderModel>
    decreases s.len(),
{
    if s.len() == 0 {
        s
    } else if s[0].id == id {
        s.drop_first()
    } else {
        seq![s[0]] + remove_id_seq(s.drop_first(), id)
    }
}

pub open spec fn remove_id(b: BookModel, id: Seq<char>) -> BookModel {
    BookModel { bids: remove_id_seq(b.bids, id), asks: remove_id_seq(b.asks, id) }
}

/// One side with the first order under `id` set to quantity `q`;
/// setting zero cancels it. Price and queue position stay.
pub open spec fn modify_id_seq(s: Seq<OrderModel>, id: Seq<char>, q: u64) -> Seq<OrderModel>
    decreases s.len(),
{
    if s.len() == 0 {
        s
    } else if s[0].id == id {
        if q == 0 {
            s.drop_first()
        } else {
            s.update(0, OrderModel { id: s[0].id, is_buy: s[0].is_buy, price: s[0].price, qty: q })
        }
    } else {
        seq![s[0]] + modify_id_seq(s.drop_first(), id, q)
    }
}

pub open spec fn modify_id(b: BookModel, id: Seq<char>, q: u64) -> BookModel {
    BookModel { bids: modify_id_seq(b.bids, id, q), asks: modify_id_seq(b.asks, id, q) }
}

/// Does a resting price cross an incoming limit?
pub open spec fn crosses(inc_buy: bool, limit: u64, resting_price: u64) -> bool {
    if inc_buy {
        resting_price <= limit
    } else {
        resting_price >= limit
    }
}

/// Matching an incoming order against the opposite side, held best
/// price first: consume from the front while the front crosses, until
/// the incoming quantity is spent. Yields the side as it remains and
/// the unspent quantity.
pub open spec fn match_rec(opp: Seq<OrderModel>, inc_buy: bool, limit: u64, qty: u64) -> (
    Seq<OrderModel>,
    u64,
)
    decreases opp.len(),
{
    if qty == 0 || opp.len() == 0 || !crosses(inc_buy, limit, opp[0].price) {
        (opp, qty)
    } else if opp[0].qty <= qty {
        match_rec(opp.drop_first(), inc_buy, limit, (qty - opp[0].qty) as u64)
    } else {
        (
            opp.update(
                0,
                OrderModel {
                    id: opp[0].id,
                    is_buy: opp[0].is_buy,
                    price: opp[0].price,
                    qty: (opp[0].qty - qty) as u64,
                },
            ),
            0u64,
        )
    }
}

/// Where an incoming order rests on its own side: after every order
/// with equal or better price, so ties keep arrival order.
pub open spec fn insert_pos(s: Seq<OrderModel>, is_buy: bool, price: u64) -> int
    decreases s.len(),
{
    if s.len() == 0 {
        0
    } else if (if is_buy {
        s[0].price >= price
    } else {
        s[0].price <= price
    }) {
        1 + insert_pos(s.drop_first(), is_buy, price)
    } else {
        0
    }
}

/// The whole effect of adding an order whose id is not yet resting:
/// match against the opposite side, then rest any remainder.
pub open spec fn apply_add(b: BookModel, o: OrderModel) -> BookModel {
    if o.is_buy {
        let (asks2, left) = match_rec(b.asks, true, o.price, o.qty);
        if left > 0 {
            BookModel {
                bids: b.bids.insert(
                    insert_pos(b.bids, true, o.price),
                    OrderModel { id: o.id, is_buy: o.is_buy, price: o.price, qty: left },
                ),
                asks: asks2,
            }
        } else {
            BookModel { bids: b.bids, asks: asks2 }
        }
    } else {
        let (bids2, left) = match_rec(b.bids, false, o.price, o.qty);
        if left > 0 {
            BookModel {
                bids: bids2,
                asks: b.asks.insert(
                    insert_pos(b.asks, false, o.price),
                    OrderModel { id: o.id, is_buy: o.is_buy, price: o.price, qty: left },
                ),
            }
        } else {
            BookModel { bids: bids2, asks: b.asks }
        }
    }
}

impl Orderbook {
    pub open spec fn wf(&self) -> bool {
        book_wf(self@)
    }

    pub fn new() -> (r: Orderbook)
        ensures
            r.wf(),
            r@.bids.len() == 0,
            r@.asks.len() == 0,
    {
        Orderbook { bids: Vec::new(), asks: Vec::new() }
    }

    /// Snapshot resync: discard every resting order.
    pub fn clear(&mut self)
        ensures
            final(self).wf(),
            final(self)@.bids.len() == 0,
            final(self)@.asks.len() == 0,
    {
        self.bids = Vec::new();
        self.asks = Vec::new();
    }

    /// Adds a new order: reports `IdExists` without effect when the id
    /// already rests; otherwise matches it against the opposite side,
    /// best price first, and rests any remainder at its price-time
    /// position on its own side.
    pub fn add_order(&mut self, order: Order) -> (r: Result<(), OrderError>)
        requires
            old(self).wf(),
        ensures
            final(self).wf(),
            book_contains_id(old(self)@, order@.id) ==> r == Err::<(), OrderError>(
                OrderError::IdExists,
            ) && *final(self) == *old(self),
            !book_contains_id(old(self)@, order@.id) ==> r == Ok::<(), OrderError>(())
                && final(self)@ == apply_add(old(self)@, order@),
    {
        let ghost pre = self@;
        match find_index(&self.bids, &order.order_id) {
            Some(i) => {
                proof {
                    assert(orders_view(self.bids@)[i as int].id == order@.id);
                }
                return Err(OrderError::IdExists);
            },
            None => {},
        }
        match find_index(&self.asks, &order.order_id) {
            Some(i) => {
                proof {
                    assert(orders_view(self.asks@)[i as int].id == order@.id);
                }
                return Err(OrderError::IdExists);
            },
            None => {},
        }
        let inc_buy = order.side == Side::Buy;
        let limit = order.price.0;
        let qty0 = order.quantity.0;
        if inc_buy {
            let left = match_side(&mut self.asks, true, limit, qty0);
            proof {
                lemma_match_rec_wf(pre.asks, true, limit, qty0);
            }
            if left > 0 {
                let rest = Order { quantity: Quantity(left), ..order };
                proof {
                    lemma_insert_resting_wf(pre.bids, true, rest@);
                }
                insert_resting(&mut self.bids, rest, true);
            }
            proof {
                lemma_add_assemble(pre, order@, self@, true);
            }
        } else {
            let left = match_side(&mut self.bids, false, limit, qty0);
            proof {
                lemma_match_rec_wf(pre.bids, false, limit, qty0);
            }
            if left > 0 {
                let rest = Order { quantity: Quantity(left), ..order };
                proof {
                    lemma_insert_resting_wf(pre.asks, false, rest@);
                }
                insert_resting(&mut self.asks, rest, false);
            }
            proof {
                lemma_add_assemble(pre, order@, self@, false);
            }
        }
        Ok(())
    }

    /// Sets the quantity of the resting order under `id`; zero cancels
    /// it. Price and queue position are untouched.
    pub fn modify_order(&mut self, id: OrderId, quantity: Quantity) -> (r: Result<
        (),
        OrderError,
    >)
        requires
            old(self).wf(),
        ensures
            final(self).wf(),
            book_contains_id(old(self)@, id@) ==> r == Ok::<(), OrderError>(())
                && final(self)@ == modify_id(old(self)@, id@, quantity.0),
            !book_contains_id(old(self)@, id@) ==> r == Err::<(), OrderError>(
                OrderError::NotFound,
            ) && *final(self) == *old(self),
    {
        let ghost pre = self@;
        match find_index(&self.bids, &id) {
            Some(i) => {
                proof {
                    lemma_modify_at_found(pre.bids, id@, i as int, quantity.0);
                    lemma_modify_absent(pre.asks, id@, quantity.0);
                    if quantity.0 == 0 {
                        lemma_remove_entry_wf(pre.bids, i as int, true);
                    } else {
                        lemma_update_entry_wf(pre.bids, i as int, quantity.0, true);
                    }
                }
                let o = self.bids.remove(i);
                if quantity.0 > 0 {
                    self.bids.insert(i, Order { quantity, ..o });
                    proof {
                        assert(orders_view(self.bids@) =~= pre.bids.update(
                            i as int,
                            OrderModel {
                                id: pre.bids[i as int].id,
                                is_buy: pre.bids[i as int].is_buy,
                                price: pre.bids[i as int].price,
                                qty: quantity.0,
                            },
                        ));
                    }
                } else {
                    proof {
                        assert(orders_view(self.bids@) =~= pre.bids.remove(i as int));
                    }
                }
                proof {
                    assert(self@.bids =~= modify_id(pre, id@, quantity.0).bids);
                    assert(self@.asks =~= modify_id(pre, id@, quantity.0).asks);
                }
                Ok(())
            },
            None => {
                match find_index(&self.asks, &id) {
                    Some(i) => {
                        proof {
                            lemma_modify_at_found(pre.asks, id@, i as int, quantity.0);
                            lemma_modify_absent(pre.bids, id@, quantity.0);
                            if quantity.0 == 0 {
                                lemma_remove_entry_wf(pre.asks, i as int, false);
                            } else {
                                lemma_update_entry_wf(pre.asks, i as int, quantity.0, false);
                            }
                        }
                        let o = self.asks.remove(i);
                        if quantity.0 > 0 {
                            self.asks.insert(i, Order { quantity, ..o });
                            proof {
                                assert(orders_view(self.asks@) =~= pre.asks.update(
                                    i as int,
                                    OrderModel {
                                        id: pre.asks[i as int].id,
                                        is_buy: pre.asks[i as int].is_buy,
                                        price: pre.asks[i as int].price,
                                        qty: quantity.0,
                                    },
                                ));
                            }
                        } else {
                            proof {
                                assert(orders_view(self.asks@) =~= pre.asks.remove(i as int));
                            }
                        }
                        proof {
                            assert(self@.bids =~= modify_id(pre, id@, quantity.0).bids);
                            assert(self@.asks =~= modify_id(pre, id@, quantity.0).asks);
                        }
                        Ok(())
                    },
                    None => Err(OrderError::NotFound),
                }
            },
        }
    }

    /// The book aggregated into price levels, per side, in priority
    /// order.
    pub fn get_levels(&self) -> (r: Levels)
        ensures
            levels_view(r.bids@) == levels_of(self@.bids),
            levels_view(r.asks@) == levels_of(self@.asks),
    {
        Levels { bids: side_levels(&self.bids), asks: side_levels(&self.asks) }
    }

    /// The arithmetic mean of the best bid and best ask, rounded down;
    /// nothing while either side is empty.
    pub fn midprice(&self) -> (r: Option<Price>)
        ensures
            self@.bids.len() > 0 && self@.asks.len() > 0 ==> r == Some(
                Price(((self@.bids[0].price + self@.asks[0].price) / 2) as u64),
            ),
            !(self@.bids.len() > 0 && self@.asks.len() > 0) ==> r is None,
    {
        if self.bids.len() > 0 && self.asks.len() > 0 {
            let b = self.bids[0].price.0;
            let a = self.asks[0].price.0;
            let mid = ((b as u128 + a as u128) / 2) as u64;
            Some(Price(mid))
        } else {
            None
        }
    }

    /// Removes the resting order under `id`, whichever side holds it.
    pub fn cancel_order(&mut self, id: OrderId) -> (r: Result<(), OrderError>)
        requires
            old(self).wf(),
        ensures
            final(self).wf(),
            book_contains_id(old(self)@, id@) ==> r == Ok::<(), OrderError>(())
                && final(self)@ == remove_id(old(self)@, id@),
            !book_contains_id(old(self)@, id@) ==> r == Err::<(), OrderError>(
                OrderError::NotFound,
            ) && *final(self) == *old(self),
    {
        let ghost pre = self@;
        match find_index(&self.bids, &id) {
            Some(i) => {
                proof {
                    lemma_remove_at_found(self@.bids, id@, i as int);
                    lemma_remove_absent(self@.asks, id@);
                    lemma_remove_entry_wf(self@.bids, i as int, true);
                }
                self.bids.remove(i);
                proof {
                    assert(orders_view(self.bids@) =~= pre.bids.remove(i as int));
                    assert(self@ =~= remove_id(pre, id@));
                }
                Ok(())
            },
            None => {
                match find_index(&self.asks, &id) {
                    Some(i) => {
                        proof {
                            lemma_remove_at_found(self@.asks, id@, i as int);
                            lemma_remove_absent(self@.bids, id@);
                            lemma_remove_entry_wf(self@.asks, i as int, false);
                        }
                        self.asks.remove(i);
                        proof {
                            assert(orders_view(self.asks@) =~= pre.asks.remove(i as int));
                            assert(self@ =~= remove_id(pre, id@));
                        }
                        Ok(())
                    },
                    None => Err(OrderError::NotFound),
                }
            },
        }
    }
}

/// Index of the first order under `id`, scanning in priority order.
fn find_index(v: &Vec<Order>, id: &OrderId) -> (r: Option<usize>)
    ensures
        match r {
            Some(i) => i < v@.len() && v@[i as int]@.id == id@ && forall|j: int|
                0 <= j < i ==> v@[j]@.id != id@,
            None => !id_in(orders_view(v@), id@),
        },
{
    let mut i: usize = 0;
    while i < v.len()
        invariant
            i <= v@.len(),
            forall|j: int| 0 <= j < i ==> v@[j]@.id != id@,
        decreases v@.len() - i,
    {
        if v[i].order_id.0.eq(&id.0) {
            return Some(i);
        }
        i += 1;
    }
    assert(forall|j: int| 0 <= j < v@.len() ==> orders_view(v@)[j].id != id@);
    None
}

/// One aggregated price level: every resting order at one price,
/// quantities summed. Wide enough that no sum can overflow.
#[derive(Clone, Copy, PartialEq, Eq, Structural, Debug)]
pub struct Level {
    pub price: u64,
    pub quantity: u128,
}

/// The book aggregated by price, each side in its priority order.
#[derive(Debug)]
pub struct Levels {
    pub bids: Vec<Level>,
    pub asks: Vec<Level>,
}

impl Levels {
    pub fn bids(&self) -> (r: &Vec<Level>)
        ensures
            r == self.bids,
    {
        &self.bids
    }

    pub fn asks(&self) -> (r: &Vec<Level>)
        ensures
            r == self.asks,
    {
        &self.asks
    }
}

pub open spec fn levels_view(v: Seq<Level>) -> Seq<(u64, int)> {
    v.map_values(|l: Level| (l.price, l.quantity as int))
}

/// Adjacent equal prices of a priority-ordered side, folded into one
/// level each, quantities added.
pub open spec fn levels_of(s: Seq<OrderModel>) -> Seq<(u64, int)>
    decreases s.len(),
{
    if s.len() == 0 {
        Seq::empty()
    } else {
        let rest = levels_of(s.drop_first());
        if rest.len() > 0 && rest[0].0 == s[0].price {
            rest.update(0, (s[0].price, s[0].qty + rest[0].1))
        } else {
            seq![(s[0].price, s[0].qty as int)] + rest
        }
    }
}

/// Folds one side into price levels, walking from the back so that
/// each step prepends or merges into the front level.
fn side_levels(v: &Vec<Order>) -> (r: Vec<Level>)
    ensures
        levels_view(r@) == levels_of(orders_view(v@)),
{
    let ghost s = orders_view(v@);
    let mut acc: Vec<Level> = Vec::new();
    let mut i = v.len();
    proof {
        assert(s.skip(i as int) =~= Seq::<OrderModel>::empty());
        assert(v@.len() == vstd::std_specs::vec::spec_vec_len(v));
    }
    while i > 0
        invariant
            i <= v@.len(),
            s.len() <= 0xffff_ffff_ffff_ffffu64,
            s == orders_view(v@),
            levels_view(acc@) == levels_of(s.skip(i as int)),
            forall|k: int|
                0 <= k < acc@.len() ==> 0 <= (#[trigger] levels_view(acc@)[k]).1 <= (s.len()
                    - i) * 0xffff_ffff_ffff_ffffu64,
        decreases i,
    {
        i -= 1;
        let price = v[i].price.0;
        let qty = v[i].quantity.0;
        let ghost before = acc@;
        let ghost tail = s.skip(i as int + 1);
        proof {
            assert(s.skip(i as int).drop_first() =~= tail);
            assert(s.skip(i as int)[0] == s[i as int]);
        }
        if acc.len() > 0 && acc[0].price == price {
            let l0 = acc.remove(0);
            proof {
                assert(levels_view(before)[0].1 <= (s.len() - i - 1)
                    * 0xffff_ffff_ffff_ffffu64);
                assert((s.len() - i - 1) * 0xffff_ffff_ffff_ffffu64
                    + 0xffff_ffff_ffff_ffffu64 == (s.len() - i)
                    * 0xffff_ffff_ffff_ffffu64) by (nonlinear_arith);
                assert((s.len() - i) * 0xffff_ffff_ffff_ffffu64 < u128::MAX) by (
                nonlinear_arith)
                    requires
                        s.len() <= 0xffff_ffff_ffff_ffffu64,
                        0 <= i,
                ;
            }
            acc.insert(0, Level { price, quantity: l0.quantity + qty as u128 });
            proof {
                assert(levels_view(acc@) =~= levels_view(before).update(
                    0,
                    (price, qty + levels_view(before)[0].1),
                ));
            }
        } else {
            acc.insert(0, Level { price, quantity: qty as u128 });
            proof {
                assert(levels_view(acc@) =~= seq![(price, qty as int)] + levels_view(before));
            }
        }
        proof {
            assert(levels_view(acc@) =~= levels_of(s.skip(i as int)));
            assert forall|k: int| 0 <= k < acc@.len() implies 0 <= (#[trigger] levels_view(
                acc@,
            )[k]).1 <= (s.len() - i) * 0xffff_ffff_ffff_ffffu64 by {
                assert((s.len() - i - 1) * 0xffff_ffff_ffff_ffffu64
                    + 0xffff_ffff_ffff_ffffu64 == (s.len() - i)
                    * 0xffff_ffff_ffff_ffffu64) by (nonlinear_arith);
                if k > 0 || !(before.len() > 0 && before[0].price == price) {
                }
            }
        }
    }
    proof {
        assert(s.skip(0) =~= s);
    }
    acc
}

/// Consumes crossing orders from the front of the opposite side.
fn match_side(opp: &mut Vec<Order>, inc_buy: bool, limit: u64, qty0: u64) -> (left: u64)
    ensures
        (orders_view(final(opp)@), left) == match_rec(
            orders_view(old(opp)@),
            inc_buy,
            limit,
            qty0,
        ),
{
    let ghost orig = orders_view(old(opp)@);
    let mut qty = qty0;
    loop
        invariant
            match_rec(orders_view(opp@), inc_buy, limit, qty) == match_rec(
                orig,
                inc_buy,
                limit,
                qty0,
            ),
        ensures
            match_rec(orders_view(opp@), inc_buy, limit, qty) == match_rec(
                orig,
                inc_buy,
                limit,
                qty0,
            ),
            qty == 0 || orders_view(opp@).len() == 0 || !crosses(
                inc_buy,
                limit,
                orders_view(opp@)[0].price,
            ),
        decreases opp@.len() + qty,
    {
        if qty == 0 || opp.len() == 0 {
            break;
        }
        let front_price = opp[0].price.0;
        let crossing = if inc_buy {
            front_price <= limit
        } else {
            front_price >= limit
        };
        if !crossing {
            break;
        }
        let ghost prev = orders_view(opp@);
        let ghost qty_prev = qty;
        let front = opp.remove(0);
        if front.quantity.0 <= qty {
            qty = qty - front.quantity.0;
            proof {
                assert(orders_view(opp@) =~= prev.drop_first());
                assert(match_rec(prev, inc_buy, limit, qty_prev) == match_rec(
                    prev.drop_first(),
                    inc_buy,
                    limit,
                    (qty_prev - front@.qty) as u64,
                ));
            }
        } else {
            let newq = front.quantity.0 - qty;
            opp.insert(0, Order { quantity: Quantity(newq), ..front });
            qty = 0;
            proof {
                assert(orders_view(opp@) =~= prev.update(
                    0,
                    OrderModel {
                        id: prev[0].id,
                        is_buy: prev[0].is_buy,
                        price: prev[0].price,
                        qty: (prev[0].qty - qty_prev) as u64,
                    },
                ));
                assert(match_rec(orders_view(opp@), inc_buy, limit, 0u64) == (
                    orders_view(opp@),
                    0u64,
                ));
            }
        }
    }
    proof {
        assert(match_rec(orders_view(opp@), inc_buy, limit, qty) == (orders_view(opp@), qty));
    }
    qty
}

/// Places a resting order on its own side at its price-time position.
fn insert_resting(v: &mut Vec<Order>, order: Order, is_buy: bool)
    ensures
        orders_view(final(v)@) == orders_view(old(v)@).insert(
            insert_pos(orders_view(old(v)@), is_buy, order@.price),
            order@,
        ),
{
    let ghost orig = orders_view(old(v)@);
    let price = order.price.0;
    let mut i: usize = 0;
    loop
        invariant
            i <= v@.len(),
            orders_view(v@) == orig,
            forall|j: int|
                0 <= j < i ==> (if is_buy {
                    orig[j].price >= price
                } else {
                    orig[j].price <= price
                }),
        ensures
            i <= v@.len(),
            orders_view(v@) == orig,
            forall|j: int|
                0 <= j < i ==> (if is_buy {
                    orig[j].price >= price
                } else {
                    orig[j].price <= price
                }),
            i == v@.len() || !(if is_buy {
                orig[i as int].price >= price
            } else {
                orig[i as int].price <= price
            }),
        decreases v@.len() - i,
    {
        if i >= v.len() {
            break;
        }
        let keep = if is_buy {
            v[i].price.0 >= price
        } else {
            v[i].price.0 <= price
        };
        if !keep {
            break;
        }
        i += 1;
    }
    proof {
        lemma_insert_pos_at(orig, is_buy, price, i as int);
    }
    v.insert(i, order);
    proof {
        assert(orders_view(v@) =~= orig.insert(insert_pos(orig, is_buy, price), order@));
    }
}

/// The run of kept prices before `i` and a stop at `i` put the
/// insertion point exactly there.
proof fn lemma_insert_pos_at(s: Seq<OrderModel>, is_buy: bool, price: u64, i: int)
    requires
        0 <= i <= s.len(),
        forall|j: int|
            0 <= j < i ==> (if is_buy {
                s[j].price >= price
            } else {
                s[j].price <= price
            }),
        i == s.len() || !(if is_buy {
            s[i].price >= price
        } else {
            s[i].price <= price
        }),
    ensures
        insert_pos(s, is_buy, price) == i,
    decreases i,
{
    if i == 0 {
    } else {
        assert(if is_buy {
            s[0].price >= price
        } else {
            s[0].price <= price
        });
        assert forall|j: int| 0 <= j < i - 1 implies (if is_buy {
            s.drop_first()[j].price >= price
        } else {
            s.drop_first()[j].price <= price
        }) by {
            assert(s.drop_first()[j] == s[j + 1]);
        }
        if i < s.len() {
            assert(s.drop_first()[i - 1] == s[i]);
        }
        lemma_insert_pos_at(s.drop_first(), is_buy, price, i - 1);
    }
}

/// The first element's facts carry to the rest of a side.
proof fn lemma_tail_wf(s: Seq<OrderModel>, is_buy: bool)
    requires
        s.len() > 0,
    ensures
        sorted_side(s, is_buy) ==> sorted_side(s.drop_first(), is_buy),
        side_ok(s, is_buy) ==> side_ok(s.drop_first(), is_buy),
        ids_unique(s) ==> ids_unique(s.drop_first()),
        forall|id: Seq<char>| id_in(s.drop_first(), id) ==> id_in(s, id),
{
    assert(s.drop_first() =~= s.remove(0));
    lemma_remove_entry_wf(s, 0, is_buy);
    assert forall|id: Seq<char>| id_in(s.drop_first(), id) implies id_in(s, id) by {
        let k = choose|k: int| 0 <= k < s.drop_first().len() && s.drop_first()[k].id == id;
        assert(s[k + 1].id == id);
    }
}

/// Matching preserves a side's well-formedness, introduces no id, and
/// never returns more than came in.
proof fn lemma_match_rec_wf(opp: Seq<OrderModel>, inc_buy: bool, limit: u64, qty: u64)
    requires
        sorted_side(opp, !inc_buy),
        side_ok(opp, !inc_buy),
        ids_unique(opp),
    ensures
        sorted_side(match_rec(opp, inc_buy, limit, qty).0, !inc_buy),
        side_ok(match_rec(opp, inc_buy, limit, qty).0, !inc_buy),
        ids_unique(match_rec(opp, inc_buy, limit, qty).0),
        forall|id: Seq<char>|
            id_in(match_rec(opp, inc_buy, limit, qty).0, id) ==> id_in(opp, id),
        match_rec(opp, inc_buy, limit, qty).1 <= qty,
    decreases opp.len(),
{
    if qty == 0 || opp.len() == 0 || !crosses(inc_buy, limit, opp[0].price) {
    } else if opp[0].qty <= qty {
        lemma_tail_wf(opp, !inc_buy);
        lemma_match_rec_wf(opp.drop_first(), inc_buy, limit, (qty - opp[0].qty) as u64);
    } else {
        let m = OrderModel {
            id: opp[0].id,
            is_buy: opp[0].is_buy,
            price: opp[0].price,
            qty: (opp[0].qty - qty) as u64,
        };
        let res = opp.update(0, m);
        assert forall|id: Seq<char>| id_in(res, id) implies id_in(opp, id) by {
            let k = choose|k: int| 0 <= k < res.len() && res[k].id == id;
            assert(opp[k].id == id);
        }
    }
}

/// Resting an order at its insertion point keeps the side well formed
/// and adds exactly its id.
proof fn lemma_insert_resting_wf(s: Seq<OrderModel>, is_buy: bool, m: OrderModel)
    requires
        sorted_side(s, is_buy),
        side_ok(s, is_buy),
        ids_unique(s),
        m.is_buy == is_buy,
        m.qty > 0,
        !id_in(s, m.id),
    ensures
        sorted_side(s.insert(insert_pos(s, is_buy, m.price), m), is_buy),
        side_ok(s.insert(insert_pos(s, is_buy, m.price), m), is_buy),
        ids_unique(s.insert(insert_pos(s, is_buy, m.price), m)),
        forall|id: Seq<char>|
            id_in(s.insert(insert_pos(s, is_buy, m.price), m), id) ==> id_in(s, id) || id
                == m.id,
{
    let p = insert_pos(s, is_buy, m.price);
    lemma_insert_pos_run(s, is_buy, m.price);
    let t = s.insert(p, m);
    assert forall|i: int, j: int| 0 <= i < j < t.len() implies (if is_buy {
        t[i].price >= t[j].price
    } else {
        t[i].price <= t[j].price
    }) by {
        if j < p {
        } else if i > p {
            assert(t[i] == s[i - 1] && t[j] == s[j - 1]);
        } else if i == p && j > p {
            assert(t[j] == s[j - 1] && j - 1 >= p);
        } else if j == p && i < p {
            assert(t[i] == s[i]);
        } else if i < p && j > p {
            assert(t[i] == s[i] && t[j] == s[j - 1]);
        }
    }
    assert forall|i: int| 0 <= i < t.len() implies t[i].is_buy == is_buy && t[i].qty > 0 by {
        if i < p {
            assert(t[i] == s[i]);
        } else if i > p {
            assert(t[i] == s[i - 1]);
        }
    }
    assert forall|i: int, j: int| 0 <= i < j < t.len() implies t[i].id != t[j].id by {
        if i == p {
            assert(t[j] == s[j - 1]);
            assert(!id_in(s, m.id));
            assert(s[j - 1].id != m.id);
        } else if j == p {
            assert(t[i] == s[i]);
            assert(s[i].id != m.id);
        }
    }
    assert forall|id: Seq<char>| id_in(t, id) implies id_in(s, id) || id == m.id by {
        let k = choose|k: int| 0 <= k < t.len() && t[k].id == id;
        if k < p {
            assert(s[k].id == id);
        } else if k > p {
            assert(s[k - 1].id == id);
        }
    }
}

/// Every price before the insertion point is kept; from there on,
/// sortedness puts every price strictly past the new one.
proof fn lemma_insert_pos_run(s: Seq<OrderModel>, is_buy: bool, price: u64)
    ensures
        0 <= insert_pos(s, is_buy, price) <= s.len(),
        forall|j: int|
            0 <= j < insert_pos(s, is_buy, price) ==> (if is_buy {
                s[j].price >= price
            } else {
                s[j].price <= price
            }),
        insert_pos(s, is_buy, price) == s.len() || !(if is_buy {
            s[insert_pos(s, is_buy, price)].price >= price
        } else {
            s[insert_pos(s, is_buy, price)].price <= price
        }),
    decreases s.len(),
{
    if s.len() == 0 {
    } else if (if is_buy {
        s[0].price >= price
    } else {
        s[0].price <= price
    }) {
        lemma_insert_pos_run(s.drop_first(), is_buy, price);
        let p = insert_pos(s, is_buy, price);
        assert forall|j: int| 0 <= j < p implies (if is_buy {
            s[j].price >= price
        } else {
            s[j].price <= price
        }) by {
            if j > 0 {
                assert(s.drop_first()[j - 1] == s[j]);
            }
        }
        if p < s.len() {
            assert(s.drop_first()[p - 1] == s[p]);
        }
    }
}

/// Ties the two phases of an add to `apply_add` and to the book's
/// well-formedness.
proof fn lemma_add_assemble(pre: BookModel, o: OrderModel, post: BookModel, inc_buy: bool)
    requires
        book_wf(pre),
        !book_contains_id(pre, o.id),
        o.is_buy == inc_buy,
        inc_buy ==> post.asks == match_rec(pre.asks, true, o.price, o.qty).0 && post.bids == (
        if match_rec(pre.asks, true, o.price, o.qty).1 > 0 {
            pre.bids.insert(
                insert_pos(pre.bids, true, o.price),
                OrderModel {
                    id: o.id,
                    is_buy: o.is_buy,
                    price: o.price,
                    qty: match_rec(pre.asks, true, o.price, o.qty).1,
                },
            )
        } else {
            pre.bids
        }),
        !inc_buy ==> post.bids == match_rec(pre.bids, false, o.price, o.qty).0 && post.asks == (
        if match_rec(pre.bids, false, o.price, o.qty).1 > 0 {
            pre.asks.insert(
                insert_pos(pre.asks, false, o.price),
                OrderModel {
                    id: o.id,
                    is_buy: o.is_buy,
                    price: o.price,
                    qty: match_rec(pre.bids, false, o.price, o.qty).1,
                },
            )
        } else {
            pre.asks
        }),
    ensures
        post == apply_add(pre, o),
        book_wf(post),
{
    if inc_buy {
        let left = match_rec(pre.asks, true, o.price, o.qty).1;
        lemma_match_rec_wf(pre.asks, true, o.price, o.qty);
        if left > 0 {
            let m = OrderModel { id: o.id, is_buy: true, price: o.price, qty: left };
            lemma_insert_resting_wf(pre.bids, true, m);
        }
        assert forall|i: int, j: int|
            0 <= i < post.bids.len() && 0 <= j < post.asks.len() implies post.bids[i].id
            != post.asks[j].id by {
            assert(id_in(post.bids, post.bids[i].id));
            assert(id_in(post.asks, post.asks[j].id));
            assert(id_in(pre.asks, post.asks[j].id));
            assert(id_in(pre.bids, post.bids[i].id) || post.bids[i].id == o.id);
            let l = choose|l: int|
                0 <= l < pre.asks.len() && pre.asks[l].id == post.asks[j].id;
            if post.bids[i].id == o.id {
                assert(!id_in(pre.asks, o.id));
                assert(pre.asks[l].id != o.id);
            } else {
                let k = choose|k: int|
                    0 <= k < pre.bids.len() && pre.bids[k].id == post.bids[i].id;
                assert(pre.bids[k].id != pre.asks[l].id);
            }
        }
    } else {
        let left = match_rec(pre.bids, false, o.price, o.qty).1;
        lemma_match_rec_wf(pre.bids, false, o.price, o.qty);
        if left > 0 {
            let m = OrderModel { id: o.id, is_buy: false, price: o.price, qty: left };
            lemma_insert_resting_wf(pre.asks, false, m);
        }
        assert forall|i: int, j: int|
            0 <= i < post.bids.len() && 0 <= j < post.asks.len() implies post.bids[i].id
            != post.asks[j].id by {
            assert(id_in(post.bids, post.bids[i].id));
            assert(id_in(post.asks, post.asks[j].id));
            assert(id_in(pre.bids, post.bids[i].id));
            assert(id_in(pre.asks, post.asks[j].id) || post.asks[j].id == o.id);
            let k = choose|k: int|
                0 <= k < pre.bids.len() && pre.bids[k].id == post.bids[i].id;
            if post.asks[j].id == o.id {
                assert(!id_in(pre.bids, o.id));
                assert(pre.bids[k].id != o.id);
            } else {
                let l = choose|l: int|
                    0 <= l < pre.asks.len() && pre.asks[l].id == post.asks[j].id;
                assert(pre.bids[k].id != pre.asks[l].id);
            }
        }
    }
}

/// Where a clean prefix ends at a hit, modification by id is removal
/// or update at that position.
proof fn lemma_modify_at_found(s: Seq<OrderModel>, id: Seq<char>, i: int, q: u64)
    requires
        0 <= i < s.len(),
        s[i].id == id,
        forall|j: int| 0 <= j < i ==> s[j].id != id,
    ensures
        q == 0 ==> modify_id_seq(s, id, q) =~= s.remove(i),
        q > 0 ==> modify_id_seq(s, id, q) =~= s.update(
            i,
            OrderModel { id: s[i].id, is_buy: s[i].is_buy, price: s[i].price, qty: q },
        ),
    decreases i,
{
    if i == 0 {
        if q == 0 {
            assert(s.drop_first() =~= s.remove(0));
        }
    } else {
        lemma_modify_at_found(s.drop_first(), id, i - 1, q);
        if q == 0 {
            assert(seq![s[0]] + s.drop_first().remove(i - 1) =~= s.remove(i));
        } else {
            assert(s.drop_first()[i - 1] == s[i]);
            assert(seq![s[0]] + s.drop_first().update(
                i - 1,
                OrderModel { id: s[i].id, is_buy: s[i].is_buy, price: s[i].price, qty: q },
            ) =~= s.update(
                i,
                OrderModel { id: s[i].id, is_buy: s[i].is_buy, price: s[i].price, qty: q },
            ));
        }
    }
}

/// Modification by an id that is not resting changes nothing.
proof fn lemma_modify_absent(s: Seq<OrderModel>, id: Seq<char>, q: u64)
    requires
        !id_in(s, id),
    ensures
        modify_id_seq(s, id, q) =~= s,
    decreases s.len(),
{
    if s.len() > 0 {
        assert(s[0].id != id);
        assert forall|j: int| 0 <= j < s.drop_first().len() implies s.drop_first()[j].id
            != id by {
            assert(s.drop_first()[j] == s[j + 1]);
        }
        lemma_modify_absent(s.drop_first(), id, q);
        assert(seq![s[0]] + s.drop_first() =~= s);
    }
}

/// Setting a positive quantity at a position keeps a side well formed.
proof fn lemma_update_entry_wf(s: Seq<OrderModel>, i: int, q: u64, is_buy: bool)
    requires
        0 <= i < s.len(),
        q > 0,
    ensures
        sorted_side(s, is_buy) ==> sorted_side(
            s.update(
                i,
                OrderModel { id: s[i].id, is_buy: s[i].is_buy, price: s[i].price, qty: q },
            ),
            is_buy,
        ),
        side_ok(s, is_buy) ==> side_ok(
            s.update(
                i,
                OrderModel { id: s[i].id, is_buy: s[i].is_buy, price: s[i].price, qty: q },
            ),
            is_buy,
        ),
        ids_unique(s) ==> ids_unique(
            s.update(
                i,
                OrderModel { id: s[i].id, is_buy: s[i].is_buy, price: s[i].price, qty: q },
            ),
        ),
        forall|id: Seq<char>|
            id_in(
                s.update(
                    i,
                    OrderModel { id: s[i].id, is_buy: s[i].is_buy, price: s[i].price, qty: q },
                ),
                id,
            ) ==> id_in(s, id),
{
    let t = s.update(
        i,
        OrderModel { id: s[i].id, is_buy: s[i].is_buy, price: s[i].price, qty: q },
    );
    assert forall|id: Seq<char>| id_in(t, id) implies id_in(s, id) by {
        let k = choose|k: int| 0 <= k < t.len() && t[k].id == id;
        assert(s[k].id == id);
    }
}

/// Removing the entry at a position keeps a side well formed.
proof fn lemma_remove_entry_wf(s: Seq<OrderModel>, i: int, is_buy: bool)
    requires
        0 <= i < s.len(),
    ensures
        sorted_side(s, is_buy) ==> sorted_side(s.remove(i), is_buy),
        side_ok(s, is_buy) ==> side_ok(s.remove(i), is_buy),
        ids_unique(s) ==> ids_unique(s.remove(i)),
        forall|id: Seq<char>| !id_in(s, id) ==> !id_in(s.remove(i), id),
{
    assert forall|id: Seq<char>| !id_in(s, id) implies !id_in(s.remove(i), id) by {
        assert forall|k: int| 0 <= k < s.remove(i).len() implies s.remove(i)[k].id != id by {
            if k < i {
                assert(s.remove(i)[k] == s[k]);
            } else {
                assert(s.remove(i)[k] == s[k + 1]);
            }
        }
    }
}

/// Where a clean prefix ends at a hit, removal by id is removal at
/// that position.
proof fn lemma_remove_at_found(s: Seq<OrderModel>, id: Seq<char>, i: int)
    requires
        0 <= i < s.len(),
        s[i].id == id,
        forall|j: int| 0 <= j < i ==> s[j].id != id,
    ensures
        remove_id_seq(s, id) =~= s.remove(i),
        id_in(s, id),
    decreases i,
{
    if i == 0 {
        assert(remove_id_seq(s, id) == s.drop_first());
        assert(s.drop_first() =~= s.remove(0));
    } else {
        lemma_remove_at_found(s.drop_first(), id, i - 1);
        assert(remove_id_seq(s, id) == seq![s[0]] + remove_id_seq(s.drop_first(), id));
        assert(seq![s[0]] + s.drop_first().remove(i - 1) =~= s.remove(i));
    }
}

/// Removal by an id that is not resting changes nothing.
proof fn lemma_remove_absent(s: Seq<OrderModel>, id: Seq<char>)
    requires
        !id_in(s, id),
    ensures
        remove_id_seq(s, id) =~= s,
    decreases s.len(),
{
    if s.len() > 0 {
        assert(s[0].id != id);
        assert(!id_in(s.drop_first(), id)) by {
            assert forall|j: int| 0 <= j < s.drop_first().len() implies s.drop_first()[j].id
                != id by {
                assert(s.drop_first()[j] == s[j + 1]);
            }
        }
        lemma_remove_absent(s.drop_first(), id);
        assert(remove_id_seq(s, id) == seq![s[0]] + remove_id_seq(s.drop_first(), id));
        assert(seq![s[0]] + s.drop_first() =~= s);
    }
}

} // verus!
