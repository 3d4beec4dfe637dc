//! The matching core: price levels, the two-sided book, the crossing
//! algorithm, cancellation and clearing, specified against a sequence model.

use crate::orders::Order;
use crate::orders::Side;
use crate::orders::TimeStamp;
use crate::price::Price;
use crate::ticker::TickerSymbol;
use crate::ticker::symbol_bytes;
use crate::trades::Fill;
use crate::trades::fills_of;
use crate::trades::Trade;
use vstd::prelude::*;
use vstd::string::StringSliceAdditionalSpecFns;

verus! {

/// One price level: a FIFO queue of orders sharing a price. Index 0 is the
/// front of the queue, the earliest arrival.
pub struct Limit {
    pub price: Price,
    pub orders: Vec<Order>,
}

/// The mathematical model of one price level.
pub struct LimitView {
    pub price: Price,
    pub orders: Seq<Order>,
}

impl View for Limit {
    type V = LimitView;

    open spec fn view(&self) -> LimitView {
        LimitView { price: self.price, orders: self.orders@ }
    }
}

/// The mathematical model of a book: both sides as price-sorted sequences
/// of levels, best price first.
pub struct BookView {
    pub symbol: TickerSymbol,
    pub buys: Seq<LimitView>,
    pub sells: Seq<LimitView>,
}

/// `a` is strictly better than `b` on `side`: higher for a bid, lower for
/// an ask.
pub open spec fn better(side: Side, a: Price, b: Price) -> bool {
    match side {
        Side::Buy => b.spec_lt(&a),
        Side::Sell => a.spec_lt(&b),
    }
}

/// An incoming order of side `side` with limit price `incoming` crosses the
/// opposing best price `best`.
pub open spec fn crosses(side: Side, incoming: Price, best: Price) -> bool {
    match side {
        Side::Buy => best.spec_le(&incoming),
        Side::Sell => incoming.spec_le(&best),
    }
}

/// A level is well-formed for its side: non-empty, and every queued order
/// carries the level's price, the side, and a positive remaining quantity.
pub open spec fn limit_wf(l: LimitView, side: Side) -> bool {
    &&& l.orders.len() > 0
    &&& forall|i: int|
        0 <= i < l.orders.len() ==> (#[trigger] l.orders[i]).price == l.price
            && l.orders[i].side == side && l.orders[i].quantity > 0
}

/// A side is well-formed: every level is, and levels are strictly sorted
/// best price first. Strict sortedness makes every price key unique.
pub open spec fn side_wf(s: Seq<LimitView>, side: Side) -> bool {
    &&& forall|i: int| 0 <= i < s.len() ==> limit_wf(#[trigger] s[i], side)
    &&& forall|i: int, j: int|
        0 <= i < j < s.len() ==> better(side, (#[trigger] s[i]).price, (#[trigger] s[j]).price)
}

/// The model of a sequence of levels.
pub open spec fn limits_view(v: Seq<Limit>) -> Seq<LimitView> {
    v.map_values(|l: Limit| l@)
}

/// The side an incoming order of side `side` rests on, as a model.
pub open spec fn own_view(b: BookView, side: Side) -> Seq<LimitView> {
    match side {
        Side::Buy => b.buys,
        Side::Sell => b.sells,
    }
}

/// The side an incoming order of side `side` matches against, as a model.
pub open spec fn opp_view(b: BookView, side: Side) -> Seq<LimitView> {
    match side {
        Side::Buy => b.sells,
        Side::Sell => b.buys,
    }
}

/// The fill produced when the incoming taker of side `side` takes `qty`
/// units from the resting order `resting`. The execution price is the
/// resting order's price: the maker sets the price, the taker receives the
/// improvement.
pub open spec fn fill_of(side: Side, taker: u64, resting: Order, qty: u64) -> Fill {
    match side {
        Side::Buy => Fill {
            quantity: qty,
            price: resting.price,
            buy_user: taker,
            sell_user: resting.user_id,
        },
        Side::Sell => Fill {
            quantity: qty,
            price: resting.price,
            buy_user: resting.user_id,
            sell_user: taker,
        },
    }
}

/// What one submission does to the opposing side: the fills it generates in
/// order, the opposing side afterwards, and the incoming order's unmatched
/// remainder.
pub struct MatchResult {
    pub fills: Seq<Fill>,
    pub book: Seq<LimitView>,
    pub remaining: u64,
}

/// Length of the front level's queue; 0 for an empty side. Only a
/// termination measure for [`spec_match`].
pub open spec fn front_len(s: Seq<LimitView>) -> int {
    if s.len() > 0 {
        s[0].orders.len() as int
    } else {
        0
    }
}

/// The matching algorithm. While the incoming order has remaining quantity
/// and its price crosses the opposing best level, the front (earliest)
/// resting order of that level is filled at the resting order's price for
/// the smaller of the two remaining quantities. A partially filled resting
/// order keeps its place at the front of its queue; a fully consumed one is
/// removed, and its level with it once empty.
pub open spec fn spec_match(
    side: Side,
    price: Price,
    taker: u64,
    qty: u64,
    opp: Seq<LimitView>,
) -> MatchResult
    decreases opp.len(), front_len(opp),
{
    if qty == 0 || opp.len() == 0 || opp[0].orders.len() == 0 || !crosses(
        side,
        price,
        opp[0].price,
    ) {
        MatchResult { fills: Seq::empty(), book: opp, remaining: qty }
    } else {
        let resting = opp[0].orders[0];
        if resting.quantity > qty {
            let level = LimitView {
                price: opp[0].price,
                orders: opp[0].orders.update(
                    0,
                    resting.with_quantity((resting.quantity - qty) as u64),
                ),
            };
            MatchResult {
                fills: seq![fill_of(side, taker, resting, qty)],
                book: opp.update(0, level),
                remaining: 0,
            }
        } else {
            let rest_book = if opp[0].orders.len() == 1 {
                opp.drop_first()
            } else {
                opp.update(
                    0,
                    LimitView { price: opp[0].price, orders: opp[0].orders.drop_first() },
                )
            };
            let m = spec_match(side, price, taker, (qty - resting.quantity) as u64, rest_book);
            MatchResult {
                fills: seq![fill_of(side, taker, resting, resting.quantity)] + m.fills,
                book: m.book,
                remaining: m.remaining,
            }
        }
    }
}

/// Resting: the remainder joins the back of the queue at its price level,
/// creating the level at its sorted position when absent.
pub open spec fn spec_insert(s: Seq<LimitView>, o: Order) -> Seq<LimitView>
    decreases s.len(),
{
    if s.len() == 0 {
        seq![LimitView { price: o.price, orders: seq![o] }]
    } else if o.price == s[0].price {
        s.update(0, LimitView { price: s[0].price, orders: s[0].orders.push(o) })
    } else if better(o.side, o.price, s[0].price) {
        seq![LimitView { price: o.price, orders: seq![o] }] + s
    } else {
        seq![s[0]] + spec_insert(s.drop_first(), o)
    }
}

/// Cancellation within one queue: the first order with the given identity,
/// with the queue after its removal; `None` when no order matches.
pub open spec fn spec_remove_order(
    orders: Seq<Order>,
    user_id: u64,
    timestamp: TimeStamp,
) -> Option<(Order, Seq<Order>)>
    decreases orders.len(),
{
    if orders.len() == 0 {
        None
    } else if orders[0].same_identity(user_id, timestamp) {
        Some((orders[0], orders.drop_first()))
    } else {
        match spec_remove_order(orders.drop_first(), user_id, timestamp) {
            None => None,
            Some((o, rest)) => Some((o, seq![orders[0]] + rest)),
        }
    }
}

/// Cancellation on one side: the first order with the given identity at the
/// level with the given price, with the side after its removal; the level
/// is evicted when it becomes empty. `None` when the price has no level or
/// the level holds no such order; the side is then untouched.
pub open spec fn spec_cancel(
    s: Seq<LimitView>,
    user_id: u64,
    timestamp: TimeStamp,
    price: Price,
) -> Option<(Order, Seq<LimitView>)>
    decreases s.len(),
{
    if s.len() == 0 {
        None
    } else if s[0].price == price {
        match spec_remove_order(s[0].orders, user_id, timestamp) {
            None => None,
            Some((o, rest)) => Some(
                (
                    o,
                    if rest.len() == 0 {
                        s.drop_first()
                    } else {
                        s.update(0, LimitView { price: s[0].price, orders: rest })
                    },
                ),
            ),
        }
    } else {
        match spec_cancel(s.drop_first(), user_id, timestamp, price) {
            None => None,
            Some((o, s2)) => Some((o, seq![s[0]] + s2)),
        }
    }
}

/// Every order resting on a side, best level first, FIFO within a level.
pub open spec fn side_orders(s: Seq<LimitView>) -> Seq<Order>
    decreases s.len(),
{
    if s.len() == 0 {
        Seq::empty()
    } else {
        s[0].orders + side_orders(s.drop_first())
    }
}

/// [`spec_remove_order`] finds the first identity match: scanning past the
/// first `i` non-matching orders to a match at `i` removes exactly the order
/// at `i`.
proof fn lemma_remove_order_at(orders: Seq<Order>, user_id: u64, timestamp: TimeStamp, i: int)
    requires
        0 <= i < orders.len(),
        orders[i].same_identity(user_id, timestamp),
        forall|j: int| 0 <= j < i ==> !(#[trigger] orders[j]).same_identity(user_id, timestamp),
    ensures
        spec_remove_order(orders, user_id, timestamp) == Some((orders[i], orders.remove(i))),
    decreases i,
{
    if i == 0 {
        assert(orders.remove(0) =~= orders.drop_first());
    } else {
        lemma_remove_order_at(orders.drop_first(), user_id, timestamp, i - 1);
        assert(orders.remove(i) =~= seq![orders[0]] + orders.drop_first().remove(i - 1));
    }
}

/// When no queued order has the identity, [`spec_remove_order`] finds none.
proof fn lemma_remove_order_none(orders: Seq<Order>, user_id: u64, timestamp: TimeStamp)
    requires
        forall|j: int|
            0 <= j < orders.len() ==> !(#[trigger] orders[j]).same_identity(user_id, timestamp),
    ensures
        spec_remove_order(orders, user_id, timestamp) is None,
    decreases orders.len(),
{
    if orders.len() > 0 {
        lemma_remove_order_none(orders.drop_first(), user_id, timestamp);
    }
}

/// [`spec_insert`] walks past levels strictly better than the order's
/// price: after such a prefix the insertion splits into the untouched
/// prefix and the insertion into the rest.
proof fn lemma_spec_insert_split(s: Seq<LimitView>, o: Order, i: int)
    requires
        0 <= i <= s.len(),
        forall|j: int| 0 <= j < i ==> better(o.side, (#[trigger] s[j]).price, o.price),
    ensures
        spec_insert(s, o) == s.take(i) + spec_insert(s.skip(i), o),
    decreases i,
{
    if i == 0 {
        assert(s.skip(0) =~= s);
        assert(s.take(0) + spec_insert(s, o) =~= spec_insert(s, o));
    } else {
        lemma_spec_insert_split(s.drop_first(), o, i - 1);
        assert(s.drop_first().take(i - 1) =~= s.take(i).drop_first());
        assert(s.drop_first().skip(i - 1) =~= s.skip(i));
        assert(s.take(i) + spec_insert(s.skip(i), o) =~= seq![s[0]] + (s.drop_first().take(i - 1)
            + spec_insert(s.drop_first().skip(i - 1), o)));
    }
}

/// Rests `order` on its own side, as [`spec_insert`] says.
fn insert_into(limits: &mut Vec<Limit>, order: Order)
    requires
        side_wf(limits_view(old(limits)@), order.side),
        order.quantity > 0,
    ensures
        limits_view(final(limits)@) == spec_insert(limits_view(old(limits)@), order),
        side_wf(limits_view(final(limits)@), order.side),
{
    let ghost s0 = limits_view(limits@);
    let mut i: usize = 0;
    loop
        invariant
            limits@ == old(limits)@,
            s0 == limits_view(limits@),
            i <= limits.len(),
            side_wf(s0, order.side),
            order.quantity > 0,
            forall|j: int| 0 <= j < i ==> better(order.side, (#[trigger] s0[j]).price, order.price),
        ensures
            limits@ == old(limits)@,
            i <= limits.len(),
            forall|j: int| 0 <= j < i ==> better(order.side, (#[trigger] s0[j]).price, order.price),
            i == limits.len() || !better(order.side, s0[i as int].price, order.price),
        decreases limits.len() - i,
    {
        if i == limits.len() {
            break ;
        }
        let p = limits[i].price;
        proof {
            assert(s0[i as int] == limits@[i as int]@);
        }
        let is_better = match order.side {
            Side::Buy => order.price.lt(&p),
            Side::Sell => p.lt(&order.price),
        };
        if !is_better {
            break ;
        }
        i = i + 1;
    }
    proof {
        lemma_spec_insert_split(s0, order, i as int);
    }
    let at_price = i < limits.len() && limits[i].price == order.price;
    if at_price {
        let mut l = limits.remove(i);
        l.add_order(order);
        limits.insert(i, l);
        proof {
            let s1 = limits_view(limits@);
            let rest = s0.skip(i as int);
            assert(rest[0] == s0[i as int]);
            assert(rest[0].price == order.price);
            assert(spec_insert(rest, order) == rest.update(
                0,
                LimitView { price: rest[0].price, orders: rest[0].orders.push(order) },
            ));
            assert(s1 =~= s0.take(i as int) + spec_insert(rest, order));
            assert(s1 =~= s0.update(
                i as int,
                LimitView { price: s0[i as int].price, orders: s0[i as int].orders.push(order) },
            ));
            assert forall|k: int| 0 <= k < s1.len() implies limit_wf(#[trigger] s1[k], order.side) by {
                assert(limit_wf(s0[k], order.side));
                if k == i as int {
                    let q0 = s0[k].orders;
                    let q1 = s1[k].orders;
                    assert forall|n: int| 0 <= n < q1.len() implies (#[trigger] q1[n]).price
                        == s1[k].price && q1[n].side == order.side && q1[n].quantity > 0 by {
                        if n < q0.len() {
                            assert(q1[n] == q0[n]);
                        } else {
                            assert(q1[n] == order);
                        }
                    }
                }
            }
        }
    } else {
        let mut queue: Vec<Order> = Vec::new();
        queue.push(order);
        limits.insert(i, Limit { price: order.price, orders: queue });
        proof {
            let s1 = limits_view(limits@);
            let rest = s0.skip(i as int);
            let fresh = LimitView { price: order.price, orders: seq![order] };
            if i < s0.len() {
                // the level at `i` is not better than the order's price and
                // does not carry it, so the order's price is strictly better
                assert(rest[0] == s0[i as int]);
                assert(!better(order.side, s0[i as int].price, order.price));
                assert(order.price != s0[i as int].price);
                assert(better(order.side, order.price, s0[i as int].price));
                assert(spec_insert(rest, order) == seq![fresh] + rest);
            } else {
                assert(rest.len() == 0);
                assert(spec_insert(rest, order) == seq![fresh]);
                assert(seq![fresh] =~= seq![fresh] + rest);
            }
            assert(s1 =~= s0.take(i as int) + (seq![fresh] + rest));
            assert(s1 =~= s0.insert(i as int, fresh));
            assert(limit_wf(fresh, order.side));
            assert forall|k: int, m: int| 0 <= k < m < s1.len() implies better(
                order.side,
                (#[trigger] s1[k]).price,
                (#[trigger] s1[m]).price,
            ) by {
                let ki = if k < i as int { k } else { k - 1 };
                let mi = if m < i as int { m } else { m - 1 };
                if k == i as int {
                    // order's price is better than s0[m - 1]
                    if mi > i as int {
                        assert(better(order.side, s0[i as int].price, s0[mi].price));
                    }
                    assert(better(order.side, order.price, s0[mi].price));
                } else if m == i as int {
                    assert(better(order.side, s0[ki].price, order.price));
                } else {
                    assert(better(order.side, s0[ki].price, s0[mi].price));
                }
            }
        }
    }
}

impl Limit {
    /// Appends an order to the FIFO tail of this level.
    pub fn add_order(&mut self, order: Order)
        ensures
            final(self).price == old(self).price,
            final(self)@.orders == old(self)@.orders.push(order),
    {
        self.orders.push(order);
    }

    /// Removes and returns the earliest queued order whose `(user_id,
    /// timestamp)` identity equals `order`'s, or returns `None` and leaves
    /// the queue untouched when no queued order has that identity.
    pub fn remove_order(&mut self, order: &Order) -> (r: Option<Order>)
        ensures
            final(self).price == old(self).price,
            match r {
                Some(removed) => spec_remove_order(
                    old(self)@.orders,
                    order.user_id,
                    order.timestamp,
                ) == Some((removed, final(self)@.orders)),
                None => final(self)@ == old(self)@ && spec_remove_order(
                    old(self)@.orders,
                    order.user_id,
                    order.timestamp,
                ) is None,
            },
    {
        let mut i: usize = 0;
        loop
            invariant
                self.price == old(self).price,
                self.orders@ == old(self)@.orders,
                i <= self.orders.len(),
                forall|j: int|
                    0 <= j < i ==> !(#[trigger] self.orders@[j]).same_identity(
                        order.user_id,
                        order.timestamp,
                    ),
            decreases self.orders.len() - i,
        {
            if i == self.orders.len() {
                proof {
                    lemma_remove_order_none(self.orders@, order.user_id, order.timestamp);
                }
                return None;
            }
            if self.orders[i].user_id == order.user_id
                && self.orders[i].timestamp == order.timestamp {
                proof {
                    lemma_remove_order_at(self.orders@, order.user_id, order.timestamp, i as int);
                }
                let removed = self.orders.remove(i);
                return Some(removed);
            }
            i = i + 1;
        }
    }
}

/// A successful removal by identity takes exactly one order out of the
/// queue: the earliest one carrying the identity; every other order keeps
/// its place and relative position.
pub proof fn lemma_remove_order_some(orders: Seq<Order>, user_id: u64, timestamp: TimeStamp)
    requires
        spec_remove_order(orders, user_id, timestamp) is Some,
    ensures
        exists|k: int|
            0 <= k < orders.len() && spec_remove_order(orders, user_id, timestamp) == Some(
                (orders[k], #[trigger] orders.remove(k)),
            ) && orders[k].same_identity(user_id, timestamp),
    decreases orders.len(),
{
    if orders[0].same_identity(user_id, timestamp) {
        assert(orders.remove(0) =~= orders.drop_first());
    } else {
        lemma_remove_order_some(orders.drop_first(), user_id, timestamp);
        let k = choose|k: int|
            0 <= k < orders.drop_first().len() && spec_remove_order(
                orders.drop_first(),
                user_id,
                timestamp,
            ) == Some((orders.drop_first()[k], #[trigger] orders.drop_first().remove(k)))
                && orders.drop_first()[k].same_identity(user_id, timestamp);
        assert(orders.remove(k + 1) =~= seq![orders[0]] + orders.drop_first().remove(k));
    }
}

/// [`spec_cancel`] passes levels with other prices through: after a prefix
/// without the order's price, cancellation splits into the untouched prefix
/// and the cancellation in the rest.
proof fn lemma_spec_cancel_split(
    s: Seq<LimitView>,
    user_id: u64,
    timestamp: TimeStamp,
    price: Price,
    i: int,
)
    requires
        0 <= i <= s.len(),
        forall|j: int| 0 <= j < i ==> (#[trigger] s[j]).price != price,
    ensures
        spec_cancel(s, user_id, timestamp, price) == match spec_cancel(
            s.skip(i),
            user_id,
            timestamp,
            price,
        ) {
            None => None::<(Order, Seq<LimitView>)>,
            Some((o, s2)) => Some((o, s.take(i) + s2)),
        },
    decreases i,
{
    if i == 0 {
        assert(s.skip(0) =~= s);
        match spec_cancel(s, user_id, timestamp, price) {
            None => {
            },
            Some((o, s2)) => {
                assert(s.take(0) + s2 =~= s2);
            },
        }
    } else {
        lemma_spec_cancel_split(s.drop_first(), user_id, timestamp, price, i - 1);
        assert(s.drop_first().skip(i - 1) =~= s.skip(i));
        match spec_cancel(s.skip(i), user_id, timestamp, price) {
            None => {
            },
            Some((o, s2)) => {
                assert(s.take(i) + s2 =~= seq![s[0]] + (s.drop_first().take(i - 1) + s2));
            },
        }
    }
}

/// Cancels in one side's levels, as [`spec_cancel`] says.
fn cancel_in(limits: &mut Vec<Limit>, order: &Order) -> (r: Result<Order, ()>)
    requires
        side_wf(limits_view(old(limits)@), order.side),
    ensures
        side_wf(limits_view(final(limits)@), order.side),
        match r {
            Ok(removed) => spec_cancel(
                limits_view(old(limits)@),
                order.user_id,
                order.timestamp,
                order.price,
            ) == Some((removed, limits_view(final(limits)@))),
            Err(_) => limits_view(final(limits)@) == limits_view(old(limits)@) && spec_cancel(
                limits_view(old(limits)@),
                order.user_id,
                order.timestamp,
                order.price,
            ) is None,
        },
{
    let ghost s0 = limits_view(limits@);
    let mut i: usize = 0;
    loop
        invariant
            limits@ == old(limits)@,
            s0 == limits_view(limits@),
            i <= limits.len(),
            forall|j: int| 0 <= j < i ==> (#[trigger] s0[j]).price != order.price,
        ensures
            limits@ == old(limits)@,
            i <= limits.len(),
            forall|j: int| 0 <= j < i ==> (#[trigger] s0[j]).price != order.price,
            i == limits.len() || s0[i as int].price == order.price,
        decreases limits.len() - i,
    {
        if i == limits.len() {
            break ;
        }
        proof {
            assert(s0[i as int] == limits@[i as int]@);
        }
        let found = limits[i].price == order.price;
        if found {
            break ;
        }
        i = i + 1;
    }
    proof {
        lemma_spec_cancel_split(s0, order.user_id, order.timestamp, order.price, i as int);
    }
    if i == limits.len() {
        proof {
            assert(s0.skip(i as int).len() == 0);
        }
        return Err(());
    }
    let ghost rest = s0.skip(i as int);
    let mut l = limits.remove(i);
    proof {
        assert(l@ == s0[i as int]);
        assert(rest[0] == s0[i as int]);
    }
    let res = l.remove_order(order);
    match res {
        Some(removed) => {
            proof {
                lemma_remove_order_some(rest[0].orders, order.user_id, order.timestamp);
            }
            let ghost k = choose|k: int|
                0 <= k < rest[0].orders.len() && spec_remove_order(
                    rest[0].orders,
                    order.user_id,
                    order.timestamp,
                ) == Some((rest[0].orders[k], #[trigger] rest[0].orders.remove(k)))
                    && rest[0].orders[k].same_identity(order.user_id, order.timestamp);
            if l.orders.len() > 0 {
                limits.insert(i, l);
                proof {
                    let s1 = limits_view(limits@);
                    let level = LimitView { price: rest[0].price, orders: rest[0].orders.remove(k) };
                    assert(spec_cancel(rest, order.user_id, order.timestamp, order.price) == Some(
                        (rest[0].orders[k], rest.update(0, level)),
                    ));
                    assert(s1 =~= s0.take(i as int) + rest.update(0, level));
                    // the shrunken level still satisfies the side invariant
                    assert forall|m: int| 0 <= m < s1.len() implies limit_wf(
                        #[trigger] s1[m],
                        order.side,
                    ) by {
                        assert(limit_wf(s0[m], order.side));
                        if m == i as int {
                            let q0 = s0[m].orders;
                            let q1 = s1[m].orders;
                            assert forall|n: int| 0 <= n < q1.len() implies (#[trigger] q1[n]).price
                                == s1[m].price && q1[n].side == order.side && q1[n].quantity
                                > 0 by {
                                if n < k {
                                    assert(q1[n] == q0[n]);
                                } else {
                                    assert(q1[n] == q0[n + 1]);
                                }
                            }
                        }
                    }
                    assert forall|m: int, n: int| 0 <= m < n < s1.len() implies better(
                        order.side,
                        (#[trigger] s1[m]).price,
                        (#[trigger] s1[n]).price,
                    ) by {
                        assert(s1[m].price == s0[m].price);
                        assert(s1[n].price == s0[n].price);
                        assert(better(order.side, s0[m].price, s0[n].price));
                    }
                }
                Ok(removed)
            } else {
                proof {
                    let s1 = limits_view(limits@);
                    let level = LimitView { price: rest[0].price, orders: rest[0].orders.remove(k) };
                    assert(rest[0].orders.remove(k) == l@.orders);
                    assert(spec_cancel(rest, order.user_id, order.timestamp, order.price) == Some(
                        (rest[0].orders[k], rest.drop_first()),
                    ));
                    assert(s1 =~= s0.take(i as int) + rest.drop_first());
                    assert(s1 =~= s0.remove(i as int));
                    assert forall|m: int, n: int| 0 <= m < n < s1.len() implies better(
                        order.side,
                        (#[trigger] s1[m]).price,
                        (#[trigger] s1[n]).price,
                    ) by {
                        let m0 = if m < i as int { m } else { m + 1 };
                        let n0 = if n < i as int { n } else { n + 1 };
                        assert(s1[m] == s0[m0]);
                        assert(s1[n] == s0[n0]);
                        assert(better(order.side, s0[m0].price, s0[n0].price));
                    }
                }
                Ok(removed)
            }
        },
        None => {
            limits.insert(i, l);
            proof {
                assert(limits_view(limits@) =~= s0);
            }
            Err(())
        },
    }
}

/// How many orders rest on a side; the crossing loop's termination measure.
pub open spec fn total_orders(s: Seq<LimitView>) -> nat
    decreases s.len(),
{
    if s.len() == 0 {
        0
    } else {
        s[0].orders.len() + total_orders(s.drop_first())
    }
}

/// Unfolds [`total_orders`] one level.
proof fn lemma_total_orders_first(s: Seq<LimitView>)
    requires
        s.len() > 0,
    ensures
        total_orders(s) == s[0].orders.len() + total_orders(s.drop_first()),
{
}

/// Runs the crossing loop of one submission against the opposing side,
/// filling resting orders in price-time priority until the incoming order
/// is satisfied or no longer crosses: exactly [`spec_match`], which also
/// determines the incoming order's remainder.
fn match_incoming(opp: &mut Vec<Limit>, incoming: &mut Order) -> (trades: Vec<Trade>)
    requires
        side_wf(limits_view(old(opp)@), old(incoming).side.opposite()),
    ensures
        ({
            let m = spec_match(
                old(incoming).side,
                old(incoming).price,
                old(incoming).user_id,
                old(incoming).quantity,
                limits_view(old(opp)@),
            );
            &&& fills_of(trades@) == m.fills
            &&& limits_view(final(opp)@) == m.book
            &&& *final(incoming) == old(incoming).with_quantity(m.remaining)
            &&& side_wf(limits_view(final(opp)@), old(incoming).side.opposite())
        }),
{
    let ghost side = incoming.side;
    let ghost price = incoming.price;
    let ghost taker = incoming.user_id;
    let ghost m0 = spec_match(side, price, taker, incoming.quantity, limits_view(opp@));
    let mut trades: Vec<Trade> = Vec::new();
    loop
        invariant
            incoming.side == old(incoming).side,
            incoming.price == old(incoming).price,
            incoming.user_id == old(incoming).user_id,
            incoming.timestamp == old(incoming).timestamp,
            side == incoming.side,
            price == incoming.price,
            taker == incoming.user_id,
            side_wf(limits_view(opp@), side.opposite()),
            m0 == spec_match(
                side,
                price,
                taker,
                old(incoming).quantity,
                limits_view(old(opp)@),
            ),
            ({
                let m = spec_match(side, price, taker, incoming.quantity, limits_view(opp@));
                &&& m0.fills == fills_of(trades@) + m.fills
                &&& m0.book == m.book
                &&& m0.remaining == m.remaining
            }),
        ensures
            incoming.side == old(incoming).side,
            incoming.price == old(incoming).price,
            incoming.user_id == old(incoming).user_id,
            incoming.timestamp == old(incoming).timestamp,
            side_wf(limits_view(opp@), side.opposite()),
            m0.fills == fills_of(trades@),
            m0.book == limits_view(opp@),
            m0.remaining == incoming.quantity,
        decreases total_orders(limits_view(opp@)),
    {
        let ghost ov = limits_view(opp@);
        let ghost m_cur = spec_match(side, price, taker, incoming.quantity, ov);
        proof {
            assert(fills_of(trades@) + Seq::<Fill>::empty() =~= fills_of(trades@));
        }
        if incoming.quantity == 0 {
            break ;
        }
        if opp.len() == 0 {
            break ;
        }
        proof {
            assert(limit_wf(ov[0], side.opposite()));
            assert(ov[0] == opp@[0]@);
        }
        let best_price = opp[0].price;
        let does_cross = match incoming.side {
            Side::Buy => best_price.le(&incoming.price),
            Side::Sell => incoming.price.le(&best_price),
        };
        if !does_cross {
            break ;
        }
        let inc_now = *incoming;
        let mut l = opp.remove(0);
        let front = l.orders.remove(0);
        proof {
            assert(front == ov[0].orders[0]);
        }
        if front.quantity > inc_now.quantity {
            // partial fill: the resting order keeps its place at the front
            let fill_qty = inc_now.quantity;
            let trade = match inc_now.side {
                Side::Buy => Trade::from_orders(&inc_now, &front, front.price, fill_qty),
                Side::Sell => Trade::from_orders(&front, &inc_now, front.price, fill_qty),
            };
            let reduced = Order {
                user_id: front.user_id,
                timestamp: front.timestamp,
                price: front.price,
                quantity: front.quantity - fill_qty,
                side: front.side,
            };
            l.orders.insert(0, reduced);
            opp.insert(0, l);
            trades.push(trade);
            incoming.quantity = 0;
            proof {
                let ov1 = limits_view(opp@);
                let level = LimitView {
                    price: ov[0].price,
                    orders: ov[0].orders.update(0, front.with_quantity(reduced.quantity)),
                };
                assert(ov1[0].orders =~= ov[0].orders.update(0, reduced));
                assert(ov1 =~= ov.update(0, level));
                assert(m_cur.book == ov1);
                assert(trade.fill() == fill_of(side, taker, front, fill_qty));
                assert(fills_of(trades@) =~= fills_of(trades@.drop_last()) + seq![trade.fill()]);
                assert(m0.fills =~= fills_of(trades@) + Seq::<Fill>::empty());
                // the reduced front order still satisfies the level invariant
                assert forall|k: int| 0 <= k < ov1.len() implies limit_wf(
                    #[trigger] ov1[k],
                    side.opposite(),
                ) by {
                    assert(limit_wf(ov[k], side.opposite()));
                    if k == 0 {
                        assert(forall|n: int|
                            0 <= n < ov1[0].orders.len() && n != 0 ==> ov1[0].orders[n] == ov[0]
                                .orders[n]);
                    }
                }
            }
            break ;
        } else {
            // the resting order is consumed; evict its level once empty
            let fill_qty = front.quantity;
            let trade = match inc_now.side {
                Side::Buy => Trade::from_orders(&inc_now, &front, front.price, fill_qty),
                Side::Sell => Trade::from_orders(&front, &inc_now, front.price, fill_qty),
            };
            if l.orders.len() > 0 {
                opp.insert(0, l);
            }
            trades.push(trade);
            incoming.quantity = inc_now.quantity - fill_qty;
            proof {
                let ov1 = limits_view(opp@);
                let rest_book = if ov[0].orders.len() == 1 {
                    ov.drop_first()
                } else {
                    ov.update(
                        0,
                        LimitView { price: ov[0].price, orders: ov[0].orders.drop_first() },
                    )
                };
                if ov[0].orders.len() == 1 {
                    assert(ov1 =~= ov.drop_first());
                } else {
                    assert(ov1[0].orders =~= ov[0].orders.drop_first());
                    assert(ov1 =~= rest_book);
                }
                let m_next = spec_match(
                    side,
                    price,
                    taker,
                    (inc_now.quantity - fill_qty) as u64,
                    rest_book,
                );
                assert(trade.fill() == fill_of(side, taker, front, fill_qty));
                assert(m_cur.fills == seq![trade.fill()] + m_next.fills);
                assert(fills_of(trades@) =~= fills_of(trades@.drop_last()) + seq![trade.fill()]);
                assert(fills_of(trades@.drop_last()) + (seq![trade.fill()] + m_next.fills) =~= (
                fills_of(trades@.drop_last()) + seq![trade.fill()]) + m_next.fills);
                // the opposing side stays well-formed
                assert forall|k: int| 0 <= k < ov1.len() implies limit_wf(
                    #[trigger] ov1[k],
                    side.opposite(),
                ) by {
                    if ov[0].orders.len() == 1 {
                        assert(limit_wf(ov[k + 1], side.opposite()));
                    } else if k == 0 {
                        assert(limit_wf(ov[0], side.opposite()));
                        assert(forall|n: int|
                            0 <= n < ov1[0].orders.len() ==> ov1[0].orders[n] == ov[0].orders[n
                                + 1]);
                    } else {
                        assert(limit_wf(ov[k], side.opposite()));
                    }
                }
                assert forall|k: int, m: int| 0 <= k < m < ov1.len() implies better(
                    side.opposite(),
                    (#[trigger] ov1[k]).price,
                    (#[trigger] ov1[m]).price,
                ) by {
                    if ov[0].orders.len() == 1 {
                        assert(better(side.opposite(), ov[k + 1].price, ov[m + 1].price));
                    } else {
                        assert(better(side.opposite(), ov[k].price, ov[m].price));
                    }
                }
                // one order left the book, so the measure falls
                lemma_total_orders_first(ov);
                if ov[0].orders.len() != 1 {
                    lemma_total_orders_first(ov1);
                    assert(ov1.drop_first() =~= ov.drop_first());
                }
            }
        }
    }
    proof {
        assert(fills_of(trades@) + Seq::<Fill>::empty() =~= fills_of(trades@));
        assert(*incoming == old(incoming).with_quantity(m0.remaining));
    }
    trades
}

/// The matching core for one instrument: two sides, each a price-sorted
/// sequence of levels with the best price at index 0.
pub struct OrderBook {
    pub symbol: TickerSymbol,
    pub buys: Vec<Limit>,
    pub sells: Vec<Limit>,
}

impl View for OrderBook {
    type V = BookView;

    open spec fn view(&self) -> BookView {
        BookView {
            symbol: self.symbol,
            buys: limits_view(self.buys@),
            sells: limits_view(self.sells@),
        }
    }
}

impl OrderBook {
    /// The book's invariant: a price is present on a side if and only if
    /// its level holds at least one order, and each side is sorted with its
    /// best price first.
    pub open spec fn wf(self) -> bool {
        &&& side_wf(self@.buys, Side::Buy)
        &&& side_wf(self@.sells, Side::Sell)
    }

    /// Rests a buy order at its price level on the bid side.
    fn insert_buy_order(&mut self, order: Order)
        requires
            old(self).wf(),
            order.side == Side::Buy,
            order.quantity > 0,
        ensures
            final(self).wf(),
            final(self).symbol == old(self).symbol,
            final(self)@.sells == old(self)@.sells,
            final(self)@.buys == spec_insert(old(self)@.buys, order),
    {
        insert_into(&mut self.buys, order);
    }

    /// Rests a sell order at its price level on the ask side.
    fn insert_sell_order(&mut self, order: Order)
        requires
            old(self).wf(),
            order.side == Side::Sell,
            order.quantity > 0,
        ensures
            final(self).wf(),
            final(self).symbol == old(self).symbol,
            final(self)@.buys == old(self)@.buys,
            final(self)@.sells == spec_insert(old(self)@.sells, order),
    {
        insert_into(&mut self.sells, order);
    }

    /// Submits one order. The order is matched against the opposing side
    /// under strict price-then-time priority — [`spec_match`] — and any
    /// unmatched remainder rests at the order's limit price on its own side
    /// — [`spec_insert`]. Returns exactly the trades this submission
    /// generated, in generation order; only their timestamps are left to
    /// the clock.
    pub fn add_order(&mut self, order: Order) -> (trades: Vec<Trade>)
        requires
            old(self).wf(),
        ensures
            final(self).wf(),
            final(self).symbol == old(self).symbol,
            ({
                let m = spec_match(
                    order.side,
                    order.price,
                    order.user_id,
                    order.quantity,
                    opp_view(old(self)@, order.side),
                );
                &&& fills_of(trades@) == m.fills
                &&& opp_view(final(self)@, order.side) == m.book
                &&& own_view(final(self)@, order.side) == if m.remaining > 0 {
                    spec_insert(own_view(old(self)@, order.side), order.with_quantity(m.remaining))
                } else {
                    own_view(old(self)@, order.side)
                }
            }),
    {
        let mut incoming = order;
        let trades = match order.side {
            Side::Buy => match_incoming(&mut self.sells, &mut incoming),
            Side::Sell => match_incoming(&mut self.buys, &mut incoming),
        };
        if incoming.quantity > 0 {
            match order.side {
                Side::Buy => self.insert_buy_order(incoming),
                Side::Sell => self.insert_sell_order(incoming),
            }
        }
        trades
    }

    /// Drains both sides entirely and returns every order that was resting
    /// immediately before the call, each exactly once: the bid side's
    /// orders first, then the ask side's, best level first and FIFO within
    /// a level. Both sides are empty afterwards. The caller refunds each
    /// returned order's remaining quantity; used once, at shutdown.
    pub fn clear(&mut self) -> (refunded: Vec<Order>)
        ensures
            final(self).wf(),
            final(self).symbol == old(self).symbol,
            final(self)@.buys.len() == 0,
            final(self)@.sells.len() == 0,
            refunded@ == side_orders(old(self)@.buys) + side_orders(old(self)@.sells),
    {
        let ghost b0 = self@.buys;
        let ghost s0 = self@.sells;
        let mut refunded: Vec<Order> = Vec::new();
        loop
            invariant
                self.symbol == old(self).symbol,
                self.sells@ == old(self).sells@,
                refunded@ + side_orders(limits_view(self.buys@)) == side_orders(b0),
            ensures
                self.symbol == old(self).symbol,
                self.sells@ == old(self).sells@,
                self.buys@.len() == 0,
                refunded@ == side_orders(b0),
            decreases self.buys.len(),
        {
            if self.buys.len() == 0 {
                proof {
                    assert(limits_view(self.buys@) =~= Seq::<LimitView>::empty());
                    assert(refunded@ + side_orders(limits_view(self.buys@)) =~= refunded@);
                }
                break ;
            }
            let ghost ov = limits_view(self.buys@);
            let ghost r0 = refunded@;
            let mut l = self.buys.remove(0);
            refunded.append(&mut l.orders);
            proof {
                assert(limits_view(self.buys@) =~= ov.drop_first());
                assert(refunded@ + side_orders(ov.drop_first()) =~= r0 + (ov[0].orders
                    + side_orders(ov.drop_first())));
            }
        }
        loop
            invariant
                self.symbol == old(self).symbol,
                self.buys@.len() == 0,
                refunded@ + side_orders(limits_view(self.sells@)) == side_orders(b0)
                    + side_orders(s0),
            ensures
                self.symbol == old(self).symbol,
                self.buys@.len() == 0,
                self.sells@.len() == 0,
                refunded@ == side_orders(b0) + side_orders(s0),
            decreases self.sells.len(),
        {
            if self.sells.len() == 0 {
                proof {
                    assert(limits_view(self.sells@) =~= Seq::<LimitView>::empty());
                    assert(refunded@ + side_orders(limits_view(self.sells@)) =~= refunded@);
                }
                break ;
            }
            let ghost ov = limits_view(self.sells@);
            let ghost r0 = refunded@;
            let mut l = self.sells.remove(0);
            refunded.append(&mut l.orders);
            proof {
                assert(limits_view(self.sells@) =~= ov.drop_first());
                assert(refunded@ + side_orders(ov.drop_first()) =~= r0 + (ov[0].orders
                    + side_orders(ov.drop_first())));
            }
        }
        proof {
            assert(limits_view(self.buys@) =~= Seq::<LimitView>::empty());
            assert(limits_view(self.sells@) =~= Seq::<LimitView>::empty());
        }
        refunded
    }

    /// Cancels a resting order, addressed by its side, its posted price and
    /// its `(user_id, timestamp)` identity. On success returns the removed
    /// order — the caller refunds its remaining quantity — and evicts its
    /// level if now empty; when the price has no level on that side, or the
    /// level holds no order of that identity, reports `Err` and leaves the
    /// book untouched.
    pub fn cancel_order(&mut self, order: &Order) -> (r: Result<Order, ()>)
        requires
            old(self).wf(),
        ensures
            final(self).wf(),
            final(self).symbol == old(self).symbol,
            opp_view(final(self)@, order.side) == opp_view(old(self)@, order.side),
            match r {
                Ok(removed) => spec_cancel(
                    own_view(old(self)@, order.side),
                    order.user_id,
                    order.timestamp,
                    order.price,
                ) == Some((removed, own_view(final(self)@, order.side))),
                Err(_) => final(self)@ == old(self)@ && spec_cancel(
                    own_view(old(self)@, order.side),
                    order.user_id,
                    order.timestamp,
                    order.price,
                ) is None,
            },
    {
        match order.side {
            Side::Buy => cancel_in(&mut self.buys, order),
            Side::Sell => cancel_in(&mut self.sells, order),
        }
    }

    /// An empty book for the instrument named by `symbol`.
    pub fn new(symbol: &str) -> (r: OrderBook)
        ensures
            r.wf(),
            r@.symbol@ == symbol_bytes(symbol.spec_bytes()),
            r@.buys.len() == 0,
            r@.sells.len() == 0,
    {
        OrderBook { symbol: TickerSymbol::new(symbol), buys: Vec::new(), sells: Vec::new() }
    }
}

} // verus!
