//! The book's laws, proved of the matching model: quantity conservation,
//! price-time priority, trade price bounds, and cancellation precision.

use crate::matching::LimitView;
use crate::matching::better;
use crate::matching::crosses;
use crate::matching::fill_of;
use crate::matching::limit_wf;
use crate::matching::front_len;
use crate::matching::side_orders;
use crate::matching::side_wf;
use crate::matching::spec_cancel;
use crate::matching::spec_match;
use crate::matching::spec_remove_order;
use crate::matching::lemma_remove_order_some;
use crate::orders::Order;
use crate::orders::Side;
use crate::orders::TimeStamp;
use crate::price::Price;
use crate::trades::Fill;
use vstd::prelude::*;

verus! {

/// The total quantity a sequence of fills moves.
pub open spec fn fills_qty(fills: Seq<Fill>) -> int
    decreases fills.len(),
{
    if fills.len() == 0 {
        0
    } else {
        fills[0].quantity + fills_qty(fills.drop_first())
    }
}

/// The total remaining quantity of a queue of orders.
pub open spec fn orders_qty(orders: Seq<Order>) -> int
    decreases orders.len(),
{
    if orders.len() == 0 {
        0
    } else {
        orders[0].quantity + orders_qty(orders.drop_first())
    }
}

/// The total remaining quantity resting on a side.
pub open spec fn side_qty(s: Seq<LimitView>) -> int
    decreases s.len(),
{
    if s.len() == 0 {
        0
    } else {
        orders_qty(s[0].orders) + side_qty(s.drop_first())
    }
}

proof fn lemma_fills_qty_prepend(f: Fill, fills: Seq<Fill>)
    ensures
        fills_qty(seq![f] + fills) == f.quantity + fills_qty(fills),
{
    assert((seq![f] + fills)[0] == f);
    assert((seq![f] + fills).drop_first() =~= fills);
}

/// Quantity conservation: for any submitted order, the quantities of the
/// fills it generates sum, together with its unmatched remainder, to its
/// original quantity; and the opposing side loses exactly the filled
/// quantity.
pub proof fn lemma_quantity_conservation(
    side: Side,
    price: Price,
    taker: u64,
    qty: u64,
    opp: Seq<LimitView>,
)
    ensures
        ({
            let m = spec_match(side, price, taker, qty, opp);
            &&& fills_qty(m.fills) + m.remaining == qty
            &&& side_qty(m.book) == side_qty(opp) - fills_qty(m.fills)
        }),
    decreases opp.len(), front_len(opp),
{
    let m = spec_match(side, price, taker, qty, opp);
    if qty == 0 || opp.len() == 0 || opp[0].orders.len() == 0 || !crosses(
        side,
        price,
        opp[0].price,
    ) {
        assert(fills_qty(m.fills) == 0);
    } else {
        let resting = opp[0].orders[0];
        let q0 = opp[0].orders;
        if resting.quantity > qty {
            let reduced = resting.with_quantity((resting.quantity - qty) as u64);
            let q1 = q0.update(0, reduced);
            lemma_fills_qty_prepend(m.fills[0], Seq::empty());
            assert(m.fills =~= seq![m.fills[0]] + Seq::<Fill>::empty());
            assert(fills_qty(m.fills) == qty);
            assert(q1.drop_first() =~= q0.drop_first());
            assert(orders_qty(q1) == orders_qty(q0) - qty);
            assert(m.book.drop_first() =~= opp.drop_first());
            assert(side_qty(m.book) == orders_qty(q1) + side_qty(m.book.drop_first()));
        } else {
            let rest_book = if q0.len() == 1 {
                opp.drop_first()
            } else {
                opp.update(0, LimitView { price: opp[0].price, orders: q0.drop_first() })
            };
            let m2 = spec_match(side, price, taker, (qty - resting.quantity) as u64, rest_book);
            lemma_quantity_conservation(
                side,
                price,
                taker,
                (qty - resting.quantity) as u64,
                rest_book,
            );
            lemma_fills_qty_prepend(
                fill_of(side, taker, resting, resting.quantity),
                m2.fills,
            );
            if q0.len() == 1 {
                assert(orders_qty(q0) == resting.quantity + orders_qty(q0.drop_first()));
                assert(q0.drop_first().len() == 0);
                assert(side_qty(opp) == orders_qty(q0) + side_qty(opp.drop_first()));
            } else {
                assert(orders_qty(q0) == resting.quantity + orders_qty(q0.drop_first()));
                assert(rest_book.drop_first() =~= opp.drop_first());
                assert(side_qty(rest_book) == orders_qty(q0.drop_first()) + side_qty(
                    rest_book.drop_first(),
                ));
                assert(side_qty(opp) == orders_qty(q0) + side_qty(opp.drop_first()));
            }
        }
    }
}

/// Consuming the front resting order keeps the opposing side well-formed,
/// whether its level survives or is evicted.
proof fn lemma_consume_front_wf(opp: Seq<LimitView>, side: Side)
    requires
        side_wf(opp, side),
        opp.len() > 0,
        opp[0].orders.len() > 0,
    ensures
        opp[0].orders.len() == 1 ==> side_wf(opp.drop_first(), side),
        opp[0].orders.len() > 1 ==> side_wf(
            opp.update(0, LimitView { price: opp[0].price, orders: opp[0].orders.drop_first() }),
            side,
        ),
{
    if opp[0].orders.len() == 1 {
        let s1 = opp.drop_first();
        assert forall|k: int| 0 <= k < s1.len() implies limit_wf(#[trigger] s1[k], side) by {
            assert(limit_wf(opp[k + 1], side));
        }
        assert forall|k: int, m: int| 0 <= k < m < s1.len() implies better(
            side,
            (#[trigger] s1[k]).price,
            (#[trigger] s1[m]).price,
        ) by {
            assert(better(side, opp[k + 1].price, opp[m + 1].price));
        }
    } else {
        let s1 = opp.update(
            0,
            LimitView { price: opp[0].price, orders: opp[0].orders.drop_first() },
        );
        assert forall|k: int| 0 <= k < s1.len() implies limit_wf(#[trigger] s1[k], side) by {
            assert(limit_wf(opp[k], side));
            if k == 0 {
                assert(forall|n: int|
                    0 <= n < s1[0].orders.len() ==> s1[0].orders[n] == opp[0].orders[n + 1]);
            }
        }
        assert forall|k: int, m: int| 0 <= k < m < s1.len() implies better(
            side,
            (#[trigger] s1[k]).price,
            (#[trigger] s1[m]).price,
        ) by {
            assert(better(side, opp[k].price, opp[m].price));
        }
    }
}

/// No disadvantageous trade: every fill executes at the price of a level
/// that was resting on the opposing side — the maker's price — and that
/// price is crossed by the incoming limit price, so an incoming buy never
/// pays more than its limit and an incoming sell never receives less; and
/// the incoming user stands on its own side of every fill.
pub proof fn lemma_no_disadvantageous_trade(
    side: Side,
    price: Price,
    taker: u64,
    qty: u64,
    opp: Seq<LimitView>,
)
    requires
        side_wf(opp, side.opposite()),
    ensures
        ({
            let m = spec_match(side, price, taker, qty, opp);
            forall|k: int|
                0 <= k < m.fills.len() ==> {
                    let f = #[trigger] m.fills[k];
                    &&& crosses(side, price, f.price)
                    &&& exists|j: int| 0 <= j < opp.len() && (#[trigger] opp[j]).price == f.price
                    &&& (side == Side::Buy ==> f.buy_user == taker)
                    &&& (side == Side::Sell ==> f.sell_user == taker)
                }
        }),
    decreases opp.len(), front_len(opp),
{
    let m = spec_match(side, price, taker, qty, opp);
    if qty == 0 || opp.len() == 0 || opp[0].orders.len() == 0 || !crosses(
        side,
        price,
        opp[0].price,
    ) {
    } else {
        let resting = opp[0].orders[0];
        assert(limit_wf(opp[0], side.opposite()));
        assert(resting.price == opp[0].price);
        if resting.quantity > qty {
            assert(m.fills[0] == fill_of(side, taker, resting, qty));
            assert(opp[0].price == m.fills[0].price);
        } else {
            let rest_book = if opp[0].orders.len() == 1 {
                opp.drop_first()
            } else {
                opp.update(
                    0,
                    LimitView { price: opp[0].price, orders: opp[0].orders.drop_first() },
                )
            };
            lemma_consume_front_wf(opp, side.opposite());
            lemma_no_disadvantageous_trade(
                side,
                price,
                taker,
                (qty - resting.quantity) as u64,
                rest_book,
            );
            let m2 = spec_match(side, price, taker, (qty - resting.quantity) as u64, rest_book);
            assert forall|k: int| 0 <= k < m.fills.len() implies {
                let f = #[trigger] m.fills[k];
                &&& crosses(side, price, f.price)
                &&& exists|j: int| 0 <= j < opp.len() && (#[trigger] opp[j]).price == f.price
                &&& (side == Side::Buy ==> f.buy_user == taker)
                &&& (side == Side::Sell ==> f.sell_user == taker)
            } by {
                if k == 0 {
                    assert(m.fills[0] == fill_of(side, taker, resting, resting.quantity));
                    assert(opp[0].price == m.fills[0].price);
                } else {
                    assert(m.fills[k] == m2.fills[k - 1]);
                    let f = m.fills[k];
                    let j2 = choose|j: int|
                        0 <= j < rest_book.len() && (#[trigger] rest_book[j]).price == f.price;
                    if opp[0].orders.len() == 1 {
                        assert(opp[j2 + 1].price == f.price);
                    } else {
                        assert(opp[j2].price == f.price);
                    }
                }
            }
        }
    }
}

/// `now` is `orig` with its remaining quantity reduced, or untouched:
/// identity, price and side are the same.
pub open spec fn reduced_order(orig: Order, now: Order) -> bool {
    now == orig.with_quantity(now.quantity) && now.quantity <= orig.quantity
}

/// `now` is the queue `orig` after consuming from the front: the first
/// `orig.len() - now.len()` orders are fully consumed, the next one is at
/// most reduced, and every order behind it is untouched.
pub open spec fn consumed_queue(orig: Seq<Order>, now: Seq<Order>) -> bool {
    &&& 0 < now.len() <= orig.len()
    &&& reduced_order(orig[orig.len() - now.len()], now[0])
    &&& forall|j: int| 1 <= j < now.len() ==> now[j] == orig[orig.len() - now.len() + j]
}

/// `now` is the side `orig` after matching consumed its first `k` levels —
/// under sortedness, exactly the levels with the best prices: the front
/// surviving level, when one remains, keeps the price of level `k` and has
/// a prefix of level `k`'s FIFO queue consumed; every level behind it is
/// untouched.
pub open spec fn consumed_prefix(orig: Seq<LimitView>, now: Seq<LimitView>, k: int) -> bool {
    &&& 0 <= k <= orig.len()
    &&& now.len() == orig.len() - k
    &&& forall|j: int| 1 <= j < now.len() ==> now[j] == orig[k + j]
    &&& now.len() > 0 ==> now[0].price == orig[k].price && consumed_queue(
        orig[k].orders,
        now[0].orders,
    )
}

/// Price-time priority: matching consumes the opposing side strictly in
/// book order. The levels it empties form a prefix of the side — under
/// sortedness, the better price is always exhausted before a worse one is
/// touched — and within the first surviving level the earlier-queued orders
/// are consumed first: the survivors are a suffix of that level's FIFO
/// queue, with at most its new front order partially reduced and every
/// order behind it untouched in quantity and position.
pub proof fn lemma_price_time_priority(
    side: Side,
    price: Price,
    taker: u64,
    qty: u64,
    opp: Seq<LimitView>,
)
    requires
        side_wf(opp, side.opposite()),
    ensures
        exists|k: int| consumed_prefix(opp, spec_match(side, price, taker, qty, opp).book, k),
    decreases opp.len(), front_len(opp),
{
    let m = spec_match(side, price, taker, qty, opp);
    if qty == 0 || opp.len() == 0 || opp[0].orders.len() == 0 || !crosses(
        side,
        price,
        opp[0].price,
    ) {
        if opp.len() > 0 {
            assert(limit_wf(opp[0], side.opposite()));
            let o = opp[0].orders[0];
            assert(o == o.with_quantity(o.quantity));
        }
        assert(consumed_prefix(opp, m.book, 0));
    } else {
        let resting = opp[0].orders[0];
        assert(limit_wf(opp[0], side.opposite()));
        if resting.quantity > qty {
            let reduced = resting.with_quantity((resting.quantity - qty) as u64);
            assert(reduced_order(resting, reduced));
            assert(consumed_prefix(opp, m.book, 0));
        } else {
            let rest_book = if opp[0].orders.len() == 1 {
                opp.drop_first()
            } else {
                opp.update(
                    0,
                    LimitView { price: opp[0].price, orders: opp[0].orders.drop_first() },
                )
            };
            lemma_consume_front_wf(opp, side.opposite());
            lemma_price_time_priority(
                side,
                price,
                taker,
                (qty - resting.quantity) as u64,
                rest_book,
            );
            let k2 = choose|k: int| consumed_prefix(rest_book, m.book, k);
            if opp[0].orders.len() == 1 {
                assert forall|j: int| 1 <= j < m.book.len() implies m.book[j] == opp[(k2 + 1)
                    + j] by {
                    assert(m.book[j] == rest_book[k2 + j]);
                }
                if m.book.len() > 0 {
                    assert(rest_book[k2] == opp[k2 + 1]);
                }
                assert(consumed_prefix(opp, m.book, k2 + 1));
            } else {
                if k2 == 0 {
                    // the front level survives with one more order consumed
                    if m.book.len() > 0 {
                        let q0 = opp[0].orders;
                        let q1 = rest_book[0].orders;
                        let q2 = m.book[0].orders;
                        assert(q1 == q0.drop_first());
                        assert(consumed_queue(q1, q2));
                        assert(q1[q1.len() - q2.len()] == q0[q0.len() - q2.len()]);
                        assert forall|j: int| 1 <= j < q2.len() implies q2[j] == q0[q0.len()
                            - q2.len() + j] by {
                            assert(q2[j] == q1[q1.len() - q2.len() + j]);
                        }
                        assert(consumed_queue(q0, q2));
                    }
                    assert(consumed_prefix(opp, m.book, 0));
                } else {
                    assert forall|j: int| 1 <= j < m.book.len() implies m.book[j] == opp[k2
                        + j] by {
                        assert(m.book[j] == rest_book[k2 + j]);
                        assert(rest_book[k2 + j] == opp[k2 + j]);
                    }
                    if m.book.len() > 0 {
                        assert(rest_book[k2] == opp[k2]);
                    }
                    assert(consumed_prefix(opp, m.book, k2));
                }
            }
        }
    }
}

/// Removal by identity succeeds exactly when some queued order carries the
/// identity.
proof fn lemma_remove_order_found(orders: Seq<Order>, user_id: u64, timestamp: TimeStamp)
    ensures
        spec_remove_order(orders, user_id, timestamp) is Some <==> exists|n: int|
            0 <= n < orders.len() && (#[trigger] orders[n]).same_identity(user_id, timestamp),
    decreases orders.len(),
{
    if orders.len() == 0 {
    } else if orders[0].same_identity(user_id, timestamp) {
    } else {
        lemma_remove_order_found(orders.drop_first(), user_id, timestamp);
        if exists|n: int|
            0 <= n < orders.len() && (#[trigger] orders[n]).same_identity(user_id, timestamp) {
            let n = choose|n: int|
                0 <= n < orders.len() && (#[trigger] orders[n]).same_identity(user_id, timestamp);
            assert(orders.drop_first()[n - 1].same_identity(user_id, timestamp));
        }
        if spec_remove_order(orders, user_id, timestamp) is Some {
            let n = choose|n: int|
                0 <= n < orders.drop_first().len() && (#[trigger] orders.drop_first()[n])
                    .same_identity(user_id, timestamp);
            assert(orders[n + 1].same_identity(user_id, timestamp));
        }
    }
}

/// Cancellation on a well-formed side of side `side` succeeds exactly when
/// an order carrying the `(user_id, timestamp)` identity rests at the given
/// price.
pub proof fn lemma_cancel_found(
    s: Seq<LimitView>,
    side: Side,
    user_id: u64,
    timestamp: TimeStamp,
    price: Price,
)
    requires
        side_wf(s, side),
    ensures
        spec_cancel(s, user_id, timestamp, price) is Some <==> exists|i: int, n: int|
            0 <= i < s.len() && s[i].price == price && 0 <= n < s[i].orders.len() && (#[trigger] s[i].orders[n]).same_identity(
                user_id,
                timestamp,
            ),
    decreases s.len(),
{
    if s.len() == 0 {
    } else if s[0].price == price {
        lemma_remove_order_found(s[0].orders, user_id, timestamp);
        // strict sorting keeps every other level's price different
        assert forall|i: int| 1 <= i < s.len() implies (#[trigger] s[i]).price != price by {
            assert(better(side, s[0].price, s[i].price));
        }
        if spec_cancel(s, user_id, timestamp, price) is Some {
            let n = choose|n: int|
                0 <= n < s[0].orders.len() && (#[trigger] s[0].orders[n]).same_identity(
                    user_id,
                    timestamp,
                );
            assert(s[0].orders[n].same_identity(user_id, timestamp));
        }
        if exists|i: int, n: int|
            0 <= i < s.len() && s[i].price == price && 0 <= n < s[i].orders.len() && (
            #[trigger] s[i].orders[n]).same_identity(user_id, timestamp) {
            let (i, n) = choose|i: int, n: int|
                0 <= i < s.len() && s[i].price == price && 0 <= n < s[i].orders.len() && (
                #[trigger] s[i].orders[n]).same_identity(user_id, timestamp);
            assert(i == 0);
        }
    } else {
        let t = s.drop_first();
        assert forall|k: int| 0 <= k < t.len() implies limit_wf(#[trigger] t[k], side) by {
            assert(limit_wf(s[k + 1], side));
        }
        assert forall|k: int, m: int| 0 <= k < m < t.len() implies better(
            side,
            (#[trigger] t[k]).price,
            (#[trigger] t[m]).price,
        ) by {
            assert(better(side, s[k + 1].price, s[m + 1].price));
        }
        lemma_cancel_found(t, side, user_id, timestamp, price);
        if spec_cancel(s, user_id, timestamp, price) is Some {
            let (i, n) = choose|i: int, n: int|
                0 <= i < t.len() && t[i].price == price && 0 <= n < t[i].orders.len() && (
                #[trigger] t[i].orders[n]).same_identity(user_id, timestamp);
            assert(s[i + 1].orders[n].same_identity(user_id, timestamp));
            assert(s[i + 1].price == price);
        }
        if exists|i: int, n: int|
            0 <= i < s.len() && s[i].price == price && 0 <= n < s[i].orders.len() && (
            #[trigger] s[i].orders[n]).same_identity(user_id, timestamp) {
            let (i, n) = choose|i: int, n: int|
                0 <= i < s.len() && s[i].price == price && 0 <= n < s[i].orders.len() && (
                #[trigger] s[i].orders[n]).same_identity(user_id, timestamp);
            assert(i >= 1);
            assert(t[i - 1].orders[n].same_identity(user_id, timestamp));
            assert(t[i - 1].price == price);
        }
    }
}

/// Cancel precision: a successful cancellation removes exactly the
/// addressed order — it carries the cancelled identity, the given price and
/// the side — and every other resting order on the side keeps its quantity
/// and its relative position: the side's flattened queue before the call is
/// the queue after, with the removed order put back at its old place.
pub proof fn lemma_cancel_precision(
    s: Seq<LimitView>,
    side: Side,
    user_id: u64,
    timestamp: TimeStamp,
    price: Price,
    removed: Order,
    after: Seq<LimitView>,
)
    requires
        side_wf(s, side),
        spec_cancel(s, user_id, timestamp, price) == Some((removed, after)),
    ensures
        removed.same_identity(user_id, timestamp),
        removed.price == price,
        removed.side == side,
        exists|n: int|
            0 <= n <= side_orders(after).len() && side_orders(s) == #[trigger] side_orders(
                after,
            ).insert(n, removed),
    decreases s.len(),
{
    if s[0].price == price {
        lemma_remove_order_some(s[0].orders, user_id, timestamp);
        let k = choose|k: int|
            0 <= k < s[0].orders.len() && spec_remove_order(s[0].orders, user_id, timestamp)
                == Some((s[0].orders[k], #[trigger] s[0].orders.remove(k))) && s[0].orders[k].same_identity(
                user_id,
                timestamp,
            );
        let o = s[0].orders[k];
        assert(limit_wf(s[0], side));
        let rest = s[0].orders.remove(k);
        if rest.len() == 0 {
            assert(s[0].orders.len() == 1);
            assert(after == s.drop_first());
            assert(side_orders(s) == s[0].orders + side_orders(s.drop_first()));
            assert(side_orders(s) =~= side_orders(after).insert(0, removed));
            assert(exists|n: int|
                0 <= n <= side_orders(after).len() && side_orders(s) == #[trigger] side_orders(
                    after,
                ).insert(n, removed));
        } else {
            assert(after == s.update(0, LimitView { price: s[0].price, orders: rest }));
            assert(side_orders(after) == rest + side_orders(after.drop_first()));
            assert(after.drop_first() =~= s.drop_first());
            assert(side_orders(s) == s[0].orders + side_orders(s.drop_first()));
            assert(side_orders(s) =~= (rest + side_orders(s.drop_first())).insert(k, o));
            assert(side_orders(s) == side_orders(after).insert(k, removed));
            assert(exists|n: int|
                0 <= n <= side_orders(after).len() && side_orders(s) == #[trigger] side_orders(
                    after,
                ).insert(n, removed));
        }
    } else {
        let t = s.drop_first();
        assert forall|k: int| 0 <= k < t.len() implies limit_wf(#[trigger] t[k], side) by {
            assert(limit_wf(s[k + 1], side));
        }
        assert forall|k: int, m: int| 0 <= k < m < t.len() implies better(
            side,
            (#[trigger] t[k]).price,
            (#[trigger] t[m]).price,
        ) by {
            assert(better(side, s[k + 1].price, s[m + 1].price));
        }
        match spec_cancel(t, user_id, timestamp, price) {
            Some((o, t2)) => {
                lemma_cancel_precision(t, side, user_id, timestamp, price, o, t2);
                let n2 = choose|n: int|
                    0 <= n <= side_orders(t2).len() && side_orders(t) == #[trigger] side_orders(
                        t2,
                    ).insert(n, o);
                assert(removed == o);
                assert(after == seq![s[0]] + t2);
                assert((seq![s[0]] + t2)[0] == s[0]);
                assert(after.drop_first() =~= t2);
                assert(side_orders(after) == s[0].orders + side_orders(t2));
                assert(side_orders(s) == s[0].orders + side_orders(s.drop_first()));
                assert(side_orders(s) =~= side_orders(after).insert(s[0].orders.len() + n2, o));
                assert(exists|n: int|
                    0 <= n <= side_orders(after).len() && side_orders(s) == #[trigger] side_orders(
                        after,
                    ).insert(n, removed));
            },
            None => {
                assert(false);
            },
        }
    }
}

} // verus!

