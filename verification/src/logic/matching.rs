use vstd::prelude::*;

use crate::logic::linked_list::{push_free_node, unlink_node};
use crate::state::{
    dlinked_at, head_of, in_range, lemma_active_orders_count, lemma_payload_update, lemma_remove_at, same_header, same_shape,
    OrderNode, OrderSide, Orderbook, MAX_ORDERS, SENTINEL,
};

verus! {

/// What one taker order did against the book.
pub struct MatchResult {
    pub base_filled: u64,
    pub quote_filled: u64,
    pub remaining_quantity: u64,
}

/// A resting order at `maker_price` is good enough for a taker with limit
/// `limit`: a buying taker takes prices up to its limit, a selling taker
/// prices down to it.
pub open spec fn crosses(taker_bid: bool, maker_price: u64, limit: u64) -> bool {
    if taker_bid {
        maker_price <= limit
    } else {
        maker_price >= limit
    }
}

/// What is left of a resting order.
pub open spec fn available(node: OrderNode) -> int {
    node.quantity.val - node.filled_quantity.val
}

/// The quantity that a taker wanting `remaining` takes from each of the resting
/// orders `makers`, best first, while it still wants some and their prices
/// cross its limit. An order is taken whole unless the taker wants less.
pub open spec fn fills(
    orders: Seq<OrderNode>,
    makers: Seq<u32>,
    taker_bid: bool,
    remaining: int,
    limit: u64,
) -> Seq<int>
    decreases makers.len(),
{
    if makers.len() == 0 || remaining <= 0 || !crosses(
        taker_bid,
        orders[makers[0] as int].price.val,
        limit,
    ) {
        Seq::empty()
    } else {
        let a = available(orders[makers[0] as int]);
        let f = if remaining < a {
            remaining
        } else {
            a
        };
        seq![f].add(fills(orders, makers.drop_first(), taker_bid, remaining - f, limit))
    }
}

/// The sum of a sequence of quantities.
pub open spec fn total(f: Seq<int>) -> int
    decreases f.len(),
{
    if f.len() == 0 {
        0
    } else {
        total(f.drop_last()) + f.last()
    }
}

/// The price of the quantities `f` taken from the orders `makers`, each at its own price.
pub open spec fn cost(orders: Seq<OrderNode>, makers: Seq<u32>, f: Seq<int>) -> int
    decreases f.len(),
{
    if f.len() == 0 {
        0
    } else {
        cost(orders, makers, f.drop_last()) + f.last() * orders[makers[f.len() - 1] as int].price.val
    }
}

/// How many of the orders touched by `f` were taken whole: all of them but a
/// last one that was only partly taken.
pub open spec fn consumed(orders: Seq<OrderNode>, makers: Seq<u32>, f: Seq<int>) -> int {
    if f.len() > 0 && f.last() < available(orders[makers[f.len() - 1] as int]) {
        f.len() - 1
    } else {
        f.len() as int
    }
}

/// A resting order after `fill` of it was taken: `gone` when it left the book
/// for the free list, cancelled and linked back to nothing.
pub open spec fn matched(before: OrderNode, after: OrderNode, fill: int, gone: bool) -> bool {
    &&& after.user == before.user
    &&& after.order_id == before.order_id
    &&& after.price == before.price
    &&& after.quantity == before.quantity
    &&& after.timestamp == before.timestamp
    &&& after.side == before.side
    &&& after.filled_quantity.val == before.filled_quantity.val + fill
    &&& if gone {
        after.status.is_cancelled() && after.prev == SENTINEL
    } else {
        after.status == before.status
    }
}

/// The resting orders that a taker order on `taker_side` meets, best first.
pub open spec fn maker_list(ob: Orderbook, taker_side: OrderSide) -> Seq<u32> {
    ob.side_list(!taker_side.is_bid())
}

/// The fills that a taker order on `taker_side` meets in book `ob`.
pub open spec fn match_fills(ob: Orderbook, taker_side: OrderSide, quantity: u64, limit: u64) -> Seq<
    int,
> {
    fills(ob.orders@, ob.side_list(!taker_side.is_bid()), taker_side.is_bid(), quantity as int, limit)
}

/// A taker touches at most every resting order.
pub proof fn lemma_fills_len(
    orders: Seq<OrderNode>,
    makers: Seq<u32>,
    taker_bid: bool,
    remaining: int,
    limit: u64,
)
    ensures
        fills(orders, makers, taker_bid, remaining, limit).len() <= makers.len(),
    decreases makers.len(),
{
    if makers.len() > 0 {
        let a = available(orders[makers[0] as int]);
        let x = if remaining < a {
            remaining
        } else {
            a
        };
        lemma_fills_len(orders, makers.drop_first(), taker_bid, remaining - x, limit);
    }
}

/// Each fill is between nothing and what its order had left, provided no
/// order it touches is over-filled.
pub proof fn lemma_fills_bounds(
    orders: Seq<OrderNode>,
    makers: Seq<u32>,
    taker_bid: bool,
    remaining: int,
    limit: u64,
)
    requires
        forall|j: int|
            0 <= j < fills(orders, makers, taker_bid, remaining, limit).len() ==> available(
                #[trigger] orders[makers[j] as int],
            ) >= 0,
    ensures
        fills(orders, makers, taker_bid, remaining, limit).len() <= makers.len(),
        forall|j: int|
            0 <= j < fills(orders, makers, taker_bid, remaining, limit).len() ==> 0 <= #[trigger] fills(
                orders,
                makers,
                taker_bid,
                remaining,
                limit,
            )[j] <= available(orders[makers[j] as int]),
    decreases makers.len(),
{
    let f = fills(orders, makers, taker_bid, remaining, limit);
    if f.len() > 0 {
        let t = makers.drop_first();
        let a = available(orders[makers[0] as int]);
        let x = if remaining < a {
            remaining
        } else {
            a
        };
        let g = fills(orders, t, taker_bid, remaining - x, limit);
        assert(f == seq![x].add(g));
        lemma_fills_len(orders, t, taker_bid, remaining - x, limit);
        assert forall|j: int| 0 <= j < g.len() implies available(#[trigger] orders[t[j] as int])
            >= 0 by {
            assert(f[j + 1] == g[j]);
            assert(t[j] == makers[j + 1]);
            assert(available(orders[makers[j + 1] as int]) >= 0);
        }
        lemma_fills_bounds(orders, t, taker_bid, remaining - x, limit);
        assert forall|j: int| 0 <= j < f.len() implies 0 <= #[trigger] f[j] <= available(
            orders[makers[j] as int],
        ) by {
            if j > 0 {
                assert(f[j] == g[j - 1]);
                assert(t[j - 1] == makers[j]);
            } else {
                assert(available(orders[makers[0] as int]) >= 0);
            }
        }
    }
}

/// Every order a taker touches has a price that crosses its limit.
pub proof fn lemma_fills_cross(
    orders: Seq<OrderNode>,
    makers: Seq<u32>,
    taker_bid: bool,
    remaining: int,
    limit: u64,
)
    ensures
        forall|j: int|
            0 <= j < fills(orders, makers, taker_bid, remaining, limit).len() ==> crosses(
                taker_bid,
                #[trigger] orders[makers[j] as int].price.val,
                limit,
            ),
    decreases makers.len(),
{
    let f = fills(orders, makers, taker_bid, remaining, limit);
    if f.len() > 0 {
        let t = makers.drop_first();
        let a = available(orders[makers[0] as int]);
        let x = if remaining < a {
            remaining
        } else {
            a
        };
        let g = fills(orders, t, taker_bid, remaining - x, limit);
        assert(f == seq![x].add(g));
        lemma_fills_len(orders, t, taker_bid, remaining - x, limit);
        lemma_fills_cross(orders, t, taker_bid, remaining - x, limit);
        assert forall|j: int| 0 <= j < f.len() implies crosses(
            taker_bid,
            #[trigger] orders[makers[j] as int].price.val,
            limit,
        ) by {
            if j > 0 {
                assert(t[j - 1] == makers[j]);
                assert(crosses(taker_bid, orders[t[j - 1] as int].price.val, limit));
            }
        }
    }
}

/// A buyer never pays more than its limit per unit, and a seller never gets
/// less: the cost of the fills is at most (buyer) or at least (seller) their
/// total times the limit.
pub proof fn lemma_cost_within_limit(
    orders: Seq<OrderNode>,
    makers: Seq<u32>,
    f: Seq<int>,
    taker_bid: bool,
    limit: u64,
)
    requires
        forall|j: int|
            0 <= j < f.len() ==> #[trigger] f[j] >= 0 && crosses(
                taker_bid,
                orders[makers[j] as int].price.val,
                limit,
            ),
    ensures
        taker_bid ==> cost(orders, makers, f) <= total(f) * limit,
        !taker_bid ==> cost(orders, makers, f) >= total(f) * limit,
    decreases f.len(),
{
    if f.len() > 0 {
        let g = f.drop_last();
        assert forall|j: int| 0 <= j < g.len() implies #[trigger] g[j] >= 0 && crosses(
            taker_bid,
            orders[makers[j] as int].price.val,
            limit,
        ) by {
            assert(g[j] == f[j]);
        }
        lemma_cost_within_limit(orders, makers, g, taker_bid, limit);
        let x = f.last();
        let p = orders[makers[f.len() - 1] as int].price.val as int;
        let tg = total(g);
        let l = limit as int;
        assert(f[f.len() - 1] >= 0);
        assert(tg * l + x * l == (tg + x) * l) by (nonlinear_arith);
        if taker_bid {
            assert(p <= l);
            assert(x * p <= x * l) by (nonlinear_arith)
                requires
                    x >= 0,
                    p <= l,
            ;
        } else {
            assert(p >= l);
            assert(x * p >= x * l) by (nonlinear_arith)
                requires
                    x >= 0,
                    p >= l,
            ;
        }
    }
}

/// The cost of a prefix of non-negative fills is at most the cost of all of them.
pub proof fn lemma_cost_prefix(orders: Seq<OrderNode>, makers: Seq<u32>, f: Seq<int>, n: int)
    requires
        0 <= n <= f.len(),
        forall|j: int| 0 <= j < f.len() ==> #[trigger] f[j] >= 0,
    ensures
        0 <= cost(orders, makers, f.take(n)) <= cost(orders, makers, f),
    decreases f.len() - n,
{
    if n == f.len() {
        assert(f.take(n) =~= f);
        lemma_cost_nonneg(orders, makers, f);
    } else {
        lemma_cost_prefix(orders, makers, f, n + 1);
        let p = f.take(n + 1);
        assert(p.drop_last() =~= f.take(n));
        let x = p.last();
        let price = orders[makers[n] as int].price.val;
        assert(x * price >= 0) by (nonlinear_arith)
            requires
                x >= 0,
                price >= 0,
        ;
        lemma_cost_nonneg(orders, makers, f.take(n));
    }
}

/// The cost of non-negative fills is non-negative.
pub proof fn lemma_cost_nonneg(orders: Seq<OrderNode>, makers: Seq<u32>, f: Seq<int>)
    requires
        forall|j: int| 0 <= j < f.len() ==> #[trigger] f[j] >= 0,
    ensures
        cost(orders, makers, f) >= 0,
    decreases f.len(),
{
    if f.len() > 0 {
        let x = f.last();
        let price = orders[makers[f.len() - 1] as int].price.val;
        assert(x * price >= 0) by (nonlinear_arith)
            requires
                x >= 0,
                price >= 0,
        ;
        lemma_cost_nonneg(orders, makers, f.drop_last());
    }
}

/// Takes `fill` from the resting order at the head of the list of side
/// `maker_bid`. When that leaves nothing of it, the order leaves the book and
/// its slot goes back to the free list; the result tells whether it did.
fn fill_head_maker(ob: &mut Orderbook, maker_bid: bool, fill: u64) -> (gone: bool)
    requires
        old(ob).wf(),
        old(ob).side_list(maker_bid).len() > 0,
        0 <= fill <= available(old(ob).orders@[old(ob).side_list(maker_bid)[0] as int]),
    ensures
        final(ob).wf(),
        same_header(*final(ob), *old(ob)),
        ({
            let m = old(ob).side_list(maker_bid)[0];
            &&& gone == (fill == available(old(ob).orders@[m as int]))
            &&& final(ob).side_list(!maker_bid) == old(ob).side_list(!maker_bid)
            &&& gone ==> final(ob).side_list(maker_bid) == old(ob).side_list(maker_bid).skip(1)
            &&& gone ==> final(ob).free@ == seq![m].add(old(ob).free@)
            &&& !gone ==> final(ob).side_list(maker_bid) == old(ob).side_list(maker_bid)
            &&& !gone ==> final(ob).free@ == old(ob).free@
            &&& final(ob).orders@.len() == MAX_ORDERS
            &&& matched(old(ob).orders@[m as int], final(ob).orders@[m as int], fill as int, gone)
            &&& forall|i: int|
                0 <= i < MAX_ORDERS && i != m ==> (#[trigger] final(ob).orders@[i]).same_order(
                    old(ob).orders@[i],
                )
            &&& forall|i: int|
                0 <= i < MAX_ORDERS && !old(ob).side_list(maker_bid).contains(i as u32)
                    ==> #[trigger] final(ob).orders@[i] == old(ob).orders@[i]
        }),
{
    let ghost a = *ob;
    let ghost l = ob.side_list(maker_bid);
    let maker_idx = if maker_bid {
        ob.bid_head
    } else {
        ob.ask_head
    };
    proof {
        assert(l[0] < MAX_ORDERS);
    }
    let maker_quantity = ob.orders[maker_idx as usize].quantity.val;
    let maker_filled = ob.orders[maker_idx as usize].filled_quantity.val;
    ob.orders[maker_idx as usize].filled_quantity.val = maker_filled + fill;
    proof {
        assert forall|i: int| 0 <= i < MAX_ORDERS implies #[trigger] same_shape(
            ob.orders@[i],
            a.orders@[i],
        ) by {}
        lemma_payload_update(a, *ob);
    }
    if maker_filled + fill == maker_quantity {
        let ghost b = *ob;
        proof {
            let i0 = l.index_of(maker_idx);
            assert(l.contains(maker_idx));
            assert(i0 == 0);
            lemma_remove_at(l, 0);
            assert(l.remove(0) =~= l.skip(1));
        }
        unlink_node(ob, maker_idx, maker_bid);
        proof {
            assert(!ob.side_list(maker_bid).contains(maker_idx));
            assert(!ob.side_list(!maker_bid).contains(maker_idx)) by {
                assert(b.side_list(maker_bid).contains(maker_idx));
            }
            assert(!ob.free@.contains(maker_idx)) by {
                assert(b.side_list(maker_bid).contains(maker_idx));
            }
        }
        push_free_node(ob, maker_idx);
        proof {
            assert forall|i: int|
                0 <= i < MAX_ORDERS && !l.contains(i as u32) implies #[trigger] ob.orders@[i]
                == a.orders@[i] by {
                assert(i != maker_idx);
                assert(b.orders@[i] == a.orders@[i]);
            }
            assert forall|i: u32| i < MAX_ORDERS implies #[trigger] ob.bids@.contains(i)
                || ob.asks@.contains(i) || ob.free@.contains(i) by {
                assert(b.bids@.contains(i) || b.asks@.contains(i) || b.free@.contains(i));
                if i == maker_idx {
                    assert(ob.free@[0] == i);
                } else if b.free@.contains(i) {
                    let j = choose|j: int| 0 <= j < b.free@.len() && b.free@[j] == i;
                    assert(ob.free@[j + 1] == i);
                }
            }
        }
        true
    } else {
        false
    }
}

/// The total of a sequence that starts with `x`.
pub proof fn lemma_total_prepend(x: int, g: Seq<int>)
    ensures
        total(seq![x].add(g)) == x + total(g),
    decreases g.len(),
{
    let s = seq![x].add(g);
    if g.len() == 0 {
        assert(s.drop_last() =~= Seq::<int>::empty());
        assert(s.last() == x);
        assert(total(s.drop_last()) == 0);
        assert(total(s) == total(s.drop_last()) + s.last());
        assert(total(g) == 0);
    } else {
        assert(s.drop_last() =~= seq![x].add(g.drop_last()));
        assert(s.last() == g.last());
        lemma_total_prepend(x, g.drop_last());
        assert(total(s) == total(s.drop_last()) + s.last());
        assert(total(g) == total(g.drop_last()) + g.last());
    }
}

/// What a taker takes adds up to no more than it wanted, and to no less than nothing.
pub proof fn lemma_fills_total(
    orders: Seq<OrderNode>,
    makers: Seq<u32>,
    taker_bid: bool,
    remaining: int,
    limit: u64,
)
    requires
        remaining >= 0,
        forall|j: int|
            0 <= j < fills(orders, makers, taker_bid, remaining, limit).len() ==> available(
                #[trigger] orders[makers[j] as int],
            ) >= 0,
    ensures
        0 <= total(fills(orders, makers, taker_bid, remaining, limit)) <= remaining,
    decreases makers.len(),
{
    let f = fills(orders, makers, taker_bid, remaining, limit);
    lemma_fills_bounds(orders, makers, taker_bid, remaining, limit);
    if f.len() > 0 {
        let t = makers.drop_first();
        let a = available(orders[makers[0] as int]);
        let x = if remaining < a {
            remaining
        } else {
            a
        };
        let g = fills(orders, t, taker_bid, remaining - x, limit);
        assert(f == seq![x].add(g));
        lemma_fills_len(orders, t, taker_bid, remaining - x, limit);
        assert forall|j: int| 0 <= j < g.len() implies available(#[trigger] orders[t[j] as int])
            >= 0 by {
            assert(f[j + 1] == g[j]);
            assert(t[j] == makers[j + 1]);
            assert(available(orders[makers[j + 1] as int]) >= 0);
        }
        assert(f[0] == x);
        lemma_fills_total(orders, t, taker_bid, remaining - x, limit);
        lemma_total_prepend(x, g);
    }
}

/// A taker that keeps part of its quantity took every order it touched whole,
/// and stopped at the end of the book or at an order whose price does not
/// cross its limit: what it leaves does not cross the rest of the book.
pub proof fn lemma_unfilled_taker_stops(
    orders: Seq<OrderNode>,
    makers: Seq<u32>,
    taker_bid: bool,
    remaining: int,
    limit: u64,
)
    requires
        remaining >= 0,
        forall|j: int|
            0 <= j < fills(orders, makers, taker_bid, remaining, limit).len() ==> available(
                #[trigger] orders[makers[j] as int],
            ) >= 0,
        total(fills(orders, makers, taker_bid, remaining, limit)) < remaining,
    ensures
        ({
            let f = fills(orders, makers, taker_bid, remaining, limit);
            &&& consumed(orders, makers, f) == f.len()
            &&& forall|j: int| 0 <= j < f.len() ==> #[trigger] f[j] == available(orders[makers[j] as int])
            &&& f.len() == makers.len() || !crosses(
                taker_bid,
                orders[makers[f.len() as int] as int].price.val,
                limit,
            )
        }),
    decreases makers.len(),
{
    let f = fills(orders, makers, taker_bid, remaining, limit);
    lemma_fills_bounds(orders, makers, taker_bid, remaining, limit);
    if f.len() > 0 {
        let t = makers.drop_first();
        let a = available(orders[makers[0] as int]);
        let x = if remaining < a {
            remaining
        } else {
            a
        };
        let g = fills(orders, t, taker_bid, remaining - x, limit);
        assert(f == seq![x].add(g));
        lemma_fills_len(orders, t, taker_bid, remaining - x, limit);
        assert forall|j: int| 0 <= j < g.len() implies available(#[trigger] orders[t[j] as int])
            >= 0 by {
            assert(f[j + 1] == g[j]);
            assert(t[j] == makers[j + 1]);
            assert(available(orders[makers[j + 1] as int]) >= 0);
        }
        assert(f[0] == x);
        assert(x >= 0);
        lemma_total_prepend(x, g);
        lemma_fills_total(orders, t, taker_bid, remaining - x, limit);
        assert(x == a);
        lemma_unfilled_taker_stops(orders, t, taker_bid, remaining - x, limit);
        assert forall|j: int| 0 <= j < f.len() implies #[trigger] f[j] == available(
            orders[makers[j] as int],
        ) by {
            if j > 0 {
                assert(f[j] == g[j - 1]);
                assert(t[j - 1] == makers[j]);
            }
        }
        if g.len() < t.len() {
            assert(t[g.len() as int] == makers[f.len() as int]);
        }
        assert(f.last() == available(orders[makers[f.len() - 1] as int]));
    }
}

/// The limit of a taker order holds for what it pays or receives: a buyer
/// pays at most its limit per unit and a seller receives at least its limit
/// per unit; and it fills no more than it asked for.
pub proof fn lemma_match_respects_limit(
    ob: Orderbook,
    taker_side: OrderSide,
    taker_quantity: u64,
    limit_price: u64,
)
    requires
        forall|j: int|
            0 <= j < match_fills(ob, taker_side, taker_quantity, limit_price).len() ==> available(
                ob.orders@[#[trigger] maker_list(ob, taker_side)[j] as int],
            ) >= 0,
    ensures
        ({
            let f = match_fills(ob, taker_side, taker_quantity, limit_price);
            let q = cost(ob.orders@, maker_list(ob, taker_side), f);
            &&& 0 <= total(f) <= taker_quantity
            &&& taker_side.is_bid() ==> q <= total(f) * limit_price
            &&& !taker_side.is_bid() ==> q >= total(f) * limit_price
        }),
{
    let o = ob.orders@;
    let m = maker_list(ob, taker_side);
    let tb = taker_side.is_bid();
    assert forall|j: int|
        0 <= j < fills(o, m, tb, taker_quantity as int, limit_price).len() implies available(
        #[trigger] o[m[j] as int],
    ) >= 0 by {
        assert(available(o[maker_list(ob, taker_side)[j] as int]) >= 0);
    }
    lemma_fills_total(o, m, tb, taker_quantity as int, limit_price);
    lemma_fills_bounds(o, m, tb, taker_quantity as int, limit_price);
    lemma_fills_cross(o, m, tb, taker_quantity as int, limit_price);
    lemma_cost_within_limit(o, m, fills(o, m, tb, taker_quantity as int, limit_price), tb, limit_price);
}

/// Over resting orders none of which is over-filled, a limit that lets more
/// prices cross never fills less.
proof fn lemma_fills_monotone_in_limit(
    orders: Seq<OrderNode>,
    makers: Seq<u32>,
    taker_bid: bool,
    remaining: int,
    l1: u64,
    l2: u64,
)
    requires
        remaining >= 0,
        forall|j: int| 0 <= j < makers.len() ==> available(#[trigger] orders[makers[j] as int]) >= 0,
        taker_bid ==> l1 <= l2,
        !taker_bid ==> l1 >= l2,
    ensures
        total(fills(orders, makers, taker_bid, remaining, l1)) <= total(
            fills(orders, makers, taker_bid, remaining, l2),
        ),
    decreases makers.len(),
{
    let f2 = fills(orders, makers, taker_bid, remaining, l2);
    lemma_fills_len(orders, makers, taker_bid, remaining, l2);
    lemma_fills_total(orders, makers, taker_bid, remaining, l2);
    if makers.len() > 0 && remaining > 0 && crosses(taker_bid, orders[makers[0] as int].price.val, l1) {
        let t = makers.drop_first();
        let a = available(orders[makers[0] as int]);
        let x = if remaining < a {
            remaining
        } else {
            a
        };
        assert(available(orders[makers[0] as int]) >= 0);
        assert forall|j: int| 0 <= j < t.len() implies available(#[trigger] orders[t[j] as int]) >= 0 by {
            assert(t[j] == makers[j + 1]);
            assert(available(orders[makers[j + 1] as int]) >= 0);
        }
        lemma_fills_monotone_in_limit(orders, t, taker_bid, remaining - x, l1, l2);
        lemma_total_prepend(x, fills(orders, t, taker_bid, remaining - x, l1));
        lemma_total_prepend(x, fills(orders, t, taker_bid, remaining - x, l2));
    }
}

/// A taker order whose limit lets more prices cross never fills less, over
/// a book none of whose resting orders on the other side is over-filled.
pub proof fn lemma_match_monotone_in_limit(
    ob: Orderbook,
    taker_side: OrderSide,
    taker_quantity: u64,
    l1: u64,
    l2: u64,
)
    requires
        forall|j: int|
            0 <= j < maker_list(ob, taker_side).len() ==> available(
                #[trigger] ob.orders@[maker_list(ob, taker_side)[j] as int],
            ) >= 0,
        taker_side.is_bid() ==> l1 <= l2,
        !taker_side.is_bid() ==> l1 >= l2,
    ensures
        total(match_fills(ob, taker_side, taker_quantity, l1)) <= total(
            match_fills(ob, taker_side, taker_quantity, l2),
        ),
{
    lemma_fills_monotone_in_limit(
        ob.orders@,
        maker_list(ob, taker_side),
        taker_side.is_bid(),
        taker_quantity as int,
        l1,
        l2,
    );
}

/// A match leaves no resting order filled to its quantity: the orders it took
/// whole left the book, one it took in part got less than it had left, and the
/// others are as they were.
proof fn lemma_match_keeps_unfilled(ob0: Orderbook, ob: Orderbook, tb: bool, f: Seq<int>)
    requires
        ob0.wf(),
        ob0.orders_unfilled(),
        ob.orders@.len() == MAX_ORDERS,
        f.len() <= ob0.side_list(!tb).len(),
        forall|j: int|
            0 <= j < f.len() ==> 0 <= #[trigger] f[j] <= available(
                ob0.orders@[ob0.side_list(!tb)[j] as int],
            ),
        ob.side_list(!tb) == ob0.side_list(!tb).skip(consumed(ob0.orders@, ob0.side_list(!tb), f)),
        ob.side_list(tb) == ob0.side_list(tb),
        ({
            let opp = ob0.side_list(!tb);
            let c = consumed(ob0.orders@, opp, f);
            c < f.len() ==> matched(ob0.orders@[opp[c] as int], ob.orders@[opp[c] as int], f[c], false)
        }),
        forall|i: int|
            0 <= i < MAX_ORDERS && !ob0.side_list(!tb).take(f.len() as int).contains(i as u32)
                ==> (#[trigger] ob.orders@[i]).same_order(ob0.orders@[i]),
        forall|i: int|
            0 <= i < MAX_ORDERS && !ob0.side_list(!tb).contains(i as u32)
                ==> #[trigger] ob.orders@[i] == ob0.orders@[i],
    ensures
        ob.orders_unfilled(),
{
    let o0 = ob0.orders@;
    let o = ob.orders@;
    let opp = ob0.side_list(!tb);
    let own = ob0.side_list(tb);
    let c = consumed(o0, opp, f);
    assert(0 <= c <= f.len());
    // the unchanged side
    assert forall|i: int| 0 <= i < own.len() implies (#[trigger] o[own[i] as int]).filled_quantity.val
        < o[own[i] as int].quantity.val by {
        let x = own[i];
        assert(own.contains(x));
        assert(!opp.contains(x));
        assert(x < MAX_ORDERS);
        assert(o[x as int] == o0[x as int]);
        if tb {
            assert(ob0.bids@[i] == x);
        } else {
            assert(ob0.asks@[i] == x);
        }
    }
    // the side that was matched
    let rest = opp.skip(c);
    assert forall|i: int| 0 <= i < rest.len() implies (#[trigger] o[rest[i] as int]).filled_quantity.val
        < o[rest[i] as int].quantity.val by {
        let x = rest[i];
        assert(x == opp[c + i]);
        assert(x < MAX_ORDERS);
        if tb {
            assert(ob0.asks@[c + i] == x);
        } else {
            assert(ob0.bids@[c + i] == x);
        }
        assert(o0[x as int].filled_quantity.val < o0[x as int].quantity.val);
        if c + i < f.len() {
            assert(i == 0);
            assert(matched(o0[opp[c] as int], o[opp[c] as int], f[c], false));
        } else {
            assert(!opp.take(f.len() as int).contains(x)) by {
                if opp.take(f.len() as int).contains(x) {
                    let j = choose|j: int| 0 <= j < f.len() && opp.take(f.len() as int)[j] == x;
                    assert(opp[j] == opp[c + i]);
                }
            }
            assert(o[x as int].same_order(o0[x as int]));
        }
    }
    if tb {
        assert(ob.asks@ == rest);
        assert(ob.bids@ == own);
    } else {
        assert(ob.bids@ == rest);
        assert(ob.asks@ == own);
    }
}

/// Every fill but the last takes all that its resting order has left.
proof fn lemma_fills_whole_but_last(
    orders: Seq<OrderNode>,
    makers: Seq<u32>,
    taker_bid: bool,
    remaining: int,
    limit: u64,
)
    ensures
        forall|j: int|
            0 <= j < fills(orders, makers, taker_bid, remaining, limit).len() - 1 ==> #[trigger] fills(
                orders,
                makers,
                taker_bid,
                remaining,
                limit,
            )[j] == available(orders[makers[j] as int]),
    decreases makers.len(),
{
    let f = fills(orders, makers, taker_bid, remaining, limit);
    if f.len() > 0 {
        let t = makers.drop_first();
        let a = available(orders[makers[0] as int]);
        let x = if remaining < a {
            remaining
        } else {
            a
        };
        let g = fills(orders, t, taker_bid, remaining - x, limit);
        assert(f == seq![x].add(g));
        lemma_fills_whole_but_last(orders, t, taker_bid, remaining - x, limit);
        lemma_fills_len(orders, t, taker_bid, remaining - x, limit);
        assert forall|j: int| 0 <= j < f.len() - 1 implies #[trigger] f[j] == available(
            orders[makers[j] as int],
        ) by {
            if j == 0 {
                assert(g.len() > 0);
                assert(remaining - x > 0);
            } else {
                assert(f[j] == g[j - 1]);
                assert(t[j - 1] == makers[j]);
            }
        }
    }
}

/// What a taker order takes from the resting orders of the other side, best
/// first: each fill is at a price within the taker's limit (at most the limit
/// for a buyer, at least for a seller) and at most what its order has left;
/// every fill but the last takes the order whole; the fills add up to at most
/// the taker's quantity; and a taker left wanting has taken every order it
/// touched whole and stopped only at the end of the list or at an order whose
/// price is beyond its limit.
pub proof fn lemma_match_fills_in_priority_order(
    ob: Orderbook,
    taker_side: OrderSide,
    taker_quantity: u64,
    limit_price: u64,
)
    requires
        forall|j: int|
            0 <= j < maker_list(ob, taker_side).len() ==> (#[trigger] ob.orders@[maker_list(
                ob,
                taker_side,
            )[j] as int]).filled_quantity.val <= ob.orders@[maker_list(
                ob,
                taker_side,
            )[j] as int].quantity.val,
    ensures
        ({
            let f = match_fills(ob, taker_side, taker_quantity, limit_price);
            let opp = maker_list(ob, taker_side);
            let buyer = taker_side.val == 0;
            &&& f.len() <= opp.len()
            &&& 0 <= total(f) <= taker_quantity
            &&& forall|j: int|
                0 <= j < f.len() ==> {
                    let n = #[trigger] ob.orders@[opp[j] as int];
                    &&& 0 <= f[j] <= n.quantity.val - n.filled_quantity.val
                    &&& buyer ==> n.price.val <= limit_price
                    &&& !buyer ==> n.price.val >= limit_price
                }
            &&& forall|j: int|
                0 <= j < f.len() - 1 ==> #[trigger] f[j] == ob.orders@[opp[j] as int].quantity.val
                    - ob.orders@[opp[j] as int].filled_quantity.val
            &&& total(f) < taker_quantity ==> {
                &&& forall|j: int|
                    0 <= j < f.len() ==> #[trigger] f[j] == ob.orders@[opp[j] as int].quantity.val
                        - ob.orders@[opp[j] as int].filled_quantity.val
                &&& f.len() == opp.len() || (buyer && ob.orders@[opp[f.len() as int] as int].price.val
                    > limit_price) || (!buyer && ob.orders@[opp[f.len() as int] as int].price.val
                    < limit_price)
            }
        }),
{
    let o = ob.orders@;
    let m = maker_list(ob, taker_side);
    let tb = taker_side.is_bid();
    let q = taker_quantity as int;
    assert forall|j: int| 0 <= j < fills(o, m, tb, q, limit_price).len() implies available(
        #[trigger] o[m[j] as int],
    ) >= 0 by {
        lemma_fills_len(o, m, tb, q, limit_price);
        assert(o[m[j] as int].filled_quantity.val <= o[m[j] as int].quantity.val);
    }
    lemma_fills_bounds(o, m, tb, q, limit_price);
    lemma_fills_total(o, m, tb, q, limit_price);
    lemma_fills_cross(o, m, tb, q, limit_price);
    lemma_fills_whole_but_last(o, m, tb, q, limit_price);
    if total(fills(o, m, tb, q, limit_price)) < q {
        lemma_unfilled_taker_stops(o, m, tb, q, limit_price);
    }
}

/// Fills taken at a single price cost that price per unit filled.
proof fn lemma_cost_at_one_price(orders: Seq<OrderNode>, makers: Seq<u32>, f: Seq<int>, price: u64)
    requires
        forall|j: int| 0 <= j < f.len() ==> #[trigger] orders[makers[j] as int].price.val == price,
    ensures
        cost(orders, makers, f) == total(f) * price,
    decreases f.len(),
{
    if f.len() > 0 {
        let g = f.drop_last();
        assert forall|j: int| 0 <= j < g.len() implies #[trigger] orders[makers[j] as int].price.val
            == price by {
            assert(orders[makers[j] as int].price.val == price);
        }
        lemma_cost_at_one_price(orders, makers, g, price);
        assert(orders[makers[f.len() - 1] as int].price.val == price);
        let tg = total(g);
        let x = f.last();
        assert(tg * price + x * price == (tg + x) * price) by (nonlinear_arith);
    }
}

/// A match pays each resting order its own price: when every order it takes
/// from asks the same price, the quote is that price times the quantity
/// filled; and the order it takes only in part, if any, is the last one.
pub proof fn lemma_match_pays_maker_prices(
    ob: Orderbook,
    taker_side: OrderSide,
    taker_quantity: u64,
    limit_price: u64,
    price: u64,
)
    ensures
        ({
            let f = match_fills(ob, taker_side, taker_quantity, limit_price);
            let opp = maker_list(ob, taker_side);
            &&& (forall|j: int| 0 <= j < f.len() ==> #[trigger] ob.orders@[opp[j] as int].price.val
                == price) ==> cost(ob.orders@, opp, f) == total(f) * price
            &&& f.len() > 0 && f.last() < ob.orders@[opp[f.len() - 1] as int].quantity.val
                - ob.orders@[opp[f.len() - 1] as int].filled_quantity.val ==> consumed(
                ob.orders@,
                opp,
                f,
            ) == f.len() - 1
            &&& f.len() > 0 && f.last() == ob.orders@[opp[f.len() - 1] as int].quantity.val
                - ob.orders@[opp[f.len() - 1] as int].filled_quantity.val ==> consumed(
                ob.orders@,
                opp,
                f,
            ) == f.len()
            &&& f.len() == 0 ==> consumed(ob.orders@, opp, f) == 0
        }),
{
    let f = match_fills(ob, taker_side, taker_quantity, limit_price);
    let opp = maker_list(ob, taker_side);
    if forall|j: int| 0 <= j < f.len() ==> #[trigger] ob.orders@[opp[j] as int].price.val == price {
        lemma_cost_at_one_price(ob.orders@, opp, f, price);
    }
}

/// Matches a taker order on `taker_side`, for `taker_quantity` at limit
/// `limit_price`, against the resting orders of the other side, best price
/// first and oldest first at equal prices.
///
/// Every resting order that is taken whole leaves the book for the free list;
/// a resting order that is taken in part stays where it is with its filled
/// quantity raised. The result reports the quantity filled, what it cost at
/// the resting orders' prices, and the quantity left over.
#[verifier::rlimit(60)]
#[verifier::spinoff_prover]
pub fn execute_match(
    ob: &mut Orderbook,
    taker_side: OrderSide,
    taker_quantity: u64,
    limit_price: u64,
) -> (r: MatchResult)
    requires
        old(ob).wf(),
        forall|j: int|
            0 <= j < match_fills(*old(ob), taker_side, taker_quantity, limit_price).len()
                ==> available(
                old(ob).orders@[#[trigger] maker_list(*old(ob), taker_side)[j] as int],
            ) >= 0,
        cost(
            old(ob).orders@,
            maker_list(*old(ob), taker_side),
            match_fills(*old(ob), taker_side, taker_quantity, limit_price),
        ) <= u64::MAX,
    ensures
        final(ob).wf(),
        same_header(*final(ob), *old(ob)),
        ({
            let o0 = old(ob).orders@;
            let o = final(ob).orders@;
            let opp = maker_list(*old(ob), taker_side);
            let f = match_fills(*old(ob), taker_side, taker_quantity, limit_price);
            let c = consumed(o0, opp, f);
            &&& r.base_filled == total(f)
            &&& r.quote_filled == cost(o0, opp, f)
            &&& r.remaining_quantity == taker_quantity - total(f)
            &&& final(ob).side_list(!taker_side.is_bid()) == opp.skip(c)
            &&& final(ob).side_list(taker_side.is_bid()) == old(ob).side_list(taker_side.is_bid())
            &&& final(ob).free@ == opp.take(c).reverse().add(old(ob).free@)
            &&& forall|j: int| 0 <= j < c ==> #[trigger] f[j] == available(o0[opp[j] as int])
            &&& forall|j: int|
                0 <= j < c ==> matched(o0[opp[j] as int], #[trigger] o[opp[j] as int], f[j], true)
            &&& c < f.len() ==> matched(o0[opp[c] as int], o[opp[c] as int], f[c], false)
            &&& forall|i: int|
                0 <= i < MAX_ORDERS && !opp.take(f.len() as int).contains(i as u32)
                    ==> (#[trigger] o[i]).same_order(o0[i])
            &&& forall|i: int| 0 <= i < MAX_ORDERS && !opp.contains(i as u32) ==> #[trigger] o[i] == o0[i]
        }),
        final(ob).active_orders == final(ob).bids@.len() + final(ob).asks@.len(),
        old(ob).orders_unfilled() ==> final(ob).orders_unfilled(),
{
    let ghost old_ob = *ob;
    let ghost o0 = ob.orders@;
    let ghost tb = taker_side.is_bid();
    let ghost opp0 = ob.side_list(!tb);
    let ghost same0 = ob.side_list(tb);
    let ghost free0 = ob.free@;
    let ghost ff = match_fills(*ob, taker_side, taker_quantity, limit_price);
    proof {
        lemma_fills_bounds(o0, opp0, tb, taker_quantity as int, limit_price);
    }
    let mut remaining = taker_quantity;
    let mut total_quote = 0u64;
    let mut total_base = 0u64;
    let mut maker_idx = if taker_side == OrderSide::bid() {
        ob.ask_head
    } else {
        ob.bid_head
    };
    let ghost mut done: Seq<int> = Seq::empty();
    let ghost mut k: int = 0;
    proof {
        assert(opp0.skip(0) =~= opp0);
        assert(opp0.take(0).reverse() =~= Seq::<u32>::empty());
        assert(opp0.take(0).reverse().add(free0) =~= free0);
        assert(done.add(ff) =~= ff);
    }
    while maker_idx != SENTINEL && remaining > 0
        invariant
            ob.wf(),
            same_header(*ob, old_ob),
            o0 == old_ob.orders@,
            tb == (taker_side.val == 0),
            opp0 == old_ob.side_list(!tb),
            opp0.no_duplicates(),
            in_range(opp0),
            same0 == old_ob.side_list(tb),
            free0 == old_ob.free@,
            ff == fills(o0, opp0, tb, taker_quantity as int, limit_price),
            forall|j: int| 0 <= j < ff.len() ==> 0 <= #[trigger] ff[j] <= available(o0[opp0[j] as int]),
            ff.len() <= opp0.len(),
            cost(o0, opp0, ff) <= u64::MAX,
            ob.side_list(tb) == same0,
            0 <= k <= done.len() <= k + 1,
            done.len() <= opp0.len(),
            ob.side_list(!tb) == opp0.skip(k),
            ob.free@ == opp0.take(k).reverse().add(free0),
            done.len() == k ==> maker_idx == head_of(opp0.skip(k)),
            done.len() == k + 1 ==> remaining == 0,
            remaining as int == taker_quantity - total(done),
            total_base as int == total(done),
            total_quote as int == cost(o0, opp0, done),
            ff == done.add(fills(o0, opp0.skip(done.len() as int), tb, remaining as int, limit_price)),
            consumed(o0, opp0, done) == k,
            forall|j: int| 0 <= j < k ==> #[trigger] done[j] == available(o0[opp0[j] as int]),
            forall|j: int|
                0 <= j < k ==> matched(
                    o0[opp0[j] as int],
                    #[trigger] ob.orders@[opp0[j] as int],
                    done[j],
                    true,
                ),
            done.len() == k + 1 ==> matched(
                o0[opp0[k] as int],
                ob.orders@[opp0[k] as int],
                done[k],
                false,
            ),
            forall|i: int|
                0 <= i < MAX_ORDERS && !opp0.take(done.len() as int).contains(i as u32)
                    ==> (#[trigger] ob.orders@[i]).same_order(o0[i]),
            forall|i: int|
                0 <= i < MAX_ORDERS && !opp0.contains(i as u32) ==> #[trigger] ob.orders@[i] == o0[i],
        ensures
            fills(o0, opp0.skip(done.len() as int), tb, remaining as int, limit_price).len() == 0,
        decreases opp0.len() - done.len(),
    {
        let ghost cur = *ob;
        let ghost m = opp0.skip(k);
        proof {
            if m.len() == 0 {
                assert(false);
            }
            assert(m[0] == opp0[k]);
            assert(opp0[k] < MAX_ORDERS);
            assert(!opp0.take(k).contains(opp0[k])) by {
                if opp0.take(k).contains(opp0[k]) {
                    let j = choose|j: int| 0 <= j < k && opp0.take(k)[j] == opp0[k];
                    assert(opp0[j] == opp0[k]);
                }
            }
            assert(ob.orders@[opp0[k] as int].same_order(o0[opp0[k] as int]));
        }
        let maker_price = ob.orders[maker_idx as usize].price.val;
        let price_ok = if taker_side == OrderSide::bid() {
            maker_price <= limit_price
        } else {
            maker_price >= limit_price
        };
        if !price_ok {
            break;
        }
        proof {
            let a = available(o0[m[0] as int]);
            let x = if (remaining as int) < a {
                remaining as int
            } else {
                a
            };
            let rest = fills(o0, m.drop_first(), tb, remaining - x, limit_price);
            assert(fills(o0, m, tb, remaining as int, limit_price) == seq![x].add(rest));
            assert(ff == done.add(seq![x].add(rest)));
            assert(ff[k] == x);
        }
        let maker_quantity = ob.orders[maker_idx as usize].quantity.val;
        let maker_filled = ob.orders[maker_idx as usize].filled_quantity.val;
        let maker_available = maker_quantity - maker_filled;
        let fill_amt = if remaining < maker_available {
            remaining
        } else {
            maker_available
        };
        let ghost done2 = done.push(fill_amt as int);
        proof {
            let rest = fills(o0, m.drop_first(), tb, remaining - fill_amt, limit_price);
            assert(m.drop_first() =~= opp0.skip(k + 1));
            assert(ff == done.add(seq![fill_amt as int].add(rest)));
            assert(done.add(seq![fill_amt as int].add(rest)) =~= done2.add(rest));
            assert(ff.take(k + 1) =~= done2);
            lemma_cost_prefix(o0, opp0, ff, k + 1);
            assert(done2.drop_last() =~= done);
            assert(cost(o0, opp0, done2) == cost(o0, opp0, done) + fill_amt * maker_price);
            assert(total(done2) == total(done) + fill_amt);
            assert(dlinked_at(ob.orders@, ob.side_list(!tb), 0));
        }
        remaining = remaining - fill_amt;
        total_base = total_base + fill_amt;
        total_quote = total_quote + fill_amt * maker_price;
        let next_maker = ob.orders[maker_idx as usize].next;
        let gone = fill_head_maker(ob, taker_side.val != 0, fill_amt);
        proof {
            assert forall|i: int|
                0 <= i < MAX_ORDERS && !opp0.contains(i as u32) implies #[trigger] ob.orders@[i]
                == o0[i] by {
                assert(!cur.side_list(!tb).contains(i as u32)) by {
                    if m.contains(i as u32) {
                        let j = choose|j: int| 0 <= j < m.len() && #[trigger] m[j] == i as u32;
                        assert(opp0[j + k] == i as u32);
                    }
                }
                assert(cur.orders@[i] == o0[i]);
            }
            let dp = done;
            done = done2;
            assert forall|j: int| 0 <= j < k implies #[trigger] ob.orders@[opp0[j] as int].same_order(
                cur.orders@[opp0[j] as int],
            ) by {
                assert(opp0[j] != opp0[k]);
                assert(opp0[j] < MAX_ORDERS);
            }
            assert forall|j: int| 0 <= j < k implies #[trigger] done[j] == available(
                o0[opp0[j] as int],
            ) by {
                assert(done[j] == dp[j]);
            }
            assert forall|j: int| 0 <= j < k implies matched(
                o0[opp0[j] as int],
                #[trigger] ob.orders@[opp0[j] as int],
                done[j],
                true,
            ) by {
                assert(done[j] == dp[j]);
                assert(matched(o0[opp0[j] as int], cur.orders@[opp0[j] as int], dp[j], true));
                assert(opp0[j] < MAX_ORDERS);
                assert(!m.contains(opp0[j])) by {
                    if m.contains(opp0[j]) {
                        let jj = choose|jj: int| 0 <= jj < m.len() && #[trigger] m[jj] == opp0[j];
                        assert(opp0[jj + k] == opp0[j]);
                    }
                }
                assert(ob.orders@[opp0[j] as int] == cur.orders@[opp0[j] as int]);
            }
            assert forall|i: int|
                0 <= i < MAX_ORDERS && !opp0.take(k + 1).contains(i as u32) implies (
            #[trigger] ob.orders@[i]).same_order(o0[i]) by {
                assert(opp0.take(k + 1)[k] == opp0[k]);
                assert forall|j: int| 0 <= j < k && opp0.take(k)[j] == i as u32 implies false by {
                    assert(opp0.take(k + 1)[j] == i as u32);
                }
                assert(cur.orders@[i].same_order(o0[i]));
            }
            if gone {
                assert(opp0.take(k + 1).reverse() =~= seq![opp0[k]].add(opp0.take(k).reverse()));
                assert(cur.side_list(!tb)[0] == opp0[k]);
                assert(ob.free@ == seq![opp0[k]].add(opp0.take(k).reverse().add(free0)));
                assert(ob.free@ =~= opp0.take(k + 1).reverse().add(free0));
                assert(m.skip(1) =~= opp0.skip(k + 1));
                assert(done.last() == available(o0[opp0[k] as int]));
                k = k + 1;
                assert forall|j: int| 0 <= j < k implies #[trigger] done[j] == available(
                    o0[opp0[j] as int],
                ) by {
                    if j == k - 1 {
                        assert(done[j] == done.last());
                    }
                }
                assert(next_maker == head_of(opp0.skip(k)));
            }
        }
        maker_idx = next_maker;
    }
    proof {
        assert(ff =~= done);
        lemma_active_orders_count(*ob);
        if old_ob.orders_unfilled() {
            lemma_match_keeps_unfilled(old_ob, *ob, tb, ff);
        }
    }
    MatchResult { base_filled: total_base, quote_filled: total_quote, remaining_quantity: remaining }
}

/// What `execute_match` would fill and what it would cost, computed without
/// changing the book; `None` when it would meet a resting order filled beyond
/// its quantity or a cost beyond `u64`.
pub fn simulate_match(ob: &Orderbook, taker_side: OrderSide, taker_quantity: u64, limit_price: u64) -> (r:
    Option<(u64, u64)>)
    requires
        ob.wf(),
    ensures
        ({
            let f = match_fills(*ob, taker_side, taker_quantity, limit_price);
            let opp = maker_list(*ob, taker_side);
            let runs = (forall|j: int|
                0 <= j < f.len() ==> available(ob.orders@[#[trigger] opp[j] as int]) >= 0) && cost(
                ob.orders@,
                opp,
                f,
            ) <= u64::MAX;
            &&& r is Some <==> runs
            &&& r matches Some((base, quote)) ==> base == total(f) && quote == cost(ob.orders@, opp, f)
        }),
{
    let ghost o = ob.orders@;
    let ghost tb = taker_side.is_bid();
    let ghost opp = ob.side_list(!tb);
    let ghost ff = match_fills(*ob, taker_side, taker_quantity, limit_price);
    let mut remaining = taker_quantity;
    let mut total_quote = 0u64;
    let mut total_base = 0u64;
    let mut maker_idx = if taker_side == OrderSide::bid() {
        ob.ask_head
    } else {
        ob.bid_head
    };
    let ghost mut done: Seq<int> = Seq::empty();
    proof {
        assert(opp.skip(0) =~= opp);
        assert(done.add(ff) =~= ff);
    }
    while maker_idx != SENTINEL && remaining > 0
        invariant
            ob.wf(),
            o == ob.orders@,
            tb == (taker_side.val == 0),
            opp == ob.side_list(!tb),
            ff == fills(o, opp, tb, taker_quantity as int, limit_price),
            0 <= done.len() <= opp.len(),
            maker_idx == head_of(opp.skip(done.len() as int)),
            remaining as int == taker_quantity - total(done),
            total_base as int == total(done),
            total_quote as int == cost(o, opp, done),
            ff == done.add(fills(o, opp.skip(done.len() as int), tb, remaining as int, limit_price)),
            forall|j: int| 0 <= j < done.len() ==> 0 <= #[trigger] done[j],
            forall|j: int| 0 <= j < done.len() ==> available(o[#[trigger] opp[j] as int]) >= 0,
        ensures
            fills(o, opp.skip(done.len() as int), tb, remaining as int, limit_price).len() == 0,
        decreases opp.len() - done.len(),
    {
        let ghost k = done.len() as int;
        let ghost m = opp.skip(k);
        proof {
            if m.len() == 0 {
                assert(false);
            }
            assert(m[0] == opp[k]);
            assert(opp[k] < MAX_ORDERS);
            assert(dlinked_at(o, opp, k));
        }
        let maker_price = ob.orders[maker_idx as usize].price.val;
        let price_ok = if taker_side == OrderSide::bid() {
            maker_price <= limit_price
        } else {
            maker_price >= limit_price
        };
        if !price_ok {
            break;
        }
        let maker_quantity = ob.orders[maker_idx as usize].quantity.val;
        let maker_filled = ob.orders[maker_idx as usize].filled_quantity.val;
        proof {
            let a = available(o[m[0] as int]);
            let x = if (remaining as int) < a {
                remaining as int
            } else {
                a
            };
            let rest = fills(o, m.drop_first(), tb, remaining - x, limit_price);
            assert(fills(o, m, tb, remaining as int, limit_price) == seq![x].add(rest));
            assert(ff == done.add(seq![x].add(rest)));
            assert(ff[k] == x);
            assert(m.drop_first() =~= opp.skip(k + 1));
        }
        if maker_filled > maker_quantity {
            return None;
        }
        let maker_available = maker_quantity - maker_filled;
        let fill_amt = if remaining < maker_available {
            remaining
        } else {
            maker_available
        };
        let ghost done2 = done.push(fill_amt as int);
        proof {
            let rest = fills(o, m.drop_first(), tb, remaining - fill_amt, limit_price);
            assert(ff == done.add(seq![fill_amt as int].add(rest)));
            assert(done.add(seq![fill_amt as int].add(rest)) =~= done2.add(rest));
            assert(ff.take(k + 1) =~= done2);
            assert(done2.drop_last() =~= done);
            assert(cost(o, opp, done2) == cost(o, opp, done) + fill_amt * maker_price);
            assert(total(done2) == total(done) + fill_amt);
            assert(fill_amt * maker_price >= 0) by (nonlinear_arith)
                requires
                    fill_amt >= 0,
                    maker_price >= 0,
            ;
        }
        let step = match fill_amt.checked_mul(maker_price) {
            Some(v) => v,
            None => {
                proof {
                    lemma_overflow_blocks_run(o, opp, tb, taker_quantity, limit_price, ff, done2);
                }
                return None;
            },
        };
        total_quote = match total_quote.checked_add(step) {
            Some(v) => v,
            None => {
                proof {
                    lemma_overflow_blocks_run(o, opp, tb, taker_quantity, limit_price, ff, done2);
                }
                return None;
            },
        };
        remaining = remaining - fill_amt;
        total_base = total_base + fill_amt;
        let next_maker = ob.orders[maker_idx as usize].next;
        proof {
            assert(available(o[opp[k] as int]) >= 0);
            done = done2;
            if fill_amt < maker_available {
                assert(remaining == 0);
            }
        }
        maker_idx = next_maker;
    }
    proof {
        assert(ff =~= done);
        lemma_cost_nonneg(o, opp, done);
    }
    Some((total_base, total_quote))
}

/// When a prefix of the fills already costs more than `u64` holds, the match
/// cannot run: either a touched order is over-filled or the whole cost is too large.
proof fn lemma_overflow_blocks_run(
    o: Seq<OrderNode>,
    opp: Seq<u32>,
    tb: bool,
    taker_quantity: u64,
    limit_price: u64,
    ff: Seq<int>,
    prefix: Seq<int>,
)
    requires
        ff == fills(o, opp, tb, taker_quantity as int, limit_price),
        prefix.len() <= ff.len(),
        prefix == ff.take(prefix.len() as int),
        cost(o, opp, prefix) > u64::MAX,
    ensures
        !((forall|j: int| 0 <= j < ff.len() ==> available(o[#[trigger] opp[j] as int]) >= 0) && cost(
            o,
            opp,
            ff,
        ) <= u64::MAX),
{
    if forall|j: int| 0 <= j < ff.len() ==> available(o[#[trigger] opp[j] as int]) >= 0 {
        assert forall|j: int| 0 <= j < ff.len() implies available(#[trigger] o[opp[j] as int]) >= 0 by {
            assert(available(o[opp[j] as int]) >= 0);
        }
        lemma_fills_bounds(o, opp, tb, taker_quantity as int, limit_price);
        lemma_cost_prefix(o, opp, ff, prefix.len() as int);
    }
}

} // verus!
