use vstd::prelude::*;

use crate::errors::ErrorCode;
use crate::logic::linked_list::{
    goes_before, insert_sorted, insertion_point, lemma_insertion_point_frame,
    lemma_insertion_point_priority, pop_free_node,
};
use crate::logic::matching::{
    available, consumed, cost, crosses, execute_match, simulate_match, lemma_cost_within_limit, lemma_fills_bounds,
    lemma_fills_cross, lemma_fills_total, lemma_unfilled_taker_stops, maker_list, match_fills,
    matched, total,
};
use crate::quantities::{BaseLots, Ticks};
use crate::state::{
    lemma_detached_update, lemma_insert_at, lemma_insert_at_front, price_at, same_header, OrderNode,
    OrderSide, OrderStatus, Orderbook, Pubkey, UserAccount,
    MAX_ORDERS,
};

verus! {

/// Takes a free slot for a new resting order of `user` at `price` for
/// `quantity`, placed at `now`, and links it into the list of `order_side` at
/// its price-time position. Returns the slot, or `None`, changing nothing,
/// when the book has no free slot.
fn rest_order(
    ob: &mut Orderbook,
    user: Pubkey,
    now: i64,
    price: u64,
    quantity: u64,
    order_side: OrderSide,
) -> (r: Option<u32>)
    requires
        old(ob).wf(),
    ensures
        final(ob).wf(),
        same_header(*final(ob), *old(ob)),
        old(ob).free@.len() == 0 ==> r is None && *final(ob) == *old(ob),
        old(ob).free@.len() > 0 ==> {
            let s = old(ob).free@[0];
            let bid = order_side.is_bid();
            let n = final(ob).orders@[s as int];
            let n0 = old(ob).orders@[s as int];
            &&& r == Some(s)
            &&& final(ob).free@ == old(ob).free@.drop_first()
            &&& final(ob).side_list(bid) == old(ob).side_list(bid).insert(
                insertion_point(old(ob).orders@, old(ob).side_list(bid), price, bid),
                s,
            )
            &&& final(ob).side_list(!bid) == old(ob).side_list(!bid)
            &&& n.user == user
            &&& n.price.val == price
            &&& n.quantity.val == quantity
            &&& n.side == order_side
            &&& n.status.is_open()
            &&& n.timestamp == now
            &&& n.order_id == n0.order_id
            &&& n.filled_quantity == n0.filled_quantity
            &&& forall|i: int|
                0 <= i < MAX_ORDERS && i != s ==> (#[trigger] final(ob).orders@[i]).same_order(
                    old(ob).orders@[i],
                )
            &&& forall|i: int|
                0 <= i < MAX_ORDERS && i != s && !old(ob).side_list(bid).contains(i as u32)
                    ==> #[trigger] final(ob).orders@[i] == old(ob).orders@[i]
        },
{
    let ghost ob0 = *ob;
    match pop_free_node(ob) {
        None => None,
        Some(idx) => {
            proof {
                assert(ob0.free@[0] < MAX_ORDERS);
                assert(ob0.free@.contains(idx));
                assert(!ob.free@.contains(idx)) by {
                    if ob.free@.contains(idx) {
                        let j = choose|j: int| 0 <= j < ob.free@.len() && ob.free@[j] == idx;
                        assert(ob0.free@[j + 1] == idx);
                    }
                }
            }
            let ghost ob1 = *ob;
            ob.orders[idx as usize].user = user;
            ob.orders[idx as usize].price = Ticks { val: price };
            ob.orders[idx as usize].quantity = BaseLots { val: quantity };
            ob.orders[idx as usize].side = order_side;
            ob.orders[idx as usize].status = OrderStatus::open();
            ob.orders[idx as usize].timestamp = now;
            proof {
                lemma_detached_update(ob1, *ob, idx);
                let bid = order_side.is_bid();
                let l = ob0.side_list(bid);
                assert forall|i: int| 0 <= i < l.len() implies (#[trigger] ob0.orders@[l[
                    i
                ] as int]).price == ob.orders@[l[i] as int].price by {
                    assert(l.contains(l[i]));
                }
                lemma_insertion_point_frame(ob0.orders@, ob.orders@, l, price, bid);
            }
            let ghost ob2 = *ob;
            insert_sorted(ob, idx, order_side);
            proof {
                let bid = order_side.is_bid();
                let l = ob0.side_list(bid);
                let p = insertion_point(ob0.orders@, l, price, bid);
                assert(!l.contains(idx));
                lemma_insert_at(l, p, idx);
                assert forall|i: u32| i < MAX_ORDERS implies #[trigger] ob.bids@.contains(i)
                    || ob.asks@.contains(i) || ob.free@.contains(i) by {
                    assert(ob0.bids@.contains(i) || ob0.asks@.contains(i) || ob0.free@.contains(i));
                    if ob0.free@.contains(i) && i != idx {
                        let j = choose|j: int| 0 <= j < ob0.free@.len() && ob0.free@[j] == i;
                        assert(ob.free@[j - 1] == i);
                    }
                }
                assert forall|i: int| 0 <= i < MAX_ORDERS && i != idx implies (
                #[trigger] ob.orders@[i]).same_order(ob0.orders@[i]) by {
                    assert(ob.orders@[i].same_order(ob2.orders@[i]));
                }
            }
            Some(idx)
        },
    }
}

/// The side of the book that a `side` argument names: 0 a bid, anything else an ask.
pub open spec fn side_of(side: u8) -> OrderSide {
    OrderSide { val: if side == 0 { 0u8 } else { 1u8 } }
}

/// The user's free balance of the outcome that an order trades.
pub open spec fn held(ua: UserAccount, for_a: bool) -> u64 {
    if for_a {
        ua.outcome_a_balance
    } else {
        ua.outcome_b_balance
    }
}

/// The user's locked balance of the outcome that an order trades.
pub open spec fn held_locked(ua: UserAccount, for_a: bool) -> u64 {
    if for_a {
        ua.outcome_a_locked
    } else {
        ua.outcome_b_locked
    }
}

/// What a bid for `quantity` at `price` locks of the user's collateral.
pub open spec fn bid_cost(quantity: u64, price: u64) -> int {
    quantity * price / 100
}

/// The error an order is refused with, if any: a bid needs its cost in free
/// collateral, an ask its quantity in free shares of the outcome.
pub open spec fn order_error(ua: UserAccount, for_a: bool, quantity: u64, price: u64, side: u8) -> Option<
    ErrorCode,
> {
    if side == 0 {
        if ua.collateral_balance < bid_cost(quantity, price) {
            Some(ErrorCode::InsufficientCollateral)
        } else {
            None
        }
    } else {
        if held(ua, for_a) < quantity {
            Some(ErrorCode::InsufficientShares)
        } else {
            None
        }
    }
}

/// The fills that an order meets in its book.
pub open spec fn order_fills(book: Orderbook, quantity: u64, price: u64, side: u8) -> Seq<int> {
    match_fills(book, side_of(side), quantity, price)
}

/// The order runs to its end without an arithmetic overflow or an over-filled
/// resting order on its way.
pub open spec fn order_can_run(
    book: Orderbook,
    ua: UserAccount,
    for_a: bool,
    quantity: u64,
    price: u64,
    side: u8,
) -> bool {
    let f = order_fills(book, quantity, price, side);
    let opp = maker_list(book, side_of(side));
    let base = total(f);
    let quote = cost(book.orders@, opp, f);
    &&& side == 0 ==> quantity * price <= u64::MAX
    &&& order_error(ua, for_a, quantity, price, side) is None ==> {
        &&& side == 0 ==> ua.collateral_locked + bid_cost(quantity, price) <= u64::MAX
        &&& side != 0 ==> held_locked(ua, for_a) + quantity <= u64::MAX
        &&& forall|j: int|
            0 <= j < f.len() ==> available(book.orders@[#[trigger] opp[j] as int]) >= 0
        &&& quote <= u64::MAX
        &&& base > 0 && side == 0 ==> held(ua, for_a) + base <= u64::MAX
        &&& base > 0 && side != 0 ==> ua.collateral_balance + quote / 100 <= u64::MAX
    }
}

/// The user's ledger after an accepted order that filled `base` for `quote`.
///
/// A bid locks its cost, pays the filled part's cost (divided by 100) out of
/// the lock and receives the shares; an ask locks its shares, gives up the
/// filled ones out of the lock and receives their price (divided by 100). What
/// a market order leaves unfilled is unlocked again; what a limit order leaves
/// unfilled stays locked.
pub open spec fn account_after_order(
    ua: UserAccount,
    for_a: bool,
    quantity: u64,
    price: u64,
    side: u8,
    is_market: bool,
    base: int,
    quote: int,
) -> UserAccount {
    let rem = quantity - base;
    if side == 0 {
        let paid = if base > 0 {
            quote / 100
        } else {
            0
        };
        let unused = if is_market && rem > 0 {
            rem * price / 100
        } else {
            0
        };
        UserAccount {
            collateral_balance: (ua.collateral_balance - bid_cost(quantity, price) + unused) as u64,
            collateral_locked: (ua.collateral_locked + bid_cost(quantity, price) - paid
                - unused) as u64,
            outcome_a_balance: if for_a {
                (ua.outcome_a_balance + base) as u64
            } else {
                ua.outcome_a_balance
            },
            outcome_b_balance: if for_a {
                ua.outcome_b_balance
            } else {
                (ua.outcome_b_balance + base) as u64
            },
            ..ua
        }
    } else {
        let received = if base > 0 {
            quote / 100
        } else {
            0
        };
        let back = if is_market && rem > 0 {
            rem
        } else {
            0
        };
        UserAccount {
            collateral_balance: (ua.collateral_balance + received) as u64,
            outcome_a_balance: if for_a {
                (ua.outcome_a_balance - quantity + back) as u64
            } else {
                ua.outcome_a_balance
            },
            outcome_a_locked: if for_a {
                (ua.outcome_a_locked + quantity - base - back) as u64
            } else {
                ua.outcome_a_locked
            },
            outcome_b_balance: if for_a {
                ua.outcome_b_balance
            } else {
                (ua.outcome_b_balance - quantity + back) as u64
            },
            outcome_b_locked: if for_a {
                ua.outcome_b_locked
            } else {
                (ua.outcome_b_locked + quantity - base - back) as u64
            },
            ..ua
        }
    }
}

/// The free list of a book after the order's matching: the slots of the
/// resting orders it took whole, last taken first, then the old free list.
pub open spec fn free_after_match(book: Orderbook, quantity: u64, price: u64, side: u8) -> Seq<u32> {
    let opp = maker_list(book, side_of(side));
    let f = order_fills(book, quantity, price, side);
    opp.take(consumed(book.orders@, opp, f)).reverse().add(book.free@)
}

/// The slot in which a limit order's unfilled rest is left on the book, if
/// there is a rest and a free slot for it.
pub open spec fn rest_slot(book: Orderbook, quantity: u64, price: u64, side: u8, is_market: bool) -> Option<
    u32,
> {
    let rem = quantity - total(order_fills(book, quantity, price, side));
    let fa = free_after_match(book, quantity, price, side);
    if !is_market && rem > 0 && fa.len() > 0 {
        Some(fa[0])
    } else {
        None
    }
}

/// The order book after an accepted order: well formed, the other side
/// without the resting orders the order took whole, its unfilled rest (if any,
/// and if there was room) at its price-time position on its own side, and the
/// resting orders it touched filled by what it took.
pub open spec fn book_after_order(
    book0: Orderbook,
    book: Orderbook,
    user: Pubkey,
    now: i64,
    quantity: u64,
    price: u64,
    side: u8,
    is_market: bool,
) -> bool {
    &&& book.wf()
    &&& same_header(book, book0)
    &&& book_rest_after(book0, book, user, now, quantity, price, side, is_market)
    &&& book_makers_after(book0, book, quantity, price, side, is_market)
}

/// The lists of the book after an accepted order, and the slot of its rest.
pub open spec fn book_rest_after(
    book0: Orderbook,
    book: Orderbook,
    user: Pubkey,
    now: i64,
    quantity: u64,
    price: u64,
    side: u8,
    is_market: bool,
) -> bool {
    let bid = side == 0;
    let o0 = book0.orders@;
    let o = book.orders@;
    let opp = maker_list(book0, side_of(side));
    let f = order_fills(book0, quantity, price, side);
    let c = consumed(o0, opp, f);
    let own0 = book0.side_list(bid);
    let fa = free_after_match(book0, quantity, price, side);
    &&& book.side_list(!bid) == opp.skip(c)
    &&& match rest_slot(book0, quantity, price, side, is_market) {
        None => book.side_list(bid) == own0 && book.free@ == fa,
        Some(s) => {
            &&& book.side_list(bid) == own0.insert(insertion_point(o0, own0, price, bid), s)
            &&& book.free@ == fa.drop_first()
            &&& o[s as int].user == user
            &&& o[s as int].price.val == price
            &&& o[s as int].quantity.val == quantity - total(f)
            &&& o[s as int].side == side_of(side)
            &&& o[s as int].status.is_open()
            &&& o[s as int].timestamp == now
            &&& o[s as int].order_id == o0[s as int].order_id
            &&& o[s as int].filled_quantity.val == if c > 0 {
                o0[s as int].quantity.val
            } else {
                o0[s as int].filled_quantity.val
            }
        },
    }
}

/// The resting orders after an accepted order: those it took whole are
/// filled and cancelled (unless their slot was reused for its rest), one it
/// took in part is filled by that part, and every other slot keeps its order.
pub open spec fn book_makers_after(
    book0: Orderbook,
    book: Orderbook,
    quantity: u64,
    price: u64,
    side: u8,
    is_market: bool,
) -> bool {
    makers_updated(
        book0.orders@,
        book.orders@,
        maker_list(book0, side_of(side)),
        order_fills(book0, quantity, price, side),
        rest_slot(book0, quantity, price, side, is_market),
    )
}

/// Slots `o0` become slots `o` when fills `f` are taken from the resting
/// orders `opp` and slot `rs`, if any, is then reused.
pub open spec fn makers_updated(
    o0: Seq<OrderNode>,
    o: Seq<OrderNode>,
    opp: Seq<u32>,
    f: Seq<int>,
    rs: Option<u32>,
) -> bool {
    &&& forall|j: int| 0 <= j < consumed(o0, opp, f) ==> #[trigger] f[j] == available(o0[opp[j] as int])
    &&& forall|j: int|
        0 <= j < consumed(o0, opp, f) && rs != Some(opp[j]) ==> matched(
            o0[opp[j] as int],
            #[trigger] o[opp[j] as int],
            f[j],
            true,
        )
    &&& consumed(o0, opp, f) < f.len() ==> matched(
        o0[opp[consumed(o0, opp, f)] as int],
        o[opp[consumed(o0, opp, f)] as int],
        f[consumed(o0, opp, f)],
        false,
    )
    &&& forall|i: int|
        0 <= i < MAX_ORDERS && !opp.take(f.len() as int).contains(i as u32) && rs != Some(i as u32)
            ==> (#[trigger] o[i]).same_order(o0[i])
}

/// When an order is refused: a bid exactly when the free collateral is below
/// what the bid locks, `quantity * price / 100`; an ask exactly when the free
/// shares of the outcome it sells are below its quantity. An accepted limit
/// order that fills nothing moves exactly that much from free to locked.
pub proof fn lemma_order_refused_iff_lock_uncovered(
    ua: UserAccount,
    for_a: bool,
    quantity: u64,
    price: u64,
    side: u8,
)
    ensures
        side == 0 ==> (order_error(ua, for_a, quantity, price, side) == Some(
            ErrorCode::InsufficientCollateral,
        ) <==> ua.collateral_balance < quantity * price / 100),
        side == 0 ==> (order_error(ua, for_a, quantity, price, side) is None
            <==> ua.collateral_balance >= quantity * price / 100),
        side != 0 ==> (order_error(ua, for_a, quantity, price, side) == Some(
            ErrorCode::InsufficientShares,
        ) <==> (if for_a {
            ua.outcome_a_balance
        } else {
            ua.outcome_b_balance
        }) < quantity),
        side != 0 ==> (order_error(ua, for_a, quantity, price, side) is None <==> (if for_a {
            ua.outcome_a_balance
        } else {
            ua.outcome_b_balance
        }) >= quantity),
        side == 0 && ua.collateral_balance >= quantity * price / 100 && ua.collateral_locked
            + quantity * price / 100 <= u64::MAX ==> account_after_order(
            ua,
            for_a,
            quantity,
            price,
            side,
            false,
            0,
            0,
        ) == (UserAccount {
            collateral_balance: (ua.collateral_balance - quantity * price / 100) as u64,
            collateral_locked: (ua.collateral_locked + quantity * price / 100) as u64,
            ..ua
        }),
        side != 0 && for_a && ua.outcome_a_balance >= quantity && ua.outcome_a_locked + quantity
            <= u64::MAX ==> account_after_order(ua, for_a, quantity, price, side, false, 0, 0) == (
        UserAccount {
            outcome_a_balance: (ua.outcome_a_balance - quantity) as u64,
            outcome_a_locked: (ua.outcome_a_locked + quantity) as u64,
            ..ua
        }),
        side != 0 && !for_a && ua.outcome_b_balance >= quantity && ua.outcome_b_locked + quantity
            <= u64::MAX ==> account_after_order(ua, for_a, quantity, price, side, false, 0, 0) == (
        UserAccount {
            outcome_b_balance: (ua.outcome_b_balance - quantity) as u64,
            outcome_b_locked: (ua.outcome_b_locked + quantity) as u64,
            ..ua
        }),
{
}

/// A market order that fills nothing leaves the user's ledger as it was:
/// whatever it locked is unlocked again.
pub proof fn lemma_unfilled_market_order_changes_nothing(
    ua: UserAccount,
    for_a: bool,
    quantity: u64,
    price: u64,
    side: u8,
)
    requires
        order_error(ua, for_a, quantity, price, side) is None,
        side == 0 ==> ua.collateral_locked + quantity * price / 100 <= u64::MAX,
        side != 0 ==> (if for_a {
            ua.outcome_a_locked
        } else {
            ua.outcome_b_locked
        }) + quantity <= u64::MAX,
    ensures
        account_after_order(ua, for_a, quantity, price, side, true, 0, 0) == ua,
{
    let after = account_after_order(ua, for_a, quantity, price, side, true, 0, 0);
    if side == 0 {
        let rem: int = quantity - 0;
        assert(rem * price == quantity * price);
        let unused = if rem > 0 {
            rem * price / 100
        } else {
            0
        };
        assert(unused == bid_cost(quantity, price)) by {
            if rem == 0 {
                assert(quantity * price == 0) by (nonlinear_arith)
                    requires
                        quantity == 0,
                ;
            }
        }
        assert(after.collateral_balance == ua.collateral_balance);
        assert(after.collateral_locked == ua.collateral_locked);
    }
    assert(after == ua);
}

/// Where an accepted order's unfilled rest goes: a market order, or one
/// filled in full, leaves its own side as it was; a limit order with an
/// unfilled rest, on a book with a free slot, joins its own side as one open
/// order of the user's, at its price, for the unfilled quantity, placed now.
pub proof fn lemma_limit_order_rests(
    book0: Orderbook,
    book: Orderbook,
    ua: UserAccount,
    for_a: bool,
    user: Pubkey,
    now: i64,
    quantity: u64,
    price: u64,
    side: u8,
    is_market: bool,
)
    requires
        book0.wf(),
        order_error(ua, for_a, quantity, price, side) is None,
        order_can_run(book0, ua, for_a, quantity, price, side),
        book_after_order(book0, book, user, now, quantity, price, side, is_market),
    ensures
        ({
            let rem = quantity - total(order_fills(book0, quantity, price, side));
            let own0 = book0.side_list(side == 0);
            let own = book.side_list(side == 0);
            &&& is_market || rem == 0 ==> own == own0
            &&& !is_market && rem > 0 && book0.free@.len() > 0 ==> {
                &&& own.len() == own0.len() + 1
                &&& exists|k: int|
                    0 <= k < own.len() && {
                        let n = #[trigger] book.orders@[own[k] as int];
                        &&& n.user == user
                        &&& n.price.val == price
                        &&& n.quantity.val == rem
                        &&& n.status.val == 0
                        &&& n.side.val == (if side == 0 { 0u8 } else { 1u8 })
                        &&& n.timestamp == now
                    }
            }
        }),
{
    let bid = side == 0;
    let o0 = book0.orders@;
    let f = order_fills(book0, quantity, price, side);
    let own0 = book0.side_list(bid);
    let fa = free_after_match(book0, quantity, price, side);
    let rem = quantity - total(f);
    if !is_market && rem > 0 && book0.free@.len() > 0 {
        assert(fa.len() > 0);
        let s = fa[0];
        assert(rest_slot(book0, quantity, price, side, is_market) == Some(s));
        let pos = insertion_point(o0, own0, price, bid);
        lemma_insertion_point_priority(o0, own0, price, bid);
        own0.insert_ensures(pos, s);
        let own = book.side_list(bid);
        assert(own[pos] == s);
        assert(book.orders@[own[pos] as int].user == user);
    }
}

/// What a market order leaves locked: a market ask unlocks every share it did
/// not sell, so its outcome's locked balance ends where it began and its free
/// balance has dropped by the shares sold; a market bid that filled `base`
/// for `quote` keeps locked only its lock, `quantity * price / 100`, less what
/// it paid, `quote / 100`, less the lock of its unfilled part,
/// `(quantity - base) * price / 100`.
pub proof fn lemma_market_order_releases_unfilled(
    ua: UserAccount,
    for_a: bool,
    quantity: u64,
    price: u64,
    side: u8,
    base: int,
    quote: int,
)
    requires
        order_error(ua, for_a, quantity, price, side) is None,
        0 <= base <= quantity,
        0 <= quote <= base * price,
        side == 0 ==> {
            &&& quantity * price <= u64::MAX
            &&& ua.collateral_locked + quantity * price / 100 <= u64::MAX
            &&& base > 0 ==> (if for_a {
                ua.outcome_a_balance
            } else {
                ua.outcome_b_balance
            }) + base <= u64::MAX
        },
        side != 0 ==> {
            &&& (if for_a {
                ua.outcome_a_locked
            } else {
                ua.outcome_b_locked
            }) + quantity <= u64::MAX
            &&& base > 0 ==> ua.collateral_balance + quote / 100 <= u64::MAX
        },
    ensures
        ({
            let after = account_after_order(ua, for_a, quantity, price, side, true, base, quote);
            let paid = if base > 0 {
                quote / 100
            } else {
                0
            };
            &&& side != 0 && for_a ==> after.outcome_a_locked == ua.outcome_a_locked
                && after.outcome_a_balance == ua.outcome_a_balance - base
            &&& side != 0 && !for_a ==> after.outcome_b_locked == ua.outcome_b_locked
                && after.outcome_b_balance == ua.outcome_b_balance - base
            &&& side == 0 ==> after.collateral_locked == ua.collateral_locked + quantity * price / 100
                - paid - (quantity - base) * price / 100
        }),
{
    lemma_order_conserves_funds(ua, for_a, quantity, price, side, true, base, quote);
    if side == 0 {
        assert(quote / 100 + ((quantity - base) * price) / 100 <= (quantity * price) / 100)
            by (nonlinear_arith)
            requires
                0 <= quote <= base * price,
                0 <= base <= quantity,
                price >= 0,
        {
            assert(quote + (quantity - base) * price <= quantity * price);
        }
        assert((quantity - base) * price >= 0) by (nonlinear_arith)
            requires
                0 <= base <= quantity,
                price >= 0,
        ;
        if quantity - base == 0 {
            assert((quantity - base) * price == 0) by (nonlinear_arith)
                requires
                    quantity - base == 0,
            ;
        }
    }
}

/// An accepted order moves the user's funds only by what it traded. A bid
/// turns `quote / 100` of collateral into `base` shares (what it has not
/// traded stays locked or, for a market order, is unlocked); an ask turns
/// `base` shares into `quote / 100` of collateral. The other outcome is not
/// touched.
pub proof fn lemma_order_conserves_funds(
    ua: UserAccount,
    for_a: bool,
    quantity: u64,
    price: u64,
    side: u8,
    is_market: bool,
    base: int,
    quote: int,
)
    requires
        order_error(ua, for_a, quantity, price, side) is None,
        0 <= base <= quantity,
        0 <= quote,
        side == 0 ==> {
            &&& quote <= base * price
            &&& quantity * price <= u64::MAX
            &&& ua.collateral_locked + bid_cost(quantity, price) <= u64::MAX
            &&& base > 0 ==> held(ua, for_a) + base <= u64::MAX
        },
        side != 0 ==> {
            &&& held_locked(ua, for_a) + quantity <= u64::MAX
            &&& base > 0 ==> ua.collateral_balance + quote / 100 <= u64::MAX
        },
    ensures
        ({
            let after = account_after_order(ua, for_a, quantity, price, side, is_market, base, quote);
            let traded = if base > 0 {
                quote / 100
            } else {
                0
            };
            &&& held(after, !for_a) == held(ua, !for_a)
            &&& held_locked(after, !for_a) == held_locked(ua, !for_a)
            &&& side == 0 ==> {
                &&& after.collateral_balance + after.collateral_locked == ua.collateral_balance
                    + ua.collateral_locked - traded
                &&& held(after, for_a) == held(ua, for_a) + base
                &&& held_locked(after, for_a) == held_locked(ua, for_a)
            }
            &&& side != 0 ==> {
                &&& held(after, for_a) + held_locked(after, for_a) == held(ua, for_a) + held_locked(
                    ua,
                    for_a,
                ) - base
                &&& after.collateral_balance == ua.collateral_balance + traded
                &&& after.collateral_locked == ua.collateral_locked
            }
        }),
{
    if side == 0 {
        assert(quote + (quantity - base) * price <= quantity * price) by (nonlinear_arith)
            requires
                quote <= base * price,
                0 <= base <= quantity,
                price >= 0,
        ;
        assert(quote / 100 + ((quantity - base) * price) / 100 <= (quantity * price) / 100)
            by (nonlinear_arith)
            requires
                quote >= 0,
                (quantity - base) * price >= 0,
                quote + (quantity - base) * price <= quantity * price,
        ;
        assert((quantity - base) * price >= 0) by (nonlinear_arith)
            requires
                0 <= base <= quantity,
                price >= 0,
        ;
    }
}

/// An accepted order leaves an uncrossed book uncrossed: what it leaves on
/// the book does not reach the other side's best price.
pub proof fn lemma_order_keeps_book_uncrossed(
    book0: Orderbook,
    book: Orderbook,
    ua: UserAccount,
    for_a: bool,
    user: Pubkey,
    now: i64,
    quantity: u64,
    price: u64,
    side: u8,
    is_market: bool,
)
    requires
        book0.wf(),
        book0.is_uncrossed(),
        order_error(ua, for_a, quantity, price, side) is None,
        order_can_run(book0, ua, for_a, quantity, price, side),
        book_after_order(book0, book, user, now, quantity, price, side, is_market),
    ensures
        book.is_uncrossed(),
{
    let bid = side == 0;
    let o0 = book0.orders@;
    let o = book.orders@;
    let opp = maker_list(book0, side_of(side));
    let f = order_fills(book0, quantity, price, side);
    let c = consumed(o0, opp, f);
    let own0 = book0.side_list(bid);
    let rs = rest_slot(book0, quantity, price, side, is_market);
    assert(side_of(side).is_bid() == bid);
    assert(opp == book0.side_list(!bid));
    assert(forall|j: int| 0 <= j < f.len() ==> available(o0[#[trigger] opp[j] as int]) >= 0);
    lemma_fills_total(o0, opp, bid, quantity as int, price);
    let opp2 = book.side_list(!bid);
    let own2 = book.side_list(bid);
    assert(opp2 == opp.skip(c));
    if opp2.len() > 0 && own2.len() > 0 {
        // the other side's new best order keeps its price
        lemma_fills_bounds(o0, opp, bid, quantity as int, price);
        assert(0 <= c <= f.len() <= opp.len());
        let m = opp[c];
        assert(opp2[0] == m);
        assert(m < MAX_ORDERS);
        assert(o[m as int].price == o0[m as int].price) by {
            if c < f.len() {
                assert(matched(o0[opp[c] as int], o[opp[c] as int], f[c], false));
            } else {
                assert(!opp.take(f.len() as int).contains(m)) by {
                    if opp.take(f.len() as int).contains(m) {
                        let j = choose|j: int| 0 <= j < f.len() && opp.take(f.len() as int)[j] == m;
                        assert(opp[j] == opp[c]);
                    }
                }
                assert(book0.free@.contains(m) == false) by {
                    assert(opp.contains(m));
                }
                if rs is Some {
                    assert(rs->Some_0 != m) by {
                        let fa = free_after_match(book0, quantity, price, side);
                        if c > 0 {
                            assert(fa[0] == opp[c - 1]);
                        } else {
                            assert(fa[0] == book0.free@[0]);
                            assert(book0.free@.contains(fa[0]));
                        }
                    }
                }
                assert(o[m as int].same_order(o0[m as int]));
            }
        }
        // it is no better than the other side's old best
        if c > 0 {
            assert(opp[0] < MAX_ORDERS);
            assert(if !bid {
                price_at(o0, opp, 0) >= price_at(o0, opp, c)
            } else {
                price_at(o0, opp, 0) <= price_at(o0, opp, c)
            });
        }
        match rs {
            None => {
                assert(own2 == own0);
                let x = own0[0];
                assert(x < MAX_ORDERS);
                assert(!opp.take(f.len() as int).contains(x)) by {
                    if opp.take(f.len() as int).contains(x) {
                        let j = choose|j: int| 0 <= j < f.len() && opp.take(f.len() as int)[j] == x;
                        assert(opp.contains(opp[j]));
                        assert(own0.contains(x));
                    }
                }
                assert(o[x as int].same_order(o0[x as int]));
            },
            Some(s) => {
                let pos = insertion_point(o0, own0, price, bid);
                lemma_insertion_point_priority(o0, own0, price, bid);
                lemma_insert_at_front(own0, pos, s);
                assert(quantity - total(f) > 0);
                lemma_unfilled_taker_stops(o0, opp, bid, quantity as int, price);
                assert(c == f.len());
                assert(!crosses(bid, o0[opp[c] as int].price.val, price));
                if pos > 0 {
                    let x = own0[0];
                    assert(own2[0] == x);
                    assert(x < MAX_ORDERS);
                    assert(!opp.take(f.len() as int).contains(x)) by {
                        if opp.take(f.len() as int).contains(x) {
                            let j = choose|j: int|
                                0 <= j < f.len() && opp.take(f.len() as int)[j] == x;
                            assert(opp.contains(opp[j]));
                            assert(own0.contains(x));
                        }
                    }
                    assert(x != s) by {
                        let fa = free_after_match(book0, quantity, price, side);
                        assert(own0.contains(x));
                        if c > 0 {
                            assert(fa[0] == opp[c - 1]);
                            assert(opp.contains(opp[c - 1]));
                        } else {
                            assert(fa[0] == book0.free@[0]);
                            assert(book0.free@.contains(fa[0]));
                        }
                    }
                    assert(o[x as int].same_order(o0[x as int]));
                    assert(!goes_before(price, price_at(o0, own0, 0), bid));
                } else {
                    assert(own2[0] == s);
                }
            },
        }
    }
}

/// The filled quantity that the slot reused for an order's rest keeps: the
/// quantity of the resting order that last had it when the order took resting
/// orders whole, the slot's old filled quantity otherwise.
pub open spec fn rest_filled(book: Orderbook, quantity: u64, price: u64, side: u8, s: u32) -> int {
    let opp = maker_list(book, side_of(side));
    let c = consumed(book.orders@, opp, order_fills(book, quantity, price, side));
    if c > 0 {
        book.orders@[s as int].quantity.val as int
    } else {
        book.orders@[s as int].filled_quantity.val as int
    }
}

/// An accepted order leaves no resting order filled to its quantity, when
/// none was before: the orders it took whole leave the book, one it took in
/// part keeps some of its quantity, and its own rest holds more than the
/// filled quantity its slot keeps. (A rest whose slot keeps a filled quantity
/// of at least the rest's quantity is the one exception, left out here.)
pub proof fn lemma_order_keeps_unfilled(
    book0: Orderbook,
    book: Orderbook,
    ua: UserAccount,
    for_a: bool,
    user: Pubkey,
    now: i64,
    quantity: u64,
    price: u64,
    side: u8,
    is_market: bool,
)
    requires
        book0.wf(),
        book0.orders_unfilled(),
        order_error(ua, for_a, quantity, price, side) is None,
        order_can_run(book0, ua, for_a, quantity, price, side),
        book_after_order(book0, book, user, now, quantity, price, side, is_market),
        rest_slot(book0, quantity, price, side, is_market) matches Some(s) ==> rest_filled(
            book0,
            quantity,
            price,
            side,
            s,
        ) < quantity - total(order_fills(book0, quantity, price, side)),
    ensures
        book.orders_unfilled(),
{
    let bid = side == 0;
    let o0 = book0.orders@;
    let o = book.orders@;
    let opp = maker_list(book0, side_of(side));
    let f = order_fills(book0, quantity, price, side);
    let c = consumed(o0, opp, f);
    let own0 = book0.side_list(bid);
    let rs = rest_slot(book0, quantity, price, side, is_market);
    let fa = free_after_match(book0, quantity, price, side);
    assert(side_of(side).is_bid() == bid);
    assert(opp == book0.side_list(!bid));
    assert(forall|j: int| 0 <= j < f.len() ==> available(o0[#[trigger] opp[j] as int]) >= 0);
    lemma_fills_bounds(o0, opp, bid, quantity as int, price);
    assert(0 <= c <= f.len() <= opp.len());
    // the slot of the rest is neither on a side nor one the order took in part
    assert(rs matches Some(x) ==> !own0.contains(x) && !opp.skip(c).contains(x)) by {
        if rs is Some {
            let x = rs->Some_0;
            if c > 0 {
                assert(fa[0] == opp[c - 1]);
                assert(opp.contains(x));
                if opp.skip(c).contains(x) {
                    let j = choose|j: int| 0 <= j < opp.skip(c).len() && opp.skip(c)[j] == x;
                    assert(opp[c + j] == opp[c - 1]);
                }
            } else {
                assert(fa[0] == book0.free@[0]);
                assert(book0.free@.contains(x));
                if opp.skip(c).contains(x) {
                    let j = choose|j: int| 0 <= j < opp.skip(c).len() && opp.skip(c)[j] == x;
                    assert(opp.contains(opp[c + j]));
                }
            }
        }
    }
    // the side that was matched
    let rest = opp.skip(c);
    assert(book.side_list(!bid) == rest);
    assert forall|i: int| 0 <= i < rest.len() implies (#[trigger] o[rest[i] as int]).filled_quantity.val
        < o[rest[i] as int].quantity.val by {
        let x = rest[i];
        assert(x == opp[c + i]);
        assert(x < MAX_ORDERS);
        if bid {
            assert(book0.asks@[c + i] == x);
        } else {
            assert(book0.bids@[c + i] == x);
        }
        assert(o0[x as int].filled_quantity.val < o0[x as int].quantity.val);
        if c + i < f.len() {
            assert(i == 0);
            assert(matched(o0[opp[c] as int], o[opp[c] as int], f[c], false));
        } else {
            assert(!opp.take(f.len() as int).contains(x)) by {
                if opp.take(f.len() as int).contains(x) {
                    let j = choose|j: int| 0 <= j < f.len() && opp.take(f.len() as int)[j] == x;
                    assert(opp[j] == opp[c + i]);
                }
            }
            assert(rest.contains(x));
            assert(rs != Some(x));
            assert(o[x as int].same_order(o0[x as int]));
        }
    }
    // the order's own side
    let own2 = book.side_list(bid);
    assert forall|i: int| 0 <= i < own2.len() implies (#[trigger] o[own2[i] as int]).filled_quantity.val
        < o[own2[i] as int].quantity.val by {
        let x = own2[i];
        if rs == Some(x) {
        } else {
            assert(own2.contains(x));
            assert(own0.contains(x)) by {
                match rs {
                    None => {},
                    Some(s) => {
                        let pos = insertion_point(o0, own0, price, bid);
                        lemma_insertion_point_priority(o0, own0, price, bid);
                        assert(!own0.contains(s));
                        assert(s < MAX_ORDERS) by {
                            if c > 0 {
                                assert(fa[0] == opp[c - 1]);
                            } else {
                                assert(fa[0] == book0.free@[0]);
                            }
                        }
                        lemma_insert_at(own0, pos, s);
                    },
                }
            }
            let j = choose|j: int| 0 <= j < own0.len() && own0[j] == x;
            assert(x < MAX_ORDERS);
            if bid {
                assert(book0.bids@[j] == x);
            } else {
                assert(book0.asks@[j] == x);
            }
            assert(!opp.take(f.len() as int).contains(x)) by {
                if opp.take(f.len() as int).contains(x) {
                    let k = choose|k: int| 0 <= k < f.len() && opp.take(f.len() as int)[k] == x;
                    assert(opp.contains(opp[k]));
                }
            }
            assert(o[x as int].same_order(o0[x as int]));
        }
    }
    if bid {
        assert(book.asks@ == rest);
        assert(book.bids@ == own2);
    } else {
        assert(book.bids@ == rest);
        assert(book.asks@ == own2);
    }
}

/// Places an order on one book: checks and locks the user's funds, matches
/// the order against the book, settles the filled part on the user's ledger,
/// then leaves a limit order's rest on the book or unlocks a market order's.
#[verifier::rlimit(100)]
#[verifier::spinoff_prover]
fn place_order_on(
    ob: &mut Orderbook,
    user_account: &mut UserAccount,
    user: Pubkey,
    now: i64,
    is_order_for_a: bool,
    quantity: u64,
    price: u64,
    side: u8,
    is_market: bool,
) -> (r: Result<(), ErrorCode>)
    requires
        old(ob).wf(),
        order_can_run(*old(ob), *old(user_account), is_order_for_a, quantity, price, side),
    ensures
        match order_error(*old(user_account), is_order_for_a, quantity, price, side) {
            Some(e) => r == Err::<(), ErrorCode>(e) && *final(ob) == *old(ob) && *final(user_account)
                == *old(user_account),
            None => {
                let f = order_fills(*old(ob), quantity, price, side);
                &&& r == Ok::<(), ErrorCode>(())
                &&& *final(user_account) == account_after_order(
                    *old(user_account),
                    is_order_for_a,
                    quantity,
                    price,
                    side,
                    is_market,
                    total(f),
                    cost(old(ob).orders@, maker_list(*old(ob), side_of(side)), f),
                )
                &&& book_after_order(*old(ob), *final(ob), user, now, quantity, price, side, is_market)
            },
        },
{
    let ghost ua0 = *user_account;
    let order_side = if side == 0 {
        OrderSide::bid()
    } else {
        OrderSide::ask()
    };
    if order_side == OrderSide::bid() {
        let total_cost = quantity.checked_mul(price).unwrap() / 100;
        if !(user_account.collateral_balance >= total_cost) {
            return Err(ErrorCode::InsufficientCollateral);
        }
        user_account.collateral_balance = user_account.collateral_balance - total_cost;
        user_account.collateral_locked = user_account.collateral_locked + total_cost;
    } else {
        let current_balance = if is_order_for_a {
            user_account.outcome_a_balance
        } else {
            user_account.outcome_b_balance
        };
        if !(current_balance >= quantity) {
            return Err(ErrorCode::InsufficientShares);
        }
        if is_order_for_a {
            user_account.outcome_a_balance = user_account.outcome_a_balance - quantity;
            user_account.outcome_a_locked = user_account.outcome_a_locked + quantity;
        } else {
            user_account.outcome_b_balance = user_account.outcome_b_balance - quantity;
            user_account.outcome_b_locked = user_account.outcome_b_locked + quantity;
        }
    }
    let ghost ob0 = *ob;
    let ghost o0 = ob0.orders@;
    let ghost bid = side == 0;
    let ghost opp = maker_list(ob0, side_of(side));
    let ghost f = order_fills(ob0, quantity, price, side);
    let ghost c = consumed(o0, opp, f);
    proof {
        assert(order_side == side_of(side));
        lemma_fills_bounds(o0, opp, bid, quantity as int, price);
        lemma_fills_cross(o0, opp, bid, quantity as int, price);
        lemma_cost_within_limit(o0, opp, f, bid, price);
    }
    let match_result = execute_match(ob, order_side, quantity, price);
    let ghost mid = *ob;
    let ghost base = total(f);
    let ghost quote = cost(o0, opp, f);
    proof {
        assert(base <= quantity);
        if bid {
            assert(quote <= base * price);
            assert(base * price <= quantity * price) by (nonlinear_arith)
                requires
                    0 <= base <= quantity,
                    price >= 0,
            ;
            assert(quote + (quantity - base) * price <= quantity * price) by (nonlinear_arith)
                requires
                    quote <= base * price,
                    0 <= base <= quantity,
                    price >= 0,
            ;
            assert(quote / 100 + ((quantity - base) * price) / 100 <= (quantity * price) / 100)
                by (nonlinear_arith)
                requires
                    quote >= 0,
                    (quantity - base) * price >= 0,
                    quote + (quantity - base) * price <= quantity * price,
            ;
            assert((quantity - base) * price <= quantity * price) by (nonlinear_arith)
                requires
                    0 <= base <= quantity,
                    price >= 0,
            ;
        }
    }
    if match_result.base_filled > 0 {
        if order_side == OrderSide::bid() {
            let filled_cost = match_result.quote_filled / 100;
            user_account.collateral_locked = user_account.collateral_locked - filled_cost;
            if is_order_for_a {
                user_account.outcome_a_balance = user_account.outcome_a_balance
                    + match_result.base_filled;
            } else {
                user_account.outcome_b_balance = user_account.outcome_b_balance
                    + match_result.base_filled;
            }
        } else {
            if is_order_for_a {
                user_account.outcome_a_locked = user_account.outcome_a_locked
                    - match_result.base_filled;
            } else {
                user_account.outcome_b_locked = user_account.outcome_b_locked
                    - match_result.base_filled;
            }
            user_account.collateral_balance = user_account.collateral_balance
                + match_result.quote_filled / 100;
        }
    }
    if !is_market && match_result.remaining_quantity > 0 {
        let _ = rest_order(ob, user, now, price, match_result.remaining_quantity, order_side);
    } else if is_market && match_result.remaining_quantity > 0 {
        if order_side == OrderSide::bid() {
            let unused_cost = match_result.remaining_quantity.checked_mul(price).unwrap() / 100;
            user_account.collateral_locked = user_account.collateral_locked - unused_cost;
            user_account.collateral_balance = user_account.collateral_balance + unused_cost;
        } else {
            if is_order_for_a {
                user_account.outcome_a_locked = user_account.outcome_a_locked
                    - match_result.remaining_quantity;
                user_account.outcome_a_balance = user_account.outcome_a_balance
                    + match_result.remaining_quantity;
            } else {
                user_account.outcome_b_locked = user_account.outcome_b_locked
                    - match_result.remaining_quantity;
                user_account.outcome_b_balance = user_account.outcome_b_balance
                    + match_result.remaining_quantity;
            }
        }
    }
    proof {
        let fin = *ob;
        let rs = rest_slot(ob0, quantity, price, side, is_market);
        let own0 = ob0.side_list(bid);
        assert(mid.side_list(bid) == own0);
        assert(mid.free@ == free_after_match(ob0, quantity, price, side));
        if rs is Some {
            let s = rs->Some_0;
            assert(mid.free@[0] == s);
            assert(s < MAX_ORDERS);
            assert forall|i: int| 0 <= i < own0.len() implies (#[trigger] o0[own0[i] as int]).price
                == mid.orders@[own0[i] as int].price by {
                assert(own0[i] < MAX_ORDERS);
                assert(!opp.take(f.len() as int).contains(own0[i])) by {
                    if opp.take(f.len() as int).contains(own0[i]) {
                        let j = choose|j: int|
                            0 <= j < f.len() && opp.take(f.len() as int)[j] == own0[i];
                        assert(opp.contains(opp[j]));
                        assert(own0.contains(own0[i]));
                    }
                }
            }
            lemma_insertion_point_frame(o0, mid.orders@, own0, price, bid);
            if c > 0 {
                assert(s == opp[c - 1]);
            } else {
                assert(s == ob0.free@[0]);
                assert(ob0.free@.contains(s));
                assert(!opp.take(f.len() as int).contains(s)) by {
                    if opp.take(f.len() as int).contains(s) {
                        let j = choose|j: int| 0 <= j < f.len() && opp.take(f.len() as int)[j] == s;
                        assert(opp.contains(opp[j]));
                    }
                }
            }
            if c < f.len() {
                assert(mid.side_list(!bid).contains(opp[c])) by {
                    assert(mid.side_list(!bid)[0] == opp[c]);
                }
                assert(opp[c] != s);
            }
        } else {
            assert(fin == mid);
        }
        assert forall|j: int|
            0 <= j < c && rs != Some(opp[j]) implies matched(
                o0[opp[j] as int],
                #[trigger] fin.orders@[opp[j] as int],
                f[j],
                true,
            ) by {
            assert(matched(o0[opp[j] as int], mid.orders@[opp[j] as int], f[j], true));
            assert(opp[j] < MAX_ORDERS);
            if rs is Some {
                assert(mid.free@.contains(opp[j])) by {
                    assert(opp.take(c).reverse()[c - 1 - j] == opp[j]);
                    assert(mid.free@[c - 1 - j] == opp[j]);
                }
                assert(fin.orders@[opp[j] as int] == mid.orders@[opp[j] as int]);
            }
        }
        assert(makers_updated(o0, fin.orders@, opp, f, rs));
    }
    Ok(())
}

/// Whether an order runs to its end without an arithmetic overflow or an
/// over-filled resting order on its way, computed without changing anything.
pub fn order_runs(
    book: &Orderbook,
    ua: &UserAccount,
    is_order_for_a: bool,
    quantity: u64,
    price: u64,
    side: u8,
) -> (r: bool)
    requires
        book.wf(),
    ensures
        r == order_can_run(*book, *ua, is_order_for_a, quantity, price, side),
{
    let held_now = if is_order_for_a {
        ua.outcome_a_balance
    } else {
        ua.outcome_b_balance
    };
    let held_locked_now = if is_order_for_a {
        ua.outcome_a_locked
    } else {
        ua.outcome_b_locked
    };
    let total_cost = if side == 0 {
        match quantity.checked_mul(price) {
            Some(v) => v / 100,
            None => {
                return false;
            },
        }
    } else {
        0
    };
    let refused = if side == 0 {
        ua.collateral_balance < total_cost
    } else {
        held_now < quantity
    };
    if refused {
        return true;
    }
    if side == 0 {
        if ua.collateral_locked.checked_add(total_cost).is_none() {
            return false;
        }
    } else {
        if held_locked_now.checked_add(quantity).is_none() {
            return false;
        }
    }
    let order_side = if side == 0 {
        OrderSide::bid()
    } else {
        OrderSide::ask()
    };
    proof {
        assert(order_side == side_of(side));
    }
    match simulate_match(book, order_side, quantity, price) {
        None => false,
        Some((base, quote)) => {
            if base > 0 && side == 0 {
                held_now.checked_add(base).is_some()
            } else if base > 0 && side != 0 {
                ua.collateral_balance.checked_add(quote / 100).is_some()
            } else {
                true
            }
        },
    }
}

/// Places an order of `user`, at time `now`, on the book of outcome A or B:
/// a bid (`side` 0) or an ask (any other `side`) for `quantity` at `price`,
/// either a limit order, whose unfilled rest stays on the book, or a market
/// order, whose unfilled rest is unlocked again.
pub fn handle_place_order(
    orderbook_a: &mut Orderbook,
    orderbook_b: &mut Orderbook,
    user_account: &mut UserAccount,
    user: Pubkey,
    now: i64,
    is_order_for_a: bool,
    quantity: u64,
    price: u64,
    side: u8,
    is_market: bool,
) -> (r: Result<(), ErrorCode>)
    requires
        if is_order_for_a {
            old(orderbook_a).wf() && order_can_run(
                *old(orderbook_a),
                *old(user_account),
                is_order_for_a,
                quantity,
                price,
                side,
            )
        } else {
            old(orderbook_b).wf() && order_can_run(
                *old(orderbook_b),
                *old(user_account),
                is_order_for_a,
                quantity,
                price,
                side,
            )
        },
    ensures
        ({
            let book0 = if is_order_for_a {
                *old(orderbook_a)
            } else {
                *old(orderbook_b)
            };
            let book = if is_order_for_a {
                *final(orderbook_a)
            } else {
                *final(orderbook_b)
            };
            let f = order_fills(book0, quantity, price, side);
            &&& is_order_for_a ==> *final(orderbook_b) == *old(orderbook_b)
            &&& !is_order_for_a ==> *final(orderbook_a) == *old(orderbook_a)
            &&& match order_error(*old(user_account), is_order_for_a, quantity, price, side) {
                Some(e) => r == Err::<(), ErrorCode>(e) && book == book0 && *final(user_account)
                    == *old(user_account),
                None => {
                    &&& r == Ok::<(), ErrorCode>(())
                    &&& *final(user_account) == account_after_order(
                        *old(user_account),
                        is_order_for_a,
                        quantity,
                        price,
                        side,
                        is_market,
                        total(f),
                        cost(book0.orders@, maker_list(book0, side_of(side)), f),
                    )
                    &&& book_after_order(book0, book, user, now, quantity, price, side, is_market)
                },
            }
        }),
{
    if is_order_for_a {
        place_order_on(
            orderbook_a,
            user_account,
            user,
            now,
            is_order_for_a,
            quantity,
            price,
            side,
            is_market,
        )
    } else {
        place_order_on(
            orderbook_b,
            user_account,
            user,
            now,
            is_order_for_a,
            quantity,
            price,
            side,
            is_market,
        )
    }
}

} // verus!
