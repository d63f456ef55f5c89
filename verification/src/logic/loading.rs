use vstd::prelude::*;

use crate::state::{
    disjoint, dlinked, dlinked_at, free_slots, in_range, lemma_list_shorter_than_book, open_orders_of,
    prev_in, price_at, slinked, slinked_at, sorted_for, OrderNode, Orderbook, Pubkey,
    MAX_ORDERS, SENTINEL,
};

verus! {

/// The stored fields of an order book, as its account holds them.
pub struct RawOrderbook {
    pub market: Pubkey,
    pub outcome_mint: Pubkey,
    pub collateral_mint: Pubkey,
    pub bid_head: u32,
    pub ask_head: u32,
    pub free_head: u32,
    pub active_orders: u32,
    pub last_traded_price: u64,
    pub unclaimed_fees: u64,
    pub fee_rate_bps: u64,
    pub bump: u8,
    pub orders: Vec<OrderNode>,
}

/// The book that the stored fields `raw` make with the lists `b`, `a` and `f`.
pub open spec fn with_lists(raw: RawOrderbook, b: Seq<u32>, a: Seq<u32>, f: Seq<u32>) -> Orderbook {
    Orderbook {
        market: raw.market,
        outcome_mint: raw.outcome_mint,
        collateral_mint: raw.collateral_mint,
        bid_head: raw.bid_head,
        ask_head: raw.ask_head,
        free_head: raw.free_head,
        active_orders: raw.active_orders,
        last_traded_price: raw.last_traded_price,
        unclaimed_fees: raw.unclaimed_fees,
        fee_rate_bps: raw.fee_rate_bps,
        bump: raw.bump,
        orders: raw.orders,
        bids: Ghost(b),
        asks: Ghost(a),
        free: Ghost(f),
    }
}

/// List `l`, starting at `head`, is a well-formed list of kind `kind`: the
/// bids (0), the asks (1) or the free slots (2).
pub open spec fn list_ok(orders: Seq<OrderNode>, l: Seq<u32>, head: u32, kind: u8) -> bool {
    &&& in_range(l)
    &&& l.no_duplicates()
    &&& if kind == 2 {
        slinked(orders, l, head) && free_slots(orders, l)
    } else {
        &&& dlinked(orders, l, head)
        &&& sorted_for(orders, l, kind == 0)
        &&& open_orders_of(orders, l, kind == 0)
    }
}

/// The slots walked so far, `w`, are linked as a list of kind `kind` whose
/// last slot points at `cur`.
pub open spec fn walked(orders: Seq<OrderNode>, w: Seq<u32>, cur: u32, kind: u8) -> bool {
    &&& forall|i: int| 0 <= i < w.len() - 1 ==> #[trigger] orders[w[i] as int].next == w[i + 1]
    &&& w.len() > 0 ==> orders[w[w.len() - 1] as int].next == cur
    &&& kind == 2 ==> forall|i: int|
        0 <= i < w.len() ==> (#[trigger] orders[w[i] as int]).status.is_cancelled()
    &&& kind != 2 ==> forall|i: int|
        0 <= i < w.len() ==> (#[trigger] orders[w[i] as int]).prev == prev_in(w, i)
            && orders[w[i] as int].status.is_open() && orders[w[i] as int].side.is_bid() == (kind
            == 0)
    &&& kind != 2 ==> sorted_for(orders, w, kind == 0)
}

/// A list that the walk may find: well formed and clear of the slots seen before.
pub open spec fn findable(orders: Seq<OrderNode>, l: Seq<u32>, head: u32, kind: u8, seen: Seq<bool>) -> bool {
    &&& list_ok(orders, l, head, kind)
    &&& forall|i: int| 0 <= i < l.len() ==> !seen[#[trigger] l[i] as int]
}

/// A list of distinct slots is no longer than the book.
proof fn lemma_list_len_at_most_book(l: Seq<u32>)
    requires
        in_range(l),
        l.no_duplicates(),
    ensures
        l.len() <= MAX_ORDERS,
{
    if l.len() > 0 {
        let d = l.drop_last();
        assert(in_range(d)) by {
            assert forall|i: int| 0 <= i < d.len() implies (#[trigger] d[i]) < MAX_ORDERS by {
                assert(d[i] == l[i]);
            }
        }
        assert(!d.contains(l.last())) by {
            if d.contains(l.last()) {
                let i = choose|i: int| 0 <= i < d.len() && d[i] == l.last();
                assert(l[i] == l[l.len() - 1]);
            }
        }
        assert(l.last() < MAX_ORDERS) by {
            assert(l[l.len() - 1] < MAX_ORDERS);
        }
        lemma_list_shorter_than_book(d, l.last());
    }
}

/// Walks the list of kind `kind` from `head`, checking every slot and
/// marking it in `seen`. Returns its length and its slots, or `None` when the
/// links do not make a well-formed list clear of the slots seen before.
fn walk_list(orders: &Vec<OrderNode>, head: u32, kind: u8, seen: &mut Vec<bool>) -> (r: Option<
    (u32, Ghost<Seq<u32>>),
>)
    requires
        orders@.len() == MAX_ORDERS,
        old(seen)@.len() == MAX_ORDERS,
    ensures
        final(seen)@.len() == MAX_ORDERS,
        r matches Some((n, l)) ==> {
            &&& findable(orders@, l@, head, kind, old(seen)@)
            &&& n == l@.len()
            &&& forall|x: int|
                0 <= x < MAX_ORDERS ==> final(seen)@[x] == (old(seen)@[x] || l@.contains(
                    x as u32,
                ))
        },
        r is None ==> forall|l: Seq<u32>| !#[trigger] findable(orders@, l, head, kind, old(seen)@),
{
    let ghost seen0 = seen@;
    let ghost o = orders@;
    let mut cur = head;
    let mut prev = SENTINEL;
    let mut prev_price: u64 = 0;
    let mut count: u32 = 0;
    let ghost mut w: Seq<u32> = Seq::empty();
    while cur != SENTINEL
        invariant
            o == orders@,
            seen0 == old(seen)@,
            o.len() == MAX_ORDERS,
            seen@.len() == MAX_ORDERS,
            count == w.len(),
            count <= MAX_ORDERS,
            in_range(w),
            w.no_duplicates(),
            forall|x: int|
                0 <= x < MAX_ORDERS ==> seen@[x] == (seen0[x] || w.contains(x as u32)),
            forall|i: int| 0 <= i < w.len() ==> !seen0[#[trigger] w[i] as int],
            walked(o, w, cur, kind),
            head == if w.len() > 0 {
                w[0]
            } else {
                cur
            },
            prev == prev_in(w, w.len() as int),
            w.len() > 0 ==> prev_price == o[w[w.len() - 1] as int].price.val,
            forall|l: Seq<u32>|
                #[trigger] findable(o, l, head, kind, seen0) ==> {
                    &&& w.len() <= l.len()
                    &&& w == l.take(w.len() as int)
                    &&& cur == if w.len() < l.len() {
                        l[w.len() as int]
                    } else {
                        SENTINEL
                    }
                },
        decreases MAX_ORDERS - count,
    {
        if count >= MAX_ORDERS as u32 || cur >= MAX_ORDERS as u32 {
            proof {
                assert forall|l: Seq<u32>| !#[trigger] findable(o, l, head, kind, seen0) by {
                    if findable(o, l, head, kind, seen0) {
                        lemma_list_len_at_most_book(l);
                        assert(l[w.len() as int] < MAX_ORDERS);
                    }
                }
            }
            return None;
        }
        let node = orders[cur as usize];
        let fresh = !seen[cur as usize];
        let ok = if kind == 2 {
            node.status.val == 3
        } else {
            let in_order = count == 0 || if kind == 0 {
                node.price.val <= prev_price
            } else {
                node.price.val >= prev_price
            };
            node.prev == prev && node.status.val == 0 && (node.side.val == 0) == (kind == 0)
                && in_order
        };
        if !fresh || !ok {
            proof {
                assert forall|l: Seq<u32>| !#[trigger] findable(o, l, head, kind, seen0) by {
                    if findable(o, l, head, kind, seen0) {
                        let k = w.len() as int;
                        assert(l[k] == cur);
                        assert(!seen0[l[k] as int]);
                        if w.contains(cur) {
                            let j = choose|j: int| 0 <= j < w.len() && w[j] == cur;
                            assert(l[j] == w[j]);
                        }
                        if kind == 2 {
                            assert(o[l[k] as int].status.is_cancelled());
                        } else {
                            assert(dlinked_at(o, l, k));
                            if k > 0 {
                                assert(l[k - 1] == w[k - 1]);
                                assert(price_at(o, l, k - 1) == prev_price);
                                assert(price_at(o, l, k) == node.price.val);
                                assert(if kind == 0 {
                                    price_at(o, l, k - 1) >= price_at(o, l, k)
                                } else {
                                    price_at(o, l, k - 1) <= price_at(o, l, k)
                                });
                            }
                            assert(o[l[k] as int].status.is_open());
                            assert(o[l[k] as int].side.is_bid() == (kind == 0));
                        }
                    }
                }
            }
            return None;
        }
        seen[cur as usize] = true;
        let ghost w2 = w.push(cur);
        proof {
            assert forall|i: int| 0 <= i < w2.len() implies (#[trigger] w2[i]) < MAX_ORDERS by {
                if i < w.len() {
                    assert(w2[i] == w[i]);
                }
            }
            assert forall|i: int, j: int| 0 <= i < w2.len() && 0 <= j < w2.len() && i != j implies w2[i]
                != w2[j] by {
                if i == w.len() as int && j < w.len() {
                    assert(w.contains(w[j]));
                } else if j == w.len() as int && i < w.len() {
                    assert(w.contains(w[i]));
                } else {
                    assert(w2[i] == w[i]);
                    assert(w2[j] == w[j]);
                }
            }
            assert forall|x: int| 0 <= x < MAX_ORDERS implies seen@[x] == (seen0[x] || w2.contains(
                x as u32,
            )) by {
                if w2.contains(x as u32) && x as u32 != cur {
                    let j = choose|j: int| 0 <= j < w2.len() && w2[j] == x as u32;
                    assert(w[j] == x as u32);
                }
                if w.contains(x as u32) {
                    let j = choose|j: int| 0 <= j < w.len() && w[j] == x as u32;
                    assert(w2[j] == x as u32);
                }
                if x as u32 == cur {
                    assert(w2[w.len() as int] == cur);
                }
            }
            assert forall|i: int| 0 <= i < w2.len() implies !seen0[#[trigger] w2[i] as int] by {
                if i < w.len() {
                    assert(w2[i] == w[i]);
                }
            }
            assert forall|i: int| 0 <= i < w2.len() - 1 implies #[trigger] o[w2[i] as int].next
                == w2[i + 1] by {
                assert(w2[i] == w[i]);
                if i + 1 < w.len() {
                    assert(w2[i + 1] == w[i + 1]);
                }
            }
            if kind == 2 {
                assert forall|i: int| 0 <= i < w2.len() implies (#[trigger] o[w2[i] as int]).status.is_cancelled() by {
                    if i < w.len() {
                        assert(w2[i] == w[i]);
                    }
                }
            } else {
                assert forall|i: int| 0 <= i < w2.len() implies (#[trigger] o[w2[i] as int]).prev
                    == prev_in(w2, i) && o[w2[i] as int].status.is_open() && o[w2[i] as int].side.is_bid()
                    == (kind == 0) by {
                    if i < w.len() {
                        assert(w2[i] == w[i]);
                        if i > 0 {
                            assert(w2[i - 1] == w[i - 1]);
                        }
                    } else if i > 0 {
                        assert(w2[i - 1] == w[i - 1]);
                    }
                }
                assert forall|i: int, j: int| 0 <= i < j < w2.len() implies (if kind == 0 {
                    price_at(o, w2, i) >= price_at(o, w2, j)
                } else {
                    price_at(o, w2, i) <= price_at(o, w2, j)
                }) by {
                    assert(w2[i] == w[i]);
                    if j < w.len() {
                        assert(w2[j] == w[j]);
                        assert(sorted_for(o, w, kind == 0));
                        assert(price_at(o, w, i) == price_at(o, w2, i));
                        assert(price_at(o, w, j) == price_at(o, w2, j));
                    } else {
                        assert(price_at(o, w, i) == price_at(o, w2, i));
                        if i < w.len() - 1 {
                            assert(price_at(o, w, w.len() - 1) == price_at(o, w2, w.len() - 1));
                            assert(w2[w.len() - 1] == w[w.len() - 1]);
                        }
                    }
                }
            }
            assert forall|l: Seq<u32>| #[trigger] findable(o, l, head, kind, seen0) implies {
                &&& w2.len() <= l.len()
                &&& w2 == l.take(w2.len() as int)
                &&& node.next == if w2.len() < l.len() {
                    l[w2.len() as int]
                } else {
                    SENTINEL
                }
            } by {
                let k = w.len() as int;
                assert(l[k] == cur);
                assert(w2 =~= l.take(k + 1));
                if kind == 2 {
                    assert(slinked_at(o, l, k));
                } else {
                    assert(dlinked_at(o, l, k));
                }
            }
        }
        prev = cur;
        prev_price = node.price.val;
        cur = node.next;
        count = count + 1;
        proof {
            w = w2;
        }
    }
    proof {
        if kind == 2 {
            assert forall|i: int| 0 <= i < w.len() implies #[trigger] slinked_at(o, w, i) by {
                if i < w.len() - 1 {
                    assert(o[w[i] as int].next == w[i + 1]);
                }
            }
        } else {
            assert forall|i: int| 0 <= i < w.len() implies #[trigger] dlinked_at(o, w, i) by {
                if i < w.len() - 1 {
                    assert(o[w[i] as int].next == w[i + 1]);
                }
                assert(o[w[i] as int].prev == prev_in(w, i));
            }
        }
    }
    Some((count, Ghost(w)))
}

/// The next links determine a list: two well-formed lists of one kind from
/// one head are the same list.
proof fn lemma_list_unique(orders: Seq<OrderNode>, l1: Seq<u32>, l2: Seq<u32>, head: u32, kind: u8)
    requires
        list_ok(orders, l1, head, kind),
        list_ok(orders, l2, head, kind),
    ensures
        l1 == l2,
{
    assert forall|i: int| 0 <= i < l1.len() && i < l2.len() implies l1[i] == l2[i] by {
        lemma_list_unique_at(orders, l1, l2, head, kind, i);
    }
    if l1.len() < l2.len() {
        if l1.len() == 0 {
            assert(l2[0] < MAX_ORDERS);
        } else {
            let i = l1.len() - 1;
            lemma_list_unique_at(orders, l1, l2, head, kind, i);
            if kind == 2 {
                assert(slinked_at(orders, l1, i));
                assert(slinked_at(orders, l2, i));
            } else {
                assert(dlinked_at(orders, l1, i));
                assert(dlinked_at(orders, l2, i));
            }
            assert(l2[i + 1] < MAX_ORDERS);
        }
    } else if l2.len() < l1.len() {
        if l2.len() == 0 {
            assert(l1[0] < MAX_ORDERS);
        } else {
            let i = l2.len() - 1;
            lemma_list_unique_at(orders, l1, l2, head, kind, i);
            if kind == 2 {
                assert(slinked_at(orders, l1, i));
                assert(slinked_at(orders, l2, i));
            } else {
                assert(dlinked_at(orders, l1, i));
                assert(dlinked_at(orders, l2, i));
            }
            assert(l1[i + 1] < MAX_ORDERS);
        }
    }
    assert(l1 =~= l2);
}

proof fn lemma_list_unique_at(
    orders: Seq<OrderNode>,
    l1: Seq<u32>,
    l2: Seq<u32>,
    head: u32,
    kind: u8,
    i: int,
)
    requires
        list_ok(orders, l1, head, kind),
        list_ok(orders, l2, head, kind),
        0 <= i < l1.len(),
        i < l2.len(),
    ensures
        l1[i] == l2[i],
    decreases i,
{
    if i > 0 {
        lemma_list_unique_at(orders, l1, l2, head, kind, i - 1);
        if kind == 2 {
            assert(slinked_at(orders, l1, i - 1));
            assert(slinked_at(orders, l2, i - 1));
        } else {
            assert(dlinked_at(orders, l1, i - 1));
            assert(dlinked_at(orders, l2, i - 1));
        }
    }
}

/// Every slot is marked.
fn all_marked(seen: &Vec<bool>) -> (r: bool)
    requires
        seen@.len() == MAX_ORDERS,
    ensures
        r == forall|j: int| 0 <= j < MAX_ORDERS ==> seen@[j],
{
    let mut i: usize = 0;
    while i < MAX_ORDERS
        invariant
            0 <= i <= MAX_ORDERS,
            seen@.len() == MAX_ORDERS,
            forall|j: int| 0 <= j < i ==> seen@[j],
        decreases MAX_ORDERS - i,
    {
        if !seen[i] {
            return false;
        }
        i = i + 1;
    }
    true
}

/// In a well-formed book made of the stored fields `raw` and the lists `b`,
/// `a` and `f`, each list is the one that the walk finds at its stage: the
/// bids before any slot is marked, the asks after the bids (`b0`, marking
/// `seen1`), the free slots after the asks (`a0`, marking `seen2`); once the
/// free slots were walked to `f0`, `f` is that list.
proof fn lemma_lists_found(
    raw: RawOrderbook,
    b: Seq<u32>,
    a: Seq<u32>,
    f: Seq<u32>,
    seen0: Seq<bool>,
    seen1: Seq<bool>,
    seen2: Seq<bool>,
    b0: Seq<u32>,
    a0: Seq<u32>,
    f0: Seq<u32>,
    stage: int,
)
    requires
        with_lists(raw, b, a, f).wf(),
        seen0.len() == MAX_ORDERS,
        forall|j: int| 0 <= j < MAX_ORDERS ==> !seen0[j],
        stage >= 1 ==> {
            &&& findable(raw.orders@, b0, raw.bid_head, 0, seen0)
            &&& seen1.len() == MAX_ORDERS
            &&& forall|x: int| 0 <= x < MAX_ORDERS ==> seen1[x] == (seen0[x] || b0.contains(x as u32))
        },
        stage >= 2 ==> {
            &&& findable(raw.orders@, a0, raw.ask_head, 1, seen1)
            &&& seen2.len() == MAX_ORDERS
            &&& forall|x: int| 0 <= x < MAX_ORDERS ==> seen2[x] == (seen1[x] || a0.contains(x as u32))
        },
        stage >= 3 ==> findable(raw.orders@, f0, raw.free_head, 2, seen2),
    ensures
        findable(raw.orders@, b, raw.bid_head, 0, seen0),
        stage >= 1 ==> b == b0 && findable(raw.orders@, a, raw.ask_head, 1, seen1),
        stage >= 2 ==> a == a0 && findable(raw.orders@, f, raw.free_head, 2, seen2),
        stage >= 3 ==> f == f0,
{
    let o = raw.orders@;
    assert(findable(o, b, raw.bid_head, 0, seen0));
    if stage >= 1 {
        lemma_list_unique(o, b, b0, raw.bid_head, 0);
        assert forall|i: int| 0 <= i < a.len() implies !seen1[#[trigger] a[i] as int] by {
            assert(a.contains(a[i]));
            assert(a[i] < MAX_ORDERS);
        }
        assert(findable(o, a, raw.ask_head, 1, seen1));
    }
    if stage >= 2 {
        lemma_list_unique(o, a, a0, raw.ask_head, 1);
        assert forall|i: int| 0 <= i < f.len() implies !seen2[#[trigger] f[i] as int] by {
            assert(f.contains(f[i]));
            assert(f[i] < MAX_ORDERS);
        }
        assert(findable(o, f, raw.free_head, 2, seen2));
    }
    if stage >= 3 {
        lemma_list_unique(o, f, f0, raw.free_head, 2);
    }
}

/// Rebuilds an order book from its stored fields, checking that its links
/// make three well-formed lists that share no slot and hold every slot, and
/// that `active_orders` counts the slots that are not free. Returns `None`
/// exactly when no choice of lists makes the stored fields a well-formed book.
pub fn load_orderbook(raw: RawOrderbook) -> (r: Option<Orderbook>)
    ensures
        r matches Some(ob) ==> ob.wf() && ob == with_lists(raw, ob.bids@, ob.asks@, ob.free@),
        r is None ==> forall|b: Seq<u32>, a: Seq<u32>, f: Seq<u32>|
            !#[trigger] with_lists(raw, b, a, f).wf(),
{
    if raw.orders.len() != MAX_ORDERS {
        return None;
    }
    let ghost o = raw.orders@;
    let mut seen: Vec<bool> = Vec::new();
    let mut i: usize = 0;
    while i < MAX_ORDERS
        invariant
            0 <= i <= MAX_ORDERS,
            seen@.len() == i,
            forall|j: int| 0 <= j < i ==> !seen@[j],
        decreases MAX_ORDERS - i,
    {
        seen.push(false);
        i = i + 1;
    }
    let ghost seen0 = seen@;
    let bids = match walk_list(&raw.orders, raw.bid_head, 0, &mut seen) {
        Some(x) => x,
        None => {
            proof {
                assert forall|b: Seq<u32>, a: Seq<u32>, f: Seq<u32>|
                    !#[trigger] with_lists(raw, b, a, f).wf() by {
                    if with_lists(raw, b, a, f).wf() {
                        lemma_lists_found(raw, b, a, f, seen0, seen0, seen0, b, a, f, 0);
                    }
                }
            }
            return None;
        },
    };
    let ghost seen1 = seen@;
    let asks = match walk_list(&raw.orders, raw.ask_head, 1, &mut seen) {
        Some(x) => x,
        None => {
            proof {
                assert forall|b: Seq<u32>, a: Seq<u32>, f: Seq<u32>|
                    !#[trigger] with_lists(raw, b, a, f).wf() by {
                    if with_lists(raw, b, a, f).wf() {
                        lemma_lists_found(raw, b, a, f, seen0, seen1, seen1, bids.1@, a, f, 1);
                    }
                }
            }
            return None;
        },
    };
    let ghost seen2 = seen@;
    let free = match walk_list(&raw.orders, raw.free_head, 2, &mut seen) {
        Some(x) => x,
        None => {
            proof {
                assert forall|b: Seq<u32>, a: Seq<u32>, f: Seq<u32>|
                    !#[trigger] with_lists(raw, b, a, f).wf() by {
                    if with_lists(raw, b, a, f).wf() {
                        lemma_lists_found(raw, b, a, f, seen0, seen1, seen2, bids.1@, asks.1@, f, 2);
                    }
                }
            }
            return None;
        },
    };
    let ghost b0 = bids.1@;
    let ghost a0 = asks.1@;
    let ghost f0 = free.1@;
    proof {
        assert(disjoint(b0, a0)) by {
            assert forall|x: u32| !(b0.contains(x) && a0.contains(x)) by {
                if b0.contains(x) && a0.contains(x) {
                    let i = choose|i: int| 0 <= i < a0.len() && a0[i] == x;
                    assert(!seen1[a0[i] as int]);
                    assert(x < MAX_ORDERS);
                }
            }
        }
        assert(disjoint(b0, f0)) by {
            assert forall|x: u32| !(b0.contains(x) && f0.contains(x)) by {
                if b0.contains(x) && f0.contains(x) {
                    let i = choose|i: int| 0 <= i < f0.len() && f0[i] == x;
                    assert(!seen2[f0[i] as int]);
                    assert(x < MAX_ORDERS);
                }
            }
        }
        assert(disjoint(a0, f0)) by {
            assert forall|x: u32| !(a0.contains(x) && f0.contains(x)) by {
                if a0.contains(x) && f0.contains(x) {
                    let i = choose|i: int| 0 <= i < f0.len() && f0[i] == x;
                    assert(!seen2[f0[i] as int]);
                    assert(x < MAX_ORDERS);
                }
            }
        }
    }
    let ghost seen3 = seen@;
    if !all_marked(&seen) {
        proof {
            assert forall|b: Seq<u32>, a: Seq<u32>, f: Seq<u32>|
                !#[trigger] with_lists(raw, b, a, f).wf() by {
                if with_lists(raw, b, a, f).wf() {
                    lemma_lists_found(raw, b, a, f, seen0, seen1, seen2, b0, a0, f0, 3);
                    let j = choose|j: int| 0 <= j < MAX_ORDERS && !seen3[j];
                    assert(b.contains(j as u32) || a.contains(j as u32) || f.contains(j as u32));
                }
            }
        }
        return None;
    }
    if raw.active_orders as u64 + free.0 as u64 != MAX_ORDERS as u64 {
        proof {
            assert forall|b: Seq<u32>, a: Seq<u32>, f: Seq<u32>|
                !#[trigger] with_lists(raw, b, a, f).wf() by {
                if with_lists(raw, b, a, f).wf() {
                    lemma_lists_found(raw, b, a, f, seen0, seen1, seen2, b0, a0, f0, 3);
                }
            }
        }
        return None;
    }
    let ob = Orderbook {
        market: raw.market,
        outcome_mint: raw.outcome_mint,
        collateral_mint: raw.collateral_mint,
        bid_head: raw.bid_head,
        ask_head: raw.ask_head,
        free_head: raw.free_head,
        active_orders: raw.active_orders,
        last_traded_price: raw.last_traded_price,
        unclaimed_fees: raw.unclaimed_fees,
        fee_rate_bps: raw.fee_rate_bps,
        bump: raw.bump,
        orders: raw.orders,
        bids: Ghost(b0),
        asks: Ghost(a0),
        free: Ghost(f0),
    };
    proof {
        assert forall|x: u32| x < MAX_ORDERS implies #[trigger] ob.bids@.contains(x)
            || ob.asks@.contains(x) || ob.free@.contains(x) by {
            assert(seen3[x as int]);
        }
    }
    Some(ob)
}

} // verus!
