use vstd::prelude::*;

use crate::state::{
    dlinked_at, lemma_insert_at, lemma_list_frame, lemma_list_shorter_than_book, lemma_remove_at,
    prev_in, price_at, same_header, slinked_at, sorted_for, OrderNode, OrderSide, OrderStatus,
    Orderbook, MAX_ORDERS, SENTINEL,
};

verus! {

/// What taking the first slot off the free list does to the stored fields of
/// book `old`, whatever its links hold: with no free head nothing changes and
/// the result is `None`; otherwise the result is the free head, the new free
/// head is the slot it points at, and `active_orders` grows by one.
pub open spec fn popped_raw(old: Orderbook, new: Orderbook, r: Option<u32>) -> bool {
    &&& old.free_head == SENTINEL ==> r is None && new == old
    &&& old.free_head != SENTINEL ==> {
        &&& r == Some(old.free_head)
        &&& new.free_head == old.orders@[old.free_head as int].next
        &&& new.active_orders == old.active_orders + 1
        &&& same_header(new, old)
        &&& new.orders@ == old.orders@
        &&& new.bid_head == old.bid_head
        &&& new.ask_head == old.ask_head
        &&& new.bids@ == old.bids@
        &&& new.asks@ == old.asks@
        &&& new.free@ == old.free@.drop_first()
    }
}

/// What putting slot `index` at the head of the free list does to the stored
/// fields of book `old`, whatever its links hold: the slot is marked
/// cancelled, points at the old free head, is linked back to nothing and keeps
/// its order's terms; it becomes the free head; `active_orders` drops by one;
/// nothing else changes.
pub open spec fn pushed_raw(old: Orderbook, new: Orderbook, index: u32) -> bool {
    &&& same_header(new, old)
    &&& new.bid_head == old.bid_head
    &&& new.ask_head == old.ask_head
    &&& new.free_head == index
    &&& new.bids@ == old.bids@
    &&& new.asks@ == old.asks@
    &&& new.free@ == seq![index].add(old.free@)
    &&& new.active_orders == old.active_orders - 1
    &&& new.orders@.len() == old.orders@.len()
    &&& new.orders@[index as int].status.is_cancelled()
    &&& new.orders@[index as int].next == old.free_head
    &&& new.orders@[index as int].prev == SENTINEL
    &&& new.orders@[index as int].same_terms(old.orders@[index as int])
    &&& forall|i: int| 0 <= i < MAX_ORDERS && i != index ==> new.orders@[i] == old.orders@[i]
}

/// What taking the first slot off the free list makes of book `old`, with
/// result `r`: nothing changes when the free list is empty; otherwise `r` is
/// its first slot, which leaves it, and `active_orders` grows by one. The
/// slots and the other lists are unchanged.
pub open spec fn popped_free(old: Orderbook, new: Orderbook, r: Option<u32>) -> bool {
    &&& new.links_wf()
    &&& same_header(new, old)
    &&& new.orders@ == old.orders@
    &&& new.bids@ == old.bids@
    &&& new.asks@ == old.asks@
    &&& old.free@.len() == 0 ==> r is None && new == old
    &&& old.free@.len() > 0 ==> {
        &&& r == Some(old.free@[0])
        &&& new.free@ == old.free@.drop_first()
        &&& new.active_orders == old.active_orders + 1
    }
}

/// What putting slot `index` at the head of the free list makes of book
/// `old`: the slot is marked cancelled, points at the old head and keeps its
/// order's terms; `active_orders` drops by one; nothing else changes.
pub open spec fn pushed_free(old: Orderbook, new: Orderbook, index: u32) -> bool {
    &&& new.links_wf()
    &&& same_header(new, old)
    &&& new.bids@ == old.bids@
    &&& new.asks@ == old.asks@
    &&& new.free@ == seq![index].add(old.free@)
    &&& new.active_orders == old.active_orders - 1
    &&& new.orders@.len() == old.orders@.len()
    &&& new.orders@[index as int].status.is_cancelled()
    &&& new.orders@[index as int].next == old.free_head
    &&& new.orders@[index as int].prev == SENTINEL
    &&& new.orders@[index as int].same_terms(old.orders@[index as int])
    &&& forall|i: int| 0 <= i < MAX_ORDERS && i != index ==> new.orders@[i] == old.orders@[i]
}

/// In a book whose lists are well formed, the free head is the first free
/// slot (or `SENTINEL` when there is none), and the order count leaves room
/// for one more.
proof fn lemma_free_head_is_first(ob: Orderbook)
    requires
        ob.links_wf(),
    ensures
        ob.free_head == SENTINEL <==> ob.free@.len() == 0,
        ob.free@.len() > 0 ==> ob.free_head == ob.free@[0] && ob.free_head < MAX_ORDERS,
        ob.active_orders <= MAX_ORDERS,
{
    if ob.free@.len() > 0 {
        assert(ob.free@[0] < MAX_ORDERS);
    }
}

/// Takes the first slot off the free list.
///
/// Returns `None`, and changes nothing, when there is no free head. Otherwise
/// the free head is returned, the slot it points at becomes the free head and
/// `active_orders` grows by one. On a book whose lists are well formed the
/// slot leaves the free list (it is then on no list until the caller places
/// it) and the book's lists stay well formed.
pub fn pop_free_node(ob: &mut Orderbook) -> (r: Option<u32>)
    requires
        old(ob).links_wf() || {
            &&& old(ob).orders@.len() == MAX_ORDERS
            &&& old(ob).free_head == SENTINEL || old(ob).free_head < MAX_ORDERS
            &&& old(ob).free_head != SENTINEL ==> old(ob).active_orders < u32::MAX
        },
    ensures
        popped_raw(*old(ob), *final(ob), r),
        old(ob).links_wf() ==> popped_free(*old(ob), *final(ob), r),
{
    proof {
        if ob.links_wf() {
            lemma_free_head_is_first(*ob);
        }
    }
    if ob.free_head == SENTINEL {
        return None;
    }
    let ghost old_free = ob.free@;
    let ghost old_ob = *ob;
    let index = ob.free_head;
    ob.free_head = ob.orders[index as usize].next;
    ob.active_orders = ob.active_orders + 1;
    proof {
        ob.free@ = old_free.drop_first();
    }
    proof {
        if old_ob.links_wf() {
            lemma_free_head_is_first(old_ob);
            assert(slinked_at(old_ob.orders@, old_free, 0));
            assert forall|i: int| 0 <= i < ob.free@.len() implies #[trigger] slinked_at(
                ob.orders@,
                ob.free@,
                i,
            ) by {
                assert(slinked_at(ob.orders@, old_free, i + 1));
            }
            assert forall|x: u32| #[trigger] ob.free@.contains(x) implies old_free.contains(x) by {
                let i = choose|i: int| 0 <= i < ob.free@.len() && ob.free@[i] == x;
                assert(old_free[i + 1] == x);
            }
        }
    }
    Some(index)
}

/// Whether slot `index` is on none of the book's three lists.
pub open spec fn off_lists(ob: Orderbook, index: u32) -> bool {
    &&& !ob.bids@.contains(index)
    &&& !ob.asks@.contains(index)
    &&& !ob.free@.contains(index)
}

/// Puts slot `index` at the head of the free list, marked cancelled, and
/// lowers `active_orders` by one. On a book whose lists are well formed, with
/// the slot on none of them, the lists stay well formed.
pub fn push_free_node(ob: &mut Orderbook, index: u32)
    requires
        old(ob).orders@.len() == MAX_ORDERS,
        index < MAX_ORDERS,
        old(ob).active_orders >= 1 || (old(ob).links_wf() && off_lists(*old(ob), index)),
    ensures
        pushed_raw(*old(ob), *final(ob), index),
        old(ob).links_wf() && off_lists(*old(ob), index) ==> pushed_free(*old(ob), *final(ob), index),
{
    let ghost wf0 = ob.links_wf() && off_lists(*ob, index);
    proof {
        if wf0 {
            lemma_list_shorter_than_book(ob.free@, index);
        }
    }
    let ghost old_ob = *ob;
    let ghost old_free = ob.free@;
    ob.orders[index as usize].status = OrderStatus::cancelled();
    ob.orders[index as usize].next = ob.free_head;
    ob.orders[index as usize].prev = SENTINEL;
    ob.free_head = index;
    ob.active_orders = ob.active_orders - 1;
    proof {
        ob.free@ = seq![index].add(old_free);
    }
    proof {
        let o = ob.orders@;
        if wf0 {
            let nf = ob.free@;
            assert forall|x: u32| #[trigger] nf.contains(x) implies x == index || old_free.contains(x) by {
                let i = choose|i: int| 0 <= i < nf.len() && nf[i] == x;
                if i > 0 {
                    assert(old_free[i - 1] == x);
                }
            }
            assert forall|x: u32| old_free.contains(x) implies #[trigger] nf.contains(x) by {
                let i = choose|i: int| 0 <= i < old_free.len() && old_free[i] == x;
                assert(nf[i + 1] == x);
            }
            assert(nf.contains(index)) by {
                assert(nf[0] == index);
            }
            assert forall|i: int| 0 <= i < nf.len() implies (#[trigger] nf[i]) < MAX_ORDERS by {
                if i > 0 {
                    assert(old_free[i - 1] == nf[i]);
                }
            }
            assert forall|i: int, j: int|
                0 <= i < nf.len() && 0 <= j < nf.len() && i != j implies nf[i] != nf[j] by {
                if i > 0 && j > 0 {
                    assert(nf[i] == old_free[i - 1]);
                    assert(nf[j] == old_free[j - 1]);
                } else if i == 0 {
                    assert(old_free.contains(nf[j]));
                } else {
                    assert(old_free.contains(nf[i]));
                }
            }
            assert forall|i: int| 0 <= i < nf.len() implies #[trigger] slinked_at(o, nf, i) by {
                if i > 0 {
                    assert(slinked_at(old_ob.orders@, old_free, i - 1));
                    assert(nf[i] == old_free[i - 1]);
                    assert(old_free.contains(nf[i]));
                }
            }
            assert forall|i: int| 0 <= i < nf.len() implies (#[trigger] o[nf[i] as int]).status.is_cancelled() by {
                if i > 0 {
                    assert(nf[i] == old_free[i - 1]);
                    assert(old_free.contains(nf[i]));
                }
            }
            assert forall|i: int| 0 <= i < ob.bids@.len() implies #[trigger] o[ob.bids@[i] as int]
                == old_ob.orders@[ob.bids@[i] as int] by {
                assert(ob.bids@.contains(ob.bids@[i]));
            }
            assert forall|i: int| 0 <= i < ob.asks@.len() implies #[trigger] o[ob.asks@[i] as int]
                == old_ob.orders@[ob.asks@[i] as int] by {
                assert(ob.asks@.contains(ob.asks@[i]));
            }
            lemma_list_frame(old_ob.orders@, o, ob.bids@, ob.bid_head);
            lemma_list_frame(old_ob.orders@, o, ob.asks@, ob.ask_head);
        }
    }
}

/// Takes slot `index` out of the list of one side (`bid` names it), joining
/// its neighbours. The slot keeps its own links and is then on no list.
pub(crate) fn unlink_node(ob: &mut Orderbook, index: u32, bid: bool)
    requires
        old(ob).links_wf(),
        old(ob).side_list(bid).contains(index),
    ensures
        final(ob).links_wf(),
        same_header(*final(ob), *old(ob)),
        final(ob).free@ == old(ob).free@,
        final(ob).free_head == old(ob).free_head,
        final(ob).active_orders == old(ob).active_orders,
        final(ob).side_list(bid) == old(ob).side_list(bid).remove(
            old(ob).side_list(bid).index_of(index),
        ),
        final(ob).side_list(!bid) == old(ob).side_list(!bid),
        final(ob).orders@.len() == old(ob).orders@.len(),
        forall|i: int|
            0 <= i < MAX_ORDERS ==> (#[trigger] final(ob).orders@[i]).same_order(
                old(ob).orders@[i],
            ),
        final(ob).orders@[index as int] == old(ob).orders@[index as int],
        forall|i: int|
            0 <= i < MAX_ORDERS && !old(ob).side_list(bid).contains(i as u32)
                ==> #[trigger] final(ob).orders@[i] == old(ob).orders@[i],
{
    let ghost old_ob = *ob;
    let ghost o0 = ob.orders@;
    let ghost l = ob.side_list(bid);
    let ghost other = ob.side_list(!bid);
    let ghost k = l.index_of(index);
    proof {
        assert(dlinked_at(o0, l, k));
        if k > 0 {
            assert(l[k - 1] < MAX_ORDERS);
        }
        if k + 1 < l.len() {
            assert(l[k + 1] < MAX_ORDERS);
        }
    }
    let p = ob.orders[index as usize].prev;
    let n = ob.orders[index as usize].next;
    if p != SENTINEL {
        ob.orders[p as usize].next = n;
    } else {
        if bid {
            ob.bid_head = n;
        } else {
            ob.ask_head = n;
        }
    }
    if n != SENTINEL {
        ob.orders[n as usize].prev = p;
    }
    proof {
        lemma_remove_at(l, k);
        let l2 = l.remove(k);
        if bid {
            ob.bids@ = l2;
        } else {
            ob.asks@ = l2;
        }
        let o = ob.orders@;
        // which slots changed
        assert(k > 0 ==> l.contains(l[k - 1]) && l[k - 1] != index);
        assert(k + 1 < l.len() ==> l.contains(l[k + 1]) && l[k + 1] != index);
        assert forall|i: int| 0 <= i < MAX_ORDERS implies (#[trigger] o[i]).same_order(o0[i]) by {}
        assert forall|i: int|
            0 <= i < MAX_ORDERS && !l.contains(i as u32) implies #[trigger] o[i] == o0[i] by {
            assert(k > 0 ==> l.contains(l[k - 1]));
            assert(k + 1 < l.len() ==> l.contains(l[k + 1]));
        }
        assert(o[index as int] == o0[index as int]);
        // the other lists are untouched
        assert forall|i: int| 0 <= i < other.len() implies #[trigger] o[other[i] as int]
            == o0[other[i] as int] by {
            assert(other.contains(other[i]));
            assert(other[i] < MAX_ORDERS);
        }
        assert forall|i: int| 0 <= i < ob.free@.len() implies #[trigger] o[ob.free@[i] as int]
            == o0[ob.free@[i] as int] by {
            assert(ob.free@.contains(ob.free@[i]));
            assert(ob.free@[i] < MAX_ORDERS);
        }
        lemma_list_frame(o0, o, other, if bid { ob.ask_head } else { ob.bid_head });
        lemma_list_frame(o0, o, ob.free@, ob.free_head);
        // the shortened list
        assert forall|i: int| 0 <= i < l2.len() implies #[trigger] dlinked_at(o, l2, i) by {
            if i < k - 1 {
                assert(dlinked_at(o0, l, i));
                assert(l2[i] == l[i]);
                assert(l2[i + 1] == l[i + 1]);
                if i > 0 {
                    assert(l2[i - 1] == l[i - 1]);
                }
            } else if i == k - 1 {
                assert(dlinked_at(o0, l, i));
                assert(l2[i] == l[i]);
                if i > 0 {
                    assert(l2[i - 1] == l[i - 1]);
                }
                if i + 1 < l2.len() {
                    assert(l2[i + 1] == l[k + 1]);
                }
            } else if i == k {
                assert(dlinked_at(o0, l, k + 1));
                assert(l2[i] == l[k + 1]);
                if i > 0 {
                    assert(l2[i - 1] == l[k - 1]);
                }
                if i + 1 < l2.len() {
                    assert(l2[i + 1] == l[k + 2]);
                }
            } else {
                assert(dlinked_at(o0, l, i + 1));
                assert(l2[i] == l[i + 1]);
                assert(l2[i - 1] == l[i]);
                if i + 1 < l2.len() {
                    assert(l2[i + 1] == l[i + 2]);
                }
                if k > 0 {
                    assert(l[i + 1] != l[k - 1]);
                }
                assert(l[i + 1] != l[k + 1]);
            }
        }
        assert forall|i: int, j: int| 0 <= i < j < l2.len() implies (if bid {
            price_at(o, l2, i) >= price_at(o, l2, j)
        } else {
            price_at(o, l2, i) <= price_at(o, l2, j)
        }) by {
            let ii = if i < k { i } else { i + 1 };
            let jj = if j < k { j } else { j + 1 };
            assert(l2[i] == l[ii]);
            assert(l2[j] == l[jj]);
            assert(o[l2[i] as int].same_order(o0[l2[i] as int]));
            assert(o[l2[j] as int].same_order(o0[l2[j] as int]));
            assert(price_at(o0, l, ii) == price_at(o, l2, i));
            assert(price_at(o0, l, jj) == price_at(o, l2, j));
        }
        assert forall|i: int| 0 <= i < l2.len() implies {
            &&& (#[trigger] o[l2[i] as int]).status.is_open()
            &&& o[l2[i] as int].side.is_bid() == bid
        } by {
            let ii = if i < k { i } else { i + 1 };
            assert(l2[i] == l[ii]);
            assert(o[l2[i] as int].same_order(o0[l2[i] as int]));
            assert(o0[l[ii] as int].status.is_open());
        }
        // disjointness
        assert forall|x: u32| #[trigger] l2.contains(x) implies l.contains(x) by {}
        if l2.len() > 0 {
            assert(l2[0] == if k == 0 { l[1] } else { l[0] });
        }
    }
}

/// Takes slot `order_idx` off the list of side `order_side` and returns it to
/// the free list.
pub fn unstitch_and_free(ob: &mut Orderbook, order_idx: u32, order_side: OrderSide)
    requires
        old(ob).links_wf(),
        old(ob).side_list(order_side.is_bid()).contains(order_idx),
    ensures
        final(ob).links_wf(),
        same_header(*final(ob), *old(ob)),
        final(ob).side_list(order_side.is_bid()) == old(ob).side_list(order_side.is_bid()).remove(
            old(ob).side_list(order_side.is_bid()).index_of(order_idx),
        ),
        final(ob).side_list(!order_side.is_bid()) == old(ob).side_list(!order_side.is_bid()),
        final(ob).free@ == seq![order_idx].add(old(ob).free@),
        final(ob).active_orders == old(ob).active_orders - 1,
        final(ob).orders@.len() == old(ob).orders@.len(),
        final(ob).orders@[order_idx as int].status.is_cancelled(),
        final(ob).orders@[order_idx as int].prev == SENTINEL,
        final(ob).orders@[order_idx as int].same_terms(old(ob).orders@[order_idx as int]),
        forall|i: int|
            0 <= i < MAX_ORDERS && i != order_idx ==> (#[trigger] final(ob).orders@[i]).same_order(
                old(ob).orders@[i],
            ),
        old(ob).wf() ==> final(ob).wf(),
{
    let ghost old_ob = *ob;
    proof {
        let l = ob.side_list(order_side.is_bid());
        let i = l.index_of(order_idx);
        assert(l[i] < MAX_ORDERS);
    }
    unlink_node(ob, order_idx, order_side.val == 0);
    proof {
        lemma_remove_at(old_ob.side_list(order_side.is_bid()), old_ob.side_list(order_side.is_bid()).index_of(order_idx));
    }
    push_free_node(ob, order_idx);
    proof {
        if old_ob.wf() {
            assert forall|i: u32| i < MAX_ORDERS implies #[trigger] ob.bids@.contains(i)
                || ob.asks@.contains(i) || ob.free@.contains(i) by {
                assert(old_ob.bids@.contains(i) || old_ob.asks@.contains(i) || old_ob.free@.contains(i));
                if i == order_idx {
                    assert(ob.free@[0] == i);
                } else if old_ob.free@.contains(i) {
                    let j = choose|j: int| 0 <= j < old_ob.free@.len() && old_ob.free@[j] == i;
                    assert(ob.free@[j + 1] == i);
                }
            }
        }
    }
}

/// True when a new order at `new_price` goes ahead of a resting order at
/// `price` on the side that `bid` names: strictly better prices go first, so
/// an order joins the end of the queue of orders at its own price.
pub open spec fn goes_before(new_price: u64, price: u64, bid: bool) -> bool {
    if bid {
        new_price > price
    } else {
        new_price < price
    }
}

/// The position at which an order at `new_price` joins list `l`: after every
/// order that it does not go ahead of.
pub open spec fn insertion_point(orders: Seq<OrderNode>, l: Seq<u32>, new_price: u64, bid: bool) -> int
    decreases l.len(),
{
    if l.len() == 0 {
        0
    } else if goes_before(new_price, orders[l[0] as int].price.val, bid) {
        0
    } else {
        1 + insertion_point(orders, l.drop_first(), new_price, bid)
    }
}

/// The insertion point is the first position whose order the new one goes ahead of.
pub proof fn lemma_insertion_point(
    orders: Seq<OrderNode>,
    l: Seq<u32>,
    new_price: u64,
    bid: bool,
    k: int,
)
    requires
        0 <= k <= l.len(),
        forall|j: int| 0 <= j < k ==> !goes_before(new_price, #[trigger] price_at(orders, l, j), bid),
        k < l.len() ==> goes_before(new_price, price_at(orders, l, k), bid),
    ensures
        insertion_point(orders, l, new_price, bid) == k,
    decreases k,
{
    if k > 0 {
        assert(!goes_before(new_price, price_at(orders, l, 0), bid));
        let t = l.drop_first();
        assert forall|j: int| 0 <= j < k - 1 implies !goes_before(
            new_price,
            #[trigger] price_at(orders, t, j),
            bid,
        ) by {
            assert(price_at(orders, t, j) == price_at(orders, l, j + 1));
        }
        if k - 1 < t.len() {
            assert(price_at(orders, t, k - 1) == price_at(orders, l, k));
        }
        lemma_insertion_point(orders, t, new_price, bid, k - 1);
    }
}

/// The insertion point depends only on the prices of the list's orders.
pub proof fn lemma_insertion_point_frame(
    o1: Seq<OrderNode>,
    o2: Seq<OrderNode>,
    l: Seq<u32>,
    new_price: u64,
    bid: bool,
)
    requires
        forall|i: int| 0 <= i < l.len() ==> (#[trigger] o1[l[i] as int]).price == o2[l[i] as int].price,
    ensures
        insertion_point(o1, l, new_price, bid) == insertion_point(o2, l, new_price, bid),
    decreases l.len(),
{
    if l.len() > 0 {
        assert(o1[l[0] as int].price == o2[l[0] as int].price);
        let t = l.drop_first();
        assert forall|i: int| 0 <= i < t.len() implies (#[trigger] o1[t[i] as int]).price == o2[t[
            i
        ] as int].price by {
            assert(t[i] == l[i + 1]);
            assert(o1[l[i + 1] as int].price == o2[l[i + 1] as int].price);
        }
        lemma_insertion_point_frame(o1, o2, t, new_price, bid);
    }
}

/// Price-time priority of a new order: it queues behind every resting order
/// of its side at a better or equal price, and, in a sorted list, ahead of
/// every order at a worse price.
pub proof fn lemma_insertion_point_priority(
    orders: Seq<OrderNode>,
    l: Seq<u32>,
    new_price: u64,
    bid: bool,
)
    ensures
        0 <= insertion_point(orders, l, new_price, bid) <= l.len(),
        forall|j: int|
            0 <= j < insertion_point(orders, l, new_price, bid) ==> !goes_before(
                new_price,
                #[trigger] price_at(orders, l, j),
                bid,
            ),
        sorted_for(orders, l, bid) ==> forall|j: int|
            insertion_point(orders, l, new_price, bid) <= j < l.len() ==> goes_before(
                new_price,
                #[trigger] price_at(orders, l, j),
                bid,
            ),
    decreases l.len(),
{
    if l.len() > 0 {
        let t = l.drop_first();
        lemma_insertion_point_priority(orders, t, new_price, bid);
        let p = insertion_point(orders, l, new_price, bid);
        assert forall|j: int| 0 <= j < t.len() implies price_at(orders, t, j) == price_at(
            orders,
            l,
            j + 1,
        ) by {}
        if !goes_before(new_price, price_at(orders, l, 0), bid) {
            assert forall|j: int| 0 <= j < p implies !goes_before(
                new_price,
                #[trigger] price_at(orders, l, j),
                bid,
            ) by {
                if j > 0 {
                    assert(price_at(orders, t, j - 1) == price_at(orders, l, j));
                }
            }
            if sorted_for(orders, l, bid) {
                assert(sorted_for(orders, t, bid)) by {
                    assert forall|i: int, j: int| 0 <= i < j < t.len() implies (if bid {
                        price_at(orders, t, i) >= price_at(orders, t, j)
                    } else {
                        price_at(orders, t, i) <= price_at(orders, t, j)
                    }) by {
                        assert(price_at(orders, t, i) == price_at(orders, l, i + 1));
                        assert(price_at(orders, t, j) == price_at(orders, l, j + 1));
                    }
                }
                assert forall|j: int| p <= j < l.len() implies goes_before(
                    new_price,
                    #[trigger] price_at(orders, l, j),
                    bid,
                ) by {
                    assert(price_at(orders, t, j - 1) == price_at(orders, l, j));
                }
            }
        } else {
            if sorted_for(orders, l, bid) {
                assert forall|j: int| 0 <= j < l.len() implies goes_before(
                    new_price,
                    #[trigger] price_at(orders, l, j),
                    bid,
                ) by {
                    if j > 0 {
                        assert(if bid {
                            price_at(orders, l, 0) >= price_at(orders, l, j)
                        } else {
                            price_at(orders, l, 0) <= price_at(orders, l, j)
                        });
                    }
                }
            }
        }
    }
}

/// Taking the head of the free list and putting it straight back leaves the
/// free list, its head and the order count as they were.
pub proof fn lemma_pop_then_push(ob0: Orderbook, ob1: Orderbook, ob2: Orderbook, r: Option<u32>)
    requires
        ob0.links_wf(),
        popped_free(ob0, ob1, r),
        r is Some,
        pushed_free(ob1, ob2, r->Some_0),
    ensures
        ob2.free@ == ob0.free@,
        ob2.free_head == ob0.free_head,
        ob2.active_orders == ob0.active_orders,
        ob2.bids@ == ob0.bids@,
        ob2.asks@ == ob0.asks@,
{
    assert(ob0.free@.len() > 0);
    assert(seq![ob0.free@[0]].add(ob0.free@.drop_first()) =~= ob0.free@);
}

/// Putting any slot at the head of the free list and taking the head straight
/// off again gives back that slot, and leaves the free head, the free list
/// and the order count as they were; the slot points at the old free head.
pub proof fn lemma_push_then_pop(ob0: Orderbook, ob1: Orderbook, ob2: Orderbook, index: u32, r: Option<u32>)
    requires
        index < MAX_ORDERS,
        pushed_raw(ob0, ob1, index),
        popped_raw(ob1, ob2, r),
    ensures
        r == Some(index),
        ob2.free_head == ob0.free_head,
        ob2.free@ == ob0.free@,
        ob2.active_orders == ob0.active_orders,
        ob2.orders@[index as int].next == ob0.free_head,
        ob2.bids@ == ob0.bids@,
        ob2.asks@ == ob0.asks@,
{
    assert(seq![index].add(ob0.free@).drop_first() =~= ob0.free@);
}

/// Price-time priority of an insertion into a sorted side: the new order
/// lands behind every resting order whose price is at least as good as its own
/// (an equal price included, so an earlier order keeps its place in the queue)
/// and ahead of every resting order whose price is worse.
pub proof fn lemma_insertion_keeps_time_priority(
    orders: Seq<OrderNode>,
    l: Seq<u32>,
    new_price: u64,
    bid: bool,
)
    requires
        sorted_for(orders, l, bid),
    ensures
        0 <= insertion_point(orders, l, new_price, bid) <= l.len(),
        forall|j: int|
            0 <= j < insertion_point(orders, l, new_price, bid) ==> if bid {
                #[trigger] price_at(orders, l, j) >= new_price
            } else {
                price_at(orders, l, j) <= new_price
            },
        forall|j: int|
            insertion_point(orders, l, new_price, bid) <= j < l.len() ==> if bid {
                #[trigger] price_at(orders, l, j) < new_price
            } else {
                price_at(orders, l, j) > new_price
            },
{
    lemma_insertion_point_priority(orders, l, new_price, bid);
}

/// Links slot `new_index`, which is on no list, into the list of side `side`
/// at its price-time position: behind every order at a better or equal price,
/// ahead of every order at a worse price.
#[verifier::spinoff_prover]
#[verifier::rlimit(80)]
pub fn insert_sorted(ob: &mut Orderbook, new_index: u32, side: OrderSide)
    requires
        old(ob).links_wf(),
        new_index < MAX_ORDERS,
        !old(ob).bids@.contains(new_index),
        !old(ob).asks@.contains(new_index),
        !old(ob).free@.contains(new_index),
        old(ob).orders@[new_index as int].status.is_open(),
        old(ob).orders@[new_index as int].side.is_bid() == side.is_bid(),
    ensures
        final(ob).links_wf(),
        same_header(*final(ob), *old(ob)),
        final(ob).free@ == old(ob).free@,
        final(ob).free_head == old(ob).free_head,
        final(ob).active_orders == old(ob).active_orders,
        final(ob).side_list(side.is_bid()) == old(ob).side_list(side.is_bid()).insert(
            insertion_point(
                old(ob).orders@,
                old(ob).side_list(side.is_bid()),
                old(ob).orders@[new_index as int].price.val,
                side.is_bid(),
            ),
            new_index,
        ),
        0 <= insertion_point(
            old(ob).orders@,
            old(ob).side_list(side.is_bid()),
            old(ob).orders@[new_index as int].price.val,
            side.is_bid(),
        ) <= old(ob).side_list(side.is_bid()).len(),
        final(ob).side_list(!side.is_bid()) == old(ob).side_list(!side.is_bid()),
        final(ob).orders@.len() == old(ob).orders@.len(),
        forall|i: int|
            0 <= i < MAX_ORDERS ==> (#[trigger] final(ob).orders@[i]).same_order(
                old(ob).orders@[i],
            ),
        forall|i: int|
            0 <= i < MAX_ORDERS && i != new_index && !old(ob).side_list(side.is_bid()).contains(
                i as u32,
            ) ==> #[trigger] final(ob).orders@[i] == old(ob).orders@[i],
{
    let ghost o0 = ob.orders@;
    let ghost bid = side.is_bid();
    let ghost l = ob.side_list(bid);
    let ghost other = ob.side_list(!bid);
    let mut curr_idx = if side == OrderSide::bid() {
        ob.bid_head
    } else {
        ob.ask_head
    };
    let mut prev_idx = SENTINEL;
    let new_price = ob.orders[new_index as usize].price.val;
    let ghost mut k: int = 0;
    proof {
        if l.len() > 0 {
            assert(dlinked_at(o0, l, 0));
        }
    }
    while curr_idx != SENTINEL
        invariant
            *ob == *old(ob),
            ob.links_wf(),
            o0 == ob.orders@,
            l == ob.side_list(bid),
            bid == (side.val == 0),
            new_price == o0[new_index as int].price.val,
            0 <= k <= l.len(),
            curr_idx == (if k < l.len() { l[k] } else { SENTINEL }),
            prev_idx == prev_in(l, k),
            forall|j: int| 0 <= j < k ==> !goes_before(new_price, #[trigger] price_at(o0, l, j), bid),
        ensures
            0 <= k <= l.len(),
            curr_idx == (if k < l.len() { l[k] } else { SENTINEL }),
            prev_idx == prev_in(l, k),
            forall|j: int| 0 <= j < k ==> !goes_before(new_price, #[trigger] price_at(o0, l, j), bid),
            k < l.len() ==> goes_before(new_price, price_at(o0, l, k), bid),
        decreases l.len() - k,
    {
        proof {
            if k >= l.len() {
                assert(false);
            }
            assert(dlinked_at(o0, l, k));
            assert(l[k] < MAX_ORDERS);
        }
        let curr_price = ob.orders[curr_idx as usize].price.val;
        let curr_next = ob.orders[curr_idx as usize].next;
        let should_insert_before = if side == OrderSide::bid() {
            new_price > curr_price
        } else {
            new_price < curr_price
        };
        if should_insert_before {
            break;
        }
        prev_idx = curr_idx;
        curr_idx = curr_next;
        proof {
            k = k + 1;
            if k < l.len() {
                assert(l[k] < MAX_ORDERS);
            }
        }
    }
    proof {
        lemma_insertion_point(o0, l, new_price, bid, k);
        lemma_insert_at(l, k, new_index);
        if k > 0 {
            assert(l[k - 1] < MAX_ORDERS);
            assert(l.contains(l[k - 1]));
        }
        if k < l.len() {
            assert(l.contains(l[k]));
        }
    }
    ob.orders[new_index as usize].next = curr_idx;
    ob.orders[new_index as usize].prev = prev_idx;
    if prev_idx == SENTINEL {
        if side == OrderSide::bid() {
            ob.bid_head = new_index;
        } else {
            ob.ask_head = new_index;
        }
    } else {
        ob.orders[prev_idx as usize].next = new_index;
    }
    if curr_idx != SENTINEL {
        ob.orders[curr_idx as usize].prev = new_index;
    }
    proof {
        let l2 = l.insert(k, new_index);
        if bid {
            ob.bids@ = l2;
        } else {
            ob.asks@ = l2;
        }
        let o = ob.orders@;
        assert forall|i: int| 0 <= i < MAX_ORDERS implies (#[trigger] o[i]).same_order(o0[i]) by {}
        assert forall|i: int|
            0 <= i < MAX_ORDERS && i != new_index && !l.contains(i as u32) implies #[trigger] o[i]
            == o0[i] by {}
        // the other lists are untouched
        assert forall|i: int| 0 <= i < other.len() implies #[trigger] o[other[i] as int]
            == o0[other[i] as int] by {
            assert(other.contains(other[i]));
            assert(other[i] < MAX_ORDERS);
        }
        assert forall|i: int| 0 <= i < ob.free@.len() implies #[trigger] o[ob.free@[i] as int]
            == o0[ob.free@[i] as int] by {
            assert(ob.free@.contains(ob.free@[i]));
            assert(ob.free@[i] < MAX_ORDERS);
        }
        lemma_list_frame(o0, o, other, if bid { ob.ask_head } else { ob.bid_head });
        lemma_list_frame(o0, o, ob.free@, ob.free_head);
        // the longer list
        assert forall|i: int| 0 <= i < l2.len() implies #[trigger] dlinked_at(o, l2, i) by {
            if i < k - 1 {
                assert(dlinked_at(o0, l, i));
                assert(l2[i + 1] == l[i + 1]);
                if i > 0 {
                    assert(l2[i - 1] == l[i - 1]);
                }
                assert(l[i] != l[k - 1]);
                if k < l.len() {
                    assert(l[i] != l[k]);
                }
            } else if i == k - 1 {
                assert(dlinked_at(o0, l, i));
                if i > 0 {
                    assert(l2[i - 1] == l[i - 1]);
                }
                if k < l.len() {
                    assert(l[i] != l[k]);
                }
            } else if i == k {
                if i > 0 {
                    assert(l2[i - 1] == l[k - 1]);
                }
                if i + 1 < l2.len() {
                    assert(l2[i + 1] == l[k]);
                }
            } else if i == k + 1 {
                assert(dlinked_at(o0, l, k));
                assert(l2[i] == l[k]);
                if i + 1 < l2.len() {
                    assert(l2[i + 1] == l[k + 1]);
                }
                if k > 0 {
                    assert(l[k] != l[k - 1]);
                }
            } else {
                assert(dlinked_at(o0, l, i - 1));
                assert(l2[i] == l[i - 1]);
                assert(l2[i - 1] == l[i - 2]);
                if i + 1 < l2.len() {
                    assert(l2[i + 1] == l[i]);
                }
                if k > 0 {
                    assert(l[i - 1] != l[k - 1]);
                }
                assert(l[i - 1] != l[k]);
            }
        }
        assert forall|i: int, j: int| 0 <= i < j < l2.len() implies (if bid {
            price_at(o, l2, i) >= price_at(o, l2, j)
        } else {
            price_at(o, l2, i) <= price_at(o, l2, j)
        }) by {
            assert(o[l2[i] as int].same_order(o0[l2[i] as int]));
            assert(o[l2[j] as int].same_order(o0[l2[j] as int]));
            if i == k {
                assert(l2[j] == l[j - 1]);
                assert(price_at(o0, l, j - 1) == price_at(o, l2, j));
                assert(goes_before(new_price, price_at(o0, l, k), bid));
                if j - 1 > k {
                    assert(if bid {
                        price_at(o0, l, k) >= price_at(o0, l, j - 1)
                    } else {
                        price_at(o0, l, k) <= price_at(o0, l, j - 1)
                    });
                }
            } else if j == k {
                assert(l2[i] == l[i]);
                assert(price_at(o0, l, i) == price_at(o, l2, i));
                assert(!goes_before(new_price, price_at(o0, l, i), bid));
            } else {
                let ii = if i < k { i } else { i - 1 };
                let jj = if j < k { j } else { j - 1 };
                assert(l2[i] == l[ii]);
                assert(l2[j] == l[jj]);
                assert(price_at(o0, l, ii) == price_at(o, l2, i));
                assert(price_at(o0, l, jj) == price_at(o, l2, j));
            }
        }
        assert forall|i: int| 0 <= i < l2.len() implies {
            &&& (#[trigger] o[l2[i] as int]).status.is_open()
            &&& o[l2[i] as int].side.is_bid() == bid
        } by {
            assert(o[l2[i] as int].same_order(o0[l2[i] as int]));
            if i < k {
                assert(l2[i] == l[i]);
                assert(o0[l[i] as int].status.is_open());
            } else if i > k {
                assert(l2[i] == l[i - 1]);
                assert(o0[l[i - 1] as int].status.is_open());
            }
        }
    }
}

} // verus!
