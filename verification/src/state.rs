use vstd::prelude::*;

use crate::quantities::{BaseLots, Ticks};

verus! {

/// Number of order slots in one order book.
pub const MAX_ORDERS: usize = 1024;

/// The "no node" value of every link (`next`, `prev`, the list heads).
pub const SENTINEL: u32 = 4294967295u32;

/// A 32-byte account address.
#[derive(Clone, Copy, Debug, PartialEq, Eq)]
pub struct Pubkey {
    pub bytes: [u8; 32],
}

impl Pubkey {
    /// Byte-wise equality of two addresses.
    pub fn equals(&self, other: &Pubkey) -> (r: bool)
        ensures
            r == (*self == *other),
    {
        broadcast use vstd::array::group_array_axioms;

        let mut i: usize = 0;
        while i < 32
            invariant
                0 <= i <= 32,
                forall|j: int| 0 <= j < i ==> self.bytes@[j] == other.bytes@[j],
            decreases 32 - i,
        {
            if self.bytes[i] != other.bytes[i] {
                assert(self.bytes@[i as int] != other.bytes@[i as int]);
                return false;
            }
            i = i + 1;
        }
        assert(self.bytes =~= other.bytes);
        true
    }
}

/// Which side of the book an order rests on: `0` is a bid, anything else an ask.
#[derive(Clone, Copy, Debug, PartialEq, Eq, Structural)]
pub struct OrderSide {
    pub val: u8,
}

impl OrderSide {
    pub open spec fn is_bid(self) -> bool {
        self.val == 0
    }

    /// The bid side.
    pub fn bid() -> (r: Self)
        ensures
            r.val == 0,
    {
        OrderSide { val: 0 }
    }

    /// The ask side.
    pub fn ask() -> (r: Self)
        ensures
            r.val == 1,
    {
        OrderSide { val: 1 }
    }

    /// The other side of the book: a bid becomes an ask, anything else a bid.
    pub fn opposite(&self) -> (r: Self)
        ensures
            r.val == (if self.val == 0 { 1u8 } else { 0u8 }),
    {
        if self.val == 0 {
            OrderSide { val: 1 }
        } else {
            OrderSide { val: 0 }
        }
    }
}

/// Life-cycle state of an order slot.
#[derive(Clone, Copy, Debug, PartialEq, Eq, Structural)]
pub struct OrderStatus {
    pub val: u8,
}

impl OrderStatus {
    pub open spec fn is_open(self) -> bool {
        self.val == 0
    }

    pub open spec fn is_cancelled(self) -> bool {
        self.val == 3
    }

    /// A resting order.
    pub fn open() -> (r: Self)
        ensures
            r.val == 0,
    {
        OrderStatus { val: 0 }
    }

    /// A completely filled order.
    pub fn filled() -> (r: Self)
        ensures
            r.val == 1,
    {
        OrderStatus { val: 1 }
    }

    /// A slot that holds no live order.
    pub fn cancelled() -> (r: Self)
        ensures
            r.val == 3,
    {
        OrderStatus { val: 3 }
    }
}

/// One order slot of the book.
#[derive(Clone, Copy, Debug, PartialEq)]
pub struct OrderNode {
    pub user: Pubkey,
    pub order_id: u64,
    pub price: Ticks,
    pub quantity: BaseLots,
    pub filled_quantity: BaseLots,
    pub timestamp: i64,
    pub side: OrderSide,
    pub status: OrderStatus,
    pub next: u32,
    pub prev: u32,
}

impl OrderNode {
    /// A slot whose every byte is zero, as a freshly allocated account holds it.
    pub fn zeroed() -> (r: Self)
        ensures
            r.order_id == 0,
            r.price.val == 0,
            r.quantity.val == 0,
            r.filled_quantity.val == 0,
            r.timestamp == 0,
            r.side.val == 0,
            r.status.val == 0,
            r.next == 0,
            r.prev == 0,
            forall|i: int| 0 <= i < 32 ==> r.user.bytes@[i] == 0,
    {
        let r = OrderNode {
            user: Pubkey { bytes: [0u8; 32] },
            order_id: 0,
            price: Ticks { val: 0 },
            quantity: BaseLots { val: 0 },
            filled_quantity: BaseLots { val: 0 },
            timestamp: 0,
            side: OrderSide { val: 0 },
            status: OrderStatus { val: 0 },
            next: 0,
            prev: 0,
        };
        proof {
            broadcast use vstd::array::group_array_axioms;
        }
        r
    }

    /// Everything of the order but its two links and its status.
    pub open spec fn same_terms(self, other: OrderNode) -> bool {
        &&& self.user == other.user
        &&& self.order_id == other.order_id
        &&& self.price == other.price
        &&& self.quantity == other.quantity
        &&& self.filled_quantity == other.filled_quantity
        &&& self.timestamp == other.timestamp
        &&& self.side == other.side
    }

    /// Everything of the order but its two links.
    pub open spec fn same_order(self, other: OrderNode) -> bool {
        &&& self.user == other.user
        &&& self.order_id == other.order_id
        &&& self.price == other.price
        &&& self.quantity == other.quantity
        &&& self.filled_quantity == other.filled_quantity
        &&& self.timestamp == other.timestamp
        &&& self.side == other.side
        &&& self.status == other.status
    }
}

/// The first index of a list, or `SENTINEL` for an empty one.
pub open spec fn head_of(l: Seq<u32>) -> u32 {
    if l.len() > 0 {
        l[0]
    } else {
        SENTINEL
    }
}

/// The index that follows position `i` of a list.
pub open spec fn next_in(l: Seq<u32>, i: int) -> u32 {
    if i + 1 < l.len() {
        l[i + 1]
    } else {
        SENTINEL
    }
}

/// The index that precedes position `i` of a list.
pub open spec fn prev_in(l: Seq<u32>, i: int) -> u32 {
    if i > 0 {
        l[i - 1]
    } else {
        SENTINEL
    }
}

/// Every index of the list names a slot of the book.
pub open spec fn in_range(l: Seq<u32>) -> bool {
    forall|i: int| 0 <= i < l.len() ==> (#[trigger] l[i]) < MAX_ORDERS
}

/// No index is on both lists.
pub open spec fn disjoint(a: Seq<u32>, b: Seq<u32>) -> bool {
    forall|x: u32| #![trigger a.contains(x)] #![trigger b.contains(x)] !(a.contains(x) && b.contains(x))
}

/// The links of the slot at position `i` of a doubly linked list.
pub open spec fn dlinked_at(orders: Seq<OrderNode>, l: Seq<u32>, i: int) -> bool {
    &&& orders[l[i] as int].next == next_in(l, i)
    &&& orders[l[i] as int].prev == prev_in(l, i)
}

/// The forward link of the slot at position `i` of a singly linked list.
pub open spec fn slinked_at(orders: Seq<OrderNode>, l: Seq<u32>, i: int) -> bool {
    orders[l[i] as int].next == next_in(l, i)
}

/// `head` and the `next`/`prev` links of the slots chain exactly the indices of `l`.
pub open spec fn dlinked(orders: Seq<OrderNode>, l: Seq<u32>, head: u32) -> bool {
    &&& head == head_of(l)
    &&& forall|i: int| 0 <= i < l.len() ==> #[trigger] dlinked_at(orders, l, i)
}

/// `head` and the `next` links of the slots chain exactly the indices of `l`.
pub open spec fn slinked(orders: Seq<OrderNode>, l: Seq<u32>, head: u32) -> bool {
    &&& head == head_of(l)
    &&& forall|i: int| 0 <= i < l.len() ==> #[trigger] slinked_at(orders, l, i)
}

/// The price of the slot at position `i` of a list.
pub open spec fn price_at(orders: Seq<OrderNode>, l: Seq<u32>, i: int) -> u64 {
    orders[l[i] as int].price.val
}

/// Best price first: descending for bids, ascending for asks; equal prices
/// keep their arrival order.
pub open spec fn sorted_for(orders: Seq<OrderNode>, l: Seq<u32>, bid: bool) -> bool {
    forall|i: int, j: int|
        0 <= i < j < l.len() ==> if bid {
            price_at(orders, l, i) >= price_at(orders, l, j)
        } else {
            price_at(orders, l, i) <= price_at(orders, l, j)
        }
}

/// Every slot of a side's list holds an open order of that side.
pub open spec fn open_orders_of(orders: Seq<OrderNode>, l: Seq<u32>, bid: bool) -> bool {
    forall|i: int|
        0 <= i < l.len() ==> {
            &&& (#[trigger] orders[l[i] as int]).status.is_open()
            &&& orders[l[i] as int].side.is_bid() == bid
        }
}

/// Every slot of the free list is marked cancelled.
pub open spec fn free_slots(orders: Seq<OrderNode>, l: Seq<u32>) -> bool {
    forall|i: int| 0 <= i < l.len() ==> (#[trigger] orders[l[i] as int]).status.is_cancelled()
}

/// An order book: a fixed array of slots threaded into three lists, the bids
/// (best price first), the asks (best price first) and the free slots.
pub struct Orderbook {
    pub market: Pubkey,
    pub outcome_mint: Pubkey,
    pub collateral_mint: Pubkey,
    pub bid_head: u32,
    pub ask_head: u32,
    pub free_head: u32,
    pub active_orders: u32,
    pub last_traded_price: u64,
    pub unclaimed_fees: u64,
    pub fee_rate_bps: u64,
    pub bump: u8,
    pub orders: Vec<OrderNode>,
    /// The slots of the bid list, head first.
    pub bids: Ghost<Seq<u32>>,
    /// The slots of the ask list, head first.
    pub asks: Ghost<Seq<u32>>,
    /// The slots of the free list, head first.
    pub free: Ghost<Seq<u32>>,
}

impl Orderbook {
    /// A book account whose every byte is zero, as it is allocated before its
    /// initialization: all slots zeroed, on no list.
    pub fn new_zeroed() -> (r: Self)
        ensures
            r.orders@.len() == MAX_ORDERS,
            forall|i: int|
                0 <= i < MAX_ORDERS ==> (#[trigger] r.orders@[i]).next == 0 && r.orders@[i].prev
                    == 0 && r.orders@[i].status.val == 0 && r.orders@[i].quantity.val == 0
                    && r.orders@[i].filled_quantity.val == 0 && r.orders@[i].price.val == 0,
            r.bid_head == 0,
            r.ask_head == 0,
            r.free_head == 0,
            r.active_orders == 0,
            r.last_traded_price == 0,
            r.unclaimed_fees == 0,
            r.fee_rate_bps == 0,
            r.bump == 0,
            r.bids@ == Seq::<u32>::empty(),
            r.asks@ == Seq::<u32>::empty(),
            r.free@ == Seq::<u32>::empty(),
    {
        let mut orders: Vec<OrderNode> = Vec::new();
        let mut i: usize = 0;
        while i < MAX_ORDERS
            invariant
                0 <= i <= MAX_ORDERS,
                orders@.len() == i,
                forall|j: int|
                    0 <= j < i ==> (#[trigger] orders@[j]).next == 0 && orders@[j].prev == 0
                        && orders@[j].status.val == 0 && orders@[j].quantity.val == 0
                        && orders@[j].filled_quantity.val == 0 && orders@[j].price.val == 0,
            decreases MAX_ORDERS - i,
        {
            orders.push(OrderNode::zeroed());
            i = i + 1;
        }
        Orderbook {
            market: Pubkey { bytes: [0u8; 32] },
            outcome_mint: Pubkey { bytes: [0u8; 32] },
            collateral_mint: Pubkey { bytes: [0u8; 32] },
            bid_head: 0,
            ask_head: 0,
            free_head: 0,
            active_orders: 0,
            last_traded_price: 0,
            unclaimed_fees: 0,
            fee_rate_bps: 0,
            bump: 0,
            orders,
            bids: Ghost(Seq::empty()),
            asks: Ghost(Seq::empty()),
            free: Ghost(Seq::empty()),
        }
    }

    /// The list of one side of the book.
    pub open spec fn side_list(&self, bid: bool) -> Seq<u32> {
        if bid {
            self.bids@
        } else {
            self.asks@
        }
    }

    /// The three lists are well formed; a slot may be on none of them (one
    /// that was taken from the free list and is being filled in).
    pub open spec fn links_wf(&self) -> bool {
        let o = self.orders@;
        &&& o.len() == MAX_ORDERS
        &&& in_range(self.bids@)
        &&& in_range(self.asks@)
        &&& in_range(self.free@)
        &&& self.bids@.no_duplicates()
        &&& self.asks@.no_duplicates()
        &&& self.free@.no_duplicates()
        &&& disjoint(self.bids@, self.asks@)
        &&& disjoint(self.bids@, self.free@)
        &&& disjoint(self.asks@, self.free@)
        &&& dlinked(o, self.bids@, self.bid_head)
        &&& dlinked(o, self.asks@, self.ask_head)
        &&& slinked(o, self.free@, self.free_head)
        &&& sorted_for(o, self.bids@, true)
        &&& sorted_for(o, self.asks@, false)
        &&& open_orders_of(o, self.bids@, true)
        &&& open_orders_of(o, self.asks@, false)
        &&& free_slots(o, self.free@)
        &&& self.active_orders + self.free@.len() == MAX_ORDERS
    }

    /// The best bid is below the best ask, when both sides have orders.
    pub open spec fn is_uncrossed(&self) -> bool {
        self.bids@.len() > 0 && self.asks@.len() > 0 ==> self.orders@[self.bids@[0] as int].price.val
            < self.orders@[self.asks@[0] as int].price.val
    }

    /// No resting order (bid or ask) is filled to its quantity or beyond.
    pub open spec fn orders_unfilled(&self) -> bool {
        &&& forall|i: int|
            0 <= i < self.bids@.len() ==> (#[trigger] self.orders@[self.bids@[i] as int]).filled_quantity.val
                < self.orders@[self.bids@[i] as int].quantity.val
        &&& forall|i: int|
            0 <= i < self.asks@.len() ==> (#[trigger] self.orders@[self.asks@[i] as int]).filled_quantity.val
                < self.orders@[self.asks@[i] as int].quantity.val
    }

    /// Well formed, and every slot is on exactly one of the three lists.
    pub open spec fn wf(&self) -> bool {
        &&& self.links_wf()
        &&& forall|i: u32|
            i < MAX_ORDERS ==> #[trigger] self.bids@.contains(i) || self.asks@.contains(i)
                || self.free@.contains(i)
    }
}

/// The fields of a book that no list operation touches.
pub open spec fn same_header(a: Orderbook, b: Orderbook) -> bool {
    &&& a.market == b.market
    &&& a.outcome_mint == b.outcome_mint
    &&& a.collateral_mint == b.collateral_mint
    &&& a.last_traded_price == b.last_traded_price
    &&& a.unclaimed_fees == b.unclaimed_fees
    &&& a.fee_rate_bps == b.fee_rate_bps
    &&& a.bump == b.bump
}

/// Two slots agree on what the list invariants read: links, price, status and side.
pub open spec fn same_shape(a: OrderNode, b: OrderNode) -> bool {
    &&& a.next == b.next
    &&& a.prev == b.prev
    &&& a.price == b.price
    &&& a.status == b.status
    &&& a.side == b.side
}

/// The slots of list `l` agree in `o1` and `o2` on what the list invariants read.
pub open spec fn unchanged_on(o1: Seq<OrderNode>, o2: Seq<OrderNode>, l: Seq<u32>) -> bool {
    forall|i: int| 0 <= i < l.len() ==> #[trigger] same_shape(o2[l[i] as int], o1[l[i] as int])
}

/// What a list's slots say of it does not change while its slots do not.
pub proof fn lemma_list_frame(o1: Seq<OrderNode>, o2: Seq<OrderNode>, l: Seq<u32>, head: u32)
    requires
        unchanged_on(o1, o2, l),
    ensures
        dlinked(o1, l, head) ==> dlinked(o2, l, head),
        slinked(o1, l, head) ==> slinked(o2, l, head),
        sorted_for(o1, l, true) ==> sorted_for(o2, l, true),
        sorted_for(o1, l, false) ==> sorted_for(o2, l, false),
        open_orders_of(o1, l, true) ==> open_orders_of(o2, l, true),
        open_orders_of(o1, l, false) ==> open_orders_of(o2, l, false),
        free_slots(o1, l) ==> free_slots(o2, l),
{
    if dlinked(o1, l, head) {
        assert forall|i: int| 0 <= i < l.len() implies #[trigger] dlinked_at(o2, l, i) by {
            assert(dlinked_at(o1, l, i));
            assert(same_shape(o2[l[i] as int], o1[l[i] as int]));
        }
    }
    if slinked(o1, l, head) {
        assert forall|i: int| 0 <= i < l.len() implies #[trigger] slinked_at(o2, l, i) by {
            assert(slinked_at(o1, l, i));
            assert(same_shape(o2[l[i] as int], o1[l[i] as int]));
        }
    }
    assert forall|i: int| 0 <= i < l.len() implies #[trigger] price_at(o2, l, i) == price_at(
        o1,
        l,
        i,
    ) by {
        assert(same_shape(o2[l[i] as int], o1[l[i] as int]));
    }
    assert forall|i: int| 0 <= i < l.len() implies (#[trigger] o2[l[i] as int]).status == o1[l[
        i
    ] as int].status && o2[l[i] as int].side == o1[l[i] as int].side by {
        assert(same_shape(o2[l[i] as int], o1[l[i] as int]));
    }
}

/// Changing what the list invariants do not read keeps a book well formed.
pub proof fn lemma_payload_update(a: Orderbook, b: Orderbook)
    requires
        a.links_wf(),
        b.bids@ == a.bids@,
        b.asks@ == a.asks@,
        b.free@ == a.free@,
        b.bid_head == a.bid_head,
        b.ask_head == a.ask_head,
        b.free_head == a.free_head,
        b.active_orders == a.active_orders,
        b.orders@.len() == a.orders@.len(),
        forall|i: int| 0 <= i < MAX_ORDERS ==> #[trigger] same_shape(b.orders@[i], a.orders@[i]),
    ensures
        b.links_wf(),
        a.wf() ==> b.wf(),
{
    assert forall|i: int| 0 <= i < a.bids@.len() implies #[trigger] same_shape(
        b.orders@[a.bids@[i] as int],
        a.orders@[a.bids@[i] as int],
    ) by {
        assert(a.bids@[i] < MAX_ORDERS);
    }
    assert forall|i: int| 0 <= i < a.asks@.len() implies #[trigger] same_shape(
        b.orders@[a.asks@[i] as int],
        a.orders@[a.asks@[i] as int],
    ) by {
        assert(a.asks@[i] < MAX_ORDERS);
    }
    assert forall|i: int| 0 <= i < a.free@.len() implies #[trigger] same_shape(
        b.orders@[a.free@[i] as int],
        a.orders@[a.free@[i] as int],
    ) by {
        assert(a.free@[i] < MAX_ORDERS);
    }
    lemma_list_frame(a.orders@, b.orders@, a.bids@, a.bid_head);
    lemma_list_frame(a.orders@, b.orders@, a.asks@, a.ask_head);
    lemma_list_frame(a.orders@, b.orders@, a.free@, a.free_head);
}

/// Changing a slot that is on no list keeps a book well formed.
pub proof fn lemma_detached_update(a: Orderbook, b: Orderbook, idx: u32)
    requires
        a.links_wf(),
        idx < MAX_ORDERS,
        !a.bids@.contains(idx),
        !a.asks@.contains(idx),
        !a.free@.contains(idx),
        b.bids@ == a.bids@,
        b.asks@ == a.asks@,
        b.free@ == a.free@,
        b.bid_head == a.bid_head,
        b.ask_head == a.ask_head,
        b.free_head == a.free_head,
        b.active_orders == a.active_orders,
        b.orders@.len() == a.orders@.len(),
        forall|i: int| 0 <= i < MAX_ORDERS && i != idx ==> #[trigger] b.orders@[i] == a.orders@[i],
    ensures
        b.links_wf(),
{
    assert forall|i: int| 0 <= i < a.bids@.len() implies #[trigger] same_shape(
        b.orders@[a.bids@[i] as int],
        a.orders@[a.bids@[i] as int],
    ) by {
        assert(a.bids@[i] < MAX_ORDERS);
        assert(a.bids@.contains(a.bids@[i]));
    }
    assert forall|i: int| 0 <= i < a.asks@.len() implies #[trigger] same_shape(
        b.orders@[a.asks@[i] as int],
        a.orders@[a.asks@[i] as int],
    ) by {
        assert(a.asks@[i] < MAX_ORDERS);
        assert(a.asks@.contains(a.asks@[i]));
    }
    assert forall|i: int| 0 <= i < a.free@.len() implies #[trigger] same_shape(
        b.orders@[a.free@[i] as int],
        a.orders@[a.free@[i] as int],
    ) by {
        assert(a.free@[i] < MAX_ORDERS);
        assert(a.free@.contains(a.free@[i]));
    }
    lemma_list_frame(a.orders@, b.orders@, a.bids@, a.bid_head);
    lemma_list_frame(a.orders@, b.orders@, a.asks@, a.ask_head);
    lemma_list_frame(a.orders@, b.orders@, a.free@, a.free_head);
}

/// In a well-formed book, `active_orders` counts the resting orders: the
/// bids and the asks.
pub proof fn lemma_active_orders_count(ob: Orderbook)
    requires
        ob.wf(),
    ensures
        ob.active_orders == ob.bids@.len() + ob.asks@.len(),
{
    let b = ob.bids@;
    let a = ob.asks@;
    let f = ob.free@;
    let all = b.add(a).add(f);
    assert forall|i: int| 0 <= i < all.len() implies (#[trigger] all[i]) < MAX_ORDERS by {
        if i < b.len() {
            assert(all[i] == b[i]);
        } else if i < b.len() + a.len() {
            assert(all[i] == a[i - b.len()]);
        } else {
            assert(all[i] == f[i - b.len() - a.len()]);
        }
    }
    let s = all.map_values(|x: u32| x as int);
    assert forall|i: int, j: int| 0 <= i < s.len() && 0 <= j < s.len() && i != j implies s[i]
        != s[j] by {
        assert(s[i] == all[i] as int);
        assert(s[j] == all[j] as int);
        if i < b.len() && j < b.len() {
        } else if b.len() <= i < b.len() + a.len() && b.len() <= j < b.len() + a.len() {
            assert(all[i] == a[i - b.len()]);
            assert(all[j] == a[j - b.len()]);
        } else if i >= b.len() + a.len() && j >= b.len() + a.len() {
            assert(all[i] == f[i - b.len() - a.len()]);
            assert(all[j] == f[j - b.len() - a.len()]);
        } else {
            let x = all[i];
            let y = all[j];
            if i < b.len() {
                assert(b.contains(x));
            } else if i < b.len() + a.len() {
                assert(a.contains(all[i])) by {
                    assert(all[i] == a[i - b.len()]);
                }
            } else {
                assert(f.contains(all[i])) by {
                    assert(all[i] == f[i - b.len() - a.len()]);
                }
            }
            if j < b.len() {
                assert(b.contains(y));
            } else if j < b.len() + a.len() {
                assert(a.contains(all[j])) by {
                    assert(all[j] == a[j - b.len()]);
                }
            } else {
                assert(f.contains(all[j])) by {
                    assert(all[j] == f[j - b.len() - a.len()]);
                }
            }
        }
    }
    assert(s.no_duplicates());
    s.unique_seq_to_set();
    let r = vstd::set_lib::set_int_range(0, MAX_ORDERS as int);
    assert forall|x: int| #[trigger] s.to_set().contains(x) <==> r.contains(x) by {
        if s.to_set().contains(x) {
            let i = choose|i: int| 0 <= i < s.len() && s[i] == x;
            assert(all[i] < MAX_ORDERS);
        }
        if r.contains(x) {
            let y = x as u32;
            assert(b.contains(y) || a.contains(y) || f.contains(y));
            if b.contains(y) {
                let i = choose|i: int| 0 <= i < b.len() && b[i] == y;
                assert(s[i] == x);
            } else if a.contains(y) {
                let i = choose|i: int| 0 <= i < a.len() && a[i] == y;
                assert(all[b.len() + i] == y);
                assert(s[b.len() + i] == x);
            } else {
                let i = choose|i: int| 0 <= i < f.len() && f[i] == y;
                assert(all[b.len() + a.len() + i] == y);
                assert(s[b.len() + a.len() + i] == x);
            }
        }
    }
    assert(s.to_set() =~= r);
    vstd::set_lib::lemma_int_range(0, MAX_ORDERS as int);
}

/// The first element of a list after an insertion.
pub proof fn lemma_insert_at_front(l: Seq<u32>, k: int, x: u32)
    requires
        0 <= k <= l.len(),
    ensures
        k == 0 ==> l.insert(k, x)[0] == x,
        k > 0 ==> l.insert(k, x)[0] == l[0],
{
    l.insert_ensures(k, x);
}

/// Taking position `k` out of a list of distinct slots.
pub proof fn lemma_remove_at(l: Seq<u32>, k: int)
    requires
        0 <= k < l.len(),
        l.no_duplicates(),
        in_range(l),
    ensures
        l.remove(k).len() == l.len() - 1,
        l.remove(k).no_duplicates(),
        in_range(l.remove(k)),
        forall|i: int| 0 <= i < k ==> #[trigger] l.remove(k)[i] == l[i],
        forall|i: int| k <= i < l.len() - 1 ==> #[trigger] l.remove(k)[i] == l[i + 1],
        forall|x: u32| #[trigger] l.remove(k).contains(x) <==> (l.contains(x) && x != l[k]),
{
    l.remove_ensures(k);
    let r = l.remove(k);
    assert forall|x: u32| #[trigger] r.contains(x) <==> (l.contains(x) && x != l[k]) by {
        if r.contains(x) {
            let i = choose|i: int| 0 <= i < r.len() && r[i] == x;
            if i < k {
                assert(l[i] == x);
            } else {
                assert(l[i + 1] == x);
            }
        }
        if l.contains(x) && x != l[k] {
            let i = choose|i: int| 0 <= i < l.len() && l[i] == x;
            if i < k {
                assert(r[i] == x);
            } else {
                assert(r[i - 1] == x);
            }
        }
    }
    assert forall|i: int| 0 <= i < r.len() implies (#[trigger] r[i]) < MAX_ORDERS by {
        if i < k {
            assert(r[i] == l[i]);
        } else {
            assert(r[i] == l[i + 1]);
        }
    }
    assert forall|i: int, j: int| 0 <= i < r.len() && 0 <= j < r.len() && i != j implies r[i]
        != r[j] by {
        let ii = if i < k { i } else { i + 1 };
        let jj = if j < k { j } else { j + 1 };
        assert(r[i] == l[ii]);
        assert(r[j] == l[jj]);
    }
}

/// Putting a slot that is not on a list of distinct slots at position `k` of it.
pub proof fn lemma_insert_at(l: Seq<u32>, k: int, x: u32)
    requires
        0 <= k <= l.len(),
        l.no_duplicates(),
        in_range(l),
        !l.contains(x),
        x < MAX_ORDERS,
    ensures
        l.insert(k, x).len() == l.len() + 1,
        l.insert(k, x).no_duplicates(),
        in_range(l.insert(k, x)),
        l.insert(k, x)[k] == x,
        forall|i: int| 0 <= i < k ==> #[trigger] l.insert(k, x)[i] == l[i],
        forall|i: int| k < i <= l.len() ==> #[trigger] l.insert(k, x)[i] == l[i - 1],
        forall|y: u32| #[trigger] l.insert(k, x).contains(y) <==> (l.contains(y) || y == x),
{
    l.insert_ensures(k, x);
    let r = l.insert(k, x);
    assert forall|i: int| k < i <= l.len() implies #[trigger] r[i] == l[i - 1] by {
        assert(r[(i - 1) + 1] == l[i - 1]);
    }
    assert forall|y: u32| #[trigger] r.contains(y) <==> (l.contains(y) || y == x) by {
        if r.contains(y) {
            let i = choose|i: int| 0 <= i < r.len() && r[i] == y;
            if i < k {
                assert(l[i] == y);
            } else if i > k {
                assert(l[i - 1] == y);
            }
        }
        if l.contains(y) {
            let i = choose|i: int| 0 <= i < l.len() && l[i] == y;
            if i < k {
                assert(r[i] == y);
            } else {
                assert(r[i + 1] == y);
            }
        }
        if y == x {
            assert(r[k] == y);
        }
    }
    assert forall|i: int| 0 <= i < r.len() implies (#[trigger] r[i]) < MAX_ORDERS by {
        if i < k {
            assert(r[i] == l[i]);
        } else if i > k {
            assert(r[i] == l[i - 1]);
        }
    }
    assert forall|i: int, j: int| 0 <= i < r.len() && 0 <= j < r.len() && i != j implies r[i]
        != r[j] by {
        if i == k {
            if j < k {
                assert(l.contains(l[j]));
            } else {
                assert(l.contains(l[j - 1]));
            }
        } else if j == k {
            if i < k {
                assert(l.contains(l[i]));
            } else {
                assert(l.contains(l[i - 1]));
            }
        } else {
            let ii = if i < k { i } else { i - 1 };
            let jj = if j < k { j } else { j - 1 };
            assert(r[i] == l[ii]);
            assert(r[j] == l[jj]);
        }
    }
}

/// A list of distinct slot indices that leaves out some slot is shorter than the book.
pub proof fn lemma_list_shorter_than_book(l: Seq<u32>, missing: u32)
    requires
        in_range(l),
        l.no_duplicates(),
        missing < MAX_ORDERS,
        !l.contains(missing),
    ensures
        l.len() < MAX_ORDERS,
{
    let l2 = l.push(missing);
    let s = l2.map_values(|x: u32| x as int);
    assert forall|i: int, j: int| 0 <= i < s.len() && 0 <= j < s.len() && i != j implies s[i]
        != s[j] by {
        if i < l.len() && j < l.len() {
        } else if i < l.len() {
            assert(l.contains(l[i]));
        } else if j < l.len() {
            assert(l.contains(l[j]));
        }
    }
    assert(s.no_duplicates());
    s.unique_seq_to_set();
    let r = vstd::set_lib::set_int_range(0, MAX_ORDERS as int);
    assert forall|x: int| s.to_set().contains(x) implies r.contains(x) by {
        let i = choose|i: int| 0 <= i < s.len() && s[i] == x;
        if i < l.len() {
            assert(l[i] < MAX_ORDERS);
        }
    }
    vstd::set_lib::lemma_int_range(0, MAX_ORDERS as int);
    vstd::set_lib::lemma_len_subset(s.to_set(), r);
}

/// A user's ledger in one market.
#[derive(Clone, Copy, Debug, PartialEq)]
pub struct UserAccount {
    pub owner: Pubkey,
    pub market: Pubkey,
    pub collateral_balance: u64,
    pub collateral_locked: u64,
    pub outcome_a_balance: u64,
    pub outcome_a_locked: u64,
    pub outcome_b_balance: u64,
    pub outcome_b_locked: u64,
    pub bump: u8,
}

/// A prediction market and its settlement state.
#[derive(Clone, Copy, Debug, PartialEq)]
pub struct Market {
    pub authority: Pubkey,
    pub market_id: u32,
    pub settlement_deadline: i64,
    pub collateral_vault: Pubkey,
    pub outcome_a_mint: Pubkey,
    pub outcome_b_mint: Pubkey,
    pub collateral_mint: Pubkey,
    pub is_settled: bool,
    pub winning_outcome: Option<u8>,
    pub reported_outcome: Option<u8>,
    pub report_timestamp: i64,
    pub challenge_end_timestamp: i64,
    pub total_collateral_locked: u64,
    pub bump: u8,
}

} // verus!
