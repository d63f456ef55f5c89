use vstd::prelude::*;

use crate::errors::ErrorCode;
use crate::state::{
    dlinked, free_slots, open_orders_of, slinked, slinked_at, sorted_for, OrderNode, OrderStatus,
    Orderbook, Pubkey, MAX_ORDERS, SENTINEL,
};

verus! {

/// Slot `i` as initialization leaves it: cancelled, unlinked backwards, and
/// pointing at the next slot (the last slot at nothing).
pub open spec fn initialized_slot(n: OrderNode, i: int) -> bool {
    &&& n.next == (if i == MAX_ORDERS - 1 {
        SENTINEL
    } else {
        (i + 1) as u32
    })
    &&& n.prev == SENTINEL
    &&& n.status.is_cancelled()
}

/// Every slot of the book, in order.
pub open spec fn all_slots() -> Seq<u32> {
    Seq::new(MAX_ORDERS as nat, |i: int| i as u32)
}

/// The slots `start_index .. start_index + batch_size` (cut at the end of the
/// book) that one initialization step covers.
pub open spec fn batch_end(start_index: u32, batch_size: u32) -> int {
    if start_index + batch_size < MAX_ORDERS {
        start_index + batch_size
    } else {
        MAX_ORDERS as int
    }
}

/// What one initialization step that starts at `start_index` and covers
/// `batch_size` slots makes of book `old`: the slots of its batch are chained
/// into the free list in index order, every other slot is unchanged, and the
/// step that starts at slot 0 records the market and mints and empties the book.
pub open spec fn init_step(
    old: Orderbook,
    new: Orderbook,
    market: Pubkey,
    outcome_mint: Pubkey,
    collateral_mint: Pubkey,
    start_index: u32,
    batch_size: u32,
) -> bool {
    &&& new.orders@.len() == MAX_ORDERS
    &&& forall|i: int|
        start_index <= i < batch_end(start_index, batch_size) ==> {
            &&& initialized_slot(#[trigger] new.orders@[i], i)
            &&& new.orders@[i].user == old.orders@[i].user
            &&& new.orders@[i].order_id == old.orders@[i].order_id
            &&& new.orders@[i].price == old.orders@[i].price
            &&& new.orders@[i].quantity == old.orders@[i].quantity
            &&& new.orders@[i].filled_quantity == old.orders@[i].filled_quantity
            &&& new.orders@[i].timestamp == old.orders@[i].timestamp
            &&& new.orders@[i].side == old.orders@[i].side
        }
    &&& forall|i: int|
        0 <= i < MAX_ORDERS && !(start_index <= i < batch_end(start_index, batch_size))
            ==> #[trigger] new.orders@[i] == old.orders@[i]
    &&& new.unclaimed_fees == old.unclaimed_fees
    &&& new.fee_rate_bps == old.fee_rate_bps
    &&& new.bump == old.bump
    &&& start_index == 0 ==> {
        &&& new.market == market
        &&& new.outcome_mint == outcome_mint
        &&& new.collateral_mint == collateral_mint
        &&& new.bid_head == SENTINEL
        &&& new.ask_head == SENTINEL
        &&& new.free_head == 0
        &&& new.active_orders == 0
        &&& new.last_traded_price == 0
        &&& new.bids@ == Seq::<u32>::empty()
        &&& new.asks@ == Seq::<u32>::empty()
        &&& new.free@ == all_slots()
    }
    &&& start_index != 0 ==> {
        &&& new.market == old.market
        &&& new.outcome_mint == old.outcome_mint
        &&& new.collateral_mint == old.collateral_mint
        &&& new.bid_head == old.bid_head
        &&& new.ask_head == old.ask_head
        &&& new.free_head == old.free_head
        &&& new.active_orders == old.active_orders
        &&& new.last_traded_price == old.last_traded_price
        &&& new.bids@ == old.bids@
        &&& new.asks@ == old.asks@
        &&& new.free@ == old.free@
    }
}

/// One step of setting up an order book, which is too large to set up at once.
///
/// The step that starts at slot 0 also records the book's market and mints and
/// empties the book: no bids, no asks, every slot free. Every step chains the
/// slots of its batch into the free list in index order.
pub fn handle_initialize_orderbook(
    ob: &mut Orderbook,
    market: Pubkey,
    outcome_mint: Pubkey,
    collateral_mint: Pubkey,
    start_index: u32,
    batch_size: u32,
) -> (r: Result<(), ErrorCode>)
    requires
        old(ob).orders@.len() == MAX_ORDERS,
        start_index + batch_size <= u32::MAX,
    ensures
        r is Ok,
        init_step(*old(ob), *final(ob), market, outcome_mint, collateral_mint, start_index, batch_size),
{
    if start_index == 0 {
        ob.market = market;
        ob.outcome_mint = outcome_mint;
        ob.collateral_mint = collateral_mint;
        ob.bid_head = SENTINEL;
        ob.ask_head = SENTINEL;
        ob.free_head = 0;
        ob.active_orders = 0;
        ob.last_traded_price = 0;
        ob.bids = Ghost(Seq::empty());
        ob.asks = Ghost(Seq::empty());
        ob.free = Ghost(all_slots());
    }
    let end_index = if start_index + batch_size < MAX_ORDERS as u32 {
        start_index + batch_size
    } else {
        MAX_ORDERS as u32
    };
    let ghost o0 = old(ob).orders@;
    let ghost h = *ob;
    let mut i = start_index;
    while i < end_index
        invariant
            end_index == batch_end(start_index, batch_size),
            start_index <= i || end_index <= start_index,
            i >= start_index,
            i <= end_index || i == start_index,
            end_index <= MAX_ORDERS,
            ob.orders@.len() == MAX_ORDERS,
            o0.len() == MAX_ORDERS,
            ob.market == h.market,
            ob.outcome_mint == h.outcome_mint,
            ob.collateral_mint == h.collateral_mint,
            ob.bid_head == h.bid_head,
            ob.ask_head == h.ask_head,
            ob.free_head == h.free_head,
            ob.active_orders == h.active_orders,
            ob.last_traded_price == h.last_traded_price,
            ob.unclaimed_fees == h.unclaimed_fees,
            ob.fee_rate_bps == h.fee_rate_bps,
            ob.bump == h.bump,
            ob.bids@ == h.bids@,
            ob.asks@ == h.asks@,
            ob.free@ == h.free@,
            forall|j: int|
                start_index <= j < i ==> {
                    &&& initialized_slot(#[trigger] ob.orders@[j], j)
                    &&& ob.orders@[j].user == o0[j].user
                    &&& ob.orders@[j].order_id == o0[j].order_id
                    &&& ob.orders@[j].price == o0[j].price
                    &&& ob.orders@[j].quantity == o0[j].quantity
                    &&& ob.orders@[j].filled_quantity == o0[j].filled_quantity
                    &&& ob.orders@[j].timestamp == o0[j].timestamp
                    &&& ob.orders@[j].side == o0[j].side
                },
            forall|j: int|
                0 <= j < MAX_ORDERS && !(start_index <= j < i) ==> #[trigger] ob.orders@[j]
                    == o0[j],
        decreases end_index - i,
    {
        let next = if i == (MAX_ORDERS - 1) as u32 {
            SENTINEL
        } else {
            i + 1
        };
        ob.orders[i as usize].next = next;
        ob.orders[i as usize].prev = SENTINEL;
        ob.orders[i as usize].status = OrderStatus::cancelled();
        i = i + 1;
    }
    Ok(())
}

/// Once every slot has been initialized after the step that starts at slot 0,
/// the book is well formed: no bids, no asks, and every slot free, in index order.
pub proof fn lemma_initialized_book(ob: Orderbook)
    requires
        ob.orders@.len() == MAX_ORDERS,
        forall|i: int| 0 <= i < MAX_ORDERS ==> initialized_slot(#[trigger] ob.orders@[i], i),
        ob.bid_head == SENTINEL,
        ob.ask_head == SENTINEL,
        ob.free_head == 0,
        ob.active_orders == 0,
        ob.bids@ == Seq::<u32>::empty(),
        ob.asks@ == Seq::<u32>::empty(),
        ob.free@ == all_slots(),
    ensures
        ob.wf(),
{
    let f = all_slots();
    let o = ob.orders@;
    assert forall|i: int| 0 <= i < f.len() implies #[trigger] slinked_at(o, f, i) by {
        assert(initialized_slot(o[i], i));
    }
    assert forall|i: int| 0 <= i < f.len() implies (#[trigger] o[f[i] as int]).status.is_cancelled() by {
        assert(initialized_slot(o[i], i));
    }
    assert(f.no_duplicates());
    assert forall|i: u32| i < MAX_ORDERS implies #[trigger] ob.bids@.contains(i)
        || ob.asks@.contains(i) || ob.free@.contains(i) by {
        assert(f[i as int] == i);
    }
    assert(slinked(o, f, ob.free_head));
    assert(dlinked(o, ob.bids@, ob.bid_head));
    assert(dlinked(o, ob.asks@, ob.ask_head));
    assert(sorted_for(o, ob.bids@, true));
    assert(sorted_for(o, ob.asks@, false));
    assert(open_orders_of(o, ob.bids@, true));
    assert(open_orders_of(o, ob.asks@, false));
    assert(free_slots(o, f));
}

/// A book as the step that starts at slot 0 leaves it: the market and mints
/// recorded, no bids, no asks, and every slot on the free list in index order.
pub open spec fn emptied(ob: Orderbook, market: Pubkey, outcome_mint: Pubkey, collateral_mint: Pubkey) -> bool {
    &&& ob.orders@.len() == MAX_ORDERS
    &&& ob.market == market
    &&& ob.outcome_mint == outcome_mint
    &&& ob.collateral_mint == collateral_mint
    &&& ob.bid_head == SENTINEL
    &&& ob.ask_head == SENTINEL
    &&& ob.free_head == 0
    &&& ob.active_orders == 0
    &&& ob.bids@ == Seq::<u32>::empty()
    &&& ob.asks@ == Seq::<u32>::empty()
    &&& ob.free@ == all_slots()
}

/// Steps `0 .. n` of a run of initialization steps over books `books`, each
/// batch starting where the one before it ended, the first at slot 0.
pub open spec fn batch_run(
    books: Seq<Orderbook>,
    starts: Seq<u32>,
    sizes: Seq<u32>,
    market: Pubkey,
    outcome_mint: Pubkey,
    collateral_mint: Pubkey,
) -> bool {
    &&& starts.len() > 0
    &&& sizes.len() == starts.len()
    &&& books.len() == starts.len() + 1
    &&& starts[0] == 0
    &&& forall|j: int| 0 <= j < starts.len() - 1 ==> #[trigger] starts[j + 1] == starts[j] + sizes[j]
    &&& forall|j: int|
        0 <= j < starts.len() ==> init_step(
            #[trigger] books[j],
            books[j + 1],
            market,
            outcome_mint,
            collateral_mint,
            starts[j],
            sizes[j],
        )
}

/// After `n` steps of a run, the book is emptied and every slot below the end
/// of the last batch is initialized.
proof fn lemma_batch_run_prefix(
    books: Seq<Orderbook>,
    starts: Seq<u32>,
    sizes: Seq<u32>,
    market: Pubkey,
    outcome_mint: Pubkey,
    collateral_mint: Pubkey,
    n: int,
)
    requires
        batch_run(books, starts, sizes, market, outcome_mint, collateral_mint),
        1 <= n <= starts.len(),
    ensures
        emptied(books[n], market, outcome_mint, collateral_mint),
        forall|i: int|
            0 <= i < batch_end(starts[n - 1], sizes[n - 1]) ==> initialized_slot(
                #[trigger] books[n].orders@[i],
                i,
            ),
    decreases n,
{
    let j = n - 1;
    assert(init_step(books[j], books[j + 1], market, outcome_mint, collateral_mint, starts[j], sizes[j]));
    if n > 1 {
        lemma_batch_run_prefix(books, starts, sizes, market, outcome_mint, collateral_mint, n - 1);
        let k = j - 1;
        assert(starts[k + 1] == starts[k] + sizes[k]);
        assert forall|i: int| 0 <= i < batch_end(starts[j], sizes[j]) implies initialized_slot(
            #[trigger] books[n].orders@[i],
            i,
        ) by {
            if !(starts[j] <= i < batch_end(starts[j], sizes[j])) {
                assert(books[n].orders@[i] == books[j].orders@[i]);
                assert(initialized_slot(books[j].orders@[i], i));
            }
        }
    }
}

/// A run of initialization steps, the first starting at slot 0 and each next
/// one where the one before it ended, whose batches together reach the end of
/// the book, leaves an empty, well-formed book: no bids, no asks, and every
/// slot free, in index order.
pub proof fn lemma_batches_initialize_book(
    books: Seq<Orderbook>,
    starts: Seq<u32>,
    sizes: Seq<u32>,
    market: Pubkey,
    outcome_mint: Pubkey,
    collateral_mint: Pubkey,
)
    requires
        batch_run(books, starts, sizes, market, outcome_mint, collateral_mint),
        starts.last() + sizes.last() >= MAX_ORDERS,
    ensures
        books.last().wf(),
        emptied(books.last(), market, outcome_mint, collateral_mint),
{
    let n = starts.len() as int;
    lemma_batch_run_prefix(books, starts, sizes, market, outcome_mint, collateral_mint, n);
    assert(books.last() == books[n]);
    assert(batch_end(starts[n - 1], sizes[n - 1]) == MAX_ORDERS);
    lemma_initialized_book(books[n]);
}

} // verus!
