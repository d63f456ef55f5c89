use vstd::prelude::*;

use crate::state::{Orderbook, MAX_ORDERS, SENTINEL};

verus! {

/// The best bid, the best ask and the price between them.
pub struct MarketPriceInfo {
    pub bid: u64,
    pub ask: u64,
    pub midpoint: u64,
}

/// The price of the order at `head`, or `default` when `head` is `SENTINEL`.
pub open spec fn head_price(ob: Orderbook, head: u32, default: u64) -> u64 {
    if head == SENTINEL {
        default
    } else {
        ob.orders@[head as int].price.val
    }
}

/// The price read at a head: the default for the `SENTINEL` head, the price
/// of the order in the head's slot otherwise.
pub proof fn lemma_head_price_reads_slot(ob: Orderbook, head: u32, default: u64)
    ensures
        head == SENTINEL ==> head_price(ob, head, default) == default,
        head != SENTINEL ==> head_price(ob, head, default) == ob.orders@[head as int].price.val,
{
}

/// The best price of one side, or `default` when that side is empty.
pub open spec fn best_price(ob: Orderbook, bid: bool, default: u64) -> u64 {
    if ob.side_list(bid).len() > 0 {
        ob.orders@[ob.side_list(bid)[0] as int].price.val
    } else {
        default
    }
}

/// In a book whose lists are well formed, the order at a side's head holds
/// that side's best price.
pub proof fn lemma_head_price_is_best(ob: Orderbook, default: u64)
    requires
        ob.links_wf(),
    ensures
        head_price(ob, ob.bid_head, default) == best_price(ob, true, default),
        head_price(ob, ob.ask_head, default) == best_price(ob, false, default),
        (ob.bid_head != SENTINEL) == (ob.bids@.len() > 0),
        (ob.ask_head != SENTINEL) == (ob.asks@.len() > 0),
{
    if ob.bids@.len() > 0 {
        assert(ob.bids@[0] < MAX_ORDERS);
    }
    if ob.asks@.len() > 0 {
        assert(ob.asks@[0] < MAX_ORDERS);
    }
}

/// The best bid (the price at the bid head, 0 without bids), the best ask
/// (the price at the ask head, 100 without asks) and the midpoint: the mean of
/// the two, rounded down, when both sides have orders, and the last traded
/// price otherwise. Only the two heads and their prices are read.
pub fn get_midpoint_price(ob: &Orderbook) -> (r: MarketPriceInfo)
    requires
        ob.bid_head == SENTINEL || ob.bid_head < ob.orders@.len(),
        ob.ask_head == SENTINEL || ob.ask_head < ob.orders@.len(),
        ob.bid_head != SENTINEL && ob.ask_head != SENTINEL ==> head_price(*ob, ob.bid_head, 0)
            + head_price(*ob, ob.ask_head, 100) <= u64::MAX,
    ensures
        r.bid == head_price(*ob, ob.bid_head, 0),
        r.ask == head_price(*ob, ob.ask_head, 100),
        r.midpoint == if ob.bid_head != SENTINEL && ob.ask_head != SENTINEL {
            ((r.bid + r.ask) / 2) as u64
        } else {
            ob.last_traded_price
        },
{
    let mut best_bid = 0u64;
    let mut best_ask = 100u64;

    if ob.bid_head != SENTINEL {
        best_bid = ob.orders[ob.bid_head as usize].price.val;
    }
    if ob.ask_head != SENTINEL {
        best_ask = ob.orders[ob.ask_head as usize].price.val;
    }
    let midpoint = if ob.bid_head != SENTINEL && ob.ask_head != SENTINEL {
        (best_bid + best_ask) / 2
    } else {
        ob.last_traded_price
    };
    MarketPriceInfo { bid: best_bid, ask: best_ask, midpoint }
}

} // verus!
