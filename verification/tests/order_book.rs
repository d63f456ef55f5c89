use prediction_clob::instructions::cancel_order::handle_cancel_order;
use prediction_clob::instructions::initialize_orderbook::handle_initialize_orderbook;
use prediction_clob::instructions::place_order::handle_place_order;
use prediction_clob::logic::linked_list::{
    insert_sorted, pop_free_node, push_free_node, unstitch_and_free,
};
use prediction_clob::logic::matching::execute_match;
use prediction_clob::logic::pricing::get_midpoint_price;
use prediction_clob::errors::ErrorCode;
use prediction_clob::state::{
    OrderSide, OrderStatus, Orderbook, Pubkey, UserAccount, MAX_ORDERS, SENTINEL,
};

fn key(n: u8) -> Pubkey {
    Pubkey { bytes: [n; 32] }
}

fn fresh_book() -> Orderbook {
    let mut ob = Orderbook::new_zeroed();
    handle_initialize_orderbook(&mut ob, key(1), key(2), key(3), 0, MAX_ORDERS as u32).unwrap();
    ob
}

fn account(owner: u8, collateral: u64, a: u64, b: u64) -> UserAccount {
    UserAccount {
        owner: key(owner),
        market: key(1),
        collateral_balance: collateral,
        collateral_locked: 0,
        outcome_a_balance: a,
        outcome_a_locked: 0,
        outcome_b_balance: b,
        outcome_b_locked: 0,
        bump: 0,
    }
}

fn bid_list(ob: &Orderbook) -> Vec<u32> {
    let mut out = Vec::new();
    let mut i = ob.bid_head;
    while i != SENTINEL {
        out.push(i);
        i = ob.orders[i as usize].next;
    }
    out
}

fn ask_list(ob: &Orderbook) -> Vec<u32> {
    let mut out = Vec::new();
    let mut i = ob.ask_head;
    while i != SENTINEL {
        out.push(i);
        i = ob.orders[i as usize].next;
    }
    out
}

#[test]
fn initialization_chains_every_slot_into_the_free_list() {
    let ob = fresh_book();
    assert_eq!(ob.bid_head, SENTINEL);
    assert_eq!(ob.ask_head, SENTINEL);
    assert_eq!(ob.free_head, 0);
    assert_eq!(ob.active_orders, 0);
    assert_eq!(ob.market, key(1));
    assert_eq!(ob.outcome_mint, key(2));
    assert_eq!(ob.collateral_mint, key(3));
    for i in 0..MAX_ORDERS {
        let n = &ob.orders[i];
        let expected_next = if i == MAX_ORDERS - 1 { SENTINEL } else { i as u32 + 1 };
        assert_eq!(n.next, expected_next);
        assert_eq!(n.prev, SENTINEL);
        assert_eq!(n.status.val, 3);
    }
}

#[test]
fn initialization_in_batches_covers_the_book() {
    let mut ob = Orderbook::new_zeroed();
    handle_initialize_orderbook(&mut ob, key(1), key(2), key(3), 0, 500).unwrap();
    assert_eq!(ob.orders[499].next, 500);
    assert_eq!(ob.orders[500].next, 0);
    assert_eq!(ob.orders[500].status.val, 0);
    handle_initialize_orderbook(&mut ob, key(9), key(9), key(9), 500, 600).unwrap();
    // a later batch leaves the header alone
    assert_eq!(ob.market, key(1));
    assert_eq!(ob.orders[500].next, 501);
    assert_eq!(ob.orders[1023].next, SENTINEL);
    assert_eq!(ob.orders[1023].status.val, 3);
}

#[test]
fn free_list_pop_and_push() {
    let mut ob = fresh_book();
    assert_eq!(pop_free_node(&mut ob), Some(0));
    assert_eq!(ob.free_head, 1);
    assert_eq!(ob.active_orders, 1);
    assert_eq!(pop_free_node(&mut ob), Some(1));
    assert_eq!(ob.active_orders, 2);
    push_free_node(&mut ob, 0);
    assert_eq!(ob.free_head, 0);
    assert_eq!(ob.orders[0].next, 2);
    assert_eq!(ob.orders[0].prev, SENTINEL);
    assert_eq!(ob.orders[0].status, OrderStatus::cancelled());
    assert_eq!(ob.active_orders, 1);
}

#[test]
fn pop_on_a_full_book_gives_nothing() {
    let mut ob = fresh_book();
    for i in 0..MAX_ORDERS as u32 {
        assert_eq!(pop_free_node(&mut ob), Some(i));
    }
    assert_eq!(ob.free_head, SENTINEL);
    assert_eq!(pop_free_node(&mut ob), None);
    assert_eq!(ob.active_orders, MAX_ORDERS as u32);
}

fn add_resting(ob: &mut Orderbook, user: u8, price: u64, quantity: u64, side: OrderSide) -> u32 {
    let idx = pop_free_node(ob).unwrap();
    let n = &mut ob.orders[idx as usize];
    n.user = key(user);
    n.price.val = price;
    n.quantity.val = quantity;
    n.filled_quantity.val = 0;
    n.side = side;
    n.status = OrderStatus::open();
    insert_sorted(ob, idx, side);
    idx
}

#[test]
fn insert_sorted_keeps_price_time_priority_for_bids() {
    let mut ob = fresh_book();
    let a = add_resting(&mut ob, 1, 50, 1, OrderSide::bid());
    let b = add_resting(&mut ob, 2, 60, 1, OrderSide::bid());
    let c = add_resting(&mut ob, 3, 50, 1, OrderSide::bid());
    let d = add_resting(&mut ob, 4, 40, 1, OrderSide::bid());
    assert_eq!(bid_list(&ob), vec![b, a, c, d]);
    assert_eq!(ob.orders[b as usize].prev, SENTINEL);
    assert_eq!(ob.orders[a as usize].prev, b);
    assert_eq!(ob.orders[c as usize].prev, a);
    assert_eq!(ob.orders[d as usize].prev, c);
    assert_eq!(ask_list(&ob), Vec::<u32>::new());
}

#[test]
fn insert_sorted_keeps_price_time_priority_for_asks() {
    let mut ob = fresh_book();
    let a = add_resting(&mut ob, 1, 70, 1, OrderSide::ask());
    let b = add_resting(&mut ob, 2, 65, 1, OrderSide::ask());
    let c = add_resting(&mut ob, 3, 70, 1, OrderSide::ask());
    assert_eq!(ask_list(&ob), vec![b, a, c]);
    assert_eq!(ob.ask_head, b);
}

#[test]
fn unstitch_and_free_takes_an_order_out_of_the_middle() {
    let mut ob = fresh_book();
    let a = add_resting(&mut ob, 1, 60, 1, OrderSide::bid());
    let b = add_resting(&mut ob, 2, 50, 1, OrderSide::bid());
    let c = add_resting(&mut ob, 3, 40, 1, OrderSide::bid());
    unstitch_and_free(&mut ob, b, OrderSide::bid());
    assert_eq!(bid_list(&ob), vec![a, c]);
    assert_eq!(ob.orders[c as usize].prev, a);
    assert_eq!(ob.free_head, b);
    assert_eq!(ob.orders[b as usize].status.val, 3);
    assert_eq!(ob.active_orders, 2);
    unstitch_and_free(&mut ob, a, OrderSide::bid());
    assert_eq!(bid_list(&ob), vec![c]);
    assert_eq!(ob.orders[c as usize].prev, SENTINEL);
}

#[test]
fn execute_match_takes_best_prices_first() {
    let mut ob = fresh_book();
    let a = add_resting(&mut ob, 1, 70, 5, OrderSide::ask());
    let b = add_resting(&mut ob, 2, 65, 3, OrderSide::ask());
    let c = add_resting(&mut ob, 3, 80, 4, OrderSide::ask());
    // a buyer of 6 at up to 75 takes 3 at 65, then 3 of 5 at 70
    let r = execute_match(&mut ob, OrderSide::bid(), 6, 75);
    assert_eq!(r.base_filled, 6);
    assert_eq!(r.quote_filled, 3 * 65 + 3 * 70);
    assert_eq!(r.remaining_quantity, 0);
    assert_eq!(ask_list(&ob), vec![a, c]);
    assert_eq!(ob.orders[a as usize].filled_quantity.val, 3);
    assert_eq!(ob.orders[a as usize].status.val, 0);
    assert_eq!(ob.orders[b as usize].filled_quantity.val, 3);
    assert_eq!(ob.orders[b as usize].status.val, 3);
    assert_eq!(ob.free_head, b);
    assert_eq!(ob.active_orders, 2);
    // the limit stops the next buyer before the order at 80
    let r = execute_match(&mut ob, OrderSide::bid(), 10, 75);
    assert_eq!(r.base_filled, 2);
    assert_eq!(r.quote_filled, 140);
    assert_eq!(r.remaining_quantity, 8);
    assert_eq!(ask_list(&ob), vec![c]);
    assert_eq!(ob.orders[c as usize].filled_quantity.val, 0);
}

#[test]
fn execute_match_seller_takes_highest_bids() {
    let mut ob = fresh_book();
    let a = add_resting(&mut ob, 1, 40, 2, OrderSide::bid());
    let b = add_resting(&mut ob, 2, 45, 2, OrderSide::bid());
    let r = execute_match(&mut ob, OrderSide::ask(), 3, 42);
    assert_eq!(r.base_filled, 2);
    assert_eq!(r.quote_filled, 90);
    assert_eq!(r.remaining_quantity, 1);
    assert_eq!(bid_list(&ob), vec![a]);
    assert_eq!(ob.orders[b as usize].status.val, 3);
}

#[test]
fn execute_match_on_an_empty_side_fills_nothing() {
    let mut ob = fresh_book();
    let r = execute_match(&mut ob, OrderSide::ask(), 7, 1);
    assert_eq!((r.base_filled, r.quote_filled, r.remaining_quantity), (0, 0, 7));
    assert_eq!(ob.free_head, 0);
}

#[test]
fn midpoint_of_both_sides() {
    let mut ob = fresh_book();
    let info = get_midpoint_price(&ob);
    assert_eq!((info.bid, info.ask, info.midpoint), (0, 100, 0));
    add_resting(&mut ob, 1, 60, 1, OrderSide::bid());
    let info = get_midpoint_price(&ob);
    assert_eq!((info.bid, info.ask, info.midpoint), (60, 100, 0));
    add_resting(&mut ob, 2, 71, 1, OrderSide::ask());
    let info = get_midpoint_price(&ob);
    assert_eq!((info.bid, info.ask, info.midpoint), (60, 71, 65));
    ob.last_traded_price = 42;
    let mut ob2 = fresh_book();
    ob2.last_traded_price = 42;
    add_resting(&mut ob2, 2, 71, 1, OrderSide::ask());
    let info = get_midpoint_price(&ob2);
    assert_eq!((info.bid, info.ask, info.midpoint), (0, 71, 42));
}

#[test]
fn limit_bid_rests_on_an_empty_book() {
    let mut a = fresh_book();
    let mut b = fresh_book();
    let mut ua = account(7, 10_000, 0, 0);
    let r = handle_place_order(&mut a, &mut b, &mut ua, key(7), 1234, true, 10, 60, 0, false);
    assert_eq!(r, Ok(()));
    assert_eq!(ua.collateral_balance, 9_994);
    assert_eq!(ua.collateral_locked, 6);
    assert_eq!(a.bid_head, 0);
    assert_eq!(a.free_head, 1);
    assert_eq!(a.active_orders, 1);
    let n = &a.orders[0];
    assert_eq!(n.user, key(7));
    assert_eq!(n.price.val, 60);
    assert_eq!(n.quantity.val, 10);
    assert_eq!(n.side, OrderSide::bid());
    assert_eq!(n.status, OrderStatus::open());
    assert_eq!(n.timestamp, 1234);
    // book B is untouched
    assert_eq!(b.bid_head, SENTINEL);
    assert_eq!(b.free_head, 0);
}

#[test]
fn ask_fills_against_resting_bid_and_settles_the_seller() {
    let mut a = fresh_book();
    let mut b = fresh_book();
    let mut buyer = account(7, 10_000, 0, 0);
    let mut seller = account(8, 0, 5, 0);
    handle_place_order(&mut a, &mut b, &mut buyer, key(7), 1, true, 10, 60, 0, false).unwrap();
    let r = handle_place_order(&mut a, &mut b, &mut seller, key(8), 2, true, 4, 55, 1, false);
    assert_eq!(r, Ok(()));
    assert_eq!(seller.outcome_a_balance, 1);
    assert_eq!(seller.outcome_a_locked, 0);
    assert_eq!(seller.collateral_balance, 2);
    assert_eq!(a.orders[0].filled_quantity.val, 4);
    assert_eq!(a.bid_head, 0);
    assert_eq!(a.ask_head, SENTINEL);
    // the resting buyer's ledger is not touched by the fill
    assert_eq!(buyer.collateral_locked, 6);
    assert_eq!(buyer.outcome_a_balance, 0);
}

#[test]
fn market_ask_returns_unfilled_shares() {
    let mut a = fresh_book();
    let mut b = fresh_book();
    let mut buyer = account(7, 10_000, 0, 0);
    let mut seller = account(8, 0, 0, 20);
    handle_place_order(&mut a, &mut b, &mut buyer, key(7), 1, false, 6, 60, 0, false).unwrap();
    let r = handle_place_order(&mut a, &mut b, &mut seller, key(8), 2, false, 10, 50, 1, true);
    assert_eq!(r, Ok(()));
    // 6 sold at 60: 360 / 100 = 3 collateral; 4 unsold come back
    assert_eq!(seller.collateral_balance, 3);
    assert_eq!(seller.outcome_b_balance, 14);
    assert_eq!(seller.outcome_b_locked, 0);
    assert_eq!(b.bid_head, SENTINEL);
    assert_eq!(b.active_orders, 0);
    assert_eq!(b.free_head, 0);
    assert_eq!(b.orders[0].status.val, 3);
    assert_eq!(b.orders[0].next, 1);
}

#[test]
fn market_bid_unlocks_the_unused_cost() {
    let mut a = fresh_book();
    let mut b = fresh_book();
    let mut seller = account(8, 0, 3, 0);
    let mut buyer = account(7, 1_000, 0, 0);
    handle_place_order(&mut a, &mut b, &mut seller, key(8), 1, true, 3, 40, 1, false).unwrap();
    assert_eq!(seller.outcome_a_locked, 3);
    assert_eq!(a.ask_head, 0);
    let r = handle_place_order(&mut a, &mut b, &mut buyer, key(7), 2, true, 5, 50, 0, true);
    assert_eq!(r, Ok(()));
    // locked 250 / 100 = 2; paid 120 / 100 = 1; 2 unfilled at 50 unlock 100 / 100 = 1
    assert_eq!(buyer.outcome_a_balance, 3);
    assert_eq!(buyer.collateral_balance, 1_000 - 2 + 1);
    assert_eq!(buyer.collateral_locked, 2 - 1 - 1);
    assert_eq!(a.ask_head, SENTINEL);
    assert_eq!(a.bid_head, SENTINEL);
}

#[test]
fn limit_rest_reuses_the_slot_just_freed() {
    let mut a = fresh_book();
    let mut b = fresh_book();
    let mut seller = account(8, 0, 2, 0);
    let mut buyer = account(7, 1_000, 0, 0);
    handle_place_order(&mut a, &mut b, &mut seller, key(8), 1, true, 2, 40, 1, false).unwrap();
    handle_place_order(&mut a, &mut b, &mut buyer, key(7), 2, true, 5, 45, 0, false).unwrap();
    // the ask in slot 0 was taken whole; the bid's rest of 3 lands in slot 0
    assert_eq!(a.ask_head, SENTINEL);
    assert_eq!(a.bid_head, 0);
    assert_eq!(a.orders[0].quantity.val, 3);
    assert_eq!(a.orders[0].price.val, 45);
    assert_eq!(a.orders[0].user, key(7));
    // the reused slot keeps the filled quantity of the ask it held, below the rest
    assert_eq!(a.orders[0].filled_quantity.val, 2);
    assert!(a.orders[0].filled_quantity.val < a.orders[0].quantity.val);
    assert_eq!(a.free_head, 1);
    assert_eq!(a.active_orders, 1);
}

#[test]
fn bid_without_enough_collateral_is_refused() {
    let mut a = fresh_book();
    let mut b = fresh_book();
    let mut ua = account(7, 4, 0, 0);
    let r = handle_place_order(&mut a, &mut b, &mut ua, key(7), 1, true, 10, 50, 0, false);
    assert_eq!(r, Err(ErrorCode::InsufficientCollateral));
    assert_eq!(ua, account(7, 4, 0, 0));
    assert_eq!(a.free_head, 0);
    assert_eq!(a.bid_head, SENTINEL);
}

#[test]
fn ask_without_enough_shares_is_refused() {
    let mut a = fresh_book();
    let mut b = fresh_book();
    let mut ua = account(7, 100, 9, 1);
    let r = handle_place_order(&mut a, &mut b, &mut ua, key(7), 1, false, 2, 50, 1, false);
    assert_eq!(r, Err(ErrorCode::InsufficientShares));
    assert_eq!(ua, account(7, 100, 9, 1));
}

#[test]
fn cancel_refunds_and_frees_the_slot() {
    let mut a = fresh_book();
    let mut b = fresh_book();
    let mut ua = account(7, 1_000, 0, 0);
    handle_place_order(&mut a, &mut b, &mut ua, key(7), 1, true, 5, 40, 0, false).unwrap();
    assert_eq!(ua.collateral_balance, 998);
    let mut other = account(9, 0, 0, 0);
    assert_eq!(
        handle_cancel_order(&mut a, &mut other, &key(9), 0, 0),
        Err(ErrorCode::Unauthorized)
    );
    assert_eq!(a.bid_head, 0);
    assert_eq!(handle_cancel_order(&mut a, &mut ua, &key(7), 0, 0), Ok(()));
    // the refund is the unfilled quantity times the price
    assert_eq!(ua.collateral_balance, 998 + 200);
    assert_eq!(a.bid_head, SENTINEL);
    assert_eq!(a.free_head, 0);
    assert_eq!(a.active_orders, 0);
    assert_eq!(a.orders[0].status.val, 3);
    assert_eq!(
        handle_cancel_order(&mut a, &mut ua, &key(7), 0, 0),
        Err(ErrorCode::OrderNotOpen)
    );
}

#[test]
fn cancel_of_a_partly_filled_ask() {
    let mut a = fresh_book();
    let mut b = fresh_book();
    let mut seller = account(8, 0, 10, 0);
    let mut buyer = account(7, 1_000, 0, 0);
    handle_place_order(&mut a, &mut b, &mut seller, key(8), 1, true, 10, 30, 1, false).unwrap();
    handle_place_order(&mut a, &mut b, &mut buyer, key(7), 2, true, 4, 30, 0, false).unwrap();
    assert_eq!(a.orders[0].filled_quantity.val, 4);
    assert_eq!(handle_cancel_order(&mut a, &mut seller, &key(8), 0, 1), Ok(()));
    // the resting seller was not paid for its fill; the refund counts the unfilled 6
    assert_eq!(seller.collateral_balance, 6 * 30);
    assert_eq!(a.ask_head, SENTINEL);
}

#[test]
fn order_side_helpers() {
    assert_eq!(OrderSide::bid().opposite(), OrderSide::ask());
    assert_eq!(OrderSide::ask().opposite(), OrderSide::bid());
    assert_eq!(OrderSide { val: 7 }.opposite(), OrderSide::bid());
    assert_eq!(OrderStatus::filled().val, 1);
    assert!(key(3).equals(&key(3)));
    let mut k = key(3);
    k.bytes[31] = 4;
    assert!(!key(3).equals(&k));
}

#[test]
fn accepted_orders_leave_the_book_uncrossed() {
    let mut a = fresh_book();
    let mut b = fresh_book();
    let mut buyer = account(7, 10_000, 0, 0);
    let mut seller = account(8, 0, 50, 0);
    handle_place_order(&mut a, &mut b, &mut buyer, key(7), 1, true, 4, 60, 0, false).unwrap();
    handle_place_order(&mut a, &mut b, &mut buyer, key(7), 2, true, 4, 50, 0, false).unwrap();
    // a seller at 55 takes the bid at 60 and rests the rest at 55, above the bid at 50
    handle_place_order(&mut a, &mut b, &mut seller, key(8), 3, true, 10, 55, 1, false).unwrap();
    let best_bid = a.orders[a.bid_head as usize].price.val;
    let best_ask = a.orders[a.ask_head as usize].price.val;
    assert_eq!((best_bid, best_ask), (50, 55));
    assert_eq!(a.orders[a.ask_head as usize].quantity.val, 6);
    assert!(best_bid < best_ask);
    assert_eq!(a.active_orders, 2);
}

#[test]
fn cancel_unlinks_by_the_stored_side() {
    let mut a = fresh_book();
    let mut b = fresh_book();
    let mut ua = account(7, 1_000, 0, 4);
    handle_place_order(&mut a, &mut b, &mut ua, key(7), 1, false, 5, 40, 0, false).unwrap();
    handle_place_order(&mut a, &mut b, &mut ua, key(7), 2, false, 4, 60, 1, false).unwrap();
    let bid = b.bid_head;
    let ask = b.ask_head;
    // the caller names the ask side for the bid: the bid still leaves the bid list
    assert_eq!(handle_cancel_order(&mut b, &mut ua, &key(7), bid, 1), Ok(()));
    assert_eq!(b.bid_head, SENTINEL);
    assert_eq!(b.ask_head, ask);
    assert_eq!(b.orders[ask as usize].prev, SENTINEL);
    assert_eq!(b.free_head, bid);
    assert_eq!(b.active_orders, 1);
}

#[test]
fn push_then_pop_gives_the_slot_back() {
    let mut ob = fresh_book();
    assert_eq!(pop_free_node(&mut ob), Some(0));
    assert_eq!(pop_free_node(&mut ob), Some(1));
    // slot 0 is on no list now
    let head = ob.free_head;
    let count = ob.active_orders;
    push_free_node(&mut ob, 0);
    assert_eq!(pop_free_node(&mut ob), Some(0));
    assert_eq!(ob.free_head, head);
    assert_eq!(ob.active_orders, count);
    assert_eq!(ob.orders[0].next, head);
}

#[test]
fn a_looser_limit_never_fills_less() {
    let mut fills = Vec::new();
    for limit in [60u64, 65, 70, 75, 80, 90] {
        let mut ob = fresh_book();
        add_resting(&mut ob, 1, 70, 5, OrderSide::ask());
        add_resting(&mut ob, 2, 65, 3, OrderSide::ask());
        add_resting(&mut ob, 3, 80, 4, OrderSide::ask());
        fills.push(execute_match(&mut ob, OrderSide::bid(), 10, limit).base_filled);
    }
    assert_eq!(fills, vec![0, 3, 8, 8, 10, 10]);
}

#[test]
fn midpoint_reads_only_the_heads() {
    let mut ob = Orderbook::new_zeroed();
    ob.bid_head = 0;
    ob.ask_head = 1;
    ob.orders[0].price.val = 41;
    ob.orders[1].price.val = 60;
    ob.last_traded_price = 7;
    let info = get_midpoint_price(&ob);
    assert_eq!((info.bid, info.ask, info.midpoint), (41, 60, 50));
    let mut ob = Orderbook::new_zeroed();
    ob.bid_head = SENTINEL;
    ob.ask_head = SENTINEL;
    ob.last_traded_price = 37;
    let info = get_midpoint_price(&ob);
    assert_eq!((info.bid, info.ask, info.midpoint), (0, 100, 37));
}

#[test]
fn push_then_pop_restores_the_free_head_for_any_slot() {
    let mut ob = fresh_book();
    let i = add_resting(&mut ob, 1, 50, 2, OrderSide::bid());
    let head = ob.free_head;
    let count = ob.active_orders;
    // the slot is still on the bid list: the free list's fields are restored all the same
    push_free_node(&mut ob, i);
    assert_eq!(ob.free_head, i);
    assert_eq!(pop_free_node(&mut ob), Some(i));
    assert_eq!(ob.free_head, head);
    assert_eq!(ob.active_orders, count);
    assert_eq!(ob.orders[i as usize].next, head);
}
