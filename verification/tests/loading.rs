use prediction_clob::instructions::initialize_orderbook::handle_initialize_orderbook;
use prediction_clob::instructions::place_order::order_runs;
use prediction_clob::logic::linked_list::{insert_sorted, pop_free_node};
use prediction_clob::logic::loading::{load_orderbook, RawOrderbook};
use prediction_clob::logic::matching::simulate_match;
use prediction_clob::quantities::{BaseLots, Ticks};
use prediction_clob::state::{
    OrderSide, OrderStatus, Orderbook, Pubkey, UserAccount, MAX_ORDERS, SENTINEL,
};

fn key(n: u8) -> Pubkey {
    Pubkey { bytes: [n; 32] }
}

fn fresh_book() -> Orderbook {
    let mut ob = Orderbook::new_zeroed();
    handle_initialize_orderbook(&mut ob, key(1), key(2), key(3), 0, MAX_ORDERS as u32).unwrap();
    ob
}

fn add_resting(ob: &mut Orderbook, user: u8, price: u64, quantity: u64, side: OrderSide) -> u32 {
    let idx = pop_free_node(ob).unwrap();
    let n = &mut ob.orders[idx as usize];
    n.user = key(user);
    n.price = Ticks { val: price };
    n.quantity = BaseLots { val: quantity };
    n.filled_quantity = BaseLots { val: 0 };
    n.side = side;
    n.status = OrderStatus::open();
    insert_sorted(ob, idx, side);
    idx
}

fn raw_of(ob: &Orderbook) -> RawOrderbook {
    RawOrderbook {
        market: ob.market,
        outcome_mint: ob.outcome_mint,
        collateral_mint: ob.collateral_mint,
        bid_head: ob.bid_head,
        ask_head: ob.ask_head,
        free_head: ob.free_head,
        active_orders: ob.active_orders,
        last_traded_price: ob.last_traded_price,
        unclaimed_fees: ob.unclaimed_fees,
        fee_rate_bps: ob.fee_rate_bps,
        bump: ob.bump,
        orders: ob.orders.clone(),
    }
}

fn account(collateral: u64, a: u64) -> UserAccount {
    UserAccount {
        owner: key(9),
        market: key(1),
        collateral_balance: collateral,
        collateral_locked: 0,
        outcome_a_balance: a,
        outcome_a_locked: 0,
        outcome_b_balance: 0,
        outcome_b_locked: 0,
        bump: 0,
    }
}

#[test]
fn a_stored_book_loads_back_unchanged() {
    let mut ob = fresh_book();
    add_resting(&mut ob, 4, 60, 3, OrderSide::bid());
    add_resting(&mut ob, 5, 70, 2, OrderSide::ask());
    ob.last_traded_price = 65;
    let loaded = load_orderbook(raw_of(&ob)).expect("a well-formed book loads");
    assert_eq!(loaded.bid_head, ob.bid_head);
    assert_eq!(loaded.ask_head, ob.ask_head);
    assert_eq!(loaded.free_head, ob.free_head);
    assert_eq!(loaded.active_orders, 2);
    assert_eq!(loaded.last_traded_price, 65);
    assert_eq!(loaded.orders, ob.orders);
}

#[test]
fn a_fresh_book_loads() {
    let ob = fresh_book();
    assert!(load_orderbook(raw_of(&ob)).is_some());
}

#[test]
fn a_book_with_a_broken_link_is_refused() {
    let mut ob = fresh_book();
    let i = add_resting(&mut ob, 4, 60, 3, OrderSide::bid());
    let mut raw = raw_of(&ob);
    raw.orders[i as usize].prev = 5;
    assert!(load_orderbook(raw).is_none());
}

#[test]
fn a_book_with_a_wrong_count_is_refused() {
    let mut ob = fresh_book();
    add_resting(&mut ob, 4, 60, 3, OrderSide::bid());
    let mut raw = raw_of(&ob);
    raw.active_orders = 2;
    assert!(load_orderbook(raw).is_none());
}

#[test]
fn a_book_of_the_wrong_size_is_refused() {
    let ob = fresh_book();
    let mut raw = raw_of(&ob);
    raw.orders.pop();
    assert!(load_orderbook(raw).is_none());
}

#[test]
fn a_book_with_a_cycle_is_refused() {
    let ob = fresh_book();
    let mut raw = raw_of(&ob);
    raw.orders[3].next = 1;
    assert!(load_orderbook(raw).is_none());
}

#[test]
fn a_book_with_unsorted_bids_is_refused() {
    let mut ob = fresh_book();
    let i = add_resting(&mut ob, 4, 60, 3, OrderSide::bid());
    add_resting(&mut ob, 5, 50, 3, OrderSide::bid());
    let mut raw = raw_of(&ob);
    raw.orders[i as usize].price = Ticks { val: 40 };
    assert!(load_orderbook(raw).is_none());
}

#[test]
fn simulate_match_agrees_with_the_fill() {
    let mut ob = fresh_book();
    add_resting(&mut ob, 1, 70, 5, OrderSide::ask());
    add_resting(&mut ob, 2, 65, 3, OrderSide::ask());
    add_resting(&mut ob, 3, 80, 4, OrderSide::ask());
    assert_eq!(simulate_match(&ob, OrderSide::bid(), 6, 75), Some((6, 3 * 65 + 3 * 70)));
    assert_eq!(simulate_match(&ob, OrderSide::bid(), 20, 75), Some((8, 3 * 65 + 5 * 70)));
    assert_eq!(simulate_match(&ob, OrderSide::bid(), 20, 60), Some((0, 0)));
    assert_eq!(simulate_match(&ob, OrderSide::ask(), 5, 0), Some((0, 0)));
    // the book is read, not changed
    assert_eq!(ob.active_orders, 3);
}

#[test]
fn simulate_match_reports_an_over_filled_maker() {
    let mut ob = fresh_book();
    let i = add_resting(&mut ob, 1, 70, 5, OrderSide::ask());
    ob.orders[i as usize].filled_quantity = BaseLots { val: 9 };
    assert_eq!(simulate_match(&ob, OrderSide::bid(), 3, 80), None);
}

#[test]
fn simulate_match_reports_a_cost_overflow() {
    let mut ob = fresh_book();
    add_resting(&mut ob, 1, u64::MAX / 2, 3, OrderSide::ask());
    assert_eq!(simulate_match(&ob, OrderSide::bid(), 3, u64::MAX), None);
}

#[test]
fn order_runs_on_ordinary_orders_and_refusals() {
    let mut ob = fresh_book();
    add_resting(&mut ob, 1, 70, 5, OrderSide::ask());
    assert!(order_runs(&ob, &account(10_000, 0), true, 4, 75, 0));
    // a refused order (not enough collateral) also runs: it fails cleanly
    assert!(order_runs(&ob, &account(0, 0), true, 4, 75, 0));
}

#[test]
fn order_runs_is_false_when_the_cost_overflows() {
    let ob = fresh_book();
    assert!(!order_runs(&ob, &account(10_000, 0), true, u64::MAX, 2, 0));
}

#[test]
fn order_runs_is_false_when_a_maker_is_over_filled() {
    let mut ob = fresh_book();
    let i = add_resting(&mut ob, 1, 70, 5, OrderSide::bid());
    ob.orders[i as usize].filled_quantity = BaseLots { val: 9 };
    assert!(!order_runs(&ob, &account(0, 10), true, 3, 60, 1));
    assert_eq!(ob.bid_head, i);
    assert_eq!(ob.ask_head, SENTINEL);
}
