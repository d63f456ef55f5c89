use prediction_clob::errors::ErrorCode;
use prediction_clob::instructions::claim_funds::handle_claim;
use prediction_clob::instructions::initialize_market::{handle_initialize_market, is_market_outcome_mint};
use prediction_clob::instructions::initialize_orderbook::handle_initialize_orderbook;
use prediction_clob::instructions::initialize_user_account::handle_initialize_user_account;
use prediction_clob::instructions::resolution::{
    handle_finalize_market, handle_propose_outcome, CHALLENGE_PERIOD,
};
use prediction_clob::instructions::sweep::handle_sweep_fees;
use prediction_clob::quantities::{BaseLots, QuoteLots, Ticks};
use prediction_clob::state::{Market, Orderbook, Pubkey, UserAccount, MAX_ORDERS};

fn key(n: u8) -> Pubkey {
    Pubkey { bytes: [n; 32] }
}

fn blank_market() -> Market {
    Market {
        authority: key(0),
        market_id: 0,
        settlement_deadline: 0,
        collateral_vault: key(0),
        outcome_a_mint: key(0),
        outcome_b_mint: key(0),
        collateral_mint: key(0),
        is_settled: false,
        winning_outcome: None,
        reported_outcome: None,
        report_timestamp: 0,
        challenge_end_timestamp: 0,
        total_collateral_locked: 0,
        bump: 0,
    }
}

fn market_with_deadline(deadline: i64) -> Market {
    let mut m = blank_market();
    handle_initialize_market(&mut m, key(1), 7, deadline, key(2), key(3), key(4), 254).unwrap();
    m
}

#[test]
fn initialize_market_records_its_parameters() {
    let m = market_with_deadline(1_000);
    assert_eq!(m.authority, key(1));
    assert_eq!(m.market_id, 7);
    assert_eq!(m.settlement_deadline, 1_000);
    assert_eq!(m.outcome_a_mint, key(2));
    assert_eq!(m.outcome_b_mint, key(3));
    assert_eq!(m.collateral_mint, key(4));
    assert_eq!(m.bump, 254);
    assert!(!m.is_settled);
    assert_eq!(m.winning_outcome, None);
    assert!(is_market_outcome_mint(&m, &key(2)));
    assert!(is_market_outcome_mint(&m, &key(3)));
    assert!(!is_market_outcome_mint(&m, &key(4)));
}

#[test]
fn initialize_user_account_zeroes_balances() {
    let mut ua = UserAccount {
        owner: key(9),
        market: key(9),
        collateral_balance: 5,
        collateral_locked: 0,
        outcome_a_balance: 6,
        outcome_a_locked: 0,
        outcome_b_balance: 7,
        outcome_b_locked: 0,
        bump: 0,
    };
    handle_initialize_user_account(&mut ua, key(1), key(2), 3).unwrap();
    assert_eq!(ua.owner, key(1));
    assert_eq!(ua.market, key(2));
    assert_eq!(ua.collateral_balance, 0);
    assert_eq!(ua.outcome_a_balance, 0);
    assert_eq!(ua.outcome_b_balance, 0);
    assert_eq!(ua.bump, 3);
}

#[test]
fn propose_before_deadline_is_refused() {
    let mut m = market_with_deadline(1_000);
    assert_eq!(handle_propose_outcome(&mut m, 1_000, 1), Err(ErrorCode::MarketNotExpired));
    assert_eq!(m.reported_outcome, None);
}

#[test]
fn propose_then_finalize_after_the_challenge_window() {
    let mut m = market_with_deadline(1_000);
    assert_eq!(handle_propose_outcome(&mut m, 1_001, 1), Ok(()));
    assert_eq!(m.reported_outcome, Some(1));
    assert_eq!(m.report_timestamp, 1_001);
    assert_eq!(m.challenge_end_timestamp, 1_001 + 86_400);
    assert_eq!(CHALLENGE_PERIOD, 86_400);
    assert_eq!(handle_finalize_market(&mut m, 1_001 + 86_400), Err(ErrorCode::ChallengePeriodActive));
    assert!(!m.is_settled);
    assert_eq!(handle_finalize_market(&mut m, 1_001 + 86_401), Ok(()));
    assert!(m.is_settled);
    assert_eq!(m.winning_outcome, Some(1));
    assert_eq!(handle_propose_outcome(&mut m, 99_999_999, 0), Err(ErrorCode::MarketAlreadySettled));
    assert_eq!(m.reported_outcome, Some(1));
}

#[test]
fn finalize_without_a_proposal_is_refused() {
    let mut m = market_with_deadline(1_000);
    assert_eq!(handle_finalize_market(&mut m, 5_000_000), Err(ErrorCode::NothingToClaim));
    assert!(!m.is_settled);
}

#[test]
fn a_new_proposal_replaces_the_old_one() {
    let mut m = market_with_deadline(10);
    handle_propose_outcome(&mut m, 20, 0).unwrap();
    handle_propose_outcome(&mut m, 30, 1).unwrap();
    assert_eq!(m.reported_outcome, Some(1));
    assert_eq!(m.challenge_end_timestamp, 30 + 86_400);
}

#[test]
fn claim_pays_out_the_whole_balance_once() {
    let mut ua = UserAccount {
        owner: key(1),
        market: key(2),
        collateral_balance: 50,
        collateral_locked: 4,
        outcome_a_balance: 0,
        outcome_a_locked: 0,
        outcome_b_balance: 0,
        outcome_b_locked: 0,
        bump: 0,
    };
    assert_eq!(handle_claim(&mut ua), Ok(50));
    assert_eq!(ua.collateral_balance, 0);
    assert_eq!(ua.collateral_locked, 4);
    assert_eq!(handle_claim(&mut ua), Err(ErrorCode::NothingToClaim));
}

#[test]
fn sweep_needs_fees_and_the_authority() {
    let m = market_with_deadline(0);
    let mut ob = Orderbook::new_zeroed();
    handle_initialize_orderbook(&mut ob, key(5), key(2), key(4), 0, MAX_ORDERS as u32).unwrap();
    assert_eq!(handle_sweep_fees(&mut ob, &m, &key(1)), Err(ErrorCode::NothingToClaim));
    ob.unclaimed_fees = 10;
    assert_eq!(handle_sweep_fees(&mut ob, &m, &key(9)), Err(ErrorCode::Unauthorized));
    assert_eq!(ob.unclaimed_fees, 10);
    assert_eq!(handle_sweep_fees(&mut ob, &m, &key(1)), Ok(10));
    assert_eq!(ob.unclaimed_fees, 0);
}

#[test]
fn quantities_default_to_zero() {
    assert_eq!(Ticks::default().val, 0);
    assert_eq!(BaseLots::default().val, 0);
    assert_eq!(QuoteLots::default().val, 0);
    assert!(Ticks { val: 3 } < Ticks { val: 4 });
}
