use vstd::prelude::*;

use crate::errors::ErrorCode;
use crate::state::{Market, Pubkey};

verus! {

/// Records a new market: who runs it, its id, its settlement deadline and its
/// three mints. The market starts unsettled.
pub fn handle_initialize_market(
    market: &mut Market,
    authority: Pubkey,
    market_id: u32,
    settlement_deadline: i64,
    outcome_a_mint: Pubkey,
    outcome_b_mint: Pubkey,
    collateral_mint: Pubkey,
    bump: u8,
) -> (r: Result<(), ErrorCode>)
    ensures
        r is Ok,
        *final(market) == (Market {
            authority,
            market_id,
            settlement_deadline,
            outcome_a_mint,
            outcome_b_mint,
            collateral_mint,
            is_settled: false,
            bump,
            ..*old(market)
        }),
{
    market.authority = authority;
    market.market_id = market_id;
    market.settlement_deadline = settlement_deadline;
    market.outcome_a_mint = outcome_a_mint;
    market.outcome_b_mint = outcome_b_mint;
    market.collateral_mint = collateral_mint;
    market.is_settled = false;
    market.bump = bump;
    Ok(())
}

/// The constraint on the mint of an order book's outcome: it is one of the
/// market's two outcome mints.
pub fn is_market_outcome_mint(market: &Market, outcome_mint: &Pubkey) -> (r: bool)
    ensures
        r == (*outcome_mint == market.outcome_a_mint || *outcome_mint == market.outcome_b_mint),
{
    outcome_mint.equals(&market.outcome_a_mint) || outcome_mint.equals(&market.outcome_b_mint)
}

} // verus!
