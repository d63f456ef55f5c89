use vstd::prelude::*;

use crate::errors::ErrorCode;
use crate::state::{Pubkey, UserAccount};

verus! {

/// Opens a user's ledger in a market with every balance at zero.
pub fn handle_initialize_user_account(
    user_account: &mut UserAccount,
    owner: Pubkey,
    market: Pubkey,
    bump: u8,
) -> (r: Result<(), ErrorCode>)
    ensures
        r is Ok,
        *final(user_account) == (UserAccount {
            owner,
            market,
            collateral_balance: 0,
            outcome_a_balance: 0,
            outcome_b_balance: 0,
            bump,
            ..*old(user_account)
        }),
{
    user_account.owner = owner;
    user_account.market = market;
    user_account.collateral_balance = 0;
    user_account.outcome_a_balance = 0;
    user_account.outcome_b_balance = 0;
    user_account.bump = bump;
    Ok(())
}

} // verus!
