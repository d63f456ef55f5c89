use vstd::prelude::*;

use crate::errors::ErrorCode;
use crate::state::{Market, Orderbook, Pubkey};

verus! {

/// Empties the order book's unclaimed fees and returns the amount, which the
/// caller transfers from the market's vault to the platform. Only the market's
/// authority may do so, and only when there are fees.
pub fn handle_sweep_fees(ob: &mut Orderbook, market: &Market, authority: &Pubkey) -> (r: Result<
    u64,
    ErrorCode,
>)
    ensures
        old(ob).unclaimed_fees == 0 ==> r == Err::<u64, ErrorCode>(ErrorCode::NothingToClaim),
        old(ob).unclaimed_fees > 0 && *authority != market.authority ==> r == Err::<u64, ErrorCode>(
            ErrorCode::Unauthorized,
        ),
        old(ob).unclaimed_fees > 0 && *authority == market.authority ==> r == Ok::<u64, ErrorCode>(
            old(ob).unclaimed_fees,
        ),
        r is Ok ==> *final(ob) == (Orderbook { unclaimed_fees: 0, ..*old(ob) }),
        r is Err ==> *final(ob) == *old(ob),
{
    let amount = ob.unclaimed_fees;
    if !(amount > 0) {
        return Err(ErrorCode::NothingToClaim);
    }
    if !authority.equals(&market.authority) {
        return Err(ErrorCode::Unauthorized);
    }
    ob.unclaimed_fees = 0;
    Ok(amount)
}

} // verus!
