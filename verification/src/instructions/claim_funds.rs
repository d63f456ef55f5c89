use vstd::prelude::*;

use crate::errors::ErrorCode;
use crate::state::UserAccount;

verus! {

/// What a claim does to a ledger: the whole collateral balance is paid out,
/// unless there is none.
pub open spec fn claim_result(user_account: UserAccount) -> Result<(UserAccount, u64), ErrorCode> {
    if user_account.collateral_balance == 0 {
        Err(ErrorCode::NothingToClaim)
    } else {
        Ok((UserAccount { collateral_balance: 0, ..user_account }, user_account.collateral_balance))
    }
}

/// Empties the user's collateral balance and returns the amount, which the
/// caller transfers from the market's vault to the user.
pub fn handle_claim(user_account: &mut UserAccount) -> (r: Result<u64, ErrorCode>)
    ensures
        match claim_result(*old(user_account)) {
            Ok((after, amount)) => r == Ok::<u64, ErrorCode>(amount) && *final(user_account) == after,
            Err(e) => r == Err::<u64, ErrorCode>(e) && *final(user_account) == *old(user_account),
        },
{
    let amount = user_account.collateral_balance;
    if !(amount > 0) {
        return Err(ErrorCode::NothingToClaim);
    }
    user_account.collateral_balance = 0;
    Ok(amount)
}

/// A claim pays out the whole collateral balance and leaves it at zero,
/// changing nothing else; it is refused, with nothing to claim, exactly when
/// the balance is zero.
pub proof fn lemma_claim_pays_whole_balance(user_account: UserAccount)
    ensures
        claim_result(user_account) is Err <==> user_account.collateral_balance == 0,
        claim_result(user_account) is Err ==> claim_result(user_account) == Err::<
            (UserAccount, u64),
            ErrorCode,
        >(ErrorCode::NothingToClaim),
        claim_result(user_account) matches Ok((after, amount)) ==> {
            &&& amount == user_account.collateral_balance
            &&& after.collateral_balance == 0
            &&& after == (UserAccount { collateral_balance: 0, ..user_account })
        },
{
}

/// A second claim straight after a successful one has nothing to pay.
pub proof fn lemma_claim_twice(user_account: UserAccount)
    requires
        claim_result(user_account) is Ok,
    ensures
        claim_result(claim_result(user_account)->Ok_0.0) == Err::<(UserAccount, u64), ErrorCode>(
            ErrorCode::NothingToClaim,
        ),
{
}

} // verus!
