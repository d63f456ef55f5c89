use vstd::prelude::*;

verus! {

/// The errors that the market's instructions report.
#[derive(Clone, Copy, Debug, PartialEq, Eq, Structural)]
pub enum ErrorCode {
    BookFull,
    SlippageExceeded,
    MathOverflow,
    NothingToClaim,
    MarketAlreadySettled,
    MarketNotExpired,
    ChallengePeriodActive,
    Unauthorized,
    OrderNotOpen,
    InsufficientCollateral,
    InsufficientShares,
    InvalidPrice,
}

} // verus!
