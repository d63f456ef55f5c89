use vstd::prelude::*;

use crate::errors::ErrorCode;
use crate::state::Market;

verus! {

/// Length of the window in which a proposed outcome can be challenged, in seconds.
pub const CHALLENGE_PERIOD: i64 = 86400;

/// What proposing outcome `reported_outcome` at time `now` does to a market.
pub open spec fn propose_result(market: Market, now: i64, reported_outcome: u8) -> Result<
    Market,
    ErrorCode,
> {
    if market.is_settled {
        Err(ErrorCode::MarketAlreadySettled)
    } else if !(now > market.settlement_deadline) {
        Err(ErrorCode::MarketNotExpired)
    } else {
        Ok(
            Market {
                reported_outcome: Some(reported_outcome),
                report_timestamp: now,
                challenge_end_timestamp: (now + CHALLENGE_PERIOD) as i64,
                ..market
            },
        )
    }
}

/// What finalizing at time `now` does to a market.
pub open spec fn finalize_result(market: Market, now: i64) -> Result<Market, ErrorCode> {
    match market.reported_outcome {
        None => Err(ErrorCode::NothingToClaim),
        Some(reported) => if !(now > market.challenge_end_timestamp) {
            Err(ErrorCode::ChallengePeriodActive)
        } else {
            Ok(Market { winning_outcome: Some(reported), is_settled: true, ..market })
        },
    }
}

/// Proposes the outcome of a market once its deadline has passed, and opens
/// the challenge window.
pub fn handle_propose_outcome(market: &mut Market, now: i64, reported_outcome: u8) -> (r: Result<
    (),
    ErrorCode,
>)
    requires
        !old(market).is_settled && now > old(market).settlement_deadline ==> now + CHALLENGE_PERIOD
            <= i64::MAX,
    ensures
        match propose_result(*old(market), now, reported_outcome) {
            Ok(after) => r == Ok::<(), ErrorCode>(()) && *final(market) == after,
            Err(e) => r == Err::<(), ErrorCode>(e) && *final(market) == *old(market),
        },
{
    if market.is_settled {
        return Err(ErrorCode::MarketAlreadySettled);
    }
    if !(now > market.settlement_deadline) {
        return Err(ErrorCode::MarketNotExpired);
    }
    market.reported_outcome = Some(reported_outcome);
    market.report_timestamp = now;
    market.challenge_end_timestamp = now + CHALLENGE_PERIOD;
    Ok(())
}

/// Settles a market on its proposed outcome once the challenge window has closed.
pub fn handle_finalize_market(market: &mut Market, now: i64) -> (r: Result<(), ErrorCode>)
    ensures
        match finalize_result(*old(market), now) {
            Ok(after) => r == Ok::<(), ErrorCode>(()) && *final(market) == after,
            Err(e) => r == Err::<(), ErrorCode>(e) && *final(market) == *old(market),
        },
{
    let reported = match market.reported_outcome {
        Some(o) => o,
        None => {
            return Err(ErrorCode::NothingToClaim);
        },
    };
    if !(now > market.challenge_end_timestamp) {
        return Err(ErrorCode::ChallengePeriodActive);
    }
    market.winning_outcome = Some(reported);
    market.is_settled = true;
    Ok(())
}

/// What a proposal answers: a settled market refuses it; an unsettled one
/// refuses it until its deadline has passed; after the deadline it records the
/// outcome and the time and opens a challenge window of 86400 seconds,
/// changing nothing else.
pub proof fn lemma_proposal_after_deadline_only(market: Market, now: i64, outcome: u8)
    ensures
        market.is_settled ==> propose_result(market, now, outcome) == Err::<Market, ErrorCode>(
            ErrorCode::MarketAlreadySettled,
        ),
        !market.is_settled && now <= market.settlement_deadline ==> propose_result(
            market,
            now,
            outcome,
        ) == Err::<Market, ErrorCode>(ErrorCode::MarketNotExpired),
        propose_result(market, now, outcome) is Ok ==> !market.is_settled && now
            > market.settlement_deadline,
        !market.is_settled && now > market.settlement_deadline && now + 86400 <= i64::MAX ==> {
            &&& propose_result(market, now, outcome) is Ok
            &&& propose_result(market, now, outcome)->Ok_0 == (Market {
                reported_outcome: Some(outcome),
                report_timestamp: now,
                challenge_end_timestamp: (now + 86400) as i64,
                ..market
            })
        },
{
}

/// What finalizing answers: with no proposed outcome there is nothing to
/// settle; while `now` has not passed the end of the challenge window it is
/// refused; after it the market is settled on the proposed outcome, changing
/// nothing else.
pub proof fn lemma_finalize_after_window_only(market: Market, now: i64)
    ensures
        market.reported_outcome is None ==> finalize_result(market, now) == Err::<Market, ErrorCode>(
            ErrorCode::NothingToClaim,
        ),
        market.reported_outcome is Some && now <= market.challenge_end_timestamp ==> finalize_result(
            market,
            now,
        ) == Err::<Market, ErrorCode>(ErrorCode::ChallengePeriodActive),
        finalize_result(market, now) is Ok ==> market.reported_outcome is Some && now
            > market.challenge_end_timestamp,
        market.reported_outcome is Some && now > market.challenge_end_timestamp ==> {
            &&& finalize_result(market, now) is Ok
            &&& finalize_result(market, now)->Ok_0 == (Market {
                winning_outcome: market.reported_outcome,
                is_settled: true,
                ..market
            })
        },
{
}

/// A proposal cannot be finalized before its challenge window has closed.
pub proof fn lemma_no_finalize_during_challenge(market: Market, t1: i64, outcome: u8, t2: i64)
    requires
        propose_result(market, t1, outcome) is Ok,
        t2 <= t1 + CHALLENGE_PERIOD,
        t1 + CHALLENGE_PERIOD <= i64::MAX,
    ensures
        finalize_result(propose_result(market, t1, outcome)->Ok_0, t2) == Err::<Market, ErrorCode>(
            ErrorCode::ChallengePeriodActive,
        ),
{
}

/// Once the challenge window has closed, finalizing settles the market on the
/// proposed outcome.
pub proof fn lemma_finalize_after_challenge(market: Market, t1: i64, outcome: u8, t2: i64)
    requires
        propose_result(market, t1, outcome) is Ok,
        t2 > t1 + CHALLENGE_PERIOD,
        t1 + CHALLENGE_PERIOD <= i64::MAX,
    ensures
        finalize_result(propose_result(market, t1, outcome)->Ok_0, t2) is Ok,
        finalize_result(propose_result(market, t1, outcome)->Ok_0, t2)->Ok_0.winning_outcome
            == Some(outcome),
        finalize_result(propose_result(market, t1, outcome)->Ok_0, t2)->Ok_0.is_settled,
{
}

/// A settled market takes no further proposal.
pub proof fn lemma_settled_is_final(market: Market, t1: i64, t2: i64, outcome: u8)
    requires
        finalize_result(market, t1) is Ok,
    ensures
        propose_result(finalize_result(market, t1)->Ok_0, t2, outcome) == Err::<Market, ErrorCode>(
            ErrorCode::MarketAlreadySettled,
        ),
{
}

} // verus!
