//! The market's instructions, as computations on the accounts they change.

pub mod cancel_order;
pub mod claim_funds;
pub mod initialize_market;
pub mod initialize_orderbook;
pub mod initialize_user_account;
pub mod place_order;
pub mod resolution;
pub mod sweep;
