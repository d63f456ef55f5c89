//! The order book's algorithms: list maintenance, matching and pricing.

pub mod linked_list;
pub mod matching;
pub mod pricing;
pub mod loading;
