use vstd::prelude::*;

verus! {

/// The smallest unit of price movement.
#[derive(Clone, Copy, Debug, PartialEq, Eq, Structural, PartialOrd, Ord)]
pub struct Ticks {
    pub val: u64,
}

/// The smallest unit of an outcome token.
#[derive(Clone, Copy, Debug, PartialEq, Eq, Structural)]
pub struct BaseLots {
    pub val: u64,
}

/// The smallest unit of collateral.
#[derive(Clone, Copy, Debug, PartialEq, Eq, Structural)]
pub struct QuoteLots {
    pub val: u64,
}

impl Default for Ticks {
    fn default() -> (r: Self)
        ensures
            r.val == 0,
    {
        Ticks { val: 0 }
    }
}

impl Default for BaseLots {
    fn default() -> (r: Self)
        ensures
            r.val == 0,
    {
        BaseLots { val: 0 }
    }
}

impl Default for QuoteLots {
    fn default() -> (r: Self)
        ensures
            r.val == 0,
    {
        QuoteLots { val: 0 }
    }
}

} // verus!
