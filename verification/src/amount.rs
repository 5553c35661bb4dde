//! Amounts of bitcoin.

use vstd::prelude::*;

verus! {

/// A number of satoshis.
#[derive(Clone, Copy, PartialEq, Eq, PartialOrd, Ord, Debug, Structural)]
pub struct Amount(pub u64);

impl Amount {
    pub fn from_sat(sats: u64) -> (amount: Amount)
        ensures
            amount == Amount(sats),
    {
        Amount(sats)
    }

    pub fn to_sat(self) -> (sats: u64)
        ensures
            sats == self.0,
    {
        self.0
    }
}

} // verus!
