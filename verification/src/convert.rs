//! Conversion between the ledger's native balance type and the wide
//! accounting integer. Widening always succeeds; narrowing fails with
//! `Overflow` when the wide value exceeds the native range, so no balance
//! is ever silently truncated.

use crate::pools::PoolsError;
use crate::Balance;
use crate::WideUint;
use vstd::prelude::*;

verus! {

/// A balance, widened.
pub open spec fn spec_to_wide(b: Balance) -> WideUint {
    b as WideUint
}

/// A wide value, narrowed to a balance where it fits.
pub open spec fn spec_to_balance(w: WideUint) -> Result<Balance, PoolsError> {
    if w <= Balance::MAX as WideUint {
        Ok(w as Balance)
    } else {
        Err(PoolsError::Overflow)
    }
}

/// Widen a balance into the accounting integer. Never fails.
pub fn to_wide(b: Balance) -> (r: WideUint)
    ensures
        r == spec_to_wide(b),
        r == b as WideUint,
{
    b as WideUint
}

/// Narrow a wide value back to a balance, or report `Overflow`.
pub fn to_balance(w: WideUint) -> (r: Result<Balance, PoolsError>)
    ensures
        r == spec_to_balance(w),
        w <= Balance::MAX as WideUint ==> r == Ok::<Balance, PoolsError>(w as Balance),
        w > Balance::MAX as WideUint ==> r == Err::<Balance, PoolsError>(PoolsError::Overflow),
{
    if w <= Balance::MAX as WideUint {
        Ok(w as Balance)
    } else {
        Err(PoolsError::Overflow)
    }
}

/// Converter from balances into the wide accounting integer.
pub struct BalanceToU256;

impl BalanceToU256 {
    /// Widening conversion; total.
    pub fn convert(n: Balance) -> (r: WideUint)
        ensures
            r == n as WideUint,
    {
        n as WideUint
    }
}

/// Converter from the wide accounting integer back into balances.
pub struct U256ToBalance;

impl U256ToBalance {
    /// Narrowing conversion; defined only on values in the native range.
    pub fn convert(n: WideUint) -> (r: Balance)
        requires
            n <= Balance::MAX as WideUint,
        ensures
            r == n as Balance,
    {
        n as Balance
    }
}

/// Narrowing a widened balance returns that balance, for every
/// representable balance; widening a narrowed wide value returns the wide
/// value whenever narrowing succeeded, and narrowing fails with `Overflow`
/// exactly on the wide values above the native range.
pub proof fn lemma_conversion_round_trip(b: Balance, w: WideUint)
    ensures
        spec_to_balance(spec_to_wide(b)) == Ok::<Balance, PoolsError>(b),
        spec_to_balance(w) is Ok ==> spec_to_wide(spec_to_balance(w)->Ok_0) == w,
        spec_to_balance(w) is Err <==> w > Balance::MAX as WideUint,
        spec_to_balance(w) is Err ==> spec_to_balance(w)->Err_0 == PoolsError::Overflow,
{
}

} // verus!
