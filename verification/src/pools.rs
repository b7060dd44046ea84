//! The per-pool records: bonded pool, reward pool, unbonding sub-pools and
//! delegator, together with the saturating ratio arithmetic that converts
//! between points and balances.

use crate::table::Table;
use crate::AccountId;
use crate::Balance;
use crate::EraIndex;
use crate::WideUint;
use vstd::prelude::*;

verus! {

/// What a pool accepts: `Open` admits joins and extra bonds, `Blocked`
/// rejects them but still lets delegators leave, `Destroying` is the
/// irreversible wind-down.
#[derive(Clone, Copy, Debug, PartialEq, Eq, Structural)]
pub enum PoolState {
    Open,
    Blocked,
    Destroying,
}

/// Every way an engine operation can be refused. Operations are atomic:
/// a refused call leaves all records unchanged.
#[derive(Clone, Copy, Debug, PartialEq, Eq, Structural)]
pub enum PoolsError {
    /// A join or extra bond was attempted on a pool that is not `Open`.
    PoolNotOpen,
    /// Creating one more pool would exceed the configured ceiling.
    MaxPools,
    /// Admitting one more delegator would exceed the configured ceiling.
    MaxDelegators,
    /// The amount is below the configured floor, or an unbond would leave
    /// a remainder behind instead of withdrawing the position in full.
    MinimumBondNotMet,
    /// The depositor tried to leave while other delegators still hold
    /// points in the pool.
    NotOnlyDelegator,
    /// A withdrawal was attempted without a prior unbond.
    NotUnbonding,
    /// A withdrawal was attempted before the unlock era.
    NotUnbondedYet,
    /// An unbond was attempted while one is already in flight.
    AlreadyUnbonding,
    /// The account holds no delegator record.
    DelegatorNotFound,
    /// No pool is stored under the given account.
    PoolNotFound,
    /// The account already delegates, so it cannot create or join a pool.
    AlreadyDelegating,
    /// The chosen pool account is already taken.
    IdInUse,
    /// The requested state change is not available from the pool's
    /// current state.
    CanNotChangeState,
    /// The caller lacks the role the operation asks for.
    DoesNotHavePermission,
    /// A wide value left the native balance range.
    Overflow,
    /// The staking backend refused a call; nothing was mutated.
    Backend,
    /// The ledger refused a transfer; nothing was mutated.
    Ledger,
}

/// The per-pool bond record: total points, life-cycle state and roles.
#[derive(Clone, Copy, Debug, PartialEq, Eq, Structural)]
pub struct BondedPool {
    /// Total points currently bonded, the sum over its bonded delegators.
    pub points: WideUint,
    /// Where in the life cycle the pool stands.
    pub state: PoolState,
    /// The delegator that created the pool; last to leave.
    pub depositor: AccountId,
    /// May destroy the pool and manage nominations.
    pub root: AccountId,
    /// May pick the nomination targets.
    pub nominator: AccountId,
    /// May toggle the pool between `Open` and `Blocked`.
    pub state_toggler: AccountId,
}

/// The per-pool reward record. `total_earnings` is cumulative: it never
/// decreases, and each delegator snapshots it at the last claim.
#[derive(Clone, Copy, Debug, PartialEq, Eq, Structural)]
pub struct RewardPool {
    /// Undistributed reward funds still held for this pool.
    pub balance: Balance,
    /// Reward points; mirrors the cumulative earnings.
    pub points: WideUint,
    /// Every reward ever paid into the pool.
    pub total_earnings: Balance,
}

/// One unbonding cohort: the points and balance of all delegators whose
/// funds unlock in the same era.
#[derive(Clone, Copy, Debug, PartialEq, Eq, Structural)]
pub struct UnbondPool {
    /// Points held by the cohort's delegators.
    pub points: WideUint,
    /// Balance backing those points.
    pub balance: Balance,
}

/// A pool's unbonding cohorts: one per pending unlock era, plus the
/// `no_era` pool that absorbs cohorts whose window has fully elapsed.
pub struct SubPools {
    /// Merged cohorts past the post-unbonding window.
    pub no_era: UnbondPool,
    /// Live cohorts, keyed by unlock era.
    pub with_era: Table<UnbondPool>,
}

/// One account's stake in one pool: either bonded (counted in the bonded
/// pool's points) or unbonding (counted in a sub-pool cohort), never both.
#[derive(Clone, Copy, Debug, PartialEq, Eq, Structural)]
pub struct Delegator {
    /// The pool delegated to, keyed by its bonded account.
    pub pool_id: AccountId,
    /// Points owned, in the bonded pool or in the unbonding cohort.
    pub points: WideUint,
    /// The unlock era, while the stake unbonds.
    pub unbonding_era: Option<EraIndex>,
    /// Snapshot of the reward pool's `total_earnings` at the last claim.
    pub reward_pool_total_earnings: Balance,
}

/// `x`, capped at the top of the wide range.
pub open spec fn sat_wide(x: int) -> int {
    if x > WideUint::MAX as int {
        WideUint::MAX as int
    } else {
        x
    }
}

/// Balance owed for `points` points of a pool holding `bonded` balance
/// behind `total_points` points: `points * bonded / total_points`, with
/// the product saturating at the wide range; zero when no points exist.
pub open spec fn spec_points_to_balance(total_points: int, bonded: int, points: int) -> int {
    if total_points == 0 {
        0
    } else {
        sat_wide(points * bonded) / total_points
    }
}

/// Points issued for `amount` new balance joining a pool of `total_points`
/// points over `bonded` balance: the inverse ratio, seeded one point per
/// balance unit while either side of the ratio is empty.
pub open spec fn spec_balance_to_points(total_points: int, bonded: int, amount: int) -> int {
    if total_points == 0 || bonded == 0 {
        amount
    } else {
        sat_wide(total_points * amount) / bonded
    }
}

/// The reward share owed to a delegator holding `dpoints` of a pool's
/// `ppoints`, over the earnings since its snapshot: floor division, so
/// residual dust stays in the reward pool.
pub open spec fn spec_claim_share(total: int, snap: int, dpoints: int, ppoints: int) -> int {
    let new_earnings = if total >= snap {
        total - snap
    } else {
        0
    };
    if ppoints == 0 {
        0
    } else {
        sat_wide(new_earnings * dpoints) / ppoints
    }
}

/// `a * b`, saturating at the top of the wide range.
pub fn mul_sat(a: WideUint, b: WideUint) -> (r: WideUint)
    ensures
        r as int == sat_wide(a as int * b as int),
{
    if a == 0 {
        0
    } else if b <= WideUint::MAX / a {
        proof {
            assert(a as int * b as int <= a as int * (WideUint::MAX as int / a as int)) by (
            nonlinear_arith)
                requires
                    a > 0,
                    b as int <= WideUint::MAX as int / a as int,
            ;
            assert(a as int * (WideUint::MAX as int / a as int) <= WideUint::MAX as int) by (
            nonlinear_arith)
                requires
                    a > 0,
            ;
        }
        a * b
    } else {
        proof {
            assert(a as int * b as int > WideUint::MAX as int) by (nonlinear_arith)
                requires
                    a > 0,
                    b as int > WideUint::MAX as int / a as int,
            ;
        }
        WideUint::MAX
    }
}

/// `a + b` in the wide range, or `None` on overflow.
pub fn add_wide(a: WideUint, b: WideUint) -> (r: Option<WideUint>)
    ensures
        a as int + b as int <= WideUint::MAX as int ==> r == Some((a + b) as WideUint),
        a as int + b as int > WideUint::MAX as int ==> r is None,
    {
    if b <= WideUint::MAX - a {
        Some(a + b)
    } else {
        None
    }
}

/// `a + b` in the balance range, or `None` on overflow.
pub fn add_bal(a: Balance, b: Balance) -> (r: Option<Balance>)
    ensures
        a as int + b as int <= Balance::MAX as int ==> r == Some((a + b) as Balance),
        a as int + b as int > Balance::MAX as int ==> r is None,
    {
    if b <= Balance::MAX - a {
        Some(a + b)
    } else {
        None
    }
}

impl BondedPool {
    /// The balance the given points are worth, against the backend's
    /// reported `bonded` balance, in wide units.
    pub fn points_to_balance(&self, bonded: Balance, points: WideUint) -> (r: WideUint)
        ensures
            r as int == spec_points_to_balance(self.points as int, bonded as int, points as int),
    {
        if self.points == 0 {
            0
        } else {
            let prod = mul_sat(points, bonded as WideUint);
            prod / self.points
        }
    }

    /// The points to issue for `amount` of newly bonded balance, against
    /// the backend's reported `bonded` balance.
    pub fn balance_to_points(&self, bonded: Balance, amount: Balance) -> (r: WideUint)
        ensures
            r as int == spec_balance_to_points(self.points as int, bonded as int, amount as int),
    {
        if self.points == 0 || bonded == 0 {
            amount as WideUint
        } else {
            let prod = mul_sat(self.points, amount as WideUint);
            prod / (bonded as WideUint)
        }
    }

    /// Whether the pool is still accepting new stake.
    pub fn is_open(&self) -> (r: bool)
        ensures
            r == (self.state == PoolState::Open),
    {
        matches!(self.state, PoolState::Open)
    }

    /// Whether the pool is winding down.
    pub fn is_destroying(&self) -> (r: bool)
        ensures
            r == (self.state == PoolState::Destroying),
    {
        matches!(self.state, PoolState::Destroying)
    }
}

impl UnbondPool {
    /// An empty cohort.
    pub fn zero() -> (r: Self)
        ensures
            r.points == 0,
            r.balance == 0,
    {
        UnbondPool { points: 0, balance: 0 }
    }

    /// Points to issue inside this cohort for `amount` of unbonded
    /// balance: one per unit while the cohort is empty, the cohort's own
    /// ratio otherwise.
    pub fn balance_to_point(&self, amount: Balance) -> (r: WideUint)
        ensures
            r as int == spec_balance_to_points(
                self.points as int,
                self.balance as int,
                amount as int,
            ),
    {
        if self.points == 0 || self.balance == 0 {
            amount as WideUint
        } else {
            let prod = mul_sat(self.points, amount as WideUint);
            prod / (self.balance as WideUint)
        }
    }

    /// The share of this cohort's balance that `points` points buy.
    pub fn point_to_balance(&self, points: WideUint) -> (r: WideUint)
        ensures
            r as int == spec_points_to_balance(
                self.points as int,
                self.balance as int,
                points as int,
            ),
    {
        if self.points == 0 {
            0
        } else {
            let prod = mul_sat(points, self.balance as WideUint);
            prod / self.points
        }
    }
}

/// A cohort pays out no more than the balance it holds: the share of any
/// `points` at most `self.balance` worth of points is bounded by the
/// cohort's balance.
pub proof fn lemma_share_le_balance(total_points: int, balance: int, points: int)
    requires
        0 <= points <= total_points,
        0 <= balance <= Balance::MAX as int,
    ensures
        0 <= spec_points_to_balance(total_points, balance, points) <= balance,
{
    if total_points != 0 {
        let prod = sat_wide(points * balance);
        assert(0 <= points * balance) by (nonlinear_arith)
            requires
                0 <= points,
                0 <= balance,
        ;
        assert(points * balance <= total_points * balance) by (nonlinear_arith)
            requires
                0 <= points <= total_points,
                0 <= balance,
        ;
        assert(0 <= prod <= total_points * balance);
        assert(0 <= prod / total_points <= balance) by (nonlinear_arith)
            requires
                total_points > 0,
                0 <= balance,
                0 <= prod <= total_points * balance,
        ;
    }
}

} // verus!
