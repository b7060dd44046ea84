//! A deterministic staking backend held in plain state: the engine's
//! injected capability for bonding, unbonding and withdrawing balances
//! and for reporting eras.

use crate::pools::PoolsError;
use crate::table::tget;
use crate::table::tuniq;
use crate::table::Table;
use crate::AccountId;
use crate::Balance;
use crate::EraIndex;
use vstd::prelude::*;

verus! {

/// The staking backend: per-account bonded and unbonding balances, the
/// current era, the bonding duration, and the nomination targets last set.
pub struct StakingMock {
    /// The smallest stake the backend accepts.
    pub min_bond: Balance,
    /// The backend's current era; only ever advances.
    pub era: EraIndex,
    /// Eras between an unbond request and withdrawability.
    pub duration: EraIndex,
    /// Balance bonded per stash account.
    pub bonded: Table<Balance>,
    /// Balance unbonding per stash account.
    pub unbonding: Table<Balance>,
    /// The nomination targets last handed over.
    pub nominations: Vec<AccountId>,
}

impl StakingMock {
    /// Whether both balance tables have unique keys.
    pub open spec fn wf(&self) -> bool {
        tuniq(self.bonded@) && tuniq(self.unbonding@)
    }

    /// A fresh backend with no balances and empty nominations.
    pub fn new(min_bond: Balance, era: EraIndex, duration: EraIndex) -> (r: Self)
        ensures
            r.wf(),
            r.min_bond == min_bond,
            r.era == era,
            r.duration == duration,
            r.bonded@.len() == 0,
            r.unbonding@.len() == 0,
            r.nominations@.len() == 0,
    {
        StakingMock {
            min_bond,
            era,
            duration,
            bonded: Table::new(),
            unbonding: Table::new(),
            nominations: Vec::new(),
        }
    }

    /// Overwrite the bonded balance of `who`.
    pub fn set_bonded_balance(&mut self, who: AccountId, bonded: Balance)
        requires
            old(self).wf(),
        ensures
            final(self).wf(),
            forall|a: AccountId|
                tget(final(self).bonded@, a) == (if a == who {
                    Some(bonded)
                } else {
                    tget(old(self).bonded@, a)
                }),
            final(self).unbonding@ == old(self).unbonding@,
            final(self).era == old(self).era,
            final(self).duration == old(self).duration,
            final(self).min_bond == old(self).min_bond,
            final(self).nominations@ == old(self).nominations@,
    {
        self.bonded.insert(who, bonded);
    }

    /// The smallest stake the backend accepts.
    pub fn minimum_bond(&self) -> (r: Balance)
        ensures
            r == self.min_bond,
    {
        self.min_bond
    }

    /// The current era.
    pub fn current_era(&self) -> (r: Option<EraIndex>)
        ensures
            r == Some(self.era),
    {
        Some(self.era)
    }

    /// Advance the current era. Eras never move backwards.
    pub fn set_current_era(&mut self, era: EraIndex)
        requires
            era >= old(self).era,
        ensures
            final(self).era == era,
            final(self).bonded@ == old(self).bonded@,
            final(self).unbonding@ == old(self).unbonding@,
            final(self).duration == old(self).duration,
            final(self).min_bond == old(self).min_bond,
            final(self).nominations@ == old(self).nominations@,
    {
        self.era = era;
    }

    /// Eras between an unbond request and withdrawability.
    pub fn bonding_duration(&self) -> (r: EraIndex)
        ensures
            r == self.duration,
    {
        self.duration
    }

    /// The bonded balance of `who`, if the account is bonded.
    pub fn bonded_balance(&self, who: AccountId) -> (r: Option<Balance>)
        requires
            self.wf(),
        ensures
            r == tget(self.bonded@, who),
    {
        self.bonded.get(who)
    }

    /// Bond `value` for a fresh stash. The mock backend accepts any stash
    /// and overwrites its bonded balance.
    pub fn bond(&mut self, stash: AccountId, value: Balance) -> (r: Result<(), PoolsError>)
        requires
            old(self).wf(),
        ensures
            final(self).wf(),
            r is Ok,
            forall|a: AccountId|
                tget(final(self).bonded@, a) == (if a == stash {
                    Some(value)
                } else {
                    tget(old(self).bonded@, a)
                }),
            final(self).unbonding@ == old(self).unbonding@,
            final(self).era == old(self).era,
            final(self).duration == old(self).duration,
            final(self).min_bond == old(self).min_bond,
            final(self).nominations@ == old(self).nominations@,
    {
        self.set_bonded_balance(stash, value);
        Ok(())
    }

    /// Bond `extra` more for an already bonded stash. Fails, touching
    /// nothing, when the stash is unknown or its balance would overflow.
    pub fn bond_extra(&mut self, who: AccountId, extra: Balance) -> (r: Result<(), PoolsError>)
        requires
            old(self).wf(),
        ensures
            final(self).wf(),
            r is Ok <==> (tget(old(self).bonded@, who) is Some
                && tget(old(self).bonded@, who)->Some_0 as int + extra as int
                <= Balance::MAX as int),
            r is Err ==> *final(self) == *old(self) && r->Err_0 == PoolsError::Backend,
            r is Ok ==> forall|a: AccountId|
                tget(final(self).bonded@, a) == (if a == who {
                    Some((tget(old(self).bonded@, who)->Some_0 + extra) as Balance)
                } else {
                    tget(old(self).bonded@, a)
                }),
            final(self).unbonding@ == old(self).unbonding@,
            final(self).era == old(self).era,
            final(self).duration == old(self).duration,
            final(self).min_bond == old(self).min_bond,
            final(self).nominations@ == old(self).nominations@,
    {
        match self.bonded.get(who) {
            Some(b) => {
                match crate::pools::add_bal(b, extra) {
                    Some(nb) => {
                        self.bonded.insert(who, nb);
                        Ok(())
                    }
                    None => Err(PoolsError::Backend),
                }
            }
            None => Err(PoolsError::Backend),
        }
    }

    /// Move `amount` of `who`'s bonded balance into unbonding. Fails,
    /// touching nothing, when the stash is unknown, holds less than
    /// `amount`, or its unbonding balance would overflow.
    pub fn unbond(&mut self, who: AccountId, amount: Balance) -> (r: Result<(), PoolsError>)
        requires
            old(self).wf(),
        ensures
            final(self).wf(),
            r is Ok <==> (tget(old(self).bonded@, who) is Some
                && tget(old(self).bonded@, who)->Some_0 >= amount
                && unbonding_of(old(self).unbonding@, who) + amount as int <= Balance::MAX as int),
            r is Err ==> *final(self) == *old(self) && r->Err_0 == PoolsError::Backend,
            r is Ok ==> forall|a: AccountId|
                tget(final(self).bonded@, a) == (if a == who {
                    Some((tget(old(self).bonded@, who)->Some_0 - amount) as Balance)
                } else {
                    tget(old(self).bonded@, a)
                }),
            r is Ok ==> forall|a: AccountId|
                tget(final(self).unbonding@, a) == (if a == who {
                    Some((unbonding_of(old(self).unbonding@, who) + amount as int) as Balance)
                } else {
                    tget(old(self).unbonding@, a)
                }),
            final(self).era == old(self).era,
            final(self).duration == old(self).duration,
            final(self).min_bond == old(self).min_bond,
            final(self).nominations@ == old(self).nominations@,
    {
        let b = match self.bonded.get(who) {
            Some(b) => b,
            None => {
                return Err(PoolsError::Backend);
            }
        };
        if b < amount {
            return Err(PoolsError::Backend);
        }
        let u = match self.unbonding.get(who) {
            Some(u) => u,
            None => 0,
        };
        let nu = match crate::pools::add_bal(u, amount) {
            Some(nu) => nu,
            None => {
                return Err(PoolsError::Backend);
            }
        };
        self.bonded.insert(who, b - amount);
        self.unbonding.insert(who, nu);
        Ok(())
    }

    /// Release the whole unbonding balance of `who`, handing it back to
    /// the caller to credit on the ledger.
    pub fn withdraw_unbonded(&mut self, who: AccountId) -> (r: Option<Balance>)
        requires
            old(self).wf(),
        ensures
            final(self).wf(),
            r == tget(old(self).unbonding@, who),
            forall|a: AccountId|
                tget(final(self).unbonding@, a) == (if a == who {
                    None::<Balance>
                } else {
                    tget(old(self).unbonding@, a)
                }),
            final(self).bonded@ == old(self).bonded@,
            final(self).era == old(self).era,
            final(self).duration == old(self).duration,
            final(self).min_bond == old(self).min_bond,
            final(self).nominations@ == old(self).nominations@,
    {
        self.unbonding.remove(who)
    }

    /// Record the nomination targets.
    pub fn nominate(&mut self, targets: Vec<AccountId>) -> (r: Result<(), PoolsError>)
        ensures
            r is Ok,
            final(self).nominations@ == targets@,
            final(self).bonded@ == old(self).bonded@,
            final(self).unbonding@ == old(self).unbonding@,
            final(self).era == old(self).era,
            final(self).duration == old(self).duration,
            final(self).min_bond == old(self).min_bond,
    {
        self.nominations = targets;
        Ok(())
    }

    /// How many nomination targets the backend accepts.
    pub fn max_nominations(&self) -> (r: u32)
        ensures
            r == 3,
    {
        3
    }

    /// Worst-case weight of a bond update: a fixed half-range cost for an
    /// increase, the configured creation floor (at least the backend's own
    /// minimum bond) otherwise.
    pub fn weight_update_worst_case(&self, min_create_bond: Balance, is_increase: bool) -> (r:
        u64)
        ensures
            is_increase ==> r == u64::MAX / 2,
            !is_increase ==> r == (if min_create_bond >= self.min_bond {
                min_create_bond
            } else {
                self.min_bond
            }),
    {
        if is_increase {
            u64::MAX / 2
        } else if min_create_bond >= self.min_bond {
            min_create_bond
        } else {
            self.min_bond
        }
    }
}

/// The unbonding balance recorded for `who`, zero when none is.
pub open spec fn unbonding_of(s: Seq<(u32, Balance)>, who: AccountId) -> int {
    match tget(s, who) {
        Some(u) => u as int,
        None => 0,
    }
}

} // verus!
