//! The pool engine: owns every record map (bonded pools, reward pools,
//! sub-pools, delegators), the ledger of free balances, and the injected
//! staking backend, and runs the pool life cycle over them.
//!
//! Every operation is atomic: on any error nothing is mutated. Every
//! operation preserves `PoolEngine::wf`, the conjunction of the
//! cross-record invariants (unique keys, reward pools paired with bonded
//! pools, delegator points conserved against pool and cohort points).

use crate::pools::spec_balance_to_points;
use crate::pools::spec_points_to_balance;
use crate::pools::BondedPool;
use crate::pools::Delegator;
use crate::pools::PoolState;
use crate::pools::PoolsError;
use crate::pools::RewardPool;
use crate::pools::SubPools;
use crate::pools::UnbondPool;
use crate::staking::StakingMock;
use crate::sums::sum_by;
use crate::table::tcontains;
use crate::table::tget;
use crate::table::tuniq;
use crate::table::Table;
use crate::AccountId;
use crate::Balance;
use crate::EraIndex;
use crate::WideUint;
use vstd::prelude::*;

verus! {

/// Weight of a delegator entry towards the bonded points of pool `p`:
/// its points while it is bonded there, zero otherwise.
pub open spec fn w_bonded(p: AccountId) -> spec_fn((u32, Delegator)) -> int {
    (|e: (u32, Delegator)|
        if e.1.pool_id == p && e.1.unbonding_era is None {
            e.1.points as int
        } else {
            0
        })
}

/// Weight of a delegator entry towards the unbonding points of pool `p`.
pub open spec fn w_unbonding(p: AccountId) -> spec_fn((u32, Delegator)) -> int {
    (|e: (u32, Delegator)|
        if e.1.pool_id == p && e.1.unbonding_era is Some {
            e.1.points as int
        } else {
            0
        })
}

/// Weight of a delegator entry towards the cohort of pool `p` that
/// unlocks in era `era`.
pub open spec fn w_unbonding_at(p: AccountId, era: EraIndex) -> spec_fn((u32, Delegator)) -> int {
    (|e: (u32, Delegator)|
        if e.1.pool_id == p && e.1.unbonding_era == Some(era) {
            e.1.points as int
        } else {
            0
        })
}

/// Weight of a delegator entry towards the merged `no_era` pool of pool
/// `p`: it counts there while its unlock era has no live cohort in `we`.
pub open spec fn w_unbonding_merged(p: AccountId, we: Seq<(u32, UnbondPool)>) -> spec_fn(
    (u32, Delegator),
) -> int {
    (|e: (u32, Delegator)|
        if e.1.pool_id == p && e.1.unbonding_era is Some && !tcontains(
            we,
            e.1.unbonding_era->Some_0,
        ) {
            e.1.points as int
        } else {
            0
        })
}

/// Weight of a cohort entry: its points.
pub open spec fn w_points() -> spec_fn((u32, UnbondPool)) -> int {
    (|x: (u32, UnbondPool)| x.1.points as int)
}

/// Weight of a cohort entry towards a merge at `era`: its points while
/// its unlock era lies past the post-unbonding window.
pub open spec fn w_pruned_points(era: EraIndex, window: EraIndex) -> spec_fn(
    (u32, UnbondPool),
) -> int {
    (|x: (u32, UnbondPool)|
        if (x.0 as int) + (window as int) < (era as int) {
            x.1.points as int
        } else {
            0
        })
}

/// Weight of a cohort entry towards a merge at `era`: its balance while
/// its unlock era lies past the post-unbonding window.
pub open spec fn w_pruned_balance(era: EraIndex, window: EraIndex) -> spec_fn(
    (u32, UnbondPool),
) -> int {
    (|x: (u32, UnbondPool)|
        if (x.0 as int) + (window as int) < (era as int) {
            x.1.balance as int
        } else {
            0
        })
}

/// Weight of a cohort entry that a merge at `era` keeps live: its points
/// while its unlock era still lies inside the window.
pub open spec fn w_kept_points(era: EraIndex, window: EraIndex) -> spec_fn(
    (u32, UnbondPool),
) -> int {
    (|x: (u32, UnbondPool)|
        if (x.0 as int) + (window as int) >= (era as int) {
            x.1.points as int
        } else {
            0
        })
}

/// Some delegator entry references pool `p`.
pub open spec fn has_delegator_for(dels: Seq<(u32, Delegator)>, p: AccountId) -> bool {
    exists|j: int| 0 <= j < dels.len() && (#[trigger] dels[j]).1.pool_id == p
}

/// The free balance the ledger records for `a`, zero when no entry does.
pub open spec fn ledger_of(s: Seq<(u32, Balance)>, a: AccountId) -> int {
    match tget(s, a) {
        Some(b) => b as int,
        None => 0,
    }
}

/// The sub-pool invariant for pool `p`: every live cohort carries exactly
/// the points of the delegators unbonding towards its era, the merged
/// pool carries exactly the points of the delegators whose era has no
/// live cohort, and such merged eras lie past the post-unbonding window.
pub open spec fn sp_wf(
    p: AccountId,
    sp: SubPools,
    dels: Seq<(u32, Delegator)>,
    era: EraIndex,
    window: EraIndex,
) -> bool {
    &&& tuniq(sp.with_era@)
    &&& forall|j: int|
        0 <= j < sp.with_era@.len() ==> (#[trigger] sp.with_era@[j]).1.points as int == sum_by(
            dels,
            w_unbonding_at(p, sp.with_era@[j].0),
        )
    &&& sp.no_era.points as int == sum_by(dels, w_unbonding_merged(p, sp.with_era@))
    &&& forall|i: int|
        0 <= i < dels.len() && (#[trigger] dels[i]).1.pool_id == p && dels[i].1.unbonding_era
            is Some && !tcontains(sp.with_era@, dels[i].1.unbonding_era->Some_0)
            ==> (dels[i].1.unbonding_era->Some_0 as int) + (window as int) < (era as int)
}

/// The pooled-staking engine.
pub struct PoolEngine {
    /// Floor on the stake a joining delegator must bring.
    pub min_join_bond: Balance,
    /// Floor on the stake a pool creator must bring.
    pub min_create_bond: Balance,
    /// Ceiling on how many pools may exist, if any.
    pub max_pools: Option<u32>,
    /// Ceiling on how many delegators may exist, if any.
    pub max_delegators: Option<u32>,
    /// How many eras past its unlock era a cohort stays live before it is
    /// merged into `no_era`.
    pub post_unbonding_pools_window: EraIndex,
    /// The injected staking backend.
    pub staking: StakingMock,
    /// Free balances, by account.
    pub ledger: Table<Balance>,
    /// Residual reward funds swept out of destroyed pools.
    pub treasury: Balance,
    /// Bonded pools, keyed by the pool's bonded account.
    pub bonded_pools: Table<BondedPool>,
    /// Reward pools; exactly one per bonded pool.
    pub reward_pools: Table<RewardPool>,
    /// Unbonding sub-pools; at most one per bonded pool.
    pub sub_pools: Table<SubPools>,
    /// Delegator records, keyed by the delegating account.
    pub delegators: Table<Delegator>,
}

impl PoolEngine {
    /// The cross-record invariant every operation preserves.
    pub open spec fn wf(&self) -> bool {
        &&& tuniq(self.bonded_pools@)
        &&& tuniq(self.reward_pools@)
        &&& tuniq(self.sub_pools@)
        &&& tuniq(self.delegators@)
        &&& tuniq(self.ledger@)
        &&& self.staking.wf()
        &&& forall|k: u32| tcontains(self.reward_pools@, k) <==> tcontains(self.bonded_pools@, k)
        &&& forall|k: u32| tcontains(self.sub_pools@, k) ==> tcontains(self.bonded_pools@, k)
        &&& forall|i: int|
            0 <= i < self.delegators@.len() ==> tcontains(
                self.bonded_pools@,
                (#[trigger] self.delegators@[i]).1.pool_id,
            )
        &&& forall|i: int|
            0 <= i < self.delegators@.len() && (#[trigger] self.delegators@[i]).1.unbonding_era
                is Some ==> tcontains(self.sub_pools@, self.delegators@[i].1.pool_id)
        &&& forall|i: int|
            0 <= i < self.bonded_pools@.len() ==> has_delegator_for(
                self.delegators@,
                (#[trigger] self.bonded_pools@[i]).0,
            )
        &&& forall|i: int|
            0 <= i < self.bonded_pools@.len() ==> (#[trigger] self.bonded_pools@[i]).1.points
                as int == sum_by(self.delegators@, w_bonded(self.bonded_pools@[i].0))
        &&& forall|i: int|
            0 <= i < self.sub_pools@.len() ==> sp_wf(
                (#[trigger] self.sub_pools@[i]).0,
                self.sub_pools@[i].1,
                self.delegators@,
                self.staking.era,
                self.post_unbonding_pools_window,
            )
    }

    /// The configuration knobs, unchanged by every operation.
    pub open spec fn same_config(&self, other: &PoolEngine) -> bool {
        &&& self.min_join_bond == other.min_join_bond
        &&& self.min_create_bond == other.min_create_bond
        &&& self.max_pools == other.max_pools
        &&& self.max_delegators == other.max_delegators
        &&& self.post_unbonding_pools_window == other.post_unbonding_pools_window
    }

    /// A fresh engine with the given configuration and backend, holding
    /// no pools, no delegators and an empty ledger.
    pub fn new(
        min_join_bond: Balance,
        min_create_bond: Balance,
        max_pools: Option<u32>,
        max_delegators: Option<u32>,
        post_unbonding_pools_window: EraIndex,
        staking: StakingMock,
    ) -> (r: PoolEngine)
        requires
            staking.wf(),
        ensures
            r.wf(),
            r.min_join_bond == min_join_bond,
            r.min_create_bond == min_create_bond,
            r.max_pools == max_pools,
            r.max_delegators == max_delegators,
            r.post_unbonding_pools_window == post_unbonding_pools_window,
            r.staking == staking,
            r.ledger@.len() == 0,
            r.treasury == 0,
            r.bonded_pools@.len() == 0,
            r.reward_pools@.len() == 0,
            r.sub_pools@.len() == 0,
            r.delegators@.len() == 0,
    {
        PoolEngine {
            min_join_bond,
            min_create_bond,
            max_pools,
            max_delegators,
            post_unbonding_pools_window,
            staking,
            ledger: Table::new(),
            treasury: 0,
            bonded_pools: Table::new(),
            reward_pools: Table::new(),
            sub_pools: Table::new(),
            delegators: Table::new(),
        }
    }

    /// The free balance of `who`.
    pub fn free_balance(&self, who: AccountId) -> (r: Balance)
        requires
            tuniq(self.ledger@),
        ensures
            r as int == ledger_of(self.ledger@, who),
    {
        match self.ledger.get(who) {
            Some(b) => b,
            None => 0,
        }
    }

    /// Overwrite the free balance of `who`. A test-harness ledger
    /// operation; it touches no pool record, so it preserves `wf`.
    pub fn make_free_balance_be(&mut self, who: AccountId, amount: Balance)
        requires
            old(self).wf(),
        ensures
            final(self).wf(),
            forall|a: AccountId|
                ledger_of(final(self).ledger@, a) == (if a == who {
                    amount as int
                } else {
                    ledger_of(old(self).ledger@, a)
                }),
            final(self).bonded_pools@ == old(self).bonded_pools@,
            final(self).reward_pools@ == old(self).reward_pools@,
            final(self).sub_pools@ == old(self).sub_pools@,
            final(self).delegators@ == old(self).delegators@,
            final(self).staking == old(self).staking,
            final(self).treasury == old(self).treasury,
            final(self).same_config(old(self)),
    {
        self.ledger.insert(who, amount);
    }

    /// The count invariants the harness asserts after every run: as many
    /// reward pools as bonded pools, no more sub-pools than bonded pools,
    /// at least one delegator per bonded pool. True of every well-formed
    /// engine.
    pub fn post_checks(&self) -> (r: bool)
        ensures
            r == (self.reward_pools@.len() == self.bonded_pools@.len()
                && self.sub_pools@.len() <= self.bonded_pools@.len() && self.delegators@.len()
                >= self.bonded_pools@.len()),
            self.wf() ==> r,
    {
        proof {
            if self.wf() {
                crate::table::lemma_keys_subset_len(self.reward_pools@, self.bonded_pools@);
                crate::table::lemma_keys_subset_len(self.bonded_pools@, self.reward_pools@);
                crate::table::lemma_keys_subset_len(self.sub_pools@, self.bonded_pools@);
                lemma_pools_le_delegators(self.bonded_pools@, self.delegators@);
            }
        }
        let n_bonded = self.bonded_pools.len();
        self.reward_pools.len() == n_bonded && self.sub_pools.len() <= n_bonded
            && self.delegators.len() >= n_bonded
    }

    /// Set a pool's state directly, bypassing role and transition checks.
    /// A test-harness helper; the state is not part of the accounting
    /// invariants, so `wf` is preserved.
    pub fn unsafe_set_state(&mut self, pool_account: AccountId, state: PoolState) -> (r: Result<
        (),
        (),
    >)
        requires
            old(self).wf(),
        ensures
            final(self).wf(),
            r is Ok <==> tcontains(old(self).bonded_pools@, pool_account),
            r is Err ==> *final(self) == *old(self),
            forall|k: u32|
                tget(final(self).bonded_pools@, k) == (if r is Ok && k == pool_account {
                    Some(
                        BondedPool {
                            state,
                            ..tget(old(self).bonded_pools@, pool_account)->Some_0
                        },
                    )
                } else {
                    tget(old(self).bonded_pools@, k)
                }),
            final(self).reward_pools@ == old(self).reward_pools@,
            final(self).sub_pools@ == old(self).sub_pools@,
            final(self).delegators@ == old(self).delegators@,
            final(self).ledger@ == old(self).ledger@,
            final(self).staking == old(self).staking,
            final(self).treasury == old(self).treasury,
            final(self).same_config(old(self)),
    {
        let bp = match self.bonded_pools.get(pool_account) {
            Some(bp) => bp,
            None => {
                return Err(());
            }
        };
        let ghost pre = *self;
        self.bonded_pools.insert(pool_account, BondedPool { state, ..bp });
        proof {
            self.lemma_wf_after_pool_update(pre, pool_account, BondedPool { state, ..bp });
        }
        Ok(())
    }

    /// Why `create` would be refused, or `None` when it goes through:
    /// the amount must meet the creation floor, the pool ceiling must not
    /// be hit, the pool account must be fresh, the depositor must not
    /// already delegate, and the depositor must hold the amount.
    pub open spec fn create_err(
        &self,
        depositor: AccountId,
        amount: Balance,
        pool_account: AccountId,
    ) -> Option<PoolsError> {
        if amount < self.min_create_bond {
            Some(PoolsError::MinimumBondNotMet)
        } else if self.max_pools is Some && self.bonded_pools@.len()
            >= self.max_pools->Some_0 as int {
            Some(PoolsError::MaxPools)
        } else if tcontains(self.bonded_pools@, pool_account) {
            Some(PoolsError::IdInUse)
        } else if tcontains(self.delegators@, depositor) {
            Some(PoolsError::AlreadyDelegating)
        } else if ledger_of(self.ledger@, depositor) < amount as int {
            Some(PoolsError::Ledger)
        } else {
            None
        }
    }

    /// Create a pool: bond `amount` from the depositor under the fresh
    /// `pool_account`, seed the bonded pool with one point per balance
    /// unit, and open a zeroed reward pool and the depositor's delegator
    /// record atomically.
    pub fn create(
        &mut self,
        depositor: AccountId,
        amount: Balance,
        pool_account: AccountId,
        root: AccountId,
        nominator: AccountId,
        state_toggler: AccountId,
    ) -> (r: Result<(), PoolsError>)
        requires
            old(self).wf(),
        ensures
            final(self).wf(),
            final(self).same_config(old(self)),
            match r {
                Err(e) => Some(e) == old(self).create_err(depositor, amount, pool_account)
                    && *final(self) == *old(self),
                Ok(_) => {
                    &&& old(self).create_err(depositor, amount, pool_account) is None
                    &&& final(self).bonded_pools@.len() == old(self).bonded_pools@.len() + 1
                    &&& final(self).reward_pools@.len() == old(self).reward_pools@.len() + 1
                    &&& final(self).delegators@.len() == old(self).delegators@.len() + 1
                    &&& forall|k: u32|
                        tget(final(self).bonded_pools@, k) == (if k == pool_account {
                            Some(
                                BondedPool {
                                    points: amount as WideUint,
                                    state: PoolState::Open,
                                    depositor,
                                    root,
                                    nominator,
                                    state_toggler,
                                },
                            )
                        } else {
                            tget(old(self).bonded_pools@, k)
                        })
                    &&& forall|k: u32|
                        tget(final(self).reward_pools@, k) == (if k == pool_account {
                            Some(RewardPool { balance: 0, points: 0, total_earnings: 0 })
                        } else {
                            tget(old(self).reward_pools@, k)
                        })
                    &&& forall|a: AccountId|
                        tget(final(self).delegators@, a) == (if a == depositor {
                            Some(
                                Delegator {
                                    pool_id: pool_account,
                                    points: amount as WideUint,
                                    unbonding_era: None,
                                    reward_pool_total_earnings: 0,
                                },
                            )
                        } else {
                            tget(old(self).delegators@, a)
                        })
                    &&& forall|a: AccountId|
                        ledger_of(final(self).ledger@, a) == (if a == depositor {
                            ledger_of(old(self).ledger@, a) - amount as int
                        } else {
                            ledger_of(old(self).ledger@, a)
                        })
                    &&& forall|a: AccountId|
                        tget(final(self).staking.bonded@, a) == (if a == pool_account {
                            Some(amount)
                        } else {
                            tget(old(self).staking.bonded@, a)
                        })
                    &&& final(self).sub_pools@ == old(self).sub_pools@
                    &&& final(self).staking.unbonding@ == old(self).staking.unbonding@
                    &&& final(self).staking.era == old(self).staking.era
                    &&& final(self).staking.duration == old(self).staking.duration
                    &&& final(self).staking.min_bond == old(self).staking.min_bond
                    &&& final(self).treasury == old(self).treasury
                },
            },
    {
        if amount < self.min_create_bond {
            return Err(PoolsError::MinimumBondNotMet);
        }
        match self.max_pools {
            Some(m) => {
                if self.bonded_pools.len() >= m as usize {
                    return Err(PoolsError::MaxPools);
                }
            }
            None => {}
        }
        if self.bonded_pools.contains_key(pool_account) {
            return Err(PoolsError::IdInUse);
        }
        if self.delegators.contains_key(depositor) {
            return Err(PoolsError::AlreadyDelegating);
        }
        let cur = self.free_balance(depositor);
        if cur < amount {
            return Err(PoolsError::Ledger);
        }
        let ghost pre = *self;
        self.ledger.insert(depositor, cur - amount);
        let _ = self.staking.bond(pool_account, amount);
        self.bonded_pools.insert(
            pool_account,
            BondedPool {
                points: amount as WideUint,
                state: PoolState::Open,
                depositor,
                root,
                nominator,
                state_toggler,
            },
        );
        self.reward_pools.insert(
            pool_account,
            RewardPool { balance: 0, points: 0, total_earnings: 0 },
        );
        self.delegators.insert(
            depositor,
            Delegator {
                pool_id: pool_account,
                points: amount as WideUint,
                unbonding_era: None,
                reward_pool_total_earnings: 0,
            },
        );
        proof {
            let dels = pre.delegators@;
            let nd = (
                depositor,
                Delegator {
                    pool_id: pool_account,
                    points: amount as WideUint,
                    unbonding_era: None,
                    reward_pool_total_earnings: 0,
                },
            );
            assert(self.delegators@ == dels.push(nd));
            assert(forall|i: int| 0 <= i < dels.len() ==> self.delegators@[i] == dels[i]);
            let bonded2 = self.bonded_pools@;
            assert(bonded2 == pre.bonded_pools@.push(
                (
                    pool_account,
                    BondedPool {
                        points: amount as WideUint,
                        state: PoolState::Open,
                        depositor,
                        root,
                        nominator,
                        state_toggler,
                    },
                ),
            ));
            assert(forall|i: int|
                0 <= i < pre.bonded_pools@.len() ==> bonded2[i] == pre.bonded_pools@[i]);
            // No existing delegator references the fresh pool account.
            assert forall|i: int| 0 <= i < dels.len() implies w_bonded(pool_account)(
                #[trigger] dels[i],
            ) == 0 by {
                assert(tcontains(pre.bonded_pools@, dels[i].1.pool_id));
            }
            crate::sums::lemma_sum_by_zero(dels, w_bonded(pool_account));
            // Conservation for every pool entry, old and new.
            assert forall|i: int| 0 <= i < bonded2.len() implies (
            #[trigger] bonded2[i]).1.points as int == sum_by(
                self.delegators@,
                w_bonded(bonded2[i].0),
            ) by {
                crate::sums::lemma_sum_by_push(dels, w_bonded(bonded2[i].0), nd);
                if i < pre.bonded_pools@.len() {
                    assert(tcontains(pre.bonded_pools@, bonded2[i].0));
                    assert(bonded2[i].0 != pool_account);
                    assert(w_bonded(bonded2[i].0)(nd) == 0);
                } else {
                    assert(bonded2[i].0 == pool_account);
                    assert(w_bonded(pool_account)(nd) == amount as int);
                }
            }
            // Sub-pool sums are undisturbed: the new delegator unbonds
            // nowhere.
            assert forall|i: int| 0 <= i < self.sub_pools@.len() implies sp_wf(
                (#[trigger] self.sub_pools@[i]).0,
                self.sub_pools@[i].1,
                self.delegators@,
                self.staking.era,
                self.post_unbonding_pools_window,
            ) by {
                let p = self.sub_pools@[i].0;
                let sp = self.sub_pools@[i].1;
                assert(sp_wf(p, sp, dels, pre.staking.era, pre.post_unbonding_pools_window));
                assert forall|j: int| 0 <= j < sp.with_era@.len() implies (
                #[trigger] sp.with_era@[j]).1.points as int == sum_by(
                    self.delegators@,
                    w_unbonding_at(p, sp.with_era@[j].0),
                ) by {
                    crate::sums::lemma_sum_by_push(
                        dels,
                        w_unbonding_at(p, sp.with_era@[j].0),
                        nd,
                    );
                }
                crate::sums::lemma_sum_by_push(dels, w_unbonding_merged(p, sp.with_era@), nd);
            }
            // Key containments carry over, extended by the fresh pool.
            assert forall|k: u32| tcontains(self.reward_pools@, k) <==> tcontains(
                self.bonded_pools@,
                k,
            ) by {
                assert(tcontains(pre.reward_pools@, k) <==> tget(pre.reward_pools@, k) is Some);
                assert(tcontains(pre.bonded_pools@, k) <==> tget(pre.bonded_pools@, k) is Some);
                assert(tcontains(self.reward_pools@, k) <==> tget(self.reward_pools@, k)
                    is Some);
                assert(tcontains(self.bonded_pools@, k) <==> tget(self.bonded_pools@, k)
                    is Some);
            }
            assert forall|k: u32| tcontains(self.sub_pools@, k) implies tcontains(
                self.bonded_pools@,
                k,
            ) by {
                assert(tcontains(pre.bonded_pools@, k));
                assert(tget(pre.bonded_pools@, k) is Some);
                assert(tget(self.bonded_pools@, k) is Some);
            }
            assert forall|i: int| 0 <= i < self.delegators@.len() implies tcontains(
                self.bonded_pools@,
                (#[trigger] self.delegators@[i]).1.pool_id,
            ) by {
                if i < dels.len() {
                    assert(self.delegators@[i] == dels[i]);
                    assert(tcontains(pre.bonded_pools@, dels[i].1.pool_id));
                    assert(tget(pre.bonded_pools@, dels[i].1.pool_id) is Some);
                    assert(tget(self.bonded_pools@, dels[i].1.pool_id) is Some);
                } else {
                    assert(bonded2[pre.bonded_pools@.len() as int].0 == pool_account);
                }
            }
            assert forall|i: int|
                0 <= i < self.delegators@.len() && (
                #[trigger] self.delegators@[i]).1.unbonding_era is Some implies tcontains(
                self.sub_pools@,
                self.delegators@[i].1.pool_id,
            ) by {
                assert(i < dels.len());
                assert(self.delegators@[i] == dels[i]);
            }
            // Every pool still has a delegator.
            assert forall|i: int| 0 <= i < bonded2.len() implies has_delegator_for(
                self.delegators@,
                (#[trigger] bonded2[i]).0,
            ) by {
                if i < pre.bonded_pools@.len() {
                    assert(has_delegator_for(dels, pre.bonded_pools@[i].0));
                    let j = choose|j: int|
                        0 <= j < dels.len() && (#[trigger] dels[j]).1.pool_id == bonded2[i].0;
                    assert(self.delegators@[j].1.pool_id == bonded2[i].0);
                } else {
                    assert(self.delegators@[dels.len() as int].1.pool_id == pool_account);
                }
            }
        }
        Ok(())
    }

    /// The backend's bonded balance for `a`, zero when none is recorded.
    pub open spec fn backend_bonded(&self, a: AccountId) -> int {
        match tget(self.staking.bonded@, a) {
            Some(b) => b as int,
            None => 0,
        }
    }

    /// The points a join of `amount` into `pool_account` would be issued.
    pub open spec fn join_points(&self, pool_account: AccountId, amount: Balance) -> int {
        spec_balance_to_points(
            tget(self.bonded_pools@, pool_account)->Some_0.points as int,
            self.backend_bonded(pool_account),
            amount as int,
        )
    }

    /// Why `join` would be refused, or `None` when it goes through: the
    /// pool must exist and be open, the delegator ceiling must not be
    /// hit, the amount must meet the join floor, the joiner must be new
    /// and funded, and neither the pool's points nor the backend's
    /// bonded balance may overflow.
    pub open spec fn join_err(
        &self,
        who: AccountId,
        amount: Balance,
        pool_account: AccountId,
    ) -> Option<PoolsError> {
        match tget(self.bonded_pools@, pool_account) {
            None => Some(PoolsError::PoolNotFound),
            Some(bp) => {
                if bp.state != PoolState::Open {
                    Some(PoolsError::PoolNotOpen)
                } else if self.max_delegators is Some && self.delegators@.len()
                    >= self.max_delegators->Some_0 as int {
                    Some(PoolsError::MaxDelegators)
                } else if amount < self.min_join_bond {
                    Some(PoolsError::MinimumBondNotMet)
                } else if tcontains(self.delegators@, who) {
                    Some(PoolsError::AlreadyDelegating)
                } else if ledger_of(self.ledger@, who) < amount as int {
                    Some(PoolsError::Ledger)
                } else if bp.points as int + self.join_points(pool_account, amount)
                    > WideUint::MAX as int {
                    Some(PoolsError::Overflow)
                } else if !(tget(self.staking.bonded@, pool_account) is Some && tget(
                    self.staking.bonded@,
                    pool_account,
                )->Some_0 as int + amount as int <= Balance::MAX as int) {
                    Some(PoolsError::Backend)
                } else {
                    None
                }
            }
        }
    }

    /// Join a pool: bond `amount` from `who`, issue points at the pool's
    /// current points-per-balance ratio, and open the joiner's delegator
    /// record, snapshotting the reward pool's earnings so far.
    pub fn join(&mut self, who: AccountId, amount: Balance, pool_account: AccountId) -> (r:
        Result<(), PoolsError>)
        requires
            old(self).wf(),
        ensures
            final(self).wf(),
            final(self).same_config(old(self)),
            match r {
                Err(e) => Some(e) == old(self).join_err(who, amount, pool_account)
                    && *final(self) == *old(self),
                Ok(_) => {
                    &&& old(self).join_err(who, amount, pool_account) is None
                    &&& final(self).bonded_pools@.len() == old(self).bonded_pools@.len()
                    &&& final(self).delegators@.len() == old(self).delegators@.len() + 1
                    &&& forall|a: AccountId|
                        tget(final(self).delegators@, a) == (if a == who {
                            Some(
                                Delegator {
                                    pool_id: pool_account,
                                    points: old(self).join_points(pool_account, amount)
                                        as WideUint,
                                    unbonding_era: None,
                                    reward_pool_total_earnings: tget(
                                        old(self).reward_pools@,
                                        pool_account,
                                    )->Some_0.total_earnings,
                                },
                            )
                        } else {
                            tget(old(self).delegators@, a)
                        })
                    &&& forall|k: u32|
                        tget(final(self).bonded_pools@, k) == (if k == pool_account {
                            Some(
                                BondedPool {
                                    points: (tget(old(self).bonded_pools@, k)->Some_0.points
                                        as int + old(self).join_points(pool_account, amount))
                                        as WideUint,
                                    ..tget(old(self).bonded_pools@, k)->Some_0
                                },
                            )
                        } else {
                            tget(old(self).bonded_pools@, k)
                        })
                    &&& forall|a: AccountId|
                        ledger_of(final(self).ledger@, a) == (if a == who {
                            ledger_of(old(self).ledger@, a) - amount as int
                        } else {
                            ledger_of(old(self).ledger@, a)
                        })
                    &&& forall|a: AccountId|
                        tget(final(self).staking.bonded@, a) == (if a == pool_account {
                            Some(
                                (tget(old(self).staking.bonded@, a)->Some_0
                                    + amount) as Balance,
                            )
                        } else {
                            tget(old(self).staking.bonded@, a)
                        })
                    &&& final(self).reward_pools@ == old(self).reward_pools@
                    &&& final(self).sub_pools@ == old(self).sub_pools@
                    &&& final(self).staking.unbonding@ == old(self).staking.unbonding@
                    &&& final(self).staking.era == old(self).staking.era
                    &&& final(self).staking.duration == old(self).staking.duration
                    &&& final(self).staking.min_bond == old(self).staking.min_bond
                    &&& final(self).treasury == old(self).treasury
                },
            },
    {
        let bp = match self.bonded_pools.get(pool_account) {
            Some(bp) => bp,
            None => {
                return Err(PoolsError::PoolNotFound);
            }
        };
        if !bp.is_open() {
            return Err(PoolsError::PoolNotOpen);
        }
        match self.max_delegators {
            Some(m) => {
                if self.delegators.len() >= m as usize {
                    return Err(PoolsError::MaxDelegators);
                }
            }
            None => {}
        }
        if amount < self.min_join_bond {
            return Err(PoolsError::MinimumBondNotMet);
        }
        if self.delegators.contains_key(who) {
            return Err(PoolsError::AlreadyDelegating);
        }
        let cur = self.free_balance(who);
        if cur < amount {
            return Err(PoolsError::Ledger);
        }
        let bonded_bal = match self.staking.bonded_balance(pool_account) {
            Some(b) => b,
            None => 0,
        };
        let np = bp.balance_to_points(bonded_bal, amount);
        let new_pool_points = match crate::pools::add_wide(bp.points, np) {
            Some(v) => v,
            None => {
                return Err(PoolsError::Overflow);
            }
        };
        let rp = match self.reward_pools.get(pool_account) {
            Some(rp) => rp,
            None => {
                return Err(PoolsError::PoolNotFound);
            }
        };
        let ghost pre = *self;
        match self.staking.bond_extra(pool_account, amount) {
            Ok(_) => {}
            Err(_) => {
                return Err(PoolsError::Backend);
            }
        }
        self.ledger.insert(who, cur - amount);
        self.bonded_pools.insert(
            pool_account,
            BondedPool { points: new_pool_points, ..bp },
        );
        let nd = Delegator {
            pool_id: pool_account,
            points: np,
            unbonding_era: None,
            reward_pool_total_earnings: rp.total_earnings,
        };
        self.delegators.insert(who, nd);
        proof {
            self.lemma_wf_after_join(
                pre,
                who,
                pool_account,
                nd,
                BondedPool { points: new_pool_points, ..bp },
            );
        }
        Ok(())
    }

    /// After a fresh bonded delegator is appended and its pool's points
    /// grow by exactly the new delegator's points, `wf` still holds.
    proof fn lemma_wf_after_join(
        &self,
        pre: PoolEngine,
        who: AccountId,
        p: AccountId,
        nd: Delegator,
        bp2: BondedPool,
    )
        requires
            pre.wf(),
            !tcontains(pre.delegators@, who),
            self.delegators@ == pre.delegators@.push((who, nd)),
            nd.pool_id == p,
            nd.unbonding_era is None,
            tcontains(pre.bonded_pools@, p),
            self.bonded_pools@ == pre.bonded_pools@.update(
                crate::table::tidx(pre.bonded_pools@, p),
                (p, bp2),
            ),
            bp2.points as int == tget(pre.bonded_pools@, p)->Some_0.points as int
                + nd.points as int,
            self.reward_pools@ == pre.reward_pools@,
            self.sub_pools@ == pre.sub_pools@,
            tuniq(self.ledger@),
            self.staking.wf(),
            self.staking.era == pre.staking.era,
            self.post_unbonding_pools_window == pre.post_unbonding_pools_window,
        ensures
            self.wf(),
    {
        let dels = pre.delegators@;
        let dels2 = self.delegators@;
        let s = pre.bonded_pools@;
        let t = self.bonded_pools@;
        let i = crate::table::tidx(s, p);
        assert(0 <= i < s.len() && s[i].0 == p);
        crate::table::lemma_tget_at(s, i);
        crate::table::lemma_tget_update(s, i, p, bp2);
        crate::table::lemma_tget_push(dels, who, nd);
        assert(forall|m: int| 0 <= m < s.len() ==> (#[trigger] t[m]).0 == s[m].0);
        assert(forall|m: int| 0 <= m < s.len() && m != i ==> t[m] == s[m]);
        assert(forall|m: int| 0 <= m < dels.len() ==> (#[trigger] dels2[m]) == dels[m]);
        assert(forall|k: u32| tcontains(t, k) <==> tcontains(s, k)) by {
            assert forall|k: u32| tcontains(t, k) implies tcontains(s, k) by {
                let m = crate::table::tidx(t, k);
                assert(s[m].0 == k);
            }
            assert forall|k: u32| tcontains(s, k) implies tcontains(t, k) by {
                let m = crate::table::tidx(s, k);
                assert(t[m].0 == k);
            }
        }
        assert forall|m: int| 0 <= m < t.len() implies (#[trigger] t[m]).1.points as int == sum_by(
            dels2,
            w_bonded(t[m].0),
        ) by {
            crate::sums::lemma_sum_by_push(dels, w_bonded(t[m].0), (who, nd));
            if m == i {
                assert(w_bonded(p)((who, nd)) == nd.points as int);
            } else {
                assert(t[m] == s[m]);
                assert(t[m].0 != p);
                assert(w_bonded(t[m].0)((who, nd)) == 0);
            }
        }
        assert forall|m: int| 0 <= m < self.sub_pools@.len() implies sp_wf(
            (#[trigger] self.sub_pools@[m]).0,
            self.sub_pools@[m].1,
            dels2,
            self.staking.era,
            self.post_unbonding_pools_window,
        ) by {
            let q = self.sub_pools@[m].0;
            let sp = self.sub_pools@[m].1;
            assert(sp_wf(q, sp, dels, pre.staking.era, pre.post_unbonding_pools_window));
            assert forall|j: int| 0 <= j < sp.with_era@.len() implies (
            #[trigger] sp.with_era@[j]).1.points as int == sum_by(
                dels2,
                w_unbonding_at(q, sp.with_era@[j].0),
            ) by {
                crate::sums::lemma_sum_by_push(dels, w_unbonding_at(q, sp.with_era@[j].0), (who, nd));
            }
            crate::sums::lemma_sum_by_push(dels, w_unbonding_merged(q, sp.with_era@), (who, nd));
        }
        assert forall|m: int| 0 <= m < dels2.len() implies tcontains(
            t,
            (#[trigger] dels2[m]).1.pool_id,
        ) by {
            if m < dels.len() {
                assert(dels2[m] == dels[m]);
                assert(tcontains(s, dels[m].1.pool_id));
            } else {
                assert(dels2[m].1.pool_id == p);
            }
        }
        assert forall|m: int| 0 <= m < t.len() implies has_delegator_for(
            dels2,
            (#[trigger] t[m]).0,
        ) by {
            assert(has_delegator_for(dels, s[m].0));
            let j2 = choose|j2: int|
                0 <= j2 < dels.len() && (#[trigger] dels[j2]).1.pool_id == s[m].0;
            assert(dels2[j2].1.pool_id == t[m].0);
        }
        assert forall|m: int|
            0 <= m < dels2.len() && (#[trigger] dels2[m]).1.unbonding_era
                is Some implies tcontains(self.sub_pools@, dels2[m].1.pool_id) by {
            assert(m < dels.len());
            assert(dels2[m] == dels[m]);
        }
    }

    /// After one bonded delegator entry changes points in place (same
    /// account, pool and bonded status) and its pool's entry moves by the
    /// same difference, `wf` still holds.
    proof fn lemma_wf_after_del_update(&self, pre: PoolEngine, j: int, pi: int)
        requires
            pre.wf(),
            0 <= j < pre.delegators@.len(),
            self.delegators@ == pre.delegators@.update(j, self.delegators@[j]),
            self.delegators@[j].0 == pre.delegators@[j].0,
            self.delegators@[j].1.pool_id == pre.delegators@[j].1.pool_id,
            self.delegators@[j].1.unbonding_era == pre.delegators@[j].1.unbonding_era,
            pre.delegators@[j].1.unbonding_era is None,
            0 <= pi < pre.bonded_pools@.len(),
            pre.bonded_pools@[pi].0 == pre.delegators@[j].1.pool_id,
            self.bonded_pools@ == pre.bonded_pools@.update(pi, self.bonded_pools@[pi]),
            self.bonded_pools@[pi].0 == pre.bonded_pools@[pi].0,
            self.bonded_pools@[pi].1.points as int == pre.bonded_pools@[pi].1.points as int + (
            self.delegators@[j].1.points as int - pre.delegators@[j].1.points as int),
            tuniq(self.reward_pools@),
            forall|k: u32|
                tcontains(self.reward_pools@, k) <==> tcontains(pre.reward_pools@, k),
            self.sub_pools@ == pre.sub_pools@,
            tuniq(self.ledger@),
            self.staking.wf(),
            self.staking.era == pre.staking.era,
            self.post_unbonding_pools_window == pre.post_unbonding_pools_window,
        ensures
            self.wf(),
    {
        let dels = pre.delegators@;
        let dels2 = self.delegators@;
        let s = pre.bonded_pools@;
        let t = self.bonded_pools@;
        let p = dels[j].1.pool_id;
        let nd = dels2[j];
        assert(forall|m: int| 0 <= m < dels.len() && m != j ==> dels2[m] == dels[m]);
        assert(forall|m: int| 0 <= m < dels.len() ==> (#[trigger] dels2[m]).0 == dels[m].0);
        assert(forall|m: int| 0 <= m < dels.len() ==> (#[trigger] dels2[m]).1.pool_id
            == dels[m].1.pool_id);
        assert(forall|m: int| 0 <= m < dels.len() ==> (#[trigger] dels2[m]).1.unbonding_era
            == dels[m].1.unbonding_era);
        assert(forall|m: int| 0 <= m < s.len() && m != pi ==> t[m] == s[m]);
        assert(forall|m: int| 0 <= m < s.len() ==> (#[trigger] t[m]).0 == s[m].0);
        assert(tuniq(dels2));
        assert(tuniq(t));
        assert(forall|k: u32| tcontains(t, k) <==> tcontains(s, k)) by {
            assert forall|k: u32| tcontains(t, k) implies tcontains(s, k) by {
                let m = crate::table::tidx(t, k);
                assert(s[m].0 == k);
            }
            assert forall|k: u32| tcontains(s, k) implies tcontains(t, k) by {
                let m = crate::table::tidx(s, k);
                assert(t[m].0 == k);
            }
        }
        assert(forall|k: u32| tcontains(dels2, k) <==> tcontains(dels, k)) by {
            assert forall|k: u32| tcontains(dels2, k) implies tcontains(dels, k) by {
                let m = crate::table::tidx(dels2, k);
                assert(dels[m].0 == k);
            }
            assert forall|k: u32| tcontains(dels, k) implies tcontains(dels2, k) by {
                let m = crate::table::tidx(dels, k);
                assert(dels2[m].0 == k);
            }
        }
        assert forall|m: int| 0 <= m < t.len() implies (#[trigger] t[m]).1.points as int == sum_by(
            dels2,
            w_bonded(t[m].0),
        ) by {
            crate::sums::lemma_sum_by_update(dels, w_bonded(t[m].0), j, nd);
            if m == pi {
                assert(w_bonded(p)(nd) - w_bonded(p)(dels[j]) == nd.1.points as int
                    - dels[j].1.points as int);
            } else {
                assert(t[m] == s[m]);
                assert(t[m].0 != p) by {
                    if t[m].0 == p {
                        assert(s[m].0 == s[pi].0);
                    }
                }
                assert(w_bonded(t[m].0)(nd) == 0 && w_bonded(t[m].0)(dels[j]) == 0);
            }
        }
        assert forall|m: int| 0 <= m < self.sub_pools@.len() implies sp_wf(
            (#[trigger] self.sub_pools@[m]).0,
            self.sub_pools@[m].1,
            dels2,
            self.staking.era,
            self.post_unbonding_pools_window,
        ) by {
            let q = self.sub_pools@[m].0;
            let sp = self.sub_pools@[m].1;
            assert(sp_wf(q, sp, dels, pre.staking.era, pre.post_unbonding_pools_window));
            assert forall|j2: int| 0 <= j2 < sp.with_era@.len() implies (
            #[trigger] sp.with_era@[j2]).1.points as int == sum_by(
                dels2,
                w_unbonding_at(q, sp.with_era@[j2].0),
            ) by {
                crate::sums::lemma_sum_by_update(dels, w_unbonding_at(q, sp.with_era@[j2].0), j, nd);
            }
            crate::sums::lemma_sum_by_update(dels, w_unbonding_merged(q, sp.with_era@), j, nd);
        }
        assert forall|m: int| 0 <= m < t.len() implies has_delegator_for(
            dels2,
            (#[trigger] t[m]).0,
        ) by {
            assert(has_delegator_for(dels, s[m].0));
            let j2 = choose|j2: int|
                0 <= j2 < dels.len() && (#[trigger] dels[j2]).1.pool_id == s[m].0;
            assert(dels2[j2].1.pool_id == t[m].0);
        }
    }

    /// The points a further bond of `extra` by the delegator `who` would
    /// be issued.
    pub open spec fn bond_extra_points(&self, who: AccountId, extra: Balance) -> int {
        spec_balance_to_points(
            tget(
                self.bonded_pools@,
                tget(self.delegators@, who)->Some_0.pool_id,
            )->Some_0.points as int,
            self.backend_bonded(tget(self.delegators@, who)->Some_0.pool_id),
            extra as int,
        )
    }

    /// Why `bond_extra` would be refused, or `None` when it goes
    /// through.
    pub open spec fn bond_extra_err(&self, who: AccountId, extra: Balance) -> Option<
        PoolsError,
    > {
        match tget(self.delegators@, who) {
            None => Some(PoolsError::DelegatorNotFound),
            Some(d) => {
                if d.unbonding_era is Some {
                    Some(PoolsError::AlreadyUnbonding)
                } else {
                    match tget(self.bonded_pools@, d.pool_id) {
                        None => Some(PoolsError::PoolNotFound),
                        Some(bp) => {
                            if bp.state != PoolState::Open {
                                Some(PoolsError::PoolNotOpen)
                            } else if ledger_of(self.ledger@, who) < extra as int {
                                Some(PoolsError::Ledger)
                            } else if d.points as int + self.bond_extra_points(who, extra)
                                > WideUint::MAX as int || bp.points as int
                                + self.bond_extra_points(who, extra) > WideUint::MAX as int {
                                Some(PoolsError::Overflow)
                            } else if !(tget(self.staking.bonded@, d.pool_id) is Some && tget(
                                self.staking.bonded@,
                                d.pool_id,
                            )->Some_0 as int + extra as int <= Balance::MAX as int) {
                                Some(PoolsError::Backend)
                            } else {
                                None
                            }
                        }
                    }
                }
            }
        }
    }

    /// Bond `extra` more from an existing bonded delegator: issue points
    /// at the pool's current ratio on top of the delegator's holding.
    pub fn bond_extra(&mut self, who: AccountId, extra: Balance) -> (r: Result<(), PoolsError>)
        requires
            old(self).wf(),
        ensures
            final(self).wf(),
            final(self).same_config(old(self)),
            match r {
                Err(e) => Some(e) == old(self).bond_extra_err(who, extra) && *final(self)
                    == *old(self),
                Ok(_) => {
                    &&& old(self).bond_extra_err(who, extra) is None
                    &&& forall|a: AccountId|
                        tget(final(self).delegators@, a) == (if a == who {
                            Some(
                                Delegator {
                                    points: (tget(old(self).delegators@, a)->Some_0.points
                                        as int + old(self).bond_extra_points(who, extra))
                                        as WideUint,
                                    ..tget(old(self).delegators@, a)->Some_0
                                },
                            )
                        } else {
                            tget(old(self).delegators@, a)
                        })
                    &&& forall|k: u32|
                        tget(final(self).bonded_pools@, k) == (if k == tget(
                            old(self).delegators@,
                            who,
                        )->Some_0.pool_id {
                            Some(
                                BondedPool {
                                    points: (tget(old(self).bonded_pools@, k)->Some_0.points
                                        as int + old(self).bond_extra_points(who, extra))
                                        as WideUint,
                                    ..tget(old(self).bonded_pools@, k)->Some_0
                                },
                            )
                        } else {
                            tget(old(self).bonded_pools@, k)
                        })
                    &&& forall|a: AccountId|
                        ledger_of(final(self).ledger@, a) == (if a == who {
                            ledger_of(old(self).ledger@, a) - extra as int
                        } else {
                            ledger_of(old(self).ledger@, a)
                        })
                    &&& forall|a: AccountId|
                        tget(final(self).staking.bonded@, a) == (if a == tget(
                            old(self).delegators@,
                            who,
                        )->Some_0.pool_id {
                            Some((tget(old(self).staking.bonded@, a)->Some_0 + extra) as Balance)
                        } else {
                            tget(old(self).staking.bonded@, a)
                        })
                    &&& final(self).reward_pools@ == old(self).reward_pools@
                    &&& final(self).sub_pools@ == old(self).sub_pools@
                    &&& final(self).staking.unbonding@ == old(self).staking.unbonding@
                    &&& final(self).staking.era == old(self).staking.era
                    &&& final(self).staking.duration == old(self).staking.duration
                    &&& final(self).staking.min_bond == old(self).staking.min_bond
                    &&& final(self).treasury == old(self).treasury
                },
            },
    {
        let d = match self.delegators.get(who) {
            Some(d) => d,
            None => {
                return Err(PoolsError::DelegatorNotFound);
            }
        };
        if d.unbonding_era.is_some() {
            return Err(PoolsError::AlreadyUnbonding);
        }
        let bp = match self.bonded_pools.get(d.pool_id) {
            Some(bp) => bp,
            None => {
                return Err(PoolsError::PoolNotFound);
            }
        };
        if !bp.is_open() {
            return Err(PoolsError::PoolNotOpen);
        }
        let cur = self.free_balance(who);
        if cur < extra {
            return Err(PoolsError::Ledger);
        }
        let bonded_bal = match self.staking.bonded_balance(d.pool_id) {
            Some(b) => b,
            None => 0,
        };
        let np = bp.balance_to_points(bonded_bal, extra);
        let new_del_points = match crate::pools::add_wide(d.points, np) {
            Some(v) => v,
            None => {
                return Err(PoolsError::Overflow);
            }
        };
        let new_pool_points = match crate::pools::add_wide(bp.points, np) {
            Some(v) => v,
            None => {
                return Err(PoolsError::Overflow);
            }
        };
        let ghost pre = *self;
        match self.staking.bond_extra(d.pool_id, extra) {
            Ok(_) => {}
            Err(_) => {
                return Err(PoolsError::Backend);
            }
        }
        self.ledger.insert(who, cur - extra);
        self.bonded_pools.insert(d.pool_id, BondedPool { points: new_pool_points, ..bp });
        self.delegators.insert(who, Delegator { points: new_del_points, ..d });
        proof {
            let j = crate::table::tidx(pre.delegators@, who);
            let pi = crate::table::tidx(pre.bonded_pools@, d.pool_id);
            crate::table::lemma_tget_at(pre.delegators@, j);
            crate::table::lemma_tget_at(pre.bonded_pools@, pi);
            self.lemma_wf_after_del_update(pre, j, pi);
        }
        Ok(())
    }

    /// The live cohorts of pool `p`, empty when it has no sub-pools.
    pub open spec fn with_era_of(&self, p: AccountId) -> Seq<(u32, UnbondPool)> {
        match tget(self.sub_pools@, p) {
            None => Seq::empty(),
            Some(sp) => sp.with_era@,
        }
    }

    /// The merged pool of `p`, zero when it has no sub-pools.
    pub open spec fn no_era_of(&self, p: AccountId) -> UnbondPool {
        match tget(self.sub_pools@, p) {
            None => UnbondPool { points: 0, balance: 0 },
            Some(sp) => sp.no_era,
        }
    }

    /// The cohort of pool `p` unlocking at era `e`, zero when none is live.
    pub open spec fn cohort_of(&self, p: AccountId, e: EraIndex) -> UnbondPool {
        match tget(self.with_era_of(p), e) {
            None => UnbondPool { points: 0, balance: 0 },
            Some(c) => c,
        }
    }

    /// The era an unbond requested now would unlock in.
    pub open spec fn unlock_era(&self) -> int {
        self.staking.era as int + self.staking.duration as int
    }

    /// The balance an unbond of `who`'s full holding would release.
    pub open spec fn unbond_balance(&self, who: AccountId) -> int {
        spec_points_to_balance(
            tget(
                self.bonded_pools@,
                tget(self.delegators@, who)->Some_0.pool_id,
            )->Some_0.points as int,
            self.backend_bonded(tget(self.delegators@, who)->Some_0.pool_id),
            tget(self.delegators@, who)->Some_0.points as int,
        )
    }

    /// The points the unlock cohort would issue for that balance.
    pub open spec fn unbond_issued(&self, who: AccountId) -> int {
        spec_balance_to_points(
            self.cohort_of(
                tget(self.delegators@, who)->Some_0.pool_id,
                self.unlock_era() as EraIndex,
            ).points as int,
            self.cohort_of(
                tget(self.delegators@, who)->Some_0.pool_id,
                self.unlock_era() as EraIndex,
            ).balance as int,
            self.unbond_balance(who),
        )
    }

    /// Why `unbond` would be refused, or `None` when it goes through.
    /// A delegator's stake unbonds as a whole: a request for less than
    /// the full holding would leave a remainder that must instead be
    /// withdrawn in full, and is refused with `MinimumBondNotMet`; the
    /// depositor may only leave once every other delegator's bonded
    /// points are gone.
    pub open spec fn unbond_err(&self, who: AccountId, amount: WideUint) -> Option<PoolsError> {
        match tget(self.delegators@, who) {
            None => Some(PoolsError::DelegatorNotFound),
            Some(d) => {
                match tget(self.bonded_pools@, d.pool_id) {
                    None => Some(PoolsError::PoolNotFound),
                    Some(bp) => {
                        if d.unbonding_era is Some {
                            Some(PoolsError::AlreadyUnbonding)
                        } else if who == bp.depositor && d.points != bp.points {
                            Some(PoolsError::NotOnlyDelegator)
                        } else if amount != d.points {
                            Some(PoolsError::MinimumBondNotMet)
                        } else if self.unbond_balance(who) > Balance::MAX as int
                            || self.unlock_era() > EraIndex::MAX as int {
                            Some(PoolsError::Overflow)
                        } else if self.cohort_of(d.pool_id, self.unlock_era() as EraIndex).points
                            as int + self.unbond_issued(who) > WideUint::MAX as int
                            || self.cohort_of(d.pool_id, self.unlock_era() as EraIndex).balance
                            as int + self.unbond_balance(who) > Balance::MAX as int {
                            Some(PoolsError::Overflow)
                        } else if !(tget(self.staking.bonded@, d.pool_id) is Some && tget(
                            self.staking.bonded@,
                            d.pool_id,
                        )->Some_0 as int >= self.unbond_balance(who)
                            && crate::staking::unbonding_of(self.staking.unbonding@, d.pool_id)
                            + self.unbond_balance(who) <= Balance::MAX as int) {
                            Some(PoolsError::Backend)
                        } else {
                            None
                        }
                    }
                }
            }
        }
    }

    /// Unbond `who`'s full holding of `amount` points: convert them to
    /// balance at the pool's ratio, hand that balance to the backend's
    /// unbonding queue, and credit the cohort unlocking one bonding
    /// duration from now, marking the delegator as unbonding there.
    pub fn unbond(&mut self, who: AccountId, amount: WideUint) -> (r: Result<(), PoolsError>)
        requires
            old(self).wf(),
        ensures
            final(self).wf(),
            final(self).same_config(old(self)),
            match r {
                Err(e) => Some(e) == old(self).unbond_err(who, amount) && *final(self) == *old(
                    self,
                ),
                Ok(_) => {
                    &&& old(self).unbond_err(who, amount) is None
                    &&& forall|a: AccountId|
                        tget(final(self).delegators@, a) == (if a == who {
                            Some(
                                Delegator {
                                    points: old(self).unbond_issued(who) as WideUint,
                                    unbonding_era: Some(old(self).unlock_era() as EraIndex),
                                    ..tget(old(self).delegators@, a)->Some_0
                                },
                            )
                        } else {
                            tget(old(self).delegators@, a)
                        })
                    &&& forall|k: u32|
                        tget(final(self).bonded_pools@, k) == (if k == tget(
                            old(self).delegators@,
                            who,
                        )->Some_0.pool_id {
                            Some(
                                BondedPool {
                                    points: (tget(old(self).bonded_pools@, k)->Some_0.points
                                        as int - tget(
                                        old(self).delegators@,
                                        who,
                                    )->Some_0.points as int) as WideUint,
                                    ..tget(old(self).bonded_pools@, k)->Some_0
                                },
                            )
                        } else {
                            tget(old(self).bonded_pools@, k)
                        })
                    &&& forall|e: EraIndex|
                        tget(
                            final(self).with_era_of(
                                tget(old(self).delegators@, who)->Some_0.pool_id,
                            ),
                            e,
                        ) == (if e as int == old(self).unlock_era() {
                            Some(
                                UnbondPool {
                                    points: (old(self).cohort_of(
                                        tget(old(self).delegators@, who)->Some_0.pool_id,
                                        e,
                                    ).points as int + old(self).unbond_issued(who)) as WideUint,
                                    balance: (old(self).cohort_of(
                                        tget(old(self).delegators@, who)->Some_0.pool_id,
                                        e,
                                    ).balance as int + old(self).unbond_balance(who)) as Balance,
                                },
                            )
                        } else {
                            tget(
                                old(self).with_era_of(
                                    tget(old(self).delegators@, who)->Some_0.pool_id,
                                ),
                                e,
                            )
                        })
                    &&& final(self).no_era_of(tget(old(self).delegators@, who)->Some_0.pool_id)
                        == old(self).no_era_of(tget(old(self).delegators@, who)->Some_0.pool_id)
                    &&& forall|q: u32|
                        q != tget(old(self).delegators@, who)->Some_0.pool_id ==> tget(
                            final(self).sub_pools@,
                            q,
                        ) == tget(old(self).sub_pools@, q)
                    &&& forall|a: AccountId|
                        tget(final(self).staking.bonded@, a) == (if a == tget(
                            old(self).delegators@,
                            who,
                        )->Some_0.pool_id {
                            Some(
                                (tget(old(self).staking.bonded@, a)->Some_0 as int - old(
                                    self,
                                ).unbond_balance(who)) as Balance,
                            )
                        } else {
                            tget(old(self).staking.bonded@, a)
                        })
                    &&& forall|a: AccountId|
                        tget(final(self).staking.unbonding@, a) == (if a == tget(
                            old(self).delegators@,
                            who,
                        )->Some_0.pool_id {
                            Some(
                                (crate::staking::unbonding_of(old(self).staking.unbonding@, a)
                                    + old(self).unbond_balance(who)) as Balance,
                            )
                        } else {
                            tget(old(self).staking.unbonding@, a)
                        })
                    &&& final(self).reward_pools@ == old(self).reward_pools@
                    &&& final(self).ledger@ == old(self).ledger@
                    &&& final(self).staking.era == old(self).staking.era
                    &&& final(self).staking.duration == old(self).staking.duration
                    &&& final(self).staking.min_bond == old(self).staking.min_bond
                    &&& final(self).treasury == old(self).treasury
                },
            },
    {
        let d = match self.delegators.get(who) {
            Some(d) => d,
            None => {
                return Err(PoolsError::DelegatorNotFound);
            }
        };
        let bp = match self.bonded_pools.get(d.pool_id) {
            Some(bp) => bp,
            None => {
                return Err(PoolsError::PoolNotFound);
            }
        };
        if d.unbonding_era.is_some() {
            return Err(PoolsError::AlreadyUnbonding);
        }
        if who == bp.depositor && d.points != bp.points {
            return Err(PoolsError::NotOnlyDelegator);
        }
        if amount != d.points {
            return Err(PoolsError::MinimumBondNotMet);
        }
        let bonded_bal = match self.staking.bonded_balance(d.pool_id) {
            Some(b) => b,
            None => 0,
        };
        let balance_wide = bp.points_to_balance(bonded_bal, d.points);
        let balance = match crate::convert::to_balance(balance_wide) {
            Ok(b) => b,
            Err(_) => {
                return Err(PoolsError::Overflow);
            }
        };
        let unlock = match self.staking.era.checked_add(self.staking.duration) {
            Some(u) => u,
            None => {
                return Err(PoolsError::Overflow);
            }
        };
        let cohort = match self.sub_pools.get_ref(d.pool_id) {
            Some(sp) => {
                match sp.with_era.get(unlock) {
                    Some(c) => c,
                    None => UnbondPool::zero(),
                }
            }
            None => UnbondPool::zero(),
        };
        let issued = cohort.balance_to_point(balance);
        let new_cohort_points = match crate::pools::add_wide(cohort.points, issued) {
            Some(v) => v,
            None => {
                return Err(PoolsError::Overflow);
            }
        };
        let new_cohort_balance = match crate::pools::add_bal(cohort.balance, balance) {
            Some(v) => v,
            None => {
                return Err(PoolsError::Overflow);
            }
        };
        let ghost pre = *self;
        proof {
            let j = crate::table::tidx(pre.delegators@, who);
            crate::table::lemma_tget_at(pre.delegators@, j);
            let pi = crate::table::tidx(pre.bonded_pools@, d.pool_id);
            crate::table::lemma_tget_at(pre.bonded_pools@, pi);
            assert(w_bonded(d.pool_id)(pre.delegators@[j]) == d.points as int);
            crate::sums::lemma_sum_by_elem_le(pre.delegators@, w_bonded(d.pool_id), j);
            assert(d.points <= bp.points);
        }
        match self.staking.unbond(d.pool_id, balance) {
            Ok(_) => {}
            Err(_) => {
                return Err(PoolsError::Backend);
            }
        }
        self.bonded_pools.insert(d.pool_id, BondedPool { points: bp.points - d.points, ..bp });
        let mut sp = match self.sub_pools.remove(d.pool_id) {
            Some(sp) => sp,
            None => SubPools { no_era: UnbondPool::zero(), with_era: Table::new() },
        };
        sp.with_era.insert(
            unlock,
            UnbondPool { points: new_cohort_points, balance: new_cohort_balance },
        );
        self.sub_pools.insert(d.pool_id, sp);
        self.delegators.insert(
            who,
            Delegator { points: issued, unbonding_era: Some(unlock), ..d },
        );
        proof {
            self.lemma_wf_after_unbond(pre, who, d, unlock, issued, balance);
        }
        Ok(())
    }

    /// No delegator but `excl` references pool `p`.
    pub open spec fn no_other_delegator(&self, p: AccountId, excl: AccountId) -> bool {
        forall|i: int|
            0 <= i < self.delegators@.len() && (#[trigger] self.delegators@[i]).1.pool_id == p
                ==> self.delegators@[i].0 == excl
    }

    /// No delegator but `excl` is unbonding from pool `p`.
    pub open spec fn no_other_unbonding(&self, p: AccountId, excl: AccountId) -> bool {
        forall|i: int|
            0 <= i < self.delegators@.len() && (#[trigger] self.delegators@[i]).1.pool_id == p
                && self.delegators@[i].1.unbonding_era is Some ==> self.delegators@[i].0 == excl
    }

    /// No delegator but `excl` is unbonding from pool `p` towards era `e`.
    pub open spec fn no_other_unbonding_at(&self, p: AccountId, e: EraIndex, excl: AccountId) -> bool {
        forall|i: int|
            0 <= i < self.delegators@.len() && (#[trigger] self.delegators@[i]).1.pool_id == p
                && self.delegators@[i].1.unbonding_era == Some(e) ==> self.delegators@[i].0
                == excl
    }

    /// Whether any delegator besides `excl` references pool `p`.
    fn other_delegator_exists(&self, p: AccountId, excl: AccountId) -> (r: bool)
        ensures
            r == !self.no_other_delegator(p, excl),
    {
        let n = self.delegators.len();
        let mut i: usize = 0;
        while i < n
            invariant
                n == self.delegators@.len(),
                i <= n,
                forall|m: int|
                    0 <= m < i && (#[trigger] self.delegators@[m]).1.pool_id == p
                        ==> self.delegators@[m].0 == excl,
            decreases n - i,
        {
            let (a, d) = self.delegators.entry_at(i);
            if d.pool_id == p && a != excl {
                return true;
            }
            i = i + 1;
        }
        false
    }

    /// Whether any delegator besides `excl` is unbonding from pool `p`.
    fn other_unbonding_exists(&self, p: AccountId, excl: AccountId) -> (r: bool)
        ensures
            r == !self.no_other_unbonding(p, excl),
    {
        let n = self.delegators.len();
        let mut i: usize = 0;
        while i < n
            invariant
                n == self.delegators@.len(),
                i <= n,
                forall|m: int|
                    0 <= m < i && (#[trigger] self.delegators@[m]).1.pool_id == p
                        && self.delegators@[m].1.unbonding_era is Some
                        ==> self.delegators@[m].0 == excl,
            decreases n - i,
        {
            let (a, d) = self.delegators.entry_at(i);
            if d.pool_id == p && d.unbonding_era.is_some() && a != excl {
                return true;
            }
            i = i + 1;
        }
        false
    }

    /// Whether any delegator besides `excl` is unbonding from pool `p`
    /// towards era `e`.
    fn other_unbonding_at_exists(&self, p: AccountId, e: EraIndex, excl: AccountId) -> (r: bool)
        ensures
            r == !self.no_other_unbonding_at(p, e, excl),
    {
        let n = self.delegators.len();
        let mut i: usize = 0;
        while i < n
            invariant
                n == self.delegators@.len(),
                i <= n,
                forall|m: int|
                    0 <= m < i && (#[trigger] self.delegators@[m]).1.pool_id == p
                        && self.delegators@[m].1.unbonding_era == Some(e)
                        ==> self.delegators@[m].0 == excl,
            decreases n - i,
        {
            let (a, d) = self.delegators.entry_at(i);
            if d.pool_id == p && a != excl {
                match d.unbonding_era {
                    Some(e2) => {
                        if e2 == e {
                            return true;
                        }
                    }
                    None => {}
                }
            }
            i = i + 1;
        }
        false
    }

    /// After a full unbond — the delegator marked unbonding with the
    /// cohort's freshly issued points, the pool's points reduced by the
    /// delegator's old points, and the unlock cohort credited — `wf`
    /// still holds.
    proof fn lemma_wf_after_unbond(
        &self,
        pre: PoolEngine,
        who: AccountId,
        d: Delegator,
        unlock: EraIndex,
        issued: WideUint,
        balance: Balance,
    )
        requires
            pre.wf(),
            tget(pre.delegators@, who) == Some(d),
            d.unbonding_era is None,
            tcontains(pre.bonded_pools@, d.pool_id),
            unlock as int == pre.staking.era as int + pre.staking.duration as int,
            self.delegators@ == pre.delegators@.update(
                crate::table::tidx(pre.delegators@, who),
                (who, Delegator { points: issued, unbonding_era: Some(unlock), ..d }),
            ),
            self.bonded_pools@ == pre.bonded_pools@.update(
                crate::table::tidx(pre.bonded_pools@, d.pool_id),
                (
                    d.pool_id,
                    BondedPool {
                        points: (tget(pre.bonded_pools@, d.pool_id)->Some_0.points
                            - d.points) as WideUint,
                        ..tget(pre.bonded_pools@, d.pool_id)->Some_0
                    },
                ),
            ),
            d.points <= tget(pre.bonded_pools@, d.pool_id)->Some_0.points,
            tuniq(self.sub_pools@),
            tget(self.sub_pools@, d.pool_id) is Some,
            forall|q: u32|
                q != d.pool_id ==> tget(self.sub_pools@, q) == tget(pre.sub_pools@, q),
            tuniq(tget(self.sub_pools@, d.pool_id)->Some_0.with_era@),
            tget(tget(self.sub_pools@, d.pool_id)->Some_0.with_era@, unlock) == Some(
                UnbondPool {
                    points: (pre.cohort_of(d.pool_id, unlock).points + issued) as WideUint,
                    balance: (pre.cohort_of(d.pool_id, unlock).balance + balance) as Balance,
                },
            ),
            (pre.cohort_of(d.pool_id, unlock).points as int) + (issued as int) <= WideUint::MAX
                as int,
            forall|e: EraIndex|
                e != unlock ==> tget(
                    tget(self.sub_pools@, d.pool_id)->Some_0.with_era@,
                    e,
                ) == tget(pre.with_era_of(d.pool_id), e),
            tget(self.sub_pools@, d.pool_id)->Some_0.no_era == pre.no_era_of(d.pool_id),
            self.reward_pools@ == pre.reward_pools@,
            tuniq(self.ledger@),
            self.staking.wf(),
            self.staking.era == pre.staking.era,
            self.post_unbonding_pools_window == pre.post_unbonding_pools_window,
        ensures
            self.wf(),
    {
        let p = d.pool_id;
        let dels = pre.delegators@;
        let dels2 = self.delegators@;
        let j = crate::table::tidx(dels, who);
        crate::table::lemma_tget_at(dels, j);
        let d2 = Delegator { points: issued, unbonding_era: Some(unlock), ..d };
        let s = pre.bonded_pools@;
        let t = self.bonded_pools@;
        let pi = crate::table::tidx(s, p);
        crate::table::lemma_tget_at(s, pi);
        let sp2 = tget(self.sub_pools@, p)->Some_0;
        let we2 = sp2.with_era@;
        let wep = pre.with_era_of(p);
        // Entry-level framing.
        assert(forall|m: int| 0 <= m < dels.len() && m != j ==> dels2[m] == dels[m]);
        assert(forall|m: int| 0 <= m < dels.len() ==> (#[trigger] dels2[m]).0 == dels[m].0);
        assert(forall|m: int|
            0 <= m < dels.len() ==> (#[trigger] dels2[m]).1.pool_id == dels[m].1.pool_id);
        assert(dels2[j] == (who, d2));
        assert(forall|m: int| 0 <= m < s.len() && m != pi ==> t[m] == s[m]);
        assert(forall|m: int| 0 <= m < s.len() ==> (#[trigger] t[m]).0 == s[m].0);
        assert(tuniq(dels2));
        assert(tuniq(t));
        // No delegator of the pool was already unbonding towards `unlock`
        // outside a live cohort, and none at all while the pool had no
        // sub-pools entry: `unlock` lies inside the window.
        assert forall|i: int|
            0 <= i < dels.len() && (#[trigger] dels[i]).1.pool_id == p && dels[i].1.unbonding_era == Some(unlock) implies tcontains(wep, unlock) by {
            assert(tcontains(pre.sub_pools@, p));
            let si = crate::table::tidx(pre.sub_pools@, p);
            crate::table::lemma_tget_at(pre.sub_pools@, si);
            assert(sp_wf(
                p,
                pre.sub_pools@[si].1,
                dels,
                pre.staking.era,
                pre.post_unbonding_pools_window,
            ));
            if !tcontains(wep, unlock) {
                assert((unlock as int) + (pre.post_unbonding_pools_window as int) < (
                pre.staking.era as int));
            }
        }
        // Key containment equivalences.
        assert(forall|k: u32| tcontains(t, k) <==> tcontains(s, k)) by {
            assert forall|k: u32| tcontains(t, k) implies tcontains(s, k) by {
                let m = crate::table::tidx(t, k);
                assert(s[m].0 == k);
            }
            assert forall|k: u32| tcontains(s, k) implies tcontains(t, k) by {
                let m = crate::table::tidx(s, k);
                assert(t[m].0 == k);
            }
        }
        assert(forall|k: u32| tcontains(dels2, k) <==> tcontains(dels, k)) by {
            assert forall|k: u32| tcontains(dels2, k) implies tcontains(dels, k) by {
                let m = crate::table::tidx(dels2, k);
                assert(dels[m].0 == k);
            }
            assert forall|k: u32| tcontains(dels, k) implies tcontains(dels2, k) by {
                let m = crate::table::tidx(dels, k);
                assert(dels2[m].0 == k);
            }
        }
        assert forall|k: u32| tcontains(self.sub_pools@, k) implies tcontains(t, k) by {
            if k == p {
                assert(tcontains(s, p));
            } else {
                assert(tget(self.sub_pools@, k) == tget(pre.sub_pools@, k));
                assert(tget(pre.sub_pools@, k) is Some);
                assert(tcontains(pre.sub_pools@, k));
                assert(tcontains(pre.bonded_pools@, k));
            }
        }
        // Bonded-points conservation.
        assert forall|m: int| 0 <= m < t.len() implies (#[trigger] t[m]).1.points as int
            == sum_by(dels2, w_bonded(t[m].0)) by {
            crate::sums::lemma_sum_by_update(dels, w_bonded(t[m].0), j, (who, d2));
            if m == pi {
                assert(w_bonded(p)((who, d)) == d.points as int);
                assert(w_bonded(p)((who, d2)) == 0);
            } else {
                assert(t[m] == s[m]);
                assert(t[m].0 != p) by {
                    if t[m].0 == p {
                        assert(s[m].0 == s[pi].0);
                    }
                }
                assert(w_bonded(t[m].0)((who, d)) == 0);
                assert(w_bonded(t[m].0)((who, d2)) == 0);
            }
        }
        // Sub-pool conservation, entry by entry.
        assert forall|m: int| 0 <= m < self.sub_pools@.len() implies sp_wf(
            (#[trigger] self.sub_pools@[m]).0,
            self.sub_pools@[m].1,
            dels2,
            self.staking.era,
            self.post_unbonding_pools_window,
        ) by {
            let q = self.sub_pools@[m].0;
            let spq = self.sub_pools@[m].1;
            crate::table::lemma_tget_at(self.sub_pools@, m);
            if q == p {
                assert(spq == sp2);
                let had = tcontains(pre.sub_pools@, p);
                if had {
                    let si = crate::table::tidx(pre.sub_pools@, p);
                    crate::table::lemma_tget_at(pre.sub_pools@, si);
                    assert(sp_wf(
                        p,
                        tget(pre.sub_pools@, p)->Some_0,
                        dels,
                        pre.staking.era,
                        pre.post_unbonding_pools_window,
                    ));
                } else {
                    assert forall|i: int|
                        0 <= i < dels.len() && (#[trigger] dels[i]).1.pool_id == p implies dels[i].1.unbonding_era is None by {
                        if dels[i].1.unbonding_era is Some {
                            assert(tcontains(pre.sub_pools@, p));
                        }
                    }
                    assert(wep == Seq::<(u32, UnbondPool)>::empty());
                }
                // Each live cohort of the new entry carries its sum.
                assert forall|n: int| 0 <= n < we2.len() implies (
                #[trigger] we2[n]).1.points as int == sum_by(
                    dels2,
                    w_unbonding_at(p, we2[n].0),
                ) by {
                    let e = we2[n].0;
                    crate::table::lemma_tget_at(we2, n);
                    crate::sums::lemma_sum_by_update(dels, w_unbonding_at(p, e), j, (who, d2));
                    if e == unlock {
                        assert(w_unbonding_at(p, unlock)((who, d)) == 0);
                        assert(w_unbonding_at(p, unlock)((who, d2)) == issued as int);
                        if tcontains(wep, unlock) {
                            let wi = crate::table::tidx(wep, unlock);
                            crate::table::lemma_tget_at(wep, wi);
                            assert(pre.cohort_of(p, unlock).points as int == sum_by(
                                dels,
                                w_unbonding_at(p, unlock),
                            ));
                        } else {
                            assert forall|i: int| 0 <= i < dels.len() implies w_unbonding_at(
                                p,
                                unlock,
                            )(#[trigger] dels[i]) == 0 by {
                                if dels[i].1.pool_id == p && dels[i].1.unbonding_era == Some(
                                    unlock,
                                ) {
                                    assert(tcontains(wep, unlock));
                                }
                            }
                            crate::sums::lemma_sum_by_zero(dels, w_unbonding_at(p, unlock));
                            assert(pre.cohort_of(p, unlock).points == 0);
                        }
                    } else {
                        assert(tget(we2, e) == tget(wep, e));
                        assert(tget(wep, e) == Some(we2[n].1));
                        let wi = crate::table::tidx(wep, e);
                        crate::table::lemma_tget_at(wep, wi);
                        assert(we2[n].1.points as int == sum_by(dels, w_unbonding_at(p, e)));
                        assert(w_unbonding_at(p, e)((who, d)) == 0);
                        assert(w_unbonding_at(p, e)((who, d2)) == 0);
                    }
                }
                // The merged pool's sum is untouched.
                assert(sp2.no_era.points as int == sum_by(dels2, w_unbonding_merged(p, we2)))
                    by {
                    crate::sums::lemma_sum_by_update(
                        dels,
                        w_unbonding_merged(p, we2),
                        j,
                        (who, d2),
                    );
                    assert(w_unbonding_merged(p, we2)((who, d)) == 0);
                    assert(tcontains(we2, unlock)) by {
                        assert(tget(we2, unlock) is Some);
                    }
                    assert(w_unbonding_merged(p, we2)((who, d2)) == 0);
                    assert forall|i: int| 0 <= i < dels.len() implies w_unbonding_merged(
                        p,
                        we2,
                    )(#[trigger] dels[i]) == w_unbonding_merged(p, wep)(dels[i]) by {
                        let di = dels[i].1;
                        if di.pool_id == p && di.unbonding_era is Some {
                            let e = di.unbonding_era->Some_0;
                            if e == unlock {
                                assert(tcontains(wep, unlock));
                                assert(tcontains(we2, unlock)) by {
                                    assert(tget(we2, unlock) is Some);
                                }
                            } else {
                                assert(tget(we2, e) == tget(wep, e));
                                assert(tcontains(we2, e) <==> tget(we2, e) is Some);
                                assert(tcontains(wep, e) <==> tget(wep, e) is Some);
                            }
                        }
                    }
                    crate::sums::lemma_sum_by_ext(
                        dels,
                        w_unbonding_merged(p, we2),
                        w_unbonding_merged(p, wep),
                    );
                    if tcontains(pre.sub_pools@, p) {
                        let si = crate::table::tidx(pre.sub_pools@, p);
                        crate::table::lemma_tget_at(pre.sub_pools@, si);
                        assert(sp_wf(
                            p,
                            tget(pre.sub_pools@, p)->Some_0,
                            dels,
                            pre.staking.era,
                            pre.post_unbonding_pools_window,
                        ));
                        assert(sum_by(dels, w_unbonding_merged(p, wep)) == pre.no_era_of(
                            p,
                        ).points as int);
                    } else {
                        assert forall|i: int| 0 <= i < dels.len() implies w_unbonding_merged(
                            p,
                            wep,
                        )(#[trigger] dels[i]) == 0 by {
                            if dels[i].1.pool_id == p && dels[i].1.unbonding_era is Some {
                                assert(tcontains(pre.sub_pools@, p));
                            }
                        }
                        crate::sums::lemma_sum_by_zero(dels, w_unbonding_merged(p, wep));
                    }
                }
                // Stragglers still lie past the window.
                assert forall|i: int|
                    0 <= i < dels2.len() && (#[trigger] dels2[i]).1.pool_id == p && dels2[i].1.unbonding_era is Some && !tcontains(
                        we2,
                        dels2[i].1.unbonding_era->Some_0,
                    ) implies (dels2[i].1.unbonding_era->Some_0 as int) + (
                    self.post_unbonding_pools_window as int) < (self.staking.era as int) by {
                    let e = dels2[i].1.unbonding_era->Some_0;
                    if i == j {
                        assert(tcontains(we2, unlock)) by {
                            assert(tget(we2, unlock) is Some);
                        }
                    } else {
                        assert(dels2[i] == dels[i]);
                        assert(e != unlock ==> tget(we2, e) == tget(wep, e));
                        assert(tcontains(we2, unlock)) by {
                            assert(tget(we2, unlock) is Some);
                        }
                        assert(e != unlock);
                        assert(!tcontains(wep, e)) by {
                            if tcontains(wep, e) {
                                let wi = crate::table::tidx(wep, e);
                                crate::table::lemma_tget_at(wep, wi);
                                assert(tget(we2, e) is Some);
                            }
                        }
                    }
                }
            } else {
                assert(tget(self.sub_pools@, q) == Some(spq));
                assert(tget(pre.sub_pools@, q) == Some(spq));
                let si = crate::table::tidx(pre.sub_pools@, q);
                crate::table::lemma_tget_at(pre.sub_pools@, si);
                assert(sp_wf(q, spq, dels, pre.staking.era, pre.post_unbonding_pools_window));
                assert forall|n: int| 0 <= n < spq.with_era@.len() implies (
                #[trigger] spq.with_era@[n]).1.points as int == sum_by(
                    dels2,
                    w_unbonding_at(q, spq.with_era@[n].0),
                ) by {
                    crate::sums::lemma_sum_by_update(
                        dels,
                        w_unbonding_at(q, spq.with_era@[n].0),
                        j,
                        (who, d2),
                    );
                    assert(w_unbonding_at(q, spq.with_era@[n].0)((who, d)) == 0);
                    assert(w_unbonding_at(q, spq.with_era@[n].0)((who, d2)) == 0);
                }
                crate::sums::lemma_sum_by_update(
                    dels,
                    w_unbonding_merged(q, spq.with_era@),
                    j,
                    (who, d2),
                );
                assert(w_unbonding_merged(q, spq.with_era@)((who, d)) == 0);
                assert(w_unbonding_merged(q, spq.with_era@)((who, d2)) == 0);
            }
        }
        // Every pool still has a delegator; unbonding delegators still
        // have a sub-pools entry.
        assert forall|m: int| 0 <= m < t.len() implies has_delegator_for(
            dels2,
            (#[trigger] t[m]).0,
        ) by {
            assert(has_delegator_for(dels, s[m].0));
            let j2 = choose|j2: int|
                0 <= j2 < dels.len() && (#[trigger] dels[j2]).1.pool_id == s[m].0;
            assert(dels2[j2].1.pool_id == t[m].0);
        }
        assert forall|i: int|
            0 <= i < dels2.len() && (#[trigger] dels2[i]).1.unbonding_era
                is Some implies tcontains(self.sub_pools@, dels2[i].1.pool_id) by {
            if i == j {
                assert(tget(self.sub_pools@, p) is Some);
            } else {
                assert(dels2[i] == dels[i]);
                assert(tcontains(pre.sub_pools@, dels[i].1.pool_id));
                if dels[i].1.pool_id != p {
                    assert(tget(self.sub_pools@, dels[i].1.pool_id) == tget(
                        pre.sub_pools@,
                        dels[i].1.pool_id,
                    ));
                    assert(tget(pre.sub_pools@, dels[i].1.pool_id) is Some);
                } else {
                    assert(tget(self.sub_pools@, p) is Some);
                }
            }
        }
    }

    /// The cohort a withdrawal by `who` pays out of: the live cohort of
    /// its unlock era, or the merged pool once that cohort is gone.
    pub open spec fn withdraw_cohort(&self, who: AccountId) -> UnbondPool {
        let d = tget(self.delegators@, who)->Some_0;
        let e = d.unbonding_era->Some_0;
        if tcontains(self.with_era_of(d.pool_id), e) {
            tget(self.with_era_of(d.pool_id), e)->Some_0
        } else {
            self.no_era_of(d.pool_id)
        }
    }

    /// The balance a withdrawal by `who` pays out: the delegator's share
    /// of its cohort, at the cohort's own ratio.
    pub open spec fn withdraw_share(&self, who: AccountId) -> int {
        spec_points_to_balance(
            self.withdraw_cohort(who).points as int,
            self.withdraw_cohort(who).balance as int,
            tget(self.delegators@, who)->Some_0.points as int,
        )
    }

    /// Why `withdraw_unbonded` would be refused, or `None` when it goes
    /// through. An account with no record — as after a completed
    /// withdrawal — is refused with `NotUnbonding`, so a second
    /// withdrawal in the same era fails with exactly that error.
    pub open spec fn withdraw_err(&self, who: AccountId) -> Option<PoolsError> {
        match tget(self.delegators@, who) {
            None => Some(PoolsError::NotUnbonding),
            Some(d) => {
                match d.unbonding_era {
                    None => Some(PoolsError::NotUnbonding),
                    Some(e) => {
                        if self.staking.era < e {
                            Some(PoolsError::NotUnbondedYet)
                        } else {
                            let share = self.withdraw_share(who);
                            let freed = crate::staking::unbonding_of(
                                self.staking.unbonding@,
                                d.pool_id,
                            );
                            let pool_mid = ledger_of(self.ledger@, d.pool_id) + freed;
                            if pool_mid > Balance::MAX as int {
                                Some(PoolsError::Overflow)
                            } else if pool_mid < share {
                                Some(PoolsError::Ledger)
                            } else if (if who == d.pool_id {
                                pool_mid - share
                            } else {
                                ledger_of(self.ledger@, who)
                            }) + share > Balance::MAX as int {
                                Some(PoolsError::Overflow)
                            } else if self.no_other_delegator(d.pool_id, who) && self.treasury
                                as int + tget(self.reward_pools@, d.pool_id)->Some_0.balance
                                as int > Balance::MAX as int {
                                Some(PoolsError::Overflow)
                            } else {
                                None
                            }
                        }
                    }
                }
            }
        }
    }

    /// Withdraw `who`'s unbonded funds once the unlock era has arrived:
    /// drain the pool's unbonding balance from the backend, pay the
    /// delegator its cohort share, remove the delegator's record, and
    /// tear down the cohort, the sub-pools and finally the pool itself
    /// as each runs empty; a destroyed pool's residual reward balance is
    /// swept to the treasury.
    pub fn withdraw_unbonded(&mut self, who: AccountId) -> (r: Result<Balance, PoolsError>)
        requires
            old(self).wf(),
        ensures
            final(self).wf(),
            final(self).same_config(old(self)),
            match r {
                Err(err) => Some(err) == old(self).withdraw_err(who) && *final(self) == *old(
                    self,
                ),
                Ok(paid) => {
                    let d = tget(old(self).delegators@, who)->Some_0;
                    let p = d.pool_id;
                    let e = d.unbonding_era->Some_0;
                    let share = old(self).withdraw_share(who);
                    let freed = crate::staking::unbonding_of(old(self).staking.unbonding@, p);
                    let destroyed = old(self).no_other_delegator(p, who);
                    let dropped = old(self).no_other_unbonding(p, who);
                    let live = tcontains(old(self).with_era_of(p), e);
                    let cohort = old(self).withdraw_cohort(who);
                    let cohort_gone = live && cohort.points == d.points && old(
                        self,
                    ).no_other_unbonding_at(p, e, who);
                    &&& old(self).withdraw_err(who) is None
                    &&& paid as int == share
                    &&& forall|a: AccountId|
                        tget(final(self).delegators@, a) == (if a == who {
                            None::<Delegator>
                        } else {
                            tget(old(self).delegators@, a)
                        })
                    &&& forall|k: u32|
                        tget(final(self).bonded_pools@, k) == (if k == p && destroyed {
                            None::<BondedPool>
                        } else {
                            tget(old(self).bonded_pools@, k)
                        })
                    &&& forall|k: u32|
                        tget(final(self).reward_pools@, k) == (if k == p && destroyed {
                            None::<RewardPool>
                        } else {
                            tget(old(self).reward_pools@, k)
                        })
                    &&& final(self).treasury as int == (if destroyed {
                        old(self).treasury as int + tget(
                            old(self).reward_pools@,
                            p,
                        )->Some_0.balance as int
                    } else {
                        old(self).treasury as int
                    })
                    &&& forall|q: u32|
                        q != p ==> tget(final(self).sub_pools@, q) == tget(
                            old(self).sub_pools@,
                            q,
                        )
                    &&& (dropped ==> tget(final(self).sub_pools@, p) is None)
                    &&& (!dropped ==> tget(final(self).sub_pools@, p) is Some && {
                        let sp2 = tget(final(self).sub_pools@, p)->Some_0;
                        if live {
                            &&& sp2.no_era == old(self).no_era_of(p)
                            &&& forall|e2: EraIndex|
                                e2 != e ==> tget(sp2.with_era@, e2) == tget(
                                    old(self).with_era_of(p),
                                    e2,
                                )
                            &&& tget(sp2.with_era@, e) == (if cohort_gone {
                                None::<UnbondPool>
                            } else {
                                Some(
                                    UnbondPool {
                                        points: (cohort.points - d.points) as WideUint,
                                        balance: (cohort.balance as int - share) as Balance,
                                    },
                                )
                            })
                        } else {
                            &&& sp2.with_era@ == tget(old(self).sub_pools@, p)->Some_0.with_era@
                            &&& sp2.no_era == (UnbondPool {
                                points: (cohort.points - d.points) as WideUint,
                                balance: (cohort.balance as int - share) as Balance,
                            })
                        }
                    })
                    &&& forall|a: AccountId|
                        ledger_of(final(self).ledger@, a) == (if a == who {
                            (if who == p {
                                ledger_of(old(self).ledger@, p) + freed - share
                            } else {
                                ledger_of(old(self).ledger@, who)
                            }) + share
                        } else if a == p {
                            ledger_of(old(self).ledger@, p) + freed - share
                        } else {
                            ledger_of(old(self).ledger@, a)
                        })
                    &&& forall|a: AccountId|
                        tget(final(self).staking.unbonding@, a) == (if a == p {
                            None::<Balance>
                        } else {
                            tget(old(self).staking.unbonding@, a)
                        })
                    &&& final(self).staking.bonded@ == old(self).staking.bonded@
                    &&& final(self).staking.era == old(self).staking.era
                    &&& final(self).staking.duration == old(self).staking.duration
                    &&& final(self).staking.min_bond == old(self).staking.min_bond
                },
            },
    {
        let d = match self.delegators.get(who) {
            Some(d) => d,
            None => {
                return Err(PoolsError::NotUnbonding);
            }
        };
        let e = match d.unbonding_era {
            Some(e) => e,
            None => {
                return Err(PoolsError::NotUnbonding);
            }
        };
        if self.staking.era < e {
            return Err(PoolsError::NotUnbondedYet);
        }
        let p = d.pool_id;
        let ghost j = crate::table::tidx(self.delegators@, who);
        proof {
            crate::table::lemma_tget_at(self.delegators@, j);
            assert(tcontains(self.sub_pools@, p));
        }
        let ghost si = crate::table::tidx(self.sub_pools@, p);
        proof {
            crate::table::lemma_tget_at(self.sub_pools@, si);
            assert(sp_wf(
                p,
                tget(self.sub_pools@, p)->Some_0,
                self.delegators@,
                self.staking.era,
                self.post_unbonding_pools_window,
            ));
        }
        let sp_ref = match self.sub_pools.get_ref(p) {
            Some(s) => s,
            None => {
                proof {
                    assert(false);
                }
                return Err(PoolsError::PoolNotFound);
            }
        };
        let live = sp_ref.with_era.contains_key(e);
        let cohort = if live {
            match sp_ref.with_era.get(e) {
                Some(c) => c,
                None => {
                    proof {
                        assert(false);
                    }
                    UnbondPool::zero()
                }
            }
        } else {
            sp_ref.no_era
        };
        proof {
            let dels = self.delegators@;
            let wep = self.with_era_of(p);
            if live {
                let wi = crate::table::tidx(wep, e);
                crate::table::lemma_tget_at(wep, wi);
                assert(cohort.points as int == sum_by(dels, w_unbonding_at(p, e)));
                assert(w_unbonding_at(p, e)(dels[j]) == d.points as int);
                crate::sums::lemma_sum_by_elem_le(dels, w_unbonding_at(p, e), j);
            } else {
                assert(cohort.points as int == sum_by(dels, w_unbonding_merged(p, wep)));
                assert(w_unbonding_merged(p, wep)(dels[j]) == d.points as int);
                crate::sums::lemma_sum_by_elem_le(dels, w_unbonding_merged(p, wep), j);
            }
            assert(d.points <= cohort.points);
            crate::pools::lemma_share_le_balance(
                cohort.points as int,
                cohort.balance as int,
                d.points as int,
            );
        }
        let share_wide = cohort.point_to_balance(d.points);
        let share = match crate::convert::to_balance(share_wide) {
            Ok(s) => s,
            Err(_) => {
                proof {
                    assert(false);
                }
                return Err(PoolsError::Overflow);
            }
        };
        let freed = match self.staking.unbonding.get(p) {
            Some(u) => u,
            None => 0,
        };
        let pool_free = self.free_balance(p);
        let pool_mid = match crate::pools::add_bal(pool_free, freed) {
            Some(v) => v,
            None => {
                return Err(PoolsError::Overflow);
            }
        };
        if pool_mid < share {
            return Err(PoolsError::Ledger);
        }
        let pool_after = pool_mid - share;
        let who_mid = if who == p {
            pool_after
        } else {
            self.free_balance(who)
        };
        let who_after = match crate::pools::add_bal(who_mid, share) {
            Some(v) => v,
            None => {
                return Err(PoolsError::Overflow);
            }
        };
        let destroyed = !self.other_delegator_exists(p, who);
        let dropped = !self.other_unbonding_exists(p, who);
        let cohort_gone = live && cohort.points == d.points && !self.other_unbonding_at_exists(
            p,
            e,
            who,
        );
        let rp = match self.reward_pools.get(p) {
            Some(rp) => rp,
            None => {
                proof {
                    assert(false);
                }
                return Err(PoolsError::PoolNotFound);
            }
        };
        let new_treasury = if destroyed {
            match crate::pools::add_bal(self.treasury, rp.balance) {
                Some(v) => v,
                None => {
                    return Err(PoolsError::Overflow);
                }
            }
        } else {
            self.treasury
        };
        let ghost pre = *self;
        let _ = self.staking.withdraw_unbonded(p);
        self.ledger.insert(p, pool_after);
        self.ledger.insert(who, who_after);
        let mut sp = match self.sub_pools.remove(p) {
            Some(s) => s,
            None => {
                proof {
                    assert(false);
                }
                SubPools { no_era: UnbondPool::zero(), with_era: Table::new() }
            }
        };
        let new_cohort = UnbondPool { points: cohort.points - d.points, balance: cohort.balance
            - share };
        if live {
            if cohort_gone {
                let _ = sp.with_era.remove(e);
            } else {
                sp.with_era.insert(e, new_cohort);
            }
        } else {
            sp.no_era = new_cohort;
        }
        let _ = self.delegators.remove(who);
        if !dropped {
            self.sub_pools.insert(p, sp);
        }
        if destroyed {
            let _ = self.bonded_pools.remove(p);
            let _ = self.reward_pools.remove(p);
            self.treasury = new_treasury;
        }
        proof {
            assert forall|k: u32| tcontains(self.reward_pools@, k) <==> (tcontains(
                pre.reward_pools@,
                k,
            ) && !(destroyed && k == p)) by {
                assert(tcontains(self.reward_pools@, k) <==> tget(self.reward_pools@, k)
                    is Some);
                assert(tcontains(pre.reward_pools@, k) <==> tget(pre.reward_pools@, k)
                    is Some);
            }
            self.lemma_wf_after_withdraw(pre, who, d, e, share, live, cohort_gone, dropped,
                destroyed);
        }
        Ok(share)
    }

    /// Whether merging a pool's out-of-window cohorts into its merged
    /// pool would overflow the merged pool's points or balance.
    pub open spec fn rotate_overflows(&self, pool_account: AccountId) -> bool {
        tcontains(self.sub_pools@, pool_account) && {
            let sp = tget(self.sub_pools@, pool_account)->Some_0;
            ||| sp.no_era.points as int + sum_by(
                sp.with_era@,
                w_pruned_points(self.staking.era, self.post_unbonding_pools_window),
            ) > WideUint::MAX as int
            ||| sp.no_era.balance as int + sum_by(
                sp.with_era@,
                w_pruned_balance(self.staking.era, self.post_unbonding_pools_window),
            ) > Balance::MAX as int
        }
    }

    /// The amortized sub-pool maintenance for one pool: every cohort
    /// whose unlock era lies further back than the post-unbonding window
    /// is merged into the `no_era` pool — points and balance summed —
    /// and dropped from the live cohorts, bounding their number. A pool
    /// without sub-pools is left alone; an overflow of the merged pool
    /// refuses the whole rotation, touching nothing.
    pub fn rotate_sub_pools(&mut self, pool_account: AccountId) -> (r: Result<(), PoolsError>)
        requires
            old(self).wf(),
        ensures
            final(self).wf(),
            final(self).same_config(old(self)),
            final(self).bonded_pools@ == old(self).bonded_pools@,
            final(self).reward_pools@ == old(self).reward_pools@,
            final(self).delegators@ == old(self).delegators@,
            final(self).ledger@ == old(self).ledger@,
            final(self).staking == old(self).staking,
            final(self).treasury == old(self).treasury,
            forall|q: u32|
                q != pool_account ==> tget(final(self).sub_pools@, q) == tget(
                    old(self).sub_pools@,
                    q,
                ),
            r is Err <==> old(self).rotate_overflows(pool_account),
            r is Err ==> r->Err_0 == PoolsError::Overflow && *final(self) == *old(self),
            !tcontains(old(self).sub_pools@, pool_account) ==> *final(self) == *old(self),
            r is Ok && tcontains(old(self).sub_pools@, pool_account) ==> tget(
                final(self).sub_pools@,
                pool_account,
            ) is Some && {
                let sp = tget(old(self).sub_pools@, pool_account)->Some_0;
                let sp2 = tget(final(self).sub_pools@, pool_account)->Some_0;
                let era = old(self).staking.era;
                let window = old(self).post_unbonding_pools_window;
                &&& forall|e2: EraIndex|
                    tget(sp2.with_era@, e2) == (if (e2 as int) + (window as int) >= (
                    era as int) {
                        tget(sp.with_era@, e2)
                    } else {
                        None::<UnbondPool>
                    })
                &&& sp2.no_era.points as int == sp.no_era.points as int + sum_by(
                    sp.with_era@,
                    w_pruned_points(era, window),
                )
                &&& sp2.no_era.balance as int == sp.no_era.balance as int + sum_by(
                    sp.with_era@,
                    w_pruned_balance(era, window),
                )
            },
    {
        let era = self.staking.era;
        let window = self.post_unbonding_pools_window;
        let p = pool_account;
        let ghost pre = *self;
        let sp_ref = match self.sub_pools.get_ref(p) {
            Some(s) => s,
            None => {
                return Ok(());
            }
        };
        proof {
            let si = crate::table::tidx(pre.sub_pools@, p);
            crate::table::lemma_tget_at(pre.sub_pools@, si);
            assert(sp_wf(
                p,
                tget(pre.sub_pools@, p)->Some_0,
                pre.delegators@,
                era,
                window,
            ));
        }
        let ghost we = sp_ref.with_era@;
        let ne0 = sp_ref.no_era;
        let n = sp_ref.with_era.len();
        let mut kept: Table<UnbondPool> = Table::new();
        let mut acc_p: WideUint = ne0.points;
        let mut acc_b: Balance = ne0.balance;
        let mut i: usize = 0;
        proof {
            assert(we.take(0) =~= Seq::<(u32, UnbondPool)>::empty());
            assert(forall|j: int|
                0 <= j < we.len() ==> w_pruned_points(era, window)(#[trigger] we[j]) >= 0);
            assert(forall|j: int|
                0 <= j < we.len() ==> w_pruned_balance(era, window)(#[trigger] we[j]) >= 0);
        }
        while i < n
            invariant
                *self == pre,
                pre == *old(self),
                pre.wf(),
                p == pool_account,
                sp_ref.with_era@ == we,
                tget(pre.sub_pools@, p) is Some,
                we == tget(pre.sub_pools@, p)->Some_0.with_era@,
                ne0 == tget(pre.sub_pools@, p)->Some_0.no_era,
                tuniq(we),
                n == we.len(),
                i <= n,
                era == pre.staking.era,
                window == pre.post_unbonding_pools_window,
                forall|j: int|
                    0 <= j < we.len() ==> w_pruned_points(era, window)(#[trigger] we[j]) >= 0,
                forall|j: int|
                    0 <= j < we.len() ==> w_pruned_balance(era, window)(#[trigger] we[j]) >= 0,
                tuniq(kept@),
                forall|e2: EraIndex|
                    tget(kept@, e2) == (if tcontains(we.take(i as int), e2) && (e2 as int) + (
                    window as int) >= (era as int) {
                        tget(we, e2)
                    } else {
                        None::<UnbondPool>
                    }),
                acc_p as int == ne0.points as int + sum_by(
                    we.take(i as int),
                    w_pruned_points(era, window),
                ),
                acc_b as int == ne0.balance as int + sum_by(
                    we.take(i as int),
                    w_pruned_balance(era, window),
                ),
                sum_by(kept@, w_points()) == sum_by(
                    we.take(i as int),
                    w_kept_points(era, window),
                ),
            decreases n - i,
        {
            let (e2, up) = sp_ref.with_era.entry_at(i);
            proof {
                crate::table::lemma_tget_at(we, i as int);
                crate::sums::lemma_sum_by_take_step(we, w_pruned_points(era, window), i as int);
                crate::sums::lemma_sum_by_take_step(we, w_pruned_balance(era, window), i as int);
                crate::sums::lemma_sum_by_take_step(we, w_kept_points(era, window), i as int);
                assert(!tcontains(we.take(i as int), e2)) by {
                    if tcontains(we.take(i as int), e2) {
                        let j = crate::table::tidx(we.take(i as int), e2);
                        assert(we[j].0 == e2);
                    }
                }
            }
            if (e2 as u64) + (window as u64) < era as u64 {
                let np = match crate::pools::add_wide(acc_p, up.points) {
                    Some(v) => v,
                    None => {
                        proof {
                            crate::sums::lemma_sum_by_take_le(
                                we,
                                w_pruned_points(era, window),
                                i as int + 1,
                            );
                        }
                        return Err(PoolsError::Overflow);
                    }
                };
                let nb = match crate::pools::add_bal(acc_b, up.balance) {
                    Some(v) => v,
                    None => {
                        proof {
                            crate::sums::lemma_sum_by_take_le(
                                we,
                                w_pruned_balance(era, window),
                                i as int + 1,
                            );
                        }
                        return Err(PoolsError::Overflow);
                    }
                };
                acc_p = np;
                acc_b = nb;
                proof {
                    assert forall|e3: EraIndex|
                        tget(kept@, e3) == (if tcontains(we.take(i as int + 1), e3) && (
                        e3 as int) + (window as int) >= (era as int) {
                            tget(we, e3)
                        } else {
                            None::<UnbondPool>
                        }) by {
                        if e3 != e2 {
                            assert(tcontains(we.take(i as int + 1), e3) <==> tcontains(
                                we.take(i as int),
                                e3,
                            )) by {
                                if tcontains(we.take(i as int + 1), e3) {
                                    let j = crate::table::tidx(we.take(i as int + 1), e3);
                                    assert(we[j].0 == e3);
                                    assert(j != i);
                                    assert(we.take(i as int)[j] == we[j]);
                                }
                                if tcontains(we.take(i as int), e3) {
                                    let j = crate::table::tidx(we.take(i as int), e3);
                                    assert(we.take(i as int + 1)[j] == we[j]);
                                }
                            }
                        } else {
                            assert(tcontains(we.take(i as int + 1), e2)) by {
                                assert(we.take(i as int + 1)[i as int] == we[i as int]);
                            }
                        }
                    }
                }
            } else {
                let ghost kept0 = kept@;
                kept.insert(e2, up);
                proof {
                    assert(tget(kept0, e2) is None);
                    assert(!tcontains(kept0, e2));
                    assert(kept@ == kept0.push((e2, up)));
                    crate::sums::lemma_sum_by_push(kept0, w_points(), (e2, up));
                    assert forall|e3: EraIndex|
                        tget(kept@, e3) == (if tcontains(we.take(i as int + 1), e3) && (
                        e3 as int) + (window as int) >= (era as int) {
                            tget(we, e3)
                        } else {
                            None::<UnbondPool>
                        }) by {
                        if e3 == e2 {
                            assert(tcontains(we.take(i as int + 1), e2)) by {
                                assert(we.take(i as int + 1)[i as int] == we[i as int]);
                            }
                            assert(tget(we, e2) == Some(up));
                        } else {
                            assert(tcontains(we.take(i as int + 1), e3) <==> tcontains(
                                we.take(i as int),
                                e3,
                            )) by {
                                if tcontains(we.take(i as int + 1), e3) {
                                    let j = crate::table::tidx(we.take(i as int + 1), e3);
                                    assert(we[j].0 == e3);
                                    assert(j != i);
                                    assert(we.take(i as int)[j] == we[j]);
                                }
                                if tcontains(we.take(i as int), e3) {
                                    let j = crate::table::tidx(we.take(i as int), e3);
                                    assert(we.take(i as int + 1)[j] == we[j]);
                                }
                            }
                        }
                    }
                }
            }
            i = i + 1;
        }
        proof {
            assert(we.take(n as int) =~= we);
        }
        let _ = self.sub_pools.remove(p);
        let sp2 = SubPools {
            no_era: UnbondPool { points: acc_p, balance: acc_b },
            with_era: kept,
        };
        self.sub_pools.insert(p, sp2);
        proof {
            self.lemma_wf_after_rotate(pre, p, era, window);
        }
        Ok(())
    }

    /// After a rotation — the merged pool grown by exactly the pruned
    /// cohorts' points, the kept cohorts unchanged — `wf` still holds.
    proof fn lemma_wf_after_rotate(
        &self,
        pre: PoolEngine,
        p: AccountId,
        era: EraIndex,
        window: EraIndex,
    )
        requires
            pre.wf(),
            era == pre.staking.era,
            window == pre.post_unbonding_pools_window,
            tget(pre.sub_pools@, p) is Some,
            tuniq(self.sub_pools@),
            tget(self.sub_pools@, p) is Some,
            forall|q: u32| q != p ==> tget(self.sub_pools@, q) == tget(pre.sub_pools@, q),
            tuniq(tget(self.sub_pools@, p)->Some_0.with_era@),
            forall|e2: EraIndex|
                tget(tget(self.sub_pools@, p)->Some_0.with_era@, e2) == (if tcontains(
                    tget(pre.sub_pools@, p)->Some_0.with_era@,
                    e2,
                ) && (e2 as int) + (window as int) >= (era as int) {
                    tget(tget(pre.sub_pools@, p)->Some_0.with_era@, e2)
                } else {
                    None::<UnbondPool>
                }),
            tget(self.sub_pools@, p)->Some_0.no_era.points as int == tget(
                pre.sub_pools@,
                p,
            )->Some_0.no_era.points as int + sum_by(
                tget(pre.sub_pools@, p)->Some_0.with_era@,
                w_pruned_points(era, window),
            ),
            sum_by(tget(self.sub_pools@, p)->Some_0.with_era@, w_points()) == sum_by(
                tget(pre.sub_pools@, p)->Some_0.with_era@,
                w_kept_points(era, window),
            ),
            self.bonded_pools@ == pre.bonded_pools@,
            self.reward_pools@ == pre.reward_pools@,
            self.delegators@ == pre.delegators@,
            self.ledger@ == pre.ledger@,
            self.staking == pre.staking,
            self.post_unbonding_pools_window == pre.post_unbonding_pools_window,
        ensures
            self.wf(),
    {
        let dels = pre.delegators@;
        let spp = tget(pre.sub_pools@, p)->Some_0;
        let wep = spp.with_era@;
        let sp2 = tget(self.sub_pools@, p)->Some_0;
        let we2 = sp2.with_era@;
        let si = crate::table::tidx(pre.sub_pools@, p);
        crate::table::lemma_tget_at(pre.sub_pools@, si);
        assert(sp_wf(p, spp, dels, era, window));
        assert(tcontains(pre.sub_pools@, p));
        // Key containments are unchanged.
        assert forall|q: u32| tcontains(self.sub_pools@, q) implies tcontains(
            self.bonded_pools@,
            q,
        ) by {
            if q != p {
                assert(tget(pre.sub_pools@, q) is Some);
                assert(tcontains(pre.sub_pools@, q));
            }
        }
        assert forall|i: int|
            0 <= i < self.delegators@.len() && (#[trigger] self.delegators@[i]).1.unbonding_era
                is Some implies tcontains(self.sub_pools@, self.delegators@[i].1.pool_id) by {
            let q = self.delegators@[i].1.pool_id;
            assert(tcontains(pre.sub_pools@, q));
            if q != p {
                let qi = crate::table::tidx(pre.sub_pools@, q);
                crate::table::lemma_tget_at(pre.sub_pools@, qi);
                assert(tget(self.sub_pools@, q) is Some);
            } else {
                assert(tget(self.sub_pools@, p) is Some);
            }
        }
        // Each cohort the rotation kept carries its old sum.
        assert forall|nn: int| 0 <= nn < we2.len() implies (#[trigger] we2[nn]).1.points as int
            == sum_by(dels, w_unbonding_at(p, we2[nn].0)) by {
            let e2 = we2[nn].0;
            crate::table::lemma_tget_at(we2, nn);
            assert(tget(we2, e2) == Some(we2[nn].1));
            assert(tcontains(wep, e2) && tget(wep, e2) == Some(we2[nn].1));
            let wi = crate::table::tidx(wep, e2);
            crate::table::lemma_tget_at(wep, wi);
        }
        // The merged pool's new sum: partition the unbonding delegators
        // by whether their era still has a live cohort, before and after.
        assert(sp2.no_era.points as int == sum_by(dels, w_unbonding_merged(p, we2))) by {
            crate::laws::lemma_cohort_partition(dels, p, wep);
            crate::laws::lemma_cohort_partition(dels, p, we2);
            assert forall|i: int| 0 <= i < dels.len() implies w_unbonding(p)(#[trigger] dels[i])
                == w_unbonding_merged(p, wep)(dels[i]) + crate::laws::w_unbonding_live(p, wep)(
                dels[i],
            ) by {}
            crate::sums::lemma_sum_by_add(
                dels,
                w_unbonding_merged(p, wep),
                crate::laws::w_unbonding_live(p, wep),
                w_unbonding(p),
            );
            assert forall|i: int| 0 <= i < dels.len() implies w_unbonding(p)(#[trigger] dels[i])
                == w_unbonding_merged(p, we2)(dels[i]) + crate::laws::w_unbonding_live(p, we2)(
                dels[i],
            ) by {
                let di = dels[i].1;
                if di.pool_id == p && di.unbonding_era is Some {
                    let e3 = di.unbonding_era->Some_0;
                    assert(tcontains(we2, e3) <==> tget(we2, e3) is Some);
                }
            }
            crate::sums::lemma_sum_by_add(
                dels,
                w_unbonding_merged(p, we2),
                crate::laws::w_unbonding_live(p, we2),
                w_unbonding(p),
            );
            assert forall|j: int| 0 <= j < wep.len() implies w_points()(#[trigger] wep[j])
                == w_pruned_points(era, window)(wep[j]) + w_kept_points(era, window)(
                wep[j],
            ) by {}
            crate::sums::lemma_sum_by_add(
                wep,
                w_pruned_points(era, window),
                w_kept_points(era, window),
                w_points(),
            );
        }
        // Stragglers lie past the window: either they already did, or
        // their cohort was pruned exactly because it does.
        assert forall|i: int|
            0 <= i < dels.len() && (#[trigger] dels[i]).1.pool_id == p && dels[
            i].1.unbonding_era is Some && !tcontains(we2, dels[i].1.unbonding_era->Some_0)
            implies (dels[i].1.unbonding_era->Some_0 as int) + (window as int) < (
        era as int) by {
            let e3 = dels[i].1.unbonding_era->Some_0;
            if tcontains(wep, e3) {
                assert(tget(we2, e3) is None);
                let wi = crate::table::tidx(wep, e3);
                crate::table::lemma_tget_at(wep, wi);
                assert(tget(wep, e3) is Some);
            }
        }
        // Every sub-pools entry satisfies its invariant.
        assert forall|m: int| 0 <= m < self.sub_pools@.len() implies sp_wf(
            (#[trigger] self.sub_pools@[m]).0,
            self.sub_pools@[m].1,
            self.delegators@,
            self.staking.era,
            self.post_unbonding_pools_window,
        ) by {
            let q = self.sub_pools@[m].0;
            let spq = self.sub_pools@[m].1;
            crate::table::lemma_tget_at(self.sub_pools@, m);
            if q == p {
                assert(spq == sp2);
            } else {
                assert(tget(pre.sub_pools@, q) == Some(spq));
                assert(tcontains(pre.sub_pools@, q));
                let qi = crate::table::tidx(pre.sub_pools@, q);
                crate::table::lemma_tget_at(pre.sub_pools@, qi);
                assert(sp_wf(q, spq, dels, era, window));
            }
        }
    }

    /// After a withdrawal — the delegator removed, its cohort reduced by
    /// its points, and cohort, sub-pools and pool torn down where they
    /// ran empty — `wf` still holds.
    proof fn lemma_wf_after_withdraw(
        &self,
        pre: PoolEngine,
        who: AccountId,
        d: Delegator,
        e: EraIndex,
        share: Balance,
        live: bool,
        cohort_gone: bool,
        dropped: bool,
        destroyed: bool,
    )
        requires
            pre.wf(),
            tget(pre.delegators@, who) == Some(d),
            d.unbonding_era == Some(e),
            destroyed == pre.no_other_delegator(d.pool_id, who),
            dropped == pre.no_other_unbonding(d.pool_id, who),
            live == tcontains(pre.with_era_of(d.pool_id), e),
            cohort_gone == (live && pre.withdraw_cohort(who).points == d.points
                && pre.no_other_unbonding_at(d.pool_id, e, who)),
            self.delegators@ == pre.delegators@.remove(
                crate::table::tidx(pre.delegators@, who),
            ),
            destroyed ==> self.bonded_pools@ == pre.bonded_pools@.remove(
                crate::table::tidx(pre.bonded_pools@, d.pool_id),
            ),
            !destroyed ==> self.bonded_pools@ == pre.bonded_pools@,
            tuniq(self.reward_pools@),
            forall|k: u32|
                tcontains(self.reward_pools@, k) <==> (tcontains(pre.reward_pools@, k) && !(
                destroyed && k == d.pool_id)),
            tuniq(self.sub_pools@),
            forall|q: u32|
                q != d.pool_id ==> tget(self.sub_pools@, q) == tget(pre.sub_pools@, q),
            dropped ==> tget(self.sub_pools@, d.pool_id) is None,
            !dropped ==> tget(self.sub_pools@, d.pool_id) is Some && {
                let sp2 = tget(self.sub_pools@, d.pool_id)->Some_0;
                &&& tuniq(sp2.with_era@)
                &&& (forall|e2: EraIndex|
                    e2 != e ==> tget(sp2.with_era@, e2) == tget(pre.with_era_of(d.pool_id), e2))
                &&& (live && !cohort_gone ==> tget(sp2.with_era@, e) is Some && tget(
                    sp2.with_era@,
                    e,
                )->Some_0.points as int == pre.withdraw_cohort(who).points as int
                    - d.points as int)
                &&& (live && cohort_gone ==> tget(sp2.with_era@, e) is None)
                &&& (!live ==> sp2.with_era@ == tget(
                    pre.sub_pools@,
                    d.pool_id,
                )->Some_0.with_era@)
                &&& (live ==> sp2.no_era == pre.no_era_of(d.pool_id))
                &&& (!live ==> sp2.no_era.points as int == pre.no_era_of(d.pool_id).points
                    as int - d.points as int)
            },
            tuniq(self.ledger@),
            self.staking.wf(),
            self.staking.era == pre.staking.era,
            self.post_unbonding_pools_window == pre.post_unbonding_pools_window,
        ensures
            self.wf(),
    {
        let p = d.pool_id;
        let dels = pre.delegators@;
        let dels2 = self.delegators@;
        let j = crate::table::tidx(dels, who);
        crate::table::lemma_tget_at(dels, j);
        crate::table::lemma_tget_remove(dels, j);
        assert(dels[j] == (who, d));
        assert(forall|m: int| 0 <= m < j ==> dels2[m] == dels[m]);
        assert(forall|m: int| j <= m < dels.len() - 1 ==> dels2[m] == dels[m + 1]);
        assert(tcontains(pre.bonded_pools@, p));
        let s = pre.bonded_pools@;
        let t = self.bonded_pools@;
        let pi = crate::table::tidx(s, p);
        crate::table::lemma_tget_at(s, pi);
        if destroyed {
            crate::table::lemma_tget_remove(s, pi);
        }
        // Bonded keys after the withdrawal.
        assert(forall|k: u32|
            tcontains(t, k) <==> (tcontains(s, k) && !(destroyed && k == p))) by {
            if destroyed {
                assert(forall|k: u32| tget(t, k) == (if k == p {
                    None::<BondedPool>
                } else {
                    tget(s, k)
                }));
                assert forall|k: u32| tcontains(t, k) <==> (tcontains(s, k) && k != p) by {
                    assert(tcontains(t, k) <==> tget(t, k) is Some);
                    assert(tcontains(s, k) <==> tget(s, k) is Some);
                }
            }
        }
        // Reward keys mirror bonded keys.
        assert(forall|k: u32| tcontains(self.reward_pools@, k) <==> tcontains(t, k)) by {
            assert(forall|k: u32| tcontains(pre.reward_pools@, k) <==> tcontains(s, k));
        }
        // Sub-pool keys still point at live pools.
        assert forall|q: u32| tcontains(self.sub_pools@, q) implies tcontains(t, q) by {
            assert(tget(self.sub_pools@, q) is Some);
            if q == p {
                assert(!dropped);
                assert(!destroyed) by {
                    if destroyed {
                        assert forall|i: int|
                            0 <= i < dels.len() && (#[trigger] dels[i]).1.pool_id == p && dels[
                            i].1.unbonding_era is Some implies dels[i].0 == who by {
                            assert(dels[i].0 == who);
                        }
                    }
                }
                assert(tcontains(s, p));
            } else {
                assert(tget(pre.sub_pools@, q) is Some);
                assert(tcontains(pre.sub_pools@, q));
                assert(tcontains(s, q));
            }
        }
        // Surviving delegators reference surviving pools and sub-pools.
        assert forall|m: int| 0 <= m < dels2.len() implies tcontains(
            t,
            (#[trigger] dels2[m]).1.pool_id,
        ) by {
            let o: int = if m < j {
                m
            } else {
                m + 1
            };
            assert(dels[o] == dels2[m]);
            assert(tcontains(s, dels[o].1.pool_id));
            if destroyed && dels[o].1.pool_id == p {
                assert(dels[o].0 == who);
                assert(false);
            }
        }
        assert forall|m: int|
            0 <= m < dels2.len() && (#[trigger] dels2[m]).1.unbonding_era
                is Some implies tcontains(self.sub_pools@, dels2[m].1.pool_id) by {
            let o: int = if m < j {
                m
            } else {
                m + 1
            };
            assert(dels[o] == dels2[m]);
            let q = dels[o].1.pool_id;
            if q == p {
                assert(!dropped) by {
                    if dropped {
                        assert(dels[o].0 == who);
                    }
                }
                assert(tget(self.sub_pools@, p) is Some);
            } else {
                assert(tcontains(pre.sub_pools@, q));
                let qi = crate::table::tidx(pre.sub_pools@, q);
                crate::table::lemma_tget_at(pre.sub_pools@, qi);
                assert(tget(self.sub_pools@, q) is Some);
            }
        }
        // Every surviving pool still has a delegator.
        assert forall|m: int| 0 <= m < t.len() implies has_delegator_for(
            dels2,
            (#[trigger] t[m]).0,
        ) by {
            let q = t[m].0;
            crate::table::lemma_tget_at(t, m);
            assert(tcontains(t, q));
            assert(tcontains(s, q));
            if q == p {
                assert(!destroyed);
                let i = choose|i: int|
                    0 <= i < dels.len() && (#[trigger] dels[i]).1.pool_id == p && dels[i].0
                        != who;
                assert(i != j);
                let m2: int = if i < j {
                    i
                } else {
                    i - 1
                };
                assert(dels2[m2] == dels[i]);
            } else {
                assert(has_delegator_for(dels, q));
                let i = choose|i: int|
                    0 <= i < dels.len() && (#[trigger] dels[i]).1.pool_id == q;
                assert(i != j);
                let m2: int = if i < j {
                    i
                } else {
                    i - 1
                };
                assert(dels2[m2] == dels[i]);
            }
        }
        // Bonded-points conservation: the leaver was not bonded, so every
        // pool's sum is untouched.
        assert forall|m: int| 0 <= m < t.len() implies (#[trigger] t[m]).1.points as int
            == sum_by(dels2, w_bonded(t[m].0)) by {
            let q = t[m].0;
            crate::table::lemma_tget_at(t, m);
            assert(tget(s, q) == Some(t[m].1));
            let oi = crate::table::tidx(s, q);
            crate::table::lemma_tget_at(s, oi);
            assert(s[oi].1.points as int == sum_by(dels, w_bonded(q)));
            crate::sums::lemma_sum_by_remove(dels, w_bonded(q), j);
            assert(w_bonded(q)(dels[j]) == 0);
        }
        // Sub-pool conservation for every surviving entry.
        assert forall|m: int| 0 <= m < self.sub_pools@.len() implies sp_wf(
            (#[trigger] self.sub_pools@[m]).0,
            self.sub_pools@[m].1,
            dels2,
            self.staking.era,
            self.post_unbonding_pools_window,
        ) by {
            let q = self.sub_pools@[m].0;
            let spq = self.sub_pools@[m].1;
            crate::table::lemma_tget_at(self.sub_pools@, m);
            if q != p {
                assert(tget(pre.sub_pools@, q) == Some(spq));
                assert(tcontains(pre.sub_pools@, q));
                let qi = crate::table::tidx(pre.sub_pools@, q);
                crate::table::lemma_tget_at(pre.sub_pools@, qi);
                assert(sp_wf(q, spq, dels, pre.staking.era, pre.post_unbonding_pools_window));
                assert forall|n: int| 0 <= n < spq.with_era@.len() implies (
                #[trigger] spq.with_era@[n]).1.points as int == sum_by(
                    dels2,
                    w_unbonding_at(q, spq.with_era@[n].0),
                ) by {
                    crate::sums::lemma_sum_by_remove(dels, w_unbonding_at(q, spq.with_era@[n].0), j);
                    assert(w_unbonding_at(q, spq.with_era@[n].0)(dels[j]) == 0);
                }
                crate::sums::lemma_sum_by_remove(dels, w_unbonding_merged(q, spq.with_era@), j);
                assert(w_unbonding_merged(q, spq.with_era@)(dels[j]) == 0);
                assert forall|i: int|
                    0 <= i < dels2.len() && (#[trigger] dels2[i]).1.pool_id == q && dels2[
                    i].1.unbonding_era is Some && !tcontains(
                        spq.with_era@,
                        dels2[i].1.unbonding_era->Some_0,
                    ) implies (dels2[i].1.unbonding_era->Some_0 as int) + (
                self.post_unbonding_pools_window as int) < (self.staking.era as int) by {
                    let o: int = if i < j {
                        i
                    } else {
                        i + 1
                    };
                    assert(dels[o] == dels2[i]);
                }
            } else {
                assert(!dropped);
                assert(spq == tget(self.sub_pools@, p)->Some_0);
                assert(tcontains(pre.sub_pools@, p));
                let qi = crate::table::tidx(pre.sub_pools@, p);
                crate::table::lemma_tget_at(pre.sub_pools@, qi);
                let spp = tget(pre.sub_pools@, p)->Some_0;
                let wep = pre.with_era_of(p);
                assert(sp_wf(p, spp, dels, pre.staking.era, pre.post_unbonding_pools_window));
                let cohort = pre.withdraw_cohort(who);
                // Live cohorts of the new entry carry their sums.
                assert forall|n: int| 0 <= n < spq.with_era@.len() implies (
                #[trigger] spq.with_era@[n]).1.points as int == sum_by(
                    dels2,
                    w_unbonding_at(p, spq.with_era@[n].0),
                ) by {
                    let e2 = spq.with_era@[n].0;
                    crate::table::lemma_tget_at(spq.with_era@, n);
                    crate::sums::lemma_sum_by_remove(dels, w_unbonding_at(p, e2), j);
                    if e2 == e {
                        assert(live && !cohort_gone);
                        let wi = crate::table::tidx(wep, e);
                        crate::table::lemma_tget_at(wep, wi);
                        assert(cohort.points as int == sum_by(dels, w_unbonding_at(p, e)));
                        assert(w_unbonding_at(p, e)(dels[j]) == d.points as int);
                    } else {
                        assert(tget(spq.with_era@, e2) == tget(wep, e2));
                        let wi = crate::table::tidx(wep, e2);
                        crate::table::lemma_tget_at(wep, wi);
                        assert(spq.with_era@[n].1.points as int == sum_by(
                            dels,
                            w_unbonding_at(p, e2),
                        ));
                        assert(w_unbonding_at(p, e2)(dels[j]) == 0);
                    }
                }
                // The merged pool of the new entry carries its sum.
                assert(spq.no_era.points as int == sum_by(
                    dels2,
                    w_unbonding_merged(p, spq.with_era@),
                )) by {
                    crate::sums::lemma_sum_by_remove(
                        dels,
                        w_unbonding_merged(p, spq.with_era@),
                        j,
                    );
                    if live && !cohort_gone {
                        assert forall|i: int| 0 <= i < dels.len() implies w_unbonding_merged(
                            p,
                            spq.with_era@,
                        )(#[trigger] dels[i]) == w_unbonding_merged(p, wep)(dels[i]) by {
                            let di = dels[i].1;
                            if di.pool_id == p && di.unbonding_era is Some {
                                let e2 = di.unbonding_era->Some_0;
                                if e2 == e {
                                    assert(tget(spq.with_era@, e) is Some);
                                    assert(tcontains(spq.with_era@, e));
                                    assert(tcontains(wep, e));
                                } else {
                                    assert(tget(spq.with_era@, e2) == tget(wep, e2));
                                    assert(tcontains(spq.with_era@, e2) <==> tget(
                                        spq.with_era@,
                                        e2,
                                    ) is Some);
                                    assert(tcontains(wep, e2) <==> tget(wep, e2) is Some);
                                }
                            }
                        }
                        crate::sums::lemma_sum_by_ext(
                            dels,
                            w_unbonding_merged(p, spq.with_era@),
                            w_unbonding_merged(p, wep),
                        );
                        assert(w_unbonding_merged(p, wep)(dels[j]) == 0) by {
                            assert(tcontains(wep, e));
                        }
                    } else if live && cohort_gone {
                        assert forall|i: int| 0 <= i < dels.len() && i != j implies
                            w_unbonding_merged(p, spq.with_era@)(#[trigger] dels[i])
                            == w_unbonding_merged(p, wep)(dels[i]) by {
                            let di = dels[i].1;
                            if di.pool_id == p && di.unbonding_era is Some {
                                let e2 = di.unbonding_era->Some_0;
                                assert(e2 != e) by {
                                    if e2 == e {
                                        assert(dels[i].0 == who);
                                        assert(i == j);
                                    }
                                }
                                assert(tget(spq.with_era@, e2) == tget(wep, e2));
                                assert(tcontains(spq.with_era@, e2) <==> tget(
                                    spq.with_era@,
                                    e2,
                                ) is Some);
                                assert(tcontains(wep, e2) <==> tget(wep, e2) is Some);
                            }
                        }
                        assert forall|i: int| 0 <= i < dels2.len() implies w_unbonding_merged(
                            p,
                            spq.with_era@,
                        )(#[trigger] dels2[i]) == w_unbonding_merged(p, wep)(dels2[i]) by {
                            let o: int = if i < j {
                                i
                            } else {
                                i + 1
                            };
                            assert(dels[o] == dels2[i]);
                        }
                        crate::sums::lemma_sum_by_ext(
                            dels2,
                            w_unbonding_merged(p, spq.with_era@),
                            w_unbonding_merged(p, wep),
                        );
                        crate::sums::lemma_sum_by_remove(dels, w_unbonding_merged(p, wep), j);
                        assert(w_unbonding_merged(p, wep)(dels[j]) == 0) by {
                            assert(tcontains(wep, e));
                        }
                    } else {
                        assert(spq.with_era@ == spp.with_era@);
                        assert(cohort == pre.no_era_of(p));
                        assert(w_unbonding_merged(p, wep)(dels[j]) == d.points as int) by {
                            assert(!tcontains(wep, e));
                        }
                    }
                }
                // Stragglers still lie past the window.
                assert forall|i: int|
                    0 <= i < dels2.len() && (#[trigger] dels2[i]).1.pool_id == p && dels2[
                    i].1.unbonding_era is Some && !tcontains(
                        spq.with_era@,
                        dels2[i].1.unbonding_era->Some_0,
                    ) implies (dels2[i].1.unbonding_era->Some_0 as int) + (
                self.post_unbonding_pools_window as int) < (self.staking.era as int) by {
                    let o: int = if i < j {
                        i
                    } else {
                        i + 1
                    };
                    assert(dels[o] == dels2[i]);
                    let e2 = dels[o].1.unbonding_era->Some_0;
                    if e2 == e && live && cohort_gone {
                        assert(dels[o].0 == who);
                        assert(false);
                    } else {
                        assert(!tcontains(wep, e2)) by {
                            if tcontains(wep, e2) {
                                if e2 == e {
                                    assert(live);
                                    if cohort_gone {
                                        assert(false);
                                    } else {
                                        assert(tget(spq.with_era@, e) is Some);
                                        assert(tcontains(spq.with_era@, e));
                                    }
                                } else {
                                    let wi = crate::table::tidx(wep, e2);
                                    crate::table::lemma_tget_at(wep, wi);
                                    assert(tget(spq.with_era@, e2) is Some);
                                    assert(tcontains(spq.with_era@, e2));
                                }
                            }
                        }
                    }
                }
            }
        }
    }

    /// The reward a claim by `who` would pay out: the delegator's share
    /// of the earnings since its snapshot, proportional to its points.
    pub open spec fn claim_share(&self, who: AccountId) -> int {
        crate::pools::spec_claim_share(
            tget(
                self.reward_pools@,
                tget(self.delegators@, who)->Some_0.pool_id,
            )->Some_0.total_earnings as int,
            tget(self.delegators@, who)->Some_0.reward_pool_total_earnings as int,
            tget(self.delegators@, who)->Some_0.points as int,
            tget(
                self.bonded_pools@,
                tget(self.delegators@, who)->Some_0.pool_id,
            )->Some_0.points as int,
        )
    }

    /// Why `claim_payout` would be refused, or `None` when it goes
    /// through.
    pub open spec fn claim_err(&self, who: AccountId) -> Option<PoolsError> {
        match tget(self.delegators@, who) {
            None => Some(PoolsError::DelegatorNotFound),
            Some(d) => {
                if d.unbonding_era is Some {
                    Some(PoolsError::AlreadyUnbonding)
                } else if tget(self.bonded_pools@, d.pool_id) is None || tget(
                    self.reward_pools@,
                    d.pool_id,
                ) is None {
                    Some(PoolsError::PoolNotFound)
                } else if self.claim_share(who) > Balance::MAX as int {
                    Some(PoolsError::Overflow)
                } else if self.claim_share(who) > tget(
                    self.reward_pools@,
                    d.pool_id,
                )->Some_0.balance as int {
                    Some(PoolsError::Ledger)
                } else if ledger_of(self.ledger@, who) + self.claim_share(who)
                    > Balance::MAX as int {
                    Some(PoolsError::Overflow)
                } else {
                    None
                }
            }
        }
    }

    /// Pay `who` its pending reward: the earnings accrued since the
    /// delegator's snapshot times its share of the pool's points, floor
    /// divided; the dust stays in the reward pool. Updates the snapshot,
    /// so an immediate second claim pays zero.
    pub fn claim_payout(&mut self, who: AccountId) -> (r: Result<Balance, PoolsError>)
        requires
            old(self).wf(),
        ensures
            final(self).wf(),
            final(self).same_config(old(self)),
            match r {
                Err(e) => Some(e) == old(self).claim_err(who) && *final(self) == *old(self),
                Ok(paid) => {
                    &&& old(self).claim_err(who) is None
                    &&& paid as int == old(self).claim_share(who)
                    &&& forall|a: AccountId|
                        tget(final(self).delegators@, a) == (if a == who {
                            Some(
                                Delegator {
                                    reward_pool_total_earnings: tget(
                                        old(self).reward_pools@,
                                        tget(old(self).delegators@, who)->Some_0.pool_id,
                                    )->Some_0.total_earnings,
                                    ..tget(old(self).delegators@, a)->Some_0
                                },
                            )
                        } else {
                            tget(old(self).delegators@, a)
                        })
                    &&& forall|k: u32|
                        tget(final(self).reward_pools@, k) == (if k == tget(
                            old(self).delegators@,
                            who,
                        )->Some_0.pool_id {
                            Some(
                                RewardPool {
                                    balance: (tget(old(self).reward_pools@, k)->Some_0.balance
                                        as int - old(self).claim_share(who)) as Balance,
                                    ..tget(old(self).reward_pools@, k)->Some_0
                                },
                            )
                        } else {
                            tget(old(self).reward_pools@, k)
                        })
                    &&& forall|a: AccountId|
                        ledger_of(final(self).ledger@, a) == (if a == who {
                            ledger_of(old(self).ledger@, a) + old(self).claim_share(who)
                        } else {
                            ledger_of(old(self).ledger@, a)
                        })
                    &&& final(self).bonded_pools@ == old(self).bonded_pools@
                    &&& final(self).sub_pools@ == old(self).sub_pools@
                    &&& final(self).staking == old(self).staking
                    &&& final(self).treasury == old(self).treasury
                },
            },
    {
        let d = match self.delegators.get(who) {
            Some(d) => d,
            None => {
                return Err(PoolsError::DelegatorNotFound);
            }
        };
        if d.unbonding_era.is_some() {
            return Err(PoolsError::AlreadyUnbonding);
        }
        let bp = match self.bonded_pools.get(d.pool_id) {
            Some(bp) => bp,
            None => {
                return Err(PoolsError::PoolNotFound);
            }
        };
        let rp = match self.reward_pools.get(d.pool_id) {
            Some(rp) => rp,
            None => {
                return Err(PoolsError::PoolNotFound);
            }
        };
        let new_earnings = if rp.total_earnings >= d.reward_pool_total_earnings {
            rp.total_earnings - d.reward_pool_total_earnings
        } else {
            0
        };
        let share_wide = if bp.points == 0 {
            0
        } else {
            crate::pools::mul_sat(new_earnings as WideUint, d.points) / bp.points
        };
        let share = match crate::convert::to_balance(share_wide) {
            Ok(s) => s,
            Err(_) => {
                return Err(PoolsError::Overflow);
            }
        };
        if share > rp.balance {
            return Err(PoolsError::Ledger);
        }
        let cur = self.free_balance(who);
        let new_free = match crate::pools::add_bal(cur, share) {
            Some(v) => v,
            None => {
                return Err(PoolsError::Overflow);
            }
        };
        let ghost pre = *self;
        self.ledger.insert(who, new_free);
        self.reward_pools.insert(d.pool_id, RewardPool { balance: rp.balance - share, ..rp });
        self.delegators.insert(
            who,
            Delegator { reward_pool_total_earnings: rp.total_earnings, ..d },
        );
        proof {
            let j = crate::table::tidx(pre.delegators@, who);
            let pi = crate::table::tidx(pre.bonded_pools@, d.pool_id);
            crate::table::lemma_tget_at(pre.delegators@, j);
            crate::table::lemma_tget_at(pre.bonded_pools@, pi);
            assert(self.bonded_pools@ == pre.bonded_pools@.update(pi, self.bonded_pools@[pi]))
                by {
                assert(pre.bonded_pools@.update(pi, pre.bonded_pools@[pi])
                    =~= pre.bonded_pools@);
            }
            assert forall|k: u32| tcontains(self.reward_pools@, k) <==> tcontains(
                pre.reward_pools@,
                k,
            ) by {
                assert(tcontains(self.reward_pools@, k) <==> tget(self.reward_pools@, k)
                    is Some);
                assert(tcontains(pre.reward_pools@, k) <==> tget(pre.reward_pools@, k)
                    is Some);
            }
            self.lemma_wf_after_del_update(pre, j, pi);
        }
        Ok(share)
    }

    /// Record `amount` of newly received rewards for a pool: its balance
    /// and cumulative earnings both grow by `amount`.
    pub fn credit_rewards(&mut self, pool_account: AccountId, amount: Balance) -> (r: Result<
        (),
        PoolsError,
    >)
        requires
            old(self).wf(),
        ensures
            final(self).wf(),
            final(self).same_config(old(self)),
            r is Err ==> *final(self) == *old(self),
            r is Ok <==> (tcontains(old(self).reward_pools@, pool_account) && tget(
                old(self).reward_pools@,
                pool_account,
            )->Some_0.balance as int + amount as int <= Balance::MAX as int && tget(
                old(self).reward_pools@,
                pool_account,
            )->Some_0.total_earnings as int + amount as int <= Balance::MAX as int),
            r is Err ==> r->Err_0 == (if !tcontains(old(self).reward_pools@, pool_account) {
                PoolsError::PoolNotFound
            } else {
                PoolsError::Overflow
            }),
            r is Ok ==> forall|k: u32|
                tget(final(self).reward_pools@, k) == (if k == pool_account {
                    Some(
                        RewardPool {
                            balance: (tget(old(self).reward_pools@, k)->Some_0.balance
                                + amount) as Balance,
                            points: tget(old(self).reward_pools@, k)->Some_0.points,
                            total_earnings: (tget(
                                old(self).reward_pools@,
                                k,
                            )->Some_0.total_earnings + amount) as Balance,
                        },
                    )
                } else {
                    tget(old(self).reward_pools@, k)
                }),
            final(self).bonded_pools@ == old(self).bonded_pools@,
            final(self).sub_pools@ == old(self).sub_pools@,
            final(self).delegators@ == old(self).delegators@,
            final(self).ledger@ == old(self).ledger@,
            final(self).staking == old(self).staking,
            final(self).treasury == old(self).treasury,
    {
        let rp = match self.reward_pools.get(pool_account) {
            Some(rp) => rp,
            None => {
                return Err(PoolsError::PoolNotFound);
            }
        };
        let nb = match crate::pools::add_bal(rp.balance, amount) {
            Some(nb) => nb,
            None => {
                return Err(PoolsError::Overflow);
            }
        };
        let ne = match crate::pools::add_bal(rp.total_earnings, amount) {
            Some(ne) => ne,
            None => {
                return Err(PoolsError::Overflow);
            }
        };
        let ghost pre = *self;
        self.reward_pools.insert(
            pool_account,
            RewardPool { balance: nb, points: rp.points, total_earnings: ne },
        );
        proof {
            assert forall|k: u32| tcontains(self.reward_pools@, k) <==> tcontains(
                pre.reward_pools@,
                k,
            ) by {
                assert(tget(self.reward_pools@, k) is Some <==> tcontains(
                    self.reward_pools@,
                    k,
                ));
                assert(tget(pre.reward_pools@, k) is Some <==> tcontains(pre.reward_pools@, k));
            }
        }
        Ok(())
    }

    /// Why a caller-driven state change would be refused: the pool must
    /// exist, `Destroying` is never left, the state toggler switches
    /// between `Open` and `Blocked`, and only the root may destroy.
    pub open spec fn set_state_err(
        &self,
        caller: AccountId,
        pool_account: AccountId,
        state: PoolState,
    ) -> Option<PoolsError> {
        match tget(self.bonded_pools@, pool_account) {
            None => Some(PoolsError::PoolNotFound),
            Some(bp) => {
                if bp.state == PoolState::Destroying {
                    Some(PoolsError::CanNotChangeState)
                } else if state == PoolState::Destroying {
                    if caller == bp.root {
                        None
                    } else {
                        Some(PoolsError::DoesNotHavePermission)
                    }
                } else {
                    if caller == bp.state_toggler {
                        None
                    } else {
                        Some(PoolsError::DoesNotHavePermission)
                    }
                }
            }
        }
    }

    /// Change a pool's state under the role rules of `set_state_err`.
    pub fn set_state(
        &mut self,
        caller: AccountId,
        pool_account: AccountId,
        state: PoolState,
    ) -> (r: Result<(), PoolsError>)
        requires
            old(self).wf(),
        ensures
            final(self).wf(),
            final(self).same_config(old(self)),
            match r {
                Err(e) => Some(e) == old(self).set_state_err(caller, pool_account, state)
                    && *final(self) == *old(self),
                Ok(_) => old(self).set_state_err(caller, pool_account, state) is None
                    && forall|k: u32|
                    tget(final(self).bonded_pools@, k) == (if k == pool_account {
                        Some(
                            BondedPool {
                                state,
                                ..tget(old(self).bonded_pools@, pool_account)->Some_0
                            },
                        )
                    } else {
                        tget(old(self).bonded_pools@, k)
                    }),
            },
            final(self).reward_pools@ == old(self).reward_pools@,
            final(self).sub_pools@ == old(self).sub_pools@,
            final(self).delegators@ == old(self).delegators@,
            final(self).ledger@ == old(self).ledger@,
            final(self).staking == old(self).staking,
            final(self).treasury == old(self).treasury,
    {
        let bp = match self.bonded_pools.get(pool_account) {
            Some(bp) => bp,
            None => {
                return Err(PoolsError::PoolNotFound);
            }
        };
        if bp.is_destroying() {
            return Err(PoolsError::CanNotChangeState);
        }
        if matches!(state, PoolState::Destroying) {
            if caller != bp.root {
                return Err(PoolsError::DoesNotHavePermission);
            }
        } else {
            if caller != bp.state_toggler {
                return Err(PoolsError::DoesNotHavePermission);
            }
        }
        let ghost pre = *self;
        self.bonded_pools.insert(pool_account, BondedPool { state, ..bp });
        proof {
            self.lemma_wf_after_pool_update(pre, pool_account, BondedPool { state, ..bp });
        }
        Ok(())
    }

    /// Hand nomination targets to the backend for a pool. Allowed to the
    /// root and the nominator while the pool is not destroying.
    pub fn nominate(
        &mut self,
        caller: AccountId,
        pool_account: AccountId,
        targets: Vec<AccountId>,
    ) -> (r: Result<(), PoolsError>)
        requires
            old(self).wf(),
        ensures
            final(self).wf(),
            final(self).same_config(old(self)),
            r is Err ==> *final(self) == *old(self),
            match tget(old(self).bonded_pools@, pool_account) {
                None => r == Err::<(), PoolsError>(PoolsError::PoolNotFound),
                Some(bp) => {
                    if bp.state == PoolState::Destroying {
                        r == Err::<(), PoolsError>(PoolsError::CanNotChangeState)
                    } else if caller != bp.root && caller != bp.nominator {
                        r == Err::<(), PoolsError>(PoolsError::DoesNotHavePermission)
                    } else {
                        r is Ok && final(self).staking.nominations@ == targets@
                    }
                },
            },
            final(self).bonded_pools@ == old(self).bonded_pools@,
            final(self).reward_pools@ == old(self).reward_pools@,
            final(self).sub_pools@ == old(self).sub_pools@,
            final(self).delegators@ == old(self).delegators@,
            final(self).ledger@ == old(self).ledger@,
            final(self).treasury == old(self).treasury,
            final(self).staking.bonded@ == old(self).staking.bonded@,
            final(self).staking.unbonding@ == old(self).staking.unbonding@,
            final(self).staking.era == old(self).staking.era,
            final(self).staking.duration == old(self).staking.duration,
            final(self).staking.min_bond == old(self).staking.min_bond,
    {
        let bp = match self.bonded_pools.get(pool_account) {
            Some(bp) => bp,
            None => {
                return Err(PoolsError::PoolNotFound);
            }
        };
        if bp.is_destroying() {
            return Err(PoolsError::CanNotChangeState);
        }
        if caller != bp.root && caller != bp.nominator {
            return Err(PoolsError::DoesNotHavePermission);
        }
        let _ = self.staking.nominate(targets);
        Ok(())
    }

    /// After replacing one bonded-pool entry by another with the same key
    /// and points, leaving every other record alone, `wf` still holds.
    proof fn lemma_wf_after_pool_update(&self, pre: PoolEngine, k: AccountId, bp2: BondedPool)
        requires
            pre.wf(),
            tcontains(pre.bonded_pools@, k),
            self.bonded_pools@ == pre.bonded_pools@.update(
                crate::table::tidx(pre.bonded_pools@, k),
                (k, bp2),
            ),
            bp2.points == tget(pre.bonded_pools@, k)->Some_0.points,
            self.reward_pools@ == pre.reward_pools@,
            self.sub_pools@ == pre.sub_pools@,
            self.delegators@ == pre.delegators@,
            self.ledger@ == pre.ledger@,
            self.staking == pre.staking,
            self.post_unbonding_pools_window == pre.post_unbonding_pools_window,
            tuniq(self.bonded_pools@),
        ensures
            self.wf(),
    {
        let s = pre.bonded_pools@;
        let i = crate::table::tidx(s, k);
        let t = self.bonded_pools@;
        assert(0 <= i < s.len() && s[i].0 == k);
        crate::table::lemma_tget_at(s, i);
        assert(forall|j: int| 0 <= j < s.len() ==> (#[trigger] t[j]).0 == s[j].0);
        assert(forall|k2: u32| tcontains(t, k2) <==> tcontains(s, k2)) by {
            assert(forall|k2: u32| tcontains(s, k2) ==> tcontains(t, k2)) by {
                assert forall|k2: u32| tcontains(s, k2) implies tcontains(t, k2) by {
                    let j = crate::table::tidx(s, k2);
                    assert(t[j].0 == k2);
                }
            }
            assert(forall|k2: u32| tcontains(t, k2) ==> tcontains(s, k2)) by {
                assert forall|k2: u32| tcontains(t, k2) implies tcontains(s, k2) by {
                    let j = crate::table::tidx(t, k2);
                    assert(s[j].0 == k2);
                }
            }
        }
        assert(forall|j: int| 0 <= j < t.len() && j != i ==> t[j] == s[j]);
        assert forall|j: int| 0 <= j < t.len() implies (#[trigger] t[j]).1.points as int == sum_by(
            self.delegators@,
            w_bonded(t[j].0),
        ) by {
            if j == i {
                assert(t[j].0 == k && t[j].1 == bp2);
                assert(s[j].1.points as int == sum_by(pre.delegators@, w_bonded(s[j].0)));
            } else {
                assert(t[j] == s[j]);
            }
        }
    }
}

/// With unique keys on both sides, a pool table each of whose pools some
/// delegator entry references has no more entries than the delegator
/// table.
pub proof fn lemma_pools_le_delegators(
    bonded: Seq<(u32, BondedPool)>,
    dels: Seq<(u32, Delegator)>,
)
    requires
        tuniq(bonded),
        tuniq(dels),
        forall|i: int|
            0 <= i < bonded.len() ==> has_delegator_for(dels, (#[trigger] bonded[i]).0),
    ensures
        bonded.len() <= dels.len(),
    decreases bonded.len(),
{
    if bonded.len() > 0 {
        let n = bonded.len() as int;
        let p = bonded[n - 1].0;
        assert(has_delegator_for(dels, p));
        let j = choose|j: int| 0 <= j < dels.len() && (#[trigger] dels[j]).1.pool_id == p;
        let b2 = bonded.drop_last();
        let d2 = dels.remove(j);
        assert(forall|i: int| 0 <= i < n - 1 ==> b2[i] == bonded[i]);
        assert(forall|i: int| 0 <= i < j ==> d2[i] == dels[i]);
        assert(forall|i: int| j <= i < dels.len() - 1 ==> d2[i] == dels[i + 1]);
        assert(tuniq(d2)) by {
            crate::table::lemma_tget_remove(dels, j);
        }
        assert forall|i: int| 0 <= i < b2.len() implies has_delegator_for(
            d2,
            (#[trigger] b2[i]).0,
        ) by {
            let q = b2[i].0;
            assert(bonded[i].0 == q);
            assert(has_delegator_for(dels, q));
            let j1 = choose|j1: int|
                0 <= j1 < dels.len() && (#[trigger] dels[j1]).1.pool_id == q;
            assert(q != p);
            assert(j1 != j);
            if j1 < j {
                assert(d2[j1].1.pool_id == q);
            } else {
                assert(d2[j1 - 1] == dels[j1]);
                assert(d2[j1 - 1].1.pool_id == q);
            }
        }
        lemma_pools_le_delegators(b2, d2);
    }
}

} // verus!
