//! A builder that assembles a ready-to-use engine: one pool under
//! `PRIMARY_ACCOUNT` created by account 10 with the backend's minimum
//! bond, plus any number of further delegators joined to it.

use crate::engine::ledger_of;
use crate::engine::PoolEngine;
use crate::pools::BondedPool;
use crate::pools::Delegator;
use crate::pools::PoolState;
use crate::pools::RewardPool;
use crate::staking::StakingMock;
use crate::sums::sum_by;
use crate::table::tget;
use crate::AccountId;
use crate::Balance;
use crate::PRIMARY_ACCOUNT;
use vstd::prelude::*;

verus! {

/// The depositor account the builder creates the pool with.
pub const DEPOSITOR_ACCOUNT: AccountId = 10;

/// No account among the first `i` builder entries is `a`.
pub open spec fn none_of_first(ds: Seq<(AccountId, Balance)>, i: int, a: AccountId) -> bool {
    forall|m: int| 0 <= m < i ==> (#[trigger] ds[m]).0 != a
}

/// Weight of a builder entry: the balance to be bonded.
pub open spec fn w_amount() -> spec_fn((AccountId, Balance)) -> int {
    (|e: (AccountId, Balance)| e.1 as int)
}

/// Builds an engine holding one freshly created pool and the given
/// delegators, mirroring the accounting state a chain harness would
/// start every run from.
pub struct ExtBuilder {
    /// The delegators to join to the pool, each with its stake.
    pub delegators: Vec<(AccountId, Balance)>,
}

/// The builder's inputs are admissible: every stake meets the join
/// floor, accounts are distinct and none is the depositor, and the total
/// stake leaves the ledger and backend ranges unexhausted.
pub open spec fn builder_ok(ds: Seq<(AccountId, Balance)>) -> bool {
    &&& forall|i: int| 0 <= i < ds.len() ==> (#[trigger] ds[i]).1 >= 2
    &&& forall|i: int| 0 <= i < ds.len() ==> (#[trigger] ds[i]).0 != DEPOSITOR_ACCOUNT
    &&& forall|i: int, j: int| 0 <= i < j < ds.len() ==> ds[i].0 != ds[j].0
    &&& 10 + 2 * sum_by(ds, w_amount()) <= Balance::MAX as int
}

impl Default for ExtBuilder {
    /// A builder with no extra delegators.
    fn default() -> (r: Self)
        ensures
            r.delegators@.len() == 0,
    {
        ExtBuilder { delegators: Vec::new() }
    }
}

impl ExtBuilder {
    /// Replace the delegators to be joined to the pool.
    pub fn add_delegators(self, delegators: Vec<(AccountId, Balance)>) -> (r: Self)
        ensures
            r.delegators@ == delegators@,
    {
        ExtBuilder { delegators }
    }

    /// Build the engine: join floor and creation floor of 2, at most two
    /// pools, a post-unbonding window of 2 eras, and a backend at era 0
    /// with minimum bond 10 and a bonding duration of 3; the depositor
    /// funds and creates the pool, then every listed delegator is funded
    /// with twice its stake and joined.
    pub fn build(self) -> (r: PoolEngine)
        requires
            builder_ok(self.delegators@),
        ensures
            r.wf(),
            r.min_join_bond == 2,
            r.min_create_bond == 2,
            r.max_pools == Some(2u32),
            r.post_unbonding_pools_window == 2,
            r.staking.era == 0,
            r.staking.duration == 3,
            r.staking.min_bond == 10,
            tget(r.bonded_pools@, PRIMARY_ACCOUNT) == Some(
                BondedPool {
                    points: (10 + sum_by(self.delegators@, w_amount())) as crate::WideUint,
                    state: PoolState::Open,
                    depositor: DEPOSITOR_ACCOUNT,
                    root: 900,
                    nominator: 901,
                    state_toggler: 902,
                },
            ),
            tget(r.staking.bonded@, PRIMARY_ACCOUNT) == Some(
                (10 + sum_by(self.delegators@, w_amount())) as Balance,
            ),
            tget(r.reward_pools@, PRIMARY_ACCOUNT) == Some(
                RewardPool { balance: 0, points: 0, total_earnings: 0 },
            ),
            tget(r.delegators@, DEPOSITOR_ACCOUNT) == Some(
                Delegator {
                    pool_id: PRIMARY_ACCOUNT,
                    points: 10,
                    unbonding_era: None,
                    reward_pool_total_earnings: 0,
                },
            ),
            forall|i: int|
                0 <= i < self.delegators@.len() ==> tget(
                    r.delegators@,
                    (#[trigger] self.delegators@[i]).0,
                ) == Some(
                    Delegator {
                        pool_id: PRIMARY_ACCOUNT,
                        points: self.delegators@[i].1 as crate::WideUint,
                        unbonding_era: None,
                        reward_pool_total_earnings: 0,
                    },
                ),
            r.bonded_pools@.len() == 1,
            r.sub_pools@.len() == 0,
    {
        let ds = self.delegators;
        let staking = StakingMock::new(10, 0, 3);
        let mut engine = PoolEngine::new(2, 2, Some(2), None, 2, staking);
        let amount_to_bond = engine.staking.minimum_bond();
        engine.make_free_balance_be(DEPOSITOR_ACCOUNT, amount_to_bond * 2);
        let ghost e0 = engine;
        let created = engine.create(
            DEPOSITOR_ACCOUNT,
            amount_to_bond,
            PRIMARY_ACCOUNT,
            900,
            901,
            902,
        );
        proof {
            crate::sums::lemma_sum_by_nonneg(ds@, w_amount());
            assert(created is Ok);
            assert forall|a: AccountId| a != DEPOSITOR_ACCOUNT implies (#[trigger] tget(
                engine.delegators@,
                a,
            )) is None by {
                assert(tget(engine.delegators@, a) == tget(e0.delegators@, a));
                assert(e0.delegators@.len() == 0);
                assert(!crate::table::tcontains(e0.delegators@, a));
            }
        }
        let n = ds.len();
        let mut i: usize = 0;
        while i < n
            invariant
                n == ds@.len(),
                i <= n,
                builder_ok(ds@),
                engine.wf(),
                engine.min_join_bond == 2,
                engine.min_create_bond == 2,
                engine.max_pools == Some(2u32),
                engine.max_delegators is None,
                engine.post_unbonding_pools_window == 2,
                engine.staking.era == 0,
                engine.staking.duration == 3,
                engine.staking.min_bond == 10,
                tget(engine.bonded_pools@, PRIMARY_ACCOUNT) == Some(
                    BondedPool {
                        points: (10 + sum_by(ds@.take(i as int), w_amount())) as crate::WideUint,
                        state: PoolState::Open,
                        depositor: DEPOSITOR_ACCOUNT,
                        root: 900,
                        nominator: 901,
                        state_toggler: 902,
                    },
                ),
                tget(engine.staking.bonded@, PRIMARY_ACCOUNT) == Some(
                    (10 + sum_by(ds@.take(i as int), w_amount())) as Balance,
                ),
                0 <= sum_by(ds@.take(i as int), w_amount()) <= sum_by(ds@, w_amount()),
                tget(engine.reward_pools@, PRIMARY_ACCOUNT) == Some(
                    RewardPool { balance: 0, points: 0, total_earnings: 0 },
                ),
                tget(engine.delegators@, DEPOSITOR_ACCOUNT) == Some(
                    Delegator {
                        pool_id: PRIMARY_ACCOUNT,
                        points: 10,
                        unbonding_era: None,
                        reward_pool_total_earnings: 0,
                    },
                ),
                forall|m: int|
                    0 <= m < i ==> tget(engine.delegators@, (#[trigger] ds@[m]).0) == Some(
                        Delegator {
                            pool_id: PRIMARY_ACCOUNT,
                            points: ds@[m].1 as crate::WideUint,
                            unbonding_era: None,
                            reward_pool_total_earnings: 0,
                        },
                    ),
                forall|a: AccountId|
                    a != DEPOSITOR_ACCOUNT && none_of_first(ds@, i as int, a) ==> (
                    #[trigger] tget(engine.delegators@, a)) is None,
                engine.bonded_pools@.len() == 1,
                engine.sub_pools@.len() == 0,
            decreases n - i,
        {
            let (account_id, bonded) = ds[i];
            proof {
                assert(ds@[i as int].1 == bonded && ds@[i as int].0 == account_id);
                lemma_take_sum_step(ds@, i as int);
                crate::sums::lemma_sum_by_nonneg(ds@.take(i as int), w_amount());
                crate::sums::lemma_sum_by_elem_le(ds@, w_amount(), i as int);
            }
            engine.make_free_balance_be(account_id, bonded * 2);
            let ghost pre = engine;
            let joined = engine.join(account_id, bonded, PRIMARY_ACCOUNT);
            proof {
                let s = 10 + sum_by(ds@.take(i as int), w_amount());
                assert(pre.join_points(PRIMARY_ACCOUNT, bonded) == bonded as int) by {
                    assert(pre.backend_bonded(PRIMARY_ACCOUNT) == s);
                    assert(crate::pools::sat_wide(s * bonded as int) == s * bonded as int)
                        by (nonlinear_arith)
                        requires
                            0 < s <= u64::MAX as int,
                            0 <= bonded as int <= u64::MAX as int,
                    ;
                    assert((s * bonded as int) / s == bonded as int) by (nonlinear_arith)
                        requires
                            s > 0,
                    ;
                }
                assert(none_of_first(ds@, i as int, account_id));
                assert(tget(pre.delegators@, account_id) is None);
                assert(joined is Ok);
                lemma_take_sum_step(ds@, i as int);
            }
            i = i + 1;
            proof {
                lemma_take_le(ds@, i as int);
                assert(ds@.take(i as int).drop_last() =~= ds@.take(i as int - 1));
                assert forall|a: AccountId|
                    a != DEPOSITOR_ACCOUNT && none_of_first(ds@, i as int, a) implies (
                #[trigger] tget(engine.delegators@, a)) is None by {
                    assert(ds@[i as int - 1].0 != a);
                    assert(none_of_first(ds@, i as int - 1, a));
                    assert(tget(pre.delegators@, a) is None);
                }
            }
        }
        proof {
            assert(ds@.take(n as int) =~= ds@);
        }
        engine
    }

    /// Build the engine, run `test` on it, and report whether the count
    /// invariants hold of the state the test left behind.
    pub fn build_and_execute<F: FnOnce(PoolEngine) -> PoolEngine>(self, test: F) -> (r: (
        PoolEngine,
        bool,
    ))
        requires
            builder_ok(self.delegators@),
            forall|en: PoolEngine| #[trigger] test.requires((en,)),
        ensures
            r.1 == (r.0.reward_pools@.len() == r.0.bonded_pools@.len() && r.0.sub_pools@.len()
                <= r.0.bonded_pools@.len() && r.0.delegators@.len() >= r.0.bonded_pools@.len()),
    {
        let engine = self.build();
        let engine = test(engine);
        let ok = engine.post_checks();
        (engine, ok)
    }

    /// Build the engine and run `test` on it, skipping the count checks.
    pub fn build_and_execute_no_checks<F: FnOnce(PoolEngine) -> PoolEngine>(self, test: F) -> (r:
        PoolEngine)
        requires
            builder_ok(self.delegators@),
            forall|en: PoolEngine| #[trigger] test.requires((en,)),
    {
        let engine = self.build();
        test(engine)
    }
}

/// One more taken element adds its weight to a prefix sum.
proof fn lemma_take_sum_step(ds: Seq<(AccountId, Balance)>, i: int)
    requires
        0 <= i < ds.len(),
    ensures
        sum_by(ds.take(i + 1), w_amount()) == sum_by(ds.take(i), w_amount()) + ds[i].1 as int,
        sum_by(ds.take(i), w_amount()) <= sum_by(ds, w_amount()),
{
    assert(ds.take(i + 1).drop_last() =~= ds.take(i));
    assert(ds.take(i + 1).last() == ds[i]);
    lemma_take_le(ds, i);
}

/// A prefix sum of nonnegative weights is at most the full sum.
proof fn lemma_take_le(ds: Seq<(AccountId, Balance)>, i: int)
    requires
        0 <= i <= ds.len(),
    ensures
        sum_by(ds.take(i), w_amount()) <= sum_by(ds, w_amount()),
    decreases ds.len() - i,
{
    if i == ds.len() {
        assert(ds.take(i) =~= ds);
    } else {
        assert(ds.take(i + 1).drop_last() =~= ds.take(i));
        assert(ds.take(i + 1).last() == ds[i]);
        lemma_take_le(ds, i + 1);
    }
}

} // verus!
