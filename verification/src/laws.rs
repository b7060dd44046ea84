//! The engine's cross-record laws, proved from `PoolEngine::wf` — the
//! invariant that every operation requires and re-establishes, so each
//! law holds in every reachable state.

use crate::engine::lemma_pools_le_delegators;
use crate::engine::sp_wf;
use crate::engine::w_bonded;
use crate::engine::w_points;
use crate::engine::w_unbonding;
use crate::engine::w_unbonding_at;
use crate::engine::w_unbonding_merged;
use crate::engine::PoolEngine;
use crate::pools::Delegator;
use crate::pools::PoolsError;
use crate::pools::UnbondPool;
use crate::sums::sum_by;
use crate::table::tcontains;
use crate::table::tget;
use crate::table::tuniq;
use crate::AccountId;
use vstd::prelude::*;

verus! {

/// Weight of a delegator entry towards pool `p`'s live cohorts: its
/// points while its unlock era has a live cohort in `we`.
pub open spec fn w_unbonding_live(p: AccountId, we: Seq<(u32, UnbondPool)>) -> spec_fn(
    (u32, Delegator),
) -> int {
    (|e: (u32, Delegator)|
        if e.1.pool_id == p && e.1.unbonding_era is Some && tcontains(
            we,
            e.1.unbonding_era->Some_0,
        ) {
            e.1.points as int
        } else {
            0
        })
}

/// Law: in every well-formed state there are exactly as many reward
/// pools as bonded pools, at most as many sub-pools as bonded pools, and
/// at least as many delegators as bonded pools.
pub proof fn lemma_count_invariants(e: &PoolEngine)
    requires
        e.wf(),
    ensures
        e.reward_pools@.len() == e.bonded_pools@.len(),
        e.sub_pools@.len() <= e.bonded_pools@.len(),
        e.delegators@.len() >= e.bonded_pools@.len(),
{
    crate::table::lemma_keys_subset_len(e.reward_pools@, e.bonded_pools@);
    crate::table::lemma_keys_subset_len(e.bonded_pools@, e.reward_pools@);
    crate::table::lemma_keys_subset_len(e.sub_pools@, e.bonded_pools@);
    lemma_pools_le_delegators(e.bonded_pools@, e.delegators@);
}

/// The points that cohorts with unique eras hold add up to the points
/// of the delegators unbonding towards one of those eras.
pub proof fn lemma_cohort_partition(
    dels: Seq<(u32, Delegator)>,
    p: AccountId,
    we: Seq<(u32, UnbondPool)>,
)
    requires
        tuniq(we),
        forall|j: int|
            0 <= j < we.len() ==> (#[trigger] we[j]).1.points as int == sum_by(
                dels,
                w_unbonding_at(p, we[j].0),
            ),
    ensures
        sum_by(we, w_points()) == sum_by(dels, w_unbonding_live(p, we)),
    decreases we.len(),
{
    if we.len() == 0 {
        assert forall|i: int| 0 <= i < dels.len() implies w_unbonding_live(p, we)(
            #[trigger] dels[i],
        ) == 0 by {
            if dels[i].1.pool_id == p && dels[i].1.unbonding_era is Some {
                assert(!tcontains(we, dels[i].1.unbonding_era->Some_0));
            }
        }
        crate::sums::lemma_sum_by_zero(dels, w_unbonding_live(p, we));
    } else {
        let n = we.len() as int;
        let dl = we.drop_last();
        let el = we[n - 1].0;
        assert(forall|j: int| 0 <= j < n - 1 ==> dl[j] == we[j]);
        lemma_cohort_partition(dels, p, dl);
        assert(we[n - 1].1.points as int == sum_by(dels, w_unbonding_at(p, el)));
        assert forall|i: int| 0 <= i < dels.len() implies w_unbonding_live(p, we)(
            #[trigger] dels[i],
        ) == w_unbonding_live(p, dl)(dels[i]) + w_unbonding_at(p, el)(dels[i]) by {
            let di = dels[i].1;
            if di.pool_id == p && di.unbonding_era is Some {
                let e2 = di.unbonding_era->Some_0;
                if e2 == el {
                    assert(tcontains(we, el));
                    assert(!tcontains(dl, el)) by {
                        if tcontains(dl, el) {
                            let j = crate::table::tidx(dl, el);
                            assert(we[j].0 == el);
                        }
                    }
                } else {
                    assert(tcontains(we, e2) <==> tcontains(dl, e2)) by {
                        if tcontains(we, e2) {
                            let j = crate::table::tidx(we, e2);
                            assert(0 <= j < n && we[j].0 == e2);
                            assert(j != n - 1);
                            assert(dl[j].0 == e2);
                        }
                        if tcontains(dl, e2) {
                            let j = crate::table::tidx(dl, e2);
                            assert(we[j].0 == e2);
                        }
                    }
                }
            }
        }
        crate::sums::lemma_sum_by_add(
            dels,
            w_unbonding_live(p, dl),
            w_unbonding_at(p, el),
            w_unbonding_live(p, we),
        );
    }
}

/// Law: in every well-formed state, each pool's points equal the summed
/// points of its bonded delegators, and the points of its sub-pool
/// cohorts — live and merged together — equal the summed points of its
/// unbonding delegators.
pub proof fn lemma_points_conservation(e: &PoolEngine, p: AccountId)
    requires
        e.wf(),
        tcontains(e.bonded_pools@, p),
    ensures
        tget(e.bonded_pools@, p)->Some_0.points as int == sum_by(e.delegators@, w_bonded(p)),
        e.no_era_of(p).points as int + sum_by(e.with_era_of(p), w_points()) == sum_by(
            e.delegators@,
            w_unbonding(p),
        ),
{
    let dels = e.delegators@;
    let pi = crate::table::tidx(e.bonded_pools@, p);
    crate::table::lemma_tget_at(e.bonded_pools@, pi);
    if tcontains(e.sub_pools@, p) {
        let si = crate::table::tidx(e.sub_pools@, p);
        crate::table::lemma_tget_at(e.sub_pools@, si);
        let sp = tget(e.sub_pools@, p)->Some_0;
        let we = sp.with_era@;
        assert(sp_wf(p, sp, dels, e.staking.era, e.post_unbonding_pools_window));
        lemma_cohort_partition(dels, p, we);
        assert forall|i: int| 0 <= i < dels.len() implies w_unbonding(p)(#[trigger] dels[i])
            == w_unbonding_merged(p, we)(dels[i]) + w_unbonding_live(p, we)(dels[i]) by {}
        crate::sums::lemma_sum_by_add(
            dels,
            w_unbonding_merged(p, we),
            w_unbonding_live(p, we),
            w_unbonding(p),
        );
    } else {
        assert forall|i: int| 0 <= i < dels.len() implies w_unbonding(p)(#[trigger] dels[i])
            == 0 by {
            if dels[i].1.pool_id == p && dels[i].1.unbonding_era is Some {
                assert(tcontains(e.sub_pools@, p));
            }
        }
        crate::sums::lemma_sum_by_zero(dels, w_unbonding(p));
        assert(e.with_era_of(p) =~= Seq::<(u32, UnbondPool)>::empty());
    }
}

/// Law: withdrawing twice is refused at the boundary. A completed
/// withdrawal removes the delegator's record, and `withdraw_unbonded`
/// refuses any account without a record with `NotUnbonding` — so the
/// second of two same-era withdrawals fails with exactly that error.
pub proof fn lemma_withdraw_twice_refused(e: &PoolEngine, who: AccountId)
    requires
        tget(e.delegators@, who) is None,
    ensures
        e.withdraw_err(who) == Some(PoolsError::NotUnbonding),
{
}

} // verus!
