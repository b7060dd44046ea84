use nomination_pools::builder::ExtBuilder;
use nomination_pools::convert::to_balance;
use nomination_pools::convert::to_wide;
use nomination_pools::convert::BalanceToU256;
use nomination_pools::convert::U256ToBalance;
use nomination_pools::engine::PoolEngine;
use nomination_pools::pools::PoolState;
use nomination_pools::pools::PoolsError;
use nomination_pools::staking::StakingMock;
use nomination_pools::Balance;
use nomination_pools::WideUint;
use nomination_pools::PRIMARY_ACCOUNT;

#[test]
fn u256_to_balance_convert_works() {
    assert_eq!(U256ToBalance::convert(0), 0);
    assert_eq!(U256ToBalance::convert(Balance::MAX as WideUint), Balance::MAX);
}

#[test]
fn balance_to_u256_convert_works() {
    assert_eq!(BalanceToU256::convert(0), 0 as WideUint);
    assert_eq!(BalanceToU256::convert(Balance::MAX), Balance::MAX as WideUint);
}

#[test]
fn wide_round_trip_and_overflow() {
    assert_eq!(to_balance(to_wide(0)), Ok(0));
    assert_eq!(to_balance(to_wide(7)), Ok(7));
    assert_eq!(to_balance(to_wide(Balance::MAX)), Ok(Balance::MAX));
    assert_eq!(
        to_balance(Balance::MAX as WideUint + 1),
        Err(PoolsError::Overflow)
    );
}

#[test]
fn create_seeds_points_one_to_one() {
    let e = ExtBuilder::default().build();
    let pool = e.bonded_pools.get(PRIMARY_ACCOUNT).unwrap();
    assert_eq!(pool.points, 10);
    assert_eq!(pool.state, PoolState::Open);
    let depositor = e.delegators.get(10).unwrap();
    assert_eq!(depositor.points, 10);
    assert_eq!(depositor.pool_id, PRIMARY_ACCOUNT);
    assert!(e.post_checks());
}

#[test]
fn join_at_one_to_one_ratio() {
    let mut e = ExtBuilder::default().build();
    e.make_free_balance_be(20, 10);
    assert_eq!(e.join(20, 5, PRIMARY_ACCOUNT), Ok(()));
    assert_eq!(e.delegators.get(20).unwrap().points, 5);
    assert_eq!(e.bonded_pools.get(PRIMARY_ACCOUNT).unwrap().points, 15);
    assert_eq!(e.staking.bonded_balance(PRIMARY_ACCOUNT), Some(15));
    assert!(e.post_checks());
}

#[test]
fn unbond_withdraw_cycle_with_eras() {
    let mut e = ExtBuilder::default().add_delegators(vec![(40, 3)]).build();
    assert_eq!(e.unbond(40, 3), Ok(()));
    let sp = e.sub_pools.get_ref(PRIMARY_ACCOUNT).unwrap();
    let cohort = sp.with_era.get(3).unwrap();
    assert_eq!(cohort.points, 3);
    assert_eq!(cohort.balance, 3);
    assert_eq!(e.delegators.get(40).unwrap().unbonding_era, Some(3));
    e.staking.set_current_era(2);
    assert_eq!(e.withdraw_unbonded(40), Err(PoolsError::NotUnbondedYet));
    e.staking.set_current_era(3);
    assert_eq!(e.withdraw_unbonded(40), Ok(3));
    assert!(e.sub_pools.get_ref(PRIMARY_ACCOUNT).is_none());
    assert!(e.delegators.get(40).is_none());
    assert_eq!(e.free_balance(40), 6);
    assert!(e.post_checks());
}

#[test]
fn withdraw_twice_fails_with_not_unbonding() {
    let mut e = ExtBuilder::default().add_delegators(vec![(40, 3)]).build();
    assert_eq!(e.unbond(40, 3), Ok(()));
    e.staking.set_current_era(3);
    assert_eq!(e.withdraw_unbonded(40), Ok(3));
    assert_eq!(e.withdraw_unbonded(40), Err(PoolsError::NotUnbonding));
}

#[test]
fn depositor_cannot_leave_before_others() {
    let mut e = ExtBuilder::default().add_delegators(vec![(40, 5)]).build();
    assert_eq!(e.unbond(10, 10), Err(PoolsError::NotOnlyDelegator));
}

#[test]
fn claim_pays_proportional_share_once() {
    let mut e = ExtBuilder::default().build();
    e.make_free_balance_be(20, 10);
    assert_eq!(e.join(20, 10, PRIMARY_ACCOUNT), Ok(()));
    assert_eq!(e.credit_rewards(PRIMARY_ACCOUNT, 100), Ok(()));
    assert_eq!(e.claim_payout(20), Ok(50));
    assert_eq!(e.delegators.get(20).unwrap().reward_pool_total_earnings, 100);
    assert_eq!(e.free_balance(20), 50);
    assert_eq!(e.reward_pools.get(PRIMARY_ACCOUNT).unwrap().balance, 50);
    assert_eq!(e.claim_payout(20), Ok(0));
    assert!(e.post_checks());
}

#[test]
fn unbond_converts_points_at_backend_ratio() {
    let mut e = ExtBuilder::default().add_delegators(vec![(40, 5)]).build();
    // The backend's bonded balance doubled relative to the pool's points.
    e.staking.set_bonded_balance(PRIMARY_ACCOUNT, 30);
    assert_eq!(e.unbond(40, 5), Ok(()));
    let sp = e.sub_pools.get_ref(PRIMARY_ACCOUNT).unwrap();
    let cohort = sp.with_era.get(3).unwrap();
    assert_eq!(cohort.balance, 10);
    assert_eq!(cohort.points, 10);
    assert_eq!(e.bonded_pools.get(PRIMARY_ACCOUNT).unwrap().points, 10);
    assert_eq!(e.staking.bonded_balance(PRIMARY_ACCOUNT), Some(20));
}

#[test]
fn join_errors() {
    let mut e = ExtBuilder::default().build();
    e.make_free_balance_be(20, 10);
    assert_eq!(e.join(20, 5, 777), Err(PoolsError::PoolNotFound));
    assert_eq!(e.join(20, 1, PRIMARY_ACCOUNT), Err(PoolsError::MinimumBondNotMet));
    assert_eq!(e.join(20, 11, PRIMARY_ACCOUNT), Err(PoolsError::Ledger));
    assert_eq!(e.join(10, 5, PRIMARY_ACCOUNT), Err(PoolsError::AlreadyDelegating));
    assert_eq!(e.unsafe_set_state(PRIMARY_ACCOUNT, PoolState::Blocked), Ok(()));
    assert_eq!(e.join(20, 5, PRIMARY_ACCOUNT), Err(PoolsError::PoolNotOpen));
}

#[test]
fn create_errors() {
    let mut e = ExtBuilder::default().build();
    e.make_free_balance_be(30, 100);
    assert_eq!(
        e.create(30, 1, 555, 900, 901, 902),
        Err(PoolsError::MinimumBondNotMet)
    );
    assert_eq!(
        e.create(30, 5, PRIMARY_ACCOUNT, 900, 901, 902),
        Err(PoolsError::IdInUse)
    );
    assert_eq!(e.create(30, 5, 555, 900, 901, 902), Ok(()));
    e.make_free_balance_be(31, 100);
    assert_eq!(e.create(31, 5, 556, 900, 901, 902), Err(PoolsError::MaxPools));
    assert_eq!(e.create(30, 5, 557, 900, 901, 902), Err(PoolsError::MaxPools));
}

#[test]
fn max_delegators_is_enforced() {
    let staking = StakingMock::new(0, 0, 3);
    let mut e = PoolEngine::new(2, 2, None, Some(1), 2, staking);
    e.make_free_balance_be(1, 100);
    e.make_free_balance_be(2, 100);
    assert_eq!(e.create(1, 10, 500, 900, 901, 902), Ok(()));
    assert_eq!(e.join(2, 5, 500), Err(PoolsError::MaxDelegators));
}

#[test]
fn bond_extra_adds_points() {
    let mut e = ExtBuilder::default().add_delegators(vec![(40, 5)]).build();
    assert_eq!(e.bond_extra(41, 5), Err(PoolsError::DelegatorNotFound));
    e.make_free_balance_be(40, 7);
    assert_eq!(e.bond_extra(40, 7), Ok(()));
    assert_eq!(e.delegators.get(40).unwrap().points, 12);
    assert_eq!(e.bonded_pools.get(PRIMARY_ACCOUNT).unwrap().points, 22);
    assert_eq!(e.unbond(40, 5), Err(PoolsError::MinimumBondNotMet));
    assert_eq!(e.unbond(40, 12), Ok(()));
    assert_eq!(e.unbond(40, 12), Err(PoolsError::AlreadyUnbonding));
    assert_eq!(e.bond_extra(40, 1), Err(PoolsError::AlreadyUnbonding));
}

#[test]
fn state_machine_roles() {
    let mut e = ExtBuilder::default().build();
    // Only the state toggler flips between open and blocked.
    assert_eq!(
        e.set_state(40, PRIMARY_ACCOUNT, PoolState::Blocked),
        Err(PoolsError::DoesNotHavePermission)
    );
    assert_eq!(e.set_state(902, PRIMARY_ACCOUNT, PoolState::Blocked), Ok(()));
    assert_eq!(e.set_state(902, PRIMARY_ACCOUNT, PoolState::Open), Ok(()));
    // Only the root may destroy, and destruction is final.
    assert_eq!(
        e.set_state(902, PRIMARY_ACCOUNT, PoolState::Destroying),
        Err(PoolsError::DoesNotHavePermission)
    );
    assert_eq!(e.set_state(900, PRIMARY_ACCOUNT, PoolState::Destroying), Ok(()));
    assert_eq!(
        e.set_state(902, PRIMARY_ACCOUNT, PoolState::Open),
        Err(PoolsError::CanNotChangeState)
    );
    assert_eq!(e.set_state(900, 777, PoolState::Destroying), Err(PoolsError::PoolNotFound));
}

#[test]
fn blocked_pool_still_lets_delegators_leave() {
    let mut e = ExtBuilder::default().add_delegators(vec![(40, 5)]).build();
    assert_eq!(e.unsafe_set_state(PRIMARY_ACCOUNT, PoolState::Blocked), Ok(()));
    assert_eq!(e.unbond(40, 5), Ok(()));
    e.staking.set_current_era(3);
    assert_eq!(e.withdraw_unbonded(40), Ok(5));
}

#[test]
fn last_delegator_withdrawal_destroys_pool() {
    let mut e = ExtBuilder::default().build();
    assert_eq!(e.credit_rewards(PRIMARY_ACCOUNT, 9), Ok(()));
    assert_eq!(e.set_state(900, PRIMARY_ACCOUNT, PoolState::Destroying), Ok(()));
    assert_eq!(e.unbond(10, 10), Ok(()));
    e.staking.set_current_era(3);
    assert_eq!(e.withdraw_unbonded(10), Ok(10));
    assert!(e.bonded_pools.get(PRIMARY_ACCOUNT).is_none());
    assert!(e.reward_pools.get(PRIMARY_ACCOUNT).is_none());
    assert!(e.delegators.get(10).is_none());
    // The residual reward balance went to the treasury sink.
    assert_eq!(e.treasury, 9);
    assert!(e.post_checks());
}

#[test]
fn unsafe_set_state_reports_missing_pool() {
    let mut e = ExtBuilder::default().build();
    assert_eq!(e.unsafe_set_state(777, PoolState::Destroying), Err(()));
}

#[test]
fn staking_mock_bookkeeping() {
    let mut s = StakingMock::new(10, 0, 3);
    assert_eq!(s.minimum_bond(), 10);
    assert_eq!(s.current_era(), Some(0));
    assert_eq!(s.bonding_duration(), 3);
    assert_eq!(s.bonded_balance(7), None);
    s.set_bonded_balance(7, 100);
    assert_eq!(s.bonded_balance(7), Some(100));
    assert_eq!(s.bond_extra(7, 20), Ok(()));
    assert_eq!(s.bonded_balance(7), Some(120));
    assert_eq!(s.unbond(7, 50), Ok(()));
    assert_eq!(s.bonded_balance(7), Some(70));
    assert_eq!(s.withdraw_unbonded(7), Some(50));
    assert_eq!(s.withdraw_unbonded(7), None);
    assert_eq!(s.unbond(8, 1), Err(PoolsError::Backend));
    assert_eq!(s.max_nominations(), 3);
    assert_eq!(s.nominate(vec![1, 2, 3]), Ok(()));
    assert_eq!(s.nominations, vec![1, 2, 3]);
    assert_eq!(s.weight_update_worst_case(2, true), u64::MAX / 2);
    assert_eq!(s.weight_update_worst_case(2, false), 10);
    assert_eq!(s.weight_update_worst_case(50, false), 50);
}

#[test]
fn nominate_respects_roles_and_state() {
    let mut e = ExtBuilder::default().build();
    assert_eq!(e.nominate(40, PRIMARY_ACCOUNT, vec![5]), Err(PoolsError::DoesNotHavePermission));
    assert_eq!(e.nominate(901, PRIMARY_ACCOUNT, vec![5, 6]), Ok(()));
    assert_eq!(e.staking.nominations, vec![5, 6]);
    assert_eq!(e.set_state(900, PRIMARY_ACCOUNT, PoolState::Destroying), Ok(()));
    assert_eq!(e.nominate(901, PRIMARY_ACCOUNT, vec![7]), Err(PoolsError::CanNotChangeState));
}

#[test]
fn build_and_execute_reports_post_checks() {
    let (e, ok) = ExtBuilder::default().build_and_execute(|en| en);
    assert!(ok);
    assert_eq!(e.bonded_pools.get(PRIMARY_ACCOUNT).unwrap().points, 10);
    let e2 = ExtBuilder::default()
        .add_delegators(vec![(40, 5), (41, 6)])
        .build_and_execute_no_checks(|mut en: PoolEngine| {
            assert_eq!(en.unbond(40, 5), Ok(()));
            en
        });
    assert_eq!(e2.bonded_pools.get(PRIMARY_ACCOUNT).unwrap().points, 16);
}

#[test]
fn rotation_merges_elapsed_cohorts() {
    let mut e = ExtBuilder::default().add_delegators(vec![(40, 3)]).build();
    assert_eq!(e.unbond(40, 3), Ok(()));
    e.staking.set_current_era(4);
    assert_eq!(e.rotate_sub_pools(PRIMARY_ACCOUNT), Ok(()));
    // Era 3 plus the window of 2 has not elapsed at era 4: still live.
    let sp = e.sub_pools.get_ref(PRIMARY_ACCOUNT).unwrap();
    assert_eq!(sp.with_era.get(3).unwrap().points, 3);
    assert_eq!(sp.no_era.points, 0);
    e.staking.set_current_era(6);
    assert_eq!(e.rotate_sub_pools(PRIMARY_ACCOUNT), Ok(()));
    let sp = e.sub_pools.get_ref(PRIMARY_ACCOUNT).unwrap();
    assert!(sp.with_era.get(3).is_none());
    assert_eq!(sp.no_era.points, 3);
    assert_eq!(sp.no_era.balance, 3);
    // Withdrawal now pays out of the merged pool.
    assert_eq!(e.withdraw_unbonded(40), Ok(3));
    assert!(e.sub_pools.get_ref(PRIMARY_ACCOUNT).is_none());
    assert!(e.post_checks());
    // Rotating a pool without sub-pools is a no-op.
    assert_eq!(e.rotate_sub_pools(PRIMARY_ACCOUNT), Ok(()));
}
