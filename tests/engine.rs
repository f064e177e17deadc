use bear_claim::allocation::PreviewError;
use bear_claim::claims::{FinalizeError, FinalizeStep};
use bear_claim::ladder::{default_ladder, ClaimRecord, SlotStatus, HALF_YEAR_SECONDS};
use bear_claim::points::{combine_points, contributor_points, holder_points, icp_usd, log10_like};
use bear_claim::principal::Principal;
use bear_claim::state::{
    initialize, AccessError, ContribRow, InitConfig, LifecycleError, SnapshotRow, State,
    Weights,
};

fn who(b: u8) -> Principal {
    Principal::from_bytes(vec![b, b, b])
}

fn config(cap: u128) -> InitConfig {
    let mut cfg = InitConfig::default();
    cfg.claim_start = 100;
    cfg.claim_end = 200;
    cfg.per_principal_max_tokens = cap;
    cfg.icp_usd_rate_microusd_per_icp = 5_000_000;
    cfg.weights = Weights { w_holder: 1, w_contribution: 1 };
    cfg
}

fn snapshot(rows: &[(u8, u128)]) -> Vec<SnapshotRow> {
    rows.iter().map(|&(b, t)| SnapshotRow { owner: who(b), bear_tokens: t }).collect()
}

/// Admin 1, pool 800, accounts 2 and 3 holding 999 each, window [100, 200).
fn funded_state() -> State {
    let admin = who(1);
    let mut s = State::init(config(1_000_000), admin.clone());
    s.admin_fund_pool_from_treasury(&admin, 800).unwrap();
    s.admin_ingest_snapshot(&admin, snapshot(&[(2, 999), (3, 999)])).unwrap();
    s
}

#[test]
fn holder_points_of_999_is_three() {
    assert_eq!(holder_points(999), 3);
    assert_eq!(log10_like(0), 0);
    assert_eq!(log10_like(9), 1);
    assert_eq!(log10_like(10), 2);
    assert_eq!(log10_like(u128::MAX), 39);
}

#[test]
fn contributor_points_below_threshold_are_linear() {
    // 10,000 coins at 5 currency units each: 50,000 units.
    assert_eq!(contributor_points(1_000_000_000_000, 5_000_000), 50_000);
}

#[test]
fn contributor_points_above_threshold_double() {
    // 30,000 coins at 5 currency units each: 150,000 units.
    assert_eq!(contributor_points(3_000_000_000_000, 5_000_000), 200_000);
    assert_eq!(contributor_points(0, 5_000_000), 0);
}

#[test]
fn icp_usd_is_exact() {
    assert_eq!(icp_usd(250_000_000, 4_000_000), 10_000_000);
    assert_eq!(icp_usd(u64::MAX, u64::MAX), (u64::MAX as u128) * (u64::MAX as u128) / 100_000_000);
}

#[test]
fn combined_points_are_weighted() {
    assert_eq!(combine_points(2, 3, 5, 7), 41);
}

#[test]
fn default_ladder_sums_to_total() {
    let l = default_ladder(803);
    assert_eq!(l.len(), 8);
    for (i, s) in l.iter().enumerate() {
        assert_eq!(s.slot_index as usize, i);
        assert_eq!(s.dissolve_delay_seconds, HALF_YEAR_SECONDS * (i as u64 + 1));
        assert_eq!(s.status, SlotStatus::Pending);
        assert_eq!(s.neuron_id, None);
        assert_eq!(s.amount, if i == 7 { 103 } else { 100 });
    }
    assert_eq!(l.iter().map(|s| s.amount).sum::<u128>(), 803);
    let r = ClaimRecord::new(7);
    assert_eq!(r.ladder.iter().map(|s| s.amount).sum::<u128>(), 7);
    assert!(!r.is_complete());
}

#[test]
fn set_acl_to_other_account_locks_out_old_admins() {
    let a = who(1);
    let b = who(2);
    let c = who(3);
    let mut s = State::init(config(10), a.clone());
    s.admin_set_acl(&a, vec![a.clone(), b.clone()]).unwrap();
    assert!(s.is_admin(&b));
    s.admin_set_acl(&b, vec![c.clone()]).unwrap();
    assert!(!s.is_admin(&a));
    assert!(!s.is_admin(&b));
    assert_eq!(s.admin_open_claims(&a, 0, 10), Err(AccessError::NotAdmin));
    assert_eq!(s.admin_fund_pool_from_treasury(&b, 5), Err(AccessError::NotAdmin));
    assert_eq!(s.pool_balance, 0);
    assert_eq!(s.admin_open_claims(&c, 0, 10), Ok(()));
    assert_eq!(s.claim_window, (0, 10));
}

#[test]
fn empty_acl_is_refused() {
    let a = who(1);
    let mut s = State::init(config(10), a.clone());
    assert_eq!(s.admin_set_acl(&a, vec![]), Err(AccessError::EmptyAcl));
    assert!(s.is_admin(&a));
}

#[test]
fn equal_points_split_pool_evenly() {
    let s = funded_state();
    let p2 = s.preview_claim(&who(2)).unwrap();
    let p3 = s.preview_claim(&who(3)).unwrap();
    assert_eq!(p2.total_allocation, 400);
    assert_eq!(p3.total_allocation, 400);
    assert_eq!(p2.points_breakdown.holder_points, 3);
    assert_eq!(p2.points_breakdown.total_points, 3);
    assert!(p2.within_cap);
    assert_eq!(p2.ladder.iter().map(|x| x.amount).sum::<u128>(), 400);
}

#[test]
fn preview_is_capped_and_repeatable() {
    let admin = who(1);
    let mut s = State::init(config(300), admin.clone());
    s.admin_fund_pool_from_treasury(&admin, 800).unwrap();
    s.admin_ingest_snapshot(&admin, snapshot(&[(2, 999), (3, 999)])).unwrap();
    let a = s.preview_claim(&who(2)).unwrap();
    let b = s.preview_claim(&who(2)).unwrap();
    assert_eq!(a.total_allocation, 300);
    assert!(a.within_cap);
    assert_eq!(a.per_principal_cap_tokens, 300);
    assert_eq!(a.total_allocation, b.total_allocation);
    assert_eq!(a.ladder, b.ladder);
    assert_eq!(s.pool_balance, 800);
    assert!(s.claims.is_empty());
}

#[test]
fn unknown_account_gets_nothing() {
    let s = funded_state();
    let p = s.preview_claim(&who(9)).unwrap();
    assert_eq!(p.total_allocation, 0);
    assert_eq!(p.points_breakdown.total_points, 0);
}

#[test]
fn preview_overflow_is_reported() {
    let admin = who(1);
    let mut s = State::init(config(10), admin.clone());
    s.admin_fund_pool_from_treasury(&admin, u128::MAX).unwrap();
    s.admin_fund_pool_from_treasury(&admin, 1).unwrap();
    assert_eq!(s.pool_balance, u128::MAX);
    s.admin_ingest_snapshot(&admin, snapshot(&[(2, 999)])).unwrap();
    assert!(matches!(s.preview_claim(&who(2)), Err(PreviewError::Overflow)));
}

#[test]
fn ingestion_last_write_wins() {
    let admin = who(1);
    let mut s = State::init(config(10), admin.clone());
    s.admin_ingest_snapshot(&admin, snapshot(&[(2, 5), (2, 7)])).unwrap();
    s.admin_ingest_snapshot(&admin, snapshot(&[(3, 1)])).unwrap();
    assert_eq!(s.get_holding(&who(2)), 7);
    assert_eq!(s.get_holding(&who(4)), 0);
    s.admin_ingest_contributions(&admin, vec![
        ContribRow { owner: who(4), icp_e8s: 10 },
        ContribRow { owner: who(2), icp_e8s: 20 },
        ContribRow { owner: who(4), icp_e8s: 30 },
    ]).unwrap();
    assert_eq!(s.get_contribution(&who(4)), 30);
    assert_eq!(s.get_contribution(&who(3)), 0);
    let ps: Vec<Vec<u8>> = s.participants().into_iter().map(|p| p.bytes).collect();
    assert_eq!(ps, vec![vec![2, 2, 2], vec![3, 3, 3], vec![4, 4, 4]]);
    assert_eq!(s.admin_ingest_snapshot(&who(2), snapshot(&[(2, 1)])), Err(AccessError::NotAdmin));
    assert_eq!(s.get_holding(&who(2)), 7);
}

#[test]
fn contributions_count_toward_points() {
    let admin = who(1);
    let mut s = State::init(config(u128::MAX), admin.clone());
    s.admin_fund_pool_from_treasury(&admin, 1_000).unwrap();
    s.admin_ingest_snapshot(&admin, snapshot(&[(2, 999)])).unwrap();
    // 2 coins at 5 units each: 10 contributor points and no holder points.
    s.admin_ingest_contributions(&admin, vec![ContribRow { owner: who(3), icp_e8s: 200_000_000 }]).unwrap();
    let p3 = s.compute_points(&who(3));
    assert_eq!((p3.holder_points, p3.contributor_points, p3.total_points), (0, 10, 10));
    assert_eq!(s.total_points(), Some(13));
    assert_eq!(s.preview_claim(&who(3)).unwrap().total_allocation, 769);
    assert_eq!(s.preview_claim(&who(2)).unwrap().total_allocation, 230);
}

#[test]
fn full_claim_counts_once() {
    let mut s = funded_state();
    let u = who(2);
    for i in 0..8u8 {
        assert!(matches!(s.finalize_slot(&u, i, 150), Err(FinalizeError::NoClaim) | Err(FinalizeError::WrongStatus)));
        let ready = s.open_slot(&u, i, 150).unwrap();
        assert_eq!(ready.status, SlotStatus::Ready);
        assert_eq!(ready.slot_index, i);
        match s.finalize_slot(&u, i, 150) {
            Ok(FinalizeStep::Stake(slot)) => assert_eq!(slot, ready),
            _ => panic!("slot should be ready to stake"),
        }
        let staked = s.confirm_stake(&u, i, 1000 + i as u64).unwrap();
        assert_eq!(staked.status, SlotStatus::Staked);
        assert_eq!(staked.neuron_id, Some(1000 + i as u64));
        match s.finalize_slot(&u, i, 150) {
            Ok(FinalizeStep::Settled(slot)) => assert_eq!(slot.status, SlotStatus::Staked),
            _ => panic!("staked slot is settled"),
        }
        assert!(!s.has_claimed(&u));
        let claimed = s.confirm_payout(&u, i, 160 + i as u64).unwrap();
        assert_eq!(claimed.status, SlotStatus::Claimed);
    }
    assert_eq!(s.pool_balance, 400);
    assert!(s.has_claimed(&u));
    assert!(!s.has_claimed(&who(3)));
    assert_eq!(s.claimed_count, 1);
    assert_eq!(s.claims[0].record.claimed_slots, vec![0, 1, 2, 3, 4, 5, 6, 7]);
    assert_eq!(s.claims[0].record.last_claim_ts, Some(167));
    // Retrying the last payout neither succeeds nor counts again.
    assert_eq!(s.confirm_payout(&u, 7, 170), Err(FinalizeError::WrongStatus));
    assert_eq!(s.claimed_count, 1);
    assert_eq!(s.claims[0].record.last_claim_ts, Some(167));
    // Settled slots stay settled, inside the window or not.
    let all = s.finalize_all(&u, 500);
    assert_eq!(all.len(), 8);
    assert!(all.iter().all(|r| matches!(r, Ok(FinalizeStep::Settled(x)) if x.status == SlotStatus::Claimed)));
    assert_eq!(s.open_slot(&u, 3, 150).unwrap().status, SlotStatus::Claimed);
    assert_eq!(s.claimed_count, 1);
}

#[test]
fn staked_slot_settles_after_window_closes() {
    let mut s = funded_state();
    let u = who(2);
    s.open_slot(&u, 0, 150).unwrap();
    s.confirm_stake(&u, 0, 77).unwrap();
    s.admin_close_claims(&who(1), 160).unwrap();
    match s.finalize_slot(&u, 0, 900) {
        Ok(FinalizeStep::Settled(slot)) => assert_eq!(slot.neuron_id, Some(77)),
        _ => panic!("staked slot is settled whatever the window"),
    }
    assert!(matches!(s.finalize_slot(&u, 1, 900), Err(FinalizeError::WindowNotOpen)));
    assert_eq!(s.confirm_payout(&u, 0, 900).unwrap().status, SlotStatus::Claimed);
}

#[test]
fn wrong_status_leaves_state_alone() {
    let mut s = funded_state();
    let u = who(2);
    assert_eq!(s.confirm_stake(&u, 0, 1), Err(FinalizeError::NoClaim));
    assert_eq!(s.confirm_payout(&u, 0, 1), Err(FinalizeError::NoClaim));
    assert!(matches!(s.finalize_slot(&u, 0, 150), Err(FinalizeError::NoClaim)));
    s.open_slot(&u, 0, 150).unwrap();
    assert!(matches!(s.finalize_slot(&u, 1, 150), Err(FinalizeError::WrongStatus)));
    assert_eq!(s.confirm_payout(&u, 0, 1), Err(FinalizeError::WrongStatus));
    assert_eq!(s.confirm_stake(&u, 1, 1), Err(FinalizeError::WrongStatus));
    assert_eq!(s.claims[0].record.ladder[1].status, SlotStatus::Pending);
    assert_eq!(s.claims[0].record.ladder[0].status, SlotStatus::Ready);
    assert_eq!(s.pool_balance, 800);
    assert_eq!(s.confirm_stake(&u, 8, 1), Err(FinalizeError::InvalidSlot));
    assert_eq!(s.confirm_payout(&u, 9, 1), Err(FinalizeError::InvalidSlot));
    let all = s.finalize_all(&u, 150);
    assert!(matches!(all[0], Ok(FinalizeStep::Stake(_))));
    assert!(all[1..].iter().all(|r| matches!(r, Err(FinalizeError::WrongStatus))));
}

#[test]
fn finalize_outside_window_or_bad_slot_fails() {
    let mut s = funded_state();
    let u = who(2);
    assert!(matches!(s.finalize_slot(&u, 8, 150), Err(FinalizeError::InvalidSlot)));
    assert!(matches!(s.open_slot(&u, 8, 150), Err(FinalizeError::InvalidSlot)));
    assert!(matches!(s.open_slot(&u, 0, 99), Err(FinalizeError::WindowNotOpen)));
    assert!(matches!(s.open_slot(&u, 0, 200), Err(FinalizeError::WindowNotOpen)));
    assert!(s.claims.is_empty());
    s.open_slot(&u, 0, 150).unwrap();
    let admin = who(1);
    s.admin_close_claims(&admin, 120).unwrap();
    assert_eq!(s.claim_window, (100, 120));
    assert!(matches!(s.open_slot(&u, 1, 150), Err(FinalizeError::WindowNotOpen)));
    let all = s.finalize_all(&u, 150);
    assert_eq!(all.len(), 8);
    assert!(all.iter().all(|r| matches!(r, Err(FinalizeError::WindowNotOpen))));
}

#[test]
fn finalize_needs_pool_cover() {
    let admin = who(1);
    let mut s = State::init(config(1_000), admin.clone());
    s.admin_ingest_snapshot(&admin, snapshot(&[(2, 999)])).unwrap();
    s.admin_fund_pool_from_treasury(&admin, 80).unwrap();
    let u = who(2);
    // Sole participant: allocation 80, ten per slot.
    for i in 0..8u8 {
        assert_eq!(s.open_slot(&u, i, 150).unwrap().amount, 10);
    }
    match s.finalize_all(&u, 150).as_slice() {
        [Ok(FinalizeStep::Stake(a)), ..] => assert_eq!(a.amount, 10),
        _ => panic!("first slot should be ready"),
    }
    for i in 0..7u8 {
        s.confirm_stake(&u, i, i as u64).unwrap();
    }
    assert_eq!(s.pool_balance, 10);
    s.pool_balance = 5;
    assert_eq!(s.confirm_stake(&u, 7, 1), Err(FinalizeError::InsufficientPool));
    assert!(matches!(s.finalize_slot(&u, 7, 150), Err(FinalizeError::InsufficientPool)));
    assert_eq!(s.claims[0].record.ladder[7].status, SlotStatus::Ready);
}

#[test]
fn finalize_preview_overflow_is_reported() {
    let admin = who(1);
    let mut s = State::init(config(10), admin.clone());
    s.admin_fund_pool_from_treasury(&admin, u128::MAX).unwrap();
    s.admin_ingest_snapshot(&admin, snapshot(&[(2, 999)])).unwrap();
    assert!(matches!(s.open_slot(&who(2), 0, 150), Err(FinalizeError::Overflow)));
    assert!(s.claims.is_empty());
}

#[test]
fn params_replace_config_and_window() {
    let admin = who(1);
    let mut s = State::init(config(10), admin.clone());
    let mut cfg = config(55);
    cfg.claim_start = 7;
    cfg.claim_end = 9;
    s.admin_set_params(&admin, cfg).unwrap();
    assert_eq!(s.claim_window, (7, 9));
    assert_eq!(s.config.per_principal_max_tokens, 55);
    assert_eq!(s.admin_set_params(&who(5), config(1)), Err(AccessError::NotAdmin));
    assert_eq!(s.config.per_principal_max_tokens, 55);
    assert_eq!(s.get_status(), 0);
}

#[test]
fn initialize_runs_once() {
    let mut slot: Option<State> = None;
    assert_eq!(initialize(&mut slot, config(10), who(1)), Ok(()));
    assert!(slot.as_ref().unwrap().is_admin(&who(1)));
    assert_eq!(slot.as_ref().unwrap().claim_window, (100, 200));
    assert_eq!(initialize(&mut slot, config(20), who(2)), Err(LifecycleError::AlreadyInitialized));
    assert!(!slot.as_ref().unwrap().is_admin(&who(2)));
    assert_eq!(slot.as_ref().unwrap().config.per_principal_max_tokens, 10);
}

#[test]
fn principal_helpers() {
    assert_eq!(Principal::anonymous().bytes, vec![4]);
    assert!(who(1).same_as(&who(1)));
    assert!(!who(1).same_as(&who(2)));
    assert!(!who(1).same_as(&Principal::from_bytes(vec![1])));
}

#[test]
fn well_formedness_is_detected() {
    let mut s = funded_state();
    assert!(s.is_well_formed());
    assert!(State::default().is_well_formed());
    let u = who(2);
    assert_eq!(s.open_slot(&u, 0, 150).unwrap().status, SlotStatus::Ready);
    assert!(s.is_well_formed());
    assert!(s.claims[0].record.is_well_formed());
    s.claimed_count = 1;
    assert!(!s.is_well_formed());
    s.claimed_count = 0;
    s.claims[0].record.claimed_slots.push(9);
    assert!(!s.claims[0].record.is_well_formed());
    assert!(!s.is_well_formed());
    s.claims[0].record.claimed_slots.clear();
    s.claims[0].record.ladder[3].amount += 1;
    assert!(!s.is_well_formed());
    let mut t = funded_state();
    t.snapshot.push(bear_claim::store::Entry { owner: who(2), amount: 1 });
    assert!(!t.is_well_formed());
}
