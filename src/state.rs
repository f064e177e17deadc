use vstd::prelude::*;
use crate::principal::{Principal, Account, anonymous_bytes};
use crate::points::{
    PointsBreakdown, digit_count, usd_units, tiered_points, weighted_total, holder_points,
    contributor_points, combine_points,
};
use crate::ladder::{ClaimRecord};
use crate::store::{Entry, entries_view, lookup, has_key, keys_unique, find_entry, upsert, lemma_lookup_at, lemma_lookup_absent, lemma_lookup_push, lemma_has_key_push, lemma_has_key_concat};

verus! {

/// A held balance at snapshot time.
pub struct SnapshotRow {
    pub owner: Principal,
    pub bear_tokens: u128,
}

impl Default for SnapshotRow {
    fn default() -> (r: SnapshotRow)
        ensures
            r.owner@ == anonymous_bytes(),
            r.bear_tokens == 0,
    {
        SnapshotRow { owner: Principal::anonymous(), bear_tokens: 0 }
    }
}

/// A contributed value, in e8s.
pub struct ContribRow {
    pub owner: Principal,
    pub icp_e8s: u64,
}

impl Default for ContribRow {
    fn default() -> (r: ContribRow)
        ensures
            r.owner@ == anonymous_bytes(),
            r.icp_e8s == 0,
    {
        ContribRow { owner: Principal::anonymous(), icp_e8s: 0 }
    }
}

/// Weights of holder and contributor points in the total.
#[derive(Clone, Copy, Debug, PartialEq, Eq, Structural)]
pub struct Weights {
    pub w_holder: u32,
    pub w_contribution: u32,
}

impl Default for Weights {
    fn default() -> (r: Weights)
        ensures
            r.w_holder == 0,
            r.w_contribution == 0,
    {
        Weights { w_holder: 0, w_contribution: 0 }
    }
}

/// Configuration: external identities, exchange rate, claim window, cap,
/// thresholds and weights.
pub struct InitConfig {
    pub sns_root: Principal,
    pub sns_governance: Principal,
    pub sns_ledger: Principal,
    pub icp_ledger: Option<Principal>,
    pub airdrop_pool_account: Account,
    pub icp_usd_rate_microusd_per_icp: u64,
    pub claim_start: u64,
    pub claim_end: u64,
    pub per_principal_max_tokens: u128,
    pub min_bear_stake_required: u128,
    pub ii_rate_limit_per_day: u32,
    pub weights: Weights,
}

impl Default for InitConfig {
    fn default() -> (r: InitConfig)
        ensures
            r.sns_root@ == anonymous_bytes(),
            r.sns_governance@ == anonymous_bytes(),
            r.sns_ledger@ == anonymous_bytes(),
            r.icp_ledger is None,
            r.airdrop_pool_account.owner@ == anonymous_bytes(),
            r.airdrop_pool_account.subaccount is None,
            r.icp_usd_rate_microusd_per_icp == 0,
            r.claim_start == 0,
            r.claim_end == 0,
            r.per_principal_max_tokens == 0,
            r.min_bear_stake_required == 0,
            r.ii_rate_limit_per_day == 0,
            r.weights == (Weights { w_holder: 0, w_contribution: 0 }),
    {
        InitConfig {
            sns_root: Principal::anonymous(),
            sns_governance: Principal::anonymous(),
            sns_ledger: Principal::anonymous(),
            icp_ledger: None,
            airdrop_pool_account: Account::default(),
            icp_usd_rate_microusd_per_icp: 0,
            claim_start: 0,
            claim_end: 0,
            per_principal_max_tokens: 0,
            min_bear_stake_required: 0,
            ii_rate_limit_per_day: 0,
            weights: Weights::default(),
        }
    }
}

/// The claim record of one account.
pub struct AccountClaim {
    pub owner: Principal,
    pub record: ClaimRecord,
}

/// Why an admin operation was refused.
#[derive(Clone, Copy, Debug, PartialEq, Eq, Structural)]
pub enum AccessError {
    /// The caller is not in the admin set.
    NotAdmin,
    /// A new admin set must hold at least one identity.
    EmptyAcl,
}

/// Why initialization was refused.
#[derive(Clone, Copy, Debug, PartialEq, Eq, Structural)]
pub enum LifecycleError {
    AlreadyInitialized,
}

/// The one state record: admins, configuration, pool, claim window, ingested
/// data, per-account claims and the count of fully claimed accounts.
pub struct State {
    pub admins: Vec<Principal>,
    pub config: InitConfig,
    pub pool_balance: u128,
    pub claim_window: (u64, u64),
    pub snapshot: Vec<Entry>,
    pub contributions: Vec<Entry>,
    pub claims: Vec<AccountClaim>,
    pub claimed_count: u64,
}

pub open spec fn is_admin_in(admins: Seq<Principal>, k: Seq<u8>) -> bool {
    exists|i: int| 0 <= i < admins.len() && (#[trigger] admins[i])@ == k
}

/// The identities of a claim list, in order.
pub open spec fn claim_keys(c: Seq<AccountClaim>) -> Seq<Seq<u8>> {
    Seq::new(c.len(), |i: int| c[i].owner@)
}

/// Number of accounts whose eight slots are all claimed.
pub open spec fn count_complete(c: Seq<AccountClaim>) -> nat
    decreases c.len(),
{
    if c.len() == 0 {
        0
    } else {
        count_complete(c.drop_last()) + if c.last().record.complete() { 1nat } else { 0nat }
    }
}

/// Snapshot rows as (identity bytes, amount) pairs.
pub open spec fn snapshot_batch(rows: Seq<SnapshotRow>) -> Seq<(Seq<u8>, nat)> {
    Seq::new(rows.len(), |i: int| (rows[i].owner@, rows[i].bear_tokens as nat))
}

/// Contribution rows as (identity bytes, amount) pairs.
pub open spec fn contribution_batch(rows: Seq<ContribRow>) -> Seq<(Seq<u8>, nat)> {
    Seq::new(rows.len(), |i: int| (rows[i].owner@, rows[i].icp_e8s as nat))
}

impl State {
    /// Keys of both ingested lists and of the claims are unique, contributed
    /// amounts fit 64 bits, every claim record is well formed, and the
    /// claimed-account count equals the number of complete records.
    pub open spec fn wf(&self) -> bool {
        &&& keys_unique(entries_view(self.snapshot@))
        &&& keys_unique(entries_view(self.contributions@))
        &&& forall|i: int| 0 <= i < self.contributions.len() ==> (#[trigger] self.contributions@[i]).amount <= u64::MAX
        &&& claim_keys(self.claims@).no_duplicates()
        &&& forall|i: int| 0 <= i < self.claims.len() ==> (#[trigger] self.claims@[i]).record.wf()
        &&& self.claimed_count == count_complete(self.claims@)
    }

    pub open spec fn holding_of(&self, k: Seq<u8>) -> nat {
        lookup(entries_view(self.snapshot@), k)
    }

    pub open spec fn contribution_of(&self, k: Seq<u8>) -> nat {
        lookup(entries_view(self.contributions@), k)
    }

    pub open spec fn holder_points_of(&self, k: Seq<u8>) -> nat {
        digit_count(self.holding_of(k))
    }

    pub open spec fn contributor_points_of(&self, k: Seq<u8>) -> nat {
        tiered_points(usd_units(self.contribution_of(k), self.config.icp_usd_rate_microusd_per_icp as nat))
    }

    /// Weighted total points of `k`; zero when `k` is in neither list.
    pub open spec fn points_of(&self, k: Seq<u8>) -> nat {
        weighted_total(
            self.config.weights.w_holder as nat,
            self.holder_points_of(k),
            self.config.weights.w_contribution as nat,
            self.contributor_points_of(k),
        )
    }

    /// A fresh state whose only admin is `caller`, with an empty pool and the
    /// claim window taken from the configuration.
    pub fn init(cfg: InitConfig, caller: Principal) -> (r: State)
        ensures
            r.wf(),
            r.admins@.len() == 1,
            r.admins@[0]@ == caller@,
            r.config == cfg,
            r.pool_balance == 0,
            r.claim_window == (cfg.claim_start, cfg.claim_end),
            r.snapshot@.len() == 0,
            r.contributions@.len() == 0,
            r.claims@.len() == 0,
            r.claimed_count == 0,
    {
        let window = (cfg.claim_start, cfg.claim_end);
        let mut admins: Vec<Principal> = Vec::new();
        admins.push(caller);
        State {
            admins,
            config: cfg,
            pool_balance: 0,
            claim_window: window,
            snapshot: Vec::new(),
            contributions: Vec::new(),
            claims: Vec::new(),
            claimed_count: 0,
        }
    }

    /// Whether `p` is in the admin set.
    pub fn is_admin(&self, p: &Principal) -> (r: bool)
        ensures
            r == is_admin_in(self.admins@, p@),
    {
        let mut i: usize = 0;
        while i < self.admins.len()
            invariant
                i <= self.admins.len(),
                forall|j: int| 0 <= j < i ==> (#[trigger] self.admins@[j])@ != p@,
            decreases self.admins.len() - i,
        {
            if self.admins[i].same_as(p) {
                return true;
            }
            i = i + 1;
        }
        false
    }

    /// Replaces the configuration, and the claim window with its bounds.
    pub fn admin_set_params(&mut self, caller: &Principal, cfg: InitConfig) -> (r: Result<(), AccessError>)
        ensures
            is_admin_in(old(self).admins@, caller@) ==> r is Ok && *final(self) == (State {
                claim_window: (cfg.claim_start, cfg.claim_end),
                config: cfg,
                ..*old(self)
            }),
            !is_admin_in(old(self).admins@, caller@) ==> r == Err::<(), AccessError>(AccessError::NotAdmin)
                && *final(self) == *old(self),
    {
        if !self.is_admin(caller) {
            return Err(AccessError::NotAdmin);
        }
        self.claim_window = (cfg.claim_start, cfg.claim_end);
        self.config = cfg;
        Ok(())
    }

    /// Adds `amount` to the pool, saturating at the largest balance.
    pub fn admin_fund_pool_from_treasury(&mut self, caller: &Principal, amount: u128) -> (r: Result<(), AccessError>)
        ensures
            is_admin_in(old(self).admins@, caller@) ==> r is Ok && *final(self) == (State {
                pool_balance: if old(self).pool_balance + amount > u128::MAX {
                    u128::MAX
                } else {
                    (old(self).pool_balance + amount) as u128
                },
                ..*old(self)
            }),
            !is_admin_in(old(self).admins@, caller@) ==> r == Err::<(), AccessError>(AccessError::NotAdmin)
                && *final(self) == *old(self),
    {
        if !self.is_admin(caller) {
            return Err(AccessError::NotAdmin);
        }
        self.pool_balance = self.pool_balance.saturating_add(amount);
        Ok(())
    }

    /// Sets the claim window to `[start, end_)`.
    pub fn admin_open_claims(&mut self, caller: &Principal, start: u64, end_: u64) -> (r: Result<(), AccessError>)
        ensures
            is_admin_in(old(self).admins@, caller@) ==> r is Ok && *final(self) == (State {
                claim_window: (start, end_),
                ..*old(self)
            }),
            !is_admin_in(old(self).admins@, caller@) ==> r == Err::<(), AccessError>(AccessError::NotAdmin)
                && *final(self) == *old(self),
    {
        if !self.is_admin(caller) {
            return Err(AccessError::NotAdmin);
        }
        self.claim_window = (start, end_);
        Ok(())
    }

    /// Ends the claim window at `now`; claims already made stay.
    pub fn admin_close_claims(&mut self, caller: &Principal, now: u64) -> (r: Result<(), AccessError>)
        ensures
            is_admin_in(old(self).admins@, caller@) ==> r is Ok && *final(self) == (State {
                claim_window: (old(self).claim_window.0, now),
                ..*old(self)
            }),
            !is_admin_in(old(self).admins@, caller@) ==> r == Err::<(), AccessError>(AccessError::NotAdmin)
                && *final(self) == *old(self),
    {
        if !self.is_admin(caller) {
            return Err(AccessError::NotAdmin);
        }
        self.claim_window = (self.claim_window.0, now);
        Ok(())
    }

    /// Replaces the admin set wholesale; an empty set is refused, so at least
    /// one admin always remains, though the caller may leave it.
    pub fn admin_set_acl(&mut self, caller: &Principal, admins: Vec<Principal>) -> (r: Result<(), AccessError>)
        ensures
            !is_admin_in(old(self).admins@, caller@) ==> r == Err::<(), AccessError>(AccessError::NotAdmin)
                && *final(self) == *old(self),
            is_admin_in(old(self).admins@, caller@) && admins@.len() == 0 ==> r == Err::<(), AccessError>(AccessError::EmptyAcl)
                && *final(self) == *old(self),
            is_admin_in(old(self).admins@, caller@) && admins@.len() > 0 ==> r is Ok && *final(self) == (State {
                admins,
                ..*old(self)
            }),
    {
        if !self.is_admin(caller) {
            return Err(AccessError::NotAdmin);
        }
        if admins.len() == 0 {
            return Err(AccessError::EmptyAcl);
        }
        self.admins = admins;
        Ok(())
    }

    /// Records each row's balance, a later row for the same identity winning.
    pub fn admin_ingest_snapshot(&mut self, caller: &Principal, rows: Vec<SnapshotRow>) -> (r: Result<(), AccessError>)
        requires
            old(self).wf(),
        ensures
            final(self).wf(),
            !is_admin_in(old(self).admins@, caller@) ==> r == Err::<(), AccessError>(AccessError::NotAdmin)
                && *final(self) == *old(self),
            is_admin_in(old(self).admins@, caller@) ==> r is Ok
                && *final(self) == (State { snapshot: final(self).snapshot, ..*old(self) })
                && forall|k: Seq<u8>| #[trigger] final(self).holding_of(k) == lookup(
                    entries_view(old(self).snapshot@) + snapshot_batch(rows@),
                    k,
                )
                && forall|k: Seq<u8>| #[trigger] has_key(entries_view(final(self).snapshot@), k) <==> (has_key(
                    entries_view(old(self).snapshot@),
                    k,
                ) || has_key(snapshot_batch(rows@), k)),
    {
        if !self.is_admin(caller) {
            return Err(AccessError::NotAdmin);
        }
        let ghost base = entries_view(self.snapshot@);
        let mut i: usize = 0;
        while i < rows.len()
            invariant
                self.wf(),
                i <= rows.len(),
                *self == (State { snapshot: self.snapshot, ..*old(self) }),
                forall|k: Seq<u8>| #[trigger] lookup(entries_view(self.snapshot@), k) == lookup(
                    base + snapshot_batch(rows@).subrange(0, i as int),
                    k,
                ),
                forall|k: Seq<u8>| #[trigger] has_key(entries_view(self.snapshot@), k) <==> has_key(
                    base + snapshot_batch(rows@).subrange(0, i as int),
                    k,
                ),
            decreases rows.len() - i,
        {
            let ghost before = entries_view(self.snapshot@);
            let owner = rows[i].owner.duplicate();
            let amount = rows[i].bear_tokens;
            upsert(&mut self.snapshot, owner, amount);
            proof {
                let b = snapshot_batch(rows@);
                assert(base + b.subrange(0, i + 1) =~= (base + b.subrange(0, i as int)).push(b[i as int]));
                assert forall|k: Seq<u8>| #[trigger] lookup(entries_view(self.snapshot@), k) == lookup(
                    base + b.subrange(0, i + 1),
                    k,
                ) by {
                    lemma_lookup_push(before, b[i as int], k);
                    lemma_lookup_push(base + b.subrange(0, i as int), b[i as int], k);
                }
                assert forall|k: Seq<u8>| #[trigger] has_key(entries_view(self.snapshot@), k) <==> has_key(
                    base + b.subrange(0, i + 1),
                    k,
                ) by {
                    lemma_has_key_push(base + b.subrange(0, i as int), b[i as int], k);
                    assert(has_key(before, k) <==> has_key(base + b.subrange(0, i as int), k));
                    assert(has_key(entries_view(self.snapshot@), k) <==> has_key(before, k) || k == b[i as int].0);
                }
            }
            i = i + 1;
        }
        assert(snapshot_batch(rows@).subrange(0, rows@.len() as int) =~= snapshot_batch(rows@));
        assert forall|k: Seq<u8>| #[trigger] has_key(entries_view(self.snapshot@), k) <==> (has_key(base, k) || has_key(
            snapshot_batch(rows@),
            k,
        )) by {
            lemma_has_key_concat(base, snapshot_batch(rows@), k);
        }
        Ok(())
    }

    /// Records each row's contribution, a later row for the same identity winning.
    pub fn admin_ingest_contributions(&mut self, caller: &Principal, rows: Vec<ContribRow>) -> (r: Result<(), AccessError>)
        requires
            old(self).wf(),
        ensures
            final(self).wf(),
            !is_admin_in(old(self).admins@, caller@) ==> r == Err::<(), AccessError>(AccessError::NotAdmin)
                && *final(self) == *old(self),
            is_admin_in(old(self).admins@, caller@) ==> r is Ok
                && *final(self) == (State { contributions: final(self).contributions, ..*old(self) })
                && forall|k: Seq<u8>| #[trigger] final(self).contribution_of(k) == lookup(
                    entries_view(old(self).contributions@) + contribution_batch(rows@),
                    k,
                )
                && forall|k: Seq<u8>| #[trigger] has_key(entries_view(final(self).contributions@), k) <==> (has_key(
                    entries_view(old(self).contributions@),
                    k,
                ) || has_key(contribution_batch(rows@), k)),
    {
        if !self.is_admin(caller) {
            return Err(AccessError::NotAdmin);
        }
        let ghost base = entries_view(self.contributions@);
        let mut i: usize = 0;
        while i < rows.len()
            invariant
                self.wf(),
                i <= rows.len(),
                *self == (State { contributions: self.contributions, ..*old(self) }),
                forall|k: Seq<u8>| #[trigger] lookup(entries_view(self.contributions@), k) == lookup(
                    base + contribution_batch(rows@).subrange(0, i as int),
                    k,
                ),
                forall|k: Seq<u8>| #[trigger] has_key(entries_view(self.contributions@), k) <==> has_key(
                    base + contribution_batch(rows@).subrange(0, i as int),
                    k,
                ),
            decreases rows.len() - i,
        {
            let ghost before = entries_view(self.contributions@);
            let ghost old_v = self.contributions@;
            let owner = rows[i].owner.duplicate();
            let amount = rows[i].icp_e8s as u128;
            upsert(&mut self.contributions, owner, amount);
            proof {
                let b = contribution_batch(rows@);
                assert(base + b.subrange(0, i + 1) =~= (base + b.subrange(0, i as int)).push(b[i as int]));
                assert forall|k: Seq<u8>| #[trigger] lookup(entries_view(self.contributions@), k) == lookup(
                    base + b.subrange(0, i + 1),
                    k,
                ) by {
                    lemma_lookup_push(before, b[i as int], k);
                    lemma_lookup_push(base + b.subrange(0, i as int), b[i as int], k);
                }
                assert forall|k: Seq<u8>| #[trigger] has_key(entries_view(self.contributions@), k) <==> has_key(
                    base + b.subrange(0, i + 1),
                    k,
                ) by {
                    lemma_has_key_push(base + b.subrange(0, i as int), b[i as int], k);
                    assert(has_key(before, k) <==> has_key(base + b.subrange(0, i as int), k));
                    assert(has_key(entries_view(self.contributions@), k) <==> has_key(before, k) || k == b[i as int].0);
                }
                assert forall|j: int| 0 <= j < self.contributions.len() implies (#[trigger] self.contributions@[j]).amount
                    <= u64::MAX by {
                    if self.contributions@[j].amount != amount {
                        let j2 = choose|j2: int| 0 <= j2 < old_v.len() && old_v[j2].amount == self.contributions@[j].amount;
                        assert(old_v[j2].amount <= u64::MAX);
                    }
                }
            }
            i = i + 1;
        }
        assert(contribution_batch(rows@).subrange(0, rows@.len() as int) =~= contribution_batch(rows@));
        assert forall|k: Seq<u8>| #[trigger] has_key(entries_view(self.contributions@), k) <==> (has_key(base, k) || has_key(
            contribution_batch(rows@),
            k,
        )) by {
            lemma_has_key_concat(base, contribution_batch(rows@), k);
        }
        Ok(())
    }

    /// Held balance of `p`, zero when absent.
    pub fn get_holding(&self, p: &Principal) -> (r: u128)
        requires
            self.wf(),
        ensures
            r == self.holding_of(p@),
    {
        match find_entry(&self.snapshot, p) {
            Some(i) => {
                proof {
                    lemma_lookup_at(entries_view(self.snapshot@), p@, i as int);
                }
                self.snapshot[i].amount
            },
            None => {
                proof {
                    lemma_lookup_absent(entries_view(self.snapshot@), p@);
                }
                0
            },
        }
    }

    /// Contributed e8s of `p`, zero when absent.
    pub fn get_contribution(&self, p: &Principal) -> (r: u64)
        requires
            self.wf(),
        ensures
            r == self.contribution_of(p@),
    {
        match find_entry(&self.contributions, p) {
            Some(i) => {
                proof {
                    lemma_lookup_at(entries_view(self.contributions@), p@, i as int);
                }
                self.contributions[i].amount as u64
            },
            None => {
                proof {
                    lemma_lookup_absent(entries_view(self.contributions@), p@);
                }
                0
            },
        }
    }

    /// Current pool balance.
    pub fn get_status(&self) -> (r: u128)
        ensures
            r == self.pool_balance,
    {
        self.pool_balance
    }

    /// Holder, contributor and weighted total points of `p`.
    pub fn compute_points(&self, p: &Principal) -> (r: PointsBreakdown)
        requires
            self.wf(),
        ensures
            r.holder_points == self.holder_points_of(p@),
            r.contributor_points == self.contributor_points_of(p@),
            r.total_points == self.points_of(p@),
    {
        let holding = self.get_holding(p);
        let h = holder_points(holding);
        let e8s = self.get_contribution(p);
        let c = contributor_points(e8s, self.config.icp_usd_rate_microusd_per_icp);
        let t = combine_points(self.config.weights.w_holder, h, self.config.weights.w_contribution, c);
        PointsBreakdown { holder_points: h, contributor_points: c, total_points: t }
    }
}

/// Creates the state in `slot` with `caller` as its first admin, once: a
/// second call is refused and changes nothing.
pub fn initialize(slot: &mut Option<State>, cfg: InitConfig, caller: Principal) -> (r: Result<(), LifecycleError>)
    ensures
        old(slot).is_some() ==> r == Err::<(), LifecycleError>(LifecycleError::AlreadyInitialized)
            && *final(slot) == *old(slot),
        old(slot).is_none() ==> r is Ok && final(slot).is_some() && final(slot).unwrap().wf()
            && final(slot).unwrap().admins@.len() == 1 && final(slot).unwrap().admins@[0]@ == caller@
            && final(slot).unwrap().config == cfg && final(slot).unwrap().pool_balance == 0
            && final(slot).unwrap().claim_window == (cfg.claim_start, cfg.claim_end)
            && final(slot).unwrap().snapshot@.len() == 0 && final(slot).unwrap().contributions@.len() == 0
            && final(slot).unwrap().claims@.len() == 0 && final(slot).unwrap().claimed_count == 0,
{
    if slot.is_some() {
        return Err(LifecycleError::AlreadyInitialized);
    }
    *slot = Some(State::init(cfg, caller));
    Ok(())
}

impl State {
    /// Every identity with a balance or a contribution, each once: the
    /// snapshot's in order, then the contributors missing from it.
    pub fn participants(&self) -> (r: Vec<Principal>)
        requires
            self.wf(),
        ensures
            forall|k: Seq<u8>|
                (exists|i: int| 0 <= i < r.len() && (#[trigger] r@[i])@ == k) <==> (has_key(
                    entries_view(self.snapshot@),
                    k,
                ) || has_key(entries_view(self.contributions@), k)),
            r@.map_values(|p: Principal| p@).no_duplicates(),
    {
        let ghost es = entries_view(self.snapshot@);
        let ghost ec = entries_view(self.contributions@);
        let mut out: Vec<Principal> = Vec::new();
        let mut i: usize = 0;
        while i < self.snapshot.len()
            invariant
                i <= self.snapshot.len(),
                es == entries_view(self.snapshot@),
                out.len() == i,
                forall|a: int| 0 <= a < i ==> (#[trigger] out@[a])@ == es[a].0,
            decreases self.snapshot.len() - i,
        {
            out.push(self.snapshot[i].owner.duplicate());
            i = i + 1;
        }
        let mut j: usize = 0;
        assert(forall|a: int, b: int| 0 <= a < out.len() && 0 <= b < out.len() && a != b ==> (#[trigger] out@[a])@ != (#[trigger] out@[b])@) by {
            assert(keys_unique(es));
        }
        while j < self.contributions.len()
            invariant
                self.wf(),
                forall|a: int, b: int| 0 <= a < out.len() && 0 <= b < out.len() && a != b ==> (#[trigger] out@[a])@ != (#[trigger] out@[b])@,
                j <= self.contributions.len(),
                es == entries_view(self.snapshot@),
                ec == entries_view(self.contributions@),
                out.len() >= es.len(),
                forall|a: int| 0 <= a < es.len() ==> (#[trigger] out@[a])@ == es[a].0,
                forall|a: int| es.len() <= a < out.len() ==> exists|b: int| 0 <= b < j && (#[trigger] out@[a])@ == ec[b].0,
                forall|b: int| 0 <= b < j ==> has_key(es, (#[trigger] ec[b]).0) || exists|a: int|
                    0 <= a < out.len() && out@[a]@ == ec[b].0,
            decreases self.contributions.len() - j,
        {
            let owner = &self.contributions[j].owner;
            let ghost prev = out@;
            let found = find_entry(&self.snapshot, owner);
            if found.is_none() {
                out.push(owner.duplicate());
            }
            proof {
                if found.is_none() {
                    assert forall|a: int, b: int| 0 <= a < out.len() && 0 <= b < out.len() && a != b implies (#[trigger] out@[a])@
                        != (#[trigger] out@[b])@ by {
                        let last = out.len() - 1;
                        if a != last && b != last {
                            assert(out@[a] == prev[a] && out@[b] == prev[b]);
                        } else {
                            let o = if a == last { b } else { a };
                            assert(out@[o] == prev[o]);
                            assert(out@[last]@ == ec[j as int].0);
                            if o < es.len() {
                                assert(es[o].0 == out@[o]@);
                            } else {
                                let b2 = choose|b2: int| 0 <= b2 < j && (#[trigger] prev[o])@ == ec[b2].0;
                                assert(ec[b2].0 != ec[j as int].0);
                            }
                        }
                    }
                }
                assert(ec[j as int].0 == owner@);
                assert(forall|a: int| 0 <= a < prev.len() ==> #[trigger] out@[a] == prev[a]);
                assert forall|a: int| es.len() <= a < out.len() implies exists|b: int| 0 <= b < j + 1 && (#[trigger] out@[a])@ == ec[b].0 by {
                    if a < prev.len() {
                        let b = choose|b: int| 0 <= b < j && (#[trigger] prev[a])@ == ec[b].0;
                        assert(out@[a] == prev[a]);
                    } else {
                        assert(out@[a]@ == ec[j as int].0);
                    }
                }
                assert forall|b: int| 0 <= b < j + 1 implies has_key(es, (#[trigger] ec[b]).0) || exists|a: int|
                    0 <= a < out.len() && out@[a]@ == ec[b].0 by {
                    if b < j {
                        if !has_key(es, ec[b].0) {
                            let a = choose|a: int| 0 <= a < prev.len() && prev[a]@ == ec[b].0;
                            assert(out@[a] == prev[a]);
                        }
                    } else {
                        match found {
                            Some(x) => {
                                assert(es[x as int].0 == owner@);
                            },
                            None => {
                                assert(out@[out.len() - 1]@ == owner@);
                            },
                        }
                    }
                }
            }
            j = j + 1;
        }
        assert forall|k: Seq<u8>|
            (exists|i: int| 0 <= i < out.len() && (#[trigger] out@[i])@ == k) <==> (has_key(es, k) || has_key(ec, k)) by {
            if exists|i: int| 0 <= i < out.len() && (#[trigger] out@[i])@ == k {
                let a = choose|a: int| 0 <= a < out.len() && (#[trigger] out@[a])@ == k;
                if a < es.len() {
                    assert(es[a].0 == k);
                } else {
                    let b = choose|b: int| 0 <= b < j && (#[trigger] out@[a])@ == ec[b].0;
                    assert(ec[b].0 == k);
                }
            }
            if has_key(es, k) {
                let a = choose|a: int| 0 <= a < es.len() && (#[trigger] es[a]).0 == k;
                assert(out@[a]@ == k);
            }
            if has_key(ec, k) {
                let b = choose|b: int| 0 <= b < ec.len() && (#[trigger] ec[b]).0 == k;
                assert(has_key(es, ec[b].0) || exists|a: int| 0 <= a < out.len() && out@[a]@ == ec[b].0);
            }
        }
        assert(out@.map_values(|p: Principal| p@).no_duplicates()) by {
            let m = out@.map_values(|p: Principal| p@);
            assert forall|a: int, b: int| 0 <= a < m.len() && 0 <= b < m.len() && a != b implies m[a] != m[b] by {
                assert(m[a] == out@[a]@ && m[b] == out@[b]@);
            }
        }
        out
    }
}

} // verus!
