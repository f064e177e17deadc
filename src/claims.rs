use vstd::prelude::*;
use crate::principal::Principal;
use crate::ladder::{
    ClaimRecord, LadderSlot, SlotStatus, LADDER_LEN, is_default_slot,
};
use crate::state::{State, AccountClaim, claim_keys, count_complete};
use crate::ladder::ladder_sum;

verus! {

/// What a finalize request asks of the caller's environment.
pub enum FinalizeStep {
    /// The slot is ready: transfer its amount and lock it with its delay, then
    /// report the lock with `confirm_stake`.
    Stake(LadderSlot),
    /// The slot is already staked or claimed; nothing is to be done.
    Settled(LadderSlot),
}

/// Why a slot could not advance. The state is left as it was.
#[derive(Clone, Copy, Debug, PartialEq, Eq, Structural)]
pub enum FinalizeError {
    InvalidSlot,
    WindowNotOpen,
    NoClaim,
    WrongStatus,
    InsufficientPool,
    Overflow,
}

pub open spec fn with_status(s: LadderSlot, st: SlotStatus) -> LadderSlot {
    LadderSlot { status: st, ..s }
}

/// `new` is `old` with claim `j` given this ladder, claimed indices and claim
/// time, and everything else kept.
pub open spec fn claim_changed(
    old: Seq<AccountClaim>,
    new: Seq<AccountClaim>,
    j: int,
    ladder: Seq<LadderSlot>,
    claimed: Seq<u8>,
    ts: Option<u64>,
) -> bool {
    &&& new.len() == old.len()
    &&& forall|j2: int| 0 <= j2 < old.len() && j2 != j ==> #[trigger] new[j2] == old[j2]
    &&& new[j].owner == old[j].owner
    &&& new[j].record.total_allocation == old[j].record.total_allocation
    &&& new[j].record.ladder@ == ladder
    &&& new[j].record.claimed_slots@ == claimed
    &&& new[j].record.last_claim_ts == ts
}

/// Claims are never retracted: every account keeps its record and its
/// claimed indices, which may only be extended.
pub open spec fn claims_grow(old: Seq<AccountClaim>, new: Seq<AccountClaim>) -> bool {
    &&& old.len() <= new.len()
    &&& forall|j: int| 0 <= j < old.len() ==> {
        &&& (#[trigger] new[j]).owner@ == old[j].owner@
        &&& old[j].record.claimed_slots@.len() <= new[j].record.claimed_slots@.len()
        &&& new[j].record.claimed_slots@.subrange(0, old[j].record.claimed_slots@.len() as int)
            == old[j].record.claimed_slots@
    }
}

proof fn lemma_count_update(c: Seq<AccountClaim>, j: int, x: AccountClaim)
    requires
        0 <= j < c.len(),
    ensures
        count_complete(c.update(j, x)) + (if c[j].record.complete() { 1nat } else { 0nat })
            == count_complete(c) + (if x.record.complete() { 1nat } else { 0nat }),
    decreases c.len(),
{
    if j == c.len() - 1 {
        assert(c.update(j, x).drop_last() =~= c.drop_last());
    } else {
        assert(c.update(j, x).drop_last() =~= c.drop_last().update(j, x));
        lemma_count_update(c.drop_last(), j, x);
    }
}

proof fn lemma_count_le_len(c: Seq<AccountClaim>)
    ensures
        count_complete(c) <= c.len(),
    decreases c.len(),
{
    if c.len() > 0 {
        lemma_count_le_len(c.drop_last());
    }
}

proof fn lemma_grow_refl(c: Seq<AccountClaim>)
    ensures
        claims_grow(c, c),
{
    assert forall|j: int| 0 <= j < c.len() implies (#[trigger] c[j]).record.claimed_slots@.subrange(
        0,
        c[j].record.claimed_slots@.len() as int,
    ) == c[j].record.claimed_slots@ by {
        assert(c[j].record.claimed_slots@.subrange(0, c[j].record.claimed_slots@.len() as int)
            =~= c[j].record.claimed_slots@);
    }
}

proof fn lemma_grow_push(a: Seq<AccountClaim>, b: Seq<AccountClaim>)
    requires
        b.len() == a.len() + 1,
        forall|j: int| 0 <= j < a.len() ==> #[trigger] b[j] == a[j],
    ensures
        claims_grow(a, b),
{
    assert forall|j: int| 0 <= j < a.len() implies (#[trigger] b[j]).record.claimed_slots@.subrange(
        0,
        a[j].record.claimed_slots@.len() as int,
    ) == a[j].record.claimed_slots@ by {
        assert(b[j] == a[j]);
        assert(b[j].record.claimed_slots@.subrange(0, a[j].record.claimed_slots@.len() as int) =~= a[j].record.claimed_slots@);
    }
}

/// One claim changed and its claimed indices were kept or extended.
proof fn lemma_grow_one(a: Seq<AccountClaim>, b: Seq<AccountClaim>, j: int)
    requires
        b.len() == a.len(),
        0 <= j < a.len(),
        forall|j2: int| 0 <= j2 < a.len() && j2 != j ==> #[trigger] b[j2] == a[j2],
        b[j].owner == a[j].owner,
        a[j].record.claimed_slots@.len() <= b[j].record.claimed_slots@.len(),
        b[j].record.claimed_slots@.subrange(0, a[j].record.claimed_slots@.len() as int) == a[j].record.claimed_slots@,
    ensures
        claims_grow(a, b),
{
    assert forall|j2: int| 0 <= j2 < a.len() implies (#[trigger] b[j2]).record.claimed_slots@.subrange(
        0,
        a[j2].record.claimed_slots@.len() as int,
    ) == a[j2].record.claimed_slots@ by {
        if j2 != j {
            assert(b[j2] == a[j2]);
            assert(b[j2].record.claimed_slots@.subrange(0, a[j2].record.claimed_slots@.len() as int) =~= a[j2].record.claimed_slots@);
        }
    }
}

/// Claimed indices are distinct and below eight, so with one index missing
/// there are at most seven of them.
proof fn lemma_claimed_len_bound(c: Seq<u8>, missing: int)
    requires
        c.no_duplicates(),
        forall|j: int| 0 <= j < c.len() ==> #[trigger] c[j] < 8,
        0 <= missing < 8,
        !c.contains(missing as u8),
    ensures
        c.len() < LADDER_LEN,
{
    let full = Set::new(|x: u8| x < 8 && x != missing as u8);
    assert(c.to_set().subset_of(full));
    assert(full =~= set![0u8, 1u8, 2u8, 3u8, 4u8, 5u8, 6u8, 7u8].remove(missing as u8));
    c.unique_seq_to_set();
    vstd::set_lib::lemma_len_subset(c.to_set(), full);
}

pub proof fn lemma_grow_trans(a: Seq<AccountClaim>, b: Seq<AccountClaim>, c: Seq<AccountClaim>)
    requires
        claims_grow(a, b),
        claims_grow(b, c),
    ensures
        claims_grow(a, c),
{
    assert forall|j: int| 0 <= j < a.len() implies {
        &&& (#[trigger] c[j]).owner@ == a[j].owner@
        &&& a[j].record.claimed_slots@.len() <= c[j].record.claimed_slots@.len()
        &&& c[j].record.claimed_slots@.subrange(0, a[j].record.claimed_slots@.len() as int)
            == a[j].record.claimed_slots@
    } by {
        let sa = a[j].record.claimed_slots@;
        let sb = b[j].record.claimed_slots@;
        let sc = c[j].record.claimed_slots@;
        assert(sb.subrange(0, sa.len() as int) == sa);
        assert(sc.subrange(0, sb.len() as int) == sb);
        assert(sc.subrange(0, sa.len() as int) =~= sb.subrange(0, sa.len() as int));
    }
}


/// In every well-formed state, each account's ladder amounts add up to its
/// total allocation.
pub proof fn ladder_sums_to_allocation(s: State, j: int)
    requires
        s.wf(),
        0 <= j < s.claims.len(),
    ensures
        ladder_sum(s.claims@[j].record.ladder@) == s.claims@[j].record.total_allocation,
{
    assert(s.claims@[j].record.wf());
}

/// In every well-formed state, an account's claimed indices are distinct
/// slot indices below eight, and are exactly its slots in status `Claimed`.
pub proof fn claimed_slots_are_slot_indices(s: State, j: int)
    requires
        s.wf(),
        0 <= j < s.claims.len(),
    ensures
        s.claims@[j].record.claimed_slots@.no_duplicates(),
        forall|x: u8| #[trigger] s.claims@[j].record.claimed_slots@.contains(x) ==> x < 8,
        forall|i: int| 0 <= i < LADDER_LEN ==> (s.claims@[j].record.claimed_slots@.contains(i as u8)
            <==> (#[trigger] s.claims@[j].record.ladder@[i]).status == SlotStatus::Claimed),
{
    let rec = s.claims@[j].record;
    assert(rec.wf());
    assert forall|x: u8| #[trigger] rec.claimed_slots@.contains(x) implies x < 8 by {
        let k = choose|k: int| 0 <= k < rec.claimed_slots.len() && rec.claimed_slots@[k] == x;
        assert(rec.claimed_slots@[k] < 8);
    }
}

/// In every well-formed state, the claimed-account count is the number of
/// accounts with all eight slots claimed, each counted once, and so never
/// exceeds the number of accounts.
pub proof fn completion_counted_once(s: State)
    requires
        s.wf(),
    ensures
        s.claimed_count == count_complete(s.claims@),
        s.claimed_count <= s.claims.len(),
{
    lemma_count_le_len(s.claims@);
}

impl State {
    /// `k` has a claim record.
    pub open spec fn has_claim(&self, k: Seq<u8>) -> bool {
        exists|j: int| 0 <= j < self.claims.len() && (#[trigger] self.claims@[j]).owner@ == k
    }

    /// Position of the claim record of `k`.
    pub open spec fn claim_at(&self, k: Seq<u8>) -> int {
        choose|j: int| 0 <= j < self.claims.len() && (#[trigger] self.claims@[j]).owner@ == k
    }

    /// The claim window contains `now`; it is half open.
    pub open spec fn window_open(&self, now: u64) -> bool {
        self.claim_window.0 <= now < self.claim_window.1
    }

    /// What finalizing slot `slot_index` of `k` at time `now` gives.
    pub open spec fn finalize_outcome(&self, k: Seq<u8>, slot_index: u8, now: u64) -> Result<FinalizeStep, FinalizeError> {
        if slot_index >= LADDER_LEN {
            Err(FinalizeError::InvalidSlot)
        } else if !self.has_claim(k) {
            Err(FinalizeError::NoClaim)
        } else {
            let s = self.claims@[self.claim_at(k)].record.ladder@[slot_index as int];
            if s.status == SlotStatus::Staked || s.status == SlotStatus::Claimed {
                Ok(FinalizeStep::Settled(s))
            } else if !self.window_open(now) {
                Err(FinalizeError::WindowNotOpen)
            } else if s.status == SlotStatus::Pending {
                Err(FinalizeError::WrongStatus)
            } else if self.pool_balance < s.amount {
                Err(FinalizeError::InsufficientPool)
            } else {
                Ok(FinalizeStep::Stake(s))
            }
        }
    }

    fn find_claim(&self, p: &Principal) -> (r: Option<usize>)
        requires
            self.wf(),
        ensures
            r matches Some(j) ==> j < self.claims.len() && self.claims@[j as int].owner@ == p@ && self.has_claim(p@)
                && self.claim_at(p@) == j,
            r is None ==> !self.has_claim(p@),
    {
        let mut j: usize = 0;
        while j < self.claims.len()
            invariant
                self.wf(),
                j <= self.claims.len(),
                forall|j2: int| 0 <= j2 < j ==> (#[trigger] self.claims@[j2]).owner@ != p@,
            decreases self.claims.len() - j,
        {
            if self.claims[j].owner.same_as(p) {
                proof {
                    assert(self.claims@[j as int].owner@ == p@);
                    assert(self.has_claim(p@));
                    let c = self.claim_at(p@);
                    assert(0 <= c < self.claims.len() && self.claims@[c].owner@ == p@);
                    assert(claim_keys(self.claims@)[c] == self.claims@[c].owner@);
                    assert(claim_keys(self.claims@)[j as int] == self.claims@[j as int].owner@);
                    assert(claim_keys(self.claims@).no_duplicates());
                }
                return Some(j);
            }
            j = j + 1;
        }
        None
    }

    /// Whether `of` has claimed all eight slots.
    pub fn has_claimed(&self, of: &Principal) -> (r: bool)
        requires
            self.wf(),
        ensures
            r == (self.has_claim(of@) && self.claims@[self.claim_at(of@)].record.complete()),
    {
        match self.find_claim(of) {
            Some(j) => self.claims[j].record.is_complete(),
            None => false,
        }
    }


    /// The caller's own trigger for slot `slot_index` at time `now`: inside
    /// the claim window a pending slot becomes ready, the caller's record being
    /// created from its allocation preview on the first call. A slot that is
    /// already past pending is returned unchanged. On an error the state is
    /// unchanged.
    pub fn open_slot(&mut self, caller: &Principal, slot_index: u8, now: u64) -> (r: Result<LadderSlot, FinalizeError>)
        requires
            old(self).wf(),
        ensures
            final(self).wf(),
            claims_grow(old(self).claims@, final(self).claims@),
            final(self).claimed_count == old(self).claimed_count,
            r is Err ==> *final(self) == *old(self),
            slot_index >= LADDER_LEN ==> r == Err::<LadderSlot, FinalizeError>(FinalizeError::InvalidSlot),
            slot_index < LADDER_LEN && !old(self).window_open(now) ==> r == Err::<LadderSlot, FinalizeError>(
                FinalizeError::WindowNotOpen,
            ),
            slot_index < LADDER_LEN && old(self).window_open(now) && !old(self).has_claim(caller@) ==> {
                let alloc = old(self).allocation_of(caller@);
                let i = slot_index as int;
                if old(self).preview_overflows(caller@) {
                    r == Err::<LadderSlot, FinalizeError>(FinalizeError::Overflow)
                } else {
                    &&& r matches Ok(s) && s.status == SlotStatus::Ready
                        && is_default_slot(with_status(s, SlotStatus::Pending), alloc, i)
                        && final(self).claims@.last().record.ladder@[i] == s
                    &&& final(self).claims@.drop_last() == old(self).claims@
                    &&& final(self).claims@.last().owner@ == caller@
                    &&& final(self).claims@.last().record.total_allocation == alloc
                    &&& forall|i2: int| 0 <= i2 < LADDER_LEN && i2 != i ==> is_default_slot(
                        #[trigger] final(self).claims@.last().record.ladder@[i2],
                        alloc,
                        i2,
                    )
                    &&& final(self).claims@.last().record.claimed_slots@.len() == 0
                    &&& final(self).claims@.last().record.last_claim_ts is None
                    &&& *final(self) == (State { claims: final(self).claims, ..*old(self) })
                }
            },
            slot_index < LADDER_LEN && old(self).window_open(now) && old(self).has_claim(caller@) ==> {
                let j = old(self).claim_at(caller@);
                let rec = old(self).claims@[j].record;
                let s = rec.ladder@[slot_index as int];
                if s.status != SlotStatus::Pending {
                    r == Ok::<LadderSlot, FinalizeError>(s) && *final(self) == *old(self)
                } else {
                    let s2 = with_status(s, SlotStatus::Ready);
                    &&& r == Ok::<LadderSlot, FinalizeError>(s2)
                    &&& claim_changed(
                        old(self).claims@,
                        final(self).claims@,
                        j,
                        rec.ladder@.update(slot_index as int, s2),
                        rec.claimed_slots@,
                        rec.last_claim_ts,
                    )
                    &&& *final(self) == (State { claims: final(self).claims, ..*old(self) })
                }
            },
    {
        proof {
            lemma_grow_refl(self.claims@);
        }
        if slot_index as usize >= LADDER_LEN {
            return Err(FinalizeError::InvalidSlot);
        }
        if !(self.claim_window.0 <= now && now < self.claim_window.1) {
            return Err(FinalizeError::WindowNotOpen);
        }
        let i = slot_index as usize;
        match self.find_claim(caller) {
            None => {
                let total = match self.preview_claim(caller) {
                    Ok(v) => v.total_allocation,
                    Err(_) => return Err(FinalizeError::Overflow),
                };
                let mut rec = ClaimRecord::new(total);
                let slot = rec.ladder[i];
                proof {
                    assert(is_default_slot(rec.ladder@[i as int], total as nat, i as int));
                }
                let ghost fresh = rec.ladder@;
                rec.mark_ready(i);
                let ready = rec.ladder[i];
                let ghost before = self.claims@;
                let owner = caller.duplicate();
                self.claims.push(AccountClaim { owner, record: rec });
                proof {
                    assert(self.claims@.drop_last() =~= before);
                    assert(claim_keys(self.claims@) =~= claim_keys(before).push(caller@));
                    assert(!claim_keys(before).contains(caller@)) by {
                        if claim_keys(before).contains(caller@) {
                            let j2 = choose|j2: int| 0 <= j2 < before.len() && claim_keys(before)[j2] == caller@;
                            assert(before[j2].owner@ == caller@);
                        }
                    }
                    let ks = claim_keys(self.claims@);
                    assert forall|a: int, b: int| 0 <= a < ks.len() && 0 <= b < ks.len() && a != b implies ks[a]
                        != ks[b] by {
                        if a == ks.len() - 1 {
                            assert(claim_keys(before)[b] == ks[b]);
                        } else if b == ks.len() - 1 {
                            assert(claim_keys(before)[a] == ks[a]);
                        } else {
                            assert(claim_keys(before)[a] == ks[a] && claim_keys(before)[b] == ks[b]);
                        }
                    }
                    assert(forall|i2: int| 0 <= i2 < LADDER_LEN && i2 != i ==> #[trigger] self.claims@.last().record.ladder@[i2] == fresh[i2]);
                    assert forall|i2: int| 0 <= i2 < LADDER_LEN && i2 != i implies is_default_slot(
                        #[trigger] self.claims@.last().record.ladder@[i2], total as nat, i2) by {
                        assert(is_default_slot(fresh[i2], total as nat, i2));
                    }
                    assert(forall|j2: int| 0 <= j2 < before.len() ==> #[trigger] self.claims@[j2] == before[j2]);
                    assert forall|j2: int| 0 <= j2 < self.claims.len() implies (#[trigger] self.claims@[j2]).record.wf() by {
                        if j2 < before.len() {
                            assert(self.claims@[j2] == before[j2]);
                        }
                    }
                    lemma_grow_push(before, self.claims@);
                }
                Ok(ready)
            },
            Some(j) => {
                let s = self.claims[j].record.ladder[i];
                if s.status != SlotStatus::Pending {
                    return Ok(s);
                }
                let mut rec = self.claims[j].record.duplicate();
                rec.mark_ready(i);
                let ready = rec.ladder[i];
                let ghost before = self.claims@;
                self.put_record(j, rec);
                proof {
                    lemma_grow_one(before, self.claims@, j as int);
                }
                Ok(ready)
            },
        }
    }


    /// The decision for slot `slot_index` of the caller at time `now`: a
    /// staked or claimed slot is settled whatever the window; otherwise the
    /// window must be open, the slot must be ready, and the pool must cover its
    /// amount, and the slot is then handed back as a `Stake` step.
    pub fn finalize_slot(&self, caller: &Principal, slot_index: u8, now: u64) -> (r: Result<FinalizeStep, FinalizeError>)
        requires
            self.wf(),
        ensures
            r == self.finalize_outcome(caller@, slot_index, now),
    {
        if slot_index as usize >= LADDER_LEN {
            return Err(FinalizeError::InvalidSlot);
        }
        let j = match self.find_claim(caller) {
            Some(j) => j,
            None => return Err(FinalizeError::NoClaim),
        };
        let s = self.claims[j].record.ladder[slot_index as usize];
        match s.status {
            SlotStatus::Staked => return Ok(FinalizeStep::Settled(s)),
            SlotStatus::Claimed => return Ok(FinalizeStep::Settled(s)),
            _ => {},
        }
        if !(self.claim_window.0 <= now && now < self.claim_window.1) {
            return Err(FinalizeError::WindowNotOpen);
        }
        if s.status == SlotStatus::Pending {
            return Err(FinalizeError::WrongStatus);
        }
        if self.pool_balance < s.amount {
            return Err(FinalizeError::InsufficientPool);
        }
        Ok(FinalizeStep::Stake(s))
    }

    /// Records that ready slot `slot_index` of the caller was transferred and
    /// locked under `neuron_id`: the slot becomes staked and its amount leaves
    /// the pool. Re-checks the slot first, since other calls may have run
    /// while the lock was being made; on an error the state is unchanged.
    pub fn confirm_stake(&mut self, caller: &Principal, slot_index: u8, neuron_id: u64) -> (r: Result<LadderSlot, FinalizeError>)
        requires
            old(self).wf(),
        ensures
            final(self).wf(),
            claims_grow(old(self).claims@, final(self).claims@),
            final(self).claimed_count == old(self).claimed_count,
            r is Err ==> *final(self) == *old(self),
            slot_index >= LADDER_LEN ==> r == Err::<LadderSlot, FinalizeError>(FinalizeError::InvalidSlot),
            slot_index < LADDER_LEN && !old(self).has_claim(caller@) ==> r == Err::<LadderSlot, FinalizeError>(
                FinalizeError::NoClaim,
            ),
            slot_index < LADDER_LEN && old(self).has_claim(caller@) ==> {
                let j = old(self).claim_at(caller@);
                let rec = old(self).claims@[j].record;
                let s = rec.ladder@[slot_index as int];
                if s.status != SlotStatus::Ready {
                    r == Err::<LadderSlot, FinalizeError>(FinalizeError::WrongStatus)
                } else if old(self).pool_balance < s.amount {
                    r == Err::<LadderSlot, FinalizeError>(FinalizeError::InsufficientPool)
                } else {
                    let s2 = LadderSlot { status: SlotStatus::Staked, neuron_id: Some(neuron_id), ..s };
                    &&& r == Ok::<LadderSlot, FinalizeError>(s2)
                    &&& claim_changed(
                        old(self).claims@,
                        final(self).claims@,
                        j,
                        rec.ladder@.update(slot_index as int, s2),
                        rec.claimed_slots@,
                        rec.last_claim_ts,
                    )
                    &&& *final(self) == (State {
                        claims: final(self).claims,
                        pool_balance: (old(self).pool_balance - s.amount) as u128,
                        ..*old(self)
                    })
                }
            },
    {
        proof {
            lemma_grow_refl(self.claims@);
        }
        if slot_index as usize >= LADDER_LEN {
            return Err(FinalizeError::InvalidSlot);
        }
        let i = slot_index as usize;
        let j = match self.find_claim(caller) {
            Some(j) => j,
            None => return Err(FinalizeError::NoClaim),
        };
        let s = self.claims[j].record.ladder[i];
        if s.status != SlotStatus::Ready {
            return Err(FinalizeError::WrongStatus);
        }
        if self.pool_balance < s.amount {
            return Err(FinalizeError::InsufficientPool);
        }
        let mut rec = self.claims[j].record.duplicate();
        rec.mark_staked(i, neuron_id);
        let staked = rec.ladder[i];
        let ghost before = self.claims@;
        self.put_record(j, rec);
        proof {
            lemma_grow_one(before, self.claims@, j as int);
        }
        self.pool_balance = self.pool_balance - s.amount;
        Ok(staked)
    }

    /// Records that the lock of staked slot `slot_index` matured and its
    /// payout was confirmed at `now`: the slot becomes claimed and its index
    /// joins the claimed indices. The account is counted as complete when its
    /// eighth slot is claimed, and only then. On an error, including a retry
    /// on a slot already claimed, the state is unchanged.
    pub fn confirm_payout(&mut self, caller: &Principal, slot_index: u8, now: u64) -> (r: Result<LadderSlot, FinalizeError>)
        requires
            old(self).wf(),
        ensures
            final(self).wf(),
            claims_grow(old(self).claims@, final(self).claims@),
            r is Err ==> *final(self) == *old(self),
            slot_index >= LADDER_LEN ==> r == Err::<LadderSlot, FinalizeError>(FinalizeError::InvalidSlot),
            slot_index < LADDER_LEN && !old(self).has_claim(caller@) ==> r == Err::<LadderSlot, FinalizeError>(
                FinalizeError::NoClaim,
            ),
            slot_index < LADDER_LEN && old(self).has_claim(caller@) ==> {
                let j = old(self).claim_at(caller@);
                let rec = old(self).claims@[j].record;
                let s = rec.ladder@[slot_index as int];
                if s.status != SlotStatus::Staked {
                    r == Err::<LadderSlot, FinalizeError>(FinalizeError::WrongStatus)
                } else {
                    let s2 = with_status(s, SlotStatus::Claimed);
                    &&& r == Ok::<LadderSlot, FinalizeError>(s2)
                    &&& claim_changed(
                        old(self).claims@,
                        final(self).claims@,
                        j,
                        rec.ladder@.update(slot_index as int, s2),
                        rec.claimed_slots@.push(slot_index),
                        Some(now),
                    )
                    &&& final(self).claimed_count == old(self).claimed_count + if rec.claimed_slots@.len() + 1
                        == LADDER_LEN {
                        1nat
                    } else {
                        0nat
                    }
                    &&& *final(self) == (State {
                        claims: final(self).claims,
                        claimed_count: final(self).claimed_count,
                        ..*old(self)
                    })
                }
            },
    {
        proof {
            lemma_grow_refl(self.claims@);
        }
        if slot_index as usize >= LADDER_LEN {
            return Err(FinalizeError::InvalidSlot);
        }
        let i = slot_index as usize;
        let j = match self.find_claim(caller) {
            Some(j) => j,
            None => return Err(FinalizeError::NoClaim),
        };
        let s = self.claims[j].record.ladder[i];
        if s.status != SlotStatus::Staked {
            return Err(FinalizeError::WrongStatus);
        }
        let mut rec = self.claims[j].record.duplicate();
        rec.mark_claimed(i, now);
        let claimed = rec.ladder[i];
        let ghost before = self.claims@;
        proof {
            let old_rec = before[j as int].record;
            assert(old_rec.wf());
            assert(!old_rec.claimed_slots@.contains(slot_index)) by {
                assert(old_rec.ladder@[i as int].status != SlotStatus::Claimed);
            }
            lemma_claimed_len_bound(old_rec.claimed_slots@, i as int);
            lemma_count_update(before, j as int, AccountClaim { owner: before[j as int].owner, record: rec });
            lemma_count_le_len(before.update(j as int, AccountClaim { owner: before[j as int].owner, record: rec }));
            assert(self.claims.len() <= usize::MAX);
        }
        self.put_record(j, rec);
        proof {
            let c = self.claims@[j as int].record.claimed_slots@;
            let o = before[j as int].record.claimed_slots@;
            assert(c.subrange(0, o.len() as int) =~= o);
            lemma_grow_one(before, self.claims@, j as int);
        }
        Ok(claimed)
    }

    /// The decisions for all eight slots of the caller, in slot order; each
    /// is what `finalize_slot` gives for that slot, so a failure on one slot
    /// is reported in its entry and does not affect the others.
    pub fn finalize_all(&self, caller: &Principal, now: u64) -> (r: Vec<Result<FinalizeStep, FinalizeError>>)
        requires
            self.wf(),
        ensures
            r.len() == LADDER_LEN,
            forall|i: int| 0 <= i < LADDER_LEN ==> #[trigger] r@[i] == self.finalize_outcome(caller@, i as u8, now),
    {
        let mut out: Vec<Result<FinalizeStep, FinalizeError>> = Vec::new();
        let mut i: u8 = 0;
        while (i as usize) < LADDER_LEN
            invariant
                self.wf(),
                i <= LADDER_LEN,
                out.len() == i,
                forall|k: int| 0 <= k < i ==> #[trigger] out@[k] == self.finalize_outcome(caller@, k as u8, now),
            decreases LADDER_LEN - i as usize,
        {
            let res = self.finalize_slot(caller, i, now);
            out.push(res);
            i = i + 1;
        }
        out
    }

    /// Replaces the record at `j` by `rec`, which keeps its owner.
    fn put_record(&mut self, j: usize, rec: ClaimRecord)
        requires
            old(self).wf(),
            j < old(self).claims.len(),
            rec.wf(),
            old(self).claimed_count + (if rec.complete() { 1nat } else { 0nat })
                - (if old(self).claims@[j as int].record.complete() { 1nat } else { 0nat }) <= u64::MAX,
        ensures
            final(self).wf(),
            final(self).claims@.len() == old(self).claims@.len(),
            forall|j2: int| 0 <= j2 < old(self).claims.len() && j2 != j ==> #[trigger] final(self).claims@[j2]
                == old(self).claims@[j2],
            final(self).claims@[j as int].owner == old(self).claims@[j as int].owner,
            final(self).claims@[j as int].record == rec,
            final(self).claimed_count == old(self).claimed_count + (if rec.complete() { 1nat } else { 0nat })
                - (if old(self).claims@[j as int].record.complete() { 1nat } else { 0nat }),
            *final(self) == (State {
                claims: final(self).claims,
                claimed_count: final(self).claimed_count,
                ..*old(self)
            }),
    {
        let ghost before = self.claims@;
        let entry = self.claims.remove(j);
        let owner = entry.owner;
        let was_complete = entry.record.is_complete();
        let now_complete = rec.is_complete();
        let ghost newc = AccountClaim { owner, record: rec };
        self.claims.insert(j, AccountClaim { owner, record: rec });
        assert(self.claims@ =~= before.update(j as int, newc));
        proof {
            lemma_count_update(before, j as int, newc);
            assert(claim_keys(self.claims@) =~= claim_keys(before));
        }
        if now_complete && !was_complete {
            self.claimed_count = self.claimed_count + 1;
        } else if was_complete && !now_complete {
            self.claimed_count = self.claimed_count - 1;
        }
    }
}

} // verus!
