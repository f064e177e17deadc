use vstd::prelude::*;

verus! {

/// Number of slots in every vesting ladder.
pub const LADDER_LEN: usize = 8;

/// Vesting step between consecutive slots: about six months, in seconds.
pub const HALF_YEAR_SECONDS: u64 = 15_552_000;

#[derive(Clone, Copy, Debug, PartialEq, Eq, Structural)]
pub enum SlotStatus {
    Pending,
    Ready,
    Staked,
    Claimed,
}

impl Default for SlotStatus {
    fn default() -> (r: SlotStatus)
        ensures
            r == SlotStatus::Pending,
    {
        SlotStatus::Pending
    }
}

#[derive(Clone, Copy, Debug, PartialEq, Eq, Structural)]
pub struct LadderSlot {
    pub slot_index: u8,
    pub dissolve_delay_seconds: u64,
    pub amount: u128,
    pub status: SlotStatus,
    pub neuron_id: Option<u64>,
}

impl Default for LadderSlot {
    fn default() -> (r: LadderSlot)
        ensures
            r.slot_index == 0,
            r.dissolve_delay_seconds == 0,
            r.amount == 0,
            r.status == SlotStatus::Pending,
            r.neuron_id is None,
    {
        LadderSlot {
            slot_index: 0,
            dissolve_delay_seconds: 0,
            amount: 0,
            status: SlotStatus::default(),
            neuron_id: None,
        }
    }
}

/// Amount of slot `i` of a ladder over `total`: an eighth each, and the
/// division remainder goes to the last slot so that nothing is lost.
pub open spec fn slot_amount(total: nat, i: int) -> nat {
    if i == 7 {
        total / 8 + total % 8
    } else {
        total / 8
    }
}

/// Slot `i` as a fresh ladder over `total` holds it.
pub open spec fn is_default_slot(s: LadderSlot, total: nat, i: int) -> bool {
    &&& s.slot_index == i
    &&& s.dissolve_delay_seconds == HALF_YEAR_SECONDS * (i + 1)
    &&& s.amount == slot_amount(total, i)
    &&& s.status == SlotStatus::Pending
    &&& s.neuron_id is None
}

/// Sum of the amounts of a sequence of slots.
pub open spec fn ladder_sum(l: Seq<LadderSlot>) -> nat
    decreases l.len(),
{
    if l.len() == 0 {
        0
    } else {
        ladder_sum(l.drop_last()) + l.last().amount as nat
    }
}

/// The fresh ladder over `total`.
pub open spec fn is_default_ladder(l: Seq<LadderSlot>, total: nat) -> bool {
    &&& l.len() == LADDER_LEN
    &&& forall|i: int| 0 <= i < LADDER_LEN ==> is_default_slot(#[trigger] l[i], total, i)
}

proof fn lemma_default_ladder_sum(l: Seq<LadderSlot>, total: nat)
    requires
        is_default_ladder(l, total),
    ensures
        ladder_sum(l) == total,
{
    reveal_with_fuel(ladder_sum, 9);
    assert(is_default_slot(l[0], total, 0));
    assert(is_default_slot(l[1], total, 1));
    assert(is_default_slot(l[2], total, 2));
    assert(is_default_slot(l[3], total, 3));
    assert(is_default_slot(l[4], total, 4));
    assert(is_default_slot(l[5], total, 5));
    assert(is_default_slot(l[6], total, 6));
    assert(is_default_slot(l[7], total, 7));
    assert(l.drop_last().drop_last().drop_last().drop_last().drop_last().drop_last().drop_last().drop_last().len() == 0);
}

/// The eight-slot ladder over `total`: durations grow by half a year per slot,
/// every slot starts pending, and the amounts add up to `total`.
pub fn default_ladder(total: u128) -> (r: Vec<LadderSlot>)
    ensures
        is_default_ladder(r@, total as nat),
        ladder_sum(r@) == total as nat,
{
    let per = total / 8;
    let mut out: Vec<LadderSlot> = Vec::new();
    let mut i: usize = 0;
    while i < LADDER_LEN
        invariant
            i <= LADDER_LEN,
            out.len() == i,
            per == total / 8,
            forall|j: int| 0 <= j < i ==> is_default_slot(#[trigger] out@[j], total as nat, j),
        decreases LADDER_LEN - i,
    {
        let amount: u128 = if i == 7 { per + total % 8 } else { per };
        assert(HALF_YEAR_SECONDS * (i as u64 + 1) <= HALF_YEAR_SECONDS * 8) by (nonlinear_arith)
            requires
                i < 8,
        ;
        out.push(LadderSlot {
            slot_index: i as u8,
            dissolve_delay_seconds: HALF_YEAR_SECONDS * (i as u64 + 1),
            amount,
            status: SlotStatus::Pending,
            neuron_id: None,
        });
        i = i + 1;
    }
    proof {
        lemma_default_ladder_sum(out@, total as nat);
    }
    out
}

proof fn lemma_sum_eq(a: Seq<LadderSlot>, b: Seq<LadderSlot>)
    requires
        a.len() == b.len(),
        forall|k: int| 0 <= k < a.len() ==> (#[trigger] a[k]).amount == b[k].amount,
    ensures
        ladder_sum(a) == ladder_sum(b),
    decreases a.len(),
{
    if a.len() > 0 {
        lemma_sum_eq(a.drop_last(), b.drop_last());
    }
}

/// One account's claim: its allocation, ladder, claimed slot indices and the
/// time of its last claim.
pub struct ClaimRecord {
    pub total_allocation: u128,
    pub ladder: Vec<LadderSlot>,
    pub claimed_slots: Vec<u8>,
    pub last_claim_ts: Option<u64>,
}

impl ClaimRecord {
    /// Eight slots indexed in order, amounts summing to the allocation, and
    /// the claimed indices being exactly the slots whose status is `Claimed`,
    /// each listed once.
    pub open spec fn wf(&self) -> bool {
        &&& self.ladder.len() == LADDER_LEN
        &&& forall|i: int| 0 <= i < LADDER_LEN ==> (#[trigger] self.ladder@[i]).slot_index == i
        &&& ladder_sum(self.ladder@) == self.total_allocation
        &&& self.claimed_slots@.no_duplicates()
        &&& forall|j: int| 0 <= j < self.claimed_slots.len() ==> #[trigger] self.claimed_slots@[j] < 8
        &&& forall|i: int|
            0 <= i < LADDER_LEN ==> ((#[trigger] self.ladder@[i]).status == SlotStatus::Claimed
                <==> self.claimed_slots@.contains(i as u8))
    }

    /// Every slot has been claimed.
    pub open spec fn complete(&self) -> bool {
        self.claimed_slots.len() == LADDER_LEN
    }

    /// A fresh record for an allocation, with no slot claimed yet.
    pub fn new(total_allocation: u128) -> (r: ClaimRecord)
        ensures
            r.wf(),
            r.total_allocation == total_allocation,
            is_default_ladder(r.ladder@, total_allocation as nat),
            r.claimed_slots@.len() == 0,
            r.last_claim_ts is None,
    {
        let ladder = default_ladder(total_allocation);
        let r = ClaimRecord {
            total_allocation,
            ladder,
            claimed_slots: Vec::new(),
            last_claim_ts: None,
        };
        assert forall|i: int| 0 <= i < LADDER_LEN implies (#[trigger] r.ladder@[i]).status
            == SlotStatus::Claimed <==> r.claimed_slots@.contains(i as u8) by {
            assert(is_default_slot(r.ladder@[i], total_allocation as nat, i));
        }
        assert forall|i: int| 0 <= i < LADDER_LEN implies (#[trigger] r.ladder@[i]).slot_index
            == i by {
            assert(is_default_slot(r.ladder@[i], total_allocation as nat, i));
        }
        r
    }

    /// A copy with the same allocation, slots, claimed indices and claim time.
    pub fn duplicate(&self) -> (r: ClaimRecord)
        ensures
            r.total_allocation == self.total_allocation,
            r.ladder@ == self.ladder@,
            r.claimed_slots@ == self.claimed_slots@,
            r.last_claim_ts == self.last_claim_ts,
    {
        let mut ladder: Vec<LadderSlot> = Vec::new();
        let mut i: usize = 0;
        while i < self.ladder.len()
            invariant
                i <= self.ladder.len(),
                ladder@ =~= self.ladder@.subrange(0, i as int),
            decreases self.ladder.len() - i,
        {
            ladder.push(self.ladder[i]);
            i = i + 1;
        }
        let mut claimed: Vec<u8> = Vec::new();
        let mut j: usize = 0;
        while j < self.claimed_slots.len()
            invariant
                j <= self.claimed_slots.len(),
                claimed@ =~= self.claimed_slots@.subrange(0, j as int),
            decreases self.claimed_slots.len() - j,
        {
            claimed.push(self.claimed_slots[j]);
            j = j + 1;
        }
        assert(ladder@ =~= self.ladder@);
        assert(claimed@ =~= self.claimed_slots@);
        ClaimRecord {
            total_allocation: self.total_allocation,
            ladder,
            claimed_slots: claimed,
            last_claim_ts: self.last_claim_ts,
        }
    }

    /// Whether all eight slots have been claimed.
    pub fn is_complete(&self) -> (r: bool)
        ensures
            r == self.complete(),
    {
        self.claimed_slots.len() == LADDER_LEN
    }


    /// Pending slot `i` becomes ready; nothing else changes.
    pub fn mark_ready(&mut self, i: usize)
        requires
            old(self).wf(),
            i < LADDER_LEN,
            old(self).ladder@[i as int].status == SlotStatus::Pending,
        ensures
            final(self).wf(),
            final(self).ladder@ == old(self).ladder@.update(
                i as int,
                LadderSlot { status: SlotStatus::Ready, ..old(self).ladder@[i as int] },
            ),
            final(self).total_allocation == old(self).total_allocation,
            final(self).claimed_slots@ == old(self).claimed_slots@,
            final(self).last_claim_ts == old(self).last_claim_ts,
    {
        let n = self.ladder[i].neuron_id;
        self.set_slot(i, SlotStatus::Ready, n);
        proof {
            self.lemma_update_keeps_wf(*old(self), i as int);
        }
    }

    /// Ready slot `i` becomes staked under lock `neuron_id`; nothing else changes.
    pub fn mark_staked(&mut self, i: usize, neuron_id: u64)
        requires
            old(self).wf(),
            i < LADDER_LEN,
            old(self).ladder@[i as int].status == SlotStatus::Ready,
        ensures
            final(self).wf(),
            final(self).ladder@ == old(self).ladder@.update(
                i as int,
                LadderSlot {
                    status: SlotStatus::Staked,
                    neuron_id: Some(neuron_id),
                    ..old(self).ladder@[i as int]
                },
            ),
            final(self).total_allocation == old(self).total_allocation,
            final(self).claimed_slots@ == old(self).claimed_slots@,
            final(self).last_claim_ts == old(self).last_claim_ts,
    {
        self.set_slot(i, SlotStatus::Staked, Some(neuron_id));
        proof {
            self.lemma_update_keeps_wf(*old(self), i as int);
        }
    }

    /// Staked slot `i` becomes claimed at time `now`: its index joins the
    /// claimed indices and the claim time is recorded.
    pub fn mark_claimed(&mut self, i: usize, now: u64)
        requires
            old(self).wf(),
            i < LADDER_LEN,
            old(self).ladder@[i as int].status == SlotStatus::Staked,
        ensures
            final(self).wf(),
            final(self).ladder@ == old(self).ladder@.update(
                i as int,
                LadderSlot { status: SlotStatus::Claimed, ..old(self).ladder@[i as int] },
            ),
            final(self).total_allocation == old(self).total_allocation,
            final(self).claimed_slots@ == old(self).claimed_slots@.push(i as u8),
            final(self).last_claim_ts == Some(now),
    {
        let ghost before = *old(self);
        let n = self.ladder[i].neuron_id;
        self.set_slot(i, SlotStatus::Claimed, n);
        assert(!before.claimed_slots@.contains(i as u8)) by {
            assert(before.ladder@[i as int].status != SlotStatus::Claimed);
        }
        self.claimed_slots.push(i as u8);
        self.last_claim_ts = Some(now);
        proof {
            let c = self.claimed_slots@;
            assert forall|a: int, b: int| 0 <= a < c.len() && 0 <= b < c.len() && a != b implies c[a]
                != c[b] by {
                if a < c.len() - 1 && b < c.len() - 1 {
                    assert(before.claimed_slots@[a] != before.claimed_slots@[b]);
                } else if a == c.len() - 1 {
                    assert(c[b] == before.claimed_slots@[b]);
                } else {
                    assert(c[a] == before.claimed_slots@[a]);
                }
            }
            assert forall|k: int| 0 <= k < LADDER_LEN implies ((#[trigger] self.ladder@[k]).status
                == SlotStatus::Claimed <==> c.contains(k as u8)) by {
                if k != i {
                    assert(before.ladder@[k].status == SlotStatus::Claimed <==> before.claimed_slots@.contains(k as u8));
                    if c.contains(k as u8) {
                        let j = choose|j: int| 0 <= j < c.len() && c[j] == k as u8;
                        if j < c.len() - 1 {
                            assert(before.claimed_slots@[j] == k as u8);
                        }
                    }
                    if before.claimed_slots@.contains(k as u8) {
                        let j = choose|j: int| 0 <= j < before.claimed_slots.len() && before.claimed_slots@[j] == k as u8;
                        assert(c[j] == k as u8);
                    }
                } else {
                    assert(c[c.len() - 1] == i as u8);
                }
            }
            assert(forall|k: int| 0 <= k < LADDER_LEN ==> (#[trigger] self.ladder@[k]).slot_index == before.ladder@[k].slot_index);
            assert(forall|j: int| 0 <= j < c.len() - 1 ==> c[j] == before.claimed_slots@[j]);
            self.lemma_sum_same_amounts(before);
        }
    }

    proof fn lemma_sum_same_amounts(&self, before: ClaimRecord)
        requires
            self.ladder.len() == before.ladder.len(),
            forall|k: int| 0 <= k < self.ladder.len() ==> (#[trigger] self.ladder@[k]).amount == before.ladder@[k].amount,
        ensures
            ladder_sum(self.ladder@) == ladder_sum(before.ladder@),
    {
        lemma_sum_eq(self.ladder@, before.ladder@);
    }

    proof fn lemma_update_keeps_wf(&self, before: ClaimRecord, i: int)
        requires
            before.wf(),
            0 <= i < LADDER_LEN,
            self.ladder.len() == LADDER_LEN,
            before.ladder@[i].status != SlotStatus::Claimed,
            self.ladder@[i].status != SlotStatus::Claimed,
            self.ladder@ == before.ladder@.update(i, self.ladder@[i]),
            self.ladder@[i].slot_index == before.ladder@[i].slot_index,
            self.ladder@[i].amount == before.ladder@[i].amount,
            self.total_allocation == before.total_allocation,
            self.claimed_slots@ == before.claimed_slots@,
        ensures
            self.wf(),
    {
        assert(forall|k: int| 0 <= k < LADDER_LEN && k != i ==> #[trigger] self.ladder@[k] == before.ladder@[k]);
        assert(forall|k: int| 0 <= k < LADDER_LEN ==> (#[trigger] self.ladder@[k]).slot_index == before.ladder@[k].slot_index);
        assert(forall|k: int| 0 <= k < LADDER_LEN ==> ((#[trigger] self.ladder@[k]).status == SlotStatus::Claimed <==> before.ladder@[k].status == SlotStatus::Claimed));
        self.lemma_sum_same_amounts(before);
    }

    /// Moves slot `i` to `status`, setting its lock reference; no other part changes.
    fn set_slot(&mut self, i: usize, status: SlotStatus, neuron_id: Option<u64>)
        requires
            i < old(self).ladder.len(),
        ensures
            final(self).ladder@ == old(self).ladder@.update(
                i as int,
                LadderSlot { status, neuron_id, ..old(self).ladder@[i as int] },
            ),
            final(self).total_allocation == old(self).total_allocation,
            final(self).claimed_slots@ == old(self).claimed_slots@,
            final(self).last_claim_ts == old(self).last_claim_ts,
    {
        let mut s = self.ladder[i];
        s.status = status;
        s.neuron_id = neuron_id;
        self.ladder.set(i, s);
    }
}

} // verus!
