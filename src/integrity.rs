use vstd::prelude::*;
use crate::ladder::{ClaimRecord, LadderSlot, SlotStatus, LADDER_LEN, ladder_sum};
use crate::state::{State, InitConfig, AccountClaim, claim_keys, count_complete};
use crate::store::{Entry, entries_view, keys_unique};

verus! {

proof fn lemma_ladder_sum_prefix(l: Seq<LadderSlot>, i: int)
    requires
        0 <= i <= l.len(),
    ensures
        ladder_sum(l.take(i)) <= ladder_sum(l),
    decreases l.len(),
{
    if i < l.len() {
        assert(l.drop_last().take(i) =~= l.take(i));
        lemma_ladder_sum_prefix(l.drop_last(), i);
    } else {
        assert(l.take(i) =~= l);
    }
}

/// Whether the identities of a keyed list are all distinct.
fn entries_unique(v: &Vec<Entry>) -> (r: bool)
    ensures
        r == keys_unique(entries_view(v@)),
{
    let ghost e = entries_view(v@);
    let mut i: usize = 0;
    while i < v.len()
        invariant
            i <= v.len(),
            e == entries_view(v@),
            forall|a: int, b: int| 0 <= a < i && 0 <= b < i && a != b ==> (#[trigger] e[a]).0 != (#[trigger] e[b]).0,
        decreases v.len() - i,
    {
        let mut j: usize = 0;
        while j < i
            invariant
                i < v.len(),
                j <= i,
                e == entries_view(v@),
                forall|a: int, b: int| 0 <= a < i && 0 <= b < i && a != b ==> (#[trigger] e[a]).0 != (#[trigger] e[b]).0,
                forall|b: int| 0 <= b < j ==> (#[trigger] e[b]).0 != e[i as int].0,
            decreases i - j,
        {
            if v[i].owner.same_as(&v[j].owner) {
                assert(e[i as int].0 == e[j as int].0);
                return false;
            }
            j = j + 1;
        }
        i = i + 1;
    }
    true
}

/// Whether the identities of a claim list are all distinct.
fn claim_owners_unique(v: &Vec<AccountClaim>) -> (r: bool)
    ensures
        r == claim_keys(v@).no_duplicates(),
{
    let ghost e = claim_keys(v@);
    let mut i: usize = 0;
    while i < v.len()
        invariant
            i <= v.len(),
            e == claim_keys(v@),
            forall|a: int, b: int| 0 <= a < i && 0 <= b < i && a != b ==> e[a] != e[b],
        decreases v.len() - i,
    {
        let mut j: usize = 0;
        while j < i
            invariant
                i < v.len(),
                j <= i,
                e == claim_keys(v@),
                forall|a: int, b: int| 0 <= a < i && 0 <= b < i && a != b ==> e[a] != e[b],
                forall|b: int| 0 <= b < j ==> e[b] != e[i as int],
            decreases i - j,
        {
            if v[i].owner.same_as(&v[j].owner) {
                assert(e[i as int] == e[j as int]);
                return false;
            }
            j = j + 1;
        }
        i = i + 1;
    }
    true
}

/// Whether `x` occurs in `v`.
fn contains_u8(v: &Vec<u8>, x: u8) -> (r: bool)
    ensures
        r == v@.contains(x),
{
    let mut i: usize = 0;
    while i < v.len()
        invariant
            i <= v.len(),
            forall|j: int| 0 <= j < i ==> v@[j] != x,
        decreases v.len() - i,
    {
        if v[i] == x {
            return true;
        }
        i = i + 1;
    }
    false
}

impl ClaimRecord {
    /// Whether the record is well formed.
    pub fn is_well_formed(&self) -> (r: bool)
        ensures
            r == self.wf(),
    {
        if self.ladder.len() != LADDER_LEN {
            return false;
        }
        let mut i: usize = 0;
        let mut acc: u128 = 0;
        while i < LADDER_LEN
            invariant
                self.ladder.len() == LADDER_LEN,
                i <= LADDER_LEN,
                forall|k: int| 0 <= k < i ==> (#[trigger] self.ladder@[k]).slot_index == k,
                acc == ladder_sum(self.ladder@.take(i as int)),
            decreases LADDER_LEN - i,
        {
            if self.ladder[i].slot_index as usize != i {
                return false;
            }
            proof {
                assert(self.ladder@.take(i + 1).drop_last() =~= self.ladder@.take(i as int));
            }
            match acc.checked_add(self.ladder[i].amount) {
                Some(v) => {
                    acc = v;
                },
                None => {
                    proof {
                        lemma_ladder_sum_prefix(self.ladder@, i + 1);
                    }
                    return false;
                },
            }
            i = i + 1;
        }
        assert(self.ladder@.take(LADDER_LEN as int) =~= self.ladder@);
        if acc != self.total_allocation {
            return false;
        }
        let mut a: usize = 0;
        while a < self.claimed_slots.len()
            invariant
                a <= self.claimed_slots.len(),
                forall|x: int, y: int| 0 <= x < a && 0 <= y < a && x != y ==> self.claimed_slots@[x] != self.claimed_slots@[y],
                forall|x: int| 0 <= x < a ==> #[trigger] self.claimed_slots@[x] < 8,
            decreases self.claimed_slots.len() - a,
        {
            if self.claimed_slots[a] >= 8 {
                assert(self.claimed_slots@[a as int] >= 8);
                return false;
            }
            let mut b: usize = 0;
            while b < a
                invariant
                    a < self.claimed_slots.len(),
                    b <= a,
                    forall|x: int, y: int| 0 <= x < a && 0 <= y < a && x != y ==> self.claimed_slots@[x] != self.claimed_slots@[y],
                    forall|y: int| 0 <= y < b ==> self.claimed_slots@[y] != self.claimed_slots@[a as int],
                decreases a - b,
            {
                if self.claimed_slots[a] == self.claimed_slots[b] {
                    assert(self.claimed_slots@[a as int] == self.claimed_slots@[b as int] && a != b);
                    assert(!self.claimed_slots@.no_duplicates());
                    return false;
                }
                b = b + 1;
            }
            a = a + 1;
        }
        let mut k: usize = 0;
        while k < LADDER_LEN
            invariant
                self.ladder.len() == LADDER_LEN,
                k <= LADDER_LEN,
                forall|m: int| 0 <= m < k ==> ((#[trigger] self.ladder@[m]).status == SlotStatus::Claimed
                    <==> self.claimed_slots@.contains(m as u8)),
            decreases LADDER_LEN - k,
        {
            let is_claimed = self.ladder[k].status == SlotStatus::Claimed;
            if is_claimed != contains_u8(&self.claimed_slots, k as u8) {
                return false;
            }
            k = k + 1;
        }
        true
    }
}

impl Default for State {
    /// The empty state: no admins, default configuration, nothing ingested.
    fn default() -> (r: State)
        ensures
            r.wf(),
            r.admins@.len() == 0,
            r.pool_balance == 0,
            r.claim_window == (0u64, 0u64),
            r.snapshot@.len() == 0,
            r.contributions@.len() == 0,
            r.claims@.len() == 0,
            r.claimed_count == 0,
    {
        State {
            admins: Vec::new(),
            config: InitConfig::default(),
            pool_balance: 0,
            claim_window: (0, 0),
            snapshot: Vec::new(),
            contributions: Vec::new(),
            claims: Vec::new(),
            claimed_count: 0,
        }
    }
}

impl State {
    /// Whether the state is well formed, as a state restored from storage
    /// must be before any other operation uses it.
    pub fn is_well_formed(&self) -> (r: bool)
        ensures
            r == self.wf(),
    {
        if !entries_unique(&self.snapshot) || !entries_unique(&self.contributions) {
            return false;
        }
        let mut i: usize = 0;
        while i < self.contributions.len()
            invariant
                i <= self.contributions.len(),
                forall|k: int| 0 <= k < i ==> (#[trigger] self.contributions@[k]).amount <= u64::MAX,
            decreases self.contributions.len() - i,
        {
            if self.contributions[i].amount > u64::MAX as u128 {
                return false;
            }
            i = i + 1;
        }
        if !claim_owners_unique(&self.claims) {
            return false;
        }
        let mut j: usize = 0;
        let mut count: u64 = 0;
        while j < self.claims.len()
            invariant
                j <= self.claims.len(),
                forall|k: int| 0 <= k < j ==> (#[trigger] self.claims@[k]).record.wf(),
                count == count_complete(self.claims@.take(j as int)),
                count <= j,
            decreases self.claims.len() - j,
        {
            if !self.claims[j].record.is_well_formed() {
                return false;
            }
            proof {
                assert(self.claims@.take(j + 1).drop_last() =~= self.claims@.take(j as int));
            }
            if self.claims[j].record.is_complete() {
                count = count + 1;
            }
            j = j + 1;
        }
        assert(self.claims@.take(j as int) =~= self.claims@);
        count == self.claimed_count
    }
}

} // verus!
