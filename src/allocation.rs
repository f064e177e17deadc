use vstd::prelude::*;
use crate::principal::Principal;
use crate::points::PointsBreakdown;
use crate::ladder::{LadderSlot, default_ladder, is_default_ladder, ladder_sum};
use crate::state::State;
use crate::store::{entries_view, has_key, find_entry};

verus! {

/// Total points of the snapshot's identities, in list order.
pub open spec fn snapshot_points(s: State, e: Seq<(Seq<u8>, nat)>) -> nat
    decreases e.len(),
{
    if e.len() == 0 {
        0
    } else {
        snapshot_points(s, e.drop_last()) + s.points_of(e.last().0)
    }
}

/// Total points of the contributing identities that are not in the snapshot.
pub open spec fn contributor_only_points(s: State, e: Seq<(Seq<u8>, nat)>) -> nat
    decreases e.len(),
{
    if e.len() == 0 {
        0
    } else {
        contributor_only_points(s, e.drop_last()) + if has_key(entries_view(s.snapshot@), e.last().0) {
            0
        } else {
            s.points_of(e.last().0)
        }
    }
}

proof fn lemma_snapshot_points_prefix(s: State, e: Seq<(Seq<u8>, nat)>, i: int)
    requires
        0 <= i <= e.len(),
    ensures
        snapshot_points(s, e.take(i)) <= snapshot_points(s, e),
    decreases e.len(),
{
    if i < e.len() {
        assert(e.drop_last().take(i) =~= e.take(i));
        lemma_snapshot_points_prefix(s, e.drop_last(), i);
    } else {
        assert(e.take(i) =~= e);
    }
}

proof fn lemma_contributor_only_points_prefix(s: State, e: Seq<(Seq<u8>, nat)>, i: int)
    requires
        0 <= i <= e.len(),
    ensures
        contributor_only_points(s, e.take(i)) <= contributor_only_points(s, e),
    decreases e.len(),
{
    if i < e.len() {
        assert(e.drop_last().take(i) =~= e.take(i));
        lemma_contributor_only_points_prefix(s, e.drop_last(), i);
    } else {
        assert(e.take(i) =~= e);
    }
}

/// Why a preview could not be computed.
#[derive(Clone, Copy, Debug, PartialEq, Eq, Structural)]
pub enum PreviewError {
    /// The sum of all points, or the pool times the account's points, exceeds 128 bits.
    Overflow,
}

/// An account's allocation, its ladder, its points, the cap, and whether the
/// allocation is within the cap.
pub struct ClaimPreview {
    pub total_allocation: u128,
    pub ladder: Vec<LadderSlot>,
    pub points_breakdown: PointsBreakdown,
    pub per_principal_cap_tokens: u128,
    pub within_cap: bool,
}

impl State {
    /// Sum of points over all participants: every identity in either list, once.
    pub open spec fn points_sum(&self) -> nat {
        snapshot_points(*self, entries_view(self.snapshot@)) + contributor_only_points(
            *self,
            entries_view(self.contributions@),
        )
    }

    /// Proportional share of the pool: `pool * points(k) / sum of points`,
    /// zero when nobody has points.
    pub open spec fn share_of(&self, k: Seq<u8>) -> nat {
        if self.points_sum() == 0 {
            0
        } else {
            (self.pool_balance as nat * self.points_of(k)) / self.points_sum()
        }
    }

    /// The share, clamped to the per-account cap.
    pub open spec fn allocation_of(&self, k: Seq<u8>) -> nat {
        if self.share_of(k) <= self.config.per_principal_max_tokens {
            self.share_of(k)
        } else {
            self.config.per_principal_max_tokens as nat
        }
    }

    /// The share of `k` cannot be computed in 128 bits.
    pub open spec fn preview_overflows(&self, k: Seq<u8>) -> bool {
        ||| self.points_sum() > u128::MAX
        ||| (self.points_sum() > 0 && self.pool_balance as nat * self.points_of(k) > u128::MAX)
    }

    /// Sum of points over all participants, or `None` past 128 bits.
    pub fn total_points(&self) -> (r: Option<u128>)
        requires
            self.wf(),
        ensures
            r is None <==> self.points_sum() > u128::MAX,
            r matches Some(v) ==> v == self.points_sum(),
    {
        let ghost es = entries_view(self.snapshot@);
        let ghost ec = entries_view(self.contributions@);
        let mut acc: u128 = 0;
        let mut i: usize = 0;
        while i < self.snapshot.len()
            invariant
                self.wf(),
                i <= self.snapshot.len(),
                es == entries_view(self.snapshot@),
                acc == snapshot_points(*self, es.take(i as int)),
            decreases self.snapshot.len() - i,
        {
            let t = self.compute_points(&self.snapshot[i].owner).total_points;
            proof {
                assert(es.take(i + 1).drop_last() =~= es.take(i as int));
                assert(es.take(i + 1).last().0 == self.snapshot@[i as int].owner@);
            }
            match acc.checked_add(t) {
                Some(v) => {
                    acc = v;
                },
                None => {
                    proof {
                        lemma_snapshot_points_prefix(*self, es, i + 1);
                    }
                    return None;
                },
            }
            i = i + 1;
        }
        assert(es.take(i as int) =~= es);
        let ghost first = acc as nat;
        let mut j: usize = 0;
        while j < self.contributions.len()
            invariant
                self.wf(),
                j <= self.contributions.len(),
                es == entries_view(self.snapshot@),
                ec == entries_view(self.contributions@),
                first == snapshot_points(*self, es),
                acc == first + contributor_only_points(*self, ec.take(j as int)),
            decreases self.contributions.len() - j,
        {
            let owner = &self.contributions[j].owner;
            proof {
                assert(ec.take(j + 1).drop_last() =~= ec.take(j as int));
                assert(ec.take(j + 1).last().0 == owner@);
            }
            let t: u128 = match find_entry(&self.snapshot, owner) {
                Some(k) => {
                    assert(es[k as int].0 == owner@);
                    0
                },
                None => self.compute_points(owner).total_points,
            };
            match acc.checked_add(t) {
                Some(v) => {
                    acc = v;
                },
                None => {
                    proof {
                        lemma_contributor_only_points_prefix(*self, ec, j + 1);
                    }
                    return None;
                },
            }
            j = j + 1;
        }
        assert(ec.take(j as int) =~= ec);
        Some(acc)
    }

    /// Allocation preview for `p`: its proportional share of the pool over all
    /// participants' points, capped, with the ladder it would vest through.
    /// Reads the state only.
    pub fn preview_claim(&self, p: &Principal) -> (r: Result<ClaimPreview, PreviewError>)
        requires
            self.wf(),
        ensures
            r is Err <==> self.preview_overflows(p@),
            r matches Ok(v) ==> {
                &&& v.total_allocation == self.allocation_of(p@)
                &&& is_default_ladder(v.ladder@, v.total_allocation as nat)
                &&& ladder_sum(v.ladder@) == v.total_allocation
                &&& v.points_breakdown.holder_points == self.holder_points_of(p@)
                &&& v.points_breakdown.contributor_points == self.contributor_points_of(p@)
                &&& v.points_breakdown.total_points == self.points_of(p@)
                &&& v.per_principal_cap_tokens == self.config.per_principal_max_tokens
                &&& v.within_cap == (v.total_allocation <= self.config.per_principal_max_tokens)
                &&& v.within_cap
            },
    {
        let points = self.compute_points(p);
        let sum = match self.total_points() {
            Some(v) => v,
            None => return Err(PreviewError::Overflow),
        };
        let share: u128 = if sum == 0 {
            0
        } else {
            match self.pool_balance.checked_mul(points.total_points) {
                Some(prod) => prod / sum,
                None => return Err(PreviewError::Overflow),
            }
        };
        let cap = self.config.per_principal_max_tokens;
        let total: u128 = if share <= cap { share } else { cap };
        let ladder = default_ladder(total);
        Ok(ClaimPreview {
            total_allocation: total,
            ladder,
            points_breakdown: points,
            per_principal_cap_tokens: cap,
            within_cap: total <= cap,
        })
    }
}

} // verus!
