use vstd::prelude::*;
use crate::principal::Principal;
use crate::store::{Entry, entries_view, lookup, keys_unique, find_entry, upsert, lemma_lookup_at, lemma_lookup_absent, lemma_lookup_push};

verus! {

/// The identity bytes that a textual identity decodes to, if it is valid.
pub uninterp spec fn principal_text_bytes(text: Seq<char>) -> Option<Seq<u8>>;

/// Relies on `candid::Principal::from_text`: decodes the textual form of an
/// identity (checksum and grouping included) to at most 29 bytes, or fails.
#[verifier::external_body]
fn principal_from_text(text: &str) -> (r: Option<Vec<u8>>)
    ensures
        match r {
            Some(b) => principal_text_bytes(text@) == Some(b@) && b@.len() <= 29,
            None => principal_text_bytes(text@) is None,
        },
{
    candid::Principal::from_text(text).ok().map(|p| p.as_slice().to_vec())
}

/// Why a ledger operation was refused. The ledger is left as it was.
#[derive(Clone, Copy, Debug, PartialEq, Eq, Structural)]
pub enum AirdropError {
    /// The caller is not the ledger's admin.
    NotAdmin,
    /// The accumulated contribution would exceed 64 bits.
    Overflow,
}

/// How a payout run ended: how many participants were paid in full, and
/// whether it stopped early because the treasury could not cover the next one.
#[derive(Clone, Copy, Debug, PartialEq, Eq, Structural)]
pub struct AirdropOutcome {
    pub paid: u64,
    pub stopped_early: bool,
}

/// A one-to-one payout over `amounts` in order from `treasury`: each amount
/// the treasury covers is paid; at the first it does not, the treasury is
/// emptied and the run stops. Gives the remaining treasury, the number paid,
/// and whether the run stopped early.
pub open spec fn payout_run(treasury: nat, amounts: Seq<nat>) -> (nat, nat, bool)
    decreases amounts.len(),
{
    if amounts.len() == 0 {
        (treasury, 0, false)
    } else if treasury >= amounts[0] {
        let rest = payout_run((treasury - amounts[0]) as nat, amounts.drop_first());
        (rest.0, rest.1 + 1, rest.2)
    } else {
        (0, 0, true)
    }
}

/// Accumulated contributions per identity, a treasury, and one admin.
pub struct AirdropLedger {
    pub participants: Vec<Entry>,
    pub treasury: u64,
    pub admin: Principal,
}

impl AirdropLedger {
    /// Keys are unique and every accumulated amount fits 64 bits.
    pub open spec fn wf(&self) -> bool {
        &&& keys_unique(entries_view(self.participants@))
        &&& forall|i: int| 0 <= i < self.participants.len() ==> (#[trigger] self.participants@[i]).amount <= u64::MAX
    }

    pub open spec fn contribution_of(&self, k: Seq<u8>) -> nat {
        lookup(entries_view(self.participants@), k)
    }

    /// The accumulated amounts in list order.
    pub open spec fn amounts(&self) -> Seq<nat> {
        Seq::new(self.participants@.len(), |i: int| self.participants@[i].amount as nat)
    }

    /// An empty ledger with an empty treasury.
    pub fn new(admin: Principal) -> (r: AirdropLedger)
        ensures
            r.wf(),
            r.participants@.len() == 0,
            r.treasury == 0,
            r.admin@ == admin@,
    {
        AirdropLedger { participants: Vec::new(), treasury: 0, admin }
    }

    /// An empty ledger whose admin is the identity with the textual form
    /// `pkt5m-vzera-uztne-or4se-vgejr-xajuz-ulw55-zdxon-3euz7-gvakp-5qe`.
    pub fn with_default_admin() -> (r: Option<AirdropLedger>)
        ensures
            r is Some <==> principal_text_bytes("pkt5m-vzera-uztne-or4se-vgejr-xajuz-ulw55-zdxon-3euz7-gvakp-5qe"@) is Some,
            r matches Some(l) ==> l.wf() && l.participants@.len() == 0 && l.treasury == 0
                && principal_text_bytes("pkt5m-vzera-uztne-or4se-vgejr-xajuz-ulw55-zdxon-3euz7-gvakp-5qe"@) == Some(l.admin@),
    {
        match principal_from_text("pkt5m-vzera-uztne-or4se-vgejr-xajuz-ulw55-zdxon-3euz7-gvakp-5qe") {
            Some(bytes) => Some(AirdropLedger::new(Principal::from_bytes(bytes))),
            None => None,
        }
    }

    /// Adds `icp` to what `principal` has contributed.
    pub fn add_contribution(&mut self, principal: Principal, icp: u64) -> (r: Result<(), AirdropError>)
        requires
            old(self).wf(),
        ensures
            final(self).wf(),
            final(self).treasury == old(self).treasury,
            final(self).admin == old(self).admin,
            old(self).contribution_of(principal@) + icp > u64::MAX ==> r == Err::<(), AirdropError>(AirdropError::Overflow)
                && *final(self) == *old(self),
            old(self).contribution_of(principal@) + icp <= u64::MAX ==> r is Ok && forall|k: Seq<u8>|
                #[trigger] final(self).contribution_of(k) == if k == principal@ {
                    old(self).contribution_of(k) + icp
                } else {
                    old(self).contribution_of(k) as int
                },
    {
        let ghost e = entries_view(self.participants@);
        let current: u128 = match find_entry(&self.participants, &principal) {
            Some(i) => {
                proof {
                    lemma_lookup_at(e, principal@, i as int);
                }
                self.participants[i].amount
            },
            None => {
                proof {
                    lemma_lookup_absent(e, principal@);
                }
                0
            },
        };
        if current > (u64::MAX - icp) as u128 {
            return Err(AirdropError::Overflow);
        }
        let total = current + icp as u128;
        let ghost key = principal@;
        let ghost old_v = self.participants@;
        upsert(&mut self.participants, principal, total);
        proof {
            assert forall|k: Seq<u8>| #[trigger] lookup(entries_view(self.participants@), k) == if k == key {
                lookup(e, k) + icp
            } else {
                lookup(e, k) as int
            } by {
                lemma_lookup_push(e, (key, total as nat), k);
            }
            assert forall|j: int| 0 <= j < self.participants.len() implies (#[trigger] self.participants@[j]).amount
                <= u64::MAX by {
                if self.participants@[j].amount != total {
                    let j2 = choose|j2: int| 0 <= j2 < old_v.len() && old_v[j2].amount == self.participants@[j].amount;
                    assert(old_v[j2].amount <= u64::MAX);
                }
            }
        }
        Ok(())
    }

    /// Sets the treasury; only the admin may.
    pub fn set_treasury(&mut self, caller: &Principal, amount: u64) -> (r: Result<(), AirdropError>)
        ensures
            caller@ == old(self).admin@ ==> r is Ok && *final(self) == (AirdropLedger {
                treasury: amount,
                ..*old(self)
            }),
            caller@ != old(self).admin@ ==> r == Err::<(), AirdropError>(AirdropError::NotAdmin)
                && *final(self) == *old(self),
    {
        if !caller.same_as(&self.admin) {
            return Err(AirdropError::NotAdmin);
        }
        self.treasury = amount;
        Ok(())
    }

    /// Pays every participant its accumulated amount one to one from the
    /// treasury, in list order; only the admin may. When the treasury cannot
    /// cover the next participant it is emptied, the run stops, and the
    /// outcome says so.
    pub fn monthly_airdrop(&mut self, caller: &Principal) -> (r: Result<AirdropOutcome, AirdropError>)
        requires
            old(self).wf(),
        ensures
            final(self).wf(),
            caller@ != old(self).admin@ ==> r == Err::<AirdropOutcome, AirdropError>(AirdropError::NotAdmin)
                && *final(self) == *old(self),
            caller@ == old(self).admin@ ==> {
                let run = payout_run(old(self).treasury as nat, old(self).amounts());
                &&& r matches Ok(o) && o.paid == run.1 && o.stopped_early == run.2
                &&& *final(self) == (AirdropLedger { treasury: run.0 as u64, ..*old(self) })
            },
    {
        if !caller.same_as(&self.admin) {
            return Err(AirdropError::NotAdmin);
        }
        let ghost a = self.amounts();
        let ghost t0 = self.treasury as nat;
        let mut treasury: u64 = self.treasury;
        let mut paid: u64 = 0;
        let mut i: usize = 0;
        assert(a.skip(0) =~= a);
        while i < self.participants.len()
            invariant
                self.wf(),
                caller@ == old(self).admin@,
                *self == *old(self),
                t0 == old(self).treasury,
                a == self.amounts(),
                i <= self.participants.len(),
                paid == i,
                payout_run(t0, a) == (
                    payout_run(treasury as nat, a.skip(i as int)).0,
                    (payout_run(treasury as nat, a.skip(i as int)).1 + i) as nat,
                    payout_run(treasury as nat, a.skip(i as int)).2,
                ),
            decreases self.participants.len() - i,
        {
            let payout = self.participants[i].amount as u64;
            proof {
                assert(a.skip(i as int)[0] == payout);
                assert(a.skip(i as int).drop_first() =~= a.skip(i + 1));
            }
            if treasury as u128 >= payout as u128 {
                treasury = treasury - payout;
            } else {
                assert(payout_run(treasury as nat, a.skip(i as int)) == (0nat, 0nat, true));
                self.treasury = 0;
                return Ok(AirdropOutcome { paid, stopped_early: true });
            }
            paid = paid + 1;
            i = i + 1;
        }
        assert(a.skip(i as int).len() == 0);
        self.treasury = treasury;
        Ok(AirdropOutcome { paid, stopped_early: false })
    }

    /// Every identity that has contributed.
    pub fn get_participants(&self) -> (r: Vec<Principal>)
        ensures
            r.len() == self.participants.len(),
            forall|i: int| 0 <= i < r.len() ==> (#[trigger] r@[i])@ == self.participants@[i].owner@,
    {
        let mut out: Vec<Principal> = Vec::new();
        let mut i: usize = 0;
        while i < self.participants.len()
            invariant
                i <= self.participants.len(),
                out.len() == i,
                forall|j: int| 0 <= j < i ==> (#[trigger] out@[j])@ == self.participants@[j].owner@,
            decreases self.participants.len() - i,
        {
            out.push(self.participants[i].owner.duplicate());
            i = i + 1;
        }
        out
    }

    pub fn get_treasury(&self) -> (r: u64)
        ensures
            r == self.treasury,
    {
        self.treasury
    }

    /// What `principal` has contributed, zero when absent.
    pub fn get_contribution(&self, principal: &Principal) -> (r: u64)
        requires
            self.wf(),
        ensures
            r == self.contribution_of(principal@),
    {
        match find_entry(&self.participants, principal) {
            Some(i) => {
                proof {
                    lemma_lookup_at(entries_view(self.participants@), principal@, i as int);
                }
                self.participants[i].amount as u64
            },
            None => {
                proof {
                    lemma_lookup_absent(entries_view(self.participants@), principal@);
                }
                0
            },
        }
    }
}

} // verus!
