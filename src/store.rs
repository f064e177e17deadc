use vstd::prelude::*;
use crate::principal::Principal;

verus! {

/// One keyed amount of a ledger-like list.
pub struct Entry {
    pub owner: Principal,
    pub amount: u128,
}

/// A keyed list seen as (identity bytes, amount) pairs.
pub open spec fn entries_view(v: Seq<Entry>) -> Seq<(Seq<u8>, nat)> {
    Seq::new(v.len(), |i: int| (v[i].owner@, v[i].amount as nat))
}

/// Amount stored under `k`, the last pair for `k` winning; zero when absent.
pub open spec fn lookup(e: Seq<(Seq<u8>, nat)>, k: Seq<u8>) -> nat
    decreases e.len(),
{
    if e.len() == 0 {
        0
    } else if e.last().0 == k {
        e.last().1
    } else {
        lookup(e.drop_last(), k)
    }
}

pub open spec fn has_key(e: Seq<(Seq<u8>, nat)>, k: Seq<u8>) -> bool {
    exists|i: int| 0 <= i < e.len() && (#[trigger] e[i]).0 == k
}

pub open spec fn keys_unique(e: Seq<(Seq<u8>, nat)>) -> bool {
    forall|i: int, j: int| 0 <= i < e.len() && 0 <= j < e.len() && i != j ==> (#[trigger] e[i]).0 != (#[trigger] e[j]).0
}

pub proof fn lemma_lookup_at(e: Seq<(Seq<u8>, nat)>, k: Seq<u8>, i: int)
    requires
        keys_unique(e),
        0 <= i < e.len(),
        e[i].0 == k,
    ensures
        lookup(e, k) == e[i].1,
    decreases e.len(),
{
    if i != e.len() - 1 {
        assert(e.last().0 != k) by {
            assert(e[e.len() - 1].0 != e[i].0);
        }
        let d = e.drop_last();
        assert(d[i] == e[i]);
        lemma_lookup_at(d, k, i);
    }
}

pub proof fn lemma_lookup_absent(e: Seq<(Seq<u8>, nat)>, k: Seq<u8>)
    requires
        !has_key(e, k),
    ensures
        lookup(e, k) == 0,
    decreases e.len(),
{
    if e.len() > 0 {
        let d = e.drop_last();
        assert(e[e.len() - 1].0 != k);
        assert forall|i: int| 0 <= i < d.len() implies (#[trigger] d[i]).0 != k by {
            assert(d[i] == e[i]);
        }
        lemma_lookup_absent(d, k);
    }
}

/// Looking up a list extended by one pair.
pub proof fn lemma_lookup_push(e: Seq<(Seq<u8>, nat)>, p: (Seq<u8>, nat), k: Seq<u8>)
    ensures
        lookup(e.push(p), k) == if p.0 == k { p.1 } else { lookup(e, k) },
{
    assert(e.push(p).drop_last() =~= e);
}

/// A list extended by one pair holds `k` if it did, or if the pair is for `k`.
pub proof fn lemma_has_key_push(e: Seq<(Seq<u8>, nat)>, p: (Seq<u8>, nat), k: Seq<u8>)
    ensures
        has_key(e.push(p), k) <==> has_key(e, k) || p.0 == k,
{
    let f = e.push(p);
    if has_key(e, k) {
        let i = choose|i: int| 0 <= i < e.len() && (#[trigger] e[i]).0 == k;
        assert(f[i] == e[i]);
    }
    if p.0 == k {
        assert(f[e.len() as int] == p);
    }
    if has_key(f, k) {
        let i = choose|i: int| 0 <= i < f.len() && (#[trigger] f[i]).0 == k;
        if i < e.len() {
            assert(f[i] == e[i]);
        }
    }
}

/// A concatenation holds `k` when either part does.
pub proof fn lemma_has_key_concat(a: Seq<(Seq<u8>, nat)>, b: Seq<(Seq<u8>, nat)>, k: Seq<u8>)
    ensures
        has_key(a + b, k) <==> has_key(a, k) || has_key(b, k),
{
    let f = a + b;
    if has_key(a, k) {
        let i = choose|i: int| 0 <= i < a.len() && (#[trigger] a[i]).0 == k;
        assert(f[i] == a[i]);
    }
    if has_key(b, k) {
        let i = choose|i: int| 0 <= i < b.len() && (#[trigger] b[i]).0 == k;
        assert(f[a.len() + i] == b[i]);
    }
    if has_key(f, k) {
        let i = choose|i: int| 0 <= i < f.len() && (#[trigger] f[i]).0 == k;
        if i < a.len() {
            assert(f[i] == a[i]);
        } else {
            assert(f[i] == b[i - a.len()]);
        }
    }
}

/// Position of `k` in the list, if it is there.
pub fn find_entry(v: &Vec<Entry>, k: &Principal) -> (r: Option<usize>)
    ensures
        r matches Some(i) ==> i < v.len() && v@[i as int].owner@ == k@,
        r is None ==> !has_key(entries_view(v@), k@),
{
    let mut i: usize = 0;
    while i < v.len()
        invariant
            i <= v.len(),
            forall|j: int| 0 <= j < i ==> v@[j].owner@ != k@,
        decreases v.len() - i,
    {
        if v[i].owner.same_as(k) {
            return Some(i);
        }
        i = i + 1;
    }
    assert forall|j: int| 0 <= j < v.len() implies (#[trigger] entries_view(v@)[j]).0 != k@ by {
        assert(entries_view(v@)[j].0 == v@[j].owner@);
    }
    None
}

/// Stores `amount` under `owner`, replacing an earlier amount for it.
pub fn upsert(v: &mut Vec<Entry>, owner: Principal, amount: u128)
    requires
        keys_unique(entries_view(old(v)@)),
    ensures
        keys_unique(entries_view(final(v)@)),
        forall|k: Seq<u8>|
            lookup(entries_view(final(v)@), k) == #[trigger] lookup(
                entries_view(old(v)@).push((owner@, amount as nat)),
                k,
            ),
        forall|k: Seq<u8>|
            has_key(entries_view(final(v)@), k) <==> #[trigger] has_key(entries_view(old(v)@), k) || k == owner@,
        forall|i: int|
            0 <= i < final(v).len() ==> (#[trigger] final(v)@[i]).amount == amount || exists|j: int|
                0 <= j < old(v).len() && old(v)@[j].amount == final(v)@[i].amount,
{
    let ghost old_e = entries_view(v@);
    let ghost o = owner@;
    let found = find_entry(v, &owner);
    match found {
        Some(i) => {
            v.set(i, Entry { owner, amount });
            let ghost new_e = entries_view(v@);
            assert(new_e =~= old_e.update(i as int, (o, amount as nat)));
            assert(forall|j: int| 0 <= j < new_e.len() ==> (#[trigger] new_e[j]).0 == old_e[j].0);
            assert(keys_unique(new_e));
            assert forall|k: Seq<u8>| lookup(new_e, k) == #[trigger] lookup(old_e.push((o, amount as nat)), k) by {
                lemma_lookup_push(old_e, (o, amount as nat), k);
                if k == o {
                    lemma_lookup_at(new_e, k, i as int);
                } else if has_key(old_e, k) {
                    let j = choose|j: int| 0 <= j < old_e.len() && (#[trigger] old_e[j]).0 == k;
                    lemma_lookup_at(old_e, k, j);
                    lemma_lookup_at(new_e, k, j);
                } else {
                    lemma_lookup_absent(old_e, k);
                    assert(!has_key(new_e, k)) by {
                        assert forall|j: int| 0 <= j < new_e.len() implies (#[trigger] new_e[j]).0 != k by {
                            if j != i {
                                assert(new_e[j] == old_e[j]);
                            }
                        }
                    }
                    lemma_lookup_absent(new_e, k);
                }
            }
            assert forall|k: Seq<u8>| has_key(new_e, k) <==> #[trigger] has_key(old_e, k) || k == o by {
                if has_key(old_e, k) {
                    let j = choose|j: int| 0 <= j < old_e.len() && (#[trigger] old_e[j]).0 == k;
                    assert(new_e[j].0 == k);
                }
                if k == o {
                    assert(new_e[i as int].0 == k);
                }
                if has_key(new_e, k) {
                    let j = choose|j: int| 0 <= j < new_e.len() && (#[trigger] new_e[j]).0 == k;
                    if j != i {
                        assert(old_e[j].0 == k);
                    }
                }
            }
            assert forall|i2: int| 0 <= i2 < v.len() implies (#[trigger] v@[i2]).amount == amount || exists|j: int|
                0 <= j < old(v).len() && old(v)@[j].amount == v@[i2].amount by {
                if i2 != i {
                    assert(old(v)@[i2].amount == v@[i2].amount);
                }
            }
        },
        None => {
            v.push(Entry { owner, amount });
            let ghost new_e = entries_view(v@);
            assert(new_e =~= old_e.push((o, amount as nat)));
            assert forall|a: int, b: int| 0 <= a < new_e.len() && 0 <= b < new_e.len() && a != b implies (#[trigger] new_e[a]).0
                != (#[trigger] new_e[b]).0 by {
                if a == new_e.len() - 1 {
                    assert(old_e[b].0 != o);
                } else if b == new_e.len() - 1 {
                    assert(old_e[a].0 != o);
                } else {
                    assert(old_e[a] == new_e[a] && old_e[b] == new_e[b]);
                }
            }
            assert forall|k: Seq<u8>| has_key(new_e, k) <==> #[trigger] has_key(old_e, k) || k == o by {
                if has_key(old_e, k) {
                    let j = choose|j: int| 0 <= j < old_e.len() && (#[trigger] old_e[j]).0 == k;
                    assert(new_e[j].0 == k);
                }
                if k == o {
                    assert(new_e[new_e.len() - 1].0 == k);
                }
                if has_key(new_e, k) {
                    let j = choose|j: int| 0 <= j < new_e.len() && (#[trigger] new_e[j]).0 == k;
                    if j != new_e.len() - 1 {
                        assert(old_e[j].0 == k);
                    }
                }
            }
            assert forall|i2: int| 0 <= i2 < v.len() implies (#[trigger] v@[i2]).amount == amount || exists|j: int|
                0 <= j < old(v).len() && old(v)@[j].amount == v@[i2].amount by {
                if i2 != v.len() - 1 {
                    assert(old(v)@[i2].amount == v@[i2].amount);
                }
            }
        },
    }
}

} // verus!
