//! A keyed record store: an association vector keyed by `u32`, with
//! unique keys. The engine keeps every persisted map (pools, delegators,
//! ledger accounts, backend balances) in one of these, so that invariants
//! can be stated over the plain sequence of entries.

use vstd::prelude::*;

verus! {

/// The keys of `s` are pairwise distinct.
pub open spec fn tuniq<V>(s: Seq<(u32, V)>) -> bool {
    forall|i: int, j: int| 0 <= i < j < s.len() ==> s[i].0 != s[j].0
}

/// Some entry of `s` has key `k`.
pub open spec fn tcontains<V>(s: Seq<(u32, V)>, k: u32) -> bool {
    exists|i: int| 0 <= i < s.len() && s[i].0 == k
}

/// The index of the entry with key `k`, when one exists.
pub open spec fn tidx<V>(s: Seq<(u32, V)>, k: u32) -> int {
    choose|i: int| 0 <= i < s.len() && s[i].0 == k
}

/// The value stored under `k`, if any.
pub open spec fn tget<V>(s: Seq<(u32, V)>, k: u32) -> Option<V> {
    if tcontains(s, k) {
        Some(s[tidx(s, k)].1)
    } else {
        None
    }
}

/// With unique keys, any index whose entry has key `k` stores `tget`'s value.
pub proof fn lemma_tget_at<V>(s: Seq<(u32, V)>, i: int)
    requires
        tuniq(s),
        0 <= i < s.len(),
    ensures
        tget(s, s[i].0) == Some(s[i].1),
        tidx(s, s[i].0) == i,
{
    let k = s[i].0;
    assert(tcontains(s, k));
    let j = tidx(s, k);
    assert(0 <= j < s.len() && s[j].0 == k);
    if i != j {
        assert(false);
    }
}

/// An association vector with unique `u32` keys.
pub struct Table<V> {
    entries: Vec<(u32, V)>,
}

impl<V> View for Table<V> {
    type V = Seq<(u32, V)>;

    closed spec fn view(&self) -> Seq<(u32, V)> {
        self.entries@
    }
}

impl<V> Table<V> {
    /// An empty table.
    pub fn new() -> (r: Self)
        ensures
            r@ == Seq::<(u32, V)>::empty(),
            r@.len() == 0,
            tuniq(r@),
    {
        Table { entries: Vec::new() }
    }

    /// How many entries the table holds.
    pub fn len(&self) -> (r: usize)
        ensures
            r == self@.len(),
    {
        self.entries.len()
    }

    /// The index holding key `k`, if any entry does.
    pub fn index_of(&self, k: u32) -> (r: Option<usize>)
        ensures
            match r {
                Some(i) => i < self@.len() && self@[i as int].0 == k,
                None => !tcontains(self@, k),
            },
    {
        let mut i: usize = 0;
        while i < self.entries.len()
            invariant
                i <= self@.len(),
                forall|j: int| 0 <= j < i ==> self@[j].0 != k,
            decreases self@.len() - i,
        {
            if self.entries[i].0 == k {
                return Some(i);
            }
            i = i + 1;
        }
        None
    }

    /// Whether an entry with key `k` exists.
    pub fn contains_key(&self, k: u32) -> (r: bool)
        ensures
            r == tcontains(self@, k),
    {
        self.index_of(k).is_some()
    }

    /// Insert `v` under `k`, replacing any entry that key already has.
    pub fn insert(&mut self, k: u32, v: V)
        requires
            tuniq(old(self)@),
        ensures
            tuniq(final(self)@),
            tcontains(old(self)@, k) ==> final(self)@ == old(self)@.update(
                tidx(old(self)@, k),
                (k, v),
            ) && final(self)@.len() == old(self)@.len(),
            !tcontains(old(self)@, k) ==> final(self)@ == old(self)@.push((k, v))
                && final(self)@.len() == old(self)@.len() + 1,
            forall|k2: u32|
                tget(final(self)@, k2) == (if k2 == k {
                    Some(v)
                } else {
                    tget(old(self)@, k2)
                }),
    {
        let ghost s = self@;
        match self.index_of(k) {
            Some(i) => {
                proof {
                    lemma_tget_at(s, i as int);
                }
                self.entries.set(i, (k, v));
                proof {
                    lemma_tget_update(s, i as int, k, v);
                }
            }
            None => {
                self.entries.push((k, v));
                proof {
                    lemma_tget_push(s, k, v);
                }
            }
        }
    }

    /// Remove and return the entry under `k`, if one exists.
    pub fn remove(&mut self, k: u32) -> (r: Option<V>)
        requires
            tuniq(old(self)@),
        ensures
            tuniq(final(self)@),
            r == tget(old(self)@, k),
            tcontains(old(self)@, k) ==> final(self)@ == old(self)@.remove(tidx(old(self)@, k))
                && final(self)@.len() == old(self)@.len() - 1,
            !tcontains(old(self)@, k) ==> final(self)@ == old(self)@,
            forall|k2: u32|
                tget(final(self)@, k2) == (if k2 == k {
                    None
                } else {
                    tget(old(self)@, k2)
                }),
    {
        let ghost s = self@;
        match self.index_of(k) {
            Some(i) => {
                proof {
                    lemma_tget_at(s, i as int);
                }
                let (_, v) = self.entries.remove(i);
                proof {
                    lemma_tget_remove(s, i as int);
                }
                Some(v)
            }
            None => None,
        }
    }
}

impl<V> Table<V> {
    /// Borrow the value under `k`, if one exists.
    pub fn get_ref(&self, k: u32) -> (r: Option<&V>)
        requires
            tuniq(self@),
        ensures
            match r {
                Some(v) => tget(self@, k) == Some(*v),
                None => tget(self@, k) is None,
            },
    {
        match self.index_of(k) {
            Some(i) => {
                proof {
                    lemma_tget_at(self@, i as int);
                }
                Some(&self.entries[i].1)
            }
            None => None,
        }
    }
}

impl<V: Copy> Table<V> {
    /// The value under `k`, by copy.
    pub fn get(&self, k: u32) -> (r: Option<V>)
        requires
            tuniq(self@),
        ensures
            r == tget(self@, k),
    {
        match self.index_of(k) {
            Some(i) => {
                proof {
                    lemma_tget_at(self@, i as int);
                }
                Some(self.entries[i].1)
            }
            None => None,
        }
    }

    /// The entry at position `i`, by copy.
    pub fn entry_at(&self, i: usize) -> (r: (u32, V))
        requires
            i < self@.len(),
        ensures
            r == self@[i as int],
    {
        self.entries[i]
    }
}

/// Updating the entry at `i` (whose key is `k`) rebinds `k` and nothing else.
pub proof fn lemma_tget_update<V>(s: Seq<(u32, V)>, i: int, k: u32, v: V)
    requires
        tuniq(s),
        0 <= i < s.len(),
        s[i].0 == k,
    ensures
        tuniq(s.update(i, (k, v))),
        forall|k2: u32|
            tget(s.update(i, (k, v)), k2) == (if k2 == k {
                Some(v)
            } else {
                tget(s, k2)
            }),
{
    let t = s.update(i, (k, v));
    assert(forall|j: int| 0 <= j < s.len() ==> t[j].0 == s[j].0);
    assert forall|k2: u32|
        tget(t, k2) == (if k2 == k {
            Some(v)
        } else {
            tget(s, k2)
        }) by {
        if tcontains(t, k2) {
            let j = tidx(t, k2);
            assert(0 <= j < t.len() && t[j].0 == k2);
            assert(s[j].0 == k2);
            lemma_tget_at(s, j);
            if k2 == k {
                assert(j == i);
            } else {
                assert(j != i);
                assert(t[j].1 == s[j].1);
            }
        } else {
            assert(!tcontains(s, k2)) by {
                if tcontains(s, k2) {
                    let j = tidx(s, k2);
                    assert(t[j].0 == k2);
                    assert(tcontains(t, k2));
                }
            }
        }
    }
}

/// Pushing a fresh key binds it and disturbs no other key.
pub proof fn lemma_tget_push<V>(s: Seq<(u32, V)>, k: u32, v: V)
    requires
        tuniq(s),
        !tcontains(s, k),
    ensures
        tuniq(s.push((k, v))),
        forall|k2: u32|
            tget(s.push((k, v)), k2) == (if k2 == k {
                Some(v)
            } else {
                tget(s, k2)
            }),
{
    let t = s.push((k, v));
    let n = s.len() as int;
    assert(forall|j: int| 0 <= j < n ==> t[j] == s[j]);
    assert(forall|j: int| 0 <= j < n ==> s[j].0 != k);
    assert forall|k2: u32|
        tget(t, k2) == (if k2 == k {
            Some(v)
        } else {
            tget(s, k2)
        }) by {
        if k2 == k {
            assert(t[n].0 == k);
            assert(tcontains(t, k));
            let j = tidx(t, k);
            assert(0 <= j <= n && t[j].0 == k);
            assert(j == n);
        } else {
            if tcontains(t, k2) {
                let j = tidx(t, k2);
                assert(0 <= j <= n && t[j].0 == k2);
                assert(j < n);
                assert(s[j].0 == k2);
                lemma_tget_at(s, j);
                lemma_tget_at(t, j);
            } else {
                assert(!tcontains(s, k2)) by {
                    if tcontains(s, k2) {
                        let j = tidx(s, k2);
                        assert(t[j].0 == k2);
                    }
                }
            }
        }
    }
}

/// Removing the entry at `i` unbinds its key and disturbs no other key.
pub proof fn lemma_tget_remove<V>(s: Seq<(u32, V)>, i: int)
    requires
        tuniq(s),
        0 <= i < s.len(),
    ensures
        tuniq(s.remove(i)),
        forall|k2: u32|
            tget(s.remove(i), k2) == (if k2 == s[i].0 {
                None
            } else {
                tget(s, k2)
            }),
{
    let t = s.remove(i);
    let k = s[i].0;
    let n = s.len() as int;
    assert(forall|j: int| 0 <= j < i ==> t[j] == s[j]);
    assert(forall|j: int| i <= j < n - 1 ==> t[j] == s[j + 1]);
    assert(tuniq(t)) by {
        assert forall|j1: int, j2: int| 0 <= j1 < j2 < t.len() implies t[j1].0 != t[j2].0 by {
            let o1: int = if j1 < i { j1 } else { j1 + 1 };
            let o2: int = if j2 < i { j2 } else { j2 + 1 };
            assert(t[j1] == s[o1]);
            assert(t[j2] == s[o2]);
        }
    }
    assert forall|k2: u32|
        tget(t, k2) == (if k2 == k {
            None
        } else {
            tget(s, k2)
        }) by {
        if k2 == k {
            assert(!tcontains(t, k)) by {
                if tcontains(t, k) {
                    let j = tidx(t, k);
                    let o: int = if j < i { j } else { j + 1 };
                    assert(s[o].0 == k);
                    assert(o != i);
                    assert(s[i].0 == k);
                }
            }
        } else {
            if tcontains(s, k2) {
                let j = tidx(s, k2);
                assert(0 <= j < n && s[j].0 == k2);
                lemma_tget_at(s, j);
                assert(j != i);
                let j2: int = if j < i { j } else { j - 1 };
                assert(t[j2] == s[j]);
                lemma_tget_at(t, j2);
            } else {
                assert(!tcontains(t, k2)) by {
                    if tcontains(t, k2) {
                        let j = tidx(t, k2);
                        let o: int = if j < i { j } else { j + 1 };
                        assert(s[o].0 == k2);
                        assert(tcontains(s, k2));
                    }
                }
            }
        }
    }
}

/// With unique keys on both sides, a table whose keys all occur in another
/// has no more entries than it.
pub proof fn lemma_keys_subset_len<V, W>(a: Seq<(u32, V)>, b: Seq<(u32, W)>)
    requires
        tuniq(a),
        tuniq(b),
        forall|k: u32| tcontains(a, k) ==> tcontains(b, k),
    ensures
        a.len() <= b.len(),
    decreases a.len(),
{
    if a.len() > 0 {
        let n = a.len() as int;
        let k = a[n - 1].0;
        assert(tcontains(a, k));
        assert(tcontains(b, k));
        let j = tidx(b, k);
        assert(0 <= j < b.len() && b[j].0 == k);
        let a2 = a.drop_last();
        let b2 = b.remove(j);
        lemma_tget_remove(b, j);
        assert(forall|i: int| 0 <= i < n - 1 ==> a2[i] == a[i]);
        assert forall|k2: u32| tcontains(a2, k2) implies tcontains(b2, k2) by {
            let i = choose|i: int| 0 <= i < a2.len() && a2[i].0 == k2;
            assert(a[i].0 == k2);
            assert(k2 != k);
            assert(tcontains(b, k2));
            assert(tget(b2, k2) == tget(b, k2));
            assert(tget(b, k2) is Some);
            assert(tget(b2, k2) is Some);
            assert(tcontains(b2, k2));
        }
        lemma_keys_subset_len(a2, b2);
    }
}

} // verus!
