//! A map from signed 64-bit epoch keys to values, kept as a vector of
//! entries in strictly ascending key order.
//!
//! The engine's expiry index is one of these: reaping expired subscriptions
//! is a scan over the leading entries whose epoch is at or below the
//! current one.

use vstd::prelude::*;

verus! {

/// The index of the first entry with key `k`, scanning from `i`;
/// the length of the sequence if there is none.
pub open spec fn imap_idx_from<V>(s: Seq<(i64, V)>, k: i64, i: int) -> int
    decreases s.len() - i,
{
    if !(0 <= i < s.len()) {
        s.len() as int
    } else if s[i].0 == k {
        i
    } else {
        imap_idx_from(s, k, i + 1)
    }
}

/// The index of the entry with key `k`, or the length if there is none.
pub open spec fn imap_idx<V>(s: Seq<(i64, V)>, k: i64) -> int {
    imap_idx_from(s, k, 0)
}

/// Whether the entry sequence holds key `k`.
pub open spec fn imap_has<V>(s: Seq<(i64, V)>, k: i64) -> bool {
    imap_idx(s, k) < s.len()
}

/// The value stored under key `k`, if any.
pub open spec fn imap_get<V>(s: Seq<(i64, V)>, k: i64) -> Option<V> {
    if imap_has(s, k) {
        Some(s[imap_idx(s, k)].1)
    } else {
        None
    }
}

/// The insertion point for key `k`, scanning from `i`.
pub open spec fn imap_lb_from<V>(s: Seq<(i64, V)>, k: i64, i: int) -> int
    decreases s.len() - i,
{
    if !(0 <= i < s.len()) {
        s.len() as int
    } else if s[i].0 < k {
        imap_lb_from(s, k, i + 1)
    } else {
        i
    }
}

/// The insertion point for key `k` in a sorted entry sequence.
pub open spec fn imap_lb<V>(s: Seq<(i64, V)>, k: i64) -> int {
    imap_lb_from(s, k, 0)
}

/// Entries stand in strictly ascending key order.
pub open spec fn imap_sorted<V>(s: Seq<(i64, V)>) -> bool {
    forall|i: int, j: int| 0 <= i < j < s.len() ==> s[i].0 < s[j].0
}

/// Basic shape of `imap_idx_from`.
pub proof fn lemma_imap_idx_from_props<V>(s: Seq<(i64, V)>, k: i64, i: int)
    requires
        0 <= i <= s.len(),
    ensures
        i <= imap_idx_from(s, k, i) <= s.len(),
        imap_idx_from(s, k, i) < s.len() ==> s[imap_idx_from(s, k, i)].0 == k,
        forall|m: int| i <= m < imap_idx_from(s, k, i) ==> s[m].0 != k,
    decreases s.len() - i,
{
    if i < s.len() && s[i].0 != k {
        lemma_imap_idx_from_props(s, k, i + 1);
    }
}

/// A scan landing: all earlier keys differ, and `i` is the end or a hit.
pub proof fn lemma_imap_idx_is<V>(s: Seq<(i64, V)>, k: i64, j: int, i: int)
    requires
        0 <= j <= i <= s.len(),
        forall|m: int| j <= m < i ==> s[m].0 != k,
        i == s.len() || s[i].0 == k,
    ensures
        imap_idx_from(s, k, j) == i,
    decreases i - j,
{
    if j < i {
        lemma_imap_idx_is(s, k, j + 1, i);
    }
}

/// An insertion-point landing.
pub proof fn lemma_imap_lb_is<V>(s: Seq<(i64, V)>, k: i64, j: int, i: int)
    requires
        0 <= j <= i <= s.len(),
        forall|m: int| j <= m < i ==> s[m].0 < k,
        i == s.len() || s[i].0 >= k,
    ensures
        imap_lb_from(s, k, j) == i,
    decreases i - j,
{
    if j < i {
        lemma_imap_lb_is(s, k, j + 1, i);
    }
}

/// In a sorted sequence, the entry at `j` is the one the lookup finds.
pub proof fn lemma_imap_get_at<V>(s: Seq<(i64, V)>, k: i64, j: int)
    requires
        imap_sorted(s),
        0 <= j < s.len(),
        s[j].0 == k,
    ensures
        imap_idx(s, k) == j,
        imap_get(s, k) == Some(s[j].1),
{
    lemma_imap_idx_from_props(s, k, 0);
}

/// What a lookup says, element-wise.
pub proof fn lemma_imap_get_char<V>(s: Seq<(i64, V)>, k: i64)
    ensures
        match imap_get(s, k) {
            Some(v) => exists|j: int| 0 <= j < s.len() && s[j].0 == k && s[j].1 == v,
            None => forall|j: int| 0 <= j < s.len() ==> s[j].0 != k,
        },
{
    lemma_imap_idx_from_props(s, k, 0);
}

/// Replacing the value at `j` (keeping its key) changes lookups only at
/// that key.
pub proof fn lemma_imap_get_update<V>(s: Seq<(i64, V)>, j: int, p: (i64, V), k: i64)
    requires
        imap_sorted(s),
        0 <= j < s.len(),
        p.0 == s[j].0,
    ensures
        imap_sorted(s.update(j, p)),
        imap_get(s.update(j, p), k) == (if k == p.0 {
            Some(p.1)
        } else {
            imap_get(s, k)
        }),
{
    let s2 = s.update(j, p);
    assert(forall|m: int| 0 <= m < s.len() ==> s2[m].0 == s[m].0);
    if k == p.0 {
        lemma_imap_get_at(s2, k, j);
    } else {
        lemma_imap_get_char(s, k);
        lemma_imap_get_char(s2, k);
        match imap_get(s, k) {
            Some(v) => {
                let w = choose|m: int| 0 <= m < s.len() && s[m].0 == k && s[m].1 == v;
                lemma_imap_get_at(s2, k, w);
            },
            None => {
                lemma_imap_idx_from_props(s2, k, 0);
            },
        }
    }
}

/// Inserting a fresh key at its insertion point keeps the order and changes
/// lookups only at that key.
pub proof fn lemma_imap_get_insert<V>(s: Seq<(i64, V)>, j: int, p: (i64, V), k: i64)
    requires
        imap_sorted(s),
        0 <= j <= s.len(),
        forall|m: int| 0 <= m < j ==> s[m].0 < p.0,
        forall|m: int| j <= m < s.len() ==> p.0 < s[m].0,
    ensures
        imap_sorted(s.insert(j, p)),
        imap_get(s.insert(j, p), k) == (if k == p.0 {
            Some(p.1)
        } else {
            imap_get(s, k)
        }),
{
    let s2 = s.insert(j, p);
    assert(forall|x: int| 0 <= x < j ==> s2[x] == s[x]);
    assert(forall|y: int| j < y < s2.len() ==> s2[y] == s[y - 1]);
    if k == p.0 {
        lemma_imap_get_at(s2, k, j);
    } else {
        lemma_imap_get_char(s, k);
        lemma_imap_get_char(s2, k);
        match imap_get(s, k) {
            Some(v) => {
                let w = choose|m: int| 0 <= m < s.len() && s[m].0 == k && s[m].1 == v;
                if w < j {
                    lemma_imap_get_at(s2, k, w);
                } else {
                    lemma_imap_get_at(s2, k, w + 1);
                }
            },
            None => {
                lemma_imap_idx_from_props(s2, k, 0);
                let i = imap_idx(s2, k);
                if i < s2.len() {
                    assert(s2[i] == (if i < j { s[i] } else if i == j { p } else { s[i - 1] }));
                }
            },
        }
    }
}

/// Removing the entry at `j` keeps the order and changes lookups only at
/// the removed key.
pub proof fn lemma_imap_get_remove<V>(s: Seq<(i64, V)>, j: int, k: i64)
    requires
        imap_sorted(s),
        0 <= j < s.len(),
    ensures
        imap_sorted(s.remove(j)),
        imap_get(s.remove(j), k) == (if k == s[j].0 {
            None
        } else {
            imap_get(s, k)
        }),
{
    let s2 = s.remove(j);
    assert(forall|x: int| 0 <= x < j ==> s2[x] == s[x]);
    assert(forall|y: int| j <= y < s2.len() ==> s2[y] == s[y + 1]);
    if k == s[j].0 {
        lemma_imap_idx_from_props(s2, k, 0);
        let i = imap_idx(s2, k);
        if i < s2.len() {
            assert(s2[i] == (if i < j { s[i] } else { s[i + 1] }));
            assert(false);
        }
    } else {
        lemma_imap_get_char(s, k);
        lemma_imap_get_char(s2, k);
        match imap_get(s, k) {
            Some(v) => {
                let w = choose|m: int| 0 <= m < s.len() && s[m].0 == k && s[m].1 == v;
                if w < j {
                    lemma_imap_get_at(s2, k, w);
                } else {
                    lemma_imap_get_at(s2, k, w - 1);
                }
            },
            None => {
                lemma_imap_idx_from_props(s2, k, 0);
                let i = imap_idx(s2, k);
                if i < s2.len() {
                    assert(s2[i] == (if i < j { s[i] } else { s[i + 1] }));
                }
            },
        }
    }
}

/// A map from epoch keys to values of type `V`, stored sorted.
#[derive(Debug)]
pub struct EpochMap<V> {
    /// The entries, in strictly ascending key order.
    pub entries: Vec<(i64, V)>,
}

impl<V> EpochMap<V> {
    /// The entry sequence: the map's specification-level value.
    pub open spec fn view(self) -> Seq<(i64, V)> {
        self.entries@
    }

    /// Well-formed: strictly sorted, hence keys pairwise distinct.
    pub open spec fn wf(self) -> bool {
        imap_sorted(self.entries@)
    }

    /// An empty map.
    pub fn new() -> (r: Self)
        ensures
            r@ == Seq::<(i64, V)>::empty(),
            r.wf(),
    {
        let r = EpochMap { entries: Vec::new() };
        proof {
            assert(r.entries@ =~= Seq::<(i64, V)>::empty());
        }
        r
    }

    /// The number of entries.
    pub fn len(&self) -> (r: usize)
        ensures
            r == self@.len(),
    {
        self.entries.len()
    }

    /// Looks up the value stored under `k`.
    pub fn get(&self, k: i64) -> (r: Option<&V>)
        ensures
            match r {
                Some(v) => imap_get(self@, k) == Some(*v),
                None => imap_get(self@, k) == None::<V>,
            },
    {
        let n = self.entries.len();
        let mut i: usize = 0;
        loop
            invariant
                0 <= i <= n,
                n == self.entries@.len(),
                forall|m: int| 0 <= m < i ==> self.entries@[m].0 != k,
            decreases n - i,
        {
            if i == n {
                proof {
                    lemma_imap_idx_is(self.entries@, k, 0, n as int);
                }
                return None;
            }
            let entry = &self.entries[i];
            if entry.0 == k {
                proof {
                    lemma_imap_idx_is(self.entries@, k, 0, i as int);
                }
                return Some(&entry.1);
            }
            i = i + 1;
        }
    }

    /// Stores `v` under `k`, replacing any previous value.
    pub fn insert(&mut self, k: i64, v: V)
        requires
            old(self).wf(),
        ensures
            final(self).wf(),
            imap_has(old(self)@, k) ==> final(self)@ == old(self)@.update(
                imap_idx(old(self)@, k),
                (k, v),
            ),
            !imap_has(old(self)@, k) ==> final(self)@ == old(self)@.insert(
                imap_lb(old(self)@, k),
                (k, v),
            ),
            imap_get(final(self)@, k) == Some(v),
            forall|k2: i64| k2 != k ==> imap_get(final(self)@, k2) == imap_get(old(self)@, k2),
    {
        let ghost s = self.entries@;
        let n = self.entries.len();
        let mut i: usize = 0;
        loop
            invariant
                0 <= i <= n,
                s == old(self)@,
                self.entries@ == s,
                n == s.len(),
                imap_sorted(s),
                forall|m: int| 0 <= m < i ==> s[m].0 < k,
            ensures
                0 <= i <= n,
                s == old(self)@,
                self.entries@ == s,
                forall|m: int| 0 <= m < i ==> s[m].0 < k,
                i < n ==> s[i as int].0 >= k,
            decreases n - i,
        {
            if i == n {
                break;
            }
            if self.entries[i].0 >= k {
                break;
            }
            i = i + 1;
        }
        let hit = i < self.entries.len() && self.entries[i].0 == k;
        if hit {
            proof {
                lemma_imap_idx_is(s, k, 0, i as int);
            }
            let (k_prev, _prev) = self.entries.remove(i);
            self.entries.insert(i, (k, v));
            proof {
                let t = self.entries@;
                let u = s.update(i as int, (k, v));
                assert(t.len() == u.len());
                assert forall|m: int| 0 <= m < u.len() implies t[m] == u[m] by {
                    if m < i {
                        assert(t[m] == s[m]);
                    } else if m > i {
                        assert(t[m] == s[m]);
                    }
                }
                assert(t =~= u);
                lemma_imap_get_update(s, i as int, (k, v), k);
                assert forall|k2: i64| k2 != k implies imap_get(t, k2) == imap_get(s, k2) by {
                    lemma_imap_get_update(s, i as int, (k, v), k2);
                }
            }
        } else {
            proof {
                assert forall|m: int| 0 <= m < s.len() implies s[m].0 != k by {
                    if m >= i {
                        assert(s[m].0 > k || m == i);
                    }
                }
                lemma_imap_idx_is(s, k, 0, s.len() as int);
                lemma_imap_lb_is(s, k, 0, i as int);
            }
            self.entries.insert(i, (k, v));
            proof {
                lemma_imap_get_insert(s, i as int, (k, v), k);
                assert forall|k2: i64| k2 != k implies imap_get(self.entries@, k2) == imap_get(
                    s,
                    k2,
                ) by {
                    lemma_imap_get_insert(s, i as int, (k, v), k2);
                }
            }
        }
    }

    /// Removes and returns the value stored under `k`, if any.
    pub fn remove(&mut self, k: i64) -> (r: Option<V>)
        requires
            old(self).wf(),
        ensures
            final(self).wf(),
            match r {
                Some(v) => imap_get(old(self)@, k) == Some(v)
                    && final(self)@ == old(self)@.remove(imap_idx(old(self)@, k)),
                None => imap_get(old(self)@, k) == None::<V> && *final(self) == *old(self),
            },
            imap_get(final(self)@, k) == None::<V>,
            forall|k2: i64| k2 != k ==> imap_get(final(self)@, k2) == imap_get(old(self)@, k2),
    {
        let ghost s = self.entries@;
        let n = self.entries.len();
        let mut i: usize = 0;
        loop
            invariant
                0 <= i <= n,
                s == old(self)@,
                *self == *old(self),
                self.entries@ == s,
                n == s.len(),
                imap_sorted(s),
                forall|m: int| 0 <= m < i ==> s[m].0 != k,
            decreases n - i,
        {
            if i == n {
                proof {
                    lemma_imap_idx_is(s, k, 0, n as int);
                }
                return None;
            }
            if self.entries[i].0 == k {
                proof {
                    lemma_imap_idx_is(s, k, 0, i as int);
                }
                let (_k_prev, v) = self.entries.remove(i);
                proof {
                    lemma_imap_get_remove(s, i as int, k);
                    assert forall|k2: i64| k2 != k implies imap_get(self.entries@, k2)
                        == imap_get(s, k2) by {
                        lemma_imap_get_remove(s, i as int, k2);
                    }
                }
                return Some(v);
            }
            i = i + 1;
        }
    }

    /// Removes and returns the entry with the smallest key, if the map is
    /// nonempty and that key is at most `bound`.
    pub fn pop_front_at_most(&mut self, bound: i64) -> (r: Option<(i64, V)>)
        requires
            old(self).wf(),
        ensures
            final(self).wf(),
            match r {
                Some(p) => old(self)@.len() > 0 && p == old(self)@[0] && p.0 <= bound
                    && final(self)@ == old(self)@.remove(0),
                None => *final(self) == *old(self) && (old(self)@.len() == 0
                    || old(self)@[0].0 > bound),
            },
    {
        if self.entries.len() == 0 {
            return None;
        }
        if self.entries[0].0 > bound {
            return None;
        }
        let ghost s = self.entries@;
        let p = self.entries.remove(0);
        proof {
            let s2 = self.entries@;
            assert(forall|y: int| 0 <= y < s2.len() ==> s2[y] == s[y + 1]);
        }
        Some(p)
    }

    /// The index of the entry holding `k`, if any.
    pub fn index_of(&self, k: i64) -> (r: Option<usize>)
        ensures
            match r {
                Some(i) => imap_has(self@, k) && i == imap_idx(self@, k) && i < self@.len()
                    && self@[i as int].0 == k,
                None => !imap_has(self@, k),
            },
    {
        let n = self.entries.len();
        let mut i: usize = 0;
        loop
            invariant
                0 <= i <= n,
                n == self.entries@.len(),
                forall|m: int| 0 <= m < i ==> self.entries@[m].0 != k,
            decreases n - i,
        {
            if i == n {
                proof {
                    lemma_imap_idx_is(self.entries@, k, 0, n as int);
                }
                return None;
            }
            if self.entries[i].0 == k {
                proof {
                    lemma_imap_idx_is(self.entries@, k, 0, i as int);
                }
                return Some(i);
            }
            i = i + 1;
        }
    }

    /// Removes and returns the entry at index `i`.
    pub fn take_at(&mut self, i: usize) -> (r: (i64, V))
        requires
            i < old(self)@.len(),
        ensures
            r == old(self)@[i as int],
            final(self)@ == old(self)@.remove(i as int),
    {
        self.entries.remove(i)
    }

    /// Puts an entry back at index `i`.
    pub fn put_at(&mut self, i: usize, k: i64, v: V)
        requires
            i <= old(self)@.len(),
        ensures
            final(self)@ == old(self)@.insert(i as int, (k, v)),
    {
        self.entries.insert(i, (k, v));
    }
}

/// Taking an entry out and putting one with the same key back is an update.
pub proof fn lemma_imap_remove_insert_is_update<V>(s: Seq<(i64, V)>, i: int, p: (i64, V))
    requires
        0 <= i < s.len(),
    ensures
        s.remove(i).insert(i, p) == s.update(i, p),
{
    let t = s.remove(i).insert(i, p);
    let u = s.update(i, p);
    assert(t.len() == u.len());
    assert forall|m: int| 0 <= m < u.len() implies t[m] == u[m] by {
        if m < i {
            assert(s.remove(i)[m] == s[m]);
        } else if m > i {
            assert(s.remove(i)[m - 1] == s[m]);
        }
    }
    assert(t =~= u);
}

/// The insertion point lies within the sequence bounds.
pub proof fn lemma_imap_lb_props<V>(s: Seq<(i64, V)>, k: i64, i: int)
    requires
        0 <= i <= s.len(),
    ensures
        i <= imap_lb_from(s, k, i) <= s.len(),
    decreases s.len() - i,
{
    if i < s.len() && s[i].0 < k {
        lemma_imap_lb_props(s, k, i + 1);
    }
}

} // verus!

