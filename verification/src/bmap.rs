//! A map from byte-string keys to values, kept as a vector of entries in
//! strictly ascending byte-wise key order.
//!
//! Every map in the engine state is one of these (or the integer-keyed
//! variant): the sorted layout makes iteration order a function of the map's
//! contents alone, which the replicated state machine needs, and the entry
//! sequence is the map's specification-level value.

use vstd::prelude::*;

use crate::ord::{bytes_cmp, lemma_lex_lt_ne, lex_lt};

verus! {

/// The index of the first entry whose key is `k`, scanning from `i`;
/// the length of the sequence if there is none.
pub open spec fn map_idx_from<V>(s: Seq<(Vec<u8>, V)>, k: Seq<u8>, i: int) -> int
    decreases s.len() - i,
{
    if !(0 <= i < s.len()) {
        s.len() as int
    } else if s[i].0@ == k {
        i
    } else {
        map_idx_from(s, k, i + 1)
    }
}

/// The index of the entry with key `k`, or the length if there is none.
pub open spec fn map_idx<V>(s: Seq<(Vec<u8>, V)>, k: Seq<u8>) -> int {
    map_idx_from(s, k, 0)
}

/// Whether the entry sequence holds key `k`.
pub open spec fn map_has<V>(s: Seq<(Vec<u8>, V)>, k: Seq<u8>) -> bool {
    map_idx(s, k) < s.len()
}

/// The value stored under key `k`, if any.
pub open spec fn map_get<V>(s: Seq<(Vec<u8>, V)>, k: Seq<u8>) -> Option<V> {
    if map_has(s, k) {
        Some(s[map_idx(s, k)].1)
    } else {
        None
    }
}

/// The insertion point for key `k`: the index of the first entry whose key
/// is not byte-wise below `k`, scanning from `i`.
pub open spec fn map_lb_from<V>(s: Seq<(Vec<u8>, V)>, k: Seq<u8>, i: int) -> int
    decreases s.len() - i,
{
    if !(0 <= i < s.len()) {
        s.len() as int
    } else if lex_lt(s[i].0@, k) {
        map_lb_from(s, k, i + 1)
    } else {
        i
    }
}

/// The insertion point for key `k` in a sorted entry sequence.
pub open spec fn map_lb<V>(s: Seq<(Vec<u8>, V)>, k: Seq<u8>) -> int {
    map_lb_from(s, k, 0)
}

/// Entries stand in strictly ascending byte-wise key order.
pub open spec fn map_sorted<V>(s: Seq<(Vec<u8>, V)>) -> bool {
    forall|i: int, j: int| 0 <= i < j < s.len() ==> lex_lt(s[i].0@, s[j].0@)
}

/// Basic shape of `map_idx_from`: it points at `k` if `k` occurs at or
/// after `i`, and every entry it skips has a different key.
pub proof fn lemma_idx_from_props<V>(s: Seq<(Vec<u8>, V)>, k: Seq<u8>, i: int)
    requires
        0 <= i <= s.len(),
    ensures
        i <= map_idx_from(s, k, i) <= s.len(),
        map_idx_from(s, k, i) < s.len() ==> s[map_idx_from(s, k, i)].0@ == k,
        forall|m: int| i <= m < map_idx_from(s, k, i) ==> s[m].0@ != k,
    decreases s.len() - i,
{
    if i < s.len() && s[i].0@ != k {
        lemma_idx_from_props(s, k, i + 1);
    }
}

/// If every key before `i` differs from `k` and `i` is either the end or an
/// entry with key `k`, then `i` is where the scan for `k` lands.
pub proof fn lemma_idx_is<V>(s: Seq<(Vec<u8>, V)>, k: Seq<u8>, j: int, i: int)
    requires
        0 <= j <= i <= s.len(),
        forall|m: int| j <= m < i ==> s[m].0@ != k,
        i == s.len() || s[i].0@ == k,
    ensures
        map_idx_from(s, k, j) == i,
    decreases i - j,
{
    if j < i {
        lemma_idx_is(s, k, j + 1, i);
    }
}

/// The insertion point lies within the sequence bounds.
pub proof fn lemma_lb_props<V>(s: Seq<(Vec<u8>, V)>, k: Seq<u8>, i: int)
    requires
        0 <= i <= s.len(),
    ensures
        i <= map_lb_from(s, k, i) <= s.len(),
    decreases s.len() - i,
{
    if i < s.len() && lex_lt(s[i].0@, k) {
        lemma_lb_props(s, k, i + 1);
    }
}

/// If every key before `i` is below `k` and `i` is either the end or an
/// entry whose key is not below `k`, then `i` is the insertion point.
pub proof fn lemma_lb_is<V>(s: Seq<(Vec<u8>, V)>, k: Seq<u8>, j: int, i: int)
    requires
        0 <= j <= i <= s.len(),
        forall|m: int| j <= m < i ==> lex_lt(s[m].0@, k),
        i == s.len() || !lex_lt(s[i].0@, k),
    ensures
        map_lb_from(s, k, j) == i,
    decreases i - j,
{
    if j < i {
        lemma_lb_is(s, k, j + 1, i);
    }
}

/// What `map_get` says, element-wise: a found value sits in the sequence
/// under `k`, and a miss means no entry has key `k`.
pub proof fn lemma_get_char<V>(s: Seq<(Vec<u8>, V)>, k: Seq<u8>)
    ensures
        match map_get(s, k) {
            Some(v) => exists|j: int|
                0 <= j < s.len() && s[j].0@ == k && s[j].1 == v,
            None => forall|j: int| 0 <= j < s.len() ==> s[j].0@ != k,
        },
{
    lemma_idx_from_props(s, k, 0);
}

/// In a sequence with pairwise distinct keys, the entry under `k` is unique,
/// so any entry with key `k` carries the value `map_get` returns.
pub proof fn lemma_get_at<V>(s: Seq<(Vec<u8>, V)>, k: Seq<u8>, j: int)
    requires
        map_sorted(s),
        0 <= j < s.len(),
        s[j].0@ == k,
    ensures
        map_idx(s, k) == j,
        map_get(s, k) == Some(s[j].1),
{
    lemma_idx_from_props(s, k, 0);
    let i = map_idx(s, k);
    if i < j {
        lemma_lex_lt_ne(s[i].0@, s[j].0@);
    }
    if j < i && i < s.len() {
        lemma_lex_lt_ne(s[j].0@, s[i].0@);
    }
    assert(i == j);
}

/// Sorted entry sequences have pairwise distinct keys.
pub proof fn lemma_sorted_distinct<V>(s: Seq<(Vec<u8>, V)>)
    requires
        map_sorted(s),
    ensures
        forall|i: int, j: int|
            0 <= i < s.len() && 0 <= j < s.len() && i != j ==> s[i].0@ != s[j].0@,
{
    assert forall|i: int, j: int|
        0 <= i < s.len() && 0 <= j < s.len() && i != j implies s[i].0@ != s[j].0@ by {
        if i < j {
            lemma_lex_lt_ne(s[i].0@, s[j].0@);
        } else {
            lemma_lex_lt_ne(s[j].0@, s[i].0@);
        }
    }
}

/// Replacing the value at `j` (keeping its key) changes `map_get` only at
/// that key.
pub proof fn lemma_get_update<V>(s: Seq<(Vec<u8>, V)>, j: int, p: (Vec<u8>, V), k: Seq<u8>)
    requires
        map_sorted(s),
        0 <= j < s.len(),
        p.0@ == s[j].0@,
    ensures
        map_sorted(s.update(j, p)),
        map_get(s.update(j, p), k) == (if k == p.0@ {
            Some(p.1)
        } else {
            map_get(s, k)
        }),
{
    let s2 = s.update(j, p);
    assert(forall|m: int| 0 <= m < s.len() ==> s2[m].0@ == s[m].0@);
    if k == p.0@ {
        lemma_get_at(s2, k, j);
    } else {
        lemma_get_char(s, k);
        lemma_get_char(s2, k);
        match map_get(s, k) {
            Some(v) => {
                let w = choose|m: int| 0 <= m < s.len() && s[m].0@ == k && s[m].1 == v;
                lemma_get_at(s2, k, w);
            },
            None => {
                lemma_idx_from_props(s2, k, 0);
            },
        }
    }
}

/// Inserting a fresh key at its insertion point keeps the order and changes
/// `map_get` only at that key.
pub proof fn lemma_get_insert<V>(s: Seq<(Vec<u8>, V)>, j: int, p: (Vec<u8>, V), k: Seq<u8>)
    requires
        map_sorted(s),
        0 <= j <= s.len(),
        forall|m: int| 0 <= m < j ==> lex_lt(s[m].0@, p.0@),
        forall|m: int| j <= m < s.len() ==> lex_lt(p.0@, s[m].0@),
    ensures
        map_sorted(s.insert(j, p)),
        map_get(s.insert(j, p), k) == (if k == p.0@ {
            Some(p.1)
        } else {
            map_get(s, k)
        }),
{
    let s2 = s.insert(j, p);
    assert forall|x: int, y: int| 0 <= x < y < s2.len() implies lex_lt(s2[x].0@, s2[y].0@) by {
        if x < j && y == j {
        } else if x == j && y > j {
        } else if x < j && y > j {
            crate::ord::lemma_lex_trans(s2[x].0@, p.0@, s2[y].0@);
        }
    }
    if k == p.0@ {
        lemma_get_at(s2, k, j);
    } else {
        lemma_get_char(s, k);
        lemma_get_char(s2, k);
        match map_get(s, k) {
            Some(v) => {
                let w = choose|m: int| 0 <= m < s.len() && s[m].0@ == k && s[m].1 == v;
                if w < j {
                    lemma_get_at(s2, k, w);
                } else {
                    lemma_get_at(s2, k, w + 1);
                }
            },
            None => {
                lemma_idx_from_props(s2, k, 0);
                let i = map_idx(s2, k);
                if i < s2.len() {
                    assert(s2[i].0@ == k);
                    if i < j {
                        assert(s2[i].0@ == s[i].0@);
                    } else if i > j {
                        assert(s2[i].0@ == s[i - 1].0@);
                    }
                }
            },
        }
    }
}

/// Removing the entry at `j` keeps the order and changes `map_get` only at
/// the removed key.
pub proof fn lemma_get_remove<V>(s: Seq<(Vec<u8>, V)>, j: int, k: Seq<u8>)
    requires
        map_sorted(s),
        0 <= j < s.len(),
    ensures
        map_sorted(s.remove(j)),
        map_get(s.remove(j), k) == (if k == s[j].0@ {
            None
        } else {
            map_get(s, k)
        }),
{
    let s2 = s.remove(j);
    assert forall|x: int, y: int| 0 <= x < y < s2.len() implies lex_lt(s2[x].0@, s2[y].0@) by {
        assert(s2[x] == (if x < j { s[x] } else { s[x + 1] }));
        assert(s2[y] == (if y < j { s[y] } else { s[y + 1] }));
    }
    lemma_sorted_distinct(s);
    if k == s[j].0@ {
        lemma_get_char(s2, k);
        lemma_idx_from_props(s2, k, 0);
        let i = map_idx(s2, k);
        if i < s2.len() {
            assert(s2[i] == (if i < j { s[i] } else { s[i + 1] }));
            assert(false);
        }
    } else {
        lemma_get_char(s, k);
        lemma_get_char(s2, k);
        match map_get(s, k) {
            Some(v) => {
                let w = choose|m: int| 0 <= m < s.len() && s[m].0@ == k && s[m].1 == v;
                if w < j {
                    lemma_get_at(s2, k, w);
                } else {
                    lemma_get_at(s2, k, w - 1);
                }
            },
            None => {
                lemma_idx_from_props(s2, k, 0);
                let i = map_idx(s2, k);
                if i < s2.len() {
                    assert(s2[i] == (if i < j { s[i] } else { s[i + 1] }));
                }
            },
        }
    }
}

/// A map from byte-string keys to values of type `V`, stored sorted.
#[derive(Debug)]
pub struct ByteMap<V> {
    /// The entries, in strictly ascending byte-wise key order.
    pub entries: Vec<(Vec<u8>, V)>,
}

impl<V> ByteMap<V> {
    /// The entry sequence: the map's specification-level value.
    pub open spec fn view(self) -> Seq<(Vec<u8>, V)> {
        self.entries@
    }

    /// Well-formed: strictly sorted, hence keys pairwise distinct.
    pub open spec fn wf(self) -> bool {
        map_sorted(self.entries@)
    }

    /// An empty map.
    pub fn new() -> (r: Self)
        ensures
            r@ == Seq::<(Vec<u8>, V)>::empty(),
            r.wf(),
    {
        let r = ByteMap { entries: Vec::new() };
        proof {
            assert(r.entries@ =~= Seq::<(Vec<u8>, V)>::empty());
        }
        r
    }

    /// The number of entries.
    pub fn len(&self) -> (r: usize)
        ensures
            r == self@.len(),
    {
        self.entries.len()
    }

    /// Whether the map is empty.
    pub fn is_empty(&self) -> (r: bool)
        ensures
            r == (self@.len() == 0),
    {
        self.entries.len() == 0
    }

    /// Looks up the value stored under `k`.
    pub fn get(&self, k: &Vec<u8>) -> (r: Option<&V>)
        ensures
            match r {
                Some(v) => map_get(self@, k@) == Some(*v),
                None => map_get(self@, k@) == None::<V>,
            },
    {
        let n = self.entries.len();
        let mut i: usize = 0;
        loop
            invariant
                0 <= i <= n,
                n == self.entries@.len(),
                forall|m: int| 0 <= m < i ==> self.entries@[m].0@ != k@,
            decreases n - i,
        {
            if i == n {
                proof {
                    lemma_idx_is(self.entries@, k@, 0, n as int);
                }
                return None;
            }
            let entry = &self.entries[i];
            if crate::ord::bytes_eq(&entry.0, k) {
                proof {
                    lemma_idx_is(self.entries@, k@, 0, i as int);
                }
                return Some(&entry.1);
            }
            i = i + 1;
        }
    }

    /// Whether the map holds key `k`.
    pub fn contains(&self, k: &Vec<u8>) -> (r: bool)
        ensures
            r == map_has(self@, k@),
    {
        proof {
            lemma_idx_from_props(self@, k@, 0);
        }
        self.get(k).is_some()
    }

    /// Stores `v` under `k`, replacing any previous value.
    pub fn insert(&mut self, k: Vec<u8>, v: V)
        requires
            old(self).wf(),
        ensures
            final(self).wf(),
            map_has(old(self)@, k@) ==> final(self)@ == old(self)@.update(
                map_idx(old(self)@, k@),
                (k, v),
            ),
            !map_has(old(self)@, k@) ==> final(self)@ == old(self)@.insert(
                map_lb(old(self)@, k@),
                (k, v),
            ),
            map_get(final(self)@, k@) == Some(v),
            forall|k2: Seq<u8>| k2 != k@ ==> map_get(final(self)@, k2) == map_get(old(self)@, k2),
    {
        let ghost s = self.entries@;
        let n = self.entries.len();
        let mut i: usize = 0;
        loop
            invariant
                0 <= i <= n,
                s == old(self)@,
                self.entries@ == s,
                n == s.len(),
                map_sorted(s),
                forall|m: int| 0 <= m < i ==> lex_lt(s[m].0@, k@),
            ensures
                0 <= i <= n,
                s == old(self)@,
                self.entries@ == s,
                forall|m: int| 0 <= m < i ==> lex_lt(s[m].0@, k@),
                i < n ==> !lex_lt(s[i as int].0@, k@),
            decreases n - i,
        {
            if i == n {
                break;
            }
            let c = bytes_cmp(&self.entries[i].0, &k);
            if c >= 0 {
                break;
            }
            i = i + 1;
        }
        proof {
            assert forall|m: int| 0 <= m < i implies s[m].0@ != k@ by {
                lemma_lex_lt_ne(s[m].0@, k@);
            }
        }
        let hit = i < self.entries.len() && crate::ord::bytes_eq(&self.entries[i].0, &k);
        if hit {
            proof {
                lemma_idx_is(s, k@, 0, i as int);
            }
            let (k_prev, _prev) = self.entries.remove(i);
            self.entries.insert(i, (k, v));
            proof {
                let t = self.entries@;
                let u = s.update(i as int, (k, v));
                assert(t.len() == u.len());
                assert forall|m: int| 0 <= m < u.len() implies t[m] == u[m] by {
                    if m < i {
                        assert(t[m] == s[m]);
                    } else if m > i {
                        assert(t[m] == s[m]);
                    }
                }
                assert(t =~= u);
                lemma_get_update(s, i as int, (k, v), k@);
                assert forall|k2: Seq<u8>| k2 != k@ implies map_get(t, k2) == map_get(s, k2) by {
                    lemma_get_update(s, i as int, (k, v), k2);
                }
            }
        } else {
            proof {
                if i < s.len() {
                    assert(s[i as int].0@ != k@);
                    if !lex_lt(k@, s[i as int].0@) {
                        crate::ord::lemma_lex_connex(s[i as int].0@, k@);
                    }
                }
                assert forall|m: int| i <= m < s.len() implies lex_lt(k@, s[m].0@) by {
                    if i < m {
                        crate::ord::lemma_lex_trans(k@, s[i as int].0@, s[m].0@);
                    }
                }
                assert forall|m: int| 0 <= m < s.len() implies s[m].0@ != k@ by {
                    if m >= i {
                        lemma_lex_lt_ne(k@, s[m].0@);
                    }
                }
                lemma_idx_is(s, k@, 0, s.len() as int);
                lemma_lb_is(s, k@, 0, i as int);
            }
            self.entries.insert(i, (k, v));
            proof {
                lemma_get_insert(s, i as int, (k, v), k@);
                assert forall|k2: Seq<u8>| k2 != k@ implies map_get(self.entries@, k2) == map_get(
                    s,
                    k2,
                ) by {
                    lemma_get_insert(s, i as int, (k, v), k2);
                }
            }
        }
    }

    /// Removes and returns the value stored under `k`, if any.
    pub fn remove(&mut self, k: &Vec<u8>) -> (r: Option<V>)
        requires
            old(self).wf(),
        ensures
            final(self).wf(),
            match r {
                Some(v) => map_get(old(self)@, k@) == Some(v) && final(self)@ == old(self)@.remove(
                    map_idx(old(self)@, k@),
                ),
                None => map_get(old(self)@, k@) == None::<V> && *final(self) == *old(self),
            },
            map_get(final(self)@, k@) == None::<V>,
            forall|k2: Seq<u8>| k2 != k@ ==> map_get(final(self)@, k2) == map_get(old(self)@, k2),
    {
        let ghost s = self.entries@;
        let n = self.entries.len();
        let mut i: usize = 0;
        loop
            invariant
                0 <= i <= n,
                s == old(self)@,
                *self == *old(self),
                self.entries@ == s,
                n == s.len(),
                map_sorted(s),
                forall|m: int| 0 <= m < i ==> s[m].0@ != k@,
            decreases n - i,
        {
            if i == n {
                proof {
                    lemma_idx_is(s, k@, 0, n as int);
                }
                return None;
            }
            if crate::ord::bytes_eq(&self.entries[i].0, k) {
                proof {
                    lemma_idx_is(s, k@, 0, i as int);
                }
                let (_k_prev, v) = self.entries.remove(i);
                proof {
                    lemma_get_remove(s, i as int, k@);
                    assert forall|k2: Seq<u8>| k2 != k@ implies map_get(self@, k2) == map_get(
                        s,
                        k2,
                    ) by {
                        lemma_get_remove(s, i as int, k2);
                    }
                }
                return Some(v);
            }
            i = i + 1;
        }
    }

    /// The index of the entry holding `k`, if any.
    pub fn index_of(&self, k: &Vec<u8>) -> (r: Option<usize>)
        ensures
            match r {
                Some(i) => map_has(self@, k@) && i == map_idx(self@, k@) && i < self@.len()
                    && self@[i as int].0@ == k@,
                None => !map_has(self@, k@),
            },
    {
        let n = self.entries.len();
        let mut i: usize = 0;
        loop
            invariant
                0 <= i <= n,
                n == self.entries@.len(),
                forall|m: int| 0 <= m < i ==> self.entries@[m].0@ != k@,
            decreases n - i,
        {
            if i == n {
                proof {
                    lemma_idx_is(self.entries@, k@, 0, n as int);
                }
                return None;
            }
            if crate::ord::bytes_eq(&self.entries[i].0, k) {
                proof {
                    lemma_idx_is(self.entries@, k@, 0, i as int);
                }
                return Some(i);
            }
            i = i + 1;
        }
    }

    /// Removes and returns the entry at index `i`.
    pub fn take_at(&mut self, i: usize) -> (r: (Vec<u8>, V))
        requires
            i < old(self)@.len(),
        ensures
            r == old(self)@[i as int],
            final(self)@ == old(self)@.remove(i as int),
    {
        self.entries.remove(i)
    }

    /// Puts an entry back at index `i`.
    pub fn put_at(&mut self, i: usize, k: Vec<u8>, v: V)
        requires
            i <= old(self)@.len(),
        ensures
            final(self)@ == old(self)@.insert(i as int, (k, v)),
    {
        self.entries.insert(i, (k, v));
    }
}

/// Taking an entry out and putting one with the same key back is an update.
pub proof fn lemma_remove_insert_is_update<V>(s: Seq<(Vec<u8>, V)>, i: int, p: (Vec<u8>, V))
    requires
        0 <= i < s.len(),
    ensures
        s.remove(i).insert(i, p) == s.update(i, p),
{
    let t = s.remove(i).insert(i, p);
    let u = s.update(i, p);
    assert(t.len() == u.len());
    assert forall|m: int| 0 <= m < u.len() implies t[m] == u[m] by {
        if m < i {
            assert(s.remove(i)[m] == s[m]);
        } else if m > i {
            assert(s.remove(i)[m - 1] == s[m]);
        }
    }
    assert(t =~= u);
}

/// The sum of `f` over the values of the entries from index `i` on.
pub open spec fn sum_from<V>(s: Seq<(Vec<u8>, V)>, f: spec_fn(V) -> int, i: int) -> int
    decreases s.len() - i,
{
    if !(0 <= i < s.len()) {
        0
    } else {
        f(s[i].1) + sum_from(s, f, i + 1)
    }
}

/// The sum of `f` over all values of the entry sequence.
pub open spec fn map_sum<V>(s: Seq<(Vec<u8>, V)>, f: spec_fn(V) -> int) -> int {
    sum_from(s, f, 0)
}

proof fn lemma_sum_from_update<V>(s: Seq<(Vec<u8>, V)>, j: int, p: (Vec<u8>, V), f: spec_fn(V) -> int, i: int)
    requires
        0 <= j < s.len(),
        0 <= i,
    ensures
        sum_from(s.update(j, p), f, i) == sum_from(s, f, i) + (if i <= j {
            f(p.1) - f(s[j].1)
        } else {
            0
        }),
    decreases s.len() - i,
{
    if i < s.len() {
        lemma_sum_from_update(s, j, p, f, i + 1);
    }
}

/// Replacing the value at `j` shifts the sum by the difference.
pub proof fn lemma_sum_update<V>(s: Seq<(Vec<u8>, V)>, j: int, p: (Vec<u8>, V), f: spec_fn(V) -> int)
    requires
        0 <= j < s.len(),
    ensures
        map_sum(s.update(j, p), f) == map_sum(s, f) - f(s[j].1) + f(p.1),
{
    lemma_sum_from_update(s, j, p, f, 0);
}

proof fn lemma_sum_from_insert_tail<V>(s: Seq<(Vec<u8>, V)>, j: int, p: (Vec<u8>, V), f: spec_fn(V) -> int, i: int)
    requires
        0 <= j <= s.len(),
        j <= i,
    ensures
        sum_from(s.insert(j, p), f, i + 1) == sum_from(s, f, i),
    decreases s.len() - i,
{
    if i < s.len() {
        lemma_sum_from_insert_tail(s, j, p, f, i + 1);
    }
}

proof fn lemma_sum_from_insert<V>(s: Seq<(Vec<u8>, V)>, j: int, p: (Vec<u8>, V), f: spec_fn(V) -> int, i: int)
    requires
        0 <= i <= j <= s.len(),
    ensures
        sum_from(s.insert(j, p), f, i) == sum_from(s, f, i) + f(p.1),
    decreases j - i,
{
    if i == j {
        lemma_sum_from_insert_tail(s, j, p, f, j);
    } else {
        lemma_sum_from_insert(s, j, p, f, i + 1);
    }
}

/// Inserting an entry adds its value to the sum.
pub proof fn lemma_sum_insert<V>(s: Seq<(Vec<u8>, V)>, j: int, p: (Vec<u8>, V), f: spec_fn(V) -> int)
    requires
        0 <= j <= s.len(),
    ensures
        map_sum(s.insert(j, p), f) == map_sum(s, f) + f(p.1),
{
    lemma_sum_from_insert(s, j, p, f, 0);
}

/// Removing the entry at `j` subtracts its value from the sum.
pub proof fn lemma_sum_remove<V>(s: Seq<(Vec<u8>, V)>, j: int, f: spec_fn(V) -> int)
    requires
        0 <= j < s.len(),
    ensures
        map_sum(s.remove(j), f) == map_sum(s, f) - f(s[j].1),
{
    let s2 = s.remove(j);
    assert(s2.insert(j, s[j]) =~= s);
    lemma_sum_insert(s2, j, s[j], f);
}

} // verus!
