//! A keyed map of `u64` identifiers to values, kept as a vector of entries
//! in insertion order. Each key occurs at most once; inserting an existing
//! key updates its entry in place, so duplicate entries cannot arise. Scans
//! walk the entries in a fixed order, which keeps filtered reads and the
//! pagination built on them deterministic.

use vstd::prelude::*;

verus! {

/// No key occurs twice among the entries.
pub open spec fn distinct_keys<V>(s: Seq<(u64, V)>) -> bool {
    forall|i: int, j: int| 0 <= i < j < s.len() ==> s[i].0 != s[j].0
}

/// Index of the first entry whose key is `k`, or -1 when `k` is absent.
pub open spec fn index_of_key<V>(s: Seq<(u64, V)>, k: u64) -> int
    decreases s.len(),
{
    if s.len() == 0 {
        -1
    } else if s[0].0 == k {
        0
    } else {
        let r = index_of_key(s.drop_first(), k);
        if r == -1 {
            -1
        } else {
            r + 1
        }
    }
}

/// Whether some entry has key `k`.
pub open spec fn has_key<V>(s: Seq<(u64, V)>, k: u64) -> bool {
    index_of_key(s, k) != -1
}

/// The value stored at key `k`.
pub open spec fn value_of<V>(s: Seq<(u64, V)>, k: u64) -> V
    recommends
        has_key(s, k),
{
    s[index_of_key(s, k)].1
}

/// The entries after inserting `(k, v)`: updated in place when `k` is
/// present, appended otherwise.
pub open spec fn km_insert<V>(s: Seq<(u64, V)>, k: u64, v: V) -> Seq<(u64, V)> {
    if has_key(s, k) {
        s.update(index_of_key(s, k), (k, v))
    } else {
        s.push((k, v))
    }
}

/// The entries after removing key `k`; unchanged when `k` is absent.
pub open spec fn km_remove<V>(s: Seq<(u64, V)>, k: u64) -> Seq<(u64, V)> {
    if has_key(s, k) {
        s.remove(index_of_key(s, k))
    } else {
        s
    }
}

/// `index_of_key` points at the first entry with key `k`, when there is one.
pub proof fn lemma_index_of_key<V>(s: Seq<(u64, V)>, k: u64)
    ensures
        index_of_key(s, k) == -1 ==> forall|j: int| 0 <= j < s.len() ==> s[j].0 != k,
        index_of_key(s, k) != -1 ==> {
            &&& 0 <= index_of_key(s, k) < s.len()
            &&& s[index_of_key(s, k)].0 == k
            &&& forall|j: int| 0 <= j < index_of_key(s, k) ==> s[j].0 != k
        },
    decreases s.len(),
{
    if s.len() > 0 && s[0].0 != k {
        let t = s.drop_first();
        lemma_index_of_key(t, k);
        let r = index_of_key(t, k);
        if r == -1 {
            assert forall|j: int| 0 <= j < s.len() implies s[j].0 != k by {
                if j > 0 {
                    assert(t[j - 1] == s[j]);
                }
            }
        } else {
            assert(s[r + 1] == t[r]);
            assert forall|j: int| 0 <= j < r + 1 implies s[j].0 != k by {
                if j > 0 {
                    assert(t[j - 1] == s[j]);
                }
            }
        }
    }
}

/// A first match at position `i` fixes `index_of_key` to `i`.
pub proof fn lemma_index_of_key_first_match<V>(s: Seq<(u64, V)>, k: u64, i: int)
    requires
        0 <= i < s.len(),
        s[i].0 == k,
        forall|j: int| 0 <= j < i ==> s[j].0 != k,
    ensures
        index_of_key(s, k) == i,
    decreases s.len(),
{
    if i > 0 {
        assert(forall|j: int| 0 <= j < s.drop_first().len() ==> s.drop_first()[j] == s[j + 1]);
        lemma_index_of_key_first_match(s.drop_first(), k, i - 1);
    }
}

/// When no entry has key `k`, `index_of_key` is -1.
pub proof fn lemma_index_of_key_none<V>(s: Seq<(u64, V)>, k: u64)
    requires
        forall|j: int| 0 <= j < s.len() ==> s[j].0 != k,
    ensures
        index_of_key(s, k) == -1,
    decreases s.len(),
{
    if s.len() > 0 {
        assert(forall|j: int| 0 <= j < s.drop_first().len() ==> s.drop_first()[j] == s[j + 1]);
        lemma_index_of_key_none(s.drop_first(), k);
    }
}

/// What `km_insert` does to every key: `k` now maps to `v`, all other keys
/// keep their values, and distinctness is preserved.
pub proof fn lemma_km_insert<V>(s: Seq<(u64, V)>, k: u64, v: V)
    requires
        distinct_keys(s),
    ensures
        distinct_keys(km_insert(s, k, v)),
        has_key(km_insert(s, k, v), k),
        value_of(km_insert(s, k, v), k) == v,
        forall|k2: u64| k2 != k ==> has_key(km_insert(s, k, v), k2) == has_key(s, k2),
        forall|k2: u64|
            k2 != k && has_key(s, k2) ==> value_of(km_insert(s, k, v), k2) == value_of(s, k2),
        km_insert(s, k, v).len() == if has_key(s, k) {
            s.len()
        } else {
            s.len() + 1
        },
{
    lemma_index_of_key(s, k);
    let s2 = km_insert(s, k, v);
    if has_key(s, k) {
        let i = index_of_key(s, k);
        assert(forall|j: int| 0 <= j < s2.len() ==> s2[j].0 == s[j].0);
        lemma_index_of_key_first_match(s2, k, i);
        assert forall|k2: u64| k2 != k implies has_key(s2, k2) == has_key(s, k2) && (has_key(
            s,
            k2,
        ) ==> value_of(s2, k2) == value_of(s, k2)) by {
            lemma_index_of_key(s, k2);
            if has_key(s, k2) {
                let i2 = index_of_key(s, k2);
                lemma_index_of_key_first_match(s2, k2, i2);
                assert(i2 != i);
            } else {
                lemma_index_of_key_none(s2, k2);
            }
        }
    } else {
        let n = s.len() as int;
        assert(forall|j: int| 0 <= j < n ==> s2[j] == s[j]);
        lemma_index_of_key_first_match(s2, k, n);
        assert forall|k2: u64| k2 != k implies has_key(s2, k2) == has_key(s, k2) && (has_key(
            s,
            k2,
        ) ==> value_of(s2, k2) == value_of(s, k2)) by {
            lemma_index_of_key(s, k2);
            if has_key(s, k2) {
                let i2 = index_of_key(s, k2);
                lemma_index_of_key_first_match(s2, k2, i2);
            } else {
                lemma_index_of_key_none(s2, k2);
            }
        }
    }
}

/// What `km_remove` does to every key: `k` is gone, all other keys keep
/// their values, and distinctness is preserved.
pub proof fn lemma_km_remove<V>(s: Seq<(u64, V)>, k: u64)
    requires
        distinct_keys(s),
    ensures
        distinct_keys(km_remove(s, k)),
        !has_key(km_remove(s, k), k),
        forall|k2: u64| k2 != k ==> has_key(km_remove(s, k), k2) == has_key(s, k2),
        forall|k2: u64|
            k2 != k && has_key(s, k2) ==> value_of(km_remove(s, k), k2) == value_of(s, k2),
        km_remove(s, k).len() == if has_key(s, k) {
            s.len() - 1
        } else {
            s.len() as int
        },
{
    lemma_index_of_key(s, k);
    let s2 = km_remove(s, k);
    if has_key(s, k) {
        let i = index_of_key(s, k);
        assert(forall|j: int| 0 <= j < i ==> s2[j] == s[j]);
        assert(forall|j: int| i <= j < s2.len() ==> s2[j] == s[j + 1]);
        assert forall|j: int| 0 <= j < s2.len() implies s2[j].0 != k by {
            if j >= i {
                assert(s[j + 1].0 != s[i].0);
            }
        }
        lemma_index_of_key_none(s2, k);
        assert forall|k2: u64| k2 != k implies has_key(s2, k2) == has_key(s, k2) && (has_key(
            s,
            k2,
        ) ==> value_of(s2, k2) == value_of(s, k2)) by {
            lemma_index_of_key(s, k2);
            if has_key(s, k2) {
                let i2 = index_of_key(s, k2);
                assert(i2 != i);
                if i2 < i {
                    lemma_index_of_key_first_match(s2, k2, i2);
                } else {
                    assert(s2[i2 - 1] == s[i2]);
                    assert forall|j: int| 0 <= j < i2 - 1 implies s2[j].0 != k2 by {
                        if j < i {
                            assert(s2[j] == s[j]);
                        } else {
                            assert(s2[j] == s[j + 1]);
                        }
                    }
                    lemma_index_of_key_first_match(s2, k2, i2 - 1);
                }
            } else {
                assert forall|j: int| 0 <= j < s2.len() implies s2[j].0 != k2 by {
                    if j < i {
                        assert(s2[j] == s[j]);
                    } else {
                        assert(s2[j] == s[j + 1]);
                    }
                }
                lemma_index_of_key_none(s2, k2);
            }
        }
    }
}

/// The keyed map: a vector of `(key, value)` entries with distinct keys.
pub struct KeyMap<V> {
    entries: Vec<(u64, V)>,
}

impl<V> View for KeyMap<V> {
    type V = Seq<(u64, V)>;

    closed spec fn view(&self) -> Seq<(u64, V)> {
        self.entries@
    }
}

impl<V> KeyMap<V> {
    /// The keys are distinct; every operation preserves this.
    pub open spec fn wf(&self) -> bool {
        distinct_keys(self@)
    }

    pub fn new() -> (r: Self)
        ensures
            r@ == Seq::<(u64, V)>::empty(),
            r.wf(),
    {
        KeyMap { entries: Vec::new() }
    }

    pub fn len(&self) -> (n: usize)
        ensures
            n == self@.len(),
    {
        self.entries.len()
    }

    /// A borrow of the entry at position `i` in insertion order.
    pub fn entry_at(&self, i: usize) -> (r: &(u64, V))
        requires
            i < self@.len(),
        ensures
            *r == self@[i as int],
    {
        &self.entries[i]
    }

    /// Position of the entry with key `k`, when there is one.
    pub fn index_of(&self, k: u64) -> (r: Option<usize>)
        ensures
            match r {
                Some(i) => index_of_key(self@, k) == i as int,
                None => !has_key(self@, k),
            },
    {
        let n = self.entries.len();
        let mut i: usize = 0;
        while i < n
            invariant
                i <= n,
                n == self@.len(),
                forall|j: int| 0 <= j < i ==> self@[j].0 != k,
            decreases n - i,
        {
            if self.entries[i].0 == k {
                proof {
                    lemma_index_of_key_first_match(self@, k, i as int);
                }
                return Some(i);
            }
            i = i + 1;
        }
        proof {
            lemma_index_of_key_none(self@, k);
        }
        None
    }

    pub fn contains_key(&self, k: u64) -> (r: bool)
        ensures
            r == has_key(self@, k),
    {
        self.index_of(k).is_some()
    }

    /// A borrow of the value at key `k`, when there is one.
    pub fn get(&self, k: u64) -> (r: Option<&V>)
        ensures
            match r {
                Some(v) => has_key(self@, k) && *v == value_of(self@, k),
                None => !has_key(self@, k),
            },
    {
        match self.index_of(k) {
            Some(i) => {
                proof {
                    lemma_index_of_key(self@, k);
                }
                Some(&self.entries[i].1)
            },
            None => None,
        }
    }

    /// Insert `(k, v)`: update in place when `k` is present, append
    /// otherwise.
    pub fn insert(&mut self, k: u64, v: V)
        requires
            old(self).wf(),
        ensures
            final(self)@ == km_insert(old(self)@, k, v),
            final(self).wf(),
    {
        proof {
            lemma_km_insert(self@, k, v);
        }
        match self.index_of(k) {
            Some(i) => {
                proof {
                    lemma_index_of_key(self@, k);
                }
                self.entries.set(i, (k, v));
            },
            None => {
                self.entries.push((k, v));
            },
        }
    }

    /// A copy of the entries, for value types that can be copied.
    pub fn duplicate(&self) -> (r: Self) where V: Copy
        ensures
            r@ == self@,
    {
        let n = self.entries.len();
        let mut v: Vec<(u64, V)> = Vec::new();
        let mut i: usize = 0;
        while i < n
            invariant
                i <= n,
                n == self@.len(),
                v@ == self@.take(i as int),
            decreases n - i,
        {
            v.push(self.entries[i]);
            proof {
                assert(self@.take(i + 1 as int) =~= self@.take(i as int).push(self@[i as int]));
            }
            i = i + 1;
        }
        proof {
            assert(self@.take(n as int) =~= self@);
        }
        KeyMap { entries: v }
    }

    /// Remove the entry with key `k`; a no-op when `k` is absent.
    pub fn remove(&mut self, k: u64)
        requires
            old(self).wf(),
        ensures
            final(self)@ == km_remove(old(self)@, k),
            final(self).wf(),
    {
        proof {
            lemma_km_remove(self@, k);
        }
        match self.index_of(k) {
            Some(i) => {
                proof {
                    lemma_index_of_key(self@, k);
                }
                self.entries.remove(i);
            },
            None => {},
        }
    }
}

} // verus!
