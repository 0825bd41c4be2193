use vstd::prelude::*;

use crate::types::Key;

verus! {

/// A finite map held as two parallel vectors of keys and values, with no
/// key repeated.
pub struct Table<K, V> {
    keys: Vec<K>,
    vals: Vec<V>,
}

impl<K: Key, V> Table<K, V> {
    pub closed spec fn wf(&self) -> bool {
        &&& self.keys@.len() == self.vals@.len()
        &&& self.keys@.no_duplicates()
    }

    /// The position of a key that the table holds.
    pub closed spec fn index_of(&self, k: K) -> int {
        self.keys@.index_of(k)
    }

    /// The map that the table holds.
    pub closed spec fn view(&self) -> Map<K, V> {
        Map::new(|k: K| self.keys@.contains(k), |k: K| self.vals@[self.index_of(k)])
    }

    proof fn lemma_index(&self, i: int)
        requires
            self.wf(),
            0 <= i < self.keys@.len(),
        ensures
            self.index_of(self.keys@[i]) == i,
            self@.contains_key(self.keys@[i]),
            self@[self.keys@[i]] == self.vals@[i],
    {
        let k = self.keys@[i];
        assert(self.keys@.contains(k));
        let j = self.index_of(k);
        assert(0 <= j < self.keys@.len() && self.keys@[j] == k);
    }

    /// An empty table.
    pub fn new() -> (r: Self)
        ensures
            r.wf(),
            r@ == Map::<K, V>::empty(),
    {
        let r = Table { keys: Vec::new(), vals: Vec::new() };
        assert(r@ =~= Map::<K, V>::empty());
        r
    }

    /// The number of keys held.
    pub fn len(&self) -> (r: usize)
        requires
            self.wf(),
        ensures
            r == self@.len(),
    {
        proof {
            self.keys@.unique_seq_to_set();
            assert(self@.dom() =~= self.keys@.to_set());
        }
        self.keys.len()
    }

    /// The position of `k`, if the table holds it.
    fn find(&self, k: &K) -> (r: Option<usize>)
        requires
            self.wf(),
        ensures
            match r {
                Some(i) => i < self.keys@.len() && self.keys@[i as int] == *k,
                None => !self@.contains_key(*k),
            },
    {
        let mut i: usize = 0;
        while i < self.keys.len()
            invariant
                self.wf(),
                i <= self.keys@.len(),
                forall|j: int| 0 <= j < i ==> self.keys@[j] != *k,
            decreases self.keys@.len() - i,
        {
            if self.keys[i].same(k) {
                return Some(i);
            }
            i = i + 1;
        }
        None
    }

    /// The value held for `k`, if any.
    pub fn get(&self, k: &K) -> (r: Option<&V>)
        requires
            self.wf(),
        ensures
            match r {
                Some(v) => self@.contains_key(*k) && *v == self@[*k],
                None => !self@.contains_key(*k),
            },
    {
        match self.find(k) {
            Some(i) => {
                proof {
                    self.lemma_index(i as int);
                }
                Some(&self.vals[i])
            },
            None => None,
        }
    }

    /// Whether the table holds `k`.
    pub fn contains_key(&self, k: &K) -> (r: bool)
        requires
            self.wf(),
        ensures
            r == self@.contains_key(*k),
    {
        match self.find(k) {
            Some(i) => {
                proof {
                    self.lemma_index(i as int);
                }
                true
            },
            None => false,
        }
    }

    /// Takes the value held for `k` out of the table.
    pub fn remove(&mut self, k: &K) -> (r: Option<V>)
        requires
            old(self).wf(),
        ensures
            final(self).wf(),
            final(self)@ == old(self)@.remove(*k),
            match r {
                Some(v) => old(self)@.contains_key(*k) && v == old(self)@[*k],
                None => !old(self)@.contains_key(*k),
            },
    {
        match self.find(k) {
            Some(i) => {
                proof {
                    self.lemma_index(i as int);
                }
                let ghost pre = *self;
                let _ = self.keys.swap_remove(i);
                let v = self.vals.swap_remove(i);
                proof {
                    let n = pre.keys@.len();
                    assert forall|a: int, b: int|
                        0 <= a < self.keys@.len() && 0 <= b < self.keys@.len() && a != b
                    implies self.keys@[a] != self.keys@[b] by {
                        let pa = if a == i { n - 1 } else { a };
                        let pb = if b == i { n - 1 } else { b };
                        assert(self.keys@[a] == pre.keys@[pa]);
                        assert(self.keys@[b] == pre.keys@[pb]);
                    }
                    assert forall|x: K| #[trigger] self@.contains_key(x) == pre@.remove(*k).contains_key(x)
                    by {
                        if self.keys@.contains(x) {
                            let a = choose|a: int| 0 <= a < self.keys@.len() && self.keys@[a] == x;
                            let pa = if a == i { n - 1 } else { a };
                            assert(pre.keys@[pa] == x);
                            assert(x != *k);
                        }
                        if pre.keys@.contains(x) && x != *k {
                            let p = choose|p: int| 0 <= p < n && pre.keys@[p] == x;
                            assert(p != i);
                            let a = if p == n - 1 { i as int } else { p };
                            assert(self.keys@[a] == x);
                        }
                    }
                    assert forall|x: K| #[trigger] self@.contains_key(x)
                    implies self@[x] == pre@[x] by {
                        let a = self.index_of(x);
                        self.lemma_index(a);
                        let pa = if a == i { n - 1 } else { a };
                        pre.lemma_index(pa);
                    }
                    assert(self@ =~= pre@.remove(*k));
                }
                Some(v)
            },
            None => {
                assert(self@.remove(*k) =~= self@);
                None
            },
        }
    }

    /// Holds `v` for `k`, replacing what was held before.
    pub fn insert(&mut self, k: K, v: V)
        requires
            old(self).wf(),
        ensures
            final(self).wf(),
            final(self)@ == old(self)@.insert(k, v),
    {
        let _ = self.remove(&k);
        let ghost mid = *self;
        self.keys.push(k);
        self.vals.push(v);
        proof {
            let n = mid.keys@.len();
            assert(!mid@.contains_key(k));
            assert(self.keys@[n as int] == k);
            assert forall|a: int, b: int|
                0 <= a < self.keys@.len() && 0 <= b < self.keys@.len() && a != b
            implies self.keys@[a] != self.keys@[b] by {
                if a < n && b < n {
                    assert(self.keys@[a] == mid.keys@[a]);
                    assert(self.keys@[b] == mid.keys@[b]);
                } else if a < n {
                    assert(self.keys@[a] == mid.keys@[a]);
                    assert(mid.keys@.contains(mid.keys@[a]));
                } else {
                    assert(self.keys@[b] == mid.keys@[b]);
                    assert(mid.keys@.contains(mid.keys@[b]));
                }
            }
            assert forall|x: K| #[trigger] self@.contains_key(x) == mid@.insert(k, v).contains_key(x)
            by {
                if self.keys@.contains(x) && x != k {
                    let a = choose|a: int| 0 <= a < self.keys@.len() && self.keys@[a] == x;
                    assert(a < n);
                    assert(mid.keys@[a] == x);
                }
                if mid.keys@.contains(x) {
                    let p = choose|p: int| 0 <= p < n && mid.keys@[p] == x;
                    assert(self.keys@[p] == x);
                }
            }
            assert forall|x: K| #[trigger] self@.contains_key(x)
            implies self@[x] == mid@.insert(k, v)[x] by {
                let a = self.index_of(x);
                self.lemma_index(a);
                if a < n {
                    mid.lemma_index(a);
                }
            }
            assert(self@ =~= mid@.insert(k, v));
        }
    }

    /// The keys held, in the table's order.
    pub fn keys(&self) -> (r: Vec<K>)
        requires
            self.wf(),
        ensures
            r@.to_set() == self@.dom(),
            r@.no_duplicates(),
            r@.len() == self@.len(),
    {
        let mut out: Vec<K> = Vec::new();
        let mut i: usize = 0;
        while i < self.keys.len()
            invariant
                self.wf(),
                i <= self.keys@.len(),
                out@ == self.keys@.subrange(0, i as int),
            decreases self.keys@.len() - i,
        {
            out.push(self.keys[i]);
            i = i + 1;
            assert(out@ =~= self.keys@.subrange(0, i as int));
        }
        proof {
            assert(out@ =~= self.keys@);
            self.keys@.unique_seq_to_set();
            assert(self@.dom() =~= self.keys@.to_set());
        }
        out
    }
}

} // verus!
