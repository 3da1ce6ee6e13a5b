use vstd::prelude::*;

verus! {

/// A sparse set from `u32` keys to values: `sparse` maps a key to its
/// position in the packed `dense`/`values` arrays, so lookups, inserts and
/// removals take constant time and iteration walks only the live entries.
#[derive(Debug, Clone)]
pub struct SparseSet<V> {
    dense: Vec<u32>,
    sparse: Vec<Option<usize>>,
    values: Vec<V>,
}

/// `dense` and `sparse` point at each other, and there is one value per
/// packed key.
pub open spec fn parts_wf(dense: Seq<u32>, sparse: Seq<Option<usize>>, n_values: nat) -> bool {
    &&& dense.len() == n_values
    &&& forall|p: int|
        0 <= p < dense.len() ==> {
            &&& (#[trigger] dense[p] as int) < sparse.len()
            &&& sparse[dense[p] as int] == Some(p as usize)
        }
    &&& forall|k: int|
        0 <= k < sparse.len() && (#[trigger] sparse[k]) is Some ==> {
            &&& (sparse[k].unwrap() as int) < dense.len()
            &&& dense[sparse[k].unwrap() as int] as int == k
        }
}

impl<V> View for SparseSet<V> {
    type V = Map<u32, V>;

    closed spec fn view(&self) -> Map<u32, V> {
        Map::new(
            |k: u32| (k as int) < self.sparse@.len() && self.sparse@[k as int] is Some,
            |k: u32| self.values@[self.sparse@[k as int].unwrap() as int],
        )
    }
}

impl<V> SparseSet<V> {
    /// The packed entries, in the order that iteration yields them.
    pub closed spec fn entries(&self) -> Seq<(u32, V)> {
        Seq::new(self.dense@.len(), |p: int| (self.dense@[p], self.values@[p]))
    }

    /// The packed keys, in order.
    pub closed spec fn dense_keys(&self) -> Seq<u32> {
        self.dense@
    }

    /// For each key below its length, the key's packed position if present.
    pub closed spec fn sparse_index(&self) -> Seq<Option<usize>> {
        self.sparse@
    }

    /// The packed values, in order.
    pub closed spec fn dense_values(&self) -> Seq<V> {
        self.values@
    }

    pub closed spec fn wf(&self) -> bool {
        parts_wf(self.dense@, self.sparse@, self.values@.len())
    }

    /// The packed entries hold each key of the map once, with its value.
    pub proof fn lemma_entries_match(&self)
        requires
            self.wf(),
        ensures
            self.entries().len() == self@.len(),
            self@.dom().finite(),
            forall|p: int|
                0 <= p < self.entries().len() ==> #[trigger] self@.contains_key(self.entries()[p].0)
                    && self@[self.entries()[p].0] == self.entries()[p].1,
            forall|k: u32|
                #[trigger] self@.contains_key(k) ==> exists|p: int|
                    0 <= p < self.entries().len() && self.entries()[p].0 == k,
            forall|p: int, q: int|
                0 <= p < self.entries().len() && 0 <= q < self.entries().len() && p != q
                    ==> #[trigger] self.entries()[p].0 != #[trigger] self.entries()[q].0,
    {
        let d = self.dense@;
        assert(self.dense.len() == d.len());
        assert forall|p: int, q: int| 0 <= p < d.len() && 0 <= q < d.len() && p != q implies d[p]
            != d[q] by {
            assert(self.sparse@[d[p] as int] == Some(p as usize));
            assert(self.sparse@[d[q] as int] == Some(q as usize));
        }
        assert(d.no_duplicates());
        d.unique_seq_to_set();
        assert forall|k: u32| #[trigger] self@.dom().contains(k) implies d.to_set().contains(k) by {
            let p = self.sparse@[k as int].unwrap() as int;
            assert(d[p] == k);
        }
        assert forall|k: u32| d.to_set().contains(k) implies #[trigger] self@.dom().contains(k) by {
            let p = choose|p: int| 0 <= p < d.len() && d[p] == k;
            assert(self.sparse@[d[p] as int] == Some(p as usize));
        }
        assert(self@.dom() =~= d.to_set());
        assert forall|k: u32| #[trigger] self@.contains_key(k) implies exists|p: int|
            0 <= p < self.entries().len() && self.entries()[p].0 == k by {
            let p = self.sparse@[k as int].unwrap() as int;
            assert(self.entries()[p].0 == k);
        }
        assert forall|p: int| 0 <= p < self.entries().len() implies #[trigger] self@.contains_key(
            self.entries()[p].0,
        ) && self@[self.entries()[p].0] == self.entries()[p].1 by {
            assert(self.sparse@[d[p] as int] == Some(p as usize));
        }
    }
}

impl<V: Copy> SparseSet<V> {
    pub fn new() -> (r: Self)
        ensures
            r.wf(),
            r@ == Map::<u32, V>::empty(),
            r.entries() == Seq::<(u32, V)>::empty(),
    {
        let r = SparseSet { dense: Vec::new(), sparse: Vec::new(), values: Vec::new() };
        assert(r@ =~= Map::<u32, V>::empty());
        assert(r.entries() =~= Seq::<(u32, V)>::empty());
        r
    }

    /// Sets the value of `index`. A new key is appended to the packed
    /// entries; an existing one keeps its place.
    pub fn insert(&mut self, index: u32, value: V)
        requires
            old(self).wf(),
        ensures
            final(self).wf(),
            final(self)@ == old(self)@.insert(index, value),
            !old(self)@.contains_key(index) ==> final(self).entries() == old(self).entries().push(
                (index, value),
            ),
            old(self)@.contains_key(index) ==> exists|p: int|
                0 <= p < old(self).entries().len() && old(self).entries()[p].0 == index
                    && final(self).entries() == old(self).entries().update(p, (index, value)),
            final(self).sparse_index().len() == if (index as int) < old(self).sparse_index().len() {
                old(self).sparse_index().len() as int
            } else {
                index + 1
            },
            forall|k: int|
                0 <= k < final(self).sparse_index().len() ==> #[trigger] final(self).sparse_index()[k]
                    == if k == index {
                    if old(self)@.contains_key(index) {
                        old(self).sparse_index()[k]
                    } else {
                        Some(old(self).entries().len() as usize)
                    }
                } else if k < old(self).sparse_index().len() {
                    old(self).sparse_index()[k]
                } else {
                    None::<usize>
                },
    {
        let idx = index as usize;
        let ghost old_view = self@;
        let ghost old_entries = self.entries();
        let ghost old_sparse = self.sparse@;
        while self.sparse.len() <= idx
            invariant
                self.wf(),
                self@ == old_view,
                self.entries() == old_entries,
                old_sparse.len() <= self.sparse@.len(),
                self.sparse@.len() <= if (idx as int) < old_sparse.len() {
                    old_sparse.len() as int
                } else {
                    idx + 1
                },
                forall|k: int|
                    0 <= k < self.sparse@.len() ==> #[trigger] self.sparse@[k] == if k < old_sparse.len() {
                        old_sparse[k]
                    } else {
                        None::<usize>
                    },
            decreases idx + 1 - self.sparse@.len(),
        {
            let ghost pre = *self;
            self.sparse.push(None);
            proof {
                assert(self@ =~= pre@);
                assert(self.entries() =~= pre.entries());
            }
        }
        match self.sparse[idx] {
            Some(pos) => {
                let ghost pre = *self;
                self.values.set(pos, value);
                proof {
                    assert(self@ =~= old_view.insert(index, value));
                    assert(self.entries() =~= old_entries.update(pos as int, (index, value)));
                    assert(old_entries[pos as int].0 == index);
                }
            },
            None => {
                let ghost pre = *self;
                let pos = self.dense.len();
                self.sparse.set(idx, Some(pos));
                self.dense.push(index);
                self.values.push(value);
                proof {
                    assert forall|p: int|
                        0 <= p < self.dense@.len() implies {
                            &&& (#[trigger] self.dense@[p] as int) < self.sparse@.len()
                            &&& self.sparse@[self.dense@[p] as int] == Some(p as usize)
                        } by {
                        if p < pos {
                            assert(pre.dense@[p] == self.dense@[p]);
                            assert(pre.sparse@[pre.dense@[p] as int] == Some(p as usize));
                        }
                    }
                    assert(self@ =~= old_view.insert(index, value));
                    assert(self.entries() =~= old_entries.push((index, value)));
                }
            },
        }
    }

    /// Removes `index`; returns whether it was present. The last packed entry
    /// moves into the hole that the removed one leaves.
    pub fn remove(&mut self, index: u32) -> (r: bool)
        requires
            old(self).wf(),
        ensures
            final(self).wf(),
            r == old(self)@.contains_key(index),
            final(self)@ == old(self)@.remove(index),
            !r ==> final(self).entries() == old(self).entries(),
            r ==> exists|p: int|
                0 <= p < old(self).entries().len() && old(self).entries()[p].0 == index
                    && final(self).entries() == old(self).entries().update(
                    p,
                    old(self).entries().last(),
                ).drop_last() && final(self).sparse_index() == old(self).sparse_index().update(
                    old(self).entries().last().0 as int,
                    Some(p as usize),
                ).update(index as int, None),
            !r ==> final(self).sparse_index() == old(self).sparse_index(),
    {
        let idx = index as usize;
        if idx >= self.sparse.len() {
            proof {
                assert(self@ =~= self@.remove(index));
            }
            return false;
        }
        match self.sparse[idx] {
            None => {
                proof {
                    assert(self@ =~= self@.remove(index));
                }
                false
            },
            Some(pos) => {
                let ghost pre = *self;
                let last = self.dense.len() - 1;
                if pos != last {
                    let last_key = self.dense[last];
                    let last_idx = last_key as usize;
                    let last_value = self.values[last];
                    self.dense.set(pos, last_key);
                    self.values.set(pos, last_value);
                    self.sparse.set(last_idx, Some(pos));
                }
                self.dense.pop();
                self.values.pop();
                self.sparse.set(idx, None);
                proof {
                    let d0 = pre.dense@;
                    assert(d0[pos as int] == index);
                    assert(pre.sparse@[d0[last as int] as int] == Some(last));
                    assert forall|p: int|
                        0 <= p < self.dense@.len() implies {
                            &&& (#[trigger] self.dense@[p] as int) < self.sparse@.len()
                            &&& self.sparse@[self.dense@[p] as int] == Some(p as usize)
                        } by {
                        if p != pos {
                            assert(pre.sparse@[d0[p] as int] == Some(p as usize));
                            assert(d0[p] != index);
                            assert(d0[p] != d0[last as int]);
                        } else {
                            assert(d0[last as int] != index);
                        }
                    }
                    assert forall|k: int|
                        0 <= k < self.sparse@.len() && (#[trigger] self.sparse@[k]) is Some implies {
                            &&& (self.sparse@[k].unwrap() as int) < self.dense@.len()
                            &&& self.dense@[self.sparse@[k].unwrap() as int] as int == k
                        } by {
                        if k != d0[last as int] as int {
                            let q = pre.sparse@[k].unwrap() as int;
                            assert(d0[q] as int == k);
                            assert(q != last as int);
                            assert(q != pos as int);
                        }
                    }
                    assert(self@ =~= pre@.remove(index)) by {
                        assert forall|k: u32| #[trigger] self@.contains_key(k) implies pre@.contains_key(
                            k,
                        ) && k != index && self@[k] == pre@[k] by {
                            if k != d0[last as int] {
                                let q = pre.sparse@[k as int].unwrap() as int;
                                assert(d0[q] == k);
                            }
                        }
                        assert forall|k: u32|
                            #[trigger] pre@.contains_key(k) && k != index implies self@.contains_key(
                                k,
                            ) by {
                            let q = pre.sparse@[k as int].unwrap() as int;
                            assert(d0[q] == k);
                        }
                    }
                    assert(self.entries() =~= pre.entries().update(
                        pos as int,
                        pre.entries().last(),
                    ).drop_last());
                    assert(pre.entries()[pos as int].0 == index);
                    assert(self.sparse@ =~= pre.sparse@.update(
                        pre.entries().last().0 as int,
                        Some(pos),
                    ).update(index as int, None));
                }
                true
            },
        }
    }

    /// The value stored under `index`, if any.
    pub fn get(&self, index: u32) -> (r: Option<V>)
        requires
            self.wf(),
        ensures
            r == (if self@.contains_key(index) {
                Some(self@[index])
            } else {
                None::<V>
            }),
    {
        let idx = index as usize;
        if idx >= self.sparse.len() {
            return None;
        }
        match self.sparse[idx] {
            Some(pos) => Some(self.values[pos]),
            None => None,
        }
    }

    /// A mutable reference to the value stored under `index`, if any.
    pub fn get_mut(&mut self, index: u32) -> (r: Option<&mut V>)
        requires
            old(self).wf(),
        ensures
            r is Some == old(self)@.contains_key(index),
            r is Some ==> *r.unwrap() == old(self)@[index],
            r is Some ==> final(self).wf(),
            r is Some ==> final(self)@ == old(self)@.insert(index, *final(r.unwrap())),
            r is Some ==> final(self).entries().len() == old(self).entries().len(),
            r is Some ==> forall|p: int|
                0 <= p < old(self).entries().len() ==> #[trigger] final(self).entries()[p] == (if old(
                    self,
                ).entries()[p].0 == index {
                    (index, *final(r.unwrap()))
                } else {
                    old(self).entries()[p]
                }),
            r is Some ==> final(self).sparse_index() == old(self).sparse_index(),
            r is None ==> *final(self) == *old(self),
    {
        let idx = index as usize;
        if idx >= self.sparse.len() {
            return None;
        }
        match self.sparse[idx] {
            Some(pos) => {
                proof {
                    assert forall|p: int|
                        0 <= p < self.dense@.len() && #[trigger] self.dense@[p] == index implies p
                        == pos by {
                        assert(self.sparse@[self.dense@[p] as int] == Some(p as usize));
                        assert(self.dense.len() == self.dense@.len());
                    }
                }
                Some(&mut self.values[pos])
            },
            None => None,
        }
    }

    pub fn contains(&self, index: u32) -> (r: bool)
        requires
            self.wf(),
        ensures
            r == self@.contains_key(index),
    {
        let idx = index as usize;
        idx < self.sparse.len() && self.sparse[idx].is_some()
    }

    pub fn len(&self) -> (r: usize)
        requires
            self.wf(),
        ensures
            r == self@.len(),
            r == self.entries().len(),
    {
        proof {
            self.lemma_entries_match();
        }
        self.dense.len()
    }

    pub fn is_empty(&self) -> (r: bool)
        requires
            self.wf(),
        ensures
            r == (self@.len() == 0),
    {
        proof {
            self.lemma_entries_match();
        }
        self.dense.len() == 0
    }

    /// The entries as `(key, value)` pairs, in packed order.
    pub fn iter(&self) -> (r: Vec<(u32, V)>)
        requires
            self.wf(),
        ensures
            r@ == self.entries(),
            r@.len() == self@.len(),
            forall|p: int|
                0 <= p < r@.len() ==> #[trigger] self@.contains_key(r@[p].0) && self@[r@[p].0]
                    == r@[p].1,
            forall|p: int, q: int|
                0 <= p < r@.len() && 0 <= q < r@.len() && p != q ==> #[trigger] r@[p].0
                    != #[trigger] r@[q].0,
    {
        proof {
            self.lemma_entries_match();
        }
        let mut r: Vec<(u32, V)> = Vec::new();
        let mut i: usize = 0;
        while i < self.dense.len()
            invariant
                self.wf(),
                i <= self.dense@.len(),
                r@ == self.entries().take(i as int),
            decreases self.dense@.len() - i,
        {
            r.push((self.dense[i], self.values[i]));
            i = i + 1;
            assert(r@ =~= self.entries().take(i as int));
        }
        assert(r@ =~= self.entries());
        r
    }

    /// Removes every entry.
    pub fn clear(&mut self)
        requires
            old(self).wf(),
        ensures
            final(self).wf(),
            final(self)@ == Map::<u32, V>::empty(),
            final(self).entries() == Seq::<(u32, V)>::empty(),
            final(self).sparse_index() == Seq::new(
                old(self).sparse_index().len(),
                |k: int| None::<usize>,
            ),
    {
        let ghost n = self.sparse@.len();
        let mut j: usize = 0;
        while j < self.dense.len()
            invariant
                j <= self.dense@.len(),
                self.dense@.len() == self.values@.len(),
                forall|p: int|
                    j <= p < self.dense@.len() ==> {
                        &&& (#[trigger] self.dense@[p] as int) < self.sparse@.len()
                        &&& self.sparse@[self.dense@[p] as int] == Some(p as usize)
                    },
                forall|p: int| 0 <= p < j ==> (#[trigger] self.dense@[p] as int) < self.sparse@.len(),
                self.sparse@.len() == n,
                forall|k: int|
                    0 <= k < self.sparse@.len() && (#[trigger] self.sparse@[k]) is Some ==> {
                        &&& j <= (self.sparse@[k].unwrap() as int) < self.dense@.len()
                        &&& self.dense@[self.sparse@[k].unwrap() as int] as int == k
                    },
            decreases self.dense@.len() - j,
        {
            let i = self.dense[j] as usize;
            let ghost pre = self.sparse@;
            self.sparse.set(i, None);
            proof {
                assert forall|k: int|
                    0 <= k < self.sparse@.len() && (#[trigger] self.sparse@[k]) is Some implies {
                        &&& j + 1 <= (self.sparse@[k].unwrap() as int) < self.dense@.len()
                        &&& self.dense@[self.sparse@[k].unwrap() as int] as int == k
                    } by {
                    assert(pre[k] is Some);
                    if pre[k].unwrap() == j {
                        assert(self.dense@[j as int] as int == k);
                    }
                }
                assert forall|p: int|
                    j + 1 <= p < self.dense@.len() implies self.sparse@[self.dense@[p] as int] == Some(
                        p as usize,
                    ) by {
                    assert(pre[self.dense@[p] as int] == Some(p as usize));
                    if self.dense@[p] as usize == i {
                        assert(pre[i as int] == Some(j));
                    }
                }
            }
            j = j + 1;
        }
        self.dense.clear();
        self.values.clear();
        assert(self.sparse@ =~= Seq::new(n, |k: int| None::<usize>));
        assert(self@ =~= Map::<u32, V>::empty());
        assert(self.entries() =~= Seq::<(u32, V)>::empty());
    }
}

impl<V> SparseSet<V> {
    /// The three arrays the set is made of: packed keys, key positions and
    /// packed values.
    pub fn parts(&self) -> (r: (&Vec<u32>, &Vec<Option<usize>>, &Vec<V>))
        ensures
            r.0@ == self.dense_keys(),
            r.1@ == self.sparse_index(),
            r.2@ == self.dense_values(),
    {
        (&self.dense, &self.sparse, &self.values)
    }

    /// Rebuilds a set from its three arrays; `None` when they do not point at
    /// each other as a set's arrays do.
    pub fn from_parts(dense: Vec<u32>, sparse: Vec<Option<usize>>, values: Vec<V>) -> (r: Option<
        Self,
    >)
        ensures
            r is Some == parts_wf(dense@, sparse@, values@.len()),
            r matches Some(set) ==> {
                &&& set.wf()
                &&& set.dense_keys() == dense@
                &&& set.sparse_index() == sparse@
                &&& set.dense_values() == values@
            },
    {
        if dense.len() != values.len() {
            return None;
        }
        let mut p: usize = 0;
        while p < dense.len()
            invariant
                p <= dense@.len(),
                forall|q: int|
                    0 <= q < p ==> {
                        &&& (#[trigger] dense@[q] as int) < sparse@.len()
                        &&& sparse@[dense@[q] as int] == Some(q as usize)
                    },
            decreases dense@.len() - p,
        {
            let k = dense[p] as usize;
            if k >= sparse.len() {
                return None;
            }
            match sparse[k] {
                Some(q) => {
                    if q != p {
                        return None;
                    }
                },
                None => {
                    return None;
                },
            }
            p = p + 1;
        }
        let mut k: usize = 0;
        while k < sparse.len()
            invariant
                k <= sparse@.len(),
                forall|j: int|
                    0 <= j < k && (#[trigger] sparse@[j]) is Some ==> {
                        &&& (sparse@[j].unwrap() as int) < dense@.len()
                        &&& dense@[sparse@[j].unwrap() as int] as int == j
                    },
            decreases sparse@.len() - k,
        {
            match sparse[k] {
                Some(q) => {
                    if q >= dense.len() || dense[q] as usize != k {
                        return None;
                    }
                },
                None => {},
            }
            k = k + 1;
        }
        Some(SparseSet { dense, sparse, values })
    }
}

impl<V: Copy> Default for SparseSet<V> {
    fn default() -> (r: Self)
        ensures
            r.wf(),
            r@ == Map::<u32, V>::empty(),
            r.entries() == Seq::<(u32, V)>::empty(),
    {
        Self::new()
    }
}

impl<V> SparseSet<V> {
    /// What `insert` wrote is what a read then gives back; every other key
    /// keeps what it had.
    pub proof fn lemma_get_after_insert(pre: Self, index: u32, value: V, post: Self, other: u32)
        requires
            post@ == pre@.insert(index, value),
            other != index,
        ensures
            post@.contains_key(index),
            post@[index] == value,
            post@.contains_key(other) == pre@.contains_key(other),
            pre@.contains_key(other) ==> post@[other] == pre@[other],
    {
    }

    /// `insert` grows the set by one for a new key and keeps its size when
    /// it overwrites.
    pub proof fn lemma_len_after_insert(pre: Self, index: u32, value: V, post: Self)
        requires
            pre.wf(),
            post.wf(),
            post@ == pre@.insert(index, value),
        ensures
            post@.len() == pre@.len() + (if pre@.contains_key(index) { 0int } else { 1int }),
    {
        pre.lemma_entries_match();
        post.lemma_entries_match();
        if pre@.contains_key(index) {
            assert(pre@.dom().insert(index) =~= pre@.dom());
        }
    }

    /// After `remove`, the key is absent, so a second `remove` of it answers
    /// `false`; every other key keeps what it had.
    pub proof fn lemma_absent_after_remove(pre: Self, index: u32, post: Self, other: u32)
        requires
            post@ == pre@.remove(index),
            other != index,
        ensures
            !post@.contains_key(index),
            post@.contains_key(other) == pre@.contains_key(other),
            pre@.contains_key(other) ==> post@[other] == pre@[other],
    {
    }

    /// `remove` shrinks the set by one exactly when the key was present.
    pub proof fn lemma_len_after_remove(pre: Self, index: u32, post: Self)
        requires
            pre.wf(),
            post.wf(),
            post@ == pre@.remove(index),
        ensures
            post@.len() + (if pre@.contains_key(index) { 1int } else { 0int }) == pre@.len(),
    {
        pre.lemma_entries_match();
        post.lemma_entries_match();
        if !pre@.contains_key(index) {
            assert(pre@.dom().remove(index) =~= pre@.dom());
        }
    }
}

} // verus!
