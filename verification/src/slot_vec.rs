use vstd::prelude::*;

verus! {

/// The number of occupied slots.
pub open spec fn count_occupied<T>(s: Seq<Option<T>>) -> nat
    decreases s.len(),
{
    if s.len() == 0 {
        0
    } else {
        count_occupied(s.drop_last()) + (if s.last() is Some { 1nat } else { 0nat })
    }
}

/// There are never more occupied slots than slots.
pub proof fn lemma_count_occupied_bound<T>(s: Seq<Option<T>>)
    ensures
        count_occupied(s) <= s.len(),
    decreases s.len(),
{
    if s.len() > 0 {
        lemma_count_occupied_bound(s.drop_last());
    }
}

/// Replacing one slot changes the count by what left and what came in.
pub proof fn lemma_count_occupied_update<T>(s: Seq<Option<T>>, i: int, x: Option<T>)
    requires
        0 <= i < s.len(),
    ensures
        count_occupied(s.update(i, x)) + (if s[i] is Some { 1int } else { 0int })
            == count_occupied(s) + (if x is Some { 1int } else { 0int }),
    decreases s.len(),
{
    if i == s.len() - 1 {
        assert(s.update(i, x).drop_last() =~= s.drop_last());
    } else {
        assert(s.update(i, x).drop_last() =~= s.drop_last().update(i, x));
        lemma_count_occupied_update(s.drop_last(), i, x);
    }
}

/// `len` counts the occupied slots, and the free stack holds each empty slot
/// exactly once.
pub open spec fn parts_wf<T>(items: Seq<Option<T>>, free: Seq<usize>, len: usize) -> bool {
    &&& len == count_occupied(items)
    &&& free.no_duplicates()
    &&& forall|j: int|
        0 <= j < free.len() ==> (#[trigger] free[j] as int) < items.len() && items[free[j] as int] is None
    &&& forall|i: int| 0 <= i < items.len() && (#[trigger] items[i]) is None ==> free.contains(i as usize)
}

/// A vector of optional slots: removing an item leaves a hole whose index is
/// kept on a stack and handed out again by the next push.
#[derive(Debug, Clone)]
pub struct SlotVec<T: Clone> {
    items: Vec<Option<T>>,
    free: Vec<usize>,
    len: usize,
}

impl<T: Clone> SlotVec<T> {
    /// The slots, in index order.
    pub closed spec fn slots(&self) -> Seq<Option<T>> {
        self.items@
    }

    /// The stack of empty slots; its last entry is reused first.
    pub closed spec fn free_slots(&self) -> Seq<usize> {
        self.free@
    }

    pub closed spec fn wf(&self) -> bool {
        parts_wf(self.items@, self.free@, self.len)
    }

    /// What `push(item)` does: fill the most recently freed slot, or append
    /// a new one.
    pub open spec fn push_post(pre: Self, item: T, r: usize, post: Self) -> bool {
        if pre.free_slots().len() > 0 {
            &&& r == pre.free_slots().last()
            &&& post.slots() == pre.slots().update(r as int, Some(item))
            &&& post.free_slots() == pre.free_slots().drop_last()
        } else {
            &&& r == pre.slots().len()
            &&& post.slots() == pre.slots().push(Some(item))
            &&& post.free_slots() == pre.free_slots()
        }
    }

    /// What `remove(index)` does: empty the slot and hand back what it held;
    /// a slot that held something goes on the free stack.
    pub open spec fn remove_post(pre: Self, index: usize, r: Option<T>, post: Self) -> bool {
        if (index as int) < pre.slots().len() {
            &&& r == pre.slots()[index as int]
            &&& post.slots() == pre.slots().update(index as int, None)
            &&& r is Some ==> post.free_slots() == pre.free_slots().push(index)
            &&& r is None ==> post.free_slots() == pre.free_slots()
        } else {
            &&& r == None::<T>
            &&& post.slots() == pre.slots()
            &&& post.free_slots() == pre.free_slots()
        }
    }

    pub fn new() -> (r: Self)
        ensures
            r.wf(),
            r.slots() == Seq::<Option<T>>::empty(),
            r.free_slots() == Seq::<usize>::empty(),
    {
        SlotVec { items: Vec::new(), free: Vec::new(), len: 0 }
    }

    /// Stores `item` and returns the index of its slot.
    pub fn push(&mut self, item: T) -> (r: usize)
        requires
            old(self).wf(),
        ensures
            final(self).wf(),
            Self::push_post(*old(self), item, r, *final(self)),
            Self::push_effects(*old(self), item, r, *final(self)),
            old(self).free_slots().len() > 0 ==> {
                &&& r == old(self).free_slots()[old(self).free_slots().len() - 1]
                &&& final(self).free_slots() == old(self).free_slots().subrange(
                    0,
                    old(self).free_slots().len() - 1,
                )
                &&& final(self).slots() == old(self).slots().update(r as int, Some(item))
            },
            old(self).free_slots().len() == 0 ==> {
                &&& r == old(self).slots().len()
                &&& final(self).free_slots() == old(self).free_slots()
                &&& final(self).slots() == old(self).slots().push(Some(item))
            },
    {
        let ghost pre = *self;
        proof {
            pre.lemma_wf_free_stack();
        }
        match self.free.pop() {
            Some(idx) => {
                proof {
                    let k = pre.free@.len() - 1;
                    assert(pre.free@[k] == idx);
                    lemma_count_occupied_update(pre.items@, idx as int, Some(item));
                }
                self.items.set(idx, Some(item));
                proof {
                    lemma_count_occupied_bound(self.items@);
                    assert(self.items.len() == self.items@.len());
                }
                self.len = self.len + 1;
                proof {
                    assert forall|j: int|
                        0 <= j < self.free@.len() implies (#[trigger] self.free@[j] as int)
                        < self.items@.len() && self.items@[self.free@[j] as int] is None by {
                        assert(pre.free@[j] == self.free@[j]);
                        assert(pre.free@[j] != pre.free@[pre.free@.len() - 1]);
                    }
                    assert forall|i: int|
                        0 <= i < self.items@.len() && (#[trigger] self.items@[i]) is None implies self.free@.contains(
                            i as usize,
                        ) by {
                        assert(pre.items@[i] is None);
                        let j = choose|j: int| 0 <= j < pre.free@.len() && pre.free@[j] == i as usize;
                        assert(j != pre.free@.len() - 1);
                        assert(self.free@[j] == i as usize);
                    }
                    Self::lemma_push_effects(pre, item, idx, *self);
                }
                idx
            },
            None => {
                let idx = self.items.len();
                self.items.push(Some(item));
                proof {
                    assert(self.items@.drop_last() =~= pre.items@);
                    lemma_count_occupied_bound(self.items@);
                    assert(self.items.len() == self.items@.len());
                    assert forall|i: int|
                        0 <= i < self.items@.len() && (#[trigger] self.items@[i]) is None implies self.free@.contains(
                            i as usize,
                        ) by {
                        assert(pre.items@[i] is None);
                    }
                }
                self.len = self.len + 1;
                proof {
                    Self::lemma_push_effects(pre, item, idx, *self);
                }
                idx
            },
        }
    }

    /// Empties slot `index` and returns what it held.
    pub fn remove(&mut self, index: usize) -> (r: Option<T>)
        requires
            old(self).wf(),
        ensures
            final(self).wf(),
            Self::remove_post(*old(self), index, r, *final(self)),
            (index as int) < old(self).slots().len() ==> {
                &&& r == old(self).slots()[index as int]
                &&& final(self).slots() == old(self).slots().update(index as int, None)
                &&& r is Some ==> final(self).free_slots() == old(self).free_slots().push(index)
                &&& r is None ==> final(self).free_slots() == old(self).free_slots()
            },
            (index as int) >= old(self).slots().len() ==> {
                &&& r is None
                &&& final(self).slots() == old(self).slots()
                &&& final(self).free_slots() == old(self).free_slots()
            },
    {
        if index >= self.items.len() {
            return None;
        }
        let ghost pre = *self;
        let old_item = self.items[index].take();
        proof {
            assert(self.items@ =~= pre.items@.update(index as int, None));
            lemma_count_occupied_update(pre.items@, index as int, None);
        }
        if old_item.is_some() {
            self.free.push(index);
            self.len = self.len - 1;
            proof {
                assert(!pre.free@.contains(index)) by {
                    if pre.free@.contains(index) {
                        let j = choose|j: int| 0 <= j < pre.free@.len() && pre.free@[j] == index;
                        assert(pre.items@[pre.free@[j] as int] is None);
                    }
                }
                assert forall|a: int, b: int|
                    0 <= a < b < self.free@.len() implies self.free@[a] != self.free@[b] by {
                    if b == self.free@.len() - 1 {
                        assert(pre.free@[a] == self.free@[a]);
                    }
                }
                assert forall|j: int|
                    0 <= j < self.free@.len() implies (#[trigger] self.free@[j] as int)
                    < self.items@.len() && self.items@[self.free@[j] as int] is None by {
                    if j < pre.free@.len() {
                        assert(pre.free@[j] == self.free@[j]);
                    }
                }
                assert forall|i: int|
                    0 <= i < self.items@.len() && (#[trigger] self.items@[i]) is None implies self.free@.contains(
                        i as usize,
                    ) by {
                    if i == index {
                        assert(self.free@[self.free@.len() - 1] == index);
                    } else {
                        assert(pre.items@[i] is None);
                        let j = choose|j: int| 0 <= j < pre.free@.len() && pre.free@[j] == i as usize;
                        assert(self.free@[j] == i as usize);
                    }
                }
            }
        } else {
            proof {
                assert forall|i: int|
                    0 <= i < self.items@.len() && (#[trigger] self.items@[i]) is None implies self.free@.contains(
                        i as usize,
                    ) by {
                    assert(pre.items@[i] is None);
                }
            }
        }
        old_item
    }

    /// The item in slot `index`, if that slot exists and is occupied.
    pub fn get(&self, index: usize) -> (r: Option<&T>)
        ensures
            match r {
                Some(v) => (index as int) < self.slots().len() && self.slots()[index as int] == Some(
                    *v,
                ),
                None => !((index as int) < self.slots().len() && self.slots()[index as int] is Some),
            },
    {
        if index < self.items.len() {
            self.items[index].as_ref()
        } else {
            None
        }
    }

    /// A mutable reference to the item in slot `index`, if any.
    pub fn get_mut(&mut self, index: usize) -> (r: Option<&mut T>)
        requires
            old(self).wf(),
        ensures
            r is Some == ((index as int) < old(self).slots().len() && old(self).slots()[index as int] is Some),
            r is Some ==> old(self).slots()[index as int] == Some(*r.unwrap()),
            r is Some ==> final(self).slots() == old(self).slots().update(
                index as int,
                Some(*final(r.unwrap())),
            ),
            r is Some ==> final(self).free_slots() == old(self).free_slots(),
            r is Some ==> final(self).wf(),
            r is None ==> *final(self) == *old(self),
    {
        if index >= self.items.len() {
            return None;
        }
        if self.items[index].is_none() {
            return None;
        }
        proof {
            assert forall|y: T| #[trigger] count_occupied(self.items@.update(index as int, Some(y)))
                == count_occupied(self.items@) by {
                lemma_count_occupied_update(self.items@, index as int, Some(y));
            }
        }
        match &mut self.items[index] {
            Some(v) => Some(v),
            None => None,
        }
    }

    /// The occupied slots as `(index, item)` pairs, in index order.
    pub fn iter(&self) -> (r: Vec<(usize, &T)>)
        ensures
            forall|k: int|
                0 <= k < r@.len() ==> (#[trigger] r@[k].0 as int) < self.slots().len()
                    && self.slots()[r@[k].0 as int] == Some(*r@[k].1),
            forall|a: int, b: int| 0 <= a < b < r@.len() ==> #[trigger] r@[a].0 < #[trigger] r@[b].0,
            forall|i: int|
                0 <= i < self.slots().len() && (#[trigger] self.slots()[i]) is Some ==> exists|k: int|
                    0 <= k < r@.len() && r@[k].0 == i,
            r@.len() == count_occupied(self.slots()),
    {
        let mut r: Vec<(usize, &T)> = Vec::new();
        let mut i: usize = 0;
        while i < self.items.len()
            invariant
                i <= self.items@.len(),
                forall|k: int|
                    0 <= k < r@.len() ==> (#[trigger] r@[k].0 as int) < i && self.items@[r@[k].0 as int]
                        == Some(*r@[k].1),
                forall|a: int, b: int| 0 <= a < b < r@.len() ==> #[trigger] r@[a].0 < #[trigger] r@[b].0,
                forall|j: int|
                    0 <= j < i && (#[trigger] self.items@[j]) is Some ==> exists|k: int|
                        0 <= k < r@.len() && r@[k].0 == j,
                r@.len() == count_occupied(self.items@.take(i as int)),
            decreases self.items@.len() - i,
        {
            assert(self.items@.take(i + 1).drop_last() =~= self.items@.take(i as int));
            match &self.items[i] {
                Some(v) => {
                    let ghost before = r@;
                    r.push((i, v));
                    proof {
                        assert forall|j: int|
                            0 <= j < i + 1 && (#[trigger] self.items@[j]) is Some implies exists|k: int|
                                0 <= k < r@.len() && r@[k].0 == j by {
                            if j == i {
                                assert(r@[r@.len() - 1].0 == j);
                            } else {
                                let k = choose|k: int| 0 <= k < before.len() && before[k].0 == j;
                                assert(r@[k] == before[k]);
                            }
                        }
                    }
                },
                None => {},
            }
            i = i + 1;
        }
        assert(self.items@.take(i as int) =~= self.items@);
        r
    }

    /// The number of occupied slots.
    pub fn len(&self) -> (r: usize)
        requires
            self.wf(),
        ensures
            r == count_occupied(self.slots()),
            r <= self.slots().len(),
    {
        proof {
            lemma_count_occupied_bound(self.items@);
        }
        self.len
    }

    pub fn is_empty(&self) -> (r: bool)
        requires
            self.wf(),
        ensures
            r == (count_occupied(self.slots()) == 0),
    {
        self.len == 0
    }

    /// The number of slots, occupied or not.
    pub fn capacity(&self) -> (r: usize)
        ensures
            r == self.slots().len(),
    {
        self.items.len()
    }
}

impl<T: Clone> SlotVec<T> {
    /// The slots, the free stack and the occupied count the vector is made
    /// of.
    pub fn parts(&self) -> (r: (&Vec<Option<T>>, &Vec<usize>, usize))
        requires
            self.wf(),
        ensures
            r.0@ == self.slots(),
            r.1@ == self.free_slots(),
            r.2 == count_occupied(self.slots()),
    {
        (&self.items, &self.free, self.len)
    }

    /// Rebuilds a slot vector from its parts; `None` when `len` is not the
    /// occupied count or `free` does not list each empty slot exactly once.
    pub fn from_parts(items: Vec<Option<T>>, free: Vec<usize>, len: usize) -> (r: Option<Self>)
        ensures
            r is Some == parts_wf(items@, free@, len),
            r matches Some(v) ==> {
                &&& v.wf()
                &&& v.slots() == items@
                &&& v.free_slots() == free@
            },
    {
        let n = items.len();
        let mut count: usize = 0;
        let mut i: usize = 0;
        while i < n
            invariant
                n == items@.len(),
                i <= n,
                count <= i,
                count == count_occupied(items@.take(i as int)),
            decreases n - i,
        {
            assert(items@.take(i + 1).drop_last() =~= items@.take(i as int));
            if items[i].is_some() {
                count = count + 1;
            }
            i = i + 1;
        }
        assert(items@.take(n as int) =~= items@);
        if count != len {
            return None;
        }
        let mut seen: Vec<bool> = Vec::new();
        while seen.len() < n
            invariant
                seen@.len() <= n,
                forall|k: int| 0 <= k < seen@.len() ==> !#[trigger] seen@[k],
            decreases n - seen@.len(),
        {
            seen.push(false);
        }
        let mut j: usize = 0;
        while j < free.len()
            invariant
                n == items@.len(),
                seen@.len() == n,
                j <= free@.len(),
                free@.take(j as int).no_duplicates(),
                forall|q: int|
                    0 <= q < j ==> (#[trigger] free@[q] as int) < n && items@[free@[q] as int] is None,
                forall|k: int| 0 <= k < n ==> #[trigger] seen@[k] == free@.take(j as int).contains(k as usize),
            decreases free@.len() - j,
        {
            let idx = free[j];
            if idx >= n || items[idx].is_some() {
                return None;
            }
            if seen[idx] {
                proof {
                    let q = choose|q: int| 0 <= q < j && free@.take(j as int)[q] == idx;
                    assert(free@[q] == free@[j as int]);
                }
                return None;
            }
            let ghost pre = seen@;
            seen.set(idx, true);
            proof {
                let t = free@.take(j + 1);
                assert(t.drop_last() =~= free@.take(j as int));
                assert forall|a: int, b: int| 0 <= a < b < t.len() implies t[a] != t[b] by {
                    if b == j {
                        assert(free@.take(j as int).contains(t[a]));
                    } else {
                        assert(t[a] == free@.take(j as int)[a]);
                        assert(t[b] == free@.take(j as int)[b]);
                    }
                }
                assert forall|k: int| 0 <= k < n implies #[trigger] seen@[k] == t.contains(k as usize) by {
                    if k == idx {
                        assert(t[j as int] == idx);
                    } else {
                        assert(pre[k] == seen@[k]);
                        if free@.take(j as int).contains(k as usize) {
                            let q = choose|q: int| 0 <= q < j && free@.take(j as int)[q] == k as usize;
                            assert(t[q] == k as usize);
                        }
                        if t.contains(k as usize) {
                            let q = choose|q: int| 0 <= q < t.len() && t[q] == k as usize;
                            assert(free@.take(j as int)[q] == k as usize);
                        }
                    }
                }
            }
            j = j + 1;
        }
        assert(free@.take(j as int) =~= free@);
        let mut k: usize = 0;
        while k < n
            invariant
                n == items@.len(),
                seen@.len() == n,
                k <= n,
                forall|m: int| 0 <= m < n ==> #[trigger] seen@[m] == free@.contains(m as usize),
                forall|m: int| 0 <= m < k && (#[trigger] items@[m]) is None ==> free@.contains(m as usize),
            decreases n - k,
        {
            if items[k].is_none() && !seen[k] {
                return None;
            }
            k = k + 1;
        }
        Some(SlotVec { items, free, len })
    }
}

impl<T: Clone> SlotVec<T> {
    /// What every valid vector shows of its free stack: it lists each empty
    /// slot once and nothing else, so it is empty exactly when no slot is.
    pub proof fn lemma_wf_free_stack(&self)
        requires
            self.wf(),
        ensures
            self.free_slots().no_duplicates(),
            forall|j: int|
                0 <= j < self.free_slots().len() ==> (#[trigger] self.free_slots()[j] as int)
                    < self.slots().len() && self.slots()[self.free_slots()[j] as int] is None,
            forall|i: int|
                0 <= i < self.slots().len() && (#[trigger] self.slots()[i]) is None
                    ==> self.free_slots().contains(i as usize),
            self.free_slots().len() > 0 <==> exists|i: int|
                0 <= i < self.slots().len() && (#[trigger] self.slots()[i]) is None,
    {
        if self.free@.len() > 0 {
            assert(self.items@[self.free@[0] as int] is None);
        }
        if exists|i: int| 0 <= i < self.slots().len() && (#[trigger] self.slots()[i]) is None {
            let i = choose|i: int| 0 <= i < self.slots().len() && (#[trigger] self.slots()[i]) is None;
            assert(self.free@.contains(i as usize));
        }
    }

    /// What `push(item)` means for the slots as a whole: the index it returns
    /// was an empty slot if any slot was empty and a new one otherwise, it
    /// now holds `item`, one more slot is occupied and every other slot is as
    /// it was.
    pub open spec fn push_effects(pre: Self, item: T, r: usize, post: Self) -> bool {
        &&& (r as int) <= pre.slots().len()
        &&& (r as int) < pre.slots().len() ==> pre.slots()[r as int] is None
        &&& (exists|j: int| 0 <= j < pre.slots().len() && (#[trigger] pre.slots()[j]) is None) ==> {
            &&& (r as int) < pre.slots().len()
            &&& post.slots().len() == pre.slots().len()
        }
        &&& !(exists|j: int| 0 <= j < pre.slots().len() && (#[trigger] pre.slots()[j]) is None) ==> {
            &&& r == pre.slots().len()
            &&& post.slots().len() == pre.slots().len() + 1
        }
        &&& post.slots()[r as int] == Some(item)
        &&& count_occupied(post.slots()) == count_occupied(pre.slots()) + 1
        &&& forall|j: int|
            0 <= j < pre.slots().len() && j != r ==> #[trigger] post.slots()[j] == pre.slots()[j]
    }

    /// Every push has the effects `push_effects` lists.
    pub proof fn lemma_push_effects(pre: Self, item: T, r: usize, post: Self)
        requires
            pre.wf(),
            Self::push_post(pre, item, r, post),
        ensures
            Self::push_effects(pre, item, r, post),
    {
        pre.lemma_wf_free_stack();
        Self::lemma_get_after_push(pre, item, r, post);
        Self::lemma_count_after_push(pre, item, r, post);
        if pre.free_slots().len() > 0 {
            assert(pre.free_slots()[pre.free_slots().len() - 1] == r);
        }
    }
}

impl<T: Clone> SlotVec<T> {
    /// `remove` of an index below the slot count hands back exactly what the
    /// slot held and leaves it empty; no other slot changes.
    pub proof fn lemma_remove_takes_item(pre: Self, index: usize, r: Option<T>, post: Self)
        requires
            Self::remove_post(pre, index, r, post),
            (index as int) < pre.slots().len(),
        ensures
            r == pre.slots()[index as int],
            post.slots()[index as int] is None,
            post.slots().len() == pre.slots().len(),
            forall|j: int| 0 <= j < pre.slots().len() && j != index ==> #[trigger] post.slots()[j] == pre.slots()[j],
    {
    }

    /// Freed slots come back last freed first: after two slots are emptied
    /// by `remove`, the next two pushes fill the second, then the first.
    pub proof fn lemma_reuse_is_last_freed_first(
        s0: Self,
        i1: usize,
        x1: T,
        s1: Self,
        i2: usize,
        x2: T,
        s2: Self,
        a: T,
        r1: usize,
        s3: Self,
        b: T,
        r2: usize,
        s4: Self,
    )
        requires
            Self::remove_post(s0, i1, Some(x1), s1),
            Self::remove_post(s1, i2, Some(x2), s2),
            Self::push_post(s2, a, r1, s3),
            Self::push_post(s3, b, r2, s4),
        ensures
            r1 == i2,
            r2 == i1,
            s4.free_slots() == s0.free_slots(),
    {
        assert(s2.free_slots() == s0.free_slots().push(i1).push(i2));
        assert(s3.free_slots() =~= s0.free_slots().push(i1));
        assert(s4.free_slots() =~= s0.free_slots());
    }
}

impl<T: Clone> Default for SlotVec<T> {
    fn default() -> (r: Self)
        ensures
            r.wf(),
            r.slots() == Seq::<Option<T>>::empty(),
            r.free_slots() == Seq::<usize>::empty(),
    {
        Self::new()
    }
}

impl<T: Clone> SlotVec<T> {
    /// `get` at the index `push` returned gives back the pushed item.
    pub proof fn lemma_get_after_push(pre: Self, item: T, r: usize, post: Self)
        requires
            pre.wf(),
            Self::push_post(pre, item, r, post),
        ensures
            (r as int) < post.slots().len(),
            post.slots()[r as int] == Some(item),
    {
        if pre.free_slots().len() > 0 {
            assert(pre.free@[pre.free@.len() - 1] == r);
        } else {
            assert(pre.items.len() == pre.items@.len());
        }
    }

    /// The slot that `remove` emptied is the one the next `push` fills.
    pub proof fn lemma_reuse_after_remove(
        pre: Self,
        index: usize,
        removed: T,
        mid: Self,
        item: T,
        r: usize,
        post: Self,
    )
        requires
            Self::remove_post(pre, index, Some(removed), mid),
            Self::push_post(mid, item, r, post),
        ensures
            r == index,
            post.slots()[index as int] == Some(item),
    {
    }

    /// Once `remove` has emptied a slot, removing it again gives nothing and
    /// changes nothing.
    pub proof fn lemma_remove_twice(pre: Self, index: usize, r: Option<T>, mid: Self, r2: Option<T>, post: Self)
        requires
            Self::remove_post(pre, index, r, mid),
            Self::remove_post(mid, index, r2, post),
        ensures
            r2 == None::<T>,
            post.slots() == mid.slots(),
            post.free_slots() == mid.free_slots(),
    {
        if (index as int) < pre.slots().len() {
            assert(post.slots() =~= mid.slots());
        }
    }

    /// `push` adds one occupied slot.
    pub proof fn lemma_count_after_push(pre: Self, item: T, r: usize, post: Self)
        requires
            pre.wf(),
            Self::push_post(pre, item, r, post),
        ensures
            count_occupied(post.slots()) == count_occupied(pre.slots()) + 1,
    {
        if pre.free_slots().len() > 0 {
            assert(pre.free@[pre.free@.len() - 1] == r);
            lemma_count_occupied_update(pre.slots(), r as int, Some(item));
        } else {
            assert(pre.slots().push(Some(item)).drop_last() =~= pre.slots());
        }
    }

    /// `remove` takes one occupied slot away when it returns an item, and
    /// none otherwise.
    pub proof fn lemma_count_after_remove(pre: Self, index: usize, r: Option<T>, post: Self)
        requires
            Self::remove_post(pre, index, r, post),
        ensures
            count_occupied(post.slots()) + (if r is Some { 1int } else { 0int }) == count_occupied(
                pre.slots(),
            ),
    {
        if (index as int) < pre.slots().len() {
            lemma_count_occupied_update(pre.slots(), index as int, None);
        }
    }
}

} // verus!
