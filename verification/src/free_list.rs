use vstd::prelude::*;

verus! {

/// One slot of a [`FreeList`]: either a live value with the generation it was
/// allocated under, or a free slot that links to the next free one.
#[derive(Debug, Clone)]
pub enum FreeSlot {
    Occupied(u64, u64),
    Free { next: Option<usize>, generation: u64 },
}

/// The generation a slot carries, whether it is live or free.
pub open spec fn slot_generation(s: FreeSlot) -> u64 {
    match s {
        FreeSlot::Occupied(_, g) => g,
        FreeSlot::Free { generation, .. } => generation,
    }
}

/// The link of a free slot; `None` for a live one.
pub open spec fn slot_next(s: FreeSlot) -> Option<usize> {
    match s {
        FreeSlot::Occupied(..) => None,
        FreeSlot::Free { next, .. } => next,
    }
}

/// The value held at `index`, if that slot exists and is live.
pub open spec fn slot_value(slots: Seq<FreeSlot>, index: usize) -> Option<u64> {
    if (index as int) < slots.len() {
        match slots[index as int] {
            FreeSlot::Occupied(v, _) => Some(v),
            FreeSlot::Free { .. } => None,
        }
    } else {
        None
    }
}

/// Whether `index` names a live slot.
pub open spec fn slot_live(slots: Seq<FreeSlot>, index: usize) -> bool {
    (index as int) < slots.len() && slots[index as int] is Occupied
}

/// Whether `index` names a live slot allocated under generation `gen`.
pub open spec fn live_with_generation(slots: Seq<FreeSlot>, index: usize, gen: u64) -> bool {
    slot_live(slots, index) && slot_generation(slots[index as int]) == gen
}

/// The number of live slots.
pub open spec fn count_live(slots: Seq<FreeSlot>) -> nat
    decreases slots.len(),
{
    if slots.len() == 0 {
        0
    } else {
        count_live(slots.drop_last()) + (if slots.last() is Occupied { 1nat } else { 0nat })
    }
}

/// `chain` lists the free slots in the order the free list hands them out:
/// it starts at `head`, each free slot links to the next entry, the last links
/// to nothing, no slot appears twice and every free slot appears.
pub open spec fn is_free_chain(slots: Seq<FreeSlot>, head: Option<usize>, chain: Seq<usize>) -> bool {
    chain_links(slots, head, chain) && chain_covers(slots, chain)
}

/// `chain` starts at `head`, its entries are distinct free slots, each links
/// to the next entry and the last links to nothing.
pub open spec fn chain_links(slots: Seq<FreeSlot>, head: Option<usize>, chain: Seq<usize>) -> bool {
    &&& head == (if chain.len() == 0 { None::<usize> } else { Some(chain[0]) })
    &&& chain.no_duplicates()
    &&& forall|k: int|
        0 <= k < chain.len() ==> {
            &&& (#[trigger] chain[k] as int) < slots.len()
            &&& slots[chain[k] as int] is Free
            &&& slot_next(slots[chain[k] as int]) == (if k + 1 < chain.len() {
                Some(chain[k + 1])
            } else {
                None::<usize>
            })
        }
}

/// Every free slot appears in `chain`.
#[verifier::opaque]
pub open spec fn chain_covers(slots: Seq<FreeSlot>, chain: Seq<usize>) -> bool {
    forall|i: int| 0 <= i < slots.len() && (#[trigger] slots[i]) is Free ==> chain.contains(i as usize)
}

/// `chain` is what a walk from `head` along the free links has met so far,
/// and `cur` is where it stands now.
pub open spec fn is_walk_prefix(slots: Seq<FreeSlot>, head: Option<usize>, chain: Seq<usize>, cur: Option<usize>) -> bool {
    &&& chain.len() == 0 ==> cur == head
    &&& chain.len() > 0 ==> head == Some(chain[0])
    &&& chain.no_duplicates()
    &&& forall|k: int|
        0 <= k < chain.len() ==> {
            &&& (#[trigger] chain[k] as int) < slots.len()
            &&& slots[chain[k] as int] is Free
            &&& slot_next(slots[chain[k] as int]) == (if k + 1 < chain.len() {
                Some(chain[k + 1])
            } else {
                cur
            })
        }
}

/// One more step of a walk along the free links, onto a free slot it has not
/// met before.
proof fn lemma_walk_step(slots: Seq<FreeSlot>, head: Option<usize>, chain: Seq<usize>, idx: usize, next: Option<usize>)
    requires
        is_walk_prefix(slots, head, chain, Some(idx)),
        (idx as int) < slots.len(),
        slots[idx as int] is Free,
        next == slot_next(slots[idx as int]),
        !chain.contains(idx),
    ensures
        is_walk_prefix(slots, head, chain.push(idx), next),
{
    let nc = chain.push(idx);
    assert forall|a: int, b: int| 0 <= a < b < nc.len() implies nc[a] != nc[b] by {
        if b == chain.len() {
            assert(chain.contains(chain[a]));
        }
    }
    assert forall|k: int|
        0 <= k < nc.len() implies {
            &&& (#[trigger] nc[k] as int) < slots.len()
            &&& slots[nc[k] as int] is Free
            &&& slot_next(slots[nc[k] as int]) == (if k + 1 < nc.len() {
                Some(nc[k + 1])
            } else {
                next
            })
        } by {
        if k < chain.len() {
            assert(nc[k] == chain[k]);
            if k + 1 == chain.len() {
                assert(nc[k + 1] == idx);
            } else {
                assert(nc[k + 1] == chain[k + 1]);
            }
        }
    }
    if chain.len() == 0 {
        assert(nc[0] == idx);
    } else {
        assert(nc[0] == chain[0]);
    }
}

/// A sequence of distinct indices below `n` has at most `n` entries.
proof fn lemma_distinct_below(s: Seq<usize>, n: nat)
    requires
        s.no_duplicates(),
        forall|k: int| 0 <= k < s.len() ==> (#[trigger] s[k] as int) < n,
    ensures
        s.len() <= n,
    decreases n,
{
    if n == 0 {
        if s.len() > 0 {
            assert(s[0] < 0);
        }
    } else if s.contains((n - 1) as usize) {
        let i = choose|i: int| 0 <= i < s.len() && s[i] == (n - 1) as usize;
        let t = s.remove(i);
        assert forall|k: int| 0 <= k < t.len() implies (#[trigger] t[k] as int) < n - 1 by {
            if k < i {
                assert(t[k] == s[k]);
            } else {
                assert(t[k] == s[k + 1]);
            }
        }
        assert forall|a: int, b: int| 0 <= a < b < t.len() implies t[a] != t[b] by {
            let a2 = if a < i { a } else { a + 1 };
            let b2 = if b < i { b } else { b + 1 };
            assert(t[a] == s[a2] && t[b] == s[b2]);
        }
        lemma_distinct_below(t, (n - 1) as nat);
    } else {
        assert forall|k: int| 0 <= k < s.len() implies (#[trigger] s[k] as int) < n - 1 by {
            assert(s[k] != (n - 1) as usize);
        }
        lemma_distinct_below(s, (n - 1) as nat);
    }
}

/// A walk along the free links meets the entries of any free chain in
/// order.
proof fn lemma_walk_agrees(
    slots: Seq<FreeSlot>,
    head: Option<usize>,
    chain: Seq<usize>,
    cur: Option<usize>,
    c: Seq<usize>,
    i: int,
)
    requires
        is_walk_prefix(slots, head, chain, cur),
        chain_links(slots, head, c),
        0 <= i < chain.len(),
    ensures
        i < c.len(),
        c[i] == chain[i],
    decreases i,
{
    if i > 0 {
        lemma_walk_agrees(slots, head, chain, cur, c, i - 1);
        assert(slot_next(slots[chain[i - 1] as int]) == Some(chain[i]));
        assert(slot_next(slots[c[i - 1] as int]) == (if i < c.len() {
            Some(c[i])
        } else {
            None::<usize>
        }));
    }
}

/// Where a walk along the free links stands, a free chain continues: with
/// the next entry if the walk stands on one, or not at all.
proof fn lemma_walk_follows_chain(
    slots: Seq<FreeSlot>,
    head: Option<usize>,
    chain: Seq<usize>,
    cur: Option<usize>,
    c: Seq<usize>,
)
    requires
        is_walk_prefix(slots, head, chain, cur),
        chain_links(slots, head, c),
    ensures
        chain.len() <= c.len(),
        forall|k: int| 0 <= k < chain.len() ==> c[k] == #[trigger] chain[k],
        cur is Some ==> chain.len() < c.len() && c[chain.len() as int] == cur.unwrap(),
        cur is None ==> c.len() == chain.len(),
{
    assert forall|k: int| 0 <= k < chain.len() implies c[k] == #[trigger] chain[k] by {
        lemma_walk_agrees(slots, head, chain, cur, c, k);
    }
    let n = chain.len() as int;
    if n == 0 {
        assert(cur == head);
    } else {
        lemma_walk_agrees(slots, head, chain, cur, c, n - 1);
        assert(slot_next(slots[chain[n - 1] as int]) == cur);
        assert(slot_next(slots[c[n - 1] as int]) == (if n < c.len() {
            Some(c[n])
        } else {
            None::<usize>
        }));
    }
}

/// A slot allocator with generations: freed slots are kept in an intrusive
/// linked list and handed out again, last freed first.
#[derive(Debug, Clone)]
pub struct FreeList {
    slots: Vec<FreeSlot>,
    first_free: Option<usize>,
}

impl FreeList {
    /// All slots, in index order.
    pub closed spec fn slots(&self) -> Seq<FreeSlot> {
        self.slots@
    }

    /// The free slot that the next allocation takes, if any.
    pub closed spec fn first_free(&self) -> Option<usize> {
        self.first_free
    }

    /// The free slots form one chain from `first_free`.
    pub closed spec fn wf(&self) -> bool {
        exists|chain: Seq<usize>| is_free_chain(self.slots@, self.first_free, chain)
    }

    /// What `allocate(value)` does: take the head of the free chain, keeping
    /// its generation, or append a new slot of generation 0.
    pub open spec fn allocate_post(pre: Self, value: u64, r: (usize, u64), post: Self) -> bool {
        match pre.first_free() {
            Some(head) => {
                &&& r == (head, slot_generation(pre.slots()[head as int]))
                &&& post.slots() == pre.slots().update(head as int, FreeSlot::Occupied(value, r.1))
                &&& post.first_free() == slot_next(pre.slots()[head as int])
            },
            None => {
                &&& r == (pre.slots().len() as usize, 0u64)
                &&& post.slots() == pre.slots().push(FreeSlot::Occupied(value, 0))
                &&& post.first_free() == None::<usize>
            },
        }
    }

    /// What `dealloc(index, gen)` does: a live slot of that generation becomes
    /// the head of the free chain with the next generation; anything else is
    /// refused and changes nothing.
    pub open spec fn dealloc_post(pre: Self, index: usize, gen: u64, r: bool, post: Self) -> bool {
        &&& r == live_with_generation(pre.slots(), index, gen)
        &&& r ==> {
            &&& post.slots() == pre.slots().update(
                index as int,
                FreeSlot::Free { next: pre.first_free(), generation: (gen + 1) as u64 },
            )
            &&& post.first_free() == Some(index)
        }
        &&& !r ==> post.slots() == pre.slots() && post.first_free() == pre.first_free()
    }

    pub fn new() -> (r: Self)
        ensures
            r.wf(),
            r.slots() == Seq::<FreeSlot>::empty(),
            r.first_free() == None::<usize>,
    {
        let r = FreeList { slots: Vec::new(), first_free: None };
        reveal(chain_covers);
        assert(is_free_chain(r.slots@, r.first_free, Seq::<usize>::empty()));
        r
    }

    /// Stores `value` and returns its slot index with the slot's generation.
    pub fn allocate(&mut self, value: u64) -> (r: (usize, u64))
        requires
            old(self).wf(),
        ensures
            final(self).wf(),
            Self::allocate_post(*old(self), value, r, *final(self)),
            Self::allocate_effects(*old(self), value, r, *final(self)),
            old(self).first_free() is Some ==> {
                let h = old(self).first_free().unwrap();
                &&& r.0 == h
                &&& (h as int) < old(self).slots().len()
                &&& old(self).slots()[h as int] matches FreeSlot::Free { next, generation }
                    && r.1 == generation && final(self).first_free() == next
                &&& final(self).slots() == old(self).slots().update(
                    h as int,
                    FreeSlot::Occupied(value, r.1),
                )
            },
            old(self).first_free() is None ==> {
                &&& r.0 == old(self).slots().len()
                &&& r.1 == 0
                &&& final(self).slots() == old(self).slots().push(FreeSlot::Occupied(value, 0))
                &&& final(self).first_free() is None
            },
    {
        let ghost pre = *self;
        let ghost chain = choose|chain: Seq<usize>| is_free_chain(self.slots@, self.first_free, chain);
        reveal(chain_covers);
        match self.first_free {
            Some(idx) => {
                assert(chain[0] == idx);
                let (gen, next_free) = match &self.slots[idx] {
                    FreeSlot::Free { next, generation } => (*generation, *next),
                    FreeSlot::Occupied(..) => {
                        proof {
                            assert(false);
                        }
                        (0, None)
                    },
                };
                let ghost old_slots = self.slots@;
                self.slots.set(idx, FreeSlot::Occupied(value, gen));
                self.first_free = next_free;
                proof {
                    let rest = chain.drop_first();
                    assert forall|k: int| 0 <= k < rest.len() implies rest[k] != idx by {
                        assert(chain[k + 1] == rest[k]);
                    }
                    assert forall|k: int|
                        0 <= k < rest.len() implies {
                            &&& (#[trigger] rest[k] as int) < self.slots@.len()
                            &&& self.slots@[rest[k] as int] is Free
                            &&& slot_next(self.slots@[rest[k] as int]) == (if k + 1 < rest.len() {
                                Some(rest[k + 1])
                            } else {
                                None::<usize>
                            })
                        } by {
                        assert(chain[k + 1] == rest[k]);
                    }
                    assert forall|i: int|
                        0 <= i < self.slots@.len() && (#[trigger] self.slots@[i]) is Free implies rest.contains(
                            i as usize,
                        ) by {
                        assert(i != idx as int);
                        assert(old_slots[i] is Free);
                        assert(chain.contains(i as usize));
                        let k = choose|k: int| 0 <= k < chain.len() && chain[k] == i as usize;
                        assert(chain[0] == idx);
                        assert(self.slots.len() == self.slots@.len());
                        assert((i as usize) as int == i);
                        assert(k != 0);
                        assert(rest[k - 1] == i as usize);
                    }
                    if rest.len() > 0 {
                        assert(chain[1] == rest[0]);
                    }
                    assert(is_free_chain(self.slots@, self.first_free, rest));
                    Self::lemma_allocate_effects(pre, value, (idx, gen), *self);
                }
                (idx, gen)
            },
            None => {
                let idx = self.slots.len();
                self.slots.push(FreeSlot::Occupied(value, 0));
                proof {
                    assert forall|i: int|
                        0 <= i < self.slots@.len() && (#[trigger] self.slots@[i]) is Free implies chain.contains(
                            i as usize,
                        ) by {
                        assert(i < idx);
                    }
                    assert(is_free_chain(self.slots@, self.first_free, chain));
                    Self::lemma_allocate_effects(pre, value, (idx, 0), *self);
                }
                (idx, 0)
            },
        }
    }

    /// Frees slot `index` if it is live under generation `gen`; returns
    /// whether it did.
    pub fn dealloc(&mut self, index: usize, gen: u64) -> (r: bool)
        requires
            old(self).wf(),
            !(live_with_generation(old(self).slots(), index, gen) && gen == u64::MAX),
        ensures
            final(self).wf(),
            Self::dealloc_post(*old(self), index, gen, r, *final(self)),
            Self::dealloc_effects(*old(self), index, gen, r, *final(self)),
            r == ((index as int) < old(self).slots().len() && match old(self).slots()[index as int] {
                FreeSlot::Occupied(_, g) => g == gen,
                FreeSlot::Free { .. } => false,
            }),
            r ==> final(self).slots() == old(self).slots().update(
                index as int,
                FreeSlot::Free { next: old(self).first_free(), generation: (gen + 1) as u64 },
            ) && final(self).first_free() == Some(index),
            !r ==> final(self).slots() == old(self).slots() && final(self).first_free() == old(
                self,
            ).first_free(),
    {
        let ghost pre = *self;
        if index >= self.slots.len() {
            proof {
                Self::lemma_dealloc_effects(pre, index, gen, false, *self);
            }
            return false;
        }
        let matches = match &self.slots[index] {
            FreeSlot::Occupied(_, stored_gen) => *stored_gen == gen,
            FreeSlot::Free { .. } => false,
        };
        if !matches {
            proof {
                Self::lemma_dealloc_effects(pre, index, gen, false, *self);
            }
            return false;
        }
        let ghost chain = choose|chain: Seq<usize>| is_free_chain(self.slots@, self.first_free, chain);
        let ghost old_slots = self.slots@;
        reveal(chain_covers);
        self.slots.set(index, FreeSlot::Free { next: self.first_free, generation: gen + 1 });
        self.first_free = Some(index);
        proof {
            let nc = seq![index].add(chain);
            assert(!chain.contains(index)) by {
                if chain.contains(index) {
                    let k = choose|k: int| 0 <= k < chain.len() && chain[k] == index;
                    assert(old_slots[chain[k] as int] is Free);
                }
            }
            assert forall|a: int, b: int| 0 <= a < b < nc.len() implies nc[a] != nc[b] by {
                if a == 0 {
                    assert(nc[b] == chain[b - 1]);
                } else {
                    assert(nc[a] == chain[a - 1]);
                    assert(nc[b] == chain[b - 1]);
                }
            }
            assert forall|k: int|
                0 <= k < nc.len() implies {
                    &&& (#[trigger] nc[k] as int) < self.slots@.len()
                    &&& self.slots@[nc[k] as int] is Free
                    &&& slot_next(self.slots@[nc[k] as int]) == (if k + 1 < nc.len() {
                        Some(nc[k + 1])
                    } else {
                        None::<usize>
                    })
                } by {
                if k == 0 {
                    if chain.len() > 0 {
                        assert(nc[1] == chain[0]);
                    }
                } else {
                    assert(nc[k] == chain[k - 1]);
                    if k + 1 < nc.len() {
                        assert(nc[k + 1] == chain[k]);
                    }
                }
            }
            assert forall|i: int|
                0 <= i < self.slots@.len() && (#[trigger] self.slots@[i]) is Free implies nc.contains(
                    i as usize,
                ) by {
                if i == index {
                    assert(nc[0] == index);
                } else {
                    assert(old_slots[i] is Free);
                    assert(chain.contains(i as usize));
                    let k = choose|k: int| 0 <= k < chain.len() && chain[k] == i as usize;
                    assert(nc[k + 1] == i as usize);
                }
            }
            assert(is_free_chain(self.slots@, self.first_free, nc));
            Self::lemma_dealloc_effects(pre, index, gen, true, *self);
        }
        true
    }

    /// The value in slot `index` if that slot is live. The generation is not
    /// compared: any live slot answers.
    pub fn get(&self, index: usize, _gen: u64) -> (r: Option<u64>)
        ensures
            r == slot_value(self.slots(), index),
    {
        if index >= self.slots.len() {
            return None;
        }
        match &self.slots[index] {
            FreeSlot::Occupied(val, _stored_gen) => Some(*val),
            FreeSlot::Free { .. } => None,
        }
    }

    pub fn is_occupied(&self, index: usize) -> (r: bool)
        ensures
            r == slot_live(self.slots(), index),
    {
        index < self.slots.len() && match &self.slots[index] {
            FreeSlot::Occupied(..) => true,
            FreeSlot::Free { .. } => false,
        }
    }

    pub fn occupied_count(&self) -> (r: usize)
        ensures
            r == count_live(self.slots()),
    {
        let mut count: usize = 0;
        let mut i: usize = 0;
        while i < self.slots.len()
            invariant
                i <= self.slots@.len(),
                count == count_live(self.slots@.take(i as int)),
                count <= i,
            decreases self.slots@.len() - i,
        {
            assert(self.slots@.take(i + 1).drop_last() =~= self.slots@.take(i as int));
            match &self.slots[i] {
                FreeSlot::Occupied(..) => {
                    count = count + 1;
                },
                FreeSlot::Free { .. } => {},
            }
            i = i + 1;
        }
        assert(self.slots@.take(i as int) =~= self.slots@);
        count
    }
}

impl FreeList {
    /// The slots and the head of the free chain the list is made of.
    pub fn parts(&self) -> (r: (&Vec<FreeSlot>, Option<usize>))
        ensures
            r.0@ == self.slots(),
            r.1 == self.first_free(),
    {
        (&self.slots, self.first_free)
    }

    /// Rebuilds a free list from its slots and chain head; `None` unless the
    /// free links from `first_free` visit every free slot exactly once and
    /// end.
    pub fn from_parts(slots: Vec<FreeSlot>, first_free: Option<usize>) -> (r: Option<FreeList>)
        ensures
            r is Some == (exists|chain: Seq<usize>| is_free_chain(slots@, first_free, chain)),
            r matches Some(fl) ==> fl.wf() && fl.slots() == slots@ && fl.first_free() == first_free,
    {
        let n = slots.len();
        let mut seen: Vec<bool> = Vec::new();
        while seen.len() < n
            invariant
                seen@.len() <= n,
                forall|k: int| 0 <= k < seen@.len() ==> !#[trigger] seen@[k],
            decreases n - seen@.len(),
        {
            seen.push(false);
        }
        let ghost mut chain: Seq<usize> = Seq::empty();
        let mut cur = first_free;
        while cur.is_some()
            invariant
                n == slots@.len(),
                seen@.len() == n,
                is_walk_prefix(slots@, first_free, chain, cur),
                forall|k: int| 0 <= k < n ==> #[trigger] seen@[k] == chain.contains(k as usize),
            decreases n - chain.len(),
        {
            let idx = cur.unwrap();
            if idx >= n {
                proof {
                    Self::lemma_no_chain_past(slots@, first_free, chain, cur);
                }
                return None;
            }
            let next = match &slots[idx] {
                FreeSlot::Free { next, .. } => *next,
                FreeSlot::Occupied(..) => {
                    proof {
                        Self::lemma_no_chain_past(slots@, first_free, chain, cur);
                    }
                    return None;
                },
            };
            if seen[idx] {
                proof {
                    Self::lemma_no_chain_past(slots@, first_free, chain, cur);
                }
                return None;
            }
            let ghost pre_seen = seen@;
            seen.set(idx, true);
            proof {
                let nc = chain.push(idx);
                lemma_walk_step(slots@, first_free, chain, idx, next);
                assert forall|k: int| 0 <= k < n implies #[trigger] seen@[k] == nc.contains(k as usize) by {
                    if k == idx {
                        assert(nc[chain.len() as int] == idx);
                    } else {
                        assert(pre_seen[k] == seen@[k]);
                        if chain.contains(k as usize) {
                            let q = choose|q: int| 0 <= q < chain.len() && chain[q] == k as usize;
                            assert(nc[q] == k as usize);
                        }
                        if nc.contains(k as usize) {
                            let q = choose|q: int| 0 <= q < nc.len() && nc[q] == k as usize;
                            assert(q < chain.len());
                            assert(chain[q] == k as usize);
                        }
                    }
                }
                chain = nc;
                lemma_distinct_below(chain, n as nat);
            }
            cur = next;
        }
        let mut k: usize = 0;
        while k < n
            invariant
                n == slots@.len(),
                seen@.len() == n,
                k <= n,
                is_walk_prefix(slots@, first_free, chain, cur),
                cur is None,
                forall|m: int| 0 <= m < n ==> #[trigger] seen@[m] == chain.contains(m as usize),
                forall|m: int| 0 <= m < k && (#[trigger] slots@[m]) is Free ==> chain.contains(m as usize),
            decreases n - k,
        {
            let free_here = match &slots[k] {
                FreeSlot::Free { .. } => true,
                FreeSlot::Occupied(..) => false,
            };
            if free_here && !seen[k] {
                proof {
                    if exists|c: Seq<usize>| is_free_chain(slots@, first_free, c) {
                        let c = choose|c: Seq<usize>| is_free_chain(slots@, first_free, c);
                        lemma_walk_follows_chain(slots@, first_free, chain, cur, c);
                        assert(c =~= chain);
                        reveal(chain_covers);
                        assert(c.contains(k as usize));
                    }
                }
                return None;
            }
            k = k + 1;
        }
        proof {
            reveal(chain_covers);
            assert(is_free_chain(slots@, first_free, chain));
        }
        let r = FreeList { slots, first_free };
        assert(is_free_chain(r.slots@, r.first_free, chain));
        Some(r)
    }

    /// A walk that stands on an index that is out of range, not free, or
    /// already met cannot be following a free chain.
    proof fn lemma_no_chain_past(slots: Seq<FreeSlot>, head: Option<usize>, chain: Seq<usize>, cur: Option<usize>)
        requires
            is_walk_prefix(slots, head, chain, cur),
            cur is Some,
            (cur.unwrap() as int) >= slots.len() || !(slots[cur.unwrap() as int] is Free) || chain.contains(cur.unwrap()),
        ensures
            !(exists|c: Seq<usize>| is_free_chain(slots, head, c)),
    {
        if exists|c: Seq<usize>| is_free_chain(slots, head, c) {
            let c = choose|c: Seq<usize>| is_free_chain(slots, head, c);
            lemma_walk_follows_chain(slots, head, chain, cur, c);
            let i = chain.len() as int;
            assert(c[i] == cur.unwrap());
            if chain.contains(cur.unwrap()) {
                let q = choose|q: int| 0 <= q < chain.len() && chain[q] == cur.unwrap();
                assert(c[q] == chain[q]);
            }
        }
    }
}

impl FreeList {
    /// What every valid list shows of its free chain: the head, if any, is a
    /// free slot in range, and there is no head exactly when no slot is free.
    pub proof fn lemma_wf_free_slots(&self)
        requires
            self.wf(),
        ensures
            self.first_free() matches Some(h) ==> (h as int) < self.slots().len()
                && self.slots()[h as int] is Free,
            self.first_free() is None <==> !(exists|i: int|
                0 <= i < self.slots().len() && #[trigger] self.slots()[i] is Free),
    {
        let chain = choose|chain: Seq<usize>| is_free_chain(self.slots@, self.first_free, chain);
        reveal(chain_covers);
        if let Some(h) = self.first_free {
            assert(chain[0] == h);
            assert(self.slots()[h as int] is Free);
        } else {
            if exists|i: int| 0 <= i < self.slots().len() && #[trigger] self.slots()[i] is Free {
                let i = choose|i: int| 0 <= i < self.slots().len() && #[trigger] self.slots()[i] is Free;
                assert(chain.contains(i as usize));
            }
        }
    }

    /// What `allocate(value)` means for the slots as a whole: the slot it
    /// hands out was not live (a free one if any slot is free, else a new
    /// one), now holds `value`, the live count grows by one and every other
    /// slot is as it was.
    pub open spec fn allocate_effects(pre: Self, value: u64, r: (usize, u64), post: Self) -> bool {
        &&& (r.0 as int) <= pre.slots().len()
        &&& !slot_live(pre.slots(), r.0)
        &&& (exists|j: int| 0 <= j < pre.slots().len() && #[trigger] pre.slots()[j] is Free) ==> {
            &&& (r.0 as int) < pre.slots().len()
            &&& pre.slots()[r.0 as int] is Free
            &&& post.slots().len() == pre.slots().len()
        }
        &&& !(exists|j: int| 0 <= j < pre.slots().len() && #[trigger] pre.slots()[j] is Free) ==> {
            &&& r == (pre.slots().len() as usize, 0u64)
            &&& post.slots().len() == pre.slots().len() + 1
        }
        &&& slot_value(post.slots(), r.0) == Some(value)
        &&& live_with_generation(post.slots(), r.0, r.1)
        &&& count_live(post.slots()) == count_live(pre.slots()) + 1
        &&& forall|j: usize|
            j != r.0 ==> #[trigger] slot_value(post.slots(), j) == slot_value(pre.slots(), j)
                && slot_live(post.slots(), j) == slot_live(pre.slots(), j)
    }

    /// What `dealloc(index, gen)` means for the slots as a whole: on success
    /// the slot is no longer live and holds nothing, the live count drops by
    /// one and every other slot is as it was.
    pub open spec fn dealloc_effects(pre: Self, index: usize, gen: u64, r: bool, post: Self) -> bool {
        &&& post.slots().len() == pre.slots().len()
        &&& r ==> {
            &&& !slot_live(post.slots(), index)
            &&& slot_value(post.slots(), index) == None::<u64>
            &&& count_live(post.slots()) + 1 == count_live(pre.slots())
        }
        &&& !r ==> count_live(post.slots()) == count_live(pre.slots())
        &&& forall|j: usize|
            j != index ==> #[trigger] slot_value(post.slots(), j) == slot_value(pre.slots(), j)
                && slot_live(post.slots(), j) == slot_live(pre.slots(), j)
    }

    /// Every allocation has the effects `allocate_effects` lists.
    pub proof fn lemma_allocate_effects(pre: Self, value: u64, r: (usize, u64), post: Self)
        requires
            pre.wf(),
            Self::allocate_post(pre, value, r, post),
        ensures
            Self::allocate_effects(pre, value, r, post),
    {
        pre.lemma_wf_free_slots();
        Self::lemma_get_after_allocate(pre, value, r, post);
        Self::lemma_allocate_counts(pre, value, r, post);
        assert(pre.slots.len() == pre.slots@.len());
    }

    /// Every deallocation has the effects `dealloc_effects` lists.
    pub proof fn lemma_dealloc_effects(pre: Self, index: usize, gen: u64, r: bool, post: Self)
        requires
            Self::dealloc_post(pre, index, gen, r, post),
        ensures
            Self::dealloc_effects(pre, index, gen, r, post),
    {
        Self::lemma_dealloc_counts(pre, index, gen, r, post);
    }
}

impl FreeList {
    /// `allocate` touches only the slot it hands out: every other slot, free
    /// ones with their generation and link included, is as it was, and no
    /// slot goes away.
    pub proof fn lemma_allocate_touches_one_slot(pre: Self, value: u64, r: (usize, u64), post: Self)
        requires
            pre.wf(),
            Self::allocate_post(pre, value, r, post),
        ensures
            post.slots().len() >= pre.slots().len(),
            (r.0 as int) < post.slots().len(),
            post.slots()[r.0 as int] == FreeSlot::Occupied(value, r.1),
            forall|j: int|
                0 <= j < pre.slots().len() && j != r.0 ==> #[trigger] post.slots()[j] == pre.slots()[j],
    {
        pre.lemma_wf_free_slots();
        assert(pre.slots.len() == pre.slots@.len());
    }

    /// `dealloc` accepts a handle exactly when its slot is live under that
    /// very generation, whatever else the list holds; an accepted slot
    /// becomes free under the next generation, and no other slot changes.
    pub proof fn lemma_dealloc_accepts_exact_handles(pre: Self, index: usize, gen: u64, r: bool, post: Self)
        requires
            Self::dealloc_post(pre, index, gen, r, post),
        ensures
            r <==> ((index as int) < pre.slots().len() && (pre.slots()[index as int] is Occupied)
                && slot_generation(pre.slots()[index as int]) == gen),
            r ==> (post.slots()[index as int] is Free) && slot_generation(post.slots()[index as int])
                == (gen + 1) as u64,
            post.slots().len() == pre.slots().len(),
            forall|j: int| 0 <= j < pre.slots().len() && j != index ==> #[trigger] post.slots()[j] == pre.slots()[j],
    {
    }

    /// Freed slots come back last freed first, each under the generation
    /// after the one it was freed under: free `i` under `g`, then `k` under
    /// `h`, and the next two allocations hand out `(k, h + 1)`, then
    /// `(i, g + 1)`.
    pub proof fn lemma_reuse_order_and_generations(
        s0: Self,
        i: usize,
        g: u64,
        s1: Self,
        k: usize,
        h: u64,
        s2: Self,
        v1: u64,
        r1: (usize, u64),
        s3: Self,
        v2: u64,
        r2: (usize, u64),
        s4: Self,
    )
        requires
            Self::dealloc_post(s0, i, g, true, s1),
            Self::dealloc_post(s1, k, h, true, s2),
            Self::allocate_post(s2, v1, r1, s3),
            Self::allocate_post(s3, v2, r2, s4),
        ensures
            r1 == (k, (h + 1) as u64),
            r2 == (i, (g + 1) as u64),
            slot_value(s4.slots(), k) == Some(v1),
            slot_value(s4.slots(), i) == Some(v2),
    {
        assert(k != i);
        assert(s3.slots()[i as int] == s1.slots()[i as int]);
    }
}

impl Default for FreeList {
    fn default() -> (r: Self)
        ensures
            r.wf(),
            r.slots() == Seq::<FreeSlot>::empty(),
            r.first_free() == None::<usize>,
    {
        Self::new()
    }
}

/// Replacing one slot changes the live count by what left and what came in.
pub proof fn lemma_count_live_update(s: Seq<FreeSlot>, i: int, x: FreeSlot)
    requires
        0 <= i < s.len(),
    ensures
        count_live(s.update(i, x)) + (if s[i] is Occupied { 1int } else { 0int })
            == count_live(s) + (if x is Occupied { 1int } else { 0int }),
    decreases s.len(),
{
    if i == s.len() - 1 {
        assert(s.update(i, x).drop_last() =~= s.drop_last());
    } else {
        assert(s.update(i, x).drop_last() =~= s.drop_last().update(i, x));
        lemma_count_live_update(s.drop_last(), i, x);
    }
}

impl FreeList {
    /// A value stored by `allocate` is what `get` then answers at the
    /// returned index, under the returned generation.
    pub proof fn lemma_get_after_allocate(pre: Self, value: u64, r: (usize, u64), post: Self)
        requires
            pre.wf(),
            Self::allocate_post(pre, value, r, post),
        ensures
            slot_value(post.slots(), r.0) == Some(value),
            live_with_generation(post.slots(), r.0, r.1),
    {
        if let Some(head) = pre.first_free() {
            let chain = choose|chain: Seq<usize>| is_free_chain(pre.slots@, pre.first_free, chain);
            assert(chain[0] == head);
            assert((head as int) < pre.slots().len());
            assert(post.slots()[head as int] == FreeSlot::Occupied(value, r.1));
        } else {
            assert(pre.slots.len() == pre.slots@.len());
            assert(post.slots()[r.0 as int] == FreeSlot::Occupied(value, 0));
        }
    }

    /// A slot freed by `dealloc` is the one the next `allocate` hands out,
    /// under the next generation.
    pub proof fn lemma_reuse_after_dealloc(
        pre: Self,
        index: usize,
        gen: u64,
        mid: Self,
        value: u64,
        r: (usize, u64),
        post: Self,
    )
        requires
            pre.wf(),
            gen < u64::MAX,
            Self::dealloc_post(pre, index, gen, true, mid),
            Self::allocate_post(mid, value, r, post),
        ensures
            r.0 == index,
            r.1 == gen + 1,
            slot_value(post.slots(), index) == Some(value),
    {
    }

    /// After a successful `dealloc`, the same handle is refused by a second
    /// `dealloc` and the slot holds no value.
    pub proof fn lemma_stale_handle_refused(pre: Self, index: usize, gen: u64, mid: Self)
        requires
            Self::dealloc_post(pre, index, gen, true, mid),
        ensures
            !live_with_generation(mid.slots(), index, gen),
            !slot_live(mid.slots(), index),
            slot_value(mid.slots(), index) == None::<u64>,
    {
    }

    /// `allocate` adds one live slot.
    pub proof fn lemma_allocate_counts(pre: Self, value: u64, r: (usize, u64), post: Self)
        requires
            pre.wf(),
            Self::allocate_post(pre, value, r, post),
        ensures
            count_live(post.slots()) == count_live(pre.slots()) + 1,
    {
        if let Some(head) = pre.first_free() {
            let chain = choose|chain: Seq<usize>| is_free_chain(pre.slots@, pre.first_free, chain);
            assert(chain[0] == head);
            lemma_count_live_update(pre.slots(), head as int, FreeSlot::Occupied(value, r.1));
        } else {
            assert(pre.slots().push(FreeSlot::Occupied(value, 0)).drop_last() =~= pre.slots());
        }
    }

    /// A successful `dealloc` removes one live slot; a refused one changes
    /// nothing.
    pub proof fn lemma_dealloc_counts(pre: Self, index: usize, gen: u64, r: bool, post: Self)
        requires
            Self::dealloc_post(pre, index, gen, r, post),
        ensures
            r ==> count_live(post.slots()) + 1 == count_live(pre.slots()),
            !r ==> count_live(post.slots()) == count_live(pre.slots()),
    {
        if r {
            lemma_count_live_update(
                pre.slots(),
                index as int,
                FreeSlot::Free { next: pre.first_free(), generation: (gen + 1) as u64 },
            );
        }
    }
}

} // verus!
