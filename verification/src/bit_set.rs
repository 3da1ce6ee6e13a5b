use vstd::prelude::*;
use vstd::std_specs::cmp::PartialEqSpecImpl;
use crate::word_bits::{
    lemma_bit_and, lemma_bit_and_not, lemma_bit_or, lemma_bit_single, lemma_bit_test, lemma_bit_xor,
    lemma_bit_zero, lemma_shift_clear, lemma_word_ext, lemma_word_zero, word_bit,
};

verus! {

/// Bit `i` of a bit set stored as 64-bit words, lowest bit first.
pub open spec fn bit_at(words: Seq<u64>, i: int) -> bool {
    word_bit(words[i / 64], (i % 64) as u64)
}

/// The number of `true` entries.
pub open spec fn count_true(s: Seq<bool>) -> nat
    decreases s.len(),
{
    if s.len() == 0 {
        0
    } else {
        count_true(s.drop_last()) + (if s.last() { 1nat } else { 0nat })
    }
}

/// Just enough words for `size` bits, and no bit set at or past `size`.
pub open spec fn parts_wf(words: Seq<u64>, size: usize) -> bool {
    &&& size <= words.len() * 64 < size + 64
    &&& forall|i: int| size <= i < words.len() * 64 ==> !#[trigger] bit_at(words, i)
}

/// How `union`, `intersection` and `difference` combine two bits.
#[derive(Clone, Copy)]
enum Combine {
    Union,
    Intersection,
    Difference,
}

impl Combine {
    spec fn apply(self, a: bool, b: bool) -> bool {
        match self {
            Combine::Union => a || b,
            Combine::Intersection => a && b,
            Combine::Difference => a && !b,
        }
    }
}

/// A fixed-size set of indices `0..size`, one bit per index.
#[derive(Debug, Clone)]
pub struct BitSet {
    bits: Vec<u64>,
    size: usize,
}

impl View for BitSet {
    type V = Seq<bool>;

    /// Entry `i` tells whether index `i` is in the set.
    closed spec fn view(&self) -> Seq<bool> {
        Seq::new(self.size as nat, |i: int| bit_at(self.bits@, i))
    }
}

impl BitSet {
    /// The words, lowest indices first.
    pub closed spec fn words(&self) -> Seq<u64> {
        self.bits@
    }

    pub closed spec fn wf(&self) -> bool {
        parts_wf(self.bits@, self.size)
    }

    /// A set of `size` indices, all clear.
    pub fn new(size: usize) -> (r: Self)
        ensures
            r.wf(),
            r@ == Seq::new(size as nat, |i: int| false),
    {
        let words = size / 64 + if size % 64 == 0 { 0 } else { 1 };
        let mut bits: Vec<u64> = Vec::new();
        while bits.len() < words
            invariant
                bits@.len() <= words,
                forall|w: int| 0 <= w < bits@.len() ==> #[trigger] bits@[w] == 0u64,
            decreases words - bits@.len(),
        {
            bits.push(0);
        }
        proof {
            assert forall|i: int| 0 <= i < bits@.len() * 64 implies !#[trigger] bit_at(bits@, i) by {
                lemma_bit_zero((i % 64) as u64);
            }
        }
        let r = BitSet { bits, size };
        assert(r@ =~= Seq::new(size as nat, |i: int| false));
        r
    }

    /// Adds `index`.
    pub fn set(&mut self, index: usize)
        requires
            old(self).wf(),
            index < old(self)@.len(),
        ensures
            final(self).wf(),
            final(self)@ == old(self)@.update(index as int, true),
    {
        let ghost pre = self.bits@;
        let w = index / 64;
        let s = (index % 64) as u64;
        let nw = self.bits[w] | (1u64 << s);
        proof {
            Self::lemma_word_update(pre, w as int, nw, index as int, true);
        }
        self.bits.set(w, nw);
        assert(self@ =~= old(self)@.update(index as int, true));
    }

    /// Removes `index`.
    pub fn clear(&mut self, index: usize)
        requires
            old(self).wf(),
            index < old(self)@.len(),
        ensures
            final(self).wf(),
            final(self)@ == old(self)@.update(index as int, false),
    {
        let ghost pre = self.bits@;
        let w = index / 64;
        let s = (index % 64) as u64;
        let nw = self.bits[w] & !(1u64 << s);
        proof {
            Self::lemma_word_update(pre, w as int, nw, index as int, false);
        }
        self.bits.set(w, nw);
        assert(self@ =~= old(self)@.update(index as int, false));
    }

    /// Flips `index`.
    pub fn toggle(&mut self, index: usize)
        requires
            old(self).wf(),
            index < old(self)@.len(),
        ensures
            final(self).wf(),
            final(self)@ == old(self)@.update(index as int, !old(self)@[index as int]),
    {
        let ghost pre = self.bits@;
        let w = index / 64;
        let s = (index % 64) as u64;
        let nw = self.bits[w] ^ (1u64 << s);
        proof {
            Self::lemma_word_update(pre, w as int, nw, index as int, !bit_at(pre, index as int));
        }
        self.bits.set(w, nw);
        assert(self@ =~= old(self)@.update(index as int, !old(self)@[index as int]));
    }

    /// Replacing word `w` by `nw`, where `nw` is the old word with bit
    /// `index % 64` made `value` by `|`, `& !` or `^` with a one-bit mask,
    /// changes bit `index` alone.
    proof fn lemma_word_update(words: Seq<u64>, w: int, nw: u64, index: int, value: bool)
        requires
            0 <= index,
            w == index / 64,
            w < words.len(),
            ({
                let s = (index % 64) as u64;
                let m = 1u64 << s;
                ||| (value && nw == words[w] | m)
                ||| (!value && nw == words[w] & !m)
                ||| (value == !bit_at(words, index) && nw == words[w] ^ m)
            }),
        ensures
            forall|i: int|
                0 <= i < words.len() * 64 ==> #[trigger] bit_at(words.update(w, nw), i) == (if i
                    == index {
                    value
                } else {
                    bit_at(words, i)
                }),
    {
        let s = (index % 64) as u64;
        let m = 1u64 << s;
        assert forall|i: int| 0 <= i < words.len() * 64 implies #[trigger] bit_at(words.update(w, nw), i)
            == (if i == index {
            value
        } else {
            bit_at(words, i)
        }) by {
            if i / 64 == w {
                let j = (i % 64) as u64;
                lemma_bit_single(s, j);
                lemma_bit_or(words[w], m, j);
                lemma_bit_and_not(words[w], m, j);
                lemma_bit_xor(words[w], m, j);
            }
        }
    }

    /// Whether `index` is in the set.
    pub fn is_set(&self, index: usize) -> (r: bool)
        requires
            self.wf(),
            index < self@.len(),
        ensures
            r == self@[index as int],
    {
        let w = self.bits[index / 64];
        let s = (index % 64) as u64;
        proof {
            lemma_bit_test(w, s);
        }
        (w & (1u64 << s)) != 0
    }

    /// The number of indices in the set.
    pub fn count(&self) -> (r: usize)
        requires
            self.wf(),
        ensures
            r == count_true(self@),
    {
        let mut n: usize = 0;
        let mut i: usize = 0;
        while i < self.size
            invariant
                self.wf(),
                i <= self.size,
                n <= i,
                n == count_true(self@.take(i as int)),
            decreases self.size - i,
        {
            assert(self@.take(i + 1).drop_last() =~= self@.take(i as int));
            if self.is_set(i) {
                n = n + 1;
            }
            i = i + 1;
        }
        assert(self@.take(i as int) =~= self@);
        n
    }

    /// Bit `j` of `a op b` combines bit `j` of `a` and of `b`.
    fn combine_words(a: u64, b: u64, op: Combine) -> (r: u64)
        ensures
            forall|j: u64| j < 64 ==> #[trigger] word_bit(r, j) == op.apply(word_bit(a, j), word_bit(b, j)),
    {
        let r = match op {
            Combine::Union => a | b,
            Combine::Intersection => a & b,
            Combine::Difference => a & !b,
        };
        assert forall|j: u64| j < 64 implies #[trigger] word_bit(r, j) == op.apply(
            word_bit(a, j),
            word_bit(b, j),
        ) by {
            lemma_bit_or(a, b, j);
            lemma_bit_and(a, b, j);
            lemma_bit_and_not(a, b, j);
        }
        r
    }

    /// Combines two sets of the same size word by word.
    fn combine(&self, other: &BitSet, op: Combine) -> (r: BitSet)
        requires
            self.wf(),
            other.wf(),
            self@.len() == other@.len(),
        ensures
            r.wf(),
            r@ == Seq::new(self@.len(), |i: int| op.apply(self@[i], other@[i])),
    {
        let n = self.bits.len();
        let mut bits: Vec<u64> = Vec::new();
        let mut k: usize = 0;
        while k < n
            invariant
                self.wf(),
                other.wf(),
                self.size == other.size,
                n == self.bits@.len(),
                k <= n,
                bits@.len() == k,
                forall|i: int|
                    0 <= i < k * 64 ==> #[trigger] bit_at(bits@, i) == op.apply(
                        bit_at(self.bits@, i),
                        bit_at(other.bits@, i),
                    ),
            decreases n - k,
        {
            let w = Self::combine_words(self.bits[k], other.bits[k], op);
            let ghost pre = bits@;
            bits.push(w);
            assert forall|i: int|
                0 <= i < (k + 1) * 64 implies #[trigger] bit_at(bits@, i) == op.apply(
                    bit_at(self.bits@, i),
                    bit_at(other.bits@, i),
                ) by {
                if i < k * 64 {
                    assert(bit_at(pre, i) == bit_at(bits@, i));
                } else {
                    assert(i / 64 == k);
                }
            }
            k = k + 1;
        }
        let r = BitSet { bits, size: self.size };
        assert forall|i: int| r.size <= i < r.bits@.len() * 64 implies !#[trigger] bit_at(r.bits@, i) by {
            assert(!bit_at(self.bits@, i));
            assert(!bit_at(other.bits@, i));
        }
        assert(r@ =~= Seq::new(self@.len(), |i: int| op.apply(self@[i], other@[i])));
        r
    }

    /// The indices in either set. Both sets must have the same size.
    pub fn union(&self, other: &BitSet) -> (r: BitSet)
        requires
            self.wf(),
            other.wf(),
            self@.len() == other@.len(),
        ensures
            r.wf(),
            r@ == Seq::new(self@.len(), |i: int| self@[i] || other@[i]),
    {
        let r = self.combine(other, Combine::Union);
        assert(r@ =~= Seq::new(self@.len(), |i: int| self@[i] || other@[i]));
        r
    }

    /// The indices in both sets. Both sets must have the same size.
    pub fn intersection(&self, other: &BitSet) -> (r: BitSet)
        requires
            self.wf(),
            other.wf(),
            self@.len() == other@.len(),
        ensures
            r.wf(),
            r@ == Seq::new(self@.len(), |i: int| self@[i] && other@[i]),
    {
        let r = self.combine(other, Combine::Intersection);
        assert(r@ =~= Seq::new(self@.len(), |i: int| self@[i] && other@[i]));
        r
    }

    /// The indices in `self` but not in `other`. Both sets must have the
    /// same size.
    pub fn difference(&self, other: &BitSet) -> (r: BitSet)
        requires
            self.wf(),
            other.wf(),
            self@.len() == other@.len(),
        ensures
            r.wf(),
            r@ == Seq::new(self@.len(), |i: int| self@[i] && !other@[i]),
    {
        let r = self.combine(other, Combine::Difference);
        assert(r@ =~= Seq::new(self@.len(), |i: int| self@[i] && !other@[i]));
        r
    }

    /// Whether every index of `self` is in `other`. Both sets must have the
    /// same size.
    pub fn is_subset(&self, other: &BitSet) -> (r: bool)
        requires
            self.wf(),
            other.wf(),
            self@.len() == other@.len(),
        ensures
            r == (forall|i: int| 0 <= i < self@.len() && #[trigger] self@[i] ==> other@[i]),
    {
        let n = self.bits.len();
        let mut k: usize = 0;
        while k < n
            invariant
                self.wf(),
                other.wf(),
                self.size == other.size,
                n == self.bits@.len(),
                k <= n,
                forall|i: int|
                    0 <= i < k * 64 && #[trigger] bit_at(self.bits@, i) ==> bit_at(other.bits@, i),
            decreases n - k,
        {
            let a = self.bits[k];
            let b = other.bits[k];
            if a & !b != 0 {
                proof {
                    if forall|j: u64| j < 64 ==> !#[trigger] word_bit(a & !b, j) {
                        lemma_word_zero(a & !b);
                    }
                    let j = choose|j: u64| j < 64 && #[trigger] word_bit(a & !b, j);
                    lemma_bit_and_not(a, b, j);
                    let i = k * 64 + j;
                    assert(i / 64 == k && i % 64 == j);
                    assert(bit_at(self.bits@, i) && !bit_at(other.bits@, i));
                    assert(self@[i] && !other@[i]);
                }
                return false;
            }
            proof {
                assert forall|i: int|
                    0 <= i < (k + 1) * 64 && #[trigger] bit_at(self.bits@, i) implies bit_at(
                        other.bits@,
                        i,
                    ) by {
                    if i >= k * 64 {
                        let j = (i % 64) as u64;
                        assert(i / 64 == k);
                        lemma_bit_and_not(a, b, j);
                        lemma_bit_zero(j);
                    }
                }
            }
            k = k + 1;
        }
        proof {
            assert forall|i: int| 0 <= i < self@.len() && #[trigger] self@[i] implies other@[i] by {
                assert(bit_at(self.bits@, i));
            }
        }
        true
    }

    /// The indices in the set, in increasing order.
    pub fn iter(&self) -> (r: Vec<usize>)
        requires
            self.wf(),
        ensures
            forall|k: int| 0 <= k < r@.len() ==> (#[trigger] r@[k] as int) < self@.len() && self@[r@[k] as int],
            forall|a: int, b: int| 0 <= a < b < r@.len() ==> #[trigger] r@[a] < #[trigger] r@[b],
            forall|i: int| 0 <= i < self@.len() && #[trigger] self@[i] ==> r@.contains(i as usize),
    {
        let mut r: Vec<usize> = Vec::new();
        let mut i: usize = 0;
        while i < self.size
            invariant
                self.wf(),
                i <= self.size,
                forall|k: int| 0 <= k < r@.len() ==> (#[trigger] r@[k] as int) < i && self@[r@[k] as int],
                forall|a: int, b: int| 0 <= a < b < r@.len() ==> #[trigger] r@[a] < #[trigger] r@[b],
                forall|j: int| 0 <= j < i && #[trigger] self@[j] ==> r@.contains(j as usize),
            decreases self.size - i,
        {
            if self.is_set(i) {
                let ghost pre = r@;
                r.push(i);
                proof {
                    assert forall|j: int| 0 <= j < i + 1 && #[trigger] self@[j] implies r@.contains(
                        j as usize,
                    ) by {
                        if j == i {
                            assert(r@[r@.len() - 1] == i);
                        } else {
                            let k = choose|k: int| 0 <= k < pre.len() && pre[k] == j as usize;
                            assert(r@[k] == j as usize);
                        }
                    }
                }
            }
            i = i + 1;
        }
        r
    }

    /// The number of indices the set ranges over.
    pub fn size(&self) -> (r: usize)
        ensures
            r == self@.len(),
    {
        self.size
    }

    /// Whether no index is in the set.
    pub fn is_empty(&self) -> (r: bool)
        requires
            self.wf(),
        ensures
            r == (forall|i: int| 0 <= i < self@.len() ==> !#[trigger] self@[i]),
    {
        let n = self.bits.len();
        let mut k: usize = 0;
        while k < n
            invariant
                self.wf(),
                n == self.bits@.len(),
                k <= n,
                forall|i: int| 0 <= i < k * 64 ==> !#[trigger] bit_at(self.bits@, i),
            decreases n - k,
        {
            let a = self.bits[k];
            if a != 0 {
                proof {
                    if forall|j: u64| j < 64 ==> !#[trigger] word_bit(a, j) {
                        lemma_word_zero(a);
                    }
                    let j = choose|j: u64| j < 64 && #[trigger] word_bit(a, j);
                    let i = k * 64 + j;
                    assert(i / 64 == k && i % 64 == j);
                    assert(bit_at(self.bits@, i));
                    assert(self@[i]);
                }
                return false;
            }
            proof {
                assert forall|i: int| 0 <= i < (k + 1) * 64 implies !#[trigger] bit_at(self.bits@, i) by {
                    if i >= k * 64 {
                        assert(i / 64 == k);
                        lemma_bit_zero((i % 64) as u64);
                    }
                }
            }
            k = k + 1;
        }
        proof {
            assert forall|i: int| 0 <= i < self@.len() implies !#[trigger] self@[i] by {
                assert(!bit_at(self.bits@, i));
            }
        }
        true
    }
}

impl BitSet {
    /// Same size and same words: what `==` compares.
    pub closed spec fn same_words(&self, other: &BitSet) -> bool {
        self.size == other.size && self.bits@ == other.bits@
    }

    /// Two well-formed sets have the same words exactly when they hold the
    /// same indices over the same size.
    pub proof fn lemma_same_words_iff_same_view(a: &BitSet, b: &BitSet)
        requires
            a.wf(),
            b.wf(),
        ensures
            a.same_words(b) == (a@ == b@),
    {
        if a@ == b@ {
            assert(a.size == b.size) by {
                assert(a@.len() == b@.len());
            }
            assert(a.bits@.len() == b.bits@.len());
            assert forall|w: int| 0 <= w < a.bits@.len() implies a.bits@[w] == b.bits@[w] by {
                assert forall|j: u64| j < 64 implies #[trigger] word_bit(a.bits@[w], j) == word_bit(
                    b.bits@[w],
                    j,
                ) by {
                    let i = w * 64 + j;
                    assert(i / 64 == w && i % 64 == j);
                    if i < a.size {
                        assert(a@[i] == b@[i]);
                    } else {
                        assert(!bit_at(a.bits@, i));
                        assert(!bit_at(b.bits@, i));
                    }
                }
                lemma_word_ext(a.bits@[w], b.bits@[w]);
            }
            assert(a.bits@ =~= b.bits@);
        }
        if a.same_words(b) {
            assert(a@ =~= b@);
        }
    }
}

impl BitSet {
    /// The words and the size the set is made of.
    pub fn parts(&self) -> (r: (&Vec<u64>, usize))
        ensures
            r.0@ == self.words(),
            r.1 == self@.len(),
    {
        (&self.bits, self.size)
    }

    /// Rebuilds a set from its words and size; `None` when the number of
    /// words does not fit the size or a bit at or past `size` is set.
    pub fn from_parts(bits: Vec<u64>, size: usize) -> (r: Option<BitSet>)
        ensures
            r is Some == parts_wf(bits@, size),
            r matches Some(b) ==> b.wf() && b.words() == bits@ && b@.len() == size,
    {
        let full = size / 64;
        let rest = size % 64;
        let expected = if rest == 0 { full } else { full + 1 };
        if bits.len() != expected {
            return None;
        }
        if rest != 0 {
            let last = bits[full];
            proof {
                lemma_shift_clear(last, rest as u64);
            }
            if last >> (rest as u64) != 0 {
                proof {
                    let j = choose|j: u64| rest <= j < 64 && #[trigger] word_bit(last, j);
                    let i = full * 64 + j;
                    assert(i / 64 == full && i % 64 == j);
                    assert(bit_at(bits@, i));
                }
                return None;
            }
            proof {
                assert forall|i: int| size <= i < bits@.len() * 64 implies !#[trigger] bit_at(bits@, i) by {
                    assert(i / 64 == full);
                    assert(!word_bit(last, (i % 64) as u64));
                }
            }
        }
        Some(BitSet { bits, size })
    }
}

impl PartialEq for BitSet {
    fn eq(&self, other: &Self) -> (r: bool) {
        let words_equal = self.bits == other.bits;
        proof {
            if words_equal {
                assert(self.bits@ =~= other.bits@);
            }
        }
        self.size == other.size && words_equal
    }
}

impl PartialEqSpecImpl for BitSet {
    open spec fn obeys_eq_spec() -> bool {
        true
    }

    open spec fn eq_spec(&self, other: &Self) -> bool {
        self.same_words(other)
    }
}

impl Eq for BitSet {}

impl BitSet {
    /// Toggling an index twice gives back the set it started from.
    pub proof fn lemma_toggle_twice(pre: &BitSet, index: int, mid: &BitSet, post: &BitSet)
        requires
            0 <= index < pre@.len(),
            mid@ == pre@.update(index, !pre@[index]),
            post@ == mid@.update(index, !mid@[index]),
        ensures
            post@ == pre@,
    {
        assert(post@ =~= pre@);
    }

    /// Two sets with the same indices are subsets of each other.
    pub proof fn lemma_equal_sets_are_subsets(a: &BitSet, b: &BitSet)
        requires
            a@ == b@,
        ensures
            forall|i: int| 0 <= i < a@.len() && #[trigger] a@[i] ==> b@[i],
            forall|i: int| 0 <= i < b@.len() && #[trigger] b@[i] ==> a@[i],
    {
    }

    /// A set lies within its union with another, its intersection with
    /// another lies within it, and its difference with another shares
    /// nothing with that other.
    pub proof fn lemma_union_intersection_difference(a: &BitSet, b: &BitSet, u: &BitSet, n: &BitSet, d: &BitSet)
        requires
            a@.len() == b@.len(),
            u@ == Seq::new(a@.len(), |i: int| a@[i] || b@[i]),
            n@ == Seq::new(a@.len(), |i: int| a@[i] && b@[i]),
            d@ == Seq::new(a@.len(), |i: int| a@[i] && !b@[i]),
        ensures
            forall|i: int| 0 <= i < a@.len() && #[trigger] a@[i] ==> u@[i],
            forall|i: int| 0 <= i < a@.len() && #[trigger] n@[i] ==> a@[i] && b@[i],
            forall|i: int| 0 <= i < a@.len() ==> !(#[trigger] d@[i] && b@[i]),
    {
    }
}

} // verus!
