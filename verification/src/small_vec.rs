use vstd::prelude::*;

verus! {

/// A vector with two states. `Inline` holds at most `N` elements (here in a
/// `Vec` of its own, in place of an array of uninitialised slots); pushing
/// one more moves them to the `Spilled` state, which holds any number. It
/// never moves back.
#[derive(Debug)]
pub enum SmallVec<T, const N: usize> {
    Inline { data: Vec<T> },
    Spilled(Vec<T>),
}

impl<T, const N: usize> View for SmallVec<T, N> {
    type V = Seq<T>;

    /// The elements, first to last.
    open spec fn view(&self) -> Seq<T> {
        match self {
            SmallVec::Inline { data } => data@,
            SmallVec::Spilled(vec) => vec@,
        }
    }
}

impl<T, const N: usize> SmallVec<T, N> {
    /// An inline vector holds at most `N` elements.
    pub open spec fn wf(&self) -> bool {
        self is Inline ==> self@.len() <= N
    }

    /// An empty inline vector. `N` must be positive.
    pub fn new() -> (r: Self)
        requires
            N > 0,
        ensures
            r.wf(),
            r is Inline,
            r@ == Seq::<T>::empty(),
    {
        SmallVec::Inline { data: Vec::new() }
    }

    /// Appends `item`; an inline vector that is full spills first.
    pub fn push(&mut self, item: T)
        requires
            old(self).wf(),
        ensures
            final(self).wf(),
            final(self)@ == old(self)@.push(item),
            *final(self) is Inline == (*old(self) is Inline && old(self)@.len() < N),
    {
        let mut current = SmallVec::Spilled(Vec::new());
        std::mem::swap(self, &mut current);
        match current {
            SmallVec::Inline { mut data } => {
                if data.len() < N {
                    data.push(item);
                    *self = SmallVec::Inline { data };
                } else {
                    data.push(item);
                    *self = SmallVec::Spilled(data);
                }
            },
            SmallVec::Spilled(mut vec) => {
                vec.push(item);
                *self = SmallVec::Spilled(vec);
            },
        }
    }

    /// Removes and returns the last element, if any. The vector stays
    /// inline or spilled as it was.
    pub fn pop(&mut self) -> (r: Option<T>)
        requires
            old(self).wf(),
        ensures
            final(self).wf(),
            old(self)@.len() > 0 ==> r == Some(old(self)@.last()) && final(self)@ == old(self)@.drop_last(),
            old(self)@.len() == 0 ==> r == None::<T> && final(self)@ == old(self)@,
            *final(self) is Inline == *old(self) is Inline,
    {
        match self {
            SmallVec::Inline { data } => data.pop(),
            SmallVec::Spilled(vec) => vec.pop(),
        }
    }

    pub fn len(&self) -> (r: usize)
        ensures
            r == self@.len(),
    {
        match self {
            SmallVec::Inline { data } => data.len(),
            SmallVec::Spilled(vec) => vec.len(),
        }
    }

    pub fn is_empty(&self) -> (r: bool)
        ensures
            r == (self@.len() == 0),
    {
        self.len() == 0
    }

    /// Whether the elements are still held inline.
    pub fn is_inline(&self) -> (r: bool)
        ensures
            r == self is Inline,
    {
        match self {
            SmallVec::Inline { .. } => true,
            SmallVec::Spilled(_) => false,
        }
    }

    /// Element `i`, if there is one.
    pub fn get(&self, i: usize) -> (r: Option<&T>)
        ensures
            match r {
                Some(v) => i < self@.len() && *v == self@[i as int],
                None => i >= self@.len(),
            },
    {
        let data = match self {
            SmallVec::Inline { data } => data,
            SmallVec::Spilled(vec) => vec,
        };
        if i < data.len() {
            Some(&data[i])
        } else {
            None
        }
    }

    /// A mutable reference to element `i`, if there is one.
    pub fn get_mut(&mut self, i: usize) -> (r: Option<&mut T>)
        ensures
            r is Some == (i < old(self)@.len()),
            r is Some ==> *r.unwrap() == old(self)@[i as int],
            r is Some ==> final(self)@ == old(self)@.update(i as int, *final(r.unwrap())),
            *final(self) is Inline == *old(self) is Inline,
            r is None ==> *final(self) == *old(self),
    {
        match self {
            SmallVec::Inline { data } => {
                if i < data.len() {
                    Some(&mut data[i])
                } else {
                    None
                }
            },
            SmallVec::Spilled(vec) => {
                if i < vec.len() {
                    Some(&mut vec[i])
                } else {
                    None
                }
            },
        }
    }
}

impl<T, const N: usize> core::ops::Index<usize> for SmallVec<T, N> {
    type Output = T;

    fn index(&self, i: usize) -> (r: &T)
        ensures
            *r == self@[i as int],
    {
        match self {
            SmallVec::Inline { data } => &data[i],
            SmallVec::Spilled(vec) => &vec[i],
        }
    }
}

impl<T, const N: usize> vstd::std_specs::core::IndexSpecImpl<usize> for SmallVec<T, N> {
    /// Indexing asks for an element that exists.
    open spec fn index_req(&self, index: &usize) -> bool {
        (*index as int) < self@.len()
    }
}

impl<T, const N: usize> Default for SmallVec<T, N> {
    /// An empty inline vector.
    fn default() -> (r: Self)
        ensures
            r.wf(),
            r is Inline,
            r@ == Seq::<T>::empty(),
    {
        SmallVec::Inline { data: Vec::new() }
    }
}

impl<T, const N: usize> SmallVec<T, N> {
    /// `pop` right after `push` gives back the pushed item and the elements
    /// from before.
    pub proof fn lemma_pop_after_push(pre: Self, item: T, mid: Self, r: Option<T>, post: Self)
        requires
            mid@ == pre@.push(item),
            mid@.len() > 0 ==> r == Some(mid@.last()) && post@ == mid@.drop_last(),
            mid@.len() == 0 ==> r == None::<T> && post@ == mid@,
        ensures
            r == Some(item),
            post@ == pre@,
    {
        assert(post@ =~= pre@);
    }

    /// Pushing onto an inline vector keeps it inline until it would hold
    /// more than `N` elements; a spilled vector stays spilled.
    pub proof fn lemma_inline_until_full(pre: Self, item: T, post: Self)
        requires
            pre.wf(),
            post@ == pre@.push(item),
            post is Inline == (pre is Inline && pre@.len() < N),
        ensures
            post is Inline <==> (pre is Inline && post@.len() <= N),
            pre is Spilled ==> post is Spilled,
    {
    }
}

} // verus!
