//! A growable store of slots addressed by stable handles. A slot, once
//! filled, keeps its handle for the store's whole lifetime; an insertion
//! reuses the first free slot and only grows the store when none is free.

use vstd::prelude::*;

verus! {

/// A stable handle to one slot of an [`ArenaVec`].
#[derive(Clone, Copy, PartialEq, Eq, Structural, Debug)]
pub struct NodeRef(pub usize);

/// The index of the first free slot, or the store's length when every slot
/// is taken.
pub open spec fn first_none<T>(s: Seq<Option<T>>) -> int
    decreases s.len(),
{
    if s.len() == 0 {
        0
    } else if s[0] is None {
        0
    } else {
        1 + first_none(s.drop_first())
    }
}

/// `first_none` names the first free slot: everything before it is taken,
/// and it is free if it lies within the store.
pub proof fn lemma_first_none<T>(s: Seq<Option<T>>)
    ensures
        0 <= first_none(s) <= s.len(),
        first_none(s) < s.len() ==> s[first_none(s)] is None,
        forall|j: int| 0 <= j < first_none(s) ==> s[j] is Some,
    decreases s.len(),
{
    if s.len() == 0 {
    } else if s[0] is None {
    } else {
        lemma_first_none(s.drop_first());
        assert forall|j: int| 0 <= j < first_none(s) implies s[j] is Some by {
            if j > 0 {
                assert(s.drop_first()[j - 1] is Some);
            }
        }
    }
}

/// Any index that is free while everything before it is taken is
/// `first_none`.
pub proof fn lemma_first_none_is<T>(s: Seq<Option<T>>, i: int)
    requires
        0 <= i <= s.len(),
        i < s.len() ==> s[i] is None,
        forall|j: int| 0 <= j < i ==> s[j] is Some,
    ensures
        first_none(s) == i,
    decreases s.len(),
{
    if s.len() == 0 {
    } else if s[0] is None {
        assert(i == 0);
    } else {
        assert(i >= 1);
        assert forall|j: int| 0 <= j < i - 1 implies s.drop_first()[j] is Some by {
            assert(s[j + 1] is Some);
        }
        lemma_first_none_is(s.drop_first(), i - 1);
    }
}

/// A store of slots; filled slots hold a `T`.
pub struct ArenaVec<T> {
    data: Vec<Option<T>>,
}

impl<T> View for ArenaVec<T> {
    type V = Seq<Option<T>>;

    closed spec fn view(&self) -> Seq<Option<T>> {
        self.data@
    }
}

impl<T> ArenaVec<T> {
    /// A store never holds more slots than a machine word can index.
    pub proof fn lemma_len_bound(&self)
        ensures
            self@.len() <= usize::MAX,
    {
        assert(vstd::std_specs::vec::spec_vec_len(&self.data) == self.data@.len());
    }

    /// The raw slots, free ones included.
    pub fn data(&self) -> (r: &Vec<Option<T>>)
        ensures
            r@ == self@,
    {
        &self.data
    }

    /// A store with `capacity` free slots.
    pub fn new(capacity: usize) -> (r: ArenaVec<T>)
        ensures
            r@.len() == capacity,
            forall|i: int| 0 <= i < capacity ==> r@[i] is None,
    {
        let mut data: Vec<Option<T>> = Vec::new();
        let mut i: usize = 0;
        while i < capacity
            invariant
                i <= capacity,
                data@.len() == i,
                forall|j: int| 0 <= j < i ==> data@[j] is None,
            decreases capacity - i,
        {
            data.push(None);
            i += 1;
        }
        ArenaVec { data }
    }

    /// Fill the first free slot with `value`, growing the store only when no
    /// slot is free, and hand back the slot's handle.
    pub fn insert(&mut self, value: T) -> (r: NodeRef)
        ensures
            r.0 as int == first_none(old(self)@),
            final(self)@ == if first_none(old(self)@) < old(self)@.len() {
                old(self)@.update(first_none(old(self)@), Some(value))
            } else {
                old(self)@.push(Some(value))
            },
    {
        let n = self.data.len();
        let mut i: usize = 0;
        while i < n && self.data[i].is_some()
            invariant
                i <= n,
                n == self.data@.len(),
                forall|j: int| 0 <= j < i ==> self.data@[j] is Some,
            decreases n - i,
        {
            i += 1;
        }
        proof {
            lemma_first_none_is(self.data@, i as int);
        }
        if i < n {
            self.data.set(i, Some(value));
        } else {
            self.data.push(Some(value));
        }
        NodeRef(i)
    }

    /// Read the value in a filled slot.
    pub fn get(&self, index: &NodeRef) -> (r: &T)
        requires
            index.0 < self@.len(),
            self@[index.0 as int] is Some,
        ensures
            self@[index.0 as int] == Some(*r),
    {
        match &self.data[index.0] {
            Some(v) => v,
            None => unreached(),
        }
    }

    /// Write access to the value in a filled slot.
    pub fn get_mut(&mut self, index: &NodeRef) -> (r: &mut T)
        requires
            index.0 < old(self)@.len(),
            old(self)@[index.0 as int] is Some,
        ensures
            old(self)@[index.0 as int] == Some(*r),
            final(self)@ == old(self)@.update(index.0 as int, Some(*final(r))),
    {
        match &mut self.data[index.0] {
            Some(v) => v,
            None => unreached(),
        }
    }
}

} // verus!
