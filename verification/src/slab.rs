//! A vector of slots whose vacated slots are chained into an intrusive
//! free list, so that the most recently vacated slot is the next one reused.
//!
//! Both the per-archetype row storage and the table of entity records of a
//! world are slabs of this kind.
use vstd::prelude::*;

verus! {

/// One slot of a [`Slab`]: either free, holding the index of the next free
/// slot, or holding an item.
pub enum Slot<T> {
    Vacant(Option<usize>),
    Occupied(T),
}

/// A vector of slots with an intrusive free list.
pub struct Slab<T> {
    slots: Vec<Slot<T>>,
    vacancy: Option<usize>,
    free: Ghost<Seq<usize>>,
}

/// The link that the free slot at position `k` of the free list `free` holds.
pub open spec fn free_link(free: Seq<usize>, k: int) -> Option<usize> {
    if k + 1 < free.len() {
        Some(free[k + 1])
    } else {
        None
    }
}

/// The head of the free list `free`.
pub open spec fn free_head(free: Seq<usize>) -> Option<usize> {
    if free.len() > 0 {
        Some(free[0])
    } else {
        None
    }
}

impl<T> Slab<T> {
    /// Well-formedness: the vacant slots are exactly the ones chained from
    /// `vacancy`, each once, in the order of the ghost free list.
    pub closed spec fn wf(&self) -> bool {
        let free = self.free@;
        &&& free.no_duplicates()
        &&& forall|k: int|
            0 <= k < free.len() ==> {
                &&& #[trigger] free[k] < self.slots.len()
                &&& self.slots[free[k] as int] == Slot::<T>::Vacant(free_link(free, k))
            }
        &&& forall|i: int|
            0 <= i < self.slots.len() ==> (#[trigger] self.slots[i] is Vacant ==> free.contains(
                i as usize,
            ))
        &&& self.vacancy == free_head(free)
    }

    /// The occupied slots and their items.
    pub closed spec fn view(&self) -> Map<usize, T> {
        Map::new(
            |i: usize| i < self.slots.len() && self.slots[i as int] is Occupied,
            |i: usize| self.slots[i as int]->Occupied_0,
        )
    }

    /// Number of slots, vacant ones included.
    pub closed spec fn spec_len(&self) -> nat {
        self.slots.len() as nat
    }

    /// The vacant slots, the next one to be reused first.
    pub closed spec fn free_list(&self) -> Seq<usize> {
        self.free@
    }

    /// The slot that the next insertion fills.
    pub open spec fn next_slot(&self) -> usize {
        match free_head(self.free_list()) {
            Some(i) => i,
            None => self.spec_len() as usize,
        }
    }

    pub proof fn lemma_wf_facts(&self)
        requires
            self.wf(),
        ensures
            forall|i: usize| #[trigger] self@.contains_key(i) ==> i < self.spec_len(),
            forall|i: usize|
                i < self.spec_len() ==> (#[trigger] self@.contains_key(i) <==> !self.free_list().contains(i)),
            forall|k: int| 0 <= k < self.free_list().len() ==> #[trigger] self.free_list()[k] < self.spec_len(),
            self.free_list().no_duplicates(),
            self.free_list().len() > 0 ==> !self@.contains_key(self.next_slot()),
            self.free_list().len() == 0 ==> self@.dom() == Set::new(|i: usize| i < self.spec_len()),
    {
        let free = self.free@;
        assert forall|i: usize| i < self.spec_len() implies (#[trigger] self@.contains_key(i)
            <==> !self.free_list().contains(i)) by {
            if free.contains(i) {
                let k = free.index_of(i);
                assert(free[k] == i);
            }
        }
        if free.len() > 0 {
            assert(free[0] < self.slots.len());
        }
        if free.len() == 0 {
            assert(self@.dom() =~= Set::new(|i: usize| i < self.spec_len()));
        }
    }

    pub fn new() -> (s: Self)
        ensures
            s.wf(),
            s@ == Map::<usize, T>::empty(),
            s.spec_len() == 0,
            s.free_list() == Seq::<usize>::empty(),
    {
        let s = Slab { slots: Vec::new(), vacancy: None, free: Ghost(Seq::empty()) };
        assert(s@ =~= Map::<usize, T>::empty());
        s
    }

    /// Number of slots, vacant ones included.
    pub fn len(&self) -> (n: usize)
        ensures
            n == self.spec_len(),
    {
        self.slots.len()
    }

    /// Whether a vacated slot is waiting to be reused.
    pub fn has_vacancy(&self) -> (b: bool)
        requires
            self.wf(),
        ensures
            b == (self.free_list().len() > 0),
    {
        self.vacancy.is_some()
    }

    /// Stores `item` in the most recently vacated slot, or in a new slot at
    /// the end when none is vacant, and returns the slot.
    pub fn insert(&mut self, item: T) -> (i: usize)
        requires
            old(self).wf(),
        ensures
            final(self).wf(),
            i == old(self).next_slot(),
            !old(self)@.contains_key(i),
            final(self)@ == old(self)@.insert(i, item),
            old(self).free_list().len() > 0 ==> {
                &&& final(self).free_list() == old(self).free_list().drop_first()
                &&& final(self).spec_len() == old(self).spec_len()
            },
            old(self).free_list().len() == 0 ==> {
                &&& final(self).free_list() == old(self).free_list()
                &&& final(self).spec_len() == old(self).spec_len() + 1
            },
    {
        proof {
            self.lemma_wf_facts();
        }
        let ghost old_self = *self;
        match self.vacancy {
            Some(i) => {
                let next = match &self.slots[i] {
                    Slot::Vacant(next) => *next,
                    Slot::Occupied(_) => None,
                };
                assert(self.slots[i as int] == Slot::<T>::Vacant(free_link(self.free@, 0)));
                self.slots.set(i, Slot::Occupied(item));
                self.vacancy = next;
                let ghost free = self.free@;
                self.free = Ghost(free.drop_first());
                proof {
                    let nf = free.drop_first();
                    assert forall|k: int| 0 <= k < nf.len() implies {
                        &&& #[trigger] nf[k] < self.slots.len()
                        &&& self.slots[nf[k] as int] == Slot::<T>::Vacant(free_link(nf, k))
                    } by {
                        assert(nf[k] == free[k + 1]);
                        assert(free[k + 1] != free[0]);
                        assert(free_link(nf, k) == free_link(free, k + 1));
                    }
                    assert forall|j: int|
                        0 <= j < self.slots.len() && #[trigger] self.slots[j] is Vacant implies nf.contains(j as usize) by {
                        if self.slots[j] is Vacant {
                            assert(j != i);
                            let k = free.index_of(j as usize);
                            assert(k != 0);
                            assert(nf[k - 1] == j as usize);
                        }
                    }
                    assert(self@ =~= old_self@.insert(i, item));
                }
                i
            },
            None => {
                let i = self.slots.len();
                self.slots.push(Slot::Occupied(item));
                proof {
                    assert forall|j: int|
                        0 <= j < self.slots.len() && #[trigger] self.slots[j] is Vacant implies self.free@.contains(j as usize) by {
                        if j < i {
                            assert(old_self.slots[j] == self.slots[j]);
                        }
                    }
                    assert forall|k: int| 0 <= k < self.free@.len() implies {
                        &&& #[trigger] self.free@[k] < self.slots.len()
                        &&& self.slots[self.free@[k] as int] == Slot::<T>::Vacant(
                            free_link(self.free@, k),
                        )
                    } by {}
                    assert(self@ =~= old_self@.insert(i, item));
                }
                i
            },
        }
    }

    /// Takes the item out of slot `i`; the slot becomes the next one reused.
    pub fn remove(&mut self, i: usize) -> (item: T)
        requires
            old(self).wf(),
            old(self)@.contains_key(i),
        ensures
            final(self).wf(),
            item == old(self)@[i],
            final(self)@ == old(self)@.remove(i),
            final(self).free_list() == seq![i].add(old(self).free_list()),
            final(self).spec_len() == old(self).spec_len(),
            final(self).next_slot() == i,
    {
        proof {
            self.lemma_wf_facts();
        }
        let ghost old_self = *self;
        let mut slot = Slot::Vacant(self.vacancy);
        std::mem::swap(&mut self.slots[i], &mut slot);
        let ghost free = self.free@;
        let ghost nf = seq![i].add(free);
        self.vacancy = Some(i);
        self.free = Ghost(nf);
        proof {
            assert(!free.contains(i));
            assert(nf.no_duplicates()) by {
                assert forall|a: int, b: int| 0 <= a < nf.len() && 0 <= b < nf.len() && a != b implies nf[a]
                    != nf[b] by {
                    if a == 0 {
                        assert(nf[b] == free[b - 1]);
                    } else if b == 0 {
                        assert(nf[a] == free[a - 1]);
                    } else {
                        assert(nf[a] == free[a - 1]);
                        assert(nf[b] == free[b - 1]);
                    }
                }
            }
            assert forall|k: int| 0 <= k < nf.len() implies {
                &&& #[trigger] nf[k] < self.slots.len()
                &&& self.slots[nf[k] as int] == Slot::<T>::Vacant(free_link(nf, k))
            } by {
                if k > 0 {
                    assert(nf[k] == free[k - 1]);
                    assert(free_link(nf, k) == free_link(free, k - 1));
                    assert(free[k - 1] != i);
                } else {
                    assert(free_link(nf, 0) == free_head(free));
                }
            }
            assert forall|j: int|
                0 <= j < self.slots.len() && #[trigger] self.slots[j] is Vacant implies nf.contains(j as usize) by {
                if self.slots[j] is Vacant {
                    if j == i {
                        assert(nf[0] == i);
                    } else {
                        assert(old_self.slots[j] is Vacant);
                        let k = free.index_of(j as usize);
                        assert(nf[k + 1] == j as usize);
                    }
                }
            }
            assert(self@ =~= old_self@.remove(i));
        }
        match slot {
            Slot::Occupied(item) => item,
            Slot::Vacant(_) => vstd::pervasive::unreached(),
        }
    }

    /// The item in slot `i`.
    pub fn get(&self, i: usize) -> (item: &T)
        requires
            self.wf(),
            self@.contains_key(i),
        ensures
            *item == self@[i],
    {
        match &self.slots[i] {
            Slot::Occupied(item) => item,
            Slot::Vacant(_) => vstd::pervasive::unreached(),
        }
    }

    /// The item in slot `i`, to be changed in place.
    pub fn get_mut(&mut self, i: usize) -> (item: &mut T)
        requires
            old(self).wf(),
            old(self)@.contains_key(i),
        ensures
            *item == old(self)@[i],
            final(self).wf(),
            final(self)@ == old(self)@.insert(i, *final(item)),
            final(self).free_list() == old(self).free_list(),
            final(self).spec_len() == old(self).spec_len(),
    {
        match &mut self.slots[i] {
            Slot::Occupied(item) => item,
            Slot::Vacant(_) => vstd::pervasive::unreached(),
        }
    }
}

} // verus!
