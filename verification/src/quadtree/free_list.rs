use vstd::prelude::*;

verus! {

/// The type of a handle into a free list.
pub type IndexType = u32;

/// The handle that stands for "none". It terminates the free chain and is
/// never a valid handle.
pub const SENTINEL: IndexType = 0xFFFF_FFFF;

/// One cell of a free list.
pub enum FreeElement<T> {
    /// The cell holds a value.
    Element(T),
    /// The value was erased. The cell holds the handle of the cell that was
    /// erased before it, or `SENTINEL` if no other cell is free.
    Next(IndexType),
}

/// Provides an indexed free list with constant-time removals from anywhere
/// in the list without invalidating indices.
///
/// A handle stays valid, and keeps its value, until that handle itself is
/// erased. Erased handles are handed out again, the most recently erased
/// first, before the list grows.
pub struct FreeList<T> {
    data: Vec<FreeElement<T>>,
    /// The index of the the most recently freed element, or `SENTINEL` if no
    /// element is free.
    first_free: IndexType,
    /// The erased handles in the order in which they will be handed out.
    chain: Ghost<Seq<IndexType>>,
}

impl<T> View for FreeList<T> {
    type V = Map<int, T>;

    /// The live handles, each with its value.
    closed spec fn view(&self) -> Map<int, T> {
        Map::new(
            |h: int| 0 <= h < self.data@.len() && self.data@[h] is Element,
            |h: int| self.data@[h]->Element_0,
        )
    }
}

impl<T> Default for FreeList<T> {
    /// The list without cells.
    fn default() -> (list: Self)
        ensures
            list.wf(),
            list@ == Map::<int, T>::empty(),
            list.capacity_spec() == 0,
            list.free_handles() == Seq::<IndexType>::empty(),
    {
        let list = Self { data: Vec::new(), first_free: SENTINEL, chain: Ghost(Seq::empty()) };
        assert(list@ =~= Map::<int, T>::empty());
        list
    }
}

impl<T> FreeList<T> {
    /// The number of cells, live and erased.
    pub closed spec fn capacity_spec(&self) -> nat {
        self.data@.len()
    }

    /// The erased handles in the order in which `insert` will hand them out
    /// again: the most recently erased first.
    pub closed spec fn free_handles(&self) -> Seq<IndexType> {
        self.chain@
    }

    /// The head of the free chain as stored.
    pub closed spec fn first_free_spec(&self) -> IndexType {
        self.first_free
    }

    /// The representation is consistent: the free chain starts at
    /// `first_free`, runs through exactly the erased cells, each once, and
    /// no handle is the sentinel.
    pub closed spec fn wf(&self) -> bool {
        &&& self.data@.len() <= SENTINEL
        &&& self.chain@.no_duplicates()
        &&& self.first_free == (if self.chain@.len() > 0 {
            self.chain@[0]
        } else {
            SENTINEL
        })
        &&& forall|i: int|
            0 <= i < self.chain@.len() ==> {
                &&& (#[trigger] self.chain@[i]) < self.data@.len()
                &&& self.data@[self.chain@[i] as int] == FreeElement::<T>::Next(
                    if i + 1 < self.chain@.len() {
                        self.chain@[i + 1]
                    } else {
                        SENTINEL
                    },
                )
            }
        &&& forall|h: int|
            0 <= h < self.data@.len() && (#[trigger] self.data@[h]) is Next
                ==> self.chain@.contains(h as IndexType)
    }

    /// Whether `h` is a handle that holds a value.
    pub open spec fn is_live(&self, h: int) -> bool {
        self@.dom().contains(h)
    }

    /// The handle that the next `insert` returns.
    pub open spec fn next_handle(&self) -> int {
        if self.free_handles().len() > 0 {
            self.free_handles()[0] as int
        } else {
            self.capacity_spec() as int
        }
    }

    /// Whether `insert` has a handle to give: an erased one, or a new one
    /// below the sentinel.
    pub open spec fn has_room(&self) -> bool {
        self.free_handles().len() > 0 || self.capacity_spec() < SENTINEL
    }

    /// Every handle, live or erased, is below the capacity; a handle is
    /// live exactly if it is not in the free chain; and the stored head of
    /// the chain is its first handle.
    pub proof fn lemma_handles(&self)
        requires
            self.wf(),
        ensures
            self.capacity_spec() <= SENTINEL,
            forall|h: int| self.is_live(h) ==> 0 <= h < self.capacity_spec(),
            forall|h: int|
                0 <= h < self.capacity_spec() ==> (self.is_live(h) <==> !self.free_handles().contains(
                    h as IndexType,
                )),
            forall|i: int|
                0 <= i < self.free_handles().len() ==> (#[trigger] self.free_handles()[i])
                    < self.capacity_spec(),
            self.free_handles().no_duplicates(),
            self.first_free_spec() == (if self.free_handles().len() > 0 {
                self.free_handles()[0]
            } else {
                SENTINEL
            }),
    {
        assert forall|h: int| 0 <= h < self.capacity_spec() implies (self.is_live(h)
            <==> !self.free_handles().contains(h as IndexType)) by {
            if self.free_handles().contains(h as IndexType) {
                let i = choose|i: int|
                    0 <= i < self.chain@.len() && self.chain@[i] == h as IndexType;
                assert(self.data@[self.chain@[i] as int] is Next);
            }
        }
    }

    /// The number of values that the list holds.
    pub open spec fn len_spec(&self) -> int {
        self.capacity_spec() - self.free_handles().len()
    }

    /// Every cell is live or erased: the live handles are as many as there
    /// are cells that are not in the free chain.
    pub proof fn lemma_live_count(&self)
        requires
            self.wf(),
        ensures
            self@.dom().finite(),
            self@.dom().len() == self.len_spec(),
            self.len_spec() >= 0,
    {
        self.lemma_handles();
        let n = self.capacity_spec() as int;
        let free = Seq::new(self.chain@.len(), |i: int| self.chain@[i] as int);
        let range = vstd::set_lib::set_int_range(0, n);
        let live = self@.dom();
        vstd::set_lib::lemma_int_range(0, n);
        assert(free.no_duplicates());
        free.unique_seq_to_set();
        vstd::seq_lib::seq_to_set_is_finite(free);
        assert(live.subset_of(range));
        vstd::set_lib::lemma_len_subset(live, range);
        assert(live.disjoint(free.to_set())) by {
            assert forall|h: int| live.contains(h) implies !free.to_set().contains(h) by {
                if free.to_set().contains(h) {
                    let i = choose|i: int| 0 <= i < free.len() && free[i] == h;
                    assert(self.chain@[i] == h as IndexType);
                    assert(self.chain@.contains(h as IndexType));
                }
            }
        }
        assert(live + free.to_set() =~= range) by {
            assert forall|h: int| range.contains(h) implies (live + free.to_set()).contains(h) by {
                if !live.contains(h) {
                    assert(self.chain@.contains(h as IndexType));
                    let i = choose|i: int| 0 <= i < self.chain@.len() && self.chain@[i] == h as IndexType;
                    assert(free[i] == h);
                }
            }
            assert forall|h: int| (live + free.to_set()).contains(h) implies range.contains(h) by {
                if free.to_set().contains(h) {
                    let i = choose|i: int| 0 <= i < free.len() && free[i] == h;
                    assert(self.chain@[i] < n);
                }
            }
        }
        vstd::set_lib::lemma_set_disjoint_lens(live, free.to_set());
    }

    /// Inserts an element to the free list and returns an index to it.
    ///
    /// The most recently erased handle is used again if there is one;
    /// otherwise the list grows by one cell.
    pub fn insert(&mut self, element: T) -> (index: IndexType)
        requires
            old(self).wf(),
            old(self).has_room(),
        ensures
            final(self).wf(),
            index == old(self).next_handle(),
            index != SENTINEL,
            !old(self).is_live(index as int),
            final(self)@ == old(self)@.insert(index as int, element),
            old(self).free_handles().len() > 0 ==> {
                &&& final(self).free_handles() == old(self).free_handles().drop_first()
                &&& final(self).capacity_spec() == old(self).capacity_spec()
            },
            old(self).free_handles().len() == 0 ==> {
                &&& final(self).free_handles() == old(self).free_handles()
                &&& final(self).capacity_spec() == old(self).capacity_spec() + 1
            },
    {
        if self.first_free != SENTINEL {
            let index = self.first_free;
            let ghost old_chain = self.chain@;
            assert(old_chain.len() > 0);
            assert(old_chain[0] == index);

            // Set the "first free" pointer to the next free index.
            let next = match &self.data[index as usize] {
                FreeElement::Next(next) => *next,
                FreeElement::Element(_) => SENTINEL,
            };
            self.first_free = next;

            // Place the element into the previously free location.
            self.data[index as usize] = FreeElement::Element(element);
            self.chain = Ghost(old_chain.drop_first());
            proof {
                let chain = self.chain@;
                assert forall|i: int| 0 <= i < chain.len() implies {
                    &&& (#[trigger] chain[i]) < self.data@.len()
                    &&& self.data@[chain[i] as int] == FreeElement::<T>::Next(
                        if i + 1 < chain.len() {
                            chain[i + 1]
                        } else {
                            SENTINEL
                        },
                    )
                } by {
                    assert(chain[i] == old_chain[i + 1]);
                    assert(old_chain[i + 1] != old_chain[0]);
                }
                assert forall|h: int|
                    0 <= h < self.data@.len() && (#[trigger] self.data@[h]) is Next implies chain.contains(
                    h as IndexType,
                ) by {
                    assert(old_chain.contains(h as IndexType));
                    let i = choose|i: int| 0 <= i < old_chain.len() && old_chain[i] == h as IndexType;
                    assert(i > 0);
                    assert(chain[i - 1] == h as IndexType);
                }
                assert(chain.no_duplicates());
                assert(self@ =~= old(self)@.insert(index as int, element));
            }
            index
        } else {
            let ghost old_chain = self.chain@;
            assert(old_chain.len() == 0);
            self.data.push(FreeElement::Element(element));
            let index = (self.data.len() - 1) as IndexType;
            proof {
                assert(self@ =~= old(self)@.insert(index as int, element));
            }
            index
        }
    }

    /// Removes the nth element from the free list.
    ///
    /// The handle becomes the head of the free chain: it is the next one
    /// that `insert` hands out.
    pub fn erase(&mut self, n: IndexType)
        requires
            old(self).wf(),
            old(self).is_live(n as int),
        ensures
            final(self).wf(),
            final(self)@ == old(self)@.remove(n as int),
            final(self).free_handles() == seq![n] + old(self).free_handles(),
            final(self).capacity_spec() == old(self).capacity_spec(),
    {
        let ghost old_chain = self.chain@;
        self.data[n as usize] = FreeElement::Next(self.first_free);
        self.first_free = n;
        self.chain = Ghost(seq![n] + old_chain);
        proof {
            let chain = self.chain@;
            assert(!old_chain.contains(n)) by {
                if old_chain.contains(n) {
                    let i = choose|i: int| 0 <= i < old_chain.len() && old_chain[i] == n;
                    assert(old(self).data@[old_chain[i] as int] is Next);
                }
            }
            assert forall|i: int| 0 <= i < chain.len() implies {
                &&& (#[trigger] chain[i]) < self.data@.len()
                &&& self.data@[chain[i] as int] == FreeElement::<T>::Next(
                    if i + 1 < chain.len() {
                        chain[i + 1]
                    } else {
                        SENTINEL
                    },
                )
            } by {
                if i > 0 {
                    assert(chain[i] == old_chain[i - 1]);
                    assert(old_chain.contains(old_chain[i - 1]));
                }
            }
            assert forall|h: int|
                0 <= h < self.data@.len() && (#[trigger] self.data@[h]) is Next implies chain.contains(
                h as IndexType,
            ) by {
                if h == n as int {
                    assert(chain[0] == n);
                } else {
                    assert(old_chain.contains(h as IndexType));
                    let i = choose|i: int| 0 <= i < old_chain.len() && old_chain[i] == h as IndexType;
                    assert(chain[i + 1] == h as IndexType);
                }
            }
            assert(chain.no_duplicates()) by {
                assert forall|i: int, j: int|
                    0 <= i < chain.len() && 0 <= j < chain.len() && i != j implies chain[i]
                    != chain[j] by {
                    if i > 0 {
                        assert(old_chain.contains(old_chain[i - 1]));
                    }
                    if j > 0 {
                        assert(old_chain.contains(old_chain[j - 1]));
                    }
                }
            }
            assert(self@ =~= old(self)@.remove(n as int));
        }
    }

    /// Removes all elements from the free list.
    pub fn clear(&mut self)
        ensures
            final(self).wf(),
            final(self)@ == Map::<int, T>::empty(),
            final(self).capacity_spec() == 0,
            final(self).free_handles() == Seq::<IndexType>::empty(),
    {
        self.data.clear();
        self.first_free = SENTINEL;
        self.chain = Ghost(Seq::empty());
        assert(self@ =~= Map::<int, T>::empty());
    }

    /// Gets a reference to the value at the specified index.
    pub fn at(&self, index: IndexType) -> (value: &T)
        requires
            self.wf(),
            self.is_live(index as int),
        ensures
            *value == self@[index as int],
    {
        match &self.data[index as usize] {
            FreeElement::Element(value) => value,
            FreeElement::Next(_) => {
                proof {
                    assert(false);
                }
                vstd::pervasive::unreached()
            },
        }
    }

    /// Gets a mutable reference to the value at the specified index.
    pub fn at_mut(&mut self, index: IndexType) -> (value: &mut T)
        requires
            old(self).wf(),
            old(self).is_live(index as int),
        ensures
            *value == old(self)@[index as int],
            final(self).wf(),
            final(self)@ == old(self)@.insert(index as int, *final(value)),
            final(self).free_handles() == old(self).free_handles(),
            final(self).capacity_spec() == old(self).capacity_spec(),
    {
        match &mut self.data[index as usize] {
            FreeElement::Element(value) => value,
            FreeElement::Next(_) => {
                proof {
                    assert(false);
                }
                vstd::pervasive::unreached()
            },
        }
    }

    /// Replaces the value at the specified index.
    pub fn set(&mut self, index: IndexType, value: T)
        requires
            old(self).wf(),
            old(self).is_live(index as int),
        ensures
            final(self).wf(),
            final(self)@ == old(self)@.insert(index as int, value),
            final(self).free_handles() == old(self).free_handles(),
            final(self).capacity_spec() == old(self).capacity_spec(),
    {
        self.data[index as usize] = FreeElement::Element(value);
        proof {
            let chain = self.chain@;
            assert forall|i: int| 0 <= i < chain.len() implies {
                &&& (#[trigger] chain[i]) < self.data@.len()
                &&& self.data@[chain[i] as int] == FreeElement::<T>::Next(
                    if i + 1 < chain.len() {
                        chain[i + 1]
                    } else {
                        SENTINEL
                    },
                )
            } by {
                assert(old(self).data@[chain[i] as int] is Next);
            }
            assert(self@ =~= old(self)@.insert(index as int, value));
        }
    }

    /// Gets the current capacity of the list: the number of its cells, live
    /// and erased.
    pub fn capacity(&self) -> (n: usize)
        ensures
            n == self.capacity_spec(),
    {
        self.data.len()
    }

    /// Gets the head of the free chain: the most recently erased handle, or
    /// `SENTINEL` if no handle is free.
    pub fn first_free(&self) -> (head: IndexType)
        ensures
            head == self.first_free_spec(),
    {
        self.first_free
    }

    /// Tests whether the handle `n` was erased and not handed out again.
    pub fn is_in_free_list(&self, n: IndexType) -> (free: bool)
        requires
            self.wf(),
        ensures
            free == self.free_handles().contains(n),
    {
        let mut token = self.first_free;
        let ghost mut pos: int = 0;
        while token != SENTINEL
            invariant
                self.wf(),
                0 <= pos <= self.chain@.len(),
                token == (if pos < self.chain@.len() {
                    self.chain@[pos]
                } else {
                    SENTINEL
                }),
                forall|i: int| 0 <= i < pos ==> self.chain@[i] != n,
            decreases self.chain@.len() - pos,
        {
            assert(pos < self.chain@.len()) by {
                if pos >= self.chain@.len() {
                    assert(token == SENTINEL);
                }
            }
            if n == token {
                return true;
            }
            assert(self.chain@[pos] < self.data@.len());
            token =
            match &self.data[token as usize] {
                FreeElement::Next(next) => *next,
                FreeElement::Element(_) => SENTINEL,
            };
            proof {
                pos = pos + 1;
            }
        }
        proof {
            if self.chain@.contains(n) {
                let i = choose|i: int| 0 <= i < self.chain@.len() && self.chain@[i] == n;
                assert(self.chain@[i] < self.data@.len());
                if pos < self.chain@.len() {
                    assert(self.chain@[pos] < self.data@.len());
                }
            }
        }
        false
    }
}

} // verus!
