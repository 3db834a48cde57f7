//! A store of nodes addressed by stable handles.

use vstd::prelude::*;

verus! {

/// Owns a set of nodes, each reachable through the handle that `allocate`
/// returned for it. A handle stays valid, and keeps naming the same node,
/// until it is passed to `release`; released slots are reused.
pub struct Arena<N> {
    slots: Vec<Option<N>>,
    free: Vec<usize>,
}

impl<N> View for Arena<N> {
    type V = Map<usize, N>;

    /// The live nodes, keyed by handle.
    closed spec fn view(&self) -> Map<usize, N> {
        Map::new(
            |h: usize| h < self.slots@.len() && self.slots@[h as int] is Some,
            |h: usize| self.slots@[h as int].unwrap(),
        )
    }
}

impl<N> Arena<N> {
    /// The slot `h` exists and holds no node.
    spec fn vacant(&self, h: usize) -> bool {
        h < self.slots@.len() && self.slots@[h as int] is None
    }

    /// Every slot is either live or listed exactly once as free.
    pub closed spec fn wf(&self) -> bool {
        &&& self@.dom().finite()
        &&& self@.dom().len() + self.free@.len() == self.slots@.len()
        &&& self.free@.no_duplicates()
        &&& forall|i: int| 0 <= i < self.free@.len() ==> self.vacant(#[trigger] self.free@[i])
    }

    /// The number of live nodes fits the handle type.
    pub proof fn lemma_live_bounded(&self)
        requires
            self.wf(),
        ensures
            self@.dom().finite(),
            self@.dom().len() <= usize::MAX,
    {
        assert(self.slots@.len() == self.slots.len());
    }

    /// Creates a store that holds no node.
    pub fn new() -> (arena: Self)
        ensures
            arena.wf(),
            arena@ == Map::<usize, N>::empty(),
    {
        let arena = Arena { slots: Vec::new(), free: Vec::new() };
        assert(arena@ =~= Map::<usize, N>::empty());
        arena
    }

    /// Stores `node` and returns a handle that was not live before.
    pub fn allocate(&mut self, node: N) -> (h: usize)
        requires
            old(self).wf(),
        ensures
            final(self).wf(),
            !old(self)@.contains_key(h),
            final(self)@ == old(self)@.insert(h, node),
            final(self)@.dom().len() == old(self)@.dom().len() + 1,
    {
        let h = match self.free.pop() {
            Some(h) => {
                self.slots[h] = Some(node);
                h
            },
            None => {
                self.slots.push(Some(node));
                self.slots.len() - 1
            },
        };
        assert(self@ =~= old(self)@.insert(h, node));
        h
    }

    /// Takes the node named by `h` out of the store; `h` is dead afterwards.
    pub fn release(&mut self, h: usize) -> (node: N)
        requires
            old(self).wf(),
            old(self)@.contains_key(h),
        ensures
            final(self).wf(),
            node == old(self)@[h],
            final(self)@ == old(self)@.remove(h),
            final(self)@.dom().len() == old(self)@.dom().len() - 1,
    {
        let node = self.slots[h].take().unwrap();
        self.free.push(h);
        assert(self@ =~= old(self)@.remove(h));
        node
    }

    /// Borrows the node named by `h`.
    pub fn get(&self, h: usize) -> (node: &N)
        requires
            self.wf(),
            self@.contains_key(h),
        ensures
            *node == self@[h],
    {
        self.slots[h].as_ref().unwrap()
    }

    /// Borrows the node named by `h` for writing; no other node changes.
    pub fn get_mut(&mut self, h: usize) -> (node: &mut N)
        requires
            old(self).wf(),
            old(self)@.contains_key(h),
        ensures
            *node == old(self)@[h],
            final(self).wf(),
            final(self)@ == old(self)@.insert(h, *final(node)),
            final(self)@.dom() == old(self)@.dom(),
    {
        proof {
            Self::lemma_overwrite(*self, h);
        }
        self.slots[h].as_mut().unwrap()
    }

    /// `after` differs from `before` in the content of the live slot `h` alone.
    spec fn overwritten(before: Self, after: Self, h: usize) -> bool {
        &&& after.free@ == before.free@
        &&& after.slots@.len() == before.slots@.len()
        &&& after.slots@[h as int] is Some
        &&& forall|j: int|
            0 <= j < before.slots@.len() && j != h ==> after.slots@[j] == before.slots@[j]
    }

    /// Overwriting a live slot keeps the store well formed and its handles.
    proof fn lemma_overwrite(before: Self, h: usize)
        requires
            before.wf(),
            before@.contains_key(h),
        ensures
            forall|after: Self|
                #![trigger after.wf()]
                Self::overwritten(before, after, h) ==> after.wf() && after@.dom() == before@.dom()
                    && after@ == before@.insert(h, after.slots@[h as int].unwrap()),
    {
        assert forall|after: Self|
            #![trigger after.wf()]
            Self::overwritten(before, after, h) implies after.wf() && after@.dom() == before@.dom()
            && after@ == before@.insert(h, after.slots@[h as int].unwrap()) by {
            assert(after@ =~= before@.insert(h, after.slots@[h as int].unwrap()));
            assert(after@.dom() =~= before@.dom());
        }
    }
}

} // verus!
