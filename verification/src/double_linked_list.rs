//! A doubly linked list with a cached tail.

use crate::arena::Arena;
use crate::chain::{first_handle, last_handle, link_after, link_before};
use crate::model::{
    appended, element_at, first_of, inserted, last_of, prepended, removed, replaced, reversed,
    without_first, without_last,
};
use vstd::prelude::*;

verus! {

/// A node in the doubly linked list.
#[derive(Debug, Clone, PartialEq)]
pub struct Node<T> {
    /// The data stored in the node.
    data: T,
    /// The handle of the previous node in the doubly linked list.
    previous: Option<usize>,
    /// The handle of the next node in the doubly linked list.
    next: Option<usize>,
}

impl<T> Node<T> {
    /// The value that the node holds.
    pub closed spec fn value(self) -> T {
        self.data
    }

    /// The handle of the node that precedes, if any.
    pub closed spec fn predecessor(self) -> Option<usize> {
        self.previous
    }

    /// The handle of the node that follows, if any.
    pub closed spec fn successor(self) -> Option<usize> {
        self.next
    }

    /// Creates a new node with the given value and no neighbours.
    pub fn new(value: T) -> (node: Self)
        ensures
            node.value() == value,
            node.predecessor() is None,
            node.successor() is None,
    {
        Node { data: value, previous: None, next: None }
    }
}

/// A doubly linked list.
///
/// The nodes live in an arena and name each other by handle, each its
/// successor and its predecessor. The list keeps the handles of its first and
/// of its last node, so that both ends are reached without walking the chain.
pub struct KolzoDoublyLinkedList<T> {
    /// The storage of the nodes.
    nodes: Arena<Node<T>>,
    /// The head of the doubly linked list.
    head: Option<usize>,
    /// The tail of the doubly linked list, kept for efficient appending.
    tail: Option<usize>,
    /// The length of the doubly linked list.
    length: u64,
    /// The handles of the nodes, first to last.
    order: Ghost<Seq<usize>>,
}

impl<T> View for KolzoDoublyLinkedList<T> {
    type V = Seq<T>;

    /// The values held, first to last.
    closed spec fn view(&self) -> Seq<T> {
        Self::values_of(self.nodes@, self.order@)
    }
}

impl<T> KolzoDoublyLinkedList<T> {
    /// The invariant of the list: the count is the number of nodes reached
    /// from the head by following `next`; no node is reached twice; the node
    /// store holds these nodes and no others; every node but the first names
    /// its immediate predecessor as `previous`, and the first names none; the
    /// head names the first node and the tail the last one, the only one
    /// without a successor; head and tail are absent exactly when the list is
    /// empty.
    pub closed spec fn wf(&self) -> bool {
        &&& self.nodes.wf()
        &&& self.order@.len() == self.length
        &&& self.nodes@.dom().len() == self.order@.len()
        &&& Self::chained(self.nodes@, self.order@)
        &&& self.head == first_handle(self.order@)
        &&& self.tail == last_handle(self.order@)
    }

    /// The nodes named by `order` are live, pairwise distinct, and linked to
    /// each other in that order, forwards and backwards.
    spec fn chained(nodes: Map<usize, Node<T>>, order: Seq<usize>) -> bool {
        &&& order.no_duplicates()
        &&& forall|i: int| 0 <= i < order.len() ==> nodes.contains_key(#[trigger] order[i])
        &&& forall|i: int|
            0 <= i < order.len() ==> (#[trigger] nodes[order[i]]).next == link_after(order, i)
        &&& forall|i: int|
            0 <= i < order.len() ==> (#[trigger] nodes[order[i]]).previous == link_before(order, i)
    }

    /// The values of the nodes named by `order`, in that order.
    spec fn values_of(nodes: Map<usize, Node<T>>, order: Seq<usize>) -> Seq<T> {
        Seq::new(order.len(), |i: int| nodes[order[i]].data)
    }

    /// The node store after a new node `h` holding `value` was linked in
    /// between the neighbours at positions `at - 1` and `at` of `was`.
    spec fn spliced_in(
        before: Map<usize, Node<T>>,
        was: Seq<usize>,
        at: int,
        h: usize,
        value: T,
    ) -> Map<usize, Node<T>> {
        let p = was[at - 1];
        let n = was[at];
        let fresh = Node { data: value, previous: Some(p), next: Some(n) };
        let with_fresh = before.insert(h, fresh);
        let with_left = with_fresh.insert(p, Node { next: Some(h), ..with_fresh[p] });
        with_left.insert(n, Node { previous: Some(h), ..with_left[n] })
    }

    /// Linking a new node in keeps the chain and puts its value at `at`.
    proof fn lemma_spliced_in(
        before: Map<usize, Node<T>>,
        was: Seq<usize>,
        at: int,
        h: usize,
        value: T,
    )
        requires
            Self::chained(before, was),
            0 < at < was.len(),
            !before.contains_key(h),
        ensures
            Self::chained(Self::spliced_in(before, was, at, h, value), was.insert(at, h)),
            Self::values_of(Self::spliced_in(before, was, at, h, value), was.insert(at, h))
                == Self::values_of(before, was).insert(at, value),
    {
        let after = Self::spliced_in(before, was, at, h, value);
        let now = was.insert(at, h);
        assert forall|i: int| 0 <= i < now.len() implies #[trigger] now[i] == (if i < at {
            was[i]
        } else if i == at {
            h
        } else {
            was[i - 1]
        }) by {}
        assert forall|i: int| 0 <= i < now.len() implies after.contains_key(#[trigger] now[i])
            && after[now[i]].next == link_after(now, i) && after[now[i]].previous == link_before(
            now,
            i,
        ) by {
            if i < at {
                assert(now[i] == was[i]);
            } else if i > at {
                assert(now[i] == was[i - 1]);
            }
        }
        assert(Self::values_of(after, now) =~= Self::values_of(before, was).insert(at, value));
    }

    /// The node store after the node at position `at` of `was`, which is not
    /// the first, was taken out and its neighbours were linked to each other.
    spec fn spliced_out(before: Map<usize, Node<T>>, was: Seq<usize>, at: int) -> Map<
        usize,
        Node<T>,
    > {
        let p = was[at - 1];
        let gone = before[was[at]];
        let without = before.remove(was[at]);
        let with_left = without.insert(p, Node { next: gone.next, ..without[p] });
        match gone.next {
            Some(n) => with_left.insert(n, Node { previous: Some(p), ..with_left[n] }),
            None => with_left,
        }
    }

    /// Taking a node out keeps the chain and drops the value at `at`.
    proof fn lemma_spliced_out(before: Map<usize, Node<T>>, was: Seq<usize>, at: int)
        requires
            Self::chained(before, was),
            0 < at < was.len(),
        ensures
            Self::chained(Self::spliced_out(before, was, at), was.remove(at)),
            Self::values_of(Self::spliced_out(before, was, at), was.remove(at)) == Self::values_of(
                before,
                was,
            ).remove(at),
    {
        let after = Self::spliced_out(before, was, at);
        let now = was.remove(at);
        assert(before[was[at]].next == link_after(was, at));
        assert forall|i: int| 0 <= i < now.len() implies #[trigger] now[i] == (if i < at {
            was[i]
        } else {
            was[i + 1]
        }) by {}
        assert forall|i: int| 0 <= i < now.len() implies after.contains_key(#[trigger] now[i])
            && after[now[i]].next == link_after(now, i) && after[now[i]].previous == link_before(
            now,
            i,
        ) by {
            if i < at {
                assert(now[i] == was[i]);
            } else {
                assert(now[i] == was[i + 1]);
            }
        }
        assert(Self::values_of(after, now) =~= Self::values_of(before, was).remove(at));
    }

    /// Creates a new empty doubly linked list.
    pub fn new() -> (list: Self)
        ensures
            list.wf(),
            list@ == Seq::<T>::empty(),
    {
        let list = KolzoDoublyLinkedList {
            nodes: Arena::new(),
            head: None,
            tail: None,
            length: 0,
            order: Ghost(Seq::empty()),
        };
        assert(list@ =~= Seq::<T>::empty());
        list
    }

    /// The number of values in the list.
    pub fn len(&self) -> (n: u64)
        requires
            self.wf(),
        ensures
            n == self@.len(),
    {
        self.length
    }

    /// Walks from the head to the node at position `index` and returns its
    /// handle.
    fn handle_at(&self, index: u64) -> (h: usize)
        requires
            self.wf(),
            index < self.length,
        ensures
            h == self.order@[index as int],
    {
        let mut current = self.head.unwrap();
        let mut count: u64 = 0;
        while count < index
            invariant
                self.wf(),
                count <= index < self.length,
                current == self.order@[count as int],
            decreases index - count,
        {
            current = self.nodes.get(current).next.unwrap();
            count += 1;
        }
        current
    }

    /// Appends a new node with the given value to the end of the doubly
    /// linked list.
    pub fn append(&mut self, value: T)
        requires
            old(self).wf(),
        ensures
            final(self).wf(),
            final(self)@ == appended(old(self)@, value),
    {
        let mut node = Node::new(value);
        node.previous = self.tail;
        let h = self.nodes.allocate(node);
        match self.tail {
            Some(t) => {
                self.nodes.get_mut(t).next = Some(h);
            },
            None => {
                self.head = Some(h);
            },
        }
        self.tail = Some(h);
        proof {
            self.nodes.lemma_live_bounded();
            self.order@ = self.order@.push(h);
        }
        self.length += 1;
        assert(self@ =~= old(self)@.push(value));
    }

    /// Removes and returns the last element of the doubly linked list, or
    /// returns nothing and leaves the list as it is when it is empty. The
    /// node before the last one is found through the tail, without a walk.
    pub fn pop(&mut self) -> (result: Option<T>)
        requires
            old(self).wf(),
        ensures
            final(self).wf(),
            result == last_of(old(self)@),
            final(self)@ == without_last(old(self)@),
    {
        match self.tail {
            Some(t) => {
                let node = self.nodes.release(t);
                match node.previous {
                    Some(p) => {
                        self.nodes.get_mut(p).next = None;
                    },
                    None => {
                        self.head = None;
                    },
                }
                self.tail = node.previous;
                self.length -= 1;
                proof {
                    self.order@ = self.order@.drop_last();
                }
                assert(self@ =~= old(self)@.drop_last());
                Some(node.data)
            },
            None => None,
        }
    }

    /// Adds a value to the beginning of the doubly linked list.
    pub fn prepend(&mut self, value: T)
        requires
            old(self).wf(),
        ensures
            final(self).wf(),
            final(self)@ == prepended(old(self)@, value),
    {
        let mut node = Node::new(value);
        node.next = self.head;
        let h = self.nodes.allocate(node);
        match self.head {
            Some(first) => {
                self.nodes.get_mut(first).previous = Some(h);
            },
            None => {
                self.tail = Some(h);
            },
        }
        self.head = Some(h);
        proof {
            self.nodes.lemma_live_bounded();
            self.order@ = seq![h] + self.order@;
        }
        self.length += 1;
        assert(self@ =~= seq![value] + old(self)@);
    }

    /// Removes the first element from the doubly linked list and returns it,
    /// or returns nothing and leaves the list as it is when it is empty.
    pub fn pop_first(&mut self) -> (result: Option<T>)
        requires
            old(self).wf(),
        ensures
            final(self).wf(),
            result == first_of(old(self)@),
            final(self)@ == without_first(old(self)@),
    {
        match self.head {
            Some(h) => {
                let node = self.nodes.release(h);
                match node.next {
                    Some(second) => {
                        self.nodes.get_mut(second).previous = None;
                    },
                    None => {
                        self.tail = None;
                    },
                }
                self.head = node.next;
                self.length -= 1;
                proof {
                    self.order@ = self.order@.drop_first();
                }
                assert(self@ =~= old(self)@.drop_first());
                Some(node.data)
            },
            None => None,
        }
    }

    /// Retrieves a reference to the element at the specified index in the
    /// doubly linked list, or nothing if the index is negative or past the
    /// end.
    pub fn get(&self, index: i64) -> (result: Option<&T>)
        requires
            self.wf(),
        ensures
            match element_at(self@, index as int) {
                Some(v) => result == Some(&v),
                None => result is None,
            },
            index < 0 || index >= self@.len() ==> result is None,
    {
        if index < 0 || index as u64 >= self.length {
            return None;
        }
        let h = self.handle_at(index as u64);
        Some(&self.nodes.get(h).data)
    }

    /// Walks the list once and returns references to its values, first to
    /// last.
    pub fn values(&self) -> (out: Vec<&T>)
        requires
            self.wf(),
        ensures
            out@.len() == self@.len(),
            forall|i: int| 0 <= i < out@.len() ==> *out@[i] == self@[i],
    {
        let mut out: Vec<&T> = Vec::new();
        let mut current = self.head;
        while current.is_some()
            invariant
                self.wf(),
                out@.len() <= self.order@.len(),
                current == (if out@.len() < self.order@.len() {
                    Some(self.order@[out@.len() as int])
                } else {
                    None
                }),
                forall|i: int| 0 <= i < out@.len() ==> *out@[i] == self@[i],
            decreases self.order@.len() - out@.len(),
        {
            let node = self.nodes.get(current.unwrap());
            out.push(&node.data);
            current = node.next;
        }
        out
    }

    /// Updates the value of the element at the specified index in the doubly
    /// linked list and returns the old value. If the index is negative or
    /// past the end, the list is left as it is and nothing is returned.
    pub fn set(&mut self, index: i64, value: T) -> (result: Option<T>)
        requires
            old(self).wf(),
        ensures
            final(self).wf(),
            result == element_at(old(self)@, index as int),
            final(self)@ == replaced(old(self)@, index as int, value),
            index < 0 || index >= old(self)@.len() ==> result is None && final(self)@ == old(self)@,
    {
        if index < 0 || index as u64 >= self.length {
            return None;
        }
        let h = self.handle_at(index as u64);
        let mut value = value;
        std::mem::swap(&mut self.nodes.get_mut(h).data, &mut value);
        assert(self@ =~= old(self)@.update(index as int, self.nodes@[h].data));
        Some(value)
    }

    /// Inserts a new element with the specified value at the given index in
    /// the doubly linked list. An index of zero prepends and an index equal
    /// to the length appends; a negative index or one greater than the length
    /// leaves the list as it is.
    pub fn insert(&mut self, index: i64, value: T)
        requires
            old(self).wf(),
        ensures
            final(self).wf(),
            final(self)@ == inserted(old(self)@, index as int, value),
    {
        if index < 0 || index as u64 > self.length {
            return;
        }
        if index == 0 {
            self.prepend(value);
            assert(self@ =~= old(self)@.insert(0, value));
            return;
        }
        if index as u64 == self.length {
            self.append(value);
            assert(self@ =~= old(self)@.insert(index as int, value));
            return;
        }
        let before = self.handle_at(index as u64 - 1);
        let after = self.nodes.get(before).next.unwrap();
        let mut node = Node::new(value);
        node.previous = Some(before);
        node.next = Some(after);
        let h = self.nodes.allocate(node);
        self.nodes.get_mut(before).next = Some(h);
        self.nodes.get_mut(after).previous = Some(h);
        proof {
            self.nodes.lemma_live_bounded();
            Self::lemma_spliced_in(old(self).nodes@, self.order@, index as int, h, value);
            assert(self.nodes@ == Self::spliced_in(
                old(self).nodes@,
                self.order@,
                index as int,
                h,
                value,
            ));
            self.order@ = self.order@.insert(index as int, h);
        }
        self.length += 1;
    }

    /// Removes the element at the specified index from the doubly linked
    /// list. A negative index or one past the end leaves the list as it is.
    pub fn remove(&mut self, index: i64)
        requires
            old(self).wf(),
        ensures
            final(self).wf(),
            final(self)@ == removed(old(self)@, index as int),
    {
        if index < 0 || index as u64 >= self.length {
            return;
        }
        if index == 0 {
            self.pop_first();
            assert(self@ =~= old(self)@.remove(0));
            return;
        }
        let before = self.handle_at(index as u64 - 1);
        let target = self.nodes.get(before).next.unwrap();
        let node = self.nodes.release(target);
        self.nodes.get_mut(before).next = node.next;
        match node.next {
            Some(after) => {
                self.nodes.get_mut(after).previous = Some(before);
            },
            None => {
                self.tail = Some(before);
            },
        }
        self.length -= 1;
        proof {
            Self::lemma_spliced_out(old(self).nodes@, self.order@, index as int);
            assert(self.nodes@ == Self::spliced_out(old(self).nodes@, self.order@, index as int));
            self.order@ = self.order@.remove(index as int);
        }
    }

    /// Reverses the doubly linked list in place: every node exchanges its two
    /// links, the head becomes the old tail and the tail the old head.
    pub fn reverse(&mut self)
        requires
            old(self).wf(),
        ensures
            final(self).wf(),
            final(self)@ == reversed(old(self)@),
    {
        let ghost order = self.order@;
        let ghost start = self.nodes@;
        let mut current = self.head;
        let ghost mut k: int = 0;
        while current.is_some()
            invariant
                self.nodes.wf(),
                self.nodes@.dom() == start.dom(),
                self.length == old(self).length,
                self.head == old(self).head,
                self.tail == old(self).tail,
                order.no_duplicates(),
                0 <= k <= order.len(),
                current == (if k < order.len() {
                    Some(order[k])
                } else {
                    None
                }),
                forall|i: int| 0 <= i < order.len() ==> start.contains_key(#[trigger] order[i]),
                forall|i: int|
                    0 <= i < order.len() ==> (#[trigger] self.nodes@[order[i]]).data
                        == start[order[i]].data,
                forall|i: int|
                    0 <= i < k ==> (#[trigger] self.nodes@[order[i]]).next == link_before(order, i),
                forall|i: int|
                    0 <= i < k ==> (#[trigger] self.nodes@[order[i]]).previous == link_after(
                        order,
                        i,
                    ),
                forall|i: int|
                    k <= i < order.len() ==> (#[trigger] self.nodes@[order[i]]).next == link_after(
                        order,
                        i,
                    ),
                forall|i: int|
                    k <= i < order.len() ==> (#[trigger] self.nodes@[order[i]]).previous
                        == link_before(order, i),
            decreases order.len() - k,
        {
            let h = current.unwrap();
            let node = self.nodes.get_mut(h);
            current = node.next;
            node.next = node.previous;
            node.previous = current;
            proof {
                k = k + 1;
            }
        }
        let head = self.head;
        self.head = self.tail;
        self.tail = head;
        proof {
            let flipped = reversed(order);
            self.order@ = flipped;
            assert forall|i: int|
                0 <= i < flipped.len() implies (#[trigger] self.nodes@[flipped[i]]).next
                == link_after(flipped, i) && self.nodes@[flipped[i]].previous == link_before(
                flipped,
                i,
            ) by {
                let j = order.len() - 1 - i;
                assert(flipped[i] == order[j]);
            }
        }
        assert(self@ =~= reversed(old(self)@));
    }
}

} // verus!
