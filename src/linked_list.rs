//! A singly-linked list whose nodes live in an arena owned by the list.
//!
//! Nodes are linked by slot indices instead of pointers. The list caches the
//! slot of its last node, so both ends can be reached in constant time.
//! Slots freed by removals are kept on a stack and reused by later insertions.
//! All nodes are released together with the arena, without recursion.

use vstd::prelude::*;

verus! {

struct Node<T> {
    element: Option<T>,
    next: Option<usize>,
}

/// A singly-linked list with owned nodes.
///
/// Pushing at either end and popping at the front take constant time;
/// popping at the back and positional insertion walk the chain from the head.
pub struct LinkedList<T> {
    nodes: Vec<Node<T>>,
    free: Vec<usize>,
    head: Option<usize>,
    tail: Option<usize>,
    len: usize,
    chain: Ghost<Seq<usize>>,
}

/// The link that the node at position `k` of `c` must hold.
spec fn link_after(c: Seq<usize>, k: int) -> Option<usize> {
    if k + 1 < c.len() {
        Some(c[k + 1])
    } else {
        None
    }
}

/// The first slot of `c`, if any.
spec fn first_slot(c: Seq<usize>) -> Option<usize> {
    if c.len() == 0 {
        None
    } else {
        Some(c[0])
    }
}

/// The last slot of `c`, if any.
spec fn last_slot(c: Seq<usize>) -> Option<usize> {
    if c.len() == 0 {
        None
    } else {
        Some(c.last())
    }
}

impl<T> LinkedList<T> {
    /// The node at chain position `k` is live and links to the next one.
    closed spec fn node_ok(&self, k: int) -> bool {
        let c = self.chain@;
        &&& c[k] < self.nodes@.len()
        &&& self.nodes@[c[k] as int].element is Some
        &&& self.nodes@[c[k] as int].next == link_after(c, k)
    }

    /// The chain is reachable from `head`, ends at `tail`, and has `len` nodes.
    closed spec fn chain_ok(&self) -> bool {
        let c = self.chain@;
        &&& self.len == c.len()
        &&& c.no_duplicates()
        &&& forall|k: int| 0 <= k < c.len() ==> #[trigger] self.node_ok(k)
        &&& self.head == first_slot(c)
        &&& self.tail == last_slot(c)
    }

    /// The free slots are in range, distinct, outside `c`, and together with
    /// `c` account for every slot of the arena.
    closed spec fn free_ok(&self, c: Seq<usize>) -> bool {
        let f = self.free@;
        &&& f.no_duplicates()
        &&& forall|j: int|
            0 <= j < f.len() ==> #[trigger] f[j] < self.nodes@.len() && !c.contains(f[j])
        &&& c.len() + f.len() == self.nodes@.len()
    }

    /// The list's structural invariant.
    pub closed spec fn well_formed(&self) -> bool {
        &&& self.chain_ok()
        &&& self.free_ok(self.chain@)
    }

    /// The elements of the list, from front to back.
    pub closed spec fn view(&self) -> Seq<T> {
        Seq::new(
            self.chain@.len(),
            |k: int| self.nodes@[self.chain@[k] as int].element.unwrap(),
        )
    }

    /// Creates an empty `LinkedList`.
    pub fn new() -> (list: Self)
        ensures
            list.well_formed(),
            list@ == Seq::<T>::empty(),
    {
        LinkedList {
            nodes: Vec::new(),
            free: Vec::new(),
            head: None,
            tail: None,
            len: 0,
            chain: Ghost(Seq::empty()),
        }
    }

    /// Returns the number of elements. Constant time.
    pub fn len(&self) -> (n: usize)
        requires
            self.well_formed(),
        ensures
            n == self@.len(),
    {
        self.len
    }

    /// Places a node holding `element` and linking to `next` in a free slot,
    /// or in a new slot at the end of the arena. The chain is left as it was.
    fn take_slot(&mut self, element: T, next: Option<usize>) -> (slot: usize)
        requires
            old(self).well_formed(),
        ensures
            final(self).chain == old(self).chain,
            final(self).head == old(self).head,
            final(self).tail == old(self).tail,
            final(self).len == old(self).len,
            old(self).nodes@.len() <= final(self).nodes@.len(),
            slot < final(self).nodes@.len(),
            !old(self).chain@.contains(slot),
            final(self).nodes@[slot as int] == (Node { element: Some(element), next }),
            forall|s: int|
                0 <= s < old(self).nodes@.len() && s != slot ==> final(self).nodes@[s]
                    == old(self).nodes@[s],
            final(self).free@.no_duplicates(),
            forall|j: int|
                0 <= j < final(self).free@.len() ==> #[trigger] final(self).free@[j]
                    < final(self).nodes@.len() && final(self).free@[j] != slot
                    && !old(self).chain@.contains(final(self).free@[j]),
            old(self).chain@.len() + 1 + final(self).free@.len() == final(self).nodes@.len(),
            old(self).len < usize::MAX,
    {
        let node = Node { element: Some(element), next };
        match self.free.pop() {
            Some(s) => {
                proof {
                    let f = old(self).free@;
                    assert(s == f[f.len() - 1]);
                    assert forall|j: int| 0 <= j < self.free@.len() implies self.free@[j] != s by {
                        assert(self.free@[j] == f[j]);
                    }
                }
                self.nodes.set(s, node);
                assert(self.nodes.len() == self.nodes@.len());
                s
            },
            None => {
                let s = self.nodes.len();
                proof {
                    let c = self.chain@;
                    if c.contains(s) {
                        let k = choose|k: int| 0 <= k < c.len() && c[k] == s;
                        assert(old(self).node_ok(k));
                    }
                }
                self.nodes.push(node);
                assert(self.nodes.len() == self.nodes@.len());
                s
            },
        }
    }

    /// Takes the element out of the node in `slot` and returns the slot to
    /// the free stack.
    fn release(&mut self, slot: usize) -> (element: T)
        requires
            slot < old(self).nodes@.len(),
            old(self).nodes@[slot as int].element is Some,
        ensures
            element == old(self).nodes@[slot as int].element.unwrap(),
            final(self).nodes@.len() == old(self).nodes@.len(),
            final(self).nodes@[slot as int].element is None,
            forall|s: int|
                0 <= s < old(self).nodes@.len() && s != slot ==> final(self).nodes@[s]
                    == old(self).nodes@[s],
            final(self).free@ == old(self).free@.push(slot),
            final(self).chain == old(self).chain,
            final(self).head == old(self).head,
            final(self).tail == old(self).tail,
            final(self).len == old(self).len,
    {
        let element = self.nodes[slot].element.take();
        self.free.push(slot);
        element.unwrap()
    }

    /// Appends an element to the back of the list. Constant time.
    pub fn push_back(&mut self, element: T)
        requires
            old(self).well_formed(),
        ensures
            final(self).well_formed(),
            final(self)@ == old(self)@.push(element),
    {
        let slot = self.take_slot(element, None);
        match self.tail {
            Some(t) => {
                proof {
                    assert(old(self).node_ok(old(self).chain@.len() - 1));
                }
                self.nodes[t].next = Some(slot);
            },
            None => {
                self.head = Some(slot);
            },
        }
        self.tail = Some(slot);
        self.len = self.len + 1;
        proof {
            let c = old(self).chain@;
            let c2 = c.push(slot);
            self.chain = Ghost(c2);
            assert forall|k: int| 0 <= k < c2.len() implies #[trigger] self.node_ok(k) by {
                if k + 1 < c2.len() {
                    assert(old(self).node_ok(k));
                    assert(c2[k] == c[k]);
                }
            }
            assert forall|x: usize| c2.contains(x) <==> (x == slot || c.contains(x)) by {
                if c.contains(x) {
                    let k = choose|k: int| 0 <= k < c.len() && c[k] == x;
                    assert(c2[k] == x);
                }
                if c2.contains(x) && x != slot {
                    let k = choose|k: int| 0 <= k < c2.len() && c2[k] == x;
                    assert(c[k] == x);
                }
                if x == slot {
                    assert(c2[c.len() as int] == x);
                }
            }
            assert(self@ =~= old(self)@.push(element)) by {
                assert forall|k: int| 0 <= k < c.len() implies self@[k] == old(self)@[k] by {
                    assert(old(self).node_ok(k));
                }
            }
        }
    }



    /// Adds an element first in the list. Constant time.
    pub fn push_front(&mut self, element: T)
        requires
            old(self).well_formed(),
        ensures
            final(self).well_formed(),
            final(self)@ == seq![element] + old(self)@,
    {
        let first = self.head;
        let slot = self.take_slot(element, first);
        if self.tail.is_none() {
            self.tail = Some(slot);
        }
        self.head = Some(slot);
        self.len = self.len + 1;
        proof {
            let c = old(self).chain@;
            let c2 = seq![slot] + c;
            self.chain = Ghost(c2);
            assert forall|k: int| 0 <= k < c2.len() implies #[trigger] self.node_ok(k) by {
                if k > 0 {
                    assert(old(self).node_ok(k - 1));
                    assert(c2[k] == c[k - 1]);
                } else if c.len() > 0 {
                    assert(c2[1] == c[0]);
                }
            }
            assert forall|x: usize| c2.contains(x) <==> (x == slot || c.contains(x)) by {
                if c.contains(x) {
                    let k = choose|k: int| 0 <= k < c.len() && c[k] == x;
                    assert(c2[k + 1] == x);
                }
                if c2.contains(x) && x != slot {
                    let k = choose|k: int| 0 <= k < c2.len() && c2[k] == x;
                    assert(c[k - 1] == x);
                }
                if x == slot {
                    assert(c2[0] == x);
                }
            }
            assert(self@ =~= seq![element] + old(self)@) by {
                assert forall|k: int| 0 <= k < c.len() implies self@[k + 1] == old(self)@[k] by {
                    assert(old(self).node_ok(k));
                    assert(c2[k + 1] == c[k]);
                }
            }
        }
    }

    /// Removes the first element and returns it, or `None` if the list is
    /// empty. Constant time.
    pub fn pop_front(&mut self) -> (r: Option<T>)
        requires
            old(self).well_formed(),
        ensures
            final(self).well_formed(),
            old(self)@.len() == 0 ==> r is None && final(self)@ == old(self)@,
            old(self)@.len() > 0 ==> r == Some(old(self)@[0]) && final(self)@ == old(
                self,
            )@.drop_first(),
    {
        match self.head {
            None => None,
            Some(h) => {
                proof {
                    assert(old(self).node_ok(0));
                }
                let next = self.nodes[h].next;
                self.head = next;
                if next.is_none() {
                    self.tail = None;
                }
                self.len = self.len - 1;
                let element = self.release(h);
                proof {
                    let c = old(self).chain@;
                    let c2 = c.drop_first();
                    self.chain = Ghost(c2);
                    if c.len() > 1 {
                        assert(c2[0] == c[1]);
                        assert(c2.last() == c.last());
                    }
                    assert forall|k: int| 0 <= k < c2.len() implies #[trigger] self.node_ok(k) by {
                        assert(old(self).node_ok(k + 1));
                        assert(c2[k] == c[k + 1]);
                        assert(c[k + 1] != h);
                    }
                    self.lemma_sub_chain_frees(c, h);
                    assert(self@ =~= old(self)@.drop_first()) by {
                        assert forall|k: int| 0 <= k < c2.len() implies self@[k] == old(self)@[k + 1] by {
                            assert(old(self).node_ok(k + 1));
                            assert(c[k + 1] != h);
                        }
                    }
                }
                Some(element)
            },
        }
    }

    /// Removes the last element and returns it, or `None` if the list is
    /// empty. Linear time: without backward links, the node before the last
    /// one is found by walking the chain from the head.
    pub fn pop_back(&mut self) -> (r: Option<T>)
        requires
            old(self).well_formed(),
        ensures
            final(self).well_formed(),
            old(self)@.len() == 0 ==> r is None && final(self)@ == old(self)@,
            old(self)@.len() > 0 ==> r == Some(old(self)@.last()) && final(self)@ == old(
                self,
            )@.drop_last(),
    {
        match self.tail {
            None => None,
            Some(t) => {
                let ghost c = self.chain@;
                proof {
                    assert(old(self).node_ok(c.len() - 1));
                }
                if self.len == 1 {
                    self.head = None;
                    self.tail = None;
                } else {
                    let p = self.find_penultimate();
                    proof {
                        assert(old(self).node_ok(c.len() - 2));
                    }
                    self.nodes[p].next = None;
                    self.tail = Some(p);
                }
                self.len = self.len - 1;
                let element = self.release(t);
                proof {
                    let c2 = c.drop_last();
                    self.chain = Ghost(c2);
                    assert forall|k: int| 0 <= k < c2.len() implies #[trigger] self.node_ok(k) by {
                        assert(old(self).node_ok(k));
                        assert(c2[k] == c[k]);
                        assert(c[k] != t);
                    }
                    self.lemma_sub_chain_frees(c, t);
                    assert(self@ =~= old(self)@.drop_last()) by {
                        assert forall|k: int| 0 <= k < c2.len() implies self@[k] == old(self)@[k] by {
                            assert(old(self).node_ok(k));
                            assert(c[k] != t);
                        }
                    }
                }
                Some(element)
            },
        }
    }

    /// Walks the chain from the head to the node whose successor has no
    /// successor, and returns its slot.
    fn find_penultimate(&self) -> (slot: usize)
        requires
            self.well_formed(),
            self.chain@.len() >= 2,
        ensures
            slot == self.chain@[self.chain@.len() - 2],
    {
        let ghost c = self.chain@;
        let mut before: usize = self.head.unwrap();
        proof {
            assert(self.node_ok(0));
        }
        let mut last: usize = self.nodes[before].next.unwrap();
        let ghost mut i: int = 1;
        loop
            invariant
                self.well_formed(),
                c == self.chain@,
                1 <= i < c.len(),
                before == c[i - 1],
                last == c[i],
            ensures
                i == c.len() - 1,
            decreases c.len() - i,
        {
            proof {
                assert(self.node_ok(i));
            }
            match self.nodes[last].next {
                Some(n) => {
                    before = last;
                    last = n;
                    proof {
                        i = i + 1;
                    }
                },
                None => {
                    break ;
                },
            }
        }
        before
    }

    /// After the node in `gone` has left the chain `c` and its slot has been
    /// pushed on the free stack, the free stack fits the shorter chain.
    proof fn lemma_sub_chain_frees(&self, c: Seq<usize>, gone: usize)
        requires
            c.no_duplicates(),
            c.contains(gone),
            self.free@.len() > 0,
            self.free@.last() == gone,
            self.free@.drop_last().no_duplicates(),
            forall|j: int|
                0 <= j < self.free@.len() - 1 ==> #[trigger] self.free@[j] < self.nodes@.len()
                    && !c.contains(self.free@[j]),
            gone < self.nodes@.len(),
            c.len() + self.free@.len() - 1 == self.nodes@.len(),
            self.chain@.len() + 1 == c.len(),
            forall|x: usize| self.chain@.contains(x) ==> c.contains(x) && x != gone,
        ensures
            self.free_ok(self.chain@),
    {
        let f = self.free@;
        assert forall|i: int, j: int| 0 <= i < f.len() && 0 <= j < f.len() && i != j implies f[i]
            != f[j] by {
            if i < f.len() - 1 && j < f.len() - 1 {
                assert(f.drop_last()[i] == f[i]);
                assert(f.drop_last()[j] == f[j]);
            }
        }
    }

    /// Inserts `element` at position `index`, shifting the elements from
    /// `index` on one place towards the back. `index == len` appends.
    /// Linear time: the insertion point is found by walking from the head.
    /// An `index` past the end is a contract violation, excluded here.
    pub fn insert(&mut self, index: usize, element: T)
        requires
            old(self).well_formed(),
            index <= old(self)@.len(),
        ensures
            final(self).well_formed(),
            final(self)@ == old(self)@.insert(index as int, element),
    {
        let (before, after) = self.neighbours(index);
        let slot = self.take_slot(element, after);
        let ghost c = old(self).chain@;
        match before {
            Some(b) => {
                proof {
                    assert(old(self).node_ok(index - 1));
                }
                self.nodes[b].next = Some(slot);
            },
            None => {
                self.head = Some(slot);
            },
        }
        if after.is_none() {
            self.tail = Some(slot);
        }
        self.len = self.len + 1;
        proof {
            let i = index as int;
            let c2 = c.insert(i, slot);
            self.chain = Ghost(c2);
            assert forall|k: int| 0 <= k < c2.len() implies #[trigger] self.node_ok(k) by {
                if k < i {
                    assert(old(self).node_ok(k));
                    assert(c2[k] == c[k]);
                    if k + 1 < i {
                        assert(c2[k + 1] == c[k + 1]);
                    }
                } else if k > i {
                    assert(old(self).node_ok(k - 1));
                    assert(c2[k] == c[k - 1]);
                    if k + 1 < c2.len() {
                        assert(c2[k + 1] == c[k]);
                    }
                } else if k + 1 < c2.len() {
                    assert(c2[k + 1] == c[k]);
                }
            }
            if c.len() > 0 {
                if i == 0 {
                    assert(c2.last() == c.last());
                } else if i < c.len() {
                    assert(c2[0] == c[0]);
                    assert(c2.last() == c.last());
                } else {
                    assert(c2[0] == c[0]);
                }
            }
            assert forall|x: usize| c2.contains(x) <==> (x == slot || c.contains(x)) by {
                if c.contains(x) {
                    let k = choose|k: int| 0 <= k < c.len() && c[k] == x;
                    if k < i {
                        assert(c2[k] == x);
                    } else {
                        assert(c2[k + 1] == x);
                    }
                }
                if c2.contains(x) && x != slot {
                    let k = choose|k: int| 0 <= k < c2.len() && c2[k] == x;
                    if k < i {
                        assert(c[k] == x);
                    } else {
                        assert(c[k - 1] == x);
                    }
                }
                if x == slot {
                    assert(c2[i] == x);
                }
            }
            assert(self@ =~= old(self)@.insert(i, element)) by {
                assert forall|k: int| 0 <= k < c2.len() implies self@[k] == old(self)@.insert(
                    i,
                    element,
                )[k] by {
                    if k < i {
                        assert(old(self).node_ok(k));
                        assert(c2[k] == c[k]);
                    } else if k > i {
                        assert(old(self).node_ok(k - 1));
                        assert(c2[k] == c[k - 1]);
                    }
                }
            }
        }
    }

    /// Walks `index` steps from the head and returns the slots of the nodes
    /// at positions `index - 1` and `index`, where they exist.
    fn neighbours(&self, index: usize) -> (r: (Option<usize>, Option<usize>))
        requires
            self.well_formed(),
            index <= self.chain@.len(),
        ensures
            r.0 == (if index == 0 {
                None
            } else {
                Some(self.chain@[index - 1])
            }),
            r.1 == (if index < self.chain@.len() {
                Some(self.chain@[index as int])
            } else {
                None
            }),
    {
        let ghost c = self.chain@;
        let mut before: Option<usize> = None;
        let mut after: Option<usize> = self.head;
        let mut i: usize = 0;
        while i < index
            invariant
                self.well_formed(),
                c == self.chain@,
                i <= index <= c.len(),
                before == (if i == 0 {
                    None
                } else {
                    Some(c[i - 1])
                }),
                after == (if i < c.len() {
                    Some(c[i as int])
                } else {
                    None
                }),
            decreases index - i,
        {
            proof {
                assert(self.node_ok(i as int));
            }
            let cur = after.unwrap();
            before = after;
            after = self.nodes[cur].next;
            i = i + 1;
        }
        (before, after)
    }

    /// Removes all elements, dropping each exactly once. Linear time.
    pub fn clear(&mut self)
        requires
            old(self).well_formed(),
        ensures
            final(self).well_formed(),
            final(self)@ == Seq::<T>::empty(),
    {
        *self = Self::new();
    }

    /// Provides a reference to the front element, or `None` if the list is
    /// empty. Constant time.
    pub fn front(&self) -> (r: Option<&T>)
        requires
            self.well_formed(),
        ensures
            self@.len() == 0 ==> r is None,
            self@.len() > 0 ==> r == Some(&self@[0]),
    {
        match self.head {
            None => None,
            Some(h) => {
                proof {
                    assert(self.node_ok(0));
                }
                self.nodes[h].element.as_ref()
            },
        }
    }

    /// Provides a reference to the back element, or `None` if the list is
    /// empty. Constant time.
    pub fn back(&self) -> (r: Option<&T>)
        requires
            self.well_formed(),
        ensures
            self@.len() == 0 ==> r is None,
            self@.len() > 0 ==> r == Some(&self@.last()),
    {
        match self.tail {
            None => None,
            Some(t) => {
                proof {
                    assert(self.node_ok(self.chain@.len() - 1));
                }
                self.nodes[t].element.as_ref()
            },
        }
    }

    /// Provides a mutable reference to the front element, or `None` if the
    /// list is empty. Constant time. Writing through the reference replaces
    /// the front element and leaves the rest of the list as it was.
    pub fn front_mut(&mut self) -> (r: Option<&mut T>)
        requires
            old(self).well_formed(),
        ensures
            old(self)@.len() == 0 ==> r is None && *final(self) == *old(self),
            old(self)@.len() > 0 ==> {
                &&& r is Some
                &&& *r.unwrap() == old(self)@[0]
                &&& final(self).well_formed()
                &&& final(self)@ == old(self)@.update(0, *final(r.unwrap()))
            },
    {
        match self.head {
            None => None,
            Some(h) => {
                proof {
                    assert(old(self).node_ok(0));
                }
                proof {
                    old(self).lemma_element_replaced(0);
                }
                self.nodes[h].element.as_mut()
            },
        }
    }

    /// Provides a mutable reference to the back element, or `None` if the
    /// list is empty. Constant time. Writing through the reference replaces
    /// the back element and leaves the rest of the list as it was.
    pub fn back_mut(&mut self) -> (r: Option<&mut T>)
        requires
            old(self).well_formed(),
        ensures
            old(self)@.len() == 0 ==> r is None && *final(self) == *old(self),
            old(self)@.len() > 0 ==> {
                &&& r is Some
                &&& *r.unwrap() == old(self)@.last()
                &&& final(self).well_formed()
                &&& final(self)@ == old(self)@.update(
                    old(self)@.len() - 1,
                    *final(r.unwrap()),
                )
            },
    {
        match self.tail {
            None => None,
            Some(t) => {
                proof {
                    let last = old(self).chain@.len() - 1;
                    assert(old(self).node_ok(last));
                    old(self).lemma_element_replaced(last);
                }
                self.nodes[t].element.as_mut()
            },
        }
    }

    /// `after` differs from `self` only in the element at chain position `i`,
    /// which it still holds.
    closed spec fn replaced_at(&self, after: Self, i: int) -> bool {
        let s = self.chain@[i] as int;
        &&& after.chain == self.chain
        &&& after.head == self.head
        &&& after.tail == self.tail
        &&& after.len == self.len
        &&& after.free == self.free
        &&& after.nodes@.len() == self.nodes@.len()
        &&& forall|t: int| 0 <= t < self.nodes@.len() && t != s ==> after.nodes@[t] == self.nodes@[t]
        &&& after.nodes@[s].element is Some
        &&& after.nodes@[s].next == self.nodes@[s].next
    }

    /// Replacing the element at chain position `i`, and nothing else, keeps
    /// the list well formed and replaces the element at `i` in its view.
    proof fn lemma_element_replaced(&self, i: int)
        requires
            self.well_formed(),
            0 <= i < self.chain@.len(),
        ensures
            forall|after: Self|
                #![trigger after.well_formed()]
                #![trigger after.view()]
                self.replaced_at(after, i) ==> after.well_formed() && after@ == self@.update(
                    i,
                    after.nodes@[self.chain@[i] as int].element.unwrap(),
                ),
    {
        let c = self.chain@;
        assert forall|after: Self| self.replaced_at(after, i) implies after.well_formed()
            && after@ == self@.update(i, after.nodes@[c[i] as int].element.unwrap()) by {
            let e = after.nodes@[c[i] as int].element.unwrap();
            assert forall|k: int| 0 <= k < c.len() implies #[trigger] after.node_ok(k) by {
                assert(self.node_ok(k));
            }
            assert(after@ =~= self@.update(i, e)) by {
                assert forall|k: int| 0 <= k < c.len() && k != i implies after@[k] == self@[k] by {
                    assert(self.node_ok(k));
                    assert(c[k] != c[i]);
                }
            }
        }
    }
}

} // verus!
