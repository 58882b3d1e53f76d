use vstd::prelude::*;

verus! {

/// A link names the arena slot of a neighbouring node, or is absent.
pub type Link = Option<usize>;

/// One element of a [`DoubleLink`] together with the links to its neighbours.
pub struct Node<T> {
    prev: Link,
    next: Link,
    elem: T,
}

impl<T> Node<T> {
    /// The element that the node holds.
    pub closed spec fn elem(self) -> T {
        self.elem
    }

    /// The node has no neighbour on either side.
    pub closed spec fn detached(self) -> bool {
        self.prev is None && self.next is None
    }

    /// A node that holds `elem` and is linked to nothing.
    pub fn new(elem: T) -> (node: Self)
        ensures
            node.detached(),
            node.elem() == elem,
    {
        Node { prev: None, next: None, elem }
    }
}

/// A doubly linked list whose nodes live in the slots of one arena.
///
/// A node is named by its slot number, its handle. A handle stays valid, and
/// keeps naming the same element, until that element leaves the list.
pub struct DoubleLink<T> {
    nodes: Vec<Option<Node<T>>>,
    free: Vec<usize>,
    head: Link,
    tail: Link,
    order: Ghost<Seq<usize>>,
}

impl<T> View for DoubleLink<T> {
    type V = Seq<T>;

    /// The elements from head to tail.
    closed spec fn view(&self) -> Seq<T> {
        Seq::new(self.order@.len(), |i: int| self.payload(self.order@[i]))
    }
}

impl<T> DoubleLink<T> {
    /// The handles of the linked nodes from head to tail: `handles()[i]` is
    /// the handle of the element `self@[i]`.
    pub closed spec fn handles(&self) -> Seq<usize> {
        self.order@
    }

    spec fn occupied(&self, h: usize) -> bool {
        h < self.nodes@.len() && self.nodes@[h as int] is Some
    }

    spec fn payload(&self, h: usize) -> T {
        self.nodes@[h as int]->0.elem
    }

    spec fn prev_of(&self, h: usize) -> Link {
        self.nodes@[h as int]->0.prev
    }

    spec fn next_of(&self, h: usize) -> Link {
        self.nodes@[h as int]->0.next
    }

    /// The node at position `i` of the order is stored, and its two links
    /// name its neighbours in the order.
    spec fn linked_at(&self, i: int) -> bool {
        let order = self.order@;
        &&& self.occupied(order[i])
        &&& self.prev_of(order[i]) == (if i == 0 { None } else { Some(order[i - 1]) })
        &&& self.next_of(order[i]) == (if i == order.len() - 1 { None } else { Some(order[i + 1]) })
    }

    /// The chain of links spells out the order, every vacant slot is listed
    /// once as free, and every stored node is in the order, except for the
    /// node `floating`, which is stored but in no chain.
    spec fn consistent(&self, floating: Link) -> bool {
        let order = self.order@;
        &&& order.no_duplicates()
        &&& forall|i: int| 0 <= i < order.len() ==> #[trigger] self.linked_at(i)
        &&& self.head == (if order.len() == 0 { None } else { Some(order[0]) })
        &&& self.tail == (if order.len() == 0 { None } else { Some(order[order.len() - 1]) })
        &&& self.free@.no_duplicates()
        &&& forall|j: int| 0 <= j < self.free@.len() ==> !self.occupied(#[trigger] self.free@[j])
                && self.free@[j] < self.nodes@.len()
        &&& forall|h: usize|
            #[trigger] self.occupied(h) ==> order.contains(h) || floating == Some(h)
        &&& forall|h: usize|
            h < self.nodes@.len() && !self.occupied(h) ==> #[trigger] self.free@.contains(h)
        &&& floating matches Some(h) ==> self.occupied(h) && !order.contains(h)
        &&& self.nodes@.len() == order.len() + self.free@.len() + (if floating is Some {
            1nat
        } else {
            0nat
        })
    }

    /// Every node that `before` stores is still stored, with the same element.
    spec fn keeps_elems_of(&self, before: &Self) -> bool {
        forall|g: usize| #[trigger]
            before.occupied(g) ==> self.occupied(g) && self.payload(g) == before.payload(g)
    }

    /// The links, the stored nodes and the list of vacant slots fit together.
    pub closed spec fn coherent(&self) -> bool {
        self.consistent(None)
    }

    /// The invariant of the list: it is coherent, and its handles are
    /// pairwise distinct, one for each element.
    pub open spec fn well_formed(&self) -> bool {
        &&& self.coherent()
        &&& self.handles().no_duplicates()
        &&& self.handles().len() == self@.len()
    }

    /// An empty list.
    pub fn new() -> (list: Self)
        ensures
            list.well_formed(),
            list@ == Seq::<T>::empty(),
            list.handles() == Seq::<usize>::empty(),
    {
        DoubleLink {
            nodes: Vec::new(),
            free: Vec::new(),
            head: None,
            tail: None,
            order: Ghost(Seq::empty()),
        }
    }

    /// The two links of the stored node `h`.
    fn links(&self, h: usize) -> (r: (Link, Link))
        requires
            self.occupied(h),
        ensures
            r.0 == self.prev_of(h),
            r.1 == self.next_of(h),
    {
        match &self.nodes[h] {
            Some(node) => (node.prev, node.next),
            None => (None, None),
        }
    }

    /// Overwrites the link of the stored node `h` towards the head.
    fn set_prev(&mut self, h: usize, prev: Link)
        requires
            old(self).occupied(h),
        ensures
            final(self).nodes@ == old(self).nodes@.update(
                h as int,
                Some(Node { prev, next: old(self).next_of(h), elem: old(self).payload(h) }),
            ),
            final(self).free == old(self).free,
            final(self).head == old(self).head,
            final(self).tail == old(self).tail,
            final(self).order == old(self).order,
    {
        match &mut self.nodes[h] {
            Some(node) => {
                node.prev = prev;
            },
            None => {},
        }
    }

    /// Overwrites the link of the stored node `h` towards the tail.
    fn set_next(&mut self, h: usize, next: Link)
        requires
            old(self).occupied(h),
        ensures
            final(self).nodes@ == old(self).nodes@.update(
                h as int,
                Some(Node { prev: old(self).prev_of(h), next, elem: old(self).payload(h) }),
            ),
            final(self).free == old(self).free,
            final(self).head == old(self).head,
            final(self).tail == old(self).tail,
            final(self).order == old(self).order,
    {
        match &mut self.nodes[h] {
            Some(node) => {
                node.next = next;
            },
            None => {},
        }
    }

    /// Stores `node` in a vacant slot, or in a new one, and returns the
    /// slot's handle. The node is in no chain yet.
    fn occupy(&mut self, node: Node<T>) -> (h: usize)
        requires
            old(self).consistent(None),
        ensures
            final(self).consistent(Some(h)),
            final(self).order == old(self).order,
            final(self).payload(h) == node.elem,
            final(self).prev_of(h) == node.prev,
            final(self).next_of(h) == node.next,
            final(self).keeps_elems_of(old(self)),
    {
        let ghost before = *self;
        match self.free.pop() {
            Some(h) => {
                self.nodes[h] = Some(node);
                proof {
                    assert forall|i: int| 0 <= i < self.order@.len() implies
                        #[trigger] self.linked_at(i) by {
                        assert(before.linked_at(i));
                    }
                    assert forall|g: usize| g < self.nodes@.len() && !self.occupied(g) implies
                        #[trigger] self.free@.contains(g) by {
                        assert(before.free@.contains(g));
                        let j = choose|j: int| 0 <= j < before.free@.len() && before.free@[j] == g;
                        assert(self.free@[j] == g);
                    }
                    if self.order@.contains(h) {
                        let i = choose|i: int| 0 <= i < self.order@.len() && self.order@[i] == h;
                        assert(before.linked_at(i));
                    }
                    assert forall|g: usize| #[trigger] self.occupied(g) implies
                        self.order@.contains(g) || g == h by {
                        if g != h {
                            assert(before.occupied(g));
                        }
                    }
                }
                h
            },
            None => {
                let h = self.nodes.len();
                self.nodes.push(Some(node));
                proof {
                    assert forall|i: int| 0 <= i < self.order@.len() implies
                        #[trigger] self.linked_at(i) by {
                        assert(before.linked_at(i));
                    }
                    if self.order@.contains(h) {
                        let i = choose|i: int| 0 <= i < self.order@.len() && self.order@[i] == h;
                        assert(before.linked_at(i));
                    }
                    assert forall|g: usize| #[trigger] self.occupied(g) implies
                        self.order@.contains(g) || g == h by {
                        if g != h {
                            assert(before.occupied(g));
                        }
                    }
                }
                h
            },
        }
    }

    /// Links the floating node `h` in front of the head.
    fn attach_head(&mut self, h: usize)
        requires
            old(self).consistent(Some(h)),
        ensures
            final(self).consistent(None),
            final(self).order@ == seq![h] + old(self).order@,
            final(self).keeps_elems_of(old(self)),
    {
        let ghost before = *self;
        let old_head = self.head;
        self.set_prev(h, None);
        self.set_next(h, old_head);
        match old_head {
            Some(first) => {
                assert(before.linked_at(0));
                self.set_prev(first, Some(h));
            },
            None => {
                self.tail = Some(h);
            },
        }
        self.head = Some(h);
        self.order = Ghost(seq![h] + self.order@);
        proof {
            let order = self.order@;
            assert forall|i: int| 0 <= i < order.len() implies #[trigger] self.linked_at(i) by {
                if i > 0 {
                    assert(before.linked_at(i - 1));
                }
            }
            assert forall|g: usize| #[trigger] self.occupied(g) implies order.contains(g) by {
                assert(before.occupied(g));
                if g == h {
                    assert(order[0] == h);
                } else {
                    let i = choose|i: int| 0 <= i < before.order@.len() && before.order@[i] == g;
                    assert(order[i + 1] == g);
                }
            }
        }
    }

    /// Links the floating node `h` behind the tail.
    fn attach_tail(&mut self, h: usize)
        requires
            old(self).consistent(Some(h)),
        ensures
            final(self).consistent(None),
            final(self).order@ == old(self).order@.push(h),
            final(self).keeps_elems_of(old(self)),
    {
        let ghost before = *self;
        let old_tail = self.tail;
        self.set_next(h, None);
        self.set_prev(h, old_tail);
        match old_tail {
            Some(last) => {
                assert(before.linked_at(before.order@.len() - 1));
                self.set_next(last, Some(h));
            },
            None => {
                self.head = Some(h);
            },
        }
        self.tail = Some(h);
        self.order = Ghost(self.order@.push(h));
        proof {
            let order = self.order@;
            assert forall|i: int| 0 <= i < order.len() implies #[trigger] self.linked_at(i) by {
                if i < order.len() - 1 {
                    assert(before.linked_at(i));
                }
            }
            assert forall|g: usize| #[trigger] self.occupied(g) implies order.contains(g) by {
                assert(before.occupied(g));
                if g == h {
                    assert(order[order.len() - 1] == h);
                } else {
                    let i = choose|i: int| 0 <= i < before.order@.len() && before.order@[i] == g;
                    assert(order[i] == g);
                }
            }
        }
    }

    /// Takes the node `h` out of the chain and joins its neighbours to each
    /// other. The node stays stored, with both of its links cleared.
    fn detach(&mut self, h: usize)
        requires
            old(self).consistent(None),
            old(self).order@.contains(h),
        ensures
            final(self).consistent(Some(h)),
            final(self).order@ == old(self).order@.remove(old(self).order@.index_of(h)),
            final(self).keeps_elems_of(old(self)),
            final(self).prev_of(h) is None,
            final(self).next_of(h) is None,
    {
        let ghost before = *self;
        let ghost at = self.order@.index_of(h);
        assert(before.linked_at(at));
        let (prev, next) = self.links(h);
        match prev {
            Some(p) => {
                assert(before.linked_at(at - 1));
                self.set_next(p, next);
            },
            None => {
                self.head = next;
            },
        }
        match next {
            Some(n) => {
                assert(before.linked_at(at + 1));
                self.set_prev(n, prev);
            },
            None => {
                self.tail = prev;
            },
        }
        self.set_prev(h, None);
        self.set_next(h, None);
        self.order = Ghost(self.order@.remove(at));
        proof {
            let order = self.order@;
            assert forall|i: int| 0 <= i < order.len() implies #[trigger] self.linked_at(i) by {
                if i < at {
                    assert(before.linked_at(i));
                } else {
                    assert(before.linked_at(i + 1));
                }
            }
            assert forall|g: usize| #[trigger] self.occupied(g) implies
                order.contains(g) || g == h by {
                assert(before.occupied(g));
                if g != h {
                    let i = choose|i: int| 0 <= i < before.order@.len() && before.order@[i] == g;
                    if i < at {
                        assert(order[i] == g);
                    } else {
                        assert(order[i - 1] == g);
                    }
                }
            }
        }
    }

    /// Empties the slot of the floating node `h`, lists the slot as free and
    /// returns the element.
    fn vacate(&mut self, h: usize) -> (elem: T)
        requires
            old(self).consistent(Some(h)),
        ensures
            final(self).consistent(None),
            final(self).order == old(self).order,
            elem == old(self).payload(h),
            forall|g: usize| g != h && #[trigger] old(self).occupied(g) ==> final(self).occupied(g)
                && final(self).payload(g) == old(self).payload(g),
    {
        let ghost before = *self;
        let slot = &mut self.nodes[h];
        let node = slot.take();
        self.free.push(h);
        proof {
            assert forall|i: int| 0 <= i < self.order@.len() implies
                #[trigger] self.linked_at(i) by {
                assert(before.linked_at(i));
            }
            assert forall|g: usize| #[trigger] self.occupied(g) implies self.order@.contains(g) by {
                assert(before.occupied(g));
            }
            assert forall|g: usize| g < self.nodes@.len() && !self.occupied(g) implies
                #[trigger] self.free@.contains(g) by {
                if g == h {
                    assert(self.free@[self.free@.len() - 1] == h);
                } else {
                    assert(before.free@.contains(g));
                    let j = choose|j: int| 0 <= j < before.free@.len() && before.free@[j] == g;
                    assert(self.free@[j] == g);
                }
            }
        }
        node.unwrap().elem
    }

    /// The number of elements.
    pub fn len(&self) -> (n: usize)
        requires
            self.well_formed(),
        ensures
            n == self@.len(),
    {
        self.nodes.len() - self.free.len()
    }

    /// The handle of the head, if the list is not empty.
    pub fn head_handle(&self) -> (h: Link)
        requires
            self.well_formed(),
        ensures
            h == (if self@.len() == 0 { None } else { Some(self.handles()[0]) }),
    {
        self.head
    }

    /// The handle of the tail, if the list is not empty.
    pub fn tail_handle(&self) -> (h: Link)
        requires
            self.well_formed(),
        ensures
            h == (if self@.len() == 0 { None } else { Some(self.handles()[self@.len() - 1]) }),
    {
        self.tail
    }

    /// Whether `h` is the handle of a node of the list.
    pub fn is_linked(&self, h: usize) -> (linked: bool)
        requires
            self.well_formed(),
        ensures
            linked == self.handles().contains(h),
    {
        proof {
            if self.order@.contains(h) {
                assert(self.linked_at(self.order@.index_of(h)));
            }
            assert(self.occupied(h) <==> self.order@.contains(h));
        }
        h < self.nodes.len() && self.nodes[h].is_some()
    }

    /// The element that the handle `h` names.
    pub fn get(&self, h: usize) -> (elem: &T)
        requires
            self.well_formed(),
            self.handles().contains(h),
        ensures
            *elem == self@[self.handles().index_of(h)],
    {
        proof {
            assert(self.linked_at(self.order@.index_of(h)));
        }
        match &self.nodes[h] {
            Some(node) => &node.elem,
            None => vstd::pervasive::unreached(),
        }
    }

    /// Puts `elem` in front of the head. The new node gets a handle that no
    /// other node of the list has; the other nodes keep theirs.
    pub fn push_head(&mut self, elem: T) -> (list: &mut Self)
        requires
            old(self).well_formed(),
        ensures
            list.well_formed(),
            list@ == seq![elem] + old(self)@,
            list.handles() == seq![list.handles()[0]] + old(self).handles(),
            *final(list) == *final(self),
    {
        let ghost before = *self;
        let h = self.occupy(Node::new(elem));
        self.attach_head(h);
        proof {
            assert forall|i: int| 0 <= i < self@.len() implies
                self@[i] == (seq![elem] + before@)[i] by {
                if i > 0 {
                    assert(before.linked_at(i - 1));
                }
            }
        }
        self
    }

    /// Puts `elem` behind the tail. The new node gets a handle that no
    /// other node of the list has; the other nodes keep theirs.
    pub fn push_tail(&mut self, elem: T) -> (list: &mut Self)
        requires
            old(self).well_formed(),
        ensures
            list.well_formed(),
            list@ == old(self)@.push(elem),
            list.handles() == old(self).handles().push(list.handles().last()),
            *final(list) == *final(self),
    {
        let ghost before = *self;
        let h = self.occupy(Node::new(elem));
        self.attach_tail(h);
        proof {
            assert forall|i: int| 0 <= i < self@.len() implies
                self@[i] == before@.push(elem)[i] by {
                if i < before.order@.len() {
                    assert(before.linked_at(i));
                }
            }
        }
        self
    }

    /// Removes the element that the handle `h` names, whatever its position,
    /// and returns it. The other elements keep their order and their handles.
    pub fn unlink(&mut self, h: usize) -> (elem: T)
        requires
            old(self).well_formed(),
            old(self).handles().contains(h),
        ensures
            final(self).well_formed(),
            elem == old(self)@[old(self).handles().index_of(h)],
            final(self)@ == old(self)@.remove(old(self).handles().index_of(h)),
            final(self).handles() == old(self).handles().remove(old(self).handles().index_of(h)),
    {
        let ghost before = *self;
        let ghost at = self.order@.index_of(h);
        self.detach(h);
        let elem = self.vacate(h);
        proof {
            assert(before.linked_at(at));
            assert forall|i: int| 0 <= i < self@.len() implies
                self@[i] == before@.remove(at)[i] by {
                let j = if i < at { i } else { i + 1 };
                assert(before.linked_at(j));
            }
        }
        elem
    }

    /// Moves the element that the handle `h` names in front of the head. It
    /// keeps its handle, and so do the others.
    pub fn promote(&mut self, h: usize)
        requires
            old(self).well_formed(),
            old(self).handles().contains(h),
        ensures
            final(self).well_formed(),
            final(self)@ == seq![old(self)@[old(self).handles().index_of(h)]] + old(self)@.remove(
                old(self).handles().index_of(h),
            ),
            final(self).handles() == seq![h] + old(self).handles().remove(
                old(self).handles().index_of(h),
            ),
    {
        let ghost before = *self;
        let ghost at = self.order@.index_of(h);
        self.detach(h);
        self.attach_head(h);
        proof {
            let moved = seq![before@[at]] + before@.remove(at);
            assert forall|i: int| 0 <= i < self@.len() implies self@[i] == moved[i] by {
                let j = if i == 0 { at } else if i - 1 < at { i - 1 } else { i };
                assert(before.linked_at(j));
            }
        }
    }

    /// Removes the head and returns its element; `None` on an empty list.
    pub fn pop_head(&mut self) -> (elem: Option<T>)
        requires
            old(self).well_formed(),
        ensures
            final(self).well_formed(),
            old(self)@.len() == 0 ==> ({
                &&& elem is None
                &&& final(self)@ == old(self)@
                &&& final(self).handles() == old(self).handles()
            }),
            old(self)@.len() > 0 ==> ({
                &&& elem == Some(old(self)@[0])
                &&& final(self)@ == old(self)@.drop_first()
                &&& final(self).handles() == old(self).handles().drop_first()
            }),
    {
        match self.head {
            None => None,
            Some(h) => Some(self.unlink(h)),
        }
    }

    /// Removes the tail and returns its element; `None` on an empty list.
    pub fn pop_tail(&mut self) -> (elem: Option<T>)
        requires
            old(self).well_formed(),
        ensures
            final(self).well_formed(),
            old(self)@.len() == 0 ==> ({
                &&& elem is None
                &&& final(self)@ == old(self)@
                &&& final(self).handles() == old(self).handles()
            }),
            old(self)@.len() > 0 ==> ({
                &&& elem == Some(old(self)@.last())
                &&& final(self)@ == old(self)@.drop_last()
                &&& final(self).handles() == old(self).handles().drop_last()
            }),
    {
        match self.tail {
            None => None,
            Some(h) => Some(self.unlink(h)),
        }
    }

    /// The element at the head, if the list is not empty.
    pub fn peek_head(&self) -> (elem: Option<&T>)
        requires
            self.well_formed(),
        ensures
            elem == (if self@.len() == 0 { None } else { Some(&self@[0]) }),
    {
        match self.head {
            None => None,
            Some(h) => Some(self.get(h)),
        }
    }

    /// The element at the tail, if the list is not empty.
    pub fn peek_tail(&self) -> (elem: Option<&T>)
        requires
            self.well_formed(),
        ensures
            elem == (if self@.len() == 0 { None } else { Some(&self@.last()) }),
    {
        match self.tail {
            None => None,
            Some(h) => Some(self.get(h)),
        }
    }

    /// The element that the handle `h` names, for writing. What is written
    /// replaces the element; order and handles stay as they are.
    pub fn get_mut(&mut self, h: usize) -> (elem: &mut T)
        requires
            old(self).well_formed(),
            old(self).handles().contains(h),
        ensures
            *elem == old(self)@[old(self).handles().index_of(h)],
            final(self).well_formed(),
            final(self)@ == old(self)@.update(old(self).handles().index_of(h), *final(elem)),
            final(self).handles() == old(self).handles(),
    {
        let ghost after = *final(self);
        proof {
            assert(self.linked_at(self.order@.index_of(h)));
        }
        match &mut self.nodes[h] {
            Some(node) => {
                let elem = &mut node.elem;
                proof {
                    Self::lemma_elem_replaced(*old(self), after, h);
                }
                elem
            },
            None => vstd::pervasive::unreached(),
        }
    }

    /// Replacing the element of a linked node disturbs nothing else.
    proof fn lemma_elem_replaced(before: Self, after: Self, h: usize)
        requires
            before.consistent(None),
            before.order@.contains(h),
            after.nodes@ == before.nodes@.update(
                h as int,
                Some(
                    Node {
                        prev: before.prev_of(h),
                        next: before.next_of(h),
                        elem: after.payload(h),
                    },
                ),
            ),
            after.free == before.free,
            after.head == before.head,
            after.tail == before.tail,
            after.order == before.order,
        ensures
            after.consistent(None),
            after@ == before@.update(before.order@.index_of(h), after.payload(h)),
    {
        let at = before.order@.index_of(h);
        assert(before.linked_at(at));
        assert forall|i: int| 0 <= i < after.order@.len() implies #[trigger] after.linked_at(i) by {
            assert(before.linked_at(i));
        }
        assert forall|g: usize| #[trigger] after.occupied(g) implies after.order@.contains(g) by {
            assert(before.occupied(g));
        }
        assert forall|i: int| 0 <= i < after@.len() implies
            after@[i] == before@.update(at, after.payload(h))[i] by {
            assert(before.linked_at(i));
        }
    }

    /// The element at the head, for writing, if the list is not empty.
    pub fn peek_head_mut(&mut self) -> (elem: Option<&mut T>)
        requires
            old(self).well_formed(),
        ensures
            final(self).well_formed(),
            final(self).handles() == old(self).handles(),
            match elem {
                Some(e) => {
                    &&& old(self)@.len() > 0
                    &&& *e == old(self)@[0]
                    &&& final(self)@ == old(self)@.update(0, *final(e))
                },
                None => old(self)@.len() == 0 && final(self)@ == old(self)@,
            },
    {
        match self.head {
            None => None,
            Some(h) => Some(self.get_mut(h)),
        }
    }

    /// The element at the tail, for writing, if the list is not empty.
    pub fn peek_tail_mut(&mut self) -> (elem: Option<&mut T>)
        requires
            old(self).well_formed(),
        ensures
            final(self).well_formed(),
            final(self).handles() == old(self).handles(),
            match elem {
                Some(e) => {
                    &&& old(self)@.len() > 0
                    &&& *e == old(self)@.last()
                    &&& final(self)@ == old(self)@.update(old(self)@.len() - 1, *final(e))
                },
                None => old(self)@.len() == 0 && final(self)@ == old(self)@,
            },
    {
        match self.tail {
            None => None,
            Some(h) => Some(self.get_mut(h)),
        }
    }

    /// Hands the list over to an iterator that takes elements from either end.
    pub fn into_iter(self) -> (iter: IntoIter<T>)
        requires
            self.well_formed(),
        ensures
            iter.well_formed(),
            iter@ == self@,
    {
        IntoIter(self)
    }

    /// The handles met when starting at `from` and following the links, the
    /// `next` links if `forward` and the `prev` links if not, until a link is
    /// absent. `fuel` bounds the number of steps.
    spec fn walk(&self, from: Link, forward: bool, fuel: nat) -> Seq<usize>
        decreases fuel,
    {
        match from {
            Some(h) => if fuel > 0 && self.occupied(h) {
                seq![h] + self.walk(
                    if forward { self.next_of(h) } else { self.prev_of(h) },
                    forward,
                    (fuel - 1) as nat,
                )
            } else {
                Seq::empty()
            },
            None => Seq::empty(),
        }
    }

    /// The handles met on the way from the head along the `next` links.
    pub closed spec fn forward_walk(&self) -> Seq<usize> {
        self.walk(self.head, true, self.nodes@.len())
    }

    /// The handles met on the way from the tail along the `prev` links.
    pub closed spec fn backward_walk(&self) -> Seq<usize> {
        self.walk(self.tail, false, self.nodes@.len())
    }

    /// A walk along the `next` links that starts at position `i` of the order
    /// meets the rest of the order.
    proof fn lemma_walk_forward(&self, i: int, fuel: nat)
        requires
            self.consistent(None),
            0 <= i <= self.order@.len(),
            fuel >= self.order@.len() - i,
        ensures
            self.walk(if i < self.order@.len() { Some(self.order@[i]) } else { None }, true, fuel)
                == self.order@.subrange(i, self.order@.len() as int),
        decreases self.order@.len() - i,
    {
        let order = self.order@;
        if i < order.len() {
            assert(self.linked_at(i));
            self.lemma_walk_forward(i + 1, (fuel - 1) as nat);
        } else {
        }
    }

    /// A walk along the `prev` links that starts just before position `i` of
    /// the order meets the first `i` nodes of the order, the last one first.
    proof fn lemma_walk_backward(&self, i: int, fuel: nat)
        requires
            self.consistent(None),
            0 <= i <= self.order@.len(),
            fuel >= i,
        ensures
            self.walk(if i > 0 { Some(self.order@[i - 1]) } else { None }, false, fuel)
                == self.order@.subrange(0, i).reverse(),
        decreases i,
    {
        if i > 0 {
            assert(self.linked_at(i - 1));
            self.lemma_walk_backward(i - 1, (fuel - 1) as nat);
        } else {
        }
    }

    /// Walking the links from the head meets every node once, in order, and
    /// walking them from the tail meets the same nodes in the opposite order.
    pub proof fn lemma_walks_agree(&self)
        requires
            self.well_formed(),
        ensures
            self.forward_walk() == self.handles(),
            self.backward_walk() == self.handles().reverse(),
            self.forward_walk().len() == self@.len(),
            self.backward_walk().len() == self@.len(),
    {
        let order = self.order@;
        self.lemma_walk_forward(0, self.nodes@.len());
        self.lemma_walk_backward(order.len() as int, self.nodes@.len());
    }

    /// Counts the nodes by walking the `next` links from the head.
    pub fn count_forward(&self) -> (n: usize)
        requires
            self.well_formed(),
        ensures
            n == self.forward_walk().len(),
            n == self@.len(),
    {
        proof {
            self.lemma_walks_agree();
        }
        let mut cur = self.head;
        let mut n: usize = 0;
        while cur.is_some()
            invariant
                self.consistent(None),
                n <= self.order@.len(),
                cur == (if n < self.order@.len() { Some(self.order@[n as int]) } else { None }),
            decreases self.order@.len() - n,
        {
            proof {
                assert(self.linked_at(n as int));
                assert(self.order@.len() <= self.nodes.len());
            }
            let (_, next) = self.links(cur.unwrap());
            cur = next;
            n = n + 1;
        }
        n
    }

    /// Counts the nodes by walking the `prev` links from the tail.
    pub fn count_backward(&self) -> (n: usize)
        requires
            self.well_formed(),
        ensures
            n == self.backward_walk().len(),
            n == self@.len(),
    {
        proof {
            self.lemma_walks_agree();
        }
        let mut cur = self.tail;
        let mut n: usize = 0;
        while cur.is_some()
            invariant
                self.consistent(None),
                n <= self.order@.len(),
                cur == (if n < self.order@.len() {
                    Some(self.order@[self.order@.len() - 1 - n])
                } else {
                    None
                }),
            decreases self.order@.len() - n,
        {
            proof {
                assert(self.linked_at(self.order@.len() - 1 - n));
                assert(self.order@.len() <= self.nodes.len());
            }
            let (prev, _) = self.links(cur.unwrap());
            cur = prev;
            n = n + 1;
        }
        n
    }
}

/// What is left of a [`DoubleLink`] that is being taken apart from its ends.
pub struct IntoIter<T>(DoubleLink<T>);

impl<T> View for IntoIter<T> {
    type V = Seq<T>;

    /// The elements not yet handed out, from head to tail.
    closed spec fn view(&self) -> Seq<T> {
        self.0@
    }
}

impl<T> IntoIter<T> {
    /// The invariant of the iterator: that of the list it holds.
    pub closed spec fn well_formed(&self) -> bool {
        self.0.well_formed()
    }

    /// Takes the next element from the head; `None` once nothing is left.
    pub fn next(&mut self) -> (elem: Option<T>)
        requires
            old(self).well_formed(),
        ensures
            final(self).well_formed(),
            old(self)@.len() == 0 ==> elem is None && final(self)@ == old(self)@,
            old(self)@.len() > 0 ==> ({
                &&& elem == Some(old(self)@[0])
                &&& final(self)@ == old(self)@.drop_first()
            }),
    {
        self.0.pop_head()
    }

    /// Takes the next element from the tail; `None` once nothing is left.
    pub fn next_back(&mut self) -> (elem: Option<T>)
        requires
            old(self).well_formed(),
        ensures
            final(self).well_formed(),
            old(self)@.len() == 0 ==> elem is None && final(self)@ == old(self)@,
            old(self)@.len() > 0 ==> ({
                &&& elem == Some(old(self)@.last())
                &&& final(self)@ == old(self)@.drop_last()
            }),
    {
        self.0.pop_tail()
    }
}

} // verus!
