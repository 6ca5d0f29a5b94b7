//! Sorted singly linked list with cursors.
//!
//! The nodes live in an arena and refer to each other by reference words:
//! the position of a node plus one, zero for "no node". A node that was
//! unlinked stays in the arena, so a reference to its value stays good.
use vstd::prelude::*;

verus! {

/// One node of the list.
pub struct Node<V> {
    key: u64,
    value: V,
    next: usize,
}

/// A position in a list: the current node, and the node whose link leads
/// to it.
pub struct Cursor {
    /// Reference to the node before the current one; zero when the cursor
    /// stands at the head or was made from a bare reference.
    prev: usize,
    /// Reference to the current node; zero at the end of the list.
    curr: usize,
    /// Number of linked nodes before the current one.
    pos: Ghost<int>,
}

impl Cursor {
    /// Number of linked nodes before the current one.
    pub closed spec fn position(&self) -> int {
        self.pos@
    }

    /// Reference to the current node; zero at the end of the list.
    pub closed spec fn spec_curr(&self) -> usize {
        self.curr
    }

    /// Reference to the current node; zero at the end of the list.
    pub fn curr(&self) -> (r: usize)
        ensures
            r == self.spec_curr(),
    {
        self.curr
    }
}

/// Sorted linked list of keyed values.
pub struct List<V> {
    /// Every node that was ever linked.
    nodes: Vec<Node<V>>,
    /// Reference to the first node.
    head: usize,
    /// Arena positions of the linked nodes, in list order.
    order: Ghost<Seq<int>>,
}

impl<V> List<V> {
    /// The reference that stands at place `p` of the list; zero past the
    /// end.
    spec fn ref_at(&self, p: int) -> usize {
        if 0 <= p < self.order@.len() {
            (self.order@[p] + 1) as usize
        } else {
            0
        }
    }

    /// The node at place `p` links to the node at the next place.
    spec fn link_ok(&self, p: int) -> bool {
        self.nodes@[self.order@[p]].next == self.ref_at(p + 1)
    }

    /// The list's invariant: the links follow the order, and the keys
    /// increase strictly along it.
    pub closed spec fn wf(&self) -> bool {
        &&& self.order@.len() <= self.nodes@.len()
        &&& self.head == self.ref_at(0)
        &&& forall|p: int|
            0 <= p < self.order@.len() ==> 0 <= #[trigger] self.order@[p] < self.nodes@.len()
        &&& forall|p: int| 0 <= p < self.order@.len() ==> #[trigger] self.link_ok(p)
        &&& forall|p: int, q: int|
            0 <= p < q < self.order@.len() ==> self.nodes@[#[trigger] self.order@[p]].key
                < self.nodes@[#[trigger] self.order@[q]].key
    }

    /// The keys and values of the linked nodes, in list order.
    pub closed spec fn view(&self) -> Seq<(u64, V)> {
        Seq::new(
            self.order@.len(),
            |p: int| (self.nodes@[self.order@[p]].key, self.nodes@[self.order@[p]].value),
        )
    }

    /// Whether `r` refers to a node that is linked.
    pub closed spec fn is_linked(&self, r: usize) -> bool {
        r != 0 && self.order@.contains(r - 1)
    }

    /// The place in the list of the node that `r` refers to.
    pub closed spec fn position_of(&self, r: usize) -> int {
        self.order@.index_of(r - 1)
    }

    /// The cursor's current node is the node at its position, or the cursor
    /// stands at the end.
    pub closed spec fn anchors(&self, cursor: &Cursor) -> bool {
        &&& 0 <= cursor.pos@ <= self.order@.len()
        &&& cursor.curr == self.ref_at(cursor.pos@)
    }

    /// The cursor also knows the link that leads to its current node, so
    /// that a node can be linked or unlinked there.
    pub closed spec fn holds(&self, cursor: &Cursor) -> bool {
        &&& self.anchors(cursor)
        &&& cursor.prev == self.ref_at(cursor.pos@ - 1)
    }

    /// The list is sorted by key, strictly: no key occurs twice.
    pub proof fn lemma_sorted(&self, p: int, q: int)
        requires
            self.wf(),
            0 <= p < q < self@.len(),
        ensures
            self@[p].0 < self@[q].0,
    {
    }

    /// A linked node stands at its position in the view.
    pub proof fn lemma_position_of(&self, r: usize)
        requires
            self.wf(),
            self.is_linked(r),
        ensures
            0 <= self.position_of(r) < self@.len(),
            forall|p: int| 0 <= p < self@.len() && self.ref_at_place(p) == r
                ==> p == self.position_of(r),
            self.ref_at_place(self.position_of(r)) == r,
    {
        assert(self.nodes@.len() == self.nodes.len());
        let p = self.order@.index_of(r - 1);
        assert(self.order@[p] == r - 1);
        assert forall|q: int| 0 <= q < self@.len() && self.ref_at_place(q) == r implies q == p by {
            if q < p {
                assert(self.nodes@[self.order@[q]].key < self.nodes@[self.order@[p]].key);
            } else if p < q {
                assert(self.nodes@[self.order@[p]].key < self.nodes@[self.order@[q]].key);
            }
        }
    }

    /// The reference to the node at place `p` of the list; zero past the
    /// end.
    pub closed spec fn ref_at_place(&self, p: int) -> usize {
        self.ref_at(p)
    }

    /// A list without nodes.
    pub fn new() -> (list: Self)
        ensures
            list.wf(),
            list@ == Seq::<(u64, V)>::empty(),
    {
        let list = List { nodes: Vec::new(), head: 0, order: Ghost(Seq::empty()) };
        assert(list@ =~= Seq::<(u64, V)>::empty());
        list
    }

    /// A cursor at the first node.
    pub fn head(&self) -> (cursor: Cursor)
        requires
            self.wf(),
        ensures
            self.anchors(&cursor),
            self.holds(&cursor),
            cursor.position() == 0,
    {
        Cursor { prev: 0, curr: self.head, pos: Ghost(0) }
    }

    /// The number of linked nodes fits a machine word.
    pub proof fn lemma_len_fits(&self)
        requires
            self.wf(),
        ensures
            self@.len() <= usize::MAX,
    {
        assert(self.nodes@.len() == self.nodes.len());
    }

    /// A cursor's current node is the node at the cursor's position.
    pub proof fn lemma_cursor(&self, cursor: &Cursor)
        requires
            self.wf(),
            self.anchors(cursor),
        ensures
            0 <= cursor.position() <= self@.len(),
            cursor.spec_curr() == self.ref_at_place(cursor.position()),
            (cursor.spec_curr() == 0) == (cursor.position() == self@.len()),
    {
        assert(self.nodes@.len() == self.nodes.len());
    }

    /// Whether `r` refers to a node, linked or unlinked.
    pub closed spec fn is_node(&self, r: usize) -> bool {
        r != 0 && r - 1 < self.nodes@.len()
    }

    /// A linked node is a node.
    pub proof fn lemma_linked_is_node(&self, r: usize)
        requires
            self.wf(),
            self.is_linked(r),
        ensures
            self.is_node(r),
    {
        let p = self.order@.index_of(r - 1);
        assert(self.order@[p] == r - 1);
    }

    /// The value of the node that `r` refers to, whether the node is still
    /// linked or not.
    pub fn value(&self, r: usize) -> (value: &V)
        requires
            self.is_node(r),
        ensures
            *value == self.value_of(r),
    {
        &self.nodes[r - 1].value
    }

    /// The key of the node that `r` refers to.
    pub closed spec fn key_of(&self, r: usize) -> u64 {
        self.nodes@[r - 1].key
    }

    /// The value of the node that `r` refers to.
    pub closed spec fn value_of(&self, r: usize) -> V {
        self.nodes@[r - 1].value
    }

    /// What the view holds at a place is the key and the value of the node
    /// that stands there.
    pub proof fn lemma_ref_at_place(&self, p: int)
        requires
            self.wf(),
            0 <= p < self@.len(),
        ensures
            self.is_linked(self.ref_at_place(p)),
            self.position_of(self.ref_at_place(p)) == p,
            self.key_of(self.ref_at_place(p)) == self@[p].0,
            self.value_of(self.ref_at_place(p)) == self@[p].1,
    {
        assert(self.nodes@.len() == self.nodes.len());
        let r = self.ref_at(p);
        assert(self.order@[p] == r - 1);
        self.lemma_position_of(r);
    }

    /// A cursor at the linked node that `r` refers to. Such a cursor can
    /// search onwards; it cannot link or unlink before it has moved.
    pub fn cursor_at(&self, r: usize) -> (cursor: Cursor)
        requires
            self.wf(),
            self.is_linked(r),
        ensures
            self.anchors(&cursor),
            cursor.spec_curr() == r,
            cursor.position() == self.position_of(r),
    {
        proof {
            self.lemma_position_of(r);
        }
        Cursor { prev: 0, curr: r, pos: Ghost(self.position_of(r)) }
    }

    /// Moves the cursor forward to the first node, from its current one on,
    /// whose key is at least `key`, and says whether that node has `key`.
    /// A cursor that has moved knows the link to its current node.
    pub fn find_harris(&self, cursor: &mut Cursor, key: u64) -> (found: bool)
        requires
            self.wf(),
            self.anchors(old(cursor)),
        ensures
            self.anchors(final(cursor)),
            self.holds(old(cursor)) || final(cursor).position() > old(cursor).position()
                ==> self.holds(final(cursor)),
            old(cursor).position() <= final(cursor).position() <= self@.len(),
            forall|p: int|
                old(cursor).position() <= p < final(cursor).position() ==> (#[trigger] self@[p]).0
                    < key,
            final(cursor).position() < self@.len() ==> self@[final(cursor).position()].0 >= key,
            found == (final(cursor).position() < self@.len()
                && self@[final(cursor).position()].0 == key),
    {
        let ghost start = cursor.pos@;
        loop
            invariant
                self.wf(),
                self.anchors(cursor),
                start == old(cursor).position(),
                start <= cursor.pos@,
                self.holds(cursor) || (cursor.pos@ == start && !self.holds(old(cursor))),
                forall|p: int| start <= p < cursor.pos@ ==> (#[trigger] self@[p]).0 < key,
            decreases self.order@.len() - cursor.pos@,
        {
            proof {
                assert(self.nodes@.len() == self.nodes.len());
            }
            if cursor.curr == 0 {
                return false;
            }
            let node = &self.nodes[cursor.curr - 1];
            if node.key >= key {
                return node.key == key;
            }
            proof {
                assert(self.link_ok(cursor.pos@));
            }
            cursor.prev = cursor.curr;
            cursor.curr = node.next;
            proof {
                cursor.pos@ = cursor.pos@ + 1;
            }
        }
    }

    /// The value of the cursor's current node, if there is one.
    pub fn lookup<'a>(&'a self, cursor: &Cursor) -> (value: Option<&'a V>)
        requires
            self.wf(),
            self.anchors(cursor),
        ensures
            cursor.position() == self@.len() ==> value is None,
            cursor.position() < self@.len() ==> value == Some(&self@[cursor.position()].1),
    {
        proof {
            assert(self.nodes@.len() == self.nodes.len());
        }
        if cursor.curr == 0 {
            return None;
        }
        Some(&self.nodes[cursor.curr - 1].value)
    }

    /// Links a new node with `key` and `value` before the cursor's current
    /// node. The cursor then stands at the new node.
    pub fn insert(&mut self, cursor: &mut Cursor, key: u64, value: V)
        requires
            old(self).wf(),
            old(self).holds(old(cursor)),
            old(cursor).position() > 0 ==> old(self)@[old(cursor).position() - 1].0 < key,
            old(cursor).position() < old(self)@.len()
                ==> key < old(self)@[old(cursor).position()].0,
        ensures
            final(self).wf(),
            final(self)@ == old(self)@.insert(old(cursor).position(), (key, value)),
            final(self).anchors(final(cursor)),
            final(self).holds(final(cursor)),
            final(cursor).position() == old(cursor).position(),
            final(self).is_linked(final(cursor).spec_curr()),
            !old(self).is_linked(final(cursor).spec_curr()),
            forall|r: usize| #[trigger]
                final(self).is_linked(r)
                    <==> old(self).is_linked(r) || r == final(cursor).spec_curr(),
            forall|r: usize| #[trigger]
                old(self).is_node(r)
                    ==> final(self).is_node(r) && final(self).key_of(r) == old(self).key_of(r)
                        && final(self).value_of(r) == old(self).value_of(r),
    {
        let ghost pre = *self;
        let ghost pos = cursor.pos@;
        proof {
            assert(self.nodes@.len() == self.nodes.len());
            if pos > 0 {
                assert(self.link_ok(pos - 1));
            }
        }
        self.nodes.push(Node { key, value, next: cursor.curr });
        let fresh = self.nodes.len();
        if cursor.prev == 0 {
            self.head = fresh;
        } else {
            self.nodes[cursor.prev - 1].next = fresh;
        }
        cursor.curr = fresh;
        proof {
            self.order@ = pre.order@.insert(pos, fresh - 1);
            pre.order@.insert_ensures(pos, fresh - 1);
            pre@.insert_ensures(pos, (key, value));
            assert forall|p: int| 0 <= p < self.order@.len() implies #[trigger] self.link_ok(
                p,
            ) by {
                if p < pos {
                    assert(pre.link_ok(p));
                    assert(self.order@[p] == pre.order@[p]);
                } else if p > pos {
                    assert(pre.link_ok(p - 1));
                    assert(self.order@[p] == pre.order@[p - 1]);
                }
            }
            assert forall|p: int, q: int| 0 <= p < q < self.order@.len()
                implies self.nodes@[#[trigger] self.order@[p]].key
                < self.nodes@[#[trigger] self.order@[q]].key by {
                let a = if p < pos { p } else { p - 1 };
                let b = if q < pos { q } else { q - 1 };
                if p != pos && q != pos {
                    assert(pre.nodes@[pre.order@[a]].key < pre.nodes@[pre.order@[b]].key);
                } else if p == pos {
                    if pos < b {
                        assert(pre.nodes@[pre.order@[pos]].key < pre.nodes@[pre.order@[b]].key);
                    }
                    assert(pre@[pos].0 == pre.nodes@[pre.order@[pos]].key);
                } else {
                    if a < pos - 1 {
                        assert(pre.nodes@[pre.order@[a]].key < pre.nodes@[pre.order@[pos - 1]].key);
                    }
                    assert(pre@[pos - 1].0 == pre.nodes@[pre.order@[pos - 1]].key);
                }
            }
            assert(self@ =~= pre@.insert(pos, (key, value)));
            assert(self.order@[pos] == fresh - 1);
            assert forall|r: usize| #[trigger]
                self.is_linked(r) <==> pre.is_linked(r) || r == fresh by {
                if pre.is_linked(r) {
                    let p = pre.order@.index_of(r - 1);
                    let q = if p < pos { p } else { p + 1 };
                    assert(self.order@[q] == r - 1);
                }
                if self.is_linked(r) && r != fresh {
                    let q = self.order@.index_of(r - 1);
                    let p = if q < pos { q } else { q - 1 };
                    assert(pre.order@[p] == r - 1);
                }
            }
            if pre.is_linked(fresh) {
                let p = pre.order@.index_of(fresh - 1);
                assert(pre.order@[p] == fresh - 1);
            }
        }
    }

    /// Unlinks the cursor's current node and returns its value. The cursor
    /// then stands at the node that followed.
    pub fn delete<'a>(&'a mut self, cursor: &mut Cursor) -> (value: &'a V)
        requires
            old(self).wf(),
            old(self).holds(old(cursor)),
            old(cursor).position() < old(self)@.len(),
        ensures
            final(self).wf(),
            final(self)@ == old(self)@.remove(old(cursor).position()),
            *value == old(self)@[old(cursor).position()].1,
            final(self).anchors(final(cursor)),
            final(self).holds(final(cursor)),
            final(cursor).position() == old(cursor).position(),
            forall|r: usize| #[trigger]
                final(self).is_linked(r)
                    <==> old(self).is_linked(r) && r != old(cursor).spec_curr(),
            forall|r: usize| #[trigger]
                old(self).is_node(r)
                    ==> final(self).is_node(r) && final(self).key_of(r) == old(self).key_of(r)
                        && final(self).value_of(r) == old(self).value_of(r),
    {
        let ghost pre = *self;
        let ghost pos = cursor.pos@;
        proof {
            assert(self.nodes@.len() == self.nodes.len());
            assert(self.link_ok(pos));
            if pos > 0 {
                assert(self.link_ok(pos - 1));
            }
        }
        let victim = cursor.curr;
        let next = self.nodes[victim - 1].next;
        if cursor.prev == 0 {
            self.head = next;
        } else {
            self.nodes[cursor.prev - 1].next = next;
        }
        cursor.curr = next;
        proof {
            self.order@ = pre.order@.remove(pos);
            pre.order@.remove_ensures(pos);
            pre@.remove_ensures(pos);
            assert forall|p: int| 0 <= p < self.order@.len() implies #[trigger] self.link_ok(
                p,
            ) by {
                if p < pos {
                    assert(pre.link_ok(p));
                    assert(self.order@[p] == pre.order@[p]);
                    if p < pos - 1 {
                        assert(pre.nodes@[pre.order@[p]].key < pre.nodes@[pre.order@[pos - 1]].key);
                    }
                } else {
                    assert(pre.link_ok(p + 1));
                    assert(self.order@[p] == pre.order@[p + 1]);
                    if pos > 0 {
                        assert(pre.nodes@[pre.order@[pos - 1]].key
                            < pre.nodes@[pre.order@[p + 1]].key);
                    }
                }
            }
            assert forall|p: int, q: int| 0 <= p < q < self.order@.len()
                implies self.nodes@[#[trigger] self.order@[p]].key
                < self.nodes@[#[trigger] self.order@[q]].key by {
                let a = if p < pos { p } else { p + 1 };
                let b = if q < pos { q } else { q + 1 };
                assert(pre.nodes@[pre.order@[a]].key < pre.nodes@[pre.order@[b]].key);
            }
            assert(self@ =~= pre@.remove(pos));
            assert forall|r: usize| #[trigger]
                self.is_linked(r) <==> pre.is_linked(r) && r != victim by {
                if pre.is_linked(r) && r != victim {
                    let p = pre.order@.index_of(r - 1);
                    let q = if p < pos { p } else { p - 1 };
                    assert(self.order@[q] == r - 1);
                }
                if self.is_linked(r) {
                    let q = self.order@.index_of(r - 1);
                    let p = if q < pos { q } else { q + 1 };
                    assert(pre.order@[p] == r - 1);
                    if p < pos {
                        assert(pre.nodes@[pre.order@[p]].key < pre.nodes@[pre.order@[pos]].key);
                    } else {
                        assert(pre.nodes@[pre.order@[pos]].key < pre.nodes@[pre.order@[p]].key);
                    }
                }
            }
        }
        &self.nodes[victim - 1].value
    }

    /// The keys of the linked nodes, in list order.
    pub fn keys(&self) -> (keys: Vec<u64>)
        requires
            self.wf(),
        ensures
            keys@.len() == self@.len(),
            forall|p: int| 0 <= p < keys@.len() ==> keys@[p] == (#[trigger] self@[p]).0,
    {
        let mut keys: Vec<u64> = Vec::new();
        let mut curr = self.head;
        let ghost mut pos: int = 0;
        while curr != 0
            invariant
                self.wf(),
                0 <= pos <= self.order@.len(),
                curr == self.ref_at(pos),
                keys@.len() == pos,
                forall|p: int| 0 <= p < pos ==> keys@[p] == (#[trigger] self@[p]).0,
            decreases self.order@.len() - pos,
        {
            proof {
                assert(self.nodes@.len() == self.nodes.len());
                assert(self.link_ok(pos));
            }
            let node = &self.nodes[curr - 1];
            keys.push(node.key);
            curr = node.next;
            proof {
                pos = pos + 1;
            }
        }
        proof {
            assert(self.nodes@.len() == self.nodes.len());
        }
        keys
    }
}

} // verus!
