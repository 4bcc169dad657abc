//! An addressable pairing heap whose nodes list their children.
//!
//! Every node owns the vector of its children, and the heap owns the vector
//! of its roots. A node remembers where it stands in the vector that holds
//! it, so that it can be taken out of that vector with one `swap_remove`.

use crate::arena::Arena;
pub use crate::handle::Error;
pub use crate::handle::Handle;
pub use crate::handle::Result;
pub use crate::key::Key;
use crate::key::{
    key_le, key_lt, lawful, lemma_comparable, lemma_le_refl, lemma_le_trans, lemma_lt_or_ge,
};
use crate::model::{
    drained_in_order, drained_so_far, is_least, lemma_drain_end, lemma_drain_start, lemma_drain_step,
};
use vstd::prelude::*;

verus! {

/// An entry within an addressable pairing heap.
#[derive(Debug)]
struct Entry<T, K: Key> {
    key: K,
    elem: T,
}

impl<T, K: Key> Entry<T, K> {
    #[inline]
    fn new(key: K, elem: T) -> (entry: Self)
        ensures
            entry.key == key,
            entry.elem == elem,
    {
        Entry { key: key, elem: elem }
    }
}

/// Where a node stands.
#[derive(Debug, Copy, Clone, PartialEq, Eq, Structural)]
enum Position {
    /// root node at index
    Root(usize),
    /// child of parent with index
    Child(Handle, usize),
}

impl Position {
    #[inline]
    fn child(parent: Handle, index: usize) -> (pos: Self)
        ensures
            pos == Position::Child(parent, index),
    {
        Position::Child(parent, index)
    }

    #[inline]
    fn root(index: usize) -> (pos: Self)
        ensures
            pos == Position::Root(index),
    {
        Position::Root(index)
    }
}

#[derive(Debug)]
struct Node<T, K: Key> {
    pos: Position,
    entry: Entry<T, K>,
    children: Vec<Handle>,
}

impl<T: Clone, K: Key> Clone for Node<T, K> {
    /// A node at the same position with the same children and the same
    /// key, and with a clone of the element.
    fn clone(&self) -> (copy: Self)
        ensures
            copy.clone_of(*self),
    {
        let children = self.children.clone();
        proof {
            assert(children@ =~= self.children@);
        }
        Node {
            pos: self.pos,
            entry: Entry::new(self.entry.key, self.entry.elem.clone()),
            children: children,
        }
    }
}

impl<T: Clone, K: Key> Node<T, K> {
    /// `self` is what `clone` makes of `source`.
    pub closed spec fn clone_of(&self, source: Self) -> bool {
        &&& self.pos == source.pos
        &&& self.children@ == source.children@
        &&& self.entry.key == source.entry.key
        &&& cloned::<T>(source.entry.elem, self.entry.elem)
    }
}

impl<T, K: Key> Node<T, K> {
    #[inline]
    fn new_root(at: usize, entry: Entry<T, K>) -> (node: Self)
        ensures
            node.pos == Position::Root(at),
            node.entry == entry,
            node.children@.len() == 0,
    {
        Node { entry: entry, pos: Position::root(at), children: Vec::new() }
    }
}

/// Type alias for `PairingHeap` that has `i64` as default `Key` type.
pub type DefaultPairingHeap<T> = PairingHeap<T, i64>;

/// An addressable pairing heap implementation.
///
/// Stores elements with an associated key. The key can be thought of as the
/// priority of the element that is associated to it.
///
/// Inserting an element provides the caller with a handle that makes it
/// possible to access the element later on. A handle is local to the heap
/// that made it.
#[derive(Debug)]
pub struct PairingHeap<T, K: Key> {
    /// Handle to the element with the minimum key within the pairing heap.
    min: Handle,
    /// The roots of the heap.
    roots: Vec<Handle>,
    /// All nodes, addressed by their handles.
    data: Arena<Node<T, K>>,
}

impl<T: Clone, K: Key> Clone for PairingHeap<T, K> {
    /// A heap of its own in which the same handles name clones of the
    /// elements, with the same keys.
    fn clone(&self) -> (copy: Self)
        ensures
            self.wf() ==> copy.wf() && copy@.dom() == self@.dom() && copy.keeps_shape_of(*self),
            self.wf() ==> copy.twin_of(*self),
            self.wf() ==> forall|h: Handle|
                self@.contains_key(h) ==> cloned::<T>(self@[h].0, (#[trigger] copy@[h]).0)
                    && copy@[h].1 == self@[h].1,
    {
        let roots = self.roots.clone();
        let copy = PairingHeap { min: self.min, roots: roots, data: self.data.clone() };
        proof {
            if self.wf() {
                assert(copy.roots@ =~= self.roots@);
                assert forall|g: Handle| self.data@.contains_key(g) implies (
                #[trigger] copy.data@[g]).pos == self.data@[g].pos && copy.data@[g].children@
                    == self.data@[g].children@ && copy.data@[g].entry.key
                    == self.data@[g].entry.key && cloned::<T>(
                    self.data@[g].entry.elem,
                    copy.data@[g].entry.elem,
                ) by {
                    assert(cloned::<Node<T, K>>(self.data@[g], copy.data@[g]));
                    assert(copy.data@[g].clone_of(self.data@[g]));
                }
                copy.lemma_kept(*self, self.some_level(), Set::empty());
                assert(copy@.dom() =~= self@.dom());
                assert forall|g: Handle| self@.contains_key(g) implies #[trigger] copy.parent_of(g)
                    == self.parent_of(g) by {
                    assert(copy.data@[g].pos == self.data@[g].pos);
                }
            }
        }
        copy
    }
}

impl<T, K: Key> View for PairingHeap<T, K> {
    type V = Map<Handle, (T, K)>;

    /// The element and the key behind each handle of the heap.
    closed spec fn view(&self) -> Map<Handle, (T, K)> {
        Map::new(
            |h: Handle| self.data@.contains_key(h),
            |h: Handle| (self.data@[h].entry.elem, self.data@[h].entry.key),
        )
    }
}

impl<T, K: Key> PairingHeap<T, K> {
    /// The handle of the element that `peek` shows and `pop` removes.
    /// It names an element only while the heap is not empty.
    pub closed spec fn min_handle(&self) -> Handle {
        self.min
    }

    /// The two heaps are the same but for their elements: the same handles
    /// name nodes with the same keys in the same places of the same forest.
    pub closed spec fn twin_of(&self, other: Self) -> bool {
        &&& self.min == other.min
        &&& self.roots@ == other.roots@
        &&& self.data.order() == other.data.order()
        &&& forall|h: Handle| self.data@.contains_key(h) <==> other.data@.contains_key(h)
        &&& forall|h: Handle|
            other.data@.contains_key(h) ==> (#[trigger] self.data@[h]).pos == other.data@[h].pos
                && self.data@[h].children@ == other.data@[h].children@ && self.data@[h].entry.key
                == other.data@[h].entry.key
    }

    /// Twins have the same handles with the same keys, and the same forest.
    pub proof fn lemma_twin(&self, other: Self)
        requires
            self.twin_of(other),
        ensures
            self@.dom() == other@.dom(),
            forall|h: Handle| other@.contains_key(h) ==> (#[trigger] self@[h]).1 == other@[h].1,
            self.keeps_shape_of(other),
    {
        assert(self@.dom() =~= other@.dom());
        assert forall|h: Handle| other@.contains_key(h) implies (#[trigger] self@[h]).1
            == other@[h].1 by {
            assert(self.data@[h].entry.key == other.data@[h].entry.key);
        }
        assert forall|g: Handle| other@.contains_key(g) implies #[trigger] self.parent_of(g)
            == other.parent_of(g) by {
            assert(self.data@[g].pos == other.data@[g].pos);
        }
    }

    /// The forest is that of `before`: the same element is the minimum,
    /// every node has the parent it had, and the elements are stored in the
    /// same order.
    pub open spec fn keeps_shape_of(&self, before: Self) -> bool {
        &&& self.min_handle() == before.min_handle()
        &&& self.storage_order() == before.storage_order()
        &&& forall|g: Handle|
            before@.contains_key(g) ==> #[trigger] self.parent_of(g) == before.parent_of(g)
    }

    /// The parent of the node behind `h`, or `None` for a root.
    pub closed spec fn parent_of(&self, h: Handle) -> Option<Handle> {
        match self.data@[h].pos {
            Position::Root(_) => None,
            Position::Child(p, _) => Some(p),
        }
    }

    spec fn key_of(&self, h: Handle) -> K {
        self.data@[h].entry.key
    }

    /// The node behind `h` stands where its position says, below a parent
    /// that has no greater key and a smaller level.
    spec fn settled_ok(&self, level: spec_fn(Handle) -> nat, h: Handle) -> bool {
        match self.data@[h].pos {
            Position::Root(i) => i < self.roots@.len() && self.roots@[i as int] == h,
            Position::Child(p, j) => {
                &&& self.data@.contains_key(p)
                &&& j < self.data@[p].children@.len()
                &&& self.data@[p].children@[j as int] == h
                &&& key_le(self.key_of(p), self.key_of(h))
                &&& level(p) < level(h)
            },
        }
    }

    spec fn root_ok(&self, floating: Set<Handle>, i: int) -> bool {
        let r = self.roots@[i];
        &&& self.data@.contains_key(r)
        &&& !floating.contains(r)
        &&& self.data@[r].pos == Position::Root(i as usize)
    }

    spec fn child_ok(&self, floating: Set<Handle>, p: Handle, j: int) -> bool {
        let c = self.data@[p].children@[j];
        &&& self.data@.contains_key(c)
        &&& !floating.contains(c)
        &&& self.data@[c].pos == Position::Child(p, j as usize)
    }

    /// As `settled_ok`, but the node behind `x` may have a smaller key than
    /// its parent.
    spec fn settled_but(&self, level: spec_fn(Handle) -> nat, x: Handle, h: Handle) -> bool {
        match self.data@[h].pos {
            Position::Root(i) => i < self.roots@.len() && self.roots@[i as int] == h,
            Position::Child(p, j) => {
                &&& self.data@.contains_key(p)
                &&& j < self.data@[p].children@.len()
                &&& self.data@[p].children@[j as int] == h
                &&& h != x ==> key_le(self.key_of(p), self.key_of(h))
                &&& level(p) < level(h)
            },
        }
    }

    /// The shape of a forest without nodes cut loose, in which the key of
    /// the node behind `x` may have been lowered below the key of its
    /// parent.
    spec fn inv_low(&self, level: spec_fn(Handle) -> nat, x: Handle) -> bool {
        &&& lawful::<K>()
        &&& self.data.wf()
        &&& forall|h: Handle|
            self.data@.contains_key(h) ==> #[trigger] self.settled_but(level, x, h)
        &&& forall|i: int| 0 <= i < self.roots@.len() ==> #[trigger] self.root_ok(Set::empty(), i)
        &&& forall|p: Handle, j: int|
            self.data@.contains_key(p) && 0 <= j < self.data@[p].children@.len()
                ==> #[trigger] self.child_ok(Set::empty(), p, j)
        &&& forall|h: Handle| self.data@.contains_key(h) ==> !h.is_undef_spec()
    }

    spec fn pos_of(&self, h: Handle) -> Position {
        self.data@[h].pos
    }

    spec fn children_of(&self, h: Handle) -> Seq<Handle> {
        self.data@[h].children@
    }

    /// The same handles are live as in `before`, stored in the same order.
    /// But for the nodes in `moved` every node has the position it had, and
    /// but for the nodes in `parents` every node has the children it had.
    spec fn same_but(&self, before: Self, moved: Set<Handle>, parents: Set<Handle>) -> bool {
        &&& self.data.order() == before.data.order()
        &&& forall|g: Handle| self.data@.contains_key(g) <==> before.data@.contains_key(g)
        &&& forall|g: Handle|
            before.data@.contains_key(g) && !moved.contains(g) ==> #[trigger] self.pos_of(g)
                == before.pos_of(g)
        &&& forall|g: Handle|
            before.data@.contains_key(g) && !parents.contains(g) ==> #[trigger] self.children_of(g)
                == before.children_of(g)
    }

    /// `new_root` has become the last root; nothing else has changed.
    spec fn rooted(&self, before: Self, new_root: Handle) -> bool {
        &&& self.roots@ == before.roots@.push(new_root)
        &&& self.pos_of(new_root) == Position::Root(before.roots.len())
        &&& self.parent_of(new_root) is None
        &&& self.same_but(before, set![new_root], Set::empty())
    }

    /// `lower` has become the last child of `upper`, and `upper` the last
    /// root; nothing else has changed.
    spec fn linked(&self, before: Self, upper: Handle, lower: Handle) -> bool {
        &&& self.roots@ == before.roots@.push(upper)
        &&& self.pos_of(upper) == Position::Root(before.roots.len())
        &&& self.parent_of(upper) is None
        &&& self.pos_of(lower) == Position::Child(upper, before.data@[upper].children.len())
        &&& self.parent_of(lower) == Some(upper)
        &&& self.children_of(upper) == before.children_of(upper).push(lower)
        &&& self.same_but(before, set![upper, lower], set![upper])
    }

    /// Of two nodes the one that `union` leaves a root: the first if its
    /// key is smaller, else the second.
    spec fn winner(&self, fst: Handle, snd: Handle) -> Handle {
        if key_lt(self.key_of(fst), self.key_of(snd)) {
            fst
        } else {
            snd
        }
    }

    /// Of two nodes the one that `union` makes a child of the other.
    spec fn loser(&self, fst: Handle, snd: Handle) -> Handle {
        if key_lt(self.key_of(fst), self.key_of(snd)) {
            snd
        } else {
            fst
        }
    }

    /// `child` has left the children of its parent, where the child that
    /// stood last has taken its place; nothing else has changed.
    spec fn detached(&self, before: Self, child: Handle) -> bool {
        let p = before.parent_of(child).unwrap();
        let kids = before.children_of(p);
        &&& self.roots@ == before.roots@
        &&& before.pos_of(child) matches Position::Child(_, idx) && self.children_of(p)
            == kids.update(idx as int, kids.last()).drop_last() && (idx + 1 < kids.len()
            ==> self.pos_of(kids.last()) == Position::Child(p, idx))
        &&& before.parent_of(kids.last()) == Some(p)
        &&& self.parent_of(kids.last()) == Some(p)
        &&& self.same_but(before, set![kids.last()], set![p])
    }

    /// `child` has left the children of its parent, as in `detached`, and
    /// has become the last root.
    spec fn cut_off(&self, before: Self, child: Handle) -> bool {
        let p = before.parent_of(child).unwrap();
        let kids = before.children_of(p);
        &&& self.roots@ == before.roots@.push(child)
        &&& self.pos_of(child) == Position::Root(before.roots.len())
        &&& self.parent_of(child) is None
        &&& before.pos_of(child) matches Position::Child(_, idx) && self.children_of(p)
            == kids.update(idx as int, kids.last()).drop_last() && (idx + 1 < kids.len()
            ==> self.pos_of(kids.last()) == Position::Child(p, idx))
        &&& forall|g: Handle|
            before.data@.contains_key(g) && g != child ==> #[trigger] self.parent_of(g)
                == before.parent_of(g)
        &&& self.same_but(before, set![child, kids.last()], set![p])
    }

    /// Pair `k` of `pending` has been united: of its two nodes the one that
    /// `union` prefers is root `k`, and the other is its last child.
    spec fn pair_ok(&self, before: Self, pending: Seq<Handle>, k: int) -> bool {
        let up = before.winner(pending[2 * k], pending[2 * k + 1]);
        let low = before.loser(pending[2 * k], pending[2 * k + 1]);
        &&& self.roots@[k] == up
        &&& self.parent_of(up) is None
        &&& self.parent_of(low) == Some(up)
        &&& self.children_of(up) == before.children_of(up).push(low)
        &&& self.children_of(low) == before.children_of(low)
    }

    /// The pairwise pass has gone over the first `upto` nodes of `pending`:
    /// they have been united pair by pair, a last node without a partner
    /// has become a root as it was, and no other node has changed.
    spec fn paired(&self, before: Self, pending: Seq<Handle>, upto: int) -> bool {
        &&& self.roots@.len() == (upto + 1) / 2
        &&& forall|k: int| 0 <= k && 2 * k + 1 < upto ==> #[trigger] self.pair_ok(before, pending, k)
        &&& upto % 2 == 1 ==> self.roots@[upto / 2] == pending[upto - 1] && self.parent_of(
            pending[upto - 1],
        ) is None && self.children_of(pending[upto - 1]) == before.children_of(pending[upto - 1])
        &&& forall|j: int|
            upto <= j < pending.len() ==> self.pos_of(#[trigger] pending[j]) == before.pos_of(
                pending[j],
            ) && self.children_of(pending[j]) == before.children_of(pending[j])
        &&& forall|g: Handle|
            before.data@.contains_key(g) && !pending.contains(g) ==> #[trigger] self.pos_of(g)
                == before.pos_of(g) && self.children_of(g) == before.children_of(g)
    }

    /// The shape of the forest. The nodes in `floating` are cut loose: no
    /// vector holds them and their positions mean nothing. Every other node
    /// is a root or a child, and `level` grows from parent to child.
    spec fn inv(&self, level: spec_fn(Handle) -> nat, floating: Set<Handle>) -> bool {
        &&& lawful::<K>()
        &&& self.data.wf()
        &&& forall|h: Handle|
            self.data@.contains_key(h) && !floating.contains(h) ==> #[trigger] self.settled_ok(
                level,
                h,
            )
        &&& forall|i: int| 0 <= i < self.roots@.len() ==> #[trigger] self.root_ok(floating, i)
        &&& forall|p: Handle, j: int|
            self.data@.contains_key(p) && 0 <= j < self.data@[p].children@.len()
                ==> #[trigger] self.child_ok(floating, p, j)
        &&& forall|h: Handle| floating.contains(h) ==> self.data@.contains_key(h)
        &&& forall|h: Handle| self.data@.contains_key(h) ==> !h.is_undef_spec()
    }

    /// `min` names a root whose key is at most the key of every root,
    /// or no node at all where there is no root.
    spec fn anchored(&self) -> bool {
        if self.roots@.len() == 0 {
            self.min.is_undef_spec()
        } else {
            &&& self.roots@.contains(self.min)
            &&& forall|i: int|
                0 <= i < self.roots@.len() ==> key_le(
                    self.key_of(self.min),
                    self.key_of(#[trigger] self.roots@[i]),
                )
        }
    }

    /// The heap is well formed: its nodes form a forest in which no child
    /// has a smaller key than its parent, and `min_handle` names a root of
    /// least key.
    pub closed spec fn wf(&self) -> bool {
        &&& exists|level: spec_fn(Handle) -> nat| self.inv(level, Set::empty())
        &&& self.anchored()
    }

    spec fn some_level(&self) -> spec_fn(Handle) -> nat {
        choose|level: spec_fn(Handle) -> nat| self.inv(level, Set::empty())
    }

    /// Where there are roots, `min` is one of them.
    proof fn lemma_min_is_root(&self, level: spec_fn(Handle) -> nat, floating: Set<Handle>) -> (m:
        int)
        requires
            self.inv(level, floating),
            self.anchored(),
            self.roots@.len() > 0,
        ensures
            0 <= m < self.roots@.len(),
            self.roots@[m] == self.min,
            self.data@.contains_key(self.min),
            !floating.contains(self.min),
            self.data@[self.min].pos == Position::Root(m as usize),
    {
        let m = choose|m: int| 0 <= m < self.roots@.len() && self.roots@[m] == self.min;
        assert(self.root_ok(floating, m));
        m
    }

    /// Above every node stands a root with a key that is not greater.
    proof fn lemma_has_root(&self, level: spec_fn(Handle) -> nat, h: Handle) -> (i: int)
        requires
            self.inv(level, Set::empty()),
            self.data@.contains_key(h),
        ensures
            0 <= i < self.roots@.len(),
            key_le(self.key_of(self.roots@[i]), self.key_of(h)),
        decreases level(h),
    {
        assert(self.settled_ok(level, h));
        match self.data@[h].pos {
            Position::Root(i) => {
                lemma_le_refl(self.key_of(h));
                i as int
            },
            Position::Child(p, _) => {
                let i = self.lemma_has_root(level, p);
                lemma_le_trans(self.key_of(self.roots@[i]), self.key_of(p), self.key_of(h));
                i
            },
        }
    }

    /// The keys of a well-formed heap are totally ordered.
    pub proof fn lemma_lawful(&self)
        requires
            self.wf(),
        ensures
            lawful::<K>(),
    {
    }

    /// In a well-formed heap that is not empty, `min_handle` names an
    /// element, and no element has a smaller key.
    pub proof fn lemma_min_is_least(&self)
        requires
            self.wf(),
            self@.len() > 0,
        ensures
            is_least(self@, self.min_handle()),
    {
        let level = self.some_level();
        self.data.lemma_finite();
        assert(self@.dom() =~= self.data@.dom());
        if forall|w: Handle| !self@.dom().contains(w) {
            assert(self@.dom() =~= Set::empty());
        }
        let w = choose|w: Handle| self@.dom().contains(w);
        self.lemma_has_root(level, w);
        self.lemma_min_is_root(level, Set::empty());
        assert forall|h: Handle| self@.contains_key(h) implies key_le(
            self@[self.min].1,
            #[trigger] self@[h].1,
        ) by {
            let i = self.lemma_has_root(level, h);
            lemma_le_trans(self.key_of(self.min), self.key_of(self.roots@[i]), self.key_of(h));
        }
    }

    /// No child has a smaller key than its parent.
    pub proof fn lemma_heap_order(&self, h: Handle)
        requires
            self.wf(),
            self@.contains_key(h),
            self.parent_of(h) is Some,
        ensures
            self@.contains_key(self.parent_of(h).unwrap()),
            key_le(self@[self.parent_of(h).unwrap()].1, self@[h].1),
    {
        let level = self.some_level();
        assert(self.settled_ok(level, h));
    }

    /// A heap that is empty has no handle, and its `min_handle` is the
    /// reserved one.
    proof fn lemma_empty(&self)
        requires
            self.wf(),
        ensures
            self@.dom() == self.data@.dom(),
            self@.dom().finite(),
            self@.len() == 0 <==> self.roots@.len() == 0,
            self@.len() == 0 ==> !self.data@.contains_key(self.min),
            self@.len() > 0 ==> self.data@.contains_key(self.min),
    {
        self.data.lemma_finite();
        assert(self@.dom() =~= self.data@.dom());
        if self.roots@.len() > 0 {
            assert(self.root_ok(Set::empty(), 0));
            assert(self@.dom().contains(self.roots@[0]));
        }
        if self@.dom().len() > 0 {
            self.lemma_min_is_least();
        }
    }

    /// Creates a new instance of a `PairingHeap`.
    #[inline]
    pub fn new() -> (heap: Self)
        requires
            lawful::<K>(),
        ensures
            heap.wf(),
            heap@ == Map::<Handle, (T, K)>::empty(),
    {
        let heap = PairingHeap { min: Handle::undef(), roots: Vec::new(), data: Arena::new() };
        proof {
            assert(heap.inv(|h: Handle| 0nat, Set::empty()));
            assert(heap@ =~= Map::<Handle, (T, K)>::empty());
        }
        heap
    }

    /// Returns the number of elements stored in this `PairingHeap`.
    #[inline]
    pub fn len(&self) -> (n: usize)
        requires
            self.wf(),
        ensures
            n == self@.len(),
    {
        proof {
            self.lemma_empty();
        }
        self.data.len()
    }

    /// Returns true if this `PairingHeap` is empty.
    #[inline]
    pub fn is_empty(&self) -> (b: bool)
        requires
            self.wf(),
        ensures
            b == (self@.len() == 0),
    {
        self.len() == 0
    }

    /// Updates the internal pointer to the current minimum element by hinting
    /// to a new possible min element within the heap.
    #[inline]
    fn update_min(&mut self, handle: Handle)
        requires
            lawful::<K>(),
            old(self).data.wf(),
            old(self).data@.contains_key(handle),
            old(self).min.is_undef_spec() || old(self).data@.contains_key(old(self).min),
        ensures
            final(self).data == old(self).data,
            final(self).roots == old(self).roots,
            final(self).min == (if old(self).min.is_undef_spec() || key_lt(
                old(self).key_of(handle),
                old(self).key_of(old(self).min),
            ) {
                handle
            } else {
                old(self).min
            }),
    {
        proof {
            lemma_comparable(self.key_of(handle), self.key_of(self.min));
        }
        if self.min.is_undef() || self.data.at(handle).entry.key < self.data.at(
            self.min,
        ).entry.key {
            self.min = handle;
        }
    }

    /// Creates a new node that is not yet part of the forest.
    #[inline]
    fn mk_root_node(&mut self, elem: T, key: K, Ghost(level): Ghost<spec_fn(Handle) -> nat>) -> (h:
        Handle)
        requires
            old(self).inv(level, Set::empty()),
            old(self).anchored(),
        ensures
            final(self).inv(level, set![h]),
            final(self).anchored(),
            !old(self)@.contains_key(h),
            final(self)@ == old(self)@.insert(h, (elem, key)),
            final(self).min == old(self).min,
            final(self).roots == old(self).roots,
            !h.is_undef_spec(),
            final(self).data.order() == old(self).data.order().push(h),
            final(self).children_of(h).len() == 0,
            forall|g: Handle|
                old(self).data@.contains_key(g) ==> #[trigger] final(self).data@[g] == old(
                    self,
                ).data@[g],
    {
        let idx = self.data.len();
        let h = self.data.put(Node::new_root(idx, Entry::new(key, elem)));
        proof {
            assert(self@ =~= old(self)@.insert(h, (elem, key)));
            assert forall|g: Handle|
                self.data@.contains_key(g) && !set![h].contains(g) implies #[trigger] self.settled_ok(
                level,
                g,
            ) by {
                assert(old(self).settled_ok(level, g));
            }
            assert forall|i: int| 0 <= i < self.roots@.len() implies #[trigger] self.root_ok(
                set![h],
                i,
            ) by {
                assert(old(self).root_ok(Set::empty(), i));
            }
            assert forall|p: Handle, j: int|
                self.data@.contains_key(p) && 0 <= j < self.data@[p].children@.len()
                    implies #[trigger] self.child_ok(set![h], p, j) by {
                assert(old(self).child_ok(Set::empty(), p, j));
            }
            assert forall|i: int| 0 <= i < self.roots@.len() implies self.roots@[i] != h by {
                assert(old(self).root_ok(Set::empty(), i));
            }
        }
        h
    }

    /// Inserts a new root into the `PairingHeap` and checks whether it is the new minimum element.
    fn insert_root(
        &mut self,
        new_root: Handle,
        Ghost(level): Ghost<spec_fn(Handle) -> nat>,
        Ghost(floating): Ghost<Set<Handle>>,
    )
        requires
            old(self).inv(level, floating),
            old(self).anchored(),
            floating.contains(new_root),
        ensures
            final(self).inv(level, floating.remove(new_root)),
            final(self).anchored(),
            final(self)@ == old(self)@,
            final(self).rooted(*old(self), new_root),
            final(self).min == (if old(self).min.is_undef_spec() || key_lt(
                old(self).key_of(new_root),
                old(self).key_of(old(self).min),
            ) {
                new_root
            } else {
                old(self).min
            }),
    {
        proof {
            if self.roots@.len() > 0 {
                self.lemma_min_is_root(level, floating);
            }
        }
        let idx = self.roots.len();
        self.roots.push(new_root);
        self.data.at_mut(new_root).pos = Position::root(idx);
        self.update_min(new_root);
        proof {
            let rest = floating.remove(new_root);
            assert(self@ =~= old(self)@);
            assert forall|g: Handle|
                self.data@.contains_key(g) && !rest.contains(g) implies #[trigger] self.settled_ok(
                level,
                g,
            ) by {
                if g != new_root {
                    assert(old(self).settled_ok(level, g));
                    match old(self).data@[g].pos {
                        Position::Root(i) => {
                            assert(old(self).root_ok(floating, i as int));
                        },
                        Position::Child(p, j) => {
                            assert(old(self).child_ok(floating, p, j as int));
                        },
                    }
                }
            }
            assert forall|i: int| 0 <= i < self.roots@.len() implies #[trigger] self.root_ok(
                rest,
                i,
            ) by {
                if i < idx {
                    assert(old(self).root_ok(floating, i));
                }
            }
            assert forall|p: Handle, j: int|
                self.data@.contains_key(p) && 0 <= j < self.data@[p].children@.len()
                    implies #[trigger] self.child_ok(rest, p, j) by {
                assert(old(self).child_ok(floating, p, j));
            }
            // the anchor
            assert(self.roots@[idx as int] == new_root);
            if idx > 0 {
                let m = old(self).lemma_min_is_root(level, floating);
                assert(self.roots@[m] == old(self).min);
            }
            let k = self.key_of(new_root);
            lemma_le_refl(k);
            if !old(self).min.is_undef_spec() {
                lemma_lt_or_ge(k, self.key_of(old(self).min));
            }
            assert forall|i: int| 0 <= i < self.roots@.len() implies key_le(
                self.key_of(self.min),
                self.key_of(#[trigger] self.roots@[i]),
            ) by {
                if i < idx {
                    assert(old(self).root_ok(floating, i));
                    assert(self.roots@[i] == old(self).roots@[i]);
                    if self.min == new_root {
                        lemma_le_trans(
                            k,
                            self.key_of(old(self).min),
                            self.key_of(self.roots@[i]),
                        );
                    }
                }
            }
        }
    }

    /// Inserts the given element into the `PairingHeap` with its associated key
    /// and returns a `Handle` to it that allows to directly address it.
    ///
    /// The handle is for example required in order to use methods like `decrease_key`.
    #[inline]
    pub fn push(&mut self, elem: T, key: K) -> (h: Handle)
        requires
            old(self).wf(),
        ensures
            final(self).wf(),
            !old(self)@.contains_key(h),
            !h.is_undef_spec(),
            final(self)@ == old(self)@.insert(h, (elem, key)),
            final(self).min_handle() == (if old(self)@.len() == 0 || key_lt(
                key,
                old(self)@[old(self).min_handle()].1,
            ) {
                h
            } else {
                old(self).min_handle()
            }),
            final(self).parent_of(h) is None,
            final(self).storage_order() == old(self).storage_order().push(h),
            forall|g: Handle|
                old(self)@.contains_key(g) ==> #[trigger] final(self).parent_of(g) == old(
                    self,
                ).parent_of(g),
    {
        let ghost level = self.some_level();
        proof {
            self.lemma_empty();
        }
        let handle = self.mk_root_node(elem, key, Ghost(level));
        let ghost alone = Set::<Handle>::empty().insert(handle);
        proof {
            assert(alone =~= set![handle]);
            assert(self@[handle].1 == key);
            if old(self)@.len() > 0 {
                assert(self@[self.min].1 == old(self)@[self.min].1);
            }
        }
        let ghost mid = *self;
        self.insert_root(handle, Ghost(level), Ghost(alone));
        proof {
            assert(alone.remove(handle) =~= Set::empty());
            assert forall|g: Handle| old(self)@.contains_key(g) implies #[trigger] self.parent_of(g)
                == old(self).parent_of(g) by {
                assert(old(self).data@.contains_key(g));
                assert(mid@.contains_key(g));
                assert(mid.data@.contains_key(g) && g != handle);
                assert(mid.data@[g] == old(self).data@[g]);
                assert(self.pos_of(g) == mid.pos_of(g));
            }
        }
        handle
    }

    /// Links the given `lower` tree under the given `upper` tree thus making `lower`
    /// a children of `upper`.
    fn link(
        &mut self,
        upper: Handle,
        lower: Handle,
        Ghost(level): Ghost<spec_fn(Handle) -> nat>,
        Ghost(floating): Ghost<Set<Handle>>,
    ) -> (next: Ghost<spec_fn(Handle) -> nat>)
        requires
            old(self).inv(level, floating),
            old(self).anchored(),
            floating.contains(upper),
            floating.contains(lower),
            upper != lower,
            key_le(old(self).key_of(upper), old(self).key_of(lower)),
        ensures
            final(self).inv(next@, floating.remove(upper).remove(lower)),
            final(self).anchored(),
            final(self)@ == old(self)@,
            final(self).linked(*old(self), upper, lower),
            final(self).min == (if old(self).min.is_undef_spec() || key_lt(
                old(self).key_of(upper),
                old(self).key_of(old(self).min),
            ) {
                upper
            } else {
                old(self).min
            }),
    {
        let idx = self.data.at(upper).children.len();
        self.data.at_mut(upper).children.push(lower);
        self.data.at_mut(lower).pos = Position::child(upper, idx);
        let ghost next = |h: Handle|
            if h == upper {
                level(upper)
            } else {
                (level(h) + level(upper) + 1) as nat
            };
        let ghost rest = floating.remove(lower);
        proof {
            assert(self@ =~= old(self)@);
            assert forall|g: Handle|
                self.data@.contains_key(g) && !rest.contains(g) implies #[trigger] self.settled_ok(
                next,
                g,
            ) by {
                if g != lower {
                    assert(old(self).settled_ok(level, g));
                }
            }
            assert forall|i: int| 0 <= i < self.roots@.len() implies #[trigger] self.root_ok(
                rest,
                i,
            ) by {
                assert(old(self).root_ok(floating, i));
            }
            assert forall|p: Handle, j: int|
                self.data@.contains_key(p) && 0 <= j < self.data@[p].children@.len()
                    implies #[trigger] self.child_ok(rest, p, j) by {
                if !(p == upper && j == idx) {
                    assert(old(self).child_ok(floating, p, j));
                }
            }
            if self.roots@.len() > 0 {
                old(self).lemma_min_is_root(level, floating);
                assert forall|i: int| 0 <= i < self.roots@.len() implies key_le(
                    self.key_of(self.min),
                    self.key_of(#[trigger] self.roots@[i]),
                ) by {
                    assert(old(self).root_ok(floating, i));
                }
            }
            assert(rest.remove(upper) =~= floating.remove(upper).remove(lower));
        }
        let ghost mid = *self;
        self.insert_root(upper, Ghost(next), Ghost(rest));
        proof {
            assert(self.children_of(upper) == mid.children_of(upper));
            assert(self.pos_of(lower) == mid.pos_of(lower));
            assert(mid.data@[upper].children@ == old(self).data@[upper].children@.push(lower));
        }
        Ghost(next)
    }

    /// Links the element with the lower key over the element with the higher key.
    /// Thus making one the child of the other.
    fn union(
        &mut self,
        fst: Handle,
        snd: Handle,
        Ghost(level): Ghost<spec_fn(Handle) -> nat>,
        Ghost(floating): Ghost<Set<Handle>>,
    ) -> (next: Ghost<spec_fn(Handle) -> nat>)
        requires
            old(self).inv(level, floating),
            old(self).anchored(),
            floating.contains(fst),
            floating.contains(snd),
            fst != snd,
        ensures
            final(self).inv(next@, floating.remove(fst).remove(snd)),
            final(self).anchored(),
            final(self)@ == old(self)@,
            final(self).linked(*old(self), old(self).winner(fst, snd), old(self).loser(fst, snd)),
            final(self).min == (if old(self).min.is_undef_spec() || key_lt(
                old(self).key_of(old(self).winner(fst, snd)),
                old(self).key_of(old(self).min),
            ) {
                old(self).winner(fst, snd)
            } else {
                old(self).min
            }),
    {
        proof {
            lemma_comparable(self.key_of(fst), self.key_of(snd));
            lemma_lt_or_ge(self.key_of(fst), self.key_of(snd));
        }
        if self.data.at(fst).entry.key < self.data.at(snd).entry.key {
            self.link(fst, snd, Ghost(level), Ghost(floating))
        } else {
            proof {
                assert(floating.remove(snd).remove(fst) =~= floating.remove(fst).remove(snd));
            }
            self.link(snd, fst, Ghost(level), Ghost(floating))
        }
    }

    /// Pairwise unifies the nodes of `pending`, which leaves half as many roots.
    /// A node without a partner becomes a root as it is.
    fn pairwise_union(&mut self, pending: Vec<Handle>, Ghost(level): Ghost<spec_fn(Handle) -> nat>)
        requires
            old(self).inv(level, tail_set(pending@, 0)),
            old(self).anchored(),
            old(self).roots@.len() == 0,
            pending@.no_duplicates(),
        ensures
            final(self).wf(),
            final(self)@ == old(self)@,
            final(self).paired(*old(self), pending@, pending@.len() as int),
    {
        let n = pending.len();
        let mut i: usize = 0;
        let ghost mut cur = level;
        proof {
            assert forall|j: int| 0 <= j < n implies old(self).data@.contains_key(
                #[trigger] pending@[j],
            ) by {
                assert(tail_set(pending@, 0).contains(pending@[j]));
            }
        }
        while i < n
            invariant
                i <= n,
                i % 2 == 0 || i == n,
                n == pending@.len(),
                pending@.no_duplicates(),
                forall|j: int| 0 <= j < n ==> old(self).data@.contains_key(#[trigger] pending@[j]),
                self.inv(cur, tail_set(pending@, i as int)),
                self.anchored(),
                self@ == old(self)@,
                self.paired(*old(self), pending@, i as int),
                forall|g: Handle| self.data@.contains_key(g) <==> old(self).data@.contains_key(g),
            decreases n - i,
        {
            let fst = pending[i];
            let ghost floating = tail_set(pending@, i as int);
            let ghost mid = *self;
            proof {
                assert(mid.key_of(fst) == mid@[fst].1);
                assert(old(self).key_of(fst) == old(self)@[fst].1);
            }
            if i + 1 < n {
                let snd = pending[i + 1];
                proof {
                    assert(floating.remove(fst).remove(snd) =~= tail_set(pending@, i + 2));
                    assert(mid.key_of(snd) == mid@[snd].1);
                    assert(old(self).key_of(snd) == old(self)@[snd].1);
                }
                let next = self.union(fst, snd, Ghost(cur), Ghost(floating));
                proof {
                    cur = next@;
                    let k = i as int / 2;
                    let up = mid.winner(fst, snd);
                    let low = mid.loser(fst, snd);
                    assert(up == old(self).winner(fst, snd));
                    assert(low == old(self).loser(fst, snd));
                    assert(self.roots@[k] == up);
                    assert(mid.pos_of(pending@[i as int]) == old(self).pos_of(pending@[i as int]));
                    assert(mid.pos_of(pending@[i + 1]) == old(self).pos_of(pending@[i + 1]));
                    assert(self.pair_ok(*old(self), pending@, k));
                    assert forall|q: int| 0 <= q && 2 * q + 1 < i + 2 implies #[trigger] self.pair_ok(
                        *old(self),
                        pending@,
                        q,
                    ) by {
                        if q < k {
                            assert(mid.pair_ok(*old(self), pending@, q));
                            let u = old(self).winner(pending@[2 * q], pending@[2 * q + 1]);
                            let l = old(self).loser(pending@[2 * q], pending@[2 * q + 1]);
                            assert(self.pos_of(u) == mid.pos_of(u));
                            assert(self.pos_of(l) == mid.pos_of(l));
                            assert(self.children_of(u) == mid.children_of(u));
                            assert(self.children_of(l) == mid.children_of(l));
                        }
                    }
                    assert forall|j: int| i + 2 <= j < n implies self.pos_of(#[trigger] pending@[j])
                        == old(self).pos_of(pending@[j]) && self.children_of(pending@[j]) == old(
                        self,
                    ).children_of(pending@[j]) by {
                        assert(mid.pos_of(pending@[j]) == old(self).pos_of(pending@[j]));
                    }
                    assert forall|g: Handle|
                        old(self).data@.contains_key(g) && !pending@.contains(g)
                            implies #[trigger] self.pos_of(g) == old(self).pos_of(g)
                        && self.children_of(g) == old(self).children_of(g) by {
                        assert(mid.pos_of(g) == old(self).pos_of(g));
                        assert(pending@.contains(fst) && pending@.contains(snd));
                    }
                }
                i += 2;
            } else {
                proof {
                    assert(floating.remove(fst) =~= tail_set(pending@, i + 1));
                }
                self.insert_root(fst, Ghost(cur), Ghost(floating));
                proof {
                    let k = i as int / 2;
                    assert(self.roots@[k] == fst);
                    assert(mid.pos_of(pending@[i as int]) == old(self).pos_of(pending@[i as int]));
                    assert forall|q: int| 0 <= q && 2 * q + 1 < i + 1 implies #[trigger] self.pair_ok(
                        *old(self),
                        pending@,
                        q,
                    ) by {
                        assert(mid.pair_ok(*old(self), pending@, q));
                        let u = old(self).winner(pending@[2 * q], pending@[2 * q + 1]);
                        let l = old(self).loser(pending@[2 * q], pending@[2 * q + 1]);
                        assert(self.pos_of(u) == mid.pos_of(u));
                        assert(self.pos_of(l) == mid.pos_of(l));
                        assert(self.children_of(u) == mid.children_of(u));
                        assert(self.children_of(l) == mid.children_of(l));
                    }
                    assert forall|g: Handle|
                        old(self).data@.contains_key(g) && !pending@.contains(g)
                            implies #[trigger] self.pos_of(g) == old(self).pos_of(g)
                        && self.children_of(g) == old(self).children_of(g) by {
                        assert(mid.pos_of(g) == old(self).pos_of(g));
                        assert(pending@.contains(fst));
                    }
                }
                i += 1;
            }
        }
        proof {
            assert(tail_set(pending@, i as int) =~= Set::empty());
        }
    }

    /// Removes the element associated with the minimum key within this `PairingHeap` and returns it.
    #[inline]
    pub fn pop(&mut self) -> (r: Option<T>)
        requires
            old(self).wf(),
        ensures
            final(self).wf(),
            old(self)@.len() == 0 ==> r is None && *final(self) == *old(self),
            old(self)@.len() > 0 ==> r == Some(old(self)@[old(self).min_handle()].0) && final(self)@
                == old(self)@.remove(old(self).min_handle()) && is_least(
                old(self)@,
                old(self).min_handle(),
            ),
    {
        match self.is_empty() {
            true => None,
            _ => Some(self.pop_unchecked()),
        }
    }

    /// Removes the element associated with the minimum key within this `PairingHeap` without
    /// checking for emptiness and returns it.
    pub fn pop_unchecked(&mut self) -> (elem: T)
        requires
            old(self).wf(),
            old(self)@.len() > 0,
        ensures
            final(self).wf(),
            elem == old(self)@[old(self).min_handle()].0,
            final(self)@ == old(self)@.remove(old(self).min_handle()),
            is_least(old(self)@, old(self).min_handle()),
    {
        let ghost level = self.some_level();
        proof {
            self.lemma_empty();
            self.lemma_min_is_least();
            self.lemma_min_is_root(level, Set::empty());
        }
        let min = self.min;
        let idx = match self.data.at(min).pos {
            Position::Root(idx) => idx,
            Position::Child(..) => vstd::pervasive::unreached(),
        };
        // the roots that stay, followed by the children of the minimum, wait
        // in `pending` for the pairwise pass; the heap has no root meanwhile
        let mut pending: Vec<Handle> = Vec::new();
        std::mem::swap(&mut self.roots, &mut pending);
        pending.swap_remove(idx);
        let node = self.data.take(min);
        let Node { pos: _, entry, children } = node;
        let mut orphans = children;
        pending.append(&mut orphans);
        self.min = Handle::undef();
        proof {
            let roots = old(self).roots@;
            let kids = old(self).data@[min].children@;
            let last = roots.len() - 1;
            let floating = tail_set(pending@, 0);
            assert(self@ =~= old(self)@.remove(min));
            assert(old(self).data@[min].pos == Position::Root(idx));
            assert(node == old(self).data@[min]);
            assert(roots.len() == old(self).roots.len() <= usize::MAX);
            assert(kids.len() == node.children.len() <= usize::MAX);
            assert(orphans@.len() == 0);
            assert(pending@.len() == last + kids.len());
            assert forall|k: int| 0 <= k < last implies pending@[k] == roots[if k == idx {
                last
            } else {
                k
            }] by {}
            assert forall|k: int| last <= k < pending@.len() implies pending@[k] == kids[k - last] by {}
            // where each pending node comes from
            assert forall|k: int| 0 <= k < pending@.len() implies {
                let g = #[trigger] pending@[k];
                &&& g != min
                &&& old(self).data@.contains_key(g)
                &&& if k < last {
                    old(self).data@[g].pos == Position::Root(
                        (if k == idx {
                            last
                        } else {
                            k
                        }) as usize,
                    )
                } else {
                    old(self).data@[g].pos == Position::Child(min, (k - last) as usize)
                }
            } by {
                if k < last {
                    if k == idx {
                        assert(old(self).root_ok(Set::empty(), last));
                    } else {
                        assert(old(self).root_ok(Set::empty(), k));
                    }
                } else {
                    assert(old(self).child_ok(Set::empty(), min, k - last));
                }
            }
            assert(pending@.no_duplicates());
            assert forall|g: Handle|
                self.data@.contains_key(g) && !floating.contains(g) implies #[trigger] self.settled_ok(
                level,
                g,
            ) by {
                assert(old(self).settled_ok(level, g));
                match old(self).data@[g].pos {
                    Position::Root(i) => {
                        if i == last {
                            assert(pending@[idx as int] == g);
                        } else {
                            assert(pending@[i as int] == g);
                        }
                    },
                    Position::Child(p, j) => {
                        if p == min {
                            assert(pending@[last + j] == g);
                        }
                    },
                }
            }
            assert forall|p: Handle, j: int|
                self.data@.contains_key(p) && 0 <= j < self.data@[p].children@.len()
                    implies #[trigger] self.child_ok(floating, p, j) by {
                assert(old(self).child_ok(Set::empty(), p, j));
            }
        }
        self.pairwise_union(pending, Ghost(level));
        entry.elem
    }

    /// Takes the given `child` out of the children of its parent. The
    /// sibling that stood last takes its place. Afterwards `child` is cut
    /// loose and waits to be inserted as a root. Its key may be smaller than
    /// the key of its parent.
    fn detach(&mut self, child: Handle, Ghost(level): Ghost<spec_fn(Handle) -> nat>)
        requires
            old(self).inv_low(level, child),
            old(self).anchored(),
            old(self).data@.contains_key(child),
            old(self).data@[child].pos is Child,
        ensures
            final(self).inv(level, Set::empty().insert(child)),
            final(self).anchored(),
            final(self)@ == old(self)@,
            final(self).min == old(self).min,
            final(self).detached(*old(self), child),
    {
        proof {
            assert(self.settled_but(level, child, child));
        }
        match self.data.at(child).pos {
            Position::Root(_) => vstd::pervasive::unreached(),
            Position::Child(parent, idx) => {
                let ghost last = self.data@[parent].children@.len() - 1;
                let ghost moved = self.data@[parent].children@[last];
                proof {
                    assert(self.child_ok(Set::empty(), parent, last));
                    assert(self.child_ok(Set::empty(), parent, idx as int));
                    assert(self.settled_but(level, child, moved));
                }
                self.data.at_mut(parent).children.swap_remove(idx);
                if idx < self.data.at(parent).children.len() {
                    let displaced = self.data.at(parent).children[idx];
                    self.data.at_mut(displaced).pos = Position::child(parent, idx);
                }
                proof {
                    let floating = Set::<Handle>::empty().insert(child);
                    assert(self@ =~= old(self)@);
                    assert forall|g: Handle|
                        self.data@.contains_key(g) && !floating.contains(g)
                            implies #[trigger] self.settled_ok(level, g) by {
                        assert(old(self).settled_but(level, child, g));
                        match old(self).data@[g].pos {
                            Position::Root(_) => {},
                            Position::Child(p, j) => {
                                assert(old(self).child_ok(Set::empty(), p, j as int));
                            },
                        }
                    }
                    assert forall|i: int| 0 <= i < self.roots@.len() implies #[trigger] self.root_ok(
                        floating,
                        i,
                    ) by {
                        assert(old(self).root_ok(Set::empty(), i));
                    }
                    assert forall|p: Handle, j: int|
                        self.data@.contains_key(p) && 0 <= j < self.data@[p].children@.len()
                            implies #[trigger] self.child_ok(floating, p, j) by {
                        if p == parent && j == idx {
                            assert(old(self).child_ok(Set::empty(), p, last));
                        } else {
                            assert(old(self).child_ok(Set::empty(), p, j));
                        }
                    }
                    if self.roots@.len() > 0 {
                        let m = choose|m: int|
                            0 <= m < self.roots@.len() && self.roots@[m] == self.min;
                        assert(old(self).root_ok(Set::empty(), m));
                        assert forall|i: int| 0 <= i < self.roots@.len() implies key_le(
                            self.key_of(self.min),
                            self.key_of(#[trigger] self.roots@[i]),
                        ) by {
                            assert(old(self).root_ok(Set::empty(), i));
                        }
                    }
                    assert(old(self).children_of(parent).last() == moved);
                    assert(old(self).parent_of(moved) == Some(parent));
                }
            },
        }
    }

    /// Cuts the given `child` from its parent and inserts it as a root into
    /// the `PairingHeap`. The key of `child` may be smaller than the key of
    /// its parent; no other node is out of order.
    fn cut(&mut self, child: Handle, Ghost(level): Ghost<spec_fn(Handle) -> nat>)
        requires
            old(self).inv_low(level, child),
            old(self).anchored(),
            old(self).data@.contains_key(child),
            old(self).data@[child].pos is Child,
        ensures
            final(self).inv(level, Set::empty()),
            final(self).anchored(),
            final(self)@ == old(self)@,
            final(self).cut_off(*old(self), child),
            final(self).min == (if old(self).min.is_undef_spec() || key_lt(
                old(self).key_of(child),
                old(self).key_of(old(self).min),
            ) {
                child
            } else {
                old(self).min
            }),
    {
        proof {
            assert(self.settled_but(level, child, child));
            let p = self.parent_of(child).unwrap();
            assert(self.child_ok(Set::empty(), p, self.children_of(p).len() - 1));
        }
        self.detach(child, Ghost(level));
        let ghost mid = *self;
        let ghost alone = Set::<Handle>::empty().insert(child);
        proof {
            assert(mid.key_of(child) == mid@[child].1);
            assert(old(self).key_of(child) == old(self)@[child].1);
            if !mid.min.is_undef_spec() && mid.roots@.len() > 0 {
                mid.lemma_min_is_root(level, alone);
                assert(mid.key_of(mid.min) == mid@[mid.min].1);
                assert(old(self).key_of(mid.min) == old(self)@[mid.min].1);
            }
        }
        self.insert_root(child, Ghost(level), Ghost(alone));
        proof {
            assert(alone.remove(child) =~= Set::empty());
            let p = old(self).parent_of(child).unwrap();
            let last = old(self).children_of(p).last();
            assert(mid.data@.contains_key(p));
            assert(self.children_of(p) == mid.children_of(p));
            assert(mid.data@.contains_key(last));
            match old(self).pos_of(child) {
                Position::Child(_, idx) => {
                    if idx + 1 < old(self).children_of(p).len() {
                        let n = old(self).children_of(p).len();
                        assert(n == old(self).data@[p].children.len() <= usize::MAX);
                        assert(old(self).child_ok(Set::empty(), p, idx as int));
                        assert(old(self).child_ok(Set::empty(), p, n - 1));
                        assert(last != child);
                        assert(self.pos_of(last) == mid.pos_of(last));
                    }
                },
                Position::Root(_) => {},
            }
            assert forall|g: Handle|
                old(self).data@.contains_key(g) && !set![child, last].contains(g)
                    implies #[trigger] self.pos_of(g) == old(self).pos_of(g) by {
                assert(mid.pos_of(g) == old(self).pos_of(g));
            }
            assert forall|g: Handle|
                old(self).data@.contains_key(g) && g != child implies #[trigger] self.parent_of(g)
                == old(self).parent_of(g) by {
                assert(self.pos_of(g) == mid.pos_of(g));
                if g != last {
                    assert(mid.pos_of(g) == old(self).pos_of(g));
                }
            }
            assert forall|g: Handle|
                old(self).data@.contains_key(g) && !set![p].contains(g)
                    implies #[trigger] self.children_of(g) == old(self).children_of(g) by {
                assert(mid.children_of(g) == old(self).children_of(g));
            }
        }
    }

    /// Decreases the key of the element with the associated given `handle`.
    /// Fails, and changes nothing, if the given new key is not lower than the previous key.
    pub fn decrease_key(&mut self, handle: Handle, new_key: K) -> (r: Result<()>)
        requires
            old(self).wf(),
            old(self)@.contains_key(handle),
        ensures
            final(self).wf(),
            key_lt(new_key, old(self)@[handle].1) ==> r is Ok && final(self)@ == old(self)@.insert(
                handle,
                (old(self)@[handle].0, new_key),
            ) && final(self).min_handle() == (if key_lt(
                new_key,
                old(self)@[old(self).min_handle()].1,
            ) {
                handle
            } else {
                old(self).min_handle()
            }),
            key_lt(new_key, old(self)@[handle].1) ==> final(self).parent_of(handle) is None
                && final(self).storage_order() == old(self).storage_order(),
            key_lt(new_key, old(self)@[handle].1) ==> forall|g: Handle|
                old(self)@.contains_key(g) && g != handle ==> #[trigger] final(self).parent_of(g)
                    == old(self).parent_of(g),
            !key_lt(new_key, old(self)@[handle].1) ==> r == Err::<(), Error>(
                Error::DecreaseKeyOutOfOrder,
            ) && *final(self) == *old(self),
    {
        let ghost level = self.some_level();
        let ghost old_key = self.key_of(handle);
        proof {
            self.lemma_empty();
            self.lemma_min_is_root(level, Set::empty());
            lemma_comparable(new_key, old_key);
        }
        if new_key >= self.data.at(handle).entry.key {
            return Err(Error::DecreaseKeyOutOfOrder);
        }
        self.data.at_mut(handle).entry.key = new_key;
        let ghost mid = *self;
        proof {
            self.lemma_lowered(*old(self), level, Set::empty(), handle);
        }
        match self.data.at(handle).pos {
            Position::Root(_) => {
                self.update_min(handle);
                proof {
                    self.lemma_kept(mid, level, Set::empty());
                    let m = old(self).lemma_min_is_root(level, Set::empty());
                    assert(self.roots@[m] == old(self).min);
                    assert(old(self).settled_ok(level, handle));
                    assert(self.roots@.contains(handle));
                    let min0 = old(self).min;
                    let k0 = old(self).key_of(min0);
                    lemma_le_refl(new_key);
                    lemma_lt_or_ge(new_key, k0);
                    lemma_lt_or_ge(new_key, new_key);
                    assert forall|i: int| 0 <= i < self.roots@.len() implies key_le(
                        self.key_of(self.min),
                        self.key_of(#[trigger] self.roots@[i]),
                    ) by {
                        let r = self.roots@[i];
                        assert(old(self).root_ok(Set::empty(), i));
                        if r != handle {
                            assert(self.key_of(r) == old(self).key_of(r));
                            if min0 == handle {
                                lemma_le_trans(new_key, k0, self.key_of(r));
                            } else if self.min == handle {
                                lemma_le_trans(new_key, k0, self.key_of(r));
                            }
                        }
                    }
                    assert(self.inv(level, Set::empty()));
                    assert forall|g: Handle| old(self)@.contains_key(g) implies #[trigger] self.parent_of(
                        g,
                    ) == old(self).parent_of(g) by {}
                }
            },
            Position::Child(..) => {
                proof {
                    // the roots have the keys they had
                    if self.roots@.len() > 0 {
                        assert forall|i: int| 0 <= i < self.roots@.len() implies key_le(
                            self.key_of(self.min),
                            self.key_of(#[trigger] self.roots@[i]),
                        ) by {
                            assert(old(self).root_ok(Set::empty(), i));
                        }
                    }
                }
                self.cut(handle, Ghost(level));
                proof {
                    assert(mid.key_of(mid.min) == old(self)@[mid.min].1);
                    assert forall|g: Handle|
                        old(self)@.contains_key(g) && g != handle implies #[trigger] self.parent_of(
                        g,
                    ) == old(self).parent_of(g) by {
                        assert(mid.parent_of(g) == old(self).parent_of(g));
                    }
                }
            },
        }
        proof {
            assert(self@ =~= old(self)@.insert(handle, (old(self)@[handle].0, new_key)));
        }
        Ok(())
    }

    /// The shape is a matter of positions, children and keys: a heap that
    /// agrees with `before` in these and in its roots has the shape of
    /// `before`, and the same anchor if it has the same `min`.
    proof fn lemma_kept(&self, before: Self, level: spec_fn(Handle) -> nat, floating: Set<Handle>)
        requires
            before.inv(level, floating),
            self.data.wf(),
            self.roots@ == before.roots@,
            forall|g: Handle| self.data@.contains_key(g) <==> before.data@.contains_key(g),
            forall|g: Handle|
                before.data@.contains_key(g) ==> (#[trigger] self.data@[g]).pos
                    == before.data@[g].pos && self.data@[g].children@ == before.data@[g].children@
                    && self.data@[g].entry.key == before.data@[g].entry.key,
        ensures
            self.inv(level, floating),
            self.min == before.min && before.anchored() ==> self.anchored(),
    {
        assert forall|g: Handle|
            self.data@.contains_key(g) && !floating.contains(g) implies #[trigger] self.settled_ok(
            level,
            g,
        ) by {
            assert(before.settled_ok(level, g));
            assert(self.data@[g].pos == before.data@[g].pos);
            match before.data@[g].pos {
                Position::Root(_) => {},
                Position::Child(p, _) => {
                    assert(self.data@[p].children@ == before.data@[p].children@);
                },
            }
        }
        assert forall|i: int| 0 <= i < self.roots@.len() implies #[trigger] self.root_ok(
            floating,
            i,
        ) by {
            assert(before.root_ok(floating, i));
            assert(self.data@[self.roots@[i]].pos == before.data@[self.roots@[i]].pos);
        }
        assert forall|p: Handle, j: int|
            self.data@.contains_key(p) && 0 <= j < self.data@[p].children@.len()
                implies #[trigger] self.child_ok(floating, p, j) by {
            assert(self.data@[p].children@ == before.data@[p].children@);
            assert(before.child_ok(floating, p, j));
            let c = before.data@[p].children@[j];
            assert(self.data@[c].pos == before.data@[c].pos);
        }
        if self.min == before.min && before.anchored() && self.roots@.len() > 0 {
            before.lemma_min_is_root(level, floating);
            assert(self.data@[self.min].entry.key == before.data@[self.min].entry.key);
            assert forall|i: int| 0 <= i < self.roots@.len() implies key_le(
                self.key_of(self.min),
                self.key_of(#[trigger] self.roots@[i]),
            ) by {
                assert(before.root_ok(floating, i));
                assert(self.data@[self.roots@[i]].entry.key == before.data@[self.roots@[i]].entry.key);
            }
        }
    }

    /// Lowering the key of a node keeps the shape, but that the node may now
    /// have a smaller key than its parent. A root, or a node that is cut
    /// loose, has no parent to be compared with.
    proof fn lemma_lowered(
        &self,
        before: Self,
        level: spec_fn(Handle) -> nat,
        floating: Set<Handle>,
        handle: Handle,
    )
        requires
            before.inv(level, floating),
            before.data@.contains_key(handle),
            self.data.wf(),
            self.roots == before.roots,
            forall|g: Handle| self.data@.contains_key(g) <==> before.data@.contains_key(g),
            forall|g: Handle|
                before.data@.contains_key(g) && g != handle ==> self.data@[g] == before.data@[g],
            self.data@[handle].pos == before.data@[handle].pos,
            self.data@[handle].children == before.data@[handle].children,
            key_lt(self.key_of(handle), before.key_of(handle)),
        ensures
            floating.contains(handle) || before.data@[handle].pos is Root ==> self.inv(
                level,
                floating,
            ),
            floating =~= Set::empty() ==> self.inv_low(level, handle),
    {
        assert forall|g: Handle|
            self.data@.contains_key(g) && !floating.contains(g) && (g != handle
                || before.data@[handle].pos is Root) implies #[trigger] self.settled_ok(level, g) by {
            assert(before.settled_ok(level, g));
            match before.data@[g].pos {
                Position::Root(_) => {},
                Position::Child(p, j) => {
                    if p == handle {
                        lemma_le_trans(self.key_of(handle), before.key_of(handle), self.key_of(g));
                    }
                },
            }
        }
        assert forall|i: int| 0 <= i < self.roots@.len() implies #[trigger] self.root_ok(
            floating,
            i,
        ) by {
            assert(before.root_ok(floating, i));
        }
        assert forall|p: Handle, j: int|
            self.data@.contains_key(p) && 0 <= j < self.data@[p].children@.len()
                implies #[trigger] self.child_ok(floating, p, j) by {
            assert(before.child_ok(floating, p, j));
        }
        if floating =~= Set::empty() {
            assert forall|g: Handle| self.data@.contains_key(g) implies #[trigger] self.settled_but(
                level,
                handle,
                g,
            ) by {
                if g != handle {
                    assert(self.settled_ok(level, g));
                } else {
                    assert(before.settled_ok(level, g));
                }
            }
        }
    }

    /// Writing to an element changes neither the shape nor the keys.
    proof fn lemma_elem_written(&self, before: Self, handle: Handle)
        requires
            before.wf(),
            self.data.wf(),
            self.roots == before.roots,
            self.min == before.min,
            self.data.order() == before.data.order(),
            forall|g: Handle| self.data@.contains_key(g) <==> before.data@.contains_key(g),
            forall|g: Handle|
                before.data@.contains_key(g) && g != handle ==> self.data@[g] == before.data@[g],
            before.data@.contains_key(handle) ==> self.data@[handle].pos == before.data@[handle].pos
                && self.data@[handle].children@ == before.data@[handle].children@
                && self.data@[handle].entry.key == before.data@[handle].entry.key,
        ensures
            self.wf(),
            self.keeps_shape_of(before),
            before@.contains_key(handle) ==> self@ == before@.insert(
                handle,
                (self.data@[handle].entry.elem, before@[handle].1),
            ),
            !before@.contains_key(handle) ==> self@ == before@,
    {
        self.lemma_kept(before, before.some_level(), Set::empty());
        assert forall|g: Handle| before@.contains_key(g) implies #[trigger] self.parent_of(g)
            == before.parent_of(g) by {
            assert(self.data@[g].pos == before.data@[g].pos);
        }
        if before@.contains_key(handle) {
            assert(self@ =~= before@.insert(
                handle,
                (self.data@[handle].entry.elem, before@[handle].1),
            ));
        } else {
            assert(self@ =~= before@);
        }
    }

    /// Returns a reference to the element associated with the given handle.
    #[inline]
    pub fn get(&self, handle: Handle) -> (r: Option<&T>)
        requires
            self.wf(),
        ensures
            r == (if self@.contains_key(handle) {
                Some(&self@[handle].0)
            } else {
                None
            }),
    {
        match self.data.get(handle) {
            Some(node) => Some(&node.entry.elem),
            None => None,
        }
    }

    /// Returns a mutable reference to the element associated with the given handle.
    #[inline]
    pub fn get_mut(&mut self, handle: Handle) -> (r: Option<&mut T>)
        requires
            old(self).wf(),
        ensures
            final(self).wf(),
            final(self).keeps_shape_of(*old(self)),
            match r {
                Some(elem) => old(self)@.contains_key(handle) && *elem == old(self)@[handle].0
                    && final(self)@ == old(self)@.insert(
                    handle,
                    (*final(elem), old(self)@[handle].1),
                ),
                None => !old(self)@.contains_key(handle) && final(self)@ == old(self)@,
            },
    {
        let ghost before = *self;
        let ghost after = *final(self);
        match self.data.get_mut(handle) {
            Some(node) => {
                let elem = &mut node.entry.elem;
                proof {
                    after.lemma_elem_written(before, handle);
                }
                Some(elem)
            },
            None => {
                proof {
                    after.lemma_elem_written(before, handle);
                }
                None
            },
        }
    }

    /// Returns a reference to the element associated with the given handle,
    /// which must be a handle of this heap.
    #[inline]
    pub fn get_unchecked(&self, handle: Handle) -> (r: &T)
        requires
            self.wf(),
            self@.contains_key(handle),
        ensures
            *r == self@[handle].0,
    {
        &self.data.at(handle).entry.elem
    }

    /// Returns a mutable reference to the element associated with the given handle,
    /// which must be a handle of this heap.
    #[inline]
    pub fn get_unchecked_mut(&mut self, handle: Handle) -> (r: &mut T)
        requires
            old(self).wf(),
            old(self)@.contains_key(handle),
        ensures
            *r == old(self)@[handle].0,
            final(self).wf(),
            final(self).keeps_shape_of(*old(self)),
            final(self)@ == old(self)@.insert(handle, (*final(r), old(self)@[handle].1)),
    {
        let ghost before = *self;
        let ghost after = *final(self);
        let node = self.data.at_mut(handle);
        let elem = &mut node.entry.elem;
        proof {
            after.lemma_elem_written(before, handle);
        }
        elem
    }

    /// Returns a reference to the current minimum element if not empty.
    #[inline]
    pub fn peek(&self) -> (r: Option<&T>)
        requires
            self.wf(),
        ensures
            self@.len() == 0 ==> r is None,
            self@.len() > 0 ==> r == Some(&self@[self.min_handle()].0) && is_least(
                self@,
                self.min_handle(),
            ),
    {
        proof {
            self.lemma_empty();
            if self@.len() > 0 {
                self.lemma_min_is_least();
            }
        }
        self.get(self.min)
    }

    /// Returns a reference to the current minimum element of a heap that is not empty.
    #[inline]
    pub fn peek_unchecked(&self) -> (r: &T)
        requires
            self.wf(),
            self@.len() > 0,
        ensures
            *r == self@[self.min_handle()].0,
            is_least(self@, self.min_handle()),
    {
        proof {
            self.lemma_empty();
            self.lemma_min_is_least();
        }
        self.get_unchecked(self.min)
    }

    /// Returns a mutable reference to the current minimum element if not empty.
    #[inline]
    pub fn peek_mut(&mut self) -> (r: Option<&mut T>)
        requires
            old(self).wf(),
        ensures
            final(self).wf(),
            final(self).keeps_shape_of(*old(self)),
            match r {
                Some(elem) => old(self)@.len() > 0 && *elem == old(self)@[old(self).min_handle()].0
                    && final(self)@ == old(self)@.insert(
                    old(self).min_handle(),
                    (*final(elem), old(self)@[old(self).min_handle()].1),
                ),
                None => old(self)@.len() == 0 && final(self)@ == old(self)@,
            },
    {
        proof {
            self.lemma_empty();
        }
        let min = self.min;
        self.get_mut(min)
    }

    /// Returns a mutable reference to the current minimum element of a heap that is not empty.
    #[inline]
    pub fn peek_unchecked_mut(&mut self) -> (r: &mut T)
        requires
            old(self).wf(),
            old(self)@.len() > 0,
        ensures
            *r == old(self)@[old(self).min_handle()].0,
            final(self).wf(),
            final(self).keeps_shape_of(*old(self)),
            final(self)@ == old(self)@.insert(
                old(self).min_handle(),
                (*final(r), old(self)@[old(self).min_handle()].1),
            ),
    {
        proof {
            self.lemma_empty();
        }
        let min = self.min;
        self.get_unchecked_mut(min)
    }

    /// The handles of the heap in the order in which `values` visits their elements.
    pub closed spec fn storage_order(&self) -> Seq<Handle> {
        self.data.order()
    }

    /// `storage_order` lists every handle of the heap, and each of them once.
    pub proof fn lemma_storage_order(&self)
        requires
            self.wf(),
        ensures
            self.storage_order().len() == self@.len(),
            self.storage_order().no_duplicates(),
            forall|h: Handle| self.storage_order().contains(h) <==> self@.contains_key(h),
    {
        self.data.lemma_order();
        assert(self@.dom() =~= self.data@.dom());
    }

    /// Iterate over the values in this `PairingHeap` by reference in unspecified order.
    #[inline]
    pub fn values<'a>(&'a self) -> (values: Values<'a, T, K>)
        requires
            self.wf(),
        ensures
            values.wf(),
            values.heap() == self,
            values.position() == 0,
    {
        Values { heap: self, at: 0 }
    }

    /// Iterate over values stored within a `PairingHeap` in a sorted-by-min order. Drains the heap.
    #[inline]
    pub fn drain_min(self) -> (drain: DrainMin<T, K>)
        requires
            self.wf(),
        ensures
            drain.remaining() == self,
    {
        DrainMin { heap: self }
    }

    /// Returns a mutable reference to the element behind a handle of this
    /// heap: what `heap[handle]` is where it is written to.
    pub fn index_mut(&mut self, handle: Handle) -> (r: &mut T)
        requires
            old(self).wf(),
            old(self)@.contains_key(handle),
        ensures
            *r == old(self)@[handle].0,
            final(self).wf(),
            final(self).keeps_shape_of(*old(self)),
            final(self)@ == old(self)@.insert(handle, (*final(r), old(self)@[handle].1)),
    {
        self.get_unchecked_mut(handle)
    }
}

impl<T, K: Key> std::ops::Index<Handle> for PairingHeap<T, K> {
    type Output = T;

    /// Returns a reference to the element behind a handle of this heap.
    fn index(&self, handle: Handle) -> (r: &T)
        ensures
            *r == self@[handle].0,
    {
        match self.data.get(handle) {
            Some(node) => &node.entry.elem,
            None => vstd::pervasive::unreached(),
        }
    }
}

impl<T, K: Key> vstd::std_specs::core::IndexSpecImpl<Handle> for PairingHeap<T, K> {
    /// `heap[handle]` asks for a handle of the heap.
    open spec fn index_req(&self, handle: &Handle) -> bool {
        self.wf() && self@.contains_key(*handle)
    }
}

/// Iterator over references to values stored within a `PairingHeap`.
pub struct Values<'a, T, K: Key> {
    heap: &'a PairingHeap<T, K>,
    at: usize,
}

impl<'a, T, K: Key> Values<'a, T, K> {
    /// The heap whose values are visited.
    pub closed spec fn heap(&self) -> &'a PairingHeap<T, K> {
        self.heap
    }

    /// How many values have been visited.
    pub closed spec fn position(&self) -> nat {
        self.at as nat
    }

    /// The heap is well formed and no more values were visited than it has.
    pub closed spec fn wf(&self) -> bool {
        &&& self.heap.wf()
        &&& self.at <= self.heap@.len()
    }

    /// What `wf` says: the heap is well formed and no more values were
    /// visited than it has.
    pub proof fn lemma_wf(&self)
        requires
            self.wf(),
        ensures
            self.heap().wf(),
            self.position() <= self.heap()@.len(),
    {
    }

    /// The next value in storage order, or `None` after the last.
    pub fn next(&mut self) -> (r: Option<&'a T>)
        requires
            old(self).wf(),
        ensures
            final(self).wf(),
            final(self).heap() == old(self).heap(),
            old(self).position() < old(self).heap()@.len() ==> final(self).position() == old(
                self,
            ).position() + 1 && r == Some(
                &old(self).heap()@[old(self).heap().storage_order()[old(self).position() as int]].0,
            ),
            old(self).position() >= old(self).heap()@.len() ==> r is None && final(self).position()
                == old(self).position(),
    {
        proof {
            self.heap.lemma_storage_order();
            self.heap.lemma_empty();
            self.heap.data.lemma_order();
        }
        if self.at < self.heap.data.len() {
            let node = self.heap.data.nth(self.at);
            self.at = self.at + 1;
            Some(&node.entry.elem)
        } else {
            None
        }
    }

    /// The number of values that have not been visited yet.
    pub fn count(self) -> (n: usize)
        requires
            self.wf(),
        ensures
            n == self.heap()@.len() - self.position(),
    {
        self.heap.len() - self.at
    }
}

/// Iterator over mutable references to values stored within a `PairingHeap`.
///
/// The fields are public so that contracts can say what the heap behind
/// `heap` is once the visit is over.
pub struct ValuesMut<'a, T, K: Key> {
    /// The heap whose values are visited.
    pub heap: &'a mut PairingHeap<T, K>,
    /// How many values have been visited.
    pub at: usize,
}

impl<'a, T, K: Key> ValuesMut<'a, T, K> {
    /// The next value in storage order, or `None` after the last.
    pub fn next(&mut self) -> (r: Option<&mut T>)
        requires
            old(self).heap.wf(),
        ensures
            final(self).heap.wf(),
            *final(final(self).heap) == *final(old(self).heap),
            final(self).heap.keeps_shape_of(*old(self).heap),
            match r {
                Some(elem) => {
                    let h = old(self).heap.storage_order()[old(self).at as int];
                    &&& old(self).at < old(self).heap@.len()
                    &&& final(self).at == old(self).at + 1
                    &&& *elem == old(self).heap@[h].0
                    &&& final(self).heap@ == old(self).heap@.insert(
                        h,
                        (*final(elem), old(self).heap@[h].1),
                    )
                },
                None => old(self).at >= old(self).heap@.len() && *final(self) == *old(self),
            },
    {
        proof {
            self.heap.lemma_storage_order();
            self.heap.lemma_empty();
            self.heap.data.lemma_order();
        }
        let ghost before = *self.heap;
        let ghost after = *final(self).heap;
        if self.at < self.heap.data.len() {
            let ghost h = self.heap.data.order()[self.at as int];
            let node = self.heap.data.nth_mut(self.at);
            self.at = self.at + 1;
            let elem = &mut node.entry.elem;
            proof {
                after.lemma_elem_written(before, h);
            }
            Some(elem)
        } else {
            None
        }
    }
}

impl<T, K: Key> PairingHeap<T, K> {
    /// Iterate over the values in this `PairingHeap` by mutable reference unspecified order.
    #[inline]
    pub fn values_mut<'a>(&'a mut self) -> (values: ValuesMut<'a, T, K>)
        requires
            old(self).wf(),
        ensures
            *values.heap == *old(self),
            values.at == 0,
            *final(self) == *final(values.heap),
    {
        ValuesMut { heap: self, at: 0 }
    }
}

/// Iterator over values stored within a `PairingHeap` in a sorted-by-min order. Drains the heap.
pub struct DrainMin<T, K: Key> {
    heap: PairingHeap<T, K>,
}

impl<T, K: Key> DrainMin<T, K> {
    /// The heap of what has not been drained yet.
    pub closed spec fn remaining(&self) -> PairingHeap<T, K> {
        self.heap
    }

    /// Removes the element with the least key from what remains and returns
    /// it, or returns `None` when nothing remains.
    #[inline]
    pub fn next(&mut self) -> (r: Option<T>)
        requires
            old(self).remaining().wf(),
        ensures
            final(self).remaining().wf(),
            old(self).remaining()@.len() == 0 ==> r is None && final(self).remaining() == old(
                self,
            ).remaining(),
            old(self).remaining()@.len() > 0 ==> r == Some(
                old(self).remaining()@[old(self).remaining().min_handle()].0,
            ) && final(self).remaining()@ == old(self).remaining()@.remove(
                old(self).remaining().min_handle(),
            ) && is_least(old(self).remaining()@, old(self).remaining().min_handle()),
    {
        self.heap.pop()
    }

    /// Drains what remains into a vector: the elements from a least key to
    /// a greatest.
    pub fn collect(self) -> (out: Vec<T>)
        requires
            self.remaining().wf(),
        ensures
            exists|order: Seq<Handle>| drained_in_order(self.remaining()@, order, out@),
    {
        let mut heap = self.heap;
        let mut out: Vec<T> = Vec::new();
        let ghost entries = heap@;
        let ghost mut order = Seq::<Handle>::empty();
        proof {
            lemma_drain_start(entries);
            assert(out@ =~= Seq::<T>::empty());
        }
        while !heap.is_empty()
            invariant
                heap.wf(),
                drained_so_far(entries, heap@, order, out@),
            decreases heap@.len(),
        {
            let ghost m = heap.min_handle();
            let ghost left = heap@;
            proof {
                heap.lemma_min_is_least();
                heap.lemma_empty();
                heap.some_level();
                lemma_drain_step(entries, left, order, out@, m);
            }
            let elem = heap.pop_unchecked();
            out.push(elem);
            proof {
                order = order.push(m);
            }
        }
        proof {
            heap.lemma_empty();
            assert forall|h: Handle| !heap@.contains_key(h) by {
                if heap@.contains_key(h) {
                    assert(heap@.dom().contains(h));
                    assert(heap@.dom().len() > 0);
                }
            }
            lemma_drain_end(entries, heap@, order, out@);
        }
        out
    }
}

impl<T, K: Key> PairingHeap<T, K> {
    /// A handle stays valid until its element is popped. `push`,
    /// `decrease_key` and a write through `get_mut` insert an entry into the
    /// heap, `pop` removes the entry behind `min_handle`. Every handle other
    /// than the one they speak of names the same element with the same key
    /// afterwards.
    pub proof fn law_handle_stays_valid(before: Self, after: Self, h: Handle, changed: Handle)
        requires
            before@.contains_key(h),
            changed != h,
            (exists|entry: (T, K)| after@ == before@.insert(changed, entry)) || after@ == before@.remove(
                changed,
            ),
        ensures
            after@.contains_key(h),
            after@[h] == before@[h],
    {
    }

    /// `push` on an empty heap followed by `pop` returns the pushed element:
    /// where `pushed` is the heap after the push and `popped` what the pop
    /// returns, `popped` is the element.
    pub proof fn law_push_then_pop(
        empty: Self,
        pushed: Self,
        h: Handle,
        elem: T,
        key: K,
        popped: Option<T>,
    )
        requires
            empty.wf(),
            empty@.len() == 0,
            pushed.wf(),
            pushed@ == empty@.insert(h, (elem, key)),
            pushed@.len() == 0 ==> popped is None,
            pushed@.len() > 0 ==> popped == Some(pushed@[pushed.min_handle()].0),
        ensures
            popped == Some(elem),
    {
        empty.lemma_empty();
        pushed.lemma_empty();
        assert(pushed@.contains_key(h));
        assert(pushed@.dom().len() > 0) by {
            if pushed@.dom().len() == 0 {
                assert(pushed@.dom() =~= Set::empty());
            }
        }
        pushed.lemma_min_is_least();
        let m = pushed.min_handle();
        if m != h {
            assert(empty@.contains_key(m));
            assert(empty@.dom().contains(m));
        }
    }

    /// After `decrease_key(h, new_key)` has succeeded, `peek` shows an
    /// element whose key is at most `new_key`.
    pub proof fn law_decrease_then_peek(before: Self, after: Self, h: Handle, new_key: K)
        requires
            before.wf(),
            before@.contains_key(h),
            after.wf(),
            after@ == before@.insert(h, (before@[h].0, new_key)),
        ensures
            after@.len() > 0,
            is_least(after@, after.min_handle()),
            key_le(after@[after.min_handle()].1, new_key),
    {
        after.lemma_empty();
        assert(after@.contains_key(h));
        assert(after@.dom().len() > 0) by {
            if after@.dom().len() == 0 {
                assert(after@.dom() =~= Set::empty());
            }
        }
        after.lemma_min_is_least();
        assert(after@[h].1 == new_key);
    }

    /// What `pop` returns one after the other comes with keys that do not
    /// fall: the key of the element that a second `pop` removes is not
    /// smaller than the key of the element that the first removed.
    pub proof fn law_pops_ascend(before: Self, after: Self)
        requires
            before.wf(),
            after.wf(),
            before@.len() > 0,
            after@ == before@.remove(before.min_handle()),
            after@.len() > 0,
        ensures
            key_le(before@[before.min_handle()].1, after@[after.min_handle()].1),
    {
        before.lemma_min_is_least();
        after.lemma_min_is_least();
        assert(before@.contains_key(after.min_handle()));
    }
}

/// The nodes of `pending` from place `from` on.
spec fn tail_set(pending: Seq<Handle>, from: int) -> Set<Handle> {
    Set::new(|h: Handle| exists|k: int| from <= k < pending.len() && pending[k] == h)
}

} // verus!
