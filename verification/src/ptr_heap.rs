//! An addressable pairing heap whose nodes are linked into rings.
//!
//! Every node knows its parent, one of its children, and the siblings to its
//! left and to its right. The children of a node form a ring, and so do the
//! roots; the root ring is entered at the root of least key.
//!
//! A node and its element are stored side by side under one handle, so that
//! no element can be without its node.

use crate::arena::Arena;
pub use crate::handle::Error;
pub use crate::handle::Handle;
pub use crate::handle::Result;
pub use crate::key::Key;
use crate::key::{
    key_le, key_lt, lawful, lemma_comparable, lemma_le_refl, lemma_le_trans, lemma_lt_or_ge,
};
use crate::model::{
    drained_in_order, drained_so_far, is_least, lemma_drain_end, lemma_drain_start, lemma_drain_step,
};
use crate::ring::{
    is_ring, lemma_insert_contains, lemma_ring_insert, lemma_ring_kept, lemma_ring_remove,
    lemma_ring_rotate, linked, next_place, prev_place, rotated,
};
use vstd::prelude::*;

verus! {

/// The links and the key of one element.
#[derive(Debug, Copy, Clone)]
struct Node<K: Key> {
    parent: Option<Handle>,
    child: Option<Handle>,
    left: Handle,
    right: Handle,
    key: K,
}

impl<K: Key> Node<K> {
    #[inline]
    fn with_key(key: K) -> (node: Self)
        ensures
            node.parent is None,
            node.child is None,
            node.key == key,
    {
        Node { parent: None, child: None, left: Handle::undef(), right: Handle::undef(), key: key }
    }

    fn is_root(&self) -> (b: bool)
        ensures
            b == (self.parent is None),
    {
        self.parent.is_none()
    }
}

/// What the arena stores for one element: its node and the element itself.
#[derive(Debug)]
struct Cell<T, K: Key> {
    node: Node<K>,
    elem: T,
}

impl<T: Clone, K: Key> Cell<T, K> {
    /// `self` is what `clone` makes of `source`.
    pub closed spec fn clone_of(&self, source: Self) -> bool {
        &&& self.node == source.node
        &&& cloned::<T>(source.elem, self.elem)
    }
}

impl<T: Clone, K: Key> Clone for Cell<T, K> {
    /// The same node with a clone of the element.
    fn clone(&self) -> (copy: Self)
        ensures
            copy.clone_of(*self),
    {
        Cell { node: self.node, elem: self.elem.clone() }
    }
}

/// Type alias for `PairingHeap` that has `i64` as default `Key` type.
pub type DefaultPairingHeap<T> = PairingHeap<T, i64>;

/// An addressable pairing heap implementation.
///
/// Stores elements with an associated key. The key can be thought of as the
/// priority of the element that is associated to it.
///
/// Inserting an element provides the caller with a handle that makes it
/// possible to access the element later on. A handle is local to the heap
/// that made it.
#[derive(Debug)]
pub struct PairingHeap<T, K: Key> {
    /// Handle to the element with the minimum key within the pairing heap.
    min: Option<Handle>,
    /// All nodes with their elements, addressed by their handles.
    data: Arena<Cell<T, K>>,
}

/// How the rings are to be read: the ring of the roots, the ring of the
/// children of every node, and a level that grows from parent to child.
/// While a key is being decreased, `low` names the node whose key may be
/// smaller than the key of its parent.
struct Shape {
    level: spec_fn(Handle) -> nat,
    roots: Seq<Handle>,
    kids: spec_fn(Handle) -> Seq<Handle>,
    low: Option<Handle>,
}

impl<T: Clone, K: Key> Clone for PairingHeap<T, K> {
    /// A heap of its own in which the same handles name clones of the
    /// elements, with the same keys.
    fn clone(&self) -> (copy: Self)
        ensures
            self.wf() ==> copy.wf() && copy@.dom() == self@.dom() && copy.keeps_shape_of(*self),
            self.wf() ==> copy.twin_of(*self),
            self.wf() ==> forall|h: Handle|
                self@.contains_key(h) ==> cloned::<T>(self@[h].0, (#[trigger] copy@[h]).0)
                    && copy@[h].1 == self@[h].1,
    {
        let copy = PairingHeap { min: self.min, data: self.data.clone() };
        proof {
            if self.wf() {
                let shape = self.some_shape();
                assert forall|g: Handle| self.data@.contains_key(g) implies (
                #[trigger] copy.data@[g]).node == self.data@[g].node && cloned::<T>(
                    self.data@[g].elem,
                    copy.data@[g].elem,
                ) by {
                    assert(cloned::<Cell<T, K>>(self.data@[g], copy.data@[g]));
                    assert(copy.data@[g].clone_of(self.data@[g]));
                }
                copy.lemma_kept(*self, shape, Set::empty());
                assert(copy.shaped(shape));
                assert(copy@.dom() =~= self@.dom());
                assert forall|g: Handle| self@.contains_key(g) implies #[trigger] copy.parent_of(g)
                    == self.parent_of(g) by {
                    assert(copy.data@[g].node == self.data@[g].node);
                }
            }
        }
        copy
    }
}

impl<T, K: Key> View for PairingHeap<T, K> {
    type V = Map<Handle, (T, K)>;

    /// The element and the key behind each handle of the heap.
    closed spec fn view(&self) -> Map<Handle, (T, K)> {
        Map::new(
            |h: Handle| self.data@.contains_key(h),
            |h: Handle| (self.data@[h].elem, self.data@[h].node.key),
        )
    }
}

impl<T, K: Key> PairingHeap<T, K> {
    /// The handle of the element that `peek` shows and `pop` removes.
    /// It names an element only while the heap is not empty.
    pub closed spec fn min_handle(&self) -> Handle {
        match self.min {
            Some(m) => m,
            None => Handle(usize::MAX),
        }
    }

    /// The two heaps are the same but for their elements: the same handles
    /// name nodes with the same keys and the same links.
    pub closed spec fn twin_of(&self, other: Self) -> bool {
        &&& self.min == other.min
        &&& self.data.order() == other.data.order()
        &&& forall|h: Handle| self.data@.contains_key(h) <==> other.data@.contains_key(h)
        &&& forall|h: Handle|
            other.data@.contains_key(h) ==> (#[trigger] self.data@[h]).node == other.data@[h].node
    }

    /// Twins have the same handles with the same keys, and the same forest.
    pub proof fn lemma_twin(&self, other: Self)
        requires
            self.twin_of(other),
        ensures
            self@.dom() == other@.dom(),
            forall|h: Handle| other@.contains_key(h) ==> (#[trigger] self@[h]).1 == other@[h].1,
            self.keeps_shape_of(other),
    {
        assert(self@.dom() =~= other@.dom());
        assert forall|h: Handle| other@.contains_key(h) implies (#[trigger] self@[h]).1
            == other@[h].1 by {
            assert(self.data@[h].node == other.data@[h].node);
        }
        assert forall|g: Handle| other@.contains_key(g) implies #[trigger] self.parent_of(g)
            == other.parent_of(g) by {
            assert(self.data@[g].node == other.data@[g].node);
        }
    }

    /// The forest is that of `before`: the same element is the minimum,
    /// every node has the parent it had, and the elements are stored in the
    /// same order.
    pub open spec fn keeps_shape_of(&self, before: Self) -> bool {
        &&& self.min_handle() == before.min_handle()
        &&& self.storage_order() == before.storage_order()
        &&& forall|g: Handle|
            before@.contains_key(g) ==> #[trigger] self.parent_of(g) == before.parent_of(g)
    }

    /// The parent of the node behind `h`, or `None` for a root.
    pub closed spec fn parent_of(&self, h: Handle) -> Option<Handle> {
        self.data@[h].node.parent
    }

    spec fn child_of(&self, h: Handle) -> Option<Handle> {
        self.data@[h].node.child
    }

    spec fn right_of(&self, h: Handle) -> Handle {
        self.data@[h].node.right
    }

    spec fn left_of(&self, h: Handle) -> Handle {
        self.data@[h].node.left
    }

    spec fn key_of(&self, h: Handle) -> K {
        self.data@[h].node.key
    }

    spec fn rights(&self) -> spec_fn(Handle) -> Handle {
        |h: Handle| self.right_of(h)
    }

    spec fn lefts(&self) -> spec_fn(Handle) -> Handle {
        |h: Handle| self.left_of(h)
    }

    /// The nodes of `s` are linked into a ring in this order.
    spec fn ring(&self, s: Seq<Handle>) -> bool {
        is_ring(self.rights(), self.lefts(), s)
    }

    /// The root at place `i` of the root ring is a node without a parent.
    spec fn root_ok(&self, shape: Shape, floating: Set<Handle>, i: int) -> bool {
        let r = shape.roots[i];
        &&& self.data@.contains_key(r)
        &&& !floating.contains(r)
        &&& self.parent_of(r) is None
    }

    /// The children of `p` form a ring that `p` enters at one of them.
    spec fn family_ok(&self, shape: Shape, p: Handle) -> bool {
        let s = (shape.kids)(p);
        &&& self.ring(s)
        &&& match self.child_of(p) {
            None => s.len() == 0,
            Some(c) => s.contains(c),
        }
    }

    /// The child at place `i` of the ring below `p` knows `p` as its parent,
    /// has no smaller key, unless it is the node that `shape.low` names,
    /// and a greater level.
    spec fn kid_ok(&self, shape: Shape, floating: Set<Handle>, p: Handle, i: int) -> bool {
        let c = (shape.kids)(p)[i];
        &&& self.data@.contains_key(c)
        &&& !floating.contains(c)
        &&& self.parent_of(c) == Some(p)
        &&& shape.low != Some(c) ==> key_le(self.key_of(p), self.key_of(c))
        &&& (shape.level)(p) < (shape.level)(c)
    }

    /// The node behind `h` stands in the ring that its parent link names.
    spec fn placed(&self, shape: Shape, h: Handle) -> bool {
        match self.parent_of(h) {
            None => shape.roots.contains(h),
            Some(p) => self.data@.contains_key(p) && (shape.kids)(p).contains(h),
        }
    }

    /// The shape of the forest. The nodes in `floating` are cut loose: they
    /// stand in no ring and their links to parent and siblings mean nothing.
    spec fn inv(&self, shape: Shape, floating: Set<Handle>) -> bool {
        &&& lawful::<K>()
        &&& self.data.wf()
        &&& self.ring(shape.roots)
        &&& forall|i: int| 0 <= i < shape.roots.len() ==> #[trigger] self.root_ok(shape, floating, i)
        &&& forall|p: Handle| self.data@.contains_key(p) ==> #[trigger] self.family_ok(shape, p)
        &&& forall|p: Handle, i: int|
            self.data@.contains_key(p) && 0 <= i < (shape.kids)(p).len() ==> #[trigger] self.kid_ok(
                shape,
                floating,
                p,
                i,
            )
        &&& forall|h: Handle|
            self.data@.contains_key(h) && !floating.contains(h) ==> #[trigger] self.placed(shape, h)
        &&& forall|h: Handle| floating.contains(h) ==> self.data@.contains_key(h)
    }

    /// `min` names a root whose key is at most the key of every root in
    /// `seen`, or nothing where there is no root.
    spec fn anchored_over(&self, shape: Shape, seen: Set<Handle>) -> bool {
        match self.min {
            None => shape.roots.len() == 0,
            Some(m) => {
                &&& shape.roots.contains(m)
                &&& forall|i: int|
                    0 <= i < shape.roots.len() && seen.contains(shape.roots[i]) ==> key_le(
                        self.key_of(m),
                        self.key_of(#[trigger] shape.roots[i]),
                    )
            },
        }
    }

    /// `min` names a root of least key, or nothing where there is no root.
    spec fn anchored(&self, shape: Shape) -> bool {
        self.anchored_over(shape, Set::full())
    }

    spec fn shaped(&self, shape: Shape) -> bool {
        self.inv(shape, Set::empty()) && self.anchored(shape) && shape.low is None
    }

    /// The heap is well formed: its nodes form a forest of rings in which no
    /// child has a smaller key than its parent, and `min_handle` names a
    /// root of least key.
    pub closed spec fn wf(&self) -> bool {
        exists|shape: Shape| self.shaped(shape)
    }

    spec fn some_shape(&self) -> Shape {
        choose|shape: Shape| self.shaped(shape)
    }

    /// Above every node stands a root with a key that is not greater.
    proof fn lemma_has_root(&self, shape: Shape, h: Handle) -> (i: int)
        requires
            self.inv(shape, Set::empty()),
            shape.low is None,
            self.data@.contains_key(h),
        ensures
            0 <= i < shape.roots.len(),
            key_le(self.key_of(shape.roots[i]), self.key_of(h)),
        decreases (shape.level)(h),
    {
        assert(self.placed(shape, h));
        match self.parent_of(h) {
            None => {
                lemma_le_refl(self.key_of(h));
                choose|i: int| 0 <= i < shape.roots.len() && shape.roots[i] == h
            },
            Some(p) => {
                let s = (shape.kids)(p);
                let j = choose|j: int| 0 <= j < s.len() && s[j] == h;
                assert(self.kid_ok(shape, Set::empty(), p, j));
                let i = self.lemma_has_root(shape, p);
                lemma_le_trans(self.key_of(shape.roots[i]), self.key_of(p), self.key_of(h));
                i
            },
        }
    }

    /// Where `min` names a node, it is a root.
    proof fn lemma_min_is_root(&self, shape: Shape, floating: Set<Handle>, seen: Set<Handle>) -> (m:
        int)
        requires
            self.inv(shape, floating),
            self.anchored_over(shape, seen),
            self.min is Some,
        ensures
            0 <= m < shape.roots.len(),
            shape.roots[m] == self.min.unwrap(),
            self.data@.contains_key(self.min.unwrap()),
            !floating.contains(self.min.unwrap()),
            self.parent_of(self.min.unwrap()) is None,
    {
        let m = choose|m: int| 0 <= m < shape.roots.len() && shape.roots[m] == self.min.unwrap();
        assert(self.root_ok(shape, floating, m));
        m
    }

    /// A heap is empty exactly if it has no root, and then `min` names nothing.
    proof fn lemma_empty(&self)
        requires
            self.wf(),
        ensures
            self@.dom() == self.data@.dom(),
            self@.dom().finite(),
            self@.len() == 0 <==> self.min is None,
            self.min is Some ==> self.data@.contains_key(self.min.unwrap()),
            self.min is Some ==> self.min_handle() == self.min.unwrap(),
    {
        let shape = self.some_shape();
        self.data.lemma_finite();
        assert(self@.dom() =~= self.data@.dom());
        if self.min is Some {
            self.lemma_min_is_root(shape, Set::empty(), Set::full());
            assert(self@.dom().contains(self.min.unwrap()));
        } else if self@.dom().len() > 0 {
            if forall|w: Handle| !self@.dom().contains(w) {
                assert(self@.dom() =~= Set::empty());
            }
            let w = choose|w: Handle| self@.dom().contains(w);
            self.lemma_has_root(shape, w);
        }
    }

    /// The keys of a well-formed heap are totally ordered.
    pub proof fn lemma_lawful(&self)
        requires
            self.wf(),
        ensures
            lawful::<K>(),
    {
        let shape = self.some_shape();
    }

    /// In a well-formed heap that is not empty, `min_handle` names an
    /// element, and no element has a smaller key.
    pub proof fn lemma_min_is_least(&self)
        requires
            self.wf(),
            self@.len() > 0,
        ensures
            is_least(self@, self.min_handle()),
    {
        let shape = self.some_shape();
        self.lemma_empty();
        let m = self.min.unwrap();
        assert forall|h: Handle| self@.contains_key(h) implies key_le(
            self@[m].1,
            #[trigger] self@[h].1,
        ) by {
            let i = self.lemma_has_root(shape, h);
            lemma_le_trans(self.key_of(m), self.key_of(shape.roots[i]), self.key_of(h));
        }
    }

    /// No child has a smaller key than its parent.
    pub proof fn lemma_heap_order(&self, h: Handle)
        requires
            self.wf(),
            self@.contains_key(h),
            self.parent_of(h) is Some,
        ensures
            self@.contains_key(self.parent_of(h).unwrap()),
            key_le(self@[self.parent_of(h).unwrap()].1, self@[h].1),
    {
        let shape = self.some_shape();
        let p = self.parent_of(h).unwrap();
        assert(self.placed(shape, h));
        let s = (shape.kids)(p);
        let j = choose|j: int| 0 <= j < s.len() && s[j] == h;
        assert(self.kid_ok(shape, Set::empty(), p, j));
    }

    /// Creates a new instance of a `PairingHeap`.
    #[inline]
    pub fn new() -> (heap: Self)
        requires
            lawful::<K>(),
        ensures
            heap.wf(),
            heap@ == Map::<Handle, (T, K)>::empty(),
    {
        let heap = PairingHeap { min: None, data: Arena::new() };
        proof {
            let shape = Shape {
                level: |h: Handle| 0nat,
                roots: Seq::empty(),
                kids: |h: Handle| Seq::empty(),
                low: None,
            };
            assert(heap.shaped(shape));
            assert(heap@ =~= Map::<Handle, (T, K)>::empty());
        }
        heap
    }

    /// Returns the number of elements stored in this `PairingHeap`.
    #[inline]
    pub fn len(&self) -> (n: usize)
        requires
            self.wf(),
        ensures
            n == self@.len(),
    {
        proof {
            self.lemma_empty();
        }
        self.data.len()
    }

    /// Returns true if this `PairingHeap` is empty.
    #[inline]
    pub fn is_empty(&self) -> (b: bool)
        requires
            self.wf(),
        ensures
            b == (self@.len() == 0),
    {
        self.len() == 0
    }

    /// Only links differ between `before` and `self`: the same handles name
    /// the same elements with the same keys.
    spec fn relinked(&self, before: Self) -> bool {
        &&& self.data.wf()
        &&& forall|h: Handle| self.data@.contains_key(h) <==> before.data@.contains_key(h)
        &&& forall|h: Handle|
            before.data@.contains_key(h) ==> (#[trigger] self.data@[h]).elem == before.data@[h].elem
                && self.data@[h].node.key == before.data@[h].node.key
    }

    /// Relinking does not touch the keys.
    proof fn lemma_relinked_key(&self, before: Self, h: Handle)
        requires
            self.relinked(before),
            before.data@.contains_key(h),
        ensures
            self.key_of(h) == before.key_of(h),
            self.data@.contains_key(h),
    {
        assert(self.data@[h].node.key == before.data@[h].node.key);
    }

    /// Relinking does not touch the view.
    proof fn lemma_relinked_view(&self, before: Self)
        requires
            self.relinked(before),
        ensures
            self@ == before@,
    {
        assert(self@ =~= before@);
    }

    /// Splicing a node that was cut loose into a ring keeps the shape.
    /// Before, `x` is cut loose and `a` stands in a ring; now `x` stands to
    /// the right of `a` and has the parent of `a`.
    proof fn lemma_spliced(
        &self,
        before: Self,
        shape: Shape,
        floating: Set<Handle>,
        a: Handle,
        x: Handle,
    ) -> (next: Shape)
        requires
            before.inv(shape, floating),
            floating.contains(x),
            before.data@.contains_key(a),
            !floating.contains(a),
            before.parent_of(a) is Some ==> key_le(
                before.key_of(before.parent_of(a).unwrap()),
                before.key_of(x),
            ) && (shape.level)(before.parent_of(a).unwrap()) < (shape.level)(x),
            self.relinked(before),
            self.right_of(a) == x,
            self.left_of(x) == a,
            self.right_of(x) == before.right_of(a),
            self.left_of(before.right_of(a)) == x,
            self.parent_of(x) == before.parent_of(a),
            forall|h: Handle|
                before.data@.contains_key(h) && h != a && h != x ==> #[trigger] self.right_of(h)
                    == before.right_of(h),
            forall|h: Handle|
                before.data@.contains_key(h) && h != before.right_of(a) && h != x
                    ==> #[trigger] self.left_of(h) == before.left_of(h),
            forall|h: Handle|
                before.data@.contains_key(h) && h != x ==> #[trigger] self.parent_of(h)
                    == before.parent_of(h),
            forall|h: Handle|
                before.data@.contains_key(h) ==> #[trigger] self.child_of(h) == before.child_of(h),
        ensures
            self.inv(next, floating.remove(x)),
            next.level == shape.level,
            next.low == shape.low,
            before.parent_of(a) is Some ==> next.roots == shape.roots,
            before.parent_of(a) is None ==> next.kids == shape.kids,
            forall|h: Handle|
                before.parent_of(a) is None ==> (next.roots.contains(h) <==> shape.roots.contains(h)
                    || h == x),
            match before.parent_of(a) {
                None => ring_gained(next.roots, shape.roots, x),
                Some(p) => ring_gained(kids_of(next, p), kids_of(shape, p), x) && other_kids_same(
                    next,
                    shape,
                    p,
                ),
            },
    {
        let rest = floating.remove(x);
        let par = before.parent_of(a);
        assert(before.placed(shape, a));
        let s = match par {
            None => shape.roots,
            Some(p) => (shape.kids)(p),
        };
        if par is Some {
            assert(before.family_ok(shape, par.unwrap()));
        }
        assert(before.ring(s));
        let k = choose|k: int| 0 <= k < s.len() && s[k] == a;
        let n = s.len() as int;
        let succ = before.right_of(a);
        assert(linked(before.rights(), before.lefts(), s, k));
        assert(succ == s[next_place(n, k)]);
        // the nodes of the ring of `a`
        assert forall|i: int| 0 <= i < s.len() implies before.data@.contains_key(#[trigger] s[i])
            && !floating.contains(s[i]) && before.parent_of(s[i]) == par by {
            match par {
                None => {
                    assert(before.root_ok(shape, floating, i));
                },
                Some(p) => {
                    assert(before.kid_ok(shape, floating, p, i));
                },
            }
        }
        if s.contains(x) {
            let i = choose|i: int| 0 <= i < s.len() && s[i] == x;
            assert(!floating.contains(s[i]));
        }
        lemma_ring_insert(before.rights(), before.lefts(), self.rights(), self.lefts(), s, k, x);
        let t = s.insert(k + 1, x);
        lemma_insert_contains(s, k + 1, x);
        let next = match par {
            None => Shape { level: shape.level, roots: t, kids: shape.kids, low: shape.low },
            Some(p) => Shape {
                level: shape.level,
                roots: shape.roots,
                low: shape.low,
                kids: |q: Handle|
                    if q == p {
                        t
                    } else {
                        (shape.kids)(q)
                    },
            },
        };
        // the ring of the roots
        if par is Some {
            assert forall|i: int| 0 <= i < shape.roots.len() implies self.right_of(
                #[trigger] shape.roots[i],
            ) == before.right_of(shape.roots[i]) && self.left_of(shape.roots[i]) == before.left_of(
                shape.roots[i],
            ) by {
                assert(before.root_ok(shape, floating, i));
            }
            lemma_ring_kept(
                before.rights(),
                before.lefts(),
                self.rights(),
                self.lefts(),
                shape.roots,
            );
        }
        assert forall|i: int| 0 <= i < next.roots.len() implies #[trigger] self.root_ok(
            next,
            rest,
            i,
        ) by {
            if par is None {
                if i <= k {
                    assert(t[i] == s[i]);
                } else if i > k + 1 {
                    assert(t[i] == s[i - 1]);
                }
            } else {
                assert(before.root_ok(shape, floating, i));
            }
        }
        // the rings of children
        assert forall|q: Handle| self.data@.contains_key(q) implies #[trigger] self.family_ok(
            next,
            q,
        ) by {
            assert(before.family_ok(shape, q));
            if par == Some(q) {
            } else {
                let u = (shape.kids)(q);
                assert((next.kids)(q) == u);
                assert forall|i: int| 0 <= i < u.len() implies self.right_of(#[trigger] u[i])
                    == before.right_of(u[i]) && self.left_of(u[i]) == before.left_of(u[i]) by {
                    assert(before.kid_ok(shape, floating, q, i));
                }
                lemma_ring_kept(before.rights(), before.lefts(), self.rights(), self.lefts(), u);
            }
        }
        assert forall|q: Handle, i: int|
            self.data@.contains_key(q) && 0 <= i < (next.kids)(q).len() implies #[trigger] self.kid_ok(
            next,
            rest,
            q,
            i,
        ) by {
            if par == Some(q) {
                if i <= k {
                    assert(t[i] == s[i]);
                    assert(before.kid_ok(shape, floating, q, i));
                } else if i > k + 1 {
                    assert(t[i] == s[i - 1]);
                    assert(before.kid_ok(shape, floating, q, i - 1));
                }
            } else {
                assert(before.kid_ok(shape, floating, q, i));
            }
        }
        assert forall|h: Handle|
            self.data@.contains_key(h) && !rest.contains(h) implies #[trigger] self.placed(
            next,
            h,
        ) by {
            if h != x {
                assert(before.placed(shape, h));
            }
        }
        next
    }

    /// Returns a reference to the `Node` that is associated with the given handle.
    #[inline]
    fn node(&self, handle: Handle) -> (r: &Node<K>)
        requires
            self.data.wf(),
            self.data@.contains_key(handle),
        ensures
            *r == self.data@[handle].node,
    {
        &self.data.at(handle).node
    }

    /// Returns a mutable reference to the `Node` that is associated with the given handle.
    #[inline]
    fn node_mut(&mut self, handle: Handle) -> (r: &mut Node<K>)
        requires
            old(self).data.wf(),
            old(self).data@.contains_key(handle),
        ensures
            *r == old(self).data@[handle].node,
            final(self).min == old(self).min,
            final(self).data.wf(),
            final(self).data@.dom() == old(self).data@.dom(),
            final(self).data@[handle].node == *final(r),
            final(self).data@[handle].elem == old(self).data@[handle].elem,
            forall|h: Handle|
                h != handle && old(self).data@.contains_key(h) ==> #[trigger] final(self).data@[h]
                    == old(self).data@[h],
            final(self).data.order() == old(self).data.order(),
    {
        &mut self.data.at_mut(handle).node
    }

    /// Adds the given new child to the given child's siblings, to its right.
    #[inline]
    fn add_sibling(
        &mut self,
        child: Handle,
        new_child: Handle,
        Ghost(shape): Ghost<Shape>,
        Ghost(floating): Ghost<Set<Handle>>,
    ) -> (next: Ghost<Shape>)
        requires
            old(self).inv(shape, floating),
            floating.contains(new_child),
            old(self).data@.contains_key(child),
            !floating.contains(child),
            old(self).parent_of(child) is Some ==> key_le(
                old(self).key_of(old(self).parent_of(child).unwrap()),
                old(self).key_of(new_child),
            ) && (shape.level)(old(self).parent_of(child).unwrap()) < (shape.level)(new_child),
        ensures
            final(self).inv(next@, floating.remove(new_child)),
            final(self).relinked(*old(self)),
            final(self).min == old(self).min,
            final(self).data.order() == old(self).data.order(),
            next@.level == shape.level,
            next@.low == shape.low,
            old(self).parent_of(child) is Some ==> next@.roots == shape.roots,
            old(self).parent_of(child) is None ==> next@.kids == shape.kids,
            forall|h: Handle|
                old(self).parent_of(child) is None ==> (next@.roots.contains(h)
                    <==> shape.roots.contains(h) || h == new_child),
            match old(self).parent_of(child) {
                None => ring_gained(next@.roots, shape.roots, new_child),
                Some(p) => ring_gained(kids_of(next@, p), kids_of(shape, p), new_child)
                    && other_kids_same(next@, shape, p),
            },
            final(self).parent_of(new_child) == old(self).parent_of(child),
            forall|h: Handle|
                old(self).data@.contains_key(h) && h != new_child
                    ==> #[trigger] final(self).parent_of(h) == old(self).parent_of(h),
    {
        let parent = self.node(child).parent;
        let right = self.node(child).right;
        proof {
            // the right neighbour is a node of the same ring
            assert(self.placed(shape, child));
            let s = match parent {
                None => shape.roots,
                Some(p) => (shape.kids)(p),
            };
            if parent is Some {
                assert(self.family_ok(shape, parent.unwrap()));
            }
            let k = choose|k: int| 0 <= k < s.len() && s[k] == child;
            assert(linked(self.rights(), self.lefts(), s, k));
            let k2 = next_place(s.len() as int, k);
            match parent {
                None => {
                    assert(self.root_ok(shape, floating, k2));
                },
                Some(p) => {
                    assert(self.kid_ok(shape, floating, p, k2));
                },
            }
        }
        let node = self.node_mut(new_child);
        node.parent = parent;
        node.right = right;
        node.left = child;
        self.node_mut(child).right = new_child;
        self.node_mut(right).left = new_child;
        let ghost next = self.lemma_spliced(*old(self), shape, floating, child, new_child);
        Ghost(next)
    }

    /// The shape is a matter of links and keys: a heap that agrees with
    /// `before` in these has the shape of `before`, and the same anchor if
    /// it has the same `min`.
    proof fn lemma_kept(&self, before: Self, shape: Shape, floating: Set<Handle>)
        requires
            before.inv(shape, floating),
            self.data.wf(),
            forall|g: Handle| self.data@.contains_key(g) <==> before.data@.contains_key(g),
            forall|g: Handle|
                before.data@.contains_key(g) ==> (#[trigger] self.data@[g]).node
                    == before.data@[g].node,
        ensures
            self.inv(shape, floating),
            forall|seen: Set<Handle>|
                self.min == before.min && before.anchored_over(shape, seen)
                    ==> #[trigger] self.anchored_over(shape, seen),
    {
        assert forall|i: int| 0 <= i < shape.roots.len() implies self.right_of(
            #[trigger] shape.roots[i],
        ) == before.right_of(shape.roots[i]) && self.left_of(shape.roots[i]) == before.left_of(
            shape.roots[i],
        ) by {
            assert(before.root_ok(shape, floating, i));
            assert(self.data@[shape.roots[i]].node == before.data@[shape.roots[i]].node);
        }
        lemma_ring_kept(before.rights(), before.lefts(), self.rights(), self.lefts(), shape.roots);
        assert forall|i: int| 0 <= i < shape.roots.len() implies #[trigger] self.root_ok(
            shape,
            floating,
            i,
        ) by {
            assert(before.root_ok(shape, floating, i));
            assert(self.data@[shape.roots[i]].node == before.data@[shape.roots[i]].node);
        }
        assert forall|p: Handle| self.data@.contains_key(p) implies #[trigger] self.family_ok(
            shape,
            p,
        ) by {
            assert(before.family_ok(shape, p));
            assert(self.data@[p].node == before.data@[p].node);
            let u = (shape.kids)(p);
            assert forall|i: int| 0 <= i < u.len() implies self.right_of(#[trigger] u[i])
                == before.right_of(u[i]) && self.left_of(u[i]) == before.left_of(u[i]) by {
                assert(before.kid_ok(shape, floating, p, i));
                assert(self.data@[u[i]].node == before.data@[u[i]].node);
            }
            lemma_ring_kept(before.rights(), before.lefts(), self.rights(), self.lefts(), u);
        }
        assert forall|p: Handle, i: int|
            self.data@.contains_key(p) && 0 <= i < (shape.kids)(p).len() implies #[trigger] self.kid_ok(
            shape,
            floating,
            p,
            i,
        ) by {
            assert(before.kid_ok(shape, floating, p, i));
            let c = (shape.kids)(p)[i];
            assert(self.data@[p].node == before.data@[p].node);
            assert(self.data@[c].node == before.data@[c].node);
        }
        assert forall|h: Handle|
            self.data@.contains_key(h) && !floating.contains(h) implies #[trigger] self.placed(
            shape,
            h,
        ) by {
            assert(before.placed(shape, h));
            assert(self.data@[h].node == before.data@[h].node);
        }
        assert forall|seen: Set<Handle>|
            self.min == before.min && before.anchored_over(shape, seen)
                implies #[trigger] self.anchored_over(shape, seen) by {
            if self.min is Some {
                before.lemma_min_is_root(shape, floating, seen);
                let m = self.min.unwrap();
                assert(self.data@[m].node == before.data@[m].node);
                assert forall|i: int|
                    0 <= i < shape.roots.len() && seen.contains(shape.roots[i]) implies key_le(
                    self.key_of(m),
                    self.key_of(#[trigger] shape.roots[i]),
                ) by {
                    assert(before.root_ok(shape, floating, i));
                    assert(self.data@[shape.roots[i]].node == before.data@[shape.roots[i]].node);
                }
            }
        }
    }

    /// A heap with the nodes of `other` has its shape.
    proof fn lemma_same_shape(&self, other: Self, shape: Shape, floating: Set<Handle>)
        requires
            other.inv(shape, floating),
            self.data == other.data,
        ensures
            self.inv(shape, floating),
            self.relinked(other),
    {
        self.lemma_kept(other, shape, floating);
    }

    /// Updates the internal pointer to the current minimum element by hinting
    /// to a new possible min element within the heap.
    #[inline]
    fn update_min(&mut self, new: Handle)
        requires
            lawful::<K>(),
            old(self).data.wf(),
            old(self).data@.contains_key(new),
            old(self).min is Some ==> old(self).data@.contains_key(old(self).min.unwrap()),
        ensures
            final(self).data == old(self).data,
            final(self).min == Some(
                match old(self).min {
                    None => new,
                    Some(m) => if key_lt(old(self).key_of(new), old(self).key_of(m)) {
                        new
                    } else {
                        m
                    },
                },
            ),
    {
        match self.min {
            None => {
                self.min = Some(new);
            },
            Some(min) => {
                proof {
                    lemma_comparable(self.key_of(new), self.key_of(min));
                }
                if self.node(new).key < self.node(min).key {
                    self.min = Some(new);
                }
            },
        }
    }

    /// Creates a new node with its element. The node is not yet part of the
    /// forest; it is its own left and right sibling.
    #[inline]
    fn make_entry(&mut self, key: K, elem: T, Ghost(shape): Ghost<Shape>) -> (h: Handle)
        requires
            old(self).shaped(shape),
        ensures
            final(self).inv(newborn(shape, h), Set::empty().insert(h)),
            final(self).anchored(newborn(shape, h)),
            !old(self)@.contains_key(h),
            final(self)@ == old(self)@.insert(h, (elem, key)),
            final(self).min == old(self).min,
            final(self).data.order() == old(self).data.order().push(h),
            !h.is_undef_spec(),
            forall|g: Handle|
                old(self).data@.contains_key(g) ==> #[trigger] final(self).data@[g] == old(
                    self,
                ).data@[g],
    {
        let handle = self.data.put(Cell { node: Node::with_key(key), elem: elem });
        let node = self.node_mut(handle);
        node.left = handle;
        node.right = handle;
        proof {
            let next = newborn(shape, handle);
            let floating = Set::<Handle>::empty().insert(handle);
            assert(self@ =~= old(self)@.insert(handle, (elem, key)));
            assert forall|i: int| 0 <= i < shape.roots.len() implies self.right_of(
                #[trigger] shape.roots[i],
            ) == old(self).right_of(shape.roots[i]) && self.left_of(shape.roots[i]) == old(
                self,
            ).left_of(shape.roots[i]) by {
                assert(old(self).root_ok(shape, Set::empty(), i));
            }
            lemma_ring_kept(
                old(self).rights(),
                old(self).lefts(),
                self.rights(),
                self.lefts(),
                shape.roots,
            );
            assert forall|i: int| 0 <= i < next.roots.len() implies #[trigger] self.root_ok(
                next,
                floating,
                i,
            ) by {
                assert(old(self).root_ok(shape, Set::empty(), i));
            }
            assert forall|p: Handle| self.data@.contains_key(p) implies #[trigger] self.family_ok(
                next,
                p,
            ) by {
                if p != handle {
                    assert(old(self).family_ok(shape, p));
                    let u = (shape.kids)(p);
                    assert forall|i: int| 0 <= i < u.len() implies self.right_of(#[trigger] u[i])
                        == old(self).right_of(u[i]) && self.left_of(u[i]) == old(self).left_of(
                        u[i],
                    ) by {
                        assert(old(self).kid_ok(shape, Set::empty(), p, i));
                    }
                    lemma_ring_kept(
                        old(self).rights(),
                        old(self).lefts(),
                        self.rights(),
                        self.lefts(),
                        u,
                    );
                }
            }
            assert forall|p: Handle, i: int|
                self.data@.contains_key(p) && 0 <= i < (next.kids)(p).len()
                    implies #[trigger] self.kid_ok(next, floating, p, i) by {
                assert(old(self).kid_ok(shape, Set::empty(), p, i));
            }
            assert forall|h: Handle|
                self.data@.contains_key(h) && !floating.contains(h) implies #[trigger] self.placed(
                next,
                h,
            ) by {
                assert(old(self).placed(shape, h));
            }
            if self.min is Some {
                old(self).lemma_min_is_root(shape, Set::empty(), Set::full());
                assert forall|i: int| 0 <= i < next.roots.len() implies key_le(
                    self.key_of(self.min.unwrap()),
                    self.key_of(#[trigger] next.roots[i]),
                ) by {
                    assert(old(self).root_ok(shape, Set::empty(), i));
                }
            }
        }
        handle
    }

    /// Adds the given handle as a new root node into the heap.
    #[inline]
    fn insert_root(
        &mut self,
        new_root: Handle,
        Ghost(shape): Ghost<Shape>,
        Ghost(floating): Ghost<Set<Handle>>,
    ) -> (next: Ghost<Shape>)
        requires
            old(self).inv(shape, floating),
            old(self).anchored(shape),
            floating.contains(new_root),
        ensures
            final(self).inv(next@, floating.remove(new_root)),
            final(self).anchored(next@),
            final(self).relinked(*old(self)),
            final(self).data.order() == old(self).data.order(),
            next@.kids == shape.kids,
            next@.level == shape.level,
            next@.low == shape.low,
            ring_gained(next@.roots, shape.roots, new_root),
            final(self).parent_of(new_root) is None,
            forall|h: Handle|
                old(self).data@.contains_key(h) && h != new_root
                    ==> #[trigger] final(self).parent_of(h) == old(self).parent_of(h),
            final(self).min == Some(
                match old(self).min {
                    None => new_root,
                    Some(m) => if key_lt(old(self).key_of(new_root), old(self).key_of(m)) {
                        new_root
                    } else {
                        m
                    },
                },
            ),
    {
        match self.min {
            None => {
                let node = self.node_mut(new_root);
                node.parent = None;
                node.left = new_root;
                node.right = new_root;
                self.min = Some(new_root);
                let ghost next = Shape {
                    level: shape.level,
                    roots: Seq::<Handle>::empty().push(new_root),
                    kids: shape.kids,
                    low: shape.low,
                };
                proof {
                    let rest = floating.remove(new_root);
                    assert(next.roots[0] == new_root);
                    assert(linked(self.rights(), self.lefts(), next.roots, 0));
                    assert forall|p: Handle|
                        self.data@.contains_key(p) implies #[trigger] self.family_ok(next, p) by {
                        assert(old(self).family_ok(shape, p));
                        let u = (shape.kids)(p);
                        assert forall|i: int| 0 <= i < u.len() implies self.right_of(
                            #[trigger] u[i],
                        ) == old(self).right_of(u[i]) && self.left_of(u[i]) == old(self).left_of(
                            u[i],
                        ) by {
                            assert(old(self).kid_ok(shape, floating, p, i));
                        }
                        lemma_ring_kept(
                            old(self).rights(),
                            old(self).lefts(),
                            self.rights(),
                            self.lefts(),
                            u,
                        );
                    }
                    assert forall|p: Handle, i: int|
                        self.data@.contains_key(p) && 0 <= i < (next.kids)(p).len()
                            implies #[trigger] self.kid_ok(next, rest, p, i) by {
                        assert(old(self).kid_ok(shape, floating, p, i));
                    }
                    assert forall|h: Handle|
                        self.data@.contains_key(h) && !rest.contains(h)
                            implies #[trigger] self.placed(next, h) by {
                        if h != new_root {
                            assert(old(self).placed(shape, h));
                        }
                    }
                    lemma_le_refl(self.key_of(new_root));
                    assert forall|h: Handle|
                        old(self).data@.contains_key(h) && h != new_root
                            implies #[trigger] self.parent_of(h) == old(self).parent_of(h) by {}
                    assert(next.roots[0] == new_root);
                    assert forall|h: Handle| next.roots.contains(h) <==> h == new_root by {
                        if next.roots.contains(h) {
                            let i = choose|i: int| 0 <= i < next.roots.len() && next.roots[i] == h;
                        }
                    }
                    assert forall|h: Handle| !shape.roots.contains(h) by {
                        if shape.roots.contains(h) {
                            let i = choose|i: int| 0 <= i < shape.roots.len() && shape.roots[i] == h;
                        }
                    }
                }
                Ghost(next)
            },
            Some(min) => {
                proof {
                    old(self).lemma_min_is_root(shape, floating, Set::full());
                }
                let next = self.add_sibling(min, new_root, Ghost(shape), Ghost(floating));
                let ghost mid = *self;
                self.update_min(new_root);
                proof {
                    self.lemma_same_shape(mid, next@, floating.remove(new_root));
                    assert forall|h: Handle|
                        old(self).data@.contains_key(h) && h != new_root
                            implies #[trigger] self.parent_of(h) == old(self).parent_of(h) by {
                        assert(mid.parent_of(h) == old(self).parent_of(h));
                    }
                    assert(self.parent_of(new_root) == mid.parent_of(new_root));
                    let k = self.key_of(new_root);
                    lemma_le_refl(k);
                    lemma_lt_or_ge(k, self.key_of(min));
                    assert forall|i: int| 0 <= i < next@.roots.len() implies key_le(
                        self.key_of(self.min.unwrap()),
                        self.key_of(#[trigger] next@.roots[i]),
                    ) by {
                        let r = next@.roots[i];
                        assert(next@.roots.contains(r));
                        if r != new_root {
                            let j = choose|j: int| 0 <= j < shape.roots.len() && shape.roots[j] == r;
                            assert(old(self).root_ok(shape, floating, j));
                            assert(key_le(old(self).key_of(min), old(self).key_of(shape.roots[j])));
                            if self.min.unwrap() == new_root {
                                lemma_le_trans(k, self.key_of(min), self.key_of(r));
                            }
                        }
                    }
                }
                next
            },
        }
    }

    /// Inserts the given element into the `PairingHeap` with its associated key
    /// and returns a `Handle` to it that allows to directly address it.
    ///
    /// The handle is for example required in order to use methods like `decrease_key`.
    #[inline]
    pub fn push(&mut self, elem: T, key: K) -> (h: Handle)
        requires
            old(self).wf(),
        ensures
            final(self).wf(),
            !old(self)@.contains_key(h),
            !h.is_undef_spec(),
            final(self)@ == old(self)@.insert(h, (elem, key)),
            final(self).min_handle() == (if old(self)@.len() == 0 || key_lt(
                key,
                old(self)@[old(self).min_handle()].1,
            ) {
                h
            } else {
                old(self).min_handle()
            }),
            final(self).parent_of(h) is None,
            final(self).storage_order() == old(self).storage_order().push(h),
            forall|g: Handle|
                old(self)@.contains_key(g) ==> #[trigger] final(self).parent_of(g) == old(
                    self,
                ).parent_of(g),
    {
        let ghost shape = self.some_shape();
        proof {
            self.lemma_empty();
        }
        let handle = self.make_entry(key, elem, Ghost(shape));
        let ghost alone = Set::<Handle>::empty().insert(handle);
        let ghost mid = *self;
        proof {
            assert(self@[handle].1 == key);
            if old(self)@.len() > 0 {
                assert(self@[self.min.unwrap()].1 == old(self)@[self.min.unwrap()].1);
            }
        }
        let next = self.insert_root(handle, Ghost(newborn(shape, handle)), Ghost(alone));
        proof {
            assert(alone.remove(handle) =~= Set::empty());
            self.lemma_relinked_view(mid);
            assert(self.shaped(next@));
            assert forall|g: Handle| old(self)@.contains_key(g) implies #[trigger] self.parent_of(g)
                == old(self).parent_of(g) by {
                assert(old(self).data@.contains_key(g));
                assert(mid@.contains_key(g));
                assert(mid.data@.contains_key(g) && g != handle);
                assert(mid.data@[g] == old(self).data@[g]);
                assert(self.parent_of(g) == mid.parent_of(g));
            }
        }
        handle
    }

    /// Detaches the given child from its siblings: its two neighbours
    /// become neighbours of each other.
    #[inline]
    fn detach_siblings(&mut self, child: Handle)
        requires
            old(self).data.wf(),
            old(self).data@.contains_key(child),
            old(self).data@.contains_key(old(self).right_of(child)),
            old(self).data@.contains_key(old(self).left_of(child)),
        ensures
            final(self).relinked(*old(self)),
            final(self).min == old(self).min,
            final(self).data.order() == old(self).data.order(),
            final(self).unlinks(*old(self), child),
            forall|h: Handle|
                old(self).data@.contains_key(h) ==> #[trigger] final(self).child_of(h) == old(
                    self,
                ).child_of(h),
    {
        let right = self.node(child).right;
        let left = self.node(child).left;
        self.node_mut(right).left = left;
        self.node_mut(left).right = right;
    }

    /// The neighbours of `x` in `before` are neighbours of each other now,
    /// and no other link between siblings or to a parent has changed.
    spec fn unlinks(&self, before: Self, x: Handle) -> bool {
        &&& self.right_of(before.left_of(x)) == before.right_of(x)
        &&& self.left_of(before.right_of(x)) == before.left_of(x)
        &&& forall|h: Handle|
            before.data@.contains_key(h) && h != before.left_of(x) ==> #[trigger] self.right_of(h)
                == before.right_of(h)
        &&& forall|h: Handle|
            before.data@.contains_key(h) && h != before.right_of(x) ==> #[trigger] self.left_of(h)
                == before.left_of(h)
        &&& forall|h: Handle|
            before.data@.contains_key(h) ==> #[trigger] self.parent_of(h) == before.parent_of(h)
    }

    /// Taking a node out of its ring keeps the shape. Before, `x` stands in
    /// a ring; now its neighbours are joined, its parent, if it has one,
    /// enters the ring at another child or has none left, and `x` is cut
    /// loose.
    proof fn lemma_unlinked(&self, before: Self, shape: Shape, floating: Set<Handle>, x: Handle) -> (next:
        Shape)
        requires
            before.inv(shape, floating),
            before.data@.contains_key(x),
            !floating.contains(x),
            self.relinked(before),
            self.unlinks(before, x),
            forall|h: Handle|
                before.data@.contains_key(h) && before.parent_of(x) != Some(h)
                    ==> #[trigger] self.child_of(h) == before.child_of(h),
            before.parent_of(x) is Some ==> self.child_of(before.parent_of(x).unwrap()) == (
            if before.right_of(x) == x {
                None
            } else if before.child_of(before.parent_of(x).unwrap()) == Some(x) {
                Some(before.right_of(x))
            } else {
                before.child_of(before.parent_of(x).unwrap())
            }),
        ensures
            self.inv(next, floating.insert(x)),
            next.level == shape.level,
            next.low == shape.low,
            before.parent_of(x) is Some ==> next.roots == shape.roots && (next.kids)(
                before.parent_of(x).unwrap(),
            ).len() + 1 == (shape.kids)(before.parent_of(x).unwrap()).len(),
            before.parent_of(x) is None ==> next.kids == shape.kids && next.roots.len() + 1
                == shape.roots.len(),
            forall|h: Handle|
                before.parent_of(x) is None ==> (next.roots.contains(h) <==> shape.roots.contains(h)
                    && h != x),
            before.parent_of(x) is None && before.right_of(x) != x ==> next.roots.contains(
                before.right_of(x),
            ),
            before.right_of(x) == x <==> (match before.parent_of(x) {
                None => shape.roots.len() == 1,
                Some(p) => (shape.kids)(p).len() == 1,
            }),
            match before.parent_of(x) {
                None => ring_lost(next.roots, shape.roots, x),
                Some(p) => ring_lost(kids_of(next, p), kids_of(shape, p), x) && other_kids_same(
                    next,
                    shape,
                    p,
                ),
            },
    {
        let more = floating.insert(x);
        let par = before.parent_of(x);
        assert(before.placed(shape, x));
        let s = match par {
            None => shape.roots,
            Some(p) => (shape.kids)(p),
        };
        if par is Some {
            assert(before.family_ok(shape, par.unwrap()));
        }
        assert(before.ring(s));
        let j = choose|j: int| 0 <= j < s.len() && s[j] == x;
        let n = s.len() as int;
        assert(linked(before.rights(), before.lefts(), s, j));
        assert forall|i: int| 0 <= i < s.len() implies before.data@.contains_key(#[trigger] s[i])
            && !floating.contains(s[i]) && before.parent_of(s[i]) == par by {
            match par {
                None => {
                    assert(before.root_ok(shape, floating, i));
                },
                Some(p) => {
                    assert(before.kid_ok(shape, floating, p, i));
                },
            }
        }
        let t = s.remove(j);
        if n >= 2 {
            lemma_ring_remove(before.rights(), before.lefts(), self.rights(), self.lefts(), s, j);
        } else {
            assert(t.len() == 0);
        }
        assert forall|i: int| 0 <= i < t.len() implies t[i] == s[if i < j {
            i
        } else {
            i + 1
        }] by {}
        let next = match par {
            None => Shape { level: shape.level, roots: t, kids: shape.kids, low: shape.low },
            Some(p) => Shape {
                level: shape.level,
                roots: shape.roots,
                low: shape.low,
                kids: |q: Handle|
                    if q == p {
                        t
                    } else {
                        (shape.kids)(q)
                    },
            },
        };
        if par is Some {
            assert forall|i: int| 0 <= i < shape.roots.len() implies self.right_of(
                #[trigger] shape.roots[i],
            ) == before.right_of(shape.roots[i]) && self.left_of(shape.roots[i]) == before.left_of(
                shape.roots[i],
            ) by {
                assert(before.root_ok(shape, floating, i));
                assert(before.data@.contains_key(s[prev_place(n, j)]));
                assert(before.data@.contains_key(s[next_place(n, j)]));
            }
            lemma_ring_kept(
                before.rights(),
                before.lefts(),
                self.rights(),
                self.lefts(),
                shape.roots,
            );
        }
        assert forall|i: int| 0 <= i < next.roots.len() implies #[trigger] self.root_ok(
            next,
            more,
            i,
        ) by {
            if par is None {
                assert(before.root_ok(shape, floating, if i < j {
                    i
                } else {
                    i + 1
                }));
            } else {
                assert(before.root_ok(shape, floating, i));
            }
        }
        assert forall|q: Handle| self.data@.contains_key(q) implies #[trigger] self.family_ok(
            next,
            q,
        ) by {
            assert(before.family_ok(shape, q));
            if par == Some(q) {
                if n >= 2 {
                    assert(s[next_place(n, j)] != x);
                    assert(s.contains(s[next_place(n, j)]));
                }
            } else {
                let u = (shape.kids)(q);
                assert((next.kids)(q) == u);
                assert forall|i: int| 0 <= i < u.len() implies self.right_of(#[trigger] u[i])
                    == before.right_of(u[i]) && self.left_of(u[i]) == before.left_of(u[i]) by {
                    assert(before.kid_ok(shape, floating, q, i));
                    assert(before.data@.contains_key(s[prev_place(n, j)]));
                    assert(before.data@.contains_key(s[next_place(n, j)]));
                }
                lemma_ring_kept(before.rights(), before.lefts(), self.rights(), self.lefts(), u);
            }
        }
        assert forall|q: Handle, i: int|
            self.data@.contains_key(q) && 0 <= i < (next.kids)(q).len() implies #[trigger] self.kid_ok(
            next,
            more,
            q,
            i,
        ) by {
            if par == Some(q) {
                assert(before.kid_ok(shape, floating, q, if i < j {
                    i
                } else {
                    i + 1
                }));
            } else {
                assert(before.kid_ok(shape, floating, q, i));
            }
        }
        assert forall|h: Handle|
            self.data@.contains_key(h) && !more.contains(h) implies #[trigger] self.placed(
            next,
            h,
        ) by {
            assert(before.placed(shape, h));
            if before.parent_of(h) == par {
                if n < 2 {
                    assert(s.contains(h));
                    let i = choose|i: int| 0 <= i < s.len() && s[i] == h;
                }
            }
        }
        assert forall|h: Handle| par is None implies (next.roots.contains(h) <==> shape.roots.contains(
            h,
        ) && h != x) by {
            if n < 2 {
                if shape.roots.contains(h) {
                    let i = choose|i: int| 0 <= i < s.len() && s[i] == h;
                }
            }
        }
        if par is None && before.right_of(x) != x {
            assert(s.contains(s[next_place(n, j)]));
        }
        next
    }

    /// Takes the given `child` out of the ring of its siblings. Its parent
    /// enters the ring at another child from now on, or has no child left.
    /// Afterwards `child` is cut loose and waits to be inserted as a root.
    #[inline]
    fn detach(&mut self, child: Handle, Ghost(shape): Ghost<Shape>) -> (next: Ghost<Shape>)
        requires
            old(self).inv(shape, Set::empty()),
            old(self).anchored(shape),
            old(self).data@.contains_key(child),
            old(self).parent_of(child) is Some,
        ensures
            final(self).inv(next@, Set::empty().insert(child)),
            final(self).anchored(next@),
            final(self).relinked(*old(self)),
            final(self).min == old(self).min,
            final(self).data.order() == old(self).data.order(),
            next@.roots == shape.roots,
            next@.level == shape.level,
            next@.low == shape.low,
            ring_lost(
                kids_of(next@, old(self).parent_of(child).unwrap()),
                kids_of(shape, old(self).parent_of(child).unwrap()),
                child,
            ),
            other_kids_same(next@, shape, old(self).parent_of(child).unwrap()),
            forall|h: Handle|
                old(self).data@.contains_key(h) ==> #[trigger] final(self).parent_of(h) == old(
                    self,
                ).parent_of(h),
    {
        let parent = match self.node(child).parent {
            Some(parent) => parent,
            None => vstd::pervasive::unreached(),
        };
        let right = self.node(child).right;
        proof {
            assert(self.placed(shape, child));
            assert(self.family_ok(shape, parent));
            let s = (shape.kids)(parent);
            let j = choose|j: int| 0 <= j < s.len() && s[j] == child;
            assert(linked(self.rights(), self.lefts(), s, j));
            assert(self.kid_ok(shape, Set::empty(), parent, next_place(s.len() as int, j)));
            assert(self.kid_ok(shape, Set::empty(), parent, prev_place(s.len() as int, j)));
        }
        self.detach_siblings(child);
        let ghost mid = *self;
        proof {
            assert(mid.child_of(parent) == old(self).child_of(parent));
        }
        if right == child {
            self.node_mut(parent).child = None;
        } else {
            let first = match self.node(parent).child {
                Some(first) => first,
                None => vstd::pervasive::unreached(),
            };
            if first == child {
                self.node_mut(parent).child = Some(right);
            }
        }
        proof {
            assert forall|h: Handle| old(self).data@.contains_key(h) implies #[trigger] self.right_of(
                h,
            ) == mid.right_of(h) by {}
            assert forall|h: Handle| old(self).data@.contains_key(h) implies #[trigger] self.left_of(
                h,
            ) == mid.left_of(h) by {}
            assert forall|h: Handle| old(self).data@.contains_key(h) implies #[trigger] self.parent_of(
                h,
            ) == mid.parent_of(h) by {}
            assert forall|h: Handle|
                old(self).data@.contains_key(h) && h != parent implies #[trigger] self.child_of(h)
                == old(self).child_of(h) by {
                assert(mid.child_of(h) == old(self).child_of(h));
            }
        }
        let ghost next = self.lemma_unlinked(*old(self), shape, Set::empty(), child);
        proof {
            if self.min is Some {
                old(self).lemma_min_is_root(shape, Set::empty(), Set::full());
                assert forall|i: int| 0 <= i < next.roots.len() implies key_le(
                    self.key_of(self.min.unwrap()),
                    self.key_of(#[trigger] next.roots[i]),
                ) by {
                    assert(old(self).root_ok(shape, Set::empty(), i));
                }
            }
        }
        Ghost(next)
    }

    /// Cuts the given `child` from its parent and inserts it as a root into
    /// the `PairingHeap`. The key of `child` may be smaller than the key of
    /// its parent; no other node is out of order.
    #[inline]
    fn cut(&mut self, child: Handle, Ghost(shape): Ghost<Shape>) -> (next: Ghost<Shape>)
        requires
            old(self).inv(shape, Set::empty()),
            old(self).anchored(shape),
            shape.low is None || shape.low == Some(child),
            old(self).data@.contains_key(child),
            old(self).parent_of(child) is Some,
        ensures
            final(self).shaped(next@),
            final(self).relinked(*old(self)),
            final(self).data.order() == old(self).data.order(),
            next@.level == shape.level,
            final(self).parent_of(child) is None,
            forall|h: Handle|
                old(self).data@.contains_key(h) && h != child ==> #[trigger] final(self).parent_of(h)
                    == old(self).parent_of(h),
            ring_gained(next@.roots, shape.roots, child),
            ring_lost(
                kids_of(next@, old(self).parent_of(child).unwrap()),
                kids_of(shape, old(self).parent_of(child).unwrap()),
                child,
            ),
            other_kids_same(next@, shape, old(self).parent_of(child).unwrap()),
            final(self).min == Some(
                match old(self).min {
                    None => child,
                    Some(m) => if key_lt(old(self).key_of(child), old(self).key_of(m)) {
                        child
                    } else {
                        m
                    },
                },
            ),
    {
        let ghost parent = self.parent_of(child).unwrap();
        let detached = self.detach(child, Ghost(shape));
        let ghost mid = *self;
        let ghost alone = Set::<Handle>::empty().insert(child);
        let ghost loose = with_low(detached@, None);
        proof {
            self.lemma_low_cleared(detached@, alone);
            self.lemma_relinked_key(*old(self), child);
            if self.min is Some {
                old(self).lemma_min_is_root(shape, Set::empty(), Set::full());
                self.lemma_relinked_key(*old(self), self.min.unwrap());
            }
        }
        let next = self.insert_root(child, Ghost(loose), Ghost(alone));
        proof {
            assert(alone.remove(child) =~= Set::empty());
            self.lemma_relinked_trans(mid, *old(self));
            assert forall|h: Handle|
                old(self).data@.contains_key(h) && h != child implies #[trigger] self.parent_of(h)
                == old(self).parent_of(h) by {
                assert(mid.parent_of(h) == old(self).parent_of(h));
            }
            assert forall|q: Handle| q != parent implies #[trigger] kids_of(next@, q) == kids_of(
                shape,
                q,
            ) by {
                assert(kids_of(detached@, q) == kids_of(shape, q));
            }
        }
        next
    }

    /// Lowering the key of a node keeps the shape, but that the node may now
    /// have a smaller key than its parent.
    proof fn lemma_lowered(&self, before: Self, shape: Shape, floating: Set<Handle>, handle: Handle)
        requires
            before.inv(shape, floating),
            shape.low is None,
            before.data@.contains_key(handle),
            self.data.wf(),
            forall|g: Handle| self.data@.contains_key(g) <==> before.data@.contains_key(g),
            forall|g: Handle|
                before.data@.contains_key(g) && g != handle ==> self.data@[g] == before.data@[g],
            self.data@[handle].node.parent == before.data@[handle].node.parent,
            self.data@[handle].node.child == before.data@[handle].node.child,
            self.data@[handle].node.left == before.data@[handle].node.left,
            self.data@[handle].node.right == before.data@[handle].node.right,
            key_lt(self.key_of(handle), before.key_of(handle)),
        ensures
            self.inv(with_low(shape, Some(handle)), floating),
    {
        let next = with_low(shape, Some(handle));
        assert forall|i: int| 0 <= i < shape.roots.len() implies self.right_of(
            #[trigger] shape.roots[i],
        ) == before.right_of(shape.roots[i]) && self.left_of(shape.roots[i]) == before.left_of(
            shape.roots[i],
        ) by {
            assert(before.root_ok(shape, floating, i));
        }
        lemma_ring_kept(before.rights(), before.lefts(), self.rights(), self.lefts(), shape.roots);
        assert forall|i: int| 0 <= i < next.roots.len() implies #[trigger] self.root_ok(
            next,
            floating,
            i,
        ) by {
            assert(before.root_ok(shape, floating, i));
        }
        assert forall|p: Handle| self.data@.contains_key(p) implies #[trigger] self.family_ok(
            next,
            p,
        ) by {
            assert(before.family_ok(shape, p));
            let u = (shape.kids)(p);
            assert forall|i: int| 0 <= i < u.len() implies self.right_of(#[trigger] u[i])
                == before.right_of(u[i]) && self.left_of(u[i]) == before.left_of(u[i]) by {
                assert(before.kid_ok(shape, floating, p, i));
            }
            lemma_ring_kept(before.rights(), before.lefts(), self.rights(), self.lefts(), u);
        }
        assert forall|p: Handle, i: int|
            self.data@.contains_key(p) && 0 <= i < (next.kids)(p).len() implies #[trigger] self.kid_ok(
            next,
            floating,
            p,
            i,
        ) by {
            assert(before.kid_ok(shape, floating, p, i));
            let c = (shape.kids)(p)[i];
            if p == handle {
                lemma_le_trans(self.key_of(handle), before.key_of(handle), self.key_of(c));
            }
        }
        assert forall|h: Handle|
            self.data@.contains_key(h) && !floating.contains(h) implies #[trigger] self.placed(
            next,
            h,
        ) by {
            assert(before.placed(shape, h));
        }
    }

    /// A node that is a root or cut loose has no parent to be compared
    /// with: where only its key may be out of order, no key is.
    proof fn lemma_low_cleared(&self, shape: Shape, floating: Set<Handle>)
        requires
            self.inv(shape, floating),
            shape.low matches Some(x) ==> floating.contains(x) || (self.data@.contains_key(x)
                && self.parent_of(x) is None),
        ensures
            self.inv(with_low(shape, None), floating),
    {
        let next = with_low(shape, None);
        assert forall|i: int| 0 <= i < next.roots.len() implies #[trigger] self.root_ok(
            next,
            floating,
            i,
        ) by {
            assert(self.root_ok(shape, floating, i));
        }
        assert forall|p: Handle| self.data@.contains_key(p) implies #[trigger] self.family_ok(
            next,
            p,
        ) by {
            assert(self.family_ok(shape, p));
        }
        assert forall|p: Handle, i: int|
            self.data@.contains_key(p) && 0 <= i < (next.kids)(p).len() implies #[trigger] self.kid_ok(
            next,
            floating,
            p,
            i,
        ) by {
            assert(self.kid_ok(shape, floating, p, i));
        }
        assert forall|h: Handle|
            self.data@.contains_key(h) && !floating.contains(h) implies #[trigger] self.placed(
            next,
            h,
        ) by {
            assert(self.placed(shape, h));
        }
    }

    /// Decreases the key of the element with the associated given `handle`.
    /// Fails, and changes nothing, if the given new key is not lower than the previous key.
    pub fn decrease_key(&mut self, handle: Handle, new_key: K) -> (r: Result<()>)
        requires
            old(self).wf(),
            old(self)@.contains_key(handle),
        ensures
            final(self).wf(),
            key_lt(new_key, old(self)@[handle].1) ==> r is Ok && final(self)@ == old(self)@.insert(
                handle,
                (old(self)@[handle].0, new_key),
            ) && final(self).min_handle() == (if key_lt(
                new_key,
                old(self)@[old(self).min_handle()].1,
            ) {
                handle
            } else {
                old(self).min_handle()
            }),
            key_lt(new_key, old(self)@[handle].1) ==> final(self).parent_of(handle) is None
                && final(self).storage_order() == old(self).storage_order(),
            key_lt(new_key, old(self)@[handle].1) ==> forall|g: Handle|
                old(self)@.contains_key(g) && g != handle ==> #[trigger] final(self).parent_of(g)
                    == old(self).parent_of(g),
            !key_lt(new_key, old(self)@[handle].1) ==> r == Err::<(), Error>(
                Error::DecreaseKeyOutOfOrder,
            ) && *final(self) == *old(self),
    {
        let ghost shape = self.some_shape();
        let ghost old_key = self.key_of(handle);
        proof {
            self.lemma_empty();
            self.lemma_min_is_root(shape, Set::empty(), Set::full());
            lemma_comparable(new_key, old_key);
        }
        if new_key >= self.node(handle).key {
            return Err(Error::DecreaseKeyOutOfOrder);
        }
        let ghost min0 = self.min.unwrap();
        let ghost k0 = self.key_of(min0);
        self.node_mut(handle).key = new_key;
        let ghost mid = *self;
        let ghost low = with_low(shape, Some(handle));
        proof {
            self.lemma_lowered(*old(self), shape, Set::empty(), handle);
        }
        match self.node(handle).is_root() {
            true => {
                let ghost plain = with_low(low, None);
                proof {
                    self.lemma_low_cleared(low, Set::empty());
                }
                self.update_min(handle);
                proof {
                    self.lemma_same_shape(mid, plain, Set::empty());
                    assert(old(self).placed(shape, handle));
                    lemma_le_refl(new_key);
                    lemma_lt_or_ge(new_key, k0);
                    lemma_lt_or_ge(new_key, new_key);
                    assert forall|i: int| 0 <= i < plain.roots.len() implies key_le(
                        self.key_of(self.min.unwrap()),
                        self.key_of(#[trigger] plain.roots[i]),
                    ) by {
                        let r = shape.roots[i];
                        assert(old(self).root_ok(shape, Set::empty(), i));
                        assert(key_le(k0, old(self).key_of(shape.roots[i])));
                        if r != handle {
                            assert(self.key_of(r) == old(self).key_of(r));
                            if min0 == handle || self.min.unwrap() == handle {
                                lemma_le_trans(new_key, k0, self.key_of(r));
                            }
                        }
                    }
                    assert(self.shaped(plain));
                    assert forall|g: Handle| old(self)@.contains_key(g) implies #[trigger] self.parent_of(
                        g,
                    ) == old(self).parent_of(g) by {}
                }
            },
            false => {
                proof {
                    // the roots have the keys they had
                    old(self).lemma_min_is_root(shape, Set::empty(), Set::full());
                    assert forall|i: int| 0 <= i < low.roots.len() implies key_le(
                        self.key_of(self.min.unwrap()),
                        self.key_of(#[trigger] low.roots[i]),
                    ) by {
                        assert(old(self).root_ok(shape, Set::empty(), i));
                        assert(key_le(k0, old(self).key_of(shape.roots[i])));
                    }
                }
                let _ = self.cut(handle, Ghost(low));
                proof {
                    assert forall|g: Handle|
                        old(self)@.contains_key(g) && g != handle implies #[trigger] self.parent_of(
                        g,
                    ) == old(self).parent_of(g) by {
                        assert(mid.parent_of(g) == old(self).parent_of(g));
                    }
                }
            },
        }
        proof {
            assert(self@ =~= old(self)@.insert(handle, (old(self)@[handle].0, new_key)));
        }
        Ok(())
    }

    /// Raising the levels of all nodes but one root keeps the shape.
    proof fn lemma_releveled(&self, shape: Shape, floating: Set<Handle>, upper: Handle)
        requires
            self.inv(shape, floating),
            self.data@.contains_key(upper),
            self.parent_of(upper) is None,
            !floating.contains(upper),
        ensures
            self.inv(releveled(shape, upper), floating),
    {
        let next = releveled(shape, upper);
        assert forall|i: int| 0 <= i < next.roots.len() implies #[trigger] self.root_ok(
            next,
            floating,
            i,
        ) by {
            assert(self.root_ok(shape, floating, i));
        }
        assert forall|p: Handle| self.data@.contains_key(p) implies #[trigger] self.family_ok(
            next,
            p,
        ) by {
            assert(self.family_ok(shape, p));
        }
        assert forall|p: Handle, i: int|
            self.data@.contains_key(p) && 0 <= i < (next.kids)(p).len() implies #[trigger] self.kid_ok(
            next,
            floating,
            p,
            i,
        ) by {
            assert(self.kid_ok(shape, floating, p, i));
        }
        assert forall|h: Handle|
            self.data@.contains_key(h) && !floating.contains(h) implies #[trigger] self.placed(
            next,
            h,
        ) by {
            assert(self.placed(shape, h));
        }
    }

    /// Giving a node without children a first child keeps the shape.
    /// Before, `x` is cut loose and `p` has no child; now `x` is the only
    /// child of `p`.
    proof fn lemma_first_child(
        &self,
        before: Self,
        shape: Shape,
        floating: Set<Handle>,
        p: Handle,
        x: Handle,
    ) -> (next: Shape)
        requires
            before.inv(shape, floating),
            floating.contains(x),
            before.data@.contains_key(p),
            !floating.contains(p),
            before.child_of(p) is None,
            key_le(before.key_of(p), before.key_of(x)),
            (shape.level)(p) < (shape.level)(x),
            self.relinked(before),
            self.child_of(p) == Some(x),
            self.parent_of(x) == Some(p),
            self.right_of(x) == x,
            self.left_of(x) == x,
            forall|h: Handle|
                before.data@.contains_key(h) && h != x ==> #[trigger] self.right_of(h)
                    == before.right_of(h),
            forall|h: Handle|
                before.data@.contains_key(h) && h != x ==> #[trigger] self.left_of(h)
                    == before.left_of(h),
            forall|h: Handle|
                before.data@.contains_key(h) && h != x ==> #[trigger] self.parent_of(h)
                    == before.parent_of(h),
            forall|h: Handle|
                before.data@.contains_key(h) && h != p ==> #[trigger] self.child_of(h)
                    == before.child_of(h),
        ensures
            self.inv(next, floating.remove(x)),
            next.level == shape.level,
            next.low == shape.low,
            next.roots == shape.roots,
            ring_gained(kids_of(next, p), kids_of(shape, p), x),
            other_kids_same(next, shape, p),
    {
        self.lemma_relinked_key(before, p);
        self.lemma_relinked_key(before, x);
        let rest = floating.remove(x);
        let t = Seq::<Handle>::empty().push(x);
        let next = Shape {
            level: shape.level,
            roots: shape.roots,
            low: shape.low,
            kids: |q: Handle|
                if q == p {
                    t
                } else {
                    (shape.kids)(q)
                },
        };
        assert(before.family_ok(shape, p));
        assert forall|i: int| 0 <= i < shape.roots.len() implies self.right_of(
            #[trigger] shape.roots[i],
        ) == before.right_of(shape.roots[i]) && self.left_of(shape.roots[i]) == before.left_of(
            shape.roots[i],
        ) by {
            assert(before.root_ok(shape, floating, i));
        }
        lemma_ring_kept(before.rights(), before.lefts(), self.rights(), self.lefts(), shape.roots);
        assert forall|i: int| 0 <= i < next.roots.len() implies #[trigger] self.root_ok(
            next,
            rest,
            i,
        ) by {
            assert(before.root_ok(shape, floating, i));
        }
        assert forall|q: Handle| self.data@.contains_key(q) implies #[trigger] self.family_ok(
            next,
            q,
        ) by {
            assert(before.family_ok(shape, q));
            if q == p {
                assert(t[0] == x);
                assert(linked(self.rights(), self.lefts(), t, 0));
            } else {
                let u = (shape.kids)(q);
                assert forall|i: int| 0 <= i < u.len() implies self.right_of(#[trigger] u[i])
                    == before.right_of(u[i]) && self.left_of(u[i]) == before.left_of(u[i]) by {
                    assert(before.kid_ok(shape, floating, q, i));
                }
                lemma_ring_kept(before.rights(), before.lefts(), self.rights(), self.lefts(), u);
            }
        }
        assert forall|q: Handle, i: int|
            self.data@.contains_key(q) && 0 <= i < (next.kids)(q).len() implies #[trigger] self.kid_ok(
            next,
            rest,
            q,
            i,
        ) by {
            if q != p {
                assert(before.kid_ok(shape, floating, q, i));
                let c = (shape.kids)(q)[i];
                self.lemma_relinked_key(before, q);
                self.lemma_relinked_key(before, c);
                assert(self.parent_of(c) == before.parent_of(c));
            } else {
                assert(t[0] == x);
            }
        }
        assert forall|h: Handle|
            self.data@.contains_key(h) && !rest.contains(h) implies #[trigger] self.placed(
            next,
            h,
        ) by {
            if h != x {
                assert(before.placed(shape, h));
                assert(self.parent_of(h) == before.parent_of(h));
            } else {
                assert(t[0] == x);
            }
        }
        assert(kids_of(shape, p).len() == 0);
        assert forall|h: Handle| t.contains(h) <==> h == x by {
            assert(t[0] == x);
            if t.contains(h) {
                let i = choose|i: int| 0 <= i < t.len() && t[i] == h;
                assert(i == 0);
            }
        }
        assert forall|h: Handle| !kids_of(shape, p).contains(h) by {
            if kids_of(shape, p).contains(h) {
                let i = choose|i: int| 0 <= i < kids_of(shape, p).len() && kids_of(shape, p)[i] == h;
            }
        }
        next
    }

    /// `lower` has left the ring of the roots and joined the children of
    /// `upper`, which is still a root; no other node has changed its parent
    /// or its children.
    spec fn linked_under(
        &self,
        before: Self,
        shape: Shape,
        next: Shape,
        upper: Handle,
        lower: Handle,
    ) -> bool {
        &&& self.parent_of(lower) == Some(upper)
        &&& self.parent_of(upper) is None
        &&& forall|h: Handle|
            before.data@.contains_key(h) && h != lower ==> #[trigger] self.parent_of(h)
                == before.parent_of(h)
        &&& ring_lost(next.roots, shape.roots, lower)
        &&& next.roots.contains(upper)
        &&& ring_gained(kids_of(next, upper), kids_of(shape, upper), lower)
        &&& other_kids_same(next, shape, upper)
    }

    /// Adds the given root as a child to the given parent node.
    #[inline]
    fn add_child(&mut self, parent: Handle, new_child: Handle, Ghost(shape): Ghost<Shape>) -> (next:
        Ghost<Shape>)
        requires
            old(self).inv(shape, Set::empty()),
            shape.roots.contains(parent),
            shape.roots.contains(new_child),
            parent != new_child,
            key_le(old(self).key_of(parent), old(self).key_of(new_child)),
            (shape.level)(parent) < (shape.level)(new_child),
        ensures
            final(self).inv(next@, Set::empty()),
            final(self).relinked(*old(self)),
            final(self).min == old(self).min,
            final(self).data.order() == old(self).data.order(),
            next@.level == shape.level,
            next@.low == shape.low,
            forall|h: Handle| next@.roots.contains(h) <==> shape.roots.contains(h) && h != new_child,
            final(self).linked_under(*old(self), shape, next@, parent, new_child),
    {
        proof {
            let i = choose|i: int| 0 <= i < shape.roots.len() && shape.roots[i] == parent;
            assert(self.root_ok(shape, Set::empty(), i));
            let j = choose|j: int| 0 <= j < shape.roots.len() && shape.roots[j] == new_child;
            assert(self.root_ok(shape, Set::empty(), j));
            assert(linked(self.rights(), self.lefts(), shape.roots, j));
            assert(self.root_ok(shape, Set::empty(), next_place(shape.roots.len() as int, j)));
            assert(self.root_ok(shape, Set::empty(), prev_place(shape.roots.len() as int, j)));
            assert(self.family_ok(shape, parent));
        }
        self.detach_siblings(new_child);
        let ghost loose = self.lemma_unlinked(*old(self), shape, Set::empty(), new_child);
        let ghost floating = Set::<Handle>::empty().insert(new_child);
        let ghost mid = *self;
        proof {
            assert(mid.family_ok(loose, parent));
        }
        match self.node(parent).child {
            None => {
                self.node_mut(parent).child = Some(new_child);
                let node = self.node_mut(new_child);
                node.left = new_child;
                node.right = new_child;
                node.parent = Some(parent);
                let ghost next = self.lemma_first_child(mid, loose, floating, parent, new_child);
                proof {
                    assert(floating.remove(new_child) =~= Set::empty());
                    assert(self.parent_of(parent) == mid.parent_of(parent));
                    assert(mid.parent_of(parent) == old(self).parent_of(parent));
                    assert forall|h: Handle|
                        old(self).data@.contains_key(h) && h != new_child
                            implies #[trigger] self.parent_of(h) == old(self).parent_of(h) by {
                        assert(mid.parent_of(h) == old(self).parent_of(h));
                    }
                    assert(kids_of(loose, parent) == kids_of(shape, parent));
                    assert forall|q: Handle| q != parent implies #[trigger] kids_of(next, q)
                        == kids_of(shape, q) by {
                        assert(kids_of(loose, q) == kids_of(shape, q));
                    }
                }
                Ghost(next)
            },
            Some(child) => {
                proof {
                    let u = (loose.kids)(parent);
                    let i = choose|i: int| 0 <= i < u.len() && u[i] == child;
                    assert(mid.kid_ok(loose, floating, parent, i));
                }
                let next = self.add_sibling(child, new_child, Ghost(loose), Ghost(floating));
                proof {
                    assert(floating.remove(new_child) =~= Set::empty());
                    assert(mid.parent_of(parent) == old(self).parent_of(parent));
                    assert(self.parent_of(parent) == mid.parent_of(parent));
                    assert forall|h: Handle|
                        old(self).data@.contains_key(h) && h != new_child
                            implies #[trigger] self.parent_of(h) == old(self).parent_of(h) by {
                        assert(mid.parent_of(h) == old(self).parent_of(h));
                    }
                    assert(kids_of(loose, parent) == kids_of(shape, parent));
                    assert forall|q: Handle| q != parent implies #[trigger] kids_of(next@, q)
                        == kids_of(shape, q) by {
                        assert(kids_of(loose, q) == kids_of(shape, q));
                    }
                }
                next
            },
        }
    }

    /// Links the given `lower` tree under the given `upper` tree thus making `lower`
    /// a children of `upper`.
    fn link(
        &mut self,
        upper: Handle,
        lower: Handle,
        Ghost(shape): Ghost<Shape>,
        Ghost(seen): Ghost<Set<Handle>>,
    ) -> (next: Ghost<Shape>)
        requires
            old(self).inv(shape, Set::empty()),
            old(self).anchored_over(shape, seen),
            shape.roots.contains(upper),
            shape.roots.contains(lower),
            upper != lower,
            key_le(old(self).key_of(upper), old(self).key_of(lower)),
        ensures
            final(self).inv(next@, Set::empty()),
            next@.low == shape.low,
            final(self).anchored_over(next@, seen.insert(upper).insert(lower)),
            final(self).relinked(*old(self)),
            final(self).data.order() == old(self).data.order(),
            forall|h: Handle| next@.roots.contains(h) <==> shape.roots.contains(h) && h != lower,
            final(self).linked_under(*old(self), shape, next@, upper, lower),
            final(self).min == Some(
                if old(self).min == Some(lower) || key_lt(
                    old(self).key_of(upper),
                    old(self).key_of(old(self).min.unwrap()),
                ) {
                    upper
                } else {
                    old(self).min.unwrap()
                },
            ),
    {
        let ghost raised = releveled(shape, upper);
        proof {
            let i = choose|i: int| 0 <= i < shape.roots.len() && shape.roots[i] == upper;
            assert(self.root_ok(shape, Set::empty(), i));
            let j = choose|j: int| 0 <= j < shape.roots.len() && shape.roots[j] == lower;
            assert(self.root_ok(shape, Set::empty(), j));
            self.lemma_releveled(shape, Set::empty(), upper);
            self.lemma_min_is_root(shape, Set::empty(), seen);
        }
        match self.min {
            Some(min) => {
                if min == lower {
                    self.min = Some(upper);
                }
            },
            None => {},
        }
        let ghost mid = *self;
        proof {
            self.lemma_same_shape(*old(self), raised, Set::empty());
        }
        let next = self.add_child(upper, lower, Ghost(raised));
        let ghost mid2 = *self;
        self.update_min(upper);
        proof {
            self.lemma_same_shape(mid2, next@, Set::empty());
            assert(self.parent_of(lower) == mid2.parent_of(lower));
            assert(self.parent_of(upper) == mid2.parent_of(upper));
            assert forall|h: Handle|
                old(self).data@.contains_key(h) && h != lower implies #[trigger] self.parent_of(h)
                == old(self).parent_of(h) by {
                assert(mid2.parent_of(h) == mid.parent_of(h));
            }
            assert(kids_of(raised, upper) == kids_of(shape, upper));
            assert forall|q: Handle| q != upper implies #[trigger] kids_of(next@, q) == kids_of(
                shape,
                q,
            ) by {
                assert(kids_of(raised, q) == kids_of(shape, q));
            }
            let m0 = old(self).min.unwrap();
            let m1 = mid.min.unwrap();
            let k = self.key_of(upper);
            self.lemma_relinked_key(*old(self), upper);
            self.lemma_relinked_key(*old(self), lower);
            self.lemma_relinked_key(*old(self), m0);
            lemma_le_refl(k);
            lemma_lt_or_ge(k, self.key_of(m1));
            assert(next@.roots.contains(m1));
            assert(next@.roots.contains(upper));
            let all = seen.insert(upper).insert(lower);
            assert forall|i: int|
                0 <= i < next@.roots.len() && all.contains(next@.roots[i]) implies key_le(
                self.key_of(self.min.unwrap()),
                self.key_of(#[trigger] next@.roots[i]),
            ) by {
                let r = next@.roots[i];
                assert(next@.roots.contains(r));
                if r != upper {
                    let j = choose|j: int| 0 <= j < shape.roots.len() && shape.roots[j] == r;
                    assert(old(self).root_ok(shape, Set::empty(), j));
                    self.lemma_relinked_key(*old(self), r);
                    assert(key_le(old(self).key_of(m0), old(self).key_of(shape.roots[j])));
                    if m0 == lower {
                        lemma_le_trans(k, self.key_of(lower), self.key_of(r));
                    } else if self.min.unwrap() != m0 {
                        lemma_le_trans(k, self.key_of(m0), self.key_of(r));
                    }
                }
            }
        }
        next
    }

    /// Of two nodes the one that `union` leaves a root: the first if its
    /// key is smaller, else the second.
    spec fn winner(&self, fst: Handle, snd: Handle) -> Handle {
        if key_lt(self.key_of(fst), self.key_of(snd)) {
            fst
        } else {
            snd
        }
    }

    /// Of two nodes the one that `union` makes a child of the other.
    spec fn loser(&self, fst: Handle, snd: Handle) -> Handle {
        if key_lt(self.key_of(fst), self.key_of(snd)) {
            snd
        } else {
            fst
        }
    }

    /// Links the element with the lower key over the element with the higher key.
    /// Thus making one the child of the other.
    fn union(
        &mut self,
        fst: Handle,
        snd: Handle,
        Ghost(shape): Ghost<Shape>,
        Ghost(seen): Ghost<Set<Handle>>,
    ) -> (next: Ghost<Shape>)
        requires
            old(self).inv(shape, Set::empty()),
            old(self).anchored_over(shape, seen),
            shape.roots.contains(fst),
            shape.roots.contains(snd),
            fst != snd,
        ensures
            final(self).inv(next@, Set::empty()),
            next@.low == shape.low,
            final(self).anchored_over(next@, seen.insert(fst).insert(snd)),
            final(self).relinked(*old(self)),
            final(self).data.order() == old(self).data.order(),
            forall|h: Handle| next@.roots.contains(h) ==> shape.roots.contains(h),
            forall|h: Handle|
                shape.roots.contains(h) && h != fst && h != snd ==> next@.roots.contains(h),
            final(self).linked_under(
                *old(self),
                shape,
                next@,
                old(self).winner(fst, snd),
                old(self).loser(fst, snd),
            ),
    {
        proof {
            let i = choose|i: int| 0 <= i < shape.roots.len() && shape.roots[i] == fst;
            assert(self.root_ok(shape, Set::empty(), i));
            let j = choose|j: int| 0 <= j < shape.roots.len() && shape.roots[j] == snd;
            assert(self.root_ok(shape, Set::empty(), j));
            lemma_comparable(self.key_of(fst), self.key_of(snd));
            lemma_lt_or_ge(self.key_of(fst), self.key_of(snd));
        }
        if self.node(fst).key < self.node(snd).key {
            self.link(fst, snd, Ghost(shape), Ghost(seen))
        } else {
            proof {
                assert(seen.insert(snd).insert(fst) =~= seen.insert(fst).insert(snd));
            }
            self.link(snd, fst, Ghost(shape), Ghost(seen))
        }
    }

    /// A walk around the ring of `sibling` that starts with `sibling`.
    fn raw_siblings(&self, sibling: Handle) -> (iter: RawHandleIter)
        ensures
            iter.sentinel == sibling,
            iter.peek == sibling,
            !iter.done,
    {
        RawHandleIter::siblings(sibling)
    }

    /// The ring of the roots as the pairwise pass walks it: from `min` to
    /// the right, once around.
    spec fn walk_of(&self, shape: Shape) -> Seq<Handle> {
        match self.min {
            Some(m) => rotated(shape.roots, place_of(shape.roots, m)),
            None => Seq::empty(),
        }
    }

    /// Pair `k` of the walk `s` has been united: of its two nodes the one
    /// that `union` prefers is still a root and has gained the other as a
    /// child.
    spec fn pair_ok(&self, before: Self, shape: Shape, next: Shape, s: Seq<Handle>, k: int) -> bool {
        let up = before.winner(s[2 * k], s[2 * k + 1]);
        let low = before.loser(s[2 * k], s[2 * k + 1]);
        &&& next.roots.contains(up)
        &&& self.parent_of(up) is None
        &&& self.parent_of(low) == Some(up)
        &&& ring_gained(kids_of(next, up), kids_of(shape, up), low)
        &&& kids_of(next, low) == kids_of(shape, low)
    }

    /// The node at place `j` of the walk `s` is a root with the children it had.
    spec fn stays(&self, shape: Shape, next: Shape, s: Seq<Handle>, j: int) -> bool {
        &&& next.roots.contains(s[j])
        &&& self.parent_of(s[j]) is None
        &&& kids_of(next, s[j]) == kids_of(shape, s[j])
    }

    /// The pairwise pass has gone over the first `upto` nodes of the walk
    /// `s`: they have been united pair by pair, which has taken one root
    /// out of the ring for each pair; a last node without a partner is a
    /// root as it was, and no other node has changed its parent or its
    /// children.
    spec fn paired(&self, before: Self, shape: Shape, next: Shape, s: Seq<Handle>, upto: int) -> bool {
        &&& next.roots.len() + upto / 2 == shape.roots.len()
        &&& forall|k: int|
            0 <= k && 2 * k + 1 < upto ==> #[trigger] self.pair_ok(before, shape, next, s, k)
        &&& forall|j: int| upto - upto % 2 <= j < s.len() ==> #[trigger] self.stays(shape, next, s, j)
        &&& forall|g: Handle|
            before.data@.contains_key(g) && !shape.roots.contains(g) ==> #[trigger] self.parent_of(g)
                == before.parent_of(g) && kids_of(next, g) == kids_of(shape, g)
    }

    /// Pairwise unifies roots in the `PairingHeap` which
    /// decreases the number of roots to half.
    fn pairwise_union(&mut self, Ghost(shape): Ghost<Shape>) -> (next: Ghost<Shape>)
        requires
            old(self).inv(shape, Set::empty()),
            shape.low is None,
            old(self).anchored_over(shape, Set::empty()),
        ensures
            final(self).shaped(next@),
            final(self).relinked(*old(self)),
            final(self).data.order() == old(self).data.order(),
            old(self).walk_of(shape).len() == shape.roots.len(),
            final(self).paired(
                *old(self),
                shape,
                next@,
                old(self).walk_of(shape),
                shape.roots.len() as int,
            ),
            next@.roots.len() == (shape.roots.len() + 1) / 2,
    {
        match self.min {
            None => {
                proof {
                    assert(self.shaped(shape));
                    assert(self.relinked(*old(self)));
                }
                Ghost(shape)
            },
            Some(min) => {
                let ghost k = place_of(shape.roots, min);
                let ghost s = rotated(shape.roots, k);
                proof {
                    lemma_ring_rotate(self.rights(), self.lefts(), shape.roots, k);
                    assert forall|i: int| 0 <= i < s.len() implies self.data@.contains_key(
                        #[trigger] s[i],
                    ) && self.parent_of(s[i]) is None by {
                        assert(s.contains(s[i]));
                        let j = choose|j: int|
                            0 <= j < shape.roots.len() && shape.roots[j] == s[i];
                        assert(self.root_ok(shape, Set::empty(), j));
                    }
                }
                let mut iter = self.raw_siblings(min);
                let mut siblings: Vec<Handle> = Vec::new();
                let ghost mut at: int = 0;
                loop
                    invariant
                        self.data.wf(),
                        iter.walks(self, s, at),
                        siblings@ == s.subrange(0, at),
                    ensures
                        siblings@ == s,
                    decreases s.len() - at,
                {
                    match iter.next(self, Ghost(s), Ghost(at)) {
                        Some(handle) => {
                            siblings.push(handle);
                            proof {
                                assert(siblings@ =~= s.subrange(0, at + 1));
                                at = at + 1;
                            }
                        },
                        None => {
                            proof {
                                assert(siblings@ =~= s);
                            }
                            break ;
                        },
                    }
                }
                let n = siblings.len();
                let mut i: usize = 0;
                let ghost mut cur = shape;
                proof {
                    assert(seen_upto(siblings@, 0) =~= Set::empty());
                    assert(self.relinked(*old(self)));
                    assert forall|j: int| 0 <= j < s.len() implies #[trigger] self.stays(
                        shape,
                        cur,
                        s,
                        j,
                    ) by {
                        assert(s.contains(s[j]));
                    }
                }
                while i < n
                    invariant
                        i <= n,
                        i % 2 == 0 || i == n,
                        n == siblings@.len(),
                        n == shape.roots.len(),
                        siblings@ == s,
                        siblings@.no_duplicates(),
                        forall|h: Handle| siblings@.contains(h) <==> shape.roots.contains(h),
                        forall|j: int|
                            0 <= j < n ==> old(self).data@.contains_key(#[trigger] siblings@[j]),
                        self.inv(cur, Set::empty()),
                        cur.low is None,
                        self.anchored_over(cur, seen_upto(siblings@, i as int)),
                        self.relinked(*old(self)),
                        self.data.order() == old(self).data.order(),
                        forall|j: int| i <= j < n ==> cur.roots.contains(#[trigger] siblings@[j]),
                        forall|h: Handle| cur.roots.contains(h) ==> siblings@.contains(h),
                        self.paired(*old(self), shape, cur, s, i as int),
                    decreases n - i,
                {
                    let left = siblings[i];
                    let ghost seen = seen_upto(siblings@, i as int);
                    let ghost mid = *self;
                    let ghost was = cur;
                    if i + 1 < n {
                        let right = siblings[i + 1];
                        proof {
                            assert(cur.roots.contains(siblings@[i as int]));
                            assert(cur.roots.contains(siblings@[i + 1]));
                            mid.lemma_relinked_key(*old(self), left);
                            mid.lemma_relinked_key(*old(self), right);
                        }
                        let next = self.union(left, right, Ghost(cur), Ghost(seen));
                        proof {
                            assert(seen.insert(left).insert(right) =~= seen_upto(siblings@, i + 2));
                            cur = next@;
                            let up = old(self).winner(left, right);
                            let low = old(self).loser(left, right);
                            assert(up == mid.winner(left, right) && low == mid.loser(left, right));
                            assert(mid.stays(shape, was, s, i as int));
                            assert(mid.stays(shape, was, s, i + 1));
                            assert(self.pair_ok(*old(self), shape, cur, s, i as int / 2));
                            assert forall|q: int|
                                0 <= q && 2 * q + 1 < i + 2 implies #[trigger] self.pair_ok(
                                *old(self),
                                shape,
                                cur,
                                s,
                                q,
                            ) by {
                                if 2 * q + 1 < i {
                                    assert(mid.pair_ok(*old(self), shape, was, s, q));
                                    let u = old(self).winner(s[2 * q], s[2 * q + 1]);
                                    let l = old(self).loser(s[2 * q], s[2 * q + 1]);
                                    assert(u != low && u != up && l != low && l != up);
                                    assert(kids_of(cur, u) == kids_of(was, u));
                                    assert(kids_of(cur, l) == kids_of(was, l));
                                    assert(self.parent_of(u) == mid.parent_of(u));
                                    assert(self.parent_of(l) == mid.parent_of(l));
                                }
                            }
                            assert forall|j: int| i + 2 <= j < s.len() implies #[trigger] self.stays(
                                shape,
                                cur,
                                s,
                                j,
                            ) by {
                                assert(mid.stays(shape, was, s, j));
                                assert(s[j] != low && s[j] != up);
                                assert(kids_of(cur, s[j]) == kids_of(was, s[j]));
                                assert(self.parent_of(s[j]) == mid.parent_of(s[j]));
                            }
                            assert forall|g: Handle|
                                old(self).data@.contains_key(g) && !shape.roots.contains(g)
                                    implies #[trigger] self.parent_of(g) == old(self).parent_of(g)
                                && kids_of(cur, g) == kids_of(shape, g) by {
                                assert(mid.parent_of(g) == old(self).parent_of(g));
                                assert(g != low && g != up);
                                assert(kids_of(cur, g) == kids_of(was, g));
                                assert(self.parent_of(g) == mid.parent_of(g));
                            }
                        }
                        i += 2;
                    } else {
                        proof {
                            assert(cur.roots.contains(siblings@[i as int]));
                            let j = choose|j: int| 0 <= j < cur.roots.len() && cur.roots[j] == left;
                            assert(self.root_ok(cur, Set::empty(), j));
                            self.lemma_min_is_root(cur, Set::empty(), seen);
                        }
                        self.update_min(left);
                        proof {
                            self.lemma_same_shape(mid, cur, Set::empty());
                            let m0 = mid.min.unwrap();
                            let k = self.key_of(left);
                            lemma_le_refl(k);
                            lemma_lt_or_ge(k, self.key_of(m0));
                            let all = seen_upto(siblings@, i + 1);
                            assert forall|j: int|
                                0 <= j < cur.roots.len() && all.contains(cur.roots[j])
                                    implies key_le(
                                self.key_of(self.min.unwrap()),
                                self.key_of(#[trigger] cur.roots[j]),
                            ) by {
                                let r = cur.roots[j];
                                if r != left {
                                    assert(seen.contains(r));
                                    assert(key_le(mid.key_of(m0), mid.key_of(cur.roots[j])));
                                    if self.min.unwrap() != m0 {
                                        lemma_le_trans(k, self.key_of(m0), self.key_of(r));
                                    }
                                }
                            }
                            assert forall|q: int|
                                0 <= q && 2 * q + 1 < i + 1 implies #[trigger] self.pair_ok(
                                *old(self),
                                shape,
                                cur,
                                s,
                                q,
                            ) by {
                                assert(mid.pair_ok(*old(self), shape, cur, s, q));
                            }
                            assert forall|j: int| i <= j < s.len() implies #[trigger] self.stays(
                                shape,
                                cur,
                                s,
                                j,
                            ) by {
                                assert(mid.stays(shape, cur, s, j));
                            }
                            assert forall|g: Handle|
                                old(self).data@.contains_key(g) && !shape.roots.contains(g)
                                    implies #[trigger] self.parent_of(g) == old(self).parent_of(g)
                                && kids_of(cur, g) == kids_of(shape, g) by {
                                assert(mid.parent_of(g) == old(self).parent_of(g));
                            }
                        }
                        i += 1;
                    }
                    proof {
                        self.lemma_relinked_trans(mid, *old(self));
                    }
                }
                proof {
                    assert forall|j: int| 0 <= j < cur.roots.len() implies seen_upto(
                        siblings@,
                        n as int,
                    ).contains(#[trigger] cur.roots[j]) by {
                        assert(cur.roots.contains(cur.roots[j]));
                        assert(siblings@.contains(cur.roots[j]));
                    }
                    assert(self.shaped(cur));
                }
                Ghost(cur)
            },
        }
    }

    /// Relinking twice is relinking.
    proof fn lemma_relinked_trans(&self, mid: Self, before: Self)
        requires
            self.relinked(mid),
            mid.relinked(before),
        ensures
            self.relinked(before),
    {
        assert forall|h: Handle| before.data@.contains_key(h) implies (#[trigger] self.data@[h]).elem
            == before.data@[h].elem && self.data@[h].node.key == before.data@[h].node.key by {
            assert(mid.data@[h].elem == before.data@[h].elem);
        }
    }

    /// The ring of the children of `parent` as a walk goes around it: from
    /// the child at which `parent` enters it to the right, once around.
    spec fn kids_walk(&self, shape: Shape, parent: Handle) -> Seq<Handle> {
        match self.child_of(parent) {
            Some(c) => rotated(kids_of(shape, parent), place_of(kids_of(shape, parent), c)),
            None => Seq::empty(),
        }
    }

    /// A walk around the ring of the children of `parent`, which is over
    /// at once where `parent` has no child.
    fn raw_children(&self, parent: Handle, Ghost(shape): Ghost<Shape>) -> (iter: RawHandleIter)
        requires
            self.inv(shape, Set::empty()),
            self.data@.contains_key(parent),
        ensures
            iter.walks(self, self.kids_walk(shape, parent), 0),
            self.kids_walk(shape, parent).len() == kids_of(shape, parent).len(),
            self.kids_walk(shape, parent).no_duplicates(),
            forall|h: Handle|
                self.kids_walk(shape, parent).contains(h) <==> kids_of(shape, parent).contains(h),
    {
        proof {
            assert(self.family_ok(shape, parent));
            let u = kids_of(shape, parent);
            let s = self.kids_walk(shape, parent);
            match self.child_of(parent) {
                Some(c) => {
                    lemma_ring_rotate(self.rights(), self.lefts(), u, place_of(u, c));
                    assert forall|i: int| 0 <= i < s.len() implies self.data@.contains_key(
                        #[trigger] s[i],
                    ) by {
                        assert(s.contains(s[i]));
                        let j = choose|j: int| 0 <= j < u.len() && u[j] == s[i];
                        assert(self.kid_ok(shape, Set::empty(), parent, j));
                    }
                },
                None => {
                    assert forall|h: Handle| !u.contains(h) by {
                        if u.contains(h) {
                            let i = choose|i: int| 0 <= i < u.len() && u[i] == h;
                        }
                    }
                    assert forall|h: Handle| !s.contains(h) by {
                        if s.contains(h) {
                            let i = choose|i: int| 0 <= i < s.len() && s[i] == h;
                        }
                    }
                },
            }
        }
        RawHandleIter::children(self, parent)
    }

    /// Release children from the given parent making them root nodes.
    fn release_children(&mut self, parent: Handle, Ghost(shape): Ghost<Shape>) -> (next: Ghost<
        Shape,
    >)
        requires
            old(self).shaped(shape),
            old(self).min == Some(parent),
        ensures
            final(self).shaped(next@),
            final(self).min == Some(parent),
            final(self).child_of(parent) is None,
            kids_of(next@, parent).len() == 0,
            final(self).relinked(*old(self)),
            final(self).data.order() == old(self).data.order(),
            forall|h: Handle|
                next@.roots.contains(h) <==> shape.roots.contains(h) || kids_of(
                    shape,
                    parent,
                ).contains(h),
            next@.roots.len() == shape.roots.len() + kids_of(shape, parent).len(),
            forall|h: Handle|
                old(self).data@.contains_key(h) && !kids_of(shape, parent).contains(h)
                    ==> #[trigger] final(self).parent_of(h) == old(self).parent_of(h),
            forall|h: Handle|
                kids_of(shape, parent).contains(h) ==> #[trigger] final(self).parent_of(h) is None,
            other_kids_same(next@, shape, parent),
    {
        let ghost s = self.kids_walk(shape, parent);
        proof {
            self.lemma_min_is_root(shape, Set::empty(), Set::full());
            assert(self.relinked(*old(self)));
        }
        let mut iter = self.raw_children(parent, Ghost(shape));
        let mut children: Vec<Handle> = Vec::new();
        let ghost mut at: int = 0;
        loop
            invariant
                self.data.wf(),
                self.shaped(shape),
                self.data@.contains_key(parent),
                iter.walks(self, s, at),
                children@ == s.subrange(0, at),
            ensures
                children@ == s,
            decreases s.len() - at,
        {
            match iter.next(self, Ghost(s), Ghost(at)) {
                Some(handle) => {
                    children.push(handle);
                    proof {
                        assert(children@ =~= s.subrange(0, at + 1));
                        at = at + 1;
                    }
                },
                None => {
                    proof {
                        assert(children@ =~= s);
                    }
                    break ;
                },
            }
        }
        let n = children.len();
        let mut i: usize = 0;
        let ghost mut cur = shape;
        proof {
            assert forall|j: int| 0 <= j < n implies kids_of(cur, parent).contains(
                #[trigger] children@[j],
            ) && self.data@.contains_key(children@[j]) && self.parent_of(children@[j]) == Some(
                parent,
            ) by {
                assert(s.contains(s[j]));
                let u = kids_of(shape, parent);
                assert(u.contains(s[j]));
                let q = choose|q: int| 0 <= q < u.len() && u[q] == s[j];
                assert(0 <= q < u.len());
                assert(self.inv(shape, Set::empty()));
                assert(self.data@.contains_key(parent));
                assert(self.kid_ok(shape, Set::empty(), parent, q));
            }
        }
        while i < n
            invariant
                i <= n,
                n == children@.len(),
                children@ == s,
                children@.no_duplicates(),
                forall|h: Handle| s.contains(h) <==> kids_of(shape, parent).contains(h),
                n == kids_of(shape, parent).len(),
                forall|j: int| 0 <= j < n ==> old(self).data@.contains_key(#[trigger] children@[j]),
                self.shaped(cur),
                self.min == Some(parent),
                self.data@.contains_key(parent),
                self.relinked(*old(self)),
                self.data.order() == old(self).data.order(),
                kids_of(cur, parent).len() == n - i,
                forall|j: int| i <= j < n ==> kids_of(cur, parent).contains(#[trigger] children@[j]),
                forall|h: Handle| kids_of(cur, parent).contains(h) ==> s.contains(h),
                cur.roots.len() == shape.roots.len() + i,
                forall|h: Handle|
                    cur.roots.contains(h) <==> shape.roots.contains(h) || exists|j: int|
                        0 <= j < i && children@[j] == h,
                forall|h: Handle|
                    old(self).data@.contains_key(h) && !s.contains(h) ==> #[trigger] self.parent_of(h)
                        == old(self).parent_of(h),
                forall|j: int| 0 <= j < i ==> self.parent_of(#[trigger] children@[j]) is None,
                forall|j: int|
                    i <= j < n ==> self.parent_of(#[trigger] children@[j]) == Some(parent),
                other_kids_same(cur, shape, parent),
            decreases n - i,
        {
            let child = children[i];
            let ghost mid = *self;
            let ghost was = cur;
            proof {
                let u = kids_of(cur, parent);
                assert(u.contains(children@[i as int]));
                let j = choose|j: int| 0 <= j < u.len() && u[j] == child;
                assert(self.kid_ok(cur, Set::empty(), parent, j));
                lemma_lt_or_ge(self.key_of(child), self.key_of(parent));
            }
            let next = self.cut(child, Ghost(cur));
            proof {
                self.lemma_relinked_trans(mid, *old(self));
                cur = next@;
                assert forall|j: int| i + 1 <= j < n implies kids_of(cur, parent).contains(
                    #[trigger] children@[j],
                ) by {
                    assert(kids_of(was, parent).contains(children@[j]));
                }
                assert forall|h: Handle|
                    cur.roots.contains(h) <==> shape.roots.contains(h) || exists|j: int|
                        0 <= j < i + 1 && children@[j] == h by {
                    if h == child {
                        assert(children@[i as int] == h);
                    }
                    if was.roots.contains(h) && !shape.roots.contains(h) {
                        let j = choose|j: int| 0 <= j < i && children@[j] == h;
                        assert(0 <= j < i + 1 && children@[j] == h);
                    }
                }
                assert forall|h: Handle|
                    old(self).data@.contains_key(h) && !s.contains(h) implies #[trigger] self.parent_of(
                    h,
                ) == old(self).parent_of(h) by {
                    assert(s.contains(s[i as int]));
                    assert(mid.parent_of(h) == old(self).parent_of(h));
                }
                assert forall|j: int| 0 <= j < i + 1 implies self.parent_of(
                    #[trigger] children@[j],
                ) is None by {
                    assert(mid.data@.contains_key(children@[j]));
                    if j < i {
                        assert(mid.parent_of(children@[j]) is None);
                    }
                }
                assert forall|j: int| i + 1 <= j < n implies self.parent_of(#[trigger] children@[j])
                    == Some(parent) by {
                    assert(mid.data@.contains_key(children@[j]));
                    assert(mid.parent_of(children@[j]) == Some(parent));
                }
                assert forall|q: Handle| q != parent implies #[trigger] kids_of(cur, q) == kids_of(
                    shape,
                    q,
                ) by {
                    assert(kids_of(was, q) == kids_of(shape, q));
                }
            }
            i += 1;
        }
        proof {
            assert(self.family_ok(cur, parent));
            if self.child_of(parent) is Some {
                let c = self.child_of(parent).unwrap();
                let j = choose|j: int|
                    0 <= j < kids_of(cur, parent).len() && kids_of(cur, parent)[j] == c;
            }
            assert forall|h: Handle|
                cur.roots.contains(h) <==> shape.roots.contains(h) || kids_of(
                    shape,
                    parent,
                ).contains(h) by {
                if s.contains(h) {
                    let j = choose|j: int| 0 <= j < s.len() && s[j] == h;
                    assert(children@[j] == h);
                }
            }
            assert forall|h: Handle| kids_of(shape, parent).contains(h) implies #[trigger] self.parent_of(
                h,
            ) is None by {
                let j = choose|j: int| 0 <= j < s.len() && s[j] == h;
                assert(children@[j] == h);
            }
        }
        Ghost(cur)
    }

    /// Removing a node that is cut loose and has no children keeps the shape.
    proof fn lemma_removed(&self, before: Self, shape: Shape, x: Handle)
        requires
            before.inv(shape, Set::empty().insert(x)),
            before.child_of(x) is None,
            self.data.wf(),
            self.data@ == before.data@.remove(x),
        ensures
            self.inv(shape, Set::empty()),
    {
        let floating = Set::<Handle>::empty().insert(x);
        let none = Set::<Handle>::empty();
        assert(floating.contains(x));
        assert(before.data@.contains_key(x));
        assert(before.family_ok(shape, x));
        assert forall|i: int| 0 <= i < shape.roots.len() implies self.right_of(
            #[trigger] shape.roots[i],
        ) == before.right_of(shape.roots[i]) && self.left_of(shape.roots[i]) == before.left_of(
            shape.roots[i],
        ) by {
            assert(before.root_ok(shape, floating, i));
        }
        lemma_ring_kept(before.rights(), before.lefts(), self.rights(), self.lefts(), shape.roots);
        assert forall|i: int| 0 <= i < shape.roots.len() implies #[trigger] self.root_ok(
            shape,
            none,
            i,
        ) by {
            assert(before.root_ok(shape, floating, i));
        }
        assert forall|q: Handle| self.data@.contains_key(q) implies #[trigger] self.family_ok(
            shape,
            q,
        ) by {
            assert(before.family_ok(shape, q));
            let u = (shape.kids)(q);
            assert forall|i: int| 0 <= i < u.len() implies self.right_of(#[trigger] u[i])
                == before.right_of(u[i]) && self.left_of(u[i]) == before.left_of(u[i]) by {
                assert(before.kid_ok(shape, floating, q, i));
            }
            lemma_ring_kept(before.rights(), before.lefts(), self.rights(), self.lefts(), u);
        }
        assert forall|q: Handle, i: int|
            self.data@.contains_key(q) && 0 <= i < (shape.kids)(q).len() implies #[trigger] self.kid_ok(
            shape,
            none,
            q,
            i,
        ) by {
            assert(before.kid_ok(shape, floating, q, i));
        }
        assert forall|h: Handle|
            self.data@.contains_key(h) && !none.contains(h) implies #[trigger] self.placed(
            shape,
            h,
        ) by {
            assert(before.placed(shape, h));
        }
    }

    /// Removes the element associated with the minimum key within this `PairingHeap` and returns it.
    #[inline]
    pub fn pop(&mut self) -> (r: Option<T>)
        requires
            old(self).wf(),
        ensures
            final(self).wf(),
            old(self)@.len() == 0 ==> r is None && *final(self) == *old(self),
            old(self)@.len() > 0 ==> r == Some(old(self)@[old(self).min_handle()].0) && final(self)@
                == old(self)@.remove(old(self).min_handle()) && is_least(
                old(self)@,
                old(self).min_handle(),
            ),
    {
        proof {
            self.lemma_empty();
        }
        match self.min {
            Some(_) => Some(self.pop_unchecked()),
            None => None,
        }
    }

    /// Removes the element associated with the minimum key within this `PairingHeap` without
    /// checking for emptiness and returns it.
    pub fn pop_unchecked(&mut self) -> (elem: T)
        requires
            old(self).wf(),
            old(self)@.len() > 0,
        ensures
            final(self).wf(),
            elem == old(self)@[old(self).min_handle()].0,
            final(self)@ == old(self)@.remove(old(self).min_handle()),
            is_least(old(self)@, old(self).min_handle()),
    {
        let ghost shape = self.some_shape();
        proof {
            self.lemma_empty();
            self.lemma_min_is_least();
        }
        let min = match self.min {
            Some(min) => min,
            None => vstd::pervasive::unreached(),
        };
        let released = self.release_children(min, Ghost(shape));
        let ghost mid = *self;
        proof {
            let j = self.lemma_min_is_root(released@, Set::empty(), Set::full());
            assert(linked(self.rights(), self.lefts(), released@.roots, j));
            assert(self.root_ok(
                released@,
                Set::empty(),
                next_place(released@.roots.len() as int, j),
            ));
            assert(self.root_ok(
                released@,
                Set::empty(),
                prev_place(released@.roots.len() as int, j),
            ));
        }
        let right = self.node(min).right;
        if right != min {
            self.min = Some(right);
            self.detach_siblings(min);
        } else {
            self.min = None;
        }
        let ghost loose = self.lemma_unlinked(mid, released@, Set::empty(), min);
        let ghost mid2 = *self;
        let cell = self.data.take(min);
        proof {
            self.lemma_removed(mid2, loose, min);
            assert(self@ =~= old(self)@.remove(min));
            if self.min is Some {
                assert(loose.roots.contains(right));
            }
        }
        let ghost mid3 = *self;
        let _ = self.pairwise_union(Ghost(loose));
        proof {
            self.lemma_relinked_view(mid3);
        }
        cell.elem
    }

    /// Writing to an element changes neither the shape nor the keys.
    proof fn lemma_elem_written(&self, before: Self, handle: Handle)
        requires
            before.wf(),
            self.data.wf(),
            self.min == before.min,
            self.data.order() == before.data.order(),
            forall|g: Handle| self.data@.contains_key(g) <==> before.data@.contains_key(g),
            forall|g: Handle|
                before.data@.contains_key(g) && g != handle ==> self.data@[g] == before.data@[g],
            before.data@.contains_key(handle) ==> self.data@[handle].node
                == before.data@[handle].node,
        ensures
            self.wf(),
            self.keeps_shape_of(before),
            before@.contains_key(handle) ==> self@ == before@.insert(
                handle,
                (self.data@[handle].elem, before@[handle].1),
            ),
            !before@.contains_key(handle) ==> self@ == before@,
    {
        let shape = before.some_shape();
        self.lemma_kept(before, shape, Set::empty());
        assert(self.shaped(shape));
        assert forall|g: Handle| before@.contains_key(g) implies #[trigger] self.parent_of(g)
            == before.parent_of(g) by {
            assert(self.data@[g].node == before.data@[g].node);
        }
        if before@.contains_key(handle) {
            assert(self@ =~= before@.insert(
                handle,
                (self.data@[handle].elem, before@[handle].1),
            ));
        } else {
            assert(self@ =~= before@);
        }
    }

    /// Returns a reference to the element associated with the given handle.
    #[inline]
    pub fn get(&self, handle: Handle) -> (r: Option<&T>)
        requires
            self.wf(),
        ensures
            r == (if self@.contains_key(handle) {
                Some(&self@[handle].0)
            } else {
                None
            }),
    {
        match self.data.get(handle) {
            Some(cell) => Some(&cell.elem),
            None => None,
        }
    }

    /// Returns a mutable reference to the element associated with the given handle.
    #[inline]
    pub fn get_mut(&mut self, handle: Handle) -> (r: Option<&mut T>)
        requires
            old(self).wf(),
        ensures
            final(self).wf(),
            final(self).keeps_shape_of(*old(self)),
            match r {
                Some(elem) => old(self)@.contains_key(handle) && *elem == old(self)@[handle].0
                    && final(self)@ == old(self)@.insert(
                    handle,
                    (*final(elem), old(self)@[handle].1),
                ),
                None => !old(self)@.contains_key(handle) && final(self)@ == old(self)@,
            },
    {
        let ghost before = *self;
        let ghost after = *final(self);
        match self.data.get_mut(handle) {
            Some(cell) => {
                let elem = &mut cell.elem;
                proof {
                    after.lemma_elem_written(before, handle);
                }
                Some(elem)
            },
            None => {
                proof {
                    after.lemma_elem_written(before, handle);
                }
                None
            },
        }
    }

    /// Returns a reference to the element associated with the given handle,
    /// which must be a handle of this heap.
    #[inline]
    pub fn get_unchecked(&self, handle: Handle) -> (r: &T)
        requires
            self.wf(),
            self@.contains_key(handle),
        ensures
            *r == self@[handle].0,
    {
        &self.data.at(handle).elem
    }

    /// Returns a mutable reference to the element associated with the given handle,
    /// which must be a handle of this heap.
    #[inline]
    pub fn get_unchecked_mut(&mut self, handle: Handle) -> (r: &mut T)
        requires
            old(self).wf(),
            old(self)@.contains_key(handle),
        ensures
            *r == old(self)@[handle].0,
            final(self).wf(),
            final(self).keeps_shape_of(*old(self)),
            final(self)@ == old(self)@.insert(handle, (*final(r), old(self)@[handle].1)),
    {
        let ghost before = *self;
        let ghost after = *final(self);
        let cell = self.data.at_mut(handle);
        let elem = &mut cell.elem;
        proof {
            after.lemma_elem_written(before, handle);
        }
        elem
    }

    /// Returns a reference to the current minimum element if not empty.
    #[inline]
    pub fn peek(&self) -> (r: Option<&T>)
        requires
            self.wf(),
        ensures
            self@.len() == 0 ==> r is None,
            self@.len() > 0 ==> r == Some(&self@[self.min_handle()].0) && is_least(
                self@,
                self.min_handle(),
            ),
    {
        proof {
            self.lemma_empty();
            if self@.len() > 0 {
                self.lemma_min_is_least();
            }
        }
        match self.min {
            Some(min) => self.get(min),
            None => None,
        }
    }

    /// Returns a reference to the current minimum element of a heap that is not empty.
    #[inline]
    pub fn peek_unchecked(&self) -> (r: &T)
        requires
            self.wf(),
            self@.len() > 0,
        ensures
            *r == self@[self.min_handle()].0,
            is_least(self@, self.min_handle()),
    {
        proof {
            self.lemma_empty();
            self.lemma_min_is_least();
        }
        match self.min {
            Some(min) => self.get_unchecked(min),
            None => vstd::pervasive::unreached(),
        }
    }

    /// Returns a mutable reference to the current minimum element if not empty.
    #[inline]
    pub fn peek_mut(&mut self) -> (r: Option<&mut T>)
        requires
            old(self).wf(),
        ensures
            final(self).wf(),
            final(self).keeps_shape_of(*old(self)),
            match r {
                Some(elem) => old(self)@.len() > 0 && *elem == old(self)@[old(self).min_handle()].0
                    && final(self)@ == old(self)@.insert(
                    old(self).min_handle(),
                    (*final(elem), old(self)@[old(self).min_handle()].1),
                ),
                None => old(self)@.len() == 0 && final(self)@ == old(self)@,
            },
    {
        proof {
            self.lemma_empty();
        }
        match self.min {
            Some(min) => self.get_mut(min),
            None => None,
        }
    }

    /// Returns a mutable reference to the current minimum element of a heap that is not empty.
    #[inline]
    pub fn peek_unchecked_mut(&mut self) -> (r: &mut T)
        requires
            old(self).wf(),
            old(self)@.len() > 0,
        ensures
            *r == old(self)@[old(self).min_handle()].0,
            final(self).wf(),
            final(self).keeps_shape_of(*old(self)),
            final(self)@ == old(self)@.insert(
                old(self).min_handle(),
                (*final(r), old(self)@[old(self).min_handle()].1),
            ),
    {
        proof {
            self.lemma_empty();
        }
        match self.min {
            Some(min) => self.get_unchecked_mut(min),
            None => vstd::pervasive::unreached(),
        }
    }

    /// The handles of the heap in the order in which `values` visits their elements.
    pub closed spec fn storage_order(&self) -> Seq<Handle> {
        self.data.order()
    }

    /// `storage_order` lists every handle of the heap, and each of them once.
    pub proof fn lemma_storage_order(&self)
        requires
            self.wf(),
        ensures
            self.storage_order().len() == self@.len(),
            self.storage_order().no_duplicates(),
            forall|h: Handle| self.storage_order().contains(h) <==> self@.contains_key(h),
    {
        self.data.lemma_order();
        assert(self@.dom() =~= self.data@.dom());
    }

    /// Iterate over the values in this `PairingHeap` by reference in unspecified order.
    #[inline]
    pub fn values<'a>(&'a self) -> (values: Values<'a, T, K>)
        requires
            self.wf(),
        ensures
            values.wf(),
            values.heap() == self,
            values.position() == 0,
    {
        Values { heap: self, at: 0 }
    }

    /// Iterate over values stored within a `PairingHeap` in a sorted-by-min order. Drains the heap.
    #[inline]
    pub fn drain_min(self) -> (drain: DrainMin<T, K>)
        requires
            self.wf(),
        ensures
            drain.remaining() == self,
    {
        DrainMin { heap: self }
    }

    /// Returns a mutable reference to the element behind a handle of this
    /// heap: what `heap[handle]` is where it is written to.
    pub fn index_mut(&mut self, handle: Handle) -> (r: &mut T)
        requires
            old(self).wf(),
            old(self)@.contains_key(handle),
        ensures
            *r == old(self)@[handle].0,
            final(self).wf(),
            final(self).keeps_shape_of(*old(self)),
            final(self)@ == old(self)@.insert(handle, (*final(r), old(self)@[handle].1)),
    {
        self.get_unchecked_mut(handle)
    }
}

impl<T, K: Key> std::ops::Index<Handle> for PairingHeap<T, K> {
    type Output = T;

    /// Returns a reference to the element behind a handle of this heap.
    fn index(&self, handle: Handle) -> (r: &T)
        ensures
            *r == self@[handle].0,
    {
        match self.data.get(handle) {
            Some(cell) => &cell.elem,
            None => vstd::pervasive::unreached(),
        }
    }
}

impl<T, K: Key> vstd::std_specs::core::IndexSpecImpl<Handle> for PairingHeap<T, K> {
    /// `heap[handle]` asks for a handle of the heap.
    open spec fn index_req(&self, handle: &Handle) -> bool {
        self.wf() && self@.contains_key(*handle)
    }
}

/// Iterator over references to values stored within a `PairingHeap`.
pub struct Values<'a, T, K: Key> {
    heap: &'a PairingHeap<T, K>,
    at: usize,
}

impl<'a, T, K: Key> Values<'a, T, K> {
    /// The heap whose values are visited.
    pub closed spec fn heap(&self) -> &'a PairingHeap<T, K> {
        self.heap
    }

    /// How many values have been visited.
    pub closed spec fn position(&self) -> nat {
        self.at as nat
    }

    /// The heap is well formed and no more values were visited than it has.
    pub closed spec fn wf(&self) -> bool {
        &&& self.heap.wf()
        &&& self.at <= self.heap@.len()
    }

    /// What `wf` says: the heap is well formed and no more values were
    /// visited than it has.
    pub proof fn lemma_wf(&self)
        requires
            self.wf(),
        ensures
            self.heap().wf(),
            self.position() <= self.heap()@.len(),
    {
    }

    /// The next value in storage order, or `None` after the last.
    pub fn next(&mut self) -> (r: Option<&'a T>)
        requires
            old(self).wf(),
        ensures
            final(self).wf(),
            final(self).heap() == old(self).heap(),
            old(self).position() < old(self).heap()@.len() ==> final(self).position() == old(
                self,
            ).position() + 1 && r == Some(
                &old(self).heap()@[old(self).heap().storage_order()[old(self).position() as int]].0,
            ),
            old(self).position() >= old(self).heap()@.len() ==> r is None && final(self).position()
                == old(self).position(),
    {
        proof {
            self.heap.lemma_storage_order();
            self.heap.lemma_empty();
            self.heap.data.lemma_order();
        }
        if self.at < self.heap.data.len() {
            let cell = self.heap.data.nth(self.at);
            self.at = self.at + 1;
            Some(&cell.elem)
        } else {
            None
        }
    }

    /// The number of values that have not been visited yet.
    pub fn count(self) -> (n: usize)
        requires
            self.wf(),
        ensures
            n == self.heap()@.len() - self.position(),
    {
        self.heap.len() - self.at
    }
}

/// Iterator over mutable references to values stored within a `PairingHeap`.
///
/// The fields are public so that contracts can say what the heap behind
/// `heap` is once the visit is over.
pub struct ValuesMut<'a, T, K: Key> {
    /// The heap whose values are visited.
    pub heap: &'a mut PairingHeap<T, K>,
    /// How many values have been visited.
    pub at: usize,
}

impl<'a, T, K: Key> ValuesMut<'a, T, K> {
    /// The next value in storage order, or `None` after the last.
    pub fn next(&mut self) -> (r: Option<&mut T>)
        requires
            old(self).heap.wf(),
        ensures
            final(self).heap.wf(),
            *final(final(self).heap) == *final(old(self).heap),
            final(self).heap.keeps_shape_of(*old(self).heap),
            match r {
                Some(elem) => {
                    let h = old(self).heap.storage_order()[old(self).at as int];
                    &&& old(self).at < old(self).heap@.len()
                    &&& final(self).at == old(self).at + 1
                    &&& *elem == old(self).heap@[h].0
                    &&& final(self).heap@ == old(self).heap@.insert(
                        h,
                        (*final(elem), old(self).heap@[h].1),
                    )
                },
                None => old(self).at >= old(self).heap@.len() && *final(self) == *old(self),
            },
    {
        proof {
            self.heap.lemma_storage_order();
            self.heap.lemma_empty();
            self.heap.data.lemma_order();
        }
        let ghost before = *self.heap;
        let ghost after = *final(self).heap;
        if self.at < self.heap.data.len() {
            let ghost h = self.heap.data.order()[self.at as int];
            let cell = self.heap.data.nth_mut(self.at);
            self.at = self.at + 1;
            let elem = &mut cell.elem;
            proof {
                after.lemma_elem_written(before, h);
            }
            Some(elem)
        } else {
            None
        }
    }
}

impl<T, K: Key> PairingHeap<T, K> {
    /// Iterate over the values in this `PairingHeap` by mutable reference unspecified order.
    #[inline]
    pub fn values_mut<'a>(&'a mut self) -> (values: ValuesMut<'a, T, K>)
        requires
            old(self).wf(),
        ensures
            *values.heap == *old(self),
            values.at == 0,
            *final(self) == *final(values.heap),
    {
        ValuesMut { heap: self, at: 0 }
    }
}

/// Iterator over values stored within a `PairingHeap` in a sorted-by-min order. Drains the heap.
pub struct DrainMin<T, K: Key> {
    heap: PairingHeap<T, K>,
}

impl<T, K: Key> DrainMin<T, K> {
    /// The heap of what has not been drained yet.
    pub closed spec fn remaining(&self) -> PairingHeap<T, K> {
        self.heap
    }

    /// Removes the element with the least key from what remains and returns
    /// it, or returns `None` when nothing remains.
    #[inline]
    pub fn next(&mut self) -> (r: Option<T>)
        requires
            old(self).remaining().wf(),
        ensures
            final(self).remaining().wf(),
            old(self).remaining()@.len() == 0 ==> r is None && final(self).remaining() == old(
                self,
            ).remaining(),
            old(self).remaining()@.len() > 0 ==> r == Some(
                old(self).remaining()@[old(self).remaining().min_handle()].0,
            ) && final(self).remaining()@ == old(self).remaining()@.remove(
                old(self).remaining().min_handle(),
            ) && is_least(old(self).remaining()@, old(self).remaining().min_handle()),
    {
        self.heap.pop()
    }

    /// Drains what remains into a vector: the elements from a least key to
    /// a greatest.
    pub fn collect(self) -> (out: Vec<T>)
        requires
            self.remaining().wf(),
        ensures
            exists|order: Seq<Handle>| drained_in_order(self.remaining()@, order, out@),
    {
        let mut heap = self.heap;
        let mut out: Vec<T> = Vec::new();
        let ghost entries = heap@;
        let ghost mut order = Seq::<Handle>::empty();
        proof {
            lemma_drain_start(entries);
            assert(out@ =~= Seq::<T>::empty());
        }
        while !heap.is_empty()
            invariant
                heap.wf(),
                drained_so_far(entries, heap@, order, out@),
            decreases heap@.len(),
        {
            let ghost m = heap.min_handle();
            let ghost left = heap@;
            proof {
                heap.lemma_min_is_least();
                heap.lemma_empty();
                lemma_drain_step(entries, left, order, out@, m);
            }
            let elem = heap.pop_unchecked();
            out.push(elem);
            proof {
                order = order.push(m);
            }
        }
        proof {
            heap.lemma_empty();
            assert forall|h: Handle| !heap@.contains_key(h) by {
                if heap@.contains_key(h) {
                    assert(heap@.dom().contains(h));
                    assert(heap@.dom().len() > 0);
                }
            }
            lemma_drain_end(entries, heap@, order, out@);
        }
        out
    }
}

impl<T, K: Key> PairingHeap<T, K> {
    /// A handle stays valid until its element is popped. `push`,
    /// `decrease_key` and a write through `get_mut` insert an entry into the
    /// heap, `pop` removes the entry behind `min_handle`. Every handle other
    /// than the one they speak of names the same element with the same key
    /// afterwards.
    pub proof fn law_handle_stays_valid(before: Self, after: Self, h: Handle, changed: Handle)
        requires
            before@.contains_key(h),
            changed != h,
            (exists|entry: (T, K)| after@ == before@.insert(changed, entry)) || after@ == before@.remove(
                changed,
            ),
        ensures
            after@.contains_key(h),
            after@[h] == before@[h],
    {
    }

    /// `push` on an empty heap followed by `pop` returns the pushed element:
    /// where `pushed` is the heap after the push and `popped` what the pop
    /// returns, `popped` is the element.
    pub proof fn law_push_then_pop(
        empty: Self,
        pushed: Self,
        h: Handle,
        elem: T,
        key: K,
        popped: Option<T>,
    )
        requires
            empty.wf(),
            empty@.len() == 0,
            pushed.wf(),
            pushed@ == empty@.insert(h, (elem, key)),
            pushed@.len() == 0 ==> popped is None,
            pushed@.len() > 0 ==> popped == Some(pushed@[pushed.min_handle()].0),
        ensures
            popped == Some(elem),
    {
        empty.lemma_empty();
        pushed.lemma_empty();
        assert(pushed@.contains_key(h));
        assert(pushed@.dom().len() > 0) by {
            if pushed@.dom().len() == 0 {
                assert(pushed@.dom() =~= Set::empty());
            }
        }
        pushed.lemma_min_is_least();
        let m = pushed.min_handle();
        if m != h {
            assert(empty@.contains_key(m));
            assert(empty@.dom().contains(m));
        }
    }

    /// After `decrease_key(h, new_key)` has succeeded, `peek` shows an
    /// element whose key is at most `new_key`.
    pub proof fn law_decrease_then_peek(before: Self, after: Self, h: Handle, new_key: K)
        requires
            before.wf(),
            before@.contains_key(h),
            after.wf(),
            after@ == before@.insert(h, (before@[h].0, new_key)),
        ensures
            after@.len() > 0,
            is_least(after@, after.min_handle()),
            key_le(after@[after.min_handle()].1, new_key),
    {
        after.lemma_empty();
        assert(after@.contains_key(h));
        assert(after@.dom().len() > 0) by {
            if after@.dom().len() == 0 {
                assert(after@.dom() =~= Set::empty());
            }
        }
        after.lemma_min_is_least();
        assert(after@[h].1 == new_key);
    }

    /// What `pop` returns one after the other comes with keys that do not
    /// fall: the key of the element that a second `pop` removes is not
    /// smaller than the key of the element that the first removed.
    pub proof fn law_pops_ascend(before: Self, after: Self)
        requires
            before.wf(),
            after.wf(),
            before@.len() > 0,
            after@ == before@.remove(before.min_handle()),
            after@.len() > 0,
        ensures
            key_le(before@[before.min_handle()].1, after@[after.min_handle()].1),
    {
        before.lemma_min_is_least();
        after.lemma_min_is_least();
        assert(before@.contains_key(after.min_handle()));
    }
}

/// The shape in which `low` names the node whose key may be out of order.
spec fn with_low(shape: Shape, low: Option<Handle>) -> Shape {
    Shape { level: shape.level, roots: shape.roots, kids: shape.kids, low: low }
}

/// The ring `next` is the ring `ring` without `x`.
spec fn ring_lost(next: Seq<Handle>, ring: Seq<Handle>, x: Handle) -> bool {
    &&& next.len() + 1 == ring.len()
    &&& forall|h: Handle| next.contains(h) <==> ring.contains(h) && h != x
}

/// The ring `next` is the ring `ring` with `x`, which was not in it.
spec fn ring_gained(next: Seq<Handle>, ring: Seq<Handle>, x: Handle) -> bool {
    &&& next.len() == ring.len() + 1
    &&& !ring.contains(x)
    &&& forall|h: Handle| next.contains(h) <==> ring.contains(h) || h == x
}

/// Every node but `p` has the children in `next` that it has in `shape`.
spec fn other_kids_same(next: Shape, shape: Shape, p: Handle) -> bool {
    forall|q: Handle| q != p ==> #[trigger] kids_of(next, q) == kids_of(shape, q)
}

/// A place of `h` in `s`.
spec fn place_of(s: Seq<Handle>, h: Handle) -> int {
    choose|i: int| 0 <= i < s.len() && s[i] == h
}

/// The children of `p` as `shape` reads them.
spec fn kids_of(shape: Shape, p: Handle) -> Seq<Handle> {
    (shape.kids)(p)
}

/// The shape with a node `h` that has no children yet.
spec fn newborn(shape: Shape, h: Handle) -> Shape {
    Shape {
        level: shape.level,
        roots: shape.roots,
        low: shape.low,
        kids: |q: Handle|
            if q == h {
                Seq::<Handle>::empty()
            } else {
                (shape.kids)(q)
            },
    }
}

/// The shape in which every node but `upper` stands higher than before,
/// higher than `upper` too.
spec fn releveled(shape: Shape, upper: Handle) -> Shape {
    Shape {
        level: |h: Handle|
            if h == upper {
                (shape.level)(upper)
            } else {
                ((shape.level)(h) + (shape.level)(upper) + 1) as nat
            },
        roots: shape.roots,
        kids: shape.kids,
        low: shape.low,
    }
}

/// The nodes at the places of `siblings` before `upto`.
spec fn seen_upto(siblings: Seq<Handle>, upto: int) -> Set<Handle> {
    Set::new(|h: Handle| exists|k: int| 0 <= k < upto && k < siblings.len() && siblings[k] == h)
}

/// Walks once around a ring of siblings.
struct RawHandleIter {
    sentinel: Handle,
    peek: Handle,
    done: bool,
}

impl RawHandleIter {
    /// A walk around the ring of the children of `parent`, which starts
    /// with the child at which `parent` enters the ring.
    fn children<T, K: Key>(heap: &PairingHeap<T, K>, parent: Handle) -> (iter: RawHandleIter)
        requires
            heap.data.wf(),
            heap.data@.contains_key(parent),
        ensures
            match heap.child_of(parent) {
                None => iter.done,
                Some(child) => iter.sentinel == child && iter.peek == child && !iter.done,
            },
    {
        match heap.node(parent).child {
            None => RawHandleIter::empty(),
            Some(child) => RawHandleIter::siblings(child),
        }
    }

    /// A walk around the ring of `handle` that starts with `handle`.
    fn siblings(handle: Handle) -> (iter: RawHandleIter)
        ensures
            iter.sentinel == handle,
            iter.peek == handle,
            !iter.done,
    {
        RawHandleIter { sentinel: handle, peek: handle, done: false }
    }

    /// A walk that is over before it has begun.
    fn empty() -> (iter: RawHandleIter)
        ensures
            iter.done,
    {
        RawHandleIter { sentinel: Handle::undef(), peek: Handle::undef(), done: true }
    }

    /// The walk goes around the ring `s` of `heap` and has passed `at` of
    /// its nodes. A walk that is done has passed them all; a walk around no
    /// ring at all is done from the start.
    spec fn walks<T, K: Key>(&self, heap: &PairingHeap<T, K>, s: Seq<Handle>, at: int) -> bool {
        &&& heap.ring(s)
        &&& forall|i: int| 0 <= i < s.len() ==> heap.data@.contains_key(#[trigger] s[i])
        &&& 0 <= at <= s.len()
        &&& self.done == (at == s.len())
        &&& !self.done ==> self.sentinel == s[0] && self.peek == s[at]
    }

    /// The next node of the walk, or `None` once the walk is done: back
    /// where it started, or without a ring to go around.
    fn next<T, K: Key>(
        &mut self,
        heap: &PairingHeap<T, K>,
        Ghost(s): Ghost<Seq<Handle>>,
        Ghost(at): Ghost<int>,
    ) -> (r: Option<Handle>)
        requires
            heap.data.wf(),
            old(self).walks(heap, s, at),
        ensures
            match r {
                Some(h) => at < s.len() && h == s[at] && final(self).walks(heap, s, at + 1),
                None => at == s.len() && *final(self) == *old(self),
            },
    {
        match self.done {
            true => None,
            false => {
                let next = self.peek;
                proof {
                    assert(linked(heap.rights(), heap.lefts(), s, at));
                }
                self.peek = heap.node(next).right;
                if self.peek == self.sentinel {
                    self.done = true;
                }
                Some(next)
            },
        }
    }
}

} // verus!
