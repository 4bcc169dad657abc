//! Dense storage addressed by stable handles.
//!
//! The values lie next to each other in a vector. A handle does not name a
//! place in that vector, which changes when a value is taken out, but an
//! entry of the index table that says where the value currently is.

use crate::handle::Handle;
use crate::index_table::{
    entries, table_clone, table_get, table_new, table_put, table_set, table_take,
};
use stash::Stash;
use vstd::prelude::*;

verus! {

/// One stored value together with the handle that names it.
#[derive(Debug)]
pub struct Slot<V> {
    handle: Handle,
    value: V,
}

/// Storage that hands out a handle for every value put into it.
#[derive(Debug)]
pub struct Arena<V> {
    table: Stash<usize, usize>,
    dense: Vec<Slot<V>>,
}

impl<V> View for Arena<V> {
    type V = Map<Handle, V>;

    /// The value behind each handle in use.
    closed spec fn view(&self) -> Map<Handle, V> {
        Map::new(
            |h: Handle| entries(self.table).contains_key(h.0),
            |h: Handle| self.dense@[entries(self.table)[h.0] as int].value,
        )
    }
}

impl<V: Clone> Clone for Arena<V> {
    /// A copy in which the same handles name clones of the values.
    fn clone(&self) -> (copy: Self)
        ensures
            self.wf() ==> copy.wf() && copy.order() == self.order() && copy@.dom() == self@.dom(),
            self.wf() ==> forall|h: Handle|
                self@.contains_key(h) ==> cloned::<V>(self@[h], #[trigger] copy@[h]),
    {
        let table = table_clone(&self.table);
        let mut dense: Vec<Slot<V>> = Vec::new();
        let mut i: usize = 0;
        while i < self.dense.len()
            invariant
                i <= self.dense@.len(),
                dense@.len() == i,
                forall|j: int|
                    0 <= j < i ==> (#[trigger] dense@[j]).handle == self.dense@[j].handle
                        && cloned::<V>(self.dense@[j].value, dense@[j].value),
            decreases self.dense@.len() - i,
        {
            let slot = &self.dense[i];
            dense.push(Slot { handle: slot.handle, value: slot.value.clone() });
            i += 1;
        }
        let copy = Arena { table, dense };
        proof {
            if self.wf() {
                assert(copy@.dom() =~= self@.dom());
                assert(copy.order() =~= self.order());
                assert forall|i: int| 0 <= i < copy.dense@.len() implies entries(
                    copy.table,
                ).contains_key((#[trigger] copy.dense@[i]).handle.0) && entries(
                    copy.table,
                )[copy.dense@[i].handle.0] == i by {
                    assert(copy.dense@[i].handle == self.dense@[i].handle);
                }
            }
        }
        copy
    }
}

impl<V> Arena<V> {
    /// The table and the vector describe each other.
    pub closed spec fn wf(&self) -> bool {
        let held = entries(self.table);
        &&& self@.dom().finite()
        &&& self@.dom().len() == self.dense@.len()
        &&& forall|k: usize| #[trigger]
            held.contains_key(k) ==> held[k] < self.dense@.len() && self.dense@[held[k] as int].handle
                == Handle(k)
        &&& forall|i: int|
            0 <= i < self.dense@.len() ==> held.contains_key((#[trigger] self.dense@[i]).handle.0)
                && held[self.dense@[i].handle.0] == i
    }

    /// The handles in use, in the order in which their values are stored.
    pub closed spec fn order(&self) -> Seq<Handle> {
        Seq::new(self.dense@.len(), |i: int| self.dense@[i].handle)
    }

    /// An arena holds finitely many values.
    pub proof fn lemma_finite(&self)
        requires
            self.wf(),
        ensures
            self@.dom().finite(),
    {
    }

    /// Every handle in use occurs exactly once in `order`.
    pub proof fn lemma_order(&self)
        requires
            self.wf(),
        ensures
            self.order().len() == self@.dom().len(),
            self.order().no_duplicates(),
            forall|h: Handle| self.order().contains(h) <==> self@.contains_key(h),
            forall|i: int| 0 <= i < self.order().len() ==> self@.contains_key(#[trigger] self.order()[i]),
    {
        let held = entries(self.table);
        assert forall|i: int| 0 <= i < self.order().len() implies self@.contains_key(
            #[trigger] self.order()[i],
        ) by {
            assert(held.contains_key(self.dense@[i].handle.0));
        }
        assert forall|h: Handle| self@.contains_key(h) implies self.order().contains(h) by {
            assert(held.contains_key(h.0));
            assert(self.order()[held[h.0] as int] == h);
        }
        assert forall|i: int, j: int|
            0 <= i < self.order().len() && 0 <= j < self.order().len() && i != j implies self.order()[i]
            != self.order()[j] by {
            assert(held[self.dense@[i].handle.0] == i);
            assert(held[self.dense@[j].handle.0] == j);
        }
    }

    /// An arena without values.
    pub fn new() -> (arena: Self)
        ensures
            arena.wf(),
            arena@ == Map::<Handle, V>::empty(),
    {
        let arena = Arena { table: table_new(), dense: Vec::new() };
        assert(arena@ =~= Map::<Handle, V>::empty());
        arena
    }

    /// The number of values stored.
    pub fn len(&self) -> (n: usize)
        requires
            self.wf(),
        ensures
            n == self@.dom().len(),
            n == self.order().len(),
    {
        self.dense.len()
    }

    /// Stores `value` and returns the handle that names it from now on.
    pub fn put(&mut self, value: V) -> (h: Handle)
        requires
            old(self).wf(),
        ensures
            final(self).wf(),
            !old(self)@.contains_key(h),
            !h.is_undef_spec(),
            final(self)@ == old(self)@.insert(h, value),
            final(self).order() == old(self).order().push(h),
    {
        let position = self.dense.len();
        let index = table_put(&mut self.table, position);
        let h = Handle(index);
        self.dense.push(Slot { handle: h, value });
        proof {
            let held = entries(self.table);
            assert(self@ =~= old(self)@.insert(h, value)) by {
                assert forall|g: Handle| self@.contains_key(g) implies #[trigger] self@[g] == old(
                    self,
                )@.insert(h, value)[g] by {
                    if g != h {
                        assert(entries(old(self).table).contains_key(g.0));
                    }
                }
            }
            assert(self@.dom() =~= old(self)@.dom().insert(h));
            assert forall|i: int| 0 <= i < self.dense@.len() implies held.contains_key(
                (#[trigger] self.dense@[i]).handle.0,
            ) && held[self.dense@[i].handle.0] == i by {
                if i < position {
                    assert(self.dense@[i] == old(self).dense@[i]);
                }
            }
            assert(self.order() =~= old(self).order().push(h));
        }
        h
    }

    /// Takes the value behind `h` out of the arena. The handle is free
    /// afterwards; the other handles keep their values.
    pub fn take(&mut self, h: Handle) -> (value: V)
        requires
            old(self).wf(),
            old(self)@.contains_key(h),
        ensures
            final(self).wf(),
            value == old(self)@[h],
            final(self)@ == old(self)@.remove(h),
    {
        let found = table_take(&mut self.table, h.0);
        let position = match found {
            Some(position) => position,
            None => vstd::pervasive::unreached(),
        };
        let slot = self.dense.swap_remove(position);
        if position < self.dense.len() {
            let moved = self.dense[position].handle;
            proof {
                let last = old(self).dense@.len() - 1;
                assert(moved == old(self).dense@[last].handle);
                assert(entries(old(self).table).contains_key(moved.0));
                assert(entries(old(self).table)[moved.0] == last);
            }
            table_set(&mut self.table, moved.0, position);
        }
        proof {
            let held = entries(self.table);
            let before = entries(old(self).table);
            let last = old(self).dense@.len() - 1;
            assert forall|k: usize| #[trigger] held.contains_key(k) implies held[k] < self.dense@.len()
                && self.dense@[held[k] as int].handle == Handle(k) by {
                assert(before.contains_key(k));
                if before[k] == last {
                    assert(old(self).dense@[last].handle == Handle(k));
                }
            }
            assert forall|i: int| 0 <= i < self.dense@.len() implies held.contains_key(
                (#[trigger] self.dense@[i]).handle.0,
            ) && held[self.dense@[i].handle.0] == i by {
                if i == position {
                    assert(self.dense@[i] == old(self).dense@[last]);
                } else {
                    assert(self.dense@[i] == old(self).dense@[i]);
                }
            }
            assert(self@ =~= old(self)@.remove(h)) by {
                assert forall|g: Handle| self@.contains_key(g) implies #[trigger] self@[g] == old(
                    self,
                )@[g] by {
                    assert(before.contains_key(g.0));
                    if before[g.0] == last {
                        assert(old(self).dense@[last].handle == g);
                    }
                }
            }
            assert(self@.dom() =~= old(self)@.dom().remove(h));
        }
        slot.value
    }

    /// The value behind `h`, if `h` is in use.
    pub fn get(&self, h: Handle) -> (r: Option<&V>)
        requires
            self.wf(),
        ensures
            r == (if self@.contains_key(h) {
                Some(&self@[h])
            } else {
                None
            }),
    {
        match table_get(&self.table, h.0) {
            Some(position) => Some(&self.dense[position].value),
            None => None,
        }
    }

    /// The value behind `h`, for writing, if `h` is in use.
    pub fn get_mut(&mut self, h: Handle) -> (r: Option<&mut V>)
        requires
            old(self).wf(),
        ensures
            final(self).wf(),
            final(self).order() == old(self).order(),
            match r {
                Some(v) => old(self)@.contains_key(h) && *v == old(self)@[h] && final(self)@ == old(
                    self,
                )@.insert(h, *final(v)),
                None => !old(self)@.contains_key(h) && final(self)@ == old(self)@,
            },
    {
        match table_get(&self.table, h.0) {
            Some(position) => Some(&mut self.dense[position].value),
            None => None,
        }
    }

    /// The value behind a handle that is in use.
    pub fn at(&self, h: Handle) -> (r: &V)
        requires
            self.wf(),
            self@.contains_key(h),
        ensures
            *r == self@[h],
    {
        match table_get(&self.table, h.0) {
            Some(position) => &self.dense[position].value,
            None => vstd::pervasive::unreached(),
        }
    }

    /// The value behind a handle that is in use, for writing.
    pub fn at_mut(&mut self, h: Handle) -> (r: &mut V)
        requires
            old(self).wf(),
            old(self)@.contains_key(h),
        ensures
            *r == old(self)@[h],
            final(self).wf(),
            final(self)@ == old(self)@.insert(h, *final(r)),
            final(self).order() == old(self).order(),
    {
        match table_get(&self.table, h.0) {
            Some(position) => &mut self.dense[position].value,
            None => vstd::pervasive::unreached(),
        }
    }

    /// The value that is stored at place `i` of `order`, for writing.
    pub fn nth_mut(&mut self, i: usize) -> (r: &mut V)
        requires
            old(self).wf(),
            i < old(self).order().len(),
        ensures
            *r == old(self)@[old(self).order()[i as int]],
            final(self).wf(),
            final(self)@ == old(self)@.insert(old(self).order()[i as int], *final(r)),
            final(self).order() == old(self).order(),
    {
        proof {
            assert(entries(self.table).contains_key(self.dense@[i as int].handle.0));
        }
        &mut self.dense[i].value
    }

    /// The value that is stored at place `i` of `order`.
    pub fn nth(&self, i: usize) -> (r: &V)
        requires
            self.wf(),
            i < self.order().len(),
        ensures
            *r == self@[self.order()[i as int]],
    {
        proof {
            assert(entries(self.table).contains_key(self.dense@[i as int].handle.0));
        }
        &self.dense[i].value
    }
}

} // verus!
