//! What a heap is to its user: a finite map from handles to elements with
//! their keys. The contracts of both heap layouts are stated over this map;
//! the predicates they share are defined here.

use crate::handle::Handle;
use crate::key::{key_le, lawful, lemma_le_refl, lemma_le_trans, Key};
use vstd::prelude::*;

verus! {

/// `m` names an entry of `entries` whose key is at most every key.
pub open spec fn is_least<T, K: Key>(entries: Map<Handle, (T, K)>, m: Handle) -> bool {
    &&& entries.contains_key(m)
    &&& forall|h: Handle| entries.contains_key(h) ==> key_le(entries[m].1, #[trigger] entries[h].1)
}

/// `order` lists every handle of `entries` once, from a least key to a
/// greatest, and `out` holds the elements in that order.
pub open spec fn drained_in_order<T, K: Key>(
    entries: Map<Handle, (T, K)>,
    order: Seq<Handle>,
    out: Seq<T>,
) -> bool {
    &&& order.len() == out.len()
    &&& order.no_duplicates()
    &&& forall|h: Handle|
        #![trigger entries.contains_key(h)]
        #![trigger order.contains(h)]
        order.contains(h) <==> entries.contains_key(h)
    &&& forall|i: int| 0 <= i < order.len() ==> #[trigger] out[i] == entries[order[i]].0
    &&& forall|i: int, j: int|
        0 <= i <= j < order.len() ==> key_le(
            entries[#[trigger] order[i]].1,
            entries[#[trigger] order[j]].1,
        )
}

/// What has been drained so far: `order` and `out` as in `drained_in_order`,
/// for the entries of `entries` that are no longer in `left`, none of which
/// has a greater key than an entry of `left`.
pub open spec fn drained_so_far<T, K: Key>(
    entries: Map<Handle, (T, K)>,
    left: Map<Handle, (T, K)>,
    order: Seq<Handle>,
    out: Seq<T>,
) -> bool {
    &&& order.len() == out.len()
    &&& order.no_duplicates()
    &&& forall|h: Handle|
        #![trigger entries.contains_key(h)]
        #![trigger order.contains(h)]
        #![trigger left.contains_key(h)]
        entries.contains_key(h) <==> (order.contains(h) || left.contains_key(h))
    &&& forall|h: Handle| #[trigger]
        left.contains_key(h) ==> !order.contains(h) && left[h] == entries[h]
    &&& forall|i: int| 0 <= i < order.len() ==> #[trigger] out[i] == entries[order[i]].0
    &&& forall|i: int, j: int|
        0 <= i <= j < order.len() ==> key_le(
            entries[#[trigger] order[i]].1,
            entries[#[trigger] order[j]].1,
        )
    &&& forall|i: int, h: Handle|
        0 <= i < order.len() && left.contains_key(h) ==> key_le(
            entries[#[trigger] order[i]].1,
            #[trigger] left[h].1,
        )
}

/// Nothing is drained at the start.
pub proof fn lemma_drain_start<T, K: Key>(entries: Map<Handle, (T, K)>)
    ensures
        drained_so_far(entries, entries, Seq::<Handle>::empty(), Seq::<T>::empty()),
{
}

/// Taking an entry of least key out of what is left extends what has been
/// drained.
pub proof fn lemma_drain_step<T, K: Key>(
    entries: Map<Handle, (T, K)>,
    left: Map<Handle, (T, K)>,
    order: Seq<Handle>,
    out: Seq<T>,
    m: Handle,
)
    requires
        lawful::<K>(),
        drained_so_far(entries, left, order, out),
        is_least(left, m),
    ensures
        drained_so_far(entries, left.remove(m), order.push(m), out.push(left[m].0)),
{
    let order2 = order.push(m);
    let out2 = out.push(left[m].0);
    let left2 = left.remove(m);
    assert(order2[order.len() as int] == m);
    assert(left.contains_key(m) && left[m] == entries[m] && !order.contains(m));
    assert forall|h: Handle| entries.contains_key(h) <==> (order2.contains(h) || left2.contains_key(
        h,
    )) by {
        if order.contains(h) {
            let i = choose|i: int| 0 <= i < order.len() && order[i] == h;
            assert(order2[i] == h);
        }
        if order2.contains(h) {
            let i = choose|i: int| 0 <= i < order2.len() && order2[i] == h;
            if i < order.len() {
                assert(order[i] == h);
            }
        }
    }
    assert forall|h: Handle| left2.contains_key(h) implies !order2.contains(h) && left2[h]
        == entries[h] by {
        assert(left.contains_key(h) && h != m);
        if order2.contains(h) {
            let i = choose|i: int| 0 <= i < order2.len() && order2[i] == h;
            if i < order.len() {
                assert(order[i] == h);
            }
        }
    }
    assert forall|i: int, j: int| 0 <= i <= j < order2.len() implies key_le(
        entries[#[trigger] order2[i]].1,
        entries[#[trigger] order2[j]].1,
    ) by {
        if j == order.len() {
            if i == j {
                lemma_le_refl(entries[m].1);
            } else {
                assert(order2[i] == order[i]);
                assert(key_le(entries[order[i]].1, left[m].1));
            }
        } else {
            assert(order2[i] == order[i]);
            assert(order2[j] == order[j]);
        }
    }
    assert forall|i: int, h: Handle|
        0 <= i < order2.len() && left2.contains_key(h) implies key_le(
        entries[#[trigger] order2[i]].1,
        #[trigger] left2[h].1,
    ) by {
        assert(left.contains_key(h) && left2[h] == left[h]);
        if i < order.len() {
            assert(order2[i] == order[i]);
        } else {
            assert(key_le(left[m].1, left[h].1));
        }
    }
    assert forall|i: int| 0 <= i < order2.len() implies #[trigger] out2[i] == entries[order2[i]].0 by {
        if i < order.len() {
            assert(out2[i] == out[i]);
            assert(order2[i] == order[i]);
        }
    }
    assert forall|i: int, j: int| 0 <= i < order2.len() && 0 <= j < order2.len() && i != j implies order2[i]
        != order2[j] by {
        if i < order.len() {
            assert(order2[i] == order[i]);
            assert(order.contains(order[i]));
        }
        if j < order.len() {
            assert(order2[j] == order[j]);
            assert(order.contains(order[j]));
        }
    }
}

/// When nothing is left, everything has been drained in order.
pub proof fn lemma_drain_end<T, K: Key>(
    entries: Map<Handle, (T, K)>,
    left: Map<Handle, (T, K)>,
    order: Seq<Handle>,
    out: Seq<T>,
)
    requires
        drained_so_far(entries, left, order, out),
        forall|h: Handle| !left.contains_key(h),
    ensures
        drained_in_order(entries, order, out),
{
}

/// `out` holds the elements of `pairs` sorted by key: `perm` says for each
/// place of `out` which pair stands there, names every pair once, and the
/// keys do not fall along it.
pub open spec fn sorted_by_key<T, K: Key>(pairs: Seq<(T, K)>, perm: Seq<int>, out: Seq<T>) -> bool {
    &&& perm.len() == pairs.len()
    &&& out.len() == pairs.len()
    &&& perm.no_duplicates()
    &&& forall|i: int| 0 <= i < perm.len() ==> 0 <= #[trigger] perm[i] < pairs.len()
    &&& forall|i: int| 0 <= i < perm.len() ==> #[trigger] out[i] == pairs[perm[i]].0
    &&& forall|i: int, j: int|
        0 <= i <= j < perm.len() ==> key_le(
            pairs[#[trigger] perm[i]].1,
            pairs[#[trigger] perm[j]].1,
        )
}

/// Draining sorts. Let a heap hold exactly the pairs of `pairs`, the `i`-th
/// of them behind `handles[i]`, as it does after they were pushed one by one
/// onto an empty heap. Then what is drained from it in order is `pairs`
/// sorted by key.
pub proof fn law_drain_sorts<T, K: Key>(
    pairs: Seq<(T, K)>,
    handles: Seq<Handle>,
    entries: Map<Handle, (T, K)>,
    order: Seq<Handle>,
    out: Seq<T>,
)
    requires
        handles.len() == pairs.len(),
        handles.no_duplicates(),
        forall|h: Handle| entries.contains_key(h) <==> handles.contains(h),
        forall|i: int| 0 <= i < handles.len() ==> entries[#[trigger] handles[i]] == pairs[i],
        drained_in_order(entries, order, out),
    ensures
        exists|perm: Seq<int>| sorted_by_key(pairs, perm, out),
{
    let place = |h: Handle| choose|i: int| 0 <= i < handles.len() && handles[i] == h;
    assert forall|k: int| 0 <= k < order.len() implies 0 <= place(#[trigger] order[k])
        < handles.len() && handles[place(order[k])] == order[k] by {
        assert(order.contains(order[k]));
        assert(handles.contains(order[k]));
    }
    // `order` has as many places as `handles`: each lists every handle once
    assert(order.len() == handles.len()) by {
        assert(order.to_set() =~= handles.to_set()) by {
            assert forall|h: Handle| order.to_set().contains(h) <==> handles.to_set().contains(
                h,
            ) by {
                assert(order.contains(h) <==> entries.contains_key(h));
            }
        }
        order.unique_seq_to_set();
        handles.unique_seq_to_set();
    }
    let perm = Seq::new(order.len(), |k: int| place(order[k]));
    assert forall|i: int, j: int| 0 <= i < perm.len() && 0 <= j < perm.len() && i != j implies perm[i]
        != perm[j] by {
        assert(handles[place(order[i])] == order[i]);
        assert(handles[place(order[j])] == order[j]);
    }
    assert forall|i: int| 0 <= i < perm.len() implies #[trigger] out[i] == pairs[perm[i]].0 by {
        assert(handles[place(order[i])] == order[i]);
    }
    assert forall|i: int, j: int| 0 <= i <= j < perm.len() implies key_le(
        pairs[#[trigger] perm[i]].1,
        pairs[#[trigger] perm[j]].1,
    ) by {
        assert(handles[place(order[i])] == order[i]);
        assert(handles[place(order[j])] == order[j]);
        assert(key_le(entries[order[i]].1, entries[order[j]].1));
    }
    assert(sorted_by_key(pairs, perm, out));
}

} // verus!
