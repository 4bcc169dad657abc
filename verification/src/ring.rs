//! Rings of siblings.
//!
//! The siblings of the linked layout form a ring: every node knows the
//! sibling to its right and the sibling to its left, and going right from
//! any of them leads through all of them and back. A ring is described by
//! the sequence of its nodes, read to the right from any starting point.

use crate::handle::Handle;
use vstd::prelude::*;

verus! {

/// The place after `i` in a ring with `n` places.
pub open spec fn next_place(n: int, i: int) -> int {
    if i + 1 == n {
        0
    } else {
        i + 1
    }
}

/// The place before `i` in a ring with `n` places.
pub open spec fn prev_place(n: int, i: int) -> int {
    if i == 0 {
        n - 1
    } else {
        i - 1
    }
}

/// The node at place `i` of `s` points to its two neighbours in `s`.
pub open spec fn linked(
    right: spec_fn(Handle) -> Handle,
    left: spec_fn(Handle) -> Handle,
    s: Seq<Handle>,
    i: int,
) -> bool {
    &&& right(s[i]) == s[next_place(s.len() as int, i)]
    &&& left(s[i]) == s[prev_place(s.len() as int, i)]
}

/// `s` lists a ring: no node twice, each linked to its neighbours.
pub open spec fn is_ring(
    right: spec_fn(Handle) -> Handle,
    left: spec_fn(Handle) -> Handle,
    s: Seq<Handle>,
) -> bool {
    &&& s.no_duplicates()
    &&& forall|i: int| 0 <= i < s.len() ==> #[trigger] linked(right, left, s, i)
}

/// A ring stays a ring as long as its nodes keep their neighbours.
pub proof fn lemma_ring_kept(
    right: spec_fn(Handle) -> Handle,
    left: spec_fn(Handle) -> Handle,
    right2: spec_fn(Handle) -> Handle,
    left2: spec_fn(Handle) -> Handle,
    s: Seq<Handle>,
)
    requires
        is_ring(right, left, s),
        forall|i: int|
            0 <= i < s.len() ==> right2(#[trigger] s[i]) == right(s[i]) && left2(s[i]) == left(
                s[i],
            ),
    ensures
        is_ring(right2, left2, s),
{
    assert forall|i: int| 0 <= i < s.len() implies #[trigger] linked(right2, left2, s, i) by {
        assert(linked(right, left, s, i));
    }
}

/// What a sequence holds after an insertion.
pub proof fn lemma_insert_contains(s: Seq<Handle>, k: int, x: Handle)
    requires
        0 <= k <= s.len(),
    ensures
        forall|h: Handle| s.insert(k, x).contains(h) <==> s.contains(h) || h == x,
{
    let t = s.insert(k, x);
    assert forall|h: Handle| t.contains(h) <==> s.contains(h) || h == x by {
        if t.contains(h) {
            let i = choose|i: int| 0 <= i < t.len() && t[i] == h;
            if i < k {
                assert(s[i] == h);
            } else if i > k {
                assert(s[i - 1] == h);
            }
        }
        if s.contains(h) {
            let i = choose|i: int| 0 <= i < s.len() && s[i] == h;
            if i < k {
                assert(t[i] == h);
            } else {
                assert(t[i + 1] == h);
            }
        }
        assert(t[k] == x);
    }
}

/// Splicing `x` in to the right of the node at place `k` gives the ring
/// with `x` at place `k + 1`.
pub proof fn lemma_ring_insert(
    right: spec_fn(Handle) -> Handle,
    left: spec_fn(Handle) -> Handle,
    right2: spec_fn(Handle) -> Handle,
    left2: spec_fn(Handle) -> Handle,
    s: Seq<Handle>,
    k: int,
    x: Handle,
)
    requires
        is_ring(right, left, s),
        0 <= k < s.len(),
        !s.contains(x),
        right2(s[k]) == x,
        left2(x) == s[k],
        right2(x) == right(s[k]),
        left2(right(s[k])) == x,
        forall|i: int| 0 <= i < s.len() && i != k ==> right2(#[trigger] s[i]) == right(s[i]),
        forall|i: int|
            0 <= i < s.len() && i != next_place(s.len() as int, k) ==> left2(#[trigger] s[i])
                == left(s[i]),
    ensures
        is_ring(right2, left2, s.insert(k + 1, x)),
{
    let t = s.insert(k + 1, x);
    assert(linked(right, left, s, k));
    assert forall|i: int, j: int| 0 <= i < t.len() && 0 <= j < t.len() && i != j implies t[i]
        != t[j] by {
        let a = if i <= k {
            i
        } else {
            i - 1
        };
        let b = if j <= k {
            j
        } else {
            j - 1
        };
        if i != k + 1 && j != k + 1 {
            assert(t[i] == s[a] && t[j] == s[b]);
        } else if i == k + 1 {
            assert(t[j] == s[b]);
            assert(s.contains(s[b]));
        } else {
            assert(t[i] == s[a]);
            assert(s.contains(s[a]));
        }
    }
    assert forall|i: int| 0 <= i < t.len() implies #[trigger] linked(right2, left2, t, i) by {
        if i <= k {
            assert(t[i] == s[i]);
            assert(linked(right, left, s, i));
        } else if i == k + 1 {
            assert(t[i] == x);
        } else {
            assert(t[i] == s[i - 1]);
            assert(linked(right, left, s, i - 1));
        }
    }
}

/// Taking the node at place `j` out of a ring of at least two nodes, by
/// joining its two neighbours, gives the ring without that place.
pub proof fn lemma_ring_remove(
    right: spec_fn(Handle) -> Handle,
    left: spec_fn(Handle) -> Handle,
    right2: spec_fn(Handle) -> Handle,
    left2: spec_fn(Handle) -> Handle,
    s: Seq<Handle>,
    j: int,
)
    requires
        is_ring(right, left, s),
        s.len() >= 2,
        0 <= j < s.len(),
        right2(left(s[j])) == right(s[j]),
        left2(right(s[j])) == left(s[j]),
        forall|i: int|
            0 <= i < s.len() && i != j && i != prev_place(s.len() as int, j) ==> right2(
                #[trigger] s[i],
            ) == right(s[i]),
        forall|i: int|
            0 <= i < s.len() && i != j && i != next_place(s.len() as int, j) ==> left2(
                #[trigger] s[i],
            ) == left(s[i]),
    ensures
        is_ring(right2, left2, s.remove(j)),
        !s.remove(j).contains(s[j]),
        forall|h: Handle| s.contains(h) && h != s[j] ==> s.remove(j).contains(h),
        forall|h: Handle| s.remove(j).contains(h) ==> s.contains(h),
{
    let t = s.remove(j);
    let n = s.len() as int;
    assert(linked(right, left, s, j));
    assert forall|i: int| 0 <= i < t.len() implies t[i] == s[if i < j {
        i
    } else {
        i + 1
    }] by {}
    assert forall|i: int, k: int| 0 <= i < t.len() && 0 <= k < t.len() && i != k implies t[i]
        != t[k] by {}
    assert forall|i: int| 0 <= i < t.len() implies #[trigger] linked(right2, left2, t, i) by {
        let a = if i < j {
            i
        } else {
            i + 1
        };
        assert(t[i] == s[a]);
        assert(linked(right, left, s, a));
        assert(linked(right, left, s, prev_place(n, j)));
        assert(linked(right, left, s, next_place(n, j)));
    }
    assert forall|h: Handle| s.contains(h) && h != s[j] implies t.contains(h) by {
        let i = choose|i: int| 0 <= i < s.len() && s[i] == h;
        if i < j {
            assert(t[i] == h);
        } else {
            assert(t[i - 1] == h);
        }
    }
    if t.contains(s[j]) {
        let i = choose|i: int| 0 <= i < t.len() && t[i] == s[j];
    }
    assert forall|h: Handle| t.contains(h) implies s.contains(h) by {
        let i = choose|i: int| 0 <= i < t.len() && t[i] == h;
        assert(s[if i < j {
            i
        } else {
            i + 1
        }] == h);
    }
}

/// The same ring read from place `k` on.
pub open spec fn rotated(s: Seq<Handle>, k: int) -> Seq<Handle> {
    s.subrange(k, s.len() as int) + s.subrange(0, k)
}

/// A ring may be read from any of its places.
pub proof fn lemma_ring_rotate(
    right: spec_fn(Handle) -> Handle,
    left: spec_fn(Handle) -> Handle,
    s: Seq<Handle>,
    k: int,
)
    requires
        is_ring(right, left, s),
        0 <= k < s.len(),
    ensures
        is_ring(right, left, rotated(s, k)),
        rotated(s, k).len() == s.len(),
        rotated(s, k)[0] == s[k],
        forall|h: Handle| rotated(s, k).contains(h) <==> s.contains(h),
{
    let t = rotated(s, k);
    let n = s.len() as int;
    assert forall|i: int| 0 <= i < n implies t[i] == s[if i + k < n {
        i + k
    } else {
        i + k - n
    }] by {}
    assert forall|i: int, j: int| 0 <= i < t.len() && 0 <= j < t.len() && i != j implies t[i]
        != t[j] by {}
    assert forall|i: int| 0 <= i < t.len() implies #[trigger] linked(right, left, t, i) by {
        let a = if i + k < n {
            i + k
        } else {
            i + k - n
        };
        assert(t[i] == s[a]);
        assert(linked(right, left, s, a));
    }
    assert forall|h: Handle| t.contains(h) <==> s.contains(h) by {
        if t.contains(h) {
            let i = choose|i: int| 0 <= i < t.len() && t[i] == h;
            assert(s[if i + k < n {
                i + k
            } else {
                i + k - n
            }] == h);
        }
        if s.contains(h) {
            let a = choose|a: int| 0 <= a < s.len() && s[a] == h;
            let i = if a >= k {
                a - k
            } else {
                a - k + n
            };
            assert(t[i] == h);
        }
    }
}

} // verus!
