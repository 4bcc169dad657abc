//! The index table: a `stash::Stash` of positions.
//!
//! The table hands out the numbers behind handles and remembers for each
//! number in use where its element is stored. Verus does not look into the
//! `stash` crate, so what the table does is stated here and not proved.

use stash::Stash;
use vstd::prelude::*;

verus! {

/// `stash::Stash`: a table that assigns an index of its own choice to
/// every value put into it. Verus sees nothing inside a value of it.
#[verifier::external_type_specification]
#[verifier::external_body]
#[verifier::reject_recursive_types(V)]
#[verifier::reject_recursive_types(Ix)]
pub struct ExStash<V, Ix>(Stash<V, Ix>);

/// What a table holds: the position stored under each index in use.
pub uninterp spec fn entries(table: Stash<usize, usize>) -> Map<usize, usize>;

/// The table without any index in use.
pub open spec fn no_entries() -> Map<usize, usize> {
    Map::empty()
}

/// The position stored under `index`, if `index` is in use.
pub open spec fn lookup(held: Map<usize, usize>, index: usize) -> Option<usize> {
    if held.contains_key(index) {
        Some(held[index])
    } else {
        None
    }
}

/// `Stash::new`: the result has no index in use.
#[verifier::external_body]
pub(crate) fn table_new() -> (table: Stash<usize, usize>)
    ensures
        entries(table) == no_entries(),
{
    Stash::new()
}

/// `Clone::clone` of `Stash`: the copy holds what the table holds.
#[verifier::external_body]
pub(crate) fn table_clone(table: &Stash<usize, usize>) -> (copy: Stash<usize, usize>)
    ensures
        entries(copy) == entries(*table),
{
    table.clone()
}

/// `Stash::put`: stores `position` under an index that was not in use and
/// returns that index; the other indices keep what they hold. A `Stash` only
/// hands out indices below the largest number of values it ever held at one
/// time, which is itself a `usize`, so the index is below `usize::MAX`.
/// `put` panics only where the index does not fit the index type, which
/// cannot happen with `usize`.
#[verifier::external_body]
pub(crate) fn table_put(table: &mut Stash<usize, usize>, position: usize) -> (index: usize)
    ensures
        !entries(*old(table)).contains_key(index),
        entries(*final(table)) == entries(*old(table)).insert(index, position),
        index < usize::MAX,
{
    table.put(position)
}

/// `Stash::take`: returns what is stored under `index` and frees the index,
/// or returns `None` and changes nothing where `index` is not in use.
#[verifier::external_body]
pub(crate) fn table_take(table: &mut Stash<usize, usize>, index: usize) -> (position: Option<usize>)
    ensures
        position == lookup(entries(*old(table)), index),
        entries(*final(table)) == entries(*old(table)).remove(index),
{
    table.take(index)
}

/// `Stash::get`: what is stored under `index`, or `None` where `index` is
/// not in use.
#[verifier::external_body]
pub(crate) fn table_get(table: &Stash<usize, usize>, index: usize) -> (position: Option<usize>)
    ensures
        position == lookup(entries(*table), index),
{
    table.get(index).copied()
}

/// `IndexMut::index_mut` of `Stash`, which panics where `index` is not in
/// use: overwrites what is stored under `index` with `position`.
#[verifier::external_body]
pub(crate) fn table_set(table: &mut Stash<usize, usize>, index: usize, position: usize)
    requires
        entries(*old(table)).contains_key(index),
    ensures
        entries(*final(table)) == entries(*old(table)).insert(index, position),
{
    table[index] = position;
}

} // verus!
