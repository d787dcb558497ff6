//! The list of nodes waiting to be visited, kept in ascending order by
//! `sortedlist_rs::SortedList`.
//!
//! An entry is a pair of a priority and a node's index. Pairs are ordered by
//! priority first and by index among equal priorities. Nothing in this file
//! is proved: each contract states what the list's source shows.

use sortedlist_rs::SortedList;
use vstd::prelude::*;

verus! {

#[verifier::external_type_specification]
#[verifier::external_body]
#[verifier::reject_recursive_types(T)]
pub struct ExSortedList<T: Ord>(SortedList<T>);

/// The entries of a list, from its first to its last.
pub uninterp spec fn entries(list: SortedList<(u128, usize)>) -> Seq<(u128, usize)>;

/// Whether entry `a` comes before entry `b` or equals it.
pub open spec fn in_order(a: (u128, usize), b: (u128, usize)) -> bool {
    a.0 < b.0 || (a.0 == b.0 && a.1 <= b.1)
}

/// Whether each entry comes before, or equals, those after it.
pub open spec fn ascending(items: Seq<(u128, usize)>) -> bool {
    forall|i: int, j: int| 0 <= i < j < items.len() ==> in_order(items[i], items[j])
}

/// `SortedList::new`: a list without entries.
#[verifier::external_body]
pub(crate) fn new_list() -> (list: SortedList<(u128, usize)>)
    ensures
        entries(list) == Seq::<(u128, usize)>::empty(),
{
    SortedList::new()
}

/// `SortedList::len`: the number of entries.
#[verifier::external_body]
pub(crate) fn list_len(list: &SortedList<(u128, usize)>) -> (len: usize)
    ensures
        len == entries(*list).len(),
{
    list.len()
}

/// `SortedList::insert`: the list gains `entry` at one place, every other
/// entry keeps its place relative to the others, and the entries are in
/// ascending order afterwards.
#[verifier::external_body]
pub(crate) fn list_insert(list: &mut SortedList<(u128, usize)>, entry: (u128, usize))
    ensures
        exists|i: int|
            0 <= i <= entries(*old(list)).len() && entries(*final(list)) == entries(
                *old(list),
            ).insert(i, entry),
        ascending(entries(*final(list))),
{
    list.insert(entry)
}

/// `SortedList::remove`: takes the entry at place `k` out of the list and
/// returns it; the other entries keep their order. The list panics when `k`
/// is not a place in it.
#[verifier::external_body]
pub(crate) fn list_remove(list: &mut SortedList<(u128, usize)>, k: usize) -> (removed: (
    u128,
    usize,
))
    requires
        k < entries(*old(list)).len(),
    ensures
        removed == entries(*old(list))[k as int],
        entries(*final(list)) == entries(*old(list)).remove(k as int),
{
    list.remove(k)
}

/// `SortedList::binary_search`: `Ok` with a place that holds `entry`, or
/// `Err` when no place holds it.
#[verifier::external_body]
pub(crate) fn list_binary_search(list: &SortedList<(u128, usize)>, entry: &(u128, usize)) -> (found:
    Result<usize, usize>)
    ensures
        match found {
            Ok(k) => k < entries(*list).len() && entries(*list)[k as int] == *entry,
            Err(_) => !entries(*list).contains(*entry),
        },
{
    list.binary_search(entry)
}

} // verus!
