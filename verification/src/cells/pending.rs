//! The dependency graph of the topological sort, kept by the
//! `topological_sort` crate.

use topological_sort::TopologicalSort;
use vstd::prelude::*;

verus! {

#[verifier::external_type_specification]
#[verifier::external_body]
#[verifier::reject_recursive_types(T)]
pub struct ExTopologicalSort<T>(TopologicalSort<T>);

/// The items that the sort holds and has not handed out yet.
pub uninterp spec fn waiting(sort: TopologicalSort<u64>) -> Set<u64>;

/// The dependencies recorded between waiting items, each as the pair of the
/// item that comes first and the item that comes after it.
pub uninterp spec fn dependencies(sort: TopologicalSort<u64>) -> Set<(u64, u64)>;

/// `TopologicalSort::default`: a sort that holds no item and no
/// dependency.
#[verifier::external_body]
pub(crate) fn new_sort() -> (sort: TopologicalSort<u64>)
    ensures
        waiting(sort) == Set::<u64>::empty(),
        dependencies(sort) == Set::<(u64, u64)>::empty(),
{
    TopologicalSort::default()
}

/// `TopologicalSort::add_dependency`: records that `prec` comes before
/// `succ`. Both become waiting items if they were not; a dependency that is
/// recorded already is not recorded twice.
#[verifier::external_body]
pub(crate) fn add_dependency(sort: &mut TopologicalSort<u64>, prec: u64, succ: u64)
    ensures
        waiting(*final(sort)) == waiting(*old(sort)).insert(prec).insert(succ),
        dependencies(*final(sort)) == dependencies(*old(sort)).insert((prec, succ)),
{
    sort.add_dependency(prec, succ)
}

/// `TopologicalSort::pop`: hands out some waiting item that no waiting item
/// comes before, and forgets it together with the dependencies that start
/// at it. Which of several such items comes out is left open. Where every
/// waiting item has one that comes before it, nothing is handed out and the
/// sort stays as it is.
#[verifier::external_body]
pub(crate) fn pop(sort: &mut TopologicalSort<u64>) -> (next: Option<u64>)
    ensures
        match next {
            Some(item) => {
                &&& waiting(*old(sort)).contains(item)
                &&& forall|prec: u64| !dependencies(*old(sort)).contains((prec, item))
                &&& waiting(*final(sort)) == waiting(*old(sort)).remove(item)
                &&& forall|prec: u64, succ: u64|
                    dependencies(*final(sort)).contains((prec, succ)) <==> dependencies(
                        *old(sort),
                    ).contains((prec, succ)) && prec != item
            },
            None => {
                &&& waiting(*final(sort)) == waiting(*old(sort))
                &&& dependencies(*final(sort)) == dependencies(*old(sort))
                &&& forall|item: u64|
                    waiting(*old(sort)).contains(item) ==> exists|prec: u64|
                        dependencies(*old(sort)).contains((prec, item))
            },
        },
{
    sort.pop()
}

/// `TopologicalSort::len`: the number of waiting items.
#[verifier::external_body]
pub(crate) fn len(sort: &TopologicalSort<u64>) -> (n: usize)
    requires
        waiting(*sort).finite(),
    ensures
        n == waiting(*sort).len(),
{
    sort.len()
}

} // verus!
