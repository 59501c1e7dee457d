//! The two ways of giving every item a draw depth.

use crate::cells::current::{CurrentCells, Relation};
use crate::cells::depth::Depth;
use crate::cells::error::Error;
use crate::cells::pending::{add_dependency, dependencies, len, new_sort, pop, waiting};
use topological_sort::TopologicalSort;
use vstd::prelude::*;

verus! {

/// Only items with a height take part in a sort.
pub open spec fn is_sortable(item: (u64, CurrentCells)) -> bool {
    item.1.dimensions.height > 0
}

/// The places in `items` of the items that take part in a sort, ascending.
pub open spec fn sortable_indices(items: Seq<(u64, CurrentCells)>) -> Seq<usize>
    decreases items.len(),
{
    if items.len() == 0 {
        Seq::empty()
    } else {
        let before = sortable_indices(items.drop_last());
        if is_sortable(items.last()) {
            before.push((items.len() - 1) as usize)
        } else {
            before
        }
    }
}

/// The number of items that take part in a sort.
pub open spec fn n_sortable(items: Seq<(u64, CurrentCells)>) -> nat {
    sortable_indices(items).len()
}

/// Whether the item at place `prec` has to be drawn before the item at place
/// `succ`: both take part in the sort, and the second hides a cell that the
/// first stands on.
pub open spec fn depends(items: Seq<(u64, CurrentCells)>, prec: int, succ: int) -> bool {
    &&& 0 <= prec < items.len()
    &&& 0 <= succ < items.len()
    &&& is_sortable(items[prec])
    &&& is_sortable(items[succ])
    &&& items[succ].1@.hides(items[prec].1@)
}

/// Whether some item of entity `prec` has to be drawn before some item of
/// entity `succ`.
pub open spec fn is_dependency(items: Seq<(u64, CurrentCells)>, prec: u64, succ: u64) -> bool {
    exists|p: int, s: int| #[trigger]
        depends(items, p, s) && items[p].0 == prec && items[s].0 == succ
}

/// Whether the entity stands at either end of a dependency.
pub open spec fn takes_part(items: Seq<(u64, CurrentCells)>, entity: u64) -> bool {
    exists|other: u64|
        #![trigger is_dependency(items, entity, other)]
        #![trigger is_dependency(items, other, entity)]
        is_dependency(items, entity, other) || is_dependency(items, other, entity)
}

/// Whether `order` lists every entity that takes part in a dependency once,
/// each before all that have to be drawn after it.
pub open spec fn is_topological_order(items: Seq<(u64, CurrentCells)>, order: Seq<u64>) -> bool {
    &&& order.no_duplicates()
    &&& forall|entity: u64| order.contains(entity) <==> takes_part(items, entity)
    &&& forall|i: int, j: int|
        0 <= i < order.len() && 0 <= j < order.len() && is_dependency(items, order[i], order[j])
            ==> i < j
}

/// The entities of a list of depths.
pub open spec fn entities(depths: Seq<(u64, Depth)>) -> Seq<u64> {
    Seq::new(depths.len(), |k: int| depths[k].0)
}

/// Whether each entry of `depths` holds the depth of its place among
/// `n_items` items.
pub open spec fn is_ranked(depths: Seq<(u64, Depth)>, n_items: nat) -> bool {
    forall|k: int|
        0 <= k < depths.len() ==> (#[trigger] depths[k]).1.index == k && depths[k].1.n_items
            == n_items && depths[k].1.is_valid()
}

/// The entry of `entity` for place `index` among `n_items` sorted items.
pub fn assign_z(index: usize, entity: u64, n_items: usize) -> (entry: (u64, Depth))
    requires
        index < n_items,
    ensures
        entry == (entity, Depth { index, n_items }),
        entry.1.is_valid(),
{
    (entity, Depth::new(index, n_items))
}

pub fn find_sortable(items: &Vec<(u64, CurrentCells)>) -> (indices: Vec<usize>)
    ensures
        indices@ == sortable_indices(items@),
{
    let mut indices: Vec<usize> = Vec::new();
    let mut i: usize = 0;
    while i < items.len()
        invariant
            i <= items.len(),
            indices@ == sortable_indices(items@.take(i as int)),
        decreases items.len() - i,
    {
        assert(items@.take(i + 1).drop_last() == items@.take(i as int));
        if items[i].1.dimensions.height > 0 {
            indices.push(i);
        }
        i = i + 1;
    }
    assert(items@.take(i as int) == items@);
    indices
}

/// `sortable_indices` lists the places of the sortable items, and no other,
/// in ascending order.
pub proof fn lemma_sortable_indices(items: Seq<(u64, CurrentCells)>)
    requires
        items.len() <= usize::MAX,
    ensures
        sortable_indices(items).len() <= items.len(),
        forall|k: int|
            0 <= k < sortable_indices(items).len() ==> (#[trigger] sortable_indices(items)[k])
                < items.len() && is_sortable(items[sortable_indices(items)[k] as int]),
        forall|i: int|
            0 <= i < items.len() && is_sortable(#[trigger] items[i]) ==> sortable_indices(
                items,
            ).contains(i as usize),
        forall|k: int, l: int|
            0 <= k < l < sortable_indices(items).len() ==> sortable_indices(items)[k]
                < sortable_indices(items)[l],
    decreases items.len(),
{
    if items.len() > 0 {
        let shorter = items.drop_last();
        let before = sortable_indices(shorter);
        lemma_sortable_indices(shorter);
        let all = sortable_indices(items);
        assert forall|k: int| 0 <= k < all.len() implies (#[trigger] all[k]) < items.len()
            && is_sortable(items[all[k] as int]) by {
            if k < before.len() {
                assert(all[k] == before[k]);
                assert(shorter[before[k] as int] == items[before[k] as int]);
            }
        }
        assert forall|i: int| 0 <= i < items.len() && is_sortable(#[trigger] items[i]) implies all.contains(
            i as usize,
        ) by {
            if i < items.len() - 1 {
                assert(shorter[i] == items[i]);
                let k = choose|k: int| 0 <= k < before.len() && before[k] == i as usize;
                assert(all[k] == i as usize);
            } else {
                assert(all[all.len() - 1] == i as usize);
            }
        }
        assert forall|k: int, l: int| 0 <= k < l < all.len() implies all[k] < all[l] by {
            assert(all[k] == before[k]);
            if l < before.len() {
                assert(all[l] == before[l]);
            }
        }
    }
}

/// Whether place `prec` has to be drawn before place `succ`, and the pair is
/// among those looked at before the pair `(other, this)`: pairs are looked
/// at in the order of the place that comes after, then of the place that
/// comes first.
pub open spec fn depends_before(
    items: Seq<(u64, CurrentCells)>,
    prec: int,
    succ: int,
    this: int,
    other: int,
) -> bool {
    depends(items, prec, succ) && (succ < this || (succ == this && prec < other))
}

/// Whether the dependency of `prec` and `succ` shows among the pairs looked
/// at before the pair `(other, this)`.
pub open spec fn is_dependency_before(
    items: Seq<(u64, CurrentCells)>,
    prec: u64,
    succ: u64,
    this: int,
    other: int,
) -> bool {
    exists|p: int, s: int| #[trigger]
        depends_before(items, p, s, this, other) && items[p].0 == prec && items[s].0 == succ
}

/// Looking at more pairs loses no dependency, and gains none where none of
/// the further pairs is one.
proof fn lemma_dependency_before_step(
    items: Seq<(u64, CurrentCells)>,
    prec: u64,
    succ: u64,
    this: int,
    other: int,
    next_this: int,
    next_other: int,
)
    requires
        forall|p: int, s: int|
            depends_before(items, p, s, this, other) ==> #[trigger] depends_before(
                items,
                p,
                s,
                next_this,
                next_other,
            ),
    ensures
        is_dependency_before(items, prec, succ, this, other) ==> is_dependency_before(
            items,
            prec,
            succ,
            next_this,
            next_other,
        ),
        (forall|p: int, s: int| #[trigger]
            depends_before(items, p, s, next_this, next_other) ==> depends_before(
                items,
                p,
                s,
                this,
                other,
            )) ==> (is_dependency_before(items, prec, succ, next_this, next_other)
            ==> is_dependency_before(items, prec, succ, this, other)),
{
    if is_dependency_before(items, prec, succ, this, other) {
        let (p, s) = choose|p: int, s: int| #[trigger]
            depends_before(items, p, s, this, other) && items[p].0 == prec && items[s].0 == succ;
        assert(depends_before(items, p, s, next_this, next_other));
    }
    if (forall|p: int, s: int| #[trigger]
        depends_before(items, p, s, next_this, next_other) ==> depends_before(
            items,
            p,
            s,
            this,
            other,
        )) && is_dependency_before(items, prec, succ, next_this, next_other) {
        let (p, s) = choose|p: int, s: int| #[trigger]
            depends_before(items, p, s, next_this, next_other) && items[p].0 == prec
                && items[s].0 == succ;
        assert(depends_before(items, p, s, this, other));
    }
}

/// Whether the items of `map` are the two ends of its dependencies.
spec fn holds_ends_only(map: TopologicalSort<u64>) -> bool {
    forall|entity: u64|
        waiting(map).contains(entity) <==> exists|other: u64|
            #![trigger dependencies(map).contains((entity, other))]
            #![trigger dependencies(map).contains((other, entity))]
            dependencies(map).contains((entity, other)) || dependencies(map).contains(
                (other, entity),
            )
}

/// Recording a dependency keeps the items of a graph the ends of its
/// dependencies.
proof fn lemma_holds_ends_only_after_add(
    before: TopologicalSort<u64>,
    after: TopologicalSort<u64>,
    prec: u64,
    succ: u64,
)
    requires
        holds_ends_only(before),
        waiting(after) == waiting(before).insert(prec).insert(succ),
        dependencies(after) == dependencies(before).insert((prec, succ)),
    ensures
        holds_ends_only(after),
{
    assert forall|entity: u64|
        waiting(after).contains(entity) <==> exists|other: u64|
            #![trigger dependencies(after).contains((entity, other))]
            #![trigger dependencies(after).contains((other, entity))]
            dependencies(after).contains((entity, other)) || dependencies(after).contains(
                (other, entity),
            ) by {
        if waiting(after).contains(entity) {
            if entity == succ {
                assert(dependencies(after).contains((prec, entity)));
            } else if entity == prec {
                assert(dependencies(after).contains((entity, succ)));
            } else {
                assert(waiting(before).contains(entity));
                let other = choose|other: u64|
                    #![trigger dependencies(before).contains((entity, other))]
                    #![trigger dependencies(before).contains((other, entity))]
                    dependencies(before).contains((entity, other)) || dependencies(
                        before,
                    ).contains((other, entity));
                assert(dependencies(after).contains((entity, other)) || dependencies(
                    after,
                ).contains((other, entity)));
            }
        }
        if exists|other: u64|
            #![trigger dependencies(after).contains((entity, other))]
            #![trigger dependencies(after).contains((other, entity))]
            dependencies(after).contains((entity, other)) || dependencies(after).contains(
                (other, entity),
            ) {
            let other = choose|other: u64|
                #![trigger dependencies(after).contains((entity, other))]
                #![trigger dependencies(after).contains((other, entity))]
                dependencies(after).contains((entity, other)) || dependencies(after).contains(
                    (other, entity),
                );
            if entity != prec && entity != succ {
                assert(dependencies(before).contains((entity, other)) || dependencies(
                    before,
                ).contains((other, entity)));
            }
        }
    }
}

/// The graph whose items are the entities that take part in a dependency,
/// with every dependency among `items` recorded.
fn dependency_graph(items: &Vec<(u64, CurrentCells)>) -> (map: TopologicalSort<u64>)
    ensures
        waiting(map).finite(),
        forall|entity: u64| waiting(map).contains(entity) <==> takes_part(items@, entity),
        forall|prec: u64, succ: u64|
            dependencies(map).contains((prec, succ)) <==> is_dependency(items@, prec, succ),
{
    let mut map = new_sort();
    let mut this: usize = 0;
    while this < items.len()
        invariant
            this <= items.len(),
            waiting(map).finite(),
            holds_ends_only(map),
            forall|prec: u64, succ: u64|
                dependencies(map).contains((prec, succ)) <==> is_dependency_before(
                    items@,
                    prec,
                    succ,
                    this as int,
                    0,
                ),
        decreases items.len() - this,
    {
        let this_entity = items[this].0;
        let this_item = &items[this].1;
        let mut other: usize = 0;
        if this_item.dimensions.height > 0 {
            while other < items.len()
                invariant
                    this < items.len(),
                    other <= items.len(),
                    this_entity == items@[this as int].0,
                    *this_item == items@[this as int].1,
                    is_sortable(items@[this as int]),
                    waiting(map).finite(),
                    holds_ends_only(map),
                    forall|prec: u64, succ: u64|
                        dependencies(map).contains((prec, succ)) <==> is_dependency_before(
                            items@,
                            prec,
                            succ,
                            this as int,
                            other as int,
                        ),
                decreases items.len() - other,
            {
                let entity_behind = items[other].0;
                let item = &items[other].1;
                let ghost before = map;
                if item.dimensions.height > 0 && CurrentCells::intersects(
                    this_item.behind.as_slice(),
                    item.underneath.as_slice(),
                ) {
                    add_dependency(&mut map, entity_behind, this_entity);
                    proof {
                        lemma_holds_ends_only_after_add(before, map, entity_behind, this_entity);
                    }
                    assert(depends_before(
                        items@,
                        other as int,
                        this as int,
                        this as int,
                        other + 1,
                    ));
                    assert(is_dependency_before(
                        items@,
                        entity_behind,
                        this_entity,
                        this as int,
                        other + 1,
                    ));
                }
                assert forall|prec: u64, succ: u64|
                    dependencies(map).contains((prec, succ)) <==> is_dependency_before(
                        items@,
                        prec,
                        succ,
                        this as int,
                        other + 1,
                    ) by {
                    lemma_dependency_before_step(
                        items@,
                        prec,
                        succ,
                        this as int,
                        other as int,
                        this as int,
                        other + 1,
                    );
                    if is_dependency_before(items@, prec, succ, this as int, other + 1)
                        && !is_dependency_before(items@, prec, succ, this as int, other as int) {
                        let (p, s) = choose|p: int, s: int| #[trigger]
                            depends_before(items@, p, s, this as int, other + 1) && items@[p].0
                                == prec && items@[s].0 == succ;
                        if p == other && s == this {
                        } else {
                            assert(depends_before(items@, p, s, this as int, other as int));
                        }
                    }
                }
                other = other + 1;
            }
        }
        assert forall|prec: u64, succ: u64|
            dependencies(map).contains((prec, succ)) <==> is_dependency_before(
                items@,
                prec,
                succ,
                this + 1,
                0,
            ) by {
            lemma_dependency_before_step(
                items@,
                prec,
                succ,
                this as int,
                other as int,
                this + 1,
                0,
            );
        }
        this = this + 1;
    }
    proof {
        assert forall|prec: u64, succ: u64|
            dependencies(map).contains((prec, succ)) <==> is_dependency(items@, prec, succ) by {
            if is_dependency_before(items@, prec, succ, this as int, 0) {
                let (p, s) = choose|p: int, s: int| #[trigger]
                    depends_before(items@, p, s, this as int, 0) && items@[p].0 == prec
                        && items@[s].0 == succ;
                assert(depends(items@, p, s));
            }
            if is_dependency(items@, prec, succ) {
                let (p, s) = choose|p: int, s: int| #[trigger]
                    depends(items@, p, s) && items@[p].0 == prec && items@[s].0 == succ;
                assert(depends_before(items@, p, s, this as int, 0));
            }
        }
        assert forall|entity: u64| waiting(map).contains(entity) <==> takes_part(
            items@,
            entity,
        ) by {
            if waiting(map).contains(entity) {
                let other = choose|other: u64|
                    #![trigger dependencies(map).contains((entity, other))]
                    #![trigger dependencies(map).contains((other, entity))]
                    dependencies(map).contains((entity, other)) || dependencies(map).contains(
                        (other, entity),
                    );
                assert(is_dependency(items@, entity, other) || is_dependency(
                    items@,
                    other,
                    entity,
                ));
            }
            if takes_part(items@, entity) {
                let other = choose|other: u64|
                    #![trigger is_dependency(items@, entity, other)]
                    #![trigger is_dependency(items@, other, entity)]
                    is_dependency(items@, entity, other) || is_dependency(items@, other, entity);
                assert(dependencies(map).contains((entity, other)) || dependencies(map).contains(
                    (other, entity),
                ));
            }
        }
    }
    map
}

/// No more entities take part in dependencies than there are sortable
/// items.
proof fn lemma_few_take_part(items: Seq<(u64, CurrentCells)>, taking_part: Set<u64>)
    requires
        items.len() <= usize::MAX,
        forall|entity: u64| taking_part.contains(entity) ==> takes_part(items, entity),
    ensures
        taking_part.finite(),
        taking_part.len() <= n_sortable(items),
{
    let indices = sortable_indices(items);
    let sortable = Seq::new(indices.len(), |k: int| items[indices[k] as int].0);
    lemma_sortable_indices(items);
    assert forall|entity: u64| taking_part.contains(entity) implies sortable.to_set().contains(
        entity,
    ) by {
        let other = choose|other: u64|
            #![trigger is_dependency(items, entity, other)]
            #![trigger is_dependency(items, other, entity)]
            is_dependency(items, entity, other) || is_dependency(items, other, entity);
        let place = if is_dependency(items, entity, other) {
            let (p, s) = choose|p: int, s: int| #[trigger]
                depends(items, p, s) && items[p].0 == entity && items[s].0 == other;
            p
        } else {
            let (p, s) = choose|p: int, s: int| #[trigger]
                depends(items, p, s) && items[p].0 == other && items[s].0 == entity;
            s
        };
        assert(is_sortable(items[place]) && items[place].0 == entity);
        let k = choose|k: int| 0 <= k < indices.len() && indices[k] == place as usize;
        assert(sortable[k] == entity);
    }
    sortable.lemma_cardinality_of_set();
    vstd::seq_lib::seq_to_set_is_finite(sortable);
    vstd::set_lib::lemma_len_subset(taking_part, sortable.to_set());
}

/// No entity of `stuck` stands among the first `k` of a topological order,
/// where each of `stuck` has to be drawn after another of them.
proof fn lemma_stuck_not_in_order(
    items: Seq<(u64, CurrentCells)>,
    order: Seq<u64>,
    stuck: Set<u64>,
    k: int,
)
    requires
        is_topological_order(items, order),
        0 <= k <= order.len(),
        forall|entity: u64|
            stuck.contains(entity) ==> exists|prec: u64|
                stuck.contains(prec) && #[trigger] is_dependency(items, prec, entity),
    ensures
        forall|i: int| 0 <= i < k ==> !stuck.contains(#[trigger] order[i]),
    decreases k,
{
    if k > 0 {
        lemma_stuck_not_in_order(items, order, stuck, k - 1);
        let last = order[k - 1];
        if stuck.contains(last) {
            let prec = choose|prec: u64|
                stuck.contains(prec) && #[trigger] is_dependency(items, prec, last);
            assert(takes_part(items, prec));
            assert(order.contains(prec));
            let j = choose|j: int| 0 <= j < order.len() && order[j] == prec;
            assert(j < k - 1);
        }
    }
}

/// Whether `sorted` is a valid start of an order of the graph `(all_waiting,
/// all_dependencies)`, and `(waiting, dependencies)` is what is left of the
/// graph once the entities of `sorted` are taken out.
spec fn is_sorted_part(
    all_waiting: Set<u64>,
    all_dependencies: Set<(u64, u64)>,
    waiting: Set<u64>,
    dependencies: Set<(u64, u64)>,
    sorted: Seq<u64>,
) -> bool {
    &&& sorted.no_duplicates()
    &&& forall|entity: u64|
        waiting.contains(entity) <==> all_waiting.contains(entity) && !sorted.contains(entity)
    &&& forall|entity: u64| sorted.contains(entity) ==> all_waiting.contains(entity)
    &&& forall|prec: u64, succ: u64|
        dependencies.contains((prec, succ)) <==> all_dependencies.contains((prec, succ))
            && !sorted.contains(prec)
    &&& forall|prec: u64, j: int|
        0 <= j < sorted.len() && #[trigger] all_dependencies.contains((prec, sorted[j]))
            ==> sorted.contains(prec)
    &&& forall|i: int, j: int|
        0 <= i < sorted.len() && 0 <= j < sorted.len() && all_dependencies.contains(
            (sorted[i], sorted[j]),
        ) ==> i < j
}

/// Taking out an entity that nothing left comes before extends the sorted
/// part by that entity.
proof fn lemma_sorted_part_grows(
    all_waiting: Set<u64>,
    all_dependencies: Set<(u64, u64)>,
    waiting: Set<u64>,
    dependencies: Set<(u64, u64)>,
    sorted: Seq<u64>,
    entity: u64,
    waiting_after: Set<u64>,
    dependencies_after: Set<(u64, u64)>,
)
    requires
        is_sorted_part(all_waiting, all_dependencies, waiting, dependencies, sorted),
        waiting.contains(entity),
        forall|prec: u64| !dependencies.contains((prec, entity)),
        waiting_after == waiting.remove(entity),
        forall|prec: u64, succ: u64|
            dependencies_after.contains((prec, succ)) <==> dependencies.contains((prec, succ))
                && prec != entity,
    ensures
        is_sorted_part(
            all_waiting,
            all_dependencies,
            waiting_after,
            dependencies_after,
            sorted.push(entity),
        ),
{
    let now = sorted.push(entity);
    let index = sorted.len() as int;
    assert(!sorted.contains(entity));
    assert forall|e: u64| now.contains(e) <==> sorted.contains(e) || e == entity by {
        if sorted.contains(e) {
            let i = choose|i: int| 0 <= i < sorted.len() && sorted[i] == e;
            assert(now[i] == e);
        }
        assert(now[index] == entity);
    }
    assert forall|prec: u64, j: int|
        0 <= j < now.len() && #[trigger] all_dependencies.contains((prec, now[j])) implies now.contains(
        prec,
    ) by {
        if j < index {
            assert(now[j] == sorted[j]);
        } else {
            assert(!dependencies.contains((prec, entity)));
        }
    }
    assert forall|i: int, j: int|
        0 <= i < now.len() && 0 <= j < now.len() && all_dependencies.contains(
            (now[i], now[j]),
        ) implies i < j by {
        if i < index && j < index {
            assert(now[i] == sorted[i] && now[j] == sorted[j]);
        } else if i == index {
            if j < index {
                assert(now[j] == sorted[j]);
                assert(all_dependencies.contains((entity, sorted[j])));
                assert(sorted.contains(entity));
            } else {
                assert(!dependencies.contains((entity, entity)));
            }
        }
    }
    assert forall|prec: u64, succ: u64|
        dependencies_after.contains((prec, succ)) <==> all_dependencies.contains((prec, succ))
            && !now.contains(prec) by {}
}

/// Once nothing is left of the graph of the dependencies among `items`, the
/// sorted part is a topological order.
proof fn lemma_sorted_part_complete(
    items: Seq<(u64, CurrentCells)>,
    all_waiting: Set<u64>,
    all_dependencies: Set<(u64, u64)>,
    waiting: Set<u64>,
    dependencies: Set<(u64, u64)>,
    sorted: Seq<u64>,
)
    requires
        is_sorted_part(all_waiting, all_dependencies, waiting, dependencies, sorted),
        forall|entity: u64| all_waiting.contains(entity) <==> takes_part(items, entity),
        forall|prec: u64, succ: u64|
            all_dependencies.contains((prec, succ)) <==> is_dependency(items, prec, succ),
        forall|entity: u64| !waiting.contains(entity),
    ensures
        is_topological_order(items, sorted),
{
}

/// While something is left of the graph of the dependencies among `items`
/// and each entity left has one left that comes before it, `items` have no
/// topological order.
proof fn lemma_stuck_has_no_order(
    items: Seq<(u64, CurrentCells)>,
    all_waiting: Set<u64>,
    all_dependencies: Set<(u64, u64)>,
    waiting: Set<u64>,
    dependencies: Set<(u64, u64)>,
    sorted: Seq<u64>,
    left: u64,
)
    requires
        is_sorted_part(all_waiting, all_dependencies, waiting, dependencies, sorted),
        forall|entity: u64| all_waiting.contains(entity) <==> takes_part(items, entity),
        forall|prec: u64, succ: u64|
            all_dependencies.contains((prec, succ)) <==> is_dependency(items, prec, succ),
        waiting.contains(left),
        forall|entity: u64|
            waiting.contains(entity) ==> exists|prec: u64| dependencies.contains((prec, entity)),
    ensures
        forall|order: Seq<u64>| !is_topological_order(items, order),
{
    assert forall|entity: u64| waiting.contains(entity) implies exists|prec: u64|
        waiting.contains(prec) && #[trigger] is_dependency(items, prec, entity) by {
        let prec = choose|prec: u64| dependencies.contains((prec, entity));
        assert(is_dependency(items, prec, entity));
        assert(takes_part(items, prec));
    }
    assert forall|order: Seq<u64>| !is_topological_order(items, order) by {
        if is_topological_order(items, order) {
            lemma_stuck_not_in_order(items, order, waiting, order.len() as int);
            assert(takes_part(items, left));
            assert(order.contains(left));
        }
    }
}

/// Sorts the items so that each is drawn after all that it hides.
///
/// An item takes part where it has a height and hides, or is hidden by,
/// another such item. The result lists each entity that takes part once,
/// with the depth of its place among all items that have a height; which of
/// several orders comes out is left open. Fails with `Cycle` exactly
/// where no such order exists.
pub fn sort_items_topological(items: &Vec<(u64, CurrentCells)>) -> (r: Result<
    Vec<(u64, Depth)>,
    Error,
>)
    ensures
        match r {
            Ok(depths) => is_topological_order(items@, entities(depths@)) && is_ranked(
                depths@,
                n_sortable(items@),
            ),
            Err(e) => e == Error::Cycle,
        },
        r is Ok <==> exists|order: Seq<u64>| is_topological_order(items@, order),
{
    let mut map = dependency_graph(items);
    let n_items = find_sortable(items).len();
    let ghost all = map;
    proof {
        assert(items@.len() == items.len());
        lemma_few_take_part(items@, waiting(all));
    }
    let mut depths: Vec<(u64, Depth)> = Vec::new();
    loop
        invariant
            n_items == n_sortable(items@),
            waiting(all).finite(),
            waiting(all).len() <= n_sortable(items@),
            forall|entity: u64| waiting(all).contains(entity) <==> takes_part(items@, entity),
            forall|prec: u64, succ: u64|
                dependencies(all).contains((prec, succ)) <==> is_dependency(items@, prec, succ),
            waiting(map).finite(),
            depths@.len() + waiting(map).len() == waiting(all).len(),
            is_ranked(depths@, n_sortable(items@)),
            is_sorted_part(
                waiting(all),
                dependencies(all),
                waiting(map),
                dependencies(map),
                entities(depths@),
            ),
        decreases waiting(map).len(),
    {
        let ghost before = map;
        let ghost sorted = entities(depths@);
        match pop(&mut map) {
            Some(entity) => {
                let index = depths.len();
                depths.push(assign_z(index, entity, n_items));
                proof {
                    assert(entities(depths@) == sorted.push(entity));
                    lemma_sorted_part_grows(
                        waiting(all),
                        dependencies(all),
                        waiting(before),
                        dependencies(before),
                        sorted,
                        entity,
                        waiting(map),
                        dependencies(map),
                    );
                }
            },
            None => {
                if len(&map) == 0 {
                    proof {
                        assert forall|entity: u64| !waiting(map).contains(entity) by {
                            if waiting(map).contains(entity) {
                                assert(waiting(map).remove(entity).len() + 1 == waiting(
                                    map,
                                ).len());
                            }
                        }
                        lemma_sorted_part_complete(
                            items@,
                            waiting(all),
                            dependencies(all),
                            waiting(map),
                            dependencies(map),
                            sorted,
                        );
                    }
                    return Ok(depths);
                }
                proof {
                    assert(waiting(map).len() != 0);
                    let left = waiting(map).choose();
                    lemma_stuck_has_no_order(
                        items@,
                        waiting(all),
                        dependencies(all),
                        waiting(map),
                        dependencies(map),
                        sorted,
                        left,
                    );
                }
                return Err(Error::Cycle);
            },
        }
    }
}

/// The rule by which one pass over the items decides which of two comes
/// first.
#[derive(Clone, Copy, Debug, PartialEq, Eq, Structural)]
pub enum Pass {
    /// The item whose main cell has the larger `y` comes first.
    Rows,
    /// The item that the other hides comes first; where neither hides the
    /// other, the one whose main cell has the smaller `y`. Two items that
    /// each hide part of the other are left as they stand.
    Hiding,
}

/// Whether a pass puts the item at place `a` before the item at place `b`
/// when it meets the two.
pub open spec fn comes_first(items: Seq<(u64, CurrentCells)>, pass: Pass, a: usize, b: usize) -> bool {
    let first = items[a as int].1;
    let second = items[b as int].1;
    match pass {
        Pass::Rows => first.main_cell.y > second.main_cell.y,
        Pass::Hiding => match first@.spec_compare(second@) {
            Ok(Relation::Less) => true,
            Ok(Relation::Incomparable) => first.main_cell.y < second.main_cell.y,
            _ => false,
        },
    }
}

/// The place at which a pass puts `place` into `sorted`: behind the last
/// entry that it does not come before.
pub open spec fn insert_place(
    items: Seq<(u64, CurrentCells)>,
    pass: Pass,
    sorted: Seq<usize>,
    place: usize,
) -> nat
    decreases sorted.len(),
{
    if sorted.len() > 0 && comes_first(items, pass, place, sorted.last()) {
        insert_place(items, pass, sorted.drop_last(), place)
    } else {
        sorted.len()
    }
}

/// The places `places` after a pass: each in turn is put into those before
/// it, which are in order already.
pub open spec fn sorted_by(items: Seq<(u64, CurrentCells)>, pass: Pass, places: Seq<usize>) -> Seq<
    usize,
>
    decreases places.len(),
{
    if places.len() == 0 {
        places
    } else {
        let before = sorted_by(items, pass, places.drop_last());
        before.insert(insert_place(items, pass, before, places.last()) as int, places.last())
    }
}

fn is_first(items: &Vec<(u64, CurrentCells)>, pass: Pass, a: usize, b: usize) -> (first: bool)
    requires
        a < items.len(),
        b < items.len(),
    ensures
        first == comes_first(items@, pass, a, b),
{
    let first = &items[a].1;
    let second = &items[b].1;
    match pass {
        Pass::Rows => first.main_cell.y > second.main_cell.y,
        Pass::Hiding => match first.compare(second) {
            Ok(Relation::Less) => true,
            Ok(Relation::Incomparable) => first.main_cell.y < second.main_cell.y,
            _ => false,
        },
    }
}

/// A pass keeps the places it is given: none is lost, added or repeated.
pub proof fn lemma_sorted_by_permutes(
    items: Seq<(u64, CurrentCells)>,
    pass: Pass,
    places: Seq<usize>,
)
    ensures
        sorted_by(items, pass, places).len() == places.len(),
        sorted_by(items, pass, places).to_multiset() == places.to_multiset(),
    decreases places.len(),
{
    if places.len() > 0 {
        let before = sorted_by(items, pass, places.drop_last());
        lemma_sorted_by_permutes(items, pass, places.drop_last());
        lemma_insert_place_bound(items, pass, before, places.last());
        vstd::seq_lib::to_multiset_insert(
            before,
            insert_place(items, pass, before, places.last()) as int,
            places.last(),
        );
        vstd::seq_lib::to_multiset_build(places.drop_last(), places.last());
        assert(places.drop_last().push(places.last()) == places);
    }
}

/// The place at which an entry is put lies within the sorted entries or
/// just behind them; the entry comes before each sorted entry from that
/// place on, and not before the one ahead of that place.
pub proof fn lemma_insert_place_bound(
    items: Seq<(u64, CurrentCells)>,
    pass: Pass,
    sorted: Seq<usize>,
    place: usize,
)
    ensures
        insert_place(items, pass, sorted, place) <= sorted.len(),
        forall|k: int|
            insert_place(items, pass, sorted, place) <= k < sorted.len() ==> comes_first(
                items,
                pass,
                place,
                #[trigger] sorted[k],
            ),
        insert_place(items, pass, sorted, place) > 0 ==> !comes_first(
            items,
            pass,
            place,
            sorted[insert_place(items, pass, sorted, place) - 1],
        ),
    decreases sorted.len(),
{
    if sorted.len() > 0 && comes_first(items, pass, place, sorted.last()) {
        let shorter = sorted.drop_last();
        lemma_insert_place_bound(items, pass, shorter, place);
        assert forall|k: int|
            insert_place(items, pass, sorted, place) <= k < sorted.len() implies comes_first(
            items,
            pass,
            place,
            #[trigger] sorted[k],
        ) by {
            if k < shorter.len() {
                assert(sorted[k] == shorter[k]);
            }
        }
        if insert_place(items, pass, sorted, place) > 0 {
            assert(sorted[insert_place(items, pass, sorted, place) - 1] == shorter[insert_place(
                items,
                pass,
                shorter,
                place,
            ) - 1]);
        }
    }
}

/// Runs one pass over `places`, which are places in `items`.
fn sort_places(items: &Vec<(u64, CurrentCells)>, pass: Pass, places: &Vec<usize>) -> (sorted: Vec<
    usize,
>)
    requires
        forall|k: int| 0 <= k < places@.len() ==> places@[k] < items@.len(),
    ensures
        sorted@ == sorted_by(items@, pass, places@),
        forall|k: int| 0 <= k < sorted@.len() ==> sorted@[k] < items@.len(),
{
    let mut sorted: Vec<usize> = Vec::new();
    let mut taken: usize = 0;
    while taken < places.len()
        invariant
            taken <= places.len(),
            forall|k: int| 0 <= k < places@.len() ==> places@[k] < items@.len(),
            forall|k: int| 0 <= k < sorted@.len() ==> sorted@[k] < items@.len(),
            sorted@ == sorted_by(items@, pass, places@.take(taken as int)),
        decreases places.len() - taken,
    {
        let place = places[taken];
        let mut at: usize = sorted.len();
        assert(sorted@.take(at as int) == sorted@);
        while at > 0 && is_first(items, pass, place, sorted[at - 1])
            invariant
                at <= sorted.len(),
                place < items.len(),
                forall|k: int| 0 <= k < sorted@.len() ==> sorted@[k] < items@.len(),
                insert_place(items@, pass, sorted@, place) == insert_place(
                    items@,
                    pass,
                    sorted@.take(at as int),
                    place,
                ),
            decreases at,
        {
            assert(sorted@.take(at as int).drop_last() == sorted@.take(at - 1));
            at = at - 1;
        }
        assert(places@.take(taken + 1).drop_last() == places@.take(taken as int));
        sorted.insert(at, place);
        taken = taken + 1;
    }
    assert(places@.take(taken as int) == places@);
    sorted
}

/// Whether the items at two different places both take part in the sort and
/// each hides part of the other.
pub open spec fn contradicts(items: Seq<(u64, CurrentCells)>, a: int, b: int) -> bool {
    &&& 0 <= a < items.len()
    &&& 0 <= b < items.len()
    &&& a != b
    &&& is_sortable(items[a])
    &&& is_sortable(items[b])
    &&& items[a].1@.hides(items[b].1@)
    &&& items[b].1@.hides(items[a].1@)
}

/// Whether some two of the items contradict each other.
pub open spec fn has_contradiction(items: Seq<(u64, CurrentCells)>) -> bool {
    exists|a: int, b: int| #[trigger] contradicts(items, a, b)
}

pub fn find_contradiction(items: &Vec<(u64, CurrentCells)>) -> (found: bool)
    ensures
        found == has_contradiction(items@),
{
    let mut a: usize = 0;
    while a < items.len()
        invariant
            a <= items.len(),
            forall|i: int, j: int| 0 <= i < a && i < j ==> !#[trigger] contradicts(items@, i, j),
        decreases items.len() - a,
    {
        let mut b: usize = a + 1;
        while b < items.len()
            invariant
                a < items.len(),
                a < b <= items.len(),
                forall|i: int, j: int|
                    0 <= i < a && i < j ==> !#[trigger] contradicts(items@, i, j),
                forall|j: int| a < j < b ==> !#[trigger] contradicts(items@, a as int, j),
            decreases items.len() - b,
        {
            if items[a].1.dimensions.height > 0 && items[b].1.dimensions.height > 0 {
                if items[a].1.compare(&items[b].1).is_err() {
                    assert(contradicts(items@, a as int, b as int));
                    return true;
                }
            }
            b = b + 1;
        }
        a = a + 1;
    }
    assert forall|i: int, j: int| !#[trigger] contradicts(items@, i, j) by {
        if contradicts(items@, i, j) {
            if i < j {
            } else {
                assert(contradicts(items@, j, i));
            }
        }
    }
    false
}

/// The places of the sortable items in the order of the sort by hiding:
/// a pass by rows, lowest first, and then a pass by hiding.
pub open spec fn hiding_order(items: Seq<(u64, CurrentCells)>) -> Seq<usize> {
    sorted_by(items, Pass::Hiding, sorted_by(items, Pass::Rows, sortable_indices(items)))
}

/// The entities of the items at `places`.
pub open spec fn entities_at(items: Seq<(u64, CurrentCells)>, places: Seq<usize>) -> Seq<u64> {
    Seq::new(places.len(), |k: int| items[places[k] as int].0)
}

/// Gives the entity at each of `places` the depth of its place among them.
fn rank(items: &Vec<(u64, CurrentCells)>, places: &Vec<usize>) -> (depths: Vec<(u64, Depth)>)
    requires
        forall|k: int| 0 <= k < places@.len() ==> places@[k] < items@.len(),
    ensures
        entities(depths@) == entities_at(items@, places@),
        is_ranked(depths@, places@.len()),
{
    let n_items = places.len();
    let mut depths: Vec<(u64, Depth)> = Vec::new();
    let mut index: usize = 0;
    while index < n_items
        invariant
            index <= n_items,
            n_items == places@.len(),
            forall|k: int| 0 <= k < places@.len() ==> places@[k] < items@.len(),
            depths@.len() == index,
            is_ranked(depths@, places@.len()),
            forall|k: int| 0 <= k < index ==> (#[trigger] depths@[k]).0 == items@[places@[k] as int].0,
        decreases n_items - index,
    {
        let entity = items[places[index]].0;
        depths.push(assign_z(index, entity, n_items));
        index = index + 1;
    }
    assert(entities(depths@) =~= entities_at(items@, places@));
    depths
}

/// Sorts the items that have a height by who hides whom.
///
/// There are two passes, each an insertion sort that keeps the order of
/// items it has no reason to swap. The first puts the items in the order of
/// the `y` of their main cells, largest first. The second takes them in that
/// order and moves each ahead of the item before it for as long as that
/// item hides it or, where neither hides the other, has the larger `y`.
/// Hiding is no total order, so the result need not respect every pair; no
/// item ends up directly after one that hides it. Each entity gets the
/// depth of its place. Fails with `Contradiction` exactly where two of the
/// items each hide part of the other.
pub fn sort_items_partial_cmp(items: &Vec<(u64, CurrentCells)>) -> (r: Result<
    Vec<(u64, Depth)>,
    Error,
>)
    ensures
        match r {
            Ok(depths) => entities(depths@) == entities_at(items@, hiding_order(items@))
                && is_ranked(depths@, n_sortable(items@)),
            Err(e) => e == Error::Contradiction,
        },
        r is Err <==> has_contradiction(items@),
        hiding_order(items@).to_multiset() == sortable_indices(items@).to_multiset(),
        is_settled(items@, Pass::Hiding, hiding_order(items@)),
{
    let total = items.len();
    let items_to_sort = find_sortable(items);
    proof {
        lemma_sortable_indices(items@);
        lemma_sorted_by_permutes(items@, Pass::Rows, items_to_sort@);
        lemma_sorted_by_permutes(
            items@,
            Pass::Hiding,
            sorted_by(items@, Pass::Rows, items_to_sort@),
        );
        lemma_sorted_by_neighbours(
            items@,
            Pass::Hiding,
            sorted_by(items@, Pass::Rows, items_to_sort@),
        );
    }
    if find_contradiction(items) {
        return Err(Error::Contradiction);
    }
    let by_rows = sort_places(items, Pass::Rows, &items_to_sort);
    let sorted = sort_places(items, Pass::Hiding, &by_rows);
    Ok(rank(items, &sorted))
}

/// A pass never puts each of two items before the other.
pub proof fn lemma_comes_first_one_way(
    items: Seq<(u64, CurrentCells)>,
    pass: Pass,
    a: usize,
    b: usize,
)
    ensures
        !(comes_first(items, pass, a, b) && comes_first(items, pass, b, a)),
{
}

/// Whether no entry of `places` stands directly after one that the pass
/// would put it before.
pub open spec fn is_settled(items: Seq<(u64, CurrentCells)>, pass: Pass, places: Seq<usize>) -> bool {
    forall|k: int|
        #![trigger places[k]]
        0 <= k && k + 1 < places.len() ==> !comes_first(items, pass, places[k + 1], places[k])
}

/// After a pass no item stands directly after one that it comes before.
pub proof fn lemma_sorted_by_neighbours(
    items: Seq<(u64, CurrentCells)>,
    pass: Pass,
    places: Seq<usize>,
)
    ensures
        is_settled(items, pass, sorted_by(items, pass, places)),
    decreases places.len(),
{
    if places.len() > 0 {
        let before = sorted_by(items, pass, places.drop_last());
        let entry = places.last();
        let at = insert_place(items, pass, before, entry) as int;
        let after = sorted_by(items, pass, places);
        lemma_sorted_by_neighbours(items, pass, places.drop_last());
        lemma_insert_place_bound(items, pass, before, entry);
        assert(after == before.insert(at, entry));
        assert forall|k: int| 0 <= k && k + 1 < after.len() implies !comes_first(
            items,
            pass,
            after[k + 1],
            #[trigger] after[k],
        ) by {
            if k + 1 < at {
                assert(after[k] == before[k] && after[k + 1] == before[k + 1]);
            } else if k + 1 == at {
                assert(after[k] == before[at - 1] && after[k + 1] == entry);
            } else if k == at {
                assert(after[k] == entry && after[k + 1] == before[at]);
                lemma_comes_first_one_way(items, pass, entry, before[at]);
            } else {
                assert(after[k] == before[k - 1] && after[k + 1] == before[k]);
            }
        }
    }
}

/// In a topological order with its depths, an item that hides part of
/// another has the larger depth of the two.
pub proof fn lemma_topological_depths_agree(
    items: Seq<(u64, CurrentCells)>,
    depths: Seq<(u64, Depth)>,
    front: int,
    back: int,
    i: int,
    j: int,
)
    requires
        is_topological_order(items, entities(depths)),
        is_ranked(depths, n_sortable(items)),
        0 <= front < items.len(),
        0 <= back < items.len(),
        is_sortable(items[front]),
        is_sortable(items[back]),
        items[front].1@.hides(items[back].1@),
        0 <= i < depths.len(),
        0 <= j < depths.len(),
        depths[i].0 == items[front].0,
        depths[j].0 == items[back].0,
    ensures
        depths[j].1.spec_lt(depths[i].1),
{
    assert(depends(items, back, front));
    assert(is_dependency(items, items[back].0, items[front].0));
    assert(entities(depths)[j] == items[back].0 && entities(depths)[i] == items[front].0);
    assert(j < i);
    assert(depths[i].1.is_valid());
    depths[j].1.lemma_lt_is_index_order(depths[i].1);
}

} // verus!
