//! Sorting the rows of every level of the tree.

use crate::order::{
    lemma_column_sign_of_figures, lemma_precedes_one_way, lemma_precedes_transitive, precedes,
    registered, row_precedes, ties, SortSpec,
};
use crate::laws::lemma_distinct_pairs;
use crate::stats::{distinct_keys, nodes_of, GroupedStats, Node};
use vstd::prelude::*;

verus! {

/// A sorted list with one more row: the row goes behind the last row that it does not have
/// to come before.
pub open spec fn inserted(
    sorted: Seq<Node>,
    node: Node,
    rule: SortSpec,
    registry: Map<u32, (Seq<char>, Seq<char>)>,
) -> Seq<Node>
    decreases sorted.len(),
{
    if sorted.len() > 0 && precedes(rule, registry, node, sorted.last()) {
        inserted(sorted.drop_last(), node, rule, registry).push(sorted.last())
    } else {
        sorted.push(node)
    }
}

/// The rows of one list in sorted order: each row, in turn, is [`inserted`] among those
/// before it. A row moves ahead of an earlier row only where it has to come before it.
pub open spec fn sorted_level(
    nodes: Seq<Node>,
    rule: SortSpec,
    registry: Map<u32, (Seq<char>, Seq<char>)>,
) -> Seq<Node>
    decreases nodes.len(),
{
    if nodes.len() == 0 {
        nodes
    } else {
        inserted(sorted_level(nodes.drop_last(), rule, registry), nodes.last(), rule, registry)
    }
}

/// A row with the rows nested in it sorted on every level.
pub open spec fn sorted_node(
    node: Node,
    rule: SortSpec,
    registry: Map<u32, (Seq<char>, Seq<char>)>,
) -> Node
    decreases node,
{
    Node { children: sorted_tree(node.children, rule, registry), ..node }
}

/// The rows of a list with the rows nested in each sorted on every level, in their old
/// order on this level.
pub open spec fn sorted_below(
    nodes: Seq<Node>,
    rule: SortSpec,
    registry: Map<u32, (Seq<char>, Seq<char>)>,
) -> Seq<Node>
    decreases nodes, 0nat,
{
    Seq::new(
        nodes.len(),
        |i: int|
            if 0 <= i < nodes.len() {
                sorted_node(nodes[i], rule, registry)
            } else {
                arbitrary()
            },
    )
}

/// The tree with every list sorted, on every level.
pub open spec fn sorted_tree(
    nodes: Seq<Node>,
    rule: SortSpec,
    registry: Map<u32, (Seq<char>, Seq<char>)>,
) -> Seq<Node>
    decreases nodes, 1nat,
{
    sorted_level(sorted_below(nodes, rule, registry), rule, registry)
}

/// Where a row has to come before every row of a list from `at` on, it is put among the
/// rows before `at`, and the rows from `at` on follow.
proof fn lemma_inserted_split(
    sorted: Seq<Node>,
    node: Node,
    rule: SortSpec,
    registry: Map<u32, (Seq<char>, Seq<char>)>,
    at: int,
)
    requires
        0 <= at <= sorted.len(),
        forall|j: int| at <= j < sorted.len() ==> precedes(rule, registry, node, #[trigger] sorted[j]),
    ensures
        inserted(sorted, node, rule, registry) == inserted(
            sorted.take(at),
            node,
            rule,
            registry,
        ) + sorted.skip(at),
    decreases sorted.len() - at,
{
    if at == sorted.len() {
        assert(sorted.take(at) =~= sorted);
        assert(inserted(sorted, node, rule, registry) + sorted.skip(at) =~= inserted(
            sorted,
            node,
            rule,
            registry,
        ));
    } else {
        let front = sorted.drop_last();
        assert(precedes(rule, registry, node, sorted[sorted.len() - 1]));
        assert forall|j: int| at <= j < front.len() implies precedes(
            rule,
            registry,
            node,
            #[trigger] front[j],
        ) by {
            assert(front[j] == sorted[j]);
        }
        lemma_inserted_split(front, node, rule, registry, at);
        assert(front.take(at) =~= sorted.take(at));
        assert((inserted(front.take(at), node, rule, registry) + front.skip(at)).push(
            sorted.last(),
        ) =~= inserted(sorted.take(at), node, rule, registry) + sorted.skip(at));
    }
}

/// Sorts the rows of one list, leaving the rows nested in them as they are.
pub fn sort_level<'a>(
    stats: &mut Vec<GroupedStats<'a>>,
    scope_infos: &puffin::ScopeCollection,
    rule: SortSpec,
)
    ensures
        nodes_of(final(stats)@) == sorted_level(
            nodes_of(old(stats)@),
            rule,
            registered(*scope_infos),
        ),
{
    let ghost registry = registered(*scope_infos);
    let ghost start = nodes_of(stats@);
    let mut done: usize = 0;
    proof {
        assert(start.take(0) =~= Seq::<Node>::empty());
        assert(start.skip(0) =~= start);
        assert(sorted_level(start.take(0), rule, registry) + start.skip(0) =~= start);
    }
    while done < stats.len()
        invariant
            registry == registered(*scope_infos),
            start == nodes_of(old(stats)@),
            done <= stats.len(),
            stats.len() == start.len(),
            nodes_of(stats@) == sorted_level(start.take(done as int), rule, registry) + start.skip(
                done as int,
            ),
            sorted_level(start.take(done as int), rule, registry).len() == done,
        decreases stats.len() - done,
    {
        let ghost rows = nodes_of(stats@);
        let ghost front = sorted_level(start.take(done as int), rule, registry);
        let ghost node = start[done as int];
        proof {
            assert(rows[done as int] == node);
            assert(rows.take(done as int) =~= front);
        }
        let mut at: usize = done;
        while at > 0 && row_precedes(rule, scope_infos, &stats[done], &stats[at - 1])
            invariant
                registry == registered(*scope_infos),
                rows == nodes_of(stats@),
                done < stats.len(),
                at <= done,
                rows[done as int] == node,
                rows.take(done as int) == front,
                forall|j: int| at <= j < done ==> precedes(rule, registry, node, #[trigger] front[j]),
            decreases at,
        {
            proof {
                assert(rows[at - 1] == stats@[at - 1]@);
                assert(rows[done as int] == stats@[done as int]@);
                assert(front[at - 1] == rows[at - 1]);
            }
            at -= 1;
        }
        proof {
            assert(front.len() == done);
            lemma_inserted_split(front, node, rule, registry, at as int);
            if at > 0 {
                assert(rows[at - 1] == stats@[at - 1]@);
                assert(rows[done as int] == stats@[done as int]@);
                assert(front[at - 1] == rows[at - 1]);
                assert(front.take(at as int).last() == front[at - 1]);
            }
            assert(inserted(front.take(at as int), node, rule, registry) == front.take(
                at as int,
            ).push(node));
            assert(start.take(done + 1).drop_last() =~= start.take(done as int));
            assert(start.take(done + 1).last() == node);
        }
        if at < done {
            let ghost before = stats@;
            let row = stats.remove(done);
            stats.insert(at, row);
            proof {
                assert(nodes_of(stats@) =~= (front.take(at as int).push(node) + front.skip(
                    at as int,
                )) + start.skip(done + 1)) by {
                    assert forall|j: int| 0 <= j < stats@.len() implies nodes_of(stats@)[j] == ((
                    front.take(at as int).push(node) + front.skip(at as int)) + start.skip(
                        done + 1,
                    ))[j] by {
                        if j < at {
                            assert(stats@[j] == before[j]);
                            assert(rows[j] == before[j]@);
                        } else if j == at {
                            assert(stats@[j] == before[done as int]);
                            assert(rows[done as int] == before[done as int]@);
                        } else if j <= done {
                            assert(stats@[j] == before[j - 1]);
                            assert(rows[j - 1] == before[j - 1]@);
                            assert(front[j - 1] == rows[j - 1]);
                        } else {
                            assert(stats@[j] == before[j]);
                            assert(rows[j] == before[j]@);
                        }
                    }
                }
            }
        } else {
            proof {
                assert(nodes_of(stats@) =~= (front.take(at as int).push(node) + front.skip(
                    at as int,
                )) + start.skip(done + 1));
            }
        }
        proof {
            assert(sorted_level(start.take(done + 1), rule, registry) == front.take(
                at as int,
            ).push(node) + front.skip(at as int));
        }
        done += 1;
    }
    proof {
        assert(start.take(done as int) =~= start);
        assert(sorted_level(start, rule, registry) + start.skip(done as int) =~= sorted_level(
            start,
            rule,
            registry,
        ));
    }
}

/// Sorts the rows of every level of the tree: the rows nested in each row first, then the
/// list itself.
pub fn sort_grouped_stats<'a>(
    stats: &mut Vec<GroupedStats<'a>>,
    scope_infos: &puffin::ScopeCollection,
    rule: SortSpec,
)
    ensures
        nodes_of(final(stats)@) == sorted_tree(
            nodes_of(old(stats)@),
            rule,
            registered(*scope_infos),
        ),
    decreases old(stats)@,
{
    let ghost registry = registered(*scope_infos);
    let ghost start = nodes_of(stats@);
    let mut index: usize = 0;
    while index < stats.len()
        invariant
            registry == registered(*scope_infos),
            start == nodes_of(old(stats)@),
            index <= stats.len(),
            stats.len() == old(stats).len(),
            forall|j: int| 0 <= j < index ==> (#[trigger] stats@[j])@ == sorted_node(start[j], rule, registry),
            forall|j: int| index <= j < stats.len() ==> #[trigger] stats@[j] == old(stats)@[j],
        decreases stats.len() - index,
    {
        let ghost before = stats@;
        sort_grouped_stats(&mut stats[index].children, scope_infos, rule);
        proof {
            assert(stats@[index as int].key == before[index as int].key);
            assert(stats@[index as int].scope_stats == before[index as int].scope_stats);
            assert(start[index as int] == before[index as int]@);
            assert forall|j: int| 0 <= j < index implies (#[trigger] stats@[j])@ == sorted_node(
                start[j],
                rule,
                registry,
            ) by {
                assert(stats@[j] == before[j]);
            }
            assert forall|j: int| index < j < stats.len() implies #[trigger] stats@[j] == old(
                stats,
            )@[j] by {
                assert(stats@[j] == before[j]);
            }
        }
        index += 1;
    }
    proof {
        assert(nodes_of(stats@) =~= sorted_below(start, rule, registry));
    }
    sort_level(stats, scope_infos, rule);
}

/// The places that the first `upto` rows of a list take when one more row is put among rows
/// at the given places: the row goes behind the last row that it does not have to come
/// before.
pub open spec fn inserted_place(
    places: Seq<int>,
    place: int,
    nodes: Seq<Node>,
    rule: SortSpec,
    registry: Map<u32, (Seq<char>, Seq<char>)>,
) -> Seq<int>
    decreases places.len(),
{
    if places.len() > 0 && precedes(rule, registry, nodes[place], nodes[places.last()]) {
        inserted_place(places.drop_last(), place, nodes, rule, registry).push(places.last())
    } else {
        places.push(place)
    }
}

/// For each place of the sorted list of the first `upto` rows, the place that its row had
/// before sorting.
pub open spec fn sorted_places(
    nodes: Seq<Node>,
    upto: nat,
    rule: SortSpec,
    registry: Map<u32, (Seq<char>, Seq<char>)>,
) -> Seq<int>
    decreases upto,
{
    if upto == 0 {
        Seq::empty()
    } else {
        inserted_place(
            sorted_places(nodes, (upto - 1) as nat, rule, registry),
            upto - 1,
            nodes,
            rule,
            registry,
        )
    }
}

/// The rows at the given places of a list.
pub open spec fn rows_at(nodes: Seq<Node>, places: Seq<int>) -> Seq<Node> {
    Seq::new(places.len(), |k: int| nodes[places[k]])
}

/// Whether `places` lists each of the first `upto` places once, and lists a later place
/// before an earlier one only where the later row has to come before the earlier.
pub open spec fn stable_places(
    nodes: Seq<Node>,
    places: Seq<int>,
    upto: int,
    rule: SortSpec,
    registry: Map<u32, (Seq<char>, Seq<char>)>,
) -> bool {
    &&& places.len() == upto
    &&& forall|k: int| 0 <= k < places.len() ==> 0 <= #[trigger] places[k] < upto
    &&& forall|k: int, l: int|
        0 <= k < l < places.len() ==> #[trigger] places[k] != #[trigger] places[l] && (places[k]
            > places[l] ==> precedes(rule, registry, nodes[places[k]], nodes[places[l]]))
}

/// Where a place is put among sorted places: behind all those whose row it need not come
/// before, ahead of the rest.
pub proof fn lemma_inserted_place_at(
    places: Seq<int>,
    place: int,
    nodes: Seq<Node>,
    rule: SortSpec,
    registry: Map<u32, (Seq<char>, Seq<char>)>,
) -> (at: int)
    ensures
        0 <= at <= places.len(),
        inserted_place(places, place, nodes, rule, registry) == places.take(at).push(place)
            + places.skip(at),
        forall|l: int|
            at <= l < places.len() ==> precedes(
                rule,
                registry,
                nodes[place],
                nodes[#[trigger] places[l]],
            ),
        at > 0 ==> !precedes(rule, registry, nodes[place], nodes[places[at - 1]]),
    decreases places.len(),
{
    if places.len() > 0 && precedes(rule, registry, nodes[place], nodes[places.last()]) {
        let front = places.drop_last();
        let at = lemma_inserted_place_at(front, place, nodes, rule, registry);
        assert(front.take(at) =~= places.take(at));
        assert((front.take(at).push(place) + front.skip(at)).push(places.last())
            =~= places.take(at).push(place) + places.skip(at));
        assert forall|l: int| at <= l < places.len() implies precedes(
            rule,
            registry,
            nodes[place],
            nodes[#[trigger] places[l]],
        ) by {
            if l < front.len() {
                assert(front[l] == places[l]);
            }
        }
        if at > 0 {
            assert(front[at - 1] == places[at - 1]);
        }
        at
    } else {
        let at = places.len() as int;
        assert(places.take(at) =~= places);
        assert(places.push(place) + places.skip(at) =~= places.push(place));
        at
    }
}

/// The sorted list holds the rows of the old list at the sorted places.
pub proof fn lemma_sorted_level_places(
    nodes: Seq<Node>,
    upto: nat,
    rule: SortSpec,
    registry: Map<u32, (Seq<char>, Seq<char>)>,
)
    requires
        upto <= nodes.len(),
    ensures
        sorted_level(nodes.take(upto as int), rule, registry) == rows_at(
            nodes,
            sorted_places(nodes, upto, rule, registry),
        ),
        sorted_places(nodes, upto, rule, registry).len() == upto,
    decreases upto,
{
    if upto == 0 {
        assert(rows_at(nodes, Seq::<int>::empty()) =~= Seq::<Node>::empty());
        assert(nodes.take(0) =~= Seq::<Node>::empty());
    } else {
        let before = sorted_places(nodes, (upto - 1) as nat, rule, registry);
        lemma_sorted_level_places(nodes, (upto - 1) as nat, rule, registry);
        assert(nodes.take(upto as int).drop_last() =~= nodes.take(upto - 1));
        assert(nodes.take(upto as int).last() == nodes[upto - 1]);
        lemma_inserted_rows_at(nodes, before, upto - 1, rule, registry);
    }
}

/// Putting a row among the rows at given places is putting its place among the places.
pub proof fn lemma_inserted_rows_at(
    nodes: Seq<Node>,
    places: Seq<int>,
    place: int,
    rule: SortSpec,
    registry: Map<u32, (Seq<char>, Seq<char>)>,
)
    ensures
        inserted(rows_at(nodes, places), nodes[place], rule, registry) == rows_at(
            nodes,
            inserted_place(places, place, nodes, rule, registry),
        ),
        inserted_place(places, place, nodes, rule, registry).len() == places.len() + 1,
    decreases places.len(),
{
    let rows = rows_at(nodes, places);
    if places.len() > 0 && precedes(rule, registry, nodes[place], nodes[places.last()]) {
        lemma_inserted_rows_at(nodes, places.drop_last(), place, rule, registry);
        assert(rows.drop_last() =~= rows_at(nodes, places.drop_last()));
        assert(rows.last() == nodes[places.last()]);
        assert(rows_at(
            nodes,
            inserted_place(places.drop_last(), place, nodes, rule, registry),
        ).push(rows.last()) =~= rows_at(
            nodes,
            inserted_place(places, place, nodes, rule, registry),
        ));
    } else {
        if places.len() > 0 {
            assert(rows.last() == nodes[places.last()]);
        }
        assert(rows.push(nodes[place]) =~= rows_at(nodes, places.push(place)));
    }
}

/// Stability. Sorting moves every row of the list to one place of the sorted list, and
/// moves a row ahead of an earlier row only where it has to come before that row: rows
/// that tie keep the order they had.
pub proof fn lemma_sort_is_stable(
    nodes: Seq<Node>,
    upto: nat,
    rule: SortSpec,
    registry: Map<u32, (Seq<char>, Seq<char>)>,
)
    requires
        upto <= nodes.len(),
    ensures
        stable_places(nodes, sorted_places(nodes, upto, rule, registry), upto as int, rule, registry),
    decreases upto,
{
    if upto > 0 {
        let before = sorted_places(nodes, (upto - 1) as nat, rule, registry);
        let place = upto - 1;
        lemma_sort_is_stable(nodes, (upto - 1) as nat, rule, registry);
        let at = lemma_inserted_place_at(before, place, nodes, rule, registry);
        let after = before.take(at).push(place) + before.skip(at);
        assert forall|k: int| 0 <= k < after.len() implies 0 <= #[trigger] after[k] < upto by {
            if k < at {
                assert(after[k] == before[k]);
            } else if k > at {
                assert(after[k] == before[k - 1]);
            }
        }
        assert forall|k: int, l: int| 0 <= k < l < after.len() implies #[trigger] after[k]
            != #[trigger] after[l] && (after[k] > after[l] ==> precedes(
            rule,
            registry,
            nodes[after[k]],
            nodes[after[l]],
        )) by {
            let from_k = if k < at {
                k
            } else {
                k - 1
            };
            let from_l = if l < at {
                l
            } else {
                l - 1
            };
            if k != at {
                assert(after[k] == before[from_k]);
            }
            if l != at {
                assert(after[l] == before[from_l]);
            }
        }
    }
}

/// Whether no two of the first `upto` rows tie.
pub open spec fn no_ties(
    nodes: Seq<Node>,
    upto: int,
    rule: SortSpec,
    registry: Map<u32, (Seq<char>, Seq<char>)>,
) -> bool {
    forall|i: int, j: int|
        0 <= i < j < upto ==> !ties(rule.column, registry, #[trigger] nodes[i], #[trigger] nodes[j])
}

/// Whether every row of the list has to come before every row behind it.
pub open spec fn strictly_sorted(
    nodes: Seq<Node>,
    rule: SortSpec,
    registry: Map<u32, (Seq<char>, Seq<char>)>,
) -> bool {
    forall|k: int, l: int|
        0 <= k < l < nodes.len() ==> precedes(rule, registry, #[trigger] nodes[k], #[trigger] nodes[l])
}

/// Where no two rows tie, every row at a sorted place has to come before every row behind
/// it.
pub proof fn lemma_sorted_places_strict(
    nodes: Seq<Node>,
    upto: nat,
    rule: SortSpec,
    registry: Map<u32, (Seq<char>, Seq<char>)>,
)
    requires
        upto <= nodes.len(),
        no_ties(nodes, upto as int, rule, registry),
    ensures
        forall|k: int, l: int|
            0 <= k < l < upto ==> precedes(
                rule,
                registry,
                nodes[#[trigger] sorted_places(nodes, upto, rule, registry)[k]],
                nodes[#[trigger] sorted_places(nodes, upto, rule, registry)[l]],
            ),
        sorted_places(nodes, upto, rule, registry).len() == upto,
    decreases upto,
{
    if upto > 0 {
        let before = sorted_places(nodes, (upto - 1) as nat, rule, registry);
        let place = upto - 1;
        lemma_sorted_places_strict(nodes, (upto - 1) as nat, rule, registry);
        lemma_sort_is_stable(nodes, (upto - 1) as nat, rule, registry);
        let at = lemma_inserted_place_at(before, place, nodes, rule, registry);
        let after = before.take(at).push(place) + before.skip(at);
        assert(after == sorted_places(nodes, upto, rule, registry));
        assert forall|k: int, l: int| 0 <= k < l < upto implies precedes(
            rule,
            registry,
            nodes[#[trigger] after[k]],
            nodes[#[trigger] after[l]],
        ) by {
            if l == at {
                // The new row behind an old one.
                assert(after[k] == before[k]);
                assert(after[l] == place);
                let stop = before[at - 1];
                assert(0 <= stop < place);
                assert(!ties(rule.column, registry, nodes[stop], nodes[place]));
                lemma_precedes_one_way(rule, registry, nodes[stop], nodes[place]);
                if k < at - 1 {
                    assert(precedes(rule, registry, nodes[before[k]], nodes[before[at - 1]]));
                    lemma_precedes_transitive(
                        rule,
                        registry,
                        nodes[before[k]],
                        nodes[stop],
                        nodes[place],
                    );
                }
            } else if k == at {
                assert(after[l] == before[l - 1]);
            } else {
                let from_k = if k < at {
                    k
                } else {
                    k - 1
                };
                let from_l = if l < at {
                    l
                } else {
                    l - 1
                };
                assert(after[k] == before[from_k]);
                assert(after[l] == before[from_l]);
            }
        }
    }
}

/// Where no two rows tie, the sorted list is strictly sorted.
pub proof fn lemma_sorted_level_strict(
    nodes: Seq<Node>,
    rule: SortSpec,
    registry: Map<u32, (Seq<char>, Seq<char>)>,
)
    requires
        no_ties(nodes, nodes.len() as int, rule, registry),
    ensures
        strictly_sorted(sorted_level(nodes, rule, registry), rule, registry),
        sorted_level(nodes, rule, registry).len() == nodes.len(),
{
    lemma_sorted_level_places(nodes, nodes.len(), rule, registry);
    lemma_sorted_places_strict(nodes, nodes.len(), rule, registry);
    assert(nodes.take(nodes.len() as int) =~= nodes);
    let places = sorted_places(nodes, nodes.len(), rule, registry);
    let sorted = sorted_level(nodes, rule, registry);
    assert forall|k: int, l: int| 0 <= k < l < sorted.len() implies precedes(
        rule,
        registry,
        #[trigger] sorted[k],
        #[trigger] sorted[l],
    ) by {
        assert(sorted[k] == nodes[places[k]]);
        assert(sorted[l] == nodes[places[l]]);
    }
}

/// The sort rule with the direction turned round.
pub open spec fn turned(rule: SortSpec) -> SortSpec {
    SortSpec { column: rule.column, ascending: !rule.ascending }
}

/// A strictly sorted list, sorted in the other direction, is the list back to front.
pub proof fn lemma_sorting_back_reverses(
    nodes: Seq<Node>,
    rule: SortSpec,
    registry: Map<u32, (Seq<char>, Seq<char>)>,
)
    requires
        strictly_sorted(nodes, rule, registry),
    ensures
        sorted_level(nodes, turned(rule), registry) == nodes.reverse(),
    decreases nodes.len(),
{
    if nodes.len() == 0 {
        assert(nodes.reverse() =~= nodes);
    } else {
        let front = nodes.drop_last();
        let last = nodes.last();
        assert forall|k: int, l: int| 0 <= k < l < front.len() implies precedes(
            rule,
            registry,
            #[trigger] front[k],
            #[trigger] front[l],
        ) by {
            assert(front[k] == nodes[k]);
            assert(front[l] == nodes[l]);
        }
        lemma_sorting_back_reverses(front, rule, registry);
        let back = front.reverse();
        assert forall|j: int| 0 <= j < back.len() implies precedes(
            turned(rule),
            registry,
            last,
            #[trigger] back[j],
        ) by {
            let k = front.len() - 1 - j;
            assert(back[j] == nodes[k]);
            assert(precedes(rule, registry, nodes[k], nodes[nodes.len() - 1]));
            lemma_precedes_one_way(rule, registry, nodes[k], last);
        }
        lemma_inserted_split(back, last, turned(rule), registry, 0);
        assert(back.take(0) =~= Seq::<Node>::empty());
        assert(back.skip(0) =~= back);
        assert(Seq::<Node>::empty().push(last) + back =~= nodes.reverse());
    }
}

/// Reversal. Where no two rows of a list tie, sorting it in one direction and then in the
/// other gives the first result back to front.
pub proof fn lemma_sort_reverses(
    nodes: Seq<Node>,
    rule: SortSpec,
    registry: Map<u32, (Seq<char>, Seq<char>)>,
)
    requires
        no_ties(nodes, nodes.len() as int, rule, registry),
    ensures
        sorted_level(sorted_level(nodes, rule, registry), turned(rule), registry) == sorted_level(
            nodes,
            rule,
            registry,
        ).reverse(),
{
    lemma_sorted_level_strict(nodes, rule, registry);
    lemma_sorting_back_reverses(sorted_level(nodes, rule, registry), rule, registry);
}

/// Whether no two rows of one list tie, on every level of the tree.
pub open spec fn no_ties_tree(
    nodes: Seq<Node>,
    rule: SortSpec,
    registry: Map<u32, (Seq<char>, Seq<char>)>,
) -> bool
    decreases nodes,
{
    &&& no_ties(nodes, nodes.len() as int, rule, registry)
    &&& forall|i: int|
        0 <= i < nodes.len() ==> no_ties_tree((#[trigger] nodes[i]).children, rule, registry)
}

/// The tree with every list back to front, on every level.
pub open spec fn mirrored(nodes: Seq<Node>) -> Seq<Node>
    decreases nodes,
{
    Seq::new(
        nodes.len(),
        |k: int|
            if 0 <= k < nodes.len() {
                Node {
                    children: mirrored(nodes[nodes.len() - 1 - k].children),
                    ..nodes[nodes.len() - 1 - k]
                }
            } else {
                arbitrary()
            },
    )
}

/// Reversal on every level. Where no two rows of one list tie, on any level, sorting the
/// tree in one direction and then in the other gives the first result with every list back
/// to front.
pub proof fn lemma_sort_reverses_every_level(
    nodes: Seq<Node>,
    rule: SortSpec,
    registry: Map<u32, (Seq<char>, Seq<char>)>,
)
    requires
        no_ties_tree(nodes, rule, registry),
    ensures
        sorted_tree(sorted_tree(nodes, rule, registry), turned(rule), registry) == mirrored(
            sorted_tree(nodes, rule, registry),
        ),
    decreases nodes,
{
    let below = sorted_below(nodes, rule, registry);
    let sorted = sorted_level(below, rule, registry);
    let places = sorted_places(below, below.len(), rule, registry);
    assert(sorted == sorted_tree(nodes, rule, registry));
    assert forall|i: int, j: int| 0 <= i < j < below.len() implies !ties(
        rule.column,
        registry,
        #[trigger] below[i],
        #[trigger] below[j],
    ) by {
        assert(!ties(rule.column, registry, nodes[i], nodes[j]));
        lemma_column_sign_of_figures(rule.column, registry, below[i], below[j], nodes[i], nodes[j]);
    }
    lemma_sorted_level_strict(below, rule, registry);
    lemma_sorted_level_places(below, below.len(), rule, registry);
    lemma_sort_is_stable(below, below.len(), rule, registry);
    assert(below.take(below.len() as int) =~= below);
    let back = sorted_below(sorted, turned(rule), registry);
    assert forall|k: int| 0 <= k < sorted.len() implies (#[trigger] back[k]).key == sorted[k].key
        && back[k].stats == sorted[k].stats && back[k].children == mirrored(
        sorted[k].children,
    ) by {
        let i = places[k];
        assert(0 <= i < nodes.len());
        assert(sorted[k] == below[i]);
        assert(no_ties_tree(nodes[i].children, rule, registry));
        lemma_sort_reverses_every_level(nodes[i].children, rule, registry);
    }
    assert forall|k: int, l: int| 0 <= k < l < back.len() implies precedes(
        rule,
        registry,
        #[trigger] back[k],
        #[trigger] back[l],
    ) by {
        assert(precedes(rule, registry, sorted[k], sorted[l]));
        lemma_column_sign_of_figures(
            rule.column,
            registry,
            back[k],
            back[l],
            sorted[k],
            sorted[l],
        );
    }
    lemma_sorting_back_reverses(back, rule, registry);
    assert(back.reverse() =~= mirrored(sorted));
}

/// Sorting keeps the keys of the rows distinct on every level.
pub proof fn lemma_sorted_tree_distinct(
    nodes: Seq<Node>,
    rule: SortSpec,
    registry: Map<u32, (Seq<char>, Seq<char>)>,
)
    requires
        distinct_keys(nodes),
    ensures
        distinct_keys(sorted_tree(nodes, rule, registry)),
    decreases nodes,
{
    let below = sorted_below(nodes, rule, registry);
    let sorted = sorted_level(below, rule, registry);
    let places = sorted_places(below, below.len(), rule, registry);
    lemma_distinct_pairs(nodes);
    assert forall|i: int| 0 <= i < below.len() implies distinct_keys(
        (#[trigger] below[i]).children,
    ) by {
        assert(distinct_keys(nodes[i].children));
        lemma_sorted_tree_distinct(nodes[i].children, rule, registry);
    }
    lemma_sorted_level_places(below, below.len(), rule, registry);
    lemma_sort_is_stable(below, below.len(), rule, registry);
    assert(below.take(below.len() as int) =~= below);
    assert forall|k: int, l: int| 0 <= k < l < sorted.len() implies (#[trigger] sorted[k]).key != (
    #[trigger] sorted[l]).key by {
        let i = places[k];
        let j = places[l];
        assert(i != j);
        assert(sorted[k] == below[i]);
        assert(sorted[l] == below[j]);
        if i < j {
            assert(nodes[i].key != nodes[j].key);
        } else {
            assert(nodes[j].key != nodes[i].key);
        }
    }
    assert forall|k: int| 0 <= k < sorted.len() implies distinct_keys(
        (#[trigger] sorted[k]).children,
    ) by {
        let i = places[k];
        assert(0 <= i < below.len());
        assert(sorted[k] == below[i]);
    }
    lemma_distinct_pairs(sorted);
}

} // verus!
