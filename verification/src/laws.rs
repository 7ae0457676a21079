//! What merging does to the figures of the rows, summed over the whole tree.

use crate::collect::{
    children_ns, merge_forest, merge_tree, target, tree_self_ns, with_stats, with_target, Stop,
};
use crate::process::{merged_streams, ThreadStream};
use crate::reader::{decode_level, stream_bytes, ScopeTree};
use crate::stats::{
    distinct_keys, encoded_size, figure_of, fresh_node, lemma_position_of, node_sum, position_of,
    recorded, rows_sum, selected, with_entry, Figure, KeyView, Node, ScopeStats,
};
use vstd::prelude::*;

verus! {

/// What one scope adds to a figure of its row.
pub open spec fn scope_figure(tree: ScopeTree, figure: Figure) -> int {
    match figure {
        Figure::Count => 1,
        Figure::Bytes => encoded_size(tree.event),
        Figure::TotalSelf => tree_self_ns(tree),
        Figure::Total => tree.event.duration_ns as int,
    }
}

/// Whether every scope of the forest, on every level, is `complete`.
pub open spec fn finished(trees: Seq<ScopeTree>) -> bool
    decreases trees,
{
    trees.len() == 0 || (trees[0].complete && finished(trees[0].children) && finished(
        trees.skip(1),
    ))
}

/// What a scope of thread `thread_name` adds to a figure if its key is selected.
pub open spec fn own_figure(
    tree: ScopeTree,
    thread_name: Seq<char>,
    only: Option<KeyView>,
    figure: Figure,
) -> int {
    if selected(KeyView { id: tree.event.id, thread_name }, only) {
        scope_figure(tree, figure)
    } else {
        0
    }
}

/// The sum of what the selected scopes of thread `thread_name` add to a figure, nested
/// scopes included, taken over the scopes that merging records: a scope counts if it and
/// all scopes nested in it are complete, and nothing counts after the first scope of a level
/// of which this does not hold.
pub open spec fn scopes_sum(
    trees: Seq<ScopeTree>,
    thread_name: Seq<char>,
    only: Option<KeyView>,
    figure: Figure,
) -> int
    decreases trees,
{
    if trees.len() == 0 {
        0
    } else {
        let below = scopes_sum(trees[0].children, thread_name, only, figure);
        if trees[0].complete && finished(trees[0].children) {
            own_figure(trees[0], thread_name, only, figure) + below + scopes_sum(
                trees.skip(1),
                thread_name,
                only,
                figure,
            )
        } else {
            below
        }
    }
}

/// A row put at the end of a list adds its own sum.
pub proof fn lemma_rows_sum_push(nodes: Seq<Node>, node: Node, only: Option<KeyView>, figure: Figure)
    ensures
        rows_sum(nodes.push(node), only, figure) == rows_sum(nodes, only, figure) + node_sum(
            node,
            only,
            figure,
        ),
{
    assert(nodes.push(node).drop_last() =~= nodes);
}

/// A row put in the place of another changes the sum by the difference of the two.
pub proof fn lemma_rows_sum_update(
    nodes: Seq<Node>,
    index: int,
    node: Node,
    only: Option<KeyView>,
    figure: Figure,
)
    requires
        0 <= index < nodes.len(),
    ensures
        rows_sum(nodes.update(index, node), only, figure) == rows_sum(nodes, only, figure)
            - node_sum(nodes[index], only, figure) + node_sum(node, only, figure),
    decreases nodes.len(),
{
    let changed = nodes.update(index, node);
    if index == nodes.len() - 1 {
        assert(changed.drop_last() =~= nodes.drop_last());
    } else {
        lemma_rows_sum_update(nodes.drop_last(), index, node, only, figure);
        assert(changed.drop_last() =~= nodes.drop_last().update(index, node));
    }
}

/// Merging keeps every row where it is and keeps its key: the list only grows at its end.
pub proof fn lemma_merge_tree_keeps_keys(
    nodes: Seq<Node>,
    tree: ScopeTree,
    thread_name: Seq<char>,
    hierarchical: bool,
)
    ensures
        merge_tree(nodes, tree, thread_name, hierarchical).nodes.len() >= nodes.len(),
        forall|j: int|
            0 <= j < nodes.len() ==> (#[trigger] merge_tree(
                nodes,
                tree,
                thread_name,
                hierarchical,
            ).nodes[j]).key == nodes[j].key,
    decreases tree, 0nat,
{
    let key = KeyView { id: tree.event.id, thread_name };
    let index = position_of(nodes, key);
    let entered = with_entry(nodes, key);
    lemma_position_of(nodes, key);
    lemma_merge_forest_keeps_keys(
        target(entered, index, hierarchical),
        tree.children,
        thread_name,
        hierarchical,
    );
}

/// Merging keeps every row where it is and keeps its key: the list only grows at its end.
pub proof fn lemma_merge_forest_keeps_keys(
    nodes: Seq<Node>,
    trees: Seq<ScopeTree>,
    thread_name: Seq<char>,
    hierarchical: bool,
)
    ensures
        merge_forest(nodes, trees, thread_name, hierarchical).nodes.len() >= nodes.len(),
        forall|j: int|
            0 <= j < nodes.len() ==> (#[trigger] merge_forest(
                nodes,
                trees,
                thread_name,
                hierarchical,
            ).nodes[j]).key == nodes[j].key,
    decreases trees, 1nat,
{
    if trees.len() > 0 {
        let first = merge_tree(nodes, trees[0], thread_name, hierarchical);
        lemma_merge_tree_keeps_keys(nodes, trees[0], thread_name, hierarchical);
        if first.stop.is_none() {
            lemma_merge_forest_keeps_keys(first.nodes, trees.skip(1), thread_name, hierarchical);
        }
    }
}

/// Unless a figure overflows, merging a scope makes each figure grow, summed over the
/// selected rows, by what the recorded scopes add, and merging reaches the end exactly if
/// the scope and all scopes nested in it are complete.
pub proof fn lemma_merge_tree_sum(
    nodes: Seq<Node>,
    tree: ScopeTree,
    thread_name: Seq<char>,
    hierarchical: bool,
    only: Option<KeyView>,
    figure: Figure,
)
    requires
        merge_tree(nodes, tree, thread_name, hierarchical).stop != Some(Stop::Overflow),
    ensures
        rows_sum(merge_tree(nodes, tree, thread_name, hierarchical).nodes, only, figure)
            == rows_sum(nodes, only, figure) + scopes_sum(seq![tree], thread_name, only, figure),
        merge_tree(nodes, tree, thread_name, hierarchical).stop.is_none() == finished(seq![tree]),
    decreases tree, 0nat,
{
    let key = KeyView { id: tree.event.id, thread_name };
    let index = position_of(nodes, key);
    let entered = with_entry(nodes, key);
    let aim = target(entered, index, hierarchical);
    let below = merge_forest(aim, tree.children, thread_name, hierarchical);
    let inner = with_target(entered, index, hierarchical, below.nodes);
    lemma_position_of(nodes, key);
    if index == nodes.len() {
        lemma_rows_sum_push(nodes, fresh_node(key), only, figure);
        assert(rows_sum(Seq::<Node>::empty(), only, figure) == 0);
    }
    assert(rows_sum(entered, only, figure) == rows_sum(nodes, only, figure));
    assert(entered[index].key == key);
    lemma_merge_forest_sum(aim, tree.children, thread_name, hierarchical, only, figure);
    lemma_merge_forest_keeps_keys(aim, tree.children, thread_name, hierarchical);
    if hierarchical {
        lemma_rows_sum_update(
            entered,
            index,
            Node { children: below.nodes, ..entered[index] },
            only,
            figure,
        );
    }
    assert(rows_sum(inner, only, figure) == rows_sum(entered, only, figure) + scopes_sum(
        tree.children,
        thread_name,
        only,
        figure,
    ));
    assert(inner[index].key == key);
    assert(seq![tree].skip(1) =~= Seq::<ScopeTree>::empty());
    assert(scopes_sum(Seq::<ScopeTree>::empty(), thread_name, only, figure) == 0);
    assert(finished(Seq::<ScopeTree>::empty()));
    if below.stop.is_none() && tree.complete {
        let stats = recorded(inner[index].stats, tree.event, tree_self_ns(tree)).unwrap();
        lemma_rows_sum_update(inner, index, Node { stats, ..inner[index] }, only, figure);
    }
}

/// Unless a figure overflows, merging the scopes of a level makes each figure grow, summed
/// over the selected rows, by what the recorded scopes add, and merging reaches the end
/// exactly if all scopes are complete.
pub proof fn lemma_merge_forest_sum(
    nodes: Seq<Node>,
    trees: Seq<ScopeTree>,
    thread_name: Seq<char>,
    hierarchical: bool,
    only: Option<KeyView>,
    figure: Figure,
)
    requires
        merge_forest(nodes, trees, thread_name, hierarchical).stop != Some(Stop::Overflow),
    ensures
        rows_sum(merge_forest(nodes, trees, thread_name, hierarchical).nodes, only, figure)
            == rows_sum(nodes, only, figure) + scopes_sum(trees, thread_name, only, figure),
        merge_forest(nodes, trees, thread_name, hierarchical).stop.is_none() == finished(trees),
    decreases trees, 1nat,
{
    if trees.len() > 0 {
        let first = merge_tree(nodes, trees[0], thread_name, hierarchical);
        lemma_merge_tree_sum(nodes, trees[0], thread_name, hierarchical, only, figure);
        assert(seq![trees[0]].skip(1) =~= Seq::<ScopeTree>::empty());
        assert(scopes_sum(Seq::<ScopeTree>::empty(), thread_name, only, figure) == 0);
        assert(finished(Seq::<ScopeTree>::empty()));
        if first.stop.is_none() {
            lemma_merge_forest_sum(
                first.nodes,
                trees.skip(1),
                thread_name,
                hierarchical,
                only,
                figure,
            );
        }
    }
}

/// The larger of two numbers.
pub open spec fn larger(a: int, b: int) -> int {
    if a >= b {
        a
    } else {
        b
    }
}

/// The largest `max_ns` among the selected rows of a tree, nested rows included; zero where
/// none is larger.
pub open spec fn rows_max(nodes: Seq<Node>, only: Option<KeyView>) -> int
    decreases nodes,
{
    if nodes.len() == 0 {
        0
    } else {
        larger(rows_max(nodes.drop_last(), only), node_max(nodes.last(), only))
    }
}

/// The largest `max_ns` among a row and the rows nested in it, as far as they are selected.
pub open spec fn node_max(node: Node, only: Option<KeyView>) -> int
    decreases node,
{
    larger(
        if selected(node.key, only) {
            node.stats.max_ns as int
        } else {
            0
        },
        rows_max(node.children, only),
    )
}

/// The largest self time among the selected scopes of thread `thread_name` that merging
/// records; zero where there is none.
pub open spec fn scopes_max(trees: Seq<ScopeTree>, thread_name: Seq<char>, only: Option<KeyView>) -> int
    decreases trees,
{
    if trees.len() == 0 {
        0
    } else {
        let below = scopes_max(trees[0].children, thread_name, only);
        if trees[0].complete && finished(trees[0].children) {
            larger(
                larger(
                    if selected(KeyView { id: trees[0].event.id, thread_name }, only) {
                        tree_self_ns(trees[0])
                    } else {
                        0
                    },
                    below,
                ),
                scopes_max(trees.skip(1), thread_name, only),
            )
        } else {
            below
        }
    }
}

/// The maximum over a list is not negative.
pub proof fn lemma_rows_max_not_negative(nodes: Seq<Node>, only: Option<KeyView>)
    ensures
        rows_max(nodes, only) >= 0,
    decreases nodes.len(),
{
    if nodes.len() > 0 {
        lemma_rows_max_not_negative(nodes.drop_last(), only);
    }
}

/// The maximum over a list is at least the maximum of each of its rows.
pub proof fn lemma_rows_max_bounds(nodes: Seq<Node>, only: Option<KeyView>, index: int)
    requires
        0 <= index < nodes.len(),
    ensures
        rows_max(nodes, only) >= node_max(nodes[index], only),
    decreases nodes.len(),
{
    if index < nodes.len() - 1 {
        lemma_rows_max_bounds(nodes.drop_last(), only, index);
    }
}

/// A row put in the place of a row with a smaller maximum raises the maximum to its own,
/// if that is larger.
pub proof fn lemma_rows_max_update(nodes: Seq<Node>, index: int, node: Node, only: Option<KeyView>)
    requires
        0 <= index < nodes.len(),
        node_max(node, only) >= node_max(nodes[index], only),
    ensures
        rows_max(nodes.update(index, node), only) == larger(
            rows_max(nodes, only),
            node_max(node, only),
        ),
    decreases nodes.len(),
{
    let changed = nodes.update(index, node);
    if index == nodes.len() - 1 {
        assert(changed.drop_last() =~= nodes.drop_last());
    } else {
        lemma_rows_max_update(nodes.drop_last(), index, node, only);
        assert(changed.drop_last() =~= nodes.drop_last().update(index, node));
    }
}

/// Unless a figure overflows, merging a scope raises the largest `max_ns` among the
/// selected rows to the largest self time among the recorded scopes, if that is larger.
pub proof fn lemma_merge_tree_max(
    nodes: Seq<Node>,
    tree: ScopeTree,
    thread_name: Seq<char>,
    hierarchical: bool,
    only: Option<KeyView>,
)
    requires
        merge_tree(nodes, tree, thread_name, hierarchical).stop != Some(Stop::Overflow),
    ensures
        rows_max(merge_tree(nodes, tree, thread_name, hierarchical).nodes, only) == larger(
            rows_max(nodes, only),
            scopes_max(seq![tree], thread_name, only),
        ),
    decreases tree, 0nat,
{
    let key = KeyView { id: tree.event.id, thread_name };
    let index = position_of(nodes, key);
    let entered = with_entry(nodes, key);
    let aim = target(entered, index, hierarchical);
    let below = merge_forest(aim, tree.children, thread_name, hierarchical);
    let inner = with_target(entered, index, hierarchical, below.nodes);
    lemma_position_of(nodes, key);
    if index == nodes.len() {
        assert(nodes.push(fresh_node(key)).drop_last() =~= nodes);
        assert(rows_max(fresh_node(key).children, only) == 0);
        assert(node_max(fresh_node(key), only) == 0);
        assert(rows_max(nodes.push(fresh_node(key)), only) == larger(
            rows_max(nodes, only),
            node_max(fresh_node(key), only),
        ));
        lemma_rows_max_not_negative(nodes, only);
    }
    assert(rows_max(entered, only) == rows_max(nodes, only));
    assert(entered[index].key == key);
    lemma_merge_forest_max(aim, tree.children, thread_name, hierarchical, only);
    lemma_merge_forest_sum(aim, tree.children, thread_name, hierarchical, only, Figure::Count);
    lemma_merge_forest_keeps_keys(aim, tree.children, thread_name, hierarchical);
    lemma_rows_max_bounds(entered, only, index);
    if hierarchical {
        lemma_rows_max_update(
            entered,
            index,
            Node { children: below.nodes, ..entered[index] },
            only,
        );
    }
    assert(rows_max(inner, only) == larger(
        rows_max(entered, only),
        scopes_max(tree.children, thread_name, only),
    ));
    assert(inner[index].key == key);
    assert(seq![tree].skip(1) =~= Seq::<ScopeTree>::empty());
    assert(scopes_max(Seq::<ScopeTree>::empty(), thread_name, only) == 0);
    lemma_rows_max_bounds(inner, only, index);
    if below.stop.is_none() && tree.complete {
        let stats = recorded(inner[index].stats, tree.event, tree_self_ns(tree)).unwrap();
        lemma_rows_max_update(inner, index, Node { stats, ..inner[index] }, only);
    }
}

/// Unless a figure overflows, merging the scopes of a level raises the largest `max_ns`
/// among the selected rows to the largest self time among the recorded scopes, if that is
/// larger.
pub proof fn lemma_merge_forest_max(
    nodes: Seq<Node>,
    trees: Seq<ScopeTree>,
    thread_name: Seq<char>,
    hierarchical: bool,
    only: Option<KeyView>,
)
    requires
        merge_forest(nodes, trees, thread_name, hierarchical).stop != Some(Stop::Overflow),
    ensures
        rows_max(merge_forest(nodes, trees, thread_name, hierarchical).nodes, only) == larger(
            rows_max(nodes, only),
            scopes_max(trees, thread_name, only),
        ),
    decreases trees, 1nat,
{
    if trees.len() > 0 {
        let first = merge_tree(nodes, trees[0], thread_name, hierarchical);
        lemma_merge_tree_max(nodes, trees[0], thread_name, hierarchical, only);
        lemma_merge_tree_sum(nodes, trees[0], thread_name, hierarchical, only, Figure::Count);
        assert(seq![trees[0]].skip(1) =~= Seq::<ScopeTree>::empty());
        assert(scopes_max(Seq::<ScopeTree>::empty(), thread_name, only) == 0);
        assert(finished(Seq::<ScopeTree>::empty()));
        if first.stop.is_none() {
            lemma_merge_forest_max(first.nodes, trees.skip(1), thread_name, hierarchical, only);
        }
    } else {
        lemma_rows_max_not_negative(nodes, only);
    }
}

/// Two lists with the same keys at the same places hold a given key at the same place.
pub proof fn lemma_position_same_keys(left: Seq<Node>, right: Seq<Node>, key: KeyView)
    requires
        left.len() == right.len(),
        forall|j: int| 0 <= j < left.len() ==> (#[trigger] left[j]).key == right[j].key,
    ensures
        position_of(left, key) == position_of(right, key),
    decreases left.len(),
{
    if left.len() > 0 {
        let l = left.drop_last();
        let r = right.drop_last();
        assert forall|j: int| 0 <= j < l.len() implies (#[trigger] l[j]).key == r[j].key by {
            assert(left[j].key == right[j].key);
        }
        lemma_position_same_keys(l, r, key);
        assert(left.last().key == right.last().key) by {
            assert(left[left.len() - 1].key == right[left.len() - 1].key);
        }
    }
}

/// In a list with distinct keys the rows nested in each row have distinct keys too.
pub proof fn lemma_distinct_children(nodes: Seq<Node>, index: int)
    requires
        distinct_keys(nodes),
        0 <= index < nodes.len(),
    ensures
        distinct_keys(nodes[index].children),
    decreases nodes.len(),
{
    if index < nodes.len() - 1 {
        lemma_distinct_children(nodes.drop_last(), index);
    }
}

/// Keys stay distinct where a row is replaced by one with the same key.
pub proof fn lemma_distinct_update(nodes: Seq<Node>, index: int, node: Node)
    requires
        distinct_keys(nodes),
        0 <= index < nodes.len(),
        node.key == nodes[index].key,
        distinct_keys(node.children),
    ensures
        distinct_keys(nodes.update(index, node)),
    decreases nodes.len(),
{
    let changed = nodes.update(index, node);
    if index == nodes.len() - 1 {
        assert(changed.drop_last() =~= nodes.drop_last());
    } else {
        lemma_distinct_update(nodes.drop_last(), index, node);
        assert(changed.drop_last() =~= nodes.drop_last().update(index, node));
        lemma_position_same_keys(changed.drop_last(), nodes.drop_last(), nodes.last().key);
    }
}

/// Merging a scope keeps the keys of the rows distinct on every level.
pub proof fn lemma_merge_tree_distinct(
    nodes: Seq<Node>,
    tree: ScopeTree,
    thread_name: Seq<char>,
    hierarchical: bool,
)
    requires
        distinct_keys(nodes),
    ensures
        distinct_keys(merge_tree(nodes, tree, thread_name, hierarchical).nodes),
    decreases tree, 0nat,
{
    let key = KeyView { id: tree.event.id, thread_name };
    let index = position_of(nodes, key);
    let entered = with_entry(nodes, key);
    let aim = target(entered, index, hierarchical);
    let below = merge_forest(aim, tree.children, thread_name, hierarchical);
    let inner = with_target(entered, index, hierarchical, below.nodes);
    lemma_position_of(nodes, key);
    if index == nodes.len() {
        assert(entered.drop_last() =~= nodes);
        assert(distinct_keys(fresh_node(key).children));
    }
    assert(distinct_keys(entered));
    lemma_distinct_children(entered, index);
    lemma_merge_forest_distinct(aim, tree.children, thread_name, hierarchical);
    lemma_merge_forest_keeps_keys(aim, tree.children, thread_name, hierarchical);
    if hierarchical {
        lemma_distinct_update(entered, index, Node { children: below.nodes, ..entered[index] });
    }
    assert(distinct_keys(inner));
    lemma_distinct_children(inner, index);
    if below.stop.is_none() && tree.complete {
        let after = recorded(inner[index].stats, tree.event, tree_self_ns(tree));
        if after.is_some() {
            lemma_distinct_update(inner, index, Node { stats: after.unwrap(), ..inner[index] });
        }
    }
}

/// Merging the scopes of a level keeps the keys of the rows distinct on every level.
pub proof fn lemma_merge_forest_distinct(
    nodes: Seq<Node>,
    trees: Seq<ScopeTree>,
    thread_name: Seq<char>,
    hierarchical: bool,
)
    requires
        distinct_keys(nodes),
    ensures
        distinct_keys(merge_forest(nodes, trees, thread_name, hierarchical).nodes),
    decreases trees, 1nat,
{
    if trees.len() > 0 {
        let first = merge_tree(nodes, trees[0], thread_name, hierarchical);
        lemma_merge_tree_distinct(nodes, trees[0], thread_name, hierarchical);
        if first.stop.is_none() {
            lemma_merge_forest_distinct(first.nodes, trees.skip(1), thread_name, hierarchical);
        }
    }
}

/// Whether the list is as merging without grouping by call tree makes it: no row has rows
/// nested in it, and no `max_ns` is negative.
pub open spec fn flat_list(nodes: Seq<Node>) -> bool {
    forall|j: int|
        0 <= j < nodes.len() ==> (#[trigger] nodes[j]).children.len() == 0 && nodes[j].stats.max_ns
            >= 0
}

/// Merging a scope without grouping by call tree nests no row in another.
pub proof fn lemma_merge_tree_flat(nodes: Seq<Node>, tree: ScopeTree, thread_name: Seq<char>)
    requires
        flat_list(nodes),
    ensures
        flat_list(merge_tree(nodes, tree, thread_name, false).nodes),
    decreases tree, 0nat,
{
    let key = KeyView { id: tree.event.id, thread_name };
    let entered = with_entry(nodes, key);
    lemma_position_of(nodes, key);
    assert(flat_list(entered));
    lemma_merge_forest_flat(entered, tree.children, thread_name);
    lemma_merge_forest_keeps_keys(entered, tree.children, thread_name, false);
}

/// Merging the scopes of a level without grouping by call tree nests no row in another.
pub proof fn lemma_merge_forest_flat(
    nodes: Seq<Node>,
    trees: Seq<ScopeTree>,
    thread_name: Seq<char>,
)
    requires
        flat_list(nodes),
    ensures
        flat_list(merge_forest(nodes, trees, thread_name, false).nodes),
    decreases trees, 1nat,
{
    if trees.len() > 0 {
        let first = merge_tree(nodes, trees[0], thread_name, false);
        lemma_merge_tree_flat(nodes, trees[0], thread_name);
        if first.stop.is_none() {
            lemma_merge_forest_flat(first.nodes, trees.skip(1), thread_name);
        }
    }
}

/// In a flat list with distinct keys, the sum of a figure over the rows with a given key is
/// the figure of the one row with that key, and their largest `max_ns` is that row's. Both
/// are zero if there is no such row.
pub proof fn lemma_flat_row(nodes: Seq<Node>, key: KeyView, figure: Figure)
    requires
        flat_list(nodes),
        distinct_keys(nodes),
    ensures
        position_of(nodes, key) < nodes.len() ==> rows_sum(nodes, Some(key), figure) == figure_of(
            nodes[position_of(nodes, key)].stats,
            figure,
        ) && rows_max(nodes, Some(key)) == nodes[position_of(nodes, key)].stats.max_ns,
        position_of(nodes, key) == nodes.len() ==> rows_sum(nodes, Some(key), figure) == 0
            && rows_max(nodes, Some(key)) == 0,
    decreases nodes.len(),
{
    lemma_position_of(nodes, key);
    if nodes.len() > 0 {
        let front = nodes.drop_last();
        assert forall|j: int| 0 <= j < front.len() implies (#[trigger] front[j]).children.len()
            == 0 && front[j].stats.max_ns >= 0 by {
            assert(nodes[j].children.len() == 0);
        }
        let last = nodes.last();
        lemma_flat_row(front, key, figure);
        lemma_position_of(front, key);
        lemma_position_of(front, last.key);
        assert(nodes[nodes.len() - 1].children.len() == 0);
        assert(rows_sum(last.children, Some(key), figure) == 0);
        assert(rows_max(last.children, Some(key)) == 0);
        assert(node_max(last, Some(key)) == larger(
            if last.key == key {
                last.stats.max_ns as int
            } else {
                0
            },
            0,
        ));
        lemma_rows_max_not_negative(front, Some(key));
        let at = position_of(front, key);
        if at < front.len() {
            assert(front[at].key == key);
            assert(last.key != key);
            assert(nodes[at] == front[at]);
        }
    }
}

/// Whether, on every level, the scopes nested in a scope take no longer together than the
/// scope itself: the scopes of one thread do not overlap.
pub open spec fn nested_within(trees: Seq<ScopeTree>) -> bool
    decreases trees,
{
    trees.len() == 0 || (children_ns(trees[0].children) <= trees[0].event.duration_ns
        && nested_within(trees[0].children) && nested_within(trees.skip(1)))
}

/// The self times of scopes that do not overlap add up to the time of the outermost scopes:
/// every moment is counted once, however deep the scopes are nested.
pub proof fn lemma_self_times_cover_once(trees: Seq<ScopeTree>, thread_name: Seq<char>)
    requires
        finished(trees),
        nested_within(trees),
    ensures
        scopes_sum(trees, thread_name, None, Figure::TotalSelf) == children_ns(trees),
    decreases trees,
{
    if trees.len() > 0 {
        lemma_self_times_cover_once(trees[0].children, thread_name);
        lemma_self_times_cover_once(trees.skip(1), thread_name);
    }
}

/// Self-time conservation. Where the scopes of one stream are merged into an empty list and
/// no figure overflows, the `total_self_ns` of all rows, nested rows included, add up to
/// the self times of the recorded scopes, each counted once. Where moreover the stream was
/// decoded to its end and its scopes do not overlap, they add up to the time of the
/// outermost scopes.
pub proof fn lemma_self_time_conserved(
    trees: Seq<ScopeTree>,
    thread_name: Seq<char>,
    hierarchical: bool,
)
    requires
        merge_forest(Seq::empty(), trees, thread_name, hierarchical).stop != Some(Stop::Overflow),
    ensures
        rows_sum(
            merge_forest(Seq::empty(), trees, thread_name, hierarchical).nodes,
            None,
            Figure::TotalSelf,
        ) == scopes_sum(trees, thread_name, None, Figure::TotalSelf),
        finished(trees) && nested_within(trees) ==> rows_sum(
            merge_forest(Seq::empty(), trees, thread_name, hierarchical).nodes,
            None,
            Figure::TotalSelf,
        ) == children_ns(trees),
{
    lemma_merge_forest_sum(
        Seq::empty(),
        trees,
        thread_name,
        hierarchical,
        None,
        Figure::TotalSelf,
    );
    assert(rows_sum(Seq::<Node>::empty(), None, Figure::TotalSelf) == 0);
    if finished(trees) && nested_within(trees) {
        lemma_self_times_cover_once(trees, thread_name);
    }
}

/// Merge correctness. Two scopes with the same id on the same thread, merged one after the
/// other into an empty list, make one row: it counts two scopes, its `total_ns` is the sum
/// of their durations, its `total_self_ns` the sum of their self times and its `max_ns` the
/// larger self time. This holds when grouping by call tree, and of scopes without nested
/// scopes also when not.
pub proof fn lemma_same_key_merges(
    first: ScopeTree,
    second: ScopeTree,
    thread_name: Seq<char>,
    hierarchical: bool,
)
    requires
        first.event.id == second.event.id,
        hierarchical || (first.children.len() == 0 && second.children.len() == 0),
        merge_forest(Seq::empty(), seq![first, second], thread_name, hierarchical).stop.is_none(),
    ensures
        ({
            let rows = merge_forest(
                Seq::empty(),
                seq![first, second],
                thread_name,
                hierarchical,
            ).nodes;
            &&& rows.len() == 1
            &&& rows[0].key == (KeyView { id: first.event.id, thread_name })
            &&& rows[0].stats.count == 2
            &&& rows[0].stats.total_ns == first.event.duration_ns + second.event.duration_ns
            &&& rows[0].stats.total_self_ns == tree_self_ns(first) + tree_self_ns(second)
            &&& rows[0].stats.max_ns == larger(tree_self_ns(first), tree_self_ns(second))
        }),
{
    let key = KeyView { id: first.event.id, thread_name };
    let none = Seq::<Node>::empty();
    let trees = seq![first, second];
    let rest = trees.skip(1);
    let whole = merge_forest(none, trees, thread_name, hierarchical);
    let one = merge_tree(none, first, thread_name, hierarchical);
    let two = merge_tree(one.nodes, second, thread_name, hierarchical);
    assert(trees[0] == first);
    assert(rest =~= seq![second]);
    assert(rest.skip(1) =~= Seq::<ScopeTree>::empty());
    assert(one.stop.is_none());
    assert(whole == merge_forest(one.nodes, rest, thread_name, hierarchical));
    assert(two.stop.is_none());
    assert(merge_forest(one.nodes, rest, thread_name, hierarchical) == merge_forest(
        two.nodes,
        rest.skip(1),
        thread_name,
        hierarchical,
    ));
    assert(whole.nodes == two.nodes);
    assert(position_of(none, key) == 0);
    assert(with_entry(none, key) =~= seq![fresh_node(key)]);
    assert(one.nodes.len() == 1);
    assert(one.nodes[0].key == key);
    assert(one.nodes[0].stats == recorded(ScopeStats::zero(), first.event, tree_self_ns(first)).unwrap());
    assert(one.nodes.drop_last() =~= none);
    assert(position_of(one.nodes, key) == 0);
    assert(with_entry(one.nodes, key) == one.nodes);
    assert(two.nodes.len() == 1);
    assert(two.nodes[0].stats == recorded(
        one.nodes[0].stats,
        second.event,
        tree_self_ns(second),
    ).unwrap());
}

/// The scopes that a stream decodes to.
pub open spec fn scopes_of<'a>(stream: ThreadStream<'a>) -> Seq<ScopeTree> {
    decode_level(stream_bytes(*stream.stream), 0).trees
}

/// Whether none of the streams, merged in turn into `nodes`, ends on an overflow.
pub open spec fn no_overflow<'a>(
    nodes: Seq<Node>,
    streams: Seq<ThreadStream<'a>>,
    hierarchical: bool,
) -> bool
    decreases streams.len(),
{
    streams.len() == 0 || (no_overflow(nodes, streams.drop_last(), hierarchical) && merge_forest(
        merged_streams(nodes, streams.drop_last(), hierarchical),
        scopes_of(streams.last()),
        streams.last().name@,
        hierarchical,
    ).stop != Some(Stop::Overflow))
}

/// The sum of what the selected scopes of all streams add to a figure, taken over the
/// scopes that merging records.
pub open spec fn streams_sum<'a>(
    streams: Seq<ThreadStream<'a>>,
    only: Option<KeyView>,
    figure: Figure,
) -> int
    decreases streams.len(),
{
    if streams.len() == 0 {
        0
    } else {
        streams_sum(streams.drop_last(), only, figure) + scopes_sum(
            scopes_of(streams.last()),
            streams.last().name@,
            only,
            figure,
        )
    }
}

/// The largest self time among the selected scopes of all streams that merging records.
pub open spec fn streams_max<'a>(streams: Seq<ThreadStream<'a>>, only: Option<KeyView>) -> int
    decreases streams.len(),
{
    if streams.len() == 0 {
        0
    } else {
        larger(
            streams_max(streams.drop_last(), only),
            scopes_max(scopes_of(streams.last()), streams.last().name@, only),
        )
    }
}

/// Unless a stream ends on an overflow, the rows hold, for every key and summed over the
/// tree, what the recorded scopes of all streams add, and the largest of their self times.
pub proof fn lemma_merged_streams_sum<'a>(
    nodes: Seq<Node>,
    streams: Seq<ThreadStream<'a>>,
    hierarchical: bool,
    only: Option<KeyView>,
    figure: Figure,
)
    requires
        no_overflow(nodes, streams, hierarchical),
    ensures
        rows_sum(merged_streams(nodes, streams, hierarchical), only, figure) == rows_sum(
            nodes,
            only,
            figure,
        ) + streams_sum(streams, only, figure),
        rows_max(merged_streams(nodes, streams, hierarchical), only) == larger(
            rows_max(nodes, only),
            streams_max(streams, only),
        ),
    decreases streams.len(),
{
    if streams.len() > 0 {
        let before = merged_streams(nodes, streams.drop_last(), hierarchical);
        lemma_merged_streams_sum(nodes, streams.drop_last(), hierarchical, only, figure);
        lemma_merge_forest_sum(
            before,
            scopes_of(streams.last()),
            streams.last().name@,
            hierarchical,
            only,
            figure,
        );
        lemma_merge_forest_max(
            before,
            scopes_of(streams.last()),
            streams.last().name@,
            hierarchical,
            only,
        );
    } else {
        lemma_rows_max_not_negative(nodes, only);
    }
}

/// The rows of a batch have distinct keys on every level, and without grouping by call
/// tree they make a flat list.
pub proof fn lemma_merged_streams_shape<'a>(streams: Seq<ThreadStream<'a>>, hierarchical: bool)
    ensures
        distinct_keys(merged_streams(Seq::empty(), streams, hierarchical)),
        !hierarchical ==> flat_list(merged_streams(Seq::empty(), streams, hierarchical)),
    decreases streams.len(),
{
    if streams.len() > 0 {
        let before = merged_streams(Seq::empty(), streams.drop_last(), hierarchical);
        lemma_merged_streams_shape(streams.drop_last(), hierarchical);
        lemma_merge_forest_distinct(
            before,
            scopes_of(streams.last()),
            streams.last().name@,
            hierarchical,
        );
        if !hierarchical {
            lemma_merge_forest_flat(before, scopes_of(streams.last()), streams.last().name@);
        }
    }
}

/// Flatten equivalence. Merge the same streams once without and once with grouping by call
/// tree, and let neither end on an overflow. Then the flat list has one row for each key,
/// and its count, bytes, total self time and total time are the sums, and its `max_ns` the
/// maximum, over all rows of the tree with that key. A key without a row in the flat list
/// has none in the tree.
pub proof fn lemma_flat_rows_sum_the_tree<'a>(
    streams: Seq<ThreadStream<'a>>,
    key: KeyView,
    figure: Figure,
)
    requires
        no_overflow(Seq::empty(), streams, false),
        no_overflow(Seq::empty(), streams, true),
    ensures
        ({
            let flat = merged_streams(Seq::empty(), streams, false);
            let tree = merged_streams(Seq::empty(), streams, true);
            let at = position_of(flat, key);
            &&& distinct_keys(flat)
            &&& flat_list(flat)
            &&& at < flat.len() ==> flat[at].key == key && figure_of(flat[at].stats, figure)
                == rows_sum(tree, Some(key), figure) && flat[at].stats.max_ns == rows_max(
                tree,
                Some(key),
            )
            &&& at == flat.len() ==> rows_sum(tree, Some(key), figure) == 0 && rows_max(
                tree,
                Some(key),
            ) == 0
        }),
{
    let none = Seq::<Node>::empty();
    let flat = merged_streams(none, streams, false);
    lemma_merged_streams_shape(streams, false);
    lemma_merged_streams_sum(none, streams, false, Some(key), figure);
    lemma_merged_streams_sum(none, streams, true, Some(key), figure);
    lemma_flat_row(flat, key, figure);
    lemma_position_of(flat, key);
    assert(rows_sum(none, Some(key), figure) == 0);
    assert(rows_max(none, Some(key)) == 0);
}

/// The keys of a list are distinct on every level exactly if no two rows of the list have
/// the same key and the rows nested in each row have distinct keys on every level.
pub proof fn lemma_distinct_pairs(nodes: Seq<Node>)
    ensures
        distinct_keys(nodes) <==> (forall|i: int, j: int|
            0 <= i < j < nodes.len() ==> (#[trigger] nodes[i]).key != (#[trigger] nodes[j]).key) && (
        forall|i: int| 0 <= i < nodes.len() ==> distinct_keys((#[trigger] nodes[i]).children)),
    decreases nodes.len(),
{
    if nodes.len() > 0 {
        let front = nodes.drop_last();
        let last = nodes.last();
        lemma_distinct_pairs(front);
        lemma_position_of(front, last.key);
        let pairs = forall|i: int, j: int|
            0 <= i < j < nodes.len() ==> (#[trigger] nodes[i]).key != (#[trigger] nodes[j]).key;
        let nested = forall|i: int|
            0 <= i < nodes.len() ==> distinct_keys((#[trigger] nodes[i]).children);
        if distinct_keys(nodes) {
            assert forall|i: int, j: int| 0 <= i < j < nodes.len() implies (#[trigger] nodes[i]).key
                != (#[trigger] nodes[j]).key by {
                assert(front[i] == nodes[i]);
                if j < front.len() {
                    assert(front[j] == nodes[j]);
                }
            }
            assert forall|i: int| 0 <= i < nodes.len() implies distinct_keys(
                (#[trigger] nodes[i]).children,
            ) by {
                if i < front.len() {
                    assert(front[i] == nodes[i]);
                }
            }
        }
        if pairs && nested {
            assert forall|i: int, j: int| 0 <= i < j < front.len() implies (#[trigger] front[i]).key
                != (#[trigger] front[j]).key by {
                assert(front[i] == nodes[i]);
                assert(front[j] == nodes[j]);
            }
            assert forall|i: int| 0 <= i < front.len() implies distinct_keys(
                (#[trigger] front[i]).children,
            ) by {
                assert(front[i] == nodes[i]);
            }
            let at = position_of(front, last.key);
            if at < front.len() {
                assert(front[at] == nodes[at]);
                assert(nodes[at].key != nodes[nodes.len() - 1].key);
            }
            assert(distinct_keys(nodes[nodes.len() - 1].children));
        }
    }
}

} // verus!
