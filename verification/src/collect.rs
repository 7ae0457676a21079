//! Merging the scopes of a stream into the aggregation tree.

use crate::reader::{
    decode_level, read_scope, stream_bytes, tree_at, DecodeError, ScopeEvent, ScopeTree,
};
use crate::laws::{lemma_merge_forest_distinct, lemma_merge_tree_distinct};
use crate::stats::{
    distinct_keys, entry_index, nodes_of, position_of, recorded, self_time, self_time_of,
    with_entry, GroupedStats, KeyView, Node,
};
use vstd::prelude::*;

verus! {

/// Why the scopes of a stream were not all merged.
#[derive(Clone, Copy, Debug, PartialEq, Eq, Structural)]
pub enum CollectError {
    /// The stream could not be decoded any further.
    Decode(DecodeError),
    /// A figure of a row would have left the range of its type.
    Overflow,
}

/// Why merging ended before the last scope.
pub enum Stop {
    /// A figure of a row would have left the range of its type.
    Overflow,
    /// A scope was reached whose nested scopes were not all decoded.
    Incomplete,
}

/// The rows after merging, and why merging ended early, if it did.
pub struct Merged {
    pub nodes: Seq<Node>,
    pub stop: Option<Stop>,
}

/// The time that the given scopes took together.
pub open spec fn children_ns(trees: Seq<ScopeTree>) -> int
    decreases trees.len(),
{
    if trees.len() == 0 {
        0
    } else {
        trees[0].event.duration_ns + children_ns(trees.skip(1))
    }
}

/// The self time of a scope: its duration minus the time of the scopes nested directly in
/// it, and zero where these took longer.
pub open spec fn tree_self_ns(tree: ScopeTree) -> int {
    self_time(tree.event.duration_ns as int, children_ns(tree.children))
}

/// The list that the scopes nested in the scope at `index` are merged into: the children of
/// that row when grouping by call tree, else the list itself.
pub open spec fn target(nodes: Seq<Node>, index: int, hierarchical: bool) -> Seq<Node> {
    if hierarchical {
        nodes[index].children
    } else {
        nodes
    }
}

/// `nodes` with its [`target`] replaced.
pub open spec fn with_target(
    nodes: Seq<Node>,
    index: int,
    hierarchical: bool,
    merged: Seq<Node>,
) -> Seq<Node> {
    if hierarchical {
        nodes.update(index, Node { children: merged, ..nodes[index] })
    } else {
        merged
    }
}

/// `nodes` with new figures in the row at `index`.
pub open spec fn with_stats(nodes: Seq<Node>, index: int, stats: crate::stats::ScopeStats) -> Seq<
    Node,
> {
    nodes.update(index, Node { stats, ..nodes[index] })
}

/// Merges one scope of thread `thread_name` into `nodes`.
///
/// The row of the scope's key is found, or put at the end; the nested scopes are merged
/// into that row's children (or, when not grouping by call tree, into `nodes` itself); then
/// the scope is recorded in the row. Merging ends early, and nothing is recorded, where
/// merging the nested scopes ended early, where the scope is not `complete`, or where a
/// figure would overflow.
pub open spec fn merge_tree(
    nodes: Seq<Node>,
    tree: ScopeTree,
    thread_name: Seq<char>,
    hierarchical: bool,
) -> Merged
    decreases tree, 0nat,
{
    let key = KeyView { id: tree.event.id, thread_name };
    let index = position_of(nodes, key);
    let entered = with_entry(nodes, key);
    let below = merge_forest(
        target(entered, index, hierarchical),
        tree.children,
        thread_name,
        hierarchical,
    );
    let inner = with_target(entered, index, hierarchical, below.nodes);
    if below.stop.is_some() {
        Merged { nodes: inner, stop: below.stop }
    } else if !tree.complete {
        Merged { nodes: inner, stop: Some(Stop::Incomplete) }
    } else {
        match recorded(inner[index].stats, tree.event, tree_self_ns(tree)) {
            Some(stats) => Merged { nodes: with_stats(inner, index, stats), stop: None },
            None => Merged { nodes: inner, stop: Some(Stop::Overflow) },
        }
    }
}

/// Merges the scopes of one level into `nodes`, in order, up to the first at which merging
/// ends early.
pub open spec fn merge_forest(
    nodes: Seq<Node>,
    trees: Seq<ScopeTree>,
    thread_name: Seq<char>,
    hierarchical: bool,
) -> Merged
    decreases trees, 1nat,
{
    if trees.len() == 0 {
        Merged { nodes, stop: None }
    } else {
        let first = merge_tree(nodes, trees[0], thread_name, hierarchical);
        if first.stop.is_some() {
            first
        } else {
            merge_forest(first.nodes, trees.skip(1), thread_name, hierarchical)
        }
    }
}

/// What collecting returns: `Overflow` where merging ended on an overflow, else the decode
/// error if there was one, else success.
pub open spec fn collect_result(stop: Option<Stop>, error: Option<DecodeError>) -> Result<
    (),
    CollectError,
> {
    if stop == Some(Stop::Overflow) {
        Err(CollectError::Overflow)
    } else {
        match error {
            Some(error) => Err(CollectError::Decode(error)),
            None => Ok(()),
        }
    }
}

/// Merges one scope, with the scopes nested in it, into `stats`.
///
/// The nested scopes are read from `stream`, from the scope's first child on. They are
/// merged into the children of the scope's row when `tree_view` is set, else into `stats`
/// itself. On a failure the rows keep what was merged until then.
pub fn collect_scope<'s>(
    stats: &mut Vec<GroupedStats<'s>>,
    thread_name: &'s str,
    stream: &puffin::Stream,
    scope: &ScopeEvent,
    tree_view: bool,
) -> (result: Result<(), CollectError>)
    ensures
        ({
            let merged = merge_tree(
                nodes_of(old(stats)@),
                tree_at(stream_bytes(*stream), *scope),
                thread_name@,
                tree_view,
            );
            &&& nodes_of(final(stats)@) == merged.nodes
            &&& result == collect_result(
                merged.stop,
                decode_level(stream_bytes(*stream), scope.child_begin_position).error,
            )
            &&& result.is_ok() == merged.stop.is_none()
        }),
        final(stats).len() >= old(stats).len(),
        distinct_keys(nodes_of(old(stats)@)) ==> distinct_keys(nodes_of(final(stats)@)),
    decreases stream_bytes(*stream).len() - scope.child_begin_position,
{
    let ghost bytes = stream_bytes(*stream);
    let ghost tree = tree_at(bytes, *scope);
    proof {
        if distinct_keys(nodes_of(stats@)) {
            lemma_merge_tree_distinct(nodes_of(stats@), tree, thread_name@, tree_view);
        }
    }
    let entry = entry_index(stats, scope.id, thread_name);
    let ghost entered = nodes_of(stats@);
    let ghost total = merge_forest(
        target(entered, entry as int, tree_view),
        tree.children,
        thread_name@,
        tree_view,
    );
    let mut offset = scope.child_begin_position;
    let mut ns_used: i64 = 0;
    let ghost mut ns_exact: int = 0;
    let mut more = true;
    proof {
        assert(entered =~= with_target(
            entered,
            entry as int,
            tree_view,
            target(entered, entry as int, tree_view),
        ));
    }
    while more
        invariant
            bytes == stream_bytes(*stream),
            tree == tree_at(bytes, *scope),
            distinct_keys(nodes_of(old(stats)@)) ==> distinct_keys(
                merge_tree(nodes_of(old(stats)@), tree, thread_name@, tree_view).nodes,
            ),
            entry == position_of(
                nodes_of(old(stats)@),
                KeyView { id: scope.id, thread_name: thread_name@ },
            ),
            entered == with_entry(
                nodes_of(old(stats)@),
                KeyView { id: scope.id, thread_name: thread_name@ },
            ),
            total == merge_forest(
                target(entered, entry as int, tree_view),
                tree.children,
                thread_name@,
                tree_view,
            ),
            entry < stats.len(),
            entry < entered.len(),
            stats.len() >= old(stats).len(),
            offset >= scope.child_begin_position,
            nodes_of(stats@) == with_target(
                entered,
                entry as int,
                tree_view,
                target(nodes_of(stats@), entry as int, tree_view),
            ),
            merge_forest(
                target(nodes_of(stats@), entry as int, tree_view),
                decode_level(bytes, offset).trees,
                thread_name@,
                tree_view,
            ) == total,
            decode_level(bytes, offset).error == decode_level(
                bytes,
                scope.child_begin_position,
            ).error,
            ns_exact + children_ns(decode_level(bytes, offset).trees) == children_ns(
                decode_level(bytes, scope.child_begin_position).trees,
            ),
            0 <= ns_exact,
            ns_used == if ns_exact > i64::MAX {
                i64::MAX as int
            } else {
                ns_exact
            },
            !more ==> decode_level(bytes, offset).trees.len() == 0 && decode_level(
                bytes,
                offset,
            ).error.is_none(),
        decreases
                bytes.len() - offset,
                if more {
                    1int
                } else {
                    0int
                },
    {
        let ghost level = decode_level(bytes, offset);
        let ghost rows = stats@;
        match read_scope(stream, offset) {
            Err(error) => {
                return Err(CollectError::Decode(error));
            },
            Ok(None) => {
                more = false;
            },
            Ok(Some(child)) => {
                let ghost inner = decode_level(bytes, child.child_begin_position);
                let ghost rest = decode_level(bytes, child.next_sibling_position);
                proof {
                    assert(level.trees[0] == tree_at(bytes, child));
                    if inner.error.is_none() {
                        assert(level.trees.skip(1) =~= rest.trees);
                    }
                }
                let merged = if tree_view {
                    collect_scope(&mut stats[entry].children, thread_name, stream, &child, tree_view)
                } else {
                    collect_scope(stats, thread_name, stream, &child, tree_view)
                };
                proof {
                    if tree_view {
                        assert(stats@.len() == rows.len());
                        assert(stats@[entry as int].key == rows[entry as int].key);
                        assert(stats@[entry as int].scope_stats == rows[entry as int].scope_stats);
                        assert(nodes_of(rows)[entry as int] == rows[entry as int]@);
                        assert forall|j: int| 0 <= j < rows.len() && j != entry implies nodes_of(
                            stats@,
                        )[j] == entered[j] by {
                            assert(stats@[j] == rows[j]);
                            assert(nodes_of(rows)[j] == rows[j]@);
                        }
                    }
                    assert(nodes_of(stats@) =~= with_target(
                        entered,
                        entry as int,
                        tree_view,
                        target(nodes_of(stats@), entry as int, tree_view),
                    ));
                }
                if let Err(error) = merged {
                    return Err(error);
                }
                ns_used = if ns_used > i64::MAX - child.duration_ns {
                    i64::MAX
                } else {
                    ns_used + child.duration_ns
                };
                proof {
                    ns_exact = ns_exact + child.duration_ns;
                }
                offset = child.next_sibling_position;
            },
        }
    }
    let self_ns = self_time_of(scope.duration_ns, ns_used);
    let ghost inner = nodes_of(stats@);
    let recorded = stats[entry].scope_stats.record(scope, self_ns);
    proof {
        if recorded {
            assert(nodes_of(stats@) =~= with_stats(
                inner,
                entry as int,
                stats@[entry as int].scope_stats,
            ));
        } else {
            assert(nodes_of(stats@) =~= inner);
        }
    }
    if recorded {
        Ok(())
    } else {
        Err(CollectError::Overflow)
    }
}

/// Merges every scope of a thread's stream into `stats`, in stream order.
///
/// Ends at the first scope that cannot be decoded or whose figures would overflow; the
/// rows keep what was merged until then.
pub fn collect_stream<'s>(
    stats: &mut Vec<GroupedStats<'s>>,
    thread_name: &'s str,
    stream: &puffin::Stream,
    tree_view: bool,
) -> (result: Result<(), CollectError>)
    ensures
        ({
            let decoded = decode_level(stream_bytes(*stream), 0);
            let merged = merge_forest(
                nodes_of(old(stats)@),
                decoded.trees,
                thread_name@,
                tree_view,
            );
            &&& nodes_of(final(stats)@) == merged.nodes
            &&& result == collect_result(merged.stop, decoded.error)
            &&& result.is_ok() == (merged.stop.is_none() && decoded.error.is_none())
        }),
        final(stats).len() >= old(stats).len(),
        distinct_keys(nodes_of(old(stats)@)) ==> distinct_keys(nodes_of(final(stats)@)),
{
    let ghost bytes = stream_bytes(*stream);
    proof {
        if distinct_keys(nodes_of(stats@)) {
            lemma_merge_forest_distinct(
                nodes_of(stats@),
                decode_level(bytes, 0).trees,
                thread_name@,
                tree_view,
            );
        }
    }
    let ghost total = merge_forest(
        nodes_of(stats@),
        decode_level(bytes, 0).trees,
        thread_name@,
        tree_view,
    );
    let mut offset: u64 = 0;
    let mut more = true;
    while more
        invariant
            bytes == stream_bytes(*stream),
            total == merge_forest(
                nodes_of(old(stats)@),
                decode_level(bytes, 0).trees,
                thread_name@,
                tree_view,
            ),
            distinct_keys(nodes_of(old(stats)@)) ==> distinct_keys(total.nodes),
            stats.len() >= old(stats).len(),
            merge_forest(
                nodes_of(stats@),
                decode_level(bytes, offset).trees,
                thread_name@,
                tree_view,
            ) == total,
            decode_level(bytes, offset).error == decode_level(bytes, 0).error,
            !more ==> decode_level(bytes, offset).trees.len() == 0 && decode_level(
                bytes,
                offset,
            ).error.is_none(),
        decreases
                bytes.len() - offset,
                if more {
                    1int
                } else {
                    0int
                },
    {
        let ghost level = decode_level(bytes, offset);
        match read_scope(stream, offset) {
            Err(error) => {
                return Err(CollectError::Decode(error));
            },
            Ok(None) => {
                more = false;
            },
            Ok(Some(scope)) => {
                let ghost inner = decode_level(bytes, scope.child_begin_position);
                let ghost rest = decode_level(bytes, scope.next_sibling_position);
                proof {
                    assert(level.trees[0] == tree_at(bytes, scope));
                    if inner.error.is_none() {
                        assert(level.trees.skip(1) =~= rest.trees);
                    }
                }
                if let Err(error) = collect_scope(stats, thread_name, stream, &scope, tree_view) {
                    return Err(error);
                }
                offset = scope.next_sibling_position;
            },
        }
    }
    Ok(())
}

} // verus!
