//! The aggregation tree: one node for each instrumentation point and thread, with the
//! figures accumulated over every scope that was merged into it.

use crate::reader::ScopeEvent;
use crate::text::str_eq;
use vstd::prelude::*;

verus! {

/// Identity of one aggregated row: an instrumentation point and the thread that ran it.
#[derive(Clone, Copy, Debug, PartialEq, Eq, Hash)]
pub struct Key<'a> {
    pub id: u32,
    pub thread_name: &'a str,
}

/// The mathematical value of a [`Key`].
pub struct KeyView {
    pub id: u32,
    pub thread_name: Seq<char>,
}

impl<'a> View for Key<'a> {
    type V = KeyView;

    open spec fn view(&self) -> KeyView {
        KeyView { id: self.id, thread_name: self.thread_name@ }
    }
}

impl<'a> Key<'a> {
    /// Whether this key names the given instrumentation point on the given thread.
    pub fn matches(&self, id: u32, thread_name: &str) -> (same: bool)
        ensures
            same == (self@ == (KeyView { id, thread_name: thread_name@ })),
    {
        self.id == id && str_eq(self.thread_name, thread_name)
    }
}

/// Accumulated figures of one aggregated row.
#[derive(Clone, Copy, Debug, PartialEq, Eq)]
pub struct ScopeStats {
    /// How many scopes were merged into the row.
    pub count: usize,
    /// Bytes that their records take in the stream.
    pub bytes: usize,
    /// Time covered by all of them, minus the time covered by their nested scopes.
    pub total_self_ns: i64,
    /// Time covered by all of them, nested scopes included.
    pub total_ns: i64,
    /// The largest self time of a single one.
    pub max_ns: i64,
}

/// The bytes that a record is accounted with: two sentinels of one byte, two time stamps of
/// eight, the size field of eight, and the payload with its length byte.
pub open spec fn encoded_size(event: ScopeEvent) -> int {
    27 + event.data_len
}

/// The time a scope spent outside its nested scopes, which together took `children_ns`:
/// the difference, but never less than zero.
pub open spec fn self_time(duration_ns: int, children_ns: int) -> int {
    if duration_ns > children_ns {
        duration_ns - children_ns
    } else {
        0
    }
}

/// The figures after one more scope with the given self time is merged in, or `None` where
/// one of them would leave the range of its type.
pub open spec fn recorded(stats: ScopeStats, event: ScopeEvent, self_ns: int) -> Option<
    ScopeStats,
> {
    if stats.count + 1 <= usize::MAX && stats.bytes + encoded_size(event) <= usize::MAX
        && i64::MIN <= self_ns <= i64::MAX && i64::MIN <= stats.total_self_ns + self_ns
        <= i64::MAX && i64::MIN <= stats.total_ns + event.duration_ns <= i64::MAX {
        Some(
            ScopeStats {
                count: (stats.count + 1) as usize,
                bytes: (stats.bytes + encoded_size(event)) as usize,
                total_self_ns: (stats.total_self_ns + self_ns) as i64,
                total_ns: (stats.total_ns + event.duration_ns) as i64,
                max_ns: if stats.max_ns >= self_ns {
                    stats.max_ns
                } else {
                    self_ns as i64
                },
            },
        )
    } else {
        None
    }
}

impl ScopeStats {
    /// The figures of a row into which nothing was merged yet.
    pub open spec fn zero() -> ScopeStats {
        ScopeStats { count: 0, bytes: 0, total_self_ns: 0, total_ns: 0, max_ns: 0 }
    }

    /// Merges one more scope into the figures. Returns `false`, and changes nothing, where a
    /// figure would leave the range of its type.
    pub fn record(&mut self, scope: &ScopeEvent, self_ns: i64) -> (done: bool)
        ensures
            done == recorded(*old(self), *scope, self_ns as int).is_some(),
            done ==> *final(self) == recorded(*old(self), *scope, self_ns as int).unwrap(),
            !done ==> *final(self) == *old(self),
    {
        let size = match scope_byte_size(scope) {
            Some(size) => size,
            None => { return false; },
        };
        let count = match self.count.checked_add(1) {
            Some(count) => count,
            None => { return false; },
        };
        let bytes = match self.bytes.checked_add(size) {
            Some(bytes) => bytes,
            None => { return false; },
        };
        let total_self_ns = match self.total_self_ns.checked_add(self_ns) {
            Some(total) => total,
            None => { return false; },
        };
        let total_ns = match self.total_ns.checked_add(scope.duration_ns) {
            Some(total) => total,
            None => { return false; },
        };
        self.count = count;
        self.bytes = bytes;
        self.total_self_ns = total_self_ns;
        self.total_ns = total_ns;
        if self_ns > self.max_ns {
            self.max_ns = self_ns;
        }
        true
    }
}

impl Default for ScopeStats {
    fn default() -> (stats: ScopeStats)
        ensures
            stats == ScopeStats::zero(),
    {
        ScopeStats { count: 0, bytes: 0, total_self_ns: 0, total_ns: 0, max_ns: 0 }
    }
}

/// The bytes that a record is accounted with, or `None` where the sum exceeds `usize`.
pub fn scope_byte_size(scope: &ScopeEvent) -> (size: Option<usize>)
    ensures
        size.is_some() == (encoded_size(*scope) <= usize::MAX),
        size.is_some() ==> size.unwrap() == encoded_size(*scope),
{
    scope.data_len.checked_add(27)
}

/// The self time of a scope that ran for `duration_ns` while its nested scopes ran for
/// `children_ns` together: never negative.
pub fn self_time_of(duration_ns: i64, children_ns: i64) -> (self_ns: i64)
    ensures
        self_ns == if self_time(duration_ns as int, children_ns as int) > i64::MAX {
            i64::MAX as int
        } else {
            self_time(duration_ns as int, children_ns as int)
        },
        self_ns >= 0,
{
    if duration_ns > children_ns {
        match duration_ns.checked_sub(children_ns) {
            Some(difference) => difference,
            None => i64::MAX,
        }
    } else {
        0
    }
}

/// One aggregated row with the rows of the scopes nested in it.
#[derive(Debug)]
pub struct GroupedStats<'a> {
    pub key: Key<'a>,
    pub scope_stats: ScopeStats,
    pub children: Vec<GroupedStats<'a>>,
}

/// The mathematical value of a [`GroupedStats`]: a finite tree.
pub struct Node {
    pub key: KeyView,
    pub stats: ScopeStats,
    pub children: Seq<Node>,
}

impl<'a> View for GroupedStats<'a> {
    type V = Node;

    open spec fn view(&self) -> Node
        decreases self,
    {
        Node { key: self.key@, stats: self.scope_stats, children: nodes_of(self.children@) }
    }
}

/// The values of a list of rows.
pub open spec fn nodes_of<'a>(rows: Seq<GroupedStats<'a>>) -> Seq<Node>
    decreases rows,
{
    Seq::new(
        rows.len(),
        |i: int|
            if 0 <= i < rows.len() {
                rows[i]@
            } else {
                arbitrary()
            },
    )
}

/// The index of the first node with the given key, or the length of the list if there is
/// none.
pub open spec fn position_of(nodes: Seq<Node>, key: KeyView) -> int
    decreases nodes.len(),
{
    if nodes.len() == 0 {
        0
    } else {
        let before = position_of(nodes.drop_last(), key);
        if before < nodes.len() - 1 || nodes.last().key == key {
            before
        } else {
            nodes.len() as int
        }
    }
}

/// Whether no two rows of a list have the same key, on every level of the tree.
pub open spec fn distinct_keys(nodes: Seq<Node>) -> bool
    decreases nodes,
{
    nodes.len() == 0 || (distinct_keys(nodes.drop_last()) && position_of(
        nodes.drop_last(),
        nodes.last().key,
    ) == nodes.len() - 1 && distinct_keys(nodes.last().children))
}

/// A node for `key` into which nothing was merged yet.
pub open spec fn fresh_node(key: KeyView) -> Node {
    Node { key, stats: ScopeStats::zero(), children: Seq::empty() }
}

/// The list with a fresh node for `key` at its end, unless it holds a node for `key`
/// already.
pub open spec fn with_entry(nodes: Seq<Node>, key: KeyView) -> Seq<Node> {
    if position_of(nodes, key) < nodes.len() {
        nodes
    } else {
        nodes.push(fresh_node(key))
    }
}

/// `position_of` finds the first node with the key: no node before it has the key, and the
/// node at it has, if there is one.
pub proof fn lemma_position_of(nodes: Seq<Node>, key: KeyView)
    ensures
        0 <= position_of(nodes, key) <= nodes.len(),
        position_of(nodes, key) < nodes.len() ==> nodes[position_of(nodes, key)].key == key,
        forall|j: int| 0 <= j < position_of(nodes, key) ==> (#[trigger] nodes[j]).key != key,
    decreases nodes.len(),
{
    if nodes.len() > 0 {
        let front = nodes.drop_last();
        lemma_position_of(front, key);
        assert forall|j: int| 0 <= j < position_of(nodes, key) implies (#[trigger] nodes[j]).key
            != key by {
            if j < front.len() {
                assert(front[j] == nodes[j]);
            }
        }
    }
}

/// A fresh row put at the end for a key that the list does not hold keeps the keys distinct.
pub proof fn lemma_with_entry_distinct(nodes: Seq<Node>, key: KeyView)
    requires
        distinct_keys(nodes),
    ensures
        distinct_keys(with_entry(nodes, key)),
{
    if position_of(nodes, key) == nodes.len() {
        assert(with_entry(nodes, key).drop_last() =~= nodes);
        assert(distinct_keys(fresh_node(key).children));
    }
}

/// The index of the row with the given key; a fresh row is put at the end of the list if
/// there is none.
pub fn entry_index<'a>(stats: &mut Vec<GroupedStats<'a>>, id: u32, thread_name: &'a str) -> (index:
    usize)
    ensures
        index == position_of(nodes_of(old(stats)@), KeyView { id, thread_name: thread_name@ }),
        nodes_of(final(stats)@) == with_entry(
            nodes_of(old(stats)@),
            KeyView { id, thread_name: thread_name@ },
        ),
        index < final(stats).len(),
        distinct_keys(nodes_of(old(stats)@)) ==> distinct_keys(nodes_of(final(stats)@)),
{
    let ghost key = KeyView { id, thread_name: thread_name@ };
    let ghost nodes = nodes_of(stats@);
    proof {
        if distinct_keys(nodes) {
            lemma_with_entry_distinct(nodes, key);
        }
    }
    let mut index: usize = 0;
    while index < stats.len()
        invariant
            index <= stats.len(),
            key == (KeyView { id, thread_name: thread_name@ }),
            stats@ == old(stats)@,
            nodes == nodes_of(stats@),
            forall|j: int| 0 <= j < index ==> (#[trigger] nodes[j]).key != key,
        decreases stats.len() - index,
    {
        if stats[index].key.matches(id, thread_name) {
            proof {
                lemma_position_of(nodes, key);
                assert(nodes[index as int] == stats@[index as int]@);
                assert(nodes[index as int].key == key);
            }
            return index;
        }
        index += 1;
    }
    proof {
        lemma_position_of(nodes, key);
    }
    stats.push(
        GroupedStats {
            key: Key { id, thread_name },
            scope_stats: ScopeStats::default(),
            children: Vec::new(),
        },
    );
    proof {
        assert(nodes_of(stats@) =~= nodes.push(fresh_node(key))) by {
            assert(nodes_of(Seq::<GroupedStats<'a>>::empty()) =~= Seq::<Node>::empty());
        }
    }
    index
}

/// One of the figures of a row that add up when scopes are merged.
pub enum Figure {
    Count,
    Bytes,
    TotalSelf,
    Total,
}

/// The value of a figure in the figures of a row.
pub open spec fn figure_of(stats: ScopeStats, figure: Figure) -> int {
    match figure {
        Figure::Count => stats.count as int,
        Figure::Bytes => stats.bytes as int,
        Figure::TotalSelf => stats.total_self_ns as int,
        Figure::Total => stats.total_ns as int,
    }
}

/// Whether a key is among those asked for: every key where `only` is `None`, else that one.
pub open spec fn selected(key: KeyView, only: Option<KeyView>) -> bool {
    only.is_none() || only == Some(key)
}

/// The sum of a figure over the selected rows of a tree, nested rows included.
pub open spec fn rows_sum(nodes: Seq<Node>, only: Option<KeyView>, figure: Figure) -> int
    decreases nodes,
{
    if nodes.len() == 0 {
        0
    } else {
        rows_sum(nodes.drop_last(), only, figure) + (if selected(nodes.last().key, only) {
            figure_of(nodes.last().stats, figure)
        } else {
            0
        }) + rows_sum(nodes.last().children, only, figure)
    }
}

/// What a row and the rows nested in it add to [`rows_sum`].
pub open spec fn node_sum(node: Node, only: Option<KeyView>, figure: Figure) -> int {
    (if selected(node.key, only) {
        figure_of(node.stats, figure)
    } else {
        0
    }) + rows_sum(node.children, only, figure)
}

} // verus!
