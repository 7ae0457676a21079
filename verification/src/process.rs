//! The whole pass over a batch of frames: merge every stream, total the figures, sort the
//! rows.

use crate::collect::{collect_stream, merge_forest};
use crate::columns::Options;
use crate::order::{registered, SortSpec};
use crate::reader::{decode_level, stream_bytes};
use crate::laws::lemma_merged_streams_shape;
use crate::sort::{lemma_sorted_tree_distinct, sort_grouped_stats, sorted_tree};
use crate::stats::{distinct_keys, nodes_of, rows_sum, Figure, GroupedStats, Node};
use crate::text::str_eq;
use vstd::prelude::*;

verus! {

/// The figures of the whole tree.
#[derive(Clone, Copy, Debug, PartialEq, Eq)]
pub struct StatsTotals {
    /// Bytes taken by the records of all rows.
    pub bytes: usize,
    /// Self time of all rows.
    pub ns: i64,
    /// Number of rows, nested rows included.
    pub scopes: usize,
    /// Number of distinct threads in the batch.
    pub num_threads: usize,
}

/// The event stream of one thread in one frame.
pub struct ThreadStream<'a> {
    /// When the thread started, if that is known. Part of the thread's identity.
    pub start_time_ns: Option<i64>,
    /// The thread's name.
    pub name: &'a str,
    /// The events that the thread recorded during the frame.
    pub stream: &'a puffin::Stream,
}

/// One frame: the streams of its threads, in the order in which they are to be merged.
pub struct FrameStreams<'a> {
    pub threads: Vec<ThreadStream<'a>>,
}

/// The number of rows of a tree, nested rows included.
pub open spec fn rows_count(nodes: Seq<Node>) -> int
    decreases nodes,
{
    if nodes.len() == 0 {
        0
    } else {
        rows_count(nodes.drop_last()) + 1 + rows_count(nodes.last().children)
    }
}

/// The totals of a tree for a given number of threads, or `None` where one of them leaves
/// the range of its type.
pub open spec fn totals_of(nodes: Seq<Node>, num_threads: int) -> Option<StatsTotals> {
    let bytes = rows_sum(nodes, None, Figure::Bytes);
    let ns = rows_sum(nodes, None, Figure::TotalSelf);
    let scopes = rows_count(nodes);
    if bytes <= usize::MAX && i64::MIN <= ns <= i64::MAX && scopes <= usize::MAX && 0
        <= num_threads <= usize::MAX {
        Some(
            StatsTotals {
                bytes: bytes as usize,
                ns: ns as i64,
                scopes: scopes as usize,
                num_threads: num_threads as usize,
            },
        )
    } else {
        None
    }
}

/// The streams of all frames in one list, frame after frame.
pub open spec fn all_streams<'a>(frames: Seq<FrameStreams<'a>>) -> Seq<ThreadStream<'a>>
    decreases frames.len(),
{
    if frames.len() == 0 {
        Seq::empty()
    } else {
        all_streams(frames.drop_last()) + frames.last().threads@
    }
}

/// The rows after the scopes of each stream, in turn, are merged into `nodes`. A stream
/// that cannot be merged to its end leaves what was merged of it, and the next one follows.
pub open spec fn merged_streams<'a>(
    nodes: Seq<Node>,
    streams: Seq<ThreadStream<'a>>,
    hierarchical: bool,
) -> Seq<Node>
    decreases streams.len(),
{
    if streams.len() == 0 {
        nodes
    } else {
        merge_forest(
            merged_streams(nodes, streams.drop_last(), hierarchical),
            decode_level(stream_bytes(*streams.last().stream), 0).trees,
            streams.last().name@,
            hierarchical,
        ).nodes
    }
}

/// The identities of the threads of the streams: start time and name.
pub open spec fn thread_ids<'a>(streams: Seq<ThreadStream<'a>>) -> Set<(Option<i64>, Seq<char>)>
    decreases streams.len(),
{
    if streams.len() == 0 {
        Set::empty()
    } else {
        thread_ids(streams.drop_last()).insert(
            (streams.last().start_time_ns, streams.last().name@),
        )
    }
}

/// Neither the number of rows nor their bytes are negative.
pub proof fn lemma_tally_not_negative(nodes: Seq<Node>)
    ensures
        rows_count(nodes) >= 0,
        rows_sum(nodes, None, Figure::Bytes) >= 0,
    decreases nodes,
{
    if nodes.len() > 0 {
        lemma_tally_not_negative(nodes.drop_last());
        lemma_tally_not_negative(nodes.last().children);
    }
}

/// The number of rows and their bytes over the first rows of a list do not exceed those
/// over the whole list.
pub proof fn lemma_tally_of_prefix(nodes: Seq<Node>, upto: int)
    requires
        0 <= upto <= nodes.len(),
    ensures
        rows_count(nodes.take(upto)) <= rows_count(nodes),
        rows_sum(nodes.take(upto), None, Figure::Bytes) <= rows_sum(nodes, None, Figure::Bytes),
    decreases nodes.len(),
{
    if upto == nodes.len() {
        assert(nodes.take(upto) =~= nodes);
    } else {
        lemma_tally_of_prefix(nodes.drop_last(), upto);
        assert(nodes.drop_last().take(upto) =~= nodes.take(upto));
        lemma_tally_not_negative(nodes.last().children);
    }
}

/// Sums the bytes, the self time and the number of rows of a tree. Fails where the bytes or
/// the number of rows exceed `usize`.
fn tally<'a>(stats: &Vec<GroupedStats<'a>>) -> (sums: Option<(usize, i128, usize)>)
    ensures
        sums.is_some() == (rows_count(nodes_of(stats@)) <= usize::MAX && rows_sum(
            nodes_of(stats@),
            None,
            Figure::Bytes,
        ) <= usize::MAX),
        sums.is_some() ==> sums.unwrap().0 == rows_sum(nodes_of(stats@), None, Figure::Bytes)
            && sums.unwrap().1 == rows_sum(nodes_of(stats@), None, Figure::TotalSelf)
            && sums.unwrap().2 == rows_count(nodes_of(stats@)) && -0x8000_0000_0000_0000
            * sums.unwrap().2 <= sums.unwrap().1 <= 0x8000_0000_0000_0000 * sums.unwrap().2,
    decreases stats@,
{
    let ghost nodes = nodes_of(stats@);
    let mut bytes: usize = 0;
    let mut ns: i128 = 0;
    let mut scopes: usize = 0;
    let mut index: usize = 0;
    while index < stats.len()
        invariant
            nodes == nodes_of(stats@),
            index <= stats.len(),
            bytes == rows_sum(nodes.take(index as int), None, Figure::Bytes),
            ns == rows_sum(nodes.take(index as int), None, Figure::TotalSelf),
            scopes == rows_count(nodes.take(index as int)),
            -0x8000_0000_0000_0000 * scopes <= ns <= 0x8000_0000_0000_0000 * scopes,
        decreases stats.len() - index,
    {
        let row = &stats[index];
        proof {
            assert(nodes.take(index + 1).drop_last() =~= nodes.take(index as int));
            assert(nodes.take(index + 1).last() == row@);
            lemma_tally_of_prefix(nodes, index + 1);
            lemma_tally_not_negative(nodes.take(index as int));
            lemma_tally_not_negative(row@.children);
        }
        let below = match tally(&row.children) {
            Some(below) => below,
            None => { return None; },
        };
        let counted = match scopes.checked_add(1) {
            Some(counted) => counted,
            None => { return None; },
        };
        scopes = match counted.checked_add(below.2) {
            Some(counted) => counted,
            None => { return None; },
        };
        let sized = match bytes.checked_add(row.scope_stats.bytes) {
            Some(sized) => sized,
            None => { return None; },
        };
        bytes = match sized.checked_add(below.0) {
            Some(sized) => sized,
            None => { return None; },
        };
        ns = ns + row.scope_stats.total_self_ns as i128 + below.1;
        index += 1;
    }
    proof {
        assert(nodes.take(index as int) =~= nodes);
    }
    Some((bytes, ns, scopes))
}

/// The totals of a tree, without the number of threads, which is set to zero: the bytes and
/// the self time of all rows and their number, nested rows included. `None` where one of
/// them leaves the range of its type.
pub fn stats_totals<'a>(stats: &Vec<GroupedStats<'a>>) -> (totals: Option<StatsTotals>)
    ensures
        totals == totals_of(nodes_of(stats@), 0),
{
    match tally(stats) {
        Some((bytes, ns, scopes)) => {
            if ns < i64::MIN as i128 || ns > i64::MAX as i128 {
                None
            } else {
                Some(StatsTotals { bytes, ns: ns as i64, scopes, num_threads: 0 })
            }
        },
        None => None,
    }
}

/// The identities of the threads noted so far, as values.
pub open spec fn noted<'a>(seen: Seq<(Option<i64>, &'a str)>) -> Seq<(Option<i64>, Seq<char>)> {
    Seq::new(seen.len(), |i: int| (seen[i].0, seen[i].1@))
}

fn same_start(a: Option<i64>, b: Option<i64>) -> (same: bool)
    ensures
        same == (a == b),
{
    match (a, b) {
        (Some(x), Some(y)) => x == y,
        (None, None) => true,
        _ => false,
    }
}

/// Notes a thread, unless it was noted before.
fn note_thread<'a>(seen: &mut Vec<(Option<i64>, &'a str)>, start_time_ns: Option<i64>, name: &'a str)
    requires
        noted(old(seen)@).no_duplicates(),
    ensures
        noted(final(seen)@).no_duplicates(),
        noted(final(seen)@).to_set() == noted(old(seen)@).to_set().insert((start_time_ns, name@)),
{
    let ghost id = (start_time_ns, name@);
    let ghost before = noted(seen@);
    let mut index: usize = 0;
    while index < seen.len()
        invariant
            index <= seen.len(),
            seen@ == old(seen)@,
            before == noted(seen@),
            before.no_duplicates(),
            id == (start_time_ns, name@),
            forall|j: int| 0 <= j < index ==> before[j] != id,
        decreases seen.len() - index,
    {
        if same_start(seen[index].0, start_time_ns) && str_eq(seen[index].1, name) {
            proof {
                assert(before[index as int] == id);
                assert(before.to_set().insert(id) =~= before.to_set());
            }
            return ;
        }
        index += 1;
    }
    seen.push((start_time_ns, name));
    proof {
        assert(noted(seen@) =~= before.push(id));
        assert(before.push(id).to_set() =~= before.to_set().insert(id)) by {
            assert forall|x: (Option<i64>, Seq<char>)|
                before.push(id).to_set().contains(x) == before.to_set().insert(id).contains(
                    x,
                ) by {
                if before.push(id).to_set().contains(x) {
                    let j = choose|j: int| 0 <= j < before.push(id).len() && before.push(id)[j] == x;
                    if j < before.len() {
                        assert(before[j] == x);
                    }
                }
                if before.to_set().contains(x) {
                    let j = choose|j: int| 0 <= j < before.len() && before[j] == x;
                    assert(before.push(id)[j] == x);
                }
                if x == id {
                    assert(before.push(id)[before.len() as int] == x);
                }
            }
        }
    }
}

/// Aggregates a batch of frames into the rows of the table.
///
/// The streams are merged frame after frame and thread after thread, grouped by call tree
/// if the options say so. The totals are taken over all rows; they are `None` where one of
/// them leaves the range of its type. Then the rows are sorted on every level by the
/// column and in the direction that the options name.
pub fn process_scopes<'a>(
    scope_infos: &puffin::ScopeCollection,
    frames: &Vec<FrameStreams<'a>>,
    options: &Options,
) -> (result: (Vec<GroupedStats<'a>>, Option<StatsTotals>))
    ensures
        ({
            let streams = all_streams(frames@);
            let merged = merged_streams(Seq::empty(), streams, options.tree_view);
            &&& nodes_of(result.0@) == sorted_tree(
                merged,
                SortSpec { column: options.sort_by, ascending: options.sort_asc },
                registered(*scope_infos),
            )
            &&& result.1 == totals_of(merged, thread_ids(streams).len() as int)
        }),
        distinct_keys(nodes_of(result.0@)),
{
    let mut scopes: Vec<GroupedStats<'a>> = Vec::new();
    let mut seen: Vec<(Option<i64>, &'a str)> = Vec::new();
    let mut f: usize = 0;
    proof {
        assert(frames@.take(0) =~= Seq::<FrameStreams<'a>>::empty());
        assert(nodes_of(scopes@) =~= Seq::<Node>::empty());
        assert(noted(seen@).to_set() =~= Set::<(Option<i64>, Seq<char>)>::empty());
    }
    while f < frames.len()
        invariant
            f <= frames.len(),
            nodes_of(scopes@) == merged_streams(
                Seq::empty(),
                all_streams(frames@.take(f as int)),
                options.tree_view,
            ),
            noted(seen@).no_duplicates(),
            noted(seen@).to_set() == thread_ids(all_streams(frames@.take(f as int))),
        decreases frames.len() - f,
    {
        let threads = &frames[f].threads;
        let ghost earlier = all_streams(frames@.take(f as int));
        let mut t: usize = 0;
        proof {
            assert(earlier + threads@.take(0) =~= earlier);
        }
        while t < threads.len()
            invariant
                t <= threads.len(),
                nodes_of(scopes@) == merged_streams(
                    Seq::empty(),
                    earlier + threads@.take(t as int),
                    options.tree_view,
                ),
                noted(seen@).no_duplicates(),
                noted(seen@).to_set() == thread_ids(earlier + threads@.take(t as int)),
            decreases threads.len() - t,
        {
            let thread = &threads[t];
            proof {
                let now = earlier + threads@.take(t + 1);
                assert(now.drop_last() =~= earlier + threads@.take(t as int));
                assert(now.last() == threads@[t as int]);
            }
            note_thread(&mut seen, thread.start_time_ns, thread.name);
            let _ = collect_stream(&mut scopes, thread.name, thread.stream, options.tree_view);
            t += 1;
        }
        proof {
            assert(threads@.take(t as int) =~= threads@);
            assert(frames@.take(f + 1).drop_last() =~= frames@.take(f as int));
            assert(frames@.take(f + 1).last() == frames@[f as int]);
        }
        f += 1;
    }
    proof {
        assert(frames@.take(f as int) =~= frames@);
        noted(seen@).unique_seq_to_set();
        lemma_merged_streams_shape(all_streams(frames@), options.tree_view);
        lemma_sorted_tree_distinct(
            nodes_of(scopes@),
            SortSpec { column: options.sort_by, ascending: options.sort_asc },
            registered(*scope_infos),
        );
    }
    let totals = match stats_totals(&scopes) {
        Some(totals) => Some(
            StatsTotals {
                bytes: totals.bytes,
                ns: totals.ns,
                scopes: totals.scopes,
                num_threads: seen.len(),
            },
        ),
        None => None,
    };
    sort_grouped_stats(
        &mut scopes,
        scope_infos,
        SortSpec { column: options.sort_by, ascending: options.sort_asc },
    );
    (scopes, totals)
}

} // verus!
