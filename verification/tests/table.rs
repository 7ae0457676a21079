use puffin::{
    FrameData, FrameView, GlobalProfiler, ScopeCollection, ScopeDetails, ScopeId, Stream,
    StreamInfo, ThreadInfo,
};
use scope_stats::columns::{Options, StatsColumn, StatsColumnId};
use scope_stats::order::{row_precedes, row_sign, SortSpec};
use scope_stats::process::{process_scopes, stats_totals, FrameStreams, StatsTotals, ThreadStream};
use scope_stats::rows::{grid_rows, tree_branch, tree_indent};
use scope_stats::sort::{sort_grouped_stats, sort_level};
use scope_stats::stats::{GroupedStats, Key, ScopeStats};
use scope_stats::text::{str_eq, str_sign};
use std::cmp::Ordering;
use std::sync::{Arc, Mutex};

/// A registry that knows the given scopes, and the ids it gave them.
fn registry_of(scopes: &[(&'static str, &'static str, u32)]) -> (ScopeCollection, Vec<u32>) {
    let mut profiler = GlobalProfiler::default();
    let details: Vec<ScopeDetails> = scopes
        .iter()
        .map(|(name, file, line)| {
            ScopeDetails::from_scope_name(*name).with_file(*file).with_line_nr(*line)
        })
        .collect();
    let ids: Vec<ScopeId> = profiler.register_user_scopes(&details);
    let mut stream = Stream::default();
    let (at, _) = stream.begin_scope(|| 0, ids[0], "");
    stream.end_scope(at, 1);
    let info = StreamInfo::parse(stream).unwrap();
    profiler.report_user_scopes(
        ThreadInfo { start_time_ns: None, name: "registry".to_owned() },
        &info.as_stream_into_ref(),
    );
    let caught: Arc<Mutex<Option<Arc<FrameData>>>> = Arc::new(Mutex::new(None));
    let sink = caught.clone();
    profiler.add_sink(Box::new(move |frame| {
        *sink.lock().unwrap() = Some(frame);
    }));
    profiler.new_frame();
    let frame = caught.lock().unwrap().take().unwrap();
    let mut view = FrameView::default();
    view.add_frame(frame);
    (view.scope_collection().clone(), ids.iter().map(|id| id.0.get()).collect())
}

fn row<'a>(id: u32, thread_name: &'a str, figures: ScopeStats) -> GroupedStats<'a> {
    GroupedStats { key: Key { id, thread_name }, scope_stats: figures, children: Vec::new() }
}

fn figures(count: usize, bytes: usize, total_self_ns: i64, total_ns: i64, max_ns: i64) -> ScopeStats {
    ScopeStats { count, bytes, total_self_ns, total_ns, max_ns }
}

fn ids_of(rows: &[GroupedStats]) -> Vec<u32> {
    rows.iter().map(|row| row.key.id).collect()
}

fn timed(stream: &mut Stream, id: u32, start_ns: i64, stop_ns: i64) {
    let scope = ScopeId(std::num::NonZeroU32::new(id).unwrap());
    let (at, _) = stream.begin_scope(|| start_ns, scope, "");
    stream.end_scope(at, stop_ns);
}

#[test]
fn strings_compare_by_their_bytes() {
    assert_eq!(str_sign("abc", "abd"), -1);
    assert_eq!(str_sign("abd", "abc"), 1);
    assert_eq!(str_sign("abc", "abc"), 0);
    assert_eq!(str_sign("ab", "abc"), -1);
    assert_eq!(str_sign("abc", "ab"), 1);
    assert_eq!(str_sign("", ""), 0);
    assert_eq!(str_sign("", "a"), -1);
    assert_eq!(str_sign("Z", "a"), -1);
    assert_eq!(str_sign("é", "z"), 1);
    assert!(str_eq("main", "main"));
    assert!(!str_eq("main", "main "));
    assert!(!str_eq("main", "Main"));
}

#[test]
fn numeric_columns_order_by_their_figure() {
    let registry = ScopeCollection::default();
    let a = row(1, "a", figures(1, 20, 300, 4000, 50));
    let b = row(2, "b", figures(2, 10, 300, 5000, 40));
    assert_eq!(StatsColumnId::ID.grouped_stats_ordering(&registry, &a, &b), Ordering::Less);
    assert_eq!(StatsColumnId::Count.grouped_stats_ordering(&registry, &a, &b), Ordering::Less);
    assert_eq!(StatsColumnId::Size.grouped_stats_ordering(&registry, &a, &b), Ordering::Greater);
    assert_eq!(
        StatsColumnId::TotalSelfTime.grouped_stats_ordering(&registry, &a, &b),
        Ordering::Equal
    );
    assert_eq!(
        StatsColumnId::TotalTime.grouped_stats_ordering(&registry, &a, &b),
        Ordering::Less
    );
    assert_eq!(
        StatsColumnId::MaxSelfTime.grouped_stats_ordering(&registry, &a, &b),
        Ordering::Greater
    );
    assert_eq!(StatsColumnId::Thread.grouped_stats_ordering(&registry, &a, &b), Ordering::Less);
    assert_eq!(StatsColumnId::Thread.grouped_stats_ordering(&registry, &b, &a), Ordering::Greater);
    assert_eq!(StatsColumnId::Thread.grouped_stats_ordering(&registry, &a, &a), Ordering::Equal);
}

#[test]
fn means_compare_as_quotients() {
    let registry = ScopeCollection::default();
    // 300 / 1 against 300 / 2, and 4000 / 1 against 5000 / 2.
    let a = row(1, "a", figures(1, 0, 300, 4000, 0));
    let b = row(2, "a", figures(2, 0, 300, 5000, 0));
    assert_eq!(
        StatsColumnId::MeanSelfTime.grouped_stats_ordering(&registry, &a, &b),
        Ordering::Greater
    );
    assert_eq!(
        StatsColumnId::MeanTime.grouped_stats_ordering(&registry, &a, &b),
        Ordering::Greater
    );
    assert_eq!(
        StatsColumnId::MeanTime.grouped_stats_ordering(&registry, &b, &a),
        Ordering::Less
    );
    // 10 / 4 and 5 / 2 are the same mean.
    let c = row(3, "a", figures(4, 0, 10, 10, 0));
    let d = row(4, "a", figures(2, 0, 5, 5, 0));
    assert_eq!(
        StatsColumnId::MeanSelfTime.grouped_stats_ordering(&registry, &c, &d),
        Ordering::Equal
    );
    // Negative totals and the largest figures stay exact.
    let low = row(5, "a", figures(usize::MAX, 0, i64::MIN, i64::MIN, 0));
    let high = row(6, "a", figures(usize::MAX, 0, i64::MAX, i64::MAX, 0));
    assert_eq!(
        StatsColumnId::MeanSelfTime.grouped_stats_ordering(&registry, &low, &high),
        Ordering::Less
    );
    let close = row(7, "a", figures(usize::MAX, 0, i64::MAX - 1, 0, 0));
    assert_eq!(
        StatsColumnId::MeanSelfTime.grouped_stats_ordering(&registry, &close, &high),
        Ordering::Less
    );
}

#[test]
fn mean_over_no_scopes_ties_with_everything() {
    let registry = ScopeCollection::default();
    let none = row(1, "a", figures(0, 0, 0, 0, 0));
    let some = row(2, "a", figures(2, 0, 300, 5000, 0));
    let stray = row(3, "a", figures(0, 0, 70, 70, 0));
    assert_eq!(
        StatsColumnId::MeanSelfTime.grouped_stats_ordering(&registry, &none, &some),
        Ordering::Equal
    );
    assert_eq!(
        StatsColumnId::MeanTime.grouped_stats_ordering(&registry, &some, &none),
        Ordering::Equal
    );
    assert_eq!(
        StatsColumnId::MeanTime.grouped_stats_ordering(&registry, &stray, &some),
        Ordering::Equal
    );
}

#[test]
fn names_and_locations_come_from_the_registry() {
    let (registry, ids) = registry_of(&[("beta", "a.rs", 7), ("alpha", "b.rs", 0)]);
    let first = row(ids[0], "t", ScopeStats::default());
    let second = row(ids[1], "t", ScopeStats::default());
    assert_eq!(
        StatsColumnId::ScopeName.grouped_stats_ordering(&registry, &first, &second),
        Ordering::Greater
    );
    assert_eq!(
        StatsColumnId::Location.grouped_stats_ordering(&registry, &first, &second),
        Ordering::Less
    );
    assert_eq!(row_sign(StatsColumnId::ScopeName, &registry, &second, &first), -1);
    assert_eq!(row_sign(StatsColumnId::Location, &registry, &second, &first), 1);
    assert_eq!(row_sign(StatsColumnId::Location, &registry, &first, &first), 0);
}

#[test]
fn unknown_id_ties_by_name_and_location() {
    let (registry, ids) = registry_of(&[("beta", "a.rs", 7)]);
    let known = row(ids[0], "t", ScopeStats::default());
    let unknown = row(u32::MAX, "t", ScopeStats::default());
    let zero = row(0, "t", ScopeStats::default());
    for column in [StatsColumnId::ScopeName, StatsColumnId::Location] {
        assert_eq!(column.grouped_stats_ordering(&registry, &known, &unknown), Ordering::Equal);
        assert_eq!(column.grouped_stats_ordering(&registry, &unknown, &known), Ordering::Equal);
        assert_eq!(column.grouped_stats_ordering(&registry, &zero, &known), Ordering::Equal);
    }
}

#[test]
fn direction_turns_the_comparison_round() {
    let registry = ScopeCollection::default();
    let small = row(1, "a", figures(1, 0, 0, 0, 0));
    let large = row(2, "a", figures(5, 0, 0, 0, 0));
    let up = SortSpec { column: StatsColumnId::Count, ascending: true };
    let down = SortSpec { column: StatsColumnId::Count, ascending: false };
    assert!(row_precedes(up, &registry, &small, &large));
    assert!(!row_precedes(up, &registry, &large, &small));
    assert!(row_precedes(down, &registry, &large, &small));
    assert!(!row_precedes(down, &registry, &small, &large));
    assert!(!row_precedes(up, &registry, &small, &small));
    assert!(!row_precedes(down, &registry, &small, &small));
}

#[test]
fn sorting_is_stable() {
    let registry = ScopeCollection::default();
    let mut rows = vec![
        row(1, "a", figures(3, 0, 0, 0, 0)),
        row(2, "a", figures(1, 0, 0, 0, 0)),
        row(3, "a", figures(3, 0, 0, 0, 0)),
        row(4, "a", figures(2, 0, 0, 0, 0)),
        row(5, "a", figures(1, 0, 0, 0, 0)),
        row(6, "a", figures(3, 0, 0, 0, 0)),
    ];
    sort_level(&mut rows, &registry, SortSpec { column: StatsColumnId::Count, ascending: true });
    assert_eq!(ids_of(&rows), vec![2, 5, 4, 1, 3, 6]);
    sort_level(&mut rows, &registry, SortSpec { column: StatsColumnId::Count, ascending: false });
    assert_eq!(ids_of(&rows), vec![1, 3, 6, 4, 2, 5]);
}

#[test]
fn sorting_the_other_way_reverses_when_nothing_ties() {
    let registry = ScopeCollection::default();
    let mut rows = vec![
        row(1, "a", figures(0, 0, 40, 0, 0)),
        row(2, "a", figures(0, 0, -10, 0, 0)),
        row(3, "a", figures(0, 0, 30, 0, 0)),
        row(4, "a", figures(0, 0, 70, 0, 0)),
        row(5, "a", figures(0, 0, 0, 0, 0)),
    ];
    let up = SortSpec { column: StatsColumnId::TotalSelfTime, ascending: true };
    let down = SortSpec { column: StatsColumnId::TotalSelfTime, ascending: false };
    sort_level(&mut rows, &registry, up);
    let ascending = ids_of(&rows);
    assert_eq!(ascending, vec![2, 5, 3, 1, 4]);
    sort_level(&mut rows, &registry, down);
    let mut reversed = ascending.clone();
    reversed.reverse();
    assert_eq!(ids_of(&rows), reversed);
}

#[test]
fn every_level_is_sorted() {
    let registry = ScopeCollection::default();
    let mut rows = vec![
        GroupedStats {
            key: Key { id: 1, thread_name: "a" },
            scope_stats: figures(1, 0, 0, 0, 0),
            children: vec![
                row(11, "a", figures(2, 0, 0, 0, 0)),
                GroupedStats {
                    key: Key { id: 12, thread_name: "a" },
                    scope_stats: figures(9, 0, 0, 0, 0),
                    children: vec![
                        row(121, "a", figures(1, 0, 0, 0, 0)),
                        row(122, "a", figures(4, 0, 0, 0, 0)),
                    ],
                },
                row(13, "a", figures(5, 0, 0, 0, 0)),
            ],
        },
        row(2, "a", figures(7, 0, 0, 0, 0)),
    ];
    let down = SortSpec { column: StatsColumnId::Count, ascending: false };
    sort_grouped_stats(&mut rows, &registry, down);
    assert_eq!(ids_of(&rows), vec![2, 1]);
    assert_eq!(ids_of(&rows[1].children), vec![12, 13, 11]);
    assert_eq!(ids_of(&rows[1].children[0].children), vec![122, 121]);
    let up = SortSpec { column: StatsColumnId::Count, ascending: true };
    sort_grouped_stats(&mut rows, &registry, up);
    assert_eq!(ids_of(&rows), vec![1, 2]);
    assert_eq!(ids_of(&rows[0].children), vec![11, 13, 12]);
    assert_eq!(ids_of(&rows[0].children[2].children), vec![121, 122]);
}

#[test]
fn sorting_by_thread_and_by_name() {
    let (registry, ids) = registry_of(&[("gamma", "x.rs", 1), ("alpha", "x.rs", 2), ("beta", "x.rs", 3)]);
    let mut rows = vec![
        row(ids[0], "worker", ScopeStats::default()),
        row(ids[1], "main", ScopeStats::default()),
        row(ids[2], "worker", ScopeStats::default()),
    ];
    sort_level(&mut rows, &registry, SortSpec { column: StatsColumnId::Thread, ascending: true });
    assert_eq!(ids_of(&rows), vec![ids[1], ids[0], ids[2]]);
    sort_level(&mut rows, &registry, SortSpec { column: StatsColumnId::ScopeName, ascending: true });
    assert_eq!(ids_of(&rows), vec![ids[1], ids[2], ids[0]]);
    sort_level(&mut rows, &registry, SortSpec { column: StatsColumnId::Location, ascending: false });
    assert_eq!(ids_of(&rows), vec![ids[2], ids[1], ids[0]]);
}

#[test]
fn totals_sum_every_row() {
    let rows = vec![
        GroupedStats {
            key: Key { id: 1, thread_name: "a" },
            scope_stats: figures(1, 100, 70, 0, 0),
            children: vec![row(2, "a", figures(2, 20, 30, 0, 0)), row(3, "a", figures(1, 3, -5, 0, 0))],
        },
        row(4, "a", figures(7, 1000, 1, 0, 0)),
    ];
    assert_eq!(
        stats_totals(&rows),
        Some(StatsTotals { bytes: 1123, ns: 96, scopes: 4, num_threads: 0 })
    );
    assert_eq!(
        stats_totals(&Vec::new()),
        Some(StatsTotals { bytes: 0, ns: 0, scopes: 0, num_threads: 0 })
    );
}

#[test]
fn totals_that_do_not_fit_are_none() {
    let bytes = vec![row(1, "a", figures(0, usize::MAX, 0, 0, 0)), row(2, "a", figures(0, 1, 0, 0, 0))];
    assert_eq!(stats_totals(&bytes), None);
    let time = vec![row(1, "a", figures(0, 0, i64::MAX, 0, 0)), row(2, "a", figures(0, 0, 1, 0, 0))];
    assert_eq!(stats_totals(&time), None);
    let balanced = vec![
        row(1, "a", figures(0, 0, i64::MAX, 0, 0)),
        row(2, "a", figures(0, 0, i64::MAX, 0, 0)),
        row(3, "a", figures(0, 0, i64::MIN, 0, 0)),
    ];
    assert_eq!(
        stats_totals(&balanced),
        Some(StatsTotals { bytes: 0, ns: i64::MAX - 1, scopes: 3, num_threads: 0 })
    );
}

#[test]
fn a_batch_is_merged_totalled_and_sorted() {
    let mut main = Stream::default();
    timed(&mut main, 1, 0, 10);
    timed(&mut main, 2, 10, 50);
    let mut worker = Stream::default();
    timed(&mut worker, 2, 0, 100);
    let frames = vec![
        FrameStreams {
            threads: vec![
                ThreadStream { start_time_ns: Some(0), name: "main", stream: &main },
                ThreadStream { start_time_ns: Some(5), name: "worker", stream: &worker },
            ],
        },
        FrameStreams {
            threads: vec![ThreadStream { start_time_ns: Some(0), name: "main", stream: &main }],
        },
    ];
    let registry = ScopeCollection::default();
    let options = Options::default();
    let (rows, totals) = process_scopes(&registry, &frames, &options);
    // Largest total self time first.
    assert_eq!(rows.len(), 3);
    assert_eq!(rows[0].key, Key { id: 2, thread_name: "worker" });
    assert_eq!(rows[0].scope_stats, figures(1, 27, 100, 100, 100));
    assert_eq!(rows[1].key, Key { id: 2, thread_name: "main" });
    assert_eq!(rows[1].scope_stats, figures(2, 54, 80, 80, 40));
    assert_eq!(rows[2].key, Key { id: 1, thread_name: "main" });
    assert_eq!(rows[2].scope_stats, figures(2, 54, 20, 20, 10));
    assert_eq!(totals, Some(StatsTotals { bytes: 135, ns: 200, scopes: 3, num_threads: 2 }));
}

#[test]
fn threads_are_told_apart_by_start_time_and_name() {
    let stream = Stream::default();
    let frames = vec![FrameStreams {
        threads: vec![
            ThreadStream { start_time_ns: Some(0), name: "main", stream: &stream },
            ThreadStream { start_time_ns: Some(1), name: "main", stream: &stream },
            ThreadStream { start_time_ns: None, name: "main", stream: &stream },
            ThreadStream { start_time_ns: Some(0), name: "main", stream: &stream },
            ThreadStream { start_time_ns: Some(0), name: "other", stream: &stream },
            ThreadStream { start_time_ns: None, name: "main", stream: &stream },
        ],
    }];
    let (rows, totals) = process_scopes(&ScopeCollection::default(), &frames, &Options::default());
    assert!(rows.is_empty());
    assert_eq!(totals.unwrap().num_threads, 4);
    let (_, none) = process_scopes(&ScopeCollection::default(), &Vec::new(), &Options::default());
    assert_eq!(none, Some(StatsTotals { bytes: 0, ns: 0, scopes: 0, num_threads: 0 }));
}

#[test]
fn a_broken_stream_does_not_stop_the_batch() {
    let mut good = Stream::default();
    timed(&mut good, 1, 0, 10);
    let mut broken_bytes = good.bytes().to_vec();
    broken_bytes.extend_from_slice(&good.bytes()[..10]);
    let broken = Stream::from(broken_bytes);
    let frames = vec![FrameStreams {
        threads: vec![
            ThreadStream { start_time_ns: None, name: "a", stream: &broken },
            ThreadStream { start_time_ns: None, name: "b", stream: &good },
        ],
    }];
    let mut options = Options::default();
    options.header_clicked(StatsColumnId::Thread);
    options.header_clicked(StatsColumnId::Thread);
    let (rows, totals) = process_scopes(&ScopeCollection::default(), &frames, &options);
    assert_eq!(rows.len(), 2);
    assert_eq!(rows[0].key, Key { id: 1, thread_name: "a" });
    assert_eq!(rows[0].scope_stats.count, 1);
    assert_eq!(rows[1].key, Key { id: 1, thread_name: "b" });
    assert_eq!(rows[1].scope_stats.count, 1);
    assert_eq!(totals.unwrap().scopes, 2);
}

#[test]
fn tree_view_nests_the_rows() {
    let mut stream = Stream::default();
    let outer = ScopeId(std::num::NonZeroU32::new(1).unwrap());
    let (at, _) = stream.begin_scope(|| 0, outer, "");
    timed(&mut stream, 2, 10, 40);
    timed(&mut stream, 3, 40, 45);
    stream.end_scope(at, 100);
    let frames = vec![FrameStreams {
        threads: vec![ThreadStream { start_time_ns: None, name: "main", stream: &stream }],
    }];
    let mut options = Options::default();
    options.tree_view = true;
    let (rows, totals) = process_scopes(&ScopeCollection::default(), &frames, &options);
    assert_eq!(rows.len(), 1);
    assert_eq!(rows[0].scope_stats.total_self_ns, 65);
    assert_eq!(ids_of(&rows[0].children), vec![2, 3]);
    assert_eq!(totals, Some(StatsTotals { bytes: 81, ns: 100, scopes: 3, num_threads: 1 }));
}

#[test]
fn unknown_scope_is_merged_but_not_laid_out() {
    let (registry, ids) = registry_of(&[("known", "k.rs", 1), ("nested", "n.rs", 2)]);
    let unknown = u32::MAX - 1;
    let mut stream = Stream::default();
    timed(&mut stream, ids[0], 0, 10);
    let hidden = ScopeId(std::num::NonZeroU32::new(unknown).unwrap());
    let (at, _) = stream.begin_scope(|| 10, hidden, "");
    timed(&mut stream, ids[1], 11, 15);
    stream.end_scope(at, 20);
    timed(&mut stream, ids[1], 20, 50);
    let frames = vec![FrameStreams {
        threads: vec![ThreadStream { start_time_ns: None, name: "main", stream: &stream }],
    }];
    let mut options = Options::default();
    options.tree_view = true;
    options.header_clicked(StatsColumnId::Location);
    let (rows, _) = process_scopes(&registry, &frames, &options);
    // Every key was merged, the unknown one too.
    assert_eq!(rows.len(), 3);
    let merged = rows.iter().find(|row| row.key.id == unknown).unwrap();
    assert_eq!(merged.scope_stats.count, 1);
    assert_eq!(merged.scope_stats.total_self_ns, 6);
    assert_eq!(merged.children.len(), 1);
    // Sorted by location, largest first; the unknown row ties and keeps its place.
    assert_eq!(ids_of(&rows), vec![ids[0], unknown, ids[1]]);
    // The unknown row is not laid out, nor is the row nested in it.
    let grid = grid_rows(&registry, &rows);
    assert_eq!(grid.len(), 2);
    assert_eq!(grid[0].key.id, ids[0]);
    assert_eq!(grid[0].name, "known");
    assert_eq!(grid[0].location, "k.rs:1");
    assert_eq!(grid[1].key.id, ids[1]);
    assert_eq!(grid[1].name, "nested");
    assert_eq!(grid[1].stats.count, 1);
    assert_eq!(grid[1].stats.total_ns, 30);
}

#[test]
fn grid_rows_carry_the_lines_of_the_tree() {
    let (registry, ids) = registry_of(&[("a", "a.rs", 0), ("b", "b.rs", 0), ("c", "c.rs", 0)]);
    let rows = vec![
        GroupedStats {
            key: Key { id: ids[0], thread_name: "t" },
            scope_stats: figures(1, 0, 0, 0, 0),
            children: vec![
                GroupedStats {
                    key: Key { id: ids[1], thread_name: "t" },
                    scope_stats: figures(2, 0, 0, 0, 0),
                    children: vec![
                        row(ids[2], "t", figures(3, 0, 0, 0, 0)),
                        row(ids[0], "t", figures(4, 0, 0, 0, 0)),
                    ],
                },
                GroupedStats {
                    key: Key { id: ids[2], thread_name: "t" },
                    scope_stats: figures(5, 0, 0, 0, 0),
                    children: vec![row(ids[1], "t", figures(6, 0, 0, 0, 0))],
                },
            ],
        },
        row(ids[1], "t", figures(7, 0, 0, 0, 0)),
    ];
    let grid = grid_rows(&registry, &rows);
    let counts: Vec<usize> = grid.iter().map(|row| row.stats.count).collect();
    assert_eq!(counts, vec![1, 2, 3, 4, 5, 6, 7]);
    let levels: Vec<usize> = grid.iter().map(|row| row.level).collect();
    assert_eq!(levels, vec![0, 1, 2, 2, 1, 2, 0]);
    let prefixes: Vec<&str> = grid.iter().map(|row| row.prefix.as_str()).collect();
    assert_eq!(prefixes, vec!["", " ├╴", " |  ├╴", " |  └╴", " └╴", "    └╴", ""]);
    let descendants: Vec<usize> = grid.iter().map(|row| row.descendants).collect();
    assert_eq!(descendants, vec![5, 2, 0, 0, 1, 0, 0]);
    let parents: Vec<bool> = grid.iter().map(|row| row.has_children).collect();
    assert_eq!(parents, vec![true, true, false, false, true, false, false]);
    assert_eq!(grid[0].location, "a.rs");
    assert_eq!(grid[2].name, "c");
}

#[test]
fn branches_and_indents() {
    assert_eq!(tree_branch(0, false), "");
    assert_eq!(tree_branch(0, true), "");
    assert_eq!(tree_branch(1, true), " └╴");
    assert_eq!(tree_branch(3, false), " ├╴");
    assert_eq!(tree_indent(0, true), "");
    assert_eq!(tree_indent(2, true), "   ");
    assert_eq!(tree_indent(2, false), " | ");
}

#[test]
fn clicking_a_header_sets_the_sort() {
    let mut options = Options::default();
    assert_eq!(options.sort_marker(StatsColumnId::TotalSelfTime), "▼");
    assert_eq!(options.sort_marker(StatsColumnId::Count), "");
    options.header_clicked(StatsColumnId::TotalSelfTime);
    assert_eq!(options.sort_by, StatsColumnId::TotalSelfTime);
    assert!(options.sort_asc);
    assert_eq!(options.sort_marker(StatsColumnId::TotalSelfTime), "▲");
    options.header_clicked(StatsColumnId::Count);
    assert_eq!(options.sort_by, StatsColumnId::Count);
    assert!(!options.sort_asc);
    options.header_clicked(StatsColumnId::Count);
    assert!(options.sort_asc);
    options.header_clicked(StatsColumnId::Count);
    assert!(!options.sort_asc);
    assert_eq!(options.columns.len(), 11);
}

#[test]
fn shown_columns_keep_their_order() {
    let mut options = Options::default();
    assert_eq!(
        options.visible_columns(),
        vec![
            StatsColumnId::ID,
            StatsColumnId::Location,
            StatsColumnId::ScopeName,
            StatsColumnId::Count,
            StatsColumnId::TotalSelfTime,
            StatsColumnId::MeanSelfTime,
            StatsColumnId::MaxSelfTime,
            StatsColumnId::TotalTime,
            StatsColumnId::MeanTime,
            StatsColumnId::Size,
        ]
    );
    options.columns = vec![
        StatsColumn::new(StatsColumnId::Size, false),
        StatsColumn::new(StatsColumnId::Thread, true),
        StatsColumn::new(StatsColumnId::ID, true),
    ];
    assert_eq!(options.visible_columns(), vec![StatsColumnId::Thread, StatsColumnId::ID]);
    options.columns.clear();
    assert!(options.visible_columns().is_empty());
}

#[test]
fn columns_move_by_one_place() {
    let mut options = Options::default();
    options.columns = vec![
        StatsColumn::new(StatsColumnId::ID, true),
        StatsColumn::new(StatsColumnId::Thread, false),
        StatsColumn::new(StatsColumnId::Count, true),
    ];
    options.move_column_up(0);
    options.move_column_down(2);
    options.move_column_up(3);
    options.move_column_down(usize::MAX);
    assert_eq!(options.columns[0].id, StatsColumnId::ID);
    assert_eq!(options.columns[2].id, StatsColumnId::Count);
    options.move_column_up(2);
    assert_eq!(options.columns[1], StatsColumn::new(StatsColumnId::Count, true));
    assert_eq!(options.columns[2], StatsColumn::new(StatsColumnId::Thread, false));
    options.move_column_down(0);
    assert_eq!(options.columns[0], StatsColumn::new(StatsColumnId::Count, true));
    assert_eq!(options.columns[1], StatsColumn::new(StatsColumnId::ID, true));
}

#[test]
fn every_column_has_its_title() {
    let titles = [
        (StatsColumnId::Thread, "Thread"),
        (StatsColumnId::Location, "Location"),
        (StatsColumnId::ScopeName, "Scope name"),
        (StatsColumnId::ID, "ID"),
        (StatsColumnId::Count, "Count"),
        (StatsColumnId::Size, "Size"),
        (StatsColumnId::TotalSelfTime, "Total self time"),
        (StatsColumnId::MeanSelfTime, "Mean self time"),
        (StatsColumnId::MaxSelfTime, "Max self time"),
        (StatsColumnId::TotalTime, "Total time"),
        (StatsColumnId::MeanTime, "Mean time"),
    ];
    for (column, title) in titles {
        assert_eq!(column.title(), title);
    }
    assert_eq!(StatsColumnId::default(), StatsColumnId::TotalSelfTime);
    assert_eq!(StatsColumn::default(), StatsColumn::new(StatsColumnId::TotalSelfTime, false));
}
