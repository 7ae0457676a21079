use puffin::{ScopeId, Stream};
use scope_stats::collect::{collect_scope, collect_stream, CollectError};
use scope_stats::reader::{read_scope, DecodeError, ScopeEvent};
use scope_stats::stats::{
    entry_index, scope_byte_size, self_time_of, GroupedStats, Key, ScopeStats,
};
use std::num::NonZeroU32;

fn scope_id(id: u32) -> ScopeId {
    ScopeId(NonZeroU32::new(id).unwrap())
}

fn begin(stream: &mut Stream, id: u32, start_ns: i64, data: &str) -> usize {
    stream.begin_scope(|| start_ns, scope_id(id), data).0
}

fn leaf(stream: &mut Stream, id: u32, start_ns: i64, stop_ns: i64) {
    let at = begin(stream, id, start_ns, "");
    stream.end_scope(at, stop_ns);
}

/// A(0..100) with B(10..40) and B(50..70) nested in it.
fn nested_stream() -> Stream {
    let mut stream = Stream::default();
    let a = begin(&mut stream, 1, 0, "");
    leaf(&mut stream, 2, 10, 40);
    leaf(&mut stream, 2, 50, 70);
    stream.end_scope(a, 100);
    stream
}

/// A(0..100) with B(10..40) nested in it, followed by B(50..70) beside it.
fn sibling_stream() -> Stream {
    let mut stream = Stream::default();
    let a = begin(&mut stream, 1, 0, "");
    leaf(&mut stream, 2, 10, 40);
    stream.end_scope(a, 100);
    leaf(&mut stream, 2, 50, 70);
    stream
}

fn stats(count: usize, bytes: usize, total_self_ns: i64, total_ns: i64, max_ns: i64) -> ScopeStats {
    ScopeStats { count, bytes, total_self_ns, total_ns, max_ns }
}

#[test]
fn read_scope_returns_the_record_at_the_offset() {
    let mut stream = Stream::default();
    let at = begin(&mut stream, 7, 100, "data");
    stream.end_scope(at, 300);
    let event = read_scope(&stream, 0).unwrap().unwrap();
    assert_eq!(event.id, 7);
    assert_eq!(event.duration_ns, 200);
    assert_eq!(event.data_len, 4);
    assert_eq!(event.child_begin_position, 26);
    assert_eq!(event.next_sibling_position, 35);
    assert_eq!(event.next_sibling_position as usize, stream.len());
    assert!(read_scope(&stream, event.next_sibling_position).unwrap().is_none());
    assert!(read_scope(&stream, event.child_begin_position).unwrap().is_none());
}

#[test]
fn read_scope_fails_beyond_the_end() {
    let stream = nested_stream();
    assert_eq!(
        read_scope(&stream, stream.len() as u64 + 1).unwrap_err(),
        DecodeError::InvalidOffset
    );
}

#[test]
fn read_scope_fails_on_a_truncated_record() {
    let stream = nested_stream();
    let cut = Stream::from(stream.bytes()[..stream.len() - 3].to_vec());
    assert_eq!(read_scope(&cut, 0).unwrap_err(), DecodeError::PrematureEnd);
}

#[test]
fn read_scope_fails_on_an_unfinished_scope() {
    let mut stream = Stream::default();
    begin(&mut stream, 1, 0, "");
    assert_eq!(read_scope(&stream, 0).unwrap_err(), DecodeError::ScopeNeverEnded);
}

#[test]
fn read_scope_fails_on_a_scope_that_ends_before_it_begins() {
    let mut stream = Stream::default();
    leaf(&mut stream, 1, 100, 50);
    assert_eq!(read_scope(&stream, 0).unwrap_err(), DecodeError::InvalidStream);
}

#[test]
fn read_scope_rejects_a_size_that_overflows_the_offset() {
    let mut stream = Stream::default();
    leaf(&mut stream, 1, 0, 10);
    let mut bytes = stream.bytes().to_vec();
    // The size field follows '(' (1), the id (4), the start time (8) and the payload length (1).
    bytes[14..22].copy_from_slice(&(u64::MAX - 5).to_le_bytes());
    let broken = Stream::from(bytes);
    assert_eq!(read_scope(&broken, 0).unwrap_err(), DecodeError::InvalidStream);
}

#[test]
fn read_scope_rejects_a_duration_that_overflows() {
    let mut stream = Stream::default();
    leaf(&mut stream, 1, i64::MIN, i64::MAX);
    assert_eq!(read_scope(&stream, 0).unwrap_err(), DecodeError::InvalidStream);
}

#[test]
fn read_scope_accepts_the_longest_duration() {
    let mut stream = Stream::default();
    leaf(&mut stream, 1, -1, i64::MAX - 1);
    assert_eq!(read_scope(&stream, 0).unwrap().unwrap().duration_ns, i64::MAX);
}

#[test]
fn byte_size_counts_framing_and_payload() {
    let event = ScopeEvent {
        id: 1,
        duration_ns: 0,
        data_len: 3,
        child_begin_position: 0,
        next_sibling_position: 0,
    };
    assert_eq!(scope_byte_size(&event), Some(30));
    let empty = ScopeEvent { data_len: 0, ..event };
    assert_eq!(scope_byte_size(&empty), Some(27));
    let huge = ScopeEvent { data_len: usize::MAX - 26, ..event };
    assert_eq!(scope_byte_size(&ScopeEvent { data_len: usize::MAX - 27, ..event }), Some(usize::MAX));
    assert_eq!(scope_byte_size(&huge), None);
}

#[test]
fn self_time_is_never_negative() {
    assert_eq!(self_time_of(100, 30), 70);
    assert_eq!(self_time_of(100, 100), 0);
    assert_eq!(self_time_of(100, 250), 0);
    assert_eq!(self_time_of(-5, 0), 0);
    assert_eq!(self_time_of(i64::MAX, -1), i64::MAX);
    assert_eq!(self_time_of(10, -5), 15);
}

#[test]
fn record_adds_one_scope() {
    let event = ScopeEvent {
        id: 1,
        duration_ns: 100,
        data_len: 2,
        child_begin_position: 0,
        next_sibling_position: 0,
    };
    let mut figures = ScopeStats::default();
    assert_eq!(figures, stats(0, 0, 0, 0, 0));
    assert!(figures.record(&event, 70));
    assert_eq!(figures, stats(1, 29, 70, 100, 70));
    assert!(figures.record(&event, 30));
    assert_eq!(figures, stats(2, 58, 100, 200, 70));
}

#[test]
fn record_leaves_the_figures_on_overflow() {
    let event = ScopeEvent {
        id: 1,
        duration_ns: 100,
        data_len: 0,
        child_begin_position: 0,
        next_sibling_position: 0,
    };
    let mut full = stats(usize::MAX, 0, 0, 0, 0);
    assert!(!full.record(&event, 1));
    assert_eq!(full, stats(usize::MAX, 0, 0, 0, 0));
    let mut long = stats(1, 0, 0, i64::MAX - 50, 0);
    assert!(!long.record(&event, 1));
    assert_eq!(long, stats(1, 0, 0, i64::MAX - 50, 0));
}

#[test]
fn entry_index_finds_or_appends() {
    let mut rows: Vec<GroupedStats> = Vec::new();
    assert_eq!(entry_index(&mut rows, 4, "main"), 0);
    assert_eq!(entry_index(&mut rows, 5, "main"), 1);
    assert_eq!(entry_index(&mut rows, 4, "worker"), 2);
    assert_eq!(entry_index(&mut rows, 4, "main"), 0);
    assert_eq!(rows.len(), 3);
    assert_eq!(rows[2].key, Key { id: 4, thread_name: "worker" });
    assert_eq!(rows[2].scope_stats, ScopeStats::default());
    assert!(rows[2].children.is_empty());
}

#[test]
fn nested_scopes_grouped_by_call_tree() {
    let stream = nested_stream();
    let mut rows = Vec::new();
    assert_eq!(collect_stream(&mut rows, "main", &stream, true), Ok(()));
    assert_eq!(rows.len(), 1);
    let a = &rows[0];
    assert_eq!(a.key, Key { id: 1, thread_name: "main" });
    assert_eq!(a.scope_stats, stats(1, 27, 50, 100, 50));
    assert_eq!(a.children.len(), 1);
    let b = &a.children[0];
    assert_eq!(b.key, Key { id: 2, thread_name: "main" });
    assert_eq!(b.scope_stats, stats(2, 54, 50, 50, 30));
    assert!(b.children.is_empty());
}

#[test]
fn scope_beside_its_namesake_grouped_by_call_tree() {
    let stream = sibling_stream();
    let mut rows = Vec::new();
    assert_eq!(collect_stream(&mut rows, "main", &stream, true), Ok(()));
    assert_eq!(rows.len(), 2);
    assert_eq!(rows[0].key.id, 1);
    assert_eq!(rows[0].scope_stats, stats(1, 27, 70, 100, 70));
    assert_eq!(rows[0].children.len(), 1);
    assert_eq!(rows[0].children[0].scope_stats, stats(1, 27, 30, 30, 30));
    assert_eq!(rows[1].key.id, 2);
    assert_eq!(rows[1].scope_stats, stats(1, 27, 20, 20, 20));
}

#[test]
fn scope_beside_its_namesake_flat() {
    let stream = sibling_stream();
    let mut rows = Vec::new();
    assert_eq!(collect_stream(&mut rows, "main", &stream, false), Ok(()));
    assert_eq!(rows.len(), 2);
    assert_eq!(rows[0].key.id, 1);
    assert_eq!(rows[0].scope_stats.count, 1);
    assert_eq!(rows[0].scope_stats.total_ns, 100);
    assert_eq!(rows[0].scope_stats.total_self_ns, 70);
    assert_eq!(rows[1].key.id, 2);
    assert_eq!(rows[1].scope_stats.count, 2);
    assert_eq!(rows[1].scope_stats.total_ns, 50);
    assert_eq!(rows[1].scope_stats.total_self_ns, 50);
    assert_eq!(rows[1].scope_stats.max_ns, 30);
    assert!(rows[0].children.is_empty());
    assert!(rows[1].children.is_empty());
}

#[test]
fn flat_rows_sum_the_rows_of_the_call_tree() {
    // A { B { A {} } B {} } A {}
    let mut stream = Stream::default();
    let a = begin(&mut stream, 1, 0, "x");
    let b = begin(&mut stream, 2, 10, "");
    leaf(&mut stream, 1, 12, 20);
    stream.end_scope(b, 40);
    leaf(&mut stream, 2, 50, 70);
    stream.end_scope(a, 100);
    leaf(&mut stream, 1, 100, 130);

    let mut flat = Vec::new();
    assert_eq!(collect_stream(&mut flat, "main", &stream, false), Ok(()));
    let mut tree = Vec::new();
    assert_eq!(collect_stream(&mut tree, "main", &stream, true), Ok(()));

    assert_eq!(flat.len(), 2);
    assert_eq!(flat[0].key.id, 1);
    assert_eq!(flat[0].scope_stats, stats(3, 82, 50 + 8 + 30, 100 + 8 + 30, 50));
    assert_eq!(flat[1].key.id, 2);
    assert_eq!(flat[1].scope_stats, stats(2, 54, 22 + 20, 30 + 20, 22));

    assert_eq!(tree.len(), 1);
    let top = &tree[0];
    assert_eq!(top.scope_stats, stats(2, 55, 80, 130, 50));
    assert_eq!(top.children.len(), 1);
    let middle = &top.children[0];
    assert_eq!(middle.scope_stats, stats(2, 54, 42, 50, 22));
    assert_eq!(middle.children.len(), 1);
    let bottom = &middle.children[0];
    assert_eq!(bottom.key.id, 1);
    assert_eq!(bottom.scope_stats, stats(1, 27, 8, 8, 8));

    assert_eq!(flat[0].scope_stats.count, top.scope_stats.count + bottom.scope_stats.count);
    assert_eq!(flat[0].scope_stats.bytes, top.scope_stats.bytes + bottom.scope_stats.bytes);
    assert_eq!(
        flat[0].scope_stats.total_self_ns,
        top.scope_stats.total_self_ns + bottom.scope_stats.total_self_ns
    );
    assert_eq!(
        flat[0].scope_stats.total_ns,
        top.scope_stats.total_ns + bottom.scope_stats.total_ns
    );
    assert_eq!(
        flat[0].scope_stats.max_ns,
        top.scope_stats.max_ns.max(bottom.scope_stats.max_ns)
    );
    assert_eq!(flat[1].scope_stats, middle.scope_stats);
}

#[test]
fn self_times_add_up_to_the_outermost_durations() {
    let stream = nested_stream();
    let mut rows = Vec::new();
    assert_eq!(collect_stream(&mut rows, "main", &stream, true), Ok(()));
    let total: i64 = rows[0].scope_stats.total_self_ns + rows[0].children[0].scope_stats.total_self_ns;
    assert_eq!(total, 100);
}

#[test]
fn child_longer_than_its_parent_gives_no_self_time() {
    let mut stream = Stream::default();
    let a = begin(&mut stream, 1, 0, "");
    leaf(&mut stream, 2, 0, 50);
    stream.end_scope(a, 10);
    let mut rows = Vec::new();
    assert_eq!(collect_stream(&mut rows, "main", &stream, true), Ok(()));
    assert_eq!(rows[0].scope_stats, stats(1, 27, 0, 10, 0));
    assert_eq!(rows[0].children[0].scope_stats, stats(1, 27, 50, 50, 50));
}

#[test]
fn two_scopes_with_one_key_make_one_row() {
    let mut stream = Stream::default();
    leaf(&mut stream, 9, 0, 30);
    leaf(&mut stream, 9, 40, 100);
    let mut rows = Vec::new();
    assert_eq!(collect_stream(&mut rows, "main", &stream, true), Ok(()));
    assert_eq!(rows.len(), 1);
    assert_eq!(rows[0].scope_stats, stats(2, 54, 90, 90, 60));
}

#[test]
fn one_id_on_two_threads_makes_two_rows() {
    let stream = nested_stream();
    let mut rows = Vec::new();
    assert_eq!(collect_stream(&mut rows, "main", &stream, false), Ok(()));
    assert_eq!(collect_stream(&mut rows, "worker", &stream, false), Ok(()));
    assert_eq!(collect_stream(&mut rows, "main", &stream, false), Ok(()));
    assert_eq!(rows.len(), 4);
    assert_eq!(rows[0].key, Key { id: 1, thread_name: "main" });
    assert_eq!(rows[1].key, Key { id: 2, thread_name: "main" });
    assert_eq!(rows[2].key, Key { id: 1, thread_name: "worker" });
    assert_eq!(rows[3].key, Key { id: 2, thread_name: "worker" });
    assert_eq!(rows[0].scope_stats.count, 2);
    assert_eq!(rows[1].scope_stats.count, 4);
    assert_eq!(rows[2].scope_stats.count, 1);
    assert_eq!(rows[3].scope_stats.count, 2);
}

#[test]
fn payload_counts_towards_the_bytes() {
    let mut stream = Stream::default();
    let at = begin(&mut stream, 1, 0, "image.png");
    stream.end_scope(at, 5);
    let mut rows = Vec::new();
    assert_eq!(collect_stream(&mut rows, "main", &stream, false), Ok(()));
    assert_eq!(rows[0].scope_stats.bytes, 36);
}

#[test]
fn truncated_stream_keeps_what_was_merged() {
    let mut stream = Stream::default();
    leaf(&mut stream, 1, 0, 10);
    let a = begin(&mut stream, 2, 10, "");
    leaf(&mut stream, 3, 11, 15);
    leaf(&mut stream, 4, 15, 18);
    stream.end_scope(a, 20);
    let broken = Stream::from(stream.bytes()[..stream.len() - 3].to_vec());
    let mut rows = Vec::new();
    let result = collect_stream(&mut rows, "main", &broken, true);
    assert_eq!(result, Err(CollectError::Decode(DecodeError::PrematureEnd)));
    assert_eq!(rows.len(), 1);
    assert_eq!(rows[0].key.id, 1);
    assert_eq!(rows[0].scope_stats.count, 1);
}

#[test]
fn failure_inside_a_scope_leaves_its_row_without_a_count() {
    let mut stream = Stream::default();
    leaf(&mut stream, 1, 0, 10);
    let a = begin(&mut stream, 2, 10, "");
    leaf(&mut stream, 3, 11, 15);
    leaf(&mut stream, 4, 50, 18);
    stream.end_scope(a, 20);
    let mut rows = Vec::new();
    let result = collect_stream(&mut rows, "main", &stream, true);
    assert_eq!(result, Err(CollectError::Decode(DecodeError::InvalidStream)));
    assert_eq!(rows.len(), 2);
    assert_eq!(rows[0].scope_stats, stats(1, 27, 10, 10, 10));
    assert_eq!(rows[1].key.id, 2);
    assert_eq!(rows[1].scope_stats, ScopeStats::default());
    assert_eq!(rows[1].children.len(), 1);
    assert_eq!(rows[1].children[0].key.id, 3);
    assert_eq!(rows[1].children[0].scope_stats, stats(1, 27, 4, 4, 4));
}

#[test]
fn overflow_ends_the_stream_and_keeps_the_rows() {
    let stream = nested_stream();
    let mut rows = vec![GroupedStats {
        key: Key { id: 1, thread_name: "main" },
        scope_stats: stats(usize::MAX, 0, 0, 0, 0),
        children: Vec::new(),
    }];
    let result = collect_stream(&mut rows, "main", &stream, true);
    assert_eq!(result, Err(CollectError::Overflow));
    assert_eq!(rows.len(), 1);
    assert_eq!(rows[0].scope_stats, stats(usize::MAX, 0, 0, 0, 0));
    assert_eq!(rows[0].children.len(), 1);
    assert_eq!(rows[0].children[0].scope_stats, stats(2, 54, 50, 50, 30));
}

#[test]
fn collect_scope_merges_one_scope_with_its_children() {
    let stream = nested_stream();
    let outer = read_scope(&stream, 0).unwrap().unwrap();
    let mut rows = Vec::new();
    assert_eq!(collect_scope(&mut rows, "main", &stream, &outer, false), Ok(()));
    assert_eq!(rows.len(), 2);
    assert_eq!(rows[0].scope_stats, stats(1, 27, 50, 100, 50));
    assert_eq!(rows[1].scope_stats, stats(2, 54, 50, 50, 30));
}

#[test]
fn empty_stream_adds_nothing() {
    let stream = Stream::default();
    let mut rows: Vec<GroupedStats> = Vec::new();
    assert_eq!(collect_stream(&mut rows, "main", &stream, true), Ok(()));
    assert!(rows.is_empty());
}
