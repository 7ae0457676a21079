//! Ordering the rows of the table by one of their metrics.

use crate::columns::StatsColumnId;
use crate::stats::{GroupedStats, Node, ScopeStats};
use crate::text::{lemma_lex_sign_flip, lemma_lex_sign_transitive, lex_sign, str_sign};
use core::cmp::Ordering;
use vstd::prelude::*;
use vstd::string::StringSliceAdditionalSpecFns;
use vstd::utf8::encode_utf8;

verus! {

/// `puffin::ScopeCollection`, the registry of instrumentation points. Nothing is known of a
/// value but what [`registered`] names.
#[verifier::external_type_specification]
#[verifier::external_body]
pub struct ExScopeCollection(puffin::ScopeCollection);

/// What is known of an instrumentation point: its name and where it stands in the source.
#[derive(Clone, Debug, PartialEq, Eq)]
pub struct ScopeInfo {
    pub name: String,
    pub location: String,
}

/// The instrumentation points that a collection knows: for each id the name and the
/// location, in this order.
pub uninterp spec fn registered(registry: puffin::ScopeCollection) -> Map<u32, (Seq<char>, Seq<char>)>;

/// Looks an id up with `puffin::ScopeCollection::fetch_by_id` and copies out the name
/// (`ScopeDetails::name`) and the location (`ScopeDetails::location`). It finds exactly the
/// ids that the collection knows. Zero is no id and is never found.
#[verifier::external_body]
pub(crate) fn resolve(registry: &puffin::ScopeCollection, id: u32) -> (info: Option<ScopeInfo>)
    ensures
        info.is_some() == registered(*registry).dom().contains(id),
        info.is_some() ==> (info.unwrap().name@, info.unwrap().location@) == registered(
            *registry,
        )[id],
{
    let details = registry.fetch_by_id(&puffin::ScopeId(core::num::NonZeroU32::new(id)?))?;
    Some(ScopeInfo { name: details.name().to_string(), location: details.location() })
}

/// How two numbers compare: negative if the first is smaller, zero if they are equal,
/// positive if the first is larger.
pub open spec fn number_sign(a: int, b: int) -> int {
    if a < b {
        -1
    } else if a == b {
        0
    } else {
        1
    }
}

/// How two texts compare as strings are ordered: lexicographically by their UTF-8 bytes.
pub open spec fn text_sign(a: Seq<char>, b: Seq<char>) -> int {
    lex_sign(encode_utf8(a), encode_utf8(b))
}

/// How two means compare, each given as a total and the count it is spread over. The
/// quotients are compared exactly, not rounded. A mean over no scopes is no number and
/// compares as equal to every other.
pub open spec fn mean_sign(a_total: int, a_count: int, b_total: int, b_count: int) -> int {
    if a_count == 0 || b_count == 0 {
        0
    } else {
        number_sign(a_total * b_count, b_total * a_count)
    }
}

/// How row `a` compares with row `b` by the metric of a column: negative if `a` comes
/// first, zero if they tie, positive if `b` comes first. By location or scope name, a row
/// whose id the registry does not know ties with every other.
pub open spec fn column_sign(
    column: StatsColumnId,
    registry: Map<u32, (Seq<char>, Seq<char>)>,
    a: Node,
    b: Node,
) -> int {
    let known = registry.dom().contains(a.key.id) && registry.dom().contains(b.key.id);
    match column {
        StatsColumnId::Thread => text_sign(a.key.thread_name, b.key.thread_name),
        StatsColumnId::Location => if known {
            text_sign(registry[a.key.id].1, registry[b.key.id].1)
        } else {
            0
        },
        StatsColumnId::ScopeName => if known {
            text_sign(registry[a.key.id].0, registry[b.key.id].0)
        } else {
            0
        },
        StatsColumnId::ID => number_sign(a.key.id as int, b.key.id as int),
        StatsColumnId::Count => number_sign(a.stats.count as int, b.stats.count as int),
        StatsColumnId::Size => number_sign(a.stats.bytes as int, b.stats.bytes as int),
        StatsColumnId::TotalSelfTime => number_sign(
            a.stats.total_self_ns as int,
            b.stats.total_self_ns as int,
        ),
        StatsColumnId::MeanSelfTime => mean_sign(
            a.stats.total_self_ns as int,
            a.stats.count as int,
            b.stats.total_self_ns as int,
            b.stats.count as int,
        ),
        StatsColumnId::MaxSelfTime => number_sign(a.stats.max_ns as int, b.stats.max_ns as int),
        StatsColumnId::TotalTime => number_sign(a.stats.total_ns as int, b.stats.total_ns as int),
        StatsColumnId::MeanTime => mean_sign(
            a.stats.total_ns as int,
            a.stats.count as int,
            b.stats.total_ns as int,
            b.stats.count as int,
        ),
    }
}

/// The ordering that a sign stands for.
pub open spec fn sign_order(sign: int) -> Ordering {
    if sign < 0 {
        Ordering::Less
    } else if sign == 0 {
        Ordering::Equal
    } else {
        Ordering::Greater
    }
}

/// A metric to sort by and the direction: the smallest first, or the largest.
#[derive(Clone, Copy, Debug, PartialEq, Eq, Structural)]
pub struct SortSpec {
    pub column: StatsColumnId,
    pub ascending: bool,
}

/// Whether row `a` has to come before row `b` under a sort rule.
pub open spec fn precedes(
    rule: SortSpec,
    registry: Map<u32, (Seq<char>, Seq<char>)>,
    a: Node,
    b: Node,
) -> bool {
    if rule.ascending {
        column_sign(rule.column, registry, a, b) < 0
    } else {
        column_sign(rule.column, registry, a, b) > 0
    }
}

fn sign_of_usize(a: usize, b: usize) -> (sign: i8)
    ensures
        sign == number_sign(a as int, b as int),
{
    if a < b {
        -1
    } else if a == b {
        0
    } else {
        1
    }
}

fn sign_of_i64(a: i64, b: i64) -> (sign: i8)
    ensures
        sign == number_sign(a as int, b as int),
{
    if a < b {
        -1
    } else if a == b {
        0
    } else {
        1
    }
}

fn sign_of_means(a_total: i64, a_count: usize, b_total: i64, b_count: usize) -> (sign: i8)
    ensures
        sign == mean_sign(a_total as int, a_count as int, b_total as int, b_count as int),
{
    if a_count == 0 || b_count == 0 {
        return 0;
    }
    assert(-0x8000_0000_0000_0000_0000_0000_0000_0000 <= a_total * b_count
        < 0x8000_0000_0000_0000_0000_0000_0000_0000) by (nonlinear_arith)
        requires
            -0x8000_0000_0000_0000 <= a_total < 0x8000_0000_0000_0000,
            0 <= b_count < 0x1_0000_0000_0000_0000,
    ;
    assert(-0x8000_0000_0000_0000_0000_0000_0000_0000 <= b_total * a_count
        < 0x8000_0000_0000_0000_0000_0000_0000_0000) by (nonlinear_arith)
        requires
            -0x8000_0000_0000_0000 <= b_total < 0x8000_0000_0000_0000,
            0 <= a_count < 0x1_0000_0000_0000_0000,
    ;
    let left = (a_total as i128) * (b_count as i128);
    let right = (b_total as i128) * (a_count as i128);
    if left < right {
        -1
    } else if left == right {
        0
    } else {
        1
    }
}

fn sign_of_texts(a: &str, b: &str) -> (sign: i8)
    ensures
        sign == text_sign(a@, b@),
{
    str_sign(a, b)
}

/// Computes [`column_sign`] for two rows.
pub fn row_sign(
    column: StatsColumnId,
    scope_infos: &puffin::ScopeCollection,
    a: &GroupedStats,
    b: &GroupedStats,
) -> (sign: i8)
    ensures
        sign == column_sign(column, registered(*scope_infos), a@, b@),
{
    match column {
        StatsColumnId::Thread => sign_of_texts(a.key.thread_name, b.key.thread_name),
        StatsColumnId::Location => {
            match (resolve(scope_infos, a.key.id), resolve(scope_infos, b.key.id)) {
                (Some(ai), Some(bi)) => sign_of_texts(ai.location.as_str(), bi.location.as_str()),
                _ => 0,
            }
        },
        StatsColumnId::ScopeName => {
            match (resolve(scope_infos, a.key.id), resolve(scope_infos, b.key.id)) {
                (Some(ai), Some(bi)) => sign_of_texts(ai.name.as_str(), bi.name.as_str()),
                _ => 0,
            }
        },
        StatsColumnId::ID => if a.key.id < b.key.id {
            -1
        } else if a.key.id == b.key.id {
            0
        } else {
            1
        },
        StatsColumnId::Count => sign_of_usize(a.scope_stats.count, b.scope_stats.count),
        StatsColumnId::Size => sign_of_usize(a.scope_stats.bytes, b.scope_stats.bytes),
        StatsColumnId::TotalSelfTime => sign_of_i64(
            a.scope_stats.total_self_ns,
            b.scope_stats.total_self_ns,
        ),
        StatsColumnId::MeanSelfTime => sign_of_means(
            a.scope_stats.total_self_ns,
            a.scope_stats.count,
            b.scope_stats.total_self_ns,
            b.scope_stats.count,
        ),
        StatsColumnId::MaxSelfTime => sign_of_i64(a.scope_stats.max_ns, b.scope_stats.max_ns),
        StatsColumnId::TotalTime => sign_of_i64(a.scope_stats.total_ns, b.scope_stats.total_ns),
        StatsColumnId::MeanTime => sign_of_means(
            a.scope_stats.total_ns,
            a.scope_stats.count,
            b.scope_stats.total_ns,
            b.scope_stats.count,
        ),
    }
}

/// Decides [`precedes`] for two rows.
pub fn row_precedes(
    rule: SortSpec,
    scope_infos: &puffin::ScopeCollection,
    a: &GroupedStats,
    b: &GroupedStats,
) -> (first: bool)
    ensures
        first == precedes(rule, registered(*scope_infos), a@, b@),
{
    let sign = row_sign(rule.column, scope_infos, a, b);
    if rule.ascending {
        sign < 0
    } else {
        sign > 0
    }
}

impl StatsColumnId {
    /// How row `a` compares with row `b` by the metric of this column.
    pub fn grouped_stats_ordering(
        self,
        scope_infos: &puffin::ScopeCollection,
        a: &GroupedStats,
        b: &GroupedStats,
    ) -> (order: Ordering)
        ensures
            order == sign_order(column_sign(self, registered(*scope_infos), a@, b@)),
    {
        let sign = row_sign(self, scope_infos, a, b);
        if sign < 0 {
            Ordering::Less
        } else if sign == 0 {
            Ordering::Equal
        } else {
            Ordering::Greater
        }
    }
}

/// Swapping two rows swaps the sign of their comparison.
pub proof fn lemma_column_sign_flip(
    column: StatsColumnId,
    registry: Map<u32, (Seq<char>, Seq<char>)>,
    a: Node,
    b: Node,
)
    ensures
        column_sign(column, registry, a, b) < 0 <==> column_sign(column, registry, b, a) > 0,
        column_sign(column, registry, a, b) == 0 <==> column_sign(column, registry, b, a) == 0,
{
    lemma_lex_sign_flip(encode_utf8(a.key.thread_name), encode_utf8(b.key.thread_name));
    lemma_lex_sign_flip(encode_utf8(registry[a.key.id].0), encode_utf8(registry[b.key.id].0));
    lemma_lex_sign_flip(encode_utf8(registry[a.key.id].1), encode_utf8(registry[b.key.id].1));
}

/// Cross-multiplied means compare transitively.
proof fn lemma_mean_sign_transitive(at: int, ac: int, bt: int, bc: int, ct: int, cc: int)
    requires
        ac >= 0,
        bc >= 0,
        cc >= 0,
        mean_sign(at, ac, bt, bc) < 0,
        mean_sign(bt, bc, ct, cc) < 0,
    ensures
        mean_sign(at, ac, ct, cc) < 0,
{
    assert(at * cc < ct * ac) by (nonlinear_arith)
        requires
            ac > 0,
            bc > 0,
            cc > 0,
            at * bc < bt * ac,
            bt * cc < ct * bc,
    {
        assert((at * bc) * cc < (bt * ac) * cc);
        assert((bt * cc) * ac < (ct * bc) * ac);
        assert((at * cc) * bc < (ct * ac) * bc);
    }
}

/// Every metric orders the rows transitively.
pub proof fn lemma_column_sign_transitive(
    column: StatsColumnId,
    registry: Map<u32, (Seq<char>, Seq<char>)>,
    a: Node,
    b: Node,
    c: Node,
)
    requires
        column_sign(column, registry, a, b) < 0,
        column_sign(column, registry, b, c) < 0,
    ensures
        column_sign(column, registry, a, c) < 0,
{
    match column {
        StatsColumnId::Thread => {
            lemma_lex_sign_transitive(
                encode_utf8(a.key.thread_name),
                encode_utf8(b.key.thread_name),
                encode_utf8(c.key.thread_name),
            );
        },
        StatsColumnId::Location => {
            lemma_lex_sign_transitive(
                encode_utf8(registry[a.key.id].1),
                encode_utf8(registry[b.key.id].1),
                encode_utf8(registry[c.key.id].1),
            );
        },
        StatsColumnId::ScopeName => {
            lemma_lex_sign_transitive(
                encode_utf8(registry[a.key.id].0),
                encode_utf8(registry[b.key.id].0),
                encode_utf8(registry[c.key.id].0),
            );
        },
        StatsColumnId::MeanSelfTime => {
            lemma_mean_sign_transitive(
                a.stats.total_self_ns as int,
                a.stats.count as int,
                b.stats.total_self_ns as int,
                b.stats.count as int,
                c.stats.total_self_ns as int,
                c.stats.count as int,
            );
        },
        StatsColumnId::MeanTime => {
            lemma_mean_sign_transitive(
                a.stats.total_ns as int,
                a.stats.count as int,
                b.stats.total_ns as int,
                b.stats.count as int,
                c.stats.total_ns as int,
                c.stats.count as int,
            );
        },
        _ => {},
    }
}

/// Whether two rows tie under a metric.
pub open spec fn ties(
    column: StatsColumnId,
    registry: Map<u32, (Seq<char>, Seq<char>)>,
    a: Node,
    b: Node,
) -> bool {
    column_sign(column, registry, a, b) == 0
}

/// Of two rows that do not tie, exactly one has to come before the other.
pub proof fn lemma_precedes_one_way(
    rule: SortSpec,
    registry: Map<u32, (Seq<char>, Seq<char>)>,
    a: Node,
    b: Node,
)
    ensures
        !(precedes(rule, registry, a, b) && precedes(rule, registry, b, a)),
        !ties(rule.column, registry, a, b) ==> precedes(rule, registry, a, b) || precedes(
            rule,
            registry,
            b,
            a,
        ),
        precedes(rule, registry, a, b) ==> !ties(rule.column, registry, a, b),
        precedes(rule, registry, a, b) == precedes(
            SortSpec { column: rule.column, ascending: !rule.ascending },
            registry,
            b,
            a,
        ),
{
    lemma_column_sign_flip(rule.column, registry, a, b);
    lemma_column_sign_flip(rule.column, registry, b, a);
}

/// Under every sort rule, having to come before is transitive.
pub proof fn lemma_precedes_transitive(
    rule: SortSpec,
    registry: Map<u32, (Seq<char>, Seq<char>)>,
    a: Node,
    b: Node,
    c: Node,
)
    requires
        precedes(rule, registry, a, b),
        precedes(rule, registry, b, c),
    ensures
        precedes(rule, registry, a, c),
{
    if rule.ascending {
        lemma_column_sign_transitive(rule.column, registry, a, b, c);
    } else {
        lemma_column_sign_flip(rule.column, registry, a, b);
        lemma_column_sign_flip(rule.column, registry, b, c);
        lemma_column_sign_flip(rule.column, registry, a, c);
        lemma_column_sign_flip(rule.column, registry, b, a);
        lemma_column_sign_flip(rule.column, registry, c, b);
        lemma_column_sign_flip(rule.column, registry, c, a);
        lemma_column_sign_transitive(rule.column, registry, c, b, a);
    }
}

/// How two rows compare depends on their keys and figures only, not on the rows nested in
/// them.
pub proof fn lemma_column_sign_of_figures(
    column: StatsColumnId,
    registry: Map<u32, (Seq<char>, Seq<char>)>,
    a: Node,
    b: Node,
    c: Node,
    d: Node,
)
    requires
        a.key == c.key,
        a.stats == c.stats,
        b.key == d.key,
        b.stats == d.stats,
    ensures
        column_sign(column, registry, a, b) == column_sign(column, registry, c, d),
{
}

} // verus!
