//! Laying the tree out as the rows of a grid, top down.

use crate::order::{registered, resolve};
use crate::stats::{nodes_of, GroupedStats, Key, KeyView, Node, ScopeStats};
use vstd::prelude::*;
use vstd::string::StringExecFns;

verus! {

/// One row of the grid.
#[derive(Debug)]
pub struct GridRow<'a> {
    /// How deep the row is nested; zero for the outermost rows.
    pub level: usize,
    /// What is drawn ahead of the row: the lines of the tree that pass it, and its branch.
    pub prefix: String,
    pub key: Key<'a>,
    pub stats: ScopeStats,
    /// The name of the instrumentation point.
    pub name: String,
    /// Where the instrumentation point stands in the source.
    pub location: String,
    /// Whether rows are nested in the row, shown or not.
    pub has_children: bool,
    /// How many of the rows that follow are nested in this one, on any level.
    pub descendants: usize,
}

/// The mathematical value of a [`GridRow`].
pub struct GridRowView {
    pub level: nat,
    pub prefix: Seq<char>,
    pub key: KeyView,
    pub stats: ScopeStats,
    pub name: Seq<char>,
    pub location: Seq<char>,
    pub has_children: bool,
    pub descendants: nat,
}

impl<'a> View for GridRow<'a> {
    type V = GridRowView;

    open spec fn view(&self) -> GridRowView {
        GridRowView {
            level: self.level as nat,
            prefix: self.prefix@,
            key: self.key@,
            stats: self.stats,
            name: self.name@,
            location: self.location@,
            has_children: self.has_children,
            descendants: self.descendants as nat,
        }
    }
}

/// The values of a list of grid rows.
pub open spec fn rows_of<'a>(rows: Seq<GridRow<'a>>) -> Seq<GridRowView> {
    Seq::new(rows.len(), |i: int| rows[i]@)
}

/// The branch drawn ahead of a row: none on the outermost level, else a corner for the last
/// row of its list and a tee for the others.
pub open spec fn branch_text(level: nat, is_last: bool) -> Seq<char> {
    if level == 0 {
        ""@
    } else if is_last {
        " └╴"@
    } else {
        " ├╴"@
    }
}

/// What a row adds ahead of the rows nested in it: nothing on the outermost level, else
/// blanks below the last row of its list and a line below the others.
pub open spec fn indent_text(level: nat, is_last: bool) -> Seq<char> {
    if level == 0 {
        ""@
    } else if is_last {
        "   "@
    } else {
        " | "@
    }
}

/// The rows of a node and of the rows nested in it. A node whose id the registry does not
/// know gives no rows, nor do the rows nested in it.
pub open spec fn node_rows(
    registry: Map<u32, (Seq<char>, Seq<char>)>,
    node: Node,
    is_last: bool,
    level: nat,
    lines: Seq<char>,
) -> Seq<GridRowView>
    decreases node, 0nat,
{
    if registry.dom().contains(node.key.id) {
        let below = level_rows(
            registry,
            node.children,
            node.children.len(),
            level + 1,
            lines + indent_text(level, is_last),
        );
        seq![
            GridRowView {
                level,
                prefix: lines + branch_text(level, is_last),
                key: node.key,
                stats: node.stats,
                name: registry[node.key.id].0,
                location: registry[node.key.id].1,
                has_children: node.children.len() > 0,
                descendants: below.len(),
            },
        ] + below
    } else {
        Seq::empty()
    }
}

/// The rows of the first `upto` nodes of a list, each followed by the rows nested in it.
pub open spec fn level_rows(
    registry: Map<u32, (Seq<char>, Seq<char>)>,
    nodes: Seq<Node>,
    upto: nat,
    level: nat,
    lines: Seq<char>,
) -> Seq<GridRowView>
    decreases nodes, upto,
{
    if upto == 0 || upto > nodes.len() {
        Seq::empty()
    } else {
        level_rows(registry, nodes, (upto - 1) as nat, level, lines) + node_rows(
            registry,
            nodes[upto - 1],
            upto == nodes.len(),
            level,
            lines,
        )
    }
}

/// The branch drawn ahead of a row.
pub fn tree_branch(level: usize, is_last: bool) -> (branch: &'static str)
    ensures
        branch@ == branch_text(level as nat, is_last),
{
    if level == 0 {
        ""
    } else if is_last {
        " └╴"
    } else {
        " ├╴"
    }
}

/// What a row adds ahead of the rows nested in it.
pub fn tree_indent(level: usize, is_last: bool) -> (indent: &'static str)
    ensures
        indent@ == indent_text(level as nat, is_last),
{
    if level == 0 {
        ""
    } else if is_last {
        "   "
    } else {
        " | "
    }
}

/// Appends the rows of a list of the tree to `out`.
fn push_rows<'a>(
    out: &mut Vec<GridRow<'a>>,
    scope_infos: &puffin::ScopeCollection,
    scopes: &Vec<GroupedStats<'a>>,
    level: usize,
    lines: &str,
)
    requires
        level <= old(out).len(),
    ensures
        rows_of(final(out)@) == rows_of(old(out)@) + level_rows(
            registered(*scope_infos),
            nodes_of(scopes@),
            scopes.len() as nat,
            level as nat,
            lines@,
        ),
    decreases scopes@,
{
    let ghost registry = registered(*scope_infos);
    let ghost nodes = nodes_of(scopes@);
    let ghost start = rows_of(out@);
    let mut index: usize = 0;
    proof {
        assert(start + level_rows(registry, nodes, 0, level as nat, lines@) =~= start);
    }
    while index < scopes.len()
        invariant
            registry == registered(*scope_infos),
            nodes == nodes_of(scopes@),
            start == rows_of(old(out)@),
            index <= scopes.len(),
            level <= out.len(),
            rows_of(out@) == start + level_rows(registry, nodes, index as nat, level as nat, lines@),
        decreases scopes.len() - index,
    {
        let scope = &scopes[index];
        let is_last = index == scopes.len() - 1;
        let ghost before = rows_of(out@);
        proof {
            assert(nodes[index as int] == scope@);
        }
        match resolve(scope_infos, scope.key.id) {
            None => {
                proof {
                    assert(before + node_rows(registry, scope@, is_last, level as nat, lines@)
                        =~= before);
                }
            },
            Some(info) => {
                let at = out.len();
                let prefix = String::from_str(lines).concat(tree_branch(level, is_last));
                let below = String::from_str(lines).concat(tree_indent(level, is_last));
                out.push(
                    GridRow {
                        level,
                        prefix,
                        key: scope.key,
                        stats: scope.scope_stats,
                        name: info.name,
                        location: info.location,
                        has_children: scope.children.len() > 0,
                        descendants: 0,
                    },
                );
                let ghost pushed = out@;
                assert(level < out.len());
                push_rows(out, scope_infos, &scope.children, level + 1, below.as_str());
                let ghost nested = level_rows(
                    registry,
                    scope@.children,
                    scope@.children.len(),
                    (level + 1) as nat,
                    lines@ + indent_text(level as nat, is_last),
                );
                let ghost grown = out@;
                proof {
                    assert(rows_of(grown) == rows_of(pushed) + nested);
                    assert(rows_of(grown).len() == rows_of(pushed).len() + nested.len());
                }
                let descendants = out.len() - at - 1;
                out[at].descendants = descendants;
                proof {
                    assert(rows_of(out@) =~= before + node_rows(
                        registry,
                        scope@,
                        is_last,
                        level as nat,
                        lines@,
                    )) by {
                        let added = node_rows(registry, scope@, is_last, level as nat, lines@);
                        assert(added.len() == 1 + nested.len());
                        assert forall|j: int| 0 <= j < out@.len() implies rows_of(out@)[j] == (
                        before + added)[j] by {
                            if j < at {
                                assert(out@[j] == grown[j]);
                                assert(rows_of(grown)[j] == rows_of(pushed)[j]);
                                assert(rows_of(pushed)[j] == before[j]);
                            } else if j == at {
                                assert(rows_of(grown)[j] == rows_of(pushed)[j]);
                            } else {
                                assert(out@[j] == grown[j]);
                                assert(rows_of(grown)[j] == nested[j - at - 1]);
                            }
                        }
                    }
                }
            },
        }
        proof {
            assert(rows_of(out@) == start + (level_rows(
                registry,
                nodes,
                index as nat,
                level as nat,
                lines@,
            ) + node_rows(registry, nodes[index as int], is_last, level as nat, lines@)));
        }
        index += 1;
    }
}

/// The rows of the grid for a tree, top down: each row is followed by the rows nested in
/// it. Rows whose id the registry does not know are left out, with all rows nested in them.
pub fn grid_rows<'a>(scope_infos: &puffin::ScopeCollection, scopes: &Vec<GroupedStats<'a>>) -> (rows:
    Vec<GridRow<'a>>)
    ensures
        rows_of(rows@) == level_rows(
            registered(*scope_infos),
            nodes_of(scopes@),
            scopes.len() as nat,
            0,
            ""@,
        ),
{
    let mut rows: Vec<GridRow<'a>> = Vec::new();
    push_rows(&mut rows, scope_infos, scopes, 0, "");
    proof {
        let found = level_rows(
            registered(*scope_infos),
            nodes_of(scopes@),
            scopes.len() as nat,
            0,
            ""@,
        );
        assert(rows_of(Seq::<GridRow<'a>>::empty()) + found =~= found);
    }
    rows
}

} // verus!
