//! The columns of the statistics table and the display options that the user sets.

use vstd::prelude::*;

verus! {

/// One metric of an aggregated row: a column of the table, and a key to sort by.
#[derive(Clone, Copy, Debug, PartialEq, Eq, Structural)]
pub enum StatsColumnId {
    Thread,
    Location,
    ScopeName,
    ID,
    Count,
    Size,
    TotalSelfTime,
    MeanSelfTime,
    MaxSelfTime,
    TotalTime,
    MeanTime,
}

impl Default for StatsColumnId {
    fn default() -> (column: StatsColumnId)
        ensures
            column == StatsColumnId::TotalSelfTime,
    {
        StatsColumnId::TotalSelfTime
    }
}

impl StatsColumnId {
    /// The heading of the column, as a value.
    pub open spec fn title_text(self) -> Seq<char> {
        match self {
            StatsColumnId::Thread => "Thread"@,
            StatsColumnId::Location => "Location"@,
            StatsColumnId::ScopeName => "Scope name"@,
            StatsColumnId::ID => "ID"@,
            StatsColumnId::Count => "Count"@,
            StatsColumnId::Size => "Size"@,
            StatsColumnId::TotalSelfTime => "Total self time"@,
            StatsColumnId::MeanSelfTime => "Mean self time"@,
            StatsColumnId::MaxSelfTime => "Max self time"@,
            StatsColumnId::TotalTime => "Total time"@,
            StatsColumnId::MeanTime => "Mean time"@,
        }
    }

    /// The heading of the column.
    pub fn title(self) -> (title: &'static str)
        ensures
            title@ == self.title_text(),
    {
        match self {
            StatsColumnId::Thread => "Thread",
            StatsColumnId::Location => "Location",
            StatsColumnId::ScopeName => "Scope name",
            StatsColumnId::ID => "ID",
            StatsColumnId::Count => "Count",
            StatsColumnId::Size => "Size",
            StatsColumnId::TotalSelfTime => "Total self time",
            StatsColumnId::MeanSelfTime => "Mean self time",
            StatsColumnId::MaxSelfTime => "Max self time",
            StatsColumnId::TotalTime => "Total time",
            StatsColumnId::MeanTime => "Mean time",
        }
    }
}

/// A column of the table and whether it is shown.
#[derive(Clone, Copy, Debug, PartialEq, Eq, Structural)]
pub struct StatsColumn {
    pub id: StatsColumnId,
    pub enabled: bool,
}

impl StatsColumn {
    pub fn new(id: StatsColumnId, enabled: bool) -> (column: StatsColumn)
        ensures
            column == (StatsColumn { id, enabled }),
    {
        StatsColumn { id, enabled }
    }
}

impl Default for StatsColumn {
    fn default() -> (column: StatsColumn)
        ensures
            column == (StatsColumn { id: StatsColumnId::TotalSelfTime, enabled: false }),
    {
        StatsColumn { id: StatsColumnId::TotalSelfTime, enabled: false }
    }
}

/// What the user has chosen for the table.
#[derive(Clone, Debug)]
pub struct Options {
    /// The metric that the rows are sorted by.
    pub sort_by: StatsColumnId,
    /// Whether the smallest comes first.
    pub sort_asc: bool,
    /// The columns in the order in which they are laid out.
    pub columns: Vec<StatsColumn>,
    /// Whether the rows are grouped by call tree.
    pub tree_view: bool,
}

/// The columns that a table starts with, all but the thread shown.
pub open spec fn initial_columns() -> Seq<StatsColumn> {
    seq![
        StatsColumn { id: StatsColumnId::ID, enabled: true },
        StatsColumn { id: StatsColumnId::Thread, enabled: false },
        StatsColumn { id: StatsColumnId::Location, enabled: true },
        StatsColumn { id: StatsColumnId::ScopeName, enabled: true },
        StatsColumn { id: StatsColumnId::Count, enabled: true },
        StatsColumn { id: StatsColumnId::TotalSelfTime, enabled: true },
        StatsColumn { id: StatsColumnId::MeanSelfTime, enabled: true },
        StatsColumn { id: StatsColumnId::MaxSelfTime, enabled: true },
        StatsColumn { id: StatsColumnId::TotalTime, enabled: true },
        StatsColumn { id: StatsColumnId::MeanTime, enabled: true },
        StatsColumn { id: StatsColumnId::Size, enabled: true },
    ]
}

/// The ids of the enabled columns among `columns`, in their order.
pub open spec fn enabled_ids(columns: Seq<StatsColumn>) -> Seq<StatsColumnId>
    decreases columns.len(),
{
    if columns.len() == 0 {
        Seq::empty()
    } else if columns.last().enabled {
        enabled_ids(columns.drop_last()).push(columns.last().id)
    } else {
        enabled_ids(columns.drop_last())
    }
}

impl Default for Options {
    /// A flat table, the largest total self time first.
    fn default() -> (options: Options)
        ensures
            options.sort_by == StatsColumnId::TotalSelfTime,
            !options.sort_asc,
            !options.tree_view,
            options.columns@ == initial_columns(),
    {
        let mut columns: Vec<StatsColumn> = Vec::new();
        columns.push(StatsColumn::new(StatsColumnId::ID, true));
        columns.push(StatsColumn::new(StatsColumnId::Thread, false));
        columns.push(StatsColumn::new(StatsColumnId::Location, true));
        columns.push(StatsColumn::new(StatsColumnId::ScopeName, true));
        columns.push(StatsColumn::new(StatsColumnId::Count, true));
        columns.push(StatsColumn::new(StatsColumnId::TotalSelfTime, true));
        columns.push(StatsColumn::new(StatsColumnId::MeanSelfTime, true));
        columns.push(StatsColumn::new(StatsColumnId::MaxSelfTime, true));
        columns.push(StatsColumn::new(StatsColumnId::TotalTime, true));
        columns.push(StatsColumn::new(StatsColumnId::MeanTime, true));
        columns.push(StatsColumn::new(StatsColumnId::Size, true));
        proof {
            assert(columns@ =~= initial_columns());
        }
        Options { sort_by: StatsColumnId::TotalSelfTime, sort_asc: false, columns, tree_view: false }
    }
}

impl Options {
    /// The mark that the heading of `column` carries: an arrow up or down on the column
    /// that the rows are sorted by, nothing on the others.
    pub open spec fn marker_text(self, column: StatsColumnId) -> Seq<char> {
        if column != self.sort_by {
            ""@
        } else if self.sort_asc {
            "▲"@
        } else {
            "▼"@
        }
    }

    /// The mark that the heading of `column` carries.
    pub fn sort_marker(&self, column: StatsColumnId) -> (marker: &'static str)
        ensures
            marker@ == self.marker_text(column),
    {
        if column != self.sort_by {
            ""
        } else if self.sort_asc {
            "▲"
        } else {
            "▼"
        }
    }

    /// Takes a click on the heading of `column`: on the column that the rows are sorted by
    /// it turns the direction round, on another it sorts by that column, largest first.
    pub fn header_clicked(&mut self, column: StatsColumnId)
        ensures
            final(self).sort_by == column,
            final(self).sort_asc == (old(self).sort_by == column && !old(self).sort_asc),
            final(self).columns == old(self).columns,
            final(self).tree_view == old(self).tree_view,
    {
        if column == self.sort_by {
            self.sort_asc = !self.sort_asc;
        } else {
            self.sort_by = column;
            self.sort_asc = false;
        }
    }

    /// The ids of the columns that are shown, in the order in which they are laid out.
    pub fn visible_columns(&self) -> (ids: Vec<StatsColumnId>)
        ensures
            ids@ == enabled_ids(self.columns@),
    {
        let mut ids: Vec<StatsColumnId> = Vec::new();
        let mut i: usize = 0;
        while i < self.columns.len()
            invariant
                i <= self.columns.len(),
                ids@ == enabled_ids(self.columns@.take(i as int)),
            decreases self.columns.len() - i,
        {
            proof {
                assert(self.columns@.take(i + 1).drop_last() =~= self.columns@.take(i as int));
            }
            if self.columns[i].enabled {
                ids.push(self.columns[i].id);
            }
            i += 1;
        }
        proof {
            assert(self.columns@.take(i as int) =~= self.columns@);
        }
        ids
    }

    /// Moves the column at `index` one place towards the front. Does nothing to the first
    /// column or where there is no such column.
    pub fn move_column_up(&mut self, index: usize)
        ensures
            final(self).sort_by == old(self).sort_by,
            final(self).sort_asc == old(self).sort_asc,
            final(self).tree_view == old(self).tree_view,
            final(self).columns@ == if 0 < index < old(self).columns.len() {
                old(self).columns@.update(index as int, old(self).columns[index - 1]).update(
                    index - 1,
                    old(self).columns[index as int],
                )
            } else {
                old(self).columns@
            },
    {
        if 0 < index && index < self.columns.len() {
            let moved = self.columns[index];
            let other = self.columns[index - 1];
            self.columns[index] = other;
            self.columns[index - 1] = moved;
        }
    }

    /// Moves the column at `index` one place towards the back. Does nothing to the last
    /// column or where there is no such column.
    pub fn move_column_down(&mut self, index: usize)
        ensures
            final(self).sort_by == old(self).sort_by,
            final(self).sort_asc == old(self).sort_asc,
            final(self).tree_view == old(self).tree_view,
            final(self).columns@ == if index + 1 < old(self).columns.len() {
                old(self).columns@.update(index as int, old(self).columns[index + 1]).update(
                    index + 1,
                    old(self).columns[index as int],
                )
            } else {
                old(self).columns@
            },
    {
        if index < self.columns.len() && index + 1 < self.columns.len() {
            let moved = self.columns[index];
            let other = self.columns[index + 1];
            self.columns[index] = other;
            self.columns[index + 1] = moved;
        }
    }
}

} // verus!
