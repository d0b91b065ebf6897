//! A data-table engine: a row store keyed by stable identities, a sorted
//! display snapshot with a reverse index, a drag-selection state machine,
//! auto-scroll and auto-reload throttling, and a clipboard formatter.
//!
//! The host UI polls input and paints pixels; this crate owns the state and
//! the decisions. Rows carry, for every column, the key the sort engine
//! compares and the text that is shown and copied.

use std::collections::HashMap;
use vstd::prelude::*;

mod auto_reload;
mod auto_scroll;
pub mod clipboard;
pub mod row_selection;
pub mod sorting;

pub use auto_reload::AutoReload;
pub use auto_scroll::AutoScroll;
pub use auto_scroll::MAX_COORD;
pub use auto_scroll::MAX_SCROLL_OFFSET;

verus! {

broadcast use vstd::std_specs::hash::group_hash_axioms;

/// Direction in which the sort column orders the rows.
#[derive(Clone, Copy, PartialEq, Eq, Structural, Debug)]
pub enum SortOrder {
    /// Sorts in ascending order (e.g., 1 to 10).
    Ascending,
    /// Sorts in descending order (e.g., 10 to 1).
    Descending,
}

impl SortOrder {
    /// The opposite direction.
    pub open spec fn spec_flip(self) -> SortOrder {
        match self {
            SortOrder::Ascending => SortOrder::Descending,
            SortOrder::Descending => SortOrder::Ascending,
        }
    }
}

/// One cell of a row: the key the sort engine compares when this cell's
/// column is the sort column, and the text that is rendered and copied.
pub struct CellValue {
    pub sort_key: i64,
    pub text: String,
}

/// Mathematical value of a [`CellValue`].
pub ghost struct CellView {
    pub key: int,
    pub text: Seq<char>,
}

impl View for CellValue {
    type V = CellView;

    open spec fn view(&self) -> CellView {
        CellView { key: self.sort_key as int, text: self.text@ }
    }
}

impl Clone for CellValue {
    fn clone(&self) -> (res: Self)
        ensures
            res@ == self@,
    {
        CellValue { sort_key: self.sort_key, text: self.text.clone() }
    }
}

/// A row of the table: its payload cells (one per column), its stable
/// identity, and the set of columns currently selected in it.
pub struct SelectableRow {
    pub row_data: Vec<CellValue>,
    pub id: i64,
    pub selected_columns: Vec<bool>,
}

/// Mathematical value of a [`SelectableRow`].
pub ghost struct RowView {
    pub cells: Seq<CellView>,
    pub id: int,
    pub sel: Seq<bool>,
}

impl View for SelectableRow {
    type V = RowView;

    open spec fn view(&self) -> RowView {
        RowView {
            cells: self.row_data@.map_values(|c: CellValue| c@),
            id: self.id as int,
            sel: self.selected_columns@,
        }
    }
}

impl Clone for SelectableRow {
    fn clone(&self) -> (res: Self)
        ensures
            res@ == self@,
    {
        let mut cells: Vec<CellValue> = Vec::new();
        let mut i: usize = 0;
        while i < self.row_data.len()
            invariant
                0 <= i <= self.row_data.len(),
                cells@.len() == i as int,
                forall|k: int| 0 <= k < i as int ==> cells@[k]@ == self.row_data@[k]@,
            decreases self.row_data.len() - i,
        {
            cells.push(self.row_data[i].clone());
            i = i + 1;
        }
        let mut sel: Vec<bool> = Vec::new();
        let mut j: usize = 0;
        while j < self.selected_columns.len()
            invariant
                0 <= j <= self.selected_columns.len(),
                sel@.len() == j as int,
                forall|k: int| 0 <= k < j as int ==> sel@[k] == self.selected_columns@[k],
            decreases self.selected_columns.len() - j,
        {
            sel.push(self.selected_columns[j]);
            j = j + 1;
        }
        let res = SelectableRow { row_data: cells, id: self.id, selected_columns: sel };
        proof {
            assert(res@.cells =~= self@.cells);
            assert(res@.sel =~= self@.sel);
            assert(res@ == self@);
        }
        res
    }
}

/// The views of a sequence of rows.
pub open spec fn views_of(s: Seq<SelectableRow>) -> Seq<RowView> {
    s.map_values(|r: SelectableRow| r@)
}

/// A row shaped for a table with `ncols` columns.
pub open spec fn row_wf(r: RowView, ncols: int) -> bool {
    r.cells.len() == ncols && r.sel.len() == ncols
}

/// No column of the row is selected.
pub open spec fn sel_empty(r: RowView) -> bool {
    forall|c: int| 0 <= c < r.sel.len() ==> !r.sel[c]
}

/// At least one column of the row is selected.
pub open spec fn sel_any(r: RowView) -> bool {
    exists|c: int| 0 <= c < r.sel.len() && r.sel[c]
}

/// All row identities in `s` are distinct.
pub open spec fn distinct_ids(s: Seq<RowView>) -> bool {
    forall|i: int, j: int| 0 <= i < j < s.len() ==> s[i].id != s[j].id
}

/// A table that owns row data and performs selection on drag, sorting,
/// display-snapshot management, auto-scroll and auto-reload throttling.
///
/// Columns are identified by their position in the fixed column order,
/// `0 .. column_count`.
pub struct SelectableTable {
    /// How many columns the table has; fixed at construction.
    pub column_count: usize,
    /// Canonical row store, in insertion order (identities ascend).
    pub rows: Vec<SelectableRow>,
    /// The current display snapshot, in sort order.
    pub formatted_rows: Vec<SelectableRow>,
    /// Reverse index: row identity to its position in `formatted_rows`.
    pub indexed_ids: HashMap<i64, usize>,
    /// The column the display snapshot is sorted by.
    pub sorted_by: usize,
    /// The current sort direction.
    pub sort_order: SortOrder,
    /// Where the ongoing drag started, if any.
    pub drag_started_on: Option<(i64, usize)>,
    /// Columns with at least one row selecting them, one flag per column.
    pub active_columns: Vec<bool>,
    /// Identities of rows with at least one selected column.
    pub active_rows: Vec<i64>,
    /// The row the pointer processed last during the ongoing drag.
    pub last_active_row: Option<i64>,
    /// The column the pointer processed last during the ongoing drag.
    pub last_active_column: Option<usize>,
    /// Whether the pointer moved off the drag-origin cell at least once.
    pub beyond_drag_point: bool,
    /// The identity the next inserted row receives.
    pub last_id_used: i64,
    /// Mutation counting that batches snapshot invalidation.
    pub auto_reload: AutoReload,
    /// Scrolling while a drag is near the viewport's edges.
    pub auto_scroll: AutoScroll,
    /// Whether selecting any cell selects its entire row.
    pub select_full_row: bool,
}

impl SelectableTable {
    /// Number of columns, as a mathematical integer.
    pub open spec fn ncols(self) -> int {
        self.column_count as int
    }

    /// The canonical row store, as a sequence of row views in insertion order.
    pub open spec fn store(self) -> Seq<RowView> {
        views_of(self.rows@)
    }

    /// The display snapshot, as a sequence of row views in display order.
    pub open spec fn shown(self) -> Seq<RowView> {
        views_of(self.formatted_rows@)
    }

    /// The reverse index from row identity to snapshot position.
    pub open spec fn index_map(self) -> Map<i64, usize> {
        self.indexed_ids@
    }

    /// The per-column active flags.
    pub open spec fn active_cols(self) -> Seq<bool> {
        self.active_columns@
    }

    /// The identities of the rows considered active.
    pub open spec fn actives(self) -> Seq<i64> {
        self.active_rows@
    }

    /// The current sort spec: column and direction.
    pub open spec fn sort_spec(self) -> (int, SortOrder) {
        (self.sorted_by as int, self.sort_order)
    }

    /// Ongoing drag origin, if any.
    pub open spec fn drag_origin(self) -> Option<(i64, usize)> {
        self.drag_started_on
    }

    /// Last (row, column) the drag logic processed.
    pub open spec fn last_active(self) -> (Option<i64>, Option<usize>) {
        (self.last_active_row, self.last_active_column)
    }

    /// Whether the pointer moved off the drag-origin cell at least once.
    pub open spec fn moved_beyond_origin(self) -> bool {
        self.beyond_drag_point
    }

    /// Whether full-row selection mode is on.
    pub open spec fn full_row_mode(self) -> bool {
        self.select_full_row
    }

    /// The identity the next inserted row receives.
    pub open spec fn next_id(self) -> int {
        self.last_id_used as int
    }

    /// The auto-reload state.
    pub open spec fn reload_state(self) -> AutoReload {
        self.auto_reload
    }

    /// The store rows, shaped for this table, identities ascending and below
    /// the identity counter, selections empty (the canonical copies never
    /// carry selection; selection lives in the snapshot).
    pub open spec fn store_wf(self) -> bool {
        &&& forall|i: int|
            0 <= i < self.store().len() ==> row_wf(#[trigger] self.store()[i], self.ncols())
                && sel_empty(self.store()[i])
        &&& forall|i: int, j: int|
            0 <= i < j < self.store().len() ==> #[trigger] self.store()[i].id
                < #[trigger] self.store()[j].id
        &&& forall|i: int|
            0 <= i < self.store().len() ==> 0 <= #[trigger] self.store()[i].id < self.next_id()
    }

    /// The snapshot rows are shaped for this table and the reverse index is
    /// exactly the map from shown identity to shown position.
    pub open spec fn shown_wf(self) -> bool {
        &&& forall|i: int|
            0 <= i < self.shown().len() ==> row_wf(#[trigger] self.shown()[i], self.ncols())
        &&& forall|i: int|
            0 <= i < self.shown().len() ==> {
                let id = #[trigger] self.shown()[i].id as i64;
                &&& self.index_map().contains_key(id)
                &&& self.index_map()[id] as int == i
            }
        &&& forall|id: i64|
            self.index_map().contains_key(id) ==> {
                let p = #[trigger] self.index_map()[id] as int;
                &&& 0 <= p < self.shown().len()
                &&& self.shown()[p].id == id as int
            }
    }

    /// The active-row list holds distinct identities of shown rows, and every
    /// shown row with any selected column is listed in it.
    pub open spec fn actives_wf(self) -> bool {
        &&& forall|k: int|
            0 <= k < self.actives().len() ==> self.index_map().contains_key(
                #[trigger] self.actives()[k],
            )
        &&& forall|k: int, l: int|
            0 <= k < l < self.actives().len() ==> #[trigger] self.actives()[k]
                != #[trigger] self.actives()[l]
        &&& forall|i: int|
            0 <= i < self.shown().len() && sel_any(#[trigger] self.shown()[i]) ==> self.actives()
                .contains(self.shown()[i].id as i64)
    }

    /// The table invariant every operation preserves.
    pub open spec fn wf(self) -> bool {
        &&& 1 <= self.column_count
        &&& self.store_wf()
        &&& self.shown_wf()
        &&& self.actives_wf()
        &&& self.active_cols().len() == self.ncols()
        &&& (self.sorted_by as int) < self.ncols()
        &&& 0 <= self.next_id()
        &&& self.store().len() <= self.next_id()
        &&& match self.drag_started_on {
            Some((id, col)) => (col as int) < self.ncols(),
            None => true,
        }
        &&& match self.last_active_column {
            Some(col) => (col as int) < self.ncols(),
            None => true,
        }
        &&& self.auto_scroll.wf()
    }

    /// A fresh table over `column_count` columns: empty store, empty
    /// snapshot, no selection, sorting ascending by the first column.
    pub fn new(column_count: usize) -> (table: Self)
        requires
            1 <= column_count,
        ensures
            table.wf(),
            table.ncols() == column_count as int,
            table.store() =~= Seq::<RowView>::empty(),
            table.shown() =~= Seq::<RowView>::empty(),
            table.actives() =~= Seq::<i64>::empty(),
            forall|c: int| 0 <= c < column_count as int ==> !table.active_cols()[c],
            table.sort_spec() == (0int, SortOrder::Ascending),
            table.drag_origin() is None,
            table.last_active() == (Option::<i64>::None, Option::<usize>::None),
            !table.moved_beyond_origin(),
            !table.full_row_mode(),
            table.next_id() == 0,
            table.reload_state() == (AutoReload { reload_after: None, reload_count: 0 }),
            table.auto_scroll == AutoScroll::spec_default(),
    {
        let mut active_columns: Vec<bool> = Vec::new();
        let mut c: usize = 0;
        while c < column_count
            invariant
                0 <= c <= column_count,
                active_columns@.len() == c as int,
                forall|k: int| 0 <= k < c as int ==> !active_columns@[k],
            decreases column_count - c,
        {
            active_columns.push(false);
            c = c + 1;
        }
        SelectableTable {
            column_count,
            rows: Vec::new(),
            formatted_rows: Vec::new(),
            indexed_ids: HashMap::new(),
            sorted_by: 0,
            sort_order: SortOrder::Ascending,
            drag_started_on: None,
            active_columns,
            active_rows: Vec::new(),
            last_active_row: None,
            last_active_column: None,
            beyond_drag_point: false,
            last_id_used: 0,
            auto_reload: AutoReload { reload_after: None, reload_count: 0 },
            auto_scroll: AutoScroll::new(false),
            select_full_row: false,
        }
    }

    /// How `sort_rows` changes the table: the display snapshot becomes the
    /// stable sort of the store (with no selection in any row), the reverse
    /// index follows it, active rows whose identity left the store are
    /// pruned, and everything else stays as it was.
    pub open spec fn resorted(pre: Self, post: Self) -> bool {
        &&& post.column_count == pre.column_count
        &&& post.rows == pre.rows
        &&& post.sorted_by == pre.sorted_by
        &&& post.sort_order == pre.sort_order
        &&& post.drag_started_on == pre.drag_started_on
        &&& post.active_columns == pre.active_columns
        &&& post.last_active_row == pre.last_active_row
        &&& post.last_active_column == pre.last_active_column
        &&& post.beyond_drag_point == pre.beyond_drag_point
        &&& post.last_id_used == pre.last_id_used
        &&& post.auto_reload == pre.auto_reload
        &&& post.auto_scroll == pre.auto_scroll
        &&& post.select_full_row == pre.select_full_row
        &&& crate::sorting::stable_sort_of(
            pre.store(),
            post.shown(),
            pre.sorted_by as int,
            pre.sort_order,
        )
        &&& post.shown().len() == pre.store().len()
        &&& forall|i: int| 0 <= i < post.shown().len() ==> sel_empty(#[trigger] post.shown()[i])
        &&& forall|k: int|
            0 <= k < post.actives().len() ==> pre.actives().contains(#[trigger] post.actives()[k])
        &&& forall|k: int|
            0 <= k < pre.actives().len() && post.index_map().contains_key(
                #[trigger] pre.actives()[k],
            ) ==> post.actives().contains(pre.actives()[k])
    }

    /// Rebuild the display snapshot: materialize the store's rows, sort them
    /// stably by the sort column in the current direction, and rebuild the
    /// reverse index. Active rows whose identity no longer exists are pruned.
    fn sort_rows(&mut self)
        requires
            old(self).wf(),
        ensures
            final(self).wf(),
            Self::resorted(*old(self), *final(self)),
    {
        // Materialize a copy of every store row.
        let mut row_data: Vec<SelectableRow> = Vec::new();
        let mut i: usize = 0;
        while i < self.rows.len()
            invariant
                *self == *old(self),
                old(self).wf(),
                0 <= i <= self.rows.len(),
                row_data@.len() == i as int,
                forall|k: int| 0 <= k < i as int ==> (#[trigger] row_data@[k])@ == self.rows@[k]@,
            decreases self.rows.len() - i,
        {
            row_data.push(self.rows[i].clone());
            i = i + 1;
        }
        proof {
            assert(views_of(row_data@) =~= old(self).store());
            assert forall|p: int, q: int|
                0 <= p < q < old(self).store().len() implies old(self).store()[p].id != old(
                self,
            ).store()[q].id by {
                assert(old(self).store()[p].id < old(self).store()[q].id);
            }
            assert(distinct_ids(views_of(row_data@)));
            assert forall|k: int|
                0 <= k < row_data@.len() implies (self.sorted_by as int) < (
            #[trigger] row_data@[k])@.cells.len() by {
                assert(row_wf(old(self).store()[k], old(self).ncols()));
            }
        }
        crate::sorting::par_sort_rows(&mut row_data, self.sorted_by, self.sort_order);
        proof {
            crate::sorting::lemma_stable_sort_rows(
                old(self).store(),
                views_of(row_data@),
                self.sorted_by as int,
                self.sort_order,
            );
        }
        // Rebuild the reverse index over the sorted rows.
        let ghost sorted_views = views_of(row_data@);
        let mut indexed: HashMap<i64, usize> = HashMap::new();
        let mut j: usize = 0;
        while j < row_data.len()
            invariant
                *self == *old(self),
                old(self).wf(),
                distinct_ids(views_of(row_data@)),
                views_of(row_data@) == sorted_views,
                row_data@.len() <= usize::MAX,
                0 <= j <= row_data.len(),
                forall|k: int|
                    0 <= k < j as int ==> indexed@.contains_key(#[trigger] row_data@[k].id)
                        && indexed@[row_data@[k].id] as int == k,
                forall|id: i64|
                    indexed@.contains_key(id) ==> exists|k: int|
                        0 <= k < j as int && (#[trigger] row_data@[k]).id == id,
            decreases row_data.len() - j,
        {
            let id = row_data[j].id;
            proof {
                assert forall|k: int| 0 <= k < j as int implies (#[trigger] row_data@[k]).id
                    != id by {
                    assert(views_of(row_data@)[k].id != views_of(row_data@)[j as int].id);
                }
            }
            indexed.insert(id, j);
            j = j + 1;
        }
        // Prune active rows whose identity left the store.
        let mut new_active: Vec<i64> = Vec::new();
        let mut t: usize = 0;
        while t < self.active_rows.len()
            invariant
                *self == *old(self),
                old(self).wf(),
                0 <= t <= self.active_rows.len(),
                forall|k: int|
                    0 <= k < new_active@.len() ==> indexed@.contains_key(#[trigger] new_active@[k]),
                forall|k: int|
                    0 <= k < new_active@.len() ==> exists|s: int|
                        #![trigger self.active_rows@[s]]
                        0 <= s < t as int && self.active_rows@[s] == #[trigger] new_active@[k],
                forall|k: int, l: int|
                    0 <= k < l < new_active@.len() ==> #[trigger] new_active@[k]
                        != #[trigger] new_active@[l],
                forall|s: int|
                    0 <= s < t as int && indexed@.contains_key(#[trigger] self.active_rows@[s])
                        ==> new_active@.contains(self.active_rows@[s]),
            decreases self.active_rows.len() - t,
        {
            let id = self.active_rows[t];
            let ghost prev = new_active@;
            if indexed.contains_key(&id) {
                proof {
                    assert forall|k: int| 0 <= k < prev.len() implies #[trigger] prev[k] != id by {
                        let s = choose|s: int|
                            0 <= s < t as int && self.active_rows@[s] == prev[k];
                        assert(self.wf());
                        assert(self.actives()[s] == self.active_rows@[s]);
                        assert(self.actives()[t as int] == self.active_rows@[t as int]);
                        assert(self.actives()[s] != self.actives()[t as int]);
                    }
                }
                new_active.push(id);
            }
            let ghost t_prev = t as int;
            t = t + 1;
            proof {
                assert forall|k: int|
                    0 <= k < new_active@.len() implies exists|s: int|
                        #![trigger self.active_rows@[s]]
                        0 <= s < t as int && self.active_rows@[s] == #[trigger] new_active@[k] by {
                    if k < prev.len() {
                        let s = choose|s: int|
                            #![trigger self.active_rows@[s]]
                            0 <= s < t_prev && self.active_rows@[s] == prev[k];
                        assert(new_active@[k] == prev[k]);
                        assert(0 <= s < t as int && self.active_rows@[s] == new_active@[k]);
                    } else {
                        assert(new_active@[k] == id);
                        assert(self.active_rows@[t_prev] == id);
                        assert(0 <= t_prev < t as int && self.active_rows@[t_prev]
                            == new_active@[k]);
                    }
                }
                assert forall|s: int|
                    0 <= s < t as int && indexed@.contains_key(#[trigger] self.active_rows@[s])
                        implies new_active@.contains(self.active_rows@[s]) by {
                    if s < t_prev {
                        let w = choose|w: int|
                            0 <= w < prev.len() && prev[w] == self.active_rows@[s];
                        assert(new_active@[w] == self.active_rows@[s]);
                    } else {
                        if indexed@.contains_key(id) {
                            assert(new_active@[prev.len() as int] == id);
                        }
                    }
                }
            }
        }
        self.formatted_rows = row_data;
        self.indexed_ids = indexed;
        self.active_rows = new_active;
        proof {
            let pre = *old(self);
            let post = *self;
            assert forall|k: int|
                0 <= k < post.shown().len() implies row_wf(#[trigger] post.shown()[k], post.ncols())
                    && sel_empty(post.shown()[k]) by {
                assert(pre.store().contains(post.shown()[k]));
                let w = choose|w: int|
                    0 <= w < pre.store().len() && pre.store()[w] == post.shown()[k];
                assert(row_wf(pre.store()[w], pre.ncols()));
            }
            assert forall|k: int|
                0 <= k < post.shown().len() implies {
                    let id = #[trigger] post.shown()[k].id as i64;
                    &&& post.index_map().contains_key(id)
                    &&& post.index_map()[id] as int == k
                } by {
                assert(post.shown()[k].id == post.formatted_rows@[k].id as int);
            }
            assert forall|id: i64| post.index_map().contains_key(id) implies {
                let p = #[trigger] post.index_map()[id] as int;
                &&& 0 <= p < post.shown().len()
                &&& post.shown()[p].id == id as int
            } by {
                let k = choose|k: int|
                    0 <= k < post.formatted_rows@.len() && (#[trigger] post.formatted_rows@[k]).id
                        == id;
                assert(post.index_map()[id] as int == k);
                assert(post.shown()[k].id == id as int);
            }
            assert forall|k: int|
                0 <= k < post.actives().len() implies pre.actives().contains(
                #[trigger] post.actives()[k]) by {
                let s = choose|s: int|
                    0 <= s < pre.actives().len() && pre.actives()[s] == post.actives()[k];
                assert(pre.actives()[s] == post.actives()[k]);
            }
            assert(post.wf());
        }
    }

    /// The current display snapshot, rebuilt first when it is stale — that
    /// is, when its length differs from the store's size. After this call
    /// the snapshot length always equals the store size.
    pub fn rows(&mut self) -> (snapshot: Vec<SelectableRow>)
        requires
            old(self).wf(),
        ensures
            final(self).wf(),
            final(self).shown().len() == final(self).store().len(),
            views_of(snapshot@) == final(self).shown(),
            old(self).shown().len() == old(self).store().len() ==> *final(self) == *old(self),
            old(self).shown().len() != old(self).store().len() ==> Self::resorted(
                *old(self),
                *final(self),
            ),
    {
        if self.formatted_rows.len() != self.rows.len() {
            self.sort_rows();
        }
        let mut snapshot: Vec<SelectableRow> = Vec::new();
        let mut i: usize = 0;
        while i < self.formatted_rows.len()
            invariant
                self.wf(),
                *self == *old(self) || Self::resorted(*old(self), *self),
                self.shown().len() == self.store().len(),
                0 <= i <= self.formatted_rows.len(),
                snapshot@.len() == i as int,
                forall|k: int|
                    0 <= k < i as int ==> (#[trigger] snapshot@[k])@ == self.formatted_rows@[k]@,
            decreases self.formatted_rows.len() - i,
        {
            snapshot.push(self.formatted_rows[i].clone());
            i = i + 1;
        }
        proof {
            assert(views_of(snapshot@) =~= self.shown());
        }
        snapshot
    }

    /// A vector of `n` cleared column flags.
    fn all_false(n: usize) -> (v: Vec<bool>)
        ensures
            v@.len() == n as int,
            forall|c: int| 0 <= c < n as int ==> !v@[c],
    {
        let mut v: Vec<bool> = Vec::new();
        let mut c: usize = 0;
        while c < n
            invariant
                0 <= c <= n,
                v@.len() == c as int,
                forall|k: int| 0 <= k < c as int ==> !v@[k],
            decreases n - c,
        {
            v.push(false);
            c = c + 1;
        }
        v
    }

    /// Position of the store row with identity `id`, if it exists.
    fn store_position(&self, id: i64) -> (r: Option<usize>)
        requires
            self.wf(),
        ensures
            match r {
                Some(p) => (p as int) < self.store().len() && self.store()[p as int].id == id as int
                    && p as int == crate::sorting::pos_of_id(self.store(), id as int),
                None => forall|k: int|
                    0 <= k < self.store().len() ==> (#[trigger] self.store()[k]).id != id as int,
            },
    {
        let mut i: usize = 0;
        while i < self.rows.len()
            invariant
                self.wf(),
                0 <= i <= self.rows.len(),
                forall|k: int| 0 <= k < i as int ==> (#[trigger] self.store()[k]).id != id as int,
            decreases self.rows.len() - i,
        {
            if self.rows[i].id == id {
                proof {
                    assert(self.store()[i as int].id == id as int);
                    assert forall|p: int, q: int|
                        0 <= p < q < self.store().len() implies #[trigger] self.store()[p].id
                            != #[trigger] self.store()[q].id by {
                        assert(self.store()[p].id < self.store()[q].id);
                    }
                    crate::sorting::lemma_pos_of_id(self.store(), i as int);
                }
                return Some(i);
            }
            i = i + 1;
        }
        None
    }

    /// There is a store row with identity `id`.
    pub open spec fn id_in_store(self, id: i64) -> bool {
        exists|k: int| 0 <= k < self.store().len() && (#[trigger] self.store()[k]).id == id as int
    }

    /// How the display snapshot's invalidation changes the table: the
    /// snapshot, its reverse index, and the active row and column sets are
    /// emptied; everything else stays as it was.
    pub open spec fn invalidated(pre: Self, post: Self) -> bool {
        &&& post.column_count == pre.column_count
        &&& post.rows == pre.rows
        &&& post.shown() =~= Seq::<RowView>::empty()
        &&& post.index_map() == Map::<i64, usize>::empty()
        &&& post.actives() =~= Seq::<i64>::empty()
        &&& post.active_cols().len() == pre.ncols()
        &&& forall|c: int| 0 <= c < post.active_cols().len() ==> !post.active_cols()[c]
        &&& post.sorted_by == pre.sorted_by
        &&& post.sort_order == pre.sort_order
        &&& post.drag_started_on == pre.drag_started_on
        &&& post.last_active_row == pre.last_active_row
        &&& post.last_active_column == pre.last_active_column
        &&& post.beyond_drag_point == pre.beyond_drag_point
        &&& post.last_id_used == pre.last_id_used
        &&& post.auto_reload == pre.auto_reload
        &&& post.auto_scroll == pre.auto_scroll
        &&& post.select_full_row == pre.select_full_row
    }

    /// Throw the display snapshot away so that the next access rebuilds it
    /// from the store; the active row and column sets are cleared with it.
    /// The identity counter is untouched.
    pub fn recreate_rows(&mut self)
        requires
            old(self).wf(),
        ensures
            final(self).wf(),
            Self::invalidated(*old(self), *final(self)),
    {
        self.formatted_rows.clear();
        self.indexed_ids.clear();
        self.active_rows.clear();
        self.active_columns = Self::all_false(self.column_count);
    }

    /// Empty the store, the snapshot, and all selection state atomically.
    /// The identity counter is untouched: identities are never reused.
    pub fn clear_all_rows(&mut self)
        requires
            old(self).wf(),
        ensures
            final(self).wf(),
            final(self).store() =~= Seq::<RowView>::empty(),
            Self::invalidated(
                (SelectableTable { rows: final(self).rows, ..*old(self) }),
                *final(self),
            ),
    {
        self.rows.clear();
        self.formatted_rows.clear();
        self.indexed_ids.clear();
        self.active_rows.clear();
        self.active_columns = Self::all_false(self.column_count);
    }
}

/// A table that agrees with a well-formed one on its structural fields —
/// columns, store, snapshot, index, active sets, sort column, identity
/// counter — and keeps its pointer-tracking columns and auto-scroll state in
/// bounds, is well formed itself.
pub(crate) proof fn lemma_wf_frame(pre: SelectableTable, post: SelectableTable)
    requires
        pre.wf(),
        post.column_count == pre.column_count,
        post.rows == pre.rows,
        post.formatted_rows == pre.formatted_rows,
        post.indexed_ids == pre.indexed_ids,
        post.active_cols().len() == pre.ncols(),
        post.active_rows == pre.active_rows,
        post.sorted_by == pre.sorted_by,
        post.last_id_used == pre.last_id_used,
        post.auto_scroll.wf(),
        match post.drag_started_on {
            Some((id, col)) => (col as int) < post.ncols(),
            None => true,
        },
        match post.last_active_column {
            Some(col) => (col as int) < post.ncols(),
            None => true,
        },
    ensures
        post.wf(),
{
    assert(post.store() == pre.store());
    assert(post.shown() == pre.shown());
    assert(post.index_map() == pre.index_map());
    assert(post.actives() == pre.actives());
    assert forall|i: int|
        0 <= i < post.store().len() implies row_wf(#[trigger] post.store()[i], post.ncols())
            && sel_empty(post.store()[i]) && 0 <= post.store()[i].id < post.next_id() by {
        assert(row_wf(pre.store()[i], pre.ncols()));
        assert(sel_empty(pre.store()[i]));
    }
    assert forall|i: int, j: int|
        0 <= i < j < post.store().len() implies #[trigger] post.store()[i].id
            < #[trigger] post.store()[j].id by {
        assert(pre.store()[i].id < pre.store()[j].id);
    }
    assert forall|i: int|
        0 <= i < post.shown().len() implies row_wf(#[trigger] post.shown()[i], post.ncols()) by {
        assert(row_wf(pre.shown()[i], pre.ncols()));
    }
    assert forall|i: int|
        0 <= i < post.shown().len() implies {
            let id = #[trigger] post.shown()[i].id as i64;
            &&& post.index_map().contains_key(id)
            &&& post.index_map()[id] as int == i
        } by {
        assert(pre.index_map().contains_key(pre.shown()[i].id as i64));
        assert(pre.index_map()[pre.shown()[i].id as i64] as int == i);
    }
    assert forall|id: i64| post.index_map().contains_key(id) implies {
        let p = #[trigger] post.index_map()[id] as int;
        &&& 0 <= p < post.shown().len()
        &&& post.shown()[p].id == id as int
    } by {
        assert(pre.index_map().contains_key(id));
    }
    assert forall|k: int|
        0 <= k < post.actives().len() implies post.index_map().contains_key(
        #[trigger] post.actives()[k]) by {
        assert(pre.index_map().contains_key(pre.actives()[k]));
    }
    assert forall|k: int, l: int|
        0 <= k < l < post.actives().len() implies #[trigger] post.actives()[k]
            != #[trigger] post.actives()[l] by {
        assert(pre.actives()[k] != pre.actives()[l]);
    }
    assert forall|i: int|
        0 <= i < post.shown().len() && sel_any(#[trigger] post.shown()[i]) implies post.actives()
            .contains(post.shown()[i].id as i64) by {
        assert(sel_any(pre.shown()[i]));
        assert(pre.actives().contains(pre.shown()[i].id as i64));
    }
    assert(post.wf());
}

/// One cell's interaction outcome for one frame, as the host reports it:
/// the discrete events observed on the cell plus the modifier state.
#[derive(Clone, Copy)]
pub struct CellInteraction {
    /// A drag gesture began on this cell this frame.
    pub drag_started: bool,
    /// The primary button was released this frame.
    pub pointer_released: bool,
    /// The cell was clicked (press and release without dragging).
    pub clicked: bool,
    /// The pointer is over this cell.
    pub contains_pointer: bool,
    /// The multi-select modifier (ctrl) is held.
    pub ctrl_pressed: bool,
    /// This is a secondary (context-menu) interaction.
    pub secondary_clicked: bool,
}

/// One mutation of the row store, handed to
/// [`SelectableTable::add_modify_row`]: insert a new row (it receives a
/// fresh identity), replace the payload of the row with a given identity,
/// or remove that row. Replacing or removing a missing identity changes
/// nothing, but still counts as a mutation event.
pub enum RowMutation {
    /// Insert a new row with this payload.
    Add(Vec<CellValue>),
    /// Replace the payload of the row with this identity.
    Update(i64, Vec<CellValue>),
    /// Remove the row with this identity.
    Remove(i64),
}

impl SelectableTable {
    /// The store after `change` is applied to it: a pushed row with the
    /// fresh identity, a replaced payload, or one row fewer.
    pub open spec fn store_after(self, change: RowMutation) -> Seq<RowView> {
        match change {
            RowMutation::Add(data) => self.store().push(
                RowView {
                    cells: data@.map_values(|c: CellValue| c@),
                    id: self.next_id(),
                    sel: Seq::new(self.ncols() as nat, |c: int| false),
                },
            ),
            RowMutation::Update(id, data) => if self.id_in_store(id) {
                let p = crate::sorting::pos_of_id(self.store(), id as int);
                self.store().update(
                    p,
                    RowView { cells: data@.map_values(|c: CellValue| c@), ..self.store()[p] },
                )
            } else {
                self.store()
            },
            RowMutation::Remove(id) => if self.id_in_store(id) {
                self.store().remove(crate::sorting::pos_of_id(self.store(), id as int))
            } else {
                self.store()
            },
        }
    }

    /// The single write path of the row store. Applies `change`, counts one
    /// mutation event, and — when the auto-reload threshold is reached —
    /// invalidates the display snapshot and clears the selection sets.
    pub fn add_modify_row(&mut self, change: RowMutation)
        requires
            old(self).wf(),
            match change {
                RowMutation::Add(data) => data@.len() == old(self).ncols() && old(self).next_id()
                    < i64::MAX,
                RowMutation::Update(id, data) => data@.len() == old(self).ncols(),
                RowMutation::Remove(id) => true,
            },
        ensures
            final(self).wf(),
            final(self).store() == old(self).store_after(change),
            final(self).next_id() == if change matches RowMutation::Add(_) {
                old(self).next_id() + 1
            } else {
                old(self).next_id()
            },
            final(self).auto_reload == old(self).auto_reload.spec_increment().0,
            old(self).auto_reload.spec_increment().1 ==> Self::invalidated(
                (SelectableTable {
                    rows: final(self).rows,
                    last_id_used: final(self).last_id_used,
                    auto_reload: final(self).auto_reload,
                    ..*old(self)
                }),
                *final(self),
            ),
            !old(self).auto_reload.spec_increment().1 ==> *final(self) == (SelectableTable {
                rows: final(self).rows,
                last_id_used: final(self).last_id_used,
                auto_reload: final(self).auto_reload,
                ..*old(self)
            }),
    {
        let ghost pre = *self;
        match change {
            RowMutation::Add(data) => {
                let selected_columns = Self::all_false(self.column_count);
                let row = SelectableRow {
                    row_data: data,
                    id: self.last_id_used,
                    selected_columns,
                };
                proof {
                    assert(row@.cells =~= pre.store_after(change).last().cells);
                    assert(row@.sel =~= pre.store_after(change).last().sel);
                }
                self.rows.push(row);
                self.last_id_used = self.last_id_used + 1;
                proof {
                    assert(self.store() =~= pre.store_after(change));
                }
            }
            RowMutation::Update(id, data) => {
                let position = self.store_position(id);
                if let Some(p) = position {
                    let mut row = self.rows.remove(p);
                    row.row_data = data;
                    self.rows.insert(p, row);
                    proof {
                        assert(pre.id_in_store(id));
                        assert(self.store() =~= pre.store_after(change));
                    }
                } else {
                    proof {
                        assert(!pre.id_in_store(id));
                        assert(self.store() =~= pre.store_after(change));
                    }
                }
            }
            RowMutation::Remove(id) => {
                let position = self.store_position(id);
                if let Some(p) = position {
                    self.rows.remove(p);
                    proof {
                        assert(pre.id_in_store(id));
                        assert(self.store() =~= pre.store_after(change));
                    }
                } else {
                    proof {
                        assert(!pre.id_in_store(id));
                        assert(self.store() =~= pre.store_after(change));
                    }
                }
            }
        }
        proof {
            let post = self.store();
            assert forall|i: int|
                0 <= i < post.len() implies row_wf(#[trigger] post[i], self.ncols()) && sel_empty(
                post[i],
            ) && 0 <= post[i].id < self.next_id() by {
                match change {
                    RowMutation::Add(data) => {
                        if i < pre.store().len() {
                            assert(post[i] == pre.store()[i]);
                        }
                    },
                    RowMutation::Update(id, data) => {
                        let p = crate::sorting::pos_of_id(pre.store(), id as int);
                        if !(pre.id_in_store(id) && i == p) {
                            assert(post[i] == pre.store()[i]);
                        }
                    },
                    RowMutation::Remove(id) => {
                        if pre.id_in_store(id) {
                            let p = crate::sorting::pos_of_id(pre.store(), id as int);
                            if i < p {
                                assert(post[i] == pre.store()[i]);
                            } else {
                                assert(post[i] == pre.store()[i + 1]);
                            }
                        } else {
                            assert(post[i] == pre.store()[i]);
                        }
                    },
                }
            }
            assert forall|i: int, j: int|
                0 <= i < j < post.len() implies #[trigger] post[i].id < #[trigger] post[j].id by {
                match change {
                    RowMutation::Add(data) => {
                        if j < pre.store().len() {
                            assert(post[i] == pre.store()[i]);
                            assert(post[j] == pre.store()[j]);
                        } else {
                            assert(post[i] == pre.store()[i]);
                            assert(post[j].id == pre.next_id());
                        }
                    },
                    RowMutation::Update(id, data) => {
                        let p = crate::sorting::pos_of_id(pre.store(), id as int);
                        assert(post[i].id == pre.store()[i].id);
                        assert(post[j].id == pre.store()[j].id);
                    },
                    RowMutation::Remove(id) => {
                        if pre.id_in_store(id) {
                            let p = crate::sorting::pos_of_id(pre.store(), id as int);
                            let i0: int = if i < p { i } else { i + 1 };
                            let j0: int = if j < p { j } else { j + 1 };
                            assert(post[i] == pre.store()[i0]);
                            assert(post[j] == pre.store()[j0]);
                            assert(pre.store()[i0].id < pre.store()[j0].id);
                        } else {
                            assert(post[i] == pre.store()[i]);
                            assert(post[j] == pre.store()[j]);
                        }
                    },
                }
            }
            assert(self.formatted_rows == pre.formatted_rows);
            assert(self.shown() == pre.shown());
            assert(self.index_map() == pre.index_map());
            assert(self.actives() == pre.actives());
            assert(pre.shown_wf());
            assert forall|i: int|
                0 <= i < self.shown().len() implies row_wf(
                #[trigger] self.shown()[i],
                self.ncols(),
            ) by {
                assert(row_wf(pre.shown()[i], pre.ncols()));
            }
            assert(self.wf());
        }
        let reload = self.auto_reload.increment_count();
        if reload {
            self.recreate_rows();
        }
    }

    /// Replace the payload of the snapshot row with identity `id`, without
    /// touching the store, the selection, or the mutation counter. The
    /// change is lost when the snapshot is next rebuilt; a missing identity
    /// changes nothing.
    pub fn add_modify_shown_row(&mut self, id: i64, row_data: Vec<CellValue>)
        requires
            old(self).wf(),
            row_data@.len() == old(self).ncols(),
        ensures
            final(self).wf(),
            old(self).index_map().contains_key(id) ==> final(self).shown() == old(self).shown()
                .update(
                old(self).index_map()[id] as int,
                (RowView {
                    cells: row_data@.map_values(|c: CellValue| c@),
                    ..old(self).shown()[old(self).index_map()[id] as int]
                }),
            ),
            !old(self).index_map().contains_key(id) ==> final(self).shown() == old(self).shown(),
            *final(self) == (SelectableTable {
                formatted_rows: final(self).formatted_rows,
                ..*old(self)
            }),
    {
        let ghost pre = *self;
        let position = match self.indexed_ids.get(&id) {
            Some(p) => Some(*p),
            None => None,
        };
        if let Some(p) = position {
            proof {
                assert(pre.index_map().contains_key(id) && pre.index_map()[id] == p);
                assert((p as int) < pre.shown().len());
                assert(pre.shown().len() == self.formatted_rows@.len());
            }
            let mut row = self.formatted_rows.remove(p);
            row.row_data = row_data;
            self.formatted_rows.insert(p, row);
            proof {
                assert(self.shown() =~= pre.shown().update(
                    pre.index_map()[id] as int,
                    RowView {
                        cells: row_data@.map_values(|c: CellValue| c@),
                        ..pre.shown()[pre.index_map()[id] as int]
                    },
                ));
                let q = pre.index_map()[id] as int;
                assert(self.shown().len() == pre.shown().len());
                assert forall|i: int|
                    0 <= i < self.shown().len() implies (#[trigger] self.shown()[i]).id
                        == pre.shown()[i].id && self.shown()[i].sel == pre.shown()[i].sel
                        && row_wf(self.shown()[i], self.ncols()) by {
                    assert(row_wf(pre.shown()[i], pre.ncols()));
                    if i != q {
                        assert(self.shown()[i] == pre.shown()[i]);
                    }
                }
                assert forall|i: int|
                    0 <= i < self.shown().len() && sel_any(#[trigger] self.shown()[i]) implies self
                    .actives().contains(self.shown()[i].id as i64) by {
                    assert(sel_any(pre.shown()[i]));
                }
                assert(self.actives() == pre.actives());
                assert(self.index_map() == pre.index_map());
                assert(pre.actives_wf());
                assert forall|k: int|
                    0 <= k < self.actives().len() implies self.index_map().contains_key(
                    #[trigger] self.actives()[k]) by {
                    assert(pre.index_map().contains_key(pre.actives()[k]));
                }
                assert forall|k: int, l: int|
                    0 <= k < l < self.actives().len() implies #[trigger] self.actives()[k]
                        != #[trigger] self.actives()[l] by {
                    assert(pre.actives()[k] != pre.actives()[l]);
                }
                assert(self.wf());
            }
        }
    }

    /// How a sort-spec change leaves the table: the new column and
    /// direction are in place and the whole selection state is cleared;
    /// store, snapshot order and everything else stay.
    pub open spec fn sort_changed(pre: Self, post: Self, col: usize, ord: SortOrder) -> bool {
        &&& post == (SelectableTable {
            formatted_rows: post.formatted_rows,
            active_columns: post.active_columns,
            active_rows: post.active_rows,
            last_active_row: None,
            last_active_column: None,
            sorted_by: col,
            sort_order: ord,
            ..pre
        })
        &&& post.shown().len() == pre.shown().len()
        &&& forall|i: int|
            0 <= i < post.shown().len() ==> #[trigger] post.shown()[i] == (RowView {
                sel: crate::row_selection::no_cols(pre.ncols()),
                ..pre.shown()[i]
            })
        &&& post.active_cols() == crate::row_selection::no_cols(pre.ncols())
        &&& post.actives() =~= Seq::<i64>::empty()
    }

    /// Flip the sort direction in place and clear all selection. The cached
    /// snapshot itself is not cleared here; header handling recreates it.
    pub fn change_sort_order(&mut self)
        requires
            old(self).wf(),
        ensures
            final(self).wf(),
            Self::sort_changed(
                *old(self),
                *final(self),
                old(self).sorted_by,
                old(self).sort_order.spec_flip(),
            ),
    {
        self.unselect_all();
        if matches!(self.sort_order, SortOrder::Ascending) {
            self.sort_order = SortOrder::Descending;
        } else {
            self.sort_order = SortOrder::Ascending;
        }
        proof {
            let mid = SelectableTable { sort_order: old(self).sort_order, ..*self };
            lemma_wf_frame(mid, *self);
        }
    }

    /// Sort by `sort_by`, ascending, and clear all selection. The cached
    /// snapshot itself is not cleared here; header handling recreates it.
    pub fn change_sorted_by(&mut self, sort_by: usize)
        requires
            old(self).wf(),
            (sort_by as int) < old(self).ncols(),
        ensures
            final(self).wf(),
            Self::sort_changed(*old(self), *final(self), sort_by, SortOrder::Ascending),
    {
        self.unselect_all();
        let ghost mid = *self;
        self.sorted_by = sort_by;
        self.sort_order = SortOrder::Ascending;
        proof {
            assert(self.store() == mid.store());
            assert(self.shown() == mid.shown());
            assert(self.index_map() == mid.index_map());
            assert(self.actives() == mid.actives());
            assert forall|i: int|
                0 <= i < self.store().len() implies row_wf(#[trigger] self.store()[i], self.ncols())
                    && sel_empty(self.store()[i]) && 0 <= self.store()[i].id < self.next_id() by {
                assert(row_wf(mid.store()[i], mid.ncols()));
                assert(sel_empty(mid.store()[i]));
            }
            assert forall|i: int, j: int|
                0 <= i < j < self.store().len() implies #[trigger] self.store()[i].id
                    < #[trigger] self.store()[j].id by {
                assert(mid.store()[i].id < mid.store()[j].id);
            }
            assert forall|i: int|
                0 <= i < self.shown().len() implies row_wf(
                #[trigger] self.shown()[i],
                self.ncols(),
            ) by {
                assert(row_wf(mid.shown()[i], mid.ncols()));
            }
            assert(self.wf());
        }
    }

    /// The decision a click on the header of `column` triggers: toggle the
    /// direction when it is already the sort column, else sort by it
    /// ascending; either way the selection is cleared and the snapshot is
    /// recreated so the next access rebuilds it.
    pub fn handle_header_click(&mut self, column: usize)
        requires
            old(self).wf(),
            (column as int) < old(self).ncols(),
        ensures
            final(self).wf(),
            final(self).sorted_by == if column == old(self).sorted_by {
                old(self).sorted_by
            } else {
                column
            },
            final(self).sort_order == if column == old(self).sorted_by {
                old(self).sort_order.spec_flip()
            } else {
                SortOrder::Ascending
            },
            Self::invalidated(
                (SelectableTable {
                    sorted_by: final(self).sorted_by,
                    sort_order: final(self).sort_order,
                    last_active_row: None,
                    last_active_column: None,
                    ..*old(self)
                }),
                *final(self),
            ),
    {
        if column == self.sorted_by {
            self.change_sort_order();
        } else {
            self.change_sorted_by(column);
        }
        self.recreate_rows();
    }

    /// The decisions the body of the table makes for the cell `(id,
    /// column)` this frame, given the interaction the host observed on it:
    ///
    /// - a starting drag records its origin here, first clearing the
    ///   selection unless ctrl is held or this is a secondary click;
    /// - a released pointer ends the drag and resets the last-touched
    ///   tracking, keeping the selection;
    /// - a click selects exactly this cell (or its whole row in full-row
    ///   mode), again clearing first without ctrl or secondary;
    /// - a pointer over the cell mid-drag advances the drag selection,
    ///   unless it still sits on the origin cell and never left it.
    pub fn handle_table_body(&mut self, id: i64, column: usize, interaction: CellInteraction)
        requires
            old(self).wf(),
            old(self).index_map().contains_key(id),
            (column as int) < old(self).ncols(),
            match old(self).drag_started_on {
                Some((oid, ocol)) => old(self).index_map().contains_key(oid),
                None => true,
            },
            match old(self).last_active_row {
                Some(lid) => old(self).index_map().contains_key(lid),
                None => true,
            },
        ensures
            final(self).wf(),
            *final(self) == (SelectableTable {
                formatted_rows: final(self).formatted_rows,
                active_columns: final(self).active_columns,
                active_rows: final(self).active_rows,
                last_active_row: final(self).last_active_row,
                last_active_column: final(self).last_active_column,
                beyond_drag_point: final(self).beyond_drag_point,
                drag_started_on: final(self).drag_started_on,
                ..*old(self)
            }),
            (!interaction.drag_started && !interaction.pointer_released && !interaction.clicked
                && !interaction.contains_pointer) ==> *final(self) == *old(self),
            (!interaction.drag_started && interaction.pointer_released && !interaction.clicked
                && !interaction.contains_pointer) ==> *final(self) == (SelectableTable {
                last_active_row: None,
                last_active_column: None,
                drag_started_on: None,
                beyond_drag_point: false,
                ..*old(self)
            }),
            (interaction.drag_started && !interaction.pointer_released)
                ==> final(self).drag_started_on == Some((id, column)),
            (interaction.drag_started && (interaction.ctrl_pressed
                || interaction.secondary_clicked) && !interaction.pointer_released
                && !interaction.clicked && !interaction.contains_pointer) ==> *final(self) == (
            SelectableTable { drag_started_on: Some((id, column)), ..*old(self) }),
            (interaction.drag_started && !interaction.ctrl_pressed
                && !interaction.secondary_clicked && !interaction.pointer_released
                && !interaction.clicked && !interaction.contains_pointer) ==> (
            final(self).drag_started_on == Some((id, column)) && final(self).fresh_drag()
                && Self::unselected_all(
                *old(self),
                (SelectableTable { drag_started_on: old(self).drag_started_on, ..*final(self) }),
            )),
            (interaction.clicked && !interaction.ctrl_pressed && !interaction.secondary_clicked
                && !interaction.drag_started && !interaction.contains_pointer) ==> {
                let p = old(self).index_map()[id] as int;
                let csel = if old(self).select_full_row {
                    crate::row_selection::all_cols(old(self).ncols())
                } else {
                    crate::row_selection::no_cols(old(self).ncols()).update(column as int, true)
                };
                &&& final(self).shown().len() == old(self).shown().len()
                &&& forall|i: int|
                    0 <= i < final(self).shown().len() ==> (#[trigger] final(self).shown()[i]) == (
                    RowView {
                        sel: if i == p {
                            csel
                        } else {
                            crate::row_selection::no_cols(old(self).ncols())
                        },
                        ..old(self).shown()[i]
                    })
                &&& final(self).active_cols() == csel
                &&& forall|x: i64| final(self).actives().contains(x) <==> x == id
                &&& final(self).last_active_row is None
                &&& final(self).last_active_column is None
            },
            (interaction.contains_pointer && !interaction.drag_started
                && !interaction.pointer_released && !interaction.clicked
                && !interaction.ctrl_pressed && !old(self).select_full_row && old(
                self,
            ).fresh_drag() && (match old(self).drag_started_on {
                Some((oid, ocol)) => oid != id || ocol != column || old(self).beyond_drag_point,
                None => false,
            })) ==> final(self).rect_state(id, column),
            forall|lid: i64, lcol: usize|
                (interaction.contains_pointer && !interaction.drag_started
                    && !interaction.pointer_released && !interaction.clicked
                    && !interaction.ctrl_pressed && !old(self).select_full_row && #[trigger] old(
                    self,
                ).rect_state(lid, lcol) && !(old(self).last_active_row == Some(id) && old(
                    self,
                ).last_active_column == Some(column))) ==> final(self).rect_state(id, column),
    {
        if interaction.drag_started {
            // A right-button (context-menu) drag or a ctrl-drag keeps the
            // selection; a plain drag starts from a clean slate.
            if !interaction.ctrl_pressed && !interaction.secondary_clicked {
                self.unselect_all();
            }
            let ghost before = *self;
            self.drag_started_on = Some((id, column));
            proof {
                lemma_wf_frame(before, *self);
            }
        }
        if interaction.pointer_released {
            let ghost before = *self;
            self.last_active_row = None;
            self.last_active_column = None;
            self.drag_started_on = None;
            self.beyond_drag_point = false;
            proof {
                lemma_wf_frame(before, *self);
            }
        }
        if interaction.clicked {
            if !interaction.ctrl_pressed && !interaction.secondary_clicked {
                self.unselect_all();
            }
            self.select_single_row_cell(id, column);
            proof {
                if !interaction.ctrl_pressed && !interaction.secondary_clicked {
                    assert forall|x: i64|
                        self.actives().contains(x) implies x == id by {}
                }
            }
        }
        let ongoing = self.drag_started_on;
        if interaction.contains_pointer && ongoing.is_some() {
            let (origin_id, origin_col) = match ongoing {
                Some(pair) => pair,
                None => {
                    proof {
                        assert(false);
                    }
                    (0, 0)
                },
            };
            // Only treat this as a drag when the pointer is off the origin
            // cell or has left it before: otherwise a plain click would
            // count as a drag.
            if origin_id != id || origin_col != column || self.beyond_drag_point {
                proof {
                    assert(self.index_map().contains_key(origin_id));
                }
                self.select_dragged_row_cell(id, column, interaction.ctrl_pressed);
            }
        }
    }

    /// The first column in the fixed order.
    pub fn first_column(&self) -> (col: usize)
        requires
            self.wf(),
        ensures
            col == 0,
    {
        0
    }

    /// The last column in the fixed order.
    pub fn last_column(&self) -> (col: usize)
        requires
            self.wf(),
        ensures
            col as int == self.ncols() - 1,
    {
        self.column_count - 1
    }

    /// The column after `column`, wrapping from the last back to the first.
    pub fn next_column(&self, column: usize) -> (next: usize)
        requires
            self.wf(),
            (column as int) < self.ncols(),
        ensures
            next as int == if column as int == self.ncols() - 1 {
                0int
            } else {
                column as int + 1
            },
    {
        if column == self.column_count - 1 {
            0
        } else {
            column + 1
        }
    }

    /// The column before `column`, wrapping from the first back to the last.
    pub fn previous_column(&self, column: usize) -> (prev: usize)
        requires
            self.wf(),
            (column as int) < self.ncols(),
        ensures
            prev as int == if column as int == 0 {
                self.ncols() - 1
            } else {
                column as int - 1
            },
    {
        if column == 0 {
            self.column_count - 1
        } else {
            column - 1
        }
    }
}

} // verus!
