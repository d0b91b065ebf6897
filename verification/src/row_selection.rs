//! The drag-selection state machine: click and drag gestures over the
//! 2-D grid of (display row, column) turn into a rectangular selection that
//! tolerates skipped cells and rows when the pointer moves fast.

use vstd::prelude::*;

use crate::{row_wf, sel_any, sel_empty, views_of, RowView, SelectableRow, SelectableTable};

verus! {

/// Column flags of width `ncols` with exactly the positions
/// `lo ..= hi` set.
pub open spec fn span_cols(ncols: int, lo: int, hi: int) -> Seq<bool> {
    Seq::new(ncols as nat, |c: int| lo <= c <= hi)
}

/// Column flags of width `ncols`, all clear.
pub open spec fn no_cols(ncols: int) -> Seq<bool> {
    Seq::new(ncols as nat, |c: int| false)
}

/// Column flags of width `ncols`, all set.
pub open spec fn all_cols(ncols: int) -> Seq<bool> {
    Seq::new(ncols as nat, |c: int| true)
}

/// The rows of the snapshot that carry at least one selected column, in
/// display order.
pub open spec fn selected_rows(shown: Seq<RowView>) -> Seq<RowView> {
    shown.filter(|r: RowView| sel_any(r))
}

/// Selecting everything and then unselecting everything restores the empty
/// selection state: afterwards no row carries a selection, no row or
/// column is active and the last-touched tracking is reset — and when the
/// table carried no selection to begin with, the observable state is
/// exactly what it was before either call.
pub proof fn lemma_select_all_then_unselect_all(
    t0: SelectableTable,
    t1: SelectableTable,
    t2: SelectableTable,
)
    requires
        t0.wf(),
        SelectableTable::selected_all(t0, t1),
        SelectableTable::unselected_all(t1, t2),
    ensures
        forall|i: int| 0 <= i < t2.shown().len() ==> sel_empty(#[trigger] t2.shown()[i]),
        t2.actives() =~= Seq::<i64>::empty(),
        t2.active_cols() == no_cols(t0.ncols()),
        t2.last_active_row is None && t2.last_active_column is None,
        t2.shown().len() == t0.shown().len(),
        forall|i: int|
            0 <= i < t2.shown().len() ==> #[trigger] t2.shown()[i] == (RowView {
                sel: no_cols(t0.ncols()),
                ..t0.shown()[i]
            }),
        t2.store() == t0.store(),
        t2.sort_spec() == t0.sort_spec(),
        ((forall|i: int| 0 <= i < t0.shown().len() ==> sel_empty(#[trigger] t0.shown()[i]))
            && t0.active_cols() == no_cols(t0.ncols()) && t0.actives() =~= Seq::<i64>::empty()
            && t0.last_active_row is None && t0.last_active_column is None) ==> (t2.shown()
            == t0.shown() && t2.actives() =~= t0.actives() && t2.active_cols()
            == t0.active_cols() && t2.last_active_row == t0.last_active_row
            && t2.last_active_column == t0.last_active_column),
{
    assert forall|i: int|
        0 <= i < t2.shown().len() implies #[trigger] t2.shown()[i] == (RowView {
        sel: no_cols(t0.ncols()),
        ..t0.shown()[i]
    }) by {
        assert(t1.shown()[i] == (RowView { sel: all_cols(t0.ncols()), ..t0.shown()[i] }));
        assert(t2.shown()[i] == (RowView { sel: no_cols(t1.ncols()), ..t1.shown()[i] }));
    }
    assert forall|i: int| 0 <= i < t2.shown().len() implies sel_empty(#[trigger] t2.shown()[i]) by {
        assert(t2.shown()[i].sel == no_cols(t0.ncols()));
    }
    if (forall|i: int| 0 <= i < t0.shown().len() ==> sel_empty(#[trigger] t0.shown()[i]))
        && t0.active_cols() == no_cols(t0.ncols()) && t0.actives() =~= Seq::<i64>::empty()
        && t0.last_active_row is None && t0.last_active_column is None {
        assert forall|i: int| 0 <= i < t2.shown().len() implies #[trigger] t2.shown()[i]
            == t0.shown()[i] by {
            assert(sel_empty(t0.shown()[i]));
            assert(row_wf(t0.shown()[i], t0.ncols()));
            assert(t0.shown()[i].sel =~= no_cols(t0.ncols()));
        }
        assert(t2.shown() =~= t0.shown());
    }
}

/// A well-formed table stays well formed when only the selection flags of
/// its snapshot rows change — identities, cells and row count staying put —
/// as long as every row that ends up with a selection is listed active.
proof fn lemma_wf_sel_update(pre: SelectableTable, post: SelectableTable)
    requires
        pre.wf(),
        post == (SelectableTable {
            formatted_rows: post.formatted_rows,
            active_columns: post.active_columns,
            last_active_row: post.last_active_row,
            last_active_column: post.last_active_column,
            beyond_drag_point: post.beyond_drag_point,
            ..pre
        }),
        post.active_cols().len() == pre.ncols(),
        match post.last_active_column {
            Some(col) => (col as int) < post.ncols(),
            None => true,
        },
        post.shown().len() == pre.shown().len(),
        forall|i: int|
            0 <= i < post.shown().len() ==> (#[trigger] post.shown()[i]).id == pre.shown()[i].id
                && post.shown()[i].cells == pre.shown()[i].cells && post.shown()[i].sel.len()
                == pre.ncols(),
        forall|i: int|
            0 <= i < post.shown().len() && sel_any(#[trigger] post.shown()[i]) ==> post.actives()
                .contains(post.shown()[i].id as i64),
    ensures
        post.wf(),
{
    assert(post.store() == pre.store());
    assert(post.index_map() == pre.index_map());
    assert(post.actives() == pre.actives());
    assert forall|i: int|
        0 <= i < post.store().len() implies row_wf(#[trigger] post.store()[i], post.ncols())
            && sel_empty(post.store()[i]) && 0 <= post.store()[i].id < post.next_id() by {
        assert(row_wf(pre.store()[i], pre.ncols()));
        assert(sel_empty(pre.store()[i]));
    }
    assert forall|i: int, j: int|
        0 <= i < j < post.store().len() implies #[trigger] post.store()[i].id
            < #[trigger] post.store()[j].id by {
        assert(pre.store()[i].id < pre.store()[j].id);
    }
    assert forall|i: int|
        0 <= i < post.shown().len() implies row_wf(#[trigger] post.shown()[i], post.ncols()) by {
        assert(row_wf(pre.shown()[i], pre.ncols()));
    }
    assert forall|i: int|
        0 <= i < post.shown().len() implies {
            let id = #[trigger] post.shown()[i].id as i64;
            &&& post.index_map().contains_key(id)
            &&& post.index_map()[id] as int == i
        } by {
        assert(pre.index_map().contains_key(pre.shown()[i].id as i64));
        assert(pre.index_map()[pre.shown()[i].id as i64] as int == i);
    }
    assert forall|id: i64| post.index_map().contains_key(id) implies {
        let p = #[trigger] post.index_map()[id] as int;
        &&& 0 <= p < post.shown().len()
        &&& post.shown()[p].id == id as int
    } by {
        assert(pre.index_map().contains_key(id));
        let p = pre.index_map()[id] as int;
        assert(post.shown()[p].id == pre.shown()[p].id);
    }
    assert forall|k: int|
        0 <= k < post.actives().len() implies post.index_map().contains_key(
        #[trigger] post.actives()[k]) by {
        assert(pre.index_map().contains_key(pre.actives()[k]));
    }
    assert forall|k: int, l: int|
        0 <= k < l < post.actives().len() implies #[trigger] post.actives()[k]
            != #[trigger] post.actives()[l] by {
        assert(pre.actives()[k] != pre.actives()[l]);
    }
    assert(post.wf());
}

impl SelectableTable {
    /// The flags a drag writes into a row it selects: every column in
    /// full-row mode, the active columns otherwise.
    pub open spec fn target_sel(self) -> Seq<bool> {
        if self.select_full_row {
            all_cols(self.ncols())
        } else {
            self.active_cols()
        }
    }

    /// A vector with `n` set column flags.
    pub(crate) fn all_true(n: usize) -> (v: Vec<bool>)
        ensures
            v@ =~= all_cols(n as int),
    {
        let mut v: Vec<bool> = Vec::new();
        let mut c: usize = 0;
        while c < n
            invariant
                0 <= c <= n,
                v@.len() == c as int,
                forall|k: int| 0 <= k < c as int ==> v@[k],
            decreases n - c,
        {
            v.push(true);
            c = c + 1;
        }
        v
    }

    /// A copy of the active-column flags.
    fn active_columns_copy(&self) -> (v: Vec<bool>)
        ensures
            v@ == self.active_cols(),
    {
        let mut v: Vec<bool> = Vec::new();
        let mut c: usize = 0;
        while c < self.active_columns.len()
            invariant
                0 <= c <= self.active_columns.len(),
                v@.len() == c as int,
                forall|k: int| 0 <= k < c as int ==> v@[k] == self.active_cols()[k],
            decreases self.active_columns.len() - c,
        {
            v.push(self.active_columns[c]);
            c = c + 1;
        }
        proof {
            assert(v@ =~= self.active_cols());
        }
        v
    }

    /// The flags `target_sel` prescribes, as a vector.
    fn target_sel_copy(&self) -> (v: Vec<bool>)
        requires
            self.active_cols().len() == self.ncols(),
        ensures
            v@ == self.target_sel(),
    {
        if self.select_full_row {
            let v = Self::all_true(self.column_count);
            proof {
                assert(v@ =~= self.target_sel());
            }
            v
        } else {
            self.active_columns_copy()
        }
    }

    /// Replace the selected-column flags of the snapshot row at `p`.
    fn set_row_selection(&mut self, p: usize, sel: Vec<bool>)
        requires
            (p as int) < old(self).shown().len(),
        ensures
            *final(self) == (SelectableTable {
                formatted_rows: final(self).formatted_rows,
                ..*old(self)
            }),
            final(self).formatted_rows@.len() == old(self).formatted_rows@.len(),
            final(self).shown() == old(self).shown().update(
                p as int,
                (RowView { sel: sel@, ..old(self).shown()[p as int] }),
            ),
    {
        let mut row = self.formatted_rows.remove(p);
        row.selected_columns = sel;
        self.formatted_rows.insert(p, row);
        proof {
            assert(self.shown() =~= old(self).shown().update(
                p as int,
                RowView { sel: sel@, ..old(self).shown()[p as int] },
            ));
        }
    }

    /// The snapshot position of the row with identity `id`; `id` must be
    /// indexed (a missing identity is a violated internal invariant).
    fn position_of(&self, id: i64) -> (p: usize)
        requires
            self.wf(),
            self.index_map().contains_key(id),
        ensures
            p == self.index_map()[id],
            (p as int) < self.shown().len(),
            self.shown()[p as int].id == id as int,
    {
        match self.indexed_ids.get(&id) {
            Some(p) => *p,
            None => {
                proof {
                    assert(false);
                }
                0
            },
        }
    }

    /// Append `id` to the active rows unless it is already there.
    fn mark_active(&mut self, id: i64)
        requires
            old(self).wf(),
            old(self).index_map().contains_key(id),
        ensures
            final(self).wf(),
            *final(self) == (SelectableTable { active_rows: final(self).active_rows, ..*old(self) }),
            final(self).actives().contains(id),
            forall|x: i64|
                final(self).actives().contains(x) <==> (old(self).actives().contains(x) || x == id),
            forall|k: int|
                0 <= k < old(self).actives().len() ==> final(self).actives()[k] == old(
                    self,
                ).actives()[k],
    {
        let mut t: usize = 0;
        let ghost pre = *self;
        while t < self.active_rows.len()
            invariant
                *self == pre,
                pre.wf(),
                0 <= t <= self.active_rows.len(),
                forall|k: int| 0 <= k < t as int ==> self.actives()[k] != id,
            decreases self.active_rows.len() - t,
        {
            if self.active_rows[t] == id {
                proof {
                    assert(self.actives()[t as int] == id);
                    assert forall|x: i64|
                        self.actives().contains(x) <==> (pre.actives().contains(x) || x
                            == id) by {}
                }
                return ;
            }
            t = t + 1;
        }
        self.active_rows.push(id);
        proof {
            assert(self.actives()[pre.actives().len() as int] == id);
            assert forall|x: i64|
                self.actives().contains(x) <==> (pre.actives().contains(x) || x == id) by {
                if pre.actives().contains(x) {
                    let w = choose|w: int|
                        0 <= w < pre.actives().len() && pre.actives()[w] == x;
                    assert(self.actives()[w] == x);
                } else if self.actives().contains(x) {
                    let w = choose|w: int|
                        0 <= w < self.actives().len() && self.actives()[w] == x;
                    if w < pre.actives().len() {
                        assert(pre.actives()[w] == x);
                    }
                }
            }
            assert forall|k: int, l: int|
                0 <= k < l < self.actives().len() implies #[trigger] self.actives()[k]
                    != #[trigger] self.actives()[l] by {
                if l < pre.actives().len() {
                    assert(pre.actives()[k] != pre.actives()[l]);
                } else {
                    assert(self.actives()[l] == id);
                    assert(pre.actives()[k] != id);
                }
            }
            assert forall|k: int|
                0 <= k < self.actives().len() implies self.index_map().contains_key(
                #[trigger] self.actives()[k]) by {
                if k < pre.actives().len() {
                    assert(pre.index_map().contains_key(pre.actives()[k]));
                }
            }
            assert forall|i: int|
                0 <= i < self.shown().len() && sel_any(#[trigger] self.shown()[i]) implies self
                    .actives().contains(self.shown()[i].id as i64) by {
                assert(pre.actives().contains(pre.shown()[i].id as i64));
            }
            assert(self.wf());
        }
    }

    /// How `unselect_all` changes the table: every shown row loses its
    /// selection, the active sets empty, the last-touched tracking resets;
    /// store, snapshot order, sort spec and drag origin stay.
    pub open spec fn unselected_all(pre: Self, post: Self) -> bool {
        &&& post == (SelectableTable {
            formatted_rows: post.formatted_rows,
            active_columns: post.active_columns,
            active_rows: post.active_rows,
            last_active_row: None,
            last_active_column: None,
            ..pre
        })
        &&& post.shown().len() == pre.shown().len()
        &&& forall|i: int|
            0 <= i < post.shown().len() ==> #[trigger] post.shown()[i] == (RowView {
                sel: no_cols(pre.ncols()),
                ..pre.shown()[i]
            })
        &&& post.active_cols() == no_cols(pre.ncols())
        &&& post.actives() =~= Seq::<i64>::empty()
    }

    /// Clear the selection from every row and reset the active sets and the
    /// last-touched tracking. The drag origin, sort spec, store and snapshot
    /// order are untouched.
    pub fn unselect_all(&mut self)
        requires
            old(self).wf(),
        ensures
            final(self).wf(),
            Self::unselected_all(*old(self), *final(self)),
    {
        let ghost pre = *self;
        let mut t: usize = 0;
        while t < self.active_rows.len()
            invariant
                pre.wf(),
                *self == (SelectableTable { formatted_rows: self.formatted_rows, ..pre }),
                0 <= t <= self.active_rows.len(),
                self.shown().len() == pre.shown().len(),
                forall|i: int|
                    0 <= i < self.shown().len() ==> (#[trigger] self.shown()[i]).id
                        == pre.shown()[i].id && self.shown()[i].cells == pre.shown()[i].cells
                        && self.shown()[i].sel.len() == pre.shown()[i].sel.len(),
                forall|k: int|
                    0 <= k < t as int ==> sel_empty(
                        #[trigger] self.shown()[pre.index_map()[pre.actives()[k]] as int],
                    ),
                forall|i: int|
                    0 <= i < self.shown().len() && self.shown()[i] != pre.shown()[i]
                        ==> sel_empty(#[trigger] self.shown()[i]),
            decreases self.active_rows.len() - t,
        {
            let id = self.active_rows[t];
            proof {
                assert(pre.actives()[t as int] == id);
                assert(pre.index_map().contains_key(id));
            }
            let p = match self.indexed_ids.get(&id) {
                Some(p) => *p,
                None => {
                    proof {
                        assert(false);
                    }
                    0
                },
            };
            let cleared = Self::all_false_vec(self.column_count);
            let ghost before = *self;
            self.set_row_selection(p, cleared);
            proof {
                assert forall|k: int|
                    0 <= k <= t as int implies sel_empty(
                    #[trigger] self.shown()[pre.index_map()[pre.actives()[k]] as int]) by {
                    let q = pre.index_map()[pre.actives()[k]] as int;
                    if q == p as int {
                        assert(sel_empty(self.shown()[q]));
                    } else {
                        assert(self.shown()[q] == before.shown()[q]);
                    }
                }
            }
            t = t + 1;
        }
        self.active_columns = Self::all_false_vec(self.column_count);
        self.active_rows = Vec::new();
        self.last_active_row = None;
        self.last_active_column = None;
        proof {
            assert forall|i: int|
                0 <= i < self.shown().len() implies #[trigger] self.shown()[i] == (RowView {
                sel: no_cols(pre.ncols()),
                ..pre.shown()[i]
            }) by {
                if self.shown()[i] == pre.shown()[i] {
                    // A row the loop never touched was never active, so by
                    // the table invariant it carried no selection.
                    if sel_any(pre.shown()[i]) {
                        assert(pre.actives().contains(pre.shown()[i].id as i64));
                        let k = choose|k: int|
                            0 <= k < pre.actives().len() && pre.actives()[k] == pre.shown()[i].id as i64;
                        assert(pre.index_map()[pre.actives()[k]] as int == i);
                        assert(sel_empty(self.shown()[i]));
                        assert(false);
                    }
                    assert(sel_empty(pre.shown()[i]));
                    assert(self.shown()[i].sel =~= no_cols(pre.ncols()));
                } else {
                    assert(sel_empty(self.shown()[i]));
                    assert(self.shown()[i].sel =~= no_cols(pre.ncols()));
                }
            }
            assert(self.active_cols() =~= no_cols(pre.ncols()));
            assert forall|i: int|
                0 <= i < self.shown().len() implies row_wf(#[trigger] self.shown()[i], self.ncols())
                 by {
                assert(row_wf(pre.shown()[i], pre.ncols()));
            }
            assert forall|i: int|
                0 <= i < self.shown().len() implies {
                    let id = #[trigger] self.shown()[i].id as i64;
                    &&& self.index_map().contains_key(id)
                    &&& self.index_map()[id] as int == i
                } by {
                assert(pre.index_map().contains_key(pre.shown()[i].id as i64));
                assert(pre.index_map()[pre.shown()[i].id as i64] as int == i);
            }
            assert forall|id: i64| self.index_map().contains_key(id) implies {
                let p = #[trigger] self.index_map()[id] as int;
                &&& 0 <= p < self.shown().len()
                &&& self.shown()[p].id == id as int
            } by {
                assert(pre.index_map().contains_key(id));
            }
            assert(self.wf());
        }
    }

    /// A vector with `n` cleared column flags.
    fn all_false_vec(n: usize) -> (v: Vec<bool>)
        ensures
            v@ =~= no_cols(n as int),
    {
        let mut v: Vec<bool> = Vec::new();
        let mut c: usize = 0;
        while c < n
            invariant
                0 <= c <= n,
                v@.len() == c as int,
                forall|k: int| 0 <= k < c as int ==> !v@[k],
            decreases n - c,
        {
            v.push(false);
            c = c + 1;
        }
        v
    }

    /// How `select_all` changes the table: every shown row has every column
    /// selected, all columns and all shown rows are active, the
    /// last-touched tracking resets; everything else stays.
    pub open spec fn selected_all(pre: Self, post: Self) -> bool {
        &&& post == (SelectableTable {
            formatted_rows: post.formatted_rows,
            active_columns: post.active_columns,
            active_rows: post.active_rows,
            last_active_row: None,
            last_active_column: None,
            ..pre
        })
        &&& post.shown().len() == pre.shown().len()
        &&& forall|i: int|
            0 <= i < post.shown().len() ==> #[trigger] post.shown()[i] == (RowView {
                sel: all_cols(pre.ncols()),
                ..pre.shown()[i]
            })
        &&& post.active_cols() == all_cols(pre.ncols())
        &&& forall|x: i64| post.actives().contains(x) <==> pre.index_map().contains_key(x)
    }

    /// Select every column of every shown row, mark all of them active, and
    /// reset the last-touched tracking.
    pub fn select_all(&mut self)
        requires
            old(self).wf(),
        ensures
            final(self).wf(),
            Self::selected_all(*old(self), *final(self)),
    {
        let ghost pre = *self;
        let mut all_rows: Vec<i64> = Vec::new();
        let mut i: usize = 0;
        while i < self.formatted_rows.len()
            invariant
                pre.wf(),
                *self == (SelectableTable { formatted_rows: self.formatted_rows, ..pre }),
                0 <= i <= self.formatted_rows.len(),
                self.shown().len() == pre.shown().len(),
                all_rows@.len() == i as int,
                forall|k: int|
                    0 <= k < i as int ==> #[trigger] all_rows@[k] == pre.shown()[k].id as i64,
                forall|k: int|
                    0 <= k < i as int ==> #[trigger] self.shown()[k] == (RowView {
                        sel: all_cols(pre.ncols()),
                        ..pre.shown()[k]
                    }),
                forall|k: int|
                    i as int <= k < self.shown().len() ==> #[trigger] self.shown()[k]
                        == pre.shown()[k],
            decreases self.formatted_rows.len() - i,
        {
            let id = self.formatted_rows[i].id;
            proof {
                assert(self.shown()[i as int] == pre.shown()[i as int]);
                assert(self.shown()[i as int].id == self.formatted_rows@[i as int].id as int);
            }
            all_rows.push(id);
            let sel = Self::all_true(self.column_count);
            let ghost before = *self;
            self.set_row_selection(i, sel);
            proof {
                assert(before == (SelectableTable { formatted_rows: before.formatted_rows, ..pre }));
                assert(*self == (SelectableTable {
                    formatted_rows: self.formatted_rows,
                    ..before
                }));
                assert(*self == (SelectableTable { formatted_rows: self.formatted_rows, ..pre }));
                assert(self.shown()[i as int].sel =~= all_cols(pre.ncols()));
            }
            i = i + 1;
        }
        self.active_rows = all_rows;
        self.active_columns = Self::all_true(self.column_count);
        self.last_active_row = None;
        self.last_active_column = None;
        proof {
            assert(self.active_cols() =~= all_cols(pre.ncols()));
            assert forall|x: i64|
                self.actives().contains(x) <==> pre.index_map().contains_key(x) by {
                if self.actives().contains(x) {
                    let k = choose|k: int|
                        0 <= k < self.actives().len() && self.actives()[k] == x;
                    assert(pre.shown()[k].id as i64 == x);
                    assert(pre.index_map().contains_key(pre.shown()[k].id as i64));
                }
                if pre.index_map().contains_key(x) {
                    let p = pre.index_map()[x] as int;
                    assert(pre.shown()[p].id as i64 == x);
                    assert(self.actives()[p] == x);
                }
            }
            assert forall|i2: int|
                0 <= i2 < self.shown().len() implies row_wf(
                #[trigger] self.shown()[i2],
                self.ncols(),
            ) by {
                assert(row_wf(pre.shown()[i2], pre.ncols()));
            }
            assert forall|i2: int|
                0 <= i2 < self.shown().len() implies {
                    let id2 = #[trigger] self.shown()[i2].id as i64;
                    &&& self.index_map().contains_key(id2)
                    &&& self.index_map()[id2] as int == i2
                } by {
                assert(self.shown()[i2].id == pre.shown()[i2].id);
                assert(pre.index_map().contains_key(pre.shown()[i2].id as i64));
                assert(pre.index_map()[pre.shown()[i2].id as i64] as int == i2);
            }
            assert forall|id2: i64| self.index_map().contains_key(id2) implies {
                let q = #[trigger] self.index_map()[id2] as int;
                &&& 0 <= q < self.shown().len()
                &&& self.shown()[q].id == id2 as int
            } by {
                assert(pre.index_map().contains_key(id2));
                let q0 = pre.index_map()[id2] as int;
                assert(self.shown()[q0].id == pre.shown()[q0].id);
            }
            assert forall|k: int, l: int|
                0 <= k < l < self.actives().len() implies #[trigger] self.actives()[k]
                    != #[trigger] self.actives()[l] by {
                assert(pre.shown()[k].id != pre.shown()[l].id);
            }
            assert forall|k: int|
                0 <= k < self.actives().len() implies self.index_map().contains_key(
                #[trigger] self.actives()[k]) by {
                assert(self.actives()[k] == pre.shown()[k].id as i64);
                assert(pre.index_map().contains_key(pre.shown()[k].id as i64));
            }
            assert forall|i2: int|
                0 <= i2 < self.shown().len() && sel_any(#[trigger] self.shown()[i2]) implies self
                    .actives().contains(self.shown()[i2].id as i64) by {
                assert(self.actives()[i2] == pre.shown()[i2].id as i64);
            }
            assert(self.wf());
        }
    }

    /// Select the single cell `(id, column)` — or, in full-row mode, the
    /// whole row — and mark the row and the column active. The click path
    /// of the state machine.
    pub fn select_single_row_cell(&mut self, id: i64, column: usize)
        requires
            old(self).wf(),
            old(self).index_map().contains_key(id),
            (column as int) < old(self).ncols(),
        ensures
            final(self).wf(),
            *final(self) == (SelectableTable {
                formatted_rows: final(self).formatted_rows,
                active_columns: final(self).active_columns,
                active_rows: final(self).active_rows,
                ..*old(self)
            }),
            final(self).active_cols() == if old(self).select_full_row {
                all_cols(old(self).ncols())
            } else {
                old(self).active_cols().update(column as int, true)
            },
            final(self).shown() == old(self).shown().update(
                old(self).index_map()[id] as int,
                (RowView {
                    sel: if old(self).select_full_row {
                        all_cols(old(self).ncols())
                    } else {
                        old(self).shown()[old(self).index_map()[id] as int].sel.update(
                            column as int,
                            true,
                        )
                    },
                    ..old(self).shown()[old(self).index_map()[id] as int]
                }),
            ),
            forall|x: i64|
                final(self).actives().contains(x) <==> (old(self).actives().contains(x) || x == id),
    {
        let ghost pre = *self;
        self.mark_active(id);
        let ghost mid = *self;
        let target_index = self.position_of(id);
        if self.select_full_row {
            self.active_columns = Self::all_true(self.column_count);
            let sel = Self::all_true(self.column_count);
            self.set_row_selection(target_index, sel);
            proof {
                assert(self.active_cols() =~= all_cols(pre.ncols()));
                assert(self.shown()[target_index as int].sel =~= all_cols(pre.ncols()));
            }
        } else {
            let mut sel: Vec<bool> = Vec::new();
            let mut c: usize = 0;
            while c < self.formatted_rows[target_index].selected_columns.len()
                invariant
                    (target_index as int) < self.shown().len(),
                    0 <= c <= self.formatted_rows@[target_index as int].selected_columns@.len(),
                    sel@.len() == c as int,
                    forall|k: int|
                        0 <= k < c as int ==> sel@[k]
                            == self.shown()[target_index as int].sel[k],
                decreases self.formatted_rows@[target_index as int].selected_columns@.len() - c,
            {
                sel.push(self.formatted_rows[target_index].selected_columns[c]);
                c = c + 1;
            }
            proof {
                assert(row_wf(mid.shown()[target_index as int], mid.ncols()));
                assert(sel@ =~= mid.shown()[target_index as int].sel);
            }
            sel[column] = true;
            self.active_columns[column] = true;
            proof {
                assert(sel@ =~= mid.shown()[target_index as int].sel.update(column as int, true));
                assert(self.active_cols() =~= pre.active_cols().update(column as int, true));
            }
            self.set_row_selection(target_index, sel);
        }
        proof {
            let p = pre.index_map()[id] as int;
            assert(mid.shown() == pre.shown());
            assert forall|i: int|
                0 <= i < self.shown().len() implies row_wf(#[trigger] self.shown()[i], self.ncols())
                 by {
                assert(row_wf(pre.shown()[i], pre.ncols()));
                if i != p {
                    assert(self.shown()[i] == pre.shown()[i]);
                }
            }
            assert forall|i: int|
                0 <= i < self.shown().len() implies {
                    let id2 = #[trigger] self.shown()[i].id as i64;
                    &&& self.index_map().contains_key(id2)
                    &&& self.index_map()[id2] as int == i
                } by {
                assert(self.shown()[i].id == pre.shown()[i].id);
                assert(pre.index_map().contains_key(pre.shown()[i].id as i64));
                assert(pre.index_map()[pre.shown()[i].id as i64] as int == i);
            }
            assert forall|id2: i64| self.index_map().contains_key(id2) implies {
                let q = #[trigger] self.index_map()[id2] as int;
                &&& 0 <= q < self.shown().len()
                &&& self.shown()[q].id == id2 as int
            } by {
                assert(pre.index_map().contains_key(id2));
                let q0 = pre.index_map()[id2] as int;
                assert(self.shown()[q0].id == pre.shown()[q0].id);
            }
            assert forall|k: int, l: int|
                0 <= k < l < self.actives().len() implies #[trigger] self.actives()[k]
                    != #[trigger] self.actives()[l] by {
                assert(mid.actives()[k] != mid.actives()[l]);
            }
            assert forall|k: int|
                0 <= k < self.actives().len() implies self.index_map().contains_key(
                #[trigger] self.actives()[k]) by {
                assert(mid.index_map().contains_key(mid.actives()[k]));
            }
            assert forall|i: int|
                0 <= i < self.shown().len() && sel_any(#[trigger] self.shown()[i]) implies self
                    .actives().contains(self.shown()[i].id as i64) by {
                if i != p {
                    assert(self.shown()[i] == pre.shown()[i]);
                    if sel_any(pre.shown()[i]) {
                        assert(pre.actives().contains(pre.shown()[i].id as i64));
                        assert(mid.actives().contains(pre.shown()[i].id as i64));
                    }
                } else {
                    assert(self.actives().contains(id));
                }
            }
            assert(self.wf());
        }
    }

    /// A vector with the column flags of the span `lo ..= hi` set.
    fn span_vec(n: usize, lo: usize, hi: usize) -> (v: Vec<bool>)
        ensures
            v@ =~= span_cols(n as int, lo as int, hi as int),
    {
        let mut v: Vec<bool> = Vec::new();
        let mut c: usize = 0;
        while c < n
            invariant
                0 <= c <= n,
                v@.len() == c as int,
                forall|k: int| 0 <= k < c as int ==> v@[k] == (lo as int <= k <= hi as int),
            decreases n - c,
        {
            v.push(lo <= c && c <= hi);
            c = c + 1;
        }
        v
    }

    /// Whether the snapshot row at `p` has column `c` selected.
    pub(crate) fn cell_selected(&self, p: usize, c: usize) -> (r: bool)
        requires
            (p as int) < self.shown().len(),
            (c as int) < self.shown()[p as int].sel.len(),
        ensures
            r == self.shown()[p as int].sel[c as int],
    {
        self.formatted_rows[p].selected_columns[c]
    }

    /// A copy of the selected-column flags of the snapshot row at `p`.
    fn row_sel_copy(&self, p: usize) -> (v: Vec<bool>)
        requires
            (p as int) < self.shown().len(),
        ensures
            v@ == self.shown()[p as int].sel,
    {
        let row = &self.formatted_rows[p];
        let mut v: Vec<bool> = Vec::new();
        let mut c: usize = 0;
        while c < row.selected_columns.len()
            invariant
                0 <= c <= row.selected_columns@.len(),
                v@.len() == c as int,
                forall|k: int| 0 <= k < c as int ==> v@[k] == row.selected_columns@[k],
            decreases row.selected_columns@.len() - c,
        {
            v.push(row.selected_columns[c]);
            c = c + 1;
        }
        proof {
            assert(v@ =~= self.shown()[p as int].sel);
        }
        v
    }

    /// Every selected cell lies in an active column.
    pub open spec fn cols_within_active(self) -> bool {
        forall|i: int, c: int|
            0 <= i < self.shown().len() && 0 <= c < self.ncols() && (#[trigger] self.shown()[i].sel.index(c))
                ==> self.active_cols()[c]
    }

    /// Retrieve the rows that currently have at least one selected column,
    /// in display order. In full-row mode this also marks every column
    /// active first, as rendering expects.
    pub fn get_selected_rows(&mut self) -> (rows: Vec<SelectableRow>)
        requires
            old(self).wf(),
        ensures
            final(self).wf(),
            *final(self) == (SelectableTable {
                active_columns: final(self).active_columns,
                ..*old(self)
            }),
            final(self).active_cols() == if old(self).select_full_row {
                all_cols(old(self).ncols())
            } else {
                old(self).active_cols()
            },
            views_of(rows@) == selected_rows(old(self).shown()),
    {
        let ghost g0 = *old(self);
        if self.select_full_row {
            self.active_columns = Self::all_true(self.column_count);
            proof {
                assert(self.active_cols() =~= all_cols(g0.ncols()));
                crate::lemma_wf_frame(g0, *self);
            }
        }
        let mut result: Vec<SelectableRow> = Vec::new();
        let mut i: usize = 0;
        proof {
            assert(g0.shown().subrange(0, 0) =~= Seq::<RowView>::empty());
            reveal(Seq::filter);
        }
        while i < self.formatted_rows.len()
            invariant
                g0 == *old(self),
                g0.wf(),
                self.wf(),
                *self == (SelectableTable { active_columns: self.active_columns, ..g0 }),
                0 <= i <= self.formatted_rows.len(),
                self.shown() == g0.shown(),
                views_of(result@) == selected_rows(g0.shown().subrange(0, i as int)),
            decreases self.formatted_rows.len() - i,
        {
            let ghost prefix = g0.shown().subrange(0, i as int);
            let ghost prefix2 = g0.shown().subrange(0, i as int + 1);
            let keep = Self::any_selected(&self.formatted_rows[i].selected_columns);
            proof {
                assert(self.shown()[i as int].sel == self.formatted_rows@[i as int].selected_columns@);
                assert(keep == sel_any(g0.shown()[i as int]));
            }
            if keep {
                result.push(self.formatted_rows[i].clone());
            }
            proof {
                reveal(Seq::filter);
                assert(prefix2.drop_last() =~= prefix);
                assert(prefix2.last() == g0.shown()[i as int]);
                if sel_any(g0.shown()[i as int]) {
                    assert(selected_rows(prefix2) == selected_rows(prefix).push(
                        g0.shown()[i as int],
                    ));
                    assert(views_of(result@) =~= selected_rows(prefix2));
                } else {
                    assert(selected_rows(prefix2) == selected_rows(prefix));
                }
            }
            i = i + 1;
        }
        proof {
            assert(g0.shown().subrange(0, g0.shown().len() as int) =~= g0.shown());
        }
        result
    }

    /// Enable full-row selection while building the table: selecting any
    /// cell then selects its entire row.
    pub fn select_full_row(self) -> (table: Self)
        requires
            self.wf(),
        ensures
            table.wf(),
            table == (SelectableTable { select_full_row: true, ..self }),
    {
        let mut table = self;
        table.select_full_row = true;
        proof {
            crate::lemma_wf_frame(self, table);
        }
        table
    }

    /// The walk of the drag logic that repairs gaps: starting next to
    /// `index` and moving toward smaller positions (`check_previous`) or
    /// larger ones, write the drag's target selection into each row and
    /// mark it active — forced while still on the drag-origin side of
    /// `drag_start`, and beyond it only until a row with no selection is
    /// found.
    fn check_row_selection(&mut self, check_previous: bool, index: usize, drag_start: usize)
        requires
            old(self).wf(),
            (index as int) < old(self).shown().len(),
            (drag_start as int) < old(self).shown().len(),
        ensures
            final(self).wf(),
            *final(self) == (SelectableTable {
                formatted_rows: final(self).formatted_rows,
                active_rows: final(self).active_rows,
                ..*old(self)
            }),
            final(self).shown().len() == old(self).shown().len(),
            forall|i: int|
                0 <= i < final(self).shown().len() ==> (#[trigger] final(self).shown()[i] == old(
                    self,
                ).shown()[i] || final(self).shown()[i] == (RowView {
                    sel: old(self).target_sel(),
                    ..old(self).shown()[i]
                })),
            forall|x: i64|
                old(self).actives().contains(x) ==> final(self).actives().contains(x),
            check_previous ==> forall|v: int|
                (drag_start as int) <= v && v < (index as int) ==> (#[trigger] final(self).shown()[v]).sel
                    == old(self).target_sel() && final(self).actives().contains(
                    final(self).shown()[v].id as i64,
                ),
            !check_previous ==> forall|v: int|
                (index as int) < v && v <= (drag_start as int) ==> (#[trigger] final(self).shown()[v]).sel
                    == old(self).target_sel() && final(self).actives().contains(
                    final(self).shown()[v].id as i64,
                ),
    {
        let ghost pre = *self;
        if check_previous {
            let mut i: usize = index;
            while i > 0
                invariant
                    check_previous,
                    pre == *old(self),
                    pre.wf(),
                    self.wf(),
                    (index as int) < pre.shown().len(),
                    (drag_start as int) < pre.shown().len(),
                    0 <= i <= index,
                    *self == (SelectableTable {
                        formatted_rows: self.formatted_rows,
                        active_rows: self.active_rows,
                        ..pre
                    }),
                    self.shown().len() == pre.shown().len(),
                    forall|q: int|
                        0 <= q < self.shown().len() ==> (#[trigger] self.shown()[q] == pre.shown()[q]
                            || self.shown()[q] == (RowView {
                            sel: pre.target_sel(),
                            ..pre.shown()[q]
                        })),
                    forall|q: int|
                        0 <= q < i as int || index as int <= q < self.shown().len()
                            ==> #[trigger] self.shown()[q] == pre.shown()[q],
                    forall|x: i64|
                        pre.actives().contains(x) ==> self.actives().contains(x),
                    forall|v: int|
                        i as int <= v < index as int ==> (#[trigger] self.shown()[v]).sel
                            == pre.target_sel() && self.actives().contains(
                            self.shown()[v].id as i64,
                        ),
                decreases i,
            {
                let v = i - 1;
                let row_empty = !Self::any_selected(&self.formatted_rows[v].selected_columns);
                if v < drag_start && row_empty {
                    proof {
                        assert(v < drag_start);
                        assert forall|w: int|
                            (drag_start as int) <= w && w < (index as int) implies (
                        #[trigger] self.shown()[w]).sel == pre.target_sel()
                            && self.actives().contains(self.shown()[w].id as i64) by {
                            assert(i as int <= w < index as int);
                        }
                    }
                    return ;
                }
                let ghost before = *self;
                let id = self.formatted_rows[v].id;
                proof {
                    assert(self.shown()[v as int].id == self.formatted_rows@[v as int].id as int);
                    assert(self.index_map().contains_key(id));
                }
                self.mark_active(id);
                let target = self.target_sel_copy();
                let ghost mid = *self;
                self.set_row_selection(v, target);
                proof {
                    assert(self.shown()[v as int] == (RowView {
                        sel: pre.target_sel(),
                        ..pre.shown()[v as int]
                    }));
                    lemma_wf_sel_update(mid, *self);
                    assert forall|x: i64|
                        pre.actives().contains(x) implies self.actives().contains(x) by {
                        assert(before.actives().contains(x));
                        assert(mid.actives().contains(x));
                    }
                    assert forall|w: int|
                        v as int <= w < index as int implies (#[trigger] self.shown()[w]).sel
                            == pre.target_sel() && self.actives().contains(
                        self.shown()[w].id as i64) by {
                        if w != v as int {
                            assert(self.shown()[w] == before.shown()[w]);
                            assert(before.actives().contains(before.shown()[w].id as i64));
                        } else {
                            assert(mid.actives().contains(id));
                        }
                    }
                }
                i = v;
            }
            proof {
                assert(i == 0);
            }
        } else {
            let mut i: usize = index;
            while i + 1 < self.formatted_rows.len()
                invariant
                    !check_previous,
                    pre == *old(self),
                    pre.wf(),
                    self.wf(),
                    (index as int) < pre.shown().len(),
                    (drag_start as int) < pre.shown().len(),
                    index <= i,
                    i < self.formatted_rows.len(),
                    (i as int) < self.shown().len(),
                    *self == (SelectableTable {
                        formatted_rows: self.formatted_rows,
                        active_rows: self.active_rows,
                        ..pre
                    }),
                    self.shown().len() == pre.shown().len(),
                    forall|q: int|
                        0 <= q < self.shown().len() ==> (#[trigger] self.shown()[q] == pre.shown()[q]
                            || self.shown()[q] == (RowView {
                            sel: pre.target_sel(),
                            ..pre.shown()[q]
                        })),
                    forall|q: int|
                        (0 <= q <= index as int || ((i as int) < q && q < self.shown().len()))
                            ==> #[trigger] self.shown()[q] == pre.shown()[q],
                    forall|x: i64|
                        pre.actives().contains(x) ==> self.actives().contains(x),
                    forall|v: int|
                        (index as int) < v && v <= (i as int) ==> (#[trigger] self.shown()[v]).sel
                            == pre.target_sel() && self.actives().contains(
                            self.shown()[v].id as i64,
                        ),
                decreases self.formatted_rows.len() - i,
            {
                let v = i + 1;
                let row_empty = !Self::any_selected(&self.formatted_rows[v].selected_columns);
                if v > drag_start && row_empty {
                    proof {
                        assert forall|w: int|
                            (index as int) < w && w <= (drag_start as int) implies (
                        #[trigger] self.shown()[w]).sel == pre.target_sel()
                            && self.actives().contains(self.shown()[w].id as i64) by {
                            assert((index as int) < w && w <= (i as int));
                        }
                    }
                    return ;
                }
                let ghost before = *self;
                let id = self.formatted_rows[v].id;
                proof {
                    assert(self.shown()[v as int].id == self.formatted_rows@[v as int].id as int);
                    assert(self.index_map().contains_key(id));
                }
                self.mark_active(id);
                let target = self.target_sel_copy();
                let ghost mid = *self;
                self.set_row_selection(v, target);
                proof {
                    assert(self.shown()[v as int] == (RowView {
                        sel: pre.target_sel(),
                        ..pre.shown()[v as int]
                    }));
                    lemma_wf_sel_update(mid, *self);
                    assert forall|x: i64|
                        pre.actives().contains(x) implies self.actives().contains(x) by {
                        assert(before.actives().contains(x));
                        assert(mid.actives().contains(x));
                    }
                    assert forall|w: int|
                        (index as int) < w && w <= (v as int) implies (#[trigger] self.shown()[w]).sel
                            == pre.target_sel() && self.actives().contains(
                        self.shown()[w].id as i64) by {
                        if w != v as int {
                            assert(self.shown()[w] == before.shown()[w]);
                            assert(before.actives().contains(before.shown()[w].id as i64));
                        } else {
                            assert(mid.actives().contains(id));
                        }
                    }
                }
                i = v;
            }
            proof {
                assert(i as int + 1 >= self.shown().len());
            }
        }
    }

    /// The row at position `p` is kept selected by the reconciliation pass
    /// of a drag from `drag_start` to `current_index`.
    pub open spec fn in_drag_range(current_index: int, drag_start: int, p: int) -> bool {
        if current_index < drag_start {
            current_index <= p <= drag_start
        } else {
            drag_start <= p <= current_index
        }
    }

    /// The reconciliation pass at the end of a drag step: every active row
    /// whose position lies between the drag origin and the current row —
    /// inclusive, whichever is larger — gets the drag's target selection;
    /// every other active row loses its selection and its active mark.
    /// With ctrl held nothing is taken away: selection only spreads.
    fn remove_row_selection(&mut self, current_index: usize, drag_start: usize, is_ctrl_pressed: bool)
        requires
            old(self).wf(),
            (current_index as int) < old(self).shown().len(),
            (drag_start as int) < old(self).shown().len(),
        ensures
            final(self).wf(),
            *final(self) == (SelectableTable {
                formatted_rows: final(self).formatted_rows,
                active_rows: final(self).active_rows,
                ..*old(self)
            }),
            final(self).shown().len() == old(self).shown().len(),
            forall|i: int|
                0 <= i < final(self).shown().len() ==> #[trigger] final(self).shown()[i] == (
                if old(self).actives().contains(old(self).shown()[i].id as i64) {
                    if Self::in_drag_range(current_index as int, drag_start as int, i) {
                        RowView { sel: old(self).target_sel(), ..old(self).shown()[i] }
                    } else if is_ctrl_pressed {
                        old(self).shown()[i]
                    } else {
                        RowView { sel: no_cols(old(self).ncols()), ..old(self).shown()[i] }
                    }
                } else {
                    old(self).shown()[i]
                }),
            forall|x: i64|
                final(self).actives().contains(x) <==> (old(self).actives().contains(x) && (
                is_ctrl_pressed || Self::in_drag_range(
                    current_index as int,
                    drag_start as int,
                    old(self).index_map()[x] as int,
                ))),
    {
        let ghost pre = *self;
        let mut new_active: Vec<i64> = Vec::new();
        let mut t: usize = 0;
        while t < self.active_rows.len()
            invariant
                pre == *old(self),
                pre.wf(),
                (current_index as int) < pre.shown().len(),
                (drag_start as int) < pre.shown().len(),
                *self == (SelectableTable { formatted_rows: self.formatted_rows, ..pre }),
                0 <= t <= self.active_rows.len(),
                self.shown().len() == pre.shown().len(),
                forall|k: int|
                    0 <= k < t as int ==> {
                        let p = pre.index_map()[#[trigger] pre.actives()[k]] as int;
                        self.shown()[p] == (if Self::in_drag_range(
                            current_index as int,
                            drag_start as int,
                            p,
                        ) {
                            RowView { sel: pre.target_sel(), ..pre.shown()[p] }
                        } else if is_ctrl_pressed {
                            pre.shown()[p]
                        } else {
                            RowView { sel: no_cols(pre.ncols()), ..pre.shown()[p] }
                        })
                    },
                forall|i: int|
                    0 <= i < self.shown().len() && !(exists|k: int|
                        0 <= k < t as int && pre.index_map()[#[trigger] pre.actives()[k]] as int
                            == i) ==> #[trigger] self.shown()[i] == pre.shown()[i],
                forall|j: int| #![trigger new_active@[j]]
                    0 <= j < new_active@.len() ==> exists|k: int|
                        0 <= k < t as int && #[trigger] pre.actives()[k] == new_active@[j],
                forall|k: int|
                    0 <= k < t as int && (is_ctrl_pressed || Self::in_drag_range(
                        current_index as int,
                        drag_start as int,
                        pre.index_map()[#[trigger] pre.actives()[k]] as int,
                    )) ==> new_active@.contains(pre.actives()[k]),
                forall|j: int|
                    0 <= j < new_active@.len() ==> (is_ctrl_pressed || Self::in_drag_range(
                        current_index as int,
                        drag_start as int,
                        pre.index_map()[#[trigger] new_active@[j]] as int,
                    )),
                forall|j: int, l: int|
                    0 <= j < l < new_active@.len() ==> #[trigger] new_active@[j]
                        != #[trigger] new_active@[l],
            decreases self.active_rows.len() - t,
        {
            let id = self.active_rows[t];
            proof {
                assert(pre.actives()[t as int] == id);
                assert(pre.index_map().contains_key(id));
            }
            let p = match self.indexed_ids.get(&id) {
                Some(p) => *p,
                None => {
                    proof {
                        assert(false);
                    }
                    0
                },
            };
            proof {
                assert(p == pre.index_map()[id]);
                assert((p as int) < pre.shown().len());
                assert(pre.shown()[p as int].id == id as int);
            }
            let ghost before = *self;
            let ghost t_prev = t as int;
            let ghost na_prev = new_active@;
            let keep: bool;
            if (if current_index < drag_start {
                current_index <= p && p <= drag_start
            } else {
                drag_start <= p && p <= current_index
            }) {
                let target = self.target_sel_copy();
                self.set_row_selection(p, target);
                new_active.push(id);
                keep = true;
            } else if !is_ctrl_pressed {
                let cleared = Self::all_false_vec(self.column_count);
                self.set_row_selection(p, cleared);
                keep = false;
            } else {
                new_active.push(id);
                keep = true;
            }
            t = t + 1;
            proof {
                assert forall|k: int|
                    0 <= k < t as int implies {
                        let q = pre.index_map()[#[trigger] pre.actives()[k]] as int;
                        self.shown()[q] == (if Self::in_drag_range(
                            current_index as int,
                            drag_start as int,
                            q,
                        ) {
                            RowView { sel: pre.target_sel(), ..pre.shown()[q] }
                        } else if is_ctrl_pressed {
                            pre.shown()[q]
                        } else {
                            RowView { sel: no_cols(pre.ncols()), ..pre.shown()[q] }
                        })
                    } by {
                    let q = pre.index_map()[pre.actives()[k]] as int;
                    if k < t_prev {
                        if q != p as int {
                            assert(self.shown()[q] == before.shown()[q]);
                        } else {
                            // Two distinct active identities cannot share a
                            // snapshot position.
                            assert(pre.actives()[k] != pre.actives()[t_prev]);
                            assert(pre.shown()[q].id == pre.actives()[k] as int);
                            assert(false);
                        }
                    } else {
                        assert(q == p as int);
                        if keep && !(Self::in_drag_range(
                            current_index as int,
                            drag_start as int,
                            q,
                        )) {
                            assert(self.shown()[q] == before.shown()[q]);
                            assert(before.shown()[q] == pre.shown()[q]);
                        }
                    }
                }
                assert forall|i: int|
                    0 <= i < self.shown().len() && !(exists|k: int|
                        0 <= k < t as int && pre.index_map()[#[trigger] pre.actives()[k]] as int
                            == i) implies #[trigger] self.shown()[i] == pre.shown()[i] by {
                    assert(!(pre.index_map()[pre.actives()[t_prev]] as int == i));
                    assert(i != p as int);
                    assert(self.shown()[i] == before.shown()[i]);
                }
                assert forall|j: int| #![trigger new_active@[j]]
                    0 <= j < new_active@.len() implies exists|k: int|
                        0 <= k < t as int && #[trigger] pre.actives()[k] == new_active@[j] by {
                    if j < new_active@.len() - 1 || !keep {
                        let k = choose|k: int|
                            0 <= k < t_prev && #[trigger] pre.actives()[k] == new_active@[j];
                        assert(0 <= k < t as int && pre.actives()[k] == new_active@[j]);
                    } else {
                        assert(new_active@[j] == id);
                        assert(pre.actives()[t_prev] == id);
                    }
                }
                assert forall|j: int, l: int|
                    0 <= j < l < new_active@.len() implies #[trigger] new_active@[j]
                        != #[trigger] new_active@[l] by {
                    if keep && l == new_active@.len() - 1 {
                        let k = choose|k: int|
                            0 <= k < t_prev && #[trigger] pre.actives()[k] == new_active@[j];
                        assert(pre.actives()[k] != pre.actives()[t_prev]);
                    }
                }
                assert forall|k: int|
                    0 <= k < t as int && (is_ctrl_pressed || Self::in_drag_range(
                        current_index as int,
                        drag_start as int,
                        pre.index_map()[#[trigger] pre.actives()[k]] as int,
                    )) implies new_active@.contains(pre.actives()[k]) by {
                    if k < t_prev {
                        assert(na_prev.contains(pre.actives()[k]));
                        let j = choose|j: int|
                            0 <= j < na_prev.len() && na_prev[j] == pre.actives()[k];
                        assert(new_active@[j] == pre.actives()[k]);
                    } else {
                        assert(keep);
                        assert(new_active@[na_prev.len() as int] == id);
                    }
                }
            }
        }
        self.active_rows = new_active;
        proof {
            assert forall|i: int|
                0 <= i < self.shown().len() implies #[trigger] self.shown()[i] == (
            if pre.actives().contains(pre.shown()[i].id as i64) {
                if Self::in_drag_range(current_index as int, drag_start as int, i) {
                    RowView { sel: pre.target_sel(), ..pre.shown()[i] }
                } else if is_ctrl_pressed {
                    pre.shown()[i]
                } else {
                    RowView { sel: no_cols(pre.ncols()), ..pre.shown()[i] }
                }
            } else {
                pre.shown()[i]
            }) by {
                if pre.actives().contains(pre.shown()[i].id as i64) {
                    let k = choose|k: int|
                        0 <= k < pre.actives().len() && pre.actives()[k] == pre.shown()[i].id as i64;
                    assert(pre.index_map()[pre.actives()[k]] as int == i);
                } else {
                    assert forall|k: int|
                        0 <= k < pre.actives().len() implies pre.index_map()[
                    #[trigger] pre.actives()[k]] as int != i by {
                        if pre.index_map()[pre.actives()[k]] as int == i {
                            assert(pre.shown()[i].id == pre.actives()[k] as int);
                            assert(pre.actives().contains(pre.shown()[i].id as i64));
                        }
                    }
                }
            }
            assert forall|x: i64|
                self.actives().contains(x) <==> (pre.actives().contains(x) && (is_ctrl_pressed
                    || Self::in_drag_range(
                    current_index as int,
                    drag_start as int,
                    pre.index_map()[x] as int,
                ))) by {
                if self.actives().contains(x) {
                    let j = choose|j: int|
                        0 <= j < self.actives().len() && self.actives()[j] == x;
                    let k = choose|k: int|
                        0 <= k < pre.actives().len() && #[trigger] pre.actives()[k]
                            == self.actives()[j];
                    assert(pre.actives().contains(x));
                }
                if pre.actives().contains(x) && (is_ctrl_pressed || Self::in_drag_range(
                    current_index as int,
                    drag_start as int,
                    pre.index_map()[x] as int,
                )) {
                    let k = choose|k: int|
                        0 <= k < pre.actives().len() && pre.actives()[k] == x;
                    assert(self.actives().contains(pre.actives()[k]));
                }
            }
            // Well-formedness: rows that kept a selection are exactly the
            // kept active rows; everything structural is unchanged.
            assert forall|i: int|
                0 <= i < self.shown().len() implies (#[trigger] self.shown()[i]).id
                    == pre.shown()[i].id && self.shown()[i].cells == pre.shown()[i].cells
                    && self.shown()[i].sel.len() == pre.ncols() by {
                assert(row_wf(pre.shown()[i], pre.ncols()));
            }
            assert forall|i: int|
                0 <= i < self.shown().len() && sel_any(#[trigger] self.shown()[i]) implies self
                    .actives().contains(self.shown()[i].id as i64) by {
                let x = pre.shown()[i].id as i64;
                if pre.actives().contains(x) {
                    if Self::in_drag_range(current_index as int, drag_start as int, i) {
                        assert(pre.index_map()[x] as int == i);
                    } else if is_ctrl_pressed {
                        assert(sel_any(pre.shown()[i]));
                    } else {
                        assert(sel_empty(self.shown()[i]));
                        assert(false);
                    }
                } else {
                    assert(self.shown()[i] == pre.shown()[i]);
                    assert(sel_any(pre.shown()[i]));
                    assert(false);
                }
            }
            assert forall|j: int|
                0 <= j < self.actives().len() implies self.index_map().contains_key(
                #[trigger] self.actives()[j]) by {
                let k = choose|k: int|
                    0 <= k < pre.actives().len() && #[trigger] pre.actives()[k]
                        == self.actives()[j];
                assert(pre.index_map().contains_key(pre.actives()[k]));
            }
            assert(self.store() == pre.store());
            assert(self.index_map() == pre.index_map());
            assert forall|i: int|
                0 <= i < self.store().len() implies row_wf(#[trigger] self.store()[i], self.ncols())
                    && sel_empty(self.store()[i]) && 0 <= self.store()[i].id < self.next_id() by {
                assert(row_wf(pre.store()[i], pre.ncols()));
                assert(sel_empty(pre.store()[i]));
            }
            assert forall|i: int, j: int|
                0 <= i < j < self.store().len() implies #[trigger] self.store()[i].id
                    < #[trigger] self.store()[j].id by {
                assert(pre.store()[i].id < pre.store()[j].id);
            }
            assert forall|i: int|
                0 <= i < self.shown().len() implies row_wf(
                #[trigger] self.shown()[i],
                self.ncols(),
            ) by {
                assert(row_wf(pre.shown()[i], pre.ncols()));
            }
            assert forall|i: int|
                0 <= i < self.shown().len() implies {
                    let id = #[trigger] self.shown()[i].id as i64;
                    &&& self.index_map().contains_key(id)
                    &&& self.index_map()[id] as int == i
                } by {
                assert(pre.index_map().contains_key(pre.shown()[i].id as i64));
                assert(pre.index_map()[pre.shown()[i].id as i64] as int == i);
            }
            assert forall|id: i64| self.index_map().contains_key(id) implies {
                let p = #[trigger] self.index_map()[id] as int;
                &&& 0 <= p < self.shown().len()
                &&& self.shown()[p].id == id as int
            } by {
                assert(pre.index_map().contains_key(id));
                let p = pre.index_map()[id] as int;
                assert(self.shown()[p].id == pre.shown()[p].id);
            }
            assert(self.wf());
        }
    }

    /// The state right after a plain (no-ctrl, no-context-menu) drag
    /// started: the origin cell is recorded, the selection is clear, and
    /// no cell has been processed yet.
    pub open spec fn fresh_drag(self) -> bool {
        match self.drag_started_on {
            Some((oid, ocol)) => {
                &&& self.index_map().contains_key(oid)
                &&& forall|i: int|
                    0 <= i < self.shown().len() ==> sel_empty(#[trigger] self.shown()[i])
                &&& self.active_cols() == no_cols(self.ncols())
                &&& self.actives() =~= Seq::<i64>::empty()
                &&& self.last_active_row is None
            },
            None => false,
        }
    }

    /// The canonical mid-drag state: the drag from the origin cell to the
    /// cell `(cid, ccol)` has selected exactly the rectangle between them.
    /// Every display row whose position lies between the two cells'
    /// positions carries exactly the column span between the two columns,
    /// every other row carries nothing, and the active row and column sets
    /// match. The stored last-touched column may lag behind `ccol` after a
    /// vertical move back, but then it lies outside the span.
    pub open spec fn rect_state(self, cid: i64, ccol: usize) -> bool {
        match self.drag_started_on {
            Some((oid, ocol)) => {
                let opos = self.index_map()[oid] as int;
                let cpos = self.index_map()[cid] as int;
                let clo: int = if ocol <= ccol {
                    ocol as int
                } else {
                    ccol as int
                };
                let chi: int = if ocol <= ccol {
                    ccol as int
                } else {
                    ocol as int
                };
                &&& self.index_map().contains_key(oid)
                &&& self.index_map().contains_key(cid)
                &&& (ccol as int) < self.ncols()
                &&& self.beyond_drag_point
                &&& self.last_active_row == Some(cid)
                &&& match self.last_active_column {
                    Some(l) => l == ccol || !(clo <= l as int && l as int <= chi),
                    None => false,
                }
                &&& self.active_cols() == span_cols(self.ncols(), clo, chi)
                &&& forall|i: int|
                    0 <= i < self.shown().len() ==> (#[trigger] self.shown()[i]).sel == (
                    if Self::in_drag_range(cpos, opos, i) {
                        span_cols(self.ncols(), clo, chi)
                    } else {
                        no_cols(self.ncols())
                    })
                &&& forall|x: i64|
                    self.actives().contains(x) <==> (self.index_map().contains_key(x)
                        && Self::in_drag_range(cpos, opos, self.index_map()[x] as int))
            },
            None => false,
        }
    }

    /// After the reconciliation pass of a plain (no-ctrl) drag, the table
    /// is in the canonical rectangle state — provided every row of the
    /// range between origin and current cell was marked active before the
    /// pass, and the active columns held exactly the column span.
    proof fn lemma_rect_after_remove(
        g3: Self,
        g4: Self,
        oid: i64,
        ocol: usize,
        cid: i64,
        ccol: usize,
        cur: usize,
        start: usize,
    )
        requires
            g3.wf(),
            !g3.select_full_row,
            g3.drag_started_on == Some((oid, ocol)),
            g3.index_map().contains_key(oid),
            g3.index_map().contains_key(cid),
            (ccol as int) < g3.ncols(),
            g3.beyond_drag_point,
            g3.last_active_row == Some(cid),
            match g3.last_active_column {
                Some(l) => l == ccol || !((if ocol <= ccol {
                    ocol as int
                } else {
                    ccol as int
                }) <= l as int && l as int <= (if ocol <= ccol {
                    ccol as int
                } else {
                    ocol as int
                })),
                None => false,
            },
            g3.active_cols() == span_cols(
                g3.ncols(),
                if ocol <= ccol {
                    ocol as int
                } else {
                    ccol as int
                },
                if ocol <= ccol {
                    ccol as int
                } else {
                    ocol as int
                },
            ),
            cur == g3.index_map()[cid],
            start == g3.index_map()[oid],
            forall|p: int|
                0 <= p < g3.shown().len() && Self::in_drag_range(cur as int, start as int, p)
                    ==> g3.actives().contains((#[trigger] g3.shown()[p]).id as i64),
            g4 == (SelectableTable {
                formatted_rows: g4.formatted_rows,
                active_rows: g4.active_rows,
                ..g3
            }),
            g4.shown().len() == g3.shown().len(),
            forall|i: int|
                0 <= i < g4.shown().len() ==> #[trigger] g4.shown()[i] == (
                if g3.actives().contains(g3.shown()[i].id as i64) {
                    if Self::in_drag_range(cur as int, start as int, i) {
                        RowView { sel: g3.target_sel(), ..g3.shown()[i] }
                    } else {
                        RowView { sel: no_cols(g3.ncols()), ..g3.shown()[i] }
                    }
                } else {
                    g3.shown()[i]
                }),
            forall|x: i64|
                g4.actives().contains(x) <==> (g3.actives().contains(x) && Self::in_drag_range(
                    cur as int,
                    start as int,
                    g3.index_map()[x] as int,
                )),
        ensures
            g4.rect_state(cid, ccol),
    {
        let clo: int = if ocol <= ccol {
            ocol as int
        } else {
            ccol as int
        };
        let chi: int = if ocol <= ccol {
            ccol as int
        } else {
            ocol as int
        };
        let opos = g4.index_map()[oid] as int;
        let cpos = g4.index_map()[cid] as int;
        assert(g4.index_map() == g3.index_map());
        assert(opos == start as int && cpos == cur as int);
        assert forall|i: int|
            0 <= i < g4.shown().len() implies (#[trigger] g4.shown()[i]).sel == (
        if Self::in_drag_range(cpos, opos, i) {
            span_cols(g4.ncols(), clo, chi)
        } else {
            no_cols(g4.ncols())
        }) by {
            if g3.actives().contains(g3.shown()[i].id as i64) {
                assert(g3.target_sel() == g3.active_cols());
            } else {
                if Self::in_drag_range(cpos, opos, i) {
                    assert(g3.actives().contains(g3.shown()[i].id as i64));
                    assert(false);
                } else {
                    // An inactive row carries no selection, which is the
                    // all-clear flag vector.
                    if sel_any(g3.shown()[i]) {
                        assert(g3.actives().contains(g3.shown()[i].id as i64));
                        assert(false);
                    }
                    assert(row_wf(g3.shown()[i], g3.ncols()));
                    assert(g4.shown()[i].sel =~= no_cols(g4.ncols()));
                }
            }
        }
        assert forall|x: i64|
            g4.actives().contains(x) <==> (g4.index_map().contains_key(x) && Self::in_drag_range(
                cpos,
                opos,
                g4.index_map()[x] as int,
            )) by {
            if g4.actives().contains(x) {
                assert(g3.actives().contains(x));
                let k = choose|k: int|
                    0 <= k < g3.actives().len() && g3.actives()[k] == x;
                assert(g3.index_map().contains_key(g3.actives()[k]));
            }
            if g4.index_map().contains_key(x) && Self::in_drag_range(
                cpos,
                opos,
                g4.index_map()[x] as int,
            ) {
                let p = g3.index_map()[x] as int;
                assert(g3.shown()[p].id == x as int);
                assert(g3.actives().contains(g3.shown()[p].id as i64));
            }
        }
        assert(g4.rect_state(cid, ccol));
    }

    /// One drag-move step of the selection state machine: the pointer is on
    /// cell `(id, column)` during an ongoing drag. A repeated frame on the
    /// cell processed last is ignored. Without ctrl, a step taken from a
    /// fresh drag or from the canonical rectangle state ends in the
    /// rectangle state spanned by the drag origin and `(id, column)`; with
    /// ctrl — entering a cell not already selected — selection only
    /// spreads, never shrinks.
    #[verifier::rlimit(100)]
    pub fn select_dragged_row_cell(&mut self, id: i64, column: usize, is_ctrl_pressed: bool)
        requires
            old(self).wf(),
            old(self).index_map().contains_key(id),
            (column as int) < old(self).ncols(),
            match old(self).drag_started_on {
                Some((oid, ocol)) => old(self).index_map().contains_key(oid),
                None => false,
            },
            match old(self).last_active_row {
                Some(lid) => old(self).index_map().contains_key(lid),
                None => true,
            },
        ensures
            final(self).wf(),
            *final(self) == (SelectableTable {
                formatted_rows: final(self).formatted_rows,
                active_columns: final(self).active_columns,
                active_rows: final(self).active_rows,
                last_active_row: final(self).last_active_row,
                last_active_column: final(self).last_active_column,
                beyond_drag_point: final(self).beyond_drag_point,
                ..*old(self)
            }),
            final(self).shown().len() == old(self).shown().len(),
            forall|i: int|
                0 <= i < final(self).shown().len() ==> (#[trigger] final(self).shown()[i]).id
                    == old(self).shown()[i].id && final(self).shown()[i].cells == old(
                    self,
                ).shown()[i].cells,
            old(self).last_active_row == Some(id) && old(self).last_active_column == Some(column)
                ==> *final(self) == *old(self),
            (!is_ctrl_pressed && !old(self).select_full_row && old(self).fresh_drag())
                ==> final(self).rect_state(id, column),
            forall|lid: i64, lcol: usize|
                !is_ctrl_pressed && !old(self).select_full_row && #[trigger] old(self).rect_state(
                    lid,
                    lcol,
                ) && !(old(self).last_active_row == Some(id) && old(self).last_active_column
                    == Some(column)) ==> final(self).rect_state(id, column),
            (is_ctrl_pressed && !old(self).select_full_row && old(self).cols_within_active() && !(
            old(self).last_active_row == Some(id) && old(self).last_active_column == Some(column))
                && (old(self).last_active_row is None || old(self).last_active_column is None
                || !old(self).shown()[old(self).index_map()[id] as int].sel[column as int])) ==> {
                &&& forall|i: int, c: int|
                    0 <= i < old(self).shown().len() && 0 <= c < old(self).ncols() && (
                    #[trigger] old(self).shown()[i].sel.index(c)) ==> final(self).shown()[i].sel[c]
                &&& forall|x: i64|
                    old(self).actives().contains(x) ==> final(self).actives().contains(x)
                &&& final(self).cols_within_active()
            },
    {
        let ghost g0 = *old(self);
        // A repeated frame on the cell processed last has nothing new.
        let same_cell = match (self.last_active_row, self.last_active_column) {
            (Some(r), Some(c)) => r == id && c == column,
            _ => false,
        };
        if same_cell {
            return ;
        }
        let (origin_id, origin_col) = match self.drag_started_on {
            Some(pair) => pair,
            None => {
                proof {
                    assert(false);
                }
                (0, 0)
            },
        };
        let (has_last, last_row_id, last_col) = match (self.last_active_row, self.last_active_column) {
            (Some(r), Some(c)) => (true, r, c),
            _ => (false, 0, 0),
        };
        self.beyond_drag_point = true;
        // The active columns become the span between the origin column and
        // the current column — the wrapping column adjacency always walks
        // toward the target, so the span is the contiguous range between
        // the two. Under ctrl, columns are only ever added.
        if is_ctrl_pressed {
            let mut cols = self.active_columns_copy();
            cols[column] = true;
            self.active_columns = cols;
        } else {
            let lo = if origin_col < column {
                origin_col
            } else {
                column
            };
            let hi = if origin_col < column {
                column
            } else {
                origin_col
            };
            self.active_columns = Self::span_vec(self.column_count, lo, hi);
        }
        proof {
            crate::lemma_wf_frame(g0, *self);
        }
        let ghost g1 = *self;
        let current_row_index = self.position_of(id);
        let row_contains_column = self.cell_selected(current_row_index, column);
        let mut no_checking = false;
        if row_contains_column && has_last {
            if last_col != column && last_row_id == id {
                // Moving back inside the same row: the previous corner
                // column leaves the current row and the active set.
                proof {
                    assert(row_wf(g1.shown()[current_row_index as int], g1.ncols()));
                    assert((g0.last_active_column == Some(last_col)) ==> (last_col as int)
                        < g1.ncols());
                }
                let mut sel = self.row_sel_copy(current_row_index);
                sel[last_col] = false;
                self.set_row_selection(current_row_index, sel);
                let mut cols = self.active_columns_copy();
                cols[last_col] = false;
                self.active_columns = cols;
                proof {
                    let g = *self;
                    assert forall|i: int|
                        0 <= i < g.shown().len() && sel_any(#[trigger] g.shown()[i]) implies g
                            .actives().contains(g.shown()[i].id as i64) by {
                        if i == current_row_index as int {
                            let c = choose|c: int| 0 <= c < g.shown()[i].sel.len() && g.shown()[i].sel[c];
                            assert(g1.shown()[i].sel[c]);
                            assert(sel_any(g1.shown()[i]));
                        } else {
                            assert(g.shown()[i] == g1.shown()[i]);
                            if sel_any(g1.shown()[i]) {
                                assert(g1.actives().contains(g1.shown()[i].id as i64));
                            }
                        }
                    }
                    lemma_wf_sel_update(g1, *self);
                }
            }
            let last_row_index = self.position_of(last_row_id);
            self.last_active_row = Some(id);
            if id == last_row_id {
                if last_col != column {
                    self.last_active_column = Some(column);
                }
                proof {
                    lemma_wf_sel_update(
                        (SelectableTable {
                            last_active_row: self.last_active_row,
                            last_active_column: self.last_active_column,
                            ..*self
                        }),
                        *self,
                    );
                }
            } else {
                no_checking = true;
                // The pointer crossed to another row: that previous row's
                // selection is dropped wholesale.
                let ghost gm = *self;
                let cleared = Self::all_false_vec(self.column_count);
                self.set_row_selection(last_row_index, cleared);
                proof {
                    let g = *self;
                    assert forall|i: int|
                        0 <= i < g.shown().len() && sel_any(#[trigger] g.shown()[i]) implies g
                            .actives().contains(g.shown()[i].id as i64) by {
                        if i != last_row_index as int {
                            assert(g.shown()[i] == gm.shown()[i]);
                            if sel_any(gm.shown()[i]) {
                                assert(gm.actives().contains(gm.shown()[i].id as i64));
                            }
                        } else {
                            assert(sel_empty(g.shown()[i]));
                            assert(false);
                        }
                    }
                    lemma_wf_sel_update(gm, *self);
                }
            }
        } else {
            self.mark_active(id);
            self.last_active_row = Some(id);
            self.last_active_column = Some(column);
            let ghost gm = *self;
            let sel = self.active_columns_copy();
            self.set_row_selection(current_row_index, sel);
            proof {
                let g = *self;
                assert forall|i: int|
                    0 <= i < g.shown().len() && sel_any(#[trigger] g.shown()[i]) implies g
                        .actives().contains(g.shown()[i].id as i64) by {
                    if i != current_row_index as int {
                        assert(g.shown()[i] == gm.shown()[i]);
                        if sel_any(gm.shown()[i]) {
                            assert(gm.actives().contains(gm.shown()[i].id as i64));
                        }
                    } else {
                        assert(g.actives().contains(id));
                    }
                }
                lemma_wf_sel_update(gm, *self);
            }
        }
        let ghost g2 = *self;
        let drag_start_index = self.position_of(origin_id);
        let ghost ga = *self;
        if !no_checking {
            self.check_row_selection(true, current_row_index, drag_start_index);
            proof {
                ga = *self;
            }
            self.check_row_selection(false, current_row_index, drag_start_index);
        }
        let ghost g3 = *self;
        proof {
            // Every row between the origin and the current position is
            // active by now: the walks force the stretch toward the origin,
            // and the current row was either marked here or was already
            // active when the step began.
            assert forall|p: int|
                0 <= p < g3.shown().len() && Self::in_drag_range(
                    current_row_index as int,
                    drag_start_index as int,
                    p,
                ) && !no_checking implies g3.actives().contains(
                (#[trigger] g3.shown()[p]).id as i64) by {
                if !no_checking {
                    if p != current_row_index as int {
                        assert(g3.shown()[p].id == g2.shown()[p].id);
                        assert(ga.shown()[p].id == g2.shown()[p].id);
                        if p < current_row_index as int {
                            assert((drag_start_index as int) <= p);
                            assert(ga.actives().contains(ga.shown()[p].id as i64));
                            assert(g3.actives().contains(ga.shown()[p].id as i64));
                        } else {
                            assert(p <= drag_start_index as int);
                            assert(g3.actives().contains(g3.shown()[p].id as i64));
                        }
                    } else {
                        if row_contains_column && has_last {
                            assert(g2.actives().contains(g2.shown()[p].id as i64));
                            assert(g3.actives().contains(g2.shown()[p].id as i64));
                        } else {
                            assert(g2.actives().contains(id));
                            assert(g3.actives().contains(id));
                            assert(g3.shown()[p].id == g2.shown()[p].id);
                            assert(g2.shown()[p].id == id as int);
                        }
                    }
                }
            }
        }
        self.remove_row_selection(current_row_index, drag_start_index, is_ctrl_pressed);
        proof {
            let g4 = *self;
            // The frame across all phases.
            assert(*self == (SelectableTable {
                formatted_rows: self.formatted_rows,
                active_columns: self.active_columns,
                active_rows: self.active_rows,
                last_active_row: self.last_active_row,
                last_active_column: self.last_active_column,
                beyond_drag_point: self.beyond_drag_point,
                ..g0
            }));
            assert forall|i: int|
                0 <= i < g4.shown().len() implies (#[trigger] g4.shown()[i]).id
                    == g0.shown()[i].id && g4.shown()[i].cells == g0.shown()[i].cells by {
                assert(g3.shown()[i].id == g2.shown()[i].id && g3.shown()[i].cells
                    == g2.shown()[i].cells);
            }
            // The rectangle outcomes.
            if !is_ctrl_pressed && !g0.select_full_row && g0.fresh_drag() {
                assert(!has_last);
                assert(g2.active_cols() == g1.active_cols());
                assert(g1.active_cols() =~= span_cols(
                    g0.ncols(),
                    if origin_col <= column {
                        origin_col as int
                    } else {
                        column as int
                    },
                    if origin_col <= column {
                        column as int
                    } else {
                        origin_col as int
                    },
                ));
                assert(g3.active_cols() == g2.active_cols());
                Self::lemma_rect_after_remove(
                    g3,
                    g4,
                    origin_id,
                    origin_col,
                    id,
                    column,
                    current_row_index,
                    drag_start_index,
                );
            }
            assert forall|lid: i64, lcol: usize|
                !is_ctrl_pressed && !g0.select_full_row && #[trigger] g0.rect_state(lid, lcol) && !(
                g0.last_active_row == Some(id) && g0.last_active_column == Some(column)) implies g4
                .rect_state(id, column) by {
                let clo0: int = if origin_col <= lcol {
                    origin_col as int
                } else {
                    lcol as int
                };
                let chi0: int = if origin_col <= lcol {
                    lcol as int
                } else {
                    origin_col as int
                };
                let clo1: int = if origin_col <= column {
                    origin_col as int
                } else {
                    column as int
                };
                let chi1: int = if origin_col <= column {
                    column as int
                } else {
                    origin_col as int
                };
                let lpos = g0.index_map()[lid] as int;
                let opos = g0.index_map()[origin_id] as int;
                let cpos = g0.index_map()[id] as int;
                assert(has_last && last_row_id == lid);
                assert(g0.last_active_column matches Some(l) && l == last_col);
                assert(g1.active_cols() =~= span_cols(g0.ncols(), clo1, chi1));
                assert(row_contains_column == (Self::in_drag_range(lpos, opos, cpos)
                    && span_cols(g0.ncols(), clo0, chi0)[column as int]));
                if row_contains_column {
                    // The current cell was already selected, so its column
                    // lies in the previous span and its row in the previous
                    // range; the stored corner column, leaving, cannot dent
                    // the new span.
                    assert(clo0 <= column as int <= chi0);
                    if last_col != column && last_row_id == id {
                        assert(last_col as int == lcol as int || !(clo0 <= last_col as int
                            && last_col as int <= chi0));
                        assert(!(clo1 <= last_col as int && last_col as int <= chi1));
                        assert(g2.active_cols() =~= span_cols(g0.ncols(), clo1, chi1));
                    } else {
                        assert(g2.active_cols() == g1.active_cols());
                    }
                    if id == last_row_id {
                        assert(!no_checking);
                        assert(g2.last_active_column == Some(column));
                    } else {
                        assert(no_checking);
                        assert(g2.last_active_column == Some(last_col));
                        assert(last_col == column || !(clo1 <= last_col as int && last_col as int
                            <= chi1));
                        // Coverage without the walks: the new range sits
                        // inside the previous rectangle, all of it active.
                        assert forall|p: int|
                            0 <= p < g3.shown().len() && Self::in_drag_range(
                                current_row_index as int,
                                drag_start_index as int,
                                p,
                            ) implies g3.actives().contains(
                        (#[trigger] g3.shown()[p]).id as i64) by {
                            assert(Self::in_drag_range(lpos, opos, p));
                            assert(g0.index_map().contains_key(g0.shown()[p].id as i64));
                            assert(g0.actives().contains(g0.shown()[p].id as i64));
                            assert(g3.shown()[p].id == g0.shown()[p].id);
                        }
                    }
                } else {
                    assert(g2.active_cols() == g1.active_cols());
                    assert(g2.last_active_column == Some(column));
                    assert(!no_checking);
                }
                assert(g3.active_cols() == g2.active_cols());
                assert(g3.active_cols() == span_cols(g0.ncols(), clo1, chi1));
                assert(g3.last_active_row == Some(id));
                Self::lemma_rect_after_remove(
                    g3,
                    g4,
                    origin_id,
                    origin_col,
                    id,
                    column,
                    current_row_index,
                    drag_start_index,
                );
            }
            // The ctrl outcome: selection only spreads.
            if is_ctrl_pressed && !g0.select_full_row && g0.cols_within_active() && !(
            g0.last_active_row == Some(id) && g0.last_active_column == Some(column)) && (
            g0.last_active_row is None || g0.last_active_column is None
                || !g0.shown()[g0.index_map()[id] as int].sel[column as int]) {
                assert(current_row_index == g0.index_map()[id]);
                assert(g1.shown() == g0.shown());
                assert(row_contains_column == g0.shown()[current_row_index as int].sel[column as int]);
                assert(!(row_contains_column && has_last));
                assert(!no_checking);
                let active1 = g1.active_cols();
                assert(active1 == g0.active_cols().update(column as int, true));
                assert(g2.active_cols() == active1 && g3.active_cols() == active1
                    && g4.active_cols() == active1);
                assert(g3.target_sel() == active1);
                assert forall|i: int, c: int|
                    0 <= i < g3.shown().len() && 0 <= c < g0.ncols() && (
                #[trigger] g3.shown()[i].sel.index(c)) implies active1[c] by {
                    if g3.shown()[i] == g2.shown()[i] {
                        if i == current_row_index as int {
                            assert(g2.shown()[i].sel == active1);
                        } else {
                            assert(g2.shown()[i] == g0.shown()[i]);
                            assert(g0.active_cols()[c]);
                        }
                    } else {
                        assert(g3.shown()[i].sel == g2.target_sel());
                    }
                }
                assert forall|i: int, c: int|
                    0 <= i < g0.shown().len() && 0 <= c < g0.ncols() && (
                #[trigger] g0.shown()[i].sel.index(c)) implies g4.shown()[i].sel[c] by {
                    assert(g0.active_cols()[c]);
                    assert(active1[c]);
                    // Through the branch: the current row got the whole
                    // active set, everything else was untouched.
                    if i == current_row_index as int {
                        assert(g2.shown()[i].sel == active1);
                    } else {
                        assert(g2.shown()[i] == g0.shown()[i]);
                    }
                    assert(g2.shown()[i].sel[c]);
                    // Through the walks: rows either kept their flags or
                    // took the full active set.
                    if g3.shown()[i] == g2.shown()[i] {
                        assert(g3.shown()[i].sel[c]);
                    } else {
                        assert(g3.shown()[i].sel == g2.target_sel());
                        assert(g3.shown()[i].sel[c]);
                    }
                    // Through the reconciliation: under ctrl nothing is
                    // taken away.
                    if g3.actives().contains(g3.shown()[i].id as i64) {
                        if Self::in_drag_range(
                            current_row_index as int,
                            drag_start_index as int,
                            i,
                        ) {
                            assert(g4.shown()[i].sel == g3.target_sel());
                        } else {
                            assert(g4.shown()[i] == g3.shown()[i]);
                        }
                    } else {
                        assert(g4.shown()[i] == g3.shown()[i]);
                    }
                }
                assert forall|x: i64|
                    g0.actives().contains(x) implies g4.actives().contains(x) by {
                    assert(g2.actives().contains(x));
                    assert(g3.actives().contains(x));
                }
                assert forall|i: int, c: int|
                    0 <= i < g4.shown().len() && 0 <= c < g4.ncols() && (
                #[trigger] g4.shown()[i].sel.index(c)) implies g4.active_cols()[c] by {
                    if g3.actives().contains(g3.shown()[i].id as i64) && Self::in_drag_range(
                        current_row_index as int,
                        drag_start_index as int,
                        i,
                    ) {
                        assert(g4.shown()[i].sel == g3.target_sel());
                    } else {
                        assert(g4.shown()[i] == g3.shown()[i]);
                        assert(g3.shown()[i].sel.index(c));
                    }
                }
            }
        }
    }

    /// Whether any flag in `sel` is set.
    pub(crate) fn any_selected(sel: &Vec<bool>) -> (r: bool)
        ensures
            r == exists|c: int| 0 <= c < sel@.len() && sel@[c],
    {
        let mut c: usize = 0;
        while c < sel.len()
            invariant
                0 <= c <= sel@.len(),
                forall|k: int| 0 <= k < c as int ==> !sel@[k],
            decreases sel@.len() - c,
        {
            if sel[c] {
                proof {
                    assert(sel@[c as int]);
                }
                return true;
            }
            c = c + 1;
        }
        false
    }

    /// Set whether selecting any cell selects its entire row.
    pub fn set_select_full_row(&mut self, status: bool)
        requires
            old(self).wf(),
        ensures
            final(self).wf(),
            *final(self) == (SelectableTable { select_full_row: status, ..*old(self) }),
    {
        self.select_full_row = status;
        proof {
            crate::lemma_wf_frame(*old(self), *self);
        }
    }
}

} // verus!
