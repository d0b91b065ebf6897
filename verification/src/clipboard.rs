//! The clipboard formatter: renders the current selection as aligned plain
//! text, one newline-terminated line per selected row, each selected cell
//! left-justified in a field one character wider than the column's widest
//! selected text, and an equally wide blank field where a column is active
//! table-wide but not selected in this particular row.

use vstd::prelude::*;
use vstd::string::StrSliceExecFns;
use vstd::string::StringExecFns;

use crate::row_selection::{all_cols, selected_rows};
use crate::{row_wf, sel_any, views_of, RowView, SelectableTable};

verus! {

/// `n` space characters.
pub open spec fn spaces(n: nat) -> Seq<char> {
    Seq::new(n, |i: int| ' ')
}

/// The widest text, counted in characters, that column `c` shows among the
/// cells selected anywhere in the snapshot.
pub open spec fn max_text_len(shown: Seq<RowView>, c: int) -> int
    decreases shown.len(),
{
    if shown.len() == 0 {
        0
    } else {
        let rest = max_text_len(shown.drop_last(), c);
        let r = shown.last();
        if 0 <= c < r.sel.len() && r.sel[c] && r.cells[c].text.len() > rest {
            r.cells[c].text.len() as int
        } else {
            rest
        }
    }
}

/// One cell's contribution to a copied line: the text padded to one more
/// than the column's widest selected text; an equally wide blank field when
/// the column is active but not selected in this row; nothing when the
/// column is inactive.
pub open spec fn field_text(r: RowView, active: Seq<bool>, shown: Seq<RowView>, c: int) -> Seq<
    char,
> {
    if active[c] && r.sel[c] {
        r.cells[c].text + spaces((max_text_len(shown, c) + 1 - r.cells[c].text.len()) as nat)
    } else if active[c] {
        spaces((max_text_len(shown, c) + 1) as nat)
    } else {
        Seq::empty()
    }
}

/// A copied line from column `c` on.
pub open spec fn line_from(r: RowView, active: Seq<bool>, shown: Seq<RowView>, c: int) -> Seq<char>
    decreases active.len() - c,
{
    if c < 0 || c >= active.len() {
        Seq::empty()
    } else {
        field_text(r, active, shown, c) + line_from(r, active, shown, c + 1)
    }
}

/// The copied text for the given rows: one newline-terminated line each.
pub open spec fn lines_text(rows: Seq<RowView>, active: Seq<bool>, shown: Seq<RowView>) -> Seq<
    char,
>
    decreases rows.len(),
{
    if rows.len() == 0 {
        Seq::empty()
    } else {
        line_from(rows[0], active, shown, 0) + seq!['\n'] + lines_text(
            rows.drop_first(),
            active,
            shown,
        )
    }
}

/// What copying hands the host: the selected rows, in display order,
/// rendered as aligned plain text over the active columns.
pub open spec fn copy_text(t: SelectableTable) -> Seq<char> {
    let active = if t.select_full_row {
        all_cols(t.ncols())
    } else {
        t.active_cols()
    };
    lines_text(selected_rows(t.shown()), active, t.shown())
}

/// A padded field is exactly one character wider than the column's widest
/// selected text: the short value's field and the long value's field line
/// up, whatever their own lengths.
pub proof fn lemma_field_width(r: RowView, active: Seq<bool>, shown: Seq<RowView>, c: int)
    requires
        0 <= c < active.len(),
        active[c],
        r.sel.len() == active.len(),
        r.sel[c] ==> r.cells[c].text.len() <= max_text_len(shown, c),
    ensures
        field_text(r, active, shown, c).len() == max_text_len(shown, c) + 1,
{
    lemma_max_text_len_nonneg(shown, c);
}

/// Appending one more row appends one more line.
proof fn lemma_lines_push(rows: Seq<RowView>, r: RowView, active: Seq<bool>, shown: Seq<RowView>)
    ensures
        lines_text(rows.push(r), active, shown) == lines_text(rows, active, shown) + line_from(
            r,
            active,
            shown,
            0,
        ) + seq!['\n'],
    decreases rows.len(),
{
    if rows.len() == 0 {
        assert(rows.push(r)[0] == r);
        assert(rows.push(r).drop_first() =~= Seq::<RowView>::empty());
        assert(lines_text(Seq::<RowView>::empty(), active, shown) == Seq::<char>::empty());
        assert(lines_text(rows, active, shown) == Seq::<char>::empty());
        assert(lines_text(rows.push(r), active, shown) =~= lines_text(rows, active, shown)
            + line_from(r, active, shown, 0) + seq!['\n']);
    } else {
        assert(rows.push(r).drop_first() =~= rows.drop_first().push(r));
        lemma_lines_push(rows.drop_first(), r, active, shown);
        assert(rows.push(r)[0] == rows[0]);
        assert(lines_text(rows.push(r), active, shown) =~= lines_text(rows, active, shown)
            + line_from(r, active, shown, 0) + seq!['\n']);
    }
}

/// In a selected row, every selected cell's text is no wider than the
/// column's maximum.
proof fn lemma_max_text_len_bound(shown: Seq<RowView>, i: int, c: int)
    requires
        0 <= i < shown.len(),
        0 <= c < shown[i].sel.len(),
        shown[i].sel[c],
    ensures
        shown[i].cells[c].text.len() <= max_text_len(shown, c),
        0 <= max_text_len(shown, c),
    decreases shown.len(),
{
    lemma_max_text_len_nonneg(shown, c);
    if i == shown.len() - 1 {
        assert(shown.last() == shown[i]);
        lemma_max_text_len_nonneg(shown.drop_last(), c);
    } else {
        lemma_max_text_len_bound(shown.drop_last(), i, c);
        assert(shown.drop_last()[i] == shown[i]);
    }
}

/// The maximum width never goes negative.
proof fn lemma_max_text_len_nonneg(shown: Seq<RowView>, c: int)
    ensures
        0 <= max_text_len(shown, c),
    decreases shown.len(),
{
    if shown.len() > 0 {
        lemma_max_text_len_nonneg(shown.drop_last(), c);
    }
}

/// The column maximum only depends on the rows seen so far, monotonically.
proof fn lemma_max_text_len_step(shown: Seq<RowView>, i: int, c: int)
    requires
        0 <= i < shown.len(),
    ensures
        max_text_len(shown.subrange(0, i + 1), c) == ({
            let rest = max_text_len(shown.subrange(0, i), c);
            let r = shown[i];
            if 0 <= c < r.sel.len() && r.sel[c] && r.cells[c].text.len() > rest {
                r.cells[c].text.len() as int
            } else {
                rest
            }
        }),
{
    let p2 = shown.subrange(0, i + 1);
    assert(p2.drop_last() =~= shown.subrange(0, i));
    assert(p2.last() == shown[i]);
}

/// Append `n` spaces to `text`.
fn push_spaces(text: &mut String, n: usize)
    ensures
        final(text)@ == old(text)@ + spaces(n as nat),
{
    let ghost base = text@;
    let mut k: usize = 0;
    while k < n
        invariant
            0 <= k <= n,
            text@ == base + spaces(k as nat),
        decreases n - k,
    {
        text.append(" ");
        proof {
            reveal_strlit(" ");
            assert(" "@ =~= seq![' ']);
            assert(text@ =~= base + spaces((k + 1) as nat));
        }
        k = k + 1;
    }
    proof {
        assert(text@ =~= base + spaces(n as nat));
    }
}

impl SelectableTable {
    /// The number of characters in the text of the snapshot cell `(p, c)`.
    fn cell_text_len(&self, p: usize, c: usize) -> (l: usize)
        requires
            (p as int) < self.shown().len(),
            (c as int) < self.shown()[p as int].cells.len(),
        ensures
            l as int == self.shown()[p as int].cells[c as int].text.len(),
    {
        proof {
            assert(self.shown()[p as int].cells[c as int]
                == self.formatted_rows@[p as int].row_data@[c as int]@);
        }
        self.formatted_rows[p].row_data[c].text.as_str().unicode_len()
    }

    /// Render one selected row as a copied line: per active column, the
    /// cell's padded text or an equally wide blank field.
    fn render_row(&self, i: usize, widths: &Vec<usize>) -> (line: String)
        requires
            self.wf(),
            (i as int) < self.shown().len(),
            widths@.len() == self.ncols(),
            forall|c: int|
                0 <= c < self.ncols() ==> (#[trigger] widths@[c]) as int == max_text_len(
                    self.shown(),
                    c,
                ),
            forall|c: int|
                0 <= c < self.ncols() ==> max_text_len(self.shown(), c) < usize::MAX,
        ensures
            line@ == line_from(self.shown()[i as int], self.active_cols(), self.shown(), 0),
    {
        let ghost r = self.shown()[i as int];
        let ghost active = self.active_cols();
        let ghost shown = self.shown();
        let mut line = String::new();
        let mut c: usize = 0;
        proof {
            assert(line@ + line_from(r, active, shown, 0) =~= line_from(r, active, shown, 0));
        }
        while c < self.column_count
            invariant
                self.wf(),
                (i as int) < self.shown().len(),
                r == self.shown()[i as int],
                active == self.active_cols(),
                shown == self.shown(),
                widths@.len() == self.ncols(),
                forall|d: int|
                    0 <= d < self.ncols() ==> (#[trigger] widths@[d]) as int == max_text_len(
                        shown,
                        d,
                    ),
                forall|d: int| 0 <= d < self.ncols() ==> max_text_len(shown, d) < usize::MAX,
                0 <= c <= self.column_count,
                line@ + line_from(r, active, shown, c as int) == line_from(r, active, shown, 0),
            decreases self.column_count - c,
        {
            let ghost before = line@;
            let is_active = self.active_columns[c];
            proof {
                assert(row_wf(r, self.ncols()));
            }
            let is_selected = self.cell_selected(i, c);
            if is_active && is_selected {
                proof {
                    lemma_max_text_len_bound(shown, i as int, c as int);
                    assert(self.shown()[i as int].cells[c as int]
                        == self.formatted_rows@[i as int].row_data@[c as int]@);
                }
                let len = self.cell_text_len(i, c);
                line.append(self.formatted_rows[i].row_data[c].text.as_str());
                let pad = widths[c] - len + 1;
                push_spaces(&mut line, pad);
                proof {
                    assert(line@ =~= before + field_text(r, active, shown, c as int));
                }
            } else if is_active {
                let pad = widths[c] + 1;
                push_spaces(&mut line, pad);
                proof {
                    lemma_max_text_len_nonneg(shown, c as int);
                    assert(line@ =~= before + field_text(r, active, shown, c as int));
                }
            } else {
                proof {
                    assert(field_text(r, active, shown, c as int) =~= Seq::<char>::empty());
                    assert(line@ =~= before + field_text(r, active, shown, c as int));
                }
            }
            proof {
                assert(line_from(r, active, shown, c as int) == field_text(r, active, shown, c as int)
                    + line_from(r, active, shown, c as int + 1));
                assert(line@ + line_from(r, active, shown, c as int + 1) =~= before + line_from(
                    r,
                    active,
                    shown,
                    c as int,
                ));
            }
            c = c + 1;
        }
        proof {
            assert(line_from(r, active, shown, self.ncols()) =~= Seq::<char>::empty());
            assert(line@ =~= line_from(r, active, shown, 0));
        }
        line
    }

    /// Render the current selection as aligned plain text, suitable for the
    /// host to hand to the system clipboard: one newline-terminated line
    /// per row with any selection, in display order, fields aligned per
    /// column on the widest selected text plus one space. In full-row mode
    /// every column is marked active first, as rendering expects.
    pub fn copy_selected_cells(&mut self) -> (text: String)
        requires
            old(self).wf(),
            forall|i: int, c: int|
                0 <= i < old(self).shown().len() && 0 <= c < old(self).ncols() ==> (
                #[trigger] old(self).shown()[i].cells[c]).text.len() < usize::MAX,
        ensures
            final(self).wf(),
            *final(self) == (SelectableTable {
                active_columns: final(self).active_columns,
                ..*old(self)
            }),
            final(self).active_cols() == if old(self).select_full_row {
                all_cols(old(self).ncols())
            } else {
                old(self).active_cols()
            },
            text@ == copy_text(*old(self)),
    {
        let ghost g0 = *old(self);
        if self.select_full_row {
            self.active_columns = Self::all_true(self.column_count);
            proof {
                assert(self.active_cols() =~= all_cols(g0.ncols()));
                crate::lemma_wf_frame(g0, *self);
            }
        }
        let ghost active = self.active_cols();
        let ghost shown = g0.shown();
        // First pass: the widest selected text of every column.
        let mut widths: Vec<usize> = Vec::new();
        let mut z: usize = 0;
        while z < self.column_count
            invariant
                0 <= z <= self.column_count,
                widths@.len() == z as int,
                forall|d: int| 0 <= d < z as int ==> (#[trigger] widths@[d]) == 0,
            decreases self.column_count - z,
        {
            widths.push(0);
            z = z + 1;
        }
        proof {
            assert(g0.shown().subrange(0, 0) =~= Seq::<RowView>::empty());
            assert forall|d: int| 0 <= d < g0.ncols() implies (#[trigger] widths@[d]) as int
                == max_text_len(g0.shown().subrange(0, 0), d) by {}
        }
        let mut i: usize = 0;
        while i < self.formatted_rows.len()
            invariant
                g0 == *old(self),
                g0.wf(),
                self.wf(),
                *self == (SelectableTable { active_columns: self.active_columns, ..g0 }),
                self.shown() == g0.shown(),
                active == self.active_cols(),
                shown == g0.shown(),
                forall|i2: int, c: int|
                    0 <= i2 < shown.len() && 0 <= c < g0.ncols() ==> (
                    #[trigger] shown[i2].cells[c]).text.len() < usize::MAX,
                0 <= i <= self.formatted_rows.len(),
                widths@.len() == g0.ncols(),
                forall|d: int|
                    0 <= d < g0.ncols() ==> (#[trigger] widths@[d]) as int == max_text_len(
                        shown.subrange(0, i as int),
                        d,
                    ),
            decreases self.formatted_rows.len() - i,
        {
            let mut c: usize = 0;
            while c < self.column_count
                invariant
                    g0 == *old(self),
                    g0.wf(),
                    self.wf(),
                    *self == (SelectableTable { active_columns: self.active_columns, ..g0 }),
                    self.shown() == g0.shown(),
                    shown == g0.shown(),
                    forall|i2: int, c2: int|
                        0 <= i2 < shown.len() && 0 <= c2 < g0.ncols() ==> (
                        #[trigger] shown[i2].cells[c2]).text.len() < usize::MAX,
                    0 <= i < self.formatted_rows.len(),
                    (i as int) < shown.len(),
                    0 <= c <= self.column_count,
                    widths@.len() == g0.ncols(),
                    forall|d: int|
                        c as int <= d < g0.ncols() ==> (#[trigger] widths@[d]) as int
                            == max_text_len(shown.subrange(0, i as int), d),
                    forall|d: int|
                        0 <= d < c as int ==> (#[trigger] widths@[d]) as int == max_text_len(
                            shown.subrange(0, i as int + 1),
                            d,
                        ),
                decreases self.column_count - c,
            {
                proof {
                    assert(row_wf(shown[i as int], g0.ncols()));
                }
                let is_selected = self.cell_selected(i, c);
                if is_selected {
                    let len = self.cell_text_len(i, c);
                    if len > widths[c] {
                        widths[c] = len;
                    }
                }
                proof {
                    lemma_max_text_len_step(shown, i as int, c as int);
                }
                c = c + 1;
            }
            i = i + 1;
        }
        proof {
            assert(shown.subrange(0, shown.len() as int) =~= shown);
            assert forall|d: int| 0 <= d < g0.ncols() implies max_text_len(shown, d)
                < usize::MAX by {
                if max_text_len(shown, d) > 0 {
                    lemma_max_text_len_hit(shown, d);
                }
            }
        }
        // Second pass: emit one line per selected row.
        let mut text = String::new();
        let mut t: usize = 0;
        proof {
            reveal(Seq::filter);
            assert(shown.subrange(0, 0) =~= Seq::<RowView>::empty());
            assert(text@ =~= lines_text(selected_rows(shown.subrange(0, 0)), active, shown));
        }
        while t < self.formatted_rows.len()
            invariant
                g0 == *old(self),
                g0.wf(),
                self.wf(),
                *self == (SelectableTable { active_columns: self.active_columns, ..g0 }),
                self.shown() == g0.shown(),
                active == self.active_cols(),
                shown == g0.shown(),
                0 <= t <= self.formatted_rows.len(),
                widths@.len() == g0.ncols(),
                forall|d: int|
                    0 <= d < g0.ncols() ==> (#[trigger] widths@[d]) as int == max_text_len(
                        shown,
                        d,
                    ),
                forall|d: int| 0 <= d < g0.ncols() ==> max_text_len(shown, d) < usize::MAX,
                text@ == lines_text(selected_rows(shown.subrange(0, t as int)), active, shown),
            decreases self.formatted_rows.len() - t,
        {
            let ghost prefix = shown.subrange(0, t as int);
            let ghost prefix2 = shown.subrange(0, t as int + 1);
            let row_selected = Self::any_selected(&self.formatted_rows[t].selected_columns);
            proof {
                assert(self.shown()[t as int].sel
                    == self.formatted_rows@[t as int].selected_columns@);
                assert(row_selected == sel_any(shown[t as int]));
                reveal(Seq::filter);
                assert(prefix2.drop_last() =~= prefix);
                assert(prefix2.last() == shown[t as int]);
            }
            if row_selected {
                let line = self.render_row(t, &widths);
                text.append(line.as_str());
                text.append("\n");
                proof {
                    reveal_strlit("\n");
                    assert("\n"@ =~= seq!['\n']);
                    assert(selected_rows(prefix2) == selected_rows(prefix).push(shown[t as int]));
                    lemma_lines_push(selected_rows(prefix), shown[t as int], active, shown);
                    assert(text@ =~= lines_text(selected_rows(prefix2), active, shown));
                }
            } else {
                proof {
                    assert(selected_rows(prefix2) == selected_rows(prefix));
                }
            }
            t = t + 1;
        }
        proof {
            assert(shown.subrange(0, shown.len() as int) =~= shown);
            assert(text@ == lines_text(selected_rows(shown), active, shown));
            assert(active == if g0.select_full_row {
                all_cols(g0.ncols())
            } else {
                g0.active_cols()
            });
        }
        text
    }
}

/// A positive column maximum is some selected cell's text length, so it
/// stays below the machine limit whenever every text does.
proof fn lemma_max_text_len_hit(shown: Seq<RowView>, c: int)
    requires
        max_text_len(shown, c) > 0,
    ensures
        exists|i: int|
            0 <= i < shown.len() && (#[trigger] shown[i]).cells[c].text.len() == max_text_len(
                shown,
                c,
            ),
    decreases shown.len(),
{
    if shown.len() > 0 {
        let rest = max_text_len(shown.drop_last(), c);
        if max_text_len(shown, c) == rest {
            lemma_max_text_len_hit(shown.drop_last(), c);
            let i = choose|i: int|
                0 <= i < shown.drop_last().len() && (#[trigger] shown.drop_last()[i]).cells[c].text.len()
                    == rest;
            assert(shown[i] == shown.drop_last()[i]);
        } else {
            assert(shown[shown.len() - 1] == shown.last());
        }
    }
}

} // verus!
