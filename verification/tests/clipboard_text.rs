//! The clipboard formatter: aligned plain text for the current selection.

use selectable_table::{CellInteraction, CellValue, RowMutation, SelectableTable};

fn cell(key: i64, text: &str) -> CellValue {
    CellValue { sort_key: key, text: text.to_string() }
}

fn quiet() -> CellInteraction {
    CellInteraction {
        drag_started: false,
        pointer_released: false,
        clicked: false,
        contains_pointer: false,
        ctrl_pressed: false,
        secondary_clicked: false,
    }
}

fn click(table: &mut SelectableTable, id: i64, column: usize, ctrl: bool) {
    table.handle_table_body(
        id,
        column,
        CellInteraction { clicked: true, ctrl_pressed: ctrl, ..quiet() },
    );
}

#[test]
fn empty_selection_copies_nothing() {
    let mut table = SelectableTable::new(2);
    table.add_modify_row(RowMutation::Add(vec![cell(0, "x"), cell(0, "y")]));
    let _ = table.rows();
    assert_eq!(table.copy_selected_cells(), "");
}

#[test]
fn short_value_is_padded_to_the_longest_plus_one() {
    // One short and one long value in the same column: the short one's
    // field is as wide as the long text plus one space.
    let mut table = SelectableTable::new(2);
    table.add_modify_row(RowMutation::Add(vec![cell(0, "ab"), cell(0, "u")]));
    table.add_modify_row(RowMutation::Add(vec![cell(1, "abcdef"), cell(1, "v")]));
    let _ = table.rows();
    click(&mut table, 0, 0, false);
    click(&mut table, 1, 0, true);
    let text = table.copy_selected_cells();
    assert_eq!(text, "ab     \nabcdef \n");
    let lines: Vec<&str> = text.lines().collect();
    assert_eq!(lines[0].len(), "abcdef".len() + 1);
    assert_eq!(lines[1].len(), "abcdef".len() + 1);
}

#[test]
fn active_but_unselected_cell_leaves_an_aligned_blank_field() {
    // Rows selected in different columns: where a column is active but not
    // selected in a row, a blank field of the same width keeps alignment.
    let mut table = SelectableTable::new(2);
    table.add_modify_row(RowMutation::Add(vec![cell(0, "aa"), cell(0, "bbb")]));
    table.add_modify_row(RowMutation::Add(vec![cell(1, "cccc"), cell(1, "d")]));
    let _ = table.rows();
    click(&mut table, 0, 0, false);
    click(&mut table, 1, 1, true);
    let text = table.copy_selected_cells();
    // Column A is 2 wide (only "aa" is selected there), column B is 1
    // wide (only "d"): "aa " plus a 2-wide blank, then a 3-wide blank
    // plus "d ".
    assert_eq!(text, "aa   \n   d \n");
}

#[test]
fn skipped_columns_produce_no_field_at_all() {
    let mut table = SelectableTable::new(3);
    table.add_modify_row(RowMutation::Add(vec![cell(0, "l"), cell(0, "m"), cell(0, "nn")]));
    let _ = table.rows();
    click(&mut table, 0, 2, false);
    assert_eq!(table.copy_selected_cells(), "nn \n");
}

#[test]
fn rows_copy_in_display_order() {
    let mut table = SelectableTable::new(1);
    table.add_modify_row(RowMutation::Add(vec![cell(5, "five")]));
    table.add_modify_row(RowMutation::Add(vec![cell(1, "one")]));
    let _ = table.rows();
    table.select_all();
    assert_eq!(table.copy_selected_cells(), "one  \nfive \n");
}

#[test]
fn full_row_mode_copies_every_column() {
    let mut table = SelectableTable::new(2);
    table.set_select_full_row(true);
    table.add_modify_row(RowMutation::Add(vec![cell(0, "x"), cell(0, "yy")]));
    let _ = table.rows();
    click(&mut table, 0, 0, false);
    assert_eq!(table.copy_selected_cells(), "x yy \n");
}
