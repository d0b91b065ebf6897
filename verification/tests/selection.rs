//! The drag-selection state machine, through the per-cell driver.

use selectable_table::{CellInteraction, CellValue, RowMutation, SelectableTable};

fn cell(key: i64, text: &str) -> CellValue {
    CellValue { sort_key: key, text: text.to_string() }
}

/// A table with columns [A, B, C] and `n` rows whose display order matches
/// their insertion order.
fn table_3xn(n: i64) -> SelectableTable {
    let mut table = SelectableTable::new(3);
    for i in 0..n {
        table.add_modify_row(RowMutation::Add(vec![
            cell(i, &format!("a{}", i)),
            cell(i, &format!("b{}", i)),
            cell(i, &format!("c{}", i)),
        ]));
    }
    let _ = table.rows();
    table
}

fn quiet() -> CellInteraction {
    CellInteraction {
        drag_started: false,
        pointer_released: false,
        clicked: false,
        contains_pointer: false,
        ctrl_pressed: false,
        secondary_clicked: false,
    }
}

fn click(table: &mut SelectableTable, id: i64, column: usize, ctrl: bool) {
    table.handle_table_body(id, column, CellInteraction { clicked: true, ctrl_pressed: ctrl, ..quiet() });
}

fn drag_start(table: &mut SelectableTable, id: i64, column: usize, ctrl: bool) {
    table.handle_table_body(
        id,
        column,
        CellInteraction { drag_started: true, ctrl_pressed: ctrl, ..quiet() },
    );
}

fn drag_move(table: &mut SelectableTable, id: i64, column: usize, ctrl: bool) {
    table.handle_table_body(
        id,
        column,
        CellInteraction { contains_pointer: true, ctrl_pressed: ctrl, ..quiet() },
    );
}

fn release(table: &mut SelectableTable, id: i64, column: usize) {
    table.handle_table_body(id, column, CellInteraction { pointer_released: true, ..quiet() });
}

fn selection(table: &mut SelectableTable) -> Vec<Vec<bool>> {
    table.rows().iter().map(|r| r.selected_columns.clone()).collect()
}

#[test]
fn click_selects_exactly_one_cell() {
    let mut table = table_3xn(3);
    click(&mut table, 1, 2, false);
    assert_eq!(
        selection(&mut table),
        vec![vec![false, false, false], vec![false, false, true], vec![false, false, false]]
    );
}

#[test]
fn plain_click_clears_previous_selection() {
    let mut table = table_3xn(3);
    click(&mut table, 0, 0, false);
    click(&mut table, 2, 1, false);
    assert_eq!(
        selection(&mut table),
        vec![vec![false, false, false], vec![false, false, false], vec![false, true, false]]
    );
}

#[test]
fn ctrl_click_accumulates() {
    let mut table = table_3xn(2);
    click(&mut table, 0, 0, false);
    click(&mut table, 1, 2, true);
    assert_eq!(selection(&mut table), vec![vec![true, false, false], vec![false, false, true]]);
}

#[test]
fn drag_selects_the_rectangle_between_origin_and_pointer() {
    // The drag skips row 1 entirely — the walk repairs the gap.
    let mut table = table_3xn(3);
    drag_start(&mut table, 0, 1, false);
    drag_move(&mut table, 2, 1, false);
    assert_eq!(
        selection(&mut table),
        vec![vec![false, true, false], vec![false, true, false], vec![false, true, false]]
    );
}

#[test]
fn drag_scenario_b_then_c_spans_both_columns() {
    // Columns [A, B, C], 3 rows: select (row0, B), drag to (row2, B),
    // then on to (row2, C) without releasing: every row carries B and C,
    // while A stays unselected.
    let mut table = table_3xn(3);
    click(&mut table, 0, 1, false);
    drag_start(&mut table, 0, 1, false);
    drag_move(&mut table, 2, 1, false);
    assert_eq!(
        selection(&mut table),
        vec![vec![false, true, false], vec![false, true, false], vec![false, true, false]]
    );
    drag_move(&mut table, 2, 2, false);
    assert_eq!(
        selection(&mut table),
        vec![vec![false, true, true], vec![false, true, true], vec![false, true, true]]
    );
    release(&mut table, 2, 2);
    assert_eq!(
        selection(&mut table),
        vec![vec![false, true, true], vec![false, true, true], vec![false, true, true]]
    );
}

#[test]
fn drag_back_shrinks_the_rectangle() {
    let mut table = table_3xn(4);
    drag_start(&mut table, 0, 0, false);
    drag_move(&mut table, 3, 0, false);
    drag_move(&mut table, 1, 0, false);
    assert_eq!(
        selection(&mut table),
        vec![
            vec![true, false, false],
            vec![true, false, false],
            vec![false, false, false],
            vec![false, false, false]
        ]
    );
}

#[test]
fn ctrl_drag_only_adds_to_the_selection() {
    let mut table = table_3xn(4);
    click(&mut table, 3, 2, false);
    drag_start(&mut table, 0, 0, true);
    drag_move(&mut table, 1, 0, true);
    let sel = selection(&mut table);
    // The previously selected cell (row3, C) is still selected.
    assert!(sel[3][2]);
    // The dragged cells were added.
    assert!(sel[0][0]);
    assert!(sel[1][0]);
}

#[test]
fn select_all_then_unselect_all_leaves_nothing_selected() {
    let mut table = table_3xn(2);
    click(&mut table, 0, 1, false);
    table.select_all();
    assert_eq!(selection(&mut table), vec![vec![true, true, true], vec![true, true, true]]);
    table.unselect_all();
    assert_eq!(
        selection(&mut table),
        vec![vec![false, false, false], vec![false, false, false]]
    );
    assert_eq!(table.get_selected_rows().len(), 0);
}

#[test]
fn full_row_mode_selects_the_whole_row_on_click() {
    let mut table = table_3xn(2);
    table.set_select_full_row(true);
    click(&mut table, 1, 0, false);
    assert_eq!(selection(&mut table), vec![vec![false, false, false], vec![true, true, true]]);
}

#[test]
fn get_selected_rows_returns_display_order() {
    let mut table = table_3xn(3);
    click(&mut table, 2, 0, false);
    click(&mut table, 0, 1, true);
    let selected = table.get_selected_rows();
    assert_eq!(selected.len(), 2);
    assert_eq!(selected[0].id, 0);
    assert_eq!(selected[1].id, 2);
}

#[test]
fn dragging_on_an_empty_table_is_a_no_op() {
    let mut table = SelectableTable::new(2);
    let _ = table.rows();
    // No row exists, so there is no cell to interact with; the explicit
    // selection controls still work and do nothing.
    table.select_all();
    table.unselect_all();
    assert_eq!(table.rows().len(), 0);
}

#[test]
fn release_without_drag_keeps_selection() {
    let mut table = table_3xn(2);
    click(&mut table, 0, 0, false);
    release(&mut table, 0, 0);
    assert_eq!(selection(&mut table), vec![vec![true, false, false], vec![false, false, false]]);
}

#[test]
fn sort_change_clears_selection() {
    let mut table = table_3xn(2);
    click(&mut table, 0, 0, false);
    table.handle_header_click(1);
    assert_eq!(
        selection(&mut table),
        vec![vec![false, false, false], vec![false, false, false]]
    );
}
