//! The row store, the sorted snapshot and its freshness invariant.

use selectable_table::{CellValue, RowMutation, SelectableTable, SortOrder};

fn cell(key: i64, text: &str) -> CellValue {
    CellValue { sort_key: key, text: text.to_string() }
}

fn row3(a: i64, b: i64, c: i64) -> Vec<CellValue> {
    vec![cell(a, &format!("a{}", a)), cell(b, &format!("b{}", b)), cell(c, &format!("c{}", c))]
}

fn shown_keys(table: &mut SelectableTable) -> Vec<i64> {
    table.rows().iter().map(|r| r.row_data[0].sort_key).collect()
}

#[test]
fn snapshot_length_matches_store_after_each_access() {
    let mut table = SelectableTable::new(3);
    assert_eq!(table.rows().len(), 0);
    for i in 0..5 {
        table.add_modify_row(RowMutation::Add(row3(i, 10 - i, i * 2)));
    }
    assert_eq!(table.rows().len(), 5);
    table.add_modify_row(RowMutation::Add(row3(9, 9, 9)));
    table.add_modify_row(RowMutation::Add(row3(8, 8, 8)));
    assert_eq!(table.rows().len(), 7);
    table.add_modify_row(RowMutation::Remove(0));
    assert_eq!(table.rows().len(), 6);
}

#[test]
fn rows_are_sorted_by_first_column_ascending_by_default() {
    let mut table = SelectableTable::new(3);
    table.add_modify_row(RowMutation::Add(row3(5, 0, 0)));
    table.add_modify_row(RowMutation::Add(row3(1, 0, 0)));
    table.add_modify_row(RowMutation::Add(row3(3, 0, 0)));
    assert_eq!(shown_keys(&mut table), vec![1, 3, 5]);
}

#[test]
fn sorting_twice_yields_identical_order() {
    let mut table = SelectableTable::new(2);
    // Equal keys in the sort column: ties keep insertion order (stable).
    table.add_modify_row(RowMutation::Add(vec![cell(2, "x"), cell(0, "first")]));
    table.add_modify_row(RowMutation::Add(vec![cell(1, "y"), cell(1, "second")]));
    table.add_modify_row(RowMutation::Add(vec![cell(2, "z"), cell(2, "third")]));
    let first: Vec<String> =
        table.rows().iter().map(|r| r.row_data[1].text.clone()).collect();
    table.recreate_rows();
    let second: Vec<String> =
        table.rows().iter().map(|r| r.row_data[1].text.clone()).collect();
    assert_eq!(first, second);
    assert_eq!(first, vec!["second".to_string(), "first".to_string(), "third".to_string()]);
}

#[test]
fn toggling_sort_order_twice_restores_the_order() {
    let mut table = SelectableTable::new(2);
    table.add_modify_row(RowMutation::Add(vec![cell(4, "p"), cell(0, "")]));
    table.add_modify_row(RowMutation::Add(vec![cell(2, "q"), cell(0, "")]));
    table.add_modify_row(RowMutation::Add(vec![cell(7, "r"), cell(0, "")]));
    let before = shown_keys(&mut table);
    table.handle_header_click(0);
    assert_eq!(shown_keys(&mut table), vec![7, 4, 2]);
    table.handle_header_click(0);
    let after = shown_keys(&mut table);
    assert_eq!(before, after);
    assert_eq!(after, vec![2, 4, 7]);
}

#[test]
fn header_click_on_other_column_sorts_it_ascending() {
    let mut table = SelectableTable::new(2);
    table.add_modify_row(RowMutation::Add(vec![cell(1, ""), cell(9, "")]));
    table.add_modify_row(RowMutation::Add(vec![cell(2, ""), cell(3, "")]));
    table.add_modify_row(RowMutation::Add(vec![cell(3, ""), cell(6, "")]));
    table.handle_header_click(1);
    let keys: Vec<i64> = table.rows().iter().map(|r| r.row_data[1].sort_key).collect();
    assert_eq!(keys, vec![3, 6, 9]);
    assert!(matches!(table.sort_order, SortOrder::Ascending));
}

#[test]
fn update_changes_the_store_and_shows_after_rebuild() {
    let mut table = SelectableTable::new(1);
    table.add_modify_row(RowMutation::Add(vec![cell(1, "one")]));
    table.add_modify_row(RowMutation::Add(vec![cell(2, "two")]));
    assert_eq!(table.rows()[0].row_data[0].text, "one");
    table.add_modify_row(RowMutation::Update(0, vec![cell(1, "uno")]));
    // The snapshot length still matches, so it is not rebuilt yet.
    assert_eq!(table.rows()[0].row_data[0].text, "one");
    table.recreate_rows();
    assert_eq!(table.rows()[0].row_data[0].text, "uno");
}

#[test]
fn add_modify_shown_row_edits_the_snapshot_only() {
    let mut table = SelectableTable::new(1);
    table.add_modify_row(RowMutation::Add(vec![cell(5, "old")]));
    assert_eq!(table.rows()[0].row_data[0].text, "old");
    table.add_modify_shown_row(0, vec![cell(5, "new")]);
    assert_eq!(table.rows()[0].row_data[0].text, "new");
    // The canonical copy was untouched: a rebuild restores it.
    table.recreate_rows();
    assert_eq!(table.rows()[0].row_data[0].text, "old");
}

#[test]
fn clear_all_rows_keeps_the_identity_counter() {
    let mut table = SelectableTable::new(1);
    table.add_modify_row(RowMutation::Add(vec![cell(1, "")]));
    table.add_modify_row(RowMutation::Add(vec![cell(2, "")]));
    table.clear_all_rows();
    assert_eq!(table.rows().len(), 0);
    table.add_modify_row(RowMutation::Add(vec![cell(3, "")]));
    let snapshot = table.rows();
    // Identities are never reused: the new row continues the counter.
    assert_eq!(snapshot[0].id, 2);
}

#[test]
fn removing_a_missing_identity_changes_nothing() {
    let mut table = SelectableTable::new(1);
    table.add_modify_row(RowMutation::Add(vec![cell(1, "")]));
    table.add_modify_row(RowMutation::Remove(42));
    assert_eq!(table.rows().len(), 1);
}

#[test]
fn column_adjacency_wraps_circularly() {
    let table = SelectableTable::new(3);
    assert_eq!(table.first_column(), 0);
    assert_eq!(table.last_column(), 2);
    assert_eq!(table.next_column(0), 1);
    assert_eq!(table.next_column(2), 0);
    assert_eq!(table.previous_column(0), 2);
    assert_eq!(table.previous_column(1), 0);
}
