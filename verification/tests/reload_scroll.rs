//! Auto-reload batching and auto-scroll clamping.

use selectable_table::{AutoReload, AutoScroll, CellValue, RowMutation, SelectableTable};

fn cell(key: i64, text: &str) -> CellValue {
    CellValue { sort_key: key, text: text.to_string() }
}

#[test]
fn increment_count_signals_at_the_threshold() {
    let mut counter = AutoReload { reload_after: Some(3), reload_count: 0 };
    assert!(!counter.increment_count());
    assert!(!counter.increment_count());
    assert!(counter.increment_count());
    assert_eq!(counter.reload_count, 0);
    assert!(!counter.increment_count());
}

#[test]
fn increment_count_without_threshold_never_signals() {
    let mut counter = AutoReload { reload_after: None, reload_count: 0 };
    for _ in 0..10 {
        assert!(!counter.increment_count());
    }
    assert_eq!(counter.reload_count, 10);
}

#[test]
fn zero_threshold_reloads_on_every_mutation() {
    let mut counter = AutoReload { reload_after: Some(0), reload_count: 0 };
    assert!(counter.increment_count());
    assert!(counter.increment_count());
}

#[test]
fn snapshot_is_stale_after_exactly_threshold_mutations() {
    let mut table = SelectableTable::new(1).auto_reload(3);
    // The insertion is the first counted mutation.
    table.add_modify_row(RowMutation::Add(vec![cell(1, "x")]));
    let _ = table.rows();
    // The second mutation stays under the threshold of three: the
    // snapshot still shows the old payload.
    table.add_modify_row(RowMutation::Update(0, vec![cell(1, "y")]));
    assert_eq!(table.rows()[0].row_data[0].text, "x");
    // The third mutation crosses the threshold and invalidates the
    // snapshot: the next access rebuilds it from the store.
    table.add_modify_row(RowMutation::Update(0, vec![cell(1, "z")]));
    assert_eq!(table.rows()[0].row_data[0].text, "z");
}

#[test]
fn set_auto_reload_none_disables_batching() {
    let mut table = SelectableTable::new(1).auto_reload(1);
    table.set_auto_reload(None);
    table.add_modify_row(RowMutation::Add(vec![cell(1, "x")]));
    let _ = table.rows();
    table.add_modify_row(RowMutation::Update(0, vec![cell(1, "y")]));
    table.add_modify_row(RowMutation::Update(0, vec![cell(1, "z")]));
    assert_eq!(table.rows()[0].row_data[0].text, "x");
}

#[test]
fn scroll_offset_never_goes_negative() {
    let mut scroll = AutoScroll::new(true);
    // Pointer far above the top dead zone, offset already at zero.
    let offset = scroll.start_scroll(0, 1000, Some(-500));
    assert_eq!(offset, Some(0));
    assert_eq!(scroll.scroll_offset, 0);
}

#[test]
fn disabled_scroll_changes_nothing_however_often_it_is_asked() {
    let mut scroll = AutoScroll::new(false);
    scroll.scroll_offset = 70;
    for _ in 0..5 {
        assert_eq!(scroll.start_scroll(0, 1000, Some(-500)), None);
        assert_eq!(scroll.scroll_offset, 70);
    }
}

#[test]
fn scroll_speed_scales_with_distance_and_is_clamped() {
    // Defaults: top dead zone 200 deep, maximum speed 30.
    let mut scroll = AutoScroll::new(true);
    scroll.scroll_offset = 1000;
    // 50 units above the dead zone: speed 30 * 50 / 100 = 15, upwards.
    assert_eq!(scroll.start_scroll(0, 1000, Some(150)), Some(985));
    // 300 units below the bottom dead zone (at 1000 - 120 = 880): the
    // factor clamps at 1, so the full speed 30 applies, downwards.
    let mut scroll = AutoScroll::new(true);
    scroll.scroll_offset = 1000;
    assert_eq!(scroll.start_scroll(0, 1000, Some(1180)), Some(1030));
    // 3 units past an edge: the factor clamps at 1/10, so speed 3.
    let mut scroll = AutoScroll::new(true);
    scroll.scroll_offset = 1000;
    assert_eq!(scroll.start_scroll(0, 1000, Some(197)), Some(997));
}

#[test]
fn pointer_inside_the_dead_zone_does_not_scroll() {
    let mut scroll = AutoScroll::new(true).distance_from_min(100).distance_from_max(100);
    scroll.scroll_offset = 40;
    assert_eq!(scroll.start_scroll(0, 1000, Some(500)), None);
    assert_eq!(scroll.scroll_offset, 40);
}

#[test]
fn table_scrolls_only_while_a_drag_is_in_progress() {
    let mut table = SelectableTable::new(1).auto_scroll();
    table.add_modify_row(RowMutation::Add(vec![cell(1, "x")]));
    let _ = table.rows();
    // No drag: inert, whatever the pointer does.
    assert_eq!(table.drag_scroll(0, 1000, Some(-500)), None);
    // Mid-drag near the top edge: the offset is clamped at zero.
    table.handle_table_body(
        0,
        0,
        selectable_table::CellInteraction {
            drag_started: true,
            pointer_released: false,
            clicked: false,
            contains_pointer: false,
            ctrl_pressed: false,
            secondary_clicked: false,
        },
    );
    assert_eq!(table.drag_scroll(0, 1000, Some(-500)), Some(0));
}

#[test]
fn builders_configure_the_controller() {
    let scroll = AutoScroll::new(true).distance_from_min(50).distance_from_max(60).max_speed(40);
    assert!(scroll.enabled);
    assert_eq!(scroll.distance_from_min, 50);
    assert_eq!(scroll.distance_from_max, 60);
    assert_eq!(scroll.max_speed, 40);
    let mut table = SelectableTable::new(1).scroll_speed(80);
    table.update_auto_scroll(AutoScroll::new(true));
    table.update_scroll_offset(12);
    assert_eq!(table.auto_scroll.scroll_offset, 12);
}
