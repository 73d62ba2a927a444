use telemplot::link::{link_token, AxisRange, CursorPos, LinkSession, LINK_GROUP_SEED};
use telemplot::store::DataType;
use telemplot::views::{PlotView, ViewRegistry};

#[test]
fn test_open_view_rejects_duplicate_title() {
    let mut registry = ViewRegistry::new();
    registry.open_view("DEBUT".to_owned(), DataType::Memory);
    registry.open_view("DEBUT".to_owned(), DataType::Memory);
    assert_eq!(registry.view_count(), 1);
    let open = registry.list_open();
    assert_eq!(open.len(), 1);
    assert_eq!(open[0].title, "DEBUT");
    assert_eq!(open[0].kind, DataType::Memory);
    assert!(open[0].is_open);
}

#[test]
fn test_open_view_duplicate_keeps_count_for_any_kind() {
    let mut registry = ViewRegistry::new();
    registry.open_view("DEBUT".to_owned(), DataType::Memory);
    // Same title, other kind: still a duplicate, still a no-op.
    registry.open_view("DEBUT".to_owned(), DataType::DiskSpace);
    assert_eq!(registry.view_count(), 1);
    assert_eq!(registry.list_open()[0].kind, DataType::Memory);
}

#[test]
fn test_distinct_titles_accumulate_in_creation_order() {
    let mut registry = ViewRegistry::new();
    registry.open_view("a".to_owned(), DataType::Memory);
    registry.open_view("b".to_owned(), DataType::DiskSpace);
    registry.open_view("c".to_owned(), DataType::Memory);
    let titles: Vec<String> = registry.list_open().into_iter().map(|v| v.title).collect();
    assert_eq!(titles, vec!["a", "b", "c"]);
}

#[test]
fn test_close_is_deferred_until_purge() {
    let mut registry = ViewRegistry::new();
    registry.open_view("a".to_owned(), DataType::Memory);
    registry.open_view("b".to_owned(), DataType::Memory);
    assert!(registry.close_view(&"a".to_owned()));
    // The flag flips at once, removal waits for the sweep.
    assert_eq!(registry.view_count(), 2);
    assert_eq!(registry.list_open().len(), 1);
    registry.purge_closed();
    assert_eq!(registry.view_count(), 1);
    let open = registry.list_open();
    assert_eq!(open.len(), 1);
    assert_eq!(open[0].title, "b");
}

#[test]
fn test_purge_leaves_no_closed_view() {
    let mut registry = ViewRegistry::new();
    registry.open_view("a".to_owned(), DataType::Memory);
    registry.open_view("b".to_owned(), DataType::DiskSpace);
    registry.open_view("c".to_owned(), DataType::Memory);
    registry.close_view(&"a".to_owned());
    registry.close_view(&"c".to_owned());
    registry.purge_closed();
    let open = registry.list_open();
    assert_eq!(open.len(), 1);
    assert!(open.iter().all(|v| v.is_open));
    assert_eq!(registry.view_count(), 1);
}

#[test]
fn test_close_unknown_title_reports_false() {
    let mut registry = ViewRegistry::new();
    registry.open_view("a".to_owned(), DataType::Memory);
    assert!(!registry.close_view(&"zzz".to_owned()));
    assert_eq!(registry.view_count(), 1);
}

#[test]
fn test_reopening_after_purge_is_allowed() {
    let mut registry = ViewRegistry::new();
    registry.open_view("a".to_owned(), DataType::Memory);
    registry.close_view(&"a".to_owned());
    registry.purge_closed();
    registry.open_view("a".to_owned(), DataType::DiskSpace);
    let open = registry.list_open();
    assert_eq!(open.len(), 1);
    assert_eq!(open[0].kind, DataType::DiskSpace);
}

#[test]
fn test_default_view() {
    let view = PlotView::default();
    assert_eq!(view.title, "Hello World!");
    assert_eq!(view.kind, DataType::Memory);
    assert!(view.is_open);
}

#[test]
fn test_link_token_is_stable() {
    assert_eq!(link_token(), link_token());
    assert_eq!(link_token().id, LINK_GROUP_SEED);
}

#[test]
fn test_axis_linked_cursor_not() {
    // Axis linking on, cursor linking off: a pan propagates, the pointer
    // does not.
    let mut session = LinkSession::new();
    session.set_link_axis(true);
    session.set_link_cursor(false);

    // One view pans; the shared range every other view adopts changes.
    session.report_axis(AxisRange { low: 10, high: 20 });
    assert_eq!(session.axis_for_views(), Some(AxisRange { low: 10, high: 20 }));

    // One view moves the pointer; no other view's crosshair moves.
    session.report_cursor(CursorPos { x: 5, y: 6 });
    assert_eq!(session.cursor_for_views(), None);
}

#[test]
fn test_cursor_linked_axis_not() {
    let mut session = LinkSession::new();
    session.set_link_cursor(true);
    session.report_cursor(CursorPos { x: 5, y: 6 });
    session.report_axis(AxisRange { low: 1, high: 2 });
    assert_eq!(session.cursor_for_views(), Some(CursorPos { x: 5, y: 6 }));
    assert_eq!(session.axis_for_views(), None);
}

#[test]
fn test_toggles_are_idempotent() {
    let mut session = LinkSession::new();
    session.set_link_axis(true);
    session.set_link_axis(true);
    session.report_axis(AxisRange { low: 1, high: 2 });
    session.set_link_cursor(false);
    session.set_link_cursor(false);
    assert_eq!(session.axis_for_views(), Some(AxisRange { low: 1, high: 2 }));
    assert_eq!(session.cursor_for_views(), None);
}
