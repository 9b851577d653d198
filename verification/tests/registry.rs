use vt_avt::diff::decode_diff;
use vt_avt::session::SessionRegistry;
use vt_avt::snapshot::decode_snapshot;

fn parse_diff(bytes: &[u8]) -> (Vec<usize>, bool, bool) {
    let d = decode_diff(bytes).unwrap().unwrap();
    (d.rows, d.cursor_changed, d.resized)
}

#[test]
fn scenario_open_feed_snapshot_close() {
    let mut reg = SessionRegistry::new();
    let h = reg.open(80, 24);
    assert_ne!(h, 0);

    let d = reg.poll_diff(h).unwrap();
    let (rows, cursor, resized) = parse_diff(&d);
    assert_eq!(rows, (0..24).collect::<Vec<_>>());
    assert!(cursor);
    assert!(!resized);

    reg.feed(h, b"hello");
    let snap = reg.snapshot(h);
    let s = decode_snapshot(&snap).unwrap();
    assert_eq!(s.cols, 80);
    assert_eq!(s.rows, 24);
    let first = &s.rows_runs[0][0];
    assert_eq!(first.start_column, 0);
    assert_eq!(first.text, "hello");

    let d2 = reg.poll_diff(h).unwrap();
    let (rows2, cursor2, _) = parse_diff(&d2);
    assert!(rows2.contains(&0));
    assert!(cursor2);

    reg.close(h);
    assert!(reg.snapshot(h).is_empty());
}

#[test]
fn invalid_handle_operations_are_noops() {
    let mut reg = SessionRegistry::new();
    let h = reg.open(10, 2);

    reg.feed(0, b"x");
    reg.resize(0, 5, 5);
    reg.reset(0, 5, 5);
    reg.close(0);
    assert!(reg.snapshot(0).is_empty());
    assert!(reg.poll_diff(0).is_none());

    reg.feed(99, b"x");
    reg.resize(99, 5, 5);
    reg.reset(99, 5, 5);
    reg.close(99);
    assert!(reg.snapshot(99).is_empty());
    assert!(reg.poll_diff(99).is_none());

    // The live session was untouched: its first poll still reports both rows.
    let d = reg.poll_diff(h).unwrap();
    let (rows, cursor, resized) = parse_diff(&d);
    assert_eq!(rows, vec![0, 1]);
    assert!(cursor);
    assert!(!resized);
}

#[test]
fn closed_handle_operations_are_noops() {
    let mut reg = SessionRegistry::new();
    let h = reg.open(10, 2);
    reg.close(h);
    reg.feed(h, b"x");
    reg.resize(h, 5, 5);
    reg.reset(h, 5, 5);
    reg.close(h);
    assert!(reg.snapshot(h).is_empty());
    assert!(reg.poll_diff(h).is_none());
}

#[test]
fn handles_are_never_reused() {
    let mut reg = SessionRegistry::new();
    let a = reg.open(4, 2);
    reg.close(a);
    let b = reg.open(4, 2);
    assert_ne!(a, b);
    assert!(reg.snapshot(a).is_empty());
    assert!(!reg.snapshot(b).is_empty());
}

#[test]
fn poll_is_idempotent_and_feeds_coalesce() {
    let mut reg = SessionRegistry::new();
    let h = reg.open(4, 2);
    assert!(reg.poll_diff(h).is_some());
    assert!(reg.poll_diff(h).is_none());

    reg.feed(h, b"a");
    reg.feed(h, b"b");
    reg.feed(h, b"c");
    let d = reg.poll_diff(h).unwrap();
    let (rows, cursor, resized) = parse_diff(&d);
    assert_eq!(rows, vec![0, 1]);
    assert!(cursor);
    assert!(!resized);
    assert!(reg.poll_diff(h).is_none());
}

#[test]
fn resize_reports_resized_and_new_geometry() {
    let mut reg = SessionRegistry::new();
    let h = reg.open(4, 2);
    reg.poll_diff(h);
    reg.resize(h, 5, 3);
    let d = reg.poll_diff(h).unwrap();
    let (rows, cursor, resized) = parse_diff(&d);
    assert_eq!(rows, vec![0, 1, 2]);
    assert!(cursor);
    assert!(resized);
    let s = decode_snapshot(&reg.snapshot(h)).unwrap();
    assert_eq!((s.cols, s.rows), (5, 3));
}

#[test]
fn reset_rebuilds_a_blank_screen() {
    let mut reg = SessionRegistry::new();
    let h = reg.open(10, 2);
    reg.feed(h, b"hi");
    reg.poll_diff(h);
    reg.reset(h, 6, 2);
    let d = reg.poll_diff(h).unwrap();
    let (rows, cursor, resized) = parse_diff(&d);
    assert_eq!(rows, vec![0, 1]);
    assert!(cursor);
    assert!(resized);
    let s = decode_snapshot(&reg.snapshot(h)).unwrap();
    assert_eq!((s.cols, s.rows), (6, 2));
    assert!(s.rows_runs[0].is_empty());
}

#[test]
fn snapshot_reflects_cursor_position() {
    let mut reg = SessionRegistry::new();
    let h = reg.open(10, 2);
    reg.feed(h, b"ab");
    let s = decode_snapshot(&reg.snapshot(h)).unwrap();
    assert_eq!((s.cursor_col, s.cursor_row), (2, 0));
    assert!(s.cursor_visible);
}

#[test]
fn styled_feed_produces_styled_runs() {
    let mut reg = SessionRegistry::new();
    let h = reg.open(20, 2);
    // "ab" plain, then "cd" bold red via SGR 1;31.
    reg.feed(h, b"ab\x1b[1;31mcd");
    let s = decode_snapshot(&reg.snapshot(h)).unwrap();
    let runs = &s.rows_runs[0];
    assert_eq!(runs.len(), 2);
    assert_eq!(runs[0].text, "ab");
    assert_eq!(runs[1].text, "cd");
    assert_eq!(runs[1].start_column, 2);
    assert!(runs[1].pen.bold);
    assert_ne!(runs[0].pen, runs[1].pen);
}

#[test]
fn fresh_session_snapshot_is_blank() {
    let mut reg = SessionRegistry::new();
    let h = reg.open(5, 4);
    let s = decode_snapshot(&reg.snapshot(h)).unwrap();
    assert_eq!((s.cols, s.rows), (5, 4));
    assert_eq!((s.cursor_col, s.cursor_row), (0, 0));
    assert!(s.cursor_visible);
    for row in &s.rows_runs {
        assert!(row.is_empty());
    }
}
