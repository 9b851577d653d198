use vt_avt::diff::{decode_diff, DirtyState};
use vt_avt::DecodeError;

#[test]
fn fresh_tracker_reports_every_row() {
    let mut d = DirtyState::new_all_dirty(3);
    let b = d.poll().unwrap();
    // hasDiff, count, indices 0 1 2, cursorChanged, resized.
    assert_eq!(b, vec![1, 3, 0, 1, 2, 1, 0]);
}

#[test]
fn poll_clears_all_pending_state() {
    let mut d = DirtyState::new_all_dirty(3);
    assert!(d.poll().is_some());
    assert!(d.poll().is_none());
    assert!(d.poll().is_none());
}

#[test]
fn feed_marks_all_rows_and_cursor() {
    let mut d = DirtyState::new_all_dirty(2);
    d.poll();
    d.mark_feed();
    let b = d.poll().unwrap();
    assert_eq!(b, vec![1, 2, 0, 1, 1, 0]);
    assert!(d.poll().is_none());
}

#[test]
fn repeated_feeds_coalesce() {
    let mut d = DirtyState::new_all_dirty(2);
    d.poll();
    d.mark_feed();
    d.mark_feed();
    d.mark_feed();
    let b = d.poll().unwrap();
    assert_eq!(b, vec![1, 2, 0, 1, 1, 0]);
    assert!(d.poll().is_none());
}

#[test]
fn resize_sets_resized_flag_and_new_geometry() {
    let mut d = DirtyState::new_all_dirty(2);
    d.poll();
    d.mark_resized(4);
    let b = d.poll().unwrap();
    assert_eq!(b, vec![1, 4, 0, 1, 2, 3, 1, 1]);
    assert!(d.poll().is_none());
}

#[test]
fn resized_flag_survives_a_feed() {
    let mut d = DirtyState::new_all_dirty(1);
    d.poll();
    d.mark_resized(1);
    d.mark_feed();
    let b = d.poll().unwrap();
    assert_eq!(b, vec![1, 1, 0, 1, 1]);
}

#[test]
fn diff_decoder_roundtrip() {
    let mut d = DirtyState::new_all_dirty(3);
    let b = d.poll().unwrap();
    let rec = decode_diff(&b).unwrap().unwrap();
    assert_eq!(rec.rows, vec![0, 1, 2]);
    assert!(rec.cursor_changed);
    assert!(!rec.resized);
}

#[test]
fn diff_decoder_absent_form() {
    assert_eq!(decode_diff(&[0]).unwrap(), None);
}

#[test]
fn diff_decoder_rejects_malformed() {
    // Empty buffer, unknown lead byte, trailing byte after the absent form.
    assert_eq!(decode_diff(&[]), Err(DecodeError::MalformedInput));
    assert_eq!(decode_diff(&[2]), Err(DecodeError::MalformedInput));
    assert_eq!(decode_diff(&[0, 0]), Err(DecodeError::MalformedInput));
    // Truncated: count says one index, none follows.
    assert_eq!(decode_diff(&[1, 1]), Err(DecodeError::MalformedInput));
    // Out-of-order indices.
    assert_eq!(decode_diff(&[1, 2, 1, 1, 1, 0]), Err(DecodeError::MalformedInput));
    // A flag byte above one.
    assert_eq!(decode_diff(&[1, 1, 0, 2, 0]), Err(DecodeError::MalformedInput));
}
