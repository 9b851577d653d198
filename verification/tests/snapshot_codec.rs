use vt_avt::run::ScreenCell;
use vt_avt::snapshot::{decode_snapshot, encode_snapshot, Screen};
use vt_avt::style::{CellColor, Pen};
use vt_avt::DecodeError;

fn cell(ch: char, pen: Pen) -> ScreenCell {
    ScreenCell { ch, pen }
}

fn blank() -> ScreenCell {
    cell(' ', Pen::plain())
}

#[test]
fn snapshot_exact_bytes_tiny_screen() {
    let s = Screen {
        cols: 1,
        rows: 1,
        cursor_col: 0,
        cursor_row: 0,
        cursor_visible: true,
        grid: vec![vec![cell('A', Pen::plain())]],
    };
    let b = encode_snapshot(&s);
    // cols, rows, cursorColumn, cursorRow, visible, runCount,
    // startColumn, textByteLength, pen (fg tag, bg tag, attrs), text.
    assert_eq!(b, vec![1, 1, 0, 0, 1, 1, 0, 1, 2, 2, 0, 65]);
}

#[test]
fn snapshot_roundtrip_small_screen() {
    let mut red = Pen::plain();
    red.foreground = CellColor::Rgb(255, 0, 0);
    let s = Screen {
        cols: 4,
        rows: 3,
        cursor_col: 2,
        cursor_row: 1,
        cursor_visible: false,
        grid: vec![
            vec![cell('h', Pen::plain()), cell('i', Pen::plain()), blank(), blank()],
            vec![cell('!', red), blank(), blank(), blank()],
            vec![blank(), blank(), blank(), blank()],
        ],
    };
    let b = encode_snapshot(&s);
    let d = decode_snapshot(&b).unwrap();
    assert_eq!(d.cols, 4);
    assert_eq!(d.rows, 3);
    assert_eq!(d.cursor_col, 2);
    assert_eq!(d.cursor_row, 1);
    assert!(!d.cursor_visible);
    assert_eq!(d.rows_runs.len(), 3);
    assert_eq!(d.rows_runs[0].len(), 1);
    assert_eq!(d.rows_runs[0][0].start_column, 0);
    assert_eq!(d.rows_runs[0][0].text, "hi");
    assert_eq!(d.rows_runs[0][0].pen, Pen::plain());
    assert_eq!(d.rows_runs[1].len(), 1);
    assert_eq!(d.rows_runs[1][0].text, "!");
    assert_eq!(d.rows_runs[1][0].pen, red);
    assert!(d.rows_runs[2].is_empty());
}

#[test]
fn snapshot_roundtrip_multibyte_text() {
    let s = Screen {
        cols: 2,
        rows: 1,
        cursor_col: 0,
        cursor_row: 0,
        cursor_visible: true,
        grid: vec![vec![cell('\u{e9}', Pen::plain()), cell('\u{4e16}', Pen::plain())]],
    };
    let b = encode_snapshot(&s);
    let d = decode_snapshot(&b).unwrap();
    assert_eq!(d.rows_runs[0][0].text, "\u{e9}\u{4e16}");
}

#[test]
fn snapshot_truncated_fails() {
    let s = Screen {
        cols: 1,
        rows: 1,
        cursor_col: 0,
        cursor_row: 0,
        cursor_visible: true,
        grid: vec![vec![cell('A', Pen::plain())]],
    };
    let b = encode_snapshot(&s);
    for cut in 0..b.len() {
        assert_eq!(decode_snapshot(&b[..cut]), Err(DecodeError::MalformedInput), "cut {cut}");
    }
}

#[test]
fn snapshot_trailing_byte_fails() {
    let s = Screen {
        cols: 1,
        rows: 1,
        cursor_col: 0,
        cursor_row: 0,
        cursor_visible: true,
        grid: vec![vec![blank()]],
    };
    let mut b = encode_snapshot(&s);
    b.push(0);
    assert_eq!(decode_snapshot(&b), Err(DecodeError::MalformedInput));
}

#[test]
fn snapshot_bad_visibility_byte_fails() {
    // cols=1, rows=0, cursor 0,0, visibility byte 2.
    let b = vec![1, 0, 0, 0, 2];
    assert_eq!(decode_snapshot(&b), Err(DecodeError::MalformedInput));
}

#[test]
fn snapshot_bad_color_tag_fails() {
    // One run whose pen opens with tag 9.
    let b = vec![1, 1, 0, 0, 1, 1, 0, 1, 9, 2, 0, 65];
    assert_eq!(decode_snapshot(&b), Err(DecodeError::UnsupportedColorTag));
}

#[test]
fn snapshot_out_of_order_runs_fail() {
    // Two runs: the second starts at the same column as the first.
    let b = vec![1, 1, 0, 0, 1, 2, 0, 1, 2, 2, 0, 65, 0, 1, 2, 2, 0, 66];
    assert_eq!(decode_snapshot(&b), Err(DecodeError::MalformedInput));
}

#[test]
fn snapshot_empty_screen_roundtrip() {
    let s = Screen {
        cols: 0,
        rows: 0,
        cursor_col: 0,
        cursor_row: 0,
        cursor_visible: false,
        grid: vec![],
    };
    let b = encode_snapshot(&s);
    assert_eq!(b, vec![0, 0, 0, 0, 0]);
    let d = decode_snapshot(&b).unwrap();
    assert_eq!(d.rows, 0);
    assert!(d.rows_runs.is_empty());
}
