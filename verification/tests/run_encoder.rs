use vt_avt::run::{encode_runs, trim_row, ScreenCell};
use vt_avt::style::{CellColor, Pen};

fn cell(ch: char, pen: Pen) -> ScreenCell {
    ScreenCell { ch, pen }
}

fn bold() -> Pen {
    let mut p = Pen::plain();
    p.bold = true;
    p
}

#[test]
fn empty_row_yields_zero_runs() {
    let runs = encode_runs(&[]);
    assert!(runs.is_empty());
}

#[test]
fn uniform_row_yields_single_run() {
    let row: Vec<ScreenCell> = "abcde".chars().map(|c| cell(c, Pen::plain())).collect();
    let runs = encode_runs(&row);
    assert_eq!(runs.len(), 1);
    assert_eq!(runs[0].start_column, 0);
    assert_eq!(runs[0].text, "abcde");
    assert_eq!(runs[0].pen, Pen::plain());
}

#[test]
fn pen_change_starts_new_run() {
    let row = vec![
        cell('a', Pen::plain()),
        cell('a', Pen::plain()),
        cell('b', bold()),
        cell('b', bold()),
        cell('c', Pen::plain()),
    ];
    let runs = encode_runs(&row);
    assert_eq!(runs.len(), 3);
    assert_eq!((runs[0].start_column, runs[0].text.as_str()), (0, "aa"));
    assert_eq!((runs[1].start_column, runs[1].text.as_str()), (2, "bb"));
    assert_eq!((runs[2].start_column, runs[2].text.as_str()), (4, "c"));
    assert_ne!(runs[0].pen, runs[1].pen);
    assert_ne!(runs[1].pen, runs[2].pen);
}

#[test]
fn run_concat_reconstructs_row() {
    let mut colored = Pen::plain();
    colored.foreground = CellColor::Indexed(3);
    let row = vec![
        cell('x', Pen::plain()),
        cell('y', colored),
        cell('y', colored),
        cell('z', bold()),
        cell(' ', colored),
    ];
    let runs = encode_runs(&row);
    let concat: String = runs.iter().map(|r| r.text.as_str()).collect();
    let original: String = row.iter().map(|c| c.ch).collect();
    assert_eq!(concat, original);
    for w in runs.windows(2) {
        assert_ne!(w[0].pen, w[1].pen);
        assert!(w[0].start_column < w[1].start_column);
    }
}

#[test]
fn trim_drops_trailing_blanks_only() {
    let row = vec![
        cell('h', Pen::plain()),
        cell('i', Pen::plain()),
        cell(' ', Pen::plain()),
        cell(' ', Pen::plain()),
    ];
    let t = trim_row(&row);
    assert_eq!(t.len(), 2);
    // An inner blank stays.
    let row2 = vec![cell('a', Pen::plain()), cell(' ', Pen::plain()), cell('b', Pen::plain())];
    assert_eq!(trim_row(&row2).len(), 3);
    // A styled trailing space is content, not padding.
    let row3 = vec![cell('a', Pen::plain()), cell(' ', bold())];
    assert_eq!(trim_row(&row3).len(), 2);
    // An all-blank row trims to nothing.
    let row4 = vec![cell(' ', Pen::plain()); 5];
    assert!(trim_row(&row4).is_empty());
}
