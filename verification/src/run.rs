//! Compression of one row of cells into maximal contiguous runs of cells
//! sharing an identical pen, emitted in ascending column order.
use vstd::prelude::*;

use crate::style::{plain_pen, Pen};
use crate::text::push_char;
use vstd::slice::slice_index_get;

verus! {

/// One character cell: its character and its visual attributes.
#[derive(Debug, Clone, Copy, PartialEq, Eq, Structural)]
pub struct ScreenCell {
    pub ch: char,
    pub pen: Pen,
}

/// The mathematical value of a run: where it starts, its characters, its pen.
pub struct RunView {
    pub start: int,
    pub text: Seq<char>,
    pub pen: Pen,
}

/// A maximal span of same-styled characters within a row.
#[derive(Debug, Clone, PartialEq)]
pub struct Run {
    pub start_column: usize,
    pub text: String,
    pub pen: Pen,
}

impl View for Run {
    type V = RunView;

    open spec fn view(&self) -> RunView {
        RunView { start: self.start_column as int, text: self.text@, pen: self.pen }
    }
}

/// The characters of a row of cells, in column order.
pub open spec fn row_chars(cells: Seq<ScreenCell>) -> Seq<char> {
    cells.map(|i: int, c: ScreenCell| c.ch)
}

/// Extends a run sequence by the cell `c` standing at column `pos`: the cell
/// joins the last run when the pens agree and opens a new run otherwise.
pub open spec fn runs_push(rs: Seq<RunView>, pos: int, c: ScreenCell) -> Seq<RunView> {
    if rs.len() > 0 && rs.last().pen == c.pen {
        rs.update(
            rs.len() - 1,
            RunView { start: rs.last().start, text: rs.last().text.push(c.ch), pen: c.pen },
        )
    } else {
        rs.push(RunView { start: pos, text: seq![c.ch], pen: c.pen })
    }
}

/// The run decomposition of a row: a left-to-right scan that starts a new run
/// at every pen change.
pub open spec fn runs_of(cells: Seq<ScreenCell>) -> Seq<RunView>
    decreases cells.len(),
{
    if cells.len() == 0 {
        Seq::empty()
    } else {
        runs_push(runs_of(cells.drop_last()), cells.len() - 1, cells.last())
    }
}

/// The concatenation of the texts of a run sequence, in emitted order.
pub open spec fn runs_text(rs: Seq<RunView>) -> Seq<char>
    decreases rs.len(),
{
    if rs.len() == 0 {
        Seq::empty()
    } else {
        runs_text(rs.drop_last()) + rs.last().text
    }
}

/// The run invariant: concatenating the texts of the runs of a row, in
/// emitted order, yields exactly the row's characters; no two adjacent runs
/// share a pen; every run is non-empty; the runs tile the row contiguously
/// from column zero, so their start columns are strictly ascending.
pub proof fn lemma_runs_of_invariant(cells: Seq<ScreenCell>)
    ensures
        runs_text(runs_of(cells)) == row_chars(cells),
        forall|i: int|
            0 <= i < runs_of(cells).len() - 1 ==> (#[trigger] runs_of(cells)[i]).pen != runs_of(
                cells,
            )[i + 1].pen,
        forall|i: int| 0 <= i < runs_of(cells).len() ==> (#[trigger] runs_of(cells)[i]).text.len()
            >= 1,
        runs_of(cells).len() > 0 ==> runs_of(cells)[0].start == 0,
        forall|i: int|
            0 <= i < runs_of(cells).len() - 1 ==> runs_of(cells)[i + 1].start == (
            #[trigger] runs_of(cells)[i]).start + runs_of(cells)[i].text.len(),
        runs_of(cells).len() > 0 ==> runs_of(cells).last().start + runs_of(
            cells,
        ).last().text.len() == cells.len(),
    decreases cells.len(),
{
    if cells.len() > 0 {
        let prefix = cells.drop_last();
        lemma_runs_of_invariant(prefix);
        let rs = runs_of(prefix);
        let c = cells.last();
        let n = cells.len() as int;
        let out = runs_of(cells);
        assert(row_chars(cells) =~= row_chars(prefix) + seq![c.ch]);
        if rs.len() > 0 && rs.last().pen == c.pen {
            let ext = RunView {
                start: rs.last().start,
                text: rs.last().text.push(c.ch),
                pen: c.pen,
            };
            assert(out == rs.update(rs.len() - 1, ext));
            assert(out.drop_last() =~= rs.drop_last());
            assert(out.last() == ext);
            assert(runs_text(out) == runs_text(rs.drop_last()) + ext.text);
            assert(runs_text(rs.drop_last()) + ext.text =~= (runs_text(rs.drop_last())
                + rs.last().text) + seq![c.ch]);
            assert(runs_text(out) =~= row_chars(prefix) + seq![c.ch]);
        } else {
            let fresh = RunView { start: n - 1, text: seq![c.ch], pen: c.pen };
            assert(out == rs.push(fresh));
            assert(out.drop_last() =~= rs);
            assert(out.last() == fresh);
            assert(runs_text(out) == runs_text(rs) + seq![c.ch]);
            assert(runs_text(out) =~= row_chars(prefix) + seq![c.ch]);
            if rs.len() > 0 {
                assert(rs.last().start + rs.last().text.len() == n - 1);
                assert(out[out.len() - 2] == rs.last());
            } else {
                assert(prefix.len() == 0);
                assert(fresh.start == 0);
            }
        }
    }
}

/// Whether a cell is blank: a space drawn with the default pen.
pub open spec fn is_blank_cell(c: ScreenCell) -> bool {
    c.ch == ' ' && c.pen == plain_pen()
}

/// The blank cell: a space drawn with the default pen.
pub open spec fn blank_cell() -> ScreenCell {
    ScreenCell { ch: ' ', pen: plain_pen() }
}

/// A blank row trims to nothing and so decomposes into no runs at all.
pub proof fn lemma_blank_row_has_no_runs(cells: Seq<ScreenCell>)
    requires
        forall|i: int| 0 <= i < cells.len() ==> is_blank_cell(#[trigger] cells[i]),
    ensures
        runs_of(trimmed(cells)) == Seq::<RunView>::empty(),
    decreases cells.len(),
{
    if cells.len() > 0 {
        assert(is_blank_cell(cells.last()));
        assert forall|i: int| 0 <= i < cells.drop_last().len() implies is_blank_cell(
            #[trigger] cells.drop_last()[i],
        ) by {
            assert(cells.drop_last()[i] == cells[i]);
        }
        lemma_blank_row_has_no_runs(cells.drop_last());
    }
}

/// The row with its trailing blank cells removed.
pub open spec fn trimmed(cells: Seq<ScreenCell>) -> Seq<ScreenCell>
    decreases cells.len(),
{
    if cells.len() > 0 && is_blank_cell(cells.last()) {
        trimmed(cells.drop_last())
    } else {
        cells
    }
}

/// Whether a cell is blank.
pub fn is_blank(c: &ScreenCell) -> (r: bool)
    ensures
        r == is_blank_cell(*c),
{
    c.ch == ' ' && c.pen == Pen::plain()
}

/// Copies a row without its trailing blank cells.
pub fn trim_row(cells: &[ScreenCell]) -> (out: Vec<ScreenCell>)
    ensures
        out@ == trimmed(cells@),
{
    let mut n = cells.len();
    assert(cells@.take(n as int) =~= cells@);
    let mut stop = false;
    while !stop && n > 0
        invariant
            n <= cells@.len(),
            trimmed(cells@.take(n as int)) == trimmed(cells@),
            stop ==> n > 0 && !is_blank_cell(cells@[n - 1]),
        decreases n + (if stop { 0int } else { 1 }),
    {
        if is_blank(slice_index_get(cells, n - 1)) {
            assert(cells@.take(n as int).drop_last() =~= cells@.take(n - 1));
            assert(cells@.take(n as int).last() == cells@[n - 1]);
            n = n - 1;
        } else {
            stop = true;
        }
    }
    assert(trimmed(cells@.take(n as int)) == cells@.take(n as int));
    let mut out: Vec<ScreenCell> = Vec::new();
    let mut i: usize = 0;
    while i < n
        invariant
            i <= n <= cells@.len(),
            out@ == cells@.take(n as int).take(i as int),
        decreases n - i,
    {
        out.push(*slice_index_get(cells, i));
        assert(out@ =~= cells@.take(n as int).take(i + 1));
        i = i + 1;
    }
    assert(out@ =~= cells@.take(n as int));
    out
}

/// The run encoder: scans a row left to right and groups the cells into
/// maximal runs of identical pens, exactly as `runs_of` describes.
pub fn encode_runs(cells: &[ScreenCell]) -> (runs: Vec<Run>)
    ensures
        runs@.map(|i: int, r: Run| r@) == runs_of(cells@),
{
    let n = cells.len();
    let mut runs: Vec<Run> = Vec::new();
    let mut i: usize = 0;
    while i < n
        invariant
            n == cells@.len(),
            i <= n,
            runs@.map(|k: int, r: Run| r@) == runs_of(cells@.take(i as int)),
        decreases n - i,
    {
        let c = *slice_index_get(cells, i);
        assert(cells@.take(i + 1).drop_last() =~= cells@.take(i as int));
        assert(cells@.take(i + 1).last() == c);
        let ghost prev = runs@.map(|k: int, r: Run| r@);
        let mut extend = false;
        if runs.len() > 0 {
            let lp = runs[runs.len() - 1].pen;
            if lp == c.pen {
                extend = true;
            }
        }
        if extend {
            let ghost before = runs@;
            assert(prev.last() == before.last()@);
            assert(prev.last().pen == c.pen);
            let mut last = runs.pop().unwrap();
            push_char(&mut last.text, c.ch);
            runs.push(last);
            assert(runs@ =~= before.update(before.len() - 1, last));
            assert(last@.text =~= prev.last().text.push(c.ch));
            assert forall|k: int| 0 <= k < prev.len() implies runs@.map(|k2: int, r: Run| r@)[k]
                == runs_push(prev, i as int, c)[k] by {
                assert(runs@.map(|k2: int, r: Run| r@)[k] == runs@[k]@);
                if k < prev.len() - 1 {
                    assert(runs@[k] == before[k]);
                    assert(prev[k] == before[k]@);
                }
            }
            assert(runs@.map(|k: int, r: Run| r@) =~~= runs_push(prev, i as int, c));
        } else {
            let mut t = String::new();
            push_char(&mut t, c.ch);
            runs.push(Run { start_column: i, text: t, pen: c.pen });
            assert(runs@.map(|k: int, r: Run| r@) =~~= runs_push(prev, i as int, c));
        }
        i = i + 1;
    }
    assert(cells@.take(n as int) =~= cells@);
    runs
}

} // verus!
