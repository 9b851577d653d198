//! The narrow trusted interface to the `avt` terminal-emulation engine.  The
//! engine interprets escape sequences and owns the screen buffer; this core
//! only creates it, feeds it, resizes it, and captures its visible state as
//! plain values.  What the engine computes is never restated here: its
//! observables — geometry, cursor, visible cell grid — and its feed
//! transition are given uninterpreted names, functions of the engine value
//! alone, and the trusted contracts say only how each call relates them:
//! which geometry a build or resize establishes, that a feed advances the
//! state by exactly the text and keeps the geometry, and that a capture
//! reads exactly the named observables.  Verified code is then correct for
//! every value the engine may produce.
use vstd::prelude::*;

use crate::run::ScreenCell;
use crate::snapshot::Screen;
use crate::style::{CellColor, Pen};

verus! {

/// The opaque engine state of one terminal session.
#[verifier::external_type_specification]
#[verifier::external_body]
pub struct ExVt(avt::Vt);

/// The column count an engine value holds: `avt::Vt::size().0`, a function
/// of the engine value alone.
pub uninterp spec fn engine_cols(vt: avt::Vt) -> usize;

/// The visible row count an engine value holds: `avt::Vt::size().1`, a
/// function of the engine value alone.
pub uninterp spec fn engine_rows(vt: avt::Vt) -> usize;

/// The cursor an engine value holds, as `avt::Vt::cursor` reports it:
/// column, row, visibility.
pub uninterp spec fn engine_cursor(vt: avt::Vt) -> (usize, usize, bool);

/// The visible cell grid an engine value holds: one row per visible line of
/// `avt::Vt::view`, each cell read as a plain character and pen.
pub uninterp spec fn engine_grid(vt: avt::Vt) -> Seq<Seq<ScreenCell>>;

/// The engine state after interpreting a text: `avt::Vt::feed_str` computes
/// its new state from the prior state and the text alone — the engine holds
/// no clock, randomness or other ambient input on that path.
pub uninterp spec fn feed_step(vt: avt::Vt, s: Seq<char>) -> avt::Vt;

/// One opaque engine cell.
#[verifier::external_type_specification]
#[verifier::external_body]
pub struct ExAvtCell(avt::Cell);

/// One opaque engine color.
#[verifier::external_type_specification]
#[verifier::external_body]
pub struct ExAvtColor(avt::Color);

/// Relies on `avt::Vt::new`: builds a terminal of the given geometry, which
/// its terminal stores as its size, with every visible cell blank (a space
/// under the default pen) and the cursor visible at the origin.  The engine
/// indexes its margins from `rows - 1`, so it needs at least one row and one
/// column.
#[verifier::external_body]
pub(crate) fn vt_new(cols: usize, rows: usize) -> (vt: avt::Vt)
    requires
        1 <= cols,
        1 <= rows,
    ensures
        engine_cols(vt) == cols,
        engine_rows(vt) == rows,
        engine_cursor(vt) == (0usize, 0usize, true),
        engine_grid(vt) == crate::snapshot::blank_grid(cols, rows),
{
    avt::Vt::new(cols, rows)
}

/// Relies on `avt::Vt::feed_str`: interprets the text, advancing the engine
/// to the state that the prior state and the text determine.  It never
/// changes the geometry: the one resize escape sequence the engine knows is
/// compiled-in disabled.
#[verifier::external_body]
pub(crate) fn vt_feed(vt: &mut avt::Vt, s: &str)
    ensures
        *final(vt) == feed_step(*old(vt), s@),
        engine_cols(*final(vt)) == engine_cols(*old(vt)),
        engine_rows(*final(vt)) == engine_rows(*old(vt)),
{
    let _ = vt.feed_str(s);
}

/// Relies on `avt::Vt::resize`: changes the engine's geometry to exactly the
/// requested one, preserving content under the engine's own resize
/// semantics.
#[verifier::external_body]
pub(crate) fn vt_resize(vt: &mut avt::Vt, cols: usize, rows: usize)
    requires
        1 <= cols,
        1 <= rows,
    ensures
        engine_cols(*final(vt)) == cols,
        engine_rows(*final(vt)) == rows,
{
    let _ = vt.resize(cols, rows);
}

/// Relies on the accessors of `avt::Pen`: reads one engine color as a plain
/// value, one arm per variant.
#[verifier::external_body]
fn color_of(c: Option<avt::Color>) -> CellColor {
    match c {
        Option::None => CellColor::Unset,
        Option::Some(avt::Color::Indexed(i)) => CellColor::Indexed(i),
        Option::Some(avt::Color::RGB(v)) => CellColor::Rgb(v.r, v.g, v.b),
    }
}

/// Relies on `avt::Cell::char` and `avt::Cell::pen`: reads one engine cell
/// as plain values.
#[verifier::external_body]
fn cell_of(c: &avt::Cell) -> ScreenCell {
    let p = c.pen();
    ScreenCell {
        ch: c.char(),
        pen: Pen {
            foreground: color_of(p.foreground()),
            background: color_of(p.background()),
            bold: p.is_bold(),
            italic: p.is_italic(),
            underline: p.is_underline(),
            strikethrough: p.is_strikethrough(),
            blink: p.is_blink(),
            inverse: p.is_inverse(),
        },
    }
}

/// Relies on `avt::Vt::size`, `avt::Vt::cursor` and `avt::Vt::view`: captures
/// the visible screen at one instant as plain values.  The engine's view
/// yields exactly one line per visible row (its buffer keeps that many lines
/// past the scrollback), so the captured grid holds one row per reported
/// row: the capture is well formed.
#[verifier::external_body]
pub(crate) fn read_screen(vt: &avt::Vt) -> (s: Screen)
    ensures
        s.wf(),
        s.cols == engine_cols(*vt),
        s.rows == engine_rows(*vt),
        (s.cursor_col, s.cursor_row, s.cursor_visible) == engine_cursor(*vt),
        crate::snapshot::grid_view(&s) == engine_grid(*vt),
{
    let (cols, rows) = vt.size();
    let c = vt.cursor();
    Screen {
        cols,
        rows,
        cursor_col: c.col,
        cursor_row: c.row,
        cursor_visible: c.visible,
        grid: vt.view().map(|l| l.cells().iter().map(cell_of).collect()).collect(),
    }
}

} // verus!
