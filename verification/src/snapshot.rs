//! Serialization of the complete screen state — geometry, cursor, and every
//! visible row as run-length-encoded styled text — into one self-contained
//! byte buffer, and the companion decoder.
//!
//! Layout, with every integer a varint: `columns, rows, cursorColumn,
//! cursorRow, cursorVisible:u8(0|1)`, then for each row its run count
//! followed by its runs, each run `startColumn, textByteLength, pen,
//! textBytes`.  Rows are encoded with their trailing blank cells trimmed, so
//! an untouched row encodes as zero runs.
use vstd::prelude::*;

use crate::run::{
    encode_runs, lemma_runs_of_invariant, runs_of, trim_row, trimmed, ScreenCell, Run, RunView,
};
use crate::style::{encode_pen, lemma_pen_parse_embedded, parse_pen, pen_bytes};
use crate::text::string_from_utf8;
use crate::varint::{
    decode_varint, encode_varint, lemma_varint_parse_embedded, parse_varint, varint_bytes,
};
use crate::DecodeError;
use vstd::slice::{slice_subrange, slice_to_vec};
use vstd::utf8::{decode_utf8, encode_utf8, valid_utf8};

verus! {

/// The visible state of one terminal screen, as plain values: geometry,
/// cursor, and a grid of cells read from the emulation engine at one instant.
pub struct Screen {
    pub cols: usize,
    pub rows: usize,
    pub cursor_col: usize,
    pub cursor_row: usize,
    pub cursor_visible: bool,
    pub grid: Vec<Vec<ScreenCell>>,
}

impl Screen {
    /// A screen is well formed when it holds one grid row per visible row.
    pub open spec fn wf(&self) -> bool {
        self.grid@.len() == self.rows as int
    }
}

/// One byte holding a boolean.
pub open spec fn bool_byte(b: bool) -> u8 {
    if b {
        1u8
    } else {
        0u8
    }
}

/// The runs a row is encoded as: the run decomposition of the row with its
/// trailing blank cells trimmed.
pub open spec fn row_runs(cells: Seq<ScreenCell>) -> Seq<RunView> {
    runs_of(trimmed(cells))
}

/// The encoding of one run: start column, byte length of the UTF-8 text, pen,
/// text bytes.
pub open spec fn run_bytes(r: RunView) -> Seq<u8> {
    varint_bytes(r.start as nat) + varint_bytes(encode_utf8(r.text).len() as nat) + pen_bytes(r.pen)
        + encode_utf8(r.text)
}

/// The concatenated encodings of a run sequence.
pub open spec fn runs_bytes(rs: Seq<RunView>) -> Seq<u8>
    decreases rs.len(),
{
    if rs.len() == 0 {
        Seq::empty()
    } else {
        run_bytes(rs[0]) + runs_bytes(rs.drop_first())
    }
}

/// The encoding of one row: its run count, then its runs.
pub open spec fn row_bytes(rs: Seq<RunView>) -> Seq<u8> {
    varint_bytes(rs.len()) + runs_bytes(rs)
}

/// The concatenated encodings of all rows of a grid.
pub open spec fn grid_bytes(g: Seq<Seq<ScreenCell>>) -> Seq<u8>
    decreases g.len(),
{
    if g.len() == 0 {
        Seq::empty()
    } else {
        row_bytes(row_runs(g[0])) + grid_bytes(g.drop_first())
    }
}

/// The grid of a screen as a sequence of cell rows.
pub open spec fn grid_view(s: &Screen) -> Seq<Seq<ScreenCell>> {
    s.grid@.map(|i: int, row: Vec<ScreenCell>| row@)
}

/// A grid of the given geometry holding only blank cells.
pub open spec fn blank_grid(cols: usize, rows: usize) -> Seq<Seq<ScreenCell>> {
    Seq::new(rows as nat, |i: int| Seq::new(cols as nat, |j: int| crate::run::blank_cell()))
}

/// The full snapshot encoding of a screen given as its parts.
pub open spec fn snapshot_bytes_parts(
    cols: usize,
    rows: usize,
    cursor_col: usize,
    cursor_row: usize,
    cursor_visible: bool,
    g: Seq<Seq<ScreenCell>>,
) -> Seq<u8> {
    varint_bytes(cols as nat) + varint_bytes(rows as nat) + varint_bytes(cursor_col as nat)
        + varint_bytes(cursor_row as nat) + seq![bool_byte(cursor_visible)] + grid_bytes(g)
}

/// The full snapshot encoding of a screen.
pub open spec fn snapshot_bytes(s: &Screen) -> Seq<u8> {
    snapshot_bytes_parts(s.cols, s.rows, s.cursor_col, s.cursor_row, s.cursor_visible, grid_view(s))
}

/// Appending one run to a run sequence appends its encoding.
pub proof fn lemma_runs_bytes_append(rs: Seq<RunView>, r: RunView)
    ensures
        runs_bytes(rs.push(r)) == runs_bytes(rs) + run_bytes(r),
    decreases rs.len(),
{
    reveal_with_fuel(runs_bytes, 3);
    if rs.len() == 0 {
        assert(rs.push(r)[0] == r);
        assert(rs.push(r).drop_first() =~= Seq::<RunView>::empty());
        assert(runs_bytes(rs.push(r)) =~= runs_bytes(rs) + run_bytes(r));
    } else {
        assert(rs.push(r)[0] == rs[0]);
        assert(rs.push(r).drop_first() =~= rs.drop_first().push(r));
        lemma_runs_bytes_append(rs.drop_first(), r);
        assert(runs_bytes(rs.push(r)) =~= run_bytes(rs[0]) + (runs_bytes(rs.drop_first()) + run_bytes(r)));
        assert(runs_bytes(rs.push(r)) =~= runs_bytes(rs) + run_bytes(r));
    }
}

/// Appending one row to a grid appends its encoding.
pub proof fn lemma_grid_bytes_append(g: Seq<Seq<ScreenCell>>, row: Seq<ScreenCell>)
    ensures
        grid_bytes(g.push(row)) == grid_bytes(g) + row_bytes(row_runs(row)),
    decreases g.len(),
{
    reveal_with_fuel(grid_bytes, 3);
    if g.len() == 0 {
        assert(g.push(row)[0] == row);
        assert(g.push(row).drop_first() =~= Seq::<Seq<ScreenCell>>::empty());
        assert(grid_bytes(g.push(row)) =~= grid_bytes(g) + row_bytes(row_runs(row)));
    } else {
        assert(g.push(row)[0] == g[0]);
        assert(g.push(row).drop_first() =~= g.drop_first().push(row));
        lemma_grid_bytes_append(g.drop_first(), row);
        assert(grid_bytes(g.push(row)) =~= row_bytes(row_runs(g[0])) + (grid_bytes(g.drop_first()) + row_bytes(row_runs(row))));
        assert(grid_bytes(g.push(row)) =~= grid_bytes(g) + row_bytes(row_runs(row)));
    }
}

/// Serializes one run into `out`.
fn encode_run(r: &Run, out: &mut Vec<u8>)
    ensures
        final(out)@ == old(out)@ + run_bytes(r@),
{
    encode_varint(r.start_column, out);
    let tb = r.text.as_str().as_bytes();
    encode_varint(tb.len(), out);
    encode_pen(&r.pen, out);
    out.extend_from_slice(tb);
    assert(out@ =~= old(out)@ + run_bytes(r@));
}

/// The snapshot encoder: serializes the complete screen state into one byte
/// buffer, exactly as `snapshot_bytes` describes.
pub fn encode_snapshot(s: &Screen) -> (out: Vec<u8>)
    requires
        s.wf(),
    ensures
        out@ == snapshot_bytes(s),
{
    let mut out: Vec<u8> = Vec::new();
    encode_varint(s.cols, &mut out);
    encode_varint(s.rows, &mut out);
    encode_varint(s.cursor_col, &mut out);
    encode_varint(s.cursor_row, &mut out);
    if s.cursor_visible {
        out.push(1);
    } else {
        out.push(0);
    }
    let ghost header = out@;
    assert(header =~= snapshot_bytes(s).subrange(0, header.len() as int)) by {
        assert(snapshot_bytes(s) =~= header + grid_bytes(grid_view(s)));
    }
    let mut r: usize = 0;
    while r < s.grid.len()
        invariant
            s.wf(),
            r <= s.grid@.len(),
            out@ == header + grid_bytes(grid_view(s).take(r as int)),
        decreases s.grid@.len() - r,
    {
        let ghost gv = grid_view(s);
        let row = trim_row(s.grid[r].as_slice());
        let runs = encode_runs(row.as_slice());
        let ghost rsv = runs@.map(|k: int, rn: Run| rn@);
        assert(rsv == row_runs(gv[r as int]));
        let ghost out_pre = out@;
        encode_varint(runs.len(), &mut out);
        let mut k: usize = 0;
        while k < runs.len()
            invariant
                k <= runs@.len(),
                rsv == runs@.map(|k2: int, rn: Run| rn@),
                out@ == out_pre + varint_bytes(rsv.len() as nat) + runs_bytes(rsv.take(k as int)),
            decreases runs@.len() - k,
        {
            assert(runs@[k as int]@ == rsv[k as int]);
            encode_run(&runs[k], &mut out);
            proof {
                lemma_runs_bytes_append(rsv.take(k as int), rsv[k as int]);
                assert(rsv.take(k + 1) =~= rsv.take(k as int).push(rsv[k as int]));
            }
            k = k + 1;
        }
        proof {
            assert(rsv.take(rsv.len() as int) =~= rsv);
            lemma_grid_bytes_append(gv.take(r as int), gv[r as int]);
            assert(gv.take(r + 1) =~= gv.take(r as int).push(gv[r as int]));
            assert(out@ =~= header + grid_bytes(gv.take(r + 1)));
        }
        r = r + 1;
    }
    assert(grid_view(s).take(grid_view(s).len() as int) =~= grid_view(s));
    assert(out@ =~= snapshot_bytes(s));
    out
}

/// Parse of one varint bounded by the platform's addressable size, as every
/// size and column in the format is.
pub open spec fn parse_size(b: Seq<u8>, i: int) -> Result<(usize, int), DecodeError> {
    match parse_varint(b, i) {
        Option::None => Err(DecodeError::MalformedInput),
        Option::Some(p) => if p.0 > usize::MAX as nat {
            Err(DecodeError::MalformedInput)
        } else {
            Ok((p.0 as usize, p.1))
        },
    }
}

/// Total parse of one run at position `i`.
pub open spec fn parse_run(b: Seq<u8>, i: int) -> Result<(RunView, int), DecodeError> {
    match parse_size(b, i) {
        Err(e) => Err(e),
        Ok((start, j)) => match parse_size(b, j) {
            Err(e) => Err(e),
            Ok((blen, k)) => match parse_pen(b, k) {
                Err(e) => Err(e),
                Ok((pen, m)) => if m + blen <= b.len() && valid_utf8(
                    b.subrange(m, m + blen as int),
                ) {
                    Ok(
                        (
                            RunView {
                                start: start as int,
                                text: decode_utf8(b.subrange(m, m + blen as int)),
                                pen,
                            },
                            m + blen as int,
                        ),
                    )
                } else {
                    Err(DecodeError::MalformedInput)
                },
            },
        },
    }
}

/// Total parse of `k` runs whose start columns must ascend strictly, each
/// past `after`: the format rejects out-of-order runs.
pub open spec fn parse_runs(b: Seq<u8>, i: int, k: nat, after: int) -> Result<
    (Seq<RunView>, int),
    DecodeError,
>
    decreases k,
{
    if k == 0 {
        Ok((Seq::empty(), i))
    } else {
        match parse_run(b, i) {
            Err(e) => Err(e),
            Ok((r, j)) => if r.start > after {
                match parse_runs(b, j, (k - 1) as nat, r.start) {
                    Err(e) => Err(e),
                    Ok((rest, m)) => Ok((seq![r] + rest, m)),
                }
            } else {
                Err(DecodeError::MalformedInput)
            },
        }
    }
}

/// Total parse of one row: its run count, then its runs in ascending order.
pub open spec fn parse_row(b: Seq<u8>, i: int) -> Result<(Seq<RunView>, int), DecodeError> {
    match parse_size(b, i) {
        Err(e) => Err(e),
        Ok((cnt, j)) => parse_runs(b, j, cnt as nat, -1),
    }
}

/// Total parse of `k` encoded rows.
pub open spec fn parse_grid(b: Seq<u8>, i: int, k: nat) -> Result<
    (Seq<Seq<RunView>>, int),
    DecodeError,
>
    decreases k,
{
    if k == 0 {
        Ok((Seq::empty(), i))
    } else {
        match parse_row(b, i) {
            Err(e) => Err(e),
            Ok((row, j)) => match parse_grid(b, j, (k - 1) as nat) {
                Err(e) => Err(e),
                Ok((rest, m)) => Ok((seq![row] + rest, m)),
            },
        }
    }
}

/// The mathematical value of a decoded snapshot.
pub struct SnapshotView {
    pub cols: usize,
    pub rows: usize,
    pub cursor_col: usize,
    pub cursor_row: usize,
    pub cursor_visible: bool,
    pub rows_runs: Seq<Seq<RunView>>,
}

/// Total parse of a complete snapshot buffer; trailing bytes are a format
/// violation.
pub open spec fn parse_snapshot(b: Seq<u8>) -> Result<SnapshotView, DecodeError> {
    match parse_size(b, 0) {
        Err(e) => Err(e),
        Ok((cols, i1)) => match parse_size(b, i1) {
            Err(e) => Err(e),
            Ok((rows, i2)) => match parse_size(b, i2) {
                Err(e) => Err(e),
                Ok((cc, i3)) => match parse_size(b, i3) {
                    Err(e) => Err(e),
                    Ok((cr, i4)) => if i4 < b.len() && b[i4] <= 1 {
                        match parse_grid(b, i4 + 1, rows as nat) {
                            Err(e) => Err(e),
                            Ok((g, m)) => if m == b.len() {
                                Ok(
                                    SnapshotView {
                                        cols,
                                        rows,
                                        cursor_col: cc,
                                        cursor_row: cr,
                                        cursor_visible: b[i4] == 1,
                                        rows_runs: g,
                                    },
                                )
                            } else {
                                Err(DecodeError::MalformedInput)
                            },
                        }
                    } else {
                        Err(DecodeError::MalformedInput)
                    },
                },
            },
        },
    }
}

/// A decoded snapshot: geometry, cursor, and each row's runs.
#[derive(Debug, Clone, PartialEq)]
pub struct Snapshot {
    pub cols: usize,
    pub rows: usize,
    pub cursor_col: usize,
    pub cursor_row: usize,
    pub cursor_visible: bool,
    pub rows_runs: Vec<Vec<Run>>,
}

impl View for Snapshot {
    type V = SnapshotView;

    open spec fn view(&self) -> SnapshotView {
        SnapshotView {
            cols: self.cols,
            rows: self.rows,
            cursor_col: self.cursor_col,
            cursor_row: self.cursor_row,
            cursor_visible: self.cursor_visible,
            rows_runs: self.rows_runs@.map(|i: int, v: Vec<Run>| v@.map(|j: int, r: Run| r@)),
        }
    }
}

/// Decodes one size-bounded varint, exactly as the spec parse does.
pub fn decode_size(b: &[u8], i: usize) -> (r: Result<(usize, usize), DecodeError>)
    ensures
        match r {
            Ok(p) => parse_size(b@, i as int) == Ok::<_, DecodeError>((p.0, p.1 as int)),
            Err(e) => parse_size(b@, i as int) == Err::<(usize, int), _>(e),
        },
{
    decode_varint(b, i)
}

/// Decodes one run at position `i`, exactly as the spec parse does.
pub fn decode_run(b: &[u8], i: usize) -> (r: Result<(Run, usize), DecodeError>)
    ensures
        match r {
            Ok(p) => parse_run(b@, i as int) == Ok::<_, DecodeError>((p.0@, p.1 as int)),
            Err(e) => parse_run(b@, i as int) == Err::<(RunView, int), _>(e),
        },
{
    let (start, j) = match decode_size(b, i) {
        Ok(p) => p,
        Err(e) => {
            return Err(e);
        },
    };
    let (blen, k) = match decode_size(b, j) {
        Ok(p) => p,
        Err(e) => {
            return Err(e);
        },
    };
    let (pen, m) = match crate::style::decode_pen(b, k) {
        Ok(p) => p,
        Err(e) => {
            return Err(e);
        },
    };
    assert(m <= b@.len());
    if blen <= b.len() - m {
        let tb = slice_subrange(b, m, m + blen);
        let tv = slice_to_vec(tb);
        assert(tv@ == b@.subrange(m as int, m + blen as int));
        match string_from_utf8(tv) {
            Option::Some(text) => {
                proof {
                    vstd::utf8::encode_utf8_decode_utf8(text@);
                }
                Ok((Run { start_column: start, text, pen }, m + blen))
            },
            Option::None => Err(DecodeError::MalformedInput),
        }
    } else {
        Err(DecodeError::MalformedInput)
    }
}

/// Decodes one row at position `i`, exactly as the spec parse does.
pub fn decode_row(b: &[u8], i: usize) -> (res: Result<(Vec<Run>, usize), DecodeError>)
    ensures
        match res {
            Ok(p) => parse_row(b@, i as int) == Ok::<_, DecodeError>(
                (p.0@.map(|q: int, rn: Run| rn@), p.1 as int),
            ),
            Err(e) => parse_row(b@, i as int) == Err::<(Seq<RunView>, int), _>(e),
        },
{
    let (cnt, j0) = match decode_size(b, i) {
        Ok(p) => p,
        Err(e) => {
            return Err(e);
        },
    };
    let mut acc: Vec<Run> = Vec::new();
    let mut pos: usize = j0;
    let mut t: usize = 0;
    while t < cnt
        invariant
            t <= cnt,
            acc@.len() == t as int,
            parse_size(b@, i as int) == Ok::<_, DecodeError>((cnt, j0 as int)),
            ({
                let accv = acc@.map(|q: int, rn: Run| rn@);
                let aft: int = if t == 0 {
                    -1int
                } else {
                    accv.last().start
                };
                match parse_runs(b@, pos as int, (cnt - t) as nat, aft) {
                    Ok(p) => parse_runs(b@, j0 as int, cnt as nat, -1) == Ok::<_, DecodeError>(
                        (accv + p.0, p.1),
                    ),
                    Err(e) => parse_runs(b@, j0 as int, cnt as nat, -1) == Err::<
                        (Seq<RunView>, int),
                        _,
                    >(e),
                }
            }),
        decreases cnt - t,
    {
        let ghost accv = acc@.map(|q: int, rn: Run| rn@);
        let ghost aft: int = if t == 0 {
            -1int
        } else {
            accv.last().start
        };
        let (rn, np) = match decode_run(b, pos) {
            Ok(p) => p,
            Err(e) => {
                return Err(e);
            },
        };
        let mut in_order = true;
        if t > 0 {
            proof {
                assert(accv.last() == acc@.last()@);
            }
            if rn.start_column <= acc[acc.len() - 1].start_column {
                in_order = false;
            }
        }
        if !in_order {
            return Err(DecodeError::MalformedInput);
        }
        let ghost rv = rn@;
        acc.push(rn);
        pos = np;
        t = t + 1;
        proof {
            let accv2 = acc@.map(|q: int, rn2: Run| rn2@);
            assert(accv2 =~= accv.push(rv));
            assert(accv2.last() == rv);
            match parse_runs(b@, pos as int, (cnt - t) as nat, rv.start) {
                Ok(p) => {
                    assert(accv + (seq![rv] + p.0) =~= accv2 + p.0);
                },
                Err(e) => {},
            }
        }
    }
    proof {
        let accv = acc@.map(|q: int, rn: Run| rn@);
        assert(accv + Seq::<RunView>::empty() =~= accv);
    }
    Ok((acc, pos))
}

/// The snapshot decoder: recovers the geometry, cursor state and per-row runs
/// of a snapshot buffer, exactly as the spec parse does; it never reads out
/// of bounds and surfaces malformed input as an error.
pub fn decode_snapshot(b: &[u8]) -> (res: Result<Snapshot, DecodeError>)
    ensures
        match res {
            Ok(s) => parse_snapshot(b@) == Ok::<_, DecodeError>(s@),
            Err(e) => parse_snapshot(b@) == Err::<SnapshotView, _>(e),
        },
{
    let (cols, i1) = match decode_size(b, 0) {
        Ok(p) => p,
        Err(e) => {
            return Err(e);
        },
    };
    let (rows, i2) = match decode_size(b, i1) {
        Ok(p) => p,
        Err(e) => {
            return Err(e);
        },
    };
    let (cc, i3) = match decode_size(b, i2) {
        Ok(p) => p,
        Err(e) => {
            return Err(e);
        },
    };
    let (cr, i4) = match decode_size(b, i3) {
        Ok(p) => p,
        Err(e) => {
            return Err(e);
        },
    };
    if i4 >= b.len() {
        return Err(DecodeError::MalformedInput);
    }
    let visb = b[i4];
    if visb > 1 {
        return Err(DecodeError::MalformedInput);
    }
    let vis = visb == 1;
    let mut g: Vec<Vec<Run>> = Vec::new();
    let mut pos: usize = i4 + 1;
    let mut t: usize = 0;
    while t < rows
        invariant
            t <= rows,
            g@.len() == t as int,
            parse_size(b@, 0) == Ok::<_, DecodeError>((cols, i1 as int)),
            parse_size(b@, i1 as int) == Ok::<_, DecodeError>((rows, i2 as int)),
            parse_size(b@, i2 as int) == Ok::<_, DecodeError>((cc, i3 as int)),
            parse_size(b@, i3 as int) == Ok::<_, DecodeError>((cr, i4 as int)),
            i4 < b@.len(),
            b@[i4 as int] <= 1,
            vis == (b@[i4 as int] == 1),
            ({
                let gv = g@.map(|q: int, v: Vec<Run>| v@.map(|w: int, rn: Run| rn@));
                match parse_grid(b@, pos as int, (rows - t) as nat) {
                    Ok(p) => parse_grid(b@, i4 + 1, rows as nat) == Ok::<_, DecodeError>(
                        (gv + p.0, p.1),
                    ),
                    Err(e) => parse_grid(b@, i4 + 1, rows as nat) == Err::<
                        (Seq<Seq<RunView>>, int),
                        _,
                    >(e),
                }
            }),
        decreases rows - t,
    {
        let ghost gv = g@.map(|q: int, v: Vec<Run>| v@.map(|w: int, rn: Run| rn@));
        let (row, np) = match decode_row(b, pos) {
            Ok(p) => p,
            Err(e) => {
                return Err(e);
            },
        };
        let ghost rowv = row@.map(|w: int, rn: Run| rn@);
        g.push(row);
        pos = np;
        t = t + 1;
        proof {
            let gv2 = g@.map(|q: int, v: Vec<Run>| v@.map(|w: int, rn: Run| rn@));
            assert(gv2 =~~= gv.push(rowv));
            match parse_grid(b@, pos as int, (rows - t) as nat) {
                Ok(p) => {
                    assert(gv + (seq![rowv] + p.0) =~~= gv2 + p.0);
                },
                Err(e) => {},
            }
        }
    }
    if pos != b.len() {
        return Err(DecodeError::MalformedInput);
    }
    let s = Snapshot { cols, rows, cursor_col: cc, cursor_row: cr, cursor_visible: vis, rows_runs: g };
    proof {
        let gv = s.rows_runs@.map(|q: int, v: Vec<Run>| v@.map(|w: int, rn: Run| rn@));
        assert(gv + Seq::<Seq<RunView>>::empty() =~~= gv);
        assert(s@.rows_runs =~~= gv);
    }
    Ok(s)
}

/// A part embedded inside an embedded encoding is itself embedded.
pub(crate) proof fn lemma_embed_part(b: Seq<u8>, i: int, e: Seq<u8>, off: int, part: Seq<u8>)
    requires
        0 <= i,
        i + e.len() <= b.len(),
        b.subrange(i, i + e.len() as int) == e,
        0 <= off,
        off + part.len() <= e.len(),
        forall|k: int| 0 <= k < part.len() ==> e[off + k] == part[k],
    ensures
        b.subrange(i + off, i + off + part.len() as int) == part,
{
    assert forall|k: int| 0 <= k < part.len() implies b.subrange(
        i + off,
        i + off + part.len() as int,
    )[k] == part[k] by {
        assert(b.subrange(i, i + e.len() as int)[off + k] == b[i + off + k]);
    }
    assert(b.subrange(i + off, i + off + part.len() as int) =~= part);
}

/// UTF-8 spends at most four bytes per character.
pub proof fn lemma_utf8_len(chars: Seq<char>)
    ensures
        encode_utf8(chars).len() <= 4 * chars.len(),
    decreases chars.len(),
{
    if chars.len() > 0 {
        lemma_utf8_len(chars.drop_first());
        assert(vstd::utf8::encode_scalar(chars[0] as u32).len() <= 4);
    }
}

/// The trimmed row is never longer than the row.
pub proof fn lemma_trimmed_len(cells: Seq<ScreenCell>)
    ensures
        trimmed(cells).len() <= cells.len(),
    decreases cells.len(),
{
    if cells.len() > 0 && crate::run::is_blank_cell(cells.last()) {
        lemma_trimmed_len(cells.drop_last());
    }
}

/// Parsing at a position where the encoding of a size `n` is embedded
/// recovers `n`.
pub proof fn lemma_size_parse_embedded(b: Seq<u8>, i: int, n: nat)
    requires
        0 <= i,
        n <= usize::MAX as nat,
        i + varint_bytes(n).len() <= b.len(),
        b.subrange(i, i + varint_bytes(n).len() as int) == varint_bytes(n),
    ensures
        parse_size(b, i) == Ok::<_, DecodeError>((n as usize, i + varint_bytes(n).len())),
{
    lemma_varint_parse_embedded(b, i, n);
}

/// Parsing at a position where the encoding of run `r` is embedded recovers
/// `r` exactly.
pub proof fn lemma_run_parse_embedded(b: Seq<u8>, i: int, r: RunView)
    requires
        0 <= i,
        0 <= r.start <= usize::MAX as int,
        encode_utf8(r.text).len() <= usize::MAX as int,
        i + run_bytes(r).len() <= b.len(),
        b.subrange(i, i + run_bytes(r).len() as int) == run_bytes(r),
    ensures
        parse_run(b, i) == Ok::<_, DecodeError>((r, i + run_bytes(r).len())),
{
    let v1 = varint_bytes(r.start as nat);
    let v2 = varint_bytes(encode_utf8(r.text).len() as nat);
    let pb = pen_bytes(r.pen);
    let tb = encode_utf8(r.text);
    let e = run_bytes(r);
    let l1 = v1.len() as int;
    let l2 = v2.len() as int;
    let l3 = pb.len() as int;
    let l4 = tb.len() as int;
    assert(e == v1 + v2 + pb + tb);
    assert(e.len() == l1 + l2 + l3 + l4);
    assert forall|k: int| 0 <= k < l1 implies e[0 + k] == v1[k] by {
        assert(((v1 + v2) + pb)[k] == (v1 + v2)[k]);
        assert((v1 + v2)[k] == v1[k]);
    }
    lemma_embed_part(b, i, e, 0, v1);
    lemma_size_parse_embedded(b, i, r.start as nat);
    let j = i + l1;
    assert forall|k: int| 0 <= k < l2 implies e[l1 + k] == v2[k] by {
        assert(((v1 + v2) + pb)[l1 + k] == (v1 + v2)[l1 + k]);
        assert((v1 + v2)[l1 + k] == v2[k]);
    }
    lemma_embed_part(b, i, e, l1, v2);
    lemma_size_parse_embedded(b, j, tb.len() as nat);
    let m0 = j + l2;
    assert forall|k: int| 0 <= k < l3 implies e[(l1 + l2) + k] == pb[k] by {
        assert(((v1 + v2) + pb)[l1 + l2 + k] == pb[k]);
    }
    lemma_embed_part(b, i, e, l1 + l2, pb);
    lemma_pen_parse_embedded(b, m0, r.pen);
    let m = m0 + l3;
    assert forall|k: int| 0 <= k < l4 implies e[(l1 + l2 + l3) + k] == tb[k] by {
    }
    lemma_embed_part(b, i, e, l1 + l2 + l3, tb);
    assert(b.subrange(m, m + l4) == tb);
    vstd::utf8::encode_utf8_valid_utf8(r.text);
    vstd::utf8::encode_utf8_decode_utf8(r.text);
    assert(m + l4 <= b.len());
}

/// Every run of a contiguous tiling sits at or past its own index, and its
/// span stays within the span of the last run.
proof fn lemma_runs_window(rs: Seq<RunView>)
    requires
        forall|q: int| 0 <= q < rs.len() ==> (#[trigger] rs[q]).text.len() >= 1,
        rs.len() > 0 ==> rs[0].start == 0,
        forall|q: int|
            0 <= q < rs.len() - 1 ==> rs[q + 1].start == (#[trigger] rs[q]).start
                + rs[q].text.len(),
    ensures
        forall|q: int| 0 <= q < rs.len() ==> q <= (#[trigger] rs[q]).start,
        forall|q: int|
            0 <= q < rs.len() ==> (#[trigger] rs[q]).start + rs[q].text.len() <= rs.last().start
                + rs.last().text.len(),
    decreases rs.len(),
{
    if rs.len() > 1 {
        let pre = rs.drop_last();
        assert forall|q: int| 0 <= q < pre.len() implies (#[trigger] pre[q]) == rs[q] by {}
        lemma_runs_window(pre);
        assert(rs.last().start == pre.last().start + pre.last().text.len());
        assert forall|q: int| 0 <= q < rs.len() implies q <= (#[trigger] rs[q]).start by {
            if q < rs.len() - 1 {
                assert(pre[q] == rs[q]);
            } else {
                assert(pre.len() - 1 <= pre.last().start);
            }
        }
        assert forall|q: int| 0 <= q < rs.len() implies (#[trigger] rs[q]).start + rs[q].text.len()
            <= rs.last().start + rs.last().text.len() by {
            if q < rs.len() - 1 {
                assert(pre[q] == rs[q]);
                assert(rs[q].start + rs[q].text.len() <= pre.last().start + pre.last().text.len());
            }
        }
    }
}

/// Parsing at a position where the encodings of strictly ascending runs are
/// embedded recovers exactly those runs.
#[verifier::rlimit(100)]
#[verifier::spinoff_prover]
pub proof fn lemma_runs_parse_embedded(b: Seq<u8>, i: int, rs: Seq<RunView>, after: int)
    requires
        0 <= i,
        i + runs_bytes(rs).len() <= b.len(),
        b.subrange(i, i + runs_bytes(rs).len() as int) == runs_bytes(rs),
        forall|q: int|
            0 <= q < rs.len() ==> 0 <= (#[trigger] rs[q]).start <= usize::MAX as int
                && encode_utf8(rs[q].text).len() <= usize::MAX as int,
        forall|q: int| 0 <= q < rs.len() - 1 ==> (#[trigger] rs[q]).start < rs[q + 1].start,
        rs.len() > 0 ==> after < rs[0].start,
    ensures
        parse_runs(b, i, rs.len() as nat, after) == Ok::<_, DecodeError>(
            (rs, i + runs_bytes(rs).len()),
        ),
    decreases rs.len(),
{
    if rs.len() == 0 {
        assert(rs =~= Seq::<RunView>::empty());
        assert(i + runs_bytes(rs).len() == i);
    } else {
        let e = runs_bytes(rs);
        let e0 = run_bytes(rs[0]);
        let erest = runs_bytes(rs.drop_first());
        assert(e == e0 + erest);
        assert forall|k: int| 0 <= k < e0.len() implies e[0 + k] == e0[k] by {}
        lemma_embed_part(b, i, e, 0, e0);
        lemma_run_parse_embedded(b, i, rs[0]);
        let j = i + e0.len();
        assert forall|k: int| 0 <= k < erest.len() implies e[e0.len() + k] == erest[k] by {}
        lemma_embed_part(b, i, e, e0.len() as int, erest);
        let tail = rs.drop_first();
        assert forall|q: int| 0 <= q < tail.len() implies (#[trigger] tail[q]) == rs[q + 1] by {}
        if tail.len() > 0 {
            assert(rs[0].start < rs[1].start);
        }
        lemma_runs_parse_embedded(b, j, tail, rs[0].start);
        assert((rs.len() - 1) as nat == tail.len() as nat);
        assert(parse_runs(b, j, (rs.len() - 1) as nat, rs[0].start) == Ok::<_, DecodeError>(
            (tail, j + erest.len()),
        ));
        assert(seq![rs[0]] + tail =~= rs);
        assert(e.len() == e0.len() + erest.len());
        assert(parse_run(b, i) == Ok::<_, DecodeError>((rs[0], j)));
        assert(rs[0].start > after);
        assert(parse_runs(b, i, rs.len() as nat, after) == Ok::<_, DecodeError>(
            (seq![rs[0]] + tail, j + erest.len()),
        ));
    }
}

/// Parsing at a position where the encoding of a row is embedded recovers
/// exactly the row's runs.
#[verifier::rlimit(100)]
pub proof fn lemma_row_parse_embedded(b: Seq<u8>, i: int, cells: Seq<ScreenCell>)
    requires
        0 <= i,
        4 * cells.len() + 4 <= usize::MAX as int,
        i + row_bytes(row_runs(cells)).len() <= b.len(),
        b.subrange(i, i + row_bytes(row_runs(cells)).len() as int) == row_bytes(row_runs(cells)),
    ensures
        parse_row(b, i) == Ok::<_, DecodeError>(
            (row_runs(cells), i + row_bytes(row_runs(cells)).len()),
        ),
{
    let tc = trimmed(cells);
    let rs = row_runs(cells);
    lemma_trimmed_len(cells);
    lemma_runs_of_invariant(tc);
    lemma_runs_window(rs);
    assert forall|q: int|
        0 <= q < rs.len() implies 0 <= (#[trigger] rs[q]).start <= usize::MAX as int
        && encode_utf8(rs[q].text).len() <= usize::MAX as int by {
        assert(rs[q].start + rs[q].text.len() <= rs.last().start + rs.last().text.len());
        assert(rs.last().start + rs.last().text.len() == tc.len());
        lemma_utf8_len(rs[q].text);
    }
    assert forall|q: int| 0 <= q < rs.len() - 1 implies (#[trigger] rs[q]).start < rs[q
        + 1].start by {
        assert(rs[q + 1].start == rs[q].start + rs[q].text.len());
        assert(rs[q].text.len() >= 1);
    }
    if rs.len() > 0 {
        assert(rs.len() - 1 <= rs.last().start);
        assert(rs.last().start + rs.last().text.len() == tc.len());
    }
    assert(rs.len() <= usize::MAX as int);
    let vc = varint_bytes(rs.len() as nat);
    let rb = runs_bytes(rs);
    let e = row_bytes(rs);
    assert(e == vc + rb);
    assert forall|k: int| 0 <= k < vc.len() implies e[0 + k] == vc[k] by {}
    lemma_embed_part(b, i, e, 0, vc);
    lemma_size_parse_embedded(b, i, rs.len() as nat);
    let j = i + vc.len();
    assert forall|k: int| 0 <= k < rb.len() implies e[vc.len() + k] == rb[k] by {}
    lemma_embed_part(b, i, e, vc.len() as int, rb);
    if rs.len() > 0 {
        assert(-1 < rs[0].start);
    }
    lemma_runs_parse_embedded(b, j, rs, -1);
}

/// Parsing at a position where the encoding of a grid is embedded recovers
/// exactly each row's runs.
pub proof fn lemma_grid_parse_embedded(b: Seq<u8>, i: int, g: Seq<Seq<ScreenCell>>)
    requires
        0 <= i,
        i + grid_bytes(g).len() <= b.len(),
        b.subrange(i, i + grid_bytes(g).len() as int) == grid_bytes(g),
        forall|q: int| 0 <= q < g.len() ==> 4 * (#[trigger] g[q]).len() + 4 <= usize::MAX as int,
    ensures
        parse_grid(b, i, g.len() as nat) == Ok::<_, DecodeError>(
            (g.map(|q: int, row: Seq<ScreenCell>| row_runs(row)), i + grid_bytes(g).len()),
        ),
    decreases g.len(),
{
    let res = g.map(|q: int, row: Seq<ScreenCell>| row_runs(row));
    if g.len() == 0 {
        assert(res =~~= Seq::<Seq<RunView>>::empty());
    } else {
        let e = grid_bytes(g);
        let e0 = row_bytes(row_runs(g[0]));
        let erest = grid_bytes(g.drop_first());
        assert(e == e0 + erest);
        assert forall|k: int| 0 <= k < e0.len() implies e[0 + k] == e0[k] by {}
        lemma_embed_part(b, i, e, 0, e0);
        lemma_row_parse_embedded(b, i, g[0]);
        let j = i + e0.len();
        assert forall|k: int| 0 <= k < erest.len() implies e[e0.len() + k] == erest[k] by {}
        lemma_embed_part(b, i, e, e0.len() as int, erest);
        let tail = g.drop_first();
        assert forall|q: int| 0 <= q < tail.len() implies (#[trigger] tail[q]) == g[q + 1] by {}
        lemma_grid_parse_embedded(b, j, tail);
        let tailres = tail.map(|q: int, row: Seq<ScreenCell>| row_runs(row));
        assert(seq![row_runs(g[0])] + tailres =~~= res);
        assert(parse_grid(b, i, g.len() as nat) == Ok::<_, DecodeError>(
            (seq![row_runs(g[0])] + tailres, j + erest.len()),
        ));
    }
}

/// Snapshot completeness: decoding a produced snapshot recovers the exact
/// columns, rows, cursor position and visibility, and the runs — text and
/// pen — of every row that were present at capture time.  The size bound on
/// each row is what the machine forces: four bytes per encoded character
/// must be addressable.
#[verifier::rlimit(100)]
#[verifier::spinoff_prover]
pub proof fn lemma_snapshot_roundtrip(s: &Screen)
    requires
        s.wf(),
        forall|q: int|
            0 <= q < grid_view(s).len() ==> 4 * (#[trigger] grid_view(s)[q]).len() + 4
                <= usize::MAX as int,
    ensures
        parse_snapshot(snapshot_bytes(s)) == Ok::<_, DecodeError>(
            SnapshotView {
                cols: s.cols,
                rows: s.rows,
                cursor_col: s.cursor_col,
                cursor_row: s.cursor_row,
                cursor_visible: s.cursor_visible,
                rows_runs: grid_view(s).map(|q: int, row: Seq<ScreenCell>| row_runs(row)),
            },
        ),
{
    let b = snapshot_bytes(s);
    let v1 = varint_bytes(s.cols as nat);
    let v2 = varint_bytes(s.rows as nat);
    let v3 = varint_bytes(s.cursor_col as nat);
    let v4 = varint_bytes(s.cursor_row as nat);
    let vb = seq![bool_byte(s.cursor_visible)];
    let gb = grid_bytes(grid_view(s));
    let l1 = v1.len() as int;
    let l2 = v2.len() as int;
    let l3 = v3.len() as int;
    let l4 = v4.len() as int;
    assert(b == v1 + v2 + v3 + v4 + vb + gb);
    assert(b.subrange(0, b.len() as int) =~= b);
    assert forall|k: int| 0 <= k < l1 implies b[0 + k] == v1[k] by {}
    lemma_embed_part(b, 0, b, 0, v1);
    lemma_size_parse_embedded(b, 0, s.cols as nat);
    assert forall|k: int| 0 <= k < l2 implies b[l1 + k] == v2[k] by {}
    lemma_embed_part(b, 0, b, l1, v2);
    lemma_size_parse_embedded(b, l1, s.rows as nat);
    assert forall|k: int| 0 <= k < l3 implies b[(l1 + l2) + k] == v3[k] by {}
    lemma_embed_part(b, 0, b, l1 + l2, v3);
    lemma_size_parse_embedded(b, l1 + l2, s.cursor_col as nat);
    assert forall|k: int| 0 <= k < l4 implies b[(l1 + l2 + l3) + k] == v4[k] by {}
    lemma_embed_part(b, 0, b, l1 + l2 + l3, v4);
    lemma_size_parse_embedded(b, l1 + l2 + l3, s.cursor_row as nat);
    let i4 = l1 + l2 + l3 + l4;
    assert(b[i4] == bool_byte(s.cursor_visible));
    assert(b[i4] <= 1);
    assert((b[i4] == 1) == s.cursor_visible);
    assert forall|k: int| 0 <= k < gb.len() implies b[(i4 + 1) + k] == gb[k] by {}
    lemma_embed_part(b, 0, b, i4 + 1, gb);
    lemma_grid_parse_embedded(b, i4 + 1, grid_view(s));
    assert(grid_view(s).len() == s.rows as int);
    assert(i4 + 1 + gb.len() == b.len());
}

} // verus!
