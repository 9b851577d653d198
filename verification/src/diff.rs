//! Tracking of the rows mutated since the last poll, plus the cursor-moved
//! and resized flags, and the compact diff buffer they are emitted as.
//!
//! Diff layout: `hasDiff:u8` (always 1 when a buffer is produced; a clean
//! state produces no buffer at all), then the dirty row count, the dirty row
//! indices ascending and unique, `cursorChanged:u8(0|1)`, `resized:u8(0|1)`,
//! with every integer a varint.
use vstd::prelude::*;

use crate::snapshot::{
    bool_byte, decode_size, lemma_embed_part, lemma_size_parse_embedded, parse_size,
};
use crate::varint::{encode_varint, varint_bytes};
use crate::DecodeError;

verus! {

/// The indices of the set entries of a dirty-row table, ascending.
pub open spec fn dirty_indices(b: Seq<bool>) -> Seq<int>
    decreases b.len(),
{
    if b.len() == 0 {
        Seq::empty()
    } else {
        dirty_indices(b.drop_last()) + (if b.last() {
            seq![b.len() - 1]
        } else {
            Seq::empty()
        })
    }
}

/// The concatenated varint encodings of a sequence of row indices.
pub open spec fn indices_bytes(ix: Seq<int>) -> Seq<u8>
    decreases ix.len(),
{
    if ix.len() == 0 {
        Seq::empty()
    } else {
        indices_bytes(ix.drop_last()) + varint_bytes(ix.last() as nat)
    }
}

/// The diff buffer emitted for a non-clean state.
pub open spec fn diff_bytes(dirty: Seq<bool>, cursor_changed: bool, resized: bool) -> Seq<u8> {
    seq![1u8] + varint_bytes(dirty_indices(dirty).len() as nat) + indices_bytes(
        dirty_indices(dirty),
    ) + seq![bool_byte(cursor_changed), bool_byte(resized)]
}

/// On an all-dirty table every row index is reported, in order.
pub proof fn lemma_all_set_indices(b: Seq<bool>)
    requires
        forall|i: int| 0 <= i < b.len() ==> b[i],
    ensures
        dirty_indices(b) == Seq::new(b.len() as nat, |i: int| i),
    decreases b.len(),
{
    if b.len() > 0 {
        lemma_all_set_indices(b.drop_last());
        assert(dirty_indices(b) =~= Seq::new(b.len() as nat, |i: int| i));
    } else {
        assert(dirty_indices(b) =~= Seq::new(b.len() as nat, |i: int| i));
    }
}

/// Dirty indices are exactly the set rows: ascending, unique, in range.
pub proof fn lemma_dirty_indices_props(b: Seq<bool>)
    ensures
        forall|k: int|
            0 <= k < dirty_indices(b).len() ==> 0 <= #[trigger] dirty_indices(b)[k] < b.len()
                && b[dirty_indices(b)[k]],
        forall|k: int|
            0 <= k < dirty_indices(b).len() - 1 ==> #[trigger] dirty_indices(b)[k]
                < dirty_indices(b)[k + 1],
    decreases b.len(),
{
    if b.len() > 0 {
        lemma_dirty_indices_props(b.drop_last());
        let pre = dirty_indices(b.drop_last());
        assert forall|k: int|
            0 <= k < dirty_indices(b).len() implies 0 <= #[trigger] dirty_indices(b)[k] < b.len()
            && b[dirty_indices(b)[k]] by {
            if k < pre.len() {
                assert(dirty_indices(b)[k] == pre[k]);
                assert(b.drop_last()[pre[k]] == b[pre[k]]);
            }
        }
        assert forall|k: int|
            0 <= k < dirty_indices(b).len() - 1 implies #[trigger] dirty_indices(b)[k]
            < dirty_indices(b)[k + 1] by {
            if k < pre.len() - 1 {
                assert(dirty_indices(b)[k] == pre[k]);
                assert(dirty_indices(b)[k + 1] == pre[k + 1]);
            } else {
                assert(k == pre.len() - 1 && b.last());
                assert(dirty_indices(b)[k] == pre[k]);
                assert(dirty_indices(b)[k + 1] == b.len() - 1);
            }
        }
    }
}

/// The set of rows possibly changed since the last diff poll, with the
/// cursor-moved and resized flags.  One entry per visible row.
pub struct DirtyState {
    pub dirty: Vec<bool>,
    pub cursor_changed: bool,
    pub resized: bool,
}

impl DirtyState {
    /// Nothing pending: no dirty row, neither flag set.
    pub open spec fn is_clean(&self) -> bool {
        (forall|i: int| 0 <= i < self.dirty@.len() ==> !self.dirty@[i]) && !self.cursor_changed
            && !self.resized
    }

    /// Every row is marked dirty.
    pub open spec fn all_set(&self) -> bool {
        forall|i: int| 0 <= i < self.dirty@.len() ==> self.dirty@[i]
    }

    /// The state of a freshly opened session: every visible row dirty and the
    /// cursor reported as moved, but no resize pending.
    pub fn new_all_dirty(rows: usize) -> (d: DirtyState)
        ensures
            d.dirty@.len() == rows as int,
            d.all_set(),
            d.cursor_changed,
            !d.resized,
    {
        DirtyState { dirty: vec![true; rows], cursor_changed: true, resized: false }
    }

    /// The conservative policy after a byte feed: any row may have changed,
    /// so every visible row is marked dirty, and the cursor may have moved.
    /// A pending resize flag is kept, never dropped.
    pub fn mark_feed(&mut self)
        ensures
            final(self).dirty@.len() == old(self).dirty@.len(),
            final(self).all_set(),
            final(self).cursor_changed,
            final(self).resized == old(self).resized,
    {
        let n = self.dirty.len();
        self.dirty = vec![true; n];
        self.cursor_changed = true;
    }

    /// After a resize or reset: the tracker follows the new geometry, every
    /// row of it dirty, with both flags set.
    pub fn mark_resized(&mut self, rows: usize)
        ensures
            final(self).dirty@.len() == rows as int,
            final(self).all_set(),
            final(self).cursor_changed,
            final(self).resized,
    {
        self.dirty = vec![true; rows];
        self.cursor_changed = true;
        self.resized = true;
    }

    /// Emits the pending changes and clears them atomically: a clean state
    /// produces nothing and stays untouched; anything pending produces the
    /// diff buffer of the accumulated state, and the state is clean after.
    pub fn poll(&mut self) -> (r: Option<Vec<u8>>)
        ensures
            r is None <==> old(self).is_clean(),
            r is None ==> *final(self) == *old(self),
            r matches Some(v) ==> v@ == diff_bytes(
                old(self).dirty@,
                old(self).cursor_changed,
                old(self).resized,
            ),
            final(self).dirty@.len() == old(self).dirty@.len(),
            final(self).is_clean(),
    {
        let n = self.dirty.len();
        let mut any = false;
        let mut i: usize = 0;
        while i < n
            invariant
                i <= n,
                n == self.dirty@.len(),
                any <==> exists|k: int| 0 <= k < i && self.dirty@[k],
            decreases n - i,
        {
            if self.dirty[i] {
                any = true;
            }
            i = i + 1;
        }
        if !any && !self.cursor_changed && !self.resized {
            return None;
        }
        let ghost dv = self.dirty@;
        let mut out: Vec<u8> = Vec::new();
        out.push(1);
        let mut cnt: usize = 0;
        let mut i: usize = 0;
        while i < n
            invariant
                i <= n,
                n == self.dirty@.len(),
                dv == self.dirty@,
                cnt as int == dirty_indices(dv.take(i as int)).len(),
                cnt <= i,
            decreases n - i,
        {
            proof {
                assert(dv.take(i + 1).drop_last() =~= dv.take(i as int));
                assert(dv.take(i + 1).last() == dv[i as int]);
            }
            if self.dirty[i] {
                cnt = cnt + 1;
            }
            i = i + 1;
        }
        assert(dv.take(n as int) =~= dv);
        encode_varint(cnt, &mut out);
        let ghost pref = out@;
        assert(pref == seq![1u8] + varint_bytes(dirty_indices(dv).len() as nat));
        let mut i: usize = 0;
        while i < n
            invariant
                i <= n,
                n == self.dirty@.len(),
                dv == self.dirty@,
                out@ == pref + indices_bytes(dirty_indices(dv.take(i as int))),
            decreases n - i,
        {
            proof {
                assert(dv.take(i + 1).drop_last() =~= dv.take(i as int));
                assert(dv.take(i + 1).last() == dv[i as int]);
            }
            let ghost before = dirty_indices(dv.take(i as int));
            if self.dirty[i] {
                encode_varint(i, &mut out);
                proof {
                    let after = dirty_indices(dv.take(i + 1));
                    assert(after =~= before.push(i as int));
                    assert(after.drop_last() =~= before);
                    assert(after.last() == i as int);
                    assert(out@ =~= pref + indices_bytes(after));
                }
            } else {
                proof {
                    assert(dirty_indices(dv.take(i + 1)) =~= before);
                }
            }
            i = i + 1;
        }
        assert(dv.take(n as int) =~= dv);
        if self.cursor_changed {
            out.push(1);
        } else {
            out.push(0);
        }
        if self.resized {
            out.push(1);
        } else {
            out.push(0);
        }
        assert(out@ =~= diff_bytes(dv, self.cursor_changed, self.resized));
        self.dirty = vec![false; n];
        self.cursor_changed = false;
        self.resized = false;
        Some(out)
    }
}

/// Dirty-tracking conservation: a tracker with every visible row dirty and
/// the cursor marked — the state after open, feed, resize or reset — emits a
/// diff that reports every row index, ascending from zero, with
/// `cursorChanged` set.
pub proof fn lemma_full_tracker_reports_all(d: &DirtyState)
    requires
        d.all_set(),
        d.cursor_changed,
    ensures
        diff_bytes(d.dirty@, d.cursor_changed, d.resized) == seq![1u8] + varint_bytes(
            d.dirty@.len() as nat,
        ) + indices_bytes(Seq::new(d.dirty@.len() as nat, |i: int| i)) + seq![
            1u8,
            bool_byte(d.resized),
        ],
{
    lemma_all_set_indices(d.dirty@);
    assert(dirty_indices(d.dirty@).len() == d.dirty@.len());
    assert(diff_bytes(d.dirty@, d.cursor_changed, d.resized) =~= seq![1u8] + varint_bytes(
        d.dirty@.len() as nat,
    ) + indices_bytes(Seq::new(d.dirty@.len() as nat, |i: int| i)) + seq![
        1u8,
        bool_byte(d.resized),
    ]);
}

/// The mathematical value of a decoded diff.
pub struct DiffView {
    pub rows: Seq<int>,
    pub cursor_changed: bool,
    pub resized: bool,
}

/// A decoded diff: the dirty rows and the two flags.
#[derive(Debug, Clone, PartialEq)]
pub struct DiffRecord {
    pub rows: Vec<usize>,
    pub cursor_changed: bool,
    pub resized: bool,
}

impl View for DiffRecord {
    type V = DiffView;

    open spec fn view(&self) -> DiffView {
        DiffView {
            rows: self.rows@.map(|i: int, v: usize| v as int),
            cursor_changed: self.cursor_changed,
            resized: self.resized,
        }
    }
}

/// Total parse of `k` row indices, strictly ascending past `after`.
pub open spec fn parse_indices(b: Seq<u8>, i: int, k: nat, after: int) -> Result<
    (Seq<int>, int),
    DecodeError,
>
    decreases k,
{
    if k == 0 {
        Ok((Seq::empty(), i))
    } else {
        match parse_size(b, i) {
            Err(e) => Err(e),
            Ok((v, j)) => if v as int > after {
                match parse_indices(b, j, (k - 1) as nat, v as int) {
                    Err(e) => Err(e),
                    Ok((rest, m)) => Ok((seq![v as int] + rest, m)),
                }
            } else {
                Err(DecodeError::MalformedInput)
            },
        }
    }
}

/// Total parse of a diff buffer: absent when the lead byte is 0, else the
/// dirty row count, that many ascending unique indices, and the two flag
/// bytes; anything else is a format violation.
pub open spec fn parse_diff(b: Seq<u8>) -> Result<Option<DiffView>, DecodeError> {
    if b.len() == 0 {
        Err(DecodeError::MalformedInput)
    } else if b[0] == 0 {
        if b.len() == 1 {
            Ok(None)
        } else {
            Err(DecodeError::MalformedInput)
        }
    } else if b[0] == 1 {
        match parse_size(b, 1) {
            Err(e) => Err(e),
            Ok((cnt, j)) => match parse_indices(b, j, cnt as nat, -1) {
                Err(e) => Err(e),
                Ok((ix, m)) => if m + 2 == b.len() && b[m] <= 1 && b[m + 1] <= 1 {
                    Ok(
                        Some(
                            DiffView {
                                rows: ix,
                                cursor_changed: b[m] == 1,
                                resized: b[m + 1] == 1,
                            },
                        ),
                    )
                } else {
                    Err(DecodeError::MalformedInput)
                },
            },
        }
    } else {
        Err(DecodeError::MalformedInput)
    }
}

/// The diff decoder: recovers the dirty rows and flags from a diff buffer,
/// exactly as the spec parse does; it never reads out of bounds and
/// surfaces malformed input as an error.
pub fn decode_diff(b: &[u8]) -> (res: Result<Option<DiffRecord>, DecodeError>)
    ensures
        match res {
            Ok(opt) => match opt {
                Option::Some(d) => parse_diff(b@) == Ok::<_, DecodeError>(Some(d@)),
                Option::None => parse_diff(b@) == Ok::<Option<DiffView>, DecodeError>(None),
            },
            Err(e) => parse_diff(b@) == Err::<Option<DiffView>, _>(e),
        },
{
    if b.len() == 0 {
        return Err(DecodeError::MalformedInput);
    }
    let lead = b[0];
    if lead == 0 {
        if b.len() == 1 {
            return Ok(None);
        } else {
            return Err(DecodeError::MalformedInput);
        }
    }
    if lead != 1 {
        return Err(DecodeError::MalformedInput);
    }
    let (cnt, j0) = match decode_size(b, 1) {
        Ok(p) => p,
        Err(e) => {
            return Err(e);
        },
    };
    let mut rows: Vec<usize> = Vec::new();
    let mut pos: usize = j0;
    let mut t: usize = 0;
    while t < cnt
        invariant
            t <= cnt,
            rows@.len() == t as int,
            b@.len() >= 1 && b@[0] == 1,
            parse_size(b@, 1) == Ok::<_, DecodeError>((cnt, j0 as int)),
            ({
                let rv = rows@.map(|q: int, v: usize| v as int);
                let aft: int = if t == 0 {
                    -1int
                } else {
                    rv.last()
                };
                match parse_indices(b@, pos as int, (cnt - t) as nat, aft) {
                    Ok(p) => parse_indices(b@, j0 as int, cnt as nat, -1) == Ok::<_, DecodeError>(
                        (rv + p.0, p.1),
                    ),
                    Err(e) => parse_indices(b@, j0 as int, cnt as nat, -1) == Err::<
                        (Seq<int>, int),
                        _,
                    >(e),
                }
            }),
        decreases cnt - t,
    {
        let ghost rv = rows@.map(|q: int, v: usize| v as int);
        let (v, np) = match decode_size(b, pos) {
            Ok(p) => p,
            Err(e) => {
                return Err(e);
            },
        };
        let mut in_order = true;
        if t > 0 {
            proof {
                assert(rv.last() == rows@.last() as int);
            }
            if v <= rows[rows.len() - 1] {
                in_order = false;
            }
        }
        if !in_order {
            return Err(DecodeError::MalformedInput);
        }
        rows.push(v);
        pos = np;
        t = t + 1;
        proof {
            let rv2 = rows@.map(|q: int, v2: usize| v2 as int);
            assert(rv2 =~= rv.push(v as int));
            assert(rv2.last() == v as int);
            match parse_indices(b@, pos as int, (cnt - t) as nat, v as int) {
                Ok(p) => {
                    assert(rv + (seq![v as int] + p.0) =~= rv2 + p.0);
                },
                Err(e) => {},
            }
        }
    }
    proof {
        let rv = rows@.map(|q: int, v: usize| v as int);
        assert(rv + Seq::<int>::empty() =~= rv);
    }
    if b.len() >= 2 && pos == b.len() - 2 {
        let fc = b[pos];
        let fr = b[pos + 1];
        if fc <= 1 && fr <= 1 {
            Ok(Some(DiffRecord { rows, cursor_changed: fc == 1, resized: fr == 1 }))
        } else {
            Err(DecodeError::MalformedInput)
        }
    } else {
        Err(DecodeError::MalformedInput)
    }
}

/// Splitting an index sequence splits its encoding.
proof fn lemma_indices_bytes_concat(a: Seq<int>, c: Seq<int>)
    ensures
        indices_bytes(a + c) == indices_bytes(a) + indices_bytes(c),
    decreases c.len(),
{
    if c.len() == 0 {
        assert(a + c =~= a);
        assert(indices_bytes(a + c) =~= indices_bytes(a) + indices_bytes(c));
    } else {
        assert((a + c).drop_last() =~= a + c.drop_last());
        assert((a + c).last() == c.last());
        lemma_indices_bytes_concat(a, c.drop_last());
        assert(indices_bytes(a + c) =~= indices_bytes(a) + indices_bytes(c));
    }
}

/// Parsing at a position where ascending indices are embedded recovers them.
proof fn lemma_indices_parse_embedded(b: Seq<u8>, i: int, ix: Seq<int>, after: int)
    requires
        0 <= i,
        i + indices_bytes(ix).len() <= b.len(),
        b.subrange(i, i + indices_bytes(ix).len() as int) == indices_bytes(ix),
        forall|q: int| 0 <= q < ix.len() ==> 0 <= #[trigger] ix[q] <= usize::MAX as int,
        forall|q: int| 0 <= q < ix.len() - 1 ==> #[trigger] ix[q] < ix[q + 1],
        ix.len() > 0 ==> after < ix[0],
    ensures
        parse_indices(b, i, ix.len() as nat, after) == Ok::<_, DecodeError>(
            (ix, i + indices_bytes(ix).len()),
        ),
    decreases ix.len(),
{
    if ix.len() == 0 {
        assert(ix =~= Seq::<int>::empty());
    } else {
        let e = indices_bytes(ix);
        let e0 = varint_bytes(ix[0] as nat);
        let tail = ix.drop_first();
        let erest = indices_bytes(tail);
        assert(ix =~= seq![ix[0]] + tail);
        lemma_indices_bytes_concat(seq![ix[0]], tail);
        assert(seq![ix[0]].drop_last() =~= Seq::<int>::empty());
        assert(seq![ix[0]].last() == ix[0]);
        assert(indices_bytes(seq![ix[0]].drop_last()) =~= Seq::<u8>::empty());
        assert(indices_bytes(seq![ix[0]]) =~= e0);
        assert(e == e0 + erest);
        assert forall|k: int| 0 <= k < e0.len() implies e[0 + k] == e0[k] by {}
        lemma_embed_part(b, i, e, 0, e0);
        lemma_size_parse_embedded(b, i, ix[0] as nat);
        let j: int = i + e0.len();
        assert forall|k: int| 0 <= k < erest.len() implies e[e0.len() + k] == erest[k] by {}
        lemma_embed_part(b, i, e, e0.len() as int, erest);
        assert forall|q: int| 0 <= q < tail.len() implies (#[trigger] tail[q]) == ix[q + 1] by {}
        if tail.len() > 0 {
            assert(ix[0] < ix[1]);
        }
        lemma_indices_parse_embedded(b, j, tail, ix[0]);
        assert((ix.len() - 1) as nat == tail.len() as nat);
        assert(parse_indices(b, i, ix.len() as nat, after) == Ok::<_, DecodeError>(
            (seq![ix[0]] + tail, j + erest.len()),
        ));
    }
}

/// Diff round trip: decoding an emitted diff buffer recovers exactly the
/// dirty row set and the two flags that were pending.
#[verifier::rlimit(100)]
#[verifier::spinoff_prover]
pub proof fn lemma_diff_roundtrip(dirty: Seq<bool>, cursor_changed: bool, resized: bool)
    requires
        dirty.len() <= usize::MAX as nat,
    ensures
        parse_diff(diff_bytes(dirty, cursor_changed, resized)) == Ok::<_, DecodeError>(
            Some(
                DiffView { rows: dirty_indices(dirty), cursor_changed, resized },
            ),
        ),
{
    let b = diff_bytes(dirty, cursor_changed, resized);
    let ix = dirty_indices(dirty);
    lemma_dirty_indices_props(dirty);
    let vc = varint_bytes(ix.len() as nat);
    let ib = indices_bytes(ix);
    assert(b == seq![1u8] + vc + ib + seq![bool_byte(cursor_changed), bool_byte(resized)]);
    assert(b[0] == 1);
    assert(b.subrange(0, b.len() as int) =~= b);
    assert(ix.len() <= dirty.len()) by {
        lemma_dirty_indices_len(dirty);
    }
    assert forall|k: int| 0 <= k < vc.len() implies b[1 + k] == vc[k] by {}
    lemma_embed_part(b, 0, b, 1, vc);
    lemma_size_parse_embedded(b, 1, ix.len() as nat);
    let j: int = 1 + vc.len() as int;
    assert forall|k: int| 0 <= k < ib.len() implies b[(1 + vc.len() as int) + k] == ib[k] by {}
    lemma_embed_part(b, 0, b, 1 + vc.len() as int, ib);
    if ix.len() > 0 {
        assert(-1 < ix[0]);
    }
    lemma_indices_parse_embedded(b, j, ix, -1);
    let m: int = j + ib.len();
    assert(b[m] == bool_byte(cursor_changed));
    assert(b[m + 1] == bool_byte(resized));
    assert(m + 2 == b.len());
    assert((b[m] == 1) == cursor_changed);
    assert((b[m + 1] == 1) == resized);
}

/// There are never more dirty indices than rows.
proof fn lemma_dirty_indices_len(dirty: Seq<bool>)
    ensures
        dirty_indices(dirty).len() <= dirty.len(),
    decreases dirty.len(),
{
    if dirty.len() > 0 {
        lemma_dirty_indices_len(dirty.drop_last());
    }
}

} // verus!
