//! The registry of live sessions behind opaque integer handles: creation,
//! feed, snapshot, diff poll, resize, reset, teardown.  Handle `0` is
//! reserved as invalid, and a freed handle's value is never reissued within
//! the registry's lifetime; every operation on a dead handle is a silent
//! no-op with an empty or absent result.
use vstd::prelude::*;

use crate::diff::{diff_bytes, DirtyState};
use crate::engine::{
    engine_cols, engine_cursor, engine_grid, engine_rows, feed_step, read_screen, vt_feed, vt_new,
    vt_resize,
};
use crate::snapshot::{blank_grid, encode_snapshot, snapshot_bytes, Screen};
use crate::text::{lossy_of, string_from_utf8_lossy};

verus! {

/// One live terminal session: its opaque engine state, its geometry as
/// opened or last reshaped, and its pending-change tracker.
pub struct Session {
    pub vt: avt::Vt,
    pub cols: usize,
    pub rows: usize,
    pub dirty: DirtyState,
}

impl Session {
    /// The tracker covers exactly the session's visible rows, and the engine
    /// really has the geometry the session records.
    pub open spec fn wf(&self) -> bool {
        self.dirty.dirty@.len() == self.rows as int && engine_cols(self.vt) == self.cols
            && engine_rows(self.vt) == self.rows
    }
}

/// The session registry: handle `h` names slot `h - 1`; a closed slot stays
/// a tombstone, so handles are never recycled.
pub struct SessionRegistry {
    pub slots: Vec<Option<Session>>,
}

impl SessionRegistry {
    /// Every live session is well formed.
    pub open spec fn wf(&self) -> bool {
        forall|i: int|
            0 <= i < self.slots@.len() ==> ((#[trigger] self.slots@[i]) matches Some(s)
                ==> s.wf())
    }

    /// Whether `h` names a live session.
    pub open spec fn is_live(&self, h: usize) -> bool {
        1 <= h <= self.slots@.len() && self.slots@[h - 1] is Some
    }

    /// The session `h` names.
    pub open spec fn live_session(&self, h: usize) -> Session
        recommends
            self.is_live(h),
    {
        self.slots@[h - 1]->Some_0
    }

    /// An empty registry: no handle is live.
    pub fn new() -> (reg: SessionRegistry)
        ensures
            reg.slots@.len() == 0,
            reg.wf(),
    {
        SessionRegistry { slots: Vec::new() }
    }

    /// How many handles were ever issued.
    pub fn issued(&self) -> (n: usize)
        ensures
            n as int == self.slots@.len(),
    {
        self.slots.len()
    }

    /// Opens a session of the given geometry and issues a fresh non-zero
    /// handle that was never live before.  Every visible row starts dirty
    /// and the cursor is reported as moved, but no resize is pending.
    pub fn open(&mut self, cols: usize, rows: usize) -> (h: usize)
        requires
            1 <= cols,
            1 <= rows,
            old(self).slots@.len() < usize::MAX,
    ensures
            h == old(self).slots@.len() + 1,
            h >= 1,
            !old(self).is_live(h),
            final(self).is_live(h),
            final(self).slots@.len() == old(self).slots@.len() + 1,
            forall|i: int|
                0 <= i < old(self).slots@.len() ==> final(self).slots@[i] == old(self).slots@[i],
            ({
                let s = final(self).live_session(h);
                s.wf() && s.cols == cols && s.rows == rows && s.dirty.dirty@.len() == rows as int
                    && s.dirty.all_set() && s.dirty.cursor_changed && !s.dirty.resized
                    && engine_grid(s.vt) == blank_grid(cols, rows) && engine_cursor(s.vt) == (
                0usize,
                0usize,
                true,
                )
            }),
            old(self).wf() ==> final(self).wf(),
    {
        let vt = vt_new(cols, rows);
        let dirty = DirtyState::new_all_dirty(rows);
        self.slots.push(Some(Session { vt, cols, rows, dirty }));
        self.slots.len()
    }

    /// Closes the session `h` names: the handle is dead afterwards and its
    /// value is never reissued.  An invalid handle is a silent no-op.
    pub fn close(&mut self, h: usize)
        ensures
            final(self).slots@.len() == old(self).slots@.len(),
            !final(self).is_live(h),
            forall|i: int|
                0 <= i < old(self).slots@.len() && i != h - 1 ==> final(self).slots@[i] == old(
                    self,
                ).slots@[i],
            !old(self).is_live(h) ==> final(self).slots@ == old(self).slots@,
            old(self).wf() ==> final(self).wf(),
    {
        if h >= 1 && h <= self.slots.len() {
            if self.slots[h - 1].is_some() {
                self.slots[h - 1] = None;
            }
        }
    }

    /// Feeds raw bytes to a live session's engine and records the
    /// conservative over-approximation of their effect: every visible row
    /// marked dirty and the cursor reported as moved; a pending resize flag
    /// is kept.  An invalid handle is a silent no-op.
    pub fn feed(&mut self, h: usize, bytes: &[u8])
        ensures
            final(self).slots@.len() == old(self).slots@.len(),
            !old(self).is_live(h) ==> final(self).slots@ == old(self).slots@,
            forall|i: int|
                0 <= i < old(self).slots@.len() && i != h - 1 ==> final(self).slots@[i] == old(
                    self,
                ).slots@[i],
            old(self).is_live(h) ==> final(self).is_live(h) && ({
                let s0 = old(self).live_session(h);
                let s1 = final(self).live_session(h);
                s1.vt == feed_step(s0.vt, lossy_of(bytes@)) && engine_cols(s1.vt) == engine_cols(
                    s0.vt,
                ) && engine_rows(s1.vt) == engine_rows(s0.vt) && s1.cols == s0.cols && s1.rows
                    == s0.rows && s1.dirty.dirty@.len() == s0.dirty.dirty@.len()
                    && s1.dirty.all_set() && s1.dirty.cursor_changed && s1.dirty.resized
                    == s0.dirty.resized && (s0.wf() ==> s1.wf())
            }),
            old(self).wf() ==> final(self).wf(),
    {
        if h >= 1 && h <= self.slots.len() {
            let ghost lively = self.slots@[h - 1] is Some;
            let slot = &mut self.slots[h - 1];
            match slot {
                Option::Some(sess) => {
                    let text = string_from_utf8_lossy(bytes);
                    vt_feed(&mut sess.vt, text.as_str());
                    sess.dirty.mark_feed();
                },
                Option::None => {},
            }
            proof {
                if !lively {
                    assert(self.slots@ =~= old(self).slots@);
                }
            }
        }
    }

    /// Requests a new geometry from a live session's engine, which keeps its
    /// content under its own resize semantics; the tracker follows the new
    /// geometry with every row dirty and both flags set.  An invalid handle
    /// is a silent no-op.
    pub fn resize(&mut self, h: usize, cols: usize, rows: usize)
        requires
            1 <= cols,
            1 <= rows,
        ensures
            final(self).slots@.len() == old(self).slots@.len(),
            !old(self).is_live(h) ==> final(self).slots@ == old(self).slots@,
            forall|i: int|
                0 <= i < old(self).slots@.len() && i != h - 1 ==> final(self).slots@[i] == old(
                    self,
                ).slots@[i],
            old(self).is_live(h) ==> final(self).is_live(h) && ({
                let s1 = final(self).live_session(h);
                s1.wf() && s1.cols == cols && s1.rows == rows && s1.dirty.dirty@.len()
                    == rows as int && s1.dirty.all_set() && s1.dirty.cursor_changed
                    && s1.dirty.resized
            }),
            old(self).wf() ==> final(self).wf(),
    {
        if h >= 1 && h <= self.slots.len() {
            let ghost lively = self.slots@[h - 1] is Some;
            let slot = &mut self.slots[h - 1];
            match slot {
                Option::Some(sess) => {
                    vt_resize(&mut sess.vt, cols, rows);
                    sess.cols = cols;
                    sess.rows = rows;
                    sess.dirty.mark_resized(rows);
                },
                Option::None => {},
            }
            proof {
                if !lively {
                    assert(self.slots@ =~= old(self).slots@);
                }
            }
        }
    }

    /// Discards a live session's engine entirely and rebuilds it blank with
    /// the new geometry; the tracker is marked as after a resize.  An
    /// invalid handle is a silent no-op.
    pub fn reset(&mut self, h: usize, cols: usize, rows: usize)
        requires
            1 <= cols,
            1 <= rows,
        ensures
            final(self).slots@.len() == old(self).slots@.len(),
            !old(self).is_live(h) ==> final(self).slots@ == old(self).slots@,
            forall|i: int|
                0 <= i < old(self).slots@.len() && i != h - 1 ==> final(self).slots@[i] == old(
                    self,
                ).slots@[i],
            old(self).is_live(h) ==> final(self).is_live(h) && ({
                let s1 = final(self).live_session(h);
                s1.wf() && s1.cols == cols && s1.rows == rows && s1.dirty.dirty@.len()
                    == rows as int && s1.dirty.all_set() && s1.dirty.cursor_changed
                    && s1.dirty.resized && engine_grid(s1.vt) == blank_grid(cols, rows)
                    && engine_cursor(s1.vt) == (0usize, 0usize, true)
            }),
            old(self).wf() ==> final(self).wf(),
    {
        if h >= 1 && h <= self.slots.len() {
            let ghost lively = self.slots@[h - 1] is Some;
            let slot = &mut self.slots[h - 1];
            match slot {
                Option::Some(sess) => {
                    sess.vt = vt_new(cols, rows);
                    sess.cols = cols;
                    sess.rows = rows;
                    sess.dirty.mark_resized(rows);
                },
                Option::None => {},
            }
            proof {
                if !lively {
                    assert(self.slots@ =~= old(self).slots@);
                }
            }
        }
    }

    /// Captures a full snapshot of a live session's screen: exactly the
    /// encoding of the geometry, cursor and cell grid the engine holds at
    /// this instant, so two captures of an untouched session agree.  The
    /// emitted screen is well formed, and its geometry is the session's own.
    /// An invalid handle yields an empty buffer.
    pub fn snapshot(&self, h: usize) -> (out: Vec<u8>)
        ensures
            !self.is_live(h) ==> out@ == Seq::<u8>::empty(),
            self.is_live(h) ==> ({
                let vt = self.live_session(h).vt;
                out@ == crate::snapshot::snapshot_bytes_parts(
                    engine_cols(vt),
                    engine_rows(vt),
                    engine_cursor(vt).0,
                    engine_cursor(vt).1,
                    engine_cursor(vt).2,
                    engine_grid(vt),
                )
            }),
            self.is_live(h) ==> exists|scr: Screen|
                scr.wf() && scr.cols == engine_cols(self.live_session(h).vt) && scr.rows
                    == engine_rows(self.live_session(h).vt) && out@ == #[trigger] snapshot_bytes(
                    &scr,
                ),
            self.is_live(h) && self.wf() ==> exists|scr: Screen|
                scr.wf() && scr.cols == self.live_session(h).cols && scr.rows == self.live_session(
                    h,
                ).rows && out@ == #[trigger] snapshot_bytes(&scr),
    {
        if h >= 1 && h <= self.slots.len() {
            match &self.slots[h - 1] {
                Option::Some(sess) => {
                    let scr = read_screen(&sess.vt);
                    let out = encode_snapshot(&scr);
                    proof {
                        assert(out@ == snapshot_bytes(&scr));
                        if self.wf() {
                            assert(self.slots@[h - 1] matches Some(s) ==> s.wf());
                            assert(scr.cols == self.live_session(h).cols);
                            assert(scr.rows == self.live_session(h).rows);
                        }
                    }
                    out
                },
                Option::None => Vec::new(),
            }
        } else {
            Vec::new()
        }
    }

    /// Emits and clears, as one step, everything pending for a live session:
    /// nothing when its tracker is clean, else the diff buffer of the
    /// accumulated state, after which the tracker is clean.  An invalid
    /// handle yields nothing and changes nothing.
    pub fn poll_diff(&mut self, h: usize) -> (r: Option<Vec<u8>>)
        ensures
            final(self).slots@.len() == old(self).slots@.len(),
            !old(self).is_live(h) ==> r is None && final(self).slots@ == old(self).slots@,
            forall|i: int|
                0 <= i < old(self).slots@.len() && i != h - 1 ==> final(self).slots@[i] == old(
                    self,
                ).slots@[i],
            old(self).is_live(h) ==> final(self).is_live(h) && ({
                let s0 = old(self).live_session(h);
                let s1 = final(self).live_session(h);
                (r is None <==> s0.dirty.is_clean()) && (r matches Some(v) ==> v@ == diff_bytes(
                    s0.dirty.dirty@,
                    s0.dirty.cursor_changed,
                    s0.dirty.resized,
                )) && s1.dirty.is_clean() && s1.dirty.dirty@.len() == s0.dirty.dirty@.len()
                    && s1.cols == s0.cols && s1.rows == s0.rows && s1.vt == s0.vt
            }),
            old(self).wf() ==> final(self).wf(),
    {
        if h >= 1 && h <= self.slots.len() {
            let ghost lively = self.slots@[h - 1] is Some;
            let slot = &mut self.slots[h - 1];
            let r = match slot {
                Option::Some(sess) => sess.dirty.poll(),
                Option::None => None,
            };
            proof {
                if !lively {
                    assert(self.slots@ =~= old(self).slots@);
                }
            }
            r
        } else {
            None
        }
    }
}

} // verus!
