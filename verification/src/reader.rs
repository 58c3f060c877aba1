//! The windowed run reader: per-run state holding a bounded in-memory
//! window of the run's unread lines, the byte offset at which the next
//! window starts, and a flag that is set — and never cleared — once a
//! refill yields no lines. The caller reads the next batch from the run
//! file at the stored offset and hands it in; nothing here touches a file.

use vstd::prelude::*;
use crate::split::{lemma_run_bytes_take_le, lemma_run_bytes_take_step, run_bytes};
use crate::views::{clone_line, lemma_bytes_deep_view};

verus! {

/// What a run can offer the merge: a line is ready, the window must be
/// refilled from the run file first, or the run is permanently drained.
#[derive(Clone, Copy, Debug, PartialEq, Eq, Structural)]
pub enum CollectionState {
    Drained,
    Ready,
    NeedsRefill,
}

/// Per-run reading state. The window holds the lines most recently read
/// from the run file; the cursor walks it; the offset names the byte at
/// which the next window begins.
pub struct RunReader {
    window: Vec<Vec<u8>>,
    cursor: usize,
    offset: u64,
    exhausted: bool,
}

impl RunReader {
    /// The lines of the current window.
    pub closed spec fn window_view(self) -> Seq<Seq<u8>> {
        self.window.deep_view()
    }

    /// How many window lines were already taken.
    pub closed spec fn cursor_spec(self) -> int {
        self.cursor as int
    }

    /// The byte offset in the run file at which the next window starts.
    pub closed spec fn offset_spec(self) -> int {
        self.offset as int
    }

    /// Whether a refill has come back empty; once set this never clears.
    pub closed spec fn exhausted_spec(self) -> bool {
        self.exhausted
    }

    /// The reader's invariant: the cursor stays within the window, and an
    /// exhausted reader's window is empty.
    pub open spec fn wf(self) -> bool {
        &&& 0 <= self.cursor_spec() <= self.window_view().len()
        &&& self.exhausted_spec() ==> self.window_view().len() == 0 && self.cursor_spec() == 0
    }

    /// A fresh reader: empty window, offset at the start of the run file.
    pub fn new() -> (r: RunReader)
        ensures
            r.wf(),
            r.window_view().len() == 0,
            r.cursor_spec() == 0,
            r.offset_spec() == 0,
            !r.exhausted_spec(),
    {
        let r = RunReader { window: Vec::new(), cursor: 0, offset: 0, exhausted: false };
        proof {
            assert(r.window.deep_view() =~= Seq::<Seq<u8>>::empty());
        }
        r
    }

    /// The stored offset, for the caller's seek before the next refill.
    pub fn offset(&self) -> (r: u64)
        ensures
            r as int == self.offset_spec(),
    {
        self.offset
    }

    /// Installs a freshly read window: the lines read at the stored offset,
    /// in file order. The offset advances by exactly the bytes of those
    /// lines, the cursor resets, and an empty batch marks the run exhausted
    /// for good.
    pub fn refill(&mut self, lines: Vec<Vec<u8>>)
        requires
            old(self).wf(),
            old(self).cursor_spec() == old(self).window_view().len(),
            !old(self).exhausted_spec(),
            old(self).offset_spec() + run_bytes(lines.deep_view()) <= u64::MAX,
        ensures
            final(self).wf(),
            final(self).window_view() == lines.deep_view(),
            final(self).cursor_spec() == 0,
            final(self).offset_spec() == old(self).offset_spec() + run_bytes(lines.deep_view()),
            final(self).exhausted_spec() <==> lines.deep_view().len() == 0,
    {
        let ghost ldv = lines.deep_view();
        let n = lines.len();
        let mut total: u64 = 0;
        let mut i: usize = 0;
        proof {
            assert(ldv.take(0) =~= Seq::<Seq<u8>>::empty());
        }
        while i < n
            invariant
                i <= n,
                n == lines@.len(),
                ldv == lines.deep_view(),
                total == run_bytes(ldv.take(i as int)),
                self == old(self),
                old(self).offset_spec() + run_bytes(ldv) <= u64::MAX,
            decreases n - i,
        {
            proof {
                lemma_run_bytes_take_step(ldv, i as int);
                lemma_run_bytes_take_le(ldv, i as int + 1);
                lemma_bytes_deep_view(lines@[i as int]);
            }
            total = total + (lines[i].len() as u64);
            i = i + 1;
        }
        proof {
            assert(ldv.take(n as int) =~= ldv);
        }
        let empty = lines.len() == 0;
        self.window = lines;
        self.cursor = 0;
        self.offset = self.offset + total;
        self.exhausted = empty;
    }

    /// Returns the next window line and advances the cursor. The caller
    /// must have seen a `Ready` state: taking from an empty or consumed
    /// window is a contract violation, not a silent no-op.
    pub fn take_next(&mut self) -> (line: Vec<u8>)
        requires
            old(self).wf(),
            old(self).cursor_spec() < old(self).window_view().len(),
        ensures
            final(self).wf(),
            line@ == old(self).window_view()[old(self).cursor_spec()],
            final(self).cursor_spec() == old(self).cursor_spec() + 1,
            final(self).window_view() == old(self).window_view(),
            final(self).offset_spec() == old(self).offset_spec(),
            final(self).exhausted_spec() == old(self).exhausted_spec(),
    {
        let len = self.window.len();
        proof {
            assert(self.cursor < len);
            lemma_bytes_deep_view(self.window@[self.cursor as int]);
        }
        let line = clone_line(&self.window[self.cursor]);
        self.cursor = self.cursor + 1;
        line
    }
}

/// Whether a run currently has a line available: `Ready` when the window
/// still holds unread lines, `Drained` once the run is exhausted, and
/// `NeedsRefill` when the window is consumed but the run is not yet known
/// to be done — the caller then reads the next batch at the stored offset
/// and hands it to `refill`.
pub fn check_collection(reader: &RunReader) -> (r: CollectionState)
    requires
        reader.wf(),
    ensures
        (r == CollectionState::Ready) <==> reader.cursor_spec() < reader.window_view().len(),
        (r == CollectionState::Drained) <==> (reader.cursor_spec() == reader.window_view().len()
            && reader.exhausted_spec()),
        (r == CollectionState::NeedsRefill) <==> (reader.cursor_spec()
            == reader.window_view().len() && !reader.exhausted_spec()),
{
    if reader.cursor < reader.window.len() {
        CollectionState::Ready
    } else if reader.exhausted {
        CollectionState::Drained
    } else {
        CollectionState::NeedsRefill
    }
}

} // verus!
