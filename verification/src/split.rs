//! The run splitter: the source file's lines are grouped into bounded-size
//! runs. Lines are accumulated in order until the cumulative byte count
//! reaches the bound, at which point the run is cut; the runs partition the
//! input exactly.

use vstd::prelude::*;
use crate::views::{clone_line, lemma_bytes_deep_view, lemma_deep_view_push};

verus! {

/// The total number of bytes of a run's lines.
pub open spec fn run_bytes(run: Seq<Seq<u8>>) -> nat
    decreases run.len(),
{
    if run.len() == 0 {
        0
    } else {
        run_bytes(run.drop_last()) + run.last().len()
    }
}

/// Extending a prefix by one line adds that line's bytes.
pub proof fn lemma_run_bytes_take_step(s: Seq<Seq<u8>>, i: int)
    requires
        0 <= i < s.len(),
    ensures
        run_bytes(s.take(i + 1)) == run_bytes(s.take(i)) + s[i].len(),
{
    assert(s.take(i + 1).drop_last() =~= s.take(i));
    assert(s.take(i + 1).last() == s[i]);
}

/// A prefix never holds more bytes than the whole.
pub proof fn lemma_run_bytes_take_le(s: Seq<Seq<u8>>, i: int)
    requires
        0 <= i <= s.len(),
    ensures
        run_bytes(s.take(i)) <= run_bytes(s),
    decreases s.len() - i,
{
    if i < s.len() {
        lemma_run_bytes_take_step(s, i);
        lemma_run_bytes_take_le(s, i + 1);
    } else {
        assert(s.take(i) =~= s);
    }
}

/// Accumulates the lines of one run until the byte bound is reached.
/// Between calls the accumulated bytes are always below the bound; a push
/// that reaches it hands the finished run back and starts a fresh one.
pub struct RunBuilder {
    lines: Vec<Vec<u8>>,
    total: usize,
    max: usize,
}

impl RunBuilder {
    /// The lines accumulated so far.
    pub closed spec fn lines_view(self) -> Seq<Seq<u8>> {
        self.lines.deep_view()
    }

    /// The byte bound the builder was created with.
    pub closed spec fn max_spec(self) -> nat {
        self.max as nat
    }

    /// The builder's invariant: the byte counter matches the accumulated
    /// lines and stays below the bound.
    pub closed spec fn wf(self) -> bool {
        &&& self.max >= 1
        &&& self.total == run_bytes(self.lines.deep_view())
        &&& run_bytes(self.lines.deep_view()) < self.max
    }

    /// A fresh builder with no accumulated lines.
    pub fn new(max_run_bytes: usize) -> (r: RunBuilder)
        requires
            max_run_bytes >= 1,
        ensures
            r.wf(),
            r.lines_view() == Seq::<Seq<u8>>::empty(),
            r.max_spec() == max_run_bytes,
    {
        let r = RunBuilder { lines: Vec::new(), total: 0, max: max_run_bytes };
        proof {
            assert(r.lines.deep_view() =~= Seq::<Seq<u8>>::empty());
        }
        r
    }

    /// Adds the next source line. When the accumulated bytes reach the
    /// bound, the finished run — the accumulated lines with this line as its
    /// last — is returned and the builder starts over empty.
    pub fn push_line(&mut self, line: Vec<u8>) -> (r: Option<Vec<Vec<u8>>>)
        requires
            old(self).wf(),
        ensures
            final(self).wf(),
            final(self).max_spec() == old(self).max_spec(),
            match r {
                Some(run) => {
                    &&& run.deep_view() == old(self).lines_view().push(line@)
                    &&& run_bytes(run.deep_view()) >= old(self).max_spec()
                    &&& run_bytes(run.deep_view().drop_last()) < old(self).max_spec()
                    &&& final(self).lines_view() == Seq::<Seq<u8>>::empty()
                },
                None => {
                    &&& final(self).lines_view() == old(self).lines_view().push(line@)
                    &&& run_bytes(final(self).lines_view()) < old(self).max_spec()
                },
            },
    {
        let len = line.len();
        let ghost old_lines = self.lines;
        let ghost line_ghost = line;
        let full = len >= self.max - self.total;
        self.lines.push(line);
        proof {
            lemma_bytes_deep_view(line_ghost);
            lemma_deep_view_push(old_lines, self.lines, line_ghost);
            assert(self.lines.deep_view().drop_last() =~= old_lines.deep_view());
            assert(run_bytes(self.lines.deep_view()) == run_bytes(old_lines.deep_view())
                + line_ghost@.len());
        }
        if full {
            let mut run: Vec<Vec<u8>> = Vec::new();
            core::mem::swap(&mut run, &mut self.lines);
            self.total = 0;
            proof {
                assert(self.lines.deep_view() =~= Seq::<Seq<u8>>::empty());
            }
            Some(run)
        } else {
            self.total = self.total + len;
            None
        }
    }

    /// Whether any lines are accumulated.
    pub fn is_empty(&self) -> (r: bool)
        ensures
            r == (self.lines_view().len() == 0),
    {
        self.lines.len() == 0
    }

    /// Hands back the final, possibly short, run and leaves the builder
    /// empty.
    pub fn finish(&mut self) -> (r: Vec<Vec<u8>>)
        requires
            old(self).wf(),
        ensures
            final(self).wf(),
            final(self).max_spec() == old(self).max_spec(),
            r.deep_view() == old(self).lines_view(),
            run_bytes(r.deep_view()) < old(self).max_spec(),
            final(self).lines_view() == Seq::<Seq<u8>>::empty(),
    {
        let mut run: Vec<Vec<u8>> = Vec::new();
        core::mem::swap(&mut run, &mut self.lines);
        self.total = 0;
        proof {
            assert(self.lines.deep_view() =~= Seq::<Seq<u8>>::empty());
        }
        run
    }
}

/// Groups the source lines, in order, into runs: lines accumulate until the
/// byte bound is reached, which cuts the run. Concatenating the runs in
/// order reproduces the input exactly; no run is empty; an empty input
/// yields no runs; within every run all lines but the last stay under the
/// bound, and every run except possibly the last reaches it.
pub fn split_into_runs(lines: &Vec<Vec<u8>>, max_run_bytes: usize) -> (runs: Vec<Vec<Vec<u8>>>)
    requires
        max_run_bytes >= 1,
    ensures
        runs.deep_view().flatten() == lines.deep_view(),
        forall|i: int| 0 <= i < runs.deep_view().len() ==> #[trigger] runs.deep_view()[i].len()
            > 0,
        lines.deep_view().len() == 0 ==> runs.deep_view().len() == 0,
        forall|i: int| 0 <= i < runs.deep_view().len() ==> run_bytes(
            #[trigger] runs.deep_view()[i].drop_last(),
        ) < max_run_bytes,
        forall|i: int|
            0 <= i < runs.deep_view().len() - 1 ==> run_bytes(#[trigger] runs.deep_view()[i])
                >= max_run_bytes,
{
    let mut runs: Vec<Vec<Vec<u8>>> = Vec::new();
    let mut builder = RunBuilder::new(max_run_bytes);
    let n = lines.len();
    proof {
        assert(runs.deep_view() =~= Seq::<Seq<Seq<u8>>>::empty());
        assert(runs.deep_view().flatten() + builder.lines_view() =~= lines.deep_view().take(0));
    }
    let mut idx: usize = 0;
    while idx < n
        invariant
            idx <= n,
            n == lines@.len(),
            builder.wf(),
            builder.max_spec() == max_run_bytes,
            max_run_bytes >= 1,
            runs.deep_view().flatten() + builder.lines_view() == lines.deep_view().take(
                idx as int,
            ),
            forall|i: int| 0 <= i < runs.deep_view().len() ==> #[trigger] runs.deep_view()[i].len()
                > 0,
            forall|i: int| 0 <= i < runs.deep_view().len() ==> run_bytes(
                #[trigger] runs.deep_view()[i].drop_last(),
            ) < max_run_bytes,
            forall|i: int| 0 <= i < runs.deep_view().len() ==> run_bytes(
                #[trigger] runs.deep_view()[i],
            ) >= max_run_bytes,
        decreases n - idx,
    {
        let ghost pre_flat = runs.deep_view().flatten();
        let ghost pre_lines = builder.lines_view();
        let line = clone_line(&lines[idx]);
        let ghost line_view = line@;
        proof {
            lemma_bytes_deep_view(lines@[idx as int]);
            assert(line_view == lines.deep_view()[idx as int]);
            assert(lines.deep_view().take(idx as int + 1) =~= lines.deep_view().take(
                idx as int,
            ).push(line_view));
            assert(pre_flat + pre_lines.push(line_view) =~= (pre_flat + pre_lines).push(
                line_view,
            ));
        }
        let cut = builder.push_line(line);
        match cut {
            Some(run) => {
                let ghost old_runs = runs;
                runs.push(run);
                proof {
                    lemma_deep_view_push(old_runs, runs, run);
                    old_runs.deep_view().lemma_flatten_push(run.deep_view());
                    assert(runs.deep_view().flatten() =~= pre_flat + pre_lines.push(line_view));
                    assert(runs.deep_view().flatten() + builder.lines_view()
                        =~= runs.deep_view().flatten());
                    assert(runs.deep_view().flatten() + builder.lines_view()
                        == lines.deep_view().take(idx as int + 1));
                }
            },
            None => {
                proof {
                    assert(runs.deep_view().flatten() + builder.lines_view()
                        == lines.deep_view().take(idx as int + 1));
                }
            },
        }
        idx = idx + 1;
    }
    proof {
        assert(lines.deep_view().take(n as int) =~= lines.deep_view());
    }
    if builder.is_empty() {
        proof {
            assert(runs.deep_view().flatten() + builder.lines_view()
                =~= runs.deep_view().flatten());
        }
        runs
    } else {
        let ghost old_runs = runs;
        let last = builder.finish();
        runs.push(last);
        proof {
            lemma_deep_view_push(old_runs, runs, last);
            old_runs.deep_view().lemma_flatten_push(last.deep_view());
            assert(runs.deep_view().flatten() =~= lines.deep_view());
        }
        runs
    }
}

} // verus!
