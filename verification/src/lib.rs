//! External sort for flat, line-oriented files.
//!
//! The input is split into bounded-size runs, each run is sorted in memory
//! under a composite field comparator, and the sorted runs are combined by a
//! k-way merge that always emits the globally smallest remaining line.

pub mod merge;
pub mod order;
pub mod parse;
pub mod reader;
pub mod run_sort;
pub mod split;
pub mod views;

use vstd::prelude::*;
use crate::merge::merge_runs;
use crate::order::{FieldRule, all_fit, key_fits, sorted_lines};
use crate::run_sort::{lines_fit, sort_run};
use crate::split::split_into_runs;
use crate::views::{clone_run, lemma_deep_view_push, lemma_flatten_member};

verus! {

/// The failure conditions of the library's own logic: a specification text
/// that does not parse, and a field rule whose byte range exceeds a line.
/// I/O failures are the caller's concern and never reach this code.
#[derive(Clone, Copy, Debug, PartialEq, Eq, Structural)]
pub enum SortError {
    MalformedSpec,
    FieldOutOfBounds,
}

/// The whole sort in memory: the lines are split into bounded-size runs,
/// each run is sorted under the key, and the sorted runs are merged. The
/// result is sorted and holds exactly the input lines; when some line is
/// too short for the key, the out-of-bounds failure is reported instead,
/// and that is the only failure.
pub fn external_sort(lines: &Vec<Vec<u8>>, max_run_bytes: usize, key: &Vec<FieldRule>) -> (r:
    Result<Vec<Vec<u8>>, SortError>)
    requires
        max_run_bytes >= 1,
    ensures
        match r {
            Ok(out) => {
                &&& all_fit(lines.deep_view(), key@)
                &&& sorted_lines(out.deep_view(), key@)
                &&& out.deep_view().to_multiset() == lines.deep_view().to_multiset()
                &&& lines.deep_view().len() == 0 ==> out.deep_view().len() == 0
            },
            Err(e) => {
                &&& e == SortError::FieldOutOfBounds
                &&& !all_fit(lines.deep_view(), key@)
            },
        },
{
    broadcast use vstd::multiset::group_multiset_axioms;

    if !lines_fit(lines, key) {
        return Err(SortError::FieldOutOfBounds);
    }
    let runs = split_into_runs(lines, max_run_bytes);
    let ghost rdv = runs.deep_view();
    let n = runs.len();
    let mut sorted_runs: Vec<Vec<Vec<u8>>> = Vec::new();
    proof {
        assert(sorted_runs.deep_view() =~= Seq::<Seq<Seq<u8>>>::empty());
        assert(sorted_runs.deep_view().flatten() =~= Seq::<Seq<u8>>::empty());
        assert(rdv.take(0) =~= Seq::<Seq<Seq<u8>>>::empty());
        assert(rdv.take(0).flatten() =~= Seq::<Seq<u8>>::empty());
    }
    let mut j: usize = 0;
    while j < n
        invariant
            j <= n,
            n == runs@.len(),
            rdv == runs.deep_view(),
            all_fit(lines.deep_view(), key@),
            rdv.flatten() == lines.deep_view(),
            sorted_runs.deep_view().len() == j,
            forall|q: int|
                0 <= q < j ==> sorted_lines(#[trigger] sorted_runs.deep_view()[q], key@),
            forall|q: int| 0 <= q < j ==> all_fit(#[trigger] sorted_runs.deep_view()[q], key@),
            sorted_runs.deep_view().flatten().to_multiset() == rdv.take(
                j as int,
            ).flatten().to_multiset(),
        decreases n - j,
    {
        let mut run = clone_run(&runs[j]);
        proof {
            assert(run.deep_view() == rdv[j as int]);
            assert forall|k: int| 0 <= k < run.deep_view().len() implies key_fits(
                #[trigger] run.deep_view()[k],
                key@,
            ) by {
                lemma_flatten_member(rdv, j as int, k);
                let x = rdv[j as int][k];
                let m = choose|m: int|
                    0 <= m < lines.deep_view().len() && lines.deep_view()[m] == x;
                assert(key_fits(lines.deep_view()[m], key@));
            }
        }
        let res = sort_run(&mut run, key);
        proof {
            assert(res is Ok);
        }
        let ghost run_g = run;
        let ghost sr0 = sorted_runs;
        sorted_runs.push(run);
        proof {
            lemma_deep_view_push(sr0, sorted_runs, run_g);
            sr0.deep_view().lemma_flatten_push(run_g.deep_view());
            vstd::seq_lib::lemma_multiset_commutative(sr0.deep_view().flatten(), run_g.deep_view());
            assert(rdv.take(j as int + 1) =~= rdv.take(j as int).push(rdv[j as int]));
            rdv.take(j as int).lemma_flatten_push(rdv[j as int]);
            vstd::seq_lib::lemma_multiset_commutative(rdv.take(j as int).flatten(), rdv[j as int]);
            assert(sorted_runs.deep_view().flatten().to_multiset() =~= rdv.take(
                j as int + 1,
            ).flatten().to_multiset());
        }
        j = j + 1;
    }
    proof {
        assert(rdv.take(n as int) =~= rdv);
    }
    let merged = merge_runs(&sorted_runs, key);
    proof {
        merged.deep_view().to_multiset_ensures();
        lines.deep_view().to_multiset_ensures();
    }
    Ok(merged)
}

} // verus!
