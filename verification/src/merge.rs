//! The merge engine's staging queue: an ordered sequence of
//! `(run id, line)` pairs holding the current frontier line of every still
//! active run, kept sorted by the composite comparator so that the head is
//! always the globally next line to emit.

use vstd::prelude::*;
use vstd::multiset::Multiset;
use core::cmp::Ordering;
use std::collections::VecDeque;
use vstd::pervasive::VecAdditionalExecFns;
use crate::order::{
    FieldRule, all_fit, compare_by_predicate, key_cmp, key_fits, lemma_key_cmp_flip,
    lemma_key_cmp_refl, lemma_line_le_trans, line_le, sorted_lines,
};
use crate::views::{clone_line, lemma_bytes_deep_view, lemma_deep_view_push};

verus! {

/// The line a queue entry carries.
pub open spec fn entry_line(e: (usize, Vec<u8>)) -> Seq<u8> {
    e.1@
}

/// A queue is sorted when its entries' lines are pairwise ordered.
pub open spec fn queue_sorted(q: Seq<(usize, Vec<u8>)>, key: Seq<FieldRule>) -> bool {
    forall|a: int, b: int|
        0 <= a < b < q.len() ==> line_le(
            entry_line(#[trigger] q[a]),
            entry_line(#[trigger] q[b]),
            key,
        )
}

/// Every rule of the key lies within every line the queue carries.
pub open spec fn queue_fits(q: Seq<(usize, Vec<u8>)>, key: Seq<FieldRule>) -> bool {
    forall|j: int| 0 <= j < q.len() ==> key_fits(entry_line(#[trigger] q[j]), key)
}

/// The lines the queue carries, in queue order.
pub open spec fn queue_lines(q: Seq<(usize, Vec<u8>)>) -> Seq<Seq<u8>> {
    Seq::new(q.len(), |j: int| q[j].1@)
}

/// Whether some entry of the queue belongs to run `i`.
pub open spec fn has_entry(q: Seq<(usize, Vec<u8>)>, i: int) -> bool {
    exists|j: int| 0 <= j < q.len() && (#[trigger] q[j]).0 == i
}

/// The position at which a line enters the queue: just before the first
/// entry whose line compares strictly greater, so a tie falls after the
/// existing equal entries.
pub open spec fn insert_pos(q: Seq<(usize, Vec<u8>)>, v: Seq<u8>, key: Seq<FieldRule>) -> int
    decreases q.len(),
{
    if q.len() == 0 {
        0
    } else if key_cmp(v, entry_line(q[0]), key) == Ordering::Less {
        0
    } else {
        1 + insert_pos(q.drop_first(), v, key)
    }
}

/// `insert_pos` is the first position whose entry compares greater.
pub proof fn lemma_insert_pos_props(q: Seq<(usize, Vec<u8>)>, v: Seq<u8>, key: Seq<FieldRule>)
    ensures
        0 <= insert_pos(q, v, key) <= q.len(),
        forall|j: int|
            0 <= j < insert_pos(q, v, key) ==> key_cmp(v, entry_line(#[trigger] q[j]), key)
                != Ordering::Less,
        insert_pos(q, v, key) < q.len() ==> key_cmp(
            v,
            entry_line(q[insert_pos(q, v, key)]),
            key,
        ) == Ordering::Less,
    decreases q.len(),
{
    if q.len() > 0 && key_cmp(v, entry_line(q[0]), key) != Ordering::Less {
        lemma_insert_pos_props(q.drop_first(), v, key);
        let p = insert_pos(q, v, key);
        assert forall|j: int|
            0 <= j < p implies key_cmp(v, entry_line(#[trigger] q[j]), key)
            != Ordering::Less by {
            if j > 0 {
                assert(q[j] == q.drop_first()[j - 1]);
            }
        }
        if p < q.len() {
            assert(q[p] == q.drop_first()[p - 1]);
        }
    }
}

/// Inserts the line into the staging queue just before the first entry that
/// compares strictly greater; when no entry does, the queue is returned
/// unchanged and the caller appends at the back.
/// Scans the queue for the first entry whose line compares strictly greater
/// than the given line; returns the queue's length when none does.
fn find_queue_pos(
    internal_buffer: &VecDeque<(usize, Vec<u8>)>,
    current_value: &Vec<u8>,
    sort: &Vec<FieldRule>,
) -> (p: usize)
    requires
        key_fits(current_value@, sort@),
        queue_fits(internal_buffer@, sort@),
    ensures
        p as int == insert_pos(internal_buffer@, current_value@, sort@),
{
    let ghost q0 = internal_buffer@;
    let cur_length = internal_buffer.len();
    let mut p: usize = 0;
    while p < cur_length
        invariant
            p <= cur_length,
            cur_length == q0.len(),
            internal_buffer@ == q0,
            key_fits(current_value@, sort@),
            queue_fits(q0, sort@),
            forall|j: int|
                0 <= j < p ==> key_cmp(current_value@, entry_line(#[trigger] q0[j]), sort@)
                    != Ordering::Less,
        decreases cur_length - p,
    {
        let t = &internal_buffer[p];
        let compare = compare_by_predicate(current_value, &t.1, sort);
        if matches!(compare, Ordering::Less) {
            proof {
                lemma_insert_pos_props(q0, current_value@, sort@);
            }
            return p;
        }
        p = p + 1;
    }
    proof {
        lemma_insert_pos_props(q0, current_value@, sort@);
    }
    p
}

/// Inserts the line into the staging queue just before the first entry that
/// compares strictly greater; when no entry does, the queue is returned
/// unchanged and the caller appends at the back.
pub fn internal_sort(
    internal_buffer: &mut VecDeque<(usize, Vec<u8>)>,
    current_value: &Vec<u8>,
    sort: &Vec<FieldRule>,
    pos: usize,
)
    requires
        key_fits(current_value@, sort@),
        queue_fits(old(internal_buffer)@, sort@),
    ensures
        ({
            let p = insert_pos(old(internal_buffer)@, current_value@, sort@);
            if p < old(internal_buffer)@.len() {
                &&& final(internal_buffer)@.len() == old(internal_buffer)@.len() + 1
                &&& forall|j: int|
                    0 <= j < p ==> final(internal_buffer)@[j] == old(internal_buffer)@[j]
                &&& final(internal_buffer)@[p].0 == pos
                &&& final(internal_buffer)@[p].1@ == current_value@
                &&& forall|j: int|
                    p < j < final(internal_buffer)@.len() ==> final(internal_buffer)@[j] == old(
                        internal_buffer,
                    )@[j - 1]
            } else {
                final(internal_buffer)@ == old(internal_buffer)@
            }
        }),
{
    let ghost q0 = internal_buffer@;
    let p = find_queue_pos(internal_buffer, current_value, sort);
    if p < internal_buffer.len() {
        let lowest_value = clone_line(current_value);
        let ghost elem = (pos, lowest_value);
        internal_buffer.insert(p, (pos, lowest_value));
        proof {
            q0.insert_ensures(p as int, elem);
            assert(internal_buffer@[p as int] == elem);
            assert forall|j: int|
                p < j < internal_buffer@.len() implies internal_buffer@[j] == q0[j - 1] by {
                assert(internal_buffer@[(j - 1) + 1] == q0[j - 1]);
            }
        }
    }
}

/// Places a run's next line in the staging queue at its sorted position,
/// appending at the back when every entry compares less or equal. The queue
/// stays sorted; its multiset of lines gains exactly this line.
pub fn queue_insert(
    internal_buffer: &mut VecDeque<(usize, Vec<u8>)>,
    value: &Vec<u8>,
    sort: &Vec<FieldRule>,
    pos: usize,
)
    requires
        key_fits(value@, sort@),
        queue_fits(old(internal_buffer)@, sort@),
        queue_sorted(old(internal_buffer)@, sort@),
    ensures
        ({
            let p = insert_pos(old(internal_buffer)@, value@, sort@);
            &&& final(internal_buffer)@.len() == old(internal_buffer)@.len() + 1
            &&& forall|j: int|
                0 <= j < p ==> final(internal_buffer)@[j] == old(internal_buffer)@[j]
            &&& final(internal_buffer)@[p].0 == pos
            &&& final(internal_buffer)@[p].1@ == value@
            &&& forall|j: int|
                p < j < final(internal_buffer)@.len() ==> final(internal_buffer)@[j] == old(
                    internal_buffer,
                )@[j - 1]
        }),
        queue_sorted(final(internal_buffer)@, sort@),
        queue_fits(final(internal_buffer)@, sort@),
        queue_lines(final(internal_buffer)@).to_multiset() == queue_lines(
            old(internal_buffer)@,
        ).to_multiset().insert(value@),
{
    let ghost q0 = internal_buffer@;
    let ghost p = insert_pos(q0, value@, sort@);
    let cur_length = internal_buffer.len();
    internal_sort(internal_buffer, value, sort, pos);
    if internal_buffer.len() == cur_length {
        let lowest_value = clone_line(value);
        internal_buffer.push_back((pos, lowest_value));
    }
    proof {
        let q2 = internal_buffer@;
        lemma_insert_pos_props(q0, value@, sort@);
        // The queue stays sorted around the new entry.
        assert forall|a: int, b: int|
            0 <= a < b < q2.len() implies line_le(
            entry_line(q2[a]),
            entry_line(q2[b]),
            sort@,
        ) by {
            if b < p {
            } else if b == p {
                assert(q2[a] == q0[a]);
                lemma_key_cmp_flip(value@, entry_line(q0[a]), sort@);
            } else if a < p {
                assert(q2[a] == q0[a] && q2[b] == q0[b - 1]);
            } else if a == p {
                assert(q2[b] == q0[b - 1]);
                if p < q0.len() && b - 1 > p {
                    assert(line_le(entry_line(q0[p]), entry_line(q0[b - 1]), sort@));
                    lemma_line_le_trans(value@, entry_line(q0[p]), entry_line(q0[b - 1]), sort@);
                }
            } else {
                assert(q2[a] == q0[a - 1] && q2[b] == q0[b - 1]);
            }
        }
        // Every line, old and new, still fits the key.
        assert forall|j: int| 0 <= j < q2.len() implies key_fits(
            entry_line(#[trigger] q2[j]),
            sort@,
        ) by {
            if j < p {
                assert(q2[j] == q0[j]);
            } else if j > p {
                assert(q2[j] == q0[j - 1]);
            }
        }
        // The multiset of carried lines gains exactly the new line.
        assert(queue_lines(q2) =~= queue_lines(q0).insert(p, value@));
        queue_lines(q0).insert_ensures(p, value@);
        vstd::seq_lib::to_multiset_insert(queue_lines(q0), p, value@);
    }
}

/// The multiset of lines not yet read out of the runs: for each run, its
/// lines from its read position on.
pub open spec fn rest_ms(runs: Seq<Seq<Seq<u8>>>, idx: Seq<usize>) -> Multiset<Seq<u8>>
    decreases runs.len(),
{
    if runs.len() == 0 || runs.len() != idx.len() {
        Multiset::empty()
    } else {
        runs.last().skip(idx.last() as int).to_multiset().add(
            rest_ms(runs.drop_last(), idx.drop_last()),
        )
    }
}

/// The number of lines not yet read out of the runs.
pub open spec fn rest_len(runs: Seq<Seq<Seq<u8>>>, idx: Seq<usize>) -> nat
    decreases runs.len(),
{
    if runs.len() == 0 || runs.len() != idx.len() {
        0
    } else {
        (if (idx.last() as int) <= runs.last().len() {
            (runs.last().len() - idx.last()) as nat
        } else {
            0
        }) + rest_len(runs.drop_last(), idx.drop_last())
    }
}

/// Reading one more line out of a run moves that line's bytes from the
/// unread multiset.
proof fn lemma_skip_advance(s: Seq<Seq<u8>>, k: int)
    requires
        0 <= k < s.len(),
    ensures
        s.skip(k).to_multiset().count(s[k]) >= 1,
        s.skip(k + 1).to_multiset() == s.skip(k).to_multiset().remove(s[k]),
{
    broadcast use vstd::multiset::group_multiset_axioms;

    let sk = s.skip(k);
    assert(sk[0] == s[k]);
    vstd::seq_lib::to_multiset_remove(sk, 0);
    assert(sk.remove(0) =~= s.skip(k + 1));
    sk.to_multiset_ensures();
    assert(sk.contains(s[k])) by {
        assert(sk[0] == s[k]);
    }
}

/// Advancing run `i`'s read position removes exactly its next line from the
/// unread multiset and shortens the unread count by one.
proof fn lemma_rest_advance(
    runs: Seq<Seq<Seq<u8>>>,
    idx: Seq<usize>,
    idx2: Seq<usize>,
    i: int,
    j: usize,
)
    requires
        idx.len() == runs.len(),
        0 <= i < runs.len(),
        (idx[i] as int) < runs[i].len(),
        forall|r: int| 0 <= r < runs.len() ==> (#[trigger] idx[r] as int) <= runs[r].len(),
        j as int == idx[i] as int + 1,
        idx2 == idx.update(i, j),
    ensures
        rest_ms(runs, idx).count(runs[i][idx[i] as int]) >= 1,
        rest_ms(runs, idx2) == rest_ms(runs, idx).remove(runs[i][idx[i] as int]),
        rest_len(runs, idx2) + 1 == rest_len(runs, idx),
    decreases runs.len(),
{
    broadcast use vstd::multiset::group_multiset_axioms;

    let e = runs[i][idx[i] as int];
    let n = runs.len();
    assert(idx2.len() == n);
    if i == n - 1 {
        assert(idx2.drop_last() =~= idx.drop_last());
        lemma_skip_advance(runs.last(), idx.last() as int);
        let r = rest_ms(runs.drop_last(), idx.drop_last());
        let a = runs.last().skip(idx.last() as int).to_multiset();
        assert(rest_ms(runs, idx) == a.add(r));
        assert(rest_ms(runs, idx2) == a.remove(e).add(r));
        assert(a.remove(e).add(r) =~= a.add(r).remove(e));
    } else {
        assert(idx2.drop_last() =~= idx.drop_last().update(i, j));
        assert(runs.drop_last()[i] == runs[i]);
        assert(idx.drop_last()[i] == idx[i]);
        assert forall|r: int|
            0 <= r < runs.drop_last().len() implies (#[trigger] idx.drop_last()[r] as int)
            <= runs.drop_last()[r].len() by {
            assert(idx[r] == idx.drop_last()[r]);
        }
        lemma_rest_advance(runs.drop_last(), idx.drop_last(), idx2.drop_last(), i, j);
        assert(idx2.last() == idx.last());
        let a = runs.last().skip(idx.last() as int).to_multiset();
        let r = rest_ms(runs.drop_last(), idx.drop_last());
        assert(rest_ms(runs, idx) == a.add(r));
        assert(rest_ms(runs, idx2) == a.add(r.remove(e)));
        assert(a.add(r.remove(e)) =~= a.add(r).remove(e));
    }
}

/// With every read position at the start, the unread multiset is the whole
/// input.
proof fn lemma_rest_full(runs: Seq<Seq<Seq<u8>>>, idx: Seq<usize>)
    requires
        idx.len() == runs.len(),
        forall|r: int| 0 <= r < idx.len() ==> #[trigger] idx[r] == 0,
    ensures
        rest_ms(runs, idx) == runs.flatten().to_multiset(),
    decreases runs.len(),
{
    broadcast use vstd::multiset::group_multiset_axioms;

    if runs.len() == 0 {
        assert(runs.flatten() =~= Seq::<Seq<u8>>::empty());
        runs.flatten().to_multiset_ensures();
        vstd::multiset::lemma_multiset_empty_len(runs.flatten().to_multiset());
    } else {
        lemma_rest_full(runs.drop_last(), idx.drop_last());
        assert(runs.last().skip(0) =~= runs.last());
        runs.lemma_flatten_and_flatten_alt_are_equivalent();
        runs.drop_last().lemma_flatten_and_flatten_alt_are_equivalent();
        vstd::seq_lib::lemma_multiset_commutative(runs.drop_last().flatten_alt(), runs.last());
        assert(runs.flatten_alt() == runs.drop_last().flatten_alt() + runs.last());
        assert(rest_ms(runs, idx) =~= runs.flatten().to_multiset());
    }
}

/// With every read position at its run's end, nothing is unread.
proof fn lemma_rest_exhausted(runs: Seq<Seq<Seq<u8>>>, idx: Seq<usize>)
    requires
        idx.len() == runs.len(),
        forall|r: int| 0 <= r < runs.len() ==> (#[trigger] idx[r] as int) == runs[r].len(),
    ensures
        rest_ms(runs, idx) == Multiset::<Seq<u8>>::empty(),
    decreases runs.len(),
{
    broadcast use vstd::multiset::group_multiset_axioms;

    if runs.len() > 0 {
        assert forall|r: int|
            0 <= r < runs.drop_last().len() implies (#[trigger] idx.drop_last()[r] as int)
            == runs.drop_last()[r].len() by {
            assert(idx[r] == idx.drop_last()[r]);
        }
        lemma_rest_exhausted(runs.drop_last(), idx.drop_last());
        assert(runs.last().skip(idx.last() as int) =~= Seq::<Seq<u8>>::empty());
        let ms = runs.last().skip(idx.last() as int).to_multiset();
        runs.last().skip(idx.last() as int).to_multiset_ensures();
        vstd::multiset::lemma_multiset_empty_len(ms);
        assert(rest_ms(runs, idx) =~= Multiset::<Seq<u8>>::empty());
    }
}

/// Every queue entry names a run and carries that run's current frontier
/// line: the line just before the run's read position.
pub open spec fn queue_entries_wf(
    q: Seq<(usize, Vec<u8>)>,
    runs: Seq<Seq<Seq<u8>>>,
    idx: Seq<usize>,
) -> bool {
    forall|j: int|
        0 <= j < q.len() ==> {
            let e = #[trigger] q[j];
            &&& (e.0 as int) < runs.len()
            &&& 1 <= idx[e.0 as int]
            &&& e.1@ == runs[e.0 as int][idx[e.0 as int] as int - 1]
        }
}

/// No two queue entries belong to the same run.
pub open spec fn queue_runs_unique(q: Seq<(usize, Vec<u8>)>) -> bool {
    forall|a: int, b: int| 0 <= a < b < q.len() ==> (#[trigger] q[a]).0 != (#[trigger] q[b]).0
}

/// Merges sorted runs into one sorted sequence of lines: the staging queue
/// holds each active run's frontier line and the smallest is repeatedly
/// emitted, the emitting run handing in its next line. The output is sorted
/// under the key and holds exactly the input runs' lines — none lost, none
/// duplicated.
#[verifier::rlimit(100)]
pub fn merge_runs(runs: &Vec<Vec<Vec<u8>>>, sort: &Vec<FieldRule>) -> (out: Vec<Vec<u8>>)
    requires
        forall|i: int|
            0 <= i < runs.deep_view().len() ==> sorted_lines(
                #[trigger] runs.deep_view()[i],
                sort@,
            ),
        forall|i: int|
            0 <= i < runs.deep_view().len() ==> all_fit(#[trigger] runs.deep_view()[i], sort@),
    ensures
        sorted_lines(out.deep_view(), sort@),
        out.deep_view().to_multiset() == runs.deep_view().flatten().to_multiset(),
{
    broadcast use vstd::multiset::group_multiset_axioms;

    let ghost rdv = runs.deep_view();
    let n = runs.len();
    let mut idx: Vec<usize> = Vec::new();
    let mut t: usize = 0;
    while t < n
        invariant
            t <= n,
            idx@.len() == t,
            forall|r: int| 0 <= r < t ==> #[trigger] idx@[r] == 0,
        decreases n - t,
    {
        idx.push(0);
        t = t + 1;
    }
    let mut internal_buffer: VecDeque<(usize, Vec<u8>)> = VecDeque::new();
    proof {
        lemma_rest_full(rdv, idx@);
        assert(queue_lines(internal_buffer@) =~= Seq::<Seq<u8>>::empty());
        queue_lines(internal_buffer@).to_multiset_ensures();
        vstd::multiset::lemma_multiset_empty_len(queue_lines(internal_buffer@).to_multiset());
        assert(queue_lines(internal_buffer@).to_multiset().add(rest_ms(rdv, idx@))
            =~= rdv.flatten().to_multiset());
    }
    let mut i: usize = 0;
    while i < n
        invariant
            i <= n,
            n == rdv.len(),
            n == runs@.len(),
            rdv == runs.deep_view(),
            idx@.len() == n,
            forall|r: int| 0 <= r < n ==> (#[trigger] idx@[r] as int) <= rdv[r].len(),
            forall|r: int| i <= r < n ==> #[trigger] idx@[r] == 0,
            forall|i2: int| 0 <= i2 < n ==> sorted_lines(#[trigger] rdv[i2], sort@),
            forall|i2: int| 0 <= i2 < n ==> all_fit(#[trigger] rdv[i2], sort@),
            queue_sorted(internal_buffer@, sort@),
            queue_fits(internal_buffer@, sort@),
            queue_entries_wf(internal_buffer@, rdv, idx@),
            queue_runs_unique(internal_buffer@),
            forall|j: int|
                0 <= j < internal_buffer@.len() ==> ((#[trigger] internal_buffer@[j]).0 as int)
                    < i,
            forall|r: int|
                0 <= r < i ==> has_entry(internal_buffer@, r) || (#[trigger] idx@[r] as int)
                    == rdv[r].len(),
            queue_lines(internal_buffer@).to_multiset().add(rest_ms(rdv, idx@)) == rdv.flatten(
            ).to_multiset(),
        decreases n - i,
    {
        let run_ref = &runs[i];
        if run_ref.len() > 0 {
            let next = clone_line(&run_ref[0]);
            proof {
                lemma_bytes_deep_view(runs@[i as int]@[0]);
                assert(next@ == rdv[i as int][0]);
                assert(key_fits(next@, sort@));
            }
            let ghost idx0 = idx@;
            idx.set(i, 1);
            let ghost q0 = internal_buffer@;
            queue_insert(&mut internal_buffer, &next, sort, i);
            proof {
                let q2 = internal_buffer@;
                let p = insert_pos(q0, next@, sort@);
                lemma_insert_pos_props(q0, next@, sort@);
                lemma_rest_advance(rdv, idx0, idx@, i as int, 1);
                // Entries still carry their run's frontier line.
                assert forall|j: int|
                    0 <= j < q2.len() implies ({
                    let e = #[trigger] q2[j];
                    &&& (e.0 as int) < rdv.len()
                    &&& 1 <= idx@[e.0 as int]
                    &&& e.1@ == rdv[e.0 as int][idx@[e.0 as int] as int - 1]
                }) by {
                    if j < p {
                        assert(q2[j] == q0[j]);
                        assert((q0[j].0 as int) < i as int);
                    } else if j > p {
                        assert(q2[j] == q0[j - 1]);
                        assert((q0[j - 1].0 as int) < i as int);
                    }
                }
                // Still at most one entry per run.
                assert forall|a: int, b: int|
                    0 <= a < b < q2.len() implies (#[trigger] q2[a]).0 != (#[trigger] q2[b]).0 by {
                    if a < p {
                        assert(q2[a] == q0[a]);
                    } else if a > p {
                        assert(q2[a] == q0[a - 1]);
                    }
                    if b < p {
                        assert(q2[b] == q0[b]);
                    } else if b > p {
                        assert(q2[b] == q0[b - 1]);
                    }
                }
                assert forall|j: int|
                    0 <= j < q2.len() implies ((#[trigger] q2[j]).0 as int) < i as int + 1 by {
                    if j < p {
                        assert(q2[j] == q0[j]);
                    } else if j > p {
                        assert(q2[j] == q0[j - 1]);
                    }
                }
                // Every already-seeded run still has its entry.
                assert forall|r: int|
                    0 <= r < i as int + 1 implies has_entry(q2, r) || (#[trigger] idx@[r] as int)
                    == rdv[r].len() by {
                    if r == i as int {
                        assert(q2[p].0 == i);
                    } else if has_entry(q0, r) {
                        let j = choose|j: int| 0 <= j < q0.len() && (#[trigger] q0[j]).0 == r;
                        if j < p {
                            assert(q2[j] == q0[j]);
                        } else {
                            assert(q2[j + 1] == q0[j]);
                        }
                    }
                }
                // The queue gained the line the run handed over.
                assert(queue_lines(q2).to_multiset().add(rest_ms(rdv, idx@)) =~= rdv.flatten(
                ).to_multiset());
            }
        } else {
            proof {
                assert(rdv[i as int].len() == 0);
                assert forall|r: int|
                    0 <= r < i as int + 1 implies has_entry(internal_buffer@, r) || (
                #[trigger] idx@[r] as int) == rdv[r].len() by {}
            }
        }
        i = i + 1;
    }
    let mut out_vec: Vec<Vec<u8>> = Vec::new();
    proof {
        assert(out_vec.deep_view() =~= Seq::<Seq<u8>>::empty());
        out_vec.deep_view().to_multiset_ensures();
        vstd::multiset::lemma_multiset_empty_len(out_vec.deep_view().to_multiset());
        assert(out_vec.deep_view().to_multiset().add(
            queue_lines(internal_buffer@).to_multiset(),
        ).add(rest_ms(rdv, idx@)) =~= rdv.flatten().to_multiset());
    }
    while internal_buffer.len() > 0
        invariant
            n == rdv.len(),
            n == runs@.len(),
            rdv == runs.deep_view(),
            idx@.len() == n,
            forall|r: int| 0 <= r < n ==> (#[trigger] idx@[r] as int) <= rdv[r].len(),
            forall|i2: int| 0 <= i2 < n ==> sorted_lines(#[trigger] rdv[i2], sort@),
            forall|i2: int| 0 <= i2 < n ==> all_fit(#[trigger] rdv[i2], sort@),
            queue_sorted(internal_buffer@, sort@),
            queue_fits(internal_buffer@, sort@),
            queue_entries_wf(internal_buffer@, rdv, idx@),
            queue_runs_unique(internal_buffer@),
            forall|r: int|
                0 <= r < n ==> has_entry(internal_buffer@, r) || (#[trigger] idx@[r] as int)
                    == rdv[r].len(),
            sorted_lines(out_vec.deep_view(), sort@),
            forall|k: int, j: int|
                0 <= k < out_vec.deep_view().len() && 0 <= j < internal_buffer@.len()
                    ==> line_le(
                    #[trigger] out_vec.deep_view()[k],
                    entry_line(#[trigger] internal_buffer@[j]),
                    sort@,
                ),
            out_vec.deep_view().to_multiset().add(queue_lines(internal_buffer@).to_multiset()).add(
                rest_ms(rdv, idx@),
            ) == rdv.flatten().to_multiset(),
        decreases rest_len(rdv, idx@) + internal_buffer@.len(),
    {
        let ghost q0 = internal_buffer@;
        let popped = internal_buffer.pop_front();
        let (run_id, line) = match popped {
            Some(h) => h,
            None => {
                proof {
                    assert(false);
                }
                (0, Vec::new())
            },
        };
        let ghost line_g = line;
        let ghost lv = line@;
        let ghost out0 = out_vec.deep_view();
        let ghost out0_vec = out_vec;
        proof {
            assert((run_id, line_g) == q0[0]);
            assert(lv == entry_line(q0[0]));
            assert((run_id as int) < n && 1 <= idx@[run_id as int] && lv == rdv[run_id as int][
                idx@[run_id as int] as int - 1]);
        }
        out_vec.push(line);
        proof {
            lemma_deep_view_push(out0_vec, out_vec, line_g);
            lemma_bytes_deep_view(line_g);
            lemma_key_cmp_refl(lv, sort@);
            // The output stays sorted: everything already emitted is at most
            // the head just taken.
            assert forall|a: int, b: int|
                0 <= a < b < out_vec.deep_view().len() implies line_le(
                out_vec.deep_view()[a],
                out_vec.deep_view()[b],
                sort@,
            ) by {
                if b == out0.len() {
                    assert(line_le(out0[a], entry_line(q0[0]), sort@));
                }
            }
            // Remaining entries still bound the output from above.
            assert(internal_buffer@ =~= q0.drop_first());
            assert forall|k: int, j: int|
                0 <= k < out_vec.deep_view().len() && 0 <= j < internal_buffer@.len()
                    implies line_le(
                #[trigger] out_vec.deep_view()[k],
                entry_line(#[trigger] internal_buffer@[j]),
                sort@,
            ) by {
                assert(internal_buffer@[j] == q0[j + 1]);
                assert(line_le(entry_line(q0[0]), entry_line(q0[j + 1]), sort@));
                if k < out0.len() {
                    assert(line_le(out0[k], entry_line(q0[j + 1]), sort@));
                }
            }
            // The emitted line moved from the queue to the output.
            assert(queue_lines(internal_buffer@) =~= queue_lines(q0).remove(0));
            vstd::seq_lib::to_multiset_remove(queue_lines(q0), 0);
            assert(queue_lines(q0)[0] == lv);
            vstd::seq_lib::to_multiset_build(out0, lv);
            assert(out0.push(lv) =~= out_vec.deep_view());
            assert(queue_lines(q0).to_multiset().count(lv) > 0) by {
                queue_lines(q0).to_multiset_ensures();
                assert(queue_lines(q0).contains(lv)) by {
                    assert(queue_lines(q0)[0] == lv);
                }
            }
            assert(out_vec.deep_view().to_multiset().add(
                queue_lines(internal_buffer@).to_multiset(),
            ).add(rest_ms(rdv, idx@)) =~= rdv.flatten().to_multiset());
        }
        let k = idx[run_id];
        let run_ref = &runs[run_id];
        if k < run_ref.len() {
            let next = clone_line(&run_ref[k]);
            proof {
                lemma_bytes_deep_view(runs@[run_id as int]@[k as int]);
                assert(next@ == rdv[run_id as int][k as int]);
                assert(key_fits(next@, sort@));
                // The run is sorted, so its next line follows the one just
                // emitted.
                assert(line_le(lv, next@, sort@)) by {
                    if k as int == idx@[run_id as int] as int - 1 + 1 {
                        assert(line_le(
                            rdv[run_id as int][k as int - 1],
                            rdv[run_id as int][k as int],
                            sort@,
                        ));
                    }
                }
            }
            let ghost idx0 = idx@;
            idx.set(run_id, k + 1);
            let ghost q1 = internal_buffer@;
            queue_insert(&mut internal_buffer, &next, sort, run_id);
            proof {
                let q2 = internal_buffer@;
                let p = insert_pos(q1, next@, sort@);
                lemma_insert_pos_props(q1, next@, sort@);
                lemma_rest_advance(rdv, idx0, idx@, run_id as int, (k + 1) as usize);
                // The popped head was the only entry of its run.
                assert forall|j: int| 0 <= j < q1.len() implies (#[trigger] q1[j]).0 != run_id by {
                    assert(q1[j] == q0[j + 1]);
                    assert(q0[0].0 == run_id);
                }
                // Entries still carry their run's frontier line.
                assert forall|j: int|
                    0 <= j < q2.len() implies ({
                    let e = #[trigger] q2[j];
                    &&& (e.0 as int) < rdv.len()
                    &&& 1 <= idx@[e.0 as int]
                    &&& e.1@ == rdv[e.0 as int][idx@[e.0 as int] as int - 1]
                }) by {
                    if j < p {
                        assert(q2[j] == q1[j]);
                    } else if j > p {
                        assert(q2[j] == q1[j - 1]);
                    }
                }
                // Still at most one entry per run.
                assert forall|a: int, b: int|
                    0 <= a < b < q2.len() implies (#[trigger] q2[a]).0 != (#[trigger] q2[b]).0 by {
                    if a < p {
                        assert(q2[a] == q1[a]);
                    } else if a > p {
                        assert(q2[a] == q1[a - 1]);
                    }
                    if b < p {
                        assert(q2[b] == q1[b]);
                    } else if b > p {
                        assert(q2[b] == q1[b - 1]);
                    }
                }
                // Every run still has an entry or is exhausted.
                assert forall|r: int|
                    0 <= r < n implies has_entry(q2, r) || (#[trigger] idx@[r] as int)
                    == rdv[r].len() by {
                    if r == run_id as int {
                        assert(q2[p].0 == run_id);
                    } else if has_entry(q0, r) {
                        let j = choose|j: int| 0 <= j < q0.len() && (#[trigger] q0[j]).0 == r;
                        assert(j >= 1);
                        assert(q1[j - 1] == q0[j]);
                        if j - 1 < p {
                            assert(q2[j - 1] == q1[j - 1]);
                        } else {
                            assert(q2[j] == q1[j - 1]);
                        }
                    }
                }
                // The output is still bounded by every entry, the new one
                // through the run's own order.
                assert forall|k2: int, j: int|
                    0 <= k2 < out_vec.deep_view().len() && 0 <= j < q2.len() implies line_le(
                    #[trigger] out_vec.deep_view()[k2],
                    entry_line(#[trigger] q2[j]),
                    sort@,
                ) by {
                    if j == p {
                        assert(line_le(out_vec.deep_view()[k2], lv, sort@));
                        lemma_line_le_trans(out_vec.deep_view()[k2], lv, next@, sort@);
                    } else if j < p {
                        assert(q2[j] == q1[j]);
                    } else {
                        assert(q2[j] == q1[j - 1]);
                    }
                }
                // The line moved from the unread rest into the queue.
                assert(out_vec.deep_view().to_multiset().add(queue_lines(q2).to_multiset()).add(
                    rest_ms(rdv, idx@),
                ) =~= rdv.flatten().to_multiset());
            }
        } else {
            proof {
                let q2 = internal_buffer@;
                // The popped run is exhausted; every other run's entry moved
                // down one place.
                assert forall|r: int|
                    0 <= r < n implies has_entry(q2, r) || (#[trigger] idx@[r] as int)
                    == rdv[r].len() by {
                    if r == run_id as int {
                        assert(idx@[r] as int <= rdv[r].len());
                    } else if has_entry(q0, r) {
                        let j = choose|j: int| 0 <= j < q0.len() && (#[trigger] q0[j]).0 == r;
                        assert(j >= 1);
                        assert(q2[j - 1] == q0[j]);
                    }
                }
            }
        }
    }
    proof {
        assert forall|r: int| 0 <= r < n implies (#[trigger] idx@[r] as int) == rdv[r].len() by {
            if has_entry(internal_buffer@, r) {
                let j = choose|j: int|
                    0 <= j < internal_buffer@.len() && (#[trigger] internal_buffer@[j]).0 == r;
                assert(false);
            }
        }
        lemma_rest_exhausted(rdv, idx@);
        assert(queue_lines(internal_buffer@) =~= Seq::<Seq<u8>>::empty());
        queue_lines(internal_buffer@).to_multiset_ensures();
        vstd::multiset::lemma_multiset_empty_len(queue_lines(internal_buffer@).to_multiset());
        assert(out_vec.deep_view().to_multiset() =~= rdv.flatten().to_multiset());
    }
    out_vec
}

} // verus!
