//! The run sorter: one run is loaded as a sequence of lines and sorted in
//! memory under the composite field comparator by a stable insertion sort.

use vstd::prelude::*;
use core::cmp::Ordering;
use crate::order::{
    FieldRule, all_fit, compare_by_predicate, key_cmp, key_fits, lemma_key_cmp_flip,
    lemma_line_le_trans, line_fits, line_le, sorted_lines,
};
use crate::views::{lemma_bytes_deep_view, lemma_deep_view_insert, lemma_deep_view_remove};
use crate::SortError;

verus! {

/// Checks at run time that every rule of the key lies within every line.
pub fn lines_fit(lines: &Vec<Vec<u8>>, key: &Vec<FieldRule>) -> (r: bool)
    ensures
        r == all_fit(lines.deep_view(), key@),
{
    let mut i: usize = 0;
    while i < lines.len()
        invariant
            i <= lines@.len(),
            forall|q: int| 0 <= q < i ==> key_fits(#[trigger] lines.deep_view()[q], key@),
        decreases lines@.len() - i,
    {
        let ok = line_fits(&lines[i], key);
        proof {
            lemma_bytes_deep_view(lines@[i as int]);
        }
        if !ok {
            proof {
                assert(!key_fits(lines.deep_view()[i as int], key@));
            }
            return false;
        }
        i = i + 1;
    }
    true
}

/// The position before which the line at `i` must be inserted: the first
/// index among the already-sorted prefix `[0, i)` whose line compares
/// greater, or `i` itself when none does. Ties are passed over, which keeps
/// the sort stable.
fn find_insert_pos(lines: &Vec<Vec<u8>>, i: usize, key: &Vec<FieldRule>) -> (p: usize)
    requires
        i < lines@.len(),
        all_fit(lines.deep_view(), key@),
    ensures
        p <= i,
        forall|q: int|
            0 <= q < p ==> key_cmp(
                #[trigger] lines.deep_view()[q],
                lines.deep_view()[i as int],
                key@,
            ) != Ordering::Greater,
        p < i ==> key_cmp(lines.deep_view()[p as int], lines.deep_view()[i as int], key@)
            == Ordering::Greater,
{
    let mut p: usize = 0;
    while p < i
        invariant
            p <= i,
            i < lines@.len(),
            all_fit(lines.deep_view(), key@),
            forall|q: int|
                0 <= q < p ==> key_cmp(
                    #[trigger] lines.deep_view()[q],
                    lines.deep_view()[i as int],
                    key@,
                ) != Ordering::Greater,
        decreases i - p,
    {
        proof {
            lemma_bytes_deep_view(lines@[p as int]);
            lemma_bytes_deep_view(lines@[i as int]);
            assert(key_fits(lines.deep_view()[p as int], key@));
            assert(key_fits(lines.deep_view()[i as int], key@));
            assert(lines.deep_view()[p as int] == lines@[p as int]@);
            assert(lines.deep_view()[i as int] == lines@[i as int]@);
        }
        let c = compare_by_predicate(&lines[p], &lines[i], key);
        if matches!(c, Ordering::Greater) {
            return p;
        }
        p = p + 1;
    }
    p
}

/// Sorts one run in memory under the composite key. The result is sorted,
/// is a permutation of the input, and an already-sorted run is returned
/// unchanged. When some line is too short for the key the run is left
/// untouched and the out-of-bounds failure is reported; that is the only
/// failure.
pub fn sort_run(lines: &mut Vec<Vec<u8>>, key: &Vec<FieldRule>) -> (r: Result<(), SortError>)
    ensures
        match r {
            Ok(()) => {
                &&& all_fit(old(lines).deep_view(), key@)
                &&& all_fit(final(lines).deep_view(), key@)
                &&& sorted_lines(final(lines).deep_view(), key@)
                &&& final(lines).deep_view().to_multiset() == old(lines).deep_view().to_multiset()
                &&& sorted_lines(old(lines).deep_view(), key@) ==> final(lines).deep_view() == old(
                    lines,
                ).deep_view()
            },
            Err(e) => {
                &&& e == SortError::FieldOutOfBounds
                &&& !all_fit(old(lines).deep_view(), key@)
                &&& *final(lines) == *old(lines)
            },
        },
{
    broadcast use vstd::seq_lib::group_to_multiset_ensures;

    if !lines_fit(lines, key) {
        return Err(SortError::FieldOutOfBounds);
    }
    let ghost orig = lines.deep_view();
    let n = lines.len();
    if n <= 1 {
        return Ok(());
    }
    let mut i: usize = 1;
    while i < n
        invariant
            1 <= i <= n,
            n == lines@.len(),
            all_fit(lines.deep_view(), key@),
            sorted_lines(lines.deep_view().take(i as int), key@),
            lines.deep_view().to_multiset() == orig.to_multiset(),
            sorted_lines(orig, key@) ==> lines.deep_view() == orig,
        decreases n - i,
    {
        let ghost pre_vec = *lines;
        let ghost pre = lines.deep_view();
        let p = find_insert_pos(lines, i, key);
        proof {
            if sorted_lines(orig, key@) && p < i {
                assert(line_le(pre[p as int], pre[i as int], key@));
                assert(false);
            }
        }
        if p < i {
            let x = lines.remove(i);
            let ghost mid_vec = *lines;
            lines.insert(p, x);
            proof {
                let e = pre[i as int];
                lemma_deep_view_remove(pre_vec, mid_vec, i as int);
                lemma_deep_view_insert(mid_vec, *lines, p as int, x);
                let mid = mid_vec.deep_view();
                let cur = lines.deep_view();
                assert(x.deep_view() == e);
                mid.insert_ensures(p as int, e);
                // Where each old line now stands.
                assert(cur.len() == pre.len());
                assert forall|j: int| 0 <= j < p implies cur[j] == pre[j] by {
                    assert(mid[j] == pre[j]);
                }
                assert(cur[p as int] == e);
                assert forall|j: int| p < j <= i implies cur[j] == pre[j - 1] by {
                    assert(cur[j] == mid[j - 1]);
                }
                assert forall|j: int| i < j < pre.len() implies cur[j] == pre[j] by {
                    assert(cur[j] == mid[j - 1]);
                    assert(mid[j - 1] == pre[j]);
                }
                // The moved line stands before every line it was compared
                // greater against.
                lemma_key_cmp_flip(pre[p as int], e, key@);
                assert forall|a: int| p <= a < i implies line_le(e, pre[a], key@) by {
                    if a > p {
                        assert(line_le(
                            pre.take(i as int)[p as int],
                            pre.take(i as int)[a],
                            key@,
                        ));
                        lemma_line_le_trans(e, pre[p as int], pre[a], key@);
                    }
                }
                // The extended prefix is sorted.
                assert forall|a: int, b: int|
                    0 <= a < b < i + 1 implies line_le(cur[a], cur[b], key@) by {
                    if b < p {
                    } else if b == p {
                        assert(cur[a] == pre[a] && cur[b] == e);
                    } else if a < p {
                        assert(cur[a] == pre[a] && cur[b] == pre[b - 1]);
                    } else if a == p {
                        assert(cur[a] == e && cur[b] == pre[b - 1]);
                    } else {
                        assert(cur[a] == pre[a - 1] && cur[b] == pre[b - 1]);
                    }
                }
                assert(sorted_lines(cur.take(i as int + 1), key@));
                // Still the same multiset of lines.
                vstd::seq_lib::to_multiset_remove(pre, i as int);
                vstd::seq_lib::to_multiset_insert(mid, p as int, e);
                assert(pre.contains(e)) by {
                    assert(pre[i as int] == e);
                }
                pre.to_multiset_ensures();
                assert(pre.to_multiset().count(e) > 0);
                assert(cur.to_multiset() =~= pre.to_multiset());
                // Every line still fits the key.
                assert forall|j: int| 0 <= j < cur.len() implies key_fits(
                    #[trigger] cur[j],
                    key@,
                ) by {
                    if j == p {
                        assert(cur[j] == pre[i as int]);
                    } else if p < j <= i {
                        assert(cur[j] == pre[j - 1]);
                    }
                }
            }
        } else {
            proof {
                assert(lines.deep_view().take(i as int + 1) =~= lines.deep_view().take(
                    i as int,
                ).push(pre[i as int]));
                assert forall|a: int, b: int|
                    0 <= a < b < i + 1 implies line_le(
                    lines.deep_view()[a],
                    lines.deep_view()[b],
                    key@,
                ) by {
                    if b == i {
                        assert(key_cmp(pre[a], pre[i as int], key@) != Ordering::Greater);
                    } else {
                        assert(line_le(pre.take(i as int)[a], pre.take(i as int)[b], key@));
                    }
                }
            }
        }
        i = i + 1;
    }
    proof {
        assert(lines.deep_view().take(n as int) =~= lines.deep_view());
    }
    Ok(())
}

} // verus!
