//! Small helpers relating exec collections of lines to their mathematical
//! views.

use vstd::prelude::*;

verus! {

/// The deep view of a byte vector is its ordinary view.
pub proof fn lemma_bytes_deep_view(v: Vec<u8>)
    ensures
        v.deep_view() == v@,
{
    assert(v.deep_view() =~= v@);
}

/// Pushing onto a vector pushes the element's deep view onto its deep view.
pub proof fn lemma_deep_view_push<T: DeepView>(v: Vec<T>, w: Vec<T>, x: T)
    requires
        w@ == v@.push(x),
    ensures
        w.deep_view() == v.deep_view().push(x.deep_view()),
{
    assert forall|i: int| 0 <= i < w.deep_view().len() implies w.deep_view()[i]
        == v.deep_view().push(x.deep_view())[i] by {
        if i < v@.len() {
            assert(w@[i] == v@[i]);
        } else {
            assert(w@[i] == x);
        }
    }
    assert(w.deep_view() =~= v.deep_view().push(x.deep_view()));
}

/// Inserting into a vector inserts the element's deep view into its deep view.
pub proof fn lemma_deep_view_insert<T: DeepView>(v: Vec<T>, w: Vec<T>, i: int, x: T)
    requires
        0 <= i <= v@.len(),
        w@ == v@.insert(i, x),
    ensures
        w.deep_view() == v.deep_view().insert(i, x.deep_view()),
{
    v@.insert_ensures(i, x);
    v.deep_view().insert_ensures(i, x.deep_view());
    assert forall|j: int| 0 <= j < w.deep_view().len() implies w.deep_view()[j]
        == v.deep_view().insert(i, x.deep_view())[j] by {
        if j < i {
            assert(w@[j] == v@[j]);
        } else if j == i {
            assert(w@[j] == x);
        } else {
            assert(w@[j] == v@[j - 1]);
            assert(v.deep_view().insert(i, x.deep_view())[j] == v.deep_view()[j - 1]);
        }
    }
    assert(w.deep_view() =~= v.deep_view().insert(i, x.deep_view()));
}

/// Removing from a vector removes the same position from its deep view.
pub proof fn lemma_deep_view_remove<T: DeepView>(v: Vec<T>, w: Vec<T>, i: int)
    requires
        0 <= i < v@.len(),
        w@ == v@.remove(i),
    ensures
        w.deep_view() == v.deep_view().remove(i),
{
    assert forall|j: int| 0 <= j < w.deep_view().len() implies w.deep_view()[j]
        == v.deep_view().remove(i)[j] by {
        if j < i {
            assert(w@[j] == v@[j]);
        } else {
            assert(w@[j] == v@[j + 1]);
        }
    }
    assert(w.deep_view() =~= v.deep_view().remove(i));
}

/// Every element of an inner sequence is an element of the flattening.
pub proof fn lemma_flatten_member<A>(ss: Seq<Seq<A>>, i: int, k: int)
    requires
        0 <= i < ss.len(),
        0 <= k < ss[i].len(),
    ensures
        ss.flatten().contains(ss[i][k]),
    decreases ss.len(),
{
    assert(ss.flatten() == ss.first() + ss.drop_first().flatten());
    if i == 0 {
        assert(ss.flatten()[k] == ss[0][k]);
    } else {
        assert(ss.drop_first()[i - 1] == ss[i]);
        lemma_flatten_member(ss.drop_first(), i - 1, k);
        let x = ss[i][k];
        let m = choose|m: int|
            0 <= m < ss.drop_first().flatten().len() && ss.drop_first().flatten()[m] == x;
        assert(ss.flatten()[ss.first().len() + m] == x);
    }
}

/// An exact copy of a run's lines.
pub fn clone_run(v: &Vec<Vec<u8>>) -> (r: Vec<Vec<u8>>)
    ensures
        r.deep_view() == v.deep_view(),
{
    let mut r: Vec<Vec<u8>> = Vec::new();
    let mut i: usize = 0;
    proof {
        assert(r.deep_view() =~= v.deep_view().take(0));
    }
    while i < v.len()
        invariant
            i <= v@.len(),
            r.deep_view() == v.deep_view().take(i as int),
        decreases v@.len() - i,
    {
        let ghost r0 = r;
        let line = clone_line(&v[i]);
        let ghost line_g = line;
        r.push(line);
        proof {
            lemma_deep_view_push(r0, r, line_g);
            lemma_bytes_deep_view(line_g);
            lemma_bytes_deep_view(v@[i as int]);
            assert(r.deep_view() =~= v.deep_view().take(i as int + 1));
        }
        i = i + 1;
    }
    proof {
        assert(v.deep_view().take(i as int) =~= v.deep_view());
    }
    r
}

/// An exact copy of a line.
pub fn clone_line(v: &Vec<u8>) -> (r: Vec<u8>)
    ensures
        r@ == v@,
{
    let r = v.clone();
    proof {
        assert forall|i: int| 0 <= i < v@.len() implies r@[i] == v@[i] by {
            assert(vstd::pervasive::cloned::<u8>(v@[i], r@[i]));
        }
        assert(r@ =~= v@);
    }
    r
}

} // verus!
