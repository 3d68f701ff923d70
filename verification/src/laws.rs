use vstd::prelude::*;
use crate::metaroom::{MetaroomID, MetaroomView};
use crate::model::{candidates_valid, named_registrations, named_count, gathered, lemma_gathered_layout, lemma_merge_possible_iff_candidates_valid, has_id, position_of, lemma_position_of, merge_count, wf_merges, mark_all, with_room, merge_possible, merged_view, merge_unordered, merge_outcome, is_unmerged_prefix, lemma_mark_all, lemma_same_multiset, lemma_merge_preserves_wf, lemma_with_room};

verus! {

/// In a well-formed `Merges`, the leading run of never-merged metarooms is exactly the
/// set of never-merged metarooms: a metaroom is listed by `metarooms` if and only if it
/// was not merged into another.
pub proof fn lemma_listed_are_unmerged(s: Seq<MetaroomView>, n: int)
    requires
        wf_merges(s),
        is_unmerged_prefix(s, n),
    ensures
        forall|i: int| 0 <= i < s.len() ==> (i < n <==> (#[trigger] s[i]).merged_into.len() == 0),
{
    assert forall|i: int| 0 <= i < s.len() implies (i < n <==> (#[trigger] s[i]).merged_into.len()
        == 0) by {
        if i >= n {
            assert(merge_count(s[n]) <= merge_count(s[i]));
        }
    }
}

/// A merge retires what it merges: afterwards the merged metaroom stands among the
/// metarooms, never merged itself, while the room's own metaroom and every metaroom
/// named in `merges` are recorded as merged into it.
pub proof fn lemma_merge_retires_inputs(
    s: Seq<MetaroomView>,
    room: usize,
    merges: Seq<(MetaroomID, (i32, i32))>,
    t: Seq<MetaroomView>,
)
    requires
        s.len() + 1 < usize::MAX,
        wf_merges(s),
        merges.len() > 0,
        merge_possible(s, room, merges),
        merge_outcome(s, room, merges, t),
    ensures
        exists|i: int| 0 <= i < t.len() && t[i] == merged_view(s, room, merges),
        merged_view(s, room, merges).merged_into.len() == 0,
        forall|i: int|
            0 <= i < t.len() && t[i].id == MetaroomID(s.len() as usize) ==> (#[trigger] t[i]).merged_into.contains(
                MetaroomID((s.len() + 1) as usize),
            ),
        forall|i: int, k: int|
            0 <= i < t.len() && 0 <= k < merges.len() && (#[trigger] t[i]).id == (#[trigger] merges[k]).0
                ==> t[i].merged_into.contains(MetaroomID((s.len() + 1) as usize)),
{
    let pre = with_room(s, room);
    let mid = MetaroomID((s.len() + 1) as usize);
    let marked = mark_all(pre, merges, mid);
    let u = merge_unordered(s, room, merges);
    lemma_with_room(s, room);
    lemma_mark_all(pre, merges, mid);
    lemma_same_multiset(u, t);
    assert(u[u.len() - 1] == merged_view(s, room, merges));
    assert(t.contains(u[u.len() - 1]));
    assert forall|i: int|
        0 <= i < t.len() && t[i].id == MetaroomID(s.len() as usize) implies (#[trigger] t[i]).merged_into.contains(
        mid,
    ) by {
        assert(u.contains(t[i]));
        let a = choose|a: int| 0 <= a < u.len() && u[a] == t[i];
        assert(a < marked.len());
        assert(u[a] == marked[a]);
        if a > 0 {
            assert(pre[a].id != pre[0].id);
        }
        assert(a == 0);
        assert(pre[0].merged_into.is_prefix_of(marked[0].merged_into));
        assert(marked[0].merged_into[0] == pre[0].merged_into[0]);
        assert(t[i].merged_into[0] == mid);
    }
    assert forall|i: int, k: int|
        0 <= i < t.len() && 0 <= k < merges.len() && (#[trigger] t[i]).id == (#[trigger] merges[k]).0
        implies t[i].merged_into.contains(mid) by {
        assert(u.contains(t[i]));
        let a = choose|a: int| 0 <= a < u.len() && u[a] == t[i];
        assert(has_id(pre, merges[k].0));
        lemma_position_of(pre, merges[k].0);
        let q = position_of(pre, merges[k].0);
        assert(a < marked.len());
        assert(u[a] == marked[a]);
        if a != q {
            assert(pre[a].id != pre[q].id);
        }
        assert(a == q);
        let n = pre[q].merged_into.len();
        assert(marked[q].merged_into[n as int] == mid);
        assert(t[i].merged_into[n as int] == mid);
    }
}

/// What a merge leaves listed: in a well-formed `Merges`, after merging `room` with a
/// non-empty `merges`, the metarooms that `metarooms` lists include the new merged
/// metaroom, and neither the room's own metaroom nor any metaroom named in `merges`.
pub proof fn lemma_merge_listing(
    s: Seq<MetaroomView>,
    room: usize,
    merges: Seq<(MetaroomID, (i32, i32))>,
    t: Seq<MetaroomView>,
    n: int,
)
    requires
        s.len() + 1 < usize::MAX,
        wf_merges(s),
        merges.len() > 0,
        merge_possible(s, room, merges),
        merge_outcome(s, room, merges, t),
        is_unmerged_prefix(t, n),
    ensures
        exists|i: int| 0 <= i < n && t[i] == merged_view(s, room, merges),
        forall|i: int| 0 <= i < n ==> (#[trigger] t[i]).id != MetaroomID(s.len() as usize),
        forall|i: int, k: int|
            0 <= i < n && 0 <= k < merges.len() ==> (#[trigger] t[i]).id != (#[trigger] merges[k]).0,
{
    lemma_merge_preserves_wf(s, room, merges, t);
    lemma_merge_retires_inputs(s, room, merges, t);
    lemma_listed_are_unmerged(t, n);
    let i = choose|i: int| 0 <= i < t.len() && t[i] == merged_view(s, room, merges);
    assert(t[i].merged_into.len() == 0);
    assert(i < n);
    assert forall|i: int| 0 <= i < n implies (#[trigger] t[i]).id != MetaroomID(s.len() as usize) by {
        if t[i].id == MetaroomID(s.len() as usize) {
            assert(t[i].merged_into.contains(MetaroomID((s.len() + 1) as usize)));
        }
    }
    assert forall|i: int, k: int|
        0 <= i < n && 0 <= k < merges.len() implies (#[trigger] t[i]).id != (#[trigger] merges[k]).0 by {
        if t[i].id == merges[k].0 {
            assert(t[i].merged_into.contains(MetaroomID((s.len() + 1) as usize)));
        }
    }
}


/// What the merged metaroom holds: after merging `room` with valid candidates into a
/// well-formed `Merges`, the metaroom with the new id is unmerged and registers `room`
/// at (0, 0), then, for each candidate `k` in turn, every registration of the metaroom
/// that candidate names, in order, with the candidate's offset taken off: adding the
/// offset back to each gives that registration exactly.
pub proof fn lemma_merge_registrations(
    s: Seq<MetaroomView>,
    room: usize,
    merges: Seq<(MetaroomID, (i32, i32))>,
    t: Seq<MetaroomView>,
)
    requires
        s.len() + 1 < usize::MAX,
        wf_merges(s),
        merges.len() > 0,
        candidates_valid(s, room, merges),
        merge_outcome(s, room, merges, t),
    ensures
        exists|i: int| 0 <= i < t.len() && t[i].id == MetaroomID((s.len() + 1) as usize),
        forall|i: int|
            0 <= i < t.len() && (#[trigger] t[i]).id == MetaroomID((s.len() + 1) as usize) ==> {
                &&& t[i].merged_into.len() == 0
                &&& t[i].registrations.len() == 1 + named_count(s, room, merges)
                &&& t[i].registrations[0] == (room, (0i32, 0i32))
                &&& forall|k: int, j: int|
                    0 <= k < merges.len() && 0 <= j < named_registrations(s, room, merges[k].0).len()
                        ==> {
                        let r = t[i].registrations[1 + named_count(s, room, merges.take(k)) + j];
                        let o = #[trigger] named_registrations(s, room, merges[k].0)[j];
                        &&& r.0 == o.0
                        &&& r.1.0 + merges[k].1.0 == o.1.0
                        &&& r.1.1 + merges[k].1.1 == o.1.1
                    }
            },
{
    let pre = with_room(s, room);
    let mid = MetaroomID((s.len() + 1) as usize);
    let marked = mark_all(pre, merges, mid);
    let u = merge_unordered(s, room, merges);
    let mv = merged_view(s, room, merges);
    lemma_merge_possible_iff_candidates_valid(s, room, merges);
    lemma_with_room(s, room);
    lemma_mark_all(pre, merges, mid);
    lemma_same_multiset(u, t);
    lemma_gathered_layout(s, room, merges);
    assert(u[u.len() - 1] == mv);
    assert(t.contains(mv));
    assert forall|i: int| 0 <= i < t.len() && (#[trigger] t[i]).id == mid implies t[i] == mv by {
        assert(u.contains(t[i]));
        let a = choose|a: int| 0 <= a < u.len() && u[a] == t[i];
        if a < marked.len() {
            assert(u[a] == marked[a]);
            assert(marked[a].id == pre[a].id);
        }
    }
    assert forall|k: int, j: int|
        0 <= k < merges.len() && 0 <= j < named_registrations(s, room, merges[k].0).len() implies {
        let r = mv.registrations[1 + named_count(s, room, merges.take(k)) + j];
        let o = #[trigger] named_registrations(s, room, merges[k].0)[j];
        &&& r.0 == o.0
        &&& r.1.0 + merges[k].1.0 == o.1.0
        &&& r.1.1 + merges[k].1.1 == o.1.1
    } by {
        let o = named_registrations(s, room, merges[k].0)[j];
        assert(i32::MIN <= o.1.0 - merges[k].1.0 <= i32::MAX);
        assert(i32::MIN <= o.1.1 - merges[k].1.1 <= i32::MAX);
        assert(named_count(s, room, merges.take(k)) + named_registrations(s, room, merges[k].0).len()
            <= named_count(s, room, merges));
        assert(mv.registrations[1 + named_count(s, room, merges.take(k)) + j] == gathered(
            pre,
            merges,
        )[named_count(s, room, merges.take(k)) + j]);
    }
}


/// Candidates that can each be merged can be merged together: if a merge with the
/// candidates `a` can be made, and one with `b`, so can one with `a` followed by `b`.
pub proof fn lemma_merge_possible_concat(
    s: Seq<MetaroomView>,
    room: usize,
    a: Seq<(MetaroomID, (i32, i32))>,
    b: Seq<(MetaroomID, (i32, i32))>,
)
    requires
        s.len() + 1 < usize::MAX,
        merge_possible(s, room, a),
        merge_possible(s, room, b),
    ensures
        merge_possible(s, room, a + b),
{
    lemma_merge_possible_iff_candidates_valid(s, room, a);
    lemma_merge_possible_iff_candidates_valid(s, room, b);
    lemma_merge_possible_iff_candidates_valid(s, room, a + b);
    let c = a + b;
    assert forall|k: int| 0 <= k < c.len() implies (#[trigger] c[k]).0 == MetaroomID(
        s.len() as usize,
    ) || has_id(s, c[k].0) by {
        if k < a.len() {
            assert(c[k] == a[k]);
        } else {
            assert(c[k] == b[k - a.len()]);
        }
    }
    assert forall|k: int, j: int|
        0 <= k < c.len() && 0 <= j < named_registrations(s, room, c[k].0).len() implies {
        let o = #[trigger] named_registrations(s, room, c[k].0)[j];
        &&& i32::MIN <= o.1.0 - c[k].1.0 <= i32::MAX
        &&& i32::MIN <= o.1.1 - c[k].1.1 <= i32::MAX
    } by {
        if k < a.len() {
            assert(c[k] == a[k]);
            let o = named_registrations(s, room, a[k].0)[j];
            assert(i32::MIN <= o.1.0 - a[k].1.0 <= i32::MAX);
        } else {
            assert(c[k] == b[k - a.len()]);
            let o = named_registrations(s, room, b[k - a.len()].0)[j];
            assert(i32::MIN <= o.1.0 - b[k - a.len()].1.0 <= i32::MAX);
        }
    }
}

} // verus!
