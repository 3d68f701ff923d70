use vstd::prelude::*;
use crate::metaroom::{MetaroomID, MetaroomView};

verus! {

/// `i` is the first position in `s` whose metaroom carries `id`.
pub open spec fn is_first_with_id(s: Seq<MetaroomView>, id: MetaroomID, i: int) -> bool {
    &&& 0 <= i < s.len()
    &&& s[i].id == id
    &&& forall|j: int| 0 <= j < i ==> s[j].id != id
}

/// Some metaroom in `s` carries `id`.
pub open spec fn has_id(s: Seq<MetaroomView>, id: MetaroomID) -> bool {
    exists|i: int| 0 <= i < s.len() && s[i].id == id
}

/// The first position in `s` whose metaroom carries `id` (meaningful when `has_id(s, id)`).
pub open spec fn position_of(s: Seq<MetaroomView>, id: MetaroomID) -> int {
    choose|i: int| is_first_with_id(s, id, i)
}

/// Where an id occurs, some position is the first to carry it.
proof fn lemma_first_exists(s: Seq<MetaroomView>, id: MetaroomID, k: int)
    requires
        0 <= k < s.len(),
        s[k].id == id,
    ensures
        exists|i: int| is_first_with_id(s, id, i),
    decreases k,
{
    if exists|j: int| 0 <= j < k && s[j].id == id {
        let j = choose|j: int| 0 <= j < k && s[j].id == id;
        lemma_first_exists(s, id, j);
    } else {
        assert(is_first_with_id(s, id, k));
    }
}

/// The first position carrying an id exists when the id occurs, and it is unique.
pub proof fn lemma_position_of(s: Seq<MetaroomView>, id: MetaroomID)
    requires
        has_id(s, id),
    ensures
        is_first_with_id(s, id, position_of(s, id)),
        forall|i: int| is_first_with_id(s, id, i) ==> i == position_of(s, id),
{
    let k = choose|k: int| 0 <= k < s.len() && s[k].id == id;
    lemma_first_exists(s, id, k);
    let p = position_of(s, id);
    assert forall|i: int| is_first_with_id(s, id, i) implies i == p by {
        if i < p {
            assert(s[i].id == id);
        } else if p < i {
            assert(s[p].id == id);
        }
    }
}

/// Key by which the metarooms of a `Merges` are ordered: how often each was merged.
pub open spec fn merge_count(m: MetaroomView) -> nat {
    m.merged_into.len()
}

/// The metarooms stand in ascending order of how often they were merged.
pub open spec fn sorted_by_merge_count(s: Seq<MetaroomView>) -> bool {
    forall|i: int, j: int| 0 <= i <= j < s.len() ==> merge_count(s[i]) <= merge_count(s[j])
}

/// What a well-formed `Merges` keeps true: the ids are exactly `0..len`, each once;
/// the metarooms stand in ascending order of merge count; every metaroom registers
/// at least one room; and every metaroom was merged only into metarooms created after it.
pub open spec fn wf_merges(s: Seq<MetaroomView>) -> bool {
    &&& forall|i: int| 0 <= i < s.len() ==> s[i].id.0 < s.len()
    &&& forall|i: int, j: int| 0 <= i < s.len() && 0 <= j < s.len() && i != j ==> s[i].id != s[j].id
    &&& sorted_by_merge_count(s)
    &&& forall|i: int| 0 <= i < s.len() ==> s[i].registrations.len() > 0
    &&& forall|i: int, k: int|
        0 <= i < s.len() && 0 <= k < s[i].merged_into.len() ==> s[i].id.0
            < #[trigger] s[i].merged_into[k].0 < s.len()
}

/// A metaroom holding the single room `rid` at offset (0, 0).
pub open spec fn single_view(id: MetaroomID, rid: usize, merged_into: Seq<MetaroomID>) -> MetaroomView {
    MetaroomView { id, registrations: seq![(rid, (0i32, 0i32))], merged_into }
}

/// `s` with the metaroom that carries `id` (its first occurrence) marked as merged into `mid`.
pub open spec fn mark_merged(s: Seq<MetaroomView>, id: MetaroomID, mid: MetaroomID) -> Seq<MetaroomView> {
    let p = position_of(s, id);
    s.update(
        p,
        MetaroomView {
            id: s[p].id,
            registrations: s[p].registrations,
            merged_into: s[p].merged_into.push(mid),
        },
    )
}

/// `s` with every metaroom named in `merges` marked as merged into `mid`, in order.
pub open spec fn mark_all(
    s: Seq<MetaroomView>,
    merges: Seq<(MetaroomID, (i32, i32))>,
    mid: MetaroomID,
) -> Seq<MetaroomView>
    decreases merges.len(),
{
    if merges.len() == 0 {
        s
    } else {
        mark_merged(mark_all(s, merges.drop_last(), mid), merges.last().0, mid)
    }
}

/// The registration `r` seen from a metaroom that sits at `offset`.
pub open spec fn shift_registration(r: (usize, (i32, i32)), offset: (i32, i32)) -> (usize, (i32, i32)) {
    (r.0, ((r.1.0 - offset.0) as i32, (r.1.1 - offset.1) as i32))
}

/// The shift of `r` by `offset` fits in `i32`.
pub open spec fn shift_fits(r: (usize, (i32, i32)), offset: (i32, i32)) -> bool {
    &&& i32::MIN <= r.1.0 - offset.0 <= i32::MAX
    &&& i32::MIN <= r.1.1 - offset.1 <= i32::MAX
}

/// Every registration of `regs` shifted by `offset`.
pub open spec fn shifted(
    regs: Seq<(usize, (i32, i32))>,
    offset: (i32, i32),
) -> Seq<(usize, (i32, i32))> {
    regs.map_values(|r: (usize, (i32, i32))| shift_registration(r, offset))
}

/// The registrations of the metarooms named in `merges`, each shifted by its offset, in order.
pub open spec fn gathered(
    s: Seq<MetaroomView>,
    merges: Seq<(MetaroomID, (i32, i32))>,
) -> Seq<(usize, (i32, i32))>
    decreases merges.len(),
{
    if merges.len() == 0 {
        Seq::empty()
    } else {
        gathered(s, merges.drop_last()) + shifted(
            s[position_of(s, merges.last().0)].registrations,
            merges.last().1,
        )
    }
}

/// `s` after the new room `room` is put in front, already merged into the next id.
pub open spec fn with_room(s: Seq<MetaroomView>, room: usize) -> Seq<MetaroomView> {
    seq![single_view(MetaroomID(s.len() as usize), room, seq![MetaroomID((s.len() + 1) as usize)])] + s
}

/// A merge can be made: each named metaroom exists once the new room is in, and
/// every shifted registration fits in `i32`.
pub open spec fn merge_possible(
    s: Seq<MetaroomView>,
    room: usize,
    merges: Seq<(MetaroomID, (i32, i32))>,
) -> bool {
    let pre = with_room(s, room);
    &&& forall|k: int| 0 <= k < merges.len() ==> has_id(pre, #[trigger] merges[k].0)
    &&& forall|k: int, j: int|
        0 <= k < merges.len() && 0 <= j < pre[position_of(pre, merges[k].0)].registrations.len()
            ==> shift_fits(
            #[trigger] pre[position_of(pre, merges[k].0)].registrations[j],
            merges[k].1,
        )
}

/// The merged metaroom: the new room at (0, 0), then the shifted registrations of each
/// metaroom named in `merges`.
pub open spec fn merged_view(
    s: Seq<MetaroomView>,
    room: usize,
    merges: Seq<(MetaroomID, (i32, i32))>,
) -> MetaroomView {
    let pre = with_room(s, room);
    MetaroomView {
        id: MetaroomID((s.len() + 1) as usize),
        registrations: seq![(room, (0i32, 0i32))] + gathered(pre, merges),
        merged_into: Seq::empty(),
    }
}

/// The metarooms after a merge, before they are put back in order.
pub open spec fn merge_unordered(
    s: Seq<MetaroomView>,
    room: usize,
    merges: Seq<(MetaroomID, (i32, i32))>,
) -> Seq<MetaroomView> {
    let mid = MetaroomID((s.len() + 1) as usize);
    mark_all(with_room(s, room), merges, mid).push(merged_view(s, room, merges))
}

/// `t` is a result of merging `room` with `merges` into `s`: a reordering of
/// `merge_unordered(s, room, merges)` in ascending order of merge count.
pub open spec fn merge_outcome(
    s: Seq<MetaroomView>,
    room: usize,
    merges: Seq<(MetaroomID, (i32, i32))>,
    t: Seq<MetaroomView>,
) -> bool {
    &&& t.to_multiset() == merge_unordered(s, room, merges).to_multiset()
    &&& sorted_by_merge_count(t)
}

/// `n` is the length of the leading run of metarooms in `s` that were never merged.
pub open spec fn is_unmerged_prefix(s: Seq<MetaroomView>, n: int) -> bool {
    &&& 0 <= n <= s.len()
    &&& forall|i: int| 0 <= i < n ==> s[i].merged_into.len() == 0
    &&& n < s.len() ==> s[n].merged_into.len() != 0
}

/// `a` and `b` hold metarooms with the same ids at the same positions.
pub open spec fn same_ids(a: Seq<MetaroomView>, b: Seq<MetaroomView>) -> bool {
    &&& a.len() == b.len()
    &&& forall|i: int| 0 <= i < a.len() ==> a[i].id == b[i].id
}

/// Positions looked up by id agree between sequences with the same ids.
pub(crate) proof fn lemma_position_same_ids(a: Seq<MetaroomView>, b: Seq<MetaroomView>, id: MetaroomID)
    requires
        same_ids(a, b),
        has_id(a, id),
    ensures
        has_id(b, id),
        position_of(a, id) == position_of(b, id),
{
    lemma_position_of(a, id);
    let p = position_of(a, id);
    assert(b[p].id == id);
    assert(is_first_with_id(b, id, p));
    lemma_position_of(b, id);
}

/// Marking keeps ids and registrations, only appends `mid` to `merged_into` lists,
/// appends it to each named metaroom, and leaves every other metaroom as it was.
pub(crate) proof fn lemma_mark_all(
    s: Seq<MetaroomView>,
    merges: Seq<(MetaroomID, (i32, i32))>,
    mid: MetaroomID,
)
    requires
        forall|k: int| 0 <= k < merges.len() ==> has_id(s, #[trigger] merges[k].0),
    ensures
        same_ids(mark_all(s, merges, mid), s),
        forall|i: int|
            0 <= i < s.len() ==> (#[trigger] mark_all(s, merges, mid)[i]).registrations
                == s[i].registrations,
        forall|i: int|
            0 <= i < s.len() ==> s[i].merged_into.is_prefix_of(
                #[trigger] mark_all(s, merges, mid)[i].merged_into,
            ),
        forall|i: int, k: int|
            0 <= i < s.len() && s[i].merged_into.len() <= k < mark_all(
                s,
                merges,
                mid,
            )[i].merged_into.len() ==> #[trigger] mark_all(s, merges, mid)[i].merged_into[k]
                == mid,
        forall|k: int|
            0 <= k < merges.len() ==> mark_all(s, merges, mid)[position_of(
                s,
                #[trigger] merges[k].0,
            )].merged_into.len() > s[position_of(s, merges[k].0)].merged_into.len(),
        forall|i: int|
            0 <= i < s.len() && (forall|k: int|
                0 <= k < merges.len() ==> position_of(s, #[trigger] merges[k].0) != i)
                ==> #[trigger] mark_all(s, merges, mid)[i] == s[i],
    decreases merges.len(),
{
    if merges.len() > 0 {
        let rest = merges.drop_last();
        assert forall|k: int| 0 <= k < rest.len() implies has_id(s, #[trigger] rest[k].0) by {
            assert(rest[k] == merges[k]);
        }
        lemma_mark_all(s, rest, mid);
        let m0 = mark_all(s, rest, mid);
        let id = merges.last().0;
        assert(has_id(s, merges[merges.len() - 1].0));
        lemma_position_same_ids(s, m0, id);
        lemma_position_of(s, id);
        let p = position_of(s, id);
        let m = mark_all(s, merges, mid);
        assert(m == mark_merged(m0, id, mid));
        assert forall|i: int| 0 <= i < s.len() implies s[i].merged_into.is_prefix_of(
            #[trigger] m[i].merged_into,
        ) by {
            assert(m0[i].merged_into.is_prefix_of(m[i].merged_into));
        }
        assert forall|k: int|
            0 <= k < merges.len() implies m[position_of(s, #[trigger] merges[k].0)].merged_into.len()
            > s[position_of(s, merges[k].0)].merged_into.len() by {
            lemma_position_of(s, merges[k].0);
            let q = position_of(s, merges[k].0);
            assert(m0[q].merged_into.is_prefix_of(m[q].merged_into));
            if k < merges.len() - 1 {
                assert(rest[k] == merges[k]);
            }
        }
        assert forall|i: int|
            0 <= i < s.len() && (forall|k: int|
                0 <= k < merges.len() ==> position_of(s, #[trigger] merges[k].0) != i)
            implies #[trigger] m[i] == s[i] by {
            assert(position_of(s, merges[merges.len() - 1].0) != i);
            assert forall|k: int| 0 <= k < rest.len() implies position_of(s, #[trigger] rest[k].0) != i by {
                assert(rest[k] == merges[k]);
                assert(position_of(s, merges[k].0) != i);
            }
        }
    }
}

/// Taking one more element extends the prefix by that element.
pub(crate) proof fn lemma_take_step<A>(s: Seq<A>, k: int)
    requires
        0 <= k < s.len(),
    ensures
        s.take(k + 1).drop_last() == s.take(k),
        s.take(k + 1).last() == s[k],
{
    assert(s.take(k + 1).drop_last() =~= s.take(k));
}

/// Two sequences with the same multiset have the same length and the same elements.
pub(crate) proof fn lemma_same_multiset(u: Seq<MetaroomView>, t: Seq<MetaroomView>)
    requires
        t.to_multiset() == u.to_multiset(),
    ensures
        t.len() == u.len(),
        forall|i: int| 0 <= i < t.len() ==> u.contains(#[trigger] t[i]),
        forall|j: int| 0 <= j < u.len() ==> t.contains(#[trigger] u[j]),
{
    vstd::seq_lib::to_multiset_len(u);
    vstd::seq_lib::to_multiset_len(t);
    assert forall|i: int| 0 <= i < t.len() implies u.contains(#[trigger] t[i]) by {
        assert(t.contains(t[i]));
        vstd::seq_lib::to_multiset_contains(t, t[i]);
        vstd::seq_lib::to_multiset_contains(u, t[i]);
    }
    assert forall|j: int| 0 <= j < u.len() implies t.contains(#[trigger] u[j]) by {
        assert(u.contains(u[j]));
        vstd::seq_lib::to_multiset_contains(t, u[j]);
        vstd::seq_lib::to_multiset_contains(u, u[j]);
    }
}

/// Distinct ids survive a reordering.
pub(crate) proof fn lemma_distinct_ids_reordered(u: Seq<MetaroomView>, t: Seq<MetaroomView>)
    requires
        t.to_multiset() == u.to_multiset(),
        forall|i: int, j: int| 0 <= i < u.len() && 0 <= j < u.len() && i != j ==> u[i].id != u[j].id,
    ensures
        forall|i: int, j: int| 0 <= i < t.len() && 0 <= j < t.len() && i != j ==> t[i].id != t[j].id,
{
    lemma_same_multiset(u, t);
    assert(u.no_duplicates());
    u.lemma_multiset_has_no_duplicates();
    t.lemma_multiset_has_no_duplicates_conv();
    assert forall|i: int, j: int| 0 <= i < t.len() && 0 <= j < t.len() && i != j implies t[i].id
        != t[j].id by {
        assert(u.contains(t[i]));
        assert(u.contains(t[j]));
        let a = choose|a: int| 0 <= a < u.len() && u[a] == t[i];
        let b = choose|b: int| 0 <= b < u.len() && u[b] == t[j];
        if t[i].id == t[j].id {
            assert(a == b);
            assert(t[i] == t[j]);
        }
    }
}

/// A merge keeps a well-formed `Merges` well-formed.
pub(crate) proof fn lemma_merge_preserves_wf(
    s: Seq<MetaroomView>,
    room: usize,
    merges: Seq<(MetaroomID, (i32, i32))>,
    t: Seq<MetaroomView>,
)
    requires
        s.len() + 1 < usize::MAX,
        wf_merges(s),
        merge_possible(s, room, merges),
        merge_outcome(s, room, merges, t),
    ensures
        wf_merges(t),
{
    let pre = with_room(s, room);
    let mid = MetaroomID((s.len() + 1) as usize);
    let marked = mark_all(pre, merges, mid);
    let u = merge_unordered(s, room, merges);
    lemma_mark_all(pre, merges, mid);
    assert(u.len() == s.len() + 2);
    assert(mid.0 == s.len() + 1);
    assert(u[u.len() - 1] == merged_view(s, room, merges));
    assert forall|i: int| 0 <= i < pre.len() implies (#[trigger] pre[i]).id.0 <= s.len() by {
        if i > 0 {
            assert(pre[i] == s[i - 1]);
        }
    }
    assert forall|i: int| 0 <= i < u.len() implies (#[trigger] u[i]).id.0 < u.len()
        && u[i].registrations.len() > 0 by {
        if i < marked.len() {
            assert(u[i] == marked[i]);
            if i > 0 {
                assert(pre[i] == s[i - 1]);
            }
        }
    }
    assert forall|i: int, j: int| 0 <= i < u.len() && 0 <= j < u.len() && i != j implies u[i].id
        != u[j].id by {
        if i < marked.len() && j < marked.len() {
            assert(u[i].id == pre[i].id);
            assert(u[j].id == pre[j].id);
            if i > 0 && j > 0 {
                assert(pre[i] == s[i - 1]);
                assert(pre[j] == s[j - 1]);
            } else if i > 0 {
                assert(pre[i] == s[i - 1]);
            } else {
                assert(pre[j] == s[j - 1]);
            }
        } else if i < marked.len() {
            assert(u[i].id == pre[i].id);
        } else if j < marked.len() {
            assert(u[j].id == pre[j].id);
        }
    }
    assert forall|i: int, k: int| 0 <= i < u.len() && 0 <= k < u[i].merged_into.len() implies u[i].id.0
        < #[trigger] u[i].merged_into[k].0 < u.len() by {
        assert(i < marked.len());
        assert(u[i] == marked[i]);
        assert(pre[i].merged_into.is_prefix_of(marked[i].merged_into));
        if k < pre[i].merged_into.len() {
            assert(marked[i].merged_into[k] == pre[i].merged_into[k]);
            if i > 0 {
                assert(pre[i] == s[i - 1]);
            }
        } else {
            assert(marked[i].merged_into[k] == mid);
        }
    }
    lemma_same_multiset(u, t);
    lemma_distinct_ids_reordered(u, t);
    assert forall|i: int| 0 <= i < t.len() implies (#[trigger] t[i]).id.0 < t.len()
        && t[i].registrations.len() > 0 && (forall|k: int| 0 <= k < t[i].merged_into.len() ==> t[i].id.0
        < #[trigger] t[i].merged_into[k].0 < t.len()) by {
        assert(u.contains(t[i]));
        let a = choose|a: int| 0 <= a < u.len() && u[a] == t[i];
        assert forall|k: int| 0 <= k < t[i].merged_into.len() implies t[i].id.0
            < #[trigger] t[i].merged_into[k].0 < t.len() by {
            assert(u[a].merged_into[k] == t[i].merged_into[k]);
        }
    }
}

/// The new room's metaroom stands first, before the old ones, with an id none of them has.
pub(crate) proof fn lemma_with_room(s: Seq<MetaroomView>, room: usize)
    requires
        s.len() + 1 < usize::MAX,
        wf_merges(s),
    ensures
        with_room(s, room).len() == s.len() + 1,
        with_room(s, room)[0] == single_view(
            MetaroomID(s.len() as usize),
            room,
            seq![MetaroomID((s.len() + 1) as usize)],
        ),
        forall|i: int| 0 < i < with_room(s, room).len() ==> #[trigger] with_room(s, room)[i] == s[i - 1],
        forall|i: int| 0 <= i < with_room(s, room).len() ==> (#[trigger] with_room(s, room)[i]).id.0 <= s.len(),
        forall|i: int, j: int|
            0 <= i < with_room(s, room).len() && 0 <= j < with_room(s, room).len() && i != j
                ==> with_room(s, room)[i].id != with_room(s, room)[j].id,
{
    let pre = with_room(s, room);
    assert forall|i: int| 0 <= i < pre.len() implies (#[trigger] pre[i]).id.0 <= s.len() by {
        if i > 0 {
            assert(pre[i] == s[i - 1]);
        }
    }
    assert forall|i: int, j: int| 0 <= i < pre.len() && 0 <= j < pre.len() && i != j implies pre[i].id
        != pre[j].id by {
        if i > 0 {
            assert(pre[i] == s[i - 1]);
        }
        if j > 0 {
            assert(pre[j] == s[j - 1]);
        }
    }
}

/// How ids are found once the new room is in front: its own id at position 0, any
/// other id one place further than before.
pub(crate) proof fn lemma_position_with_room(s: Seq<MetaroomView>, room: usize, id: MetaroomID)
    requires
        s.len() + 1 < usize::MAX,
    ensures
        id == MetaroomID(s.len() as usize) ==> has_id(with_room(s, room), id) && position_of(
            with_room(s, room),
            id,
        ) == 0,
        id != MetaroomID(s.len() as usize) ==> (has_id(with_room(s, room), id) <==> has_id(s, id)),
        id != MetaroomID(s.len() as usize) && has_id(s, id) ==> position_of(with_room(s, room), id)
            == position_of(s, id) + 1,
{
    let pre = with_room(s, room);
    assert forall|i: int| 0 < i < pre.len() implies #[trigger] pre[i] == s[i - 1] by {}
    if id == MetaroomID(s.len() as usize) {
        assert(pre[0].id == id);
        assert(is_first_with_id(pre, id, 0));
        lemma_position_of(pre, id);
    } else {
        if has_id(pre, id) {
            let i = choose|i: int| 0 <= i < pre.len() && pre[i].id == id;
            assert(s[i - 1].id == id);
        }
        if has_id(s, id) {
            let i = choose|i: int| 0 <= i < s.len() && s[i].id == id;
            assert(pre[i + 1].id == id);
            lemma_position_of(s, id);
            let p = position_of(s, id);
            assert(is_first_with_id(pre, id, p + 1)) by {
                assert forall|j: int| 0 <= j < p + 1 implies pre[j].id != id by {
                    if j > 0 {
                        assert(pre[j] == s[j - 1]);
                    }
                }
            }
            lemma_position_of(pre, id);
        }
    }
}


/// The registrations of the metaroom that `id` names when `room` is merged into `s`:
/// the room's own new metaroom (id: the current count) holds just `room` at (0, 0);
/// any other id names the first metaroom of `s` that carries it.
pub open spec fn named_registrations(
    s: Seq<MetaroomView>,
    room: usize,
    id: MetaroomID,
) -> Seq<(usize, (i32, i32))> {
    if id == MetaroomID(s.len() as usize) {
        seq![(room, (0i32, 0i32))]
    } else {
        s[position_of(s, id)].registrations
    }
}

/// How many registrations the metarooms named in `merges` hold together.
#[verifier::opaque]
pub open spec fn named_count(
    s: Seq<MetaroomView>,
    room: usize,
    merges: Seq<(MetaroomID, (i32, i32))>,
) -> nat
    decreases merges.len(),
{
    if merges.len() == 0 {
        0
    } else {
        named_count(s, room, merges.drop_last()) + named_registrations(
            s,
            room,
            merges.last().0,
        ).len()
    }
}

/// The candidates of a merge are usable: each names the room's own new metaroom or an
/// existing one, and every registration of the named metaroom minus the candidate's
/// offset stays within `i32`, whatever the number of candidates.
pub open spec fn candidates_valid(
    s: Seq<MetaroomView>,
    room: usize,
    merges: Seq<(MetaroomID, (i32, i32))>,
) -> bool {
    &&& forall|k: int|
        0 <= k < merges.len() ==> (#[trigger] merges[k]).0 == MetaroomID(s.len() as usize) || has_id(
            s,
            merges[k].0,
        )
    &&& forall|k: int, j: int|
        0 <= k < merges.len() && 0 <= j < named_registrations(s, room, merges[k].0).len() ==> {
            let o = #[trigger] named_registrations(s, room, merges[k].0)[j];
            &&& i32::MIN <= o.1.0 - merges[k].1.0 <= i32::MAX
            &&& i32::MIN <= o.1.1 - merges[k].1.1 <= i32::MAX
        }
}

/// Looking an id up once the new room is in front gives the named registrations.
pub(crate) proof fn lemma_named_in_pre(s: Seq<MetaroomView>, room: usize, id: MetaroomID)
    requires
        s.len() + 1 < usize::MAX,
        id == MetaroomID(s.len() as usize) || has_id(s, id),
    ensures
        has_id(with_room(s, room), id),
        with_room(s, room)[position_of(with_room(s, room), id)].registrations == named_registrations(
            s,
            room,
            id,
        ),
{
    lemma_position_with_room(s, room, id);
    let pre = with_room(s, room);
    if id != MetaroomID(s.len() as usize) {
        lemma_position_of(s, id);
        assert(pre[position_of(s, id) + 1] == s[position_of(s, id)]);
    }
}

/// A merge can be made exactly when its candidates are usable, however many there are.
pub proof fn lemma_merge_possible_iff_candidates_valid(
    s: Seq<MetaroomView>,
    room: usize,
    merges: Seq<(MetaroomID, (i32, i32))>,
)
    requires
        s.len() + 1 < usize::MAX,
    ensures
        merge_possible(s, room, merges) <==> candidates_valid(s, room, merges),
{
    let pre = with_room(s, room);
    assert forall|k: int| 0 <= k < merges.len() implies (has_id(pre, #[trigger] merges[k].0) <==> (
    merges[k].0 == MetaroomID(s.len() as usize) || has_id(s, merges[k].0))) by {
        lemma_position_with_room(s, room, merges[k].0);
    }
    if merge_possible(s, room, merges) {
        assert forall|k: int, j: int|
            0 <= k < merges.len() && 0 <= j < named_registrations(s, room, merges[k].0).len()
            implies {
            let o = #[trigger] named_registrations(s, room, merges[k].0)[j];
            &&& i32::MIN <= o.1.0 - merges[k].1.0 <= i32::MAX
            &&& i32::MIN <= o.1.1 - merges[k].1.1 <= i32::MAX
        } by {
            assert(has_id(pre, merges[k].0));
            lemma_named_in_pre(s, room, merges[k].0);
            assert(shift_fits(pre[position_of(pre, merges[k].0)].registrations[j], merges[k].1));
        }
    }
    if candidates_valid(s, room, merges) {
        assert forall|k: int, j: int|
            0 <= k < merges.len() && 0 <= j < pre[position_of(pre, merges[k].0)].registrations.len()
            implies shift_fits(
            #[trigger] pre[position_of(pre, merges[k].0)].registrations[j],
            merges[k].1,
        ) by {
            lemma_named_in_pre(s, room, merges[k].0);
            let o = named_registrations(s, room, merges[k].0)[j];
            assert(i32::MIN <= o.1.0 - merges[k].1.0 <= i32::MAX);
        }
    }
}

/// Where each candidate's registrations land among the gathered ones: those of the
/// candidate at `k` start after the registrations of all candidates before it.
pub(crate) proof fn lemma_gathered_layout(
    s: Seq<MetaroomView>,
    room: usize,
    merges: Seq<(MetaroomID, (i32, i32))>,
)
    requires
        s.len() + 1 < usize::MAX,
        forall|k: int|
            0 <= k < merges.len() ==> (#[trigger] merges[k]).0 == MetaroomID(s.len() as usize)
                || has_id(s, merges[k].0),
    ensures
        gathered(with_room(s, room), merges).len() == named_count(s, room, merges),
        forall|k: int|
            0 <= k < merges.len() ==> named_count(s, room, merges.take(k)) + named_registrations(
                s,
                room,
                (#[trigger] merges[k]).0,
            ).len() <= named_count(s, room, merges),
        forall|k: int, j: int|
            0 <= k < merges.len() && 0 <= j < named_registrations(s, room, merges[k].0).len()
                ==> gathered(with_room(s, room), merges)[named_count(s, room, merges.take(k)) + j]
                == shift_registration(
                #[trigger] named_registrations(s, room, merges[k].0)[j],
                merges[k].1,
            ),
    decreases merges.len(),
{
    if merges.len() > 0 {
        let pre = with_room(s, room);
        let m0 = merges.drop_last();
        let n = merges.len() - 1;
        let last = merges[n];
        assert forall|k: int| 0 <= k < m0.len() implies (#[trigger] m0[k]).0 == MetaroomID(
            s.len() as usize,
        ) || has_id(s, m0[k].0) by {
            assert(m0[k] == merges[k]);
        }
        lemma_gathered_layout(s, room, m0);
        lemma_named_in_pre(s, room, last.0);
        let g0 = gathered(pre, m0);
        let tail = shifted(named_registrations(s, room, last.0), last.1);
        assert(gathered(pre, merges) == g0 + tail);
        assert(named_count(s, room, merges) == named_count(s, room, m0) + named_registrations(
            s,
            room,
            last.0,
        ).len()) by {
            reveal(named_count);
        }
        assert(merges.take(n) =~= m0);
        assert forall|k: int|
            0 <= k < merges.len() implies named_count(s, room, merges.take(k)) + named_registrations(
            s,
            room,
            (#[trigger] merges[k]).0,
        ).len() <= named_count(s, room, merges) by {
            if k < n {
                assert(merges[k] == m0[k]);
                assert(merges.take(k) =~= m0.take(k));
            }
        }
        assert forall|k: int, j: int|
            0 <= k < merges.len() && 0 <= j < named_registrations(s, room, merges[k].0).len()
            implies gathered(pre, merges)[named_count(s, room, merges.take(k)) + j] == shift_registration(
            #[trigger] named_registrations(s, room, merges[k].0)[j],
            merges[k].1,
        ) by {
            if k < n {
                assert(merges[k] == m0[k]);
                assert(merges.take(k) =~= m0.take(k));
                assert(named_count(s, room, m0.take(k)) + named_registrations(s, room, m0[k].0).len()
                    <= named_count(s, room, m0));
                assert(g0[named_count(s, room, m0.take(k)) + j] == shift_registration(
                    named_registrations(s, room, m0[k].0)[j],
                    m0[k].1,
                ));
            } else {
                assert(tail[j] == shift_registration(named_registrations(s, room, last.0)[j], last.1));
            }
        }
    } else {
        reveal(named_count);
    }
}

} // verus!
