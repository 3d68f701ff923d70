use vstd::prelude::*;
use crate::metaroom::{views, lemma_views_update, Metaroom, MetaroomID, MetaroomView};
use crate::laws::lemma_merge_registrations;
use crate::model::{named_count, named_registrations, candidates_valid, lemma_merge_possible_iff_candidates_valid, is_first_with_id, has_id, position_of, lemma_position_of, merge_count, sorted_by_merge_count, wf_merges, single_view, mark_merged, mark_all, shift_registration, shift_fits, shifted, gathered, with_room, merge_possible, merge_unordered, merge_outcome, is_unmerged_prefix, lemma_position_same_ids, lemma_mark_all, lemma_take_step, lemma_merge_preserves_wf, lemma_position_with_room};

verus! {

/// The merge graph of the metarooms found so far. Metaroom ids are handed out in
/// creation order; the metarooms are kept in ascending order of how often they were
/// merged, so the ones never merged come first.
#[derive(Clone)]
pub struct Merges {
    metarooms: Vec<Metaroom>,
}

impl View for Merges {
    type V = Seq<MetaroomView>;

    closed spec fn view(&self) -> Seq<MetaroomView> {
        views(self.metarooms@)
    }
}

impl Merges {
    /// An empty merge graph.
    pub fn new() -> (r: Self)
        ensures
            r@ == Seq::<MetaroomView>::empty(),
            wf_merges(r@),
    {
        let r = Merges { metarooms: Vec::new() };
        assert(r@ =~= Seq::<MetaroomView>::empty());
        r
    }

    /// The metaroom with id `id` (the first one, should several carry it), for reading
    /// and changing in place.
    pub fn metaroom_mut(&mut self, id: MetaroomID) -> (r: &mut Metaroom)
        requires
            has_id(old(self)@, id),
        ensures
            r@ == old(self)@[position_of(old(self)@, id)],
            final(self)@ == old(self)@.update(position_of(old(self)@, id), final(r)@),
    {
        broadcast use lemma_views_update;
        proof {
            lemma_position_of(self@, id);
        }
        let mut i: usize = 0;
        while self.metarooms[i].id != id
            invariant
                self.metarooms@ == old(self).metarooms@,
                forall|k: int| is_first_with_id(self@, id, k) ==> k == position_of(old(self)@, id),
                i < self.metarooms.len(),
                forall|j: int| 0 <= j < i ==> self@[j].id != id,
                exists|k: int| i <= k < self@.len() && self@[k].id == id,
            decreases self.metarooms@.len() - i,
        {
            i = i + 1;
        }
        assert(is_first_with_id(self@, id, i as int));
        &mut self.metarooms[i]
    }

    /// The leading metarooms that were never merged, in order; the listing stops at the
    /// first metaroom that was merged into another.
    pub fn metarooms(&self) -> (r: Vec<&Metaroom>)
        ensures
            is_unmerged_prefix(self@, r@.len() as int),
            forall|i: int| 0 <= i < r@.len() ==> (*r@[i])@ == self@[i],
    {
        let mut out: Vec<&Metaroom> = Vec::new();
        let mut i: usize = 0;
        while i < self.metarooms.len() && self.metarooms[i].merged_into.len() == 0
            invariant
                i <= self.metarooms@.len(),
                out@.len() == i,
                forall|j: int| 0 <= j < i ==> (*out@[j])@ == self@[j],
                forall|j: int| 0 <= j < i ==> self@[j].merged_into.len() == 0,
            decreases self.metarooms@.len() - i,
        {
            out.push(&self.metarooms[i]);
            i = i + 1;
        }
        out
    }

    /// Adds `room` as a new metaroom. With nothing to merge, the room becomes a metaroom
    /// of its own and its id is returned. Otherwise the room gets a metaroom of its own
    /// (id: current count), which, like every metaroom named in `merges`, is marked as
    /// merged into a new metaroom (id: current count + 1); that new metaroom registers
    /// the room at (0, 0) and, for each entry of `merges` in turn, the registrations of
    /// the named metaroom shifted by minus its offset. Its id is returned, and the
    /// metarooms are put back in ascending order of merge count.
    pub fn merge_new_room(&mut self, room: usize, merges: &[(MetaroomID, (i32, i32))]) -> (r: MetaroomID)
        requires
            old(self)@.len() + 1 < usize::MAX,
            merges@.len() > 0 ==> merge_possible(old(self)@, room, merges@),
        ensures
            merges@.len() == 0 ==> {
                &&& r == MetaroomID(old(self)@.len() as usize)
                &&& final(self)@ == seq![single_view(r, room, Seq::empty())] + old(self)@
            },
            merges@.len() > 0 ==> {
                &&& r == MetaroomID((old(self)@.len() + 1) as usize)
                &&& merge_outcome(old(self)@, room, merges@, final(self)@)
            },
            wf_merges(old(self)@) ==> wf_merges(final(self)@),
            wf_merges(old(self)@) ==> !has_id(old(self)@, r),
            wf_merges(old(self)@) && merges@.len() > 0 ==> forall|i: int|
                0 <= i < final(self)@.len() && (#[trigger] final(self)@[i]).id == r ==> {
                    &&& final(self)@[i].merged_into.len() == 0
                    &&& final(self)@[i].registrations.len() == 1 + named_count(old(self)@, room, merges@)
                    &&& final(self)@[i].registrations[0] == (room, (0i32, 0i32))
                    &&& forall|k: int, j: int|
                        0 <= k < merges@.len() && 0 <= j < named_registrations(
                            old(self)@,
                            room,
                            merges@[k].0,
                        ).len() ==> {
                            let q = final(self)@[i].registrations[1 + named_count(
                                old(self)@,
                                room,
                                merges@.take(k),
                            ) + j];
                            let o = #[trigger] named_registrations(old(self)@, room, merges@[k].0)[j];
                            &&& q.0 == o.0
                            &&& q.1.0 + merges@[k].1.0 == o.1.0
                            &&& q.1.1 + merges@[k].1.1 == o.1.1
                        }
                },
    {
        if merges.len() == 0 {
            let mid = MetaroomID(self.metarooms.len());
            let meta = Metaroom::new_single(mid, room);
            self.metarooms.insert(0, meta);
            proof {
                assert(self@ =~= seq![single_view(mid, room, Seq::empty())] + old(self)@);
                if wf_merges(old(self)@) {
                    let s0 = old(self)@;
                    assert forall|i: int| 0 <= i < self@.len() implies (#[trigger] self@[i]).id.0 < self@.len()
                        && self@[i].registrations.len() > 0 by {
                        if i > 0 {
                            assert(self@[i] == s0[i - 1]);
                        }
                    }
                    assert forall|i: int, j: int| 0 <= i < self@.len() && 0 <= j < self@.len() && i != j
                        implies self@[i].id != self@[j].id by {
                        if i > 0 {
                            assert(self@[i] == s0[i - 1]);
                        }
                        if j > 0 {
                            assert(self@[j] == s0[j - 1]);
                        }
                    }
                    assert forall|i: int, k: int| 0 <= i < self@.len() && 0 <= k < self@[i].merged_into.len()
                        implies self@[i].id.0 < #[trigger] self@[i].merged_into[k].0 < self@.len() by {
                        assert(i > 0);
                        assert(self@[i] == s0[i - 1]);
                    }
                    assert forall|i: int, j: int| 0 <= i <= j < self@.len() implies merge_count(self@[i])
                        <= merge_count(self@[j]) by {
                        if i > 0 {
                            assert(self@[i] == s0[i - 1]);
                            assert(self@[j] == s0[j - 1]);
                        }
                    }
                }
            }
            return mid;
        }
        let mid = MetaroomID(self.metarooms.len() + 1);
        {
            let room_mid = MetaroomID(self.metarooms.len());
            let mut meta = Metaroom::new_single(room_mid, room);
            meta.merged_into.push(mid);
            self.metarooms.insert(0, meta);
        }
        let ghost pre = self@;
        proof {
            assert(pre =~= with_room(old(self)@, room));
        }
        let mut regs: Vec<(usize, (i32, i32))> = Vec::new();
        regs.push((room, (0i32, 0i32)));
        let mut k: usize = 0;
        while k < merges.len()
            invariant
                pre == with_room(old(self)@, room),
                merge_possible(old(self)@, room, merges@),
                k <= merges@.len(),
                self@ == mark_all(pre, merges@.take(k as int), mid),
                regs@ == seq![(room, (0i32, 0i32))] + gathered(pre, merges@.take(k as int)),
            decreases merges@.len() - k,
        {
            let (mri, (rx, ry)) = merges[k];
            proof {
                let done = merges@.take(k as int);
                assert forall|t: int| 0 <= t < done.len() implies has_id(pre, #[trigger] done[t].0) by {
                    assert(done[t] == merges@[t]);
                }
                lemma_mark_all(pre, done, mid);
                assert(has_id(pre, merges@[k as int].0));
                lemma_position_same_ids(pre, self@, mri);
                lemma_position_of(pre, mri);
                lemma_take_step(merges@, k as int);
            }
            let ghost before = self@;
            let ghost p = position_of(pre, mri);
            let meta = self.metaroom_mut(mri);
            proof {
                assert forall|j: int| 0 <= j < meta.registrations@.len() implies shift_fits(
                    #[trigger] meta.registrations@[j],
                    (rx, ry),
                ) by {
                    assert(pre[position_of(pre, merges@[k as int].0)].registrations[j]
                        == meta.registrations@[j]);
                }
            }
            extend_shifted(&mut regs, &meta.registrations, rx, ry);
            meta.merged_into.push(mid);
            proof {
                assert(self@ =~= mark_merged(before, mri, mid));
                assert(regs@ =~= seq![(room, (0i32, 0i32))] + gathered(pre, merges@.take(k + 1)));
            }
            k = k + 1;
        }
        proof {
            assert(merges@.take(merges@.len() as int) =~= merges@);
        }
        self.metarooms.push(Metaroom::new_merge(mid, regs));
        proof {
            assert(self@ =~= merge_unordered(old(self)@, room, merges@));
        }
        let mut all: Vec<Metaroom> = Vec::new();
        std::mem::swap(&mut all, &mut self.metarooms);
        self.metarooms = sort_by_merge_count(all);
        proof {
            if wf_merges(old(self)@) {
                lemma_merge_preserves_wf(old(self)@, room, merges@, self@);
                lemma_merge_possible_iff_candidates_valid(old(self)@, room, merges@);
                lemma_merge_registrations(old(self)@, room, merges@, self@);
            }
        }
        mid
    }

    /// Whether some metaroom carries `id`; `metaroom_mut` needs one that does.
    pub fn has_metaroom(&self, id: MetaroomID) -> (r: bool)
        ensures
            r == has_id(self@, id),
    {
        self.find_position(id).is_some()
    }

    /// Whether `merge_new_room(room, merges)` can be made: the count of metarooms leaves
    /// room for the new ids, and, when something is merged, every named metaroom exists
    /// (the room's own new metaroom included) and every shifted registration fits in `i32`.
    pub fn can_merge(&self, room: usize, merges: &[(MetaroomID, (i32, i32))]) -> (r: bool)
        ensures
            r == (self@.len() + 1 < usize::MAX && (merges@.len() > 0 ==> merge_possible(
                self@,
                room,
                merges@,
            ))),
            r == (self@.len() + 1 < usize::MAX && candidates_valid(self@, room, merges@)),
    {
        let n = self.metarooms.len();
        if n >= usize::MAX - 1 {
            return false;
        }
        proof {
            lemma_merge_possible_iff_candidates_valid(self@, room, merges@);
        }
        let ghost pre = with_room(self@, room);
        let mut k: usize = 0;
        while k < merges.len()
            invariant
                n == self@.len(),
                n + 1 < usize::MAX,
                merge_possible(self@, room, merges@) <==> candidates_valid(self@, room, merges@),
                pre == with_room(self@, room),
                k <= merges@.len(),
                forall|t: int| 0 <= t < k ==> has_id(pre, #[trigger] merges@[t].0),
                forall|t: int, j: int|
                    0 <= t < k && 0 <= j < pre[position_of(pre, merges@[t].0)].registrations.len()
                        ==> shift_fits(
                        #[trigger] pre[position_of(pre, merges@[t].0)].registrations[j],
                        merges@[t].1,
                    ),
            decreases merges@.len() - k,
        {
            let (id, (rx, ry)) = merges[k];
            proof {
                lemma_position_with_room(self@, room, id);
            }
            if id.0 == n {
                assert(pre[0].registrations == seq![(room, (0i32, 0i32))]);
                if !shift_ok((room, (0i32, 0i32)), rx, ry) {
                    assert(!merge_possible(self@, room, merges@)) by {
                        assert(pre[position_of(pre, merges@[k as int].0)].registrations[0] == (
                            room,
                            (0i32, 0i32),
                        ));
                    }
                    return false;
                }
            } else {
                match self.find_position(id) {
                    None => {
                        assert(!has_id(pre, merges@[k as int].0));
                        return false;
                    },
                    Some(p) => {
                        proof {
                            lemma_position_of(self@, id);
                        }
                        let regs = &self.metarooms[p].registrations;
                        let mut j: usize = 0;
                        #[verifier::loop_isolation(false)]
                        while j < regs.len()
                            invariant
                                0 <= j <= regs@.len(),
                                regs@ == self@[p as int].registrations,
                                forall|t: int| 0 <= t < j ==> shift_fits(#[trigger] regs@[t], (rx, ry)),
                            decreases regs@.len() - j,
                        {
                            if !shift_ok(regs[j], rx, ry) {
                                assert(!merge_possible(self@, room, merges@)) by {
                                    assert(pre[position_of(pre, merges@[k as int].0)] == self@[p as int]);
                                    assert(pre[position_of(pre, merges@[k as int].0)].registrations[j as int]
                                        == regs@[j as int]);
                                }
                                return false;
                            }
                            j = j + 1;
                        }
                        assert(pre[position_of(pre, merges@[k as int].0)] == self@[p as int]);
                    },
                }
            }
            k = k + 1;
        }
        true
    }

    fn find_position(&self, id: MetaroomID) -> (r: Option<usize>)
        ensures
            match r {
                Some(i) => is_first_with_id(self@, id, i as int),
                None => !has_id(self@, id),
            },
    {
        let mut i: usize = 0;
        while i < self.metarooms.len()
            invariant
                0 <= i <= self.metarooms@.len(),
                forall|j: int| 0 <= j < i ==> self@[j].id != id,
            decreases self.metarooms@.len() - i,
        {
            if self.metarooms[i].id == id {
                return Some(i);
            }
            i = i + 1;
        }
        None
    }
}

/// Appends to `regs` each registration of `src` shifted by `(rx, ry)`.
fn extend_shifted(regs: &mut Vec<(usize, (i32, i32))>, src: &Vec<(usize, (i32, i32))>, rx: i32, ry: i32)
    requires
        forall|j: int| 0 <= j < src@.len() ==> shift_fits(#[trigger] src@[j], (rx, ry)),
    ensures
        final(regs)@ == old(regs)@ + shifted(src@, (rx, ry)),
{
    let ghost start = regs@;
    let mut j: usize = 0;
    while j < src.len()
        invariant
            j <= src@.len(),
            forall|t: int| 0 <= t < src@.len() ==> shift_fits(#[trigger] src@[t], (rx, ry)),
            regs@ == start + shifted(src@.take(j as int), (rx, ry)),
        decreases src@.len() - j,
    {
        let (rid, (rrx, rry)) = src[j];
        assert(shift_fits(src@[j as int], (rx, ry)));
        regs.push((rid, (rrx - rx, rry - ry)));
        proof {
            assert(shifted(src@.take(j + 1), (rx, ry)) =~= shifted(src@.take(j as int), (rx, ry)).push(
                shift_registration(src@[j as int], (rx, ry)),
            ));
        }
        j = j + 1;
    }
    assert(src@.take(src@.len() as int) =~= src@);
}

/// Reorders `v` in ascending order of merge count.
fn sort_by_merge_count(v: Vec<Metaroom>) -> (r: Vec<Metaroom>)
    ensures
        views(r@).to_multiset() == views(v@).to_multiset(),
        sorted_by_merge_count(views(r@)),
{
    broadcast use vstd::seq_lib::group_to_multiset_ensures;

    let ghost orig = views(v@);
    let mut rest = v;
    let mut out: Vec<Metaroom> = Vec::new();
    assert(views(out@) =~= Seq::<MetaroomView>::empty());
    assert(views(out@).to_multiset().add(views(rest@).to_multiset()) =~= orig.to_multiset());
    while rest.len() > 0
        invariant
            views(out@).to_multiset().add(views(rest@).to_multiset()) == orig.to_multiset(),
            sorted_by_merge_count(views(out@)),
            forall|i: int, j: int|
                0 <= i < out@.len() && 0 <= j < rest@.len() ==> out@[i].merged_into@.len()
                    <= rest@[j].merged_into@.len(),
        decreases rest@.len(),
    {
        let mut m: usize = 0;
        let mut j: usize = 1;
        while j < rest.len()
            invariant
                0 < rest@.len(),
                m < rest@.len(),
                1 <= j <= rest@.len(),
                forall|t: int|
                    0 <= t < j ==> rest@[m as int].merged_into@.len() <= rest@[t].merged_into@.len(),
            decreases rest@.len() - j,
        {
            if rest[j].merged_into.len() < rest[m].merged_into.len() {
                m = j;
            }
            j = j + 1;
        }
        let ghost old_rest = rest@;
        let ghost old_out = out@;
        let x = rest.remove(m);
        out.push(x);
        proof {
            assert(views(rest@) =~= views(old_rest).remove(m as int));
            assert(views(out@) =~= views(old_out).push(x@));
            assert(views(old_rest)[m as int] == x@);
            assert(views(old_rest).contains(x@));
            vstd::seq_lib::to_multiset_contains(views(old_rest), x@);
            vstd::seq_lib::to_multiset_build(views(old_out), x@);
            vstd::seq_lib::to_multiset_remove(views(old_rest), m as int);
            assert(views(out@).to_multiset().add(views(rest@).to_multiset()) =~= orig.to_multiset());
            assert forall|i: int, k: int| 0 <= i <= k < views(out@).len() implies merge_count(
                views(out@)[i],
            ) <= merge_count(views(out@)[k]) by {
                if k == out@.len() - 1 && i < k {
                    assert(old_out[i].merged_into@.len() <= old_rest[m as int].merged_into@.len());
                }
            }
            assert forall|i: int, k: int|
                0 <= i < out@.len() && 0 <= k < rest@.len() implies out@[i].merged_into@.len()
                <= rest@[k].merged_into@.len() by {
                let k0 = if k < m { k } else { k + 1 };
                assert(rest@[k] == old_rest[k0]);
                if i < out@.len() - 1 {
                    assert(out@[i] == old_out[i]);
                }
            }
        }
    }
    assert(views(rest@) =~= Seq::<MetaroomView>::empty());
    assert(views(out@).to_multiset() =~= orig.to_multiset());
    out
}

/// Whether shifting `r` by `(rx, ry)` stays within `i32`.
fn shift_ok(r: (usize, (i32, i32)), rx: i32, ry: i32) -> (b: bool)
    ensures
        b == shift_fits(r, (rx, ry)),
{
    let (_, (x, y)) = r;
    x.checked_sub(rx).is_some() && y.checked_sub(ry).is_some()
}

} // verus!
