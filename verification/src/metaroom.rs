use vstd::prelude::*;
use crate::model::single_view;

verus! {

/// Identifier of a metaroom; identifiers are handed out in creation order.
#[derive(Debug, Clone, Copy, PartialEq, Eq, Structural)]
pub struct MetaroomID(pub usize);

/// A metaroom: a set of room registrations with their offsets, and the
/// metarooms it has been merged into.
#[derive(Debug, Clone)]
pub struct Metaroom {
    pub id: MetaroomID,
    pub registrations: Vec<(usize, (i32, i32))>,
    pub merged_into: Vec<MetaroomID>,
}

/// What a metaroom holds, as mathematical values.
pub struct MetaroomView {
    pub id: MetaroomID,
    pub registrations: Seq<(usize, (i32, i32))>,
    pub merged_into: Seq<MetaroomID>,
}

impl Metaroom {
    pub(crate) fn new_single(id: MetaroomID, rid: usize) -> (r: Self)
        ensures
            r@ == single_view(id, rid, Seq::empty()),
    {
        let mut registrations = Vec::new();
        registrations.push((rid, (0i32, 0i32)));
        Self { id, registrations, merged_into: Vec::new() }
    }

    pub(crate) fn new_merge(id: MetaroomID, registrations: Vec<(usize, (i32, i32))>) -> (r: Self)
        ensures
            r@ == (MetaroomView { id, registrations: registrations@, merged_into: Seq::empty() }),
    {
        Self { id, registrations, merged_into: Vec::new() }
    }
}

impl View for Metaroom {
    type V = MetaroomView;

    open spec fn view(&self) -> MetaroomView {
        MetaroomView {
            id: self.id,
            registrations: self.registrations@,
            merged_into: self.merged_into@,
        }
    }
}

/// The metarooms of `s`, each by its view.
pub open spec fn views(s: Seq<Metaroom>) -> Seq<MetaroomView> {
    s.map_values(|m: Metaroom| m@)
}

/// Replacing one metaroom replaces its view.
pub broadcast proof fn lemma_views_update(s: Seq<Metaroom>, i: int, m: Metaroom)
    requires
        0 <= i < s.len(),
    ensures
        #[trigger] views(s.update(i, m)) == views(s).update(i, m@),
{
    assert(views(s.update(i, m)) =~= views(s).update(i, m@));
}

} // verus!
