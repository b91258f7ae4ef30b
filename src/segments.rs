//! Hash-based stores used while assembling contours: segments grouped by the
//! integer cell of their start point, and the set of boundary cells that still
//! hold segments.
use crate::contour::Segment;
use rustc_hash::{FxHashMap, FxHashSet};
use vstd::prelude::*;

verus! {

/// Integer cell of a point in field-index space.
pub type CellKey = (usize, usize);

/// Segments grouped by the cell of their start point.
#[verifier::external_body]
pub struct SegmentsMap {
    map: FxHashMap<CellKey, Vec<Segment>>,
}

/// The lists held by a [`SegmentsMap`], by cell.
pub uninterp spec fn segments_of(m: SegmentsMap) -> Map<CellKey, Seq<Segment>>;

/// A set of cells.
#[verifier::external_body]
pub struct CellSet {
    set: FxHashSet<CellKey>,
}

/// The cells held by a [`CellSet`].
pub uninterp spec fn cells_of(s: CellSet) -> Set<CellKey>;

impl SegmentsMap {
    /// Relies on `FxHashMap::default` (std `HashMap::default`): the map is empty.
    #[verifier::external_body]
    pub(crate) fn new() -> (r: SegmentsMap)
        ensures
            forall|k: CellKey| !segments_of(r).contains_key(k),
    {
        SegmentsMap { map: FxHashMap::default() }
    }

    /// Relies on std `HashMap::insert`: the key maps to the list afterwards, every
    /// other key is unchanged.
    #[verifier::external_body]
    pub(crate) fn insert(&mut self, k: CellKey, v: Vec<Segment>)
        ensures
            segments_of(*final(self)) == segments_of(*old(self)).insert(k, v@),
    {
        self.map.insert(k, v);
    }

    /// Relies on std `HashMap::remove`: returns the list held under the key, if
    /// any, and leaves the other keys unchanged.
    #[verifier::external_body]
    pub(crate) fn remove(&mut self, k: CellKey) -> (r: Option<Vec<Segment>>)
        ensures
            segments_of(*final(self)) == segments_of(*old(self)).remove(k),
            segments_of(*old(self)).contains_key(k) <==> r is Some,
            r matches Some(v) ==> v@ == segments_of(*old(self))[k],
    {
        self.map.remove(&k)
    }

    /// Relies on std `HashMap::is_empty`: true exactly when no key is held.
    #[verifier::external_body]
    pub(crate) fn is_empty(&self) -> (r: bool)
        ensures
            r <==> forall|k: CellKey| !segments_of(*self).contains_key(k),
    {
        self.map.is_empty()
    }

    /// Relies on std `HashMap::keys`: the first key met by the walk, which is some
    /// held key, and `None` only for an empty map. Which key comes first is left open.
    #[verifier::external_body]
    pub(crate) fn any_key(&self) -> (r: Option<CellKey>)
        ensures
            r matches Some(k) ==> segments_of(*self).contains_key(k),
            r is None <==> forall|k: CellKey| !segments_of(*self).contains_key(k),
    {
        self.map.keys().next().copied()
    }
}

impl CellSet {
    /// Relies on `FxHashSet::default` (std `HashSet::default`): the set is empty.
    #[verifier::external_body]
    pub(crate) fn new() -> (r: CellSet)
        ensures
            forall|k: CellKey| !cells_of(r).contains(k),
    {
        CellSet { set: FxHashSet::default() }
    }

    /// Relies on std `HashSet::insert`: the cell is held afterwards.
    #[verifier::external_body]
    pub(crate) fn insert(&mut self, k: CellKey)
        ensures
            cells_of(*final(self)) == cells_of(*old(self)).insert(k),
    {
        self.set.insert(k);
    }

    /// Relies on std `HashSet::remove`: the cell is no longer held.
    #[verifier::external_body]
    pub(crate) fn remove(&mut self, k: CellKey)
        ensures
            cells_of(*final(self)) == cells_of(*old(self)).remove(k),
    {
        self.set.remove(&k);
    }

    /// Relies on std `HashSet::iter`: the first cell met by the walk, which is some
    /// held cell, and `None` only for an empty set. Which cell comes first is left open.
    #[verifier::external_body]
    pub(crate) fn any_cell(&self) -> (r: Option<CellKey>)
        ensures
            r matches Some(k) ==> cells_of(*self).contains(k),
            r is None <==> forall|k: CellKey| !cells_of(*self).contains(k),
    {
        self.set.iter().next().copied()
    }
}

} // verus!
