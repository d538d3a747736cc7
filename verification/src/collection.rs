use vstd::prelude::*;
use vstd::pervasive::VecAdditionalExecFns;
use crate::constants::DEFAULT_OVERFETCH_FACTOR;
use crate::embedding::{Point, PointModel};
use crate::error::VectorDbError;
use crate::index::IndexConfig;
use crate::search::{accepted, point_passes, MetadataFilter};
use crate::state::{
    data_wf, lemma_map_lookup_none, lemma_map_lookup_push, lemma_map_lookup_some, map_get,
    map_lookup, CollectionData, CollectionState,
};

verus! {

/// The mathematical value of a collection's durable fields: its point list,
/// its identifier-to-slot map, and the configuration it was created from.
#[verifier::ext_equal]
pub struct CollectionModel {
    pub points: Seq<PointModel>,
    pub id_to_index: Seq<(u128, usize)>,
    pub index_config: IndexConfig,
}

/// A named set of points sharing one embedding dimension. The points sit in
/// a dense, slot-indexed list; the map ties each point identifier to its
/// slot. The approximate index that searches these slots lives outside the
/// store and is fed through the slot numbers this type hands out.
pub struct Collection {
    pub points: Vec<Point>,
    pub id_to_index: Vec<(u128, usize)>,
    pub index_config: IndexConfig,
}

/// How many candidates to request from the approximate index: the caller's
/// limit when no filtering follows, otherwise the limit times the overfetch
/// factor (capped at the machine's word), because post-filtering may discard
/// candidates.
pub open spec fn spec_fetch_count(limit: usize, filter_count: nat) -> usize {
    if filter_count == 0 {
        limit
    } else if limit * DEFAULT_OVERFETCH_FACTOR <= usize::MAX {
        (limit * DEFAULT_OVERFETCH_FACTOR) as usize
    } else {
        usize::MAX
    }
}

/// The points selected from a candidate slot list: each slot is resolved to
/// its point in retrieved order, points that fail the filters are dropped,
/// and the first `limit` survivors are kept.
pub open spec fn selected(
    points: Seq<PointModel>,
    cands: Seq<usize>,
    filters: Seq<Seq<(Seq<char>, Seq<char>)>>,
    limit: nat,
) -> Seq<PointModel>
    decreases cands.len(),
{
    if limit == 0 || cands.len() == 0 {
        Seq::empty()
    } else {
        let p = points[cands[0] as int];
        if accepted(p, filters) {
            seq![p] + selected(points, cands.skip(1), filters, (limit - 1) as nat)
        } else {
            selected(points, cands.skip(1), filters, limit)
        }
    }
}

/// See `spec_fetch_count`.
pub fn fetch_count(limit: usize, filters: &Vec<MetadataFilter>) -> (n: usize)
    ensures
        n == spec_fetch_count(limit, filters@.len()),
{
    if filters.len() == 0 {
        limit
    } else if limit <= usize::MAX / DEFAULT_OVERFETCH_FACTOR {
        assert(limit * DEFAULT_OVERFETCH_FACTOR <= usize::MAX) by (nonlinear_arith)
            requires
                limit <= usize::MAX / DEFAULT_OVERFETCH_FACTOR,
        ;
        limit * DEFAULT_OVERFETCH_FACTOR
    } else {
        assert(limit * DEFAULT_OVERFETCH_FACTOR > usize::MAX) by (nonlinear_arith)
            requires
                limit > usize::MAX / DEFAULT_OVERFETCH_FACTOR,
        ;
        usize::MAX
    }
}

impl Clone for Point {
    fn clone(&self) -> (r: Self)
        ensures
            r@ == self@,
    {
        let mut vector: Vec<u32> = Vec::new();
        let n = self.vector.len();
        for i in 0..n
            invariant
                n == self.vector@.len(),
                vector@ == self.vector@.take(i as int),
        {
            vector.push(self.vector[i]);
            assert(vector@ =~= self.vector@.take(i + 1));
        }
        assert(vector@ =~= self.vector@);
        let metadata: Option<Vec<(String, String)>> = match &self.metadata {
            Some(m) => {
                let mut entries: Vec<(String, String)> = Vec::new();
                let k = m.len();
                for i in 0..k
                    invariant
                        k == m@.len(),
                        entries@.len() == i as int,
                        m.deep_view().len() == k,
                        entries.deep_view() == m.deep_view().take(i as int),
                {
                    let c0 = m[i].0.clone();
                    let c1 = m[i].1.clone();
                    proof {
                        assert(c0@ == m@[i as int].0@);
                        assert(c1@ == m@[i as int].1@);
                        assert(m.deep_view()[i as int] == (m@[i as int].0@, m@[i as int].1@));
                    }
                    let ghost g0 = c0@;
                    let ghost g1 = c1@;
                    let pair = (c0, c1);
                    let ghost gpair = pair;
                    entries.push(pair);
                    proof {
                        assert(entries@.len() == i + 1);
                        assert(entries@[i as int] == gpair);
                        assert(gpair.deep_view() == (g0, g1));
                        assert(entries.deep_view()[i as int] == (g0, g1));
                        assert(entries.deep_view() =~= m.deep_view().take(i + 1));
                    }
                }
                assert(entries.deep_view() =~= m.deep_view());
                Some(entries)
            },
            None => None,
        };
        let r = Point { id: self.id, vector, metadata };
        assert(r@.vector =~= self@.vector);
        assert(r@ == self@);
        r
    }
}

impl View for Collection {
    type V = CollectionModel;

    open spec fn view(&self) -> CollectionModel {
        CollectionModel {
            points: self.points.deep_view(),
            id_to_index: self.id_to_index@,
            index_config: self.index_config,
        }
    }
}

impl DeepView for Collection {
    type V = CollectionModel;

    open spec fn deep_view(&self) -> CollectionModel {
        self.view()
    }
}

impl Collection {
    /// The vector length every point of this collection must have.
    pub open spec fn spec_dimension(&self) -> usize {
        self.index_config.embedding_type.spec_dimension()
    }

    /// The collection's internal invariant; established at creation and
    /// preserved by every operation.
    pub open spec fn wf(&self) -> bool {
        data_wf(self.points.deep_view(), self.id_to_index@, self.spec_dimension())
    }

    /// An empty collection under the given configuration.
    pub fn with_index_config(index_config: IndexConfig) -> (c: Collection)
        ensures
            c.wf(),
            c.points@.len() == 0,
            c.id_to_index@.len() == 0,
            c.index_config == index_config,
    {
        Collection { points: Vec::new(), id_to_index: Vec::new(), index_config }
    }

    /// Insert a point or overwrite the point that already carries its
    /// identifier. A vector of the wrong length is rejected whole; an
    /// overwrite reuses the identifier's slot; a new identifier is appended
    /// at the next slot. On success the returned slot is where the point now
    /// lives, so the caller can re-insert its vector into the approximate
    /// index.
    pub fn upsert(&mut self, point: Point) -> (r: Result<usize, VectorDbError>)
        requires
            old(self).wf(),
        ensures
            final(self).wf(),
            final(self).index_config == old(self).index_config,
            ({
                let dim = old(self).spec_dimension();
                if point@.vector.len() != dim {
                    &&& r == Err::<usize, VectorDbError>(
                        VectorDbError::DimensionMismatch {
                            expected: dim,
                            actual: point.vector@.len() as usize,
                        },
                    )
                    &&& final(self).points == old(self).points
                    &&& final(self).id_to_index == old(self).id_to_index
                } else {
                    match map_lookup(old(self).id_to_index@, point@.id) {
                        Some(idx) => {
                            &&& r == Ok::<usize, VectorDbError>(idx)
                            &&& final(self).points.deep_view() == old(self).points.deep_view().update(
                                idx as int,
                                point@,
                            )
                            &&& final(self).id_to_index == old(self).id_to_index
                        },
                        None => {
                            &&& r == Ok::<usize, VectorDbError>(old(self).points@.len() as usize)
                            &&& final(self).points.deep_view() == old(self).points.deep_view().push(
                                point@,
                            )
                            &&& final(self).id_to_index@ == old(self).id_to_index@.push(
                                (point@.id, old(self).points@.len() as usize),
                            )
                        },
                    }
                }
            }),
    {
        let dimension = self.index_config.embedding_type.dimension();
        if point.vector.len() != dimension {
            return Err(
                VectorDbError::DimensionMismatch { expected: dimension, actual: point.vector.len() },
            );
        }
        let pid = point.id;
        let ghost old_points = self.points.deep_view();
        let ghost old_map = self.id_to_index@;
        match map_get(&self.id_to_index, pid) {
            Some(idx) => {
                proof {
                    lemma_map_lookup_some(old_map, pid);
                }
                self.points.set(idx, point);
                proof {
                    let new_points = self.points.deep_view();
                    assert(new_points =~~= old_points.update(idx as int, point@));
                    assert forall|s: int| 0 <= s < new_points.len() implies (
                    #[trigger] new_points[s]).id == old_points[s].id by {}
                    assert(self.wf());
                }
                Ok(idx)
            },
            None => {
                let idx = self.points.len();
                proof {
                    lemma_map_lookup_none(old_map, pid);
                }
                self.points.push(point);
                self.id_to_index.push((pid, idx));
                proof {
                    let new_points = self.points.deep_view();
                    let new_map = self.id_to_index@;
                    assert(new_points =~~= old_points.push(point@));
                    assert(new_map =~= old_map.push((pid, idx)));
                    assert forall|s: int|
                        0 <= s < new_points.len() implies map_lookup(
                        new_map,
                        (#[trigger] new_points[s]).id,
                    ) == Some(s as usize) by {
                        lemma_map_lookup_push(old_map, (pid, idx), new_points[s].id);
                    }
                    assert(self.wf());
                }
                Ok(idx)
            },
        }
    }

    /// Search, given the candidate slots the approximate index returned for
    /// the query (most similar first): resolve each slot to its point, drop
    /// the ones the filters reject, and keep the first `limit` survivors in
    /// retrieved order.
    pub fn search_with_filter(
        &self,
        candidates: &Vec<usize>,
        limit: usize,
        filters: &Vec<MetadataFilter>,
    ) -> (r: Vec<Point>)
        requires
            forall|i: int|
                0 <= i < candidates@.len() ==> (#[trigger] candidates@[i]) < self.points@.len(),
        ensures
            r.deep_view() == selected(
                self.points.deep_view(),
                candidates@,
                filters.deep_view(),
                limit as nat,
            ),
    {
        let ghost pointsv = self.points.deep_view();
        let ghost filtersv = filters.deep_view();
        let mut out: Vec<Point> = Vec::new();
        let n = candidates.len();
        assert(candidates@.skip(0) =~= candidates@);
        for i in 0..n
            invariant
                n == candidates@.len(),
                pointsv == self.points.deep_view(),
                filtersv == filters.deep_view(),
                out@.len() <= limit,
                forall|k: int|
                    0 <= k < candidates@.len() ==> (#[trigger] candidates@[k])
                        < self.points@.len(),
                selected(pointsv, candidates@, filtersv, limit as nat) == out.deep_view()
                    + selected(
                    pointsv,
                    candidates@.skip(i as int),
                    filtersv,
                    (limit - out@.len()) as nat,
                ),
        {
            let ghost pre = candidates@.skip(i as int);
            assert(pre[0] == candidates@[i as int]);
            let ghost out_before = out.deep_view();
            if out.len() < limit {
                let c = candidates[i];
                if point_passes(&self.points[c], filters) {
                    let p = self.points[c].clone();
                    assert(p@ == pointsv[c as int]);
                    out.push(p);
                    assert(out.deep_view() =~~= out_before.push(pointsv[c as int]));
                    assert(out_before + seq![pointsv[c as int]] =~~= out.deep_view());
                }
            }
            proof {
                assert(pre.skip(1) =~= candidates@.skip(i + 1));
                if out_before.len() < limit {
                    assert(selected(pointsv, pre, filtersv, (limit - out_before.len()) as nat) == (
                    if accepted(pointsv[pre[0] as int], filtersv) {
                        seq![pointsv[pre[0] as int]] + selected(
                            pointsv,
                            pre.skip(1),
                            filtersv,
                            (limit - out_before.len() - 1) as nat,
                        )
                    } else {
                        selected(pointsv, pre.skip(1), filtersv, (limit - out_before.len()) as nat)
                    }));
                    if accepted(pointsv[pre[0] as int], filtersv) {
                        assert(out.deep_view() + selected(
                            pointsv,
                            candidates@.skip(i + 1),
                            filtersv,
                            (limit - out.deep_view().len()) as nat,
                        ) =~= out_before + selected(
                            pointsv,
                            pre,
                            filtersv,
                            (limit - out_before.len()) as nat,
                        ));
                    }
                } else {
                    assert(selected(pointsv, pre, filtersv, 0) =~= Seq::<PointModel>::empty());
                    assert(selected(pointsv, pre.skip(1), filtersv, 0) =~= Seq::<
                        PointModel,
                    >::empty());
                }
            }
        }
        proof {
            assert(candidates@.skip(n as int) =~= Seq::<usize>::empty());
            assert(selected(pointsv, candidates@.skip(n as int), filtersv, (limit
                - out@.len()) as nat) =~= Seq::<PointModel>::empty());
            assert(out.deep_view() + Seq::<PointModel>::empty() =~= out.deep_view());
        }
        out
    }

    /// `search_with_filter` with no filtering at all.
    pub fn search(&self, candidates: &Vec<usize>, limit: usize) -> (r: Vec<Point>)
        requires
            forall|i: int|
                0 <= i < candidates@.len() ==> (#[trigger] candidates@[i]) < self.points@.len(),
        ensures
            r.deep_view() == selected(
                self.points.deep_view(),
                candidates@,
                Seq::empty(),
                limit as nat,
            ),
    {
        let filters: Vec<MetadataFilter> = Vec::new();
        assert(filters.deep_view() =~= Seq::<Seq<(Seq<char>, Seq<char>)>>::empty());
        self.search_with_filter(candidates, limit, &filters)
    }

    /// Rebuild a collection from its durable fields. The caller re-populates
    /// the approximate index by inserting `points[slot]`'s vector for every
    /// slot in ascending order, which keeps the rebuild deterministic.
    pub fn from_state(state: CollectionState) -> (c: Collection)
        requires
            crate::state::state_wf(state),
        ensures
            c.wf(),
            c.points.deep_view() == state.data.points.deep_view(),
            c.id_to_index@ == state.data.id_to_index@,
            c.index_config == state.index_config,
    {
        Collection {
            points: state.data.points,
            id_to_index: state.data.id_to_index,
            index_config: state.index_config,
        }
    }

}

/// Whether a snapshot's fields satisfy the collection invariant; the load
/// path runs this before trusting restored data.
pub fn check_state(state: &CollectionState) -> (b: bool)
    ensures
        b == crate::state::state_wf(*state),
{
    let dim = state.index_config.embedding_type.dimension();
    let points = &state.data.points;
    let m = &state.data.id_to_index;
    let n = points.len();
    let ghost pointsv = points.deep_view();
    let ghost mv = m@;
    for s in 0..n
        invariant
            n == points@.len(),
            pointsv == points.deep_view(),
            pointsv == state.data.points.deep_view(),
            dim == state.index_config.embedding_type.spec_dimension(),
            forall|t: int| 0 <= t < s ==> (#[trigger] pointsv[t]).vector.len() == dim,
    {
        proof {
            assert(pointsv[s as int].vector.len() == points@[s as int].vector@.len());
        }
        if points[s].vector.len() != dim {
            proof {
                assert(pointsv[s as int].vector.len() != dim);
                assert(!crate::state::data_wf(
                    state.data.points.deep_view(),
                    state.data.id_to_index@,
                    state.index_config.embedding_type.spec_dimension(),
                ));
                assert(!crate::state::state_wf(*state));
            }
            return false;
        }
        assert(pointsv[s as int].vector.len() == dim);
    }
    let mn = m.len();
    for k in 0..mn
        invariant
            mn == m@.len(),
            n == points@.len(),
            pointsv == points.deep_view(),
            pointsv == state.data.points.deep_view(),
            mv == m@,
            mv == state.data.id_to_index@,
            dim == state.index_config.embedding_type.spec_dimension(),
            forall|t: int|
                0 <= t < k ==> (#[trigger] mv[t]).1 < pointsv.len() && pointsv[mv[t].1 as int].id
                    == mv[t].0,
    {
        let (id, slot) = m[k];
        proof {
            assert(mv[k as int] == (id, slot));
        }
        if slot >= n {
            proof {
                assert(mv[k as int].1 >= pointsv.len());
                assert(!crate::state::data_wf(
                    state.data.points.deep_view(),
                    state.data.id_to_index@,
                    state.index_config.embedding_type.spec_dimension(),
                ));
                assert(!crate::state::state_wf(*state));
            }
            return false;
        }
        proof {
            assert(pointsv[slot as int].id == points@[slot as int].id);
        }
        if points[slot].id != id {
            proof {
                assert(pointsv[mv[k as int].1 as int].id != mv[k as int].0);
                assert(!crate::state::data_wf(
                    state.data.points.deep_view(),
                    state.data.id_to_index@,
                    state.index_config.embedding_type.spec_dimension(),
                ));
                assert(!crate::state::state_wf(*state));
            }
            return false;
        }
        assert((mv[k as int]).1 < pointsv.len() && pointsv[mv[k as int].1 as int].id
            == mv[k as int].0);
    }
    for s in 0..n
        invariant
            n == points@.len(),
            pointsv == points.deep_view(),
            pointsv == state.data.points.deep_view(),
            mv == m@,
            mv == state.data.id_to_index@,
            dim == state.index_config.embedding_type.spec_dimension(),
            forall|t: int|
                0 <= t < s ==> map_lookup(mv, (#[trigger] pointsv[t]).id) == Some(t as usize),
    {
        proof {
            assert(pointsv[s as int].id == points@[s as int].id);
        }
        let found = map_get(m, points[s].id);
        let ok = match found {
            Some(v) => v == s,
            None => false,
        };
        if !ok {
            proof {
                assert(map_lookup(mv, pointsv[s as int].id) != Some(s as usize));
                assert(!crate::state::data_wf(
                    state.data.points.deep_view(),
                    state.data.id_to_index@,
                    state.index_config.embedding_type.spec_dimension(),
                ));
                assert(!crate::state::state_wf(*state));
            }
            return false;
        }
        assert(map_lookup(mv, pointsv[s as int].id) == Some(s as usize));
    }
    true
}

} // verus!
