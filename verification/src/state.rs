use vstd::prelude::*;
use crate::collection::CollectionModel;
use crate::embedding::{Point, PointModel};
use crate::index::IndexConfig;

verus! {

/// The durable fields of one collection: its dense point list and its
/// identifier-to-slot map. The approximate index is deliberately absent; it
/// is rebuilt from the points, never persisted.
pub struct CollectionData {
    pub points: Vec<Point>,
    pub id_to_index: Vec<(u128, usize)>,
}

/// The durable snapshot of one collection: its data plus the configuration
/// it was created from.
pub struct CollectionState {
    pub data: CollectionData,
    pub index_config: IndexConfig,
}

impl View for CollectionState {
    type V = CollectionModel;

    open spec fn view(&self) -> CollectionModel {
        CollectionModel {
            points: self.data.points.deep_view(),
            id_to_index: self.data.id_to_index@,
            index_config: self.index_config,
        }
    }
}

impl DeepView for CollectionState {
    type V = CollectionModel;

    open spec fn deep_view(&self) -> CollectionModel {
        self.view()
    }
}

/// First-match lookup of an identifier in the identifier-to-slot map.
pub open spec fn map_lookup(m: Seq<(u128, usize)>, id: u128) -> Option<usize>
    decreases m.len(),
{
    if m.len() == 0 {
        None
    } else if m[0].0 == id {
        Some(m[0].1)
    } else {
        map_lookup(m.skip(1), id)
    }
}

/// Well-formedness of a collection's durable fields against a dimension:
/// every vector has that length; every map entry names a live slot holding
/// the point with that identifier; and every slot's identifier maps back to
/// exactly that slot.
pub open spec fn data_wf(points: Seq<PointModel>, m: Seq<(u128, usize)>, dim: usize) -> bool {
    &&& forall|s: int| 0 <= s < points.len() ==> (#[trigger] points[s]).vector.len() == dim
    &&& forall|k: int|
        0 <= k < m.len() ==> (#[trigger] m[k]).1 < points.len() && points[m[k].1 as int].id
            == m[k].0
    &&& forall|s: int|
        0 <= s < points.len() ==> map_lookup(m, (#[trigger] points[s]).id) == Some(s as usize)
}

/// Well-formedness of a whole collection snapshot.
pub open spec fn state_wf(state: CollectionState) -> bool {
    data_wf(
        state.data.points.deep_view(),
        state.data.id_to_index@,
        state.index_config.embedding_type.spec_dimension(),
    )
}

/// A successful lookup names an entry of the map.
pub proof fn lemma_map_lookup_some(m: Seq<(u128, usize)>, id: u128)
    requires
        map_lookup(m, id) is Some,
    ensures
        exists|k: int|
            0 <= k < m.len() && (#[trigger] m[k]).0 == id && m[k].1 == map_lookup(m, id)->Some_0,
    decreases m.len(),
{
    if m.len() > 0 {
        if m[0].0 == id {
            assert(m[0].0 == id && m[0].1 == map_lookup(m, id)->Some_0);
        } else {
            lemma_map_lookup_some(m.skip(1), id);
            let k = choose|k: int|
                0 <= k < m.skip(1).len() && (#[trigger] m.skip(1)[k]).0 == id && m.skip(1)[k].1
                    == map_lookup(m.skip(1), id)->Some_0;
            assert(m[k + 1].0 == id && m[k + 1].1 == map_lookup(m, id)->Some_0);
        }
    }
}

/// A failed lookup means no entry of the map carries the identifier.
pub proof fn lemma_map_lookup_none(m: Seq<(u128, usize)>, id: u128)
    requires
        map_lookup(m, id) is None,
    ensures
        forall|k: int| 0 <= k < m.len() ==> (#[trigger] m[k]).0 != id,
    decreases m.len(),
{
    if m.len() > 0 {
        lemma_map_lookup_none(m.skip(1), id);
        assert forall|k: int| 0 <= k < m.len() implies (#[trigger] m[k]).0 != id by {
            if k > 0 {
                assert(m.skip(1)[k - 1] == m[k]);
            }
        }
    }
}

/// Appending an entry leaves every earlier identifier's lookup unchanged and
/// gives the new identifier its slot if it was absent.
pub proof fn lemma_map_lookup_push(m: Seq<(u128, usize)>, e: (u128, usize), id: u128)
    ensures
        map_lookup(m.push(e), id) == (if map_lookup(m, id) is Some {
            map_lookup(m, id)
        } else if e.0 == id {
            Some(e.1)
        } else {
            None
        }),
    decreases m.len(),
{
    if m.len() == 0 {
        assert(m.push(e)[0] == e);
        assert(m.push(e).skip(1) =~= Seq::<(u128, usize)>::empty());
        assert(map_lookup(m, id) is None);
        assert(map_lookup(m.push(e).skip(1), id) is None);
        assert(map_lookup(m.push(e), id) == (if e.0 == id {
            Some(e.1)
        } else {
            None
        }));
    } else {
        assert(m.push(e)[0] == m[0]);
        assert(m.push(e).skip(1) =~= m.skip(1).push(e));
        lemma_map_lookup_push(m.skip(1), e, id);
        if m[0].0 == id {
            assert(map_lookup(m.push(e), id) == Some(m[0].1));
            assert(map_lookup(m, id) == Some(m[0].1));
        } else {
            assert(map_lookup(m.push(e), id) == map_lookup(m.skip(1).push(e), id));
            assert(map_lookup(m, id) == map_lookup(m.skip(1), id));
        }
    }
}

/// First-match lookup of an identifier in the identifier-to-slot map.
pub fn map_get(m: &Vec<(u128, usize)>, id: u128) -> (r: Option<usize>)
    ensures
        r == map_lookup(m@, id),
{
    let n = m.len();
    assert(m@.skip(0) =~= m@);
    for k in 0..n
        invariant
            n == m@.len(),
            map_lookup(m@.skip(k as int), id) == map_lookup(m@, id),
    {
        let ghost pre = m@.skip(k as int);
        assert(pre[0] == m@[k as int]);
        if m[k].0 == id {
            return Some(m[k].1);
        }
        assert(pre.skip(1) =~= m@.skip(k + 1));
    }
    assert(m@.skip(n as int) =~= Seq::<(u128, usize)>::empty());
    None
}

} // verus!
