use vstd::prelude::*;
use crate::client::{slot_of_model, upsert_model};
use crate::collection::{selected, CollectionModel};
use crate::embedding::PointModel;
use crate::search::passes_any;
use crate::state::{data_wf, lemma_map_lookup_none, lemma_map_lookup_push, lemma_map_lookup_some, map_lookup};

verus! {

/// Upserting the same identifier twice keeps exactly one entry for it: the
/// second upsert reuses the first one's slot, adds no point and no map entry,
/// and leaves the second point visible at that slot.
pub proof fn lemma_idempotent_overwrite(cm: CollectionModel, p1: PointModel, p2: PointModel)
    requires
        data_wf(cm.points, cm.id_to_index, cm.index_config.embedding_type.spec_dimension()),
        p1.id == p2.id,
    ensures
        ({
            let cm1 = upsert_model(cm, p1);
            let cm2 = upsert_model(cm1, p2);
            &&& cm2.points.len() == cm1.points.len()
            &&& cm2.id_to_index == cm1.id_to_index
            &&& slot_of_model(cm1, p2) == slot_of_model(cm, p1)
            &&& (slot_of_model(cm, p1) as int) < cm2.points.len()
            &&& cm2.points[slot_of_model(cm, p1) as int] == p2
        }),
{
    let slot = slot_of_model(cm, p1);
    match map_lookup(cm.id_to_index, p1.id) {
        Some(idx) => {
            lemma_map_lookup_some(cm.id_to_index, p1.id);
            assert(idx < cm.points.len());
            let cm1 = upsert_model(cm, p1);
            assert(map_lookup(cm1.id_to_index, p2.id) == Some(idx));
        },
        None => {
            lemma_map_lookup_none(cm.id_to_index, p1.id);
            let cm1 = upsert_model(cm, p1);
            lemma_map_lookup_push(
                cm.id_to_index,
                (p1.id, cm.points.len() as usize),
                p2.id,
            );
            assert(map_lookup(cm1.id_to_index, p2.id) == Some(cm.points.len() as usize));
        },
    }
}

/// With a non-empty filter list a search selects only points that meet at
/// least one filter element in full; with an empty list it selects exactly
/// the first `limit` candidates' points, in retrieved order.
pub proof fn lemma_filter_correctness(
    points: Seq<PointModel>,
    cands: Seq<usize>,
    filters: Seq<Seq<(Seq<char>, Seq<char>)>>,
    limit: nat,
)
    ensures
        selected(points, cands, filters, limit).len() <= limit,
        filters.len() > 0 ==> forall|i: int|
            0 <= i < selected(points, cands, filters, limit).len() ==> passes_any(
                #[trigger] selected(points, cands, filters, limit)[i],
                filters,
            ),
        filters.len() == 0 ==> ({
            let r = selected(points, cands, filters, limit);
            &&& r.len() == (if limit <= cands.len() {
                limit as int
            } else {
                cands.len() as int
            })
            &&& forall|i: int| 0 <= i < r.len() ==> r[i] == points[cands[i] as int]
        }),
    decreases cands.len(),
{
    if limit == 0 || cands.len() == 0 {
    } else {
        let p = points[cands[0] as int];
        lemma_filter_correctness(points, cands.skip(1), filters, (limit - 1) as nat);
        lemma_filter_correctness(points, cands.skip(1), filters, limit);
        if crate::search::accepted(p, filters) {
            let tail = selected(points, cands.skip(1), filters, (limit - 1) as nat);
            let r = seq![p] + tail;
            assert(selected(points, cands, filters, limit) == r);
            assert(r.len() <= limit);
            if filters.len() > 0 {
                assert forall|i: int| 0 <= i < r.len() implies passes_any(
                    #[trigger] r[i],
                    filters,
                ) by {
                    if i > 0 {
                        assert(r[i] == tail[i - 1]);
                    }
                }
            }
            if filters.len() == 0 {
                assert forall|i: int| 0 <= i < r.len() implies r[i] == points[cands[i] as int] by {
                    if i > 0 {
                        assert(r[i] == tail[i - 1]);
                        assert(cands.skip(1)[i - 1] == cands[i]);
                    }
                }
            }
        } else {
            assert(filters.len() > 0);
        }
    }
}

} // verus!
