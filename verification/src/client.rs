use vstd::prelude::*;
use crate::codec::{decode_state, enc_state, encodable_state, encode_state};
use crate::collection::{check_state, selected, Collection, CollectionModel};
use crate::embedding::{Point, PointModel};
use crate::error::{PersistenceError, VectorDbError};
use crate::index::IndexConfig;
use crate::persistence_adapter::Persistence;
use crate::search::MetadataFilter;
use crate::state::{data_wf, map_lookup};

verus! {

/// The registry: collection name to collection, in creation order.
pub type CollectionMap = Vec<(String, Collection)>;

pub struct ClientConfig {
    pub persistence_adapter: Option<Persistence>,
}

/// The top-level store: it owns every collection and carries the optional
/// durability backend. A store built in memory persists nothing; one built
/// over an adapter hands complete snapshots out through `persist`.
pub struct Client {
    pub collections: CollectionMap,
    pub persistence_adapter: Option<Persistence>,
}

/// First-match position of a collection name in the registry.
pub open spec fn reg_lookup(cs: Seq<(String, Collection)>, name: Seq<char>) -> Option<int>
    decreases cs.len(),
{
    if cs.len() == 0 {
        None
    } else if cs[0].0@ == name {
        Some(0int)
    } else {
        match reg_lookup(cs.skip(1), name) {
            Some(i) => Some(i + 1),
            None => None,
        }
    }
}

/// A name is absent exactly when no entry carries it.
pub proof fn lemma_reg_lookup_none_iff(cs: Seq<(String, Collection)>, name: Seq<char>)
    ensures
        (reg_lookup(cs, name) is None) <==> (forall|k: int|
            0 <= k < cs.len() ==> (#[trigger] cs[k]).0@ != name),
    decreases cs.len(),
{
    if cs.len() > 0 {
        lemma_reg_lookup_none_iff(cs.skip(1), name);
        assert(forall|k: int| 0 <= k < cs.skip(1).len() ==> #[trigger] cs.skip(1)[k] == cs[k + 1]);
        if cs[0].0@ != name && (forall|k: int|
            0 <= k < cs.skip(1).len() ==> (#[trigger] cs.skip(1)[k]).0@ != name) {
            assert forall|k: int| 0 <= k < cs.len() implies (#[trigger] cs[k]).0@ != name by {
                if k > 0 {
                    assert(cs.skip(1)[k - 1] == cs[k]);
                }
            }
        }
    }
}

/// The position a lookup returns is the first whose entry carries the name.
pub proof fn lemma_reg_lookup_at(cs: Seq<(String, Collection)>, name: Seq<char>, i: int)
    requires
        0 <= i < cs.len(),
        cs[i].0@ == name,
        forall|j: int| 0 <= j < i ==> (#[trigger] cs[j]).0@ != name,
    ensures
        reg_lookup(cs, name) == Some(i),
    decreases i,
{
    if i > 0 {
        assert(cs[0].0@ != name);
        assert(forall|k: int| 0 <= k < cs.skip(1).len() ==> #[trigger] cs.skip(1)[k] == cs[k + 1]);
        lemma_reg_lookup_at(cs.skip(1), name, i - 1);
    }
}

/// A successful lookup names an entry carrying the name.
pub proof fn lemma_reg_lookup_some(cs: Seq<(String, Collection)>, name: Seq<char>)
    requires
        reg_lookup(cs, name) is Some,
    ensures
        ({
            let i = reg_lookup(cs, name)->Some_0;
            0 <= i < cs.len() && cs[i].0@ == name
        }),
    decreases cs.len(),
{
    if cs.len() > 0 && cs[0].0@ != name {
        lemma_reg_lookup_some(cs.skip(1), name);
    }
}

/// First-match search of the registry.
pub fn reg_find(cs: &CollectionMap, name: &String) -> (r: Option<usize>)
    ensures
        match r {
            Some(i) => reg_lookup(cs@, name@) == Some(i as int),
            None => reg_lookup(cs@, name@) is None,
        },
{
    let n = cs.len();
    for k in 0..n
        invariant
            n == cs@.len(),
            forall|j: int| 0 <= j < k ==> (#[trigger] cs@[j]).0@ != name@,
    {
        if cs[k].0.eq(name) {
            proof {
                lemma_reg_lookup_at(cs@, name@, k as int);
            }
            return Some(k);
        }
    }
    proof {
        lemma_reg_lookup_none_iff(cs@, name@);
    }
    None
}

/// The durable fields of an empty collection under a configuration.
pub open spec fn empty_model(cfg: IndexConfig) -> CollectionModel {
    CollectionModel { points: Seq::empty(), id_to_index: Seq::empty(), index_config: cfg }
}

/// What one upsert of a fitting point does to a collection's durable fields:
/// an identifier already mapped keeps its slot and has its point overwritten;
/// a fresh identifier is appended at the next slot.
pub open spec fn upsert_model(cm: CollectionModel, p: PointModel) -> CollectionModel {
    match map_lookup(cm.id_to_index, p.id) {
        Some(idx) => CollectionModel {
            points: cm.points.update(idx as int, p),
            id_to_index: cm.id_to_index,
            index_config: cm.index_config,
        },
        None => CollectionModel {
            points: cm.points.push(p),
            id_to_index: cm.id_to_index.push((p.id, cm.points.len() as usize)),
            index_config: cm.index_config,
        },
    }
}

/// The slot an upsert of the point settles on.
pub open spec fn slot_of_model(cm: CollectionModel, p: PointModel) -> usize {
    match map_lookup(cm.id_to_index, p.id) {
        Some(idx) => idx,
        None => cm.points.len() as usize,
    }
}

/// A batch of upserts, applied in order and stopped at the first point whose
/// vector length misses the collection's dimension; earlier points stay
/// applied.
pub open spec fn batch_apply(cm: CollectionModel, ps: Seq<PointModel>) -> CollectionModel
    decreases ps.len(),
{
    if ps.len() == 0 {
        cm
    } else if ps[0].vector.len() != cm.index_config.embedding_type.spec_dimension() {
        cm
    } else {
        batch_apply(upsert_model(cm, ps[0]), ps.skip(1))
    }
}

/// The first dimension mismatch a batch runs into, as (expected, actual).
pub open spec fn batch_error(cm: CollectionModel, ps: Seq<PointModel>) -> Option<(usize, usize)>
    decreases ps.len(),
{
    if ps.len() == 0 {
        None
    } else if ps[0].vector.len() != cm.index_config.embedding_type.spec_dimension() {
        Some(
            (
                cm.index_config.embedding_type.spec_dimension(),
                ps[0].vector.len() as usize,
            ),
        )
    } else {
        batch_error(upsert_model(cm, ps[0]), ps.skip(1))
    }
}

/// The approximate-index inserts a batch asks its caller to perform: one
/// (slot, vector) pair per applied point, in order.
pub open spec fn batch_ops(cm: CollectionModel, ps: Seq<PointModel>) -> Seq<(usize, Seq<u32>)>
    decreases ps.len(),
{
    if ps.len() == 0 {
        Seq::empty()
    } else if ps[0].vector.len() != cm.index_config.embedding_type.spec_dimension() {
        Seq::empty()
    } else {
        seq![(slot_of_model(cm, ps[0]), ps[0].vector)] + batch_ops(
            upsert_model(cm, ps[0]),
            ps.skip(1),
        )
    }
}

/// Whether a snapshot's contents can be trusted as a registry: every
/// collection well formed, every name unique.
pub open spec fn model_ok(m: Seq<(Seq<char>, CollectionModel)>) -> bool {
    &&& forall|i: int|
        0 <= i < m.len() ==> data_wf(
            (#[trigger] m[i]).1.points,
            m[i].1.id_to_index,
            m[i].1.index_config.embedding_type.spec_dimension(),
        )
    &&& forall|i: int, j: int| 0 <= i < j < m.len() ==> m[i].0 != m[j].0
}

/// What `persist` hands back: where to write, and what.
pub struct SaveRequest {
    pub path: String,
    pub bytes: Vec<u8>,
}

fn copy_u32s(v: &Vec<u32>) -> (r: Vec<u32>)
    ensures
        r@ == v@,
{
    let mut r: Vec<u32> = Vec::new();
    let n = v.len();
    for i in 0..n
        invariant
            n == v@.len(),
            r@ == v@.take(i as int),
    {
        r.push(v[i]);
        assert(r@ =~= v@.take(i + 1));
    }
    assert(r@ =~= v@);
    r
}

impl Client {
    /// The store's internal invariant: every collection is well formed and
    /// every name occurs once.
    pub open spec fn wf(&self) -> bool {
        &&& forall|k: int|
            0 <= k < self.collections@.len() ==> (#[trigger] self.collections@[k]).1.wf()
        &&& forall|k1: int, k2: int|
            0 <= k1 < k2 < self.collections@.len() ==> self.collections@[k1].0@
                != self.collections@[k2].0@
    }

    /// A store with no durability: nothing it does is ever written anywhere.
    pub fn in_memory() -> (c: Client)
        ensures
            c.wf(),
            c.collections@.len() == 0,
            c.persistence_adapter is None,
    {
        Client { collections: Vec::new(), persistence_adapter: None }
    }

    /// Rebuild a store from a saved snapshot. The bytes must be one whole
    /// well-formed snapshot whose collections satisfy the store invariant;
    /// anything else - truncation, corruption, forged contents - is rejected
    /// as a deserialization failure, never silently accepted. The caller
    /// re-populates each collection's approximate index by inserting every
    /// point's vector at its slot, in ascending slot order.
    pub fn persistent(adapter: Persistence, saved: Vec<u8>) -> (r: Result<Client, VectorDbError>)
        ensures
            r matches Ok(c) ==> c.wf() && c.persistence_adapter == Some(adapter) && saved@
                == enc_state(c.collections.deep_view()) && model_ok(c.collections.deep_view()),
            r matches Err(e) ==> e == VectorDbError::PersistenceError(
                PersistenceError::Deserialization,
            ),
            forall|m: Seq<(Seq<char>, CollectionModel)>|
                encodable_state(m) && model_ok(m) && saved@ == enc_state(m) ==> (r matches Ok(c)
                    && c.collections.deep_view() == m),
    {
        let decoded_r = decode_state(&saved);
        let mut decoded = match decoded_r {
            Some(v) => v,
            None => {
                return Err(VectorDbError::PersistenceError(PersistenceError::Deserialization));
            },
        };
        let ghost dd = decoded.deep_view();
        let n = decoded.len();
        let mut cols: CollectionMap = Vec::new();
        assert(dd.len() == n);
        assert(cols.deep_view() =~= dd.take(0));
        assert(decoded.deep_view() =~= dd.skip(0));
        proof {
            assert forall|m: Seq<(Seq<char>, CollectionModel)>|
                encodable_state(m) && saved@ == enc_state(m) implies dd == m by {}
        }
        for i in 0..n
            invariant
                n == dd.len(),
                decoded.deep_view() == dd.skip(i as int),
                decoded@.len() == n - i,
                cols@.len() == i,
                cols.deep_view() == dd.take(i as int),
                saved@ == enc_state(dd) && encodable_state(dd),
                forall|m: Seq<(Seq<char>, CollectionModel)>|
                    encodable_state(m) && saved@ == enc_state(m) ==> dd == m,
                forall|t: int| 0 <= t < i ==> (#[trigger] cols@[t]).1.wf(),
                forall|t1: int, t2: int|
                    0 <= t1 < t2 < i ==> cols@[t1].0@ != cols@[t2].0@,
                forall|t: int| 0 <= t < i ==> (#[trigger] cols@[t]).0@ == dd[t].0,
        {
            let ghost dpre = decoded.deep_view();
            let ghost draw = decoded@;
            let (name, st) = decoded.remove(0);
            proof {
                assert(dpre[0] == dd[i as int]);
                assert((name@, st@) == dd[i as int]);
                assert(decoded@ =~= draw.skip(1));
                assert forall|j: int|
                    0 <= j < decoded.deep_view().len() implies #[trigger] decoded.deep_view()[j]
                    == dd.skip(i + 1)[j] by {
                    assert(decoded@[j] == draw[j + 1]);
                    assert(dpre[j + 1] == dd.skip(i as int)[j + 1]);
                }
                assert(decoded.deep_view() =~= dd.skip(i + 1));
            }
            if !check_state(&st) {
                proof {
                    assert forall|m: Seq<(Seq<char>, CollectionModel)>|
                        !(encodable_state(m) && model_ok(m) && saved@ == enc_state(m)) by {
                        if encodable_state(m) && model_ok(m) && saved@ == enc_state(m) {
                            assert(dd == m);
                            assert(data_wf(
                                m[i as int].1.points,
                                m[i as int].1.id_to_index,
                                m[i as int].1.index_config.embedding_type.spec_dimension(),
                            ));
                            assert(crate::state::state_wf(st));
                        }
                    }
                }
                return Err(VectorDbError::PersistenceError(PersistenceError::Deserialization));
            }
            let dup = reg_find(&cols, &name);
            if dup.is_some() {
                proof {
                    lemma_reg_lookup_some(cols@, name@);
                    let t = reg_lookup(cols@, name@)->Some_0;
                    assert forall|m: Seq<(Seq<char>, CollectionModel)>|
                        !(encodable_state(m) && model_ok(m) && saved@ == enc_state(m)) by {
                        if encodable_state(m) && model_ok(m) && saved@ == enc_state(m) {
                            assert(dd == m);
                            assert(cols@[t].0@ == dd[t].0);
                            assert(m[t].0 != m[i as int].0);
                        }
                    }
                }
                return Err(VectorDbError::PersistenceError(PersistenceError::Deserialization));
            }
            proof {
                lemma_reg_lookup_none_iff(cols@, name@);
            }
            let coll = Collection::from_state(st);
            cols.push((name, coll));
            proof {
                assert(cols.deep_view() =~= dd.take(i + 1));
            }
        }
        proof {
            assert(dd.take(n as int) =~= dd);
        }
        Ok(Client { collections: cols, persistence_adapter: Some(adapter) })
    }

    /// Build the snapshot of the whole store for the durability backend:
    /// which file to overwrite and the bytes to write. Without a configured
    /// backend there is nothing to ask for.
    pub fn persist(&self) -> (r: Result<SaveRequest, VectorDbError>)
        ensures
            self.persistence_adapter is None <==> r == Err::<SaveRequest, VectorDbError>(
                VectorDbError::PersistenceError(PersistenceError::NotConfigured),
            ),
            self.persistence_adapter is Some ==> r is Ok,
            r matches Ok(req) ==> req.bytes@ == enc_state(self.collections.deep_view())
                && encodable_state(self.collections.deep_view()) && (self.persistence_adapter
                matches Some(a) && req.path@ == a.spec_path()),
    {
        match &self.persistence_adapter {
            None => Err(VectorDbError::PersistenceError(PersistenceError::NotConfigured)),
            Some(adapter) => {
                let bytes = encode_state(&self.collections);
                let path = adapter.path().clone();
                Ok(SaveRequest { path, bytes })
            },
        }
    }

    /// Register an empty collection under the name; registering a taken name
    /// changes nothing, not even the configuration. In-memory mutation cannot
    /// fail; a durability layer around the store persists after each
    /// mutation via `persist` and surfaces its own write failures.
    pub fn create_collection(&mut self, name: &str, index_config: IndexConfig) -> (r: Result<
        (),
        VectorDbError,
    >)
        requires
            old(self).wf(),
        ensures
            final(self).wf(),
            final(self).persistence_adapter == old(self).persistence_adapter,
            r is Ok,
            match reg_lookup(old(self).collections@, name@) {
                Some(_) => final(self).collections == old(self).collections,
                None => final(self).collections.deep_view() == old(
                    self,
                ).collections.deep_view().push((name@, empty_model(index_config))),
            },
    {
        let owned = name.to_owned();
        match reg_find(&self.collections, &owned) {
            Some(_) => Ok(()),
            None => {
                proof {
                    lemma_reg_lookup_none_iff(self.collections@, name@);
                }
                let c = Collection::with_index_config(index_config);
                let ghost cm = c@;
                let ghost oldv = self.collections.deep_view();
                self.collections.push((owned, c));
                proof {
                    assert(cm =~~= empty_model(index_config));
                    assert(self.collections.deep_view() =~= oldv.push((name@, cm)));
                }
                Ok(())
            },
        }
    }

    /// Look a collection up by name.
    pub fn get_collection(&self, name: &str) -> (r: Result<&Collection, VectorDbError>)
        ensures
            match reg_lookup(self.collections@, name@) {
                Some(k) => r matches Ok(c) && *c == self.collections@[k].1,
                None => r matches Err(e) && (e matches VectorDbError::CollectionNotFound { name: n }
                    && n@ == name@),
            },
    {
        let owned = name.to_owned();
        match reg_find(&self.collections, &owned) {
            Some(i) => {
                proof {
                    lemma_reg_lookup_some(self.collections@, name@);
                }
                Ok(&self.collections[i].1)
            },
            None => Err(VectorDbError::CollectionNotFound { name: owned }),
        }
    }

    /// Look a collection up, creating an empty one under the configuration if
    /// the name is new.
    pub fn get_or_create_collection(&mut self, name: &str, index_config: IndexConfig) -> (r: Result<
        &Collection,
        VectorDbError,
    >)
        requires
            old(self).wf(),
        ensures
            final(self).wf(),
            final(self).persistence_adapter == old(self).persistence_adapter,
            match reg_lookup(old(self).collections@, name@) {
                Some(_) => final(self).collections == old(self).collections,
                None => final(self).collections.deep_view() == old(
                    self,
                ).collections.deep_view().push((name@, empty_model(index_config))),
            },
            r matches Ok(c) && reg_lookup(final(self).collections@, name@) matches Some(k) && *c
                == final(self).collections@[k].1,
    {
        let owned = name.to_owned();
        match reg_find(&self.collections, &owned) {
            Some(i) => {
                proof {
                    lemma_reg_lookup_some(self.collections@, name@);
                }
                Ok(&self.collections[i].1)
            },
            None => {
                proof {
                    lemma_reg_lookup_none_iff(self.collections@, name@);
                }
                let c = Collection::with_index_config(index_config);
                let ghost cm = c@;
                let ghost oldv = self.collections.deep_view();
                let ghost oldn = self.collections@.len();
                self.collections.push((owned, c));
                proof {
                    assert(cm =~~= empty_model(index_config));
                    assert(self.collections.deep_view() =~= oldv.push((name@, cm)));
                    lemma_reg_lookup_at(self.collections@, name@, oldn as int);
                }
                let k = self.collections.len() - 1;
                Ok(&self.collections[k].1)
            },
        }
    }

    /// Apply a batch of upserts to the named collection, in order, stopping
    /// at the first dimension mismatch; the points before it stay applied.
    /// The returned list carries one (slot, vector) pair per applied point,
    /// for the caller to replay into that collection's approximate index.
    pub fn upsert_points(&mut self, collection_name: &str, points: Vec<Point>) -> (r: (
        Vec<(usize, Vec<u32>)>,
        Result<(), VectorDbError>,
    ))
        requires
            old(self).wf(),
        ensures
            final(self).wf(),
            final(self).persistence_adapter == old(self).persistence_adapter,
            ({
                let cs = old(self).collections@;
                let dv = points.deep_view();
                match reg_lookup(cs, collection_name@) {
                    None => {
                        &&& final(self).collections == old(self).collections
                        &&& r.0@.len() == 0
                        &&& r.1 matches Err(e) && (e matches VectorDbError::CollectionNotFound {
                            name: n,
                        } && n@ == collection_name@)
                    },
                    Some(k) => {
                        let cm0 = cs[k].1@;
                        &&& final(self).collections.deep_view() == old(
                            self,
                        ).collections.deep_view().update(k, (cs[k].0@, batch_apply(cm0, dv)))
                        &&& r.0.deep_view() == batch_ops(cm0, dv)
                        &&& match batch_error(cm0, dv) {
                            None => r.1 is Ok,
                            Some(ea) => r.1 == Err::<(), VectorDbError>(
                                VectorDbError::DimensionMismatch { expected: ea.0, actual: ea.1 },
                            ),
                        }
                    },
                }
            }),
    {
        let owned = collection_name.to_owned();
        let idx = match reg_find(&self.collections, &owned) {
            Some(i) => i,
            None => {
                let ops: Vec<(usize, Vec<u32>)> = Vec::new();
                return (ops, Err(VectorDbError::CollectionNotFound { name: owned }));
            },
        };
        proof {
            lemma_reg_lookup_some(self.collections@, collection_name@);
        }
        let ghost csv = self.collections@;
        let ghost dv = points.deep_view();
        let mut entry = self.collections.remove(idx);
        let ghost cm0 = entry.1@;
        let ghost oname = entry.0;
        let mut ops: Vec<(usize, Vec<u32>)> = Vec::new();
        let n = points.len();
        assert(dv.len() == n);
        assert(batch_ops(cm0, dv) =~= ops.deep_view() + batch_ops(entry.1@, dv.skip(0))) by {
            assert(dv.skip(0) =~= dv);
            assert(ops.deep_view() =~= Seq::<(usize, Seq<u32>)>::empty());
            assert(Seq::<(usize, Seq<u32>)>::empty() + batch_ops(cm0, dv) =~= batch_ops(cm0, dv));
        }
        assert(dv.skip(0) =~= dv);
        for i in 0..n
            invariant
                n == dv.len(),
                dv == points.deep_view(),
                old(self).wf(),
                csv == old(self).collections@,
                idx < csv.len(),
                reg_lookup(csv, collection_name@) == Some(idx as int),
                self.collections@ == csv.remove(idx as int),
                self.persistence_adapter == old(self).persistence_adapter,
                cm0 == csv[idx as int].1@,
                entry.1.wf(),
                entry.0 == oname,
                oname == csv[idx as int].0,
                entry.1.index_config == csv[idx as int].1.index_config,
                batch_apply(cm0, dv) == batch_apply(entry.1@, dv.skip(i as int)),
                batch_error(cm0, dv) == batch_error(entry.1@, dv.skip(i as int)),
                batch_ops(cm0, dv) == ops.deep_view() + batch_ops(entry.1@, dv.skip(i as int)),
        {
            let ghost pre = dv.skip(i as int);
            let ghost cmcur = entry.1@;
            let ghost opsv = ops.deep_view();
            proof {
                assert(pre[0] == dv[i as int]);
                assert(pre.skip(1) =~= dv.skip(i + 1));
            }
            let p = points[i].clone();
            let vcopy = copy_u32s(&points[i].vector);
            let ghost pm = p@;
            assert(pm == dv[i as int]);
            assert(vcopy@ == pm.vector);
            match entry.1.upsert(p) {
                Ok(slot) => {
                    proof {
                        assert(entry.1@ =~~= upsert_model(cmcur, pm));
                        assert(slot == slot_of_model(cmcur, pm));
                    }
                    ops.push((slot, vcopy));
                    proof {
                        assert(ops.deep_view() =~= opsv.push((slot, pm.vector)));
                        assert(opsv + (seq![(slot_of_model(cmcur, pm), pm.vector)] + batch_ops(
                            upsert_model(cmcur, pm),
                            dv.skip(i + 1),
                        )) =~= ops.deep_view() + batch_ops(entry.1@, dv.skip(i + 1)));
                    }
                },
                Err(e) => {
                    proof {
                        assert(batch_error(cmcur, pre) == Some(
                            (
                                cmcur.index_config.embedding_type.spec_dimension(),
                                pm.vector.len() as usize,
                            ),
                        ));
                        assert(batch_apply(cmcur, pre) == cmcur);
                        assert(batch_ops(cmcur, pre) =~= Seq::<(usize, Seq<u32>)>::empty());
                        assert(ops.deep_view() + Seq::<(usize, Seq<u32>)>::empty() =~= ops.deep_view());
                    }
                    let ghost gentry = entry;
                    self.collections.insert(idx, entry);
                    proof {
                        assert(self.collections@ =~= csv.update(idx as int, gentry));
                        assert forall|t: int|
                            0 <= t < self.collections.deep_view().len()
                                implies #[trigger] self.collections.deep_view()[t] == old(
                            self,
                        ).collections.deep_view().update(
                            idx as int,
                            (csv[idx as int].0@, batch_apply(cm0, dv)),
                        )[t] by {
                            assert(self.collections@[t] == csv.update(idx as int, gentry)[t]);
                        }
                        assert(self.collections.deep_view() =~= old(
                            self,
                        ).collections.deep_view().update(
                            idx as int,
                            (csv[idx as int].0@, batch_apply(cm0, dv)),
                        ));
                    }
                    return (ops, Err(e));
                },
            }
        }
        proof {
            assert(dv.skip(n as int) =~= Seq::<PointModel>::empty());
            assert(batch_apply(entry.1@, dv.skip(n as int)) == entry.1@);
            assert(batch_error(entry.1@, dv.skip(n as int)) is None);
            assert(batch_ops(entry.1@, dv.skip(n as int)) =~= Seq::<(usize, Seq<u32>)>::empty());
            assert(ops.deep_view() + Seq::<(usize, Seq<u32>)>::empty() =~= ops.deep_view());
        }
        let ghost gentry = entry;
        self.collections.insert(idx, entry);
        proof {
            assert(self.collections@ =~= csv.update(idx as int, gentry));
            assert forall|t: int|
                0 <= t < self.collections.deep_view().len()
                    implies #[trigger] self.collections.deep_view()[t] == old(
                self,
            ).collections.deep_view().update(
                idx as int,
                (csv[idx as int].0@, batch_apply(cm0, dv)),
            )[t] by {
                assert(self.collections@[t] == csv.update(idx as int, gentry)[t]);
            }
            assert(self.collections.deep_view() =~= old(self).collections.deep_view().update(
                idx as int,
                (csv[idx as int].0@, batch_apply(cm0, dv)),
            ));
        }
        (ops, Ok(()))
    }

    /// Resolve candidate slots against the named collection, filter, and
    /// truncate, exactly as the collection itself would. Read-only.
    pub fn query_with_filter(
        &self,
        collection_name: &str,
        candidates: &Vec<usize>,
        limit: usize,
        filters: &Vec<MetadataFilter>,
    ) -> (r: Result<Vec<Point>, VectorDbError>)
        requires
            match reg_lookup(self.collections@, collection_name@) {
                Some(k) => forall|i: int|
                    0 <= i < candidates@.len() ==> (#[trigger] candidates@[i])
                        < self.collections@[k].1.points@.len(),
                None => true,
            },
        ensures
            match reg_lookup(self.collections@, collection_name@) {
                Some(k) => r matches Ok(v) && v.deep_view() == selected(
                    self.collections@[k].1.points.deep_view(),
                    candidates@,
                    filters.deep_view(),
                    limit as nat,
                ),
                None => r matches Err(e) && (e matches VectorDbError::CollectionNotFound {
                    name: n,
                } && n@ == collection_name@),
            },
    {
        let owned = collection_name.to_owned();
        match reg_find(&self.collections, &owned) {
            Some(i) => {
                proof {
                    lemma_reg_lookup_some(self.collections@, collection_name@);
                }
                Ok(self.collections[i].1.search_with_filter(candidates, limit, filters))
            },
            None => Err(VectorDbError::CollectionNotFound { name: owned }),
        }
    }

    /// `query_with_filter` with no filtering at all.
    pub fn query(&self, collection_name: &str, candidates: &Vec<usize>, limit: usize) -> (r: Result<
        Vec<Point>,
        VectorDbError,
    >)
        requires
            match reg_lookup(self.collections@, collection_name@) {
                Some(k) => forall|i: int|
                    0 <= i < candidates@.len() ==> (#[trigger] candidates@[i])
                        < self.collections@[k].1.points@.len(),
                None => true,
            },
        ensures
            match reg_lookup(self.collections@, collection_name@) {
                Some(k) => r matches Ok(v) && v.deep_view() == selected(
                    self.collections@[k].1.points.deep_view(),
                    candidates@,
                    Seq::empty(),
                    limit as nat,
                ),
                None => r matches Err(e) && (e matches VectorDbError::CollectionNotFound {
                    name: n,
                } && n@ == collection_name@),
            },
    {
        let filters: Vec<MetadataFilter> = Vec::new();
        assert(filters.deep_view() =~= Seq::<Seq<(Seq<char>, Seq<char>)>>::empty());
        self.query_with_filter(collection_name, candidates, limit, &filters)
    }
}

} // verus!
