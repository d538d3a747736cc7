use vstd::prelude::*;
use crate::embedding::{Point, PointModel};

verus! {

/// How much work the approximate index spends per query: each tier maps to a
/// fixed search-effort value.
#[derive(Debug, Clone, Copy, PartialEq, Eq, Structural)]
pub enum EfSearch {
    Fast,
    Balanced,
    Accurate,
}

impl EfSearch {
    pub open spec fn spec_value(self) -> usize {
        match self {
            EfSearch::Fast => 50,
            EfSearch::Balanced => 200,
            EfSearch::Accurate => 500,
        }
    }

    pub fn value(self) -> (v: usize)
        ensures
            v == self.spec_value(),
    {
        match self {
            EfSearch::Fast => 50,
            EfSearch::Balanced => 200,
            EfSearch::Accurate => 500,
        }
    }
}

/// One filter element: a conjunction of required attribute key/value pairs.
/// A list of elements is read disjunctively (a candidate passes if it meets
/// every pair of at least one element).
pub type MetadataFilter = Vec<(String, String)>;

/// First-match lookup in a key/value entry list.
pub open spec fn kv_lookup(entries: Seq<(Seq<char>, Seq<char>)>, key: Seq<char>) -> Option<
    Seq<char>,
>
    decreases entries.len(),
{
    if entries.len() == 0 {
        None
    } else if entries[0].0 == key {
        Some(entries[0].1)
    } else {
        kv_lookup(entries.skip(1), key)
    }
}

/// Whether a point's attributes bind `key` to `val`; a point without
/// attributes binds nothing.
pub open spec fn has_attribute(
    md: Option<Seq<(Seq<char>, Seq<char>)>>,
    key: Seq<char>,
    val: Seq<char>,
) -> bool {
    match md {
        Some(entries) => kv_lookup(entries, key) == Some(val),
        None => false,
    }
}

/// Whether a point meets every key/value pair of one filter element.
pub open spec fn passes_filter(p: PointModel, f: Seq<(Seq<char>, Seq<char>)>) -> bool {
    forall|i: int| 0 <= i < f.len() ==> has_attribute(p.metadata, f[i].0, f[i].1)
}

/// Whether a point meets at least one filter element.
pub open spec fn passes_any(p: PointModel, filters: Seq<Seq<(Seq<char>, Seq<char>)>>) -> bool {
    exists|j: int| 0 <= j < filters.len() && passes_filter(p, filters[j])
}

/// Whether a point survives filtering: an empty filter list passes
/// everything, a non-empty one is a disjunction of conjunctions.
pub open spec fn accepted(p: PointModel, filters: Seq<Seq<(Seq<char>, Seq<char>)>>) -> bool {
    filters.len() == 0 || passes_any(p, filters)
}

/// First-match lookup of `key` among a point's attribute entries.
pub fn metadata_get<'a>(entries: &'a Vec<(String, String)>, key: &String) -> (r: Option<&'a String>)
    ensures
        match r {
            Some(v) => kv_lookup(entries.deep_view(), key@) == Some(v@),
            None => kv_lookup(entries.deep_view(), key@) is None,
        },
{
    let n = entries.len();
    assert(entries.deep_view().skip(0) =~= entries.deep_view());
    for i in 0..n
        invariant
            n == entries.len(),
            kv_lookup(entries.deep_view().skip(i as int), key@) == kv_lookup(
                entries.deep_view(),
                key@,
            ),
    {
        let ghost pre = entries.deep_view().skip(i as int);
        assert(pre[0] == entries.deep_view()[i as int]);
        if entries[i].0.eq(key) {
            assert(pre[0].0 == key@);
            return Some(&entries[i].1);
        }
        assert(pre[0].0 != key@);
        assert(pre.skip(1) =~= entries.deep_view().skip(i + 1));
    }
    assert(entries.deep_view().skip(n as int) =~= Seq::<(Seq<char>, Seq<char>)>::empty());
    None
}

/// Whether one filter element's every pair is met by the point.
fn filter_element_passes(p: &Point, f: &MetadataFilter) -> (r: bool)
    ensures
        r == passes_filter(p@, f.deep_view()),
{
    let n = f.len();
    for i in 0..n
        invariant
            n == f.len(),
            forall|k: int|
                0 <= k < i ==> has_attribute(p@.metadata, f.deep_view()[k].0, f.deep_view()[k].1),
    {
        let hit = match &p.metadata {
            Some(entries) => {
                match metadata_get(entries, &f[i].0) {
                    Some(v) => v.eq(&f[i].1),
                    None => false,
                }
            },
            None => false,
        };
        if !hit {
            assert(!has_attribute(p@.metadata, f.deep_view()[i as int].0, f.deep_view()[i as int].1));
            return false;
        }
        assert(has_attribute(p@.metadata, f.deep_view()[i as int].0, f.deep_view()[i as int].1));
    }
    true
}

/// Whether the point survives the whole filter list: everything passes an
/// empty list, otherwise at least one element must be met in full.
pub fn point_passes(p: &Point, filters: &Vec<MetadataFilter>) -> (r: bool)
    ensures
        r == accepted(p@, filters.deep_view()),
{
    if filters.len() == 0 {
        return true;
    }
    let n = filters.len();
    for j in 0..n
        invariant
            n == filters.len(),
            forall|k: int| 0 <= k < j ==> !passes_filter(p@, filters.deep_view()[k]),
    {
        if filter_element_passes(p, &filters[j]) {
            assert(passes_filter(p@, filters.deep_view()[j as int]));
            return true;
        }
    }
    false
}

} // verus!
