use vstd::prelude::*;

verus! {

/// The expected dimensionality of every vector in a collection: two named
/// presets for common text-embedding models, or an explicit dimension.
#[derive(Debug, Clone, Copy, PartialEq, Eq, Structural)]
pub enum EmbeddingType {
    TextEmbedding3Small,
    TextEmbedding3Large,
    Custom(usize),
}

impl EmbeddingType {
    /// The vector length this descriptor demands of every point.
    pub open spec fn spec_dimension(&self) -> usize {
        match self {
            EmbeddingType::TextEmbedding3Small => 1536,
            EmbeddingType::TextEmbedding3Large => 3072,
            EmbeddingType::Custom(d) => *d,
        }
    }

    pub fn dimension(&self) -> (d: usize)
        ensures
            d == self.spec_dimension(),
    {
        match self {
            EmbeddingType::TextEmbedding3Small => 1536,
            EmbeddingType::TextEmbedding3Large => 3072,
            EmbeddingType::Custom(d) => *d,
        }
    }
}

/// Free-form attributes attached to a point: key/value pairs, looked up by
/// first match.
pub type Metadata = Vec<(String, String)>;

/// The mathematical value of a point: its identifier, the raw 32-bit
/// components of its vector, and its attributes.
#[verifier::ext_equal]
pub struct PointModel {
    pub id: u128,
    pub vector: Seq<u32>,
    pub metadata: Option<Seq<(Seq<char>, Seq<char>)>>,
}

/// The atomic stored unit: an identifier, a vector (carried as raw 32-bit
/// components, which the store never interprets; distance computation is the
/// index collaborator's business), and an attribute map.
#[derive(Debug, PartialEq, Eq)]
pub struct Point {
    pub id: u128,
    pub vector: Vec<u32>,
    pub metadata: Option<Metadata>,
}

impl View for Point {
    type V = PointModel;

    open spec fn view(&self) -> PointModel {
        PointModel {
            id: self.id,
            vector: self.vector.deep_view(),
            metadata: match self.metadata {
                Some(m) => Some(m.deep_view()),
                None => None,
            },
        }
    }
}

impl DeepView for Point {
    type V = PointModel;

    open spec fn deep_view(&self) -> PointModel {
        self.view()
    }
}

/// Relies on uuid::Uuid::new_v4 for a fresh random identifier, carried as a
/// plain 128-bit value through uuid::Uuid::as_u128.
#[verifier::external_body]
fn fresh_id() -> (id: u128) {
    uuid::Uuid::new_v4().as_u128()
}

impl Point {
    /// A new point under a freshly drawn random identifier.
    pub fn new(vector: Vec<u32>, metadata: Option<Metadata>) -> (p: Point)
        ensures
            p@.vector == vector.deep_view(),
            p@.metadata == (match metadata {
                Some(m) => Some(m.deep_view()),
                None => None::<Seq<(Seq<char>, Seq<char>)>>,
            }),
    {
        Point { id: fresh_id(), vector, metadata }
    }

    /// A new point under a caller-supplied identifier.
    pub fn with_id(id: u128, vector: Vec<u32>, metadata: Option<Metadata>) -> (p: Point)
        ensures
            p@.id == id,
            p@.vector == vector.deep_view(),
            p@.metadata == (match metadata {
                Some(m) => Some(m.deep_view()),
                None => None::<Seq<(Seq<char>, Seq<char>)>>,
            }),
    {
        Point { id, vector, metadata }
    }
}

} // verus!
