use vstd::prelude::*;
use crate::embedding::EmbeddingType;

verus! {

/// How much work the approximate index spends while it is built: each tier
/// maps to a fixed construction-effort value.
#[derive(Debug, Clone, Copy, PartialEq, Eq, Structural)]
pub enum IndexBuildQuality {
    Quick,
    Standard,
    Robust,
}

impl IndexBuildQuality {
    pub open spec fn spec_value(self) -> usize {
        match self {
            IndexBuildQuality::Quick => 100,
            IndexBuildQuality::Standard => 200,
            IndexBuildQuality::Robust => 400,
        }
    }

    pub fn value(self) -> (v: usize)
        ensures
            v == self.spec_value(),
    {
        match self {
            IndexBuildQuality::Quick => 100,
            IndexBuildQuality::Standard => 200,
            IndexBuildQuality::Robust => 400,
        }
    }
}

/// The immutable configuration a collection is created from: its embedding
/// descriptor and the index construction-effort tier.
#[derive(Debug, Clone, Copy, PartialEq, Eq, Structural)]
pub struct IndexConfig {
    pub build_quality: IndexBuildQuality,
    pub embedding_type: EmbeddingType,
}

impl IndexConfig {
    pub fn new(build_quality: IndexBuildQuality, embedding_type: EmbeddingType) -> (c: IndexConfig)
        ensures
            c.build_quality == build_quality,
            c.embedding_type == embedding_type,
    {
        IndexConfig { build_quality, embedding_type }
    }

    pub fn quick(embedding_type: EmbeddingType) -> (c: IndexConfig)
        ensures
            c.build_quality == IndexBuildQuality::Quick,
            c.embedding_type == embedding_type,
    {
        IndexConfig { build_quality: IndexBuildQuality::Quick, embedding_type }
    }

    pub fn standard(embedding_type: EmbeddingType) -> (c: IndexConfig)
        ensures
            c.build_quality == IndexBuildQuality::Standard,
            c.embedding_type == embedding_type,
    {
        IndexConfig { build_quality: IndexBuildQuality::Standard, embedding_type }
    }

    pub fn robust(embedding_type: EmbeddingType) -> (c: IndexConfig)
        ensures
            c.build_quality == IndexBuildQuality::Robust,
            c.embedding_type == embedding_type,
    {
        IndexConfig { build_quality: IndexBuildQuality::Robust, embedding_type }
    }

    pub fn embedding_dimension(&self) -> (d: usize)
        ensures
            d == self.embedding_type.spec_dimension(),
    {
        self.embedding_type.dimension()
    }
}

} // verus!
