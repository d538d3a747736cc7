use vstd::prelude::*;
use crate::state::CollectionState;

verus! {

/// The serializable snapshot of every collection's durable fields, in
/// registry order. The approximate index is never part of it; a load rebuilds
/// the index from the points.
pub struct PersistedState {
    pub collections: Vec<(String, CollectionState)>,
}

/// Configuration of the filesystem backend: the file that every save
/// overwrites whole and every load reads whole. The reads and writes
/// themselves happen outside this crate; this type only carries the path.
pub struct FileSystemPersistenceAdapter {
    path: String,
}

impl FileSystemPersistenceAdapter {
    pub closed spec fn spec_path(&self) -> Seq<char> {
        self.path@
    }

    pub fn new(path: String) -> (a: FileSystemPersistenceAdapter)
        ensures
            a.spec_path() == path@,
    {
        FileSystemPersistenceAdapter { path }
    }

    pub fn path(&self) -> (r: &String)
        ensures
            r@ == self.spec_path(),
    {
        &self.path
    }
}

/// The configured durability backend of a store.
pub enum Persistence {
    Filesystem(FileSystemPersistenceAdapter),
}

impl Persistence {
    pub open spec fn spec_path(&self) -> Seq<char> {
        match self {
            Persistence::Filesystem(a) => a.spec_path(),
        }
    }

    pub fn filesystem(path: String) -> (p: Persistence)
        ensures
            p.spec_path() == path@,
    {
        Persistence::Filesystem(FileSystemPersistenceAdapter::new(path))
    }

    pub fn path(&self) -> (r: &String)
        ensures
            r@ == self.spec_path(),
    {
        match self {
            Persistence::Filesystem(a) => a.path(),
        }
    }
}

} // verus!
