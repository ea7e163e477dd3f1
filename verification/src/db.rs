//! The handle of the SQLite index and the decisions its upkeep takes.
use vstd::prelude::*;

verus! {

/// Where the SQLite index of a knowledge base is stored.
pub struct IndexDatabase {
    db_path: String,
}

impl IndexDatabase {
    /// The path of the database file.
    pub closed spec fn path_view(&self) -> Seq<char> {
        self.db_path@
    }

    pub fn new(db_path: &str) -> (r: Self)
        ensures
            r.path_view() == db_path@,
    {
        IndexDatabase { db_path: db_path.to_owned() }
    }

    pub fn db_path(&self) -> (r: &str)
        ensures
            r@ == self.path_view(),
    {
        self.db_path.as_str()
    }
}

/// Whether `documents` still lacks the `embedding_fingerprint` column, given
/// the names of its columns: then the schema upgrade adds it.
pub fn needs_fingerprint_column(columns: &Vec<String>) -> (r: bool)
    ensures
        r == !(exists|i: int|
            0 <= i < columns@.len() && (#[trigger] columns@[i])@ == "embedding_fingerprint"@),
{
    let name = String::from_str("embedding_fingerprint");
    for i in 0..columns.len()
        invariant
            name@ == "embedding_fingerprint"@,
            forall|k: int| 0 <= k < i ==> (#[trigger] columns@[k])@ != "embedding_fingerprint"@,
    {
        if columns[i] == name {
            return false;
        }
    }
    true
}

} // verus!
