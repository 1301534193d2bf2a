//! The engine's fixed layout and query-size decisions: where the index and
//! the fingerprint store live under the search root, and how many
//! candidates the lexical stage fetches when reranking follows.

use vstd::prelude::*;
use vstd::string::StringSliceAdditionalSpecFns;

use crate::config::Config;

verus! {

/// The index directory's name under the search root.
pub open spec fn index_dir_of(root: Seq<u8>) -> Seq<u8> {
    root + "/.probe".spec_bytes()
}

/// The fingerprint store's path under the search root.
pub open spec fn metadata_path_of(root: Seq<u8>) -> Seq<u8> {
    root + "/.probe/metadata.bin".spec_bytes()
}

/// Ties a search root to its index directory, its fingerprint store and
/// the configuration in force.
pub struct SearchEngine {
    root_dir: String,
    index_dir: Vec<u8>,
    metadata_path: Vec<u8>,
    config: Config,
}

impl SearchEngine {
    pub closed spec fn spec_root(self) -> Seq<char> {
        self.root_dir@
    }

    pub closed spec fn spec_index_dir(self) -> Seq<u8> {
        self.index_dir@
    }

    pub closed spec fn spec_metadata_path(self) -> Seq<u8> {
        self.metadata_path@
    }

    pub closed spec fn spec_config(self) -> Config {
        self.config
    }

    /// Sets the engine up for `root_dir`: the index lives in `.probe`
    /// under the root, the fingerprint store in `metadata.bin` inside it.
    pub fn new(root_dir: &str, config: Config) -> (r: SearchEngine)
        ensures
            r.spec_root() == root_dir@,
            r.spec_index_dir() == index_dir_of(root_dir.spec_bytes()),
            r.spec_metadata_path() == metadata_path_of(root_dir.spec_bytes()),
            r.spec_config() == config,
    {
        let root_bytes = root_dir.as_bytes();
        let probe_tail = "/.probe".as_bytes();
        let mut index_dir = crate::text::copy_range(root_bytes, 0, root_bytes.len());
        crate::text::append_range(&mut index_dir, probe_tail, 0, probe_tail.len());
        let mut metadata_path = crate::text::copy_range(root_bytes, 0, root_bytes.len());
        let tail = "/.probe/metadata.bin".as_bytes();
        crate::text::append_range(&mut metadata_path, tail, 0, tail.len());
        proof {
            assert(root_bytes@.subrange(0, root_bytes@.len() as int) =~= root_dir.spec_bytes());
            assert(probe_tail@.subrange(0, probe_tail@.len() as int) =~= "/.probe".spec_bytes());
            assert(tail@.subrange(0, tail@.len() as int) =~= "/.probe/metadata.bin".spec_bytes());
        }
        SearchEngine { root_dir: root_dir.to_owned(), index_dir, metadata_path, config }
    }

    /// The search root.
    pub fn root(&self) -> (r: &str)
        ensures
            r@ == self.spec_root(),
    {
        self.root_dir.as_str()
    }

    /// The index directory's path.
    pub fn index_dir(&self) -> (r: &Vec<u8>)
        ensures
            r@ == self.spec_index_dir(),
    {
        &self.index_dir
    }

    /// The fingerprint store's path.
    pub fn metadata_path(&self) -> (r: &Vec<u8>)
        ensures
            r@ == self.spec_metadata_path(),
    {
        &self.metadata_path
    }

    /// The configuration in force.
    pub fn config(&self) -> (r: &Config)
        ensures
            *r == self.spec_config(),
    {
        &self.config
    }
}

/// How many candidates the lexical stage retrieves: with reranking on, at
/// least the configured minimum and at least twice the number of final
/// results; with reranking off, exactly the number of final results.
pub fn fetch_limit(rerank_enabled: bool, min_candidates: usize, final_limit: usize) -> (r: usize)
    requires
        final_limit <= usize::MAX / 2,
    ensures
        r == if rerank_enabled {
            if min_candidates > final_limit * 2 {
                min_candidates as int
            } else {
                final_limit * 2
            }
        } else {
            final_limit as int
        },
{
    if rerank_enabled {
        let doubled = final_limit * 2;
        if min_candidates > doubled {
            min_candidates
        } else {
            doubled
        }
    } else {
        final_limit
    }
}

} // verus!
