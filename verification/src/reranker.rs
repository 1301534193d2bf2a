//! The reranking stage's own logic: its configuration surface, the closed
//! set of built-in model names, and the selection that turns the
//! collaborator's per-document scores into the final ordering. Model
//! inference itself is an external collaborator; only its scores enter
//! here, as integers in any order-preserving unit.

use vstd::prelude::*;
use vstd::string::StringSliceAdditionalSpecFns;
use vstd::set_lib::set_int_range;
use vstd::set_lib::lemma_int_range;
use vstd::set_lib::lemma_len_subset;

use crate::text::lower_bytes;
use crate::text::lower_vec;
use crate::text::bytes_eq;

verus! {

/// A user-supplied reranking model: where to fetch it and which files it
/// needs.
#[derive(Clone, Debug)]
pub struct CustomRerankerModel {
    pub description: String,
    pub model_code: String,
    pub model_file: String,
    pub additional_files: Vec<String>,
}

/// The user's configuration file: named custom models, and which of them
/// to use by default.
#[derive(Clone, Debug)]
pub struct ProbeConfig {
    pub custom_rerankers: Vec<(String, CustomRerankerModel)>,
    pub default_reranker: Option<String>,
}

/// The first custom model whose name has bytes `p`, if any.
pub open spec fn spec_model_lookup(
    s: Seq<(String, CustomRerankerModel)>,
    p: Seq<u8>,
    i: int,
) -> Option<int>
    decreases s.len() - i,
{
    if i < 0 || i >= s.len() {
        None
    } else if vstd::utf8::encode_utf8(s[i].0@) == p {
        Some(i)
    } else {
        spec_model_lookup(s, p, i + 1)
    }
}

impl Default for ProbeConfig {
    /// No custom models, no default model.
    fn default() -> (r: ProbeConfig)
        ensures
            r.custom_rerankers@.len() == 0,
            r.default_reranker is None,
    {
        ProbeConfig { custom_rerankers: Vec::new(), default_reranker: None }
    }
}

impl ProbeConfig {
    /// Gets a custom reranker model by name.
    pub fn get_custom_model(&self, model_name: &str) -> (r: Option<&CustomRerankerModel>)
        ensures
            match r {
                Some(m) => spec_model_lookup(
                    self.custom_rerankers@,
                    model_name.spec_bytes(),
                    0,
                ) matches Some(i) && *m == self.custom_rerankers@[i].1,
                None => spec_model_lookup(self.custom_rerankers@, model_name.spec_bytes(), 0) is None,
            },
    {
        let n = self.custom_rerankers.len();
        let mut i: usize = 0;
        while i < n
            invariant
                i <= n,
                n == self.custom_rerankers@.len(),
                spec_model_lookup(self.custom_rerankers@, model_name.spec_bytes(), 0)
                    == spec_model_lookup(
                    self.custom_rerankers@,
                    model_name.spec_bytes(),
                    i as int,
                ),
            decreases n - i,
        {
            if bytes_eq(self.custom_rerankers[i].0.as_str().as_bytes(), model_name.as_bytes()) {
                return Some(&self.custom_rerankers[i].1);
            }
            i = i + 1;
        }
        None
    }
}

/// The built-in reranking models.
#[derive(Clone, Copy, Debug, PartialEq, Eq, Structural)]
pub enum RerankModelId {
    BgeRerankerBase,
    BgeRerankerV2M3,
    JinaRerankerV1TurboEn,
    JinaRerankerV2BaseMultilingual,
}

/// A model name the core does not know.
#[derive(Clone, Copy, Debug, PartialEq, Eq, Structural)]
pub enum RerankError {
    UnknownModel,
}

/// Configuration of the reranking stage.
#[derive(Clone, Debug)]
pub struct RerankerConfig {
    pub enabled: bool,
    pub model: RerankModelId,
    pub min_candidates: usize,
    pub show_download_progress: bool,
    pub custom_model: Option<String>,
    pub probe_config: Option<ProbeConfig>,
}

impl Default for RerankerConfig {
    /// Reranking on, with the base model and ten candidates.
    fn default() -> (r: RerankerConfig)
        ensures
            r.enabled,
            r.model == RerankModelId::BgeRerankerBase,
            r.min_candidates == 10,
            !r.show_download_progress,
            r.custom_model is None,
            r.probe_config is None,
    {
        RerankerConfig {
            enabled: true,
            model: RerankModelId::BgeRerankerBase,
            min_candidates: 10,
            show_download_progress: false,
            custom_model: None,
            probe_config: None,
        }
    }
}

/// A document handed to the reranker: its snippet text and the hit's
/// metadata as key-value pairs.
#[derive(Clone, Debug)]
pub struct RerankDocument {
    pub content: String,
    pub metadata: Vec<(String, String)>,
}

/// The built-in model a name selects, lowercased: short names and full
/// repository names are accepted.
pub open spec fn spec_model_of(s: Seq<u8>) -> Option<RerankModelId> {
    if s == "bge-reranker-base".spec_bytes() || s == "baai/bge-reranker-base".spec_bytes() {
        Some(RerankModelId::BgeRerankerBase)
    } else if s == "bge-reranker-v2-m3".spec_bytes() || s
        == "baai/bge-reranker-v2-m3".spec_bytes() {
        Some(RerankModelId::BgeRerankerV2M3)
    } else if s == "jina-reranker-v1-turbo-en".spec_bytes() || s
        == "jinaai/jina-reranker-v1-turbo-en".spec_bytes() {
        Some(RerankModelId::JinaRerankerV1TurboEn)
    } else if s == "jina-reranker-v2-base-multilingual".spec_bytes() || s
        == "jinaai/jina-reranker-v2-base-multilingual".spec_bytes() {
        Some(RerankModelId::JinaRerankerV2BaseMultilingual)
    } else {
        None
    }
}

/// Parses a reranker model name, ignoring ASCII case.
pub fn parse_reranker_model(model_str: &str) -> (r: Result<RerankModelId, RerankError>)
    ensures
        r == (match spec_model_of(lower_bytes(model_str.spec_bytes())) {
            Some(m) => Ok::<RerankModelId, RerankError>(m),
            None => Err::<RerankModelId, RerankError>(RerankError::UnknownModel),
        }),
{
    let low = lower_vec(model_str.as_bytes());
    let s = low.as_slice();
    if bytes_eq(s, "bge-reranker-base".as_bytes()) || bytes_eq(
        s,
        "baai/bge-reranker-base".as_bytes(),
    ) {
        Ok(RerankModelId::BgeRerankerBase)
    } else if bytes_eq(s, "bge-reranker-v2-m3".as_bytes()) || bytes_eq(
        s,
        "baai/bge-reranker-v2-m3".as_bytes(),
    ) {
        Ok(RerankModelId::BgeRerankerV2M3)
    } else if bytes_eq(s, "jina-reranker-v1-turbo-en".as_bytes()) || bytes_eq(
        s,
        "jinaai/jina-reranker-v1-turbo-en".as_bytes(),
    ) {
        Ok(RerankModelId::JinaRerankerV1TurboEn)
    } else if bytes_eq(s, "jina-reranker-v2-base-multilingual".as_bytes()) || bytes_eq(
        s,
        "jinaai/jina-reranker-v2-base-multilingual".as_bytes(),
    ) {
        Ok(RerankModelId::JinaRerankerV2BaseMultilingual)
    } else {
        Err(RerankError::UnknownModel)
    }
}

/// Lists the built-in reranking models: each name with its description.
pub fn available_models() -> (r: Vec<(&'static str, &'static str)>)
    ensures
        r@.len() == 4,
        r@[0].0@ == "bge-reranker-base"@,
        r@[1].0@ == "bge-reranker-v2-m3"@,
        r@[2].0@ == "jina-reranker-v1-turbo-en"@,
        r@[3].0@ == "jina-reranker-v2-base-multilingual"@,
{
    let mut r: Vec<(&'static str, &'static str)> = Vec::new();
    r.push(("bge-reranker-base", "BAAI/bge-reranker-base (default)"));
    r.push(("bge-reranker-v2-m3", "BAAI/bge-reranker-v2-m3"));
    r.push(("jina-reranker-v1-turbo-en", "jinaai/jina-reranker-v1-turbo-en"));
    r.push(("jina-reranker-v2-base-multilingual", "jinaai/jina-reranker-v2-base-multilingual"));
    r
}

fn contains_idx(r: &Vec<usize>, j: usize) -> (b: bool)
    ensures
        b == r@.contains(j),
{
    let n = r.len();
    let mut i: usize = 0;
    while i < n
        invariant
            i <= n,
            n == r@.len(),
            forall|k: int| 0 <= k < i ==> r@[k] != j,
        decreases n - i,
    {
        if r[i] == j {
            return true;
        }
        i = i + 1;
    }
    proof {
        assert(forall|k: int| 0 <= k < r@.len() ==> r@[k] != j);
    }
    false
}

proof fn lemma_unchosen_exists(r: Seq<usize>, n: int)
    requires
        0 <= n <= usize::MAX,
        forall|k: int| 0 <= k < r.len() ==> (#[trigger] r[k]) < n,
        forall|k: int, m: int| 0 <= k < m < r.len() ==> r[k] != r[m],
        r.len() < n,
    ensures
        exists|j: usize| j < n && !r.contains(j),
{
    let ri = r.map_values(|x: usize| x as int);
    assert(ri.no_duplicates()) by {
        assert forall|k: int, m: int| 0 <= k < ri.len() && 0 <= m < ri.len() && k != m implies ri[k]
            != ri[m] by {
            if k < m {
                assert(r[k] != r[m]);
            } else {
                assert(r[m] != r[k]);
            }
        }
    }
    ri.unique_seq_to_set();
    lemma_int_range(0, n);
    if !(exists|j: usize| j < n && !r.contains(j)) {
        assert forall|j: int| set_int_range(0, n).contains(j) implies ri.to_set().contains(j) by {
            let ju = j as usize;
            assert(ju < n && !(!r.contains(ju)));
            let w = choose|w: int| 0 <= w < r.len() && r[w] == ju;
            assert(ri[w] == j);
            assert(ri.contains(j));
        }
        assert(set_int_range(0, n).subset_of(ri.to_set()));
        lemma_len_subset(set_int_range(0, n), ri.to_set());
        assert(ri.to_set().len() <= ri.len());
        assert(false);
    }
}

/// Picks the indices of the `limit` highest-scoring documents, in
/// descending score order: the reranker's scores replace the lexical ones,
/// and only the order they induce is used. Every index left out scores no
/// higher than any index chosen.
pub fn rerank_selection(scores: &Vec<u64>, limit: usize) -> (r: Vec<usize>)
    ensures
        r@.len() == if limit > scores@.len() {
            scores@.len() as int
        } else {
            limit as int
        },
        forall|k: int| 0 <= k < r@.len() ==> (#[trigger] r@[k]) < scores@.len(),
        forall|k: int, m: int| 0 <= k < m < r@.len() ==> r@[k] != r@[m],
        forall|k: int, m: int|
            0 <= k < m < r@.len() ==> scores@[r@[k] as int] >= scores@[r@[m] as int],
        forall|k: int, j: int|
            0 <= k < r@.len() && 0 <= j < scores@.len() && !r@.contains(j as usize) ==> (
            #[trigger] scores@[j]) <= scores@[#[trigger] r@[k] as int],
{
    let n = scores.len();
    let want = if limit > n {
        n
    } else {
        limit
    };
    let mut r: Vec<usize> = Vec::new();
    while r.len() < want
        invariant
            r@.len() <= want <= n,
            n == scores@.len(),
            forall|k: int| 0 <= k < r@.len() ==> (#[trigger] r@[k]) < n,
            forall|k: int, m: int| 0 <= k < m < r@.len() ==> r@[k] != r@[m],
            forall|k: int, m: int|
                0 <= k < m < r@.len() ==> scores@[r@[k] as int] >= scores@[r@[m] as int],
            forall|k: int, j: int|
                0 <= k < r@.len() && 0 <= j < n && !r@.contains(j as usize) ==> (
                #[trigger] scores@[j]) <= scores@[#[trigger] r@[k] as int],
        decreases want - r@.len(),
    {
        let mut best: Option<usize> = None;
        let mut j: usize = 0;
        while j < n
            invariant
                j <= n,
                n == scores@.len(),
                match best {
                    Some(b) => b < j && !r@.contains(b) && (forall|t: int|
                        0 <= t < j && !r@.contains(t as usize) ==> (#[trigger] scores@[t])
                            <= scores@[b as int]),
                    None => forall|t: int| 0 <= t < j ==> r@.contains(#[trigger] (t as usize)),
                },
            decreases n - j,
        {
            if !contains_idx(&r, j) {
                best = match best {
                    None => Some(j),
                    Some(b) => {
                        if scores[j] > scores[b] {
                            Some(j)
                        } else {
                            Some(b)
                        }
                    },
                };
            }
            j = j + 1;
        }
        match best {
            Some(x) => {
                let ghost r0 = r@;
                r.push(x);
                proof {
                    assert forall|jj: int|
                        0 <= jj < n && !r@.contains(jj as usize) implies (#[trigger] scores@[jj])
                        <= scores@[x as int] by {
                        assert(!r0.contains(jj as usize)) by {
                            if r0.contains(jj as usize) {
                                let w = choose|w: int| 0 <= w < r0.len() && r0[w] == jj as usize;
                                assert(r@[w] == jj as usize);
                                assert(r@.contains(jj as usize));
                            }
                        }
                    }
                    assert forall|k: int, jj: int|
                        0 <= k < r@.len() && 0 <= jj < n && !r@.contains(jj as usize) implies (
                    #[trigger] scores@[jj]) <= scores@[#[trigger] r@[k] as int] by {
                        assert(!r0.contains(jj as usize)) by {
                            if r0.contains(jj as usize) {
                                let w = choose|w: int| 0 <= w < r0.len() && r0[w] == jj as usize;
                                assert(r@[w] == jj as usize);
                            }
                        }
                        if k < r0.len() {
                            assert(r@[k] == r0[k]);
                        } else {
                            assert(r@[k] == x);
                        }
                    }
                    assert forall|k: int, m: int|
                        0 <= k < m < r@.len() implies scores@[r@[k] as int] >= scores@[r@[m] as int] by {
                        if m < r0.len() {
                            assert(r@[k] == r0[k] && r@[m] == r0[m]);
                        } else {
                            assert(r@[m] == x);
                            assert(r@[k] == r0[k]);
                            assert(!r0.contains(x));
                        }
                    }
                    assert forall|k: int, m: int| 0 <= k < m < r@.len() implies r@[k] != r@[m] by {
                        if m < r0.len() {
                            assert(r@[k] == r0[k] && r@[m] == r0[m]);
                        } else {
                            assert(r@[m] == x && r@[k] == r0[k]);
                            assert(!r0.contains(x));
                            if r0[k] == x {
                                assert(r0.contains(x));
                            }
                        }
                    }
                }
            },
            None => {
                proof {
                    lemma_unchosen_exists(r@, n as int);
                    let jw = choose|jw: usize| jw < n && !r@.contains(jw);
                    assert(r@.contains((jw as int) as usize));
                    assert(false);
                }
                return r;
            },
        }
    }
    r
}

} // verus!
