//! The fingerprint store: one size-and-mtime record per indexed file. The
//! diff of the store against the current filesystem state decides which
//! files need reindexing; persistence of the store is the caller's concern.

use vstd::prelude::*;

verus! {

/// The fingerprint of one indexed file.
#[derive(Clone, Debug)]
pub struct FileInfo {
    pub path: String,
    pub size: u64,
    pub modified: u64,
}

/// The current filesystem state of one candidate file, as the caller
/// observed it; `meta` is `None` when the file is missing or unreadable.
#[derive(Clone, Debug)]
pub struct FileStat {
    pub path: String,
    pub size: u64,
    pub modified: u64,
    pub exists: bool,
}

/// The fingerprint store: a keyed mapping from path to fingerprint, held as
/// a list with unique paths.
pub struct IndexMetadata {
    files: Vec<FileInfo>,
}

/// The first record in `s` whose path is `p`.
pub open spec fn spec_lookup(s: Seq<FileInfo>, p: Seq<char>, i: int) -> Option<FileInfo>
    decreases s.len() - i,
{
    if i < 0 || i >= s.len() {
        None
    } else if s[i].path@ == p {
        Some(s[i])
    } else {
        spec_lookup(s, p, i + 1)
    }
}

impl IndexMetadata {
    /// Paths are unique, so the store is a mapping.
    pub closed spec fn wf(self) -> bool {
        forall|i: int, j: int|
            0 <= i < j < self.files@.len() ==> (#[trigger] self.files@[i]).path@ != (
            #[trigger] self.files@[j]).path@
    }

    /// The fingerprint stored for path `p`, if any.
    pub closed spec fn lookup(self, p: Seq<char>) -> Option<FileInfo> {
        spec_lookup(self.files@, p, 0)
    }

    /// How many files the store tracks.
    pub closed spec fn spec_file_count(self) -> int {
        self.files@.len() as int
    }

    /// Whether `fs` differs from its stored fingerprint: true when the path
    /// is not in the store, when the file is gone, or when size or
    /// modification time changed.
    pub open spec fn spec_changed(self, fs: FileStat) -> bool {
        match self.lookup(fs.path@) {
            None => true,
            Some(fi) => !fs.exists || fi.size != fs.size || fi.modified != fs.modified,
        }
    }

    /// An empty store.
    pub fn new() -> (r: IndexMetadata)
        ensures
            r.wf(),
            r.spec_file_count() == 0,
            forall|p: Seq<char>| r.lookup(p) is None,
    {
        IndexMetadata { files: Vec::new() }
    }

    /// Refreshes or inserts the fingerprint of `path` from the given
    /// filesystem metadata.
    pub fn update_file(&mut self, path: &String, size: u64, modified: u64)
        requires
            old(self).wf(),
        ensures
            final(self).wf(),
            final(self).lookup(path@) matches Some(fi) && fi.path@ == path@ && fi.size == size
                && fi.modified == modified,
            forall|p: Seq<char>| p != path@ ==> final(self).lookup(p) == old(self).lookup(p),
            final(self).spec_file_count() == old(self).spec_file_count() + if old(self).lookup(
                path@,
            ) is Some {
                0int
            } else {
                1int
            },
    {
        let n = self.files.len();
        let mut i: usize = 0;
        while i < n
            invariant
                i <= n,
                n == self.files@.len(),
                self == old(self),
                old(self).wf(),
                spec_lookup(self.files@, path@, 0) == spec_lookup(self.files@, path@, i as int),
                forall|k: int| 0 <= k < i ==> (#[trigger] self.files@[k]).path@ != path@,
            decreases n - i,
        {
            if self.files[i].path == *path {
                self.files[i] = FileInfo { path: path.clone(), size, modified };
                proof {
                    let fs = self.files@;
                    let ofs = old(self).files@;
                    assert(fs[i as int].path@ == ofs[i as int].path@);
                    assert forall|a: int, b: int| 0 <= a < b < fs.len() implies (
                    #[trigger] fs[a]).path@ != (#[trigger] fs[b]).path@ by {
                        assert((old(self).files@[a]).path@ != (old(self).files@[b]).path@);
                        if a != i {
                            assert(fs[a] == ofs[a]);
                        }
                        if b != i {
                            assert(fs[b] == ofs[b]);
                        }
                    }
                    assert forall|p: Seq<char>| p != path@ implies spec_lookup(fs, p, 0)
                        == spec_lookup(ofs, p, 0) by {
                        lemma_lookup_update_other(ofs, fs, p, 0, i as int);
                    }
                    lemma_lookup_prefix_miss(fs, path@, 0, i as int);
                    lemma_lookup_prefix_miss(ofs, path@, 0, i as int);
                }
                return ;
            }
            i = i + 1;
        }
        let fi = FileInfo { path: path.clone(), size, modified };
        self.files.push(fi);
        proof {
            let fs = self.files@;
            let ofs = old(self).files@;
            assert(fs.drop_last() =~= ofs);
            lemma_lookup_push(ofs, fs.last(), path@, 0);
            assert(spec_lookup(ofs, path@, 0) is None) by {
                lemma_lookup_all_miss(ofs, path@, 0);
            }
            assert forall|p: Seq<char>| p != path@ implies spec_lookup(fs, p, 0) == spec_lookup(
                ofs,
                p,
                0,
            ) by {
                lemma_lookup_push(ofs, fs.last(), p, 0);
            }
        }
    }

    /// The stored fingerprints, in insertion order.
    pub fn entries(&self) -> (r: &Vec<FileInfo>)
        ensures
            r@.len() == self.spec_file_count(),
            forall|k: int|
                0 <= k < r@.len() ==> self.lookup((#[trigger] r@[k]).path@) is Some,
    {
        proof {
            assert forall|k: int| 0 <= k < self.files@.len() implies self.lookup(
                (#[trigger] self.files@[k]).path@,
            ) is Some by {
                lemma_lookup_some(self.files@, self.files@[k].path@, 0, k);
            }
        }
        &self.files
    }

    /// How many files the store tracks.
    pub fn file_count(&self) -> (r: usize)
        ensures
            r == self.spec_file_count(),
    {
        self.files.len()
    }

    /// The paths among `files` that need reindexing: those not in the store,
    /// missing from the filesystem, or whose size or modification time
    /// differs from the stored fingerprint. Order is kept.
    pub fn needs_reindex(&self, files: &Vec<FileStat>) -> (r: Vec<String>)
        ensures
            r@.len() == spec_diff(*self, files@).len(),
            forall|k: int|
                0 <= k < r@.len() ==> (#[trigger] r@[k])@ == spec_diff(*self, files@)[k].path@,
    {
        let n = files.len();
        let mut r: Vec<String> = Vec::new();
        let mut i: usize = 0;
        while i < n
            invariant
                i <= n,
                n == files@.len(),
                r@.len() == spec_diff(*self, files@.subrange(0, i as int)).len(),
                forall|k: int|
                    0 <= k < r@.len() ==> (#[trigger] r@[k])@ == spec_diff(
                        *self,
                        files@.subrange(0, i as int),
                    )[k].path@,
            decreases n - i,
        {
            let fs = &files[i];
            let changed = if !fs.exists {
                true
            } else {
                match self.find_entry(&fs.path) {
                    Some(idx) => {
                        let fi = &self.files[idx];
                        fi.size != fs.size || fi.modified != fs.modified
                    },
                    None => true,
                }
            };
            proof {
                assert(changed == self.spec_changed(files@[i as int]));
                assert(files@.subrange(0, i + 1).drop_last() =~= files@.subrange(0, i as int));
                assert(files@.subrange(0, i + 1).last() == files@[i as int]);
            }
            if changed {
                r.push(fs.path.clone());
            }
            i = i + 1;
        }
        proof {
            assert(files@.subrange(0, n as int) =~= files@);
        }
        r
    }

    fn find_entry(&self, path: &String) -> (r: Option<usize>)
        ensures
            match r {
                Some(i) => i < self.files@.len() && self.lookup(path@) == Some(self.files@[i as int])
                    && self.files@[i as int].path@ == path@,
                None => self.lookup(path@) is None,
            },
    {
        let n = self.files.len();
        let mut i: usize = 0;
        while i < n
            invariant
                i <= n,
                n == self.files@.len(),
                spec_lookup(self.files@, path@, 0) == spec_lookup(self.files@, path@, i as int),
            decreases n - i,
        {
            if self.files[i].path == *path {
                return Some(i);
            }
            i = i + 1;
        }
        None
    }
}

/// The sublist of `files` that a diff against store `m` flags as changed.
pub open spec fn spec_diff(m: IndexMetadata, files: Seq<FileStat>) -> Seq<FileStat>
    decreases files.len(),
{
    if files.len() == 0 {
        Seq::empty()
    } else if m.spec_changed(files.last()) {
        spec_diff(m, files.drop_last()).push(files.last())
    } else {
        spec_diff(m, files.drop_last())
    }
}

proof fn lemma_lookup_some(s: Seq<FileInfo>, p: Seq<char>, j: int, w: int)
    requires
        0 <= j <= w < s.len(),
        s[w].path@ == p,
    ensures
        spec_lookup(s, p, j) is Some,
    decreases w - j,
{
    if j < w && s[j].path@ != p {
        lemma_lookup_some(s, p, j + 1, w);
    }
}

proof fn lemma_lookup_prefix_miss(s: Seq<FileInfo>, p: Seq<char>, j: int, i: int)
    requires
        0 <= j <= i < s.len(),
        forall|k: int| j <= k < i ==> (#[trigger] s[k]).path@ != p,
        s[i].path@ == p,
    ensures
        spec_lookup(s, p, j) == Some(s[i]),
    decreases i - j,
{
    if j < i {
        lemma_lookup_prefix_miss(s, p, j + 1, i);
    }
}

proof fn lemma_lookup_all_miss(s: Seq<FileInfo>, p: Seq<char>, j: int)
    requires
        forall|k: int| 0 <= k < s.len() ==> (#[trigger] s[k]).path@ != p,
        0 <= j,
    ensures
        spec_lookup(s, p, j) is None,
    decreases s.len() - j,
{
    if j < s.len() {
        lemma_lookup_all_miss(s, p, j + 1);
    }
}

proof fn lemma_lookup_update_other(ofs: Seq<FileInfo>, fs: Seq<FileInfo>, p: Seq<char>, j: int, i: int)
    requires
        0 <= i < ofs.len(),
        fs.len() == ofs.len(),
        forall|k: int| 0 <= k < ofs.len() && k != i ==> fs[k] == ofs[k],
        fs[i].path@ == ofs[i].path@,
        p != ofs[i].path@,
        0 <= j,
    ensures
        spec_lookup(fs, p, j) == spec_lookup(ofs, p, j),
    decreases fs.len() - j,
{
    if j < fs.len() {
        lemma_lookup_update_other(ofs, fs, p, j + 1, i);
    }
}

proof fn lemma_lookup_push(s: Seq<FileInfo>, fi: FileInfo, p: Seq<char>, j: int)
    requires
        0 <= j <= s.len(),
    ensures
        spec_lookup(s.push(fi), p, j) == if spec_lookup(s, p, j) is Some {
            spec_lookup(s, p, j)
        } else if fi.path@ == p {
            Some(fi)
        } else {
            None
        },
    decreases s.len() + 1 - j,
{
    let t = s.push(fi);
    if j < 0 || j >= t.len() {
    } else if j == s.len() {
        assert(t[j] == fi);
    } else {
        assert(t[j] == s[j]);
        lemma_lookup_push(s, fi, p, j + 1);
    }
}

/// Fingerprint determinism: when every candidate file's current state
/// matches its stored fingerprint, the diff flags nothing. Together with the
/// contract of `update_file` this says a diff run immediately after
/// indexing and updating, with no filesystem changes in between, returns
/// the empty set.
pub proof fn lemma_fingerprint_determinism(m: IndexMetadata, files: Seq<FileStat>)
    requires
        forall|k: int| 0 <= k < files.len() ==> !m.spec_changed(#[trigger] files[k]),
    ensures
        spec_diff(m, files).len() == 0,
    decreases files.len(),
{
    if files.len() > 0 {
        lemma_fingerprint_determinism(m, files.drop_last());
    }
}

} // verus!
