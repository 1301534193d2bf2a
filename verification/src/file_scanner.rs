//! The scanner's own rule set: which files are worth indexing. The walk of
//! the directory tree, with its gitignore handling, is the caller's work;
//! each candidate path is then held against the binary-extension blacklist
//! here.

use vstd::prelude::*;
use vstd::string::StringSliceAdditionalSpecFns;

use crate::code_chunker::spec_extension;
use crate::code_chunker::extension_of;
use crate::text::lower_bytes;
use crate::text::lower_vec;
use crate::text::bytes_eq;

verus! {

/// Scans a directory tree for files to index.
pub struct FileScanner {
    root_dir: String,
}

/// An extension of the fixed binary blacklist: executables, images, audio
/// and video, archives and documents. Such files are never indexed.
pub open spec fn is_binary_extension(e: Seq<u8>) -> bool {
    ||| e == "exe".spec_bytes()
    ||| e == "dll".spec_bytes()
    ||| e == "so".spec_bytes()
    ||| e == "dylib".spec_bytes()
    ||| e == "bin".spec_bytes()
    ||| e == "obj".spec_bytes()
    ||| e == "o".spec_bytes()
    ||| e == "jpg".spec_bytes()
    ||| e == "jpeg".spec_bytes()
    ||| e == "png".spec_bytes()
    ||| e == "gif".spec_bytes()
    ||| e == "bmp".spec_bytes()
    ||| e == "ico".spec_bytes()
    ||| e == "svg".spec_bytes()
    ||| e == "mp3".spec_bytes()
    ||| e == "mp4".spec_bytes()
    ||| e == "avi".spec_bytes()
    ||| e == "mkv".spec_bytes()
    ||| e == "zip".spec_bytes()
    ||| e == "tar".spec_bytes()
    ||| e == "gz".spec_bytes()
    ||| e == "pdf".spec_bytes()
}

impl FileScanner {
    /// The root this scanner was made for.
    pub closed spec fn spec_root(self) -> Seq<char> {
        self.root_dir@
    }

    /// Makes a scanner rooted at `root_dir`.
    pub fn new(root_dir: &str) -> (r: FileScanner)
        ensures
            r.spec_root() == root_dir@,
    {
        FileScanner { root_dir: root_dir.to_owned() }
    }

    /// The root this scanner was made for.
    pub fn root(&self) -> (r: &str)
        ensures
            r@ == self.spec_root(),
    {
        self.root_dir.as_str()
    }

    /// Whether a file should be indexed: its extension, lowercased, must
    /// not be on the binary blacklist.
    pub fn should_index_file(&self, path: &str) -> (r: bool)
        ensures
            r == !is_binary_extension(lower_bytes(spec_extension(path.spec_bytes()))),
    {
        let ext = extension_of(path);
        let low = lower_vec(ext.as_slice());
        let e = low.as_slice();
        !(bytes_eq(e, "exe".as_bytes()) || bytes_eq(e, "dll".as_bytes()) || bytes_eq(
            e,
            "so".as_bytes(),
        ) || bytes_eq(e, "dylib".as_bytes()) || bytes_eq(e, "bin".as_bytes()) || bytes_eq(
            e,
            "obj".as_bytes(),
        ) || bytes_eq(e, "o".as_bytes()) || bytes_eq(e, "jpg".as_bytes()) || bytes_eq(
            e,
            "jpeg".as_bytes(),
        ) || bytes_eq(e, "png".as_bytes()) || bytes_eq(e, "gif".as_bytes()) || bytes_eq(
            e,
            "bmp".as_bytes(),
        ) || bytes_eq(e, "ico".as_bytes()) || bytes_eq(e, "svg".as_bytes()) || bytes_eq(
            e,
            "mp3".as_bytes(),
        ) || bytes_eq(e, "mp4".as_bytes()) || bytes_eq(e, "avi".as_bytes()) || bytes_eq(
            e,
            "mkv".as_bytes(),
        ) || bytes_eq(e, "zip".as_bytes()) || bytes_eq(e, "tar".as_bytes()) || bytes_eq(
            e,
            "gz".as_bytes(),
        ) || bytes_eq(e, "pdf".as_bytes()))
    }
}

} // verus!
