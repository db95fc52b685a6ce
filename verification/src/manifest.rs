use vstd::prelude::*;

verus! {

/// How a changed file is stored in the delta tree: as a binary patch against
/// the source file, or verbatim.
#[derive(Clone, Copy, PartialEq, Eq, Structural, Debug)]
pub enum Algo {
    XDelta3,
    AsIs,
}

/// The sidecar manifest written by diff at the delta-tree root and consumed
/// by apply.
///
/// `version` records the producer's version. `keep_files` holds the relative
/// paths whose target content equals the source content (stored as zero-byte
/// files in the delta); `changes` holds `(algo, relative_path)` pairs for
/// files whose content differs. Paths are raw byte strings.
pub struct MetaData {
    pub version: Vec<u8>,
    pub keep_files: Vec<Vec<u8>>,
    pub changes: Vec<(Algo, Vec<u8>)>,
}

/// Mathematical view of a path list: each path as its byte sequence.
pub open spec fn paths_view(paths: Seq<Vec<u8>>) -> Seq<Seq<u8>> {
    paths.map_values(|p: Vec<u8>| p@)
}

/// Mathematical view of a change list: each entry as its algorithm and the
/// path's byte sequence.
pub open spec fn changes_view(changes: Seq<(Algo, Vec<u8>)>) -> Seq<(Algo, Seq<u8>)> {
    changes.map_values(|c: (Algo, Vec<u8>)| (c.0, c.1@))
}

impl MetaData {
    /// The kept paths as byte sequences.
    pub open spec fn keep_view(self) -> Seq<Seq<u8>> {
        paths_view(self.keep_files@)
    }

    /// The change list as algorithm/byte-sequence pairs.
    pub open spec fn changes_view(self) -> Seq<(Algo, Seq<u8>)> {
        changes_view(self.changes@)
    }
}

} // verus!
