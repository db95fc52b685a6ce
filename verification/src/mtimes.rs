use vstd::prelude::*;

verus! {

/// One recorded directory mtime: the path and the timestamp seen when the
/// directory was first about to be disturbed.
pub struct SavedMtime {
    pub path: Vec<u8>,
    pub secs: i64,
    pub nanos: u32,
}

/// Parent-directory mtime records for one pass.
///
/// Before first editing any child of a parent directory, the pass records
/// the parent's current mtime here; after all edits, every recorded parent
/// gets its mtime restored. First observation wins: a later record for the
/// same path never overwrites the earlier one.
pub struct MtimeSaver {
    pub entries: Vec<SavedMtime>,
}

impl MtimeSaver {
    /// Whether a record for `p` exists.
    pub open spec fn is_saved(self, p: Seq<u8>) -> bool {
        exists|i: int| 0 <= i < self.entries@.len() && self.entries@[i].path@ == p
    }

    /// Paths are recorded at most once.
    pub open spec fn wf(self) -> bool {
        forall|i: int, j: int|
            0 <= i < j < self.entries@.len() ==> self.entries@[i].path@ != self.entries@[j].path@
    }

    pub fn new() -> (r: MtimeSaver)
        ensures
            r.wf(),
            r.entries@.len() == 0,
    {
        MtimeSaver { entries: Vec::new() }
    }

    /// Whether the pass has already recorded `p`. A caller checks this
    /// before paying for a fresh stat of the directory.
    pub fn contains_path(&self, p: &Vec<u8>) -> (r: bool)
        ensures
            r == self.is_saved(p@),
    {
        let mut i: usize = 0;
        while i < self.entries.len()
            invariant
                i <= self.entries@.len(),
                forall|k: int| 0 <= k < i ==> self.entries@[k].path@ != p@,
            decreases self.entries@.len() - i,
        {
            if crate::paths::bytes_eq(&self.entries[i].path, p) {
                return true;
            }
            i = i + 1;
        }
        false
    }

    /// Records the mtime observed for `path` unless one was already
    /// recorded: the first observation is the one to restore.
    pub fn record(&mut self, path: Vec<u8>, secs: i64, nanos: u32)
        requires
            old(self).wf(),
        ensures
            final(self).wf(),
            old(self).is_saved(path@) ==> final(self).entries@ == old(self).entries@,
            !old(self).is_saved(path@) ==> {
                &&& final(self).entries@.len() == old(self).entries@.len() + 1
                &&& forall|k: int|
                    0 <= k < old(self).entries@.len() ==> final(self).entries@[k] == old(
                        self,
                    ).entries@[k]
                &&& final(self).entries@.last().path@ == path@
                &&& final(self).entries@.last().secs == secs
                &&& final(self).entries@.last().nanos == nanos
            },
            forall|q: Seq<u8>| final(self).is_saved(q) <==> (old(self).is_saved(q) || q == path@),
    {
        if !self.contains_path(&path) {
            let ghost pre = self.entries@;
            self.entries.push(SavedMtime { path, secs, nanos });
            proof {
                assert forall|q: Seq<u8>| #[trigger] self.is_saved(q) implies (old(self).is_saved(
                    q,
                ) || q == self.entries@.last().path@) by {
                    let i = choose|i: int|
                        0 <= i < self.entries@.len() && self.entries@[i].path@ == q;
                    if i < pre.len() {
                        assert(old(self).entries@[i].path@ == q);
                    }
                }
                assert forall|q: Seq<u8>| (old(self).is_saved(q) || q
                    == self.entries@.last().path@) implies #[trigger] self.is_saved(q) by {
                    if old(self).is_saved(q) {
                        let i = choose|i: int| 0 <= i < pre.len() && pre[i].path@ == q;
                        assert(self.entries@[i].path@ == q);
                    } else {
                        assert(self.entries@[pre.len() as int].path@ == q);
                    }
                }
            }
        }
    }
}

} // verus!
