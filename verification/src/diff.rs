use vstd::prelude::*;
use crate::codec::{spec_classify, Classification, ClassDecision, classify_content, opt_bytes};
use crate::errors::Error;
use crate::manifest::{Algo, MetaData, changes_view, paths_view};
use crate::paths::{bytes_eq, path_join, spec_path_join};

verus! {

/// A regular target file seen with link count at least two during the
/// grouping walk: its relative path and its filesystem identity.
pub struct MemberEntry {
    pub path: Vec<u8>,
    pub ino: u64,
    pub dev: u64,
}

/// The representative chosen for one hardlink group: the first member of
/// the group that the rewrite walk reached.
pub struct RepEntry {
    pub ino: u64,
    pub dev: u64,
    pub path: Vec<u8>,
}

/// What the caller must do to the target file just decided on.
pub enum FileAction {
    /// Replace the file with a hard link to the group representative at
    /// this relative path. Nothing is recorded in the manifest for it.
    HardLink { rep: Vec<u8> },
    /// Remove the file, write `content` in its place, and reapply the
    /// metadata snapshot taken before the rewrite.
    Rewrite { content: Vec<u8> },
}

/// The filesystem identity of the multi-link file at path `p`, if one was
/// announced: first match wins.
pub open spec fn member_fsid_of(ms: Seq<(Seq<u8>, (u64, u64))>, p: Seq<u8>) -> Option<(u64, u64)>
    decreases ms.len(),
{
    if ms.len() == 0 {
        None
    } else if ms[0].0 == p {
        Some(ms[0].1)
    } else {
        member_fsid_of(ms.drop_first(), p)
    }
}

/// The representative path recorded for the group with this filesystem
/// identity, if any: first match wins.
pub open spec fn rep_of(rs: Seq<((u64, u64), Seq<u8>)>, ino: u64, dev: u64) -> Option<Seq<u8>>
    decreases rs.len(),
{
    if rs.len() == 0 {
        None
    } else if rs[0].0 == (ino, dev) {
        Some(rs[0].1)
    } else {
        rep_of(rs.drop_first(), ino, dev)
    }
}

/// The manifest-recording half of a decision: what `decide` returns and
/// records for a file that is not short-circuited into a hard link, as a
/// function of the file's old and new bytes and the codec's results.
pub open spec fn decide_content_outcome(
    pre: DiffEngine,
    post: DiffEngine,
    rel: Seq<u8>,
    old_content: Seq<u8>,
    new_content: Seq<u8>,
    encoded: Option<Seq<u8>>,
    round_trip: Option<Seq<u8>>,
    r: Result<FileAction, Error>,
) -> bool {
    match spec_classify(old_content, new_content, encoded, round_trip) {
        Classification::Keep => {
            &&& r matches Ok(a) && a matches FileAction::Rewrite { content } && content@
                == Seq::<u8>::empty()
            &&& post.keep_view() == pre.keep_view().push(rel)
            &&& post.changes_view() == pre.changes_view()
        },
        Classification::Patch(d) => {
            &&& r matches Ok(a) && a matches FileAction::Rewrite { content } && content@ == d
            &&& post.keep_view() == pre.keep_view()
            &&& post.changes_view() == pre.changes_view().push((Algo::XDelta3, rel))
        },
        Classification::AsIs => {
            &&& r matches Ok(a) && a matches FileAction::Rewrite { content } && content@
                == new_content
            &&& post.keep_view() == pre.keep_view()
            &&& post.changes_view() == pre.changes_view().push((Algo::AsIs, rel))
        },
        Classification::Invalid => {
            &&& r matches Err(e) && e matches Error::XDelta3FailedValidation(sp, tp) && sp@
                == spec_path_join(pre.source_dir@, rel) && tp@ == spec_path_join(
                pre.target_dir@,
                rel,
            )
            &&& post.keep_view() == pre.keep_view()
            &&& post.changes_view() == pre.changes_view()
        },
    }
}

/// State of one diff pass over a source tree and a target tree that is
/// rewritten in place into a delta tree.
///
/// The caller walks the source tree announcing regular files, walks the
/// target tree announcing multi-link regular files, then walks the target
/// tree again asking for a decision on each regular file and performing the
/// returned action. The manifest is read off at the end.
pub struct DiffEngine {
    pub version: Vec<u8>,
    pub source_dir: Vec<u8>,
    pub target_dir: Vec<u8>,
    pub orig_files: Vec<Vec<u8>>,
    pub members: Vec<MemberEntry>,
    pub reps: Vec<RepEntry>,
    pub keep_files: Vec<Vec<u8>>,
    pub changes: Vec<(Algo, Vec<u8>)>,
}

impl DiffEngine {
    /// The source paths not yet matched by a target file.
    pub open spec fn source_view(self) -> Seq<Seq<u8>> {
        paths_view(self.orig_files@)
    }

    /// Whether `p` is a source path not yet matched.
    pub open spec fn is_source(self, p: Seq<u8>) -> bool {
        self.source_view().contains(p)
    }

    /// The announced multi-link files: path and filesystem identity.
    pub open spec fn members_view(self) -> Seq<(Seq<u8>, (u64, u64))> {
        self.members@.map_values(|m: MemberEntry| (m.path@, (m.ino, m.dev)))
    }

    /// The chosen group representatives: filesystem identity and path.
    pub open spec fn reps_view(self) -> Seq<((u64, u64), Seq<u8>)> {
        self.reps@.map_values(|r: RepEntry| ((r.ino, r.dev), r.path@))
    }

    /// The kept paths recorded so far.
    pub open spec fn keep_view(self) -> Seq<Seq<u8>> {
        paths_view(self.keep_files@)
    }

    /// The change entries recorded so far.
    pub open spec fn changes_view(self) -> Seq<(Algo, Seq<u8>)> {
        changes_view(self.changes@)
    }

    /// Unmatched source paths are listed at most once.
    pub open spec fn wf(self) -> bool {
        forall|i: int, j: int|
            0 <= i < j < self.source_view().len() ==> self.source_view()[i]
                != self.source_view()[j]
    }

    pub fn new(version: Vec<u8>, source_dir: Vec<u8>, target_dir: Vec<u8>) -> (r: DiffEngine)
        ensures
            r.wf(),
            r.version@ == version@,
            r.source_dir@ == source_dir@,
            r.target_dir@ == target_dir@,
            r.source_view() =~= Seq::<Seq<u8>>::empty(),
            r.members_view() =~= Seq::<(Seq<u8>, (u64, u64))>::empty(),
            r.reps_view() =~= Seq::<((u64, u64), Seq<u8>)>::empty(),
            r.keep_view() =~= Seq::<Seq<u8>>::empty(),
            r.changes_view() =~= Seq::<(Algo, Seq<u8>)>::empty(),
    {
        DiffEngine {
            version,
            source_dir,
            target_dir,
            orig_files: Vec::new(),
            members: Vec::new(),
            reps: Vec::new(),
            keep_files: Vec::new(),
            changes: Vec::new(),
        }
    }

    /// Announces a regular file of the source tree by its relative path
    /// (source enumeration).
    pub fn add_source_file(&mut self, rel: Vec<u8>)
        requires
            old(self).wf(),
        ensures
            final(self).wf(),
            forall|p: Seq<u8>| final(self).is_source(p) <==> (old(self).is_source(p) || p == rel@),
            final(self).version@ == old(self).version@,
            final(self).source_dir@ == old(self).source_dir@,
            final(self).target_dir@ == old(self).target_dir@,
            final(self).members_view() == old(self).members_view(),
            final(self).reps_view() == old(self).reps_view(),
            final(self).keep_view() == old(self).keep_view(),
            final(self).changes_view() == old(self).changes_view(),
    {
        if !self.matches_source(&rel) {
            let ghost pre = self.source_view();
            let ghost relv = rel@;
            self.orig_files.push(rel);
            proof {
                assert(self.source_view() =~= pre.push(relv));
                assert forall|p: Seq<u8>| #[trigger] self.is_source(p) implies (old(self).is_source(
                    p,
                ) || p == relv) by {
                    let i = choose|i: int|
                        0 <= i < self.source_view().len() && self.source_view()[i] == p;
                    if i < pre.len() {
                        assert(pre[i] == p);
                        assert(old(self).source_view().contains(p));
                    }
                }
                assert forall|p: Seq<u8>| (old(self).is_source(p) || p == relv) implies #[trigger] self.is_source(
                    p,
                ) by {
                    if old(self).is_source(p) {
                        let i = choose|i: int| 0 <= i < pre.len() && pre[i] == p;
                        assert(self.source_view()[i] == p);
                    } else {
                        assert(self.source_view()[pre.len() as int] == p);
                    }
                }
                assert forall|i: int, j: int|
                    0 <= i < j < self.source_view().len() implies self.source_view()[i]
                    != self.source_view()[j] by {
                    if j == pre.len() {
                        assert(pre[i] == self.source_view()[i]);
                        assert(!old(self).is_source(relv));
                        if pre[i] == relv {
                            assert(old(self).source_view().contains(relv));
                        }
                    }
                }
            }
        } else {
            proof {
                assert forall|p: Seq<u8>| (old(self).is_source(p) || p == rel@) implies #[trigger] self.is_source(
                    p,
                ) by {}
            }
        }
    }

    /// Whether a target file at this relative path also exists (unmatched)
    /// in the source tree. A file that does not is target-only: it is left
    /// untouched and appears in no manifest list.
    pub fn matches_source(&self, rel: &Vec<u8>) -> (r: bool)
        ensures
            r == self.is_source(rel@),
    {
        let mut i: usize = 0;
        while i < self.orig_files.len()
            invariant
                i <= self.orig_files@.len(),
                forall|k: int| 0 <= k < i ==> self.source_view()[k] != rel@,
            decreases self.orig_files@.len() - i,
        {
            if bytes_eq(&self.orig_files[i], rel) {
                proof {
                    assert(self.source_view()[i as int] == rel@);
                }
                return true;
            }
            i = i + 1;
        }
        proof {
            if self.is_source(rel@) {
                let k = choose|k: int|
                    0 <= k < self.source_view().len() && self.source_view()[k] == rel@;
            }
        }
        false
    }

    /// Announces a regular target file seen during the grouping walk, with
    /// its link count and filesystem identity. Files with a single link need
    /// no grouping and are ignored.
    pub fn note_target_link(&mut self, rel: Vec<u8>, ino: u64, dev: u64, nlink: u64)
        requires
            old(self).wf(),
        ensures
            final(self).wf(),
            final(self).version@ == old(self).version@,
            final(self).source_dir@ == old(self).source_dir@,
            final(self).target_dir@ == old(self).target_dir@,
            final(self).source_view() == old(self).source_view(),
            final(self).reps_view() == old(self).reps_view(),
            final(self).keep_view() == old(self).keep_view(),
            final(self).changes_view() == old(self).changes_view(),
            nlink < 2 ==> final(self).members_view() == old(self).members_view(),
            nlink >= 2 ==> final(self).members_view() == (if member_fsid_of(
                old(self).members_view(),
                rel@,
            ) is Some {
                old(self).members_view()
            } else {
                old(self).members_view().push((rel@, (ino, dev)))
            }),
    {
        if nlink < 2 {
            return ;
        }
        if self.lookup_member_fsid(&rel).is_some() {
            return ;
        }
        let ghost pre = self.members_view();
        let ghost relv = rel@;
        self.members.push(MemberEntry { path: rel, ino, dev });
        proof {
            assert(self.members_view() =~= pre.push((relv, (ino, dev))));
            assert(self.source_view() == old(self).source_view());
        }
    }

    /// The filesystem identity announced for this path, if any.
    fn lookup_member_fsid(&self, rel: &Vec<u8>) -> (r: Option<(u64, u64)>)
        ensures
            r == member_fsid_of(self.members_view(), rel@),
    {
        let ghost ms = self.members_view();
        let mut i: usize = 0;
        proof {
            assert(ms.skip(0) =~= ms);
        }
        while i < self.members.len()
            invariant
                i <= self.members@.len(),
                ms == self.members_view(),
                member_fsid_of(ms, rel@) == member_fsid_of(ms.skip(i as int), rel@),
            decreases self.members@.len() - i,
        {
            proof {
                assert(ms.skip(i as int)[0] == ms[i as int]);
                assert(ms.skip(i as int).drop_first() =~= ms.skip(i + 1));
            }
            if bytes_eq(&self.members[i].path, rel) {
                return Some((self.members[i].ino, self.members[i].dev));
            }
            i = i + 1;
        }
        proof {
            assert(ms.skip(ms.len() as int) =~= Seq::<(Seq<u8>, (u64, u64))>::empty());
        }
        None
    }

    /// The representative recorded for this filesystem identity, if any.
    fn lookup_rep(&self, ino: u64, dev: u64) -> (r: Option<Vec<u8>>)
        ensures
            match r {
                Some(p) => rep_of(self.reps_view(), ino, dev) == Some(p@),
                None => rep_of(self.reps_view(), ino, dev) is None,
            },
    {
        let ghost rs = self.reps_view();
        let mut i: usize = 0;
        proof {
            assert(rs.skip(0) =~= rs);
        }
        while i < self.reps.len()
            invariant
                i <= self.reps@.len(),
                rs == self.reps_view(),
                rep_of(rs, ino, dev) == rep_of(rs.skip(i as int), ino, dev),
            decreases self.reps@.len() - i,
        {
            proof {
                assert(rs.skip(i as int)[0] == rs[i as int]);
                assert(rs.skip(i as int).drop_first() =~= rs.skip(i + 1));
            }
            if self.reps[i].ino == ino && self.reps[i].dev == dev {
                return Some(self.reps[i].path.clone());
            }
            i = i + 1;
        }
        proof {
            assert(rs.skip(rs.len() as int) =~= Seq::<((u64, u64), Seq<u8>)>::empty());
        }
        None
    }

    /// Decides what happens to the target file at `rel`, which exists in
    /// both trees. `old_content` are the source file's bytes, `new_content`
    /// the target file's bytes; `encoded` must be the codec's encoding of
    /// new against old (`None` on codec failure) and `round_trip` the
    /// codec's decoding of that encoding against old. The path is marked
    /// matched; a member of a hardlink group whose representative is
    /// already chosen is replaced by a hard link and recorded nowhere, a
    /// first-seen group member becomes the representative, and everything
    /// else is classified by content and recorded in the manifest lists.
    pub fn decide(
        &mut self,
        rel: &Vec<u8>,
        old_content: &Vec<u8>,
        new_content: &Vec<u8>,
        encoded: Option<Vec<u8>>,
        round_trip: Option<Vec<u8>>,
    ) -> (r: Result<FileAction, Error>)
        requires
            old(self).wf(),
            old(self).is_source(rel@),
        ensures
            final(self).wf(),
            final(self).version@ == old(self).version@,
            final(self).source_dir@ == old(self).source_dir@,
            final(self).target_dir@ == old(self).target_dir@,
            final(self).members_view() == old(self).members_view(),
            forall|p: Seq<u8>| final(self).is_source(p) <==> (old(self).is_source(p) && p != rel@),
            (match member_fsid_of(old(self).members_view(), rel@) {
                Some(f) => match rep_of(old(self).reps_view(), f.0, f.1) {
                    Some(q) => {
                        &&& r matches Ok(a) && a matches FileAction::HardLink { rep } && rep@ == q
                        &&& final(self).reps_view() == old(self).reps_view()
                        &&& final(self).keep_view() == old(self).keep_view()
                        &&& final(self).changes_view() == old(self).changes_view()
                    },
                    None => {
                        &&& final(self).reps_view() == old(self).reps_view().push((f, rel@))
                        &&& decide_content_outcome(
                            *old(self),
                            *final(self),
                            rel@,
                            old_content@,
                            new_content@,
                            opt_bytes(encoded),
                            opt_bytes(round_trip),
                            r,
                        )
                    },
                },
                None => {
                    &&& final(self).reps_view() == old(self).reps_view()
                    &&& decide_content_outcome(
                        *old(self),
                        *final(self),
                        rel@,
                        old_content@,
                        new_content@,
                        opt_bytes(encoded),
                        opt_bytes(round_trip),
                        r,
                    )
                },
            }),
    {
        self.remove_matched(rel);
        let fsid = self.lookup_member_fsid(rel);
        if let Some((ino, dev)) = fsid {
            match self.lookup_rep(ino, dev) {
                Some(rep) => {
                    return Ok(FileAction::HardLink { rep });
                },
                None => {
                    let ghost pre = self.reps_view();
                    self.reps.push(RepEntry { ino, dev, path: rel.clone() });
                    proof {
                        assert(self.reps_view() =~= pre.push(((ino, dev), rel@)));
                    }
                },
            }
        }
        match classify_content(old_content, new_content, encoded, round_trip) {
            ClassDecision::Keep => {
                let ghost pre = self.keep_view();
                self.keep_files.push(rel.clone());
                proof {
                    assert(self.keep_view() =~= pre.push(rel@));
                }
                Ok(FileAction::Rewrite { content: Vec::new() })
            },
            ClassDecision::Patch(delta) => {
                let ghost pre = self.changes_view();
                self.changes.push((Algo::XDelta3, rel.clone()));
                proof {
                    assert(self.changes_view() =~= pre.push((Algo::XDelta3, rel@)));
                }
                Ok(FileAction::Rewrite { content: delta })
            },
            ClassDecision::AsIs => {
                let ghost pre = self.changes_view();
                self.changes.push((Algo::AsIs, rel.clone()));
                proof {
                    assert(self.changes_view() =~= pre.push((Algo::AsIs, rel@)));
                }
                Ok(FileAction::Rewrite { content: new_content.clone() })
            },
            ClassDecision::Invalid => {
                Err(
                    Error::XDelta3FailedValidation(
                        path_join(&self.source_dir, rel),
                        path_join(&self.target_dir, rel),
                    ),
                )
            },
        }
    }

    /// Removes `rel` from the unmatched source paths.
    fn remove_matched(&mut self, rel: &Vec<u8>)
        requires
            old(self).wf(),
            old(self).is_source(rel@),
        ensures
            final(self).wf(),
            forall|p: Seq<u8>| final(self).is_source(p) <==> (old(self).is_source(p) && p != rel@),
            final(self).version@ == old(self).version@,
            final(self).source_dir@ == old(self).source_dir@,
            final(self).target_dir@ == old(self).target_dir@,
            final(self).members_view() == old(self).members_view(),
            final(self).reps_view() == old(self).reps_view(),
            final(self).keep_view() == old(self).keep_view(),
            final(self).changes_view() == old(self).changes_view(),
    {
        let ghost pre = self.source_view();
        proof {
            assert(old(self).wf());
            assert(forall|a: int, b: int| 0 <= a < b < pre.len() ==> pre[a] != pre[b]);
        }
        let mut i: usize = 0;
        while i < self.orig_files.len()
            invariant
                i <= self.orig_files@.len(),
                pre == self.source_view(),
                old(self) == self,
                pre.contains(rel@),
                forall|a: int, b: int| 0 <= a < b < pre.len() ==> pre[a] != pre[b],
                forall|k: int| 0 <= k < i ==> pre[k] != rel@,
            decreases self.orig_files@.len() - i,
        {
            if bytes_eq(&self.orig_files[i], rel) {
                proof {
                    assert(pre[i as int] == rel@);
                }
                self.orig_files.remove(i);
                proof {
                    pre.remove_ensures(i as int);
                    assert(self.source_view() =~= pre.remove(i as int));
                    let post = self.source_view();
                    assert(post == pre.remove(i as int));
                    assert forall|p: Seq<u8>| #[trigger] self.is_source(p) implies (old(
                        self,
                    ).is_source(p) && p != rel@) by {
                        let k = choose|k: int| 0 <= k < post.len() && post[k] == p;
                        if k < i {
                            assert(pre.remove(i as int)[k] == pre[k]);
                            assert(pre[k] == p);
                            assert(pre[k] != rel@);
                        } else {
                            assert(pre.remove(i as int)[k] == pre[k + 1]);
                            assert(pre[k + 1] == p);
                            assert(pre[i as int] != pre[k + 1]);
                        }
                        assert(pre.contains(p));
                    }
                    assert forall|p: Seq<u8>| (old(self).is_source(p) && p != rel@) implies #[trigger] self.is_source(
                        p,
                    ) by {
                        let k = choose|k: int| 0 <= k < pre.len() && pre[k] == p;
                        if k < i {
                            assert(pre.remove(i as int)[k] == pre[k]);
                            assert(post[k] == p);
                        } else {
                            assert(k != i);
                            assert(pre.remove(i as int)[k - 1] == pre[k]);
                            assert(post[k - 1] == p);
                        }
                        assert(post.contains(p));
                    }
                    assert forall|a: int, b: int|
                        0 <= a < b < post.len() implies post[a] != post[b] by {
                        if b < i {
                            assert(post[a] == pre[a]);
                            assert(post[b] == pre[b]);
                        } else if a < i {
                            assert(post[a] == pre[a]);
                            assert(post[b] == pre[b + 1]);
                        } else {
                            assert(post[a] == pre[a + 1]);
                            assert(post[b] == pre[b + 1]);
                        }
                    }
                }
                return ;
            }
            i = i + 1;
        }
        proof {
            let k = choose|k: int| 0 <= k < pre.len() && pre[k] == rel@;
            assert(false);
        }
    }

    /// Reads the manifest off a finished pass: the producer version, the
    /// kept paths and the change entries, in the order they were recorded.
    pub fn into_manifest(self) -> (md: MetaData)
        ensures
            md.version@ == self.version@,
            md.keep_view() == self.keep_view(),
            md.changes_view() == self.changes_view(),
    {
        MetaData { version: self.version, keep_files: self.keep_files, changes: self.changes }
    }
}

} // verus!
