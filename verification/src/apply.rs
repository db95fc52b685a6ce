use vstd::prelude::*;
use crate::manifest::{Algo, changes_view, paths_view};
use crate::paths::bytes_eq;

verus! {

/// One hardlink group of the delta tree: a filesystem identity and all
/// member paths seen with it during the grouping walk.
pub struct GroupEntry {
    pub ino: u64,
    pub dev: u64,
    pub members: Vec<Vec<u8>>,
}

/// The position of the group with this filesystem identity, if any.
pub open spec fn group_index_of(
    gs: Seq<((u64, u64), Seq<Seq<u8>>)>,
    ino: u64,
    dev: u64,
) -> Option<int>
    decreases gs.len(),
{
    if gs.len() == 0 {
        None
    } else if gs[0].0 == (ino, dev) {
        Some(0int)
    } else {
        match group_index_of(gs.drop_first(), ino, dev) {
            None => None,
            Some(k) => Some(k + 1),
        }
    }
}

proof fn lemma_group_index_found(gs: Seq<((u64, u64), Seq<Seq<u8>>)>, ino: u64, dev: u64, i: int)
    requires
        0 <= i < gs.len(),
        gs[i].0 == (ino, dev),
        forall|k: int| 0 <= k < i ==> gs[k].0 != (ino, dev),
    ensures
        group_index_of(gs, ino, dev) == Some(i),
    decreases i,
{
    if i == 0 {
    } else {
        assert forall|k: int| 0 <= k < i - 1 implies gs.drop_first()[k].0 != (ino, dev) by {
            assert(gs[k + 1].0 != (ino, dev));
        }
        lemma_group_index_found(gs.drop_first(), ino, dev, i - 1);
    }
}

proof fn lemma_group_index_none(gs: Seq<((u64, u64), Seq<Seq<u8>>)>, ino: u64, dev: u64)
    requires
        forall|k: int| 0 <= k < gs.len() ==> gs[k].0 != (ino, dev),
    ensures
        group_index_of(gs, ino, dev) is None,
    decreases gs.len(),
{
    if gs.len() > 0 {
        assert forall|k: int| 0 <= k < gs.len() - 1 implies gs.drop_first()[k].0 != (ino, dev) by {
            assert(gs[k + 1].0 != (ino, dev));
        }
        lemma_group_index_none(gs.drop_first(), ino, dev);
    }
}

/// The first member of a group that was reconstructed, if any: it becomes
/// the link target for the rest of the group.
pub open spec fn first_recreated(members: Seq<Seq<u8>>, rec: Seq<Seq<u8>>) -> Option<Seq<u8>>
    decreases members.len(),
{
    if members.len() == 0 {
        None
    } else if rec.contains(members[0]) {
        Some(members[0])
    } else {
        first_recreated(members.drop_first(), rec)
    }
}

proof fn lemma_first_recreated_found(members: Seq<Seq<u8>>, rec: Seq<Seq<u8>>, i: int)
    requires
        0 <= i < members.len(),
        rec.contains(members[i]),
        forall|k: int| 0 <= k < i ==> !rec.contains(members[k]),
    ensures
        first_recreated(members, rec) == Some(members[i]),
    decreases i,
{
    if i == 0 {
    } else {
        assert forall|k: int| 0 <= k < i - 1 implies !rec.contains(members.drop_first()[k]) by {
            assert(!rec.contains(members[k + 1]));
        }
        lemma_first_recreated_found(members.drop_first(), rec, i - 1);
    }
}

proof fn lemma_first_recreated_none(members: Seq<Seq<u8>>, rec: Seq<Seq<u8>>)
    requires
        forall|k: int| 0 <= k < members.len() ==> !rec.contains(members[k]),
    ensures
        first_recreated(members, rec) is None,
    decreases members.len(),
{
    if members.len() > 0 {
        assert forall|k: int| 0 <= k < members.len() - 1 implies !rec.contains(
            members.drop_first()[k],
        ) by {
            assert(!rec.contains(members[k + 1]));
        }
        lemma_first_recreated_none(members.drop_first(), rec);
    }
}

/// The link edits owed to one group once `rep` is chosen: every member
/// other than the representative is re-created as a hard link to it.
pub open spec fn group_pairs(rep: Seq<u8>, members: Seq<Seq<u8>>) -> Seq<(Seq<u8>, Seq<u8>)>
    decreases members.len(),
{
    if members.len() == 0 {
        Seq::empty()
    } else {
        group_pairs(rep, members.drop_last()) + (if members.last() == rep {
            Seq::<(Seq<u8>, Seq<u8>)>::empty()
        } else {
            seq![(rep, members.last())]
        })
    }
}

/// The whole link plan: for each group with at least one reconstructed
/// member, the (representative, member) pairs to re-link; a group with no
/// reconstructed member keeps its intact links and contributes nothing.
pub open spec fn spec_plan(
    gs: Seq<((u64, u64), Seq<Seq<u8>>)>,
    rec: Seq<Seq<u8>>,
) -> Seq<(Seq<u8>, Seq<u8>)>
    decreases gs.len(),
{
    if gs.len() == 0 {
        Seq::empty()
    } else {
        spec_plan(gs.drop_last(), rec) + (match first_recreated(gs.last().1, rec) {
            None => Seq::<(Seq<u8>, Seq<u8>)>::empty(),
            Some(rep) => group_pairs(rep, gs.last().1),
        })
    }
}


proof fn lemma_first_recreated_is_recreated(members: Seq<Seq<u8>>, rec: Seq<Seq<u8>>)
    requires
        first_recreated(members, rec) is Some,
    ensures
        rec.contains(first_recreated(members, rec).unwrap()),
    decreases members.len(),
{
    if members.len() > 0 && !rec.contains(members[0]) {
        lemma_first_recreated_is_recreated(members.drop_first(), rec);
    }
}

proof fn lemma_group_pairs_contains(rep: Seq<u8>, members: Seq<Seq<u8>>, mi: int)
    requires
        0 <= mi < members.len(),
        members[mi] != rep,
    ensures
        group_pairs(rep, members).contains((rep, members[mi])),
    decreases members.len(),
{
    if mi == members.len() - 1 {
        let prefix = group_pairs(rep, members.drop_last());
        assert(group_pairs(rep, members)[prefix.len() as int] == (rep, members[mi]));
    } else {
        assert(members.drop_last()[mi] == members[mi]);
        lemma_group_pairs_contains(rep, members.drop_last(), mi);
        let sub = group_pairs(rep, members.drop_last());
        let k = choose|k: int| 0 <= k < sub.len() && sub[k] == (rep, members[mi]);
        assert(group_pairs(rep, members)[k] == (rep, members[mi]));
    }
}

proof fn lemma_group_pairs_reps(rep: Seq<u8>, members: Seq<Seq<u8>>, k: int)
    requires
        0 <= k < group_pairs(rep, members).len(),
    ensures
        group_pairs(rep, members)[k].0 == rep,
    decreases members.len(),
{
    if members.len() > 0 {
        let prefix = group_pairs(rep, members.drop_last());
        if k < prefix.len() {
            lemma_group_pairs_reps(rep, members.drop_last(), k);
        }
    }
}

/// Hardlink preservation, diff side is the `decide` contract; this is the
/// apply side: in a group with at least one reconstructed member, every
/// member path other than the chosen representative is re-created as a
/// hard link to that representative, so the group shares one inode again.
pub proof fn lemma_plan_covers_group(
    gs: Seq<((u64, u64), Seq<Seq<u8>>)>,
    rec: Seq<Seq<u8>>,
    gi: int,
    mi: int,
)
    requires
        0 <= gi < gs.len(),
        first_recreated(gs[gi].1, rec) is Some,
        0 <= mi < gs[gi].1.len(),
        gs[gi].1[mi] != first_recreated(gs[gi].1, rec).unwrap(),
    ensures
        spec_plan(gs, rec).contains((first_recreated(gs[gi].1, rec).unwrap(), gs[gi].1[mi])),
    decreases gs.len(),
{
    let rep = first_recreated(gs[gi].1, rec).unwrap();
    let pair = (rep, gs[gi].1[mi]);
    if gi == gs.len() - 1 {
        lemma_group_pairs_contains(rep, gs[gi].1, mi);
        let tail = group_pairs(rep, gs[gi].1);
        let k = choose|k: int| 0 <= k < tail.len() && tail[k] == pair;
        let prefix = spec_plan(gs.drop_last(), rec);
        assert(spec_plan(gs, rec)[prefix.len() + k] == pair);
    } else {
        assert(gs.drop_last()[gi] == gs[gi]);
        lemma_plan_covers_group(gs.drop_last(), rec, gi, mi);
        let sub = spec_plan(gs.drop_last(), rec);
        let k = choose|k: int| 0 <= k < sub.len() && sub[k] == pair;
        assert(spec_plan(gs, rec)[k] == pair);
    }
}

/// The other half of hardlink preservation on the apply side: every link
/// edit of the plan points at a path this pass reconstructed, never at a
/// stale group member.
pub proof fn lemma_plan_targets_recreated(
    gs: Seq<((u64, u64), Seq<Seq<u8>>)>,
    rec: Seq<Seq<u8>>,
    k: int,
)
    requires
        0 <= k < spec_plan(gs, rec).len(),
    ensures
        rec.contains(spec_plan(gs, rec)[k].0),
    decreases gs.len(),
{
    if gs.len() > 0 {
        let prefix = spec_plan(gs.drop_last(), rec);
        if k < prefix.len() {
            lemma_plan_targets_recreated(gs.drop_last(), rec, k);
        } else {
            match first_recreated(gs.last().1, rec) {
                None => {},
                Some(rep) => {
                    lemma_group_pairs_reps(rep, gs.last().1, k - prefix.len());
                    lemma_first_recreated_is_recreated(gs.last().1, rec);
                },
            }
        }
    }
}

/// View of a list of path pairs.
pub open spec fn pairs_view(ps: Seq<(Vec<u8>, Vec<u8>)>) -> Seq<(Seq<u8>, Seq<u8>)> {
    ps.map_values(|p: (Vec<u8>, Vec<u8>)| (p.0@, p.1@))
}

/// State of one apply pass: the hardlink groups found in the delta tree and
/// the paths reconstructed so far.
pub struct ApplyEngine {
    pub groups: Vec<GroupEntry>,
    pub recreated: Vec<Vec<u8>>,
}

impl ApplyEngine {
    /// The groups: filesystem identity and member paths, in walk order.
    pub open spec fn groups_view(self) -> Seq<((u64, u64), Seq<Seq<u8>>)> {
        self.groups@.map_values(|g: GroupEntry| ((g.ino, g.dev), paths_view(g.members@)))
    }

    /// The reconstructed paths.
    pub open spec fn recreated_view(self) -> Seq<Seq<u8>> {
        paths_view(self.recreated@)
    }

    /// Whether `p` was reconstructed.
    pub open spec fn is_recreated(self, p: Seq<u8>) -> bool {
        self.recreated_view().contains(p)
    }

    pub fn new() -> (r: ApplyEngine)
        ensures
            r.groups_view() =~= Seq::<((u64, u64), Seq<Seq<u8>>)>::empty(),
            r.recreated_view() =~= Seq::<Seq<u8>>::empty(),
    {
        ApplyEngine { groups: Vec::new(), recreated: Vec::new() }
    }

    /// Announces a regular file of the delta tree seen during the grouping
    /// walk, with its link count and filesystem identity. A multi-link file
    /// joins the group of its identity, which collects every member path;
    /// files with a single link are ignored.
    pub fn note_delta_link(&mut self, rel: Vec<u8>, ino: u64, dev: u64, nlink: u64)
        ensures
            final(self).recreated_view() == old(self).recreated_view(),
            nlink < 2 ==> final(self).groups_view() == old(self).groups_view(),
            nlink >= 2 ==> final(self).groups_view() == (match group_index_of(
                old(self).groups_view(),
                ino,
                dev,
            ) {
                Some(g) => old(self).groups_view().update(
                    g,
                    ((ino, dev), old(self).groups_view()[g].1.push(rel@)),
                ),
                None => old(self).groups_view().push(((ino, dev), seq![rel@])),
            }),
    {
        if nlink < 2 {
            return ;
        }
        let ghost gs = self.groups_view();
        let ghost relv = rel@;
        let mut i: usize = 0;
        while i < self.groups.len()
            invariant
                i <= self.groups@.len(),
                gs == self.groups_view(),
                relv == rel@,
                nlink >= 2,
                old(self) == self,
                forall|k: int| 0 <= k < i ==> gs[k].0 != (ino, dev),
            decreases self.groups@.len() - i,
        {
            if self.groups[i].ino == ino && self.groups[i].dev == dev {
                proof {
                    lemma_group_index_found(gs, ino, dev, i as int);
                }
                let ghost pv = self.groups@;
                let mut g = self.groups.remove(i);
                proof {
                    assert(g == pv[i as int]);
                }
                let ghost gm0 = g.members@;
                g.members.push(rel);
                proof {
                    assert(g.members@ == gm0.push(g.members@.last()));
                    assert(g.members@.last()@ == relv);
                }
                let ghost g2 = g;
                self.groups.insert(i, g);
                proof {
                    pv.remove_ensures(i as int);
                    pv.remove(i as int).insert_ensures(i as int, g2);
                    assert(self.groups@ =~= pv.update(i as int, g2));
                    assert(g2.ino == ino && g2.dev == dev);
                    assert(g2.members@ == pv[i as int].members@.push(g2.members@.last()));
                    assert(g2.members@.last()@ == relv);
                    assert(gs[i as int].1 == paths_view(pv[i as int].members@));
                    assert(paths_view(g2.members@) =~~= gs[i as int].1.push(relv));
                    assert(self.groups_view() =~~= gs.update(
                        i as int,
                        ((ino, dev), gs[i as int].1.push(relv)),
                    ));
                }
                return ;
            }
            i = i + 1;
        }
        proof {
            lemma_group_index_none(gs, ino, dev);
        }
        self.groups.push(GroupEntry { ino, dev, members: vec![rel] });
        proof {
            assert(self.groups_view() =~~= gs.push(((ino, dev), seq![relv])));
        }
    }

    /// Records that the file at `rel` was rewritten by this pass, making it
    /// a candidate link target for its hardlink group.
    pub fn mark_recreated(&mut self, rel: Vec<u8>)
        ensures
            final(self).groups_view() == old(self).groups_view(),
            forall|p: Seq<u8>|
                final(self).is_recreated(p) <==> (old(self).is_recreated(p) || p == rel@),
    {
        if !self.was_recreated(&rel) {
            let ghost pre = self.recreated_view();
            let ghost relv = rel@;
            self.recreated.push(rel);
            proof {
                assert(self.recreated_view() =~= pre.push(relv));
                assert forall|p: Seq<u8>| #[trigger] self.is_recreated(p) implies (old(
                    self,
                ).is_recreated(p) || p == relv) by {
                    let k = choose|k: int|
                        0 <= k < self.recreated_view().len() && self.recreated_view()[k] == p;
                    if k < pre.len() {
                        assert(pre[k] == p);
                    }
                }
                assert forall|p: Seq<u8>| (old(self).is_recreated(p) || p == relv) implies #[trigger] self.is_recreated(
                    p,
                ) by {
                    if old(self).is_recreated(p) {
                        let k = choose|k: int| 0 <= k < pre.len() && pre[k] == p;
                        assert(self.recreated_view()[k] == p);
                    } else {
                        assert(self.recreated_view()[pre.len() as int] == p);
                    }
                }
            }
        }
    }

    /// Whether `rel` was already recorded as reconstructed.
    pub fn was_recreated(&self, rel: &Vec<u8>) -> (r: bool)
        ensures
            r == self.is_recreated(rel@),
    {
        let mut i: usize = 0;
        while i < self.recreated.len()
            invariant
                i <= self.recreated@.len(),
                forall|k: int| 0 <= k < i ==> self.recreated_view()[k] != rel@,
            decreases self.recreated@.len() - i,
        {
            if bytes_eq(&self.recreated[i], rel) {
                proof {
                    assert(self.recreated_view()[i as int] == rel@);
                }
                return true;
            }
            i = i + 1;
        }
        proof {
            if self.is_recreated(rel@) {
                let k = choose|k: int|
                    0 <= k < self.recreated_view().len() && self.recreated_view()[k] == rel@;
            }
        }
        false
    }

    /// The first member of `members` that this pass reconstructed, if any.
    fn find_rep(&self, members: &Vec<Vec<u8>>) -> (r: Option<Vec<u8>>)
        ensures
            match r {
                Some(p) => first_recreated(paths_view(members@), self.recreated_view()) == Some(
                    p@,
                ),
                None => first_recreated(paths_view(members@), self.recreated_view()) is None,
            },
    {
        let ghost mv = paths_view(members@);
        let ghost rec = self.recreated_view();
        let mut mi: usize = 0;
        while mi < members.len()
            invariant
                mi <= members@.len(),
                mv == paths_view(members@),
                rec == self.recreated_view(),
                forall|k: int| 0 <= k < mi ==> !rec.contains(mv[k]),
            decreases members@.len() - mi,
        {
            if self.was_recreated(&members[mi]) {
                proof {
                    lemma_first_recreated_found(mv, rec, mi as int);
                }
                return Some(members[mi].clone());
            }
            mi = mi + 1;
        }
        proof {
            lemma_first_recreated_none(mv, rec);
        }
        None
    }

    /// Computes the hardlink edits owed after reconstruction: for every
    /// group with at least one reconstructed member, the first such member
    /// (in walk order) becomes the representative, and every other member
    /// path is to be deleted and re-created as a hard link to it.
    pub fn plan_links(&self) -> (r: Vec<(Vec<u8>, Vec<u8>)>)
        ensures
            pairs_view(r@) == spec_plan(self.groups_view(), self.recreated_view()),
    {
        let ghost gs = self.groups_view();
        let ghost rec = self.recreated_view();
        let mut out: Vec<(Vec<u8>, Vec<u8>)> = Vec::new();
        let mut gi: usize = 0;
        proof {
            assert(gs.take(0) =~= Seq::<((u64, u64), Seq<Seq<u8>>)>::empty());
            assert(pairs_view(out@) =~= Seq::<(Seq<u8>, Seq<u8>)>::empty());
        }
        while gi < self.groups.len()
            invariant
                gi <= self.groups@.len(),
                gs == self.groups_view(),
                rec == self.recreated_view(),
                pairs_view(out@) == spec_plan(gs.take(gi as int), rec),
            decreases self.groups@.len() - gi,
        {
            let members = &self.groups[gi].members;
            let ghost mv = gs[gi as int].1;
            proof {
                assert(mv == paths_view(members@));
            }
            let rep = self.find_rep(members);
            match rep {
                None => {
                    proof {
                        assert(gs.take(gi + 1).drop_last() =~= gs.take(gi as int));
                        assert(gs.take(gi + 1).last() == gs[gi as int]);
                        assert(pairs_view(out@) == spec_plan(gs.take(gi + 1), rec));
                    }
                },
                Some(rep) => {
                    let ghost repv = rep@;
                    proof {
                        assert(first_recreated(mv, rec) == Some(repv));
                    }
                    let mut mj: usize = 0;
                    proof {
                        assert(mv.take(0) =~= Seq::<Seq<u8>>::empty());
                        assert(group_pairs(repv, mv.take(0)) =~= Seq::<(Seq<u8>, Seq<u8>)>::empty());
                    }
                    while mj < members.len()
                        invariant
                            mj <= members@.len(),
                            mv == paths_view(members@),
                            rep@ == repv,
                            pairs_view(out@) == spec_plan(gs.take(gi as int), rec) + group_pairs(
                                repv,
                                mv.take(mj as int),
                            ),
                        decreases members@.len() - mj,
                    {
                        proof {
                            assert(mv.take(mj + 1).drop_last() =~= mv.take(mj as int));
                            assert(mv.take(mj + 1).last() == mv[mj as int]);
                        }
                        if !bytes_eq(&members[mj], &rep) {
                            let ghost preo = out@;
                            out.push((rep.clone(), members[mj].clone()));
                            proof {
                                assert(pairs_view(out@) =~= pairs_view(preo).push(
                                    (repv, mv[mj as int]),
                                ));
                                assert(group_pairs(repv, mv.take(mj + 1)) =~= group_pairs(
                                    repv,
                                    mv.take(mj as int),
                                ).push((repv, mv[mj as int])));
                            }
                        } else {
                            proof {
                                assert(group_pairs(repv, mv.take(mj + 1)) =~= group_pairs(
                                    repv,
                                    mv.take(mj as int),
                                ));
                            }
                        }
                        mj = mj + 1;
                    }
                    proof {
                        assert(mv.take(members@.len() as int) =~= mv);
                        assert(gs.take(gi + 1).drop_last() =~= gs.take(gi as int));
                        assert(gs.take(gi + 1).last() == gs[gi as int]);
                        assert(pairs_view(out@) == spec_plan(gs.take(gi + 1), rec));
                    }
                },
            }
            gi = gi + 1;
        }
        proof {
            assert(gs.take(self.groups@.len() as int) =~= gs);
        }
        out
    }
}


/// Byte-wise lexicographic order on paths: the order in which apply
/// reconstructs changed files.
pub open spec fn lex_leq(a: Seq<u8>, b: Seq<u8>) -> bool
    decreases a.len(),
{
    if a.len() == 0 {
        true
    } else if b.len() == 0 {
        false
    } else if a[0] < b[0] {
        true
    } else if a[0] > b[0] {
        false
    } else {
        lex_leq(a.drop_first(), b.drop_first())
    }
}

/// The lexicographic order is total.
pub proof fn lemma_lex_total(a: Seq<u8>, b: Seq<u8>)
    ensures
        lex_leq(a, b) || lex_leq(b, a),
    decreases a.len(),
{
    if a.len() != 0 && b.len() != 0 && a[0] == b[0] {
        lemma_lex_total(a.drop_first(), b.drop_first());
    }
}

/// The lexicographic order is transitive.
pub proof fn lemma_lex_trans(a: Seq<u8>, b: Seq<u8>, c: Seq<u8>)
    requires
        lex_leq(a, b),
        lex_leq(b, c),
    ensures
        lex_leq(a, c),
    decreases a.len(),
{
    if a.len() != 0 && b.len() != 0 && c.len() != 0 && a[0] == b[0] && b[0] == c[0] {
        lemma_lex_trans(a.drop_first(), b.drop_first(), c.drop_first());
    }
}

/// Compares two paths in byte-wise lexicographic order.
pub fn lex_le(a: &Vec<u8>, b: &Vec<u8>) -> (r: bool)
    ensures
        r == lex_leq(a@, b@),
{
    let mut i: usize = 0;
    proof {
        assert(a@.skip(0) =~= a@);
        assert(b@.skip(0) =~= b@);
    }
    while i < a.len() && i < b.len()
        invariant
            i <= a@.len(),
            i <= b@.len(),
            lex_leq(a@, b@) == lex_leq(a@.skip(i as int), b@.skip(i as int)),
        decreases a@.len() - i,
    {
        proof {
            assert(a@.skip(i as int)[0] == a@[i as int]);
            assert(b@.skip(i as int)[0] == b@[i as int]);
            assert(a@.skip(i as int).drop_first() =~= a@.skip(i + 1));
            assert(b@.skip(i as int).drop_first() =~= b@.skip(i + 1));
        }
        if a[i] < b[i] {
            return true;
        }
        if a[i] > b[i] {
            return false;
        }
        i = i + 1;
    }
    proof {
        if i == a@.len() {
            assert(a@.skip(i as int) =~= Seq::<u8>::empty());
        } else {
            assert(b@.skip(i as int) =~= Seq::<u8>::empty());
            assert(a@.skip(i as int).len() != 0);
        }
    }
    i == a.len()
}

proof fn lemma_changes_view_insert(s: Seq<(Algo, Vec<u8>)>, k: int, x: (Algo, Vec<u8>))
    requires
        0 <= k <= s.len(),
    ensures
        changes_view(s.insert(k, x)) =~= changes_view(s).insert(k, (x.0, x.1@)),
{
    s.insert_ensures(k, x);
    changes_view(s).insert_ensures(k, (x.0, x.1@));
}

/// Sorts a change list by relative path, in byte-wise lexicographic order.
/// The result holds exactly the entries of the input; entries with equal
/// paths keep their relative order.
pub fn sort_changes(input: Vec<(Algo, Vec<u8>)>) -> (r: Vec<(Algo, Vec<u8>)>)
    ensures
        changes_view(r@).to_multiset() == changes_view(input@).to_multiset(),
        forall|x: int, y: int|
            0 <= x < y < changes_view(r@).len() ==> lex_leq(
                changes_view(r@)[x].1,
                changes_view(r@)[y].1,
            ),
{
    broadcast use vstd::seq_lib::group_to_multiset_ensures;

    let ghost iv = changes_view(input@);
    let mut out: Vec<(Algo, Vec<u8>)> = Vec::new();
    let mut i: usize = 0;
    proof {
        assert(iv.take(0) =~= Seq::<(Algo, Seq<u8>)>::empty());
        assert(changes_view(out@) =~= iv.take(0));
    }
    while i < input.len()
        invariant
            i <= input@.len(),
            iv == changes_view(input@),
            changes_view(out@).to_multiset() == iv.take(i as int).to_multiset(),
            forall|x: int, y: int|
                0 <= x < y < changes_view(out@).len() ==> lex_leq(
                    changes_view(out@)[x].1,
                    changes_view(out@)[y].1,
                ),
        decreases input@.len() - i,
    {
        broadcast use vstd::seq_lib::group_to_multiset_ensures;

        let item = (input[i].0, input[i].1.clone());
        let ghost itv = (item.0, item.1@);
        proof {
            assert(itv == iv[i as int]);
        }
        let ghost ov = changes_view(out@);
        let mut k: usize = 0;
        while k < out.len() && lex_le(&out[k].1, &item.1)
            invariant
                k <= out@.len(),
                ov == changes_view(out@),
                itv == (item.0, item.1@),
                forall|j: int| 0 <= j < k ==> lex_leq(ov[j].1, itv.1),
            decreases out@.len() - k,
        {
            proof {
                assert(ov[k as int].1 == out@[k as int].1@);
            }
            k = k + 1;
        }
        proof {
            if k < out@.len() {
                assert(!lex_leq(out@[k as int].1@, itv.1));
                assert(ov[k as int].1 == out@[k as int].1@);
                lemma_lex_total(ov[k as int].1, itv.1);
            }
        }
        let ghost preq = out@;
        let ghost itemg = item;
        out.insert(k, item);
        proof {
            lemma_changes_view_insert(preq, k as int, itemg);
            let nv = changes_view(out@);
            assert(nv == ov.insert(k as int, itv));
            ov.insert_ensures(k as int, itv);
            // every entry of the new list is in order
            assert forall|x: int, y: int|
                0 <= x < y < nv.len() implies lex_leq(nv[x].1, nv[y].1) by {
                if y < k {
                } else if x < k && y == k {
                    assert(nv[x] == ov[x]);
                    assert(nv[y] == itv);
                } else if x < k && y > k {
                    assert(nv[x] == ov[x]);
                    assert(nv[y] == ov[y - 1]);
                    if x < y - 1 {
                    } else {
                        assert(false);
                    }
                } else if x == k && y > k {
                    assert(nv[x] == itv);
                    assert(nv[y] == ov[y - 1]);
                    assert(lex_leq(itv.1, ov[k as int].1));
                    if y - 1 > k {
                        lemma_lex_trans(itv.1, ov[k as int].1, ov[y - 1].1);
                    }
                } else {
                    assert(nv[x] == ov[x - 1]);
                    assert(nv[y] == ov[y - 1]);
                }
            }
            // the new list holds exactly one more copy of the inserted entry
            assert(iv.take(i + 1).drop_last() =~= iv.take(i as int));
            assert(iv.take(i + 1) =~= iv.take(i as int).push(iv[i as int]));
            assert(iv.take(i as int).push(iv[i as int]).to_multiset() == iv.take(
                i as int,
            ).to_multiset().insert(iv[i as int]));
            assert(nv.to_multiset() == ov.to_multiset().insert(itv));
        }
        i = i + 1;
    }
    proof {
        assert(iv.take(input@.len() as int) =~= iv);
    }
    out
}

} // verus!
