//! The commit-graph store, modelled as plain data.
//!
//! A commit id is an index into the append-only object database `commits`.
//! Branches are named movable pointers, at most one per version; the remote
//! mirror, when configured, is a second set of such pointers whose targets
//! are objects already fetched into the database.  The movable
//! `versions/latest` pointer is a field of its own.
//!
//! Every operation states exactly how it changes the store's abstraction,
//! [`StoreModel`]: a map from version to branch target on each side, the
//! commit sequence, and the two latest pointers.

use vstd::prelude::*;

use crate::semver::SemVer;

verus! {

/// A commit: an immutable snapshot plus parent linkage.  `tree` identifies
/// the snapshot's content (what the transform collaborator produced) and
/// `version` is the version its marker file records.  A commit has one
/// parent, or none when it starts a lineage.
#[derive(Clone, Copy, Debug)]
pub struct CommitNode {
    pub parent: Option<usize>,
    pub tree: u64,
    pub version: SemVer,
}

/// A named movable branch pointer for one version.
#[derive(Clone, Copy, Debug)]
pub struct VersionBranch {
    pub version: SemVer,
    pub target: usize,
}

/// The store: object database, local branches, optional remote mirror,
/// and the `versions/latest` pointers on both sides.
pub struct ChainStore {
    pub commits: Vec<CommitNode>,
    pub local: Vec<VersionBranch>,
    pub has_remote: bool,
    pub remote: Vec<VersionBranch>,
    pub latest: Option<usize>,
    pub remote_latest: Option<usize>,
}

/// The store's abstraction: branch sets as maps from version to target.
#[verifier::ext_equal]
pub struct StoreModel {
    pub commits: Seq<CommitNode>,
    pub local: Map<SemVer, usize>,
    pub has_remote: bool,
    pub remote: Map<SemVer, usize>,
    pub latest: Option<usize>,
    pub remote_latest: Option<usize>,
}

/// The first branch for `v` in the list, if any.
pub open spec fn lookup(s: Seq<VersionBranch>, v: SemVer) -> Option<usize>
    decreases s.len(),
{
    if s.len() == 0 {
        None
    } else if s.first().version == v {
        Some(s.first().target)
    } else {
        lookup(s.drop_first(), v)
    }
}

/// The branch list as a map from version to target.
pub open spec fn branches_map(s: Seq<VersionBranch>) -> Map<SemVer, usize> {
    Map::new(|v: SemVer| lookup(s, v) is Some, |v: SemVer| lookup(s, v).unwrap())
}

/// Each commit's parent precedes it in the object database.
pub open spec fn parents_precede(commits: Seq<CommitNode>) -> bool {
    forall|i: int|
        0 <= i < commits.len() ==> match (#[trigger] commits[i]).parent {
            Some(p) => p < i,
            None => true,
        }
}

/// Branch targets stay inside the object database, and versions are unique.
pub open spec fn branches_wf(s: Seq<VersionBranch>, n: int) -> bool {
    &&& forall|i: int| 0 <= i < s.len() ==> (#[trigger] s[i]).target < n
    &&& forall|i: int, j: int| 0 <= i < j < s.len() ==> s[i].version != s[j].version
}

/// Whether `anc` is reachable from `desc` along parent links (a commit is an
/// ancestor of itself).
#[verifier::opaque]
pub open spec fn reachable(commits: Seq<CommitNode>, anc: int, desc: int) -> bool
    decreases desc,
    when parents_precede(commits) && 0 <= desc < commits.len()
{
    if anc == desc {
        true
    } else {
        match commits[desc].parent {
            Some(p) => reachable(commits, anc, p as int),
            None => false,
        }
    }
}

/// A version is absent from a branch list exactly when no entry names it.
proof fn lemma_lookup_absent(s: Seq<VersionBranch>, v: SemVer)
    ensures
        (lookup(s, v) is None) <==> (forall|k: int| 0 <= k < s.len() ==> (#[trigger] s[k]).version
            != v),
    decreases s.len(),
{
    if s.len() > 0 {
        lemma_lookup_absent(s.drop_first(), v);
        if lookup(s, v) is None {
            assert forall|k: int| 0 <= k < s.len() implies (#[trigger] s[k]).version != v by {
                if k == 0 {
                    assert(s[0] == s.first());
                } else {
                    assert(s[k] == s.drop_first()[k - 1]);
                }
            }
        }
        if forall|k: int| 0 <= k < s.len() ==> (#[trigger] s[k]).version != v {
            assert(s[0].version != v);
            assert forall|k: int|
                0 <= k < s.drop_first().len() implies (#[trigger] s.drop_first()[k]).version
                != v by {
                assert(s.drop_first()[k] == s[k + 1]);
            }
            assert(lookup(s.drop_first(), v) is None);
        }
    }
}

/// A successful lookup returns the target of some entry for that version.
proof fn lemma_lookup_in(s: Seq<VersionBranch>, v: SemVer)
    requires
        lookup(s, v) is Some,
    ensures
        exists|i: int|
            0 <= i < s.len() && (#[trigger] s[i]).version == v && s[i].target == lookup(
                s,
                v,
            ).unwrap(),
    decreases s.len(),
{
    if s.first().version == v {
        assert(s[0].version == v && s[0].target == lookup(s, v).unwrap());
    } else {
        lemma_lookup_in(s.drop_first(), v);
        let i = choose|i: int|
            0 <= i < s.drop_first().len() && (#[trigger] s.drop_first()[i]).version == v
                && s.drop_first()[i].target == lookup(s.drop_first(), v).unwrap();
        assert(s[i + 1] == s.drop_first()[i]);
    }
}

/// The first entry for a version decides the lookup.
proof fn lemma_lookup_at(s: Seq<VersionBranch>, i: int)
    requires
        0 <= i < s.len(),
        forall|k: int| 0 <= k < i ==> (#[trigger] s[k]).version != s[i].version,
    ensures
        lookup(s, s[i].version) == Some(s[i].target),
    decreases i,
{
    if i > 0 {
        assert(s.drop_first()[i - 1] == s[i]);
        assert(forall|k: int|
            0 <= k < i - 1 ==> #[trigger] s.drop_first()[k] == s[k + 1]);
        lemma_lookup_at(s.drop_first(), i - 1);
    }
}

/// Removing the only entry for a version removes that version and nothing
/// else.
proof fn lemma_lookup_remove(s: Seq<VersionBranch>, i: int)
    requires
        0 <= i < s.len(),
        forall|k: int|
            0 <= k < s.len() && k != i ==> (#[trigger] s[k]).version != s[i].version,
    ensures
        lookup(s.remove(i), s[i].version) is None,
        forall|w: SemVer| w != s[i].version ==> lookup(s.remove(i), w) == lookup(s, w),
    decreases s.len(),
{
    let t = s.remove(i);
    assert forall|k: int| 0 <= k < t.len() implies (#[trigger] t[k]).version != s[i].version by {
        if k < i {
            assert(t[k] == s[k]);
        } else {
            assert(t[k] == s[k + 1]);
        }
    }
    lemma_lookup_absent(t, s[i].version);
    if i == 0 {
        assert(t =~= s.drop_first());
        assert forall|w: SemVer| w != s[i].version implies lookup(t, w) == lookup(s, w) by {
            assert(s.first().version == s[0].version);
        }
    } else {
        assert(t.first() == s.first());
        assert(t.drop_first() =~= s.drop_first().remove(i - 1));
        assert(s.drop_first()[i - 1] == s[i]);
        assert forall|k: int|
            0 <= k < s.drop_first().len() && k != i - 1 implies (#[trigger] s.drop_first()[
            k]).version != s.drop_first()[i - 1].version by {
            assert(s.drop_first()[k] == s[k + 1]);
        }
        lemma_lookup_remove(s.drop_first(), i - 1);
        assert forall|w: SemVer| w != s[i].version implies lookup(t, w) == lookup(s, w) by {
            if s.first().version == w {
            } else {
                assert(lookup(t, w) == lookup(t.drop_first(), w));
                assert(lookup(s, w) == lookup(s.drop_first(), w));
                assert(lookup(t.drop_first(), w) == lookup(s.drop_first().remove(i - 1), w));
                assert(lookup(s.drop_first().remove(i - 1), w) == lookup(s.drop_first(), w));
            }
        }
    }
}

/// Appending a branch binds its version only where it was absent.
proof fn lemma_lookup_push(s: Seq<VersionBranch>, b: VersionBranch)
    ensures
        forall|w: SemVer| #[trigger]
            lookup(s.push(b), w) == if lookup(s, w) is Some {
                lookup(s, w)
            } else if w == b.version {
                Some(b.target)
            } else {
                None
            },
    decreases s.len(),
{
    if s.len() == 0 {
        assert(s.push(b).drop_first() =~= Seq::<VersionBranch>::empty());
        assert(s.push(b).first() == b);
        assert forall|w: SemVer| #[trigger]
            lookup(s.push(b), w) == if lookup(s, w) is Some {
                lookup(s, w)
            } else if w == b.version {
                Some(b.target)
            } else {
                None
            } by {
            assert(lookup(s, w) is None);
            if w != b.version {
                assert(lookup(s.push(b), w) == lookup(s.push(b).drop_first(), w));
            }
        }
    } else {
        assert(s.push(b).first() == s.first());
        assert(s.push(b).drop_first() =~= s.drop_first().push(b));
        lemma_lookup_push(s.drop_first(), b);
        assert forall|w: SemVer| #[trigger]
            lookup(s.push(b), w) == if lookup(s, w) is Some {
                lookup(s, w)
            } else if w == b.version {
                Some(b.target)
            } else {
                None
            } by {
            if s.first().version == w {
            } else {
                assert(lookup(s.push(b), w) == lookup(s.drop_first().push(b), w));
                assert(lookup(s, w) == lookup(s.drop_first(), w));
            }
        }
    }
}

/// The index of the first branch for `v`, if any.
fn branch_index(s: &Vec<VersionBranch>, v: &SemVer) -> (r: Option<usize>)
    ensures
        match r {
            Some(i) => i < s@.len() && s@[i as int].version == *v && (forall|k: int|
                0 <= k < i ==> (#[trigger] s@[k]).version != *v),
            None => forall|k: int| 0 <= k < s@.len() ==> (#[trigger] s@[k]).version != *v,
        },
{
    let mut i: usize = 0;
    while i < s.len()
        invariant
            0 <= i <= s@.len(),
            forall|k: int| 0 <= k < i ==> (#[trigger] s@[k]).version != *v,
        decreases s@.len() - i,
    {
        if s[i].version == *v {
            return Some(i);
        }
        i = i + 1;
    }
    None
}

/// The target of the first branch for `v`, if any.
fn branch_target(s: &Vec<VersionBranch>, v: &SemVer) -> (r: Option<usize>)
    ensures
        r == lookup(s@, *v),
{
    match branch_index(s, v) {
        Some(i) => {
            proof {
                lemma_lookup_at(s@, i as int);
            }
            Some(s[i].target)
        },
        None => {
            proof {
                lemma_lookup_absent(s@, *v);
            }
            None
        },
    }
}

/// Deletes every binding for `v` (there is at most one).
fn vec_delete_branch(s: &mut Vec<VersionBranch>, v: &SemVer)
    requires
        forall|i: int, j: int|
            0 <= i < j < old(s)@.len() ==> old(s)@[i].version != old(s)@[j].version,
    ensures
        lookup(final(s)@, *v) is None,
        forall|w: SemVer| w != *v ==> lookup(final(s)@, w) == lookup(old(s)@, w),
        forall|i: int, j: int|
            0 <= i < j < final(s)@.len() ==> final(s)@[i].version != final(s)@[j].version,
        forall|i: int| 0 <= i < final(s)@.len() ==> old(s)@.contains(#[trigger] final(s)@[i]),
{
    match branch_index(s, v) {
        Some(i) => {
            proof {
                lemma_lookup_remove(s@, i as int);
            }
            let ghost s0 = s@;
            s.remove(i);
            proof {
                assert(forall|k: int| 0 <= k < i ==> final(s)@[k] == s0[k]);
                assert(forall|k: int|
                    i <= k < final(s)@.len() ==> final(s)@[k] == s0[k + 1]);
                assert(forall|k: int|
                    0 <= k < final(s)@.len() ==> s0.contains(#[trigger] final(s)@[k])) by {
                    assert(forall|k: int|
                        0 <= k < final(s)@.len() ==> #[trigger] final(s)@[k] == s0[
                            if k < i {
                                k
                            } else {
                                k + 1
                            }
                        ]);
                }
            }
        },
        None => {
            proof {
                lemma_lookup_absent(s@, *v);
                assert(forall|i: int|
                    0 <= i < s@.len() ==> s@.contains(#[trigger] s@[i]));
            }
        },
    }
}

impl View for ChainStore {
    type V = StoreModel;

    open spec fn view(&self) -> StoreModel {
        StoreModel {
            commits: self.commits@,
            local: branches_map(self.local@),
            has_remote: self.has_remote,
            remote: branches_map(self.remote@),
            latest: self.latest,
            remote_latest: self.remote_latest,
        }
    }
}

impl StoreModel {
    /// The remote branch for `v`, or nothing when no remote is configured.
    pub open spec fn remote_target(self, v: SemVer) -> Option<usize> {
        if self.has_remote && self.remote.contains_key(v) {
            Some(self.remote[v])
        } else {
            None
        }
    }

    pub open spec fn wf(self) -> bool {
        &&& parents_precede(self.commits)
        &&& forall|v: SemVer| self.local.contains_key(v) ==> (#[trigger] self.local[v]) < self.commits.len()
        &&& forall|v: SemVer|
            self.remote.contains_key(v) ==> (#[trigger] self.remote[v]) < self.commits.len()
        &&& !self.has_remote ==> self.remote == Map::<SemVer, usize>::empty()
        &&& match self.latest {
            Some(c) => c < self.commits.len(),
            None => true,
        }
        &&& match self.remote_latest {
            Some(c) => c < self.commits.len(),
            None => true,
        }
    }
}

impl ChainStore {
    pub open spec fn wf(&self) -> bool {
        &&& parents_precede(self.commits@)
        &&& branches_wf(self.local@, self.commits@.len() as int)
        &&& branches_wf(self.remote@, self.commits@.len() as int)
        &&& !self.has_remote ==> self.remote@.len() == 0
        &&& match self.latest {
            Some(c) => c < self.commits@.len(),
            None => true,
        }
        &&& match self.remote_latest {
            Some(c) => c < self.commits@.len(),
            None => true,
        }
    }

    /// An empty store, with or without a configured remote.
    pub fn new(has_remote: bool) -> (s: ChainStore)
        ensures
            s.wf(),
            s@ == (StoreModel {
                commits: Seq::empty(),
                local: Map::empty(),
                has_remote,
                remote: Map::empty(),
                latest: None,
                remote_latest: None,
            }),
    {
        let s = ChainStore {
            commits: Vec::new(),
            local: Vec::new(),
            has_remote,
            remote: Vec::new(),
            latest: None,
            remote_latest: None,
        };
        proof {
            assert(s@.local =~= Map::<SemVer, usize>::empty());
            assert(s@.remote =~= Map::<SemVer, usize>::empty());
            assert(s@ =~= (StoreModel {
                commits: Seq::empty(),
                local: Map::empty(),
                has_remote,
                remote: Map::empty(),
                latest: None,
                remote_latest: None,
            }));
        }
        s
    }

    /// A well-formed store has a well-formed abstraction.
    pub proof fn view_wf(&self)
        requires
            self.wf(),
        ensures
            self@.wf(),
    {
        assert forall|v: SemVer| self@.local.contains_key(v) implies (#[trigger] self@.local[v])
            < self@.commits.len() by {
            lemma_lookup_in(self.local@, v);
            let i = choose|i: int|
                0 <= i < self.local@.len() && (#[trigger] self.local@[i]).version == v
                    && self.local@[i].target == lookup(self.local@, v).unwrap();
        }
        assert forall|v: SemVer| self@.remote.contains_key(v) implies (#[trigger] self@.remote[v])
            < self@.commits.len() by {
            lemma_lookup_in(self.remote@, v);
            let i = choose|i: int|
                0 <= i < self.remote@.len() && (#[trigger] self.remote@[i]).version == v
                    && self.remote@[i].target == lookup(self.remote@, v).unwrap();
        }
        if !self.has_remote {
            assert forall|v: SemVer| !(#[trigger] self@.remote.contains_key(v)) by {
                lemma_lookup_absent(self.remote@, v);
            }
            assert(self@.remote =~= Map::<SemVer, usize>::empty());
        }
    }

    /// Reads the local branch for `v`.
    pub fn find_local(&self, v: &SemVer) -> (r: Option<usize>)
        ensures
            r == if self@.local.contains_key(*v) {
                Some(self@.local[*v])
            } else {
                None
            },
    {
        branch_target(&self.local, v)
    }

    /// Reads the remote branch for `v`; nothing when no remote is configured.
    pub fn find_remote(&self, v: &SemVer) -> (r: Option<usize>)
        ensures
            r == self@.remote_target(*v),
    {
        if self.has_remote {
            branch_target(&self.remote, v)
        } else {
            None
        }
    }

    /// Decides whether `anc` is an ancestor of `desc` (a commit counts as its
    /// own ancestor), by walking parent links.
    pub fn is_ancestor(&self, anc: usize, desc: usize) -> (r: bool)
        requires
            self.wf(),
            anc < self.commits@.len(),
            desc < self.commits@.len(),
        ensures
            r == reachable(self@.commits, anc as int, desc as int),
    {
        let mut cur = desc;
        proof {
            reveal(reachable);
        }
        loop
            invariant
                self.wf(),
                anc < self.commits@.len(),
                cur < self.commits@.len(),
                reachable(self.commits@, anc as int, desc as int) == reachable(
                    self.commits@,
                    anc as int,
                    cur as int,
                ),
            decreases cur,
        {
            proof {
                reveal(reachable);
            }
            if cur == anc {
                return true;
            }
            match self.commits[cur].parent {
                Some(p) => {
                    proof {
                        assert(p < cur);
                    }
                    cur = p;
                },
                None => {
                    return false;
                },
            }
        }
    }

    /// Deletes the branch for `v`, if it exists.
    pub fn delete_local_branch(&mut self, v: &SemVer)
        requires
            old(self).wf(),
        ensures
            final(self).wf(),
            final(self)@ == (StoreModel { local: old(self)@.local.remove(*v), ..old(self)@ }),
    {
        vec_delete_branch(&mut self.local, v);
        proof {
            assert(branches_map(self.local@) =~= old(self)@.local.remove(*v));
            assert(self@ =~= (StoreModel { local: old(self)@.local.remove(*v), ..old(self)@ }));
            assert forall|i: int| 0 <= i < self.local@.len() implies (#[trigger] self.local@[
            i]).target < self.commits@.len() by {
                let j = choose|j: int|
                    0 <= j < old(self).local@.len() && old(self).local@[j] == self.local@[i];
            }
        }
    }

    /// Creates or moves the branch for `v` so that it targets `target`.
    /// (A branch is deleted and recreated rather than retargeted in place;
    /// for the pointer itself the two are the same.)
    pub fn set_local_branch(&mut self, v: &SemVer, target: usize)
        requires
            old(self).wf(),
            target < old(self).commits@.len(),
        ensures
            final(self).wf(),
            final(self)@ == (StoreModel {
                local: old(self)@.local.insert(*v, target),
                ..old(self)@
            }),
    {
        vec_delete_branch(&mut self.local, v);
        let ghost deleted = self.local@;
        proof {
            lemma_lookup_push(deleted, VersionBranch { version: *v, target });
            lemma_lookup_absent(deleted, *v);
        }
        self.local.push(VersionBranch { version: *v, target });
        proof {
            assert(branches_map(self.local@) =~= old(self)@.local.insert(*v, target));
            assert(self@ =~= (StoreModel {
                local: old(self)@.local.insert(*v, target),
                ..old(self)@
            }));
            assert forall|i: int, j: int|
                0 <= i < j < self.local@.len() implies self.local@[i].version != self.local@[
            j].version by {
                if j < deleted.len() {
                    assert(self.local@[i] == deleted[i] && self.local@[j] == deleted[j]);
                } else {
                    assert(self.local@[i] == deleted[i]);
                    assert(deleted[i].version != *v);
                }
            }
            assert forall|i: int| 0 <= i < self.local@.len() implies (#[trigger] self.local@[
            i]).target < self.commits@.len() by {
                if i < deleted.len() {
                    assert(self.local@[i] == deleted[i]);
                    let j = choose|j: int|
                        0 <= j < old(self).local@.len() && old(self).local@[j] == deleted[i];
                }
            }
        }
    }

    /// Writes a snapshot commit: the given content, the marker for
    /// `version`, and exactly the intended parent.  Returns the new commit's
    /// id.  Branches and pointers are untouched.
    pub fn commit_snapshot(&mut self, parent: Option<usize>, tree: u64, version: SemVer) -> (id:
        usize)
        requires
            old(self).wf(),
            match parent {
                Some(p) => p < old(self).commits@.len(),
                None => true,
            },
        ensures
            final(self).wf(),
            id == old(self).commits@.len(),
            final(self)@ == (StoreModel {
                commits: old(self)@.commits.push(CommitNode { parent, tree, version }),
                ..old(self)@
            }),
    {
        let id = self.commits.len();
        let node = CommitNode { parent, tree, version };
        self.commits.push(node);
        proof {
            assert(self@ =~= (StoreModel {
                commits: old(self)@.commits.push(node),
                ..old(self)@
            }));
            assert forall|i: int|
                0 <= i < self.commits@.len() implies match (#[trigger] self.commits@[i]).parent {
                Some(p) => p < i,
                None => true,
            } by {
                if i < old(self).commits@.len() {
                    assert(self.commits@[i] == old(self).commits@[i]);
                } else {
                    assert(self.commits@[i] == node);
                }
            }
        }
        id
    }

    /// Moves the `versions/latest` pointer.
    pub fn set_latest(&mut self, commit: usize)
        requires
            old(self).wf(),
            commit < old(self).commits@.len(),
        ensures
            final(self).wf(),
            final(self)@ == (StoreModel { latest: Some(commit), ..old(self)@ }),
    {
        self.latest = Some(commit);
        proof {
            assert(self@ =~= (StoreModel { latest: Some(commit), ..old(self)@ }));
        }
    }

    /// Records what a fetch of the remote's refs showed: the remote has a
    /// branch for `v` targeting `target`, an object that the fetch brought
    /// into the database.  Without a configured remote this is a no-op.
    pub fn record_remote_branch(&mut self, v: &SemVer, target: usize)
        requires
            old(self).wf(),
            target < old(self).commits@.len(),
        ensures
            final(self).wf(),
            final(self)@ == (StoreModel {
                remote: if old(self).has_remote {
                    old(self)@.remote.insert(*v, target)
                } else {
                    old(self)@.remote
                },
                ..old(self)@
            }),
    {
        if self.has_remote {
            vec_delete_branch(&mut self.remote, v);
            let ghost deleted = self.remote@;
            proof {
                lemma_lookup_push(deleted, VersionBranch { version: *v, target });
                lemma_lookup_absent(deleted, *v);
            }
            self.remote.push(VersionBranch { version: *v, target });
            proof {
                assert(branches_map(self.remote@) =~= old(self)@.remote.insert(*v, target));
                assert(self@ =~= (StoreModel {
                    remote: old(self)@.remote.insert(*v, target),
                    ..old(self)@
                }));
                assert forall|i: int, j: int|
                    0 <= i < j < self.remote@.len() implies self.remote@[i].version
                    != self.remote@[j].version by {
                    if j < deleted.len() {
                        assert(self.remote@[i] == deleted[i] && self.remote@[j] == deleted[j]);
                    } else {
                        assert(self.remote@[i] == deleted[i]);
                        assert(deleted[i].version != *v);
                    }
                }
                assert forall|i: int| 0 <= i < self.remote@.len() implies (
                #[trigger] self.remote@[i]).target < self.commits@.len() by {
                    if i < deleted.len() {
                        assert(self.remote@[i] == deleted[i]);
                        let j = choose|j: int|
                            0 <= j < old(self).remote@.len() && old(self).remote@[j] == deleted[i];
                    }
                }
            }
        } else {
            proof {
                assert(self@ =~= (StoreModel { ..old(self)@ }));
            }
        }
    }

    /// Mirrors the branch for `v` to the remote.  `delivered` is the outcome
    /// of the transfer: a failed push leaves the mirror as it was, and is
    /// never an error — the local store stays authoritative.  Without a
    /// configured remote this is a no-op.
    pub fn mirror_branch(&mut self, v: &SemVer, delivered: bool)
        requires
            old(self).wf(),
            old(self)@.local.contains_key(*v),
        ensures
            final(self).wf(),
            final(self)@ == (StoreModel {
                remote: if old(self).has_remote && delivered {
                    old(self)@.remote.insert(*v, old(self)@.local[*v])
                } else {
                    old(self)@.remote
                },
                ..old(self)@
            }),
    {
        if self.has_remote && delivered {
            let target = match branch_target(&self.local, v) {
                Some(t) => t,
                None => {
                    proof {
                        assert(false);
                    }
                    0
                },
            };
            proof {
                lemma_lookup_in(old(self).local@, *v);
            }
            vec_delete_branch(&mut self.remote, v);
            let ghost deleted = self.remote@;
            proof {
                lemma_lookup_push(deleted, VersionBranch { version: *v, target });
                lemma_lookup_absent(deleted, *v);
            }
            self.remote.push(VersionBranch { version: *v, target });
            proof {
                assert(branches_map(self.remote@) =~= old(self)@.remote.insert(*v, target));
                assert(self@ =~= (StoreModel {
                    remote: old(self)@.remote.insert(*v, target),
                    ..old(self)@
                }));
                assert forall|i: int, j: int|
                    0 <= i < j < self.remote@.len() implies self.remote@[i].version
                    != self.remote@[j].version by {
                    if j < deleted.len() {
                        assert(self.remote@[i] == deleted[i] && self.remote@[j] == deleted[j]);
                    } else {
                        assert(self.remote@[i] == deleted[i]);
                        assert(deleted[i].version != *v);
                    }
                }
                assert forall|i: int| 0 <= i < self.remote@.len() implies (
                #[trigger] self.remote@[i]).target < self.commits@.len() by {
                    if i < deleted.len() {
                        assert(self.remote@[i] == deleted[i]);
                        let j = choose|j: int|
                            0 <= j < old(self).remote@.len() && old(self).remote@[j] == deleted[i];
                    }
                }
            }
        } else {
            proof {
                assert(self@ =~= (StoreModel { ..old(self)@ }));
            }
        }
    }

    /// Mirrors the `versions/latest` pointer to the remote, with the same
    /// best-effort policy as [`ChainStore::mirror_branch`].
    pub fn mirror_latest(&mut self, delivered: bool)
        requires
            old(self).wf(),
            old(self).latest is Some,
        ensures
            final(self).wf(),
            final(self)@ == (StoreModel {
                remote_latest: if old(self).has_remote && delivered {
                    old(self).latest
                } else {
                    old(self).remote_latest
                },
                ..old(self)@
            }),
    {
        if self.has_remote && delivered {
            self.remote_latest = self.latest;
            proof {
                assert(self@ =~= (StoreModel { remote_latest: old(self).latest, ..old(self)@ }));
            }
        } else {
            proof {
                assert(self@ =~= (StoreModel { ..old(self)@ }));
            }
        }
    }
}

} // verus!
