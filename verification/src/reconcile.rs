//! The reconciler: the version-lineage reconciliation and branch-chain
//! rebuild pass.
//!
//! A pass walks the manifest in declared order, never in sorted order.  For
//! each entry it decides: a version with a local branch is taken as it is; a
//! version whose local branch is stale against a fast-forwardable remote
//! branch — and one with no local branch at all — is fast-forwarded to the
//! remote commit; anything else is built from scratch, chained to the commit
//! of the entry processed immediately before.  A collaborator failure aborts
//! the rest of the pass, so no gap is ever committed into the chain.  After a
//! complete pass the `versions/latest` pointer moves to the last recorded
//! commit.
//!
//! When a local branch and a remote branch for the same version have truly
//! diverged (neither is an ancestor of the other), the local branch wins:
//! the local store is authoritative, the remote is a mirror.
//!
//! The fetch and transform collaborators run outside the library; a pass
//! takes their outcomes as input, one per manifest entry, and is verified
//! for every value of them.

use vstd::prelude::*;

use crate::manifest::VersionsFile;
use crate::semver::SemVer;
use crate::store::{reachable, ChainStore, CommitNode, StoreModel};

verus! {

/// The externally observed outcome of building one version: whether the
/// fetch and the transform collaborators succeeded, the content identifier
/// the transform produced, and whether the push of the new branch was
/// delivered to the remote.
#[derive(Clone, Copy, Debug, PartialEq, Eq, Structural)]
pub struct BuildOutcome {
    pub fetch_ok: bool,
    pub transform_ok: bool,
    pub content: u64,
    pub push_ok: bool,
}

/// How one manifest entry was reconciled.
#[derive(Clone, Copy, Debug, PartialEq, Eq, Structural)]
pub enum Disposition {
    /// A local branch already existed and was kept.
    UsedLocal,
    /// The local branch was created or moved to the remote's commit, with no
    /// build.
    FastForwarded,
    /// A fresh snapshot commit was built.
    Built,
}

/// One line of a run's record: a manifest entry's version, the commit its
/// branch targets after the step, and how it got there.
#[derive(Clone, Copy, Debug, PartialEq, Eq, Structural)]
pub struct ProcEntry {
    pub version: SemVer,
    pub commit: usize,
    pub disposition: Disposition,
}

/// Which collaborator failed a build.
#[derive(Clone, Copy, Debug, PartialEq, Eq, Structural)]
pub enum CollabFailure {
    Fetch,
    Transform,
}

/// A failed run: which manifest entry failed and how.  The pass stops there,
/// so no later entry has been touched.
#[derive(Clone, Copy, Debug, PartialEq, Eq, Structural)]
pub struct ReconcileError {
    pub index: usize,
    pub version: SemVer,
    pub failure: CollabFailure,
}

/// What a pass decides to do with one manifest entry.
#[derive(Clone, Copy, Debug, PartialEq, Eq, Structural)]
pub enum Action {
    UseLocal { commit: usize },
    FastForward { commit: usize },
    BuildNew,
}

/// The decision for one version against the current store state.
pub open spec fn spec_classify(s: StoreModel, v: SemVer) -> Action {
    if s.local.contains_key(v) {
        match s.remote_target(v) {
            Some(rc) => if rc != s.local[v] && reachable(
                s.commits,
                s.local[v] as int,
                rc as int,
            ) {
                Action::FastForward { commit: rc }
            } else {
                Action::UseLocal { commit: s.local[v] }
            },
            None => Action::UseLocal { commit: s.local[v] },
        }
    } else {
        match s.remote_target(v) {
            Some(rc) => Action::FastForward { commit: rc },
            None => Action::BuildNew,
        }
    }
}

/// What building one version does to the store: the stale branch goes away
/// first; a collaborator failure leaves it at that; otherwise a fresh commit
/// with exactly the intended parent is appended, the branch is recreated on
/// it, and a delivered push mirrors the branch to the remote.
pub open spec fn spec_build(
    s: StoreModel,
    v: SemVer,
    parent: Option<usize>,
    o: BuildOutcome,
) -> (StoreModel, Result<usize, CollabFailure>) {
    let s1 = StoreModel { local: s.local.remove(v), ..s };
    if !o.fetch_ok {
        (s1, Err(CollabFailure::Fetch))
    } else if !o.transform_ok {
        (s1, Err(CollabFailure::Transform))
    } else {
        let id = s1.commits.len() as usize;
        let s2 = StoreModel {
            commits: s1.commits.push(CommitNode { parent, tree: o.content, version: v }),
            local: s1.local.insert(v, id),
            remote: if s1.has_remote && o.push_ok {
                s1.remote.insert(v, id)
            } else {
                s1.remote
            },
            ..s1
        };
        (s2, Ok(id))
    }
}

/// One step of a pass: classify the entry, then take it as it is,
/// fast-forward it, or build it on `parent`.
pub open spec fn spec_step(
    s: StoreModel,
    v: SemVer,
    parent: Option<usize>,
    o: BuildOutcome,
) -> (StoreModel, Result<(usize, Disposition), CollabFailure>) {
    match spec_classify(s, v) {
        Action::UseLocal { commit } => (s, Ok((commit, Disposition::UsedLocal))),
        Action::FastForward { commit } => (
            StoreModel { local: s.local.insert(v, commit), ..s },
            Ok((commit, Disposition::FastForwarded)),
        ),
        Action::BuildNew => {
            let (s2, r) = spec_build(s, v, parent, o);
            match r {
                Ok(id) => (s2, Ok((id, Disposition::Built))),
                Err(f) => (s2, Err(f)),
            }
        },
    }
}

/// The first `i` steps of a pass over `versions`, threading the store state
/// and the record of processed entries; the parent of a built commit is the
/// commit recorded for the entry immediately before.  The first failure
/// stops the pass.
pub open spec fn spec_run_prefix(
    s: StoreModel,
    versions: Seq<SemVer>,
    outcomes: Seq<BuildOutcome>,
    i: int,
) -> (StoreModel, Result<Seq<ProcEntry>, ReconcileError>)
    decreases i,
{
    if i <= 0 {
        (s, Ok(Seq::empty()))
    } else {
        let (s1, r1) = spec_run_prefix(s, versions, outcomes, i - 1);
        match r1 {
            Ok(entries) => {
                let parent = if entries.len() == 0 {
                    None
                } else {
                    Some(entries.last().commit)
                };
                let (s2, r2) = spec_step(s1, versions[i - 1], parent, outcomes[i - 1]);
                match r2 {
                    Ok(cd) => (
                        s2,
                        Ok(
                            entries.push(
                                ProcEntry {
                                    version: versions[i - 1],
                                    commit: cd.0,
                                    disposition: cd.1,
                                },
                            ),
                        ),
                    ),
                    Err(f) => (
                        s2,
                        Err(
                            ReconcileError {
                                index: (i - 1) as usize,
                                version: versions[i - 1],
                                failure: f,
                            },
                        ),
                    ),
                }
            },
            Err(e) => (s1, Err(e)),
        }
    }
}

/// A whole pass: every manifest entry in declared order, then — on success
/// with at least one entry — the `versions/latest` pointer moves to the last
/// recorded commit and is mirrored if its push was delivered.
pub open spec fn spec_reconcile(
    s: StoreModel,
    versions: Seq<SemVer>,
    outcomes: Seq<BuildOutcome>,
    latest_push: bool,
) -> (StoreModel, Result<Seq<ProcEntry>, ReconcileError>) {
    let pr = spec_run_prefix(s, versions, outcomes, versions.len() as int);
    match pr.1 {
        Ok(entries) => if entries.len() > 0 {
            let c = entries.last().commit;
            let s2 = StoreModel {
                latest: Some(c),
                remote_latest: if pr.0.has_remote && latest_push {
                    Some(c)
                } else {
                    pr.0.remote_latest
                },
                ..pr.0
            };
            (s2, Ok(entries))
        } else {
            (pr.0, Ok(entries))
        },
        Err(e) => (pr.0, Err(e)),
    }
}

/// The position of the first occurrence of `v` in `s`.
pub open spec fn first_index(s: Seq<SemVer>, v: SemVer) -> int
    decreases s.len(),
{
    if s.len() == 0 {
        0
    } else if s.first() == v {
        0
    } else {
        1 + first_index(s.drop_first(), v)
    }
}

proof fn lemma_first_index_at(s: Seq<SemVer>, v: SemVer, j: int)
    requires
        0 <= j < s.len(),
        s[j] == v,
        forall|k: int| 0 <= k < j ==> s[k] != v,
    ensures
        first_index(s, v) == j,
    decreases j,
{
    if j > 0 {
        assert(s.drop_first()[j - 1] == s[j]);
        assert(forall|k: int| 0 <= k < j - 1 ==> #[trigger] s.drop_first()[k] == s[k + 1]);
        lemma_first_index_at(s.drop_first(), v, j - 1);
    }
}

/// The steps of a cascade over entries `start + 1 .. i`: every entry is
/// rebuilt, chained to the commit recorded for the entry before it
/// (`parent0` for the first).  The first failure stops the cascade.
pub open spec fn spec_cascade_prefix(
    s: StoreModel,
    versions: Seq<SemVer>,
    outcomes: Seq<BuildOutcome>,
    start: int,
    parent0: usize,
    i: int,
) -> (StoreModel, Result<Seq<ProcEntry>, ReconcileError>)
    decreases i - start,
{
    if i <= start + 1 {
        (s, Ok(Seq::empty()))
    } else {
        let (s1, r1) = spec_cascade_prefix(s, versions, outcomes, start, parent0, i - 1);
        match r1 {
            Ok(entries) => {
                let parent = if entries.len() == 0 {
                    parent0
                } else {
                    entries.last().commit
                };
                let (s2, r2) = spec_build(s1, versions[i - 1], Some(parent), outcomes[i - 1]);
                match r2 {
                    Ok(id) => (
                        s2,
                        Ok(
                            entries.push(
                                ProcEntry {
                                    version: versions[i - 1],
                                    commit: id,
                                    disposition: Disposition::Built,
                                },
                            ),
                        ),
                    ),
                    Err(f) => (
                        s2,
                        Err(
                            ReconcileError {
                                index: (i - 1) as usize,
                                version: versions[i - 1],
                                failure: f,
                            },
                        ),
                    ),
                }
            },
            Err(e) => (s1, Err(e)),
        }
    }
}

/// A whole cascade after the first occurrence of the spliced-in version:
/// every later manifest entry rebuilt in turn, the first chained to the
/// spliced version's own commit.
pub open spec fn spec_rebuild_tail(
    s: StoreModel,
    versions: Seq<SemVer>,
    outcomes: Seq<BuildOutcome>,
    from: SemVer,
) -> (StoreModel, Result<Seq<ProcEntry>, ReconcileError>) {
    spec_cascade_prefix(
        s,
        versions,
        outcomes,
        first_index(versions, from),
        s.local[from],
        versions.len() as int,
    )
}

/// Once a cascade prefix has failed, every longer prefix is the same failure
/// in the same state.
pub proof fn lemma_cascade_prefix_error_stable(
    s: StoreModel,
    versions: Seq<SemVer>,
    outcomes: Seq<BuildOutcome>,
    start: int,
    parent0: usize,
    i: int,
    j: int,
)
    requires
        start < i <= j,
        spec_cascade_prefix(s, versions, outcomes, start, parent0, i).1 is Err,
    ensures
        spec_cascade_prefix(s, versions, outcomes, start, parent0, j) == spec_cascade_prefix(
            s,
            versions,
            outcomes,
            start,
            parent0,
            i,
        ),
    decreases j - i,
{
    if j > i {
        lemma_cascade_prefix_error_stable(s, versions, outcomes, start, parent0, i, j - 1);
    }
}

/// Once a prefix has failed, every longer prefix is the same failure in the
/// same state.
pub proof fn lemma_run_prefix_error_stable(
    s: StoreModel,
    versions: Seq<SemVer>,
    outcomes: Seq<BuildOutcome>,
    i: int,
    j: int,
)
    requires
        0 <= i <= j,
        spec_run_prefix(s, versions, outcomes, i).1 is Err,
    ensures
        spec_run_prefix(s, versions, outcomes, j) == spec_run_prefix(s, versions, outcomes, i),
    decreases j - i,
{
    if j > i {
        lemma_run_prefix_error_stable(s, versions, outcomes, i, j - 1);
    }
}

/// Decides what a pass does with version `v` in the current state.
pub fn classify(store: &ChainStore, v: &SemVer) -> (a: Action)
    requires
        store.wf(),
    ensures
        a == spec_classify(store@, *v),
{
    proof {
        store.view_wf();
    }
    match store.find_local(v) {
        Some(lc) => {
            match store.find_remote(v) {
                Some(rc) => {
                    if rc != lc && store.is_ancestor(lc, rc) {
                        Action::FastForward { commit: rc }
                    } else {
                        Action::UseLocal { commit: lc }
                    }
                },
                None => Action::UseLocal { commit: lc },
            }
        },
        None => {
            match store.find_remote(v) {
                Some(rc) => Action::FastForward { commit: rc },
                None => Action::BuildNew,
            }
        },
    }
}

/// Builds one version's snapshot from scratch (the branch chain builder).
///
/// Any stale branch for `v` is deleted first, so the new commit is built
/// fresh rather than accreting onto old history.  The fetch and transform
/// collaborators run outside; their observed outcomes arrive in `outcome`,
/// and either failure aborts the build with the branch already gone.  On
/// success a snapshot commit is written with exactly the intended `parent`
/// (the commit of the predecessor's branch, resolved by the caller; none for
/// a lineage root), the branch is recreated on it, and the branch is pushed
/// to the remote — an undelivered push is tolerated, the local commit
/// stands.
pub fn build_version(
    store: &mut ChainStore,
    v: &SemVer,
    parent: Option<usize>,
    outcome: &BuildOutcome,
) -> (r: Result<usize, CollabFailure>)
    requires
        old(store).wf(),
        match parent {
            Some(p) => p < old(store).commits@.len(),
            None => true,
        },
    ensures
        final(store).wf(),
        ({
            let (s2, r2) = spec_build(old(store)@, *v, parent, *outcome);
            final(store)@ == s2 && r == r2
        }),
{
    store.delete_local_branch(v);
    if !outcome.fetch_ok {
        return Err(CollabFailure::Fetch);
    }
    if !outcome.transform_ok {
        return Err(CollabFailure::Transform);
    }
    let id = store.commit_snapshot(parent, outcome.content, *v);
    store.set_local_branch(v, id);
    store.mirror_branch(v, outcome.push_ok);
    proof {
        let (s2, r2) = spec_build(old(store)@, *v, parent, *outcome);
        assert(store@ =~= s2);
    }
    Ok(id)
}

/// One reconciliation pass: walks the manifest in declared order, takes,
/// fast-forwards or builds each entry, and finally moves `versions/latest`
/// to the last recorded commit.  `outcomes` gives the collaborator outcomes
/// for each entry (consulted only where the entry is built) and
/// `latest_push` whether the final push of `versions/latest` was delivered.
///
/// On success the record lists, for every manifest entry in order, the
/// commit its branch targets and how it got there.  On failure the record is
/// the failing entry's index and collaborator, the pass stopped there, and
/// every later entry is untouched.  The whole effect equals
/// [`spec_reconcile`] on the store's abstraction.
pub fn process_versions(
    store: &mut ChainStore,
    manifest: &VersionsFile,
    outcomes: &Vec<BuildOutcome>,
    latest_push: bool,
) -> (r: Result<Vec<ProcEntry>, ReconcileError>)
    requires
        old(store).wf(),
        outcomes@.len() == manifest.order().len(),
    ensures
        final(store).wf(),
        ({
            let (s2, r2) = spec_reconcile(old(store)@, manifest.order(), outcomes@, latest_push);
            final(store)@ == s2 && match (r, r2) {
                (Ok(es), Ok(ses)) => es@ == ses,
                (Err(e), Err(se)) => e == se,
                _ => false,
            }
        }),
{
    let ghost versions = manifest.order();
    let ghost s0 = store@;
    let n = manifest.versions.len();
    let mut entries: Vec<ProcEntry> = Vec::new();
    let mut last: Option<usize> = None;
    let mut i: usize = 0;
    while i < n
        invariant
            store.wf(),
            s0 == old(store)@,
            versions == manifest.order(),
            n == versions.len(),
            outcomes@.len() == versions.len(),
            0 <= i <= n,
            spec_run_prefix(s0, versions, outcomes@, i as int) == (store@, Ok::<
                Seq<ProcEntry>,
                ReconcileError,
            >(entries@)),
            last == (if entries@.len() == 0 {
                Option::<usize>::None
            } else {
                Some(entries@.last().commit)
            }),
            match last {
                Some(c) => c < store.commits@.len(),
                None => true,
            },
        decreases n - i,
    {
        let v = manifest.versions[i].version;
        proof {
            assert(versions[i as int] == v);
            store.view_wf();
        }
        let ghost s_before = store@;
        let ghost entries_before = entries@;
        let entry: ProcEntry;
        match classify(store, &v) {
            Action::UseLocal { commit } => {
                entry = ProcEntry { version: v, commit, disposition: Disposition::UsedLocal };
            },
            Action::FastForward { commit } => {
                store.set_local_branch(&v, commit);
                entry = ProcEntry { version: v, commit, disposition: Disposition::FastForwarded };
            },
            Action::BuildNew => {
                match build_version(store, &v, last, &outcomes[i]) {
                    Ok(id) => {
                        entry = ProcEntry { version: v, commit: id, disposition: Disposition::Built };
                    },
                    Err(f) => {
                        let e = ReconcileError { index: i, version: v, failure: f };
                        proof {
                            let stepped = spec_run_prefix(s0, versions, outcomes@, i + 1);
                            assert(stepped == (store@, Err::<Seq<ProcEntry>, ReconcileError>(e)));
                            lemma_run_prefix_error_stable(
                                s0,
                                versions,
                                outcomes@,
                                i + 1,
                                versions.len() as int,
                            );
                        }
                        return Err(e);
                    },
                }
            },
        }
        entries.push(entry);
        last = Some(entry.commit);
        proof {
            let stepped = spec_run_prefix(s0, versions, outcomes@, i + 1);
            assert(stepped == (store@, Ok::<Seq<ProcEntry>, ReconcileError>(entries@)));
        }
        i = i + 1;
    }
    match last {
        Some(c) => {
            store.set_latest(c);
            store.mirror_latest(latest_push);
            proof {
                let (s2, r2) = spec_reconcile(s0, versions, outcomes@, latest_push);
                assert(store@ =~= s2);
            }
        },
        None => {
            proof {
                assert(entries@.len() == 0);
            }
        },
    }
    Ok(entries)
}

/// The explicit cascade pass.  When a version is inserted into the manifest
/// ahead of entries that already have branches, a plain pass leaves those
/// entries alone; this pass relinks them.  It walks the manifest tail after
/// the first occurrence of `from` and rebuilds every entry in turn —
/// deleting its branch, building a fresh snapshot commit, recreating the
/// branch on it — chaining the first rebuilt entry to `from`'s own commit
/// and each next one to its rebuilt predecessor, so the lineage stays one
/// chain.  `versions/latest` is not touched; a following plain pass moves
/// it.
pub fn rebuild_tail(
    store: &mut ChainStore,
    manifest: &VersionsFile,
    from: &SemVer,
    outcomes: &Vec<BuildOutcome>,
) -> (r: Result<Vec<ProcEntry>, ReconcileError>)
    requires
        old(store).wf(),
        outcomes@.len() == manifest.order().len(),
        manifest.order().contains(*from),
        old(store)@.local.contains_key(*from),
    ensures
        final(store).wf(),
        ({
            let (s2, r2) = spec_rebuild_tail(old(store)@, manifest.order(), outcomes@, *from);
            final(store)@ == s2 && match (r, r2) {
                (Ok(es), Ok(ses)) => es@ == ses,
                (Err(e), Err(se)) => e == se,
                _ => false,
            }
        }),
{
    let ghost versions = manifest.order();
    let ghost s0 = store@;
    let n = manifest.versions.len();
    let mut start: usize = 0;
    while start < n && !(manifest.versions[start].version == *from)
        invariant
            0 <= start <= n,
            versions == manifest.order(),
            n == versions.len(),
            forall|k: int| 0 <= k < start ==> versions[k] != *from,
        decreases n - start,
    {
        start = start + 1;
    }
    proof {
        if start >= n {
            let k = choose|k: int| 0 <= k < versions.len() && versions[k] == *from;
            assert(false);
        }
        assert(versions[start as int] == manifest.versions@[start as int].version);
        lemma_first_index_at(versions, *from, start as int);
        store.view_wf();
    }
    let parent0 = match store.find_local(from) {
        Some(c) => c,
        None => {
            proof {
                assert(false);
            }
            0
        },
    };
    let mut entries: Vec<ProcEntry> = Vec::new();
    let mut parent: usize = parent0;
    let mut j: usize = start + 1;
    while j < n
        invariant
            store.wf(),
            s0 == old(store)@,
            versions == manifest.order(),
            n == versions.len(),
            outcomes@.len() == versions.len(),
            start < j <= n,
            first_index(versions, *from) == start as int,
            s0.local.contains_key(*from),
            parent0 == s0.local[*from],
            spec_cascade_prefix(s0, versions, outcomes@, start as int, parent0, j as int) == (
                store@,
                Ok::<Seq<ProcEntry>, ReconcileError>(entries@),
            ),
            parent == (if entries@.len() == 0 {
                parent0
            } else {
                entries@.last().commit
            }),
            parent < store.commits@.len(),
        decreases n - j,
    {
        let v = manifest.versions[j].version;
        proof {
            assert(versions[j as int] == v);
        }
        match build_version(store, &v, Some(parent), &outcomes[j]) {
            Ok(id) => {
                entries.push(ProcEntry { version: v, commit: id, disposition: Disposition::Built });
                parent = id;
            },
            Err(f) => {
                let e = ReconcileError { index: j, version: v, failure: f };
                proof {
                    assert(spec_cascade_prefix(
                        s0,
                        versions,
                        outcomes@,
                        start as int,
                        parent0,
                        j + 1,
                    ) == (store@, Err::<Seq<ProcEntry>, ReconcileError>(e)));
                    lemma_cascade_prefix_error_stable(
                        s0,
                        versions,
                        outcomes@,
                        start as int,
                        parent0,
                        j + 1,
                        n as int,
                    );
                }
                return Err(e);
            },
        }
        proof {
            assert(spec_cascade_prefix(s0, versions, outcomes@, start as int, parent0, j + 1) == (
                store@,
                Ok::<Seq<ProcEntry>, ReconcileError>(entries@),
            ));
        }
        j = j + 1;
    }
    Ok(entries)
}

} // verus!
