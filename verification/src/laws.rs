//! The laws of reconciliation, proved once and for all over the pass's
//! specification: idempotence, parent linkage, the `versions/latest`
//! pointer, fail-fast isolation, and the cascade's relinking.

use vstd::prelude::*;

use crate::reconcile::{
    first_index, spec_cascade_prefix, spec_classify, spec_rebuild_tail, spec_reconcile,
    spec_run_prefix, spec_step, Action, BuildOutcome, Disposition, ProcEntry,
};
use crate::semver::SemVer;
use crate::store::{CommitNode, StoreModel};

verus! {

/// What a successful pass prefix guarantees of the state `s1` and the record
/// `entries` it produced from `s`: one record line per entry, in order; the
/// object database only grows; the pointers and the remote flag are
/// untouched by the walk itself; the entry processed last has its branch on
/// its recorded commit; every processed version has a branch; and no other
/// version's branch moves.
pub open spec fn run_prefix_frame(
    s: StoreModel,
    versions: Seq<SemVer>,
    i: int,
    s1: StoreModel,
    entries: Seq<ProcEntry>,
) -> bool {
    &&& s1.wf()
    &&& entries.len() == i
    &&& forall|k: int| 0 <= k < i ==> (#[trigger] entries[k]).version == versions[k]
    &&& s1.commits.len() >= s.commits.len()
    &&& forall|j: int| 0 <= j < s.commits.len() ==> s1.commits[j] == #[trigger] s.commits[j]
    &&& s1.has_remote == s.has_remote
    &&& s1.latest == s.latest
    &&& s1.remote_latest == s.remote_latest
    &&& forall|k: int| 0 <= k < i ==> (#[trigger] entries[k]).commit < s1.commits.len()
}

pub open spec fn run_prefix_branches(
    s: StoreModel,
    versions: Seq<SemVer>,
    i: int,
    s1: StoreModel,
    entries: Seq<ProcEntry>,
) -> bool {
    &&& i > 0 ==> s1.local.contains_key(entries[i - 1].version) && s1.local[entries[i - 1].version]
        == entries[i - 1].commit
    &&& forall|k: int| 0 <= k < i ==> s1.local.contains_key(#[trigger] versions[k])
    &&& forall|w: SemVer|
        !(#[trigger] versions.take(i).contains(w)) ==> ((s1.local.contains_key(w)
            <==> s.local.contains_key(w)) && (s.local.contains_key(w) ==> s1.local[w] == s.local[
            w]))
}

pub open spec fn run_prefix_invariant(
    s: StoreModel,
    versions: Seq<SemVer>,
    i: int,
    s1: StoreModel,
    entries: Seq<ProcEntry>,
) -> bool {
    &&& run_prefix_frame(s, versions, i, s1, entries)
    &&& run_prefix_branches(s, versions, i, s1, entries)
}

proof fn lemma_untouched_step(
    s: StoreModel,
    s1: StoreModel,
    s2: StoreModel,
    versions: Seq<SemVer>,
    i: int,
    v: SemVer,
)
    requires
        0 < i <= versions.len(),
        v == versions[i - 1],
        forall|w: SemVer|
            !versions.take(i - 1).contains(w) ==> ((#[trigger] s1.local.contains_key(w)
                <==> s.local.contains_key(w)) && (s.local.contains_key(w) ==> s1.local[w]
                == s.local[w])),
        forall|w: SemVer|
            w != v ==> ((#[trigger] s2.local.contains_key(w) <==> s1.local.contains_key(w)) && (
            s1.local.contains_key(w) ==> s2.local[w] == s1.local[w])),
    ensures
        forall|w: SemVer|
            !(#[trigger] versions.take(i).contains(w)) ==> ((s2.local.contains_key(w)
                <==> s.local.contains_key(w)) && (s.local.contains_key(w) ==> s2.local[w]
                == s.local[w])),
{
    assert forall|w: SemVer| !(#[trigger] versions.take(i).contains(w)) implies ((
    s2.local.contains_key(w) <==> s.local.contains_key(w)) && (s.local.contains_key(w)
        ==> s2.local[w] == s.local[w])) by {
        assert(w != v) by {
            assert(versions.take(i)[i - 1] == v);
        }
        assert(!versions.take(i - 1).contains(w)) by {
            if versions.take(i - 1).contains(w) {
                let k = choose|k: int|
                    0 <= k < i - 1 && #[trigger] versions.take(i - 1)[k] == w;
                assert(versions.take(i)[k] == w);
            }
        }
        assert(s1.local.contains_key(w) <==> s.local.contains_key(w));
        assert(s2.local.contains_key(w) <==> s1.local.contains_key(w));
    }
}

/// What one step does to the store, in the abstract: the database grows by
/// at most the one appended commit; pointers and the remote flag stay; a
/// well-formed state stays well-formed; the processed version's branch lands
/// on the recorded commit; and no other branch moves.
#[verifier::rlimit(100)]
#[verifier::spinoff_prover]
proof fn lemma_step_effect(s1: StoreModel, v: SemVer, par: Option<usize>, o: BuildOutcome)
    ensures
        ({
            let (s2, r2) = spec_step(s1, v, par, o);
            &&& s1.commits.len() <= s2.commits.len() <= s1.commits.len() + 1
            &&& forall|c: int| 0 <= c < s1.commits.len() ==> s2.commits[c] == #[trigger] s1.commits[c]
            &&& s2.has_remote == s1.has_remote
            &&& s2.latest == s1.latest
            &&& s2.remote_latest == s1.remote_latest
            &&& (s1.wf() && (par matches Some(p) ==> p < s1.commits.len())) ==> s2.wf()
            &&& match r2 {
                Ok(cd) => (s1.wf() ==> cd.0 < s2.commits.len()) && s2.local.contains_key(v)
                    && s2.local[v] == cd.0,
                Err(_) => true,
            }
            &&& forall|w: SemVer|
                w != v ==> ((#[trigger] s2.local.contains_key(w) <==> s1.local.contains_key(w))
                    && (s1.local.contains_key(w) ==> s2.local[w] == s1.local[w]))
        }),
{
    let (s2, r2) = spec_step(s1, v, par, o);
    match spec_classify(s1, v) {
        Action::UseLocal { commit } => {},
        Action::FastForward { commit } => {},
        Action::BuildNew => {
            lemma_build_effect(s1, v, par, o);
            if o.fetch_ok && o.transform_ok {
                if s1.wf() && (par matches Some(p) ==> p < s1.commits.len()) {
                    let node = s2.commits.last();
                    assert(s2.commits == s1.commits.push(node));
                    assert forall|j: int|
                        0 <= j < s2.commits.len() implies match (#[trigger] s2.commits[j]).parent {
                        Some(p) => p < j,
                        None => true,
                    } by {
                        if j < s1.commits.len() {
                            assert(s2.commits[j] == s1.commits[j]);
                        } else {
                            assert(s2.commits[j] == node);
                        }
                    }
                    assert(s2.wf());
                }
            }
        },
    }
}

#[verifier::rlimit(100)]
#[verifier::spinoff_prover]
proof fn lemma_run_prefix_step_frame(
    s: StoreModel,
    versions: Seq<SemVer>,
    i: int,
    s1: StoreModel,
    entries: Seq<ProcEntry>,
    o: BuildOutcome,
    par: Option<usize>,
    s2: StoreModel,
    whole: Seq<ProcEntry>,
)
    requires
        0 < i <= versions.len(),
        run_prefix_invariant(s, versions, i - 1, s1, entries),
        par == (if entries.len() == 0 {
            Option::<usize>::None
        } else {
            Some(entries.last().commit)
        }),
        spec_step(s1, versions[i - 1], par, o) == (
            s2,
            Ok::<(usize, Disposition), crate::reconcile::CollabFailure>(
                (whole.last().commit, whole.last().disposition),
            ),
        ),
        whole == entries.push(
            ProcEntry {
                version: versions[i - 1],
                commit: whole.last().commit,
                disposition: whole.last().disposition,
            },
        ),
    ensures
        run_prefix_frame(s, versions, i, s2, whole),
{
    let v = versions[i - 1];
    lemma_step_effect(s1, v, par, o);
    assert(s2.wf());
    assert(whole.len() == i);
    assert forall|k: int| 0 <= k < i implies (#[trigger] whole[k]).version == versions[k] by {
        if k < i - 1 {
            assert(whole[k] == entries[k]);
        }
    }
    assert(s2.commits.len() >= s.commits.len());
    assert(forall|j: int| 0 <= j < s.commits.len() ==> s2.commits[j] == #[trigger] s.commits[j]);
    assert forall|k: int| 0 <= k < i implies (#[trigger] whole[k]).commit < s2.commits.len() by {
        if k < i - 1 {
            assert(whole[k] == entries[k]);
        }
    }
}

#[verifier::rlimit(100)]
#[verifier::spinoff_prover]
proof fn lemma_run_prefix_step_branches(
    s: StoreModel,
    versions: Seq<SemVer>,
    i: int,
    s1: StoreModel,
    entries: Seq<ProcEntry>,
    o: BuildOutcome,
    par: Option<usize>,
    s2: StoreModel,
    whole: Seq<ProcEntry>,
)
    requires
        0 < i <= versions.len(),
        run_prefix_invariant(s, versions, i - 1, s1, entries),
        par == (if entries.len() == 0 {
            Option::<usize>::None
        } else {
            Some(entries.last().commit)
        }),
        spec_step(s1, versions[i - 1], par, o) == (
            s2,
            Ok::<(usize, Disposition), crate::reconcile::CollabFailure>(
                (whole.last().commit, whole.last().disposition),
            ),
        ),
        whole == entries.push(
            ProcEntry {
                version: versions[i - 1],
                commit: whole.last().commit,
                disposition: whole.last().disposition,
            },
        ),
    ensures
        run_prefix_branches(s, versions, i, s2, whole),
{
    let v = versions[i - 1];
    lemma_step_effect(s1, v, par, o);
    assert(versions.take(i - 1) =~= versions.take(i).take(i - 1));
    assert forall|w: SemVer| versions.take(i - 1).contains(w) implies versions.take(
        i,
    ).contains(w) by {
        let k = choose|k: int| 0 <= k < i - 1 && #[trigger] versions.take(i - 1)[k] == w;
        assert(versions.take(i)[k] == w);
    }
    assert(versions.take(i)[i - 1] == v);
    assert forall|k: int| 0 <= k < i implies s2.local.contains_key(#[trigger] versions[k]) by {
        if k < i - 1 {
            assert(s1.local.contains_key(versions[k]));
        }
    }
    assert(whole.len() == i);
    assert(s2.local.contains_key(whole[i - 1].version) && s2.local[whole[i - 1].version]
        == whole[i - 1].commit);
    lemma_untouched_step(s, s1, s2, versions, i, v);
}

/// Every successful pass prefix satisfies [`run_prefix_invariant`].
pub proof fn lemma_run_prefix_ok(
    s: StoreModel,
    versions: Seq<SemVer>,
    outcomes: Seq<BuildOutcome>,
    i: int,
)
    requires
        0 <= i <= versions.len(),
        outcomes.len() == versions.len(),
        s.wf(),
        spec_run_prefix(s, versions, outcomes, i).1 is Ok,
    ensures
        run_prefix_invariant(
            s,
            versions,
            i,
            spec_run_prefix(s, versions, outcomes, i).0,
            spec_run_prefix(s, versions, outcomes, i).1.unwrap(),
        ),
    decreases i,
{
    if i > 0 {
        let (s1, r1) = spec_run_prefix(s, versions, outcomes, i - 1);
        assert(r1 is Ok) by {
            if r1 is Err {
                crate::reconcile::lemma_run_prefix_error_stable(s, versions, outcomes, i - 1, i);
            }
        }
        lemma_run_prefix_ok(s, versions, outcomes, i - 1);
        let entries = r1.unwrap();
        let v = versions[i - 1];
        let par: Option<usize> = if entries.len() == 0 {
            Option::<usize>::None
        } else {
            Some(entries.last().commit)
        };
        let (s2, r2) = spec_run_prefix(s, versions, outcomes, i);
        let whole = r2.unwrap();
        assert(whole == entries.push(whole.last()));
        assert(whole.last() == (ProcEntry {
            version: v,
            commit: whole.last().commit,
            disposition: whole.last().disposition,
        }));
        assert(spec_step(s1, v, par, outcomes[i - 1]) == (
            s2,
            Ok::<(usize, Disposition), crate::reconcile::CollabFailure>(
                (whole.last().commit, whole.last().disposition),
            ),
        ));
        lemma_run_prefix_step_frame(s, versions, i, s1, entries, outcomes[i - 1], par, s2, whole);
        lemma_run_prefix_step_branches(
            s,
            versions,
            i,
            s1,
            entries,
            outcomes[i - 1],
            par,
            s2,
            whole,
        );
    } else {
        assert(versions.take(0) =~= Seq::<SemVer>::empty());
    }
}

/// A pass over versions that all have local branches, with no remote
/// configured, changes nothing: every entry is taken as it is.
proof fn lemma_all_local_run_stable(
    s: StoreModel,
    versions: Seq<SemVer>,
    outcomes: Seq<BuildOutcome>,
    i: int,
)
    requires
        0 <= i <= versions.len(),
        outcomes.len() == versions.len(),
        !s.has_remote,
        forall|k: int| 0 <= k < versions.len() ==> s.local.contains_key(#[trigger] versions[k]),
    ensures
        ({
            let (s1, r1) = spec_run_prefix(s, versions, outcomes, i);
            &&& s1 == s
            &&& r1 is Ok
            &&& r1.unwrap().len() == i
            &&& forall|k: int|
                0 <= k < i ==> (#[trigger] r1.unwrap()[k]).disposition == Disposition::UsedLocal
        }),
    decreases i,
{
    if i > 0 {
        lemma_all_local_run_stable(s, versions, outcomes, i - 1);
        let entries = spec_run_prefix(s, versions, outcomes, i - 1).1.unwrap();
        let whole = spec_run_prefix(s, versions, outcomes, i).1.unwrap();
        assert(spec_classify(s, versions[i - 1]) == Action::UseLocal {
            commit: s.local[versions[i - 1]],
        });
        assert forall|k: int| 0 <= k < i implies (#[trigger] whole[k]).disposition
            == Disposition::UsedLocal by {
            if k < i - 1 {
                assert(whole[k] == entries[k]);
            }
        }
    }
}

/// A manifest processed twice in succession with no change and no remote:
/// the second pass performs zero new commits — the object database stays
/// exactly what the first pass left, and every entry is taken as it is.
pub proof fn lemma_idempotent_rerun(
    s: StoreModel,
    versions: Seq<SemVer>,
    o1: Seq<BuildOutcome>,
    o2: Seq<BuildOutcome>,
    lp1: bool,
    lp2: bool,
)
    requires
        s.wf(),
        !s.has_remote,
        o1.len() == versions.len(),
        o2.len() == versions.len(),
        spec_reconcile(s, versions, o1, lp1).1 is Ok,
    ensures
        ({
            let s1 = spec_reconcile(s, versions, o1, lp1).0;
            let (s2, r2) = spec_reconcile(s1, versions, o2, lp2);
            &&& r2 is Ok
            &&& s2.commits == s1.commits
            &&& forall|k: int|
                0 <= k < r2.unwrap().len() ==> (#[trigger] r2.unwrap()[k]).disposition
                    == Disposition::UsedLocal
        }),
{
    let n = versions.len() as int;
    lemma_run_prefix_ok(s, versions, o1, n);
    let (sa, ra) = spec_run_prefix(s, versions, o1, n);
    let s1 = spec_reconcile(s, versions, o1, lp1).0;
    assert(s1.local == sa.local && s1.has_remote == sa.has_remote && s1.commits == sa.commits);
    lemma_all_local_run_stable(s1, versions, o2, n);
}

/// A longer successful prefix extends a shorter one's record unchanged.
pub proof fn lemma_run_record_extends(
    s: StoreModel,
    versions: Seq<SemVer>,
    outcomes: Seq<BuildOutcome>,
    k: int,
    i: int,
)
    requires
        0 <= k <= i <= versions.len(),
        outcomes.len() == versions.len(),
        spec_run_prefix(s, versions, outcomes, i).1 is Ok,
    ensures
        spec_run_prefix(s, versions, outcomes, k).1 is Ok,
        spec_run_prefix(s, versions, outcomes, k).1.unwrap() == spec_run_prefix(
            s,
            versions,
            outcomes,
            i,
        ).1.unwrap().take(k),
        spec_run_prefix(s, versions, outcomes, k).1.unwrap().len() == k,
    decreases i,
{
    if k == i {
        lemma_run_record_len(s, versions, outcomes, i);
        assert(spec_run_prefix(s, versions, outcomes, i).1.unwrap().take(k) =~= spec_run_prefix(
            s,
            versions,
            outcomes,
            i,
        ).1.unwrap());
    } else {
        let (s1, r1) = spec_run_prefix(s, versions, outcomes, i - 1);
        assert(r1 is Ok) by {
            if r1 is Err {
                crate::reconcile::lemma_run_prefix_error_stable(s, versions, outcomes, i - 1, i);
            }
        }
        lemma_run_record_extends(s, versions, outcomes, k, i - 1);
        lemma_run_record_len(s, versions, outcomes, i - 1);
        let entries = r1.unwrap();
        let whole = spec_run_prefix(s, versions, outcomes, i).1.unwrap();
        assert(whole == entries.push(whole.last()));
        assert(whole.take(k) =~= entries.take(k));
    }
}

/// A successful prefix records exactly one line per processed entry.
proof fn lemma_run_record_len(
    s: StoreModel,
    versions: Seq<SemVer>,
    outcomes: Seq<BuildOutcome>,
    i: int,
)
    requires
        0 <= i <= versions.len(),
        outcomes.len() == versions.len(),
        spec_run_prefix(s, versions, outcomes, i).1 is Ok,
    ensures
        spec_run_prefix(s, versions, outcomes, i).1.unwrap().len() == i,
    decreases i,
{
    if i > 0 {
        let (s1, r1) = spec_run_prefix(s, versions, outcomes, i - 1);
        assert(r1 is Ok) by {
            if r1 is Err {
                crate::reconcile::lemma_run_prefix_error_stable(s, versions, outcomes, i - 1, i);
            }
        }
        lemma_run_record_len(s, versions, outcomes, i - 1);
    }
}

/// What one step does to the object database: at most one commit is
/// appended, existing commits never change, and a built entry's commit is
/// the appended one, carrying exactly the intended parent.
proof fn lemma_step_commits(s1: StoreModel, v: SemVer, parent: Option<usize>, o: BuildOutcome)
    ensures
        ({
            let (s2, r2) = spec_step(s1, v, parent, o);
            &&& s1.commits.len() <= s2.commits.len() <= s1.commits.len() + 1
            &&& forall|c: int| 0 <= c < s1.commits.len() ==> s2.commits[c] == #[trigger] s1.commits[c]
            &&& match r2 {
                Ok(cd) => cd.1 == Disposition::Built && s1.commits.len() <= usize::MAX ==> (cd.0
                    == s1.commits.len() && s2.commits[cd.0 as int] == (CommitNode {
                    parent,
                    tree: o.content,
                    version: v,
                })),
                Err(_) => true,
            }
        }),
{
    match spec_classify(s1, v) {
        Action::UseLocal { commit } => {},
        Action::FastForward { commit } => {},
        Action::BuildNew => {
            if o.fetch_ok && o.transform_ok {
                assert(spec_step(s1, v, parent, o).0.commits == s1.commits.push(CommitNode {
                    parent,
                    tree: o.content,
                    version: v,
                }));
            }
        },
    }
}

/// Parent linkage.  In a successful pass, every entry that was built yields
/// a commit with exactly the intended parent set: no parent at all when it
/// is the first manifest entry, and otherwise exactly one parent — the
/// commit recorded for the entry immediately before.
#[verifier::rlimit(100)]
#[verifier::spinoff_prover]
pub proof fn lemma_parent_linkage(
    s: StoreModel,
    versions: Seq<SemVer>,
    outcomes: Seq<BuildOutcome>,
    i: int,
)
    requires
        0 <= i <= versions.len(),
        outcomes.len() == versions.len(),
        s.commits.len() + versions.len() <= usize::MAX,
        spec_run_prefix(s, versions, outcomes, i).1 is Ok,
    ensures
        ({
            let (s1, r1) = spec_run_prefix(s, versions, outcomes, i);
            let entries = r1.unwrap();
            &&& entries.len() == i
            &&& s.commits.len() <= s1.commits.len() <= s.commits.len() + i
            &&& forall|k: int|
                0 <= k < i && (#[trigger] entries[k]).disposition == Disposition::Built
                    ==> entries[k].commit < s1.commits.len()
            &&& forall|k: int|
                0 <= k < i && (#[trigger] entries[k]).disposition == Disposition::Built
                    ==> s1.commits[entries[k].commit as int].parent == (if k == 0 {
                    Option::<usize>::None
                } else {
                    Some(entries[k - 1].commit)
                })
        }),
    decreases i,
{
    if i > 0 {
        let (s1, r1) = spec_run_prefix(s, versions, outcomes, i - 1);
        assert(r1 is Ok) by {
            if r1 is Err {
                crate::reconcile::lemma_run_prefix_error_stable(s, versions, outcomes, i - 1, i);
            }
        }
        lemma_parent_linkage(s, versions, outcomes, i - 1);
        let entries = r1.unwrap();
        let v = versions[i - 1];
        let par = if entries.len() == 0 {
            Option::<usize>::None
        } else {
            Some(entries.last().commit)
        };
        lemma_step_commits(s1, v, par, outcomes[i - 1]);
        let (s2, r2) = spec_run_prefix(s, versions, outcomes, i);
        let whole = r2.unwrap();
        assert(whole == entries.push(whole.last()));
        assert forall|k: int|
            0 <= k < i && (#[trigger] whole[k]).disposition == Disposition::Built implies whole[
        k].commit < s2.commits.len() && s2.commits[whole[k].commit as int].parent == (if k == 0 {
            Option::<usize>::None
        } else {
            Some(whole[k - 1].commit)
        }) by {
            if k < i - 1 {
                assert(whole[k] == entries[k]);
                if k > 0 {
                    assert(whole[k - 1] == entries[k - 1]);
                }
                assert(s2.commits[entries[k].commit as int] == s1.commits[entries[k].commit
                    as int]);
            } else {
                if k > 0 {
                    assert(whole[k - 1] == entries[k - 1]);
                }
            }
        }
    }
}

/// The other half of parent linkage: the commit recorded for the
/// predecessor entry is exactly what the predecessor's branch targeted at
/// the moment the entry was built.
pub proof fn lemma_predecessor_branch_at_build(
    s: StoreModel,
    versions: Seq<SemVer>,
    outcomes: Seq<BuildOutcome>,
    i: int,
    k: int,
)
    requires
        1 <= k < i <= versions.len(),
        outcomes.len() == versions.len(),
        s.wf(),
        spec_run_prefix(s, versions, outcomes, i).1 is Ok,
    ensures
        ({
            let entries = spec_run_prefix(s, versions, outcomes, i).1.unwrap();
            let at_build = spec_run_prefix(s, versions, outcomes, k).0;
            &&& at_build.local.contains_key(versions[k - 1])
            &&& at_build.local[versions[k - 1]] == entries[k - 1].commit
        }),
{
    lemma_run_record_extends(s, versions, outcomes, k, i);
    lemma_run_record_len(s, versions, outcomes, i);
    lemma_run_prefix_ok(s, versions, outcomes, k);
    let entries = spec_run_prefix(s, versions, outcomes, i).1.unwrap();
    let prefix_entries = spec_run_prefix(s, versions, outcomes, k).1.unwrap();
    assert(prefix_entries[k - 1] == entries.take(k)[k - 1]);
    assert(prefix_entries[k - 1].version == versions[k - 1]);
}

/// After a successful pass over a nonempty manifest, `versions/latest`
/// targets the commit recorded for the last manifest entry — the same
/// commit that the branch for the highest manifest-order version targets.
pub proof fn lemma_latest_tracks_highest(
    s: StoreModel,
    versions: Seq<SemVer>,
    outcomes: Seq<BuildOutcome>,
    latest_push: bool,
)
    requires
        s.wf(),
        versions.len() > 0,
        outcomes.len() == versions.len(),
        spec_reconcile(s, versions, outcomes, latest_push).1 is Ok,
    ensures
        ({
            let (s2, r) = spec_reconcile(s, versions, outcomes, latest_push);
            let entries = r.unwrap();
            &&& entries.len() == versions.len()
            &&& s2.latest == Some(entries.last().commit)
            &&& s2.local.contains_key(versions.last())
            &&& s2.local[versions.last()] == entries.last().commit
        }),
{
    let n = versions.len() as int;
    lemma_run_prefix_ok(s, versions, outcomes, n);
    let entries = spec_run_prefix(s, versions, outcomes, n).1.unwrap();
    assert(entries[n - 1].version == versions[n - 1]);
}

proof fn lemma_run_prefix_err(
    s: StoreModel,
    versions: Seq<SemVer>,
    outcomes: Seq<BuildOutcome>,
    i: int,
)
    requires
        0 <= i <= versions.len(),
        versions.len() <= usize::MAX,
        outcomes.len() == versions.len(),
        s.wf(),
        spec_run_prefix(s, versions, outcomes, i).1 is Err,
    ensures
        ({
            let (s1, r1) = spec_run_prefix(s, versions, outcomes, i);
            match r1 {
                Err(e) => {
                    let at_fail = spec_run_prefix(s, versions, outcomes, e.index as int);
                    &&& e.index < i
                    &&& e.version == versions[e.index as int]
                    &&& at_fail.1 is Ok
                    &&& s1 == (StoreModel {
                        local: at_fail.0.local.remove(e.version),
                        ..at_fail.0
                    })
                },
                Ok(_) => true,
            }
        }),
    decreases i,
{
    if i > 0 {
        let (sp, rp) = spec_run_prefix(s, versions, outcomes, i - 1);
        if rp is Err {
            lemma_run_prefix_err(s, versions, outcomes, i - 1);
        } else {
            let (s1, r1) = spec_run_prefix(s, versions, outcomes, i);
            match r1 {
                Err(e) => {
                    assert(e.index == i - 1);
                    assert(spec_run_prefix(s, versions, outcomes, e.index as int) == (sp, rp));
                    assert(s1 == (StoreModel {
                        local: sp.local.remove(e.version),
                        ..sp
                    }));
                },
                Ok(_) => {},
            }
        }
    }
}

/// Fail-fast isolation.  If a collaborator fails at entry `k`, the pass
/// stops there: the branch of every version not occurring in the manifest up
/// to and including `k` — in particular every version listed only after
/// `k` — is exactly as it was, and `versions/latest` has not moved.  Only
/// entries before `k` may have been updated.
pub proof fn lemma_fail_fast_preserves_tail(
    s: StoreModel,
    versions: Seq<SemVer>,
    outcomes: Seq<BuildOutcome>,
    latest_push: bool,
)
    requires
        s.wf(),
        versions.len() <= usize::MAX,
        outcomes.len() == versions.len(),
        spec_reconcile(s, versions, outcomes, latest_push).1 is Err,
    ensures
        ({
            let (s2, r) = spec_reconcile(s, versions, outcomes, latest_push);
            match r {
                Err(e) => {
                    &&& e.index < versions.len()
                    &&& e.version == versions[e.index as int]
                    &&& forall|w: SemVer|
                        !(#[trigger] versions.take(e.index + 1).contains(w)) ==> ((
                        s2.local.contains_key(w) <==> s.local.contains_key(w)) && (
                        s.local.contains_key(w) ==> s2.local[w] == s.local[w]))
                    &&& s2.latest == s.latest
                },
                Ok(_) => true,
            }
        }),
{
    let n = versions.len() as int;
    lemma_run_prefix_err(s, versions, outcomes, n);
    let (s2, r) = spec_run_prefix(s, versions, outcomes, n);
    match r {
        Err(e) => {
            let i = e.index as int;
            let (sk, rk) = spec_run_prefix(s, versions, outcomes, i);
            lemma_run_prefix_ok(s, versions, outcomes, i);
            assert forall|w: SemVer| !(#[trigger] versions.take(i + 1).contains(w)) implies ((
            s2.local.contains_key(w) <==> s.local.contains_key(w)) && (s.local.contains_key(w)
                ==> s2.local[w] == s.local[w])) by {
                assert(w != versions[i]) by {
                    assert(versions.take(i + 1)[i] == versions[i]);
                }
                assert(!versions.take(i).contains(w)) by {
                    if versions.take(i).contains(w) {
                        let k = choose|k: int|
                            0 <= k < i && #[trigger] versions.take(i)[k] == w;
                        assert(versions.take(i + 1)[k] == w);
                    }
                }
                assert(sk.local.contains_key(w) <==> s.local.contains_key(w));
            }
        },
        Ok(_) => {},
    }
}

/// What one from-scratch build does to the store: the stale branch goes
/// away, at most one commit is appended, existing commits never change, and
/// on success the branch lands on the fresh commit with exactly the
/// intended parent.
proof fn lemma_build_effect(s1: StoreModel, v: SemVer, parent: Option<usize>, o: BuildOutcome)
    ensures
        ({
            let (s2, r2) = crate::reconcile::spec_build(s1, v, parent, o);
            &&& s1.commits.len() <= s2.commits.len() <= s1.commits.len() + 1
            &&& forall|c: int| 0 <= c < s1.commits.len() ==> s2.commits[c] == #[trigger] s1.commits[c]
            &&& s2.has_remote == s1.has_remote
            &&& s2.latest == s1.latest
            &&& s2.remote_latest == s1.remote_latest
            &&& match r2 {
                Ok(id) => s1.commits.len() <= usize::MAX ==> (id == s1.commits.len()
                    && s2.commits[id as int] == (CommitNode { parent, tree: o.content, version: v })
                    && s2.local == s1.local.remove(v).insert(v, id)),
                Err(_) => s2.local == s1.local.remove(v) && s2.commits == s1.commits,
            }
        }),
{
    if o.fetch_ok && o.transform_ok {
        assert(crate::reconcile::spec_build(s1, v, parent, o).0.commits == s1.commits.push(
            CommitNode { parent, tree: o.content, version: v },
        ));
    }
}

proof fn lemma_untouched_step_range(
    s: StoreModel,
    s1: StoreModel,
    s2: StoreModel,
    versions: Seq<SemVer>,
    start: int,
    i: int,
    v: SemVer,
)
    requires
        0 <= start + 1 <= i - 1,
        i <= versions.len(),
        v == versions[i - 1],
        forall|w: SemVer|
            !versions.subrange(start + 1, i - 1).contains(w) ==> ((#[trigger] s1.local.contains_key(
                w,
            ) <==> s.local.contains_key(w)) && (s.local.contains_key(w) ==> s1.local[w]
                == s.local[w])),
        forall|w: SemVer|
            w != v ==> ((#[trigger] s2.local.contains_key(w) <==> s1.local.contains_key(w)) && (
            s1.local.contains_key(w) ==> s2.local[w] == s1.local[w])),
    ensures
        forall|w: SemVer|
            !(#[trigger] versions.subrange(start + 1, i).contains(w)) ==> ((s2.local.contains_key(w)
                <==> s.local.contains_key(w)) && (s.local.contains_key(w) ==> s2.local[w]
                == s.local[w])),
{
    assert forall|w: SemVer| !(#[trigger] versions.subrange(start + 1, i).contains(w)) implies ((
    s2.local.contains_key(w) <==> s.local.contains_key(w)) && (s.local.contains_key(w)
        ==> s2.local[w] == s.local[w])) by {
        assert(w != v) by {
            assert(versions.subrange(start + 1, i)[i - 1 - (start + 1)] == v);
        }
        assert(!versions.subrange(start + 1, i - 1).contains(w)) by {
            if versions.subrange(start + 1, i - 1).contains(w) {
                let k = choose|k: int|
                    0 <= k < i - 1 - (start + 1) && #[trigger] versions.subrange(
                        start + 1,
                        i - 1,
                    )[k] == w;
                assert(versions.subrange(start + 1, i)[k] == w);
            }
        }
        assert(s1.local.contains_key(w) <==> s.local.contains_key(w));
        assert(s2.local.contains_key(w) <==> s1.local.contains_key(w));
    }
}

/// What a successful cascade prefix does to the object database, seen from
/// the record `entries` it produced out of `s`: one line per rebuilt entry,
/// in manifest order, every one built; the database only grows; the
/// pointers and the remote flag stay; and every rebuilt commit is fresh and
/// chains to its predecessor (the first to `parent0`).
pub open spec fn cascade_commits_invariant(
    s: StoreModel,
    versions: Seq<SemVer>,
    start: int,
    i: int,
    parent0: usize,
    s1: StoreModel,
    entries: Seq<ProcEntry>,
) -> bool {
    &&& entries.len() == i - start - 1
    &&& forall|k: int|
        0 <= k < entries.len() ==> (#[trigger] entries[k]).version == versions[start + 1 + k]
    &&& forall|k: int|
        0 <= k < entries.len() ==> (#[trigger] entries[k]).disposition == Disposition::Built
    &&& s.commits.len() <= s1.commits.len() <= s.commits.len() + entries.len()
    &&& forall|j: int| 0 <= j < s.commits.len() ==> s1.commits[j] == #[trigger] s.commits[j]
    &&& s1.has_remote == s.has_remote
    &&& s1.latest == s.latest
    &&& s1.remote_latest == s.remote_latest
    &&& forall|k: int|
        0 <= k < entries.len() ==> s.commits.len() <= (#[trigger] entries[k]).commit
            < s1.commits.len()
    &&& forall|k: int|
        0 <= k < entries.len() ==> s1.commits[(#[trigger] entries[k]).commit as int].parent
            == Some(
            if k == 0 {
                parent0
            } else {
                entries[k - 1].commit
            },
        )
}

/// What a successful cascade prefix does to the branches: every rebuilt
/// version's branch lands on a fresh commit — on exactly the commit of its
/// last rebuild — and no other version's branch moves.
pub open spec fn cascade_branch_frame(
    s: StoreModel,
    versions: Seq<SemVer>,
    start: int,
    i: int,
    s1: StoreModel,
) -> bool {
    &&& forall|w: SemVer|
        !(#[trigger] versions.subrange(start + 1, i).contains(w)) ==> ((s1.local.contains_key(w)
            <==> s.local.contains_key(w)) && (s.local.contains_key(w) ==> s1.local[w] == s.local[
            w]))
    &&& forall|w: SemVer| #[trigger]
        versions.subrange(start + 1, i).contains(w) ==> s1.local.contains_key(w)
            && s.commits.len() <= s1.local[w] < s1.commits.len()
}

pub open spec fn cascade_branch_exact(
    versions: Seq<SemVer>,
    start: int,
    i: int,
    s1: StoreModel,
    entries: Seq<ProcEntry>,
) -> bool {
    forall|k: int|
        0 <= k < i - start - 1 && !(#[trigger] versions.subrange(start + 2 + k, i).contains(
            versions[start + 1 + k],
        )) ==> s1.local.contains_key(versions[start + 1 + k]) && s1.local[versions[start + 1 + k]]
            == entries[k].commit
}

pub open spec fn cascade_branches_invariant(
    s: StoreModel,
    versions: Seq<SemVer>,
    start: int,
    i: int,
    s1: StoreModel,
    entries: Seq<ProcEntry>,
) -> bool {
    &&& cascade_branch_frame(s, versions, start, i, s1)
    &&& cascade_branch_exact(versions, start, i, s1, entries)
}

#[verifier::rlimit(100)]
#[verifier::spinoff_prover]
proof fn lemma_cascade_commits_step(
    s: StoreModel,
    versions: Seq<SemVer>,
    start: int,
    i: int,
    parent0: usize,
    s1: StoreModel,
    entries: Seq<ProcEntry>,
    o: BuildOutcome,
    par: usize,
    s2: StoreModel,
    whole: Seq<ProcEntry>,
)
    requires
        0 <= start,
        start + 1 < i <= versions.len(),
        parent0 < s.commits.len(),
        s.commits.len() + versions.len() <= usize::MAX,
        cascade_commits_invariant(s, versions, start, i - 1, parent0, s1, entries),
        par == (if entries.len() == 0 {
            parent0
        } else {
            entries.last().commit
        }),
        crate::reconcile::spec_build(s1, versions[i - 1], Some(par), o).1 is Ok,
        s2 == crate::reconcile::spec_build(s1, versions[i - 1], Some(par), o).0,
        whole == entries.push(
            ProcEntry {
                version: versions[i - 1],
                commit: crate::reconcile::spec_build(s1, versions[i - 1], Some(par), o).1.unwrap(),
                disposition: Disposition::Built,
            },
        ),
    ensures
        cascade_commits_invariant(s, versions, start, i, parent0, s2, whole),
{
    let v = versions[i - 1];
    lemma_build_effect(s1, v, Some(par), o);
    let id = whole.last().commit;
    assert(id == s1.commits.len());
    assert(s2.commits[id as int].parent == Some(par));
    assert forall|k: int| 0 <= k < whole.len() implies (#[trigger] whole[k]).version == versions[
    start + 1 + k] && whole[k].disposition == Disposition::Built by {
        if k < whole.len() - 1 {
            assert(whole[k] == entries[k]);
        }
    }
    assert forall|k: int| 0 <= k < whole.len() implies s.commits.len() <= (
    #[trigger] whole[k]).commit < s2.commits.len() by {
        if k < whole.len() - 1 {
            assert(whole[k] == entries[k]);
        }
    }
    assert forall|k: int|
        0 <= k < whole.len() implies s2.commits[(#[trigger] whole[k]).commit as int].parent
        == Some(
        if k == 0 {
            parent0
        } else {
            whole[k - 1].commit
        },
    ) by {
        if k < whole.len() - 1 {
            assert(whole[k] == entries[k]);
            if k > 0 {
                assert(whole[k - 1] == entries[k - 1]);
            }
            assert(s2.commits[entries[k].commit as int] == s1.commits[entries[k].commit as int]);
        } else {
            if k > 0 {
                assert(whole[k - 1] == entries[k - 1]);
            }
        }
    }
}

/// Every successful cascade prefix satisfies [`cascade_commits_invariant`].
pub proof fn lemma_cascade_prefix_commits(
    s: StoreModel,
    versions: Seq<SemVer>,
    outcomes: Seq<BuildOutcome>,
    start: int,
    parent0: usize,
    i: int,
)
    requires
        0 <= start,
        start + 1 <= i <= versions.len(),
        outcomes.len() == versions.len(),
        s.wf(),
        parent0 < s.commits.len(),
        s.commits.len() + versions.len() <= usize::MAX,
        spec_cascade_prefix(s, versions, outcomes, start, parent0, i).1 is Ok,
    ensures
        cascade_commits_invariant(
            s,
            versions,
            start,
            i,
            parent0,
            spec_cascade_prefix(s, versions, outcomes, start, parent0, i).0,
            spec_cascade_prefix(s, versions, outcomes, start, parent0, i).1.unwrap(),
        ),
    decreases i,
{
    if i > start + 1 {
        assert(spec_cascade_prefix(s, versions, outcomes, start, parent0, i - 1).1 is Ok) by {
            if spec_cascade_prefix(s, versions, outcomes, start, parent0, i - 1).1 is Err {
                crate::reconcile::lemma_cascade_prefix_error_stable(
                    s,
                    versions,
                    outcomes,
                    start,
                    parent0,
                    i - 1,
                    i,
                );
            }
        }
        lemma_cascade_prefix_commits(s, versions, outcomes, start, parent0, i - 1);
        let (s1, r1) = spec_cascade_prefix(s, versions, outcomes, start, parent0, i - 1);
        let entries = r1.unwrap();
        let v = versions[i - 1];
        let par: usize = if entries.len() == 0 {
            parent0
        } else {
            entries.last().commit
        };
        let (s2, r2) = spec_cascade_prefix(s, versions, outcomes, start, parent0, i);
        let whole = r2.unwrap();
        assert(crate::reconcile::spec_build(s1, v, Some(par), outcomes[i - 1]).1 is Ok);
        assert(whole == entries.push(
            ProcEntry {
                version: v,
                commit: crate::reconcile::spec_build(s1, v, Some(par), outcomes[i - 1]).1.unwrap(),
                disposition: Disposition::Built,
            },
        ));
        lemma_cascade_commits_step(
            s,
            versions,
            start,
            i,
            parent0,
            s1,
            entries,
            outcomes[i - 1],
            par,
            s2,
            whole,
        );
    }
}

#[verifier::rlimit(100)]
#[verifier::spinoff_prover]
proof fn lemma_cascade_branches_step_frame(
    s: StoreModel,
    versions: Seq<SemVer>,
    start: int,
    i: int,
    parent0: usize,
    s1: StoreModel,
    entries: Seq<ProcEntry>,
    o: BuildOutcome,
    par: usize,
    s2: StoreModel,
    whole: Seq<ProcEntry>,
)
    requires
        0 <= start,
        start + 1 < i <= versions.len(),
        parent0 < s.commits.len(),
        s.commits.len() + versions.len() <= usize::MAX,
        cascade_commits_invariant(s, versions, start, i - 1, parent0, s1, entries),
        cascade_branches_invariant(s, versions, start, i - 1, s1, entries),
        par == (if entries.len() == 0 {
            parent0
        } else {
            entries.last().commit
        }),
        crate::reconcile::spec_build(s1, versions[i - 1], Some(par), o).1 is Ok,
        s2 == crate::reconcile::spec_build(s1, versions[i - 1], Some(par), o).0,
        whole == entries.push(
            ProcEntry {
                version: versions[i - 1],
                commit: crate::reconcile::spec_build(s1, versions[i - 1], Some(par), o).1.unwrap(),
                disposition: Disposition::Built,
            },
        ),
    ensures
        cascade_branch_frame(s, versions, start, i, s2),
{
    let v = versions[i - 1];
    lemma_build_effect(s1, v, Some(par), o);
    let id = whole.last().commit;
    assert(id == s1.commits.len());
    assert forall|w: SemVer| w != v implies ((#[trigger] s2.local.contains_key(w)
        <==> s1.local.contains_key(w)) && (s1.local.contains_key(w) ==> s2.local[w] == s1.local[
    w])) by {}
    lemma_untouched_step_range(s, s1, s2, versions, start, i, v);
    assert forall|w: SemVer| #[trigger]
        versions.subrange(start + 1, i).contains(w) implies s2.local.contains_key(w)
        && s.commits.len() <= s2.local[w] < s2.commits.len() by {
        if w == v {
            assert(s2.local.contains_key(v) && s2.local[v] == id);
        } else {
            let k = choose|k: int|
                0 <= k < i - (start + 1) && #[trigger] versions.subrange(start + 1, i)[k] == w;
            assert(k < i - 1 - (start + 1)) by {
                if k == i - 1 - (start + 1) {
                    assert(versions.subrange(start + 1, i)[k] == v);
                }
            }
            assert(versions.subrange(start + 1, i - 1)[k] == w);
            assert(versions.subrange(start + 1, i - 1).contains(w));
            assert(s1.local.contains_key(w) && s.commits.len() <= s1.local[w] < s1.commits.len());
        }
    }
}

#[verifier::rlimit(100)]
#[verifier::spinoff_prover]
proof fn lemma_cascade_branches_step_exact(
    versions: Seq<SemVer>,
    start: int,
    i: int,
    s1: StoreModel,
    entries: Seq<ProcEntry>,
    o: BuildOutcome,
    par: usize,
    s2: StoreModel,
    whole: Seq<ProcEntry>,
)
    requires
        0 <= start,
        start + 1 < i <= versions.len(),
        entries.len() == i - start - 2,
        cascade_branch_exact(versions, start, i - 1, s1, entries),
        crate::reconcile::spec_build(s1, versions[i - 1], Some(par), o).1 is Ok,
        s2 == crate::reconcile::spec_build(s1, versions[i - 1], Some(par), o).0,
        whole == entries.push(
            ProcEntry {
                version: versions[i - 1],
                commit: crate::reconcile::spec_build(s1, versions[i - 1], Some(par), o).1.unwrap(),
                disposition: Disposition::Built,
            },
        ),
    ensures
        cascade_branch_exact(versions, start, i, s2, whole),
{
    let v = versions[i - 1];
    lemma_build_effect(s1, v, Some(par), o);
    let id = whole.last().commit;
    assert forall|k: int|
        0 <= k < i - start - 1 && !(#[trigger] versions.subrange(start + 2 + k, i).contains(
            versions[start + 1 + k],
        )) implies s2.local.contains_key(versions[start + 1 + k]) && s2.local[versions[start + 1
        + k]] == whole[k].commit by {
        if k == i - start - 2 {
            assert(whole[k] == whole.last());
            assert(versions[start + 1 + k] == v);
            assert(s2.local.contains_key(v) && s2.local[v] == id);
        } else {
            assert(versions[i - 1] != versions[start + 1 + k]) by {
                assert(versions.subrange(start + 2 + k, i)[i - 1 - (start + 2 + k)] == versions[i
                    - 1]);
            }
            assert(!versions.subrange(start + 2 + k, i - 1).contains(versions[start + 1 + k]))
                by {
                if versions.subrange(start + 2 + k, i - 1).contains(versions[start + 1 + k]) {
                    let m = choose|m: int|
                        0 <= m < i - 1 - (start + 2 + k) && #[trigger] versions.subrange(
                            start + 2 + k,
                            i - 1,
                        )[m] == versions[start + 1 + k];
                    assert(versions.subrange(start + 2 + k, i)[m] == versions[start + 1 + k]);
                }
            }
            assert(s1.local.contains_key(versions[start + 1 + k]) && s1.local[versions[start + 1
                + k]] == entries[k].commit);
            assert(whole[k] == entries[k]);
        }
    }
}

/// Every successful cascade prefix satisfies [`cascade_branches_invariant`].
#[verifier::rlimit(100)]
#[verifier::spinoff_prover]
pub proof fn lemma_cascade_prefix_branches(
    s: StoreModel,
    versions: Seq<SemVer>,
    outcomes: Seq<BuildOutcome>,
    start: int,
    parent0: usize,
    i: int,
)
    requires
        0 <= start,
        start + 1 <= i <= versions.len(),
        outcomes.len() == versions.len(),
        s.wf(),
        parent0 < s.commits.len(),
        s.commits.len() + versions.len() <= usize::MAX,
        spec_cascade_prefix(s, versions, outcomes, start, parent0, i).1 is Ok,
    ensures
        cascade_branches_invariant(
            s,
            versions,
            start,
            i,
            spec_cascade_prefix(s, versions, outcomes, start, parent0, i).0,
            spec_cascade_prefix(s, versions, outcomes, start, parent0, i).1.unwrap(),
        ),
    decreases i,
{
    if i > start + 1 {
        assert(spec_cascade_prefix(s, versions, outcomes, start, parent0, i - 1).1 is Ok) by {
            if spec_cascade_prefix(s, versions, outcomes, start, parent0, i - 1).1 is Err {
                crate::reconcile::lemma_cascade_prefix_error_stable(
                    s,
                    versions,
                    outcomes,
                    start,
                    parent0,
                    i - 1,
                    i,
                );
            }
        }
        lemma_cascade_prefix_branches(s, versions, outcomes, start, parent0, i - 1);
        lemma_cascade_prefix_commits(s, versions, outcomes, start, parent0, i - 1);
        let (s1, r1) = spec_cascade_prefix(s, versions, outcomes, start, parent0, i - 1);
        let entries = r1.unwrap();
        let v = versions[i - 1];
        let par: usize = if entries.len() == 0 {
            parent0
        } else {
            entries.last().commit
        };
        let (s2, r2) = spec_cascade_prefix(s, versions, outcomes, start, parent0, i);
        let whole = r2.unwrap();
        assert(crate::reconcile::spec_build(s1, v, Some(par), outcomes[i - 1]).1 is Ok);
        assert(whole == entries.push(
            ProcEntry {
                version: v,
                commit: crate::reconcile::spec_build(s1, v, Some(par), outcomes[i - 1]).1.unwrap(),
                disposition: Disposition::Built,
            },
        ));
        lemma_cascade_branches_step_frame(
            s,
            versions,
            start,
            i,
            parent0,
            s1,
            entries,
            outcomes[i - 1],
            par,
            s2,
            whole,
        );
        lemma_cascade_branches_step_exact(
            versions,
            start,
            i,
            s1,
            entries,
            outcomes[i - 1],
            par,
            s2,
            whole,
        );
    } else {
        assert(versions.subrange(start + 1, i) =~= Seq::<SemVer>::empty());
    }
}

proof fn lemma_first_index_props(s: Seq<SemVer>, v: SemVer)
    requires
        s.contains(v),
    ensures
        0 <= first_index(s, v) < s.len(),
        s[first_index(s, v)] == v,
        forall|k: int| 0 <= k < first_index(s, v) ==> s[k] != v,
    decreases s.len(),
{
    if s.first() == v {
    } else {
        assert(s.drop_first().contains(v)) by {
            let j = choose|j: int| 0 <= j < s.len() && s[j] == v;
            assert(s.drop_first()[j - 1] == v);
        }
        lemma_first_index_props(s.drop_first(), v);
        let fi = first_index(s.drop_first(), v);
        assert(s[1 + fi] == s.drop_first()[fi]);
        assert forall|k: int| 0 <= k < first_index(s, v) implies s[k] != v by {
            if k > 0 {
                assert(s.drop_first()[k - 1] == s[k]);
            }
        }
    }
}

proof fn lemma_distinct_tail_exact(
    versions: Seq<SemVer>,
    start: int,
    n: int,
    s2: StoreModel,
    entries: Seq<ProcEntry>,
)
    requires
        0 <= start < n <= versions.len(),
        entries.len() == n - start - 1,
        forall|k: int|
            0 <= k < entries.len() ==> (#[trigger] entries[k]).version == versions[start + 1 + k],
        forall|a: int, b: int| 0 <= a < b < versions.len() ==> versions[a] != versions[b],
        cascade_branch_exact(versions, start, n, s2, entries),
    ensures
        forall|k: int|
            0 <= k < entries.len() ==> s2.local.contains_key((#[trigger] entries[k]).version)
                && s2.local[entries[k].version] == entries[k].commit,
{
    assert forall|k: int| 0 <= k < entries.len() implies s2.local.contains_key(
        (#[trigger] entries[k]).version,
    ) && s2.local[entries[k].version] == entries[k].commit by {
        assert(entries[k].version == versions[start + 1 + k]);
        assert(!versions.subrange(start + 2 + k, n).contains(versions[start + 1 + k])) by {
            if versions.subrange(start + 2 + k, n).contains(versions[start + 1 + k]) {
                let m = choose|m: int|
                    0 <= m < n - (start + 2 + k) && #[trigger] versions.subrange(
                        start + 2 + k,
                        n,
                    )[m] == versions[start + 1 + k];
                assert(versions[start + 2 + k + m] == versions[start + 1 + k]);
            }
        }
    }
}

proof fn lemma_tail_unreferences(
    s: StoreModel,
    versions: Seq<SemVer>,
    start: int,
    n: int,
    s2: StoreModel,
    old_c: usize,
)
    requires
        cascade_branch_frame(s, versions, start, n, s2),
        old_c < s.commits.len(),
        forall|w: SemVer|
            s.local.contains_key(w) && (#[trigger] s.local[w]) == old_c ==> versions.subrange(
                start + 1,
                n,
            ).contains(w),
    ensures
        forall|w: SemVer| #[trigger] s2.local.contains_key(w) ==> s2.local[w] != old_c,
{
    assert forall|w: SemVer| #[trigger] s2.local.contains_key(w) implies s2.local[w]
        != old_c by {
        if versions.subrange(start + 1, n).contains(w) {
            assert(s.commits.len() <= s2.local[w]);
        } else {
            assert(s.local.contains_key(w) && s2.local[w] == s.local[w]);
        }
    }
}

#[verifier::rlimit(100)]
#[verifier::spinoff_prover]
proof fn lemma_relinks_core(
    s: StoreModel,
    versions: Seq<SemVer>,
    start: int,
    n: int,
    from: SemVer,
    parent0: usize,
    s2: StoreModel,
    entries: Seq<ProcEntry>,
    old_c: usize,
)
    requires
        0 <= start < n,
        n == versions.len(),
        versions[start] == from,
        s.local.contains_key(from),
        parent0 == s.local[from],
        forall|a: int, b: int| 0 <= a < b < versions.len() ==> versions[a] != versions[b],
        old_c < s.commits.len(),
        forall|w: SemVer|
            s.local.contains_key(w) && (#[trigger] s.local[w]) == old_c ==> versions.subrange(
                start + 1,
                n,
            ).contains(w),
        cascade_commits_invariant(s, versions, start, n, parent0, s2, entries),
        cascade_branches_invariant(s, versions, start, n, s2, entries),
    ensures
        entries.len() == n - start - 1,
        forall|k: int|
            0 <= k < entries.len() ==> (#[trigger] entries[k]).version == versions[start + 1 + k]
                && entries[k].disposition == Disposition::Built,
        entries.len() > 0 ==> s2.commits[entries[0].commit as int].parent == Some(s.local[from]),
        forall|k: int|
            1 <= k < entries.len() ==> s2.commits[(#[trigger] entries[k]).commit as int].parent
                == Some(entries[k - 1].commit),
        forall|k: int|
            0 <= k < entries.len() ==> s2.local.contains_key((#[trigger] entries[k]).version)
                && s2.local[entries[k].version] == entries[k].commit,
        forall|w: SemVer| #[trigger] s2.local.contains_key(w) ==> s2.local[w] != old_c,
        s2.local.contains_key(from) && s2.local[from] == s.local[from],
{
    assert(!versions.subrange(start + 1, n).contains(from)) by {
        if versions.subrange(start + 1, n).contains(from) {
            let m = choose|m: int|
                0 <= m < n - start - 1 && #[trigger] versions.subrange(start + 1, n)[m] == from;
            assert(versions[start + 1 + m] == from);
            assert(versions[start as int] == from);
        }
    }
    lemma_distinct_tail_exact(versions, start, n, s2, entries);
    lemma_tail_unreferences(s, versions, start, n, s2, old_c);
}

/// The cascade relinks the chain.  With all manifest versions distinct:
/// after a successful cascade from version `from`, every manifest entry
/// after `from` was rebuilt, in order; the first rebuilt commit has `from`'s
/// own commit as its only parent, and every later one has exactly its
/// rebuilt predecessor's commit; each rebuilt version's branch targets
/// exactly its fresh commit; `from`'s branch has not moved; and a commit
/// that before the cascade was referenced only by branches of the rebuilt
/// tail — such as the old commit of a version the splice outdated — is
/// referenced by no branch at all afterwards.
#[verifier::rlimit(100)]
#[verifier::spinoff_prover]
pub proof fn lemma_cascade_relinks(
    s: StoreModel,
    versions: Seq<SemVer>,
    outcomes: Seq<BuildOutcome>,
    from: SemVer,
    old_c: usize,
)
    requires
        s.wf(),
        outcomes.len() == versions.len(),
        s.commits.len() + versions.len() <= usize::MAX,
        versions.contains(from),
        s.local.contains_key(from),
        forall|a: int, b: int| 0 <= a < b < versions.len() ==> versions[a] != versions[b],
        spec_rebuild_tail(s, versions, outcomes, from).1 is Ok,
        old_c < s.commits.len(),
        forall|w: SemVer|
            s.local.contains_key(w) && (#[trigger] s.local[w]) == old_c ==> versions.subrange(
                first_index(versions, from) + 1,
                versions.len() as int,
            ).contains(w),
    ensures
        ({
            let start = first_index(versions, from);
            let n = versions.len() as int;
            let (s2, r) = spec_rebuild_tail(s, versions, outcomes, from);
            let entries = r.unwrap();
            &&& entries.len() == n - start - 1
            &&& forall|k: int|
                0 <= k < entries.len() ==> (#[trigger] entries[k]).version == versions[start + 1
                    + k] && entries[k].disposition == Disposition::Built
            &&& entries.len() > 0 ==> s2.commits[entries[0].commit as int].parent == Some(
                s.local[from],
            )
            &&& forall|k: int|
                1 <= k < entries.len() ==> s2.commits[(#[trigger] entries[k]).commit as int].parent
                    == Some(entries[k - 1].commit)
            &&& forall|k: int|
                0 <= k < entries.len() ==> s2.local.contains_key(
                    (#[trigger] entries[k]).version,
                ) && s2.local[entries[k].version] == entries[k].commit
            &&& forall|w: SemVer| #[trigger] s2.local.contains_key(w) ==> s2.local[w] != old_c
            &&& s2.local.contains_key(from) && s2.local[from] == s.local[from]
        }),
{
    let start = first_index(versions, from);
    let n = versions.len() as int;
    lemma_first_index_props(versions, from);
    let parent0 = s.local[from];
    lemma_cascade_prefix_commits(s, versions, outcomes, start, parent0, n);
    lemma_cascade_prefix_branches(s, versions, outcomes, start, parent0, n);
    let (s2, r) = spec_rebuild_tail(s, versions, outcomes, from);
    let entries = r.unwrap();
    lemma_relinks_core(s, versions, start, n, from, parent0, s2, entries, old_c);
}

} // verus!