use mbss::reconcile::{build_version, classify, process_versions, rebuild_tail};
use mbss::{Action, BuildOutcome, ChainStore, CollabFailure, Disposition, SemVer, Version,
    VersionsFile};

fn ver(major: u64, minor: u64, patch: u64) -> SemVer {
    SemVer { major, minor, patch }
}

fn manifest_of(versions: &[SemVer]) -> VersionsFile {
    let mut entries: Vec<Version> = Vec::new();
    for v in versions {
        entries.push(Version { version: *v, manifest: format!("ref-{}.{}.{}", v.major, v.minor, v.patch) });
    }
    VersionsFile { versions: entries }
}

fn all_good(n: usize) -> Vec<BuildOutcome> {
    let mut outcomes: Vec<BuildOutcome> = Vec::new();
    for i in 0..n {
        outcomes.push(BuildOutcome {
            fetch_ok: true,
            transform_ok: true,
            content: 100 + i as u64,
            push_ok: true,
        });
    }
    outcomes
}

#[test]
fn fresh_run_builds_chain() {
    // Two versions, no existing branches, no remote: two commits, the first
    // a root, the second a child of the first, latest on the second.
    let mut store = ChainStore::new(false);
    let manifest = manifest_of(&[ver(1, 0, 0), ver(1, 1, 0)]);
    let outcomes = all_good(2);
    let record = process_versions(&mut store, &manifest, &outcomes, true).unwrap();

    assert_eq!(record.len(), 2);
    assert_eq!(record[0].disposition, Disposition::Built);
    assert_eq!(record[1].disposition, Disposition::Built);
    assert_eq!(store.commits.len(), 2);
    assert_eq!(store.commits[record[0].commit].parent, None);
    assert_eq!(store.commits[record[1].commit].parent, Some(record[0].commit));
    assert_eq!(store.find_local(&ver(1, 0, 0)), Some(record[0].commit));
    assert_eq!(store.find_local(&ver(1, 1, 0)), Some(record[1].commit));
    assert_eq!(store.latest, Some(record[1].commit));
}

#[test]
fn latest_matches_highest_manifest_entry() {
    let mut store = ChainStore::new(false);
    let manifest = manifest_of(&[ver(1, 0, 0), ver(1, 1, 0), ver(1, 2, 0)]);
    let outcomes = all_good(3);
    let record = process_versions(&mut store, &manifest, &outcomes, false).unwrap();
    assert_eq!(store.latest, Some(record[2].commit));
    assert_eq!(store.find_local(&ver(1, 2, 0)), Some(record[2].commit));
}

#[test]
fn commit_records_content_and_version() {
    let mut store = ChainStore::new(false);
    let manifest = manifest_of(&[ver(1, 0, 0)]);
    let outcomes = all_good(1);
    let record = process_versions(&mut store, &manifest, &outcomes, false).unwrap();
    let node = store.commits[record[0].commit];
    assert_eq!(node.tree, 100);
    assert_eq!(node.version, ver(1, 0, 0));
}

#[test]
fn second_run_is_idempotent() {
    let mut store = ChainStore::new(false);
    let manifest = manifest_of(&[ver(1, 0, 0), ver(1, 1, 0)]);
    let record1 = process_versions(&mut store, &manifest, &all_good(2), true).unwrap();
    let commits_after_first = store.commits.len();

    let record2 = process_versions(&mut store, &manifest, &all_good(2), true).unwrap();
    assert_eq!(store.commits.len(), commits_after_first);
    assert_eq!(record2.len(), 2);
    assert_eq!(record2[0].disposition, Disposition::UsedLocal);
    assert_eq!(record2[1].disposition, Disposition::UsedLocal);
    assert_eq!(record2[0].commit, record1[0].commit);
    assert_eq!(record2[1].commit, record1[1].commit);
}

#[test]
fn transform_failure_stops_pass_and_leaves_tail_untouched() {
    let mut store = ChainStore::new(false);
    let manifest = manifest_of(&[ver(1, 0, 0), ver(1, 1, 0), ver(1, 2, 0)]);
    let mut outcomes = all_good(3);
    outcomes[1].transform_ok = false;

    let err = process_versions(&mut store, &manifest, &outcomes, true).unwrap_err();
    assert_eq!(err.index, 1);
    assert_eq!(err.version, ver(1, 1, 0));
    assert_eq!(err.failure, CollabFailure::Transform);

    assert!(store.find_local(&ver(1, 0, 0)).is_some());
    assert_eq!(store.find_local(&ver(1, 1, 0)), None);
    assert_eq!(store.find_local(&ver(1, 2, 0)), None);
    assert_eq!(store.latest, None);
    assert_eq!(store.commits.len(), 1);
}

#[test]
fn fetch_failure_reports_first_entry() {
    let mut store = ChainStore::new(false);
    let manifest = manifest_of(&[ver(1, 0, 0)]);
    let mut outcomes = all_good(1);
    outcomes[0].fetch_ok = false;

    let err = process_versions(&mut store, &manifest, &outcomes, true).unwrap_err();
    assert_eq!(err.index, 0);
    assert_eq!(err.failure, CollabFailure::Fetch);
    assert_eq!(store.commits.len(), 0);
}

#[test]
fn stale_local_fast_forwards_to_remote() {
    // The local branch for 1.0.0 sits on an old commit while the remote's
    // branch has moved ahead to a descendant: the pass fast-forwards the
    // local branch without building, then builds 1.1.0 on the new tip.
    let v100 = ver(1, 0, 0);
    let mut store = ChainStore::new(true);
    let old_commit = store.commit_snapshot(None, 1, v100);
    let new_commit = store.commit_snapshot(Some(old_commit), 2, v100);
    store.set_local_branch(&v100, new_commit);
    store.mirror_branch(&v100, true);
    store.set_local_branch(&v100, old_commit);

    assert_eq!(
        classify(&store, &v100),
        Action::FastForward { commit: new_commit }
    );

    let manifest = manifest_of(&[v100, ver(1, 1, 0)]);
    // The fast-forwarded entry's collaborators are never consulted: give it
    // a failing outcome and the pass must still succeed.
    let mut outcomes = all_good(2);
    outcomes[0].fetch_ok = false;
    outcomes[0].transform_ok = false;
    let record = process_versions(&mut store, &manifest, &outcomes, true).unwrap();
    assert_eq!(record[0].disposition, Disposition::FastForwarded);
    assert_eq!(record[0].commit, new_commit);
    assert_eq!(store.find_local(&v100), Some(new_commit));
    assert_eq!(record[1].disposition, Disposition::Built);
    assert_eq!(store.commits[record[1].commit].parent, Some(new_commit));
}

#[test]
fn diverged_remote_keeps_local() {
    // Two commits with no ancestry between them: the local branch wins.
    let v100 = ver(1, 0, 0);
    let mut store = ChainStore::new(true);
    let local_commit = store.commit_snapshot(None, 1, v100);
    let other_commit = store.commit_snapshot(None, 2, v100);
    store.set_local_branch(&v100, other_commit);
    store.mirror_branch(&v100, true);
    store.set_local_branch(&v100, local_commit);

    assert_eq!(
        classify(&store, &v100),
        Action::UseLocal { commit: local_commit }
    );
}

#[test]
fn remote_only_branch_is_fast_forward_created() {
    let v100 = ver(1, 0, 0);
    let mut store = ChainStore::new(true);
    let remote_commit = store.commit_snapshot(None, 1, v100);
    store.set_local_branch(&v100, remote_commit);
    store.mirror_branch(&v100, true);
    store.delete_local_branch(&v100);

    let manifest = manifest_of(&[v100]);
    let record = process_versions(&mut store, &manifest, &all_good(1), true).unwrap();
    assert_eq!(record[0].disposition, Disposition::FastForwarded);
    assert_eq!(store.find_local(&v100), Some(remote_commit));
    assert_eq!(store.commits.len(), 1);
}

#[test]
fn successful_build_pushes_branch_to_remote() {
    let v100 = ver(1, 0, 0);
    let mut store = ChainStore::new(true);
    let manifest = manifest_of(&[v100]);
    let record = process_versions(&mut store, &manifest, &all_good(1), true).unwrap();
    assert_eq!(store.find_remote(&v100), Some(record[0].commit));
    assert_eq!(store.remote_latest, Some(record[0].commit));
}

#[test]
fn failed_push_is_tolerated() {
    let v100 = ver(1, 0, 0);
    let mut store = ChainStore::new(true);
    let manifest = manifest_of(&[v100]);
    let mut outcomes = all_good(1);
    outcomes[0].push_ok = false;
    let record = process_versions(&mut store, &manifest, &outcomes, false).unwrap();
    assert_eq!(record[0].disposition, Disposition::Built);
    assert_eq!(store.find_local(&v100), Some(record[0].commit));
    assert_eq!(store.find_remote(&v100), None);
    assert_eq!(store.remote_latest, None);
}

#[test]
fn cascade_relinks_tail_after_splice() {
    // Build [1.0.0, 2.0.0]; splice 1.5.0 in between; a plain pass builds
    // only 1.5.0; the explicit cascade then rebuilds 2.0.0 onto 1.5.0's
    // commit and the old 2.0.0 commit is no longer referenced by any branch.
    let v100 = ver(1, 0, 0);
    let v150 = ver(1, 5, 0);
    let v200 = ver(2, 0, 0);
    let mut store = ChainStore::new(false);

    let first = manifest_of(&[v100, v200]);
    let record1 = process_versions(&mut store, &first, &all_good(2), true).unwrap();
    let old_v200_commit = record1[1].commit;

    let spliced = manifest_of(&[v100, v150, v200]);
    let record2 = process_versions(&mut store, &spliced, &all_good(3), true).unwrap();
    assert_eq!(record2[1].disposition, Disposition::Built);
    assert_eq!(record2[2].disposition, Disposition::UsedLocal);
    let v150_commit = record2[1].commit;
    // The plain pass chains the new 1.5.0 onto 1.0.0, but leaves 2.0.0 on
    // its old commit.
    assert_eq!(store.commits[v150_commit].parent, Some(record1[0].commit));
    assert_eq!(store.find_local(&v200), Some(old_v200_commit));

    let record3 = rebuild_tail(&mut store, &spliced, &v150, &all_good(3)).unwrap();
    assert_eq!(record3.len(), 1);
    assert_eq!(record3[0].version, v200);
    assert_eq!(record3[0].disposition, Disposition::Built);
    let new_v200_commit = record3[0].commit;
    assert_eq!(store.commits[new_v200_commit].parent, Some(v150_commit));
    assert_eq!(store.find_local(&v200), Some(new_v200_commit));
    // No branch references the superseded commit any more.
    assert_eq!(store.find_local(&v100), Some(record1[0].commit));
    assert_eq!(store.find_local(&v150), Some(v150_commit));
    for b in &store.local {
        assert_ne!(b.target, old_v200_commit);
    }
}

#[test]
fn cascade_failure_stops_midway() {
    let v100 = ver(1, 0, 0);
    let v110 = ver(1, 1, 0);
    let v120 = ver(1, 2, 0);
    let mut store = ChainStore::new(false);
    let manifest = manifest_of(&[v100, v110, v120]);
    process_versions(&mut store, &manifest, &all_good(3), true).unwrap();

    let mut outcomes = all_good(3);
    outcomes[2].fetch_ok = false;
    let err = rebuild_tail(&mut store, &manifest, &v110, &outcomes).unwrap_err();
    assert_eq!(err.index, 2);
    assert_eq!(err.version, v120);
    assert_eq!(err.failure, CollabFailure::Fetch);
    // The failing entry's stale branch is already gone; earlier ones stand.
    assert_eq!(store.find_local(&v120), None);
    assert!(store.find_local(&v110).is_some());
}

#[test]
fn build_version_roots_a_lineage() {
    let v = ver(0, 1, 0);
    let mut store = ChainStore::new(false);
    let outcome = BuildOutcome { fetch_ok: true, transform_ok: true, content: 9, push_ok: false };
    let id = build_version(&mut store, &v, None, &outcome).unwrap();
    assert_eq!(store.commits[id].parent, None);
    assert_eq!(store.commits[id].tree, 9);
    assert_eq!(store.find_local(&v), Some(id));
}

#[test]
fn ancestor_walk_follows_parents() {
    let v = ver(1, 0, 0);
    let mut store = ChainStore::new(false);
    let a = store.commit_snapshot(None, 0, v);
    let b = store.commit_snapshot(Some(a), 1, v);
    let c = store.commit_snapshot(Some(b), 2, v);
    let d = store.commit_snapshot(None, 3, v);
    assert!(store.is_ancestor(a, c));
    assert!(store.is_ancestor(c, c));
    assert!(!store.is_ancestor(c, a));
    assert!(!store.is_ancestor(a, d));
}
