//! The lineage inspector: recovering the set of known versions from the
//! branch names of the store.
//!
//! Branch names matching `version/<semver>` identify the versions that
//! already have a snapshot; any other name is skipped silently, never
//! reported as an error.

use vstd::prelude::*;

use crate::semver::{
    lemma_version_branch_injective, parse_version_branch, version_branch_chars, SemVer,
};

verus! {

broadcast use vstd::seq_lib::group_to_multiset_ensures, vstd::seq_lib::to_multiset_insert;

/// Whether a branch name names a version.
pub open spec fn is_version_branch(name: Seq<char>) -> bool {
    exists|v: SemVer| name == version_branch_chars(v)
}

/// The version a version branch names.
pub open spec fn branch_version(name: Seq<char>) -> SemVer {
    choose|v: SemVer| name == version_branch_chars(v)
}

/// The versions named by a list of branch names, in list order, with every
/// name that is not a version branch skipped.
pub open spec fn parsed_versions(names: Seq<Seq<char>>) -> Seq<SemVer>
    decreases names.len(),
{
    if names.len() == 0 {
        Seq::empty()
    } else if is_version_branch(names.first()) {
        seq![branch_version(names.first())] + parsed_versions(names.drop_first())
    } else {
        parsed_versions(names.drop_first())
    }
}

/// Nondecreasing in version precedence.
pub open spec fn sorted(s: Seq<SemVer>) -> bool {
    forall|i: int, j: int| 0 <= i < j < s.len() ==> #[trigger] s[i].spec_le(#[trigger] s[j])
}

proof fn lemma_parsed_versions_snoc(names: Seq<Seq<char>>, name: Seq<char>)
    ensures
        parsed_versions(names.push(name)) == if is_version_branch(name) {
            parsed_versions(names).push(branch_version(name))
        } else {
            parsed_versions(names)
        },
    decreases names.len(),
{
    let whole = names.push(name);
    if names.len() == 0 {
        assert(whole.drop_first() =~= Seq::<Seq<char>>::empty());
        if is_version_branch(name) {
            assert(seq![branch_version(name)] + parsed_versions(whole.drop_first())
                =~= parsed_versions(names).push(branch_version(name)));
        }
    } else {
        assert(whole.first() == names.first());
        assert(whole.drop_first() =~= names.drop_first().push(name));
        lemma_parsed_versions_snoc(names.drop_first(), name);
        if is_version_branch(names.first()) {
            if is_version_branch(name) {
                assert(seq![branch_version(names.first())] + parsed_versions(
                    names.drop_first(),
                ).push(branch_version(name)) =~= parsed_versions(names).push(
                    branch_version(name),
                ));
            }
        }
    }
}

/// Inserts `x` into a sorted list, keeping it sorted.
fn sorted_insert(r: &mut Vec<SemVer>, x: SemVer)
    requires
        sorted(old(r)@),
    ensures
        sorted(final(r)@),
        final(r)@.to_multiset() == old(r)@.to_multiset().insert(x),
{
    let len = r.len();
    let mut pos: usize = 0;
    while pos < len && !x.lt(&r[pos])
        invariant
            0 <= pos <= len,
            len == r@.len(),
            sorted(r@),
            forall|k: int| 0 <= k < pos ==> (#[trigger] r@[k]).spec_le(x),
        decreases len - pos,
    {
        pos = pos + 1;
    }
    let ghost s0 = r@;
    proof {
        assert(pos < len ==> x.spec_lt(s0[pos as int]));
    }
    r.insert(pos, x);
    proof {
        let s1 = r@;
        assert(forall|k: int| 0 <= k < pos ==> s1[k] == s0[k]);
        assert(s1[pos as int] == x);
        assert(forall|k: int| pos < k < s1.len() ==> s1[k] == s0[k - 1]);
        assert forall|i: int, j: int| 0 <= i < j < s1.len() implies (#[trigger] s1[i]).spec_le(
            #[trigger] s1[j],
        ) by {
            if i < pos && j == pos {
                assert(s0[i].spec_le(x));
            } else if i == pos && j > pos {
                assert(pos < len);
                assert(s0[pos as int].spec_le(s0[j - 1]));
            } else if i < pos && j > pos {
                assert(s0[i].spec_le(s0[j - 1]) || i == j - 1);
            }
        }
    }
}

/// Recovers the versions that already have a branch, from the full list of
/// the store's branch names.  Every name of the form `version/<semver>` in
/// canonical rendering contributes its version; every other name is skipped.
/// The result lists exactly the recovered versions, in nondecreasing
/// precedence order.
pub fn discover_existing(names: &Vec<String>) -> (r: Vec<SemVer>)
    ensures
        sorted(r@),
        r@.to_multiset() == parsed_versions(
            names@.map_values(|n: String| n@),
        ).to_multiset(),
{
    let ghost views = names@.map_values(|n: String| n@);
    let mut out: Vec<SemVer> = Vec::new();
    let mut i: usize = 0;
    while i < names.len()
        invariant
            0 <= i <= names@.len(),
            views == names@.map_values(|n: String| n@),
            sorted(out@),
            out@.to_multiset() == parsed_versions(views.take(i as int)).to_multiset(),
        decreases names@.len() - i,
    {
        let ghost prev = views.take(i as int);
        proof {
            assert(views.take(i + 1) =~= prev.push(views[i as int]));
            lemma_parsed_versions_snoc(prev, views[i as int]);
        }
        match parse_version_branch(names[i].as_str()) {
            Some(v) => {
                proof {
                    assert(views[i as int] == names@[i as int]@);
                    assert(is_version_branch(views[i as int]));
                    let w = branch_version(views[i as int]);
                    assert(views[i as int] == version_branch_chars(w));
                    lemma_version_branch_injective(v, w);
                }
                sorted_insert(&mut out, v);
            },
            None => {
                proof {
                    assert(views[i as int] == names@[i as int]@);
                    assert(!is_version_branch(views[i as int]));
                }
            },
        }
        i = i + 1;
    }
    proof {
        assert(views.take(names@.len() as int) =~= views);
    }
    out
}

} // verus!
