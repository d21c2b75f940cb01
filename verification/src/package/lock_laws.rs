//! Why canonicalizing a lockfile that passes the unordered check always succeeds: every
//! problem the ordered check could report is one the unordered check already ruled out,
//! or one the canonical form cannot have.
use vstd::prelude::*;

use crate::host::capability::{allows_seq, covers};
use crate::package::capabilities::{first_capability_error, normalizes};
use crate::host::capability::parse_capability_outcome;
use crate::package::lock::{
    dependency_entries_problems, locked_capabilities_problems, locked_problems, locked_targets_problems, nondecreasing,
    LockedView,
};
use crate::package::lockfile::{
    canonical_lock, canonical_package, coordinate_cycle, coordinates, has_image, has_source, is_last, is_locked,
    lock_acyclic, lock_base_problems, lock_edge, lock_valid, missing_problems, packages_problems, sorted_texts,
    unlocked_edges,
};
use crate::package::manifest::{indexed, target_problems};
use crate::package::order::{occurs, strictly_sorted};

verus! {

/// No entry among the first `n` is the package itself or repeats an earlier one.
spec fn entries_ok(deps: Seq<Seq<char>>, own: Seq<char>, n: nat) -> bool {
    &&& forall|i: int| 0 <= i < n ==> #[trigger] deps[i] != own
    &&& forall|i: int, j: int| 0 <= j < i < n ==> #[trigger] deps[j] != #[trigger] deps[i]
}

/// Dependency entries have no problem exactly when none is the package itself and none is
/// recorded twice.
#[verifier::spinoff_prover]
proof fn lemma_dependency_entries(deps: Seq<Seq<char>>, own: Seq<char>, prefix: Seq<char>, n: nat)
    requires
        n <= deps.len(),
    ensures
        (dependency_entries_problems(deps, own, prefix, n).len() == 0) == entries_ok(deps, own, n),
    decreases n,
{
    if n > 0 {
        let i = (n - 1) as nat;
        lemma_dependency_entries(deps, own, prefix, i);
        let dup = exists|j: int| 0 <= j < i && #[trigger] deps[j] == deps[i as int];
        let label = indexed(prefix + ".dependencies"@, i);
        assert(dependency_entries_problems(deps, own, prefix, n) == dependency_entries_problems(deps, own, prefix, i)
            + crate::package::lock::problem_if(dup, label, "dependency is recorded more than once"@)
            + crate::package::lock::problem_if(deps[i as int] == own, label, "package cannot depend on itself"@));
        if entries_ok(deps, own, n) {
            assert(entries_ok(deps, own, i));
            assert(deps[i as int] != own);
            if dup {
                let j = choose|j: int| 0 <= j < i && #[trigger] deps[j] == deps[i as int];
                assert(deps[j] != deps[i as int]);
            }
        }
        if entries_ok(deps, own, i) && !dup && deps[i as int] != own {
            assert forall|a: int, b: int| 0 <= b < a < n implies #[trigger] deps[b] != #[trigger] deps[a] by {
                if a == i {
                    if deps[b] == deps[a] {
                        assert(exists|j: int| 0 <= j < i && #[trigger] deps[j] == deps[i as int]);
                    }
                }
            }
            assert(entries_ok(deps, own, n));
        }
    }
}

/// A target has no problem: it is not empty and holds no whitespace or control character.
spec fn target_ok(t: Seq<char>) -> bool {
    target_problems(t, ""@).len() == 0
}

/// Targets have no problem exactly when each is fine.
proof fn lemma_targets(targets: Seq<Seq<char>>, prefix: Seq<char>, n: nat)
    requires
        n <= targets.len(),
    ensures
        locked_targets_problems(targets, prefix, n).len() == 0 <==> forall|i: int| 0 <= i < n ==> target_ok(#[trigger] targets[i]),
    decreases n,
{
    if n > 0 {
        let i = (n - 1) as nat;
        lemma_targets(targets, prefix, i);
        assert((target_problems(targets[i as int], indexed(prefix + ".targets"@, i)).len() == 0) == target_ok(targets[i as int]));
    }
}

/// No capability error exactly when every capability parses.
proof fn lemma_capabilities_parse(names: Seq<Seq<char>>)
    ensures
        first_capability_error(names) is None <==> forall|k: int| 0 <= k < names.len() ==> #[trigger] parse_capability_outcome(names[k]) is Ok,
    decreases names.len(),
{
    if names.len() > 0 {
        lemma_capabilities_parse(names.drop_first());
        assert forall|k: int| 0 < k < names.len() implies #[trigger] names[k] == names.drop_first()[k - 1] by {}
        if forall|k: int| 0 <= k < names.len() ==> #[trigger] parse_capability_outcome(names[k]) is Ok {
            assert forall|k: int| 0 <= k < names.drop_first().len() implies #[trigger] parse_capability_outcome(names.drop_first()[k]) is Ok by {
                assert(names.drop_first()[k] == names[k + 1]);
            }
        }
        if first_capability_error(names) is None {
            assert forall|k: int| 0 <= k < names.len() implies #[trigger] parse_capability_outcome(names[k]) is Ok by {
                if k > 0 {
                    assert(names.drop_first()[k - 1] == names[k]);
                }
            }
        }
    }
}

/// The canonical form of a record without problems has no problem, in canonical order
/// too, whatever label it is reported under.
proof fn lemma_record_canonical_clean(z: LockedView, x: LockedView, pz: Seq<char>, px: Seq<char>)
    requires
        canonical_package(z, x),
        locked_problems(x, px, false).len() == 0,
    ensures
        locked_problems(z, pz, true).len() == 0,
{
    lemma_dependency_entries(x.dependencies, x.coordinate, px, x.dependencies.len());
    assert(entries_ok(x.dependencies, x.coordinate, x.dependencies.len()));
    x.dependencies.to_multiset_ensures();
    z.dependencies.to_multiset_ensures();
    assert(x.dependencies.no_duplicates());
    x.dependencies.lemma_multiset_has_no_duplicates();
    assert forall|d: Seq<char>| z.dependencies.to_multiset().contains(d) implies z.dependencies.to_multiset().count(d) == 1 by {}
    z.dependencies.lemma_multiset_has_no_duplicates_conv();
    assert forall|i: int| 0 <= i < z.dependencies.len() implies #[trigger] z.dependencies[i] != z.coordinate by {
        assert(z.dependencies.contains(z.dependencies[i]));
        assert(z.dependencies.to_multiset().count(z.dependencies[i]) > 0);
        assert(x.dependencies.contains(z.dependencies[i]));
    }
    assert(entries_ok(z.dependencies, z.coordinate, z.dependencies.len()));
    lemma_dependency_entries(z.dependencies, z.coordinate, pz, z.dependencies.len());
    assert(nondecreasing(z.dependencies)) by {
        assert forall|i: int| 0 <= i < z.dependencies.len() - 1 implies !crate::host::capability::lex_lt(#[trigger] z.dependencies[i + 1], z.dependencies[i]) by {
            assert(sorted_texts(z.dependencies));
        }
    }
    let xc = locked_capabilities_problems(x.capabilities, px, false);
    assert(xc.len() == 0);
    assert(first_capability_error(x.capabilities) is None);
    lemma_capabilities_parse(x.capabilities);
    assert forall|k: int| 0 <= k < z.capabilities.len() implies #[trigger] parse_capability_outcome(z.capabilities[k]) is Ok by {
        assert(z.capabilities.contains(z.capabilities[k]));
        assert(x.capabilities.contains(z.capabilities[k]));
        let m = choose|m: int| 0 <= m < x.capabilities.len() && x.capabilities[m] == z.capabilities[k];
        assert(parse_capability_outcome(x.capabilities[m]) is Ok);
    }
    lemma_capabilities_parse(z.capabilities);
    assert(normalizes(z.capabilities, z.capabilities)) by {
        assert forall|q: Seq<char>| allows_seq(z.capabilities, q) <==> exists|k: int| 0 <= k < z.capabilities.len() && covers(#[trigger] z.capabilities[k], q) by {}
    }
    lemma_targets(x.targets, px, x.targets.len());
    assert forall|i: int| 0 <= i < z.targets.len() implies target_ok(#[trigger] z.targets[i]) by {
        assert(occurs(z.targets, z.targets[i]));
        assert(occurs(x.targets, z.targets[i]));
        let m = choose|m: int| 0 <= m < x.targets.len() && #[trigger] x.targets[m] == z.targets[i];
        assert(target_ok(x.targets[m]));
    }
    lemma_targets(z.targets, pz, z.targets.len());
}

/// The package records of a lockfile have no problem exactly when no coordinate repeats
/// and each record has none.
proof fn lemma_packages(ps: Seq<LockedView>, order: bool, n: nat)
    requires
        n <= ps.len(),
    ensures
        packages_problems(ps, order, n).len() == 0 <==> forall|i: int| 0 <= i < n ==> ((forall|j: int| 0 <= j < i ==> ps[j].coordinate != (#[trigger] ps[i]).coordinate)
            && locked_problems(ps[i], indexed("packages"@, i as nat), order).len() == 0),
    decreases n,
{
    if n > 0 {
        let i = (n - 1) as nat;
        lemma_packages(ps, order, i);
        if exists|j: int| 0 <= j < i && #[trigger] ps[j].coordinate == ps[i as int].coordinate {
            let j = choose|j: int| 0 <= j < i && #[trigger] ps[j].coordinate == ps[i as int].coordinate;
            assert(ps[j].coordinate == ps[i as int].coordinate);
        }
        if forall|i2: int| 0 <= i2 < n ==> ((forall|j: int| 0 <= j < i2 ==> ps[j].coordinate != (#[trigger] ps[i2]).coordinate)
            && locked_problems(ps[i2], indexed("packages"@, i2 as nat), order).len() == 0) {
            assert(forall|j: int| 0 <= j < i ==> ps[j].coordinate != ps[i as int].coordinate);
            assert(!exists|j: int| 0 <= j < i && #[trigger] ps[j].coordinate == ps[i as int].coordinate);
        }
    }
}

/// The first `k` edges of package `i` name no unlocked package exactly when each is locked.
proof fn lemma_unlocked(ps: Seq<LockedView>, i: int, k: nat)
    requires
        0 <= i < ps.len(),
        k <= ps[i].dependencies.len(),
    ensures
        unlocked_edges(ps, i, k).len() == 0 <==> forall|m: int| 0 <= m < k ==> is_locked(ps, #[trigger] ps[i].dependencies[m]),
    decreases k,
{
    if k > 0 {
        lemma_unlocked(ps, i, (k - 1) as nat);
    }
}

/// No edge of the first `n` packages is missing exactly when every edge names a locked
/// package.
proof fn lemma_missing(ps: Seq<LockedView>, n: nat)
    requires
        n <= ps.len(),
    ensures
        missing_problems(ps, n).len() == 0 <==> forall|i: int, m: int| 0 <= i < n && 0 <= m < ps[i].dependencies.len() ==> is_locked(ps, #[trigger] ps[i].dependencies[m]),
    decreases n,
{
    if n > 0 {
        lemma_missing(ps, (n - 1) as nat);
        lemma_unlocked(ps, n - 1, ps[n - 1].dependencies.len());
    }
}

/// An edge of the canonical form is an edge of the original.
proof fn lemma_edge_kept(old: Seq<LockedView>, new: Seq<LockedView>, a: Seq<char>, b: Seq<char>)
    requires
        canonical_lock(new, old),
        forall|i: int, j: int| 0 <= j < i < old.len() ==> (#[trigger] old[j]).coordinate != (#[trigger] old[i]).coordinate,
        lock_edge(new, a, b),
    ensures
        lock_edge(old, a, b),
{
    let i = choose|i: int| #[trigger] is_last(new, i) && new[i].coordinate == a && new[i].dependencies.contains(b);
    assert(has_source(new[i], old, 0));
    let j = choose|j: int| 0 <= j < old.len() && #[trigger] canonical_package(new[i], old[j]);
    new[i].dependencies.to_multiset_ensures();
    old[j].dependencies.to_multiset_ensures();
    assert(new[i].dependencies.to_multiset().count(b) > 0);
    assert(old[j].dependencies.contains(b));
    assert forall|q: int| j < q < old.len() implies #[trigger] old[q].coordinate != old[j].coordinate by {}
    assert(is_last(old, j));
    let m = choose|m: int| 0 <= m < new.len() && #[trigger] new[m].coordinate == b;
    assert(has_source(new[m], old, 0));
    let m2 = choose|m2: int| 0 <= m2 < old.len() && #[trigger] canonical_package(new[m], old[m2]);
    assert(old[m2].coordinate == b);
}

/// The records of the canonical form have no problem, in canonical order too.
#[verifier::spinoff_prover]
proof fn lemma_new_packages_clean(old: Seq<LockedView>, new: Seq<LockedView>)
    requires
        packages_problems(old, false, old.len()).len() == 0,
        canonical_lock(new, old),
    ensures
        packages_problems(new, true, new.len()).len() == 0,
{
    lemma_packages(old, false, old.len());
    let cn = coordinates(new);
    assert forall|i: int| 0 <= i < new.len() implies ((forall|j: int| 0 <= j < i ==> new[j].coordinate != (#[trigger] new[i]).coordinate)
        && locked_problems(new[i], indexed("packages"@, i as nat), true).len() == 0) by {
        assert forall|j: int| 0 <= j < i implies new[j].coordinate != new[i].coordinate by {
            assert(cn[j] == new[j].coordinate && cn[i] == new[i].coordinate);
            assert(crate::host::capability::lex_lt(cn[j], cn[i]));
            crate::host::capability::lemma_lex_irreflexive(cn[i]);
        }
        assert(has_source(new[i], old, 0));
        let k = choose|k: int| 0 <= k < old.len() && #[trigger] canonical_package(new[i], old[k]);
        assert(locked_problems(old[k], indexed("packages"@, k as nat), false).len() == 0);
        lemma_record_canonical_clean(new[i], old[k], indexed("packages"@, i as nat), indexed("packages"@, k as nat));
    }
    lemma_packages(new, true, new.len());
}

/// Every edge of the canonical form names a locked package.
#[verifier::spinoff_prover]
proof fn lemma_new_edges_locked(old: Seq<LockedView>, new: Seq<LockedView>)
    requires
        missing_problems(old, old.len()).len() == 0,
        canonical_lock(new, old),
    ensures
        missing_problems(new, new.len()).len() == 0,
{
    lemma_missing(old, old.len());
    assert forall|i: int, m: int| 0 <= i < new.len() && 0 <= m < new[i].dependencies.len() implies is_locked(new, #[trigger] new[i].dependencies[m]) by {
        let b = new[i].dependencies[m];
        assert(has_source(new[i], old, 0));
        let k = choose|k: int| 0 <= k < old.len() && #[trigger] canonical_package(new[i], old[k]);
        new[i].dependencies.to_multiset_ensures();
        old[k].dependencies.to_multiset_ensures();
        assert(new[i].dependencies.contains(b));
        assert(new[i].dependencies.to_multiset().count(b) > 0);
        assert(old[k].dependencies.contains(b));
        let mm = choose|mm: int| 0 <= mm < old[k].dependencies.len() && old[k].dependencies[mm] == b;
        assert(is_locked(old, old[k].dependencies[mm]));
        let o = choose|o: int| 0 <= o < old.len() && #[trigger] old[o].coordinate == b;
        assert(has_image(new, old[o]));
        let q = choose|q: int| 0 <= q < new.len() && #[trigger] canonical_package(new[q], old[o]);
        assert(new[q].coordinate == b);
    }
    lemma_missing(new, new.len());
}

/// A lockfile that passes the unordered check canonicalizes to one that passes the
/// ordered check.
#[verifier::spinoff_prover]
pub proof fn law_canonical_lock_valid(old: Seq<LockedView>, new: Seq<LockedView>)
    requires
        lock_valid(old, false),
        canonical_lock(new, old),
    ensures
        lock_valid(new, true),
{
    let cn = coordinates(new);
    lemma_new_packages_clean(old, new);
    lemma_new_edges_locked(old, new);
    assert(nondecreasing(cn)) by {
        assert forall|i: int| 0 <= i < cn.len() - 1 implies !crate::host::capability::lex_lt(#[trigger] cn[i + 1], cn[i]) by {
            assert(crate::host::capability::lex_lt(cn[i], cn[i + 1]));
            crate::host::capability::lemma_lex_asymmetric(cn[i], cn[i + 1]);
        }
    }
    lemma_packages(old, false, old.len());
    assert forall|i: int, j: int| 0 <= j < i < old.len() implies (#[trigger] old[j]).coordinate != (#[trigger] old[i]).coordinate by {
        assert(forall|j2: int| 0 <= j2 < i ==> old[j2].coordinate != (#[trigger] old[i]).coordinate);
    }
    assert forall|c: Seq<Seq<char>>| !coordinate_cycle(new, c) by {
        if coordinate_cycle(new, c) {
            assert forall|i: int| 0 <= i < c.len() - 1 implies lock_edge(old, #[trigger] c[i], c[i + 1]) by {
                lemma_edge_kept(old, new, c[i], c[i + 1]);
            }
            assert(coordinate_cycle(old, c));
        }
    }
    assert(lock_acyclic(new));
}

} // verus!
