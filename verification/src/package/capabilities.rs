//! Capability validation and deterministic normalization backed by the host hierarchy.
use vstd::prelude::*;

use crate::host::capability::{
    allows_seq, canonical, covers, parse_capability_outcome, Capability, CapabilityError,
    CapabilitySet,
};
use crate::host::capability::{law_covers_only_descendants, law_covers_reflexive, law_covers_transitive};
use crate::package::order::{lemma_sorted_unique, occurs};
use crate::text::string_views;

verus! {

/// The reading of a capability error: `None` for an empty path, or the bad segment.
pub open spec fn capability_error_kind(error: CapabilityError) -> Option<Seq<char>> {
    match error {
        CapabilityError::Empty => None,
        CapabilityError::InvalidSegment(segment) => Some(segment@),
    }
}

/// The first name that is not a capability, with its error reading.
pub open spec fn first_capability_error(names: Seq<Seq<char>>) -> Option<Option<Seq<char>>>
    decreases names.len(),
{
    if names.len() == 0 {
        None
    } else {
        match parse_capability_outcome(names[0]) {
            Err(kind) => Some(kind),
            Ok(_) => first_capability_error(names.drop_first()),
        }
    }
}

/// Whether `set` is the minimal set covering exactly what the paths `names` cover.
pub open spec fn normalizes(set: Seq<Seq<char>>, names: Seq<Seq<char>>) -> bool {
    &&& canonical(set)
    &&& forall|x: Seq<char>|
        allows_seq(set, x) <==> exists|k: int| 0 <= k < names.len() && covers(#[trigger] names[k], x)
    &&& forall|e: Seq<char>| #![trigger set.contains(e)] set.contains(e) ==> names.contains(e)
}

proof fn lemma_first_error_step(names: Seq<Seq<char>>, k: int)
    requires
        0 <= k < names.len(),
        first_capability_error(names) == first_capability_error(names.skip(k)),
    ensures
        parse_capability_outcome(names[k]) is Ok ==> first_capability_error(names) == first_capability_error(names.skip(k + 1)),
        parse_capability_outcome(names[k]) matches Err(kind) ==> first_capability_error(names) == Some(kind),
{
    assert(names.skip(k)[0] == names[k]);
    assert(names.skip(k).drop_first() =~= names.skip(k + 1));
}

/// Parses a package capability declaration into the host's deny-by-default set.
pub fn parse_capabilities(names: &[String]) -> (result: Result<CapabilitySet, CapabilityError>)
    ensures
        match result {
            Ok(set) => first_capability_error(string_views(names@)) is None && normalizes(set@, string_views(names@)),
            Err(error) => first_capability_error(string_views(names@)) == Some(capability_error_kind(error)),
        },
{
    let ghost all = string_views(names@);
    let mut set = CapabilitySet::none();
    let mut i: usize = 0;
    assert(all.skip(0) =~= all);
    while i < names.len()
        invariant
            all == string_views(names@),
            i <= names@.len(),
            first_capability_error(all) == first_capability_error(all.skip(i as int)),
            canonical(set@),
            forall|x: Seq<char>|
                allows_seq(set@, x) <==> exists|k: int| 0 <= k < i && covers(#[trigger] all[k], x),
            forall|e: Seq<char>| #![trigger set@.contains(e)] set@.contains(e) ==> exists|k: int| 0 <= k < i && all[k] == e,
        decreases names.len() - i,
    {
        assert(all[i as int] == names@[i as int]@);
        proof {
            lemma_first_error_step(all, i as int);
        }
        let capability = match Capability::parse(names[i].as_str()) {
            Ok(capability) => capability,
            Err(error) => {
                return Err(error);
            },
        };
        let ghost before = set@;
        let ghost cap = capability@;
        let changed = set.grant(capability);
        proof {
            assert forall|x: Seq<char>| allows_seq(set@, x) <==> exists|k: int| 0 <= k < i + 1 && covers(#[trigger] all[k], x) by {
                assert(allows_seq(set@, x) == (allows_seq(before, x) || covers(cap, x)));
                if allows_seq(before, x) {
                    let k = choose|k: int| 0 <= k < i && covers(#[trigger] all[k], x);
                    assert(0 <= k < i + 1 && covers(all[k], x));
                }
                if exists|k: int| 0 <= k < i + 1 && covers(#[trigger] all[k], x) {
                    let k = choose|k: int| 0 <= k < i + 1 && covers(#[trigger] all[k], x);
                    if k < i {
                        assert(allows_seq(before, x));
                    }
                }
            }
            assert forall|e: Seq<char>| #![trigger set@.contains(e)] set@.contains(e) implies exists|k: int| 0 <= k < i + 1 && all[k] == e by {
                if changed && e == cap {
                    assert(all[i as int] == e);
                } else {
                    assert(before.contains(e));
                    let k = choose|k: int| 0 <= k < i && all[k] == e;
                    assert(0 <= k < i + 1 && all[k] == e);
                }
            }
        }
        i = i + 1;
    }
    proof {
        assert(all.skip(i as int).len() == 0);
        assert forall|e: Seq<char>| #![trigger set@.contains(e)] set@.contains(e) implies all.contains(e) by {
            let k = choose|k: int| 0 <= k < i && all[k] == e;
        }
    }
    Ok(set)
}

/// Parses and minimally normalizes package capability names.
pub fn normalize_capabilities(names: &[String]) -> (result: Result<Vec<String>, CapabilityError>)
    ensures
        match result {
            Ok(normalized) => first_capability_error(string_views(names@)) is None && normalizes(string_views(normalized@), string_views(names@)),
            Err(error) => first_capability_error(string_views(names@)) == Some(capability_error_kind(error)),
        },
{
    let set = parse_capabilities(names)?;
    let grants = set.as_slice();
    let mut out: Vec<String> = Vec::new();
    let mut i: usize = 0;
    while i < grants.len()
        invariant
            grants@.map_values(|c: Capability| c@) == set@,
            i <= grants@.len(),
            string_views(out@) == set@.take(i as int),
        decreases grants.len() - i,
    {
        let ghost before = out@;
        assert(grants@[i as int]@ == set@[i as int]);
        let text = grants[i].to_string();
        out.push(text);
        assert(out@ == before.push(text));
        assert(string_views(out@) =~= string_views(before).push(text@));
        assert(set@.take(i + 1) =~= set@.take(i as int).push(set@[i as int]));
        i = i + 1;
    }
    assert(set@.take(i as int) =~= set@);
    Ok(out)
}

/// Computes the deterministic union of capability sets.
pub fn union_capabilities(sets: &[&CapabilitySet]) -> (union: CapabilitySet)
    ensures
        canonical(union@),
        forall|x: Seq<char>|
            allows_seq(union@, x) <==> exists|k: int| 0 <= k < sets@.len() && allows_seq(#[trigger] sets@[k]@, x),
{
    let mut union = CapabilitySet::none();
    let mut i: usize = 0;
    while i < sets.len()
        invariant
            i <= sets@.len(),
            canonical(union@),
            forall|x: Seq<char>|
                #![trigger allows_seq(union@, x)]
                allows_seq(union@, x) <==> exists|k: int| 0 <= k < i && allows_seq(#[trigger] sets@[k]@, x),
        decreases sets.len() - i,
    {
        let set: &CapabilitySet = sets[i];
        let grants = set.as_slice();
        let mut j: usize = 0;
        let ghost start = union@;
        while j < grants.len()
            invariant
                i < sets@.len(),
                set == sets@[i as int],
                grants@.map_values(|c: Capability| c@) == set@,
                j <= grants@.len(),
                canonical(union@),
                forall|x: Seq<char>|
                    #![trigger allows_seq(union@, x)]
                    allows_seq(union@, x) <==> (allows_seq(start, x) || exists|k: int| 0 <= k < j && covers(#[trigger] set@[k], x)),
            decreases grants.len() - j,
        {
            let ghost before = union@;
            let ghost cap = grants@[j as int]@;
            assert(cap == set@[j as int]);
            let copy = grants[j].duplicate();
            assert(copy@ == cap);
            union.grant(copy);
            proof {
                assert forall|x: Seq<char>| allows_seq(union@, x) <==> (allows_seq(start, x) || exists|k: int| 0 <= k < j + 1 && covers(#[trigger] set@[k], x)) by {
                    assert(allows_seq(union@, x) == (allows_seq(before, x) || covers(cap, x)));
                    assert(allows_seq(before, x) == (allows_seq(start, x) || exists|k: int| 0 <= k < j && covers(#[trigger] set@[k], x)));
                    if exists|k: int| 0 <= k < j + 1 && covers(#[trigger] set@[k], x) {
                        let k = choose|k: int| 0 <= k < j + 1 && covers(#[trigger] set@[k], x);
                        if k < j {
                            assert(exists|k2: int| 0 <= k2 < j && covers(#[trigger] set@[k2], x));
                        } else {
                            assert(covers(cap, x));
                        }
                    }
                    if allows_seq(before, x) && !allows_seq(start, x) {
                        let k = choose|k: int| 0 <= k < j && covers(#[trigger] set@[k], x);
                        assert(0 <= k < j + 1 && covers(set@[k], x));
                    }
                    if covers(cap, x) {
                        assert(0 <= j < j + 1 && covers(set@[j as int], x));
                    }
                }
            }
            j = j + 1;
        }
        proof {
            assert forall|x: Seq<char>| allows_seq(union@, x) <==> exists|k: int| 0 <= k < i + 1 && allows_seq(#[trigger] sets@[k]@, x) by {
                if exists|k: int| 0 <= k < i + 1 && allows_seq(#[trigger] sets@[k]@, x) {
                    let k = choose|k: int| 0 <= k < i + 1 && allows_seq(#[trigger] sets@[k]@, x);
                    if k < i {
                        assert(allows_seq(start, x));
                    } else {
                        let m = choose|m: int| 0 <= m < set@.len() && covers(set@[m], x);
                        assert(exists|k2: int| 0 <= k2 < j && covers(#[trigger] set@[k2], x));
                    }
                }
                if allows_seq(union@, x) {
                    if allows_seq(start, x) {
                        let k = choose|k: int| 0 <= k < i && allows_seq(#[trigger] sets@[k]@, x);
                        assert(0 <= k < i + 1 && allows_seq(sets@[k]@, x));
                    } else {
                        let m = choose|m: int| 0 <= m < j && covers(#[trigger] set@[m], x);
                        assert(allows_seq(sets@[i as int]@, x));
                    }
                }
            }
        }
        i = i + 1;
    }
    union
}

/// Returns the first capability in `capabilities` not covered by `root`.
pub fn first_outside_bound(root: &CapabilitySet, capabilities: &CapabilitySet) -> (outside: Option<Capability>)
    ensures
        match outside {
            Some(c) => exists|k: int| 0 <= k < capabilities@.len() && capabilities@[k] == c@
                && !allows_seq(root@, c@)
                && forall|j: int| 0 <= j < k ==> allows_seq(root@, #[trigger] capabilities@[j]),
            None => forall|j: int| 0 <= j < capabilities@.len() ==> allows_seq(root@, #[trigger] capabilities@[j]),
        },
{
    let grants = capabilities.as_slice();
    let mut i: usize = 0;
    while i < grants.len()
        invariant
            grants@.map_values(|c: Capability| c@) == capabilities@,
            i <= grants@.len(),
            forall|j: int| 0 <= j < i ==> allows_seq(root@, #[trigger] capabilities@[j]),
        decreases grants.len() - i,
    {
        if !root.allows(&grants[i]) {
            let found = grants[i].duplicate();
            assert(capabilities@[i as int] == found@);
            return Some(found);
        }
        i = i + 1;
    }
    None
}

/// Each text of one normal form occurs in the other.
proof fn lemma_normal_members(a: Seq<Seq<char>>, b: Seq<Seq<char>>, names: Seq<Seq<char>>, t: Seq<char>)
    requires
        normalizes(a, names),
        normalizes(b, names),
        occurs(a, t),
    ensures
        occurs(b, t),
{
    let i = choose|i: int| 0 <= i < a.len() && a[i] == t;
    law_covers_reflexive(t);
    assert(allows_seq(a, t));
    assert(allows_seq(b, t));
    let j = choose|j: int| 0 <= j < b.len() && covers(#[trigger] b[j], t);
    law_covers_reflexive(b[j]);
    assert(allows_seq(b, b[j]));
    assert(allows_seq(a, b[j]));
    assert(covers(b[j], t));
    let i2 = choose|i2: int| 0 <= i2 < a.len() && covers(#[trigger] a[i2], b[j]);
    law_covers_transitive(a[i2], b[j], t);
    if i2 != i {
        assert(!covers(a[i2], a[i]));
    }
    if b[j] != t {
        law_covers_only_descendants(t, b[j]);
        law_covers_only_descendants(b[j], t);
    }
    assert(b[j] == t);
}

/// The normal form of a capability list is unique.
pub proof fn lemma_normal_unique(a: Seq<Seq<char>>, b: Seq<Seq<char>>, names: Seq<Seq<char>>)
    requires
        normalizes(a, names),
        normalizes(b, names),
    ensures
        a == b,
{
    assert forall|t: Seq<char>| occurs(a, t) <==> occurs(b, t) by {
        if occurs(a, t) {
            lemma_normal_members(a, b, names, t);
        }
        if occurs(b, t) {
            lemma_normal_members(b, a, names, t);
        }
    }
    lemma_sorted_unique(a, b);
}

/// A grant of a canonical list allowed by another canonical list that allows the same
/// capabilities is in that list too.
proof fn lemma_canonical_member(a: Seq<Seq<char>>, b: Seq<Seq<char>>, i: int)
    requires
        canonical(a),
        canonical(b),
        forall|x: Seq<char>| allows_seq(a, x) <==> allows_seq(b, x),
        0 <= i < a.len(),
    ensures
        occurs(b, a[i]),
{
    let t = a[i];
    law_covers_reflexive(t);
    assert(allows_seq(a, t));
    let m = choose|m: int| 0 <= m < b.len() && covers(#[trigger] b[m], t);
    law_covers_reflexive(b[m]);
    assert(allows_seq(b, b[m]));
    let k = choose|k: int| 0 <= k < a.len() && covers(#[trigger] a[k], b[m]);
    law_covers_transitive(a[k], b[m], t);
    assert(k == i);
    if b[m] != t {
        law_covers_only_descendants(b[m], t);
        law_covers_only_descendants(t, b[m]);
    }
    assert(b[m] == t);
}

/// Two canonical grant lists that allow the same capabilities are the same list. So a
/// union of capability sets does not depend on the order in which the sets come: each
/// order gives a canonical list allowing what one of the sets allows.
pub proof fn law_union_order_independent(a: Seq<Seq<Seq<char>>>, b: Seq<Seq<Seq<char>>>, ua: Seq<Seq<char>>, ub: Seq<Seq<char>>)
    requires
        a.to_multiset() == b.to_multiset(),
        canonical(ua),
        canonical(ub),
        forall|x: Seq<char>| allows_seq(ua, x) <==> exists|k: int| 0 <= k < a.len() && allows_seq(#[trigger] a[k], x),
        forall|x: Seq<char>| allows_seq(ub, x) <==> exists|k: int| 0 <= k < b.len() && allows_seq(#[trigger] b[k], x),
    ensures
        ua == ub,
{
    assert forall|x: Seq<char>| allows_seq(ua, x) <==> allows_seq(ub, x) by {
        if allows_seq(ua, x) {
            let k = choose|k: int| 0 <= k < a.len() && allows_seq(#[trigger] a[k], x);
            a.to_multiset_ensures();
            b.to_multiset_ensures();
            assert(a.to_multiset().count(a[k]) > 0);
            assert(b.contains(a[k]));
            let m = choose|m: int| 0 <= m < b.len() && b[m] == a[k];
            assert(allows_seq(b[m], x));
        }
        if allows_seq(ub, x) {
            let k = choose|k: int| 0 <= k < b.len() && allows_seq(#[trigger] b[k], x);
            a.to_multiset_ensures();
            b.to_multiset_ensures();
            assert(b.to_multiset().count(b[k]) > 0);
            assert(a.contains(b[k]));
            let m = choose|m: int| 0 <= m < a.len() && a[m] == b[k];
            assert(allows_seq(a[m], x));
        }
    }
    law_canonical_unique(ua, ub);
}

/// A canonical grant list is fixed by what it allows: two that allow the same
/// capabilities are the same list.
pub proof fn law_canonical_unique(a: Seq<Seq<char>>, b: Seq<Seq<char>>)
    requires
        canonical(a),
        canonical(b),
        forall|x: Seq<char>| allows_seq(a, x) <==> allows_seq(b, x),
    ensures
        a == b,
{
    assert forall|t: Seq<char>| occurs(a, t) <==> occurs(b, t) by {
        if occurs(a, t) {
            let i = choose|i: int| 0 <= i < a.len() && #[trigger] a[i] == t;
            lemma_canonical_member(a, b, i);
        }
        if occurs(b, t) {
            let i = choose|i: int| 0 <= i < b.len() && #[trigger] b[i] == t;
            lemma_canonical_member(b, a, i);
        }
    }
    lemma_sorted_unique(a, b);
}

} // verus!
