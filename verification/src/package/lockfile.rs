//! The complete `aipo.lock` document: package records, their coordinate graph, and
//! its validation.
use vstd::prelude::*;

use crate::host::capability::{lemma_lex_total, lex_lt};
use crate::package::coordinate::PackageId;
use crate::package::error::{problem_pairs, push_problem, LockfileError, ValidationProblem};
use crate::package::graph::{acyclic, edge, find_cycle, graph_well_formed, is_cycle};
use crate::package::lock::{LockedPackage, LockedView, locked_problems, nondecreasing, one, problem_if};
use crate::package::manifest::{index_label, indexed};
use crate::package::order::{lemma_lex_strict, text_equal, text_less};

verus! {

/// The value readings of a list of locked packages.
pub open spec fn locked_views(ps: Seq<LockedPackage>) -> Seq<LockedView> {
    ps.map_values(|p: LockedPackage| p@)
}

/// The coordinates of a list of locked packages, in order.
pub open spec fn coordinates(ps: Seq<LockedView>) -> Seq<Seq<char>> {
    ps.map_values(|p: LockedView| p.coordinate)
}

/// Some package is locked under coordinate `c`.
pub open spec fn is_locked(ps: Seq<LockedView>, c: Seq<char>) -> bool {
    exists|m: int| 0 <= m < ps.len() && #[trigger] ps[m].coordinate == c
}

/// Package `i` is the last one locked under its coordinate; the graph uses its edges.
pub open spec fn is_last(ps: Seq<LockedView>, i: int) -> bool {
    &&& 0 <= i < ps.len()
    &&& forall|j: int| i < j < ps.len() ==> #[trigger] ps[j].coordinate != ps[i].coordinate
}

/// The coordinate graph: `a` depends on the locked coordinate `b`, as recorded by the last
/// package locked under `a`.
pub open spec fn lock_edge(ps: Seq<LockedView>, a: Seq<char>, b: Seq<char>) -> bool {
    &&& exists|i: int| #[trigger] is_last(ps, i) && ps[i].coordinate == a && ps[i].dependencies.contains(b)
    &&& is_locked(ps, b)
}

/// A closed walk of coordinates in the coordinate graph.
pub open spec fn coordinate_cycle(ps: Seq<LockedView>, c: Seq<Seq<char>>) -> bool {
    &&& c.len() >= 2
    &&& c[0] == c[c.len() - 1]
    &&& forall|i: int| 0 <= i < c.len() - 1 ==> lock_edge(ps, #[trigger] c[i], c[i + 1])
}

/// The coordinate graph has no cycle.
pub open spec fn lock_acyclic(ps: Seq<LockedView>) -> bool {
    forall|c: Seq<Seq<char>>| !coordinate_cycle(ps, c)
}

/// Coordinates joined with `" -> "`.
pub open spec fn arrow_joined(c: Seq<Seq<char>>) -> Seq<char>
    decreases c.len(),
{
    if c.len() == 0 {
        Seq::empty()
    } else if c.len() == 1 {
        c[0]
    } else {
        arrow_joined(c.drop_last()) + " -> "@ + c.last()
    }
}

/// Problems of the first `n` packages: repeated coordinates and each record's own problems.
pub open spec fn packages_problems(ps: Seq<LockedView>, require_order: bool, n: nat) -> Seq<(Seq<char>, Seq<char>)>
    decreases n,
{
    if n == 0 {
        Seq::empty()
    } else {
        let i = (n - 1) as nat;
        packages_problems(ps, require_order, i)
            + problem_if(exists|j: int| 0 <= j < i && #[trigger] ps[j].coordinate == ps[i as int].coordinate,
                indexed("packages"@, i) + ".coordinate"@, "package coordinate is locked more than once"@)
            + locked_problems(ps[i as int], indexed("packages"@, i), require_order)
    }
}

/// Problems of the first `k` dependency edges of package `i` that name no locked package.
pub open spec fn unlocked_edges(ps: Seq<LockedView>, i: int, k: nat) -> Seq<(Seq<char>, Seq<char>)>
    decreases k,
{
    if k == 0 {
        Seq::empty()
    } else {
        let d = ps[i].dependencies[k - 1];
        unlocked_edges(ps, i, (k - 1) as nat) + problem_if(!is_locked(ps, d),
            "packages."@ + ps[i].coordinate + ".dependencies"@, "dependency '"@ + d + "' is not locked"@)
    }
}

/// Problems of the first `n` packages' edges that name no locked package.
pub open spec fn missing_problems(ps: Seq<LockedView>, n: nat) -> Seq<(Seq<char>, Seq<char>)>
    decreases n,
{
    if n == 0 {
        Seq::empty()
    } else {
        let i = (n - 1) as int;
        missing_problems(ps, (n - 1) as nat) + unlocked_edges(ps, i, ps[i].dependencies.len())
    }
}

/// Every problem of a lockfile except a dependency cycle, in the order validation reports
/// them.
pub open spec fn lock_base_problems(ps: Seq<LockedView>, require_order: bool) -> Seq<(Seq<char>, Seq<char>)> {
    packages_problems(ps, require_order, ps.len())
        + problem_if(require_order && !nondecreasing(coordinates(ps)), "packages"@,
            "packages are not in canonical coordinate order"@)
        + missing_problems(ps, ps.len())
}

/// What follows the other problems: nothing when the coordinate graph is acyclic, else one
/// problem naming a cycle of it.
pub open spec fn cycle_report(ps: Seq<LockedView>, tail: Seq<(Seq<char>, Seq<char>)>) -> bool {
    if lock_acyclic(ps) {
        tail.len() == 0
    } else {
        &&& tail.len() == 1
        &&& tail[0].0 == "packages"@
        &&& exists|c: Seq<Seq<char>>| coordinate_cycle(ps, c) && tail[0].1 == "dependency cycle: "@ + arrow_joined(c)
    }
}

/// `pairs` is what validation reports for `ps`.
pub open spec fn lock_reported(ps: Seq<LockedView>, require_order: bool, pairs: Seq<(Seq<char>, Seq<char>)>) -> bool {
    exists|tail: Seq<(Seq<char>, Seq<char>)>| pairs == lock_base_problems(ps, require_order) + tail && cycle_report(ps, tail)
}

/// A lockfile without problems: every record valid, nothing missing, no cycle.
pub open spec fn lock_valid(ps: Seq<LockedView>, require_order: bool) -> bool {
    lock_base_problems(ps, require_order).len() == 0 && lock_acyclic(ps)
}

/// A complete canonical `aipo.lock` document.
#[derive(Debug)]
pub struct Lockfile {
    /// All resolved packages in coordinate order.
    pub packages: Vec<LockedPackage>,
}

impl View for Lockfile {
    type V = Seq<LockedView>;

    open spec fn view(&self) -> Seq<LockedView> {
        locked_views(self.packages@)
    }
}

} // verus!

verus! {

use crate::package::order::{lemma_insert_sorted, strictly_sorted};

/// The coordinates of the packages at `nodes`.
pub open spec fn node_keys(ps: Seq<LockedView>, nodes: Seq<usize>) -> Seq<Seq<char>> {
    nodes.map_values(|n: usize| ps[n as int].coordinate)
}

/// Whether package `i` is the last one locked under its coordinate.
fn is_last_package(packages: &Vec<LockedPackage>, i: usize) -> (last: bool)
    requires
        i < packages@.len(),
    ensures
        last == is_last(locked_views(packages@), i as int),
{
    let ghost ps = locked_views(packages@);
    let n = packages.len();
    let mut j: usize = i;
    while j < n - 1
        invariant
            ps == locked_views(packages@),
            n == packages@.len(),
            i <= j < n,
            forall|k: int| i < k <= j ==> #[trigger] ps[k].coordinate != ps[i as int].coordinate,
        decreases n - j,
    {
        j = j + 1;
        if packages[j].coordinate == packages[i].coordinate {
            assert(ps[j as int].coordinate == ps[i as int].coordinate);
            return false;
        }
    }
    true
}

/// The last package of each coordinate, in increasing coordinate order: the nodes of the
/// coordinate graph.
fn graph_nodes(packages: &Vec<LockedPackage>) -> (nodes: Vec<usize>)
    ensures
        forall|n: int| 0 <= n < nodes@.len() ==> #[trigger] nodes@[n] < packages@.len() && is_last(locked_views(packages@), nodes@[n] as int),
        forall|i: int| #[trigger] is_last(locked_views(packages@), i) ==> exists|n: int| 0 <= n < nodes@.len() && nodes@[n] == i,
        strictly_sorted(node_keys(locked_views(packages@), nodes@)),
{
    let ghost ps = locked_views(packages@);
    let mut nodes: Vec<usize> = Vec::new();
    let mut i: usize = 0;
    while i < packages.len()
        invariant
            ps == locked_views(packages@),
            i <= packages@.len(),
            forall|n: int| 0 <= n < nodes@.len() ==> #[trigger] nodes@[n] < i && is_last(ps, nodes@[n] as int),
            forall|k: int| 0 <= k < i && #[trigger] is_last(ps, k) ==> exists|n: int| 0 <= n < nodes@.len() && nodes@[n] == k,
            strictly_sorted(node_keys(ps, nodes@)),
        decreases packages.len() - i,
    {
        if is_last_package(packages, i) {
            let ghost keys = node_keys(ps, nodes@);
            let ghost key = ps[i as int].coordinate;
            let mut p: usize = 0;
            while p < nodes.len() && text_less(packages[nodes[p]].coordinate.as_str(), packages[i].coordinate.as_str())
                invariant
                    ps == locked_views(packages@),
                    keys == node_keys(ps, nodes@),
                    key == ps[i as int].coordinate,
                    i < packages@.len(),
                    p <= nodes@.len(),
                    forall|n: int| 0 <= n < nodes@.len() ==> #[trigger] nodes@[n] < i,
                    forall|q: int| 0 <= q < p ==> lex_lt(#[trigger] keys[q], key),
                decreases nodes.len() - p,
            {
                assert(keys[p as int] == ps[nodes@[p as int] as int].coordinate);
                p = p + 1;
            }
            if p < nodes.len() {
                let ghost other = nodes@[p as int] as int;
                assert(keys[p as int] == ps[other].coordinate);
                assert(is_last(ps, other));
                assert(other < i);
                assert(ps[i as int].coordinate != ps[other].coordinate);
                proof {
                    lemma_lex_total(keys[p as int], key);
                }
            }
            proof {
                lemma_insert_sorted(keys, p as int, key);
            }
            let ghost before = nodes@;
            nodes.insert(p, i);
            assert(node_keys(ps, nodes@) =~= keys.insert(p as int, key));
            assert forall|k: int| 0 <= k < i + 1 && #[trigger] is_last(ps, k) implies exists|n: int| 0 <= n < nodes@.len() && nodes@[n] == k by {
                if k == i {
                    assert(nodes@[p as int] == i);
                } else {
                    let n = choose|n: int| 0 <= n < before.len() && before[n] == k;
                    if n < p {
                        assert(nodes@[n] == k);
                    } else {
                        assert(nodes@[n + 1] == k);
                    }
                }
            }
            assert forall|n: int| 0 <= n < nodes@.len() implies #[trigger] nodes@[n] < i + 1 && is_last(ps, nodes@[n] as int) by {
                if n < p {
                    assert(nodes@[n] == before[n]);
                } else if n > p {
                    assert(nodes@[n] == before[n - 1]);
                }
            }
        }
        i = i + 1;
    }
    nodes
}

} // verus!

verus! {

/// The node whose coordinate is `key`, if any.
fn find_node(packages: &Vec<LockedPackage>, nodes: &Vec<usize>, key: &str) -> (found: Option<usize>)
    requires
        forall|n: int| 0 <= n < nodes@.len() ==> #[trigger] nodes@[n] < packages@.len(),
    ensures
        match found {
            Some(m) => m < nodes@.len() && node_keys(locked_views(packages@), nodes@)[m as int] == key@,
            None => forall|m: int| 0 <= m < nodes@.len() ==> #[trigger] node_keys(locked_views(packages@), nodes@)[m] != key@,
        },
{
    let ghost keys = node_keys(locked_views(packages@), nodes@);
    let mut m: usize = 0;
    while m < nodes.len()
        invariant
            keys == node_keys(locked_views(packages@), nodes@),
            forall|n: int| 0 <= n < nodes@.len() ==> #[trigger] nodes@[n] < packages@.len(),
            m <= nodes@.len(),
            forall|q: int| 0 <= q < m ==> #[trigger] keys[q] != key@,
        decreases nodes.len() - m,
    {
        assert(keys[m as int] == locked_views(packages@)[nodes@[m as int] as int].coordinate);
        if text_equal(packages[nodes[m]].coordinate.as_str(), key) {
            return Some(m);
        }
        m = m + 1;
    }
    None
}

/// The edges of each node: for each dependency of its package, in order, the node locked
/// under that coordinate, when there is one.
fn graph_edges(packages: &Vec<LockedPackage>, nodes: &Vec<usize>) -> (adj: Vec<Vec<usize>>)
    requires
        forall|n: int| 0 <= n < nodes@.len() ==> #[trigger] nodes@[n] < packages@.len(),
        strictly_sorted(node_keys(locked_views(packages@), nodes@)),
    ensures
        adj@.len() == nodes@.len(),
        adj.deep_view().len() == nodes@.len(),
        graph_well_formed(adj.deep_view()),
        forall|n: int, m: int| 0 <= n < nodes@.len() && 0 <= m < nodes@.len() ==> (#[trigger] edge(adj.deep_view(), n, m)
            <==> locked_views(packages@)[nodes@[n] as int].dependencies.contains(node_keys(locked_views(packages@), nodes@)[m])),
{
    let ghost ps = locked_views(packages@);
    let ghost keys = node_keys(ps, nodes@);
    let mut adj: Vec<Vec<usize>> = Vec::new();
    let count = nodes.len();
    let mut n: usize = 0;
    while n < nodes.len()
        invariant
            count == nodes@.len(),
            ps == locked_views(packages@),
            keys == node_keys(ps, nodes@),
            strictly_sorted(keys),
            forall|x: int| 0 <= x < nodes@.len() ==> #[trigger] nodes@[x] < packages@.len(),
            n <= nodes@.len(),
            adj@.len() == n,
            forall|x: int, e: int| 0 <= x < n && 0 <= e < adj@[x]@.len() ==> #[trigger] adj@[x]@[e] < nodes@.len(),
            forall|x: int, m: int| 0 <= x < n && 0 <= m < nodes@.len() ==> (#[trigger] adj@[x]@.contains(m as usize)
                <==> ps[nodes@[x] as int].dependencies.contains(keys[m])),
        decreases nodes.len() - n,
    {
        let package = &packages[nodes[n]];
        let ghost deps = ps[nodes@[n as int] as int].dependencies;
        assert(deps == package@.dependencies);
        let mut list: Vec<usize> = Vec::new();
        let mut k: usize = 0;
        while k < package.dependencies.len()
            invariant
                ps == locked_views(packages@),
                keys == node_keys(ps, nodes@),
                strictly_sorted(keys),
                forall|x: int| 0 <= x < nodes@.len() ==> #[trigger] nodes@[x] < packages@.len(),
                deps == package@.dependencies,
                count == nodes@.len(),
                k <= deps.len(),
                forall|e: int| 0 <= e < list@.len() ==> #[trigger] list@[e] < nodes@.len(),
                forall|m: int| 0 <= m < nodes@.len() ==> (#[trigger] list@.contains(m as usize)
                    <==> exists|j: int| 0 <= j < k && #[trigger] deps[j] == keys[m]),
            decreases package.dependencies.len() - k,
        {
            assert(deps[k as int] == package.dependencies@[k as int]@);
            match find_node(packages, nodes, package.dependencies[k].as_str()) {
                Some(m) => {
                    let ghost before = list@;
                    list.push(m);
                    assert forall|x: int| 0 <= x < nodes@.len() implies (#[trigger] list@.contains(x as usize)
                        <==> exists|j: int| 0 <= j < k + 1 && #[trigger] deps[j] == keys[x]) by {
                        if list@.contains(x as usize) {
                            let e = choose|e: int| 0 <= e < list@.len() && list@[e] == x as usize;
                            if e < before.len() {
                                assert(before[e] == x as usize);
                                assert(before.contains(x as usize));
                            } else {
                                assert(list@[before.len() as int] == m);
                                assert(x == m as int);
                                assert(deps[k as int] == keys[x]);
                            }
                        }
                        if exists|j: int| 0 <= j < k + 1 && #[trigger] deps[j] == keys[x] {
                            let j = choose|j: int| 0 <= j < k + 1 && #[trigger] deps[j] == keys[x];
                            if j < k {
                                assert(before.contains(x as usize));
                                let e = choose|e: int| 0 <= e < before.len() && before[e] == x as usize;
                                assert(list@[e] == x as usize);
                            } else {
                                lemma_keys_distinct(keys, x, m as int);
                                assert(list@[before.len() as int] == m);
                            }
                        }
                    }
                },
                None => {
                    assert forall|x: int| 0 <= x < nodes@.len() implies (#[trigger] list@.contains(x as usize)
                        <==> exists|j: int| 0 <= j < k + 1 && #[trigger] deps[j] == keys[x]) by {
                        if exists|j: int| 0 <= j < k + 1 && #[trigger] deps[j] == keys[x] {
                            let j = choose|j: int| 0 <= j < k + 1 && #[trigger] deps[j] == keys[x];
                            if j == k {
                                assert(keys[x] != deps[k as int]);
                            }
                        }
                    }
                },
            }
            k = k + 1;
        }
        assert forall|m: int| 0 <= m < nodes@.len() implies (#[trigger] list@.contains(m as usize)
            <==> deps.contains(keys[m])) by {
            if deps.contains(keys[m]) {
                let j = choose|j: int| 0 <= j < deps.len() && deps[j] == keys[m];
                assert(deps[j] == keys[m]);
            }
        }
        let ghost before_adj = adj@;
        adj.push(list);
        assert forall|x: int, e: int| 0 <= x < n + 1 && 0 <= e < adj@[x]@.len() implies #[trigger] adj@[x]@[e] < nodes@.len() by {
            if x < n {
                assert(adj@[x] == before_adj[x]);
            }
        }
        assert forall|x: int, m: int| 0 <= x < n + 1 && 0 <= m < nodes@.len() implies (#[trigger] adj@[x]@.contains(m as usize)
            <==> ps[nodes@[x] as int].dependencies.contains(keys[m])) by {
            if x < n {
                assert(adj@[x] == before_adj[x]);
            }
        }
        n = n + 1;
    }
    let ghost g = adj.deep_view();
    assert(g.len() == adj@.len());
    assert forall|u: int, k: int| 0 <= u < g.len() && 0 <= k < g[u].len() implies #[trigger] g[u][k] < g.len() by {
        assert(g[u] == adj@[u]@);
    }
    assert forall|x: int, m: int| 0 <= x < nodes@.len() && 0 <= m < nodes@.len() implies (#[trigger] edge(g, x, m)
        <==> ps[nodes@[x] as int].dependencies.contains(keys[m])) by {
        assert(g[x] == adj@[x]@);
        if edge(g, x, m) {
            let e = choose|e: int| 0 <= e < g[x].len() && #[trigger] g[x][e] == m;
            assert(adj@[x]@[e] as int == m);
            assert(adj@[x]@.contains(m as usize));
        }
        if adj@[x]@.contains(m as usize) {
            let e = choose|e: int| 0 <= e < adj@[x]@.len() && adj@[x]@[e] == m as usize;
            assert(g[x][e] == m);
        }
    }
    adj
}

/// Distinct nodes have distinct coordinates.
proof fn lemma_keys_distinct(keys: Seq<Seq<char>>, a: int, b: int)
    requires
        strictly_sorted(keys),
        0 <= a < keys.len(),
        0 <= b < keys.len(),
        keys[a] == keys[b],
    ensures
        a == b,
{
    if a < b {
        assert(lex_lt(keys[a], keys[b]));
        lemma_lex_strict(keys[a], keys[b]);
    } else if b < a {
        assert(lex_lt(keys[b], keys[a]));
        lemma_lex_strict(keys[a], keys[b]);
    }
}

} // verus!

verus! {

/// Some package locked under `c` is the last one locked under it.
proof fn lemma_last_exists(ps: Seq<LockedView>, m: int)
    requires
        0 <= m < ps.len(),
    ensures
        exists|i: int| #[trigger] is_last(ps, i) && ps[i].coordinate == ps[m].coordinate,
    decreases ps.len() - m,
{
    if !is_last(ps, m) {
        let j = choose|j: int| m < j < ps.len() && #[trigger] ps[j].coordinate == ps[m].coordinate;
        lemma_last_exists(ps, j);
    }
}

/// Two packages that are each last under the same coordinate are the same package.
proof fn lemma_last_unique(ps: Seq<LockedView>, a: int, b: int)
    requires
        is_last(ps, a),
        is_last(ps, b),
        ps[a].coordinate == ps[b].coordinate,
    ensures
        a == b,
{
    if a < b {
        assert(ps[b].coordinate != ps[a].coordinate);
    } else if b < a {
        assert(ps[a].coordinate != ps[b].coordinate);
    }
}

/// The facts about the coordinate graph's nodes and edges that its construction gives.
pub open spec fn graph_of(ps: Seq<LockedView>, nodes: Seq<usize>, g: Seq<Seq<usize>>) -> bool {
    &&& nodes.len() <= usize::MAX
    &&& g.len() == nodes.len()
    &&& graph_well_formed(g)
    &&& forall|n: int| 0 <= n < nodes.len() ==> #[trigger] nodes[n] < ps.len() && is_last(ps, nodes[n] as int)
    &&& forall|i: int| #[trigger] is_last(ps, i) ==> exists|n: int| 0 <= n < nodes.len() && nodes[n] == i
    &&& strictly_sorted(node_keys(ps, nodes))
    &&& forall|n: int, m: int| 0 <= n < nodes.len() && 0 <= m < nodes.len() ==> (#[trigger] edge(g, n, m)
        <==> ps[nodes[n] as int].dependencies.contains(node_keys(ps, nodes)[m]))
}

/// A cycle of nodes names a cycle of coordinates.
proof fn lemma_node_cycle(ps: Seq<LockedView>, nodes: Seq<usize>, g: Seq<Seq<usize>>, c: Seq<usize>)
    requires
        graph_of(ps, nodes, g),
        is_cycle(g, c),
    ensures
        forall|i: int| 0 <= i < c.len() ==> #[trigger] c[i] < nodes.len(),
        coordinate_cycle(ps, c.map_values(|n: usize| node_keys(ps, nodes)[n as int])),
{
    let keys = node_keys(ps, nodes);
    let cc = c.map_values(|n: usize| keys[n as int]);
    assert forall|i: int| 0 <= i < c.len() implies #[trigger] c[i] < nodes.len() by {
        if i < c.len() - 1 {
            assert(edge(g, c[i] as int, c[i + 1] as int));
        } else {
            assert(edge(g, c[i - 1] as int, c[i] as int));
            let k = choose|k: int| 0 <= k < g[c[i - 1] as int].len() && #[trigger] g[c[i - 1] as int][k] == c[i] as int;
        }
    }
    assert forall|i: int| 0 <= i < cc.len() - 1 implies lock_edge(ps, #[trigger] cc[i], cc[i + 1]) by {
        assert(edge(g, c[i] as int, c[i + 1] as int));
        let a = nodes[c[i] as int] as int;
        let b = nodes[c[i + 1] as int] as int;
        assert(c[i] < nodes.len() && c[i + 1] < nodes.len());
        assert(is_last(ps, a));
        assert(ps[a].coordinate == cc[i]);
        assert(ps[a].dependencies.contains(cc[i + 1]));
        assert(ps[b].coordinate == cc[i + 1]);
    }
}

/// A cycle of coordinates names a cycle of nodes.
proof fn lemma_coordinate_cycle(ps: Seq<LockedView>, nodes: Seq<usize>, g: Seq<Seq<usize>>, cc: Seq<Seq<char>>)
    requires
        graph_of(ps, nodes, g),
        coordinate_cycle(ps, cc),
    ensures
        !acyclic(g),
{
    let keys = node_keys(ps, nodes);
    assert forall|i: int| #![trigger cc[i]] 0 <= i < cc.len() implies exists|n: int| 0 <= n < nodes.len() && #[trigger] keys[n] == cc[i] by {
        let j = if i < cc.len() - 1 { i } else { 0 };
        assert(lock_edge(ps, cc[j], cc[j + 1]));
        let a = choose|a: int| #[trigger] is_last(ps, a) && ps[a].coordinate == cc[j] && ps[a].dependencies.contains(cc[j + 1]);
        let n = choose|n: int| 0 <= n < nodes.len() && nodes[n] == a;
        assert(keys[n] == cc[i]);
    }
    let nc = cc.map_values(|a: Seq<char>| (choose|n: int| 0 <= n < nodes.len() && #[trigger] keys[n] == a) as usize);
    assert forall|i: int| 0 <= i < cc.len() implies 0 <= #[trigger] nc[i] < nodes.len() && keys[nc[i] as int] == cc[i] by {
        assert(exists|n: int| 0 <= n < nodes.len() && #[trigger] keys[n] == cc[i]);
        let n = choose|n: int| 0 <= n < nodes.len() && #[trigger] keys[n] == cc[i];
        assert(nc[i] == n as usize);
        assert(nc[i] as int == n);
    }
    assert forall|i: int| 0 <= i < nc.len() - 1 implies edge(g, #[trigger] nc[i] as int, nc[i + 1] as int) by {
        assert(0 <= nc[i] < nodes.len() && keys[nc[i] as int] == cc[i]);
        assert(0 <= nc[i + 1] < nodes.len() && keys[nc[i + 1] as int] == cc[i + 1]);
        assert(lock_edge(ps, cc[i], cc[i + 1]));
        let a = choose|a: int| #[trigger] is_last(ps, a) && ps[a].coordinate == cc[i] && ps[a].dependencies.contains(cc[i + 1]);
        let x = nodes[nc[i] as int] as int;
        assert(is_last(ps, x));
        lemma_last_unique(ps, a, x);
    }
    assert(nc[0] == nc[nc.len() - 1]);
    assert(is_cycle(g, nc));
}

} // verus!

verus! {

/// Records a cycle of the coordinate graph, when there is one.
fn check_cycle(packages: &Vec<LockedPackage>, problems: &mut Vec<ValidationProblem>)
    ensures
        exists|tail: Seq<(Seq<char>, Seq<char>)>| problem_pairs(final(problems)@) == problem_pairs(old(problems)@) + tail
            && #[trigger] cycle_report(locked_views(packages@), tail),
{
    let ghost ps = locked_views(packages@);
    let ghost start = problem_pairs(problems@);
    let nodes = graph_nodes(packages);
    let adj = graph_edges(packages, &nodes);
    let ghost g = adj.deep_view();
    let count = nodes.len();
    assert(graph_of(ps, nodes@, g));
    match find_cycle(&adj) {
        None => {
            proof {
                assert forall|cc: Seq<Seq<char>>| !coordinate_cycle(ps, cc) by {
                    if coordinate_cycle(ps, cc) {
                        lemma_coordinate_cycle(ps, nodes@, g, cc);
                    }
                }
                let tail = Seq::<(Seq<char>, Seq<char>)>::empty();
                assert(problem_pairs(problems@) =~= start + tail);
                assert(cycle_report(ps, tail));
            }
        },
        Some(c) => {
            proof {
                lemma_node_cycle(ps, nodes@, g, c@);
            }
            let ghost keys = node_keys(ps, nodes@);
            let ghost cc = c@.map_values(|n: usize| keys[n as int]);
            let mut text = String::from_str("dependency cycle: ");
            let mut i: usize = 0;
            while i < c.len()
                invariant
                    ps == locked_views(packages@),
                    keys == node_keys(ps, nodes@),
                    cc == c@.map_values(|n: usize| keys[n as int]),
                    forall|x: int| 0 <= x < c@.len() ==> #[trigger] c@[x] < nodes@.len(),
                    forall|n: int| 0 <= n < nodes@.len() ==> #[trigger] nodes@[n] < packages@.len(),
                    i <= c@.len(),
                    text@ == "dependency cycle: "@ + arrow_joined(cc.take(i as int)),
                decreases c.len() - i,
            {
                let node = c[i];
                assert(node < nodes@.len());
                let index = nodes[node];
                assert(keys[node as int] == packages@[index as int]@.coordinate);
                if i > 0 {
                    text = text.concat(" -> ");
                }
                text = text.concat(packages[index].coordinate.as_str());
                proof {
                    assert(cc.take(i + 1).drop_last() =~= cc.take(i as int));
                    assert(cc.take(i + 1).last() == cc[i as int]);
                    if i == 0 {
                        assert(arrow_joined(cc.take(0)) =~= Seq::<char>::empty());
                    }
                }
                assert(text@ =~= "dependency cycle: "@ + arrow_joined(cc.take(i + 1)));
                i = i + 1;
            }
            assert(cc.take(c@.len() as int) =~= cc);
            push_problem(problems, "packages", text.as_str());
            proof {
                let tail = seq![("packages"@, text@)];
                assert(problem_pairs(problems@) =~= start + tail);
                assert(coordinate_cycle(ps, cc));
                assert(cycle_report(ps, tail));
            }
        },
    }
}

} // verus!

verus! {

/// Records repeated coordinates and each record's own problems.
fn check_packages(packages: &Vec<LockedPackage>, require_order: bool, problems: &mut Vec<ValidationProblem>)
    ensures
        problem_pairs(final(problems)@) == problem_pairs(old(problems)@)
            + packages_problems(locked_views(packages@), require_order, packages@.len()),
{
    let ghost ps = locked_views(packages@);
    let ghost head = problem_pairs(problems@);
    let mut i: usize = 0;
    while i < packages.len()
        invariant
            ps == locked_views(packages@),
            i <= packages@.len(),
            problem_pairs(problems@) == head + packages_problems(ps, require_order, i as nat),
        decreases packages.len() - i,
    {
        let prefix = index_label("packages", i);
        let mut repeated = false;
        let mut j: usize = 0;
        while j < i
            invariant
                ps == locked_views(packages@),
                i < packages@.len(),
                j <= i,
                repeated == exists|k: int| 0 <= k < j && #[trigger] ps[k].coordinate == ps[i as int].coordinate,
            decreases i - j,
        {
            let same = packages[j].coordinate == packages[i].coordinate;
            assert(same == (ps[j as int].coordinate == ps[i as int].coordinate));
            if same {
                repeated = true;
            }
            j = j + 1;
        }
        if repeated {
            let label = String::from_str(prefix.as_str()).concat(".coordinate");
            push_problem(problems, label.as_str(), "package coordinate is locked more than once");
        }
        packages[i].validate_at(prefix.as_str(), require_order, problems);
        assert(ps[i as int] == packages@[i as int]@);
        i = i + 1;
    }
}

/// Whether the coordinates never decrease along the list.
fn coordinates_nondecreasing(packages: &Vec<LockedPackage>) -> (ok: bool)
    ensures
        ok == nondecreasing(coordinates(locked_views(packages@))),
{
    let ghost s = coordinates(locked_views(packages@));
    let n = packages.len();
    if n < 2 {
        return true;
    }
    let mut i: usize = 0;
    while i < n - 1
        invariant
            s == coordinates(locked_views(packages@)),
            n == packages@.len(),
            n >= 2,
            i <= n - 1,
            forall|j: int| 0 <= j < i ==> !lex_lt(#[trigger] s[j + 1], s[j]),
        decreases n - 1 - i,
    {
        assert(s[i + 1] == packages@[i + 1]@.coordinate && s[i as int] == packages@[i as int]@.coordinate);
        if text_less(packages[i + 1].coordinate.as_str(), packages[i].coordinate.as_str()) {
            return false;
        }
        i = i + 1;
    }
    true
}

/// Whether some package is locked under `key`.
fn locked_under(packages: &Vec<LockedPackage>, key: &str) -> (found: bool)
    ensures
        found == is_locked(locked_views(packages@), key@),
{
    let ghost ps = locked_views(packages@);
    let mut m: usize = 0;
    while m < packages.len()
        invariant
            ps == locked_views(packages@),
            m <= packages@.len(),
            forall|q: int| 0 <= q < m ==> #[trigger] ps[q].coordinate != key@,
        decreases packages.len() - m,
    {
        assert(ps[m as int].coordinate == packages@[m as int]@.coordinate);
        if text_equal(packages[m].coordinate.as_str(), key) {
            return true;
        }
        m = m + 1;
    }
    false
}

/// Records every dependency edge that names no locked package.
fn check_missing(packages: &Vec<LockedPackage>, problems: &mut Vec<ValidationProblem>)
    ensures
        problem_pairs(final(problems)@) == problem_pairs(old(problems)@)
            + missing_problems(locked_views(packages@), packages@.len()),
{
    let ghost ps = locked_views(packages@);
    let ghost head = problem_pairs(problems@);
    let mut i: usize = 0;
    while i < packages.len()
        invariant
            ps == locked_views(packages@),
            i <= packages@.len(),
            problem_pairs(problems@) == head + missing_problems(ps, i as nat),
        decreases packages.len() - i,
    {
        let package = &packages[i];
        assert(ps[i as int] == package@);
        let ghost mid = problem_pairs(problems@);
        let label = String::from_str("packages.").concat(package.coordinate.as_str()).concat(".dependencies");
        let mut k: usize = 0;
        while k < package.dependencies.len()
            invariant
                ps == locked_views(packages@),
                i < packages@.len(),
                ps[i as int] == package@,
                label@ == "packages."@ + ps[i as int].coordinate + ".dependencies"@,
                k <= package@.dependencies.len(),
                problem_pairs(problems@) == mid + unlocked_edges(ps, i as int, k as nat),
            decreases package.dependencies.len() - k,
        {
            let dependency = package.dependencies[k].as_str();
            assert(dependency@ == ps[i as int].dependencies[k as int]);
            if !locked_under(packages, dependency) {
                let message = String::from_str("dependency '").concat(dependency).concat("' is not locked");
                push_problem(problems, label.as_str(), message.as_str());
            }
            k = k + 1;
        }
        i = i + 1;
    }
}

impl Lockfile {
    /// Validates every record, the coordinate order when `require_order`, the dependency
    /// edges, and acyclicity.
    fn validate_with_order(&self, require_order: bool) -> (result: Result<(), LockfileError>)
        ensures
            match result {
                Ok(_) => lock_valid(self@, require_order),
                Err(LockfileError::Invalid { problems }) => !lock_valid(self@, require_order)
                    && lock_reported(self@, require_order, problem_pairs(problems@)),
                Err(_) => false,
            },
    {
        let ghost ps = self@;
        let mut problems: Vec<ValidationProblem> = Vec::new();
        assert(problem_pairs(problems@) =~= Seq::<(Seq<char>, Seq<char>)>::empty());
        check_packages(&self.packages, require_order, &mut problems);
        if require_order && !coordinates_nondecreasing(&self.packages) {
            push_problem(&mut problems, "packages", "packages are not in canonical coordinate order");
        }
        check_missing(&self.packages, &mut problems);
        let ghost base = problem_pairs(problems@);
        assert(base =~= lock_base_problems(ps, require_order));
        check_cycle(&self.packages, &mut problems);
        let ghost tail = choose|tail: Seq<(Seq<char>, Seq<char>)>| problem_pairs(problems@) == base + tail
            && #[trigger] cycle_report(ps, tail);
        assert(lock_reported(ps, require_order, problem_pairs(problems@)));
        if problems.len() == 0 {
            assert(problem_pairs(problems@).len() == 0);
            assert(base.len() == 0 && tail.len() == 0);
            Ok(())
        } else {
            assert(problem_pairs(problems@).len() > 0);
            Err(LockfileError::Invalid { problems })
        }
    }

    /// Validates the complete lockfile, including canonical ordering and acyclicity.
    pub fn validate(&self) -> (result: Result<(), LockfileError>)
        ensures
            match result {
                Ok(_) => lock_valid(self@, true),
                Err(LockfileError::Invalid { problems }) => !lock_valid(self@, true)
                    && lock_reported(self@, true, problem_pairs(problems@)),
                Err(_) => false,
            },
    {
        self.validate_with_order(true)
    }

    /// Returns the first package locked under `coordinate`.
    pub fn package(&self, coordinate: &PackageId) -> (found: Option<&LockedPackage>)
        ensures
            match found {
                Some(p) => exists|i: int| 0 <= i < self@.len() && self@[i] == p@ && p@.coordinate == coordinate@
                    && forall|j: int| 0 <= j < i ==> #[trigger] self@[j].coordinate != coordinate@,
                None => !is_locked(self@, coordinate@),
            },
    {
        let ghost ps = self@;
        let mut i: usize = 0;
        while i < self.packages.len()
            invariant
                ps == self@,
                i <= ps.len(),
                forall|j: int| 0 <= j < i ==> #[trigger] ps[j].coordinate != coordinate@,
            decreases self.packages.len() - i,
        {
            assert(ps[i as int] == self.packages@[i as int]@);
            if self.packages[i].coordinate == *coordinate {
                return Some(&self.packages[i]);
            }
            i = i + 1;
        }
        None
    }

    /// The packages in their stored canonical order.
    pub fn iter(&self) -> (packages: &[LockedPackage])
        ensures
            locked_views(packages@) == self@,
    {
        self.packages.as_slice()
    }

    /// Returns the number of locked packages.
    pub fn len(&self) -> (n: usize)
        ensures
            n == self@.len(),
    {
        self.packages.len()
    }

    /// Reports whether the lockfile has no packages.
    pub fn is_empty(&self) -> (empty: bool)
        ensures
            empty == (self@.len() == 0),
    {
        self.packages.len() == 0
    }
}

} // verus!

verus! {

use crate::package::capabilities::{first_capability_error, law_canonical_unique, normalize_capabilities, normalizes};
use crate::host::capability::{allows_seq, covers};
use crate::package::order::lemma_sorted_unique;
use crate::package::digest::ContentDigest;
use crate::package::lock::{id_views, locked_capabilities_problems, PackageSource};
use crate::package::order::{occurs, sorted_unique};

/// No text of the list orders before an earlier one.
pub open spec fn sorted_texts(s: Seq<Seq<char>>) -> bool {
    forall|i: int, j: int| 0 <= i < j < s.len() ==> !lex_lt(#[trigger] s[j], #[trigger] s[i])
}

/// `new` is `old` with its lists in canonical form: dependencies sorted, targets distinct
/// and sorted, capabilities in normal form.
pub open spec fn canonical_package(new: LockedView, old: LockedView) -> bool {
    &&& new.coordinate == old.coordinate
    &&& new.version == old.version
    &&& new.source == old.source
    &&& new.digest == old.digest
    &&& sorted_texts(new.dependencies)
    &&& new.dependencies.to_multiset() == old.dependencies.to_multiset()
    &&& strictly_sorted(new.targets)
    &&& forall|t: Seq<char>| occurs(new.targets, t) <==> occurs(old.targets, t)
    &&& normalizes(new.capabilities, old.capabilities)
}

/// A canonical form keeps the coordinate.
pub proof fn lemma_canonical_coordinate(new: LockedView, old: LockedView)
    requires
        canonical_package(new, old),
    ensures
        new.coordinate == old.coordinate,
{
    reveal(canonical_package);
}

/// Some record of `o` from `lo` on has `x` as its canonical form.
pub open spec fn has_source(x: LockedView, o: Seq<LockedView>, lo: int) -> bool {
    exists|i: int| lo <= i < o.len() && #[trigger] canonical_package(x, o[i])
}

/// Some entry of `s` is the canonical form of `y`.
pub open spec fn has_image(s: Seq<LockedView>, y: LockedView) -> bool {
    exists|k: int| 0 <= k < s.len() && #[trigger] canonical_package(s[k], y)
}

/// `new` holds the canonical form of each package of `old`, in increasing coordinate order.
pub open spec fn canonical_lock(new: Seq<LockedView>, old: Seq<LockedView>) -> bool {
    &&& new.len() == old.len()
    &&& strictly_sorted(coordinates(new))
    &&& forall|k: int| 0 <= k < new.len() ==> has_source(#[trigger] new[k], old, 0)
    &&& forall|i: int| 0 <= i < old.len() ==> has_image(new, #[trigger] old[i])
}

/// `!lex_lt` is transitive.
proof fn lemma_not_lt_transitive(x: Seq<char>, y: Seq<char>, z: Seq<char>)
    requires
        !lex_lt(y, x),
        !lex_lt(z, y),
    ensures
        !lex_lt(z, x),
{
    if lex_lt(z, x) {
        if x != y {
            lemma_lex_total(x, y);
            crate::host::capability::lemma_lex_transitive(z, x, y);
        }
    }
}

/// Coordinates sorted as text, keeping equal ones in their relative order.
fn sort_ids(ids: Vec<PackageId>) -> (sorted: Vec<PackageId>)
    ensures
        sorted_texts(id_views(sorted@)),
        id_views(sorted@).to_multiset() == id_views(ids@).to_multiset(),
{
    broadcast use vstd::seq_lib::group_to_multiset_ensures;
    let ghost all = id_views(ids@).to_multiset();
    let mut rest = ids;
    let mut sorted: Vec<PackageId> = Vec::new();
    assert(id_views(sorted@) =~= Seq::<Seq<char>>::empty());
    while rest.len() > 0
        invariant
            id_views(sorted@).to_multiset().add(id_views(rest@).to_multiset()) == all,
            sorted_texts(id_views(sorted@)),
        decreases rest.len(),
    {
        let ghost before = id_views(sorted@);
        let ghost remaining = id_views(rest@);
        let item = match rest.pop() {
            Some(item) => item,
            None => return sorted,
        };
        let ghost d = item@;
        assert(remaining =~= id_views(rest@).push(d));
        let mut p: usize = 0;
        while p < sorted.len() && text_less(sorted[p].as_str(), item.as_str())
            invariant
                before == id_views(sorted@),
                p <= sorted@.len(),
                d == item@,
                forall|q: int| 0 <= q < p ==> lex_lt(#[trigger] before[q], d),
            decreases sorted.len() - p,
        {
            p = p + 1;
        }
        proof {
            let r = before.insert(p as int, d);
            assert forall|i: int, j: int| 0 <= i < j < r.len() implies !lex_lt(#[trigger] r[j], #[trigger] r[i]) by {
                if j < p {
                    assert(r[i] == before[i] && r[j] == before[j]);
                } else if j == p {
                    assert(r[i] == before[i]);
                    lemma_lex_strict(before[i], d);
                } else if i == p {
                    assert(r[j] == before[j - 1]);
                    assert(!lex_lt(before[p as int], d));
                    if j - 1 > p {
                        lemma_not_lt_transitive(d, before[p as int], before[j - 1]);
                    }
                } else if i < p {
                    assert(r[i] == before[i] && r[j] == before[j - 1]);
                } else {
                    assert(r[i] == before[i - 1] && r[j] == before[j - 1]);
                }
            }
            vstd::seq_lib::to_multiset_insert(before, p as int, d);
            vstd::seq_lib::to_multiset_build(id_views(rest@), d);
        }
        sorted.insert(p, item);
        assert(id_views(sorted@) =~= before.insert(p as int, d));
        assert(id_views(sorted@).to_multiset().add(id_views(rest@).to_multiset())
            =~= before.to_multiset().add(remaining.to_multiset()));
    }
    assert(id_views(rest@) =~= Seq::<Seq<char>>::empty());
    assert(id_views(sorted@).to_multiset() =~= all);
    sorted
}

/// The canonical form of a package whose capabilities all parse.
fn canonical_record(package: LockedPackage) -> (result: LockedPackage)
    requires
        first_capability_error(package@.capabilities) is None,
    ensures
        canonical_package(result@, package@),
{
    let ghost original = package@;
    let LockedPackage { coordinate, version, source, digest, dependencies, capabilities, targets } = package;
    let dependencies = sort_ids(dependencies);
    let targets = sorted_unique(&targets);
    let capabilities = match normalize_capabilities(capabilities.as_slice()) {
        Ok(normalized) => normalized,
        Err(_) => {
            assert(false);
            capabilities
        },
    };
    let result = LockedPackage { coordinate, version, source, digest, dependencies, capabilities, targets };
    proof {
        reveal(canonical_package);
    }
    result
}

} // verus!

verus! {

/// Packages without problems have distinct coordinates and capabilities that parse.
proof fn lemma_packages_clean(ps: Seq<LockedView>, require_order: bool, n: nat)
    requires
        n <= ps.len(),
        packages_problems(ps, require_order, n).len() == 0,
    ensures
        forall|i: int, j: int| 0 <= j < i < n ==> #[trigger] ps[j].coordinate != #[trigger] ps[i].coordinate,
        forall|i: int| 0 <= i < n ==> first_capability_error(#[trigger] ps[i].capabilities) is None,
    decreases n,
{
    if n > 0 {
        let i = (n - 1) as nat;
        lemma_packages_clean(ps, require_order, i);
        let own = locked_problems(ps[i as int], indexed("packages"@, i), require_order);
        assert(own.len() == 0);
        let caps = locked_capabilities_problems(ps[i as int].capabilities, indexed("packages"@, i), require_order);
        assert(caps.len() == 0);
        assert forall|j: int| 0 <= j < i implies #[trigger] ps[j].coordinate != ps[i as int].coordinate by {
            if ps[j].coordinate == ps[i as int].coordinate {
                assert(exists|k: int| 0 <= k < i && #[trigger] ps[k].coordinate == ps[i as int].coordinate);
            }
        }
    }
}

impl Lockfile {
    /// Checks the records, then puts each in canonical form, orders them by coordinate and
    /// validates the result. A lockfile that fails the first check is left as it was and
    /// gets its problems reported; one that passes it always canonicalizes successfully.
    pub fn canonicalize(&mut self) -> (result: Result<(), LockfileError>)
        ensures
            lock_valid(old(self)@, false) ==> result is Ok,
            lock_valid(old(self)@, false) ==> {
                &&& canonical_lock(final(self)@, old(self)@)
                &&& match result {
                    Ok(_) => lock_valid(final(self)@, true),
                    Err(LockfileError::Invalid { problems }) => !lock_valid(final(self)@, true)
                        && lock_reported(final(self)@, true, problem_pairs(problems@)),
                    Err(_) => false,
                }
            },
            !lock_valid(old(self)@, false) ==> {
                &&& final(self)@ == old(self)@
                &&& match result {
                    Err(LockfileError::Invalid { problems }) => lock_reported(old(self)@, false, problem_pairs(problems@)),
                    _ => false,
                }
            },
    {
        match self.validate_with_order(false) {
            Ok(()) => {},
            Err(error) => return Err(error),
        }
        let ghost original = self@;
        proof {
            lemma_packages_clean(original, false, original.len());
        }
        let mut rest: Vec<LockedPackage> = Vec::new();
        std::mem::swap(&mut rest, &mut self.packages);
        assert(locked_views(rest@) == original);
        assert forall|i: int| 0 <= i < rest@.len() implies first_capability_error(#[trigger] rest@[i]@.capabilities) is None by {
            assert(rest@[i]@ == original[i]);
        }
        assert forall|i: int, j: int| 0 <= j < i < rest@.len() implies #[trigger] rest@[j]@.coordinate != #[trigger] rest@[i]@.coordinate by {
            assert(rest@[i]@ == original[i] && rest@[j]@ == original[j]);
        }
        let sorted = canonical_records(rest);
        self.packages = sorted;
        assert(canonical_lock(self@, original));
        proof {
            if lock_valid(original, false) {
                crate::package::lock_laws::law_canonical_lock_valid(original, self@);
            }
        }
        self.validate_with_order(true)
    }

    /// Creates a lockfile from records ordered by coordinate, then canonicalizes it.
    pub fn new(packages: Vec<LockedPackage>) -> (result: Result<Lockfile, LockfileError>)
        ensures
            lock_outcome(locked_views(packages@), result),
    {
        let sorted = sort_by_coordinate(packages);
        let mut lockfile = Lockfile { packages: sorted };
        let ghost arranged = lockfile@;
        match lockfile.canonicalize() {
            Ok(()) => Ok(lockfile),
            Err(error) => Err(error),
        }
    }
}

/// What building a lockfile from `records` gives: the records arranged by coordinate
/// and, where they form a lockfile, its canonical form; otherwise every problem found.
pub open spec fn lock_outcome(records: Seq<LockedView>, result: Result<Lockfile, LockfileError>) -> bool {
    exists|arranged: Seq<LockedView>| {
            &&& arranged.to_multiset() == records.to_multiset()
            &&& nondecreasing(coordinates(arranged))
            &&& (lock_valid(arranged, false) ==> match result {
                Ok(lockfile) => canonical_lock(lockfile@, arranged) && lock_valid(lockfile@, true),
                Err(LockfileError::Invalid { problems }) => exists|canonical: Seq<LockedView>|
                    canonical_lock(canonical, arranged) && !lock_valid(canonical, true)
                    && lock_reported(canonical, true, problem_pairs(problems@)),
                Err(_) => false,
            })
            &&& (!lock_valid(arranged, false) ==> match result {
                Err(LockfileError::Invalid { problems }) => lock_reported(arranged, false, problem_pairs(problems@)),
                _ => false,
            })
        }
}

/// Inserts `record` at its place in a list strictly increasing by coordinate.
fn insert_record(sorted: &mut Vec<LockedPackage>, record: LockedPackage) -> (p: usize)
    requires
        strictly_sorted(coordinates(locked_views(old(sorted)@))),
        forall|k: int| 0 <= k < old(sorted)@.len() ==> #[trigger] old(sorted)@[k]@.coordinate != record@.coordinate,
    ensures
        p <= old(sorted)@.len(),
        final(sorted)@ == old(sorted)@.insert(p as int, record),
        strictly_sorted(coordinates(locked_views(final(sorted)@))),
{
    let ghost before = sorted@;
    let ghost keys = coordinates(locked_views(sorted@));
    let ghost key = record@.coordinate;
    let mut p: usize = 0;
    while p < sorted.len() && text_less(sorted[p].coordinate.as_str(), record.coordinate.as_str())
        invariant
            before == sorted@,
            keys == coordinates(locked_views(sorted@)),
            key == record@.coordinate,
            p <= sorted@.len(),
            forall|q: int| 0 <= q < p ==> lex_lt(#[trigger] keys[q], key),
        decreases sorted.len() - p,
    {
        assert(keys[p as int] == sorted@[p as int]@.coordinate);
        p = p + 1;
    }
    if p < sorted.len() {
        assert(keys[p as int] == before[p as int]@.coordinate);
        proof {
            lemma_lex_total(keys[p as int], key);
        }
    }
    proof {
        lemma_insert_sorted(keys, p as int, key);
    }
    sorted.insert(p, record);
    assert(coordinates(locked_views(sorted@)) =~= keys.insert(p as int, key));
    p
}

/// Each of `s` is the canonical form of a record of `o` from `lo` on, and each of those has
/// its canonical form in `s`.
#[verifier::opaque]
pub open spec fn placed(s: Seq<LockedView>, o: Seq<LockedView>, lo: int) -> bool {
    &&& forall|k: int| 0 <= k < s.len() ==> has_source(#[trigger] s[k], o, lo)
    &&& forall|i: int| lo <= i < o.len() ==> has_image(s, #[trigger] o[i])
}

proof fn lemma_placed_empty(o: Seq<LockedView>)
    ensures
        placed(Seq::empty(), o, o.len() as int),
{
    reveal(placed);
}

proof fn lemma_place_step(s: Seq<LockedView>, o: Seq<LockedView>, lo: int, p: int, x: LockedView)
    requires
        0 <= lo < o.len(),
        placed(s, o, lo + 1),
        canonical_package(x, o[lo]),
        0 <= p <= s.len(),
    ensures
        placed(s.insert(p, x), o, lo),
{
    reveal(placed);
    let t = s.insert(p, x);
    assert forall|k: int| 0 <= k < t.len() implies has_source(#[trigger] t[k], o, lo) by {
        if k < p {
            assert(t[k] == s[k]);
            assert(has_source(s[k], o, lo + 1));
            let i = choose|i: int| lo + 1 <= i < o.len() && #[trigger] canonical_package(s[k], o[i]);
            assert(canonical_package(t[k], o[i]));
        } else if k > p {
            assert(t[k] == s[k - 1]);
            assert(has_source(s[k - 1], o, lo + 1));
            let i = choose|i: int| lo + 1 <= i < o.len() && #[trigger] canonical_package(s[k - 1], o[i]);
            assert(canonical_package(t[k], o[i]));
        } else {
            assert(canonical_package(t[k], o[lo]));
        }
    }
    assert forall|i: int| lo <= i < o.len() implies has_image(t, #[trigger] o[i]) by {
        if i == lo {
            assert(canonical_package(t[p], o[i]));
        } else {
            assert(has_image(s, o[i]));
            let k = choose|k: int| 0 <= k < s.len() && #[trigger] canonical_package(s[k], o[i]);
            if k < p {
                assert(t[k] == s[k]);
                assert(canonical_package(t[k], o[i]));
            } else {
                assert(t[k + 1] == s[k]);
                assert(canonical_package(t[k + 1], o[i]));
            }
        }
    }
}

proof fn lemma_placed_coordinate(s: Seq<LockedView>, o: Seq<LockedView>, lo: int, k: int)
    requires
        placed(s, o, lo),
        0 <= k < s.len(),
        0 <= lo,
        forall|i: int, j: int| 0 <= j < i < o.len() ==> #[trigger] o[j].coordinate != #[trigger] o[i].coordinate,
    ensures
        lo > 0 ==> s[k].coordinate != o[lo - 1].coordinate,
{
    reveal(placed);
    assert(has_source(s[k], o, lo));
    let i = choose|i: int| lo <= i < o.len() && #[trigger] canonical_package(s[k], o[i]);
    lemma_canonical_coordinate(s[k], o[i]);
}

proof fn lemma_placed_all(s: Seq<LockedView>, o: Seq<LockedView>)
    requires
        placed(s, o, 0),
        s.len() == o.len(),
        strictly_sorted(coordinates(s)),
    ensures
        canonical_lock(s, o),
{
    reveal(placed);
}

/// The canonical form of each record, ordered by coordinate.
fn canonical_records(packages: Vec<LockedPackage>) -> (sorted: Vec<LockedPackage>)
    requires
        forall|i: int, j: int| 0 <= j < i < packages@.len() ==> #[trigger] packages@[j]@.coordinate != #[trigger] packages@[i]@.coordinate,
        forall|i: int| 0 <= i < packages@.len() ==> first_capability_error(#[trigger] packages@[i]@.capabilities) is None,
    ensures
        canonical_lock(locked_views(sorted@), locked_views(packages@)),
{
    let ghost original = locked_views(packages@);
    assert forall|i: int, j: int| 0 <= j < i < original.len() implies #[trigger] original[j].coordinate != #[trigger] original[i].coordinate by {
        assert(original[i] == packages@[i]@ && original[j] == packages@[j]@);
    }
    assert forall|i: int| 0 <= i < original.len() implies first_capability_error(#[trigger] original[i].capabilities) is None by {
        assert(original[i] == packages@[i]@);
    }
    let mut rest = packages;
    let mut sorted: Vec<LockedPackage> = Vec::new();
    proof {
        lemma_placed_empty(original);
        assert(locked_views(sorted@) =~= Seq::<LockedView>::empty());
        assert(original.take(original.len() as int) =~= original);
    }
    while rest.len() > 0
        invariant
            locked_views(rest@) == original.take(rest@.len() as int),
            rest@.len() <= original.len(),
            sorted@.len() + rest@.len() == original.len(),
            strictly_sorted(coordinates(locked_views(sorted@))),
            forall|i: int, j: int| 0 <= j < i < original.len() ==> #[trigger] original[j].coordinate != #[trigger] original[i].coordinate,
            forall|i: int| 0 <= i < original.len() ==> first_capability_error(#[trigger] original[i].capabilities) is None,
            placed(locked_views(sorted@), original, rest@.len() as int),
        decreases rest.len(),
    {
        let ghost r = (rest@.len() - 1) as int;
        let ghost before = locked_views(sorted@);
        let ghost remaining = locked_views(rest@);
        let package = match rest.pop() {
            Some(package) => package,
            None => return sorted,
        };
        assert(remaining =~= locked_views(rest@).push(package@));
        assert(locked_views(rest@) =~= original.take(r));
        assert(remaining[r] == original[r]);
        let record = canonical_record(package);
        proof {
            lemma_canonical_coordinate(record@, original[r]);
        }
        assert forall|k: int| 0 <= k < sorted@.len() implies #[trigger] sorted@[k]@.coordinate != record@.coordinate by {
            assert(before[k] == sorted@[k]@);
            lemma_placed_coordinate(before, original, r + 1, k);
        }
        let p = insert_record(&mut sorted, record);
        proof {
            lemma_place_step(before, original, r, p as int, record@);
            assert(locked_views(sorted@) =~= before.insert(p as int, record@));
        }
    }
    proof {
        lemma_placed_all(locked_views(sorted@), original);
    }
    sorted
}

/// Records ordered by coordinate, keeping records with equal coordinates in their
/// relative order.
fn sort_by_coordinate(packages: Vec<LockedPackage>) -> (sorted: Vec<LockedPackage>)
    ensures
        locked_views(sorted@).to_multiset() == locked_views(packages@).to_multiset(),
        nondecreasing(coordinates(locked_views(sorted@))),
{
    broadcast use vstd::seq_lib::group_to_multiset_ensures;
    let ghost all = locked_views(packages@).to_multiset();
    let mut rest = packages;
    let mut sorted: Vec<LockedPackage> = Vec::new();
    assert(locked_views(sorted@) =~= Seq::<LockedView>::empty());
    while rest.len() > 0
        invariant
            locked_views(sorted@).to_multiset().add(locked_views(rest@).to_multiset()) == all,
            sorted_texts(coordinates(locked_views(sorted@))),
        decreases rest.len(),
    {
        let ghost before = locked_views(sorted@);
        let ghost keys = coordinates(before);
        let ghost remaining = locked_views(rest@);
        let item = match rest.pop() {
            Some(item) => item,
            None => return sorted,
        };
        let ghost d = item@;
        assert(remaining =~= locked_views(rest@).push(d));
        let mut p: usize = 0;
        while p < sorted.len() && text_less(sorted[p].coordinate.as_str(), item.coordinate.as_str())
            invariant
                before == locked_views(sorted@),
                keys == coordinates(before),
                p <= sorted@.len(),
                d == item@,
                forall|q: int| 0 <= q < p ==> lex_lt(#[trigger] keys[q], d.coordinate),
            decreases sorted.len() - p,
        {
            assert(keys[p as int] == sorted@[p as int]@.coordinate);
            p = p + 1;
        }
        proof {
            let r = keys.insert(p as int, d.coordinate);
            assert forall|i: int, j: int| 0 <= i < j < r.len() implies !lex_lt(#[trigger] r[j], #[trigger] r[i]) by {
                if j < p {
                    assert(r[i] == keys[i] && r[j] == keys[j]);
                } else if j == p {
                    assert(r[i] == keys[i]);
                    lemma_lex_strict(keys[i], d.coordinate);
                } else if i == p {
                    assert(r[j] == keys[j - 1]);
                    assert(!lex_lt(keys[p as int], d.coordinate));
                    if j - 1 > p {
                        lemma_not_lt_transitive(d.coordinate, keys[p as int], keys[j - 1]);
                    }
                } else if i < p {
                    assert(r[i] == keys[i] && r[j] == keys[j - 1]);
                } else {
                    assert(r[i] == keys[i - 1] && r[j] == keys[j - 1]);
                }
            }
            vstd::seq_lib::to_multiset_insert(before, p as int, d);
            vstd::seq_lib::to_multiset_build(locked_views(rest@), d);
        }
        sorted.insert(p, item);
        assert(locked_views(sorted@) =~= before.insert(p as int, d));
        assert(coordinates(locked_views(sorted@)) =~= keys.insert(p as int, d.coordinate));
        assert(locked_views(sorted@).to_multiset().add(locked_views(rest@).to_multiset())
            =~= before.to_multiset().add(remaining.to_multiset()));
    }
    assert(locked_views(rest@) =~= Seq::<LockedView>::empty());
    assert(locked_views(sorted@).to_multiset() =~= all);
    let ghost s = coordinates(locked_views(sorted@));
    assert forall|i: int| 0 <= i < s.len() - 1 implies !lex_lt(#[trigger] s[i + 1], s[i]) by {
        assert(sorted_texts(s));
    }
    sorted
}

/// Two lists in text order that hold the same texts, as many times each, are the same.
proof fn lemma_sorted_same_texts(a: Seq<Seq<char>>, b: Seq<Seq<char>>)
    requires
        sorted_texts(a),
        sorted_texts(b),
        a.to_multiset() == b.to_multiset(),
    ensures
        a == b,
    decreases a.len(),
{
    a.to_multiset_ensures();
    b.to_multiset_ensures();
    if a.len() == 0 {
        assert(b.len() == 0);
        assert(a =~= b);
    } else {
        assert(b.len() > 0);
        assert(a.contains(a[0]));
        assert(a.to_multiset().count(a[0]) > 0);
        assert(b.to_multiset().count(a[0]) > 0);
        assert(b.contains(a[0]));
        let j = choose|j: int| 0 <= j < b.len() && b[j] == a[0];
        assert(b.contains(b[0]));
        assert(b.to_multiset().count(b[0]) > 0);
        assert(a.to_multiset().count(b[0]) > 0);
        assert(a.contains(b[0]));
        let i = choose|i: int| 0 <= i < a.len() && a[i] == b[0];
        if j > 0 {
            assert(!lex_lt(b[j], b[0]));
        }
        if i > 0 {
            assert(!lex_lt(a[i], a[0]));
        }
        if a[0] != b[0] {
            lemma_lex_total(a[0], b[0]);
        }
        assert(a[0] == b[0]);
        let ta = a.remove(0);
        let tb = b.remove(0);
        assert(ta.to_multiset() == a.to_multiset().remove(a[0]));
        assert(tb.to_multiset() == b.to_multiset().remove(b[0]));
        assert forall|p: int, q: int| 0 <= p < q < ta.len() implies !lex_lt(#[trigger] ta[q], #[trigger] ta[p]) by {
            assert(ta[q] == a[q + 1] && ta[p] == a[p + 1]);
        }
        assert forall|p: int, q: int| 0 <= p < q < tb.len() implies !lex_lt(#[trigger] tb[q], #[trigger] tb[p]) by {
            assert(tb[q] == b[q + 1] && tb[p] == b[p + 1]);
        }
        lemma_sorted_same_texts(ta, tb);
        assert(a =~= b) by {
            assert forall|k: int| 0 <= k < a.len() implies a[k] == b[k] by {
                if k > 0 {
                    assert(a[k] == ta[k - 1] && b[k] == tb[k - 1]);
                }
            }
        }
    }
}

/// A package already in canonical form has no other canonical form.
proof fn lemma_package_canonical_fixed(z: LockedView, x: LockedView, y: LockedView)
    requires
        canonical_package(z, x),
        canonical_package(x, y),
    ensures
        z == x,
{
    lemma_sorted_same_texts(z.dependencies, x.dependencies);
    lemma_sorted_unique(z.targets, x.targets);
    assert forall|q: Seq<char>| allows_seq(z.capabilities, q) <==> allows_seq(x.capabilities, q) by {
        if allows_seq(x.capabilities, q) {
            let k = choose|k: int| 0 <= k < x.capabilities.len() && covers(#[trigger] x.capabilities[k], q);
        }
    }
    law_canonical_unique(z.capabilities, x.capabilities);
}

/// A canonical form of a lockfile in coordinate order has the same coordinates, in the
/// same order.
#[verifier::spinoff_prover]
proof fn lemma_same_coordinates(l1: Seq<LockedView>, l2: Seq<LockedView>)
    requires
        strictly_sorted(coordinates(l1)),
        canonical_lock(l2, l1),
    ensures
        coordinates(l2) == coordinates(l1),
{
    let c1 = coordinates(l1);
    let c2 = coordinates(l2);
    assert forall|t: Seq<char>| occurs(c2, t) <==> occurs(c1, t) by {
        if occurs(c2, t) {
            let k = choose|k: int| 0 <= k < c2.len() && #[trigger] c2[k] == t;
            assert(has_source(l2[k], l1, 0));
            let i = choose|i: int| 0 <= i < l1.len() && #[trigger] canonical_package(l2[k], l1[i]);
            assert(c1[i] == t);
        }
        if occurs(c1, t) {
            let i = choose|i: int| 0 <= i < c1.len() && #[trigger] c1[i] == t;
            assert(has_image(l2, l1[i]));
            let k = choose|k: int| 0 <= k < l2.len() && #[trigger] canonical_package(l2[k], l1[i]);
            assert(c2[k] == t);
        }
    }
    lemma_sorted_unique(c2, c1);
}

/// Entry `k` of a canonical form of a canonical lockfile is the entry it had.
#[verifier::spinoff_prover]
proof fn lemma_entry_fixed(l0: Seq<LockedView>, l1: Seq<LockedView>, l2: Seq<LockedView>, k: int)
    requires
        canonical_lock(l1, l0),
        canonical_lock(l2, l1),
        coordinates(l2) == coordinates(l1),
        0 <= k < l2.len(),
    ensures
        l2[k] == l1[k],
{
    let c1 = coordinates(l1);
    assert(has_source(l2[k], l1, 0));
    let i = choose|i: int| 0 <= i < l1.len() && #[trigger] canonical_package(l2[k], l1[i]);
    assert(coordinates(l2)[k] == l2[k].coordinate);
    assert(c1[k] == l1[k].coordinate && c1[i] == l1[i].coordinate);
    if i != k {
        if i < k {
            assert(lex_lt(c1[i], c1[k]));
        } else {
            assert(lex_lt(c1[k], c1[i]));
        }
        crate::host::capability::lemma_lex_irreflexive(c1[k]);
    }
    assert(has_source(l1[k], l0, 0));
    let j = choose|j: int| 0 <= j < l0.len() && #[trigger] canonical_package(l1[k], l0[j]);
    lemma_package_canonical_fixed(l2[k], l1[k], l0[j]);
}

/// Canonicalizing twice changes nothing: the canonical form of a lockfile already in
/// canonical form is that lockfile.
pub proof fn law_canonicalize_idempotent(l0: Seq<LockedView>, l1: Seq<LockedView>, l2: Seq<LockedView>)
    requires
        canonical_lock(l1, l0),
        canonical_lock(l2, l1),
    ensures
        l2 == l1,
{
    lemma_same_coordinates(l1, l2);
    assert forall|k: int| 0 <= k < l2.len() implies l2[k] == l1[k] by {
        lemma_entry_fixed(l0, l1, l2, k);
    }
    assert(l2 =~= l1);
}

} // verus!
