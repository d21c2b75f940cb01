//! The module dependency graph: registration, acyclicity and the deterministic
//! initialization order.
//!
//! Dependencies are initialized before their dependents; among the modules that are ready
//! at a step, the one with the lexicographically least canonical path goes first.
use vstd::prelude::*;

use crate::host::capability::{lemma_lex_transitive, lex_lt};
use crate::package::graph::{count_state, lemma_count_bound, lemma_count_update};
use crate::package::order::{lemma_lex_strict, text_equal, text_less};
use crate::runtime::error::RuntimeError;
use crate::runtime::module::ModuleRecord;
use crate::text::{char_is_whitespace, chars_of, is_unicode_whitespace, string_views};
use vstd::string::*;

verus! {

/// The dependency paths the record at position `i` declares.
pub open spec fn deps_of(g: Seq<(Seq<char>, ModuleRecord)>, i: int) -> Seq<Seq<char>> {
    string_views(g[i].1.dependencies@)
}

/// Some module is registered under `name`.
pub open spec fn has_key(g: Seq<(Seq<char>, ModuleRecord)>, name: Seq<char>) -> bool {
    exists|i: int| 0 <= i < g.len() && (#[trigger] g[i]).0 == name
}

/// No two modules are registered under one path.
pub open spec fn paths_unique(g: Seq<(Seq<char>, ModuleRecord)>) -> bool {
    forall|i: int, j: int|
        0 <= i < g.len() && 0 <= j < g.len() && (#[trigger] g[i]).0 == (#[trigger] g[j]).0 ==> i == j
}

/// A canonical module path: not empty, no surrounding whitespace, and no empty segment
/// between dots (so it neither starts nor ends with a dot and holds no two dots in a row).
pub open spec fn valid_module_path(p: Seq<char>) -> bool {
    &&& p.len() > 0
    &&& !is_unicode_whitespace(p[0])
    &&& !is_unicode_whitespace(p[p.len() - 1])
    &&& p[0] != '.'
    &&& p[p.len() - 1] != '.'
    &&& forall|i: int| 0 <= i < p.len() - 1 ==> !((#[trigger] p[i]) == '.' && p[i + 1] == '.')
}

/// Every dependency is a canonical module path, and none is listed twice.
pub open spec fn valid_dependencies(deps: Seq<Seq<char>>) -> bool {
    &&& forall|k: int| 0 <= k < deps.len() ==> valid_module_path(#[trigger] deps[k])
    &&& forall|k: int, l: int| 0 <= k < l < deps.len() ==> (#[trigger] deps[k]) != (#[trigger] deps[l])
}

/// Some registered module declares a dependency on `name`.
pub open spec fn depended_on(g: Seq<(Seq<char>, ModuleRecord)>, name: Seq<char>) -> bool {
    exists|i: int, k: int|
        0 <= i < g.len() && 0 <= k < deps_of(g, i).len() && #[trigger] deps_of(g, i)[k] == name
}

/// `name` is declared as a dependency but no module is registered under it.
pub open spec fn is_missing(g: Seq<(Seq<char>, ModuleRecord)>, name: Seq<char>) -> bool {
    depended_on(g, name) && !has_key(g, name)
}

/// Some declared dependency is not registered.
pub open spec fn has_missing(g: Seq<(Seq<char>, ModuleRecord)>) -> bool {
    exists|name: Seq<char>| #[trigger] is_missing(g, name)
}

/// `name` is the lexicographically least missing dependency.
pub open spec fn least_missing(g: Seq<(Seq<char>, ModuleRecord)>, name: Seq<char>) -> bool {
    &&& is_missing(g, name)
    &&& forall|m: Seq<char>| #[trigger] is_missing(g, m) ==> !lex_lt(m, name)
}

/// The module registered under `a` declares a dependency on `b`.
pub open spec fn module_edge(g: Seq<(Seq<char>, ModuleRecord)>, a: Seq<char>, b: Seq<char>) -> bool {
    exists|i: int| 0 <= i < g.len() && (#[trigger] g[i]).0 == a && deps_of(g, i).contains(b)
}

/// A closed chain of dependencies: at least one step, ending where it starts.
pub open spec fn module_cycle(g: Seq<(Seq<char>, ModuleRecord)>, c: Seq<Seq<char>>) -> bool {
    &&& c.len() >= 2
    &&& c[0] == c[c.len() - 1]
    &&& forall|t: int| 0 <= t < c.len() - 1 ==> module_edge(g, #[trigger] c[t], c[t + 1])
}

/// No chain of dependencies leads from a module back to itself.
pub open spec fn module_acyclic(g: Seq<(Seq<char>, ModuleRecord)>) -> bool {
    forall|c: Seq<Seq<char>>| !module_cycle(g, c)
}

/// Every item occurs among `placed`.
pub open spec fn all_in(items: Seq<Seq<char>>, placed: Seq<Seq<char>>) -> bool {
    forall|k: int| 0 <= k < items.len() ==> placed.contains(#[trigger] items[k])
}

/// The module at position `i` is not placed yet and all its dependencies are.
pub open spec fn ready(g: Seq<(Seq<char>, ModuleRecord)>, placed: Seq<Seq<char>>, i: int) -> bool {
    !placed.contains(g[i].0) && all_in(deps_of(g, i), placed)
}

/// No ready module has a path that orders before `name`.
pub open spec fn least_ready(g: Seq<(Seq<char>, ModuleRecord)>, placed: Seq<Seq<char>>, name: Seq<char>) -> bool {
    forall|j: int| 0 <= j < g.len() && #[trigger] ready(g, placed, j) ==> !lex_lt(g[j].0, name)
}

/// After `placed`, the module `name` initializes next: it is ready, and no ready module's
/// path orders before it.
pub open spec fn next_in_order(g: Seq<(Seq<char>, ModuleRecord)>, placed: Seq<Seq<char>>, name: Seq<char>) -> bool {
    &&& exists|i: int| 0 <= i < g.len() && (#[trigger] g[i]).0 == name && ready(g, placed, i)
    &&& least_ready(g, placed, name)
}

/// Each path of `order` is the one that initializes next after those before it.
pub open spec fn order_prefix(g: Seq<(Seq<char>, ModuleRecord)>, order: Seq<Seq<char>>) -> bool {
    forall|t: int| 0 <= t < order.len() ==> next_in_order(g, order.take(t), #[trigger] order[t])
}

/// `order` is the initialization order of the whole graph: built step by step as
/// [`next_in_order`] says, and holding every registered module.
pub open spec fn init_order(g: Seq<(Seq<char>, ModuleRecord)>, order: Seq<Seq<char>>) -> bool {
    &&& order_prefix(g, order)
    &&& forall|i: int| 0 <= i < g.len() ==> order.contains((#[trigger] g[i]).0)
}

/// The registered modules, each with the path it is keyed by.
pub open spec fn entry_views(e: Seq<(String, ModuleRecord)>) -> Seq<(Seq<char>, ModuleRecord)> {
    e.map_values(|x: (String, ModuleRecord)| (x.0@, x.1))
}

/// Changing a record in place, under the path it is registered by, keeps paths unique.
proof fn lemma_paths_unique_update(e: Seq<(String, ModuleRecord)>, i: int)
    requires
        paths_unique(entry_views(e)),
        0 <= i < e.len(),
    ensures
        forall|r: ModuleRecord| #[trigger] paths_unique(entry_views(e.update(i, (e[i].0, r)))),
{
    assert forall|r: ModuleRecord| #[trigger] paths_unique(entry_views(e.update(i, (e[i].0, r)))) by {
        let g = entry_views(e);
        let h = entry_views(e.update(i, (e[i].0, r)));
        assert forall|a: int, b: int|
            0 <= a < h.len() && 0 <= b < h.len() && (#[trigger] h[a]).0 == (#[trigger] h[b]).0 implies a == b by {
            assert(h[a].0 == g[a].0 && h[b].0 == g[b].0);
        }
    }
}

/// The dependency that module `pos.0` lists at `pos.1`.
pub open spec fn dep_at(g: Seq<(Seq<char>, ModuleRecord)>, pos: (usize, usize)) -> Seq<char> {
    deps_of(g, pos.0 as int)[pos.1 as int]
}

/// The dependency at `(a, b)` comes before `(i, k)` in declaration order.
pub open spec fn scanned(a: int, b: int, i: int, k: int) -> bool {
    a < i || (a == i && b < k)
}

/// What the search for the least missing dependency knows after every dependency before
/// `(i, k)`: without a candidate, all of them are registered; with one, it is missing and
/// no missing dependency seen so far orders before it.
pub open spec fn scan_state(
    g: Seq<(Seq<char>, ModuleRecord)>,
    best: Option<(usize, usize)>,
    i: int,
    k: int,
) -> bool {
    match best {
        None => forall|a: int, b: int|
            0 <= a < g.len() && 0 <= b < deps_of(g, a).len() && scanned(a, b, i, k) ==> has_key(
                g,
                #[trigger] deps_of(g, a)[b],
            ),
        Some((bi, bk)) => {
            &&& bi < g.len()
            &&& bk < deps_of(g, bi as int).len()
            &&& scanned(bi as int, bk as int, i, k)
            &&& !has_key(g, deps_of(g, bi as int)[bk as int])
            &&& forall|a: int, b: int|
                0 <= a < g.len() && 0 <= b < deps_of(g, a).len() && scanned(a, b, i, k) && !has_key(
                    g,
                    #[trigger] deps_of(g, a)[b],
                ) ==> !lex_lt(deps_of(g, a)[b], deps_of(g, bi as int)[bk as int])
        },
    }
}

proof fn lemma_scan_present(g: Seq<(Seq<char>, ModuleRecord)>, best: Option<(usize, usize)>, i: int, k: int)
    requires
        scan_state(g, best, i, k),
        0 <= i < g.len(),
        0 <= k < deps_of(g, i).len(),
        has_key(g, deps_of(g, i)[k]),
    ensures
        scan_state(g, best, i, k + 1),
{
}

proof fn lemma_scan_keep(g: Seq<(Seq<char>, ModuleRecord)>, best: Option<(usize, usize)>, i: int, k: int)
    requires
        scan_state(g, best, i, k),
        0 <= i < g.len(),
        0 <= k < deps_of(g, i).len(),
        best is Some,
        !lex_lt(deps_of(g, i)[k], dep_at(g, best->0)),
    ensures
        scan_state(g, best, i, k + 1),
{
}

proof fn lemma_scan_replace(g: Seq<(Seq<char>, ModuleRecord)>, best: Option<(usize, usize)>, i: int, k: int)
    requires
        scan_state(g, best, i, k),
        0 <= i < g.len(),
        0 <= k < deps_of(g, i).len(),
        !has_key(g, deps_of(g, i)[k]),
        best is Some ==> lex_lt(deps_of(g, i)[k], dep_at(g, best->0)),
    ensures
        i <= usize::MAX && k <= usize::MAX ==> scan_state(g, Some((i as usize, k as usize)), i, k + 1),
{
    let d = deps_of(g, i)[k];
    match best {
        None => {},
        Some((bi, bk)) => {
            let cur = deps_of(g, bi as int)[bk as int];
            assert forall|a: int, b: int|
                0 <= a < g.len() && 0 <= b < deps_of(g, a).len() && scanned(a, b, i, k) && !has_key(
                    g,
                    #[trigger] deps_of(g, a)[b],
                ) implies !lex_lt(deps_of(g, a)[b], d) by {
                if lex_lt(deps_of(g, a)[b], d) {
                    lemma_lex_transitive(deps_of(g, a)[b], d, cur);
                }
            }
        },
    }
    lemma_lex_strict(d, d);
}

proof fn lemma_scan_next_module(g: Seq<(Seq<char>, ModuleRecord)>, best: Option<(usize, usize)>, i: int)
    requires
        0 <= i < g.len(),
        scan_state(g, best, i, deps_of(g, i).len() as int),
    ensures
        scan_state(g, best, i + 1, 0),
{
}

proof fn lemma_scan_done(g: Seq<(Seq<char>, ModuleRecord)>, best: Option<(usize, usize)>)
    requires
        scan_state(g, best, g.len() as int, 0),
    ensures
        match best {
            Some((i, k)) => i < g.len() && k < deps_of(g, i as int).len() && least_missing(
                g,
                deps_of(g, i as int)[k as int],
            ),
            None => !has_missing(g),
        },
{
    match best {
        None => {
            if has_missing(g) {
                let m = choose|m: Seq<char>| #[trigger] is_missing(g, m);
                let (a, b) = choose|a: int, b: int|
                    0 <= a < g.len() && 0 <= b < deps_of(g, a).len() && #[trigger] deps_of(g, a)[b] == m;
                assert(has_key(g, deps_of(g, a)[b]));
            }
        },
        Some((bi, bk)) => {
            let d = deps_of(g, bi as int)[bk as int];
            assert(depended_on(g, d));
            assert forall|m: Seq<char>| #[trigger] is_missing(g, m) implies !lex_lt(m, d) by {
                let (a, b) = choose|a: int, b: int|
                    0 <= a < g.len() && 0 <= b < deps_of(g, a).len() && #[trigger] deps_of(g, a)[b] == m;
                assert(!has_key(g, deps_of(g, a)[b]));
            }
        },
    }
}

/// `adj` lists, for each module, the positions of the modules its dependencies name.
pub open spec fn resolves(g: Seq<(Seq<char>, ModuleRecord)>, adj: Seq<Vec<usize>>) -> bool {
    &&& adj.len() == g.len()
    &&& forall|i: int| 0 <= i < g.len() ==> (#[trigger] adj[i])@.len() == deps_of(g, i).len()
    &&& forall|i: int, k: int|
        0 <= i < g.len() && 0 <= k < adj[i]@.len() ==> #[trigger] adj[i]@[k] < g.len() && g[adj[i]@[k] as int].0
            == deps_of(g, i)[k]
}

/// The flags mark exactly the modules whose paths are in `placed` (a flag of zero marks
/// a module not placed yet).
pub open spec fn marks(g: Seq<(Seq<char>, ModuleRecord)>, flags: Seq<u8>, placed: Seq<Seq<char>>) -> bool {
    &&& flags.len() == g.len()
    &&& forall|i: int| 0 <= i < g.len() ==> ((#[trigger] flags[i] != 0) == placed.contains(g[i].0))
}

/// The module at position `i` is not flagged and all the modules it depends on are.
pub open spec fn ready_at(adj: Seq<Vec<usize>>, flags: Seq<u8>, i: int) -> bool {
    &&& flags[i] == 0
    &&& forall|k: int| 0 <= k < adj[i]@.len() ==> flags[#[trigger] adj[i]@[k] as int] != 0
}

/// `u` lists a dependency on `v`.
pub open spec fn edge_at(adj: Seq<Vec<usize>>, u: int, v: int) -> bool {
    exists|k: int| 0 <= k < adj[u]@.len() && #[trigger] adj[u]@[k] == v
}

proof fn lemma_ready_agrees(g: Seq<(Seq<char>, ModuleRecord)>, adj: Seq<Vec<usize>>, flags: Seq<u8>, placed: Seq<Seq<char>>, i: int)
    requires
        resolves(g, adj),
        marks(g, flags, placed),
        0 <= i < g.len(),
    ensures
        ready_at(adj, flags, i) == ready(g, placed, i),
{
    let deps = deps_of(g, i);
    assert(flags[i] != 0 <==> placed.contains(g[i].0));
    if ready_at(adj, flags, i) {
        assert forall|k: int| 0 <= k < deps.len() implies placed.contains(#[trigger] deps[k]) by {
            let v = adj[i]@[k] as int;
            assert(flags[v] != 0);
            assert(g[v].0 == deps[k]);
        }
    }
    if ready(g, placed, i) {
        assert forall|k: int| 0 <= k < adj[i]@.len() implies flags[#[trigger] adj[i]@[k] as int] != 0 by {
            let v = adj[i]@[k] as int;
            assert(placed.contains(deps[k]));
            assert(g[v].0 == deps[k]);
        }
    }
}

proof fn lemma_push_contains(s: Seq<Seq<char>>, x: Seq<char>, y: Seq<char>)
    ensures
        s.push(x).contains(y) == (s.contains(y) || x == y),
{
    if s.contains(y) {
        let t = choose|t: int| 0 <= t < s.len() && s[t] == y;
        assert(s.push(x)[t] == y);
    }
    if x == y {
        assert(s.push(x)[s.len() as int] == y);
    }
    if s.push(x).contains(y) {
        let t = choose|t: int| 0 <= t < s.len() + 1 && s.push(x)[t] == y;
        if t < s.len() {
            assert(s[t] == y);
        }
    }
}

/// The next module joins the order: the prefix property and the marks carry over.
proof fn lemma_place(
    g: Seq<(Seq<char>, ModuleRecord)>,
    adj: Seq<Vec<usize>>,
    flags: Seq<u8>,
    order: Seq<Seq<char>>,
    b: int,
)
    requires
        paths_unique(g),
        resolves(g, adj),
        marks(g, flags, order),
        order_prefix(g, order),
        0 <= b < g.len(),
        ready_at(adj, flags, b),
        forall|j: int| 0 <= j < g.len() && ready_at(adj, flags, j) ==> !lex_lt(#[trigger] g[j].0, g[b].0),
    ensures
        marks(g, flags.update(b, 1), order.push(g[b].0)),
        order_prefix(g, order.push(g[b].0)),
{
    let next = order.push(g[b].0);
    lemma_ready_agrees(g, adj, flags, order, b);
    assert forall|i: int| 0 <= i < g.len() implies ((#[trigger] flags.update(b, 1)[i] != 0) == next.contains(g[i].0)) by {
        lemma_push_contains(order, g[b].0, g[i].0);
        assert(flags[i] != 0 <==> order.contains(g[i].0));
        if g[b].0 == g[i].0 {
            assert(i == b);
        }
    }
    assert forall|t: int| 0 <= t < next.len() implies next_in_order(g, next.take(t), #[trigger] next[t]) by {
        if t < order.len() {
            assert(next.take(t) =~= order.take(t));
            assert(next[t] == order[t]);
        } else {
            assert(next.take(t) =~= order);
            assert(next[t] == g[b].0);
            assert forall|j: int| 0 <= j < g.len() && #[trigger] ready(g, order, j) implies !lex_lt(g[j].0, g[b].0) by {
                lemma_ready_agrees(g, adj, flags, order, j);
            }
        }
    }
}

/// A path occurs at most once in an order built step by step.
proof fn lemma_order_distinct(g: Seq<(Seq<char>, ModuleRecord)>, order: Seq<Seq<char>>, s: int, t: int)
    requires
        order_prefix(g, order),
        0 <= s < t < order.len(),
    ensures
        order[s] != order[t],
{
    assert(next_in_order(g, order.take(t), order[t]));
    let i = choose|i: int| 0 <= i < g.len() && (#[trigger] g[i]).0 == order[t] && ready(g, order.take(t), i);
    assert(order.take(t)[s] == order[s]);
}

/// Where `x` stands in `order`.
pub open spec fn position_in(order: Seq<Seq<char>>, x: Seq<char>) -> int {
    choose|p: int| 0 <= p < order.len() && order[p] == x
}

/// Law: in the initialization order, every dependency comes before the module that
/// declares it.
pub proof fn law_dependencies_first(g: Seq<(Seq<char>, ModuleRecord)>, order: Seq<Seq<char>>, a: Seq<char>, b: Seq<char>)
    requires
        paths_unique(g),
        init_order(g, order),
        module_edge(g, a, b),
    ensures
        order.contains(a),
        order.contains(b),
        0 <= position_in(order, b) < position_in(order, a) < order.len(),
        order[position_in(order, a)] == a,
        order[position_in(order, b)] == b,
{
    let i = choose|i: int| 0 <= i < g.len() && (#[trigger] g[i]).0 == a && deps_of(g, i).contains(b);
    assert(order.contains(g[i].0));
    let p = position_in(order, a);
    assert(next_in_order(g, order.take(p), order[p]));
    let i2 = choose|i2: int| 0 <= i2 < g.len() && (#[trigger] g[i2]).0 == order[p] && ready(g, order.take(p), i2);
    assert(i2 == i);
    let k = choose|k: int| 0 <= k < deps_of(g, i).len() && deps_of(g, i)[k] == b;
    assert(order.take(p).contains(deps_of(g, i)[k]));
    let q = choose|q: int| 0 <= q < order.take(p).len() && order.take(p)[q] == b;
    assert(order[q] == b);
    let q2 = position_in(order, b);
    if q2 != q {
        if q < q2 {
            lemma_order_distinct(g, order, q, q2);
        } else {
            lemma_order_distinct(g, order, q2, q);
        }
    }
}

/// Following a cycle, positions in the order strictly fall.
proof fn lemma_cycle_descends(g: Seq<(Seq<char>, ModuleRecord)>, order: Seq<Seq<char>>, c: Seq<Seq<char>>, t: int)
    requires
        paths_unique(g),
        init_order(g, order),
        module_cycle(g, c),
        1 <= t < c.len(),
    ensures
        order.contains(c[t]),
        position_in(order, c[t]) < position_in(order, c[0]),
    decreases t,
{
    law_dependencies_first(g, order, c[t - 1], c[t]);
    if t > 1 {
        lemma_cycle_descends(g, order, c, t - 1);
    }
}

/// A graph with a complete initialization order has no cycle.
proof fn lemma_order_acyclic(g: Seq<(Seq<char>, ModuleRecord)>, order: Seq<Seq<char>>)
    requires
        paths_unique(g),
        init_order(g, order),
    ensures
        module_acyclic(g),
{
    assert forall|c: Seq<Seq<char>>| !module_cycle(g, c) by {
        if module_cycle(g, c) {
            lemma_cycle_descends(g, order, c, c.len() - 1);
        }
    }
}

/// Law: a graph has at most one initialization order, so computing it twice gives the
/// same order.
pub proof fn law_init_order_unique(g: Seq<(Seq<char>, ModuleRecord)>, a: Seq<Seq<char>>, b: Seq<Seq<char>>)
    requires
        paths_unique(g),
        init_order(g, a),
        init_order(g, b),
    ensures
        a == b,
{
    let m = if a.len() < b.len() { a.len() } else { b.len() };
    assert forall|t: int| 0 <= t <= m implies #[trigger] a.take(t) == b.take(t) by {
        lemma_same_prefix(g, a, b, t);
    }
    assert(a.take(m as int) == b.take(m as int));
    if a.len() <= b.len() {
        assert(a.take(m as int) =~= a);
        lemma_complete_order_ends(g, a, b);
    } else {
        assert(b.take(m as int) =~= b);
        lemma_complete_order_ends(g, b, a);
    }
    assert(a =~= a.take(m as int));
    assert(b =~= b.take(m as int));
}

/// Two orders built step by step from the same graph agree on their common prefix.
proof fn lemma_same_prefix(g: Seq<(Seq<char>, ModuleRecord)>, a: Seq<Seq<char>>, b: Seq<Seq<char>>, t: int)
    requires
        paths_unique(g),
        order_prefix(g, a),
        order_prefix(g, b),
        0 <= t <= a.len(),
        t <= b.len(),
    ensures
        a.take(t) == b.take(t),
    decreases t,
{
    if t > 0 {
        lemma_same_prefix(g, a, b, t - 1);
        let p = a.take(t - 1);
        assert(b.take(t - 1) == p);
        assert(next_in_order(g, a.take(t - 1), a[t - 1]));
        assert(next_in_order(g, b.take(t - 1), b[t - 1]));
        let i = choose|i: int| 0 <= i < g.len() && (#[trigger] g[i]).0 == a[t - 1] && ready(g, p, i);
        let j = choose|j: int| 0 <= j < g.len() && (#[trigger] g[j]).0 == b[t - 1] && ready(g, p, j);
        assert(!lex_lt(g[j].0, a[t - 1]));
        assert(!lex_lt(g[i].0, b[t - 1]));
        if a[t - 1] != b[t - 1] {
            crate::host::capability::lemma_lex_total(a[t - 1], b[t - 1]);
        }
        assert(a.take(t) =~= p.push(a[t - 1]));
        assert(b.take(t) =~= p.push(b[t - 1]));
    }
}

/// A complete order cannot be extended: once every module is placed, none is ready.
proof fn lemma_complete_order_ends(g: Seq<(Seq<char>, ModuleRecord)>, a: Seq<Seq<char>>, b: Seq<Seq<char>>)
    requires
        init_order(g, a),
        order_prefix(g, b),
        a.len() <= b.len(),
        a == b.take(a.len() as int),
    ensures
        a.len() == b.len(),
{
    if a.len() < b.len() {
        let t = a.len() as int;
        assert(next_in_order(g, b.take(t), b[t]));
        let i = choose|i: int| 0 <= i < g.len() && (#[trigger] g[i]).0 == b[t] && ready(g, b.take(t), i);
        assert(a.contains(g[i].0));
    }
}

/// Whether the module at position `i` is ready under `flags`.
fn is_ready(adj: &Vec<Vec<usize>>, flags: &Vec<u8>, i: usize) -> (ok: bool)
    requires
        i < adj@.len(),
        flags@.len() == adj@.len(),
        forall|k: int| 0 <= k < adj@[i as int]@.len() ==> #[trigger] adj@[i as int]@[k] < flags@.len(),
    ensures
        ok == ready_at(adj@, flags@, i as int),
{
    if flags[i] != 0 {
        return false;
    }
    let row = &adj[i];
    let mut k: usize = 0;
    while k < row.len()
        invariant
            row@ == adj@[i as int]@,
            flags@.len() == adj@.len(),
            forall|q: int| 0 <= q < row@.len() ==> #[trigger] row@[q] < flags@.len(),
            k <= row@.len(),
            forall|q: int| 0 <= q < k ==> flags@[#[trigger] row@[q] as int] != 0,
        decreases row.len() - k,
    {
        if flags[row[k]] == 0 {
            return false;
        }
        k = k + 1;
    }
    true
}

/// The ready module whose path orders first, if any module is ready.
fn pick_ready(paths: &Vec<String>, adj: &Vec<Vec<usize>>, flags: &Vec<u8>) -> (pick: Option<usize>)
    requires
        adj@.len() == paths@.len(),
        flags@.len() == paths@.len(),
        forall|i: int, k: int| 0 <= i < adj@.len() && 0 <= k < adj@[i]@.len() ==> #[trigger] adj@[i]@[k] < flags@.len(),
    ensures
        match pick {
            Some(b) => b < paths@.len() && ready_at(adj@, flags@, b as int) && forall|j: int|
                0 <= j < paths@.len() && ready_at(adj@, flags@, j) ==> !lex_lt(#[trigger] paths@[j]@, paths@[b as int]@),
            None => forall|j: int| 0 <= j < paths@.len() ==> !ready_at(adj@, flags@, j),
        },
{
    let n = paths.len();
    let mut best: Option<usize> = None;
    let mut j: usize = 0;
    while j < n
        invariant
            n == paths@.len(),
            adj@.len() == n,
            flags@.len() == n,
            forall|i: int, k: int| 0 <= i < adj@.len() && 0 <= k < adj@[i]@.len() ==> #[trigger] adj@[i]@[k] < flags@.len(),
            j <= n,
            match best {
                Some(b) => b < j && ready_at(adj@, flags@, b as int) && forall|q: int|
                    0 <= q < j && ready_at(adj@, flags@, q) ==> !lex_lt(#[trigger] paths@[q]@, paths@[b as int]@),
                None => forall|q: int| 0 <= q < j ==> !ready_at(adj@, flags@, q),
            },
        decreases n - j,
    {
        if is_ready(adj, flags, j) {
            match best {
                None => {
                    proof {
                        lemma_lex_strict(paths@[j as int]@, paths@[j as int]@);
                    }
                    best = Some(j);
                },
                Some(b) => {
                    if text_less(paths[j].as_str(), paths[b].as_str()) {
                        proof {
                            let pb = paths@[b as int]@;
                            let pj = paths@[j as int]@;
                            assert forall|q: int| 0 <= q < j + 1 && ready_at(adj@, flags@, q) implies !lex_lt(
                                #[trigger] paths@[q]@,
                                pj,
                            ) by {
                                if q == j {
                                    lemma_lex_strict(pj, pj);
                                } else if lex_lt(paths@[q]@, pj) {
                                    lemma_lex_transitive(paths@[q]@, pj, pb);
                                }
                            }
                        }
                        best = Some(j);
                    }
                },
            }
        }
        j = j + 1;
    }
    best
}

/// Where in `row` a module not flagged yet is listed, if anywhere.
fn unflagged_in(row: &Vec<usize>, flags: &Vec<u8>) -> (found: Option<usize>)
    requires
        forall|k: int| 0 <= k < row@.len() ==> #[trigger] row@[k] < flags@.len(),
    ensures
        match found {
            Some(k) => k < row@.len() && flags@[row@[k as int] as int] == 0,
            None => forall|k: int| 0 <= k < row@.len() ==> flags@[#[trigger] row@[k] as int] != 0,
        },
{
    let mut k: usize = 0;
    while k < row.len()
        invariant
            forall|q: int| 0 <= q < row@.len() ==> #[trigger] row@[q] < flags@.len(),
            k <= row@.len(),
            forall|q: int| 0 <= q < k ==> flags@[#[trigger] row@[q] as int] != 0,
        decreases row.len() - k,
    {
        if flags[row[k]] == 0 {
            return Some(k);
        }
        k = k + 1;
    }
    None
}

/// The first module not flagged yet, if any.
fn first_unflagged(flags: &Vec<u8>) -> (found: Option<usize>)
    ensures
        match found {
            Some(u) => u < flags@.len() && flags@[u as int] == 0,
            None => forall|i: int| 0 <= i < flags@.len() ==> #[trigger] flags@[i] != 0,
        },
{
    let mut i: usize = 0;
    while i < flags.len()
        invariant
            i <= flags@.len(),
            forall|q: int| 0 <= q < i ==> #[trigger] flags@[q] != 0,
        decreases flags.len() - i,
    {
        if flags[i] == 0 {
            return Some(i);
        }
        i = i + 1;
    }
    None
}

/// A walk through modules not flagged, each listing a dependency on the next; `seen`
/// marks the modules on it and `at` gives where each stands.
pub open spec fn stuck_walk(adj: Seq<Vec<usize>>, flags: Seq<u8>, walk: Seq<usize>, seen: Seq<u8>, at: Seq<usize>) -> bool {
    &&& walk.len() >= 1
    &&& seen.len() == adj.len()
    &&& at.len() == adj.len()
    &&& forall|t: int| 0 <= t < walk.len() ==> #[trigger] walk[t] < adj.len() && flags[walk[t] as int] == 0
    &&& forall|t: int| 0 <= t < walk.len() - 1 ==> edge_at(adj, #[trigger] walk[t] as int, walk[t + 1] as int)
    &&& forall|t: int| 0 <= t < walk.len() ==> seen[#[trigger] walk[t] as int] != 0
    &&& forall|v: int| 0 <= v < adj.len() && #[trigger] seen[v] != 0 ==> at[v] < walk.len() && walk[at[v] as int] == v
}

/// Directed dependency graph of runtime modules, keyed by canonical path.
#[derive(Debug)]
pub struct ModuleGraph {
    entries: Vec<(String, ModuleRecord)>,
}

impl View for ModuleGraph {
    type V = Seq<(Seq<char>, ModuleRecord)>;

    /// The registered modules in registration order, each with the path it is keyed by.
    closed spec fn view(&self) -> Seq<(Seq<char>, ModuleRecord)> {
        entry_views(self.entries@)
    }
}

/// Whether `p` is a canonical module path.
fn is_module_path(p: &str) -> (ok: bool)
    ensures
        ok == valid_module_path(p@),
{
    let cs = chars_of(p);
    let n = cs.len();
    if n == 0 {
        return false;
    }
    if char_is_whitespace(cs[0]) || char_is_whitespace(cs[n - 1]) || cs[0] == '.' || cs[n - 1] == '.' {
        return false;
    }
    let mut i: usize = 0;
    while i + 1 < n
        invariant
            n == cs@.len(),
            cs@ == p@,
            n > 0,
            i + 1 <= n,
            forall|j: int| 0 <= j < i ==> !((#[trigger] cs@[j]) == '.' && cs@[j + 1] == '.'),
        decreases n - i,
    {
        if cs[i] == '.' && cs[i + 1] == '.' {
            return false;
        }
        i = i + 1;
    }
    true
}

/// Whether every dependency is a canonical path listed once.
fn are_valid_dependencies(deps: &Vec<String>) -> (ok: bool)
    ensures
        ok == valid_dependencies(string_views(deps@)),
{
    let ghost views = string_views(deps@);
    let n = deps.len();
    let mut k: usize = 0;
    while k < n
        invariant
            n == deps@.len(),
            views == string_views(deps@),
            k <= n,
            forall|a: int| 0 <= a < k ==> valid_module_path(#[trigger] views[a]),
            forall|a: int, b: int| 0 <= a < b < k ==> (#[trigger] views[a]) != (#[trigger] views[b]),
        decreases n - k,
    {
        assert(views[k as int] == deps@[k as int]@);
        if !is_module_path(deps[k].as_str()) {
            return false;
        }
        let mut l: usize = 0;
        while l < k
            invariant
                n == deps@.len(),
                views == string_views(deps@),
                l <= k < n,
                views[k as int] == deps@[k as int]@,
                forall|a: int| 0 <= a < l ==> (#[trigger] views[a]) != views[k as int],
            decreases k - l,
        {
            assert(views[l as int] == deps@[l as int]@);
            if text_equal(deps[l].as_str(), deps[k].as_str()) {
                assert(views[l as int] == views[k as int]);
                return false;
            }
            l = l + 1;
        }
        k = k + 1;
    }
    true
}

impl ModuleGraph {
    /// No path is registered twice.
    pub closed spec fn well_formed(&self) -> bool {
        paths_unique(self@)
    }

    /// Creates an empty module graph.
    pub fn new() -> (graph: ModuleGraph)
        ensures
            graph.well_formed(),
            graph@ == Seq::<(Seq<char>, ModuleRecord)>::empty(),
    {
        let graph = ModuleGraph { entries: Vec::new() };
        assert(graph@ =~= Seq::<(Seq<char>, ModuleRecord)>::empty());
        graph
    }

    /// The position of the module registered under `name`.
    fn position(&self, name: &str) -> (found: Option<usize>)
        requires
            self.well_formed(),
        ensures
            match found {
                Some(i) => i < self@.len() && self@[i as int].0 == name@,
                None => !has_key(self@, name@),
            },
    {
        let n = self.entries.len();
        let mut i: usize = 0;
        while i < n
            invariant
                self.well_formed(),
                n == self@.len(),
                i <= n,
                forall|j: int| 0 <= j < i ==> (#[trigger] self@[j]).0 != name@,
            decreases n - i,
        {
            assert(self@[i as int].0 == self.entries@[i as int].0@);
            if text_equal(self.entries[i].0.as_str(), name) {
                return Some(i);
            }
            i = i + 1;
        }
        None
    }

    /// Registers a module record under its path. The record is refused, and the graph left
    /// unchanged, where its path is not canonical, a module is already registered under
    /// it, or a dependency is not a canonical path or is listed twice.
    pub fn register(&mut self, record: ModuleRecord) -> (accepted: bool)
        requires
            old(self).well_formed(),
        ensures
            final(self).well_formed(),
            accepted == (valid_module_path(record.path@) && valid_dependencies(
                string_views(record.dependencies@),
            ) && !has_key(old(self)@, record.path@)),
            accepted ==> final(self)@ == old(self)@.push((record.path@, record)),
            !accepted ==> final(self)@ == old(self)@,
    {
        if !is_module_path(record.path.as_str()) || !are_valid_dependencies(&record.dependencies) {
            return false;
        }
        match self.position(record.path.as_str()) {
            Some(_) => false,
            None => {
                let ghost before = self@;
                let key = record.path.clone();
                self.entries.push((key, record));
                assert(self@ =~= before.push((record.path@, record)));
                assert(paths_unique(self@)) by {
                    assert forall|i: int, j: int|
                        0 <= i < self@.len() && 0 <= j < self@.len() && (#[trigger] self@[i]).0
                            == (#[trigger] self@[j]).0 implies i == j by {
                        if i < before.len() && j < before.len() {
                            assert(before[i] == self@[i] && before[j] == self@[j]);
                        } else if i < before.len() {
                            assert(before[i] == self@[i]);
                        } else if j < before.len() {
                            assert(before[j] == self@[j]);
                        }
                    }
                }
                true
            },
        }
    }

    /// The record registered under `path`.
    pub fn get(&self, path: &str) -> (found: Option<&ModuleRecord>)
        requires
            self.well_formed(),
        ensures
            match found {
                Some(r) => exists|i: int| 0 <= i < self@.len() && (#[trigger] self@[i]).0 == path@ && self@[i].1 == *r,
                None => !has_key(self@, path@),
            },
    {
        match self.position(path) {
            Some(i) => Some(&self.entries[i].1),
            None => None,
        }
    }

    /// The record registered under `path`, for changing it in place; the path it is
    /// registered under stays as it is.
    #[verifier::spinoff_prover]
    pub fn get_mut(&mut self, path: &str) -> (found: Option<&mut ModuleRecord>)
        requires
            old(self).well_formed(),
        ensures
            match found {
                Some(r) => exists|i: int|
                    0 <= i < old(self)@.len() && (#[trigger] old(self)@[i]).0 == path@ && old(self)@[i].1 == *r
                        && final(self)@ == old(self)@.update(i, (path@, *final(r))),
                None => !has_key(old(self)@, path@) && final(self)@ == old(self)@,
            },
            final(self).well_formed(),
    {
        match self.position(path) {
            Some(i) => {
                proof {
                    lemma_paths_unique_update(self.entries@, i as int);
                }
                Some(&mut self.entries[i].1)
            },
            None => None,
        }
    }

    /// The position of the lexicographically least dependency that names no registered
    /// module, if there is one: which module declares it, and where.
    fn least_missing_position(&self) -> (found: Option<(usize, usize)>)
        requires
            self.well_formed(),
        ensures
            match found {
                Some((i, k)) => i < self@.len() && k < deps_of(self@, i as int).len() && least_missing(
                    self@,
                    deps_of(self@, i as int)[k as int],
                ),
                None => !has_missing(self@),
            },
    {
        let ghost g = self@;
        let n = self.entries.len();
        let mut best: Option<(usize, usize)> = None;
        let mut i: usize = 0;
        while i < n
            invariant
                self.well_formed(),
                g == self@,
                n == g.len(),
                i <= n,
                scan_state(g, best, i as int, 0),
            decreases n - i,
        {
            let deps = &self.entries[i].1.dependencies;
            assert(deps_of(g, i as int) == string_views(deps@));
            let m = deps.len();
            let mut k: usize = 0;
            while k < m
                invariant
                    self.well_formed(),
                    g == self@,
                    n == g.len(),
                    i < n,
                    deps_of(g, i as int) == string_views(deps@),
                    m == deps@.len(),
                    k <= m,
                    scan_state(g, best, i as int, k as int),
                decreases m - k,
            {
                let dep = deps[k].as_str();
                assert(deps_of(g, i as int)[k as int] == dep@);
                if self.position(dep).is_none() {
                    let replace = match best {
                        None => true,
                        Some((bi, bk)) => {
                            assert(deps_of(g, bi as int)[bk as int]
                                == self.entries@[bi as int].1.dependencies@[bk as int]@);
                            text_less(dep, self.entries[bi].1.dependencies[bk].as_str())
                        },
                    };
                    if replace {
                        proof {
                            lemma_scan_replace(g, best, i as int, k as int);
                        }
                        best = Some((i, k));
                    } else {
                        proof {
                            lemma_scan_keep(g, best, i as int, k as int);
                        }
                    }
                } else {
                    proof {
                        lemma_scan_present(g, best, i as int, k as int);
                    }
                }
                k = k + 1;
            }
            proof {
                lemma_scan_next_module(g, best, i as int);
            }
            i = i + 1;
        }
        proof {
            lemma_scan_done(g, best);
        }
        best
    }

    /// For each module, the positions of the modules its dependencies name.
    fn resolve(&self) -> (adj: Vec<Vec<usize>>)
        requires
            self.well_formed(),
            !has_missing(self@),
        ensures
            resolves(self@, adj@),
    {
        let ghost g = self@;
        let n = self.entries.len();
        let mut adj: Vec<Vec<usize>> = Vec::new();
        let mut i: usize = 0;
        while i < n
            invariant
                self.well_formed(),
                g == self@,
                !has_missing(g),
                n == g.len(),
                i <= n,
                adj@.len() == i,
                forall|a: int| 0 <= a < i ==> (#[trigger] adj@[a])@.len() == deps_of(g, a).len(),
                forall|a: int, k: int|
                    0 <= a < i && 0 <= k < adj@[a]@.len() ==> #[trigger] adj@[a]@[k] < g.len() && g[adj@[a]@[k] as int].0
                        == deps_of(g, a)[k],
            decreases n - i,
        {
            let deps = &self.entries[i].1.dependencies;
            assert(deps_of(g, i as int) == string_views(deps@));
            let mut row: Vec<usize> = Vec::new();
            let mut k: usize = 0;
            while k < deps.len()
                invariant
                    self.well_formed(),
                    g == self@,
                    !has_missing(g),
                    n == g.len(),
                    i < n,
                    deps_of(g, i as int) == string_views(deps@),
                    k <= deps@.len(),
                    row@.len() == k,
                    forall|q: int| 0 <= q < k ==> #[trigger] row@[q] < g.len() && g[row@[q] as int].0 == deps_of(g, i as int)[q],
                decreases deps.len() - k,
            {
                let dep = deps[k].as_str();
                assert(deps_of(g, i as int)[k as int] == dep@);
                match self.position(dep) {
                    Some(p) => row.push(p),
                    None => {
                        assert(is_missing(g, dep@));
                        row.push(0);
                    },
                }
                k = k + 1;
            }
            adj.push(row);
            i = i + 1;
        }
        adj
    }

    /// A cycle through modules that can never become ready, walked from `u`: each of them
    /// depends on another that is not placed.
    fn stuck_cycle(&self, adj: &Vec<Vec<usize>>, flags: &Vec<u8>, u: usize) -> (cycle: Vec<String>)
        requires
            self.well_formed(),
            resolves(self@, adj@),
            flags@.len() == self@.len(),
            u < self@.len(),
            flags@[u as int] == 0,
            forall|j: int| 0 <= j < self@.len() ==> !ready_at(adj@, flags@, j),
        ensures
            module_cycle(self@, string_views(cycle@)),
    {
        let ghost g = self@;
        let n = self.entries.len();
        let mut seen: Vec<u8> = Vec::new();
        let mut at: Vec<usize> = Vec::new();
        let mut q: usize = 0;
        while q < n
            invariant
                q <= n,
                seen@.len() == q,
                at@.len() == q,
                forall|v: int| 0 <= v < q ==> #[trigger] seen@[v] == 0,
            decreases n - q,
        {
            seen.push(0);
            at.push(0);
            q = q + 1;
        }
        let mut walk: Vec<usize> = Vec::new();
        walk.push(u);
        seen.set(u, 1);
        at.set(u, 0);
        proof {
            lemma_count_update(seen@, u as int, 1, 0);
            lemma_count_bound(seen@, 0);
        }
        loop
            invariant
                self.well_formed(),
                g == self@,
                n == g.len(),
                resolves(g, adj@),
                flags@.len() == n,
                forall|j: int| 0 <= j < n ==> !ready_at(adj@, flags@, j),
                stuck_walk(adj@, flags@, walk@, seen@, at@),
            decreases count_state(seen@, 0),
        {
            let cur = walk[walk.len() - 1];
            assert(walk@[walk@.len() - 1] == cur);
            let row = &adj[cur];
            assert(!ready_at(adj@, flags@, cur as int));
            let k = match unflagged_in(row, flags) {
                Some(k) => k,
                None => {
                    assert(false);
                    return Vec::new();
                },
            };
            let next = row[k];
            assert(edge_at(adj@, cur as int, next as int));
            if seen[next] != 0 {
                let p = at[next];
                let ghost c: Seq<usize> = walk@.subrange(p as int, walk@.len() as int).push(next);
                let mut cycle: Vec<String> = Vec::new();
                let mut t: usize = p;
                while t < walk.len()
                    invariant
                        g == self@,
                        n == g.len(),
                        stuck_walk(adj@, flags@, walk@, seen@, at@),
                        adj@.len() == n,
                        p <= t <= walk@.len(),
                        cycle@.len() == t - p,
                        forall|s: int| 0 <= s < t - p ==> (#[trigger] cycle@[s])@ == g[walk@[p + s] as int].0,
                    decreases walk.len() - t,
                {
                    assert(walk@[t as int] < n);
                    cycle.push(self.entries[walk[t]].0.clone());
                    t = t + 1;
                }
                cycle.push(self.entries[next].0.clone());
                proof {
                    let names = string_views(cycle@);
                    assert(c.len() == cycle@.len());
                    assert forall|s: int| 0 <= s < c.len() implies names[s] == g[#[trigger] c[s] as int].0 by {
                        if s < c.len() - 1 {
                            assert(c[s] == walk@[p + s]);
                        }
                    }
                    assert(c[0] == next);
                    assert forall|s: int| 0 <= s < names.len() - 1 implies module_edge(g, #[trigger] names[s], names[s + 1]) by {
                        let a = c[s] as int;
                        let b = c[s + 1] as int;
                        if s < c.len() - 2 {
                            assert(a == walk@[p + s] && b == walk@[p + s + 1]);
                            assert(edge_at(adj@, walk@[p + s] as int, walk@[p + s + 1] as int));
                        } else {
                            assert(a == cur && b == next);
                        }
                        assert(edge_at(adj@, a, b));
                        let kk = choose|kk: int| 0 <= kk < adj@[a]@.len() && #[trigger] adj@[a]@[kk] == b;
                        assert(g[b].0 == deps_of(g, a)[kk]);
                        assert(deps_of(g, a).contains(g[b].0));
                        assert(names[s] == g[a].0 && names[s + 1] == g[b].0);
                    }
                }
                return cycle;
            }
            proof {
                lemma_count_update(seen@, next as int, 1, 0);
            }
            let ghost before = walk@;
            walk.push(next);
            seen.set(next, 1);
            at.set(next, walk.len() - 1);
            assert forall|t: int| 0 <= t < walk@.len() - 1 implies edge_at(adj@, #[trigger] walk@[t] as int, walk@[t + 1] as int) by {
                if t < before.len() - 1 {
                    assert(walk@[t] == before[t] && walk@[t + 1] == before[t + 1]);
                }
            }
            assert forall|v: int| 0 <= v < adj@.len() && #[trigger] seen@[v] != 0 implies at@[v] < walk@.len() && walk@[at@[v] as int] == v by {
                if v != next {
                    assert(walk@[at@[v] as int] == before[at@[v] as int]);
                }
            }
        }
    }

    /// The deterministic initialization order of all registered modules: dependencies
    /// precede their dependents, and among the modules ready at a step the one whose path
    /// orders first goes first.
    ///
    /// A dependency that names no registered module is reported first (the least such
    /// path); otherwise a circular chain of dependencies is reported as one cycle.
    pub fn topological_init_order(&self) -> (result: Result<Vec<String>, RuntimeError>)
        requires
            self.well_formed(),
        ensures
            match result {
                Ok(order) => !has_missing(self@) && init_order(self@, string_views(order@)) && module_acyclic(self@),
                Err(RuntimeError::ModuleNotFound { name }) => least_missing(self@, name@),
                Err(RuntimeError::CyclicDependency { cycle }) => !has_missing(self@) && module_cycle(
                    self@,
                    string_views(cycle@),
                ),
                Err(_) => false,
            },
    {
        let ghost g = self@;
        if let Some((i, k)) = self.least_missing_position() {
            let name = self.entries[i].1.dependencies[k].clone();
            assert(deps_of(g, i as int)[k as int] == name@);
            return Err(RuntimeError::ModuleNotFound { name });
        }
        let adj = self.resolve();
        let n = self.entries.len();
        let mut paths: Vec<String> = Vec::new();
        let mut flags: Vec<u8> = Vec::new();
        let mut q: usize = 0;
        while q < n
            invariant
                g == self@,
                n == g.len(),
                q <= n,
                paths@.len() == q,
                flags@.len() == q,
                forall|v: int| 0 <= v < q ==> (#[trigger] paths@[v])@ == g[v].0,
                forall|v: int| 0 <= v < q ==> #[trigger] flags@[v] == 0,
            decreases n - q,
        {
            paths.push(self.entries[q].0.clone());
            flags.push(0);
            q = q + 1;
        }
        let mut order: Vec<String> = Vec::new();
        proof {
            assert(marks(g, flags@, string_views(order@))) by {
                assert forall|i: int| 0 <= i < g.len() implies ((#[trigger] flags@[i] != 0) == string_views(order@).contains(g[i].0)) by {
                    assert(string_views(order@).len() == 0);
                }
            }
        }
        let mut pick = pick_ready(&paths, &adj, &flags);
        while pick.is_some()
            invariant
                self.well_formed(),
                g == self@,
                n == g.len(),
                !has_missing(g),
                resolves(g, adj@),
                paths@.len() == n,
                forall|v: int| 0 <= v < n ==> (#[trigger] paths@[v])@ == g[v].0,
                marks(g, flags@, string_views(order@)),
                order_prefix(g, string_views(order@)),
                match pick {
                    Some(b) => b < n && ready_at(adj@, flags@, b as int) && forall|j: int|
                        0 <= j < n && ready_at(adj@, flags@, j) ==> !lex_lt(#[trigger] paths@[j]@, paths@[b as int]@),
                    None => forall|j: int| 0 <= j < n ==> !ready_at(adj@, flags@, j),
                },
            decreases count_state(flags@, 0),
        {
            let b = match pick {
                Some(b) => b,
                None => 0,
            };
            proof {
                assert forall|j: int| 0 <= j < g.len() && ready_at(adj@, flags@, j) implies !lex_lt(#[trigger] g[j].0, g[b as int].0) by {
                    assert(paths@[j]@ == g[j].0);
                }
                lemma_place(g, adj@, flags@, string_views(order@), b as int);
                lemma_count_update(flags@, b as int, 1, 0);
            }
            let ghost before = string_views(order@);
            flags.set(b, 1);
            order.push(self.entries[b].0.clone());
            assert(string_views(order@) =~= before.push(g[b as int].0));
            pick = pick_ready(&paths, &adj, &flags);
        }
        match first_unflagged(&flags) {
            Some(u) => {
                let cycle = self.stuck_cycle(&adj, &flags, u);
                Err(RuntimeError::CyclicDependency { cycle })
            },
            None => {
                proof {
                    let ov = string_views(order@);
                    assert forall|i: int| 0 <= i < g.len() implies ov.contains((#[trigger] g[i]).0) by {
                        assert(flags@[i] != 0);
                    }
                    lemma_order_acyclic(g, ov);
                }
                Ok(order)
            },
        }
    }

    /// The number of registered modules.
    pub fn len(&self) -> (n: usize)
        requires
            self.well_formed(),
        ensures
            n == self@.len(),
    {
        self.entries.len()
    }

    /// Whether no module is registered.
    pub fn is_empty(&self) -> (empty: bool)
        requires
            self.well_formed(),
        ensures
            empty == (self@.len() == 0),
    {
        self.entries.len() == 0
    }
}

} // verus!
