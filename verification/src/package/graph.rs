//! Depth-first cycle search over a dependency graph whose nodes are `0..n`.
//!
//! Nodes are visited in increasing order and the edges of a node in the order they are
//! listed; the first edge that reaches a node still on the search path closes the cycle
//! that is reported.
use vstd::prelude::*;

verus! {

/// Every edge ends at a node of the graph.
pub open spec fn graph_well_formed(adj: Seq<Seq<usize>>) -> bool {
    forall|u: int, k: int| 0 <= u < adj.len() && 0 <= k < adj[u].len() ==> #[trigger] adj[u][k] < adj.len()
}

/// `u` lists an edge to `v`.
pub open spec fn edge(adj: Seq<Seq<usize>>, u: int, v: int) -> bool {
    0 <= u < adj.len() && exists|k: int| 0 <= k < adj[u].len() && #[trigger] adj[u][k] == v
}

/// A closed walk: at least one edge, consecutive nodes joined by edges, ending where it
/// starts.
pub open spec fn is_cycle(adj: Seq<Seq<usize>>, c: Seq<usize>) -> bool {
    &&& c.len() >= 2
    &&& c[0] == c[c.len() - 1]
    &&& forall|i: int| 0 <= i < c.len() - 1 ==> edge(adj, #[trigger] c[i] as int, c[i + 1] as int)
}

/// No closed walk exists.
pub open spec fn acyclic(adj: Seq<Seq<usize>>) -> bool {
    forall|c: Seq<usize>| !is_cycle(adj, c)
}

/// How many entries of `s` equal `val`.
pub open spec fn count_state(s: Seq<u8>, val: u8) -> nat
    decreases s.len(),
{
    if s.len() == 0 {
        0
    } else {
        count_state(s.drop_last(), val) + if s.last() == val {
            1nat
        } else {
            0nat
        }
    }
}

pub(crate) proof fn lemma_count_update(s: Seq<u8>, i: int, x: u8, val: u8)
    requires
        0 <= i < s.len(),
    ensures
        count_state(s.update(i, x), val) + (if s[i] == val { 1int } else { 0int })
            == count_state(s, val) + (if x == val { 1int } else { 0int }),
    decreases s.len(),
{
    let t = s.update(i, x);
    if i == s.len() - 1 {
        assert(t.drop_last() =~= s.drop_last());
    } else {
        lemma_count_update(s.drop_last(), i, x, val);
        assert(t.drop_last() =~= s.drop_last().update(i, x));
    }
}

pub(crate) proof fn lemma_count_bound(s: Seq<u8>, val: u8)
    ensures
        count_state(s, val) <= s.len(),
    decreases s.len(),
{
    if s.len() > 0 {
        lemma_count_bound(s.drop_last(), val);
    }
}

proof fn lemma_count_below(s: Seq<u8>, val: u8, i: int)
    requires
        0 <= i < s.len(),
        s[i] != val,
    ensures
        count_state(s, val) < s.len(),
{
    lemma_count_update(s, i, val, val);
    lemma_count_bound(s.update(i, val), val);
}

/// The search state: node colours (0 unvisited, 1 on the search path, 2 finished), the
/// search path, and the finishing rank of each finished node. Finished nodes only reach
/// finished nodes of lower rank.
#[verifier::opaque]
pub open spec fn search_state(
    adj: Seq<Seq<usize>>,
    states: Seq<u8>,
    path: Seq<usize>,
    rank: Seq<usize>,
    clock: usize,
) -> bool {
    &&& adj.len() <= usize::MAX
    &&& states.len() == adj.len()
    &&& rank.len() == adj.len()
    &&& forall|v: int| 0 <= v < adj.len() ==> #[trigger] states[v] <= 2
    &&& forall|i: int| 0 <= i < path.len() ==> #[trigger] path[i] < adj.len()
    &&& forall|v: int| 0 <= v < adj.len() ==> (#[trigger] states[v] == 1 <==> path.contains(v as usize))
    &&& forall|i: int| 0 <= i < path.len() - 1 ==> edge(adj, #[trigger] path[i] as int, path[i + 1] as int)
    &&& forall|v: int, w: int|
        0 <= v < adj.len() && states[v] == 2 && #[trigger] edge(adj, v, w) ==> states[w] == 2 && rank[w] < rank[v]
    &&& forall|v: int| 0 <= v < adj.len() && #[trigger] states[v] == 2 ==> rank[v] < clock
    &&& clock == count_state(states, 2)
}

/// Along a walk through finished nodes, ranks strictly decrease.
proof fn lemma_rank_decreases(adj: Seq<Seq<usize>>, states: Seq<u8>, rank: Seq<usize>, c: Seq<usize>, k: int)
    requires
        graph_well_formed(adj),
        1 <= k < c.len(),
        0 <= c[0] < adj.len(),
        states.len() == adj.len(),
        rank.len() == adj.len(),
        forall|v: int| 0 <= v < adj.len() ==> #[trigger] states[v] == 2,
        forall|v: int, w: int|
            0 <= v < adj.len() && states[v] == 2 && #[trigger] edge(adj, v, w) ==> states[w] == 2 && rank[w] < rank[v],
        forall|i: int| 0 <= i < c.len() - 1 ==> edge(adj, #[trigger] c[i] as int, c[i + 1] as int),
    ensures
        0 <= c[k] < adj.len(),
        rank[c[k] as int] < rank[c[0] as int],
    decreases k,
{
    assert(edge(adj, c[k - 1] as int, c[k] as int));
    let e = choose|e: int| 0 <= e < adj[c[k - 1] as int].len() && #[trigger] adj[c[k - 1] as int][e] == c[k] as int;
    if k > 1 {
        lemma_rank_decreases(adj, states, rank, c, k - 1);
    }
    assert(states[c[k - 1] as int] == 2);
}

/// When every node is finished, the ranks show that no closed walk exists.
proof fn lemma_finished_acyclic(adj: Seq<Seq<usize>>, states: Seq<u8>, path: Seq<usize>, rank: Seq<usize>, clock: usize)
    requires
        graph_well_formed(adj),
        search_state(adj, states, path, rank, clock),
        forall|v: int| 0 <= v < adj.len() ==> #[trigger] states[v] == 2,
    ensures
        acyclic(adj),
{
    reveal(search_state);
    assert forall|c: Seq<usize>| !is_cycle(adj, c) by {
        if is_cycle(adj, c) {
            assert(edge(adj, c[0] as int, c[1] as int));
            lemma_rank_decreases(adj, states, rank, c, c.len() - 1);
        }
    }
}

/// The state before any search: nothing visited.
proof fn lemma_fresh_state(adj: Seq<Seq<usize>>, states: Seq<u8>, rank: Seq<usize>)
    requires
        adj.len() <= usize::MAX,
        states.len() == adj.len(),
        rank.len() == adj.len(),
        forall|v: int| 0 <= v < adj.len() ==> #[trigger] states[v] == 0,
        count_state(states, 2) == 0,
    ensures
        search_state(adj, states, Seq::empty(), rank, 0),
{
    reveal(search_state);
}

/// With an empty search path, no node is on it.
proof fn lemma_idle_state(adj: Seq<Seq<usize>>, states: Seq<u8>, rank: Seq<usize>, clock: usize, v: int)
    requires
        search_state(adj, states, Seq::empty(), rank, clock),
        0 <= v < adj.len(),
        states[v] != 0,
    ensures
        states[v] == 2,
{
    reveal(search_state);
}

/// Entering `u`: it joins the end of the search path.
proof fn lemma_enter(adj: Seq<Seq<usize>>, states: Seq<u8>, path: Seq<usize>, rank: Seq<usize>, clock: usize, u: int)
    requires
        graph_well_formed(adj),
        search_state(adj, states, path, rank, clock),
        0 <= u < adj.len(),
        states[u] == 0,
        path.len() > 0 ==> edge(adj, path.last() as int, u),
    ensures
        search_state(adj, states.update(u, 1), path.push(u as usize), rank, clock),
        count_state(states.update(u, 1), 0) < count_state(states, 0),
{
    reveal(search_state);
    lemma_count_update(states, u, 1, 0);
    lemma_count_update(states, u, 1, 2);
    let s = states.update(u, 1);
    let p = path.push(u as usize);
    assert forall|v: int| 0 <= v < adj.len() implies (#[trigger] s[v] == 1 <==> p.contains(v as usize)) by {
        if v == u {
            assert(p[p.len() - 1] == u as usize);
        } else {
            if path.contains(v as usize) {
                let i = choose|i: int| 0 <= i < path.len() && path[i] == v as usize;
                assert(p[i] == v as usize);
            }
            if p.contains(v as usize) {
                let i = choose|i: int| 0 <= i < p.len() && p[i] == v as usize;
                assert(p[path.len() as int] == u as usize);
                assert(i != path.len());
                assert(path[i] == v as usize);
            }
        }
    }
    assert forall|i: int| 0 <= i < p.len() - 1 implies edge(adj, #[trigger] p[i] as int, p[i + 1] as int) by {
        if i < path.len() - 1 {
            assert(p[i] == path[i] && p[i + 1] == path[i + 1]);
        } else {
            assert(p[i] == path.last());
        }
    }
    assert forall|v: int, w: int|
        0 <= v < adj.len() && s[v] == 2 && #[trigger] edge(adj, v, w) implies s[w] == 2 && rank[w] < rank[v] by {
        assert(states[v] == 2);
        assert(states[w] == 2);
    }
}

/// Leaving `u` once every node it reaches directly is finished: it becomes finished with
/// the next rank.
proof fn lemma_leave(
    adj: Seq<Seq<usize>>,
    states: Seq<u8>,
    path: Seq<usize>,
    rank: Seq<usize>,
    clock: usize,
    u: int,
)
    requires
        graph_well_formed(adj),
        search_state(adj, states, path.push(u as usize), rank, clock),
        0 <= u < adj.len(),
        forall|j: int| 0 <= j < adj[u].len() ==> states[#[trigger] adj[u][j] as int] == 2,
    ensures
        clock < adj.len(),
        adj.len() <= usize::MAX,
        search_state(adj, states.update(u, 2), path, rank.update(u, clock), (clock + 1) as usize),
        count_state(states.update(u, 2), 0) == count_state(states, 0),
{
    reveal(search_state);
    let full = path.push(u as usize);
    assert(full[full.len() - 1] == u as usize);
    assert(states[u] == 1);
    lemma_count_below(states, 2, u);
    lemma_count_update(states, u, 2, 2);
    lemma_count_update(states, u, 2, 0);
    let s = states.update(u, 2);
    let r = rank.update(u, clock);
    assert forall|v: int| 0 <= v < adj.len() implies (#[trigger] s[v] == 1 <==> path.contains(v as usize)) by {
        if v != u {
            if path.contains(v as usize) {
                let i = choose|i: int| 0 <= i < path.len() && path[i] == v as usize;
                assert(full[i] == v as usize);
            }
            if states[v] == 1 {
                let i = choose|i: int| 0 <= i < full.len() && full[i] == v as usize;
                assert(i != path.len());
                assert(path[i] == v as usize);
            }
        } else {
            if path.contains(v as usize) {
                let i = choose|i: int| 0 <= i < path.len() && path[i] == v as usize;
                assert(full[i] == v as usize);
                assert(full.contains(u as usize));
            }
        }
    }
    assert forall|i: int| 0 <= i < path.len() - 1 implies edge(adj, #[trigger] path[i] as int, path[i + 1] as int) by {
        assert(path[i] == full[i] && path[i + 1] == full[i + 1]);
    }
    assert forall|i: int| 0 <= i < path.len() implies #[trigger] path[i] < adj.len() by {
        assert(path[i] == full[i]);
    }
    assert forall|v: int, w: int|
        0 <= v < adj.len() && s[v] == 2 && #[trigger] edge(adj, v, w) implies s[w] == 2 && r[w] < r[v] by {
        if v == u {
            let e = choose|e: int| 0 <= e < adj[u].len() && #[trigger] adj[u][e] == w;
            assert(states[adj[u][e] as int] == 2);
            assert(w != u);
        } else {
            assert(states[v] == 2);
            assert(states[w] == 2);
            if w == u {
                assert(false);
            }
        }
    }
}

/// Closing the search path with an edge back to a node on it gives a cycle.
proof fn lemma_closed_path(adj: Seq<Seq<usize>>, states: Seq<u8>, path: Seq<usize>, rank: Seq<usize>, clock: usize, u: usize, v: usize, start: int)
    requires
        search_state(adj, states, path, rank, clock),
        path.len() > 0,
        path.last() == u,
        edge(adj, u as int, v as int),
        0 <= start < path.len(),
        path[start] == v,
    ensures
        is_cycle(adj, path.subrange(start, path.len() as int).push(v)),
{
    reveal(search_state);
    let c = path.subrange(start, path.len() as int).push(v);
    assert forall|j: int| 0 <= j < c.len() - 1 implies edge(adj, #[trigger] c[j] as int, c[j + 1] as int) by {
        if j < c.len() - 2 {
            assert(c[j] == path[start + j] && c[j + 1] == path[start + j + 1]);
        } else {
            assert(c[j] == path[path.len() - 1]);
        }
    }
}

/// A node not on the search path and not finished is unvisited; one on it is marked so.
proof fn lemma_state_on_path(adj: Seq<Seq<usize>>, states: Seq<u8>, path: Seq<usize>, rank: Seq<usize>, clock: usize, v: int)
    requires
        search_state(adj, states, path, rank, clock),
        0 <= v < adj.len(),
    ensures
        states[v] == 1 <==> path.contains(v as usize),
        states[v] <= 2,
        states.len() == adj.len(),
        rank.len() == adj.len(),
{
    reveal(search_state);
}

/// Between two search states, every visited node other than `u` kept its colour, and
/// finished ones their rank.
#[verifier::opaque]
pub open spec fn kept(n: int, u: int, s0: Seq<u8>, r0: Seq<usize>, s1: Seq<u8>, r1: Seq<usize>) -> bool {
    &&& forall|x: int| 0 <= x < n && s0[x] != 0 && x != u ==> #[trigger] s1[x] == s0[x]
    &&& forall|x: int| 0 <= x < n && s0[x] == 2 && x != u ==> #[trigger] r1[x] == r0[x]
}

proof fn lemma_kept_start(n: int, u: int, s0: Seq<u8>, r0: Seq<usize>)
    requires
        0 <= u < s0.len(),
        s0.len() == n,
        r0.len() == n,
    ensures
        kept(n, u, s0, r0, s0.update(u, 1), r0),
{
    reveal(kept);
}

proof fn lemma_kept_step(n: int, u: int, v: int, s0: Seq<u8>, r0: Seq<usize>, s1: Seq<u8>, r1: Seq<usize>, s2: Seq<u8>, r2: Seq<usize>)
    requires
        kept(n, u, s0, r0, s1, r1),
        s0.len() == n,
        r0.len() == n,
        s1.len() == n,
        r1.len() == n,
        s2.len() == n,
        r2.len() == n,
        0 <= u < n,
        s1[u] == 1,
        forall|x: int| 0 <= x < n && s1[x] != 0 ==> #[trigger] s2[x] == s1[x],
        forall|x: int| 0 <= x < n && s1[x] == 2 ==> #[trigger] r2[x] == r1[x],
    ensures
        kept(n, u, s0, r0, s2, r2),
{
    reveal(kept);
    assert forall|x: int| 0 <= x < n && s0[x] != 0 && x != u implies #[trigger] s2[x] == s0[x] by {
        assert(s1[x] == s0[x]);
    }
    assert forall|x: int| 0 <= x < n && s0[x] == 2 && x != u implies #[trigger] r2[x] == r0[x] by {
        assert(s1[x] == s0[x]);
        assert(r1[x] == r0[x]);
    }
}

proof fn lemma_kept_finish(n: int, u: int, s0: Seq<u8>, r0: Seq<usize>, s1: Seq<u8>, r1: Seq<usize>, c: usize)
    requires
        kept(n, u, s0, r0, s1, r1),
        s0.len() == n,
        r0.len() == n,
        s1.len() == n,
        r1.len() == n,
        0 <= u < n,
        s0[u] == 0,
    ensures
        forall|x: int| 0 <= x < n && s0[x] != 0 ==> #[trigger] s1.update(u, 2)[x] == s0[x],
        forall|x: int| 0 <= x < n && s0[x] == 2 ==> #[trigger] r1.update(u, c)[x] == r0[x],
{
    reveal(kept);
}

/// The search path, from the first occurrence of `v`, followed by `v`.
fn path_from(path: &Vec<usize>, v: usize) -> (cycle: Vec<usize>)
    requires
        path@.contains(v),
    ensures
        exists|start: int| 0 <= start < path@.len() && path@[start] == v
            && cycle@ == path@.subrange(start, path@.len() as int).push(v),
{
    let n = path.len();
    let mut start: usize = 0;
    while path[start] != v
        invariant
            n == path@.len(),
            exists|i: int| start <= i < path@.len() && path@[i] == v,
            start < n,
        decreases path@.len() - start,
    {
        proof {
            let i = choose|i: int| start <= i < path@.len() && path@[i] == v;
            assert(i != start);
        }
        start = start + 1;
    }
    let mut cycle: Vec<usize> = Vec::new();
    let mut i: usize = start;
    while i < path.len()
        invariant
            start <= i <= path@.len(),
            cycle@ == path@.subrange(start as int, i as int),
        decreases path@.len() - i,
    {
        cycle.push(path[i]);
        i = i + 1;
    }
    cycle.push(v);
    cycle
}

/// Visits `u` and everything it reaches that is not yet visited, in edge order; returns the
/// first cycle found.
fn visit(
    adj: &Vec<Vec<usize>>,
    u: usize,
    states: &mut Vec<u8>,
    path: &mut Vec<usize>,
    rank: &mut Vec<usize>,
    clock: &mut usize,
) -> (found: Option<Vec<usize>>)
    requires
        graph_well_formed(adj.deep_view()),
        search_state(adj.deep_view(), old(states)@, old(path)@, old(rank)@, *old(clock)),
        u < adj@.len(),
        old(states)@[u as int] == 0,
        old(path)@.len() > 0 ==> edge(adj.deep_view(), old(path)@.last() as int, u as int),
    ensures
        match found {
            Some(c) => is_cycle(adj.deep_view(), c@),
            None => {
                &&& search_state(adj.deep_view(), final(states)@, final(path)@, final(rank)@, *final(clock))
                &&& final(path)@ == old(path)@
                &&& final(states)@.len() == old(states)@.len()
                &&& final(rank)@.len() == old(rank)@.len()
                &&& final(states)@[u as int] == 2
                &&& forall|v: int| 0 <= v < adj@.len() && old(states)@[v] != 0 ==> #[trigger] final(states)@[v] == old(states)@[v]
                &&& forall|v: int| 0 <= v < adj@.len() && old(states)@[v] == 2 ==> #[trigger] final(rank)@[v] == old(rank)@[v]
                &&& count_state(final(states)@, 0) < count_state(old(states)@, 0)
            },
        },
    decreases count_state(old(states)@, 0),
{
    let ghost g = adj.deep_view();
    let ghost entry_states = states@;
    let ghost entry_rank = rank@;
    let ghost entry_path = path@;
    assert(g.len() == adj@.len());
    proof {
        lemma_state_on_path(g, states@, path@, rank@, *clock, u as int);
    }
    proof {
        lemma_enter(g, states@, path@, rank@, *clock, u as int);
        lemma_state_on_path(g, states@, path@, rank@, *clock, u as int);
        lemma_kept_start(g.len() as int, u as int, states@, rank@);
    }
    states.set(u, 1);
    path.push(u);
    let mut k: usize = 0;
    while k < adj[u].len()
        invariant
            g == adj.deep_view(),
            g.len() == adj@.len(),
            entry_states == old(states)@,
            graph_well_formed(g),
            u < g.len(),
            k <= g[u as int].len(),
            entry_states.len() == g.len(),
            entry_rank.len() == g.len(),
            rank@.len() == g.len(),
            search_state(g, states@, path@, rank@, *clock),
            states@.len() == g.len(),
            states@[u as int] == 1,
            path@ == entry_path.push(u),
            forall|j: int| 0 <= j < k ==> states@[#[trigger] g[u as int][j] as int] == 2,
            kept(g.len() as int, u as int, entry_states, entry_rank, states@, rank@),
            count_state(states@, 0) < count_state(entry_states, 0),
        decreases g[u as int].len() - k,
    {
        let next = adj[u][k];
        assert(next == g[u as int][k as int]);
        assert(edge(g, u as int, next as int));
        assert(next < g.len());
        proof {
            lemma_state_on_path(g, states@, path@, rank@, *clock, next as int);
        }
        if states[next] == 1 {
            let cycle = path_from(path, next);
            proof {
                let start = choose|start: int| 0 <= start < path@.len() && path@[start] == next
                    && cycle@ == path@.subrange(start, path@.len() as int).push(next);
                assert(path@.last() == u);
                lemma_closed_path(g, states@, path@, rank@, *clock, u, next, start);
                assert(is_cycle(g, cycle@));
            }
            return Some(cycle);
        } else if states[next] == 0 {
            let ghost before_states = states@;
            let ghost before_rank = rank@;
            assert(path@.last() == u);
            assert(count_state(states@, 0) < count_state(entry_states, 0));
            match visit(adj, next, states, path, rank, clock) {
                Some(cycle) => return Some(cycle),
                None => {},
            }
            proof {
                lemma_kept_step(g.len() as int, u as int, next as int, entry_states, entry_rank, before_states, before_rank, states@, rank@);
            }
            assert forall|j: int| 0 <= j < k + 1 implies states@[#[trigger] g[u as int][j] as int] == 2 by {
                if j < k {
                    assert(before_states[g[u as int][j] as int] == 2);
                }
            }
            assert(before_states[u as int] == 1);
        } else {
            assert(states@[next as int] == 2);
        }
        assert(count_state(states@, 0) < count_state(entry_states, 0));
        assert(search_state(g, states@, path@, rank@, *clock));
        assert(states@[u as int] == 1);
        assert(path@ == entry_path.push(u));
        assert(rank@.len() == g.len());
        assert(states@.len() == g.len());
        k = k + 1;
    }
    let ghost done_states = states@;
    let ghost done_rank = rank@;
    proof {
        lemma_leave(g, states@, entry_path, rank@, *clock, u as int);
        lemma_kept_finish(g.len() as int, u as int, entry_states, entry_rank, states@, rank@, *clock);
    }
    path.pop();
    assert(path@ =~= entry_path);
    states.set(u, 2);
    rank.set(u, *clock);
    *clock = *clock + 1;
    None
}

/// The first cycle a depth-first search meets, or `None` when the graph has none.
pub fn find_cycle(adj: &Vec<Vec<usize>>) -> (found: Option<Vec<usize>>)
    requires
        graph_well_formed(adj.deep_view()),
    ensures
        match found {
            Some(c) => is_cycle(adj.deep_view(), c@),
            None => acyclic(adj.deep_view()),
        },
{
    let ghost g = adj.deep_view();
    let n = adj.len();
    let mut states: Vec<u8> = Vec::new();
    let mut rank: Vec<usize> = Vec::new();
    let mut i: usize = 0;
    while i < n
        invariant
            n == g.len(),
            i <= n,
            states@.len() == i,
            rank@.len() == i,
            forall|v: int| 0 <= v < i ==> #[trigger] states@[v] == 0,
            count_state(states@, 2) == 0,
        decreases n - i,
    {
        proof {
            assert(states@.push(0).drop_last() =~= states@);
        }
        states.push(0);
        rank.push(0);
        i = i + 1;
    }
    let mut path: Vec<usize> = Vec::new();
    let mut clock: usize = 0;
    proof {
        lemma_fresh_state(g, states@, rank@);
        assert(path@ =~= Seq::<usize>::empty());
    }
    let mut u: usize = 0;
    while u < n
        invariant
            g == adj.deep_view(),
            graph_well_formed(g),
            n == g.len(),
            u <= n,
            path@ == Seq::<usize>::empty(),
            states@.len() == n,
            search_state(g, states@, path@, rank@, clock),
            forall|v: int| 0 <= v < u ==> #[trigger] states@[v] == 2,
        decreases n - u,
    {
        if states[u] == 0 {
            let ghost before = states@;
            match visit(adj, u, &mut states, &mut path, &mut rank, &mut clock) {
                Some(cycle) => return Some(cycle),
                None => {},
            }
            assert forall|v: int| 0 <= v < u + 1 implies #[trigger] states@[v] == 2 by {
                if v < u {
                    assert(before[v] == 2);
                }
            }
        } else {
            proof {
                lemma_idle_state(g, states@, rank@, clock, u as int);
            }
        }
        u = u + 1;
    }
    proof {
        lemma_finished_acyclic(g, states@, path@, rank@, clock);
    }
    None
}

} // verus!
