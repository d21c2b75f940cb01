//! Depth-first walk of a package store from its root, in the order dependencies are
//! declared, listing packages as they are finished (dependencies first).
//!
//! Nodes are `0..n`; `targets[u][k]` is the node the `k`-th dependency of `u` names, or `n`
//! when it names no package of the store. `conflict[u][k]` marks a dependency whose
//! required version the named package does not have.
use vstd::prelude::*;

use crate::package::graph::{count_state, lemma_count_bound, lemma_count_update};

verus! {

/// `targets` and `conflict` have a row per node, of equal lengths, and every target is a
/// node or the missing marker `n`.
pub open spec fn walk_graph(targets: Seq<Seq<usize>>, conflict: Seq<Seq<bool>>) -> bool {
    &&& targets.len() == conflict.len()
    &&& targets.len() <= usize::MAX
    &&& forall|u: int| 0 <= u < targets.len() ==> (#[trigger] targets[u]).len() == conflict[u].len()
    &&& forall|u: int, k: int| 0 <= u < targets.len() && 0 <= k < targets[u].len() ==> #[trigger] targets[u][k] <= targets.len()
}

/// `u` lists a dependency on node `v`.
pub open spec fn walk_edge(targets: Seq<Seq<usize>>, u: int, v: int) -> bool {
    0 <= u < targets.len() && exists|k: int| 0 <= k < targets[u].len() && #[trigger] targets[u][k] == v
}

/// A walk from `root` along dependencies.
pub open spec fn is_walk(targets: Seq<Seq<usize>>, root: int, p: Seq<usize>) -> bool {
    &&& p.len() >= 1
    &&& p[0] == root
    &&& forall|i: int| 0 <= i < p.len() - 1 ==> walk_edge(targets, #[trigger] p[i] as int, p[i + 1] as int)
}

/// Some walk from `root` ends at `v`.
pub open spec fn reaches(targets: Seq<Seq<usize>>, root: int, v: int) -> bool {
    exists|p: Seq<usize>| #[trigger] is_walk(targets, root, p) && p[p.len() - 1] == v
}

/// A closed chain of dependencies between nodes.
pub open spec fn is_loop(targets: Seq<Seq<usize>>, c: Seq<usize>) -> bool {
    &&& c.len() >= 2
    &&& c[0] == c[c.len() - 1]
    &&& forall|i: int| 0 <= i < c.len() - 1 ==> walk_edge(targets, #[trigger] c[i] as int, c[i + 1] as int)
}

/// `v` occurs in `post` before position `a`.
pub open spec fn earlier(post: Seq<usize>, a: int, v: usize) -> bool {
    exists|b: int| 0 <= b < a && #[trigger] post[b] == v
}

/// The node at position `a` of `post` has only present, agreeing dependencies, each
/// listed before it.
pub open spec fn finished_well(targets: Seq<Seq<usize>>, conflict: Seq<Seq<bool>>, post: Seq<usize>, a: int) -> bool {
    let u = post[a] as int;
    &&& u < targets.len()
    &&& forall|k: int| 0 <= k < targets[u].len() ==> #[trigger] targets[u][k] < targets.len() && !conflict[u][k]
        && earlier(post, a, targets[u][k])
}

/// The walk's bookkeeping: node states (0 unvisited, 1 on the stack, 2 finished), the
/// stack of nodes being visited (a walk from the root), and the finished nodes in the
/// order they finished.
#[verifier::opaque]
pub open spec fn walk_state(
    targets: Seq<Seq<usize>>,
    conflict: Seq<Seq<bool>>,
    root: int,
    states: Seq<u8>,
    stack: Seq<usize>,
    post: Seq<usize>,
) -> bool {
    &&& states.len() == targets.len()
    &&& forall|v: int| 0 <= v < states.len() ==> #[trigger] states[v] <= 2
    &&& forall|i: int| 0 <= i < stack.len() ==> #[trigger] stack[i] < targets.len()
    &&& forall|v: int| 0 <= v < states.len() ==> ((#[trigger] states[v] == 1) == stack.contains(v as usize))
    &&& stack.len() > 0 ==> is_walk(targets, root, stack)
    &&& forall|a: int, b: int| 0 <= a < b < post.len() ==> #[trigger] post[a] != #[trigger] post[b]
    &&& forall|v: int| 0 <= v < states.len() ==> ((#[trigger] states[v] == 2) == post.contains(v as usize))
    &&& forall|a: int| 0 <= a < post.len() ==> #[trigger] finished_well(targets, conflict, post, a)
    &&& forall|v: int| 0 <= v < states.len() && #[trigger] states[v] != 0 ==> reaches(targets, root, v)
}

/// How a walk ended.
pub enum WalkOutcome {
    /// Every reachable node, each after its dependencies.
    Finished(Vec<usize>),
    /// Node `.0` names, as its dependency `.1`, no package of the store.
    Missing(usize, usize),
    /// Node `.0` requires, as its dependency `.1`, a version the package does not have.
    Conflict(usize, usize),
    /// A closed chain of dependencies.
    Loop(Vec<usize>),
}

/// What a walk from `root` reports, whatever it found.
pub open spec fn walk_outcome_holds(targets: Seq<Seq<usize>>, conflict: Seq<Seq<bool>>, root: int, outcome: WalkOutcome) -> bool {
    match outcome {
        WalkOutcome::Finished(post) => {
            &&& forall|a: int, b: int| 0 <= a < b < post@.len() ==> #[trigger] post@[a] != #[trigger] post@[b]
            &&& forall|a: int| 0 <= a < post@.len() ==> #[trigger] finished_well(targets, conflict, post@, a)
            &&& forall|v: int| 0 <= v < targets.len() ==> (reaches(targets, root, v) == post@.contains(v as usize))
        },
        WalkOutcome::Missing(u, k) => {
            &&& u < targets.len()
            &&& reaches(targets, root, u as int)
            &&& k < targets[u as int].len()
            &&& targets[u as int][k as int] == targets.len()
        },
        WalkOutcome::Conflict(u, k) => {
            &&& u < targets.len()
            &&& reaches(targets, root, u as int)
            &&& k < targets[u as int].len()
            &&& targets[u as int][k as int] < targets.len()
            &&& conflict[u as int][k as int]
        },
        WalkOutcome::Loop(c) => is_loop(targets, c@) && reaches(targets, root, c@[0] as int),
    }
}

/// A walk's prefix is a walk.
proof fn lemma_walk_prefix(targets: Seq<Seq<usize>>, root: int, p: Seq<usize>, i: int)
    requires
        is_walk(targets, root, p),
        0 <= i < p.len(),
    ensures
        is_walk(targets, root, p.take(i + 1)),
        reaches(targets, root, p[i] as int),
{
    let q = p.take(i + 1);
    assert forall|j: int| 0 <= j < q.len() - 1 implies walk_edge(targets, #[trigger] q[j] as int, q[j + 1] as int) by {
        assert(q[j] == p[j] && q[j + 1] == p[j + 1]);
    }
    assert(q[q.len() - 1] == p[i]);
}

proof fn lemma_walk_start(targets: Seq<Seq<usize>>, conflict: Seq<Seq<bool>>, root: int, states: Seq<u8>)
    requires
        0 <= root < targets.len(),
        states.len() == targets.len(),
        forall|v: int| 0 <= v < states.len() ==> #[trigger] states[v] == 0,
    ensures
        walk_state(targets, conflict, root, states, Seq::empty(), Seq::empty()),
{
    reveal(walk_state);
}

/// Entering `u` from the top of the stack (or at the root) keeps the bookkeeping.
proof fn lemma_walk_enter(
    targets: Seq<Seq<usize>>,
    conflict: Seq<Seq<bool>>,
    root: int,
    states: Seq<u8>,
    stack: Seq<usize>,
    post: Seq<usize>,
    u: usize,
)
    requires
        walk_state(targets, conflict, root, states, stack, post),
        targets.len() <= usize::MAX,
        u < targets.len(),
        states[u as int] == 0,
        stack.len() == 0 ==> u == root,
        stack.len() > 0 ==> walk_edge(targets, stack[stack.len() - 1] as int, u as int),
    ensures
        walk_state(targets, conflict, root, states.update(u as int, 1), stack.push(u), post),
        reaches(targets, root, u as int),
{
    reveal(walk_state);
    let s2 = states.update(u as int, 1);
    let k2 = stack.push(u);
    assert(is_walk(targets, root, k2)) by {
        assert forall|i: int| 0 <= i < k2.len() - 1 implies walk_edge(targets, #[trigger] k2[i] as int, k2[i + 1] as int) by {
            if i < stack.len() - 1 {
                assert(k2[i] == stack[i] && k2[i + 1] == stack[i + 1]);
            } else {
                assert(k2[i] == stack[stack.len() - 1]);
            }
        }
    }
    lemma_walk_prefix(targets, root, k2, k2.len() - 1);
    assert forall|v: int| 0 <= v < s2.len() implies ((#[trigger] s2[v] == 1) == k2.contains(v as usize)) by {
        if k2.contains(v as usize) && v != u {
            let i = choose|i: int| 0 <= i < k2.len() && k2[i] == v as usize;
            assert(k2[stack.len() as int] == u);
            assert(i < stack.len());
            assert(stack[i] == k2[i]);
        }
        if stack.contains(v as usize) {
            let i = choose|i: int| 0 <= i < stack.len() && stack[i] == v as usize;
            assert(k2[i] == v);
        }
        if v == u {
            assert(k2[k2.len() - 1] == u);
        }
    }
    assert(!post.contains(u));
    assert forall|v: int| 0 <= v < s2.len() && #[trigger] s2[v] != 0 implies reaches(targets, root, v) by {
        if v != u {
            assert(states[v] != 0);
        }
    }
    assert forall|i: int| 0 <= i < k2.len() implies #[trigger] k2[i] < targets.len() by {
        if i < stack.len() {
            assert(k2[i] == stack[i]);
        }
    }
}

/// Leaving `u`, all of whose dependencies are finished, finishes it.
proof fn lemma_walk_leave(
    targets: Seq<Seq<usize>>,
    conflict: Seq<Seq<bool>>,
    root: int,
    states: Seq<u8>,
    stack: Seq<usize>,
    post: Seq<usize>,
    u: usize,
)
    requires
        walk_state(targets, conflict, root, states, stack.push(u), post),
        targets.len() <= usize::MAX,
        u < targets.len(),
        states[u as int] == 1,
        !stack.contains(u),
        forall|k: int| 0 <= k < targets[u as int].len() ==> #[trigger] targets[u as int][k] < targets.len()
            && !conflict[u as int][k] && states[targets[u as int][k] as int] == 2,
    ensures
        walk_state(targets, conflict, root, states.update(u as int, 2), stack, post.push(u)),
{
    reveal(walk_state);
    let s2 = states.update(u as int, 2);
    let p2 = post.push(u);
    let k1 = stack.push(u);
    assert(!post.contains(u));
    assert forall|i: int| 0 <= i < stack.len() implies #[trigger] stack[i] < targets.len() by {
        assert(k1[i] == stack[i]);
    }
    assert forall|v: int| 0 <= v < s2.len() implies ((#[trigger] s2[v] == 1) == stack.contains(v as usize)) by {
        if stack.contains(v as usize) {
            let i = choose|i: int| 0 <= i < stack.len() && stack[i] == v as usize;
            assert(k1[i] == stack[i]);
        }
        if v != u && states[v] == 1 {
            assert(k1.contains(v as usize));
            let i = choose|i: int| 0 <= i < k1.len() && k1[i] == v as usize;
            assert(i < stack.len());
            assert(stack[i] == v);
        }
    }
    if stack.len() > 0 {
        assert(is_walk(targets, root, stack)) by {
            assert(stack =~= k1.take(stack.len() as int));
            lemma_walk_prefix(targets, root, k1, stack.len() - 1);
        }
    }
    assert forall|a: int, b: int| 0 <= a < b < p2.len() implies #[trigger] p2[a] != #[trigger] p2[b] by {
        if b == post.len() {
            assert(post.contains(p2[a]));
        }
    }
    assert forall|v: int| 0 <= v < s2.len() implies ((#[trigger] s2[v] == 2) == p2.contains(v as usize)) by {
        if p2.contains(v as usize) && v != u {
            let i = choose|i: int| 0 <= i < p2.len() && p2[i] == v as usize;
            assert(p2[post.len() as int] == u);
            assert(i < post.len());
            assert(post[i] == p2[i]);
        }
        if post.contains(v as usize) {
            let i = choose|i: int| 0 <= i < post.len() && post[i] == v as usize;
            assert(p2[i] == v);
        }
        if v == u {
            assert(p2[post.len() as int] == u);
        }
    }
    assert forall|a: int| 0 <= a < p2.len() implies #[trigger] finished_well(targets, conflict, p2, a) by {
        if a < post.len() {
            assert(finished_well(targets, conflict, post, a));
            assert(p2[a] == post[a]);
            let w = post[a] as int;
            assert forall|k: int| 0 <= k < targets[w].len() implies #[trigger] targets[w][k] < targets.len()
                && !conflict[w][k] && earlier(p2, a, targets[w][k]) by {
                let b = choose|b: int| 0 <= b < a && #[trigger] post[b] == targets[w][k];
                assert(p2[b] == post[b]);
            }
        } else {
            assert(p2[a] == u);
            assert forall|k: int| 0 <= k < targets[u as int].len() implies #[trigger] targets[u as int][k] < targets.len()
                && !conflict[u as int][k] && earlier(p2, a, targets[u as int][k]) by {
                let t = targets[u as int][k];
                assert(states[t as int] == 2);
                assert(post.contains(t));
                let b = choose|b: int| 0 <= b < post.len() && post[b] == t;
                assert(p2[b] == t);
            }
        }
    }
    assert forall|v: int| 0 <= v < s2.len() && #[trigger] s2[v] != 0 implies reaches(targets, root, v) by {
        assert(states[v] != 0);
    }
}

/// The first position of `v` on the stack, and the chain from there back to `v`.
fn loop_from(stack: &Vec<usize>, v: usize) -> (c: Vec<usize>)
    requires
        stack@.contains(v),
    ensures
        exists|start: int| 0 <= start < stack@.len() && stack@[start] == v
            && c@ == stack@.subrange(start, stack@.len() as int).push(v),
{
    let n = stack.len();
    let mut start: usize = 0;
    while stack[start] != v
        invariant
            n == stack@.len(),
            exists|i: int| start <= i < stack@.len() && stack@[i] == v,
            start < n,
        decreases stack@.len() - start,
    {
        proof {
            let i = choose|i: int| start <= i < stack@.len() && stack@[i] == v;
            assert(i != start);
        }
        start = start + 1;
    }
    let mut c: Vec<usize> = Vec::new();
    let mut i: usize = start;
    while i < stack.len()
        invariant
            start <= i <= stack@.len(),
            c@ == stack@.subrange(start as int, i as int),
        decreases stack@.len() - i,
    {
        c.push(stack[i]);
        i = i + 1;
    }
    c.push(v);
    c
}

/// A chain along the stack back to a node on it closes a loop reachable from the root.
proof fn lemma_stack_loop(targets: Seq<Seq<usize>>, root: int, stack: Seq<usize>, v: usize, start: int, c: Seq<usize>)
    requires
        is_walk(targets, root, stack),
        0 <= start < stack.len(),
        stack[start] == v,
        walk_edge(targets, stack[stack.len() - 1] as int, v as int),
        c == stack.subrange(start, stack.len() as int).push(v),
    ensures
        is_loop(targets, c),
        reaches(targets, root, c[0] as int),
{
    assert forall|i: int| 0 <= i < c.len() - 1 implies walk_edge(targets, #[trigger] c[i] as int, c[i + 1] as int) by {
        if i < c.len() - 2 {
            assert(c[i] == stack[start + i] && c[i + 1] == stack[start + i + 1]);
        } else {
            assert(c[i] == stack[stack.len() - 1]);
        }
    }
    lemma_walk_prefix(targets, root, stack, start);
}

/// Visits `u` and every unvisited node it reaches, dependencies in declared order.
fn visit(
    targets: &Vec<Vec<usize>>,
    conflict: &Vec<Vec<bool>>,
    root: usize,
    u: usize,
    states: &mut Vec<u8>,
    stack: &mut Vec<usize>,
    post: &mut Vec<usize>,
) -> (outcome: Option<WalkOutcome>)
    requires
        walk_graph(targets.deep_view(), conflict.deep_view()),
        walk_state(targets.deep_view(), conflict.deep_view(), root as int, old(states)@, old(stack)@, old(post)@),
        u < targets@.len(),
        old(states)@[u as int] == 0,
        old(stack)@.len() == 0 ==> u == root,
        old(stack)@.len() > 0 ==> walk_edge(targets.deep_view(), old(stack)@[old(stack)@.len() - 1] as int, u as int),
    ensures
        match outcome {
            Some(found) => walk_outcome_holds(targets.deep_view(), conflict.deep_view(), root as int, found)
                && !(found is Finished),
            None => {
                &&& walk_state(targets.deep_view(), conflict.deep_view(), root as int, final(states)@, final(stack)@, final(post)@)
                &&& final(stack)@ == old(stack)@
                &&& final(states)@[u as int] == 2
                &&& forall|v: int| 0 <= v < targets@.len() && old(states)@[v] != 0 ==> #[trigger] final(states)@[v] == old(states)@[v]
                &&& count_state(final(states)@, 0) < count_state(old(states)@, 0)
            },
        },
    decreases count_state(old(states)@, 0),
{
    let ghost t = targets.deep_view();
    let ghost f = conflict.deep_view();
    let ghost entry_states = states@;
    let ghost entry_stack = stack@;
    proof {
        reveal(walk_state);
        lemma_walk_enter(t, f, root as int, states@, stack@, post@, u);
        lemma_count_update(states@, u as int, 1, 0);
        assert(!stack@.contains(u));
    }
    states.set(u, 1);
    stack.push(u);
    let n = targets.len();
    let mut k: usize = 0;
    while k < targets[u].len()
        invariant
            t == targets.deep_view(),
            f == conflict.deep_view(),
            walk_graph(t, f),
            n == t.len(),
            u < n,
            k <= t[u as int].len(),
            entry_states == old(states)@,
            entry_states.len() == n,
            walk_state(t, f, root as int, states@, stack@, post@),
            states@[u as int] == 1,
            stack@ == entry_stack.push(u),
            !entry_stack.contains(u),
            forall|j: int| 0 <= j < k ==> #[trigger] t[u as int][j] < n && !f[u as int][j]
                && states@[t[u as int][j] as int] == 2,
            forall|v: int| 0 <= v < n && entry_states[v] != 0 ==> #[trigger] states@[v] == entry_states[v],
            count_state(states@, 0) < count_state(entry_states, 0),
        decreases t[u as int].len() - k,
    {
        let next = targets[u][k];
        assert(next == t[u as int][k as int]);
        assert(walk_edge(t, u as int, next as int));
        proof {
            reveal(walk_state);
            lemma_walk_prefix(t, root as int, stack@, stack@.len() - 1);
        }
        if next == n {
            return Some(WalkOutcome::Missing(u, k));
        }
        if conflict[u][k] {
            assert(conflict@[u as int]@[k as int] == f[u as int][k as int]);
            return Some(WalkOutcome::Conflict(u, k));
        }
        assert(!f[u as int][k as int]);
        if states[next] == 1 {
            proof {
                reveal(walk_state);
            }
            let c = loop_from(stack, next);
            proof {
                let start = choose|start: int| 0 <= start < stack@.len() && stack@[start] == next
                    && c@ == stack@.subrange(start, stack@.len() as int).push(next);
                assert(stack@[stack@.len() - 1] == u);
                lemma_stack_loop(t, root as int, stack@, next, start, c@);
            }
            return Some(WalkOutcome::Loop(c));
        } else if states[next] == 0 {
            let ghost before_states = states@;
            assert(stack@[stack@.len() - 1] == u);
            match visit(targets, conflict, root, next, states, stack, post) {
                Some(found) => return Some(found),
                None => {},
            }
            assert forall|j: int| 0 <= j < k + 1 implies #[trigger] t[u as int][j] < n && !f[u as int][j]
                && states@[t[u as int][j] as int] == 2 by {
                if j < k {
                    assert(before_states[t[u as int][j] as int] == 2);
                }
            }
            assert forall|v: int| 0 <= v < n && entry_states[v] != 0 implies #[trigger] states@[v] == entry_states[v] by {
                assert(before_states[v] == entry_states[v]);
            }
            assert(before_states[u as int] == 1);
        } else {
            proof {
                reveal(walk_state);
            }
            assert(states@[next as int] == 2);
        }
        k = k + 1;
    }
    proof {
        lemma_walk_leave(t, f, root as int, states@, entry_stack, post@, u);
        lemma_count_update(states@, u as int, 2, 0);
    }
    stack.pop();
    assert(stack@ =~= entry_stack);
    states.set(u, 2);
    post.push(u);
    None
}

/// Every node reachable from a finished root is finished.
proof fn lemma_finished_closed(targets: Seq<Seq<usize>>, conflict: Seq<Seq<bool>>, root: int, states: Seq<u8>, post: Seq<usize>, p: Seq<usize>, i: int)
    requires
        walk_state(targets, conflict, root, states, Seq::empty(), post),
        0 <= root < targets.len(),
        states[root] == 2,
        is_walk(targets, root, p),
        0 <= i < p.len(),
    ensures
        post.contains(p[i]),
    decreases i,
{
    reveal(walk_state);
    if i == 0 {
        assert(p[0] == root);
    } else {
        lemma_finished_closed(targets, conflict, root, states, post, p, i - 1);
        let a = choose|a: int| 0 <= a < post.len() && post[a] == p[i - 1];
        assert(finished_well(targets, conflict, post, a));
        assert(walk_edge(targets, p[i - 1] as int, p[i] as int));
        let k = choose|k: int| 0 <= k < targets[p[i - 1] as int].len() && #[trigger] targets[p[i - 1] as int][k] == p[i];
        assert(earlier(post, a, targets[p[i - 1] as int][k]));
        let b = choose|b: int| 0 <= b < a && #[trigger] post[b] == targets[p[i - 1] as int][k];
        assert(post[b] == p[i]);
    }
}

/// Walks the store from `root`: the finished order of every reachable node, or the first
/// missing dependency, version conflict or loop met on the way.
pub fn walk_from(targets: &Vec<Vec<usize>>, conflict: &Vec<Vec<bool>>, root: usize) -> (outcome: WalkOutcome)
    requires
        walk_graph(targets.deep_view(), conflict.deep_view()),
        root < targets@.len(),
    ensures
        walk_outcome_holds(targets.deep_view(), conflict.deep_view(), root as int, outcome),
{
    let ghost t = targets.deep_view();
    let ghost f = conflict.deep_view();
    let n = targets.len();
    let mut states: Vec<u8> = Vec::new();
    let mut i: usize = 0;
    while i < n
        invariant
            n == t.len(),
            i <= n,
            states@.len() == i,
            forall|v: int| 0 <= v < i ==> #[trigger] states@[v] == 0,
        decreases n - i,
    {
        states.push(0);
        i = i + 1;
    }
    let mut stack: Vec<usize> = Vec::new();
    let mut post: Vec<usize> = Vec::new();
    proof {
        lemma_walk_start(t, f, root as int, states@);
        assert(stack@ =~= Seq::<usize>::empty());
        assert(post@ =~= Seq::<usize>::empty());
    }
    match visit(targets, conflict, root, root, &mut states, &mut stack, &mut post) {
        Some(found) => found,
        None => {
            proof {
                reveal(walk_state);
                assert forall|v: int| 0 <= v < t.len() implies (reaches(t, root as int, v) == post@.contains(v as usize)) by {
                    if reaches(t, root as int, v) {
                        let p = choose|p: Seq<usize>| #[trigger] is_walk(t, root as int, p) && p[p.len() - 1] == v;
                        lemma_finished_closed(t, f, root as int, states@, post@, p, p.len() - 1);
                    }
                    if post@.contains(v as usize) {
                        assert(states@[v] == 2);
                    }
                }
            }
            WalkOutcome::Finished(post)
        },
    }
}

} // verus!
