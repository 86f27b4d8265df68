//! The dependency graph walk behind code generation: every node's code is emitted
//! after the code of everything it depends on.
use vstd::prelude::*;
use vstd::set_lib::*;

verus! {

/// One step of the generated code: `(node, false)` is the preparation a node
/// does before its dependencies, `(node, true)` its main code.
pub type Step = (usize, bool);

/// The nodes one edge away from `s`.
pub open spec fn step_reach(deps: Seq<Seq<usize>>, s: Set<int>) -> Set<int> {
    s.union(
        Set::new(
            |d: int|
                exists|x: int, i: int|
                    #![trigger s.contains(x), deps[x][i]]
                    s.contains(x) && 0 <= x < deps.len() && 0 <= i < deps[x].len() && deps[x][i] == d,
        ),
    )
}

/// The nodes at most `k` edges away from `s`.
pub open spec fn reach_within(deps: Seq<Seq<usize>>, s: Set<int>, k: nat) -> Set<int>
    decreases k,
{
    if k == 0 {
        s
    } else {
        step_reach(deps, reach_within(deps, s, (k - 1) as nat))
    }
}

/// `b` can be reached from the nodes of `s` by following dependencies.
pub open spec fn reachable(deps: Seq<Seq<usize>>, s: Set<int>, b: int) -> bool {
    exists|k: nat| #[trigger] reach_within(deps, s, k).contains(b)
}

/// `b` can be reached from `a` by following dependencies (in zero or more steps).
pub open spec fn reaches(deps: Seq<Seq<usize>>, a: int, b: int) -> bool {
    reachable(deps, set![a], b)
}

/// The nodes of a list.
pub open spec fn node_set(nodes: Seq<usize>) -> Set<int> {
    Set::new(|x: int| exists|i: int| 0 <= i < nodes.len() && nodes[i] == x)
}

/// Every dependency refers to a node of the graph.
pub open spec fn graph_wf(deps: Seq<Seq<usize>>) -> bool {
    forall|x: int, i: int|
        #![trigger deps[x][i]]
        0 <= x < deps.len() && 0 <= i < deps[x].len() ==> deps[x][i] < deps.len()
}

/// No dependency leads back to the node that depends on it.
pub open spec fn acyclic(deps: Seq<Seq<usize>>) -> bool {
    forall|x: int, t: int|
        0 <= x < deps.len() && 0 <= t < deps[x].len() ==> !reaches(deps, #[trigger] deps[x][t] as int, x)
}

/// `(n, post)` is step `i` of `out`.
pub open spec fn has_step(out: Seq<Step>, n: int, post: bool) -> bool {
    exists|i: int| 0 <= i < out.len() && out[i] == (n as usize, post)
}

/// `(n, post)` is among the first `end` steps of `out`.
pub open spec fn has_step_before(out: Seq<Step>, n: int, post: bool, end: int) -> bool {
    exists|i: int| 0 <= i < end && #[trigger] out[i] == (n as usize, post)
}

/// `out` lists the steps of a walk of `g` from `roots`: each reachable node's
/// main step once, after the main steps of its dependencies unless a dependency
/// reaches back to it (strictly after them when the graph has no cycle), and
/// the preparation step of each reachable node that `pre` asks one for, once,
/// before its main step.
pub open spec fn is_traversal(g: Seq<Seq<usize>>, roots: Seq<usize>, pre: Seq<bool>, out: Seq<Step>) -> bool {
    let rs = node_set(roots);
    // Main steps: exactly the reachable nodes, each once
    &&& forall|x: int| 0 <= x < g.len() ==> (has_step(out, x, true) <==> reachable(g, rs, x))
    &&& forall|i: int| 0 <= i < out.len() ==> (#[trigger] out[i]).0 < g.len()
    &&& forall|i: int, j: int|
        0 <= i < j < out.len() && out[i].1 && out[j].1 ==> #[trigger] out[i].0 != #[trigger] out[j].0
    // ... each after the main steps of its dependencies, unless the dependency
    // reaches back to it
    &&& forall|i: int, t: int|
        0 <= i < out.len() && out[i].1 && 0 <= t < g[out[i].0 as int].len() ==> {
            let d = #[trigger] g[out[i].0 as int][t];
            has_step_before(out, d as int, true, i) || reaches(g, d as int, out[i].0 as int)
        }
    // ... and when no dependency reaches back, strictly after them
    &&& acyclic(g) ==> forall|i: int, t: int|
        0 <= i < out.len() && out[i].1 && 0 <= t < g[out[i].0 as int].len() ==> has_step_before(
            out,
            #[trigger] g[out[i].0 as int][t] as int,
            true,
            i,
        )
    // Preparation steps: exactly for the reachable nodes that ask for one, each
    // once and before the node's main step
    &&& forall|x: int| 0 <= x < g.len() ==> (has_step(out, x, false) <==> (reachable(g, rs, x) && pre[x]))
    &&& forall|i: int, j: int|
        0 <= i < j < out.len() && !out[i].1 && !out[j].1 ==> #[trigger] out[i].0 != #[trigger] out[j].0
    &&& forall|i: int, j: int|
        0 <= j < i < out.len() && !out[i].1 && out[j].1 ==> #[trigger] out[i].0 != #[trigger] out[j].0
}

/// The graph `g` with the dependencies of `x` taken away.
pub open spec fn without_deps(g: Seq<Seq<usize>>, x: int) -> Seq<Seq<usize>> {
    g.update(x, Seq::empty())
}

/// Preparation steps come before the nodes reached only through their node:
/// every node whose main step comes before the preparation step of `x` can be
/// reached from the roots without going through the dependencies of `x`.
pub open spec fn prepared_first(g: Seq<Seq<usize>>, roots: Seq<usize>, out: Seq<Step>) -> bool {
    forall|p: int, q: int|
        0 <= q < p < out.len() && !out[p].1 && out[q].1 ==> reachable(
            without_deps(g, (#[trigger] out[p]).0 as int),
            node_set(roots),
            (#[trigger] out[q]).0 as int,
        )
}

/// A dependency `d` of `x` that can't be reached from the roots without going
/// through `x`'s dependencies has its main step after `x`'s preparation step.
pub proof fn lemma_prepared_before_reached(
    g: Seq<Seq<usize>>,
    roots: Seq<usize>,
    out: Seq<Step>,
    p: int,
    q: int,
)
    requires
        prepared_first(g, roots, out),
        0 <= p < out.len(),
        0 <= q < out.len(),
        !out[p].1,
        out[q].1,
        !reachable(without_deps(g, out[p].0 as int), node_set(roots), out[q].0 as int),
    ensures
        p < q,
{
    if q < p {
        assert(reachable(without_deps(g, out[p].0 as int), node_set(roots), out[q].0 as int));
    }
}

/// What the walk keeps for `prepared_first`: each waiting node is a root or a
/// dependency of a seen node; a seen node is reachable without the
/// dependencies of any node not seen yet.
pub open spec fn avoid_inv(
    g: Seq<Seq<usize>>,
    roots: Seq<usize>,
    seen: Seq<bool>,
    stack: Seq<(usize, bool)>,
    out: Seq<Step>,
) -> bool {
    let n = g.len();
    let rs = node_set(roots);
    &&& forall|i: int|
        0 <= i < stack.len() && (#[trigger] stack[i]).1 ==> rs.contains(stack[i].0 as int) || exists|w: int, t: int|
            0 <= w < n && seen[w] && 0 <= t < g[w].len() && #[trigger] g[w][t] == stack[i].0
    &&& forall|y: int, x: int|
        0 <= y < n && 0 <= x < n && #[trigger] seen[y] && !#[trigger] seen[x] ==> reachable(
            without_deps(g, x),
            rs,
            y,
        )
    &&& prepared_first(g, roots, out)
}

// ## Reachability facts
proof fn lemma_reach_step(deps: Seq<Seq<usize>>, s: Set<int>, x: int, i: int)
    requires
        reachable(deps, s, x),
        0 <= x < deps.len(),
        0 <= i < deps[x].len(),
    ensures
        reachable(deps, s, deps[x][i] as int),
{
    let k = choose|k: nat| #[trigger] reach_within(deps, s, k).contains(x);
    let r = reach_within(deps, s, k);
    assert(r.contains(x) && deps[x][i] == deps[x][i]);
    assert(reach_within(deps, s, k + 1).contains(deps[x][i] as int));
}

proof fn lemma_reach_self(deps: Seq<Seq<usize>>, a: int)
    ensures
        reaches(deps, a, a),
{
    assert(reach_within(deps, set![a], 0).contains(a));
}

proof fn lemma_reach_member(deps: Seq<Seq<usize>>, s: Set<int>, a: int)
    requires
        s.contains(a),
    ensures
        reachable(deps, s, a),
{
    assert(reach_within(deps, s, 0).contains(a));
}

/// A set that holds `s` and is closed under dependencies holds everything
/// reachable from `s`.
proof fn lemma_closed_holds_reach(deps: Seq<Seq<usize>>, s: Set<int>, p: Set<int>, k: nat)
    requires
        s.subset_of(p),
        forall|x: int, i: int|
            #![trigger p.contains(x), deps[x][i]]
            p.contains(x) && 0 <= x < deps.len() && 0 <= i < deps[x].len() ==> p.contains(
                deps[x][i] as int,
            ),
    ensures
        reach_within(deps, s, k).subset_of(p),
    decreases k,
{
    if k > 0 {
        lemma_closed_holds_reach(deps, s, p, (k - 1) as nat);
        let r = reach_within(deps, s, (k - 1) as nat);
        assert forall|d: int| reach_within(deps, s, k).contains(d) implies p.contains(d) by {
            if !r.contains(d) {
                let (x, i) = choose|x: int, i: int|
                    #![trigger r.contains(x), deps[x][i]]
                    r.contains(x) && 0 <= x < deps.len() && 0 <= i < deps[x].len() && deps[x][i] == d;
                assert(p.contains(x));
            }
        }
    }
}

/// Everything reachable from a set of nodes lies within the graph, if the set
/// does.
proof fn lemma_reach_in_graph(deps: Seq<Seq<usize>>, s: Set<int>, k: nat)
    requires
        graph_wf(deps),
        forall|x: int| s.contains(x) ==> 0 <= x < deps.len(),
    ensures
        forall|x: int| reach_within(deps, s, k).contains(x) ==> 0 <= x < deps.len(),
    decreases k,
{
    if k > 0 {
        lemma_reach_in_graph(deps, s, (k - 1) as nat);
        let r = reach_within(deps, s, (k - 1) as nat);
        assert forall|d: int| reach_within(deps, s, k).contains(d) implies 0 <= d < deps.len() by {
            if !r.contains(d) {
                let (x, i) = choose|x: int, i: int|
                    #![trigger r.contains(x), deps[x][i]]
                    r.contains(x) && 0 <= x < deps.len() && 0 <= i < deps[x].len() && deps[x][i] == d;
            }
        }
    }
}

// ## The walk
/// The state of the walk: what the stack, the seen marks and the steps so far
/// say about each other.
pub open spec fn walk_inv(
    deps: Seq<Seq<usize>>,
    roots: Seq<usize>,
    pre: Seq<bool>,
    seen: Seq<bool>,
    stack: Seq<(usize, bool)>,
    out: Seq<Step>,
) -> bool {
    let n = deps.len();
    let rs = node_set(roots);
    &&& seen.len() == n
    &&& n <= usize::MAX
    &&& graph_wf(deps)
    &&& forall|r: int| 0 <= r < roots.len() ==> #[trigger] roots[r] < n
    &&& forall|i: int| 0 <= i < stack.len() ==> (#[trigger] stack[i]).0 < n
    &&& forall|i: int| 0 <= i < out.len() ==> (#[trigger] out[i]).0 < n
    // A node is seen exactly when its main step is emitted or it's in progress
    &&& forall|x: int|
        0 <= x < n ==> (#[trigger] seen[x] <==> (has_step(out, x, true) || has_step(
            stack,
            x,
            false,
        )))
    &&& forall|x: int| 0 <= x < n ==> !(#[trigger] has_step(out, x, true) && has_step(stack, x, false))
    // A node is in progress at most once
    &&& forall|i: int, j: int|
        0 <= i < j < stack.len() && !stack[i].1 && !stack[j].1 ==> #[trigger] stack[i].0
            != #[trigger] stack[j].0
    // Everything above a node in progress is reachable from it
    &&& forall|i: int, j: int|
        0 <= i < j < stack.len() && !stack[i].1 ==> reaches(
            deps,
            #[trigger] stack[i].0 as int,
            #[trigger] stack[j].0 as int,
        )
    // The dependencies of a node in progress are seen or still on the stack above it
    &&& forall|j: int, t: int|
        0 <= j < stack.len() && !stack[j].1 && 0 <= t < deps[stack[j].0 as int].len() ==> {
            let d = #[trigger] deps[stack[j].0 as int][t];
            seen[d as int] || exists|k: int| j < k < stack.len() && #[trigger] stack[k].0 == d
        }
    // Main steps are emitted once, after their dependencies (unless they lie on a
    // cycle through the node)
    &&& forall|i: int, j: int|
        0 <= i < j < out.len() && out[i].1 && out[j].1 ==> #[trigger] out[i].0
            != #[trigger] out[j].0
    &&& forall|i: int, t: int|
        0 <= i < out.len() && out[i].1 && 0 <= t < deps[out[i].0 as int].len() ==> {
            let d = #[trigger] deps[out[i].0 as int][t];
            has_step_before(out, d as int, true, i) || reaches(deps, d as int, out[i].0 as int)
        }
    // Dependencies of emitted nodes are seen
    &&& forall|i: int, t: int|
        0 <= i < out.len() && out[i].1 && 0 <= t < deps[out[i].0 as int].len() ==> seen[(
        #[trigger] deps[out[i].0 as int][t]) as int]
    // Roots are seen or still waiting
    &&& forall|r: int|
        0 <= r < roots.len() ==> seen[#[trigger] roots[r] as int] || exists|k: int|
            0 <= k < stack.len() && #[trigger] stack[k].0 == roots[r]
    // Everything seen or waiting is reachable from the roots
    &&& forall|x: int| 0 <= x < n && #[trigger] seen[x] ==> reachable(deps, rs, x)
    &&& forall|i: int| 0 <= i < stack.len() ==> reachable(deps, rs, (#[trigger] stack[i]).0 as int)
    // Preparation steps: once per seen node that wants one, before its main step
    &&& forall|i: int|
        0 <= i < out.len() && !out[i].1 ==> #[trigger] pre[out[i].0 as int] && seen[out[i].0 as int]
    &&& forall|i: int, j: int|
        0 <= i < j < out.len() && !out[i].1 && !out[j].1 ==> #[trigger] out[i].0
            != #[trigger] out[j].0
    &&& forall|x: int| 0 <= x < n && #[trigger] seen[x] && pre[x] ==> has_step(out, x, false)
    &&& forall|i: int, j: int|
        0 <= j < i < out.len() && !out[i].1 && out[j].1 ==> #[trigger] out[i].0
            != #[trigger] out[j].0
}

/// Walks the dependency graph from `roots` (taken last first) and lists the steps
/// of the generated code: for each node reached, its preparation step (if `pre`
/// asks for one) when first reached and its main step once all its dependencies
/// are done.
pub fn traverse(deps: &Vec<Vec<usize>>, roots: &Vec<usize>, pre: &Vec<bool>) -> (out: Vec<Step>)
    requires
        graph_wf(deps@.map_values(|v: Vec<usize>| v@)),
        pre.len() == deps.len(),
        forall|i: int| 0 <= i < roots.len() ==> #[trigger] roots[i] < deps.len(),
    ensures
        is_traversal(deps@.map_values(|v: Vec<usize>| v@), roots@, pre@, out@),
        prepared_first(deps@.map_values(|v: Vec<usize>| v@), roots@, out@),
{
    let ghost g = deps@.map_values(|v: Vec<usize>| v@);
    let ghost rs = node_set(roots@);
    let n = deps.len();
    let mut seen: Vec<bool> = Vec::new();
    while seen.len() < n
        invariant
            seen.len() <= n,
            forall|x: int| 0 <= x < seen.len() ==> !#[trigger] seen[x],
        decreases n - seen.len(),
    {
        seen.push(false);
    }
    let mut stack: Vec<(usize, bool)> = Vec::new();
    let mut r: usize = 0;
    while r < roots.len()
        invariant
            r <= roots.len(),
            stack@.len() == r,
            forall|i: int| 0 <= i < r ==> #[trigger] stack[i] == (roots[i], true),
            forall|i: int| 0 <= i < roots.len() ==> #[trigger] roots[i] < deps.len(),
        decreases roots.len() - r,
    {
        stack.push((roots[r], true));
        r = r + 1;
    }
    let mut out: Vec<Step> = Vec::new();
    proof {
        assert forall|i: int| 0 <= i < stack.len() implies reachable(g, rs, (#[trigger] stack[i]).0 as int) by {
            assert(rs.contains(roots[i] as int));
            lemma_reach_member(g, rs, roots[i] as int);
        }
        assert forall|x: int| 0 <= x < n implies (#[trigger] seen[x] <==> (has_step(out@, x, true) || has_step(stack@, x, false))) by {
            if has_step(stack@, x, false) {
                let i = choose|i: int| 0 <= i < stack@.len() && stack@[i] == (x as usize, false);
            }
        }
        assert forall|r: int| 0 <= r < roots.len() implies seen[#[trigger] roots[r] as int] || exists|k: int|
            0 <= k < stack.len() && #[trigger] stack[k].0 == roots[r] by {
            assert(stack[r].0 == roots[r]);
        }
    }
    let ghost mut nseen: nat = 0;
    assert(Set::new(|x: int| 0 <= x < n && seen[x]) =~= Set::<int>::empty());
    proof {
        assert forall|i: int| 0 <= i < stack.len() && (#[trigger] stack@[i]).1 implies rs.contains(
            stack@[i].0 as int,
        ) by {
            assert(stack@[i] == (roots@[i], true));
            assert(rs.contains(roots@[i] as int));
        }
    }
    while stack.len() > 0
        invariant
            n == deps.len(),
            g == deps@.map_values(|v: Vec<usize>| v@),
            rs == node_set(roots@),
            graph_wf(g),
            pre.len() == n,
            walk_inv(g, roots@, pre@, seen@, stack@, out@),
            avoid_inv(g, roots@, seen@, stack@, out@),
            nseen == Set::new(|x: int| 0 <= x < n && seen[x]).len(),
            nseen <= n,
        decreases n - nseen, stack.len(),
    {
        let ghost old_stack = stack@;
        let ghost old_out = out@;
        let ghost old_seen = seen@;
        let top = stack.pop().unwrap();
        let node = top.0;
        assert(old_stack[old_stack.len() - 1] == top);
        assert(stack@ == old_stack.drop_last());
        if top.1 {
            if seen[node] {
                proof {
                    lemma_pop_seen(g, roots@, pre@, seen@, old_stack, out@);
                    lemma_avoid_pop(g, roots@, seen@, old_stack, stack@, out@);
                }
                continue;
            }
            let ghost s0 = Set::new(|x: int| 0 <= x < n && seen[x]);
            seen.set(node, true);
            proof {
                let s1 = Set::new(|x: int| 0 <= x < n && seen[x]);
                assert(s1 =~= s0.insert(node as int));
                lemma_set_int_range_bounds(s0, n);
                lemma_set_int_range_bounds(s1, n);
                nseen = nseen + 1;
            }
            if pre[node] {
                out.push((node, false));
            }
            stack.push((node, false));
            let ds = &deps[node];
            assert(ds@ == g[node as int]);
            let mut pending: Vec<(usize, bool)> = Vec::new();
            let mut t: usize = 0;
            while t < ds.len()
                invariant
                    t <= ds.len(),
                    pending@.len() == t,
                    forall|k: int| 0 <= k < t ==> #[trigger] pending@[k] == (ds@[k], true),
                decreases ds.len() - t,
            {
                pending.push((ds[t], true));
                t = t + 1;
            }
            assert(pending@ =~= g[node as int].map_values(|d: usize| (d, true)));
            stack.append(&mut pending);
            proof {
                lemma_discover(g, roots@, pre@, old_seen, seen@, old_stack, stack@, old_out, out@, node);
                lemma_avoid_discover(g, roots@, pre@, old_seen, seen@, old_stack, stack@, old_out, out@, node);
            }
        } else {
            out.push((node, true));
            proof {
                lemma_finish(g, roots@, pre@, seen@, old_stack, stack@, old_out, out@);
                lemma_avoid_finish(g, roots@, seen@, old_stack, stack@, old_out, out@, node);
            }
        }
    }
    proof {
        assert(stack@ =~= Seq::<(usize, bool)>::empty());
        lemma_walk_done(g, roots@, pre@, seen@, out@);
    }
    out
}

proof fn lemma_set_int_range_bounds(s: Set<int>, n: usize)
    requires
        forall|x: int| s.contains(x) ==> 0 <= x < n,
    ensures
        s.finite(),
        s.len() <= n,
{
    let r = set_int_range(0, n as int);
    lemma_int_range(0, n as int);
    assert(s.subset_of(r));
    lemma_len_subset(s, r);
}

proof fn lemma_pop_seen(
    deps: Seq<Seq<usize>>,
    roots: Seq<usize>,
    pre: Seq<bool>,
    seen: Seq<bool>,
    stack: Seq<(usize, bool)>,
    out: Seq<Step>,
)
    requires
        walk_inv(deps, roots, pre, seen, stack, out),
        stack.len() > 0,
        stack[stack.len() - 1].1,
        seen[stack[stack.len() - 1].0 as int],
    ensures
        walk_inv(deps, roots, pre, seen, stack.drop_last(), out),
{
    let s2 = stack.drop_last();
    let last = stack.len() - 1;
    let x = stack[last].0;
    assert forall|y: int| has_step(stack, y, false) implies has_step(s2, y, false) by {
        let i = choose|i: int| 0 <= i < stack.len() && stack[i] == (y as usize, false);
        assert(s2[i] == stack[i]);
    }
    assert forall|y: int| has_step(s2, y, false) implies has_step(stack, y, false) by {
        let i = choose|i: int| 0 <= i < s2.len() && s2[i] == (y as usize, false);
        assert(s2[i] == stack[i]);
    }
    assert forall|j: int, t: int|
        0 <= j < s2.len() && !s2[j].1 && 0 <= t < deps[s2[j].0 as int].len() implies {
            let d = #[trigger] deps[s2[j].0 as int][t];
            seen[d as int] || exists|k: int| j < k < s2.len() && #[trigger] s2[k].0 == d
        } by {
        assert(stack[j] == s2[j]);
        let d = deps[s2[j].0 as int][t];
        if !seen[d as int] {
            let k = choose|k: int| j < k < stack.len() && #[trigger] stack[k].0 == d;
            assert(k != last);
            assert(s2[k] == stack[k]);
        }
    }
    assert forall|r: int| 0 <= r < roots.len() implies seen[#[trigger] roots[r] as int] || exists|k: int|
        0 <= k < s2.len() && #[trigger] s2[k].0 == roots[r] by {
        if !seen[roots[r] as int] {
            let k = choose|k: int| 0 <= k < stack.len() && #[trigger] stack[k].0 == roots[r];
            assert(k != last);
            assert(s2[k] == stack[k]);
        }
    }
    assert forall|i: int, j: int|
        0 <= i < j < s2.len() && !s2[i].1 implies reaches(
            deps,
            #[trigger] s2[i].0 as int,
            #[trigger] s2[j].0 as int,
        ) by {
        assert(s2[i] == stack[i] && s2[j] == stack[j]);
    }
    assert forall|i: int, j: int|
        0 <= i < j < s2.len() && !s2[i].1 && !s2[j].1 implies #[trigger] s2[i].0
            != #[trigger] s2[j].0 by {
        assert(s2[i] == stack[i] && s2[j] == stack[j]);
    }
    assert forall|i: int| 0 <= i < s2.len() implies reachable(deps, node_set(roots), (#[trigger] s2[i]).0 as int) by {
        assert(s2[i] == stack[i]);
    }
    assert forall|i: int| 0 <= i < s2.len() implies (#[trigger] s2[i]).0 < deps.len() by {
        assert(s2[i] == stack[i]);
    }
}

proof fn lemma_discover(
    deps: Seq<Seq<usize>>,
    roots: Seq<usize>,
    pre: Seq<bool>,
    old_seen: Seq<bool>,
    seen: Seq<bool>,
    old_stack: Seq<(usize, bool)>,
    stack: Seq<(usize, bool)>,
    old_out: Seq<Step>,
    out: Seq<Step>,
    node: usize,
)
    requires
        walk_inv(deps, roots, pre, old_seen, old_stack, old_out),
        pre.len() == deps.len(),
        old_stack.len() > 0,
        old_stack[old_stack.len() - 1] == (node, true),
        !old_seen[node as int],
        seen == old_seen.update(node as int, true),
        stack == old_stack.drop_last().push((node, false)) + deps[node as int].map_values(
            |d: usize| (d, true),
        ),
        out == if pre[node as int] {
            old_out.push((node, false))
        } else {
            old_out
        },
    ensures
        walk_inv(deps, roots, pre, seen, stack, out),
{
    let n = deps.len();
    let last = old_stack.len() - 1;
    let xi = node as int;
    let dx = deps[xi];
    let rs = node_set(roots);
    let base = old_stack.drop_last();
    assert(xi < n);
    assert(base.len() == last);
    assert(stack.len() == last + 1 + dx.len());
    assert(stack[last] == (node, false));
    assert forall|i: int| 0 <= i < last implies #[trigger] stack[i] == old_stack[i] by {
    }
    assert forall|t: int| 0 <= t < dx.len() implies #[trigger] stack[last + 1 + t] == (dx[t], true) by {
    }
    assert(reachable(deps, rs, xi));
    assert(!has_step(old_out, xi, true));
    assert(!has_step(old_stack, xi, false));
    // Entries of the new stack
    assert forall|i: int| 0 <= i < stack.len() implies (#[trigger] stack[i]).0 < n && reachable(deps, rs, stack[i].0 as int) by {
        if i < last {
            assert(stack[i] == old_stack[i]);
        } else if i > last {
            let t = i - last - 1;
            assert(stack[i] == (dx[t], true));
            lemma_reach_step(deps, rs, xi, t);
        }
    }
    // In-progress nodes: the old ones plus `node`
    assert forall|y: int| 0 <= y < n implies (has_step(stack, y, false) <==> (has_step(old_stack, y, false) || y == xi)) by {
        if has_step(old_stack, y, false) {
            let i = choose|i: int| 0 <= i < old_stack.len() && old_stack[i] == (y as usize, false);
            assert(i != last);
            assert(stack[i] == old_stack[i]);
        }
        if has_step(stack, y, false) {
            let i = choose|i: int| 0 <= i < stack.len() && stack[i] == (y as usize, false);
            if i < last {
                assert(stack[i] == old_stack[i]);
            } else if i > last {
                assert(stack[i] == (dx[i - last - 1], true));
            }
        }
        if y == xi {
            assert(stack[last] == (node, false));
        }
    }
    // Main steps are unchanged
    assert forall|y: int| 0 <= y < n implies (has_step(out, y, true) <==> has_step(old_out, y, true)) by {
        if has_step(out, y, true) {
            let i = choose|i: int| 0 <= i < out.len() && out[i] == (y as usize, true);
            if i < old_out.len() {
                assert(out[i] == old_out[i]);
            }
        }
        if has_step(old_out, y, true) {
            let i = choose|i: int| 0 <= i < old_out.len() && old_out[i] == (y as usize, true);
            assert(out[i] == old_out[i]);
        }
    }
    assert forall|i: int| 0 <= i < old_out.len() implies #[trigger] out[i] == old_out[i] by {
    }
    assert forall|i: int| 0 <= i < out.len() implies (#[trigger] out[i]).0 < n by {
        if i < old_out.len() {
            assert(out[i] == old_out[i]);
        }
    }
    assert forall|y: int| 0 <= y < n implies (#[trigger] seen[y] <==> (has_step(out, y, true) || has_step(stack, y, false))) by {
    }
    assert forall|y: int| 0 <= y < n implies !(#[trigger] has_step(out, y, true) && has_step(stack, y, false)) by {
    }
    assert forall|i: int, j: int|
        0 <= i < j < stack.len() && !stack[i].1 && !stack[j].1 implies #[trigger] stack[i].0
            != #[trigger] stack[j].0 by {
        if j > last {
            assert(stack[j] == (dx[j - last - 1], true));
        } else if j == last {
            assert(stack[i] == old_stack[i]);
            assert(has_step(old_stack, stack[i].0 as int, false));
        } else {
            assert(stack[i] == old_stack[i] && stack[j] == old_stack[j]);
        }
    }
    assert forall|i: int, j: int|
        0 <= i < j < stack.len() && !stack[i].1 implies reaches(
            deps,
            #[trigger] stack[i].0 as int,
            #[trigger] stack[j].0 as int,
        ) by {
        let a = stack[i].0 as int;
        if i > last {
            assert(stack[i] == (dx[i - last - 1], true));
        } else if i == last {
            let t = j - last - 1;
            assert(stack[j] == (dx[t], true));
            lemma_reach_self(deps, xi);
            lemma_reach_step(deps, set![xi], xi, t);
        } else {
            assert(stack[i] == old_stack[i]);
            assert(reaches(deps, old_stack[i].0 as int, old_stack[last].0 as int));
            if j > last {
                let t = j - last - 1;
                assert(stack[j] == (dx[t], true));
                lemma_reach_step(deps, set![a], xi, t);
            } else if j < last {
                assert(stack[j] == old_stack[j]);
            }
        }
    }
    assert forall|j: int, t: int|
        0 <= j < stack.len() && !stack[j].1 && 0 <= t < deps[stack[j].0 as int].len() implies {
            let d = #[trigger] deps[stack[j].0 as int][t];
            seen[d as int] || exists|k: int| j < k < stack.len() && #[trigger] stack[k].0 == d
        } by {
        let d = deps[stack[j].0 as int][t];
        if j > last {
            assert(stack[j] == (dx[j - last - 1], true));
        } else if j == last {
            assert(stack[last + 1 + t] == (dx[t], true));
            assert(stack[last + 1 + t].0 == d);
        } else {
            assert(stack[j] == old_stack[j]);
            if !old_seen[d as int] {
                let k = choose|k: int| j < k < old_stack.len() && #[trigger] old_stack[k].0 == d;
                if k < last {
                    assert(stack[k] == old_stack[k]);
                } else {
                    assert(d == node);
                }
            }
        }
    }
    assert forall|i: int, j: int|
        0 <= i < j < out.len() && out[i].1 && out[j].1 implies #[trigger] out[i].0
            != #[trigger] out[j].0 by {
        assert(out[i] == old_out[i]);
        if j < old_out.len() {
            assert(out[j] == old_out[j]);
        }
    }
    assert forall|i: int, t: int|
        0 <= i < out.len() && out[i].1 && 0 <= t < deps[out[i].0 as int].len() implies {
            let d = #[trigger] deps[out[i].0 as int][t];
            has_step_before(out, d as int, true, i) || reaches(deps, d as int, out[i].0 as int)
        } by {
        let d = deps[out[i].0 as int][t];
        assert(i < old_out.len());
        assert(out[i] == old_out[i]);
        if has_step_before(old_out, d as int, true, i) {
            let k = choose|k: int| 0 <= k < i && #[trigger] old_out[k] == (d, true);
            assert(out[k] == old_out[k]);
        }
    }
    assert forall|i: int, t: int|
        0 <= i < out.len() && out[i].1 && 0 <= t < deps[out[i].0 as int].len() implies seen[(
        #[trigger] deps[out[i].0 as int][t]) as int] by {
        assert(i < old_out.len());
        assert(out[i] == old_out[i]);
    }
    assert forall|r: int| 0 <= r < roots.len() implies seen[#[trigger] roots[r] as int] || exists|k: int|
        0 <= k < stack.len() && #[trigger] stack[k].0 == roots[r] by {
        if !old_seen[roots[r] as int] {
            let k = choose|k: int| 0 <= k < old_stack.len() && #[trigger] old_stack[k].0 == roots[r];
            if k < last {
                assert(stack[k] == old_stack[k]);
            } else {
                assert(roots[r] == node);
                assert(seen[xi]);
            }
        }
    }
    assert forall|y: int| 0 <= y < n && #[trigger] seen[y] implies reachable(deps, rs, y) by {
    }
    assert forall|i: int|
        0 <= i < out.len() && !out[i].1 implies #[trigger] pre[out[i].0 as int] && seen[out[i].0 as int] by {
        if i < old_out.len() {
            assert(out[i] == old_out[i]);
            assert(!old_out[i].1);
            assert(pre[old_out[i].0 as int]);
            assert(old_seen[old_out[i].0 as int]);
            assert(seen[old_out[i].0 as int]);
        } else {
            assert(pre[xi]);
            assert(out[i] == (node, false));
        }
    }
    assert forall|i: int, j: int|
        0 <= i < j < out.len() && !out[i].1 && !out[j].1 implies #[trigger] out[i].0
            != #[trigger] out[j].0 by {
        assert(out[i] == old_out[i]);
        if j < old_out.len() {
            assert(out[j] == old_out[j]);
        } else {
            assert(!old_out[i].1);
            assert(pre[old_out[i].0 as int]);
            assert(old_seen[old_out[i].0 as int]);
        }
    }
    assert forall|y: int| 0 <= y < n && #[trigger] seen[y] && pre[y] implies has_step(out, y, false) by {
        if y == xi {
            assert(out[old_out.len() as int] == (node, false));
        } else {
            let i = choose|i: int| 0 <= i < old_out.len() && old_out[i] == (y as usize, false);
            assert(out[i] == old_out[i]);
        }
    }
    assert forall|i: int, j: int|
        0 <= j < i < out.len() && !out[i].1 && out[j].1 implies #[trigger] out[i].0
            != #[trigger] out[j].0 by {
        assert(out[j] == old_out[j]);
        if i < old_out.len() {
            assert(out[i] == old_out[i]);
        } else {
            assert(has_step(old_out, old_out[j].0 as int, true));
        }
    }
}

proof fn lemma_finish(
    deps: Seq<Seq<usize>>,
    roots: Seq<usize>,
    pre: Seq<bool>,
    seen: Seq<bool>,
    old_stack: Seq<(usize, bool)>,
    stack: Seq<(usize, bool)>,
    old_out: Seq<Step>,
    out: Seq<Step>,
)
    requires
        walk_inv(deps, roots, pre, seen, old_stack, old_out),
        old_stack.len() > 0,
        !old_stack[old_stack.len() - 1].1,
        stack == old_stack.drop_last(),
        out == old_out.push((old_stack[old_stack.len() - 1].0, true)),
    ensures
        walk_inv(deps, roots, pre, seen, stack, out),
{
    let last = old_stack.len() - 1;
    let x = old_stack[last].0;
    let xi = x as int;
    let n = deps.len();
    assert(has_step(old_stack, xi, false));
    assert(seen[xi]);
    // In-progress nodes other than `x` are unchanged
    assert forall|y: int| 0 <= y < n && y != xi implies (has_step(stack, y, false) <==> has_step(old_stack, y, false)) by {
        if has_step(old_stack, y, false) {
            let i = choose|i: int| 0 <= i < old_stack.len() && old_stack[i] == (y as usize, false);
            assert(i != last);
            assert(stack[i] == old_stack[i]);
        }
        if has_step(stack, y, false) {
            let i = choose|i: int| 0 <= i < stack.len() && stack[i] == (y as usize, false);
            assert(stack[i] == old_stack[i]);
        }
    }
    assert(!has_step(stack, xi, false)) by {
        if has_step(stack, xi, false) {
            let i = choose|i: int| 0 <= i < stack.len() && stack[i] == (x, false);
            assert(stack[i] == old_stack[i]);
            assert(old_stack[i].0 != old_stack[last].0);
        }
    }
    assert forall|y: int| 0 <= y < n && y != xi implies (has_step(out, y, true) <==> has_step(old_out, y, true)) by {
        if has_step(out, y, true) {
            let i = choose|i: int| 0 <= i < out.len() && out[i] == (y as usize, true);
            assert(i != old_out.len());
            assert(out[i] == old_out[i]);
        }
        if has_step(old_out, y, true) {
            let i = choose|i: int| 0 <= i < old_out.len() && old_out[i] == (y as usize, true);
            assert(out[i] == old_out[i]);
        }
    }
    assert(has_step(out, xi, true)) by {
        assert(out[old_out.len() as int] == (x, true));
    }
    assert(!has_step(old_out, xi, true));
    assert forall|i: int| 0 <= i < out.len() implies (#[trigger] out[i]).0 < n by {
        if i < old_out.len() {
            assert(out[i] == old_out[i]);
        }
    }
    assert forall|i: int| 0 <= i < stack.len() implies (#[trigger] stack[i]).0 < n by {
        assert(stack[i] == old_stack[i]);
    }
    assert forall|y: int| 0 <= y < n implies (#[trigger] seen[y] <==> (has_step(out, y, true) || has_step(stack, y, false))) by {
    }
    assert forall|y: int| 0 <= y < n implies !(#[trigger] has_step(out, y, true) && has_step(stack, y, false)) by {
    }
    assert forall|i: int, j: int|
        0 <= i < j < stack.len() && !stack[i].1 && !stack[j].1 implies #[trigger] stack[i].0
            != #[trigger] stack[j].0 by {
        assert(stack[i] == old_stack[i] && stack[j] == old_stack[j]);
    }
    assert forall|i: int, j: int|
        0 <= i < j < stack.len() && !stack[i].1 implies reaches(
            deps,
            #[trigger] stack[i].0 as int,
            #[trigger] stack[j].0 as int,
        ) by {
        assert(stack[i] == old_stack[i] && stack[j] == old_stack[j]);
    }
    assert forall|j: int, t: int|
        0 <= j < stack.len() && !stack[j].1 && 0 <= t < deps[stack[j].0 as int].len() implies {
            let d = #[trigger] deps[stack[j].0 as int][t];
            seen[d as int] || exists|k: int| j < k < stack.len() && #[trigger] stack[k].0 == d
        } by {
        assert(old_stack[j] == stack[j]);
        let d = deps[stack[j].0 as int][t];
        if !seen[d as int] {
            let k = choose|k: int| j < k < old_stack.len() && #[trigger] old_stack[k].0 == d;
            assert(k != last);
            assert(stack[k] == old_stack[k]);
        }
    }
    // The dependencies of `x` are all seen: none can still be above it
    assert forall|t: int| 0 <= t < deps[xi].len() implies seen[(#[trigger] deps[xi][t]) as int] by {
        let d = deps[old_stack[last].0 as int][t];
        if !seen[d as int] {
            let k = choose|k: int| last < k < old_stack.len() && #[trigger] old_stack[k].0 == d;
        }
    }
    assert forall|i: int, j: int|
        0 <= i < j < out.len() && out[i].1 && out[j].1 implies #[trigger] out[i].0
            != #[trigger] out[j].0 by {
        assert(out[i] == old_out[i]);
        if j < old_out.len() {
            assert(out[j] == old_out[j]);
        } else {
            assert(has_step(old_out, out[i].0 as int, true));
        }
    }
    assert forall|i: int, t: int|
        0 <= i < out.len() && out[i].1 && 0 <= t < deps[out[i].0 as int].len() implies {
            let d = #[trigger] deps[out[i].0 as int][t];
            has_step_before(out, d as int, true, i) || reaches(deps, d as int, out[i].0 as int)
        } by {
        let d = deps[out[i].0 as int][t];
        if i < old_out.len() {
            assert(out[i] == old_out[i]);
            if has_step_before(old_out, d as int, true, i) {
                let k = choose|k: int| 0 <= k < i && #[trigger] old_out[k] == (d, true);
                assert(out[k] == old_out[k]);
            }
        } else {
            assert(out[i].0 == x);
            assert(seen[d as int]);
            if has_step(old_out, d as int, true) {
                let k = choose|k: int| 0 <= k < old_out.len() && old_out[k] == (d, true);
                assert(out[k] == old_out[k]);
                assert(has_step_before(out, d as int, true, i));
            } else {
                assert(has_step(old_stack, d as int, false));
                let k = choose|k: int| 0 <= k < old_stack.len() && old_stack[k] == (d, false);
                if k == last {
                    lemma_reach_self(deps, xi);
                } else {
                    assert(reaches(deps, old_stack[k].0 as int, old_stack[last].0 as int));
                }
            }
        }
    }
    assert forall|i: int, t: int|
        0 <= i < out.len() && out[i].1 && 0 <= t < deps[out[i].0 as int].len() implies seen[(
        #[trigger] deps[out[i].0 as int][t]) as int] by {
        if i < old_out.len() {
            assert(out[i] == old_out[i]);
        }
    }
    assert forall|r: int| 0 <= r < roots.len() implies seen[#[trigger] roots[r] as int] || exists|k: int|
        0 <= k < stack.len() && #[trigger] stack[k].0 == roots[r] by {
        if !seen[roots[r] as int] {
            let k = choose|k: int| 0 <= k < old_stack.len() && #[trigger] old_stack[k].0 == roots[r];
            assert(k != last);
            assert(stack[k] == old_stack[k]);
        }
    }
    assert forall|i: int| 0 <= i < stack.len() implies reachable(deps, node_set(roots), (#[trigger] stack[i]).0 as int) by {
        assert(stack[i] == old_stack[i]);
    }
    assert forall|i: int|
        0 <= i < out.len() && !out[i].1 implies #[trigger] pre[out[i].0 as int] && seen[out[i].0 as int] by {
        assert(out[i] == old_out[i]);
    }
    assert forall|i: int, j: int|
        0 <= i < j < out.len() && !out[i].1 && !out[j].1 implies #[trigger] out[i].0
            != #[trigger] out[j].0 by {
        assert(out[i] == old_out[i]);
        assert(out[j] == old_out[j]);
    }
    assert forall|y: int| 0 <= y < n && #[trigger] seen[y] && pre[y] implies has_step(out, y, false) by {
        let i = choose|i: int| 0 <= i < old_out.len() && old_out[i] == (y as usize, false);
        assert(out[i] == old_out[i]);
    }
    assert forall|i: int, j: int|
        0 <= j < i < out.len() && !out[i].1 && out[j].1 implies #[trigger] out[i].0
            != #[trigger] out[j].0 by {
        assert(out[i] == old_out[i]);
        assert(out[j] == old_out[j]);
    }
}


proof fn lemma_avoid_pop(
    g: Seq<Seq<usize>>,
    roots: Seq<usize>,
    seen: Seq<bool>,
    old_stack: Seq<(usize, bool)>,
    stack: Seq<(usize, bool)>,
    out: Seq<Step>,
)
    requires
        avoid_inv(g, roots, seen, old_stack, out),
        old_stack.len() > 0,
        stack == old_stack.drop_last(),
    ensures
        avoid_inv(g, roots, seen, stack, out),
{
    assert forall|i: int| 0 <= i < stack.len() implies stack[i] == old_stack[i] by {}
}

proof fn lemma_avoid_finish(
    g: Seq<Seq<usize>>,
    roots: Seq<usize>,
    seen: Seq<bool>,
    old_stack: Seq<(usize, bool)>,
    stack: Seq<(usize, bool)>,
    old_out: Seq<Step>,
    out: Seq<Step>,
    node: usize,
)
    requires
        avoid_inv(g, roots, seen, old_stack, old_out),
        old_stack.len() > 0,
        stack == old_stack.drop_last(),
        out == old_out.push((node, true)),
    ensures
        avoid_inv(g, roots, seen, stack, out),
{
    lemma_avoid_pop(g, roots, seen, old_stack, stack, old_out);
    assert forall|p: int, q: int|
        0 <= q < p < out.len() && !out[p].1 && out[q].1 implies reachable(
        without_deps(g, (#[trigger] out[p]).0 as int),
        node_set(roots),
        (#[trigger] out[q]).0 as int,
    ) by {
        assert(p < old_out.len());
        assert(out[p] == old_out[p] && out[q] == old_out[q]);
    }
}

proof fn lemma_avoid_discover(
    g: Seq<Seq<usize>>,
    roots: Seq<usize>,
    pre: Seq<bool>,
    old_seen: Seq<bool>,
    seen: Seq<bool>,
    old_stack: Seq<(usize, bool)>,
    stack: Seq<(usize, bool)>,
    old_out: Seq<Step>,
    out: Seq<Step>,
    node: usize,
)
    requires
        avoid_inv(g, roots, old_seen, old_stack, old_out),
        walk_inv(g, roots, pre, old_seen, old_stack, old_out),
        pre.len() == g.len(),
        old_stack.len() > 0,
        old_stack[old_stack.len() - 1] == (node, true),
        !old_seen[node as int],
        seen == old_seen.update(node as int, true),
        stack == old_stack.drop_last().push((node, false)) + g[node as int].map_values(|d: usize| (d, true)),
        out == if pre[node as int] {
            old_out.push((node, false))
        } else {
            old_out
        },
    ensures
        avoid_inv(g, roots, seen, stack, out),
{
    let n = g.len();
    let rs = node_set(roots);
    let z = node as int;
    let last = old_stack.len() - 1;
    // The node just seen is reachable without the dependencies of any node not seen.
    assert forall|x: int| 0 <= x < n && !seen[x] implies reachable(without_deps(g, x), rs, z) by {
        let gx = without_deps(g, x);
        if rs.contains(z) {
            lemma_reach_member(gx, rs, z);
        } else {
            assert(old_stack[last].1);
            let (w, t) = choose|w: int, t: int|
                0 <= w < n && old_seen[w] && 0 <= t < g[w].len() && #[trigger] g[w][t] == old_stack[last].0;
            assert(reachable(gx, rs, w));
            assert(w != x);
            assert(gx[w] == g[w]);
            lemma_reach_step(gx, rs, w, t);
        }
    }
    assert forall|y: int, x: int|
        0 <= y < n && 0 <= x < n && #[trigger] seen[y] && !#[trigger] seen[x] implies reachable(
        without_deps(g, x),
        rs,
        y,
    ) by {
        if y != z {
            assert(old_seen[y]);
        }
    }
    assert forall|i: int| 0 <= i < stack.len() && (#[trigger] stack[i]).1 implies rs.contains(stack[i].0 as int)
        || exists|w: int, t: int| 0 <= w < n && seen[w] && 0 <= t < g[w].len() && #[trigger] g[w][t] == stack[i].0 by {
        if i < last {
            assert(stack[i] == old_stack[i]);
            if !rs.contains(stack[i].0 as int) {
                let (w, t) = choose|w: int, t: int|
                    0 <= w < n && old_seen[w] && 0 <= t < g[w].len() && #[trigger] g[w][t] == old_stack[i].0;
                assert(seen[w]);
            }
        } else if i > last {
            let t = i - last - 1;
            assert(stack[i] == (g[z][t], true));
            assert(seen[z]);
        }
    }
    assert forall|p: int, q: int|
        0 <= q < p < out.len() && !out[p].1 && out[q].1 implies reachable(
        without_deps(g, (#[trigger] out[p]).0 as int),
        rs,
        (#[trigger] out[q]).0 as int,
    ) by {
        if p < old_out.len() {
            assert(out[p] == old_out[p] && out[q] == old_out[q]);
        } else {
            assert(out[p] == (node, false));
            assert(out[q] == old_out[q]);
            let y = old_out[q].0 as int;
            assert(has_step(old_out, y, true));
            assert(old_seen[y]);
        }
    }
}

proof fn lemma_walk_done(
    deps: Seq<Seq<usize>>,
    roots: Seq<usize>,
    pre: Seq<bool>,
    seen: Seq<bool>,
    out: Seq<Step>,
)
    requires
        walk_inv(deps, roots, pre, seen, Seq::empty(), out),
        pre.len() == deps.len(),
    ensures
        forall|x: int|
            0 <= x < deps.len() ==> (has_step(out, x, true) <==> reachable(deps, node_set(roots), x)),
        forall|x: int|
            0 <= x < deps.len() && #[trigger] has_step(out, x, false) ==> reachable(deps, node_set(roots), x)
                && pre[x],
        forall|x: int|
            0 <= x < deps.len() && #[trigger] reachable(deps, node_set(roots), x) && pre[x] ==> has_step(out, x, false),
{
    let n = deps.len();
    let rs = node_set(roots);
    let stack = Seq::<(usize, bool)>::empty();
    assert forall|x: int| 0 <= x < n implies !has_step(stack, x, false) by {
    }
    let p = Set::new(|x: int| 0 <= x < n && seen[x]);
    assert(rs.subset_of(p)) by {
        assert forall|x: int| rs.contains(x) implies p.contains(x) by {
            let i = choose|i: int| 0 <= i < roots.len() && roots[i] == x;
            assert(seen[roots[i] as int]);
        }
    }
    assert forall|x: int, i: int|
        #![trigger p.contains(x), deps[x][i]]
        p.contains(x) && 0 <= x < deps.len() && 0 <= i < deps[x].len() implies p.contains(
            deps[x][i] as int,
        ) by {
        assert(has_step(out, x, true));
        let k = choose|k: int| 0 <= k < out.len() && out[k] == (x as usize, true);
        assert(seen[(deps[out[k].0 as int][i]) as int]);
    }
    assert forall|x: int| 0 <= x < n && reachable(deps, rs, x) implies has_step(out, x, true) by {
        let k = choose|k: nat| #[trigger] reach_within(deps, rs, k).contains(x);
        lemma_closed_holds_reach(deps, rs, p, k);
        assert(p.contains(x));
    }
    assert forall|x: int| 0 <= x < n && has_step(out, x, true) implies reachable(deps, rs, x) by {
        assert(seen[x]);
    }
    assert forall|x: int| 0 <= x < n && reachable(deps, rs, x) && pre[x] implies has_step(out, x, false) by {
        assert(has_step(out, x, true));
        assert(seen[x]);
    }
    assert forall|x: int| 0 <= x < n && has_step(out, x, false) implies reachable(deps, rs, x) && pre[x] by {
        let i = choose|i: int| 0 <= i < out.len() && out[i] == (x as usize, false);
        assert(!out[i].1);
        assert(pre[out[i].0 as int] && seen[out[i].0 as int]);
        assert(out[i].0 as int == x);
        assert(seen[x]);
    }
    assert forall|x: int|
        0 <= x < deps.len() implies (#[trigger] has_step(out, x, false) <==> (reachable(deps, node_set(roots), x)
            && pre[x])) by {
        if reachable(deps, rs, x) && pre[x] {
            assert(has_step(out, x, true));
            assert(seen[x]);
            assert(has_step(out, x, false));
        }
        if has_step(out, x, false) {
            let i = choose|i: int| 0 <= i < out.len() && out[i] == (x as usize, false);
            assert(!out[i].1);
            assert(pre[out[i].0 as int] && seen[out[i].0 as int]);
            assert(out[i].0 as int == x);
            assert(seen[x]);
            assert(reachable(deps, rs, x));
        }
    }
}

} // verus!
