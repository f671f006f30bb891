//! Layered layout of a flowchart: which edges point backwards, which layer
//! every node goes to, in what order the nodes of a layer stand, and how the
//! backward edges are routed.
use vstd::prelude::*;
use vstd::set_lib::{lemma_int_range, lemma_len_subset, set_int_range};
use crate::diagram::{Graph, GraphV, EdgeV};

verus! {

// ───── feedback edges ─────

/// The edge indices that a list names.
pub open spec fn index_set(v: Seq<usize>) -> Set<int> {
    Set::new(|i: int| exists|k: int| 0 <= k < v.len() && v[k] == i)
}

pub open spec fn strictly_increasing(v: Seq<usize>) -> bool {
    forall|i: int, j: int| 0 <= i < j < v.len() ==> v[i] < v[j]
}

/// `rank` strictly decreases along every edge outside `fb`; such a rank
/// exists exactly when those edges form no cycle.
pub open spec fn is_decreasing_rank(g: GraphV, fb: Set<int>, rank: Seq<int>) -> bool {
    &&& rank.len() == g.nodes.len()
    &&& forall|i: int|
        0 <= i < g.edges.len() && !fb.contains(i) ==> rank[(#[trigger] g.edges[i]).from]
            > rank[g.edges[i].to]
}

/// The edges outside `fb` form no cycle.
pub open spec fn acyclic_without(g: GraphV, fb: Set<int>) -> bool {
    exists|rank: Seq<int>| is_decreasing_rank(g, fb, rank)
}

/// Adjacency lists: for every node, the `(edge, target)` pairs of its
/// outgoing edges, in edge order.
pub open spec fn adjacency_ok(g: GraphV, adj: Seq<Vec<(usize, usize)>>) -> bool {
    &&& adj.len() == g.nodes.len()
    &&& forall|u: int, j: int|
        0 <= u < adj.len() && 0 <= j < adj[u]@.len() ==> {
            let (e, t) = #[trigger] adj[u]@[j];
            &&& e < g.edges.len()
            &&& t < g.nodes.len()
            &&& g.edges[e as int].from == u
            &&& g.edges[e as int].to == t
        }
}

/// Every edge is listed under its source.
pub open spec fn adjacency_complete(g: GraphV, adj: Seq<Vec<(usize, usize)>>, upto: int) -> bool {
    forall|e: int|
        #![trigger g.edges[e]]
        0 <= e < upto ==> exists|j: int|
            0 <= j < adj[g.edges[e].from]@.len() && (#[trigger] adj[g.edges[e].from]@[j]).0 == e
}

/// The `(edge, target)` pairs of the edges below `i` that leave `u`, in
/// edge order.
pub open spec fn out_upto(g: GraphV, u: int, i: int) -> Seq<(usize, usize)>
    decreases i,
{
    if i <= 0 {
        Seq::empty()
    } else if g.edges[i - 1].from == u {
        out_upto(g, u, i - 1).push(((i - 1) as usize, g.edges[i - 1].to as usize))
    } else {
        out_upto(g, u, i - 1)
    }
}

/// The `(edge, target)` pairs of the edges that leave `u`, in edge order.
pub open spec fn out_edges(g: GraphV, u: int) -> Seq<(usize, usize)> {
    out_upto(g, u, g.edges.len() as int)
}

fn build_adjacency(g: &Graph) -> (adj: Vec<Vec<(usize, usize)>>)
    requires
        g.wf(),
    ensures
        adjacency_ok(g.view(), adj@),
        adjacency_complete(g.view(), adj@, g.edges@.len() as int),
        forall|u: int| 0 <= u < adj@.len() ==> (#[trigger] adj@[u])@ == out_edges(g.view(), u),
{
    let n = g.nodes.len();
    let mut adj: Vec<Vec<(usize, usize)>> = Vec::new();
    while adj.len() < n
        invariant
            adj.len() <= n,
            forall|u: int| 0 <= u < adj.len() ==> (#[trigger] adj@[u])@.len() == 0,
        decreases n - adj.len(),
    {
        adj.push(Vec::new());
    }
    let ghost gv = g.view();
    assert(adjacency_ok(gv, adj@));
    let mut i: usize = 0;
    while i < g.edges.len()
        invariant
            gv == g.view(),
            g.wf(),
            i <= g.edges.len(),
            adjacency_ok(gv, adj@),
            adjacency_complete(gv, adj@, i as int),
            forall|u: int| 0 <= u < adj@.len() ==> (#[trigger] adj@[u])@ == out_upto(gv, u, i as int),
        decreases g.edges.len() - i,
    {
        let from = g.edges[i].from;
        let to = g.edges[i].to;
        assert(gv.edges[i as int].from == from);
        assert(gv.edges[i as int].to == to);
        assert(to < g.nodes.len());
        let ghost before = adj@;
        adj[from].push((i, to));
        proof {
            assert forall|u: int| 0 <= u < adj@.len() implies (#[trigger] adj@[u])@ == out_upto(gv, u, i + 1) by {
                if u != from {
                    assert(adj@[u] == before[u]);
                }
            }
            assert(adj@[from as int]@ == before[from as int]@.push((i, to)));
            assert forall|u: int, j: int|
                0 <= u < adj@.len() && 0 <= j < adj@[u]@.len() implies {
                    let (e, t) = #[trigger] adj@[u]@[j];
                    &&& e < gv.edges.len()
                    &&& t < gv.nodes.len()
                    &&& gv.edges[e as int].from == u
                    &&& gv.edges[e as int].to == t
                } by {
                if u != from {
                    assert(adj@[u] == before[u]);
                } else if j < before[u]@.len() {
                    assert(adj@[u]@[j] == before[u]@[j]);
                }
            }
            assert forall|e: int| #![trigger gv.edges[e]] 0 <= e < i + 1 implies exists|j: int|
                0 <= j < adj@[gv.edges[e].from]@.len() && (#[trigger] adj@[gv.edges[e].from]@[j]).0
                    == e by {
                if e == i {
                    let j = before[from as int]@.len() as int;
                    assert(adj@[gv.edges[e].from]@[j].0 == e);
                } else {
                    let u = gv.edges[e].from;
                    let j = choose|j: int|
                        0 <= j < before[u]@.len() && (#[trigger] before[u]@[j]).0 == e;
                    if u == from {
                        assert(adj@[u]@[j] == before[u]@[j]);
                    } else {
                        assert(adj@[u] == before[u]);
                    }
                }
            }
        }
        i = i + 1;
    }
    adj
}

/// The edges whose flag is set.
pub open spec fn flag_set(fb: Seq<bool>) -> Set<int> {
    Set::new(|i: int| 0 <= i < fb.len() && fb[i])
}

/// What remains to be done for the frames on the search stack, which only
/// ever changes at its top.
pub open spec fn stack_weight(st: Seq<(usize, usize)>, adj: Seq<Vec<(usize, usize)>>) -> int
    decreases st.len(),
{
    if st.len() == 0 {
        0
    } else {
        stack_weight(st.drop_last(), adj) + (adj[st.last().0 as int]@.len() - st.last().1 + 1)
    }
}

/// A finished node: its finishing rank is below `counter`, and each of its
/// edges is set aside or leads to a node finished before it; self-loops are
/// set aside.
pub open spec fn finished_ok(
    adj: Seq<Vec<(usize, usize)>>,
    st: Seq<u8>,
    fb: Seq<bool>,
    fin: Seq<int>,
    counter: int,
    v: int,
) -> bool {
    st[v] == 2 ==> {
        &&& 0 <= fin[v] < counter
        &&& forall|j: int|
            0 <= j < adj[v]@.len() ==> {
                let (e, t) = #[trigger] adj[v]@[j];
                &&& (!fb[e as int] ==> st[t as int] == 2 && fin[t as int] < fin[v])
                &&& (t == v ==> fb[e as int])
            }
    }
}

/// A frame of the search stack: each edge it has looked at is set aside,
/// leads to a finished node, or leads to a node higher on the stack.
pub open spec fn frame_ok(
    adj: Seq<Vec<(usize, usize)>>,
    st: Seq<u8>,
    fb: Seq<bool>,
    stack: Seq<(usize, usize)>,
    k: int,
) -> bool {
    let (u, next) = stack[k];
    forall|j: int|
        0 <= j < next ==> {
            let (e, t) = #[trigger] adj[u as int]@[j];
            &&& (!fb[e as int] ==> st[t as int] == 2 || exists|i: int|
                k < i < stack.len() && (#[trigger] stack[i]).0 == t)
            &&& (t == u ==> fb[e as int])
        }
}

pub open spec fn dfs_inv(
    g: GraphV,
    adj: Seq<Vec<(usize, usize)>>,
    st: Seq<u8>,
    fb: Seq<bool>,
    stack: Seq<(usize, usize)>,
    fin: Seq<int>,
    counter: int,
    seen: Set<int>,
) -> bool {
    let n = g.nodes.len();
    &&& adjacency_ok(g, adj)
    &&& st.len() == n
    &&& fb.len() == g.edges.len()
    &&& fin.len() == n
    &&& counter >= 0
    &&& forall|k: int|
        0 <= k < stack.len() ==> {
            &&& (#[trigger] stack[k]).0 < n
            &&& stack[k].1 <= adj[stack[k].0 as int]@.len()
            &&& st[stack[k].0 as int] == 1
            &&& frame_ok(adj, st, fb, stack, k)
        }
    &&& forall|i: int, j: int|
        0 <= i < j < stack.len() ==> (#[trigger] stack[i]).0 != (#[trigger] stack[j]).0
    &&& forall|v: int| 0 <= v < n && st[v] == 1 ==> exists|k: int| 0 <= k < stack.len() && (#[trigger] stack[k]).0 == v
    &&& forall|v: int| 0 <= v < n ==> #[trigger] st[v] <= 2
    &&& forall|v: int| 0 <= v < n ==> #[trigger] finished_ok(adj, st, fb, fin, counter, v)
    &&& forall|v: int| #[trigger] seen.contains(v) <==> (0 <= v < n && st[v] != 0)
}

proof fn lemma_stack_weight_positive(st: Seq<(usize, usize)>, adj: Seq<Vec<(usize, usize)>>)
    requires
        forall|k: int|
            0 <= k < st.len() ==> (#[trigger] st[k]).1 <= adj[st[k].0 as int]@.len(),
    ensures
        stack_weight(st, adj) >= st.len(),
    decreases st.len(),
{
    if st.len() > 0 {
        assert forall|k: int| 0 <= k < st.drop_last().len() implies (#[trigger] st.drop_last()[k]).1
            <= adj[st.drop_last()[k].0 as int]@.len() by {
            assert(st.drop_last()[k] == st[k]);
        }
        lemma_stack_weight_positive(st.drop_last(), adj);
    }
}

proof fn lemma_seen_bounded(seen: Set<int>, n: int)
    requires
        n >= 0,
        forall|v: int| #[trigger] seen.contains(v) ==> 0 <= v < n,
    ensures
        seen.finite(),
        seen.len() <= n,
{
    lemma_int_range(0, n);
    assert(seen.subset_of(set_int_range(0, n)));
    lemma_len_subset(seen, set_int_range(0, n));
}

/// `st2` keeps every finished node of `st1` finished, and `fb2` keeps every
/// flag of `fb1`.
pub open spec fn grows(st1: Seq<u8>, st2: Seq<u8>, fb1: Seq<bool>, fb2: Seq<bool>) -> bool {
    &&& st2.len() == st1.len()
    &&& fb2.len() == fb1.len()
    &&& forall|t: int| 0 <= t < st1.len() && st1[t] == 2 ==> #[trigger] st2[t] == 2
    &&& forall|e: int| 0 <= e < fb1.len() && fb1[e] ==> #[trigger] fb2[e]
}

proof fn lemma_finished_keep(
    g: GraphV,
    adj: Seq<Vec<(usize, usize)>>,
    st1: Seq<u8>,
    st2: Seq<u8>,
    fb1: Seq<bool>,
    fb2: Seq<bool>,
    fin1: Seq<int>,
    fin2: Seq<int>,
    c1: int,
    c2: int,
    v: int,
)
    requires
        adjacency_ok(g, adj),
        st1.len() == g.nodes.len(),
        fb1.len() == g.edges.len(),
        grows(st1, st2, fb1, fb2),
        0 <= v < st1.len(),
        st2[v] == 2 ==> st1[v] == 2,
        c1 <= c2,
        fin2.len() == fin1.len(),
        forall|t: int| 0 <= t < st1.len() && st1[t] == 2 ==> #[trigger] fin2[t] == fin1[t],
        finished_ok(adj, st1, fb1, fin1, c1, v),
    ensures
        finished_ok(adj, st2, fb2, fin2, c2, v),
{
    if st2[v] == 2 {
        assert(fin2[v] == fin1[v]);
        assert forall|j: int| 0 <= j < adj[v]@.len() implies {
            let (e, t) = #[trigger] adj[v]@[j];
            &&& (!fb2[e as int] ==> st2[t as int] == 2 && fin2[t as int] < fin2[v])
            &&& (t == v ==> fb2[e as int])
        } by {
            let (e, t) = adj[v]@[j];
            assert(e < g.edges.len());
            assert(t < g.nodes.len());
            if !fb2[e as int] {
                assert(!fb1[e as int]);
                assert(st1[t as int] == 2);
                assert(fin2[t as int] == fin1[t as int]);
            }
        }
    }
}

proof fn lemma_frame_keep(
    g: GraphV,
    adj: Seq<Vec<(usize, usize)>>,
    st1: Seq<u8>,
    st2: Seq<u8>,
    fb1: Seq<bool>,
    fb2: Seq<bool>,
    s1: Seq<(usize, usize)>,
    s2: Seq<(usize, usize)>,
    k: int,
)
    requires
        adjacency_ok(g, adj),
        st1.len() == g.nodes.len(),
        fb1.len() == g.edges.len(),
        grows(st1, st2, fb1, fb2),
        0 <= k < s1.len(),
        s1[k].0 < adj.len(),
        s1[k].1 <= adj[s1[k].0 as int]@.len(),
        s2.len() >= s1.len(),
        forall|i: int| 0 <= i < s1.len() ==> (#[trigger] s2[i]).0 == s1[i].0,
        frame_ok(adj, st1, fb1, s1, k),
    ensures
        forall|j: int|
            0 <= j < s1[k].1 ==> {
                let (e, t) = #[trigger] adj[s1[k].0 as int]@[j];
                &&& (!fb2[e as int] ==> st2[t as int] == 2 || exists|i: int|
                    k < i < s2.len() && (#[trigger] s2[i]).0 == t)
                &&& (t == s1[k].0 ==> fb2[e as int])
            },
{
    let (u, next) = s1[k];
    assert forall|j: int| 0 <= j < next implies {
        let (e, t) = #[trigger] adj[u as int]@[j];
        &&& (!fb2[e as int] ==> st2[t as int] == 2 || exists|i: int|
            k < i < s2.len() && (#[trigger] s2[i]).0 == t)
        &&& (t == u ==> fb2[e as int])
    } by {
        let (e, t) = adj[u as int]@[j];
        assert(e < g.edges.len());
        assert(t < g.nodes.len());
        if !fb2[e as int] && st2[t as int] != 2 {
            assert(!fb1[e as int]);
            assert(st1[t as int] != 2);
            let i = choose|i: int| k < i < s1.len() && (#[trigger] s1[i]).0 == t;
            assert(s2[i].0 == t);
        }
    }
}

/// A state of the depth-first search: each node's colour (0 not yet
/// visited, 1 on the search path, 2 finished), the flags set so far, the
/// search path as `(node, next edge to look at)` frames, and the next node
/// to start a search from.
pub type DfsState = (Seq<u8>, Seq<bool>, Seq<(usize, usize)>, int);

/// Nothing visited, nothing flagged, no search under way.
pub open spec fn dfs_init(g: GraphV) -> DfsState {
    (Seq::new(g.nodes.len(), |i: int| 0u8), Seq::new(g.edges.len(), |i: int| false), Seq::empty(), 0)
}

/// One step of the search. With no search under way, the next node starts
/// one if it is not yet visited. Otherwise the top node of the path looks at
/// its next outgoing edge, in edge order: a self-loop or an edge to a node
/// on the path is flagged, an edge to a node not yet visited extends the
/// path, an edge to a finished node is passed over; a node with no edge
/// left is finished and leaves the path.
pub open spec fn dfs_step(g: GraphV, s: DfsState) -> DfsState {
    let (st, fb, stack, root) = s;
    if stack.len() == 0 {
        if root >= g.nodes.len() {
            s
        } else if st[root] == 0 {
            (st.update(root, 1), fb, seq![(root as usize, 0usize)], root + 1)
        } else {
            (st, fb, stack, root + 1)
        }
    } else {
        let (u, next) = stack.last();
        let out = out_edges(g, u as int);
        if next >= out.len() {
            (st.update(u as int, 2), fb, stack.drop_last(), root)
        } else {
            let (e, t) = out[next as int];
            let path = stack.update(stack.len() - 1, (u, (next + 1) as usize));
            if t == u || st[t as int] == 1 {
                (st, fb.update(e as int, true), path, root)
            } else if st[t as int] == 0 {
                (st.update(t as int, 1), fb, path.push((t, 0usize)), root)
            } else {
                (st, fb, path, root)
            }
        }
    }
}

/// The state after `k` steps of the search.
pub open spec fn dfs_run(g: GraphV, k: nat) -> DfsState
    decreases k,
{
    if k == 0 {
        dfs_init(g)
    } else {
        dfs_step(g, dfs_run(g, (k - 1) as nat))
    }
}

/// Every node has been a start, and no search is under way.
pub open spec fn dfs_done(g: GraphV, s: DfsState) -> bool {
    s.2.len() == 0 && s.3 >= g.nodes.len()
}

/// The flags of the depth-first search from every node in declaration order
/// once it is done: the edges that close a cycle on the search path, and the
/// self-loops.
pub open spec fn dfs_flags(g: GraphV) -> Seq<bool> {
    dfs_run(g, choose|k: nat| dfs_done(g, #[trigger] dfs_run(g, k))).1
}

proof fn lemma_dfs_stays_done(g: GraphV, a: nat, b: nat)
    requires
        dfs_done(g, dfs_run(g, a)),
        a <= b,
    ensures
        dfs_run(g, b) == dfs_run(g, a),
    decreases b - a,
{
    if b > a {
        lemma_dfs_stays_done(g, a, (b - 1) as nat);
    }
}

proof fn lemma_dfs_flags(g: GraphV, k: nat)
    requires
        dfs_done(g, dfs_run(g, k)),
    ensures
        dfs_flags(g) == dfs_run(g, k).1,
{
    let k2 = choose|k2: nat| dfs_done(g, #[trigger] dfs_run(g, k2));
    if k <= k2 {
        lemma_dfs_stays_done(g, k, k2);
    } else {
        lemma_dfs_stays_done(g, k2, k);
    }
}

/// `p` is a walk from `a` to `b` along edges of `allowed`.
pub open spec fn walk(g: GraphV, allowed: Set<int>, p: Seq<int>, a: int, b: int) -> bool {
    &&& forall|k: int| 0 <= k < p.len() ==> 0 <= #[trigger] p[k] < g.edges.len() && allowed.contains(p[k])
    &&& forall|k: int| 0 <= k < p.len() - 1 ==> g.edges[#[trigger] p[k]].to == g.edges[p[k + 1]].from
    &&& if p.len() == 0 {
        a == b
    } else {
        g.edges[p[0]].from == a && g.edges[p.last()].to == b
    }
}

/// Node `b` can be reached from node `a` along edges of `allowed`.
pub open spec fn reaches(g: GraphV, allowed: Set<int>, a: int, b: int) -> bool {
    exists|p: Seq<int>| walk(g, allowed, p, a, b)
}

/// The edges outside `fs`.
pub open spec fn kept_edges(g: GraphV, fs: Set<int>) -> Set<int> {
    Set::new(|e: int| 0 <= e < g.edges.len() && !fs.contains(e))
}

/// Edge `e` closes a cycle of the edges outside `fs`: its target leads back
/// to its source through them.
pub open spec fn closes_cycle(g: GraphV, fs: Set<int>, e: int) -> bool {
    reaches(g, kept_edges(g, fs), g.edges[e].to, g.edges[e].from)
}

proof fn lemma_walk_rank(g: GraphV, al: Set<int>, rank: Seq<int>, p: Seq<int>, a: int, b: int)
    requires
        is_decreasing_rank(g, Set::empty(), rank),
        walk(g, al, p, a, b),
    ensures
        rank[a] >= rank[b],
    decreases p.len(),
{
    if p.len() > 0 {
        let q = p.drop_last();
        let e = p.last();
        assert(p[p.len() - 1] == e);
        assert(g.edges[e].from == (if q.len() == 0 { a } else { g.edges[q.last()].to })) by {
            if q.len() > 0 {
                assert(q.last() == p[p.len() - 2]);
            }
        }
        assert(walk(g, al, q, a, g.edges[e].from)) by {
            assert forall|k: int| 0 <= k < q.len() implies 0 <= #[trigger] q[k] < g.edges.len() && al.contains(q[k]) by {
                assert(q[k] == p[k]);
            }
            assert forall|k: int| 0 <= k < q.len() - 1 implies g.edges[#[trigger] q[k]].to == g.edges[q[k + 1]].from by {
                assert(q[k] == p[k] && q[k + 1] == p[k + 1]);
            }
            if q.len() > 0 {
                assert(q[0] == p[0]);
            }
        }
        lemma_walk_rank(g, al, rank, q, a, g.edges[e].from);
        assert(!Set::<int>::empty().contains(e));
        assert(rank[g.edges[e].from] > rank[g.edges[e].to]);
    }
}

/// A graph with no cycle has no edge that closes one, whatever is set
/// aside: there [`classify_feedback_edges`] reports nothing.
pub proof fn lemma_acyclic_closes_nothing(g: GraphV, fs: Set<int>, e: int)
    requires
        acyclic_without(g, Set::empty()),
        0 <= e < g.edges.len(),
    ensures
        !closes_cycle(g, fs, e),
{
    let rank = choose|rank: Seq<int>| is_decreasing_rank(g, Set::empty(), rank);
    if closes_cycle(g, fs, e) {
        let p = choose|p: Seq<int>| walk(g, kept_edges(g, fs), p, g.edges[e].to, g.edges[e].from);
        lemma_walk_rank(g, kept_edges(g, fs), rank, p, g.edges[e].to, g.edges[e].from);
        assert(!Set::<int>::empty().contains(e));
    }
}

proof fn lemma_reaches_mono(g: GraphV, a1: Set<int>, a2: Set<int>, x: int, y: int)
    requires
        reaches(g, a1, x, y),
        a1.subset_of(a2),
    ensures
        reaches(g, a2, x, y),
{
    let p = choose|p: Seq<int>| walk(g, a1, p, x, y);
    assert(walk(g, a2, p, x, y));
}

proof fn lemma_reaches_step(g: GraphV, al: Set<int>, x: int, y: int, e: int)
    requires
        reaches(g, al, x, y),
        0 <= e < g.edges.len(),
        al.contains(e),
        g.edges[e].from == y,
    ensures
        reaches(g, al, x, g.edges[e].to),
{
    let p = choose|p: Seq<int>| walk(g, al, p, x, y);
    let q = p.push(e);
    assert forall|k: int| 0 <= k < q.len() - 1 implies g.edges[#[trigger] q[k]].to == g.edges[q[k + 1]].from by {
        if k < p.len() - 1 {
            assert(q[k] == p[k] && q[k + 1] == p[k + 1]);
        } else {
            assert(q[k] == p.last());
        }
    }
    if p.len() > 0 {
        assert(q[0] == p[0]);
    }
    assert(walk(g, al, q, x, g.edges[e].to));
}

proof fn lemma_reaches_self(g: GraphV, al: Set<int>, x: int)
    ensures
        reaches(g, al, x, x),
{
    assert(walk(g, al, Seq::<int>::empty(), x, x));
}

/// What the search keeps of the edges it followed (`tree`): none is flagged,
/// each leads to a visited node, and one into a node on the path leaves from
/// a node lower on it; each node on the path reaches the ones above it
/// through them, and each flagged edge's target reaches its source.
pub open spec fn cycle_inv(g: GraphV, st: Seq<u8>, fb: Seq<bool>, stack: Seq<(usize, usize)>, tree: Set<int>) -> bool {
    &&& forall|e: int| #[trigger] tree.contains(e) ==> 0 <= e < g.edges.len() && !fb[e] && st[g.edges[e].to] != 0
    &&& forall|e: int| #[trigger] tree.contains(e) && st[g.edges[e].to] == 1 ==> exists|i: int, j: int|
        0 <= i < j < stack.len() && (#[trigger] stack[i]).0 == g.edges[e].from && (#[trigger] stack[j]).0 == g.edges[e].to
    &&& forall|e: int| 0 <= e < g.edges.len() && #[trigger] fb[e] ==> st[g.edges[e].to] != 0
    &&& forall|i: int, j: int| 0 <= i <= j < stack.len() ==> reaches(g, tree, (#[trigger] stack[i]).0 as int, (#[trigger] stack[j]).0 as int)
    &&& forall|e: int| 0 <= e < g.edges.len() && #[trigger] fb[e] ==> reaches(g, tree, g.edges[e].to, g.edges[e].from)
}

proof fn lemma_cycle_same_nodes(g: GraphV, st: Seq<u8>, fb: Seq<bool>, s0: Seq<(usize, usize)>, s1: Seq<(usize, usize)>, tree: Set<int>)
    requires
        cycle_inv(g, st, fb, s0, tree),
        s1.len() == s0.len(),
        forall|i: int| 0 <= i < s0.len() ==> (#[trigger] s1[i]).0 == s0[i].0,
    ensures
        cycle_inv(g, st, fb, s1, tree),
{
    assert forall|e: int| #[trigger] tree.contains(e) && st[g.edges[e].to] == 1 implies exists|i: int, j: int|
        0 <= i < j < s1.len() && (#[trigger] s1[i]).0 == g.edges[e].from && (#[trigger] s1[j]).0 == g.edges[e].to by {
        let (i, j) = choose|i: int, j: int|
            0 <= i < j < s0.len() && (#[trigger] s0[i]).0 == g.edges[e].from && (#[trigger] s0[j]).0 == g.edges[e].to;
        assert(s1[i].0 == s0[i].0 && s1[j].0 == s0[j].0);
    }
    assert forall|i: int, j: int| 0 <= i <= j < s1.len() implies reaches(g, tree, (#[trigger] s1[i]).0 as int, (#[trigger] s1[j]).0 as int) by {
        assert(s1[i].0 == s0[i].0 && s1[j].0 == s0[j].0);
        assert(reaches(g, tree, s0[i].0 as int, s0[j].0 as int));
    }
}

proof fn lemma_cycle_pop(g: GraphV, st0: Seq<u8>, st: Seq<u8>, fb: Seq<bool>, s0: Seq<(usize, usize)>, s: Seq<(usize, usize)>, tree: Set<int>)
    requires
        cycle_inv(g, st0, fb, s0, tree),
        s0.len() > 0,
        st0.len() == g.nodes.len(),
        0 <= s0.last().0 < st0.len(),
        forall|x: int| 0 <= x < g.edges.len() ==> 0 <= #[trigger] g.edges[x].to < g.nodes.len(),
        st == st0.update(s0.last().0 as int, 2),
        s == s0.drop_last(),
    ensures
        cycle_inv(g, st, fb, s, tree),
{
    let top = s0.len() - 1;
    let u = s0.last().0 as int;
    assert(s0[top] == s0.last());
    assert forall|e: int| #[trigger] tree.contains(e) implies 0 <= e < g.edges.len() && !fb[e] && st[g.edges[e].to] != 0 by {
        assert(st0[g.edges[e].to] != 0);
    }
    assert forall|e: int| #[trigger] tree.contains(e) && st[g.edges[e].to] == 1 implies exists|i: int, j: int|
        0 <= i < j < s.len() && (#[trigger] s[i]).0 == g.edges[e].from && (#[trigger] s[j]).0 == g.edges[e].to by {
        assert(g.edges[e].to != u);
        assert(st0[g.edges[e].to] == 1);
        let (i, j) = choose|i: int, j: int|
            0 <= i < j < s0.len() && (#[trigger] s0[i]).0 == g.edges[e].from && (#[trigger] s0[j]).0 == g.edges[e].to;
        assert(j != top);
        assert(s[i] == s0[i] && s[j] == s0[j]);
    }
    assert forall|e: int| 0 <= e < g.edges.len() && #[trigger] fb[e] implies st[g.edges[e].to] != 0 by {
        assert(st0[g.edges[e].to] != 0);
    }
    assert forall|i: int, j: int| 0 <= i <= j < s.len() implies reaches(g, tree, (#[trigger] s[i]).0 as int, (#[trigger] s[j]).0 as int) by {
        assert(s[i] == s0[i] && s[j] == s0[j]);
        assert(reaches(g, tree, s0[i].0 as int, s0[j].0 as int));
    }
}

/// Flagging the edge `e` from the top node `u` to `t`, a node on the search
/// path, keeps [`cycle_inv`].
proof fn lemma_cycle_flag(
    g: GraphV,
    adj: Seq<Vec<(usize, usize)>>,
    st: Seq<u8>,
    fb0: Seq<bool>,
    fb: Seq<bool>,
    s0: Seq<(usize, usize)>,
    fin: Seq<int>,
    c: int,
    seen: Set<int>,
    tree: Set<int>,
    e: int,
)
    requires
        dfs_inv(g, adj, st, fb0, s0, fin, c, seen),
        cycle_inv(g, st, fb0, s0, tree),
        s0.len() > 0,
        0 <= e < g.edges.len(),
        g.edges[e].from == s0.last().0,
        0 <= g.edges[e].to < g.nodes.len(),
        g.edges[e].to == s0.last().0 || st[g.edges[e].to] == 1,
        fb == fb0.update(e, true),
    ensures
        cycle_inv(g, st, fb, s0, tree),
{
    let top = s0.len() - 1;
    let u = s0.last().0 as int;
    let t = g.edges[e].to;
    assert(s0[top] == s0.last());
    assert(st[u] == 1);
    if tree.contains(e) {
        let (i, j) = choose|i: int, j: int|
            0 <= i < j < s0.len() && (#[trigger] s0[i]).0 == g.edges[e].from && (#[trigger] s0[j]).0 == g.edges[e].to;
        assert(i == top);
    }
    assert forall|x: int| 0 <= x < g.edges.len() && #[trigger] fb[x] implies st[g.edges[x].to] != 0 by {
        if x != e {
            assert(fb0[x]);
        }
    }
    assert forall|x: int| 0 <= x < g.edges.len() && #[trigger] fb[x] implies reaches(g, tree, g.edges[x].to, g.edges[x].from) by {
        if x != e {
            assert(fb0[x]);
        } else if t == u {
            lemma_reaches_self(g, tree, u);
        } else {
            let k = choose|k: int| 0 <= k < s0.len() && (#[trigger] s0[k]).0 == t;
            assert(reaches(g, tree, s0[k].0 as int, s0[top].0 as int));
        }
    }
}

/// Following the edge `e` from the top node `u` to the unvisited node `t`
/// keeps [`cycle_inv`], with `e` among the followed edges.
proof fn lemma_cycle_push(
    g: GraphV,
    st0: Seq<u8>,
    st: Seq<u8>,
    fb: Seq<bool>,
    s0: Seq<(usize, usize)>,
    s: Seq<(usize, usize)>,
    tree: Set<int>,
    e: int,
    t: usize,
    next: usize,
)
    requires
        cycle_inv(g, st0, fb, s0, tree),
        s0.len() > 0,
        st0.len() == g.nodes.len(),
        t as int == g.edges[e].to,
        forall|x: int| 0 <= x < g.edges.len() ==> 0 <= #[trigger] g.edges[x].to < g.nodes.len(),
        0 <= e < g.edges.len(),
        g.edges[e].from == s0.last().0,
        0 <= g.edges[e].to < g.nodes.len(),
        st0[g.edges[e].to] == 0,
        st == st0.update(g.edges[e].to, 1),
        s == s0.push((t, next)),
    ensures
        cycle_inv(g, st, fb, s, tree.insert(e)),
{
    let top = s0.len() - 1;
    let u = s0.last().0 as int;
    let tr = tree.insert(e);
    assert(s0[top] == s0.last());
    assert(s[top + 1].0 == t);
    assert(tree.subset_of(tr));
    assert forall|x: int| #[trigger] tr.contains(x) implies 0 <= x < g.edges.len() && !fb[x] && st[g.edges[x].to] != 0 by {
        if x != e {
            assert(st0[g.edges[x].to] != 0);
        }
    }
    assert forall|x: int| #[trigger] tr.contains(x) && st[g.edges[x].to] == 1 implies exists|i: int, j: int|
        0 <= i < j < s.len() && (#[trigger] s[i]).0 == g.edges[x].from && (#[trigger] s[j]).0 == g.edges[x].to by {
        if x == e {
            assert(s[top] == s0[top]);
            assert(s[top].0 == g.edges[x].from && s[top + 1].0 == g.edges[x].to);
        } else {
            assert(st0[g.edges[x].to] != 0);
            assert(st0[g.edges[x].to] == 1);
            let (i, j) = choose|i: int, j: int|
                0 <= i < j < s0.len() && (#[trigger] s0[i]).0 == g.edges[x].from && (#[trigger] s0[j]).0 == g.edges[x].to;
            assert(s[i] == s0[i] && s[j] == s0[j]);
        }
    }
    assert forall|x: int| 0 <= x < g.edges.len() && #[trigger] fb[x] implies st[g.edges[x].to] != 0 by {
        assert(st0[g.edges[x].to] != 0);
    }
    assert forall|i: int, j: int| 0 <= i <= j < s.len() implies reaches(g, tr, (#[trigger] s[i]).0 as int, (#[trigger] s[j]).0 as int) by {
        if j <= top {
            assert(s[i] == s0[i] && s[j] == s0[j]);
            lemma_reaches_mono(g, tree, tr, s0[i].0 as int, s0[j].0 as int);
        } else if i == j {
            lemma_reaches_self(g, tr, t as int);
        } else {
            assert(s[i] == s0[i]);
            assert(reaches(g, tree, s0[i].0 as int, s0[top].0 as int));
            lemma_reaches_mono(g, tree, tr, s0[i].0 as int, u);
            lemma_reaches_step(g, tr, s0[i].0 as int, u, e);
        }
    }
    assert forall|x: int| 0 <= x < g.edges.len() && #[trigger] fb[x] implies reaches(g, tr, g.edges[x].to, g.edges[x].from) by {
        lemma_reaches_mono(g, tree, tr, g.edges[x].to, g.edges[x].from);
    }
}

/// Depth-first search from every node in declaration order, flagging each
/// edge that points at a node still on the search path, and every self-loop.
fn feedback_flags(g: &Graph, adj: &Vec<Vec<(usize, usize)>>) -> (fb: Vec<bool>)
    requires
        g.wf(),
        adjacency_ok(g.view(), adj@),
        adjacency_complete(g.view(), adj@, g.edges@.len() as int),
        forall|u: int| 0 <= u < adj@.len() ==> (#[trigger] adj@[u])@ == out_edges(g.view(), u),
    ensures
        fb@ == dfs_flags(g.view()),
        fb@.len() == g.edges@.len(),
        acyclic_without(g.view(), flag_set(fb@)),
        forall|e: int|
            0 <= e < g.edges@.len() && (#[trigger] g.edges@[e]).from == g.edges@[e].to ==> fb@[e],
        forall|e: int| 0 <= e < g.edges@.len() && #[trigger] fb@[e] ==> closes_cycle(g.view(), flag_set(fb@), e),
{
    let ghost gv = g.view();
    let n = g.nodes.len();
    let m = g.edges.len();
    let mut st: Vec<u8> = Vec::new();
    while st.len() < n
        invariant
            st.len() <= n,
            forall|v: int| 0 <= v < st.len() ==> st@[v] == 0,
        decreases n - st.len(),
    {
        st.push(0);
    }
    let mut fb: Vec<bool> = Vec::new();
    while fb.len() < m
        invariant
            fb.len() <= m,
            forall|e: int| 0 <= e < fb.len() ==> !fb@[e],
        decreases m - fb.len(),
    {
        fb.push(false);
    }
    let mut stack: Vec<(usize, usize)> = Vec::new();
    let ghost mut fin: Seq<int> = Seq::new(n as nat, |i: int| 0int);
    let ghost mut counter: int = 0;
    let ghost mut seen: Set<int> = Set::empty();
    let ghost mut tree: Set<int> = Set::empty();
    let ghost mut used: nat = 0;
    proof {
        assert(st@ =~= dfs_init(gv).0);
        assert(fb@ =~= dfs_init(gv).1);
        assert(stack@ =~= dfs_init(gv).2);
        assert forall|x: int| 0 <= x < gv.edges.len() implies 0 <= #[trigger] gv.edges[x].to < gv.nodes.len() by {
            assert(gv.edges[x].to == g.edges@[x].to);
        }
    }
    assert(dfs_inv(gv, adj@, st@, fb@, stack@, fin, counter, seen));
    let mut root: usize = 0;
    while root < n
        invariant
            gv == g.view(),
            n == gv.nodes.len(),
            root <= n,
            dfs_inv(gv, adj@, st@, fb@, stack@, fin, counter, seen),
            cycle_inv(gv, st@, fb@, stack@, tree),
            forall|x: int| 0 <= x < gv.edges.len() ==> 0 <= #[trigger] gv.edges[x].to < gv.nodes.len(),
            stack@.len() == 0,
            forall|v: int| 0 <= v < root ==> st@[v] == 2,
            forall|v: int| 0 <= v < n ==> st@[v] != 1,
            forall|u: int| 0 <= u < adj@.len() ==> (#[trigger] adj@[u])@ == out_edges(gv, u),
            dfs_run(gv, used) == (st@, fb@, stack@, root as int),
        decreases n - root,
    {
        if st[root] == 0 {
            let ghost st0 = st@;
            let ghost s0 = stack@;
            st.set(root, 1);
            stack.push((root, 0));
            proof {
                assert(stack@ =~= seq![(root, 0usize)]);
                used = used + 1;
                assert(dfs_run(gv, used) == (st@, fb@, stack@, root + 1));
                seen = seen.insert(root as int);
                assert(grows(st0, st@, fb@, fb@));
                assert forall|v: int| 0 <= v < n implies #[trigger] finished_ok(
                    adj@,
                    st@,
                    fb@,
                    fin,
                    counter,
                    v,
                ) by {
                    lemma_finished_keep(gv, adj@, st0, st@, fb@, fb@, fin, fin, counter, counter, v);
                }
                assert(frame_ok(adj@, st@, fb@, stack@, 0));
                assert forall|v: int| 0 <= v < n && st@[v] == 1 implies exists|k: int|
                    0 <= k < stack@.len() && (#[trigger] stack@[k]).0 == v by {
                    assert(stack@[0].0 == v);
                }
                assert(dfs_inv(gv, adj@, st@, fb@, stack@, fin, counter, seen));
                assert forall|x: int| #[trigger] tree.contains(x) && st@[gv.edges[x].to] == 1 implies exists|i: int, j: int|
                    0 <= i < j < stack@.len() && (#[trigger] stack@[i]).0 == gv.edges[x].from && (#[trigger] stack@[j]).0 == gv.edges[x].to by {
                    assert(st0[gv.edges[x].to] != 0);
                    assert(st0[gv.edges[x].to] != 1);
                }
                assert forall|x: int| #[trigger] tree.contains(x) implies 0 <= x < gv.edges.len() && !fb@[x] && st@[gv.edges[x].to] != 0 by {
                    assert(st0[gv.edges[x].to] != 0);
                }
                assert forall|x: int| 0 <= x < gv.edges.len() && #[trigger] fb@[x] implies st@[gv.edges[x].to] != 0 by {
                    assert(st0[gv.edges[x].to] != 0);
                }
                assert forall|i: int, j: int| 0 <= i <= j < stack@.len() implies reaches(gv, tree, (#[trigger] stack@[i]).0 as int, (#[trigger] stack@[j]).0 as int) by {
                    lemma_reaches_self(gv, tree, root as int);
                }
                assert(cycle_inv(gv, st@, fb@, stack@, tree));
            }
            while stack.len() > 0
                invariant
                    gv == g.view(),
                    n == gv.nodes.len(),
                    root < n,
                    dfs_inv(gv, adj@, st@, fb@, stack@, fin, counter, seen),
                    cycle_inv(gv, st@, fb@, stack@, tree),
                    forall|x: int| 0 <= x < gv.edges.len() ==> 0 <= #[trigger] gv.edges[x].to < gv.nodes.len(),
                    forall|v: int| 0 <= v < root ==> st@[v] == 2,
                    st@[root as int] != 0,
                    forall|u: int| 0 <= u < adj@.len() ==> (#[trigger] adj@[u])@ == out_edges(gv, u),
                    dfs_run(gv, used) == (st@, fb@, stack@, root + 1),
                decreases n - seen.len(), stack_weight(stack@, adj@),
            {
                proof {
                    lemma_seen_bounded(seen, n as int);
                    lemma_stack_weight_positive(stack@, adj@);
                }
                let ghost st0 = st@;
                let ghost fb0 = fb@;
                let ghost s0 = stack@;
                let ghost seen0 = seen;
                let top = stack.len() - 1;
                let (u, next) = stack[top];
                assert(s0[top as int].0 == u && s0[top as int].1 == next);
                let ghost pre: DfsState = (st0, fb0, s0, root + 1);
                proof {
                    assert(s0.last() == (u, next));
                    assert(adj@[u as int]@ == out_edges(gv, u as int));
                }
                if next >= adj[u].len() {
                    st.set(u, 2);
                    let ghost fin0 = fin;
                    proof {
                        fin = fin.update(u as int, counter);
                        counter = counter + 1;
                    }
                    stack.pop();
                    proof {
                        lemma_pop_keeps(gv, adj@, st0, st@, fb@, fin0, fin, counter - 1, s0, stack@, seen);
                        lemma_cycle_pop(gv, st0, st@, fb@, s0, stack@, tree);
                        assert(stack@ =~= s0.drop_last());
                        assert(dfs_step(gv, pre) == (st@, fb@, stack@, root + 1));
                        used = used + 1;
                    }
                } else {
                    stack.set(top, (u, next + 1));
                    let (e, t) = adj[u][next];
                    let ghost s1 = stack@;
                    proof {
                        assert(s1.drop_last() =~= s0.drop_last());
                        assert(adj@[u as int]@[next as int] == (e, t));
                        assert(s1 =~= s0.update(s0.len() - 1, (u, (next + 1) as usize)));
                    }
                    if t == u || st[t] == 1 {
                        fb.set(e, true);
                        proof {
                            lemma_cycle_flag(gv, adj@, st0, fb0, fb@, s0, fin, counter, seen, tree, e as int);
                            lemma_cycle_same_nodes(gv, st@, fb@, s0, s1, tree);
                            lemma_advance_keeps(gv, adj@, st0, st@, fb0, fb@, fin, counter, s0, s1, s1, seen, seen, t);
                            assert(dfs_step(gv, pre) == (st@, fb@, stack@, root + 1));
                            used = used + 1;
                        }
                    } else if st[t] == 0 {
                        st.set(t, 1);
                        stack.push((t, 0));
                        proof {
                            lemma_cycle_same_nodes(gv, st0, fb@, s0, s1, tree);
                            lemma_cycle_push(gv, st0, st@, fb@, s1, stack@, tree, e as int, t, 0);
                            tree = tree.insert(e as int);
                            seen = seen.insert(t as int);
                            lemma_advance_keeps(gv, adj@, st0, st@, fb0, fb@, fin, counter, s0, s1, stack@, seen0, seen, t);
                            lemma_seen_bounded(seen, n as int);
                            lemma_seen_bounded(seen0, n as int);
                            assert(dfs_step(gv, pre) == (st@, fb@, stack@, root + 1));
                            used = used + 1;
                        }
                    } else {
                        proof {
                            lemma_cycle_same_nodes(gv, st@, fb@, s0, s1, tree);
                            lemma_advance_keeps(gv, adj@, st0, st@, fb0, fb@, fin, counter, s0, s1, s1, seen, seen, t);
                            assert(dfs_step(gv, pre) == (st@, fb@, stack@, root + 1));
                            used = used + 1;
                        }
                    }
                }
            }
            proof {
                assert forall|v: int| 0 <= v < n implies st@[v] != 1 by {
                    if st@[v] == 1 {
                        let k = choose|k: int| 0 <= k < stack@.len() && (#[trigger] stack@[k]).0 == v;
                    }
                }
            }
        } else {
            assert(st@[root as int] <= 2);
            proof {
                used = used + 1;
            }
        }
        root = root + 1;
    }
    proof {
        lemma_dfs_flags(gv, used);
        assert forall|i: int|
            0 <= i < gv.edges.len() && !flag_set(fb@).contains(i) implies fin[(#[trigger] gv.edges[i]).from]
            > fin[gv.edges[i].to] by {
            let u = gv.edges[i].from;
            assert(st@[u] == 2);
            assert(finished_ok(adj@, st@, fb@, fin, counter, u));
            let j = choose|j: int| 0 <= j < adj@[u]@.len() && (#[trigger] adj@[u]@[j]).0 == i;
            let (e, t) = adj@[u]@[j];
            assert(e == i);
        }
        assert(is_decreasing_rank(gv, flag_set(fb@), fin));
        assert(tree.subset_of(kept_edges(gv, flag_set(fb@))));
        assert forall|e: int| 0 <= e < g.edges@.len() && #[trigger] fb@[e] implies closes_cycle(gv, flag_set(fb@), e) by {
            lemma_reaches_mono(gv, tree, kept_edges(gv, flag_set(fb@)), gv.edges[e].to, gv.edges[e].from);
        }
        assert forall|e: int|
            0 <= e < g.edges@.len() && (#[trigger] g.edges@[e]).from == g.edges@[e].to implies fb@[e] by {
            assert(gv.edges[e] == crate::diagram::edge_view(g.edges@[e]));
            let u = gv.edges[e].from;
            assert(st@[u] == 2);
            assert(finished_ok(adj@, st@, fb@, fin, counter, u));
            let j = choose|j: int| 0 <= j < adj@[u]@.len() && (#[trigger] adj@[u]@[j]).0 == e;
            let (x, t) = adj@[u]@[j];
        }
    }
    fb
}

/// Popping a finished frame keeps the search invariant.
proof fn lemma_pop_keeps(
    g: GraphV,
    adj: Seq<Vec<(usize, usize)>>,
    st0: Seq<u8>,
    st: Seq<u8>,
    fb: Seq<bool>,
    fin0: Seq<int>,
    fin: Seq<int>,
    c0: int,
    s0: Seq<(usize, usize)>,
    s: Seq<(usize, usize)>,
    seen: Set<int>,
)
    requires
        dfs_inv(g, adj, st0, fb, s0, fin0, c0, seen),
        s0.len() > 0,
        s0.last().1 >= adj[s0.last().0 as int]@.len(),
        st == st0.update(s0.last().0 as int, 2),
        fin == fin0.update(s0.last().0 as int, c0),
        s == s0.drop_last(),
    ensures
        dfs_inv(g, adj, st, fb, s, fin, c0 + 1, seen),
        stack_weight(s, adj) < stack_weight(s0, adj),
{
    let top = s0.len() - 1;
    let u = s0.last().0 as int;
    let n = g.nodes.len();
    assert(s0[top] == s0.last());
    assert(st0[u] == 1);
    assert forall|k: int| 0 <= k < s.len() implies {
        &&& (#[trigger] s[k]).0 < n
        &&& s[k].1 <= adj[s[k].0 as int]@.len()
        &&& st[s[k].0 as int] == 1
        &&& frame_ok(adj, st, fb, s, k)
    } by {
        assert(s[k] == s0[k]);
        assert(s0[k].0 != s0[top].0);
        let (w, next) = s0[k];
        assert(frame_ok(adj, st0, fb, s0, k));
        assert forall|j: int| 0 <= j < next implies {
            let (e, t) = #[trigger] adj[w as int]@[j];
            &&& (!fb[e as int] ==> st[t as int] == 2 || exists|i: int|
                k < i < s.len() && (#[trigger] s[i]).0 == t)
            &&& (t == w ==> fb[e as int])
        } by {
            let (e, t) = adj[w as int]@[j];
            assert(t < n);
            if !fb[e as int] && st[t as int] != 2 {
                assert(st0[t as int] != 2);
                let i = choose|i: int| k < i < s0.len() && (#[trigger] s0[i]).0 == t;
                if i == top {
                    assert(t == u);
                } else {
                    assert(s[i] == s0[i]);
                }
            }
        }
    }
    assert forall|i: int, j: int| 0 <= i < j < s.len() implies (#[trigger] s[i]).0 != (#[trigger] s[j]).0 by {
        assert(s[i] == s0[i]);
        assert(s[j] == s0[j]);
    }
    assert forall|v: int| 0 <= v < n && st[v] == 1 implies exists|k: int|
        0 <= k < s.len() && (#[trigger] s[k]).0 == v by {
        assert(v != u);
        assert(st0[v] == 1);
        let k = choose|k: int| 0 <= k < s0.len() && (#[trigger] s0[k]).0 == v;
        assert(k != top);
        assert(s[k] == s0[k]);
    }
    assert(grows(st0, st, fb, fb));
    assert forall|v: int| 0 <= v < n implies #[trigger] finished_ok(adj, st, fb, fin, c0 + 1, v) by {
        if v == u {
            let next = s0[top].1;
            assert(frame_ok(adj, st0, fb, s0, top));
            assert forall|j: int| 0 <= j < adj[u]@.len() implies {
                let (e, t) = #[trigger] adj[u]@[j];
                &&& (!fb[e as int] ==> st[t as int] == 2 && fin[t as int] < fin[u])
                &&& (t == u ==> fb[e as int])
            } by {
                let (e, t) = adj[u]@[j];
                assert(j < next);
                assert(t < n);
                if !fb[e as int] {
                    assert(st0[t as int] == 2);
                    assert(finished_ok(adj, st0, fb, fin0, c0, t as int));
                }
            }
        } else {
            assert(finished_ok(adj, st0, fb, fin0, c0, v));
            lemma_finished_keep(g, adj, st0, st, fb, fb, fin0, fin, c0, c0 + 1, v);
        }
    }
    assert forall|v: int| #[trigger] seen.contains(v) <==> (0 <= v < n && st[v] != 0) by {
        if 0 <= v < n {
            if v == u {
            } else {
                assert(st[v] == st0[v]);
            }
        }
    }
    assert(s0.drop_last() == s);
}

/// Looking at the next edge of the top frame keeps the search invariant:
/// the edge is flagged (a self-loop, or a node on the search path), leads
/// to a finished node, or pushes a new frame for an unvisited node.
proof fn lemma_advance_keeps(
    g: GraphV,
    adj: Seq<Vec<(usize, usize)>>,
    st0: Seq<u8>,
    st: Seq<u8>,
    fb0: Seq<bool>,
    fb: Seq<bool>,
    fin: Seq<int>,
    c: int,
    s0: Seq<(usize, usize)>,
    s1: Seq<(usize, usize)>,
    s: Seq<(usize, usize)>,
    seen0: Set<int>,
    seen: Set<int>,
    t: usize,
)
    requires
        dfs_inv(g, adj, st0, fb0, s0, fin, c, seen0),
        s0.len() > 0,
        s0.last().1 < adj[s0.last().0 as int]@.len(),
        s1 == s0.update(s0.len() - 1, (s0.last().0, (s0.last().1 + 1) as usize)),
        adj[s0.last().0 as int]@[s0.last().1 as int].1 == t,
        ({
            let u = s0.last().0;
            let e = adj[u as int]@[s0.last().1 as int].0;
            if t == u || st0[t as int] == 1 {
                &&& fb == fb0.update(e as int, true)
                &&& st == st0
                &&& s == s1
                &&& seen == seen0
            } else if st0[t as int] == 0 {
                &&& fb == fb0
                &&& st == st0.update(t as int, 1)
                &&& s == s1.push((t, 0usize))
                &&& seen == seen0.insert(t as int)
            } else {
                &&& fb == fb0
                &&& st == st0
                &&& s == s1
                &&& seen == seen0
            }
        }),
    ensures
        dfs_inv(g, adj, st, fb, s, fin, c, seen),
        s1.drop_last() == s0.drop_last(),
        stack_weight(s1, adj) < stack_weight(s0, adj),
        st0[t as int] == 0 && t != s0.last().0 ==> !seen0.contains(t as int),
{
    let n = g.nodes.len();
    let top = s0.len() - 1;
    let u = s0.last().0;
    let next = s0.last().1;
    let e = adj[u as int]@[next as int].0;
    assert(s0[top] == s0.last());
    assert(e < g.edges.len() && t < n);
    assert(s1.drop_last() =~= s0.drop_last());
    assert(s1.last() == (u, (next + 1) as usize));
    assert(grows(st0, st, fb0, fb));
    assert forall|k: int| 0 <= k < s.len() implies {
        &&& (#[trigger] s[k]).0 < n
        &&& s[k].1 <= adj[s[k].0 as int]@.len()
        &&& st[s[k].0 as int] == 1
        &&& frame_ok(adj, st, fb, s, k)
    } by {
        if k < top {
            assert(s[k] == s0[k]);
            assert(s0[k].0 != s0[top].0);
            lemma_frame_keep(g, adj, st0, st, fb0, fb, s0, s, k);
            if st0[t as int] == 0 && t != u {
                assert(s0[k].0 != t);
            }
        } else if k == top {
            assert(s[k] == s1[k]);
            lemma_frame_keep(g, adj, st0, st, fb0, fb, s0, s, k);
            assert forall|j: int| 0 <= j < next + 1 implies {
                let (e2, t2) = #[trigger] adj[u as int]@[j];
                &&& (!fb[e2 as int] ==> st[t2 as int] == 2 || exists|i: int|
                    k < i < s.len() && (#[trigger] s[i]).0 == t2)
                &&& (t2 == u ==> fb[e2 as int])
            } by {
                if j == next {
                    if !(t == u || st0[t as int] == 1) && st0[t as int] == 0 {
                        assert(s[top + 1].0 == t);
                    }
                }
            }
        } else {
            assert(s[k] == (t, 0usize));
        }
    }
    assert forall|i: int, j: int| 0 <= i < j < s.len() implies (#[trigger] s[i]).0 != (#[trigger] s[j]).0 by {
        if j < s0.len() {
            assert(s[i].0 == s0[i].0);
            assert(s[j].0 == s0[j].0);
        } else {
            assert(st0[s0[i].0 as int] == 1);
        }
    }
    assert forall|v: int| 0 <= v < n && st[v] == 1 implies exists|k: int|
        0 <= k < s.len() && (#[trigger] s[k]).0 == v by {
        if st0[v] == 1 {
            let k = choose|k: int| 0 <= k < s0.len() && (#[trigger] s0[k]).0 == v;
            assert(s[k].0 == s0[k].0);
        } else {
            assert(s[top + 1].0 == v);
        }
    }
    assert forall|v: int| 0 <= v < n implies #[trigger] finished_ok(adj, st, fb, fin, c, v) by {
        assert(finished_ok(adj, st0, fb0, fin, c, v));
        lemma_finished_keep(g, adj, st0, st, fb0, fb, fin, fin, c, c, v);
    }
    assert forall|v: int| 0 <= v < n implies #[trigger] st[v] <= 2 by {
        assert(st0[v] <= 2);
    }
    assert forall|v: int| #[trigger] seen.contains(v) <==> (0 <= v < n && st[v] != 0) by {
        assert(seen0.contains(v) <==> (0 <= v < n && st0[v] != 0));
    }
    assert(adj[u as int]@.len() == adj[u as int].len());
    assert(s1.last().1 == next + 1);
    assert(stack_weight(s1, adj) == stack_weight(s1.drop_last(), adj) + (adj[u as int]@.len() - (
    next + 1) + 1));
    assert(stack_weight(s0, adj) == stack_weight(s0.drop_last(), adj) + (adj[u as int]@.len() - next
        + 1));
}

/// Indices of the edges that must be set aside to make the graph acyclic,
/// in increasing order.
///
/// Runs a depth-first search from every node in declaration order and reports
/// each edge that points at a node still on the search path (a back edge),
/// plus every self-loop. Removing those edges leaves a DAG, which is what the
/// layer assignment needs. The search keeps its own explicit stack, so a long
/// chain of nodes cannot overflow the call stack.
pub fn classify_feedback_edges(graph: &Graph) -> (fb: Vec<usize>)
    requires
        graph.wf(),
    ensures
        strictly_increasing(fb@),
        forall|k: int| 0 <= k < fb@.len() ==> #[trigger] fb@[k] < graph.edges@.len(),
        acyclic_without(graph.view(), index_set(fb@)),
        forall|e: int|
            0 <= e < graph.edges@.len() && (#[trigger] graph.edges@[e]).from == graph.edges@[e].to
                ==> index_set(fb@).contains(e),
        forall|e: int| #[trigger] index_set(fb@).contains(e) ==> closes_cycle(graph.view(), index_set(fb@), e),
        index_set(fb@) == flag_set(dfs_flags(graph.view())),
{
    let flags = feedback_flags_of(graph);
    let r = flagged_indices(&flags);
    proof {
        assert(index_set(r@) =~= flag_set(flags@));
    }
    r
}

/// The feedback flags of every edge; see [`classify_feedback_edges`].
pub fn feedback_flags_of(graph: &Graph) -> (fb: Vec<bool>)
    requires
        graph.wf(),
    ensures
        fb@.len() == graph.edges@.len(),
        acyclic_without(graph.view(), flag_set(fb@)),
        forall|e: int|
            0 <= e < graph.edges@.len() && (#[trigger] graph.edges@[e]).from == graph.edges@[e].to
                ==> fb@[e],
        forall|e: int| 0 <= e < graph.edges@.len() && #[trigger] fb@[e] ==> closes_cycle(graph.view(), flag_set(fb@), e),
        fb@ == dfs_flags(graph.view()),
{
    let adj = build_adjacency(graph);
    feedback_flags(graph, &adj)
}

/// The indices whose flag is set, in increasing order.
fn flagged_indices(flags: &Vec<bool>) -> (r: Vec<usize>)
    ensures
        strictly_increasing(r@),
        forall|k: int| 0 <= k < r@.len() ==> #[trigger] r@[k] < flags@.len(),
        forall|i: int| #[trigger] index_set(r@).contains(i) <==> (0 <= i < flags@.len() && flags@[i]),
{
    let mut r: Vec<usize> = Vec::new();
    let mut i: usize = 0;
    while i < flags.len()
        invariant
            i <= flags.len(),
            strictly_increasing(r@),
            forall|k: int| 0 <= k < r@.len() ==> #[trigger] r@[k] < i,
            forall|x: int| #[trigger] index_set(r@).contains(x) <==> (0 <= x < i && flags@[x]),
        decreases flags.len() - i,
    {
        if flags[i] {
            let ghost before = r@;
            r.push(i);
            proof {
                assert forall|x: int| #[trigger] index_set(r@).contains(x) <==> (0 <= x < i + 1
                    && flags@[x]) by {
                    if index_set(r@).contains(x) {
                        let k = choose|k: int| 0 <= k < r@.len() && r@[k] == x;
                        if k < before.len() {
                            assert(index_set(before).contains(x));
                        }
                    }
                    if 0 <= x < i + 1 && flags@[x] {
                        if x == i {
                            assert(r@[before.len() as int] == x);
                        } else {
                            assert(index_set(before).contains(x));
                            let k = choose|k: int| 0 <= k < before.len() && before[k] == x;
                            assert(r@[k] == x);
                        }
                    }
                }
            }
        } else {
            proof {
                assert forall|x: int| #[trigger] index_set(r@).contains(x) <==> (0 <= x < i + 1
                    && flags@[x]) by {
                    if x == i {
                        if index_set(r@).contains(x) {
                            let k = choose|k: int| 0 <= k < r@.len() && r@[k] == x;
                        }
                    }
                }
            }
        }
        i = i + 1;
    }
    r
}

// ───── layers ─────

pub open spec fn layers_view(layers: Seq<Vec<usize>>) -> Seq<Seq<usize>> {
    layers.map_values(|l: Vec<usize>| l@)
}

/// Node `v` stands in one of the layers.
pub open spec fn in_some_layer(layers: Seq<Seq<usize>>, v: int) -> bool {
    exists|l: int| 0 <= l < layers.len() && (#[trigger] layers[l]).contains(v as usize)
}

/// Every node stands in exactly one layer, once; no layer is empty.
pub open spec fn partitions(layers: Seq<Seq<usize>>, n: int) -> bool {
    &&& forall|l: int| 0 <= l < layers.len() ==> (#[trigger] layers[l]).len() > 0 && layers[l].no_duplicates()
    &&& forall|l: int, p: int| 0 <= l < layers.len() && 0 <= p < layers[l].len() ==> (#[trigger] layers[l][p]) < n
    &&& forall|v: int| 0 <= v < n ==> #[trigger] in_some_layer(layers, v)
    &&& forall|v: usize, l1: int, l2: int|
        0 <= l1 < layers.len() && 0 <= l2 < layers.len() && #[trigger] layers[l1].contains(v)
            && #[trigger] layers[l2].contains(v) ==> l1 == l2
}

/// Number of edges below `k` that are kept (not set aside), end at `v`,
/// and start at a node not yet `done`.
pub open spec fn kept_into(g: GraphV, fb: Seq<bool>, done: Seq<bool>, v: int, k: int) -> int
    decreases k,
{
    if k <= 0 {
        0
    } else {
        kept_into(g, fb, done, v, k - 1) + if !fb[k - 1] && g.edges[k - 1].to == v && !done[g.edges[k - 1].from] {
            1int
        } else {
            0
        }
    }
}

/// Number of kept edges from `u` to `v` with index in `[lo, hi)`.
pub open spec fn kept_between(g: GraphV, fb: Seq<bool>, u: int, v: int, lo: int, hi: int) -> int
    decreases hi - lo,
{
    if lo >= hi {
        0
    } else {
        (if !fb[lo] && g.edges[lo].from == u && g.edges[lo].to == v { 1int } else { 0 }) + kept_between(g, fb, u, v, lo + 1, hi)
    }
}

/// Every kept edge goes from a node placed earlier to a node placed later.
pub open spec fn respects_kept_edges(g: GraphV, fb: Seq<bool>, order: Seq<usize>) -> bool {
    forall|k: int, e: int|
        0 <= k < order.len() && 0 <= e < g.edges.len() && !fb[e] && #[trigger] g.edges[e].to == #[trigger] order[k] as int
            ==> placed_before(order, k, g.edges[e].from)
}

proof fn lemma_kept_into_mark(g: GraphV, fb: Seq<bool>, done: Seq<bool>, u: int, v: int, k: int)
    requires
        0 <= u < done.len(),
        !done[u],
        0 <= k <= g.edges.len(),
        fb.len() == g.edges.len(),
        forall|i: int| 0 <= i < g.edges.len() ==> 0 <= #[trigger] g.edges[i].from < done.len(),
    ensures
        kept_into(g, fb, done, v, k) == kept_into(g, fb, done.update(u, true), v, k) + kept_between(g, fb, u, v, 0, k),
    decreases k,
{
    if k > 0 {
        lemma_kept_into_mark(g, fb, done, u, v, k - 1);
        lemma_kept_between_split(g, fb, u, v, 0, k - 1, k);
        assert(0 <= g.edges[k - 1].from < done.len());
        assert(kept_between(g, fb, u, v, k, k) == 0);
    }
}

proof fn lemma_kept_between_split(g: GraphV, fb: Seq<bool>, u: int, v: int, lo: int, mid: int, hi: int)
    requires
        lo <= mid <= hi,
    ensures
        kept_between(g, fb, u, v, lo, hi) == kept_between(g, fb, u, v, lo, mid) + kept_between(g, fb, u, v, mid, hi),
    decreases mid - lo,
{
    if lo < mid {
        lemma_kept_between_split(g, fb, u, v, lo + 1, mid, hi);
    }
}

proof fn lemma_kept_into_zero(g: GraphV, fb: Seq<bool>, done: Seq<bool>, v: int, k: int)
    requires
        kept_into(g, fb, done, v, k) == 0,
        0 <= k <= g.edges.len(),
    ensures
        forall|e: int| 0 <= e < k && !fb[e] && #[trigger] g.edges[e].to == v ==> done[g.edges[e].from],
    decreases k,
{
    if k > 0 {
        lemma_kept_into_nonneg(g, fb, done, v, k - 1);
        lemma_kept_into_zero(g, fb, done, v, k - 1);
    }
}

proof fn lemma_kept_into_nonneg(g: GraphV, fb: Seq<bool>, done: Seq<bool>, v: int, k: int)
    ensures
        kept_into(g, fb, done, v, k) >= 0,
    decreases k,
{
    if k > 0 {
        lemma_kept_into_nonneg(g, fb, done, v, k - 1);
    }
}

proof fn lemma_kept_into_positive(g: GraphV, fb: Seq<bool>, done: Seq<bool>, v: int, k: int)
    requires
        kept_into(g, fb, done, v, k) > 0,
        0 <= k <= g.edges.len(),
    ensures
        exists|e: int| 0 <= e < k && !fb[e] && #[trigger] g.edges[e].to == v && !done[g.edges[e].from],
    decreases k,
{
    if k > 0 {
        if !fb[k - 1] && g.edges[k - 1].to == v && !done[g.edges[k - 1].from] {
            assert(0 <= k - 1 < k && !fb[k - 1] && g.edges[k - 1].to == v && !done[g.edges[k - 1].from]);
        } else {
            lemma_kept_into_positive(g, fb, done, v, k - 1);
        }
    }
}

/// With a rank that drops along every kept edge, some node not yet done has
/// no kept edge coming in from another node not yet done.
proof fn lemma_undone_source_bounded(g: GraphV, fb: Seq<bool>, done: Seq<bool>, rank: Seq<int>, w: int)
    requires
        is_decreasing_rank(g, flag_set(fb), rank),
        fb.len() == g.edges.len(),
        done.len() == g.nodes.len(),
        0 <= w < g.nodes.len(),
        !done[w],
        forall|i: int| 0 <= i < g.edges.len() ==> (#[trigger] g.edges[i]).from < g.nodes.len() && g.edges[i].to < g.nodes.len() && g.edges[i].from >= 0 && g.edges[i].to >= 0,
    ensures
        exists|v: int| 0 <= v < g.nodes.len() && !done[v] && forall|e: int|
            0 <= e < g.edges.len() && !fb[e] && #[trigger] g.edges[e].to == v ==> done[g.edges[e].from],
{
    let top = max_rank_undone(g, done, rank, g.nodes.len() as int, w);
    assert forall|e: int| 0 <= e < g.edges.len() && !fb[e] && #[trigger] g.edges[e].to == top implies done[g.edges[e].from] by {
        if !done[g.edges[e].from] {
            assert(!flag_set(fb).contains(e));
            assert(rank[g.edges[e].from] > rank[g.edges[e].to]);
            assert(rank[g.edges[e].from] <= rank[top]);
        }
    }
}

/// An undone node among the first `k` of greatest rank.
proof fn max_rank_undone(g: GraphV, done: Seq<bool>, rank: Seq<int>, k: int, w: int) -> (top: int)
    requires
        0 <= w < k <= done.len(),
        !done[w],
    ensures
        0 <= top < k,
        !done[top],
        forall|u: int| 0 <= u < k && !done[u] ==> rank[u] <= rank[top],
    decreases k,
{
    if k - 1 == w {
        if exists|u: int| 0 <= u < k - 1 && !done[u] {
            let u0 = choose|u: int| 0 <= u < k - 1 && !done[u];
            let t = max_rank_undone(g, done, rank, k - 1, u0);
            if rank[t] >= rank[w] { t } else { w }
        } else {
            w
        }
    } else {
        let t = max_rank_undone(g, done, rank, k - 1, w);
        if !done[k - 1] && rank[k - 1] > rank[t] { k - 1 } else { t }
    }
}

/// A state of Kahn's sort: each node's count of kept edges from nodes not
/// yet placed, which nodes are placed, the queue with the position of its
/// head, the order so far, and, while a node's edges are being looked at,
/// that node and the next edge.
pub type KahnState = (Seq<usize>, Seq<bool>, Seq<usize>, int, Seq<usize>, Option<(usize, int)>);

/// The nodes below `v` whose count in `d` is zero, in order.
pub open spec fn zero_queue(d: Seq<usize>, v: int) -> Seq<usize>
    decreases v,
{
    if v <= 0 {
        Seq::empty()
    } else if d[v - 1] == 0 {
        zero_queue(d, v - 1).push((v - 1) as usize)
    } else {
        zero_queue(d, v - 1)
    }
}

/// The kept edges into each node, the nodes without any queued in order.
pub open spec fn kahn_init(g: GraphV, fb: Seq<bool>) -> KahnState {
    let n = g.nodes.len();
    let d = Seq::new(n, |v: int| kept_into(g, fb, Seq::new(n, |x: int| false), v, g.edges.len() as int) as usize);
    (d, Seq::new(n, |x: int| false), zero_queue(d, n as int), 0, Seq::empty(), None)
}

/// One step of Kahn's sort. With no node under way, the head of the queue
/// is taken and, if not yet placed, placed next. Otherwise the node under
/// way looks at the next edge: a kept edge from it lowers its target's
/// count, and a target whose count reaches zero joins the queue.
pub open spec fn kahn_step(g: GraphV, fb: Seq<bool>, s: KahnState) -> KahnState {
    let (d, placed, queue, head, topo, cur) = s;
    match cur {
        None => if head >= queue.len() {
            s
        } else {
            let node = queue[head];
            if !placed[node as int] {
                (d, placed.update(node as int, true), queue, head + 1, topo.push(node), Some((node, 0)))
            } else {
                (d, placed, queue, head + 1, topo, None)
            }
        },
        Some((node, e)) => if e >= g.edges.len() {
            (d, placed, queue, head, topo, None)
        } else if !fb[e] && g.edges[e].from == node {
            let t = g.edges[e].to;
            let c: usize = if d[t] > 0 { (d[t] - 1) as usize } else { 0 };
            (d.update(t, c), placed, if c == 0 { queue.push(t as usize) } else { queue }, head, topo, Some((node, e + 1)))
        } else {
            (d, placed, queue, head, topo, Some((node, e + 1)))
        },
    }
}

/// The state after `k` steps of Kahn's sort.
pub open spec fn kahn_run(g: GraphV, fb: Seq<bool>, k: nat) -> KahnState
    decreases k,
{
    if k == 0 {
        kahn_init(g, fb)
    } else {
        kahn_step(g, fb, kahn_run(g, fb, (k - 1) as nat))
    }
}

/// The queue is used up and no node is under way.
pub open spec fn kahn_done(s: KahnState) -> bool {
    s.3 >= s.2.len() && s.5 is None
}

/// The order in which Kahn's sort places the nodes over the edges not
/// flagged in `fb`: the nodes with no kept incoming edge first, in
/// declaration order, then each node as the last of its kept parents is
/// placed, in the order their edges come.
pub open spec fn kahn_order(g: GraphV, fb: Seq<bool>) -> Seq<usize> {
    kahn_run(g, fb, choose|k: nat| kahn_done(#[trigger] kahn_run(g, fb, k))).4
}

proof fn lemma_kahn_stays_done(g: GraphV, fb: Seq<bool>, a: nat, b: nat)
    requires
        kahn_done(kahn_run(g, fb, a)),
        a <= b,
    ensures
        kahn_run(g, fb, b) == kahn_run(g, fb, a),
    decreases b - a,
{
    if b > a {
        lemma_kahn_stays_done(g, fb, a, (b - 1) as nat);
    }
}

proof fn lemma_kahn_order(g: GraphV, fb: Seq<bool>, k: nat)
    requires
        kahn_done(kahn_run(g, fb, k)),
    ensures
        kahn_order(g, fb) == kahn_run(g, fb, k).4,
{
    let k2 = choose|k2: nat| kahn_done(#[trigger] kahn_run(g, fb, k2));
    if k <= k2 {
        lemma_kahn_stays_done(g, fb, k, k2);
    } else {
        lemma_kahn_stays_done(g, fb, k2, k);
    }
}

/// Kahn's topological sort of the nodes over the edges that are not
/// flagged, starting from the nodes with no incoming edge in declaration
/// order. Nodes it cannot reach would be appended at the end, in
/// declaration order, so that every node is placed; with the flagged edges
/// leaving no cycle there are none, and every kept edge goes forward.
fn topological_order(g: &Graph, fb: &Vec<bool>) -> (topo: Vec<usize>)
    requires
        g.wf(),
        fb@.len() == g.edges@.len(),
        acyclic_without(g.view(), flag_set(fb@)),
    ensures
        is_node_order(topo@, g.nodes@.len() as int),
        respects_kept_edges(g.view(), fb@, topo@),
        topo@ == kahn_order(g.view(), fb@),
{
    let ghost gv = g.view();
    let n = g.nodes.len();
    let m = g.edges.len();
    let mut processed: Vec<bool> = Vec::new();
    while processed.len() < n
        invariant
            processed.len() <= n,
            forall|x: int| 0 <= x < processed.len() ==> !processed@[x],
        decreases n - processed.len(),
    {
        processed.push(false);
    }
    let mut in_deg: Vec<usize> = Vec::new();
    while in_deg.len() < n
        invariant
            in_deg.len() <= n,
            forall|v: int| 0 <= v < in_deg.len() ==> in_deg@[v] == 0,
        decreases n - in_deg.len(),
    {
        in_deg.push(0);
    }
    proof {
        assert forall|v: int| 0 <= v < n implies #[trigger] in_deg@[v] == kept_into(gv, fb@, processed@, v, 0) by {}
    }
    let mut i: usize = 0;
    while i < m
        invariant
            g.wf(),
            gv == g.view(),
            n == g.nodes.len(),
            m == g.edges.len(),
            fb@.len() == m,
            processed@.len() == n,
            forall|x: int| 0 <= x < n ==> !processed@[x],
            i <= m,
            in_deg@.len() == n,
            forall|v: int| 0 <= v < n ==> #[trigger] in_deg@[v] <= i,
            forall|v: int| 0 <= v < n ==> #[trigger] in_deg@[v] == kept_into(gv, fb@, processed@, v, i as int),
        decreases m - i,
    {
        proof {
            assert(gv.edges[i as int].to == g.edges@[i as int].to);
            assert(gv.edges[i as int].from < n);
        }
        if !fb[i] {
            let t = g.edges[i].to;
            in_deg.set(t, in_deg[t] + 1);
        }
        i = i + 1;
    }
    let mut queue: Vec<usize> = Vec::new();
    let mut v: usize = 0;
    while v < n
        invariant
            v <= n,
            n == g.nodes.len(),
            in_deg@.len() == n,
            forall|k: int| 0 <= k < queue@.len() ==> #[trigger] queue@[k] < n,
            forall|k: int| 0 <= k < queue@.len() ==> #[trigger] in_deg@[queue@[k] as int] == 0,
            forall|x: int| 0 <= x < v && #[trigger] in_deg@[x] == 0 ==> queue@.contains(x as usize),
            queue@ == zero_queue(in_deg@, v as int),
        decreases n - v,
    {
        let ghost q0 = queue@;
        if in_deg[v] == 0 {
            queue.push(v);
            proof {
                assert(queue@[queue@.len() - 1] == v);
            }
        }
        proof {
            assert forall|x: int| 0 <= x < v + 1 && #[trigger] in_deg@[x] == 0 implies queue@.contains(x as usize) by {
                if x < v {
                    assert(q0.contains(x as usize));
                    let k = choose|k: int| 0 <= k < q0.len() && q0[k] == x as usize;
                    assert(queue@[k] == q0[k]);
                } else {
                    assert(queue@[queue@.len() - 1] == v);
                }
            }
        }
        v = v + 1;
    }
    let mut topo: Vec<usize> = Vec::new();
    let ghost mut done: Set<int> = Set::empty();
    let mut head: usize = 0;
    let ghost mut used: nat = 0;
    proof {
        let none: Seq<bool> = Seq::new(n as nat, |x: int| false);
        assert(processed@ =~= none);
        assert(in_deg@ =~= kahn_init(gv, fb@).0);
        assert(topo@ =~= Seq::<usize>::empty());
        assert(kahn_run(gv, fb@, used) == (in_deg@, processed@, queue@, head as int, topo@, None::<(usize, int)>));
        assert(topo@.no_duplicates());
        assert forall|x: int| 0 <= x < n && #[trigger] in_deg@[x] == 0 && !processed@[x] implies queue@.subrange(head as int, queue@.len() as int).contains(x as usize) by {
            assert(queue@.contains(x as usize));
            let k = choose|k: int| 0 <= k < queue@.len() && queue@[k] == x as usize;
            assert(queue@.subrange(head as int, queue@.len() as int)[k] == x as usize);
        }
    }
    while head < queue.len()
        invariant
            g.wf(),
            gv == g.view(),
            n == g.nodes.len(),
            m == g.edges.len(),
            fb@.len() == m,
            in_deg@.len() == n,
            processed@.len() == n,
            head <= queue.len(),
            forall|k: int| 0 <= k < queue@.len() ==> #[trigger] queue@[k] < n,
            forall|k: int| head <= k < queue@.len() ==> #[trigger] in_deg@[queue@[k] as int] == 0,
            forall|x: int| 0 <= x < n && #[trigger] in_deg@[x] == 0 && !processed@[x] ==> queue@.subrange(head as int, queue@.len() as int).contains(x as usize),
            forall|v: int| 0 <= v < n ==> #[trigger] in_deg@[v] == kept_into(gv, fb@, processed@, v, m as int),
            topo@.no_duplicates(),
            forall|k: int| 0 <= k < topo@.len() ==> #[trigger] topo@[k] < n,
            forall|x: int| 0 <= x < n ==> (#[trigger] processed@[x] <==> topo@.contains(x as usize)),
            forall|x: int| #[trigger] done.contains(x) <==> (0 <= x < n && processed@[x]),
            respects_kept_edges(gv, fb@, topo@),
            kahn_run(gv, fb@, used) == (in_deg@, processed@, queue@, head as int, topo@, None::<(usize, int)>),
        decreases n - done.len(), queue.len() - head,
    {
        proof {
            lemma_seen_bounded(done, n as int);
        }
        let node = queue[head];
        let ghost q_old = queue@;
        let ghost head_old = head;
        head = head + 1;
        if !processed[node] {
            let ghost t0 = topo@;
            let ghost p0 = processed@;
            proof {
                assert(in_deg@[node as int] == 0);
                lemma_kept_into_zero(gv, fb@, p0, node as int, m as int);
            }
            processed.set(node, true);
            topo.push(node);
            proof {
                used = used + 1;
                assert(kahn_run(gv, fb@, used) == (in_deg@, processed@, queue@, head as int, topo@, Some((node, 0int))));
                done = done.insert(node as int);
                lemma_seen_bounded(done, n as int);
                assert(!t0.contains(node));
                assert forall|a: int, b: int| 0 <= a < topo@.len() && 0 <= b < topo@.len() && a != b implies topo@[a] != topo@[b] by {
                    if a < t0.len() && b < t0.len() {
                        assert(topo@[a] == t0[a] && topo@[b] == t0[b]);
                    } else if a < t0.len() {
                        assert(topo@[a] == t0[a]);
                        assert(t0.contains(t0[a]));
                    } else {
                        assert(topo@[b] == t0[b]);
                        assert(t0.contains(t0[b]));
                    }
                }
                assert forall|x: int| 0 <= x < n implies (#[trigger] processed@[x] <==> topo@.contains(x as usize)) by {
                    if topo@.contains(x as usize) && x != node {
                        let k = choose|k: int| 0 <= k < topo@.len() && topo@[k] == x as usize;
                        assert(k < t0.len());
                        assert(t0[k] == x as usize);
                    }
                    if x != node && t0.contains(x as usize) {
                        let k = choose|k: int| 0 <= k < t0.len() && t0[k] == x as usize;
                        assert(topo@[k] == x as usize);
                    }
                    if x == node {
                        assert(topo@[t0.len() as int] == node);
                    }
                }
                assert forall|k: int, e: int|
                    0 <= k < topo@.len() && 0 <= e < gv.edges.len() && !fb@[e] && #[trigger] gv.edges[e].to == #[trigger] topo@[k] as int
                        implies placed_before(topo@, k, gv.edges[e].from) by {
                    if k < t0.len() {
                        assert(topo@[k] == t0[k]);
                        assert(placed_before(t0, k, gv.edges[e].from));
                        let j = choose|j: int| 0 <= j < k && t0[j] as int == gv.edges[e].from;
                        assert(topo@[j] == t0[j]);
                    } else {
                        assert(topo@[k] == node);
                        let f = gv.edges[e].from;
                        assert(p0[f]);
                        assert(t0.contains(f as usize));
                        let j = choose|j: int| 0 <= j < t0.len() && t0[j] == f as usize;
                        assert(topo@[j] == t0[j]);
                    }
                }
                assert forall|i: int| 0 <= i < gv.edges.len() implies 0 <= #[trigger] gv.edges[i].from < p0.len() by {
                    assert(gv.edges[i].from == g.edges@[i].from);
                }
                assert forall|v: int| 0 <= v < n implies #[trigger] in_deg@[v] == kept_into(gv, fb@, processed@, v, m as int)
                    + kept_between(gv, fb@, node as int, v, 0, m as int) by {
                    assert(processed@ == p0.update(node as int, true));
                    lemma_kept_into_mark(gv, fb@, p0, node as int, v, m as int);
                }
                assert forall|x: int| 0 <= x < n && #[trigger] in_deg@[x] == 0 && !processed@[x] implies queue@.subrange(head as int, queue@.len() as int).contains(x as usize) by {
                    assert(!p0[x]);
                    let k = choose|k: int| 0 <= k < q_old.len() - head_old && q_old.subrange(head_old as int, q_old.len() as int)[k] == x as usize;
                    assert(k != 0);
                    assert(queue@.subrange(head as int, queue@.len() as int)[k - 1] == x as usize);
                }
            }
            let mut e: usize = 0;
            while e < m
                invariant
                    g.wf(),
                    gv == g.view(),
                    n == g.nodes.len(),
                    m == g.edges.len(),
                    fb@.len() == m,
                    node < n,
                    processed@.len() == n,
                    processed@[node as int],
                    in_deg@.len() == n,
                    e <= m,
                    head <= queue.len(),
                    forall|k: int| 0 <= k < queue@.len() ==> #[trigger] queue@[k] < n,
                    forall|k: int| head <= k < queue@.len() ==> #[trigger] in_deg@[queue@[k] as int] == 0,
                    forall|x: int| 0 <= x < n && #[trigger] in_deg@[x] == 0 && !processed@[x] ==> queue@.subrange(head as int, queue@.len() as int).contains(x as usize),
                    forall|v: int| 0 <= v < n ==> #[trigger] in_deg@[v] == kept_into(gv, fb@, processed@, v, m as int)
                        + kept_between(gv, fb@, node as int, v, e as int, m as int),
                    kahn_run(gv, fb@, used) == (in_deg@, processed@, queue@, head as int, topo@, Some((node, e as int))),
                decreases m - e,
            {
                let from = g.edges[e].from;
                let t = g.edges[e].to;
                proof {
                    assert(gv.edges[e as int].from == from && gv.edges[e as int].to == t);
                    assert forall|v: int| 0 <= v < n implies kept_between(gv, fb@, node as int, v, e as int, m as int)
                        == (if !fb@[e as int] && from == node && t == v { 1int } else { 0 })
                            + kept_between(gv, fb@, node as int, v, e + 1, m as int) by {}
                    lemma_kept_into_nonneg(gv, fb@, processed@, t as int, m as int);
                }
                if !fb[e] && from == node {
                    let ghost q1 = queue@;
                    let d = if in_deg[t] > 0 {
                        in_deg[t] - 1
                    } else {
                        0
                    };
                    proof {
                        lemma_kept_between_nonneg(gv, fb@, node as int, t as int, e + 1, m as int);
                        assert(in_deg@[t as int] >= 1);
                    }
                    in_deg.set(t, d);
                    if d == 0 {
                        queue.push(t);
                    }
                    proof {
                        assert forall|k: int| head <= k < queue@.len() implies #[trigger] in_deg@[queue@[k] as int] == 0 by {
                            if k < q1.len() {
                                assert(queue@[k] == q1[k]);
                                if queue@[k] == t {
                                    assert(false);
                                }
                            }
                        }
                        assert forall|x: int| 0 <= x < n && #[trigger] in_deg@[x] == 0 && !processed@[x] implies queue@.subrange(head as int, queue@.len() as int).contains(x as usize) by {
                            if x == t {
                                assert(queue@.subrange(head as int, queue@.len() as int)[queue@.len() - 1 - head] == t);
                            } else {
                                assert(q1.subrange(head as int, q1.len() as int).contains(x as usize));
                                let k = choose|k: int| 0 <= k < q1.len() - head && q1.subrange(head as int, q1.len() as int)[k] == x as usize;
                                assert(queue@.subrange(head as int, queue@.len() as int)[k] == x as usize);
                            }
                        }
                    }
                }
                proof {
                    used = used + 1;
                }
                e = e + 1;
            }
            proof {
                used = used + 1;
                assert forall|v: int| 0 <= v < n implies #[trigger] in_deg@[v] == kept_into(gv, fb@, processed@, v, m as int) by {
                    assert(kept_between(gv, fb@, node as int, v, m as int, m as int) == 0);
                }
            }
        } else {
            proof {
                used = used + 1;
                assert forall|x: int| 0 <= x < n && #[trigger] in_deg@[x] == 0 && !processed@[x] implies queue@.subrange(head as int, queue@.len() as int).contains(x as usize) by {
                    let k = choose|k: int| 0 <= k < q_old.len() - head_old && q_old.subrange(head_old as int, q_old.len() as int)[k] == x as usize;
                    assert(k != 0);
                    assert(queue@.subrange(head as int, queue@.len() as int)[k - 1] == x as usize);
                }
            }
        }
    }
    proof {
        // Every node is placed: an unplaced one would have an unplaced
        // parent, and following ranks upwards that cannot go on.
        assert forall|x: int| 0 <= x < n implies #[trigger] processed@[x] by {
            if !processed@[x] {
                let rank = choose|rank: Seq<int>| is_decreasing_rank(gv, flag_set(fb@), rank);
                assert forall|i: int| 0 <= i < gv.edges.len() implies (#[trigger] gv.edges[i]).from < gv.nodes.len() && gv.edges[i].to < gv.nodes.len() && gv.edges[i].from >= 0 && gv.edges[i].to >= 0 by {
                    assert(gv.edges[i].from == g.edges@[i].from);
                }
                lemma_undone_source_bounded(gv, fb@, processed@, rank, x);
                let v = choose|v: int| 0 <= v < gv.nodes.len() && !processed@[v] && forall|e: int|
                    0 <= e < gv.edges.len() && !fb@[e] && #[trigger] gv.edges[e].to == v ==> processed@[gv.edges[e].from];
                if in_deg@[v] > 0 {
                    lemma_kept_into_positive(gv, fb@, processed@, v, m as int);
                } else {
                    assert(queue@.subrange(head as int, queue@.len() as int).contains(v as usize));
                }
            }
        }
        assert forall|x: int| 0 <= x < n implies #[trigger] topo@.contains(x as usize) by {
            assert(processed@[x]);
        }
        lemma_distinct_in_range_len(topo@, n as int);
    }
    proof {
        lemma_kahn_order(gv, fb@, used);
    }
    topo
}

proof fn lemma_kept_between_nonneg(g: GraphV, fb: Seq<bool>, u: int, v: int, lo: int, hi: int)
    ensures
        kept_between(g, fb, u, v, lo, hi) >= 0,
    decreases hi - lo,
{
    if lo < hi {
        lemma_kept_between_nonneg(g, fb, u, v, lo + 1, hi);
    }
}

/// A list of distinct values below `n` has at most `n` entries.
proof fn lemma_distinct_in_range_len(s: Seq<usize>, n: int)
    requires
        0 <= n <= usize::MAX,
        s.no_duplicates(),
        forall|i: int| 0 <= i < s.len() ==> #[trigger] s[i] < n,
        forall|x: int| 0 <= x < n ==> #[trigger] s.contains(x as usize),
    ensures
        s.len() == n,
{
    let set = s.to_set();
    s.unique_seq_to_set();
    lemma_int_range(0, n);
    let r = set_int_range(0, n);
    let mapped = set.map(|x: usize| x as int);
    assert(mapped =~= r) by {
        assert forall|x: int| r.contains(x) implies mapped.contains(x) by {
            assert(s.contains(x as usize));
            assert(set.contains(x as usize));
            assert((x as usize) as int == x);
        }
        assert forall|x: int| mapped.contains(x) implies r.contains(x) by {
            let y = choose|y: usize| set.contains(y) && y as int == x;
            let k = choose|k: int| 0 <= k < s.len() && s[k] == y;
        }
    }
    assert(set.len() == mapped.len()) by {
        vstd::seq_lib::seq_to_set_is_finite(s);
        assert(vstd::relations::injective_on(|x: usize| x as int, set));
        vstd::set_lib::lemma_map_size(set, mapped, |x: usize| x as int);
    }
}


/// Node `v` comes among the first `k` entries of `order`.
pub open spec fn placed_before(order: Seq<usize>, k: int, v: int) -> bool {
    exists|j: int| 0 <= j < k && order[j] as int == v
}

/// Edge `e` is kept (not set aside), ends at `v`, and starts at a node placed
/// before position `k`.
pub open spec fn kept_parent_edge(g: GraphV, fb: Seq<bool>, order: Seq<usize>, k: int, v: int, e: int) -> bool {
    &&& 0 <= e < g.edges.len()
    &&& !fb[e]
    &&& g.edges[e].to == v
    &&& placed_before(order, k, g.edges[e].from)
}

/// The layer of the node at position `k` of `order` lies one below the
/// deepest of its parents placed before it, or is the first layer when it
/// has none.
pub open spec fn longest_path_layer(g: GraphV, fb: Seq<bool>, order: Seq<usize>, lay: Seq<usize>, k: int) -> bool {
    let v = order[k] as int;
    &&& forall|e: int| #[trigger] kept_parent_edge(g, fb, order, k, v, e) ==> lay[g.edges[e].from] < lay[v]
    &&& (lay[v] == 0 || exists|e: int| #[trigger] kept_parent_edge(g, fb, order, k, v, e)
        && lay[g.edges[e].from] + 1 == lay[v])
}

/// `order` lists every node once.
pub open spec fn is_node_order(order: Seq<usize>, n: int) -> bool {
    &&& order.len() == n
    &&& order.no_duplicates()
    &&& forall|i: int| 0 <= i < order.len() ==> #[trigger] order[i] < n
    &&& forall|v: int| 0 <= v < n ==> #[trigger] order.contains(v as usize)
}

/// The layers assigned so far, with 0 for a node not yet placed.
pub open spec fn placed_layers(p: Seq<Option<usize>>) -> Seq<usize> {
    p.map_values(|o: Option<usize>| match o {
        Some(l) => l,
        None => 0,
    })
}

/// Longest-path layering along `order`; see [`longest_path_layer`].
fn layer_numbers(g: &Graph, order: &Vec<usize>, fb: &Vec<bool>) -> (lay: Vec<usize>)
    requires
        g.wf(),
        fb@.len() == g.edges@.len(),
        is_node_order(order@, g.nodes@.len() as int),
    ensures
        lay@.len() == g.nodes@.len(),
        forall|v: int| 0 <= v < lay@.len() ==> #[trigger] lay@[v] < g.nodes@.len(),
        forall|k: int| 0 <= k < order@.len() ==> #[trigger] longest_path_layer(g.view(), fb@, order@, lay@, k),
{
    let ghost gv = g.view();
    let n = g.nodes.len();
    let m = g.edges.len();
    let mut placed: Vec<Option<usize>> = Vec::new();
    while placed.len() < n
        invariant
            placed.len() <= n,
            forall|v: int| 0 <= v < placed.len() ==> (#[trigger] placed@[v]) is None,
        decreases n - placed.len(),
    {
        placed.push(None);
    }
    let mut k: usize = 0;
    while k < n
        invariant
            g.wf(),
            gv == g.view(),
            n == g.nodes.len(),
            m == g.edges.len(),
            fb@.len() == m,
            is_node_order(order@, n as int),
            k <= n,
            placed@.len() == n,
            forall|v: int| 0 <= v < n ==> ((#[trigger] placed@[v]) is Some <==> placed_before(order@, k as int, v)),
            forall|v: int| 0 <= v < n && (#[trigger] placed@[v]) is Some ==> placed@[v]->0 < k,
            forall|j: int| 0 <= j < k ==> #[trigger] longest_path_layer(gv, fb@, order@,
                placed_layers(placed@), j),
        decreases n - k,
    {
        let node = order[k];
        let mut best: Option<usize> = None;
        let mut idx: usize = 0;
        while idx < m
            invariant
                g.wf(),
                gv == g.view(),
                n == g.nodes.len(),
                m == g.edges.len(),
                fb@.len() == m,
                k < n,
                node == order@[k as int],
                idx <= m,
                placed@.len() == n,
                forall|v: int| 0 <= v < n ==> ((#[trigger] placed@[v]) is Some <==> placed_before(order@, k as int, v)),
                forall|v: int| 0 <= v < n && (#[trigger] placed@[v]) is Some ==> placed@[v]->0 < k,
                best is Some ==> best->0 < k,
                best is None <==> !exists|e: int| 0 <= e < idx && #[trigger] kept_parent_edge(gv, fb@, order@, k as int, node as int, e),
                forall|e: int| 0 <= e < idx && #[trigger] kept_parent_edge(gv, fb@, order@, k as int, node as int, e)
                    ==> placed@[gv.edges[e].from]->0 <= best->0,
                best is Some ==> exists|e: int| 0 <= e < idx && #[trigger] kept_parent_edge(gv, fb@, order@, k as int, node as int, e)
                    && placed@[gv.edges[e].from]->0 == best->0,
            decreases m - idx,
        {
            let from = g.edges[idx].from;
            let to = g.edges[idx].to;
            proof {
                assert(gv.edges[idx as int].from == from && gv.edges[idx as int].to == to);
            }
            if !fb[idx] && to == node {
                match placed[from] {
                    Some(pl) => {
                        proof {
                            assert(kept_parent_edge(gv, fb@, order@, k as int, node as int, idx as int));
                        }
                        best = match best {
                            None => Some(pl),
                            Some(b) => if pl > b { Some(pl) } else { Some(b) },
                        };
                    },
                    None => {
                        proof {
                            assert(!kept_parent_edge(gv, fb@, order@, k as int, node as int, idx as int));
                        }
                    },
                }
            } else {
                proof {
                    assert(!kept_parent_edge(gv, fb@, order@, k as int, node as int, idx as int));
                }
            }
            idx = idx + 1;
        }
        let layer: usize = match best {
            None => 0,
            Some(b) => b + 1,
        };
        let ghost before = placed@;
        proof {
            assert(!placed_before(order@, k as int, node as int)) by {
                if placed_before(order@, k as int, node as int) {
                    let j = choose|j: int| 0 <= j < k && order@[j] as int == node as int;
                    assert(order@[j] == order@[k as int]);
                }
            }
        }
        placed.set(node, Some(layer));
        proof {
            let lay0 = placed_layers(before);
            let lay1 = placed_layers(placed@);
            assert forall|v: int| 0 <= v < n implies ((#[trigger] placed@[v]) is Some <==> placed_before(order@, k + 1, v)) by {
                if v == node {
                    assert(order@[k as int] as int == v);
                } else {
                    if placed_before(order@, k + 1, v) {
                        let j = choose|j: int| 0 <= j < k + 1 && order@[j] as int == v;
                        assert(j < k);
                    }
                    if placed_before(order@, k as int, v) {
                        let j = choose|j: int| 0 <= j < k && order@[j] as int == v;
                        assert(0 <= j < k + 1 && order@[j] as int == v);
                    }
                }
            }
            assert forall|j: int| 0 <= j < k + 1 implies #[trigger] longest_path_layer(gv, fb@, order@, lay1, j) by {
                if j < k {
                    assert(longest_path_layer(gv, fb@, order@, lay0, j));
                    let v = order@[j] as int;
                    assert(placed_before(order@, k as int, v));
                    assert(v != node);
                    assert(lay1[v] == lay0[v]);
                    assert forall|e: int| #[trigger] kept_parent_edge(gv, fb@, order@, j, v, e) implies lay1[gv.edges[e].from] < lay1[v] by {
                        let f = gv.edges[e].from;
                        let i = choose|i: int| 0 <= i < j && order@[i] as int == f;
                        assert(placed_before(order@, k as int, f));
                        assert(f != node);
                        assert(lay1[f] == lay0[f]);
                    }
                    if lay1[v] != 0 {
                        let e = choose|e: int| #[trigger] kept_parent_edge(gv, fb@, order@, j, v, e)
                            && lay0[gv.edges[e].from] + 1 == lay0[v];
                        let f = gv.edges[e].from;
                        let i = choose|i: int| 0 <= i < j && order@[i] as int == f;
                        assert(placed_before(order@, k as int, f));
                        assert(lay1[f] == lay0[f]);
                    }
                } else {
                    let v = node as int;
                    assert(lay1[v] == layer);
                    assert forall|e: int| #[trigger] kept_parent_edge(gv, fb@, order@, j, v, e) implies lay1[gv.edges[e].from] < lay1[v] by {
                        let f = gv.edges[e].from;
                        assert(0 <= f < n);
                        assert(placed_before(order@, k as int, f));
                        assert(f != node);
                        assert(lay1[f] == before[f]->0);
                    }
                    if lay1[v] != 0 {
                        let e = choose|e: int| 0 <= e < m && #[trigger] kept_parent_edge(gv, fb@, order@, k as int, node as int, e)
                            && before[gv.edges[e].from]->0 == best->0;
                        let f = gv.edges[e].from;
                        assert(0 <= f < n);
                        assert(f != node);
                        assert(lay1[f] == before[f]->0);
                        assert(kept_parent_edge(gv, fb@, order@, j, v, e));
                    }
                }
            }
        }
        k = k + 1;
    }
    let mut lay: Vec<usize> = Vec::new();
    let mut v: usize = 0;
    while v < n
        invariant
            n == g.nodes.len(),
            v <= n,
            placed@.len() == n,
            is_node_order(order@, n as int),
            forall|x: int| 0 <= x < n ==> ((#[trigger] placed@[x]) is Some <==> placed_before(order@, n as int, x)),
            forall|x: int| 0 <= x < n && (#[trigger] placed@[x]) is Some ==> placed@[x]->0 < n,
            lay@.len() == v,
            forall|x: int| 0 <= x < v ==> #[trigger] lay@[x] == placed@[x]->0,
        decreases n - v,
    {
        proof {
            assert(order@.contains(v as usize));
            let j = choose|j: int| 0 <= j < order@.len() && order@[j] == v as usize;
            assert(placed_before(order@, n as int, v as int));
        }
        match placed[v] {
            Some(l) => lay.push(l),
            None => lay.push(0),
        }
        v = v + 1;
    }
    proof {
        let lay1 = placed_layers(placed@);
        assert forall|x: int| 0 <= x < n implies (#[trigger] placed@[x]) is Some by {
            assert(order@.contains(x as usize));
            let j = choose|j: int| 0 <= j < order@.len() && order@[j] == x as usize;
            assert(placed_before(order@, n as int, x));
        }
        assert(lay@ =~= lay1);
        assert forall|x: int| 0 <= x < lay@.len() implies #[trigger] lay@[x] < n by {
            assert(placed@[x] is Some);
        }
    }
    lay
}


/// The nodes of a layer all have the same layer number, and the layer
/// numbers increase from one layer to the next.
pub open spec fn arranged_by(layers: Seq<Seq<usize>>, lay: Seq<usize>) -> bool {
    &&& forall|l: int, p1: int, p2: int|
        0 <= l < layers.len() && 0 <= p1 < layers[l].len() && 0 <= p2 < layers[l].len()
            ==> lay[#[trigger] layers[l][p1] as int] == lay[#[trigger] layers[l][p2] as int]
    &&& forall|l1: int, l2: int, p1: int, p2: int|
        0 <= l1 < l2 < layers.len() && 0 <= p1 < layers[l1].len() && 0 <= p2 < layers[l2].len()
            ==> lay[#[trigger] layers[l1][p1] as int] < lay[#[trigger] layers[l2][p2] as int]
}

/// `layers` groups the nodes by the longest-path layering over some
/// placement order of all nodes, skipping the layer numbers no node has.
pub open spec fn layered(g: GraphV, fb: Seq<bool>, layers: Seq<Seq<usize>>) -> bool {
    &&& partitions(layers, g.nodes.len() as int)
    &&& exists|order: Seq<usize>, lay: Seq<usize>| {
        &&& is_node_order(order, g.nodes.len() as int)
        &&& lay.len() == g.nodes.len()
        &&& (forall|k: int| 0 <= k < order.len() ==> #[trigger] longest_path_layer(g, fb, order, lay, k))
        &&& respects_kept_edges(g, fb, order)
        &&& arranged_by(layers, lay)
    }
}

fn copy_indices(v: &Vec<usize>) -> (r: Vec<usize>)
    ensures
        r@ == v@,
{
    let mut r: Vec<usize> = Vec::new();
    let mut i: usize = 0;
    while i < v.len()
        invariant
            i <= v.len(),
            r@ == v@.subrange(0, i as int),
        decreases v.len() - i,
    {
        r.push(v[i]);
        i = i + 1;
        proof {
            assert(r@ =~= v@.subrange(0, i as int));
        }
    }
    proof {
        assert(v@.subrange(0, v@.len() as int) =~= v@);
    }
    r
}

/// `x` comes before `y` in `order`.
pub open spec fn comes_before(order: Seq<usize>, x: usize, y: usize) -> bool {
    exists|i: int, j: int| 0 <= i < j < order.len() && order[i] == x && order[j] == y
}

/// Each layer lists its nodes in the order they come in `order`.
pub open spec fn layers_follow(layers: Seq<Seq<usize>>, order: Seq<usize>) -> bool {
    forall|l: int, p1: int, p2: int|
        0 <= l < layers.len() && 0 <= p1 < p2 < layers[l].len() ==> comes_before(order, #[trigger] layers[l][p1], #[trigger] layers[l][p2])
}

/// Assigns every node to a layer: longest-path layering over the edges that
/// are not set aside, taken in Kahn's topological order, with the layers
/// that no node occupies left out. Within a layer the nodes come in that
/// order.
fn assign_layers(g: &Graph, fb: &Vec<bool>) -> (layers: Vec<Vec<usize>>)
    requires
        g.wf(),
        fb@.len() == g.edges@.len(),
        acyclic_without(g.view(), flag_set(fb@)),
    ensures
        layered(g.view(), fb@, layers_view(layers@)),
        layers_follow(layers_view(layers@), kahn_order(g.view(), fb@)),
{
    let ghost gv = g.view();
    let n = g.nodes.len();
    let order = topological_order(g, fb);
    let lay = layer_numbers(g, &order, fb);
    let mut max_layer: usize = 0;
    let mut v: usize = 0;
    while v < n
        invariant
            v <= n,
            lay@.len() == n,
            n == g.nodes.len(),
            forall|x: int| 0 <= x < lay@.len() ==> #[trigger] lay@[x] < n,
            max_layer < n || n == 0,
            forall|x: int| 0 <= x < v ==> #[trigger] lay@[x] <= max_layer,
        decreases n - v,
    {
        if lay[v] > max_layer {
            max_layer = lay[v];
        }
        v = v + 1;
    }
    let mut buckets: Vec<Vec<usize>> = Vec::new();
    while buckets.len() <= max_layer
        invariant
            buckets.len() <= max_layer + 1,
            max_layer < n || n == 0,
            forall|b: int| 0 <= b < buckets.len() ==> (#[trigger] buckets@[b])@.len() == 0,
        decreases max_layer + 1 - buckets.len(),
    {
        buckets.push(Vec::new());
    }
    let mut k: usize = 0;
    while k < n
        invariant
            n == g.nodes.len(),
            is_node_order(order@, n as int),
            lay@.len() == n,
            forall|x: int| 0 <= x < n ==> #[trigger] lay@[x] <= max_layer,
            buckets.len() == max_layer + 1,
            k <= n,
            forall|b: int, p: int| 0 <= b < buckets.len() && 0 <= p < buckets@[b]@.len() ==> {
                &&& (#[trigger] buckets@[b]@[p]) < n
                &&& lay@[buckets@[b]@[p] as int] == b
                &&& placed_before(order@, k as int, buckets@[b]@[p] as int)
            },
            forall|b: int| 0 <= b < buckets.len() ==> (#[trigger] buckets@[b])@.no_duplicates(),
            forall|b: int, p1: int, p2: int| 0 <= b < buckets.len() && 0 <= p1 < p2 < buckets@[b]@.len() ==> comes_before(
                order@,
                #[trigger] buckets@[b]@[p1],
                #[trigger] buckets@[b]@[p2],
            ),
            forall|j: int| 0 <= j < k ==> buckets@[lay@[order@[j] as int] as int]@.contains(#[trigger] order@[j]),
        decreases n - k,
    {
        let node = order[k];
        let l = lay[node];
        let ghost before = buckets@;
        proof {
            assert(!before[l as int]@.contains(node)) by {
                if before[l as int]@.contains(node) {
                    let p = choose|p: int| 0 <= p < before[l as int]@.len() && before[l as int]@[p] == node;
                    assert(placed_before(order@, k as int, before[l as int]@[p] as int));
                    let j = choose|j: int| 0 <= j < k && order@[j] as int == node as int;
                    assert(order@[j] == order@[k as int]);
                }
            }
        }
        buckets[l].push(node);
        proof {
            assert(buckets@[l as int]@ == before[l as int]@.push(node));
            assert forall|b: int| 0 <= b < buckets.len() && b != l implies buckets@[b] == before[b] by {}
            assert forall|b: int, p: int| 0 <= b < buckets.len() && 0 <= p < buckets@[b]@.len() implies {
                &&& (#[trigger] buckets@[b]@[p]) < n
                &&& lay@[buckets@[b]@[p] as int] == b
                &&& placed_before(order@, k + 1, buckets@[b]@[p] as int)
            } by {
                if b == l && p == before[b]@.len() {
                    assert(buckets@[b]@[p] == node);
                    assert(order@[k as int] == node);
                } else {
                    assert(buckets@[b]@[p] == before[b]@[p]);
                    let j = choose|j: int| 0 <= j < k && order@[j] as int == before[b]@[p] as int;
                    assert(0 <= j < k + 1);
                }
            }
            assert forall|b: int, p1: int, p2: int| 0 <= b < buckets.len() && 0 <= p1 < p2 < buckets@[b]@.len() implies comes_before(
                order@,
                #[trigger] buckets@[b]@[p1],
                #[trigger] buckets@[b]@[p2],
            ) by {
                if b == l && p2 == before[b]@.len() {
                    assert(buckets@[b]@[p1] == before[b]@[p1]);
                    assert(placed_before(order@, k as int, before[b]@[p1] as int));
                    let j = choose|j: int| 0 <= j < k && order@[j] as int == before[b]@[p1] as int;
                    assert(order@[k as int] == buckets@[b]@[p2]);
                } else {
                    assert(buckets@[b]@[p1] == before[b]@[p1]);
                    assert(buckets@[b]@[p2] == before[b]@[p2]);
                }
            }
            assert forall|j: int| 0 <= j < k + 1 implies buckets@[lay@[order@[j] as int] as int]@.contains(#[trigger] order@[j]) by {
                let b = lay@[order@[j] as int] as int;
                if j == k {
                    assert(buckets@[l as int]@[before[l as int]@.len() as int] == node);
                } else {
                    assert(before[b]@.contains(order@[j]));
                    let p = choose|p: int| 0 <= p < before[b]@.len() && before[b]@[p] == order@[j];
                    assert(buckets@[b]@[p] == before[b]@[p]);
                }
            }
        }
        k = k + 1;
    }
    let mut layers: Vec<Vec<usize>> = Vec::new();
    let ghost mut idx: Seq<int> = Seq::empty();
    let mut b: usize = 0;
    while b < buckets.len()
        invariant
            b <= buckets.len(),
            idx.len() == layers.len(),
            forall|i: int| 0 <= i < idx.len() ==> 0 <= #[trigger] idx[i] < b,
            forall|i: int, j: int| 0 <= i < j < idx.len() ==> #[trigger] idx[i] < #[trigger] idx[j],
            forall|i: int| 0 <= i < idx.len() ==> (#[trigger] layers@[i])@ == buckets@[idx[i]]@,
            forall|i: int| 0 <= i < idx.len() ==> (#[trigger] layers@[i])@.len() > 0,
            forall|c: int| 0 <= c < b && (#[trigger] buckets@[c])@.len() > 0 ==> exists|i: int|
                0 <= i < idx.len() && #[trigger] idx[i] == c,
        decreases buckets.len() - b,
    {
        let ghost idx0 = idx;
        if buckets[b].len() > 0 {
            let copy = copy_indices(&buckets[b]);
            layers.push(copy);
            proof {
                let i0 = idx.len() as int;
                idx = idx.push(b as int);
                assert(idx[i0] == b);
            }
        }
        proof {
            assert forall|c: int| 0 <= c < b + 1 && (#[trigger] buckets@[c])@.len() > 0 implies exists|i: int|
                0 <= i < idx.len() && #[trigger] idx[i] == c by {
                if c < b {
                    let i = choose|i: int| 0 <= i < idx0.len() && #[trigger] idx0[i] == c;
                    assert(idx[i] == idx0[i]);
                } else {
                    assert(idx[idx0.len() as int] == c);
                }
            }
        }
        b = b + 1;
    }
    proof {
        let lv = layers_view(layers@);
        assert forall|l: int| 0 <= l < lv.len() implies lv[l] == buckets@[idx[l]]@ by {
            assert(lv[l] == layers@[l]@);
        }
        assert forall|l: int| 0 <= l < lv.len() implies (#[trigger] lv[l]).len() > 0 && lv[l].no_duplicates() by {
            assert(lv[l] == layers@[l]@);
        }
        assert forall|l: int, p: int| 0 <= l < lv.len() && 0 <= p < lv[l].len() implies (#[trigger] lv[l][p]) < n
            && lay@[lv[l][p] as int] == idx[l] by {
            assert(lv[l] == buckets@[idx[l]]@);
            assert(lv[l][p] == buckets@[idx[l]]@[p]);
        }
        assert forall|x: int| 0 <= x < n implies #[trigger] in_some_layer(lv, x) by {
            assert(order@.contains(x as usize));
            let j = choose|j: int| 0 <= j < order@.len() && order@[j] == x as usize;
            let c = lay@[x] as int;
            assert(buckets@[c]@.contains(order@[j]));
            assert(buckets@[c]@.len() > 0);
            let i = choose|i: int| 0 <= i < idx.len() && #[trigger] idx[i] == c;
            assert(lv[i] == buckets@[c]@);
            assert(lv[i].contains(x as usize));
        }
        assert forall|x: usize, l1: int, l2: int|
            0 <= l1 < lv.len() && 0 <= l2 < lv.len() && #[trigger] lv[l1].contains(x)
                && #[trigger] lv[l2].contains(x) implies l1 == l2 by {
            let p1 = choose|p: int| 0 <= p < lv[l1].len() && lv[l1][p] == x;
            let p2 = choose|p: int| 0 <= p < lv[l2].len() && lv[l2][p] == x;
            assert(lay@[lv[l1][p1] as int] == idx[l1]);
            assert(lay@[lv[l2][p2] as int] == idx[l2]);
            if l1 < l2 {
                assert(idx[l1] < idx[l2]);
            } else if l2 < l1 {
                assert(idx[l2] < idx[l1]);
            }
        }
        assert(partitions(lv, n as int));
        assert forall|l1: int, l2: int, p1: int, p2: int|
            0 <= l1 < l2 < lv.len() && 0 <= p1 < lv[l1].len() && 0 <= p2 < lv[l2].len()
                implies lay@[#[trigger] lv[l1][p1] as int] < lay@[#[trigger] lv[l2][p2] as int] by {
            assert(idx[l1] < idx[l2]);
        }
        assert(arranged_by(lv, lay@));
        assert(layered(gv, fb@, lv));
    }
    layers
}


// ───── ordering within layers ─────

/// `a <= b` for the fractions `a.0 / a.1` and `b.0 / b.1`, whose
/// denominators are positive.
pub open spec fn frac_le(a: (int, int), b: (int, int)) -> bool {
    a.0 * b.1 <= b.0 * a.1
}

proof fn lemma_frac_le_trans(a: (int, int), b: (int, int), c: (int, int))
    requires
        a.1 > 0,
        b.1 > 0,
        c.1 > 0,
        frac_le(a, b),
        frac_le(b, c),
    ensures
        frac_le(a, c),
{
    assert(a.0 * b.1 * c.1 <= b.0 * a.1 * c.1) by (nonlinear_arith)
        requires a.0 * b.1 <= b.0 * a.1, c.1 > 0;
    assert(b.0 * c.1 * a.1 <= c.0 * b.1 * a.1) by (nonlinear_arith)
        requires b.0 * c.1 <= c.0 * b.1, a.1 > 0;
    assert(a.0 * c.1 * b.1 <= c.0 * a.1 * b.1) by (nonlinear_arith)
        requires a.0 * b.1 * c.1 <= b.0 * a.1 * c.1, b.0 * c.1 * a.1 <= c.0 * b.1 * a.1;
    assert(a.0 * c.1 <= c.0 * a.1) by (nonlinear_arith)
        requires a.0 * c.1 * b.1 <= c.0 * a.1 * b.1, b.1 > 0;
}

pub open spec fn key_of(keys: Seq<(u64, u64)>, i: int) -> (int, int) {
    (keys[i].0 as int, keys[i].1 as int)
}

pub open spec fn keys_view(keys: Seq<(u64, u64)>) -> Seq<(int, int)> {
    keys.map_values(|k: (u64, u64)| (k.0 as int, k.1 as int))
}

/// `perm` lists the indices of `keys` once each, ordered by key; indices
/// with equal keys keep their relative order.
pub open spec fn stably_sorted(keys: Seq<(int, int)>, perm: Seq<usize>) -> bool {
    &&& perm.len() == keys.len()
    &&& perm.no_duplicates()
    &&& forall|a: int| 0 <= a < perm.len() ==> #[trigger] perm[a] < keys.len()
    &&& forall|a: int, b: int|
        0 <= a < b < perm.len() ==> frac_le(keys[#[trigger] perm[a] as int], keys[#[trigger] perm[b] as int])
            && (frac_le(keys[perm[b] as int], keys[perm[a] as int]) ==> perm[a] < perm[b])
}

fn frac_less(a: (u64, u64), b: (u64, u64)) -> (r: bool)
    ensures
        r == !frac_le((b.0 as int, b.1 as int), (a.0 as int, a.1 as int)),
{
    proof {
        assert((a.0 as int) * (b.1 as int) <= 0xffff_ffff_ffff_ffff_ffff_ffff_ffff_ffff) by (nonlinear_arith)
            requires a.0 <= 0xffff_ffff_ffff_ffffu64, b.1 <= 0xffff_ffff_ffff_ffffu64;
        assert((b.0 as int) * (a.1 as int) <= 0xffff_ffff_ffff_ffff_ffff_ffff_ffff_ffff) by (nonlinear_arith)
            requires b.0 <= 0xffff_ffff_ffff_ffffu64, a.1 <= 0xffff_ffff_ffff_ffffu64;
    }
    let x: u128 = (a.0 as u128) * (b.1 as u128);
    let y: u128 = (b.0 as u128) * (a.1 as u128);
    x < y
}

/// The indices of `keys` in a stable order of increasing key, found by
/// insertion.
fn stable_order(keys: &Vec<(u64, u64)>) -> (perm: Vec<usize>)
    requires
        forall|i: int| 0 <= i < keys@.len() ==> (#[trigger] keys@[i]).1 > 0,
    ensures
        stably_sorted(keys_view(keys@), perm@),
{
    let mut out: Vec<usize> = Vec::new();
    let mut i: usize = 0;
    while i < keys.len()
        invariant
            i <= keys.len(),
            forall|x: int| 0 <= x < keys@.len() ==> (#[trigger] keys@[x]).1 > 0,
            out@.len() == i,
            out@.no_duplicates(),
            forall|a: int| 0 <= a < out@.len() ==> #[trigger] out@[a] < i,
            forall|a: int, b: int|
                0 <= a < b < out@.len() ==> frac_le(key_of(keys@, #[trigger] out@[a] as int), key_of(keys@, #[trigger] out@[b] as int))
                    && (frac_le(key_of(keys@, out@[b] as int), key_of(keys@, out@[a] as int)) ==> out@[a] < out@[b]),
        decreases keys.len() - i,
    {
        let mut pos: usize = out.len();
        while pos > 0 && frac_less(keys[i], keys[out[pos - 1]])
            invariant
                i < keys.len(),
                pos <= out@.len(),
                forall|a: int| 0 <= a < out@.len() ==> #[trigger] out@[a] < i,
                forall|c: int| pos <= c < out@.len() ==> !frac_le(key_of(keys@, #[trigger] out@[c] as int), key_of(keys@, i as int)),
            decreases pos,
        {
            pos = pos - 1;
        }
        let ghost old_out = out@;
        out.insert(pos, i);
        proof {
            assert(out@ == old_out.insert(pos as int, i));
            assert forall|a: int| 0 <= a < out@.len() implies #[trigger] out@[a] < i + 1 by {
                if a < pos {
                    assert(out@[a] == old_out[a]);
                } else if a > pos {
                    assert(out@[a] == old_out[a - 1]);
                }
            }
            assert forall|a: int, b: int| 0 <= a < b < out@.len() implies out@[a] != out@[b] by {
                if a < pos {
                    assert(out@[a] == old_out[a]);
                } else if a > pos {
                    assert(out@[a] == old_out[a - 1]);
                }
                if b < pos {
                    assert(out@[b] == old_out[b]);
                } else if b > pos {
                    assert(out@[b] == old_out[b - 1]);
                }
            }
            let ki = key_of(keys@, i as int);
            assert forall|a: int, b: int|
                0 <= a < b < out@.len() implies frac_le(key_of(keys@, #[trigger] out@[a] as int), key_of(keys@, #[trigger] out@[b] as int))
                    && (frac_le(key_of(keys@, out@[b] as int), key_of(keys@, out@[a] as int)) ==> out@[a] < out@[b]) by {
                let ka = key_of(keys@, out@[a] as int);
                let kb = key_of(keys@, out@[b] as int);
                if b < pos {
                    assert(out@[a] == old_out[a] && out@[b] == old_out[b]);
                } else if a > pos {
                    assert(out@[a] == old_out[a - 1] && out@[b] == old_out[b - 1]);
                } else if a == pos {
                    assert(out@[b] == old_out[b - 1]);
                    assert(!frac_le(kb, ki));
                } else if b == pos {
                    assert(out@[a] == old_out[a]);
                    let kp = key_of(keys@, old_out[pos - 1] as int);
                    assert(frac_le(kp, ki));
                    if a < pos - 1 {
                        assert(frac_le(ka, kp));
                        lemma_frac_le_trans(ka, kp, ki);
                    }
                } else {
                    assert(out@[a] == old_out[a] && out@[b] == old_out[b - 1]);
                }
            }
        }
        i = i + 1;
    }
    proof {
        let kv = keys_view(keys@);
        assert forall|x: int| 0 <= x < keys@.len() implies kv[x] == #[trigger] key_of(keys@, x) by {}
        assert forall|a: int, b: int|
            0 <= a < b < out@.len() implies frac_le(kv[#[trigger] out@[a] as int], kv[#[trigger] out@[b] as int])
                && (frac_le(kv[out@[b] as int], kv[out@[a] as int]) ==> out@[a] < out@[b]) by {
            assert(kv[out@[a] as int] == key_of(keys@, out@[a] as int));
            assert(kv[out@[b] as int] == key_of(keys@, out@[b] as int));
        }
    }
    out
}


/// Where each node stands in `layer`, if it is there.
pub open spec fn position_map(layer: Seq<usize>, n: nat) -> Seq<Option<usize>> {
    Seq::new(n, |v: int| if layer.contains(v as usize) {
        Some((choose|p: int| 0 <= p < layer.len() && layer[p] == v as usize) as usize)
    } else {
        None
    })
}

/// The position, in the neighbouring layer, of the other end of edge `e`
/// when `e` is kept and links `v` to that layer: `v` is the target when
/// looking at parents (`forward`) and the source when looking at children.
pub open spec fn linked_pos(g: GraphV, fb: Seq<bool>, nb: Seq<Option<usize>>, forward: bool, v: int, e: int) -> Option<int> {
    let here = if forward { g.edges[e].to } else { g.edges[e].from };
    let there = if forward { g.edges[e].from } else { g.edges[e].to };
    if !fb[e] && here == v {
        match nb[there] {
            Some(p) => Some(p as int),
            None => None,
        }
    } else {
        None
    }
}

/// Sum of the linked positions over the first `upto` edges.
pub open spec fn link_sum(g: GraphV, fb: Seq<bool>, nb: Seq<Option<usize>>, forward: bool, v: int, upto: int) -> int
    decreases upto,
{
    if upto <= 0 {
        0
    } else {
        link_sum(g, fb, nb, forward, v, upto - 1) + match linked_pos(g, fb, nb, forward, v, upto - 1) {
            Some(p) => p,
            None => 0,
        }
    }
}

/// Number of linked positions over the first `upto` edges.
pub open spec fn link_count(g: GraphV, fb: Seq<bool>, nb: Seq<Option<usize>>, forward: bool, v: int, upto: int) -> int
    decreases upto,
{
    if upto <= 0 {
        0
    } else {
        link_count(g, fb, nb, forward, v, upto - 1) + if linked_pos(g, fb, nb, forward, v, upto - 1) is Some {
            1int
        } else {
            0
        }
    }
}

/// The barycenter of node `v`, standing at position `p` of its layer, as a
/// fraction: the mean position of its linked neighbours, or its own position
/// when it has none.
pub open spec fn bary_key(g: GraphV, fb: Seq<bool>, nb: Seq<Option<usize>>, forward: bool, v: int, p: int) -> (int, int) {
    let c = link_count(g, fb, nb, forward, v, g.edges.len() as int);
    if c == 0 {
        (p, 1)
    } else {
        (link_sum(g, fb, nb, forward, v, g.edges.len() as int), c)
    }
}

pub open spec fn bary_keys(g: GraphV, fb: Seq<bool>, layer: Seq<usize>, nb: Seq<Option<usize>>, forward: bool) -> Seq<(int, int)> {
    Seq::new(layer.len(), |p: int| bary_key(g, fb, nb, forward, layer[p] as int, p))
}

fn positions_in(layer: &Vec<usize>, n: usize) -> (pos: Vec<Option<usize>>)
    requires
        layer@.no_duplicates(),
        forall|p: int| 0 <= p < layer@.len() ==> #[trigger] layer@[p] < n,
    ensures
        pos@ == position_map(layer@, n as nat),
        forall|v: int| 0 <= v < n && (#[trigger] pos@[v]) is Some ==> pos@[v]->0 < layer@.len(),
{
    let mut pos: Vec<Option<usize>> = Vec::new();
    while pos.len() < n
        invariant
            pos.len() <= n,
            forall|v: int| 0 <= v < pos.len() ==> (#[trigger] pos@[v]) is None,
        decreases n - pos.len(),
    {
        pos.push(None);
    }
    let mut p: usize = 0;
    while p < layer.len()
        invariant
            layer@.no_duplicates(),
            forall|q: int| 0 <= q < layer@.len() ==> #[trigger] layer@[q] < n,
            p <= layer.len(),
            pos@.len() == n,
            forall|v: int| 0 <= v < n ==> match #[trigger] pos@[v] {
                Some(q) => q < p && layer@[q as int] == v,
                None => forall|q: int| 0 <= q < p ==> layer@[q] != v,
            },
        decreases layer.len() - p,
    {
        let v = layer[p];
        pos.set(v, Some(p));
        p = p + 1;
    }
    proof {
        let pm = position_map(layer@, n as nat);
        assert forall|v: int| 0 <= v < n implies pos@[v] == pm[v] by {
            match pos@[v] {
                Some(q) => {
                    assert(layer@[q as int] == v as usize);
                    assert(layer@.contains(v as usize));
                    let c = choose|c: int| 0 <= c < layer@.len() && layer@[c] == v as usize;
                    assert(c == q);
                },
                None => {
                    assert(!layer@.contains(v as usize));
                },
            }
        }
        assert(pos@ =~= pm);
    }
    pos
}

/// The barycenter of every node of `layer` against the neighbouring layer
/// whose positions `nb` gives.
fn barycenter_keys(g: &Graph, fb: &Vec<bool>, layer: &Vec<usize>, nb: &Vec<Option<usize>>, forward: bool) -> (keys: Vec<(u64, u64)>)
    requires
        g.wf(),
        fb@.len() == g.edges@.len(),
        nb@.len() == g.nodes@.len(),
        forall|v: int| 0 <= v < nb@.len() && (#[trigger] nb@[v]) is Some ==> nb@[v]->0 < g.nodes@.len(),
        forall|p: int| 0 <= p < layer@.len() ==> #[trigger] layer@[p] < g.nodes@.len(),
        g.nodes@.len() * g.edges@.len() <= u64::MAX,
    ensures
        keys_view(keys@) == bary_keys(g.view(), fb@, layer@, nb@, forward),
        forall|i: int| 0 <= i < keys@.len() ==> (#[trigger] keys@[i]).1 > 0,
{
    let ghost gv = g.view();
    let n = g.nodes.len();
    let m = g.edges.len();
    let mut keys: Vec<(u64, u64)> = Vec::new();
    let mut p: usize = 0;
    while p < layer.len()
        invariant
            g.wf(),
            gv == g.view(),
            n == g.nodes.len(),
            m == g.edges.len(),
            fb@.len() == m,
            nb@.len() == n,
            forall|v: int| 0 <= v < nb@.len() && (#[trigger] nb@[v]) is Some ==> nb@[v]->0 < n,
            forall|q: int| 0 <= q < layer@.len() ==> #[trigger] layer@[q] < n,
            n * m <= u64::MAX,
            p <= layer.len(),
            keys@.len() == p,
            forall|i: int| 0 <= i < p ==> keys_view(keys@)[i] == #[trigger] bary_keys(gv, fb@, layer@, nb@, forward)[i],
            forall|i: int| 0 <= i < keys@.len() ==> (#[trigger] keys@[i]).1 > 0,
        decreases layer.len() - p,
    {
        let v = layer[p];
        let mut sum: u64 = 0;
        let mut count: u64 = 0;
        let mut e: usize = 0;
        while e < m
            invariant
                g.wf(),
                gv == g.view(),
                n == g.nodes.len(),
                m == g.edges.len(),
                fb@.len() == m,
                nb@.len() == n,
                forall|x: int| 0 <= x < nb@.len() && (#[trigger] nb@[x]) is Some ==> nb@[x]->0 < n,
                n * m <= u64::MAX,
                e <= m,
                sum == link_sum(gv, fb@, nb@, forward, v as int, e as int),
                count == link_count(gv, fb@, nb@, forward, v as int, e as int),
                count <= e,
                sum <= count * n,
            decreases m - e,
        {
            let from = g.edges[e].from;
            let to = g.edges[e].to;
            proof {
                assert(gv.edges[e as int].from == from && gv.edges[e as int].to == to);
            }
            let here = if forward { to } else { from };
            let there = if forward { from } else { to };
            if !fb[e] && here == v {
                match nb[there] {
                    Some(q) => {
                        proof {
                            assert(q < n);
                            assert(sum + q <= (count + 1) * n) by (nonlinear_arith)
                                requires sum <= count * n, q < n;
                            assert((count + 1) * n <= m * n) by (nonlinear_arith)
                                requires count + 1 <= m;
                            assert(m * n == n * m) by (nonlinear_arith);
                        }
                        sum = sum + q as u64;
                        count = count + 1;
                    },
                    None => {},
                }
            }
            e = e + 1;
        }
        let key: (u64, u64) = if count == 0 {
            (p as u64, 1)
        } else {
            (sum, count)
        };
        keys.push(key);
        proof {
            let kv = keys_view(keys@);
            assert forall|i: int| 0 <= i < p + 1 implies kv[i] == #[trigger] bary_keys(gv, fb@, layer@, nb@, forward)[i] by {
                if i < p {
                    assert(kv[i] == keys_view(keys@.drop_last())[i]);
                    assert(keys@.drop_last() == keys@.subrange(0, p as int));
                }
            }
        }
        p = p + 1;
    }
    proof {
        assert(keys_view(keys@) =~= bary_keys(gv, fb@, layer@, nb@, forward));
    }
    keys
}

/// `new` holds the entries of `old` in the order that `perm` lists them.
pub open spec fn permuted(old: Seq<usize>, perm: Seq<usize>) -> Seq<usize> {
    Seq::new(perm.len(), |k: int| old[perm[k] as int])
}

/// Stable sorting has one outcome: two orders that both sort `keys`
/// stably agree up to position `a`.
proof fn lemma_stable_prefix(keys: Seq<(int, int)>, p: Seq<usize>, q: Seq<usize>, a: int)
    requires
        stably_sorted(keys, p),
        stably_sorted(keys, q),
        0 <= a < p.len(),
        forall|v: int| 0 <= v < keys.len() ==> #[trigger] p.contains(v as usize),
        forall|v: int| 0 <= v < keys.len() ==> #[trigger] q.contains(v as usize),
    ensures
        forall|b: int| 0 <= b <= a ==> #[trigger] p[b] == q[b],
    decreases a,
{
    if a > 0 {
        lemma_stable_prefix(keys, p, q, a - 1);
    }
    if p[a] != q[a] {
        let x = p[a];
        let y = q[a];
        assert(q.contains(x as usize));
        let c = choose|c: int| 0 <= c < q.len() && q[c] == x;
        assert(p.contains(y as usize));
        let d = choose|d: int| 0 <= d < p.len() && p[d] == y;
        if c < a {
            assert(p[c] == q[c]);
            assert(p[c] == p[a]);
        }
        if d < a {
            assert(p[d] == q[d]);
            assert(q[d] == q[a]);
        }
        assert(c > a && d > a);
        assert(frac_le(keys[p[a] as int], keys[p[d] as int]));
        assert(frac_le(keys[q[a] as int], keys[q[c] as int]));
    }
}

/// Two orders that both sort `keys` stably are the same.
proof fn lemma_stable_unique(keys: Seq<(int, int)>, p: Seq<usize>, q: Seq<usize>)
    requires
        stably_sorted(keys, p),
        stably_sorted(keys, q),
    ensures
        p == q,
{
    lemma_perm_covers(p, keys.len() as int);
    lemma_perm_covers(q, keys.len() as int);
    if p.len() > 0 {
        lemma_stable_prefix(keys, p, q, p.len() - 1);
    }
    assert(p =~= q);
}

/// A layer after one barycenter pass against `nb` (see [`reorder_layer`]):
/// the stable sort of its nodes by their barycenters.
pub open spec fn reordered(g: GraphV, fb: Seq<bool>, layer: Seq<usize>, nb: Seq<usize>, forward: bool) -> Seq<usize> {
    let keys = bary_keys(g, fb, layer, position_map(nb, g.nodes.len()), forward);
    permuted(layer, choose|perm: Seq<usize>| stably_sorted(keys, perm))
}

/// The forward sweep from layer `i` on: each layer sorted against the one
/// before it, as that one already stands.
pub open spec fn forward_sweep(g: GraphV, fb: Seq<bool>, ls: Seq<Seq<usize>>, i: int) -> Seq<Seq<usize>>
    decreases ls.len() - i,
{
    if 1 <= i < ls.len() {
        forward_sweep(g, fb, ls.update(i, reordered(g, fb, ls[i], ls[i - 1], true)), i + 1)
    } else {
        ls
    }
}

/// The backward sweep over the layers below `j - 1`, from the bottom up:
/// each layer sorted against the one after it.
pub open spec fn backward_sweep(g: GraphV, fb: Seq<bool>, ls: Seq<Seq<usize>>, j: int) -> Seq<Seq<usize>>
    decreases j,
{
    if 1 < j <= ls.len() {
        backward_sweep(g, fb, ls.update(j - 2, reordered(g, fb, ls[j - 2], ls[j - 1], false)), j - 1)
    } else {
        ls
    }
}

/// `r` rounds of a forward then a backward sweep.
pub open spec fn swept(g: GraphV, fb: Seq<bool>, ls: Seq<Seq<usize>>, r: int) -> Seq<Seq<usize>>
    decreases r,
{
    if r <= 0 {
        ls
    } else {
        let prev = swept(g, fb, ls, r - 1);
        backward_sweep(g, fb, forward_sweep(g, fb, prev, 1), prev.len() as int)
    }
}

/// One barycenter pass over a layer: its nodes sorted, stably, by their
/// barycenter against the neighbouring layer (the parents' layer when
/// `forward`, the children's otherwise).
fn reorder_layer(g: &Graph, fb: &Vec<bool>, layer: &Vec<usize>, nb_layer: &Vec<usize>, forward: bool) -> (new: Vec<usize>)
    requires
        g.wf(),
        fb@.len() == g.edges@.len(),
        nb_layer@.no_duplicates(),
        forall|p: int| 0 <= p < nb_layer@.len() ==> #[trigger] nb_layer@[p] < g.nodes@.len(),
        forall|p: int| 0 <= p < layer@.len() ==> #[trigger] layer@[p] < g.nodes@.len(),
        g.nodes@.len() * g.edges@.len() <= u64::MAX,
    ensures
        exists|perm: Seq<usize>| stably_sorted(
            bary_keys(g.view(), fb@, layer@, position_map(nb_layer@, g.nodes@.len()), forward),
            perm,
        ) && new@ == permuted(layer@, perm),
        new@ == reordered(g.view(), fb@, layer@, nb_layer@, forward),
{
    let nb = positions_in(nb_layer, g.nodes.len());
    proof {
        assert forall|v: int| 0 <= v < nb@.len() && (#[trigger] nb@[v]) is Some implies nb@[v]->0 < g.nodes@.len() by {
            assert(nb@[v]->0 < nb_layer@.len());
            assert(nb_layer@.len() <= g.nodes@.len()) by {
                lemma_distinct_below_len(nb_layer@, g.nodes@.len() as int);
            }
        }
    }
    let keys = barycenter_keys(g, fb, layer, &nb, forward);
    let perm = stable_order(&keys);
    let mut new: Vec<usize> = Vec::new();
    let mut k: usize = 0;
    while k < perm.len()
        invariant
            k <= perm.len(),
            perm@.len() == layer@.len(),
            forall|a: int| 0 <= a < perm@.len() ==> #[trigger] perm@[a] < layer@.len(),
            new@ == permuted(layer@, perm@.subrange(0, k as int)),
        decreases perm.len() - k,
    {
        new.push(layer[perm[k]]);
        k = k + 1;
        proof {
            assert(new@ =~= permuted(layer@, perm@.subrange(0, k as int)));
        }
    }
    proof {
        assert(perm@.subrange(0, perm@.len() as int) =~= perm@);
        let kv = bary_keys(g.view(), fb@, layer@, position_map(nb_layer@, g.nodes@.len()), forward);
        assert(stably_sorted(kv, perm@));
        let q = choose|p: Seq<usize>| stably_sorted(kv, p);
        lemma_stable_unique(kv, perm@, q);
    }
    new
}

/// A list of distinct values below `n` has at most `n` entries.
proof fn lemma_distinct_below_len(s: Seq<usize>, n: int)
    requires
        n >= 0,
        s.no_duplicates(),
        forall|i: int| 0 <= i < s.len() ==> #[trigger] s[i] < n,
    ensures
        s.len() <= n,
{
    let f = |x: usize| x as int;
    let set = s.to_set();
    s.unique_seq_to_set();
    vstd::seq_lib::seq_to_set_is_finite(s);
    let mapped = set.map(f);
    assert(vstd::relations::injective_on(f, set));
    vstd::set_lib::lemma_map_size(set, mapped, f);
    lemma_int_range(0, n);
    assert(mapped.subset_of(set_int_range(0, n))) by {
        assert forall|x: int| mapped.contains(x) implies set_int_range(0, n).contains(x) by {
            let y = choose|y: usize| set.contains(y) && f(y) == x;
            let k = choose|k: int| 0 <= k < s.len() && s[k] == y;
        }
    }
    lemma_len_subset(mapped, set_int_range(0, n));
}


/// Each layer of `a` holds the nodes of the same layer of `b`, once each.
pub open spec fn same_layers(a: Seq<Seq<usize>>, b: Seq<Seq<usize>>) -> bool {
    &&& a.len() == b.len()
    &&& forall|l: int| 0 <= l < a.len() ==> (#[trigger] a[l]).len() == b[l].len() && a[l].no_duplicates()
    &&& forall|l: int, v: usize| 0 <= l < a.len() ==> (#[trigger] a[l].contains(v) <==> b[l].contains(v))
}

/// A list of `n` distinct values below `n` takes every value below `n`.
proof fn lemma_perm_covers(perm: Seq<usize>, n: int)
    requires
        perm.len() == n,
        perm.no_duplicates(),
        forall|a: int| 0 <= a < perm.len() ==> #[trigger] perm[a] < n,
    ensures
        forall|p: int| 0 <= p < n ==> #[trigger] perm.contains(p as usize),
{
    let f = |x: usize| x as int;
    let set = perm.to_set();
    perm.unique_seq_to_set();
    vstd::seq_lib::seq_to_set_is_finite(perm);
    let mapped = set.map(f);
    assert(vstd::relations::injective_on(f, set));
    vstd::set_lib::lemma_map_size(set, mapped, f);
    lemma_int_range(0, n);
    assert(mapped.subset_of(set_int_range(0, n))) by {
        assert forall|x: int| mapped.contains(x) implies set_int_range(0, n).contains(x) by {
            let y = choose|y: usize| set.contains(y) && f(y) == x;
            let k = choose|k: int| 0 <= k < perm.len() && perm[k] == y;
        }
    }
    vstd::set_lib::lemma_subset_equality(mapped, set_int_range(0, n));
    assert forall|p: int| 0 <= p < n implies #[trigger] perm.contains(p as usize) by {
        assert(set_int_range(0, n).contains(p));
        assert(mapped.contains(p));
        let y = choose|y: usize| set.contains(y) && f(y) == p;
        assert(y == p as usize);
    }
}

proof fn lemma_permuted_same(layer: Seq<usize>, perm: Seq<usize>)
    requires
        layer.no_duplicates(),
        layer.len() <= usize::MAX,
        perm.len() == layer.len(),
        perm.no_duplicates(),
        forall|a: int| 0 <= a < perm.len() ==> #[trigger] perm[a] < layer.len(),
    ensures
        permuted(layer, perm).len() == layer.len(),
        permuted(layer, perm).no_duplicates(),
        forall|v: usize| #[trigger] permuted(layer, perm).contains(v) <==> layer.contains(v),
{
    let new = permuted(layer, perm);
    lemma_perm_covers(perm, layer.len() as int);
    assert forall|a: int, b: int| 0 <= a < new.len() && 0 <= b < new.len() && a != b implies new[a] != new[b] by {
        assert(perm[a] != perm[b]);
    }
    assert forall|v: usize| #[trigger] new.contains(v) <==> layer.contains(v) by {
        if new.contains(v) {
            let k = choose|k: int| 0 <= k < new.len() && new[k] == v;
            assert(layer[perm[k] as int] == v);
        }
        if layer.contains(v) {
            let p = choose|p: int| 0 <= p < layer.len() && layer[p] == v;
            assert(perm.contains(p as usize));
            let k = choose|k: int| 0 <= k < perm.len() && perm[k] == p as usize;
            assert((p as usize) as int == p);
            assert(new[k] == v);
        }
    }
}

proof fn lemma_same_layers_partitions(a: Seq<Seq<usize>>, b: Seq<Seq<usize>>, n: int)
    requires
        partitions(b, n),
        same_layers(a, b),
    ensures
        partitions(a, n),
{
    assert forall|l: int, p: int| 0 <= l < a.len() && 0 <= p < a[l].len() implies (#[trigger] a[l][p]) < n by {
        assert(a[l].contains(a[l][p]));
        assert(b[l].contains(a[l][p]));
    }
    assert forall|v: int| 0 <= v < n implies #[trigger] in_some_layer(a, v) by {
        assert(in_some_layer(b, v));
        let l = choose|l: int| 0 <= l < b.len() && (#[trigger] b[l]).contains(v as usize);
        assert(a[l].contains(v as usize));
    }
}

proof fn lemma_same_layers_trans(a: Seq<Seq<usize>>, b: Seq<Seq<usize>>, c: Seq<Seq<usize>>)
    requires
        same_layers(a, b),
        same_layers(b, c),
    ensures
        same_layers(a, c),
{
    assert forall|l: int, v: usize| 0 <= l < a.len() implies (#[trigger] a[l].contains(v) <==> c[l].contains(v)) by {
        assert(a[l].contains(v) <==> b[l].contains(v));
        assert(b[l].contains(v) <==> c[l].contains(v));
    }
}

/// Reduces edge crossings by the barycenter heuristic: four rounds, each a
/// pass down the layers (every layer sorted by its parents' positions) and
/// a pass back up (every layer sorted by its children's positions). Every
/// layer keeps its nodes; only their order changes.
fn order_within_layers(layers: &mut Vec<Vec<usize>>, g: &Graph, fb: &Vec<bool>)
    requires
        g.wf(),
        fb@.len() == g.edges@.len(),
        partitions(layers_view(old(layers)@), g.nodes@.len() as int),
        g.nodes@.len() * g.edges@.len() <= u64::MAX,
    ensures
        same_layers(layers_view(final(layers)@), layers_view(old(layers)@)),
        partitions(layers_view(final(layers)@), g.nodes@.len() as int),
        layers_view(final(layers)@) == swept(g.view(), fb@, layers_view(old(layers)@), 4),
{
    let ghost orig = layers_view(layers@);
    let ghost n = g.nodes@.len() as int;
    let count = layers.len();
    proof {
        assert(same_layers(orig, orig));
    }
    let mut round: usize = 0;
    while round < 4
        invariant
            g.wf(),
            fb@.len() == g.edges@.len(),
            n == g.nodes@.len(),
            g.nodes@.len() * g.edges@.len() <= u64::MAX,
            partitions(orig, n),
            layers@.len() == count,
            same_layers(layers_view(layers@), orig),
            round <= 4,
            layers_view(layers@) == swept(g.view(), fb@, orig, round as int),
        decreases 4 - round,
    {
        let ghost prev = layers_view(layers@);
        let mut i: usize = 1;
        while i < count
            invariant
                g.wf(),
                fb@.len() == g.edges@.len(),
                n == g.nodes@.len(),
                g.nodes@.len() * g.edges@.len() <= u64::MAX,
                partitions(orig, n),
                layers@.len() == count,
                same_layers(layers_view(layers@), orig),
                1 <= i,
                prev.len() == count,
                forward_sweep(g.view(), fb@, layers_view(layers@), i as int) == forward_sweep(g.view(), fb@, prev, 1),
            decreases count - i,
        {
            proof {
                lemma_same_layers_partitions(layers_view(layers@), orig, n);
                assert(layers_view(layers@)[i as int] == layers@[i as int]@);
                assert(layers_view(layers@)[i - 1] == layers@[i - 1]@);
            }
            let new = reorder_layer(g, fb, &layers[i], &layers[i - 1], true);
            let ghost before = layers_view(layers@);
            proof {
                let perm = choose|perm: Seq<usize>| stably_sorted(
                    bary_keys(g.view(), fb@, layers@[i as int]@, position_map(layers@[i - 1]@, g.nodes@.len()), true),
                    perm,
                ) && new@ == permuted(layers@[i as int]@, perm);
                assert(layers@[i as int]@.len() == layers@[i as int].len());
                lemma_permuted_same(layers@[i as int]@, perm);
            }
            layers.set(i, new);
            proof {
                assert(layers_view(layers@) =~= before.update(i as int, reordered(g.view(), fb@, before[i as int], before[i - 1], true)));
                let after = layers_view(layers@);
                assert forall|l: int| 0 <= l < after.len() implies (#[trigger] after[l]).len() == before[l].len()
                    && after[l].no_duplicates() by {
                    if l != i {
                        assert(after[l] == before[l]);
                    }
                }
                assert forall|l: int, v: usize| 0 <= l < after.len() implies (#[trigger] after[l].contains(v)
                    <==> before[l].contains(v)) by {
                    if l != i {
                        assert(after[l] == before[l]);
                    }
                }
                assert(same_layers(after, before));
                lemma_same_layers_trans(after, before, orig);
            }
            i = i + 1;
        }
        let ghost fwd = layers_view(layers@);
        proof {
            assert(fwd == forward_sweep(g.view(), fb@, prev, 1));
        }
        let mut j: usize = count;
        while j > 1
            invariant
                prev.len() == count,
                fwd == forward_sweep(g.view(), fb@, prev, 1),
                backward_sweep(g.view(), fb@, layers_view(layers@), j as int) == backward_sweep(g.view(), fb@, fwd, count as int),
                g.wf(),
                fb@.len() == g.edges@.len(),
                n == g.nodes@.len(),
                g.nodes@.len() * g.edges@.len() <= u64::MAX,
                partitions(orig, n),
                layers@.len() == count,
                same_layers(layers_view(layers@), orig),
                j <= count,
            decreases j,
        {
            let i = j - 2;
            proof {
                lemma_same_layers_partitions(layers_view(layers@), orig, n);
                assert(layers_view(layers@)[i as int] == layers@[i as int]@);
                assert(layers_view(layers@)[i + 1] == layers@[i + 1]@);
            }
            let new = reorder_layer(g, fb, &layers[i], &layers[i + 1], false);
            let ghost before = layers_view(layers@);
            proof {
                let perm = choose|perm: Seq<usize>| stably_sorted(
                    bary_keys(g.view(), fb@, layers@[i as int]@, position_map(layers@[i + 1]@, g.nodes@.len()), false),
                    perm,
                ) && new@ == permuted(layers@[i as int]@, perm);
                assert(layers@[i as int]@.len() == layers@[i as int].len());
                lemma_permuted_same(layers@[i as int]@, perm);
            }
            layers.set(i, new);
            proof {
                assert(layers_view(layers@) =~= before.update(i as int, reordered(g.view(), fb@, before[i as int], before[i + 1], false)));
                let after = layers_view(layers@);
                assert forall|l: int| 0 <= l < after.len() implies (#[trigger] after[l]).len() == before[l].len()
                    && after[l].no_duplicates() by {
                    if l != i {
                        assert(after[l] == before[l]);
                    }
                }
                assert forall|l: int, v: usize| 0 <= l < after.len() implies (#[trigger] after[l].contains(v)
                    <==> before[l].contains(v)) by {
                    if l != i {
                        assert(after[l] == before[l]);
                    }
                }
                assert(same_layers(after, before));
                lemma_same_layers_trans(after, before, orig);
            }
            j = j - 1;
        }
        proof {
            assert(layers_view(layers@) == swept(g.view(), fb@, orig, round + 1));
        }
        round = round + 1;
    }
    proof {
        lemma_same_layers_partitions(layers_view(layers@), orig, n);
    }
}


proof fn lemma_same_layers_arranged(a: Seq<Seq<usize>>, b: Seq<Seq<usize>>, lay: Seq<usize>)
    requires
        same_layers(a, b),
        arranged_by(b, lay),
    ensures
        arranged_by(a, lay),
{
    assert forall|l: int, p1: int, p2: int|
        0 <= l < a.len() && 0 <= p1 < a[l].len() && 0 <= p2 < a[l].len()
            implies lay[#[trigger] a[l][p1] as int] == lay[#[trigger] a[l][p2] as int] by {
        assert(a[l].contains(a[l][p1]) && a[l].contains(a[l][p2]));
        let q1 = choose|q: int| 0 <= q < b[l].len() && b[l][q] == a[l][p1];
        let q2 = choose|q: int| 0 <= q < b[l].len() && b[l][q] == a[l][p2];
        assert(lay[b[l][q1] as int] == lay[b[l][q2] as int]);
    }
    assert forall|l1: int, l2: int, p1: int, p2: int|
        0 <= l1 < l2 < a.len() && 0 <= p1 < a[l1].len() && 0 <= p2 < a[l2].len()
            implies lay[#[trigger] a[l1][p1] as int] < lay[#[trigger] a[l2][p2] as int] by {
        assert(a[l1].contains(a[l1][p1]) && a[l2].contains(a[l2][p2]));
        let q1 = choose|q: int| 0 <= q < b[l1].len() && b[l1][q] == a[l1][p1];
        let q2 = choose|q: int| 0 <= q < b[l2].len() && b[l2][q] == a[l2][p2];
        assert(lay[b[l1][q1] as int] < lay[b[l2][q2] as int]);
    }
}

// ───── the layout ─────

/// The result of the layering phase, shared by both renderers.
pub struct Layout {
    /// Node indices grouped by layer; each layer is ordered left to right
    /// (top-down diagrams) or top to bottom (left-right diagrams).
    pub layers: Vec<Vec<usize>>,
    /// `(layer, position within the layer)` of every node.
    pub node_pos: Vec<(usize, usize)>,
    /// The feedback edges, sorted by the number of layers they span, shortest
    /// first, then by index. Gutter lane `k` carries `feedback[k]`, so the
    /// shortest edge sits innermost and longer ones wrap around it.
    pub feedback: Vec<usize>,
    /// For every edge, whether it is a feedback edge.
    pub feedback_set: Vec<bool>,
}

/// Number of layers that edge `e` spans.
pub open spec fn edge_span(g: GraphV, node_pos: Seq<(usize, usize)>, e: int) -> int {
    let a = node_pos[g.edges[e].from].0 as int;
    let b = node_pos[g.edges[e].to].0 as int;
    if a >= b { a - b } else { b - a }
}

/// `(span, index)` of edge `a` comes strictly before that of edge `b`.
pub open spec fn span_before(g: GraphV, node_pos: Seq<(usize, usize)>, a: int, b: int) -> bool {
    edge_span(g, node_pos, a) < edge_span(g, node_pos, b)
        || (edge_span(g, node_pos, a) == edge_span(g, node_pos, b) && a < b)
}

impl Layout {
    /// The layout is one of `g`: its layers group the nodes by longest path
    /// over the edges that are not set aside, every node knows its place, the
    /// edges set aside leave no cycle and take in every self-loop, and they
    /// are listed by `(span, index)`.
    pub open spec fn wf_for(&self, g: GraphV) -> bool {
        let lv = layers_view(self.layers@);
        let np = self.node_pos@;
        let fs = self.feedback_set@;
        let f = self.feedback@;
        &&& layered(g, fs, lv)
        &&& np.len() == g.nodes.len()
        &&& forall|v: int| 0 <= v < g.nodes.len() ==> {
            let (l, p) = #[trigger] np[v];
            &&& l < lv.len()
            &&& p < lv[l as int].len()
            &&& lv[l as int][p as int] == v
        }
        &&& fs.len() == g.edges.len()
        &&& acyclic_without(g, flag_set(fs))
        &&& forall|e: int| 0 <= e < g.edges.len() && (#[trigger] g.edges[e]).from == g.edges[e].to ==> fs[e]
        &&& forall|k: int| 0 <= k < f.len() ==> #[trigger] f[k] < g.edges.len()
        &&& index_set(f) == flag_set(fs)
        &&& forall|i: int, j: int| 0 <= i < j < f.len() ==> span_before(g, np, #[trigger] f[i] as int, #[trigger] f[j] as int)
        &&& forall|e: int| 0 <= e < g.edges.len() && !fs[e] ==> np[(#[trigger] g.edges[e]).from].0 < np[g.edges[e].to].0
    }
}

impl Layout {
    /// How [`layout`] settles what [`Layout::wf_for`] leaves open: the edges
    /// set aside are those the depth-first search flags, each closing a
    /// cycle of the edges kept; the layers are those of the longest-path
    /// layering, each listing its nodes in the order of Kahn's sort, after
    /// four rounds of barycenter sweeps.
    #[verifier::opaque]
    pub open spec fn settled_for(&self, g: GraphV) -> bool {
        let fs = self.feedback_set@;
        &&& fs == dfs_flags(g)
        &&& exists|before: Seq<Seq<usize>>|
            layered(g, fs, before) && layers_follow(before, kahn_order(g, fs)) && layers_view(self.layers@)
                == #[trigger] swept(g, fs, before, 4)
        &&& forall|e: int| 0 <= e < g.edges.len() && #[trigger] fs[e] ==> closes_cycle(g, flag_set(fs), e)
    }
}

/// Once the feedback edges are set aside, every edge points to a later
/// layer.
proof fn lemma_kept_edges_go_down(g: GraphV, fb: Seq<bool>, layers: Seq<Seq<usize>>, np: Seq<(usize, usize)>)
    requires
        layered(g, fb, layers),
        fb.len() == g.edges.len(),
        g.nodes.len() <= usize::MAX,
        forall|i: int| 0 <= i < g.edges.len() ==> 0 <= (#[trigger] g.edges[i]).from < g.nodes.len() && 0 <= g.edges[i].to < g.nodes.len(),
        np.len() == g.nodes.len(),
        forall|v: int| 0 <= v < g.nodes.len() ==> {
            let (l, p) = #[trigger] np[v];
            &&& l < layers.len()
            &&& p < layers[l as int].len()
            &&& layers[l as int][p as int] == v
        },
    ensures
        forall|e: int| 0 <= e < g.edges.len() && !fb[e] ==> np[(#[trigger] g.edges[e]).from].0 < np[g.edges[e].to].0,
{
    let (order, lay) = choose|order: Seq<usize>, lay: Seq<usize>| {
        &&& is_node_order(order, g.nodes.len() as int)
        &&& lay.len() == g.nodes.len()
        &&& (forall|k: int| 0 <= k < order.len() ==> #[trigger] longest_path_layer(g, fb, order, lay, k))
        &&& respects_kept_edges(g, fb, order)
        &&& arranged_by(layers, lay)
    };
    assert forall|e: int| 0 <= e < g.edges.len() && !fb[e] implies np[(#[trigger] g.edges[e]).from].0 < np[g.edges[e].to].0 by {
        let f = g.edges[e].from;
        let t = g.edges[e].to;
        assert(order.contains(t as usize));
        let k = choose|k: int| 0 <= k < order.len() && order[k] == t as usize;
        assert((t as usize) as int == t);
        assert(g.edges[e].to == order[k] as int);
        assert(placed_before(order, k, f));
        assert(kept_parent_edge(g, fb, order, k, t, e));
        assert(longest_path_layer(g, fb, order, lay, k));
        assert(lay[f] < lay[t]);
        let (lf, pf) = np[f];
        let (lt, pt) = np[t];
        assert(layers[lf as int][pf as int] == f);
        assert(layers[lt as int][pt as int] == t);
        if lf == lt {
            assert(lay[layers[lf as int][pf as int] as int] == lay[layers[lt as int][pt as int] as int]);
        } else if lt < lf {
            assert(lay[layers[lt as int][pt as int] as int] < lay[layers[lf as int][pf as int] as int]);
        }
    }
}

fn node_positions(layers: &Vec<Vec<usize>>, n: usize) -> (np: Vec<(usize, usize)>)
    requires
        partitions(layers_view(layers@), n as int),
    ensures
        np@.len() == n,
        forall|v: int| 0 <= v < n ==> {
            let (l, p) = #[trigger] np@[v];
            &&& l < layers@.len()
            &&& p < layers@[l as int]@.len()
            &&& layers@[l as int]@[p as int] == v
        },
{
    let ghost lv = layers_view(layers@);
    let mut np: Vec<(usize, usize)> = Vec::new();
    while np.len() < n
        invariant
            np.len() <= n,
        decreases n - np.len(),
    {
        np.push((0, 0));
    }
    let mut l: usize = 0;
    while l < layers.len()
        invariant
            lv == layers_view(layers@),
            partitions(lv, n as int),
            l <= layers.len(),
            np@.len() == n,
            forall|a: int, q: int| 0 <= a < l && 0 <= q < lv[a].len() ==> #[trigger] np@[lv[a][q] as int] == (a as usize, q as usize),
        decreases layers.len() - l,
    {
        let mut p: usize = 0;
        while p < layers[l].len()
            invariant
                lv == layers_view(layers@),
                partitions(lv, n as int),
                l < layers.len(),
                p <= layers@[l as int]@.len(),
                np@.len() == n,
                forall|a: int, q: int| 0 <= a < l && 0 <= q < lv[a].len() ==> #[trigger] np@[lv[a][q] as int] == (a as usize, q as usize),
                forall|q: int| 0 <= q < p ==> #[trigger] np@[lv[l as int][q] as int] == (l, q as usize),
            decreases layers@[l as int]@.len() - p,
        {
            let v = layers[l][p];
            proof {
                assert(lv[l as int] == layers@[l as int]@);
                assert(lv[l as int][p as int] == v);
                assert(v < n);
            }
            let ghost before = np@;
            np.set(v, (l, p));
            proof {
                assert forall|a: int, q: int| 0 <= a < l && 0 <= q < lv[a].len() implies #[trigger] np@[lv[a][q] as int] == (a as usize, q as usize) by {
                    assert(lv[a].contains(lv[a][q]));
                    assert(lv[l as int].contains(v));
                    if lv[a][q] == v {
                        assert(a == l);
                    }
                }
                assert forall|q: int| 0 <= q < p + 1 implies #[trigger] np@[lv[l as int][q] as int] == (l, q as usize) by {
                    if q < p {
                        assert(lv[l as int][q] != v);
                    }
                }
            }
            p = p + 1;
        }
        l = l + 1;
    }
    proof {
        assert forall|v: int| 0 <= v < n implies {
            let (l, p) = #[trigger] np@[v];
            &&& l < layers@.len()
            &&& p < layers@[l as int]@.len()
            &&& layers@[l as int]@[p as int] == v
        } by {
            assert(in_some_layer(lv, v));
            let a = choose|a: int| 0 <= a < lv.len() && (#[trigger] lv[a]).contains(v as usize);
            let q = choose|q: int| 0 <= q < lv[a].len() && lv[a][q] == v as usize;
            assert(np@[lv[a][q] as int] == (a as usize, q as usize));
            assert(lv[a] == layers@[a]@);
            assert(layers@[a]@.len() == layers@[a].len());
            assert((a as usize) as int == a);
            assert((q as usize) as int == q);
        }
    }
    np
}

/// Computes the layout of a graph: the feedback edges, the layers over the
/// remaining edges, the barycenter order within the layers, every node's
/// place, and the feedback edges ordered by the number of layers they span
/// (shortest first, ties by index).
pub fn layout(graph: &Graph) -> (lo: Layout)
    requires
        graph.wf(),
        graph.nodes@.len() * graph.edges@.len() <= u64::MAX,
    ensures
        lo.wf_for(graph.view()),
        lo.settled_for(graph.view()),
{
    let ghost gv = graph.view();
    let n = graph.nodes.len();
    let adj = build_adjacency(graph);
    let flags = feedback_flags(graph, &adj);
    let mut layers = assign_layers(graph, &flags);
    let ghost before = layers_view(layers@);
    order_within_layers(&mut layers, graph, &flags);
    proof {
        let (order, lay) = choose|order: Seq<usize>, lay: Seq<usize>| {
            &&& is_node_order(order, gv.nodes.len() as int)
            &&& lay.len() == gv.nodes.len()
            &&& (forall|k: int| 0 <= k < order.len() ==> #[trigger] longest_path_layer(gv, flags@, order, lay, k))
            &&& respects_kept_edges(gv, flags@, order)
            &&& arranged_by(before, lay)
        };
        lemma_same_layers_arranged(layers_view(layers@), before, lay);
        assert(layered(gv, flags@, layers_view(layers@)));
        assert(layered(gv, flags@, before));
        assert(layers_view(layers@) == swept(gv, flags@, before, 4));
    }
    let node_pos = node_positions(&layers, n);
    proof {
        assert forall|i: int| 0 <= i < gv.edges.len() implies 0 <= (#[trigger] gv.edges[i]).from < gv.nodes.len() && 0 <= gv.edges[i].to < gv.nodes.len() by {
            assert(gv.edges[i].from == graph.edges@[i].from && gv.edges[i].to == graph.edges@[i].to);
        }
        let lv = layers_view(layers@);
        assert forall|v: int| 0 <= v < gv.nodes.len() implies {
            let (l, p) = #[trigger] node_pos@[v];
            &&& l < lv.len()
            &&& p < lv[l as int].len()
            &&& lv[l as int][p as int] == v
        } by {
            let (l, p) = node_pos@[v];
            assert(lv[l as int] == layers@[l as int]@);
        }
        assert(gv.nodes.len() == graph.nodes.len());
        lemma_kept_edges_go_down(gv, flags@, lv, node_pos@);
    }
    let fb = flagged_indices(&flags);
    let mut keys: Vec<(u64, u64)> = Vec::new();
    let mut k: usize = 0;
    while k < fb.len()
        invariant
            graph.wf(),
            gv == graph.view(),
            layered(gv, flags@, before),
            layers_follow(before, kahn_order(gv, flags@)),
            layers_view(layers@) == swept(gv, flags@, before, 4),
            forall|e: int| 0 <= e < gv.edges.len() && #[trigger] flags@[e] ==> closes_cycle(gv, flag_set(flags@), e),
            node_pos@.len() == graph.nodes@.len(),
            forall|v: int| 0 <= v < graph.nodes@.len() ==> (#[trigger] node_pos@[v]).0 < layers@.len(),
            forall|x: int| 0 <= x < fb@.len() ==> #[trigger] fb@[x] < flags@.len(),
            flags@.len() == graph.edges@.len(),
            k <= fb.len(),
            keys@.len() == k,
            forall|x: int| 0 <= x < k ==> #[trigger] keys@[x] == (edge_span(gv, node_pos@, fb@[x] as int) as u64, 1u64),
            forall|x: int| 0 <= x < k ==> edge_span(gv, node_pos@, fb@[x] as int) <= u64::MAX,
        decreases fb.len() - k,
    {
        let e = fb[k];
        let a = node_pos[graph.edges[e].from].0;
        let b = node_pos[graph.edges[e].to].0;
        proof {
            assert(gv.edges[e as int].from == graph.edges@[e as int].from);
            assert(gv.edges[e as int].to == graph.edges@[e as int].to);
        }
        let span = if a >= b { a - b } else { b - a };
        keys.push((span as u64, 1));
        k = k + 1;
    }
    proof {
        assert forall|x: int| 0 <= x < keys@.len() implies (#[trigger] keys@[x]).1 > 0 by {}
    }
    let perm = stable_order(&keys);
    let mut feedback: Vec<usize> = Vec::new();
    let mut k: usize = 0;
    while k < perm.len()
        invariant
            k <= perm.len(),
            layered(gv, flags@, before),
            layers_follow(before, kahn_order(gv, flags@)),
            layers_view(layers@) == swept(gv, flags@, before, 4),
            forall|e: int| 0 <= e < gv.edges.len() && #[trigger] flags@[e] ==> closes_cycle(gv, flag_set(flags@), e),
            perm@.len() == fb@.len(),
            forall|a: int| 0 <= a < perm@.len() ==> #[trigger] perm@[a] < fb@.len(),
            feedback@ == permuted(fb@, perm@.subrange(0, k as int)),
        decreases perm.len() - k,
    {
        feedback.push(fb[perm[k]]);
        k = k + 1;
        proof {
            assert(feedback@ =~= permuted(fb@, perm@.subrange(0, k as int)));
        }
    }
    proof {
        assert(perm@.subrange(0, perm@.len() as int) =~= perm@);
        let f = feedback@;
        assert(fb@.no_duplicates()) by {
            assert forall|i: int, j: int| 0 <= i < fb@.len() && 0 <= j < fb@.len() && i != j implies fb@[i] != fb@[j] by {
                if i < j {
                    assert(fb@[i] < fb@[j]);
                } else {
                    assert(fb@[j] < fb@[i]);
                }
            }
        }
        assert(fb@.len() <= usize::MAX) by {
            assert(fb@.len() == fb.len());
        }
        lemma_permuted_same(fb@, perm@);
        assert forall|i: int| #[trigger] index_set(f).contains(i) <==> index_set(fb@).contains(i) by {
            if index_set(f).contains(i) {
                let k = choose|k: int| 0 <= k < f.len() && f[k] == i;
                assert(f.contains(f[k]));
                assert(fb@.contains(f[k]));
                let j = choose|j: int| 0 <= j < fb@.len() && fb@[j] == f[k];
            }
            if index_set(fb@).contains(i) {
                let j = choose|j: int| 0 <= j < fb@.len() && fb@[j] == i;
                assert(fb@.contains(fb@[j]));
                assert(f.contains(fb@[j]));
                let k = choose|k: int| 0 <= k < f.len() && f[k] == fb@[j];
            }
        }
        assert(index_set(f) =~= flag_set(flags@));
        lemma_span_order(gv, node_pos@, fb@, perm@, keys@, f);
        assert forall|x: int| 0 <= x < f.len() implies #[trigger] f[x] < gv.edges.len() by {
            assert(f.contains(f[x]));
            assert(fb@.contains(f[x]));
        }
    }
    let lo = Layout { layers, node_pos, feedback, feedback_set: flags };
    proof {
        assert(layers_view(lo.layers@) == swept(gv, lo.feedback_set@, before, 4));
        reveal(Layout::settled_for);
        assert(lo.settled_for(gv));
    }
    lo
}


proof fn lemma_span_order(
    gv: GraphV,
    np: Seq<(usize, usize)>,
    fb: Seq<usize>,
    perm: Seq<usize>,
    keys: Seq<(u64, u64)>,
    f: Seq<usize>,
)
    requires
        strictly_increasing(fb),
        stably_sorted(keys_view(keys), perm),
        keys.len() == fb.len(),
        forall|x: int| 0 <= x < keys.len() ==> #[trigger] keys[x] == (edge_span(gv, np, fb[x] as int) as u64, 1u64),
        forall|x: int| 0 <= x < keys.len() ==> edge_span(gv, np, fb[x] as int) <= u64::MAX,
        f == permuted(fb, perm),
    ensures
        forall|i: int, j: int| 0 <= i < j < f.len() ==> span_before(gv, np, #[trigger] f[i] as int, #[trigger] f[j] as int),
{
    let kv = keys_view(keys);
    assert forall|i: int, j: int| 0 <= i < j < f.len() implies span_before(gv, np, #[trigger] f[i] as int, #[trigger] f[j] as int) by {
        let pi = perm[i] as int;
        let pj = perm[j] as int;
        assert(f[i] == fb[pi] && f[j] == fb[pj]);
        let si = edge_span(gv, np, fb[pi] as int);
        let sj = edge_span(gv, np, fb[pj] as int);
        assert(keys[pi] == (si as u64, 1u64));
        assert(keys[pj] == (sj as u64, 1u64));
        assert(edge_span(gv, np, fb[pi] as int) >= 0);
        assert(edge_span(gv, np, fb[pj] as int) >= 0);
        assert((si as u64) as int == si);
        assert((sj as u64) as int == sj);
        assert(kv[pi] == (si, 1int));
        assert(kv[pj] == (sj, 1int));
        assert(frac_le(kv[pi], kv[pj]));
        assert(si <= sj);
        if si == sj {
            assert(frac_le(kv[pj], kv[pi]));
            assert(pi < pj);
            assert(fb[pi] < fb[pj]);
        }
    }
}

// ───── feedback routing plan ─────

/// Routing decisions for one feedback edge.
#[derive(Debug, Clone, Copy, PartialEq, Eq, Structural)]
pub struct FeedbackPlan {
    /// Index into the graph's edges.
    pub edge: usize,
    /// Gutter lane, 0 = innermost.
    pub lane: usize,
    /// Rank of the source among the feedback sources in its layer, counted
    /// from the gutter side (0 = nearest the gutter). Every rank gets its own
    /// row (top-down) or gap column (left-right), so routes that share a
    /// layer neither merge nor cross.
    pub src_rank: usize,
    /// The same for the destination among the feedback targets in its layer.
    pub dst_rank: usize,
}

/// Routing decisions for all the feedback edges of one diagram.
pub struct FeedbackPlans {
    pub plans: Vec<FeedbackPlan>,
    /// Number of distinct feedback sources in each layer. The gap after a
    /// layer has to hold one row (top-down) or column (left-right) per source.
    pub exits: Vec<usize>,
    /// Number of distinct feedback targets in each layer, likewise budgeted
    /// in the gap before it.
    pub entries: Vec<usize>,
}

/// Number of set entries of `s` from index `from` on.
pub open spec fn count_true(s: Seq<bool>, from: int) -> int
    decreases s.len() - from,
{
    if from >= s.len() || from < 0 {
        0
    } else {
        (if s[from] { 1int } else { 0 }) + count_true(s, from + 1)
    }
}

/// For each position of layer `l`, whether a feedback edge starts there
/// (`source`) or ends there (otherwise).
pub open spec fn endpoint_marks(g: GraphV, lo: Layout, l: int, source: bool) -> Seq<bool> {
    Seq::new(lo.layers@[l]@.len(), |p: int| exists|k: int| 0 <= k < lo.feedback@.len() && {
        let e = g.edges[#[trigger] lo.feedback@[k] as int];
        let v = if source { e.from } else { e.to };
        lo.node_pos@[v] == (l as usize, p as usize)
    })
}

/// Number of feedback endpoints in a layer beyond position `p`, toward the
/// gutter.
pub open spec fn endpoint_rank(g: GraphV, lo: Layout, v: int, source: bool) -> int {
    let (l, p) = lo.node_pos@[v];
    count_true(endpoint_marks(g, lo, l as int, source), p + 1)
}

impl FeedbackPlans {
    /// The plans of layout `lo` of `g`: one per feedback edge, in lane order;
    /// each rank counts the other endpoints of the same kind between the
    /// endpoint and the gutter; `exits` and `entries` count the distinct
    /// endpoints per layer.
    pub open spec fn plans_for(&self, g: GraphV, lo: Layout) -> bool {
        &&& self.plans@.len() == lo.feedback@.len()
        &&& forall|k: int| 0 <= k < self.plans@.len() ==> {
            let e = lo.feedback@[k] as int;
            #[trigger] self.plans@[k] == FeedbackPlan {
                edge: e as usize,
                lane: k as usize,
                src_rank: endpoint_rank(g, lo, g.edges[e].from, true) as usize,
                dst_rank: endpoint_rank(g, lo, g.edges[e].to, false) as usize,
            }
        }
        &&& self.exits@.len() == lo.layers@.len()
        &&& self.entries@.len() == lo.layers@.len()
        &&& forall|l: int| 0 <= l < lo.layers@.len() ==> #[trigger] self.exits@[l] == count_true(endpoint_marks(g, lo, l, true), 0)
        &&& forall|l: int| 0 <= l < lo.layers@.len() ==> #[trigger] self.entries@[l] == count_true(endpoint_marks(g, lo, l, false), 0)
    }
}

proof fn lemma_count_true_bound(s: Seq<bool>, from: int)
    requires
        0 <= from <= s.len(),
    ensures
        0 <= count_true(s, from) <= s.len() - from,
    decreases s.len() - from,
{
    if from < s.len() {
        lemma_count_true_bound(s, from + 1);
    }
}

fn count_marked(marks: &Vec<bool>, from: usize) -> (c: usize)
    requires
        from <= marks@.len(),
    ensures
        c == count_true(marks@, from as int),
{
    let mut i: usize = marks.len();
    let mut c: usize = 0;
    while i > from
        invariant
            marks@.len() == marks.len(),
            from <= i <= marks@.len(),
            c == count_true(marks@, i as int),
            c <= marks@.len() - i,
        decreases i,
    {
        i = i - 1;
        if marks[i] {
            c = c + 1;
        }
    }
    c
}

/// Marks, per layer, the positions where a feedback edge starts (`source`)
/// or ends.
fn mark_endpoints(graph: &Graph, lo: &Layout, source: bool) -> (marks: Vec<Vec<bool>>)
    requires
        graph.wf(),
        lo.wf_for(graph.view()),
    ensures
        marks@.len() == lo.layers@.len(),
        forall|l: int| 0 <= l < marks@.len() ==> (#[trigger] marks@[l])@ == endpoint_marks(graph.view(), *lo, l, source),
{
    let ghost gv = graph.view();
    let mut marks: Vec<Vec<bool>> = Vec::new();
    let mut l: usize = 0;
    while l < lo.layers.len()
        invariant
            l <= lo.layers@.len(),
            marks@.len() == l,
            forall|a: int| 0 <= a < l ==> (#[trigger] marks@[a])@.len() == lo.layers@[a]@.len(),
            forall|a: int, q: int| 0 <= a < l && 0 <= q < marks@[a]@.len() ==> !#[trigger] marks@[a]@[q],
        decreases lo.layers@.len() - l,
    {
        let mut row: Vec<bool> = Vec::new();
        while row.len() < lo.layers[l].len()
            invariant
                l < lo.layers@.len(),
                row@.len() <= lo.layers@[l as int]@.len(),
                forall|q: int| 0 <= q < row@.len() ==> !#[trigger] row@[q],
            decreases lo.layers@[l as int]@.len() - row@.len(),
        {
            row.push(false);
        }
        marks.push(row);
        proof {
            assert forall|a: int, q: int| 0 <= a < l + 1 && 0 <= q < marks@[a]@.len() implies !#[trigger] marks@[a]@[q] by {
                if a < l {
                    assert(marks@[a] == marks@.drop_last()[a]);
                }
            }
        }
        l = l + 1;
    }
    let mut k: usize = 0;
    while k < lo.feedback.len()
        invariant
            graph.wf(),
            gv == graph.view(),
            lo.wf_for(gv),
            k <= lo.feedback@.len(),
            marks@.len() == lo.layers@.len(),
            forall|a: int| 0 <= a < marks@.len() ==> (#[trigger] marks@[a])@.len() == lo.layers@[a]@.len(),
            forall|a: int, q: int| 0 <= a < marks@.len() && 0 <= q < marks@[a]@.len() ==> (#[trigger] marks@[a]@[q] <==> exists|j: int| 0 <= j < k && {
                let e = gv.edges[#[trigger] lo.feedback@[j] as int];
                let v = if source { e.from } else { e.to };
                lo.node_pos@[v] == (a as usize, q as usize)
            }),
        decreases lo.feedback@.len() - k,
    {
        let e = lo.feedback[k];
        proof {
            assert(e < gv.edges.len());
            assert(gv.edges[e as int].from == graph.edges@[e as int].from);
            assert(gv.edges[e as int].to == graph.edges@[e as int].to);
        }
        let v = if source { graph.edges[e].from } else { graph.edges[e].to };
        let (a, q) = lo.node_pos[v];
        let ghost before = marks@;
        proof {
            assert(lo.node_pos@[v as int] == (a, q));
            assert(a < lo.layers@.len() && q < lo.layers@[a as int]@.len());
        }
        let mut row = copy_marks(&marks[a]);
        row.set(q, true);
        marks.set(a, row);
        proof {
            assert forall|b: int, r: int| 0 <= b < marks@.len() && 0 <= r < marks@[b]@.len() implies (#[trigger] marks@[b]@[r] <==> exists|j: int| 0 <= j < k + 1 && {
                let e = gv.edges[#[trigger] lo.feedback@[j] as int];
                let v = if source { e.from } else { e.to };
                lo.node_pos@[v] == (b as usize, r as usize)
            }) by {
                assert(marks@.len() == marks.len());
                assert(b <= usize::MAX);
                assert((b as usize) as int == b);
                assert(marks@[b]@.len() == marks@[b].len());
                assert(r <= usize::MAX);
                assert((r as usize) as int == r);
                let hit = exists|j: int| 0 <= j < k && {
                    let e = gv.edges[#[trigger] lo.feedback@[j] as int];
                    let v = if source { e.from } else { e.to };
                    lo.node_pos@[v] == (b as usize, r as usize)
                };
                let hit1 = exists|j: int| 0 <= j < k + 1 && {
                    let e = gv.edges[#[trigger] lo.feedback@[j] as int];
                    let v = if source { e.from } else { e.to };
                    lo.node_pos@[v] == (b as usize, r as usize)
                };
                if hit {
                    let j = choose|j: int| 0 <= j < k && {
                        let e = gv.edges[#[trigger] lo.feedback@[j] as int];
                        let v = if source { e.from } else { e.to };
                        lo.node_pos@[v] == (b as usize, r as usize)
                    };
                    assert(0 <= j < k + 1);
                    assert(hit1);
                }
                if b == a && r == q {
                    assert(lo.feedback@[k as int] == e);
                    assert(hit1);
                    assert(marks@[b]@[r]);
                } else {
                    if b != a {
                        assert(marks@[b] == before[b]);
                    } else {
                        assert(marks@[b]@[r] == before[b]@[r]);
                    }
                    assert(before[b]@[r] == hit);
                    if hit1 {
                        let j = choose|j: int| 0 <= j < k + 1 && {
                            let e = gv.edges[#[trigger] lo.feedback@[j] as int];
                            let v = if source { e.from } else { e.to };
                            lo.node_pos@[v] == (b as usize, r as usize)
                        };
                        if j == k {
                            assert(lo.feedback@[j] == e);
                            assert(false);
                        }
                        assert(hit);
                    }
                }
            }
            assert forall|a2: int| 0 <= a2 < marks@.len() implies (#[trigger] marks@[a2])@.len() == lo.layers@[a2]@.len() by {
                if a2 != a {
                    assert(marks@[a2] == before[a2]);
                }
            }
        }
        k = k + 1;
    }
    proof {
        assert forall|l: int| 0 <= l < marks@.len() implies (#[trigger] marks@[l])@ == endpoint_marks(gv, *lo, l, source) by {
            assert(marks@[l]@ =~= endpoint_marks(gv, *lo, l, source));
        }
    }
    marks
}

fn copy_marks(v: &Vec<bool>) -> (r: Vec<bool>)
    ensures
        r@ == v@,
{
    let mut r: Vec<bool> = Vec::new();
    let mut i: usize = 0;
    while i < v.len()
        invariant
            i <= v.len(),
            r@ == v@.subrange(0, i as int),
        decreases v.len() - i,
    {
        r.push(v[i]);
        i = i + 1;
        proof {
            assert(r@ =~= v@.subrange(0, i as int));
        }
    }
    proof {
        assert(v@.subrange(0, v@.len() as int) =~= v@);
    }
    r
}

/// Plans the routes of the feedback edges of a layout: lane `k` for the
/// `k`-th feedback edge, and for each endpoint its rank among the endpoints
/// of the same kind in its layer, counted from the gutter side.
pub fn plan_feedback(graph: &Graph, lo: &Layout) -> (fp: FeedbackPlans)
    requires
        graph.wf(),
        lo.wf_for(graph.view()),
    ensures
        fp.plans_for(graph.view(), *lo),
{
    let ghost gv = graph.view();
    let sources = mark_endpoints(graph, lo, true);
    let targets = mark_endpoints(graph, lo, false);
    let mut plans: Vec<FeedbackPlan> = Vec::new();
    let mut k: usize = 0;
    while k < lo.feedback.len()
        invariant
            graph.wf(),
            gv == graph.view(),
            lo.wf_for(gv),
            sources@.len() == lo.layers@.len(),
            forall|l: int| 0 <= l < sources@.len() ==> (#[trigger] sources@[l])@ == endpoint_marks(gv, *lo, l, true),
            targets@.len() == lo.layers@.len(),
            forall|l: int| 0 <= l < targets@.len() ==> (#[trigger] targets@[l])@ == endpoint_marks(gv, *lo, l, false),
            k <= lo.feedback@.len(),
            plans@.len() == k,
            forall|j: int| 0 <= j < k ==> {
                let e = lo.feedback@[j] as int;
                #[trigger] plans@[j] == FeedbackPlan {
                    edge: e as usize,
                    lane: j as usize,
                    src_rank: endpoint_rank(gv, *lo, gv.edges[e].from, true) as usize,
                    dst_rank: endpoint_rank(gv, *lo, gv.edges[e].to, false) as usize,
                }
            },
        decreases lo.feedback@.len() - k,
    {
        let e = lo.feedback[k];
        proof {
            assert(e < gv.edges.len());
            assert(gv.edges[e as int].from == graph.edges@[e as int].from);
            assert(gv.edges[e as int].to == graph.edges@[e as int].to);
        }
        let (sl, sp) = lo.node_pos[graph.edges[e].from];
        let (dl, dp) = lo.node_pos[graph.edges[e].to];
        proof {
            assert(sl < lo.layers@.len() && sp < lo.layers@[sl as int]@.len());
            assert(dl < lo.layers@.len() && dp < lo.layers@[dl as int]@.len());
            assert(sources@[sl as int]@ == endpoint_marks(gv, *lo, sl as int, true));
            assert(targets@[dl as int]@ == endpoint_marks(gv, *lo, dl as int, false));
        }
        proof {
            assert(lo.layers@[sl as int]@.len() == lo.layers@[sl as int].len());
            assert(lo.layers@[dl as int]@.len() == lo.layers@[dl as int].len());
        }
        let src_rank = count_marked(&sources[sl], sp + 1);
        let dst_rank = count_marked(&targets[dl], dp + 1);
        plans.push(FeedbackPlan { edge: e, lane: k, src_rank, dst_rank });
        proof {
            assert forall|j: int| 0 <= j < k + 1 implies {
                let e = lo.feedback@[j] as int;
                #[trigger] plans@[j] == FeedbackPlan {
                    edge: e as usize,
                    lane: j as usize,
                    src_rank: endpoint_rank(gv, *lo, gv.edges[e].from, true) as usize,
                    dst_rank: endpoint_rank(gv, *lo, gv.edges[e].to, false) as usize,
                }
            } by {
                if j == k {
                    assert(lo.feedback@[j] == e);
                } else {
                    assert(plans@[j] == plans@.drop_last()[j]);
                }
            }
        }
        k = k + 1;
    }
    let mut exits: Vec<usize> = Vec::new();
    let mut entries: Vec<usize> = Vec::new();
    let mut l: usize = 0;
    while l < lo.layers.len()
        invariant
            sources@.len() == lo.layers@.len(),
            forall|a: int| 0 <= a < sources@.len() ==> (#[trigger] sources@[a])@ == endpoint_marks(gv, *lo, a, true),
            targets@.len() == lo.layers@.len(),
            forall|a: int| 0 <= a < targets@.len() ==> (#[trigger] targets@[a])@ == endpoint_marks(gv, *lo, a, false),
            l <= lo.layers@.len(),
            exits@.len() == l,
            entries@.len() == l,
            forall|a: int| 0 <= a < l ==> #[trigger] exits@[a] == count_true(endpoint_marks(gv, *lo, a, true), 0),
            forall|a: int| 0 <= a < l ==> #[trigger] entries@[a] == count_true(endpoint_marks(gv, *lo, a, false), 0),
        decreases lo.layers@.len() - l,
    {
        proof {
            assert(sources@[l as int]@ == endpoint_marks(gv, *lo, l as int, true));
            assert(targets@[l as int]@ == endpoint_marks(gv, *lo, l as int, false));
        }
        let x = count_marked(&sources[l], 0);
        let y = count_marked(&targets[l], 0);
        exits.push(x);
        entries.push(y);
        l = l + 1;
    }
    FeedbackPlans { plans, exits, entries }
}

} // verus!
