use crate::elements::Edge;
use crate::table::Table;
use vstd::prelude::*;

verus! {

/// The weight of an arc under the chosen metric: travel time or distance.
pub open spec fn w_of(e: Edge, tm: bool) -> u64 {
    if tm {
        e.time
    } else {
        e.distance
    }
}

/// The node reached after `i` arcs of a walk that starts at `s`.
pub open spec fn hop(s: i64, p: Seq<Edge>, i: int) -> i64 {
    if i == 0 {
        s
    } else {
        p[i - 1].node
    }
}

/// `p` is a walk through the graph from `s`: every node it touches has an
/// entry, and each arc is among the outgoing arcs of the node it leaves.
pub open spec fn walk_ok(g: &Table<Vec<Edge>>, s: i64, p: Seq<Edge>) -> bool {
    &&& g.has(s)
    &&& forall|i: int| 0 < i <= p.len() ==> g.has(#[trigger] hop(s, p, i))
    &&& forall|i: int| 0 <= i < p.len() ==> g.val_of(#[trigger] hop(s, p, i))@.contains(p[i])
}

/// The cost of a walk: the sum of its arc weights.
pub open spec fn walk_cost(p: Seq<Edge>, tm: bool) -> int
    decreases p.len(),
{
    if p.len() == 0 {
        0
    } else {
        walk_cost(p.drop_last(), tm) + w_of(p.last(), tm)
    }
}

/// A walk from `s` that ends at `t`.
pub open spec fn walk_to(g: &Table<Vec<Edge>>, s: i64, p: Seq<Edge>, t: i64) -> bool {
    &&& walk_ok(g, s, p)
    &&& hop(s, p, p.len() as int) == t
}

/// `c` is the cost of a cheapest walk from `s` to `t`.
pub open spec fn min_cost_is(g: &Table<Vec<Edge>>, tm: bool, s: i64, t: i64, c: u64) -> bool {
    &&& c < u64::MAX
    &&& exists|p: Seq<Edge>| walk_to(g, s, p, t) && walk_cost(p, tm) == c
    &&& forall|p: Seq<Edge>| walk_to(g, s, p, t) ==> walk_cost(p, tm) >= c
}

/// No walk from `s` reaches `t` for less than `u64::MAX`.
pub open spec fn unreachable_within(g: &Table<Vec<Edge>>, tm: bool, s: i64, t: i64) -> bool {
    forall|p: Seq<Edge>| walk_to(g, s, p, t) ==> walk_cost(p, tm) >= u64::MAX
}

/// Cheapest costs are unique: the cost-only query and the final cost of the
/// path query must return the same value.
pub proof fn lemma_min_cost_unique(g: &Table<Vec<Edge>>, tm: bool, s: i64, t: i64, c1: u64, c2: u64)
    requires
        min_cost_is(g, tm, s, t, c1),
        min_cost_is(g, tm, s, t, c2),
    ensures
        c1 == c2,
{
    let p1 = choose|p: Seq<Edge>| walk_to(g, s, p, t) && walk_cost(p, tm) == c1;
    let p2 = choose|p: Seq<Edge>| walk_to(g, s, p, t) && walk_cost(p, tm) == c2;
    assert(walk_cost(p1, tm) >= c2);
    assert(walk_cost(p2, tm) >= c1);
}

/// The empty walk sits at its start node.
pub proof fn lemma_walk_empty(g: &Table<Vec<Edge>>, s: i64)
    requires
        g.has(s),
    ensures
        walk_to(g, s, Seq::<Edge>::empty(), s),
        walk_cost(Seq::<Edge>::empty(), false) == 0,
        walk_cost(Seq::<Edge>::empty(), true) == 0,
{
}

/// Appending an outgoing arc of a walk's end extends the walk.
pub proof fn lemma_walk_extend(g: &Table<Vec<Edge>>, tm: bool, s: i64, p: Seq<Edge>, t: i64, e: Edge)
    requires
        walk_to(g, s, p, t),
        g.val_of(t)@.contains(e),
        g.has(e.node),
    ensures
        walk_to(g, s, p.push(e), e.node),
        walk_cost(p.push(e), tm) == walk_cost(p, tm) + w_of(e, tm),
{
    let p2 = p.push(e);
    assert(p2.drop_last() =~= p);
    assert(p2.last() == e);
    assert forall|i: int| 0 < i <= p2.len() implies g.has(#[trigger] hop(s, p2, i)) by {
        if i <= p.len() {
            assert(hop(s, p2, i) == hop(s, p, i));
        } else {
            assert(hop(s, p2, i) == e.node);
        }
    }
    assert forall|i: int| 0 <= i < p2.len() implies g.val_of(
        #[trigger] hop(s, p2, i),
    )@.contains(p2[i]) by {
        if i < p.len() {
            assert(hop(s, p2, i) == hop(s, p, i));
            assert(p2[i] == p[i]);
        } else {
            assert(hop(s, p2, i) == hop(s, p, i));
            assert(hop(s, p, p.len() as int) == t);
            assert(p2[i] == e);
        }
    }
    assert(hop(s, p2, p2.len() as int) == e.node);
}

/// Dropping the last arc of a walk leaves a walk to the arc's source.
pub proof fn lemma_walk_shrink(g: &Table<Vec<Edge>>, s: i64, p: Seq<Edge>)
    requires
        walk_ok(g, s, p),
        p.len() > 0,
    ensures
        walk_to(g, s, p.drop_last(), hop(s, p, p.len() - 1)),
        g.val_of(hop(s, p, p.len() - 1))@.contains(p.last()),
{
    let p2 = p.drop_last();
    assert forall|i: int| 0 < i <= p2.len() implies g.has(#[trigger] hop(s, p2, i)) by {
        assert(hop(s, p2, i) == hop(s, p, i));
    }
    assert forall|i: int| 0 <= i < p2.len() implies g.val_of(
        #[trigger] hop(s, p2, i),
    )@.contains(p2[i]) by {
        assert(hop(s, p2, i) == hop(s, p, i));
        assert(p2[i] == p[i]);
    }
    assert(hop(s, p2, p2.len() as int) == hop(s, p, p.len() - 1));
}

/// The key `id` of a table is found at its own index.
proof fn lemma_key_idx(g: &Table<Vec<Edge>>, i: int)
    requires
        g.wf(),
        0 <= i < g.k().len(),
    ensures
        g.has(g.k()[i]),
        g.idx_of(g.k()[i]) == i,
{
    assert(g.k().contains(g.k()[i]));
    let c = g.idx_of(g.k()[i]);
    assert(0 <= c < g.k().len() && g.k()[c] == g.k()[i]);
    assert(c == i);
}

/// Arcs out of node `q` relaxed, up to arc index `upto`: no known cost
/// overshoots the cost through `q`.
spec fn relaxed_at(
    g: &Table<Vec<Edge>>,
    tm: bool,
    dist: Seq<u64>,
    q: int,
    upto: int,
) -> bool {
    forall|x: int|
        0 <= x < upto ==> (g.has(#[trigger] g.v()[q]@[x].node) ==> dist[g.idx_of(
            g.v()[q]@[x].node,
        )] <= dist[q] + w_of(g.v()[q]@[x], tm))
}

/// Every visited node has all its outgoing arcs relaxed.
spec fn inv_relax(g: &Table<Vec<Edge>>, tm: bool, dist: Seq<u64>, vis: Seq<bool>) -> bool {
    forall|q: int|
        0 <= q < vis.len() && #[trigger] vis[q] ==> relaxed_at(g, tm, dist, q, g.v()[q]@.len() as int)
}

/// Every visited node's known cost undercuts every walk to it.
spec fn inv_opt(
    g: &Table<Vec<Edge>>,
    tm: bool,
    s: i64,
    dist: Seq<u64>,
    vis: Seq<bool>,
) -> bool {
    forall|q: int, p: Seq<Edge>|
        0 <= q < vis.len() && vis[q] && #[trigger] walk_to(g, s, p, g.k()[q]) ==> walk_cost(p, tm)
            >= dist[q]
}

/// Every finite known cost is achieved by some walk.
spec fn inv_reach(
    g: &Table<Vec<Edge>>,
    tm: bool,
    s: i64,
    dist: Seq<u64>,
) -> bool {
    forall|q: int|
        0 <= q < dist.len() && #[trigger] dist[q] < u64::MAX ==> exists|p: Seq<Edge>|
            walk_to(g, s, p, g.k()[q]) && walk_cost(p, tm) == dist[q]
}

/// The frontier bound: every walk that ends at an unvisited node costs at
/// least as much as the cheapest unvisited known cost.
proof fn lemma_walk_lower(
    g: &Table<Vec<Edge>>,
    tm: bool,
    s: i64,
    si: int,
    dist: Seq<u64>,
    vis: Seq<bool>,
    bound: u64,
    p: Seq<Edge>,
    z: i64,
)
    requires
        g.wf(),
        dist.len() == g.k().len(),
        vis.len() == g.k().len(),
        0 <= si < g.k().len(),
        g.k()[si] == s,
        dist[si] == 0,
        inv_opt(g, tm, s, dist, vis),
        inv_relax(g, tm, dist, vis),
        forall|q: int| 0 <= q < vis.len() && !(#[trigger] vis[q]) ==> dist[q] >= bound,
        walk_to(g, s, p, z),
        g.has(z),
        !vis[g.idx_of(z)],
    ensures
        walk_cost(p, tm) >= bound,
    decreases p.len(),
{
    let zq = g.idx_of(z);
    assert(0 <= zq < g.k().len() && g.k()[zq] == z);
    if p.len() == 0 {
        assert(z == s);
        assert(zq == si) by {
            assert(g.k()[zq] == g.k()[si]);
        }
        assert(dist[zq] >= bound);
    } else {
        let p2 = p.drop_last();
        let e = p.last();
        let x = hop(s, p, p.len() - 1);
        lemma_walk_shrink(g, s, p);
        assert(walk_to(g, s, p2, x));
        assert(g.has(x));
        let xq = g.idx_of(x);
        assert(0 <= xq < g.k().len() && g.k()[xq] == x);
        assert(e.node == z) by {
            assert(hop(s, p, p.len() as int) == z);
        }
        if vis[xq] {
            // the walk's prefix cannot undercut the settled cost of x,
            // and x's arc to z has been relaxed
            assert(walk_cost(p2, tm) >= dist[xq]);
            let ghost arcs = g.val_of(x)@;
            assert(g.v()[xq]@ == arcs) by {
                lemma_key_idx(g, xq);
            }
            let ax = choose|ax: int| 0 <= ax < arcs.len() && arcs[ax] == e;
            assert(g.v()[xq]@[ax] == e);
            assert(g.has(g.v()[xq]@[ax].node));
            assert(dist[g.idx_of(e.node)] <= dist[xq] + w_of(e, tm));
            assert(dist[zq] >= bound);
            assert(walk_cost(p, tm) == walk_cost(p2, tm) + w_of(e, tm));
        } else {
            lemma_walk_lower(g, tm, s, si, dist, vis, bound, p2, x);
            assert(walk_cost(p, tm) == walk_cost(p2, tm) + w_of(e, tm));
        }
    }
}


/// How many entries of a visited map are still false.
spec fn count_false(s: Seq<bool>) -> int
    decreases s.len(),
{
    if s.len() == 0 {
        0
    } else {
        count_false(s.drop_last()) + (if s.last() {
            0int
        } else {
            1int
        })
    }
}

proof fn lemma_count_false_nonneg(s: Seq<bool>)
    ensures
        count_false(s) >= 0,
    decreases s.len(),
{
    if s.len() > 0 {
        lemma_count_false_nonneg(s.drop_last());
    }
}

proof fn lemma_count_false_set(s: Seq<bool>, i: int)
    requires
        0 <= i < s.len(),
        !s[i],
    ensures
        count_false(s.update(i, true)) == count_false(s) - 1,
    decreases s.len(),
{
    if i == s.len() - 1 {
        assert(s.update(i, true).drop_last() =~= s.drop_last());
        assert(s.update(i, true).last() == true);
    } else {
        assert(s.update(i, true).drop_last() =~= s.drop_last().update(i, true));
        assert(s.update(i, true).last() == s.last());
        lemma_count_false_set(s.drop_last(), i);
    }
}

/// The position of `q` in the visit order.
spec fn rank(ord: Seq<int>, q: int) -> int {
    choose|i: int| #![auto] 0 <= i < ord.len() && ord[i] == q
}

/// A visit order: pairwise-distinct indexes below `n`.
spec fn ord_wf(ord: Seq<int>, n: int) -> bool {
    &&& forall|i: int, j: int| 0 <= i < j < ord.len() ==> ord[i] != ord[j]
    &&& forall|i: int| 0 <= i < ord.len() ==> 0 <= #[trigger] ord[i] < n
}

proof fn lemma_rank(ord: Seq<int>, n: int, q: int)
    requires
        ord_wf(ord, n),
        ord.contains(q),
    ensures
        0 <= rank(ord, q) < ord.len(),
        ord[rank(ord, q)] == q,
        forall|i: int| 0 <= i < ord.len() && ord[i] == q ==> i == rank(ord, q),
{
    let r = rank(ord, q);
    assert(0 <= r < ord.len() && ord[r] == q);
}

proof fn lemma_rank_push(ord: Seq<int>, n: int, u: int, q: int)
    requires
        ord_wf(ord, n),
        0 <= u < n,
        !ord.contains(u),
        ord.contains(q),
    ensures
        ord_wf(ord.push(u), n),
        ord.push(u).contains(q),
        rank(ord.push(u), q) == rank(ord, q),
        rank(ord.push(u), u) == ord.len(),
{
    let p = ord.push(u);
    assert forall|i: int, j: int| 0 <= i < j < p.len() implies p[i] != p[j] by {
        if j < ord.len() {
            assert(p[i] == ord[i] && p[j] == ord[j]);
        } else {
            assert(p[j] == u);
            assert(p[i] == ord[i]);
            assert(ord.contains(ord[i]));
        }
    }
    lemma_rank(ord, n, q);
    let r = rank(ord, q);
    assert(p[r] == q);
    assert(p.contains(q));
    let r2 = rank(p, q);
    assert(0 <= r2 < p.len() && p[r2] == q);
    if r2 == ord.len() {
        assert(p[r2] == u);
        assert(q == u);
        assert(false);
    }
    assert(ord[r2] == q);
    assert(r2 == r);
    assert(p[ord.len() as int] == u);
    assert(p.contains(u));
    let ru = rank(p, u);
    assert(0 <= ru < p.len() && p[ru] == u);
    if ru < ord.len() {
        assert(ord[ru] == u);
        assert(ord.contains(u));
        assert(false);
    }
}

/// Every node with a finite known cost, other than the start, has a settled
/// predecessor whose arc to it accounts for the cost exactly.
spec fn chain_inv(
    g: &Table<Vec<Edge>>,
    tm: bool,
    si: int,
    dist: Seq<u64>,
    pred: Seq<usize>,
    vis: Seq<bool>,
) -> bool {
    forall|q: int|
        0 <= q < dist.len() && (#[trigger] dist[q]) < u64::MAX && q != si ==> {
            &&& 0 <= pred[q] < dist.len()
            &&& vis[pred[q] as int]
            &&& dist[pred[q] as int] < u64::MAX
            &&& exists|x: int|
                #![auto]
                0 <= x < g.v()[pred[q] as int]@.len() && g.v()[pred[q] as int]@[x].node == g.k()[q]
                    && dist[pred[q] as int] + w_of(g.v()[pred[q] as int]@[x], tm) == dist[q]
        }
}

/// Visited nodes were settled in `ord` order, each after its predecessor.
spec fn rank_inv(pred: Seq<usize>, vis: Seq<bool>, ord: Seq<int>, si: int) -> bool {
    forall|q: int|
        0 <= q < vis.len() && (#[trigger] vis[q]) && q != si ==> 0 <= pred[q] < vis.len()
            && vis[pred[q] as int] && rank(ord, pred[q] as int) < rank(ord, q)
}

/// The working state of the search.
spec fn search_inv(
    g: &Table<Vec<Edge>>,
    tm: bool,
    s: i64,
    si: int,
    dist: Seq<u64>,
    pred: Seq<usize>,
    vis: Seq<bool>,
    ord: Seq<int>,
) -> bool {
    let n = g.k().len() as int;
    &&& g.wf()
    &&& dist.len() == n
    &&& pred.len() == n
    &&& vis.len() == n
    &&& 0 <= si < n
    &&& g.k()[si] == s
    &&& dist[si] == 0
    &&& ord_wf(ord, n)
    &&& forall|q: int| 0 <= q < n ==> ((#[trigger] vis[q]) <==> ord.contains(q))
    &&& (ord.len() > 0 ==> ord[0] == si)
    &&& inv_opt(g, tm, s, dist, vis)
    &&& inv_reach(g, tm, s, dist)
    &&& chain_inv(g, tm, si, dist, pred, vis)
    &&& rank_inv(pred, vis, ord, si)
    &&& forall|q: int| 0 <= q < n && (#[trigger] vis[q]) ==> dist[q] < u64::MAX
}

/// What a successful search hands back for reconstruction.
struct SearchOut {
    cost: u64,
    si: usize,
    gi: usize,
    dist: Vec<u64>,
    pred: Vec<usize>,
    ord: Ghost<Seq<int>>,
}

/// A successful search: the cheapest cost to the goal, with a predecessor
/// chain that walks back from the goal to the start in settle order.
#[verifier::opaque]
spec fn out_ok(g: &Table<Vec<Edge>>, tm: bool, s: i64, t: i64, o: SearchOut) -> bool {
    let n = g.k().len() as int;
    &&& min_cost_is(g, tm, s, t, o.cost)
    &&& o.dist@.len() == n
    &&& o.pred@.len() == n
    &&& 0 <= o.si < n
    &&& g.k()[o.si as int] == s
    &&& o.dist@[o.si as int] == 0
    &&& 0 <= o.gi < n
    &&& g.k()[o.gi as int] == t
    &&& o.dist@[o.gi as int] == o.cost
    &&& ord_wf(o.ord@, n)
    &&& o.ord@.len() > 0
    &&& o.ord@[0] == o.si as int
    &&& o.ord@.contains(o.gi as int)
    &&& forall|q: int|
        #[trigger] o.ord@.contains(q) && q != o.si as int ==> {
            &&& 0 <= q < n
            &&& 0 <= o.pred@[q] < n
            &&& o.ord@.contains(o.pred@[q] as int)
            &&& rank(o.ord@, o.pred@[q] as int) < rank(o.ord@, q)
            &&& o.dist@[q] < u64::MAX
            &&& exists|x: int|
                #![auto]
                0 <= x < g.v()[o.pred@[q] as int]@.len() && g.v()[o.pred@[q] as int]@[x].node
                    == g.k()[q] && o.dist@[o.pred@[q] as int] + w_of(
                    g.v()[o.pred@[q] as int]@[x],
                    tm,
                ) == o.dist@[q]
        }
}

/// Borrow one arc of an arc list.
fn edge_at(v: &Vec<Edge>, i: usize) -> (e: &Edge)
    requires
        i < v@.len(),
    ensures
        *e == v@[i as int],
{
    &v[i]
}


/// Settling the cheapest unvisited node keeps the search state sound: its
/// known cost is optimal, and the visit order grows by exactly that node.
proof fn lemma_settle(
    g: &Table<Vec<Edge>>,
    tm: bool,
    s: i64,
    t: i64,
    si: int,
    dist: Seq<u64>,
    pred: Seq<usize>,
    vis: Seq<bool>,
    ord: Seq<int>,
    best: int,
)
    requires
        search_inv(g, tm, s, si, dist, pred, vis, ord),
        inv_relax(g, tm, dist, vis),
        0 <= best < vis.len(),
        !vis[best],
        dist[best] < u64::MAX,
        forall|q: int| 0 <= q < vis.len() && !(#[trigger] vis[q]) ==> dist[q] >= dist[best],
        forall|q: int| 0 <= q < vis.len() && (#[trigger] vis[q]) ==> g.k()[q] != t,
        g.k()[best] != t,
    ensures
        search_inv(g, tm, s, si, dist, pred, vis.update(best, true), ord.push(best)),
        forall|q: int|
            0 <= q < vis.len() && (#[trigger] vis.update(best, true)[q]) && q != best
                ==> relaxed_at(g, tm, dist, q, g.v()[q]@.len() as int),
        forall|q: int|
            0 <= q < vis.len() && (#[trigger] vis.update(best, true)[q]) ==> g.k()[q] != t,
        count_false(vis.update(best, true)) == count_false(vis) - 1,
        !ord.contains(best),
        relaxed_at(g, tm, dist, best, 0),
{
    let n = g.k().len() as int;
    let vis2 = vis.update(best, true);
    let ord2 = ord.push(best);
    assert(!ord.contains(best)) by {
        if ord.contains(best) {
            assert(vis[best]);
        }
    }
    lemma_count_false_set(vis, best);
    if ord.len() == 0 {
        // nothing settled yet: only the start carries a finite cost
        if best != si {
            assert(vis[pred[best] as int]);
            assert(false);
        }
    }
    assert forall|i: int, j: int| 0 <= i < j < ord2.len() implies ord2[i] != ord2[j] by {
        if j == ord2.len() - 1 {
            assert(ord2[j] == best);
            assert(ord2[i] == ord[i]);
            assert(ord.contains(ord[i]));
        } else {
            assert(ord2[i] == ord[i] && ord2[j] == ord[j]);
        }
    }
    assert forall|q2: int| 0 <= q2 < n implies ((#[trigger] vis2[q2]) <==> ord2.contains(
        q2,
    )) by {
        if q2 == best {
            assert(ord2[ord2.len() - 1] == best);
        } else {
            if ord.contains(q2) {
                let w = choose|w: int| 0 <= w < ord.len() && ord[w] == q2;
                assert(ord2[w] == q2);
            }
            if ord2.contains(q2) {
                let w = choose|w: int| 0 <= w < ord2.len() && ord2[w] == q2;
                assert(w < ord.len());
                assert(ord[w] == q2);
            }
        }
    }
    assert(ord2[0] == si) by {
        if ord.len() == 0 {
            assert(ord2[0] == best);
        } else {
            assert(ord2[0] == ord[0]);
        }
    }
    // the settled cost is optimal: no walk to the settled node is cheaper
    assert forall|q2: int, p: Seq<Edge>|
        0 <= q2 < n && vis2[q2] && #[trigger] walk_to(g, s, p, g.k()[q2]) implies walk_cost(p, tm)
            >= dist[q2] by {
        if q2 == best {
            lemma_walk_lower(g, tm, s, si, dist, vis, dist[best], p, g.k()[best]);
        } else {
            assert(vis[q2]);
        }
    }
    // visit order bookkeeping for the settled node
    assert forall|q2: int|
        0 <= q2 < n && (#[trigger] vis2[q2]) && q2 != si implies 0 <= pred[q2] < n
            && vis2[pred[q2] as int] && rank(ord2, pred[q2] as int) < rank(ord2, q2) by {
        if q2 == best {
            assert(vis[pred[q2] as int]);
            assert(ord.contains(pred[q2] as int));
            lemma_rank_push(ord, n, best, pred[q2] as int);
            lemma_rank(ord2, n, best);
            assert(rank(ord2, best) == ord.len()) by {
                if rank(ord2, best) < ord.len() {
                    assert(ord[rank(ord2, best)] == best);
                    assert(ord.contains(best));
                }
            }
        } else {
            assert(vis[q2]);
            assert(vis[pred[q2] as int]);
            assert(ord.contains(q2));
            assert(ord.contains(pred[q2] as int));
            lemma_rank_push(ord, n, best, q2);
            lemma_rank_push(ord, n, best, pred[q2] as int);
        }
    }
    assert(search_inv(g, tm, s, si, dist, pred, vis2, ord2));
}

/// When the goal itself is the cheapest unvisited node, the search output
/// built from the current state is correct.
proof fn lemma_goal_out(
    g: &Table<Vec<Edge>>,
    tm: bool,
    s: i64,
    t: i64,
    vis: Seq<bool>,
    ord: Seq<int>,
    o: SearchOut,
)
    requires
        search_inv(g, tm, s, o.si as int, o.dist@, o.pred@, vis, ord),
        0 <= o.gi < vis.len(),
        !vis[o.gi as int],
        o.dist@[o.gi as int] == o.cost,
        o.cost < u64::MAX,
        forall|q: int| 0 <= q < vis.len() && !(#[trigger] vis[q]) ==> o.dist@[q] >= o.cost,
        inv_relax(g, tm, o.dist@, vis),
        g.k()[o.gi as int] == t,
        o.ord@ == ord.push(o.gi as int),
    ensures
        out_ok(g, tm, s, t, o),
{
    reveal(out_ok);
    let n = g.k().len() as int;
    let si = o.si as int;
    let gi = o.gi as int;
    let dist = o.dist@;
    let pred = o.pred@;
    let ord2 = o.ord@;
    assert(!ord.contains(gi)) by {
        if ord.contains(gi) {
            assert(vis[gi]);
        }
    }
    if ord.len() == 0 {
        if gi != si {
            assert(vis[pred[gi] as int]);
            assert(false);
        }
    }
    assert forall|p: Seq<Edge>| walk_to(g, s, p, t) implies walk_cost(p, tm) >= o.cost by {
        lemma_walk_lower(g, tm, s, si, dist, vis, o.cost, p, t);
    }
    assert(dist[gi] < u64::MAX);
    assert(exists|p: Seq<Edge>| walk_to(g, s, p, g.k()[gi]) && walk_cost(p, tm) == dist[gi]);
    assert(min_cost_is(g, tm, s, t, o.cost));
    assert forall|i: int, j: int| 0 <= i < j < ord2.len() implies ord2[i] != ord2[j] by {
        if j == ord2.len() - 1 {
            assert(ord2[j] == gi);
            assert(ord2[i] == ord[i]);
            assert(ord.contains(ord[i]));
        } else {
            assert(ord2[i] == ord[i] && ord2[j] == ord[j]);
        }
    }
    assert(ord_wf(ord2, n));
    assert(ord2[ord2.len() - 1] == gi);
    assert(ord2.contains(gi));
    assert(ord2[0] == si) by {
        if ord.len() == 0 {
            assert(ord2[0] == gi);
        } else {
            assert(ord2[0] == ord[0]);
        }
    }
    assert forall|q2: int| #[trigger]
        ord2.contains(q2) && q2 != si implies {
        &&& 0 <= q2 < n
        &&& 0 <= pred[q2] < n
        &&& ord2.contains(pred[q2] as int)
        &&& rank(ord2, pred[q2] as int) < rank(ord2, q2)
        &&& dist[q2] < u64::MAX
        &&& exists|x: int|
            #![auto]
            0 <= x < g.v()[pred[q2] as int]@.len() && g.v()[pred[q2] as int]@[x].node == g.k()[q2]
                && dist[pred[q2] as int] + w_of(g.v()[pred[q2] as int]@[x], tm) == dist[q2]
    } by {
        let w = choose|w: int| 0 <= w < ord2.len() && ord2[w] == q2;
        if w < ord2.len() - 1 {
            assert(ord[w] == q2);
            assert(ord.contains(q2));
            assert(vis[q2]);
            assert(dist[q2] < u64::MAX);
            assert(vis[pred[q2] as int]);
            assert(ord.contains(pred[q2] as int));
            assert(ord2.contains(pred[q2] as int)) by {
                let w2 = choose|w2: int| 0 <= w2 < ord.len() && ord[w2] == pred[q2] as int;
                assert(ord2[w2] == pred[q2] as int);
            }
            lemma_rank_push(ord, n, gi, q2);
            lemma_rank_push(ord, n, gi, pred[q2] as int);
        } else {
            assert(q2 == gi);
            assert(dist[q2] < u64::MAX);
            assert(vis[pred[q2] as int]);
            assert(ord.contains(pred[q2] as int));
            assert(ord2.contains(pred[q2] as int)) by {
                let w2 = choose|w2: int| 0 <= w2 < ord.len() && ord[w2] == pred[q2] as int;
                assert(ord2[w2] == pred[q2] as int);
            }
            lemma_rank_push(ord, n, gi, pred[q2] as int);
            lemma_rank(ord2, n, gi);
            assert(rank(ord2, gi) == ord.len()) by {
                if rank(ord2, gi) < ord.len() {
                    assert(ord[rank(ord2, gi)] == gi);
                    assert(ord.contains(gi));
                }
            }
        }
    }
}

/// A strict improvement through the settled node updates one unvisited
/// entry and keeps the whole search state sound.
proof fn lemma_relax_update(
    g: &Table<Vec<Edge>>,
    tm: bool,
    s: i64,
    si: int,
    dist: Seq<u64>,
    pred: Seq<usize>,
    vis: Seq<bool>,
    ord: Seq<int>,
    best: int,
    x: int,
    tq: int,
    nv: u64,
)
    requires
        search_inv(g, tm, s, si, dist, pred, vis, ord),
        0 <= best < vis.len(),
        best <= usize::MAX,
        vis[best],
        dist[best] < u64::MAX,
        0 <= x < g.v()[best]@.len(),
        g.has(g.v()[best]@[x].node),
        g.idx_of(g.v()[best]@[x].node) == tq,
        0 <= tq < dist.len(),
        !vis[tq],
        nv == dist[best] + w_of(g.v()[best]@[x], tm),
        nv < dist[tq],
        relaxed_at(g, tm, dist, best, x),
        forall|q: int|
            0 <= q < vis.len() && (#[trigger] vis[q]) && q != best ==> relaxed_at(
                g,
                tm,
                dist,
                q,
                g.v()[q]@.len() as int,
            ),
    ensures
        search_inv(g, tm, s, si, dist.update(tq, nv), pred.update(tq, best as usize), vis, ord),
        relaxed_at(g, tm, dist.update(tq, nv), best, x + 1),
        forall|q: int|
            0 <= q < vis.len() && (#[trigger] vis[q]) && q != best ==> relaxed_at(
                g,
                tm,
                dist.update(tq, nv),
                q,
                g.v()[q]@.len() as int,
            ),
        dist.update(tq, nv)[best] == dist[best],
{
    let n = g.k().len() as int;
    let e = g.v()[best]@[x];
    let dist2 = dist.update(tq, nv);
    let pred2 = pred.update(tq, best as usize);
    assert(tq != best);
    assert(tq != si) by {
        if tq == si {
            assert(dist[si] == 0);
        }
    }
    // a walk through the settled node reaches tq at exactly the new cost
    let pb = choose|p: Seq<Edge>|
        walk_to(g, s, p, g.k()[best]) && walk_cost(p, tm) == dist[best];
    lemma_key_idx(g, best);
    assert(g.val_of(g.k()[best])@ == g.v()[best]@);
    assert(g.val_of(g.k()[best])@.contains(e));
    lemma_walk_extend(g, tm, s, pb, g.k()[best], e);
    assert(g.k()[tq] == e.node);
    assert(walk_to(g, s, pb.push(e), g.k()[tq]));
    assert(walk_cost(pb.push(e), tm) == nv);
    // optimality of visited entries is untouched
    assert forall|q2: int, p: Seq<Edge>|
        0 <= q2 < n && vis[q2] && #[trigger] walk_to(g, s, p, g.k()[q2]) implies walk_cost(p, tm)
            >= dist2[q2] by {
        assert(q2 != tq);
        assert(dist2[q2] == dist[q2]);
    }
    // the predecessor chain gains exactly the entry for tq
    assert forall|q2: int|
        0 <= q2 < dist2.len() && (#[trigger] dist2[q2]) < u64::MAX && q2 != si implies {
        &&& 0 <= pred2[q2] < dist2.len()
        &&& vis[pred2[q2] as int]
        &&& dist2[pred2[q2] as int] < u64::MAX
        &&& exists|x2: int|
            #![auto]
            0 <= x2 < g.v()[pred2[q2] as int]@.len() && g.v()[pred2[q2] as int]@[x2].node
                == g.k()[q2] && dist2[pred2[q2] as int] + w_of(g.v()[pred2[q2] as int]@[x2], tm)
                == dist2[q2]
    } by {
        if q2 == tq {
            assert(pred2[q2] == best as usize);
            assert(best as usize as int == best);
            assert(pred2[q2] as int == best);
            assert(dist2[best] == dist[best]);
            assert(g.v()[best]@[x].node == g.k()[q2]);
            assert(dist2[best] + w_of(g.v()[best]@[x], tm) == dist2[q2]);
        } else {
            assert(dist2[q2] == dist[q2]);
            assert(pred2[q2] == pred[q2]);
            assert(vis[pred[q2] as int]);
            assert(pred[q2] as int != tq);
            assert(dist2[pred[q2] as int] == dist[pred[q2] as int]);
        }
    }
    // reachability: the new cost is achieved, old ones stay achieved
    assert forall|q2: int|
        0 <= q2 < dist2.len() && (#[trigger] dist2[q2]) < u64::MAX implies exists|p: Seq<Edge>|
        walk_to(g, s, p, g.k()[q2]) && walk_cost(p, tm) == dist2[q2] by {
        if q2 == tq {
            assert(walk_to(g, s, pb.push(e), g.k()[q2]) && walk_cost(pb.push(e), tm) == dist2[
                q2]);
        } else {
            assert(dist2[q2] == dist[q2]);
        }
    }
    // every settled node other than the current one stays fully relaxed
    assert forall|q2: int|
        0 <= q2 < vis.len() && (#[trigger] vis[q2]) && q2 != best implies relaxed_at(
            g,
            tm,
            dist2,
            q2,
            g.v()[q2]@.len() as int,
        ) by {
        assert(relaxed_at(g, tm, dist, q2, g.v()[q2]@.len() as int));
        assert(q2 != tq);
        assert forall|x2: int| 0 <= x2 < g.v()[q2]@.len() implies (g.has(
            #[trigger] g.v()[q2]@[x2].node,
        ) ==> dist2[g.idx_of(g.v()[q2]@[x2].node)] <= dist2[q2] + w_of(
            g.v()[q2]@[x2],
            tm,
        )) by {
            if g.has(g.v()[q2]@[x2].node) {
                assert(dist[g.idx_of(g.v()[q2]@[x2].node)] <= dist[q2] + w_of(
                    g.v()[q2]@[x2],
                    tm,
                ));
                assert(dist2[q2] == dist[q2]);
                if g.idx_of(g.v()[q2]@[x2].node) == tq {
                    assert(dist2[tq] <= dist[tq]);
                }
            }
        }
    }
    // the current node is relaxed one arc further
    assert forall|x2: int| 0 <= x2 < x + 1 implies (g.has(
        #[trigger] g.v()[best]@[x2].node,
    ) ==> dist2[g.idx_of(g.v()[best]@[x2].node)] <= dist2[best] + w_of(
        g.v()[best]@[x2],
        tm,
    )) by {
        if g.has(g.v()[best]@[x2].node) {
            if x2 < x {
                assert(dist[g.idx_of(g.v()[best]@[x2].node)] <= dist[best] + w_of(
                    g.v()[best]@[x2],
                    tm,
                ));
                if g.idx_of(g.v()[best]@[x2].node) == tq {
                    assert(dist2[tq] <= dist[tq]);
                }
            } else {
                assert(g.v()[best]@[x2] == e);
                assert(dist2[tq] == nv);
            }
        }
    }
    assert(search_inv(g, tm, s, si, dist2, pred2, vis, ord));
}

/// Without a strict improvement, the current arc is already relaxed.
proof fn lemma_relax_skip(
    g: &Table<Vec<Edge>>,
    tm: bool,
    s: i64,
    si: int,
    dist: Seq<u64>,
    pred: Seq<usize>,
    vis: Seq<bool>,
    ord: Seq<int>,
    best: int,
    x: int,
)
    requires
        search_inv(g, tm, s, si, dist, pred, vis, ord),
        0 <= best < vis.len(),
        vis[best],
        dist[best] < u64::MAX,
        0 <= x < g.v()[best]@.len(),
        relaxed_at(g, tm, dist, best, x),
        g.has(g.v()[best]@[x].node) ==> {
            let tq = g.idx_of(g.v()[best]@[x].node);
            vis[tq] || dist[best] + w_of(g.v()[best]@[x], tm) >= dist[tq]
        },
    ensures
        relaxed_at(g, tm, dist, best, x + 1),
{
    let e = g.v()[best]@[x];
    assert forall|x2: int| 0 <= x2 < x + 1 implies (g.has(
        #[trigger] g.v()[best]@[x2].node,
    ) ==> dist[g.idx_of(g.v()[best]@[x2].node)] <= dist[best] + w_of(
        g.v()[best]@[x2],
        tm,
    )) by {
        if x2 == x && g.has(e.node) {
            let tq = g.idx_of(e.node);
            assert(0 <= tq < g.k().len() && g.k()[tq] == e.node);
            if vis[tq] {
                // the settled target cannot be improved: its cost undercuts
                // the walk through the current node
                let pb = choose|p: Seq<Edge>|
                    walk_to(g, s, p, g.k()[best]) && walk_cost(p, tm) == dist[best];
                lemma_key_idx(g, best);
                assert(g.val_of(g.k()[best])@.contains(e));
                lemma_walk_extend(g, tm, s, pb, g.k()[best], e);
                assert(walk_to(g, s, pb.push(e), g.k()[tq]));
                assert(walk_cost(pb.push(e), tm) >= dist[tq]);
            }
        }
    }
}

/// With no reachable unvisited node left and the goal never settled, the
/// goal cannot be reached within the cost range.
proof fn lemma_exhausted(
    g: &Table<Vec<Edge>>,
    tm: bool,
    s: i64,
    t: i64,
    si: int,
    dist: Seq<u64>,
    pred: Seq<usize>,
    vis: Seq<bool>,
    ord: Seq<int>,
)
    requires
        search_inv(g, tm, s, si, dist, pred, vis, ord),
        inv_relax(g, tm, dist, vis),
        forall|q: int| 0 <= q < vis.len() && !(#[trigger] vis[q]) ==> dist[q] >= u64::MAX,
        forall|q: int| 0 <= q < vis.len() && (#[trigger] vis[q]) ==> g.k()[q] != t,
    ensures
        unreachable_within(g, tm, s, t),
{
    assert forall|p: Seq<Edge>| walk_to(g, s, p, t) implies walk_cost(p, tm) >= u64::MAX by {
        assert(g.has(t)) by {
            if p.len() == 0 {
                assert(hop(s, p, 0) == t);
            } else {
                assert(g.has(hop(s, p, p.len() as int)));
            }
        }
        let gq = g.idx_of(t);
        assert(0 <= gq < g.k().len() && g.k()[gq] == t);
        assert(!vis[gq]);
        lemma_walk_lower(g, tm, s, si, dist, vis, u64::MAX, p, t);
    }
}

/// The engine: repeatedly settle the cheapest unvisited node, stopping as
/// soon as the goal is selected (the settled cost is then the minimum) or
/// the frontier holds nothing reachable (the goal is unreachable).
fn search(adj: &Table<Vec<Edge>>, tm: bool, start: i64, goal: i64) -> (r: Option<SearchOut>)
    requires
        adj.wf(),
    ensures
        match r {
            Some(o) => out_ok(adj, tm, start, goal, o),
            None => !adj.has(start) || unreachable_within(adj, tm, start, goal),
        },
{
    let n = adj.len();
    let si: usize = match adj.get_index(start) {
        Some(i) => i,
        None => {
            return None;
        },
    };
    let mut dist: Vec<u64> = Vec::new();
    let mut pred: Vec<usize> = Vec::new();
    let mut vis: Vec<bool> = Vec::new();
    let mut q0: usize = 0;
    while q0 < n
        invariant
            q0 <= n,
            dist@.len() == q0,
            pred@.len() == q0,
            vis@.len() == q0,
            forall|q: int| 0 <= q < q0 ==> #[trigger] dist@[q] == u64::MAX,
            forall|q: int| 0 <= q < q0 ==> #[trigger] pred@[q] == si,
            forall|q: int| 0 <= q < q0 ==> #[trigger] vis@[q] == false,
        decreases n - q0,
    {
        dist.push(u64::MAX);
        pred.push(si);
        vis.push(false);
        q0 = q0 + 1;
    }
    dist.set(si, 0);
    let ghost mut ord: Seq<int> = Seq::empty();
    proof {
        lemma_walk_empty(adj, start);
        assert forall|q: int|
            0 <= q < dist@.len() && (#[trigger] dist@[q]) < u64::MAX implies exists|p: Seq<Edge>|
            walk_to(adj, start, p, adj.k()[q]) && walk_cost(p, tm) == dist@[q] by {
            assert(q == si);
            assert(walk_to(adj, start, Seq::<Edge>::empty(), adj.k()[q]) && walk_cost(
                Seq::<Edge>::empty(),
                tm,
            ) == dist@[q]);
        }
        assert(search_inv(adj, tm, start, si as int, dist@, pred@, vis@, ord));
        lemma_count_false_nonneg(vis@);
    }
    loop
        invariant
            adj.wf(),
            n == adj.k().len(),
            si < n,
            adj.k()[si as int] == start,
            search_inv(adj, tm, start, si as int, dist@, pred@, vis@, ord),
            inv_relax(adj, tm, dist@, vis@),
            forall|q: int| 0 <= q < n && (#[trigger] vis@[q]) ==> adj.k()[q] != goal,
            count_false(vis@) >= 0,
        decreases count_false(vis@),
    {
        let ghost vis0 = vis@;
        let mut best: usize = 0;
        let mut found: bool = false;
        let mut bestd: u64 = u64::MAX;
        let mut q: usize = 0;
        while q < n
            invariant
                q <= n,
                n == dist@.len(),
                n == vis@.len(),
                !found ==> bestd == u64::MAX,
                found ==> best < n && !vis@[best as int] && dist@[best as int] == bestd && bestd
                    < u64::MAX,
                forall|q2: int| 0 <= q2 < q && !(#[trigger] vis@[q2]) ==> dist@[q2] >= bestd,
            decreases n - q,
        {
            if !vis[q] && dist[q] < bestd {
                best = q;
                bestd = dist[q];
                found = true;
            }
            q = q + 1;
        }
        if !found {
            proof {
                lemma_exhausted(
                    adj,
                    tm,
                    start,
                    goal,
                    si as int,
                    dist@,
                    pred@,
                    vis@,
                    ord,
                );
            }
            return None;
        }
        let bkey = adj.key_at(best);
        if bkey == goal {
            let ghost ordpre = ord;
            proof {
                ord = ord.push(best as int);
            }
            let o = SearchOut { cost: bestd, si, gi: best, dist, pred, ord: Ghost(ord) };
            proof {
                lemma_goal_out(adj, tm, start, goal, vis@, ordpre, o);
            }
            return Some(o);
        }
        let ghost ordpre = ord;
        proof {
            lemma_settle(
                adj,
                tm,
                start,
                goal,
                si as int,
                dist@,
                pred@,
                vis@,
                ord,
                best as int,
            );
            ord = ord.push(best as int);
        }
        vis.set(best, true);
        let na = adj.val_at(best).len();
        let mut x: usize = 0;
        while x < na
            invariant
                adj.wf(),
                n == adj.k().len(),
                si < n,
                adj.k()[si as int] == start,
                best < n,
                adj.k()[best as int] != goal,
                x <= na,
                na == adj.v()[best as int]@.len(),
                vis@[best as int],
                dist@[best as int] == bestd,
                bestd < u64::MAX,
                search_inv(adj, tm, start, si as int, dist@, pred@, vis@, ord),
                forall|q2: int|
                    0 <= q2 < n && (#[trigger] vis@[q2]) && q2 != best as int ==> relaxed_at(
                        adj,
                        tm,
                        dist@,
                        q2,
                        adj.v()[q2]@.len() as int,
                    ),
                relaxed_at(adj, tm, dist@, best as int, x as int),
                forall|q2: int| 0 <= q2 < n && (#[trigger] vis@[q2]) ==> adj.k()[q2] != goal,
                count_false(vis@) == count_false(vis0) - 1,
            decreases na - x,
        {
            let e: Edge = *edge_at(adj.val_at(best), x);
            let wv: u64 = if tm {
                e.time
            } else {
                e.distance
            };
            match adj.get_index(e.node) {
                None => {
                    proof {
                        lemma_relax_skip(
                            adj,
                            tm,
                            start,
                            si as int,
                            dist@,
                            pred@,
                            vis@,
                            ord,
                            best as int,
                            x as int,
                        );
                    }
                },
                Some(tq) => {
                    proof {
                        lemma_key_idx(adj, tq as int);
                        assert(adj.idx_of(e.node) == tq as int);
                        assert(adj.v()[best as int]@[x as int] == e);
                    }
                    let dtq: u64 = *vec_u64_ref(&dist, tq);
                    let cand: u128 = (bestd as u128) + (wv as u128);
                    if !vis[tq] && cand < (dtq as u128) {
                        let nv: u64 = cand as u64;
                        let ghost distpre = dist@;
                        let ghost predpre = pred@;
                        dist.set(tq, nv);
                        pred.set(tq, best);
                        proof {
                            lemma_relax_update(
                                adj,
                                tm,
                                start,
                                si as int,
                                distpre,
                                predpre,
                                vis@,
                                ord,
                                best as int,
                                x as int,
                                tq as int,
                                nv,
                            );
                            assert(dist@ == distpre.update(tq as int, nv));
                            assert(pred@ == predpre.update(tq as int, best as usize));
                        }
                    } else {
                        proof {
                            lemma_relax_skip(
                                adj,
                                tm,
                                start,
                                si as int,
                                dist@,
                                pred@,
                                vis@,
                                ord,
                                best as int,
                                x as int,
                            );
                        }
                    }
                },
            }
            x = x + 1;
        }
        proof {
            assert forall|q2: int| 0 <= q2 < n && (#[trigger] vis@[q2]) implies relaxed_at(
                adj,
                tm,
                dist@,
                q2,
                adj.v()[q2]@.len() as int,
            ) by {
                if q2 == best as int {
                    assert(relaxed_at(adj, tm, dist@, best as int, na as int));
                }
            }
            lemma_count_false_nonneg(vis@);
        }
    }
}

/// Borrow one entry of a cost list.
fn vec_u64_ref(v: &Vec<u64>, i: usize) -> (r: &u64)
    requires
        i < v@.len(),
    ensures
        *r == v@[i as int],
{
    &v[i]
}


/// One step of a trace: the graph offers an arc from the node of `a` to the
/// node of `b` whose weight accounts exactly for the cost difference.
pub open spec fn trace_link(g: &Table<Vec<Edge>>, tm: bool, a: (u64, i64), b: (u64, i64)) -> bool {
    &&& g.has(a.1)
    &&& exists|x: int|
        #![auto]
        0 <= x < g.val_of(a.1)@.len() && g.val_of(a.1)@[x].node == b.1 && a.0 + w_of(
            g.val_of(a.1)@[x],
            tm,
        ) == b.0
}

/// An ordered trace from `s` to `t`: cumulative cost zero at the start,
/// and every consecutive pair joined by an arc of the graph.
pub open spec fn trace_ok(
    g: &Table<Vec<Edge>>,
    tm: bool,
    s: i64,
    t: i64,
    tr: Seq<(u64, i64)>,
) -> bool {
    &&& tr.len() >= 1
    &&& tr[0].0 == 0
    &&& tr[0].1 == s
    &&& tr[tr.len() - 1].1 == t
    &&& forall|i: int| 0 <= i < tr.len() - 1 ==> trace_link(g, tm, #[trigger] tr[i], tr[i + 1])
}

/// The cost-only query and the full-path query agree: when both succeed on
/// the same graph, start and goal under the distance metric, the final
/// cumulative cost of the returned trace equals the returned cost.
pub proof fn lemma_cost_only_path_agree(
    g: &Table<Vec<Edge>>,
    s: i64,
    t: i64,
    c: u64,
    tr: Seq<(u64, i64)>,
)
    requires
        min_cost_is(g, false, s, t, c),
        tr.len() >= 1,
        min_cost_is(g, false, s, t, tr[tr.len() - 1].0),
    ensures
        tr[tr.len() - 1].0 == c,
{
    lemma_min_cost_unique(g, false, s, t, c, tr[tr.len() - 1].0);
}

/// The cost-only query: the cheapest total distance from `start` to `goal`,
/// or `None` when `start` has no entry or no walk cheaper than `u64::MAX`
/// reaches `goal`.
pub fn simple_shortest_path(adj_list: &Table<Vec<Edge>>, start: i64, goal: i64) -> (r: Option<u64>)
    requires
        adj_list.wf(),
    ensures
        match r {
            Some(c) => min_cost_is(adj_list, false, start, goal, c),
            None => !adj_list.has(start) || unreachable_within(adj_list, false, start, goal),
        },
        r is Some <==> (adj_list.has(start) && !unreachable_within(adj_list, false, start, goal)),
{
    match search(adj_list, false, start, goal) {
        Some(o) => {
            proof {
                lemma_out_basics(adj_list, false, start, goal, o);
                let p = choose|p: Seq<Edge>|
                    walk_to(adj_list, start, p, goal) && walk_cost(p, false) == o.cost;
                assert(adj_list.has(start));
                assert(!unreachable_within(adj_list, false, start, goal)) by {
                    if unreachable_within(adj_list, false, start, goal) {
                        assert(walk_cost(p, false) >= u64::MAX);
                    }
                }
            }
            Some(o.cost)
        },
        None => None,
    }
}

/// The boundary facts of a successful search.
proof fn lemma_out_basics(g: &Table<Vec<Edge>>, tm: bool, s: i64, t: i64, o: SearchOut)
    requires
        out_ok(g, tm, s, t, o),
    ensures
        min_cost_is(g, tm, s, t, o.cost),
        o.dist@.len() == g.k().len(),
        o.pred@.len() == g.k().len(),
        0 <= o.si < g.k().len(),
        g.k()[o.si as int] == s,
        o.dist@[o.si as int] == 0,
        0 <= o.gi < g.k().len(),
        g.k()[o.gi as int] == t,
        o.dist@[o.gi as int] == o.cost,
        ord_wf(o.ord@, g.k().len() as int),
        o.ord@.len() > 0,
        o.ord@[0] == o.si as int,
        o.ord@.contains(o.gi as int),
{
    reveal(out_ok);
}

/// One step back along the predecessor chain of a successful search.
proof fn lemma_chain_step(g: &Table<Vec<Edge>>, tm: bool, s: i64, t: i64, o: SearchOut, cur: int)
    requires
        g.wf(),
        out_ok(g, tm, s, t, o),
        o.ord@.contains(cur),
        cur != o.si as int,
    ensures
        0 <= cur < g.k().len(),
        0 <= o.pred@[cur] < g.k().len(),
        o.ord@.contains(o.pred@[cur] as int),
        0 <= rank(o.ord@, o.pred@[cur] as int) < rank(o.ord@, cur) < o.ord@.len(),
        o.dist@[cur] < u64::MAX,
        o.pred@[cur] as int != o.si as int ==> o.dist@[o.pred@[cur] as int] < u64::MAX,
        trace_link(
            g,
            tm,
            (o.dist@[o.pred@[cur] as int], g.k()[o.pred@[cur] as int]),
            (o.dist@[cur], g.k()[cur]),
        ),
{
    reveal(out_ok);
    let n = g.k().len() as int;
    let pq = o.pred@[cur] as int;
    lemma_rank(o.ord@, n, cur);
    lemma_rank(o.ord@, n, pq);
    lemma_key_idx(g, pq);
    assert(g.val_of(g.k()[pq])@ == g.v()[pq]@);
    let x = choose|x: int|
        #![auto]
        0 <= x < g.v()[pq]@.len() && g.v()[pq]@[x].node == g.k()[cur] && o.dist@[pq] + w_of(
            g.v()[pq]@[x],
            tm,
        ) == o.dist@[cur];
    assert(g.val_of(g.k()[pq])@[x] == g.v()[pq]@[x]);
    assert(trace_link(
        g,
        tm,
        (o.dist@[pq], g.k()[pq]),
        (o.dist@[cur], g.k()[cur]),
    ));
    if pq != o.si as int {
        assert(o.ord@.contains(pq) && pq != o.si as int);
    }
}

/// Walk the predecessor chain back from the goal and collect the trace in
/// reverse order.
fn rebuild_rev(adj_list: &Table<Vec<Edge>>, Ghost(tm): Ghost<bool>, Ghost(start): Ghost<i64>, Ghost(goal): Ghost<i64>, o: &SearchOut) -> (rev: Vec<(u64, i64)>)
    requires
        adj_list.wf(),
        out_ok(adj_list, tm, start, goal, *o),
    ensures
        rev@.len() >= 1,
        rev@[0] == (o.cost, goal),
        rev@[rev@.len() - 1] == (0u64, start),
        forall|i: int|
            0 <= i < rev@.len() - 1 ==> trace_link(adj_list, tm, #[trigger] rev@[i + 1], rev@[i]),
        forall|i: int, j: int| 0 <= i < j < rev@.len() ==> rev@[i].1 != rev@[j].1,
{
    proof {
        lemma_out_basics(adj_list, tm, start, goal, *o);
    }
    let ghost n = adj_list.k().len() as int;
    let ghost ord = o.ord@;
    let mut rev: Vec<(u64, i64)> = Vec::new();
    let ghost mut idxs: Seq<int> = Seq::empty();
    let mut cur: usize = o.gi;
    proof {
        lemma_rank(ord, n, cur as int);
    }
    while cur != o.si
        invariant
            adj_list.wf(),
            n == adj_list.k().len(),
            out_ok(adj_list, tm, start, goal, *o),
            o.dist@.len() == n,
            o.pred@.len() == n,
            0 <= o.si < n,
            adj_list.k()[o.si as int] == start,
            o.dist@[o.si as int] == 0,
            0 <= o.gi < n,
            adj_list.k()[o.gi as int] == goal,
            o.dist@[o.gi as int] == o.cost,
            ord == o.ord@,
            cur < n,
            ord.contains(cur as int),
            rev@.len() == 0 ==> cur == o.gi,
            rev@.len() >= 1 ==> rev@[0] == (o.cost, goal),
            rev@.len() >= 1 ==> trace_link(
                adj_list,
                tm,
                (o.dist@[cur as int], adj_list.k()[cur as int]),
                rev@.last(),
            ),
            forall|i: int|
                0 <= i < rev@.len() - 1 ==> trace_link(
                    adj_list,
                    tm,
                    #[trigger] rev@[i + 1],
                    rev@[i],
                ),
            idxs.len() == rev@.len(),
            forall|i: int|
                0 <= i < idxs.len() ==> 0 <= #[trigger] idxs[i] < n && rev@[i].1
                    == adj_list.k()[idxs[i]] && ord.contains(idxs[i]),
            forall|i: int, j: int|
                0 <= i < j < idxs.len() ==> rank(ord, #[trigger] idxs[j]) < rank(
                    ord,
                    #[trigger] idxs[i],
                ),
            rev@.len() >= 1 ==> rank(ord, cur as int) < rank(ord, idxs[idxs.len() - 1]),
        decreases rank(o.ord@, cur as int),
    {
        let ghost rev0 = rev@;
        let ghost cur0 = cur;
        proof {
            lemma_chain_step(adj_list, tm, start, goal, *o, cur as int);
        }
        let c: u64 = *vec_u64_ref(&o.dist, cur);
        let k: i64 = adj_list.key_at(cur);
        rev.push((c, k));
        let nxt: usize = *vec_usize_ref(&o.pred, cur);
        proof {
            assert(rev@ == rev0.push((o.dist@[cur0 as int], adj_list.k()[cur0 as int])));
            if rev0.len() == 0 {
                assert(cur0 == o.gi);
                assert(rev@[0] == (o.cost, goal));
            } else {
                assert(rev@[0] == rev0[0]);
            }
            let ghost idxs0 = idxs;
            idxs = idxs.push(cur0 as int);
            let ghost ll = idxs0.len() as int;
            assert(idxs[ll] == cur0 as int);
            assert forall|i: int, j: int|
                0 <= i < j < idxs.len() implies rank(ord, #[trigger] idxs[j]) < rank(
                ord,
                #[trigger] idxs[i],
            ) by {
                if j < ll {
                    assert(idxs[i] == idxs0[i] && idxs[j] == idxs0[j]);
                } else {
                    assert(idxs[j] == cur0 as int);
                    assert(idxs[i] == idxs0[i]);
                    if i < ll - 1 {
                        assert(rank(ord, idxs0[ll - 1]) < rank(ord, idxs0[i]));
                    }
                }
            }
            assert forall|i: int|
                0 <= i < rev@.len() - 1 implies trace_link(
                adj_list,
                tm,
                #[trigger] rev@[i + 1],
                rev@[i],
            ) by {
                if i < rev0.len() - 1 {
                    assert(rev@[i] == rev0[i] && rev@[i + 1] == rev0[i + 1]);
                } else {
                    assert(rev@[i] == rev0.last());
                    assert(rev@[i + 1] == (o.dist@[cur0 as int], adj_list.k()[cur0 as int]));
                }
            }
        }
        cur = nxt;
    }
    let cs: u64 = *vec_u64_ref(&o.dist, o.si);
    let ks: i64 = adj_list.key_at(o.si);
    let ghost revpre = rev@;
    rev.push((cs, ks));
    proof {
        assert(rev@ == revpre.push((0u64, start)));
        let ghost idxs0 = idxs;
        idxs = idxs.push(o.si as int);
        let ghost ll = idxs0.len() as int;
        assert(idxs[ll] == o.si as int);
        assert(rev@[ll].1 == adj_list.k()[o.si as int]);
        assert forall|i: int, j: int|
            0 <= i < j < idxs.len() implies rank(ord, #[trigger] idxs[j]) < rank(
            ord,
            #[trigger] idxs[i],
        ) by {
            if j < ll {
                assert(idxs[i] == idxs0[i] && idxs[j] == idxs0[j]);
            } else {
                assert(idxs[j] == o.si as int);
                assert(idxs[i] == idxs0[i]);
                if i < ll - 1 {
                    assert(rank(ord, idxs0[ll - 1]) < rank(ord, idxs0[i]));
                }
            }
        }
        // distinct ranks give distinct indexes, and distinct table keys
        assert forall|i: int, j: int| 0 <= i < j < rev@.len() implies rev@[i].1 != rev@[
        j].1 by {
            assert(rank(ord, idxs[j]) < rank(ord, idxs[i]));
            assert(idxs[i] != idxs[j]);
            assert(rev@[i].1 == adj_list.k()[idxs[i]]);
            assert(rev@[j].1 == adj_list.k()[idxs[j]]);
            if idxs[i] < idxs[j] {
                assert(adj_list.k()[idxs[i]] != adj_list.k()[idxs[j]]);
            } else {
                assert(adj_list.k()[idxs[j]] != adj_list.k()[idxs[i]]);
            }
        }
        if revpre.len() == 0 {
            // the goal is the start itself
            assert(cur == o.gi);
            assert(adj_list.k()[o.gi as int] == goal);
            assert(o.gi as int == o.si as int) by {
                if o.gi as int != o.si as int {
                    assert(adj_list.k()[o.gi as int] == adj_list.k()[o.si as int]);
                }
            }
            assert(o.cost == 0);
            assert(goal == start);
            assert(rev@[0] == (o.cost, goal));
        } else {
            assert(rev@[0] == revpre[0]);
            assert forall|i: int|
                0 <= i < rev@.len() - 1 implies trace_link(
                adj_list,
                tm,
                #[trigger] rev@[i + 1],
                rev@[i],
            ) by {
                if i < revpre.len() - 1 {
                    assert(rev@[i] == revpre[i] && rev@[i + 1] == revpre[i + 1]);
                } else {
                    assert(i == revpre.len() - 1);
                    assert(rev@[i] == revpre.last());
                    assert(rev@[i + 1] == (0u64, start));
                    assert(cur == o.si);
                    assert(trace_link(
                        adj_list,
                        tm,
                        (o.dist@[cur as int], adj_list.k()[cur as int]),
                        revpre.last(),
                    ));
                }
            }
        }
    }
    rev
}

/// The full-path query. The metric is selected by `mode`: "time" selects
/// the time weights, anything else the distance weights. A successful
/// result is the trace of the cheapest walk, as pairs of cumulative cost
/// and node identifier from the start (cost 0) to the goal (the total,
/// which is the minimum over all walks).
pub fn shortest_path(mode: &str, adj_list: &Table<Vec<Edge>>, start: i64, goal: i64) -> (r: Option<
    Vec<(u64, i64)>,
>)
    requires
        adj_list.wf(),
    ensures
        ({
            let tm = mode@ == "time"@;
            &&& match r {
                Some(tr) => {
                    &&& trace_ok(adj_list, tm, start, goal, tr@)
                    &&& min_cost_is(adj_list, tm, start, goal, tr@[tr@.len() - 1].0)
                    &&& forall|i: int, j: int|
                        0 <= i < j < tr@.len() ==> tr@[i].1 != tr@[j].1
                },
                None => !adj_list.has(start) || unreachable_within(adj_list, tm, start, goal),
            }
            &&& (r is Some <==> (adj_list.has(start) && !unreachable_within(
                adj_list,
                tm,
                start,
                goal,
            )))
        }),
{
    let tm: bool = mode.to_owned() == "time".to_owned();
    let o = match search(adj_list, tm, start, goal) {
        Some(o) => o,
        None => {
            return None;
        },
    };
    proof {
        lemma_out_basics(adj_list, tm, start, goal, o);
    }
    let rev = rebuild_rev(adj_list, Ghost(tm), Ghost(start), Ghost(goal), &o);
    let m = rev.len();
    let mut tr: Vec<(u64, i64)> = Vec::new();
    let mut i: usize = m;
    while i > 0
        invariant
            m == rev@.len(),
            i <= m,
            tr@.len() == m - i,
            forall|j: int| 0 <= j < tr@.len() ==> #[trigger] tr@[j] == rev@[m - 1 - j],
        decreases i,
    {
        i = i - 1;
        let entry: (u64, i64) = *vec_pair_ref(&rev, i);
        tr.push(entry);
    }
    proof {
        assert(tr@.len() == m);
        assert(tr@[0] == rev@[m - 1]);
        assert(tr@[m - 1] == rev@[0]);
        assert(tr@[m - 1].0 == o.cost && tr@[m - 1].1 == goal);
        assert forall|j: int| 0 <= j < tr@.len() - 1 implies trace_link(
            adj_list,
            tm,
            #[trigger] tr@[j],
            tr@[j + 1],
        ) by {
            assert(tr@[j] == rev@[m - 1 - j]);
            assert(tr@[j + 1] == rev@[m - 2 - j]);
            let i2 = m - 2 - j;
            assert(trace_link(adj_list, tm, rev@[i2 + 1], rev@[i2]));
        }
        assert(trace_ok(adj_list, tm, start, goal, tr@));
        assert forall|i: int, j: int| 0 <= i < j < tr@.len() implies tr@[i].1 != tr@[j].1 by {
            assert(tr@[i] == rev@[m - 1 - i]);
            assert(tr@[j] == rev@[m - 1 - j]);
            assert(rev@[m - 1 - j].1 != rev@[m - 1 - i].1);
        }
        assert(min_cost_is(adj_list, tm, start, goal, tr@[tr@.len() - 1].0));
        let p = choose|p: Seq<Edge>|
            walk_to(adj_list, start, p, goal) && walk_cost(p, tm) == o.cost;
        assert(adj_list.has(start));
        assert(!unreachable_within(adj_list, tm, start, goal)) by {
            if unreachable_within(adj_list, tm, start, goal) {
                assert(walk_cost(p, tm) >= u64::MAX);
            }
        }
    }
    Some(tr)
}

/// Borrow one entry of a predecessor list.
fn vec_usize_ref(v: &Vec<usize>, i: usize) -> (r: &usize)
    requires
        i < v@.len(),
    ensures
        *r == v@[i as int],
{
    &v[i]
}

/// Borrow one entry of a trace.
fn vec_pair_ref(v: &Vec<(u64, i64)>, i: usize) -> (r: &(u64, i64))
    requires
        i < v@.len(),
    ensures
        *r == v@[i as int],
{
    &v[i]
}

} // verus!
