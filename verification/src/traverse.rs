//! All-pairs distance aggregation by repeated breadth-first traversal.
//!
//! For a source `s`, `reach(g, s, k)` is the set of vertices within `k`
//! hops of `s`, and a vertex's shortest-path distance from `s` is the least
//! level at which it appears.  The aggregate sums those distances over all
//! ordered pairs of distinct vertices joined by a directed path; pairs with
//! no path contribute nothing.

use crate::graph::Graph;
use crate::graph::add_edge_order;
use crate::graph::add_edge_spec;
use crate::graph::add_vertex_order;
use crate::graph::wf_graph;
use vstd::prelude::*;
use vstd::set_lib::lemma_len_subset;
use vstd::set_lib::lemma_set_subset_finite;

verus! {

/// Vertices reached in one hop from some vertex of `from`.
pub open spec fn succ_set(g: Map<u64, Set<u64>>, from: Set<u64>) -> Set<u64> {
    Set::new(
        |t: u64|
            exists|m: u64|
                #[trigger] from.contains(m) && g.dom().contains(m) && g[m].contains(t),
    )
}

/// Vertices within `k` hops of `s`.
pub open spec fn reach(g: Map<u64, Set<u64>>, s: u64, k: nat) -> Set<u64>
    decreases k,
{
    if k == 0 {
        set![s]
    } else {
        let prev = reach(g, s, (k - 1) as nat);
        prev.union(succ_set(g, prev))
    }
}

/// Vertices whose shortest-path distance from `s` is exactly `k`.
pub open spec fn level_set(g: Map<u64, Set<u64>>, s: u64, k: nat) -> Set<u64> {
    if k == 0 {
        set![s]
    } else {
        reach(g, s, k).difference(reach(g, s, (k - 1) as nat))
    }
}

/// Sum, over the first `n` levels, of level number times the number of
/// vertices first discovered at that level.
pub open spec fn level_sum(g: Map<u64, Set<u64>>, s: u64, n: nat) -> int
    decreases n,
{
    if n == 0 {
        0
    } else {
        level_sum(g, s, (n - 1) as nat) + n * level_set(g, s, n).len()
    }
}

/// Sum of shortest-path distances from `s` to every vertex reachable from
/// `s` other than `s` itself.  Every reachable vertex lies within
/// `|dom|` hops, so the first `|dom|` levels cover them all.
pub open spec fn src_sum(g: Map<u64, Set<u64>>, s: u64) -> int {
    level_sum(g, s, g.dom().len())
}

/// Number of vertices reachable from `s` other than `s` itself.
pub open spec fn src_count(g: Map<u64, Set<u64>>, s: u64) -> int {
    reach(g, s, g.dom().len()).len() - 1
}

/// Sum of `src_sum` over the sources listed in `vs`.
pub open spec fn total_sum_from(g: Map<u64, Set<u64>>, vs: Seq<u64>) -> int
    decreases vs.len(),
{
    if vs.len() == 0 {
        0
    } else {
        total_sum_from(g, vs.drop_last()) + src_sum(g, vs.last())
    }
}

/// Sum of `src_count` over the sources listed in `vs`.
pub open spec fn total_count_from(g: Map<u64, Set<u64>>, vs: Seq<u64>) -> int
    decreases vs.len(),
{
    if vs.len() == 0 {
        0
    } else {
        total_count_from(g, vs.drop_last()) + src_count(g, vs.last())
    }
}

/// Levels only grow: anything within `i` hops is within `j >= i` hops.
pub proof fn lemma_reach_monotone(g: Map<u64, Set<u64>>, s: u64, i: nat, j: nat)
    requires
        i <= j,
    ensures
        reach(g, s, i).subset_of(reach(g, s, j)),
    decreases j,
{
    if i < j {
        lemma_reach_monotone(g, s, i, (j - 1) as nat);
    }
}

/// In a well-formed graph, every level stays inside the vertex set, is
/// finite, and holds the source.
pub proof fn lemma_reach_in_dom(g: Map<u64, Set<u64>>, s: u64, k: nat)
    requires
        wf_graph(g),
        g.dom().contains(s),
    ensures
        reach(g, s, k).subset_of(g.dom()),
        reach(g, s, k).finite(),
        reach(g, s, k).contains(s),
    decreases k,
{
    if k == 0 {
        assert(reach(g, s, 0).contains(s));
        assert(reach(g, s, 0).subset_of(g.dom()));
    } else {
        lemma_reach_in_dom(g, s, (k - 1) as nat);
        let prev = reach(g, s, (k - 1) as nat);
        assert forall|t: u64| reach(g, s, k).contains(t) implies g.dom().contains(t) by {
            if !prev.contains(t) {
                let m = choose|m: u64|
                    #[trigger] prev.contains(m) && g.dom().contains(m) && g[m].contains(t);
                assert(g[m].subset_of(g.dom()));
            }
        }
        lemma_set_subset_finite(g.dom(), reach(g, s, k));
    }
}

/// Once one level adds nothing, no later level adds anything.
pub proof fn lemma_reach_stable(g: Map<u64, Set<u64>>, s: u64, k: nat, m: nat)
    requires
        reach(g, s, (k + 1) as nat) == reach(g, s, k),
        k <= m,
    ensures
        reach(g, s, m) == reach(g, s, k),
    decreases m,
{
    if m > k {
        lemma_reach_stable(g, s, k, (m - 1) as nat);
        assert(reach(g, s, m) == reach(g, s, (m - 1) as nat).union(
            succ_set(g, reach(g, s, (m - 1) as nat)),
        ));
        assert(reach(g, s, (k + 1) as nat) == reach(g, s, k).union(succ_set(g, reach(g, s, k))));
    }
}

/// Once one level adds nothing, the distance sum stops growing.
pub proof fn lemma_level_sum_stable(g: Map<u64, Set<u64>>, s: u64, k: nat, m: nat)
    requires
        reach(g, s, (k + 1) as nat) == reach(g, s, k),
        k <= m,
    ensures
        level_sum(g, s, m) == level_sum(g, s, k),
    decreases m,
{
    if m > k {
        lemma_level_sum_stable(g, s, k, (m - 1) as nat);
        lemma_reach_stable(g, s, k, m);
        lemma_reach_stable(g, s, k, (m - 1) as nat);
        assert(level_set(g, s, m) =~= Set::<u64>::empty());
    }
}

/// A set strictly above one of its subsets holds a witness outside that
/// subset.
proof fn lemma_strict_superset_witness(a: Set<u64>, b: Set<u64>) -> (w: u64)
    requires
        b.subset_of(a),
        a != b,
    ensures
        a.contains(w),
        !b.contains(w),
{
    if forall|w: u64| #[trigger] b.contains(w) || !a.contains(w) {
        assert(a =~= b);
    }
    choose|w: u64| a.contains(w) && !b.contains(w)
}

/// While levels keep adding vertices, the reached set outgrows the level
/// number, so a non-empty level `d` means `d` is below the vertex count.
pub proof fn lemma_level_growth(g: Map<u64, Set<u64>>, s: u64, d: nat, t: u64)
    requires
        wf_graph(g),
        g.dom().contains(s),
        level_set(g, s, d).contains(t),
    ensures
        reach(g, s, d).len() >= d + 1,
        d < g.dom().len(),
    decreases d,
{
    lemma_reach_in_dom(g, s, d);
    if d == 0 {
        assert(reach(g, s, 0).contains(s));
        assert(reach(g, s, 0).len() >= 1) by {
            assert(reach(g, s, 0) == Set::<u64>::empty().insert(s));
        }
        lemma_len_subset(reach(g, s, 0), g.dom());
    } else {
        let prev = reach(g, s, (d - 1) as nat);
        assert(reach(g, s, d).contains(t) && !prev.contains(t));
        // the previous level cannot have been empty, else this one would
        // have added nothing
        if d == 1 {
            assert(level_set(g, s, 0).contains(s));
            lemma_level_growth(g, s, 0, s);
        } else {
            let prev2 = reach(g, s, (d - 2) as nat);
            lemma_reach_monotone(g, s, (d - 2) as nat, (d - 1) as nat);
            if prev == prev2 {
                lemma_reach_stable(g, s, (d - 2) as nat, d);
                lemma_reach_stable(g, s, (d - 2) as nat, (d - 1) as nat);
                assert(reach(g, s, d) == prev);
                assert(false);
            }
            let w = lemma_strict_superset_witness(prev, prev2);
            assert(level_set(g, s, (d - 1) as nat).contains(w));
            lemma_level_growth(g, s, (d - 1) as nat, w);
        }
        lemma_reach_in_dom(g, s, (d - 1) as nat);
        lemma_reach_monotone(g, s, (d - 1) as nat, d);
        prev.lemma_subset_not_in_lt(reach(g, s, d), t);
        lemma_len_subset(reach(g, s, d), g.dom());
    }
}

/// New vertices at the next level come from the current level's frontier
/// alone: one-hop successors of earlier levels were already reached.
pub proof fn lemma_frontier_succ(g: Map<u64, Set<u64>>, s: u64, d: nat)
    requires
        wf_graph(g),
        g.dom().contains(s),
    ensures
        reach(g, s, (d + 1) as nat).difference(reach(g, s, d)) =~= succ_set(
            g,
            level_set(g, s, d),
        ).difference(reach(g, s, d)),
{
    let cur = reach(g, s, d);
    let front = level_set(g, s, d);
    assert forall|t: u64|
        reach(g, s, (d + 1) as nat).difference(cur).contains(t) implies succ_set(
        g,
        front,
    ).difference(cur).contains(t) by {
        let m = choose|m: u64|
            #[trigger] cur.contains(m) && g.dom().contains(m) && g[m].contains(t);
        if d > 0 && reach(g, s, (d - 1) as nat).contains(m) {
            // then t was already reached at level d
            assert(succ_set(g, reach(g, s, (d - 1) as nat)).contains(t));
            assert(cur.contains(t));
            assert(false);
        } else {
            assert(front.contains(m));
        }
    }
    assert forall|t: u64|
        succ_set(g, front).difference(cur).contains(t) implies reach(
        g,
        s,
        (d + 1) as nat,
    ).difference(cur).contains(t) by {
        let m = choose|m: u64|
            #[trigger] front.contains(m) && g.dom().contains(m) && g[m].contains(t);
        assert(cur.contains(m)) by {
            if d == 0 {
            } else {
                assert(reach(g, s, d).difference(reach(g, s, (d - 1) as nat)).contains(m));
            }
        }
        assert(succ_set(g, cur).contains(t));
    }
}

/// One-hop successors of a set grown by one vertex: the old successors
/// together with that vertex's own neighbors.
pub proof fn lemma_succ_insert(g: Map<u64, Set<u64>>, from: Set<u64>, v: u64)
    requires
        g.dom().contains(v),
    ensures
        succ_set(g, from.insert(v)) =~= succ_set(g, from).union(g[v]),
{
    assert forall|t: u64| succ_set(g, from.insert(v)).contains(t) implies succ_set(
        g,
        from,
    ).union(g[v]).contains(t) by {
        let m = choose|m: u64|
            #[trigger] from.insert(v).contains(m) && g.dom().contains(m) && g[m].contains(t);
        if m != v {
            assert(from.contains(m));
        }
    }
    assert forall|t: u64| succ_set(g, from).union(g[v]).contains(t) implies succ_set(
        g,
        from.insert(v),
    ).contains(t) by {
        if succ_set(g, from).contains(t) {
            let m = choose|m: u64|
                #[trigger] from.contains(m) && g.dom().contains(m) && g[m].contains(t);
            assert(from.insert(v).contains(m));
        } else {
            assert(from.insert(v).contains(v) && g.dom().contains(v) && g[v].contains(t));
        }
    }
}

/// Two finite sets with nothing in common: the union's size is the sum of
/// the sizes.
pub proof fn lemma_len_disjoint_union(a: Set<u64>, b: Set<u64>)
    requires
        a.finite(),
        b.finite(),
        a.disjoint(b),
    ensures
        a.union(b).len() == a.len() + b.len(),
        a.union(b).finite(),
    decreases b.len(),
{
    if b.len() == 0 {
        assert(b =~= Set::<u64>::empty());
        assert(a.union(b) =~= a);
    } else {
        let x = b.choose();
        assert(b.contains(x));
        lemma_len_disjoint_union(a, b.remove(x));
        assert(a.union(b.remove(x)) =~= a.union(b).remove(x));
        assert(a.union(b).contains(x));
    }
}

/// The vertex `p.0` is first discovered at depth `p.1`: within that many
/// hops of the source, but not one fewer.  By the level-order guarantee of
/// breadth-first traversal, that depth is the shortest-path distance.
pub open spec fn first_found_at(g: Map<u64, Set<u64>>, s: u64, p: (u64, u64)) -> bool {
    &&& reach(g, s, p.1 as nat).contains(p.0)
    &&& p.1 > 0 ==> !reach(g, s, (p.1 - 1) as nat).contains(p.0)
}

/// A first-discovery depth is the level that holds the vertex: depths are
/// exact, so a direct neighbor of the source is always found at depth one.
pub proof fn lemma_first_found_unique(g: Map<u64, Set<u64>>, s: u64, p: (u64, u64), k: nat)
    requires
        first_found_at(g, s, p),
        level_set(g, s, k).contains(p.0),
    ensures
        p.1 as nat == k,
{
    if (p.1 as nat) < k {
        lemma_reach_monotone(g, s, p.1 as nat, (k - 1) as nat);
        assert(reach(g, s, (k - 1) as nat).contains(p.0));
    }
    if (p.1 as nat) > k {
        lemma_reach_monotone(g, s, k, (p.1 - 1) as nat);
        assert(reach(g, s, k).contains(p.0));
    }
}

/// A direct neighbor of the source, other than the source itself, sits at
/// level one: its shortest-path distance is exactly one.
pub proof fn lemma_direct_neighbor_distance(g: Map<u64, Set<u64>>, s: u64, t: u64)
    requires
        g.dom().contains(s),
        g[s].contains(t),
        t != s,
    ensures
        level_set(g, s, 1).contains(t),
{
    assert(reach(g, s, 0).contains(s));
    assert(succ_set(g, reach(g, s, 0)).contains(t)) by {
        assert(reach(g, s, 0).contains(s) && g.dom().contains(s) && g[s].contains(t));
    }
    assert(reach(g, s, 1).contains(t));
    assert(!reach(g, s, 0).contains(t));
}

/// Whether some entry of `r` records the vertex `t`.
pub open spec fn found(r: Seq<(u64, u64)>, t: u64) -> bool {
    exists|i: int| 0 <= i < r.len() && (#[trigger] r[i]).0 == t
}

/// The set of vertices recorded in `r`.
pub open spec fn verts_found(r: Seq<(u64, u64)>) -> Set<u64>
    decreases r.len(),
{
    if r.len() == 0 {
        Set::empty()
    } else {
        verts_found(r.drop_last()).insert(r.last().0)
    }
}

/// Sum of the depths recorded in `r`.
pub open spec fn depth_sum(r: Seq<(u64, u64)>) -> int
    decreases r.len(),
{
    if r.len() == 0 {
        0
    } else {
        depth_sum(r.drop_last()) + r.last().1
    }
}

/// `verts_found` records exactly the vertices that some entry holds.
pub proof fn lemma_verts_found_contains(r: Seq<(u64, u64)>, t: u64)
    ensures
        verts_found(r).contains(t) <==> found(r, t),
    decreases r.len(),
{
    if r.len() > 0 {
        lemma_verts_found_contains(r.drop_last(), t);
        if found(r.drop_last(), t) {
            let i = choose|i: int|
                0 <= i < r.drop_last().len() && (#[trigger] r.drop_last()[i]).0 == t;
            assert((r[i]).0 == t);
        }
        if found(r, t) && r.last().0 != t {
            let i = choose|i: int| 0 <= i < r.len() && (#[trigger] r[i]).0 == t;
            assert(i < r.len() - 1);
            assert((r.drop_last()[i]).0 == t);
        }
    }
}

/// Appending an entry grows the recorded set by its vertex and the depth
/// sum by its depth.
pub proof fn lemma_record_push(r: Seq<(u64, u64)>, p: (u64, u64))
    ensures
        verts_found(r.push(p)) == verts_found(r).insert(p.0),
        depth_sum(r.push(p)) == depth_sum(r) + p.1,
{
    assert(r.push(p).drop_last() =~= r);
}

/// A pushed element joins a sequence's set of elements.
proof fn lemma_push_to_set(sq: Seq<u64>, x: u64)
    ensures
        sq.push(x).to_set() =~= sq.to_set().insert(x),
{
    assert forall|t: u64| sq.push(x).to_set().contains(t) implies sq.to_set().insert(x).contains(
        t,
    ) by {
        let i = choose|i: int| 0 <= i < sq.push(x).len() && sq.push(x)[i] == t;
        if i < sq.len() {
            assert(sq[i] == t);
        }
    }
    assert forall|t: u64| sq.to_set().insert(x).contains(t) implies sq.push(x).to_set().contains(
        t,
    ) by {
        if t == x {
            assert(sq.push(x)[sq.len() as int] == t);
        } else {
            let i = choose|i: int| 0 <= i < sq.len() && sq[i] == t;
            assert(sq.push(x)[i] == t);
        }
    }
}

/// Pushing a fresh element keeps a sequence duplicate-free.
proof fn lemma_push_no_dup(sq: Seq<u64>, x: u64)
    requires
        sq.no_duplicates(),
        !sq.contains(x),
    ensures
        sq.push(x).no_duplicates(),
{
    let sq2 = sq.push(x);
    assert forall|p: int, q: int|
        0 <= p < sq2.len() && 0 <= q < sq2.len() && p != q implies sq2[p] != sq2[q] by {
        if p < sq.len() && q < sq.len() {
        } else if q == sq.len() {
            if sq2[p] == x {
                assert(sq[p] == x);
            }
        } else {
            if sq2[q] == x {
                assert(sq[q] == x);
            }
        }
    }
}

/// One more copy of `a`: multiplication steps by the multiplicand.
proof fn lemma_mul_step(a: int, b: int)
    by (nonlinear_arith)
    ensures
        a * (b + 1) == a * b + a,
{
}

/// Whether some entry of `r` records the vertex `x`.
fn pairs_contains(r: &Vec<(u64, u64)>, x: u64) -> (b: bool)
    ensures
        b == found(r@, x),
{
    let mut i: usize = 0;
    while i < r.len()
        invariant
            i <= r@.len(),
            forall|j: int| 0 <= j < i ==> (#[trigger] r@[j]).0 != x,
        decreases r@.len() - i,
    {
        if r[i].0 == x {
            assert(r@[i as int].0 == x);
            return true;
        }
        i = i + 1;
    }
    false
}

/// Breadth-first traversal from `s`, following outgoing arcs only.
///
/// Returns the discovery record: each vertex reachable from `s` appears
/// exactly once, paired with the depth at which it was first discovered,
/// which is its shortest-path distance from `s`; the source itself comes
/// first at depth zero, and recorded depths never decrease along the
/// record.  The recorded depths sum to `src_sum` and the record holds
/// `src_count + 1` entries.
#[verifier::loop_isolation(false)]
pub fn bfs_order(g: &Graph, s: u64) -> (r: Vec<(u64, u64)>)
    requires
        g.wf(),
        g@.dom().contains(s),
    ensures
        r@.len() >= 1,
        r@[0] == (s, 0u64),
        forall|i: int| 0 <= i < r@.len() ==> first_found_at(g@, s, #[trigger] r@[i]),
        forall|i: int, j: int|
            #![trigger r@[i], r@[j]]
            0 <= i < j < r@.len() ==> r@[i].0 != r@[j].0 && r@[i].1 <= r@[j].1,
        forall|t: u64, k: nat| #[trigger] reach(g@, s, k).contains(t) ==> found(r@, t),
        depth_sum(r@) == src_sum(g@, s),
        r@.len() == src_count(g@, s) + 1,
{
    let ghost gg = g@;
    let n = g.vertex_count();
    proof {
        g.lemma_wf_view();
    }
    let ghost nn = gg.dom().len();
    assert(nn == n);

    let mut r: Vec<(u64, u64)> = Vec::new();
    r.push((s, 0));
    let mut frontier: Vec<u64> = Vec::new();
    frontier.push(s);
    let mut depth: u64 = 0;

    proof {
        assert(r@.drop_last() =~= Seq::<(u64, u64)>::empty());
        assert(verts_found(Seq::<(u64, u64)>::empty()) == Set::<u64>::empty());
        assert(depth_sum(Seq::<(u64, u64)>::empty()) == 0);
        assert(verts_found(r@) =~= reach(gg, s, 0)) by {
            assert(verts_found(r@) == Set::<u64>::empty().insert(s));
        }
        assert(reach(gg, s, 0).len() == 1) by {
            assert(reach(gg, s, 0) == Set::<u64>::empty().insert(s));
        }
        assert(frontier@.to_set() =~= level_set(gg, s, 0)) by {
            assert(frontier@[0] == s);
            assert forall|t: u64| frontier@.to_set().contains(t) implies t == s by {
                let i = choose|i: int| 0 <= i < frontier@.len() && frontier@[i] == t;
            }
        }
        assert(reach(gg, s, 0).contains(s));
        assert(first_found_at(gg, s, (s, 0u64)));
        lemma_level_growth(gg, s, 0, s);
    }

    while frontier.len() > 0
        invariant
            depth <= nn,
            verts_found(r@) == reach(gg, s, depth as nat),
            frontier@.to_set() == level_set(gg, s, depth as nat),
            frontier@.no_duplicates(),
            r@.len() >= 1,
            r@[0] == (s, 0u64),
            forall|i: int| 0 <= i < r@.len() ==> first_found_at(gg, s, #[trigger] r@[i]),
            forall|i: int| 0 <= i < r@.len() ==> (#[trigger] r@[i]).1 <= depth,
            forall|i: int, j: int|
                #![trigger r@[i], r@[j]]
                0 <= i < j < r@.len() ==> r@[i].0 != r@[j].0 && r@[i].1 <= r@[j].1,
            depth_sum(r@) == level_sum(gg, s, depth as nat),
            r@.len() == reach(gg, s, depth as nat).len(),
        decreases nn - depth,
    {
        proof {
            assert(level_set(gg, s, depth as nat).contains(frontier@[0])) by {
                assert(frontier@.to_set().contains(frontier@[0]));
            }
            lemma_level_growth(gg, s, depth as nat, frontier@[0]);
            lemma_reach_in_dom(gg, s, depth as nat);
        }
        let ghost prev_reach = reach(gg, s, depth as nat);
        let mut next: Vec<u64> = Vec::new();
        let mut vi: usize = 0;
        proof {
            assert(frontier@.subrange(0, 0).to_set() =~= Set::<u64>::empty());
            assert(succ_set(gg, Set::<u64>::empty()).difference(prev_reach)
                =~= Set::<u64>::empty()) by {
                assert forall|t: u64| !succ_set(gg, Set::<u64>::empty()).contains(t) by {
                    if succ_set(gg, Set::<u64>::empty()).contains(t) {
                        let m = choose|m: u64|
                            #[trigger] Set::<u64>::empty().contains(m) && gg.dom().contains(m)
                                && gg[m].contains(t);
                    }
                }
            }
            assert(next@.to_set() =~= Set::<u64>::empty());
        }
        while vi < frontier.len()
            invariant
                vi <= frontier@.len(),
                next@.to_set() == succ_set(
                    gg,
                    frontier@.subrange(0, vi as int).to_set(),
                ).difference(prev_reach),
                next@.no_duplicates(),
                verts_found(r@) == prev_reach.union(next@.to_set()),
                r@.len() >= 1,
                r@[0] == (s, 0u64),
                forall|i: int| 0 <= i < r@.len() ==> first_found_at(gg, s, #[trigger] r@[i]),
                forall|i: int| 0 <= i < r@.len() ==> (#[trigger] r@[i]).1 <= depth + 1,
                forall|i: int, j: int|
                    #![trigger r@[i], r@[j]]
                    0 <= i < j < r@.len() ==> r@[i].0 != r@[j].0 && r@[i].1 <= r@[j].1,
                depth_sum(r@) == level_sum(gg, s, depth as nat) + (depth + 1) * next@.len(),
                r@.len() == prev_reach.len() + next@.len(),
            decreases frontier@.len() - vi,
        {
            let v = frontier[vi];
            proof {
                assert(frontier@.to_set().contains(v));
                assert(level_set(gg, s, depth as nat).contains(v));
                assert(prev_reach.contains(v)) by {
                    if depth > 0 {
                        assert(reach(gg, s, depth as nat).difference(
                            reach(gg, s, (depth - 1) as nat),
                        ).contains(v));
                    }
                }
                assert(gg.dom().contains(v));
            }
            let nb = g.neighbors(v);
            let ghost nbs = nb@;
            let mut wi: usize = 0;
            proof {
                assert(nbs.subrange(0, 0).to_set() =~= Set::<u64>::empty());
                assert(succ_set(gg, frontier@.subrange(0, vi as int).to_set()).union(
                    Set::<u64>::empty(),
                ) =~= succ_set(gg, frontier@.subrange(0, vi as int).to_set()));
            }
            while wi < nb.len()
                invariant
                    wi <= nbs.len(),
                    nb@ == nbs,
                    next@.to_set() == succ_set(
                        gg,
                        frontier@.subrange(0, vi as int).to_set(),
                    ).union(nbs.subrange(0, wi as int).to_set()).difference(prev_reach),
                    next@.no_duplicates(),
                    verts_found(r@) == prev_reach.union(next@.to_set()),
                    r@.len() >= 1,
                    r@[0] == (s, 0u64),
                    forall|i: int| 0 <= i < r@.len() ==> first_found_at(gg, s, #[trigger] r@[i]),
                    forall|i: int| 0 <= i < r@.len() ==> (#[trigger] r@[i]).1 <= depth + 1,
                    forall|i: int, j: int|
                        #![trigger r@[i], r@[j]]
                        0 <= i < j < r@.len() ==> r@[i].0 != r@[j].0 && r@[i].1 <= r@[j].1,
                    depth_sum(r@) == level_sum(gg, s, depth as nat) + (depth + 1) * next@.len(),
                    r@.len() == prev_reach.len() + next@.len(),
                decreases nbs.len() - wi,
            {
                let w = nb[wi];
                let seen = pairs_contains(&r, w);
                proof {
                    lemma_verts_found_contains(r@, w);
                    assert(nbs.subrange(0, wi + 1).drop_last() =~= nbs.subrange(0, wi as int));
                    lemma_push_to_set(nbs.subrange(0, wi as int), w);
                    assert(nbs.subrange(0, wi + 1) =~= nbs.subrange(0, wi as int).push(w));
                    assert(nbs.to_set().contains(w)) by {
                        assert(nbs[wi as int] == w);
                    }
                    assert(gg[v].contains(w));
                }
                if !seen {
                    let ghost r0 = r@;
                    let ghost next0 = next@;
                    r.push((w, depth + 1));
                    next.push(w);
                    proof {
                        lemma_record_push(r0, (w, (depth + 1) as u64));
                        lemma_push_to_set(next0, w);
                        lemma_mul_step(depth + 1, next0.len() as int);
                        assert(next@.len() == next0.len() + 1);
                        assert(!next0.contains(w)) by {
                            if next0.contains(w) {
                                assert(next0.to_set().contains(w));
                                assert(verts_found(r0).contains(w));
                            }
                        }
                        lemma_push_no_dup(next0, w);
                        assert(!prev_reach.contains(w)) by {
                            if prev_reach.contains(w) {
                                assert(verts_found(r0).contains(w));
                            }
                        }
                        // the new vertex is one hop past the frontier
                        assert(reach(gg, s, (depth + 1) as nat).contains(w)) by {
                            assert(prev_reach.contains(v) && gg.dom().contains(v)
                                && gg[v].contains(w));
                            assert(succ_set(gg, prev_reach).contains(w));
                        }
                        assert(first_found_at(gg, s, (w, (depth + 1) as u64)));
                        assert(verts_found(r@) =~= prev_reach.union(next@.to_set()));
                        assert(r@.len() == prev_reach.len() + next@.len());
                        // every index pair stays distinct and ordered
                        assert forall|i: int, j: int|
                            #![trigger r@[i], r@[j]]
                            0 <= i < j < r@.len() implies r@[i].0 != r@[j].0 && r@[i].1
                            <= r@[j].1 by {
                            if j == r@.len() - 1 {
                                assert(r@[i] == r0[i]);
                                if r0[i].0 == w {
                                    assert(found(r0, w));
                                }
                            }
                        }
                        assert(next@.to_set() =~= succ_set(
                            gg,
                            frontier@.subrange(0, vi as int).to_set(),
                        ).union(nbs.subrange(0, wi + 1).to_set()).difference(prev_reach));
                    }
                } else {
                    proof {
                        assert(verts_found(r@).contains(w));
                        assert(next@.to_set() =~= succ_set(
                            gg,
                            frontier@.subrange(0, vi as int).to_set(),
                        ).union(nbs.subrange(0, wi + 1).to_set()).difference(prev_reach));
                    }
                }
                wi = wi + 1;
            }
            proof {
                assert(nbs.subrange(0, nbs.len() as int) =~= nbs);
                assert(frontier@.subrange(0, vi + 1).to_set() =~= frontier@.subrange(
                    0,
                    vi as int,
                ).to_set().insert(v)) by {
                    lemma_push_to_set(frontier@.subrange(0, vi as int), v);
                    assert(frontier@.subrange(0, vi + 1) =~= frontier@.subrange(
                        0,
                        vi as int,
                    ).push(v));
                }
                lemma_succ_insert(gg, frontier@.subrange(0, vi as int).to_set(), v);
                assert(next@.to_set() =~= succ_set(
                    gg,
                    frontier@.subrange(0, vi + 1).to_set(),
                ).difference(prev_reach));
            }
            vi = vi + 1;
        }
        proof {
            assert(frontier@.subrange(0, frontier@.len() as int) =~= frontier@);
            lemma_frontier_succ(gg, s, depth as nat);
            assert(next@.to_set() =~= level_set(gg, s, (depth + 1) as nat)) by {
                assert(next@.to_set() =~= succ_set(gg, level_set(gg, s, depth as nat)).difference(
                    prev_reach,
                ));
            }
            assert(verts_found(r@) =~= reach(gg, s, (depth + 1) as nat)) by {
                assert forall|t: u64|
                    reach(gg, s, (depth + 1) as nat).contains(t) implies prev_reach.union(
                    next@.to_set(),
                ).contains(t) by {
                    if !prev_reach.contains(t) {
                        assert(level_set(gg, s, (depth + 1) as nat).contains(t));
                    }
                }
            }
            next@.unique_seq_to_set();
            lemma_reach_in_dom(gg, s, (depth + 1) as nat);
            lemma_reach_in_dom(gg, s, depth as nat);
            lemma_set_subset_finite(gg.dom(), prev_reach);
            lemma_len_disjoint_union(prev_reach, next@.to_set());
            assert(reach(gg, s, (depth + 1) as nat) =~= prev_reach.union(next@.to_set()));
            assert(reach(gg, s, (depth + 1) as nat).len() == prev_reach.len() + next@.len());
            assert(level_sum(gg, s, (depth + 1) as nat) == level_sum(gg, s, depth as nat) + (depth
                + 1) * next@.len()) by {
                assert(level_set(gg, s, (depth + 1) as nat).len() == next@.len());
            }
        }
        frontier = next;
        depth = depth + 1;
    }
    proof {
        if depth == 0 {
            assert(level_set(gg, s, 0).contains(s));
            assert(frontier@.to_set().contains(s));
            let i = choose|i: int| 0 <= i < frontier@.len() && frontier@[i] == s;
            assert(false);
        }
        let d1 = (depth - 1) as nat;
        assert(level_set(gg, s, depth as nat) =~= Set::<u64>::empty()) by {
            assert forall|t: u64| !frontier@.to_set().contains(t) by {
                if frontier@.to_set().contains(t) {
                    let i = choose|i: int| 0 <= i < frontier@.len() && frontier@[i] == t;
                }
            }
        }
        assert(reach(gg, s, (d1 + 1) as nat) == reach(gg, s, d1)) by {
            lemma_reach_monotone(gg, s, d1, depth as nat);
            assert(reach(gg, s, depth as nat) =~= reach(gg, s, d1)) by {
                assert forall|t: u64|
                    reach(gg, s, depth as nat).contains(t) implies reach(gg, s, d1).contains(
                    t,
                ) by {
                    if !reach(gg, s, d1).contains(t) {
                        assert(level_set(gg, s, depth as nat).contains(t));
                    }
                }
            }
            assert((d1 + 1) as nat == depth as nat);
        }
        lemma_reach_stable(gg, s, d1, nn);
        lemma_level_sum_stable(gg, s, d1, nn);
        assert(level_sum(gg, s, depth as nat) == level_sum(gg, s, d1) + depth * level_set(
            gg,
            s,
            depth as nat,
        ).len());
        assert(level_set(gg, s, depth as nat).len() == 0);
        let ghost ll = level_set(gg, s, depth as nat).len() as int;
        assert(depth * ll == 0) by (nonlinear_arith)
            requires
                ll == 0,
        ;
        assert(depth_sum(r@) == level_sum(gg, s, depth as nat));
        assert(level_sum(gg, s, depth as nat) == level_sum(gg, s, d1));
        assert(level_sum(gg, s, nn) == level_sum(gg, s, d1));
        assert(src_sum(gg, s) == level_sum(gg, s, nn));
        assert(depth_sum(r@) == src_sum(gg, s));
        assert(reach(gg, s, depth as nat) == reach(gg, s, d1));
        assert(r@.len() == src_count(gg, s) + 1);
        assert forall|t: u64, k: nat| #[trigger] reach(gg, s, k).contains(t) implies found(
            r@,
            t,
        ) by {
            if k <= d1 {
                lemma_reach_monotone(gg, s, k, d1);
            } else {
                lemma_reach_stable(gg, s, d1, k);
            }
            assert(reach(gg, s, d1).contains(t));
            assert(verts_found(r@).contains(t));
            lemma_verts_found_contains(r@, t);
        }
    }
    r
}

/// Depth sums only grow along prefixes of a record.
proof fn lemma_depth_sum_prefix(r: Seq<(u64, u64)>, i: int, j: int)
    requires
        0 <= i <= j <= r.len(),
    ensures
        depth_sum(r.subrange(0, i)) <= depth_sum(r.subrange(0, j)),
    decreases j - i,
{
    if i < j {
        lemma_depth_sum_prefix(r, i, j - 1);
        assert(r.subrange(0, j).drop_last() =~= r.subrange(0, j - 1));
    }
}

/// Checked sum of the depths of a discovery record.  `None` exactly when
/// the true sum does not fit in `u64`.
pub fn sum_depths(r: &Vec<(u64, u64)>) -> (o: Option<u64>)
    ensures
        match o {
            Some(v) => v as int == depth_sum(r@),
            None => depth_sum(r@) > u64::MAX,
        },
{
    let mut acc: u64 = 0;
    let mut i: usize = 0;
    while i < r.len()
        invariant
            i <= r@.len(),
            acc as int == depth_sum(r@.subrange(0, i as int)),
        decreases r@.len() - i,
    {
        let ghost pre1 = r@.subrange(0, i + 1);
        proof {
            assert(pre1.drop_last() =~= r@.subrange(0, i as int));
            assert(pre1.last() == r@[i as int]);
        }
        match acc.checked_add(r[i].1) {
            Some(v) => {
                acc = v;
            },
            None => {
                proof {
                    lemma_depth_sum_prefix(r@, i + 1, r@.len() as int);
                    assert(r@.subrange(0, r@.len() as int) =~= r@);
                }
                return None;
            },
        }
        i = i + 1;
    }
    proof {
        assert(r@.subrange(0, r@.len() as int) =~= r@);
    }
    Some(acc)
}

/// Level sums are never negative.
proof fn lemma_level_sum_nonneg(g: Map<u64, Set<u64>>, s: u64, n: nat)
    ensures
        level_sum(g, s, n) >= 0,
    decreases n,
{
    if n > 0 {
        lemma_level_sum_nonneg(g, s, (n - 1) as nat);
        let ghost ll = level_set(g, s, n).len() as int;
        assert(n * ll >= 0) by (nonlinear_arith)
            requires
                ll >= 0,
                n >= 0,
        ;
    }
}

/// Every source reaches at least itself, so per-source counts are never
/// negative.
proof fn lemma_src_count_nonneg(g: Map<u64, Set<u64>>, s: u64)
    requires
        wf_graph(g),
        g.dom().contains(s),
    ensures
        src_count(g, s) >= 0,
{
    lemma_reach_in_dom(g, s, g.dom().len());
    let re = reach(g, s, g.dom().len());
    if re.len() == 0 {
        re.lemma_len0_is_empty();
        assert(!re.contains(s));
    }
}

/// Totals over a prefix of the sources never exceed the totals over all of
/// them.
proof fn lemma_total_prefix(g: Map<u64, Set<u64>>, vs: Seq<u64>, i: int)
    requires
        wf_graph(g),
        0 <= i <= vs.len(),
        forall|k: int| 0 <= k < vs.len() ==> g.dom().contains(#[trigger] vs[k]),
    ensures
        total_sum_from(g, vs.subrange(0, i)) <= total_sum_from(g, vs),
        total_count_from(g, vs.subrange(0, i)) <= total_count_from(g, vs),
    decreases vs.len() - i,
{
    if i == vs.len() {
        assert(vs.subrange(0, i) =~= vs);
    } else {
        lemma_total_prefix(g, vs.drop_last(), i);
        assert(vs.drop_last().subrange(0, i) =~= vs.subrange(0, i));
        lemma_level_sum_nonneg(g, vs.last(), g.dom().len());
        lemma_src_count_nonneg(g, vs.last());
    }
}

/// Total distance sum and ordered reachable-pair count over the whole
/// graph: one breadth-first traversal per source vertex.
///
/// The sum adds, for every ordered pair `(s, t)` of distinct vertices with
/// a directed path from `s` to `t`, the shortest-path distance from `s` to
/// `t`; the count is the number of such pairs.  Pairs with no path are not
/// counted.  The average distance is the ratio of the two totals, defined
/// as zero when the count is zero.  Returns `None` exactly when one of the
/// totals does not fit in `u64`.
pub fn distance_totals(g: &Graph) -> (o: Option<(u64, u64)>)
    requires
        g.wf(),
    ensures
        match o {
            Some(t) => t.0 as int == total_sum_from(g@, g.vert_seq()) && t.1 as int
                == total_count_from(g@, g.vert_seq()),
            None => total_sum_from(g@, g.vert_seq()) > u64::MAX || total_count_from(
                g@,
                g.vert_seq(),
            ) > u64::MAX,
        },
{
    let ghost gg = g@;
    let ghost vs = g.vert_seq();
    proof {
        g.lemma_wf_view();
        assert forall|k: int| 0 <= k < vs.len() implies gg.dom().contains(#[trigger] vs[k]) by {
            assert(vs.to_set().contains(vs[k]));
        }
    }
    let n = g.vertex_count();
    let mut sum: u64 = 0;
    let mut count: u64 = 0;
    let mut i: usize = 0;
    while i < n
        invariant
            i <= n,
            n == vs.len(),
            gg == g@,
            vs == g.vert_seq(),
            g.wf(),
            wf_graph(gg),
            forall|k: int| 0 <= k < vs.len() ==> gg.dom().contains(#[trigger] vs[k]),
            sum as int == total_sum_from(gg, vs.subrange(0, i as int)),
            count as int == total_count_from(gg, vs.subrange(0, i as int)),
        decreases n - i,
    {
        let s = g.vertex_at(i);
        proof {
            assert(gg.dom().contains(s));
            assert(vs.subrange(0, i + 1).drop_last() =~= vs.subrange(0, i as int));
            assert(vs.subrange(0, i + 1).last() == s);
        }
        let order = bfs_order(g, s);
        let per_source = sum_depths(&order);
        let sc: u64 = (order.len() - 1) as u64;
        proof {
            assert(sc as int == src_count(gg, s));
        }
        let stepped = match per_source {
            Some(v) => sum.checked_add(v),
            None => None,
        };
        match stepped {
            Some(v) => {
                sum = v;
            },
            None => {
                proof {
                    assert(total_sum_from(gg, vs.subrange(0, i + 1)) > u64::MAX);
                    lemma_total_prefix(gg, vs, i + 1);
                }
                return None;
            },
        }
        match count.checked_add(sc) {
            Some(v) => {
                count = v;
            },
            None => {
                proof {
                    assert(total_count_from(gg, vs.subrange(0, i + 1)) > u64::MAX);
                    lemma_total_prefix(gg, vs, i + 1);
                }
                return None;
            },
        }
        i = i + 1;
    }
    proof {
        assert(vs.subrange(0, vs.len() as int) =~= vs);
    }
    Some((sum, count))
}

/// A finite set with two distinct members has at least two elements.
proof fn lemma_two_elements(s: Set<u64>, a: u64, b: u64)
    requires
        s.finite(),
        s.contains(a),
        s.contains(b),
        a != b,
    ensures
        s.len() >= 2,
{
    let s2 = Set::<u64>::empty().insert(a).insert(b);
    lemma_len_subset(s2, s);
    assert(s2.len() == 2);
}

/// With fewer than two vertices, or with no arcs at all, no vertex reaches
/// another: both totals are zero, so the average distance is the defined
/// zero.
pub proof fn lemma_trivial_graph_zero(g: Map<u64, Set<u64>>, vs: Seq<u64>)
    requires
        wf_graph(g),
        forall|k: int| 0 <= k < vs.len() ==> g.dom().contains(#[trigger] vs[k]),
        g.dom().len() <= 1 || (forall|v: u64|
            g.dom().contains(v) ==> #[trigger] g[v] == Set::<u64>::empty()),
    ensures
        total_sum_from(g, vs) == 0,
        total_count_from(g, vs) == 0,
    decreases vs.len(),
{
    if vs.len() > 0 {
        lemma_trivial_graph_zero(g, vs.drop_last());
        let s = vs.last();
        assert(reach(g, s, 1) == reach(g, s, 0)) by {
            assert(reach(g, s, 1) =~= reach(g, s, 0)) by {
                assert forall|t: u64| succ_set(g, reach(g, s, 0)).contains(t) implies reach(
                    g,
                    s,
                    0,
                ).contains(t) by {
                    let m = choose|m: u64|
                        #[trigger] reach(g, s, 0).contains(m) && g.dom().contains(m)
                            && g[m].contains(t);
                    assert(m == s);
                    if g.dom().len() <= 1 {
                        assert(g[s].subset_of(g.dom()));
                        assert(g.dom().contains(t));
                        if t != s {
                            lemma_two_elements(g.dom(), s, t);
                        }
                        assert(reach(g, s, 0).contains(t));
                    } else {
                        assert(g[s] == Set::<u64>::empty());
                        assert(false);
                    }
                }
            }
        }
        lemma_reach_stable(g, s, 0, g.dom().len());
        lemma_level_sum_stable(g, s, 0, g.dom().len());
        assert(src_sum(g, s) == 0);
        assert(src_count(g, s) == 0) by {
            assert(reach(g, s, g.dom().len()) == reach(g, s, 0));
            assert(reach(g, s, 0) == Set::<u64>::empty().insert(s));
        }
    }
}

/// After as many levels as there are vertices, nothing more is reached.
pub proof fn lemma_reach_converged(g: Map<u64, Set<u64>>, s: u64)
    requires
        wf_graph(g),
        g.dom().contains(s),
    ensures
        reach(g, s, (g.dom().len() + 1) as nat) == reach(g, s, g.dom().len()),
{
    let nn = g.dom().len();
    lemma_reach_monotone(g, s, nn, (nn + 1) as nat);
    if reach(g, s, (nn + 1) as nat) != reach(g, s, nn) {
        let w = lemma_strict_superset_witness(reach(g, s, (nn + 1) as nat), reach(g, s, nn));
        assert(level_set(g, s, (nn + 1) as nat).contains(w));
        lemma_level_growth(g, s, (nn + 1) as nat, w);
        assert(false);
    }
}

/// A self-loop at `v` changes no level: every vertex it could reach is
/// reached already.
proof fn lemma_self_loop_reach(g: Map<u64, Set<u64>>, v: u64, s: u64, k: nat)
    ensures
        reach(add_edge_spec(g, v, v), s, k) == reach(g, s, k),
    decreases k,
{
    let g1 = add_edge_spec(g, v, v);
    assert(g1.dom() =~= g.dom().insert(v));
    if k > 0 {
        lemma_self_loop_reach(g, v, s, (k - 1) as nat);
        let prev = reach(g, s, (k - 1) as nat);
        assert(reach(g1, s, k) =~= reach(g, s, k)) by {
            assert forall|t: u64| reach(g1, s, k).contains(t) implies reach(g, s, k).contains(
                t,
            ) by {
                if !prev.contains(t) {
                    let m = choose|m: u64|
                        #[trigger] prev.contains(m) && g1.dom().contains(m) && g1[m].contains(t);
                    if m == v {
                        if g.dom().contains(v) {
                            assert(g1[v] == g[v].insert(v));
                            assert(t != v) by {
                                if t == v {
                                    assert(prev.contains(v));
                                }
                            }
                            assert(g[v].contains(t));
                            assert(succ_set(g, prev).contains(t)) by {
                                assert(prev.contains(v) && g.dom().contains(v) && g[v].contains(
                                    t,
                                ));
                            }
                        } else {
                            assert(g1[v] == Set::<u64>::empty().insert(v));
                            assert(t == v);
                            assert(false);
                        }
                    } else {
                        assert(g1[m] == g[m] && g.dom().contains(m));
                        assert(succ_set(g, prev).contains(t)) by {
                            assert(prev.contains(m) && g.dom().contains(m) && g[m].contains(t));
                        }
                    }
                }
            }
            assert forall|t: u64| reach(g, s, k).contains(t) implies reach(g1, s, k).contains(
                t,
            ) by {
                if !prev.contains(t) {
                    let m = choose|m: u64|
                        #[trigger] prev.contains(m) && g.dom().contains(m) && g[m].contains(t);
                    assert(g1.dom().contains(m));
                    assert(g1[m].contains(t)) by {
                        if m == v {
                            assert(g1[v] == g[v].insert(v));
                        } else {
                            assert(g1[m] == g[m]);
                        }
                    }
                    assert(succ_set(g1, prev).contains(t)) by {
                        assert(prev.contains(m) && g1.dom().contains(m) && g1[m].contains(t));
                    }
                }
            }
        }
    }
}

/// A self-loop at `v` changes no level sum.
proof fn lemma_self_loop_level_sum(g: Map<u64, Set<u64>>, v: u64, s: u64, n: nat)
    ensures
        level_sum(add_edge_spec(g, v, v), s, n) == level_sum(g, s, n),
    decreases n,
{
    if n > 0 {
        lemma_self_loop_level_sum(g, v, s, (n - 1) as nat);
        lemma_self_loop_reach(g, v, s, n);
        lemma_self_loop_reach(g, v, s, (n - 1) as nat);
        assert(level_set(add_edge_spec(g, v, v), s, n) == level_set(g, s, n));
    }
}

/// A self-loop at `v` changes neither per-source total of a vertex already
/// in the graph.
proof fn lemma_self_loop_src(g: Map<u64, Set<u64>>, v: u64, s: u64)
    requires
        wf_graph(g),
        g.dom().contains(s),
    ensures
        src_sum(add_edge_spec(g, v, v), s) == src_sum(g, s),
        src_count(add_edge_spec(g, v, v), s) == src_count(g, s),
{
    let g1 = add_edge_spec(g, v, v);
    let nn = g.dom().len();
    assert(g1.dom() =~= g.dom().insert(v));
    if g.dom().contains(v) {
        assert(g.dom().insert(v) =~= g.dom());
        assert(g1.dom().len() == nn);
        lemma_self_loop_level_sum(g, v, s, nn);
        lemma_self_loop_reach(g, v, s, nn);
    } else {
        assert(g1.dom().len() == nn + 1);
        lemma_self_loop_level_sum(g, v, s, (nn + 1) as nat);
        lemma_self_loop_reach(g, v, s, (nn + 1) as nat);
        lemma_reach_converged(g, s);
        lemma_reach_stable(g, s, nn, (nn + 1) as nat);
        lemma_level_sum_stable(g, s, nn, (nn + 1) as nat);
    }
}

/// A vertex brought in by its own self-loop alone reaches nothing else.
proof fn lemma_self_loop_new_src(g: Map<u64, Set<u64>>, v: u64)
    requires
        !g.dom().contains(v),
    ensures
        src_sum(add_edge_spec(g, v, v), v) == 0,
        src_count(add_edge_spec(g, v, v), v) == 0,
{
    let g1 = add_edge_spec(g, v, v);
    assert(g1[v] == Set::<u64>::empty().insert(v));
    assert(reach(g1, v, 1) == reach(g1, v, 0)) by {
        assert(reach(g1, v, 1) =~= reach(g1, v, 0)) by {
            assert forall|t: u64| succ_set(g1, reach(g1, v, 0)).contains(t) implies reach(
                g1,
                v,
                0,
            ).contains(t) by {
                let m = choose|m: u64|
                    #[trigger] reach(g1, v, 0).contains(m) && g1.dom().contains(m)
                        && g1[m].contains(t);
                assert(m == v);
                assert(t == v);
            }
        }
    }
    lemma_reach_stable(g1, v, 0, g1.dom().len());
    lemma_level_sum_stable(g1, v, 0, g1.dom().len());
    assert(reach(g1, v, 0) == Set::<u64>::empty().insert(v));
}

/// A self-loop changes no total taken over the same source list.
proof fn lemma_self_loop_totals_same(g: Map<u64, Set<u64>>, vs: Seq<u64>, v: u64)
    requires
        wf_graph(g),
        forall|k: int| 0 <= k < vs.len() ==> g.dom().contains(#[trigger] vs[k]),
    ensures
        total_sum_from(add_edge_spec(g, v, v), vs) == total_sum_from(g, vs),
        total_count_from(add_edge_spec(g, v, v), vs) == total_count_from(g, vs),
    decreases vs.len(),
{
    if vs.len() > 0 {
        lemma_self_loop_totals_same(g, vs.drop_last(), v);
        lemma_self_loop_src(g, v, vs.last());
    }
}

/// Self-loops never join the pair totals: recording the arc `v -> v`
/// changes neither the distance sum nor the reachable-pair count, whether
/// or not `v` was already a vertex.
pub proof fn lemma_self_loop_ignored(g: Map<u64, Set<u64>>, vs: Seq<u64>, v: u64)
    requires
        wf_graph(g),
        vs.to_set() == g.dom(),
    ensures
        total_sum_from(add_edge_spec(g, v, v), add_edge_order(vs, v, v)) == total_sum_from(g, vs),
        total_count_from(add_edge_spec(g, v, v), add_edge_order(vs, v, v)) == total_count_from(
            g,
            vs,
        ),
{
    assert forall|k: int| 0 <= k < vs.len() implies g.dom().contains(#[trigger] vs[k]) by {
        assert(vs.to_set().contains(vs[k]));
    }
    lemma_self_loop_totals_same(g, vs, v);
    let vs1 = add_vertex_order(vs, v);
    if vs.contains(v) {
        assert(add_edge_order(vs, v, v) == vs);
    } else {
        assert(vs1 == vs.push(v));
        assert(vs1.contains(v)) by {
            assert(vs1[vs.len() as int] == v);
        }
        assert(add_edge_order(vs, v, v) == vs1);
        assert(vs1.drop_last() =~= vs);
        assert(!g.dom().contains(v)) by {
            if g.dom().contains(v) {
                assert(vs.to_set().contains(v));
            }
        }
        lemma_self_loop_new_src(g, v);
    }
}

} // verus!
