//! The message schedule of generalized belief propagation on a region graph: which messages enter
//! each region's subtree, and for each edge which messages it multiplies in and divides out. The
//! arithmetic on the messages is floating point and lives with the caller; what is fixed by the
//! region graph alone is computed and specified here.

use vstd::prelude::*;
use crate::graph::{Graph, in_row};
use crate::region::{RegionGraph, contains, is_edge, lists, positions, strictly_inc, subset};

verus! {

/// Whether region `x` lies inside region `r`'s subtree: `r` itself or a region it contains.
pub open spec fn inside(rg: RegionGraph, r: int, x: int) -> bool {
    subset(rg.regs()[x], rg.regs()[r])
}

/// Whether edge `f` of the region graph enters region `r`'s subtree: its child lies inside and its
/// parent does not. These are the messages `E(r)` a belief at `r` collects.
pub open spec fn enters(rg: RegionGraph, r: int, f: int) -> bool {
    inside(rg, r, rg.edges@[f].1 as int) && !inside(rg, r, rg.edges@[f].0 as int)
}

/// Whether `pos` places each variable of `inner` at its first position in `outer`.
pub open spec fn placed(outer: Seq<usize>, inner: Seq<usize>, pos: Seq<usize>) -> bool {
    &&& pos.len() == inner.len()
    &&& forall|b: int|
        0 <= b < inner.len() ==> #[trigger] pos[b] < outer.len() && outer[pos[b] as int] == inner[b]
            && forall|q: int| 0 <= q < pos[b] ==> outer[q] != inner[b]
}

/// Whether every edge of `rg` joins two of its regions, the child inside the parent. A region
/// graph from [`RegionGraph::new`] or [`RegionGraph::bethe`] has this structure and more.
pub open spec fn edges_nest(rg: RegionGraph) -> bool {
    forall|e: int|
        0 <= e < rg.edges@.len() ==> (#[trigger] rg.edges@[e]).0 < rg.regs().len() && rg.edges@[e].1
            < rg.regs().len() && inside(rg, rg.edges@[e].0 as int, rg.edges@[e].1 as int)
}

/// A region graph with the structure [`RegionGraph::new`] gives nests along its edges.
pub proof fn lemma_structured_graphs_nest(rg: RegionGraph)
    requires
        rg.structure_ok(),
    ensures
        edges_nest(rg),
{
    assert forall|e: int| 0 <= e < rg.edges@.len() implies (#[trigger] rg.edges@[e]).0 < rg.regs().len()
        && rg.edges@[e].1 < rg.regs().len() && inside(rg, rg.edges@[e].0 as int, rg.edges@[e].1 as int) by {
        assert(rg.edges@.contains(rg.edges@[e]));
        assert(is_edge(rg.regs(), rg.edges@[e].0 as int, rg.edges@[e].1 as int));
    }
}

/// Whether region `x` lies inside region `r`'s subtree.
fn is_inside(rg: &RegionGraph, r: usize, x: usize) -> (b: bool)
    requires
        r < rg.regs().len(),
        x < rg.regs().len(),
    ensures
        b == inside(*rg, r as int, x as int),
{
    assert(rg.regions@[r as int]@ == rg.regs()[r as int]);
    assert(rg.regions@[x as int]@ == rg.regs()[x as int]);
    contains(&rg.regions[r], &rg.regions[x])
}

/// For each region, the edges entering its subtree, ascending.
pub fn entering(rg: &RegionGraph) -> (ent: Vec<Vec<usize>>)
    requires
        edges_nest(*rg),
    ensures
        ent@.len() == rg.regs().len(),
        forall|r: int|
            0 <= r < rg.regs().len() ==> lists(
                (#[trigger] ent@[r])@,
                rg.edges@.len() as int,
                |f: int| enters(*rg, r, f),
            ),
{
    let k = rg.regions.len();
    let m = rg.edges.len();
    let mut ent: Vec<Vec<usize>> = Vec::new();
    let mut r: usize = 0;
    while r < k
        invariant
            edges_nest(*rg),
            k == rg.regs().len(),
            m == rg.edges@.len(),
            r <= k,
            ent@.len() == r,
            forall|s: int| 0 <= s < r ==> lists((#[trigger] ent@[s])@, m as int, |f: int| enters(*rg, s, f)),
        decreases k - r,
    {
        let mut row: Vec<usize> = Vec::new();
        let mut e: usize = 0;
        while e < m
            invariant
                edges_nest(*rg),
                k == rg.regs().len(),
                m == rg.edges@.len(),
                r < k,
                e <= m,
                strictly_inc(row@),
                forall|t: int| 0 <= t < row@.len() ==> #[trigger] row@[t] < e,
                forall|x: usize| row@.contains(x) <==> (x < e && enters(*rg, r as int, x as int)),
            decreases m - e,
        {
            assert(edges_nest(*rg));
            assert(rg.edges@[e as int].0 < k && rg.edges@[e as int].1 < k);
            let (p, c) = rg.edges[e];
            let ghost before = row@;
            if is_inside(rg, r, c) && !is_inside(rg, r, p) {
                row.push(e);
                proof {
                    assert forall|x: usize| row@.contains(x) <==> (x < e + 1 && enters(*rg, r as int, x as int)) by {
                        if row@.contains(x) {
                            let t = choose|t: int| 0 <= t < row@.len() && row@[t] == x;
                            if t < before.len() {
                                assert(before[t] == x);
                                assert(before.contains(x));
                            }
                        }
                        if x < e && enters(*rg, r as int, x as int) {
                            assert(before.contains(x));
                            let t = choose|t: int| 0 <= t < before.len() && before[t] == x;
                            assert(row@[t] == x);
                        }
                        if x == e {
                            assert(row@[row@.len() - 1] == x);
                        }
                    }
                }
            } else {
                proof {
                    assert forall|x: usize| row@.contains(x) <==> (x < e + 1 && enters(*rg, r as int, x as int)) by {
                        if row@.contains(x) {
                            let t = choose|t: int| 0 <= t < row@.len() && row@[t] == x;
                            assert(row@[t] < e);
                        }
                    }
                }
            }
            e += 1;
        }
        ent.push(row);
        r += 1;
    }
    ent
}

/// The entries of `a` that `b` lacks and that are not `skip`, in `a`'s order.
fn keep_not_in(a: &Vec<usize>, b: &Vec<usize>, skip: Option<usize>) -> (out: Vec<usize>)
    requires
        strictly_inc(a@),
    ensures
        strictly_inc(out@),
        forall|x: usize| out@.contains(x) <==> (a@.contains(x) && !b@.contains(x) && skip != Some(x)),
{
    let mut out: Vec<usize> = Vec::new();
    let mut i: usize = 0;
    while i < a.len()
        invariant
            strictly_inc(a@),
            i <= a@.len(),
            strictly_inc(out@),
            i < a@.len() ==> forall|t: int| 0 <= t < out@.len() ==> #[trigger] out@[t] < a@[i as int],
            forall|x: usize| out@.contains(x) <==> (a@.take(i as int).contains(x) && !b@.contains(x) && skip != Some(x)),
        decreases a@.len() - i,
    {
        let x = a[i];
        let mut in_b = false;
        let mut q: usize = 0;
        while q < b.len()
            invariant
                q <= b@.len(),
                in_b ==> b@.contains(x),
                !in_b ==> forall|p: int| 0 <= p < q ==> b@[p] != x,
            decreases b@.len() - q,
        {
            if b[q] == x {
                in_b = true;
                assert(b@[q as int] == x);
            }
            q += 1;
        }
        let skipped = match skip {
            Some(s) => s == x,
            None => false,
        };
        let ghost before = out@;
        let ghost pre = a@.take(i as int);
        let ghost post = a@.take(i + 1);
        if !in_b && !skipped {
            out.push(x);
        }
        proof {
            assert(post =~= pre.push(x));
            assert(in_b <==> b@.contains(x));
            assert(skipped <==> skip == Some(x));
            assert forall|y: usize| out@.contains(y) <==> (post.contains(y) && !b@.contains(y) && skip != Some(y)) by {
                if out@.contains(y) {
                    let t = choose|t: int| 0 <= t < out@.len() && out@[t] == y;
                    if t < before.len() {
                        assert(before[t] == y);
                        assert(before.contains(y));
                        let u = choose|u: int| 0 <= u < pre.len() && pre[u] == y;
                        assert(post[u] == y);
                    } else {
                        assert(y == x);
                        assert(post[i as int] == x);
                    }
                }
                if post.contains(y) && !b@.contains(y) && skip != Some(y) {
                    let u = choose|u: int| 0 <= u < post.len() && post[u] == y;
                    if u < i {
                        assert(pre[u] == y);
                        assert(pre.contains(y));
                        assert(before.contains(y));
                        let t = choose|t: int| 0 <= t < before.len() && before[t] == y;
                        assert(out@[t] == y);
                    } else {
                        assert(y == x);
                        assert(out@[out@.len() - 1] == y);
                    }
                }
            }
            if i + 1 < a@.len() {
                assert(a@[i as int] < a@[i + 1]);
            }
        }
        i += 1;
    }
    assert(a@.take(a@.len() as int) =~= a@);
    out
}

/// What one region-graph edge does in a pass of generalized belief propagation, parent to child.
#[derive(Clone, Debug)]
pub struct EdgePlan {
    /// The parent region.
    pub parent: usize,
    /// The child region.
    pub child: usize,
    /// Bit positions of the child's variables inside the parent.
    pub child_pos: Vec<usize>,
    /// `N(P,R) = E(P) \ E(R)`: the messages multiplied in, each with its child's positions inside
    /// the parent.
    pub numer: Vec<(usize, Vec<usize>)>,
    /// `D(P,R) = E(R) \ E(P) \ {(P,R)}`: the messages divided out, each with its child's positions
    /// inside the child.
    pub denom: Vec<(usize, Vec<usize>)>,
}

/// The message indices of a list of placed messages.
pub open spec fn message_ids(ms: Seq<(usize, Vec<usize>)>) -> Seq<usize> {
    Seq::new(ms.len(), |i: int| ms[i].0)
}

/// Whether `plan` is edge `e`'s plan.
pub open spec fn plan_of(rg: RegionGraph, e: int, plan: EdgePlan) -> bool {
    let regs = rg.regs();
    let m = rg.edges@.len() as int;
    let p = rg.edges@[e].0 as int;
    let c = rg.edges@[e].1 as int;
    &&& plan.parent == p
    &&& plan.child == c
    &&& placed(regs[p], regs[c], plan.child_pos@)
    &&& lists(message_ids(plan.numer@), m, |f: int| enters(rg, p, f) && !enters(rg, c, f))
    &&& forall|i: int|
        0 <= i < plan.numer@.len() ==> placed(
            regs[p],
            regs[rg.edges@[(#[trigger] plan.numer@[i]).0 as int].1 as int],
            plan.numer@[i].1@,
        )
    &&& lists(message_ids(plan.denom@), m, |f: int| enters(rg, c, f) && f != e && !enters(rg, p, f))
    &&& forall|i: int|
        0 <= i < plan.denom@.len() ==> placed(
            regs[c],
            regs[rg.edges@[(#[trigger] plan.denom@[i]).0 as int].1 as int],
            plan.denom@[i].1@,
        )
}

/// Each of `ids`, with its edge's child placed inside region `outer`.
fn place_all(rg: &RegionGraph, outer: usize, ids: &Vec<usize>) -> (out: Vec<(usize, Vec<usize>)>)
    requires
        edges_nest(*rg),
        outer < rg.regs().len(),
        forall|i: int| 0 <= i < ids@.len() ==> #[trigger] ids@[i] < rg.edges@.len(),
        forall|i: int|
            0 <= i < ids@.len() ==> inside(*rg, outer as int, rg.edges@[#[trigger] ids@[i] as int].1 as int),
    ensures
        message_ids(out@) == ids@,
        forall|i: int|
            0 <= i < out@.len() ==> placed(
                rg.regs()[outer as int],
                rg.regs()[rg.edges@[(#[trigger] out@[i]).0 as int].1 as int],
                out@[i].1@,
            ),
{
    let mut out: Vec<(usize, Vec<usize>)> = Vec::new();
    let mut i: usize = 0;
    while i < ids.len()
        invariant
            edges_nest(*rg),
            outer < rg.regs().len(),
            forall|i: int| 0 <= i < ids@.len() ==> #[trigger] ids@[i] < rg.edges@.len(),
            forall|i: int|
                0 <= i < ids@.len() ==> inside(*rg, outer as int, rg.edges@[#[trigger] ids@[i] as int].1 as int),
            i <= ids@.len(),
            message_ids(out@) == ids@.take(i as int),
            forall|t: int|
                0 <= t < out@.len() ==> placed(
                    rg.regs()[outer as int],
                    rg.regs()[rg.edges@[(#[trigger] out@[t]).0 as int].1 as int],
                    out@[t].1@,
                ),
        decreases ids@.len() - i,
    {
        let f = ids[i];
        assert(inside(*rg, outer as int, rg.edges@[f as int].1 as int));
        assert(rg.edges@[f as int].1 < rg.regs().len());
        let c = rg.edges[f].1;
        let ghost big = rg.regs()[outer as int];
        let ghost small = rg.regs()[c as int];
        assert(rg.regions@[outer as int]@ == big);
        assert(rg.regions@[c as int]@ == small);
        assert forall|b: int| 0 <= b < small.len() implies big.contains(#[trigger] small[b]) by {
            assert(small.contains(small[b]));
        }
        let pos = positions(rg.regions[outer].as_slice(), rg.regions[c].as_slice());
        let ghost before = out@;
        out.push((f, pos));
        proof {
            assert(out@.len() == before.len() + 1);
            assert(message_ids(before).len() == before.len());
            assert(before.len() == i);
            assert(out@[i as int].0 == f);
            assert forall|t: int| 0 <= t < i implies message_ids(out@)[t] == ids@.take(i + 1)[t] by {
                assert(out@[t] == before[t]);
                assert(message_ids(before)[t] == ids@.take(i as int)[t]);
            }
            assert(message_ids(out@)[i as int] == f);
            assert(message_ids(out@) =~= ids@.take(i + 1));
        }
        i += 1;
    }
    assert(ids@.take(ids@.len() as int) =~= ids@);
    out
}

/// The plan of every edge of `rg`, in edge order, given each region's entering edges.
pub fn edge_plans(rg: &RegionGraph, ent: &Vec<Vec<usize>>) -> (plans: Vec<EdgePlan>)
    requires
        edges_nest(*rg),
        ent@.len() == rg.regs().len(),
        forall|r: int|
            0 <= r < rg.regs().len() ==> lists((#[trigger] ent@[r])@, rg.edges@.len() as int, |f: int| enters(*rg, r, f)),
    ensures
        plans@.len() == rg.edges@.len(),
        forall|e: int| 0 <= e < rg.edges@.len() ==> plan_of(*rg, e, #[trigger] plans@[e]),
{
    let m = rg.edges.len();
    let mut plans: Vec<EdgePlan> = Vec::new();
    let mut e: usize = 0;
    while e < m
        invariant
            edges_nest(*rg),
            m == rg.edges@.len(),
            ent@.len() == rg.regs().len(),
            forall|r: int|
                0 <= r < rg.regs().len() ==> lists((#[trigger] ent@[r])@, m as int, |f: int| enters(*rg, r, f)),
            e <= m,
            plans@.len() == e,
            forall|q: int| 0 <= q < e ==> plan_of(*rg, q, #[trigger] plans@[q]),
        decreases m - e,
    {
        assert(rg.edges@[e as int].0 < rg.regs().len() && rg.edges@[e as int].1 < rg.regs().len());
        assert(inside(*rg, rg.edges@[e as int].0 as int, rg.edges@[e as int].1 as int));
        let (p, c) = rg.edges[e];
        let ghost regs = rg.regs();
        assert(lists(ent@[p as int]@, m as int, |f: int| enters(*rg, p as int, f)));
        assert(lists(ent@[c as int]@, m as int, |f: int| enters(*rg, c as int, f)));
        let numer_ids = keep_not_in(&ent[p], &ent[c], None);
        let denom_ids = keep_not_in(&ent[c], &ent[p], Some(e));
        assert forall|i: int| 0 <= i < numer_ids@.len() implies #[trigger] numer_ids@[i] < m && inside(
            *rg,
            p as int,
            rg.edges@[numer_ids@[i] as int].1 as int,
        ) by {
            assert(numer_ids@.contains(numer_ids@[i]));
        }
        assert forall|i: int| 0 <= i < denom_ids@.len() implies #[trigger] denom_ids@[i] < m && inside(
            *rg,
            c as int,
            rg.edges@[denom_ids@[i] as int].1 as int,
        ) by {
            assert(denom_ids@.contains(denom_ids@[i]));
        }
        let numer = place_all(rg, p, &numer_ids);
        let denom = place_all(rg, c, &denom_ids);
        assert(rg.regions@[p as int]@ == regs[p as int]);
        assert(rg.regions@[c as int]@ == regs[c as int]);
        assert forall|b: int| 0 <= b < regs[c as int].len() implies regs[p as int].contains(#[trigger] regs[c as int][b]) by {
            assert(regs[c as int].contains(regs[c as int][b]));
        }
        let child_pos = positions(rg.regions[p].as_slice(), rg.regions[c].as_slice());
        let plan = EdgePlan { parent: p, child: c, child_pos, numer, denom };
        proof {
            assert forall|x: usize| message_ids(plan.numer@).contains(x) <==> (x < m && (enters(*rg, p as int, x as int) && !enters(*rg, c as int, x as int))) by {
                assert(ent@[p as int]@.contains(x) <==> (x < m && enters(*rg, p as int, x as int)));
                assert(ent@[c as int]@.contains(x) <==> (x < m && enters(*rg, c as int, x as int)));
            }
            assert forall|x: usize| message_ids(plan.denom@).contains(x) <==> (x < m && (enters(*rg, c as int, x as int) && x != e && !enters(*rg, p as int, x as int))) by {
                assert(ent@[p as int]@.contains(x) <==> (x < m && enters(*rg, p as int, x as int)));
                assert(ent@[c as int]@.contains(x) <==> (x < m && enters(*rg, c as int, x as int)));
            }
        }
        plans.push(plan);
        e += 1;
    }
    plans
}

/// The bit pattern of the coupling between `i` and `j`, or `None` if they are not coupled.
pub fn coupling_bits(g: &Graph, i: usize, j: usize) -> (w: Option<u64>)
    requires
        g.wf(),
        i < g.n,
    ensures
        w matches Some(b) ==> exists|k: int| #[trigger] in_row(g.offset@, i as int, k) && g.nbr@[k] == j
            && g.w_bits@[k] == b,
        w is None ==> forall|k: int| #[trigger] in_row(g.offset@, i as int, k) ==> g.nbr@[k] != j,
{
    assert(g.offset@[i as int] <= g.offset@[i + 1]);
    let mut k = g.offset[i];
    let end = g.offset[i + 1];
    while k < end
        invariant
            g.wf(),
            i < g.n,
            end == g.offset@[i + 1],
            g.offset@[i as int] <= k <= end,
            forall|q: int| g.offset@[i as int] <= q < k ==> g.nbr@[q] != j,
        decreases end - k,
    {
        if g.nbr[k] as usize == j {
            assert(in_row(g.offset@, i as int, k as int));
            return Some(g.w_bits[k]);
        }
        k += 1;
    }
    None
}

} // verus!
