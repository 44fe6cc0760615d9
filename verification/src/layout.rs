//! How sparsification splits each variable into a path of copies and shares the variable's
//! couplings out among them, first fit, so that no copy exceeds the degree budget.

use vstd::prelude::*;
use crate::graph::{Graph, has_entry, in_row};
use crate::region::strictly_inc;
use crate::sparsify::{
    Refused, capacity, copies_for, copies_for_spec, lemma_copies_for_sufficient_and_minimal,
};

verus! {

/// How many positions `p` in `lo..hi` satisfy `keep`.
pub open spec fn count_where(lo: int, hi: int, keep: spec_fn(int) -> bool) -> nat
    decreases hi - lo,
{
    if hi <= lo {
        0
    } else {
        count_where(lo, hi - 1, keep) + (if keep(hi - 1) {
            1nat
        } else {
            0nat
        })
    }
}

/// A count is at most the range, and short of it when some position fails.
proof fn lemma_count_bounds(lo: int, hi: int, keep: spec_fn(int) -> bool)
    requires
        lo <= hi,
    ensures
        count_where(lo, hi, keep) <= hi - lo,
        (forall|p: int| lo <= p < hi ==> #[trigger] keep(p)) ==> count_where(lo, hi, keep) == hi - lo,
        (forall|p: int| lo <= p < hi ==> !#[trigger] keep(p)) ==> count_where(lo, hi, keep) == 0,
        (exists|p: int| lo <= p < hi && !#[trigger] keep(p)) ==> count_where(lo, hi, keep) < hi - lo,
    decreases hi - lo,
{
    if hi > lo {
        lemma_count_bounds(lo, hi - 1, keep);
        if exists|p: int| lo <= p < hi && !#[trigger] keep(p) {
            let q = choose|p: int| lo <= p < hi && !#[trigger] keep(p);
            if q < hi - 1 {
                assert(lo <= q < hi - 1 && !keep(q));
            }
        }
    }
}

/// Two tests that agree everywhere in the range but at `q` count the same there, give or take
/// what they say at `q`.
proof fn lemma_count_differ_at(lo: int, hi: int, a: spec_fn(int) -> bool, b: spec_fn(int) -> bool, q: int)
    requires
        lo <= q < hi,
        forall|p: int| lo <= p < hi && p != q ==> #[trigger] a(p) == b(p),
    ensures
        count_where(lo, hi, b) + (if a(q) { 1int } else { 0int }) == count_where(lo, hi, a) + (if b(
            q,
        ) {
            1int
        } else {
            0int
        }),
    decreases hi - lo,
{
    if hi - 1 > q {
        lemma_count_differ_at(lo, hi - 1, a, b, q);
    } else {
        lemma_count_same(lo, hi - 1, a, b);
    }
}

/// Two tests that agree on the range count the same.
proof fn lemma_count_same(lo: int, hi: int, a: spec_fn(int) -> bool, b: spec_fn(int) -> bool)
    requires
        forall|p: int| lo <= p < hi ==> #[trigger] a(p) == b(p),
    ensures
        count_where(lo, hi, a) == count_where(lo, hi, b),
    decreases hi - lo,
{
    if hi > lo {
        lemma_count_same(lo, hi - 1, a, b);
    }
}


/// The degree of variable `v`: the length of its row.
pub open spec fn degree(off: Seq<usize>, v: int) -> int {
    off[v + 1] - off[v]
}

/// How many copies variable `v` is split into at budget `d`.
pub open spec fn copy_count(off: Seq<usize>, d: int, v: int) -> int {
    copies_for_spec(degree(off, v), d)
}

/// The first node of variable `v`'s copies: every earlier variable's copies come first.
pub open spec fn block_start(off: Seq<usize>, d: int, v: int) -> int
    decreases v,
{
    if v <= 0 {
        0
    } else {
        block_start(off, d, v - 1) + copy_count(off, d, v - 1)
    }
}

/// Ports copy `i` of a path of `c` has for the variable's couplings: the budget `d`, less one
/// path coupling at each end of the path and two in its middle; a lone copy spends none.
pub open spec fn ports(c: int, i: int, d: int) -> int {
    if c <= 1 {
        d
    } else if i == 0 || i + 1 == c {
        d - 1
    } else {
        d - 2
    }
}

/// The sum of `s` over `lo..hi`.
pub open spec fn range_sum(s: Seq<usize>, lo: int, hi: int) -> int
    decreases hi - lo,
{
    if hi <= lo {
        0
    } else {
        range_sum(s, lo, hi - 1) + s[hi - 1] as int
    }
}

/// One coupling of the model handed to a pair of copies.
#[derive(Clone, Copy, Debug, PartialEq, Eq)]
pub struct Link {
    /// The coupling's row entry, in the row of its lower endpoint.
    pub entry: usize,
    /// The copy of the lower endpoint that takes it.
    pub a: u32,
    /// The copy of the upper endpoint that takes it.
    pub b: u32,
}

/// How many of `links` touch node `x`.
pub open spec fn touches(links: Seq<Link>, x: int) -> nat
    decreases links.len(),
{
    if links.len() == 0 {
        0
    } else {
        touches(links.drop_last(), x) + (if links.last().a == x || links.last().b == x {
            1nat
        } else {
            0nat
        })
    }
}

/// The entries of row `u` in `lo..hi` whose neighbour is above `u`: each coupling once, from its
/// lower endpoint.
pub open spec fn upper_in_row(off: Seq<usize>, nbr: Seq<u32>, u: int, lo: int, hi: int) -> Seq<int>
    decreases hi - lo,
{
    if hi <= lo {
        seq![]
    } else {
        upper_in_row(off, nbr, u, lo, hi - 1) + (if nbr[hi - 1] > u {
            seq![hi - 1]
        } else {
            seq![]
        })
    }
}

/// The upper entries of the first `u` rows, row by row.
pub open spec fn upper_before(off: Seq<usize>, nbr: Seq<u32>, u: int) -> Seq<int>
    decreases u,
{
    if u <= 0 {
        seq![]
    } else {
        upper_before(off, nbr, u - 1) + upper_in_row(off, nbr, u - 1, off[u - 1] as int, off[u] as int)
    }
}

/// Whether variable `v` appears in row `u` before entry `k`.
pub open spec fn seen_in_row(off: Seq<usize>, nbr: Seq<u32>, u: int, k: int, v: int) -> bool {
    exists|p: int| off[u] <= p < k && #[trigger] nbr[p] == v
}

/// How many couplings of variable `v` have been handed out by the time the walk reaches entry `k`
/// of row `u`: all of them for an earlier variable; for `u` itself, those before `k` and those to
/// lower variables; for a later one, those to variables below `u` and the one from row `u`, if
/// already passed.
pub open spec fn handed_out(off: Seq<usize>, nbr: Seq<u32>, u: int, k: int, v: int) -> int {
    if v < u {
        degree(off, v)
    } else if v == u {
        count_where(off[u] as int, off[u + 1] as int, |p: int| p < k || nbr[p] < u) as int
    } else {
        count_where(off[v] as int, off[v + 1] as int, |p: int| nbr[p] < u) as int + (if seen_in_row(
            off,
            nbr,
            u,
            k,
            v,
        ) {
            1int
        } else {
            0int
        })
    }
}

/// Raising one entry by one raises a sum over a range that holds it by one, and leaves any other
/// range's sum alone.
proof fn lemma_range_sum_update(s: Seq<usize>, x: int, val: usize, lo: int, hi: int)
    requires
        0 <= x < s.len(),
        0 <= lo <= hi <= s.len(),
    ensures
        range_sum(s.update(x, val), lo, hi) == range_sum(s, lo, hi) + (if lo <= x < hi {
            val - s[x]
        } else {
            0
        }),
    decreases hi - lo,
{
    if hi > lo {
        lemma_range_sum_update(s, x, val, lo, hi - 1);
    }
}

/// A range whose every entry reaches another's sums to at least its sum.
proof fn lemma_range_sum_dominates(s: Seq<usize>, t: Seq<usize>, lo: int, hi: int)
    requires
        0 <= lo <= hi <= s.len(),
        hi <= t.len(),
        forall|x: int| lo <= x < hi ==> #[trigger] s[x] >= t[x],
    ensures
        range_sum(s, lo, hi) >= range_sum(t, lo, hi),
    decreases hi - lo,
{
    if hi > lo {
        lemma_range_sum_dominates(s, t, lo, hi - 1);
    }
}

/// The ports of a path of `c` copies add up to its capacity.
proof fn lemma_ports_sum(cap: Seq<usize>, lo: int, c: int, d: int, i: int)
    requires
        c >= 1,
        d >= 3,
        0 <= i <= c,
        0 <= lo,
        lo + c <= cap.len(),
        forall|j: int| 0 <= j < c ==> #[trigger] cap[lo + j] == ports(c, j, d),
    ensures
        range_sum(cap, lo, lo + i) == if i == 0 {
            0
        } else if c == 1 {
            d
        } else if i < c {
            (d - 1) + (i - 1) * (d - 2)
        } else {
            capacity(c, d)
        },
    decreases i,
{
    if i > 0 {
        lemma_ports_sum(cap, lo, c, d, i - 1);
        assert(cap[lo + (i - 1)] == ports(c, i - 1, d));
        if c > 1 && i == c {
            assert((d - 1) + (c - 2) * (d - 2) + (d - 1) == c * (d - 2) + 2) by (nonlinear_arith);
        }
        if c > 1 && 1 < i < c {
            assert((d - 1) + (i - 2) * (d - 2) + (d - 2) == (d - 1) + (i - 1) * (d - 2))
                by (nonlinear_arith);
        }
    }
}


/// Couplings to variables below `u + 1` are those below `u` and the one to `u`, which is there
/// exactly when row `u` lists `v`.
proof fn lemma_lower_count_step(g: Graph, v: int, u: int)
    requires
        g.wf(),
        0 <= v < g.n,
        0 <= u < g.n,
        v != u,
    ensures
        count_where(g.offset@[v] as int, g.offset@[v + 1] as int, |p: int| g.nbr@[p] < u + 1)
            == count_where(g.offset@[v] as int, g.offset@[v + 1] as int, |p: int| g.nbr@[p] < u) + (
        if seen_in_row(g.offset@, g.nbr@, u, g.offset@[u + 1] as int, v) {
            1int
        } else {
            0int
        }),
{
    let off = g.offset@;
    let nbr = g.nbr@;
    let lo = off[v] as int;
    let hi = off[v + 1] as int;
    let a = |p: int| nbr[p] < u;
    let b = |p: int| nbr[p] < u + 1;
    assert(off[v] <= off[v + 1]);
    if exists|q: int| lo <= q < hi && #[trigger] nbr[q] == u {
        let q = choose|q: int| lo <= q < hi && #[trigger] nbr[q] == u;
        assert forall|p: int| lo <= p < hi && p != q implies #[trigger] a(p) == b(p) by {
            assert(in_row(off, v, p) && in_row(off, v, q));
            if p < q {
                assert(nbr[p] < nbr[q]);
            } else {
                assert(nbr[q] < nbr[p]);
            }
        }
        lemma_count_differ_at(lo, hi, a, b, q);
        assert(in_row(off, v, q));
        assert(has_entry(off, nbr, g.w_bits@, u, v, g.w_bits@[q]));
        let r = choose|r: int| #[trigger] in_row(off, u, r) && nbr[r] == v && g.w_bits@[r] == g.w_bits@[q];
        assert(off[u] <= r < off[u + 1] && nbr[r] == v);
    } else {
        assert forall|p: int| lo <= p < hi implies #[trigger] a(p) == b(p) by {
            assert(nbr[p] != u);
        }
        lemma_count_same(lo, hi, a, b);
        if seen_in_row(off, nbr, u, off[u + 1] as int, v) {
            let r = choose|r: int| off[u] <= r < off[u + 1] && #[trigger] nbr[r] == v;
            assert(in_row(off, u, r));
            assert(has_entry(off, nbr, g.w_bits@, v, u, g.w_bits@[r]));
            let q = choose|q: int| #[trigger] in_row(off, v, q) && nbr[q] == u && g.w_bits@[q] == g.w_bits@[r];
            assert(lo <= q < hi && nbr[q] == u);
        }
    }
}

/// Passing the end of row `u` is starting row `u + 1`: the counts are the same.
proof fn lemma_handed_out_row_end(g: Graph, u: int)
    requires
        g.wf(),
        0 <= u < g.n,
    ensures
        forall|v: int|
            0 <= v < g.n ==> #[trigger] handed_out(g.offset@, g.nbr@, u, g.offset@[u + 1] as int, v)
                == handed_out(g.offset@, g.nbr@, u + 1, g.offset@[u + 1] as int, v),
{
    let off = g.offset@;
    let nbr = g.nbr@;
    let e = off[u + 1] as int;
    assert forall|v: int| 0 <= v < g.n implies #[trigger] handed_out(off, nbr, u, e, v) == handed_out(
        off,
        nbr,
        u + 1,
        e,
        v,
    ) by {
        assert(off[v] <= off[v + 1]);
        if v == u {
            lemma_count_bounds(off[u] as int, e, |p: int| p < e || nbr[p] < u);
        } else if v > u {
            lemma_lower_count_step(g, v, u);
            if v == u + 1 {
                lemma_count_same(
                    off[v] as int,
                    off[v + 1] as int,
                    |p: int| p < e || nbr[p] < u + 1,
                    |p: int| nbr[p] < u + 1,
                );
            } else {
                assert(!seen_in_row(off, nbr, u + 1, e, v));
            }
        }
    }
}

/// Passing an entry to a lower variable hands nothing out.
proof fn lemma_handed_out_skip(g: Graph, u: int, k: int)
    requires
        g.wf(),
        0 <= u < g.n,
        g.offset@[u] <= k < g.offset@[u + 1],
        g.nbr@[k] <= u,
    ensures
        forall|v: int|
            0 <= v < g.n ==> #[trigger] handed_out(g.offset@, g.nbr@, u, k + 1, v) == handed_out(
                g.offset@,
                g.nbr@,
                u,
                k,
                v,
            ),
{
    let off = g.offset@;
    let nbr = g.nbr@;
    assert(in_row(off, u, k));
    assert(nbr[k] != u);
    assert forall|v: int| 0 <= v < g.n implies #[trigger] handed_out(off, nbr, u, k + 1, v) == handed_out(
        off,
        nbr,
        u,
        k,
        v,
    ) by {
        if v == u {
            lemma_count_same(
                off[u] as int,
                off[u + 1] as int,
                |p: int| p < k + 1 || nbr[p] < u,
                |p: int| p < k || nbr[p] < u,
            );
        } else if v > u {
            if seen_in_row(off, nbr, u, k + 1, v) {
                let p = choose|p: int| off[u] <= p < k + 1 && #[trigger] nbr[p] == v;
                assert(p != k);
            }
        }
    }
}

/// Passing an entry to a higher variable `v` hands one coupling to `u` and one to `v`, and each
/// had a coupling still to come.
proof fn lemma_handed_out_step(g: Graph, u: int, k: int)
    requires
        g.wf(),
        0 <= u < g.n,
        g.offset@[u] <= k < g.offset@[u + 1],
        g.nbr@[k] > u,
    ensures
        forall|v: int|
            0 <= v < g.n ==> #[trigger] handed_out(g.offset@, g.nbr@, u, k + 1, v) == handed_out(
                g.offset@,
                g.nbr@,
                u,
                k,
                v,
            ) + (if v == u || v == g.nbr@[k] {
                1int
            } else {
                0int
            }),
        handed_out(g.offset@, g.nbr@, u, k, u) < degree(g.offset@, u),
        handed_out(g.offset@, g.nbr@, u, k, g.nbr@[k] as int) < degree(g.offset@, g.nbr@[k] as int),
{
    let off = g.offset@;
    let nbr = g.nbr@;
    let v0 = nbr[k] as int;
    assert(in_row(off, u, k));
    assert(v0 < g.n);
    assert(off[v0] <= off[v0 + 1]);
    // The lower endpoint: entry `k` joins the count.
    let a = |p: int| p < k || nbr[p] < u;
    let b = |p: int| p < k + 1 || nbr[p] < u;
    lemma_count_differ_at(off[u] as int, off[u + 1] as int, a, b, k);
    assert(!a(k));
    lemma_count_bounds(off[u] as int, off[u + 1] as int, a);
    // The upper endpoint: row `u` had not listed it before `k`, and lists it at `k`.
    assert(!seen_in_row(off, nbr, u, k, v0)) by {
        if seen_in_row(off, nbr, u, k, v0) {
            let p = choose|p: int| off[u] <= p < k && #[trigger] nbr[p] == v0;
            assert(in_row(off, u, p));
            assert(nbr[p] < nbr[k]);
        }
    }
    assert(seen_in_row(off, nbr, u, k + 1, v0)) by {
        assert(off[u] <= k < k + 1 && nbr[k] == v0);
    }
    // Its row lists `u`, which is not below `u`, so not every coupling of `v0` is counted.
    assert(has_entry(off, nbr, g.w_bits@, v0, u, g.w_bits@[k]));
    let q = choose|q: int| #[trigger] in_row(off, v0, q) && nbr[q] == u && g.w_bits@[q] == g.w_bits@[k];
    let keep = |p: int| nbr[p] < u;
    assert(in_row(off, v0, q));
    assert(off[v0] <= q < off[v0 + 1] && !keep(q));
    lemma_count_bounds(off[v0] as int, off[v0 + 1] as int, keep);
    assert(handed_out(off, nbr, u, k, v0) == count_where(off[v0] as int, off[v0 + 1] as int, keep));
    assert forall|v: int| 0 <= v < g.n implies #[trigger] handed_out(off, nbr, u, k + 1, v) == handed_out(
        off,
        nbr,
        u,
        k,
        v,
    ) + (if v == u || v == v0 {
        1int
    } else {
        0int
    }) by {
        if v > u && v != v0 {
            if seen_in_row(off, nbr, u, k + 1, v) {
                let p = choose|p: int| off[u] <= p < k + 1 && #[trigger] nbr[p] == v;
                assert(p != k);
                assert(seen_in_row(off, nbr, u, k, v));
            }
            if seen_in_row(off, nbr, u, k, v) {
                let p = choose|p: int| off[u] <= p < k && #[trigger] nbr[p] == v;
                assert(seen_in_row(off, nbr, u, k + 1, v));
            }
        }
    }
}


/// Every variable has at least one copy.
proof fn lemma_copy_count_positive(off: Seq<usize>, d: int, v: int)
    ensures
        copy_count(off, d, v) >= 1,
{
}

/// Later variables' copies start no earlier.
proof fn lemma_block_start_monotone(off: Seq<usize>, d: int, v1: int, v2: int)
    requires
        0 <= v1 <= v2,
    ensures
        block_start(off, d, v1) <= block_start(off, d, v2),
        v1 < v2 ==> block_start(off, d, v1) + copy_count(off, d, v1) <= block_start(off, d, v2),
    decreases v2 - v1,
{
    if v1 < v2 {
        lemma_block_start_monotone(off, d, v1, v2 - 1);
        lemma_copy_count_positive(off, d, v2 - 1);
    }
}

/// An entry lies in one row only.
proof fn lemma_one_row(g: Graph, u1: int, u2: int, k: int)
    requires
        g.wf(),
        0 <= u1 < g.n,
        0 <= u2 < g.n,
        in_row(g.offset@, u1, k),
        in_row(g.offset@, u2, k),
    ensures
        u1 == u2,
{
    let off = g.offset@;
    if u1 < u2 {
        assert(off[u1 + 1] <= off[u2]);
    } else if u2 < u1 {
        assert(off[u2 + 1] <= off[u1]);
    }
}

/// The nodes of variable `v`, in path order.
pub open spec fn block(off: Seq<usize>, d: int, v: int) -> Seq<u32> {
    Seq::new(copy_count(off, d, v) as nat, |i: int| (block_start(off, d, v) + i) as u32)
}

/// Whether `x` is the copy first fit hands a coupling to, among the `c` copies from `lo`, when
/// `links` have been handed out: the first with a port still free.
pub open spec fn first_fit(links: Seq<Link>, lo: int, c: int, d: int, x: int) -> bool {
    &&& lo <= x < lo + c
    &&& touches(links, x) < ports(c, x - lo, d)
    &&& forall|y: int| lo <= y < x ==> touches(links, y) >= ports(c, y - lo, d)
}

/// The row entries of `links`, in order.
pub open spec fn link_entries(links: Seq<Link>) -> Seq<int> {
    Seq::new(links.len(), |j: int| links[j].entry as int)
}

/// How a model's variables are split into copies and its couplings shared out among them.
pub struct CopyLayout {
    /// `copies[v]` are the nodes of variable `v`, in path order.
    pub copies: Vec<Vec<u32>>,
    /// Nodes in all.
    pub nodes: u32,
    /// Each coupling once, from its lower endpoint's row, rows in order, and the copies that take it.
    pub links: Vec<Link>,
}

/// The nodes every variable's copies take together.
pub open spec fn copies_total(g: Graph, d: int) -> int {
    block_start(g.offset@, d, g.n as int)
}

/// The first copy in `nodes` with a port still free.
fn first_free(nodes: &Vec<u32>, used: &Vec<usize>, cap: &Vec<usize>) -> (ia: usize)
    requires
        used@.len() == cap@.len(),
        forall|i: int| 0 <= i < nodes@.len() ==> (#[trigger] nodes@[i]) < used@.len(),
        exists|i: int| 0 <= i < nodes@.len() && used@[#[trigger] nodes@[i] as int] < cap@[nodes@[i] as int],
    ensures
        ia < nodes@.len(),
        used@[nodes@[ia as int] as int] < cap@[nodes@[ia as int] as int],
        forall|i: int| 0 <= i < ia ==> used@[#[trigger] nodes@[i] as int] >= cap@[nodes@[i] as int],
{
    let mut i: usize = 0;
    while i < nodes.len()
        invariant
            i <= nodes@.len(),
            used@.len() == cap@.len(),
            forall|j: int| 0 <= j < nodes@.len() ==> (#[trigger] nodes@[j]) < used@.len(),
            exists|j: int| 0 <= j < nodes@.len() && used@[#[trigger] nodes@[j] as int] < cap@[nodes@[j] as int],
            forall|j: int| 0 <= j < i ==> used@[#[trigger] nodes@[j] as int] >= cap@[nodes@[j] as int],
        decreases nodes@.len() - i,
    {
        let x = nodes[i] as usize;
        if used[x] < cap[x] {
            return i;
        }
        i += 1;
    }
    proof {
        let j = choose|j: int| 0 <= j < nodes@.len() && used@[#[trigger] nodes@[j] as int] < cap@[nodes@[j] as int];
        assert(used@[nodes@[j] as int] >= cap@[nodes@[j] as int]);
    }
    0
}


/// Lay the copies out: variable `v` owns the contiguous block of nodes from `block_start(v)`.
fn lay_copies(g: &Graph, budget: usize) -> (r: (Vec<Vec<u32>>, u32))
    requires
        g.wf(),
        budget >= 3,
        copies_total(*g, budget as int) <= u32::MAX,
    ensures
        r.0@.len() == g.n,
        forall|v: int| 0 <= v < g.n ==> (#[trigger] r.0@[v])@ == block(g.offset@, budget as int, v),
        r.1 == copies_total(*g, budget as int),
{
    let ghost off = g.offset@;
    let ghost d = budget as int;
    let n = g.n;
    let mut copies: Vec<Vec<u32>> = Vec::new();
    let mut next: u32 = 0;
    let mut v: usize = 0;
    while v < n
        invariant
            g.wf(),
            n == g.n,
            off == g.offset@,
            d == budget as int,
            budget >= 3,
            copies_total(*g, d) <= u32::MAX,
            v <= n,
            copies@.len() == v,
            next == block_start(off, d, v as int),
            forall|w: int| 0 <= w < v ==> (#[trigger] copies@[w])@ == block(off, d, w),
        decreases n - v,
    {
        assert(off[v as int] <= off[v + 1]);
        let k = g.offset[v + 1] - g.offset[v];
        let c = copies_for(k, budget);
        proof {
            lemma_block_start_monotone(off, d, v + 1, n as int);
        }
        assert(block_start(off, d, v + 1) == next + c);
        let mut nodes: Vec<u32> = Vec::new();
        let mut i: u32 = 0;
        while (i as usize) < c
            invariant
                next + c <= u32::MAX,
                c == copy_count(off, d, v as int),
                next == block_start(off, d, v as int),
                i <= c,
                nodes@ == block(off, d, v as int).take(i as int),
            decreases c - i,
        {
            nodes.push(next + i);
            proof {
                assert(block(off, d, v as int).take(i + 1) =~= block(off, d, v as int).take(i as int).push(
                    (next + i) as u32,
                ));
            }
            i += 1;
        }
        assert(block(off, d, v as int).take(c as int) =~= block(off, d, v as int));
        copies.push(nodes);
        next = next + c as u32;
        v += 1;
    }
    (copies, next)
}

/// The ports each node has for couplings: the budget less what its path spends on it.
fn port_counts(g: &Graph, budget: usize, copies: &Vec<Vec<u32>>, nodes: u32) -> (cap: Vec<usize>)
    requires
        g.wf(),
        budget >= 3,
        copies@.len() == g.n,
        forall|v: int| 0 <= v < g.n ==> (#[trigger] copies@[v])@ == block(g.offset@, budget as int, v),
        nodes == copies_total(*g, budget as int),
    ensures
        cap@.len() == nodes,
        forall|v: int, i: int|
            0 <= v < g.n && 0 <= i < copy_count(g.offset@, budget as int, v) ==> #[trigger] cap@[block_start(
                g.offset@,
                budget as int,
                v,
            ) + i] == ports(copy_count(g.offset@, budget as int, v), i, budget as int),
{
    let ghost off = g.offset@;
    let ghost d = budget as int;
    let n = g.n;
    let mut cap: Vec<usize> = Vec::new();
    let mut v: usize = 0;
    while v < n
        invariant
            n == g.n,
            off == g.offset@,
            d == budget as int,
            budget >= 3,
            copies@.len() == n,
            forall|w: int| 0 <= w < n ==> (#[trigger] copies@[w])@ == block(off, d, w),
            v <= n,
            cap@.len() == block_start(off, d, v as int),
            forall|w: int, i: int|
                0 <= w < v && 0 <= i < copy_count(off, d, w) ==> #[trigger] cap@[block_start(off, d, w) + i]
                    == ports(copy_count(off, d, w), i, d),
        decreases n - v,
    {
        let c = copies[v].len();
        assert(c == copy_count(off, d, v as int));
        let ghost start = cap@;
        let mut i: usize = 0;
        while i < c
            invariant
                budget >= 3,
                d == budget as int,
                c == copy_count(off, d, v as int),
                i <= c,
                cap@.len() == block_start(off, d, v as int) + i,
                start.len() == block_start(off, d, v as int),
                forall|x: int| 0 <= x < start.len() ==> #[trigger] cap@[x] == start[x],
                forall|j: int| 0 <= j < i ==> #[trigger] cap@[block_start(off, d, v as int) + j] == ports(
                    c as int,
                    j,
                    d,
                ),
            decreases c - i,
        {
            let spent: usize = if c == 1 {
                0
            } else if i == 0 || i + 1 == c {
                1
            } else {
                2
            };
            cap.push(budget - spent);
            i += 1;
        }
        proof {
            assert forall|w: int, j: int|
                0 <= w < v + 1 && 0 <= j < copy_count(off, d, w) implies #[trigger] cap@[block_start(
                off,
                d,
                w,
            ) + j] == ports(copy_count(off, d, w), j, d) by {
                if w < v {
                    lemma_block_start_monotone(off, d, w, v as int);
                    lemma_block_start_monotone(off, d, 0, w);
                    let x = block_start(off, d, w) + j;
                    assert(cap@[x] == start[x]);
                }
            }
        }
        v += 1;
    }
    cap
}


/// Whether `used` and `links` are the state of the walk at entry `k` of row `u`: each node's count
/// is the links touching it and within its ports, each variable's copies together have taken the
/// couplings handed out so far, the links are the upper entries passed, and each was handed out
/// first fit.
pub open spec fn sharing(g: Graph, d: int, cap: Seq<usize>, used: Seq<usize>, links: Seq<Link>, u: int, k: int) -> bool {
    let off = g.offset@;
    let nbr = g.nbr@;
    &&& used.len() == copies_total(g, d)
    &&& forall|x: int| 0 <= x < used.len() ==> #[trigger] used[x] == touches(links, x) && used[x] <= cap[x]
    &&& forall|v: int|
        0 <= v < g.n ==> #[trigger] range_sum(used, block_start(off, d, v), block_start(off, d, v) + copy_count(off, d, v))
            == handed_out(off, nbr, u, k, v)
    &&& link_entries(links) == upper_before(off, nbr, u) + upper_in_row(off, nbr, u, off[u] as int, k)
    &&& forall|j: int, w: int|
        0 <= j < links.len() && 0 <= w < g.n && #[trigger] in_row(off, w, links[j].entry as int)
            ==> first_fit(links.take(j), block_start(off, d, w), copy_count(off, d, w), d, links[j].a as int)
            && first_fit(
            links.take(j),
            block_start(off, d, nbr[links[j].entry as int] as int),
            copy_count(off, d, nbr[links[j].entry as int] as int),
            d,
            links[j].b as int,
        )
}

/// What the walk relies on throughout: the copies laid out in blocks and each node's ports.
pub open spec fn laid_out(g: Graph, d: int, copies: Seq<Vec<u32>>, cap: Seq<usize>) -> bool {
    &&& g.wf()
    &&& d >= 3
    &&& copies_total(g, d) <= u32::MAX
    &&& copies.len() == g.n
    &&& forall|v: int| 0 <= v < g.n ==> (#[trigger] copies[v])@ == block(g.offset@, d, v)
    &&& cap.len() == copies_total(g, d)
    &&& forall|v: int, i: int|
        0 <= v < g.n && 0 <= i < copy_count(g.offset@, d, v) ==> #[trigger] cap[block_start(g.offset@, d, v) + i]
            == ports(copy_count(g.offset@, d, v), i, d)
}

/// A block that has taken fewer couplings than its variable has still has a free port.
proof fn lemma_free_port(g: Graph, d: int, copies: Seq<Vec<u32>>, cap: Seq<usize>, used: Seq<usize>, v: int)
    requires
        laid_out(g, d, copies, cap),
        used.len() == cap.len(),
        0 <= v < g.n,
        range_sum(used, block_start(g.offset@, d, v), block_start(g.offset@, d, v) + copy_count(g.offset@, d, v))
            < degree(g.offset@, v),
    ensures
        forall|i: int| 0 <= i < copies[v]@.len() ==> (#[trigger] copies[v]@[i]) < used.len(),
        exists|i: int| 0 <= i < copies[v]@.len() && used[#[trigger] copies[v]@[i] as int] < cap[copies[v]@[i] as int],
{
    let off = g.offset@;
    let lo = block_start(off, d, v);
    let c = copy_count(off, d, v);
    lemma_block_start_monotone(off, d, v, g.n as int);
    lemma_block_start_monotone(off, d, 0, v);
    if v + 1 < g.n {
        lemma_block_start_monotone(off, d, v + 1, g.n as int);
    }
    assert(lo + c <= cap.len());
    assert forall|i: int| 0 <= i < copies[v]@.len() implies (#[trigger] copies[v]@[i]) < used.len() by {
        assert(copies[v]@[i] == (lo + i) as u32);
    }
    assert forall|j: int| 0 <= j < c implies #[trigger] cap[lo + j] == ports(c, j, d) by {
    }
    lemma_ports_sum(cap, lo, c, d, c);
    assert(off[v] <= off[v + 1]);
    let deg = degree(off, v);
    if deg >= 1 {
        lemma_copies_for_sufficient_and_minimal(deg, d);
    }
    if forall|i: int| 0 <= i < copies[v]@.len() ==> used[#[trigger] copies[v]@[i] as int] >= cap[copies[v]@[i] as int] {
        assert forall|x: int| lo <= x < lo + c implies #[trigger] used[x] >= cap[x] by {
            assert(copies[v]@[x - lo] == x);
        }
        lemma_range_sum_dominates(used, cap, lo, lo + c);
    }
}

/// Raising node `x` by one raises the copies of the variable that owns it, and no other's.
proof fn lemma_raise_node(g: Graph, d: int, used: Seq<usize>, owner: int, i: int)
    requires
        g.wf(),
        d >= 3,
        used.len() == copies_total(g, d),
        0 <= owner < g.n,
        0 <= i < copy_count(g.offset@, d, owner),
        used[block_start(g.offset@, d, owner) + i] < usize::MAX,
    ensures
        forall|v: int|
            0 <= v < g.n ==> #[trigger] range_sum(
                used.update(block_start(g.offset@, d, owner) + i, (used[block_start(g.offset@, d, owner) + i] + 1) as usize),
                block_start(g.offset@, d, v),
                block_start(g.offset@, d, v) + copy_count(g.offset@, d, v),
            ) == range_sum(used, block_start(g.offset@, d, v), block_start(g.offset@, d, v) + copy_count(g.offset@, d, v))
                + (if v == owner {
                1int
            } else {
                0int
            }),
{
    let off = g.offset@;
    let x = block_start(off, d, owner) + i;
    lemma_block_start_monotone(off, d, 0, owner);
    lemma_block_start_monotone(off, d, owner + 1, g.n as int);
    assert forall|v: int| 0 <= v < g.n implies #[trigger] range_sum(
        used.update(x, (used[x] + 1) as usize),
        block_start(off, d, v),
        block_start(off, d, v) + copy_count(off, d, v),
    ) == range_sum(used, block_start(off, d, v), block_start(off, d, v) + copy_count(off, d, v)) + (if v == owner {
        1int
    } else {
        0int
    }) by {
        lemma_block_start_monotone(off, d, 0, v);
        lemma_block_start_monotone(off, d, v, g.n as int);
        if v + 1 <= g.n {
            lemma_block_start_monotone(off, d, v + 1, g.n as int);
        }
        if v < owner {
            lemma_block_start_monotone(off, d, v, owner);
        } else if v > owner {
            lemma_block_start_monotone(off, d, owner, v);
        }
        lemma_range_sum_update(used, x, (used[x] + 1) as usize, block_start(off, d, v), block_start(off, d, v) + copy_count(off, d, v));
    }
}


/// Hand the coupling at entry `k` of row `u`, whose other end `nbr[k]` is above `u`, to the first
/// copy of each endpoint with a port still free.
fn hand_out(
    g: &Graph,
    budget: usize,
    copies: &Vec<Vec<u32>>,
    cap: &Vec<usize>,
    used: &mut Vec<usize>,
    links: &mut Vec<Link>,
    u: usize,
    k: usize,
)
    requires
        laid_out(*g, budget as int, copies@, cap@),
        u < g.n,
        g.offset@[u as int] <= k < g.offset@[u + 1],
        g.nbr@[k as int] > u,
        sharing(*g, budget as int, cap@, old(used)@, old(links)@, u as int, k as int),
    ensures
        sharing(*g, budget as int, cap@, final(used)@, final(links)@, u as int, k + 1),
{
    let ghost off = g.offset@;
    let ghost nbr = g.nbr@;
    let ghost d = budget as int;
    let ghost used0 = used@;
    let ghost links0 = links@;
    let v = g.nbr[k] as usize;
    proof {
        assert(in_row(off, u as int, k as int));
        assert(v < g.n);
        lemma_handed_out_step(*g, u as int, k as int);
        lemma_free_port(*g, d, copies@, cap@, used0, u as int);
    }
    let ia = first_free(&copies[u], used, cap);
    let a = copies[u][ia];
    proof {
        lemma_block_start_monotone(off, d, 0, u as int);
        lemma_block_start_monotone(off, d, u as int, g.n as int);
        assert(copies@[u as int]@[ia as int] == (block_start(off, d, u as int) + ia) as u32);
        assert(a == block_start(off, d, u as int) + ia);
        lemma_raise_node(*g, d, used0, u as int, ia as int);
    }
    let ua = used[a as usize];
    used.set(a as usize, ua + 1);
    let ghost used1 = used@;
    proof {
        lemma_free_port(*g, d, copies@, cap@, used1, v as int);
    }
    let ib = first_free(&copies[v], used, cap);
    let b = copies[v][ib];
    proof {
        lemma_block_start_monotone(off, d, 0, v as int);
        lemma_block_start_monotone(off, d, v as int, g.n as int);
        assert(copies@[v as int]@[ib as int] == (block_start(off, d, v as int) + ib) as u32);
        assert(b == block_start(off, d, v as int) + ib);
        lemma_raise_node(*g, d, used1, v as int, ib as int);
        lemma_block_start_monotone(off, d, u as int, v as int);
        assert(a < b);
    }
    let ub = used[b as usize];
    used.set(b as usize, ub + 1);
    let l = Link { entry: k, a, b };
    links.push(l);
    proof {
        let used2 = used@;
        let links2 = links@;
        let j = links0.len() as int;
        assert(links2.drop_last() =~= links0);
        assert(links2.take(j) =~= links0);
        // Counts are touches, within ports.
        assert forall|x: int| 0 <= x < used2.len() implies #[trigger] used2[x] == touches(links2, x) && used2[x] <= cap@[x] by {
            assert(used0[x] == touches(links0, x));
        }
        // Block sums follow the walk.
        assert forall|w: int| 0 <= w < g.n implies #[trigger] range_sum(
            used2,
            block_start(off, d, w),
            block_start(off, d, w) + copy_count(off, d, w),
        ) == handed_out(off, nbr, u as int, k + 1, w) by {
            assert(range_sum(used0, block_start(off, d, w), block_start(off, d, w) + copy_count(off, d, w))
                == handed_out(off, nbr, u as int, k as int, w));
        }
        // The links are the upper entries passed.
        assert(upper_in_row(off, nbr, u as int, off[u as int] as int, k + 1) == upper_in_row(
            off,
            nbr,
            u as int,
            off[u as int] as int,
            k as int,
        ) + seq![k as int]);
        assert(link_entries(links2) =~= link_entries(links0).push(k as int));
        assert(link_entries(links2) =~= upper_before(off, nbr, u as int) + upper_in_row(
            off,
            nbr,
            u as int,
            off[u as int] as int,
            k + 1,
        ));
        // Each link was handed out first fit.
        assert forall|jj: int, w: int|
            0 <= jj < links2.len() && 0 <= w < g.n && #[trigger] in_row(off, w, links2[jj].entry as int)
                implies first_fit(links2.take(jj), block_start(off, d, w), copy_count(off, d, w), d, links2[jj].a as int)
            && first_fit(
            links2.take(jj),
            block_start(off, d, nbr[links2[jj].entry as int] as int),
            copy_count(off, d, nbr[links2[jj].entry as int] as int),
            d,
            links2[jj].b as int,
        ) by {
            if jj < j {
                assert(links2.take(jj) =~= links0.take(jj));
                assert(links2[jj] == links0[jj]);
            } else {
                lemma_one_row(*g, w, u as int, k as int);
                let lo = block_start(off, d, u as int);
                assert forall|y: int| lo <= y < a implies touches(links0, y) >= ports(copy_count(off, d, u as int), y - lo, d) by {
                    assert(copies@[u as int]@[y - lo] == y);
                    assert(used0[y] == touches(links0, y));
                }
                assert(used0[a as int] == touches(links0, a as int));
                let lv = block_start(off, d, v as int);
                assert forall|y: int| lv <= y < b implies touches(links0, y) >= ports(copy_count(off, d, v as int), y - lv, d) by {
                    assert(copies@[v as int]@[y - lv] == y);
                    assert(used0[y] == touches(links0, y));
                    assert(y != a);
                }
                assert(used0[b as int] == touches(links0, b as int));
            }
        }
    }
}


/// Passing an entry to a lower variable keeps the walk's state.
proof fn lemma_sharing_skip(g: Graph, d: int, cap: Seq<usize>, used: Seq<usize>, links: Seq<Link>, u: int, k: int)
    requires
        g.wf(),
        0 <= u < g.n,
        g.offset@[u] <= k < g.offset@[u + 1],
        g.nbr@[k] <= u,
        sharing(g, d, cap, used, links, u, k),
    ensures
        sharing(g, d, cap, used, links, u, k + 1),
{
    lemma_handed_out_skip(g, u, k);
    let off = g.offset@;
    let nbr = g.nbr@;
    assert(upper_in_row(off, nbr, u, off[u] as int, k + 1) =~= upper_in_row(off, nbr, u, off[u] as int, k));
    assert forall|v: int| 0 <= v < g.n implies #[trigger] range_sum(
        used,
        block_start(off, d, v),
        block_start(off, d, v) + copy_count(off, d, v),
    ) == handed_out(off, nbr, u, k + 1, v) by {
        assert(handed_out(off, nbr, u, k + 1, v) == handed_out(off, nbr, u, k, v));
    }
}

/// Finishing row `u` is starting row `u + 1`.
proof fn lemma_sharing_row_end(g: Graph, d: int, cap: Seq<usize>, used: Seq<usize>, links: Seq<Link>, u: int)
    requires
        g.wf(),
        0 <= u < g.n,
        sharing(g, d, cap, used, links, u, g.offset@[u + 1] as int),
    ensures
        sharing(g, d, cap, used, links, u + 1, g.offset@[u + 1] as int),
{
    let off = g.offset@;
    let nbr = g.nbr@;
    lemma_handed_out_row_end(g, u);
    assert(upper_in_row(off, nbr, u + 1, off[u + 1] as int, off[u + 1] as int) =~= Seq::<int>::empty());
    assert(upper_before(off, nbr, u + 1) + upper_in_row(off, nbr, u + 1, off[u + 1] as int, off[u + 1] as int)
        =~= upper_before(off, nbr, u) + upper_in_row(off, nbr, u, off[u] as int, off[u + 1] as int));
    assert forall|v: int| 0 <= v < g.n implies #[trigger] range_sum(
        used,
        block_start(off, d, v),
        block_start(off, d, v) + copy_count(off, d, v),
    ) == handed_out(off, nbr, u + 1, off[u + 1] as int, v) by {
        assert(handed_out(off, nbr, u + 1, off[u + 1] as int, v) == handed_out(off, nbr, u, off[u + 1] as int, v));
    }
}

/// A range of zeros sums to zero.
proof fn lemma_range_sum_zero(s: Seq<usize>, lo: int, hi: int)
    requires
        0 <= lo,
        hi <= s.len(),
        forall|x: int| 0 <= x < s.len() ==> #[trigger] s[x] == 0,
    ensures
        range_sum(s, lo, hi) == 0,
    decreases hi - lo,
{
    if hi > lo {
        lemma_range_sum_zero(s, lo, hi - 1);
    }
}

/// Before the walk, nothing is handed out.
proof fn lemma_sharing_start(g: Graph, d: int, cap: Seq<usize>, used: Seq<usize>)
    requires
        g.wf(),
        d >= 3,
        used.len() == copies_total(g, d),
        forall|x: int| 0 <= x < used.len() ==> #[trigger] used[x] == 0,
    ensures
        sharing(g, d, cap, used, seq![], 0, 0),
{
    let off = g.offset@;
    let nbr = g.nbr@;
    assert(upper_before(off, nbr, 0) + upper_in_row(off, nbr, 0, off[0] as int, 0) =~= Seq::<int>::empty());
    assert(link_entries(seq![]) =~= Seq::<int>::empty());
    assert forall|v: int| 0 <= v < g.n implies #[trigger] range_sum(
        used,
        block_start(off, d, v),
        block_start(off, d, v) + copy_count(off, d, v),
    ) == handed_out(off, nbr, 0, 0, v) by {
        lemma_block_start_monotone(off, d, 0, v);
        lemma_block_start_monotone(off, d, v, g.n as int);
        lemma_range_sum_zero(used, block_start(off, d, v), block_start(off, d, v) + copy_count(off, d, v));
        assert(off[v] <= off[v + 1]);
        if v == 0 {
            lemma_count_bounds(off[0] as int, off[1] as int, |p: int| p < 0 || nbr[p] < 0);
        } else {
            lemma_count_bounds(off[v] as int, off[v + 1] as int, |p: int| nbr[p] < 0);
        }
    }
}


/// How many of `links` touch the `c` nodes from `lo`.
pub open spec fn block_touches(links: Seq<Link>, lo: int, c: int) -> int
    decreases c,
{
    if c <= 0 {
        0
    } else {
        block_touches(links, lo, c - 1) + touches(links, lo + c - 1) as int
    }
}

/// A sum of counts that are each a node's touches is the block's touches.
proof fn lemma_block_touches(used: Seq<usize>, links: Seq<Link>, lo: int, c: int)
    requires
        0 <= lo,
        0 <= c,
        lo + c <= used.len(),
        forall|x: int| lo <= x < lo + c ==> #[trigger] used[x] == touches(links, x),
    ensures
        range_sum(used, lo, lo + c) == block_touches(links, lo, c),
    decreases c,
{
    if c > 0 {
        lemma_block_touches(used, links, lo, c - 1);
    }
}

impl CopyLayout {
    /// Split each variable into a path of copies and share its couplings out among them, so that
    /// no copy exceeds `budget` couplings, path couplings included.
    ///
    /// Variable `v` gets `copies_for(degree, budget)` copies, the next block of nodes in order.
    /// Each coupling, taken once from its lower endpoint's row, rows and entries in order, goes to
    /// the first copy of each endpoint with a port still free: a copy has the budget less its
    /// path couplings, one at each end of the path and two in its middle. A budget below three is
    /// refused. The copies must fit `u32` node numbers.
    pub fn new(g: &Graph, budget: usize) -> (r: Result<CopyLayout, Refused>)
        requires
            g.wf(),
            budget >= 3 ==> copies_total(*g, budget as int) <= u32::MAX,
        ensures
            r is Err <==> budget < 3,
            r matches Err(e) ==> e == (Refused::BudgetTooSmall { budget }),
            r matches Ok(l) ==> {
                &&& l.copies@.len() == g.n
                &&& forall|v: int| 0 <= v < g.n ==> (#[trigger] l.copies@[v])@ == block(g.offset@, budget as int, v)
                &&& l.nodes == copies_total(*g, budget as int)
                &&& link_entries(l.links@) == upper_before(g.offset@, g.nbr@, g.n as int)
                &&& forall|j: int, w: int|
                    0 <= j < l.links@.len() && 0 <= w < g.n && #[trigger] in_row(g.offset@, w, l.links@[j].entry as int)
                        ==> first_fit(
                        l.links@.take(j),
                        block_start(g.offset@, budget as int, w),
                        copy_count(g.offset@, budget as int, w),
                        budget as int,
                        l.links@[j].a as int,
                    ) && first_fit(
                        l.links@.take(j),
                        block_start(g.offset@, budget as int, g.nbr@[l.links@[j].entry as int] as int),
                        copy_count(g.offset@, budget as int, g.nbr@[l.links@[j].entry as int] as int),
                        budget as int,
                        l.links@[j].b as int,
                    )
                &&& forall|v: int, i: int|
                    0 <= v < g.n && 0 <= i < copy_count(g.offset@, budget as int, v) ==> touches(
                        l.links@,
                        #[trigger] (block_start(g.offset@, budget as int, v) + i),
                    ) <= ports(copy_count(g.offset@, budget as int, v), i, budget as int)
                &&& forall|v: int|
                    0 <= v < g.n ==> #[trigger] block_touches(
                        l.links@,
                        block_start(g.offset@, budget as int, v),
                        copy_count(g.offset@, budget as int, v),
                    ) == degree(g.offset@, v)
            },
    {
        if budget < 3 {
            return Err(Refused::BudgetTooSmall { budget });
        }
        let ghost d = budget as int;
        let ghost off = g.offset@;
        let (copies, nodes) = lay_copies(g, budget);
        let cap = port_counts(g, budget, &copies, nodes);
        let mut used: Vec<usize> = Vec::new();
        let mut x: u32 = 0;
        while x < nodes
            invariant
                x <= nodes,
                used@.len() == x,
                forall|y: int| 0 <= y < x ==> #[trigger] used@[y] == 0,
            decreases nodes - x,
        {
            used.push(0);
            x += 1;
        }
        let mut links: Vec<Link> = Vec::new();
        proof {
            lemma_sharing_start(*g, d, cap@, used@);
            assert(links@ =~= seq![]);
            assert(off[0] == 0);
        }
        let n = g.n;
        let mut u: usize = 0;
        while u < n
            invariant
                laid_out(*g, d, copies@, cap@),
                d == budget as int,
                off == g.offset@,
                n == g.n,
                u <= n,
                sharing(*g, d, cap@, used@, links@, u as int, off[u as int] as int),
            decreases n - u,
        {
            let mut k = g.offset[u];
            let end = g.offset[u + 1];
            assert(off[u as int] <= off[u + 1]);
            while k < end
                invariant
                    laid_out(*g, d, copies@, cap@),
                    d == budget as int,
                    off == g.offset@,
                    n == g.n,
                    u < n,
                    end == off[u + 1],
                    off[u as int] <= k <= end,
                    sharing(*g, d, cap@, used@, links@, u as int, k as int),
                decreases end - k,
            {
                assert(k < g.nbr@.len());
                if (g.nbr[k] as usize) > u {
                    hand_out(g, budget, &copies, &cap, &mut used, &mut links, u, k);
                } else {
                    proof {
                        lemma_sharing_skip(*g, d, cap@, used@, links@, u as int, k as int);
                    }
                }
                k += 1;
            }
            proof {
                lemma_sharing_row_end(*g, d, cap@, used@, links@, u as int);
            }
            u += 1;
        }
        proof {
            let l = links@;
            assert(upper_in_row(g.offset@, g.nbr@, n as int, off[n as int] as int, off[n as int] as int) =~= Seq::<int>::empty());
            assert(link_entries(l) =~= upper_before(g.offset@, g.nbr@, n as int));
            assert forall|v: int, i: int|
                0 <= v < g.n && 0 <= i < copy_count(off, d, v) implies touches(
                    l,
                    #[trigger] (block_start(off, d, v) + i),
                ) <= ports(copy_count(off, d, v), i, d) by {
                lemma_block_start_monotone(off, d, 0, v);
                lemma_block_start_monotone(off, d, v, g.n as int);
                let y = block_start(off, d, v) + i;
                assert(used@[y] == touches(l, y) && used@[y] <= cap@[y]);
            }
            assert forall|v: int| 0 <= v < g.n implies #[trigger] block_touches(
                l,
                block_start(off, d, v),
                copy_count(off, d, v),
            ) == degree(off, v) by {
                lemma_block_start_monotone(off, d, 0, v);
                lemma_block_start_monotone(off, d, v, g.n as int);
                lemma_copy_count_positive(off, d, v);
                assert forall|x: int| block_start(off, d, v) <= x < block_start(off, d, v) + copy_count(off, d, v)
                    implies #[trigger] used@[x] == touches(l, x) by {
                }
                lemma_block_touches(used@, l, block_start(off, d, v), copy_count(off, d, v));
                assert(handed_out(g.offset@, g.nbr@, n as int, off[n as int] as int, v) == degree(off, v));
            }
        }
        Ok(CopyLayout { copies, nodes, links })
    }
}


/// How many of variable `v`'s copies are up in `state`.
pub open spec fn copies_up(copies: Seq<Vec<u32>>, state: Seq<i8>, v: int) -> nat {
    count_where(0, copies[v]@.len() as int, |i: int| state[copies[v]@[i] as int] > 0)
}

/// Read a state of the copies back as a state of the variables, and say which variables broke.
///
/// A variable takes the value its copies agree on; where they disagree it takes the majority, `+1`
/// on a tie, and its index is reported, ascending. Every copy must name a spin of `state`.
pub fn project(copies: &Vec<Vec<u32>>, state: &[i8]) -> (r: (Vec<i8>, Vec<usize>))
    requires
        forall|v: int, i: int|
            0 <= v < copies@.len() && 0 <= i < copies@[v]@.len() ==> (#[trigger] copies@[v]@[i]) < state@.len(),
    ensures
        r.0@.len() == copies@.len(),
        forall|v: int|
            0 <= v < copies@.len() ==> #[trigger] r.0@[v] == (if 2 * copies_up(copies@, state@, v) >= copies@[v]@.len() {
                1i8
            } else {
                -1i8
            }),
        strictly_inc(r.1@),
        forall|v: usize|
            r.1@.contains(v) <==> (v < copies@.len() && 0 < copies_up(copies@, state@, v as int) < copies@[v as int]@.len()),
{
    let mut out: Vec<i8> = Vec::new();
    let mut broken: Vec<usize> = Vec::new();
    let mut v: usize = 0;
    while v < copies.len()
        invariant
            forall|w: int, i: int|
                0 <= w < copies@.len() && 0 <= i < copies@[w]@.len() ==> (#[trigger] copies@[w]@[i]) < state@.len(),
            v <= copies@.len(),
            out@.len() == v,
            forall|w: int|
                0 <= w < v ==> #[trigger] out@[w] == (if 2 * copies_up(copies@, state@, w) >= copies@[w]@.len() {
                    1i8
                } else {
                    -1i8
                }),
            strictly_inc(broken@),
            forall|t: int| 0 <= t < broken@.len() ==> #[trigger] broken@[t] < v,
            forall|w: usize|
                broken@.contains(w) <==> (w < v && 0 < copies_up(copies@, state@, w as int) < copies@[w as int]@.len()),
        decreases copies@.len() - v,
    {
        let set = &copies[v];
        let ghost keep = |i: int| state@[copies@[v as int]@[i] as int] > 0;
        let mut up: usize = 0;
        let mut i: usize = 0;
        while i < set.len()
            invariant
                set@ == copies@[v as int]@,
                forall|j: int| 0 <= j < set@.len() ==> (#[trigger] set@[j]) < state@.len(),
                keep == (|i: int| state@[copies@[v as int]@[i] as int] > 0),
                i <= set@.len(),
                up == count_where(0, i as int, keep),
                up <= i,
            decreases set@.len() - i,
        {
            if state[set[i] as usize] > 0 {
                up += 1;
            }
            i += 1;
        }
        assert(up == copies_up(copies@, state@, v as int));
        let c = set.len();
        if up != 0 && up != c {
            let ghost before = broken@;
            broken.push(v);
            proof {
                assert forall|w: usize| broken@.contains(w) <==> (w < v + 1 && 0 < copies_up(copies@, state@, w as int) < copies@[w as int]@.len()) by {
                    if broken@.contains(w) && w != v {
                        let t = choose|t: int| 0 <= t < broken@.len() && broken@[t] == w;
                        assert(before[t] == w);
                        assert(before.contains(w));
                    }
                    if w < v && 0 < copies_up(copies@, state@, w as int) < copies@[w as int]@.len() {
                        assert(before.contains(w));
                        let t = choose|t: int| 0 <= t < before.len() && before[t] == w;
                        assert(broken@[t] == w);
                    }
                    if w == v {
                        assert(broken@[broken@.len() - 1] == w);
                    }
                }
            }
        } else {
            proof {
                assert forall|w: usize| broken@.contains(w) <==> (w < v + 1 && 0 < copies_up(copies@, state@, w as int) < copies@[w as int]@.len()) by {
                    if broken@.contains(w) {
                        let t = choose|t: int| 0 <= t < broken@.len() && broken@[t] == w;
                        assert(broken@[t] < v);
                    }
                }
            }
        }
        let x: i8 = if up >= c - up { 1 } else { -1 };
        out.push(x);
        v += 1;
    }
    (out, broken)
}


} // verus!
