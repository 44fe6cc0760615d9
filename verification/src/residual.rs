//! Reachability in a residual network, and the minimum cuts read off it.
//!
//! Arcs come in pairs: arc `e` and its partner, the other direction of the same edge. Which arcs
//! still have residual capacity is decided by the flow that produced the network; what follows
//! from that decision (what the source reaches, what reaches the sink, which spins every minimum
//! cut pins, and a cut walked towards consistency) is computed and specified here.

use vstd::prelude::*;

verus! {

/// The other direction of arc `e`: arcs `2k` and `2k + 1` are the two directions of one edge.
pub open spec fn partner(e: int) -> int {
    if e % 2 == 0 {
        e + 1
    } else {
        e - 1
    }
}

/// A residual network over nodes `0..adj.len()`.
#[derive(Clone, Debug)]
pub struct Residual {
    /// The head of each arc.
    pub to: Vec<u32>,
    /// The arcs out of each node, in the order they were added.
    pub adj: Vec<Vec<u32>>,
    /// Whether each arc still has residual capacity.
    pub open: Vec<bool>,
}

impl Residual {
    /// Nodes.
    pub open spec fn nodes(&self) -> int {
        self.adj@.len() as int
    }

    /// Arc `i` out of node `u`.
    pub open spec fn arc(&self, u: int, i: int) -> int {
        self.adj@[u]@[i] as int
    }

    /// The tail of arc `e`: the head of its partner.
    pub open spec fn tail(&self, e: int) -> int {
        self.to@[partner(e)] as int
    }

    /// Whether arc `e` is listed among the arcs out of its tail.
    pub open spec fn listed(&self, e: int) -> bool {
        exists|j: int|
            0 <= j < self.adj@[self.tail(e)]@.len() && #[trigger] self.arc(self.tail(e), j) == e
    }

    /// A consistent network: one head and one flag per arc, arcs in pairs, every head a node,
    /// every listed arc an arc out of the node that lists it, and every arc listed.
    pub open spec fn wf(&self) -> bool {
        &&& self.to@.len() == self.open@.len()
        &&& self.to@.len() % 2 == 0
        &&& self.to@.len() <= u32::MAX
        &&& self.nodes() <= u32::MAX
        &&& forall|e: int| 0 <= e < self.to@.len() ==> (#[trigger] self.to@[e]) < self.nodes()
        &&& forall|u: int, i: int|
            0 <= u < self.nodes() && 0 <= i < self.adj@[u]@.len() ==> #[trigger] self.arc(u, i)
                < self.to@.len() && self.tail(self.arc(u, i)) == u
        &&& forall|e: int| 0 <= e < self.to@.len() ==> #[trigger] self.listed(e)
    }

    /// An empty network over `nodes` nodes.
    pub fn new(nodes: usize) -> (r: Residual)
        requires
            nodes <= u32::MAX,
        ensures
            r.wf(),
            r.nodes() == nodes,
            r.to@.len() == 0,
            forall|u: int| 0 <= u < nodes ==> (#[trigger] r.adj@[u]@).len() == 0,
    {
        let mut adj: Vec<Vec<u32>> = Vec::new();
        let mut k: usize = 0;
        while k < nodes
            invariant
                k <= nodes,
                adj@.len() == k,
                forall|u: int| 0 <= u < k ==> (#[trigger] adj@[u]@).len() == 0,
            decreases nodes - k,
        {
            adj.push(Vec::new());
            k += 1;
        }
        Residual { to: Vec::new(), adj, open: Vec::new() }
    }

    /// Add an edge from `u` to `v`: the arc `u -> v`, open, and its partner `v -> u`, closed.
    pub fn add_arc(&mut self, u: usize, v: usize)
        requires
            old(self).wf(),
            u < old(self).nodes(),
            v < old(self).nodes(),
            old(self).to@.len() + 2 <= u32::MAX,
        ensures
            final(self).wf(),
            final(self).nodes() == old(self).nodes(),
            final(self).to@ == old(self).to@.push(v as u32).push(u as u32),
            final(self).open@ == old(self).open@.push(true).push(false),
            u != v ==> final(self).adj@[u as int]@ == old(self).adj@[u as int]@.push(old(self).to@.len() as u32)
                && final(self).adj@[v as int]@ == old(self).adj@[v as int]@.push((old(self).to@.len() + 1) as u32),
            u == v ==> final(self).adj@[u as int]@ == old(self).adj@[u as int]@.push(old(self).to@.len() as u32).push(
                (old(self).to@.len() + 1) as u32,
            ),
            forall|x: int| 0 <= x < old(self).nodes() && x != u && x != v ==> #[trigger] final(self).adj@[x] == old(self).adj@[x],
    {
        let ghost before = *self;
        let e = self.to.len() as u32;
        self.to.push(v as u32);
        self.to.push(u as u32);
        self.open.push(true);
        self.open.push(false);
        push_row(&mut self.adj, u, e);
        let ghost mid = self.adj@;
        push_row(&mut self.adj, v, e + 1);
        proof {
            let m = before.to@.len() as int;
            assert(self.to@ =~= before.to@.push(v as u32).push(u as u32));
            assert(mid[u as int]@ == before.adj@[u as int]@.push(e));
            assert forall|x: int, i: int|
                0 <= x < self.nodes() && 0 <= i < before.adj@[x]@.len() implies #[trigger] self.adj@[x]@[i]
                == before.adj@[x]@[i] && before.adj@[x]@.len() <= self.adj@[x]@.len() by {
                if x == u {
                    assert(mid[x]@[i] == before.adj@[x]@[i]);
                }
            }
            assert forall|x: int, i: int|
                0 <= x < self.nodes() && 0 <= i < self.adj@[x]@.len() implies #[trigger] self.arc(x, i)
                < self.to@.len() && self.tail(self.arc(x, i)) == x by {
                if i < before.adj@[x]@.len() {
                    assert(self.adj@[x]@[i] == before.adj@[x]@[i]);
                    assert(self.arc(x, i) == before.arc(x, i));
                    assert(before.arc(x, i) < m && before.tail(before.arc(x, i)) == x);
                    assert(partner(before.arc(x, i)) < m);
                } else if x == u && i == before.adj@[x]@.len() {
                    assert(self.arc(x, i) == m);
                } else {
                    assert(self.arc(x, i) == m + 1 && x == v);
                }
            }
            assert forall|f: int| 0 <= f < self.to@.len() implies #[trigger] self.listed(f) by {
                if f < m {
                    assert(before.listed(f));
                    let t = before.tail(f);
                    assert(partner(f) < m);
                    assert(self.tail(f) == t);
                    let j = choose|j: int| 0 <= j < before.adj@[t]@.len() && #[trigger] before.arc(t, j) == f;
                    assert(self.adj@[t]@[j] == before.adj@[t]@[j]);
                    assert(self.arc(t, j) == f);
                } else if f == m {
                    assert(self.tail(f) == u);
                    let j = before.adj@[u as int]@.len() as int;
                    assert(mid[u as int]@[j] == m);
                    assert(self.adj@[u as int]@[j] == m);
                    assert(self.arc(u as int, j) == f);
                } else {
                    assert(self.tail(f) == v);
                    let j = self.adj@[v as int]@.len() - 1;
                    assert(self.arc(v as int, j) == f);
                }
            }
        }
    }
}

impl Residual {
    /// Whether arc `e` can be followed: forwards, when it is open; backwards (from its head
    /// towards its tail), when its partner is.
    pub open spec fn usable(&self, fwd: bool, e: int) -> bool {
        if fwd {
            self.open@[e]
        } else {
            self.open@[partner(e)]
        }
    }

    /// Whether one usable arc out of `u` leads to `v`.
    pub open spec fn step(&self, fwd: bool, u: int, v: int) -> bool {
        exists|i: int|
            0 <= i < self.adj@[u]@.len() && self.to@[#[trigger] self.arc(u, i)] == v
                && self.usable(fwd, self.arc(u, i))
    }

    /// Whether the step from `path[t]` to `path[t + 1]` is usable.
    pub open spec fn linked(&self, fwd: bool, path: Seq<int>, t: int) -> bool {
        self.step(fwd, path[t], path[t + 1])
    }

    /// A walk along usable steps, every node after the first lying outside `out`.
    pub open spec fn is_path(&self, fwd: bool, out: Seq<bool>, path: Seq<int>) -> bool {
        &&& path.len() >= 1
        &&& forall|t: int| 0 <= t < path.len() - 1 ==> #[trigger] self.linked(fwd, path, t)
        &&& forall|t: int| 1 <= t < path.len() ==> !out[#[trigger] path[t]]
    }

    /// Whether `b` is reached from `a` with every node after `a` outside `out`.
    pub open spec fn reaches_outside(&self, fwd: bool, out: Seq<bool>, a: int, b: int) -> bool {
        exists|path: Seq<int>| #[trigger] self.is_path(fwd, out, path) && path[0] == a && path.last() == b
    }

    /// Whether `b` is reached from `a` along open arcs.
    pub open spec fn reaches(&self, a: int, b: int) -> bool {
        self.reaches_outside(true, nowhere(self.nodes()), a, b)
    }

    /// `set` grown by `p` and everything reached from `p` outside `set`, unless that reaches a
    /// node of `forbid` other than `p`: then `set` is left as it was. The flag says whether `set`
    /// ends up holding `p`.
    pub open spec fn grown(&self, fwd: bool, set: Seq<bool>, p: int, forbid: Seq<usize>) -> (bool, Seq<bool>) {
        if set[p] {
            (true, set)
        } else if exists|x: int|
            #[trigger] self.reaches_outside(fwd, set, p, x) && x != p && forbid.contains(x as usize) {
            (false, set)
        } else {
            (true, Seq::new(set.len(), |x: int| set[x] || self.reaches_outside(fwd, set, p, x)))
        }
    }
}

/// No node at all.
pub open spec fn nowhere(n: int) -> Seq<bool> {
    Seq::new(n as nat, |i: int| false)
}

/// How many nodes are not yet in `set`.
pub open spec fn unseen(set: Seq<bool>) -> nat
    decreases set.len(),
{
    if set.len() == 0 {
        0
    } else {
        unseen(set.drop_last()) + (if set.last() {
            0nat
        } else {
            1nat
        })
    }
}

/// Putting a node into the set leaves one fewer outside it.
proof fn lemma_unseen_mark(set: Seq<bool>, x: int)
    requires
        0 <= x < set.len(),
        !set[x],
    ensures
        unseen(set.update(x, true)) + 1 == unseen(set),
    decreases set.len(),
{
    let s2 = set.update(x, true);
    if x < set.len() - 1 {
        lemma_unseen_mark(set.drop_last(), x);
        assert(s2.drop_last() =~= set.drop_last().update(x, true));
    } else {
        assert(s2.drop_last() =~= set.drop_last());
    }
}

/// At most every node is outside the set.
proof fn lemma_unseen_bound(set: Seq<bool>)
    ensures
        unseen(set) <= set.len(),
    decreases set.len(),
{
    if set.len() > 0 {
        lemma_unseen_bound(set.drop_last());
    }
}

/// A walk one usable step longer reaches one node further.
proof fn lemma_path_extend(net: Residual, fwd: bool, out: Seq<bool>, path: Seq<int>, b: int)
    requires
        net.is_path(fwd, out, path),
        net.step(fwd, path.last(), b),
        !out[b],
    ensures
        net.is_path(fwd, out, path.push(b)),
{
    let q = path.push(b);
    assert forall|t: int| 0 <= t < q.len() - 1 implies #[trigger] net.linked(fwd, q, t) by {
        if t < path.len() - 1 {
            assert(net.linked(fwd, path, t));
        }
    }
    assert forall|t: int| 1 <= t < q.len() implies !out[#[trigger] q[t]] by {
        if t < path.len() {
            assert(!out[path[t]]);
        }
    }
}

/// Everything `a` reaches outside `out` is reached by a walk one step longer, or is `a`.
proof fn lemma_reach_extend(net: Residual, fwd: bool, out: Seq<bool>, a: int, w: int, b: int)
    requires
        net.reaches_outside(fwd, out, a, w),
        net.step(fwd, w, b),
        !out[b],
    ensures
        net.reaches_outside(fwd, out, a, b),
{
    let path = choose|path: Seq<int>| #[trigger] net.is_path(fwd, out, path) && path[0] == a && path.last() == w;
    lemma_path_extend(net, fwd, out, path, b);
    assert(net.is_path(fwd, out, path.push(b)) && path.push(b)[0] == a && path.push(b).last() == b);
}

/// `a` reaches itself.
proof fn lemma_reach_self(net: Residual, fwd: bool, out: Seq<bool>, a: int)
    ensures
        net.reaches_outside(fwd, out, a, a),
{
    let path = seq![a];
    assert(net.is_path(fwd, out, path) && path[0] == a && path.last() == a);
}

/// A set holding `path[0]` whose members outside `out` have all their usable arcs leading into
/// the set or into `out` holds the whole walk.
proof fn lemma_closure_holds_path(net: Residual, fwd: bool, out: Seq<bool>, mine: Seq<bool>, path: Seq<int>)
    requires
        net.wf(),
        out.len() == net.nodes(),
        mine.len() == net.nodes(),
        0 <= path[0] < net.nodes(),
        mine[path[0]],
        !out[path[0]],
        forall|y: int, i: int|
            0 <= y < net.nodes() && mine[y] && !out[y] && 0 <= i < net.adj@[y]@.len() && net.usable(
                fwd,
                #[trigger] net.arc(y, i),
            ) ==> mine[net.to@[net.arc(y, i)] as int] || out[net.to@[net.arc(y, i)] as int],
        net.is_path(fwd, out, path),
    ensures
        0 <= path.last() < net.nodes(),
        mine[path.last()],
    decreases path.len(),
{
    if path.len() > 1 {
        let front = path.drop_last();
        assert forall|t: int| 0 <= t < front.len() - 1 implies #[trigger] net.linked(fwd, front, t) by {
            assert(net.linked(fwd, path, t));
        }
        assert forall|t: int| 1 <= t < front.len() implies !out[#[trigger] front[t]] by {
            assert(!out[path[t]]);
        }
        lemma_closure_holds_path(net, fwd, out, mine, front);
        let w = front.last();
        if front.len() > 1 {
            assert(!out[path[front.len() - 1]]);
        }
        assert(net.linked(fwd, path, path.len() - 2));
        let i = choose|i: int|
            0 <= i < net.adj@[w]@.len() && net.to@[#[trigger] net.arc(w, i)] == path.last()
                && net.usable(fwd, net.arc(w, i));
        assert(net.arc(w, i) < net.to@.len());
        assert(!out[path[path.len() - 1]]);
    }
}

/// Whether `v` is one of `xs`.
fn listed_in(xs: &[usize], v: usize) -> (b: bool)
    ensures
        b == xs@.contains(v),
{
    let mut t: usize = 0;
    while t < xs.len()
        invariant
            t <= xs@.len(),
            forall|r: int| 0 <= r < t ==> xs@[r] != v,
        decreases xs@.len() - t,
    {
        if xs[t] == v {
            assert(xs@[t as int] == v);
            return true;
        }
        t += 1;
    }
    false
}

/// The other direction of arc `e`.
fn partner_of(e: usize) -> (f: usize)
    requires
        e < u32::MAX,
    ensures
        f == partner(e as int),
{
    if e % 2 == 0 {
        e + 1
    } else {
        e - 1
    }
}

impl Residual {
    /// Add `p` to `inside` together with everything reached from it along usable arcs outside
    /// `inside`, unless that reaches a node of `forbid` other than `p`, in which case nothing is
    /// added. Returns whether `inside` holds `p` afterwards.
    pub fn grow(&self, inside: &mut Vec<bool>, p: usize, fwd: bool, forbid: &[usize]) -> (ok: bool)
        requires
            self.wf(),
            old(inside)@.len() == self.nodes(),
            p < self.nodes(),
        ensures
            ok == self.grown(fwd, old(inside)@, p as int, forbid@).0,
            final(inside)@ == self.grown(fwd, old(inside)@, p as int, forbid@).1,
    {
        if inside[p] {
            return true;
        }
        let ghost s0 = inside@;
        let ghost n = self.nodes();
        let mut added: Vec<usize> = Vec::new();
        added.push(p);
        proof {
            lemma_unseen_mark(inside@, p as int);
            lemma_reach_self(*self, fwd, s0, p as int);
        }
        inside.set(p, true);
        proof {
            assert forall|y: int| 0 <= y < n implies (#[trigger] inside@[y] <==> (s0[y] || added@.contains(
                y as usize,
            ))) by {
                assert(added@[0] == p);
                if added@.contains(y as usize) {
                    let t = choose|t: int| 0 <= t < added@.len() && added@[t] == y as usize;
                    assert(t == 0);
                }
            }
        }
        let mut k: usize = 0;
        let mut refused = false;
        while k < added.len() && !refused
            invariant
                self.wf(),
                n == self.nodes(),
                p < n,
                s0.len() == n,
                !s0[p as int],
                inside@.len() == n,
                k <= added@.len(),
                added@.len() >= 1,
                added@[0] == p,
                added@.len() + unseen(inside@) == unseen(s0),
                forall|y: int| 0 <= y < n ==> (#[trigger] inside@[y] <==> (s0[y] || added@.contains(y as usize))),
                forall|t: int|
                    0 <= t < added@.len() ==> (#[trigger] added@[t]) < n && !s0[added@[t] as int]
                        && self.reaches_outside(fwd, s0, p as int, added@[t] as int),
                added@.no_duplicates(),
                forall|t: int| 1 <= t < added@.len() ==> !forbid@.contains(#[trigger] added@[t]),
                !refused ==> forall|t: int, i: int|
                    0 <= t < k && 0 <= i < self.adj@[added@[t] as int]@.len() && self.usable(
                        fwd,
                        #[trigger] self.arc(added@[t] as int, i),
                    ) ==> inside@[self.to@[self.arc(added@[t] as int, i)] as int],
                refused ==> exists|x: int|
                    #[trigger] self.reaches_outside(fwd, s0, p as int, x) && x != p && forbid@.contains(x as usize),
            decreases n - k,
        {
            proof {
                lemma_unseen_bound(s0);
            }
            let u = added[k];
            k += 1;
            let row = &self.adj[u];
            let mut i: usize = 0;
            while i < row.len() && !refused
                invariant
                    self.wf(),
                    n == self.nodes(),
                    p < n,
                    s0.len() == n,
                    !s0[p as int],
                    inside@.len() == n,
                    1 <= k <= added@.len(),
                    u == added@[k - 1],
                    u < n,
                    row@ == self.adj@[u as int]@,
                    i <= row@.len(),
                    added@[0] == p,
                    added@.len() + unseen(inside@) == unseen(s0),
                    forall|y: int| 0 <= y < n ==> (#[trigger] inside@[y] <==> (s0[y] || added@.contains(y as usize))),
                    forall|t: int|
                        0 <= t < added@.len() ==> (#[trigger] added@[t]) < n && !s0[added@[t] as int]
                            && self.reaches_outside(fwd, s0, p as int, added@[t] as int),
                    added@.no_duplicates(),
                    forall|t: int| 1 <= t < added@.len() ==> !forbid@.contains(#[trigger] added@[t]),
                    !refused ==> forall|t: int, j: int|
                        0 <= t < k - 1 && 0 <= j < self.adj@[added@[t] as int]@.len() && self.usable(
                            fwd,
                            #[trigger] self.arc(added@[t] as int, j),
                        ) ==> inside@[self.to@[self.arc(added@[t] as int, j)] as int],
                    !refused ==> forall|j: int|
                        0 <= j < i && self.usable(fwd, #[trigger] self.arc(u as int, j))
                            ==> inside@[self.to@[self.arc(u as int, j)] as int],
                    refused ==> exists|x: int|
                        #[trigger] self.reaches_outside(fwd, s0, p as int, x) && x != p && forbid@.contains(x as usize),
                decreases row@.len() - i,
            {
                let e = row[i] as usize;
                proof {
                    assert(self.arc(u as int, i as int) == e);
                }
                let v = self.to[e] as usize;
                let f = partner_of(e);
                let open = if fwd {
                    self.open[e]
                } else {
                    self.open[f]
                };
                if open && !inside[v] {
                    proof {
                        assert(self.step(fwd, u as int, v as int));
                        lemma_reach_extend(*self, fwd, s0, p as int, u as int, v as int);
                    }
                    if listed_in(forbid, v) {
                        refused = true;
                    } else {
                        proof {
                            lemma_unseen_mark(inside@, v as int);
                            assert forall|y: int| 0 <= y < n implies (#[trigger] inside@.update(v as int, true)[y]
                                <==> (s0[y] || added@.push(v).contains(y as usize))) by {
                                if y == v {
                                    assert(added@.push(v)[added@.len() as int] == v);
                                } else if added@.contains(y as usize) {
                                    let t = choose|t: int| 0 <= t < added@.len() && added@[t] == y as usize;
                                    assert(added@.push(v)[t] == y as usize);
                                } else if added@.push(v).contains(y as usize) {
                                    let t = choose|t: int| 0 <= t < added@.len() + 1 && added@.push(v)[t] == y as usize;
                                    if t < added@.len() {
                                        assert(added@[t] == y as usize);
                                    }
                                }
                            }
                            assert(!added@.contains(v)) by {
                                if added@.contains(v) {
                                    assert(inside@[v as int]);
                                }
                            }
                        }
                        inside.set(v, true);
                        added.push(v);
                    }
                }
                i += 1;
            }
        }
        if refused {
            let mut t: usize = 0;
            assert(added@.subrange(0, added@.len() as int) =~= added@);
            while t < added.len()
                invariant
                    self.wf(),
                    n == self.nodes(),
                    s0.len() == n,
                    inside@.len() == n,
                    t <= added@.len(),
                    forall|y: int| 0 <= y < n ==> (#[trigger] inside@[y] <==> (s0[y] || added@.subrange(t as int, added@.len() as int).contains(y as usize))),
                    forall|r: int| 0 <= r < added@.len() ==> (#[trigger] added@[r]) < n && !s0[added@[r] as int],
                    added@.no_duplicates(),
                decreases added@.len() - t,
            {
                let y = added[t];
                proof {
                    let rest = added@.subrange(t as int, added@.len() as int);
                    let later = added@.subrange(t as int + 1, added@.len() as int);
                    assert forall|z: int| 0 <= z < n implies (#[trigger] inside@.update(y as int, false)[z]
                        <==> (s0[z] || later.contains(z as usize))) by {
                        if z == y {
                            if later.contains(z as usize) {
                                let r = choose|r: int| 0 <= r < later.len() && later[r] == z as usize;
                                assert(added@[t as int + 1 + r] == added@[t as int]);
                            }
                        } else {
                            if rest.contains(z as usize) {
                                let r = choose|r: int| 0 <= r < rest.len() && rest[r] == z as usize;
                                assert(rest[0] == y);
                                assert(r != 0);
                                assert(later[r - 1] == z as usize);
                            }
                            if later.contains(z as usize) {
                                let r = choose|r: int| 0 <= r < later.len() && later[r] == z as usize;
                                assert(rest[r + 1] == z as usize);
                            }
                        }
                    }
                }
                inside.set(y, false);
                t += 1;
            }
            proof {
                assert(inside@ =~= s0);
            }
            return false;
        }
        proof {
            let mine = inside@;
            assert forall|x: int| #[trigger] self.reaches_outside(fwd, s0, p as int, x) implies 0 <= x < n && mine[x]
                && added@.contains(x as usize) by {
                let path = choose|path: Seq<int>| #[trigger] self.is_path(fwd, s0, path) && path[0] == p && path.last() == x;
                assert forall|y: int, i: int|
                    0 <= y < n && mine[y] && !s0[y] && 0 <= i < self.adj@[y]@.len() && self.usable(fwd, #[trigger] self.arc(y, i))
                        implies mine[self.to@[self.arc(y, i)] as int] || s0[self.to@[self.arc(y, i)] as int] by {
                    let t = choose|t: int| 0 <= t < added@.len() && added@[t] == y as usize;
                    assert(self.arc(added@[t] as int, i) == self.arc(y, i));
                }
                lemma_closure_holds_path(*self, fwd, s0, mine, path);
                if x != p {
                    assert(!s0[path[path.len() - 1]]);
                }
            }
            assert(!(exists|x: int|
                #[trigger] self.reaches_outside(fwd, s0, p as int, x) && x != p && forbid@.contains(x as usize))) by {
                if exists|x: int|
                    #[trigger] self.reaches_outside(fwd, s0, p as int, x) && x != p && forbid@.contains(x as usize) {
                    let x = choose|x: int|
                        #[trigger] self.reaches_outside(fwd, s0, p as int, x) && x != p && forbid@.contains(x as usize);
                    let t = choose|t: int| 0 <= t < added@.len() && added@[t] == x as usize;
                    assert(t != 0);
                    assert(!forbid@.contains(added@[t]));
                }
            }
            assert forall|x: int| 0 <= x < n implies mine[x] == (s0[x] || self.reaches_outside(fwd, s0, p as int, x)) by {
                if added@.contains(x as usize) {
                    let t = choose|t: int| 0 <= t < added@.len() && added@[t] == x as usize;
                    assert(self.reaches_outside(fwd, s0, p as int, added@[t] as int));
                }
            }
            assert(mine =~= Seq::new(s0.len(), |x: int| s0[x] || self.reaches_outside(fwd, s0, p as int, x)));
        }
        true
    }
}

/// Following arc `e` the other way round is following its partner: a usable step from `u` to
/// `v` is a usable step from `v` to `u` in the opposite direction.
proof fn lemma_step_reverse(net: Residual, fwd: bool, u: int, v: int)
    requires
        net.wf(),
        0 <= u < net.nodes(),
        net.step(fwd, u, v),
    ensures
        net.step(!fwd, v, u),
        0 <= v < net.nodes(),
{
    let i = choose|i: int|
        0 <= i < net.adj@[u]@.len() && net.to@[#[trigger] net.arc(u, i)] == v && net.usable(fwd, net.arc(u, i));
    let e = net.arc(u, i);
    assert(e < net.to@.len() && net.tail(e) == u);
    let f = partner(e);
    assert(partner(f) == e);
    assert(0 <= f < net.to@.len());
    assert(net.listed(f));
    assert(net.tail(f) == v);
    let j = choose|j: int| 0 <= j < net.adj@[net.tail(f)]@.len() && #[trigger] net.arc(net.tail(f), j) == f;
    assert(net.to@[net.arc(v, j)] == u);
    assert(net.usable(!fwd, net.arc(v, j)));
}

/// Every node of a walk that starts at a node is a node.
proof fn lemma_path_in_range(net: Residual, fwd: bool, out: Seq<bool>, path: Seq<int>, t: int)
    requires
        net.wf(),
        net.is_path(fwd, out, path),
        0 <= path[0] < net.nodes(),
        0 <= t < path.len(),
    ensures
        0 <= path[t] < net.nodes(),
    decreases t,
{
    if t > 0 {
        lemma_path_in_range(net, fwd, out, path, t - 1);
        assert(net.linked(fwd, path, t - 1));
        lemma_step_reverse(net, fwd, path[t - 1], path[t]);
    }
}

/// A walk read backwards is a walk in the opposite direction.
proof fn lemma_path_reverse(net: Residual, fwd: bool, n: int, path: Seq<int>)
    requires
        net.wf(),
        n == net.nodes(),
        net.is_path(fwd, nowhere(n), path),
        0 <= path[0] < n,
    ensures
        net.is_path(!fwd, nowhere(n), path.reverse()),
        path.reverse()[0] == path.last(),
        path.reverse().last() == path[0],
{
    let r = path.reverse();
    let m = path.len() as int;
    let back = !fwd;
    assert forall|t: int| 0 <= t < m implies 0 <= #[trigger] path[t] < n by {
        lemma_path_in_range(net, fwd, nowhere(n), path, t);
    }
    assert forall|t: int| 0 <= t < r.len() - 1 implies #[trigger] net.linked(back, r, t) by {
        let s = m - 2 - t;
        assert(net.linked(fwd, path, s));
        assert(path[s] == r[t + 1] && path[s + 1] == r[t]);
        lemma_step_reverse(net, fwd, path[s], path[s + 1]);
    }
    assert forall|t: int| 1 <= t < r.len() implies !nowhere(n)[#[trigger] r[t]] by {
        assert(r[t] == path[m - 1 - t]);
    }
}

/// Walking backwards from `b` reaches `a` exactly when `a` reaches `b`.
pub proof fn lemma_reach_backwards(net: Residual, a: int, b: int)
    requires
        net.wf(),
        0 <= a < net.nodes(),
        0 <= b < net.nodes(),
    ensures
        net.reaches_outside(false, nowhere(net.nodes()), b, a) <==> net.reaches(a, b),
{
    let n = net.nodes();
    if net.reaches(a, b) {
        let path = choose|path: Seq<int>| #[trigger] net.is_path(true, nowhere(n), path) && path[0] == a && path.last() == b;
        lemma_path_reverse(net, true, n, path);
        assert(net.is_path(false, nowhere(n), path.reverse()));
    }
    if net.reaches_outside(false, nowhere(n), b, a) {
        let path = choose|path: Seq<int>| #[trigger] net.is_path(false, nowhere(n), path) && path[0] == b && path.last() == a;
        lemma_path_reverse(net, false, n, path);
        assert(net.is_path(true, nowhere(n), path.reverse()));
    }
}

impl Residual {
    /// The nodes reached from `from` along open arcs.
    pub fn reach_forward(&self, from: usize) -> (seen: Vec<bool>)
        requires
            self.wf(),
            from < self.nodes(),
        ensures
            seen@.len() == self.nodes(),
            forall|x: int| 0 <= x < self.nodes() ==> (#[trigger] seen@[x] <==> self.reaches(from as int, x)),
    {
        let mut seen = self.nothing();
        let none: Vec<usize> = Vec::new();
        self.grow(&mut seen, from, true, none.as_slice());
        proof {
            assert(!(exists|x: int|
                #[trigger] self.reaches_outside(true, nowhere(self.nodes()), from as int, x) && x != from
                    && none@.contains(x as usize)));
        }
        seen
    }

    /// The nodes from which `to` is reached along open arcs.
    pub fn reach_backward(&self, to: usize) -> (seen: Vec<bool>)
        requires
            self.wf(),
            to < self.nodes(),
        ensures
            seen@.len() == self.nodes(),
            forall|x: int| 0 <= x < self.nodes() ==> (#[trigger] seen@[x] <==> self.reaches(x, to as int)),
    {
        let mut seen = self.nothing();
        let none: Vec<usize> = Vec::new();
        self.grow(&mut seen, to, false, none.as_slice());
        proof {
            assert(!(exists|x: int|
                #[trigger] self.reaches_outside(false, nowhere(self.nodes()), to as int, x) && x != to
                    && none@.contains(x as usize)));
            assert forall|x: int| 0 <= x < self.nodes() implies (#[trigger] seen@[x] <==> self.reaches(x, to as int)) by {
                lemma_reach_backwards(*self, x, to as int);
            }
        }
        seen
    }

    /// One flag per node, none set.
    fn nothing(&self) -> (seen: Vec<bool>)
        ensures
            seen@ == nowhere(self.nodes()),
    {
        let n = self.adj.len();
        let mut seen: Vec<bool> = Vec::new();
        let mut x: usize = 0;
        while x < n
            invariant
                x <= n,
                n == self.nodes(),
                seen@.len() == x,
                forall|y: int| 0 <= y < x ==> !(#[trigger] seen@[y]),
            decreases n - x,
        {
            seen.push(false);
            x += 1;
        }
        assert(seen@ =~= nowhere(self.nodes()));
        seen
    }
}

/// The spins every minimum cut pins, read off reachability in the residual network of the doubled
/// model: node `i` stands for spin `i` up, node `n + i` for spin `i` down. A spin is `+1` when its
/// up node reaches the sink and the source reaches its down node, `-1` in the mirror case.
pub open spec fn pin_of(from_src: Seq<bool>, to_snk: Seq<bool>, n: int, i: int) -> Option<i8> {
    if to_snk[i] && from_src[n + i] {
        Some(1i8)
    } else if from_src[i] && to_snk[n + i] {
        Some(-1i8)
    } else {
        None
    }
}

/// The labelling a source side `set` of the doubled model gives: a spin is `+1` when only its
/// down node is on the source side, `-1` when only its up node is, and unlabelled otherwise.
pub open spec fn label_of(set: Seq<bool>, n: int, i: int) -> Option<i8> {
    if !set[i] && set[n + i] {
        Some(1i8)
    } else if set[i] && !set[n + i] {
        Some(-1i8)
    } else {
        None
    }
}

/// The pinned spins, one per spin of the `n` whose nodes the two reachability sets cover.
pub fn pinned(from_src: &[bool], to_snk: &[bool], n: usize) -> (fixed: Vec<Option<i8>>)
    requires
        2 * n <= from_src@.len(),
        2 * n <= to_snk@.len(),
    ensures
        fixed@.len() == n,
        forall|i: int| 0 <= i < n ==> #[trigger] fixed@[i] == pin_of(from_src@, to_snk@, n as int, i),
{
    let mut fixed: Vec<Option<i8>> = Vec::new();
    let mut i: usize = 0;
    while i < n
        invariant
            i <= n,
            2 * n <= from_src@.len(),
            2 * n <= to_snk@.len(),
            fixed@.len() == i,
            forall|r: int| 0 <= r < i ==> #[trigger] fixed@[r] == pin_of(from_src@, to_snk@, n as int, r),
        decreases n - i,
    {
        let f = if to_snk[i] && from_src[n + i] {
            Some(1i8)
        } else if from_src[i] && to_snk[n + i] {
            Some(-1i8)
        } else {
            None
        };
        fixed.push(f);
        i += 1;
    }
    fixed
}

impl Residual {
    /// The source side after the first `i` spins of the walk towards a consistent cut: for each
    /// spin with neither node on the source side, pull its down node in with everything it
    /// reaches, unless that drags in the sink or the up node; failing that, the up node on the
    /// same terms.
    pub open spec fn walked(&self, start: Seq<bool>, n: int, snk: int, i: nat) -> Seq<bool>
        decreases i,
    {
        if i == 0 {
            start
        } else {
            let set = self.walked(start, n, snk, (i - 1) as nat);
            let u = i - 1;
            let v = n + i - 1;
            if !set[u] && !set[v] {
                let first = self.grown(true, set, v, seq![snk as usize, u as usize]);
                if first.0 {
                    first.1
                } else {
                    self.grown(true, set, u, seq![snk as usize, v as usize]).1
                }
            } else {
                set
            }
        }
    }

    /// Add `p` and everything reached from it along open arcs to `inside`, unless that reaches
    /// a node of `forbid` other than `p`: then nothing is added. Returns whether `inside` holds
    /// `p` afterwards.
    pub fn close_over(&self, inside: &mut Vec<bool>, p: usize, forbid: &[usize]) -> (ok: bool)
        requires
            self.wf(),
            old(inside)@.len() == self.nodes(),
            p < self.nodes(),
        ensures
            ok == self.grown(true, old(inside)@, p as int, forbid@).0,
            final(inside)@ == self.grown(true, old(inside)@, p as int, forbid@).1,
    {
        self.grow(inside, p, true, forbid)
    }

    /// A minimum cut walked towards consistency from the source side `from_src`, and the labelling
    /// of the `n` spins it gives.
    pub fn walk_to_a_consistent_cut(&self, from_src: &[bool], n: usize, snk: usize) -> (labels: Vec<Option<i8>>)
        requires
            self.wf(),
            from_src@.len() == self.nodes(),
            2 * n <= self.nodes(),
            snk < self.nodes(),
        ensures
            labels@.len() == n,
            forall|i: int|
                0 <= i < n ==> #[trigger] labels@[i] == label_of(
                    self.walked(from_src@, n as int, snk as int, n as nat),
                    n as int,
                    i,
                ),
    {
        let mut inside: Vec<bool> = Vec::new();
        let mut x: usize = 0;
        while x < from_src.len()
            invariant
                x <= from_src@.len(),
                inside@ == from_src@.subrange(0, x as int),
            decreases from_src@.len() - x,
        {
            inside.push(from_src[x]);
            x += 1;
        }
        assert(inside@ =~= from_src@);
        let mut i: usize = 0;
        while i < n
            invariant
                self.wf(),
                i <= n,
                2 * n <= self.nodes(),
                snk < self.nodes(),
                inside@ == self.walked(from_src@, n as int, snk as int, i as nat),
                inside@.len() == self.nodes(),
            decreases n - i,
        {
            let u = i;
            let v = n + i;
            proof {
                assert(self.walked(from_src@, n as int, snk as int, (i + 1) as nat) == {
                    let set = self.walked(from_src@, n as int, snk as int, i as nat);
                    if !set[u as int] && !set[v as int] {
                        let first = self.grown(true, set, v as int, seq![snk, u]);
                        if first.0 {
                            first.1
                        } else {
                            self.grown(true, set, u as int, seq![snk, v]).1
                        }
                    } else {
                        set
                    }
                });
            }
            if !inside[u] && !inside[v] {
                let mut first: Vec<usize> = Vec::new();
                first.push(snk);
                first.push(u);
                assert(first@ =~= seq![snk, u]);
                if !self.close_over(&mut inside, v, first.as_slice()) {
                    let mut second: Vec<usize> = Vec::new();
                    second.push(snk);
                    second.push(v);
                    assert(second@ =~= seq![snk, v]);
                    self.close_over(&mut inside, u, second.as_slice());
                }
            }
            i += 1;
        }
        let mut labels: Vec<Option<i8>> = Vec::new();
        let mut j: usize = 0;
        while j < n
            invariant
                j <= n,
                self.wf(),
                inside@.len() == self.nodes(),
                2 * n <= inside@.len(),
                labels@.len() == j,
                forall|r: int| 0 <= r < j ==> #[trigger] labels@[r] == label_of(inside@, n as int, r),
            decreases n - j,
        {
            let l = if !inside[j] && inside[n + j] {
                Some(1i8)
            } else if inside[j] && !inside[n + j] {
                Some(-1i8)
            } else {
                None
            };
            labels.push(l);
            j += 1;
        }
        labels
    }
}

impl Residual {
    /// Whether every open arc out of a member of `set` leads into `set`: with the source in it
    /// and the sink out of it, such a set is the source side of a minimum cut.
    pub open spec fn closed(&self, set: Seq<bool>) -> bool {
        forall|x: int, i: int|
            0 <= x < self.nodes() && set[x] && 0 <= i < self.adj@[x]@.len() && self.open@[#[trigger] self.arc(
                x,
                i,
            )] ==> set[self.to@[self.arc(x, i)] as int]
    }
}

/// Growing a closed set keeps it closed, keeps what it held, and keeps a forbidden node out.
proof fn lemma_grown_keeps_cut(net: Residual, set: Seq<bool>, p: int, forbid: Seq<usize>, snk: int)
    requires
        net.wf(),
        set.len() == net.nodes(),
        0 <= p < net.nodes(),
        0 <= snk < net.nodes(),
        p != snk,
        forbid.contains(snk as usize),
        net.closed(set),
        !set[snk],
    ensures
        net.closed(net.grown(true, set, p, forbid).1),
        !net.grown(true, set, p, forbid).1[snk],
        net.grown(true, set, p, forbid).1.len() == set.len(),
        forall|x: int| 0 <= x < set.len() && set[x] ==> #[trigger] net.grown(true, set, p, forbid).1[x],
{
    if !set[p] && !(exists|x: int|
        #[trigger] net.reaches_outside(true, set, p, x) && x != p && forbid.contains(x as usize)) {
        let grown = net.grown(true, set, p, forbid).1;
        assert(grown =~= Seq::new(set.len(), |x: int| set[x] || net.reaches_outside(true, set, p, x)));
        if net.reaches_outside(true, set, p, snk) {
            assert(net.reaches_outside(true, set, p, snk) && snk != p && forbid.contains(snk as usize));
        }
        assert forall|x: int, i: int|
            0 <= x < net.nodes() && grown[x] && 0 <= i < net.adj@[x]@.len() && net.open@[#[trigger] net.arc(
                x,
                i,
            )] implies grown[net.to@[net.arc(x, i)] as int] by {
            let z = net.to@[net.arc(x, i)] as int;
            assert(net.arc(x, i) < net.to@.len());
            if !set[x] && !set[z] {
                assert(net.step(true, x, z));
                lemma_reach_extend(net, true, set, p, x, z);
            }
        }
    }
}

/// What the source reaches along open arcs is a closed set.
pub proof fn lemma_reached_is_closed(net: Residual, src: int)
    requires
        net.wf(),
        0 <= src < net.nodes(),
    ensures
        net.closed(Seq::new(net.nodes() as nat, |x: int| net.reaches(src, x))),
{
    let n = net.nodes();
    let set = Seq::new(n as nat, |x: int| net.reaches(src, x));
    assert forall|x: int, i: int|
        0 <= x < n && set[x] && 0 <= i < net.adj@[x]@.len() && net.open@[#[trigger] net.arc(x, i)]
            implies set[net.to@[net.arc(x, i)] as int] by {
        let z = net.to@[net.arc(x, i)] as int;
        assert(net.arc(x, i) < net.to@.len());
        assert(net.step(true, x, z));
        lemma_reach_extend(net, true, nowhere(n), src, x, z);
    }
}

/// The walk towards a consistent cut never leaves the minimum cuts: started from a closed source
/// side without the sink, every set it passes through holds what it started with, is closed,
/// and leaves the sink out. The labelling it gives is therefore read off one minimum cut.
pub proof fn lemma_walk_stays_a_cut(net: Residual, start: Seq<bool>, n: int, snk: int, i: nat)
    requires
        net.wf(),
        start.len() == net.nodes(),
        0 <= n,
        2 * n <= snk < net.nodes(),
        i <= n,
        net.closed(start),
        !start[snk],
    ensures
        net.walked(start, n, snk, i).len() == start.len(),
        net.closed(net.walked(start, n, snk, i)),
        !net.walked(start, n, snk, i)[snk],
        forall|x: int| 0 <= x < start.len() && start[x] ==> #[trigger] net.walked(start, n, snk, i)[x],
    decreases i,
{
    if i > 0 {
        lemma_walk_stays_a_cut(net, start, n, snk, (i - 1) as nat);
        let set = net.walked(start, n, snk, (i - 1) as nat);
        let u = i - 1;
        let v = n + i - 1;
        if !set[u] && !set[v] {
            let f1 = seq![snk as usize, u as usize];
            let f2 = seq![snk as usize, v as usize];
            assert(f1[0] == snk as usize && f2[0] == snk as usize);
            lemma_grown_keeps_cut(net, set, v, f1, snk);
            lemma_grown_keeps_cut(net, set, u, f2, snk);
        }
    }
}

impl Residual {
    /// The nodes the source `2n` reaches along open arcs, in a network over the `2n + 2` nodes of
    /// the doubled model.
    pub open spec fn source_side(&self, n: int) -> Seq<bool> {
        Seq::new(self.nodes() as nat, |x: int| self.reaches(2 * n, x))
    }

    /// The nodes from which the sink `2n + 1` is reached along open arcs.
    pub open spec fn sink_side(&self, n: int) -> Seq<bool> {
        Seq::new(self.nodes() as nat, |x: int| self.reaches(x, 2 * n + 1))
    }

    /// The spins every minimum cut pins, and the labelling of one minimum cut walked towards
    /// consistency, for the doubled model of `n` spins: up nodes `0..n`, down nodes `n..2n`, the
    /// source `2n` and the sink `2n + 1`.
    pub fn persistency(&self, n: usize) -> (r: (Vec<Option<i8>>, Vec<Option<i8>>))
        requires
            self.wf(),
            self.nodes() == 2 * n + 2,
        ensures
            r.0@.len() == n,
            r.1@.len() == n,
            forall|i: int|
                0 <= i < n ==> #[trigger] r.0@[i] == pin_of(self.source_side(n as int), self.sink_side(n as int), n as int, i),
            forall|i: int|
                0 <= i < n ==> #[trigger] r.1@[i] == label_of(
                    self.walked(self.source_side(n as int), n as int, 2 * n + 1, n as nat),
                    n as int,
                    i,
                ),
    {
        let src = 2 * n;
        let snk = 2 * n + 1;
        let from_src = self.reach_forward(src);
        let to_snk = self.reach_backward(snk);
        assert(from_src@ =~= self.source_side(n as int));
        assert(to_snk@ =~= self.sink_side(n as int));
        let fixed = pinned(from_src.as_slice(), to_snk.as_slice(), n);
        let labels = self.walk_to_a_consistent_cut(from_src.as_slice(), n, snk);
        (fixed, labels)
    }
}

/// A member of a closed set that reaches the sink along open arcs puts the sink in the set.
proof fn lemma_closed_holds_reach(net: Residual, set: Seq<bool>, x: int, b: int)
    requires
        net.wf(),
        set.len() == net.nodes(),
        net.closed(set),
        0 <= x < net.nodes(),
        set[x],
        net.reaches(x, b),
    ensures
        set[b],
{
    let n = net.nodes();
    let path = choose|path: Seq<int>| #[trigger] net.is_path(true, nowhere(n), path) && path[0] == x && path.last() == b;
    assert forall|y: int, i: int|
        0 <= y < n && set[y] && !nowhere(n)[y] && 0 <= i < net.adj@[y]@.len() && net.usable(
            true,
            #[trigger] net.arc(y, i),
        ) implies set[net.to@[net.arc(y, i)] as int] || nowhere(n)[net.to@[net.arc(y, i)] as int] by {
        assert(net.open@[net.arc(y, i)]);
    }
    lemma_closure_holds_path(net, true, nowhere(n), set, path);
}

/// Once the sink is out of the source's reach, a spin that every minimum cut pins keeps that value
/// in the labelling walked towards consistency: the labelling extends what is pinned.
pub proof fn lemma_pinned_spins_keep_their_label(net: Residual, n: int)
    requires
        net.wf(),
        0 <= n,
        net.nodes() == 2 * n + 2,
        !net.reaches(2 * n, 2 * n + 1),
    ensures
        forall|i: int|
            0 <= i < n && (#[trigger] pin_of(net.source_side(n), net.sink_side(n), n, i)) is Some ==> label_of(
                net.walked(net.source_side(n), n, 2 * n + 1, n as nat),
                n,
                i,
            ) == pin_of(net.source_side(n), net.sink_side(n), n, i),
{
    let from = net.source_side(n);
    let to = net.sink_side(n);
    let snk = 2 * n + 1;
    lemma_reached_is_closed(net, 2 * n);
    assert(!from[snk]);
    lemma_walk_stays_a_cut(net, from, n, snk, n as nat);
    let w = net.walked(from, n, snk, n as nat);
    assert forall|i: int|
        0 <= i < n && (#[trigger] pin_of(from, to, n, i)) is Some implies label_of(w, n, i) == pin_of(from, to, n, i) by {
        if to[i] && from[n + i] {
            assert(w[n + i]);
            if w[i] {
                lemma_closed_holds_reach(net, w, i, snk);
            }
        } else {
            assert(from[i] && to[n + i]);
            assert(w[i]);
            if w[n + i] {
                lemma_closed_holds_reach(net, w, n + i, snk);
            }
        }
    }
}

/// Opening more arcs of the same network only adds reach.
proof fn lemma_more_open_more_reach(fewer: Residual, more: Residual, a: int, b: int)
    requires
        fewer.to@ == more.to@,
        fewer.adj@ == more.adj@,
        fewer.open@.len() == more.open@.len(),
        forall|e: int| 0 <= e < fewer.open@.len() && #[trigger] fewer.open@[e] ==> more.open@[e],
        fewer.wf(),
        0 <= a < fewer.nodes(),
        fewer.reaches(a, b),
    ensures
        more.reaches(a, b),
{
    let n = fewer.nodes();
    let path = choose|path: Seq<int>| #[trigger] fewer.is_path(true, nowhere(n), path) && path[0] == a && path.last() == b;
    assert forall|t: int| 0 <= t < path.len() - 1 implies #[trigger] more.linked(true, path, t) by {
        assert(fewer.linked(true, path, t));
        lemma_path_in_range(fewer, true, nowhere(n), path, t);
        let i = choose|i: int|
            0 <= i < fewer.adj@[path[t]]@.len() && fewer.to@[#[trigger] fewer.arc(path[t], i)] == path[t + 1]
                && fewer.usable(true, fewer.arc(path[t], i));
        assert(fewer.arc(path[t], i) == more.arc(path[t], i));
        assert(fewer.arc(path[t], i) < fewer.to@.len());
        assert(more.to@[more.arc(path[t], i)] == path[t + 1]);
        assert(fewer.open@[fewer.arc(path[t], i)]);
        assert(more.open@[more.arc(path[t], i)]);
        assert(more.step(true, path[t], path[t + 1]));
    }
    assert(more.nodes() == n);
    assert(more.is_path(true, nowhere(n), path));
}

/// Closing arcs of a network (the same arcs, fewer of them open) never pins a spin that the network
/// with more arcs open leaves free, nor pins one the other way, once that network's sink is out of
/// its source's reach: a looser saturation test can only unpin.
pub proof fn lemma_fewer_open_arcs_pin_fewer_spins(loose: Residual, tight: Residual, n: int)
    requires
        loose.wf(),
        tight.wf(),
        loose.to@ == tight.to@,
        loose.adj@ == tight.adj@,
        forall|e: int| 0 <= e < loose.open@.len() && #[trigger] loose.open@[e] ==> tight.open@[e],
        0 <= n,
        tight.nodes() == 2 * n + 2,
        !tight.reaches(2 * n, 2 * n + 1),
    ensures
        forall|i: int|
            0 <= i < n && (#[trigger] pin_of(loose.source_side(n), loose.sink_side(n), n, i)) is Some ==> pin_of(
                tight.source_side(n),
                tight.sink_side(n),
                n,
                i,
            ) == pin_of(loose.source_side(n), loose.sink_side(n), n, i),
{
    let (lf, lt) = (loose.source_side(n), loose.sink_side(n));
    let (tf, tt) = (tight.source_side(n), tight.sink_side(n));
    let (src, snk) = (2 * n, 2 * n + 1);
    assert forall|i: int| 0 <= i < n && (#[trigger] pin_of(lf, lt, n, i)) is Some implies pin_of(tf, tt, n, i) == pin_of(
        lf,
        lt,
        n,
        i,
    ) by {
        if lt[i] && lf[n + i] {
            lemma_more_open_more_reach(loose, tight, i, snk);
            lemma_more_open_more_reach(loose, tight, src, n + i);
        } else {
            lemma_more_open_more_reach(loose, tight, src, i);
            lemma_more_open_more_reach(loose, tight, n + i, snk);
            if tt[i] {
                // The source would reach the sink through spin i's up node.
                lemma_reach_join(tight, src, i, snk);
            }
        }
    }
}

/// Reach composes: `a` reaching `m` and `m` reaching `b` has `a` reaching `b`.
proof fn lemma_reach_join(net: Residual, a: int, m: int, b: int)
    requires
        net.wf(),
        net.reaches(a, m),
        net.reaches(m, b),
    ensures
        net.reaches(a, b),
{
    let n = net.nodes();
    let p = choose|p: Seq<int>| #[trigger] net.is_path(true, nowhere(n), p) && p[0] == a && p.last() == m;
    let q = choose|q: Seq<int>| #[trigger] net.is_path(true, nowhere(n), q) && q[0] == m && q.last() == b;
    let r = p + q.drop_first();
    assert forall|t: int| 0 <= t < r.len() - 1 implies #[trigger] net.linked(true, r, t) by {
        if t < p.len() - 1 {
            assert(net.linked(true, p, t));
        } else {
            let u = t - (p.len() - 1);
            assert(net.linked(true, q, u));
            assert(r[t] == q[u] && r[t + 1] == q[u + 1]);
        }
    }
    assert forall|t: int| 1 <= t < r.len() implies !nowhere(n)[#[trigger] r[t]] by {
        if t < p.len() {
            assert(!nowhere(n)[p[t]]);
        } else {
            assert(r[t] == q[t - p.len() + 1]);
            assert(!nowhere(n)[q[t - p.len() + 1]]);
        }
    }
    if q.len() == 1 {
        assert(r =~= p);
    } else {
        assert(r.last() == q.last());
    }
    assert(net.is_path(true, nowhere(n), r));
}

/// A walk outside a set is a walk.
proof fn lemma_outside_reach_is_reach(net: Residual, out: Seq<bool>, p: int, x: int)
    requires
        net.wf(),
        0 <= p < net.nodes(),
        net.reaches_outside(true, out, p, x),
    ensures
        net.reaches(p, x),
        0 <= x < net.nodes(),
{
    let n = net.nodes();
    let path = choose|path: Seq<int>| #[trigger] net.is_path(true, out, path) && path[0] == p && path.last() == x;
    assert forall|t: int| 1 <= t < path.len() implies !nowhere(n)[#[trigger] path[t]] by {
        lemma_path_in_range(net, true, out, path, t);
    }
    lemma_path_in_range(net, true, out, path, path.len() - 1);
    assert(net.is_path(true, nowhere(n), path));
}

/// What growing a set from `p` adds is reached from `p`; and where `p` reaches none of `forbid`
/// (but itself), growing succeeds, holds `p`, and adds nothing `p` does not reach.
proof fn lemma_grown_near(net: Residual, set: Seq<bool>, p: int, forbid: Seq<usize>)
    requires
        net.wf(),
        set.len() == net.nodes(),
        0 <= p < net.nodes(),
    ensures
        net.grown(true, set, p, forbid).1.len() == set.len(),
        forall|x: int|
            0 <= x < set.len() && set[x] ==> #[trigger] net.grown(true, set, p, forbid).1[x],
        forall|x: int|
            0 <= x < set.len() && #[trigger] net.grown(true, set, p, forbid).1[x] && !set[x] ==> net.reaches(p, x),
        (!set[p] && forall|x: int| 0 <= x < net.nodes() && x != p && forbid.contains(x as usize) ==> !net.reaches(p, x))
            ==> net.grown(true, set, p, forbid).0 && net.grown(true, set, p, forbid).1[p],
{
    let g = net.grown(true, set, p, forbid);
    if !set[p] && !(exists|x: int|
        #[trigger] net.reaches_outside(true, set, p, x) && x != p && forbid.contains(x as usize)) {
        assert(g.1 =~= Seq::new(set.len(), |x: int| set[x] || net.reaches_outside(true, set, p, x)));
        assert forall|x: int| 0 <= x < set.len() && #[trigger] g.1[x] && !set[x] implies net.reaches(p, x) by {
            lemma_outside_reach_is_reach(net, set, p, x);
        }
        lemma_reach_self(net, true, set, p);
    }
    if !set[p] && forall|x: int| 0 <= x < net.nodes() && x != p && forbid.contains(x as usize) ==> !net.reaches(p, x) {
        assert(!(exists|x: int|
            #[trigger] net.reaches_outside(true, set, p, x) && x != p && forbid.contains(x as usize))) by {
            if exists|x: int|
                #[trigger] net.reaches_outside(true, set, p, x) && x != p && forbid.contains(x as usize) {
                let x = choose|x: int|
                    #[trigger] net.reaches_outside(true, set, p, x) && x != p && forbid.contains(x as usize);
                lemma_outside_reach_is_reach(net, set, p, x);
            }
        }
        lemma_reach_self(net, true, set, p);
    }
}

/// Step `i` of the walk towards a consistent cut touches only spin `i`: it keeps every node it
/// had, and every node it adds is reached along open arcs from spin `i`'s up node `i` or down node
/// `n + i`.
pub proof fn lemma_walk_step_stays_with_its_spin(net: Residual, start: Seq<bool>, n: int, snk: int, i: int)
    requires
        net.wf(),
        start.len() == net.nodes(),
        0 <= i < n,
        2 * n <= snk < net.nodes(),
    ensures
        net.walked(start, n, snk, (i + 1) as nat).len() == start.len(),
        forall|x: int|
            0 <= x < start.len() && net.walked(start, n, snk, i as nat)[x] ==> #[trigger] net.walked(
                start,
                n,
                snk,
                (i + 1) as nat,
            )[x],
        forall|x: int|
            0 <= x < start.len() && #[trigger] net.walked(start, n, snk, (i + 1) as nat)[x] && !net.walked(
                start,
                n,
                snk,
                i as nat,
            )[x] ==> net.reaches(i, x) || net.reaches(n + i, x),
{
    lemma_walked_len(net, start, n, snk, i as nat);
    let set = net.walked(start, n, snk, i as nat);
    let (u, v) = (i, n + i);
    let f1 = seq![snk as usize, u as usize];
    let f2 = seq![snk as usize, v as usize];
    assert(net.walked(start, n, snk, (i + 1) as nat) == (if !set[u] && !set[v] {
        if net.grown(true, set, v, f1).0 {
            net.grown(true, set, v, f1).1
        } else {
            net.grown(true, set, u, f2).1
        }
    } else {
        set
    }));
    lemma_grown_near(net, set, v, f1);
    lemma_grown_near(net, set, u, f2);
}

/// The walk keeps one flag per node.
proof fn lemma_walked_len(net: Residual, start: Seq<bool>, n: int, snk: int, i: nat)
    requires
        net.wf(),
        start.len() == net.nodes(),
        i <= n,
        2 * n <= snk < net.nodes(),
    ensures
        net.walked(start, n, snk, i).len() == start.len(),
    decreases i,
{
    if i > 0 {
        lemma_walked_len(net, start, n, snk, (i - 1) as nat);
        let set = net.walked(start, n, snk, (i - 1) as nat);
        let (u, v) = (i - 1, n + i - 1);
        lemma_grown_near(net, set, v, seq![snk as usize, u as usize]);
        lemma_grown_near(net, set, u, seq![snk as usize, v as usize]);
    }
}

/// Step `i` of the walk labels spin `i` whenever it can: if neither of the spin's nodes is on the
/// source side yet, and one of them reaches neither the sink nor the other node, the step ends
/// with exactly one of them on the source side. It prefers the down node: when that one reaches
/// neither, the spin comes out `+1`.
pub proof fn lemma_walk_step_labels_its_spin(net: Residual, start: Seq<bool>, n: int, snk: int, i: int)
    requires
        net.wf(),
        start.len() == net.nodes(),
        0 <= i < n,
        2 * n <= snk < net.nodes(),
        !net.walked(start, n, snk, i as nat)[i],
        !net.walked(start, n, snk, i as nat)[n + i],
        (!net.reaches(n + i, snk) && !net.reaches(n + i, i)) || (!net.reaches(i, snk) && !net.reaches(i, n + i)),
    ensures
        label_of(net.walked(start, n, snk, (i + 1) as nat), n, i) is Some,
        !net.reaches(n + i, snk) && !net.reaches(n + i, i) ==> label_of(
            net.walked(start, n, snk, (i + 1) as nat),
            n,
            i,
        ) == Some(1i8),
{
    lemma_walked_len(net, start, n, snk, i as nat);
    let set = net.walked(start, n, snk, i as nat);
    let (u, v) = (i, n + i);
    let f1 = seq![snk as usize, u as usize];
    let f2 = seq![snk as usize, v as usize];
    let next = net.walked(start, n, snk, (i + 1) as nat);
    let g1 = net.grown(true, set, v, f1);
    let g2 = net.grown(true, set, u, f2);
    assert(next == (if g1.0 { g1.1 } else { g2.1 }));
    lemma_grown_near(net, set, v, f1);
    lemma_grown_near(net, set, u, f2);
    assert forall|x: int| 0 <= x < net.nodes() && x != v && #[trigger] f1.contains(x as usize) implies x == snk || x == u by {
        let q = choose|q: int| 0 <= q < f1.len() && f1[q] == x as usize;
    }
    assert forall|x: int| 0 <= x < net.nodes() && x != u && #[trigger] f2.contains(x as usize) implies x == snk || x == v by {
        let q = choose|q: int| 0 <= q < f2.len() && f2[q] == x as usize;
    }
    assert(f1[1] == u as usize && f2[1] == v as usize && f1[0] == snk as usize);
    if g1.0 {
        // Growing from the down node succeeded: it holds the down node, and the up node, being
        // forbidden, was not reached outside the set.
        assert(g1.1[v]) by {
            lemma_reach_self(net, true, set, v);
        }
        assert(!g1.1[u]) by {
            if net.reaches_outside(true, set, v, u) {
                assert(f1.contains(u as usize));
            }
        }
    } else {
        if !net.reaches(v, snk) && !net.reaches(v, u) {
            assert(f1.contains(u as usize));
        }
        assert(g2.1[u]);
        assert(!g2.1[v]) by {
            if net.reaches_outside(true, set, u, v) {
                assert(f2.contains(v as usize));
            }
        }
    }
}

/// Append `e` to row `u`, leaving the other rows as they were.
fn push_row(adj: &mut Vec<Vec<u32>>, u: usize, e: u32)
    requires
        u < old(adj)@.len(),
    ensures
        final(adj)@.len() == old(adj)@.len(),
        final(adj)@[u as int]@ == old(adj)@[u as int]@.push(e),
        forall|x: int| 0 <= x < old(adj)@.len() && x != u ==> final(adj)@[x] == old(adj)@[x],
{
    let mut row = adj[u].clone();
    assert(row@ =~= adj@[u as int]@);
    row.push(e);
    adj.set(u, row);
}

} // verus!
