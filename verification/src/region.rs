//! Region graphs for the cluster variation method: outer regions closed under intersection, the
//! inclusion lattice between them, and the Moebius counting numbers
//!
//! ```text
//!   c_R = 1 - sum_{R' strictly containing R} c_{R'}
//! ```
//!
//! that make every variable and every interaction counted exactly once.
//!
//! Regions are stored with their variables sorted ascending, and the regions themselves are
//! ordered by decreasing size, ties broken lexicographically: a proper superset is strictly
//! larger, so every ancestor of a region precedes it.

use vstd::prelude::*;
use vstd::string::StringExecFns;
use crate::text::{decimal_chars, push_decimal};
use crate::graph::{Graph, in_row};

verus! {

/// Largest region this module will build a table for: a belief is `2^|R|` entries.
pub const MAX_REGION: usize = 16;

// ---------------------------------------------------------------------------------------------
// Regions as sets.
// ---------------------------------------------------------------------------------------------

/// Whether a list of variables is strictly increasing, i.e. sorted without repeats.
pub open spec fn strictly_inc(s: Seq<usize>) -> bool {
    forall|i: int, j: int| 0 <= i < j < s.len() ==> s[i] < s[j]
}

/// Whether every variable of `small` is one of `big`'s.
pub open spec fn subset(small: Seq<usize>, big: Seq<usize>) -> bool {
    forall|x: usize| small.contains(x) ==> big.contains(x)
}

/// Whether two lists name the same variables.
pub open spec fn same_vars(a: Seq<usize>, b: Seq<usize>) -> bool {
    subset(a, b) && subset(b, a)
}

/// Two sorted lists naming the same variables are the same list.
pub proof fn lemma_sorted_unique(a: Seq<usize>, b: Seq<usize>)
    requires
        strictly_inc(a),
        strictly_inc(b),
        same_vars(a, b),
    ensures
        a == b,
    decreases a.len(),
{
    if a.len() == 0 {
        if b.len() > 0 {
            assert(b.contains(b[0]));
        }
    } else if b.len() == 0 {
        assert(a.contains(a[0]));
    } else {
        // The heads are both the minimum.
        assert(a.contains(a[0]));
        assert(b.contains(b[0]));
        let ia = choose|i: int| 0 <= i < a.len() && a[i] == b[0];
        let ib = choose|i: int| 0 <= i < b.len() && b[i] == a[0];
        assert(a[0] == b[0]) by {
            if a[0] < b[0] {
                assert(b[ib] == a[0]);
                assert(ib > 0 ==> b[0] < b[ib]);
            } else if a[0] > b[0] {
                assert(ia > 0 ==> a[0] < a[ia]);
            }
        }
        let ta = a.drop_first();
        let tb = b.drop_first();
        assert forall|x: usize| ta.contains(x) implies tb.contains(x) by {
            let i = choose|i: int| 0 <= i < ta.len() && ta[i] == x;
            assert(a[i + 1] == x);
            assert(a.contains(x));
            let j = choose|j: int| 0 <= j < b.len() && b[j] == x;
            assert(x != b[0]);
            assert(j != 0);
            assert(tb[j - 1] == x);
        }
        assert forall|x: usize| tb.contains(x) implies ta.contains(x) by {
            let i = choose|i: int| 0 <= i < tb.len() && tb[i] == x;
            assert(b[i + 1] == x);
            assert(b.contains(x));
            let j = choose|j: int| 0 <= j < a.len() && a[j] == x;
            assert(x != a[0]);
            assert(j != 0);
            assert(ta[j - 1] == x);
        }
        lemma_sorted_unique(ta, tb);
        assert(a == seq![a[0]] + ta);
        assert(b == seq![b[0]] + tb);
    }
}

/// Whether variable list `v` is the sorted, repeat-free form of `r`.
pub open spec fn is_normal_of(v: Seq<usize>, r: Seq<usize>) -> bool {
    strictly_inc(v) && same_vars(v, r)
}

/// The sorted, deduplicated variables of `r`.
fn normalize(r: &Vec<usize>) -> (v: Vec<usize>)
    ensures
        is_normal_of(v@, r@),
{
    let mut v: Vec<usize> = Vec::new();
    let mut t: usize = 0;
    while t < r.len()
        invariant
            t <= r@.len(),
            strictly_inc(v@),
            same_vars(v@, r@.subrange(0, t as int)),
        decreases r@.len() - t,
    {
        let x = r[t];
        // Position of the first entry not below x.
        let mut p: usize = 0;
        while p < v.len() && v[p] < x
            invariant
                p <= v@.len(),
                forall|q: int| 0 <= q < p ==> v@[q] < x,
            decreases v@.len() - p,
        {
            p += 1;
        }
        let ghost old_v = v@;
        if p < v.len() && v[p] == x {
            // already present
        } else {
            v.insert(p, x);
            assert forall|i: int, j: int| 0 <= i < j < v@.len() implies v@[i] < v@[j] by {
                if j < p {
                } else if j == p {
                } else if i < p {
                    assert(old_v[i] < x);
                    if p < old_v.len() {
                        assert(x < old_v[p as int]);
                    }
                } else if i == p {
                    assert(v@[j] == old_v[j - 1]);
                    if p < old_v.len() {
                        assert(x < old_v[p as int]);
                        assert(p == j - 1 || old_v[p as int] < old_v[j - 1]);
                    }
                } else {
                    assert(v@[i] == old_v[i - 1] && v@[j] == old_v[j - 1]);
                }
            }
        }
        let ghost pre = r@.subrange(0, t as int);
        let ghost post = r@.subrange(0, t + 1);
        assert(post == pre.push(x));
        assert forall|y: usize| v@.contains(y) implies post.contains(y) by {
            if y == x {
                assert(post[t as int] == x);
            } else {
                let i = choose|i: int| 0 <= i < v@.len() && v@[i] == y;
                if v@.len() == old_v.len() {
                    assert(old_v.contains(y));
                } else if i < p {
                    assert(old_v[i] == y);
                    assert(old_v.contains(y));
                } else {
                    assert(i != p);
                    assert(old_v[i - 1] == y);
                    assert(old_v.contains(y));
                }
                assert(pre.contains(y));
                let k = choose|k: int| 0 <= k < pre.len() && pre[k] == y;
                assert(post[k] == y);
            }
        }
        assert forall|y: usize| post.contains(y) implies v@.contains(y) by {
            let k = choose|k: int| 0 <= k < post.len() && post[k] == y;
            if k == t {
                if v@.len() == old_v.len() {
                    assert(v@[p as int] == x);
                } else {
                    assert(v@[p as int] == x);
                }
            } else {
                assert(pre[k] == y);
                assert(pre.contains(y));
                assert(old_v.contains(y));
                let i = choose|i: int| 0 <= i < old_v.len() && old_v[i] == y;
                if v@.len() == old_v.len() {
                    assert(v@[i] == y);
                } else if i < p {
                    assert(v@[i] == y);
                } else {
                    assert(v@[i + 1] == y);
                }
            }
        }
        t += 1;
    }
    assert(r@.subrange(0, r@.len() as int) == r@);
    v
}

/// Whether every variable of `small` is in `big`.
pub(crate) fn contains(big: &Vec<usize>, small: &Vec<usize>) -> (r: bool)
    ensures
        r == subset(small@, big@),
{
    let mut t: usize = 0;
    while t < small.len()
        invariant
            t <= small@.len(),
            forall|q: int| 0 <= q < t ==> big@.contains(#[trigger] small@[q]),
        decreases small@.len() - t,
    {
        let x = small[t];
        let mut q: usize = 0;
        let mut found = false;
        while q < big.len()
            invariant
                q <= big@.len(),
                found ==> big@.contains(x),
                !found ==> forall|p: int| 0 <= p < q ==> big@[p] != x,
            decreases big@.len() - q,
        {
            if big[q] == x {
                found = true;
                assert(big@[q as int] == x);
            }
            q += 1;
        }
        if !found {
            assert(small@.contains(x) && !big@.contains(x));
            return false;
        }
        t += 1;
    }
    assert forall|x: usize| small@.contains(x) implies big@.contains(x) by {
        let q = choose|q: int| 0 <= q < small@.len() && small@[q] == x;
    }
    true
}

/// Whether `x` is among `s`.
fn has_var(s: &Vec<usize>, x: usize) -> (r: bool)
    ensures
        r == s@.contains(x),
{
    let mut q: usize = 0;
    while q < s.len()
        invariant
            q <= s@.len(),
            forall|p: int| 0 <= p < q ==> s@[p] != x,
        decreases s@.len() - q,
    {
        if s[q] == x {
            assert(s@[q as int] == x);
            return true;
        }
        q += 1;
    }
    false
}

/// The variables of `a` that are also in `b`, in `a`'s order.
fn intersect(a: &Vec<usize>, b: &Vec<usize>) -> (r: Vec<usize>)
    ensures
        forall|x: usize| r@.contains(x) <==> (a@.contains(x) && b@.contains(x)),
        strictly_inc(a@) ==> strictly_inc(r@),
        r@.len() <= a@.len(),
{
    let mut r: Vec<usize> = Vec::new();
    let mut t: usize = 0;
    while t < a.len()
        invariant
            t <= a@.len(),
            r@.len() <= t,
            forall|x: usize|
                r@.contains(x) <==> (a@.subrange(0, t as int).contains(x) && b@.contains(x)),
            strictly_inc(a@) ==> strictly_inc(r@),
            strictly_inc(a@) ==> forall|q: int| #![trigger r@[q]] 0 <= q < r@.len() ==> exists|p: int|
                0 <= p < t && #[trigger] a@[p] == r@[q],
        decreases a@.len() - t,
    {
        let x = a[t];
        let ghost old_r = r@;
        let ghost pre = a@.subrange(0, t as int);
        let ghost post = a@.subrange(0, t + 1);
        assert(post == pre.push(x));
        if has_var(b, x) {
            r.push(x);
            proof {
            if strictly_inc(a@) {
                assert forall|i: int, j: int| 0 <= i < j < r@.len() implies r@[i] < r@[j] by {
                    if j == r@.len() - 1 {
                        let p = choose|p: int| 0 <= p < t && #[trigger] a@[p] == old_r[i];
                        assert(a@[p] < a@[t as int]);
                    }
                }
                assert forall|q: int| #![trigger r@[q]] 0 <= q < r@.len() implies exists|p: int|
                    0 <= p < t + 1 && #[trigger] a@[p] == r@[q] by {
                    if q == r@.len() - 1 {
                        assert(a@[t as int] == r@[q]);
                    } else {
                        let p = choose|p: int| 0 <= p < t && #[trigger] a@[p] == old_r[q];
                        assert(a@[p] == r@[q]);
                    }
                }
            }
            }
        }
        assert forall|y: usize|
            r@.contains(y) <==> (post.contains(y) && b@.contains(y)) by {
            if r@.contains(y) {
                let i = choose|i: int| 0 <= i < r@.len() && r@[i] == y;
                if i < old_r.len() {
                    assert(old_r[i] == y);
                    assert(old_r.contains(y));
                    let k = choose|k: int| 0 <= k < pre.len() && pre[k] == y;
                    assert(post[k] == y);
                } else {
                    assert(post[t as int] == y);
                }
            }
            if post.contains(y) && b@.contains(y) {
                let k = choose|k: int| 0 <= k < post.len() && post[k] == y;
                if k < t {
                    assert(pre[k] == y);
                    assert(pre.contains(y));
                    assert(old_r.contains(y));
                    let i = choose|i: int| 0 <= i < old_r.len() && old_r[i] == y;
                    assert(r@[i] == y);
                } else {
                    assert(r@[r@.len() - 1] == y);
                }
            }
        }
        t += 1;
    }
    assert(a@.subrange(0, a@.len() as int) == a@);
    r
}

// ---------------------------------------------------------------------------------------------
// The region order: larger first, ties lexicographic.
// ---------------------------------------------------------------------------------------------

/// Lexicographic order on variable lists, a proper prefix first.
pub open spec fn lex_lt(a: Seq<usize>, b: Seq<usize>) -> bool
    decreases a.len(),
{
    if a.len() == 0 {
        b.len() > 0
    } else if b.len() == 0 {
        false
    } else if a[0] < b[0] {
        true
    } else if a[0] > b[0] {
        false
    } else {
        lex_lt(a.drop_first(), b.drop_first())
    }
}

/// The order regions are stored in: more variables first, then lexicographically.
pub open spec fn region_before(a: Seq<usize>, b: Seq<usize>) -> bool {
    a.len() > b.len() || (a.len() == b.len() && lex_lt(a, b))
}

proof fn lemma_lex_irreflexive(a: Seq<usize>)
    ensures
        !lex_lt(a, a),
    decreases a.len(),
{
    if a.len() > 0 {
        lemma_lex_irreflexive(a.drop_first());
    }
}

proof fn lemma_lex_transitive(a: Seq<usize>, b: Seq<usize>, c: Seq<usize>)
    requires
        lex_lt(a, b),
        lex_lt(b, c),
    ensures
        lex_lt(a, c),
    decreases a.len(),
{
    if a.len() > 0 && b.len() > 0 && c.len() > 0 && a[0] == b[0] && b[0] == c[0] {
        lemma_lex_transitive(a.drop_first(), b.drop_first(), c.drop_first());
    }
}

proof fn lemma_lex_total(a: Seq<usize>, b: Seq<usize>)
    requires
        a != b,
    ensures
        lex_lt(a, b) || lex_lt(b, a),
    decreases a.len(),
{
    if a.len() == 0 && b.len() == 0 {
        assert(a =~= b);
    }
    if a.len() > 0 && b.len() > 0 && a[0] == b[0] {
        if a.drop_first() == b.drop_first() {
            assert(a =~= seq![a[0]] + a.drop_first());
            assert(b =~= seq![b[0]] + b.drop_first());
        } else {
            lemma_lex_total(a.drop_first(), b.drop_first());
        }
    }
}

proof fn lemma_lex_asymmetric(a: Seq<usize>, b: Seq<usize>)
    requires
        lex_lt(a, b),
    ensures
        !lex_lt(b, a),
    decreases a.len(),
{
    if a.len() > 0 && b.len() > 0 && a[0] == b[0] {
        lemma_lex_asymmetric(a.drop_first(), b.drop_first());
    }
}

/// The region order is a strict total order.
pub proof fn lemma_region_order(a: Seq<usize>, b: Seq<usize>, c: Seq<usize>)
    ensures
        !region_before(a, a),
        region_before(a, b) ==> !region_before(b, a),
        region_before(a, b) && region_before(b, c) ==> region_before(a, c),
        a != b ==> region_before(a, b) || region_before(b, a),
{
    lemma_lex_irreflexive(a);
    if region_before(a, b) && region_before(b, c) && a.len() == b.len() && b.len() == c.len() {
        lemma_lex_transitive(a, b, c);
    }
    if a != b && a.len() == b.len() {
        lemma_lex_total(a, b);
    }
    if region_before(a, b) && a.len() == b.len() {
        lemma_lex_asymmetric(a, b);
    }
}

/// Whether region `a` sorts before region `b`.
fn region_before_exec(a: &Vec<usize>, b: &Vec<usize>) -> (r: bool)
    ensures
        r == region_before(a@, b@),
{
    if a.len() != b.len() {
        return a.len() > b.len();
    }
    let mut i: usize = 0;
    assert(a@.skip(0) =~= a@ && b@.skip(0) =~= b@);
    while i < a.len()
        invariant
            a@.len() == b@.len(),
            i <= a@.len(),
            lex_lt(a@, b@) == lex_lt(a@.skip(i as int), b@.skip(i as int)),
        decreases a@.len() - i,
    {
        assert(a@.skip(i as int).drop_first() == a@.skip(i + 1));
        assert(b@.skip(i as int).drop_first() == b@.skip(i + 1));
        if a[i] != b[i] {
            return a[i] < b[i];
        }
        i += 1;
    }
    false
}

/// The variable lists of a vector of regions.
pub open spec fn views(v: Seq<Vec<usize>>) -> Seq<Seq<usize>> {
    Seq::new(v.len(), |i: int| v[i]@)
}

/// A copy of a variable list.
fn copy_vars(v: &Vec<usize>) -> (r: Vec<usize>)
    ensures
        r@ == v@,
{
    let mut r: Vec<usize> = Vec::new();
    let mut i: usize = 0;
    while i < v.len()
        invariant
            i <= v@.len(),
            r@ == v@.subrange(0, i as int),
        decreases v@.len() - i,
    {
        r.push(v[i]);
        i += 1;
    }
    assert(v@.subrange(0, v@.len() as int) == v@);
    r
}

/// Whether a list of regions is strictly sorted by the region order.
pub open spec fn sorted_regions(s: Seq<Seq<usize>>) -> bool {
    forall|i: int, j: int| 0 <= i < j < s.len() ==> region_before(s[i], s[j])
}

/// Sort distinct regions by the region order.
fn sort_regions(v: Vec<Vec<usize>>) -> (r: Vec<Vec<usize>>)
    requires
        views(v@).no_duplicates(),
    ensures
        sorted_regions(views(r@)),
        forall|s: Seq<usize>| views(r@).contains(s) <==> views(v@).contains(s),
        r@.len() == v@.len(),
{
    let ghost orig = views(v@);
    let mut v = v;
    let mut r: Vec<Vec<usize>> = Vec::new();
    while v.len() > 0
        invariant
            orig.no_duplicates(),
            views(v@).no_duplicates(),
            sorted_regions(views(r@)),
            forall|s: Seq<usize>|
                orig.contains(s) <==> (views(r@).contains(s) || views(v@).contains(s)),
            forall|s: Seq<usize>| !(views(r@).contains(s) && views(v@).contains(s)),
            r@.len() + v@.len() == orig.len(),
        decreases v@.len(),
    {
        let ghost old_v = views(v@);
        let ghost old_r = views(r@);
        let x = v.pop().unwrap();
        assert(views(v@) =~= old_v.drop_last());
        assert(old_v.last() == x@);
        let mut p: usize = 0;
        while p < r.len() && !region_before_exec(&x, &r[p])
            invariant
                views(r@) == old_r,
                p <= r@.len(),
                forall|q: int| 0 <= q < p ==> region_before(old_r[q], x@),
                !old_r.contains(x@),
            decreases r@.len() - p,
        {
            proof {
                assert(old_r[p as int] == r@[p as int]@);
                if old_r[p as int] == x@ {
                    assert(old_r.contains(x@));
                }
                lemma_region_order(x@, old_r[p as int], x@);
            }
            p += 1;
        }
        proof {
            if p < r@.len() {
                assert(old_r[p as int] == r@[p as int]@);
            }
        }
        r.insert(p, x);
        let ghost new_r = views(r@);
        assert(new_r =~= old_r.insert(p as int, x@));
        assert forall|i: int, j: int| 0 <= i < j < new_r.len() implies region_before(
            new_r[i],
            new_r[j],
        ) by {
            if j < p {
            } else if j == p {
            } else if i < p {
                if p < old_r.len() {
                    lemma_region_order(old_r[i], x@, old_r[p as int]);
                }
                assert(new_r[j] == old_r[j - 1]);
                if j - 1 > p {
                    lemma_region_order(old_r[i], old_r[p as int], old_r[j - 1]);
                    lemma_region_order(x@, old_r[p as int], old_r[j - 1]);
                }
                lemma_region_order(old_r[i], x@, old_r[j - 1]);
            } else if i == p {
                assert(new_r[j] == old_r[j - 1]);
                if j - 1 > p {
                    lemma_region_order(x@, old_r[p as int], old_r[j - 1]);
                }
            } else {
                assert(new_r[i] == old_r[i - 1] && new_r[j] == old_r[j - 1]);
            }
        }
        assert forall|s: Seq<usize>| orig.contains(s) <==> (new_r.contains(s)
            || views(v@).contains(s)) by {
            if new_r.contains(s) {
                let i = choose|i: int| 0 <= i < new_r.len() && new_r[i] == s;
                if i < p {
                    assert(old_r[i] == s);
                } else if i > p {
                    assert(old_r[i - 1] == s);
                }
            }
            if old_r.contains(s) {
                let i = choose|i: int| 0 <= i < old_r.len() && old_r[i] == s;
                if i < p {
                    assert(new_r[i] == s);
                } else {
                    assert(new_r[i + 1] == s);
                }
            }
            if old_v.contains(s) {
                let i = choose|i: int| 0 <= i < old_v.len() && old_v[i] == s;
                if i < old_v.len() - 1 {
                    assert(views(v@)[i] == s);
                } else {
                    assert(new_r[p as int] == s);
                }
            }
            if views(v@).contains(s) {
                let i = choose|i: int| 0 <= i < views(v@).len() && views(v@)[i] == s;
                assert(old_v[i] == s);
            }
        }
        assert forall|s: Seq<usize>| !(new_r.contains(s) && views(v@).contains(s)) by {
            if new_r.contains(s) && views(v@).contains(s) {
                let i = choose|i: int| 0 <= i < new_r.len() && new_r[i] == s;
                let k = choose|k: int| 0 <= k < views(v@).len() && views(v@)[k] == s;
                assert(old_v[k] == s);
                if i == p {
                    assert(old_v[old_v.len() - 1] == s);
                } else if i < p {
                    assert(old_r[i] == s);
                    assert(old_r.contains(s));
                    assert(old_v.contains(s));
                } else {
                    assert(old_r[i - 1] == s);
                    assert(old_r.contains(s));
                    assert(old_v.contains(s));
                }
            }
        }
    }
    r
}

// ---------------------------------------------------------------------------------------------
// Closure under intersection.
// ---------------------------------------------------------------------------------------------

/// Whether `r` is a region of the family the generators `gens` close to under nonempty
/// intersection: `r` is nonempty, lies inside some generator, and is exactly the intersection of
/// the generators that contain it.
pub open spec fn in_closure(gens: Seq<Seq<usize>>, r: Seq<usize>) -> bool {
    &&& r.len() > 0
    &&& exists|i: int| 0 <= i < gens.len() && #[trigger] subset(r, gens[i])
    &&& forall|x: usize|
        (forall|i: int| 0 <= i < gens.len() && #[trigger] subset(r, gens[i]) ==> gens[i].contains(x))
            ==> r.contains(x)
}

/// The entries of `s` satisfying `p`, in order.
pub open spec fn keep(s: Seq<usize>, p: spec_fn(usize) -> bool) -> Seq<usize>
    decreases s.len(),
{
    if s.len() == 0 {
        s
    } else {
        let k = keep(s.drop_last(), p);
        if p(s.last()) {
            k.push(s.last())
        } else {
            k
        }
    }
}

proof fn lemma_keep_contains(s: Seq<usize>, p: spec_fn(usize) -> bool, x: usize)
    ensures
        keep(s, p).contains(x) <==> (s.contains(x) && p(x)),
    decreases s.len(),
{
    if s.len() > 0 {
        let d = s.drop_last();
        lemma_keep_contains(d, p, x);
        let k = keep(d, p);
        if keep(s, p).contains(x) {
            let i = choose|i: int| 0 <= i < keep(s, p).len() && keep(s, p)[i] == x;
            if i < k.len() {
                assert(k[i] == x);
                assert(k.contains(x));
                let j = choose|j: int| 0 <= j < d.len() && d[j] == x;
                assert(s[j] == x);
            } else {
                assert(s[s.len() - 1] == x);
            }
        }
        if s.contains(x) && p(x) {
            let j = choose|j: int| 0 <= j < s.len() && s[j] == x;
            if j < s.len() - 1 {
                assert(d[j] == x);
                assert(d.contains(x));
                let i = choose|i: int| 0 <= i < k.len() && k[i] == x;
                assert(keep(s, p)[i] == x);
            } else {
                assert(keep(s, p)[keep(s, p).len() - 1] == x);
            }
        }
    }
}

/// Adding a generator keeps every region of the family.
proof fn lemma_closure_keep(gens: Seq<Seq<usize>>, a: Seq<usize>, f: Seq<usize>)
    requires
        in_closure(gens, f),
    ensures
        in_closure(gens.push(a), f),
{
    let g2 = gens.push(a);
    let i0 = choose|i: int| 0 <= i < gens.len() && #[trigger] subset(f, gens[i]);
    assert(g2[i0] == gens[i0]);
    assert(subset(f, g2[i0]));
    assert forall|x: usize|
        (forall|i: int| 0 <= i < g2.len() && #[trigger] subset(f, g2[i]) ==> g2[i].contains(x))
            implies f.contains(x) by {
        assert forall|i: int| 0 <= i < gens.len() && #[trigger] subset(f, gens[i]) implies gens[
            i].contains(x) by {
            assert(g2[i] == gens[i]);
        }
    }
}

/// A new generator is a region of the family it extends.
proof fn lemma_closure_gen(gens: Seq<Seq<usize>>, a: Seq<usize>)
    requires
        a.len() > 0,
    ensures
        in_closure(gens.push(a), a),
{
    let g2 = gens.push(a);
    let t = gens.len() as int;
    assert(g2[t] == a);
    assert(subset(a, g2[t]));
}

/// The meet of a new generator with a region of the family is a region of the extended family.
proof fn lemma_closure_meet(gens: Seq<Seq<usize>>, a: Seq<usize>, f: Seq<usize>, r: Seq<usize>)
    requires
        in_closure(gens, f),
        r.len() > 0,
        forall|x: usize| r.contains(x) <==> (a.contains(x) && f.contains(x)),
    ensures
        in_closure(gens.push(a), r),
{
    let g2 = gens.push(a);
    let t = gens.len() as int;
    assert(g2[t] == a);
    assert(subset(r, g2[t]));
    assert forall|x: usize|
        (forall|i: int| 0 <= i < g2.len() && #[trigger] subset(r, g2[i]) ==> g2[i].contains(x))
            implies r.contains(x) by {
        assert(a.contains(x));
        assert forall|i: int| 0 <= i < gens.len() && #[trigger] subset(f, gens[i]) implies gens[
            i].contains(x) by {
            assert(g2[i] == gens[i]);
            assert(subset(r, g2[i]));
        }
        assert(f.contains(x));
    }
}

/// A region of the extended family that is not the new generator and lies in it is the meet of
/// the new generator with a region of the old family, which is returned.
proof fn lemma_closure_split(gens: Seq<Seq<usize>>, a: Seq<usize>, r: Seq<usize>) -> (r0: Seq<usize>)
    requires
        in_closure(gens.push(a), r),
        subset(r, a),
        exists|i: int| 0 <= i < gens.len() && #[trigger] subset(r, gens[i]),
    ensures
        in_closure(gens, r0),
        forall|x: usize| r.contains(x) <==> (a.contains(x) && r0.contains(x)),
{
    let g2 = gens.push(a);
    let t = gens.len() as int;
    let i0 = choose|i: int| 0 <= i < gens.len() && #[trigger] subset(r, gens[i]);
    let pred = |x: usize|
        forall|i: int| 0 <= i < gens.len() && #[trigger] subset(r, gens[i]) ==> gens[i].contains(x);
    let r0 = keep(gens[i0], pred);
    assert forall|x: usize| r0.contains(x) <==> (gens[i0].contains(x) && pred(x)) by {
        lemma_keep_contains(gens[i0], pred, x);
    }
    // r lies inside r0.
    assert forall|x: usize| r.contains(x) implies r0.contains(x) by {
        assert(gens[i0].contains(x));
        assert forall|i: int| 0 <= i < gens.len() && #[trigger] subset(r, gens[i]) implies gens[
            i].contains(x) by {}
    }
    assert(r.contains(r[0]));
    assert(r0.contains(r[0]));
    assert(r0.len() > 0);
    assert(subset(r0, gens[i0]));
    assert forall|x: usize|
        (forall|i: int| 0 <= i < gens.len() && #[trigger] subset(r0, gens[i]) ==> gens[i].contains(
            x,
        )) implies r0.contains(x) by {
        assert forall|i: int| 0 <= i < gens.len() && #[trigger] subset(r, gens[i]) implies gens[
            i].contains(x) by {
            assert forall|y: usize| r0.contains(y) implies gens[i].contains(y) by {
                assert(pred(y));
            }
            assert(subset(r0, gens[i]));
        }
        assert(gens[i0].contains(x));
    }
    assert forall|x: usize| r.contains(x) <==> (a.contains(x) && r0.contains(x)) by {
        if a.contains(x) && r0.contains(x) {
            assert(pred(x));
            assert forall|i: int| 0 <= i < g2.len() && #[trigger] subset(r, g2[i]) implies g2[
                i].contains(x) by {
                if i < t {
                    assert(g2[i] == gens[i]);
                } else {
                    assert(g2[i] == a);
                }
            }
        }
    }
    r0
}

/// A region of the extended family that lies in no old generator is the new generator.
proof fn lemma_closure_only_new(gens: Seq<Seq<usize>>, a: Seq<usize>, r: Seq<usize>)
    requires
        in_closure(gens.push(a), r),
        !(exists|i: int| 0 <= i < gens.len() && #[trigger] subset(r, gens[i])),
    ensures
        same_vars(r, a),
{
    let g2 = gens.push(a);
    let t = gens.len() as int;
    let i1 = choose|i: int| 0 <= i < g2.len() && #[trigger] subset(r, g2[i]);
    if i1 < t {
        assert(g2[i1] == gens[i1]);
        assert(subset(r, gens[i1]));
    }
    assert(g2[t] == a);
    assert forall|x: usize| a.contains(x) implies r.contains(x) by {
        assert forall|i: int| 0 <= i < g2.len() && #[trigger] subset(r, g2[i]) implies g2[
            i].contains(x) by {
            if i < t {
                assert(g2[i] == gens[i]);
                assert(subset(r, gens[i]));
            }
        }
    }
}

/// A region of the extended family that does not lie in the new generator was already a region.
proof fn lemma_closure_old(gens: Seq<Seq<usize>>, a: Seq<usize>, r: Seq<usize>)
    requires
        in_closure(gens.push(a), r),
        !subset(r, a),
    ensures
        in_closure(gens, r),
{
    let g2 = gens.push(a);
    let t = gens.len() as int;
    assert(g2[t] == a);
    let i1 = choose|i: int| 0 <= i < g2.len() && #[trigger] subset(r, g2[i]);
    assert(i1 != t);
    assert(g2[i1] == gens[i1]);
    assert(subset(r, gens[i1]));
    assert forall|x: usize|
        (forall|i: int| 0 <= i < gens.len() && #[trigger] subset(r, gens[i]) ==> gens[i].contains(x))
            implies r.contains(x) by {
        assert forall|i: int| 0 <= i < g2.len() && #[trigger] subset(r, g2[i]) implies g2[
            i].contains(x) by {
            if i < t {
                assert(g2[i] == gens[i]);
            }
        }
    }
}

/// Bit positions, within `outer`'s variable list, of each of `inner`'s variables: for each variable
/// of `inner`, the first index of `outer` holding it. Every variable of `inner` must be in `outer`.
pub fn positions(outer: &[usize], inner: &[usize]) -> (pos: Vec<usize>)
    requires
        forall|b: int| 0 <= b < inner@.len() ==> outer@.contains(#[trigger] inner@[b]),
    ensures
        pos@.len() == inner@.len(),
        forall|b: int|
            0 <= b < inner@.len() ==> #[trigger] pos@[b] < outer@.len() && outer@[pos@[b] as int]
                == inner@[b] && forall|q: int| 0 <= q < pos@[b] ==> outer@[q] != inner@[b],
{
    let mut pos: Vec<usize> = Vec::new();
    let mut b: usize = 0;
    while b < inner.len()
        invariant
            forall|b: int| 0 <= b < inner@.len() ==> outer@.contains(#[trigger] inner@[b]),
            b <= inner@.len(),
            pos@.len() == b,
            forall|c: int|
                0 <= c < b ==> #[trigger] pos@[c] < outer@.len() && outer@[pos@[c] as int] == inner@[c]
                    && forall|q: int| 0 <= q < pos@[c] ==> outer@[q] != inner@[c],
        decreases inner@.len() - b,
    {
        let x = inner[b];
        assert(outer@.contains(inner@[b as int]));
        let ghost w = choose|w: int| 0 <= w < outer@.len() && outer@[w] == x;
        let mut q: usize = 0;
        while outer[q] != x
            invariant
                0 <= w < outer@.len(),
                outer@[w] == x,
                q <= w,
                forall|r: int| 0 <= r < q ==> outer@[r] != x,
            decreases w - q,
        {
            q += 1;
        }
        pos.push(q);
        b += 1;
    }
    pos
}

/// Re-index a configuration of an outer region as one of an inner region: bit `b` of the result is
/// bit `pos[b]` of `cfg`, and there are no other bits.
pub fn project(cfg: usize, pos: &[usize]) -> (t: usize)
    requires
        pos@.len() < usize::BITS,
        forall|b: int| 0 <= b < pos@.len() ==> #[trigger] pos@[b] < usize::BITS,
    ensures
        forall|b: int|
            0 <= b < pos@.len() ==> (t >> (b as usize)) & 1 == (cfg >> #[trigger] pos@[b]) & 1,
        t >> (pos@.len() as usize) == 0,
{
    let mut t: usize = 0;
    let mut b: usize = 0;
    assert(0usize >> 0usize == 0usize) by (bit_vector);
    while b < pos.len()
        invariant
            pos@.len() < usize::BITS,
            forall|b: int| 0 <= b < pos@.len() ==> #[trigger] pos@[b] < usize::BITS,
            b <= pos@.len(),
            forall|c: int| 0 <= c < b ==> (t >> (c as usize)) & 1 == (cfg >> #[trigger] pos@[c]) & 1,
            t >> b == 0,
        decreases pos@.len() - b,
    {
        let p = pos[b];
        let bit = (cfg >> p) & 1;
        let t2 = t | (bit << b);
        proof {
            assert(bit <= 1) by (bit_vector)
                requires
                    bit == (cfg >> p) & 1,
            ;
            assert((t2 >> b) & 1 == bit && t2 >> ((b + 1) as usize) == 0) by (bit_vector)
                requires
                    t2 == t | (bit << b),
                    t >> b == 0,
                    bit <= 1,
                    b < usize::BITS,
            ;
            assert forall|c: int| 0 <= c < b implies (t2 >> (c as usize)) & 1 == (cfg >> #[trigger] pos@[c]) & 1 by {
                let cu = c as usize;
                assert((t2 >> cu) & 1 == (t >> cu) & 1) by (bit_vector)
                    requires
                        t2 == t | (bit << b),
                        bit <= 1,
                        cu < b,
                        b < usize::BITS,
                ;
            }
        }
        t = t2;
        b += 1;
    }
    t
}

/// Whether `r` names exactly the variables that `a` and `f` share.
pub open spec fn is_meet(r: Seq<usize>, a: Seq<usize>, f: Seq<usize>) -> bool {
    forall|x: usize| r.contains(x) <==> (a.contains(x) && f.contains(x))
}

/// Whether two variable lists are equal.
fn vars_eq(a: &Vec<usize>, b: &Vec<usize>) -> (r: bool)
    ensures
        r == (a@ == b@),
{
    if a.len() != b.len() {
        return false;
    }
    let mut i: usize = 0;
    while i < a.len()
        invariant
            a@.len() == b@.len(),
            i <= a@.len(),
            forall|q: int| 0 <= q < i ==> a@[q] == b@[q],
        decreases a@.len() - i,
    {
        if a[i] != b[i] {
            return false;
        }
        i += 1;
    }
    assert(a@ =~= b@);
    true
}

/// Whether `fam` already holds the list `x`.
pub(crate) fn holds(fam: &Vec<Vec<usize>>, x: &Vec<usize>) -> (r: bool)
    ensures
        r == views(fam@).contains(x@),
{
    let mut q: usize = 0;
    while q < fam.len()
        invariant
            q <= fam@.len(),
            forall|p: int| 0 <= p < q ==> views(fam@)[p] != x@,
        decreases fam@.len() - q,
    {
        if vars_eq(&fam[q], x) {
            assert(views(fam@)[q as int] == x@);
            return true;
        }
        q += 1;
    }
    false
}

/// Whether a family of regions is a set of nonempty sorted variable lists, each a region of the
/// closure of `gens`.
pub open spec fn family_ok(gens: Seq<Seq<usize>>, fam: Seq<Seq<usize>>) -> bool {
    &&& fam.no_duplicates()
    &&& forall|q: int| 0 <= q < fam.len() ==> strictly_inc(#[trigger] fam[q])
    &&& forall|q: int| 0 <= q < fam.len() ==> in_closure(gens, #[trigger] fam[q])
}

/// After a round adding generator `a`: every region of the extended closure is named by some
/// member of the new family, given that the old family named every old region, the new family
/// extends the old one, holds `a`, and holds the meet of `a` with every old member it meets.
proof fn lemma_round_complete(
    gt: Seq<Seq<usize>>,
    a: Seq<usize>,
    old_fam: Seq<Seq<usize>>,
    nf: Seq<Seq<usize>>,
)
    requires
        forall|r: Seq<usize>|
            in_closure(gt, r) ==> exists|p: int|
                0 <= p < old_fam.len() && same_vars(#[trigger] old_fam[p], r),
        old_fam.len() <= nf.len(),
        nf.subrange(0, old_fam.len() as int) == old_fam,
        nf.contains(a),
        forall|q2: int|
            #![trigger old_fam[q2]]
            0 <= q2 < old_fam.len() && (exists|x: usize| a.contains(x) && old_fam[q2].contains(x))
                ==> exists|p: int| 0 <= p < nf.len() && is_meet(#[trigger] nf[p], a, old_fam[q2]),
    ensures
        forall|r: Seq<usize>|
            in_closure(gt.push(a), r) ==> exists|p: int|
                0 <= p < nf.len() && same_vars(#[trigger] nf[p], r),
{
    assert forall|r: Seq<usize>| in_closure(gt.push(a), r) implies exists|p: int|
        0 <= p < nf.len() && same_vars(#[trigger] nf[p], r) by {
        if !subset(r, a) {
            lemma_closure_old(gt, a, r);
            let p = choose|p: int| 0 <= p < old_fam.len() && same_vars(#[trigger] old_fam[p], r);
            assert(nf[p] == nf.subrange(0, old_fam.len() as int)[p]);
            assert(nf[p] == old_fam[p]);
        } else if !(exists|i: int| 0 <= i < gt.len() && #[trigger] subset(r, gt[i])) {
            lemma_closure_only_new(gt, a, r);
            let p = choose|p: int| 0 <= p < nf.len() && nf[p] == a;
            assert(same_vars(nf[p], r));
        } else {
            let r0 = lemma_closure_split(gt, a, r);
            let p0 = choose|p: int| 0 <= p < old_fam.len() && same_vars(#[trigger] old_fam[p], r0);
            assert(r.contains(r[0]));
            assert(old_fam[p0].contains(r[0]));
            assert(exists|x: usize| a.contains(x) && old_fam[p0].contains(x));
            let p = choose|p: int| 0 <= p < nf.len() && is_meet(#[trigger] nf[p], a, old_fam[p0]);
            assert(same_vars(nf[p], r));
        }
    }
}

/// One round of the incremental closure: add generator `ga`, then its meet with every region
/// already held. A family closed under intersection stays closed: meets of meets are meets.
fn closure_round(fam: &mut Vec<Vec<usize>>, ga: &Vec<usize>, Ghost(gt): Ghost<Seq<Seq<usize>>>)
    requires
        strictly_inc(ga@),
        ga@.len() > 0,
        family_ok(gt, views(old(fam)@)),
        forall|r: Seq<usize>|
            in_closure(gt, r) ==> exists|p: int|
                0 <= p < views(old(fam)@).len() && same_vars(#[trigger] views(old(fam)@)[p], r),
    ensures
        family_ok(gt.push(ga@), views(final(fam)@)),
        forall|r: Seq<usize>|
            in_closure(gt.push(ga@), r) ==> exists|p: int|
                0 <= p < views(final(fam)@).len() && same_vars(#[trigger] views(final(fam)@)[p], r),
{
        let ghost a = ga@;
        let ghost g2 = gt.push(a);
        let ghost old_fam = views(fam@);
        let snapshot = fam.len();
        proof {
            assert forall|q: int| 0 <= q < old_fam.len() implies in_closure(
                g2,
                #[trigger] old_fam[q],
            ) by {
                lemma_closure_keep(gt, a, old_fam[q]);
            }
            lemma_closure_gen(gt, a);
        }
        if !holds(&fam, ga) {
            fam.push(copy_vars(ga));
            proof {
                let nf = views(fam@);
                assert(nf =~= old_fam.push(a));
                assert forall|i: int, j: int| 0 <= i < j < nf.len() implies nf[i] != nf[j] by {
                    if j == old_fam.len() {
                        assert(nf[i] == old_fam[i]);
                        assert(old_fam.contains(old_fam[i]));
                    } else {
                        assert(nf[i] == old_fam[i]);
                        assert(nf[j] == old_fam[j]);
                    }
                }
                assert forall|q: int| 0 <= q < nf.len() implies in_closure(g2, #[trigger] nf[q])
                    && strictly_inc(nf[q]) by {
                    if q < old_fam.len() {
                        assert(nf[q] == old_fam[q]);
                    }
                }
            }
        }
        assert(views(fam@).contains(a)) by {
            if views(fam@).len() > old_fam.len() {
                assert(views(fam@)[old_fam.len() as int] == a);
            }
        }
        assert(views(fam@).subrange(0, old_fam.len() as int) =~= old_fam);
        let mut q: usize = 0;
        while q < snapshot
            invariant
                ga@ == a,
                g2 == gt.push(a),
                strictly_inc(a),
                a.len() > 0,
                snapshot == old_fam.len(),
                q <= snapshot,
                snapshot <= views(fam@).len(),
                views(fam@).subrange(0, snapshot as int) == old_fam,
                family_ok(g2, views(fam@)),
                views(fam@).contains(a),
                forall|q2: int| 0 <= q2 < old_fam.len() ==> in_closure(gt, #[trigger] old_fam[q2]),
                forall|q2: int|
                    #![trigger old_fam[q2]]
                    0 <= q2 < q && (exists|x: usize| a.contains(x) && old_fam[q2].contains(x))
                        ==> exists|p: int|
                        0 <= p < views(fam@).len() && is_meet(
                            #[trigger] views(fam@)[p],
                            a,
                            old_fam[q2],
                        ),
            decreases snapshot - q,
        {
            let ghost f = old_fam[q as int];
            assert(views(fam@)[q as int] == f);
            let ghost fam_before = views(fam@);
            let x = intersect(ga, &fam[q]);
            let ghost xv = x@;
            assert(is_meet(xv, a, f));
            if x.len() > 0 {
                if !holds(&fam, &x) {
                    let ghost before = views(fam@);
                    proof {
                        lemma_closure_meet(gt, a, f, x@);
                    }
                    fam.push(x);
                    proof {
                        assert(views(fam@) =~= before.push(xv));
                        assert(views(fam@)[before.len() as int] == xv);
                        assert forall|i: int, j: int|
                            0 <= i < j < views(fam@).len() implies views(fam@)[i]
                            != views(fam@)[j] by {
                            if j == before.len() {
                                assert(views(fam@)[i] == before[i]);
                            } else {
                                assert(views(fam@)[i] == before[i]);
                                assert(views(fam@)[j] == before[j]);
                            }
                        }
                        assert(views(fam@).subrange(0, snapshot as int) =~= before.subrange(
                            0,
                            snapshot as int,
                        ));
                        assert(views(fam@).contains(a)) by {
                            let i = choose|i: int| 0 <= i < before.len() && before[i] == a;
                            assert(views(fam@)[i] == a);
                        }
                    }
                }
                proof {
                    assert(views(fam@).contains(xv));
                    let p = choose|p: int| 0 <= p < views(fam@).len() && views(fam@)[p]
                        == xv;
                    assert(is_meet(views(fam@)[p], a, f));
                    assert(fam_before.len() <= views(fam@).len());
                    assert forall|i: int| 0 <= i < fam_before.len() implies views(fam@)[i]
                        == fam_before[i] by {
                        assert(views(fam@).subrange(0, snapshot as int) == old_fam);
                        if views(fam@).len() > fam_before.len() {
                            assert(views(fam@) =~= fam_before.push(xv));
                        } else {
                            assert(views(fam@) =~= fam_before);
                        }
                    }
                }
            } else {
                proof {
                    assert forall|y: usize| !(a.contains(y) && f.contains(y)) by {
                        if a.contains(y) && f.contains(y) {
                            assert(xv.contains(y));
                        }
                    }
                }
            }
            q += 1;
        }
        proof {
            lemma_round_complete(gt, a, old_fam, views(fam@));
        }
}

/// The closure of `gens` under nonempty intersection, each region once, in no particular order.
fn close_under_intersection(gens: &Vec<Vec<usize>>) -> (fam: Vec<Vec<usize>>)
    requires
        forall|i: int| 0 <= i < gens@.len() ==> strictly_inc(#[trigger] gens@[i]@),
        forall|i: int| 0 <= i < gens@.len() ==> (#[trigger] gens@[i]@).len() > 0,
    ensures
        family_ok(views(gens@), views(fam@)),
        forall|r: Seq<usize>|
            strictly_inc(r) && in_closure(views(gens@), r) ==> views(fam@).contains(r),
{
    let ghost all = views(gens@);
    let mut fam: Vec<Vec<usize>> = Vec::new();
    let mut t: usize = 0;
    while t < gens.len()
        invariant
            all == views(gens@),
            forall|i: int| 0 <= i < all.len() ==> strictly_inc(#[trigger] all[i]),
            forall|i: int| 0 <= i < all.len() ==> (#[trigger] all[i]).len() > 0,
            t <= all.len(),
            family_ok(all.subrange(0, t as int), views(fam@)),
            forall|r: Seq<usize>|
                in_closure(all.subrange(0, t as int), r) ==> exists|p: int|
                    0 <= p < views(fam@).len() && same_vars(#[trigger] views(fam@)[p], r),
        decreases all.len() - t,
    {
        let ga = &gens[t];
        assert(ga@ == all[t as int]);
        assert(all.subrange(0, t + 1) == all.subrange(0, t as int).push(ga@));
        closure_round(&mut fam, ga, Ghost(all.subrange(0, t as int)));
        t += 1;
    }
    proof {
        assert(all.subrange(0, all.len() as int) == all);
        let nf = views(fam@);
        assert forall|r: Seq<usize>| strictly_inc(r) && in_closure(all, r) implies nf.contains(
            r,
        ) by {
            let p = choose|p: int| 0 <= p < nf.len() && same_vars(#[trigger] nf[p], r);
            lemma_sorted_unique(nf[p], r);
        }
    }
    fam
}

// ---------------------------------------------------------------------------------------------
// The region graph.
// ---------------------------------------------------------------------------------------------

/// Why a set of outer regions is not a region graph.
#[derive(Clone, Debug, PartialEq, Eq)]
pub enum RegionError {
    /// No outer regions were given for a model that has variables.
    NoOuterRegions {
        /// Variables the model has, all of them uncovered.
        n: usize,
    },
    /// Outer region `index` names no variables.
    EmptyRegion {
        /// Position in the list handed in.
        index: usize,
    },
    /// Outer region `index` names a variable the model does not have.
    OutOfRange {
        /// Position in the list handed in.
        index: usize,
        /// The offending variable.
        var: usize,
        /// Variables the model has.
        n: usize,
    },
    /// Outer region `index` is larger than [`MAX_REGION`], so its belief table is refused.
    TooLarge {
        /// Position in the list handed in.
        index: usize,
        /// Variables in that region.
        vars: usize,
        /// The cap, since a table costs `2^vars`.
        max: usize,
    },
    /// A variable lies in no outer region, so no counting number can sum to one over it.
    Uncovered {
        /// The variable nothing covers.
        var: usize,
    },
    /// A counting number, or a partial sum on the way to it, does not fit in 64 bits. Refused
    /// rather than wrapped, since a wrapped counting number would silently reweight the model.
    CountingOverflow {
        /// The region whose counting number could not be represented.
        region: usize,
    },
}

/// What a region-graph refusal says.
pub open spec fn region_error_text(e: RegionError) -> Seq<char> {
    match e {
        RegionError::NoOuterRegions { n } => "a region graph over "@ + decimal_chars(n as nat)
            + " variables needs at least one outer region; the cluster variation method has nothing to close under intersection"@,
        RegionError::EmptyRegion { index } => "outer region "@ + decimal_chars(index as nat)
            + " names no variables"@,
        RegionError::OutOfRange { index, var, n } => "outer region "@ + decimal_chars(index as nat)
            + " names variable "@ + decimal_chars(var as nat) + ", but the model has "@
            + decimal_chars(n as nat) + " of them (0.."@ + decimal_chars(n as nat) + ")"@,
        RegionError::TooLarge { index, vars, max } => "outer region "@ + decimal_chars(index as nat)
            + " has "@ + decimal_chars(vars as nat) + " variables and its belief table would be 2^"@
            + decimal_chars(vars as nat) + "; the cap is "@ + decimal_chars(max as nat)
            + ". Use smaller clusters -- the cluster variation method costs exponentially in the cluster, which is the trade it offers."@,
        RegionError::Uncovered { var } => "variable "@ + decimal_chars(var as nat)
            + " lies in no outer region, so the counting numbers cannot sum to one over it and the Kikuchi free energy would silently drop it"@,
        RegionError::CountingOverflow { region } => "the counting number of region "@
            + decimal_chars(region as nat) + ", or a partial sum on the way to it, does not fit in 64 bits"@,
    }
}

impl RegionError {
    /// The refusal in words, naming what was wrong and where.
    pub fn message(&self) -> (m: String)
        ensures
            m@ == region_error_text(*self),
    {
        match self {
            RegionError::NoOuterRegions { n } => {
                let mut m = String::from_str("a region graph over ");
                push_decimal(&mut m, *n);
                m.append(
                    " variables needs at least one outer region; the cluster variation method has nothing to close under intersection",
                );
                m
            },
            RegionError::EmptyRegion { index } => {
                let mut m = String::from_str("outer region ");
                push_decimal(&mut m, *index);
                m.append(" names no variables");
                m
            },
            RegionError::OutOfRange { index, var, n } => {
                let mut m = String::from_str("outer region ");
                push_decimal(&mut m, *index);
                m.append(" names variable ");
                push_decimal(&mut m, *var);
                m.append(", but the model has ");
                push_decimal(&mut m, *n);
                m.append(" of them (0..");
                push_decimal(&mut m, *n);
                m.append(")");
                m
            },
            RegionError::TooLarge { index, vars, max } => {
                let mut m = String::from_str("outer region ");
                push_decimal(&mut m, *index);
                m.append(" has ");
                push_decimal(&mut m, *vars);
                m.append(" variables and its belief table would be 2^");
                push_decimal(&mut m, *vars);
                m.append("; the cap is ");
                push_decimal(&mut m, *max);
                m.append(
                    ". Use smaller clusters -- the cluster variation method costs exponentially in the cluster, which is the trade it offers.",
                );
                m
            },
            RegionError::Uncovered { var } => {
                let mut m = String::from_str("variable ");
                push_decimal(&mut m, *var);
                m.append(
                    " lies in no outer region, so the counting numbers cannot sum to one over it and the Kikuchi free energy would silently drop it",
                );
                m
            },
            RegionError::CountingOverflow { region } => {
                let mut m = String::from_str("the counting number of region ");
                push_decimal(&mut m, *region);
                m.append(", or a partial sum on the way to it, does not fit in 64 bits");
                m
            },
        }
    }
}

/// A region graph: outer regions, everything their intersections generate, and the Moebius
/// counting numbers over the resulting inclusion lattice.
#[derive(Clone, Debug)]
pub struct RegionGraph {
    /// Variables the model has; every one of them lies in at least one region.
    pub n: usize,
    /// Each region's variables, sorted ascending. Regions are ordered largest first.
    pub regions: Vec<Vec<usize>>,
    /// Moebius counting number `c_R = 1 - sum_{R' strictly containing R} c_{R'}`, parallel to
    /// `regions`.
    pub counting: Vec<i64>,
    /// Hasse edges `(parent, child)`: `child` strictly inside `parent` with no region strictly
    /// between them.
    pub edges: Vec<(usize, usize)>,
    /// Every region strictly containing this one, as indices, ascending.
    pub ancestors: Vec<Vec<usize>>,
    /// Every region strictly contained in this one, as indices, ascending.
    pub descendants: Vec<Vec<usize>>,
}

/// Whether outer region `i` is maximal: no outer region names strictly more of the variables.
pub open spec fn is_outer_max(outer: Seq<Seq<usize>>, i: int) -> bool {
    &&& 0 <= i < outer.len()
    &&& forall|j: int|
        0 <= j < outer.len() ==> !(#[trigger] subset(outer[i], outer[j]) && !subset(
            outer[j],
            outer[i],
        ))
}

/// Whether `r` is a region generated by the outer regions: nonempty, inside some maximal outer
/// region, and exactly the intersection of the maximal outer regions that contain it.
pub open spec fn region_of(outer: Seq<Seq<usize>>, r: Seq<usize>) -> bool {
    &&& r.len() > 0
    &&& exists|i: int| is_outer_max(outer, i) && #[trigger] subset(r, outer[i])
    &&& forall|x: usize|
        (forall|i: int| is_outer_max(outer, i) && #[trigger] subset(r, outer[i]) ==> outer[i].contains(x))
            ==> r.contains(x)
}

/// Whether some outer region names variable `x`.
pub open spec fn covered(outer: Seq<Seq<usize>>, x: usize) -> bool {
    exists|i: int| 0 <= i < outer.len() && #[trigger] outer[i].contains(x)
}

/// Whether `l` lists, ascending and once each, exactly the indices below `k` satisfying `pred`.
pub open spec fn lists(l: Seq<usize>, k: int, pred: spec_fn(int) -> bool) -> bool {
    &&& strictly_inc(l)
    &&& forall|x: usize| l.contains(x) <==> (x < k && pred(x as int))
}

/// Whether region `s` strictly contains region `r`.
pub open spec fn proper_super(regs: Seq<Seq<usize>>, r: int, s: int) -> bool {
    s != r && subset(regs[r], regs[s])
}

/// The exact Moebius number of region `r`: one, less the numbers of the regions before it that
/// strictly contain it.
pub open spec fn moebius_number(regs: Seq<Seq<usize>>, r: int) -> int
    decreases r, r + 1,
{
    if r <= 0 {
        1
    } else {
        1 - moebius_prefix(regs, r, r)
    }
}

/// The sum of the exact Moebius numbers of the regions `s < end` (`end <= r`) strictly containing
/// region `r`.
pub open spec fn moebius_prefix(regs: Seq<Seq<usize>>, r: int, end: int) -> int
    decreases r, end,
{
    if end <= 0 || r <= 0 || end > r {
        0
    } else {
        moebius_prefix(regs, r, end - 1) + (if proper_super(regs, r, end - 1) {
            moebius_number(regs, end - 1)
        } else {
            0int
        })
    }
}

/// Whether some region's Moebius number, or a partial sum of it over the regions containing it in
/// order, leaves 64 bits.
pub open spec fn moebius_overflows(regs: Seq<Seq<usize>>) -> bool {
    exists|r: int, end: int|
        0 <= end <= r < regs.len() && !(i64::MIN <= 1 - #[trigger] moebius_prefix(regs, r, end) <= i64::MAX)
}

/// Whether `regs` is the region lattice `outer` generates, in the order a region graph keeps it.
pub open spec fn lattice_of(outer: Seq<Seq<usize>>, regs: Seq<Seq<usize>>) -> bool {
    &&& sorted_regions(regs)
    &&& forall|q: int| 0 <= q < regs.len() ==> strictly_inc(#[trigger] regs[q])
    &&& forall|r: Seq<usize>| strictly_inc(r) ==> (regs.contains(r) <==> region_of(outer, r))
}

/// Two lists in the region order holding the same regions are the same list.
proof fn lemma_sorted_regions_unique(a: Seq<Seq<usize>>, b: Seq<Seq<usize>>)
    requires
        sorted_regions(a),
        sorted_regions(b),
        forall|x: Seq<usize>| a.contains(x) <==> b.contains(x),
    ensures
        a == b,
    decreases a.len(),
{
    if a.len() == 0 {
        if b.len() > 0 {
            assert(b.contains(b[0]));
        }
    } else if b.len() == 0 {
        assert(a.contains(a[0]));
    } else {
        assert(a.contains(a[0]));
        assert(b.contains(b[0]));
        let ia = choose|i: int| 0 <= i < a.len() && a[i] == b[0];
        let ib = choose|i: int| 0 <= i < b.len() && b[i] == a[0];
        assert(a[0] == b[0]) by {
            lemma_region_order(a[0], b[0], a[0]);
            if a[0] != b[0] {
                assert(ia > 0 && ib > 0);
                assert(region_before(a[0], a[ia]));
                assert(region_before(b[0], b[ib]));
            }
        }
        let ta = a.drop_first();
        let tb = b.drop_first();
        assert forall|x: Seq<usize>| ta.contains(x) <==> tb.contains(x) by {
            if ta.contains(x) {
                let i = choose|i: int| 0 <= i < ta.len() && ta[i] == x;
                assert(region_before(a[0], a[i + 1]));
                lemma_region_order(a[0], a[0], a[0]);
                assert(b.contains(x));
                let j = choose|j: int| 0 <= j < b.len() && b[j] == x;
                assert(j != 0);
                assert(tb[j - 1] == x);
            }
            if tb.contains(x) {
                let j = choose|j: int| 0 <= j < tb.len() && tb[j] == x;
                assert(region_before(b[0], b[j + 1]));
                lemma_region_order(b[0], b[0], b[0]);
                assert(a.contains(x));
                let i = choose|i: int| 0 <= i < a.len() && a[i] == x;
                assert(i != 0);
                assert(ta[i - 1] == x);
            }
        }
        lemma_sorted_regions_unique(ta, tb);
        assert(a =~= seq![a[0]] + ta);
        assert(b =~= seq![b[0]] + tb);
    }
}

/// An outer family generates one region lattice.
pub proof fn lemma_lattice_unique(outer: Seq<Seq<usize>>, a: Seq<Seq<usize>>, b: Seq<Seq<usize>>)
    requires
        lattice_of(outer, a),
        lattice_of(outer, b),
    ensures
        a == b,
{
    assert forall|x: Seq<usize>| a.contains(x) <==> b.contains(x) by {
        if a.contains(x) {
            let i = choose|i: int| 0 <= i < a.len() && a[i] == x;
            assert(strictly_inc(a[i]));
        }
        if b.contains(x) {
            let i = choose|i: int| 0 <= i < b.len() && b[i] == x;
            assert(strictly_inc(b[i]));
        }
    }
    lemma_sorted_regions_unique(a, b);
}

/// Whether region `r`'s Moebius number, or a partial sum of it, leaves 64 bits.
pub open spec fn overflow_at(regs: Seq<Seq<usize>>, r: int) -> bool {
    exists|e: int| 0 <= e <= r && !(i64::MIN <= 1 - #[trigger] moebius_prefix(regs, r, e) <= i64::MAX)
}

/// A partial sum that leaves 64 bits is a witness of overflow at region `r`.
proof fn lemma_overflow_witness(regs: Seq<Seq<usize>>, r: int, end: int)
    requires
        0 <= end <= r,
        !(i64::MIN <= 1 - moebius_prefix(regs, r, end) <= i64::MAX),
    ensures
        overflow_at(regs, r),
{
}

/// Counting numbers that agree with the exact ones below `r` give the exact partial sums.
proof fn lemma_prefix_agrees(regs: Seq<Seq<usize>>, counting: Seq<i64>, r: int, end: int)
    requires
        0 <= end <= r,
        r <= counting.len(),
        forall|q: int| 0 <= q < r ==> #[trigger] counting[q] == moebius_number(regs, q),
    ensures
        super_sum(regs, counting, r, end) == moebius_prefix(regs, r, end),
    decreases end,
{
    if end > 0 {
        lemma_prefix_agrees(regs, counting, r, end - 1);
    }
}

/// `sum of counting[s]` over `s < end` with region `s` strictly containing region `r`.
pub open spec fn super_sum(regs: Seq<Seq<usize>>, counting: Seq<i64>, r: int, end: int) -> int
    decreases end,
{
    if end <= 0 {
        0
    } else {
        super_sum(regs, counting, r, end - 1) + (if proper_super(regs, r, end - 1) {
            counting[end - 1] as int
        } else {
            0int
        })
    }
}

/// Whether `(p, c)` is a Hasse edge: `c` strictly inside `p` and no region strictly between.
pub open spec fn is_edge(regs: Seq<Seq<usize>>, p: int, c: int) -> bool {
    &&& 0 <= p < regs.len()
    &&& 0 <= c < regs.len()
    &&& proper_super(regs, c, p)
    &&& !exists|m: int|
        0 <= m < regs.len() && m != c && #[trigger] proper_super(regs, m, p) && subset(
            regs[c],
            regs[m],
        ) && regs[m].len() > regs[c].len()
}

/// Lexicographic order on index pairs.
pub open spec fn pair_lt(a: (usize, usize), b: (usize, usize)) -> bool {
    a.0 < b.0 || (a.0 == b.0 && a.1 < b.1)
}

impl RegionGraph {
    /// The regions as variable lists.
    pub open spec fn regs(&self) -> Seq<Seq<usize>> {
        views(self.regions@)
    }

    /// The structure every region graph has, whatever its outer regions: regions sorted and
    /// distinct, the containment lists exact, the Moebius recursion exact, and the Hasse edges
    /// exactly the cover relation, in order.
    pub open spec fn structure_ok(&self) -> bool {
        let regs = self.regs();
        let k = regs.len() as int;
        &&& sorted_regions(regs)
        &&& forall|r: int| 0 <= r < k ==> strictly_inc(#[trigger] regs[r])
        &&& self.counting@.len() == k
        &&& self.ancestors@.len() == k
        &&& self.descendants@.len() == k
        &&& forall|r: int|
            0 <= r < k ==> lists(
                #[trigger] self.ancestors@[r]@,
                k,
                |s: int| proper_super(regs, r, s),
            )
        &&& forall|r: int|
            0 <= r < k ==> lists(
                #[trigger] self.descendants@[r]@,
                k,
                |s: int| proper_super(regs, s, r),
            )
        &&& forall|r: int|
            0 <= r < k ==> #[trigger] self.counting@[r] == 1 - super_sum(
                regs,
                self.counting@,
                r,
                k,
            )
        &&& forall|i: int, j: int|
            0 <= i < j < self.edges@.len() ==> pair_lt(self.edges@[i], self.edges@[j])
        &&& forall|e: (usize, usize)|
            self.edges@.contains(e) <==> is_edge(regs, e.0 as int, e.1 as int)
    }

    /// Whether this is the region graph of `outer` over `n` variables: its regions are exactly
    /// those the maximal outer regions generate under intersection, with the structure above.
    pub open spec fn built_from(&self, n: nat, outer: Seq<Seq<usize>>) -> bool {
        &&& self.n == n
        &&& self.structure_ok()
        &&& forall|r: Seq<usize>| strictly_inc(r) ==> (self.regs().contains(r) <==> region_of(outer, r))
        &&& forall|x: usize| x < n ==> #[trigger] covered(outer, x)
        &&& forall|i: int| 0 <= i < outer.len() ==> inside_some_region(self.regs(), #[trigger] outer[i])
    }
}

/// Whether the variables of `x` all lie together in some region.
pub open spec fn inside_some_region(regs: Seq<Seq<usize>>, x: Seq<usize>) -> bool {
    exists|r: int| 0 <= r < regs.len() && #[trigger] subset(x, regs[r])
}

// ---------------------------------------------------------------------------------------------
// Building a region graph.
// ---------------------------------------------------------------------------------------------

/// Whether outer region `i` names a variable at or past `n`.
pub open spec fn names_out_of_range(outer: Seq<Seq<usize>>, n: nat, i: int) -> bool {
    exists|x: usize| #[trigger] outer[i].contains(x) && x >= n
}

/// Whether outer region `i` names more than [`MAX_REGION`] distinct variables.
pub open spec fn too_large(outer: Seq<Seq<usize>>, i: int) -> bool {
    exists|v: Seq<usize>| #[trigger] is_normal_of(v, outer[i]) && v.len() > MAX_REGION
}

/// Whether outer region `i` is refused: empty, out of range, or too large.
pub open spec fn region_bad(outer: Seq<Seq<usize>>, n: nat, i: int) -> bool {
    outer[i].len() == 0 || names_out_of_range(outer, n, i) || too_large(outer, i)
}

/// Whether every outer region before `i` is acceptable.
pub open spec fn good_before(outer: Seq<Seq<usize>>, n: nat, i: int) -> bool {
    forall|j: int| 0 <= j < i ==> !#[trigger] region_bad(outer, n, j)
}

/// The outer-region views of a vector of regions.
proof fn lemma_normal_len_unique(v: Seq<usize>, w: Seq<usize>, r: Seq<usize>)
    requires
        is_normal_of(v, r),
        is_normal_of(w, r),
    ensures
        v == w,
{
    lemma_sorted_unique(v, w);
}

/// Check each outer region in order and normalise it, or report the first refusal.
fn validate(n: usize, outer: &[Vec<usize>]) -> (res: Result<Vec<Vec<usize>>, RegionError>)
    ensures
        match res {
            Ok(norm) => {
                &&& good_before(views(outer@), n as nat, outer@.len() as int)
                &&& norm@.len() == outer@.len()
                &&& forall|i: int|
                    0 <= i < norm@.len() ==> is_normal_of(#[trigger] norm@[i]@, outer@[i]@)
            },
            Err(RegionError::EmptyRegion { index }) => {
                &&& index < outer@.len()
                &&& good_before(views(outer@), n as nat, index as int)
                &&& outer@[index as int]@.len() == 0
            },
            Err(RegionError::OutOfRange { index, var, n: nn }) => {
                &&& index < outer@.len()
                &&& good_before(views(outer@), n as nat, index as int)
                &&& outer@[index as int]@.len() > 0
                &&& nn == n
                &&& outer@[index as int]@.contains(var)
                &&& var >= n
                &&& forall|y: usize| outer@[index as int]@.contains(y) && y >= n ==> var <= y
            },
            Err(RegionError::TooLarge { index, vars, max }) => {
                &&& index < outer@.len()
                &&& good_before(views(outer@), n as nat, index as int)
                &&& outer@[index as int]@.len() > 0
                &&& !names_out_of_range(views(outer@), n as nat, index as int)
                &&& max == MAX_REGION
                &&& vars > MAX_REGION
                &&& exists|v: Seq<usize>| is_normal_of(v, outer@[index as int]@) && v.len() == vars
            },
            Err(_) => false,
        },
{
    let ghost ov = views(outer@);
    let mut norm: Vec<Vec<usize>> = Vec::new();
    let mut index: usize = 0;
    while index < outer.len()
        invariant
            ov == views(outer@),
            index <= outer@.len(),
            norm@.len() == index,
            good_before(ov, n as nat, index as int),
            forall|i: int| 0 <= i < index ==> is_normal_of(#[trigger] norm@[i]@, outer@[i]@),
        decreases outer@.len() - index,
    {
        assert(ov[index as int] == outer@[index as int]@);
        if outer[index].len() == 0 {
            return Err(RegionError::EmptyRegion { index });
        }
        let v = normalize(&outer[index]);
        // The first variable at or past n, which is the smallest such since v is sorted.
        let mut q: usize = 0;
        while q < v.len()
            invariant
                ov == views(outer@),
                good_before(ov, n as nat, index as int),
                index < outer@.len(),
                is_normal_of(v@, outer@[index as int]@),
                q <= v@.len(),
                forall|p: int| 0 <= p < q ==> v@[p] < n,
            decreases v@.len() - q,
        {
            if v[q] >= n {
                proof {
                    assert(v@.contains(v@[q as int]));
                    assert(outer@[index as int]@.contains(v@[q as int]));
                    assert forall|y: usize| outer@[index as int]@.contains(y) && y >= n implies v@[
                        q as int] <= y by {
                        assert(v@.contains(y));
                        let p = choose|p: int| 0 <= p < v@.len() && v@[p] == y;
                        if p < q {
                        } else if p > q {
                        }
                    }
                }
                return Err(RegionError::OutOfRange { index, var: v[q], n });
            }
            q += 1;
        }
        proof {
            assert forall|x: usize| #[trigger] ov[index as int].contains(x) implies !(x >= n) by {
                assert(v@.contains(x));
            }
        }
        if v.len() > MAX_REGION {
            return Err(RegionError::TooLarge { index, vars: v.len(), max: MAX_REGION });
        }
        proof {
            assert forall|w: Seq<usize>| #[trigger] is_normal_of(w, ov[index as int]) implies w.len()
                <= MAX_REGION by {
                lemma_normal_len_unique(v@, w, ov[index as int]);
            }
            assert forall|j: int| 0 <= j < index + 1 implies !#[trigger] region_bad(ov, n as nat, j) by {
                if j == index {
                    assert(ov[j].len() > 0);
                }
            }
        }
        norm.push(v);
        index += 1;
    }
    Ok(norm)
}

/// The first variable below `n` that no region names, if any.
fn first_uncovered(n: usize, norm: &Vec<Vec<usize>>) -> (res: Option<usize>)
    requires
        forall|i: int, q: int|
            0 <= i < norm@.len() && 0 <= q < norm@[i]@.len() ==> #[trigger] norm@[i]@[q] < n,
    ensures
        match res {
            None => forall|x: usize| x < n ==> #[trigger] covered(views(norm@), x),
            Some(v) => v < n && !covered(views(norm@), v) && forall|y: usize|
                y < v ==> #[trigger] covered(views(norm@), y),
        },
{
    let ghost nv = views(norm@);
    let mut cov: Vec<bool> = Vec::new();
    let mut x: usize = 0;
    while x < n
        invariant
            x <= n,
            cov@.len() == x,
            forall|y: int| 0 <= y < x ==> !cov@[y],
        decreases n - x,
    {
        cov.push(false);
        x += 1;
    }
    let mut i: usize = 0;
    while i < norm.len()
        invariant
            nv == views(norm@),
            forall|i: int, q: int|
                0 <= i < norm@.len() && 0 <= q < norm@[i]@.len() ==> #[trigger] norm@[i]@[q] < n,
            i <= norm@.len(),
            cov@.len() == n,
            forall|y: usize| y < n ==> (cov@[y as int] <==> exists|j: int|
                0 <= j < i && #[trigger] nv[j].contains(y)),
        decreases norm@.len() - i,
    {
        let r = &norm[i];
        assert(r@ == nv[i as int]);
        let mut q: usize = 0;
        while q < r.len()
            invariant
                nv == views(norm@),
                r@ == nv[i as int],
                i < norm@.len(),
                forall|i: int, q: int|
                    0 <= i < norm@.len() && 0 <= q < norm@[i]@.len() ==> #[trigger] norm@[i]@[q]
                        < n,
                q <= r@.len(),
                cov@.len() == n,
                forall|y: usize| y < n ==> (cov@[y as int] <==> (exists|j: int|
                    0 <= j < i && #[trigger] nv[j].contains(y)) || r@.subrange(0, q as int).contains(y)),
            decreases r@.len() - q,
        {
            let v = r[q];
            assert(norm@[i as int]@[q as int] == v);
            cov.set(v, true);
            proof {
                let pre = r@.subrange(0, q as int);
                let post = r@.subrange(0, q + 1);
                assert(post == pre.push(v));
                assert forall|y: usize| y < n implies (cov@[y as int] <==> (exists|j: int|
                    0 <= j < i && #[trigger] nv[j].contains(y)) || post.contains(y)) by {
                    if post.contains(y) && y != v {
                        let k = choose|k: int| 0 <= k < post.len() && post[k] == y;
                        assert(pre[k] == y);
                    }
                    if pre.contains(y) {
                        let k = choose|k: int| 0 <= k < pre.len() && pre[k] == y;
                        assert(post[k] == y);
                    }
                    if y == v {
                        assert(post[q as int] == y);
                    }
                }
            }
            q += 1;
        }
        proof {
            assert(r@.subrange(0, r@.len() as int) == r@);
            assert forall|y: usize| y < n implies (cov@[y as int] <==> exists|j: int|
                0 <= j < i + 1 && #[trigger] nv[j].contains(y)) by {
                if nv[i as int].contains(y) {
                    assert(r@.contains(y));
                }
                if exists|j: int| 0 <= j < i + 1 && #[trigger] nv[j].contains(y) {
                    let j = choose|j: int| 0 <= j < i + 1 && #[trigger] nv[j].contains(y);
                    if j == i {
                        assert(r@.contains(y));
                    }
                }
            }
        }
        i += 1;
    }
    let mut x: usize = 0;
    while x < n
        invariant
            nv == views(norm@),
            x <= n,
            cov@.len() == n,
            forall|y: usize| y < n ==> (cov@[y as int] <==> exists|j: int|
                0 <= j < norm@.len() && #[trigger] nv[j].contains(y)),
            forall|y: usize| y < x ==> #[trigger] covered(nv, y),
        decreases n - x,
    {
        if !cov[x] {
            return Some(x);
        }
        x += 1;
    }
    None
}

/// Whether `r` is one of the maximal regions of `norm`.
pub open spec fn is_max_region(norm: Seq<Seq<usize>>, r: Seq<usize>) -> bool {
    exists|i: int| is_outer_max(norm, i) && r == #[trigger] norm[i]
}

/// Whether `anti` holds exactly the maximal regions of `norm`, each once.
pub open spec fn is_antichain_of(anti: Seq<Seq<usize>>, norm: Seq<Seq<usize>>) -> bool {
    &&& anti.no_duplicates()
    &&& forall|a: int| 0 <= a < anti.len() ==> is_max_region(norm, #[trigger] anti[a])
    &&& forall|i: int| is_outer_max(norm, i) ==> anti.contains(#[trigger] norm[i])
}

/// The maximal regions of `norm`, each once: a region inside another is generated by
/// intersection anyway, and as an outer region it would be counted twice.
fn maximal(norm: &Vec<Vec<usize>>) -> (anti: Vec<Vec<usize>>)
    ensures
        is_antichain_of(views(anti@), views(norm@)),
{
    let ghost nv = views(norm@);
    let mut anti: Vec<Vec<usize>> = Vec::new();
    let mut i: usize = 0;
    while i < norm.len()
        invariant
            nv == views(norm@),
            i <= norm@.len(),
            views(anti@).no_duplicates(),
            forall|a: int| 0 <= a < views(anti@).len() ==> is_max_region(nv, #[trigger] views(anti@)[a]),
            forall|j: int| 0 <= j < i && is_outer_max(nv, j) ==> views(anti@).contains(#[trigger] nv[j]),
        decreases norm@.len() - i,
    {
        let mut is_max = true;
        let mut j: usize = 0;
        while j < norm.len()
            invariant
                nv == views(norm@),
                i < norm@.len(),
                j <= norm@.len(),
                is_max == forall|q: int|
                    0 <= q < j ==> !(#[trigger] subset(nv[i as int], nv[q]) && !subset(
                        nv[q],
                        nv[i as int],
                    )),
            decreases norm@.len() - j,
        {
            assert(norm@[j as int]@ == nv[j as int] && norm@[i as int]@ == nv[i as int]);
            if contains(&norm[j], &norm[i]) && !contains(&norm[i], &norm[j]) {
                is_max = false;
            }
            j += 1;
        }
        assert(is_max == is_outer_max(nv, i as int));
        assert(norm@[i as int]@ == nv[i as int]);
        if is_max && !holds(&anti, &norm[i]) {
            let ghost before = views(anti@);
            anti.push(copy_vars(&norm[i]));
            proof {
                let av = views(anti@);
                assert(av =~= before.push(nv[i as int]));
                assert forall|a: int, b: int| 0 <= a < b < av.len() implies av[a] != av[b] by {
                    if b == before.len() {
                        assert(av[a] == before[a]);
                        assert(before.contains(before[a]));
                    } else {
                        assert(av[a] == before[a] && av[b] == before[b]);
                    }
                }
                assert forall|a: int| 0 <= a < av.len() implies is_max_region(nv, #[trigger] av[a]) by {
                    if a < before.len() {
                        assert(av[a] == before[a]);
                    } else {
                        assert(av[a] == nv[i as int]);
                    }
                }
                assert forall|q: int| 0 <= q < i + 1 && is_outer_max(nv, q) implies av.contains(
                    #[trigger] nv[q],
                ) by {
                    if q < i {
                        let a = choose|a: int| 0 <= a < before.len() && before[a] == nv[q];
                        assert(av[a] == nv[q]);
                    } else {
                        assert(av[before.len() as int] == nv[q]);
                    }
                }
            }
        }
        i += 1;
    }
    proof {
        let av = views(anti@);
        assert forall|q: int| is_outer_max(nv, q) implies av.contains(#[trigger] nv[q]) by {}
    }
    anti
}

/// `subset` only depends on the variables named.
proof fn lemma_subset_same(a: Seq<usize>, a2: Seq<usize>, b: Seq<usize>, b2: Seq<usize>)
    requires
        same_vars(a, a2),
        same_vars(b, b2),
    ensures
        subset(a, b) == subset(a2, b2),
{
}

/// Maximality and the generated regions depend only on the variables each outer region names.
proof fn lemma_region_of_normal(outer: Seq<Seq<usize>>, norm: Seq<Seq<usize>>, r: Seq<usize>)
    requires
        outer.len() == norm.len(),
        forall|i: int| 0 <= i < norm.len() ==> #[trigger] same_vars(norm[i], outer[i]),
    ensures
        forall|i: int| #[trigger] is_outer_max(norm, i) <==> is_outer_max(outer, i),
        region_of(norm, r) <==> region_of(outer, r),
{
    assert forall|i: int| #[trigger] is_outer_max(norm, i) <==> is_outer_max(outer, i) by {
        if 0 <= i < norm.len() {
            assert(same_vars(norm[i], outer[i]));
            assert forall|j: int| 0 <= j < outer.len() implies (subset(norm[i], norm[j]) == subset(
                outer[i],
                outer[j],
            ) && subset(norm[j], norm[i]) == subset(outer[j], outer[i])) by {
                assert(same_vars(norm[j], outer[j]));
                lemma_subset_same(norm[i], outer[i], norm[j], outer[j]);
                lemma_subset_same(norm[j], outer[j], norm[i], outer[i]);
            }
        }
    }
    assert forall|i: int| 0 <= i < norm.len() implies (#[trigger] subset(r, norm[i]) == subset(
        r,
        outer[i],
    ) && norm[i].contains(r[0]) == outer[i].contains(r[0])) by {
        assert(same_vars(norm[i], outer[i]));
    }
    if region_of(norm, r) {
        let i = choose|i: int| is_outer_max(norm, i) && #[trigger] subset(r, norm[i]);
        assert(subset(r, outer[i]));
        assert forall|x: usize|
            (forall|i: int| is_outer_max(outer, i) && #[trigger] subset(r, outer[i]) ==> outer[i].contains(
                x,
            )) implies r.contains(x) by {
            assert forall|i: int| is_outer_max(norm, i) && #[trigger] subset(r, norm[i]) implies norm[
                i].contains(x) by {
                assert(subset(r, outer[i]));
                assert(same_vars(norm[i], outer[i]));
            }
        }
    }
    if region_of(outer, r) {
        let i = choose|i: int| is_outer_max(outer, i) && #[trigger] subset(r, outer[i]);
        assert(subset(r, norm[i]));
        assert forall|x: usize|
            (forall|i: int| is_outer_max(norm, i) && #[trigger] subset(r, norm[i]) ==> norm[i].contains(
                x,
            )) implies r.contains(x) by {
            assert forall|i: int| is_outer_max(outer, i) && #[trigger] subset(r, outer[i]) implies outer[
                i].contains(x) by {
                assert(subset(r, norm[i]));
                assert(same_vars(norm[i], outer[i]));
            }
        }
    }
}

/// Every sorted outer region lies inside a maximal one.
proof fn lemma_max_above(nv: Seq<Seq<usize>>, i: int, bound: nat)
    requires
        0 <= i < nv.len(),
        forall|q: int| 0 <= q < nv.len() ==> strictly_inc(#[trigger] nv[q]),
        forall|q: int| 0 <= q < nv.len() ==> (#[trigger] nv[q]).len() <= bound,
    ensures
        exists|j: int| is_outer_max(nv, j) && #[trigger] subset(nv[i], nv[j]),
    decreases bound - nv[i].len(),
{
    if is_outer_max(nv, i) {
        assert(subset(nv[i], nv[i]));
    } else {
        let j = choose|j: int|
            0 <= j < nv.len() && !!(#[trigger] subset(nv[i], nv[j]) && !subset(nv[j], nv[i]));
        lemma_subset_len(nv[i], nv[j]);
        lemma_max_above(nv, j, bound);
        let m = choose|m: int| is_outer_max(nv, m) && #[trigger] subset(nv[j], nv[m]);
        assert(subset(nv[i], nv[m]));
    }
}

/// The longest of the first `end` lists.
pub open spec fn max_len(nv: Seq<Seq<usize>>, end: int) -> nat
    decreases end,
{
    if end <= 0 {
        0
    } else {
        let m = max_len(nv, end - 1);
        if nv[end - 1].len() > m {
            nv[end - 1].len()
        } else {
            m
        }
    }
}

proof fn lemma_max_len(nv: Seq<Seq<usize>>, end: int)
    requires
        0 <= end <= nv.len(),
    ensures
        forall|q: int| 0 <= q < end ==> (#[trigger] nv[q]).len() <= max_len(nv, end),
    decreases end,
{
    if end > 0 {
        lemma_max_len(nv, end - 1);
    }
}

/// The closure of the antichain is exactly the family the maximal regions generate.
proof fn lemma_antichain_closure(anti: Seq<Seq<usize>>, norm: Seq<Seq<usize>>, r: Seq<usize>)
    requires
        is_antichain_of(anti, norm),
    ensures
        in_closure(anti, r) <==> region_of(norm, r),
{
    if in_closure(anti, r) {
        let a = choose|a: int| 0 <= a < anti.len() && #[trigger] subset(r, anti[a]);
        assert(is_max_region(norm, anti[a]));
        let i = choose|i: int| is_outer_max(norm, i) && anti[a] == #[trigger] norm[i];
        assert(subset(r, norm[i]));
        assert forall|x: usize|
            (forall|i: int| is_outer_max(norm, i) && #[trigger] subset(r, norm[i]) ==> norm[i].contains(
                x,
            )) implies r.contains(x) by {
            assert forall|a: int| 0 <= a < anti.len() && #[trigger] subset(r, anti[a]) implies anti[
                a].contains(x) by {
                assert(is_max_region(norm, anti[a]));
                let i = choose|i: int| is_outer_max(norm, i) && anti[a] == #[trigger] norm[i];
                assert(subset(r, norm[i]));
            }
        }
    }
    if region_of(norm, r) {
        let i = choose|i: int| is_outer_max(norm, i) && #[trigger] subset(r, norm[i]);
        assert(anti.contains(norm[i]));
        let a = choose|a: int| 0 <= a < anti.len() && anti[a] == norm[i];
        assert(subset(r, anti[a]));
        assert forall|x: usize|
            (forall|a: int| 0 <= a < anti.len() && #[trigger] subset(r, anti[a]) ==> anti[a].contains(
                x,
            )) implies r.contains(x) by {
            assert forall|i: int| is_outer_max(norm, i) && #[trigger] subset(r, norm[i]) implies norm[
                i].contains(x) by {
                assert(anti.contains(norm[i]));
                let a = choose|a: int| 0 <= a < anti.len() && anti[a] == norm[i];
                assert(subset(r, anti[a]));
            }
        }
    }
}

/// A sorted list inside another names no more variables, and names all of them if it is as long.
proof fn lemma_subset_len(a: Seq<usize>, b: Seq<usize>)
    requires
        strictly_inc(a),
        strictly_inc(b),
        subset(a, b),
    ensures
        a.len() <= b.len(),
        a.len() == b.len() ==> a == b,
{
    assert(a.no_duplicates());
    assert(b.no_duplicates());
    a.unique_seq_to_set();
    b.unique_seq_to_set();
    assert(a.to_set().subset_of(b.to_set()));
    vstd::set_lib::lemma_len_subset(a.to_set(), b.to_set());
    if a.len() == b.len() {
        vstd::set_lib::lemma_subset_equality(a.to_set(), b.to_set());
        assert forall|x: usize| b.contains(x) implies a.contains(x) by {
            assert(b.to_set().contains(x));
        }
        lemma_sorted_unique(a, b);
    }
}

/// In a sorted list of distinct regions every strict superset comes earlier.
proof fn lemma_super_before(regs: Seq<Seq<usize>>, r: int, s: int)
    requires
        sorted_regions(regs),
        forall|q: int| 0 <= q < regs.len() ==> strictly_inc(#[trigger] regs[q]),
        0 <= r < regs.len(),
        0 <= s < regs.len(),
        proper_super(regs, r, s),
    ensures
        s < r,
{
    lemma_subset_len(regs[r], regs[s]);
    if s > r {
        assert(region_before(regs[r], regs[s]));
        if regs[r].len() == regs[s].len() {
            lemma_lex_irreflexive(regs[r]);
        }
    }
}

/// The strict supersets of region `r`, ascending.
fn supersets_of(regions: &Vec<Vec<usize>>, r: usize) -> (l: Vec<usize>)
    requires
        r < regions@.len(),
    ensures
        lists(l@, regions@.len() as int, |s: int| proper_super(views(regions@), r as int, s)),
{
    let ghost regs = views(regions@);
    let mut l: Vec<usize> = Vec::new();
    let mut s: usize = 0;
    while s < regions.len()
        invariant
            regs == views(regions@),
            r < regions@.len(),
            s <= regions@.len(),
            strictly_inc(l@),
            forall|x: usize| l@.contains(x) <==> (x < s && proper_super(regs, r as int, x as int)),
            forall|q: int| 0 <= q < l@.len() ==> l@[q] < s,
        decreases regions@.len() - s,
    {
        assert(regions@[s as int]@ == regs[s as int] && regions@[r as int]@ == regs[r as int]);
        if r != s && contains(&regions[s], &regions[r]) {
            let ghost old_l = l@;
            l.push(s);
            proof {
                assert forall|x: usize| l@.contains(x) <==> (x < s + 1 && proper_super(regs, r as int, x as int)) by {
                    if l@.contains(x) && x != s {
                        let q = choose|q: int| 0 <= q < l@.len() && l@[q] == x;
                        assert(old_l[q] == x);
                    }
                    if old_l.contains(x) {
                        let q = choose|q: int| 0 <= q < old_l.len() && old_l[q] == x;
                        assert(l@[q] == x);
                    }
                    if x == s {
                        assert(l@[old_l.len() as int] == x);
                    }
                }
            }
        } else {
            proof {
                assert forall|x: usize| l@.contains(x) <==> (x < s + 1 && proper_super(regs, r as int, x as int)) by {
                    if x == s {
                        if l@.contains(x) {
                            let q = choose|q: int| 0 <= q < l@.len() && l@[q] == x;
                        }
                    }
                }
            }
        }
        s += 1;
    }
    l
}

/// The strict subsets of region `p`, ascending.
fn subsets_of(regions: &Vec<Vec<usize>>, p: usize) -> (l: Vec<usize>)
    requires
        p < regions@.len(),
    ensures
        lists(l@, regions@.len() as int, |s: int| proper_super(views(regions@), s, p as int)),
{
    let ghost regs = views(regions@);
    let mut l: Vec<usize> = Vec::new();
    let mut s: usize = 0;
    while s < regions.len()
        invariant
            regs == views(regions@),
            p < regions@.len(),
            s <= regions@.len(),
            strictly_inc(l@),
            forall|x: usize| l@.contains(x) <==> (x < s && proper_super(regs, x as int, p as int)),
            forall|q: int| 0 <= q < l@.len() ==> l@[q] < s,
        decreases regions@.len() - s,
    {
        assert(regions@[s as int]@ == regs[s as int] && regions@[p as int]@ == regs[p as int]);
        if p != s && contains(&regions[p], &regions[s]) {
            let ghost old_l = l@;
            l.push(s);
            proof {
                assert forall|x: usize| l@.contains(x) <==> (x < s + 1 && proper_super(regs, x as int, p as int)) by {
                    if l@.contains(x) && x != s {
                        let q = choose|q: int| 0 <= q < l@.len() && l@[q] == x;
                        assert(old_l[q] == x);
                    }
                    if old_l.contains(x) {
                        let q = choose|q: int| 0 <= q < old_l.len() && old_l[q] == x;
                        assert(l@[q] == x);
                    }
                    if x == s {
                        assert(l@[old_l.len() as int] == x);
                    }
                }
            }
        } else {
            proof {
                assert forall|x: usize| l@.contains(x) <==> (x < s + 1 && proper_super(regs, x as int, p as int)) by {
                    if x == s {
                        if l@.contains(x) {
                            let q = choose|q: int| 0 <= q < l@.len() && l@[q] == x;
                        }
                    }
                }
            }
        }
        s += 1;
    }
    l
}

/// `super_sum` reads `counting` only at strict supersets.
proof fn lemma_super_sum_agree(
    regs: Seq<Seq<usize>>,
    c1: Seq<i64>,
    c2: Seq<i64>,
    r: int,
    end: int,
)
    requires
        forall|s: int| 0 <= s < end && proper_super(regs, r, s) ==> c1[s] == c2[s],
    ensures
        super_sum(regs, c1, r, end) == super_sum(regs, c2, r, end),
    decreases end,
{
    if end > 0 {
        lemma_super_sum_agree(regs, c1, c2, r, end - 1);
    }
}

/// Indices that are not strict supersets add nothing to `super_sum`.
proof fn lemma_super_sum_skip(regs: Seq<Seq<usize>>, c: Seq<i64>, r: int, lo: int, hi: int)
    requires
        0 <= lo <= hi,
        forall|s: int| lo <= s < hi ==> !proper_super(regs, r, s),
    ensures
        super_sum(regs, c, r, hi) == super_sum(regs, c, r, lo),
    decreases hi - lo,
{
    if hi > lo {
        lemma_super_sum_skip(regs, c, r, lo, hi - 1);
    }
}

/// Pigeonhole: a list of distinct values all below `bound` has at most `bound` entries.
proof fn lemma_distinct_below(m: Seq<usize>, bound: nat)
    requires
        m.no_duplicates(),
        forall|t: int| 0 <= t < m.len() ==> (#[trigger] m[t]) < bound,
    ensures
        m.len() <= bound,
    decreases bound,
{
    if bound == 0 {
        if m.len() > 0 {
            assert(m[0] < 0);
        }
    } else {
        let top = (bound - 1) as usize;
        if m.contains(top) {
            let idx = choose|t: int| 0 <= t < m.len() && m[t] == top;
            let m2 = m.remove(idx);
            assert forall|t: int| 0 <= t < m2.len() implies (#[trigger] m2[t]) < bound - 1 by {
                if t < idx {
                    assert(m2[t] == m[t]);
                } else {
                    assert(m2[t] == m[t + 1]);
                }
            }
            assert forall|a: int, b: int| 0 <= a < b < m2.len() implies m2[a] != m2[b] by {
                let a2 = if a < idx { a } else { a + 1 };
                let b2 = if b < idx { b } else { b + 1 };
                assert(m2[a] == m[a2] && m2[b] == m[b2]);
            }
            lemma_distinct_below(m2, (bound - 1) as nat);
        } else {
            assert forall|t: int| 0 <= t < m.len() implies (#[trigger] m[t]) < bound - 1 by {
                assert(m[t] != top);
            }
            lemma_distinct_below(m, (bound - 1) as nat);
        }
    }
}

/// Whether every region names one or two variables, all below `bound`.
pub open spec fn small_regions(regs: Seq<Seq<usize>>, bound: nat) -> bool {
    forall|q: int|
        0 <= q < regs.len() ==> 1 <= (#[trigger] regs[q]).len() <= 2 && forall|t: int|
            0 <= t < regs[q].len() ==> regs[q][t] < bound
}

/// The variable of a two-variable region other than `i`.
pub open spec fn other_var(s: Seq<usize>, i: usize) -> usize {
    if s[0] == i {
        s[1]
    } else {
        s[0]
    }
}

/// Among one- and two-variable regions, a single variable has at most `bound` strict supersets:
/// each is the pair of it and one other variable below `bound`.
proof fn lemma_small_ancestors(regs: Seq<Seq<usize>>, r: int, anc: Seq<usize>, bound: nat)
    requires
        sorted_regions(regs),
        forall|q: int| 0 <= q < regs.len() ==> strictly_inc(#[trigger] regs[q]),
        small_regions(regs, bound),
        0 <= r < regs.len(),
        regs[r].len() == 1,
        lists(anc, regs.len() as int, |s: int| proper_super(regs, r, s)),
    ensures
        anc.len() <= bound,
        forall|t: int| 0 <= t < anc.len() ==> regs[#[trigger] anc[t] as int].len() == 2,
{
    let i = regs[r][0];
    assert(regs[r].contains(i));
    assert forall|t: int| 0 <= t < anc.len() implies regs[#[trigger] anc[t] as int].len() == 2 && regs[anc[t] as int].contains(i) by {
        assert(anc.contains(anc[t]));
        let s = anc[t] as int;
        assert(proper_super(regs, r, s));
        lemma_subset_len(regs[r], regs[s]);
        if regs[s].len() == 1 {
            lemma_region_order(regs[r], regs[s], regs[r]);
            if r < s {
                assert(region_before(regs[r], regs[s]));
            } else {
                assert(region_before(regs[s], regs[r]));
            }
        }
    }
    let m = Seq::new(anc.len(), |t: int| other_var(regs[anc[t] as int], i));
    assert forall|t: int| 0 <= t < m.len() implies (#[trigger] m[t]) < bound by {
        assert(anc.contains(anc[t]));
        let s = anc[t] as int;
        assert(regs[s].len() == 2);
    }
    assert forall|a: int, b: int| 0 <= a < b < m.len() implies m[a] != m[b] by {
        let sa = anc[a] as int;
        let sb = anc[b] as int;
        assert(anc.contains(anc[a]) && anc.contains(anc[b]));
        assert(anc[a] < anc[b]);
        assert(strictly_inc(regs[sa]) && strictly_inc(regs[sb]));
        if m[a] == m[b] {
            let j = m[a];
            assert(regs[sa].len() == 2 && regs[sb].len() == 2);
            assert(regs[sa].contains(i) && regs[sb].contains(i));
            assert(regs[sa][0] < regs[sa][1]);
            assert(regs[sb][0] < regs[sb][1]);
            assert forall|x: usize| regs[sa].contains(x) <==> (x == i || x == j) by {
                if regs[sa].contains(x) {
                    let q = choose|q: int| 0 <= q < regs[sa].len() && regs[sa][q] == x;
                }
                if x == j {
                    if regs[sa][0] == i { assert(regs[sa][1] == j); } else { assert(regs[sa][0] == j); }
                }
            }
            assert forall|x: usize| regs[sb].contains(x) <==> (x == i || x == j) by {
                if regs[sb].contains(x) {
                    let q = choose|q: int| 0 <= q < regs[sb].len() && regs[sb][q] == x;
                }
                if x == j {
                    if regs[sb][0] == i { assert(regs[sb][1] == j); } else { assert(regs[sb][0] == j); }
                }
            }
            lemma_sorted_unique(regs[sa], regs[sb]);
            lemma_region_order(regs[sa], regs[sb], regs[sa]);
            assert(region_before(regs[sa], regs[sb]));
        }
    }
    lemma_distinct_below(m, bound);
}

#[verifier::spinoff_prover]
/// The Moebius counting numbers, in one forward pass over the ancestor lists, or the first region
/// whose number (or a partial sum of it) leaves 64 bits.
fn moebius(
    regions: &Vec<Vec<usize>>,
    ancestors: &Vec<Vec<usize>>,
    Ghost(bound): Ghost<nat>,
) -> (res: Result<Vec<i64>, usize>)
    requires
        sorted_regions(views(regions@)),
        forall|q: int| 0 <= q < regions@.len() ==> strictly_inc(#[trigger] views(regions@)[q]),
        ancestors@.len() == regions@.len(),
        forall|r: int|
            0 <= r < regions@.len() ==> lists(
                #[trigger] ancestors@[r]@,
                regions@.len() as int,
                |s: int| proper_super(views(regions@), r, s),
            ),
    ensures
        match res {
            Ok(counting) => counting@.len() == regions@.len() && forall|r: int|
                0 <= r < regions@.len() ==> #[trigger] counting@[r] == 1 - super_sum(
                    views(regions@),
                    counting@,
                    r,
                    regions@.len() as int,
                ),
            Err(region) => region < regions@.len() && overflow_at(views(regions@), region as int),
        },
        res matches Ok(counting) ==> forall|r: int|
            0 <= r < regions@.len() ==> #[trigger] counting@[r] == moebius_number(views(regions@), r),
        small_regions(views(regions@), bound) && bound <= i64::MAX ==> res is Ok,
{
    let ghost regs = views(regions@);
    let ghost small = small_regions(regs, bound) && bound <= i64::MAX;
    let k = regions.len();
    let mut counting: Vec<i64> = Vec::new();
    let mut r: usize = 0;
    while r < k
        invariant
            regs == views(regions@),
            k == regions@.len(),
            sorted_regions(regs),
            forall|q: int| 0 <= q < k ==> strictly_inc(#[trigger] regs[q]),
            ancestors@.len() == k,
            forall|r: int|
                0 <= r < k ==> lists(#[trigger] ancestors@[r]@, k as int, |s: int| proper_super(regs, r, s)),
            r <= k,
            counting@.len() == r,
            forall|q: int| 0 <= q < r ==> #[trigger] counting@[q] == 1 - super_sum(regs, counting@, q, k as int),
            forall|q: int| 0 <= q < r ==> #[trigger] counting@[q] == moebius_number(regs, q),
            small == (small_regions(regs, bound) && bound <= i64::MAX),
            small ==> forall|q: int| 0 <= q < r && regs[q].len() == 2 ==> #[trigger] counting@[q] == 1,
        decreases k - r,
    {
        let anc = &ancestors[r];
        assert(lists(anc@, k as int, |s: int| proper_super(regs, r as int, s)));
        proof {
            if small {
                if regs[r as int].len() == 1 {
                    lemma_small_ancestors(regs, r as int, anc@, bound);
                } else {
                    assert(regs[r as int].len() == 2);
                    if anc@.len() > 0 {
                        assert(anc@.contains(anc@[0]));
                        let s = anc@[0] as int;
                        lemma_subset_len(regs[r as int], regs[s]);
                        if regs[s].len() == 2 {
                            lemma_region_order(regs[r as int], regs[s], regs[r as int]);
                            assert(r < s || s < r);
                            if r < s {
                                assert(region_before(regs[r as int], regs[s]));
                            } else {
                                assert(region_before(regs[s], regs[r as int]));
                            }
                        }
                        assert(false);
                    }
                }
            }
        }
        let mut c: i64 = 1;
        let mut t: usize = 0;
        while t < anc.len()
            invariant
                regs == views(regions@),
                k == regions@.len(),
                sorted_regions(regs),
                forall|q: int| 0 <= q < k ==> strictly_inc(#[trigger] regs[q]),
                r < k,
                counting@.len() == r,
                lists(anc@, k as int, |s: int| proper_super(regs, r as int, s)),
                t <= anc@.len(),
                c == 1 - super_sum(regs, counting@, r as int, if t == 0 { 0 } else { anc@[t - 1] + 1 }),
                forall|q: int| 0 <= q < r ==> #[trigger] counting@[q] == moebius_number(regs, q),
                t > 0 ==> anc@[t - 1] < r,
                small == (small_regions(regs, bound) && bound <= i64::MAX),
                small ==> forall|q: int| 0 <= q < r && regs[q].len() == 2 ==> #[trigger] counting@[q] == 1,
                small && anc@.len() > 0 ==> regs[r as int].len() == 1 && anc@.len() <= bound && c == 1 - t,
                small ==> forall|t: int| 0 <= t < anc@.len() ==> regs[#[trigger] anc@[t] as int].len() == 2,
            decreases anc@.len() - t,
        {
            let a = anc[t];
            let ghost lo: int = if t == 0 { 0 } else { anc@[t - 1] + 1 };
            proof {
                assert(anc@.contains(a));
                assert(proper_super(regs, r as int, a as int));
                lemma_super_before(regs, r as int, a as int);
                if t > 0 {
                    assert(anc@[t - 1] < a);
                }
                assert forall|s: int| lo <= s < a implies !proper_super(regs, r as int, s) by {
                    if proper_super(regs, r as int, s) {
                        lemma_super_before(regs, r as int, s);
                        assert(anc@.contains(s as usize));
                        let q = choose|q: int| 0 <= q < anc@.len() && anc@[q] == s as usize;
                        if q < t {
                            if q < t - 1 {
                                assert(anc@[q] < anc@[t - 1]);
                            }
                        } else if q > t {
                            assert(anc@[t as int] < anc@[q]);
                        }
                    }
                }
                lemma_super_sum_skip(regs, counting@, r as int, lo, a as int);
                if small {
                    assert(regs[a as int].len() == 2);
                    assert(counting@[a as int] == 1);
                }
            }
            proof {
                assert(proper_super(regs, r as int, a as int));
                assert(super_sum(regs, counting@, r as int, a + 1) == super_sum(regs, counting@, r as int, a as int)
                    + counting@[a as int]);
                lemma_prefix_agrees(regs, counting@, r as int, a + 1);
            }
            match c.checked_sub(counting[a]) {
                Some(v) => {
                    c = v;
                },
                None => {
                    proof {
                        assert(!(i64::MIN <= 1 - moebius_prefix(regs, r as int, a + 1) <= i64::MAX));
                        assert(a < r);
                        lemma_overflow_witness(regs, r as int, a + 1);
                        if small {
                            assert(anc@.len() > 0);
                            assert(counting@[a as int] == 1);
                            assert(c == 1 - t);
                            assert(t < anc@.len() <= bound <= i64::MAX);
                            assert(false);
                        }
                        assert(!(small_regions(views(regions@), bound) && bound <= i64::MAX));
                        assert(regs == views(regions@));
                        assert(r < regions@.len());
                    }
                    return Err(r);
                },
            }
            t += 1;
        }
        proof {
            let lo: int = if t == 0 { 0 } else { anc@[t - 1] + 1 };
            assert forall|s: int| lo <= s < k implies !proper_super(regs, r as int, s) by {
                if proper_super(regs, r as int, s) {
                    assert(anc@.contains(s as usize));
                    let q = choose|q: int| 0 <= q < anc@.len() && anc@[q] == s as usize;
                    if q < t - 1 {
                        assert(anc@[q] < anc@[t - 1]);
                    }
                }
            }
            if t > 0 {
                assert(anc@.contains(anc@[t - 1]));
            }
            lemma_super_sum_skip(regs, counting@, r as int, lo, k as int);
            lemma_super_sum_skip(regs, counting@, r as int, r as int, k as int);
            lemma_prefix_agrees(regs, counting@, r as int, r as int);
            assert(c == moebius_number(regs, r as int));
        }
        let ghost before = counting@;
        counting.push(c);
        proof {
            if small {
                assert forall|q: int| 0 <= q < r + 1 && regs[q].len() == 2 implies #[trigger] counting@[q] == 1 by {
                    if q < r {
                        assert(counting@[q] == before[q]);
                    }
                }
            }
            assert forall|q: int| 0 <= q < r + 1 implies #[trigger] counting@[q] == 1 - super_sum(
                regs,
                counting@,
                q,
                k as int,
            ) by {
                assert forall|s: int| 0 <= s < k && proper_super(regs, q, s) implies before[s]
                    == counting@[s] by {
                    lemma_super_before(regs, q, s);
                }
                lemma_super_sum_agree(regs, before, counting@, q, k as int);
                if q == r {
                    assert(counting@[q] == c);
                } else {
                    assert(counting@[q] == before[q]);
                }
            }
        }
        r += 1;
    }
    Ok(counting)
}

/// The Hasse edges: `(p, c)` for each strict subset `c` of `p` with no region strictly between,
/// in order of `p`, then `c`.
fn hasse(regions: &Vec<Vec<usize>>, descendants: &Vec<Vec<usize>>) -> (edges: Vec<(usize, usize)>)
    requires
        descendants@.len() == regions@.len(),
        forall|p: int|
            0 <= p < regions@.len() ==> lists(
                #[trigger] descendants@[p]@,
                regions@.len() as int,
                |s: int| proper_super(views(regions@), s, p),
            ),
    ensures
        forall|i: int, j: int| 0 <= i < j < edges@.len() ==> pair_lt(edges@[i], edges@[j]),
        forall|e: (usize, usize)| edges@.contains(e) <==> is_edge(views(regions@), e.0 as int, e.1 as int),
{
    let ghost regs = views(regions@);
    let k = regions.len();
    let mut edges: Vec<(usize, usize)> = Vec::new();
    let mut p: usize = 0;
    while p < k
        invariant
            regs == views(regions@),
            k == regions@.len(),
            descendants@.len() == k,
            forall|p: int|
                0 <= p < k ==> lists(#[trigger] descendants@[p]@, k as int, |s: int| proper_super(regs, s, p)),
            p <= k,
            forall|i: int, j: int| 0 <= i < j < edges@.len() ==> pair_lt(edges@[i], edges@[j]),
            forall|i: int| 0 <= i < edges@.len() ==> (#[trigger] edges@[i]).0 < p,
            forall|e: (usize, usize)| edges@.contains(e) <==> (e.0 < p && is_edge(regs, e.0 as int, e.1 as int)),
        decreases k - p,
    {
        let desc = &descendants[p];
        assert(lists(desc@, k as int, |s: int| proper_super(regs, s, p as int)));
        let mut t: usize = 0;
        while t < desc.len()
            invariant
                regs == views(regions@),
                k == regions@.len(),
                p < k,
                lists(desc@, k as int, |s: int| proper_super(regs, s, p as int)),
                t <= desc@.len(),
                forall|i: int, j: int| 0 <= i < j < edges@.len() ==> pair_lt(edges@[i], edges@[j]),
                forall|i: int| 0 <= i < edges@.len() ==> (#[trigger] edges@[i]).0 < p || ((edges@[i]).0 == p && t > 0 && (edges@[i]).1 <= desc@[t - 1]),
                forall|e: (usize, usize)| edges@.contains(e) <==> ((e.0 < p || (e.0 == p && exists|q: int| 0 <= q < t && desc@[q] == e.1)) && is_edge(regs, e.0 as int, e.1 as int)),
            decreases desc@.len() - t,
        {
            let c = desc[t];
            assert(desc@.contains(c));
            assert(proper_super(regs, c as int, p as int));
            assert(regions@[c as int]@ == regs[c as int]);
            // Is some other strict subset of p strictly between p and c?
            let mut covered = false;
            let mut u: usize = 0;
            while u < desc.len()
                invariant
                    regs == views(regions@),
                    k == regions@.len(),
                    p < k,
                    c < k,
                    regions@[c as int]@ == regs[c as int],
                    lists(desc@, k as int, |s: int| proper_super(regs, s, p as int)),
                    u <= desc@.len(),
                    covered == exists|q: int|
                        0 <= q < u && #[trigger] desc@[q] != c && subset(regs[c as int], regs[desc@[q] as int])
                            && regs[desc@[q] as int].len() > regs[c as int].len(),
                decreases desc@.len() - u,
            {
                let m = desc[u];
                assert(desc@.contains(m));
                assert(regions@[m as int]@ == regs[m as int]);
                if m != c && contains(&regions[m], &regions[c]) && regions[m].len() > regions[c].len() {
                    covered = true;
                }
                u += 1;
            }
            let ghost edge_now = is_edge(regs, p as int, c as int);
            proof {
                if covered {
                    let q = choose|q: int|
                        0 <= q < desc@.len() && #[trigger] desc@[q] != c && subset(regs[c as int], regs[desc@[q] as int])
                            && regs[desc@[q] as int].len() > regs[c as int].len();
                    assert(desc@.contains(desc@[q]));
                    assert(proper_super(regs, desc@[q] as int, p as int));
                    assert(!edge_now);
                } else {
                    assert forall|m: int|
                        0 <= m < regs.len() && m != c && #[trigger] proper_super(regs, m, p as int)
                            implies !(subset(regs[c as int], regs[m]) && regs[m].len() > regs[c as int].len()) by {
                        assert(desc@.contains(m as usize));
                        let q = choose|q: int| 0 <= q < desc@.len() && desc@[q] == m as usize;
                    }
                    assert(edge_now);
                }
            }
            if !covered {
                let ghost old_e = edges@;
                edges.push((p, c));
                proof {
                    assert forall|i: int, j: int| 0 <= i < j < edges@.len() implies pair_lt(edges@[i], edges@[j]) by {
                        if j == old_e.len() {
                            assert(edges@[i] == old_e[i]);
                            if t > 0 {
                                assert(desc@[t - 1] < desc@[t as int]);
                            }
                        }
                    }
                    assert forall|e: (usize, usize)| edges@.contains(e) <==> ((e.0 < p || (e.0 == p && exists|q: int| 0 <= q < t + 1 && desc@[q] == e.1)) && is_edge(regs, e.0 as int, e.1 as int)) by {
                        if edges@.contains(e) {
                            let i = choose|i: int| 0 <= i < edges@.len() && edges@[i] == e;
                            if i < old_e.len() {
                                assert(old_e[i] == e);
                                assert(old_e.contains(e));
                            } else {
                                assert(desc@[t as int] == e.1);
                            }
                        }
                        if e.0 == p && exists|q: int| 0 <= q < t + 1 && desc@[q] == e.1 {
                            let q = choose|q: int| 0 <= q < t + 1 && desc@[q] == e.1;
                            if q == t && is_edge(regs, e.0 as int, e.1 as int) {
                                assert(edges@[old_e.len() as int] == e);
                            }
                        }
                        if old_e.contains(e) {
                            let i = choose|i: int| 0 <= i < old_e.len() && old_e[i] == e;
                            assert(edges@[i] == e);
                        }
                    }
                    assert forall|i: int| 0 <= i < edges@.len() implies (#[trigger] edges@[i]).0 < p || ((edges@[i]).0 == p && (edges@[i]).1 <= desc@[t as int]) by {
                        if i < old_e.len() {
                            assert(edges@[i] == old_e[i]);
                            if t > 0 {
                                assert(desc@[t - 1] < desc@[t as int]);
                            }
                        }
                    }
                }
            } else {
                proof {
                    assert forall|e: (usize, usize)| edges@.contains(e) <==> ((e.0 < p || (e.0 == p && exists|q: int| 0 <= q < t + 1 && desc@[q] == e.1)) && is_edge(regs, e.0 as int, e.1 as int)) by {
                        if e.0 == p && exists|q: int| 0 <= q < t + 1 && desc@[q] == e.1 {
                            let q = choose|q: int| 0 <= q < t + 1 && desc@[q] == e.1;
                            if q == t {
                                assert(!is_edge(regs, e.0 as int, e.1 as int));
                            }
                        }
                    }
                    assert forall|i: int| 0 <= i < edges@.len() implies (#[trigger] edges@[i]).0 < p || ((edges@[i]).0 == p && (edges@[i]).1 <= desc@[t as int]) by {
                        if t > 0 {
                            assert(desc@[t - 1] < desc@[t as int]);
                        }
                    }
                }
            }
            t += 1;
        }
        proof {
            assert forall|e: (usize, usize)| edges@.contains(e) <==> (e.0 < p + 1 && is_edge(regs, e.0 as int, e.1 as int)) by {
                if e.0 == p && is_edge(regs, e.0 as int, e.1 as int) {
                    assert(proper_super(regs, e.1 as int, p as int));
                    assert(desc@.contains(e.1));
                }
            }
        }
        p += 1;
    }
    edges
}

impl RegionGraph {
    /// Close `outer` under intersection and compute the counting numbers.
    ///
    /// Outer regions are normalised (sorted, deduplicated) and reduced to an antichain: one that is
    /// a subset of another is dropped, since it is generated anyway and an outer region that is
    /// somebody's subset would be given `c = 1` twice.
    pub fn new(n: usize, outer: &[Vec<usize>]) -> (res: Result<RegionGraph, RegionError>)
        ensures
            match res {
                Ok(rg) => {
                    &&& (outer@.len() > 0 || n == 0)
                    &&& good_before(views(outer@), n as nat, outer@.len() as int)
                    &&& forall|x: usize| x < n ==> #[trigger] covered(views(outer@), x)
                    &&& rg.built_from(n as nat, views(outer@))
                },
                Err(RegionError::NoOuterRegions { n: nn }) => outer@.len() == 0 && n > 0 && nn == n,
                Err(RegionError::EmptyRegion { index }) => {
                    &&& index < outer@.len()
                    &&& good_before(views(outer@), n as nat, index as int)
                    &&& outer@[index as int]@.len() == 0
                },
                Err(RegionError::OutOfRange { index, var, n: nn }) => {
                    &&& index < outer@.len()
                    &&& good_before(views(outer@), n as nat, index as int)
                    &&& outer@[index as int]@.len() > 0
                    &&& nn == n
                    &&& outer@[index as int]@.contains(var)
                    &&& var >= n
                    &&& forall|y: usize| outer@[index as int]@.contains(y) && y >= n ==> var <= y
                },
                Err(RegionError::TooLarge { index, vars, max }) => {
                    &&& index < outer@.len()
                    &&& good_before(views(outer@), n as nat, index as int)
                    &&& outer@[index as int]@.len() > 0
                    &&& !names_out_of_range(views(outer@), n as nat, index as int)
                    &&& max == MAX_REGION
                    &&& vars > MAX_REGION
                    &&& exists|v: Seq<usize>| is_normal_of(v, outer@[index as int]@) && v.len() == vars
                },
                Err(RegionError::Uncovered { var }) => {
                    &&& outer@.len() > 0
                    &&& good_before(views(outer@), n as nat, outer@.len() as int)
                    &&& var < n
                    &&& !covered(views(outer@), var)
                    &&& forall|y: usize| y < var ==> #[trigger] covered(views(outer@), y)
                },
                Err(RegionError::CountingOverflow { region }) => {
                    &&& outer@.len() > 0
                    &&& good_before(views(outer@), n as nat, outer@.len() as int)
                    &&& forall|x: usize| x < n ==> #[trigger] covered(views(outer@), x)
                    &&& (n > i64::MAX || exists|i: int, v: Seq<usize>|
                        0 <= i < outer@.len() && #[trigger] is_normal_of(v, outer@[i]@) && v.len() > 2)
                    &&& exists|regs: Seq<Seq<usize>>| #[trigger] lattice_of(views(outer@), regs) && moebius_overflows(regs)
                        && region < regs.len()
                    &&& forall|regs: Seq<Seq<usize>>| #[trigger] lattice_of(views(outer@), regs) ==> moebius_overflows(regs)
                        && regs.len() > 63
                },
            },
    {
        let ghost ov = views(outer@);
        if outer.len() == 0 {
            if n == 0 {
                let rg = RegionGraph {
                    n,
                    regions: Vec::new(),
                    counting: Vec::new(),
                    edges: Vec::new(),
                    ancestors: Vec::new(),
                    descendants: Vec::new(),
                };
                proof {
                    assert(views(rg.regions@) =~= Seq::<Seq<usize>>::empty());
                    assert forall|r: Seq<usize>| strictly_inc(r) implies (rg.regs().contains(r)
                        <==> region_of(ov, r)) by {
                        if region_of(ov, r) {
                            let i = choose|i: int| is_outer_max(ov, i) && #[trigger] subset(r, ov[i]);
                        }
                    }
                    assert forall|e: (usize, usize)| rg.edges@.contains(e) <==> is_edge(
                        rg.regs(),
                        e.0 as int,
                        e.1 as int,
                    ) by {}
                }
                return Ok(rg);
            }
            return Err(RegionError::NoOuterRegions { n });
        }
        let norm = match validate(n, outer) {
            Ok(v) => v,
            Err(e) => {
                return Err(e);
            },
        };
        let ghost nv = views(norm@);
        proof {
            assert forall|i: int| 0 <= i < nv.len() implies #[trigger] same_vars(nv[i], ov[i]) by {
                assert(is_normal_of(norm@[i]@, outer@[i]@));
            }
            assert forall|i: int, q: int|
                0 <= i < norm@.len() && 0 <= q < norm@[i]@.len() implies #[trigger] norm@[i]@[q]
                < n by {
                assert(is_normal_of(norm@[i]@, outer@[i]@));
                assert(norm@[i]@.contains(norm@[i]@[q]));
                assert(outer@[i]@.contains(norm@[i]@[q]));
                assert(!region_bad(ov, n as nat, i));
                assert(ov[i].contains(norm@[i]@[q]));
            }
            assert forall|x: usize| #![trigger covered(nv, x)] #![trigger covered(ov, x)] covered(nv, x) <==> covered(ov, x) by {
                if covered(nv, x) {
                    let i = choose|i: int| 0 <= i < nv.len() && #[trigger] nv[i].contains(x);
                    assert(same_vars(nv[i], ov[i]));
                }
                if covered(ov, x) {
                    let i = choose|i: int| 0 <= i < ov.len() && #[trigger] ov[i].contains(x);
                    assert(same_vars(nv[i], ov[i]));
                }
            }
        }
        match first_uncovered(n, &norm) {
            Some(var) => {
                return Err(RegionError::Uncovered { var });
            },
            None => {},
        }
        let anti = maximal(&norm);
        let ghost av = views(anti@);
        proof {
            assert forall|i: int| 0 <= i < anti@.len() implies strictly_inc(#[trigger] anti@[i]@)
                && anti@[i]@.len() > 0 by {
                assert(av[i] == anti@[i]@);
                assert(is_max_region(nv, av[i]));
                let j = choose|j: int| is_outer_max(nv, j) && av[i] == #[trigger] nv[j];
                assert(is_normal_of(norm@[j]@, outer@[j]@));
                assert(!region_bad(ov, n as nat, j));
                assert(ov[j].contains(ov[j][0]));
                assert(nv[j].contains(ov[j][0]));
            }
        }
        let fam = close_under_intersection(&anti);
        let ghost fv = views(fam@);
        let regions = sort_regions(fam);
        let ghost regs = views(regions@);
        let k = regions.len();
        proof {
            assert forall|q: int| 0 <= q < k implies strictly_inc(#[trigger] regs[q]) by {
                assert(regs.contains(regs[q]));
                assert(fv.contains(regs[q]));
                let i = choose|i: int| 0 <= i < fv.len() && fv[i] == regs[q];
            }
        }
        let mut ancestors: Vec<Vec<usize>> = Vec::new();
        let mut descendants: Vec<Vec<usize>> = Vec::new();
        let mut r: usize = 0;
        while r < k
            invariant
                regs == views(regions@),
                k == regions@.len(),
                r <= k,
                ancestors@.len() == r,
                descendants@.len() == r,
                forall|q: int|
                    0 <= q < r ==> lists(#[trigger] ancestors@[q]@, k as int, |s: int| proper_super(regs, q, s)),
                forall|q: int|
                    0 <= q < r ==> lists(#[trigger] descendants@[q]@, k as int, |s: int| proper_super(regs, s, q)),
            decreases k - r,
        {
            ancestors.push(supersets_of(&regions, r));
            descendants.push(subsets_of(&regions, r));
            r += 1;
        }
        proof {
            assert forall|r: Seq<usize>| strictly_inc(r) implies (regs.contains(r) <==> region_of(ov, r)) by {
                lemma_antichain_closure(av, nv, r);
                lemma_region_of_normal(ov, nv, r);
                if fv.contains(r) {
                    let i = choose|i: int| 0 <= i < fv.len() && fv[i] == r;
                    assert(in_closure(av, fv[i]));
                }
            }
            assert(lattice_of(ov, regs));
        }
        let counting = match moebius(&regions, &ancestors, Ghost(n as nat)) {
            Ok(c) => c,
            Err(region) => {
                proof {
                    if n <= i64::MAX && !(exists|i: int, v: Seq<usize>|
                        0 <= i < outer@.len() && #[trigger] is_normal_of(v, outer@[i]@) && v.len() > 2) {
                        assert forall|q: int| 0 <= q < regs.len() implies 1 <= (#[trigger] regs[q]).len() <= 2
                            && forall|t: int| 0 <= t < regs[q].len() ==> regs[q][t] < n by {
                            assert(regs.contains(regs[q]));
                            assert(fv.contains(regs[q]));
                            let i = choose|i: int| 0 <= i < fv.len() && fv[i] == regs[q];
                            assert(in_closure(av, fv[i]));
                            let a = choose|a: int| 0 <= a < av.len() && #[trigger] subset(regs[q], av[a]);
                            assert(is_max_region(nv, av[a]));
                            let j = choose|j: int| is_outer_max(nv, j) && av[a] == #[trigger] nv[j];
                            assert(is_normal_of(norm@[j]@, outer@[j]@));
                            assert(nv[j].len() <= 2);
                            lemma_subset_len(regs[q], nv[j]);
                            assert forall|t: int| 0 <= t < regs[q].len() implies regs[q][t] < n by {
                                assert(regs[q].contains(regs[q][t]));
                                assert(nv[j].contains(regs[q][t]));
                                let p = choose|p: int| 0 <= p < nv[j].len() && nv[j][p] == regs[q][t];
                                assert(norm@[j]@[p] < n);
                            }
                        }
                        assert(small_regions(regs, n as nat));
                    }
                }
                proof {
                    let end = choose|e: int|
                        0 <= e <= region && !(i64::MIN <= 1 - #[trigger] moebius_prefix(regs, region as int, e)
                            <= i64::MAX);
                    assert(moebius_overflows(regs)) by {
                        assert(0 <= end <= region < regs.len() && !(i64::MIN <= 1 - moebius_prefix(regs, region as int, end)
                            <= i64::MAX));
                    }
                    assert(lattice_of(views(outer@), regs));
                    assert forall|other: Seq<Seq<usize>>| #[trigger] lattice_of(views(outer@), other) implies moebius_overflows(
                        other,
                    ) && other.len() > 63 by {
                        lemma_lattice_unique(views(outer@), regs, other);
                        if other.len() <= 63 {
                            lemma_small_lattices_fit(other);
                        }
                    }
                }
                return Err(RegionError::CountingOverflow { region });
            },
        };
        let edges = hasse(&regions, &descendants);
        let rg = RegionGraph { n, regions, counting, edges, ancestors, descendants };
        proof {
            assert(rg.regs() == regs);
            lemma_max_len(nv, nv.len() as int);
            assert forall|i: int| 0 <= i < ov.len() implies inside_some_region(regs, #[trigger] ov[i]) by {
                lemma_max_above(nv, i, max_len(nv, nv.len() as int));
                let j = choose|j: int| is_outer_max(nv, j) && #[trigger] subset(nv[i], nv[j]);
                assert(nv[j].len() > 0) by {
                    assert(is_normal_of(norm@[j]@, outer@[j]@));
                    assert(!region_bad(ov, n as nat, j));
                    assert(ov[j].contains(ov[j][0]));
                    assert(nv[j].contains(ov[j][0]));
                }
                assert(subset(nv[j], nv[j]));
                assert(region_of(nv, nv[j]));
                lemma_antichain_closure(av, nv, nv[j]);
                lemma_region_of_normal(ov, nv, nv[j]);
                assert(fv.contains(nv[j]));
                assert(regs.contains(nv[j]));
                let r = choose|r: int| 0 <= r < regs.len() && regs[r] == nv[j];
                assert(same_vars(nv[i], ov[i]));
                assert(subset(ov[i], regs[r]));
            }
            assert forall|r: Seq<usize>| strictly_inc(r) implies (rg.regs().contains(r) <==> region_of(
                ov,
                r,
            )) by {
                lemma_antichain_closure(av, nv, r);
                lemma_region_of_normal(ov, nv, r);
                if fv.contains(r) {
                    let i = choose|i: int| 0 <= i < fv.len() && fv[i] == r;
                    assert(in_closure(av, fv[i]));
                }
            }
        }
        Ok(rg)
    }
}

// ---------------------------------------------------------------------------------------------
// How many times the counting numbers count a variable or a coupling.
// ---------------------------------------------------------------------------------------------

/// `sum of counting[r]` over `r < end` whose region holds every variable of `x`.
pub open spec fn cover_sum(regs: Seq<Seq<usize>>, counting: Seq<i64>, x: Seq<usize>, end: int) -> int
    decreases end,
{
    if end <= 0 {
        0
    } else {
        cover_sum(regs, counting, x, end - 1) + (if subset(x, regs[end - 1]) {
            counting[end - 1] as int
        } else {
            0int
        })
    }
}

/// The number of regions a graph's sums run over: regions and counting numbers paired up.
pub open spec fn paired(rg: RegionGraph) -> int {
    if rg.regions@.len() <= rg.counting@.len() {
        rg.regions@.len() as int
    } else {
        rg.counting@.len() as int
    }
}

/// Whether a value fits in an `i64`.
pub open spec fn fits_i64(v: int) -> bool {
    i64::MIN <= v <= i64::MAX
}

impl RegionGraph {
    /// `sum of c_R` over the regions holding every variable of `x`, exactly, in 128 bits.
    fn cover_total(&self, x: &Vec<usize>) -> (t: i128)
        ensures
            t == cover_sum(self.regs(), self.counting@, x@, paired(*self)),
    {
        let end = if self.regions.len() <= self.counting.len() {
            self.regions.len()
        } else {
            self.counting.len()
        };
        let mut acc: i128 = 0;
        let mut r: usize = 0;
        while r < end
            invariant
                end == paired(*self),
                end <= self.regions@.len(),
                end <= self.counting@.len(),
                r <= end,
                acc == cover_sum(self.regs(), self.counting@, x@, r as int),
                -(r as int) * 0x8000_0000_0000_0000 <= acc <= (r as int) * 0x8000_0000_0000_0000,
            decreases end - r,
        {
            assert(self.regions@[r as int]@ == self.regs()[r as int]);
            if contains(&self.regions[r], x) {
                acc = acc + self.counting[r] as i128;
            }
            r += 1;
        }
        acc
    }

    /// Region count.
    pub fn len(&self) -> (k: usize)
        ensures
            k == self.regions@.len(),
    {
        self.regions.len()
    }

    /// Whether there are no regions at all, which happens only for a model with no variables.
    pub fn is_empty(&self) -> (e: bool)
        ensures
            e == (self.regions@.len() == 0),
    {
        self.regions.len() == 0
    }

    /// How many times the counting numbers count variable `v`: `sum of c_R` over regions holding
    /// `v`, which must be one.
    pub fn variable_counting(&self, v: usize) -> (c: i64)
        requires
            fits_i64(cover_sum(self.regs(), self.counting@, seq![v], paired(*self))),
        ensures
            c == cover_sum(self.regs(), self.counting@, seq![v], paired(*self)),
    {
        let mut x: Vec<usize> = Vec::new();
        x.push(v);
        assert(x@ =~= seq![v]);
        self.cover_total(&x) as i64
    }

    /// How many times the counting numbers count the pair `(u, v)`: `sum of c_R` over regions
    /// holding both. One for a pair that lies inside some region; zero for a pair no region holds.
    pub fn pair_counting(&self, u: usize, v: usize) -> (c: i64)
        requires
            fits_i64(cover_sum(self.regs(), self.counting@, seq![u, v], paired(*self))),
        ensures
            c == cover_sum(self.regs(), self.counting@, seq![u, v], paired(*self)),
    {
        let mut x: Vec<usize> = Vec::new();
        x.push(u);
        x.push(v);
        assert(x@ =~= seq![u, v]);
        self.cover_total(&x) as i64
    }

    /// Whether every variable is counted exactly once -- the invariant the whole construction
    /// exists to satisfy.
    pub fn counts_each_variable_once(&self) -> (ok: bool)
        ensures
            ok == forall|v: usize| v < self.n ==> #[trigger] cover_sum(
                self.regs(),
                self.counting@,
                seq![v],
                paired(*self),
            ) == 1,
    {
        let mut v: usize = 0;
        while v < self.n
            invariant
                v <= self.n,
                forall|w: usize| w < v ==> #[trigger] cover_sum(
                    self.regs(),
                    self.counting@,
                    seq![w],
                    paired(*self),
                ) == 1,
            decreases self.n - v,
        {
            let mut x: Vec<usize> = Vec::new();
            x.push(v);
            assert(x@ =~= seq![v]);
            if self.cover_total(&x) != 1 {
                return false;
            }
            v += 1;
        }
        true
    }

    /// Whether every coupling of `g` lies inside some region and is counted exactly once.
    ///
    /// A coupling no region holds is silently absent from the Kikuchi free energy, which is a
    /// different model rather than an approximation of this one.
    pub fn counts_each_coupling_once(&self, g: &Graph) -> (ok: bool)
        requires
            crate::graph::rows_ok(g.n as nat, g.h_bits@, g.offset@, g.nbr@, g.w_bits@),
        ensures
            ok == forall|i: int, k: int|
                0 <= i < g.n && #[trigger] in_row(g.offset@, i, k) && g.nbr@[k] > i ==> cover_sum(
                    self.regs(),
                    self.counting@,
                    seq![i as usize, g.nbr@[k] as usize],
                    paired(*self),
                ) == 1,
    {
        let mut i: usize = 0;
        while i < g.n
            invariant
                crate::graph::rows_ok(g.n as nat, g.h_bits@, g.offset@, g.nbr@, g.w_bits@),
                i <= g.n,
                forall|a: int, k: int|
                    0 <= a < i && #[trigger] in_row(g.offset@, a, k) && g.nbr@[k] > a ==> cover_sum(
                        self.regs(),
                        self.counting@,
                        seq![a as usize, g.nbr@[k] as usize],
                        paired(*self),
                    ) == 1,
            decreases g.n - i,
        {
            assert(g.offset@[i as int] <= g.offset@[i + 1] <= g.nbr@.len());
            let mut e = g.offset[i];
            while e < g.offset[i + 1]
                invariant
                    crate::graph::rows_ok(g.n as nat, g.h_bits@, g.offset@, g.nbr@, g.w_bits@),
                    i < g.n,
                    g.offset@[i as int] <= e <= g.offset@[i + 1],
                    forall|a: int, k: int|
                        0 <= a < i && #[trigger] in_row(g.offset@, a, k) && g.nbr@[k] > a ==> cover_sum(
                            self.regs(),
                            self.counting@,
                            seq![a as usize, g.nbr@[k] as usize],
                            paired(*self),
                        ) == 1,
                    forall|k: int|
                        g.offset@[i as int] <= k < e && g.nbr@[k] > i ==> cover_sum(
                            self.regs(),
                            self.counting@,
                            seq![i, g.nbr@[k] as usize],
                            paired(*self),
                        ) == 1,
                decreases g.offset@[i + 1] - e,
            {
                let j = g.nbr[e] as usize;
                if j > i {
                    let mut x: Vec<usize> = Vec::new();
                    x.push(i);
                    x.push(j);
                    assert(x@ =~= seq![i, j]);
                    if self.cover_total(&x) != 1 {
                        assert(in_row(g.offset@, i as int, e as int));
                        return false;
                    }
                }
                e += 1;
            }
            proof {
                assert forall|a: int, k: int|
                    0 <= a < i + 1 && #[trigger] in_row(g.offset@, a, k) && g.nbr@[k] > a implies cover_sum(
                        self.regs(),
                        self.counting@,
                        seq![a as usize, g.nbr@[k] as usize],
                        paired(*self),
                    ) == 1 by {
                    if a == i {
                        assert(g.offset@[a] <= k < e);
                    }
                }
            }
            i += 1;
        }
        true
    }
}

/// Splitting a cover sum at the smallest region holding `x`: every region holding `x` is that
/// region or a strict superset of it.
proof fn lemma_cover_sum_split(
    regs: Seq<Seq<usize>>,
    counting: Seq<i64>,
    x: Seq<usize>,
    m: int,
    end: int,
)
    requires
        0 <= m,
        forall|r: int| 0 <= r < end ==> (subset(x, #[trigger] regs[r]) <==> (r == m || proper_super(regs, m, r))),
    ensures
        cover_sum(regs, counting, x, end) == (if m < end { counting[m] as int } else { 0int })
            + super_sum(regs, counting, m, end),
    decreases end,
{
    if end > 0 {
        lemma_cover_sum_split(regs, counting, x, m, end - 1);
        assert(subset(x, regs[end - 1]) <==> (end - 1 == m || proper_super(regs, m, end - 1)));
    }
}

/// The counting identity of a region graph: any nonempty set of variables that lies together in
/// some region is counted exactly once by the regions holding it. This is what makes the Kikuchi
/// free energy an approximation to this model rather than to a reweighted one.
pub proof fn lemma_counted_once(rg: RegionGraph, n: nat, outer: Seq<Seq<usize>>, x: Seq<usize>)
    requires
        rg.built_from(n, outer),
        x.len() > 0,
        inside_some_region(rg.regs(), x),
    ensures
        cover_sum(rg.regs(), rg.counting@, x, rg.regs().len() as int) == 1,
{
    let regs = rg.regs();
    let k = regs.len() as int;
    let r0 = choose|r: int| 0 <= r < regs.len() && #[trigger] subset(x, regs[r]);
    assert(strictly_inc(regs[r0]));
    assert(regs.contains(regs[r0]));
    assert(region_of(outer, regs[r0]));
    let i0 = choose|i: int| is_outer_max(outer, i) && #[trigger] subset(regs[r0], outer[i]);
    let pred = |y: usize|
        forall|i: int| is_outer_max(outer, i) && #[trigger] subset(x, outer[i]) ==> outer[i].contains(y);
    let ms = keep(regs[r0], pred);
    assert forall|y: usize| ms.contains(y) <==> (regs[r0].contains(y) && pred(y)) by {
        lemma_keep_contains(regs[r0], pred, y);
    }
    lemma_keep_sorted(regs[r0], pred);
    // x lies in ms.
    assert forall|y: usize| x.contains(y) implies ms.contains(y) by {
        assert forall|i: int| is_outer_max(outer, i) && #[trigger] subset(x, outer[i]) implies outer[
            i].contains(y) by {}
    }
    assert(x.contains(x[0]));
    assert(ms.contains(x[0]));
    assert(ms.len() > 0);
    // ms is a region.
    assert(subset(x, outer[i0]));
    assert(subset(ms, outer[i0]));
    assert forall|y: usize|
        (forall|i: int| is_outer_max(outer, i) && #[trigger] subset(ms, outer[i]) ==> outer[i].contains(
            y,
        )) implies ms.contains(y) by {
        assert forall|i: int| is_outer_max(outer, i) && #[trigger] subset(x, outer[i]) implies outer[
            i].contains(y) by {
            assert forall|z: usize| ms.contains(z) implies outer[i].contains(z) by {
                assert(pred(z));
            }
            assert(subset(ms, outer[i]));
        }
        assert forall|i: int| is_outer_max(outer, i) && #[trigger] subset(regs[r0], outer[i]) implies outer[
            i].contains(y) by {
            assert(subset(x, outer[i]));
        }
    }
    assert(region_of(outer, ms));
    assert(regs.contains(ms));
    let m = choose|m: int| 0 <= m < regs.len() && regs[m] == ms;
    // The regions holding x are m and its strict supersets.
    assert forall|r: int| 0 <= r < k implies (subset(x, #[trigger] regs[r]) <==> (r == m || proper_super(regs, m, r))) by {
        if subset(x, regs[r]) {
            assert(regs.contains(regs[r]));
            assert(region_of(outer, regs[r]));
            assert forall|y: usize| ms.contains(y) implies regs[r].contains(y) by {
                assert forall|i: int| is_outer_max(outer, i) && #[trigger] subset(regs[r], outer[i]) implies outer[
                    i].contains(y) by {
                    assert(subset(x, outer[i]));
                    assert(pred(y));
                }
            }
        }
    }
    lemma_cover_sum_split(regs, rg.counting@, x, m, k);
    assert(rg.counting@[m] == 1 - super_sum(regs, rg.counting@, m, k));
}

/// Keeping the entries of a sorted list keeps it sorted.
proof fn lemma_keep_sorted(s: Seq<usize>, p: spec_fn(usize) -> bool)
    requires
        strictly_inc(s),
    ensures
        strictly_inc(keep(s, p)),
    decreases s.len(),
{
    if s.len() > 0 {
        let d = s.drop_last();
        lemma_keep_sorted(d, p);
        let k = keep(d, p);
        if p(s.last()) {
            assert forall|i: int, j: int| 0 <= i < j < k.len() + 1 implies keep(s, p)[i] < keep(
                s,
                p,
            )[j] by {
                if j == k.len() {
                    lemma_keep_contains(d, p, k[i]);
                    assert(k.contains(k[i]));
                    let q = choose|q: int| 0 <= q < d.len() && d[q] == k[i];
                    assert(s[q] == k[i]);
                }
            }
        }
    }
}

/// Every variable of a region graph built from outer regions is counted exactly once.
pub proof fn lemma_each_variable_counted_once(rg: RegionGraph, n: nat, outer: Seq<Seq<usize>>)
    requires
        rg.built_from(n, outer),
    ensures
        forall|v: usize| v < n ==> #[trigger] cover_sum(rg.regs(), rg.counting@, seq![v], paired(rg)) == 1,
{
    assert(paired(rg) == rg.regs().len());
    assert forall|v: usize| v < n implies #[trigger] cover_sum(rg.regs(), rg.counting@, seq![v], paired(rg)) == 1 by {
        assert(covered(outer, v));
        let i = choose|i: int| 0 <= i < outer.len() && #[trigger] outer[i].contains(v);
        assert(inside_some_region(rg.regs(), outer[i]));
        let r = choose|r: int| 0 <= r < rg.regs().len() && #[trigger] subset(outer[i], rg.regs()[r]);
        assert(subset(seq![v], rg.regs()[r]));
        lemma_counted_once(rg, n, outer, seq![v]);
    }
}

// ---------------------------------------------------------------------------------------------
// The Bethe region graph and the square-lattice plaquettes.
// ---------------------------------------------------------------------------------------------

/// Whether spin `i` of `g` has no coupling at all.
pub open spec fn isolated(g: Graph, i: int) -> bool {
    g.offset@[i] == g.offset@[i + 1]
}

/// Whether `r` is `[a, j]` for a coupling `a < j` with `a < lim`.
pub open spec fn pair_region(g: Graph, r: Seq<usize>, lim: int) -> bool {
    exists|a: int, k: int|
        0 <= a < lim && #[trigger] in_row(g.offset@, a, k) && a < g.nbr@[k] && r == seq![
            a as usize,
            g.nbr@[k] as usize,
        ]
}

/// Whether `r` is `[a]` for an isolated spin `a < lim`.
pub open spec fn single_region(g: Graph, r: Seq<usize>, lim: int) -> bool {
    exists|a: int| 0 <= a < lim && #[trigger] isolated(g, a) && r == seq![a as usize]
}

/// Whether `outer` is the Bethe choice of outer regions for `g`: one region `[i, j]` per coupling
/// `i < j`, one singleton per isolated spin, and nothing else.
pub open spec fn bethe_outer(g: Graph, outer: Seq<Seq<usize>>) -> bool {
    &&& forall|t: int|
        0 <= t < outer.len() ==> pair_region(g, #[trigger] outer[t], g.n as int) || single_region(
            g,
            outer[t],
            g.n as int,
        )
    &&& forall|i: int, k: int|
        0 <= i < g.n && #[trigger] in_row(g.offset@, i, k) && i < g.nbr@[k] ==> outer.contains(
            seq![i as usize, g.nbr@[k] as usize],
        )
    &&& forall|i: int| 0 <= i < g.n && #[trigger] isolated(g, i) ==> outer.contains(seq![i as usize])
}

/// Every Bethe outer region is acceptable and names at most two variables.
proof fn lemma_bethe_regions_ok(g: Graph, ov: Seq<Seq<usize>>)
    requires
        g.wf(),
        bethe_outer(g, ov),
    ensures
        forall|t: int| 0 <= t < ov.len() ==> !#[trigger] region_bad(ov, g.n as nat, t),
        forall|t: int, v: Seq<usize>|
            0 <= t < ov.len() && #[trigger] is_normal_of(v, ov[t]) ==> v.len() <= 2,
{
    assert forall|t: int| 0 <= t < ov.len() implies !#[trigger] region_bad(ov, g.n as nat, t)
        && strictly_inc(ov[t]) && ov[t].len() <= 2 by {
        if pair_region(g, ov[t], g.n as int) {
            let (a, k) = choose|a: int, k: int|
                0 <= a < g.n && #[trigger] in_row(g.offset@, a, k) && a < g.nbr@[k] && ov[t] == seq![
                    a as usize,
                    g.nbr@[k] as usize,
                ];
            assert(g.offset@[a + 1] <= g.offset@[g.n as int]);
            assert(g.nbr@[k] < g.n);
            assert forall|x: usize| #[trigger] ov[t].contains(x) implies x < g.n by {
                let q = choose|q: int| 0 <= q < ov[t].len() && ov[t][q] == x;
            }
            assert(strictly_inc(ov[t]));
            assert forall|v: Seq<usize>| #[trigger] is_normal_of(v, ov[t]) implies v.len() <= 2 by {
                lemma_sorted_unique(v, ov[t]);
            }
        } else {
            let a = choose|a: int| 0 <= a < g.n && #[trigger] isolated(g, a) && ov[t] == seq![a as usize];
            assert forall|x: usize| #[trigger] ov[t].contains(x) implies x < g.n by {
                let q = choose|q: int| 0 <= q < ov[t].len() && ov[t][q] == x;
            }
            assert(strictly_inc(ov[t]));
            assert forall|v: Seq<usize>| #[trigger] is_normal_of(v, ov[t]) implies v.len() <= 2 by {
                lemma_sorted_unique(v, ov[t]);
            }
        }
    }
    assert forall|t: int, v: Seq<usize>|
        0 <= t < ov.len() && #[trigger] is_normal_of(v, ov[t]) implies v.len() <= 2 by {
        assert(strictly_inc(ov[t]) && ov[t].len() <= 2);
        lemma_sorted_unique(v, ov[t]);
    }
}

/// Every spin of a well-formed model lies in some Bethe outer region.
proof fn lemma_bethe_covers(g: Graph, ov: Seq<Seq<usize>>)
    requires
        g.wf(),
        bethe_outer(g, ov),
    ensures
        forall|x: usize| x < g.n ==> #[trigger] covered(ov, x),
{
    assert forall|x: usize| x < g.n implies #[trigger] covered(ov, x) by {
        if isolated(g, x as int) {
            assert(ov.contains(seq![x]));
            let t = choose|t: int| 0 <= t < ov.len() && ov[t] == seq![x];
            assert(ov[t][0] == x);
            assert(ov[t].contains(x));
        } else {
            let k = g.offset@[x as int] as int;
            assert(g.offset@[x as int] <= g.offset@[x + 1]);
            assert(in_row(g.offset@, x as int, k));
            assert(g.offset@[x + 1] <= g.offset@[g.n as int]);
            let j = g.nbr@[k] as int;
            assert(j != x);
            if x < j {
                assert(ov.contains(seq![x, g.nbr@[k] as usize]));
                let t = choose|t: int| 0 <= t < ov.len() && ov[t] == seq![x, g.nbr@[k] as usize];
                assert(ov[t][0] == x);
                assert(ov[t].contains(x));
            } else {
                assert(crate::graph::has_entry(g.offset@, g.nbr@, g.w_bits@, j, x as int, g.w_bits@[k]));
                let k2 = choose|k2: int|
                    #[trigger] in_row(g.offset@, j, k2) && g.nbr@[k2] == x && g.w_bits@[k2] == g.w_bits@[k];
                assert(0 <= j < g.n);
                assert(ov.contains(seq![j as usize, g.nbr@[k2] as usize]));
                let t = choose|t: int| 0 <= t < ov.len() && ov[t] == seq![j as usize, g.nbr@[k2] as usize];
                assert(ov[t][1] == x);
                assert(ov[t].contains(x));
            }
        }
    }
}

impl RegionGraph {
    /// The Bethe region graph: every coupling is an outer region, plus a singleton for any spin
    /// the couplings miss. Closing that under intersection produces the shared endpoints, whose
    /// counting number comes out at `1 - d_i` -- the Bethe coefficient, derived rather than
    /// written down.
    pub fn bethe(g: &Graph) -> (rg: RegionGraph)
        requires
            g.wf(),
            g.n <= i64::MAX,
        ensures
            exists|outer: Seq<Seq<usize>>| bethe_outer(*g, outer) && #[trigger] rg.built_from(
                g.n as nat,
                outer,
            ),
    {
        let mut outer: Vec<Vec<usize>> = Vec::new();
        let mut i: usize = 0;
        while i < g.n
            invariant
                g.wf(),
                i <= g.n,
                forall|t: int|
                    0 <= t < outer@.len() ==> pair_region(*g, #[trigger] views(outer@)[t], i as int)
                        || single_region(*g, views(outer@)[t], i as int),
                forall|a: int, k: int|
                    0 <= a < i && #[trigger] in_row(g.offset@, a, k) && a < g.nbr@[k]
                        ==> views(outer@).contains(seq![a as usize, g.nbr@[k] as usize]),
                forall|a: int| 0 <= a < i && #[trigger] isolated(*g, a) ==> views(outer@).contains(
                    seq![a as usize],
                ),
            decreases g.n - i,
        {
            assert(g.offset@[i as int] <= g.offset@[i + 1] <= g.nbr@.len());
            let mut isolated_now = true;
            let mut e = g.offset[i];
            while e < g.offset[i + 1]
                invariant
                    g.wf(),
                    i < g.n,
                    g.offset@[i as int] <= e <= g.offset@[i + 1],
                    isolated_now == (e == g.offset@[i as int]),
                    forall|t: int|
                        0 <= t < outer@.len() ==> pair_region(*g, #[trigger] views(outer@)[t], i + 1)
                            || single_region(*g, views(outer@)[t], i as int),
                    forall|a: int, k: int|
                        0 <= a < i && #[trigger] in_row(g.offset@, a, k) && a < g.nbr@[k]
                            ==> views(outer@).contains(seq![a as usize, g.nbr@[k] as usize]),
                    forall|k: int|
                        g.offset@[i as int] <= k < e && i < g.nbr@[k]
                            ==> views(outer@).contains(seq![i, g.nbr@[k] as usize]),
                    forall|a: int| 0 <= a < i && #[trigger] isolated(*g, a) ==> views(outer@).contains(
                        seq![a as usize],
                    ),
                decreases g.offset@[i + 1] - e,
            {
                let j = g.nbr[e] as usize;
                isolated_now = false;
                if j > i {
                    let ghost before = views(outer@);
                    let mut pair: Vec<usize> = Vec::new();
                    pair.push(i);
                    pair.push(j);
                    assert(pair@ =~= seq![i, j]);
                    outer.push(pair);
                    proof {
                        assert(views(outer@) =~= before.push(seq![i, j]));
                        assert(in_row(g.offset@, i as int, e as int));
                        assert(views(outer@)[before.len() as int] == seq![i, j]);
                        assert forall|t: int| 0 <= t < outer@.len() implies pair_region(*g, #[trigger] views(outer@)[t], i + 1)
                            || single_region(*g, views(outer@)[t], i as int) by {
                            if t == before.len() {
                                assert(views(outer@)[t] == seq![i as usize, g.nbr@[e as int] as usize]);
                            } else {
                                assert(views(outer@)[t] == before[t]);
                            }
                        }
                        assert forall|x: Seq<usize>| before.contains(x) implies views(outer@).contains(x) by {
                            let t = choose|t: int| 0 <= t < before.len() && before[t] == x;
                            assert(views(outer@)[t] == x);
                        }
                    }
                }
                e += 1;
            }
            if isolated_now {
                let ghost before = views(outer@);
                let mut single: Vec<usize> = Vec::new();
                single.push(i);
                assert(single@ =~= seq![i]);
                outer.push(single);
                proof {
                    assert(views(outer@) =~= before.push(seq![i]));
                    assert(isolated(*g, i as int));
                    assert(views(outer@)[before.len() as int] == seq![i]);
                    assert forall|x: Seq<usize>| before.contains(x) implies views(outer@).contains(x) by {
                        let t = choose|t: int| 0 <= t < before.len() && before[t] == x;
                        assert(views(outer@)[t] == x);
                    }
                    assert forall|t: int| 0 <= t < outer@.len() implies pair_region(*g, #[trigger] views(outer@)[t], i + 1)
                        || single_region(*g, views(outer@)[t], i + 1) by {
                        if t == before.len() {
                            assert(views(outer@)[t] == seq![i as usize]);
                        } else {
                            assert(views(outer@)[t] == before[t]);
                        }
                    }
                }
            }
            proof {
                assert forall|a: int, k: int|
                    0 <= a < i + 1 && #[trigger] in_row(g.offset@, a, k) && a < g.nbr@[k]
                        implies views(outer@).contains(seq![a as usize, g.nbr@[k] as usize]) by {
                    if a == i {
                        assert(g.offset@[a] <= k < g.offset@[a + 1]);
                    }
                }
            }
            i += 1;
        }
        let ghost ov = views(outer@);
        proof {
            assert(bethe_outer(*g, ov));
            lemma_bethe_regions_ok(*g, ov);
            lemma_bethe_covers(*g, ov);
        }
        let slice = outer.as_slice();
        assert(views(slice@) =~= ov);
        let res = RegionGraph::new(g.n, slice);
        match res {
            Ok(rg) => rg,
            Err(e) => {
                proof {
                    assert(outer@.len() > 0 || g.n == 0) by {
                        if g.n > 0 {
                            assert(covered(ov, 0));
                        }
                    }
                    match e {
                        RegionError::EmptyRegion { index } => {
                            assert(!region_bad(ov, g.n as nat, index as int));
                        },
                        RegionError::OutOfRange { index, var, n } => {
                            assert(!region_bad(ov, g.n as nat, index as int));
                            assert(ov[index as int].contains(var));
                        },
                        RegionError::TooLarge { index, vars, max } => {
                            assert(!region_bad(ov, g.n as nat, index as int));
                        },
                        RegionError::Uncovered { var } => {
                            assert(covered(ov, var));
                        },
                        RegionError::CountingOverflow { region } => {
                            let (i, v) = choose|i: int, v: Seq<usize>|
                                0 <= i < slice@.len() && #[trigger] is_normal_of(v, slice@[i]@) && v.len() > 2;
                            assert(slice@[i]@ == ov[i]);
                        },
                        RegionError::NoOuterRegions { n } => {},
                    }
                    assert(false);
                }
                RegionGraph {
                    n: 0,
                    regions: Vec::new(),
                    counting: Vec::new(),
                    edges: Vec::new(),
                    ancestors: Vec::new(),
                    descendants: Vec::new(),
                }
            },
        }
    }
}

/// Every coupling of a graph is counted exactly once by its Bethe region graph.
pub proof fn lemma_bethe_counts_each_coupling_once(g: Graph, rg: RegionGraph, outer: Seq<Seq<usize>>)
    requires
        bethe_outer(g, outer),
        rg.built_from(g.n as nat, outer),
    ensures
        forall|i: int, k: int|
            0 <= i < g.n && #[trigger] in_row(g.offset@, i, k) && g.nbr@[k] > i ==> cover_sum(
                rg.regs(),
                rg.counting@,
                seq![i as usize, g.nbr@[k] as usize],
                paired(rg),
            ) == 1,
{
    assert(paired(rg) == rg.regs().len());
    assert forall|i: int, k: int|
        0 <= i < g.n && #[trigger] in_row(g.offset@, i, k) && g.nbr@[k] > i implies cover_sum(
            rg.regs(),
            rg.counting@,
            seq![i as usize, g.nbr@[k] as usize],
            paired(rg),
        ) == 1 by {
        let x = seq![i as usize, g.nbr@[k] as usize];
        assert(outer.contains(x));
        let t = choose|t: int| 0 <= t < outer.len() && outer[t] == x;
        assert(inside_some_region(rg.regs(), outer[t]));
        lemma_counted_once(rg, g.n as nat, outer, x);
    }
}

/// The four-node faces of a `w` by `h` grid, indexed `y * w + x`: the outer regions of the
/// square-lattice cluster variation method. Empty when either side is below two.
pub fn grid_plaquettes(w: usize, h: usize) -> (out: Vec<Vec<usize>>)
    requires
        w * h <= usize::MAX,
    ensures
        out@.len() == (if w >= 2 && h >= 2 { (w - 1) * (h - 1) } else { 0 }),
        forall|y: int, x: int|
            0 <= y < h - 1 && 0 <= x < w - 1 ==> #[trigger] out@[y * (w - 1) + x]@ == seq![
                (y * w + x) as usize,
                (y * w + x + 1) as usize,
                ((y + 1) * w + x) as usize,
                ((y + 1) * w + x + 1) as usize,
            ],
{
    let mut out: Vec<Vec<usize>> = Vec::new();
    let hh = if h >= 1 { h - 1 } else { 0 };
    let ww = if w >= 1 { w - 1 } else { 0 };
    let mut y: usize = 0;
    while y < hh
        invariant
            hh == (if h >= 1 { h - 1 } else { 0 }),
            ww == (if w >= 1 { w - 1 } else { 0 }),
            w * h <= usize::MAX,
            y <= hh,
            out@.len() == y * ww,
            forall|y2: int, x: int|
                0 <= y2 < y && 0 <= x < ww ==> #[trigger] out@[y2 * ww + x]@ == seq![
                    (y2 * w + x) as usize,
                    (y2 * w + x + 1) as usize,
                    ((y2 + 1) * w + x) as usize,
                    ((y2 + 1) * w + x + 1) as usize,
                ],
        decreases hh - y,
    {
        let mut x: usize = 0;
        while x < ww
            invariant
                hh == (if h >= 1 { h - 1 } else { 0 }),
                ww == (if w >= 1 { w - 1 } else { 0 }),
                w * h <= usize::MAX,
                y < hh,
                x <= ww,
                out@.len() == y * ww + x,
                forall|y2: int, x2: int|
                    (0 <= y2 < y && 0 <= x2 < ww) || (y2 == y && 0 <= x2 < x) ==> #[trigger] out@[y2 * ww + x2]@ == seq![
                        (y2 * w + x2) as usize,
                        (y2 * w + x2 + 1) as usize,
                        ((y2 + 1) * w + x2) as usize,
                        ((y2 + 1) * w + x2 + 1) as usize,
                    ],
            decreases ww - x,
        {
            proof {
                assert((y + 1) * w + x + 1 <= w * h) by (nonlinear_arith)
                    requires
                        y + 1 < h,
                        x + 1 < w,
                ;
                assert(y * w + x + 1 <= (y + 1) * w + x + 1) by (nonlinear_arith);
            }
            let mut face: Vec<usize> = Vec::new();
            face.push(y * w + x);
            face.push(y * w + x + 1);
            face.push((y + 1) * w + x);
            face.push((y + 1) * w + x + 1);
            let ghost before = out@;
            out.push(face);
            proof {
                assert forall|y2: int, x2: int|
                    (0 <= y2 < y && 0 <= x2 < ww) || (y2 == y && 0 <= x2 < x + 1) implies #[trigger] out@[y2 * ww + x2]@ == seq![
                        (y2 * w + x2) as usize,
                        (y2 * w + x2 + 1) as usize,
                        ((y2 + 1) * w + x2) as usize,
                        ((y2 + 1) * w + x2 + 1) as usize,
                    ] by {
                    if y2 == y && x2 == x {
                        assert(y2 * ww + x2 == before.len());
                        assert(out@[y2 * ww + x2]@ =~= seq![
                            (y2 * w + x2) as usize,
                            (y2 * w + x2 + 1) as usize,
                            ((y2 + 1) * w + x2) as usize,
                            ((y2 + 1) * w + x2 + 1) as usize,
                        ]);
                    } else {
                        assert(y2 * ww + x2 < before.len()) by (nonlinear_arith)
                            requires
                                (0 <= y2 < y && 0 <= x2 < ww) || (y2 == y && 0 <= x2 < x),
                                before.len() == y * ww + x,
                        ;
                        assert(out@[y2 * ww + x2] == before[y2 * ww + x2]);
                    }
                }
            }
            x += 1;
        }
        proof {
            assert((y + 1) * ww == y * ww + ww) by (nonlinear_arith);
        }
        y += 1;
    }
    proof {
        assert(out@.len() == hh * ww);
        if w >= 2 && h >= 2 {
            assert(hh * ww == (h - 1) * (w - 1));
        } else if w < 2 {
            assert(ww == 0);
            assert(hh * ww == 0) by (nonlinear_arith)
                requires
                    ww == 0,
            ;
        } else {
            assert(hh == 0);
        }
    }
    out
}

/// Whether two outer families name the same regions once each is normalised: every region of
/// one has the variables of some region of the other.
pub open spec fn same_family(a: Seq<Seq<usize>>, b: Seq<Seq<usize>>) -> bool {
    names_all(a, b) && names_all(b, a)
}

/// Whether every region of `a` has the variables of some region of `b`.
pub open spec fn names_all(a: Seq<Seq<usize>>, b: Seq<Seq<usize>>) -> bool {
    forall|i: int| #![trigger a[i]] 0 <= i < a.len() ==> exists|j: int| 0 <= j < b.len() && #[trigger] same_vars(a[i], b[j])
}

/// A maximal region of one family has a maximal counterpart with the same variables in a family
/// naming the same regions.
proof fn lemma_max_counterpart(a: Seq<Seq<usize>>, b: Seq<Seq<usize>>, i: int)
    requires
        same_family(a, b),
        is_outer_max(a, i),
    ensures
        exists|j: int| is_outer_max(b, j) && #[trigger] same_vars(a[i], b[j]),
{
    let j = choose|j: int| 0 <= j < b.len() && #[trigger] same_vars(a[i], b[j]);
    assert forall|j2: int| 0 <= j2 < b.len() implies !(#[trigger] subset(b[j], b[j2]) && !subset(b[j2], b[j])) by {
        let i2 = choose|i2: int| 0 <= i2 < a.len() && #[trigger] same_vars(b[j2], a[i2]);
        assert(!(subset(a[i], a[i2]) && !subset(a[i2], a[i])));
    }
    assert(is_outer_max(b, j));
}

/// Whether a region is generated depends only on the regions the family names.
proof fn lemma_region_of_same_family(a: Seq<Seq<usize>>, b: Seq<Seq<usize>>, r: Seq<usize>)
    requires
        same_family(a, b),
        region_of(a, r),
    ensures
        region_of(b, r),
{
    let i = choose|i: int| is_outer_max(a, i) && #[trigger] subset(r, a[i]);
    lemma_max_counterpart(a, b, i);
    let j = choose|j: int| is_outer_max(b, j) && #[trigger] same_vars(a[i], b[j]);
    assert(subset(r, b[j]));
    assert forall|x: usize|
        (forall|j2: int| is_outer_max(b, j2) && #[trigger] subset(r, b[j2]) ==> b[j2].contains(x)) implies r.contains(x) by {
        assert forall|i2: int| is_outer_max(a, i2) && #[trigger] subset(r, a[i2]) implies a[i2].contains(x) by {
            lemma_max_counterpart(a, b, i2);
            let j2 = choose|j2: int| is_outer_max(b, j2) && #[trigger] same_vars(a[i2], b[j2]);
            assert(subset(r, b[j2]));
            assert(b[j2].contains(x));
        }
    }
}

/// Counting numbers that satisfy the Moebius recursion on a sorted lattice are the exact ones.
proof fn lemma_counting_exact(regs: Seq<Seq<usize>>, counting: Seq<i64>, r: int)
    requires
        sorted_regions(regs),
        forall|q: int| 0 <= q < regs.len() ==> strictly_inc(#[trigger] regs[q]),
        counting.len() == regs.len(),
        forall|q: int|
            0 <= q < regs.len() ==> #[trigger] counting[q] == 1 - super_sum(regs, counting, q, regs.len() as int),
        0 <= r <= regs.len(),
    ensures
        forall|q: int| 0 <= q < r ==> #[trigger] counting[q] == moebius_number(regs, q),
    decreases r,
{
    if r > 0 {
        lemma_counting_exact(regs, counting, r - 1);
        let q = r - 1;
        assert forall|s: int| q <= s < regs.len() implies !proper_super(regs, q, s) by {
            if proper_super(regs, q, s) {
                lemma_super_before(regs, q, s);
            }
        }
        lemma_super_sum_skip(regs, counting, q, q, regs.len() as int);
        lemma_prefix_agrees(regs, counting, q, q);
        assert(counting[q] == moebius_number(regs, q));
    }
}

/// Two sequences of pairs in increasing order holding the same pairs are the same sequence.
proof fn lemma_sorted_pairs_unique(a: Seq<(usize, usize)>, b: Seq<(usize, usize)>)
    requires
        forall|i: int, j: int| 0 <= i < j < a.len() ==> pair_lt(a[i], a[j]),
        forall|i: int, j: int| 0 <= i < j < b.len() ==> pair_lt(b[i], b[j]),
        forall|e: (usize, usize)| a.contains(e) <==> b.contains(e),
    ensures
        a == b,
    decreases a.len(),
{
    if a.len() == 0 {
        if b.len() > 0 {
            assert(b.contains(b[0]));
        }
    } else if b.len() == 0 {
        assert(a.contains(a[0]));
    } else {
        assert(a.contains(a[0]));
        assert(b.contains(b[0]));
        let ia = choose|i: int| 0 <= i < a.len() && a[i] == b[0];
        let ib = choose|i: int| 0 <= i < b.len() && b[i] == a[0];
        assert(a[0] == b[0]) by {
            if a[0] != b[0] {
                assert(ia > 0 && ib > 0);
                assert(pair_lt(a[0], a[ia]));
                assert(pair_lt(b[0], b[ib]));
            }
        }
        let ta = a.drop_first();
        let tb = b.drop_first();
        assert forall|e: (usize, usize)| ta.contains(e) <==> tb.contains(e) by {
            if ta.contains(e) {
                let i = choose|i: int| 0 <= i < ta.len() && ta[i] == e;
                assert(pair_lt(a[0], a[i + 1]));
                assert(b.contains(e));
                let j = choose|j: int| 0 <= j < b.len() && b[j] == e;
                assert(j != 0);
                assert(tb[j - 1] == e);
            }
            if tb.contains(e) {
                let j = choose|j: int| 0 <= j < tb.len() && tb[j] == e;
                assert(pair_lt(b[0], b[j + 1]));
                assert(a.contains(e));
                let i = choose|i: int| 0 <= i < a.len() && a[i] == e;
                assert(i != 0);
                assert(ta[i - 1] == e);
            }
        }
        lemma_sorted_pairs_unique(ta, tb);
        assert(a =~= seq![a[0]] + ta);
        assert(b =~= seq![b[0]] + tb);
    }
}

/// Both families generate the same lattice.
proof fn lemma_same_family_same_regions(a: Seq<Seq<usize>>, b: Seq<Seq<usize>>, ra: Seq<Seq<usize>>, rb: Seq<Seq<usize>>)
    requires
        same_family(a, b),
        lattice_of(a, ra),
        lattice_of(b, rb),
    ensures
        ra == rb,
{
    assert forall|r: Seq<usize>| strictly_inc(r) implies (rb.contains(r) <==> region_of(a, r)) by {
        lemma_region_of_both_ways(a, b, r);
    }
    assert(lattice_of(a, rb));
    lemma_lattice_unique(a, ra, rb);
}

/// Families naming the same regions generate the same regions.
proof fn lemma_region_of_both_ways(a: Seq<Seq<usize>>, b: Seq<Seq<usize>>, r: Seq<usize>)
    requires
        same_family(a, b),
    ensures
        region_of(a, r) == region_of(b, r),
{
    if region_of(a, r) {
        lemma_region_of_same_family(a, b, r);
    }
    if region_of(b, r) {
        lemma_region_of_same_family(b, a, r);
    }
}

/// Two well-formed region graphs over the same regions agree in everything else.
proof fn lemma_structure_determined(ga: RegionGraph, gb: RegionGraph)
    requires
        ga.structure_ok(),
        gb.structure_ok(),
        ga.regs() == gb.regs(),
    ensures
        ga.counting@ == gb.counting@,
        ga.edges@ == gb.edges@,
        views(ga.ancestors@) == views(gb.ancestors@),
        views(ga.descendants@) == views(gb.descendants@),
{
    let regs = ga.regs();
    let k = regs.len() as int;
    lemma_counting_exact(regs, ga.counting@, k);
    lemma_counting_exact(regs, gb.counting@, k);
    assert(ga.counting@ =~= gb.counting@);
    lemma_sorted_pairs_unique(ga.edges@, gb.edges@);
    assert forall|r: int| 0 <= r < k implies views(ga.ancestors@)[r] == views(gb.ancestors@)[r] by {
        assert(lists(ga.ancestors@[r]@, k, |s: int| proper_super(regs, r, s)));
        assert(lists(gb.ancestors@[r]@, k, |s: int| proper_super(regs, r, s)));
        lemma_sorted_unique(ga.ancestors@[r]@, gb.ancestors@[r]@);
    }
    assert(views(ga.ancestors@) =~= views(gb.ancestors@));
    assert forall|r: int| 0 <= r < k implies views(ga.descendants@)[r] == views(gb.descendants@)[r] by {
        assert(lists(ga.descendants@[r]@, k, |s: int| proper_super(regs, s, r)));
        assert(lists(gb.descendants@[r]@, k, |s: int| proper_super(regs, s, r)));
        lemma_sorted_unique(ga.descendants@[r]@, gb.descendants@[r]@);
    }
    assert(views(ga.descendants@) =~= views(gb.descendants@));
}

/// A region graph depends only on the regions its outer family names: two families that name the
/// same regions once normalised (in any order, with any repeats) build the same regions, counting
/// numbers, edges, ancestors and descendants.
pub proof fn lemma_same_family_same_graph(
    n: nat,
    a: Seq<Seq<usize>>,
    b: Seq<Seq<usize>>,
    ga: RegionGraph,
    gb: RegionGraph,
)
    requires
        same_family(a, b),
        ga.built_from(n, a),
        gb.built_from(n, b),
    ensures
        ga.regs() == gb.regs(),
        ga.counting@ == gb.counting@,
        ga.edges@ == gb.edges@,
        views(ga.ancestors@) == views(gb.ancestors@),
        views(ga.descendants@) == views(gb.descendants@),
{
    assert(lattice_of(a, ga.regs()));
    assert(lattice_of(b, gb.regs()));
    lemma_same_family_same_regions(a, b, ga.regs(), gb.regs());
    lemma_structure_determined(ga, gb);
}

/// The partial sums of the exact Moebius numbers up to `end` are at most `2^end - 1` in size, once
/// every number below `r` is at most `2^s` in size.
proof fn lemma_prefix_bound(regs: Seq<Seq<usize>>, r: int, end: int)
    requires
        0 <= end <= r,
        forall|s: int|
            0 <= s < r ==> -(vstd::arithmetic::power2::pow2(s as nat) as int) <= #[trigger] moebius_number(regs, s)
                <= vstd::arithmetic::power2::pow2(s as nat),
    ensures
        -(vstd::arithmetic::power2::pow2(end as nat) as int) < moebius_prefix(regs, r, end)
            < vstd::arithmetic::power2::pow2(end as nat),
    decreases end,
{
    vstd::arithmetic::power2::lemma_pow2_pos(end as nat);
    if end > 0 {
        lemma_prefix_bound(regs, r, end - 1);
        vstd::arithmetic::power2::lemma_pow2_unfold(end as nat);
        assert(moebius_number(regs, end - 1) <= vstd::arithmetic::power2::pow2((end - 1) as nat));
    } else {
        assert(vstd::arithmetic::power2::pow2(0) == 1) by {
            vstd::arithmetic::power2::lemma2_to64();
        }
    }
}

/// The exact Moebius number of region `r` is at most `2^r` in size.
proof fn lemma_moebius_bound(regs: Seq<Seq<usize>>, r: int)
    requires
        0 <= r,
    ensures
        forall|s: int|
            0 <= s <= r ==> -(vstd::arithmetic::power2::pow2(s as nat) as int) <= #[trigger] moebius_number(regs, s)
                <= vstd::arithmetic::power2::pow2(s as nat),
    decreases r,
{
    if r > 0 {
        lemma_moebius_bound(regs, r - 1);
        lemma_prefix_bound(regs, r, r);
    } else {
        vstd::arithmetic::power2::lemma2_to64();
    }
    assert forall|s: int|
        0 <= s <= r implies -(vstd::arithmetic::power2::pow2(s as nat) as int) <= #[trigger] moebius_number(regs, s)
            <= vstd::arithmetic::power2::pow2(s as nat) by {
        if s == r && r > 0 {
            assert(moebius_number(regs, r) == 1 - moebius_prefix(regs, r, r));
        } else if s == 0 {
            vstd::arithmetic::power2::lemma2_to64();
        }
    }
}

/// A lattice of at most 63 regions never overflows: every Moebius number and every partial sum of
/// one fits in 64 bits, so a family generating such a lattice is never refused for its counting.
pub proof fn lemma_small_lattices_fit(regs: Seq<Seq<usize>>)
    requires
        regs.len() <= 63,
    ensures
        !moebius_overflows(regs),
{
    if regs.len() > 0 {
        lemma_moebius_bound(regs, regs.len() - 1);
    }
    vstd::arithmetic::power2::lemma2_to64_rest();
    assert forall|r: int, end: int| 0 <= end <= r < regs.len() implies i64::MIN <= 1 - #[trigger] moebius_prefix(regs, r, end)
        <= i64::MAX by {
        lemma_prefix_bound(regs, r, end);
        if end < 62 {
            vstd::arithmetic::power2::lemma_pow2_strictly_increases(end as nat, 62);
        }
    }
}

} // verus!
