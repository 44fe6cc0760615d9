//! Path relinking over an elite reference set: distances between states, and the exact replay of
//! a walk from its flip order.

use vstd::prelude::*;
use crate::graph::{Graph, is_zero_bits};

verus! {

/// Positions at which two sequences disagree, counted over the first `len` entries.
pub open spec fn disagreements(a: Seq<i8>, b: Seq<i8>, len: int) -> int
    decreases len,
{
    if len <= 0 {
        0
    } else {
        disagreements(a, b, len - 1) + (if a[len - 1] != b[len - 1] { 1int } else { 0int })
    }
}

/// The Hamming distance of two equal-length states.
pub open spec fn hamming_spec(a: Seq<i8>, b: Seq<i8>) -> int {
    disagreements(a, b, a.len() as int)
}

proof fn lemma_disagreements_bounded(a: Seq<i8>, b: Seq<i8>, len: int)
    requires
        len >= 0,
    ensures
        0 <= disagreements(a, b, len) <= len,
    decreases len,
{
    if len > 0 {
        lemma_disagreements_bounded(a, b, len - 1);
    }
}

/// Spins at which two states disagree.
pub fn hamming(a: &[i8], b: &[i8]) -> (d: usize)
    requires
        a@.len() == b@.len(),
    ensures
        d == hamming_spec(a@, b@),
        d <= a@.len(),
{
    let mut d: usize = 0;
    let mut i: usize = 0;
    while i < a.len()
        invariant
            a@.len() == b@.len(),
            i <= a@.len(),
            d == disagreements(a@, b@, i as int),
            d <= i,
        decreases a@.len() - i,
    {
        if a[i] != b[i] {
            d += 1;
        }
        i += 1;
    }
    d
}

/// Distance up to the global spin flip: `min(d, n - d)`.
pub fn gauge_distance(a: &[i8], b: &[i8]) -> (d: usize)
    requires
        a@.len() == b@.len(),
    ensures
        d == (if hamming_spec(a@, b@) <= a@.len() - hamming_spec(a@, b@) {
            hamming_spec(a@, b@)
        } else {
            a@.len() - hamming_spec(a@, b@)
        }),
{
    let d = hamming(a, b);
    let e = a.len() - d;
    if d <= e {
        d
    } else {
        e
    }
}

/// Whether every bias of `g` is zero, which is exactly when `s` and `-s` have the same energy.
pub fn field_free(g: &Graph) -> (r: bool)
    ensures
        r == (forall|i: int| 0 <= i < g.h_bits@.len() ==> is_zero_bits(#[trigger] g.h_bits@[i])),
{
    let mut i: usize = 0;
    while i < g.h_bits.len()
        invariant
            i <= g.h_bits@.len(),
            forall|j: int| 0 <= j < i ==> is_zero_bits(#[trigger] g.h_bits@[j]),
        decreases g.h_bits@.len() - i,
    {
        if !crate::graph::bits_are_zero(g.h_bits[i]) {
            return false;
        }
        i += 1;
    }
    true
}

/// The state `from` with the spins named by the first `k` entries of `flips` flipped, in order.
pub open spec fn replay_spec(from: Seq<i8>, flips: Seq<usize>, k: int) -> Seq<i8>
    decreases k,
{
    if k <= 0 {
        from
    } else {
        let prev = replay_spec(from, flips, k - 1);
        let i = flips[k - 1] as int;
        prev.update(i, (-prev[i]) as i8)
    }
}

/// Every state on a replayed path has the length of the start.
pub proof fn lemma_replay_len(from: Seq<i8>, flips: Seq<usize>, k: int)
    requires
        forall|j: int| 0 <= j < k ==> (#[trigger] flips[j]) < from.len(),
    ensures
        replay_spec(from, flips, k).len() == from.len(),
    decreases k,
{
    if k > 0 {
        lemma_replay_len(from, flips, k - 1);
    }
}

/// The state `k` flips along a path, rebuilt from the flip order alone.
pub fn replay(from: &[i8], flips: &[usize], k: usize) -> (s: Vec<i8>)
    requires
        k <= flips@.len(),
        forall|j: int| 0 <= j < k ==> (#[trigger] flips@[j]) < from@.len(),
        forall|j: int| 0 <= j < from@.len() ==> (#[trigger] from@[j]) != i8::MIN,
    ensures
        s@ == replay_spec(from@, flips@, k as int),
{
    let mut s: Vec<i8> = Vec::new();
    let mut c: usize = 0;
    while c < from.len()
        invariant
            c <= from@.len(),
            s@ == from@.subrange(0, c as int),
        decreases from@.len() - c,
    {
        s.push(from[c]);
        c += 1;
    }
    assert(s@ == from@);
    let mut t: usize = 0;
    while t < k
        invariant
            k <= flips@.len(),
            forall|j: int| 0 <= j < k ==> (#[trigger] flips@[j]) < from@.len(),
            forall|j: int| 0 <= j < from@.len() ==> (#[trigger] from@[j]) != i8::MIN,
            t <= k,
            s@ == replay_spec(from@, flips@, t as int),
            forall|j: int| 0 <= j < s@.len() ==> (#[trigger] s@[j]) != i8::MIN,
        decreases k - t,
    {
        proof {
            lemma_replay_len(from@, flips@, t as int);
        }
        let i = flips[t];
        let v = s[i];
        s.set(i, -v);
        t += 1;
    }
    s
}

/// What the reference set did with an offered solution.
#[derive(Clone, Copy, Debug, PartialEq, Eq)]
pub enum Admit {
    /// It entered the set, growing it or displacing the worst member.
    Added,
    /// It displaced a member it was too close to, being strictly better than that member.
    Replaced,
    /// A member sat within the diversity floor and it was no better than that member.
    TooClose,
    /// The set was full and it was no better than the worst member.
    TooWeak,
}

/// Scatter search with path relinking, as a portfolio arm.
#[derive(Clone, Copy, Debug, Default)]
pub struct Scatter;

/// The distance a reference set measures with: up to a global flip when `gauge` is set.
pub open spec fn distance_spec(a: Seq<i8>, b: Seq<i8>, gauge: bool) -> int {
    if gauge && a.len() - hamming_spec(a, b) < hamming_spec(a, b) {
        a.len() - hamming_spec(a, b)
    } else {
        hamming_spec(a, b)
    }
}

/// The held state nearest `s`, the first of them on a tie, with its distance; `None` when
/// nothing is held.
pub fn nearest(states: &[Vec<i8>], s: &[i8], gauge: bool) -> (near: Option<(usize, usize)>)
    requires
        forall|k: int| 0 <= k < states@.len() ==> (#[trigger] states@[k])@.len() == s@.len(),
    ensures
        near is None <==> states@.len() == 0,
        near matches Some((k, d)) ==> {
            &&& k < states@.len()
            &&& d == distance_spec(states@[k as int]@, s@, gauge)
            &&& forall|j: int| 0 <= j < states@.len() ==> d <= distance_spec(#[trigger] states@[j]@, s@, gauge)
            &&& forall|j: int| 0 <= j < k ==> d < distance_spec(#[trigger] states@[j]@, s@, gauge)
        },
{
    let mut best: Option<(usize, usize)> = None;
    let mut j: usize = 0;
    while j < states.len()
        invariant
            j <= states@.len(),
            forall|k: int| 0 <= k < states@.len() ==> (#[trigger] states@[k])@.len() == s@.len(),
            best is None <==> j == 0,
            best matches Some((k, d)) ==> {
                &&& k < j
                &&& d == distance_spec(states@[k as int]@, s@, gauge)
                &&& forall|t: int| 0 <= t < j ==> d <= distance_spec(#[trigger] states@[t]@, s@, gauge)
                &&& forall|t: int| 0 <= t < k ==> d < distance_spec(#[trigger] states@[t]@, s@, gauge)
            },
        decreases states@.len() - j,
    {
        let a = &states[j];
        let d = if gauge {
            gauge_distance(a.as_slice(), s)
        } else {
            hamming(a.as_slice(), s)
        };
        assert(d == distance_spec(states@[j as int]@, s@, gauge));
        let better = match best {
            Some((_, e)) => d < e,
            None => true,
        };
        if better {
            best = Some((j, d));
        }
        j += 1;
    }
    best
}

/// The target a gauge-aware relinking walks toward: on a model without biases, `-to` when that is
/// nearer `from` than `to` is (more than half the spins differ), else `to` itself. The flag says
/// which was taken.
pub fn gauge_target(g: &Graph, from: &[i8], to: &[i8]) -> (r: (Vec<i8>, bool))
    requires
        from@.len() == to@.len(),
        forall|i: int| 0 <= i < to@.len() ==> #[trigger] to@[i] != i8::MIN,
    ensures
        r.1 == ((forall|i: int| 0 <= i < g.h_bits@.len() ==> is_zero_bits(#[trigger] g.h_bits@[i])) && 2
            * hamming_spec(from@, to@) > g.n),
        r.0@.len() == to@.len(),
        forall|i: int| 0 <= i < to@.len() ==> #[trigger] r.0@[i] == (if r.1 { -to@[i] } else { to@[i] as int }),
{
    let flip = field_free(g) && 2 * (hamming(from, to) as u128) > g.n as u128;
    let mut t: Vec<i8> = Vec::new();
    let mut i: usize = 0;
    while i < to.len()
        invariant
            i <= to@.len(),
            t@.len() == i,
            forall|j: int| 0 <= j < to@.len() ==> #[trigger] to@[j] != i8::MIN,
            forall|j: int| 0 <= j < i ==> #[trigger] t@[j] == (if flip { -to@[j] } else { to@[j] as int }),
        decreases to@.len() - i,
    {
        t.push(if flip { -to[i] } else { to[i] });
        i += 1;
    }
    (t, flip)
}

} // verus!
