//! The energy of a model as a vector over the level-2 monomial classes, with each weight carried as
//! its IEEE-754 bit pattern.

use vstd::prelude::*;
use crate::graph::{Graph, in_row};
use crate::sos::{
    Level2, MAX_SPINS, basis_of, dim_of, entry_masks, lemma_basis_distinct, lemma_entry_names_product, lemma_firsts,
    lemma_pair_injective, lemma_pair_not_single, lemma_single_facts, pair_mask, single,
};

verus! {

/// The bit pattern of `-x`, for the `f64` `x` whose bits are `b`: negation flips the sign bit.
pub open spec fn negated(b: u64) -> u64 {
    b ^ 0x8000_0000_0000_0000u64
}

/// Whether row entry `k` of `g` couples spin `i` to a higher spin.
pub open spec fn upper_entry(g: Graph, i: int, k: int) -> bool {
    0 <= i < g.n && in_row(g.offset@, i, k) && g.nbr@[k] > i
}

/// The energy's coefficient on monomial `m`, as a bit pattern: `-h_i` on `s_i`, `-J_ij` on
/// `s_i s_j` for a coupling, and `+0.0` on every other monomial, the constant included.
pub open spec fn coefficient(g: Graph, m: u64) -> u64 {
    if exists|i: int| 0 <= i < g.n && m == #[trigger] single(i) {
        negated(g.h_bits@[choose|i: int| 0 <= i < g.n && m == #[trigger] single(i)])
    } else if exists|i: int, k: int| #[trigger] upper_entry(g, i, k) && m == pair_mask(i, g.nbr@[k] as int) {
        let (i, k) = choose|i: int, k: int| #[trigger] upper_entry(g, i, k) && m == pair_mask(i, g.nbr@[k] as int);
        negated(g.w_bits@[k])
    } else {
        0
    }
}


/// Whether row entry `k` of row `i` comes before entry `pk` of row `pi` in a row-major walk.
pub open spec fn passed(i: int, k: int, pi: int, pk: int) -> bool {
    i < pi || (i == pi && k < pk)
}

/// A spin below `si` whose monomial is `m`, when there is one.
pub open spec fn spin_written(m: u64, si: int) -> int {
    choose|i: int| 0 <= i < si && m == #[trigger] single(i)
}

/// A coupling passed before entry `pk` of row `pi` whose monomial is `m`, when there is one.
pub open spec fn entry_written(g: Graph, m: u64, pi: int, pk: int) -> (int, int) {
    choose|i: int, k: int| #[trigger] upper_entry(g, i, k) && passed(i, k, pi, pk) && m == pair_mask(i, g.nbr@[k] as int)
}

/// The coefficient as far as a walk has written it: the singles below `si`, and the couplings of
/// the rows below `pi` and of row `pi` before entry `pk`.
pub open spec fn written(g: Graph, m: u64, si: int, pi: int, pk: int) -> u64 {
    if exists|i: int| 0 <= i < si && m == #[trigger] single(i) {
        negated(g.h_bits@[spin_written(m, si)])
    } else if exists|i: int, k: int| #[trigger] upper_entry(g, i, k) && passed(i, k, pi, pk) && m == pair_mask(i, g.nbr@[k] as int) {
        negated(g.w_bits@[entry_written(g, m, pi, pk).1])
    } else {
        0
    }
}

/// Two spins' monomials are the same monomial only for the same spin.
proof fn lemma_single_unique(i1: int, i2: int)
    requires
        0 <= i1 < 64,
        0 <= i2 < 64,
        single(i1) == single(i2),
    ensures
        i1 == i2,
{
    lemma_single_facts(i1 as u64, i2 as u64);
}

/// A coupling's monomial is no spin's.
proof fn lemma_pair_not_a_single(g: Graph, i: int, k: int, x: int)
    requires
        g.wf(),
        g.n <= MAX_SPINS,
        upper_entry(g, i, k),
        0 <= x < g.n,
    ensures
        pair_mask(i, g.nbr@[k] as int) != single(x),
{
    assert(g.nbr@[k] < g.n);
    lemma_pair_not_single(i as u64, g.nbr@[k] as u64, x as u64);
}

/// Two couplings' monomials are the same monomial only for the same row entry.
proof fn lemma_pair_unique(g: Graph, i1: int, k1: int, i2: int, k2: int)
    requires
        g.wf(),
        g.n <= MAX_SPINS,
        upper_entry(g, i1, k1),
        upper_entry(g, i2, k2),
        pair_mask(i1, g.nbr@[k1] as int) == pair_mask(i2, g.nbr@[k2] as int),
    ensures
        i1 == i2 && k1 == k2,
{
    assert(g.nbr@[k1] < g.n && g.nbr@[k2] < g.n);
    lemma_pair_injective(i1 as u64, g.nbr@[k1] as u64, i2 as u64, g.nbr@[k2] as u64);
    if k1 != k2 {
        assert(in_row(g.offset@, i1, k1) && in_row(g.offset@, i1, k2));
        if k1 < k2 {
            assert(g.nbr@[k1] < g.nbr@[k2]);
        } else {
            assert(g.nbr@[k2] < g.nbr@[k1]);
        }
    }
}

/// What the walk has written equals what it will write once every spin and row is passed.
proof fn lemma_written_all(g: Graph, m: u64, pk: int)
    requires
        g.wf(),
        g.n <= MAX_SPINS,
    ensures
        written(g, m, g.n as int, g.n as int, pk) == coefficient(g, m),
{
    let n = g.n as int;
    if exists|i: int| 0 <= i < n && m == #[trigger] single(i) {
        let a = spin_written(m, n);
        let b = choose|i: int| 0 <= i < g.n && m == #[trigger] single(i);
        lemma_single_unique(a, b);
    } else if exists|i: int, k: int| #[trigger] upper_entry(g, i, k) && m == pair_mask(i, g.nbr@[k] as int) {
        let (i, k) = choose|i: int, k: int| #[trigger] upper_entry(g, i, k) && m == pair_mask(i, g.nbr@[k] as int);
        assert(upper_entry(g, i, k) && passed(i, k, n, pk) && m == pair_mask(i, g.nbr@[k] as int));
        let (i2, k2) = entry_written(g, m, n, pk);
        lemma_pair_unique(g, i, k, i2, k2);
    } else {
        if exists|i: int, k: int| #[trigger] upper_entry(g, i, k) && passed(i, k, n, pk) && m == pair_mask(i, g.nbr@[k] as int) {
            let (i2, k2) = entry_written(g, m, n, pk);
            assert(upper_entry(g, i2, k2) && m == pair_mask(i2, g.nbr@[k2] as int));
        }
    }
}


/// Two walk positions that have passed the same couplings of monomial `m` have written the same.
proof fn lemma_written_same(g: Graph, m: u64, si: int, pi1: int, pk1: int, pi2: int, pk2: int)
    requires
        g.wf(),
        g.n <= MAX_SPINS,
        forall|i: int, k: int|
            #[trigger] upper_entry(g, i, k) && m == pair_mask(i, g.nbr@[k] as int) ==> (passed(i, k, pi1, pk1)
                <==> passed(i, k, pi2, pk2)),
    ensures
        written(g, m, si, pi1, pk1) == written(g, m, si, pi2, pk2),
{
    if exists|i: int, k: int| #[trigger] upper_entry(g, i, k) && passed(i, k, pi1, pk1) && m == pair_mask(i, g.nbr@[k] as int) {
        let (a, b) = entry_written(g, m, pi1, pk1);
        assert(upper_entry(g, a, b) && passed(a, b, pi2, pk2) && m == pair_mask(a, g.nbr@[b] as int));
        let (c, d) = entry_written(g, m, pi2, pk2);
        lemma_pair_unique(g, a, b, c, d);
    } else if exists|i: int, k: int| #[trigger] upper_entry(g, i, k) && passed(i, k, pi2, pk2) && m == pair_mask(i, g.nbr@[k] as int) {
        let (c, d) = entry_written(g, m, pi2, pk2);
        assert(upper_entry(g, c, d) && passed(c, d, pi1, pk1) && m == pair_mask(c, g.nbr@[d] as int));
    }
}

/// Writing spin `i`'s coefficient at its class.
proof fn lemma_write_single(g: Graph, mons: Seq<u64>, e: Seq<u64>, c0: int, i: int)
    requires
        g.wf(),
        g.n <= MAX_SPINS,
        mons.no_duplicates(),
        e.len() == mons.len(),
        0 <= i < g.n,
        0 <= c0 < mons.len(),
        mons[c0] == single(i),
        forall|c: int| 0 <= c < e.len() ==> #[trigger] e[c] == written(g, mons[c], i, i, g.offset@[i] as int),
    ensures
        forall|c: int|
            0 <= c < e.len() ==> #[trigger] e.update(c0, negated(g.h_bits@[i]))[c] == written(
                g,
                mons[c],
                i + 1,
                i,
                g.offset@[i] as int,
            ),
{
    assert forall|c: int| 0 <= c < e.len() implies #[trigger] e.update(c0, negated(g.h_bits@[i]))[c] == written(
        g,
        mons[c],
        i + 1,
        i,
        g.offset@[i] as int,
    ) by {
        let m = mons[c];
        if c == c0 {
            assert(0 <= i < i + 1 && m == single(i));
            let a = spin_written(m, i + 1);
            lemma_single_unique(a, i);
        } else {
            assert(m != single(i));
            if exists|x: int| 0 <= x < i + 1 && m == #[trigger] single(x) {
                let a = spin_written(m, i + 1);
                assert(0 <= a < i && m == single(a));
                let b = spin_written(m, i);
                lemma_single_unique(a, b);
            }
        }
    }
}

/// Writing the coefficient of the coupling at entry `k` of row `i` at its class.
proof fn lemma_write_pair(g: Graph, mons: Seq<u64>, e: Seq<u64>, c1: int, i: int, k: int)
    requires
        g.wf(),
        g.n <= MAX_SPINS,
        mons.no_duplicates(),
        e.len() == mons.len(),
        upper_entry(g, i, k),
        0 <= c1 < mons.len(),
        mons[c1] == pair_mask(i, g.nbr@[k] as int),
        forall|c: int| 0 <= c < e.len() ==> #[trigger] e[c] == written(g, mons[c], i + 1, i, k),
    ensures
        forall|c: int|
            0 <= c < e.len() ==> #[trigger] e.update(c1, negated(g.w_bits@[k]))[c] == written(g, mons[c], i + 1, i, k + 1),
{
    assert forall|c: int| 0 <= c < e.len() implies #[trigger] e.update(c1, negated(g.w_bits@[k]))[c] == written(
        g,
        mons[c],
        i + 1,
        i,
        k + 1,
    ) by {
        let m = mons[c];
        if c == c1 {
            if exists|x: int| 0 <= x < i + 1 && m == #[trigger] single(x) {
                let a = spin_written(m, i + 1);
                lemma_pair_not_a_single(g, i, k, a);
            }
            assert(upper_entry(g, i, k) && passed(i, k, i, k + 1) && m == pair_mask(i, g.nbr@[k] as int));
            let (a, b) = entry_written(g, m, i, k + 1);
            lemma_pair_unique(g, a, b, i, k);
        } else {
            assert(m != pair_mask(i, g.nbr@[k] as int));
            assert forall|x: int, y: int|
                #[trigger] upper_entry(g, x, y) && m == pair_mask(x, g.nbr@[y] as int) implies (passed(x, y, i, k + 1)
                <==> passed(x, y, i, k)) by {
                if x == i && y == k {
                }
            }
            lemma_written_same(g, m, i + 1, i, k + 1, i, k);
        }
    }
}

/// Passing an entry to a lower spin writes nothing.
proof fn lemma_pass_lower(g: Graph, m: u64, i: int, k: int)
    requires
        g.wf(),
        g.n <= MAX_SPINS,
        0 <= i < g.n,
        in_row(g.offset@, i, k),
        g.nbr@[k] <= i,
    ensures
        written(g, m, i + 1, i, k + 1) == written(g, m, i + 1, i, k),
{
    assert forall|x: int, y: int|
        #[trigger] upper_entry(g, x, y) && m == pair_mask(x, g.nbr@[y] as int) implies (passed(x, y, i, k + 1) <==> passed(
        x,
        y,
        i,
        k,
    )) by {
        if x == i && y == k {
            assert(g.nbr@[y] > i);
        }
    }
    lemma_written_same(g, m, i + 1, i, k + 1, i, k);
}

/// The end of row `i` is the start of row `i + 1`.
proof fn lemma_row_done(g: Graph, m: u64, i: int)
    requires
        g.wf(),
        g.n <= MAX_SPINS,
        0 <= i < g.n,
    ensures
        written(g, m, i + 1, i, g.offset@[i + 1] as int) == written(g, m, i + 1, i + 1, g.offset@[i + 1] as int),
{
    let off = g.offset@;
    assert forall|x: int, y: int|
        #[trigger] upper_entry(g, x, y) && m == pair_mask(x, g.nbr@[y] as int) implies (passed(x, y, i, off[i + 1] as int)
        <==> passed(x, y, i + 1, off[i + 1] as int)) by {
        if x == i + 1 {
            assert(off[i + 1] <= y);
        }
    }
    lemma_written_same(g, m, i + 1, i, off[i + 1] as int, i + 1, off[i + 1] as int);
}


/// The class list has one entry per entry of the moment matrix.
proof fn lemma_class_count(l: Level2)
    requires
        l.wf(),
    ensures
        l.class_seq().len() == l.rows() * l.rows(),
{
    lemma_basis_distinct(l.spins());
}

/// Spin `i`'s class: entry `(0, 1 + i)` names `s_i`.
proof fn lemma_single_class(l: Level2, i: int)
    requires
        l.wf(),
        0 <= i < l.spins(),
    ensures
        1 + i < l.rows(),
        0 <= 1 + i < l.class_seq().len(),
        l.monomial_seq()[l.class_seq()[1 + i] as int] == single(i),
{
    let n = l.spins();
    assert(dim_of(n) >= 1 + n) by (nonlinear_arith)
        requires
            dim_of(n) == 1 + n + n * (n - 1) / 2,
            n >= 1,
    ;
    lemma_entry_names_product(l, 0, 1 + i);
    lemma_class_count(l);
    assert(0 <= 0 * l.rows() + (1 + i) < l.class_seq().len()) by (nonlinear_arith)
        requires
            0 <= i,
            1 + i < l.rows(),
            l.class_seq().len() == l.rows() * l.rows(),
    ;
    assert(0 * l.rows() + (1 + i) == 1 + i);
    let b = l.basis_seq();
    assert(b == basis_of(n));
    assert(b[0] == 0u64);
    assert(b[1 + i] == single(i));
    let x = single(i);
    assert(0u64 ^ x == x) by (bit_vector);
}

/// The class of the pair `i < j`: entry `(1 + i, 1 + j)` names `s_i s_j`.
proof fn lemma_pair_class(l: Level2, i: int, j: int)
    requires
        l.wf(),
        0 <= i < j < l.spins(),
    ensures
        1 + i < l.rows(),
        1 + j < l.rows(),
        0 <= (1 + i) * l.rows() + (1 + j) < l.class_seq().len(),
        l.monomial_seq()[l.class_seq()[(1 + i) * l.rows() + (1 + j)] as int] == pair_mask(i, j),
{
    let n = l.spins();
    assert(dim_of(n) >= 1 + n) by (nonlinear_arith)
        requires
            dim_of(n) == 1 + n + n * (n - 1) / 2,
            n >= 1,
    ;
    lemma_entry_names_product(l, 1 + i, 1 + j);
    lemma_class_count(l);
    assert((1 + i) * l.rows() + (1 + j) < l.rows() * l.rows()) by (nonlinear_arith)
        requires
            1 + i < l.rows(),
            1 + j < l.rows(),
    ;
    assert(0 <= (1 + i) * l.rows()) by (nonlinear_arith)
        requires
            0 <= 1 + i,
    ;
    let b = l.basis_seq();
    assert(b == basis_of(n));
    assert(b[1 + i] == single(i));
    assert(b[1 + j] == single(j));
    let si = i as u64;
    let sj = j as u64;
    assert(si < sj < 64);
    assert((1u64 << si) ^ (1u64 << sj) == (1u64 << si) | (1u64 << sj)) by (bit_vector)
        requires
            si < sj < 64,
    ;
}

impl Level2 {
    /// The energy as a vector over monomial classes, each entry the bit pattern of its `f64`:
    /// `-h_i` on the class of `s_i`, `-J_ij` on the class of `s_i s_j` for each coupling, and
    /// `+0.0` on every other class, the constant's and every degree-three and degree-four
    /// monomial's included. The model must have this basis's spin count.
    pub fn objective(&self, g: &Graph) -> (e: Vec<u64>)
        requires
            self.wf(),
            g.wf(),
            g.n == self.spins(),
        ensures
            e@.len() == self.monomial_seq().len(),
            forall|c: int| 0 <= c < e@.len() ==> #[trigger] e@[c] == coefficient(*g, self.monomial_seq()[c]),
    {
        let ghost mons = self.monomial_seq();
        proof {
            lemma_firsts(entry_masks(self.basis_seq()));
        }
        let classes = self.classes();
        let mut e: Vec<u64> = Vec::new();
        let mut c: usize = 0;
        while c < classes
            invariant
                classes == mons.len(),
                c <= classes,
                e@.len() == c,
                forall|q: int| 0 <= q < c ==> #[trigger] e@[q] == 0,
            decreases classes - c,
        {
            e.push(0);
            c += 1;
        }
        proof {
            assert forall|q: int| 0 <= q < e@.len() implies #[trigger] e@[q] == written(*g, mons[q], 0, 0, g.offset@[0] as int) by {
                if exists|i: int, k: int| #[trigger] upper_entry(*g, i, k) && passed(i, k, 0, g.offset@[0] as int) && mons[q] == pair_mask(i, g.nbr@[k] as int) {
                    let (a, b) = entry_written(*g, mons[q], 0, g.offset@[0] as int);
                    assert(in_row(g.offset@, a, b));
                }
            }
        }
        let n = g.n;
        let mut i: usize = 0;
        while i < n
            invariant
                self.wf(),
                g.wf(),
                n == g.n,
                g.n == self.spins(),
                mons == self.monomial_seq(),
                mons.no_duplicates(),
                i <= n,
                e@.len() == mons.len(),
                forall|q: int| 0 <= q < e@.len() ==> #[trigger] e@[q] == written(*g, mons[q], i as int, i as int, g.offset@[i as int] as int),
            decreases n - i,
        {
            proof {
                lemma_single_class(*self, i as int);
            }
            let c0 = self.class_of(0, 1 + i);
            assert(c0 == self.class_seq()[1 + i]);
            let ghost before = e@;
            proof {
                lemma_write_single(*g, mons, e@, c0 as int, i as int);
            }
            e.set(c0, g.h_bits[i] ^ 0x8000_0000_0000_0000u64);
            assert(e@ == before.update(c0 as int, negated(g.h_bits@[i as int])));
            assert forall|q: int| 0 <= q < e@.len() implies #[trigger] e@[q] == written(*g, mons[q], i + 1, i as int, g.offset@[i as int] as int) by {
                assert(e@[q] == before.update(c0 as int, negated(g.h_bits@[i as int]))[q]);
            }
            assert(g.offset@[i as int] <= g.offset@[i + 1]);
            let mut k = g.offset[i];
            let end = g.offset[i + 1];
            while k < end
                invariant
                    self.wf(),
                    g.wf(),
                    n == g.n,
                    g.n == self.spins(),
                    mons == self.monomial_seq(),
                    mons.no_duplicates(),
                    i < n,
                    end == g.offset@[i + 1],
                    g.offset@[i as int] <= k <= end,
                    e@.len() == mons.len(),
                    forall|q: int| 0 <= q < e@.len() ==> #[trigger] e@[q] == written(*g, mons[q], i + 1, i as int, k as int),
                decreases end - k,
            {
                assert(in_row(g.offset@, i as int, k as int));
                assert(k < g.nbr@.len());
                let j = g.nbr[k] as usize;
                if j > i {
                    assert(j < n);
                    proof {
                        lemma_pair_class(*self, i as int, j as int);
                    }
                    let c1 = self.class_of(1 + i, 1 + j);
                    let ghost before = e@;
                    proof {
                        lemma_write_pair(*g, mons, e@, c1 as int, i as int, k as int);
                    }
                    e.set(c1, g.w_bits[k] ^ 0x8000_0000_0000_0000u64);
                    assert(e@ == before.update(c1 as int, negated(g.w_bits@[k as int])));
                    assert forall|q: int| 0 <= q < e@.len() implies #[trigger] e@[q] == written(*g, mons[q], i + 1, i as int, k + 1) by {
                        assert(e@[q] == before.update(c1 as int, negated(g.w_bits@[k as int]))[q]);
                    }
                } else {
                    proof {
                        assert forall|q: int| 0 <= q < e@.len() implies #[trigger] e@[q] == written(*g, mons[q], i + 1, i as int, k + 1) by {
                            lemma_pass_lower(*g, mons[q], i as int, k as int);
                        }
                    }
                }
                k += 1;
            }
            proof {
                assert forall|q: int| 0 <= q < e@.len() implies #[trigger] e@[q] == written(*g, mons[q], i + 1, i + 1, g.offset@[i + 1] as int) by {
                    lemma_row_done(*g, mons[q], i as int);
                }
            }
            i += 1;
        }
        proof {
            assert forall|q: int| 0 <= q < e@.len() implies #[trigger] e@[q] == coefficient(*g, mons[q]) by {
                lemma_written_all(*g, mons[q], g.offset@[n as int] as int);
            }
        }
        e
    }
}

} // verus!
