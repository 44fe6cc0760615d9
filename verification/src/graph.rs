//! The Ising model every other module reads: `n` spins, a bias per spin and a symmetric coupling
//! list in compressed sparse rows. Real-valued weights are carried as their IEEE-754 bit patterns,
//! which is exactly what the digest consumes and what the structural algorithms ignore.

use vstd::prelude::*;

verus! {

/// An Ising model in compressed sparse rows.
///
/// Row `i` is `offset[i]..offset[i + 1]`: its neighbours are `nbr[k]` and the couplings `w_bits[k]`
/// (the bit pattern of the `f64` weight). Every coupling appears once in each endpoint's row, with
/// the same weight, and each row lists its neighbours in strictly increasing order.
#[derive(Clone, Debug)]
pub struct Graph {
    /// Spins.
    pub n: usize,
    /// Couplings, each counted once.
    pub n_edges: usize,
    /// Bit pattern of each spin's bias.
    pub h_bits: Vec<u64>,
    /// Row starts, `n + 1` of them.
    pub offset: Vec<usize>,
    /// Neighbour of each row entry.
    pub nbr: Vec<u32>,
    /// Bit pattern of each row entry's coupling.
    pub w_bits: Vec<u64>,
}

/// Whether a bit pattern is an IEEE-754 zero, positive or negative.
pub open spec fn is_zero_bits(b: u64) -> bool {
    b == 0 || b == 0x8000_0000_0000_0000u64
}

/// Whether `b` is a zero, positive or negative.
pub fn bits_are_zero(b: u64) -> (r: bool)
    ensures
        r == is_zero_bits(b),
{
    b == 0 || b == 0x8000_0000_0000_0000u64
}

/// Whether row entry `k` lies in row `i` of the row starts `off`.
pub open spec fn in_row(off: Seq<usize>, i: int, k: int) -> bool {
    off[i] <= k < off[i + 1]
}

/// Consistent rows: `n + 1` nondecreasing row starts from zero to the entry count, one bias per
/// spin, one weight per entry, every neighbour a spin.
pub open spec fn rows_ok(n: nat, h: Seq<u64>, off: Seq<usize>, nbr: Seq<u32>, w: Seq<u64>) -> bool {
    &&& off.len() == n + 1
    &&& h.len() == n
    &&& off[0] == 0
    &&& off[n as int] == nbr.len()
    &&& nbr.len() == w.len()
    &&& forall|i: int, j: int| 0 <= i <= j <= n ==> off[i] <= off[j]
    &&& forall|k: int| 0 <= k < nbr.len() ==> (#[trigger] nbr[k]) < n
}

/// Whether spin `j` appears in row `i` with weight `wt`.
pub open spec fn has_entry(off: Seq<usize>, nbr: Seq<u32>, w: Seq<u64>, i: int, j: int, wt: u64) -> bool {
    exists|k: int| #[trigger] in_row(off, i, k) && nbr[k] == j && w[k] == wt
}

/// A well-formed model: consistent rows with an even entry count, no self-coupling, every row
/// strictly increasing, and every coupling present in both rows with the same weight.
pub open spec fn valid_csr(n: nat, h: Seq<u64>, off: Seq<usize>, nbr: Seq<u32>, w: Seq<u64>) -> bool {
    &&& rows_ok(n, h, off, nbr, w)
    &&& nbr.len() % 2 == 0
    &&& forall|i: int, k: int| 0 <= i < n && #[trigger] in_row(off, i, k) ==> nbr[k] != i
    &&& forall|i: int, k1: int, k2: int|
        0 <= i < n && #[trigger] in_row(off, i, k1) && #[trigger] in_row(off, i, k2) && k1 < k2
            ==> nbr[k1] < nbr[k2]
    &&& forall|i: int, k: int|
        0 <= i < n && #[trigger] in_row(off, i, k) ==> has_entry(off, nbr, w, nbr[k] as int, i, w[k])
}

/// Whether spin `j` appears in row `i` with weight `wt`.
fn row_has(off: &Vec<usize>, nbr: &Vec<u32>, w: &Vec<u64>, i: usize, j: usize, wt: u64) -> (r: bool)
    requires
        i + 1 < off@.len(),
        off@[i as int] <= off@[i + 1] <= nbr@.len(),
        nbr@.len() == w@.len(),
    ensures
        r == has_entry(off@, nbr@, w@, i as int, j as int, wt),
{
    let _len = off.len();
    let mut q = off[i];
    let end = off[i + 1];
    while q < end
        invariant
            end == off@[i + 1],
            i + 1 < off@.len(),
            off@[i as int] <= q <= off@[i + 1] <= nbr@.len(),
            nbr@.len() == w@.len(),
            forall|p: int| off@[i as int] <= p < q ==> !(nbr@[p] == j && w@[p] == wt),
        decreases off@[i + 1] - q,
    {
        if nbr[q] as usize == j && w[q] == wt {
            assert(in_row(off@, i as int, q as int));
            return true;
        }
        q += 1;
    }
    false
}

impl Graph {
    /// Whether this is a well-formed model and `n_edges` counts its couplings.
    pub open spec fn wf(&self) -> bool {
        &&& valid_csr(self.n as nat, self.h_bits@, self.offset@, self.nbr@, self.w_bits@)
        &&& self.nbr@.len() == 2 * self.n_edges
    }

    /// Build a model from its rows, refusing (`None`) exactly what is not a well-formed model.
    pub fn from_csr(
        n: usize,
        h_bits: Vec<u64>,
        offset: Vec<usize>,
        nbr: Vec<u32>,
        w_bits: Vec<u64>,
    ) -> (g: Option<Graph>)
        ensures
            g is Some <==> valid_csr(n as nat, h_bits@, offset@, nbr@, w_bits@),
            g matches Some(g) ==> g.wf() && g.n == n && g.h_bits@ == h_bits@ && g.offset@
                == offset@ && g.nbr@ == nbr@ && g.w_bits@ == w_bits@,
    {
        if offset.len() == 0 || offset.len() - 1 != n || h_bits.len() != n || nbr.len()
            != w_bits.len() {
            return None;
        }
        if offset[0] != 0 || offset[n] != nbr.len() || nbr.len() % 2 != 0 {
            return None;
        }
        // Row starts nondecreasing.
        let mut i: usize = 0;
        while i < n
            invariant
                offset@.len() == n + 1,
                i <= n,
                forall|a: int, b: int| 0 <= a <= b <= i ==> offset@[a] <= offset@[b],
            decreases n - i,
        {
            if offset[i] > offset[i + 1] {
                return None;
            }
            i += 1;
        }
        // Neighbours in range.
        let mut k: usize = 0;
        while k < nbr.len()
            invariant
                k <= nbr@.len(),
                forall|a: int| 0 <= a < k ==> (#[trigger] nbr@[a]) < n,
            decreases nbr@.len() - k,
        {
            if (nbr[k] as usize) >= n {
                return None;
            }
            k += 1;
        }
        assert(rows_ok(n as nat, h_bits@, offset@, nbr@, w_bits@));
        let ghost off = offset@;
        // Each row: no self-coupling, strictly increasing, mirrored in the other row.
        let mut i: usize = 0;
        while i < n
            invariant
                rows_ok(n as nat, h_bits@, offset@, nbr@, w_bits@),
                off == offset@,
                i <= n,
                forall|a: int, k: int| 0 <= a < i && #[trigger] in_row(off, a, k) ==> nbr@[k] != a,
                forall|a: int, k1: int, k2: int|
                    0 <= a < i && #[trigger] in_row(off, a, k1) && #[trigger] in_row(off, a, k2)
                        && k1 < k2 ==> nbr@[k1] < nbr@[k2],
                forall|a: int, k: int|
                    0 <= a < i && #[trigger] in_row(off, a, k) ==> has_entry(
                        off,
                        nbr@,
                        w_bits@,
                        nbr@[k] as int,
                        a,
                        w_bits@[k],
                    ),
            decreases n - i,
        {
            assert(offset@[i as int] <= offset@[i + 1] <= nbr@.len());
            let mut k = offset[i];
            while k < offset[i + 1]
                invariant
                    rows_ok(n as nat, h_bits@, offset@, nbr@, w_bits@),
                    off == offset@,
                    i < n,
                    offset@[i as int] <= k <= offset@[i + 1],
                    forall|q: int| offset@[i as int] <= q < k ==> nbr@[q] != i,
                    forall|q1: int, q2: int|
                        offset@[i as int] <= q1 < q2 < k ==> nbr@[q1] < nbr@[q2],
                    forall|q: int|
                        offset@[i as int] <= q < k ==> has_entry(
                            off,
                            nbr@,
                            w_bits@,
                            nbr@[q] as int,
                            i as int,
                            w_bits@[q],
                        ),
                decreases offset@[i + 1] - k,
            {
                let j = nbr[k] as usize;
                if j == i {
                    assert(in_row(off, i as int, k as int));
                    return None;
                }
                if k > offset[i] && nbr[k - 1] >= nbr[k] {
                    assert(in_row(off, i as int, k - 1) && in_row(off, i as int, k as int));
                    return None;
                }
                assert(offset@[j as int] <= offset@[j + 1] <= nbr@.len());
                if !row_has(&offset, &nbr, &w_bits, j, i, w_bits[k]) {
                    assert(in_row(off, i as int, k as int));
                    return None;
                }
                k += 1;
            }
            i += 1;
        }
        let g = Graph { n, n_edges: nbr.len() / 2, h_bits, offset, nbr, w_bits };
        Some(g)
    }
}

/// Whether a bit pattern is a finite `f64`: its exponent field is not all ones.
pub open spec fn is_finite_bits(b: u64) -> bool {
    (b >> 52u64) & 0x7ffu64 != 0x7ffu64
}

/// Whether every bias and every coupling of `g` is finite.
pub fn finite(g: &Graph) -> (ok: bool)
    ensures
        ok == ((forall|i: int| 0 <= i < g.h_bits@.len() ==> is_finite_bits(#[trigger] g.h_bits@[i]))
            && forall|k: int| 0 <= k < g.w_bits@.len() ==> is_finite_bits(#[trigger] g.w_bits@[k])),
{
    let mut i: usize = 0;
    while i < g.h_bits.len()
        invariant
            i <= g.h_bits@.len(),
            forall|p: int| 0 <= p < i ==> is_finite_bits(#[trigger] g.h_bits@[p]),
        decreases g.h_bits@.len() - i,
    {
        if (g.h_bits[i] >> 52u64) & 0x7ffu64 == 0x7ffu64 {
            assert(!is_finite_bits(g.h_bits@[i as int]));
            return false;
        }
        i += 1;
    }
    let mut k: usize = 0;
    while k < g.w_bits.len()
        invariant
            k <= g.w_bits@.len(),
            forall|p: int| 0 <= p < g.h_bits@.len() ==> is_finite_bits(#[trigger] g.h_bits@[p]),
            forall|p: int| 0 <= p < k ==> is_finite_bits(#[trigger] g.w_bits@[p]),
        decreases g.w_bits@.len() - k,
    {
        if (g.w_bits[k] >> 52u64) & 0x7ffu64 == 0x7ffu64 {
            assert(!is_finite_bits(g.w_bits@[k as int]));
            return false;
        }
        k += 1;
    }
    true
}


/// How many couplings spin `i` has: the length of its row.
pub open spec fn row_len(off: Seq<usize>, i: int) -> int {
    off[i + 1] - off[i]
}

impl Graph {
    /// The largest number of couplings on any spin; zero for a model with no spins.
    pub fn max_degree(&self) -> (d: usize)
        requires
            rows_ok(self.n as nat, self.h_bits@, self.offset@, self.nbr@, self.w_bits@),
        ensures
            forall|i: int| 0 <= i < self.n ==> #[trigger] row_len(self.offset@, i) <= d,
            self.n > 0 ==> exists|i: int| 0 <= i < self.n && #[trigger] row_len(self.offset@, i) == d,
            self.n == 0 ==> d == 0,
    {
        let mut d: usize = 0;
        let mut i: usize = 0;
        while i < self.n
            invariant
                rows_ok(self.n as nat, self.h_bits@, self.offset@, self.nbr@, self.w_bits@),
                i <= self.n,
                forall|p: int| 0 <= p < i ==> #[trigger] row_len(self.offset@, p) <= d,
                i > 0 ==> exists|p: int| 0 <= p < i && #[trigger] row_len(self.offset@, p) == d,
                i == 0 ==> d == 0,
            decreases self.n - i,
        {
            assert(self.offset@[i as int] <= self.offset@[i + 1]);
            let k = self.offset[i + 1] - self.offset[i];
            assert(k == row_len(self.offset@, i as int));
            if i == 0 || k > d {
                d = k;
            }
            i += 1;
        }
        d
    }
}

} // verus!
