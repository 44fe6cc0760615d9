//! The index of the Lasserre level-2 moment relaxation: the degree-two monomial basis over the
//! spins, and the monomial class each entry of the moment matrix names.
//!
//! Row `a` of the moment matrix is a square-free monomial `basis[a]`, held as a bitmask over spins.
//! Since every `s_i^2 = 1`, entry `(a, b)` names the symmetric difference `basis[a] ^ basis[b]`, and
//! the entries naming one monomial form a class: one free variable per class, so the consistency
//! constraints of the moment matrix hold by construction of this index.

use vstd::prelude::*;
use vstd::string::StringExecFns;
use std::collections::BTreeMap;
use crate::text::{decimal_chars, push_decimal};

verus! {

/// Spin counts above this are refused: the moment matrix has `1 + n + n(n-1)/2` rows, and the
/// work per iteration of any search over it grows as `n^6`.
pub const MAX_SPINS: usize = 24;

/// Why a level-2 basis or certificate could not be produced or re-verified.
#[derive(Clone, Debug, PartialEq, Eq)]
pub enum SosError {
    /// The graph has more spins than [`MAX_SPINS`].
    TooWide {
        /// Spins asked for.
        n: usize,
        /// The cap.
        max: usize,
    },
    /// The Gram matrix is not the size this graph's monomial basis implies.
    Shape {
        /// Entries supplied.
        got: usize,
        /// Entries required.
        want: usize,
    },
    /// `Q[a][b]` and `Q[b][a]` differ.
    NotSymmetric {
        /// Row of the first of the two entries.
        a: usize,
        /// Column of the first of the two entries.
        b: usize,
    },
    /// The Gram matrix is not provably positive semidefinite.
    NotPsd,
    /// A non-finite entry.
    NotFinite,
}

/// What a level-2 refusal says.
pub open spec fn sos_error_text(e: SosError) -> Seq<char> {
    match e {
        SosError::TooWide { n, max } => "level 2 needs a "@ + decimal_chars(dim_of(n as nat))
            + "-row moment matrix for "@ + decimal_chars(n as nat)
            + " spins, and this module refuses past "@ + decimal_chars(max as nat),
        SosError::Shape { got, want } => "the Gram matrix has "@ + decimal_chars(got as nat)
            + " entries and this basis needs "@ + decimal_chars(want as nat),
        SosError::NotSymmetric { a, b } => "the Gram matrix is not symmetric at ("@ + decimal_chars(
            a as nat,
        ) + ", "@ + decimal_chars(b as nat) + ")"@,
        SosError::NotPsd => "the Gram matrix did not verify as positive definite, so z'Qz is not a sum of squares and this certificate proves nothing"@,
        SosError::NotFinite => "the certificate contains a non-finite value"@,
    }
}

impl SosError {
    /// The refusal in words. A `TooWide` spin count must leave the row count representable.
    pub fn message(&self) -> (m: String)
        requires
            (*self) matches SosError::TooWide { n, .. } ==> n * (n - 1) <= usize::MAX && dim_of(n as nat)
                <= usize::MAX,
        ensures
            m@ == sos_error_text(*self),
    {
        match self {
            SosError::TooWide { n, max } => {
                let mut m = String::from_str("level 2 needs a ");
                push_decimal(&mut m, Level2::dim_for(*n));
                m.append("-row moment matrix for ");
                push_decimal(&mut m, *n);
                m.append(" spins, and this module refuses past ");
                push_decimal(&mut m, *max);
                m
            },
            SosError::Shape { got, want } => {
                let mut m = String::from_str("the Gram matrix has ");
                push_decimal(&mut m, *got);
                m.append(" entries and this basis needs ");
                push_decimal(&mut m, *want);
                m
            },
            SosError::NotSymmetric { a, b } => {
                let mut m = String::from_str("the Gram matrix is not symmetric at (");
                push_decimal(&mut m, *a);
                m.append(", ");
                push_decimal(&mut m, *b);
                m.append(")");
                m
            },
            SosError::NotPsd => String::from_str(
                "the Gram matrix did not verify as positive definite, so z'Qz is not a sum of squares and this certificate proves nothing",
            ),
            SosError::NotFinite => String::from_str("the certificate contains a non-finite value"),
        }
    }
}

/// Rows of the level-2 moment matrix for `n` spins: `1 + n + n(n-1)/2`.
pub open spec fn dim_of(n: nat) -> nat {
    (1 + n + n * (n - 1) / 2) as nat
}

/// The monomial `s_i` as a bitmask.
pub open spec fn single(i: int) -> u64 {
    1u64 << (i as u64)
}

/// The monomial `s_i s_j` as a bitmask.
pub open spec fn pair_mask(i: int, j: int) -> u64 {
    single(i) | single(j)
}

/// The degree-one rows, `s_0 .. s_{n-1}`.
pub open spec fn singles(n: nat) -> Seq<u64> {
    Seq::new(n, |i: int| single(i))
}

/// The degree-two rows starting with spin `i`: `s_i s_j` for `i < j < n`, by increasing `j`.
pub open spec fn pair_row(n: nat, i: int) -> Seq<u64> {
    Seq::new((n - i - 1) as nat, |t: int| pair_mask(i, i + 1 + t))
}

/// The degree-two rows whose first spin is below `r`, row by row.
pub open spec fn pairs_upto(n: nat, r: int) -> Seq<u64>
    decreases r,
{
    if r <= 0 {
        seq![]
    } else {
        pairs_upto(n, r - 1) + pair_row(n, r - 1)
    }
}

/// The level-2 monomial basis: the constant, every spin, every pair of spins.
pub open spec fn basis_of(n: nat) -> Seq<u64> {
    seq![0u64] + singles(n) + pairs_upto(n, n as int)
}

/// The monomial entry `(e / N, e % N)` of an `N`-row matrix over `basis` names, row-major.
pub open spec fn entry_masks(basis: Seq<u64>) -> Seq<u64> {
    Seq::new(
        basis.len() * basis.len(),
        |e: int| basis[e / basis.len() as int] ^ basis[e % basis.len() as int],
    )
}

/// The distinct values of `s`, in the order they first occur.
pub open spec fn firsts(s: Seq<u64>) -> Seq<u64>
    decreases s.len(),
{
    if s.len() == 0 {
        seq![]
    } else {
        let p = firsts(s.drop_last());
        if s.drop_last().contains(s.last()) {
            p
        } else {
            p.push(s.last())
        }
    }
}

/// How many times `x` occurs in `s`.
pub open spec fn occurrences(s: Seq<u64>, x: u64) -> nat
    decreases s.len(),
{
    if s.len() == 0 {
        0
    } else {
        occurrences(s.drop_last(), x) + (if s.last() == x {
            1nat
        } else {
            0nat
        })
    }
}

// ---------------------------------------------------------------------------------------------
// Bit facts about the basis masks.
// ---------------------------------------------------------------------------------------------

pub(crate) proof fn lemma_single_facts(i: u64, j: u64)
    requires
        i < 64,
        j < 64,
    ensures
        (1u64 << i) != 0,
        i != j ==> (1u64 << i) != (1u64 << j),
{
    assert((1u64 << i) != 0) by (bit_vector)
        requires
            i < 64,
    ;
    assert(i != j ==> (1u64 << i) != (1u64 << j)) by (bit_vector)
        requires
            i < 64,
            j < 64,
    ;
}

pub(crate) proof fn lemma_pair_not_single(i: u64, j: u64, k: u64)
    requires
        i < j < 64,
        k < 64,
    ensures
        ((1u64 << i) | (1u64 << j)) != 0,
        ((1u64 << i) | (1u64 << j)) != (1u64 << k),
{
    assert(((1u64 << i) | (1u64 << j)) != 0) by (bit_vector)
        requires
            i < j < 64,
    ;
    assert(((1u64 << i) | (1u64 << j)) != (1u64 << k)) by (bit_vector)
        requires
            i < j < 64,
            k < 64,
    ;
}

pub(crate) proof fn lemma_pair_injective(i: u64, j: u64, k: u64, l: u64)
    requires
        i < j < 64,
        k < l < 64,
        ((1u64 << i) | (1u64 << j)) == ((1u64 << k) | (1u64 << l)),
    ensures
        i == k && j == l,
{
    assert(i == k && j == l) by (bit_vector)
        requires
            i < j < 64,
            k < l < 64,
            ((1u64 << i) | (1u64 << j)) == ((1u64 << k) | (1u64 << l)),
    ;
}

/// Whether `x` is `s_i s_j` for some `i < r` and `i < j < n`.
pub open spec fn pair_below(x: u64, n: nat, r: int) -> bool {
    exists|i: int, j: int| 0 <= i < r && i < j < n && x == #[trigger] pair_mask(i, j)
}

/// What the pair rows below `r` hold: `r * (2n - r - 1) / 2` masks, all distinct, each `s_i s_j`
/// for some `i < r` and `i < j < n`.
proof fn lemma_pairs_upto(n: nat, r: int)
    requires
        n <= 64,
        0 <= r <= n,
    ensures
        2 * (pairs_upto(n, r).len() as int) == r * (2 * (n as int) - r - 1),
        pairs_upto(n, r).no_duplicates(),
        forall|p: int| 0 <= p < pairs_upto(n, r).len() ==> pair_below(#[trigger] pairs_upto(n, r)[p], n, r),
    decreases r,
{
    if r > 0 {
        lemma_pairs_upto(n, r - 1);
        let old = pairs_upto(n, r - 1);
        let row = pair_row(n, r - 1);
        let all = pairs_upto(n, r);
        assert(all == old + row);
        assert(2 * (all.len() as int) == r * (2 * (n as int) - r - 1)) by (nonlinear_arith)
            requires
                2 * (old.len() as int) == (r - 1) * (2 * (n as int) - (r - 1) - 1),
                all.len() == old.len() + (n - r),
        ;
        assert forall|p: int| 0 <= p < all.len() implies pair_below(#[trigger] all[p], n, r) by {
            if p < old.len() {
                assert(all[p] == old[p]);
                assert(pair_below(old[p], n, r - 1));
                let (i, j) = choose|i: int, j: int|
                    0 <= i < r - 1 && i < j < n && old[p] == #[trigger] pair_mask(i, j);
                assert(all[p] == pair_mask(i, j));
            } else {
                let t = p - old.len();
                assert(all[p] == row[t]);
                assert(all[p] == pair_mask(r - 1, r + t));
            }
        }
        assert forall|p: int, q: int|
            0 <= p < all.len() && 0 <= q < all.len() && p != q implies all[p] != all[q] by {
            if p < old.len() && q < old.len() {
                assert(all[p] == old[p] && all[q] == old[q]);
            } else if p >= old.len() && q >= old.len() {
                let tp = p - old.len();
                let tq = q - old.len();
                assert(all[p] == pair_mask(r - 1, r + tp));
                assert(all[q] == pair_mask(r - 1, r + tq));
                if all[p] == all[q] {
                    lemma_pair_injective(
                        (r - 1) as u64,
                        (r + tp) as u64,
                        (r - 1) as u64,
                        (r + tq) as u64,
                    );
                }
            } else {
                let (po, pn) = if p < old.len() {
                    (p, q)
                } else {
                    (q, p)
                };
                assert(all[po] == old[po]);
                assert(pair_below(old[po], n, r - 1));
                let (i, j) = choose|i: int, j: int|
                    0 <= i < r - 1 && i < j < n && old[po] == #[trigger] pair_mask(i, j);
                let t = pn - old.len();
                assert(all[pn] == pair_mask(r - 1, r + t));
                if all[po] == all[pn] {
                    lemma_pair_injective(i as u64, j as u64, (r - 1) as u64, (r + t) as u64);
                }
            }
        }
    }
}

/// The basis has `dim_of(n)` rows and no monomial twice.
pub proof fn lemma_basis_distinct(n: nat)
    requires
        n <= 64,
    ensures
        basis_of(n).len() == dim_of(n),
        basis_of(n).no_duplicates(),
{
    let b = basis_of(n);
    let pr = pairs_upto(n, n as int);
    lemma_pairs_upto(n, n as int);
    assert(pr.len() == n * (n - 1) / 2) by (nonlinear_arith)
        requires
            2 * (pr.len() as int) == (n as int) * (2 * (n as int) - n - 1),
    ;
    assert(b.len() == 1 + n + pr.len());
    assert forall|p: int, q: int| 0 <= p < q < b.len() implies b[p] != b[q] by {
        if p == 0 {
            if q <= n {
                assert(b[q] == single(q - 1));
                lemma_single_facts((q - 1) as u64, 0);
            } else {
                assert(b[q] == pr[q - 1 - n]);
                assert(pair_below(pr[q - 1 - n], n, n as int));
                let (i, j) = choose|i: int, j: int|
                    0 <= i < n && i < j < n && pr[q - 1 - n] == #[trigger] pair_mask(i, j);
                lemma_pair_not_single(i as u64, j as u64, 0);
            }
        } else if p <= n {
            assert(b[p] == single(p - 1));
            if q <= n {
                assert(b[q] == single(q - 1));
                lemma_single_facts((p - 1) as u64, (q - 1) as u64);
            } else {
                assert(b[q] == pr[q - 1 - n]);
                assert(pair_below(pr[q - 1 - n], n, n as int));
                let (i, j) = choose|i: int, j: int|
                    0 <= i < n && i < j < n && pr[q - 1 - n] == #[trigger] pair_mask(i, j);
                lemma_pair_not_single(i as u64, j as u64, (p - 1) as u64);
            }
        } else {
            assert(b[p] == pr[p - 1 - n]);
            assert(b[q] == pr[q - 1 - n]);
        }
    }
    assert forall|p: int, q: int|
        0 <= p < b.len() && 0 <= q < b.len() && p != q implies b[p] != b[q] by {
        if q < p {
            assert(b[q] != b[p]);
        }
    }
}

// ---------------------------------------------------------------------------------------------
// First occurrences and counts.
// ---------------------------------------------------------------------------------------------

proof fn lemma_firsts_push(s: Seq<u64>, x: u64)
    ensures
        firsts(s.push(x)) == (if s.contains(x) {
            firsts(s)
        } else {
            firsts(s).push(x)
        }),
        forall|y: u64| #[trigger] occurrences(s.push(x), y) == occurrences(s, y) + (if x == y {
            1nat
        } else {
            0nat
        }),
{
    assert(s.push(x).drop_last() =~= s);
}

/// `firsts(s)` holds each value of `s` exactly once.
pub(crate) proof fn lemma_firsts(s: Seq<u64>)
    ensures
        firsts(s).no_duplicates(),
        firsts(s).len() <= s.len(),
        forall|x: u64| firsts(s).contains(x) <==> s.contains(x),
    decreases s.len(),
{
    if s.len() > 0 {
        let t = s.drop_last();
        lemma_firsts(t);
        assert(s =~= t.push(s.last()));
        lemma_firsts_push(t, s.last());
        let ft = firsts(t);
        let x0 = s.last();
        assert forall|x: u64| firsts(s).contains(x) <==> s.contains(x) by {
            if s.contains(x) {
                let k = choose|k: int| 0 <= k < s.len() && s[k] == x;
                if k < t.len() {
                    assert(t[k] == x);
                }
            }
            if t.contains(x) {
                let k = choose|k: int| 0 <= k < t.len() && t[k] == x;
                assert(s[k] == x);
            }
            assert(s[s.len() - 1] == x0);
            if !t.contains(x0) {
                assert(ft.push(x0)[ft.len() as int] == x0);
                if ft.push(x0).contains(x) {
                    let k = choose|k: int| 0 <= k < ft.push(x0).len() && ft.push(x0)[k] == x;
                    if k < ft.len() {
                        assert(ft[k] == x);
                    }
                }
                if ft.contains(x) {
                    let k = choose|k: int| 0 <= k < ft.len() && ft[k] == x;
                    assert(ft.push(x0)[k] == x);
                }
            }
        }
    }
}

/// The sum of the first `k` entries of `c`.
pub open spec fn total(c: Seq<u32>, k: int) -> int
    decreases k,
{
    if k <= 0 {
        0
    } else {
        total(c, k - 1) + c[k - 1] as int
    }
}

/// The sum over the first `k` values of `m` of their occurrences in `s`.
pub open spec fn occurrence_total(m: Seq<u64>, s: Seq<u64>, k: int) -> int
    decreases k,
{
    if k <= 0 {
        0
    } else {
        occurrence_total(m, s, k - 1) + occurrences(s, m[k - 1]) as int
    }
}

proof fn lemma_occurrences_absent(s: Seq<u64>, x: u64)
    requires
        !s.contains(x),
    ensures
        occurrences(s, x) == 0,
    decreases s.len(),
{
    if s.len() > 0 {
        assert(!s.drop_last().contains(x)) by {
            if s.drop_last().contains(x) {
                let k = choose|k: int| 0 <= k < s.drop_last().len() && s.drop_last()[k] == x;
                assert(s[k] == x);
            }
        }
        lemma_occurrences_absent(s.drop_last(), x);
    }
}

/// Pushing `x` adds one to the occurrence total of any list that names `x` once.
proof fn lemma_occurrence_total_push(m: Seq<u64>, s: Seq<u64>, x: u64, k: int)
    requires
        0 <= k <= m.len(),
        m.no_duplicates(),
    ensures
        occurrence_total(m, s.push(x), k) == occurrence_total(m, s, k) + (if m.take(k).contains(x) {
            1int
        } else {
            0int
        }),
    decreases k,
{
    lemma_firsts_push(s, x);
    if k > 0 {
        lemma_occurrence_total_push(m, s, x, k - 1);
        let prev = m.take(k - 1);
        let cur = m.take(k);
        assert(cur =~= prev.push(m[k - 1]));
        if cur.contains(x) {
            let q = choose|q: int| 0 <= q < cur.len() && cur[q] == x;
            if q < k - 1 {
                assert(prev[q] == x);
                assert(m[k - 1] != x);
            }
        } else {
            assert(cur[k - 1] == m[k - 1]);
            assert(!prev.contains(x)) by {
                if prev.contains(x) {
                    let q = choose|q: int| 0 <= q < prev.len() && prev[q] == x;
                    assert(cur[q] == x);
                }
            }
        }
        if prev.contains(x) {
            let q = choose|q: int| 0 <= q < prev.len() && prev[q] == x;
            assert(cur[q] == x);
            assert(m[q] == x);
        }
    }
}

proof fn lemma_occurrence_total_same(m1: Seq<u64>, m2: Seq<u64>, s: Seq<u64>, k: int)
    requires
        0 <= k <= m1.len(),
        k <= m2.len(),
        forall|c: int| 0 <= c < k ==> m1[c] == m2[c],
    ensures
        occurrence_total(m1, s, k) == occurrence_total(m2, s, k),
    decreases k,
{
    if k > 0 {
        lemma_occurrence_total_same(m1, m2, s, k - 1);
    }
}

/// Counting each distinct value's occurrences counts every element once.
proof fn lemma_firsts_partition(s: Seq<u64>)
    ensures
        occurrence_total(firsts(s), s, firsts(s).len() as int) == s.len(),
    decreases s.len(),
{
    if s.len() > 0 {
        let t = s.drop_last();
        let x = s.last();
        lemma_firsts_partition(t);
        lemma_firsts(t);
        lemma_firsts(s);
        assert(s =~= t.push(x));
        lemma_firsts_push(t, x);
        let ft = firsts(t);
        lemma_occurrence_total_push(ft, t, x, ft.len() as int);
        assert(ft.take(ft.len() as int) =~= ft);
        if t.contains(x) {
            assert(firsts(s) == ft);
        } else {
            assert(firsts(s) == ft.push(x));
            lemma_occurrence_total_same(firsts(s), ft, s, ft.len() as int);
            lemma_occurrences_absent(t, x);
            assert(occurrences(s, x) == 1);
        }
    }
}

// ---------------------------------------------------------------------------------------------
// The basis and its classes.
// ---------------------------------------------------------------------------------------------

/// The level-2 index: the degree-two monomial basis, and the monomial class of each entry.
///
/// Row `a` is the square-free monomial `basis[a]`, a bitmask over spins; entry `(a, b)` names
/// `basis[a] ^ basis[b]`. Classes are numbered in the order they first occur in a row-major walk,
/// which is deterministic: a numbering that depended on which run produced it would make every
/// certificate built on it unreproducible.
#[derive(Clone, Debug)]
pub struct Level2 {
    n: usize,
    dim: usize,
    basis: Vec<u64>,
    /// `class[a * dim + b]`.
    class: Vec<u32>,
    /// Class id -> the monomial it names.
    monomials: Vec<u64>,
    /// Class id -> how many matrix entries belong to it.
    sizes: Vec<u32>,
    /// The class of the constant monomial.
    empty: usize,
}

/// The monomial an entry names: `s^A s^B = s^{A ^ B}`, since every `s_i^2 = 1`.
fn product(a: u64, b: u64) -> (m: u64)
    ensures
        m == a ^ b,
{
    a ^ b
}

/// The level-2 monomial basis over `n` spins, in the order [`basis_of`] gives.
fn build_basis(n: usize) -> (b: Vec<u64>)
    requires
        n <= MAX_SPINS,
    ensures
        b@ == basis_of(n as nat),
{
    let mut b: Vec<u64> = Vec::new();
    b.push(0u64);
    let mut i: usize = 0;
    while i < n
        invariant
            n <= MAX_SPINS,
            i <= n,
            b@ == seq![0u64] + singles(i as nat),
        decreases n - i,
    {
        let m: u64 = 1u64 << (i as u64);
        b.push(m);
        assert(b@ =~= seq![0u64] + singles((i + 1) as nat));
        i += 1;
    }
    let ghost head = b@;
    let mut i: usize = 0;
    while i < n
        invariant
            n <= MAX_SPINS,
            i <= n,
            head == seq![0u64] + singles(n as nat),
            b@ == head + pairs_upto(n as nat, i as int),
        decreases n - i,
    {
        let ghost start = b@;
        let mut j: usize = i + 1;
        while j < n
            invariant
                n <= MAX_SPINS,
                i < n,
                i + 1 <= j <= n,
                start == head + pairs_upto(n as nat, i as int),
                b@ == start + pair_row(n as nat, i as int).take(j - i - 1),
            decreases n - j,
        {
            let m: u64 = (1u64 << (i as u64)) | (1u64 << (j as u64));
            b.push(m);
            assert(pair_row(n as nat, i as int)[j - i - 1] == m);
            assert(pair_row(n as nat, i as int).take(j - i) =~= pair_row(n as nat, i as int).take(
                j - i - 1,
            ).push(m));
            assert(b@ =~= start + pair_row(n as nat, i as int).take(j - i));
            j += 1;
        }
        assert(pair_row(n as nat, i as int).take(n - i - 1) =~= pair_row(n as nat, i as int));
        assert(pairs_upto(n as nat, i + 1) == pairs_upto(n as nat, i as int) + pair_row(
            n as nat,
            i as int,
        ));
        assert(b@ =~= head + pairs_upto(n as nat, i + 1));
        i += 1;
    }
    assert(b@ =~= basis_of(n as nat));
    b
}

/// How many masks of `s` fall at or below its length: every occurrence is an element.
proof fn lemma_occurrences_le(s: Seq<u64>, x: u64)
    ensures
        occurrences(s, x) <= s.len(),
    decreases s.len(),
{
    if s.len() > 0 {
        lemma_occurrences_le(s.drop_last(), x);
    }
}

/// The state of the row-major walk after its first `k` entries: classes numbered by first
/// occurrence, sizes counted so far, and `ids` mapping each monomial seen to its class.
spec fn walked(
    masks: Seq<u64>,
    k: int,
    class: Seq<u32>,
    mons: Seq<u64>,
    sizes: Seq<u32>,
    ids: Map<u64, u32>,
) -> bool {
    &&& 0 <= k <= masks.len()
    &&& class.len() == k
    &&& mons == firsts(masks.take(k))
    &&& forall|q: int|
        0 <= q < k ==> #[trigger] class[q] < mons.len() && mons[class[q] as int] == masks[q]
    &&& sizes.len() == mons.len()
    &&& forall|c: int|
        0 <= c < sizes.len() ==> #[trigger] sizes[c] == occurrences(masks.take(k), mons[c])
    &&& forall|x: u64| ids.contains_key(x) <==> mons.contains(x)
    &&& forall|c: int| 0 <= c < mons.len() ==> #[trigger] ids[mons[c]] == c
}

/// One step of the walk when entry `k`'s monomial has been seen: it joins class `c`.
proof fn lemma_walk_seen(
    masks: Seq<u64>,
    k: int,
    class: Seq<u32>,
    mons: Seq<u64>,
    sizes: Seq<u32>,
    ids: Map<u64, u32>,
    c: u32,
)
    requires
        walked(masks, k, class, mons, sizes, ids),
        k < masks.len(),
        k < u32::MAX,
        ids.contains_key(masks[k]),
        ids[masks[k]] == c,
    ensures
        c < mons.len(),
        mons[c as int] == masks[k],
        sizes[c as int] < k + 1,
        walked(masks, k + 1, class.push(c), mons, sizes.update(c as int, (sizes[c as int] + 1) as u32), ids),
{
    let x = masks[k];
    let s = masks.take(k);
    lemma_firsts(s);
    assert(masks.take(k + 1) =~= s.push(x));
    lemma_firsts_push(s, x);
    let q = choose|q: int| 0 <= q < mons.len() && mons[q] == x;
    assert(ids[mons[q]] == q);
    assert(c == q);
    lemma_occurrences_le(s, x);
    assert(s.contains(x));
    let sizes2 = sizes.update(c as int, (sizes[c as int] + 1) as u32);
    assert forall|d: int| 0 <= d < sizes2.len() implies #[trigger] sizes2[d] == occurrences(
        masks.take(k + 1),
        mons[d],
    ) by {
        assert(occurrences(s.push(x), mons[d]) == occurrences(s, mons[d]) + (if x == mons[d] {
            1nat
        } else {
            0nat
        }));
        if d != c {
            assert(mons[d] != mons[c as int]);
        }
    }
    let class2 = class.push(c);
    assert forall|p: int| 0 <= p < k + 1 implies #[trigger] class2[p] < mons.len() && mons[class2[p] as int]
        == masks[p] by {
        if p < k {
            assert(class2[p] == class[p]);
        }
    }
}

/// One step of the walk when entry `k`'s monomial is new: it opens the next class.
proof fn lemma_walk_new(
    masks: Seq<u64>,
    k: int,
    class: Seq<u32>,
    mons: Seq<u64>,
    sizes: Seq<u32>,
    ids: Map<u64, u32>,
)
    requires
        walked(masks, k, class, mons, sizes, ids),
        k < masks.len(),
        !ids.contains_key(masks[k]),
        mons.len() < u32::MAX,
    ensures
        walked(
            masks,
            k + 1,
            class.push(mons.len() as u32),
            mons.push(masks[k]),
            sizes.push(1u32),
            ids.insert(masks[k], mons.len() as u32),
        ),
{
    let x = masks[k];
    let s = masks.take(k);
    let c = mons.len() as u32;
    lemma_firsts(s);
    assert(masks.take(k + 1) =~= s.push(x));
    lemma_firsts_push(s, x);
    assert(!s.contains(x));
    lemma_occurrences_absent(s, x);
    let mons2 = mons.push(x);
    let sizes2 = sizes.push(1u32);
    let ids2 = ids.insert(x, c);
    assert forall|d: int| 0 <= d < sizes2.len() implies #[trigger] sizes2[d] == occurrences(
        masks.take(k + 1),
        mons2[d],
    ) by {
        assert(occurrences(s.push(x), mons2[d]) == occurrences(s, mons2[d]) + (if x == mons2[d] {
            1nat
        } else {
            0nat
        }));
        if d < mons.len() {
            assert(mons2[d] == mons[d]);
            assert(mons.contains(mons[d]));
        }
    }
    let class2 = class.push(c);
    assert forall|p: int| 0 <= p < k + 1 implies #[trigger] class2[p] < mons2.len() && mons2[class2[p] as int]
        == masks[p] by {
        if p < k {
            assert(class2[p] == class[p]);
            assert(mons2[class[p] as int] == mons[class[p] as int]);
        }
    }
    assert forall|y: u64| ids2.contains_key(y) <==> mons2.contains(y) by {
        if mons2.contains(y) && y != x {
            let q = choose|q: int| 0 <= q < mons2.len() && mons2[q] == y;
            assert(mons[q] == y);
        }
        if mons.contains(y) {
            let q = choose|q: int| 0 <= q < mons.len() && mons[q] == y;
            assert(mons2[q] == y);
        }
        assert(mons2[mons.len() as int] == x);
    }
    assert forall|d: int| 0 <= d < mons2.len() implies #[trigger] ids2[mons2[d]] == d by {
        if d < mons.len() {
            assert(mons2[d] == mons[d]);
            assert(mons.contains(mons[d]));
        }
    }
}

impl Level2 {
    /// Spins.
    pub closed spec fn spins(&self) -> nat {
        self.n as nat
    }

    /// Rows of the moment matrix.
    pub closed spec fn rows(&self) -> nat {
        self.dim as nat
    }

    /// The basis, row by row.
    pub closed spec fn basis_seq(&self) -> Seq<u64> {
        self.basis@
    }

    /// The class of each entry, row-major.
    pub closed spec fn class_seq(&self) -> Seq<u32> {
        self.class@
    }

    /// The monomial each class names.
    pub closed spec fn monomial_seq(&self) -> Seq<u64> {
        self.monomials@
    }

    /// How many entries each class has.
    pub closed spec fn size_seq(&self) -> Seq<u32> {
        self.sizes@
    }

    /// The class of the constant monomial.
    pub closed spec fn empty_class(&self) -> int {
        self.empty as int
    }

    /// The level-2 index of `spins()` spins: the basis [`basis_of`], the classes numbered by first
    /// occurrence in a row-major walk, each entry's class naming its product, and each class's size
    /// the number of entries naming its monomial.
    pub open spec fn wf(&self) -> bool {
        let masks = entry_masks(self.basis_seq());
        &&& self.spins() <= MAX_SPINS
        &&& self.rows() == dim_of(self.spins())
        &&& self.basis_seq() == basis_of(self.spins())
        &&& self.monomial_seq() == firsts(masks)
        &&& self.class_seq().len() == masks.len()
        &&& forall|e: int|
            0 <= e < masks.len() ==> #[trigger] self.class_seq()[e] < self.monomial_seq().len()
                && self.monomial_seq()[self.class_seq()[e] as int] == masks[e]
        &&& self.size_seq().len() == self.monomial_seq().len()
        &&& forall|c: int|
            0 <= c < self.size_seq().len() ==> #[trigger] self.size_seq()[c] == occurrences(
                masks,
                self.monomial_seq()[c],
            )
        &&& 0 <= self.empty_class() < self.monomial_seq().len()
        &&& self.monomial_seq()[self.empty_class()] == 0
    }

    /// How many rows the level-2 moment matrix has for `n` spins: `1 + n + n(n-1)/2`.
    pub fn dim_for(n: usize) -> (d: usize)
        requires
            n * (n - 1) <= usize::MAX,
            dim_of(n as nat) <= usize::MAX,
        ensures
            d == dim_of(n as nat),
    {
        let m = n.saturating_sub(1);
        proof {
            assert((n as int) * (m as int) == (n as int) * ((n as int) - 1)) by (nonlinear_arith)
                requires
                    m == (if n == 0 { 0 } else { n - 1 }),
            ;
            assert(dim_of(n as nat) == 1 + n + (n as int) * (m as int) / 2);
        }
        1 + n + n * m / 2
    }


    /// The monomial basis and class map for `n` spins, or [`SosError::TooWide`] past
    /// [`MAX_SPINS`].
    pub fn new(n: usize) -> (res: Result<Level2, SosError>)
        ensures
            match res {
                Ok(l) => n <= MAX_SPINS && l.wf() && l.spins() == n,
                Err(e) => n > MAX_SPINS && e == SosError::TooWide { n, max: MAX_SPINS },
            },
    {
        if n > MAX_SPINS {
            return Err(SosError::TooWide { n, max: MAX_SPINS });
        }
        proof {
            assert((n as int) * ((n as int) - 1) <= 552 && n * n <= 576) by (nonlinear_arith)
                requires
                    n <= 24,
            ;
            assert(dim_of(n as nat) <= 301);
        }
        let dim = Level2::dim_for(n);
        let basis = build_basis(n);
        proof {
            lemma_basis_distinct(n as nat);
            assert(1 <= dim * dim <= 301 * 301) by (nonlinear_arith)
                requires
                    1 <= dim <= 301,
            ;
        }
        let ghost masks = entry_masks(basis@);
        let mut ids: BTreeMap<u64, u32> = BTreeMap::new();
        let mut monomials: Vec<u64> = Vec::new();
        let mut sizes: Vec<u32> = Vec::new();
        let mut class: Vec<u32> = Vec::new();
        let mut e: usize = 0;
        let mut a: usize = 0;
        proof {
            assert(masks.take(0) =~= Seq::<u64>::empty());
            assert(firsts(masks.take(0)) =~= Seq::<u64>::empty());
        }
        while a < dim
            invariant
                n <= MAX_SPINS,
                dim == dim_of(n as nat),
                dim <= 301,
                basis@ == basis_of(n as nat),
                basis@.len() == dim,
                masks == entry_masks(basis@),
                masks.len() == dim * dim,
                dim * dim <= 301 * 301,
                a <= dim,
                e == a * dim,
                walked(masks, e as int, class@, monomials@, sizes@, ids@),
            decreases dim - a,
        {
            let mut b: usize = 0;
            while b < dim
                invariant
                    n <= MAX_SPINS,
                    dim <= 301,
                    basis@.len() == dim,
                    masks == entry_masks(basis@),
                    masks.len() == dim * dim,
                    dim * dim <= 301 * 301,
                    a < dim,
                    b <= dim,
                    e == a * dim + b,
                    walked(masks, e as int, class@, monomials@, sizes@, ids@),
                decreases dim - b,
            {
                proof {
                    assert(e < dim * dim) by (nonlinear_arith)
                        requires
                            e == a * dim + b,
                            a < dim,
                            b < dim,
                    ;
                    vstd::arithmetic::div_mod::lemma_fundamental_div_mod_converse(
                        e as int,
                        dim as int,
                        a as int,
                        b as int,
                    );
                    lemma_firsts(masks.take(e as int));
                }
                let mask = product(basis[a], basis[b]);
                assert(mask == masks[e as int]);
                let id: u32 = match ids.get(&mask) {
                    Some(c) => {
                        let c = *c;
                        proof {
                            lemma_walk_seen(masks, e as int, class@, monomials@, sizes@, ids@, c);
                        }
                        class.push(c);
                        let z = sizes[c as usize];
                        sizes.set(c as usize, z + 1);
                        c
                    },
                    None => {
                        let c = monomials.len() as u32;
                        proof {
                            lemma_walk_new(masks, e as int, class@, monomials@, sizes@, ids@);
                        }
                        class.push(c);
                        monomials.push(mask);
                        sizes.push(1u32);
                        ids.insert(mask, c);
                        c
                    },
                };
                b += 1;
                e += 1;
            }
            proof {
                assert(e == (a + 1) * dim) by (nonlinear_arith)
                    requires
                        e == a * dim + dim,
                ;
            }
            a += 1;
        }
        proof {
            assert(e == dim * dim);
            assert(masks.take(e as int) =~= masks);
            assert(class@[0] < monomials@.len());
            vstd::arithmetic::div_mod::lemma_fundamental_div_mod_converse(0, dim as int, 0, 0);
            assert(masks[0] == basis@[0] ^ basis@[0]);
            assert(basis@[0] == 0u64);
            assert(0u64 ^ 0u64 == 0u64) by (bit_vector);
        }
        // Entry (0, 0) names the constant: it opens the first class.
        let empty = class[0] as usize;
        Ok(Level2 { n, dim, basis, class, monomials, sizes, empty })
    }
    /// Spins.
    pub fn n(&self) -> (r: usize)
        ensures
            r == self.spins(),
    {
        self.n
    }

    /// Rows of the moment matrix.
    pub fn dim(&self) -> (r: usize)
        ensures
            r == self.rows(),
    {
        self.dim
    }

    /// Monomial classes, one free variable each: the count of distinct `basis[a] ^ basis[b]`.
    pub fn classes(&self) -> (r: usize)
        ensures
            r == self.monomial_seq().len(),
    {
        self.monomials.len()
    }

    /// Row `a`'s monomial, as a bitmask over spins.
    pub fn basis(&self) -> (r: &[u64])
        ensures
            r@ == self.basis_seq(),
    {
        self.basis.as_slice()
    }

    /// Which monomial class entry `(a, b)` belongs to. Both indices must be rows.
    pub fn class_of(&self, a: usize, b: usize) -> (c: usize)
        requires
            self.wf(),
            a < self.rows(),
            b < self.rows(),
        ensures
            c == self.class_seq()[a * self.rows() + b],
    {
        proof {
            lemma_basis_distinct(self.n as nat);
            assert((self.n as int) * ((self.n as int) - 1) <= 552) by (nonlinear_arith)
                requires
                    self.n <= 24,
            ;
            assert(a * self.dim + b < self.dim * self.dim <= 301 * 301) by (nonlinear_arith)
                requires
                    a < self.dim,
                    b < self.dim,
                    self.dim <= 301,
            ;
            assert(self.class@.len() == self.dim * self.dim);
        }
        self.class[a * self.dim + b] as usize
    }

    /// The monomial class `c` names, as a bitmask over spins. `c` must be a class.
    pub fn monomial(&self, c: usize) -> (m: u64)
        requires
            c < self.monomial_seq().len(),
        ensures
            m == self.monomial_seq()[c as int],
    {
        self.monomials[c]
    }

    /// The class of the constant monomial `1`, whose moment is fixed to one.
    pub fn constant_class(&self) -> (c: usize)
        ensures
            c == self.empty_class(),
    {
        self.empty
    }

    /// How many entries of the moment matrix belong to class `c`. `c` must be a class.
    pub fn class_size(&self, c: usize) -> (k: usize)
        requires
            self.wf(),
            c < self.monomial_seq().len(),
        ensures
            k == self.size_seq()[c as int],
    {
        self.sizes[c] as usize
    }

    /// The moment matrix `M(y)[a][b] = y[class of (a, b)]`, row-major, for one value per class.
    ///
    /// The consistency constraints are unrepresentable here rather than imposed: there is one input
    /// value per class and every entry of a class reads it.
    pub fn moment_matrix<T: Copy>(&self, y: &[T]) -> (m: Vec<T>)
        requires
            self.wf(),
            y@.len() == self.monomial_seq().len(),
        ensures
            m@.len() == self.class_seq().len(),
            forall|e: int| 0 <= e < m@.len() ==> #[trigger] m@[e] == y@[self.class_seq()[e] as int],
    {
        let mut m: Vec<T> = Vec::new();
        let mut e: usize = 0;
        while e < self.class.len()
            invariant
                self.wf(),
                y@.len() == self.monomial_seq().len(),
                e <= self.class@.len(),
                m@.len() == e,
                forall|q: int| 0 <= q < e ==> #[trigger] m@[q] == y@[self.class@[q] as int],
            decreases self.class@.len() - e,
        {
            let c = self.class[e] as usize;
            m.push(y[c]);
            e += 1;
        }
        m
    }
}

// ---------------------------------------------------------------------------------------------
// What the index promises.
// ---------------------------------------------------------------------------------------------

/// Entry `(a, b)` lies in the class of the monomial `basis[a] ^ basis[b]`: the product of two
/// square-free monomials under `s_i^2 = 1`.
pub proof fn lemma_entry_names_product(l: Level2, a: int, b: int)
    requires
        l.wf(),
        0 <= a < l.rows(),
        0 <= b < l.rows(),
    ensures
        l.class_seq()[a * l.rows() + b] < l.monomial_seq().len(),
        l.monomial_seq()[l.class_seq()[a * l.rows() + b] as int] == l.basis_seq()[a] ^ l.basis_seq()[b],
{
    let d = l.rows() as int;
    lemma_basis_distinct(l.spins());
    assert(0 <= a * d + b < d * d) by (nonlinear_arith)
        requires
            0 <= a < d,
            0 <= b < d,
    ;
    vstd::arithmetic::div_mod::lemma_fundamental_div_mod_converse(a * d + b, d, a, b);
    assert(entry_masks(l.basis_seq())[a * d + b] == l.basis_seq()[a] ^ l.basis_seq()[b]);
}

/// Entries `(a, b)` and `(b, a)` are in the same class: the moment matrix is symmetric by
/// construction.
pub proof fn lemma_class_of_symmetric(l: Level2, a: int, b: int)
    requires
        l.wf(),
        0 <= a < l.rows(),
        0 <= b < l.rows(),
    ensures
        l.class_seq()[a * l.rows() + b] == l.class_seq()[b * l.rows() + a],
{
    let d = l.rows() as int;
    lemma_entry_names_product(l, a, b);
    lemma_entry_names_product(l, b, a);
    let x = l.basis_seq()[a];
    let y = l.basis_seq()[b];
    assert(x ^ y == y ^ x) by (bit_vector);
    lemma_firsts(entry_masks(l.basis_seq()));
}

/// Entry `(a, b)` is in the constant class exactly when it is on the diagonal: the basis names no
/// monomial twice, so `basis[a] ^ basis[b]` is the constant only for `a == b`.
pub proof fn lemma_constant_class_is_diagonal(l: Level2, a: int, b: int)
    requires
        l.wf(),
        0 <= a < l.rows(),
        0 <= b < l.rows(),
    ensures
        l.class_seq()[a * l.rows() + b] == l.empty_class() <==> a == b,
{
    lemma_entry_names_product(l, a, b);
    lemma_basis_distinct(l.spins());
    lemma_firsts(entry_masks(l.basis_seq()));
    let x = l.basis_seq()[a];
    let y = l.basis_seq()[b];
    assert((x ^ y == 0u64) <==> x == y) by (bit_vector);
    let c = l.class_seq()[a * l.rows() + b] as int;
    if c == l.empty_class() {
        assert(x ^ y == 0u64);
    }
    if a == b {
        assert(x ^ y == 0u64);
        assert(l.monomial_seq()[c] == l.monomial_seq()[l.empty_class()]);
    }
}

proof fn lemma_total_is_occurrence_total(sizes: Seq<u32>, m: Seq<u64>, s: Seq<u64>, k: int)
    requires
        0 <= k <= sizes.len(),
        sizes.len() == m.len(),
        forall|c: int| 0 <= c < sizes.len() ==> #[trigger] sizes[c] == occurrences(s, m[c]),
    ensures
        total(sizes, k) == occurrence_total(m, s, k),
    decreases k,
{
    if k > 0 {
        lemma_total_is_occurrence_total(sizes, m, s, k - 1);
        assert(sizes[k - 1] == occurrences(s, m[k - 1]));
    }
}

/// The classes partition the entries: their sizes add up to `rows^2`, each entry counted once.
pub proof fn lemma_classes_partition_entries(l: Level2)
    requires
        l.wf(),
    ensures
        total(l.size_seq(), l.monomial_seq().len() as int) == l.rows() * l.rows(),
{
    let masks = entry_masks(l.basis_seq());
    lemma_basis_distinct(l.spins());
    lemma_total_is_occurrence_total(l.size_seq(), l.monomial_seq(), masks, l.monomial_seq().len() as int);
    lemma_firsts_partition(masks);
}

proof fn lemma_diagonal_count(l: Level2, a: int, b: int)
    requires
        l.wf(),
        0 <= a < l.rows(),
        0 <= b <= l.rows(),
    ensures
        0 <= a * l.rows() + b <= l.rows() * l.rows(),
        occurrences(entry_masks(l.basis_seq()).take(a * l.rows() + b), 0u64) == a + (if b > a {
            1int
        } else {
            0int
        }),
    decreases a, b,
{
    let d = l.rows() as int;
    let masks = entry_masks(l.basis_seq());
    lemma_basis_distinct(l.spins());
    assert(0 <= a * d + b <= d * d) by (nonlinear_arith)
        requires
            0 <= a < d,
            0 <= b <= d,
    ;
    if b > 0 {
        lemma_diagonal_count(l, a, b - 1);
        let k = a * d + b - 1;
        assert(masks.take(k + 1) =~= masks.take(k).push(masks[k]));
        lemma_firsts_push(masks.take(k), masks[k]);
        lemma_entry_names_product(l, a, b - 1);
        lemma_constant_class_is_diagonal(l, a, b - 1);
        lemma_firsts(masks);
        vstd::arithmetic::div_mod::lemma_fundamental_div_mod_converse(k, d, a, b - 1);
        assert(masks[k] == l.basis_seq()[a] ^ l.basis_seq()[b - 1]);
        let c = l.class_seq()[k] as int;
        assert(l.monomial_seq()[c] == masks[k]);
        if masks[k] == 0u64 {
            assert(l.monomial_seq()[c] == l.monomial_seq()[l.empty_class()]);
            assert(c == l.empty_class());
        }
        if a == b - 1 {
            assert(masks[k] == 0u64);
        }
        assert(occurrences(masks.take(k).push(masks[k]), 0u64) == occurrences(masks.take(k), 0u64)
            + (if masks[k] == 0u64 {
            1nat
        } else {
            0nat
        }));
        assert(masks.take(a * d + b) == masks.take(k).push(masks[k]));
    } else if a > 0 {
        lemma_diagonal_count(l, a - 1, d);
        assert((a - 1) * d + d == a * d) by (nonlinear_arith);
    } else {
        assert(a * d + b == 0) by (nonlinear_arith)
            requires
                a == 0,
                b == 0,
        ;
        assert(masks.take(a * d + b) =~= Seq::<u64>::empty());
    }
}

/// The constant class holds exactly the `rows` diagonal entries, so its moment sums the trace.
pub proof fn lemma_constant_class_size(l: Level2)
    requires
        l.wf(),
    ensures
        l.size_seq()[l.empty_class()] == l.rows(),
{
    let d = l.rows() as int;
    let masks = entry_masks(l.basis_seq());
    lemma_basis_distinct(l.spins());
    lemma_diagonal_count(l, d - 1, d);
    assert((d - 1) * d + d == d * d) by (nonlinear_arith);
    assert(masks.take(d * d) =~= masks);
}


/// The product of the spins of `s` that mask `m` picks out among the first `k`: the monomial `m`
/// evaluated at the state `s`.
pub open spec fn spin_product(s: Seq<i8>, m: u64, k: nat) -> int
    decreases k,
{
    if k == 0 {
        1
    } else {
        spin_product(s, m, (k - 1) as nat) * (if (m >> ((k - 1) as u64)) & 1u64 == 1u64 {
            s[k - 1] as int
        } else {
            1int
        })
    }
}

/// On spins, the monomial `a ^ b` is the product of the monomials `a` and `b`: `s_i^2 = 1`.
proof fn lemma_product_of_xor(s: Seq<i8>, a: u64, b: u64, k: nat)
    requires
        k <= 64,
        k <= s.len(),
        forall|j: int| 0 <= j < k ==> #[trigger] s[j] == 1 || s[j] == -1,
    ensures
        spin_product(s, a ^ b, k) == spin_product(s, a, k) * spin_product(s, b, k),
    decreases k,
{
    if k > 0 {
        lemma_product_of_xor(s, a, b, (k - 1) as nat);
        let j = (k - 1) as u64;
        let x = a ^ b;
        assert((x >> j) & 1u64 == ((a >> j) & 1u64) ^ ((b >> j) & 1u64)) by (bit_vector)
            requires
                x == a ^ b,
        ;
        assert((a >> j) & 1u64 == 0u64 || (a >> j) & 1u64 == 1u64) by (bit_vector);
        assert((b >> j) & 1u64 == 0u64 || (b >> j) & 1u64 == 1u64) by (bit_vector);
        assert(0u64 ^ 0u64 == 0u64 && 0u64 ^ 1u64 == 1u64 && 1u64 ^ 0u64 == 1u64 && 1u64 ^ 1u64 == 0u64) by (bit_vector);
        let v = s[k - 1] as int;
        assert(v * v == 1) by (nonlinear_arith)
            requires
                v == 1 || v == -1,
        ;
        let pa = spin_product(s, a, (k - 1) as nat);
        let pb = spin_product(s, b, (k - 1) as nat);
        let fa: int = if (a >> j) & 1u64 == 1u64 { v } else { 1 };
        let fb: int = if (b >> j) & 1u64 == 1u64 { v } else { 1 };
        let fx: int = if (x >> j) & 1u64 == 1u64 { v } else { 1 };
        assert(fx == fa * fb);
        assert((pa * pb) * (fa * fb) == (pa * fa) * (pb * fb)) by (nonlinear_arith);
    }
}

/// The moments of a state of spins factor through the basis: entry `(a, b)` of its moment matrix
/// is the value of row `a`'s monomial times that of row `b`'s, so the matrix is `z zT`, positive
/// semidefinite and of rank one, and every state is a feasible point of the moment problem.
pub proof fn lemma_state_moments_are_rank_one(l: Level2, s: Seq<i8>, a: int, b: int)
    requires
        l.wf(),
        s.len() >= l.spins(),
        forall|i: int| 0 <= i < l.spins() ==> #[trigger] s[i] == 1 || s[i] == -1,
        0 <= a < l.rows(),
        0 <= b < l.rows(),
    ensures
        spin_product(s, l.monomial_seq()[l.class_seq()[a * l.rows() + b] as int], l.spins()) == spin_product(
            s,
            l.basis_seq()[a],
            l.spins(),
        ) * spin_product(s, l.basis_seq()[b], l.spins()),
{
    lemma_entry_names_product(l, a, b);
    lemma_product_of_xor(s, l.basis_seq()[a], l.basis_seq()[b], l.spins());
}

} // verus!
