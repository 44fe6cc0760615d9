//! Sourlas codes: error correction as a spin glass.
//!
//! `K` message bits `xi in {-1, +1}^K` are encoded as `M` products over `C`-subsets,
//! `J_S = prod_{i in S} xi_i`; decoding the received word is sampling a `C`-spin glass whose
//! couplings are the received symbols. A code whose checks all have even size has a global
//! spin-flip symmetry, which [`Code::with_message_bits`] breaks by sending every message bit on
//! its own as well.

use vstd::prelude::*;
use vstd::string::StringExecFns;
use crate::region::{holds, lemma_sorted_unique, strictly_inc, views};
use crate::text::{decimal_chars, push_decimal};

verus! {

/// The most message bits the exact posterior enumerates: `2^16` states.
pub const MAX_MESSAGE_BITS: usize = 16;

/// The most checks the exact channel average enumerates: `2^14` noise patterns.
pub const MAX_CHECKS_EXACT: usize = 14;

/// The golden-ratio increment of SplitMix64.
pub const GOLDEN: u64 = 0x9E37_79B9_7F4A_7C15;

/// SplitMix64's finaliser applied to `z + GOLDEN`, all modulo `2^64`.
pub open spec fn splitmix_spec(z: u64) -> u64 {
    let z1 = vstd::wrapping::u64_specs::wrapping_add(z, GOLDEN);
    let x1 = vstd::wrapping::u64_specs::wrapping_mul(z1 ^ (z1 >> 30u64), 0xBF58_476D_1CE4_E5B9u64);
    let x2 = vstd::wrapping::u64_specs::wrapping_mul(x1 ^ (x1 >> 27u64), 0x94D0_49BB_1331_11EBu64);
    x2 ^ (x2 >> 31u64)
}

/// One SplitMix64 output: a stateless 64-bit mix of `z`.
pub fn splitmix(z: u64) -> (r: u64)
    ensures
        r == splitmix_spec(z),
{
    let z = z.wrapping_add(GOLDEN);
    let mut x = z;
    x = (x ^ (x >> 30u64)).wrapping_mul(0xBF58_476D_1CE4_E5B9u64);
    x = (x ^ (x >> 27u64)).wrapping_mul(0x94D0_49BB_1331_11EBu64);
    x ^ (x >> 31u64)
}

/// A Sourlas code: `k` message bits and `m` checks, each a `c`-subset of the bits.
#[derive(Clone, Debug, PartialEq, Eq)]
pub struct Code {
    /// Message bits.
    pub k: usize,
    /// The checks, each a sorted list of distinct bit indices.
    pub checks: Vec<Vec<usize>>,
}

/// Why a code or a request cannot be served.
#[derive(Clone, Debug, PartialEq, Eq)]
pub enum Invalid {
    /// More message bits than the exact posterior enumerates.
    TooManyBits {
        /// Bits asked for.
        k: usize,
    },
    /// More checks than the exact channel average enumerates.
    TooManyChecks {
        /// Checks asked for.
        m: usize,
    },
    /// A check of this size is not a pair, so the posterior is not an Ising graph.
    NotPairwise {
        /// The offending check's size.
        c: usize,
    },
    /// A word of the wrong length for this code.
    WrongLength {
        /// Expected.
        want: usize,
        /// Got.
        got: usize,
    },
    /// Not enough distinct `c`-subsets of `k` bits to make `m` checks.
    TooFewSubsets,
}

/// What a refusal of a code or a request says.
pub open spec fn invalid_text(e: Invalid) -> Seq<char> {
    match e {
        Invalid::TooManyBits { k } => decimal_chars(k as nat) + " message bits exceed the exact limit of "@
            + decimal_chars(MAX_MESSAGE_BITS as nat),
        Invalid::TooManyChecks { m } => decimal_chars(m as nat)
            + " checks exceed the exact channel limit of "@ + decimal_chars(MAX_CHECKS_EXACT as nat),
        Invalid::NotPairwise { c } => "a check over "@ + decimal_chars(c as nat) + " bits is not a pair"@,
        Invalid::WrongLength { want, got } => "expected a word of "@ + decimal_chars(want as nat)
            + " bits, got "@ + decimal_chars(got as nat),
        Invalid::TooFewSubsets => "not enough distinct subsets for that many checks"@,
    }
}

impl Invalid {
    /// The refusal in words.
    pub fn message(&self) -> (s: String)
        ensures
            s@ == invalid_text(*self),
    {
        match self {
            Invalid::TooManyBits { k } => {
                let mut s = String::new();
                push_decimal(&mut s, *k);
                s.append(" message bits exceed the exact limit of ");
                push_decimal(&mut s, MAX_MESSAGE_BITS);
                s
            },
            Invalid::TooManyChecks { m } => {
                let mut s = String::new();
                push_decimal(&mut s, *m);
                s.append(" checks exceed the exact channel limit of ");
                push_decimal(&mut s, MAX_CHECKS_EXACT);
                s
            },
            Invalid::NotPairwise { c } => {
                let mut s = String::from_str("a check over ");
                push_decimal(&mut s, *c);
                s.append(" bits is not a pair");
                s
            },
            Invalid::WrongLength { want, got } => {
                let mut s = String::from_str("expected a word of ");
                push_decimal(&mut s, *want);
                s.append(" bits, got ");
                push_decimal(&mut s, *got);
                s
            },
            Invalid::TooFewSubsets => String::from_str("not enough distinct subsets for that many checks"),
        }
    }
}

/// The number of `c`-subsets of `k` things, by Pascal's rule.
pub open spec fn binomial(k: nat, c: nat) -> nat
    decreases k,
{
    if c == 0 {
        1
    } else if k == 0 {
        0
    } else {
        binomial((k - 1) as nat, (c - 1) as nat) + binomial((k - 1) as nat, c)
    }
}

/// `(i + 1) C(k, i + 1) = (k - i) C(k, i)`.
pub proof fn lemma_binomial_absorption(k: nat, i: nat)
    ensures
        (i + 1) * (binomial(k, i + 1) as int) == (k - i) * (binomial(k, i) as int),
    decreases k,
{
    if k > 0 {
        let kk = (k - 1) as nat;
        let a = binomial(kk, i) as int;
        let b = binomial(kk, i + 1) as int;
        lemma_binomial_absorption(kk, i);
        assert(binomial(k, i + 1) == a + b);
        assert((i + 1) * b == (kk - i) * a);
        let lhs = (i + 1) * (binomial(k, i + 1) as int);
        assert(lhs == (i + 1) * a + (i + 1) * b) by (nonlinear_arith)
            requires
                lhs == (i + 1) * (binomial(k, i + 1) as int),
                binomial(k, i + 1) == a + b,
        ;
        assert(lhs == k * a) by (nonlinear_arith)
            requires
                lhs == (i + 1) * a + (i + 1) * b,
                (i + 1) * b == (kk - i) * a,
                kk == k - 1,
        ;
        let rhs = (k - i) * (binomial(k, i) as int);
        if i > 0 {
            let d = binomial(kk, (i - 1) as nat) as int;
            lemma_binomial_absorption(kk, (i - 1) as nat);
            assert(binomial(k, i) == d + a);
            assert(i * a == (kk - (i - 1)) * d);
            assert(rhs == (k - i) * d + (k - i) * a) by (nonlinear_arith)
                requires
                    rhs == (k - i) * (binomial(k, i) as int),
                    binomial(k, i) == d + a,
            ;
            assert(rhs == k * a) by (nonlinear_arith)
                requires
                    rhs == (k - i) * d + (k - i) * a,
                    i * a == (kk - (i - 1)) * d,
                    kk == k - 1,
            ;
        } else {
            assert(binomial(kk, 0) == 1);
            assert(binomial(k, 0) == 1);
            assert(rhs == k * a) by (nonlinear_arith)
                requires
                    rhs == (k - i) * (binomial(k, i) as int),
                    i == 0,
                    a == 1,
                    binomial(k, i) == 1,
            ;
        }
        assert(lhs == rhs);
    } else {
        assert(binomial(0, i + 1) == 0);
        if i > 0 {
            assert(binomial(0, i) == 0);
            assert((k - i) * (binomial(k, i) as int) == 0) by (nonlinear_arith)
                requires
                    binomial(k, i) == 0,
            ;
        } else {
            assert((k - i) * (binomial(k, i) as int) == 0) by (nonlinear_arith)
                requires
                    k == 0,
                    i == 0,
            ;
        }
        assert((i + 1) * (binomial(k, i + 1) as int) == 0) by (nonlinear_arith)
            requires
                binomial(k, i + 1) == 0,
        ;
    }
}

/// Whether `s` is a check of a code on `k` bits with checks of size `c`: `c` distinct bits below
/// `k`, in increasing order.
pub open spec fn is_check(s: Seq<usize>, k: nat, c: nat) -> bool {
    &&& s.len() == c
    &&& forall|p: int, q: int| 0 <= p < q < s.len() ==> s[p] < s[q]
    &&& forall|p: int| 0 <= p < s.len() ==> s[p] < k
}

/// Whether `s`, increasing, holds `r`.
fn holds_bit(s: &Vec<usize>, r: usize) -> (b: bool)
    ensures
        b == s@.contains(r),
{
    let mut q: usize = 0;
    while q < s.len()
        invariant
            q <= s@.len(),
            forall|p: int| 0 <= p < q ==> s@[p] != r,
        decreases s@.len() - q,
    {
        if s[q] == r {
            return true;
        }
        q += 1;
    }
    false
}

/// Insert `r`, which `s` does not hold, keeping `s` increasing.
fn insert_sorted(s: &mut Vec<usize>, r: usize)
    requires
        forall|p: int, q: int| 0 <= p < q < old(s)@.len() ==> old(s)@[p] < old(s)@[q],
        !old(s)@.contains(r),
    ensures
        forall|p: int, q: int| 0 <= p < q < final(s)@.len() ==> final(s)@[p] < final(s)@[q],
        final(s)@.len() == old(s)@.len() + 1,
        forall|x: usize| final(s)@.contains(x) <==> (old(s)@.contains(x) || x == r),
{
    let ghost before = s@;
    let mut at: usize = 0;
    while at < s.len() && s[at] < r
        invariant
            at <= s@.len(),
            s@ == before,
            forall|p: int| 0 <= p < at ==> s@[p] < r,
        decreases s@.len() - at,
    {
        at += 1;
    }
    s.insert(at, r);
    proof {
        assert forall|p: int| at < p < s@.len() implies s@[p] > r by {
            assert(s@[p] == before[p - 1]);
            assert(before[at as int] != r);
            assert(before[at as int] >= r);
            if p - 1 > at {
                assert(before[at as int] < before[p - 1]);
            }
        }
        assert forall|p: int, q: int| 0 <= p < q < s@.len() implies s@[p] < s@[q] by {
            if q < at {
                assert(s@[p] == before[p] && s@[q] == before[q]);
            } else if q == at {
            } else if p > at {
                assert(s@[p] == before[p - 1] && s@[q] == before[q - 1]);
            } else if p == at {
            } else {
                assert(s@[p] == before[p]);
            }
        }
        assert forall|x: usize| s@.contains(x) <==> (before.contains(x) || x == r) by {
            if s@.contains(x) {
                let p = choose|p: int| 0 <= p < s@.len() && s@[p] == x;
                if p < at {
                    assert(before[p] == x);
                } else if p > at {
                    assert(before[p - 1] == x);
                }
            }
            if before.contains(x) {
                let p = choose|p: int| 0 <= p < before.len() && before[p] == x;
                if p < at {
                    assert(s@[p] == x);
                } else {
                    assert(s@[p + 1] == x);
                }
            }
            assert(s@[at as int] == r);
        }
    }
}

/// The bit the `d`-th draw of the stream of `seed` names, among `k` bits.
pub open spec fn drawn_bit(seed: u64, k: usize, d: u64) -> usize {
    (splitmix_spec(seed ^ vstd::wrapping::u64_specs::wrapping_mul(d, GOLDEN)) % (k as u64)) as usize
}

/// The increasing list of the bits `sub` names.
pub open spec fn sorted_bits(sub: Seq<usize>) -> Seq<usize> {
    choose|t: Seq<usize>| strictly_inc(t) && forall|x: usize| t.contains(x) <==> sub.contains(x)
}

/// Drawing a random code from a given point of the stream: `checks` kept so far, the bits `sub`
/// of the subset being drawn in the order they came, and the next draw `draw`. A subset of `c`
/// bits joins the checks unless it is one of them already; a draw names a bit, which joins the
/// subset unless it is in it already. `None` once the draw counter runs out first.
pub open spec fn draws_from(
    k: usize,
    m: usize,
    c: usize,
    seed: u64,
    checks: Seq<Seq<usize>>,
    sub: Seq<usize>,
    draw: u64,
) -> Option<Seq<Seq<usize>>>
    decreases u64::MAX - draw, (if sub.len() >= c { 1int } else { 0int }),
{
    if c == 0 || k == 0 {
        None
    } else if checks.len() >= m {
        Some(checks)
    } else if sub.len() >= c {
        let t = sorted_bits(sub);
        draws_from(k, m, c, seed, if checks.contains(t) { checks } else { checks.push(t) }, seq![], draw)
    } else if draw == u64::MAX {
        None
    } else {
        let r = drawn_bit(seed, k, draw);
        draws_from(k, m, c, seed, checks, if sub.contains(r) { sub } else { sub.push(r) }, (draw + 1) as u64)
    }
}

/// The checks of the random code `Code::random(k, m, c, seed)` draws, or `None` when it refuses:
/// more checks asked for than there are `c`-subsets, or a stream run dry.
pub open spec fn random_checks(k: usize, m: usize, c: usize, seed: u64) -> Option<Seq<Seq<usize>>> {
    if m > binomial(k as nat, c as nat) {
        None
    } else {
        draws_from(k, m, c, seed, seq![], seq![], 0)
    }
}

/// One draw: the bit it names joins the subset unless it is there already.
proof fn lemma_draw_step(k: usize, m: usize, c: usize, seed: u64, checks: Seq<Seq<usize>>, sub: Seq<usize>, draw: u64)
    requires
        1 <= c,
        1 <= k,
        checks.len() < m,
        sub.len() < c,
        draw < u64::MAX,
    ensures
        draws_from(k, m, c, seed, checks, sub, draw) == draws_from(
            k,
            m,
            c,
            seed,
            checks,
            if sub.contains(drawn_bit(seed, k, draw)) { sub } else { sub.push(drawn_bit(seed, k, draw)) },
            (draw + 1) as u64,
        ),
{
}

/// A full subset: its sorted bits join the checks unless they are one already.
proof fn lemma_draw_complete(k: usize, m: usize, c: usize, seed: u64, checks: Seq<Seq<usize>>, sub: Seq<usize>, draw: u64)
    requires
        1 <= c,
        1 <= k,
        checks.len() < m,
        sub.len() >= c,
    ensures
        draws_from(k, m, c, seed, checks, sub, draw) == draws_from(
            k,
            m,
            c,
            seed,
            if checks.contains(sorted_bits(sub)) { checks } else { checks.push(sorted_bits(sub)) },
            seq![],
            draw,
        ),
{
}

/// Adding a new bit `r` to a list of the same bits as `sub` gives the same bits as `sub` with `r`
/// pushed, still without repeats.
proof fn lemma_push_contents(old_bits: Seq<usize>, new_bits: Seq<usize>, sub: Seq<usize>, r: usize)
    requires
        forall|x: usize| new_bits.contains(x) <==> (old_bits.contains(x) || x == r),
        forall|x: usize| old_bits.contains(x) <==> sub.contains(x),
        !old_bits.contains(r),
        sub.no_duplicates(),
    ensures
        forall|x: usize| new_bits.contains(x) <==> sub.push(r).contains(x),
        sub.push(r).no_duplicates(),
        !sub.contains(r),
{
    let t = sub.push(r);
    assert(t[sub.len() as int] == r);
    assert forall|x: usize| new_bits.contains(x) <==> t.contains(x) by {
        if sub.contains(x) {
            let q = choose|q: int| 0 <= q < sub.len() && sub[q] == x;
            assert(t[q] == x);
        }
        if t.contains(x) && x != r {
            let q = choose|q: int| 0 <= q < t.len() && t[q] == x;
            assert(sub[q] == x);
        }
    }
}

impl Code {
    /// A random code: `m` distinct `c`-subsets of `k` bits, drawn without replacement from the
    /// SplitMix64 stream of `seed`, or [`Invalid::TooFewSubsets`] when `m` exceeds `C(k, c)`.
    ///
    /// The draw counter of the stream is 64 bits wide; a request that exhausted all `2^64` draws
    /// before finding `m` distinct subsets would also be answered [`Invalid::TooFewSubsets`].
    pub fn random(k: usize, m: usize, c: usize, seed: u64) -> (res: Result<Code, Invalid>)
        requires
            1 <= c <= k,
            forall|i: nat| i < c ==> #[trigger] binomial(k as nat, i) * (k - i) <= usize::MAX,
        ensures
            m > binomial(k as nat, c as nat) ==> res == Err::<Code, Invalid>(Invalid::TooFewSubsets),
            res is Ok <==> random_checks(k, m, c, seed) is Some,
            res matches Ok(code) ==> random_checks(k, m, c, seed) == Some(views(code.checks@)),
            match res {
                Ok(code) => {
                    &&& code.k == k
                    &&& code.checks@.len() == m
                    &&& forall|j: int|
                        0 <= j < m ==> is_check(#[trigger] code.checks@[j]@, k as nat, c as nat)
                    &&& views(code.checks@).no_duplicates()
                },
                Err(e) => e == Invalid::TooFewSubsets,
            },
    {
        let mut total: usize = 1;
        let mut i: usize = 0;
        while i < c
            invariant
                1 <= c <= k,
                forall|i: nat| i < c ==> #[trigger] binomial(k as nat, i) * (k - i) <= usize::MAX,
                i <= c,
                total == binomial(k as nat, i as nat),
            decreases c - i,
        {
            proof {
                lemma_binomial_absorption(k as nat, i as nat);
                assert(binomial(k as nat, i as nat) * (k - i) <= usize::MAX);
                assert(total * (k - i) == (i + 1) * binomial(k as nat, (i + 1) as nat));
                vstd::arithmetic::div_mod::lemma_div_by_multiple(
                    binomial(k as nat, (i + 1) as nat) as int,
                    (i + 1) as int,
                );
                assert((i + 1) * binomial(k as nat, (i + 1) as nat) == binomial(
                    k as nat,
                    (i + 1) as nat,
                ) * (i + 1)) by (nonlinear_arith);
            }
            total = total * (k - i) / (i + 1);
            i += 1;
        }
        if m > total {
            return Err(Invalid::TooFewSubsets);
        }
        let mut checks: Vec<Vec<usize>> = Vec::new();
        let mut draw: u64 = 0;
        assert(views(checks@) =~= seq![]);
        while checks.len() < m
            invariant
                1 <= c <= k,
                m <= binomial(k as nat, c as nat),
                draws_from(k, m, c, seed, views(checks@), seq![], draw) == random_checks(k, m, c, seed),
                checks@.len() <= m,
                forall|j: int|
                    0 <= j < checks@.len() ==> is_check(#[trigger] checks@[j]@, k as nat, c as nat),
                views(checks@).no_duplicates(),
            decreases u64::MAX - draw,
        {
            let ghost draw0 = draw;
            let mut subset: Vec<usize> = Vec::new();
            let ghost mut sub: Seq<usize> = seq![];
            while subset.len() < c
                invariant
                    1 <= c <= k,
                    checks@.len() < m,
                    m <= binomial(k as nat, c as nat),
                    draws_from(k, m, c, seed, views(checks@), sub, draw) == random_checks(k, m, c, seed),
                    sub.no_duplicates(),
                    sub.len() == subset@.len(),
                    forall|x: usize| subset@.contains(x) <==> sub.contains(x),
                    subset@.len() <= c,
                    forall|p: int, q: int| 0 <= p < q < subset@.len() ==> subset@[p] < subset@[q],
                    forall|p: int| 0 <= p < subset@.len() ==> subset@[p] < k,
                    draw >= draw0,
                    subset@.len() > 0 ==> draw > draw0,
                decreases u64::MAX - draw,
            {
                if draw == u64::MAX {
                    return Err(Invalid::TooFewSubsets);
                }
                let r = (splitmix(seed ^ draw.wrapping_mul(GOLDEN)) % (k as u64)) as usize;
                let ghost sub0 = sub;
                proof {
                    assert(r == drawn_bit(seed, k, draw));
                    lemma_draw_step(k, m, c, seed, views(checks@), sub0, draw);
                    sub = if sub0.contains(r) { sub0 } else { sub0.push(r) };
                }
                draw += 1;
                if !holds_bit(&subset, r) {
                    let ghost before = subset@;
                    insert_sorted(&mut subset, r);
                    proof {
                        lemma_push_contents(before, subset@, sub0, r);
                        assert forall|p: int| 0 <= p < subset@.len() implies subset@[p] < k by {
                            assert(subset@.contains(subset@[p]));
                            if subset@[p] != r {
                                assert(before.contains(subset@[p]));
                                let q = choose|q: int| 0 <= q < before.len() && before[q] == subset@[p];
                            }
                        }
                    }
                }
            }
            assert(is_check(subset@, k as nat, c as nat));
            proof {
                assert(strictly_inc(subset@));
                let t = sorted_bits(sub);
                assert(strictly_inc(subset@) && forall|x: usize| subset@.contains(x) <==> sub.contains(x));
                assert(strictly_inc(t) && forall|x: usize| t.contains(x) <==> sub.contains(x));
                lemma_sorted_unique(t, subset@);
                assert(t == subset@);
                lemma_draw_complete(k, m, c, seed, views(checks@), sub, draw);
            }
            if !holds(&checks, &subset) {
                let ghost before = checks@;
                checks.push(subset);
                proof {
                    assert(views(checks@) =~= views(before).push(checks@[before.len() as int]@));
                    assert forall|j: int|
                        0 <= j < checks@.len() implies is_check(#[trigger] checks@[j]@, k as nat, c as nat) by {
                        if j < before.len() {
                            assert(checks@[j] == before[j]);
                        }
                    }
                    assert forall|p: int, q: int|
                        0 <= p < views(checks@).len() && 0 <= q < views(checks@).len() && p != q implies views(
                            checks@,
                        )[p] != views(checks@)[q] by {
                        if p < before.len() && q < before.len() {
                            assert(views(checks@)[p] == views(before)[p]);
                            assert(views(checks@)[q] == views(before)[q]);
                        } else if p < before.len() {
                            assert(views(checks@)[p] == views(before)[p]);
                        } else {
                            assert(views(checks@)[q] == views(before)[q]);
                        }
                    }
                }
            }
        }
        Ok(Code { k, checks })
    }
}

/// The product of the message bits check `s` names, over its first `t` entries.
pub open spec fn check_product(msg: Seq<i8>, s: Seq<usize>, t: int) -> int
    decreases t,
{
    if t <= 0 {
        1
    } else {
        check_product(msg, s, t - 1) * (msg[s[t - 1] as int] as int)
    }
}

/// The codeword of `msg` under `checks`: one product per check.
pub open spec fn encoding_of(checks: Seq<Seq<usize>>, msg: Seq<i8>) -> Seq<int> {
    Seq::new(checks.len(), |j: int| check_product(msg, checks[j], checks[j].len() as int))
}

/// Whether every check names bits of `msg` and every running product of one fits in an `i8`.
pub open spec fn encodable(checks: Seq<Seq<usize>>, msg: Seq<i8>) -> bool {
    &&& forall|j: int, q: int|
        0 <= j < checks.len() && 0 <= q < checks[j].len() ==> #[trigger] checks[j][q] < msg.len()
    &&& forall|j: int, t: int|
        0 <= j < checks.len() && 0 <= t <= checks[j].len() ==> i8::MIN <= #[trigger] check_product(
            msg,
            checks[j],
            t,
        ) <= i8::MAX
}

/// The checks of a code with its `k` message bits sent on their own in front.
pub open spec fn with_bits(checks: Seq<Seq<usize>>, k: nat) -> Seq<Seq<usize>> {
    Seq::new(k, |i: int| seq![i as usize]) + checks
}

impl Code {
    /// The same code with every message bit also sent on its own: `k` singleton checks in front
    /// of the products. A field on every spin, which breaks the flip symmetry of an even-size
    /// code.
    pub fn with_message_bits(self) -> (r: Code)
        ensures
            r.k == self.k,
            views(r.checks@) == with_bits(views(self.checks@), self.k as nat),
    {
        let mut checks: Vec<Vec<usize>> = Vec::new();
        let mut i: usize = 0;
        while i < self.k
            invariant
                i <= self.k,
                views(checks@) == Seq::new(i as nat, |q: int| seq![q as usize]),
            decreases self.k - i,
        {
            let mut one: Vec<usize> = Vec::new();
            one.push(i);
            assert(one@ =~= seq![i]);
            let ghost before = views(checks@);
            checks.push(one);
            assert(views(checks@) =~= before.push(seq![i]));
            assert(views(checks@) =~= Seq::new((i + 1) as nat, |q: int| seq![q as usize]));
            i += 1;
        }
        let k = self.k;
        let ghost front = views(checks@);
        let ghost back = views(self.checks@);
        let mut rest = self.checks;
        checks.append(&mut rest);
        assert(views(checks@) =~= front + back);
        Code { k, checks }
    }

    /// Checks.
    pub fn m(&self) -> (r: usize)
        ensures
            r == self.checks@.len(),
    {
        self.checks.len()
    }

    /// The codeword of `message`: one product per check, or [`Invalid::WrongLength`] for a
    /// message of the wrong length.
    pub fn encode(&self, message: &[i8]) -> (res: Result<Vec<i8>, Invalid>)
        requires
            message@.len() == self.k ==> encodable(views(self.checks@), message@),
        ensures
            match res {
                Ok(w) => message@.len() == self.k && w@.len() == self.checks@.len() && forall|j: int|
                    0 <= j < w@.len() ==> #[trigger] w@[j] as int == encoding_of(
                        views(self.checks@),
                        message@,
                    )[j],
                Err(e) => message@.len() != self.k && e == (Invalid::WrongLength {
                    want: self.k,
                    got: message@.len() as usize,
                }),
            },
    {
        if message.len() != self.k {
            return Err(Invalid::WrongLength { want: self.k, got: message.len() });
        }
        let ghost cs = views(self.checks@);
        let mut word: Vec<i8> = Vec::new();
        let mut j: usize = 0;
        while j < self.checks.len()
            invariant
                message@.len() == self.k,
                cs == views(self.checks@),
                encodable(cs, message@),
                j <= self.checks@.len(),
                word@.len() == j,
                forall|q: int| 0 <= q < j ==> #[trigger] word@[q] as int == encoding_of(cs, message@)[q],
            decreases self.checks@.len() - j,
        {
            let s = &self.checks[j];
            assert(s@ == cs[j as int]);
            let mut acc: i8 = 1;
            let mut t: usize = 0;
            while t < s.len()
                invariant
                    s@ == cs[j as int],
                    j < cs.len(),
                    encodable(cs, message@),
                    t <= s@.len(),
                    acc as int == check_product(message@, s@, t as int),
                decreases s@.len() - t,
            {
                assert(cs[j as int][t as int] < message@.len());
                assert(i8::MIN <= check_product(message@, cs[j as int], t + 1) <= i8::MAX);
                acc = acc * message[s[t]];
                t += 1;
            }
            word.push(acc);
            j += 1;
        }
        Ok(word)
    }
}

/// Sending the message bits on their own puts the message itself in front of the codeword:
/// encoding under [`with_bits`] gives `msg` followed by the encoding under the original checks.
pub proof fn lemma_message_bits_lead_the_codeword(checks: Seq<Seq<usize>>, msg: Seq<i8>)
    requires
        encodable(checks, msg),
        msg.len() <= usize::MAX,
    ensures
        encodable(with_bits(checks, msg.len()), msg),
        encoding_of(with_bits(checks, msg.len()), msg) == Seq::new(msg.len(), |i: int| msg[i] as int)
            + encoding_of(checks, msg),
{
    let all = with_bits(checks, msg.len());
    let k = msg.len() as int;
    assert forall|j: int| 0 <= j < k implies check_product(msg, #[trigger] all[j], 1) == msg[j] as int by {
        assert(all[j] == seq![j as usize]);
        assert(check_product(msg, all[j], 1) == check_product(msg, all[j], 0) * (msg[all[j][0] as int] as int));
    }
    assert forall|j: int, q: int| 0 <= j < all.len() && 0 <= q < all[j].len() implies #[trigger] all[j][q]
        < msg.len() by {
        if j >= k {
            assert(all[j] == checks[j - k]);
        }
    }
    assert forall|j: int, t: int| 0 <= j < all.len() && 0 <= t <= all[j].len() implies i8::MIN
        <= #[trigger] check_product(msg, all[j], t) <= i8::MAX by {
        if j < k {
            assert(all[j] == seq![j as usize]);
            if t == 1 {
                assert(check_product(msg, all[j], 1) == msg[j] as int);
            }
        } else {
            assert(all[j] == checks[j - k]);
        }
    }
    assert forall|j: int| 0 <= j < all.len() implies encoding_of(all, msg)[j] == (Seq::new(
        msg.len(),
        |i: int| msg[i] as int,
    ) + encoding_of(checks, msg))[j] by {
        if j < k {
            assert(all[j] == seq![j as usize]);
            assert(check_product(msg, all[j], 1) == msg[j] as int);
        } else {
            assert(all[j] == checks[j - k]);
        }
    }
    assert(encoding_of(all, msg) =~= Seq::new(msg.len(), |i: int| msg[i] as int) + encoding_of(
        checks,
        msg,
    ));
}

/// The running product of `+-1` bits is `+-1`.
proof fn lemma_unit_product(msg: Seq<i8>, s: Seq<usize>, t: int)
    requires
        0 <= t <= s.len(),
        forall|q: int| 0 <= q < s.len() ==> s[q] < msg.len(),
        forall|i: int| 0 <= i < msg.len() ==> msg[i] == 1 || msg[i] == -1,
    ensures
        check_product(msg, s, t) == 1 || check_product(msg, s, t) == -1,
    decreases t,
{
    if t > 0 {
        lemma_unit_product(msg, s, t - 1);
        assert(msg[s[t - 1] as int] == 1 || msg[s[t - 1] as int] == -1);
    }
}

/// A `+-1` message is encodable under any checks that name its bits, and its codeword is `+-1`.
pub proof fn lemma_unit_messages_encode(checks: Seq<Seq<usize>>, msg: Seq<i8>)
    requires
        forall|j: int, q: int|
            0 <= j < checks.len() && 0 <= q < checks[j].len() ==> #[trigger] checks[j][q] < msg.len(),
        forall|i: int| 0 <= i < msg.len() ==> msg[i] == 1 || msg[i] == -1,
    ensures
        encodable(checks, msg),
        forall|j: int|
            0 <= j < checks.len() ==> #[trigger] encoding_of(checks, msg)[j] == 1 || encoding_of(
                checks,
                msg,
            )[j] == -1,
{
    assert forall|j: int, t: int| 0 <= j < checks.len() && 0 <= t <= checks[j].len() implies i8::MIN
        <= #[trigger] check_product(msg, checks[j], t) <= i8::MAX by {
        lemma_unit_product(msg, checks[j], t);
    }
    assert forall|j: int| 0 <= j < checks.len() implies #[trigger] encoding_of(checks, msg)[j] == 1
        || encoding_of(checks, msg)[j] == -1 by {
        lemma_unit_product(msg, checks[j], checks[j].len() as int);
    }
}

/// Whether a check is a single bit or a pair: a term an Ising model can hold.
pub open spec fn pairwise(s: Seq<usize>) -> bool {
    s.len() == 1 || s.len() == 2
}

impl Code {
    /// Whether the posterior of this code given `received` is an Ising model: `received` one
    /// symbol per check, and every check a single bit (a field) or a pair (a coupling). Refused
    /// with [`Invalid::WrongLength`] for a word of the wrong length, else with
    /// [`Invalid::NotPairwise`] naming the size of the first check that is neither.
    pub fn check_pairwise(&self, received: &[i8]) -> (res: Result<(), Invalid>)
        ensures
            received@.len() != self.checks@.len() ==> res == Err::<(), Invalid>(
                Invalid::WrongLength { want: self.checks@.len() as usize, got: received@.len() as usize },
            ),
            received@.len() == self.checks@.len() ==> (res is Ok <==> forall|j: int|
                0 <= j < self.checks@.len() ==> pairwise(#[trigger] self.checks@[j]@)),
            res matches Err(Invalid::NotPairwise { c }) ==> received@.len() == self.checks@.len() && exists|j: int|
                0 <= j < self.checks@.len() && !pairwise(#[trigger] self.checks@[j]@) && self.checks@[j]@.len() == c
                    && forall|q: int| 0 <= q < j ==> pairwise(#[trigger] self.checks@[q]@),
            res is Err ==> res matches Err(Invalid::WrongLength { .. }) || res matches Err(Invalid::NotPairwise { .. }),
    {
        if received.len() != self.checks.len() {
            return Err(Invalid::WrongLength { want: self.checks.len(), got: received.len() });
        }
        let mut j: usize = 0;
        while j < self.checks.len()
            invariant
                j <= self.checks@.len(),
                received@.len() == self.checks@.len(),
                forall|q: int| 0 <= q < j ==> pairwise(#[trigger] self.checks@[q]@),
            decreases self.checks@.len() - j,
        {
            let c = self.checks[j].len();
            if c != 1 && c != 2 {
                assert(!pairwise(self.checks@[j as int]@));
                return Err(Invalid::NotPairwise { c });
            }
            j += 1;
        }
        Ok(())
    }
}

/// The multiplicative inverse of the first SplitMix64 multiplier, modulo `2^64`.
pub const UNMIX_1: u64 = 0x96de_1b17_3f11_9089;

/// The multiplicative inverse of the second SplitMix64 multiplier, modulo `2^64`.
pub const UNMIX_2: u64 = 0x3196_42b2_d24d_8ec3;

/// The input SplitMix64 maps to `t`: each of its steps undone in reverse order.
pub open spec fn unmix_spec(t: u64) -> u64 {
    let x2 = t ^ (t >> 31u64) ^ (t >> 62u64);
    let y1 = vstd::wrapping::u64_specs::wrapping_mul(x2, UNMIX_2);
    let x1 = y1 ^ (y1 >> 27u64) ^ (y1 >> 54u64);
    let y0 = vstd::wrapping::u64_specs::wrapping_mul(x1, UNMIX_1);
    let z1 = y0 ^ (y0 >> 30u64) ^ (y0 >> 60u64);
    vstd::wrapping::u64_specs::wrapping_sub(z1, GOLDEN)
}

/// A wrapped product is the truncated product.
proof fn lemma_wrapping_mul_truncates(a: u64, b: u64)
    ensures
        vstd::wrapping::u64_specs::wrapping_mul(a, b) == (a * b) as u64,
{
    assert(((a * b) % 0x1_0000_0000_0000_0000) as u64 == (a * b) as u64) by (bit_vector);
}

/// Multiplying by a SplitMix64 multiplier undoes multiplying by its inverse.
proof fn lemma_unmix_multipliers(x: u64)
    ensures
        vstd::wrapping::u64_specs::wrapping_mul(
            vstd::wrapping::u64_specs::wrapping_mul(x, UNMIX_1),
            0xBF58_476D_1CE4_E5B9u64,
        ) == x,
        vstd::wrapping::u64_specs::wrapping_mul(
            vstd::wrapping::u64_specs::wrapping_mul(x, UNMIX_2),
            0x94D0_49BB_1331_11EBu64,
        ) == x,
{
    let a = vstd::wrapping::u64_specs::wrapping_mul(x, UNMIX_1);
    let b = vstd::wrapping::u64_specs::wrapping_mul(x, UNMIX_2);
    lemma_wrapping_mul_truncates(x, UNMIX_1);
    lemma_wrapping_mul_truncates(x, UNMIX_2);
    lemma_wrapping_mul_truncates(a, 0xBF58_476D_1CE4_E5B9u64);
    lemma_wrapping_mul_truncates(b, 0x94D0_49BB_1331_11EBu64);
    assert(((((x * 0x96de_1b17_3f11_9089u64) as u64) * 0xBF58_476D_1CE4_E5B9u64) as u64) == x) by (bit_vector);
    assert(((((x * 0x3196_42b2_d24d_8ec3u64) as u64) * 0x94D0_49BB_1331_11EBu64) as u64) == x) by (bit_vector);
}

/// The xorshifts of SplitMix64 are undone by xoring in the shifted value again until it runs out.
proof fn lemma_unmix_xorshifts(y: u64)
    ensures
        (y ^ (y >> 30u64) ^ (y >> 60u64)) ^ ((y ^ (y >> 30u64) ^ (y >> 60u64)) >> 30u64) == y,
        (y ^ (y >> 27u64) ^ (y >> 54u64)) ^ ((y ^ (y >> 27u64) ^ (y >> 54u64)) >> 27u64) == y,
        (y ^ (y >> 31u64) ^ (y >> 62u64)) ^ ((y ^ (y >> 31u64) ^ (y >> 62u64)) >> 31u64) == y,
{
    assert((y ^ (y >> 30u64) ^ (y >> 60u64)) ^ ((y ^ (y >> 30u64) ^ (y >> 60u64)) >> 30u64) == y) by (bit_vector);
    assert((y ^ (y >> 27u64) ^ (y >> 54u64)) ^ ((y ^ (y >> 27u64) ^ (y >> 54u64)) >> 27u64) == y) by (bit_vector);
    assert((y ^ (y >> 31u64) ^ (y >> 62u64)) ^ ((y ^ (y >> 31u64) ^ (y >> 62u64)) >> 31u64) == y) by (bit_vector);
}

/// SplitMix64 is onto: every 64-bit value is the output of some input, `unmix_spec` of it.
pub proof fn lemma_splitmix_onto(t: u64)
    ensures
        splitmix_spec(unmix_spec(t)) == t,
{
    let x2 = t ^ (t >> 31u64) ^ (t >> 62u64);
    let y1 = vstd::wrapping::u64_specs::wrapping_mul(x2, UNMIX_2);
    let x1 = y1 ^ (y1 >> 27u64) ^ (y1 >> 54u64);
    let y0 = vstd::wrapping::u64_specs::wrapping_mul(x1, UNMIX_1);
    let z1 = y0 ^ (y0 >> 30u64) ^ (y0 >> 60u64);
    let z = vstd::wrapping::u64_specs::wrapping_sub(z1, GOLDEN);
    assert(vstd::wrapping::u64_specs::wrapping_add(z, GOLDEN) == z1);
    lemma_unmix_xorshifts(y0);
    lemma_unmix_xorshifts(y1);
    lemma_unmix_xorshifts(t);
    lemma_unmix_multipliers(x1);
    lemma_unmix_multipliers(x2);
}

/// Every bit of a `k`-bit message can be named by any draw of the stream: for each `b < k` and
/// each draw number `d`, some seed's `d`-th draw names `b`. No bit is left out of every code.
pub proof fn lemma_every_bit_can_be_drawn(k: usize, b: usize, d: u64)
    requires
        b < k,
    ensures
        drawn_bit(unmix_spec(b as u64) ^ vstd::wrapping::u64_specs::wrapping_mul(d, GOLDEN), k, d) == b,
{
    let m = vstd::wrapping::u64_specs::wrapping_mul(d, GOLDEN);
    let base = unmix_spec(b as u64);
    lemma_splitmix_onto(b as u64);
    assert((base ^ m) ^ m == base) by (bit_vector);
    vstd::arithmetic::div_mod::lemma_small_mod(b as nat, k as nat);
    assert((b as u64) % (k as u64) == b as u64);
}

} // verus!
