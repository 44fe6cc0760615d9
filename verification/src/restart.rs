//! When to stop and start again: Luby's universal restart sequence.
//!
//! Luby's sequence is `1, 1, 2, 1, 1, 2, 4, 1, 1, 2, 1, 1, 2, 4, 8, ...`: `u(i) = 2^{k-1}` when
//! `i = 2^k - 1`, and `u(i - 2^{k-1} + 1)` when `2^{k-1} <= i < 2^k - 1`.

use vstd::prelude::*;
use vstd::arithmetic::power2::*;

verus! {

/// The smallest `k >= start` with `2^k - 1 >= i`, searched upwards from `start`.
pub open spec fn block_exp_from(i: nat, start: nat) -> nat
    decreases i - start,
{
    if pow2(start) > i || start >= i {
        start
    } else {
        block_exp_from(i, start + 1)
    }
}

/// The exponent of the Luby block that index `i` falls in: the smallest `k >= 1` with
/// `2^k - 1 >= i`.
pub open spec fn block_exp(i: nat) -> nat {
    block_exp_from(i, 1)
}

/// The `i`-th term of Luby's sequence, `i >= 1`, defined by the block recurrence.
pub open spec fn luby_spec(i: nat) -> nat
    decreases i,
{
    if i <= 1 {
        1
    } else {
        let k = block_exp(i);
        if k >= 1 && i == pow2(k) - 1 {
            pow2((k - 1) as nat)
        } else if k >= 2 && pow2((k - 1) as nat) <= i && 1 < pow2((k - 1) as nat) {
            luby_spec((i - pow2((k - 1) as nat) + 1) as nat)
        } else {
            1
        }
    }
}

/// `2^k > k` for every `k`.
pub proof fn lemma_pow2_above(k: nat)
    ensures
        pow2(k) > k,
    decreases k,
{
    if k == 0 {
        lemma2_to64();
    } else {
        lemma_pow2_above((k - 1) as nat);
        lemma_pow2_unfold(k);
    }
}

/// `block_exp_from` finds the least exponent at or above `start` whose block reaches `i`.
pub proof fn lemma_block_exp_from(i: nat, start: nat)
    requires
        start >= 1,
        pow2((start - 1) as nat) <= i,
    ensures
        block_exp_from(i, start) >= start,
        pow2(block_exp_from(i, start)) > i,
        pow2((block_exp_from(i, start) - 1) as nat) <= i,
    decreases i - start,
{
    lemma_pow2_above(start);
    if pow2(start) > i || start >= i {
        if start >= i {
            lemma_pow2_above(i);
            if start > i {
                lemma_pow2_strictly_increases(i, start);
            }
        }
    } else {
        lemma_block_exp_from(i, start + 1);
    }
}

/// The block exponent of `i >= 1` is the `k` with `2^{k-1} <= i < 2^k`.
pub proof fn lemma_block_exp(i: nat)
    requires
        i >= 1,
    ensures
        block_exp(i) >= 1,
        pow2(block_exp(i)) > i,
        pow2((block_exp(i) - 1) as nat) <= i,
{
    lemma2_to64();
    lemma_block_exp_from(i, 1);
}

/// The exponent `k` with `2^{k-1} <= i < 2^k` is unique.
pub proof fn lemma_block_exp_unique(i: nat, k: nat)
    requires
        k >= 1,
        pow2((k - 1) as nat) <= i < pow2(k),
    ensures
        block_exp(i) == k,
{
    lemma2_to64();
    lemma_pow2_pos((k - 1) as nat);
    lemma_block_exp(i);
    let b = block_exp(i);
    if b < k {
        if b < k - 1 {
            lemma_pow2_strictly_increases(b, (k - 1) as nat);
        }
    } else if b > k {
        if k < b - 1 {
            lemma_pow2_strictly_increases(k, (b - 1) as nat);
        }
    }
}

/// `u(start) + u(start + 1) + ... + u(start + len - 1)`.
pub open spec fn luby_range(start: nat, len: nat) -> nat
    decreases len,
{
    if len == 0 {
        0
    } else {
        luby_range(start, (len - 1) as nat) + luby_spec((start + len - 1) as nat)
    }
}

/// A run of terms splits at any point.
pub proof fn lemma_luby_range_split(start: nat, a: nat, b: nat)
    ensures
        luby_range(start, a + b) == luby_range(start, a) + luby_range(start + a, b),
    decreases b,
{
    if b > 0 {
        lemma_luby_range_split(start, a, (b - 1) as nat);
        assert(luby_range(start, a + b) == luby_range(start, (a + b - 1) as nat) + luby_spec(
            (start + (a + b) - 1) as nat,
        ));
    }
}

/// Inside block `k`, the second half repeats the first: `u(2^{k-1} + j) = u(1 + j)` for
/// `j < 2^{k-1} - 1`, so a run of that half sums as the run at the start of the sequence.
pub proof fn lemma_luby_second_half(k: nat, len: nat)
    requires
        k >= 2,
        len <= pow2((k - 1) as nat) - 1,
    ensures
        luby_range(pow2((k - 1) as nat), len) == luby_range(1, len),
    decreases len,
{
    if len > 0 {
        lemma_luby_second_half(k, (len - 1) as nat);
        let h = pow2((k - 1) as nat);
        let i = (h + len - 1) as nat;
        lemma_pow2_unfold(k);
        lemma2_to64();
        lemma_pow2_strictly_increases(0, (k - 1) as nat);
        lemma_block_exp_unique(i, k);
        assert(luby_spec(i) == luby_spec((i - h + 1) as nat));
    }
}

/// Luby's block-sum identity: the first block of `2^k - 1` terms sums to `k 2^{k-1}`. It is what
/// bounds the schedule's cost against the best fixed cutoff in hindsight.
pub proof fn lemma_luby_block_sum(k: nat)
    requires
        k >= 1,
    ensures
        luby_range(1, (pow2(k) - 1) as nat) == k * pow2((k - 1) as nat),
    decreases k,
{
    lemma2_to64();
    if k == 1 {
        assert(luby_range(1, 1) == luby_range(1, 0) + luby_spec(1));
    } else {
        lemma_luby_block_sum((k - 1) as nat);
        let h = pow2((k - 1) as nat);
        lemma_pow2_unfold(k);
        lemma_pow2_unfold((k - 1) as nat);
        lemma_pow2_strictly_increases(0, (k - 1) as nat);
        let m = (h - 1) as nat;
        lemma_luby_range_split(1, m, m);
        lemma_luby_second_half(k, m);
        let top = (pow2(k) - 1) as nat;
        lemma_block_exp_unique(top, k);
        assert(luby_spec(top) == h);
        assert(luby_range(1, top) == luby_range(1, (top - 1) as nat) + luby_spec(top));
        assert(1 + m == h);
        assert((k - 1) * pow2((k - 2) as nat) * 2 == (k - 1) * h) by (nonlinear_arith)
            requires
                h == 2 * pow2((k - 2) as nat),
        ;
        assert(k * h == (k - 1) * h + h) by (nonlinear_arith);
    }
}

/// Every term of Luby's sequence is a power of two.
pub proof fn lemma_luby_is_pow2(i: nat)
    ensures
        exists|e: nat| pow2(e) == luby_spec(i),
    decreases i,
{
    lemma2_to64();
    if i <= 1 {
        assert(pow2(0) == luby_spec(i));
    } else {
        let k = block_exp(i);
        if k >= 1 && i == pow2(k) - 1 {
            assert(pow2((k - 1) as nat) == luby_spec(i));
        } else if k >= 2 && pow2((k - 1) as nat) <= i && 1 < pow2((k - 1) as nat) {
            lemma_luby_is_pow2((i - pow2((k - 1) as nat) + 1) as nat);
        } else {
            assert(pow2(0) == luby_spec(i));
        }
    }
}

/// The `i`-th term of Luby's universal restart sequence, `i >= 1`:
/// `1, 1, 2, 1, 1, 2, 4, 1, 1, 2, 1, 1, 2, 4, 8, ...`. An index of zero is read as one.
pub fn luby(n: u64) -> (r: u64)
    requires
        n < 0x8000_0000_0000_0000,
    ensures
        r == luby_spec(if n == 0 { 1 } else { n as nat }),
{
    let mut i = if n == 0 { 1 } else { n };
    let ghost i0: nat = i as nat;
    assert(i0 == (if n == 0 { 1 } else { n as nat }));
    loop
        invariant
            i0 == (if n == 0 { 1 } else { n as nat }),
            1 <= i < 0x8000_0000_0000_0000,
            luby_spec(i as nat) == luby_spec(i0),
        decreases i,
    {
        // The smallest k with 2^k - 1 >= i.
        let mut k: u64 = 1;
        proof {
            lemma2_to64();
            vstd::bits::lemma_u64_shl_is_mul(1, 1);
        }
        while ((1u64 << k) - 1) < i
            invariant
                1 <= k <= 63,
                1 <= i < 0x8000_0000_0000_0000,
                pow2((k - 1) as nat) <= i,
                (1u64 << k) == pow2(k as nat),
                pow2(k as nat) >= 2,
            decreases 64 - k,
        {
            proof {
                lemma_pow2_unfold((k + 1) as nat);
                vstd::bits::lemma_u64_pow2_no_overflow(k as nat);
                if k == 63 {
                    lemma2_to64_rest();
                }
            }
            k = k + 1;
            proof {
                vstd::bits::lemma_u64_pow2_no_overflow(k as nat);
                vstd::bits::lemma_u64_shl_is_mul(1, k);
                lemma_pow2_strictly_increases(1, k as nat);
            }
        }
        proof {
            lemma_block_exp_unique(i as nat, k as nat);
            lemma_pow2_unfold(k as nat);
            vstd::bits::lemma_u64_shl_is_mul(1, (k - 1) as u64);
        }
        let block = (1u64 << k) - 1;
        if i == block {
            proof {
                if i == 1 {
                    assert(k == 1);
                    assert(pow2(0) == 1);
                }
            }
            return 1u64 << (k - 1);
        }
        proof {
            if k == 1 {
                assert(pow2(0) == 1);
            }
        }
        i -= (1u64 << (k - 1)) - 1;
    }
}

/// Luby's sequence scaled by `unit` steps: the cutoff of the `i`-th run.
pub fn luby_cutoff(i: u64, unit: u64) -> (r: u64)
    requires
        i < 0x8000_0000_0000_0000,
        luby_spec(if i == 0 { 1 } else { i as nat }) * unit <= u64::MAX,
    ensures
        r == luby_spec(if i == 0 { 1 } else { i as nat }) * unit,
{
    luby(i) * unit
}

} // verus!
