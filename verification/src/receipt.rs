//! The model digest a receipt is checked against: FNV-1a over the model's canonical word stream.
//!
//! The digest answers "is this the same model" and nothing else; it is not a security hash. Weights
//! go in as their bit patterns, so two models whose couplings differ in the last ulp digest apart.

use vstd::prelude::*;
use crate::graph::{Graph, in_row, rows_ok};
use vstd::std_specs::iter::IteratorSpec;
use vstd::string::StringExecFns;
use crate::text::{decimal_chars, push_decimal_u64};

verus! {

/// The FNV-1a 64-bit offset basis.
pub const FNV_OFFSET: u64 = 0xcbf2_9ce4_8422_2325;

/// The FNV-1a 64-bit prime.
pub const FNV_PRIME: u64 = 0x0000_0100_0000_01b3;

/// Byte `b` of `x`, least significant first.
pub open spec fn byte_of(x: u64, b: nat) -> u64 {
    (x >> ((8 * b) as u64)) & 0xffu64
}

/// FNV-1a state after the first `b` little-endian bytes of `x`, from state `h`.
pub open spec fn eat_bytes(h: u64, x: u64, b: nat) -> u64
    decreases b,
{
    if b == 0 {
        h
    } else {
        vstd::wrapping::u64_specs::wrapping_mul(
            eat_bytes(h, x, (b - 1) as nat) ^ byte_of(x, (b - 1) as nat),
            FNV_PRIME,
        )
    }
}

/// FNV-1a over the little-endian bytes of each word of `ws` in turn, from state `h`.
pub open spec fn fnv_words(h: u64, ws: Seq<u64>) -> u64
    decreases ws.len(),
{
    if ws.len() == 0 {
        h
    } else {
        eat_bytes(fnv_words(h, ws.drop_last()), ws.last(), 8)
    }
}

/// The words row `i` contributes from its entries before `k`: for each neighbour `j > i`, the
/// triple `i`, `j`, weight bits.
pub open spec fn edge_words(g: Graph, i: int, k: int) -> Seq<u64>
    decreases k - g.offset@[i],
{
    if k <= g.offset@[i] {
        seq![]
    } else {
        edge_words(g, i, k - 1) + (if g.nbr@[k - 1] > i {
            seq![i as u64, g.nbr@[k - 1] as u64, g.w_bits@[k - 1]]
        } else {
            seq![]
        })
    }
}

/// The words of the first `i` rows: each row's bias bits, then its upper couplings.
pub open spec fn row_words(g: Graph, i: int) -> Seq<u64>
    decreases i,
{
    if i <= 0 {
        seq![]
    } else {
        row_words(g, i - 1) + seq![g.h_bits@[i - 1]] + edge_words(g, i - 1, g.offset@[i] as int)
    }
}

/// The canonical word stream of a model: its size, then every row.
pub open spec fn model_words(g: Graph) -> Seq<u64> {
    seq![g.n as u64] + row_words(g, g.n as int)
}

/// FNV-1a over the model's canonical word stream.
pub open spec fn digest_of(g: Graph) -> u64 {
    fnv_words(FNV_OFFSET, model_words(g))
}

/// How many entries of row `i` before entry `k` couple to a later spin.
pub open spec fn row_uppers(g: Graph, i: int, k: int) -> nat
    decreases k - g.offset@[i],
{
    if k <= g.offset@[i] {
        0
    } else {
        row_uppers(g, i, k - 1) + (if g.nbr@[k - 1] > i { 1nat } else { 0nat })
    }
}

/// How many couplings to a later spin the rows before `i` hold.
pub open spec fn uppers_before(g: Graph, i: int) -> nat
    decreases i,
{
    if i <= 0 {
        0
    } else {
        uppers_before(g, i - 1) + row_uppers(g, i - 1, g.offset@[i] as int)
    }
}

/// Where spin `i`'s bias sits in the word stream: after the size, one bias for each earlier row,
/// and three words for each earlier coupling.
pub open spec fn bias_pos(g: Graph, i: int) -> int {
    1 + i + 3 * uppers_before(g, i)
}

/// Whether `ws` holds `a`, `b`, `c` from position `at` on.
pub open spec fn triple_at(ws: Seq<u64>, at: int, a: u64, b: u64, c: u64) -> bool {
    0 <= at && at + 2 < ws.len() && ws[at] == a && ws[at + 1] == b && ws[at + 2] == c
}

/// Whether entry `k` of row `i` couples to a later spin.
pub open spec fn upper_entry(g: Graph, i: int, k: int) -> bool {
    g.offset@[i] <= k < g.offset@[i + 1] && g.nbr@[k] > i
}

/// Counting couplings over a longer stretch of a row never counts fewer.
proof fn lemma_row_uppers_mono(g: Graph, i: int, a: int, b: int)
    requires
        g.offset@[i] <= a <= b,
    ensures
        row_uppers(g, i, a) <= row_uppers(g, i, b),
    decreases b - a,
{
    if a < b {
        lemma_row_uppers_mono(g, i, a, b - 1);
    }
}

/// A row's coupling words: three per coupling to a later spin, `i`, `j` and the weight bits, in
/// row order.
proof fn lemma_edge_words_layout(g: Graph, i: int, k: int)
    requires
        g.offset@[i] <= k,
    ensures
        edge_words(g, i, k).len() == 3 * row_uppers(g, i, k),
        forall|k0: int| #![trigger row_uppers(g, i, k0)]
            g.offset@[i] <= k0 < k && g.nbr@[k0] > i ==> triple_at(
                edge_words(g, i, k),
                3 * (row_uppers(g, i, k0) as int),
                i as u64,
                g.nbr@[k0] as u64,
                g.w_bits@[k0],
            ),
    decreases k - g.offset@[i],
{
    if k > g.offset@[i] {
        lemma_edge_words_layout(g, i, k - 1);
        let pre = edge_words(g, i, k - 1);
        let tail = if g.nbr@[k - 1] > i {
            seq![i as u64, g.nbr@[k - 1] as u64, g.w_bits@[k - 1]]
        } else {
            seq![]
        };
        assert(edge_words(g, i, k) == pre + tail);
        assert forall|k0: int| #![trigger row_uppers(g, i, k0)]
            g.offset@[i] <= k0 < k && g.nbr@[k0] > i implies triple_at(
                edge_words(g, i, k),
                3 * (row_uppers(g, i, k0) as int),
                i as u64,
                g.nbr@[k0] as u64,
                g.w_bits@[k0],
            ) by {
            let at = 3 * (row_uppers(g, i, k0) as int);
            if k0 < k - 1 {
                lemma_row_uppers_mono(g, i, k0 + 1, k - 1);
                assert(row_uppers(g, i, k0 + 1) == row_uppers(g, i, k0) + 1);
                assert(triple_at(pre, at, i as u64, g.nbr@[k0] as u64, g.w_bits@[k0]));
                assert(edge_words(g, i, k)[at] == pre[at]);
                assert(edge_words(g, i, k)[at + 1] == pre[at + 1]);
                assert(edge_words(g, i, k)[at + 2] == pre[at + 2]);
            } else {
                assert(at == pre.len());
                assert(edge_words(g, i, k)[at] == tail[0]);
                assert(edge_words(g, i, k)[at + 1] == tail[1]);
                assert(edge_words(g, i, k)[at + 2] == tail[2]);
            }
        }
    }
}

/// Counting couplings over more rows never counts fewer.
proof fn lemma_uppers_before_mono(g: Graph, a: int, b: int)
    requires
        0 <= a < b,
    ensures
        uppers_before(g, a) + row_uppers(g, a, g.offset@[a + 1] as int) <= uppers_before(g, b),
    decreases b - a,
{
    if a < b - 1 {
        lemma_uppers_before_mono(g, a, b - 1);
    }
}

/// The word stream of the first `i` rows: one bias per row followed by its coupling words, so each
/// earlier row's bias and couplings sit at fixed places.
proof fn lemma_row_words_layout(g: Graph, i: int)
    requires
        rows_ok(g.n as nat, g.h_bits@, g.offset@, g.nbr@, g.w_bits@),
        0 <= i <= g.n,
    ensures
        row_words(g, i).len() == i + 3 * uppers_before(g, i),
        forall|r: int| #![trigger bias_pos(g, r)]
            0 <= r < i ==> 0 <= bias_pos(g, r) - 1 < row_words(g, i).len() && row_words(g, i)[bias_pos(g, r) - 1]
                == g.h_bits@[r],
        forall|r: int, k0: int| #![trigger row_uppers(g, r, k0)]
            0 <= r < i && upper_entry(g, r, k0) ==> triple_at(
                row_words(g, i),
                bias_pos(g, r) + 3 * row_uppers(g, r, k0),
                r as u64,
                g.nbr@[k0] as u64,
                g.w_bits@[k0],
            ),
    decreases i,
{
    if i > 0 {
        let j = i - 1;
        lemma_row_words_layout(g, j);
        assert(g.offset@[j] <= g.offset@[i]);
        lemma_edge_words_layout(g, j, g.offset@[i] as int);
        let pre = row_words(g, j);
        let e = edge_words(g, j, g.offset@[i] as int);
        assert(row_words(g, i) == pre + seq![g.h_bits@[j]] + e);
        assert(bias_pos(g, j) - 1 == pre.len());
        assert forall|r: int| #![trigger bias_pos(g, r)]
            0 <= r < i implies 0 <= bias_pos(g, r) - 1 < row_words(g, i).len() && row_words(g, i)[bias_pos(g, r) - 1]
                == g.h_bits@[r] by {
            if r < j {
                assert(row_words(g, i)[bias_pos(g, r) - 1] == pre[bias_pos(g, r) - 1]);
            }
        }
        assert forall|r: int, k0: int| #![trigger row_uppers(g, r, k0)]
            0 <= r < i && upper_entry(g, r, k0) implies triple_at(
                row_words(g, i),
                bias_pos(g, r) + 3 * row_uppers(g, r, k0),
                r as u64,
                g.nbr@[k0] as u64,
                g.w_bits@[k0],
            ) by {
            let at = bias_pos(g, r) + 3 * row_uppers(g, r, k0);
            if r < j {
                assert(triple_at(pre, at, r as u64, g.nbr@[k0] as u64, g.w_bits@[k0]));
                assert(row_words(g, i)[at] == pre[at]);
                assert(row_words(g, i)[at + 1] == pre[at + 1]);
                assert(row_words(g, i)[at + 2] == pre[at + 2]);
            } else {
                let at2 = 3 * (row_uppers(g, j, k0) as int);
                assert(triple_at(e, at2, j as u64, g.nbr@[k0] as u64, g.w_bits@[k0]));
                assert(at == pre.len() + 1 + at2);
                assert(row_words(g, i)[at] == e[at2]);
                assert(row_words(g, i)[at + 1] == e[at2 + 1]);
                assert(row_words(g, i)[at + 2] == e[at2 + 2]);
            }
        }
    }
}

/// The digest's word stream names the whole model: its size first, then spin `i`'s own bias bits
/// at `bias_pos(g, i)`, followed by `i`, `j` and the weight bits of each coupling of row `i` to a
/// later spin `j`, in row order. Nothing of one spin's row stands in for another's.
pub proof fn lemma_model_words_name_every_weight(g: Graph, i: int)
    requires
        rows_ok(g.n as nat, g.h_bits@, g.offset@, g.nbr@, g.w_bits@),
        0 <= i < g.n,
    ensures
        model_words(g).len() == 1 + g.n + 3 * uppers_before(g, g.n as int),
        model_words(g)[0] == g.n as u64,
        0 < bias_pos(g, i) < model_words(g).len(),
        model_words(g)[bias_pos(g, i)] == g.h_bits@[i],
        forall|k: int| #![trigger row_uppers(g, i, k)]
            upper_entry(g, i, k) ==> triple_at(
                model_words(g),
                bias_pos(g, i) + 1 + 3 * row_uppers(g, i, k),
                i as u64,
                g.nbr@[k] as u64,
                g.w_bits@[k],
            ),
{
    lemma_row_words_layout(g, g.n as int);
    let rw = row_words(g, g.n as int);
    let mw = model_words(g);
    assert(mw == seq![g.n as u64] + rw);
    assert(mw[bias_pos(g, i)] == rw[bias_pos(g, i) - 1]);
    assert forall|k: int| #![trigger row_uppers(g, i, k)]
        upper_entry(g, i, k) implies triple_at(
            mw,
            bias_pos(g, i) + 1 + 3 * row_uppers(g, i, k),
            i as u64,
            g.nbr@[k] as u64,
            g.w_bits@[k],
        ) by {
        let at = bias_pos(g, i) + 3 * row_uppers(g, i, k);
        assert(triple_at(rw, at, i as u64, g.nbr@[k] as u64, g.w_bits@[k]));
        assert(mw[at + 1] == rw[at]);
        assert(mw[at + 2] == rw[at + 1]);
        assert(mw[at + 3] == rw[at + 2]);
    }
}

/// Two models with the same rows and couplings that differ in any one spin's bias have different
/// word streams, so the digest is computed over different input.
pub proof fn lemma_models_differing_in_a_bias_have_different_words(a: Graph, b: Graph, i: int)
    requires
        rows_ok(a.n as nat, a.h_bits@, a.offset@, a.nbr@, a.w_bits@),
        rows_ok(b.n as nat, b.h_bits@, b.offset@, b.nbr@, b.w_bits@),
        a.n == b.n,
        a.offset@ == b.offset@,
        a.nbr@ == b.nbr@,
        0 <= i < a.n,
        a.h_bits@[i] != b.h_bits@[i],
    ensures
        model_words(a) != model_words(b),
{
    lemma_model_words_name_every_weight(a, i);
    lemma_model_words_name_every_weight(b, i);
    lemma_same_rows_same_pos(a, b, i);
}

/// Models with the same rows put each bias at the same place.
proof fn lemma_same_rows_same_pos(a: Graph, b: Graph, i: int)
    requires
        a.offset@ == b.offset@,
        a.nbr@ == b.nbr@,
    ensures
        uppers_before(a, i) == uppers_before(b, i),
        bias_pos(a, i) == bias_pos(b, i),
    decreases i,
{
    if i > 0 {
        lemma_same_rows_same_pos(a, b, i - 1);
        lemma_row_uppers_same(a, b, i - 1, a.offset@[i] as int);
    }
}

/// Models with the same rows count the same couplings.
proof fn lemma_row_uppers_same(a: Graph, b: Graph, i: int, k: int)
    requires
        a.offset@ == b.offset@,
        a.nbr@ == b.nbr@,
    ensures
        row_uppers(a, i, k) == row_uppers(b, i, k),
    decreases k - a.offset@[i],
{
    if k > a.offset@[i] {
        lemma_row_uppers_same(a, b, i, k - 1);
    }
}

/// Feeding one more word is one more round of eight bytes.
proof fn lemma_fnv_push(h: u64, ws: Seq<u64>, x: u64)
    ensures
        fnv_words(h, ws.push(x)) == eat_bytes(fnv_words(h, ws), x, 8),
{
    assert(ws.push(x).drop_last() =~= ws);
}

/// Feed the eight little-endian bytes of `x` into the FNV-1a state `h`.
fn eat(h0: u64, x: u64) -> (r: u64)
    ensures
        r == eat_bytes(h0, x, 8),
{
    let mut h = h0;
    let mut b: u64 = 0;
    while b < 8
        invariant
            b <= 8,
            h == eat_bytes(h0, x, b as nat),
        decreases 8 - b,
    {
        h = (h ^ ((x >> (8 * b)) & 0xffu64)).wrapping_mul(FNV_PRIME);
        b += 1;
    }
    h
}

/// A stable digest of a model's structure and weights: FNV-1a over its size, then for each spin its
/// bias bits followed by `i`, `j` and the weight bits of each coupling to a neighbour `j > i`, all
/// as little-endian 64-bit words.
#[verifier::spinoff_prover]
pub fn digest(g: &Graph) -> (d: u64)
    requires
        rows_ok(g.n as nat, g.h_bits@, g.offset@, g.nbr@, g.w_bits@),
    ensures
        d == digest_of(*g),
{
    let mut h: u64 = FNV_OFFSET;
    h = eat(h, g.n as u64);
    proof {
        lemma_fnv_push(FNV_OFFSET, Seq::<u64>::empty(), g.n as u64);
        assert(Seq::<u64>::empty().push(g.n as u64) =~= seq![g.n as u64] + row_words(*g, 0));
    }
    let mut i: usize = 0;
    while i < g.n
        invariant
            rows_ok(g.n as nat, g.h_bits@, g.offset@, g.nbr@, g.w_bits@),
            i <= g.n,
            h == fnv_words(FNV_OFFSET, seq![g.n as u64] + row_words(*g, i as int)),
        decreases g.n - i,
    {
        let ghost pre = seq![g.n as u64] + row_words(*g, i as int);
        h = eat(h, g.h_bits[i]);
        proof {
            lemma_fnv_push(FNV_OFFSET, pre, g.h_bits@[i as int]);
            assert(pre.push(g.h_bits@[i as int]) =~= pre + seq![g.h_bits@[i as int]]);
            assert(edge_words(*g, i as int, g.offset@[i as int] as int) =~= Seq::<u64>::empty());
            assert(pre + seq![g.h_bits@[i as int]] + edge_words(*g, i as int, g.offset@[i as int] as int)
                =~= pre.push(g.h_bits@[i as int]));
        }
        let start = g.offset[i];
        let end = g.offset[i + 1];
        assert(start <= end <= g.nbr@.len());
        let mut k: usize = start;
        while k < end
            invariant
                rows_ok(g.n as nat, g.h_bits@, g.offset@, g.nbr@, g.w_bits@),
                i < g.n,
                start == g.offset@[i as int],
                end == g.offset@[i + 1],
                start <= k <= end <= g.nbr@.len(),
                pre == seq![g.n as u64] + row_words(*g, i as int),
                h == fnv_words(FNV_OFFSET, pre + seq![g.h_bits@[i as int]] + edge_words(*g, i as int, k as int)),
            decreases end - k,
        {
            let ghost before = pre + seq![g.h_bits@[i as int]] + edge_words(*g, i as int, k as int);
            let j = g.nbr[k] as usize;
            if j > i {
                h = eat(h, i as u64);
                h = eat(h, j as u64);
                h = eat(h, g.w_bits[k]);
                proof {
                    let w1 = before.push(i as u64);
                    let w2 = w1.push(j as u64);
                    let w3 = w2.push(g.w_bits@[k as int]);
                    lemma_fnv_push(FNV_OFFSET, before, i as u64);
                    lemma_fnv_push(FNV_OFFSET, w1, j as u64);
                    lemma_fnv_push(FNV_OFFSET, w2, g.w_bits@[k as int]);
                    assert(edge_words(*g, i as int, k + 1) == edge_words(*g, i as int, k as int) + seq![
                        i as u64,
                        g.nbr@[k as int] as u64,
                        g.w_bits@[k as int],
                    ]);
                    assert(pre + seq![g.h_bits@[i as int]] + edge_words(*g, i as int, k + 1) =~= w3);
                }
            } else {
                proof {
                    assert(edge_words(*g, i as int, k + 1) == edge_words(*g, i as int, k as int) + seq![]);
                    assert(pre + seq![g.h_bits@[i as int]] + edge_words(*g, i as int, k + 1) =~= before);
                }
            }
            k += 1;
        }
        proof {
            assert(row_words(*g, i + 1) == row_words(*g, i as int) + seq![g.h_bits@[i as int]]
                + edge_words(*g, i as int, g.offset@[i + 1] as int));
            assert(seq![g.n as u64] + row_words(*g, i + 1) =~= pre + seq![g.h_bits@[i as int]]
                + edge_words(*g, i as int, k as int));
        }
        i += 1;
    }
    h
}

/// The characters of `text`, in order.
fn chars_of(text: &str) -> (cs: Vec<char>)
    ensures
        cs@ == text@,
{
    let mut cs: Vec<char> = Vec::new();
    let mut it = text.chars();
    assert(it.remaining() == text@);
    loop
        invariant
            cs@ + it.remaining() == text@,
            it.obeys_prophetic_iter_laws(),
            it.decrease() is Some,
        decreases it.decrease()->0,
    {
        let ghost before = it.remaining();
        match it.next() {
            Some(c) => {
                cs.push(c);
                assert(cs@ + it.remaining() =~= text@) by {
                    assert(before == seq![c] + it.remaining());
                }
            },
            None => {
                assert(cs@ =~= text@);
                return cs;
            },
        }
    }
}

// ---------------------------------------------------------------------------------------------
// The receipt's text form: one field per line, `key value...`.
// ---------------------------------------------------------------------------------------------

/// Whether `c` is white space as `char::is_whitespace` reads it: the Unicode `White_Space`
/// characters.
pub open spec fn is_space(c: char) -> bool {
    let u = c as u32;
    (0x09 <= u && u <= 0x0d) || u == 0x20 || u == 0x85 || u == 0xa0 || u == 0x1680 || (0x2000 <= u
        && u <= 0x200a) || u == 0x2028 || u == 0x2029 || u == 0x202f || u == 0x205f || u == 0x3000
}

/// Whether `c` is white space.
fn space(c: char) -> (b: bool)
    ensures
        b == is_space(c),
{
    let u = c as u32;
    (0x09 <= u && u <= 0x0d) || u == 0x20 || u == 0x85 || u == 0xa0 || u == 0x1680 || (0x2000 <= u
        && u <= 0x200a) || u == 0x2028 || u == 0x2029 || u == 0x202f || u == 0x205f || u == 0x3000
}

/// The white-space-separated words of `s`, in order.
pub open spec fn words(s: Seq<char>) -> Seq<Seq<char>>
    decreases s.len(),
{
    if s.len() == 0 {
        seq![]
    } else {
        let w = words(s.drop_last());
        let c = s.last();
        if is_space(c) {
            w
        } else if s.len() >= 2 && !is_space(s[s.len() - 2]) {
            w.update(w.len() - 1, w.last().push(c))
        } else {
            w.push(seq![c])
        }
    }
}

/// The pieces of `t` between newlines: one more than the newlines.
pub open spec fn segments(t: Seq<char>) -> Seq<Seq<char>>
    decreases t.len(),
{
    if t.len() == 0 {
        seq![seq![]]
    } else {
        let s = segments(t.drop_last());
        if t.last() == '\n' {
            s.push(seq![])
        } else {
            s.update(s.len() - 1, s.last().push(t.last()))
        }
    }
}

/// The value of digit `c` in base `radix` (10 or 16), or `radix` when it is not one.
pub open spec fn digit_value(c: char, radix: nat) -> nat {
    let u = c as u32;
    if 0x30 <= u && u <= 0x39 {
        (u - 0x30) as nat
    } else if radix == 16 && 0x61 <= u && u <= 0x66 {
        (u - 0x61 + 10) as nat
    } else if radix == 16 && 0x41 <= u && u <= 0x46 {
        (u - 0x41 + 10) as nat
    } else {
        radix
    }
}

/// The number the digits `ds` spell in base `radix`.
pub open spec fn digits_value(ds: Seq<char>, radix: nat) -> nat
    decreases ds.len(),
{
    if ds.len() == 0 {
        0
    } else {
        digits_value(ds.drop_last(), radix) * radix + digit_value(ds.last(), radix)
    }
}

/// The digits of an unsigned literal: `t` without a leading `+`.
pub open spec fn unsigned_digits(t: Seq<char>) -> Seq<char> {
    if t.len() > 0 && t[0] == '+' {
        t.drop_first()
    } else {
        t
    }
}

/// Whether `t` reads as a `u64` in base `radix`, as `u64::from_str_radix` reads it: an optional
/// `+`, then one or more digits, with a value that fits.
pub open spec fn unsigned_ok(t: Seq<char>, radix: nat) -> bool {
    &&& unsigned_digits(t).len() > 0
    &&& all_digits(unsigned_digits(t), radix)
    &&& digits_value(unsigned_digits(t), radix) <= u64::MAX
}

/// Whether every character of `ds` is a digit in base `radix`.
pub open spec fn all_digits(ds: Seq<char>, radix: nat) -> bool {
    forall|i: int| 0 <= i < ds.len() ==> digit_value(#[trigger] ds[i], radix) < radix
}

/// Read `t` as a `u64` in base `radix` (10 or 16), or `None` where `u64::from_str_radix` refuses it.
fn parse_unsigned(t: &Vec<char>, radix: u64) -> (r: Option<u64>)
    requires
        radix == 10 || radix == 16,
    ensures
        r is Some <==> unsigned_ok(t@, radix as nat),
        r matches Some(v) ==> v == digits_value(unsigned_digits(t@), radix as nat),
{
    let start: usize = if t.len() > 0 && t[0] == '+' { 1 } else { 0 };
    let ghost ds = unsigned_digits(t@);
    assert(ds =~= t@.subrange(start as int, t@.len() as int));
    if start >= t.len() {
        return None;
    }
    let mut v: u64 = 0;
    let mut i: usize = start;
    while i < t.len()
        invariant
            radix == 10 || radix == 16,
            ds == unsigned_digits(t@),
            ds == t@.subrange(start as int, t@.len() as int),
            start <= i <= t@.len(),
            forall|q: int| 0 <= q < i - start ==> digit_value(#[trigger] ds[q], radix as nat) < radix,
            v == digits_value(ds.take(i - start), radix as nat),
        decreases t@.len() - i,
    {
        let c = t[i];
        let u = c as u32;
        let d: u64 = if 0x30 <= u && u <= 0x39 {
            (u - 0x30) as u64
        } else if radix == 16 && 0x61 <= u && u <= 0x66 {
            (u - 0x61 + 10) as u64
        } else if radix == 16 && 0x41 <= u && u <= 0x46 {
            (u - 0x41 + 10) as u64
        } else {
            radix
        };
        assert(ds[i - start] == c);
        assert(d == digit_value(c, radix as nat));
        assert(ds.take(i - start + 1).drop_last() =~= ds.take(i - start));
        if d >= radix {
            assert(!all_digits(ds, radix as nat)) by {
                assert(digit_value(ds[i - start], radix as nat) >= radix);
            }
            return None;
        }
        assert(ds.take(i - start + 1).last() == c);
        assert(digits_value(ds.take(i - start + 1), radix as nat) == v * radix + digit_value(
            c,
            radix as nat,
        ));
        if v > (u64::MAX - d) / radix {
            proof {
                lemma_digits_value_grows(ds, (i - start + 1) as int, radix as nat);
                assert(v * radix + d > u64::MAX) by (nonlinear_arith)
                    requires
                        v as int > (u64::MAX as int - d as int) / (radix as int),
                        radix >= 10,
                        d < radix,
                ;
                assert(digits_value(ds, radix as nat) > u64::MAX);
            }
            return None;
        }
        proof {
            assert(v * radix + d <= u64::MAX) by (nonlinear_arith)
                requires
                    v as int <= (u64::MAX as int - d as int) / (radix as int),
                    radix >= 10,
                    d < radix,
            ;
        }
        v = v * radix + d;
        i += 1;
    }
    assert(ds.take(i - start) =~= ds);
    Some(v)
}

/// Digits only add to a value: a prefix is worth no more than the whole.
proof fn lemma_digits_value_grows(ds: Seq<char>, k: int, radix: nat)
    requires
        0 <= k <= ds.len(),
        radix >= 2,
    ensures
        digits_value(ds.take(k), radix) <= digits_value(ds, radix),
    decreases ds.len() - k,
{
    if k < ds.len() {
        lemma_digits_value_grows(ds, k + 1, radix);
        assert(ds.take(k + 1).drop_last() =~= ds.take(k));
        let a = digits_value(ds.take(k), radix);
        assert(a <= a * radix) by (nonlinear_arith)
            requires
                radix >= 2,
        ;
    } else {
        assert(ds.take(k) =~= ds);
    }
}

/// Whether `c` is a decimal digit.
pub open spec fn is_dec(c: char) -> bool {
    0x30 <= (c as u32) && (c as u32) <= 0x39
}

/// How many decimal digits run in `u` from position `k`.
pub open spec fn digit_run(u: Seq<char>, k: int) -> nat
    decreases u.len() - k,
{
    if 0 <= k < u.len() && is_dec(u[k]) {
        1 + digit_run(u, k + 1)
    } else {
        0
    }
}

/// `c` with ASCII capitals lowered, as a code point.
pub open spec fn folded(c: char) -> u32 {
    let v = c as u32;
    if 0x41 <= v && v <= 0x5a {
        (v + 32) as u32
    } else {
        v
    }
}

/// Whether `u` spells the lower-case ASCII word `w`, ignoring ASCII case.
pub open spec fn spells(u: Seq<char>, w: Seq<char>) -> bool {
    u.len() == w.len() && forall|i: int| 0 <= i < u.len() ==> folded(#[trigger] u[i]) == w[i] as u32
}

/// Whether `u` from position `q` is an exponent: `e` or `E`, an optional sign, one or more digits,
/// and nothing after.
pub open spec fn exponent_ok(u: Seq<char>, q: int) -> bool {
    &&& 0 <= q < u.len()
    &&& folded(u[q]) == 0x65
    &&& {
        let r = if q + 1 < u.len() && (u[q + 1] == '+' || u[q + 1] == '-') {
            q + 2
        } else {
            q + 1
        };
        digit_run(u, r) >= 1 && r + digit_run(u, r) == u.len()
    }
}

/// Whether `u` is a decimal number: digits with an optional point, at least one digit in all,
/// then an optional exponent.
pub open spec fn number_ok(u: Seq<char>) -> bool {
    let a = digit_run(u, 0) as int;
    let dot = a < u.len() && u[a] == '.';
    let b = if dot {
        digit_run(u, a + 1) as int
    } else {
        0int
    };
    let q = if dot {
        a + 1 + b
    } else {
        a
    };
    a + b >= 1 && (q == u.len() || exponent_ok(u, q))
}

/// `t` without a leading sign.
pub open spec fn float_body(t: Seq<char>) -> Seq<char> {
    if t.len() > 0 && (t[0] == '+' || t[0] == '-') {
        t.drop_first()
    } else {
        t
    }
}

/// Whether `t` reads as an `f64` as `str::parse::<f64>` reads it: an optional sign, then `inf`,
/// `infinity` or `nan` in any ASCII case, or a decimal number.
pub open spec fn float_ok(t: Seq<char>) -> bool {
    let u = float_body(t);
    spells(u, seq!['i', 'n', 'f']) || spells(u, seq!['i', 'n', 'f', 'i', 'n', 'i', 't', 'y'])
        || spells(u, seq!['n', 'a', 'n']) || number_ok(u)
}

/// How many decimal digits run in `u` from `k`.
fn run_of_digits(u: &Vec<char>, k: usize) -> (n: usize)
    requires
        k <= u@.len(),
    ensures
        n == digit_run(u@, k as int),
        k + n <= u@.len(),
{
    let mut j = k;
    while j < u.len() && 0x30 <= (u[j] as u32) && (u[j] as u32) <= 0x39
        invariant
            k <= j <= u@.len(),
            digit_run(u@, k as int) == (j - k) + digit_run(u@, j as int),
        decreases u@.len() - j,
    {
        assert(digit_run(u@, j as int) == 1 + digit_run(u@, j + 1));
        j += 1;
    }
    j - k
}

/// The ASCII-folded code point of `c`.
fn fold_char(c: char) -> (v: u32)
    ensures
        v == folded(c),
{
    let v = c as u32;
    if 0x41 <= v && v <= 0x5a {
        v + 32
    } else {
        v
    }
}

/// Whether `u` spells `w`, ignoring ASCII case.
fn spells_word(u: &Vec<char>, w: &Vec<char>) -> (b: bool)
    ensures
        b == spells(u@, w@),
{
    if u.len() != w.len() {
        return false;
    }
    let mut i: usize = 0;
    while i < u.len()
        invariant
            u@.len() == w@.len(),
            i <= u@.len(),
            forall|p: int| 0 <= p < i ==> folded(#[trigger] u@[p]) == w@[p] as u32,
        decreases u@.len() - i,
    {
        if fold_char(u[i]) != w[i] as u32 {
            return false;
        }
        i += 1;
    }
    true
}

/// Whether `t` reads as an `f64`; see [`float_ok`].
fn float_text(t: &Vec<char>) -> (b: bool)
    ensures
        b == float_ok(t@),
{
    let signed = t.len() > 0 && (t[0] == '+' || t[0] == '-');
    let mut u: Vec<char> = Vec::new();
    let mut i: usize = if signed { 1 } else { 0 };
    while i < t.len()
        invariant
            i <= t@.len(),
            (if signed { 1int } else { 0int }) <= i,
            u@ == t@.subrange(if signed { 1int } else { 0int }, i as int),
        decreases t@.len() - i,
    {
        u.push(t[i]);
        i += 1;
        assert(u@ =~= t@.subrange(if signed { 1int } else { 0int }, i as int));
    }
    assert(u@ =~= float_body(t@));
    let inf: Vec<char> = vec!['i', 'n', 'f'];
    let infinity: Vec<char> = vec!['i', 'n', 'f', 'i', 'n', 'i', 't', 'y'];
    let nan: Vec<char> = vec!['n', 'a', 'n'];
    assert(inf@ =~= seq!['i', 'n', 'f']);
    assert(infinity@ =~= seq!['i', 'n', 'f', 'i', 'n', 'i', 't', 'y']);
    assert(nan@ =~= seq!['n', 'a', 'n']);
    if spells_word(&u, &inf) || spells_word(&u, &infinity) || spells_word(&u, &nan) {
        return true;
    }
    let a = run_of_digits(&u, 0);
    let dot = a < u.len() && u[a] == '.';
    let b = if dot { run_of_digits(&u, a + 1) } else { 0 };
    let q = if dot { a + 1 + b } else { a };
    if a + b < 1 {
        return false;
    }
    if q == u.len() {
        return true;
    }
    if fold_char(u[q]) != 0x65 {
        return false;
    }
    let r = if q + 1 < u.len() && (u[q + 1] == '+' || u[q + 1] == '-') { q + 2 } else { q + 1 };
    let c = run_of_digits(&u, r);
    c >= 1 && r + c == u.len()
}

/// The spins a state token spells: `+` up, `-` down.
pub open spec fn spins_of(t: Seq<char>) -> Seq<i8> {
    Seq::new(t.len(), |i: int| if t[i] == '+' { 1i8 } else { -1i8 })
}

/// What a run cost, in device operations.
#[derive(Clone, Copy, Debug, Default, PartialEq, Eq)]
pub struct Ledger {
    /// Samples drawn.
    pub samples: u64,
    /// Reads of device state.
    pub reads: u64,
    /// Writes of device state.
    pub writes: u64,
}

/// Why a receipt could not be read.
#[derive(Clone, Debug, PartialEq, Eq)]
pub struct ParseError {
    /// One-based line number; zero for a field missing from the whole text.
    pub line: usize,
    /// What was wrong.
    pub message: String,
}

/// A receipt's fields as its text gives them. The energy and the bound stay the decimal text they
/// were written as, each a valid `f64` literal; turning them into numbers is the caller's.
#[derive(Clone, Debug, PartialEq, Eq)]
pub struct ReceiptText {
    /// Digest of the model the receipt was computed against.
    pub model: u64,
    /// The answer, `+1` or `-1` per spin.
    pub state: Vec<i8>,
    /// The energy the run reported, as written.
    pub energy: String,
    /// A lower bound on the ground energy, as written, if the run had one.
    pub bound: Option<String>,
    /// What the run cost.
    pub cost: Ledger,
    /// What produced it.
    pub method: String,
    /// The seed it ran at.
    pub seed: u64,
}

/// The fields read so far, with their values as sequences.
pub struct Draft {
    /// Whether the `receipt 1` header was seen.
    pub header: bool,
    /// The model digest.
    pub model: Option<u64>,
    /// The state.
    pub state: Option<Seq<i8>>,
    /// The energy text.
    pub energy: Option<Seq<char>>,
    /// The bound text.
    pub bound: Option<Seq<char>>,
    /// The cost, zero until given.
    pub cost: (u64, u64, u64),
    /// The method.
    pub method: Option<Seq<char>>,
    /// The seed.
    pub seed: Option<u64>,
}

/// Nothing read yet.
pub open spec fn blank_draft() -> Draft {
    Draft {
        header: false,
        model: None,
        state: None,
        energy: None,
        bound: None,
        cost: (0, 0, 0),
        method: None,
        seed: None,
    }
}

/// The words `ws` joined by single spaces.
pub open spec fn joined(ws: Seq<Seq<char>>) -> Seq<char>
    decreases ws.len(),
{
    if ws.len() == 0 {
        seq![]
    } else if ws.len() == 1 {
        ws[0]
    } else {
        joined(ws.drop_last()) + seq![' '] + ws.last()
    }
}

/// The first character of `t` that is neither `+` nor `-`, as an index; `t.len()` if none.
pub open spec fn first_non_spin(t: Seq<char>) -> int
    decreases t.len(),
{
    if t.len() == 0 {
        0
    } else if first_non_spin(t.drop_last()) < t.len() - 1 {
        first_non_spin(t.drop_last())
    } else if t.last() == '+' || t.last() == '-' {
        t.len() as int
    } else {
        t.len() - 1
    }
}

/// A line's failure: its number and what was wrong.
pub open spec fn line_error(at: nat, message: Seq<char>) -> Result<Draft, (nat, Seq<char>)> {
    Err((at, message))
}

/// What line `at`, with words `ws`, does to the fields read so far. A line with no words, or whose
/// first word begins with `#`, does nothing; otherwise its first word names the field.
pub open spec fn read_line(d: Draft, ws: Seq<Seq<char>>, at: nat) -> Result<Draft, (nat, Seq<char>)> {
    if ws.len() == 0 || ws[0][0] == '#' {
        Ok(d)
    } else {
        let key = ws[0];
        if key == seq!['r', 'e', 'c', 'e', 'i', 'p', 't'] {
            if ws.len() >= 2 && ws[1] == seq!['1'] {
                Ok(Draft { header: true, ..d })
            } else {
                line_error(at, "only version 1 is understood"@)
            }
        } else if key == seq!['m', 'o', 'd', 'e', 'l'] {
            if ws.len() < 2 {
                line_error(at, "bad model"@)
            } else if unsigned_ok(ws[1], 16) {
                Ok(Draft { model: Some(digits_value(unsigned_digits(ws[1]), 16) as u64), ..d })
            } else {
                line_error(at, "bad model digest"@)
            }
        } else if key == seq!['m', 'e', 't', 'h', 'o', 'd'] {
            Ok(Draft { method: Some(joined(ws.drop_first())), ..d })
        } else if key == seq!['s', 'e', 'e', 'd'] {
            if ws.len() >= 2 && unsigned_ok(ws[1], 10) {
                Ok(Draft { seed: Some(digits_value(unsigned_digits(ws[1]), 10) as u64), ..d })
            } else {
                line_error(at, "bad seed"@)
            }
        } else if key == seq!['e', 'n', 'e', 'r', 'g', 'y'] {
            if ws.len() >= 2 && float_ok(ws[1]) {
                Ok(Draft { energy: Some(ws[1]), ..d })
            } else {
                line_error(at, "bad energy"@)
            }
        } else if key == seq!['b', 'o', 'u', 'n', 'd'] {
            if ws.len() >= 2 && float_ok(ws[1]) {
                Ok(Draft { bound: Some(ws[1]), ..d })
            } else {
                line_error(at, "bad bound"@)
            }
        } else if key == seq!['c', 'o', 's', 't'] {
            if ws.len() >= 4 && unsigned_ok(ws[1], 10) && unsigned_ok(ws[2], 10) && unsigned_ok(
                ws[3],
                10,
            ) {
                Ok(
                    Draft {
                        cost: (
                            digits_value(unsigned_digits(ws[1]), 10) as u64,
                            digits_value(unsigned_digits(ws[2]), 10) as u64,
                            digits_value(unsigned_digits(ws[3]), 10) as u64,
                        ),
                        ..d
                    },
                )
            } else {
                line_error(at, "bad cost"@)
            }
        } else if key == seq!['s', 't', 'a', 't', 'e'] {
            if ws.len() < 2 {
                line_error(at, "bad state"@)
            } else if first_non_spin(ws[1]) < ws[1].len() {
                line_error(
                    at,
                    "`"@ + seq![ws[1][first_non_spin(ws[1])]] + "` is not a spin; use + or -"@,
                )
            } else {
                Ok(Draft { state: Some(spins_of(ws[1])), ..d })
            }
        } else {
            line_error(at, "unknown field `"@ + key + "`"@)
        }
    }
}

/// The fields after the first `k` lines, or the first line that failed.
pub open spec fn read_lines(lines: Seq<Seq<char>>, k: int) -> Result<Draft, (nat, Seq<char>)>
    decreases k,
{
    if k <= 0 {
        Ok(blank_draft())
    } else {
        match read_lines(lines, k - 1) {
            Ok(d) => read_line(d, words(lines[k - 1]), k as nat),
            Err(e) => Err(e),
        }
    }
}

/// What a receipt's text reads as: every line in turn, later fields overriding earlier ones, then
/// the header and the required fields checked in order.
pub open spec fn receipt_text(t: Seq<char>) -> Result<Draft, (nat, Seq<char>)> {
    let lines = segments(t);
    match read_lines(lines, lines.len() as int) {
        Err(e) => Err(e),
        Ok(d) => if !d.header {
            Err((1nat, "no `receipt 1` header"@))
        } else if d.model is None {
            Err((0nat, "no model"@))
        } else if d.state is None {
            Err((0nat, "no state"@))
        } else if d.energy is None {
            Err((0nat, "no energy"@))
        } else if d.method is None {
            Err((0nat, "no method"@))
        } else if d.seed is None {
            Err((0nat, "no seed"@))
        } else {
            Ok(d)
        },
    }
}

/// The text of each of the ranges `ws` of `cs`.
pub open spec fn ranges_text(cs: Seq<char>, ws: Seq<(usize, usize)>) -> Seq<Seq<char>> {
    Seq::new(ws.len(), |i: int| cs.subrange(ws[i].0 as int, ws[i].1 as int))
}

/// The words of `cs[a..b]`, as ranges of `cs`.
fn words_of(cs: &Vec<char>, a: usize, b: usize) -> (ws: Vec<(usize, usize)>)
    requires
        a <= b <= cs@.len(),
    ensures
        forall|i: int| 0 <= i < ws@.len() ==> a <= (#[trigger] ws@[i]).0 < ws@[i].1 <= b,
        ranges_text(cs@, ws@) == words(cs@.subrange(a as int, b as int)),
{
    let mut ws: Vec<(usize, usize)> = Vec::new();
    let mut p: usize = a;
    let mut prev_space = true;
    while p < b
        invariant
            a <= p <= b <= cs@.len(),
            forall|i: int| 0 <= i < ws@.len() ==> a <= (#[trigger] ws@[i]).0 < ws@[i].1 <= p,
            ranges_text(cs@, ws@) == words(cs@.subrange(a as int, p as int)),
            prev_space == (p == a || is_space(cs@[p - 1])),
            !prev_space ==> ws@.len() > 0 && ws@.last().1 == p,
        decreases b - p,
    {
        let c = cs[p];
        let ghost before = ws@;
        let ghost s = cs@.subrange(a as int, p as int);
        proof {
            assert(cs@.subrange(a as int, p + 1) =~= s.push(c));
            assert(s.push(c).drop_last() =~= s);
            if p > a {
                assert(s.push(c)[s.len() - 1] == cs@[p - 1]);
            }
        }
        let sp = space(c);
        if sp {
        } else if !prev_space {
            let last = ws.len() - 1;
            let (st, _) = ws[last];
            ws.set(last, (st, p + 1));
            proof {
                assert(before[last as int].1 == p);
                assert(cs@.subrange(st as int, p + 1) =~= cs@.subrange(st as int, p as int).push(c));
                assert(ranges_text(cs@, ws@) =~= ranges_text(cs@, before).update(
                    last as int,
                    ranges_text(cs@, before)[last as int].push(c),
                ));
            }
        } else {
            ws.push((p, p + 1));
            proof {
                assert(cs@.subrange(p as int, p + 1) =~= seq![c]);
                assert(ranges_text(cs@, ws@) =~= ranges_text(cs@, before).push(seq![c]));
            }
        }
        prev_space = sp;
        p += 1;
    }
    ws
}

/// `cs[s..e]` as its own vector.
fn chars_in(cs: &Vec<char>, s: usize, e: usize) -> (t: Vec<char>)
    requires
        s <= e <= cs@.len(),
    ensures
        t@ == cs@.subrange(s as int, e as int),
{
    let mut t: Vec<char> = Vec::new();
    let mut p = s;
    while p < e
        invariant
            s <= p <= e <= cs@.len(),
            t@ == cs@.subrange(s as int, p as int),
        decreases e - p,
    {
        t.push(cs[p]);
        p += 1;
        assert(t@ =~= cs@.subrange(s as int, p as int));
    }
    t
}

/// Whether `cs[s..e]` is the word `w`.
fn is_word(cs: &Vec<char>, s: usize, e: usize, w: &Vec<char>) -> (b: bool)
    requires
        s <= e <= cs@.len(),
    ensures
        b == (cs@.subrange(s as int, e as int) == w@),
{
    if e - s != w.len() {
        return false;
    }
    let mut i: usize = 0;
    while i < w.len()
        invariant
            s <= e <= cs@.len(),
            e - s == w@.len(),
            i <= w@.len(),
            forall|q: int| 0 <= q < i ==> cs@[s + q] == w@[q],
        decreases w@.len() - i,
    {
        if cs[s + i] != w[i] {
            assert(cs@.subrange(s as int, e as int)[i as int] != w@[i as int]);
            return false;
        }
        i += 1;
    }
    assert(cs@.subrange(s as int, e as int) =~= w@);
    true
}

/// `text[s..e]` as a string, where `cs` is the characters of `text`.
fn text_of(text: &str, cs: &Vec<char>, s: usize, e: usize) -> (t: String)
    requires
        cs@ == text@,
        s <= e <= cs@.len(),
    ensures
        t@ == cs@.subrange(s as int, e as int),
{
    String::from_str(text.substring_char(s, e))
}

/// Where `t` first holds something other than `+` or `-`: every earlier character is a spin.
pub(crate) proof fn lemma_first_non_spin(t: Seq<char>)
    ensures
        0 <= first_non_spin(t) <= t.len(),
        forall|i: int| 0 <= i < first_non_spin(t) ==> #[trigger] t[i] == '+' || t[i] == '-',
        first_non_spin(t) < t.len() ==> !(t[first_non_spin(t)] == '+' || t[first_non_spin(t)] == '-'),
    decreases t.len(),
{
    if t.len() > 0 {
        let u = t.drop_last();
        lemma_first_non_spin(u);
        assert forall|i: int| 0 <= i < first_non_spin(t) implies #[trigger] t[i] == '+' || t[i] == '-' by {
            if i < u.len() {
                assert(t[i] == u[i]);
            }
        }
        if first_non_spin(u) < u.len() {
            assert(t[first_non_spin(u)] == u[first_non_spin(u)]);
        }
    }
}

/// The words `ws[from..]` of `cs`, joined by single spaces.
fn joined_of(text: &str, cs: &Vec<char>, ws: &Vec<(usize, usize)>, from: usize) -> (j: String)
    requires
        cs@ == text@,
        from <= ws@.len(),
        forall|i: int| 0 <= i < ws@.len() ==> (#[trigger] ws@[i]).0 <= ws@[i].1 <= cs@.len(),
    ensures
        j@ == joined(ranges_text(cs@, ws@).skip(from as int)),
{
    let mut j = String::new();
    let mut i = from;
    let ghost all = ranges_text(cs@, ws@);
    proof {
        reveal_strlit(" ");
        assert(all.skip(from as int).take(0) =~= Seq::<Seq<char>>::empty());
    }
    while i < ws.len()
        invariant
            cs@ == text@,
            from <= i <= ws@.len(),
            forall|i: int| 0 <= i < ws@.len() ==> (#[trigger] ws@[i]).0 <= ws@[i].1 <= cs@.len(),
            all == ranges_text(cs@, ws@),
            j@ == joined(all.skip(from as int).take(i - from)),
        decreases ws@.len() - i,
    {
        let (s, e) = ws[i];
        let ghost pre = all.skip(from as int).take(i - from);
        let ghost post = all.skip(from as int).take(i - from + 1);
        proof {
            reveal_strlit(" ");
            assert(post.drop_last() =~= pre);
            assert(post.last() == cs@.subrange(s as int, e as int));
            if i == from {
                assert(post.len() == 1);
            }
        }
        if i > from {
            j.append(" ");
        } else {
            assert(pre =~= Seq::<Seq<char>>::empty());
        }
        j.append(text.substring_char(s, e));
        i += 1;
    }
    assert(all.skip(from as int).take(i - from) =~= all.skip(from as int));
    j
}

/// The fields read so far, as values.
struct Fields {
    header: bool,
    model: Option<u64>,
    state: Option<Vec<i8>>,
    energy: Option<String>,
    bound: Option<String>,
    cost: Ledger,
    method: Option<String>,
    seed: Option<u64>,
}

/// The text of an optional string.
pub open spec fn opt_text(s: Option<String>) -> Option<Seq<char>> {
    match s {
        Some(t) => Some(t@),
        None => None,
    }
}

/// The fields as the specification reads them.
spec fn drafted(f: Fields) -> Draft {
    Draft {
        header: f.header,
        model: f.model,
        state: match f.state {
            Some(v) => Some(v@),
            None => None,
        },
        energy: opt_text(f.energy),
        bound: opt_text(f.bound),
        cost: (f.cost.samples, f.cost.reads, f.cost.writes),
        method: opt_text(f.method),
        seed: f.seed,
    }
}

/// The fields of a complete receipt, as the specification reads them.
pub open spec fn draft_of(r: ReceiptText) -> Draft {
    Draft {
        header: true,
        model: Some(r.model),
        state: Some(r.state@),
        energy: Some(r.energy@),
        bound: opt_text(r.bound),
        cost: (r.cost.samples, r.cost.reads, r.cost.writes),
        method: Some(r.method@),
        seed: Some(r.seed),
    }
}

/// A failure on line `at`.
fn fail(at: usize, message: &str) -> (e: Option<ParseError>)
    ensures
        e matches Some(pe) && pe.line == at && pe.message@ == message@,
{
    Some(ParseError { line: at, message: String::from_str(message) })
}

/// The spins of the state token `cs[s..e]`, or the failure naming its first character that is
/// not one.
fn read_state(text: &str, cs: &Vec<char>, s: usize, e: usize, at: usize) -> (r: Result<Vec<i8>, ParseError>)
    requires
        cs@ == text@,
        s <= e <= cs@.len(),
    ensures
        ({
            let t = cs@.subrange(s as int, e as int);
            match r {
                Ok(v) => first_non_spin(t) == t.len() && v@ == spins_of(t),
                Err(pe) => first_non_spin(t) < t.len() && pe.line == at && pe.message@ == "`"@
                    + seq![t[first_non_spin(t)]] + "` is not a spin; use + or -"@,
            }
        }),
{
    let ghost t = cs@.subrange(s as int, e as int);
    proof {
        lemma_first_non_spin(t);
    }
    let mut v: Vec<i8> = Vec::new();
    let mut p = s;
    while p < e
        invariant
            cs@ == text@,
            s <= p <= e <= cs@.len(),
            t == cs@.subrange(s as int, e as int),
            0 <= first_non_spin(t) <= t.len(),
            forall|i: int| 0 <= i < first_non_spin(t) ==> #[trigger] t[i] == '+' || t[i] == '-',
            first_non_spin(t) < t.len() ==> !(t[first_non_spin(t)] == '+' || t[first_non_spin(t)] == '-'),
            forall|i: int| 0 <= i < p - s ==> #[trigger] t[i] == '+' || t[i] == '-',
            v@ == spins_of(t.take(p - s)),
        decreases e - p,
    {
        let c = cs[p];
        assert(t[p - s] == c);
        if c == '+' {
            v.push(1i8);
        } else if c == '-' {
            v.push(-1i8);
        } else {
            assert(first_non_spin(t) == p - s) by {
                if first_non_spin(t) < p - s {
                    assert(t[first_non_spin(t)] == '+' || t[first_non_spin(t)] == '-');
                }
            }
            let mut m = String::from_str("`");
            m.append(text.substring_char(p, p + 1));
            assert(cs@.subrange(p as int, p + 1) =~= seq![c]);
            m.append("` is not a spin; use + or -");
            return Err(ParseError { line: at, message: m });
        }
        p += 1;
        assert(v@ =~= spins_of(t.take(p - s)));
    }
    assert(t.take(p - s) =~= t);
    assert(first_non_spin(t) == t.len()) by {
        if first_non_spin(t) < t.len() {
            assert(t[first_non_spin(t)] == '+' || t[first_non_spin(t)] == '-');
        }
    }
    Ok(v)
}

/// What line `at`, the characters `cs[a..b]` of `text`, does to the fields read so far; `None`
/// when it reads, the failure when it does not.
#[verifier::rlimit(40)]
fn read_line_of(text: &str, cs: &Vec<char>, a: usize, b: usize, at: usize, f: &mut Fields) -> (r: Option<ParseError>)
    requires
        cs@ == text@,
        a <= b <= cs@.len(),
    ensures
        match read_line(drafted(*old(f)), words(cs@.subrange(a as int, b as int)), at as nat) {
            Ok(d) => r is None && drafted(*final(f)) == d,
            Err(e) => r matches Some(pe) && pe.line == e.0 && pe.message@ == e.1,
        },
{
    let ws = words_of(cs, a, b);
    let ghost w = ranges_text(cs@, ws@);
    assert(w == words(cs@.subrange(a as int, b as int)));
    if ws.len() == 0 {
        return None;
    }
    let n = ws.len();
    let (ks, ke) = ws[0];
    assert(w[0] == cs@.subrange(ks as int, ke as int));
    assert(w[0][0] == cs@[ks as int]);
    if cs[ks] == '#' {
        return None;
    }
    let k_receipt: Vec<char> = vec!['r', 'e', 'c', 'e', 'i', 'p', 't'];
    let k_model: Vec<char> = vec!['m', 'o', 'd', 'e', 'l'];
    let k_method: Vec<char> = vec!['m', 'e', 't', 'h', 'o', 'd'];
    let k_seed: Vec<char> = vec!['s', 'e', 'e', 'd'];
    let k_energy: Vec<char> = vec!['e', 'n', 'e', 'r', 'g', 'y'];
    let k_bound: Vec<char> = vec!['b', 'o', 'u', 'n', 'd'];
    let k_cost: Vec<char> = vec!['c', 'o', 's', 't'];
    let k_state: Vec<char> = vec!['s', 't', 'a', 't', 'e'];
    let one: Vec<char> = vec!['1'];
    assert(k_receipt@ =~= seq!['r', 'e', 'c', 'e', 'i', 'p', 't']);
    assert(k_model@ =~= seq!['m', 'o', 'd', 'e', 'l']);
    assert(k_method@ =~= seq!['m', 'e', 't', 'h', 'o', 'd']);
    assert(k_seed@ =~= seq!['s', 'e', 'e', 'd']);
    assert(k_energy@ =~= seq!['e', 'n', 'e', 'r', 'g', 'y']);
    assert(k_bound@ =~= seq!['b', 'o', 'u', 'n', 'd']);
    assert(k_cost@ =~= seq!['c', 'o', 's', 't']);
    assert(k_state@ =~= seq!['s', 't', 'a', 't', 'e']);
    assert(one@ =~= seq!['1']);
    if n >= 2 {
        assert(w[1] == cs@.subrange(ws@[1].0 as int, ws@[1].1 as int));
    }
    if n >= 4 {
        assert(w[2] == cs@.subrange(ws@[2].0 as int, ws@[2].1 as int));
        assert(w[3] == cs@.subrange(ws@[3].0 as int, ws@[3].1 as int));
    }
    if is_word(cs, ks, ke, &k_receipt) {
        if n >= 2 && is_word(cs, ws[1].0, ws[1].1, &one) {
            f.header = true;
            return None;
        }
        return fail(at, "only version 1 is understood");
    }
    if is_word(cs, ks, ke, &k_model) {
        if n < 2 {
            return fail(at, "bad model");
        }
        let t = chars_in(cs, ws[1].0, ws[1].1);
        match parse_unsigned(&t, 16) {
            Some(v) => {
                f.model = Some(v);
                return None;
            },
            None => {
                return fail(at, "bad model digest");
            },
        }
    }
    if is_word(cs, ks, ke, &k_method) {
        let j = joined_of(text, cs, &ws, 1);
        assert(w.skip(1) =~= w.drop_first());
        f.method = Some(j);
        return None;
    }
    if is_word(cs, ks, ke, &k_seed) {
        if n < 2 {
            return fail(at, "bad seed");
        }
        let t = chars_in(cs, ws[1].0, ws[1].1);
        match parse_unsigned(&t, 10) {
            Some(v) => {
                f.seed = Some(v);
                return None;
            },
            None => {
                return fail(at, "bad seed");
            },
        }
    }
    if is_word(cs, ks, ke, &k_energy) || is_word(cs, ks, ke, &k_bound) {
        let is_energy = is_word(cs, ks, ke, &k_energy);
        if n >= 2 {
            let t = chars_in(cs, ws[1].0, ws[1].1);
            if float_text(&t) {
                let v = text_of(text, cs, ws[1].0, ws[1].1);
                if is_energy {
                    f.energy = Some(v);
                } else {
                    f.bound = Some(v);
                }
                return None;
            }
        }
        if is_energy {
            return fail(at, "bad energy");
        } else {
            return fail(at, "bad bound");
        }
    }
    if is_word(cs, ks, ke, &k_cost) {
        if n >= 4 {
            let t1 = chars_in(cs, ws[1].0, ws[1].1);
            let t2 = chars_in(cs, ws[2].0, ws[2].1);
            let t3 = chars_in(cs, ws[3].0, ws[3].1);
            let r1 = parse_unsigned(&t1, 10);
            let r2 = parse_unsigned(&t2, 10);
            let r3 = parse_unsigned(&t3, 10);
            match (r1, r2, r3) {
                (Some(x1), Some(x2), Some(x3)) => {
                    f.cost = Ledger { samples: x1, reads: x2, writes: x3 };
                    return None;
                },
                _ => {},
            }
        }
        return fail(at, "bad cost");
    }
    if is_word(cs, ks, ke, &k_state) {
        if n < 2 {
            return fail(at, "bad state");
        }
        match read_state(text, cs, ws[1].0, ws[1].1, at) {
            Ok(v) => {
                f.state = Some(v);
                return None;
            },
            Err(pe) => {
                return Some(pe);
            },
        }
    }
    let mut m = String::from_str("unknown field `");
    m.append(text.substring_char(ks, ke));
    m.append("`");
    Some(ParseError { line: at, message: m })
}

/// Reading the first `k` lines looks at nothing after them.
proof fn lemma_read_lines_prefix(l1: Seq<Seq<char>>, l2: Seq<Seq<char>>, k: int)
    requires
        0 <= k <= l1.len(),
        k <= l2.len(),
        forall|i: int| 0 <= i < k ==> l1[i] == l2[i],
    ensures
        read_lines(l1, k) == read_lines(l2, k),
    decreases k,
{
    if k > 0 {
        lemma_read_lines_prefix(l1, l2, k - 1);
        assert(l1[k - 1] == l2[k - 1]);
    }
}

/// The text's lines so far, closed and open, after one more character.
pub(crate) proof fn lemma_segments_push(t: Seq<char>, c: char)
    ensures
        segments(t.push(c)) == (if c == '\n' {
            segments(t).push(seq![])
        } else {
            segments(t).update(segments(t).len() - 1, segments(t).last().push(c))
        }),
{
    assert(t.push(c).drop_last() =~= t);
}

/// A newline ends a line for good: the closed lines of a prefix are the first lines of any longer
/// prefix.
proof fn lemma_segments_extend(t: Seq<char>, i: int, j: int)
    requires
        0 <= i <= j <= t.len(),
    ensures
        segments(t.take(j)).len() >= segments(t.take(i)).len() >= 1,
        forall|m: int|
            0 <= m < segments(t.take(i)).len() - 1 ==> #[trigger] segments(t.take(j))[m] == segments(
                t.take(i),
            )[m],
    decreases j - i,
{
    lemma_segments_nonempty(t.take(i));
    if j > i {
        lemma_segments_extend(t, i, j - 1);
        assert(t.take(j) =~= t.take(j - 1).push(t[j - 1]));
        lemma_segments_push(t.take(j - 1), t[j - 1]);
        lemma_segments_nonempty(t.take(j - 1));
    }
}

/// There is always a line, if only an empty one.
pub(crate) proof fn lemma_segments_nonempty(t: Seq<char>)
    ensures
        segments(t).len() >= 1,
    decreases t.len(),
{
    if t.len() > 0 {
        lemma_segments_nonempty(t.drop_last());
    }
}

impl ReceiptText {
    /// Read a receipt's text: one field per line, blank lines and `#` lines skipped, a later field
    /// overriding an earlier one. A malformed field, an unknown one, a missing `receipt 1` header
    /// or a missing required field is a [`ParseError`] naming the line; the text is never
    /// defaulted into a different receipt.
    #[verifier::spinoff_prover]
    #[verifier::rlimit(80)]
    pub fn parse(text: &str) -> (res: Result<ReceiptText, ParseError>)
        requires
            text@.len() < usize::MAX,
        ensures
            match res {
                Ok(r) => receipt_text(text@) == Ok::<Draft, (nat, Seq<char>)>(draft_of(r)),
                Err(e) => receipt_text(text@) == Err::<Draft, (nat, Seq<char>)>(
                    (e.line as nat, e.message@),
                ),
            },
    {
        let cs = chars_of(text);
        let mut f = Fields {
            header: false,
            model: None,
            state: None,
            energy: None,
            bound: None,
            cost: Ledger { samples: 0, reads: 0, writes: 0 },
            method: None,
            seed: None,
        };
        let ghost mut closed: Seq<Seq<char>> = seq![];
        let mut a: usize = 0;
        let mut p: usize = 0;
        let mut k: usize = 0;
        proof {
            assert(cs@.take(0) =~= Seq::<char>::empty());
            assert(cs@.subrange(0, 0) =~= Seq::<char>::empty());
            assert(segments(cs@.take(0)) =~= closed.push(cs@.subrange(0, 0)));
            assert(drafted(f) == blank_draft());
        }
        while p < cs.len()
            invariant
                cs@ == text@,
                a <= p <= cs@.len(),
                k == closed.len(),
                k <= p,
                segments(cs@.take(p as int)) == closed.push(cs@.subrange(a as int, p as int)),
                read_lines(closed, k as int) == Ok::<Draft, (nat, Seq<char>)>(drafted(f)),
            decreases cs@.len() - p,
        {
            let c = cs[p];
            proof {
                assert(cs@.take(p + 1) =~= cs@.take(p as int).push(c));
                lemma_segments_push(cs@.take(p as int), c);
            }
            if c == '\n' {
                let ghost line = cs@.subrange(a as int, p as int);
                let ghost before = drafted(f);
                let r = read_line_of(text, &cs, a, p, k + 1, &mut f);
                proof {
                    let next = closed.push(line);
                    lemma_read_lines_prefix(next, closed, k as int);
                    assert(read_lines(next, k + 1) == read_line(before, words(line), (k + 1) as nat));
                }
                match r {
                    Some(e) => {
                        proof {
                            let seen = closed.push(line);
                            assert(segments(cs@.take(p + 1)) == seen.push(seq![]));
                            lemma_segments_extend(cs@, p + 1, cs@.len() as int);
                            assert(cs@.take(cs@.len() as int) =~= cs@);
                            assert forall|i: int| 0 <= i < k + 1 implies seen[i] == segments(text@)[i] by {
                                assert(segments(cs@.take(p + 1))[i] == seen[i]);
                            }
                            lemma_first_error_stands(seen, (k + 1) as int, segments(text@));
                        }
                        return Err(e);
                    },
                    None => {},
                }
                proof {
                    closed = closed.push(line);
                    assert(cs@.subrange(p + 1, p + 1) =~= Seq::<char>::empty());
                    assert(segments(cs@.take(p + 1)) =~= closed.push(cs@.subrange(p + 1, p + 1)));
                }
                k += 1;
                a = p + 1;
            } else {
                proof {
                    assert(cs@.subrange(a as int, p + 1) =~= cs@.subrange(a as int, p as int).push(c));
                    assert(segments(cs@.take(p + 1)) =~= closed.push(cs@.subrange(a as int, p + 1)));
                }
            }
            p += 1;
        }
        let ghost line = cs@.subrange(a as int, p as int);
        let ghost lines = closed.push(line);
        proof {
            assert(cs@.take(p as int) =~= cs@);
            assert(segments(text@) == lines);
        }
        let ghost before = drafted(f);
        let r = read_line_of(text, &cs, a, p, k + 1, &mut f);
        proof {
            lemma_read_lines_prefix(lines, closed, k as int);
            assert(read_lines(lines, k + 1) == read_line(before, words(line), (k + 1) as nat));
        }
        match r {
            Some(e) => {
                return Err(e);
            },
            None => {},
        }
        let Fields { header, model, state, energy, bound, cost, method, seed } = f;
        if !header {
            return Err(ParseError { line: 1, message: String::from_str("no `receipt 1` header") });
        }
        let model = match model {
            Some(v) => v,
            None => {
                return Err(ParseError { line: 0, message: String::from_str("no model") });
            },
        };
        let state = match state {
            Some(v) => v,
            None => {
                return Err(ParseError { line: 0, message: String::from_str("no state") });
            },
        };
        let energy = match energy {
            Some(v) => v,
            None => {
                return Err(ParseError { line: 0, message: String::from_str("no energy") });
            },
        };
        let method = match method {
            Some(v) => v,
            None => {
                return Err(ParseError { line: 0, message: String::from_str("no method") });
            },
        };
        let seed = match seed {
            Some(v) => v,
            None => {
                return Err(ParseError { line: 0, message: String::from_str("no seed") });
            },
        };
        Ok(ReceiptText { model, state, energy, bound, cost, method, seed })
    }
}

/// A line that fails ends the reading: every longer reading fails with it.
proof fn lemma_first_error_stands(lines: Seq<Seq<char>>, k: int, all: Seq<Seq<char>>)
    requires
        0 < k <= lines.len(),
        read_lines(lines, k) is Err,
        k <= all.len(),
        forall|i: int| 0 <= i < k ==> lines[i] == all[i],
    ensures
        read_lines(all, all.len() as int) == read_lines(lines, k),
    decreases all.len() - k,
{
    lemma_read_lines_prefix(lines, all, k);
    if k < all.len() {
        lemma_first_error_stands(all, k + 1, all);
    }
}

// ---------------------------------------------------------------------------------------------
// Writing a receipt.
// ---------------------------------------------------------------------------------------------

/// The character of hex digit `d`, lower case.
pub open spec fn hex_char(d: nat) -> char {
    if d < 10 {
        crate::text::digit_char(d)
    } else if d == 10 {
        'a'
    } else if d == 11 {
        'b'
    } else if d == 12 {
        'c'
    } else if d == 13 {
        'd'
    } else if d == 14 {
        'e'
    } else {
        'f'
    }
}

/// `x` as sixteen lower-case hex digits, most significant first.
pub open spec fn hex16(x: u64) -> Seq<char> {
    Seq::new(16, |i: int| hex_char(((x >> ((4 * (15 - i)) as u64)) & 0xfu64) as nat))
}

/// The spin characters of a state: `+` for a positive entry, `-` otherwise.
pub open spec fn spin_text(state: Seq<i8>) -> Seq<char> {
    Seq::new(state.len(), |i: int| if state[i] > 0 { '+' } else { '-' })
}

/// A receipt as text: one field per line, the bound only when there is one.
pub open spec fn written(r: ReceiptText) -> Seq<char> {
    "receipt 1\n"@ + "model "@ + hex16(r.model) + "\n"@ + "method "@ + r.method@ + "\n"@ + "seed "@
        + decimal_chars(r.seed as nat) + "\n"@ + "energy "@ + r.energy@ + "\n"@ + match r.bound {
        Some(b) => "bound "@ + b@ + "\n"@,
        None => seq![],
    } + "cost "@ + decimal_chars(r.cost.samples as nat) + " "@ + decimal_chars(r.cost.reads as nat)
        + " "@ + decimal_chars(r.cost.writes as nat) + "\n"@ + "state "@ + spin_text(r.state@)
        + "\n"@
}

/// The one-character text of hex digit `d`.
fn hex_text(d: u64) -> (s: &'static str)
    requires
        d < 16,
    ensures
        s@ == seq![hex_char(d as nat)],
{
    proof {
        reveal_strlit("0");
        reveal_strlit("1");
        reveal_strlit("2");
        reveal_strlit("3");
        reveal_strlit("4");
        reveal_strlit("5");
        reveal_strlit("6");
        reveal_strlit("7");
        reveal_strlit("8");
        reveal_strlit("9");
        reveal_strlit("a");
        reveal_strlit("b");
        reveal_strlit("c");
        reveal_strlit("d");
        reveal_strlit("e");
        reveal_strlit("f");
    }
    if d == 0 {
        "0"
    } else if d == 1 {
        "1"
    } else if d == 2 {
        "2"
    } else if d == 3 {
        "3"
    } else if d == 4 {
        "4"
    } else if d == 5 {
        "5"
    } else if d == 6 {
        "6"
    } else if d == 7 {
        "7"
    } else if d == 8 {
        "8"
    } else if d == 9 {
        "9"
    } else if d == 10 {
        "a"
    } else if d == 11 {
        "b"
    } else if d == 12 {
        "c"
    } else if d == 13 {
        "d"
    } else if d == 14 {
        "e"
    } else {
        "f"
    }
}

impl ReceiptText {
    /// The receipt as text: `receipt 1`, then `model` as sixteen hex digits, `method`, `seed`,
    /// `energy`, `bound` when there is one, `cost` as three counts, and `state` as `+` and `-`,
    /// one field per line.
    pub fn to_text(&self) -> (t: String)
        ensures
            t@ == written(*self),
    {
        let mut out = String::from_str("receipt 1\n");
        out.append("model ");
        let ghost before = out@;
        let mut i: u64 = 0;
        while i < 16
            invariant
                i <= 16,
                out@ == before + hex16(self.model).take(i as int),
            decreases 16 - i,
        {
            let m = self.model;
            let sh: u64 = 4 * (15 - i);
            let d = (m >> sh) & 0xfu64;
            assert(d < 16) by (bit_vector)
                requires
                    d == (m >> sh) & 0xfu64,
            ;
            assert(d == (m >> ((4 * (15 - i)) as u64)) & 0xfu64);
            out.append(hex_text(d));
            assert(hex16(self.model).take(i + 1) =~= hex16(self.model).take(i as int).push(
                hex_char(d as nat),
            ));
            i += 1;
        }
        assert(hex16(self.model).take(16) =~= hex16(self.model));
        out.append("\n");
        out.append("method ");
        out.append(self.method.as_str());
        out.append("\n");
        out.append("seed ");
        push_decimal_u64(&mut out, self.seed);
        out.append("\n");
        out.append("energy ");
        out.append(self.energy.as_str());
        out.append("\n");
        let ghost mid = out@;
        match &self.bound {
            Some(b) => {
                out.append("bound ");
                out.append(b.as_str());
                out.append("\n");
            },
            None => {},
        }
        out.append("cost ");
        push_decimal_u64(&mut out, self.cost.samples);
        out.append(" ");
        push_decimal_u64(&mut out, self.cost.reads);
        out.append(" ");
        push_decimal_u64(&mut out, self.cost.writes);
        out.append("\n");
        out.append("state ");
        let ghost before = out@;
        let mut i: usize = 0;
        while i < self.state.len()
            invariant
                i <= self.state@.len(),
                out@ == before + spin_text(self.state@).take(i as int),
            decreases self.state@.len() - i,
        {
            proof {
                reveal_strlit("+");
                reveal_strlit("-");
            }
            if self.state[i] > 0 {
                out.append("+");
            } else {
                out.append("-");
            }
            assert(spin_text(self.state@).take(i + 1) =~= spin_text(self.state@).take(i as int).push(
                spin_text(self.state@)[i as int],
            ));
            i += 1;
        }
        assert(spin_text(self.state@).take(i as int) =~= spin_text(self.state@));
        out.append("\n");
        out
    }
}


// ---------------------------------------------------------------------------------------------
// Checking a receipt's structure against a model.
// ---------------------------------------------------------------------------------------------

/// Why a receipt's answer is not an answer to a model, before any energy is looked at.
#[derive(Clone, Copy, Debug, PartialEq, Eq)]
pub enum Misfit {
    /// The receipt was written against a different model.
    DifferentModel {
        /// What the receipt says.
        receipt: u64,
        /// What the model digests to.
        graph: u64,
    },
    /// The state is not a state of this model.
    NotAState {
        /// Spins in the receipt.
        got: usize,
        /// Spins the model has.
        want: usize,
    },
    /// A spin that is neither `+1` nor `-1`.
    NotASpin {
        /// Where.
        at: usize,
        /// What was there.
        got: i8,
    },
}

/// Whether `v` is a spin.
pub open spec fn is_spin(v: i8) -> bool {
    v == 1 || v == -1
}

/// Whether a receipt naming model digest `model` and carrying `state` answers `g`: the digest
/// first, since nothing else means anything for a different model, then the length, then the
/// first entry that is not a spin.
pub fn check_answer(model: u64, state: &[i8], g: &Graph) -> (r: Result<(), Misfit>)
    requires
        rows_ok(g.n as nat, g.h_bits@, g.offset@, g.nbr@, g.w_bits@),
    ensures
        match r {
            Ok(()) => model == digest_of(*g) && state@.len() == g.n && forall|i: int|
                0 <= i < state@.len() ==> is_spin(#[trigger] state@[i]),
            Err(Misfit::DifferentModel { receipt, graph }) => receipt == model && graph == digest_of(*g)
                && model != digest_of(*g),
            Err(Misfit::NotAState { got, want }) => model == digest_of(*g) && got == state@.len() && want
                == g.n && state@.len() != g.n,
            Err(Misfit::NotASpin { at, got }) => model == digest_of(*g) && state@.len() == g.n && at
                < state@.len() && got == state@[at as int] && !is_spin(got) && forall|i: int|
                0 <= i < at ==> is_spin(#[trigger] state@[i]),
        },
{
    let d = digest(g);
    if d != model {
        return Err(Misfit::DifferentModel { receipt: model, graph: d });
    }
    if state.len() != g.n {
        return Err(Misfit::NotAState { got: state.len(), want: g.n });
    }
    let mut i: usize = 0;
    while i < state.len()
        invariant
            model == digest_of(*g),
            state@.len() == g.n,
            i <= state@.len(),
            forall|q: int| 0 <= q < i ==> is_spin(#[trigger] state@[q]),
        decreases state@.len() - i,
    {
        let v = state[i];
        if v != 1 && v != -1 {
            return Err(Misfit::NotASpin { at: i, got: v });
        }
        i += 1;
    }
    Ok(())
}

} // verus!
