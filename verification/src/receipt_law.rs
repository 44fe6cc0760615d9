//! What reading a written receipt gives back.

use vstd::prelude::*;
use crate::receipt::{
    all_digits, digit_value, digits_value, is_space, segments, unsigned_digits, unsigned_ok, words,
};
use crate::receipt::{
    digit_run, exponent_ok, float_body, float_ok, folded, hex16, hex_char, is_dec, number_ok,
    spells,
};
use crate::receipt::{joined, lemma_segments_nonempty, lemma_segments_push};
use crate::receipt::{
    Draft, ReceiptText, blank_draft, draft_of, first_non_spin, lemma_first_non_spin, read_line, read_lines,
    receipt_text, spin_text, spins_of, written,
};
use crate::text::{decimal_chars, digit_char};

verus! {

/// Whether `t` holds no white space.
pub open spec fn solid(t: Seq<char>) -> bool {
    forall|i: int| 0 <= i < t.len() ==> !is_space(#[trigger] t[i])
}

/// A text ending in something other than white space has a word.
proof fn lemma_words_nonempty(s: Seq<char>)
    requires
        s.len() > 0,
        !is_space(s.last()),
    ensures
        words(s).len() > 0,
    decreases s.len(),
{
    if s.len() >= 2 && !is_space(s[s.len() - 2]) {
        lemma_words_nonempty(s.drop_last());
    }
}

/// A space splits words: the words of `p`, a space, then `q` are those of `p` then those of `q`.
proof fn lemma_words_split(p: Seq<char>, q: Seq<char>)
    ensures
        words(p + seq![' '] + q) == words(p) + words(q),
    decreases q.len(),
{
    let s = p + seq![' '] + q;
    if q.len() == 0 {
        assert(s.drop_last() =~= p);
        assert(words(p) + words(q) =~= words(p));
    } else {
        let q1 = q.drop_last();
        let c = q.last();
        lemma_words_split(p, q1);
        assert(s.drop_last() =~= p + seq![' '] + q1);
        assert(s.last() == c);
        if is_space(c) {
            assert(words(p) + words(q) =~= words(p) + words(q1));
        } else if q1.len() > 0 && !is_space(q1.last()) {
            assert(s[s.len() - 2] == q1.last());
            assert(q[q.len() - 2] == q1.last());
            lemma_words_nonempty(q1);
            let wp = words(p);
            let w1 = words(q1);
            assert((wp + w1).update((wp + w1).len() - 1, (wp + w1).last().push(c)) =~= wp + w1.update(
                w1.len() - 1,
                w1.last().push(c),
            ));
        } else {
            if q1.len() > 0 {
                assert(s[s.len() - 2] == q1.last());
                assert(q[q.len() - 2] == q1.last());
            } else {
                assert(s[s.len() - 2] == ' ');
                assert(q.len() < 2);
            }
            assert((words(p) + words(q1)).push(seq![c]) =~= words(p) + words(q1).push(seq![c]));
        }
    }
}

/// A non-empty text with no white space is one word.
proof fn lemma_words_one(w: Seq<char>)
    requires
        w.len() > 0,
        solid(w),
    ensures
        words(w) == seq![w],
    decreases w.len(),
{
    let w1 = w.drop_last();
    assert(!is_space(w.last()));
    if w1.len() == 0 {
        assert(w1 =~= Seq::<char>::empty());
        assert(words(w1) =~= Seq::<Seq<char>>::empty());
        assert(seq![w.last()] =~= w);
        assert(words(w) == words(w1).push(seq![w.last()]));
        assert(words(w1).push(seq![w.last()]) =~= seq![w]);
    } else {
        assert(solid(w1)) by {
            assert forall|i: int| 0 <= i < w1.len() implies !is_space(#[trigger] w1[i]) by {
                assert(w1[i] == w[i]);
            }
        }
        lemma_words_one(w1);
        assert(!is_space(w[w.len() - 2]));
        assert(w1.push(w.last()) =~= w);
        assert(words(w) == words(w1).update(0, w1.push(w.last())));
        assert(seq![w1].update(0, w1.push(w.last())) =~= seq![w]);
    }
}

/// The words of a key, a space and one solid value.
proof fn lemma_words_pair(k: Seq<char>, v: Seq<char>)
    requires
        k.len() > 0,
        solid(k),
        v.len() > 0,
        solid(v),
    ensures
        words(k + seq![' '] + v) == seq![k, v],
{
    lemma_words_split(k, v);
    lemma_words_one(k);
    lemma_words_one(v);
    assert(seq![k] + seq![v] =~= seq![k, v]);
}

/// Decimal digits read back as the number they were written from.
proof fn lemma_decimal_reads(x: nat)
    ensures
        decimal_chars(x).len() > 0,
        solid(decimal_chars(x)),
        all_digits(decimal_chars(x), 10),
        decimal_chars(x)[0] != '+',
        digits_value(decimal_chars(x), 10) == x,
    decreases x,
{
    let d = digit_char(x % 10);
    assert(digit_value(d, 10) == x % 10 && !is_space(d) && d != '+');
    if x < 10 {
        assert(decimal_chars(x) =~= seq![d]);
        assert(seq![d].drop_last() =~= Seq::<char>::empty());
        assert(digits_value(seq![d].drop_last(), 10) == 0);
        assert(digits_value(seq![d], 10) == digit_value(d, 10));
    } else {
        lemma_decimal_reads(x / 10);
        let s = decimal_chars(x / 10);
        assert(decimal_chars(x) == s.push(d));
        assert(s.push(d).drop_last() =~= s);
        assert((x / 10) * 10 + x % 10 == x) by (nonlinear_arith);
        assert forall|i: int| 0 <= i < s.len() + 1 implies !is_space(#[trigger] s.push(d)[i])
            && digit_value(s.push(d)[i], 10) < 10 by {
            if i < s.len() {
                assert(s.push(d)[i] == s[i]);
            }
        }
    }
}

/// A `u64` in decimal reads back as itself.
pub proof fn lemma_decimal_u64_reads(x: u64)
    ensures
        decimal_chars(x as nat).len() > 0,
        solid(decimal_chars(x as nat)),
        unsigned_ok(decimal_chars(x as nat), 10),
        digits_value(unsigned_digits(decimal_chars(x as nat)), 10) == x,
{
    lemma_decimal_reads(x as nat);
    assert(unsigned_digits(decimal_chars(x as nat)) == decimal_chars(x as nat));
}

/// A hex digit's character reads back as the digit.
proof fn lemma_hex_char(d: nat)
    requires
        d < 16,
    ensures
        digit_value(hex_char(d), 16) == d,
        !is_space(hex_char(d)),
        hex_char(d) != '+',
{
}

/// One more hex digit: the top bits down to `s` are the top bits down to `s + 4`, times sixteen,
/// plus the digit at `s`.
proof fn lemma_shift_digit(x: u64, s: u64)
    by (bit_vector)
    requires
        s <= 60,
    ensures
        (x >> ((s + 4) as u64)) * 16 + ((x >> s) & 0xfu64) == x >> s,
        x >> 60u64 < 16,
        (x >> 60u64) & 0xfu64 == x >> 60u64,
        x >> 0u64 == x,
{
}

/// The first `k` hex digits of `x` spell its top `4k` bits.
proof fn lemma_hex_prefix(x: u64, k: int)
    requires
        1 <= k <= 16,
    ensures
        digits_value(hex16(x).take(k), 16) == x >> ((4 * (16 - k)) as u64),
    decreases k,
{
    let h = hex16(x);
    lemma_shift_digit(x, 0);
    if k == 1 {
        let d = ((x >> 60u64) & 0xfu64) as nat;
        assert(h[0] == hex_char(d));
        lemma_hex_char(d);
        assert(h.take(1).drop_last() =~= Seq::<char>::empty());
        assert(digits_value(h.take(1).drop_last(), 16) == 0);
    } else {
        lemma_hex_prefix(x, k - 1);
        let s: u64 = (4 * (16 - k)) as u64;
        lemma_shift_digit(x, s);
        let d = ((x >> s) & 0xfu64) as nat;
        assert((x >> s) & 0xfu64 < 16) by (bit_vector);
        assert(h[k - 1] == hex_char(d));
        lemma_hex_char(d);
        assert(h.take(k).drop_last() =~= h.take(k - 1));
        assert(h.take(k).last() == h[k - 1]);
        assert(((s + 4) as u64) == (4 * (16 - (k - 1))) as u64);
    }
}

/// Sixteen hex digits read back as the `u64` they were written from.
pub proof fn lemma_hex16_reads(x: u64)
    ensures
        hex16(x).len() == 16,
        solid(hex16(x)),
        unsigned_ok(hex16(x), 16),
        digits_value(unsigned_digits(hex16(x)), 16) == x,
{
    let h = hex16(x);
    assert forall|i: int| 0 <= i < h.len() implies !is_space(#[trigger] h[i]) && digit_value(h[i], 16)
        < 16 by {
        let sh = (4 * (15 - i)) as u64;
        assert((x >> sh) & 0xfu64 < 16) by (bit_vector);
        lemma_hex_char(((x >> sh) & 0xfu64) as nat);
    }
    assert((x >> 60u64) & 0xfu64 < 16) by (bit_vector);
    lemma_hex_char(((x >> 60u64) & 0xfu64) as nat);
    assert(h[0] != '+');
    assert(unsigned_digits(h) == h);
    lemma_hex_prefix(x, 16);
    assert(h.take(16) =~= h);
    lemma_shift_digit(x, 0);
}

/// A run of decimal digits stays inside the text and holds only digits.
proof fn lemma_digit_run(u: Seq<char>, k: int)
    requires
        0 <= k,
    ensures
        k + digit_run(u, k) <= if k <= u.len() { u.len() as int } else { k },
        forall|j: int| k <= j < k + digit_run(u, k) ==> is_dec(#[trigger] u[j]),
    decreases u.len() - k,
{
    if 0 <= k < u.len() && is_dec(u[k]) {
        lemma_digit_run(u, k + 1);
    }
}

/// A text that spells a lower-case word, in any case, holds no white space.
proof fn lemma_spelled_solid(u: Seq<char>, w: Seq<char>)
    requires
        spells(u, w),
        forall|i: int| 0 <= i < w.len() ==> 0x61 <= #[trigger] (w[i] as u32) <= 0x7a,
    ensures
        solid(u),
{
    assert forall|i: int| 0 <= i < u.len() implies !is_space(#[trigger] u[i]) by {
        assert(folded(u[i]) == w[i] as u32);
        assert(0x61 <= w[i] as u32 <= 0x7a);
    }
}

/// A decimal number holds no white space, and at least one character.
proof fn lemma_number_solid(u: Seq<char>)
    requires
        number_ok(u),
    ensures
        u.len() > 0,
        solid(u),
{
    let a = digit_run(u, 0) as int;
    lemma_digit_run(u, 0);
    let dot = a < u.len() && u[a] == '.';
    let b = if dot { digit_run(u, a + 1) as int } else { 0int };
    let q = if dot { a + 1 + b } else { a };
    if dot {
        lemma_digit_run(u, a + 1);
    }
    let has_exp = q != u.len();
    let r = if has_exp && q + 1 < u.len() && (u[q + 1] == '+' || u[q + 1] == '-') {
        q + 2
    } else {
        q + 1
    };
    if has_exp {
        lemma_digit_run(u, r);
    }
    assert forall|j: int| 0 <= j < u.len() implies !is_space(#[trigger] u[j]) by {
        if j < a {
            assert(is_dec(u[j]));
        } else if dot && j == a {
        } else if dot && j < q {
            assert(is_dec(u[j]));
        } else if j == q {
            assert(folded(u[j]) == 0x65);
        } else if j < r {
        } else {
            assert(is_dec(u[j]));
        }
    }
}

/// A number as `str::parse::<f64>` reads it holds no white space, and at least one character.
pub proof fn lemma_float_solid(t: Seq<char>)
    requires
        float_ok(t),
    ensures
        t.len() > 0,
        solid(t),
{
    let u = float_body(t);
    let inf = seq!['i', 'n', 'f'];
    let infinity = seq!['i', 'n', 'f', 'i', 'n', 'i', 't', 'y'];
    let nan = seq!['n', 'a', 'n'];
    if spells(u, inf) {
        assert forall|i: int| 0 <= i < inf.len() implies 0x61 <= #[trigger] (inf[i] as u32) <= 0x7a by {
        }
        lemma_spelled_solid(u, inf);
    } else if spells(u, infinity) {
        assert forall|i: int| 0 <= i < infinity.len() implies 0x61 <= #[trigger] (infinity[i] as u32)
            <= 0x7a by {
        }
        lemma_spelled_solid(u, infinity);
    } else if spells(u, nan) {
        assert forall|i: int| 0 <= i < nan.len() implies 0x61 <= #[trigger] (nan[i] as u32) <= 0x7a by {
        }
        lemma_spelled_solid(u, nan);
    } else {
        lemma_number_solid(u);
    }
    assert(u.len() > 0);
    assert forall|i: int| 0 <= i < t.len() implies !is_space(#[trigger] t[i]) by {
        if t.len() > 0 && (t[0] == '+' || t[0] == '-') {
            if i > 0 {
                assert(t[i] == u[i - 1]);
            }
        } else {
            assert(t[i] == u[i]);
        }
    }
}

/// The lines `ls`, each ended by a newline.
pub open spec fn text_lines(ls: Seq<Seq<char>>) -> Seq<char>
    decreases ls.len(),
{
    if ls.len() == 0 {
        seq![]
    } else {
        text_lines(ls.drop_last()) + ls.last() + seq!['\n']
    }
}

/// Whether `t` holds no newline.
pub open spec fn one_line(t: Seq<char>) -> bool {
    forall|i: int| 0 <= i < t.len() ==> #[trigger] t[i] != '\n'
}

/// Text without a newline extends the open line.
proof fn lemma_segments_append(t: Seq<char>, l: Seq<char>)
    requires
        one_line(l),
    ensures
        segments(t + l) == segments(t).update(segments(t).len() - 1, segments(t).last() + l),
    decreases l.len(),
{
    lemma_segments_nonempty(t);
    if l.len() == 0 {
        assert(t + l =~= t);
        assert(segments(t).last() + l =~= segments(t).last());
        assert(segments(t).update(segments(t).len() - 1, segments(t).last()) =~= segments(t));
    } else {
        let l1 = l.drop_last();
        let c = l.last();
        assert(one_line(l1)) by {
            assert forall|i: int| 0 <= i < l1.len() implies #[trigger] l1[i] != '\n' by {
                assert(l1[i] == l[i]);
            }
        }
        lemma_segments_append(t, l1);
        assert(t + l =~= (t + l1).push(c));
        lemma_segments_push(t + l1, c);
        let s = segments(t);
        let n = s.len() - 1;
        assert(l =~= l1.push(c));
        assert(s.last() + l =~= (s.last() + l1).push(c));
        assert(s.update(n, s.last() + l1).update(n, (s.last() + l1).push(c)) =~= s.update(
            n,
            s.last() + l,
        ));
    }
}

/// Lines written one after another, each with its newline, read back as those lines and an empty
/// last one.
proof fn lemma_segments_lines(ls: Seq<Seq<char>>)
    requires
        forall|i: int| 0 <= i < ls.len() ==> one_line(#[trigger] ls[i]),
    ensures
        segments(text_lines(ls)) == ls.push(seq![]),
    decreases ls.len(),
{
    if ls.len() == 0 {
        assert(segments(seq![]) =~= seq![seq![]]);
        assert(ls.push(seq![]) =~= seq![seq![]]);
    } else {
        let l1 = ls.drop_last();
        let l = ls.last();
        assert forall|i: int| 0 <= i < l1.len() implies one_line(#[trigger] l1[i]) by {
            assert(l1[i] == ls[i]);
        }
        assert(one_line(ls[ls.len() - 1]));
        lemma_segments_lines(l1);
        let t = text_lines(l1);
        lemma_segments_append(t, l);
        lemma_segments_push(t + l, '\n');
        assert(text_lines(ls) == (t + l).push('\n'));
        assert(seq![] + l =~= l);
        assert(l1.push(seq![]).update(l1.len() as int, l) =~= ls);
    }
}

/// The words of a text are non-empty and hold no white space.
proof fn lemma_words_solid(s: Seq<char>)
    ensures
        forall|i: int| 0 <= i < words(s).len() ==> #[trigger] words(s)[i].len() > 0 && solid(words(s)[i]),
    decreases s.len(),
{
    if s.len() > 0 {
        let s1 = s.drop_last();
        let c = s.last();
        lemma_words_solid(s1);
        if !is_space(c) && s.len() >= 2 && !is_space(s[s.len() - 2]) {
            lemma_words_nonempty(s1);
            let w = words(s1);
            let last = w.last().push(c);
            assert(solid(last)) by {
                assert forall|j: int| 0 <= j < last.len() implies !is_space(#[trigger] last[j]) by {
                    if j < w.last().len() {
                        assert(last[j] == w[w.len() - 1][j]);
                    }
                }
            }
            assert forall|i: int| 0 <= i < words(s).len() implies #[trigger] words(s)[i].len() > 0
                && solid(words(s)[i]) by {
                if i < w.len() - 1 {
                    assert(words(s)[i] == w[i]);
                }
            }
        } else if !is_space(c) {
            let w = words(s1);
            assert(solid(seq![c]));
            assert forall|i: int| 0 <= i < words(s).len() implies #[trigger] words(s)[i].len() > 0
                && solid(words(s)[i]) by {
                if i < w.len() {
                    assert(words(s)[i] == w[i]);
                }
            }
        } else {
            assert(words(s) == words(s1));
        }
    }
}

/// Solid words joined by spaces hold no newline.
proof fn lemma_joined_one_line(ws: Seq<Seq<char>>)
    requires
        forall|i: int| 0 <= i < ws.len() ==> solid(#[trigger] ws[i]),
    ensures
        one_line(joined(ws)),
    decreases ws.len(),
{
    if ws.len() == 1 {
        assert(solid(ws[0]));
        assert forall|j: int| 0 <= j < ws[0].len() implies #[trigger] ws[0][j] != '\n' by {
            assert(!is_space(ws[0][j]));
        }
    } else if ws.len() > 1 {
        let w1 = ws.drop_last();
        assert forall|i: int| 0 <= i < w1.len() implies solid(#[trigger] w1[i]) by {
            assert(w1[i] == ws[i]);
        }
        lemma_joined_one_line(w1);
        let a = joined(w1);
        let b = ws.last();
        assert(solid(ws[ws.len() - 1]));
        let t = a + seq![' '] + b;
        assert forall|j: int| 0 <= j < t.len() implies #[trigger] t[j] != '\n' by {
            if j < a.len() {
                assert(t[j] == a[j]);
            } else if j == a.len() {
            } else {
                assert(t[j] == b[j - a.len() - 1]);
                assert(!is_space(b[j - a.len() - 1]));
            }
        }
    }
}

/// A solid text is one line.
proof fn lemma_solid_one_line(t: Seq<char>)
    requires
        solid(t),
    ensures
        one_line(t),
{
    assert forall|i: int| 0 <= i < t.len() implies #[trigger] t[i] != '\n' by {
        assert(!is_space(t[i]));
    }
}

/// A state written as `+` and `-` reads back as itself, when every entry is a spin.
proof fn lemma_spins_read(st: Seq<i8>)
    requires
        st.len() > 0,
        forall|i: int| 0 <= i < st.len() ==> #[trigger] st[i] == 1 || st[i] == -1,
    ensures
        spin_text(st).len() > 0,
        solid(spin_text(st)),
        first_non_spin(spin_text(st)) == spin_text(st).len(),
        spins_of(spin_text(st)) == st,
{
    let t = spin_text(st);
    assert forall|i: int| 0 <= i < t.len() implies !is_space(#[trigger] t[i]) by {
    }
    lemma_first_non_spin(t);
    if first_non_spin(t) < t.len() {
        assert(t[first_non_spin(t)] == '+' || t[first_non_spin(t)] == '-');
    }
    assert(spins_of(t) =~= st);
}

/// The lines a receipt is written as, without their newlines.
spec fn receipt_lines(r: ReceiptText) -> Seq<Seq<char>> {
    let sp = seq![' '];
    let head = seq![
        "receipt"@ + sp + "1"@,
        "model"@ + sp + hex16(r.model),
        "method"@ + sp + r.method@,
        "seed"@ + sp + decimal_chars(r.seed as nat),
        "energy"@ + sp + r.energy@,
    ];
    let bound = match r.bound {
        Some(b) => seq!["bound"@ + sp + b@],
        None => seq![],
    };
    let tail = seq![
        "cost"@ + sp + decimal_chars(r.cost.samples as nat) + sp + decimal_chars(r.cost.reads as nat)
            + sp + decimal_chars(r.cost.writes as nat),
        "state"@ + sp + spin_text(r.state@),
    ];
    head + bound + tail
}

/// One more line on the text.
proof fn lemma_text_lines_push(ls: Seq<Seq<char>>, l: Seq<char>)
    ensures
        text_lines(ls.push(l)) == text_lines(ls) + l + seq!['\n'],
{
    assert(ls.push(l).drop_last() =~= ls);
}

/// The written text is its lines, each with a newline.
#[verifier::spinoff_prover]
#[verifier::rlimit(50)]
proof fn lemma_written_lines(r: ReceiptText)
    ensures
        written(r) == text_lines(receipt_lines(r)),
{
    reveal_strlit("receipt 1\n");
    reveal_strlit("receipt");
    reveal_strlit("1");
    reveal_strlit("model ");
    reveal_strlit("model");
    reveal_strlit("\n");
    reveal_strlit("method ");
    reveal_strlit("method");
    reveal_strlit("seed ");
    reveal_strlit("seed");
    reveal_strlit("energy ");
    reveal_strlit("energy");
    reveal_strlit("bound ");
    reveal_strlit("bound");
    reveal_strlit("cost ");
    reveal_strlit("cost");
    reveal_strlit(" ");
    reveal_strlit("state ");
    reveal_strlit("state");
    let sp = seq![' '];
    let nl = seq!['\n'];
    let ls = receipt_lines(r);
    let n = ls.len();
    let e = if r.bound is Some { 1int } else { 0int };
    assert(n == 7 + e);
    let w1 = "receipt 1\n"@;
    let w2 = w1 + "model "@ + hex16(r.model) + "\n"@;
    let w3 = w2 + "method "@ + r.method@ + "\n"@;
    let w4 = w3 + "seed "@ + decimal_chars(r.seed as nat) + "\n"@;
    let w5 = w4 + "energy "@ + r.energy@ + "\n"@;
    let w6 = w5 + match r.bound {
        Some(b) => "bound "@ + b@ + "\n"@,
        None => seq![],
    };
    let w7 = w6 + "cost "@ + decimal_chars(r.cost.samples as nat) + " "@ + decimal_chars(
        r.cost.reads as nat,
    ) + " "@ + decimal_chars(r.cost.writes as nat) + "\n"@;
    let w8 = w7 + "state "@ + spin_text(r.state@) + "\n"@;
    assert(written(r) == w8);
    assert(text_lines(ls.take(0)) == Seq::<char>::empty());
    lemma_text_lines_push(ls.take(0), ls[0]);
    assert(ls.take(1) =~= ls.take(0).push(ls[0]));
    assert(w1 =~= text_lines(ls.take(1)));
    lemma_text_lines_push(ls.take(1), ls[1]);
    assert(ls.take(2) =~= ls.take(1).push(ls[1]));
    assert(w2 =~= text_lines(ls.take(2)));
    lemma_text_lines_push(ls.take(2), ls[2]);
    assert(ls.take(3) =~= ls.take(2).push(ls[2]));
    assert(w3 =~= text_lines(ls.take(3)));
    lemma_text_lines_push(ls.take(3), ls[3]);
    assert(ls.take(4) =~= ls.take(3).push(ls[3]));
    assert(w4 =~= text_lines(ls.take(4)));
    lemma_text_lines_push(ls.take(4), ls[4]);
    assert(ls.take(5) =~= ls.take(4).push(ls[4]));
    assert(w5 =~= text_lines(ls.take(5)));
    match r.bound {
        Some(b) => {
            lemma_text_lines_push(ls.take(5), ls[5]);
            assert(ls.take(6) =~= ls.take(5).push(ls[5]));
            assert(w6 =~= text_lines(ls.take(6)));
        },
        None => {
            assert(w6 =~= w5);
        },
    }
    lemma_text_lines_push(ls.take(5 + e), ls[5 + e]);
    assert(ls.take(6 + e) =~= ls.take(5 + e).push(ls[5 + e]));
    assert(w7 =~= text_lines(ls.take(6 + e)));
    lemma_text_lines_push(ls.take(6 + e), ls[6 + e]);
    assert(ls.take(7 + e) =~= ls.take(6 + e).push(ls[6 + e]));
    assert(w8 =~= text_lines(ls.take(7 + e)));
    assert(ls.take(7 + e) =~= ls);
}

/// Two lines' worth of text with no newline is one line.
proof fn lemma_one_line_concat(a: Seq<char>, b: Seq<char>)
    requires
        one_line(a),
        one_line(b),
    ensures
        one_line(a + b),
{
    assert forall|i: int| 0 <= i < (a + b).len() implies #[trigger] (a + b)[i] != '\n' by {
        if i < a.len() {
            assert((a + b)[i] == a[i]);
        } else {
            assert((a + b)[i] == b[i - a.len()]);
        }
    }
}

/// A key, a space and a value, all on one line, is one line.
proof fn lemma_field_one_line(k: Seq<char>, v: Seq<char>)
    requires
        solid(k),
        one_line(v),
    ensures
        one_line(k + seq![' '] + v),
{
    lemma_solid_one_line(k);
    lemma_one_line_concat(k, seq![' ']);
    lemma_one_line_concat(k + seq![' '], v);
}

/// The header line reads as the header.
proof fn lemma_read_header(d: Draft, at: nat)
    ensures
        read_line(d, seq!["receipt"@, "1"@], at) == Ok::<Draft, (nat, Seq<char>)>(Draft { header: true, ..d }),
{
    reveal_strlit("receipt");
    reveal_strlit("1");
    let ws = seq!["receipt"@, "1"@];
    assert(ws.len() == 2);
    assert(ws[0] == "receipt"@);
    assert(ws[0][0] == 'r');
    assert(ws[0] =~= seq!['r', 'e', 'c', 'e', 'i', 'p', 't']);
    assert(ws[1] =~= seq!['1']);
}

/// The model line reads as the digest it was written from.
proof fn lemma_read_model(d: Draft, x: u64, at: nat)
    ensures
        read_line(d, seq!["model"@, hex16(x)], at) == Ok::<Draft, (nat, Seq<char>)>(Draft { model: Some(x), ..d }),
{
    reveal_strlit("model");
    lemma_hex16_reads(x);
    let ws = seq!["model"@, hex16(x)];
    assert(ws[0] =~= seq!['m', 'o', 'd', 'e', 'l']);
    assert(ws[0][0] == 'm');
}

/// The method line reads as the method, when it is words joined by single spaces.
proof fn lemma_read_method(d: Draft, m: Seq<char>, at: nat)
    requires
        joined(words(m)) == m,
    ensures
        read_line(d, seq!["method"@] + words(m), at) == Ok::<Draft, (nat, Seq<char>)>(Draft { method: Some(m), ..d }),
{
    reveal_strlit("method");
    let ws = seq!["method"@] + words(m);
    assert(ws[0] == "method"@);
    assert(ws[0] =~= seq!['m', 'e', 't', 'h', 'o', 'd']);
    assert(ws[0][0] == 'm' && ws[0][1] == 'e');
    assert(ws.drop_first() =~= words(m));
}

/// The seed line reads as the seed.
proof fn lemma_read_seed(d: Draft, x: u64, at: nat)
    ensures
        read_line(d, seq!["seed"@, decimal_chars(x as nat)], at) == Ok::<Draft, (nat, Seq<char>)>(Draft { seed: Some(x), ..d }),
{
    reveal_strlit("seed");
    lemma_decimal_u64_reads(x);
    let ws = seq!["seed"@, decimal_chars(x as nat)];
    assert(ws[0] =~= seq!['s', 'e', 'e', 'd']);
    assert(ws[0][0] == 's');
}

/// The energy line reads as the energy's text.
proof fn lemma_read_energy(d: Draft, t: Seq<char>, at: nat)
    requires
        float_ok(t),
    ensures
        read_line(d, seq!["energy"@, t], at) == Ok::<Draft, (nat, Seq<char>)>(Draft { energy: Some(t), ..d }),
{
    reveal_strlit("energy");
    let ws = seq!["energy"@, t];
    assert(ws[0] =~= seq!['e', 'n', 'e', 'r', 'g', 'y']);
    assert(ws[0][0] == 'e');
}

/// The bound line reads as the bound's text.
proof fn lemma_read_bound(d: Draft, t: Seq<char>, at: nat)
    requires
        float_ok(t),
    ensures
        read_line(d, seq!["bound"@, t], at) == Ok::<Draft, (nat, Seq<char>)>(Draft { bound: Some(t), ..d }),
{
    reveal_strlit("bound");
    let ws = seq!["bound"@, t];
    assert(ws[0] =~= seq!['b', 'o', 'u', 'n', 'd']);
    assert(ws[0][0] == 'b');
}

/// The cost line reads as the three counts.
proof fn lemma_read_cost(d: Draft, a: u64, b: u64, c: u64, at: nat)
    ensures
        read_line(
            d,
            seq!["cost"@, decimal_chars(a as nat), decimal_chars(b as nat), decimal_chars(c as nat)],
            at,
        ) == Ok::<Draft, (nat, Seq<char>)>(Draft { cost: (a, b, c), ..d }),
{
    reveal_strlit("cost");
    lemma_decimal_u64_reads(a);
    lemma_decimal_u64_reads(b);
    lemma_decimal_u64_reads(c);
    let ws = seq!["cost"@, decimal_chars(a as nat), decimal_chars(b as nat), decimal_chars(c as nat)];
    assert(ws[0] =~= seq!['c', 'o', 's', 't']);
    assert(ws[0][0] == 'c');
}

/// The state line reads as the state, when every entry is a spin.
proof fn lemma_read_state(d: Draft, st: Seq<i8>, at: nat)
    requires
        st.len() > 0,
        forall|i: int| 0 <= i < st.len() ==> #[trigger] st[i] == 1 || st[i] == -1,
    ensures
        read_line(d, seq!["state"@, spin_text(st)], at) == Ok::<Draft, (nat, Seq<char>)>(Draft { state: Some(st), ..d }),
{
    reveal_strlit("state");
    lemma_spins_read(st);
    let ws = seq!["state"@, spin_text(st)];
    assert(ws[0] =~= seq!['s', 't', 'a', 't', 'e']);
    assert(ws[0][0] == 's' && ws[0][1] == 't');
}

/// One more line read.
proof fn lemma_read_lines_step(lines: Seq<Seq<char>>, k: int, d: Draft, ws: Seq<Seq<char>>, d2: Draft)
    requires
        1 <= k,
        read_lines(lines, k - 1) == Ok::<Draft, (nat, Seq<char>)>(d),
        words(lines[k - 1]) == ws,
        read_line(d, ws, k as nat) == Ok::<Draft, (nat, Seq<char>)>(d2),
    ensures
        read_lines(lines, k) == Ok::<Draft, (nat, Seq<char>)>(d2),
{
}

/// Whether a receipt can be written faithfully: a state of spins that is not empty, a method of
/// words joined by single spaces, and an energy and any bound that read as numbers.
pub open spec fn writable(r: ReceiptText) -> bool {
    &&& r.state@.len() > 0
    &&& forall|i: int| 0 <= i < r.state@.len() ==> #[trigger] r.state@[i] == 1 || r.state@[i] == -1
    &&& joined(words(r.method@)) == r.method@
    &&& float_ok(r.energy@)
    &&& r.bound matches Some(b) ==> float_ok(b@)
}

/// The count of optional lines a receipt writes: one for a bound.
spec fn bound_lines(r: ReceiptText) -> int {
    if r.bound is Some { 1 } else { 0 }
}

/// The written text splits back into the receipt's lines.
proof fn lemma_receipt_segments(r: ReceiptText)
    requires
        writable(r),
    ensures
        segments(written(r)) == receipt_lines(r).push(seq![]),
{
    reveal_strlit("receipt");
    reveal_strlit("1");
    reveal_strlit("model");
    reveal_strlit("method");
    reveal_strlit("seed");
    reveal_strlit("energy");
    reveal_strlit("bound");
    reveal_strlit("cost");
    reveal_strlit("state");
    let sp = seq![' '];
    let ls = receipt_lines(r);
    assert(solid("receipt"@) && solid("1"@) && solid("model"@) && solid("method"@) && solid("seed"@)
        && solid("energy"@) && solid("bound"@) && solid("cost"@) && solid("state"@));
    lemma_hex16_reads(r.model);
    lemma_decimal_u64_reads(r.seed);
    lemma_decimal_u64_reads(r.cost.samples);
    lemma_decimal_u64_reads(r.cost.reads);
    lemma_decimal_u64_reads(r.cost.writes);
    lemma_float_solid(r.energy@);
    lemma_spins_read(r.state@);
    lemma_words_solid(r.method@);
    lemma_joined_one_line(words(r.method@));
    let ds = decimal_chars(r.cost.samples as nat);
    let dr = decimal_chars(r.cost.reads as nat);
    let dw = decimal_chars(r.cost.writes as nat);
    lemma_solid_one_line("1"@);
    lemma_solid_one_line(hex16(r.model));
    lemma_solid_one_line(decimal_chars(r.seed as nat));
    lemma_solid_one_line(r.energy@);
    lemma_solid_one_line(ds);
    lemma_solid_one_line(dr);
    lemma_solid_one_line(dw);
    lemma_solid_one_line(spin_text(r.state@));
    lemma_field_one_line("receipt"@, "1"@);
    lemma_field_one_line("model"@, hex16(r.model));
    lemma_field_one_line("method"@, r.method@);
    lemma_field_one_line("seed"@, decimal_chars(r.seed as nat));
    lemma_field_one_line("energy"@, r.energy@);
    lemma_field_one_line("cost"@, ds);
    lemma_one_line_concat("cost"@ + sp + ds, sp);
    lemma_one_line_concat("cost"@ + sp + ds + sp, dr);
    lemma_one_line_concat("cost"@ + sp + ds + sp + dr, sp);
    lemma_one_line_concat("cost"@ + sp + ds + sp + dr + sp, dw);
    lemma_field_one_line("state"@, spin_text(r.state@));
    match r.bound {
        Some(b) => {
            lemma_float_solid(b@);
            lemma_solid_one_line(b@);
            lemma_field_one_line("bound"@, b@);
        },
        None => {},
    }
    assert forall|i: int| 0 <= i < ls.len() implies one_line(#[trigger] ls[i]) by {
    }
    lemma_written_lines(r);
    lemma_segments_lines(ls);
}

/// The words of each of the receipt's lines.
proof fn lemma_receipt_words(r: ReceiptText)
    requires
        writable(r),
    ensures
        words(receipt_lines(r)[0]) == seq!["receipt"@, "1"@],
        words(receipt_lines(r)[1]) == seq!["model"@, hex16(r.model)],
        words(receipt_lines(r)[2]) == seq!["method"@] + words(r.method@),
        words(receipt_lines(r)[3]) == seq!["seed"@, decimal_chars(r.seed as nat)],
        words(receipt_lines(r)[4]) == seq!["energy"@, r.energy@],
        r.bound matches Some(b) ==> words(receipt_lines(r)[5]) == seq!["bound"@, b@],
        words(receipt_lines(r)[5 + bound_lines(r)]) == seq![
            "cost"@,
            decimal_chars(r.cost.samples as nat),
            decimal_chars(r.cost.reads as nat),
            decimal_chars(r.cost.writes as nat),
        ],
        words(receipt_lines(r)[6 + bound_lines(r)]) == seq!["state"@, spin_text(r.state@)],
{
    reveal_strlit("receipt");
    reveal_strlit("1");
    reveal_strlit("model");
    reveal_strlit("method");
    reveal_strlit("seed");
    reveal_strlit("energy");
    reveal_strlit("bound");
    reveal_strlit("cost");
    reveal_strlit("state");
    let sp = seq![' '];
    let ls = receipt_lines(r);
    let e = bound_lines(r);
    assert(solid("receipt"@) && solid("1"@) && solid("model"@) && solid("method"@) && solid("seed"@)
        && solid("energy"@) && solid("bound"@) && solid("cost"@) && solid("state"@));
    lemma_hex16_reads(r.model);
    lemma_decimal_u64_reads(r.seed);
    lemma_decimal_u64_reads(r.cost.samples);
    lemma_decimal_u64_reads(r.cost.reads);
    lemma_decimal_u64_reads(r.cost.writes);
    lemma_float_solid(r.energy@);
    lemma_spins_read(r.state@);
    let ds = decimal_chars(r.cost.samples as nat);
    let dr = decimal_chars(r.cost.reads as nat);
    let dw = decimal_chars(r.cost.writes as nat);
    lemma_words_pair("receipt"@, "1"@);
    lemma_words_pair("model"@, hex16(r.model));
    lemma_words_split("method"@, r.method@);
    lemma_words_one("method"@);
    lemma_words_pair("seed"@, decimal_chars(r.seed as nat));
    lemma_words_pair("energy"@, r.energy@);
    lemma_words_pair("cost"@, ds);
    lemma_words_split("cost"@ + sp + ds, dr);
    lemma_words_one(dr);
    lemma_words_split("cost"@ + sp + ds + sp + dr, dw);
    lemma_words_one(dw);
    lemma_words_pair("state"@, spin_text(r.state@));
    match r.bound {
        Some(b) => {
            lemma_float_solid(b@);
            lemma_words_pair("bound"@, b@);
        },
        None => {},
    }
    assert(seq!["cost"@, ds] + seq![dr] + seq![dw] =~= seq!["cost"@, ds, dr, dw]);
}

/// A receipt survives being written and read back: reading the text `to_text` writes gives every
/// field as it was. This holds whenever the receipt can be written faithfully at all: the state is
/// not empty and every entry is `+1` or `-1`, the method is words joined by single spaces, and the
/// energy and any bound are numbers as `str::parse::<f64>` reads them.
pub proof fn lemma_receipt_round_trip(r: ReceiptText)
    requires
        writable(r),
    ensures
        receipt_text(written(r)) == Ok::<Draft, (nat, Seq<char>)>(draft_of(r)),
{
    lemma_receipt_segments(r);
    lemma_receipt_words(r);
    let ls = receipt_lines(r);
    let lines = ls.push(seq![]);
    let e = bound_lines(r);
    let d0 = blank_draft();
    let d1 = Draft { header: true, ..d0 };
    let d2 = Draft { model: Some(r.model), ..d1 };
    let d3 = Draft { method: Some(r.method@), ..d2 };
    let d4 = Draft { seed: Some(r.seed), ..d3 };
    let d5 = Draft { energy: Some(r.energy@), ..d4 };
    let d6 = Draft {
        bound: match r.bound {
            Some(b) => Some(b@),
            None => None,
        },
        ..d5
    };
    let d7 = Draft { cost: (r.cost.samples, r.cost.reads, r.cost.writes), ..d6 };
    let d8 = Draft { state: Some(r.state@), ..d7 };
    assert(read_lines(lines, 0) == Ok::<Draft, (nat, Seq<char>)>(d0));
    lemma_read_header(d0, 1);
    lemma_read_lines_step(lines, 1, d0, words(ls[0]), d1);
    lemma_read_model(d1, r.model, 2);
    lemma_read_lines_step(lines, 2, d1, words(ls[1]), d2);
    lemma_read_method(d2, r.method@, 3);
    lemma_read_lines_step(lines, 3, d2, words(ls[2]), d3);
    lemma_read_seed(d3, r.seed, 4);
    lemma_read_lines_step(lines, 4, d3, words(ls[3]), d4);
    lemma_read_energy(d4, r.energy@, 5);
    lemma_read_lines_step(lines, 5, d4, words(ls[4]), d5);
    match r.bound {
        Some(b) => {
            lemma_read_bound(d5, b@, 6);
            lemma_read_lines_step(lines, 6, d5, words(ls[5]), d6);
        },
        None => {
            assert(d6 == d5);
        },
    }
    lemma_read_cost(d6, r.cost.samples, r.cost.reads, r.cost.writes, (6 + e) as nat);
    lemma_read_lines_step(lines, 6 + e, d6, words(ls[5 + e]), d7);
    lemma_read_state(d7, r.state@, (7 + e) as nat);
    lemma_read_lines_step(lines, 7 + e, d7, words(ls[6 + e]), d8);
    assert(lines[7 + e] == Seq::<char>::empty());
    assert(words(lines[7 + e]) =~= Seq::<Seq<char>>::empty());
    lemma_read_lines_step(lines, 8 + e, d8, words(lines[7 + e]), d8);
    assert(lines.len() == 8 + e);
    assert(d8 == draft_of(r));
}

} // verus!
