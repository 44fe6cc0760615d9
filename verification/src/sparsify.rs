//! Degree-bounded sparsification: how many copies a high-degree variable is split into so that a
//! path of copies fits a degree budget.

use vstd::prelude::*;
use vstd::string::StringExecFns;
use crate::text::{decimal_chars, push_decimal};

verus! {

/// Why a model could not be sparsified to a budget.
#[derive(Clone, Copy, Debug, PartialEq, Eq)]
pub enum Refused {
    /// A budget of two or less: a path of any length offers only two ports, so no number of copies
    /// makes a variable of degree three fit. The bound divides by `d - 2` and this is that.
    BudgetTooSmall { budget: usize },
}

/// What a refusal says.
pub open spec fn refused_text(e: Refused) -> Seq<char> {
    match e {
        Refused::BudgetTooSmall { budget } => "a degree budget of "@ + decimal_chars(budget as nat)
            + " cannot be met by splitting: a path of copies spends one coupling at each end and two in the middle, so it offers c(d-2)+2 ports and that is not increasing in c below d = 3. Raise the budget to at least 3"@,
    }
}

impl Refused {
    /// The refusal in words, with the arithmetic that forces it.
    pub fn message(&self) -> (m: String)
        ensures
            m@ == refused_text(*self),
    {
        match self {
            Refused::BudgetTooSmall { budget } => {
                let mut m = String::from_str("a degree budget of ");
                push_decimal(&mut m, *budget);
                m.append(
                    " cannot be met by splitting: a path of copies spends one coupling at each end and two in the middle, so it offers c(d-2)+2 ports and that is not increasing in c below d = 3. Raise the budget to at least 3",
                );
                m
            },
        }
    }
}

/// `ceil(a / b)` for `b > 0`.
pub open spec fn ceil_div(a: int, b: int) -> int {
    if a % b == 0 {
        a / b
    } else {
        a / b + 1
    }
}

/// Ports a path of `c` copies offers at degree budget `d`: one coupling spent at each end of the
/// path and two in the middle, so `c(d - 2) + 2`; a single copy offers the whole budget.
pub open spec fn capacity(c: int, d: int) -> int {
    if c <= 1 {
        d
    } else {
        c * (d - 2) + 2
    }
}

/// The copy count for degree `k` at budget `d`, as [`copies_for`] computes it.
pub open spec fn copies_for_spec(k: int, d: int) -> int {
    if d < 3 {
        1
    } else if k <= d {
        1
    } else {
        let c = ceil_div(k - 2, d - 2);
        if c >= 2 {
            c
        } else {
            2
        }
    }
}

/// Copies a variable of degree `k` needs to fit a degree budget of `d`.
///
/// One when it already fits. Otherwise the smallest `c` with `c(d-2) + 2 >= k`, which is the port
/// count of a path of `c` copies. A budget below three is meaningless and answers one; callers are
/// refused before reaching here.
pub fn copies_for(k: usize, d: usize) -> (c: usize)
    ensures
        c == copies_for_spec(k as int, d as int),
{
    if d < 3 {
        return 1;
    }
    if k <= d {
        1
    } else {
        let num = k - 2;
        let den = d - 2;
        let q = if num % den == 0 {
            num / den
        } else {
            num / den + 1
        };
        if q >= 2 {
            q
        } else {
            2
        }
    }
}

/// The copy count is sufficient and minimal, for every degree and every budget of at least three:
/// a path of `copies_for(k, d)` copies offers at least `k` ports, and one copy fewer would not.
pub proof fn lemma_copies_for_sufficient_and_minimal(k: int, d: int)
    requires
        d >= 3,
        k >= 1,
    ensures
        capacity(copies_for_spec(k, d), d) >= k,
        copies_for_spec(k, d) > 1 ==> capacity(copies_for_spec(k, d) - 1, d) < k,
{
    if k > d {
        lemma_ceiling_exceeds_one_past_budget(k, d);
        let c = ceil_div(k - 2, d - 2);
        let a = k - 2;
        let b = d - 2;
        assert(b * (a / b) + a % b == a) by (nonlinear_arith)
            requires
                b > 0,
        ;
        assert(0 <= a % b < b) by (nonlinear_arith)
            requires
                b > 0,
        ;
        assert(c * b >= a) by (nonlinear_arith)
            requires
                b > 0,
                b * (a / b) + a % b == a,
                0 <= a % b < b,
                c == (if a % b == 0 { a / b } else { a / b + 1 }),
        ;
        assert((c - 1) * b < a) by (nonlinear_arith)
            requires
                b > 0,
                b * (a / b) + a % b == a,
                0 <= a % b < b,
                c == (if a % b == 0 { a / b } else { a / b + 1 }),
        ;
        if c - 1 <= 1 {
            assert(c == 2);
            assert(b < a);
        }
    }
}

/// Past the budget the ceiling already reaches two, so the floor of two in [`copies_for`] never
/// changes its answer there.
pub proof fn lemma_ceiling_exceeds_one_past_budget(k: int, d: int)
    requires
        d >= 3,
        k > d,
    ensures
        ceil_div(k - 2, d - 2) >= 2,
        copies_for_spec(k, d) == ceil_div(k - 2, d - 2),
{
    let a = k - 2;
    let b = d - 2;
    assert(a / b >= 1) by (nonlinear_arith)
        requires
            a >= b,
            b > 0,
    ;
    if a / b == 1 {
        assert(a % b != 0) by (nonlinear_arith)
            requires
                a > b,
                b > 0,
                a / b == 1,
        ;
    }
}

} // verus!
