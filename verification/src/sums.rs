//! Sums over the coalitions of a game, and how they may be rearranged.

use crate::utils::{bit, has_bit, lemma_bit_doubles, lemma_bit_layout, MAX_BITS};
use vstd::prelude::*;

verus! {

/// The sum of `f` over the first `m` whole numbers.
pub open spec fn sum_over(f: spec_fn(int) -> int, m: int) -> int
    decreases m,
{
    if m <= 0 {
        0
    } else {
        sum_over(f, m - 1) + f(m - 1)
    }
}

/// Two functions that agree on the first `m` numbers have the same sum
/// there.
pub proof fn lemma_sum_same(f: spec_fn(int) -> int, g: spec_fn(int) -> int, m: int)
    requires
        forall|c: int| 0 <= c < m ==> #[trigger] f(c) == g(c),
    ensures
        sum_over(f, m) == sum_over(g, m),
    decreases m,
{
    if m > 0 {
        lemma_sum_same(f, g, m - 1);
    }
}

/// The sum of a difference is the difference of the sums.
pub proof fn lemma_sum_difference(
    h: spec_fn(int) -> int,
    f: spec_fn(int) -> int,
    g: spec_fn(int) -> int,
    m: int,
)
    requires
        forall|c: int| 0 <= c < m ==> #[trigger] h(c) == f(c) - g(c),
    ensures
        sum_over(h, m) == sum_over(f, m) - sum_over(g, m),
    decreases m,
{
    if m > 0 {
        lemma_sum_difference(h, f, g, m - 1);
    }
}

/// The sum of a sum is the sum of the sums.
pub proof fn lemma_sum_sum(
    h: spec_fn(int) -> int,
    f: spec_fn(int) -> int,
    g: spec_fn(int) -> int,
    m: int,
)
    requires
        forall|c: int| 0 <= c < m ==> #[trigger] h(c) == f(c) + g(c),
    ensures
        sum_over(h, m) == sum_over(f, m) + sum_over(g, m),
    decreases m,
{
    if m > 0 {
        lemma_sum_sum(h, f, g, m - 1);
    }
}

/// A sum over `a + b` numbers is the sum over the first `a` and the sum
/// over the `b` that follow.
pub proof fn lemma_sum_split(f: spec_fn(int) -> int, g: spec_fn(int) -> int, a: int, b: int)
    requires
        0 <= a,
        0 <= b,
        forall|c: int| 0 <= c < b ==> #[trigger] g(c) == f(a + c),
    ensures
        sum_over(f, a + b) == sum_over(f, a) + sum_over(g, b),
    decreases b,
{
    if b > 0 {
        lemma_sum_split(f, g, a, b - 1);
        assert(g(b - 1) == f(a + (b - 1)));
    }
}

/// A function that is zero on the first `m` numbers but for `at` sums to
/// its value there.
pub proof fn lemma_sum_single(f: spec_fn(int) -> int, at: int, m: int)
    requires
        forall|c: int| 0 <= c < m && c != at ==> #[trigger] f(c) == 0,
    ensures
        sum_over(f, m) == if 0 <= at < m {
            f(at)
        } else {
            0
        },
    decreases m,
{
    if m > 0 {
        lemma_sum_single(f, at, m - 1);
    }
}

/// The sum of a multiple is the multiple of the sum.
pub proof fn lemma_sum_scale(h: spec_fn(int) -> int, f: spec_fn(int) -> int, a: int, m: int)
    requires
        forall|c: int| 0 <= c < m ==> #[trigger] h(c) == a * f(c),
    ensures
        sum_over(h, m) == a * sum_over(f, m),
    decreases m,
{
    if m > 0 {
        lemma_sum_scale(h, f, a, m - 1);
        assert(a * (sum_over(f, m - 1) + f(m - 1)) == a * sum_over(f, m - 1) + a * f(m - 1))
            by (nonlinear_arith);
    } else {
        assert(a * 0 == 0);
    }
}

/// A sum does not change when two of its terms change places.
pub proof fn lemma_sum_swapped(f: spec_fn(int) -> int, g: spec_fn(int) -> int, a: int, b: int, m: int)
    requires
        0 <= a < m,
        0 <= b < m,
        a != b,
        g(a) == f(b),
        g(b) == f(a),
        forall|c: int| 0 <= c < m && c != a && c != b ==> #[trigger] g(c) == f(c),
    ensures
        sum_over(g, m) == sum_over(f, m),
{
    let rest = |c: int|
        if c == a || c == b {
            0
        } else {
            f(c)
        };
    let f_first = |c: int|
        if c == a {
            f(a)
        } else {
            0
        };
    let f_second = |c: int|
        if c == b {
            f(b)
        } else {
            0
        };
    let g_first = |c: int|
        if c == a {
            f(b)
        } else {
            0
        };
    let g_second = |c: int|
        if c == b {
            f(a)
        } else {
            0
        };
    let f_most = |c: int| rest(c) + f_first(c);
    let g_most = |c: int| rest(c) + g_first(c);
    lemma_sum_sum(f_most, rest, f_first, m);
    lemma_sum_sum(g_most, rest, g_first, m);
    assert forall|c: int| 0 <= c < m implies #[trigger] f(c) == f_most(c) + f_second(c) by {}
    assert forall|c: int| 0 <= c < m implies #[trigger] g(c) == g_most(c) + g_second(c) by {}
    lemma_sum_sum(f, f_most, f_second, m);
    lemma_sum_sum(g, g_most, g_second, m);
    lemma_sum_single(f_first, a, m);
    lemma_sum_single(f_second, b, m);
    lemma_sum_single(g_first, a, m);
    lemma_sum_single(g_second, b, m);
}

/// What `g` is worth at the coalition without operator `k`, for the
/// coalitions that hold the operator; zero for the others.
pub open spec fn from_without(g: spec_fn(int) -> int, k: usize) -> spec_fn(int) -> int {
    |c: int|
        if has_bit(c as usize, k) {
            g(c - bit(k))
        } else {
            0
        }
}

/// What `g` is worth at the coalitions that do not hold operator `k`; zero
/// for the others.
pub open spec fn at_without(g: spec_fn(int) -> int, k: usize) -> spec_fn(int) -> int {
    |c: int|
        if has_bit(c as usize, k) {
            0
        } else {
            g(c)
        }
}

/// Summing over the coalitions that hold operator `k` what their parts
/// without the operator are worth is summing over the coalitions that do
/// not hold it: taking the operator out matches the two one to one.
pub proof fn lemma_reindex(g: spec_fn(int) -> int, k: usize, n: usize)
    requires
        k < n <= MAX_BITS,
    ensures
        sum_over(from_without(g, k), bit(n) as int) == sum_over(at_without(g, k), bit(n) as int),
    decreases n,
{
    let top = (n - 1) as usize;
    let half = bit(top) as int;
    lemma_bit_doubles(top);
    let upper = |c: int| g(half + c);
    let left_shifted = |c: int| from_without(g, k)(half + c);
    let right_shifted = |c: int| at_without(g, k)(half + c);
    lemma_sum_split(from_without(g, k), left_shifted, half, half);
    lemma_sum_split(at_without(g, k), right_shifted, half, half);
    if k == top {
        assert forall|c: int| 0 <= c < half implies #[trigger] from_without(g, k)(c) == 0 by {
            lemma_bit_layout(c as usize, k, n);
        }
        assert forall|c: int| 0 <= c < half implies #[trigger] left_shifted(c) == g(c) by {
            lemma_bit_layout(c as usize, k, n);
        }
        assert forall|c: int| 0 <= c < half implies #[trigger] at_without(g, k)(c) == g(c) by {
            lemma_bit_layout(c as usize, k, n);
        }
        assert forall|c: int| 0 <= c < half implies #[trigger] right_shifted(c) == 0 by {
            lemma_bit_layout(c as usize, k, n);
        }
        lemma_sum_single(from_without(g, k), -1, half);
        lemma_sum_single(right_shifted, -1, half);
        lemma_sum_same(left_shifted, g, half);
        lemma_sum_same(at_without(g, k), g, half);
    } else {
        lemma_reindex(g, k, top);
        lemma_reindex(upper, k, top);
        assert forall|c: int| 0 <= c < half implies #[trigger] left_shifted(c) == from_without(
            upper,
            k,
        )(c) by {
            lemma_bit_layout(c as usize, k, n);
        }
        assert forall|c: int| 0 <= c < half implies #[trigger] right_shifted(c) == at_without(
            upper,
            k,
        )(c) by {
            lemma_bit_layout(c as usize, k, n);
        }
        lemma_sum_same(left_shifted, from_without(upper, k), half);
        lemma_sum_same(right_shifted, at_without(upper, k), half);
    }
}

} // verus!
