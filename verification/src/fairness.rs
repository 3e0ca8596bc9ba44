//! What makes the attribution fair: what holds of the expected values and
//! of the Shapley values whatever the coalitions are worth.
//!
//! All of them speak of the exact numbers, before anything is rounded:
//! operator `k` has the Shapley value
//! `shapley_numerator(e, n, k) / (n! * denominator)`.

use crate::amount::Amount;
use crate::shapley::{
    expected, gcd, lemma_nearest_even_scales, lemma_positive_total_nonnegative, marginal,
    nearest_even, percent_units, rounded,
    positive_part, positive_total, shapley_numerator, shapley_sum, up_share, valid_uptime,
    value_units, weight, whole_share,
};
use crate::sums::{
    at_without, from_without, lemma_reindex, lemma_sum_difference, lemma_sum_single, lemma_sum_sum,
    sum_over,
};
use crate::utils::{
    bit, coalition_size, factorial_of, has_bit, lemma_coalition_size_bound, lemma_empty_and_grand,
    lemma_extreme_sizes, lemma_factorial_positive, lemma_member_index, lemma_size_without,
    lemma_without, MAX_BITS,
};
use vstd::arithmetic::div_mod::{
    lemma_div_by_self, lemma_div_multiples_vanish_quotient, lemma_fundamental_div_mod,
    lemma_fundamental_div_mod_converse, lemma_mod_pos_bound, lemma_truncate_middle,
};
use vstd::arithmetic::power::{lemma_pow_positive, pow};
use vstd::prelude::*;

verus! {

/// Operator `k` is a null operator of the values `v`: no coalition is
/// worth more or less for holding it.
pub open spec fn is_null_operator(v: Seq<int>, k: usize) -> bool {
    forall|c: usize|
        c < v.len() && has_bit(c, k) ==> #[trigger] v[c as int] == v[(c - bit(k)) as int]
}

/// A null operator of the values is a null operator of the expected
/// values: whatever the uptime, its being up or down changes nothing.
pub proof fn lemma_null_operator_expected(v: Seq<int>, up: int, down: int, k: usize, b: int, i: usize)
    requires
        k <= MAX_BITS,
        0 <= b <= MAX_BITS + 1,
        is_null_operator(v, k),
        i < v.len(),
        has_bit(i, k),
    ensures
        expected(v, up, down, b, i) == expected(v, up, down, b, (i - bit(k)) as usize),
    decreases b,
{
    lemma_member_index(i, k);
    if b <= 0 {
        assert(v[i as int] == v[(i - bit(k)) as int]);
    } else {
        let top = (b - 1) as usize;
        let lower = (i - bit(k)) as usize;
        if top == k {
            lemma_null_operator_expected(v, up, down, k, b - 1, i);
            let x = expected(v, up, down, b - 1, lower);
            assert(up * x + down * x == (up + down) * x) by (nonlinear_arith);
        } else {
            lemma_without(i, k, top);
            lemma_null_operator_expected(v, up, down, k, b - 1, i);
            if has_bit(i, top) {
                let other = (i - bit(top)) as usize;
                lemma_null_operator_expected(v, up, down, k, b - 1, other);
                assert((other - bit(k)) as usize == (lower - bit(top)) as usize);
            }
        }
    }
}

/// The expected values `e` of the values `v` of `n` operators.
pub open spec fn is_expectation(e: Seq<int>, v: Seq<int>, up: int, down: int, n: int) -> bool {
    &&& e.len() == v.len()
    &&& forall|i: int| 0 <= i < e.len() ==> #[trigger] e[i] == expected(v, up, down, n, i as usize)
}

/// A null operator has the Shapley value zero, whatever the uptime: where
/// no coalition is worth more or less for holding operator `k`, the
/// operator is owed nothing.
pub proof fn lemma_null_operator(
    e: Seq<int>,
    denominator: int,
    v: Seq<int>,
    up: int,
    down: int,
    n: int,
    k: usize,
)
    requires
        0 <= n <= MAX_BITS,
        k < n,
        0 < denominator,
        v.len() == bit(n as usize),
        is_expectation(e, v, up, down, n),
        is_null_operator(v, k),
    ensures
        shapley_numerator(e, n, k) == 0,
        value_units(e, denominator, n, k) == 0,
        percent_units(e, n, k) == 0,
{
    lemma_null_sum(e, v, up, down, n, k, bit(n as usize) as int);
    assert(positive_part(shapley_numerator(e, n, k)) == 0);
    lemma_factorial_positive(n);
    let divisor = denominator * factorial_of(n);
    assert(divisor > 0) by (nonlinear_arith)
        requires
            divisor == denominator * factorial_of(n),
            denominator > 0,
            factorial_of(n) >= 1,
    ;
    lemma_fundamental_div_mod_converse(0, divisor, 0, 0);
    assert(nearest_even(0, divisor) == 0);
    let t = positive_total(e, n, n);
    if t > 0 {
        lemma_fundamental_div_mod_converse(0, t, 0, 0);
        assert(nearest_even(0, t) == 0);
    }
}

/// A table of values is the table of its own expected values where every
/// operator is always up.
pub proof fn lemma_table_is_expectation(e: Seq<int>, n: int)
    requires
        0 <= n,
        e.len() <= usize::MAX,
    ensures
        is_expectation(e, e, 1, 0, n),
{
    lemma_one_to_any_power(n);
    assert forall|i: int| 0 <= i < e.len() implies #[trigger] e[i] == expected(
        e,
        1,
        0,
        n,
        i as usize,
    ) by {
        lemma_always_up(e, 1, n, i as usize);
    }
}

/// A null operator of the table from which the Shapley values are taken
/// has the value zero and the share zero.
pub proof fn lemma_null_operator_of_table(e: Seq<int>, denominator: int, n: int, k: usize)
    requires
        0 <= n <= MAX_BITS,
        k < n,
        0 < denominator,
        e.len() == bit(n as usize),
        is_null_operator(e, k),
    ensures
        shapley_numerator(e, n, k) == 0,
        value_units(e, denominator, n, k) == 0,
        percent_units(e, n, k) == 0,
{
    lemma_table_is_expectation(e, n);
    lemma_null_operator(e, denominator, e, 1, 0, n, k);
}

proof fn lemma_null_sum(e: Seq<int>, v: Seq<int>, up: int, down: int, n: int, k: usize, m: int)
    requires
        0 <= n <= MAX_BITS,
        k < n,
        0 <= m <= v.len(),
        v.len() <= usize::MAX,
        is_expectation(e, v, up, down, n),
        is_null_operator(v, k),
    ensures
        shapley_sum(e, n, k, m) == 0,
    decreases m,
{
    if m > 0 {
        lemma_null_sum(e, v, up, down, n, k, m - 1);
        let c = (m - 1) as usize;
        if has_bit(c, k) {
            lemma_member_index(c, k);
            lemma_null_operator_expected(v, up, down, k, n, c);
            assert(e[c as int] == expected(v, up, down, n, c));
            assert(e[c - bit(k)] == expected(v, up, down, n, (c - bit(k)) as usize));
            let w = weight(n, coalition_size(c, n));
            assert(w * 0 == 0);
        }
    }
}

/// With operators that are always up the expected value of a coalition is
/// its value: only the scale changes, by `up` for each operator.
pub proof fn lemma_always_up(v: Seq<int>, up: int, b: int, i: usize)
    requires
        0 <= b,
    ensures
        expected(v, up, 0, b, i) == pow(up, b as nat) * v[i as int],
    decreases b,
{
    if b > 0 {
        lemma_always_up(v, up, b - 1, i);
        let x = pow(up, (b - 1) as nat);
        let y = v[i as int];
        assert(pow(up, b as nat) == up * x) by {
            reveal(pow);
        }
        if has_bit(i, (b - 1) as usize) {
            let z = expected(v, up, 0, b - 1, (i - bit((b - 1) as usize)) as usize);
            assert(up * (x * y) + 0 * z == (up * x) * y) by (nonlinear_arith);
        } else {
            assert((up + 0) * (x * y) == (up * x) * y) by (nonlinear_arith);
        }
    } else {
        assert(pow(up, 0) == 1) by {
            reveal(pow);
        }
    }
}

/// An operator uptime of one, however it is written, is one in one in
/// lowest terms, and leaves every coalition its value: the expected values
/// are the values.
pub proof fn lemma_full_uptime(v: Seq<int>, uptime: Amount, n: int, i: usize)
    requires
        0 <= n,
        0 <= uptime.places(),
        uptime.units() == pow(10, uptime.places() as nat),
    ensures
        valid_uptime(uptime),
        up_share(uptime) == 1,
        whole_share(uptime) == 1,
        pow(whole_share(uptime), n as nat) == 1,
        expected(v, up_share(uptime), whole_share(uptime) - up_share(uptime), n, i) == v[i as int],
{
    let q = pow(10, uptime.places() as nat);
    lemma_pow_positive(10, uptime.places() as nat);
    lemma_gcd_same(q);
    lemma_div_by_self(q);
    lemma_always_up(v, 1, n, i);
    lemma_one_to_any_power(n);
}

/// The greatest common divisor of a positive number and itself is the
/// number.
pub proof fn lemma_gcd_same(a: int)
    requires
        a > 0,
    ensures
        gcd(a, a) == a,
{
    vstd::arithmetic::div_mod::lemma_mod_self_0(a);
    assert(gcd(a, a) == gcd(a, a % a));
    assert(gcd(a, 0) == a);
}

/// One to any power is one.
pub proof fn lemma_one_to_any_power(n: int)
    requires
        0 <= n,
    ensures
        pow(1, n as nat) == 1,
    decreases n,
{
    reveal(pow);
    if n > 0 {
        lemma_one_to_any_power(n - 1);
    }
}

/// The sum of the shares of the first `j` operators, in units of `0.0001`.
pub open spec fn percent_total(e: Seq<int>, n: int, j: int) -> int
    decreases j,
{
    if j <= 0 {
        0
    } else {
        percent_total(e, n, j - 1) + percent_units(e, n, (j - 1) as usize)
    }
}

/// A rounded fraction is at most half a unit off: twice the difference of
/// `nearest_even(num, den) * den` and `num` is at most `den`, and there is
/// no difference where `den` divides `num`.
pub proof fn lemma_rounding_error(num: int, den: int)
    requires
        0 <= num,
        0 < den,
    ensures
        -den <= 2 * (nearest_even(num, den) * den - num) <= den,
        num % den == 0 ==> nearest_even(num, den) * den == num,
{
    lemma_fundamental_div_mod(num, den);
    lemma_mod_pos_bound(num, den);
    let q = num / den;
    let r = num % den;
    assert(q * den == den * q) by (nonlinear_arith);
    assert((q + 1) * den == den * q + den) by (nonlinear_arith);
}

/// Where some operator has a positive Shapley value, the shares of the
/// first `j` operators differ from their exact sum by at most half a unit
/// of `0.0001` each.
pub proof fn lemma_percent_total_error(e: Seq<int>, n: int, j: int)
    requires
        0 <= j,
        positive_total(e, n, n) > 0,
    ensures
        -j * positive_total(e, n, n) <= 2 * (percent_total(e, n, j) * positive_total(e, n, n)
            - 10000 * positive_total(e, n, j)) <= j * positive_total(e, n, n),
    decreases j,
{
    let t = positive_total(e, n, n);
    if j > 0 {
        lemma_percent_total_error(e, n, j - 1);
        let gain = positive_part(shapley_numerator(e, n, (j - 1) as usize));
        assert(0 <= 10000 * gain) by (nonlinear_arith)
            requires
                0 <= gain,
        ;
        lemma_rounding_error(10000 * gain, t);
        let p = percent_units(e, n, (j - 1) as usize);
        let before = percent_total(e, n, j - 1);
        let sum = positive_total(e, n, j - 1);
        assert((before + p) * t - 10000 * (sum + gain) == (before * t - 10000 * sum) + (p * t
            - 10000 * gain)) by (nonlinear_arith);
        assert(j * t == (j - 1) * t + t) by (nonlinear_arith);
        assert(-j * t == -(j - 1) * t - t) by (nonlinear_arith);
    } else {
        assert(0 * t == 0);
    }
}

/// Where some operator has a positive Shapley value, the shares sum to one
/// up to half a unit of `0.0001` for each operator: twice the difference
/// of their sum and `10000` units is at most the number of operators.
pub proof fn lemma_percent_sum(e: Seq<int>, n: int)
    requires
        0 <= n,
        positive_total(e, n, n) > 0,
    ensures
        -n <= 2 * (percent_total(e, n, n) - 10000) <= n,
{
    let t = positive_total(e, n, n);
    let s = percent_total(e, n, n);
    lemma_percent_total_error(e, n, n);
    assert(s * t - 10000 * t == (s - 10000) * t) by (nonlinear_arith);
    assert(-n <= 2 * (s - 10000) <= n) by (nonlinear_arith)
        requires
            -n * t <= 2 * ((s - 10000) * t) <= n * t,
            t > 0,
    ;
}

/// Every share of the first `j` operators is a whole number of units of
/// `0.0001`.
pub open spec fn shares_are_whole(e: Seq<int>, n: int, j: int) -> bool {
    forall|k: int|
        0 <= k < j ==> (10000 * positive_part(#[trigger] shapley_numerator(e, n, k as usize)))
            % positive_total(e, n, n) == 0
}

/// Where some operator has a positive Shapley value and no share needs
/// rounding, the shares of the first `j` operators are exact.
pub proof fn lemma_percent_total_exact(e: Seq<int>, n: int, j: int)
    requires
        0 <= j,
        positive_total(e, n, n) > 0,
        shares_are_whole(e, n, j),
    ensures
        percent_total(e, n, j) * positive_total(e, n, n) == 10000 * positive_total(e, n, j),
    decreases j,
{
    let t = positive_total(e, n, n);
    if j > 0 {
        assert(shares_are_whole(e, n, j - 1));
        lemma_percent_total_exact(e, n, j - 1);
        let numerator = shapley_numerator(e, n, (j - 1) as usize);
        let gain = positive_part(numerator);
        assert((10000 * gain) % t == 0);
        assert(0 <= 10000 * gain) by (nonlinear_arith)
            requires
                0 <= gain,
        ;
        lemma_rounding_error(10000 * gain, t);
        let p = percent_units(e, n, (j - 1) as usize);
        let before = percent_total(e, n, j - 1);
        let sum = positive_total(e, n, j - 1);
        assert((before + p) * t == before * t + p * t) by (nonlinear_arith);
        assert(10000 * (sum + gain) == 10000 * sum + 10000 * gain) by (nonlinear_arith);
    } else {
        assert(0 * t == 0);
    }
}

/// Where some operator has a positive Shapley value and no share needs
/// rounding, the shares sum to exactly one: `10000` units of `0.0001`.
pub proof fn lemma_percent_sum_exact(e: Seq<int>, n: int)
    requires
        0 <= n,
        positive_total(e, n, n) > 0,
        shares_are_whole(e, n, n),
    ensures
        percent_total(e, n, n) == 10000,
{
    let t = positive_total(e, n, n);
    let s = percent_total(e, n, n);
    lemma_percent_total_exact(e, n, n);
    assert(s == 10000) by (nonlinear_arith)
        requires
            s * t == 10000 * t,
            t > 0,
    ;
}

/// Where no operator has a positive Shapley value, every share is zero.
pub proof fn lemma_percent_all_zero(e: Seq<int>, n: int, k: usize)
    requires
        positive_total(e, n, n) <= 0,
    ensures
        percent_units(e, n, k) == 0,
{
}

/// The values `v`, each multiplied by `m`.
pub open spec fn scaled(v: Seq<int>, m: int) -> Seq<int> {
    Seq::new(v.len(), |i: int| m * v[i])
}

/// Expected values are linear in the values: where every coalition is
/// worth `m` times as much, so is every expected value.
pub proof fn lemma_expected_scales(v: Seq<int>, m: int, up: int, down: int, n: int, b: int, i: usize)
    requires
        0 <= n <= MAX_BITS,
        0 <= b <= n,
        v.len() == bit(n as usize),
        i < v.len(),
    ensures
        expected(scaled(v, m), up, down, b, i) == m * expected(v, up, down, b, i),
    decreases b,
{
    if b > 0 {
        let top = (b - 1) as usize;
        lemma_expected_scales(v, m, up, down, n, b - 1, i);
        let x = expected(v, up, down, b - 1, i);
        if has_bit(i, top) {
            lemma_member_index(i, top);
            let other = (i - bit(top)) as usize;
            lemma_expected_scales(v, m, up, down, n, b - 1, other);
            let y = expected(v, up, down, b - 1, other);
            assert(up * (m * x) + down * (m * y) == m * (up * x + down * y)) by (nonlinear_arith);
        } else {
            assert((up + down) * (m * x) == m * ((up + down) * x)) by (nonlinear_arith);
        }
    }
}

/// Shapley values are linear in the values: where every coalition is worth
/// `m` times as much, every operator is owed `m` times as much.
pub proof fn lemma_shapley_scales(e: Seq<int>, m: int, n: int, k: usize)
    requires
        0 <= n <= MAX_BITS,
        k < n,
        e.len() == bit(n as usize),
    ensures
        shapley_numerator(scaled(e, m), n, k) == m * shapley_numerator(e, n, k),
{
    lemma_shapley_sum_scales(e, m, n, k, bit(n as usize) as int);
}

proof fn lemma_shapley_sum_scales(e: Seq<int>, m: int, n: int, k: usize, l: int)
    requires
        0 <= n <= MAX_BITS,
        k < n,
        0 <= l <= e.len(),
        e.len() <= usize::MAX,
    ensures
        shapley_sum(scaled(e, m), n, k, l) == m * shapley_sum(e, n, k, l),
    decreases l,
{
    if l > 0 {
        lemma_shapley_sum_scales(e, m, n, k, l - 1);
        let c = (l - 1) as usize;
        let before = shapley_sum(e, n, k, l - 1);
        if has_bit(c, k) {
            lemma_member_index(c, k);
            let w = weight(n, coalition_size(c, n));
            let x = e[c as int];
            let y = e[c - bit(k)];
            assert(m * before + w * (m * x - m * y) == m * (before + w * (x - y)))
                by (nonlinear_arith);
        } else {
            assert(m * before + 0 == m * (before + 0)) by (nonlinear_arith);
        }
    } else {
        assert(m * 0 == 0);
    }
}

/// The sum of the positive Shapley values is linear in the values, for a
/// positive factor.
pub proof fn lemma_positive_total_scales(e: Seq<int>, m: int, n: int, j: int)
    requires
        0 <= n <= MAX_BITS,
        0 <= j <= n,
        0 < m,
        e.len() == bit(n as usize),
    ensures
        positive_total(scaled(e, m), n, j) == m * positive_total(e, n, j),
    decreases j,
{
    if j > 0 {
        lemma_positive_total_scales(e, m, n, j - 1);
        lemma_shapley_scales(e, m, n, (j - 1) as usize);
        let x = shapley_numerator(e, n, (j - 1) as usize);
        let before = positive_total(e, n, j - 1);
        assert(m * x > 0 <==> x > 0) by (nonlinear_arith)
            requires
                0 < m,
        ;
        assert(m * before + m * positive_part(x) == m * (before + positive_part(x)))
            by (nonlinear_arith);
        assert(m * 0 == 0);
    } else {
        assert(m * 0 == 0);
    }
}

/// The shares do not depend on the scale of the values: where every
/// coalition is worth `m > 0` times as much, every operator keeps its
/// share.
pub proof fn lemma_percent_keeps(e: Seq<int>, m: int, n: int, k: usize)
    requires
        0 <= n <= MAX_BITS,
        k < n,
        0 < m,
        e.len() == bit(n as usize),
    ensures
        percent_units(scaled(e, m), n, k) == percent_units(e, n, k),
{
    lemma_positive_total_scales(e, m, n, n);
    lemma_shapley_scales(e, m, n, k);
    lemma_positive_total_nonnegative(e, n, n);
    let t = positive_total(e, n, n);
    let x = shapley_numerator(e, n, k);
    let gain = positive_part(x);
    assert(m * x > 0 <==> x > 0) by (nonlinear_arith)
        requires
            0 < m,
    ;
    assert(positive_part(m * x) == m * gain) by {
        assert(m * 0 == 0);
    }
    assert(m * t > 0 <==> t > 0) by (nonlinear_arith)
        requires
            0 < m,
    ;
    if t > 0 {
        assert(0 <= 10000 * gain) by (nonlinear_arith)
            requires
                0 <= gain,
        ;
        lemma_nearest_even_scales(10000 * gain, t, m);
        assert(10000 * (m * gain) == m * (10000 * gain)) by (nonlinear_arith);
        assert(0 <= 10000 * (m * gain)) by (nonlinear_arith)
            requires
                0 <= gain,
                0 < m,
        ;
    }
}

/// What the value of coalition `x` counts for in the Shapley value of
/// operator `k`, times `n!`: with the coalition's weight where it holds
/// the operator, and against it with the weight of the coalition joined by
/// the operator where it does not.
pub open spec fn stake(e: Seq<int>, n: int, k: int, x: int) -> int {
    if has_bit(x as usize, k as usize) {
        weight(n, coalition_size(x as usize, n)) * e[x]
    } else {
        -(weight(n, coalition_size(x as usize, n) + 1) * e[x])
    }
}

/// The Shapley value of an operator is the sum of the stakes of all
/// coalitions in it.
pub proof fn lemma_shapley_by_stakes(e: Seq<int>, n: int, k: usize)
    requires
        0 <= n <= MAX_BITS,
        k < n,
        e.len() == bit(n as usize),
    ensures
        shapley_numerator(e, n, k) == sum_over(|x: int| stake(e, n, k as int, x), bit(n as usize) as int),
{
    let m = bit(n as usize) as int;
    let term = |c: int| marginal(e, n, k, c as usize);
    let with = |c: int|
        if has_bit(c as usize, k) {
            weight(n, coalition_size(c as usize, n)) * e[c]
        } else {
            0
        };
    let worth = |x: int| weight(n, coalition_size(x as usize, n) + 1) * e[x];
    let stakes = |x: int| stake(e, n, k as int, x);
    lemma_shapley_is_sum(e, n, k, m);
    assert forall|c: int| 0 <= c < m implies #[trigger] term(c) == with(c) - from_without(
        worth,
        k,
    )(c) by {
        if has_bit(c as usize, k) {
            lemma_size_without(c as usize, k, n);
            lemma_member_index(c as usize, k);
            let w = weight(n, coalition_size(c as usize, n));
            let a = e[c];
            let b = e[c - bit(k)];
            assert(w * (a - b) == w * a - w * b) by (nonlinear_arith);
        }
    }
    lemma_sum_difference(term, with, from_without(worth, k), m);
    lemma_reindex(worth, k, n as usize);
    assert forall|x: int| 0 <= x < m implies #[trigger] stakes(x) == with(x) - at_without(
        worth,
        k,
    )(x) by {}
    lemma_sum_difference(stakes, with, at_without(worth, k), m);
}

proof fn lemma_shapley_is_sum(e: Seq<int>, n: int, k: usize, m: int)
    requires
        0 <= m,
    ensures
        shapley_sum(e, n, k, m) == sum_over(|c: int| marginal(e, n, k, c as usize), m),
    decreases m,
{
    if m > 0 {
        lemma_shapley_is_sum(e, n, k, m - 1);
    }
}

/// The sum of the Shapley numerators of the first `j` operators.
pub open spec fn shapley_total(e: Seq<int>, n: int, j: int) -> int
    decreases j,
{
    if j <= 0 {
        0
    } else {
        shapley_total(e, n, j - 1) + shapley_numerator(e, n, (j - 1) as usize)
    }
}

/// The sum of the stakes of coalition `x` in the first `j` operators.
pub open spec fn stakes_of(e: Seq<int>, n: int, x: int, j: int) -> int
    decreases j,
{
    if j <= 0 {
        0
    } else {
        stakes_of(e, n, x, j - 1) + stake(e, n, j - 1, x)
    }
}

/// The Shapley values of the first `j` operators sum to the stakes that
/// all coalitions have in them.
pub proof fn lemma_total_by_stakes(e: Seq<int>, n: int, j: int)
    requires
        0 <= j <= n <= MAX_BITS,
        e.len() == bit(n as usize),
    ensures
        shapley_total(e, n, j) == sum_over(|x: int| stakes_of(e, n, x, j), bit(n as usize) as int),
    decreases j,
{
    let m = bit(n as usize) as int;
    if j > 0 {
        lemma_total_by_stakes(e, n, j - 1);
        lemma_shapley_by_stakes(e, n, (j - 1) as usize);
        let all = |x: int| stakes_of(e, n, x, j);
        let before = |x: int| stakes_of(e, n, x, j - 1);
        let last = |x: int| stake(e, n, ((j - 1) as usize) as int, x);
        assert forall|x: int| 0 <= x < m implies #[trigger] all(x) == before(x) + last(x) by {}
        lemma_sum_sum(all, before, last, m);
    } else {
        lemma_sum_single(|x: int| stakes_of(e, n, x, 0), -1, m);
    }
}

/// What a coalition of `s` operators counts for in the sum of all Shapley
/// values, times `n!`: the grand coalition for all, the empty one against
/// all, the others for nothing.
pub open spec fn net_weight(n: int, s: int) -> int {
    s * weight(n, s) - (n - s) * weight(n, s + 1)
}

/// The stakes of a coalition in the first `j` operators: for each operator
/// it holds its weight, against each it does not hold the weight of the
/// coalition joined by that operator.
pub proof fn lemma_stakes_of(e: Seq<int>, n: int, x: int, j: int)
    requires
        0 <= j,
    ensures
        stakes_of(e, n, x, j) == (coalition_size(x as usize, j) * weight(
            n,
            coalition_size(x as usize, n),
        ) - (j - coalition_size(x as usize, j)) * weight(n, coalition_size(x as usize, n) + 1))
            * e[x],
    decreases j,
{
    let w = weight(n, coalition_size(x as usize, n));
    let v = weight(n, coalition_size(x as usize, n) + 1);
    let y = e[x];
    if j > 0 {
        lemma_stakes_of(e, n, x, j - 1);
        let s = coalition_size(x as usize, j - 1);
        if has_bit(x as usize, (j - 1) as usize) {
            assert((s * w - (j - 1 - s) * v) * y + w * y == ((s + 1) * w - (j - (s + 1)) * v) * y)
                by (nonlinear_arith);
        } else {
            assert((s * w - (j - 1 - s) * v) * y + -(v * y) == (s * w - (j - s) * v) * y)
                by (nonlinear_arith);
        }
    } else {
        assert((0 * w - (0 - 0) * v) * y == 0) by (nonlinear_arith);
    }
}

/// Only the empty and the grand coalition count in the sum of all Shapley
/// values.
pub proof fn lemma_net_weight(n: int, s: int)
    requires
        1 <= n,
        0 <= s <= n,
    ensures
        net_weight(n, s) == if s == n {
            factorial_of(n)
        } else if s == 0 {
            -factorial_of(n)
        } else {
            0
        },
{
    let a = factorial_of(s - 1);
    let b = factorial_of(n - s);
    let c = factorial_of(s);
    let d = factorial_of(n - s - 1);
    if s == n {
        assert(factorial_of(0) == 1);
        assert(n * (a * 1) - 0 * weight(n, s + 1) == n * a) by (nonlinear_arith);
    } else if s == 0 {
        assert(factorial_of(0) == 1);
        assert(0 * weight(n, 0) == 0);
        assert(n * (1 * d) == n * d) by (nonlinear_arith);
    } else {
        assert(c == s * a);
        assert(b == (n - s) * d);
        assert(s * (a * ((n - s) * d)) - (n - s) * ((s * a) * d) == 0) by (nonlinear_arith);
    }
}

/// Efficiency: the Shapley values of all operators sum to what the grand
/// coalition is worth more than the empty one. In numerators: their sum
/// is `n!` times the difference of the two values.
pub proof fn lemma_efficiency(e: Seq<int>, n: int)
    requires
        0 <= n <= MAX_BITS,
        e.len() == bit(n as usize),
    ensures
        shapley_total(e, n, n) == factorial_of(n) * (e[bit(n as usize) - 1] - e[0]),
{
    let m = bit(n as usize) as int;
    let f = factorial_of(n);
    if n == 0 {
        assert((1usize << 0usize) == 1) by (bit_vector);
        assert(f * (e[0] - e[0]) == 0) by (nonlinear_arith);
    } else {
        lemma_empty_and_grand(n as usize);
        let all = n as usize;
        assert((1usize << all) >= 2) by (bit_vector)
            requires
                1 <= all <= 31,
        ;
        lemma_total_by_stakes(e, n, n);
        let stakes = |x: int| stakes_of(e, n, x, n);
        let low = |x: int|
            if x == 0 {
                -f * e[0]
            } else {
                0
            };
        let high = |x: int|
            if x == m - 1 {
                f * e[m - 1]
            } else {
                0
            };
        assert forall|x: int| 0 <= x < m implies #[trigger] stakes(x) == low(x) + high(x) by {
            lemma_stakes_of(e, n, x, n);
            lemma_extreme_sizes(x as usize, n);
            lemma_coalition_size_bound(x as usize, n);
            let s = coalition_size(x as usize, n);
            lemma_net_weight(n, s);
            assert(net_weight(n, s) == s * weight(n, s) - (n - s) * weight(n, s + 1));
            if s != 0 && s != n {
                assert(0 * e[x] == 0);
            }
        }
        lemma_sum_sum(stakes, low, high, m);
        lemma_sum_single(low, 0, m);
        lemma_sum_single(high, m - 1, m);
        assert(-f * e[0] + f * e[m - 1] == f * (e[m - 1] - e[0])) by (nonlinear_arith);
    }
}

/// Efficiency with operators that are always up: the Shapley values sum to
/// what the grand coalition is worth more than the empty one.
pub proof fn lemma_efficiency_at_full_uptime(e: Seq<int>, v: Seq<int>, uptime: Amount, n: int)
    requires
        0 <= n <= MAX_BITS,
        0 <= uptime.places(),
        uptime.units() == pow(10, uptime.places() as nat),
        v.len() == bit(n as usize),
        is_expectation(e, v, up_share(uptime), whole_share(uptime) - up_share(uptime), n),
    ensures
        shapley_total(e, n, n) == factorial_of(n) * (v[bit(n as usize) - 1] - v[0]),
{
    assert forall|i: int| 0 <= i < e.len() implies #[trigger] e[i] == v[i] by {
        lemma_full_uptime(v, uptime, n, i as usize);
    }
    lemma_empty_and_grand(n as usize);
    lemma_efficiency(e, n);
}

/// The values `v`, each raised by `rise`.
pub open spec fn raised(v: Seq<int>, rise: int) -> Seq<int> {
    Seq::new(v.len(), |i: int| v[i] + rise)
}

/// Where every coalition is worth the same amount more, every expected
/// value is that amount more, on the scale of the expected values.
pub proof fn lemma_expected_raised(v: Seq<int>, rise: int, up: int, down: int, n: int, b: int, i: usize)
    requires
        0 <= n <= MAX_BITS,
        0 <= b <= n,
        v.len() == bit(n as usize),
        i < v.len(),
    ensures
        expected(raised(v, rise), up, down, b, i) == expected(v, up, down, b, i) + pow(
            up + down,
            b as nat,
        ) * rise,
    decreases b,
{
    reveal(pow);
    if b > 0 {
        let top = (b - 1) as usize;
        lemma_expected_raised(v, rise, up, down, n, b - 1, i);
        let x = expected(v, up, down, b - 1, i);
        let p = pow(up + down, (b - 1) as nat);
        if has_bit(i, top) {
            lemma_member_index(i, top);
            let other = (i - bit(top)) as usize;
            lemma_expected_raised(v, rise, up, down, n, b - 1, other);
            let y = expected(v, up, down, b - 1, other);
            assert(up * (x + p * rise) + down * (y + p * rise) == (up * x + down * y) + ((up
                + down) * p) * rise) by (nonlinear_arith);
        } else {
            assert((up + down) * (x + p * rise) == (up + down) * x + ((up + down) * p) * rise)
                by (nonlinear_arith);
        }
    } else {
        assert(1 * rise == rise);
    }
}

/// The Shapley values do not depend on what the empty coalition is taken
/// to be worth: where every coalition is worth the same amount more, every
/// operator is owed what it was.
pub proof fn lemma_baseline(e: Seq<int>, rise: int, n: int, k: usize)
    requires
        0 <= n <= MAX_BITS,
        k < n,
        e.len() == bit(n as usize),
    ensures
        shapley_numerator(raised(e, rise), n, k) == shapley_numerator(e, n, k),
{
    lemma_baseline_sum(e, rise, n, k, bit(n as usize) as int);
}

proof fn lemma_baseline_sum(e: Seq<int>, rise: int, n: int, k: usize, l: int)
    requires
        0 <= n <= MAX_BITS,
        k < n,
        0 <= l <= e.len(),
        e.len() <= usize::MAX,
    ensures
        shapley_sum(raised(e, rise), n, k, l) == shapley_sum(e, n, k, l),
    decreases l,
{
    if l > 0 {
        lemma_baseline_sum(e, rise, n, k, l - 1);
        let c = (l - 1) as usize;
        if has_bit(c, k) {
            lemma_member_index(c, k);
        }
    }
}

/// The sum of the rounded Shapley values of the first `j` operators, in
/// units of `0.0001`.
pub open spec fn value_total(e: Seq<int>, denominator: int, n: int, j: int) -> int
    decreases j,
{
    if j <= 0 {
        0
    } else {
        value_total(e, denominator, n, j - 1) + value_units(e, denominator, n, (j - 1) as usize)
    }
}

/// A rounded fraction of either sign is at most half a unit off.
pub proof fn lemma_rounded_error(num: int, den: int)
    requires
        0 < den,
    ensures
        -den <= 2 * (rounded(num, den) * den - num) <= den,
{
    if num >= 0 {
        lemma_rounding_error(num, den);
    } else {
        lemma_rounding_error(-num, den);
        let r = nearest_even(-num, den);
        assert((-r) * den == -(r * den)) by (nonlinear_arith);
    }
}

/// The rounded Shapley values of the first `j` operators differ from
/// their exact sum by at most half a unit of `0.0001` each.
pub proof fn lemma_value_total_error(e: Seq<int>, denominator: int, n: int, j: int)
    requires
        0 <= j,
        0 <= n,
        0 < denominator,
    ensures
        -j * (denominator * factorial_of(n)) <= 2 * (value_total(e, denominator, n, j) * (
        denominator * factorial_of(n)) - 10000 * shapley_total(e, n, j)) <= j * (denominator
            * factorial_of(n)),
    decreases j,
{
    lemma_factorial_positive(n);
    let d = denominator * factorial_of(n);
    assert(d > 0) by (nonlinear_arith)
        requires
            d == denominator * factorial_of(n),
            denominator > 0,
            factorial_of(n) >= 1,
    ;
    if j > 0 {
        lemma_value_total_error(e, denominator, n, j - 1);
        let x = shapley_numerator(e, n, (j - 1) as usize);
        lemma_rounded_error(10000 * x, d);
        let v = value_units(e, denominator, n, (j - 1) as usize);
        let before = value_total(e, denominator, n, j - 1);
        let sum = shapley_total(e, n, j - 1);
        assert((before + v) * d - 10000 * (sum + x) == (before * d - 10000 * sum) + (v * d - 10000
            * x)) by (nonlinear_arith);
        assert(j * d == (j - 1) * d + d) by (nonlinear_arith);
        assert(-j * d == -(j - 1) * d - d) by (nonlinear_arith);
    } else {
        assert(0 * d == 0);
    }
}

/// Efficiency of what is reported: the rounded Shapley values sum to what
/// the grand coalition is expected to be worth more than the empty one, up
/// to half a unit of `0.0001` for each operator.
pub proof fn lemma_efficiency_rounded(e: Seq<int>, denominator: int, n: int)
    requires
        0 <= n <= MAX_BITS,
        0 < denominator,
        e.len() == bit(n as usize),
    ensures
        -n * denominator <= 2 * (value_total(e, denominator, n, n) * denominator - 10000 * (
        e[bit(n as usize) - 1] - e[0])) <= n * denominator,
{
    lemma_value_total_error(e, denominator, n, n);
    lemma_efficiency(e, n);
    lemma_factorial_positive(n);
    let f = factorial_of(n);
    let t = value_total(e, denominator, n, n);
    let gap = e[bit(n as usize) - 1] - e[0];
    assert(t * (denominator * f) - 10000 * (f * gap) == f * (t * denominator - 10000 * gap))
        by (nonlinear_arith);
    assert(n * (denominator * f) == f * (n * denominator)) by (nonlinear_arith);
    assert(-n * (denominator * f) == f * (-n * denominator)) by (nonlinear_arith);
    let a = 2 * (t * denominator - 10000 * gap);
    let y = n * denominator;
    assert(f * a == 2 * (f * (t * denominator - 10000 * gap))) by (nonlinear_arith)
        requires
            a == 2 * (t * denominator - 10000 * gap),
    ;
    assert(f * (-y) == f * (-n * denominator)) by (nonlinear_arith)
        requires
            y == n * denominator,
    ;
    assert(-y <= a <= y) by (nonlinear_arith)
        requires
            f * (-y) <= f * a <= f * y,
            f >= 1,
    ;
    assert(-n * denominator == -y) by (nonlinear_arith)
        requires
            y == n * denominator,
    ;
}

} // verus!
