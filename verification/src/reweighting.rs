//! What the expected values are made of: the chance that of the operators
//! of a coalition exactly those of a given part are up, and how these
//! chances arise from the coefficient matrix.
//!
//! All chances are numerators over `(up + down)^m` for `m` operators, where
//! an operator is up in `up` cases and down in `down`.

use crate::coalition_computation::{coefficient, is_subset};
use crate::shapley::expected;
use crate::sums::{
    lemma_sum_same, lemma_sum_scale, lemma_sum_single, lemma_sum_split, lemma_sum_sum, sum_over,
};
use crate::utils::{
    bit, coalition_size, has_bit, lemma_bit_doubles, lemma_bit_layout, lemma_coalition_size_bound,
    lemma_member_index, lemma_size_above, MAX_BITS,
};
use vstd::arithmetic::power::pow;
use vstd::prelude::*;

verus! {

/// The chance, times `(up + down)^m`, that of the operators of coalition
/// `i` exactly those of coalition `c` are up, for coalitions of the first
/// `m` operators. By cases on operator `m - 1`: both coalitions without
/// it, nothing depends on it; `i` with it and `c` without, it must be
/// down; both with it, it must be up; and `c` is no part of `i` where `c`
/// alone holds it.
pub open spec fn chance(up: int, down: int, m: int, i: int, c: int) -> int
    decreases m,
{
    if m <= 0 {
        1
    } else {
        let s = bit((m - 1) as usize) as int;
        if i < s && c < s {
            (up + down) * chance(up, down, m - 1, i, c)
        } else if i < s {
            0
        } else if c < s {
            down * chance(up, down, m - 1, i - s, c)
        } else {
            up * chance(up, down, m - 1, i - s, c - s)
        }
    }
}

/// The operators below `t` do not see whether a coalition holds operator
/// `t`: the expected values of the coalitions that hold it are those of
/// the values from `2^t` on.
pub proof fn lemma_expected_above(v: Seq<int>, up: int, down: int, b: int, t: usize, i: usize)
    requires
        0 <= b <= t,
        t < MAX_BITS,
        i < bit(t),
        v.len() >= 2 * bit(t),
    ensures
        expected(v, up, down, b, (i + bit(t)) as usize) == expected(
            v.skip(bit(t) as int),
            up,
            down,
            b,
            i,
        ),
    decreases b,
{
    let s = bit(t);
    lemma_bit_layout(i, 0, (t + 1) as usize);
    if b > 0 {
        let low = (b - 1) as usize;
        lemma_bit_layout(i, low, (t + 1) as usize);
        lemma_expected_above(v, up, down, b - 1, t, i);
        if has_bit(i, low) {
            lemma_member_index(i, low);
            lemma_member_index((i + s) as usize, low);
            let rest = (i - bit(low)) as usize;
            lemma_bit_layout(rest, 0, (t + 1) as usize);
            lemma_expected_above(v, up, down, b - 1, t, rest);
            assert(((i + s) as usize - bit(low)) as usize == (rest + s) as usize);
        }
    }
}

/// The expected value of a coalition is the sum of the values of all
/// coalitions, each weighted by the chance that exactly its operators are
/// up.
pub proof fn lemma_expected_by_chance(v: Seq<int>, up: int, down: int, m: int, i: usize)
    requires
        0 <= m <= MAX_BITS,
        i < bit(m as usize),
        v.len() >= bit(m as usize),
    ensures
        expected(v, up, down, m, i) == sum_over(
            |c: int| chance(up, down, m, i as int, c) * v[c],
            bit(m as usize) as int,
        ),
    decreases m,
{
    let all = |c: int| chance(up, down, m, i as int, c) * v[c];
    if m == 0 {
        assert((1usize << 0usize) == 1) by (bit_vector);
        lemma_sum_single(all, 0, 1);
    } else {
        let t = (m - 1) as usize;
        let s = bit(t) as int;
        lemma_bit_doubles(t);
        let upper = v.skip(s);
        let later = |c: int| all(s + c);
        lemma_sum_split(all, later, s, s);
        assert((1usize << t) >= 1 && ((i >> t) & 1 == 1 <==> i >= (1usize << t))) by (bit_vector)
            requires
                t <= 30,
                i < 2 * (1usize << t),
        ;
        if i < s {
            lemma_expected_by_chance(v, up, down, m - 1, i);
            let lower = |c: int| chance(up, down, m - 1, i as int, c) * v[c];
            assert forall|c: int| 0 <= c < s implies #[trigger] all(c) == (up + down) * lower(c) by {
                let x = chance(up, down, m - 1, i as int, c);
                assert(((up + down) * x) * v[c] == (up + down) * (x * v[c])) by (nonlinear_arith);
            }
            lemma_sum_scale(all, lower, up + down, s);
            assert forall|c: int| 0 <= c < s implies #[trigger] later(c) == 0 by {
                assert(0 * v[s + c] == 0);
            }
            lemma_sum_single(later, -1, s);
        } else {
            let rest = (i - s) as usize;
            lemma_expected_above(v, up, down, m - 1, t, rest);
            lemma_expected_by_chance(v, up, down, m - 1, rest);
            lemma_expected_by_chance(upper, up, down, m - 1, rest);
            let lower = |c: int| chance(up, down, m - 1, rest as int, c) * v[c];
            let higher = |c: int| chance(up, down, m - 1, rest as int, c) * upper[c];
            assert forall|c: int| 0 <= c < s implies #[trigger] all(c) == down * lower(c) by {
                let x = chance(up, down, m - 1, rest as int, c);
                assert((down * x) * v[c] == down * (x * v[c])) by (nonlinear_arith);
            }
            lemma_sum_scale(all, lower, down, s);
            assert forall|c: int| 0 <= c < s implies #[trigger] later(c) == up * higher(c) by {
                let x = chance(up, down, m - 1, rest as int, c);
                assert(upper[c] == v[s + c]);
                assert((up * x) * v[s + c] == up * (x * v[s + c])) by (nonlinear_arith);
            }
            lemma_sum_scale(later, higher, up, s);
        }
    }
}

/// The chances of all parts of a coalition sum to one: to `(up + down)^m`
/// in numerators.
pub proof fn lemma_chances_sum(up: int, down: int, m: int, i: int)
    requires
        0 <= m <= MAX_BITS,
        0 <= i < bit(m as usize),
    ensures
        sum_over(|c: int| chance(up, down, m, i, c), bit(m as usize) as int) == pow(
            up + down,
            m as nat,
        ),
    decreases m,
{
    let all = |c: int| chance(up, down, m, i, c);
    reveal(pow);
    if m == 0 {
        assert((1usize << 0usize) == 1) by (bit_vector);
        lemma_sum_single(all, 0, 1);
    } else {
        let t = (m - 1) as usize;
        let s = bit(t) as int;
        lemma_bit_doubles(t);
        let later = |c: int| all(s + c);
        lemma_sum_split(all, later, s, s);
        let whole = pow(up + down, (m - 1) as nat);
        if i < s {
            lemma_chances_sum(up, down, m - 1, i);
            let lower = |c: int| chance(up, down, m - 1, i, c);
            assert forall|c: int| 0 <= c < s implies #[trigger] all(c) == (up + down) * lower(c) by {}
            lemma_sum_scale(all, lower, up + down, s);
            assert forall|c: int| 0 <= c < s implies #[trigger] later(c) == 0 by {}
            lemma_sum_single(later, -1, s);
        } else {
            lemma_chances_sum(up, down, m - 1, i - s);
            let lower = |c: int| chance(up, down, m - 1, i - s, c);
            assert forall|c: int| 0 <= c < s implies #[trigger] all(c) == down * lower(c) by {}
            lemma_sum_scale(all, lower, down, s);
            assert forall|c: int| 0 <= c < s implies #[trigger] later(c) == up * lower(c) by {}
            lemma_sum_scale(later, lower, up, s);
            assert(down * whole + up * whole == (up + down) * whole) by (nonlinear_arith);
        }
    }
}

/// The chance, times `whole^m`, that all operators of coalition `k` are
/// up, whatever the others do: `up` for each operator of the coalition
/// and `whole` for each other.
pub open spec fn base_chance(up: int, whole: int, m: int, k: int) -> int {
    pow(up, coalition_size(k as usize, m) as nat) * pow(
        whole,
        (m - coalition_size(k as usize, m)) as nat,
    )
}

/// One where coalition `c` is part of coalition `i`, else zero: the entry
/// `[i][c]` of the subset mask.
pub open spec fn part_of(c: int, i: int) -> int {
    if is_subset(c as usize, i as usize) {
        1
    } else {
        0
    }
}

/// The base chance of coalition `k` where it is part of coalition `i`,
/// else zero.
pub open spec fn masked(up: int, whole: int, m: int, i: int, k: int) -> int {
    base_chance(up, whole, m, k) * part_of(k, i)
}

/// The coefficient matrix restricted to the places at which the column is
/// part of the row.
pub open spec fn kernel(m: int, k: int, c: int) -> int {
    coefficient(m, k, c) * part_of(c, k)
}

/// The product of the masked base chances and the kernel at row `i`,
/// column `c`.
pub open spec fn correction(up: int, whole: int, m: int, i: int, c: int) -> int {
    sum_over(|k: int| masked(up, whole, m, i, k) * kernel(m, k, c), bit(m as usize) as int)
}

/// The weight of the value of coalition `c` in the expected value of
/// coalition `i`, as inclusion and exclusion give it: the masked base
/// chance corrected by the kernel, where `c` is part of `i`.
pub open spec fn inclusion_exclusion(up: int, whole: int, m: int, i: int, c: int) -> int {
    (masked(up, whole, m, i, c) + correction(up, whole, m, i, c)) * part_of(c, i)
}

/// How parts behave when operator `t` joins: a coalition of lower
/// operators is part of a coalition with or without the operator alike, a
/// coalition with the operator is part of none without it, and two
/// coalitions that both hold it are part of each other as they are without
/// it.
pub proof fn lemma_part_layout(a: usize, b: usize, t: usize)
    requires
        t < MAX_BITS,
        a < bit(t),
        b < bit(t),
    ensures
        part_of(a as int, b + bit(t)) == part_of(a as int, b as int),
        part_of(a + bit(t), b as int) == 0,
        part_of(a + bit(t), b + bit(t)) == part_of(a as int, b as int),
        part_of(a as int, a as int) == 1,
        a + bit(t) < usize::MAX,
        b + bit(t) < usize::MAX,
{
    assert(a + (1usize << t) < 0xffff_ffff && b + (1usize << t) < 0xffff_ffff && ((a & ((b + (
    1usize << t)) as usize) == a) <==> (a & b == a)) && (((a + (1usize << t)) as usize) & b != ((a
        + (1usize << t)) as usize)) && (((((a + (1usize << t)) as usize) & ((b + (1usize
        << t)) as usize)) == ((a + (1usize << t)) as usize)) <==> (a & b == a)) && (a & a == a))
        by (bit_vector)
        requires
            t < 31,
            a < (1usize << t),
            b < (1usize << t),
    ;
}

/// The base chance when operator `t` joins: a coalition without it has
/// `whole` times, a coalition with it `up` times the base chance it has
/// among the operators below.
pub proof fn lemma_base_layout(up: int, whole: int, t: usize, k: usize)
    requires
        t < MAX_BITS,
        k < bit(t),
    ensures
        base_chance(up, whole, t + 1, k as int) == whole * base_chance(up, whole, t as int, k as int),
        base_chance(up, whole, t + 1, k + bit(t)) == up * base_chance(
            up,
            whole,
            t as int,
            k as int,
        ),
{
    let size = coalition_size(k, t as int);
    lemma_coalition_size_bound(k, t as int);
    lemma_bit_layout(k, t, (t + 1) as usize);
    lemma_size_above(k, t, t as int);
    let a = pow(up, size as nat);
    let b = pow(whole, (t - size) as nat);
    reveal(pow);
    assert(pow(whole, (t + 1 - size) as nat) == whole * b);
    assert(pow(up, (size + 1) as nat) == up * a);
    assert(a * (whole * b) == whole * (a * b)) by (nonlinear_arith);
    assert((up * a) * b == up * (a * b)) by (nonlinear_arith);
}

/// The lower half of the correction when operator `t` joins: the
/// coalitions `k` without the operator.
proof fn lemma_lower_half(up: int, whole: int, t: usize, i: usize, c: usize)
    requires
        t < MAX_BITS,
        i < 2 * bit(t),
        c < 2 * bit(t),
    ensures
        sum_over(
            |k: int| masked(up, whole, t + 1, i as int, k) * kernel(t + 1, k, c as int),
            bit(t) as int,
        ) == if c < bit(t) {
            whole * correction(
                up,
                whole,
                t as int,
                if i < bit(t) {
                    i as int
                } else {
                    i - bit(t)
                },
                c as int,
            )
        } else {
            0
        },
{
    let s = bit(t) as int;
    let rest = if i < s {
        i as int
    } else {
        i - s
    };
    let lower = |k: int| masked(up, whole, t + 1, i as int, k) * kernel(t + 1, k, c as int);
    let before = |k: int| masked(up, whole, t as int, rest, k) * kernel(t as int, k, c as int);
    if c < s {
        assert forall|k: int| 0 <= k < s implies #[trigger] lower(k) == whole * before(k) by {
            lemma_base_layout(up, whole, t, k as usize);
            lemma_part_layout(k as usize, rest as usize, t);
            let x = base_chance(up, whole, t as int, k);
            let y = part_of(k, rest);
            let z = kernel(t as int, k, c as int);
            assert(((whole * x) * y) * z == whole * ((x * y) * z)) by (nonlinear_arith);
        }
        lemma_sum_scale(lower, before, whole, s);
    } else {
        assert forall|k: int| 0 <= k < s implies #[trigger] lower(k) == 0 by {
            assert(masked(up, whole, t + 1, i as int, k) * 0 == 0);
            assert(0 * part_of(c as int, k) == 0);
        }
        lemma_sum_single(lower, -1, s);
    }
}

/// The upper half of the correction when operator `t` joins: the
/// coalitions `k` with the operator.
proof fn lemma_upper_half(up: int, whole: int, t: usize, i: usize, c: usize)
    requires
        t < MAX_BITS,
        i < 2 * bit(t),
        c < 2 * bit(t),
    ensures
        sum_over(
            |k: int|
                masked(up, whole, t + 1, i as int, bit(t) + k) * kernel(
                    t + 1,
                    bit(t) + k,
                    c as int,
                ),
            bit(t) as int,
        ) == if i < bit(t) {
            0
        } else if c < bit(t) {
            -up * (correction(up, whole, t as int, i - bit(t), c as int) + masked(
                up,
                whole,
                t as int,
                i - bit(t),
                c as int,
            ))
        } else {
            up * correction(up, whole, t as int, i - bit(t), c - bit(t))
        },
{
    let s = bit(t) as int;
    let upper = |k: int|
        masked(up, whole, t + 1, i as int, bit(t) + k) * kernel(t + 1, bit(t) + k, c as int);
    if i < s {
        assert forall|k: int| 0 <= k < s implies #[trigger] upper(k) == 0 by {
            lemma_part_layout(k as usize, i, t);
            assert(base_chance(up, whole, t + 1, s + k) * 0 == 0);
            assert(0 * kernel(t + 1, s + k, c as int) == 0);
        }
        lemma_sum_single(upper, -1, s);
    } else if c < s {
        let rest = i - s;
        let before = |k: int| masked(up, whole, t as int, rest, k) * kernel(t as int, k, c as int);
        let at = |k: int|
            if k == c {
                masked(up, whole, t as int, rest, c as int)
            } else {
                0
            };
        let both = |k: int| before(k) + at(k);
        assert forall|k: int| 0 <= k < s implies #[trigger] upper(k) == (-up) * both(k) by {
            lemma_base_layout(up, whole, t, k as usize);
            lemma_part_layout(k as usize, rest as usize, t);
            lemma_part_layout(c, k as usize, t);
            let x = base_chance(up, whole, t as int, k);
            let y = part_of(k, rest);
            let p = part_of(c as int, k);
            let f = coefficient(t as int, k, c as int);
            if k == c {
                assert(p == 1);
                assert(((up * x) * y) * ((-f - 1) * p) == (-up) * ((x * y) * (f * p) + x * y))
                    by (nonlinear_arith)
                    requires
                        p == 1,
                ;
            } else {
                assert(((up * x) * y) * ((-f - 0) * p) == (-up) * ((x * y) * (f * p) + 0))
                    by (nonlinear_arith);
            }
        }
        lemma_sum_scale(upper, both, -up, s);
        lemma_sum_sum(both, before, at, s);
        lemma_sum_single(at, c as int, s);
    } else {
        let rest = i - s;
        let lower_c = c - s;
        let before = |k: int| masked(up, whole, t as int, rest, k) * kernel(t as int, k, lower_c);
        assert forall|k: int| 0 <= k < s implies #[trigger] upper(k) == up * before(k) by {
            lemma_base_layout(up, whole, t, k as usize);
            lemma_part_layout(k as usize, rest as usize, t);
            lemma_part_layout(lower_c as usize, k as usize, t);
            let x = base_chance(up, whole, t as int, k);
            let y = part_of(k, rest);
            let z = kernel(t as int, k, lower_c);
            assert(((up * x) * y) * z == up * ((x * y) * z)) by (nonlinear_arith);
        }
        lemma_sum_scale(upper, before, up, s);
    }
}

/// Inclusion and exclusion give the chances: the weight that the masked
/// base chances and the coefficient matrix give to the value of coalition
/// `c` in the expected value of coalition `i` is the chance that of the
/// operators of `i` exactly those of `c` are up.
pub proof fn lemma_inclusion_exclusion(up: int, whole: int, m: int, i: usize, c: usize)
    requires
        0 <= m <= MAX_BITS,
        i < bit(m as usize),
        c < bit(m as usize),
    ensures
        inclusion_exclusion(up, whole, m, i as int, c as int) == chance(
            up,
            whole - up,
            m,
            i as int,
            c as int,
        ),
    decreases m,
{
    reveal(pow);
    if m == 0 {
        assert((1usize << 0usize) == 1 && (0usize & 0usize == 0usize)) by (bit_vector);
        let all = |k: int| masked(up, whole, 0, 0, k) * kernel(0, k, 0);
        assert(all(0) == 0) by {
            assert(masked(up, whole, 0, 0, 0) * 0 == 0);
            assert(0 * part_of(0, 0) == 0);
        }
        lemma_sum_single(all, 0, 1);
        assert(coalition_size(0, 0) == 0);
        assert(pow(up, 0) == 1 && pow(whole, 0) == 1);
    } else {
        let t = (m - 1) as usize;
        let s = bit(t) as int;
        lemma_bit_doubles(t);
        let all = |k: int| masked(up, whole, m, i as int, k) * kernel(m, k, c as int);
        let later = |k: int| all(s + k);
        let upper = |k: int|
            masked(up, whole, t + 1, i as int, bit(t) + k) * kernel(t + 1, bit(t) + k, c as int);
        let lower = |k: int| masked(up, whole, t + 1, i as int, k) * kernel(t + 1, k, c as int);
        lemma_sum_split(all, later, s, s);
        lemma_sum_same(later, upper, s);
        lemma_sum_same(all, lower, s);
        lemma_lower_half(up, whole, t, i, c);
        lemma_upper_half(up, whole, t, i, c);
        let down = whole - up;
        if i < s && c < s {
            lemma_inclusion_exclusion(up, whole, m - 1, i, c);
            lemma_base_layout(up, whole, t, c);
            let x = masked(up, whole, m - 1, i as int, c as int);
            let y = correction(up, whole, m - 1, i as int, c as int);
            let p = part_of(c as int, i as int);
            let b = base_chance(up, whole, m - 1, c as int);
            assert(((whole * b) * p + (whole * y + 0)) * p == (up + down) * ((b * p + y) * p))
                by (nonlinear_arith)
                requires
                    down == whole - up,
            ;
        } else if i < s {
            lemma_part_layout((c - s) as usize, i, t);
            assert((masked(up, whole, m, i as int, c as int) + correction(
                up,
                whole,
                m,
                i as int,
                c as int,
            )) * 0 == 0);
        } else if c < s {
            let rest = (i - s) as usize;
            lemma_inclusion_exclusion(up, whole, m - 1, rest, c);
            lemma_base_layout(up, whole, t, c);
            lemma_part_layout(c, rest, t);
            let y = correction(up, whole, m - 1, rest as int, c as int);
            let p = part_of(c as int, rest as int);
            let b = base_chance(up, whole, m - 1, c as int);
            assert(((whole * b) * p + (whole * y + (-up) * (y + b * p))) * p == down * ((b * p
                + y) * p)) by (nonlinear_arith)
                requires
                    down == whole - up,
            ;
        } else {
            let rest = (i - s) as usize;
            let lower_c = (c - s) as usize;
            lemma_inclusion_exclusion(up, whole, m - 1, rest, lower_c);
            lemma_base_layout(up, whole, t, lower_c);
            lemma_part_layout(lower_c, rest, t);
            let y = correction(up, whole, m - 1, rest as int, lower_c as int);
            let p = part_of(lower_c as int, rest as int);
            let b = base_chance(up, whole, m - 1, lower_c as int);
            assert(((up * b) * p + (0 + up * y)) * p == up * ((b * p + y) * p))
                by (nonlinear_arith);
        }
    }
}

/// The expected value of a coalition as inclusion and exclusion give it:
/// the sum of the values of all coalitions, each weighted by the masked
/// base chances corrected by the coefficient matrix.
pub proof fn lemma_expected_by_kernel(v: Seq<int>, up: int, whole: int, m: int, i: usize)
    requires
        0 <= m <= MAX_BITS,
        i < bit(m as usize),
        v.len() >= bit(m as usize),
    ensures
        expected(v, up, whole - up, m, i) == sum_over(
            |c: int| inclusion_exclusion(up, whole, m, i as int, c) * v[c],
            bit(m as usize) as int,
        ),
{
    lemma_expected_by_chance(v, up, whole - up, m, i);
    let by_chance = |c: int| chance(up, whole - up, m, i as int, c) * v[c];
    let by_kernel = |c: int| inclusion_exclusion(up, whole, m, i as int, c) * v[c];
    assert forall|c: int| 0 <= c < bit(m as usize) implies #[trigger] by_kernel(c) == by_chance(
        c,
    ) by {
        lemma_inclusion_exclusion(up, whole, m, i, c as usize);
    }
    lemma_sum_same(by_kernel, by_chance, bit(m as usize) as int);
}

} // verus!
