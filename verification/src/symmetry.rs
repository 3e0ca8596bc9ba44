//! Operators are treated alike: exchanging two of them exchanges what they
//! are owed and leaves the others as they are, and two operators that no
//! coalition can tell apart are owed the same.

use crate::coalition_computation::is_subset;
use crate::fairness::{is_expectation, lemma_shapley_by_stakes, stake};
use crate::reweighting::{chance, lemma_expected_by_chance, lemma_part_layout};
use crate::shapley::{
    expected, percent_units, positive_part, positive_total, shapley_numerator, value_units,
};
use crate::sums::{
    at_without, from_without, lemma_reindex, lemma_sum_same, lemma_sum_sum, lemma_sum_swapped,
    sum_over,
};
use crate::utils::{
    bit, coalition_size, has_bit, lemma_bit_doubles, lemma_bit_layout, lemma_coalition_size_bound,
    lemma_size_above, lemma_without, MAX_BITS,
};
use vstd::arithmetic::power::pow;
use vstd::prelude::*;

verus! {

/// Coalition `c` with the operators `a` and `b` exchanged: it holds `a`
/// where `c` holds `b`, and `b` where `c` holds `a`.
pub open spec fn exchange(c: usize, a: usize, b: usize) -> usize {
    if has_bit(c, a) == has_bit(c, b) {
        c
    } else {
        c ^ (bit(a) | bit(b))
    }
}

/// The values `v` with the operators `a` and `b` exchanged: every
/// coalition is worth what the exchanged coalition is worth in `v`.
pub open spec fn exchanged(v: Seq<int>, a: usize, b: usize) -> Seq<int> {
    Seq::new(v.len(), |c: int| v[exchange(c as usize, a, b) as int])
}

/// What exchanging two operators does to a coalition: it stays among the
/// coalitions of the first `n` operators, exchanging twice gives it back,
/// the two operators change places and the others stay.
pub proof fn lemma_exchange(c: usize, a: usize, b: usize, n: usize, k: usize)
    requires
        a < n <= MAX_BITS,
        b < n,
        a != b,
        k <= MAX_BITS,
        c < bit(n),
    ensures
        exchange(c, a, b) < bit(n),
        exchange(exchange(c, a, b), a, b) == c,
        has_bit(exchange(c, a, b), a) == has_bit(c, b),
        has_bit(exchange(c, a, b), b) == has_bit(c, a),
        k != a && k != b ==> has_bit(exchange(c, a, b), k) == has_bit(c, k),
        has_bit(c, a) && !has_bit(c, b) ==> bit(a) <= c && exchange(c, a, b) == c - bit(a) + bit(b),
        has_bit(c, b) && !has_bit(c, a) ==> bit(b) <= c && exchange(c, a, b) == c - bit(b) + bit(a),
{
    let x = bit(a) | bit(b);
    let d = c ^ x;
    assert(d < (1usize << n) && (d ^ ((1usize << a) | (1usize << b))) == c && (((d >> a) & 1 == 1)
        <==> !((c >> a) & 1 == 1)) && (((d >> b) & 1 == 1) <==> !((c >> b) & 1 == 1)) && (k != a
        && k != b ==> (((d >> k) & 1 == 1) <==> ((c >> k) & 1 == 1)))) by (bit_vector)
        requires
            a < n,
            b < n,
            n <= 31,
            k <= 31,
            a != b,
            c < (1usize << n),
            d == c ^ ((1usize << a) | (1usize << b)),
    ;
    if has_bit(c, a) && !has_bit(c, b) {
        assert((1usize << a) <= c && d == c - (1usize << a) + (1usize << b)) by (bit_vector)
            requires
                a <= 31,
                b <= 31,
                a != b,
                (c >> a) & 1 == 1,
                (c >> b) & 1 != 1,
                d == c ^ ((1usize << a) | (1usize << b)),
        ;
    }
    if has_bit(c, b) && !has_bit(c, a) {
        assert((1usize << b) <= c && d == c - (1usize << b) + (1usize << a)) by (bit_vector)
            requires
                a <= 31,
                b <= 31,
                a != b,
                (c >> b) & 1 == 1,
                (c >> a) & 1 != 1,
                d == c ^ ((1usize << a) | (1usize << b)),
        ;
    }
}

/// Exchanging two operators in both coalitions does not change whether one
/// is part of the other.
pub proof fn lemma_exchange_part(c: usize, i: usize, a: usize, b: usize)
    requires
        a <= MAX_BITS,
        b <= MAX_BITS,
        a != b,
    ensures
        is_subset(exchange(c, a, b), exchange(i, a, b)) == is_subset(c, i),
{
    let x: usize = bit(a) | bit(b);
    let sc = exchange(c, a, b);
    let si = exchange(i, a, b);
    assert(((sc & si) == sc) == ((c & i) == c)) by (bit_vector)
        requires
            a <= 31,
            b <= 31,
            a != b,
            x == (1usize << a) | (1usize << b),
            sc == if ((c >> a) & 1 == 1) == ((c >> b) & 1 == 1) {
                c
            } else {
                c ^ x
            },
            si == if ((i >> a) & 1 == 1) == ((i >> b) & 1 == 1) {
                i
            } else {
                i ^ x
            },
    ;
}

/// One where the coalition holds the operator, else zero.
pub open spec fn holding(c: usize, k: usize) -> int {
    if has_bit(c, k) {
        1
    } else {
        0
    }
}

/// Exchanging two operators does not change how many operators a
/// coalition holds.
pub proof fn lemma_exchange_size(c: usize, a: usize, b: usize, n: usize, m: int)
    requires
        a < n <= MAX_BITS,
        b < n,
        a != b,
        0 <= m <= n,
        c < bit(n),
    ensures
        coalition_size(exchange(c, a, b), m) == coalition_size(c, m) + (if a < m {
            holding(c, b) - holding(c, a)
        } else {
            0
        }) + (if b < m {
            holding(c, a) - holding(c, b)
        } else {
            0
        }),
    decreases m,
{
    if m > 0 {
        lemma_exchange_size(c, a, b, n, m - 1);
        lemma_exchange(c, a, b, n, (m - 1) as usize);
    }
}

/// The chance that of the operators of coalition `i` exactly those of
/// coalition `c` are up, in closed form: none where `c` is no part of `i`;
/// else `up` for each operator that is up, `down` for each operator of `i`
/// that is down, and `up + down` for each operator outside `i`.
pub open spec fn chance_by_counts(up: int, down: int, m: int, i: int, c: int) -> int {
    let held = coalition_size(i as usize, m);
    let running = coalition_size(c as usize, m);
    if is_subset(c as usize, i as usize) {
        pow(up, running as nat) * pow(down, (held - running) as nat) * pow(
            up + down,
            (m - held) as nat,
        )
    } else {
        0
    }
}

/// The chance in closed form is the chance, and a part holds no more
/// operators than the whole.
pub proof fn lemma_chance_by_counts(up: int, down: int, m: int, i: usize, c: usize)
    requires
        0 <= m <= MAX_BITS,
        i < bit(m as usize),
        c < bit(m as usize),
    ensures
        chance(up, down, m, i as int, c as int) == chance_by_counts(up, down, m, i as int, c as int),
        is_subset(c, i) ==> coalition_size(c, m) <= coalition_size(i, m),
    decreases m,
{
    reveal(pow);
    if m == 0 {
        assert((1usize << 0usize) == 1 && (0usize & 0usize == 0usize)) by (bit_vector);
        assert(pow(up, 0) * pow(down, 0) * pow(up + down, 0) == 1);
    } else {
        let t = (m - 1) as usize;
        let s = bit(t);
        lemma_bit_doubles(t);
        let low_i = if i < s {
            i
        } else {
            (i - s) as usize
        };
        let low_c = if c < s {
            c
        } else {
            (c - s) as usize
        };
        lemma_chance_by_counts(up, down, m - 1, low_i, low_c);
        lemma_part_layout(low_c, low_i, t);
        lemma_size_above(low_i, t, t as int);
        lemma_size_above(low_c, t, t as int);
        lemma_bit_layout(low_i, t, (t + 1) as usize);
        lemma_bit_layout(low_c, t, (t + 1) as usize);
        lemma_coalition_size_bound(low_i, t as int);
        lemma_coalition_size_bound(low_c, t as int);
        let held = coalition_size(low_i, t as int);
        let running = coalition_size(low_c, t as int);
        if is_subset(low_c, low_i) {
            let x = pow(up, running as nat);
            let y = pow(down, (held - running) as nat);
            let z = pow(up + down, (t - held) as nat);
            if i < s && c < s {
                assert(pow(up + down, (t + 1 - held) as nat) == (up + down) * z);
                assert((up + down) * (x * y * z) == x * y * ((up + down) * z))
                    by (nonlinear_arith);
            } else if i < s {
            } else if c < s {
                assert(pow(down, (held + 1 - running) as nat) == down * y);
                assert(down * (x * y * z) == x * (down * y) * z) by (nonlinear_arith);
            } else {
                assert(pow(up, (running + 1) as nat) == up * x);
                assert(up * (x * y * z) == (up * x) * y * z) by (nonlinear_arith);
            }
        } else {
            assert((up + down) * 0 == 0 && down * 0 == 0 && up * 0 == 0);
        }
    }
}

/// Exchanging two operators in both coalitions does not change the chance
/// that of the operators of the one exactly those of the other are up:
/// every operator is up with the same chance.
pub proof fn lemma_exchange_chance(up: int, down: int, n: usize, i: usize, c: usize, a: usize, b: usize)
    requires
        a < n <= MAX_BITS,
        b < n,
        a != b,
        i < bit(n),
        c < bit(n),
    ensures
        chance(up, down, n as int, exchange(i, a, b) as int, exchange(c, a, b) as int) == chance(
            up,
            down,
            n as int,
            i as int,
            c as int,
        ),
{
    lemma_exchange(i, a, b, n, 0);
    lemma_exchange(c, a, b, n, 0);
    lemma_chance_by_counts(up, down, n as int, i, c);
    lemma_chance_by_counts(up, down, n as int, exchange(i, a, b), exchange(c, a, b));
    lemma_exchange_part(c, i, a, b);
    lemma_exchange_size(i, a, b, n, n as int);
    lemma_exchange_size(c, a, b, n, n as int);
}

/// `f` at the coalitions that hold operator `a` and not operator `b`; zero
/// at the others.
pub open spec fn only_first(f: spec_fn(int) -> int, a: usize, b: usize) -> spec_fn(int) -> int {
    |c: int|
        if has_bit(c as usize, a) && !has_bit(c as usize, b) {
            f(c)
        } else {
            0
        }
}

/// Moving operator `a` of every coalition that holds it, and not operator
/// `b`, over to `b` matches these coalitions one to one with those that
/// hold `b` and not `a`.
pub proof fn lemma_move_over(f: spec_fn(int) -> int, a: usize, b: usize, n: usize)
    requires
        a < n <= MAX_BITS,
        b < n,
        a != b,
    ensures
        sum_over(
            |c: int|
                if has_bit(c as usize, a) && !has_bit(c as usize, b) {
                    f(c - bit(a) + bit(b))
                } else {
                    0
                },
            bit(n) as int,
        ) == sum_over(only_first(f, b, a), bit(n) as int),
{
    let m = bit(n) as int;
    let moved = |c: int|
        if has_bit(c as usize, a) && !has_bit(c as usize, b) {
            f(c - bit(a) + bit(b))
        } else {
            0
        };
    // What a coalition without either operator is worth once `b` joins.
    let joined = |z: int|
        if has_bit(z as usize, b) {
            0
        } else {
            f(z + bit(b))
        };
    let bare = |z: int|
        if has_bit(z as usize, a) {
            0
        } else {
            f(z + bit(b))
        };
    assert forall|c: int| 0 <= c < m implies #[trigger] moved(c) == from_without(joined, a)(c) by {
        if has_bit(c as usize, a) {
            lemma_without(c as usize, a, b);
        }
    }
    lemma_sum_same(moved, from_without(joined, a), m);
    lemma_reindex(joined, a, n);
    assert forall|c: int| 0 <= c < m implies #[trigger] at_without(joined, a)(c) == at_without(
        bare,
        b,
    )(c) by {}
    lemma_sum_same(at_without(joined, a), at_without(bare, b), m);
    lemma_reindex(bare, b, n);
    assert forall|c: int| 0 <= c < m implies #[trigger] from_without(bare, b)(c) == only_first(
        f,
        b,
        a,
    )(c) by {
        if has_bit(c as usize, b) {
            lemma_without(c as usize, b, a);
        }
    }
    lemma_sum_same(from_without(bare, b), only_first(f, b, a), m);
}

/// Summing over all coalitions does not depend on the names of the
/// operators: the sum of `f` over the exchanged coalitions is the sum of
/// `f`.
pub proof fn lemma_sum_exchanged(f: spec_fn(int) -> int, a: usize, b: usize, n: usize)
    requires
        a < n <= MAX_BITS,
        b < n,
        a != b,
    ensures
        sum_over(|c: int| f(exchange(c as usize, a, b) as int), bit(n) as int) == sum_over(
            f,
            bit(n) as int,
        ),
{
    let m = bit(n) as int;
    let turned = |c: int| f(exchange(c as usize, a, b) as int);
    let fixed = |c: int|
        if has_bit(c as usize, a) == has_bit(c as usize, b) {
            f(c)
        } else {
            0
        };
    let a_to_b = |c: int|
        if has_bit(c as usize, a) && !has_bit(c as usize, b) {
            f(c - bit(a) + bit(b))
        } else {
            0
        };
    let b_to_a = |c: int|
        if has_bit(c as usize, b) && !has_bit(c as usize, a) {
            f(c - bit(b) + bit(a))
        } else {
            0
        };
    let turned_rest = |c: int| a_to_b(c) + b_to_a(c);
    let rest = |c: int| only_first(f, a, b)(c) + only_first(f, b, a)(c);
    assert forall|c: int| 0 <= c < m implies #[trigger] turned(c) == fixed(c) + turned_rest(c) by {
        lemma_exchange(c as usize, a, b, n, 0);
    }
    lemma_sum_sum(turned, fixed, turned_rest, m);
    lemma_sum_sum(turned_rest, a_to_b, b_to_a, m);
    assert forall|c: int| 0 <= c < m implies #[trigger] f(c) == fixed(c) + rest(c) by {}
    lemma_sum_sum(f, fixed, rest, m);
    lemma_sum_sum(rest, only_first(f, a, b), only_first(f, b, a), m);
    lemma_move_over(f, a, b, n);
    lemma_move_over(f, b, a, n);
}

/// The expected values of exchanged values are the exchanged expected
/// values.
pub proof fn lemma_exchange_expected(
    v: Seq<int>,
    up: int,
    down: int,
    n: usize,
    a: usize,
    b: usize,
    i: usize,
)
    requires
        a < n <= MAX_BITS,
        b < n,
        a != b,
        v.len() == bit(n),
        i < bit(n),
    ensures
        expected(exchanged(v, a, b), up, down, n as int, i) == expected(
            v,
            up,
            down,
            n as int,
            exchange(i, a, b),
        ),
{
    let m = bit(n) as int;
    let other = exchange(i, a, b);
    lemma_exchange(i, a, b, n, 0);
    lemma_expected_by_chance(exchanged(v, a, b), up, down, n as int, i);
    lemma_expected_by_chance(v, up, down, n as int, other);
    let turned = |c: int| chance(up, down, n as int, i as int, c) * exchanged(v, a, b)[c];
    let plain = |c: int| chance(up, down, n as int, other as int, c) * v[c];
    let plain_turned = |c: int| plain(exchange(c as usize, a, b) as int);
    assert forall|c: int| 0 <= c < m implies #[trigger] turned(c) == plain_turned(c) by {
        lemma_exchange(c as usize, a, b, n, 0);
        lemma_exchange_chance(up, down, n, i, c as usize, a, b);
    }
    lemma_sum_same(turned, plain_turned, m);
    lemma_sum_exchanged(plain, a, b, n);
}

/// The operator that operator `k` becomes when the operators `a` and `b`
/// are exchanged.
pub open spec fn renamed(k: usize, a: usize, b: usize) -> usize {
    if k == a {
        b
    } else if k == b {
        a
    } else {
        k
    }
}

/// Exchanging two operators exchanges their Shapley values and leaves the
/// others as they are: what an operator is owed does not depend on its
/// name or its place.
pub proof fn lemma_exchange_shapley(e: Seq<int>, n: usize, a: usize, b: usize, k: usize)
    requires
        a < n <= MAX_BITS,
        b < n,
        k < n,
        a != b,
        e.len() == bit(n),
    ensures
        shapley_numerator(exchanged(e, a, b), n as int, k) == shapley_numerator(
            e,
            n as int,
            renamed(k, a, b),
        ),
{
    let m = bit(n) as int;
    let to = renamed(k, a, b);
    lemma_shapley_by_stakes(exchanged(e, a, b), n as int, k);
    lemma_shapley_by_stakes(e, n as int, to);
    let turned = |x: int| stake(exchanged(e, a, b), n as int, k as int, x);
    let plain = |x: int| stake(e, n as int, to as int, x);
    let plain_turned = |x: int| plain(exchange(x as usize, a, b) as int);
    assert forall|x: int| 0 <= x < m implies #[trigger] turned(x) == plain_turned(x) by {
        lemma_exchange(x as usize, a, b, n, k);
        lemma_exchange_size(x as usize, a, b, n, n as int);
    }
    lemma_sum_same(turned, plain_turned, m);
    lemma_sum_exchanged(plain, a, b, n);
}

/// The positive part of the Shapley numerator of each operator.
pub open spec fn gains(e: Seq<int>, n: int) -> spec_fn(int) -> int {
    |k: int| positive_part(shapley_numerator(e, n, k as usize))
}

/// The sum of the positive Shapley numerators is the sum of the gains.
pub proof fn lemma_positive_total_by_gains(e: Seq<int>, n: int, j: int)
    ensures
        positive_total(e, n, j) == sum_over(gains(e, n), j),
    decreases j,
{
    if j > 0 {
        lemma_positive_total_by_gains(e, n, j - 1);
    }
}

/// Exchanging two operators leaves the sum of the positive Shapley values
/// as it is.
pub proof fn lemma_exchange_total(e: Seq<int>, n: usize, a: usize, b: usize)
    requires
        a < n <= MAX_BITS,
        b < n,
        a != b,
        e.len() == bit(n),
    ensures
        positive_total(exchanged(e, a, b), n as int, n as int) == positive_total(
            e,
            n as int,
            n as int,
        ),
{
    let turned = gains(exchanged(e, a, b), n as int);
    let plain = gains(e, n as int);
    lemma_positive_total_by_gains(exchanged(e, a, b), n as int, n as int);
    lemma_positive_total_by_gains(e, n as int, n as int);
    lemma_exchange_shapley(e, n, a, b, a);
    lemma_exchange_shapley(e, n, a, b, b);
    assert forall|k: int| 0 <= k < n && k != a && k != b implies #[trigger] turned(k) == plain(
        k,
    ) by {
        lemma_exchange_shapley(e, n, a, b, k as usize);
    }
    lemma_sum_swapped(plain, turned, a as int, b as int, n as int);
}

/// Exchanging two operators exchanges what is reported for them and
/// leaves the others as they are: the value and the share of an operator
/// do not depend on its name or its place.
pub proof fn lemma_exchange_values(
    e: Seq<int>,
    denominator: int,
    n: usize,
    a: usize,
    b: usize,
    k: usize,
)
    requires
        a < n <= MAX_BITS,
        b < n,
        k < n,
        a != b,
        e.len() == bit(n),
    ensures
        value_units(exchanged(e, a, b), denominator, n as int, k) == value_units(
            e,
            denominator,
            n as int,
            renamed(k, a, b),
        ),
        percent_units(exchanged(e, a, b), n as int, k) == percent_units(
            e,
            n as int,
            renamed(k, a, b),
        ),
{
    lemma_exchange_shapley(e, n, a, b, k);
    lemma_exchange_total(e, n, a, b);
}

/// No coalition can tell the operators `a` and `b` apart: every coalition
/// is worth what it is worth with the two exchanged.
pub open spec fn are_alike(v: Seq<int>, a: usize, b: usize) -> bool {
    forall|c: int| 0 <= c < v.len() ==> #[trigger] v[c] == v[exchange(c as usize, a, b) as int]
}

/// Two operators that no coalition of the table can tell apart, from
/// which the Shapley values are taken, have the same value and the same
/// share.
pub proof fn lemma_symmetry_of_table(e: Seq<int>, denominator: int, n: usize, a: usize, b: usize)
    requires
        a < n <= MAX_BITS,
        b < n,
        e.len() == bit(n),
        are_alike(e, a, b),
    ensures
        shapley_numerator(e, n as int, a) == shapley_numerator(e, n as int, b),
        value_units(e, denominator, n as int, a) == value_units(e, denominator, n as int, b),
        percent_units(e, n as int, a) == percent_units(e, n as int, b),
{
    if a != b {
        assert(exchanged(e, a, b) =~= e);
        lemma_exchange_shapley(e, n, a, b, a);
    }
}

/// Symmetry: two operators that no coalition can tell apart have the same
/// Shapley value and the same share, whatever the uptime.
pub proof fn lemma_symmetry(
    e: Seq<int>,
    denominator: int,
    v: Seq<int>,
    up: int,
    down: int,
    n: usize,
    a: usize,
    b: usize,
)
    requires
        a < n <= MAX_BITS,
        b < n,
        a != b,
        v.len() == bit(n),
        is_expectation(e, v, up, down, n as int),
        are_alike(v, a, b),
    ensures
        shapley_numerator(e, n as int, a) == shapley_numerator(e, n as int, b),
        value_units(e, denominator, n as int, a) == value_units(e, denominator, n as int, b),
        percent_units(e, n as int, a) == percent_units(e, n as int, b),
{
    assert(exchanged(v, a, b) =~= v);
    assert forall|i: int| 0 <= i < e.len() implies #[trigger] e[i] == exchanged(e, a, b)[i] by {
        lemma_exchange(i as usize, a, b, n, 0);
        lemma_exchange_expected(v, up, down, n, a, b, i as usize);
    }
    assert(exchanged(e, a, b) =~= e);
    lemma_exchange_shapley(e, n, a, b, a);
}

} // verus!
