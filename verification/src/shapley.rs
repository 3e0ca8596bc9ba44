//! Expected coalition values under operator outages, and the Shapley
//! values, in exact arithmetic.
//!
//! The values of all coalitions are held as integers over one common
//! denominator, so that no step rounds but the last, which rounds what is
//! reported to four decimal places. A computation whose integers would
//! leave `i128` is refused; to keep them small the uptime is taken in
//! lowest terms, and the weights of the coalitions with what they have in
//! common taken out.

use crate::amount::{Amount, MAX_SCALE, representable};
use crate::error::ShapleyError;
use crate::fairness::{
    is_null_operator, lemma_efficiency_rounded, lemma_full_uptime, lemma_null_operator_of_table,
    lemma_percent_sum, percent_total, value_total,
};
use crate::symmetry::{are_alike, lemma_symmetry_of_table};
use crate::types::ShapleyValue;
use crate::utils::{
    bit, coalition_size, factorial, FACTORIAL_LIMIT, factorial_of, has_bit, holds,
    lemma_coalition_size_bound, lemma_factorial_monotonic, lemma_factorial_positive,
    lemma_factorial_upto_limit, lemma_member_index, MAX_BITS, single,
};
use vstd::arithmetic::div_mod::{
    lemma_basic_div, lemma_div_is_ordered, lemma_div_multiples_vanish_quotient,
    lemma_fundamental_div_mod, lemma_fundamental_div_mod_converse, lemma_mod_multiples_basic,
    lemma_mod_pos_bound, lemma_truncate_middle,
};
use vstd::arithmetic::power::{lemma_pow0, lemma_pow_increases, lemma_pow_positive, pow};
use vstd::prelude::*;

verus! {

/// The value of every coalition as a fraction: coalition `c` is worth
/// `numerators[c] / denominator`.
#[derive(Debug)]
pub struct ValueTable {
    /// One numerator per coalition, by coalition index.
    pub numerators: Vec<i128>,
    /// The denominator that all coalitions share; positive.
    pub denominator: i128,
}

/// Each number of `v` as an integer.
pub open spec fn ints(v: Seq<i128>) -> Seq<int> {
    Seq::new(v.len(), |i: int| v[i] as int)
}

/// The absolute value of `x`.
pub open spec fn magnitude(x: int) -> int {
    if x < 0 {
        -x
    } else {
        x
    }
}

/// The largest absolute value among the first `n` numbers of `v`.
pub open spec fn largest_magnitude(v: Seq<int>, n: int) -> int
    decreases n,
{
    if n <= 0 {
        0
    } else {
        let rest = largest_magnitude(v, n - 1);
        if magnitude(v[n - 1]) > rest {
            magnitude(v[n - 1])
        } else {
            rest
        }
    }
}

/// No number is larger in absolute value than the largest.
pub proof fn lemma_largest_magnitude(v: Seq<int>, n: int)
    requires
        0 <= n,
    ensures
        largest_magnitude(v, n) >= 0,
        forall|i: int| 0 <= i < n ==> magnitude(#[trigger] v[i]) <= largest_magnitude(v, n),
    decreases n,
{
    if n > 0 {
        lemma_largest_magnitude(v, n - 1);
    }
}

/// The largest absolute value among `v`, or `None` where it exceeds
/// `i128::MAX`.
fn largest(v: &Vec<i128>) -> (most: Option<i128>)
    ensures
        match most {
            Some(m) => m == largest_magnitude(ints(v@), v.len() as int) && m >= 0,
            None => largest_magnitude(ints(v@), v.len() as int) > i128::MAX,
        },
{
    let ghost all = ints(v@);
    let mut most: i128 = 0;
    let mut i: usize = 0;
    while i < v.len()
        invariant
            i <= v.len(),
            all == ints(v@),
            most >= 0,
            most == largest_magnitude(all, i as int),
        decreases v.len() - i,
    {
        let x = v[i];
        assert(all[i as int] == x);
        if x == i128::MIN {
            proof {
                lemma_largest_magnitude(all, v.len() as int);
                assert(magnitude(all[i as int]) > i128::MAX);
            }
            return None;
        }
        let size = if x < 0 {
            -x
        } else {
            x
        };
        if size > most {
            most = size;
        }
        i += 1;
    }
    Some(most)
}

/// The greatest common divisor of two non-negative numbers, by Euclid's
/// algorithm.
pub open spec fn gcd(a: int, b: int) -> int
    decreases b,
{
    if b <= 0 {
        a
    } else {
        gcd(b, a % b)
    }
}

/// The greatest common divisor divides both numbers, and is positive
/// where one of them is.
pub proof fn lemma_gcd_divides(a: int, b: int)
    requires
        0 <= a,
        0 <= b,
        a > 0 || b > 0,
    ensures
        gcd(a, b) > 0,
        a % gcd(a, b) == 0,
        b % gcd(a, b) == 0,
    decreases b,
{
    if b > 0 {
        lemma_mod_pos_bound(a, b);
        lemma_gcd_divides(b, a % b);
        let g = gcd(a, b);
        lemma_fundamental_div_mod(a, b);
        lemma_fundamental_div_mod(b, g);
        lemma_fundamental_div_mod(a % b, g);
        let k = a / b;
        let x = b / g;
        let y = (a % b) / g;
        assert(a == g * (x * k + y)) by (nonlinear_arith)
            requires
                a == b * k + a % b,
                b == g * x,
                a % b == g * y,
        ;
        lemma_mod_multiples_basic(x * k + y, g);
        assert(g * (x * k + y) == (x * k + y) * g) by (nonlinear_arith);
    } else {
        lemma_mod_multiples_basic(1, a);
        lemma_mod_multiples_basic(0, a);
        assert(1 * a == a);
        assert(0 * a == 0);
    }
}

/// What is divisible by a number is divisible by what divides that number.
pub proof fn lemma_divides_transitive(a: int, b: int, c: int)
    requires
        0 < b,
        0 < c,
        a % b == 0,
        b % c == 0,
    ensures
        a % c == 0,
{
    lemma_fundamental_div_mod(a, b);
    lemma_fundamental_div_mod(b, c);
    let x = a / b;
    let y = b / c;
    assert(a == (y * x) * c) by (nonlinear_arith)
        requires
            a == b * x,
            b == c * y,
    ;
    lemma_mod_multiples_basic(y * x, c);
}

/// A multiple of what a number divides is divisible by the number, and
/// dividing gives the multiple of the quotient.
pub proof fn lemma_multiple_divides(k: int, a: int, c: int)
    requires
        0 < c,
        a % c == 0,
    ensures
        (k * a) % c == 0,
        (k * a) / c == k * (a / c),
        a == c * (a / c),
{
    lemma_fundamental_div_mod(a, c);
    let x = a / c;
    assert(k * a == (k * x) * c) by (nonlinear_arith)
        requires
            a == c * x,
    ;
    lemma_mod_multiples_basic(k * x, c);
    lemma_fundamental_div_mod_converse(k * a, c, k * x, 0);
}

/// The greatest common divisor of `a` and `b`.
pub fn greatest_common_divisor(a: i128, b: i128) -> (g: i128)
    requires
        0 <= a,
        0 <= b,
    ensures
        g == gcd(a as int, b as int),
{
    let mut x = a;
    let mut y = b;
    while y > 0
        invariant
            0 <= x,
            0 <= y,
            gcd(x as int, y as int) == gcd(a as int, b as int),
        decreases y,
    {
        proof {
            lemma_mod_pos_bound(x as int, y as int);
        }
        let r = x % y;
        x = y;
        y = r;
    }
    x
}

/// `10^28`.
pub proof fn lemma_pow_28()
    ensures
        pow(10, 28) == 10000000000000000000000000000,
{
    reveal_with_fuel(pow, 29);
}

/// `10^k` for `k` up to 28.
pub fn power_of_ten(k: u32) -> (power: i128)
    requires
        k <= MAX_SCALE,
    ensures
        power == pow(10, k as nat),
        1 <= power <= 10000000000000000000000000000,
{
    let mut power: i128 = 1;
    let mut i: u32 = 0;
    proof {
        lemma_pow0(10);
    }
    while i < k
        invariant
            i <= k,
            k <= MAX_SCALE,
            power == pow(10, i as nat),
            1 <= power,
        decreases k - i,
    {
        proof {
            lemma_pow_increases(10, (i + 1) as nat, 28);
            lemma_pow_28();
            assert(pow(10, (i + 1) as nat) == 10 * pow(10, i as nat)) by {
                reveal(pow);
            }
        }
        power = power * 10;
        i += 1;
    }
    proof {
        lemma_pow_increases(10, k as nat, 28);
        lemma_pow_28();
    }
    power
}

/// Every coalition has a value: none is infeasible.
pub open spec fn all_feasible(values: Seq<Option<Amount>>) -> bool {
    forall|i: int| 0 <= i < values.len() ==> (#[trigger] values[i]) is Some
}

/// The most decimal places that one of the first `n` values has.
pub open spec fn most_places(values: Seq<Option<Amount>>, n: int) -> int
    decreases n,
{
    if n <= 0 {
        0
    } else {
        let rest = most_places(values, n - 1);
        match values[n - 1] {
            Some(a) => if a.places() > rest {
                a.places()
            } else {
                rest
            },
            None => rest,
        }
    }
}

/// The numerator of `value` over the denominator `10^places`.
pub open spec fn aligned(value: Amount, places: int) -> int {
    value.units() * pow(10, (places - value.places()) as nat)
}

/// Every value's numerator over the common denominator fits in `i128`.
pub open spec fn alignment_fits(values: Seq<Option<Amount>>) -> bool {
    forall|i: int|
        0 <= i < values.len() && (#[trigger] values[i]) is Some ==> i128::MIN <= aligned(
            values[i]->0,
            most_places(values, values.len() as int),
        ) <= i128::MAX
}

/// `table` holds the values `values` over the denominator `10^d`, where
/// `d` is the most decimal places that one of them has.
pub open spec fn is_alignment(table: &ValueTable, values: Seq<Option<Amount>>) -> bool {
    let places = most_places(values, values.len() as int);
    &&& table.denominator == pow(10, places as nat)
    &&& table.numerators.len() == values.len()
    &&& forall|i: int|
        0 <= i < values.len() ==> #[trigger] table.numerators[i] == aligned(values[i]->0, places)
}

/// Brings the values of all coalitions to one denominator. Where some
/// coalition is infeasible there is no table: `None`. Fails where a
/// numerator leaves `i128`.
pub fn value_table(values: &Vec<Option<Amount>>) -> (table: Result<Option<ValueTable>, ShapleyError>)
    ensures
        !all_feasible(values@) ==> table is Ok && table->Ok_0 is None,
        all_feasible(values@) ==> {
            &&& table is Ok <==> alignment_fits(values@)
            &&& table is Ok ==> table->Ok_0 is Some && is_alignment(&table->Ok_0->0, values@)
            &&& table is Err ==> table->Err_0 is ComputationError
        },
{
    let mut places: u32 = 0;
    let mut i: usize = 0;
    while i < values.len()
        invariant
            i <= values.len(),
            places == most_places(values@, i as int),
            places <= MAX_SCALE,
            forall|j: int| 0 <= j < i ==> (#[trigger] values[j]) is Some,
            forall|j: int|
                0 <= j < i ==> 0 <= (#[trigger] values[j])->0.places() <= places,
        decreases values.len() - i,
    {
        match values[i] {
            Some(a) => {
                let s = a.scale();
                if s > places {
                    places = s;
                }
            },
            None => {
                return Ok(None);
            },
        }
        i += 1;
    }
    let denominator = power_of_ten(places);
    let mut numerators: Vec<i128> = Vec::new();
    let mut k: usize = 0;
    while k < values.len()
        invariant
            k <= values.len(),
            places == most_places(values@, values.len() as int),
            places <= MAX_SCALE,
            all_feasible(values@),
            forall|j: int|
                0 <= j < values.len() ==> 0 <= (#[trigger] values[j])->0.places() <= places,
            numerators.len() == k,
            forall|j: int|
                0 <= j < k ==> #[trigger] numerators[j] == aligned(values[j]->0, places as int),
        decreases values.len() - k,
    {
        let a = values[k].unwrap();
        let shift = power_of_ten(places - a.scale());
        match a.mantissa().checked_mul(shift) {
            Some(n) => {
                numerators.push(n);
            },
            None => {
                return Err(
                    ShapleyError::ComputationError(
                        String::from_str("a coalition value is too large"),
                    ),
                );
            },
        }
        k += 1;
    }
    proof {
        assert forall|j: int| 0 <= j < values.len() && (#[trigger] values[j]) is Some implies i128::MIN
            <= aligned(values[j]->0, most_places(values@, values.len() as int)) <= i128::MAX by {
            assert(numerators[j] == aligned(values[j]->0, places as int));
        }
    }
    Ok(Some(ValueTable { numerators, denominator }))
}

/// The uptime is a probability: it lies between zero and one.
pub open spec fn valid_uptime(uptime: Amount) -> bool {
    0 <= uptime.units() <= pow(10, uptime.places() as nat)
}

/// The denominator of the uptime in lowest terms.
pub open spec fn whole_share(uptime: Amount) -> int {
    pow(10, uptime.places() as nat) / gcd(uptime.units(), pow(10, uptime.places() as nat))
}

/// The numerator of the uptime in lowest terms: an operator is up in
/// `up_share` cases of `whole_share`.
pub open spec fn up_share(uptime: Amount) -> int {
    uptime.units() / gcd(uptime.units(), pow(10, uptime.places() as nat))
}

/// The expected value of coalition `i` when each of its first `b`
/// operators is up in `up` cases and down in `down`, scaled by
/// `(up + down)^b`. By cases on operator `b - 1`: where the coalition holds
/// it, the operator is up and the coalition stays, or it is down and the
/// coalition is the one without it; where the coalition does not hold it,
/// nothing depends on it.
pub open spec fn expected(v: Seq<int>, up: int, down: int, b: int, i: usize) -> int
    decreases b,
{
    if b <= 0 {
        v[i as int]
    } else if has_bit(i, (b - 1) as usize) {
        up * expected(v, up, down, b - 1, i) + down * expected(
            v,
            up,
            down,
            b - 1,
            (i - bit((b - 1) as usize)) as usize,
        )
    } else {
        (up + down) * expected(v, up, down, b - 1, i)
    }
}

/// `table` has one positive denominator and a numerator for each of the
/// `2^n` coalitions of `n` operators.
pub open spec fn is_value_table(table: &ValueTable, n: usize) -> bool {
    &&& n <= MAX_BITS
    &&& table.numerators.len() == bit(n)
    &&& table.denominator > 0
}

/// The expected values of `n` operators stay within `i128`: the largest
/// value and the denominator can both be multiplied by `whole^n`.
pub open spec fn expectation_fits(v: Seq<int>, denominator: int, whole: int, n: int) -> bool {
    &&& largest_magnitude(v, v.len() as int) * pow(whole, n as nat) <= i128::MAX
    &&& denominator * pow(whole, n as nat) <= i128::MAX
}

/// A weighted mean of two bounded numbers is bounded.
pub proof fn lemma_mix_bound(up: int, down: int, x: int, y: int, bound: int)
    requires
        0 <= up,
        0 <= down,
        magnitude(x) <= bound,
        magnitude(y) <= bound,
    ensures
        magnitude(up * x) <= (up + down) * bound,
        magnitude(down * y) <= (up + down) * bound,
        magnitude(up * x + down * y) <= (up + down) * bound,
        magnitude((up + down) * x) <= (up + down) * bound,
{
    assert(-(up * bound) <= up * x <= up * bound) by (nonlinear_arith)
        requires
            0 <= up,
            -bound <= x <= bound,
    ;
    assert(-(down * bound) <= down * y <= down * bound) by (nonlinear_arith)
        requires
            0 <= down,
            -bound <= y <= bound,
    ;
    assert(-(down * bound) <= down * x <= down * bound) by (nonlinear_arith)
        requires
            0 <= down,
            -bound <= x <= bound,
    ;
    assert((up + down) * bound == up * bound + down * bound) by (nonlinear_arith);
    assert((up + down) * x == up * x + down * x) by (nonlinear_arith);
    assert(0 <= down * bound) by (nonlinear_arith)
        requires
            0 <= down,
            0 <= bound,
    ;
    assert(0 <= up * bound) by (nonlinear_arith)
        requires
            0 <= up,
            0 <= bound,
    ;
}

/// A number that fits when scaled by a power fits when scaled by a lower
/// power.
pub proof fn lemma_scaled_monotonic(m: int, whole: int, b: int, n: int)
    requires
        0 <= m,
        1 <= whole,
        0 <= b <= n,
    ensures
        m * pow(whole, b as nat) <= m * pow(whole, n as nat),
        pow(whole, b as nat) >= 1,
        pow(whole, (b + 1) as nat) == whole * pow(whole, b as nat),
{
    lemma_pow_increases(whole as nat, b as nat, n as nat);
    lemma_pow_positive(whole, b as nat);
    let x = pow(whole, b as nat);
    let y = pow(whole, n as nat);
    assert(m * x <= m * y) by (nonlinear_arith)
        requires
            0 <= m,
            x <= y,
    ;
    assert(pow(whole, (b + 1) as nat) == whole * pow(whole, b as nat)) by {
        reveal(pow);
    }
}

/// The table of the expected values of all coalitions.
fn expected_table(svalue: &ValueTable, operator_uptime: Amount, n_ops: usize) -> (evalue:
    Result<ValueTable, ShapleyError>)
    ensures
        evalue is Ok <==> {
            &&& is_value_table(svalue, n_ops)
            &&& valid_uptime(operator_uptime)
            &&& expectation_fits(
                ints(svalue.numerators@),
                svalue.denominator as int,
                whole_share(operator_uptime),
                n_ops as int,
            )
        },
        evalue is Ok ==> {
            let e = evalue->Ok_0;
            let up = up_share(operator_uptime);
            let whole = whole_share(operator_uptime);
            &&& is_value_table(&e, n_ops)
            &&& e.denominator == svalue.denominator * pow(whole, n_ops as nat)
            &&& forall|i: int|
                0 <= i < e.numerators.len() ==> #[trigger] e.numerators[i] == expected(
                    ints(svalue.numerators@),
                    up,
                    whole - up,
                    n_ops as int,
                    i as usize,
                )
        },
        evalue is Err ==> evalue->Err_0 is ComputationError,
{
    if n_ops > MAX_BITS {
        return Err(ShapleyError::ComputationError(String::from_str("too many operators")));
    }
    let size = single(n_ops);
    if svalue.numerators.len() != size || svalue.denominator <= 0 {
        return Err(
            ShapleyError::ComputationError(
                String::from_str("the value table does not fit the number of operators"),
            ),
        );
    }
    let ghost v = ints(svalue.numerators@);
    let p = operator_uptime.mantissa();
    let q = power_of_ten(operator_uptime.scale());
    if p < 0 || p > q {
        return Err(
            ShapleyError::ComputationError(
                String::from_str("the operator uptime is not between zero and one"),
            ),
        );
    }
    let g = greatest_common_divisor(p, q);
    proof {
        lemma_gcd_divides(p as int, q as int);
        lemma_fundamental_div_mod(p as int, g as int);
        lemma_fundamental_div_mod(q as int, g as int);
        lemma_div_is_ordered(p as int, q as int, g as int);
        lemma_basic_div(0, g as int);
        lemma_div_is_ordered(0, p as int, g as int);
        assert(q / g >= 1) by (nonlinear_arith)
            requires
                q == g * (q / g),
                q >= 1,
                g >= 1,
        ;
        assert(p / g <= p) by (nonlinear_arith)
            requires
                p == g * (p / g),
                p >= 0,
                g >= 1,
        ;
        assert(q / g <= q) by (nonlinear_arith)
            requires
                q == g * (q / g),
                q >= 1,
                g >= 1,
        ;
    }
    let up = p / g;
    let whole = q / g;
    let down = whole - up;
    let most = match largest(&svalue.numerators) {
        Some(m) => m,
        None => {
            proof {
                lemma_scaled_monotonic(
                    largest_magnitude(v, v.len() as int),
                    whole as int,
                    0,
                    n_ops as int,
                );
                lemma_pow0(whole as int);
            }
            return Err(
                ShapleyError::ComputationError(String::from_str("a coalition value is too large")),
            );
        },
    };
    let mut current: Vec<i128> = Vec::new();
    let mut c: usize = 0;
    while c < size
        invariant
            c <= size,
            size == svalue.numerators.len(),
            current.len() == c,
            forall|i: int| 0 <= i < c ==> #[trigger] current[i] == svalue.numerators[i],
        decreases size - c,
    {
        current.push(svalue.numerators[c]);
        c += 1;
    }
    let mut bound = most;
    let mut denominator = svalue.denominator;
    let mut b: usize = 0;
    proof {
        lemma_pow0(whole as int);
        lemma_largest_magnitude(v, v.len() as int);
        assert forall|i: int| 0 <= i < size implies #[trigger] current[i] == expected(
            v,
            up as int,
            down as int,
            0,
            i as usize,
        ) && magnitude(current[i] as int) <= bound by {
            assert(v[i] == svalue.numerators[i]);
        }
    }
    while b < n_ops
        invariant
            b <= n_ops,
            n_ops <= MAX_BITS,
            size == bit(n_ops),
            size == svalue.numerators.len(),
            v == ints(svalue.numerators@),
            v.len() == size,
            0 <= up,
            0 <= down,
            whole == up + down,
            1 <= whole,
            up == up_share(operator_uptime),
            whole == whole_share(operator_uptime),
            valid_uptime(operator_uptime),
            most == largest_magnitude(v, v.len() as int),
            0 <= most,
            0 < svalue.denominator,
            current.len() == size,
            bound == most * pow(whole as int, b as nat),
            denominator == svalue.denominator * pow(whole as int, b as nat),
            forall|i: int|
                0 <= i < size ==> #[trigger] current[i] == expected(
                    v,
                    up as int,
                    down as int,
                    b as int,
                    i as usize,
                ),
            forall|i: int| 0 <= i < size ==> magnitude(#[trigger] current[i] as int) <= bound,
        decreases n_ops - b,
    {
        proof {
            lemma_scaled_monotonic(most as int, whole as int, b as int + 1, n_ops as int);
            lemma_scaled_monotonic(svalue.denominator as int, whole as int, b as int + 1, n_ops as int);
            lemma_scaled_monotonic(most as int, whole as int, b as int, n_ops as int);
            let x = pow(whole as int, b as nat);
            assert(most * (whole * x) == (most * x) * whole) by (nonlinear_arith);
            assert(svalue.denominator * (whole * x) == (svalue.denominator * x) * whole)
                by (nonlinear_arith);
        }
        let next_bound = match bound.checked_mul(whole) {
            Some(n) => n,
            None => {
                return Err(
                    ShapleyError::ComputationError(
                        String::from_str("an expected value is too large"),
                    ),
                );
            },
        };
        let next_denominator = match denominator.checked_mul(whole) {
            Some(n) => n,
            None => {
                return Err(
                    ShapleyError::ComputationError(
                        String::from_str("the denominator of the expected values is too large"),
                    ),
                );
            },
        };
        let stride = single(b);
        let mut next: Vec<i128> = Vec::new();
        let mut i: usize = 0;
        while i < size
            invariant
                i <= size,
                b < n_ops,
                n_ops <= MAX_BITS,
                stride == bit(b),
                0 <= up,
                0 <= down,
                whole == up + down,
                0 <= bound,
                next_bound == bound * whole,
                current.len() == size,
                next.len() == i,
                forall|j: int|
                    0 <= j < size ==> #[trigger] current[j] == expected(
                        v,
                        up as int,
                        down as int,
                        b as int,
                        j as usize,
                    ),
                forall|j: int| 0 <= j < size ==> magnitude(#[trigger] current[j] as int) <= bound,
                forall|j: int|
                    0 <= j < i ==> #[trigger] next[j] == expected(
                        v,
                        up as int,
                        down as int,
                        b + 1,
                        j as usize,
                    ),
                forall|j: int| 0 <= j < i ==> magnitude(#[trigger] next[j] as int) <= next_bound,
            decreases size - i,
        {
            let x = current[i];
            assert(magnitude(current[i as int] as int) <= bound);
            if holds(i, b) {
                proof {
                    lemma_member_index(i, b);
                }
                let y = current[i - stride];
                proof {
                    assert(magnitude(current[i - stride] as int) <= bound);
                    lemma_mix_bound(up as int, down as int, x as int, y as int, bound as int);
                    assert((up + down) * bound == bound * whole) by (nonlinear_arith)
                        requires
                            whole == up + down,
                    ;
                }
                next.push(up * x + down * y);
            } else {
                proof {
                    lemma_mix_bound(up as int, down as int, x as int, x as int, bound as int);
                    assert((up + down) * bound == bound * whole) by (nonlinear_arith)
                        requires
                            whole == up + down,
                    ;
                }
                next.push(whole * x);
            }
            i += 1;
        }
        current = next;
        bound = next_bound;
        denominator = next_denominator;
        b += 1;
    }
    proof {
        assert(down == whole_share(operator_uptime) - up_share(operator_uptime));
        lemma_pow_positive(whole as int, n_ops as nat);
        let x = pow(whole as int, n_ops as nat);
        assert(svalue.denominator * x > 0) by (nonlinear_arith)
            requires
                svalue.denominator > 0,
                x > 0,
        ;
    }
    Ok(ValueTable { numerators: current, denominator })
}

/// The uptime is one, written with any number of decimal places.
pub open spec fn is_full_uptime(uptime: Amount) -> bool {
    uptime.units() == pow(10, uptime.places() as nat)
}

/// The expected value of every coalition when each operator is up,
/// independently of the others, with probability `operator_uptime`: the
/// mean of the values of the coalition's subsets, each weighted by the
/// chance that exactly its members are up. The result is over the
/// denominator `denominator * whole^n`, where `whole` is the denominator of
/// the uptime in lowest terms; with an uptime of one it is the table it
/// was given. Fails where the table does not have `2^n_ops` values and a
/// positive denominator, where the uptime is no probability, or where a
/// number would leave `i128`.
///
/// With an uptime of one the call succeeds for every table whose values
/// have a magnitude within `i128`, and returns the table it was given.
pub fn compute_expected_values(svalue: &ValueTable, operator_uptime: Amount, n_ops: usize) -> (evalue:
    Result<ValueTable, ShapleyError>)
    ensures
        evalue is Ok <==> {
            &&& is_value_table(svalue, n_ops)
            &&& valid_uptime(operator_uptime)
            &&& expectation_fits(
                ints(svalue.numerators@),
                svalue.denominator as int,
                whole_share(operator_uptime),
                n_ops as int,
            )
        },
        evalue is Ok ==> {
            let e = evalue->Ok_0;
            let up = up_share(operator_uptime);
            let whole = whole_share(operator_uptime);
            &&& is_value_table(&e, n_ops)
            &&& e.denominator == svalue.denominator * pow(whole, n_ops as nat)
            &&& forall|i: int|
                0 <= i < e.numerators.len() ==> #[trigger] e.numerators[i] == expected(
                    ints(svalue.numerators@),
                    up,
                    whole - up,
                    n_ops as int,
                    i as usize,
                )
        },
        evalue is Err ==> evalue->Err_0 is ComputationError,
        is_full_uptime(operator_uptime) ==> {
            &&& evalue is Ok <==> {
                &&& is_value_table(svalue, n_ops)
                &&& largest_magnitude(
                    ints(svalue.numerators@),
                    svalue.numerators.len() as int,
                ) <= i128::MAX
            }
            &&& evalue is Ok ==> {
                &&& evalue->Ok_0.numerators@ == svalue.numerators@
                &&& evalue->Ok_0.denominator == svalue.denominator
            }
        },
{
    let evalue = expected_table(svalue, operator_uptime, n_ops);
    let places = operator_uptime.scale();
    proof {
        if is_full_uptime(operator_uptime) {
            let v = ints(svalue.numerators@);
            assert(0 <= places == operator_uptime.places());
            lemma_full_uptime(v, operator_uptime, n_ops as int, 0);
            let bound = largest_magnitude(v, v.len() as int);
            assert(bound * 1 == bound && svalue.denominator * 1 == svalue.denominator);
            if evalue is Ok {
                let e = evalue->Ok_0;
                assert forall|i: int| 0 <= i < e.numerators.len() implies e.numerators[i]
                    == svalue.numerators[i] by {
                    lemma_full_uptime(v, operator_uptime, n_ops as int, i as usize);
                    assert(e.numerators[i] == expected(v, 1, 0, n_ops as int, i as usize));
                    assert(v[i] == svalue.numerators[i]);
                }
                assert(e.numerators@ =~= svalue.numerators@);
            }
        }
    }
    evalue
}

/// The weight of a coalition of `s` operators among `n`, times `n!`: the
/// number of orders of all operators in which a given member comes last
/// among the coalition's members and before all others.
pub open spec fn weight(n: int, s: int) -> int {
    factorial_of(s - 1) * factorial_of(n - s)
}

/// What coalition `c` adds to the Shapley value of operator `k`, times
/// `n!`: where the coalition holds the operator, its weight times the value
/// that the operator brings to those without it; else nothing.
pub open spec fn marginal(e: Seq<int>, n: int, k: usize, c: usize) -> int {
    if has_bit(c, k) {
        weight(n, coalition_size(c, n)) * (e[c as int] - e[(c - bit(k)) as int])
    } else {
        0
    }
}

/// The sum of what the first `m` coalitions add to the Shapley value of
/// operator `k`, times `n!`.
pub open spec fn shapley_sum(e: Seq<int>, n: int, k: usize, m: int) -> int
    decreases m,
{
    if m <= 0 {
        0
    } else {
        shapley_sum(e, n, k, m - 1) + marginal(e, n, k, (m - 1) as usize)
    }
}

/// The Shapley value of operator `k` among `n`, times `n!` and the
/// denominator of the values `e`.
pub open spec fn shapley_numerator(e: Seq<int>, n: int, k: usize) -> int {
    shapley_sum(e, n, k, bit(n as usize) as int)
}

/// `x` where it is positive, else zero.
pub open spec fn positive_part(x: int) -> int {
    if x > 0 {
        x
    } else {
        0
    }
}

/// The sum of the positive Shapley numerators of the first `j` operators.
pub open spec fn positive_total(e: Seq<int>, n: int, j: int) -> int
    decreases j,
{
    if j <= 0 {
        0
    } else {
        positive_total(e, n, j - 1) + positive_part(shapley_numerator(e, n, (j - 1) as usize))
    }
}

/// A sum of positive parts is not negative.
pub proof fn lemma_positive_total_nonnegative(e: Seq<int>, n: int, j: int)
    ensures
        0 <= positive_total(e, n, j),
    decreases j,
{
    if j > 0 {
        lemma_positive_total_nonnegative(e, n, j - 1);
    }
}

/// The sum of the positive Shapley values grows with the number of
/// operators counted.
pub proof fn lemma_positive_total_grows(e: Seq<int>, n: int, j: int, l: int)
    requires
        0 <= j <= l,
    ensures
        positive_total(e, n, j) <= positive_total(e, n, l),
    decreases l - j,
{
    if j < l {
        lemma_positive_total_grows(e, n, j, l - 1);
    }
}

/// The positive part of one operator's Shapley numerator is at most the
/// sum of all of them.
pub proof fn lemma_positive_part_in_total(e: Seq<int>, n: int, k: int, j: int)
    requires
        0 <= k < j,
    ensures
        0 <= positive_part(shapley_numerator(e, n, k as usize)) <= positive_total(e, n, j),
        0 <= positive_total(e, n, j),
    decreases j,
{
    lemma_positive_total_nonnegative(e, n, j - 1);
    if k < j - 1 {
        lemma_positive_part_in_total(e, n, k, j - 1);
    }
}

/// The whole number nearest to `num / den`, for `num >= 0` and `den > 0`;
/// of two equally near ones the even one.
pub open spec fn nearest_even(num: int, den: int) -> int {
    let q = num / den;
    let r = num % den;
    if 2 * r < den {
        q
    } else if 2 * r > den {
        q + 1
    } else if q % 2 == 0 {
        q
    } else {
        q + 1
    }
}

/// The whole number nearest to `num / den`, for `den > 0`; of two equally
/// near ones the even one.
pub open spec fn rounded(num: int, den: int) -> int {
    if num >= 0 {
        nearest_even(num, den)
    } else {
        -nearest_even(-num, den)
    }
}

/// Rounding a fraction between zero and `k` gives a whole number between
/// zero and `k`.
pub proof fn lemma_nearest_even_bound(num: int, den: int, k: int)
    requires
        0 <= num <= k * den,
        0 < den,
    ensures
        0 <= nearest_even(num, den) <= k,
{
    lemma_fundamental_div_mod(num, den);
    lemma_mod_pos_bound(num, den);
    let q = num / den;
    let r = num % den;
    assert(0 <= q <= k && (q == k ==> r == 0)) by (nonlinear_arith)
        requires
            num == den * q + r,
            0 <= r < den,
            0 <= num <= k * den,
    ;
}

/// Rounding a fraction does not depend on how the fraction is written.
pub proof fn lemma_nearest_even_scales(num: int, den: int, m: int)
    requires
        0 <= num,
        0 < den,
        0 < m,
    ensures
        nearest_even(m * num, m * den) == nearest_even(num, den),
{
    lemma_truncate_middle(num, m, den);
    lemma_div_multiples_vanish_quotient(m, num, den);
    let r = num % den;
    assert(2 * (m * r) < m * den <==> 2 * r < den) by (nonlinear_arith)
        requires
            0 < m,
    ;
    assert(2 * (m * r) > m * den <==> 2 * r > den) by (nonlinear_arith)
        requires
            0 < m,
    ;
}

/// Rounding does not depend on how the fraction is written, whatever its
/// sign.
pub proof fn lemma_rounded_scales(num: int, den: int, m: int)
    requires
        0 < den,
        0 < m,
    ensures
        rounded(m * num, m * den) == rounded(num, den),
{
    if num >= 0 {
        lemma_nearest_even_scales(num, den, m);
        assert(m * num >= 0) by (nonlinear_arith)
            requires
                num >= 0,
                m > 0,
        ;
    } else {
        lemma_nearest_even_scales(-num, den, m);
        assert(m * num < 0 && -(m * num) == m * (-num)) by (nonlinear_arith)
            requires
                num < 0,
                m > 0,
        ;
    }
}

/// `value` to at most `places` decimal places: as it is where it has no
/// more, else rounded, half to even.
pub open spec fn with_places(value: Amount, places: int) -> Amount {
    if value.places() <= places {
        value
    } else {
        Amount::of(
            rounded(value.units(), pow(10, (value.places() - places) as nat)),
            places,
        )
    }
}

/// `value` to at most `places` decimal places: as it is where it has no
/// more, else rounded, half to even.
pub fn keep_places(value: Amount, places: u32) -> (kept: Amount)
    ensures
        kept == with_places(value, places as int),
        kept.places() <= value.places(),
        value.places() > places ==> kept.places() == places,
{
    let scale = value.scale();
    if scale <= places {
        return value;
    }
    let mantissa = value.mantissa();
    let den = power_of_ten(scale - places);
    let size = if mantissa < 0 {
        -mantissa
    } else {
        mantissa
    };
    let q = size / den;
    let r = size % den;
    proof {
        lemma_fundamental_div_mod(size as int, den as int);
        lemma_mod_pos_bound(size as int, den as int);
        assert(10 <= den) by {
            lemma_pow_increases(10, 1, (scale - places) as nat);
            reveal_with_fuel(pow, 2);
        }
        assert(0 <= q && q + 1 <= size + 1 && (q >= 1 ==> q + 1 <= size)) by (nonlinear_arith)
            requires
                size == den * q + r,
                0 <= r < den,
                0 <= size,
                den >= 10,
        ;
    }
    let up = 2 * r > den || (2 * r == den && q % 2 == 1);
    let nearest = if up {
        q + 1
    } else {
        q
    };
    assert(nearest == nearest_even(size as int, den as int));
    let units = if mantissa < 0 {
        -nearest
    } else {
        nearest
    };
    assert(units == rounded(mantissa as int, den as int));
    let kept = Amount::new(units, places);
    assert(kept is Some);
    kept.unwrap()
}

/// The largest whole part that a number rounded to four decimal places
/// can have and still fit an amount.
pub const MAX_WHOLE: i128 = 10_000_000_000_000_000_000_000_000;

/// One step of long division by `den`: the next decimal place of the
/// quotient `q` with remainder `r`.
fn next_place(q: i128, r: i128, den: i128, bound: i128) -> (next: (i128, i128))
    requires
        0 <= q <= bound,
        bound <= 1000 * MAX_WHOLE + 999,
        0 <= r < den,
        10 * den <= i128::MAX,
    ensures
        10 * (q * den + r) == next.0 * den + next.1,
        0 <= next.1 < den,
        0 <= next.0 <= 10 * bound + 9,
{
    proof {
        lemma_fundamental_div_mod(10 * r, den as int);
        lemma_mod_pos_bound(10 * r, den as int);
    }
    let digit = (10 * r) / den;
    let rest = (10 * r) % den;
    proof {
        assert(0 <= digit <= 9) by (nonlinear_arith)
            requires
                10 * r == den * digit + rest,
                0 <= rest < den,
                0 <= r < den,
        ;
        assert(10 * (q * den + r) == (10 * q + digit) * den + rest) by (nonlinear_arith)
            requires
                10 * r == den * digit + rest,
        ;
    }
    (10 * q + digit, rest)
}

/// `num / den` to four decimal places, in units of `0.0001`: the whole
/// number nearest to `10000 * num / den`, of two equally near ones the even
/// one. `None` where it is too large for an amount.
pub fn round_to_places(num: i128, den: i128) -> (nearest: Option<i128>)
    requires
        den > 0,
        10 * den <= i128::MAX,
        num > i128::MIN,
    ensures
        nearest is Some <==> magnitude(num as int) / (den as int) <= MAX_WHOLE,
        match nearest {
            Some(units) => units == rounded(10000 * num, den as int),
            None => !representable(rounded(10000 * num, den as int), 4),
        },
{
    let size = if num < 0 {
        -num
    } else {
        num
    };
    proof {
        lemma_fundamental_div_mod(size as int, den as int);
        lemma_mod_pos_bound(size as int, den as int);
    }
    let q0 = size / den;
    let r0 = size % den;
    proof {
        assert(0 <= q0 <= size) by (nonlinear_arith)
            requires
                size == den * q0 + r0,
                0 <= r0 < den,
                0 <= size,
                den > 0,
        ;
    }
    let ghost whole = 10000 * size;
    if q0 > MAX_WHOLE {
        proof {
            lemma_fundamental_div_mod(whole, den as int);
            lemma_mod_pos_bound(whole, den as int);
            let q = whole / (den as int);
            let r = whole % (den as int);
            assert(q >= 10000 * q0) by (nonlinear_arith)
                requires
                    whole == den * q + r,
                    0 <= r < den,
                    whole == 10000 * (den * q0 + r0),
                    0 <= r0,
                    den > 0,
            ;
            assert(nearest_even(whole, den as int) >= q);
            assert(-(10000 * num) == 10000 * (-num)) by (nonlinear_arith);
        }
        return None;
    }
    // One decimal place after the other, by long division.
    let (q1, r1) = next_place(q0, r0, den, MAX_WHOLE);
    let (q2, r2) = next_place(q1, r1, den, 10 * MAX_WHOLE + 9);
    let (q3, r3) = next_place(q2, r2, den, 100 * MAX_WHOLE + 99);
    let (q4, r4) = next_place(q3, r3, den, 1000 * MAX_WHOLE + 999);
    proof {
        assert(10000 * size == q4 * den + r4) by (nonlinear_arith)
            requires
                size == den * q0 + r0,
                10 * (q0 * den + r0) == q1 * den + r1,
                10 * (q1 * den + r1) == q2 * den + r2,
                10 * (q2 * den + r2) == q3 * den + r3,
                10 * (q3 * den + r3) == q4 * den + r4,
        ;
        lemma_fundamental_div_mod_converse(whole, den as int, q4 as int, r4 as int);
        assert(-(10000 * num) == 10000 * (-num)) by (nonlinear_arith);
    }
    let rest = den - r4;
    let up = if r4 < rest {
        false
    } else if r4 > rest {
        true
    } else {
        q4 % 2 != 0
    };
    let nearest = if up {
        q4 + 1
    } else {
        q4
    };
    if num < 0 {
        Some(-nearest)
    } else {
        Some(nearest)
    }
}

/// The Shapley value of operator `k` in units of `0.0001`, rounded.
pub open spec fn value_units(e: Seq<int>, denominator: int, n: int, k: usize) -> int {
    rounded(10000 * shapley_numerator(e, n, k), denominator * factorial_of(n))
}

/// The share of operator `k` in the sum of the positive Shapley values, in
/// units of `0.0001`, rounded; zero for all where no value is positive.
pub open spec fn percent_units(e: Seq<int>, n: int, k: usize) -> int {
    let total = positive_total(e, n, n);
    if total > 0 {
        rounded(10000 * positive_part(shapley_numerator(e, n, k)), total)
    } else {
        0
    }
}

/// The product of two factorials is at most the factorial of the sum.
pub proof fn lemma_factorial_product(a: int, b: int)
    requires
        0 <= a,
        0 <= b,
    ensures
        1 <= factorial_of(a) * factorial_of(b) <= factorial_of(a + b),
    decreases b,
{
    lemma_factorial_positive(a);
    lemma_factorial_positive(b);
    lemma_factorial_positive(a + b);
    if b > 0 {
        lemma_factorial_product(a, b - 1);
        lemma_factorial_positive(b - 1);
        let x = factorial_of(a);
        let y = factorial_of(b - 1);
        let z = factorial_of(a + b - 1);
        assert(x * (b * y) <= (a + b) * z) by (nonlinear_arith)
            requires
                1 <= x * y <= z,
                0 <= a,
                1 <= b,
                1 <= x,
                1 <= y,
        ;
        assert(x * (b * y) >= 1) by (nonlinear_arith)
            requires
                1 <= x,
                1 <= y,
                1 <= b,
        ;
    } else {
        assert(factorial_of(a) * 1 == factorial_of(a)) by (nonlinear_arith);
    }
}

/// A coalition that holds one of the first `n` operators holds at least one
/// of them.
pub proof fn lemma_member_counts(c: usize, k: usize, n: int)
    requires
        k < n,
        has_bit(c, k),
    ensures
        1 <= coalition_size(c, n) <= n,
    decreases n,
{
    lemma_coalition_size_bound(c, n);
    lemma_coalition_size_bound(c, n - 1);
    if k < n - 1 {
        lemma_member_counts(c, k, n - 1);
    }
}

/// The greatest common divisor of the weights of the coalitions of one to
/// `s` operators among `n`.
pub open spec fn weight_gcd(n: int, s: int) -> int
    decreases s,
{
    if s <= 0 {
        0
    } else {
        gcd(weight(n, s), weight_gcd(n, s - 1))
    }
}

/// The weight of a coalition of `s` operators among `n`, with what all
/// weights have in common taken out.
pub open spec fn reduced_weight(n: int, s: int) -> int {
    weight(n, s) / weight_gcd(n, n)
}

/// What all weights have in common divides each of them, and is positive.
pub proof fn lemma_weight_gcd(n: int, s: int, j: int)
    requires
        1 <= j <= s <= n,
    ensures
        weight_gcd(n, s) >= 1,
        weight(n, j) >= 1,
        weight(n, j) % weight_gcd(n, s) == 0,
    decreases s,
{
    lemma_factorial_product(s - 1, n - s);
    lemma_factorial_product(j - 1, n - j);
    if s == 1 {
        assert(weight_gcd(n, 0) == 0);
        assert(gcd(weight(n, 1), 0) == weight(n, 1));
        lemma_mod_multiples_basic(1, weight(n, 1));
        assert(1 * weight(n, 1) == weight(n, 1));
    } else {
        lemma_weight_gcd(n, s - 1, if j < s {
            j
        } else {
            1
        });
        lemma_gcd_divides(weight(n, s), weight_gcd(n, s - 1));
        if j < s {
            lemma_divides_transitive(weight(n, j), weight_gcd(n, s - 1), weight_gcd(n, s));
        }
    }
}

/// The weights of the coalitions of one to `n` operators with what they
/// have in common taken out, and `n!` with the same taken out.
fn reduced_weights(n: usize) -> (weights: (Vec<i128>, i128))
    requires
        1 <= n <= FACTORIAL_LIMIT,
    ensures
        weight_gcd(n as int, n as int) >= 1,
        weights.0.len() == n,
        forall|s: int|
            1 <= s <= n ==> #[trigger] weights.0[s - 1] == reduced_weight(n as int, s) && weights.0[s
                - 1] >= 1 && weights.0[s - 1] * weight_gcd(n as int, n as int) == weight(
                n as int,
                s,
            ),
        weights.1 == factorial_of(n as int) / weight_gcd(n as int, n as int),
        weights.1 >= 1,
        weights.1 * weight_gcd(n as int, n as int) == factorial_of(n as int),
{
    let mut factorials: Vec<i128> = Vec::new();
    let mut f: usize = 0;
    while f <= n
        invariant
            f <= n + 1,
            n <= FACTORIAL_LIMIT,
            factorials.len() == f,
            forall|a: int| 0 <= a < f ==> #[trigger] factorials[a] == factorial_of(a),
        decreases n + 1 - f,
    {
        factorials.push(factorial(f) as i128);
        f += 1;
    }
    let mut plain: Vec<i128> = Vec::new();
    let mut common: i128 = 0;
    let mut s: usize = 1;
    while s <= n
        invariant
            1 <= s <= n + 1,
            1 <= n <= FACTORIAL_LIMIT,
            factorials.len() == n + 1,
            forall|a: int| 0 <= a <= n ==> #[trigger] factorials[a] == factorial_of(a),
            plain.len() == s - 1,
            forall|a: int| 1 <= a < s ==> #[trigger] plain[a - 1] == weight(n as int, a),
            common == weight_gcd(n as int, s - 1),
            0 <= common,
        decreases n + 1 - s,
    {
        proof {
            lemma_factorial_product(s as int - 1, n as int - s as int);
            lemma_factorial_monotonic(n as int - 1, FACTORIAL_LIMIT as int);
            lemma_factorial_upto_limit();
            lemma_weight_gcd(n as int, s as int, s as int);
        }
        let w = factorials[s - 1] * factorials[n - s];
        plain.push(w);
        common = greatest_common_divisor(w, common);
        s += 1;
    }
    let mut reduced: Vec<i128> = Vec::new();
    let mut t: usize = 1;
    proof {
        lemma_weight_gcd(n as int, n as int, 1);
    }
    while t <= n
        invariant
            1 <= t <= n + 1,
            1 <= n <= FACTORIAL_LIMIT,
            plain.len() == n,
            forall|a: int| 1 <= a <= n ==> #[trigger] plain[a - 1] == weight(n as int, a),
            common == weight_gcd(n as int, n as int),
            common >= 1,
            reduced.len() == t - 1,
            forall|a: int|
                1 <= a < t ==> #[trigger] reduced[a - 1] == reduced_weight(n as int, a)
                    && reduced[a - 1] >= 1 && reduced[a - 1] * common == weight(n as int, a),
        decreases n + 1 - t,
    {
        proof {
            lemma_weight_gcd(n as int, n as int, t as int);
            lemma_multiple_divides(1, weight(n as int, t as int), common as int);
            let w = weight(n as int, t as int);
            let x = w / (common as int);
            assert(x >= 1 && x * common == w) by (nonlinear_arith)
                requires
                    w == common * x,
                    w >= 1,
                    common >= 1,
            ;
        }
        reduced.push(plain[t - 1] / common);
        t += 1;
    }
    proof {
        // `n!` is `n` times the weight of the grand coalition.
        lemma_weight_gcd(n as int, n as int, n as int);
        let last = weight(n as int, n as int);
        assert(factorial_of(0) == 1);
        assert(last == factorial_of(n as int - 1)) by (nonlinear_arith)
            requires
                last == factorial_of(n as int - 1) * 1,
        ;
        assert(factorial_of(n as int) == n * last);
        lemma_multiple_divides(n as int, last, common as int);
        lemma_multiple_divides(1, factorial_of(n as int), common as int);
        lemma_factorial_positive(n as int);
        let x = factorial_of(n as int) / (common as int);
        assert(x >= 1 && x * common == factorial_of(n as int)) by (nonlinear_arith)
            requires
                factorial_of(n as int) == common * x,
                factorial_of(n as int) >= 1,
                common >= 1,
        ;
        lemma_factorial_monotonic(n as int, FACTORIAL_LIMIT as int);
        lemma_factorial_upto_limit();
    }
    let share = factorials[n] / common;
    (reduced, share)
}

/// What coalition `c` can add at most, in absolute value, to the Shapley
/// value of operator `k`, in reduced weights.
pub open spec fn burden(e: Seq<int>, n: int, k: usize, c: usize) -> int {
    if has_bit(c, k) {
        reduced_weight(n, coalition_size(c, n)) * (magnitude(e[c as int]) + magnitude(
            e[(c - bit(k)) as int],
        ))
    } else {
        0
    }
}

/// The sum of what the first `m` coalitions can add at most to the
/// Shapley value of operator `k`, in reduced weights.
pub open spec fn shapley_load(e: Seq<int>, n: int, k: usize, m: int) -> int
    decreases m,
{
    if m <= 0 {
        0
    } else {
        shapley_load(e, n, k, m - 1) + burden(e, n, k, (m - 1) as usize)
    }
}

/// The load grows with the number of coalitions counted.
pub proof fn lemma_load_grows(e: Seq<int>, n: int, k: usize, m: int, l: int)
    requires
        1 <= n,
        k < n,
        0 <= m <= l,
    ensures
        0 <= shapley_load(e, n, k, m) <= shapley_load(e, n, k, l),
    decreases l,
{
    if l > 0 {
        if m < l {
            lemma_load_grows(e, n, k, m, l - 1);
        } else {
            lemma_load_grows(e, n, k, m - 1, l - 1);
        }
        let c = (l - 1) as usize;
        if has_bit(c, k) {
            lemma_member_counts(c, k, n);
            let s = coalition_size(c, n);
            lemma_weight_gcd(n, n, s);
            lemma_multiple_divides(1, weight(n, s), weight_gcd(n, n));
            let w = reduced_weight(n, s);
            let x = magnitude(e[c as int]) + magnitude(e[c - bit(k)]);
            assert(weight(n, s) == weight_gcd(n, n) * w);
            assert(w >= 1) by (nonlinear_arith)
                requires
                    weight(n, s) == weight_gcd(n, n) * w,
                    weight(n, s) >= 1,
                    weight_gcd(n, n) >= 1,
            ;
            assert(0 <= w * x) by (nonlinear_arith)
                requires
                    w >= 1,
                    x >= 0,
            ;
        }
    }
}

/// The Shapley values of `n` operators stay within `i128`, and what is
/// reported fits an amount: with what all weights have in common taken
/// out, the sums of the absolute contributions fit, ten times the
/// divisors fit, and so do the rounded values.
pub open spec fn shapley_fits(e: Seq<int>, denominator: int, n: int) -> bool {
    let common = weight_gcd(n, n);
    &&& forall|k: int|
        0 <= k < n ==> #[trigger] shapley_load(e, n, k as usize, bit(n as usize) as int)
            <= i128::MAX
    &&& 10 * (denominator * (factorial_of(n) / common)) <= i128::MAX
    &&& 10 * (positive_total(e, n, n) / common) <= i128::MAX
    &&& forall|k: int|
        0 <= k < n ==> representable(#[trigger] value_units(e, denominator, n, k as usize), 4)
}

/// The number of operators that each coalition of `n_ops` holds.
fn coalition_sizes(n_ops: usize) -> (sizes: Vec<usize>)
    requires
        n_ops <= MAX_BITS,
    ensures
        sizes.len() == bit(n_ops),
        forall|c: int|
            0 <= c < sizes.len() ==> #[trigger] sizes[c] == coalition_size(c as usize, n_ops as int),
{
    let total = single(n_ops);
    let mut sizes: Vec<usize> = Vec::new();
    let mut c: usize = 0;
    while c < total
        invariant
            c <= total,
            n_ops <= MAX_BITS,
            sizes.len() == c,
            forall|a: int|
                0 <= a < c ==> #[trigger] sizes[a] == coalition_size(a as usize, n_ops as int),
        decreases total - c,
    {
        let mut count: usize = 0;
        let mut i: usize = 0;
        while i < n_ops
            invariant
                i <= n_ops,
                n_ops <= MAX_BITS,
                count == coalition_size(c, i as int),
                count <= i,
            decreases n_ops - i,
        {
            if holds(c, i) {
                count += 1;
            }
            i += 1;
        }
        sizes.push(count);
        c += 1;
    }
    sizes
}

/// The sum of the absolute values of two numbers, or `None` where it
/// leaves `i128`.
fn magnitude_sum(a: i128, b: i128) -> (sum: Option<i128>)
    ensures
        match sum {
            Some(s) => s == magnitude(a as int) + magnitude(b as int),
            None => magnitude(a as int) + magnitude(b as int) > i128::MAX,
        },
{
    if a == i128::MIN || b == i128::MIN {
        return None;
    }
    let x = if a < 0 {
        -a
    } else {
        a
    };
    let y = if b < 0 {
        -b
    } else {
        b
    };
    x.checked_add(y)
}

/// The Shapley numerator of operator `k` with what all weights have in
/// common taken out; `None` where the sum of the absolute contributions
/// leaves `i128`.
fn operator_numerator(
    evalue: &ValueTable,
    sizes: &Vec<usize>,
    reduced: &Vec<i128>,
    n: usize,
    k: usize,
) -> (numerator: Option<i128>)
    requires
        k < n,
        1 <= n <= FACTORIAL_LIMIT,
        evalue.numerators.len() == bit(n),
        sizes.len() == bit(n),
        forall|c: int|
            0 <= c < sizes.len() ==> #[trigger] sizes[c] == coalition_size(c as usize, n as int),
        weight_gcd(n as int, n as int) >= 1,
        reduced.len() == n,
        forall|s: int|
            1 <= s <= n ==> #[trigger] reduced[s - 1] == reduced_weight(n as int, s) && reduced[s
                - 1] >= 1 && reduced[s - 1] * weight_gcd(n as int, n as int) == weight(n as int, s),
    ensures
        match numerator {
            Some(t) => {
                &&& t * weight_gcd(n as int, n as int) == shapley_numerator(
                    ints(evalue.numerators@),
                    n as int,
                    k,
                )
                &&& shapley_load(ints(evalue.numerators@), n as int, k, bit(n) as int) <= i128::MAX
                &&& t > i128::MIN
            },
            None => shapley_load(ints(evalue.numerators@), n as int, k, bit(n) as int) > i128::MAX,
        },
{
    let ghost e = ints(evalue.numerators@);
    let ghost common = weight_gcd(n as int, n as int);
    let size = single(n);
    let stride = single(k);
    let mut total: i128 = 0;
    let mut load: i128 = 0;
    let mut c: usize = 0;
    proof {
        assert(0 * common == 0);
    }
    while c < size
        invariant
            c <= size,
            k < n,
            1 <= n <= FACTORIAL_LIMIT,
            stride == bit(k),
            size == bit(n),
            e == ints(evalue.numerators@),
            e.len() == size,
            evalue.numerators.len() == size,
            sizes.len() == size,
            forall|a: int|
                0 <= a < size ==> #[trigger] sizes[a] == coalition_size(a as usize, n as int),
            common == weight_gcd(n as int, n as int),
            common >= 1,
            reduced.len() == n,
            forall|s: int|
                1 <= s <= n ==> #[trigger] reduced[s - 1] == reduced_weight(n as int, s) && reduced[s
                    - 1] >= 1 && reduced[s - 1] * common == weight(n as int, s),
            total * common == shapley_sum(e, n as int, k, c as int),
            load == shapley_load(e, n as int, k, c as int),
            0 <= load,
            magnitude(total as int) <= load,
        decreases size - c,
    {
        if holds(c, k) {
            proof {
                lemma_member_index(c, k);
                lemma_member_counts(c, k, n as int);
                lemma_load_grows(e, n as int, k, c + 1, size as int);
            }
            let s = sizes[c];
            let w = reduced[s - 1];
            let with = evalue.numerators[c];
            let without = evalue.numerators[c - stride];
            proof {
                assert(e[c as int] == with);
                assert(e[c - stride] == without);
                assert(reduced[s as int - 1] == reduced_weight(n as int, s as int));
            }
            let extent = match magnitude_sum(with, without) {
                Some(x) => x,
                None => {
                    proof {
                        let m = magnitude(with as int) + magnitude(without as int);
                        assert(w * m >= m) by (nonlinear_arith)
                            requires
                                w >= 1,
                                m >= 0,
                        ;
                    }
                    return None;
                },
            };
            let burden = match w.checked_mul(extent) {
                Some(b) => b,
                None => {
                    return None;
                },
            };
            let next_load = match load.checked_add(burden) {
                Some(l) => l,
                None => {
                    return None;
                },
            };
            proof {
                let d = with as int - without as int;
                assert(-extent <= d <= extent);
                assert(-(w * extent) <= w * d <= w * extent) by (nonlinear_arith)
                    requires
                        w >= 1,
                        -extent <= d <= extent,
                ;
                assert((total + w * d) * common == total * common + (w * common) * d)
                    by (nonlinear_arith);
                assert(0 <= w * extent) by (nonlinear_arith)
                    requires
                        w >= 1,
                        0 <= extent,
                ;
            }
            let gain = with - without;
            total = total + w * gain;
            load = next_load;
        }
        c += 1;
    }
    Some(total)
}

/// The sum of the positive numerators, or `None` where it leaves `i128`.
fn positive_sum(numerators: &Vec<i128>, evalue: &ValueTable, n: usize) -> (sum: Option<i128>)
    requires
        n >= 1,
        numerators.len() == n,
        weight_gcd(n as int, n as int) >= 1,
        forall|a: int|
            0 <= a < n ==> (#[trigger] numerators[a]) * weight_gcd(n as int, n as int)
                == shapley_numerator(ints(evalue.numerators@), n as int, a as usize),
    ensures
        match sum {
            Some(t) => t >= 0 && t == positive_total(ints(evalue.numerators@), n as int, n as int) / weight_gcd(
                n as int,
                n as int,
            ) && t * weight_gcd(n as int, n as int) == positive_total(ints(evalue.numerators@), n as int, n as int),
            None => positive_total(ints(evalue.numerators@), n as int, n as int) / weight_gcd(n as int, n as int)
                > i128::MAX,
        },
{
    let ghost common = weight_gcd(n as int, n as int);
    let mut positive: i128 = 0;
    let mut j: usize = 0;
    proof {
        assert(0 * common == 0);
    }
    while j < n
        invariant
            j <= n,
            numerators.len() == n,
            common >= 1,
            common == weight_gcd(n as int, n as int),
            forall|a: int|
                0 <= a < n ==> (#[trigger] numerators[a]) * common == shapley_numerator(
                    ints(evalue.numerators@),
                    n as int,
                    a as usize,
                ),
            positive * common == positive_total(ints(evalue.numerators@), n as int, j as int),
            0 <= positive,
        decreases n - j,
    {
        proof {
            let x = numerators[j as int] as int;
            assert(x * common == shapley_numerator(ints(evalue.numerators@), n as int, j));
            assert(x * common > 0 <==> x > 0) by (nonlinear_arith)
                requires
                    common >= 1,
            ;
            assert((positive + x) * common == positive * common + x * common)
                by (nonlinear_arith);
        }
        if numerators[j] > 0 {
            positive =
            match positive.checked_add(numerators[j]) {
                Some(p) => p,
                None => {
                    proof {
                        let reached = positive_total(ints(evalue.numerators@), n as int, j + 1);
                        lemma_positive_total_grows(ints(evalue.numerators@), n as int, j + 1, n as int);
                        let all = positive_total(ints(evalue.numerators@), n as int, n as int);
                        let share_of_all = all / common;
                        lemma_fundamental_div_mod(all, common);
                        lemma_mod_pos_bound(all, common);
                        assert(share_of_all > i128::MAX) by (nonlinear_arith)
                            requires
                                all == common * share_of_all + all % common,
                                0 <= all % common < common,
                                all >= reached,
                                reached == (positive + numerators[j as int]) * common,
                                positive + numerators[j as int] > i128::MAX,
                                common >= 1,
                        ;
                    }
                    return None;
                },
            };
        }
        j += 1;
    }
    proof {
        assert(positive * common == common * positive) by (nonlinear_arith);
        lemma_fundamental_div_mod_converse(
            positive_total(ints(evalue.numerators@), n as int, n as int),
            common,
            positive as int,
            0,
        );
    }
    Some(positive)
}

/// The rounded Shapley value and share of each operator.
fn rounded_values(operators: &[String], evalue: &ValueTable) -> (values: Result<
    Vec<ShapleyValue>,
    ShapleyError,
>)
    ensures
        operators.len() == 0 ==> values is Ok,
        operators.len() > 0 ==> {
            &&& values is Ok <==> {
                &&& operators.len() <= FACTORIAL_LIMIT
                &&& is_value_table(evalue, operators.len())
                &&& shapley_fits(
                    ints(evalue.numerators@),
                    evalue.denominator as int,
                    operators.len() as int,
                )
            }
            &&& values is Err ==> values->Err_0 is ComputationError
        },
        values is Ok ==> {
            let found = values->Ok_0;
            let e = ints(evalue.numerators@);
            let n = operators.len() as int;
            &&& found.len() == n
            &&& forall|k: int|
                0 <= k < n ==> {
                    &&& (#[trigger] found[k]).operator@ == operators[k]@
                    &&& found[k].value == Amount::of(
                        value_units(e, evalue.denominator as int, n, k as usize),
                        4,
                    )
                    &&& found[k].percent == Amount::of(percent_units(e, n, k as usize), 4)
                    &&& 0 <= percent_units(e, n, k as usize) <= 10000
                }
        },
{
    let n = operators.len();
    if n == 0 {
        return Ok(Vec::new());
    }
    if n > FACTORIAL_LIMIT {
        return Err(ShapleyError::ComputationError(String::from_str("too many operators")));
    }
    let size = single(n);
    if evalue.numerators.len() != size || evalue.denominator <= 0 {
        return Err(
            ShapleyError::ComputationError(
                String::from_str("the value table does not fit the number of operators"),
            ),
        );
    }
    let ghost e = ints(evalue.numerators@);
    let ghost den = evalue.denominator as int;
    let ghost common = weight_gcd(n as int, n as int);
    let (reduced, share) = reduced_weights(n);
    let divisor = match evalue.denominator.checked_mul(share) {
        Some(d) => d,
        None => {
            proof {
                let x = den * share;
                assert(10 * x >= x) by (nonlinear_arith)
                    requires
                        x == den * share,
                        den > 0,
                        share >= 1,
                ;
            }
            return Err(
                ShapleyError::ComputationError(
                    String::from_str("the denominator of the Shapley values is too large"),
                ),
            );
        },
    };
    if divisor.checked_mul(10).is_none() {
        return Err(
            ShapleyError::ComputationError(
                String::from_str("the denominator of the Shapley values is too large"),
            ),
        );
    }
    proof {
        assert(divisor > 0 && divisor * common == den * factorial_of(n as int))
            by (nonlinear_arith)
            requires
                divisor == den * share,
                share * common == factorial_of(n as int),
                den > 0,
                share >= 1,
        ;
    }
    let sizes = coalition_sizes(n);
    let mut numerators: Vec<i128> = Vec::new();
    let mut k: usize = 0;
    while k < n
        invariant
            k <= n,
            1 <= n <= FACTORIAL_LIMIT,
            n == operators.len(),
            is_value_table(evalue, n),
            size == bit(n),
            e == ints(evalue.numerators@),
            evalue.numerators.len() == size,
            sizes.len() == size,
            forall|c: int|
                0 <= c < size ==> #[trigger] sizes[c] == coalition_size(c as usize, n as int),
            common == weight_gcd(n as int, n as int),
            common >= 1,
            reduced.len() == n,
            forall|s: int|
                1 <= s <= n ==> #[trigger] reduced[s - 1] == reduced_weight(n as int, s)
                    && reduced[s - 1] >= 1 && reduced[s - 1] * common == weight(n as int, s),
            numerators.len() == k,
            forall|a: int|
                0 <= a < k ==> (#[trigger] numerators[a]) * common == shapley_numerator(
                    e,
                    n as int,
                    a as usize,
                ) && numerators[a] > i128::MIN,
            forall|a: int|
                0 <= a < k ==> #[trigger] shapley_load(e, n as int, a as usize, size as int)
                    <= i128::MAX,
        decreases n - k,
    {
        match operator_numerator(evalue, &sizes, &reduced, n, k) {
            Some(t) => {
                numerators.push(t);
            },
            None => {
                assert(shapley_load(e, n as int, k as int as usize, bit(n) as int) > i128::MAX);
                return Err(
                    ShapleyError::ComputationError(
                        String::from_str("a Shapley value is too large"),
                    ),
                );
            },
        }
        k += 1;
    }
    let positive = match positive_sum(&numerators, evalue, n) {
        Some(p) => p,
        None => {
            return Err(
                ShapleyError::ComputationError(
                    String::from_str("the sum of the Shapley values is too large"),
                ),
            );
        },
    };
    if positive.checked_mul(10).is_none() {
        return Err(
            ShapleyError::ComputationError(
                String::from_str("the sum of the Shapley values is too large"),
            ),
        );
    }
    let mut found: Vec<ShapleyValue> = Vec::new();
    let mut r: usize = 0;
    while r < n
        invariant
            r <= n,
            1 <= n <= FACTORIAL_LIMIT,
            n == operators.len(),
            is_value_table(evalue, n),
            e == ints(evalue.numerators@),
            den == evalue.denominator,
            numerators.len() == n,
            common >= 1,
            common == weight_gcd(n as int, n as int),
            divisor > 0,
            10 * divisor <= i128::MAX,
            divisor * common == den * factorial_of(n as int),
            forall|a: int|
                0 <= a < n ==> (#[trigger] numerators[a]) * common == shapley_numerator(
                    e,
                    n as int,
                    a as usize,
                ) && numerators[a] > i128::MIN,
            positive * common == positive_total(e, n as int, n as int),
            0 <= positive,
            10 * positive <= i128::MAX,
            found.len() == r,
            forall|a: int|
                0 <= a < r ==> {
                    &&& (#[trigger] found[a]).operator@ == operators[a]@
                    &&& found[a].value == Amount::of(value_units(e, den, n as int, a as usize), 4)
                    &&& found[a].percent == Amount::of(percent_units(e, n as int, a as usize), 4)
                    &&& 0 <= percent_units(e, n as int, a as usize) <= 10000
                    &&& representable(value_units(e, den, n as int, a as usize), 4)
                },
        decreases n - r,
    {
        let numerator = numerators[r];
        proof {
            let x = numerator as int;
            let full = shapley_numerator(e, n as int, r);
            assert(numerators[r as int] * common == full);
            lemma_rounded_scales(10000 * x, divisor as int, common);
            assert(common * (10000 * x) == 10000 * full) by (nonlinear_arith)
                requires
                    x * common == full,
            ;
            assert(common * divisor == den * factorial_of(n as int)) by (nonlinear_arith)
                requires
                    divisor * common == den * factorial_of(n as int),
            ;
        }
        let units = match round_to_places(numerator, divisor) {
            Some(u) => u,
            None => {
                assert(!representable(value_units(e, den, n as int, r as int as usize), 4));
                return Err(
                    ShapleyError::ComputationError(
                        String::from_str("a Shapley value is too large to report"),
                    ),
                );
            },
        };
        assert(units == value_units(e, den, n as int, r));
        let value = match Amount::new(units, 4) {
            Some(v) => v,
            None => {
                assert(!representable(value_units(e, den, n as int, r as int as usize), 4));
                return Err(
                    ShapleyError::ComputationError(
                        String::from_str("a Shapley value is too large to report"),
                    ),
                );
            },
        };
        let gain = if numerator > 0 {
            numerator
        } else {
            0
        };
        proof {
            let x = numerator as int;
            let full = shapley_numerator(e, n as int, r);
            assert(x * common > 0 <==> x > 0) by (nonlinear_arith)
                requires
                    common >= 1,
            ;
            assert(gain * common == positive_part(full)) by {
                assert(0 * common == 0);
            }
            lemma_positive_part_in_total(e, n as int, r as int, n as int);
            assert(gain <= positive) by (nonlinear_arith)
                requires
                    gain * common <= positive * common,
                    common >= 1,
            ;
        }
        let share_units = if positive > 0 {
            proof {
                lemma_rounded_scales(10000 * gain, positive as int, common);
                assert(common * (10000 * gain) == 10000 * (gain * common)) by (nonlinear_arith);
                assert(common * positive == positive * common) by (nonlinear_arith);
                assert(0 <= 10000 * gain <= 10000 * positive) by (nonlinear_arith)
                    requires
                        0 <= gain <= positive,
                ;
                lemma_nearest_even_bound(10000 * gain, positive as int, 10000);
                assert(positive * common > 0) by (nonlinear_arith)
                    requires
                        positive > 0,
                        common >= 1,
                ;
            }
            match round_to_places(gain, positive) {
                Some(u) => u,
                None => 0,
            }
        } else {
            proof {
                assert(positive * common == 0) by (nonlinear_arith)
                    requires
                        positive == 0,
                ;
            }
            0
        };
        assert(share_units == percent_units(e, n as int, r));
        let percent = Amount::new(share_units, 4).unwrap();
        let ghost earlier = found@;
        let entry = ShapleyValue { operator: operators[r].clone(), value, percent };
        found.push(entry);
        proof {
            assert(found@ == earlier.push(entry));
            assert forall|a: int| 0 <= a < r + 1 implies {
                &&& (#[trigger] found[a]).operator@ == operators[a]@
                &&& found[a].value == Amount::of(value_units(e, den, n as int, a as usize), 4)
                &&& found[a].percent == Amount::of(percent_units(e, n as int, a as usize), 4)
                &&& 0 <= percent_units(e, n as int, a as usize) <= 10000
                &&& representable(value_units(e, den, n as int, a as usize), 4)
            } by {
                if a < r {
                    assert(found[a] == earlier[a]);
                } else {
                    assert(found[a] == entry);
                    assert(a as usize == r);
                }
            }
        }
        r += 1;
    }
    proof {
        assert forall|a: int| 0 <= a < n implies representable(
            #[trigger] value_units(e, den, n as int, a as usize),
            4,
        ) by {
            assert(found[a].operator@ == operators[a]@);
        }
    }
    Ok(found)
}

/// The Shapley value of each operator from the expected values of all
/// coalitions, and its share of the positive values. Operator `k` of
/// `operators` is bit `k` of the coalition index. Both numbers are rounded,
/// half to even, to four decimal places; the shares are rounded one by one,
/// so their sum may miss one by a few ten-thousandths. With no operator
/// the result is empty. Fails where the table does not have `2^n` values
/// and a positive denominator, where there are more than twenty operators,
/// or where a number would leave its range.
///
/// Of what is returned it holds besides: an operator that changes the
/// worth of no coalition gets the value and the share zero; two operators
/// that no coalition tells apart get the same value and the same share;
/// the shares are all zero where no value is positive, and else sum to one
/// up to half a unit of `0.0001` for each operator; and the values sum to
/// what the grand coalition is worth more than the empty one, up to half
/// such a unit for each operator.
pub fn calculate_shapley_values(operators: &[String], evalue: &ValueTable) -> (values: Result<
    Vec<ShapleyValue>,
    ShapleyError,
>)
    ensures
        operators.len() == 0 ==> values is Ok,
        operators.len() > 0 ==> {
            &&& values is Ok <==> {
                &&& operators.len() <= FACTORIAL_LIMIT
                &&& is_value_table(evalue, operators.len())
                &&& shapley_fits(
                    ints(evalue.numerators@),
                    evalue.denominator as int,
                    operators.len() as int,
                )
            }
            &&& values is Err ==> values->Err_0 is ComputationError
        },
        values is Ok ==> {
            let found = values->Ok_0;
            let e = ints(evalue.numerators@);
            let n = operators.len() as int;
            &&& found.len() == n
            &&& forall|k: int|
                0 <= k < n ==> {
                    &&& (#[trigger] found[k]).operator@ == operators[k]@
                    &&& found[k].value == Amount::of(
                        value_units(e, evalue.denominator as int, n, k as usize),
                        4,
                    )
                    &&& found[k].value.units() == value_units(
                        e,
                        evalue.denominator as int,
                        n,
                        k as usize,
                    )
                    &&& found[k].value.places() == 4
                    &&& found[k].percent == Amount::of(percent_units(e, n, k as usize), 4)
                    &&& found[k].percent.units() == percent_units(e, n, k as usize)
                    &&& found[k].percent.places() == 4
                    &&& 0 <= percent_units(e, n, k as usize) <= 10000
                }
        },
        values is Ok ==> {
            let found = values->Ok_0;
            let e = ints(evalue.numerators@);
            let n = operators.len() as int;
            let d = evalue.denominator as int;
            &&& forall|k: int|
                0 <= k < n && is_null_operator(e, k as usize) ==> (#[trigger] found[k]).value.units()
                    == 0 && found[k].percent.units() == 0
            &&& forall|a: int, b: int|
                0 <= a < n && 0 <= b < n && are_alike(e, a as usize, b as usize) ==> (
                #[trigger] found[a]).value == (#[trigger] found[b]).value && found[a].percent
                    == found[b].percent
            &&& positive_total(e, n, n) <= 0 ==> forall|k: int|
                0 <= k < n ==> (#[trigger] found[k]).percent.units() == 0
            &&& positive_total(e, n, n) > 0 ==> -n <= 2 * (percent_total(e, n, n) - 10000) <= n
            &&& n > 0 ==> -n * d <= 2 * (value_total(e, d, n, n) * d - 10000 * (e[bit(
                n as usize,
            ) - 1] - e[0])) <= n * d
        },
{
    let values = rounded_values(operators, evalue);
    proof {
        let e = ints(evalue.numerators@);
        let n = operators.len() as int;
        let d = evalue.denominator as int;
        if values is Ok && n > 0 {
            let found = values->Ok_0;
            assert forall|k: int| 0 <= k < n implies (#[trigger] found[k]).value.units()
                == value_units(e, d, n, k as usize) && found[k].value.places() == 4
                && found[k].percent.units() == percent_units(e, n, k as usize)
                && found[k].percent.places() == 4 by {
                assert(found[k].operator@ == operators[k]@);
                assert(0 <= percent_units(e, n, k as usize) <= 10000);
                assert(representable(value_units(e, d, n, k as usize), 4));
                Amount::lemma_units_places_of(value_units(e, d, n, k as usize), 4);
                Amount::lemma_units_places_of(percent_units(e, n, k as usize), 4);
            }
            assert forall|k: int| 0 <= k < n && is_null_operator(e, k as usize) implies (
            #[trigger] found[k]).value.units() == 0 && found[k].percent.units() == 0 by {
                lemma_null_operator_of_table(e, d, n, k as usize);
            }
            assert forall|a: int, b: int|
                0 <= a < n && 0 <= b < n && are_alike(e, a as usize, b as usize) implies (
            #[trigger] found[a]).value == (#[trigger] found[b]).value && found[a].percent
                == found[b].percent by {
                lemma_symmetry_of_table(e, d, n as usize, a as usize, b as usize);
            }
            if positive_total(e, n, n) > 0 {
                lemma_percent_sum(e, n);
            }
            lemma_efficiency_rounded(e, d, n);
        }
    }
    values
}

} // verus!
