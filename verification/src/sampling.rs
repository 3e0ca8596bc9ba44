//! Which coalitions to solve, and what to take for those that were not
//! solved.
//!
//! With fewer than ten operators every coalition is solved. From ten on
//! only the grand coalition and a sample of each size below it are solved:
//! the empty coalition is worth nothing, and a coalition in between that
//! was not solved, or whose program had no solution, is given the mean of
//! the solved values of its size, with the decimal places that are kept
//! of a solved value.

use crate::amount::Amount;
use crate::error::ShapleyError;
use crate::shapley::with_places;
use crate::solver::{kept_value, places_kept};
use crate::utils::{
    bit, coalition_size, holds, lemma_coalition_size_bound, lemma_empty_and_grand, MAX_BITS, single,
};
use rand::rngs::StdRng;
use rand::{Rng, SeedableRng};
use vstd::prelude::*;

verus! {

/// From this many operators on, coalitions are sampled.
pub const SAMPLING_FROM: usize = 10;

/// What is added to a coalition size to seed the sample of that size.
pub const SEED_BASE: u64 = 42;

/// The generator `rand::rngs::StdRng`, carried through as an opaque value.
#[verifier::external_type_specification]
#[verifier::external_body]
pub struct ExStdRng(StdRng);

/// `StdRng::seed_from_u64`: a generator whose draws are fixed by the seed.
/// Nothing is claimed of it.
#[verifier::external_body]
fn seeded_generator(seed: u64) -> (rng: StdRng) {
    StdRng::seed_from_u64(seed)
}

/// `Rng::gen_range` on `0..bound`: some number below `bound`. Which one is
/// not said; an empty range is left out, where `gen_range` panics.
#[verifier::external_body]
fn draw_below(rng: &mut StdRng, bound: usize) -> (drawn: usize)
    requires
        bound > 0,
    ensures
        drawn < bound,
{
    rng.gen_range(0..bound)
}

/// How many coalitions of each size are solved at most when coalitions are
/// sampled.
pub open spec fn sample_limit(n_ops: int) -> int {
    if 10 <= n_ops <= 12 {
        50
    } else if 13 <= n_ops <= 15 {
        30
    } else {
        20
    }
}

/// How many coalitions of each size are solved at most when coalitions are
/// sampled.
pub fn samples_per_size(n_ops: usize) -> (limit: usize)
    ensures
        limit == sample_limit(n_ops as int),
{
    if 10 <= n_ops && n_ops <= 12 {
        50
    } else if 13 <= n_ops && n_ops <= 15 {
        30
    } else {
        20
    }
}

/// How many of the first `m` coalitions hold `k` of the `n` operators.
pub open spec fn count_of_size(n: int, k: int, m: int) -> int
    decreases m,
{
    if m <= 0 {
        0
    } else {
        count_of_size(n, k, m - 1) + if coalition_size((m - 1) as usize, n) == k {
            1int
        } else {
            0int
        }
    }
}

/// How many of the first `m` coalitions of `plan` hold `k` of the `n`
/// operators.
pub open spec fn planned_of_size(plan: Seq<usize>, n: int, k: int, m: int) -> int
    decreases m,
{
    if m <= 0 {
        0
    } else {
        planned_of_size(plan, n, k, m - 1) + if coalition_size(plan[m - 1], n) == k {
            1int
        } else {
            0int
        }
    }
}

/// No coalition occurs twice in `list`.
pub open spec fn no_repeats(list: Seq<usize>) -> bool {
    forall|i: int, j: int| 0 <= i < j < list.len() ==> list[i] != list[j]
}

/// `plan` says which coalitions of `n` operators to solve. Below ten
/// operators: all, in rising order. From ten on: the grand coalition, and
/// of each size between none and all as many as the limit allows, or all
/// where there are fewer; none twice, and never the empty coalition.
pub open spec fn is_plan(plan: Seq<usize>, n: int) -> bool {
    if n < SAMPLING_FROM {
        &&& plan.len() == bit(n as usize)
        &&& forall|c: int| 0 <= c < plan.len() ==> plan[c] == c
    } else {
        &&& plan.len() >= 1
        &&& plan[0] == bit(n as usize) - 1
        &&& no_repeats(plan)
        &&& forall|j: int| 0 <= j < plan.len() ==> 0 < #[trigger] plan[j] < bit(n as usize)
        &&& forall|j: int| 1 <= j < plan.len() ==> 0 < coalition_size(#[trigger] plan[j], n) < n
        &&& forall|k: int|
            0 < k < n ==> #[trigger] planned_of_size(plan, n, k, plan.len() as int) == if sample_limit(
                n,
            ) <= count_of_size(n, k, bit(n as usize) as int) {
                sample_limit(n)
            } else {
                count_of_size(n, k, bit(n as usize) as int)
            }
    }
}

/// The number of operators that coalition `c` holds.
pub fn size_of(c: usize, n_ops: usize) -> (size: usize)
    requires
        n_ops <= MAX_BITS,
    ensures
        size == coalition_size(c, n_ops as int),
        size <= n_ops,
{
    let mut count: usize = 0;
    let mut i: usize = 0;
    while i < n_ops
        invariant
            i <= n_ops,
            n_ops <= MAX_BITS,
            count == coalition_size(c, i as int),
            count <= i,
        decreases n_ops - i,
    {
        if holds(c, i) {
            count += 1;
        }
        i += 1;
    }
    count
}

/// The coalitions that hold `k` of the `n_ops` operators, in rising order.
fn coalitions_of_size(n_ops: usize, k: usize) -> (group: Vec<usize>)
    requires
        n_ops <= MAX_BITS,
    ensures
        group.len() == count_of_size(n_ops as int, k as int, bit(n_ops) as int),
        forall|i: int, j: int| 0 <= i < j < group.len() ==> group[i] < group[j],
        forall|i: int|
            0 <= i < group.len() ==> #[trigger] group[i] < bit(n_ops) && coalition_size(
                group[i],
                n_ops as int,
            ) == k,
{
    let total = single(n_ops);
    let mut group: Vec<usize> = Vec::new();
    let mut c: usize = 0;
    while c < total
        invariant
            c <= total,
            n_ops <= MAX_BITS,
            group.len() == count_of_size(n_ops as int, k as int, c as int),
            group.len() <= c,
            forall|i: int, j: int| 0 <= i < j < group.len() ==> group[i] < group[j],
            forall|i: int|
                0 <= i < group.len() ==> #[trigger] group[i] < c && coalition_size(
                    group[i],
                    n_ops as int,
                ) == k,
        decreases total - c,
    {
        if size_of(c, n_ops) == k {
            group.push(c);
        }
        c += 1;
    }
    group
}

/// Counting in a plan that grew by one coalition.
proof fn lemma_planned_push(plan: Seq<usize>, c: usize, n: int, k: int)
    ensures
        planned_of_size(plan.push(c), n, k, plan.len() as int + 1) == planned_of_size(
            plan,
            n,
            k,
            plan.len() as int,
        ) + if coalition_size(c, n) == k {
            1int
        } else {
            0int
        },
{
    lemma_planned_prefix(plan, plan.push(c), n, k, plan.len() as int);
}

/// Two plans that agree on their first `m` coalitions count the same
/// there.
proof fn lemma_planned_prefix(a: Seq<usize>, b: Seq<usize>, n: int, k: int, m: int)
    requires
        0 <= m <= a.len(),
        m <= b.len(),
        forall|i: int| 0 <= i < m ==> a[i] == b[i],
    ensures
        planned_of_size(a, n, k, m) == planned_of_size(b, n, k, m),
    decreases m,
{
    if m > 0 {
        lemma_planned_prefix(a, b, n, k, m - 1);
    }
}

/// The seed of the generator that draws the sample of the coalitions of
/// one size: the seed base and the size.
pub fn sample_seed(size: usize) -> (seed: u64)
    requires
        size <= MAX_BITS,
    ensures
        seed == SEED_BASE + size,
{
    SEED_BASE + size as u64
}

/// Draws `n_samples` of the `candidates` without putting any back, with a
/// generator that is seeded by `seed`.
fn sample_without_replacement(candidates: Vec<usize>, n_samples: usize, seed: u64) -> (picked: Vec<
    usize,
>)
    requires
        no_repeats(candidates@),
        n_samples <= candidates.len(),
    ensures
        picked.len() == n_samples,
        no_repeats(picked@),
        forall|i: int| 0 <= i < picked.len() ==> candidates@.contains(#[trigger] picked[i]),
{
    let mut rng = seeded_generator(seed);
    let mut indices = candidates;
    let mut picked: Vec<usize> = Vec::new();
    let mut taken: usize = 0;
    while taken < n_samples
        invariant
            taken <= n_samples,
            n_samples <= candidates.len(),
            picked.len() == taken,
            indices.len() + taken == candidates.len(),
            no_repeats(indices@),
            no_repeats(picked@),
            forall|i: int| 0 <= i < picked.len() ==> candidates@.contains(#[trigger] picked[i]),
            forall|i: int| 0 <= i < indices.len() ==> candidates@.contains(#[trigger] indices[i]),
            forall|i: int, j: int|
                0 <= i < picked.len() && 0 <= j < indices.len() ==> picked[i] != indices[j],
        decreases n_samples - taken,
    {
        let at = draw_below(&mut rng, indices.len());
        let ghost before = indices@;
        let coalition = indices.swap_remove(at);
        proof {
            assert forall|i: int| 0 <= i < indices.len() implies before.contains(
                #[trigger] indices[i],
            ) && indices[i] != coalition by {
                if i == at {
                    assert(indices[i] == before[before.len() - 1]);
                } else {
                    assert(indices[i] == before[i]);
                }
            }
            assert forall|i: int, j: int| 0 <= i < j < indices.len() implies indices[i]
                != indices[j] by {
                let a = if i == at {
                    before.len() - 1
                } else {
                    i
                };
                let b = if j == at {
                    before.len() - 1
                } else {
                    j
                };
                assert(indices[i] == before[a]);
                assert(indices[j] == before[b]);
            }
            assert(before[at as int] == coalition);
        }
        picked.push(coalition);
        taken += 1;
    }
    picked
}

/// The coalitions to solve, in the order in which their values are
/// expected: all of them below ten operators; from ten on the grand one
/// and a sample of each size between none and all, drawn by a generator
/// whose seed is [`sample_seed`] of the size.
pub fn solve_plan(n_ops: usize) -> (plan: Vec<usize>)
    requires
        n_ops <= MAX_BITS,
    ensures
        is_plan(plan@, n_ops as int),
{
    let total = single(n_ops);
    let mut plan: Vec<usize> = Vec::new();
    if n_ops < SAMPLING_FROM {
        let mut c: usize = 0;
        while c < total
            invariant
                c <= total,
                plan.len() == c,
                forall|a: int| 0 <= a < c ==> plan[a] == a,
            decreases total - c,
        {
            plan.push(c);
            c += 1;
        }
        return plan;
    }
    let limit = samples_per_size(n_ops);
    plan.push(total - 1);
    proof {
        lemma_coalition_size_bound(0, n_ops as int);
        lemma_empty_and_grand(n_ops);
        assert(0 < total - 1) by {
            assert((1usize << n_ops) > 1) by (bit_vector)
                requires
                    10 <= n_ops <= 31,
            ;
        }
        assert forall|k: int| 0 < k < n_ops implies planned_of_size(plan@, n_ops as int, k, 1)
            == 0 by {
            reveal_with_fuel(planned_of_size, 2);
        }
    }
    let mut size: usize = 1;
    while size < n_ops
        invariant
            1 <= size <= n_ops,
            n_ops <= MAX_BITS,
            total == bit(n_ops),
            limit == sample_limit(n_ops as int),
            plan.len() >= 1,
            plan[0] == total - 1,
            no_repeats(plan@),
            forall|j: int| 0 <= j < plan.len() ==> 0 < #[trigger] plan[j] < total,
            forall|j: int|
                1 <= j < plan.len() ==> 0 < coalition_size(#[trigger] plan[j], n_ops as int)
                    < size,
            coalition_size(0, n_ops as int) == 0,
            coalition_size((total - 1) as usize, n_ops as int) == n_ops,
            forall|k: int|
                0 < k < size ==> #[trigger] planned_of_size(
                    plan@,
                    n_ops as int,
                    k,
                    plan.len() as int,
                ) == if limit <= count_of_size(n_ops as int, k, total as int) {
                    limit as int
                } else {
                    count_of_size(n_ops as int, k, total as int)
                },
            forall|k: int|
                size <= k < n_ops ==> #[trigger] planned_of_size(
                    plan@,
                    n_ops as int,
                    k,
                    plan.len() as int,
                ) == 0,
        decreases n_ops - size,
    {
        let group = coalitions_of_size(n_ops, size);
        let n_samples = if limit <= group.len() {
            limit
        } else {
            group.len()
        };
        let ghost members = group@;
        let picked = sample_without_replacement(group, n_samples, sample_seed(size));
        let ghost start = plan@;
        let mut i: usize = 0;
        while i < picked.len()
            invariant
                i <= picked.len(),
                1 <= size < n_ops,
                n_ops <= MAX_BITS,
                total == bit(n_ops),
                no_repeats(picked@),
                forall|a: int| 0 <= a < picked.len() ==> members.contains(#[trigger] picked[a]),
                forall|a: int|
                    0 <= a < members.len() ==> #[trigger] members[a] < total && coalition_size(
                        members[a],
                        n_ops as int,
                    ) == size,
                plan.len() == start.len() + i,
                plan.len() >= 1,
                plan[0] == total - 1,
                no_repeats(plan@),
                coalition_size(0, n_ops as int) == 0,
                coalition_size((total - 1) as usize, n_ops as int) == n_ops,
                forall|j: int| 0 <= j < start.len() ==> plan[j] == start[j],
                forall|j: int| 0 <= j < i ==> plan[start.len() + j] == picked[j],
                forall|j: int| 0 <= j < plan.len() ==> 0 < #[trigger] plan[j] < total,
                forall|j: int|
                    1 <= j < start.len() ==> 0 < coalition_size(#[trigger] start[j], n_ops as int)
                        < size,
                forall|j: int|
                    1 <= j < plan.len() ==> 0 < coalition_size(#[trigger] plan[j], n_ops as int)
                        < size + 1,
                forall|k: int|
                    0 < k < n_ops ==> #[trigger] planned_of_size(
                        plan@,
                        n_ops as int,
                        k,
                        plan.len() as int,
                    ) == planned_of_size(start, n_ops as int, k, start.len() as int) + if k
                        == size {
                        i as int
                    } else {
                        0int
                    },
            decreases picked.len() - i,
        {
            let c = picked[i];
            let ghost before = plan@;
            proof {
                assert(members.contains(picked[i as int]));
                let w = choose|w: int| 0 <= w < members.len() && members[w] == c;
                assert(coalition_size(members[w], n_ops as int) == size);
                assert(c != 0) by {
                    if c == 0 {
                        assert(coalition_size(0, n_ops as int) == size);
                    }
                }
                assert forall|j: int| 0 <= j < before.len() implies before[j] != c by {
                    if j < 1 {
                    } else if j < start.len() {
                        assert(coalition_size(start[j], n_ops as int) < size);
                    } else {
                        assert(before[j] == picked[j - start.len()]);
                    }
                }
                assert forall|k: int| 0 < k < n_ops implies #[trigger] planned_of_size(
                    before.push(c),
                    n_ops as int,
                    k,
                    before.len() as int + 1,
                ) == planned_of_size(start, n_ops as int, k, start.len() as int) + if k == size {
                    i + 1
                } else {
                    0int
                } by {
                    lemma_planned_push(before, c, n_ops as int, k);
                    assert(planned_of_size(before, n_ops as int, k, before.len() as int)
                        == planned_of_size(start, n_ops as int, k, start.len() as int) + if k
                        == size {
                        i as int
                    } else {
                        0int
                    });
                }
            }
            plan.push(c);
            i += 1;
        }
        size += 1;
    }
    plan
}

/// The value that was handed in for coalition `c` among the first `m`
/// places of the plan: that of the last place that names the coalition;
/// none where no place does.
pub open spec fn solved_value(plan: Seq<usize>, solved: Seq<Option<Amount>>, c: usize, m: int) -> Option<
    Amount,
>
    decreases m,
{
    if m <= 0 {
        None
    } else if plan[m - 1] == c {
        solved[m - 1]
    } else {
        solved_value(plan, solved, c, m - 1)
    }
}

/// The values of all `2^n` coalitions as they were handed in.
pub open spec fn scattered(plan: Seq<usize>, solved: Seq<Option<Amount>>, n: int) -> Seq<
    Option<Amount>,
> {
    Seq::new(
        bit(n as usize) as nat,
        |c: int| solved_value(plan, solved, c as usize, plan.len() as int),
    )
}

/// The sum of the values that are known among the first `m` coalitions
/// and belong to coalitions of size `k`; `None` where it overflows.
pub open spec fn known_sum(values: Seq<Option<Amount>>, n: int, k: int, m: int) -> Option<Amount>
    decreases m,
{
    if m <= 0 {
        Some(Amount::of(0, 0))
    } else {
        match known_sum(values, n, k, m - 1) {
            None => None,
            Some(total) => if coalition_size((m - 1) as usize, n) == k && values[m - 1] is Some {
                total.sum(values[m - 1]->0)
            } else {
                Some(total)
            },
        }
    }
}

/// How many values are known among the first `m` coalitions and belong to
/// coalitions of size `k`.
pub open spec fn known_count(values: Seq<Option<Amount>>, n: int, k: int, m: int) -> int
    decreases m,
{
    if m <= 0 {
        0
    } else {
        known_count(values, n, k, m - 1) + if coalition_size((m - 1) as usize, n) == k
            && values[m - 1] is Some {
            1int
        } else {
            0int
        }
    }
}

/// The mean of the known values of the coalitions of size `k`, with the
/// decimal places that are kept of a solved value; `None` where the sum or
/// the quotient overflows.
pub open spec fn size_mean(values: Seq<Option<Amount>>, n: int, k: int) -> Option<Amount> {
    match known_sum(values, n, k, values.len() as int) {
        Some(total) => match total.quotient(
            Amount::of(known_count(values, n, k, values.len() as int), 0),
        ) {
            Some(mean) => Some(with_places(mean, places_kept(n))),
            None => None,
        },
        None => None,
    }
}

/// Coalitions of size `k` take part in the filling in: coalitions are
/// sampled, the size lies strictly between none and all, and some value of
/// the size is known.
pub open spec fn is_filled_size(values: Seq<Option<Amount>>, n: int, k: int) -> bool {
    &&& n >= SAMPLING_FROM
    &&& 0 < k < n
    &&& known_count(values, n, k, values.len() as int) > 0
}

/// The mean of every size that takes part in the filling in is defined.
pub open spec fn means_fit(values: Seq<Option<Amount>>, n: int) -> bool {
    forall|k: int| #[trigger] is_filled_size(values, n, k) ==> size_mean(values, n, k) is Some
}

/// The value that coalition `c` ends with. Where coalitions are sampled,
/// the empty coalition is worth zero whatever was handed in for it. Any
/// other coalition has its own value where it has one; else, where its
/// size takes part in the filling in, the mean of the known values of its
/// size; else none.
pub open spec fn filled_value(values: Seq<Option<Amount>>, n: int, c: int) -> Option<Amount> {
    let k = coalition_size(c as usize, n);
    if n >= SAMPLING_FROM && c == 0 {
        Some(Amount::of(0, 0))
    } else if values[c] is None && is_filled_size(values, n, k) {
        size_mean(values, n, k)
    } else {
        values[c]
    }
}

/// No more values are known than there are coalitions.
proof fn lemma_known_count_bound(values: Seq<Option<Amount>>, n: int, k: int, m: int)
    requires
        0 <= m,
    ensures
        0 <= known_count(values, n, k, m) <= m,
    decreases m,
{
    if m > 0 {
        lemma_known_count_bound(values, n, k, m - 1);
    }
}

/// A sum that has overflowed stays undefined.
proof fn lemma_known_sum_overflow_stays(values: Seq<Option<Amount>>, n: int, k: int, m: int, l: int)
    requires
        0 <= m <= l,
        known_sum(values, n, k, m) is None,
    ensures
        known_sum(values, n, k, l) is None,
    decreases l - m,
{
    if m < l {
        lemma_known_sum_overflow_stays(values, n, k, m, l - 1);
    }
}

/// Puts the values that the solver returned for the coalitions of `plan`
/// in their places, and gives every coalition its size. `solved[j]` is the
/// value of coalition `plan[j]`, `None` where its program had no solution.
/// A coalition that the plan does not name has no value. From ten
/// operators on, the empty coalition is worth zero, whatever was handed
/// in for it, and any other coalition without a value is given the mean
/// of the known values of its size, where there is one, with the decimal
/// places that are kept of a solved value; the grand coalition is left as
/// it is. Fails where plan and values differ in
/// length, where the plan names a coalition that does not exist, or where
/// a mean overflows.
pub fn solve_coalition_values(n_ops: usize, plan: &Vec<usize>, solved: &Vec<Option<Amount>>) -> (found:
    Result<(Vec<Option<Amount>>, Vec<usize>), ShapleyError>)
    ensures
        found is Ok <==> {
            &&& n_ops <= MAX_BITS
            &&& plan.len() == solved.len()
            &&& forall|j: int| 0 <= j < plan.len() ==> #[trigger] plan[j] < bit(n_ops)
            &&& means_fit(scattered(plan@, solved@, n_ops as int), n_ops as int)
        },
        found is Ok ==> {
            let (values, sizes) = found->Ok_0;
            let given = scattered(plan@, solved@, n_ops as int);
            &&& values.len() == bit(n_ops)
            &&& sizes.len() == bit(n_ops)
            &&& forall|c: int|
                0 <= c < sizes.len() ==> #[trigger] sizes[c] == coalition_size(
                    c as usize,
                    n_ops as int,
                )
            &&& forall|c: int|
                0 <= c < values.len() ==> #[trigger] values[c] == filled_value(
                    given,
                    n_ops as int,
                    c,
                )
            &&& sizes[0] == 0
            &&& sizes[bit(n_ops) - 1] == n_ops
            &&& n_ops >= SAMPLING_FROM ==> {
                &&& values[0] == Some(Amount::of(0, 0))
                &&& values[bit(n_ops) - 1] == given[bit(n_ops) - 1]
            }
        },
        found is Err ==> found->Err_0 is ComputationError,
{
    if n_ops > MAX_BITS {
        return Err(ShapleyError::ComputationError(String::from_str("too many operators")));
    }
    if plan.len() != solved.len() {
        return Err(
            ShapleyError::ComputationError(
                String::from_str("there must be one value for each planned coalition"),
            ),
        );
    }
    let total = single(n_ops);
    let ghost n = n_ops as int;
    proof {
        assert((1usize << n_ops) <= 0x8000_0000) by (bit_vector)
            requires
                n_ops <= 31,
        ;
    }
    let mut given: Vec<Option<Amount>> = Vec::new();
    let mut sizes: Vec<usize> = Vec::new();
    let mut c: usize = 0;
    while c < total
        invariant
            c <= total,
            n_ops <= MAX_BITS,
            given.len() == c,
            sizes.len() == c,
            forall|a: int| 0 <= a < c ==> (#[trigger] given[a]) is None,
            forall|a: int|
                0 <= a < c ==> #[trigger] sizes[a] == coalition_size(a as usize, n_ops as int),
        decreases total - c,
    {
        given.push(None);
        sizes.push(size_of(c, n_ops));
        c += 1;
    }
    let mut j: usize = 0;
    while j < plan.len()
        invariant
            j <= plan.len(),
            plan.len() == solved.len(),
            given.len() == total,
            total == bit(n_ops),
            n_ops <= MAX_BITS,
            forall|a: int| 0 <= a < j ==> #[trigger] plan[a] < total,
            forall|a: int|
                0 <= a < total ==> #[trigger] given[a] == solved_value(
                    plan@,
                    solved@,
                    a as usize,
                    j as int,
                ),
        decreases plan.len() - j,
    {
        if plan[j] >= total {
            return Err(
                ShapleyError::ComputationError(
                    String::from_str("the plan names a coalition that does not exist"),
                ),
            );
        }
        given.set(plan[j], solved[j]);
        j += 1;
    }
    assert(given@ =~= scattered(plan@, solved@, n));
    proof {
        lemma_empty_and_grand(n_ops);
    }
    if n_ops < SAMPLING_FROM {
        return Ok((given, sizes));
    }
    let mut values: Vec<Option<Amount>> = Vec::new();
    let mut d: usize = 0;
    while d < total
        invariant
            d <= total,
            given.len() == total,
            values.len() == d,
            forall|a: int| 0 <= a < d ==> #[trigger] values[a] == given[a],
        decreases total - d,
    {
        values.push(given[d]);
        d += 1;
    }
    values.set(0, Some(Amount::zero()));
    let mut k: usize = 1;
    while k < n_ops
        invariant
            1 <= k <= n_ops,
            SAMPLING_FROM <= n_ops <= MAX_BITS,
            n == n_ops as int,
            total == bit(n_ops),
            given.len() == total,
            values.len() == total,
            sizes.len() == total,
            given@ == scattered(plan@, solved@, n),
            total <= 0x8000_0000,
            plan.len() == solved.len(),
            forall|j: int| 0 <= j < plan.len() ==> #[trigger] plan[j] < bit(n_ops),
            forall|a: int| 0 <= a < total ==> #[trigger] sizes[a] == coalition_size(a as usize, n),
            0 < total,
            values[0] == Some(Amount::of(0, 0)),
            sizes[0] == 0,
            forall|a: int| 0 < a < total && sizes[a] >= k ==> #[trigger] values[a] == given[a],
            forall|a: int|
                0 <= a < total && sizes[a] < k ==> #[trigger] values[a] == filled_value(
                    given@,
                    n,
                    a,
                ),
            forall|s: int|
                #[trigger] is_filled_size(given@, n, s) && s < k ==> size_mean(given@, n, s) is Some,
        decreases n_ops - k,
    {
        let mut sum = Amount::zero();
        let mut count: usize = 0;
        let mut a: usize = 0;
        while a < total
            invariant
                a <= total,
                n_ops <= MAX_BITS,
                n == n_ops as int,
                1 <= k < n_ops,
                SAMPLING_FROM <= n_ops,
                given.len() == total,
                sizes.len() == total,
                total == bit(n_ops),
                total <= 0x8000_0000,
                given@ == scattered(plan@, solved@, n),
                forall|x: int|
                    0 <= x < total ==> #[trigger] sizes[x] == coalition_size(x as usize, n),
                Some(sum) == known_sum(given@, n, k as int, a as int),
                count == known_count(given@, n, k as int, a as int),
                count <= a,
            decreases total - a,
        {
            if sizes[a] == k {
                match given[a] {
                    Some(v) => {
                        match sum.checked_add(&v) {
                            Some(next) => {
                                sum = next;
                            },
                            None => {
                                proof {
                                    assert(known_sum(given@, n, k as int, a + 1) is None);
                                    lemma_known_sum_overflow_stays(
                                        given@,
                                        n,
                                        k as int,
                                        a + 1,
                                        total as int,
                                    );
                                    lemma_known_count_bound(given@, n, k as int, a as int);
                                    lemma_known_count_grows(
                                        given@,
                                        n,
                                        k as int,
                                        a + 1,
                                        total as int,
                                    );
                                    assert(is_filled_size(given@, n, k as int));
                                }
                                return Err(
                                    ShapleyError::ComputationError(
                                        String::from_str("the sum of the solved values overflows"),
                                    ),
                                );
                            },
                        }
                        count += 1;
                    },
                    None => {},
                }
            }
            a += 1;
        }
        if count > 0 {
            let mean = match sum.checked_div(&Amount::from_int(count as i64)) {
                Some(m) => kept_value(m, n_ops),
                None => {
                    proof {
                        assert(is_filled_size(given@, n, k as int));
                    }
                    return Err(
                        ShapleyError::ComputationError(
                            String::from_str("the mean of the solved values overflows"),
                        ),
                    );
                },
            };
            proof {
                assert(is_filled_size(given@, n, k as int));
                assert(size_mean(given@, n, k as int) == Some(mean));
            }
            let mut f: usize = 0;
            while f < total
                invariant
                    f <= total,
                    n == n_ops as int,
                    1 <= k < n_ops,
                    given.len() == total,
                    values.len() == total,
                    sizes.len() == total,
                    is_filled_size(given@, n, k as int),
                    size_mean(given@, n, k as int) == Some(mean),
                    forall|x: int|
                        0 <= x < total ==> #[trigger] sizes[x] == coalition_size(x as usize, n),
                    0 < total,
                    values[0] == Some(Amount::of(0, 0)),
                    sizes[0] == 0,
                    forall|x: int|
                        0 < x < total && sizes[x] > k ==> #[trigger] values[x] == given[x],
                    forall|x: int|
                        f <= x < total && sizes[x] == k ==> #[trigger] values[x] == given[x],
                    forall|x: int|
                        0 <= x < total && sizes[x] < k ==> #[trigger] values[x] == filled_value(
                            given@,
                            n,
                            x,
                        ),
                    forall|x: int|
                        0 <= x < f && sizes[x] == k ==> #[trigger] values[x] == filled_value(
                            given@,
                            n,
                            x,
                        ),
                decreases total - f,
            {
                if sizes[f] == k && given[f].is_none() {
                    values.set(f, Some(mean));
                }
                f += 1;
            }
        } else {
            proof {
                assert(!is_filled_size(given@, n, k as int));
            }
        }
        proof {
            assert forall|s: int|
                #[trigger] is_filled_size(given@, n, s) && s < k + 1 implies size_mean(
                given@,
                n,
                s,
            ) is Some by {}
        }
        k += 1;
    }
    proof {
        assert forall|x: int| 0 <= x < total implies #[trigger] values[x] == filled_value(
            given@,
            n,
            x,
        ) by {
            lemma_coalition_size_bound(x as usize, n);
            if sizes[x] >= n_ops {
                assert(values[x] == given[x]);
            }
        }
        lemma_empty_and_grand(n_ops);
        assert(bit(n_ops) - 1 > 0) by {
            assert((1usize << n_ops) > 1) by (bit_vector)
                requires
                    10 <= n_ops <= 31,
            ;
        }
        assert forall|s: int| #[trigger] is_filled_size(given@, n, s) implies size_mean(
            given@,
            n,
            s,
        ) is Some by {}
    }
    Ok((values, sizes))
}

/// The count of known values grows with the prefix.
proof fn lemma_known_count_grows(values: Seq<Option<Amount>>, n: int, k: int, m: int, l: int)
    requires
        0 <= m <= l,
    ensures
        known_count(values, n, k, m) <= known_count(values, n, k, l),
    decreases l - m,
{
    if m < l {
        lemma_known_count_grows(values, n, k, m, l - 1);
    }
}

} // verus!
