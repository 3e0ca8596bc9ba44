use network_shapley::amount::Amount;
use network_shapley::coalition_computation::{build_coefficient_matrix, build_submask, generate_coalition_bitmap};
use network_shapley::sampling::{
    sample_seed, samples_per_size, size_of, solve_coalition_values, solve_plan,
};
use network_shapley::shapley::{
    calculate_shapley_values, compute_expected_values, keep_places, value_table,
};
use network_shapley::solver::{kept_value, solved_places};
use network_shapley::sparse::SparseMatrix;
use rust_decimal::Decimal;
use std::collections::HashSet;

fn dec(mantissa: i128, scale: u32) -> Amount {
    Amount::new(mantissa, scale).unwrap()
}

fn num(amount: Amount) -> Decimal {
    Decimal::from_i128_with_scale(amount.mantissa(), amount.scale())
}

fn binomial(n: usize, k: usize) -> usize {
    (0..k).fold(1, |acc, i| acc * (n - i) / (i + 1))
}

#[test]
fn test_build_submask() {
    let bitmap = generate_coalition_bitmap(2);
    let submask = build_submask(&bitmap, 4);

    // submask[i,j] = 1 if coalition j is subset of coalition i
    // Coalition 0 is empty set, so only itself is a subset
    assert_eq!(submask[0][0], 1);
    assert_eq!(submask[0][1], 0);
    assert_eq!(submask[0][2], 0);
    assert_eq!(submask[0][3], 0);

    // Coalition 1 has empty set as subset, and itself
    assert_eq!(submask[1][0], 1);
    assert_eq!(submask[1][1], 1);
    assert_eq!(submask[1][2], 0);
    assert_eq!(submask[1][3], 0);

    // Coalition 3 is full coalition, all are subsets
    assert_eq!(submask[3][0], 1);
    assert_eq!(submask[3][1], 1);
    assert_eq!(submask[3][2], 1);
    assert_eq!(submask[3][3], 1);
}

fn entry(matrix: &SparseMatrix, row: usize, col: usize) -> i64 {
    matrix.triplets.iter().filter(|t| t.row == row && t.col == col).map(|t| t.value).sum()
}

#[test]
fn coefficient_matrix_alternates_over_proper_parts() {
    let none = build_coefficient_matrix(0).unwrap();
    assert_eq!((none.nrows, none.ncols), (1, 1));
    assert_eq!(entry(&none, 0, 0), 0);
    let two = build_coefficient_matrix(2).unwrap();
    let dense: Vec<Vec<i64>> =
        (0..4).map(|r| (0..4).map(|c| entry(&two, r, c)).collect()).collect();
    assert_eq!(
        dense,
        vec![vec![0, 0, 0, 0], vec![-1, 0, 0, 0], vec![-1, 0, 0, 0], vec![1, -1, -1, 0]]
    );
    let four = build_coefficient_matrix(4).unwrap();
    for k in 0..16usize {
        for c in 0..16usize {
            let want = if c != k && c & k == c {
                if (k.count_ones() - c.count_ones()) % 2 == 0 {
                    1
                } else {
                    -1
                }
            } else {
                0
            };
            assert_eq!(entry(&four, k, c), want);
        }
    }
    assert!(build_coefficient_matrix(32).is_err());
}

#[test]
fn small_games_are_solved_in_full() {
    assert_eq!(solve_plan(0), vec![0]);
    assert_eq!(solve_plan(3), (0..8).collect::<Vec<usize>>());
    assert_eq!(solve_plan(9).len(), 512);
}

#[test]
fn large_games_are_sampled_by_size() {
    for n in [10usize, 13] {
        let plan = solve_plan(n);
        let limit = samples_per_size(n);
        assert_eq!(limit, if n == 10 { 50 } else { 30 });
        // The grand coalition comes first; the empty one is never solved.
        assert_eq!(plan[0], (1 << n) - 1);
        assert!(!plan.contains(&0));
        let distinct: HashSet<usize> = plan.iter().copied().collect();
        assert_eq!(distinct.len(), plan.len());
        assert!(plan.iter().all(|&c| c < 1 << n));
        for k in 1..n {
            let count = plan.iter().filter(|&&c| c.count_ones() as usize == k).count();
            assert_eq!(count, limit.min(binomial(n, k)));
        }
        // The same seeds give the same plan.
        assert_eq!(plan, solve_plan(n));
    }
    assert_eq!(samples_per_size(16), 20);
}

#[test]
fn planned_values_are_put_in_their_places() {
    let plan = solve_plan(5);
    let solved: Vec<Option<Amount>> = plan.iter().map(|c| Some(dec(*c as i128, 0))).collect();
    let (values, sizes) = solve_coalition_values(5, &plan, &solved).unwrap();
    for i in 0..32 {
        assert_eq!(sizes[i], size_of(i, 5));
        assert_eq!(num(values[i].unwrap()), Decimal::new(i as i64, 0));
    }
}

#[test]
fn unsolved_coalitions_of_small_games_stay_without_value() {
    let plan = vec![0, 3, 1, 3];
    let solved = vec![Some(dec(1, 0)), Some(dec(2, 0)), None, Some(dec(4, 0))];
    let (values, sizes) = solve_coalition_values(2, &plan, &solved).unwrap();
    assert_eq!(sizes, vec![0, 1, 1, 2]);
    assert_eq!(values[0].map(num), Some(Decimal::new(1, 0)));
    assert_eq!(values[1], None);
    assert_eq!(values[2], None);
    // The later value of a coalition counts.
    assert_eq!(values[3].map(num), Some(Decimal::new(4, 0)));
    assert!(solve_coalition_values(2, &plan, &solved[..3].to_vec()).is_err());
    assert!(solve_coalition_values(2, &vec![4], &vec![None]).is_err());
    assert!(solve_coalition_values(32, &vec![], &vec![]).is_err());
}

#[test]
fn unsolved_coalitions_of_large_games_take_the_mean_of_their_size() {
    let n = 10usize;
    let full = (1usize << n) - 1;
    // Two coalitions of size 1, one of size 2 without a solution.
    let plan = vec![full, 1, 2, 3];
    let solved = vec![Some(dec(-10, 0)), Some(dec(-90, 0)), Some(dec(-85, 0)), None];
    let (values, sizes) = solve_coalition_values(n, &plan, &solved).unwrap();
    // The empty coalition is worth nothing, without a solve.
    assert_eq!(values[0], Some(Amount::zero()));
    assert_eq!(sizes[0], 0);
    assert_eq!(sizes[full], n);
    assert_eq!(values[full].map(num), Some(Decimal::new(-10, 0)));
    assert_eq!(values[1].map(num), Some(Decimal::new(-90, 0)));
    assert_eq!(values[2].map(num), Some(Decimal::new(-85, 0)));
    // Every other coalition of size 1 takes the mean of -90 and -85.
    for bit in 2..n {
        assert_eq!(values[1 << bit].map(num), Some(Decimal::new(-875, 1)));
    }
    // No coalition of size 2 is known, so none gets a value.
    assert_eq!(values[3], None);
    assert_eq!(values[5], None);
}

#[test]
fn the_empty_coalition_of_a_large_game_is_worth_nothing_whatever_is_handed_in() {
    let n = 10usize;
    let full = (1usize << n) - 1;
    let plan = vec![0, full];
    let solved = vec![Some(dec(-100, 0)), Some(dec(-10, 0))];
    let (values, _) = solve_coalition_values(n, &plan, &solved).unwrap();
    assert_eq!(values[0], Some(Amount::zero()));
    assert_eq!(values[full].map(num), Some(Decimal::new(-10, 0)));
    let (values, _) = solve_coalition_values(n, &vec![0], &vec![None]).unwrap();
    assert_eq!(values[0], Some(Amount::zero()));
    assert_eq!(values[full], None);
    // Below ten operators the value handed in stands.
    let (values, _) = solve_coalition_values(9, &vec![0], &vec![Some(dec(-100, 0))]).unwrap();
    assert_eq!(values[0].map(num), Some(Decimal::new(-100, 0)));
}

#[test]
fn a_plan_made_for_a_large_game_leaves_the_empty_coalition_at_zero() {
    let n = 11usize;
    let plan = solve_plan(n);
    let solved: Vec<Option<Amount>> = plan.iter().map(|c| Some(dec(-(*c as i128) - 7, 0))).collect();
    let (values, sizes) = solve_coalition_values(n, &plan, &solved).unwrap();
    assert_eq!(values[0], Some(Amount::zero()));
    assert_eq!(sizes[0], 0);
    let full = (1usize << n) - 1;
    assert_eq!(values[full].map(num), Some(Decimal::new(-(full as i64) - 7, 0)));
    assert!(values.iter().all(|v| v.is_some()));
}

#[test]
fn each_size_has_a_seed_of_its_own() {
    assert_eq!(sample_seed(0), 42);
    assert_eq!(sample_seed(1), 43);
    assert_eq!(sample_seed(14), 56);
    assert_eq!(sample_seed(31), 73);
}

#[test]
fn fewer_places_are_kept_of_the_values_of_large_games() {
    assert_eq!(solved_places(0), 6);
    assert_eq!(solved_places(3), 6);
    assert_eq!(solved_places(12), 6);
    assert_eq!(solved_places(13), 3);
    assert_eq!(solved_places(15), 3);
}

#[test]
fn amounts_are_cut_to_the_places_kept_half_to_even() {
    assert_eq!(num(keep_places(dec(12345675, 7), 6)), Decimal::new(1234568, 6));
    assert_eq!(num(keep_places(dec(12345665, 7), 6)), Decimal::new(1234566, 6));
    assert_eq!(num(keep_places(dec(-12345675, 7), 6)), Decimal::new(-1234568, 6));
    assert_eq!(num(keep_places(dec(12345674, 7), 6)), Decimal::new(1234567, 6));
    assert_eq!(num(keep_places(dec(5, 1), 0)), Decimal::new(0, 0));
    assert_eq!(num(keep_places(dec(15, 1), 0)), Decimal::new(2, 0));
    assert_eq!(num(keep_places(dec(-25, 1), 0)), Decimal::new(-2, 0));
    // An amount with no more places stays as it is, scale and all.
    let short = keep_places(dec(1250, 3), 6);
    assert_eq!((short.mantissa(), short.scale()), (1250, 3));
    let cut = keep_places(dec(12500000, 7), 6);
    assert_eq!((cut.mantissa(), cut.scale()), (1250000, 6));
    let largest = 79_228_162_514_264_337_593_543_950_335i128;
    let cut = keep_places(dec(largest, 28), 0);
    assert_eq!((cut.mantissa(), cut.scale()), (8, 0));
    for (mantissa, scale, places) in
        [(123456789i128, 5u32, 2u32), (-987654321, 9, 3), (5, 1, 0), (-15, 1, 0), (1005, 3, 2), (0, 9, 1)]
    {
        let want = Decimal::from_i128_with_scale(mantissa, scale).round_dp(places);
        assert_eq!(num(keep_places(dec(mantissa, scale), places)), want);
    }
    assert_eq!(num(kept_value(dec(-10000000004, 7), 12)), Decimal::new(-1000000000, 6));
    assert_eq!(num(kept_value(dec(-10000000004, 7), 13)), Decimal::new(-1000000, 3));
}

#[test]
fn thirteen_operators_are_sampled_and_attributed() {
    let n = 13usize;
    let full = (1usize << n) - 1;
    let plan = solve_plan(n);
    // What a coalition saves grows with its size; the thousandths differ
    // from coalition to coalition, so that the means do not come out even.
    let solved: Vec<Option<Amount>> = plan
        .iter()
        .map(|&c| {
            let size = c.count_ones() as i128;
            Some(kept_value(dec(-2_000_000 + 100_000 * size - (c % 7) as i128, 3), n))
        })
        .collect();
    let (values, sizes) = solve_coalition_values(n, &plan, &solved).unwrap();
    assert_eq!(values.len(), 1 << n);
    assert_eq!(values[0], Some(Amount::zero()));
    assert_eq!(sizes[full], n);
    assert!(values.iter().all(|v| v.map_or(false, |a| a.scale() <= 3)));
    // A coalition that was not solved holds the mean of the thirty that were.
    let size_four: Vec<usize> = plan.iter().copied().filter(|c| c.count_ones() == 4).collect();
    assert_eq!(size_four.len(), 30);
    let sum: Decimal = size_four.iter().map(|&c| num(values[c].unwrap())).sum();
    let mean = (sum / Decimal::new(30, 0)).round_dp(3);
    let other = (0..1usize << n).find(|c| c.count_ones() == 4 && !size_four.contains(c)).unwrap();
    assert_eq!(num(values[other].unwrap()), mean);

    let table = value_table(&values).unwrap().unwrap();
    assert_eq!(table.denominator, 1000);
    let expected = compute_expected_values(&table, dec(98, 2), n).unwrap();
    let operators: Vec<String> = (0..n).map(|i| format!("Op{:02}", i)).collect();
    let found = calculate_shapley_values(&operators, &expected).unwrap();
    assert_eq!(found.len(), n);
    // The values sum to what all together are expected to be worth more
    // than nobody, up to the rounding of each.
    let worth = Decimal::from_i128_with_scale(expected.numerators[full] - expected.numerators[0], 0)
        / Decimal::from_i128_with_scale(expected.denominator, 0);
    let total: Decimal = found.iter().map(|sv| num(sv.value)).sum();
    assert!((total - worth).abs() <= Decimal::new(7, 4));
    assert!(found.iter().all(|sv| num(sv.percent) >= Decimal::ZERO));
}
