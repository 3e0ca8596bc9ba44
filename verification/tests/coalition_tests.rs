use network_shapley::amount::Amount;
use network_shapley::coalition_computation::{
    enumerate_operators, generate_coalition_bitmap, get_coalition_masks, get_coalition_subset,
};
use network_shapley::lp::LPPrimitives;
use network_shapley::shapley::{
    calculate_shapley_values, compute_expected_values, greatest_common_divisor,
    round_to_places, value_table, ValueTable,
};
use network_shapley::solver::coalition_program;
use network_shapley::sparse::{SparseMatrix, Triplet};
use network_shapley::types::LinkBuilder;
use rust_decimal::Decimal;

fn dec(mantissa: i128, scale: u32) -> Amount {
    Amount::new(mantissa, scale).unwrap()
}

fn num(amount: Amount) -> Decimal {
    Decimal::from_i128_with_scale(amount.mantissa(), amount.scale())
}

fn link(start: &str, end: &str) -> LinkBuilder {
    LinkBuilder::new(start.to_string(), end.to_string())
}

fn table(numerators: &[i128], denominator: i128) -> ValueTable {
    ValueTable { numerators: numerators.to_vec(), denominator }
}

fn names(list: &[&str]) -> Vec<String> {
    list.iter().map(|s| s.to_string()).collect()
}

#[test]
fn test_enumerate_operators() {
    let links = vec![
        link("A", "B").operator1("Alpha".to_string()).build(),
        link("B", "C").operator1("Beta".to_string()).operator2("Gamma".to_string()).build(),
        link("C", "D").operator1("Alpha".to_string()).operator2("Beta".to_string()).build(),
    ];

    let operators = enumerate_operators(&links);
    assert_eq!(operators, vec!["Alpha", "Beta", "Gamma"]);
}

#[test]
fn operators_are_sorted_and_without_the_public_one() {
    let links = vec![
        link("A", "B").operator1("beta".to_string()).operator2("Zeta".to_string()).build(),
        link("B", "C").build(),
        link("C", "D").operator1("Alpha".to_string()).operator2("Alpha".to_string()).build(),
        link("C", "D").operator1("Zeta".to_string()).build(),
    ];
    assert_eq!(enumerate_operators(&links), vec!["Alpha", "Zeta", "beta"]);
    assert_eq!(enumerate_operators(&[]), Vec::<String>::new());
}

#[test]
fn test_generate_coalition_bitmap() {
    let bitmap = generate_coalition_bitmap(3);

    assert_eq!((bitmap.len(), bitmap[0].len()), (3, 8)); // 3 operators, 2^3 coalitions

    // Empty coalition
    assert_eq!(bitmap[0][0], 0);
    assert_eq!(bitmap[1][0], 0);
    assert_eq!(bitmap[2][0], 0);

    // Full coalition
    assert_eq!(bitmap[0][7], 1);
    assert_eq!(bitmap[1][7], 1);
    assert_eq!(bitmap[2][7], 1);

    // Coalition {0, 2}
    assert_eq!(bitmap[0][5], 1);
    assert_eq!(bitmap[1][5], 0);
    assert_eq!(bitmap[2][5], 1);
}

#[test]
fn coalition_subsets_follow_the_bits() {
    let operators = names(&["Alpha", "Beta", "Gamma"]);
    let bitmap = generate_coalition_bitmap(3);
    assert_eq!(get_coalition_subset(&operators, &bitmap, 0), Vec::<String>::new());
    assert_eq!(get_coalition_subset(&operators, &bitmap, 5), vec!["Alpha", "Gamma"]);
    assert_eq!(get_coalition_subset(&operators, &bitmap, 7), vec!["Alpha", "Beta", "Gamma"]);
}

fn small_program() -> LPPrimitives {
    // Two nodes, three variables: one of Alpha, one of Alpha and Beta, one public.
    let a_eq = SparseMatrix::from_triplets(
        2,
        3,
        vec![
            Triplet { row: 0, col: 0, value: 1 },
            Triplet { row: 1, col: 0, value: -1 },
            Triplet { row: 0, col: 1, value: 1 },
            Triplet { row: 1, col: 1, value: -1 },
            Triplet { row: 0, col: 2, value: 1 },
            Triplet { row: 1, col: 2, value: -1 },
        ],
    )
    .unwrap();
    let a_ub = SparseMatrix::from_triplets(
        2,
        3,
        vec![Triplet { row: 0, col: 0, value: 1 }, Triplet { row: 1, col: 1, value: 1 }],
    )
    .unwrap();
    LPPrimitives {
        a_eq,
        a_ub,
        b_eq: vec![dec(5, 0), dec(-5, 0)],
        b_ub: vec![dec(3, 0), dec(4, 0)],
        cost: vec![dec(1, 0), dec(2, 0), dec(10, 0)],
        row_index1: names(&["Alpha", "Alpha"]),
        row_index2: names(&["Alpha", "Beta"]),
        col_index1: names(&["Alpha", "Alpha", "0"]),
        col_index2: names(&["Alpha", "Beta", "0"]),
    }
}

#[test]
fn masks_admit_members_and_the_public_operator() {
    let lp = small_program();
    assert_eq!(get_coalition_masks(&[], &lp), (vec![false, false], vec![false, false, true]));
    assert_eq!(
        get_coalition_masks(&names(&["Alpha"]), &lp),
        (vec![true, false], vec![true, false, true])
    );
    assert_eq!(
        get_coalition_masks(&names(&["Beta"]), &lp),
        (vec![false, false], vec![false, false, true])
    );
    assert_eq!(
        get_coalition_masks(&names(&["Alpha", "Beta"]), &lp),
        (vec![true, true], vec![true, true, true])
    );
}

fn entry(matrix: &SparseMatrix, row: usize, col: usize) -> i64 {
    matrix.triplets.iter().filter(|t| t.row == row && t.col == col).map(|t| t.value).sum()
}

fn dense(matrix: &SparseMatrix) -> Vec<Vec<i64>> {
    (0..matrix.nrows)
        .map(|r| (0..matrix.ncols).map(|c| entry(matrix, r, c)).collect())
        .collect()
}

#[test]
fn coalition_program_keeps_equalities_and_cuts_the_rest() {
    let lp = small_program();
    let form = coalition_program(&lp, &[true, false], &[true, false, true]).unwrap();
    assert_eq!(form.n_equalities, 2);
    assert_eq!(form.n_inequalities, 1);
    assert!(!form.large);
    assert_eq!(
        dense(&form.matrix),
        vec![vec![1, 1], vec![-1, -1], vec![1, 0], vec![-1, 0], vec![0, -1]]
    );
    let b: Vec<Decimal> = form.b.iter().map(|a| num(*a)).collect();
    let want: Vec<Decimal> = [5, -5, 3, 0, 0].iter().map(|v| Decimal::new(*v, 0)).collect();
    assert_eq!(b, want);
    let cost: Vec<Decimal> = form.cost.iter().map(|a| num(*a)).collect();
    assert_eq!(cost, vec![Decimal::new(1, 0), Decimal::new(10, 0)]);
    // A coalition without any variable has no program.
    assert!(coalition_program(&lp, &[true, true], &[false, false, false]).is_none());
    // No bandwidth row at all.
    let bare = coalition_program(&lp, &[false, false], &[false, false, true]).unwrap();
    assert_eq!(bare.n_inequalities, 0);
    assert_eq!(dense(&bare.matrix), vec![vec![1], vec![-1], vec![-1]]);
}

#[test]
fn test_shapley_value_calculation() {
    let operators = vec!["Op1".to_string(), "Op2".to_string()];
    let evalue = table(&[0, 50, 50, 100], 1);

    let result = calculate_shapley_values(&operators, &evalue).unwrap();

    assert_eq!(result.len(), 2);
    assert_eq!(result[0].operator, "Op1");
    assert_eq!(result[1].operator, "Op2");

    // Both operators contribute equally, so should have 0.5 each
    assert_eq!(num(result[0].percent), Decimal::new(5, 1));
    assert_eq!(num(result[1].percent), Decimal::new(5, 1));

    // Percentages should sum to 1
    let total: Decimal = result.iter().map(|sv| num(sv.percent)).sum();
    assert_eq!(total, Decimal::new(10, 1));

    assert_eq!(num(result[0].value), Decimal::new(50, 0));
    assert_eq!(num(result[1].value), Decimal::new(50, 0));
}

#[test]
fn test_compute_expected_values_simple() {
    // Test with 2 operators, uptime = 0.9
    let n_ops = 2;
    let uptime = dec(9, 1);

    // svalue for coalitions: {}, {B}, {A}, {A,B}
    let svalue = table(&[100, 120, 150, 200], 1);

    let evalue = compute_expected_values(&svalue, uptime, n_ops).unwrap();

    // 0.9 * 120 + 0.1 * 100, and so on.
    let expected_evalue = vec![100.0, 118.0, 145.0, 187.3];

    for (i, (val, exp)) in evalue.numerators.iter().zip(expected_evalue).enumerate() {
        let val = *val as f64 / evalue.denominator as f64;
        assert!((val - exp).abs() < 1e-9, "Mismatch at index {i}: got {val}, expected {exp}");
    }
    assert_eq!(evalue.numerators, vec![10000, 11800, 14500, 18730]);
    assert_eq!(evalue.denominator, 100);
}

#[test]
fn expected_values_with_full_uptime_are_the_values() {
    let svalue = table(&[-1000, -1000, -850, -700, -800, -800, -650, -650], 10);
    for uptime in [dec(1, 0), dec(10, 1), dec(1000, 3)] {
        let evalue = compute_expected_values(&svalue, uptime, 3).unwrap();
        assert_eq!(evalue.numerators, svalue.numerators);
        assert_eq!(evalue.denominator, 10);
    }
}

#[test]
fn expected_values_use_the_uptime_in_lowest_terms() {
    let svalue = table(&[0, 100], 1);
    let evalue = compute_expected_values(&svalue, dec(98, 2), 1).unwrap();
    // 0.98 = 49/50
    assert_eq!(evalue.numerators, vec![0, 4900]);
    assert_eq!(evalue.denominator, 50);
    let none = compute_expected_values(&svalue, dec(0, 0), 1).unwrap();
    assert_eq!(none.numerators, vec![0, 0]);
    assert_eq!(none.denominator, 1);
}

#[test]
fn expected_values_refuse_what_does_not_fit() {
    let svalue = table(&[0, 100], 1);
    assert!(compute_expected_values(&svalue, dec(11, 1), 1).is_err());
    assert!(compute_expected_values(&svalue, dec(-1, 1), 1).is_err());
    assert!(compute_expected_values(&svalue, dec(9, 1), 2).is_err());
    assert!(compute_expected_values(&table(&[0, 100], 0), dec(9, 1), 1).is_err());
    assert!(compute_expected_values(&table(&[0, i128::MAX], 1), dec(9, 1), 1).is_err());
    assert!(compute_expected_values(&table(&[0, i128::MIN], 1), dec(1, 0), 1).is_err());
    assert!(compute_expected_values(&table(&[0, i128::MAX], 1), dec(1, 0), 1).is_ok());
}

#[test]
fn shapley_values_of_the_ring() {
    // Minus the least cost of each coalition of Alpha, Beta, Gamma.
    let svalue = table(&[-1000, -1000, -850, -700, -800, -800, -650, -650], 1);
    let evalue = compute_expected_values(&svalue, dec(98, 2), 3).unwrap();
    let operators = names(&["Alpha", "Beta", "Gamma"]);
    let result = calculate_shapley_values(&operators, &evalue).unwrap();
    let seen: Vec<(Decimal, Decimal)> =
        result.iter().map(|sv| (num(sv.value), num(sv.percent))).collect();
    assert_eq!(
        seen,
        vec![
            (Decimal::new(249704, 4), Decimal::new(722, 4)),
            (Decimal::new(1719704, 4), Decimal::new(4972, 4)),
            (Decimal::new(1489404, 4), Decimal::new(4306, 4)),
        ]
    );
    let total: Decimal = result.iter().map(|sv| num(sv.percent)).sum();
    assert_eq!(total, Decimal::new(1, 0));
}

#[test]
fn negative_values_have_no_share() {
    // Operator 0 only does harm, operator 1 only good.
    let evalue = table(&[0, -30, 60, 30], 1);
    let result = calculate_shapley_values(&names(&["Bad", "Good"]), &evalue).unwrap();
    assert_eq!(num(result[0].value), Decimal::new(-30, 0));
    assert_eq!(num(result[0].percent), Decimal::ZERO);
    assert_eq!(num(result[1].value), Decimal::new(60, 0));
    assert_eq!(num(result[1].percent), Decimal::ONE);
    // Nobody does any good: all shares are zero.
    let flat = table(&[0, -5, -5, -10], 1);
    let result = calculate_shapley_values(&names(&["A", "B"]), &flat).unwrap();
    assert!(result.iter().all(|sv| num(sv.percent) == Decimal::ZERO));
    assert!(result.iter().all(|sv| num(sv.value) == Decimal::new(-5, 0)));
}

#[test]
fn equal_thirds_round_to_less_than_one() {
    let mut numerators = vec![0i128; 8];
    for c in 0..8usize {
        numerators[c] = 10 * c.count_ones() as i128;
    }
    let result =
        calculate_shapley_values(&names(&["A", "B", "C"]), &table(&numerators, 1)).unwrap();
    assert!(result.iter().all(|sv| num(sv.value) == Decimal::new(10, 0)));
    assert!(result.iter().all(|sv| num(sv.percent) == Decimal::new(3333, 4)));
}

#[test]
fn an_operator_that_changes_nothing_is_owed_nothing() {
    // Operator 1 adds nothing to any coalition.
    let svalue = table(&[-900, -700, -900, -700, -650, -400, -650, -400], 1);
    for uptime in [dec(1, 0), dec(98, 2), dec(5, 1)] {
        let evalue = compute_expected_values(&svalue, uptime, 3).unwrap();
        let result = calculate_shapley_values(&names(&["A", "B", "C"]), &evalue).unwrap();
        assert_eq!(num(result[1].value), Decimal::ZERO);
        assert_eq!(num(result[1].percent), Decimal::ZERO);
        assert!(num(result[0].value) > Decimal::ZERO);
    }
}

#[test]
fn exchanging_two_operators_exchanges_what_they_are_owed() {
    let values: Vec<i128> = vec![-1000, -990, -850, -700, -820, -800, -650, -640];
    // The same game with the operators 0 and 2 exchanged.
    let swap = |c: usize| (c & 2) | ((c & 1) << 2) | ((c & 4) >> 2);
    let turned: Vec<i128> = (0..8).map(|c| values[swap(c)]).collect();
    let operators = names(&["A", "B", "C"]);
    for uptime in [dec(1, 0), dec(98, 2)] {
        let plain = calculate_shapley_values(
            &operators,
            &compute_expected_values(&table(&values, 1), uptime, 3).unwrap(),
        )
        .unwrap();
        let other = calculate_shapley_values(
            &operators,
            &compute_expected_values(&table(&turned, 1), uptime, 3).unwrap(),
        )
        .unwrap();
        assert_eq!(num(plain[0].value), num(other[2].value));
        assert_eq!(num(plain[2].value), num(other[0].value));
        assert_eq!(num(plain[1].value), num(other[1].value));
        assert_eq!(num(plain[0].percent), num(other[2].percent));
    }
}

#[test]
fn the_shapley_values_sum_to_the_worth_of_all_together() {
    // All values are multiples of 3!, so that nothing is rounded.
    let values: Vec<i128> = vec![-6000, -5940, -5100, -4200, -4920, -4800, -3900, -3840];
    let result = calculate_shapley_values(&names(&["A", "B", "C"]), &table(&values, 10)).unwrap();
    let total: Decimal = result.iter().map(|sv| num(sv.value)).sum();
    assert_eq!(total, Decimal::new(216, 0));
    // A common rise of all values changes nothing.
    let raised: Vec<i128> = values.iter().map(|v| v + 12345).collect();
    let other = calculate_shapley_values(&names(&["A", "B", "C"]), &table(&raised, 10)).unwrap();
    for (a, b) in result.iter().zip(&other) {
        assert_eq!(num(a.value), num(b.value));
        assert_eq!(num(a.percent), num(b.percent));
    }
}

#[test]
fn shapley_values_without_operators_are_empty() {
    let result = calculate_shapley_values(&[], &table(&[7], 1)).unwrap();
    assert!(result.is_empty());
    assert!(calculate_shapley_values(&names(&["A"]), &table(&[7], 1)).is_err());
    assert!(calculate_shapley_values(&names(&["A"]), &table(&[7, 8], 0)).is_err());
    assert!(calculate_shapley_values(&names(&["A"]), &table(&[0, i128::MAX], 1)).is_err());
}

#[test]
fn value_tables_share_the_finest_scale() {
    let values = vec![Some(dec(15, 1)), Some(dec(-2, 0)), Some(dec(3125, 3)), Some(dec(0, 0))];
    let found = value_table(&values).unwrap().unwrap();
    assert_eq!(found.numerators, vec![1500, -2000, 3125, 0]);
    assert_eq!(found.denominator, 1000);
    let missing = vec![Some(dec(15, 1)), None];
    assert!(value_table(&missing).unwrap().is_none());
    let wide = vec![Some(dec(79_228_162_514_264_337_593_543_950_335, 0)), Some(dec(1, 28))];
    assert!(value_table(&wide).is_err());
}

#[test]
fn rounding_is_half_to_even() {
    // In units of 0.0001.
    assert_eq!(round_to_places(5, 2), Some(25000));
    assert_eq!(round_to_places(1, 3), Some(3333));
    assert_eq!(round_to_places(2, 3), Some(6667));
    assert_eq!(round_to_places(-2, 3), Some(-6667));
    assert_eq!(round_to_places(1, 20000), Some(0));
    assert_eq!(round_to_places(3, 20000), Some(2));
    assert_eq!(round_to_places(5, 20000), Some(2));
    assert_eq!(round_to_places(-5, 20000), Some(-2));
    assert_eq!(round_to_places(7, 20000), Some(4));
    assert_eq!(round_to_places(0, 7), Some(0));
    assert_eq!(round_to_places(i128::MAX, 1), None);
    assert_eq!(round_to_places(10_i128.pow(25), 1), Some(10_i128.pow(29)));
    assert_eq!(round_to_places(10_i128.pow(25) + 1, 1), None);
    for (n, d) in [(249704i64, 10000i64), (12345, 100000), (-12355, 100000), (1, 3), (-1, 6), (7, 8)] {
        let want = (Decimal::new(n, 0) / Decimal::new(d, 0)).round_dp(4);
        let found = round_to_places(n as i128, d as i128).unwrap();
        assert_eq!(Decimal::from_i128_with_scale(found, 4), want);
    }
}

#[test]
fn many_operators_keep_their_values_within_range() {
    // Fifteen operators that each add ten to whatever coalition they join,
    // with an uptime of 0.98: every operator is worth 9.8.
    let n = 15usize;
    let numerators: Vec<i128> = (0..1usize << n).map(|c| 100 * c.count_ones() as i128).collect();
    let evalue = compute_expected_values(&table(&numerators, 10), dec(98, 2), n).unwrap();
    let operators: Vec<String> = (0..n).map(|i| format!("Op{:02}", i)).collect();
    let result = calculate_shapley_values(&operators, &evalue).unwrap();
    assert!(result.iter().all(|sv| num(sv.value) == Decimal::new(98, 1)));
    assert!(result.iter().all(|sv| num(sv.percent) == Decimal::new(667, 4)));
}

#[test]
fn greatest_common_divisors() {
    assert_eq!(greatest_common_divisor(98, 100), 2);
    assert_eq!(greatest_common_divisor(100, 100), 100);
    assert_eq!(greatest_common_divisor(0, 10), 10);
    assert_eq!(greatest_common_divisor(7, 0), 7);
    assert_eq!(greatest_common_divisor(9, 10), 1);
}

#[test]
fn full_uptime_takes_every_table_within_range() {
    let svalue = table(&[i128::MAX, -i128::MAX], 7);
    let evalue = compute_expected_values(&svalue, dec(100, 2), 1).unwrap();
    assert_eq!(evalue.numerators, svalue.numerators);
    assert_eq!(evalue.denominator, 7);
    // The magnitude of the least number is out of range.
    assert!(compute_expected_values(&table(&[i128::MIN, 0], 7), dec(1, 0), 1).is_err());
}
