use clarabel::algebra::CscMatrix;
use clarabel::solver::{
    DefaultSettingsBuilder, DefaultSolver, IPSolver, NonnegativeConeT, SolverStatus, ZeroConeT,
};
use network_shapley::amount::Amount;
use network_shapley::coalition_computation::generate_coalition_bitmap;
use network_shapley::error::ShapleyError;
use network_shapley::lp::LPPrimitives;
use network_shapley::network_shapley::{CoalitionGame, NetworkShapley, NetworkShapleyBuilder};
use network_shapley::sampling::solve_coalition_values;
use network_shapley::solver::StandardForm;
use network_shapley::sparse::{SparseMatrix, Triplet};
use network_shapley::types::{
    Demand, DemandMatrix, LinkBuilder, PrivateLinks, PublicLinks, ShapleyValue,
};
use rust_decimal::prelude::{FromPrimitive, ToPrimitive};
use rust_decimal::Decimal;

fn dec(mantissa: i128, scale: u32) -> Amount {
    Amount::new(mantissa, scale).unwrap()
}

fn num(amount: Amount) -> Decimal {
    Decimal::from_i128_with_scale(amount.mantissa(), amount.scale())
}

fn float(amount: &Amount) -> f64 {
    num(*amount).to_f64().unwrap()
}

fn link(start: &str, end: &str) -> LinkBuilder {
    LinkBuilder::new(start.to_string(), end.to_string())
}

/// Minus the least cost of the program, to eight decimal places.
fn solve(form: &StandardForm) -> Option<Amount> {
    let n = form.cost.len();
    let rows: Vec<usize> = form.matrix.triplets.iter().map(|t| t.row).collect();
    let cols: Vec<usize> = form.matrix.triplets.iter().map(|t| t.col).collect();
    let vals: Vec<f64> = form.matrix.triplets.iter().map(|t| t.value as f64).collect();
    let a = CscMatrix::new_from_triplets(form.matrix.nrows, n, rows, cols, vals);
    let p = CscMatrix::<f64>::zeros((n, n));
    let c: Vec<f64> = form.cost.iter().map(float).collect();
    let b: Vec<f64> = form.b.iter().map(float).collect();
    let mut cones = Vec::new();
    if form.n_equalities > 0 {
        cones.push(ZeroConeT(form.n_equalities));
    }
    if form.n_inequalities > 0 {
        cones.push(NonnegativeConeT(form.n_inequalities));
    }
    cones.push(NonnegativeConeT(n));
    let settings = DefaultSettingsBuilder::default()
        .verbose(false)
        .equilibrate_enable(true)
        .presolve_enable(true)
        .static_regularization_enable(false)
        .dynamic_regularization_enable(false)
        .iterative_refinement_enable(false)
        .tol_feas(1e-8)
        .tol_gap_abs(1e-8)
        .tol_gap_rel(1e-8)
        .build()
        .ok()?;
    let mut solver = DefaultSolver::new(&p, &c, &a, &b, &cones, settings).ok()?;
    solver.solve();
    match solver.solution.status {
        SolverStatus::Solved => {
            let cost: f64 = solver.solution.x.iter().zip(&c).map(|(x, c)| x * c).sum();
            let value = Decimal::from_f64(-cost)?.round_dp(8);
            Amount::new(value.mantissa(), value.scale())
        }
        _ => None,
    }
}

fn run(inputs: &NetworkShapley) -> Result<Vec<ShapleyValue>, ShapleyError> {
    let game = inputs.prepare()?;
    let plan = game.plan();
    let solved: Vec<Option<Amount>> =
        plan.iter().map(|c| game.coalition(*c).and_then(|form| solve(&form))).collect();
    let (values, _) = solve_coalition_values(game.operators.len(), &plan, &solved)?;
    inputs.compute(&values)
}

#[test]
fn test_solve_coalition_values_parallel_path() {
    let operators = vec![
        "Op1".to_string(),
        "Op2".to_string(),
        "Op3".to_string(),
        "Op4".to_string(),
        "Op5".to_string(),
    ];

    // A simple program: ten variables, five of them owned, and five
    // constraints of each kind on the diagonal.
    let n_links = 10;
    let n_constraints = 5;
    let diagonal = |value: i64| -> Vec<Triplet> {
        (0..n_constraints).map(|i| Triplet { row: i, col: i, value }).collect()
    };
    let a_eq = SparseMatrix::from_triplets(n_constraints, n_links, diagonal(1)).unwrap();
    let a_ub = SparseMatrix::from_triplets(n_constraints, n_links, diagonal(1)).unwrap();
    let col_index1: Vec<String> = (0..n_links)
        .map(|i| if i < 5 { format!("Op{}", (i % 5) + 1) } else { "0".to_string() })
        .collect();
    let primitives = LPPrimitives {
        a_eq,
        a_ub,
        b_eq: vec![dec(1, 0); n_constraints],
        b_ub: vec![dec(100, 0); n_constraints],
        cost: vec![dec(1, 0); n_links],
        row_index1: vec!["Op1".to_string(); n_constraints],
        row_index2: vec!["Op1".to_string(); n_constraints],
        col_index2: col_index1.clone(),
        col_index1,
    };
    let bitmap = generate_coalition_bitmap(5);
    let game = CoalitionGame { operators, bitmap, primitives };
    assert!(game.is_well_formed());

    let plan = game.plan();
    let solved: Vec<Option<Amount>> =
        plan.iter().map(|c| game.coalition(*c).and_then(|form| solve(&form))).collect();
    let (values, sizes) = solve_coalition_values(5, &plan, &solved).unwrap();

    // With 5 operators, we have 2^5 = 32 coalitions
    assert_eq!(values.len(), 32);
    assert_eq!(sizes.len(), 32);

    // Verify coalition sizes are correct
    assert_eq!(sizes[0], 0); // Empty coalition
    assert_eq!(sizes[31], 5); // Full coalition

    for i in 0..32 {
        let expected_size = (0..5).filter(|&bit| (i >> bit) & 1 == 1).count();
        assert_eq!(sizes[i], expected_size);
    }

    // Only the grand coalition has all five variables that the equalities
    // need.
    for i in 0..31 {
        assert_eq!(values[i], None);
    }
    assert_eq!(values[31].map(|v| num(v).round_dp(4)), Some(Decimal::new(-5, 0)));
}

fn create_example_private_links() -> PrivateLinks {
    PrivateLinks::from_links(vec![
        link("FRA1", "NYC1")
            .cost(dec(40, 0))
            .bandwidth(dec(10, 0))
            .operator1("Alpha".to_string())
            .build(),
        link("FRA1", "SIN1")
            .cost(dec(50, 0))
            .bandwidth(dec(10, 0))
            .operator1("Beta".to_string())
            .build(),
        link("SIN1", "NYC1")
            .cost(dec(80, 0))
            .bandwidth(dec(10, 0))
            .operator1("Gamma".to_string())
            .build(),
    ])
}

fn create_example_public_links() -> PublicLinks {
    PublicLinks::from_links(vec![
        link("FRA1", "NYC1").cost(dec(70, 0)).build(),
        link("FRA1", "SIN1").cost(dec(80, 0)).build(),
        link("SIN1", "NYC1").cost(dec(120, 0)).build(),
    ])
}

fn create_example_demand() -> DemandMatrix {
    DemandMatrix::from_demands(vec![
        Demand::new("SIN".to_string(), "NYC".to_string(), dec(5, 0), 1),
        Demand::new("SIN".to_string(), "FRA".to_string(), dec(5, 0), 1),
    ])
}

fn example() -> NetworkShapleyBuilder {
    NetworkShapleyBuilder::new(
        create_example_private_links(),
        create_example_public_links(),
        create_example_demand(),
    )
}

#[test]
fn test_network_shapley_example() {
    let result = run(&example().build()).unwrap();

    // Should have 3 operators
    assert_eq!(result.len(), 3);

    // Check operator names
    let operators: Vec<&str> = result.iter().map(|sv| sv.operator.as_str()).collect();
    assert!(operators.contains(&"Alpha"));
    assert!(operators.contains(&"Beta"));
    assert!(operators.contains(&"Gamma"));

    // Percentages should sum to 1
    let total: Decimal = result.iter().map(|sv| num(sv.percent)).sum();
    assert_eq!(total, Decimal::new(10, 1));

    // All percentages should be non-negative
    assert!(result.iter().all(|sv| num(sv.percent) >= Decimal::ZERO));
}

#[test]
fn test_example_run_output() {
    let result = run(&example().build()).unwrap();
    println!("result: {:#?}", result);

    // Verify we have the correct operators
    assert_eq!(result.len(), 3);
    assert_eq!(result[0].operator, "Alpha");
    assert_eq!(result[1].operator, "Beta");
    assert_eq!(result[2].operator, "Gamma");

    // Checks:
    // 1. Percentages sum to 1
    let total: Decimal = result.iter().map(|sv| num(sv.percent)).sum();
    assert_eq!(total, Decimal::new(10, 1));

    // 2. All percentages are non-negative
    assert!(result.iter().all(|sv| num(sv.percent) >= Decimal::ZERO));

    // 3. Beta and Gamma should have significant value (they provide the main paths)
    assert!(num(result[1].value) > Decimal::ZERO); // Beta
    assert!(num(result[2].value) > Decimal::ZERO); // Gamma

    // 4. The exact results:
    // Operator     Value       Percent
    // Alpha        24.9704     0.0722
    // Beta         171.9704    0.4972
    // Gamma        148.9404    0.4306
    assert!(num(result[0].value) == Decimal::new(249704, 4)); // Alpha value
    assert!(num(result[0].percent) == Decimal::new(722, 4)); // Alpha percent
    assert!(num(result[1].value) == Decimal::new(1719704, 4)); // Beta value
    assert!(num(result[1].percent) == Decimal::new(4972, 4)); // Beta percent
    assert!(num(result[2].value) == Decimal::new(1489404, 4)); // Gamma value
    assert!(num(result[2].percent) == Decimal::new(4306, 4)); // Gamma percent
}

#[test]
fn coalition_values_of_the_ring() {
    let game = example().build().prepare().unwrap();
    assert_eq!(game.operators, vec!["Alpha", "Beta", "Gamma"]);
    assert_eq!(game.n_coalitions(), 8);
    let values: Vec<Decimal> = (0..8)
        .map(|c| num(solve(&game.coalition(c).unwrap()).unwrap()).round_dp(4))
        .collect();
    let want: Vec<Decimal> = [-1000, -1000, -850, -700, -800, -800, -650, -650]
        .iter()
        .map(|v| Decimal::new(*v, 0))
        .collect();
    assert_eq!(values, want);
}

#[test]
fn single_operator_takes_everything() {
    let inputs = NetworkShapleyBuilder::new(
        PrivateLinks::from_links(vec![link("AAA1", "BBB1")
            .cost(dec(10, 0))
            .bandwidth(dec(10, 0))
            .operator1("Solo".to_string())
            .build()]),
        PublicLinks::from_links(vec![link("AAA1", "BBB1").cost(dec(100, 0)).build()]),
        DemandMatrix::from_demands(vec![Demand::new(
            "AAA".to_string(),
            "BBB".to_string(),
            dec(5, 0),
            1,
        )]),
    )
    .build();
    let result = run(&inputs).unwrap();
    assert_eq!(result.len(), 1);
    assert_eq!(result[0].operator, "Solo");
    assert_eq!(num(result[0].percent), Decimal::ONE);
    assert!(num(result[0].value) > Decimal::ZERO);
    // The direct helper costs 100, the private link 10: 5 * 90 saved, with
    // an uptime of 0.98.
    assert_eq!(num(result[0].value), Decimal::new(441, 0));
}

#[test]
fn full_uptime_gives_the_plain_shapley_values() {
    let result = run(&example().operator_uptime(dec(1, 0)).build()).unwrap();
    let values: Vec<Decimal> = result.iter().map(|sv| num(sv.value)).collect();
    // From the coalition values 0, 0, 150, 300, 200, 200, 350, 350 above
    // the empty coalition.
    assert_eq!(
        values,
        vec![Decimal::new(250000, 4), Decimal::new(1750000, 4), Decimal::new(1500000, 4)]
    );
    let total: Decimal = values.iter().sum();
    assert_eq!(total, Decimal::new(350, 0));
}

#[test]
fn demand_multiplier_scales_values_and_keeps_shares() {
    let base = run(&example().operator_uptime(dec(1, 0)).build()).unwrap();
    let twice =
        run(&example().operator_uptime(dec(1, 0)).demand_multiplier(dec(5, 1)).build()).unwrap();
    for (a, b) in base.iter().zip(&twice) {
        assert_eq!(num(a.value), num(b.value) * Decimal::new(2, 0));
        assert_eq!(num(a.percent), num(b.percent));
    }
}

#[test]
fn the_penalty_falls_on_public_links_only_and_never_raises_a_value() {
    let with_penalty = example().build().prepare().unwrap();
    let without = example().hybrid_penalty(dec(0, 0)).build().prepare().unwrap();
    // The costs of the seventeen links: six private, six public, five helpers.
    let costs = |game: &CoalitionGame| -> Vec<Decimal> {
        game.primitives.cost.iter().map(|c| num(*c)).collect()
    };
    let dear = costs(&with_penalty);
    let cheap = costs(&without);
    for j in 0..17 {
        let rise = if (6..12).contains(&j) { Decimal::new(5, 0) } else { Decimal::ZERO };
        assert_eq!(dear[j], cheap[j] + rise);
    }
    for c in 0..8 {
        let dear = num(solve(&with_penalty.coalition(c).unwrap()).unwrap());
        let cheap = num(solve(&without.coalition(c).unwrap()).unwrap());
        assert!(cheap.round_dp(4) >= dear.round_dp(4));
    }
}

#[test]
fn eight_operators_on_a_ring() {
    let cities = ["AAA", "BBB", "CCC", "DDD", "EEE", "FFF", "GGG", "HHH"];
    let switch = |i: usize| format!("{}1", cities[i % 8]);
    let private_links: Vec<_> = (0..8)
        .map(|i| {
            LinkBuilder::new(switch(i), switch(i + 1))
                .cost(dec(10, 0))
                .bandwidth(dec(10, 0))
                .operator1(format!("Op{}", i))
                .build()
        })
        .collect();
    let public_links: Vec<_> =
        (0..8).map(|i| LinkBuilder::new(switch(i), switch(i + 1)).cost(dec(50, 0)).build()).collect();
    let demand = DemandMatrix::from_demands(vec![
        Demand::new("AAA".to_string(), "EEE".to_string(), dec(5, 0), 1),
        Demand::new("AAA".to_string(), "CCC".to_string(), dec(3, 0), 1),
        Demand::new("DDD".to_string(), "GGG".to_string(), dec(4, 0), 2),
    ]);
    let inputs = NetworkShapleyBuilder::new(
        PrivateLinks::from_links(private_links),
        PublicLinks::from_links(public_links),
        demand,
    )
    .build();
    let result = run(&inputs).unwrap();
    assert_eq!(result.len(), 8);
    let operators: Vec<&str> = result.iter().map(|sv| sv.operator.as_str()).collect();
    assert_eq!(operators, vec!["Op0", "Op1", "Op2", "Op3", "Op4", "Op5", "Op6", "Op7"]);
    assert!(result.iter().all(|sv| num(sv.percent) >= Decimal::ZERO));
    let total: Decimal = result.iter().map(|sv| num(sv.percent)).sum();
    assert!((total - Decimal::ONE).abs() <= Decimal::new(4, 4));
    // With everybody the traffic costs 5 * 40 + 3 * 20 + 4 * 30 = 380, on
    // public links alone 5 * 220 + 3 * 110 + 4 * 165 = 2090; with outages
    // somewhat less than the difference is shared out.
    let worth: Decimal = result.iter().map(|sv| num(sv.value)).sum();
    assert!(worth > Decimal::new(1400, 0));
    assert!(worth < Decimal::new(1710, 0));
}

#[test]
fn an_infeasible_coalition_gives_all_zero() {
    let inputs = example().build();
    let mut values: Vec<Option<Amount>> = vec![Some(dec(-1000, 0)); 8];
    values[3] = None;
    let result = inputs.compute(&values).unwrap();
    assert_eq!(result.len(), 3);
    assert_eq!(result[0].operator, "Alpha");
    assert!(result.iter().all(|sv| num(sv.value) == Decimal::ZERO));
    assert!(result.iter().all(|sv| num(sv.percent) == Decimal::ZERO));
    // One value per coalition is needed.
    assert!(inputs.compute(&vec![Some(dec(0, 0)); 7]).is_err());
}

#[test]
fn compute_reports_broken_rules() {
    let inputs = NetworkShapleyBuilder::new(
        PrivateLinks::from_links(vec![link("AAA1", "BBB1").operator1("0".to_string()).build()]),
        create_example_public_links(),
        create_example_demand(),
    )
    .build();
    assert!(matches!(inputs.prepare().unwrap_err(), ShapleyError::ReservedOperatorName));
    assert!(matches!(inputs.compute(&Vec::new()).unwrap_err(), ShapleyError::ReservedOperatorName));
    let inputs = NetworkShapleyBuilder::new(
        create_example_private_links(),
        create_example_public_links(),
        DemandMatrix::from_demands(vec![Demand::new(
            "SIN1".to_string(),
            "NYC".to_string(),
            dec(5, 0),
            1,
        )]),
    )
    .build();
    assert!(matches!(inputs.prepare().unwrap_err(), ShapleyError::InvalidEndpointNaming));
}

#[test]
fn builder_defaults() {
    let inputs = example().build();
    assert_eq!(num(inputs.operator_uptime), Decimal::new(98, 2));
    assert_eq!(num(inputs.hybrid_penalty), Decimal::new(5, 0));
    assert_eq!(num(inputs.demand_multiplier), Decimal::new(1, 0));
    let inputs = example()
        .operator_uptime(dec(5, 1))
        .hybrid_penalty(dec(0, 0))
        .demand_multiplier(dec(3, 0))
        .build();
    assert_eq!(num(inputs.operator_uptime), Decimal::new(5, 1));
    assert_eq!(num(inputs.hybrid_penalty), Decimal::ZERO);
    assert_eq!(num(inputs.demand_multiplier), Decimal::new(3, 0));
}
