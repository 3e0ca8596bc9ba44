use network_shapley::amount::Amount;
use network_shapley::lp::{consolidate_map, primitives};
use network_shapley::lp_construction::{
    build_bandwidth_constraints, build_demand_vector, build_flow_constraints, build_node_index,
    build_objective_coefficients, build_single_commodity_matrix, extract_operator_indices,
    get_valid_columns,
};
use network_shapley::sparse::{block_diagonal, horizontal_concat, select_columns, SparseMatrix, Triplet};
use network_shapley::types::{Demand, DemandMatrix, LinkBuilder, PrivateLinks, PublicLinks};
use rust_decimal::Decimal;

fn dec(mantissa: i128, scale: u32) -> Amount {
    Amount::new(mantissa, scale).unwrap()
}

fn num(amount: Amount) -> Decimal {
    Decimal::from_i128_with_scale(amount.mantissa(), amount.scale())
}

fn link(start: &str, end: &str) -> LinkBuilder {
    LinkBuilder::new(start.to_string(), end.to_string())
}

fn demand(start: &str, end: &str, traffic: i128, kind: usize) -> Demand {
    Demand::new(start.to_string(), end.to_string(), dec(traffic, 0), kind)
}

/// The entry of a matrix: the sum of its triplets at the place.
fn entry(matrix: &SparseMatrix, row: usize, col: usize) -> i64 {
    matrix.triplets.iter().filter(|t| t.row == row && t.col == col).map(|t| t.value).sum()
}

fn dense(matrix: &SparseMatrix) -> Vec<Vec<i64>> {
    (0..matrix.nrows)
        .map(|r| (0..matrix.ncols).map(|c| entry(matrix, r, c)).collect())
        .collect()
}

#[test]
fn test_build_node_index() {
    let links = vec![link("A", "B").build(), link("B", "C").build()];
    let demand_matrix = DemandMatrix::from_demands(vec![demand("A", "C", 10, 1)]);

    let node_idx = build_node_index(&links, &demand_matrix);

    assert_eq!(node_idx.len(), 3);
    assert_eq!(node_idx.get("A"), Some(0));
    assert_eq!(node_idx.get("B"), Some(1));
    assert_eq!(node_idx.get("C"), Some(2));
}

#[test]
fn node_index_sorts_and_joins_links_and_demands() {
    let links = vec![link("NYC1", "FRA1").build(), link("FRA1", "NYC1").build()];
    let demand_matrix = DemandMatrix::from_demands(vec![demand("SIN", "NYC", 1, 1)]);
    let node_idx = build_node_index(&links, &demand_matrix);
    assert_eq!(node_idx.len(), 4);
    assert_eq!(node_idx.name(0), "FRA1");
    assert_eq!(node_idx.name(1), "NYC");
    assert_eq!(node_idx.name(2), "NYC1");
    assert_eq!(node_idx.name(3), "SIN");
    assert_eq!(node_idx.get("LAX"), None);
}

#[test]
fn test_build_single_commodity_matrix() {
    let links = vec![
        link("A", "B")
            .cost(dec(1, 0))
            .bandwidth(dec(10, 0))
            .operator1("Op1".to_string())
            .operator2("Op1".to_string())
            .shared(1)
            .build(),
        link("B", "C")
            .cost(dec(1, 0))
            .bandwidth(dec(10, 0))
            .operator1("Op1".to_string())
            .operator2("Op1".to_string())
            .shared(1)
            .build(),
    ];
    let node_idx = build_node_index(&links, &DemandMatrix::from_demands(Vec::new()));

    let matrix = build_single_commodity_matrix(&links, &node_idx).unwrap();

    assert_eq!(matrix.nrows, 3);
    assert_eq!(matrix.ncols, 2);
    assert_eq!(matrix.triplets.len(), 4); // 2 entries per link
    assert_eq!(dense(&matrix), vec![vec![1, 0], vec![-1, 1], vec![0, -1]]);
}

#[test]
fn single_commodity_matrix_needs_every_node() {
    let links = vec![link("A", "B").build()];
    let node_idx = build_node_index(&[], &DemandMatrix::from_demands(vec![demand("A", "C", 1, 1)]));
    assert!(build_single_commodity_matrix(&links, &node_idx).is_err());
}

#[test]
fn test_build_flow_constraints() {
    let links = vec![link("A", "B").build(), link("B", "C").build()];
    let demand_matrix = DemandMatrix::from_demands(vec![demand("A", "C", 10, 1)]);

    let node_idx = build_node_index(&links, &demand_matrix);
    let (a_eq, b_eq, keep) = build_flow_constraints(&links, &demand_matrix, &node_idx).unwrap();

    // Check matrix dimensions
    assert_eq!(a_eq.nrows, 3); // 3 nodes
    assert_eq!(a_eq.ncols, 2); // 2 links

    // Check demand vector
    assert_eq!(num(b_eq[0]), Decimal::new(10, 0)); // Source A
    assert_eq!(num(b_eq[2]), Decimal::new(-10, 0)); // Sink C
    assert_eq!(num(b_eq[1]), Decimal::new(0, 0)); // Intermediate B

    // Check keep vector
    assert_eq!(keep, vec![0, 1]);
}

#[test]
fn flow_constraints_of_two_commodities() {
    // Link 0 is open to all, link 1 to type 2 only, link 2 to type 5 only.
    let links = vec![
        link("A", "B").build(),
        link("B", "C").link_type(2).build(),
        link("B", "C").link_type(5).build(),
    ];
    let demand_matrix = DemandMatrix::from_demands(vec![
        demand("A", "C", 4, 5),
        demand("A", "B", 3, 2),
        demand("A", "C", 6, 5),
    ]);
    let node_idx = build_node_index(&links, &demand_matrix);
    let (a_eq, b_eq, keep) = build_flow_constraints(&links, &demand_matrix, &node_idx).unwrap();
    // Commodity 0 is type 2 (links 0, 1), commodity 1 is type 5 (links 0, 2).
    assert_eq!(keep, vec![0, 1, 3, 5]);
    assert_eq!(
        dense(&a_eq),
        vec![
            vec![1, 0, 0, 0],
            vec![-1, 1, 0, 0],
            vec![0, -1, 0, 0],
            vec![0, 0, 1, 0],
            vec![0, 0, -1, 1],
            vec![0, 0, 0, -1],
        ]
    );
    let b: Vec<Decimal> = b_eq.iter().map(|a| num(*a)).collect();
    let want: Vec<Decimal> = [3, -3, 0, 10, 0, -10].iter().map(|v| Decimal::new(*v, 0)).collect();
    assert_eq!(b, want);
}

#[test]
fn demand_vector_reports_a_missing_node() {
    let node_idx = build_node_index(&[link("A", "B").build()], &DemandMatrix::from_demands(Vec::new()));
    let demand_matrix = DemandMatrix::from_demands(vec![demand("A", "C", 1, 1)]);
    assert!(build_demand_vector(&demand_matrix, &node_idx, &[1]).is_err());
    // A demand of a type that is no commodity is not looked at.
    assert_eq!(build_demand_vector(&demand_matrix, &node_idx, &[2]).unwrap().len(), 2);
}

#[test]
fn valid_columns_follow_the_link_types() {
    let links = vec![
        link("A", "B").build(),
        link("B", "C").link_type(1).build(),
        link("C", "D").link_type(2).build(),
    ];
    assert_eq!(get_valid_columns(&links, &[1, 2]).unwrap(), vec![0, 1, 3, 5]);
    assert_eq!(get_valid_columns(&links, &[3]).unwrap(), vec![0]);
    assert_eq!(get_valid_columns(&links, &[]).unwrap(), Vec::<usize>::new());
}

#[test]
fn test_build_bandwidth_constraints() {
    let links = vec![
        link("A", "B").shared(1).bandwidth(dec(100, 0)).operator1("Op1".to_string()).build(),
        link("B", "C").shared(1).bandwidth(dec(100, 0)).operator1("Op1".to_string()).build(),
        link("C", "D").shared(2).bandwidth(dec(50, 0)).operator1("Op2".to_string()).build(),
    ];

    let commodities = vec![1];
    let keep = vec![0, 1, 2];
    let (a_ub, b_ub) = build_bandwidth_constraints(&links, 3, &commodities, &keep).unwrap();

    // Check matrix dimensions
    assert_eq!(a_ub.nrows, 2); // 2 shared groups
    assert_eq!(a_ub.ncols, 3); // 3 links

    // Check capacities
    assert_eq!(b_ub.len(), 2);
    assert_eq!(num(b_ub[0]), Decimal::new(100, 0));
    assert_eq!(num(b_ub[1]), Decimal::new(50, 0));
}

#[test]
fn bandwidth_rows_are_shared_by_all_commodities() {
    let links = vec![
        link("A", "B").shared(2).bandwidth(dec(7, 0)).operator1("Op1".to_string()).build(),
        link("B", "C").shared(1).bandwidth(dec(9, 0)).operator1("Op2".to_string()).build(),
        link("C", "D").shared(2).bandwidth(dec(8, 0)).operator1("Op3".to_string()).build(),
        link("A", "D").build(),
    ];
    let (a_ub, b_ub) = build_bandwidth_constraints(&links, 3, &[1, 2], &[0, 1, 2, 3, 4, 6, 7]).unwrap();
    assert_eq!(
        dense(&a_ub),
        vec![vec![0, 1, 0, 0, 0, 0, 0], vec![1, 0, 1, 0, 1, 1, 0]]
    );
    // The capacity of a pool is that of the first link in it.
    assert_eq!(num(b_ub[0]), Decimal::new(9, 0));
    assert_eq!(num(b_ub[1]), Decimal::new(7, 0));
    assert!(build_bandwidth_constraints(&links, 5, &[1], &[0]).is_err());
    assert!(build_bandwidth_constraints(&links, 3, &[1], &[4]).is_err());
}

#[test]
fn test_extract_operator_indices() {
    let links = vec![
        link("A", "B")
            .shared(1)
            .operator1("Op1".to_string())
            .operator2("Op1".to_string())
            .build(),
        link("B", "C")
            .shared(2)
            .operator1("Op2".to_string())
            .operator2("Op3".to_string())
            .build(),
        link("C", "D").operator1("0".to_string()).operator2("0".to_string()).build(),
    ];

    let commodities = vec![1];
    let keep = vec![0, 1, 2];
    let indices = extract_operator_indices(&links, 2, &commodities, &keep).unwrap();

    assert_eq!(indices.row_index1, vec!["Op1", "Op2"]);
    assert_eq!(indices.row_index2, vec!["Op1", "Op3"]);
    assert_eq!(indices.col_index1, vec!["Op1", "Op2", "0"]);
    assert_eq!(indices.col_index2, vec!["Op1", "Op3", "0"]);
}

#[test]
fn row_tags_come_from_the_first_link_of_a_pool() {
    let links = vec![
        link("A", "B").shared(3).operator1("Op1".to_string()).operator2("Op2".to_string()).build(),
        link("B", "C").shared(1).operator1("Op3".to_string()).operator2("Op3".to_string()).build(),
        link("C", "D").shared(3).operator1("Op4".to_string()).operator2("Op4".to_string()).build(),
    ];
    let indices = extract_operator_indices(&links, 3, &[1, 2], &[0, 2, 4]).unwrap();
    // Pool 2 is empty and belongs to nobody.
    assert_eq!(indices.row_index1, vec!["Op3", "0", "Op1"]);
    assert_eq!(indices.row_index2, vec!["Op3", "0", "Op2"]);
    assert_eq!(indices.col_index1, vec!["Op1", "Op4", "Op3"]);
    assert_eq!(indices.col_index2, vec!["Op2", "Op4", "Op3"]);
    assert!(extract_operator_indices(&links, 3, &[1, 2], &[6]).is_err());
}

#[test]
fn test_build_objective_coefficients() {
    let links = vec![
        link("A", "B").cost(dec(10, 0)).build(),
        link("B", "C").cost(dec(20, 0)).build(),
        link("C", "D").cost(dec(30, 0)).build(),
    ];

    let commodities = vec![1, 2];
    let keep = vec![0, 1, 3, 4]; // Keep some columns

    let costs = build_objective_coefficients(&links, &commodities, &keep).unwrap();

    assert_eq!(costs.len(), 4);
    assert_eq!(num(costs[0]), Decimal::new(10, 0));
    assert_eq!(num(costs[1]), Decimal::new(20, 0));
    assert_eq!(num(costs[2]), Decimal::new(10, 0)); // Second commodity
    assert_eq!(num(costs[3]), Decimal::new(20, 0));
    assert!(build_objective_coefficients(&links, &commodities, &[6]).is_err());
}

#[test]
fn sparse_operations_place_the_blocks() {
    let block = SparseMatrix::from_triplets(
        2,
        2,
        vec![
            Triplet { row: 0, col: 0, value: 1 },
            Triplet { row: 1, col: 0, value: 2 },
            Triplet { row: 1, col: 1, value: 3 },
            Triplet { row: 1, col: 1, value: 4 },
        ],
    )
    .unwrap();
    assert_eq!(dense(&block), vec![vec![1, 0], vec![2, 7]]);
    let diagonal = block_diagonal(&block, 2).unwrap();
    assert_eq!(
        dense(&diagonal),
        vec![vec![1, 0, 0, 0], vec![2, 7, 0, 0], vec![0, 0, 1, 0], vec![0, 0, 2, 7]]
    );
    let tiled = horizontal_concat(&block, 3).unwrap();
    assert_eq!(dense(&tiled), vec![vec![1, 0, 1, 0, 1, 0], vec![2, 7, 2, 7, 2, 7]]);
    let picked = select_columns(&tiled, &[5, 0, 0]).unwrap();
    assert_eq!(dense(&picked), vec![vec![0, 1, 1], vec![7, 2, 2]]);
    assert!(select_columns(&tiled, &[6]).is_err());
    assert_eq!(dense(&block_diagonal(&block, 0).unwrap()), Vec::<Vec<i64>>::new());
    assert!(SparseMatrix::from_triplets(1, 1, vec![Triplet { row: 1, col: 0, value: 1 }]).is_none());
    assert!(block_diagonal(&block, usize::MAX).is_err());
    assert!(horizontal_concat(&block, usize::MAX).is_err());
}

fn create_example_private_links() -> PrivateLinks {
    PrivateLinks::from_links(vec![
        link("FRA1", "NYC1")
            .cost(dec(40, 0))
            .bandwidth(dec(10, 0))
            .operator1("Alpha".to_string())
            .build(),
        link("FRA1", "SIN1")
            .cost(dec(50, 0))
            .bandwidth(dec(10, 0))
            .operator1("Beta".to_string())
            .build(),
        link("SIN1", "NYC1")
            .cost(dec(80, 0))
            .bandwidth(dec(10, 0))
            .operator1("Gamma".to_string())
            .build(),
    ])
}

fn create_example_public_links() -> PublicLinks {
    PublicLinks::from_links(vec![
        link("FRA1", "NYC1").cost(dec(70, 0)).build(),
        link("FRA1", "SIN1").cost(dec(80, 0)).build(),
        link("SIN1", "NYC1").cost(dec(120, 0)).build(),
    ])
}

fn create_example_demand() -> DemandMatrix {
    DemandMatrix::from_demands(vec![demand("SIN", "NYC", 5, 1), demand("SIN", "FRA", 5, 1)])
}

#[test]
fn test_consolidate_map() {
    let private_links = create_example_private_links();
    let public_links = create_example_public_links();
    let demand = create_example_demand();

    let result = consolidate_map(&private_links, &public_links, &demand, dec(5, 0)).unwrap();

    // Should have private links (bidirectional), public links (bidirectional), and helper links
    assert!(result.len() > 6); // At least 6 for bidirectional private links

    // Check that private links are first and bidirectional
    assert_eq!(result[0].operator1, "Alpha");

    // Find the reverse of the first link
    let reverse_found = result
        .iter()
        .any(|link| link.start == "NYC1" && link.end == "FRA1" && link.operator1 == "Alpha");
    assert!(reverse_found);
}

#[test]
fn consolidated_map_of_the_ring() {
    let result = consolidate_map(
        &create_example_private_links(),
        &create_example_public_links(),
        &create_example_demand(),
        dec(5, 0),
    )
    .unwrap();
    let seen: Vec<(String, String, Decimal, String, usize, usize)> = result
        .iter()
        .map(|l| {
            (l.start.clone(), l.end.clone(), num(l.cost), l.operator1.clone(), l.shared, l.link_type)
        })
        .collect();
    let want = |a: &str, b: &str, c: i64, o: &str, s: usize, t: usize| {
        (a.to_string(), b.to_string(), Decimal::new(c, 0), o.to_string(), s, t)
    };
    assert_eq!(
        seen,
        vec![
            want("FRA1", "NYC1", 40, "Alpha", 1, 0),
            want("NYC1", "FRA1", 40, "Alpha", 2, 0),
            want("FRA1", "SIN1", 50, "Beta", 3, 0),
            want("SIN1", "FRA1", 50, "Beta", 4, 0),
            want("SIN1", "NYC1", 80, "Gamma", 5, 0),
            want("NYC1", "SIN1", 80, "Gamma", 6, 0),
            want("FRA1", "NYC1", 75, "0", 0, 0),
            want("NYC1", "FRA1", 75, "0", 0, 0),
            want("FRA1", "SIN1", 85, "0", 0, 0),
            want("SIN1", "FRA1", 85, "0", 0, 0),
            want("SIN1", "NYC1", 125, "0", 0, 0),
            want("NYC1", "SIN1", 125, "0", 0, 0),
            want("SIN", "NYC", 120, "0", 0, 1),
            want("SIN", "FRA", 80, "0", 0, 1),
            want("SIN", "SIN1", 0, "0", 0, 1),
            want("FRA1", "FRA", 0, "0", 0, 1),
            want("NYC1", "NYC", 0, "0", 0, 1),
        ]
    );
    assert!(result[..6].iter().all(|l| l.operator2 == l.operator1));
    assert!(result[..6].iter().all(|l| num(l.bandwidth) == Decimal::new(10, 0)));
}

#[test]
fn test_lp_primitives() {
    let private_links = create_example_private_links();
    let public_links = create_example_public_links();
    let demand = create_example_demand();

    let link_map = consolidate_map(&private_links, &public_links, &demand, dec(5, 0)).unwrap();
    let primitives = primitives(&link_map, &demand, dec(1, 0)).unwrap();

    // Check that matrices have appropriate dimensions
    assert!(primitives.a_eq.nrows > 0);
    assert!(primitives.a_eq.ncols > 0);
    assert_eq!(primitives.b_eq.len(), primitives.a_eq.nrows);

    // Check operator indices
    assert!(!primitives.col_index1.is_empty());
    assert_eq!(primitives.col_index1.len(), primitives.col_index2.len());
}

#[test]
fn primitives_keep_their_lengths_in_step_and_scale_the_demand() {
    let demand = create_example_demand();
    let link_map = consolidate_map(
        &create_example_private_links(),
        &create_example_public_links(),
        &demand,
        dec(5, 0),
    )
    .unwrap();
    let lp = primitives(&link_map, &demand, dec(25, 1)).unwrap();
    let n = lp.cost.len();
    assert_eq!(n, 17);
    assert_eq!(lp.col_index1.len(), n);
    assert_eq!(lp.col_index2.len(), n);
    assert_eq!(lp.a_eq.ncols, n);
    assert_eq!(lp.a_ub.ncols, n);
    assert_eq!(lp.a_eq.nrows, 6);
    assert_eq!(lp.b_eq.len(), 6);
    assert_eq!(lp.a_ub.nrows, 6);
    assert_eq!(lp.b_ub.len(), 6);
    assert_eq!(lp.row_index1, vec!["Alpha", "Alpha", "Beta", "Beta", "Gamma", "Gamma"]);
    assert_eq!(lp.row_index2, lp.row_index1);
    // Nodes in order: FRA, FRA1, NYC, NYC1, SIN, SIN1. Traffic 5 * 2.5.
    let b: Vec<Decimal> = lp.b_eq.iter().map(|a| num(*a)).collect();
    let want: Vec<Decimal> =
        [-125, 0, -125, 0, 250, 0].iter().map(|v| Decimal::new(*v, 1)).collect();
    assert_eq!(b, want);
}

#[test]
fn the_multiplier_changes_the_demand_vector_and_nothing_else() {
    let demand = create_example_demand();
    let link_map = consolidate_map(
        &create_example_private_links(),
        &create_example_public_links(),
        &demand,
        dec(5, 0),
    )
    .unwrap();
    let once = primitives(&link_map, &demand, dec(1, 0)).unwrap();
    let thrice = primitives(&link_map, &demand, dec(3, 0)).unwrap();
    assert_eq!(dense(&once.a_eq), dense(&thrice.a_eq));
    assert_eq!(dense(&once.a_ub), dense(&thrice.a_ub));
    assert_eq!(once.b_ub, thrice.b_ub);
    assert_eq!(once.cost, thrice.cost);
    assert_eq!(once.row_index1, thrice.row_index1);
    assert_eq!(once.row_index2, thrice.row_index2);
    assert_eq!(once.col_index1, thrice.col_index1);
    assert_eq!(once.col_index2, thrice.col_index2);
    assert_eq!(once.b_eq.len(), thrice.b_eq.len());
    for (a, b) in once.b_eq.iter().zip(&thrice.b_eq) {
        assert_eq!(num(*a) * Decimal::new(3, 0), num(*b));
    }
    assert!(once.b_eq.iter().any(|a| num(*a) != Decimal::ZERO));
}
