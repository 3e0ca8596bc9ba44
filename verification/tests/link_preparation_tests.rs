use network_shapley::amount::Amount;
use network_shapley::link_preparation::{
    compact_shared_ids, generate_helper_links, merge_link_components, prepare_private_links,
    prepare_public_links,
};
use network_shapley::types::{Demand, DemandMatrix, Link, LinkBuilder};
use rust_decimal::Decimal;
use std::collections::HashSet;

fn dec(mantissa: i128, scale: u32) -> Amount {
    Amount::new(mantissa, scale).unwrap()
}

fn num(amount: Amount) -> Decimal {
    Decimal::from_i128_with_scale(amount.mantissa(), amount.scale())
}

fn link(start: &str, end: &str) -> LinkBuilder {
    LinkBuilder::new(start.to_string(), end.to_string())
}

#[test]
fn test_prepare_private_links() {
    let mut links = vec![
        link("NYC1", "LAX1")
            .cost(dec(10, 0))
            .bandwidth(dec(100, 0))
            .operator1("Op1".to_string())
            .uptime(dec(9, 1))
            .shared(0)
            .build(),
        link("LAX1", "CHI1")
            .cost(dec(20, 0))
            .bandwidth(dec(200, 0))
            .operator1("Op2".to_string())
            .operator2("Op3".to_string())
            .uptime(dec(10, 1))
            .shared(1)
            .build(),
    ];

    let result = prepare_private_links(&mut links).unwrap();

    // Should have 4 links (2 forward + 2 reverse)
    assert_eq!(result.len(), 4);

    // Check operator2 filling
    assert_eq!(result[0].operator2, "Op1");

    // Check bandwidth adjustment for uptime
    assert_eq!(num(result[0].bandwidth), Decimal::new(90, 0)); // 100 * 0.9
    assert_eq!(num(result[2].bandwidth), Decimal::new(200, 0)); // 200 * 1.0

    // Check bidirectional links
    assert_eq!(result[0].start, "NYC1");
    assert_eq!(result[0].end, "LAX1");
    assert_eq!(result[1].start, "LAX1");
    assert_eq!(result[1].end, "NYC1");

    // Check shared ID compaction
    let shared_ids: HashSet<usize> = result.iter().map(|l| l.shared).collect();
    let mut sorted_shared: Vec<usize> = shared_ids.into_iter().collect();
    sorted_shared.sort();
    assert_eq!(sorted_shared, vec![1, 2, 3, 4]);
}

#[test]
fn prepare_private_links_assigns_groups_in_order() {
    let mut links = vec![
        link("NYC1", "LAX1").operator1("Op1".to_string()).build(),
        link("LAX1", "CHI1").operator1("Op2".to_string()).shared(1).build(),
    ];
    let result = prepare_private_links(&mut links).unwrap();
    // Forward of the second link keeps group 1, its reverse is 1 + 1 = 2, and
    // the two directions of the first link get the fresh groups 3 and 4.
    let shared: Vec<usize> = result.iter().map(|l| l.shared).collect();
    assert_eq!(shared, vec![3, 4, 1, 2]);
    assert!(result.iter().all(|l| l.link_type == 0));
    // The input has its second owner filled in too.
    assert_eq!(links[0].operator2, "Op1");
    assert_eq!(links[1].operator2, "Op2");
}

#[test]
fn prepare_private_links_fills_an_empty_second_owner() {
    let mut links = vec![
        link("A1", "B1").operator1("Op1".to_string()).operator2(String::new()).build(),
        link("B1", "C1").operator1("Op1".to_string()).operator2("Op2".to_string()).build(),
    ];
    let result = prepare_private_links(&mut links).unwrap();
    assert_eq!(result[0].operator2, "Op1");
    assert_eq!(result[1].operator2, "Op1");
    assert_eq!(result[2].operator2, "Op2");
    assert_eq!(result[3].operator1, "Op1");
    assert_eq!(result[3].start, "C1");
}

#[test]
fn test_prepare_public_links() {
    let links = vec![
        link("NYC1", "LAX1").cost(dec(50, 0)).build(),
        link("LAX1", "CHI1").cost(dec(60, 0)).build(),
    ];

    let result = prepare_public_links(&links).unwrap();

    // Should have 4 links (2 forward + 2 reverse)
    assert_eq!(result.len(), 4);

    // Check bidirectional links
    assert_eq!(result[0].start, "NYC1");
    assert_eq!(result[0].end, "LAX1");
    assert_eq!(result[1].start, "LAX1");
    assert_eq!(result[1].end, "NYC1");

    // Check link type is set to 0
    assert!(result.iter().all(|l| l.link_type == 0));
}

#[test]
fn test_generate_helper_links() {
    let public_links = vec![
        link("NYC1", "LAX1").build(),
        link("NYC2", "LAX2").build(),
        link("LAX1", "NYC1").build(),
    ];

    let demands = vec![Demand::new("NYC".to_string(), "LAX".to_string(), dec(10, 0), 1)];
    let demand_matrix = DemandMatrix::from_demands(demands);

    let result = generate_helper_links(&public_links, &demand_matrix).unwrap();

    // Should have:
    // - 1 direct path (NYC->LAX)
    // - 2 source helpers (NYC->NYC1, NYC->NYC2)
    // - 2 destination helpers (LAX1->LAX, LAX2->LAX)
    assert!(result.len() >= 3); // At least these

    // Check for zero-cost helpers
    let zero_cost_links: Vec<&Link> =
        result.iter().filter(|l| num(l.cost) == Decimal::new(0, 0)).collect();
    assert!(!zero_cost_links.is_empty());

    // Check traffic type assignment
    assert!(result.iter().all(|l| l.link_type == 1));
}

#[test]
fn helper_links_come_in_a_fixed_order() {
    let public_links = vec![
        link("NYC1", "LAX1").cost(dec(70, 0)).build(),
        link("NYC2", "LAX2").cost(dec(60, 0)).build(),
        link("LAX1", "NYC1").cost(dec(70, 0)).build(),
        link("NYC1", "CHI1").cost(dec(30, 0)).build(),
    ];
    let demand_matrix = DemandMatrix::from_demands(vec![
        Demand::new("NYC".to_string(), "LAX".to_string(), dec(10, 0), 2),
        Demand::new("NYC".to_string(), "CHI".to_string(), dec(10, 0), 2),
        Demand::new("LAX".to_string(), "NYC".to_string(), dec(10, 0), 1),
    ]);
    let result = generate_helper_links(&public_links, &demand_matrix).unwrap();
    let seen: Vec<(String, String, Decimal, usize)> = result
        .iter()
        .map(|l| (l.start.clone(), l.end.clone(), num(l.cost), l.link_type))
        .collect();
    let want = |a: &str, b: &str, c: i64, t: usize| {
        (a.to_string(), b.to_string(), Decimal::new(c, 0), t)
    };
    assert_eq!(
        seen,
        vec![
            // type 1: LAX -> NYC
            want("LAX", "NYC", 70, 1),
            want("LAX", "LAX1", 0, 1),
            want("LAX", "LAX2", 0, 1),
            want("NYC1", "NYC", 0, 1),
            want("NYC2", "NYC", 0, 1),
            // type 2: NYC -> LAX (cheapest of 70 and 60), NYC -> CHI
            want("NYC", "LAX", 60, 2),
            want("NYC", "CHI", 30, 2),
            want("NYC", "NYC1", 0, 2),
            want("NYC", "NYC2", 0, 2),
            want("LAX1", "LAX", 0, 2),
            want("LAX2", "LAX", 0, 2),
            want("CHI1", "CHI", 0, 2),
        ]
    );
    assert!(result.iter().all(|l| l.operator1 == "0" && l.operator2 == "0" && l.shared == 0));
}

#[test]
fn test_merge_link_components() {
    let private_links =
        vec![link("NYC1", "LAX1").operator1("Op1".to_string()).bandwidth(dec(100, 0)).build()];

    let public_links = vec![link("NYC1", "LAX1").cost(dec(50, 0)).build()];

    let helper_links = vec![link("NYC", "NYC1").link_type(1).build()];

    let result =
        merge_link_components(private_links, public_links, helper_links, dec(5, 0)).unwrap();

    assert_eq!(result.len(), 3);

    // Check private link is first
    assert_eq!(result[0].operator1, "Op1");

    // Check public link has penalty and operator "0"
    assert_eq!(num(result[1].cost), Decimal::new(55, 0)); // 50 + 5
    assert_eq!(result[1].operator1, "0");
    assert_eq!(num(result[1].bandwidth), Decimal::new(0, 0));

    // Check helper link properties
    assert_eq!(num(result[2].cost), Decimal::new(0, 0));
    assert_eq!(result[2].operator1, "0");
}

#[test]
fn merge_penalises_public_links_only() {
    let public_links = vec![
        link("NYC1", "LAX1")
            .cost(dec(505, 1))
            .bandwidth(dec(9, 0))
            .operator1("X".to_string())
            .uptime(dec(5, 1))
            .shared(7)
            .build(),
    ];
    let helper_links = vec![link("NYC", "NYC1").cost(dec(3, 0)).bandwidth(dec(4, 0)).link_type(2).build()];
    let result =
        merge_link_components(Vec::new(), public_links, helper_links, dec(25, 1)).unwrap();
    assert_eq!(num(result[0].cost), Decimal::new(53, 0));
    assert_eq!(num(result[0].bandwidth), Decimal::ZERO);
    assert_eq!(num(result[0].uptime), Decimal::ONE);
    assert_eq!(result[0].operator1, "0");
    assert_eq!(result[0].operator2, "0");
    assert_eq!(result[0].shared, 0);
    assert_eq!(num(result[1].cost), Decimal::new(3, 0));
    assert_eq!(num(result[1].bandwidth), Decimal::ZERO);
    assert_eq!(result[1].link_type, 2);
}

#[test]
fn test_compact_shared_ids() {
    let mut links = vec![
        link("A", "B").shared(5).operator1("Op1".to_string()).build(),
        link("B", "C").operator1("Op2".to_string()).build(),
        link("C", "D").shared(10).operator1("Op3".to_string()).build(),
        link("D", "E").operator1("Op4".to_string()).build(),
    ];

    compact_shared_ids(&mut links).unwrap();

    // Check that shared IDs are compacted to 1, 2, 3, 4
    let shared_ids: HashSet<usize> = links.iter().map(|l| l.shared).collect();
    assert_eq!(shared_ids, HashSet::from([1, 2, 3, 4]));
}

#[test]
fn compaction_keeps_the_order_of_the_groups() {
    let mut links = vec![
        link("A", "B").shared(5).operator1("Op1".to_string()).build(),
        link("B", "C").operator1("Op2".to_string()).build(),
        link("C", "D").shared(10).operator1("Op3".to_string()).build(),
        link("D", "E").build(),
        link("E", "F").shared(5).operator1("Op4".to_string()).build(),
        link("F", "G").operator1("Op4".to_string()).build(),
    ];
    compact_shared_ids(&mut links).unwrap();
    let shared: Vec<usize> = links.iter().map(|l| l.shared).collect();
    // 5 -> 1, 10 -> 2, the fresh ids 11 and 12 -> 3 and 4; the unowned link
    // stays in no group.
    assert_eq!(shared, vec![1, 3, 2, 0, 1, 4]);
}

#[test]
fn overflowing_amounts_are_reported() {
    let huge = dec(79_228_162_514_264_337_593_543_950_335, 0);
    let mut links = vec![link("A1", "B1").operator1("Op".to_string()).bandwidth(huge).uptime(dec(2, 0)).build()];
    assert!(prepare_private_links(&mut links).is_err());
    let public_links = vec![link("A1", "B1").cost(huge).build()];
    assert!(merge_link_components(Vec::new(), public_links, Vec::new(), huge).is_err());
}

#[test]
fn ramps_reach_the_switches_at_both_ends_of_a_public_link() {
    // The only switch of the source city ends a link, the only switch of
    // the destination city starts one.
    let public_links = vec![link("LAX1", "NYC1").cost(dec(70, 0)).build()];
    let demand_matrix =
        DemandMatrix::from_demands(vec![Demand::new("NYC".to_string(), "LAX".to_string(), dec(10, 0), 1)]);
    let result = generate_helper_links(&public_links, &demand_matrix).unwrap();
    let seen: Vec<(String, String, Decimal, usize)> = result
        .iter()
        .map(|l| (l.start.clone(), l.end.clone(), num(l.cost), l.link_type))
        .collect();
    assert_eq!(
        seen,
        vec![
            ("NYC".to_string(), "NYC1".to_string(), Decimal::new(0, 0), 1),
            ("LAX1".to_string(), "LAX".to_string(), Decimal::new(0, 0), 1),
        ]
    );
}
