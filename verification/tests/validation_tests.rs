use network_shapley::amount::Amount;
use network_shapley::error::{LinkKind, PathwayGap, ShapleyError};
use network_shapley::lp::consolidate_map;
use network_shapley::types::{Demand, DemandMatrix, Link, LinkBuilder, PrivateLinks, PublicLinks};
use network_shapley::validation::{
    check_inputs, validate_endpoint_naming, validate_operator_names,
    validate_public_pathway_coverage, validate_switch_naming, validate_traffic_types,
};

fn dec(mantissa: i128, scale: u32) -> Amount {
    Amount::new(mantissa, scale).unwrap()
}

fn private(start: &str, end: &str, operator: &str) -> Link {
    LinkBuilder::new(start.to_string(), end.to_string())
        .cost(dec(50, 0))
        .bandwidth(dec(10, 0))
        .operator1(operator.to_string())
        .build()
}

fn public(start: &str, end: &str) -> Link {
    LinkBuilder::new(start.to_string(), end.to_string()).cost(dec(100, 0)).build()
}

fn demand(start: &str, end: &str, kind: usize) -> Demand {
    Demand::new(start.to_string(), end.to_string(), dec(1, 0), kind)
}

fn check(private_links: Vec<Link>, public_links: Vec<Link>, demands: Vec<Demand>) -> Result<(), ShapleyError> {
    check_inputs(
        &PrivateLinks::from_links(private_links),
        &PublicLinks::from_links(public_links),
        &DemandMatrix::from_demands(demands),
    )
}

#[test]
fn test_valid_inputs() {
    let private_links = vec![private("SIN1", "FRA1", "Alpha")];
    let public_links = vec![public("SIN1", "FRA1")];
    let demands = vec![demand("SIN", "FRA", 1)];

    assert!(check(private_links, public_links, demands).is_ok());
}

#[test]
fn test_too_many_operators() {
    let mut private_links = Vec::new();
    for i in 0..25 {
        private_links.push(private("A1", "B1", &format!("Op{i}")));
    }
    let public_links = vec![public("A1", "B1")];
    let demands = vec![demand("A", "B", 1)];

    let result = check(private_links, public_links, demands);
    assert!(matches!(result, Err(ShapleyError::TooManyOperators { .. })));
}

#[test]
fn test_too_many_operators_with_low_uptime() {
    let mut private_links = Vec::new();
    // Create 16 operators (limit is 15)
    for i in 1..=16 {
        private_links.push(private("NYC1", "NYC2", &format!("Op{}", i)));
    }
    let result = check(private_links, vec![public("NYC1", "NYC2")], vec![demand("NYC", "NYC", 1)]);
    assert!(result.is_err());
    match result.unwrap_err() {
        ShapleyError::TooManyOperators { count, limit } => {
            assert_eq!(count, 16);
            assert_eq!(limit, 15);
        }
        _ => panic!("Expected TooManyOperators error"),
    }
}

#[test]
fn test_too_many_operators_with_full_uptime() {
    let mut private_links = Vec::new();
    // Create 21 operators (limit is 15, whatever the uptime)
    for i in 1..=21 {
        private_links.push(private("NYC1", "NYC2", &format!("Op{}", i)));
    }
    let result = check(private_links, vec![public("NYC1", "NYC2")], vec![demand("NYC", "NYC", 1)]);
    assert!(result.is_err());
    match result.unwrap_err() {
        ShapleyError::TooManyOperators { count, limit } => {
            assert_eq!(count, 21);
            assert_eq!(limit, 15);
        }
        _ => panic!("Expected TooManyOperators error"),
    }
}

#[test]
fn test_public_operator_name_rejected() {
    let result = check(
        vec![private("NYC1", "LON1", "0"), private("NYC1", "LON1", "Beta")],
        vec![public("NYC1", "LON1")],
        vec![demand("NYC", "LON", 1)],
    );
    assert!(result.is_err());
    match result.unwrap_err() {
        ShapleyError::ReservedOperatorName => {}
        _ => panic!("Expected an error for the reserved operator name"),
    }
}

#[test]
fn fifteen_operators_are_accepted() {
    let mut private_links = Vec::new();
    for i in 1..=8 {
        let mut link = private("NYC1", "NYC2", &format!("Op{}", i));
        if i < 8 {
            link.operator2 = format!("Other{}", i);
        }
        private_links.push(link);
    }
    assert!(validate_operator_names(&private_links).is_ok());
    private_links.push(private("NYC1", "NYC2", "Op16"));
    assert!(matches!(
        validate_operator_names(&private_links),
        Err(ShapleyError::TooManyOperators { count: 16, limit: 15 })
    ));
}

#[test]
fn test_empty_private_links_rejected() {
    let result = check(Vec::new(), vec![public("NYC1", "LON1")], vec![demand("NYC", "LON", 1)]);
    assert!(result.is_err());
    assert!(matches!(result.unwrap_err(), ShapleyError::EmptyLinks(LinkKind::Private)));
}

#[test]
fn empty_public_links_rejected() {
    let result = check(vec![private("NYC1", "LON1", "Alpha")], Vec::new(), vec![demand("NYC", "LON", 1)]);
    assert!(matches!(result.unwrap_err(), ShapleyError::EmptyLinks(LinkKind::Public)));
}

#[test]
fn test_device_without_digit_rejected() {
    let result = check(
        vec![private("NYCX", "LON1", "Alpha")],
        vec![public("NYC1", "LON1")],
        vec![demand("NYC", "LON", 1)],
    );
    assert!(result.is_err());
    match result.unwrap_err() {
        ShapleyError::InvalidSwitchNaming(kind) => assert_eq!(kind, LinkKind::Private),
        _ => panic!("Expected InvalidSwitchNaming error"),
    }
}

#[test]
fn public_switch_without_digit_rejected() {
    let result = check(
        vec![private("NYC1", "LAX1", "Alpha")],
        vec![public("NYC", "LAX")],
        vec![demand("NYC", "LAX", 1)],
    );
    assert!(matches!(result.unwrap_err(), ShapleyError::InvalidSwitchNaming(LinkKind::Public)));
    assert!(validate_switch_naming(&[public("NYC1", "LAX")], LinkKind::Public).is_err());
    assert!(validate_switch_naming(&[public("NYC1", "LAX1")], LinkKind::Public).is_ok());
}

#[test]
fn test_city_with_digit_rejected() {
    let result = check(
        vec![private("NYC1", "LON1", "Alpha")],
        vec![public("NYC1", "LON1")],
        vec![demand("NY1", "LON", 1)],
    );
    assert!(result.is_err());
    assert!(matches!(result.unwrap_err(), ShapleyError::InvalidEndpointNaming));
    let ends = DemandMatrix::from_demands(vec![demand("NYC", "LO2", 1)]);
    assert!(matches!(validate_endpoint_naming(&ends), Err(ShapleyError::InvalidEndpointNaming)));
}

#[test]
fn several_sources_of_one_type_rejected() {
    let result = check(
        vec![private("NYC1", "LON1", "Alpha")],
        vec![public("NYC1", "LON1")],
        vec![demand("NYC", "LON", 1), demand("LON", "NYC", 2), demand("LON", "NYC", 1)],
    );
    assert!(matches!(result.unwrap_err(), ShapleyError::MultipleTrafficSources));
    let shared = DemandMatrix::from_demands(vec![demand("NYC", "LON", 1), demand("NYC", "PAR", 2)]);
    assert!(validate_traffic_types(&shared).is_ok());
}

#[test]
fn test_unreachable_demand_node() {
    let result = check(
        vec![private("NYC1", "LON1", "Alpha")],
        vec![public("NYC1", "LON1")],
        vec![demand("NYC", "PAR", 1), demand("NYC", "ROM", 1), demand("NYC", "PAR", 1)],
    );
    assert!(result.is_err());
    match result.unwrap_err() {
        ShapleyError::IncompletePublicPathway { location, missing } => {
            assert_eq!(location, PathwayGap::DemandPoints);
            assert_eq!(missing, vec!["PAR", "ROM"]);
        }
        _ => panic!("Expected IncompletePublicPathway error"),
    }
}

#[test]
fn private_switch_off_the_public_links_rejected() {
    let private_links = vec![private("NYC1", "LON2", "Alpha"), private("PAR1", "LON2", "Beta")];
    let public_links = vec![public("NYC1", "LON1")];
    let demands = DemandMatrix::from_demands(vec![demand("NYC", "ROM", 1)]);
    match validate_public_pathway_coverage(&private_links, &public_links, &demands).unwrap_err() {
        ShapleyError::IncompletePublicPathway { location, missing } => {
            assert_eq!(location, PathwayGap::Switches);
            assert_eq!(missing, vec!["LON2", "PAR1"]);
        }
        _ => panic!("Expected IncompletePublicPathway error"),
    }
}

#[test]
fn reserved_operator_name_rejected() {
    let result = check(
        vec![private("NYC1", "LON1", "Alpha"), private("NYC1", "LON1", "0")],
        vec![public("NYC1", "LON1")],
        vec![demand("NYC", "LON", 1)],
    );
    assert!(matches!(result.unwrap_err(), ShapleyError::ReservedOperatorName));
    // A second owner of "0" only says that there is none.
    let mut shared = private("NYC1", "LON1", "Alpha");
    shared.operator2 = "0".to_string();
    assert!(validate_operator_names(&[shared]).is_ok());
}

#[test]
fn the_first_broken_rule_is_reported() {
    // Reserved operator comes before everything else.
    let result = check(vec![private("NYC", "LON1", "0")], Vec::new(), vec![demand("NY1", "LON", 1)]);
    assert!(matches!(result.unwrap_err(), ShapleyError::ReservedOperatorName));
    // Empty tables come before naming.
    let result = check(vec![private("NYC", "LON1", "A")], Vec::new(), vec![demand("NY1", "LON", 1)]);
    assert!(matches!(result.unwrap_err(), ShapleyError::EmptyLinks(LinkKind::Public)));
    // Private naming before public naming before endpoints.
    let result = check(
        vec![private("NYC", "LON1", "A")],
        vec![public("NYC", "LON1")],
        vec![demand("NY1", "LON", 1)],
    );
    assert!(matches!(result.unwrap_err(), ShapleyError::InvalidSwitchNaming(LinkKind::Private)));
    // The map is not built from inputs that break a rule.
    let result = consolidate_map(
        &PrivateLinks::from_links(vec![private("NYC1", "LON1", "A")]),
        &PublicLinks::from_links(vec![public("NYC1", "LON1")]),
        &DemandMatrix::from_demands(vec![demand("NY1", "LON", 1)]),
        dec(5, 0),
    );
    assert!(matches!(result.unwrap_err(), ShapleyError::InvalidEndpointNaming));
}
