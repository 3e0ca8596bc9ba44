//! Fair attribution of routing-cost savings to the operators of a shared
//! communications network, by Shapley values.
//!
//! Privately owned links, public fallback links and traffic demands are
//! consolidated into one directed graph ([`lp::consolidate_map`]); the
//! graph and the demands become a multi-commodity min-cost-flow program
//! ([`lp::primitives`]); each coalition of operators gets the program
//! restricted to what its members own ([`solver::coalition_program`]); and
//! the values of the coalitions become, under operator outages, what each
//! operator is owed ([`shapley::compute_expected_values`],
//! [`shapley::calculate_shapley_values`]). [`network_shapley`] ties the
//! steps together; [`fairness`], [`symmetry`] and [`reweighting`] hold what
//! is proved of the result.

pub mod amount;
pub mod coalition_computation;
pub mod error;
pub mod fairness;
pub mod labels;
pub mod link_preparation;
pub mod lp;
pub mod lp_construction;
pub mod network_shapley;
pub mod reweighting;
pub mod sampling;
pub mod shapley;
pub mod solver;
pub mod sparse;
pub mod sums;
pub mod symmetry;
pub mod types;
pub mod utils;
pub mod validation;

pub use amount::Amount;
pub use error::ShapleyError;
pub use network_shapley::{CoalitionGame, NetworkShapley, NetworkShapleyBuilder};
pub use types::{
    Demand, DemandMatrix, Link, LinkBuilder, PrivateLinks, PublicLinks, ShapleyValue,
};
