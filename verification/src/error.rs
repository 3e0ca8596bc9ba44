//! The ways in which a computation can fail.

use vstd::prelude::*;

verus! {

/// Which of the two link tables an error speaks of.
#[derive(Clone, Copy, Debug, PartialEq, Eq, Structural)]
pub enum LinkKind {
    /// The privately owned links.
    Private,
    /// The public fallback links.
    Public,
}

/// What the public link set fails to reach.
#[derive(Clone, Copy, Debug, PartialEq, Eq, Structural)]
pub enum PathwayGap {
    /// Switches of private links that no public link touches.
    Switches,
    /// Demand cities in which no public link has a switch.
    DemandPoints,
}

/// Why a computation was refused or given up.
#[derive(Debug)]
pub enum ShapleyError {
    /// A link table is empty.
    EmptyLinks(LinkKind),
    /// A switch label of the named table holds no digit.
    InvalidSwitchNaming(LinkKind),
    /// A demand endpoint holds a digit.
    InvalidEndpointNaming,
    /// Two demands of one type start in different cities.
    MultipleTrafficSources,
    /// The public links leave out the listed switches or demand cities.
    IncompletePublicPathway { location: PathwayGap, missing: Vec<String> },
    /// A private link names the reserved operator `"0"` as its first owner.
    ReservedOperatorName,
    /// More distinct operators than the limit.
    TooManyOperators { count: usize, limit: usize },
    /// The solver could not be set up or run, with its reason.
    LpSolveFailed(String),
    /// A number left the range in which the computation is exact, or an
    /// index did not fit; with the reason.
    ComputationError(String),
    /// A value could not be turned into a decimal, with the reason.
    DecimalConversion(String),
}

} // verus!
