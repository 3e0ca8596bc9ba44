//! From the inputs to the linear program: the consolidated link map, and
//! the matrices and vectors that the solver is handed.

use crate::amount::Amount;
use crate::error::ShapleyError;
use crate::labels::{is_public_operator, public_operator, texts};
use crate::link_preparation::{
    derating_fits, generate_helper_links, groups_fit, helper_links, is_group_compaction,
    lemma_group_compaction_unique, max_shared, merge_link_components, merged, penalty_fits,
    prepare_private_links, prepare_public_links, private_doubled, public_prepared,
};
use crate::lp_construction::{
    are_column_tags, are_row_tags, build_bandwidth_constraints, build_flow_constraints,
    build_node_index, build_objective_coefficients, extract_operator_indices, is_bandwidth_matrix,
    is_capacity_vector, is_cost_vector, is_demand_vector, is_flow_matrix, is_keep_list,
    is_node_list, is_valid_column, lemma_keep_list_unique, lemma_node_list_of_same_ends,
    node_list, requirements_fit,
};
use crate::sparse::{at, SparseMatrix};
use crate::types::{
    Demand, demand_views, DemandMatrix, DemandView, is_type_list, lemma_type_list_of_same_types,
    Link, link_views, LinkView, PrivateLinks, PublicLinks, type_list,
};
use crate::validation::{map_violation, reports, validate_map};
use vstd::prelude::*;

verus! {

/// The parts of the linear program
/// `minimise cost . x  subject to  a_eq x = b_eq,  a_ub x <= b_ub,  x >= 0`,
/// with the operators that each bandwidth row and each variable belongs to.
#[derive(Debug)]
pub struct LPPrimitives {
    /// Flow conservation: one row per node and commodity.
    pub a_eq: SparseMatrix,
    /// Bandwidth: one row per shared-capacity pool.
    pub a_ub: SparseMatrix,
    /// What each node must send out, per commodity.
    pub b_eq: Vec<Amount>,
    /// The capacity of each pool.
    pub b_ub: Vec<Amount>,
    /// The cost of a unit of flow on each variable.
    pub cost: Vec<Amount>,
    /// The first owner of each bandwidth row.
    pub row_index1: Vec<String>,
    /// The second owner of each bandwidth row.
    pub row_index2: Vec<String>,
    /// The first owner of each variable.
    pub col_index1: Vec<String>,
    /// The second owner of each variable.
    pub col_index2: Vec<String>,
}

impl LPPrimitives {
    /// The parts fit together: every vector is as long as the side of the
    /// matrix it belongs to, and both matrices have one column per variable.
    pub open spec fn well_formed(&self) -> bool {
        &&& self.a_eq.well_formed()
        &&& self.a_ub.well_formed()
        &&& self.b_eq.len() == self.a_eq.nrows
        &&& self.b_ub.len() == self.a_ub.nrows
        &&& self.cost.len() == self.a_eq.ncols
        &&& self.cost.len() == self.a_ub.ncols
        &&& self.row_index1.len() == self.a_ub.nrows
        &&& self.row_index2.len() == self.a_ub.nrows
        &&& self.col_index1.len() == self.cost.len()
        &&& self.col_index2.len() == self.cost.len()
    }
}

impl LPPrimitives {
    /// Whether the parts fit together.
    pub fn is_well_formed(&self) -> (fine: bool)
        ensures
            fine == self.well_formed(),
    {
        self.a_eq.is_well_formed() && self.a_ub.is_well_formed() && self.b_eq.len()
            == self.a_eq.nrows && self.b_ub.len() == self.a_ub.nrows && self.cost.len()
            == self.a_eq.ncols && self.cost.len() == self.a_ub.ncols && self.row_index1.len()
            == self.a_ub.nrows && self.row_index2.len() == self.a_ub.nrows
            && self.col_index1.len() == self.cost.len() && self.col_index2.len()
            == self.cost.len()
    }
}

/// The private and public links can be prepared and merged without a
/// number leaving its range.
pub open spec fn map_fits(
    private_links: Seq<LinkView>,
    public_links: Seq<LinkView>,
    hybrid_penalty: Amount,
) -> bool {
    &&& derating_fits(private_links)
    &&& 2 * max_shared(private_links) <= usize::MAX
    &&& groups_fit(private_doubled(private_links))
    &&& penalty_fits(public_prepared(public_links), hybrid_penalty)
}

/// `map` is the consolidated link map of the inputs: the prepared private
/// links, then the prepared public links with the penalty, then the helper
/// links.
pub open spec fn is_consolidated(
    map: Seq<LinkView>,
    private_links: Seq<LinkView>,
    public_links: Seq<LinkView>,
    demands: Seq<DemandView>,
    hybrid_penalty: Amount,
) -> bool {
    exists|prepared: Seq<LinkView>|
        {
            &&& is_group_compaction(private_doubled(private_links), prepared)
            &&& map == merged(
                prepared,
                public_prepared(public_links),
                helper_links(public_prepared(public_links), demands),
                hybrid_penalty,
            )
        }
}

/// The inputs have one consolidated link map only.
pub proof fn lemma_consolidated_unique(
    first: Seq<LinkView>,
    second: Seq<LinkView>,
    private_links: Seq<LinkView>,
    public_links: Seq<LinkView>,
    demands: Seq<DemandView>,
    hybrid_penalty: Amount,
)
    requires
        is_consolidated(first, private_links, public_links, demands, hybrid_penalty),
        is_consolidated(second, private_links, public_links, demands, hybrid_penalty),
    ensures
        first == second,
{
    let a = choose|prepared: Seq<LinkView>|
        {
            &&& is_group_compaction(private_doubled(private_links), prepared)
            &&& first == merged(
                prepared,
                public_prepared(public_links),
                helper_links(public_prepared(public_links), demands),
                hybrid_penalty,
            )
        };
    let b = choose|prepared: Seq<LinkView>|
        {
            &&& is_group_compaction(private_doubled(private_links), prepared)
            &&& second == merged(
                prepared,
                public_prepared(public_links),
                helper_links(public_prepared(public_links), demands),
                hybrid_penalty,
            )
        };
    lemma_group_compaction_unique(private_doubled(private_links), a, b);
}

/// A copy of `links`.
fn clone_links(links: &Vec<Link>) -> (copy: Vec<Link>)
    ensures
        link_views(copy@) == link_views(links@),
{
    let mut copy: Vec<Link> = Vec::new();
    let mut i: usize = 0;
    while i < links.len()
        invariant
            i <= links.len(),
            copy.len() == i,
            forall|j: int| 0 <= j < i ==> (#[trigger] copy[j])@ == links[j]@,
        decreases links.len() - i,
    {
        copy.push(links[i].clone());
        i += 1;
    }
    assert(link_views(copy@) =~= link_views(links@));
    copy
}

/// Builds the one link map that the linear program is made from. The
/// inputs are checked first, and the first broken rule is reported; then
/// the private links are prepared, the public links doubled, the helper
/// links generated, and all of them merged.
pub fn consolidate_map(
    private_links: &PrivateLinks,
    public_links: &PublicLinks,
    demand: &DemandMatrix,
    hybrid_penalty: Amount,
) -> (map: Result<Vec<Link>, ShapleyError>)
    ensures
        match map_violation(
            link_views(private_links.links@),
            link_views(public_links.links@),
            demand_views(demand.demands@),
        ) {
            Some(v) => map is Err && reports(map->Err_0, v),
            None => {
                &&& map is Ok <==> map_fits(
                    link_views(private_links.links@),
                    link_views(public_links.links@),
                    hybrid_penalty,
                )
                &&& map is Err ==> map->Err_0 is ComputationError
            },
        },
        map is Ok ==> is_consolidated(
            link_views(map->Ok_0@),
            link_views(private_links.links@),
            link_views(public_links.links@),
            demand_views(demand.demands@),
            hybrid_penalty,
        ),
{
    validate_map(private_links, public_links, demand)?;
    let mut private_links_mut = clone_links(&private_links.links);
    let private_df = prepare_private_links(&mut private_links_mut)?;
    let public_df = prepare_public_links(public_links.links.as_slice())?;
    let helper_df = generate_helper_links(public_df.as_slice(), demand)?;
    let ghost prepared = link_views(private_df@);
    let map = merge_link_components(private_df, public_df, helper_df, hybrid_penalty)?;
    Ok(map)
}

/// How many of the first `n` links have an owner other than `"0"`.
pub open spec fn owned_count(links: Seq<LinkView>, n: int) -> int
    decreases n,
{
    if n <= 0 {
        0
    } else {
        owned_count(links, n - 1) + if links[n - 1].operator1 != public_operator() {
            1int
        } else {
            0int
        }
    }
}

/// The traffic of every demand can be multiplied by `multiplier`.
pub open spec fn scaling_fits(demands: Seq<DemandView>, multiplier: Amount) -> bool {
    forall|d: int|
        0 <= d < demands.len() ==> (#[trigger] demands[d]).traffic.product(multiplier) is Some
}

/// The demands with their traffic multiplied by `multiplier`.
pub open spec fn scaled_demands(demands: Seq<DemandView>, multiplier: Amount) -> Seq<DemandView> {
    Seq::new(
        demands.len(),
        |d: int|
            DemandView { traffic: demands[d].traffic.product(multiplier).unwrap(), ..demands[d] },
    )
}

/// All of `lp` but its demand vector is what the link map `links` and the
/// demands `demands` ask for, with `keep` the variables it has: the
/// commodities are the traffic types in rising order, the nodes the ends
/// of links and demands in lexicographic order, and the private links
/// those that come first in `links`, as many as have an owner. How much
/// traffic a demand has plays no part.
pub open spec fn is_frame(
    lp: &LPPrimitives,
    links: Seq<LinkView>,
    demands: Seq<DemandView>,
    keep: Seq<usize>,
) -> bool {
    let commodities = type_list(demands);
    let nodes = node_list(links, demands);
    let n_private = owned_count(links, links.len() as int);
    &&& is_keep_list(keep, links, commodities)
    &&& is_flow_matrix(&lp.a_eq, keep, nodes, links, commodities.len() as int)
    &&& lp.b_eq.len() == commodities.len() * nodes.len()
    &&& is_bandwidth_matrix(&lp.a_ub, keep, links, n_private)
    &&& is_capacity_vector(lp.b_ub@, links, n_private)
    &&& are_row_tags(texts(lp.row_index1@), texts(lp.row_index2@), links, n_private)
    &&& are_column_tags(texts(lp.col_index1@), texts(lp.col_index2@), links, keep)
    &&& is_cost_vector(lp.cost@, links, keep)
}

/// `lp` is the linear program of the link map `links` and the demands
/// `demands`, with `keep` the variables it has: its frame, and the demand
/// vector that says what each node must send out of each commodity.
pub open spec fn is_program(
    lp: &LPPrimitives,
    links: Seq<LinkView>,
    demands: Seq<DemandView>,
    keep: Seq<usize>,
) -> bool {
    &&& is_frame(lp, links, demands, keep)
    &&& is_demand_vector(lp.b_eq@, node_list(links, demands), demands, type_list(demands))
}

/// Two programs with the same frame differ in nothing but their demand
/// vectors: they have the same variables, costs, capacities and tags, and
/// matrices of the same size with the same entries.
pub proof fn lemma_frame_unique(
    a: &LPPrimitives,
    b: &LPPrimitives,
    links: Seq<LinkView>,
    demands: Seq<DemandView>,
    keep_a: Seq<usize>,
    keep_b: Seq<usize>,
)
    requires
        is_frame(a, links, demands, keep_a),
        is_frame(b, links, demands, keep_b),
    ensures
        keep_a == keep_b,
        a.cost@ == b.cost@,
        a.b_ub@ == b.b_ub@,
        a.b_eq.len() == b.b_eq.len(),
        texts(a.row_index1@) == texts(b.row_index1@),
        texts(a.row_index2@) == texts(b.row_index2@),
        texts(a.col_index1@) == texts(b.col_index1@),
        texts(a.col_index2@) == texts(b.col_index2@),
        a.a_eq.nrows == b.a_eq.nrows,
        a.a_eq.ncols == b.a_eq.ncols,
        a.a_ub.nrows == b.a_ub.nrows,
        a.a_ub.ncols == b.a_ub.ncols,
        forall|k: int, i: int, p: int|
            0 <= k < type_list(demands).len() && 0 <= i < node_list(links, demands).len() && 0
                <= p < keep_a.len() ==> #[trigger] a.a_eq.entry(
                at(k, node_list(links, demands).len() as int, i),
                p,
            ) == b.a_eq.entry(at(k, node_list(links, demands).len() as int, i), p),
        forall|s: int, p: int|
            0 <= s < a.a_ub.nrows && 0 <= p < keep_a.len() ==> #[trigger] a.a_ub.entry(s, p)
                == b.a_ub.entry(s, p),
{
    lemma_keep_list_unique(keep_a, keep_b, links, type_list(demands));
    assert(a.cost@ =~= b.cost@);
    assert(a.b_ub@ =~= b.b_ub@);
    assert(texts(a.row_index1@) =~= texts(b.row_index1@));
    assert(texts(a.row_index2@) =~= texts(b.row_index2@));
    assert(texts(a.col_index1@) =~= texts(b.col_index1@));
    assert(texts(a.col_index2@) =~= texts(b.col_index2@));
}

/// The frame of the demands with their traffic multiplied is the frame of
/// the demands as they were given, where the scaled demands have a list
/// of types and of nodes.
proof fn lemma_multiplier_keeps_frame(
    lp: &LPPrimitives,
    links: Seq<LinkView>,
    demands: Seq<DemandView>,
    multiplier: Amount,
    keep: Seq<usize>,
)
    requires
        is_frame(lp, links, scaled_demands(demands, multiplier), keep),
        is_type_list(
            type_list(scaled_demands(demands, multiplier)),
            scaled_demands(demands, multiplier),
        ),
        is_node_list(
            node_list(links, scaled_demands(demands, multiplier)),
            links,
            scaled_demands(demands, multiplier),
        ),
    ensures
        is_frame(lp, links, demands, keep),
{
    let scaled = scaled_demands(demands, multiplier);
    lemma_type_list_of_same_types(scaled, demands);
    lemma_node_list_of_same_ends(links, scaled, demands);
}

/// The program of `links` and `demands` can be built without a number
/// leaving its range.
pub open spec fn program_fits(links: Seq<LinkView>, demands: Seq<DemandView>) -> bool {
    let commodities = type_list(demands);
    let nodes = node_list(links, demands);
    &&& commodities.len() * nodes.len() <= usize::MAX
    &&& commodities.len() * links.len() <= usize::MAX
    &&& requirements_fit(nodes, demands, commodities)
}

/// The demands with their traffic multiplied by `demand_multiplier`.
fn scale_demand(demand: &DemandMatrix, demand_multiplier: Amount) -> (scaled: Option<DemandMatrix>)
    ensures
        scaled is Some <==> scaling_fits(demand_views(demand.demands@), demand_multiplier),
        scaled is Some ==> demand_views(scaled->0.demands@) == scaled_demands(
            demand_views(demand.demands@),
            demand_multiplier,
        ),
{
    let ghost given = demand_views(demand.demands@);
    let mut demands: Vec<Demand> = Vec::new();
    let mut d: usize = 0;
    while d < demand.demands.len()
        invariant
            d <= demand.demands.len(),
            given == demand_views(demand.demands@),
            demands.len() == d,
            forall|e: int| 0 <= e < d ==> (#[trigger] given[e]).traffic.product(demand_multiplier) is Some,
            forall|e: int|
                0 <= e < d ==> (#[trigger] demands[e])@ == scaled_demands(
                    given,
                    demand_multiplier,
                )[e],
        decreases demand.demands.len() - d,
    {
        let item = &demand.demands[d];
        assert(given[d as int] == item@);
        match item.traffic.checked_mul(&demand_multiplier) {
            Some(traffic) => {
                demands.push(
                    Demand {
                        start: item.start.clone(),
                        end: item.end.clone(),
                        traffic,
                        demand_type: item.demand_type,
                    },
                );
            },
            None => {
                return None;
            },
        }
        d += 1;
    }
    assert(demand_views(demands@) =~= scaled_demands(given, demand_multiplier));
    Some(DemandMatrix { demands })
}

/// The number of links with an owner other than `"0"`.
fn count_private(link_map: &[Link]) -> (n_private: usize)
    ensures
        n_private == owned_count(link_views(link_map@), link_map.len() as int),
        n_private <= link_map.len(),
{
    let ghost links = link_views(link_map@);
    let mut n_private: usize = 0;
    let mut j: usize = 0;
    while j < link_map.len()
        invariant
            j <= link_map.len(),
            links == link_views(link_map@),
            n_private == owned_count(links, j as int),
            n_private <= j,
        decreases link_map.len() - j,
    {
        assert(links[j as int] == link_map[j as int]@);
        if !is_public_operator(link_map[j].operator1.as_str()) {
            n_private += 1;
        }
        j += 1;
    }
    n_private
}

/// Turns the link map and the demands into the linear program: every
/// demand's traffic is multiplied once by `demand_multiplier`, and the
/// flow, bandwidth, tag and cost parts are built for the scaled demands.
/// The multiplier changes the demand vector and nothing else: all the
/// rest is the frame of the demands as they were given.
/// Fails where a product or sum of traffic overflows or the program is too
/// large to index.
pub fn primitives(link_map: &[Link], demand: &DemandMatrix, demand_multiplier: Amount) -> (lp:
    Result<LPPrimitives, ShapleyError>)
    ensures
        lp is Ok <==> {
            &&& scaling_fits(demand_views(demand.demands@), demand_multiplier)
            &&& program_fits(
                link_views(link_map@),
                scaled_demands(demand_views(demand.demands@), demand_multiplier),
            )
        },
        lp is Ok ==> lp->Ok_0.well_formed() && exists|keep: Seq<usize>|
            {
                &&& is_program(
                    &lp->Ok_0,
                    link_views(link_map@),
                    scaled_demands(demand_views(demand.demands@), demand_multiplier),
                    keep,
                )
                &&& is_frame(
                    &lp->Ok_0,
                    link_views(link_map@),
                    demand_views(demand.demands@),
                    keep,
                )
            },
        lp is Err ==> lp->Err_0 is ComputationError,
{
    let ghost links = link_views(link_map@);
    let scaled_demand = match scale_demand(demand, demand_multiplier) {
        Some(scaled) => scaled,
        None => {
            return Err(
                ShapleyError::ComputationError(
                    String::from_str("a demand's traffic overflows when multiplied"),
                ),
            );
        },
    };
    let ghost demands = demand_views(scaled_demand.demands@);
    let n_private = count_private(link_map);
    let node_idx = build_node_index(link_map, &scaled_demand);
    let commodities = scaled_demand.unique_types();
    proof {
        let nodes = node_idx@;
        assert forall|j: int| 0 <= j < links.len() implies nodes.contains(
            (#[trigger] links[j]).start,
        ) && nodes.contains(links[j].end) by {}
        assert forall|d: int| 0 <= d < demands.len() implies nodes.contains(
            (#[trigger] demands[d]).start,
        ) && nodes.contains(demands[d].end) by {}
    }
    let (a_eq, b_eq, keep) = build_flow_constraints(link_map, &scaled_demand, &node_idx)?;
    proof {
        assert forall|p: int| 0 <= p < keep.len() implies #[trigger] keep[p] < commodities.len()
            * link_map.len() by {
            assert(is_valid_column(links, commodities@, keep[p] as int));
        }
    }
    let (a_ub, b_ub) = build_bandwidth_constraints(
        link_map,
        n_private,
        commodities.as_slice(),
        keep.as_slice(),
    )?;
    let op_indices = extract_operator_indices(
        link_map,
        n_private,
        commodities.as_slice(),
        keep.as_slice(),
    )?;
    let cost = build_objective_coefficients(link_map, commodities.as_slice(), keep.as_slice())?;
    let lp = LPPrimitives {
        a_eq,
        a_ub,
        b_eq,
        b_ub,
        cost,
        row_index1: op_indices.row_index1,
        row_index2: op_indices.row_index2,
        col_index1: op_indices.col_index1,
        col_index2: op_indices.col_index2,
    };
    assert(is_program(&lp, links, demands, keep@));
    proof {
        lemma_multiplier_keeps_frame(
            &lp,
            links,
            demand_views(demand.demands@),
            demand_multiplier,
            keep@,
        );
    }
    Ok(lp)
}

} // verus!
