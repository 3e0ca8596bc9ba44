//! The whole computation: from links and demands to the linear programs of
//! the coalitions, and from their values to what each operator is owed.
//!
//! Solving a linear program is not part of this library. A caller asks
//! [`NetworkShapley::prepare`] for the game, solves the program that
//! [`CoalitionGame::coalition`] hands out for each coalition of
//! [`CoalitionGame::plan`], has the values put in their places, and gives
//! them to [`NetworkShapley::compute`]. The value of a coalition is minus
//! the least cost of its program; a coalition whose program has no
//! solution has no value.

use crate::amount::Amount;
use crate::coalition_computation::{
    coalition_mask, enumerate_operators, generate_coalition_bitmap, get_coalition_masks,
    get_coalition_subset, is_bitmap, is_coalition_bitmap, members, operator_list,
};
use crate::error::ShapleyError;
use crate::labels::texts;
use crate::lp::{
    consolidate_map, is_consolidated, is_program, lemma_consolidated_unique, LPPrimitives, map_fits,
    primitives, program_fits, scaled_demands, scaling_fits,
};
use crate::sampling::{is_plan, solve_plan};
use crate::shapley::{
    aligned, alignment_fits, all_feasible, calculate_shapley_values, compute_expected_values,
    expectation_fits, expected, ints, most_places, percent_units, shapley_fits, up_share,
    valid_uptime, value_table, value_units, whole_share,
};
use crate::solver::{coalition_program, is_restriction, selected, StandardForm};
use crate::types::{
    demand_views, DemandMatrix, link_views, LinkView, PrivateLinks, PublicLinks, ShapleyValue,
};
use crate::utils::{bit, single};
use crate::validation::{check_inputs, MAX_OPERATORS, reports, validate_operator_names, violation};
use vstd::arithmetic::power::pow;
use vstd::prelude::*;

verus! {

/// The inputs of a computation.
#[derive(Debug)]
pub struct NetworkShapley {
    /// The privately owned links.
    pub private_links: PrivateLinks,
    /// The public fallback links.
    pub public_links: PublicLinks,
    /// The traffic demands.
    pub demand: DemandMatrix,
    /// The probability that an operator is up.
    pub operator_uptime: Amount,
    /// What is added to the cost of every public link.
    pub hybrid_penalty: Amount,
    /// What every demand's traffic is multiplied by.
    pub demand_multiplier: Amount,
}

/// Builds a [`NetworkShapley`]; uptime, penalty and multiplier have
/// defaults.
#[derive(Debug)]
pub struct NetworkShapleyBuilder {
    inputs: NetworkShapley,
}

impl NetworkShapleyBuilder {
    /// The inputs so far.
    pub closed spec fn inputs(self) -> NetworkShapley {
        self.inputs
    }

    /// Starts with the links and demands, an operator uptime of `0.98`, a
    /// hybrid penalty of `5.0` and a demand multiplier of `1.0`.
    pub fn new(private_links: PrivateLinks, public_links: PublicLinks, demand: DemandMatrix) -> (builder:
        NetworkShapleyBuilder)
        ensures
            builder.inputs().private_links == private_links,
            builder.inputs().public_links == public_links,
            builder.inputs().demand == demand,
            builder.inputs().operator_uptime == Amount::of(98, 2),
            builder.inputs().hybrid_penalty == Amount::of(50, 1),
            builder.inputs().demand_multiplier == Amount::of(10, 1),
    {
        NetworkShapleyBuilder {
            inputs: NetworkShapley {
                private_links,
                public_links,
                demand,
                operator_uptime: Amount::new(98, 2).unwrap(),
                hybrid_penalty: Amount::new(50, 1).unwrap(),
                demand_multiplier: Amount::new(10, 1).unwrap(),
            },
        }
    }

    /// Sets the probability that an operator is up.
    pub fn operator_uptime(self, operator_uptime: Amount) -> (builder: NetworkShapleyBuilder)
        ensures
            builder.inputs() == (NetworkShapley { operator_uptime, ..self.inputs() }),
    {
        let mut inputs = self.inputs;
        inputs.operator_uptime = operator_uptime;
        NetworkShapleyBuilder { inputs }
    }

    /// Sets what is added to the cost of every public link.
    pub fn hybrid_penalty(self, hybrid_penalty: Amount) -> (builder: NetworkShapleyBuilder)
        ensures
            builder.inputs() == (NetworkShapley { hybrid_penalty, ..self.inputs() }),
    {
        let mut inputs = self.inputs;
        inputs.hybrid_penalty = hybrid_penalty;
        NetworkShapleyBuilder { inputs }
    }

    /// Sets what every demand's traffic is multiplied by.
    pub fn demand_multiplier(self, demand_multiplier: Amount) -> (builder: NetworkShapleyBuilder)
        ensures
            builder.inputs() == (NetworkShapley { demand_multiplier, ..self.inputs() }),
    {
        let mut inputs = self.inputs;
        inputs.demand_multiplier = demand_multiplier;
        NetworkShapleyBuilder { inputs }
    }

    /// The inputs built.
    pub fn build(self) -> (inputs: NetworkShapley)
        ensures
            inputs == self.inputs(),
    {
        self.inputs
    }
}

/// The operators and the linear program from which every coalition's
/// program is cut.
#[derive(Debug)]
pub struct CoalitionGame {
    /// The operators in lexicographic order: operator `i` is bit `i` of a
    /// coalition index.
    pub operators: Vec<String>,
    /// Which operators each coalition holds.
    pub bitmap: Vec<Vec<u8>>,
    /// The linear program of all links.
    pub primitives: LPPrimitives,
}

impl CoalitionGame {
    /// The program fits together and the coalitions can be counted.
    pub open spec fn well_formed(&self) -> bool {
        &&& self.operators.len() <= MAX_OPERATORS
        &&& is_coalition_bitmap(self.bitmap@, self.operators.len())
        &&& self.primitives.well_formed()
    }

    /// Whether the program fits together and the coalitions can be counted.
    pub fn is_well_formed(&self) -> (fine: bool)
        ensures
            fine == self.well_formed(),
    {
        self.operators.len() <= MAX_OPERATORS && is_bitmap(&self.bitmap, self.operators.len())
            && self.primitives.is_well_formed()
    }

    /// The coalitions to solve, in the order in which their values are
    /// expected: all of them below ten operators, a sample from ten on.
    pub fn plan(&self) -> (plan: Vec<usize>)
        requires
            self.well_formed(),
        ensures
            is_plan(plan@, self.operators.len() as int),
    {
        solve_plan(self.operators.len())
    }

    /// The number of coalitions: `2^n` for `n` operators.
    pub fn n_coalitions(&self) -> (count: usize)
        requires
            self.well_formed(),
        ensures
            count == bit(self.operators.len()),
    {
        single(self.operators.len())
    }

    /// The linear program of coalition `idx`: the program restricted to
    /// the bandwidth rows and variables whose two owners are both members
    /// of the coalition or `"0"`. `None` where the coalition may use no
    /// variable at all.
    pub fn coalition(&self, idx: usize) -> (form: Option<StandardForm>)
        requires
            self.well_formed(),
            idx < bit(self.operators.len()),
        ensures
            form is Some <==> {
                let subset = members(texts(self.operators@), idx, self.operators.len() as int);
                let row_mask = coalition_mask(
                    subset,
                    texts(self.primitives.row_index1@),
                    texts(self.primitives.row_index2@),
                );
                let col_mask = coalition_mask(
                    subset,
                    texts(self.primitives.col_index1@),
                    texts(self.primitives.col_index2@),
                );
                let rows = selected(row_mask, row_mask.len() as int);
                let cols = selected(col_mask, col_mask.len() as int);
                cols.len() > 0 && self.primitives.a_eq.nrows + rows.len() + cols.len()
                    <= usize::MAX
            },
            form is Some ==> {
                let subset = members(texts(self.operators@), idx, self.operators.len() as int);
                let row_mask = coalition_mask(
                    subset,
                    texts(self.primitives.row_index1@),
                    texts(self.primitives.row_index2@),
                );
                let col_mask = coalition_mask(
                    subset,
                    texts(self.primitives.col_index1@),
                    texts(self.primitives.col_index2@),
                );
                is_restriction(
                    &form->0,
                    &self.primitives,
                    selected(row_mask, row_mask.len() as int),
                    selected(col_mask, col_mask.len() as int),
                )
            },
    {
        let subset = get_coalition_subset(self.operators.as_slice(), &self.bitmap, idx);
        let (row_mask, col_mask) = get_coalition_masks(subset.as_slice(), &self.primitives);
        coalition_program(&self.primitives, row_mask.as_slice(), col_mask.as_slice())
    }
}

/// `found` gives every operator a value and a share of zero.
pub open spec fn all_zero(found: Seq<ShapleyValue>, operators: Seq<Seq<char>>) -> bool {
    &&& found.len() == operators.len()
    &&& forall|k: int|
        0 <= k < found.len() ==> {
            &&& (#[trigger] found[k]).operator@ == operators[k]
            &&& found[k].value == Amount::of(0, 0)
            &&& found[k].value.units() == 0
            &&& found[k].percent == Amount::of(0, 0)
            &&& found[k].percent.units() == 0
        }
}

/// The values that were handed in, over their common denominator.
pub open spec fn table_numerators(values: Seq<Option<Amount>>) -> Seq<int> {
    Seq::new(
        values.len(),
        |i: int| aligned(values[i]->0, most_places(values, values.len() as int)),
    )
}

/// The expected values of the coalitions, as numerators over one
/// denominator.
pub open spec fn expected_numerators(values: Seq<Option<Amount>>, uptime: Amount, n: int) -> Seq<
    int,
> {
    Seq::new(
        values.len(),
        |i: int|
            expected(
                table_numerators(values),
                up_share(uptime),
                whole_share(uptime) - up_share(uptime),
                n,
                i as usize,
            ),
    )
}

/// The denominator of the expected values.
pub open spec fn expected_denominator(values: Seq<Option<Amount>>, uptime: Amount, n: int) -> int {
    pow(10, most_places(values, values.len() as int) as nat) * pow(whole_share(uptime), n as nat)
}

/// The Shapley values of `n` operators can be computed from `values`
/// without a number leaving its range.
pub open spec fn aggregation_fits(values: Seq<Option<Amount>>, uptime: Amount, n: int) -> bool {
    &&& alignment_fits(values)
    &&& valid_uptime(uptime)
    &&& expectation_fits(
        table_numerators(values),
        pow(10, most_places(values, values.len() as int) as nat),
        whole_share(uptime),
        n,
    )
    &&& n > 0 ==> shapley_fits(
        expected_numerators(values, uptime, n),
        expected_denominator(values, uptime, n),
        n,
    )
}

/// `found` gives each operator its Shapley value and its share, as they
/// follow from the coalition values `values`.
pub open spec fn is_attribution(
    found: Seq<ShapleyValue>,
    operators: Seq<Seq<char>>,
    values: Seq<Option<Amount>>,
    uptime: Amount,
) -> bool {
    let n = operators.len() as int;
    let e = expected_numerators(values, uptime, n);
    &&& found.len() == n
    &&& forall|k: int|
        0 <= k < n ==> {
            &&& (#[trigger] found[k]).operator@ == operators[k]
            &&& found[k].value == Amount::of(
                value_units(e, expected_denominator(values, uptime, n), n, k as usize),
                4,
            )
            &&& found[k].value.units() == value_units(
                e,
                expected_denominator(values, uptime, n),
                n,
                k as usize,
            )
            &&& found[k].value.places() == 4
            &&& found[k].percent == Amount::of(percent_units(e, n, k as usize), 4)
            &&& found[k].percent.units() == percent_units(e, n, k as usize)
            &&& found[k].percent.places() == 4
            &&& 0 <= percent_units(e, n, k as usize) <= 10000
        }
}

/// Every operator with a value and a share of zero.
fn zero_values(operators: &Vec<String>) -> (found: Vec<ShapleyValue>)
    ensures
        all_zero(found@, texts(operators@)),
{
    let mut found: Vec<ShapleyValue> = Vec::new();
    let mut k: usize = 0;
    while k < operators.len()
        invariant
            k <= operators.len(),
            found.len() == k,
            forall|a: int|
                0 <= a < k ==> {
                    &&& (#[trigger] found[a]).operator@ == operators[a]@
                    &&& found[a].value == Amount::of(0, 0)
                    &&& found[a].value.units() == 0
                    &&& found[a].percent == Amount::of(0, 0)
                    &&& found[a].percent.units() == 0
                },
        decreases operators.len() - k,
    {
        found.push(
            ShapleyValue {
                operator: operators[k].clone(),
                value: Amount::zero(),
                percent: Amount::zero(),
            },
        );
        k += 1;
    }
    found
}

impl NetworkShapley {
    /// Checks the inputs and builds the game: the operators, and the
    /// linear program of the consolidated link map with the demands
    /// multiplied by the demand multiplier. The first broken rule is
    /// reported; failing that, a number that leaves its range.
    pub fn prepare(&self) -> (game: Result<CoalitionGame, ShapleyError>)
        ensures
            match violation(
                link_views(self.private_links.links@),
                link_views(self.public_links.links@),
                demand_views(self.demand.demands@),
            ) {
                Some(v) => game is Err && reports(game->Err_0, v),
                None => {
                    &&& game is Err ==> game->Err_0 is ComputationError
                    &&& game is Ok <==> {
                        &&& map_fits(
                            link_views(self.private_links.links@),
                            link_views(self.public_links.links@),
                            self.hybrid_penalty,
                        )
                        &&& scaling_fits(demand_views(self.demand.demands@), self.demand_multiplier)
                        &&& forall|map: Seq<LinkView>|
                            #[trigger] is_consolidated(
                                map,
                                link_views(self.private_links.links@),
                                link_views(self.public_links.links@),
                                demand_views(self.demand.demands@),
                                self.hybrid_penalty,
                            ) ==> program_fits(
                                map,
                                scaled_demands(
                                    demand_views(self.demand.demands@),
                                    self.demand_multiplier,
                                ),
                            )
                    }
                },
            },
            game is Ok ==> {
                let found = game->Ok_0;
                &&& found.well_formed()
                &&& texts(found.operators@) == operator_list(link_views(self.private_links.links@))
                &&& exists|map: Seq<LinkView>, keep: Seq<usize>|
                    {
                        &&& is_consolidated(
                            map,
                            link_views(self.private_links.links@),
                            link_views(self.public_links.links@),
                            demand_views(self.demand.demands@),
                            self.hybrid_penalty,
                        )
                        &&& is_program(
                            &found.primitives,
                            map,
                            scaled_demands(
                                demand_views(self.demand.demands@),
                                self.demand_multiplier,
                            ),
                            keep,
                        )
                    }
            },
    {
        let operators = enumerate_operators(self.private_links.links.as_slice());
        validate_operator_names(self.private_links.links.as_slice())?;
        let full_map = consolidate_map(
            &self.private_links,
            &self.public_links,
            &self.demand,
            self.hybrid_penalty,
        )?;
        proof {
            let found = link_views(full_map@);
            assert forall|map: Seq<LinkView>|
                #[trigger] is_consolidated(
                    map,
                    link_views(self.private_links.links@),
                    link_views(self.public_links.links@),
                    demand_views(self.demand.demands@),
                    self.hybrid_penalty,
                ) implies map == found by {
                lemma_consolidated_unique(
                    map,
                    found,
                    link_views(self.private_links.links@),
                    link_views(self.public_links.links@),
                    demand_views(self.demand.demands@),
                    self.hybrid_penalty,
                );
            }
        }
        let lp = primitives(full_map.as_slice(), &self.demand, self.demand_multiplier)?;
        let bitmap = generate_coalition_bitmap(operators.len());
        Ok(CoalitionGame { operators, bitmap, primitives: lp })
    }

    /// The Shapley value and the share of each operator, from the value of
    /// every coalition: `values[c]` is the value of coalition `c`, `None`
    /// where its program has no solution. The operators come in
    /// lexicographic order. Where some coalition has no value, every
    /// operator gets zero. The first broken rule is reported; failing
    /// that, a number that leaves its range.
    pub fn compute(&self, values: &Vec<Option<Amount>>) -> (found: Result<
        Vec<ShapleyValue>,
        ShapleyError,
    >)
        ensures
            match violation(
                link_views(self.private_links.links@),
                link_views(self.public_links.links@),
                demand_views(self.demand.demands@),
            ) {
                Some(v) => found is Err && reports(found->Err_0, v),
                None => {
                    let operators = operator_list(link_views(self.private_links.links@));
                    let n = operators.len() as int;
                    &&& found is Err ==> found->Err_0 is ComputationError
                    &&& values.len() != bit(n as usize) ==> found is Err
                    &&& values.len() == bit(n as usize) && !all_feasible(values@) ==> found is Ok
                        && all_zero(found->Ok_0@, operators)
                    &&& values.len() == bit(n as usize) && all_feasible(values@) ==> {
                        &&& found is Ok <==> aggregation_fits(values@, self.operator_uptime, n)
                        &&& found is Ok ==> is_attribution(
                            found->Ok_0@,
                            operators,
                            values@,
                            self.operator_uptime,
                        )
                    }
                },
            },
    {
        check_inputs(&self.private_links, &self.public_links, &self.demand)?;
        let operators = enumerate_operators(self.private_links.links.as_slice());
        let n = operators.len();
        if values.len() != single(n) {
            return Err(
                ShapleyError::ComputationError(
                    String::from_str("there must be one value for each coalition"),
                ),
            );
        }
        let table = match value_table(values)? {
            Some(table) => table,
            None => {
                return Ok(zero_values(&operators));
            },
        };
        proof {
            assert(ints(table.numerators@) =~= table_numerators(values@));
            vstd::arithmetic::power::lemma_pow_positive(
                10,
                most_places(values@, values.len() as int) as nat,
            );
        }
        let evalue = compute_expected_values(&table, self.operator_uptime, n)?;
        proof {
            assert(ints(evalue.numerators@) =~= expected_numerators(
                values@,
                self.operator_uptime,
                n as int,
            ));
        }
        calculate_shapley_values(operators.as_slice(), &evalue)
    }
}

} // verus!
