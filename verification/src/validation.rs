//! The checks that every input passes before any link is prepared or any
//! matrix built. Each check names the rule that is broken; the first broken
//! rule, in the order of this file's [`violation`], is the one reported.

use crate::coalition_computation::{enumerate_operators, operator_list};
use crate::error::{LinkKind, PathwayGap, ShapleyError};
use crate::labels::{
    city_of, distinct, in_city, is_public_operator, public_operator, push_new, same_text, texts,
};
use crate::types::{
    demand_views, DemandMatrix, DemandView, Link, link_views, LinkView, PrivateLinks, PublicLinks,
};
use crate::utils::{contains_digit, has_digit};
use vstd::prelude::*;

verus! {

/// The most operators a computation takes: with more, the `2^n` coalitions
/// are too many.
pub const MAX_OPERATORS: usize = 15;

/// Every switch of every link holds a digit.
pub open spec fn switches_named(links: Seq<LinkView>) -> bool {
    forall|i: int|
        0 <= i < links.len() ==> contains_digit((#[trigger] links[i]).start) && contains_digit(
            links[i].end,
        )
}

/// No endpoint of any demand holds a digit.
pub open spec fn endpoints_named(demands: Seq<DemandView>) -> bool {
    forall|d: int|
        0 <= d < demands.len() ==> !contains_digit((#[trigger] demands[d]).start)
            && !contains_digit(demands[d].end)
}

/// All demands of one traffic type start in the same city.
pub open spec fn single_sources(demands: Seq<DemandView>) -> bool {
    forall|a: int, b: int|
        0 <= a < demands.len() && 0 <= b < demands.len() && (#[trigger] demands[a]).demand_type == (
        #[trigger] demands[b]).demand_type ==> demands[a].start == demands[b].start
}

/// Some public link starts or ends at `switch`.
pub open spec fn is_public_switch(public_links: Seq<LinkView>, switch: Seq<char>) -> bool {
    exists|i: int|
        0 <= i < public_links.len() && ((#[trigger] public_links[i]).start == switch
            || public_links[i].end == switch)
}

/// Some public link starts or ends at a switch of `city`.
pub open spec fn city_has_switch(public_links: Seq<LinkView>, city: Seq<char>) -> bool {
    exists|i: int|
        0 <= i < public_links.len() && (city_of((#[trigger] public_links[i]).start) == Some(city)
            || city_of(public_links[i].end) == Some(city))
}

/// `list` with `label` added at its end, unless the label is `covered` or
/// in the list already.
pub open spec fn noted(list: Seq<Seq<char>>, label: Seq<char>, covered: bool) -> Seq<Seq<char>> {
    if covered || list.contains(label) {
        list
    } else {
        list.push(label)
    }
}

/// The switches of the first `n` private links that no public link touches,
/// each once, in the order in which they first occur (a link's start before
/// its end).
pub open spec fn uncovered_switches(
    private_links: Seq<LinkView>,
    public_links: Seq<LinkView>,
    n: int,
) -> Seq<Seq<char>>
    decreases n,
{
    if n <= 0 {
        Seq::empty()
    } else {
        let link = private_links[n - 1];
        let rest = uncovered_switches(private_links, public_links, n - 1);
        let with_start = noted(rest, link.start, is_public_switch(public_links, link.start));
        noted(with_start, link.end, is_public_switch(public_links, link.end))
    }
}

/// The cities of the first `n` demands in which no public link has a
/// switch, each once, in the order in which they first occur (a demand's
/// start before its end).
pub open spec fn uncovered_cities(
    demands: Seq<DemandView>,
    public_links: Seq<LinkView>,
    n: int,
) -> Seq<Seq<char>>
    decreases n,
{
    if n <= 0 {
        Seq::empty()
    } else {
        let demand = demands[n - 1];
        let rest = uncovered_cities(demands, public_links, n - 1);
        let with_start = noted(rest, demand.start, city_has_switch(public_links, demand.start));
        noted(with_start, demand.end, city_has_switch(public_links, demand.end))
    }
}

/// Some private link names the reserved operator `"0"` as its first owner.
pub open spec fn names_reserved_operator(private_links: Seq<LinkView>) -> bool {
    exists|i: int|
        0 <= i < private_links.len() && (#[trigger] private_links[i]).operator1
            == public_operator()
}

/// A rule that an input can break.
pub enum Violation {
    /// A private link has `"0"` as its first owner.
    ReservedOperator,
    /// There are this many operators, more than [`MAX_OPERATORS`].
    TooManyOperators(nat),
    /// The named link table is empty.
    NoLinks(LinkKind),
    /// A switch of the named link table holds no digit.
    SwitchWithoutDigit(LinkKind),
    /// A demand endpoint holds a digit.
    EndpointWithDigit,
    /// Two demands of one type start in different cities.
    SeveralSources,
    /// These private switches are on no public link.
    SwitchesOffPathway(Seq<Seq<char>>),
    /// These demand cities have no switch on a public link.
    CitiesOffPathway(Seq<Seq<char>>),
}

/// The first rule about the operators that the private links break.
pub open spec fn operator_violation(private_links: Seq<LinkView>) -> Option<Violation> {
    if names_reserved_operator(private_links) {
        Some(Violation::ReservedOperator)
    } else if operator_list(private_links).len() > MAX_OPERATORS {
        Some(Violation::TooManyOperators(operator_list(private_links).len()))
    } else {
        None
    }
}

/// The first rule about links and demands that the inputs break.
pub open spec fn map_violation(
    private_links: Seq<LinkView>,
    public_links: Seq<LinkView>,
    demands: Seq<DemandView>,
) -> Option<Violation> {
    let switches = uncovered_switches(private_links, public_links, private_links.len() as int);
    let cities = uncovered_cities(demands, public_links, demands.len() as int);
    if private_links.len() == 0 {
        Some(Violation::NoLinks(LinkKind::Private))
    } else if public_links.len() == 0 {
        Some(Violation::NoLinks(LinkKind::Public))
    } else if !switches_named(private_links) {
        Some(Violation::SwitchWithoutDigit(LinkKind::Private))
    } else if !switches_named(public_links) {
        Some(Violation::SwitchWithoutDigit(LinkKind::Public))
    } else if !endpoints_named(demands) {
        Some(Violation::EndpointWithDigit)
    } else if !single_sources(demands) {
        Some(Violation::SeveralSources)
    } else if switches.len() > 0 {
        Some(Violation::SwitchesOffPathway(switches))
    } else if cities.len() > 0 {
        Some(Violation::CitiesOffPathway(cities))
    } else {
        None
    }
}

/// The first rule that the inputs break: the rules about operators come
/// before those about links and demands.
pub open spec fn violation(
    private_links: Seq<LinkView>,
    public_links: Seq<LinkView>,
    demands: Seq<DemandView>,
) -> Option<Violation> {
    match operator_violation(private_links) {
        Some(v) => Some(v),
        None => map_violation(private_links, public_links, demands),
    }
}

/// The error `e` reports the broken rule `v`.
pub open spec fn reports(e: ShapleyError, v: Violation) -> bool {
    match v {
        Violation::ReservedOperator => e is ReservedOperatorName,
        Violation::TooManyOperators(count) => e matches ShapleyError::TooManyOperators {
            count: c,
            limit,
        } && c == count && limit == MAX_OPERATORS,
        Violation::NoLinks(kind) => e matches ShapleyError::EmptyLinks(k) && k == kind,
        Violation::SwitchWithoutDigit(kind) => e matches ShapleyError::InvalidSwitchNaming(k) && k
            == kind,
        Violation::EndpointWithDigit => e is InvalidEndpointNaming,
        Violation::SeveralSources => e is MultipleTrafficSources,
        Violation::SwitchesOffPathway(labels) => e matches ShapleyError::IncompletePublicPathway {
            location,
            missing,
        } && location == PathwayGap::Switches && texts(missing@) == labels,
        Violation::CitiesOffPathway(labels) => e matches ShapleyError::IncompletePublicPathway {
            location,
            missing,
        } && location == PathwayGap::DemandPoints && texts(missing@) == labels,
    }
}

/// The outcome `checked` is the verdict on `broken`: success where no rule
/// is broken, else the error that reports the broken rule.
pub open spec fn is_verdict(checked: Result<(), ShapleyError>, broken: Option<Violation>) -> bool {
    match broken {
        Some(v) => checked is Err && reports(checked->Err_0, v),
        None => checked is Ok,
    }
}

/// There must be at least one private link.
pub fn validate_private_links(private_links: &PrivateLinks) -> (checked: Result<(), ShapleyError>)
    ensures
        checked is Ok <==> private_links.links.len() > 0,
        checked is Err ==> checked->Err_0 == ShapleyError::EmptyLinks(LinkKind::Private),
{
    if private_links.links.len() == 0 {
        Err(ShapleyError::EmptyLinks(LinkKind::Private))
    } else {
        Ok(())
    }
}

/// There must be at least one public link.
pub fn validate_public_links(public_links: &PublicLinks) -> (checked: Result<(), ShapleyError>)
    ensures
        checked is Ok <==> public_links.links.len() > 0,
        checked is Err ==> checked->Err_0 == ShapleyError::EmptyLinks(LinkKind::Public),
{
    if public_links.links.len() == 0 {
        Err(ShapleyError::EmptyLinks(LinkKind::Public))
    } else {
        Ok(())
    }
}

/// Every switch label must hold a digit.
pub fn validate_switch_naming(links: &[Link], kind: LinkKind) -> (checked: Result<
    (),
    ShapleyError,
>)
    ensures
        checked is Ok <==> switches_named(link_views(links@)),
        checked is Err ==> checked->Err_0 == ShapleyError::InvalidSwitchNaming(kind),
{
    let ghost all = link_views(links@);
    let mut i: usize = 0;
    while i < links.len()
        invariant
            i <= links.len(),
            all == link_views(links@),
            forall|j: int|
                0 <= j < i ==> contains_digit((#[trigger] all[j]).start) && contains_digit(
                    all[j].end,
                ),
        decreases links.len() - i,
    {
        assert(all[i as int] == links[i as int]@);
        if !has_digit(links[i].start.as_str()) || !has_digit(links[i].end.as_str()) {
            return Err(ShapleyError::InvalidSwitchNaming(kind));
        }
        i += 1;
    }
    Ok(())
}

/// No demand endpoint may hold a digit.
pub fn validate_endpoint_naming(demand: &DemandMatrix) -> (checked: Result<(), ShapleyError>)
    ensures
        checked is Ok <==> endpoints_named(demand_views(demand.demands@)),
        checked is Err ==> checked->Err_0 is InvalidEndpointNaming,
{
    let ghost all = demand_views(demand.demands@);
    let mut d: usize = 0;
    while d < demand.demands.len()
        invariant
            d <= demand.demands.len(),
            all == demand_views(demand.demands@),
            forall|e: int|
                0 <= e < d ==> !contains_digit((#[trigger] all[e]).start) && !contains_digit(
                    all[e].end,
                ),
        decreases demand.demands.len() - d,
    {
        assert(all[d as int] == demand.demands[d as int]@);
        if has_digit(demand.demands[d].start.as_str()) || has_digit(
            demand.demands[d].end.as_str(),
        ) {
            return Err(ShapleyError::InvalidEndpointNaming);
        }
        d += 1;
    }
    Ok(())
}

/// All demands of one traffic type must start in the same city.
pub fn validate_traffic_types(demand: &DemandMatrix) -> (checked: Result<(), ShapleyError>)
    ensures
        checked is Ok <==> single_sources(demand_views(demand.demands@)),
        checked is Err ==> checked->Err_0 is MultipleTrafficSources,
{
    let ghost all = demand_views(demand.demands@);
    let n = demand.demands.len();
    let mut a: usize = 0;
    while a < n
        invariant
            a <= n,
            n == demand.demands.len(),
            all == demand_views(demand.demands@),
            forall|x: int, y: int|
                0 <= x < a && 0 <= y < x && (#[trigger] all[x]).demand_type == (
                #[trigger] all[y]).demand_type ==> all[x].start == all[y].start,
        decreases n - a,
    {
        let mut b: usize = 0;
        while b < a
            invariant
                b <= a,
                a < n,
                n == demand.demands.len(),
                all == demand_views(demand.demands@),
                forall|y: int|
                    0 <= y < b && all[a as int].demand_type == (#[trigger] all[y]).demand_type
                        ==> all[a as int].start == all[y].start,
            decreases a - b,
        {
            assert(all[a as int] == demand.demands[a as int]@);
            assert(all[b as int] == demand.demands[b as int]@);
            if demand.demands[a].demand_type == demand.demands[b].demand_type && !same_text(
                demand.demands[a].start.as_str(),
                demand.demands[b].start.as_str(),
            ) {
                return Err(ShapleyError::MultipleTrafficSources);
            }
            b += 1;
        }
        a += 1;
    }
    assert forall|x: int, y: int|
        0 <= x < all.len() && 0 <= y < all.len() && (#[trigger] all[x]).demand_type == (
        #[trigger] all[y]).demand_type implies all[x].start == all[y].start by {
        if y < x {
        } else if x < y {
            assert(all[y].demand_type == all[x].demand_type);
        }
    }
    Ok(())
}

/// Whether some public link starts or ends at `switch`.
fn on_public_link(public_links: &[Link], switch: &str) -> (found: bool)
    ensures
        found == is_public_switch(link_views(public_links@), switch@),
{
    let ghost all = link_views(public_links@);
    let mut i: usize = 0;
    while i < public_links.len()
        invariant
            i <= public_links.len(),
            all == link_views(public_links@),
            forall|j: int|
                0 <= j < i ==> (#[trigger] all[j]).start != switch@ && all[j].end != switch@,
        decreases public_links.len() - i,
    {
        assert(all[i as int] == public_links[i as int]@);
        if same_text(public_links[i].start.as_str(), switch) || same_text(
            public_links[i].end.as_str(),
            switch,
        ) {
            return true;
        }
        i += 1;
    }
    false
}

/// Whether some public link starts or ends at a switch of `city`.
fn city_on_public_link(public_links: &[Link], city: &str) -> (found: bool)
    ensures
        found == city_has_switch(link_views(public_links@), city@),
{
    let ghost all = link_views(public_links@);
    let mut i: usize = 0;
    while i < public_links.len()
        invariant
            i <= public_links.len(),
            all == link_views(public_links@),
            forall|j: int|
                0 <= j < i ==> city_of((#[trigger] all[j]).start) != Some(city@) && city_of(
                    all[j].end,
                ) != Some(city@),
        decreases public_links.len() - i,
    {
        assert(all[i as int] == public_links[i as int]@);
        if in_city(public_links[i].start.as_str(), city) || in_city(
            public_links[i].end.as_str(),
            city,
        ) {
            return true;
        }
        i += 1;
    }
    false
}

/// Notes `label` in `list` unless it is covered or noted already.
fn note(list: &mut Vec<String>, label: &str, covered: bool)
    requires
        distinct(texts(old(list)@)),
    ensures
        distinct(texts(final(list)@)),
        texts(final(list)@) == noted(texts(old(list)@), label@, covered),
{
    if !covered {
        push_new(list, label);
    }
}

/// Every switch of a private link must be on some public link, and every
/// demand city must have a switch on some public link: else traffic has no
/// fallback. The switches are checked first.
pub fn validate_public_pathway_coverage(
    private_links: &[Link],
    public_links: &[Link],
    demand: &DemandMatrix,
) -> (checked: Result<(), ShapleyError>)
    ensures
        checked is Ok <==> {
            &&& uncovered_switches(
                link_views(private_links@),
                link_views(public_links@),
                private_links.len() as int,
            ).len() == 0
            &&& uncovered_cities(
                demand_views(demand.demands@),
                link_views(public_links@),
                demand.demands.len() as int,
            ).len() == 0
        },
        checked is Err ==> {
            let switches = uncovered_switches(
                link_views(private_links@),
                link_views(public_links@),
                private_links.len() as int,
            );
            let cities = uncovered_cities(
                demand_views(demand.demands@),
                link_views(public_links@),
                demand.demands.len() as int,
            );
            reports(
                checked->Err_0,
                if switches.len() > 0 {
                    Violation::SwitchesOffPathway(switches)
                } else {
                    Violation::CitiesOffPathway(cities)
                },
            )
        },
{
    let ghost own = link_views(private_links@);
    let ghost open = link_views(public_links@);
    let ghost wanted = demand_views(demand.demands@);
    let mut switches: Vec<String> = Vec::new();
    let mut i: usize = 0;
    assert(texts(switches@) =~= uncovered_switches(own, open, 0));
    while i < private_links.len()
        invariant
            i <= private_links.len(),
            own == link_views(private_links@),
            open == link_views(public_links@),
            distinct(texts(switches@)),
            texts(switches@) == uncovered_switches(own, open, i as int),
        decreases private_links.len() - i,
    {
        assert(own[i as int] == private_links[i as int]@);
        let start = private_links[i].start.as_str();
        let end = private_links[i].end.as_str();
        let start_covered = on_public_link(public_links, start);
        note(&mut switches, start, start_covered);
        let end_covered = on_public_link(public_links, end);
        note(&mut switches, end, end_covered);
        i += 1;
    }
    if switches.len() > 0 {
        return Err(
            ShapleyError::IncompletePublicPathway {
                location: PathwayGap::Switches,
                missing: switches,
            },
        );
    }
    let mut cities: Vec<String> = Vec::new();
    let mut d: usize = 0;
    assert(texts(cities@) =~= uncovered_cities(wanted, open, 0));
    while d < demand.demands.len()
        invariant
            d <= demand.demands.len(),
            wanted == demand_views(demand.demands@),
            open == link_views(public_links@),
            distinct(texts(cities@)),
            texts(cities@) == uncovered_cities(wanted, open, d as int),
        decreases demand.demands.len() - d,
    {
        assert(wanted[d as int] == demand.demands[d as int]@);
        let start = demand.demands[d].start.as_str();
        let end = demand.demands[d].end.as_str();
        let start_covered = city_on_public_link(public_links, start);
        note(&mut cities, start, start_covered);
        let end_covered = city_on_public_link(public_links, end);
        note(&mut cities, end, end_covered);
        d += 1;
    }
    if cities.len() > 0 {
        return Err(
            ShapleyError::IncompletePublicPathway {
                location: PathwayGap::DemandPoints,
                missing: cities,
            },
        );
    }
    Ok(())
}

/// No private link may name the reserved operator `"0"` as its first owner,
/// and there may be at most [`MAX_OPERATORS`] operators.
pub fn validate_operator_names(private_links: &[Link]) -> (checked: Result<(), ShapleyError>)
    ensures
        is_verdict(checked, operator_violation(link_views(private_links@))),
{
    let ghost all = link_views(private_links@);
    let mut i: usize = 0;
    while i < private_links.len()
        invariant
            i <= private_links.len(),
            all == link_views(private_links@),
            forall|j: int| 0 <= j < i ==> (#[trigger] all[j]).operator1 != public_operator(),
        decreases private_links.len() - i,
    {
        assert(all[i as int] == private_links[i as int]@);
        if is_public_operator(private_links[i].operator1.as_str()) {
            return Err(ShapleyError::ReservedOperatorName);
        }
        i += 1;
    }
    let operators = enumerate_operators(private_links);
    if operators.len() > MAX_OPERATORS {
        return Err(
            ShapleyError::TooManyOperators { count: operators.len(), limit: MAX_OPERATORS },
        );
    }
    Ok(())
}

/// The checks on links and demands, in the order of [`map_violation`].
pub fn validate_map(
    private_links: &PrivateLinks,
    public_links: &PublicLinks,
    demand: &DemandMatrix,
) -> (checked: Result<(), ShapleyError>)
    ensures
        is_verdict(
            checked,
            map_violation(
                link_views(private_links.links@),
                link_views(public_links.links@),
                demand_views(demand.demands@),
            ),
        ),
{
    validate_private_links(private_links)?;
    validate_public_links(public_links)?;
    validate_switch_naming(private_links.links.as_slice(), LinkKind::Private)?;
    validate_switch_naming(public_links.links.as_slice(), LinkKind::Public)?;
    validate_endpoint_naming(demand)?;
    validate_traffic_types(demand)?;
    validate_public_pathway_coverage(
        private_links.links.as_slice(),
        public_links.links.as_slice(),
        demand,
    )
}

/// Checks the inputs against every rule, in the order of [`violation`], and
/// reports the first that is broken.
pub fn check_inputs(
    private_links: &PrivateLinks,
    public_links: &PublicLinks,
    demand: &DemandMatrix,
) -> (checked: Result<(), ShapleyError>)
    ensures
        is_verdict(
            checked,
            violation(
                link_views(private_links.links@),
                link_views(public_links.links@),
                demand_views(demand.demands@),
            ),
        ),
{
    validate_operator_names(private_links.links.as_slice())?;
    validate_map(private_links, public_links, demand)
}

} // verus!
