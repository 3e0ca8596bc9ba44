//! Turns the private links, the public links and the demands into one list
//! of directed links: the graph that the linear program routes traffic on.

use crate::amount::Amount;
use crate::error::ShapleyError;
use crate::labels::{
    city_label, city_of, distinct, holds_label, in_city, is_public_operator, public_operator,
    push_new, texts,
};
use crate::types::{
    Demand, demand_views, DemandMatrix, DemandView, is_type_list, Link, link_views, LinkBuilder,
    LinkView, plain_link, type_list, type_occurs,
};
use vstd::prelude::*;

verus! {

/// `link` with its two ends exchanged.
pub open spec fn reversed(link: LinkView) -> LinkView {
    LinkView { start: link.end, end: link.start, ..link }
}

/// `link` opened to all traffic types.
pub open spec fn for_all_types(link: LinkView) -> LinkView {
    LinkView { link_type: 0, ..link }
}

/// Each public link followed by its reverse, both open to all traffic types.
pub open spec fn public_prepared(links: Seq<LinkView>) -> Seq<LinkView> {
    Seq::new(
        2 * links.len(),
        |j: int|
            if j % 2 == 0 {
                for_all_types(links[j / 2])
            } else {
                for_all_types(reversed(links[j / 2]))
            },
    )
}

/// `link` as a link that nobody owns: without bandwidth limit, owned by
/// `"0"`, always up and in no capacity group.
pub open spec fn unowned(link: LinkView) -> LinkView {
    LinkView {
        bandwidth: Amount::of(0, 0),
        operator1: public_operator(),
        operator2: public_operator(),
        uptime: Amount::of(1, 0),
        shared: 0,
        ..link
    }
}

/// The cost of a public link once the penalty is added; `None` where the sum
/// overflows.
pub open spec fn penalised_cost(link: LinkView, hybrid_penalty: Amount) -> Option<Amount> {
    link.cost.sum(hybrid_penalty)
}

/// Every public link's cost can take the penalty.
pub open spec fn penalty_fits(public_links: Seq<LinkView>, hybrid_penalty: Amount) -> bool {
    forall|i: int|
        0 <= i < public_links.len() ==> penalised_cost(
            #[trigger] public_links[i],
            hybrid_penalty,
        ) is Some
}

/// The merged list: the private links as they are; then the public links,
/// unowned and dearer by the penalty; then the helper links, unowned and at
/// their own cost.
pub open spec fn merged(
    private_links: Seq<LinkView>,
    public_links: Seq<LinkView>,
    helper_links: Seq<LinkView>,
    hybrid_penalty: Amount,
) -> Seq<LinkView> {
    private_links + Seq::new(
        public_links.len(),
        |i: int|
            LinkView {
                cost: penalised_cost(public_links[i], hybrid_penalty).unwrap(),
                ..unowned(public_links[i])
            },
    ) + Seq::new(helper_links.len(), |i: int| unowned(helper_links[i]))
}

/// `link` with a missing second owner filled in: where `operator2` is `"0"`
/// or empty, the first owner owns the link alone.
pub open spec fn with_second_owner(link: LinkView) -> LinkView {
    if link.operator2 == public_operator() || link.operator2.len() == 0 {
        LinkView { operator2: link.operator1, ..link }
    } else {
        link
    }
}

/// The largest capacity group id among `links`; zero where there is none.
pub open spec fn max_shared(links: Seq<LinkView>) -> int
    decreases links.len(),
{
    if links.len() == 0 {
        0
    } else {
        let rest = max_shared(links.drop_last());
        if links.last().shared > rest {
            links.last().shared as int
        } else {
            rest
        }
    }
}

/// The bandwidth of a private link once its uptime is taken off it; `None`
/// where the product overflows.
pub open spec fn derated(link: LinkView) -> Option<Amount> {
    link.bandwidth.product(link.uptime)
}

/// Every private link's bandwidth can be derated.
pub open spec fn derating_fits(links: Seq<LinkView>) -> bool {
    forall|i: int| 0 <= i < links.len() ==> derated(#[trigger] links[i]) is Some
}

/// The private links doubled for both directions, before capacity groups
/// are compacted: each link with its second owner filled in and its
/// bandwidth derated, followed by its reverse. A reverse link whose forward
/// link is in group `s > 0` is in group `s + max_shared`, so that the two
/// directions draw on different pools.
pub open spec fn private_doubled(links: Seq<LinkView>) -> Seq<LinkView> {
    Seq::new(
        2 * links.len(),
        |j: int|
            {
                let link = with_second_owner(links[j / 2]);
                let bandwidth = derated(links[j / 2]).unwrap();
                if j % 2 == 0 {
                    LinkView { bandwidth, link_type: 0, ..link }
                } else {
                    LinkView {
                        bandwidth,
                        link_type: 0,
                        shared: if link.shared > 0 {
                            (link.shared + max_shared(links)) as usize
                        } else {
                            0
                        },
                        ..reversed(link)
                    }
                }
            },
    )
}

/// The link is owned and in no capacity group yet, so it gets a group of
/// its own.
pub open spec fn wants_group(link: LinkView) -> bool {
    link.shared == 0 && link.operator1 != public_operator()
}

/// How many of the first `j` links get a group of their own.
pub open spec fn fresh_before(links: Seq<LinkView>, j: int) -> int
    decreases j,
{
    if j <= 0 {
        0
    } else {
        fresh_before(links, j - 1) + if wants_group(links[j - 1]) {
            1int
        } else {
            0int
        }
    }
}

/// The capacity group of each link before the groups are renumbered: the
/// link's own, or for a link that [`wants_group`] the next id above the
/// largest one in use.
pub open spec fn assigned_groups(links: Seq<LinkView>) -> Seq<int> {
    Seq::new(
        links.len(),
        |j: int|
            if wants_group(links[j]) {
                max_shared(links) + 1 + fresh_before(links, j)
            } else {
                links[j].shared as int
            },
    )
}

/// The ids handed out stay within `usize`.
pub open spec fn groups_fit(links: Seq<LinkView>) -> bool {
    max_shared(links) + fresh_before(links, links.len() as int) <= usize::MAX
}

/// `after` renumbers the ids `before` to `1, 2, .., K` in the same order:
/// zero stays zero, a smaller id stays smaller, and every id above 1 has its
/// predecessor in use.
pub open spec fn is_compaction(before: Seq<int>, after: Seq<usize>) -> bool {
    &&& after.len() == before.len()
    &&& forall|j: int| 0 <= j < after.len() ==> (#[trigger] after[j] == 0 <==> before[j] == 0)
    &&& forall|i: int, j: int|
        0 <= i < after.len() && 0 <= j < after.len() ==> (#[trigger] after[i] < #[trigger] after[j]
            <==> before[i] < before[j])
    &&& forall|j: int|
        0 <= j < after.len() && #[trigger] after[j] > 1 ==> exists|i: int|
            0 <= i < after.len() && #[trigger] after[i] == after[j] - 1
}

/// `after` is `before` with its capacity groups assigned and compacted, and
/// nothing else changed.
pub open spec fn is_group_compaction(before: Seq<LinkView>, after: Seq<LinkView>) -> bool {
    &&& after.len() == before.len()
    &&& forall|j: int|
        0 <= j < after.len() ==> #[trigger] after[j] == (LinkView {
            shared: after[j].shared,
            ..before[j]
        })
    &&& is_compaction(
        assigned_groups(before),
        Seq::new(after.len(), |j: int| after[j].shared),
    )
}

/// `d` is the first demand of type `t`.
pub open spec fn is_first_of_type(demands: Seq<DemandView>, t: usize, d: int) -> bool {
    &&& 0 <= d < demands.len()
    &&& demands[d].demand_type == t
    &&& forall|e: int| 0 <= e < d ==> (#[trigger] demands[e]).demand_type != t
}

/// The city that traffic of type `t` leaves: where its first demand starts.
pub open spec fn source_city(demands: Seq<DemandView>, t: usize) -> Seq<char> {
    demands[choose|d: int| is_first_of_type(demands, t, d)].start
}

/// The cities that traffic of type `t` goes to among the first `n` demands,
/// each once, in the order in which they first occur.
pub open spec fn destinations(demands: Seq<DemandView>, t: usize, n: int) -> Seq<Seq<char>>
    decreases n,
{
    if n <= 0 {
        Seq::empty()
    } else {
        let rest = destinations(demands, t, n - 1);
        let demand = demands[n - 1];
        if demand.demand_type == t && !rest.contains(demand.end) {
            rest.push(demand.end)
        } else {
            rest
        }
    }
}

/// The public link runs from a switch in `src` to a switch in `dst`.
pub open spec fn joins_cities(link: LinkView, src: Seq<char>, dst: Seq<char>) -> bool {
    city_of(link.start) == Some(src) && city_of(link.end) == Some(dst)
}

/// The least cost among those of the first `n` public links that run from
/// `src` to `dst`; of two equal costs the earlier. `None` where no link does.
pub open spec fn cheapest_direct(
    public_links: Seq<LinkView>,
    src: Seq<char>,
    dst: Seq<char>,
    n: int,
) -> Option<Amount>
    decreases n,
{
    if n <= 0 {
        None
    } else {
        let rest = cheapest_direct(public_links, src, dst, n - 1);
        let link = public_links[n - 1];
        if joins_cities(link, src, dst) {
            match rest {
                None => Some(link.cost),
                Some(least) => Some(
                    if link.cost.value_lt(least) {
                        link.cost
                    } else {
                        least
                    },
                ),
            }
        } else {
            rest
        }
    }
}

/// A helper link for traffic of type `t`: a plain link at the given cost
/// that only this type may use.
pub open spec fn helper(start: Seq<char>, end: Seq<char>, cost: Amount, t: usize) -> LinkView {
    LinkView { cost, link_type: t, ..plain_link(start, end) }
}

/// The direct shortcuts from `src` to the first `n` cities of `dsts`: for
/// each city to which a public link runs from `src`, one link at the least
/// such cost.
pub open spec fn direct_links(
    public_links: Seq<LinkView>,
    src: Seq<char>,
    dsts: Seq<Seq<char>>,
    t: usize,
    n: int,
) -> Seq<LinkView>
    decreases n,
{
    if n <= 0 {
        Seq::empty()
    } else {
        let rest = direct_links(public_links, src, dsts, t, n - 1);
        match cheapest_direct(public_links, src, dsts[n - 1], public_links.len() as int) {
            Some(cost) => rest.push(helper(src, dsts[n - 1], cost, t)),
            None => rest,
        }
    }
}

/// The switches in `src` at either end of one of the first `n` public
/// links, each once, in the order in which they first occur; of a link its
/// start comes before its end.
pub open spec fn source_switches(public_links: Seq<LinkView>, src: Seq<char>, n: int) -> Seq<
    Seq<char>,
>
    decreases n,
{
    if n <= 0 {
        Seq::empty()
    } else {
        let rest = source_switches(public_links, src, n - 1);
        let link = public_links[n - 1];
        let with_start = if city_of(link.start) == Some(src) && !rest.contains(link.start) {
            rest.push(link.start)
        } else {
            rest
        };
        if city_of(link.end) == Some(src) && !with_start.contains(link.end) {
            with_start.push(link.end)
        } else {
            with_start
        }
    }
}

/// Whether `switch` lies in one of the cities `dsts`.
pub open spec fn in_one_of(switch: Seq<char>, dsts: Seq<Seq<char>>) -> bool {
    city_of(switch) is Some && dsts.contains(city_of(switch)->0)
}

/// The switches in one of the cities `dsts` at either end of one of the
/// first `n` public links, each once, in the order in which they first
/// occur; of a link its start comes before its end.
pub open spec fn destination_switches(
    public_links: Seq<LinkView>,
    dsts: Seq<Seq<char>>,
    n: int,
) -> Seq<Seq<char>>
    decreases n,
{
    if n <= 0 {
        Seq::empty()
    } else {
        let rest = destination_switches(public_links, dsts, n - 1);
        let link = public_links[n - 1];
        let with_start = if in_one_of(link.start, dsts) && !rest.contains(link.start) {
            rest.push(link.start)
        } else {
            rest
        };
        if in_one_of(link.end, dsts) && !with_start.contains(link.end) {
            with_start.push(link.end)
        } else {
            with_start
        }
    }
}

/// The on-ramps of type `t`: a free link from the city `src` to each of
/// `switches`.
pub open spec fn source_helpers(src: Seq<char>, switches: Seq<Seq<char>>, t: usize) -> Seq<
    LinkView,
> {
    Seq::new(switches.len(), |i: int| helper(src, switches[i], Amount::of(0, 0), t))
}

/// The off-ramps of type `t`: a free link from each of `switches` to its
/// city.
pub open spec fn destination_helpers(switches: Seq<Seq<char>>, t: usize) -> Seq<LinkView> {
    Seq::new(
        switches.len(),
        |i: int| helper(switches[i], switches[i].take(3), Amount::of(0, 0), t),
    )
}

/// The helper links of traffic type `t`: its direct shortcuts, then its
/// on-ramps, then its off-ramps.
pub open spec fn type_helpers(public_links: Seq<LinkView>, demands: Seq<DemandView>, t: usize) -> Seq<
    LinkView,
> {
    let src = source_city(demands, t);
    let dsts = destinations(demands, t, demands.len() as int);
    let all = public_links.len() as int;
    direct_links(public_links, src, dsts, t, dsts.len() as int) + source_helpers(
        src,
        source_switches(public_links, src, all),
        t,
    ) + destination_helpers(destination_switches(public_links, dsts, all), t)
}

/// The helper links of the first `n` traffic types of `types`, type by type.
pub open spec fn helpers_of_types(
    public_links: Seq<LinkView>,
    demands: Seq<DemandView>,
    types: Seq<usize>,
    n: int,
) -> Seq<LinkView>
    decreases n,
{
    if n <= 0 {
        Seq::empty()
    } else {
        helpers_of_types(public_links, demands, types, n - 1) + type_helpers(
            public_links,
            demands,
            types[n - 1],
        )
    }
}

/// All helper links: those of each traffic type, in rising order of the
/// types.
pub open spec fn helper_links(public_links: Seq<LinkView>, demands: Seq<DemandView>) -> Seq<
    LinkView,
> {
    helpers_of_types(
        public_links,
        demands,
        type_list(demands),
        type_list(demands).len() as int,
    )
}

/// Of two renumberings of the same ids none gives a link a larger id than
/// the other.
proof fn lemma_compaction_least(before: Seq<int>, first: Seq<usize>, second: Seq<usize>, j: int)
    requires
        is_compaction(before, first),
        is_compaction(before, second),
        0 <= j < before.len(),
    ensures
        first[j] <= second[j],
    decreases first[j],
{
    if first[j] > 1 {
        let i = choose|i: int| 0 <= i < first.len() && #[trigger] first[i] == first[j] - 1;
        lemma_compaction_least(before, first, second, i);
        assert(first[i] < first[j]);
        assert(second[i] < second[j]);
    } else if first[j] == 1 {
        assert(second[j] != 0);
    }
}

/// The ids `1, 2, .., K` can be given to the capacity groups in their
/// order in one way only.
pub proof fn lemma_compaction_unique(before: Seq<int>, first: Seq<usize>, second: Seq<usize>)
    requires
        is_compaction(before, first),
        is_compaction(before, second),
    ensures
        first == second,
{
    assert forall|j: int| 0 <= j < first.len() implies first[j] == second[j] by {
        lemma_compaction_least(before, first, second, j);
        lemma_compaction_least(before, second, first, j);
    }
    assert(first =~= second);
}

/// The links with their capacity groups assigned and compacted are fixed
/// by the links they were made from.
pub proof fn lemma_group_compaction_unique(
    before: Seq<LinkView>,
    first: Seq<LinkView>,
    second: Seq<LinkView>,
)
    requires
        is_group_compaction(before, first),
        is_group_compaction(before, second),
    ensures
        first == second,
{
    let a = Seq::new(first.len(), |j: int| first[j].shared);
    let b = Seq::new(second.len(), |j: int| second[j].shared);
    lemma_compaction_unique(assigned_groups(before), a, b);
    assert forall|j: int| 0 <= j < first.len() implies first[j] == second[j] by {
        assert(a[j] == b[j]);
    }
    assert(first =~= second);
}

/// A text that holds the one character `'0'`.
fn public_operator_label() -> (label: String)
    ensures
        label@ == public_operator(),
{
    let label = String::from_str("0");
    proof {
        reveal_strlit("0");
        assert(label@ =~= public_operator());
    }
    label
}

/// Makes `link` a link that nobody owns.
fn disown(link: Link) -> (free: Link)
    ensures
        free@ == unowned(link@),
{
    let mut free = link;
    free.bandwidth = Amount::zero();
    free.operator1 = public_operator_label();
    free.operator2 = public_operator_label();
    free.uptime = Amount::one();
    free.shared = 0;
    free
}

/// Each id of `ids` as an integer.
pub open spec fn as_ints(ids: Seq<usize>) -> Seq<int> {
    Seq::new(ids.len(), |j: int| ids[j] as int)
}

/// No link of `links` is in a group above `max_shared(links)`, and where
/// that is positive some link is in it.
pub proof fn lemma_max_shared(links: Seq<LinkView>)
    ensures
        forall|i: int| 0 <= i < links.len() ==> (#[trigger] links[i]).shared <= max_shared(links),
        0 <= max_shared(links) <= usize::MAX,
        max_shared(links) > 0 ==> exists|i: int|
            0 <= i < links.len() && (#[trigger] links[i]).shared == max_shared(links),
    decreases links.len(),
{
    if links.len() > 0 {
        let rest = links.drop_last();
        lemma_max_shared(rest);
        assert forall|i: int| 0 <= i < links.len() implies (#[trigger] links[i]).shared
            <= max_shared(links) by {
            if i < rest.len() {
                assert(rest[i] == links[i]);
            }
        }
        if max_shared(links) > 0 {
            if links.last().shared > max_shared(rest) {
                assert(links[links.len() - 1].shared == max_shared(links));
            } else {
                let i = choose|i: int|
                    0 <= i < rest.len() && (#[trigger] rest[i]).shared == max_shared(rest);
                assert(links[i] == rest[i]);
            }
        }
    }
}

/// The count of links that get a group of their own grows with the prefix.
pub proof fn lemma_fresh_before_monotonic(links: Seq<LinkView>, i: int, j: int)
    requires
        0 <= i <= j,
    ensures
        0 <= fresh_before(links, i) <= fresh_before(links, j),
        fresh_before(links, j) <= j,
    decreases j,
{
    if j > 0 {
        if i < j {
            lemma_fresh_before_monotonic(links, i, j - 1);
        } else {
            lemma_fresh_before_monotonic(links, i - 1, j - 1);
        }
    }
}

/// The largest capacity group id among `links`.
fn largest_group(links: &Vec<Link>) -> (largest: usize)
    ensures
        largest == max_shared(link_views(links@)),
{
    let ghost all = link_views(links@);
    let mut largest: usize = 0;
    let mut i: usize = 0;
    while i < links.len()
        invariant
            i <= links.len(),
            all == link_views(links@),
            largest == max_shared(all.take(i as int)),
        decreases links.len() - i,
    {
        assert(all.take(i + 1).drop_last() =~= all.take(i as int));
        assert(all.take(i + 1).last() == links[i as int]@);
        if links[i].shared > largest {
            largest = links[i].shared;
        }
        i += 1;
    }
    assert(all.take(links.len() as int) =~= all);
    largest
}

/// The positive ids of `ids`, each once, in rising order.
fn distinct_positive(ids: &Vec<usize>) -> (sorted: Vec<usize>)
    ensures
        forall|i: int, j: int| 0 <= i < j < sorted.len() ==> sorted[i] < sorted[j],
        forall|i: int| 0 <= i < sorted.len() ==> #[trigger] sorted[i] > 0 && ids@.contains(sorted[i]),
        forall|j: int| 0 <= j < ids.len() && #[trigger] ids[j] > 0 ==> sorted@.contains(ids[j]),
        sorted.len() <= ids.len(),
{
    let mut sorted: Vec<usize> = Vec::new();
    let mut d: usize = 0;
    while d < ids.len()
        invariant
            d <= ids.len(),
            sorted.len() <= d,
            forall|i: int, j: int| 0 <= i < j < sorted.len() ==> sorted[i] < sorted[j],
            forall|i: int|
                0 <= i < sorted.len() ==> #[trigger] sorted[i] > 0 && ids@.contains(sorted[i]),
            forall|j: int| 0 <= j < d && #[trigger] ids[j] > 0 ==> sorted@.contains(ids[j]),
        decreases ids.len() - d,
    {
        let t: usize = ids[d];
        if t > 0 {
            let ghost before = sorted@;
            let mut at: usize = 0;
            while at < sorted.len() && sorted[at] < t
                invariant
                    at <= sorted.len(),
                    forall|j: int| 0 <= j < at ==> sorted[j] < t,
                decreases sorted.len() - at,
            {
                at += 1;
            }
            if at == sorted.len() || sorted[at] != t {
                sorted.insert(at, t);
                assert(sorted@ =~= before.insert(at as int, t));
                assert(sorted@[at as int] == t);
                assert(ids@.contains(t));
                assert forall|x: usize| before.contains(x) implies sorted@.contains(x) by {
                    let i = choose|i: int| 0 <= i < before.len() && before[i] == x;
                    if i < at {
                        assert(sorted@[i] == x);
                    } else {
                        assert(sorted@[i + 1] == x);
                    }
                }
                assert forall|i: int| 0 <= i < sorted.len() implies #[trigger] sorted[i] > 0
                    && ids@.contains(sorted[i]) by {
                    if i < at {
                        assert(sorted[i] == before[i]);
                    } else if i > at {
                        assert(sorted[i] == before[i - 1]);
                    }
                }
            } else {
                assert(sorted@[at as int] == t);
            }
        }
        d += 1;
    }
    sorted
}

/// Where `id` stands in the rising list `sorted`.
fn place_of(sorted: &Vec<usize>, id: usize) -> (at: usize)
    requires
        sorted@.contains(id),
    ensures
        at < sorted.len(),
        sorted[at as int] == id,
{
    let mut at: usize = 0;
    while at < sorted.len() && sorted[at] != id
        invariant
            at <= sorted.len(),
            forall|j: int| 0 <= j < at ==> sorted[j] != id,
        decreases sorted.len() - at,
    {
        at += 1;
    }
    at
}

/// Renumbers the positive ids of `ids` to `1, 2, .., K` in the same order;
/// zero stays zero.
fn compact_ids(ids: &Vec<usize>) -> (compact: Vec<usize>)
    ensures
        is_compaction(as_ints(ids@), compact@),
{
    let sorted = distinct_positive(ids);
    let mut compact: Vec<usize> = Vec::new();
    let mut j: usize = 0;
    while j < ids.len()
        invariant
            j <= ids.len(),
            compact.len() == j,
            sorted.len() <= ids.len(),
            forall|a: int, b: int| 0 <= a < b < sorted.len() ==> sorted[a] < sorted[b],
            forall|a: int|
                0 <= a < sorted.len() ==> #[trigger] sorted[a] > 0 && ids@.contains(sorted[a]),
            forall|a: int| 0 <= a < ids.len() && #[trigger] ids[a] > 0 ==> sorted@.contains(ids[a]),
            forall|a: int| 0 <= a < j && ids[a] == 0 ==> #[trigger] compact[a] == 0,
            forall|a: int|
                0 <= a < j && ids[a] > 0 ==> 1 <= #[trigger] compact[a] <= sorted.len()
                    && sorted[compact[a] - 1] == ids[a],
        decreases ids.len() - j,
    {
        if ids[j] == 0 {
            compact.push(0);
        } else {
            let at = place_of(&sorted, ids[j]);
            compact.push(at + 1);
        }
        j += 1;
    }
    proof {
        let before = as_ints(ids@);
        let after = compact@;
        assert forall|a: int, b: int| 0 <= a < after.len() && 0 <= b < after.len() implies (
        #[trigger] after[a] < #[trigger] after[b] <==> before[a] < before[b]) by {
            if ids[a] > 0 && ids[b] > 0 {
                let x = after[a] - 1;
                let y = after[b] - 1;
                if x < y {
                    assert(sorted[x] < sorted[y]);
                } else if y < x {
                    assert(sorted[y] < sorted[x]);
                }
            }
        }
        assert forall|a: int| 0 <= a < after.len() && #[trigger] after[a] > 1 implies exists|
            i: int,
        |
            0 <= i < after.len() && #[trigger] after[i] == after[a] - 1 by {
            let x = after[a] - 2;
            assert(sorted[x] > 0 && ids@.contains(sorted[x]));
            let i = choose|i: int| 0 <= i < ids.len() && ids[i] == sorted[x];
            let y = after[i] - 1;
            if y < x {
                assert(sorted[y] < sorted[x]);
            } else if x < y {
                assert(sorted[x] < sorted[y]);
            }
            assert(after[i] == after[a] - 1);
        }
    }
    compact
}

/// Puts every owned link that is in no capacity group into a group of its
/// own, numbered on from the largest id in use, and then renumbers all
/// groups to `1, 2, .., K` in the order of their ids. Fails, and changes
/// nothing, where the ids leave `usize`.
pub fn compact_shared_ids(links: &mut Vec<Link>) -> (done: Result<(), ShapleyError>)
    ensures
        done is Ok <==> groups_fit(link_views(old(links)@)),
        done is Ok ==> is_group_compaction(link_views(old(links)@), link_views(final(links)@)),
        done is Err ==> done->Err_0 is ComputationError && final(links)@ == old(links)@,
{
    let ghost before = link_views(links@);
    let largest = largest_group(links);
    let mut ids: Vec<usize> = Vec::new();
    let mut fresh: usize = 0;
    let mut j: usize = 0;
    while j < links.len()
        invariant
            j <= links.len(),
            links@ == old(links)@,
            before == link_views(links@),
            largest == max_shared(before),
            ids.len() == j,
            fresh == fresh_before(before, j as int),
            largest + fresh <= usize::MAX,
            forall|a: int| 0 <= a < j ==> #[trigger] ids[a] == assigned_groups(before)[a],
        decreases links.len() - j,
    {
        assert(before[j as int] == links[j as int]@);
        let owned = !is_public_operator(links[j].operator1.as_str());
        if links[j].shared == 0 && owned {
            if largest >= usize::MAX - fresh {
                proof {
                    lemma_fresh_before_monotonic(before, j + 1, before.len() as int);
                }
                return Err(
                    ShapleyError::ComputationError(
                        String::from_str("too many capacity groups"),
                    ),
                );
            }
            ids.push(largest + 1 + fresh);
            fresh += 1;
        } else {
            ids.push(links[j].shared);
        }
        j += 1;
    }
    let compact = compact_ids(&ids);
    assert(as_ints(ids@) =~= assigned_groups(before));
    let mut k: usize = 0;
    while k < links.len()
        invariant
            k <= links.len(),
            links.len() == before.len(),
            compact.len() == links.len(),
            forall|a: int|
                0 <= a < k ==> (#[trigger] links[a])@ == (LinkView {
                    shared: compact[a],
                    ..before[a]
                }),
            forall|a: int| k <= a < links.len() ==> (#[trigger] links[a])@ == before[a],
        decreases links.len() - k,
    {
        let mut link = links[k].clone();
        link.shared = compact[k];
        links.set(k, link);
        k += 1;
    }
    proof {
        let after = link_views(links@);
        assert(Seq::new(after.len(), |a: int| after[a].shared) =~= compact@);
    }
    Ok(())
}

/// Prepares the private links: fills in missing second owners (in `links`
/// itself too), takes each link's uptime off its bandwidth, doubles the
/// links for both directions with distinct capacity groups, and compacts
/// the group ids.
pub fn prepare_private_links(links: &mut Vec<Link>) -> (prepared: Result<Vec<Link>, ShapleyError>)
    ensures
        link_views(final(links)@) == Seq::new(
            old(links)@.len(),
            |i: int| with_second_owner(old(links)@[i]@),
        ),
        prepared is Ok <==> {
            &&& derating_fits(link_views(old(links)@))
            &&& 2 * max_shared(link_views(old(links)@)) <= usize::MAX
            &&& groups_fit(private_doubled(link_views(old(links)@)))
        },
        prepared is Ok ==> is_group_compaction(
            private_doubled(link_views(old(links)@)),
            link_views(prepared->Ok_0@),
        ),
        prepared is Err ==> prepared->Err_0 is ComputationError,
{
    let ghost given = link_views(links@);
    let largest = largest_group(links);
    let mut i: usize = 0;
    while i < links.len()
        invariant
            i <= links.len(),
            links.len() == given.len(),
            forall|a: int| 0 <= a < i ==> (#[trigger] links[a])@ == with_second_owner(given[a]),
            forall|a: int| i <= a < links.len() ==> (#[trigger] links[a])@ == given[a],
        decreases links.len() - i,
    {
        if is_public_operator(links[i].operator2.as_str())
            || links[i].operator2.as_str().is_empty() {
            let mut link = links[i].clone();
            link.operator2 = links[i].operator1.clone();
            links.set(i, link);
        }
        i += 1;
    }
    assert(link_views(links@) =~= Seq::new(
        old(links)@.len(),
        |i: int| with_second_owner(old(links)@[i]@),
    ));
    proof {
        lemma_max_shared(given);
    }
    if largest > usize::MAX / 2 {
        return Err(
            ShapleyError::ComputationError(String::from_str("too many capacity groups")),
        );
    }
    let ghost goal = private_doubled(given);
    let mut all_links: Vec<Link> = Vec::new();
    let mut k: usize = 0;
    while k < links.len()
        invariant
            k <= links.len(),
            links.len() == given.len(),
            all_links.len() == 2 * k,
            largest == max_shared(given),
            2 * largest <= usize::MAX,
            goal == private_doubled(given),
            forall|a: int| 0 <= a < given.len() ==> (#[trigger] given[a]).shared <= largest,
            forall|a: int|
                0 <= a < links.len() ==> (#[trigger] links[a])@ == with_second_owner(given[a]),
            forall|a: int| 0 <= a < 2 * k ==> (#[trigger] all_links[a])@ == goal[a],
            forall|a: int| 0 <= a < k ==> derated(#[trigger] given[a]) is Some,
            given == link_views(old(links)@),
            link_views(links@) == Seq::new(
                old(links)@.len(),
                |i: int| with_second_owner(old(links)@[i]@),
            ),
        decreases links.len() - k,
    {
        assert(links[k as int]@ == with_second_owner(given[k as int]));
        let bandwidth = match links[k].bandwidth.checked_mul(&links[k].uptime) {
            Some(b) => b,
            None => {
                assert(derated(given[k as int]) is None);
                return Err(
                    ShapleyError::ComputationError(
                        String::from_str("a bandwidth overflows when derated by its uptime"),
                    ),
                );
            },
        };
        let mut forward = links[k].clone();
        forward.bandwidth = bandwidth;
        forward.link_type = 0;
        let reverse = Link {
            start: links[k].end.clone(),
            end: links[k].start.clone(),
            cost: links[k].cost,
            bandwidth,
            operator1: links[k].operator1.clone(),
            operator2: links[k].operator2.clone(),
            uptime: links[k].uptime,
            shared: if links[k].shared > 0 {
                links[k].shared + largest
            } else {
                0
            },
            link_type: 0,
        };
        all_links.push(forward);
        all_links.push(reverse);
        k += 1;
    }
    assert(link_views(all_links@) =~= goal);
    compact_shared_ids(&mut all_links)?;
    Ok(all_links)
}

/// Doubles the public links for both directions: each link is followed by
/// its reverse, and both are open to all traffic types.
pub fn prepare_public_links(links: &[Link]) -> (prepared: Result<Vec<Link>, ShapleyError>)
    ensures
        prepared is Ok,
        link_views(prepared->Ok_0@) == public_prepared(link_views(links@)),
{
    let mut all_links: Vec<Link> = Vec::new();
    let mut i: usize = 0;
    while i < links.len()
        invariant
            i <= links.len(),
            all_links.len() == 2 * i,
            forall|j: int|
                0 <= j < 2 * i ==> (#[trigger] all_links[j])@ == public_prepared(
                    link_views(links@),
                )[j],
        decreases links.len() - i,
    {
        let mut forward = links[i].clone();
        forward.link_type = 0;
        let mut reverse = Link {
            start: links[i].end.clone(),
            end: links[i].start.clone(),
            cost: links[i].cost,
            bandwidth: links[i].bandwidth,
            operator1: links[i].operator1.clone(),
            operator2: links[i].operator2.clone(),
            uptime: links[i].uptime,
            shared: links[i].shared,
            link_type: 0,
        };
        all_links.push(forward);
        all_links.push(reverse);
        i += 1;
    }
    assert(link_views(all_links@) =~= public_prepared(link_views(links@)));
    Ok(all_links)
}

/// The helper link between `start` and `end` for traffic of type `t`.
fn helper_link(start: &str, end: &str, cost: Amount, t: usize) -> (link: Link)
    ensures
        link@ == helper(start@, end@, cost, t),
{
    LinkBuilder::new(start.to_owned(), end.to_owned()).cost(cost).link_type(t).build()
}

/// The first demand of type `t`.
fn first_of_type(demands: &Vec<Demand>, t: usize) -> (d: usize)
    requires
        type_occurs(demand_views(demands@), t),
    ensures
        is_first_of_type(demand_views(demands@), t, d as int),
        demands[d as int]@.start == source_city(demand_views(demands@), t),
{
    let ghost all = demand_views(demands@);
    let mut d: usize = 0;
    while d < demands.len() && demands[d].demand_type != t
        invariant
            d <= demands.len(),
            all == demand_views(demands@),
            forall|e: int| 0 <= e < d ==> (#[trigger] all[e]).demand_type != t,
        decreases demands.len() - d,
    {
        assert(all[d as int] == demands[d as int]@);
        d += 1;
    }
    proof {
        let w = choose|w: int| 0 <= w < all.len() && (#[trigger] all[w]).demand_type == t;
        assert(d < demands.len());
        assert(all[d as int] == demands[d as int]@);
        assert(is_first_of_type(all, t, d as int));
        let c = choose|c: int| is_first_of_type(all, t, c);
        assert(c == d);
    }
    d
}

/// The cities that traffic of type `t` goes to, each once, in the order in
/// which they first occur.
fn destination_cities(demands: &Vec<Demand>, t: usize) -> (dsts: Vec<String>)
    ensures
        texts(dsts@) == destinations(
            demand_views(demands@),
            t,
            demands.len() as int,
        ),
        distinct(texts(dsts@)),
{
    let ghost all = demand_views(demands@);
    let mut dsts: Vec<String> = Vec::new();
    let mut d: usize = 0;
    assert(texts(dsts@) =~= destinations(all, t, 0));
    while d < demands.len()
        invariant
            d <= demands.len(),
            all == demand_views(demands@),
            texts(dsts@) == destinations(all, t, d as int),
            distinct(texts(dsts@)),
        decreases demands.len() - d,
    {
        assert(all[d as int] == demands[d as int]@);
        if demands[d].demand_type == t {
            push_new(&mut dsts, demands[d].end.as_str());
        }
        d += 1;
    }
    dsts
}

/// The least cost at which a public link runs from `src_city` to
/// `dst_city`.
fn cheapest_between(public_links: &[Link], src_city: &str, dst_city: &str) -> (least: Option<
    Amount,
>)
    ensures
        least == cheapest_direct(
            link_views(public_links@),
            src_city@,
            dst_city@,
            public_links.len() as int,
        ),
{
    let ghost all = link_views(public_links@);
    let mut least: Option<Amount> = None;
    let mut i: usize = 0;
    while i < public_links.len()
        invariant
            i <= public_links.len(),
            all == link_views(public_links@),
            least == cheapest_direct(all, src_city@, dst_city@, i as int),
        decreases public_links.len() - i,
    {
        let link = &public_links[i];
        assert(all[i as int] == link@);
        if in_city(link.start.as_str(), src_city) && in_city(link.end.as_str(), dst_city) {
            least =
            match least {
                None => Some(link.cost),
                Some(c) => Some(c.min(link.cost)),
            };
        }
        i += 1;
    }
    least
}

/// The direct shortcuts of traffic type `traffic_type`: for each city of
/// `dst_cities` that a public link reaches from `src_city`, one link at the
/// least cost of such a link.
fn find_direct_paths(
    public_links: &[Link],
    src_city: &str,
    dst_cities: &Vec<String>,
    traffic_type: usize,
) -> (direct: Vec<Link>)
    ensures
        link_views(direct@) == direct_links(
            link_views(public_links@),
            src_city@,
            texts(dst_cities@),
            traffic_type,
            dst_cities.len() as int,
        ),
{
    let ghost all = link_views(public_links@);
    let ghost dsts = texts(dst_cities@);
    let mut direct: Vec<Link> = Vec::new();
    let mut k: usize = 0;
    assert(link_views(direct@) =~= direct_links(all, src_city@, dsts, traffic_type, 0));
    while k < dst_cities.len()
        invariant
            k <= dst_cities.len(),
            all == link_views(public_links@),
            dsts == texts(dst_cities@),
            link_views(direct@) == direct_links(all, src_city@, dsts, traffic_type, k as int),
        decreases dst_cities.len() - k,
    {
        let ghost before = link_views(direct@);
        assert(dsts[k as int] == dst_cities[k as int]@);
        match cheapest_between(public_links, src_city, dst_cities[k].as_str()) {
            Some(cost) => {
                direct.push(helper_link(src_city, dst_cities[k].as_str(), cost, traffic_type));
                assert(link_views(direct@) =~= before.push(
                    helper(src_city@, dsts[k as int], cost, traffic_type),
                ));
            },
            None => {},
        }
        k += 1;
    }
    direct
}

/// The on-ramps of traffic type `traffic_type`: a free link from
/// `src_city` to each switch in it at either end of a public link.
fn create_source_helpers(public_links: &[Link], src_city: &str, traffic_type: usize) -> (helpers:
    Vec<Link>)
    ensures
        link_views(helpers@) == source_helpers(
            src_city@,
            source_switches(link_views(public_links@), src_city@, public_links.len() as int),
            traffic_type,
        ),
{
    let ghost all = link_views(public_links@);
    let mut switches: Vec<String> = Vec::new();
    let mut i: usize = 0;
    assert(texts(switches@) =~= source_switches(all, src_city@, 0));
    while i < public_links.len()
        invariant
            i <= public_links.len(),
            all == link_views(public_links@),
            texts(switches@) == source_switches(all, src_city@, i as int),
            distinct(texts(switches@)),
        decreases public_links.len() - i,
    {
        assert(all[i as int] == public_links[i as int]@);
        if in_city(public_links[i].start.as_str(), src_city) {
            push_new(&mut switches, public_links[i].start.as_str());
        }
        if in_city(public_links[i].end.as_str(), src_city) {
            push_new(&mut switches, public_links[i].end.as_str());
        }
        i += 1;
    }
    let mut helpers: Vec<Link> = Vec::new();
    let mut k: usize = 0;
    while k < switches.len()
        invariant
            k <= switches.len(),
            helpers.len() == k,
            forall|a: int|
                0 <= a < k ==> (#[trigger] helpers[a])@ == helper(
                    src_city@,
                    texts(switches@)[a],
                    Amount::of(0, 0),
                    traffic_type,
                ),
        decreases switches.len() - k,
    {
        helpers.push(helper_link(src_city, switches[k].as_str(), Amount::zero(), traffic_type));
        k += 1;
    }
    assert(link_views(helpers@) =~= source_helpers(src_city@, texts(switches@), traffic_type));
    helpers
}

/// The off-ramps of traffic type `traffic_type`: a free link to its city
/// from each switch in one of `dst_cities` at either end of a public link.
fn create_destination_helpers(
    public_links: &[Link],
    dst_cities: &Vec<String>,
    traffic_type: usize,
) -> (helpers: Vec<Link>)
    ensures
        link_views(helpers@) == destination_helpers(
            destination_switches(
                link_views(public_links@),
                texts(dst_cities@),
                public_links.len() as int,
            ),
            traffic_type,
        ),
{
    let ghost all = link_views(public_links@);
    let ghost dsts = texts(dst_cities@);
    let mut switches: Vec<String> = Vec::new();
    let mut i: usize = 0;
    assert(texts(switches@) =~= destination_switches(all, dsts, 0));
    while i < public_links.len()
        invariant
            i <= public_links.len(),
            all == link_views(public_links@),
            dsts == texts(dst_cities@),
            texts(switches@) == destination_switches(all, dsts, i as int),
            distinct(texts(switches@)),
            forall|a: int| 0 <= a < switches.len() ==> (#[trigger] texts(switches@)[a]).len() >= 3,
        decreases public_links.len() - i,
    {
        assert(all[i as int] == public_links[i as int]@);
        let start_inside = match city_label(public_links[i].start.as_str()) {
            Some(city) => holds_label(dst_cities, city.as_str()),
            None => false,
        };
        if start_inside {
            push_new(&mut switches, public_links[i].start.as_str());
        }
        let end_inside = match city_label(public_links[i].end.as_str()) {
            Some(city) => holds_label(dst_cities, city.as_str()),
            None => false,
        };
        if end_inside {
            push_new(&mut switches, public_links[i].end.as_str());
        }
        i += 1;
    }
    let mut helpers: Vec<Link> = Vec::new();
    let mut k: usize = 0;
    while k < switches.len()
        invariant
            k <= switches.len(),
            helpers.len() == k,
            forall|a: int| 0 <= a < switches.len() ==> (#[trigger] texts(switches@)[a]).len() >= 3,
            forall|a: int|
                0 <= a < k ==> (#[trigger] helpers[a])@ == helper(
                    texts(switches@)[a],
                    texts(switches@)[a].take(3),
                    Amount::of(0, 0),
                    traffic_type,
                ),
        decreases switches.len() - k,
    {
        assert(texts(switches@)[k as int] == switches[k as int]@);
        let city = city_label(switches[k].as_str()).unwrap();
        helpers.push(
            helper_link(switches[k].as_str(), city.as_str(), Amount::zero(), traffic_type),
        );
        k += 1;
    }
    assert(link_views(helpers@) =~= destination_helpers(texts(switches@), traffic_type));
    helpers
}

/// Generates, for each traffic type, the links that tie the cities of its
/// demands to the public network: a direct shortcut from the source city to
/// each destination city that a public link reaches from it, at the least
/// cost of such a link; a free on-ramp from the source city to each of its
/// switches; and a free off-ramp from each switch of a destination city to
/// that city. Only the given traffic type may use them.
pub fn generate_helper_links(public_links: &[Link], demand: &DemandMatrix) -> (helpers: Result<
    Vec<Link>,
    ShapleyError,
>)
    ensures
        helpers is Ok,
        link_views(helpers->Ok_0@) == helper_links(
            link_views(public_links@),
            demand_views(demand.demands@),
        ),
{
    let ghost all = link_views(public_links@);
    let ghost demands = demand_views(demand.demands@);
    let traffic_types = demand.unique_types();
    let mut helpers: Vec<Link> = Vec::new();
    let mut k: usize = 0;
    assert(link_views(helpers@) =~= helpers_of_types(all, demands, traffic_types@, 0));
    while k < traffic_types.len()
        invariant
            k <= traffic_types.len(),
            all == link_views(public_links@),
            demands == demand_views(demand.demands@),
            is_type_list(traffic_types@, demands),
            link_views(helpers@) == helpers_of_types(all, demands, traffic_types@, k as int),
        decreases traffic_types.len() - k,
    {
        let t = traffic_types[k];
        let first = first_of_type(&demand.demands, t);
        let src_city = demand.demands[first].start.as_str();
        let dst_cities = destination_cities(&demand.demands, t);
        let mut direct = find_direct_paths(public_links, src_city, &dst_cities, t);
        let mut src_helpers = create_source_helpers(public_links, src_city, t);
        let mut dst_helpers = create_destination_helpers(public_links, &dst_cities, t);
        let ghost before = link_views(helpers@);
        let ghost a = link_views(direct@);
        let ghost b = link_views(src_helpers@);
        let ghost c = link_views(dst_helpers@);
        helpers.append(&mut direct);
        helpers.append(&mut src_helpers);
        helpers.append(&mut dst_helpers);
        assert(link_views(helpers@) =~= before + (a + b + c));
        assert(a + b + c == type_helpers(all, demands, t));
        k += 1;
    }
    Ok(helpers)
}

/// Joins the three components in the order private, public, helper. Public
/// and helper links become links that nobody owns; public links alone have
/// `hybrid_penalty` added to their cost. Fails where such a sum overflows.
pub fn merge_link_components(
    private_links: Vec<Link>,
    public_links: Vec<Link>,
    helper_links: Vec<Link>,
    hybrid_penalty: Amount,
) -> (map: Result<Vec<Link>, ShapleyError>)
    ensures
        map is Ok <==> penalty_fits(link_views(public_links@), hybrid_penalty),
        map is Ok ==> link_views(map->Ok_0@) == merged(
            link_views(private_links@),
            link_views(public_links@),
            link_views(helper_links@),
            hybrid_penalty,
        ),
        map is Err ==> map->Err_0 is ComputationError,
{
    let ghost goal = merged(
        link_views(private_links@),
        link_views(public_links@),
        link_views(helper_links@),
        hybrid_penalty,
    );
    let n_private = private_links.len();
    let mut all_links: Vec<Link> = private_links;
    let mut i: usize = 0;
    while i < public_links.len()
        invariant
            i <= public_links.len(),
            all_links.len() == n_private + i,
            n_private == private_links.len(),
            goal == merged(
                link_views(private_links@),
                link_views(public_links@),
                link_views(helper_links@),
                hybrid_penalty,
            ),
            forall|j: int| 0 <= j < n_private + i ==> (#[trigger] all_links[j])@ == goal[j],
            forall|j: int|
                0 <= j < i ==> penalised_cost(
                    #[trigger] link_views(public_links@)[j],
                    hybrid_penalty,
                ) is Some,
        decreases public_links.len() - i,
    {
        let mut link = disown(public_links[i].clone());
        assert(link_views(public_links@)[i as int] == public_links[i as int]@);
        match public_links[i].cost.checked_add(&hybrid_penalty) {
            Some(cost) => {
                link.cost = cost;
            },
            None => {
                return Err(
                    ShapleyError::ComputationError(
                        String::from_str("a public link's cost overflows with the penalty"),
                    ),
                );
            },
        }
        all_links.push(link);
        i += 1;
    }
    let n_public = public_links.len();
    let mut k: usize = 0;
    while k < helper_links.len()
        invariant
            k <= helper_links.len(),
            n_public == public_links.len(),
            n_private == private_links.len(),
            all_links.len() == n_private + n_public + k,
            goal == merged(
                link_views(private_links@),
                link_views(public_links@),
                link_views(helper_links@),
                hybrid_penalty,
            ),
            forall|j: int|
                0 <= j < n_private + n_public + k ==> (#[trigger] all_links[j])@ == goal[j],
        decreases helper_links.len() - k,
    {
        let link = disown(helper_links[k].clone());
        all_links.push(link);
        k += 1;
    }
    assert(link_views(all_links@) =~= goal);
    Ok(all_links)
}

} // verus!
