//! The data that goes in and comes out: links, demands and Shapley values.

use crate::amount::Amount;
use crate::labels::public_operator;
use vstd::prelude::*;

verus! {

/// A directed edge between two switches, with what it costs to use, how much
/// it carries and who owns it.
#[derive(Debug)]
pub struct Link {
    /// The switch the link leaves.
    pub start: String,
    /// The switch the link enters.
    pub end: String,
    /// Latency or price of one unit of traffic.
    pub cost: Amount,
    /// Capacity; zero stands for unbounded.
    pub bandwidth: Amount,
    /// First owner; `"0"` for a link nobody owns.
    pub operator1: String,
    /// Second owner; `"0"` or empty where there is none.
    pub operator2: String,
    /// The share of time the link is up.
    pub uptime: Amount,
    /// Shared-capacity group; zero for none assigned.
    pub shared: usize,
    /// Traffic type the link is reserved for; zero for all types.
    pub link_type: usize,
}

/// What a [`Link`] holds, with its labels as sequences of characters.
pub struct LinkView {
    pub start: Seq<char>,
    pub end: Seq<char>,
    pub cost: Amount,
    pub bandwidth: Amount,
    pub operator1: Seq<char>,
    pub operator2: Seq<char>,
    pub uptime: Amount,
    pub shared: usize,
    pub link_type: usize,
}

impl View for Link {
    type V = LinkView;

    open spec fn view(&self) -> LinkView {
        LinkView {
            start: self.start@,
            end: self.end@,
            cost: self.cost,
            bandwidth: self.bandwidth,
            operator1: self.operator1@,
            operator2: self.operator2@,
            uptime: self.uptime,
            shared: self.shared,
            link_type: self.link_type,
        }
    }
}

impl Clone for Link {
    fn clone(&self) -> (copy: Link)
        ensures
            copy@ == self@,
    {
        Link {
            start: self.start.clone(),
            end: self.end.clone(),
            cost: self.cost,
            bandwidth: self.bandwidth,
            operator1: self.operator1.clone(),
            operator2: self.operator2.clone(),
            uptime: self.uptime,
            shared: self.shared,
            link_type: self.link_type,
        }
    }
}

/// The views of the links of `links`, in order.
pub open spec fn link_views(links: Seq<Link>) -> Seq<LinkView> {
    Seq::new(links.len(), |i: int| links[i]@)
}

/// A link between two labels that costs nothing, carries without bound, is
/// owned by nobody, is always up, belongs to no capacity group and is open to
/// all traffic types.
pub open spec fn plain_link(start: Seq<char>, end: Seq<char>) -> LinkView {
    LinkView {
        start,
        end,
        cost: Amount::of(0, 0),
        bandwidth: Amount::of(0, 0),
        operator1: public_operator(),
        operator2: public_operator(),
        uptime: Amount::of(1, 0),
        shared: 0,
        link_type: 0,
    }
}

/// Builds a [`Link`] field by field, starting from [`plain_link`].
#[derive(Debug)]
pub struct LinkBuilder {
    link: Link,
}

impl View for LinkBuilder {
    type V = LinkView;

    closed spec fn view(&self) -> LinkView {
        self.link@
    }
}

impl LinkBuilder {
    /// Starts from the plain link between `start` and `end`.
    pub fn new(start: String, end: String) -> (builder: LinkBuilder)
        ensures
            builder@ == plain_link(start@, end@),
    {
        let zero = String::from_str("0");
        let also_zero = String::from_str("0");
        proof {
            reveal_strlit("0");
            assert(zero@ =~= public_operator());
        }
        LinkBuilder {
            link: Link {
                start,
                end,
                cost: Amount::zero(),
                bandwidth: Amount::zero(),
                operator1: zero,
                operator2: also_zero,
                uptime: Amount::one(),
                shared: 0,
                link_type: 0,
            },
        }
    }

    /// Sets the cost.
    pub fn cost(self, cost: Amount) -> (builder: LinkBuilder)
        ensures
            builder@ == (LinkView { cost, ..self@ }),
    {
        let mut link = self.link;
        link.cost = cost;
        LinkBuilder { link }
    }

    /// Sets the bandwidth.
    pub fn bandwidth(self, bandwidth: Amount) -> (builder: LinkBuilder)
        ensures
            builder@ == (LinkView { bandwidth, ..self@ }),
    {
        let mut link = self.link;
        link.bandwidth = bandwidth;
        LinkBuilder { link }
    }

    /// Sets the first owner.
    pub fn operator1(self, operator1: String) -> (builder: LinkBuilder)
        ensures
            builder@ == (LinkView { operator1: operator1@, ..self@ }),
    {
        let mut link = self.link;
        link.operator1 = operator1;
        LinkBuilder { link }
    }

    /// Sets the second owner.
    pub fn operator2(self, operator2: String) -> (builder: LinkBuilder)
        ensures
            builder@ == (LinkView { operator2: operator2@, ..self@ }),
    {
        let mut link = self.link;
        link.operator2 = operator2;
        LinkBuilder { link }
    }

    /// Sets the uptime.
    pub fn uptime(self, uptime: Amount) -> (builder: LinkBuilder)
        ensures
            builder@ == (LinkView { uptime, ..self@ }),
    {
        let mut link = self.link;
        link.uptime = uptime;
        LinkBuilder { link }
    }

    /// Sets the shared-capacity group.
    pub fn shared(self, shared: usize) -> (builder: LinkBuilder)
        ensures
            builder@ == (LinkView { shared, ..self@ }),
    {
        let mut link = self.link;
        link.shared = shared;
        LinkBuilder { link }
    }

    /// Sets the traffic type.
    pub fn link_type(self, link_type: usize) -> (builder: LinkBuilder)
        ensures
            builder@ == (LinkView { link_type, ..self@ }),
    {
        let mut link = self.link;
        link.link_type = link_type;
        LinkBuilder { link }
    }

    /// The link built.
    pub fn build(self) -> (link: Link)
        ensures
            link@ == self@,
    {
        self.link
    }
}

/// The privately owned links, in the order given.
#[derive(Debug)]
pub struct PrivateLinks {
    pub links: Vec<Link>,
}

impl PrivateLinks {
    /// The table that holds `links`.
    pub fn from_links(links: Vec<Link>) -> (table: PrivateLinks)
        ensures
            table.links == links,
    {
        PrivateLinks { links }
    }
}

/// The public fallback links, in the order given.
#[derive(Debug)]
pub struct PublicLinks {
    pub links: Vec<Link>,
}

impl PublicLinks {
    /// The table that holds `links`.
    pub fn from_links(links: Vec<Link>) -> (table: PublicLinks)
        ensures
            table.links == links,
    {
        PublicLinks { links }
    }
}

/// A traffic requirement between two cities.
#[derive(Debug)]
pub struct Demand {
    /// The city the traffic leaves.
    pub start: String,
    /// The city the traffic goes to.
    pub end: String,
    /// The volume.
    pub traffic: Amount,
    /// The traffic type; all demands of one type leave the same city.
    pub demand_type: usize,
}

/// What a [`Demand`] holds, with its labels as sequences of characters.
pub struct DemandView {
    pub start: Seq<char>,
    pub end: Seq<char>,
    pub traffic: Amount,
    pub demand_type: usize,
}

impl View for Demand {
    type V = DemandView;

    open spec fn view(&self) -> DemandView {
        DemandView {
            start: self.start@,
            end: self.end@,
            traffic: self.traffic,
            demand_type: self.demand_type,
        }
    }
}

impl Clone for Demand {
    fn clone(&self) -> (copy: Demand)
        ensures
            copy@ == self@,
    {
        Demand {
            start: self.start.clone(),
            end: self.end.clone(),
            traffic: self.traffic,
            demand_type: self.demand_type,
        }
    }
}

impl Demand {
    /// The demand of `traffic` units of type `demand_type` from `start` to `end`.
    pub fn new(start: String, end: String, traffic: Amount, demand_type: usize) -> (demand: Demand)
        ensures
            demand@ == (DemandView { start: start@, end: end@, traffic, demand_type }),
    {
        Demand { start, end, traffic, demand_type }
    }
}

/// The views of the demands of `demands`, in order.
pub open spec fn demand_views(demands: Seq<Demand>) -> Seq<DemandView> {
    Seq::new(demands.len(), |i: int| demands[i]@)
}

/// The traffic demands, in the order given.
#[derive(Debug)]
pub struct DemandMatrix {
    pub demands: Vec<Demand>,
}

/// Some demand of `demands` has the traffic type `t`.
pub open spec fn type_occurs(demands: Seq<DemandView>, t: usize) -> bool {
    exists|d: int| 0 <= d < demands.len() && (#[trigger] demands[d]).demand_type == t
}

/// `types` lists, in rising order and each once, the traffic types that
/// occur in `demands`.
pub open spec fn is_type_list(types: Seq<usize>, demands: Seq<DemandView>) -> bool {
    &&& forall|i: int, j: int| 0 <= i < j < types.len() ==> types[i] < types[j]
    &&& forall|i: int| 0 <= i < types.len() ==> type_occurs(demands, #[trigger] types[i])
    &&& forall|d: int|
        0 <= d < demands.len() ==> types.contains((#[trigger] demands[d]).demand_type)
}

/// Two lists of the traffic types of the same demands are the same list.
pub proof fn lemma_type_list_unique(a: Seq<usize>, b: Seq<usize>, demands: Seq<DemandView>)
    requires
        is_type_list(a, demands),
        is_type_list(b, demands),
    ensures
        a == b,
{
    lemma_rising_same_members(a, b);
}

/// Two rising lists with the same members are the same list.
pub proof fn lemma_rising_same_members(a: Seq<usize>, b: Seq<usize>)
    requires
        forall|i: int, j: int| 0 <= i < j < a.len() ==> a[i] < a[j],
        forall|i: int, j: int| 0 <= i < j < b.len() ==> b[i] < b[j],
        forall|x: usize| a.contains(x) <==> b.contains(x),
    ensures
        a == b,
    decreases a.len(),
{
    if a.len() == 0 {
        if b.len() > 0 {
            assert(b.contains(b[0]));
        }
        assert(a =~= b);
    } else if b.len() == 0 {
        assert(a.contains(a[0]));
    } else {
        let x = a.last();
        let y = b.last();
        assert(a.contains(x));
        assert(b.contains(y));
        let i = choose|i: int| 0 <= i < b.len() && b[i] == x;
        let j = choose|j: int| 0 <= j < a.len() && a[j] == y;
        assert(x == y);
        let a1 = a.drop_last();
        let b1 = b.drop_last();
        assert forall|z: usize| a1.contains(z) <==> b1.contains(z) by {
            if a1.contains(z) {
                let k = choose|k: int| 0 <= k < a1.len() && a1[k] == z;
                assert(a[k] == z);
                assert(a.contains(z));
                let m = choose|m: int| 0 <= m < b.len() && b[m] == z;
                assert(m < b.len() - 1);
                assert(b1[m] == z);
            }
            if b1.contains(z) {
                let k = choose|k: int| 0 <= k < b1.len() && b1[k] == z;
                assert(b[k] == z);
                assert(b.contains(z));
                let m = choose|m: int| 0 <= m < a.len() && a[m] == z;
                assert(m < a.len() - 1);
                assert(a1[m] == z);
            }
        }
        lemma_rising_same_members(a1, b1);
        assert(a =~= a1.push(x));
        assert(b =~= b1.push(y));
    }
}

/// The traffic types that occur in `demands`, in rising order, each once.
pub open spec fn type_list(demands: Seq<DemandView>) -> Seq<usize> {
    choose|types: Seq<usize>| is_type_list(types, demands)
}

/// Demands that differ in nothing but their traffic have the same list of
/// traffic types.
pub proof fn lemma_type_list_of_same_types(a: Seq<DemandView>, b: Seq<DemandView>)
    requires
        a.len() == b.len(),
        forall|d: int| 0 <= d < a.len() ==> (#[trigger] a[d]).demand_type == b[d].demand_type,
        is_type_list(type_list(a), a),
    ensures
        type_list(b) == type_list(a),
        is_type_list(type_list(b), b),
{
    let types = type_list(a);
    assert forall|i: int| 0 <= i < types.len() implies type_occurs(b, #[trigger] types[i]) by {
        let d = choose|d: int| 0 <= d < a.len() && (#[trigger] a[d]).demand_type == types[i];
        assert(b[d].demand_type == types[i]);
    }
    assert forall|d: int| 0 <= d < b.len() implies types.contains(
        (#[trigger] b[d]).demand_type,
    ) by {
        assert(types.contains(a[d].demand_type));
    }
    assert(is_type_list(types, b));
    lemma_type_list_unique(type_list(b), types, b);
}

impl DemandMatrix {
    /// The table that holds `demands`.
    pub fn from_demands(demands: Vec<Demand>) -> (table: DemandMatrix)
        ensures
            table.demands == demands,
    {
        DemandMatrix { demands }
    }

    /// The traffic types that occur, in rising order, each once.
    pub fn unique_types(&self) -> (types: Vec<usize>)
        ensures
            is_type_list(types@, demand_views(self.demands@)),
            types@ == type_list(demand_views(self.demands@)),
    {
        let ghost all = demand_views(self.demands@);
        let mut types: Vec<usize> = Vec::new();
        let mut d: usize = 0;
        while d < self.demands.len()
            invariant
                d <= self.demands.len(),
                all == demand_views(self.demands@),
                forall|i: int, j: int| 0 <= i < j < types.len() ==> types[i] < types[j],
                forall|i: int| 0 <= i < types.len() ==> type_occurs(all, #[trigger] types[i]),
                forall|e: int| 0 <= e < d ==> types@.contains((#[trigger] all[e]).demand_type),
            decreases self.demands.len() - d,
        {
            let t: usize = self.demands[d].demand_type;
            let ghost before = types@;
            assert(all[d as int].demand_type == t);
            assert(type_occurs(all, t));
            let mut at: usize = 0;
            while at < types.len() && types[at] < t
                invariant
                    at <= types.len(),
                    forall|j: int| 0 <= j < at ==> types[j] < t,
                decreases types.len() - at,
            {
                at += 1;
            }
            if at == types.len() || types[at] != t {
                types.insert(at, t);
                assert(types@ =~= before.insert(at as int, t));
                assert(types@[at as int] == t);
                assert forall|x: usize| before.contains(x) implies types@.contains(x) by {
                    let i = choose|i: int| 0 <= i < before.len() && before[i] == x;
                    if i < at {
                        assert(types@[i] == x);
                    } else {
                        assert(types@[i + 1] == x);
                    }
                }
            } else {
                assert(types@[at as int] == t);
            }
            d += 1;
        }
        proof {
            lemma_type_list_unique(types@, type_list(all), all);
        }
        types
    }
}

/// What one operator is owed.
#[derive(Debug)]
pub struct ShapleyValue {
    /// The operator.
    pub operator: String,
    /// The Shapley value, to four decimal places.
    pub value: Amount,
    /// The operator's share of the positive values, a fraction between zero
    /// and one to four decimal places.
    pub percent: Amount,
}

} // verus!
