//! The parts of the linear program: the index of the nodes, the flow
//! conservation system, the bandwidth system, the operator tags of rows and
//! columns, and the objective.
//!
//! Variable `k * L + j` is the flow of commodity `k` on link `j`, where `L`
//! is the number of links; only the variables listed in `keep` exist in the
//! program, and column `p` of every matrix and vector is variable `keep[p]`.

use crate::amount::Amount;
use crate::error::ShapleyError;
use crate::labels::{
    insert_sorted, lemma_sorted_is_distinct, lemma_sorted_unique, position_of, public_operator,
    strictly_sorted, texts,
};
use crate::link_preparation::{lemma_max_shared, max_shared};
use crate::sparse::{
    at, block_diagonal, entry_of, horizontal_concat, lemma_at_bound, lemma_entry_push,
    lemma_offset_bound, select_columns, SparseMatrix, Triplet,
};
use crate::types::{
    demand_views, DemandMatrix, DemandView, lemma_rising_same_members, Link, link_views, LinkView,
    type_list,
};
use vstd::arithmetic::div_mod::{
    lemma_fundamental_div_mod, lemma_fundamental_div_mod_converse, lemma_mod_pos_bound,
};
use vstd::prelude::*;

verus! {

/// `label` is an end of some link or of some demand.
pub open spec fn is_endpoint(links: Seq<LinkView>, demands: Seq<DemandView>, label: Seq<char>) -> bool {
    ||| exists|i: int|
        0 <= i < links.len() && ((#[trigger] links[i]).start == label || links[i].end == label)
    ||| exists|d: int|
        0 <= d < demands.len() && ((#[trigger] demands[d]).start == label || demands[d].end
            == label)
}

/// `nodes` lists the ends of the links and demands in lexicographic order,
/// each once.
pub open spec fn is_node_list(
    nodes: Seq<Seq<char>>,
    links: Seq<LinkView>,
    demands: Seq<DemandView>,
) -> bool {
    &&& strictly_sorted(nodes)
    &&& forall|x: Seq<char>| nodes.contains(x) <==> is_endpoint(links, demands, x)
}

/// The nodes of the graph: the ends of the links and demands in
/// lexicographic order, each once. The place of a label in this list is the
/// node's index.
pub open spec fn node_list(links: Seq<LinkView>, demands: Seq<DemandView>) -> Seq<Seq<char>> {
    choose|nodes: Seq<Seq<char>>| is_node_list(nodes, links, demands)
}

/// Demands that differ in nothing but their traffic give the same nodes.
pub proof fn lemma_node_list_of_same_ends(
    links: Seq<LinkView>,
    a: Seq<DemandView>,
    b: Seq<DemandView>,
)
    requires
        a.len() == b.len(),
        forall|d: int|
            0 <= d < a.len() ==> (#[trigger] a[d]).start == b[d].start && a[d].end == b[d].end,
        is_node_list(node_list(links, a), links, a),
    ensures
        node_list(links, b) == node_list(links, a),
        is_node_list(node_list(links, b), links, b),
{
    let nodes = node_list(links, a);
    assert forall|x: Seq<char>| is_endpoint(links, a, x) <==> is_endpoint(links, b, x) by {
        if is_endpoint(links, a, x) {
            if exists|d: int|
                0 <= d < a.len() && ((#[trigger] a[d]).start == x || a[d].end == x) {
                let d = choose|d: int|
                    0 <= d < a.len() && ((#[trigger] a[d]).start == x || a[d].end == x);
                assert(b[d].start == x || b[d].end == x);
            }
        }
        if is_endpoint(links, b, x) {
            if exists|d: int|
                0 <= d < b.len() && ((#[trigger] b[d]).start == x || b[d].end == x) {
                let d = choose|d: int|
                    0 <= d < b.len() && ((#[trigger] b[d]).start == x || b[d].end == x);
                assert(a[d].start == x || a[d].end == x);
            }
        }
    }
    assert(is_node_list(nodes, links, b));
    let other = node_list(links, b);
    assert forall|x: Seq<char>| other.contains(x) <==> nodes.contains(x) by {}
    lemma_sorted_unique(other, nodes);
}

/// The nodes of a graph by name; a node's index is its place in
/// lexicographic order.
#[derive(Debug)]
pub struct NodeIndex {
    names: Vec<String>,
}

impl View for NodeIndex {
    type V = Seq<Seq<char>>;

    closed spec fn view(&self) -> Seq<Seq<char>> {
        texts(self.names@)
    }
}

impl NodeIndex {
    #[verifier::type_invariant]
    spec fn sorted(self) -> bool {
        strictly_sorted(texts(self.names@))
    }

    /// The number of nodes.
    pub fn len(&self) -> (n: usize)
        ensures
            n == self@.len(),
    {
        self.names.len()
    }

    /// The index of the node called `name`, if there is one.
    pub fn get(&self, name: &str) -> (index: Option<usize>)
        ensures
            strictly_sorted(self@),
            match index {
                Some(i) => i < self@.len() && self@[i as int] == name@,
                None => !self@.contains(name@),
            },
    {
        proof {
            use_type_invariant(self);
        }
        position_of(&self.names, name)
    }

    /// The name of node `index`.
    pub fn name(&self, index: usize) -> (name: &String)
        requires
            index < self@.len(),
        ensures
            name@ == self@[index as int],
    {
        &self.names[index]
    }
}

/// Numbers the nodes of the graph: every label that is an end of a link or
/// of a demand, in lexicographic order.
pub fn build_node_index(link_map: &[Link], demand: &DemandMatrix) -> (node_idx: NodeIndex)
    ensures
        is_node_list(node_idx@, link_views(link_map@), demand_views(demand.demands@)),
        node_idx@ == node_list(link_views(link_map@), demand_views(demand.demands@)),
{
    let ghost links = link_views(link_map@);
    let ghost demands = demand_views(demand.demands@);
    let mut names: Vec<String> = Vec::new();
    let mut i: usize = 0;
    while i < link_map.len()
        invariant
            i <= link_map.len(),
            links == link_views(link_map@),
            strictly_sorted(texts(names@)),
            forall|x: Seq<char>|
                texts(names@).contains(x) <==> is_endpoint(
                    links.take(i as int),
                    Seq::<DemandView>::empty(),
                    x,
                ),
        decreases link_map.len() - i,
    {
        let ghost seen = links.take(i as int);
        let ghost next = links.take(i + 1);
        let ghost none = Seq::<DemandView>::empty();
        assert(links[i as int] == link_map[i as int]@);
        insert_sorted(&mut names, link_map[i].start.as_str());
        insert_sorted(&mut names, link_map[i].end.as_str());
        proof {
            assert forall|x: Seq<char>| is_endpoint(next, none, x) <==> (is_endpoint(seen, none, x)
                || x == links[i as int].start || x == links[i as int].end) by {
                if is_endpoint(seen, none, x) {
                    let w = choose|w: int|
                        0 <= w < seen.len() && ((#[trigger] seen[w]).start == x || seen[w].end
                            == x);
                    assert(next[w] == seen[w]);
                }
                if x == links[i as int].start || x == links[i as int].end {
                    assert(next[i as int] == links[i as int]);
                }
                if is_endpoint(next, none, x) {
                    let w = choose|w: int|
                        0 <= w < next.len() && ((#[trigger] next[w]).start == x || next[w].end
                            == x);
                    if w < i {
                        assert(seen[w] == next[w]);
                    }
                }
            }
        }
        i += 1;
    }
    assert(links.take(link_map.len() as int) =~= links);
    let mut d: usize = 0;
    while d < demand.demands.len()
        invariant
            d <= demand.demands.len(),
            demands == demand_views(demand.demands@),
            strictly_sorted(texts(names@)),
            forall|x: Seq<char>|
                texts(names@).contains(x) <==> is_endpoint(links, demands.take(d as int), x),
        decreases demand.demands.len() - d,
    {
        let ghost seen = demands.take(d as int);
        let ghost next = demands.take(d + 1);
        assert(demands[d as int] == demand.demands[d as int]@);
        insert_sorted(&mut names, demand.demands[d].start.as_str());
        insert_sorted(&mut names, demand.demands[d].end.as_str());
        proof {
            assert forall|x: Seq<char>| is_endpoint(links, next, x) <==> (is_endpoint(
                links,
                seen,
                x,
            ) || x == demands[d as int].start || x == demands[d as int].end) by {
                if exists|w: int|
                    0 <= w < seen.len() && ((#[trigger] seen[w]).start == x || seen[w].end == x) {
                    let w = choose|w: int|
                        0 <= w < seen.len() && ((#[trigger] seen[w]).start == x || seen[w].end
                            == x);
                    assert(next[w] == seen[w]);
                }
                if x == demands[d as int].start || x == demands[d as int].end {
                    assert(next[d as int] == demands[d as int]);
                }
                if exists|w: int|
                    0 <= w < next.len() && ((#[trigger] next[w]).start == x || next[w].end == x) {
                    let w = choose|w: int|
                        0 <= w < next.len() && ((#[trigger] next[w]).start == x || next[w].end
                            == x);
                    if w < d {
                        assert(seen[w] == next[w]);
                    }
                }
            }
        }
        d += 1;
    }
    proof {
        assert(demands.take(demand.demands.len() as int) =~= demands);
        assert(is_node_list(texts(names@), links, demands));
        lemma_sorted_unique(texts(names@), node_list(links, demands));
    }
    NodeIndex { names }
}

/// What link `j` adds to the balance of node `i`: one where the link
/// leaves the node, minus one where it enters it.
pub open spec fn incidence(nodes: Seq<Seq<char>>, links: Seq<LinkView>, i: int, j: int) -> int {
    (if links[j].start == nodes[i] {
        1int
    } else {
        0int
    }) - (if links[j].end == nodes[i] {
        1int
    } else {
        0int
    })
}

/// Both ends of every link are among `nodes`.
pub open spec fn links_indexed(nodes: Seq<Seq<char>>, links: Seq<LinkView>) -> bool {
    forall|j: int|
        0 <= j < links.len() ==> nodes.contains((#[trigger] links[j]).start) && nodes.contains(
            links[j].end,
        )
}

/// `matrix` is the node-by-link incidence matrix of the graph.
pub open spec fn is_incidence_matrix(
    matrix: &SparseMatrix,
    nodes: Seq<Seq<char>>,
    links: Seq<LinkView>,
) -> bool {
    &&& matrix.well_formed()
    &&& matrix.nrows == nodes.len()
    &&& matrix.ncols == links.len()
    &&& forall|i: int, j: int|
        0 <= i < nodes.len() && 0 <= j < links.len() ==> #[trigger] matrix.entry(i, j)
            == incidence(nodes, links, i, j)
}

/// The flow conservation matrix of one commodity: one row per node, one
/// column per link, `+1` where the link leaves the node and `-1` where it
/// enters it. Fails where an end of a link is not in the index.
pub fn build_single_commodity_matrix(link_map: &[Link], node_idx: &NodeIndex) -> (matrix: Result<
    SparseMatrix,
    ShapleyError,
>)
    ensures
        matrix is Ok <==> links_indexed(node_idx@, link_views(link_map@)),
        matrix is Ok ==> is_incidence_matrix(&matrix->Ok_0, node_idx@, link_views(link_map@)),
        matrix is Err ==> matrix->Err_0 is ComputationError,
{
    let ghost links = link_views(link_map@);
    let ghost nodes = node_idx@;
    let n_nodes = node_idx.len();
    let n_links = link_map.len();
    let mut triplets: Vec<Triplet> = Vec::new();
    let mut j: usize = 0;
    while j < n_links
        invariant
            j <= n_links,
            n_links == link_map.len(),
            n_nodes == nodes.len(),
            links == link_views(link_map@),
            nodes == node_idx@,
            forall|k: int|
                0 <= k < triplets.len() ==> (#[trigger] triplets[k]).row < n_nodes
                    && triplets[k].col < n_links,
            forall|c: int|
                0 <= c < j ==> nodes.contains((#[trigger] links[c]).start) && nodes.contains(
                    links[c].end,
                ),
            forall|i: int, c: int|
                0 <= i < n_nodes && 0 <= c < n_links ==> #[trigger] entry_of(triplets@, i, c)
                    == if c < j {
                    incidence(nodes, links, i, c)
                } else {
                    0
                },
        decreases n_links - j,
    {
        assert(links[j as int] == link_map[j as int]@);
        let start_idx = match node_idx.get(link_map[j].start.as_str()) {
            Some(i) => i,
            None => {
                return Err(
                    ShapleyError::ComputationError(
                        String::from_str("the start of a link is not among the nodes"),
                    ),
                );
            },
        };
        let end_idx = match node_idx.get(link_map[j].end.as_str()) {
            Some(i) => i,
            None => {
                return Err(
                    ShapleyError::ComputationError(
                        String::from_str("the end of a link is not among the nodes"),
                    ),
                );
            },
        };
        let leaves = Triplet { row: start_idx, col: j, value: 1 };
        let enters = Triplet { row: end_idx, col: j, value: -1 };
        let ghost before = triplets@;
        triplets.push(leaves);
        triplets.push(enters);
        proof {
            lemma_sorted_is_distinct(nodes);
            assert forall|i: int, c: int|
                0 <= i < n_nodes && 0 <= c < n_links implies #[trigger] entry_of(triplets@, i, c)
                == if c < j + 1 {
                incidence(nodes, links, i, c)
            } else {
                0
            } by {
                lemma_entry_push(before, leaves, i, c);
                lemma_entry_push(before.push(leaves), enters, i, c);
            }
        }
        j += 1;
    }
    Ok(SparseMatrix { nrows: n_nodes, ncols: n_links, triplets })
}

/// A link of type `link_type` may carry traffic of type `t`.
pub open spec fn usable(link_type: usize, t: usize) -> bool {
    link_type == t || link_type == 0
}

/// Variable `x` exists: it is the flow of a commodity on a link that may
/// carry it.
pub open spec fn is_valid_column(links: Seq<LinkView>, commodities: Seq<usize>, x: int) -> bool {
    &&& 0 <= x < commodities.len() * links.len()
    &&& usable(links[x % (links.len() as int)].link_type, commodities[x / (links.len() as int)])
}

/// `keep` lists the variables that exist, in rising order.
pub open spec fn is_keep_list(keep: Seq<usize>, links: Seq<LinkView>, commodities: Seq<usize>) -> bool {
    &&& forall|p: int, q: int| 0 <= p < q < keep.len() ==> keep[p] < keep[q]
    &&& forall|p: int|
        0 <= p < keep.len() ==> is_valid_column(links, commodities, #[trigger] keep[p] as int)
    &&& forall|x: int|
        is_valid_column(links, commodities, x) ==> exists|p: int|
            0 <= p < keep.len() && #[trigger] keep[p] == x
}

/// The variables that exist are listed in one way only.
pub proof fn lemma_keep_list_unique(
    a: Seq<usize>,
    b: Seq<usize>,
    links: Seq<LinkView>,
    commodities: Seq<usize>,
)
    requires
        is_keep_list(a, links, commodities),
        is_keep_list(b, links, commodities),
    ensures
        a == b,
{
    assert forall|x: usize| a.contains(x) <==> b.contains(x) by {
        if a.contains(x) {
            let p = choose|p: int| 0 <= p < a.len() && a[p] == x;
            assert(is_valid_column(links, commodities, a[p] as int));
            let q = choose|q: int| 0 <= q < b.len() && #[trigger] b[q] == x as int;
            assert(b[q] == x);
        }
        if b.contains(x) {
            let p = choose|p: int| 0 <= p < b.len() && b[p] == x;
            assert(is_valid_column(links, commodities, b[p] as int));
            let q = choose|q: int| 0 <= q < a.len() && #[trigger] a[q] == x as int;
            assert(a[q] == x);
        }
    }
    lemma_rising_same_members(a, b);
}

/// A variable within the first `count` blocks splits into its block and its
/// offset.
pub proof fn lemma_split(x: int, size: int, count: int)
    requires
        0 <= x < count * size,
        0 < size,
    ensures
        0 <= x / size < count,
        0 <= x % size < size,
        x == at(x / size, size, x % size),
{
    lemma_fundamental_div_mod(x, size);
    lemma_mod_pos_bound(x, size);
    let q = x / size;
    let r = x % size;
    assert(size * q == q * size) by (nonlinear_arith);
    assert(0 <= q < count) by (nonlinear_arith)
        requires
            x == q * size + r,
            0 <= r < size,
            0 <= x < count * size,
    ;
}

/// The place of offset `r` in block `b` splits back into `b` and `r`.
pub proof fn lemma_join(b: int, size: int, r: int)
    requires
        0 <= r < size,
    ensures
        at(b, size, r) / size == b,
        at(b, size, r) % size == r,
{
    lemma_fundamental_div_mod_converse(at(b, size, r), size, b, r);
}

/// The variables that exist: for each commodity in turn, the links that may
/// carry it. Fails where the number of variables leaves `usize`.
pub fn get_valid_columns(link_map: &[Link], commodities: &[usize]) -> (keep: Result<
    Vec<usize>,
    ShapleyError,
>)
    ensures
        keep is Ok <==> commodities.len() * link_map.len() <= usize::MAX,
        keep is Ok ==> is_keep_list(keep->Ok_0@, link_views(link_map@), commodities@),
        keep is Err ==> keep->Err_0 is ComputationError,
{
    let ghost links = link_views(link_map@);
    let n_links = link_map.len();
    let n_types = commodities.len();
    if n_types.checked_mul(n_links).is_none() {
        return Err(
            ShapleyError::ComputationError(String::from_str("the program has too many variables")),
        );
    }
    let mut keep: Vec<usize> = Vec::new();
    let mut k: usize = 0;
    while k < n_types
        invariant
            k <= n_types,
            n_links == link_map.len(),
            n_types == commodities.len(),
            n_types * n_links <= usize::MAX,
            links == link_views(link_map@),
            forall|p: int, q: int| 0 <= p < q < keep.len() ==> keep[p] < keep[q],
            forall|p: int| 0 <= p < keep.len() ==> #[trigger] keep[p] < k * n_links,
            forall|p: int|
                0 <= p < keep.len() ==> is_valid_column(links, commodities@, #[trigger] keep[p] as int),
            forall|x: int|
                is_valid_column(links, commodities@, x) && x < k * n_links ==> exists|p: int|
                    0 <= p < keep.len() && #[trigger] keep[p] == x,
        decreases n_types - k,
    {
        proof {
            lemma_offset_bound(k as int, n_links as int, n_types as int);
            lemma_offset_bound(k as int + 1, n_links as int, n_types as int);
            assert((k + 1) * n_links == k * n_links + n_links) by (nonlinear_arith);
        }
        let offset = k * n_links;
        let mut j: usize = 0;
        while j < n_links
            invariant
                j <= n_links,
                k < n_types,
                n_links == link_map.len(),
                n_types == commodities.len(),
                n_types * n_links <= usize::MAX,
                offset == k * n_links,
                offset + n_links <= n_types * n_links,
                links == link_views(link_map@),
                forall|p: int, q: int| 0 <= p < q < keep.len() ==> keep[p] < keep[q],
                forall|p: int| 0 <= p < keep.len() ==> #[trigger] keep[p] < offset + j,
                forall|p: int|
                    0 <= p < keep.len() ==> is_valid_column(
                        links,
                        commodities@,
                        #[trigger] keep[p] as int,
                    ),
                forall|x: int|
                    is_valid_column(links, commodities@, x) && x < offset + j ==> exists|p: int|
                        0 <= p < keep.len() && #[trigger] keep[p] == x,
            decreases n_links - j,
        {
            assert(links[j as int] == link_map[j as int]@);
            let ghost before = keep@;
            let x = offset + j;
            proof {
                lemma_join(k as int, n_links as int, j as int);
            }
            if link_map[j].link_type == commodities[k] || link_map[j].link_type == 0 {
                keep.push(x);
                assert(is_valid_column(links, commodities@, x as int));
                assert forall|y: int|
                    is_valid_column(links, commodities@, y) && y < offset + j + 1 implies exists|
                    p: int,
                |
                    0 <= p < keep.len() && #[trigger] keep[p] == y by {
                    if y < offset + j {
                        let p = choose|p: int| 0 <= p < before.len() && #[trigger] before[p] == y;
                        assert(keep[p] == y);
                    } else {
                        assert(keep[keep.len() - 1] == y);
                    }
                }
            } else {
                assert(!is_valid_column(links, commodities@, x as int));
            }
            j += 1;
        }
        k += 1;
    }
    Ok(keep)
}

/// What node `node` must send out, net, of traffic of type `t`, counting
/// the first `n` demands: each demand of the type adds its traffic where it
/// starts at the node and takes it off where it ends there. `None` where a
/// sum overflows.
pub open spec fn requirement(demands: Seq<DemandView>, t: usize, node: Seq<char>, n: int) -> Option<
    Amount,
>
    decreases n,
{
    if n <= 0 {
        Some(Amount::of(0, 0))
    } else {
        match requirement(demands, t, node, n - 1) {
            None => None,
            Some(balance) => {
                let demand = demands[n - 1];
                if demand.demand_type != t {
                    Some(balance)
                } else {
                    let sent = if demand.start == node {
                        balance.sum(demand.traffic)
                    } else {
                        Some(balance)
                    };
                    match sent {
                        None => None,
                        Some(after) => if demand.end == node {
                            after.difference(demand.traffic)
                        } else {
                            Some(after)
                        },
                    }
                }
            },
        }
    }
}

/// A requirement that has overflowed stays undefined.
pub proof fn lemma_requirement_overflow_stays(
    demands: Seq<DemandView>,
    t: usize,
    node: Seq<char>,
    n: int,
    m: int,
)
    requires
        0 <= n <= m,
        requirement(demands, t, node, n) is None,
    ensures
        requirement(demands, t, node, m) is None,
    decreases m - n,
{
    if n < m {
        lemma_requirement_overflow_stays(demands, t, node, n, m - 1);
    }
}

/// Both ends of every demand of one of the types `commodities` are among
/// `nodes`.
pub open spec fn demands_indexed(
    nodes: Seq<Seq<char>>,
    demands: Seq<DemandView>,
    commodities: Seq<usize>,
) -> bool {
    forall|d: int|
        0 <= d < demands.len() && commodities.contains((#[trigger] demands[d]).demand_type)
            ==> nodes.contains(demands[d].start) && nodes.contains(demands[d].end)
}

/// The requirement of every node is defined for every commodity.
pub open spec fn requirements_fit(
    nodes: Seq<Seq<char>>,
    demands: Seq<DemandView>,
    commodities: Seq<usize>,
) -> bool {
    forall|k: int, i: int|
        0 <= k < commodities.len() && 0 <= i < nodes.len() ==> (#[trigger] requirement(
            demands,
            commodities[k],
            nodes[i],
            demands.len() as int,
        )) is Some
}

/// `b_eq` holds, commodity by commodity, what each node must send out.
pub open spec fn is_demand_vector(
    b_eq: Seq<Amount>,
    nodes: Seq<Seq<char>>,
    demands: Seq<DemandView>,
    commodities: Seq<usize>,
) -> bool {
    &&& b_eq.len() == commodities.len() * nodes.len()
    &&& forall|k: int, i: int|
        0 <= k < commodities.len() && 0 <= i < nodes.len() ==> Some(
            #[trigger] b_eq[at(k, nodes.len() as int, i)],
        ) == requirement(demands, commodities[k], nodes[i], demands.len() as int)
}

/// The right-hand side of flow conservation: for each commodity a block
/// with one entry per node, the traffic of that type that the node sends
/// minus what it receives. Fails where an end of a demand is not in the
/// index, or where a sum overflows.
pub fn build_demand_vector(demand: &DemandMatrix, node_idx: &NodeIndex, commodities: &[usize]) -> (b_eq:
    Result<Vec<Amount>, ShapleyError>)
    ensures
        b_eq is Ok <==> demands_indexed(node_idx@, demand_views(demand.demands@), commodities@)
            && requirements_fit(node_idx@, demand_views(demand.demands@), commodities@),
        b_eq is Ok ==> is_demand_vector(
            b_eq->Ok_0@,
            node_idx@,
            demand_views(demand.demands@),
            commodities@,
        ),
        b_eq is Err ==> b_eq->Err_0 is ComputationError,
{
    let ghost nodes = node_idx@;
    let ghost demands = demand_views(demand.demands@);
    let n_nodes = node_idx.len();
    let n_demands = demand.demands.len();
    let mut b_flows: Vec<Amount> = Vec::new();
    let mut k: usize = 0;
    while k < commodities.len()
        invariant
            k <= commodities.len(),
            nodes == node_idx@,
            demands == demand_views(demand.demands@),
            n_nodes == nodes.len(),
            n_demands == demands.len(),
            b_flows.len() == k * n_nodes,
            forall|a: int, i: int|
                0 <= a < k && 0 <= i < n_nodes ==> Some(
                    #[trigger] b_flows[at(a, n_nodes as int, i)],
                ) == requirement(demands, commodities[a], nodes[i], n_demands as int),
            forall|d: int|
                0 <= d < n_demands && commodities@.take(k as int).contains(
                    (#[trigger] demands[d]).demand_type,
                ) ==> nodes.contains(demands[d].start) && nodes.contains(demands[d].end),
        decreases commodities.len() - k,
    {
        let t = commodities[k];
        assert(commodities@.contains(t));
        let mut block: Vec<Amount> = Vec::new();
        let mut i: usize = 0;
        while i < n_nodes
            invariant
                i <= n_nodes,
                block.len() == i,
                forall|a: int| 0 <= a < i ==> #[trigger] block[a] == Amount::of(0, 0),
            decreases n_nodes - i,
        {
            block.push(Amount::zero());
            i += 1;
        }
        let mut d: usize = 0;
        while d < n_demands
            invariant
                d <= n_demands,
                k < commodities.len(),
                t == commodities[k as int],
                commodities@.contains(t),
                nodes == node_idx@,
                demands == demand_views(demand.demands@),
                n_nodes == nodes.len(),
                n_demands == demands.len(),
                n_demands == demand.demands.len(),
                block.len() == n_nodes,
                forall|a: int|
                    0 <= a < n_nodes ==> Some(#[trigger] block[a]) == requirement(
                        demands,
                        t,
                        nodes[a],
                        d as int,
                    ),
                forall|e: int|
                    0 <= e < d && (#[trigger] demands[e]).demand_type == t ==> nodes.contains(
                        demands[e].start,
                    ) && nodes.contains(demands[e].end),
            decreases n_demands - d,
        {
            let item = &demand.demands[d];
            assert(demands[d as int] == item@);
            if item.demand_type == t {
                let start_idx = match node_idx.get(item.start.as_str()) {
                    Some(i) => i,
                    None => {
                        return Err(
                            ShapleyError::ComputationError(
                                String::from_str("the start of a demand is not among the nodes"),
                            ),
                        );
                    },
                };
                let end_idx = match node_idx.get(item.end.as_str()) {
                    Some(i) => i,
                    None => {
                        return Err(
                            ShapleyError::ComputationError(
                                String::from_str("the end of a demand is not among the nodes"),
                            ),
                        );
                    },
                };
                proof {
                    lemma_sorted_is_distinct(nodes);
                }
                let ghost before = block@;
                let sent = match block[start_idx].checked_add(&item.traffic) {
                    Some(v) => v,
                    None => {
                        proof {
                            assert(requirement(demands, t, nodes[start_idx as int], d + 1) is None);
                            lemma_requirement_overflow_stays(
                                demands,
                                t,
                                nodes[start_idx as int],
                                d + 1,
                                n_demands as int,
                            );
                        }
                        return Err(
                            ShapleyError::ComputationError(
                                String::from_str("the traffic that leaves a node overflows"),
                            ),
                        );
                    },
                };
                block.set(start_idx, sent);
                let received = match block[end_idx].checked_sub(&item.traffic) {
                    Some(v) => v,
                    None => {
                        proof {
                            assert(requirement(demands, t, nodes[end_idx as int], d + 1) is None);
                            lemma_requirement_overflow_stays(
                                demands,
                                t,
                                nodes[end_idx as int],
                                d + 1,
                                n_demands as int,
                            );
                        }
                        return Err(
                            ShapleyError::ComputationError(
                                String::from_str("the traffic that enters a node overflows"),
                            ),
                        );
                    },
                };
                block.set(end_idx, received);
                assert forall|a: int| 0 <= a < n_nodes implies Some(#[trigger] block[a])
                    == requirement(demands, t, nodes[a], d + 1) by {
                    assert(Some(before[a]) == requirement(demands, t, nodes[a], d as int));
                }
            }
            d += 1;
        }
        let ghost before = b_flows@;
        let ghost filled = block@;
        b_flows.append(&mut block);
        proof {
            assert((k + 1) * n_nodes == k * n_nodes + n_nodes) by (nonlinear_arith);
            assert forall|a: int, i: int| 0 <= a < k + 1 && 0 <= i < n_nodes implies Some(
                #[trigger] b_flows[at(a, n_nodes as int, i)],
            ) == requirement(demands, commodities[a], nodes[i], n_demands as int) by {
                if a < k {
                    lemma_at_bound(a, n_nodes as int, i, k as int);
                    assert(b_flows[at(a, n_nodes as int, i)] == before[at(a, n_nodes as int, i)]);
                } else {
                    assert(b_flows[at(a, n_nodes as int, i)] == filled[i]);
                }
            }
            assert forall|d: int|
                0 <= d < n_demands && commodities@.take(k + 1).contains(
                    (#[trigger] demands[d]).demand_type,
                ) implies nodes.contains(demands[d].start) && nodes.contains(demands[d].end) by {
                let longer = commodities@.take(k + 1);
                let w = choose|w: int|
                    0 <= w < longer.len() && #[trigger] longer[w] == demands[d].demand_type;
                if w < k {
                    assert(commodities@.take(k as int)[w] == demands[d].demand_type);
                }
            }
        }
        k += 1;
    }
    proof {
        assert(commodities@.take(commodities.len() as int) =~= commodities@);
        assert forall|a: int, i: int|
            0 <= a < commodities.len() && 0 <= i < n_nodes implies (#[trigger] requirement(
            demands,
            commodities[a],
            nodes[i],
            n_demands as int,
        )) is Some by {
            assert(Some(b_flows[at(a, n_nodes as int, i)]) == requirement(
                demands,
                commodities[a],
                nodes[i],
                n_demands as int,
            ));
        }
    }
    Ok(b_flows)
}

/// `a_eq` is the flow conservation matrix: row `k * N + i` is node `i` in
/// commodity `k`, column `p` is variable `keep[p]`, and the entry is the
/// incidence of the variable's link at the node where the variable belongs
/// to the row's commodity, else zero.
pub open spec fn is_flow_matrix(
    a_eq: &SparseMatrix,
    keep: Seq<usize>,
    nodes: Seq<Seq<char>>,
    links: Seq<LinkView>,
    n_types: int,
) -> bool {
    &&& a_eq.well_formed()
    &&& a_eq.nrows == n_types * nodes.len()
    &&& a_eq.ncols == keep.len()
    &&& forall|k: int, i: int, p: int|
        0 <= k < n_types && 0 <= i < nodes.len() && 0 <= p < keep.len() ==> #[trigger] a_eq.entry(
            at(k, nodes.len() as int, i),
            p,
        ) == if keep[p] as int / (links.len() as int) == k {
            incidence(nodes, links, i, keep[p] as int % (links.len() as int))
        } else {
            0
        }
}

/// The flow conservation system `A_eq x = b_eq` and the list of the
/// variables that exist. The commodities are the traffic types of the
/// demands in rising order. Fails where an end of a link or demand is not
/// in the index, where the program is too large to index, or where a sum of
/// traffic overflows.
pub fn build_flow_constraints(link_map: &[Link], demand: &DemandMatrix, node_idx: &NodeIndex) -> (flow:
    Result<(SparseMatrix, Vec<Amount>, Vec<usize>), ShapleyError>)
    ensures
        flow is Ok <==> {
            let commodities = type_list(demand_views(demand.demands@));
            &&& links_indexed(node_idx@, link_views(link_map@))
            &&& commodities.len() * node_idx@.len() <= usize::MAX
            &&& commodities.len() * link_map.len() <= usize::MAX
            &&& demands_indexed(node_idx@, demand_views(demand.demands@), commodities)
            &&& requirements_fit(node_idx@, demand_views(demand.demands@), commodities)
        },
        flow is Ok ==> {
            let commodities = type_list(demand_views(demand.demands@));
            let (a_eq, b_eq, keep) = flow->Ok_0;
            &&& is_keep_list(keep@, link_views(link_map@), commodities)
            &&& is_flow_matrix(
                &a_eq,
                keep@,
                node_idx@,
                link_views(link_map@),
                commodities.len() as int,
            )
            &&& is_demand_vector(b_eq@, node_idx@, demand_views(demand.demands@), commodities)
        },
        flow is Err ==> flow->Err_0 is ComputationError,
{
    let ghost links = link_views(link_map@);
    let ghost nodes = node_idx@;
    let a_single = build_single_commodity_matrix(link_map, node_idx)?;
    let commodities = demand.unique_types();
    let n_commodities = commodities.len();
    let a_full = block_diagonal(&a_single, n_commodities)?;
    let keep = get_valid_columns(link_map, commodities.as_slice())?;
    proof {
        assert forall|p: int| 0 <= p < keep.len() implies #[trigger] keep[p] < a_full.ncols by {
            assert(is_valid_column(links, commodities@, keep[p] as int));
        }
    }
    let a_eq = select_columns(&a_full, keep.as_slice())?;
    let b_eq = build_demand_vector(demand, node_idx, commodities.as_slice())?;
    proof {
        let n = nodes.len() as int;
        let l = links.len() as int;
        assert forall|k: int, i: int, p: int|
            0 <= k < n_commodities && 0 <= i < n && 0 <= p < keep.len() implies #[trigger] a_eq.entry(
            at(k, n, i),
            p,
        ) == if keep[p] as int / l == k {
            incidence(nodes, links, i, keep[p] as int % l)
        } else {
            0
        } by {
            let x = keep[p] as int;
            assert(is_valid_column(links, commodities@, x));
            lemma_split(x, l, n_commodities as int);
            lemma_at_bound(k, n, i, n_commodities as int);
            assert(a_eq.entry(at(k, n, i), p) == a_full.entry(at(k, n, i), x));
            assert(a_full.entry(at(k, n, i), at(x / l, l, x % l)) == if k == x / l {
                a_single.entry(i, x % l)
            } else {
                0
            });
        }
    }
    Ok((a_eq, b_eq, keep))
}

/// The first of the first `n` links that is in capacity group `id`.
pub open spec fn pool_first(links: Seq<LinkView>, id: int, n: int) -> Option<int>
    decreases n,
{
    if n <= 0 {
        None
    } else {
        match pool_first(links, id, n - 1) {
            Some(j) => Some(j),
            None => if links[n - 1].shared == id {
                Some(n - 1)
            } else {
                None
            },
        }
    }
}

/// The capacity of pool `s` (capacity group `s + 1`): the bandwidth of the
/// first private link in the group; zero where the group is empty.
pub open spec fn pool_capacity(links: Seq<LinkView>, n_private: int, s: int) -> Amount {
    match pool_first(links, s + 1, n_private) {
        Some(j) => links[j].bandwidth,
        None => Amount::of(0, 0),
    }
}

/// The first owner of pool `s`: that of the first private link in the
/// group; `"0"` where the group is empty.
pub open spec fn pool_owner1(links: Seq<LinkView>, n_private: int, s: int) -> Seq<char> {
    match pool_first(links, s + 1, n_private) {
        Some(j) => links[j].operator1,
        None => public_operator(),
    }
}

/// The second owner of pool `s`: that of the first private link in the
/// group; `"0"` where the group is empty.
pub open spec fn pool_owner2(links: Seq<LinkView>, n_private: int, s: int) -> Seq<char> {
    match pool_first(links, s + 1, n_private) {
        Some(j) => links[j].operator2,
        None => public_operator(),
    }
}

/// How much of pool `s` a unit of flow on link `j` uses: one where the link
/// is private and in capacity group `s + 1`, else nothing.
pub open spec fn draws_on(links: Seq<LinkView>, n_private: int, s: int, j: int) -> int {
    if j < n_private && links[j].shared == s + 1 {
        1
    } else {
        0
    }
}

/// The number of pools: the largest capacity group id among the first
/// `n_private` links.
pub open spec fn pool_count(links: Seq<LinkView>, n_private: int) -> int {
    max_shared(links.take(n_private))
}

/// `a_ub` is the bandwidth matrix: row `s` is pool `s`, column `p` is
/// variable `keep[p]`, and the entry says whether the variable's link draws
/// on the pool, whatever the commodity.
pub open spec fn is_bandwidth_matrix(
    a_ub: &SparseMatrix,
    keep: Seq<usize>,
    links: Seq<LinkView>,
    n_private: int,
) -> bool {
    &&& a_ub.well_formed()
    &&& a_ub.nrows == pool_count(links, n_private)
    &&& a_ub.ncols == keep.len()
    &&& forall|s: int, p: int|
        0 <= s < a_ub.nrows && 0 <= p < keep.len() ==> #[trigger] a_ub.entry(s, p) == draws_on(
            links,
            n_private,
            s,
            keep[p] as int % (links.len() as int),
        )
}

/// `b_ub` holds the capacity of each pool.
pub open spec fn is_capacity_vector(b_ub: Seq<Amount>, links: Seq<LinkView>, n_private: int) -> bool {
    &&& b_ub.len() == pool_count(links, n_private)
    &&& forall|s: int| 0 <= s < b_ub.len() ==> #[trigger] b_ub[s] == pool_capacity(links, n_private, s)
}

/// Every variable of `keep` is one of the `n_types * n_links` there can be.
pub open spec fn columns_in_range(keep: Seq<usize>, n_types: int, n_links: int) -> bool {
    forall|p: int| 0 <= p < keep.len() ==> #[trigger] keep[p] < n_types * n_links
}

/// For each pool the first private link in it, if any.
fn first_in_pools(link_map: &[Link], n_private: usize, n_pools: usize) -> (firsts: Vec<
    Option<usize>,
>)
    requires
        n_private <= link_map.len(),
    ensures
        firsts.len() == n_pools,
        forall|s: int|
            0 <= s < n_pools ==> match #[trigger] firsts[s] {
                Some(j) => j < n_private && pool_first(
                    link_views(link_map@),
                    s + 1,
                    n_private as int,
                ) == Some(j as int),
                None => pool_first(link_views(link_map@), s + 1, n_private as int) is None,
            },
{
    let ghost links = link_views(link_map@);
    let mut firsts: Vec<Option<usize>> = Vec::new();
    let mut s: usize = 0;
    while s < n_pools
        invariant
            s <= n_pools,
            firsts.len() == s,
            forall|a: int| 0 <= a < s ==> #[trigger] firsts[a] is None,
        decreases n_pools - s,
    {
        firsts.push(None);
        s += 1;
    }
    let mut j: usize = 0;
    while j < n_private
        invariant
            j <= n_private,
            n_private <= link_map.len(),
            links == link_views(link_map@),
            firsts.len() == n_pools,
            forall|a: int|
                0 <= a < n_pools ==> match #[trigger] firsts[a] {
                    Some(f) => f < j && pool_first(links, a + 1, j as int) == Some(f as int),
                    None => pool_first(links, a + 1, j as int) is None,
                },
        decreases n_private - j,
    {
        assert(links[j as int] == link_map[j as int]@);
        let id = link_map[j].shared;
        if id > 0 && id <= n_pools {
            if firsts[id - 1].is_none() {
                firsts.set(id - 1, Some(j));
            }
        }
        j += 1;
    }
    firsts
}

/// The bandwidth system `A_ub x <= b_ub`: one row per shared-capacity pool
/// of the first `n_private` links. Every commodity draws on the same pools,
/// so the single-commodity matrix is repeated side by side, not down the
/// diagonal. Fails where `n_private` exceeds the number of links, where the
/// program is too large to index, or where `keep` names a variable that
/// does not exist.
pub fn build_bandwidth_constraints(
    link_map: &[Link],
    n_private: usize,
    commodities: &[usize],
    keep: &[usize],
) -> (bandwidth: Result<(SparseMatrix, Vec<Amount>), ShapleyError>)
    ensures
        bandwidth is Ok <==> {
            &&& n_private <= link_map.len()
            &&& commodities.len() * link_map.len() <= usize::MAX
            &&& columns_in_range(keep@, commodities.len() as int, link_map.len() as int)
        },
        bandwidth is Ok ==> {
            let (a_ub, b_ub) = bandwidth->Ok_0;
            &&& is_bandwidth_matrix(&a_ub, keep@, link_views(link_map@), n_private as int)
            &&& is_capacity_vector(b_ub@, link_views(link_map@), n_private as int)
        },
        bandwidth is Err ==> bandwidth->Err_0 is ComputationError,
{
    let ghost links = link_views(link_map@);
    let n_links = link_map.len();
    if n_private > n_links {
        return Err(
            ShapleyError::ComputationError(
                String::from_str("more private links than there are links"),
            ),
        );
    }
    let ghost owned = links.take(n_private as int);
    let mut max_id: usize = 0;
    let mut j: usize = 0;
    while j < n_private
        invariant
            j <= n_private,
            n_private <= n_links,
            n_links == link_map.len(),
            links == link_views(link_map@),
            max_id == max_shared(links.take(j as int)),
        decreases n_private - j,
    {
        assert(links.take(j + 1).drop_last() =~= links.take(j as int));
        assert(links.take(j + 1).last() == link_map[j as int]@);
        if link_map[j].shared > max_id {
            max_id = link_map[j].shared;
        }
        j += 1;
    }
    proof {
        lemma_max_shared(owned);
    }
    let mut triplets: Vec<Triplet> = Vec::new();
    let mut col: usize = 0;
    while col < n_private
        invariant
            col <= n_private,
            n_private <= n_links,
            n_links == link_map.len(),
            links == link_views(link_map@),
            owned == links.take(n_private as int),
            max_id == max_shared(owned),
            forall|a: int| 0 <= a < owned.len() ==> (#[trigger] owned[a]).shared <= max_id,
            forall|k: int|
                0 <= k < triplets.len() ==> (#[trigger] triplets[k]).row < max_id
                    && triplets[k].col < n_links,
            forall|s: int, c: int|
                0 <= s < max_id && 0 <= c < n_links ==> #[trigger] entry_of(triplets@, s, c) == if c
                    < col {
                    draws_on(links, n_private as int, s, c)
                } else {
                    0
                },
        decreases n_private - col,
    {
        assert(links[col as int] == link_map[col as int]@);
        assert(owned[col as int] == links[col as int]);
        let shared = link_map[col].shared;
        if shared > 0 {
            let uses = Triplet { row: shared - 1, col, value: 1 };
            let ghost before = triplets@;
            triplets.push(uses);
            proof {
                assert forall|s: int, c: int|
                    0 <= s < max_id && 0 <= c < n_links implies #[trigger] entry_of(triplets@, s, c)
                    == if c < col + 1 {
                    draws_on(links, n_private as int, s, c)
                } else {
                    0
                } by {
                    lemma_entry_push(before, uses, s, c);
                }
            }
        }
        col += 1;
    }
    let i_single = SparseMatrix { nrows: max_id, ncols: n_links, triplets };
    let i_full = horizontal_concat(&i_single, commodities.len())?;
    let a_ub = select_columns(&i_full, keep)?;
    let firsts = first_in_pools(link_map, n_private, max_id);
    let mut capacities: Vec<Amount> = Vec::new();
    let mut s: usize = 0;
    while s < max_id
        invariant
            s <= max_id,
            firsts.len() == max_id,
            n_private <= link_map.len(),
            links == link_views(link_map@),
            capacities.len() == s,
            forall|a: int|
                0 <= a < max_id ==> match #[trigger] firsts[a] {
                    Some(f) => f < n_private && pool_first(links, a + 1, n_private as int) == Some(
                        f as int,
                    ),
                    None => pool_first(links, a + 1, n_private as int) is None,
                },
            forall|a: int|
                0 <= a < s ==> #[trigger] capacities[a] == pool_capacity(links, n_private as int, a),
        decreases max_id - s,
    {
        match firsts[s] {
            Some(f) => {
                assert(links[f as int] == link_map[f as int]@);
                capacities.push(link_map[f].bandwidth);
            },
            None => {
                capacities.push(Amount::zero());
            },
        }
        s += 1;
    }
    proof {
        let l = n_links as int;
        assert forall|s: int, p: int| 0 <= s < max_id && 0 <= p < keep.len() implies #[trigger] a_ub.entry(
            s,
            p,
        ) == draws_on(links, n_private as int, s, keep[p] as int % l) by {
            let x = keep[p] as int;
            lemma_split(x, l, commodities.len() as int);
            assert(a_ub.entry(s, p) == i_full.entry(s, x));
            assert(i_full.entry(s, at(x / l, l, x % l)) == i_single.entry(s, x % l));
        }
    }
    Ok((a_ub, capacities))
}

/// The operator tags of the program's rows and columns.
#[derive(Debug)]
pub struct OperatorIndices {
    /// The first owner of each bandwidth row's pool.
    pub row_index1: Vec<String>,
    /// The second owner of each bandwidth row's pool.
    pub row_index2: Vec<String>,
    /// The first owner of each variable's link.
    pub col_index1: Vec<String>,
    /// The second owner of each variable's link.
    pub col_index2: Vec<String>,
}

/// `tags` are the tags of the bandwidth rows: for each pool the owners of
/// the first private link in it.
pub open spec fn are_row_tags(
    tags1: Seq<Seq<char>>,
    tags2: Seq<Seq<char>>,
    links: Seq<LinkView>,
    n_private: int,
) -> bool {
    &&& tags1.len() == pool_count(links, n_private)
    &&& tags2.len() == tags1.len()
    &&& forall|s: int|
        0 <= s < tags1.len() ==> #[trigger] tags1[s] == pool_owner1(links, n_private, s)
    &&& forall|s: int|
        0 <= s < tags2.len() ==> #[trigger] tags2[s] == pool_owner2(links, n_private, s)
}

/// `tags` are the tags of the columns: for each variable the owners of its
/// link.
pub open spec fn are_column_tags(
    tags1: Seq<Seq<char>>,
    tags2: Seq<Seq<char>>,
    links: Seq<LinkView>,
    keep: Seq<usize>,
) -> bool {
    &&& tags1.len() == keep.len()
    &&& tags2.len() == keep.len()
    &&& forall|p: int|
        0 <= p < keep.len() ==> #[trigger] tags1[p] == links[keep[p] as int % (
        links.len() as int)].operator1
    &&& forall|p: int|
        0 <= p < keep.len() ==> #[trigger] tags2[p] == links[keep[p] as int % (
        links.len() as int)].operator2
}

/// The operator tags: for each bandwidth row the two owners of its pool,
/// and for each variable the two owners of its link. A coalition may use a
/// row or a column when both its tags are members or `"0"`. Fails where
/// `n_private` exceeds the number of links, where the program is too large
/// to index, or where `keep` names a variable that does not exist.
pub fn extract_operator_indices(
    link_map: &[Link],
    n_private: usize,
    commodities: &[usize],
    keep: &[usize],
) -> (indices: Result<OperatorIndices, ShapleyError>)
    ensures
        indices is Ok <==> {
            &&& n_private <= link_map.len()
            &&& commodities.len() * link_map.len() <= usize::MAX
            &&& columns_in_range(keep@, commodities.len() as int, link_map.len() as int)
        },
        indices is Ok ==> {
            let found = indices->Ok_0;
            &&& are_row_tags(
                texts(found.row_index1@),
                texts(found.row_index2@),
                link_views(link_map@),
                n_private as int,
            )
            &&& are_column_tags(
                texts(found.col_index1@),
                texts(found.col_index2@),
                link_views(link_map@),
                keep@,
            )
        },
        indices is Err ==> indices->Err_0 is ComputationError,
{
    let ghost links = link_views(link_map@);
    let n_links = link_map.len();
    if n_private > n_links {
        return Err(
            ShapleyError::ComputationError(
                String::from_str("more private links than there are links"),
            ),
        );
    }
    let total = match commodities.len().checked_mul(n_links) {
        Some(t) => t,
        None => {
            return Err(
                ShapleyError::ComputationError(
                    String::from_str("the program has too many variables"),
                ),
            );
        },
    };
    let mut max_id: usize = 0;
    let mut j: usize = 0;
    while j < n_private
        invariant
            j <= n_private,
            n_private <= n_links,
            n_links == link_map.len(),
            links == link_views(link_map@),
            max_id == max_shared(links.take(j as int)),
        decreases n_private - j,
    {
        assert(links.take(j + 1).drop_last() =~= links.take(j as int));
        assert(links.take(j + 1).last() == link_map[j as int]@);
        if link_map[j].shared > max_id {
            max_id = link_map[j].shared;
        }
        j += 1;
    }
    let firsts = first_in_pools(link_map, n_private, max_id);
    let mut row_index1: Vec<String> = Vec::new();
    let mut row_index2: Vec<String> = Vec::new();
    let mut s: usize = 0;
    while s < max_id
        invariant
            s <= max_id,
            firsts.len() == max_id,
            n_private <= link_map.len(),
            links == link_views(link_map@),
            row_index1.len() == s,
            row_index2.len() == s,
            forall|a: int|
                0 <= a < max_id ==> match #[trigger] firsts[a] {
                    Some(f) => f < n_private && pool_first(links, a + 1, n_private as int) == Some(
                        f as int,
                    ),
                    None => pool_first(links, a + 1, n_private as int) is None,
                },
            forall|a: int|
                0 <= a < s ==> (#[trigger] row_index1[a])@ == pool_owner1(
                    links,
                    n_private as int,
                    a,
                ),
            forall|a: int|
                0 <= a < s ==> (#[trigger] row_index2[a])@ == pool_owner2(
                    links,
                    n_private as int,
                    a,
                ),
        decreases max_id - s,
    {
        match firsts[s] {
            Some(f) => {
                assert(links[f as int] == link_map[f as int]@);
                row_index1.push(link_map[f].operator1.clone());
                row_index2.push(link_map[f].operator2.clone());
            },
            None => {
                let zero = String::from_str("0");
                let also_zero = String::from_str("0");
                proof {
                    reveal_strlit("0");
                    assert(zero@ =~= public_operator());
                }
                row_index1.push(zero);
                row_index2.push(also_zero);
            },
        }
        s += 1;
    }
    let mut col_index1: Vec<String> = Vec::new();
    let mut col_index2: Vec<String> = Vec::new();
    let mut p: usize = 0;
    while p < keep.len()
        invariant
            p <= keep.len(),
            n_links == link_map.len(),
            links == link_views(link_map@),
            total == commodities.len() * n_links,
            col_index1.len() == p,
            col_index2.len() == p,
            forall|q: int| 0 <= q < p ==> #[trigger] keep[q] < total,
            forall|q: int|
                0 <= q < p ==> (#[trigger] col_index1[q])@ == links[keep[q] as int % (
                n_links as int)].operator1,
            forall|q: int|
                0 <= q < p ==> (#[trigger] col_index2[q])@ == links[keep[q] as int % (
                n_links as int)].operator2,
        decreases keep.len() - p,
    {
        if keep[p] >= total {
            return Err(
                ShapleyError::ComputationError(
                    String::from_str("a column to keep lies outside the program"),
                ),
            );
        }
        proof {
            lemma_split(keep[p as int] as int, n_links as int, commodities.len() as int);
        }
        let j = keep[p] % n_links;
        assert(links[j as int] == link_map[j as int]@);
        col_index1.push(link_map[j].operator1.clone());
        col_index2.push(link_map[j].operator2.clone());
        p += 1;
    }
    proof {
        assert(links.take(n_private as int) =~= links.take(n_private as int));
        assert(texts(row_index1@).len() == max_id);
    }
    Ok(OperatorIndices { row_index1, row_index2, col_index1, col_index2 })
}

/// `cost` holds for each variable the cost of its link.
pub open spec fn is_cost_vector(cost: Seq<Amount>, links: Seq<LinkView>, keep: Seq<usize>) -> bool {
    &&& cost.len() == keep.len()
    &&& forall|p: int|
        0 <= p < keep.len() ==> #[trigger] cost[p] == links[keep[p] as int % (
        links.len() as int)].cost
}

/// The objective: what a unit of flow costs on each variable's link,
/// whatever the commodity. Fails where the program is too large to index or
/// where `keep` names a variable that does not exist.
pub fn build_objective_coefficients(link_map: &[Link], commodities: &[usize], keep: &[usize]) -> (cost:
    Result<Vec<Amount>, ShapleyError>)
    ensures
        cost is Ok <==> {
            &&& commodities.len() * link_map.len() <= usize::MAX
            &&& columns_in_range(keep@, commodities.len() as int, link_map.len() as int)
        },
        cost is Ok ==> is_cost_vector(cost->Ok_0@, link_views(link_map@), keep@),
        cost is Err ==> cost->Err_0 is ComputationError,
{
    let ghost links = link_views(link_map@);
    let n_links = link_map.len();
    let total = match commodities.len().checked_mul(n_links) {
        Some(t) => t,
        None => {
            return Err(
                ShapleyError::ComputationError(
                    String::from_str("the program has too many variables"),
                ),
            );
        },
    };
    let mut costs: Vec<Amount> = Vec::new();
    let mut p: usize = 0;
    while p < keep.len()
        invariant
            p <= keep.len(),
            n_links == link_map.len(),
            links == link_views(link_map@),
            total == commodities.len() * n_links,
            costs.len() == p,
            forall|q: int| 0 <= q < p ==> #[trigger] keep[q] < total,
            forall|q: int|
                0 <= q < p ==> #[trigger] costs[q] == links[keep[q] as int % (n_links as int)].cost,
        decreases keep.len() - p,
    {
        if keep[p] >= total {
            return Err(
                ShapleyError::ComputationError(
                    String::from_str("a column to keep lies outside the program"),
                ),
            );
        }
        proof {
            lemma_split(keep[p as int] as int, n_links as int, commodities.len() as int);
        }
        let j = keep[p] % n_links;
        assert(links[j as int] == link_map[j as int]@);
        costs.push(link_map[j].cost);
        p += 1;
    }
    Ok(costs)
}

} // verus!
