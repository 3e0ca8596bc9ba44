//! Operators and coalitions: who the players are, which columns and rows of
//! the linear program a coalition may use, and what each operator is owed
//! once every coalition has its value.

use crate::error::ShapleyError;
use crate::labels::{
    insert_sorted, is_public_operator, lemma_sorted_unique, public_operator, same_text,
    strictly_sorted, texts,
};
use crate::lp::LPPrimitives;
use crate::sparse::{entry_of, lemma_entry_push, SparseMatrix, Triplet};
use crate::types::{Link, link_views, LinkView};
use crate::utils::{bit, generate_bitmap, has_bit, holds, lemma_bit_doubles, single, MAX_BITS};
use vstd::prelude::*;

verus! {

/// Some link of `links` names `operator` as its first or second owner.
pub open spec fn is_owner(links: Seq<LinkView>, operator: Seq<char>) -> bool {
    exists|i: int|
        0 <= i < links.len() && ((#[trigger] links[i]).operator1 == operator || links[i].operator2
            == operator)
}

/// `operators` lists, in lexicographic order and each once, the owners that
/// `links` name, but for the reserved `"0"`.
pub open spec fn is_operator_list(operators: Seq<Seq<char>>, links: Seq<LinkView>) -> bool {
    &&& strictly_sorted(operators)
    &&& forall|x: Seq<char>|
        operators.contains(x) <==> (x != public_operator() && is_owner(links, x))
}

/// The operators of `links`: the owners that the links name, but for the
/// reserved `"0"`, in lexicographic order, each once.
pub open spec fn operator_list(links: Seq<LinkView>) -> Seq<Seq<char>> {
    choose|operators: Seq<Seq<char>>| is_operator_list(operators, links)
}

/// The operators of the private links, in lexicographic order: position `i`
/// of the result is bit `i` of every coalition index.
pub fn enumerate_operators(private_links: &[Link]) -> (operators: Vec<String>)
    ensures
        is_operator_list(texts(operators@), link_views(private_links@)),
        texts(operators@) == operator_list(link_views(private_links@)),
{
    let ghost all = link_views(private_links@);
    let mut operators: Vec<String> = Vec::new();
    let mut i: usize = 0;
    while i < private_links.len()
        invariant
            i <= private_links.len(),
            all == link_views(private_links@),
            strictly_sorted(texts(operators@)),
            forall|x: Seq<char>|
                texts(operators@).contains(x) <==> (x != public_operator() && is_owner(
                    all.take(i as int),
                    x,
                )),
        decreases private_links.len() - i,
    {
        let link = &private_links[i];
        let ghost before = texts(operators@);
        let ghost seen = all.take(i as int);
        let ghost next = all.take(i + 1);
        assert(all[i as int] == link@);
        if !is_public_operator(link.operator1.as_str()) {
            insert_sorted(&mut operators, link.operator1.as_str());
        }
        if !is_public_operator(link.operator2.as_str()) {
            insert_sorted(&mut operators, link.operator2.as_str());
        }
        proof {
            assert forall|x: Seq<char>| is_owner(next, x) <==> (is_owner(seen, x) || x
                == link@.operator1 || x == link@.operator2) by {
                if is_owner(seen, x) {
                    let w = choose|w: int|
                        0 <= w < seen.len() && ((#[trigger] seen[w]).operator1 == x
                            || seen[w].operator2 == x);
                    assert(next[w] == seen[w]);
                }
                if x == link@.operator1 || x == link@.operator2 {
                    assert(next[i as int] == link@);
                }
                if is_owner(next, x) {
                    let w = choose|w: int|
                        0 <= w < next.len() && ((#[trigger] next[w]).operator1 == x
                            || next[w].operator2 == x);
                    if w < i {
                        assert(seen[w] == next[w]);
                    }
                }
            }
        }
        i += 1;
    }
    proof {
        assert(all.take(private_links.len() as int) =~= all);
        let chosen = operator_list(all);
        assert(is_operator_list(texts(operators@), all));
        lemma_sorted_unique(texts(operators@), chosen);
    }
    operators
}

/// The bitmap of all coalitions of `n_operators` operators: entry `[i][c]`
/// is 1 where coalition `c` holds operator `i`, else 0. Coalition 0 is the
/// empty one and coalition `2^n - 1` the grand one.
pub fn generate_coalition_bitmap(n_operators: usize) -> (bitmap: Vec<Vec<u8>>)
    requires
        n_operators <= MAX_BITS,
    ensures
        is_coalition_bitmap(bitmap@, n_operators),
{
    generate_bitmap(n_operators)
}

/// `bitmap` is the bitmap of the coalitions of `n` operators.
pub open spec fn is_coalition_bitmap(bitmap: Seq<Vec<u8>>, n: usize) -> bool {
    &&& bitmap.len() == n
    &&& forall|i: int| 0 <= i < n ==> (#[trigger] bitmap[i]).len() == bit(n)
    &&& forall|i: int, c: int|
        0 <= i < n && 0 <= c < bit(n) ==> #[trigger] bitmap[i][c] == if has_bit(
            c as usize,
            i as usize,
        ) {
            1u8
        } else {
            0u8
        }
}

/// Whether `bitmap` is the bitmap of the coalitions of `n` operators.
pub fn is_bitmap(bitmap: &Vec<Vec<u8>>, n: usize) -> (fine: bool)
    requires
        n <= MAX_BITS,
    ensures
        fine == is_coalition_bitmap(bitmap@, n),
{
    if bitmap.len() != n {
        return false;
    }
    let width = single(n);
    let mut i: usize = 0;
    while i < n
        invariant
            i <= n,
            n <= MAX_BITS,
            bitmap.len() == n,
            width == bit(n),
            forall|a: int| 0 <= a < i ==> (#[trigger] bitmap[a]).len() == width,
            forall|a: int, c: int|
                0 <= a < i && 0 <= c < width ==> #[trigger] bitmap[a][c] == if has_bit(
                    c as usize,
                    a as usize,
                ) {
                    1u8
                } else {
                    0u8
                },
        decreases n - i,
    {
        if bitmap[i].len() != width {
            return false;
        }
        let mut c: usize = 0;
        while c < width
            invariant
                c <= width,
                i < n,
                n <= MAX_BITS,
                bitmap.len() == n,
                bitmap[i as int].len() == width,
                forall|b: int|
                    0 <= b < c ==> #[trigger] bitmap[i as int][b] == if has_bit(b as usize, i) {
                        1u8
                    } else {
                        0u8
                    },
            decreases width - c,
        {
            let want: u8 = if holds(c, i) {
                1
            } else {
                0
            };
            if bitmap[i][c] != want {
                return false;
            }
            c += 1;
        }
        i += 1;
    }
    true
}

/// Those of the first `n` operators that coalition `idx` holds, in order.
pub open spec fn members(operators: Seq<Seq<char>>, idx: usize, n: int) -> Seq<Seq<char>>
    decreases n,
{
    if n <= 0 {
        Seq::empty()
    } else {
        let rest = members(operators, idx, n - 1);
        if has_bit(idx, (n - 1) as usize) {
            rest.push(operators[n - 1])
        } else {
            rest
        }
    }
}

/// The operators that coalition `idx` holds: those whose bit is set in the
/// bitmap's column `idx`, in the order of `operators`.
pub fn get_coalition_subset(operators: &[String], bitmap: &Vec<Vec<u8>>, idx: usize) -> (subset:
    Vec<String>)
    requires
        operators.len() <= MAX_BITS,
        is_coalition_bitmap(bitmap@, operators.len()),
        idx < bit(operators.len()),
    ensures
        texts(subset@) == members(texts(operators@), idx, operators.len() as int),
{
    let ghost all = texts(operators@);
    let mut subset: Vec<String> = Vec::new();
    let mut i: usize = 0;
    assert(texts(subset@) =~= members(all, idx, 0));
    while i < operators.len()
        invariant
            i <= operators.len(),
            all == texts(operators@),
            is_coalition_bitmap(bitmap@, operators.len()),
            idx < bit(operators.len()),
            texts(subset@) == members(all, idx, i as int),
        decreases operators.len() - i,
    {
        let ghost before = texts(subset@);
        assert(bitmap@[i as int][idx as int] == if has_bit(idx, i) {
            1u8
        } else {
            0u8
        });
        if bitmap[i][idx] == 1 {
            subset.push(operators[i].clone());
            assert(texts(subset@) =~= before.push(all[i as int]));
        }
        i += 1;
    }
    subset
}

/// A row or column tagged `tag` is open to the coalition `subset`: the tag
/// is a member or the reserved `"0"`.
pub open spec fn admits(subset: Seq<Seq<char>>, tag: Seq<char>) -> bool {
    tag == public_operator() || subset.contains(tag)
}

/// The mask over rows or columns with the tags `tags1` and `tags2`: true
/// where the coalition is admitted by both tags.
pub open spec fn coalition_mask(
    subset: Seq<Seq<char>>,
    tags1: Seq<Seq<char>>,
    tags2: Seq<Seq<char>>,
) -> Seq<bool> {
    Seq::new(
        if tags1.len() <= tags2.len() {
            tags1.len()
        } else {
            tags2.len()
        },
        |j: int| admits(subset, tags1[j]) && admits(subset, tags2[j]),
    )
}

/// The mask of one family of tags.
fn mask_of(subset: &[String], tags1: &Vec<String>, tags2: &Vec<String>) -> (mask: Vec<bool>)
    ensures
        mask@ == coalition_mask(texts(subset@), texts(tags1@), texts(tags2@)),
{
    let n = if tags1.len() <= tags2.len() {
        tags1.len()
    } else {
        tags2.len()
    };
    let mut mask: Vec<bool> = Vec::new();
    let mut j: usize = 0;
    while j < n
        invariant
            j <= n,
            n <= tags1.len(),
            n <= tags2.len(),
            mask.len() == j,
            forall|a: int|
                0 <= a < j ==> #[trigger] mask[a] == (admits(texts(subset@), texts(tags1@)[a])
                    && admits(texts(subset@), texts(tags2@)[a])),
        decreases n - j,
    {
        let first = is_public_operator(tags1[j].as_str()) || member_of(subset, tags1[j].as_str());
        let second = is_public_operator(tags2[j].as_str()) || member_of(subset, tags2[j].as_str());
        mask.push(first && second);
        j += 1;
    }
    assert(mask@ =~= coalition_mask(texts(subset@), texts(tags1@), texts(tags2@)));
    mask
}

/// Whether `subset` holds `label`.
fn member_of(subset: &[String], label: &str) -> (found: bool)
    ensures
        found == texts(subset@).contains(label@),
{
    let mut i: usize = 0;
    while i < subset.len()
        invariant
            i <= subset.len(),
            forall|j: int| 0 <= j < i ==> texts(subset@)[j] != label@,
        decreases subset.len() - i,
    {
        if same_text(subset[i].as_str(), label) {
            assert(texts(subset@)[i as int] == label@);
            return true;
        }
        i += 1;
    }
    false
}

/// Which bandwidth rows and which variables the coalition `subset` may use:
/// those whose two tags are both members or `"0"`. The row mask comes
/// first.
pub fn get_coalition_masks(subset: &[String], primitives: &LPPrimitives) -> (masks: (
    Vec<bool>,
    Vec<bool>,
))
    ensures
        masks.0@ == coalition_mask(
            texts(subset@),
            texts(primitives.row_index1@),
            texts(primitives.row_index2@),
        ),
        masks.1@ == coalition_mask(
            texts(subset@),
            texts(primitives.col_index1@),
            texts(primitives.col_index2@),
        ),
{
    let row_mask = mask_of(subset, &primitives.row_index1, &primitives.row_index2);
    let col_mask = mask_of(subset, &primitives.col_index1, &primitives.col_index2);
    (row_mask, col_mask)
}

/// Coalition `c` is part of coalition `i`: every operator of `c` is in `i`.
pub open spec fn is_subset(c: usize, i: usize) -> bool {
    c & i == c
}

/// The subset mask of the first `n_coal` coalitions: entry `[i][c]` is 1
/// where coalition `c` is part of coalition `i`, else 0. The mask is lower
/// triangular: a part has no larger index than the whole.
pub fn build_submask(_bitmap: &Vec<Vec<u8>>, n_coal: usize) -> (submask: Vec<Vec<u8>>)
    ensures
        submask.len() == n_coal,
        forall|i: int| 0 <= i < n_coal ==> (#[trigger] submask[i]).len() == n_coal,
        forall|i: int, c: int|
            0 <= i < n_coal && 0 <= c < n_coal ==> #[trigger] submask[i][c] == if is_subset(
                c as usize,
                i as usize,
            ) {
                1u8
            } else {
                0u8
            },
{
    let mut submask: Vec<Vec<u8>> = Vec::new();
    let mut i: usize = 0;
    while i < n_coal
        invariant
            i <= n_coal,
            submask.len() == i,
            forall|a: int| 0 <= a < i ==> (#[trigger] submask[a]).len() == n_coal,
            forall|a: int, c: int|
                0 <= a < i && 0 <= c < n_coal ==> #[trigger] submask[a][c] == if is_subset(
                    c as usize,
                    a as usize,
                ) {
                    1u8
                } else {
                    0u8
                },
        decreases n_coal - i,
    {
        let mut row: Vec<u8> = Vec::new();
        let mut j: usize = 0;
        while j < n_coal
            invariant
                j <= n_coal,
                row.len() == j,
                forall|c: int|
                    0 <= c < j ==> #[trigger] row[c] == if is_subset(c as usize, i) {
                        1u8
                    } else {
                        0u8
                    },
            decreases n_coal - j,
        {
            row.push(
                if (j & i) == j {
                    1
                } else {
                    0
                },
            );
            j += 1;
        }
        submask.push(row);
        i += 1;
    }
    submask
}

/// The entry at row `k`, column `c` of the coefficient matrix of `m`
/// operators. The matrix of no operator is the single entry zero; that of
/// `m + 1` operators is made of four blocks of the matrix `K` of `m`
/// operators: `K` top left, zero top right, `-K - I` bottom left and `K`
/// bottom right.
pub open spec fn coefficient(m: int, k: int, c: int) -> int
    decreases m,
{
    if m <= 0 {
        0
    } else {
        let s = bit((m - 1) as usize) as int;
        if k < s && c < s {
            coefficient(m - 1, k, c)
        } else if k < s {
            0
        } else if c < s {
            -coefficient(m - 1, k - s, c) - if k - s == c {
                1int
            } else {
                0int
            }
        } else {
            coefficient(m - 1, k - s, c - s)
        }
    }
}

/// One at the first `j` places of the diagonal, zero elsewhere.
pub open spec fn on_diagonal(k: int, c: int, j: int) -> int {
    if k == c && k < j {
        1
    } else {
        0
    }
}

/// `grown` is twice as wide and high as `former`, with `former` top left
/// and bottom right, nothing top right, and bottom left the negative of
/// `former` less one at the first `j` places of the diagonal.
pub open spec fn is_grown(grown: Seq<Triplet>, former: Seq<Triplet>, sz: int, j: int) -> bool {
    forall|k: int, c: int|
        0 <= k < sz && 0 <= c < sz ==> {
            &&& #[trigger] entry_of(grown, k, c) == entry_of(former, k, c)
            &&& entry_of(grown, k, c + sz) == 0
            &&& entry_of(grown, k + sz, c) == -entry_of(former, k, c) - on_diagonal(k, c, j)
            &&& entry_of(grown, k + sz, c + sz) == entry_of(former, k, c)
        }
}

/// The coefficient matrix of `n_ops` operators: the kernel that turns
/// chances of being up into chances of exactly one set of operators being
/// up, by inclusion and exclusion. It has `2^n_ops` rows and columns.
pub fn build_coefficient_matrix(n_ops: usize) -> (kernel: Result<SparseMatrix, ShapleyError>)
    ensures
        kernel is Ok <==> n_ops <= MAX_BITS,
        kernel is Ok ==> {
            let found = kernel->Ok_0;
            &&& found.well_formed()
            &&& found.nrows == bit(n_ops)
            &&& found.ncols == bit(n_ops)
            &&& forall|k: int, c: int|
                0 <= k < found.nrows && 0 <= c < found.ncols ==> #[trigger] found.entry(k, c)
                    == coefficient(n_ops as int, k, c)
        },
        kernel is Err ==> kernel->Err_0 is ComputationError,
{
    if n_ops > MAX_BITS {
        return Err(ShapleyError::ComputationError(String::from_str("too many operators")));
    }
    let mut triplets: Vec<Triplet> = Vec::new();
    let mut i: usize = 0;
    proof {
        assert((1usize << 0usize) == 1) by (bit_vector);
    }
    while i < n_ops
        invariant
            i <= n_ops,
            n_ops <= MAX_BITS,
            forall|a: int|
                0 <= a < triplets.len() ==> (#[trigger] triplets[a]).row < bit(i)
                    && triplets[a].col < bit(i) && -1 <= triplets[a].value <= 1,
            forall|k: int, c: int|
                0 <= k < bit(i) && 0 <= c < bit(i) ==> #[trigger] entry_of(triplets@, k, c)
                    == coefficient(i as int, k, c),
        decreases n_ops - i,
    {
        let sz = single(i);
        proof {
            lemma_bit_doubles(i);
        }
        let ghost former = triplets@;
        let mut grown: Vec<Triplet> = Vec::new();
        // Top left: the matrix itself. Bottom left: its negative.
        // Bottom right: the matrix again.
        let mut a: usize = 0;
        while a < triplets.len()
            invariant
                a <= triplets.len(),
                former == triplets@,
                i < n_ops,
                n_ops <= MAX_BITS,
                sz == bit(i),
                sz >= 1,
                2 * sz == bit((i + 1) as usize),
                forall|x: int|
                    0 <= x < former.len() ==> (#[trigger] former[x]).row < sz && former[x].col < sz && -1
                        <= former[x].value <= 1,
                forall|x: int|
                    0 <= x < grown.len() ==> (#[trigger] grown[x]).row < 2 * sz && grown[x].col
                        < 2 * sz && -1 <= grown[x].value <= 1,
                forall|k: int, c: int|
                    0 <= k < sz && 0 <= c < sz ==> {
                        &&& #[trigger] entry_of(grown@, k, c) == entry_of(
                            former.take(a as int),
                            k,
                            c,
                        )
                        &&& entry_of(grown@, k, c + sz) == 0
                        &&& entry_of(grown@, k + sz, c) == -entry_of(former.take(a as int), k, c)
                        &&& entry_of(grown@, k + sz, c + sz) == entry_of(
                            former.take(a as int),
                            k,
                            c,
                        )
                    },
            decreases triplets.len() - a,
        {
            let t = triplets[a];
            let ghost seen = former.take(a as int);
            let ghost next = former.take(a + 1);
            assert(next =~= seen.push(t));
            assert(former[a as int] == t);
            let same = Triplet { row: t.row, col: t.col, value: t.value };
            let below = Triplet { row: t.row + sz, col: t.col, value: -t.value };
            let across = Triplet { row: t.row + sz, col: t.col + sz, value: t.value };
            let ghost g0 = grown@;
            grown.push(same);
            let ghost g1 = grown@;
            grown.push(below);
            let ghost g2 = grown@;
            grown.push(across);
            proof {
                assert forall|k: int, c: int| 0 <= k < sz && 0 <= c < sz implies {
                    &&& #[trigger] entry_of(grown@, k, c) == entry_of(next, k, c)
                    &&& entry_of(grown@, k, c + sz) == 0
                    &&& entry_of(grown@, k + sz, c) == -entry_of(next, k, c)
                    &&& entry_of(grown@, k + sz, c + sz) == entry_of(next, k, c)
                } by {
                    assert(entry_of(g0, k, c) == entry_of(seen, k, c));
                    lemma_entry_push(seen, t, k, c);
                    lemma_entry_push(g0, same, k, c);
                    lemma_entry_push(g1, below, k, c);
                    lemma_entry_push(g2, across, k, c);
                    lemma_entry_push(g0, same, k, c + sz);
                    lemma_entry_push(g1, below, k, c + sz);
                    lemma_entry_push(g2, across, k, c + sz);
                    lemma_entry_push(g0, same, k + sz, c);
                    lemma_entry_push(g1, below, k + sz, c);
                    lemma_entry_push(g2, across, k + sz, c);
                    lemma_entry_push(g0, same, k + sz, c + sz);
                    lemma_entry_push(g1, below, k + sz, c + sz);
                    lemma_entry_push(g2, across, k + sz, c + sz);
                }
            }
            a += 1;
        }
        proof {
            assert(former.take(former.len() as int) =~= former);
            assert forall|k: int, c: int| 0 <= k < sz && 0 <= c < sz implies {
                &&& #[trigger] entry_of(grown@, k, c) == entry_of(former, k, c)
                &&& entry_of(grown@, k, c + sz) == 0
                &&& entry_of(grown@, k + sz, c) == -entry_of(former, k, c) - on_diagonal(k, c, 0)
                &&& entry_of(grown@, k + sz, c + sz) == entry_of(former, k, c)
            } by {
                assert(entry_of(grown@, k, c) == entry_of(former.take(former.len() as int), k, c));
            }
        }
        // Bottom left: minus the identity.
        let mut j: usize = 0;
        while j < sz
            invariant
                j <= sz,
                i < n_ops,
                n_ops <= MAX_BITS,
                sz == bit(i),
                sz >= 1,
                2 * sz == bit((i + 1) as usize),
                forall|x: int|
                    0 <= x < grown.len() ==> (#[trigger] grown[x]).row < 2 * sz && grown[x].col
                        < 2 * sz && -1 <= grown[x].value <= 1,
                is_grown(grown@, former, sz as int, j as int),
            decreases sz - j,
        {
            let unit = Triplet { row: j + sz, col: j, value: -1 };
            let ghost g0 = grown@;
            grown.push(unit);
            proof {
                assert forall|k: int, c: int| 0 <= k < sz && 0 <= c < sz implies {
                    &&& #[trigger] entry_of(grown@, k, c) == entry_of(former, k, c)
                    &&& entry_of(grown@, k, c + sz) == 0
                    &&& entry_of(grown@, k + sz, c) == -entry_of(former, k, c) - on_diagonal(
                        k,
                        c,
                        j + 1,
                    )
                    &&& entry_of(grown@, k + sz, c + sz) == entry_of(former, k, c)
                } by {
                    assert(is_grown(g0, former, sz as int, j as int));
                    assert(entry_of(g0, k, c) == entry_of(former, k, c));
                    lemma_entry_push(g0, unit, k, c);
                    lemma_entry_push(g0, unit, k, c + sz);
                    lemma_entry_push(g0, unit, k + sz, c);
                    lemma_entry_push(g0, unit, k + sz, c + sz);
                }
                assert(is_grown(grown@, former, sz as int, j + 1));
            }
            j += 1;
        }
        assert(is_grown(grown@, former, sz as int, sz as int));
        proof {
            assert forall|k: int, c: int|
                0 <= k < 2 * sz && 0 <= c < 2 * sz implies #[trigger] entry_of(grown@, k, c)
                == coefficient(i + 1, k, c) by {
                let k0 = if k < sz {
                    k
                } else {
                    k - sz
                };
                let c0 = if c < sz {
                    c
                } else {
                    c - sz
                };
                assert(entry_of(grown@, k0, c0) == entry_of(former, k0, c0));
                assert(entry_of(former, k0, c0) == coefficient(i as int, k0, c0));
            }
        }
        triplets = grown;
        i += 1;
    }
    let size = single(n_ops);
    Ok(SparseMatrix { nrows: size, ncols: size, triplets })
}

} // verus!
