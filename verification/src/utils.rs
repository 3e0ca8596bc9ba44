//! Small helpers on labels and coalition indices: digits in labels, the
//! bits of a coalition index, coalition sizes and factorials.

use vstd::prelude::*;

verus! {

/// Whether `c` is one of the ten decimal digits.
pub open spec fn is_digit(c: char) -> bool {
    '0' <= c && c <= '9'
}

/// Whether some character of `s` is a decimal digit.
pub open spec fn contains_digit(s: Seq<char>) -> bool {
    exists|i: int| 0 <= i < s.len() && is_digit(#[trigger] s[i])
}

/// Tells a switch label (which holds a digit) from a city label (which holds none).
pub fn has_digit(s: &str) -> (found: bool)
    ensures
        found == contains_digit(s@),
{
    let n: usize = s.unicode_len();
    let mut i: usize = 0;
    while i < n
        invariant
            n == s@.len(),
            i <= n,
            forall|j: int| 0 <= j < i ==> !is_digit(#[trigger] s@[j]),
        decreases n - i,
    {
        let c = s.get_char(i);
        if '0' <= c && c <= '9' {
            return true;
        }
        i += 1;
    }
    false
}

/// The most bits a coalition index may have for its arithmetic to stay
/// within every `usize`.
pub const MAX_BITS: usize = 31;

/// The index of the coalition that holds operator `k` alone: `2^k`.
pub open spec fn bit(k: usize) -> usize {
    1usize << k
}

/// Whether coalition `c` holds operator `k`: bit `k` of `c`.
pub open spec fn has_bit(c: usize, k: usize) -> bool {
    (c >> k) & 1 == 1
}

/// How many of the first `n` operators coalition `c` holds.
pub open spec fn coalition_size(c: usize, n: int) -> int
    decreases n,
{
    if n <= 0 {
        0
    } else {
        coalition_size(c, n - 1) + if has_bit(c, (n - 1) as usize) {
            1int
        } else {
            0int
        }
    }
}

/// `n!`.
pub open spec fn factorial_of(n: int) -> int
    decreases n,
{
    if n <= 0 {
        1
    } else {
        n * factorial_of(n - 1)
    }
}

/// A coalition of operators below `n` is smaller than `2^n`, and no
/// coalition holds more operators than there are.
pub proof fn lemma_coalition_size_bound(c: usize, n: int)
    requires
        0 <= n,
    ensures
        0 <= coalition_size(c, n) <= n,
    decreases n,
{
    if n > 0 {
        lemma_coalition_size_bound(c, n - 1);
    }
}

/// Factorials are positive and grow.
pub proof fn lemma_factorial_positive(n: int)
    ensures
        factorial_of(n) >= 1,
        n >= 1 ==> factorial_of(n) >= factorial_of(n - 1),
    decreases n,
{
    if n > 0 {
        lemma_factorial_positive(n - 1);
        assert(n * factorial_of(n - 1) >= factorial_of(n - 1)) by (nonlinear_arith)
            requires
                n >= 1,
                factorial_of(n - 1) >= 1,
        ;
    }
}

/// `2^k`, the index of the coalition that holds operator `k` alone.
pub fn single(k: usize) -> (index: usize)
    requires
        k <= MAX_BITS,
    ensures
        index == bit(k),
        index > 0,
{
    assert(1usize << k > 0) by (bit_vector)
        requires
            k <= 31,
    ;
    1usize << k
}

/// Whether coalition `c` holds operator `k`.
pub fn holds(c: usize, k: usize) -> (held: bool)
    requires
        k <= MAX_BITS,
    ensures
        held == has_bit(c, k),
{
    (c >> k) & 1 == 1
}

/// The bitmap of all coalitions of `n_bits` operators: entry `[i][c]` is 1
/// where coalition `c` holds operator `i`, else 0.
pub fn generate_bitmap(n_bits: usize) -> (bitmap: Vec<Vec<u8>>)
    requires
        n_bits <= MAX_BITS,
    ensures
        bitmap.len() == n_bits,
        forall|i: int| 0 <= i < n_bits ==> (#[trigger] bitmap[i]).len() == bit(n_bits),
        forall|i: int, c: int|
            0 <= i < n_bits && 0 <= c < bit(n_bits) ==> #[trigger] bitmap[i][c] == if has_bit(
                c as usize,
                i as usize,
            ) {
                1u8
            } else {
                0u8
            },
{
    let n_cols = single(n_bits);
    let mut bitmap: Vec<Vec<u8>> = Vec::new();
    let mut row: usize = 0;
    while row < n_bits
        invariant
            row <= n_bits,
            n_bits <= MAX_BITS,
            n_cols == bit(n_bits),
            bitmap.len() == row,
            forall|i: int| 0 <= i < row ==> (#[trigger] bitmap[i]).len() == n_cols,
            forall|i: int, c: int|
                0 <= i < row && 0 <= c < n_cols ==> #[trigger] bitmap[i][c] == if has_bit(
                    c as usize,
                    i as usize,
                ) {
                    1u8
                } else {
                    0u8
                },
        decreases n_bits - row,
    {
        let mut row_bitmap: Vec<u8> = Vec::new();
        let mut col: usize = 0;
        while col < n_cols
            invariant
                col <= n_cols,
                row < n_bits,
                n_bits <= MAX_BITS,
                row_bitmap.len() == col,
                forall|c: int|
                    0 <= c < col ==> #[trigger] row_bitmap[c] == if has_bit(c as usize, row) {
                        1u8
                    } else {
                        0u8
                    },
            decreases n_cols - col,
        {
            row_bitmap.push(
                if holds(col, row) {
                    1
                } else {
                    0
                },
            );
            col += 1;
        }
        bitmap.push(row_bitmap);
        row += 1;
    }
    bitmap
}

/// The largest `n` whose factorial fits in a `u64`.
pub const FACTORIAL_LIMIT: usize = 20;

/// `n!`, for `n` up to [`FACTORIAL_LIMIT`].
pub fn factorial(n: usize) -> (product: u64)
    requires
        n <= FACTORIAL_LIMIT,
    ensures
        product == factorial_of(n as int),
        product >= 1,
{
    let mut product: u64 = 1;
    let mut i: usize = 0;
    while i < n
        invariant
            i <= n,
            n <= FACTORIAL_LIMIT,
            product == factorial_of(i as int),
            product >= 1,
        decreases n - i,
    {
        proof {
            lemma_factorial_upto_limit();
            lemma_factorial_monotonic(i + 1, FACTORIAL_LIMIT as int);
            lemma_factorial_positive(i + 1);
            assert(factorial_of(i + 1) == (i + 1) * factorial_of(i as int));
            assert(product * (i + 1) == (i + 1) * product) by (nonlinear_arith);
        }
        i += 1;
        product = product * (i as u64);
    }
    product
}

/// `20!` is 2432902008176640000, which fits in a `u64`.
pub proof fn lemma_factorial_upto_limit()
    ensures
        factorial_of(20) == 2432902008176640000,
{
    reveal_with_fuel(factorial_of, 21);
}

/// A larger number has a larger factorial.
pub proof fn lemma_factorial_monotonic(a: int, b: int)
    requires
        0 <= a <= b,
    ensures
        factorial_of(a) <= factorial_of(b),
    decreases b - a,
{
    if a < b {
        lemma_factorial_monotonic(a, b - 1);
        lemma_factorial_positive(b);
    }
}

/// A coalition that holds operator `b` has an index of at least `2^b`, and
/// the coalition without the operator is a smaller one.
pub proof fn lemma_member_index(i: usize, b: usize)
    requires
        b <= MAX_BITS,
        has_bit(i, b),
    ensures
        bit(b) <= i,
        !has_bit((i - bit(b)) as usize, b),
{
    assert((1usize << b) <= i && (((i - (1usize << b)) as usize >> b) & 1 != 1)) by (bit_vector)
        requires
            b <= 31,
            (i >> b) & 1 == 1,
    ;
}

/// Taking operator `k` out of a coalition leaves the other operators as
/// they are, and it does not matter in which order two operators are taken
/// out.
pub proof fn lemma_without(i: usize, k: usize, b: usize)
    requires
        k <= MAX_BITS,
        b <= MAX_BITS,
        k != b,
        has_bit(i, k),
    ensures
        bit(k) <= i,
        has_bit((i - bit(k)) as usize, b) == has_bit(i, b),
        has_bit(i, b) ==> bit(b) <= i && bit(k) + bit(b) <= i && has_bit(
            (i - bit(b)) as usize,
            k,
        ),
{
    assert((1usize << k) <= i && ((((i - (1usize << k)) as usize >> b) & 1 == 1) <==> ((i >> b) & 1
        == 1))) by (bit_vector)
        requires
            k <= 31,
            b <= 31,
            k != b,
            (i >> k) & 1 == 1,
    ;
    if has_bit(i, b) {
        assert((1usize << b) <= i && (1usize << k) + (1usize << b) <= i && (((i - (1usize << b)) as usize
            >> k) & 1 == 1)) by (bit_vector)
            requires
                k <= 31,
                b <= 31,
                k != b,
                (i >> k) & 1 == 1,
                (i >> b) & 1 == 1,
        ;
    }
}

/// Where operator `k` stands in the indices below `2^n`: not below `2^k`,
/// always from `2^k` to `2^(k + 1)`, and above that as in the index less
/// the highest power of two.
pub proof fn lemma_bit_layout(c: usize, k: usize, n: usize)
    requires
        k < n <= MAX_BITS,
        c < bit((n - 1) as usize),
    ensures
        bit(n) == 2 * bit((n - 1) as usize),
        bit((n - 1) as usize) >= 1,
        c + bit((n - 1) as usize) < bit(n),
        k == n - 1 ==> !has_bit(c, k) && has_bit((c + bit(k)) as usize, k),
        k < n - 1 ==> has_bit((c + bit((n - 1) as usize)) as usize, k) == has_bit(c, k),
        k < n - 1 && has_bit(c, k) ==> bit(k) <= c,
{
    let top = (n - 1) as usize;
    assert((1usize << n) == 2 * (1usize << top) && (1usize << top) >= 1 && c + (1usize << top) < (
    1usize << n)) by (bit_vector)
        requires
            n <= 31,
            top == n - 1,
            n >= 1,
            c < (1usize << top),
    ;
    if k == top {
        assert((c >> k) & 1 != 1 && (((c + (1usize << k)) as usize) >> k) & 1 == 1) by (bit_vector)
            requires
                k <= 31,
                c < (1usize << k),
        ;
    } else {
        assert(((((c + (1usize << top)) as usize) >> k) & 1 == 1) == ((c >> k) & 1 == 1))
            by (bit_vector)
            requires
                top <= 30,
                k < top,
                c < (1usize << top),
        ;
        if has_bit(c, k) {
            lemma_member_index(c, k);
        }
    }
}

/// Twice `2^i` is `2^(i + 1)`.
pub proof fn lemma_bit_doubles(i: usize)
    requires
        i < MAX_BITS,
    ensures
        bit((i + 1) as usize) == 2 * bit(i),
        bit(i) >= 1,
{
    assert((1usize << ((i + 1) as usize)) == 2 * (1usize << i) && (1usize << i) >= 1)
        by (bit_vector)
        requires
            i < 31,
    ;
}

/// A coalition that holds operator `k` holds one operator more than the
/// coalition without it.
pub proof fn lemma_size_without(c: usize, k: usize, n: int)
    requires
        0 <= n <= MAX_BITS,
        k <= MAX_BITS,
        has_bit(c, k),
    ensures
        coalition_size(c, n) == coalition_size((c - bit(k)) as usize, n) + if k < n {
            1int
        } else {
            0int
        },
    decreases n,
{
    if n > 0 {
        lemma_size_without(c, k, n - 1);
        let top = (n - 1) as usize;
        if top == k {
            lemma_member_index(c, k);
        } else {
            lemma_without(c, k, top);
        }
    }
}

/// A coalition of operators below `t` holds as many of the first `m <= t`
/// operators with operator `t` as without.
pub proof fn lemma_size_above(k: usize, t: usize, m: int)
    requires
        t < MAX_BITS,
        0 <= m <= t,
        k < bit(t),
    ensures
        coalition_size((k + bit(t)) as usize, m) == coalition_size(k, m),
    decreases m,
{
    if m > 0 {
        lemma_size_above(k, t, m - 1);
        lemma_bit_layout(k, (m - 1) as usize, (t + 1) as usize);
    }
}

/// The empty coalition holds nobody and the grand coalition everybody.
pub proof fn lemma_empty_and_grand(n_ops: usize)
    requires
        n_ops <= MAX_BITS,
    ensures
        coalition_size(0, n_ops as int) == 0,
        coalition_size((bit(n_ops) - 1) as usize, n_ops as int) == n_ops,
        bit(n_ops) >= 1,
{
    lemma_empty_size(n_ops as int);
    lemma_grand_size(n_ops, n_ops as int);
    assert((1usize << n_ops) >= 1) by (bit_vector)
        requires
            n_ops <= 31,
    ;
}

proof fn lemma_empty_size(n: int)
    requires
        0 <= n <= MAX_BITS,
    ensures
        coalition_size(0, n) == 0,
    decreases n,
{
    if n > 0 {
        lemma_empty_size(n - 1);
        let k = (n - 1) as usize;
        assert((0usize >> k) & 1 != 1) by (bit_vector);
    }
}

proof fn lemma_grand_size(n_ops: usize, n: int)
    requires
        n_ops <= MAX_BITS,
        0 <= n <= n_ops,
    ensures
        coalition_size((bit(n_ops) - 1) as usize, n) == n,
    decreases n,
{
    if n > 0 {
        lemma_grand_size(n_ops, n - 1);
        let k = (n - 1) as usize;
        assert(((((1usize << n_ops) - 1) as usize) >> k) & 1 == 1) by (bit_vector)
            requires
                n_ops <= 31,
                k < n_ops,
        ;
    }
}

/// Below `2^n` only the index zero is a coalition without operators and
/// only the index `2^n - 1` a coalition of all `n`.
pub proof fn lemma_extreme_sizes(x: usize, n: int)
    requires
        0 <= n <= MAX_BITS,
        x < bit(n as usize),
    ensures
        coalition_size(x, n) == 0 <==> x == 0,
        coalition_size(x, n) == n <==> x == bit(n as usize) - 1,
    decreases n,
{
    lemma_coalition_size_bound(x, n);
    if n > 0 {
        let top = (n - 1) as usize;
        let all = n as usize;
        lemma_coalition_size_bound(x, n - 1);
        assert((1usize << all) == 2 * (1usize << top) && (1usize << top) >= 1 && ((x >> top) & 1
            == 1 <==> x >= (1usize << top))) by (bit_vector)
            requires
                all <= 31,
                all >= 1,
                top == all - 1,
                x < (1usize << all),
        ;
        if has_bit(x, top) {
            let rest = (x - bit(top)) as usize;
            lemma_size_without(x, top, n - 1);
            lemma_extreme_sizes(rest, n - 1);
        } else {
            lemma_extreme_sizes(x, n - 1);
        }
    } else {
        assert((1usize << 0usize) == 1) by (bit_vector);
    }
}

} // verus!
