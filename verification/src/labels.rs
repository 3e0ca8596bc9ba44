//! Text labels: equality, the city of a switch, the lexicographic order, and
//! duplicate-free lists kept in that order.
//!
//! A label is modelled by its sequence of characters. The order is the one
//! `String` has in Rust: character by character, by code point, a proper
//! prefix before the longer text.

use vstd::prelude::*;

verus! {

/// The reserved operator symbol that marks a link nobody owns.
pub open spec fn public_operator() -> Seq<char> {
    seq!['0']
}

/// The characters of each text of `v`, in order.
pub open spec fn texts(v: Seq<String>) -> Seq<Seq<char>> {
    Seq::new(v.len(), |i: int| v[i]@)
}

/// `a` and `b` agree on their first `k` characters.
pub open spec fn agree_upto(a: Seq<char>, b: Seq<char>, k: int) -> bool {
    forall|j: int| 0 <= j < k ==> a[j] == b[j]
}

/// `k` is a place that puts `a` strictly before `b`: up to `k` the two agree,
/// and there `a` ends while `b` goes on, or `a` holds the smaller character.
pub open spec fn precedes_at(a: Seq<char>, b: Seq<char>, k: int) -> bool {
    &&& 0 <= k <= a.len()
    &&& k < b.len()
    &&& agree_upto(a, b, k)
    &&& (k == a.len() || a[k] < b[k])
}

/// `a` comes strictly before `b` in lexicographic order.
pub open spec fn label_lt(a: Seq<char>, b: Seq<char>) -> bool {
    exists|k: int| precedes_at(a, b, k)
}

/// Every text of `s` comes strictly before each later one.
pub open spec fn strictly_sorted(s: Seq<Seq<char>>) -> bool {
    forall|i: int, j: int| 0 <= i < j < s.len() ==> label_lt(#[trigger] s[i], #[trigger] s[j])
}

/// No text occurs twice in `s`.
pub open spec fn distinct(s: Seq<Seq<char>>) -> bool {
    forall|i: int, j: int| 0 <= i < j < s.len() ==> #[trigger] s[i] != #[trigger] s[j]
}

/// The city of a switch: its first three characters. A label shorter than
/// that names no city.
pub open spec fn city_of(label: Seq<char>) -> Option<Seq<char>> {
    if label.len() >= 3 {
        Some(label.take(3))
    } else {
        None
    }
}

/// No text comes before itself.
pub proof fn lemma_lt_irreflexive(a: Seq<char>)
    ensures
        !label_lt(a, a),
{
}

/// The order is transitive.
pub proof fn lemma_lt_transitive(a: Seq<char>, b: Seq<char>, c: Seq<char>)
    requires
        label_lt(a, b),
        label_lt(b, c),
    ensures
        label_lt(a, c),
{
    let k1 = choose|k: int| precedes_at(a, b, k);
    let k2 = choose|k: int| precedes_at(b, c, k);
    let k = if k1 <= k2 { k1 } else { k2 };
    assert(precedes_at(a, c, k));
}

/// Of two different texts one comes before the other.
pub proof fn lemma_lt_total(a: Seq<char>, b: Seq<char>)
    ensures
        label_lt(a, b) || label_lt(b, a) || a == b,
{
    lemma_lt_total_from(a, b, 0);
}

proof fn lemma_lt_total_from(a: Seq<char>, b: Seq<char>, k: int)
    requires
        0 <= k <= a.len(),
        k <= b.len(),
        agree_upto(a, b, k),
    ensures
        label_lt(a, b) || label_lt(b, a) || a == b,
    decreases a.len() - k,
{
    if k == a.len() {
        if k == b.len() {
            assert(a =~= b);
        } else {
            assert(precedes_at(a, b, k));
        }
    } else if k == b.len() {
        assert(precedes_at(b, a, k));
    } else if a[k] < b[k] {
        assert(precedes_at(a, b, k));
    } else if b[k] < a[k] {
        assert(precedes_at(b, a, k));
    } else {
        lemma_lt_total_from(a, b, k + 1);
    }
}

/// A text that comes before another differs from it, and the other does not
/// come before the first.
pub proof fn lemma_lt_asymmetric(a: Seq<char>, b: Seq<char>)
    requires
        label_lt(a, b),
    ensures
        a != b,
        !label_lt(b, a),
{
    if label_lt(b, a) {
        lemma_lt_transitive(a, b, a);
    }
}

/// A strictly sorted list holds no text twice.
pub proof fn lemma_sorted_is_distinct(s: Seq<Seq<char>>)
    requires
        strictly_sorted(s),
    ensures
        distinct(s),
{
    assert forall|i: int, j: int| 0 <= i < j < s.len() implies #[trigger] s[i] != #[trigger] s[j] by {
        lemma_lt_asymmetric(s[i], s[j]);
    }
}

/// Two strictly sorted lists that hold the same texts are the same list: the
/// sorted list of a set of labels is unique.
pub proof fn lemma_sorted_unique(s: Seq<Seq<char>>, t: Seq<Seq<char>>)
    requires
        strictly_sorted(s),
        strictly_sorted(t),
        forall|x: Seq<char>| s.contains(x) <==> t.contains(x),
    ensures
        s == t,
    decreases s.len(),
{
    if s.len() == 0 {
        if t.len() > 0 {
            assert(t.contains(t[0]));
            assert(s.contains(t[0]));
        }
        assert(s =~= t);
    } else if t.len() == 0 {
        assert(s.contains(s[0]));
        assert(t.contains(s[0]));
    } else {
        // The two least texts coincide.
        assert(s.contains(s[0]));
        assert(t.contains(t[0]));
        let i = choose|i: int| 0 <= i < t.len() && t[i] == s[0];
        let j = choose|j: int| 0 <= j < s.len() && s[j] == t[0];
        if i > 0 && j > 0 {
            lemma_lt_transitive(t[0], t[i], s[j]);
            lemma_lt_irreflexive(t[0]);
        }
        if i > 0 && j == 0 {
            lemma_lt_asymmetric(t[0], t[i]);
        }
        if i == 0 && j > 0 {
            lemma_lt_asymmetric(s[0], s[j]);
        }
        assert(s[0] == t[0]);
        let s1 = s.skip(1);
        let t1 = t.skip(1);
        assert forall|x: Seq<char>| s1.contains(x) <==> t1.contains(x) by {
            if s1.contains(x) {
                let a = choose|a: int| 0 <= a < s1.len() && s1[a] == x;
                assert(s[a + 1] == x);
                assert(s.contains(x));
                lemma_lt_asymmetric(s[0], s[a + 1]);
                let b = choose|b: int| 0 <= b < t.len() && t[b] == x;
                assert(b > 0);
                assert(t1[b - 1] == x);
            }
            if t1.contains(x) {
                let a = choose|a: int| 0 <= a < t1.len() && t1[a] == x;
                assert(t[a + 1] == x);
                assert(t.contains(x));
                lemma_lt_asymmetric(t[0], t[a + 1]);
                let b = choose|b: int| 0 <= b < s.len() && s[b] == x;
                assert(b > 0);
                assert(s1[b - 1] == x);
            }
        }
        assert(strictly_sorted(s1)) by {
            assert forall|a: int, b: int| 0 <= a < b < s1.len() implies label_lt(
                #[trigger] s1[a],
                #[trigger] s1[b],
            ) by {
                assert(label_lt(s[a + 1], s[b + 1]));
            }
        }
        assert(strictly_sorted(t1)) by {
            assert forall|a: int, b: int| 0 <= a < b < t1.len() implies label_lt(
                #[trigger] t1[a],
                #[trigger] t1[b],
            ) by {
                assert(label_lt(t[a + 1], t[b + 1]));
            }
        }
        lemma_sorted_unique(s1, t1);
        assert(s =~= seq![s[0]] + s1);
        assert(t =~= seq![t[0]] + t1);
    }
}

/// Whether two texts hold the same characters.
pub fn same_text(a: &str, b: &str) -> (same: bool)
    ensures
        same == (a@ == b@),
{
    let n: usize = a.unicode_len();
    if b.unicode_len() != n {
        return false;
    }
    let mut i: usize = 0;
    while i < n
        invariant
            n == a@.len(),
            n == b@.len(),
            i <= n,
            agree_upto(a@, b@, i as int),
        decreases n - i,
    {
        if a.get_char(i) != b.get_char(i) {
            return false;
        }
        i += 1;
    }
    assert(a@ =~= b@);
    true
}

/// Whether `operator` is the reserved symbol `"0"`.
pub fn is_public_operator(operator: &str) -> (public: bool)
    ensures
        public == (operator@ == public_operator()),
{
    if operator.unicode_len() != 1 {
        return false;
    }
    let c = operator.get_char(0);
    if c == '0' {
        assert(operator@ =~= public_operator());
        true
    } else {
        false
    }
}

/// Whether `switch` lies in `city`: whether its first three characters are
/// the city's label.
pub fn in_city(switch: &str, city: &str) -> (inside: bool)
    ensures
        inside == (city_of(switch@) == Some(city@)),
{
    if switch.unicode_len() < 3 {
        return false;
    }
    let prefix = switch.substring_char(0, 3);
    assert(prefix@ =~= switch@.take(3));
    same_text(prefix, city)
}

/// The city of `switch`, where it has one.
pub fn city_label(switch: &str) -> (city: Option<String>)
    ensures
        match city {
            Some(c) => city_of(switch@) == Some(c@),
            None => city_of(switch@) is None,
        },
{
    if switch.unicode_len() < 3 {
        return None;
    }
    let prefix = switch.substring_char(0, 3);
    assert(prefix@ =~= switch@.take(3));
    Some(prefix.to_owned())
}

/// Whether `a` comes strictly before `b` in lexicographic order.
pub fn comes_before(a: &str, b: &str) -> (before: bool)
    ensures
        before == label_lt(a@, b@),
{
    let n: usize = a.unicode_len();
    let m: usize = b.unicode_len();
    let mut i: usize = 0;
    while i < n && i < m
        invariant
            n == a@.len(),
            m == b@.len(),
            i <= n,
            i <= m,
            agree_upto(a@, b@, i as int),
        decreases n - i,
    {
        let x = a.get_char(i);
        let y = b.get_char(i);
        if x < y {
            assert(precedes_at(a@, b@, i as int));
            return true;
        }
        if y < x {
            assert(precedes_at(b@, a@, i as int));
            proof {
                lemma_lt_asymmetric(b@, a@);
            }
            return false;
        }
        i += 1;
    }
    if i < m {
        assert(precedes_at(a@, b@, i as int));
        true
    } else {
        proof {
            if i < n {
                assert(precedes_at(b@, a@, i as int));
                lemma_lt_asymmetric(b@, a@);
            } else {
                assert(a@ =~= b@);
                lemma_lt_irreflexive(a@);
            }
        }
        false
    }
}

/// Whether `list` holds `label`.
pub fn holds_label(list: &Vec<String>, label: &str) -> (found: bool)
    ensures
        found == texts(list@).contains(label@),
{
    let mut i: usize = 0;
    while i < list.len()
        invariant
            i <= list.len(),
            forall|j: int| 0 <= j < i ==> texts(list@)[j] != label@,
        decreases list.len() - i,
    {
        if same_text(list[i].as_str(), label) {
            assert(texts(list@)[i as int] == label@);
            return true;
        }
        i += 1;
    }
    false
}

/// Adds `label` to the end of `list` unless the list holds it already, so
/// that a list without repetitions stays one and keeps the order in which
/// its labels first came.
pub fn push_new(list: &mut Vec<String>, label: &str)
    requires
        distinct(texts(old(list)@)),
    ensures
        distinct(texts(final(list)@)),
        texts(old(list)@).contains(label@) ==> texts(final(list)@) == texts(old(list)@),
        !texts(old(list)@).contains(label@) ==> texts(final(list)@) == texts(old(list)@).push(
            label@,
        ),
{
    if !holds_label(list, label) {
        let ghost before = texts(list@);
        list.push(label.to_owned());
        assert(texts(list@) =~= before.push(label@));
    }
}

/// Puts `label` at its place in the strictly sorted `list`, unless the list
/// holds it already.
pub fn insert_sorted(list: &mut Vec<String>, label: &str)
    requires
        strictly_sorted(texts(old(list)@)),
    ensures
        strictly_sorted(texts(final(list)@)),
        forall|x: Seq<char>|
            texts(final(list)@).contains(x) <==> (texts(old(list)@).contains(x) || x == label@),
{
    let ghost before = texts(list@);
    let mut at: usize = 0;
    while at < list.len() && comes_before(list[at].as_str(), label)
        invariant
            list@ == old(list)@,
            at <= list.len(),
            forall|j: int| 0 <= j < at ==> label_lt(texts(list@)[j], label@),
        decreases list.len() - at,
    {
        at += 1;
    }
    if at < list.len() && same_text(list[at].as_str(), label) {
        assert(before[at as int] == label@);
        return ;
    }
    proof {
        // Whatever stands from `at` on comes after the new label.
        if at < list.len() {
            lemma_lt_total(before[at as int], label@);
        }
        assert forall|j: int| at <= j < before.len() implies label_lt(label@, before[j]) by {
            if j > at {
                lemma_lt_transitive(label@, before[at as int], before[j]);
            }
        }
        assert forall|j: int| 0 <= j < before.len() implies before[j] != label@ by {
            if j < at {
                lemma_lt_asymmetric(before[j], label@);
            } else {
                lemma_lt_asymmetric(label@, before[j]);
            }
        }
    }
    list.insert(at, label.to_owned());
    proof {
        let after = texts(list@);
        assert(after =~= before.insert(at as int, label@));
        assert forall|i: int, j: int| 0 <= i < j < after.len() implies label_lt(
            #[trigger] after[i],
            #[trigger] after[j],
        ) by {
            let oi = if i < at { i } else { i - 1 };
            let oj = if j < at { j } else { j - 1 };
            if i != at && j != at {
                assert(label_lt(before[oi], before[oj]));
            }
        }
        assert forall|x: Seq<char>| after.contains(x) <==> (before.contains(x) || x == label@) by {
            if after.contains(x) {
                let i = choose|i: int| 0 <= i < after.len() && after[i] == x;
                if i < at {
                    assert(before[i] == x);
                } else if i > at {
                    assert(before[i - 1] == x);
                }
            }
            if before.contains(x) {
                let i = choose|i: int| 0 <= i < before.len() && before[i] == x;
                if i < at {
                    assert(after[i] == x);
                } else {
                    assert(after[i + 1] == x);
                }
            }
            if x == label@ {
                assert(after[at as int] == x);
            }
        }
    }
}

/// Where `label` stands in `list`, if it does.
pub fn position_of(list: &Vec<String>, label: &str) -> (at: Option<usize>)
    ensures
        match at {
            Some(i) => i < list.len() && texts(list@)[i as int] == label@ && forall|j: int|
                0 <= j < i ==> texts(list@)[j] != label@,
            None => !texts(list@).contains(label@),
        },
{
    let mut i: usize = 0;
    while i < list.len()
        invariant
            i <= list.len(),
            forall|j: int| 0 <= j < i ==> texts(list@)[j] != label@,
        decreases list.len() - i,
    {
        if same_text(list[i].as_str(), label) {
            assert(texts(list@)[i as int] == label@);
            return Some(i);
        }
        i += 1;
    }
    None
}

} // verus!
