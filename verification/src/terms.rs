//! The mathematical model of a regressor's terms: how a product merges them,
//! the powers it carries per variable and lag, and when a term list is canonical.

use vstd::prelude::*;
use crate::symbol::SymbolView;
use crate::order::{
    key_lt, lemma_name_lt_asymmetric, lemma_name_lt_irreflexive,
    lemma_symbol_le_total_ordering, same_key, symbol_le, symbol_leq,
};
use crate::sorting::{lemma_sorted_view_unique, sorted_view};
use vstd::relations::sorted_by;

verus! {

/// Position of the first term of `s` with the same variable and lag as `t`, or -1.
pub open spec fn key_pos(s: Seq<SymbolView>, t: SymbolView) -> int
    decreases s.len(),
{
    if s.len() == 0 {
        -1
    } else if same_key(s[0], t) {
        0
    } else {
        let p = key_pos(s.drop_first(), t);
        if p < 0 {
            -1
        } else {
            p + 1
        }
    }
}

/// Multiplies the factor `t` into `acc`: its power is added to the first term with the
/// same variable and lag, or it is appended when there is none.
pub open spec fn merge_in(acc: Seq<SymbolView>, t: SymbolView) -> Seq<SymbolView> {
    let p = key_pos(acc, t);
    if p < 0 {
        acc.push(t)
    } else {
        acc.update(p, (acc[p].0, acc[p].1, acc[p].2 + t.2))
    }
}

/// Multiplies the factors of `b`, in order, into `acc`.
pub open spec fn merge_all(acc: Seq<SymbolView>, b: Seq<SymbolView>) -> Seq<SymbolView>
    decreases b.len(),
{
    if b.len() == 0 {
        acc
    } else {
        merge_in(merge_all(acc, b.drop_last()), b.last())
    }
}

/// The terms of the product of two regressors with terms `a` and `b`.
pub open spec fn product_view(a: Seq<SymbolView>, b: Seq<SymbolView>) -> Seq<SymbolView> {
    sorted_view(merge_all(a, b))
}

/// Every power in `s` fits in a `usize`.
pub open spec fn powers_fit(s: Seq<SymbolView>) -> bool {
    forall|i: int| 0 <= i < s.len() ==> #[trigger] s[i].2 <= usize::MAX
}

/// The product of `a` and `b` can be computed without a power overflowing.
pub open spec fn product_fits(a: Seq<SymbolView>, b: Seq<SymbolView>) -> bool {
    powers_fit(merge_all(a, b))
}

/// `t` holds at least the terms of `s`, at the same positions, with powers no smaller.
pub open spec fn dominates(t: Seq<SymbolView>, s: Seq<SymbolView>) -> bool {
    &&& s.len() <= t.len()
    &&& forall|i: int| 0 <= i < s.len() ==> #[trigger] same_key(s[i], t[i]) && s[i].2 <= t[i].2
}

/// `key_pos` is the first position with the key of `t`, or `-1` when there is none.
pub proof fn lemma_key_pos(s: Seq<SymbolView>, t: SymbolView)
    ensures
        -1 <= key_pos(s, t) < s.len(),
        key_pos(s, t) < 0 ==> forall|i: int| 0 <= i < s.len() ==> !same_key(#[trigger] s[i], t),
        key_pos(s, t) >= 0 ==> same_key(s[key_pos(s, t)], t),
        key_pos(s, t) >= 0 ==> forall|i: int|
            0 <= i < key_pos(s, t) ==> !same_key(#[trigger] s[i], t),
    decreases s.len(),
{
    if s.len() > 0 && !same_key(s[0], t) {
        lemma_key_pos(s.drop_first(), t);
        assert forall|i: int| 1 <= i < s.len() implies s[i] == s.drop_first()[i - 1] by {}
    }
}

/// Merging in a factor only raises powers and appends.
pub proof fn lemma_merge_in_dominates(acc: Seq<SymbolView>, t: SymbolView)
    ensures
        dominates(merge_in(acc, t), acc),
{
    lemma_key_pos(acc, t);
}

/// `dominates` is transitive.
pub proof fn lemma_dominates_transitive(
    a: Seq<SymbolView>,
    b: Seq<SymbolView>,
    c: Seq<SymbolView>,
)
    requires
        dominates(b, a),
        dominates(c, b),
    ensures
        dominates(c, a),
{
    assert forall|i: int| 0 <= i < a.len() implies #[trigger] same_key(a[i], c[i]) && a[i].2
        <= c[i].2 by {
        assert(same_key(a[i], b[i]));
        assert(same_key(b[i], c[i]));
    }
}

/// Multiplying in a prefix of `b` gives terms that the whole product dominates.
pub proof fn lemma_merge_all_prefix(a: Seq<SymbolView>, b: Seq<SymbolView>, j: int)
    requires
        0 <= j <= b.len(),
    ensures
        dominates(merge_all(a, b), merge_all(a, b.take(j))),
    decreases b.len() - j,
{
    if j == b.len() {
        assert(b.take(j) =~= b);
        assert forall|i: int| 0 <= i < merge_all(a, b).len() implies #[trigger] same_key(
            merge_all(a, b)[i],
            merge_all(a, b.take(j))[i],
        ) by {}
    } else {
        lemma_merge_all_prefix(a, b, j + 1);
        assert(b.take(j + 1).drop_last() =~= b.take(j));
        lemma_merge_in_dominates(merge_all(a, b.take(j)), b[j]);
        lemma_dominates_transitive(
            merge_all(a, b.take(j)),
            merge_all(a, b.take(j + 1)),
            merge_all(a, b),
        );
    }
}

broadcast use {vstd::seq_lib::group_to_multiset_ensures, vstd::multiset::group_multiset_axioms};

/// The sum of `f` over the terms of `s`.
pub open spec fn weight(s: Seq<SymbolView>, f: spec_fn(SymbolView) -> nat) -> nat
    decreases s.len(),
{
    if s.len() == 0 {
        0
    } else {
        weight(s.drop_last(), f) + f(s.last())
    }
}

/// The weight of a term in the degree: its power.
pub open spec fn degree_weight() -> spec_fn(SymbolView) -> nat {
    |t: SymbolView| t.2
}

/// The weight of a term in the power of `name(k - index)`.
pub open spec fn key_weight(name: Seq<char>, index: nat) -> spec_fn(SymbolView) -> nat {
    |t: SymbolView|
        if t.0 == name && t.1 == index {
            t.2
        } else {
            0
        }
}

/// The total degree: the sum of all powers.
pub open spec fn degree(s: Seq<SymbolView>) -> nat {
    weight(s, degree_weight())
}

/// The power to which the variable `name` at lag `index` occurs.
pub open spec fn power_of(s: Seq<SymbolView>, name: Seq<char>, index: nat) -> nat {
    weight(s, key_weight(name, index))
}

/// `f` adds up when two powers of one variable and lag are merged.
pub open spec fn additive(f: spec_fn(SymbolView) -> nat) -> bool {
    forall|x: SymbolView, y: SymbolView|
        same_key(x, y) ==> #[trigger] f((x.0, x.1, x.2 + y.2)) == f(x) + f(y)
}

/// No two terms name the same variable at the same lag.
pub open spec fn distinct_keys(s: Seq<SymbolView>) -> bool {
    forall|i: int, j: int|
        0 <= i < s.len() && 0 <= j < s.len() && i != j ==> !same_key(#[trigger] s[i], #[trigger] s[j])
}

/// Every power is at least one.
pub open spec fn positive_powers(s: Seq<SymbolView>) -> bool {
    forall|i: int| 0 <= i < s.len() ==> #[trigger] s[i].2 >= 1
}

/// A well-formed term list: strictly increasing in variable and lag, every power at
/// least one. This is the shape of every regressor that `new`, `from` on such terms,
/// and products build.
pub open spec fn canonical(s: Seq<SymbolView>) -> bool {
    &&& strictly_keyed(s)
    &&& positive_powers(s)
}

/// Strictly increasing in variable and lag; powers may be anything, zero included.
pub open spec fn strictly_keyed(s: Seq<SymbolView>) -> bool {
    forall|i: int, j: int| 0 <= i < j < s.len() ==> key_lt(#[trigger] s[i], #[trigger] s[j])
}

/// Some term of `s` is over `name(k - index)`, whatever its power.
pub open spec fn has_key(s: Seq<SymbolView>, name: Seq<char>, index: nat) -> bool {
    exists|i: int| #![trigger s[i]] 0 <= i < s.len() && s[i].0 == name && s[i].1 == index
}

/// Degree and the power of one variable-lag pair are additive weights.
pub proof fn lemma_additive_weights(name: Seq<char>, index: nat)
    ensures
        additive(degree_weight()),
        additive(key_weight(name, index)),
{
}

/// Appending a term adds its weight.
pub proof fn lemma_weight_push(s: Seq<SymbolView>, e: SymbolView, f: spec_fn(SymbolView) -> nat)
    ensures
        weight(s.push(e), f) == weight(s, f) + f(e),
{
    assert(s.push(e).drop_last() =~= s);
}

/// Replacing a term changes the weight by the difference of the two terms.
pub proof fn lemma_weight_update(
    s: Seq<SymbolView>,
    p: int,
    e: SymbolView,
    f: spec_fn(SymbolView) -> nat,
)
    requires
        0 <= p < s.len(),
    ensures
        weight(s.update(p, e), f) + f(s[p]) == weight(s, f) + f(e),
    decreases s.len(),
{
    let u = s.update(p, e);
    if p == s.len() - 1 {
        assert(u.drop_last() =~= s.drop_last());
    } else {
        assert(u.drop_last() =~= s.drop_last().update(p, e));
        lemma_weight_update(s.drop_last(), p, e, f);
    }
}

/// Removing a term subtracts its weight.
pub proof fn lemma_weight_remove(s: Seq<SymbolView>, i: int, f: spec_fn(SymbolView) -> nat)
    requires
        0 <= i < s.len(),
    ensures
        weight(s, f) == weight(s.remove(i), f) + f(s[i]),
    decreases s.len(),
{
    if i == s.len() - 1 {
        assert(s.remove(i) =~= s.drop_last());
    } else {
        assert(s.remove(i).drop_last() =~= s.drop_last().remove(i));
        assert(s.remove(i).last() == s.last());
        lemma_weight_remove(s.drop_last(), i, f);
    }
}

/// Weights do not depend on the order of the terms.
pub proof fn lemma_weight_permutation(
    s: Seq<SymbolView>,
    t: Seq<SymbolView>,
    f: spec_fn(SymbolView) -> nat,
)
    requires
        s.to_multiset() == t.to_multiset(),
    ensures
        weight(s, f) == weight(t, f),
    decreases s.len(),
{
    if s.len() == 0 {
        assert(s.to_multiset().len() == s.len());
        assert(t.to_multiset().len() == t.len());
    } else {
        let x = s.last();
        assert(s =~= s.drop_last().push(x));
        assert(s.to_multiset().count(x) > 0);
        assert(t.contains(x));
        let i = choose|i: int| 0 <= i < t.len() && t[i] == x;
        lemma_weight_remove(t, i, f);
        assert(t.remove(i).to_multiset() =~= t.to_multiset().remove(x));
        assert(s.drop_last().to_multiset() =~= s.to_multiset().remove(x));
        lemma_weight_permutation(s.drop_last(), t.remove(i), f);
    }
}

/// Merging in a factor adds its weight.
pub proof fn lemma_merge_in_weight(acc: Seq<SymbolView>, t: SymbolView, f: spec_fn(SymbolView) -> nat)
    requires
        additive(f),
    ensures
        weight(merge_in(acc, t), f) == weight(acc, f) + f(t),
{
    lemma_key_pos(acc, t);
    let p = key_pos(acc, t);
    if p < 0 {
        lemma_weight_push(acc, t, f);
    } else {
        let e = (acc[p].0, acc[p].1, acc[p].2 + t.2);
        assert(f(e) == f(acc[p]) + f(t));
        lemma_weight_update(acc, p, e, f);
    }
}

/// Merging in all factors of `b` adds the weight of `b`.
pub proof fn lemma_merge_all_weight(
    a: Seq<SymbolView>,
    b: Seq<SymbolView>,
    f: spec_fn(SymbolView) -> nat,
)
    requires
        additive(f),
    ensures
        weight(merge_all(a, b), f) == weight(a, f) + weight(b, f),
    decreases b.len(),
{
    if b.len() > 0 {
        lemma_merge_all_weight(a, b.drop_last(), f);
        lemma_merge_in_weight(merge_all(a, b.drop_last()), b.last(), f);
    }
}

/// Sorting keeps the weight.
pub proof fn lemma_sorted_view_weight(s: Seq<SymbolView>, f: spec_fn(SymbolView) -> nat)
    ensures
        weight(sorted_view(s), f) == weight(s, f),
{
    lemma_symbol_le_total_ordering();
    s.lemma_sort_by_ensures(symbol_leq());
    lemma_weight_permutation(s, sorted_view(s), f);
}

/// The weight of a product is the sum of the factors' weights.
pub proof fn lemma_product_weight(
    a: Seq<SymbolView>,
    b: Seq<SymbolView>,
    f: spec_fn(SymbolView) -> nat,
)
    requires
        additive(f),
    ensures
        weight(product_view(a, b), f) == weight(a, f) + weight(b, f),
{
    lemma_merge_all_weight(a, b, f);
    lemma_sorted_view_weight(merge_all(a, b), f);
}

/// Merging in a factor of positive power keeps keys distinct and powers positive.
pub proof fn lemma_merge_in_shape(acc: Seq<SymbolView>, t: SymbolView)
    requires
        distinct_keys(acc),
        positive_powers(acc),
        t.2 >= 1,
    ensures
        distinct_keys(merge_in(acc, t)),
        positive_powers(merge_in(acc, t)),
{
    lemma_key_pos(acc, t);
    let m = merge_in(acc, t);
    assert forall|i: int, j: int|
        0 <= i < m.len() && 0 <= j < m.len() && i != j implies !same_key(#[trigger] m[i], #[trigger] m[j]) by {
        if i < acc.len() && j < acc.len() {
            assert(!same_key(acc[i], acc[j]));
        }
    }
    assert forall|i: int| 0 <= i < m.len() implies #[trigger] m[i].2 >= 1 by {
        if i < acc.len() {
            assert(acc[i].2 >= 1);
        }
    }
}

/// Merging in factors of positive power keeps keys distinct and powers positive.
pub proof fn lemma_merge_all_shape(a: Seq<SymbolView>, b: Seq<SymbolView>)
    requires
        distinct_keys(a),
        positive_powers(a),
        positive_powers(b),
    ensures
        distinct_keys(merge_all(a, b)),
        positive_powers(merge_all(a, b)),
    decreases b.len(),
{
    if b.len() > 0 {
        assert(b.last() == b[b.len() - 1]);
        lemma_merge_all_shape(a, b.drop_last());
        lemma_merge_in_shape(merge_all(a, b.drop_last()), b.last());
    }
}

/// Keys in strict order differ.
pub proof fn lemma_key_lt_not_same(x: SymbolView, y: SymbolView)
    requires
        key_lt(x, y),
    ensures
        !same_key(x, y),
        !same_key(y, x),
        symbol_le(x, y),
        !key_lt(y, x),
{
    lemma_name_lt_irreflexive(x.0);
    lemma_name_lt_asymmetric(x.0, y.0);
}

/// A strictly keyed term list has distinct variable-lag pairs and is sorted.
pub proof fn lemma_canonical_shape(s: Seq<SymbolView>)
    requires
        strictly_keyed(s),
    ensures
        distinct_keys(s),
        sorted_by(s, symbol_leq()),
        s.no_duplicates(),
{
    assert forall|i: int, j: int|
        0 <= i < s.len() && 0 <= j < s.len() && i != j implies !same_key(#[trigger] s[i], #[trigger] s[j]) by {
        if i < j {
            lemma_key_lt_not_same(s[i], s[j]);
        } else {
            lemma_key_lt_not_same(s[j], s[i]);
        }
    }
    assert forall|i: int, j: int| 0 <= i < j < s.len() implies #[trigger] symbol_leq()(s[i], s[j]) by {
        lemma_key_lt_not_same(s[i], s[j]);
    }
    assert forall|i: int, j: int| 0 <= i < s.len() && 0 <= j < s.len() && i != j implies s[i] != s[j] by {
        assert(!same_key(s[i], s[j]));
    }
}

/// Sorting terms with distinct variable-lag pairs and positive powers gives a
/// canonical list.
pub proof fn lemma_sorted_canonical(s: Seq<SymbolView>)
    requires
        distinct_keys(s),
        positive_powers(s),
    ensures
        canonical(sorted_view(s)),
{
    let t = sorted_view(s);
    lemma_symbol_le_total_ordering();
    s.lemma_sort_by_ensures(symbol_leq());
    assert(s.no_duplicates()) by {
        assert forall|i: int, j: int| 0 <= i < s.len() && 0 <= j < s.len() && i != j implies s[i] != s[j] by {
            assert(!same_key(s[i], s[j]));
        }
    }
    s.lemma_multiset_has_no_duplicates();
    assert forall|x: SymbolView| t.to_multiset().contains(x) implies t.to_multiset().count(x) == 1 by {}
    t.lemma_multiset_has_no_duplicates_conv();
    assert forall|i: int, j: int| 0 <= i < j < t.len() implies key_lt(#[trigger] t[i], #[trigger] t[j]) by {
        assert(t.to_multiset().count(t[i]) > 0);
        assert(t.to_multiset().count(t[j]) > 0);
        assert(s.contains(t[i]));
        assert(s.contains(t[j]));
        let a = choose|a: int| 0 <= a < s.len() && s[a] == t[i];
        let b = choose|b: int| 0 <= b < s.len() && s[b] == t[j];
        assert(t[i] != t[j]);
        assert(a != b);
        assert(!same_key(s[a], s[b]));
        assert(symbol_leq()(t[i], t[j]));
    }
    assert forall|i: int| 0 <= i < t.len() implies #[trigger] t[i].2 >= 1 by {
        assert(t.to_multiset().count(t[i]) > 0);
        assert(s.contains(t[i]));
        let a = choose|a: int| 0 <= a < s.len() && s[a] == t[i];
        assert(s[a].2 >= 1);
    }
}

/// A variable-lag pair that no term names has power zero.
pub proof fn lemma_power_absent(s: Seq<SymbolView>, name: Seq<char>, index: nat)
    requires
        forall|i: int| 0 <= i < s.len() ==> !(#[trigger] s[i].0 == name && s[i].1 == index),
    ensures
        power_of(s, name, index) == 0,
    decreases s.len(),
{
    if s.len() > 0 {
        assert(s.last() == s[s.len() - 1]);
        lemma_power_absent(s.drop_last(), name, index);
    }
}

/// With distinct keys, the power of a term's pair is that term's power.
pub proof fn lemma_power_present(s: Seq<SymbolView>, i: int)
    requires
        distinct_keys(s),
        0 <= i < s.len(),
    ensures
        power_of(s, s[i].0, s[i].1) == s[i].2,
    decreases s.len(),
{
    let d = s.drop_last();
    let n = s.len() - 1;
    assert(s.last() == s[n]);
    if i == n {
        assert forall|j: int| 0 <= j < d.len() implies !(#[trigger] d[j].0 == s[i].0 && d[j].1 == s[i].1) by {
            assert(d[j] == s[j]);
            assert(!same_key(s[j], s[i]));
        }
        lemma_power_absent(d, s[i].0, s[i].1);
    } else {
        assert(distinct_keys(d)) by {
            assert forall|a: int, b: int|
                0 <= a < d.len() && 0 <= b < d.len() && a != b implies !same_key(#[trigger] d[a], #[trigger] d[b]) by {
                assert(d[a] == s[a] && d[b] == s[b]);
            }
        }
        assert(d[i] == s[i]);
        lemma_power_present(d, i);
        assert(!same_key(s[n], s[i]));
    }
}

/// Canonical term lists with the same power for every variable and lag are equal.
pub proof fn lemma_canonical_unique(a: Seq<SymbolView>, b: Seq<SymbolView>)
    requires
        canonical(a),
        canonical(b),
        forall|name: Seq<char>, index: nat|
            #[trigger] power_of(a, name, index) == power_of(b, name, index),
    ensures
        a == b,
{
    lemma_canonical_shape(a);
    lemma_canonical_shape(b);
    assert forall|x: SymbolView| a.contains(x) implies b.contains(x) by {
        let i = choose|i: int| 0 <= i < a.len() && a[i] == x;
        lemma_power_present(a, i);
        assert(power_of(b, x.0, x.1) == x.2);
        if forall|j: int| 0 <= j < b.len() ==> !(#[trigger] b[j].0 == x.0 && b[j].1 == x.1) {
            lemma_power_absent(b, x.0, x.1);
        } else {
            let j = choose|j: int| 0 <= j < b.len() && (#[trigger] b[j].0 == x.0 && b[j].1 == x.1);
            lemma_power_present(b, j);
            assert(b[j] == x);
        }
    }
    assert forall|x: SymbolView| b.contains(x) implies a.contains(x) by {
        let i = choose|i: int| 0 <= i < b.len() && b[i] == x;
        lemma_power_present(b, i);
        assert(power_of(a, x.0, x.1) == x.2);
        if forall|j: int| 0 <= j < a.len() ==> !(#[trigger] a[j].0 == x.0 && a[j].1 == x.1) {
            lemma_power_absent(a, x.0, x.1);
        } else {
            let j = choose|j: int| 0 <= j < a.len() && (#[trigger] a[j].0 == x.0 && a[j].1 == x.1);
            lemma_power_present(a, j);
            assert(a[j] == x);
        }
    }
    a.lemma_multiset_has_no_duplicates();
    b.lemma_multiset_has_no_duplicates();
    assert forall|x: SymbolView| a.to_multiset().count(x) == b.to_multiset().count(x) by {
        if a.contains(x) {
            assert(b.contains(x));
        } else {
            assert(!b.contains(x));
        }
    }
    assert(a.to_multiset() =~= b.to_multiset());
    lemma_sorted_view_unique(b, a);
    lemma_sorted_view_unique(b, b);
}

/// Merging in a factor keeps the keys distinct and adds the factor's key.
pub proof fn lemma_merge_in_keys(acc: Seq<SymbolView>, t: SymbolView)
    requires
        distinct_keys(acc),
    ensures
        distinct_keys(merge_in(acc, t)),
        forall|name: Seq<char>, index: nat|
            #[trigger] has_key(merge_in(acc, t), name, index) == (has_key(acc, name, index) || (t.0
                == name && t.1 == index)),
{
    lemma_key_pos(acc, t);
    let m = merge_in(acc, t);
    let p = key_pos(acc, t);
    assert forall|i: int, j: int|
        0 <= i < m.len() && 0 <= j < m.len() && i != j implies !same_key(#[trigger] m[i], #[trigger] m[j]) by {
        if i < acc.len() && j < acc.len() {
            assert(!same_key(acc[i], acc[j]));
        }
    }
    assert forall|name: Seq<char>, index: nat|
        #[trigger] has_key(m, name, index) == (has_key(acc, name, index) || (t.0 == name && t.1
            == index)) by {
        if has_key(m, name, index) {
            let i = choose|i: int| #![trigger m[i]] 0 <= i < m.len() && m[i].0 == name && m[i].1 == index;
            if i < acc.len() {
                assert(acc[i].0 == name && acc[i].1 == index);
            }
        }
        if has_key(acc, name, index) {
            let i = choose|i: int|
                #![trigger acc[i]]
                0 <= i < acc.len() && acc[i].0 == name && acc[i].1 == index;
            assert(m[i].0 == name && m[i].1 == index);
        }
        if t.0 == name && t.1 == index {
            if p < 0 {
                assert(m[acc.len() as int] == t);
            } else {
                assert(m[p].0 == name && m[p].1 == index);
            }
        }
    }
}

/// Merging in factors keeps the keys distinct; the keys of the result are those of
/// either side.
pub proof fn lemma_merge_all_keys(a: Seq<SymbolView>, b: Seq<SymbolView>)
    requires
        distinct_keys(a),
    ensures
        distinct_keys(merge_all(a, b)),
        forall|name: Seq<char>, index: nat|
            #[trigger] has_key(merge_all(a, b), name, index) == (has_key(a, name, index) || has_key(
                b,
                name,
                index,
            )),
    decreases b.len(),
{
    if b.len() > 0 {
        let d = b.drop_last();
        lemma_merge_all_keys(a, d);
        lemma_merge_in_keys(merge_all(a, d), b.last());
        assert forall|name: Seq<char>, index: nat|
            #[trigger] has_key(b, name, index) == (has_key(d, name, index) || (b.last().0 == name
                && b.last().1 == index)) by {
            if has_key(b, name, index) {
                let i = choose|i: int|
                    #![trigger b[i]]
                    0 <= i < b.len() && b[i].0 == name && b[i].1 == index;
                if i < d.len() {
                    assert(d[i] == b[i]);
                }
            }
            if has_key(d, name, index) {
                let i = choose|i: int|
                    #![trigger d[i]]
                    0 <= i < d.len() && d[i].0 == name && d[i].1 == index;
                assert(b[i] == d[i]);
            }
            if b.last().0 == name && b.last().1 == index {
                assert(b[b.len() - 1] == b.last());
            }
        }
        assert forall|name: Seq<char>, index: nat|
            #[trigger] has_key(merge_all(a, b), name, index) == (has_key(a, name, index) || has_key(
                b,
                name,
                index,
            )) by {
            assert(has_key(merge_all(a, b), name, index) == has_key(
                merge_in(merge_all(a, d), b.last()),
                name,
                index,
            ));
            assert(has_key(b, name, index) == (has_key(d, name, index) || (b.last().0 == name
                && b.last().1 == index)));
        }
    }
}

/// Sorting terms with distinct variable-lag pairs gives a strictly keyed list with
/// the same keys.
pub proof fn lemma_sorted_keys(s: Seq<SymbolView>)
    requires
        distinct_keys(s),
    ensures
        strictly_keyed(sorted_view(s)),
        distinct_keys(sorted_view(s)),
        forall|name: Seq<char>, index: nat|
            #[trigger] has_key(sorted_view(s), name, index) == has_key(s, name, index),
{
    let t = sorted_view(s);
    lemma_symbol_le_total_ordering();
    s.lemma_sort_by_ensures(symbol_leq());
    assert(s.no_duplicates()) by {
        assert forall|i: int, j: int| 0 <= i < s.len() && 0 <= j < s.len() && i != j implies s[i] != s[j] by {
            assert(!same_key(s[i], s[j]));
        }
    }
    s.lemma_multiset_has_no_duplicates();
    assert forall|x: SymbolView| t.to_multiset().contains(x) implies t.to_multiset().count(x) == 1 by {}
    t.lemma_multiset_has_no_duplicates_conv();
    assert forall|i: int, j: int| 0 <= i < j < t.len() implies key_lt(#[trigger] t[i], #[trigger] t[j]) by {
        assert(t.to_multiset().count(t[i]) > 0);
        assert(t.to_multiset().count(t[j]) > 0);
        assert(s.contains(t[i]));
        assert(s.contains(t[j]));
        let a = choose|a: int| 0 <= a < s.len() && s[a] == t[i];
        let b = choose|b: int| 0 <= b < s.len() && s[b] == t[j];
        assert(t[i] != t[j]);
        assert(a != b);
        assert(!same_key(s[a], s[b]));
        assert(symbol_leq()(t[i], t[j]));
    }
    lemma_canonical_shape(t);
    assert forall|name: Seq<char>, index: nat|
        #[trigger] has_key(t, name, index) == has_key(s, name, index) by {
        if has_key(t, name, index) {
            let i = choose|i: int| #![trigger t[i]] 0 <= i < t.len() && t[i].0 == name && t[i].1 == index;
            assert(t.to_multiset().count(t[i]) > 0);
            assert(s.contains(t[i]));
            let a = choose|a: int| 0 <= a < s.len() && s[a] == t[i];
            assert(s[a].0 == name && s[a].1 == index);
        }
        if has_key(s, name, index) {
            let a = choose|a: int| #![trigger s[a]] 0 <= a < s.len() && s[a].0 == name && s[a].1 == index;
            assert(s.to_multiset().count(s[a]) > 0);
            assert(t.contains(s[a]));
            let i = choose|i: int| 0 <= i < t.len() && t[i] == s[a];
            assert(t[i].0 == name && t[i].1 == index);
        }
    }
}

/// The product of a regressor with distinct variable-lag pairs by any factors is
/// strictly keyed; its keys are those of either side and its powers the sums of the
/// factors' (zero powers included).
pub proof fn lemma_product_keys(a: Seq<SymbolView>, b: Seq<SymbolView>)
    requires
        distinct_keys(a),
    ensures
        strictly_keyed(product_view(a, b)),
        distinct_keys(product_view(a, b)),
        forall|name: Seq<char>, index: nat|
            #[trigger] has_key(product_view(a, b), name, index) == (has_key(a, name, index)
                || has_key(b, name, index)),
        forall|name: Seq<char>, index: nat|
            #[trigger] power_of(product_view(a, b), name, index) == power_of(a, name, index)
                + power_of(b, name, index),
{
    lemma_merge_all_keys(a, b);
    lemma_sorted_keys(merge_all(a, b));
    assert forall|name: Seq<char>, index: nat|
        #[trigger] has_key(product_view(a, b), name, index) == (has_key(a, name, index) || has_key(
            b,
            name,
            index,
        )) by {
        assert(has_key(sorted_view(merge_all(a, b)), name, index) == has_key(
            merge_all(a, b),
            name,
            index,
        ));
        assert(has_key(merge_all(a, b), name, index) == (has_key(a, name, index) || has_key(
            b,
            name,
            index,
        )));
    }
    assert forall|name: Seq<char>, index: nat|
        #[trigger] power_of(product_view(a, b), name, index) == power_of(a, name, index)
            + power_of(b, name, index) by {
        lemma_additive_weights(name, index);
        lemma_product_weight(a, b, key_weight(name, index));
    }
}

/// Strictly keyed term lists with the same keys and the same power for every variable
/// and lag are equal.
pub proof fn lemma_keyed_unique(a: Seq<SymbolView>, b: Seq<SymbolView>)
    requires
        strictly_keyed(a),
        strictly_keyed(b),
        forall|name: Seq<char>, index: nat|
            #![trigger has_key(a, name, index)]
            #![trigger has_key(b, name, index)]
            has_key(a, name, index) == has_key(b, name, index),
        forall|name: Seq<char>, index: nat|
            #![trigger power_of(a, name, index)]
            #![trigger power_of(b, name, index)]
            power_of(a, name, index) == power_of(b, name, index),
    ensures
        a == b,
{
    lemma_canonical_shape(a);
    lemma_canonical_shape(b);
    assert forall|x: SymbolView| a.contains(x) implies b.contains(x) by {
        let i = choose|i: int| 0 <= i < a.len() && a[i] == x;
        lemma_power_present(a, i);
        assert(has_key(a, x.0, x.1));
        let j = choose|j: int| #![trigger b[j]] 0 <= j < b.len() && b[j].0 == x.0 && b[j].1 == x.1;
        lemma_power_present(b, j);
        assert(power_of(b, x.0, x.1) == power_of(a, x.0, x.1));
        assert(b[j] == x);
    }
    assert forall|x: SymbolView| b.contains(x) implies a.contains(x) by {
        let i = choose|i: int| 0 <= i < b.len() && b[i] == x;
        lemma_power_present(b, i);
        assert(has_key(b, x.0, x.1));
        let j = choose|j: int| #![trigger a[j]] 0 <= j < a.len() && a[j].0 == x.0 && a[j].1 == x.1;
        lemma_power_present(a, j);
        assert(power_of(b, x.0, x.1) == power_of(a, x.0, x.1));
        assert(a[j] == x);
    }
    a.lemma_multiset_has_no_duplicates();
    b.lemma_multiset_has_no_duplicates();
    assert forall|x: SymbolView| a.to_multiset().count(x) == b.to_multiset().count(x) by {
        if a.contains(x) {
            assert(b.contains(x));
        } else {
            assert(!b.contains(x));
        }
    }
    assert(a.to_multiset() =~= b.to_multiset());
    lemma_sorted_view_unique(b, a);
    lemma_sorted_view_unique(b, b);
}

/// The product of a canonical regressor with factors of positive power is canonical,
/// and its powers and degree are the sums of the factors'.
pub proof fn lemma_product_canonical(a: Seq<SymbolView>, b: Seq<SymbolView>)
    requires
        canonical(a),
        positive_powers(b),
    ensures
        canonical(product_view(a, b)),
        degree(product_view(a, b)) == degree(a) + degree(b),
        forall|name: Seq<char>, index: nat|
            #[trigger] power_of(product_view(a, b), name, index) == power_of(a, name, index)
                + power_of(b, name, index),
{
    lemma_canonical_shape(a);
    lemma_merge_all_shape(a, b);
    lemma_sorted_canonical(merge_all(a, b));
    lemma_additive_weights(Seq::<char>::empty(), 0);
    lemma_product_weight(a, b, degree_weight());
    assert forall|name: Seq<char>, index: nat|
        #[trigger] power_of(product_view(a, b), name, index) == power_of(a, name, index)
            + power_of(b, name, index) by {
        lemma_additive_weights(name, index);
        lemma_product_weight(a, b, key_weight(name, index));
    }
}

/// No power exceeds the degree.
pub proof fn lemma_power_le_degree(s: Seq<SymbolView>, i: int)
    requires
        0 <= i < s.len(),
    ensures
        s[i].2 <= degree(s),
{
    lemma_weight_remove(s, i, degree_weight());
}

/// A product whose total degree fits in a `usize` can be computed without overflow.
pub proof fn lemma_product_fits_by_degree(a: Seq<SymbolView>, b: Seq<SymbolView>)
    requires
        degree(a) + degree(b) <= usize::MAX,
    ensures
        product_fits(a, b),
{
    lemma_additive_weights(Seq::<char>::empty(), 0);
    lemma_merge_all_weight(a, b, degree_weight());
    assert forall|i: int| 0 <= i < merge_all(a, b).len() implies #[trigger] merge_all(a, b)[i].2
        <= usize::MAX by {
        lemma_power_le_degree(merge_all(a, b), i);
    }
}

/// One direction of the regressor equality: as many terms, and every term of `a`
/// occurs in `b`.
pub open spec fn terms_within(a: Seq<SymbolView>, b: Seq<SymbolView>) -> bool {
    a.len() == b.len() && forall|i: int| 0 <= i < a.len() ==> b.contains(#[trigger] a[i])
}

/// The equality of regressors: as many terms, and the same set of terms (every term of
/// either occurs in the other), whatever their order.
pub open spec fn regressor_eq(a: Seq<SymbolView>, b: Seq<SymbolView>) -> bool {
    terms_within(a, b) && terms_within(b, a)
}

/// On sorted term lists without repeated terms the regressor equality is equality.
pub proof fn lemma_regressor_eq_sorted(a: Seq<SymbolView>, b: Seq<SymbolView>)
    requires
        sorted_by(a, symbol_leq()),
        sorted_by(b, symbol_leq()),
        a.no_duplicates(),
        b.no_duplicates(),
    ensures
        regressor_eq(a, b) <==> a == b,
{
    if regressor_eq(a, b) {
        assert forall|x: SymbolView| a.contains(x) implies b.contains(x) by {
            let i = choose|i: int| 0 <= i < a.len() && a[i] == x;
        }
        assert forall|x: SymbolView| b.contains(x) implies a.contains(x) by {
            let j = choose|j: int| 0 <= j < b.len() && b[j] == x;
        }
        a.lemma_multiset_has_no_duplicates();
        b.lemma_multiset_has_no_duplicates();
        a.to_multiset_ensures();
        b.to_multiset_ensures();
        assert forall|x: SymbolView| a.to_multiset().count(x) == b.to_multiset().count(x) by {
            if a.contains(x) {
                assert(b.contains(x));
            } else {
                assert(!b.contains(x));
            }
        }
        assert(a.to_multiset() =~= b.to_multiset());
        lemma_sorted_view_unique(b, a);
        lemma_sorted_view_unique(b, b);
    } else {
        if a == b {
            assert forall|i: int| 0 <= i < a.len() implies b.contains(#[trigger] a[i]) by {
                assert(b[i] == a[i]);
            }
        }
    }
}

/// On canonical term lists the regressor equality is equality.
pub proof fn lemma_regressor_eq_canonical(a: Seq<SymbolView>, b: Seq<SymbolView>)
    requires
        canonical(a),
        canonical(b),
    ensures
        regressor_eq(a, b) <==> a == b,
{
    lemma_canonical_shape(a);
    lemma_canonical_shape(b);
    lemma_regressor_eq_sorted(a, b);
}

/// Every term is over a variable-lag pair that `allowed` admits.
pub open spec fn over_keys(v: Seq<SymbolView>, allowed: spec_fn(Seq<char>, nat) -> bool) -> bool {
    forall|i: int| 0 <= i < v.len() ==> #[trigger] allowed(v[i].0, v[i].1)
}

/// A candidate regressor: canonical, over admitted variable-lag pairs, of total degree
/// between one and `max_degree`.
pub open spec fn is_candidate(
    v: Seq<SymbolView>,
    allowed: spec_fn(Seq<char>, nat) -> bool,
    max_degree: nat,
) -> bool {
    &&& canonical(v)
    &&& over_keys(v, allowed)
    &&& 1 <= degree(v) <= max_degree
}

/// With positive powers, the degree is at least the number of terms.
pub proof fn lemma_degree_at_least_len(s: Seq<SymbolView>)
    requires
        positive_powers(s),
    ensures
        degree(s) >= s.len(),
    decreases s.len(),
{
    if s.len() > 0 {
        assert(s.last() == s[s.len() - 1]);
        assert(positive_powers(s.drop_last())) by {
            assert forall|i: int| 0 <= i < s.drop_last().len() implies #[trigger] s.drop_last()[i].2
                >= 1 by {
                assert(s.drop_last()[i] == s[i]);
            }
        }
        lemma_degree_at_least_len(s.drop_last());
    }
}

/// Some term of `s` has the given variable and lag when its power there is positive.
pub proof fn lemma_power_positive_has_key(s: Seq<SymbolView>, name: Seq<char>, index: nat)
    requires
        power_of(s, name, index) > 0,
    ensures
        exists|i: int| 0 <= i < s.len() && #[trigger] s[i].0 == name && s[i].1 == index,
{
    if !exists|i: int| 0 <= i < s.len() && #[trigger] s[i].0 == name && s[i].1 == index {
        lemma_power_absent(s, name, index);
    }
}

/// A product of candidates over admitted pairs is over admitted pairs.
pub proof fn lemma_product_over_keys(
    a: Seq<SymbolView>,
    b: Seq<SymbolView>,
    allowed: spec_fn(Seq<char>, nat) -> bool,
)
    requires
        canonical(a),
        positive_powers(b),
        over_keys(a, allowed),
        over_keys(b, allowed),
    ensures
        over_keys(product_view(a, b), allowed),
{
    let p = product_view(a, b);
    lemma_product_canonical(a, b);
    lemma_canonical_shape(p);
    assert forall|i: int| 0 <= i < p.len() implies #[trigger] allowed(p[i].0, p[i].1) by {
        lemma_power_present(p, i);
        assert(power_of(p, p[i].0, p[i].1) >= 1);
        if power_of(a, p[i].0, p[i].1) > 0 {
            lemma_power_positive_has_key(a, p[i].0, p[i].1);
            let j = choose|j: int| 0 <= j < a.len() && #[trigger] a[j].0 == p[i].0 && a[j].1 == p[i].1;
            assert(allowed(a[j].0, a[j].1));
        } else {
            lemma_power_positive_has_key(b, p[i].0, p[i].1);
            let j = choose|j: int| 0 <= j < b.len() && #[trigger] b[j].0 == p[i].0 && b[j].1 == p[i].1;
            assert(allowed(b[j].0, b[j].1));
        }
    }
}

/// The factor that removes one power of the last variable-lag pair of `v`.
pub open spec fn last_factor(v: Seq<SymbolView>) -> SymbolView {
    (v.last().0, v.last().1, 1)
}

/// `v` with one power of its last variable-lag pair removed.
pub open spec fn without_last_factor(v: Seq<SymbolView>) -> Seq<SymbolView> {
    if v.last().2 <= 1 {
        v.drop_last()
    } else {
        v.update(v.len() - 1, (v.last().0, v.last().1, (v.last().2 - 1) as nat))
    }
}

/// A canonical regressor of degree two or more is a canonical regressor of one
/// degree less times one of its own factors.
pub proof fn lemma_split_last_factor(v: Seq<SymbolView>)
    requires
        canonical(v),
        degree(v) >= 2,
    ensures
        canonical(without_last_factor(v)),
        degree(without_last_factor(v)) == degree(v) - 1,
        forall|allowed: spec_fn(Seq<char>, nat) -> bool|
            over_keys(v, allowed) ==> #[trigger] over_keys(without_last_factor(v), allowed),
        product_view(without_last_factor(v), seq![last_factor(v)]) == v,
{
    let n = v.len() - 1;
    assert(v.len() > 0) by {
        if v.len() == 0 {
        }
    }
    let e = v.last();
    assert(e == v[n]);
    let w = without_last_factor(v);
    let f1 = last_factor(v);
    let one = seq![f1];
    assert(e.2 >= 1);
    // The shape of w.
    assert forall|i: int| 0 <= i < w.len() implies #[trigger] w[i] == (if i < n {
        v[i]
    } else {
        (e.0, e.1, (e.2 - 1) as nat)
    }) by {}
    assert(canonical(w)) by {
        assert forall|i: int, j: int| 0 <= i < j < w.len() implies key_lt(#[trigger] w[i], #[trigger] w[j]) by {
            assert(key_lt(v[i], v[j]));
        }
        assert forall|i: int| 0 <= i < w.len() implies #[trigger] w[i].2 >= 1 by {
            assert(v[i].2 >= 1);
        }
    }
    assert forall|allowed: spec_fn(Seq<char>, nat) -> bool|
        over_keys(v, allowed) implies #[trigger] over_keys(w, allowed) by {
        assert forall|i: int| 0 <= i < w.len() implies #[trigger] allowed(w[i].0, w[i].1) by {
            assert(allowed(v[i].0, v[i].1));
        }
    }
    // Weights of w.
    assert forall|f: spec_fn(SymbolView) -> nat|
        additive(f) implies #[trigger] weight(v, f) == weight(w, f) + f(f1) by {
        if e.2 <= 1 {
            assert(e == f1);
        } else {
            let e2 = (e.0, e.1, (e.2 - 1) as nat);
            lemma_weight_update(v, n, e2, f);
            assert(same_key(e2, f1));
            assert((e2.0, e2.1, e2.2 + f1.2) == e);
        }
    }
    assert forall|f: spec_fn(SymbolView) -> nat| #[trigger] weight(one, f) == f(f1) by {
        assert(one =~= Seq::<SymbolView>::empty().push(f1));
        lemma_weight_push(Seq::<SymbolView>::empty(), f1, f);
        assert(weight(Seq::<SymbolView>::empty(), f) == 0);
    }
    assert(weight(one, degree_weight()) == 1);
    lemma_additive_weights(Seq::<char>::empty(), 0);
    assert(degree(v) == degree(w) + 1);
    // The product.
    assert(positive_powers(one));
    lemma_product_canonical(w, one);
    let p = product_view(w, one);
    assert forall|name: Seq<char>, index: nat| #[trigger] power_of(p, name, index) == power_of(v, name, index) by {
        lemma_additive_weights(name, index);
        assert(power_of(one, name, index) == key_weight(name, index)(f1));
        assert(weight(v, key_weight(name, index)) == weight(w, key_weight(name, index)) + key_weight(name, index)(f1));
    }
    lemma_canonical_unique(p, v);
}

/// A canonical regressor of degree one is a single factor of power one.
pub proof fn lemma_degree_one(v: Seq<SymbolView>)
    requires
        canonical(v),
        degree(v) == 1,
    ensures
        v =~= seq![(v[0].0, v[0].1, 1nat)],
{
    lemma_degree_at_least_len(v);
    assert(v.len() == 1) by {
        if v.len() == 0 {
            assert(degree(v) == 0);
        }
    }
    assert(v.drop_last() =~= Seq::<SymbolView>::empty());
    assert(v[0].2 >= 1);
}

/// The weights, degree and shape of a single factor.
pub proof fn lemma_single_factor(x: SymbolView)
    ensures
        forall|f: spec_fn(SymbolView) -> nat| #[trigger] weight(seq![x], f) == f(x),
        degree(seq![x]) == x.2,
        x.2 >= 1 ==> canonical(seq![x]),
        x.2 >= 1 ==> positive_powers(seq![x]),
{
    assert forall|f: spec_fn(SymbolView) -> nat| #[trigger] weight(seq![x], f) == f(x) by {
        assert(seq![x] =~= Seq::<SymbolView>::empty().push(x));
        lemma_weight_push(Seq::<SymbolView>::empty(), x, f);
        assert(weight(Seq::<SymbolView>::empty(), f) == 0);
    }
}

} // verus!
