//! The candidate dictionary: every product of lagged variables up to a total degree,
//! each counted once.

use std::collections::HashMap;
use vstd::prelude::*;
use crate::symbol::SymbolView;
use crate::regressor::Regressor;
use crate::terms::{
    canonical, degree, is_candidate, last_factor, lemma_degree_one, lemma_product_canonical,
    lemma_product_fits_by_degree, lemma_single_factor, lemma_product_over_keys, lemma_regressor_eq_canonical,
    lemma_split_last_factor, over_keys, product_view, regressor_eq,
    without_last_factor,
};

verus! {

/// The values of a sequence of regressors.
pub open spec fn regressor_views(rs: Seq<Regressor>) -> Seq<Seq<SymbolView>> {
    rs.map_values(|r: Regressor| r@)
}

/// The regressors come in order of non-decreasing total degree.
pub open spec fn degree_sorted(rs: Seq<Seq<SymbolView>>) -> bool {
    forall|a: int, b: int| 0 <= a < b < rs.len() ==> degree(#[trigger] rs[a]) <= degree(#[trigger] rs[b])
}

/// Variable names with their maximum lags, as values.
pub open spec fn lag_views(lags: Seq<(String, usize)>) -> Seq<(Seq<char>, nat)> {
    lags.map_values(|e: (String, usize)| (e.0@, e.1 as nat))
}

/// The variable-lag pairs `name(k - index)` with `1 <= index <=` a maximum lag listed
/// for `name`.
pub open spec fn lag_keys(lags: Seq<(Seq<char>, nat)>) -> spec_fn(Seq<char>, nat) -> bool {
    |name: Seq<char>, index: nat|
        exists|e: int| 0 <= e < lags.len() && #[trigger] lags[e] == (name, lags[e].1) && 1 <= index
            <= lags[e].1
}

/// The variable-lag pairs `name(k - index)` with `1 <= index <= map[name]`.
pub open spec fn map_keys(m: Map<&str, usize>) -> spec_fn(Seq<char>, nat) -> bool {
    |name: Seq<char>, index: nat|
        exists|k: &str| #[trigger] m.contains_key(k) && k@ == name && 1 <= index <= m[k]
}

/// The single factor `name(k - index)`.
pub open spec fn atom_view(name: Seq<char>, index: nat) -> Seq<SymbolView> {
    seq![(name, index, 1nat)]
}

/// Entry `e` of the lags admits the single factor `v`.
pub open spec fn admits(lv: Seq<(Seq<char>, nat)>, e: int, v: Seq<SymbolView>) -> bool {
    0 <= e < lv.len() && v.len() > 0 && lv[e].0 == v[0].0 && 1 <= v[0].1 <= lv[e].1
}

/// Entry `e1` at lag `i1` comes before entry `e2` at lag `i2`.
pub open spec fn entry_before(e1: int, i1: nat, e2: int, i2: nat) -> bool {
    e1 < e2 || (e1 == e2 && i1 < i2)
}

/// The first entry of the lags, from `k` on, that admits `v`, or -1.
pub open spec fn first_entry_from(lv: Seq<(Seq<char>, nat)>, v: Seq<SymbolView>, k: int) -> int
    decreases lv.len() - k,
{
    if k < 0 || k >= lv.len() {
        -1
    } else if admits(lv, k, v) {
        k
    } else {
        first_entry_from(lv, v, k + 1)
    }
}

/// The first entry of the lags that admits `v`, or -1.
pub open spec fn first_entry(lv: Seq<(Seq<char>, nat)>, v: Seq<SymbolView>) -> int {
    first_entry_from(lv, v, 0)
}

/// The single factors come in the order of the first lags entry that admits them,
/// then of their lag.
pub open spec fn atoms_in_order(lv: Seq<(Seq<char>, nat)>, rs: Seq<Seq<SymbolView>>) -> bool {
    forall|a: int, b: int|
        0 <= a < b < rs.len() && degree(#[trigger] rs[a]) == 1 && degree(#[trigger] rs[b]) == 1
            ==> entry_before(first_entry(lv, rs[a]), rs[a][0].1, first_entry(lv, rs[b]), rs[b][0].1)
}

/// `first_entry_from` finds the first entry from `k` on that admits `v`, if any.
pub proof fn lemma_first_entry_from(lv: Seq<(Seq<char>, nat)>, v: Seq<SymbolView>, k: int)
    requires
        0 <= k <= lv.len(),
    ensures
        first_entry_from(lv, v, k) == -1 ==> forall|e: int| k <= e < lv.len() ==> !#[trigger] admits(lv, e, v),
        first_entry_from(lv, v, k) != -1 ==> {
            &&& k <= first_entry_from(lv, v, k) < lv.len()
            &&& admits(lv, first_entry_from(lv, v, k), v)
            &&& forall|e: int| k <= e < first_entry_from(lv, v, k) ==> !#[trigger] admits(lv, e, v)
        },
    decreases lv.len() - k,
{
    if k < lv.len() && !admits(lv, k, v) {
        lemma_first_entry_from(lv, v, k + 1);
    }
}

/// The first admitting entry is admitting and no later than any admitting entry.
pub proof fn lemma_first_entry(lv: Seq<(Seq<char>, nat)>, v: Seq<SymbolView>, e: int)
    requires
        admits(lv, e, v),
    ensures
        admits(lv, first_entry(lv, v), v),
        first_entry(lv, v) <= e,
        forall|f: int| 0 <= f < first_entry(lv, v) ==> !#[trigger] admits(lv, f, v),
{
    lemma_first_entry_from(lv, v, 0);
}

/// `v` is, one degree up, the product of the regressor at `i` and the single factor
/// at `j` of `rs`.
pub open spec fn generated_by(rs: Seq<Seq<SymbolView>>, i: int, j: int, v: Seq<SymbolView>) -> bool {
    &&& 0 <= i < rs.len()
    &&& 0 <= j < rs.len()
    &&& degree(rs[j]) == 1
    &&& degree(rs[i]) + 1 == degree(v)
    &&& product_view(rs[i], rs[j]) == v
}

/// Lexicographic order on pairs of positions.
pub open spec fn pair_before(p: (int, int), q: (int, int)) -> bool {
    p.0 < q.0 || (p.0 == q.0 && p.1 < q.1)
}

/// The first pair of positions, in lexicographic order from `(i, j)` on, whose product
/// is `v`, or `(-1, -1)`.
pub open spec fn first_pair_from(rs: Seq<Seq<SymbolView>>, v: Seq<SymbolView>, i: int, j: int) -> (int, int)
    decreases rs.len() - i, rs.len() - j,
{
    if i < 0 || j < 0 || i >= rs.len() {
        (-1, -1)
    } else if j >= rs.len() {
        first_pair_from(rs, v, i + 1, 0)
    } else if generated_by(rs, i, j, v) {
        (i, j)
    } else {
        first_pair_from(rs, v, i, j + 1)
    }
}

/// The first pair of positions, in lexicographic order, whose product is `v`, or
/// `(-1, -1)`.
pub open spec fn first_pair(rs: Seq<Seq<SymbolView>>, v: Seq<SymbolView>) -> (int, int) {
    first_pair_from(rs, v, 0, 0)
}

/// The products of each degree come in the order of the first pair that generates
/// them: a regressor of one degree less, then a single factor.
pub open spec fn products_in_order(rs: Seq<Seq<SymbolView>>) -> bool {
    forall|a: int, b: int|
        0 <= a < b < rs.len() && degree(#[trigger] rs[a]) == degree(#[trigger] rs[b]) && degree(rs[a])
            >= 2 ==> pair_before(first_pair(rs, rs[a]), first_pair(rs, rs[b]))
}

/// `first_pair_from` finds the first generating pair from `(i, j)` on, if any.
pub proof fn lemma_first_pair_from(rs: Seq<Seq<SymbolView>>, v: Seq<SymbolView>, i: int, j: int)
    requires
        0 <= i,
        0 <= j,
    ensures
        first_pair_from(rs, v, i, j).0 == -1 ==> first_pair_from(rs, v, i, j) == (-1int, -1int),
        first_pair_from(rs, v, i, j).0 == -1 ==> forall|a: int, b: int|
            pair_before((i, j - 1), (a, b)) ==> !#[trigger] generated_by(rs, a, b, v),
        first_pair_from(rs, v, i, j).0 != -1 ==> {
            let f = first_pair_from(rs, v, i, j);
            &&& generated_by(rs, f.0, f.1, v)
            &&& !pair_before(f, (i, j))
            &&& forall|a: int, b: int|
                pair_before((i, j - 1), (a, b)) && pair_before((a, b), f) ==> !#[trigger] generated_by(
                    rs,
                    a,
                    b,
                    v,
                )
        },
    decreases rs.len() - i, rs.len() - j,
{
    if i >= rs.len() {
    } else if j >= rs.len() {
        lemma_first_pair_from(rs, v, i + 1, 0);
    } else if !generated_by(rs, i, j, v) {
        lemma_first_pair_from(rs, v, i, j + 1);
    }
}

/// The first generating pair generates `v` and comes no later than any generating pair.
pub proof fn lemma_first_pair(rs: Seq<Seq<SymbolView>>, v: Seq<SymbolView>)
    ensures
        first_pair(rs, v).0 == -1 ==> first_pair(rs, v) == (-1int, -1int),
        first_pair(rs, v).0 == -1 ==> forall|a: int, b: int| !#[trigger] generated_by(rs, a, b, v),
        first_pair(rs, v).0 != -1 ==> generated_by(rs, first_pair(rs, v).0, first_pair(rs, v).1, v),
        forall|a: int, b: int|
            #[trigger] generated_by(rs, a, b, v) ==> !pair_before((a, b), first_pair(rs, v)),
{
    lemma_first_pair_from(rs, v, 0, 0);
    assert forall|a: int, b: int| #[trigger] generated_by(rs, a, b, v) implies !pair_before((a, b), first_pair(rs, v)) by {
        assert(pair_before((0, -1), (a, b)));
    }
}

/// Two lists with the same generating pairs for `v` have the same first one.
pub proof fn lemma_first_pair_same(rs: Seq<Seq<SymbolView>>, ts: Seq<Seq<SymbolView>>, v: Seq<SymbolView>)
    requires
        forall|a: int, b: int| #[trigger] generated_by(rs, a, b, v) <==> generated_by(ts, a, b, v),
    ensures
        first_pair(rs, v) == first_pair(ts, v),
{
    lemma_first_pair(rs, v);
    lemma_first_pair(ts, v);
    let p = first_pair(rs, v);
    let q = first_pair(ts, v);
    if p.0 != -1 {
        assert(generated_by(ts, p.0, p.1, v));
        assert(q.0 != -1);
        assert(generated_by(rs, q.0, q.1, v));
    } else {
        if q.0 != -1 {
            assert(generated_by(rs, q.0, q.1, v));
        }
        assert(p == first_pair_from(rs, v, 0, 0));
    }
}

/// Whether some regressor of `v` equals `r` by the regressor equality.
fn contains_regressor(v: &Vec<Regressor>, r: &Regressor) -> (b: bool)
    ensures
        b == exists|i: int| 0 <= i < v@.len() && regressor_eq(#[trigger] v@[i]@, r@),
{
    let mut i: usize = 0;
    while i < v.len()
        invariant
            i <= v@.len(),
            forall|j: int| 0 <= j < i ==> !regressor_eq(#[trigger] v@[j]@, r@),
        decreases v.len() - i,
    {
        if v[i] == *r {
            return true;
        }
        i = i + 1;
    }
    false
}

/// Whether the value of `r` occurs among `v`, for canonical regressors.
fn contains_canonical(v: &Vec<Regressor>, r: &Regressor) -> (b: bool)
    requires
        canonical(r@),
        forall|i: int| 0 <= i < v@.len() ==> canonical(#[trigger] v@[i]@),
    ensures
        b == regressor_views(v@).contains(r@),
{
    let b = contains_regressor(v, r);
    proof {
        if b {
            let i = choose|i: int| 0 <= i < v@.len() && regressor_eq(#[trigger] v@[i]@, r@);
            lemma_regressor_eq_canonical(v@[i]@, r@);
            assert(regressor_views(v@)[i] == r@);
        } else {
            if regressor_views(v@).contains(r@) {
                let i = choose|i: int| 0 <= i < v@.len() && regressor_views(v@)[i] == r@;
                assert(v@[i]@ == r@);
                lemma_regressor_eq_canonical(v@[i]@, r@);
            }
        }
    }
    b
}


/// The single factors `name(k - index)`, `1 <= index <=` the name's maximum lag, each once.
fn atom_regressors(lags: &[(String, usize)]) -> (base: Vec<Regressor>)
    ensures
        forall|v: Seq<SymbolView>|
            regressor_views(base@).contains(v) <==> is_candidate(
                v,
                lag_keys(lag_views(lags@)),
                1,
            ),
        regressor_views(base@).no_duplicates(),
        atoms_in_order(lag_views(lags@), regressor_views(base@)),
{
    let ghost lv = lag_views(lags@);
    let ghost allowed = lag_keys(lv);
    let mut base: Vec<Regressor> = Vec::new();
    let mut e: usize = 0;
    while e < lags.len()
        invariant
            e <= lags@.len(),
            lv == lag_views(lags@),
            allowed == lag_keys(lv),
            forall|k: int|
                0 <= k < base@.len() ==> is_candidate(#[trigger] regressor_views(base@)[k], allowed, 1),
            regressor_views(base@).no_duplicates(),
            forall|f: int, j: nat|
                0 <= f < e && 1 <= j <= lv[f].1 ==> #[trigger] regressor_views(base@).contains(atom_view(lv[f].0, j)),
            forall|k: int|
                0 <= k < base@.len() ==> first_entry(lv, #[trigger] regressor_views(base@)[k]) < e,
            atoms_in_order(lv, regressor_views(base@)),
        decreases lags.len() - e,
    {
        let n = lags[e].1;
        let mut i: usize = 0;
        while i < n
            invariant
                e < lags@.len(),
                i <= n,
                n == lags@[e as int].1,
                lv == lag_views(lags@),
                allowed == lag_keys(lv),
                forall|k: int|
                    0 <= k < base@.len() ==> is_candidate(#[trigger] regressor_views(base@)[k], allowed, 1),
                regressor_views(base@).no_duplicates(),
                forall|f: int, j: nat|
                    0 <= f < e && 1 <= j <= lv[f].1 ==> #[trigger] regressor_views(base@).contains(atom_view(lv[f].0, j)),
                forall|j: nat|
                    1 <= j <= i ==> #[trigger] regressor_views(base@).contains(atom_view(lv[e as int].0, j)),
                forall|k: int|
                    0 <= k < base@.len() ==> entry_before(
                        first_entry(lv, #[trigger] regressor_views(base@)[k]),
                        regressor_views(base@)[k][0].1,
                        e as int,
                        (i + 1) as nat,
                    ),
                atoms_in_order(lv, regressor_views(base@)),
            decreases n - i,
        {
            i = i + 1;
            let r = Regressor::new(&lags[e].0, i);
            let ghost x = (lv[e as int].0, i as nat, 1nat);
            proof {
                assert(lv[e as int] == (lags@[e as int].0@, lags@[e as int].1 as nat));
                assert(r@ == seq![x]);
                lemma_single_factor(x);
                assert(allowed(x.0, x.1)) by {
                    assert(lv[e as int] == (x.0, lv[e as int].1));
                }
                assert(over_keys(seq![x], allowed)) by {
                    assert(seq![x][0] == x);
                }
                assert(is_candidate(r@, allowed, 1));
                assert forall|k: int| 0 <= k < base@.len() implies canonical(#[trigger] base@[k]@) by {
                    assert(regressor_views(base@)[k] == base@[k]@);
                }
            }
            let ghost before = base@;
            proof {
                lemma_first_entry(lv, seq![x], e as int);
                assert(admits(lv, e as int, seq![x])) by {
                    assert(seq![x][0] == x);
                }
            }
            if !contains_canonical(&base, &r) {
                proof {
                    let fe = first_entry(lv, seq![x]);
                    if fe < e {
                        assert(lv[fe].0 == x.0);
                        assert(atom_view(lv[fe].0, i as nat) == seq![x]);
                        assert(regressor_views(before).contains(atom_view(lv[fe].0, i as nat)));
                    }
                    assert(fe == e);
                }
                base.push(r);
                proof {
                    assert forall|k: int|
                        0 <= k < base@.len() implies entry_before(
                        first_entry(lv, #[trigger] regressor_views(base@)[k]),
                        regressor_views(base@)[k][0].1,
                        e as int,
                        (i + 1) as nat,
                    ) by {
                        if k < before.len() {
                            assert(regressor_views(base@)[k] == regressor_views(before)[k]);
                        } else {
                            assert(regressor_views(base@)[k] == seq![x]);
                            assert(seq![x][0] == x);
                        }
                    }
                    assert forall|a: int, b: int|
                        0 <= a < b < regressor_views(base@).len() && degree(#[trigger] regressor_views(base@)[a]) == 1
                            && degree(#[trigger] regressor_views(base@)[b]) == 1 implies entry_before(
                        first_entry(lv, regressor_views(base@)[a]),
                        regressor_views(base@)[a][0].1,
                        first_entry(lv, regressor_views(base@)[b]),
                        regressor_views(base@)[b][0].1,
                    ) by {
                        assert(regressor_views(base@)[a] == regressor_views(before)[a]);
                        if b < before.len() {
                            assert(regressor_views(base@)[b] == regressor_views(before)[b]);
                        } else {
                            assert(regressor_views(base@)[b] == seq![x]);
                            assert(seq![x][0] == x);
                        }
                    }
                    assert(regressor_views(base@) =~= regressor_views(before).push(seq![x]));
                    assert forall|a: int, b: int|
                        0 <= a < b < regressor_views(base@).len() implies regressor_views(base@)[a]
                        != regressor_views(base@)[b] by {
                        if b == before.len() {
                            assert(regressor_views(before).contains(regressor_views(base@)[a]));
                        } else {
                            assert(regressor_views(before)[a] != regressor_views(before)[b]);
                        }
                    }
                    assert forall|k: int|
                        0 <= k < base@.len() implies is_candidate(#[trigger] regressor_views(base@)[k], allowed, 1) by {
                        if k < before.len() {
                            assert(regressor_views(base@)[k] == regressor_views(before)[k]);
                        }
                    }
                    assert forall|f: int, j: nat|
                        0 <= f < e && 1 <= j <= lv[f].1 implies #[trigger] regressor_views(base@).contains(atom_view(lv[f].0, j)) by {
                        let w = atom_view(lv[f].0, j);
                        assert(regressor_views(before).contains(w));
                        let k = choose|k: int| 0 <= k < regressor_views(before).len() && regressor_views(before)[k] == w;
                        assert(regressor_views(base@)[k] == w);
                    }
                    assert forall|j: nat| 1 <= j <= i implies #[trigger] regressor_views(base@).contains(atom_view(lv[e as int].0, j)) by {
                        let w = atom_view(lv[e as int].0, j);
                        if j < i {
                            assert(regressor_views(before).contains(w));
                            let k = choose|k: int| 0 <= k < regressor_views(before).len() && regressor_views(before)[k] == w;
                            assert(regressor_views(base@)[k] == w);
                        } else {
                            assert(regressor_views(base@)[before.len() as int] == w);
                        }
                    }
                }
            }
        }
        e = e + 1;
    }
    proof {
        assert forall|v: Seq<SymbolView>|
            regressor_views(base@).contains(v) implies is_candidate(v, allowed, 1) by {
            let k = choose|k: int| 0 <= k < regressor_views(base@).len() && regressor_views(base@)[k] == v;
        }
        assert forall|v: Seq<SymbolView>|
            is_candidate(v, allowed, 1) implies regressor_views(base@).contains(v) by {
            lemma_degree_one(v);
            assert(allowed(v[0].0, v[0].1));
            let f = choose|f: int| 0 <= f < lv.len() && #[trigger] lv[f] == (v[0].0, lv[f].1) && 1 <= v[0].1 <= lv[f].1;
            assert(lv[f].0 == v[0].0);
            assert(v == atom_view(lv[f].0, v[0].1));
        }
    }
    base
}

/// The shape of the dictionary after degree `lvl`: exactly the candidates up to that
/// degree, each once; those of degree `lvl` from position `lo` on, the single factors
/// before position `nb`.
pub open spec fn level_shape(
    a: Seq<Seq<SymbolView>>,
    allowed: spec_fn(Seq<char>, nat) -> bool,
    lvl: nat,
    lo: int,
    nb: int,
) -> bool {
    &&& forall|v: Seq<SymbolView>| #[trigger] a.contains(v) <==> is_candidate(v, allowed, lvl)
    &&& a.no_duplicates()
    &&& 0 <= lo <= a.len()
    &&& 0 <= nb <= a.len()
    &&& forall|p: int| 0 <= p < a.len() ==> (degree(#[trigger] a[p]) == lvl <==> lo <= p)
    &&& forall|p: int| 0 <= p < a.len() ==> (degree(#[trigger] a[p]) == 1 <==> p < nb)
}

/// Appends to `all` the products of its regressors of degree `lvl` (positions `lo..`)
/// with its single factors (positions `..nb`), in that order, each product that is not
/// yet there.
fn add_degree(
    all: &mut Vec<Regressor>,
    lo: usize,
    nb: usize,
    Ghost(allowed): Ghost<spec_fn(Seq<char>, nat) -> bool>,
    Ghost(lvl): Ghost<nat>,
)
    requires
        1 <= lvl < usize::MAX,
        level_shape(regressor_views(old(all)@), allowed, lvl, lo as int, nb as int),
    ensures
        old(all)@.len() <= final(all)@.len(),
        regressor_views(final(all)@).subrange(0, old(all)@.len() as int) == regressor_views(old(all)@),
        regressor_views(final(all)@).no_duplicates(),
        forall|v: Seq<SymbolView>|
            #[trigger] regressor_views(final(all)@).subrange(old(all)@.len() as int, final(all)@.len() as int).contains(v)
                <==> (is_candidate(v, allowed, lvl + 1) && degree(v) == lvl + 1),
        forall|x: int, y: int|
            old(all)@.len() <= x < y < final(all)@.len() ==> pair_before(
                first_pair(regressor_views(old(all)@), #[trigger] regressor_views(final(all)@)[x]),
                first_pair(regressor_views(old(all)@), #[trigger] regressor_views(final(all)@)[y]),
            ),
{
    let ghost a0 = regressor_views(all@);
    let prev = all.len();
    let mut i: usize = lo;
    while i < prev
        invariant
            1 <= lvl < usize::MAX,
            level_shape(a0, allowed, lvl, lo as int, nb as int),
            prev == a0.len(),
            lo <= i <= prev,
            prev <= all@.len(),
            regressor_views(all@).subrange(0, prev as int) == a0,
            regressor_views(all@).no_duplicates(),
            forall|k: int|
                prev <= k < all@.len() ==> is_candidate(#[trigger] regressor_views(all@)[k], allowed, lvl + 1)
                    && degree(regressor_views(all@)[k]) == lvl + 1,
            forall|k: int|
                prev <= k < all@.len() ==> pair_before(
                    first_pair(a0, #[trigger] regressor_views(all@)[k]),
                    (i as int, 0int),
                ),
            forall|x: int, y: int|
                prev <= x < y < all@.len() ==> pair_before(
                    first_pair(a0, #[trigger] regressor_views(all@)[x]),
                    first_pair(a0, #[trigger] regressor_views(all@)[y]),
                ),
            forall|a: int, b: int|
                lo <= a < i && 0 <= b < nb ==> regressor_views(all@).subrange(prev as int, all@.len() as int).contains(
                    #[trigger] product_view(a0[a], a0[b]),
                ),
        decreases prev - i,
    {
        let mut j: usize = 0;
        while j < nb
            invariant
                1 <= lvl < usize::MAX,
                level_shape(a0, allowed, lvl, lo as int, nb as int),
                prev == a0.len(),
                lo <= i < prev,
                j <= nb,
                prev <= all@.len(),
                regressor_views(all@).subrange(0, prev as int) == a0,
                regressor_views(all@).no_duplicates(),
                forall|k: int|
                    prev <= k < all@.len() ==> is_candidate(#[trigger] regressor_views(all@)[k], allowed, lvl + 1)
                        && degree(regressor_views(all@)[k]) == lvl + 1,
                forall|k: int|
                    prev <= k < all@.len() ==> pair_before(
                        first_pair(a0, #[trigger] regressor_views(all@)[k]),
                        (i as int, j as int),
                    ),
                forall|x: int, y: int|
                    prev <= x < y < all@.len() ==> pair_before(
                        first_pair(a0, #[trigger] regressor_views(all@)[x]),
                        first_pair(a0, #[trigger] regressor_views(all@)[y]),
                    ),
                forall|a: int, b: int|
                    lo <= a < i && 0 <= b < nb ==> regressor_views(all@).subrange(prev as int, all@.len() as int).contains(
                        #[trigger] product_view(a0[a], a0[b]),
                    ),
                forall|b: int|
                    0 <= b < j ==> regressor_views(all@).subrange(prev as int, all@.len() as int).contains(
                        #[trigger] product_view(a0[i as int], a0[b]),
                    ),
            decreases nb - j,
        {
            let ghost x = a0[i as int];
            let ghost y = a0[j as int];
            let ghost av = regressor_views(all@);
            proof {
                assert(av[i as int] == x);
                assert(av[j as int] == y);
                assert(all@[i as int]@ == x);
                assert(all@[j as int]@ == y);
                assert(a0.contains(x));
                assert(a0.contains(y));
                assert(degree(x) == lvl);
                assert(degree(y) == 1);
                lemma_degree_one(y);
                lemma_single_factor(y[0]);
                lemma_product_fits_by_degree(x, y);
                lemma_product_canonical(x, y);
                lemma_product_over_keys(x, y, allowed);
                assert forall|k: int| 0 <= k < all@.len() implies canonical(#[trigger] all@[k]@) by {
                    assert(av[k] == all@[k]@);
                    if k < prev {
                        assert(a0[k] == av[k]);
                        assert(a0.contains(av[k]));
                    }
                }
                assert(generated_by(a0, i as int, j as int, product_view(x, y)));
            }
            let p = &all[i] * &all[j];
            let ghost pv = p@;
            let ghost n = av.subrange(prev as int, av.len() as int);
            if !contains_canonical(&all, &p) {
                proof {
                    lemma_first_pair(a0, pv);
                    let fp = first_pair(a0, pv);
                    if pair_before(fp, (i as int, j as int)) {
                        assert(generated_by(a0, fp.0, fp.1, pv));
                        assert(degree(a0[fp.0]) == lvl);
                        assert(degree(a0[fp.1]) == 1);
                        if fp.0 < i {
                            assert(n.contains(product_view(a0[fp.0], a0[fp.1])));
                        } else {
                            assert(n.contains(product_view(a0[i as int], a0[fp.1])));
                        }
                        let k = choose|k: int| 0 <= k < n.len() && n[k] == pv;
                        assert(av[k + prev] == pv);
                    }
                    assert(fp == (i as int, j as int));
                }
                all.push(p);
                proof {
                    let nv = regressor_views(all@);
                    assert(nv =~= av.push(pv));
                    assert(nv.subrange(0, prev as int) =~= av.subrange(0, prev as int));
                    let n2 = nv.subrange(prev as int, nv.len() as int);
                    assert(n2 =~= n.push(pv));
                    assert(nv.no_duplicates()) by {
                        assert forall|a: int, b: int| 0 <= a < nv.len() && 0 <= b < nv.len() && a != b implies nv[a] != nv[b] by {
                            if a < av.len() && b < av.len() {
                                assert(av[a] != av[b]);
                            } else if a < av.len() {
                                assert(av.contains(av[a]));
                            } else {
                                assert(av.contains(av[b]));
                            }
                        }
                    }
                    assert forall|k: int| prev <= k < all@.len() implies is_candidate(#[trigger] nv[k], allowed, lvl + 1)
                        && degree(nv[k]) == lvl + 1 by {
                        if k < av.len() {
                            assert(nv[k] == av[k]);
                        }
                    }
                    assert forall|k: int| prev <= k < all@.len() implies pair_before(
                        first_pair(a0, #[trigger] nv[k]),
                        (i as int, (j + 1) as int),
                    ) by {
                        if k < av.len() {
                            assert(nv[k] == av[k]);
                        }
                    }
                    assert forall|a: int, b: int| prev <= a < b < all@.len() implies pair_before(
                        first_pair(a0, #[trigger] nv[a]),
                        first_pair(a0, #[trigger] nv[b]),
                    ) by {
                        assert(nv[a] == av[a]);
                        if b < av.len() {
                            assert(nv[b] == av[b]);
                        }
                    }
                    assert forall|w: Seq<SymbolView>| n.contains(w) implies n2.contains(w) by {
                        let k = choose|k: int| 0 <= k < n.len() && n[k] == w;
                        assert(n2[k] == w);
                    }
                    assert(n2[n.len() as int] == pv);
                }
            } else {
                proof {
                    assert(av.contains(pv));
                    let k = choose|k: int| 0 <= k < av.len() && av[k] == pv;
                    if k < prev {
                        assert(a0[k] == pv);
                        assert(a0.contains(pv));
                    }
                    assert(n[k - prev] == pv);
                }
            }
            j = j + 1;
        }
        i = i + 1;
    }
    proof {
        let av = regressor_views(all@);
        let n = av.subrange(prev as int, av.len() as int);
        assert forall|v: Seq<SymbolView>| #[trigger] n.contains(v) <==> (is_candidate(v, allowed, lvl + 1) && degree(v) == lvl + 1) by {
            if n.contains(v) {
                let k = choose|k: int| 0 <= k < n.len() && n[k] == v;
                assert(av[k + prev] == v);
            }
            if is_candidate(v, allowed, lvl + 1) && degree(v) == lvl + 1 {
                lemma_split_last_factor(v);
                let w = without_last_factor(v);
                let f1 = last_factor(v);
                assert(over_keys(w, allowed));
                assert(a0.contains(w));
                let a = choose|a: int| 0 <= a < a0.len() && a0[a] == w;
                assert(degree(a0[a]) == lvl);
                lemma_single_factor(f1);
                assert(allowed(v[v.len() - 1].0, v[v.len() - 1].1));
                assert(over_keys(seq![f1], allowed)) by {
                    assert(seq![f1][0] == f1);
                }
                assert(is_candidate(seq![f1], allowed, 1));
                assert(a0.contains(seq![f1]));
                let b = choose|b: int| 0 <= b < a0.len() && a0[b] == seq![f1];
                assert(degree(a0[b]) == 1);
                assert(n.contains(product_view(a0[a], a0[b])));
            }
        }
    }
}

/// Extending a dictionary by higher-degree products keeps the generating pairs of
/// its regressors of degree up to one more than its own.
proof fn lemma_extension_pairs(a: Seq<Seq<SymbolView>>, n: Seq<Seq<SymbolView>>, lvl: nat, v: Seq<SymbolView>)
    requires
        lvl >= 1,
        forall|p: int| 0 <= p < a.len() ==> degree(#[trigger] a[p]) <= lvl,
        forall|k: int| 0 <= k < n.len() ==> degree(#[trigger] n[k]) == lvl + 1,
        degree(v) <= lvl + 1,
    ensures
        first_pair(a + n, v) == first_pair(a, v),
{
    let t = a + n;
    assert forall|i: int, j: int| #[trigger] generated_by(t, i, j, v) <==> generated_by(a, i, j, v) by {
        if 0 <= i < t.len() && i >= a.len() {
            assert(t[i] == n[i - a.len()]);
        }
        if 0 <= j < t.len() && j >= a.len() {
            assert(t[j] == n[j - a.len()]);
        }
        if 0 <= i < a.len() {
            assert(t[i] == a[i]);
        }
        if 0 <= j < a.len() {
            assert(t[j] == a[j]);
        }
    }
    lemma_first_pair_same(t, a, v);
}

/// Every product of the lagged variables `name(k - index)`, `1 <= index <=` the
/// maximum lag listed for `name`, of total degree between one and `non_lin_len`, each
/// exactly once (products that differ only in the order of their factors are one
/// regressor). Degree one comes first, in the order of the lags entries and then of the
/// lags; then each further degree, in the order of the first pair (a regressor of one
/// degree less, then a single factor) whose product it is.
pub fn build_regressors_from_lags(lags: &[(String, usize)], non_lin_len: usize) -> (rs: Vec<
    Regressor,
>)
    ensures
        forall|v: Seq<SymbolView>|
            #[trigger] regressor_views(rs@).contains(v) <==> is_candidate(
                v,
                lag_keys(lag_views(lags@)),
                non_lin_len as nat,
            ),
        regressor_views(rs@).no_duplicates(),
        degree_sorted(regressor_views(rs@)),
        atoms_in_order(lag_views(lags@), regressor_views(rs@)),
        products_in_order(regressor_views(rs@)),
{
    let ghost lv = lag_views(lags@);
    let ghost allowed = lag_keys(lv);
    if non_lin_len == 0 {
        let empty: Vec<Regressor> = Vec::new();
        assert(regressor_views(empty@) =~= Seq::<Seq<SymbolView>>::empty());
        return empty;
    }
    let mut all = atom_regressors(lags);
    let nb = all.len();
    let mut lo: usize = 0;
    let mut lvl: usize = 1;
    proof {
        let av = regressor_views(all@);
        assert forall|p: int| 0 <= p < av.len() implies degree(#[trigger] av[p]) == 1 by {
            assert(av.contains(av[p]));
        }
    }
    while lvl < non_lin_len
        invariant
            1 <= lvl <= non_lin_len,
            lv == lag_views(lags@),
            allowed == lag_keys(lv),
            level_shape(regressor_views(all@), allowed, lvl as nat, lo as int, nb as int),
            degree_sorted(regressor_views(all@)),
            atoms_in_order(lv, regressor_views(all@)),
            products_in_order(regressor_views(all@)),
        decreases non_lin_len - lvl,
    {
        let ghost a = regressor_views(all@);
        let prev = all.len();
        add_degree(&mut all, lo, nb, Ghost(allowed), Ghost(lvl as nat));
        proof {
            let t = regressor_views(all@);
            let n = t.subrange(prev as int, t.len() as int);
            assert(t =~= a + n);
            assert forall|p: int| 0 <= p < a.len() implies degree(#[trigger] a[p]) <= lvl by {
                assert(a.contains(a[p]));
            }
            assert forall|k: int| 0 <= k < n.len() implies degree(#[trigger] n[k]) == lvl + 1 by {
                assert(n.contains(n[k]));
            }
            assert forall|k: int| 0 <= k < t.len() implies (t[k] == if k < prev { a[k] } else { n[k - prev] }) by {}
            // The dictionary up to the next degree.
            assert forall|v: Seq<SymbolView>| #[trigger] t.contains(v) <==> is_candidate(v, allowed, (lvl + 1) as nat) by {
                if t.contains(v) {
                    let k = choose|k: int| 0 <= k < t.len() && t[k] == v;
                    if k < prev {
                        assert(a.contains(v));
                    } else {
                        assert(n.contains(v));
                    }
                }
                if is_candidate(v, allowed, (lvl + 1) as nat) {
                    if degree(v) <= lvl {
                        assert(a.contains(v));
                        let k = choose|k: int| 0 <= k < a.len() && a[k] == v;
                        assert(t[k] == v);
                    } else {
                        assert(n.contains(v));
                        let k = choose|k: int| 0 <= k < n.len() && n[k] == v;
                        assert(t[k + prev] == v);
                    }
                }
            }
            assert forall|p: int| 0 <= p < t.len() implies (degree(#[trigger] t[p]) == lvl + 1 <==> prev <= p) by {
                if p < prev {
                    assert(t[p] == a[p]);
                } else {
                    assert(t[p] == n[p - prev]);
                }
            }
            assert forall|p: int| 0 <= p < t.len() implies (degree(#[trigger] t[p]) == 1 <==> p < nb) by {
                if p < prev {
                    assert(t[p] == a[p]);
                } else {
                    assert(t[p] == n[p - prev]);
                }
            }
            assert forall|x: int, y: int| 0 <= x < y < t.len() implies degree(#[trigger] t[x]) <= degree(#[trigger] t[y]) by {
                if y < prev {
                    assert(t[x] == a[x] && t[y] == a[y]);
                } else if x < prev {
                    assert(t[x] == a[x] && t[y] == n[y - prev]);
                } else {
                    assert(t[x] == n[x - prev] && t[y] == n[y - prev]);
                }
            }
            assert forall|x: int, y: int|
                0 <= x < y < t.len() && degree(#[trigger] t[x]) == 1 && degree(#[trigger] t[y]) == 1 implies entry_before(
                first_entry(lv, t[x]),
                t[x][0].1,
                first_entry(lv, t[y]),
                t[y][0].1,
            ) by {
                assert(y < nb);
                assert(t[x] == a[x] && t[y] == a[y]);
            }
            assert forall|x: int, y: int|
                0 <= x < y < t.len() && degree(#[trigger] t[x]) == degree(#[trigger] t[y]) && degree(t[x]) >= 2 implies pair_before(
                first_pair(t, t[x]),
                first_pair(t, t[y]),
            ) by {
                if y < prev {
                    assert(t[x] == a[x] && t[y] == a[y]);
                } else if x < prev {
                    assert(t[x] == a[x] && t[y] == n[y - prev]);
                } else {
                    assert(t[x] == n[x - prev] && t[y] == n[y - prev]);
                }
                lemma_extension_pairs(a, n, lvl as nat, t[x]);
                lemma_extension_pairs(a, n, lvl as nat, t[y]);
            }
        }
        lo = prev;
        lvl = lvl + 1;
    }
    all
}

/// `es` lists the entries of `m`, each at least once, and nothing else.
pub open spec fn lists_map(es: Seq<(Seq<char>, nat)>, m: Map<&str, usize>) -> bool {
    &&& forall|k: &str| #[trigger] m.contains_key(k) ==> es.contains((k@, m[k] as nat))
    &&& forall|i: int|
        #![trigger es[i]]
        0 <= i < es.len() ==> exists|k: &str| #[trigger] m.contains_key(k) && es[i] == (k@, m[k] as nat)
}

/// The entries of a map walked by `HashMap::iter`, as name-lag pairs.
pub open spec fn entry_views(es: Seq<(&str, usize)>) -> Seq<(Seq<char>, nat)> {
    es.map_values(|e: (&str, usize)| (e.0@, e.1 as nat))
}

/// The entries of the map, in the order in which `HashMap::iter` walks it. That order
/// is not specified, and nothing here states it: the contract says only that each
/// entry of the map comes out, and nothing else does.
#[verifier::external_body]
fn map_entries<'a>(atoms: &HashMap<&'a str, usize>) -> (entries: Vec<(&'a str, usize)>)
    ensures
        lists_map(entry_views(entries@), atoms@),
{
    atoms.iter().map(|(name, lag)| (*name, *lag)).collect()
}

/// The same entries with owned names.
fn owned_entries(entries: &[(&str, usize)]) -> (r: Vec<(String, usize)>)
    ensures
        lag_views(r@) == entry_views(entries@),
{
    let mut r: Vec<(String, usize)> = Vec::new();
    let mut i: usize = 0;
    while i < entries.len()
        invariant
            i <= entries@.len(),
            r@.len() == i,
            lag_views(r@) == entry_views(entries@).take(i as int),
        decreases entries.len() - i,
    {
        let (name, lag) = entries[i];
        let owned = name.to_owned();
        let ghost before = r@;
        r.push((owned, lag));
        proof {
            assert(entry_views(entries@)[i as int] == (name@, lag as nat));
            assert(r@[i as int] == (owned, lag));
            assert(lag_views(r@)[i as int] == (owned@, lag as nat));
            assert(lag_views(r@) =~= entry_views(entries@).take(i + 1)) by {
                assert(lag_views(before) =~= lag_views(r@).take(i as int));
            }
        }
        i = i + 1;
    }
    assert(entry_views(entries@).take(i as int) =~= entry_views(entries@));
    r
}

/// Every product of the lagged variables `name(k - index)`, `1 <= index <= atoms[name]`,
/// of total degree between one and `non_lin_len`, each exactly once, by degree. The
/// single factors come in the order in which the map is walked; each further degree in
/// the order of the first pair (a regressor of one degree less, then a single factor)
/// whose product it is.
pub fn build_regressors(atoms: HashMap<&str, usize>, non_lin_len: usize) -> (rs: Vec<Regressor>)
    ensures
        forall|v: Seq<SymbolView>|
            #[trigger] regressor_views(rs@).contains(v) <==> is_candidate(
                v,
                map_keys(atoms@),
                non_lin_len as nat,
            ),
        regressor_views(rs@).no_duplicates(),
        degree_sorted(regressor_views(rs@)),
        products_in_order(regressor_views(rs@)),
        exists|es: Seq<(Seq<char>, nat)>|
            #[trigger] lists_map(es, atoms@) && atoms_in_order(es, regressor_views(rs@)),
{
    let walked = map_entries(&atoms);
    let entries = owned_entries(walked.as_slice());
    let rs = build_regressors_from_lags(entries.as_slice(), non_lin_len);
    proof {
        let lv = lag_views(entries@);
        assert forall|name: Seq<char>, index: nat|
            #[trigger] lag_keys(lv)(name, index) == map_keys(atoms@)(name, index) by {
            if lag_keys(lv)(name, index) {
                let e = choose|e: int| 0 <= e < lv.len() && #[trigger] lv[e] == (name, lv[e].1) && 1
                    <= index <= lv[e].1;
                let k = choose|k: &str| #[trigger] atoms@.contains_key(k) && lv[e] == (k@, atoms@[k] as nat);
                assert(map_keys(atoms@)(name, index));
            }
            if map_keys(atoms@)(name, index) {
                let k = choose|k: &str|
                    #[trigger] atoms@.contains_key(k) && k@ == name && 1 <= index <= atoms@[k];
                assert(lv.contains((k@, atoms@[k] as nat)));
                let e = choose|e: int| 0 <= e < lv.len() && lv[e] == (k@, atoms@[k] as nat);
                assert(lv[e] == (name, lv[e].1));
            }
        }
        assert(lag_keys(lv) =~= map_keys(atoms@));
    }
    rs
}

} // verus!
