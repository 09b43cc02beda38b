//! Polynomial dictionaries given as monomials: a monomial lists, with repetition and
//! in non-decreasing order, the lagged variables it multiplies, numbered
//! `0..ny` for `y(k-1)..y(k-ny)` and `ny..ny+nu` for `u(k-1)..u(k-nu)`.

use vstd::prelude::*;
use crate::symbol::{Symbol, SymbolView};
use crate::regressor::Regressor;
use crate::sorting::{sorted_view, views};
use crate::terms::{
    degree, degree_weight, lemma_additive_weights, lemma_product_fits_by_degree,
    lemma_product_weight, lemma_single_factor, product_view,
};
use crate::text::{join_texts, regressor_text};

verus! {

/// Strict lexicographic order on index sequences; a proper prefix comes first.
pub open spec fn lex_lt(a: Seq<usize>, b: Seq<usize>) -> bool
    decreases a.len(),
{
    if a.len() == 0 {
        b.len() > 0
    } else if b.len() == 0 {
        false
    } else if a[0] != b[0] {
        a[0] < b[0]
    } else {
        lex_lt(a.drop_first(), b.drop_first())
    }
}

/// Shorter monomials first, then lexicographic order.
pub open spec fn graded_lt(a: Seq<usize>, b: Seq<usize>) -> bool {
    a.len() < b.len() || (a.len() == b.len() && lex_lt(a, b))
}

/// Non-decreasing, with every entry in `lo..n`.
pub open spec fn nondecreasing_in(t: Seq<usize>, lo: nat, n: nat) -> bool {
    &&& forall|i: int| 0 <= i < t.len() ==> lo <= #[trigger] t[i] < n
    &&& forall|i: int, j: int| 0 <= i < j < t.len() ==> #[trigger] t[i] <= #[trigger] t[j]
}

/// Strictly increasing in the lexicographic order.
pub open spec fn lex_sorted(s: Seq<Seq<usize>>) -> bool {
    forall|i: int, j: int| 0 <= i < j < s.len() ==> lex_lt(#[trigger] s[i], #[trigger] s[j])
}

/// Strictly increasing by degree, then lexicographically.
pub open spec fn graded_sorted(s: Seq<Seq<usize>>) -> bool {
    forall|i: int, j: int| 0 <= i < j < s.len() ==> graded_lt(#[trigger] s[i], #[trigger] s[j])
}

/// The contents of a list of monomials.
pub open spec fn seq_views(v: Seq<Vec<usize>>) -> Seq<Seq<usize>> {
    v.map_values(|x: Vec<usize>| x@)
}

/// The completions of `cur` enumerated from `start`: `cur` followed by a non-decreasing
/// tail over `start..n` that brings it to length `k`.
pub open spec fn is_completion(x: Seq<usize>, cur: Seq<usize>, n: nat, k: nat, start: nat) -> bool {
    exists|t: Seq<usize>|
        #![trigger cur + t]
        x == cur + t && t.len() + cur.len() == k && nondecreasing_in(t, start, n)
}

/// Two sequences that agree up to `p` and differ first at `p` compare by that entry.
pub proof fn lemma_lex_first_difference(a: Seq<usize>, b: Seq<usize>, p: int)
    requires
        0 <= p < a.len(),
        p < b.len(),
        a.subrange(0, p) == b.subrange(0, p),
        a[p] < b[p],
    ensures
        lex_lt(a, b),
    decreases p,
{
    if p > 0 {
        assert(a[0] == a.subrange(0, p)[0]);
        assert(b[0] == b.subrange(0, p)[0]);
        assert(a.drop_first().subrange(0, p - 1) =~= a.subrange(0, p).drop_first());
        assert(b.drop_first().subrange(0, p - 1) =~= b.subrange(0, p).drop_first());
        lemma_lex_first_difference(a.drop_first(), b.drop_first(), p - 1);
    }
}

/// Appends to `out`, in lexicographic order, every completion of `cur` to length `k`
/// by a non-decreasing tail over `start..n` (combinations with replacement);
/// `cur` is left as it was.
pub fn cwr(n: usize, k: usize, start: usize, cur: &mut Vec<usize>, out: &mut Vec<Vec<usize>>)
    requires
        old(cur)@.len() <= k || start >= n,
    ensures
        final(cur)@ == old(cur)@,
        seq_views(final(out)@).subrange(0, old(out)@.len() as int) == seq_views(old(out)@),
        old(out)@.len() <= final(out)@.len(),
        forall|x: Seq<usize>|
            #[trigger] seq_views(final(out)@).subrange(old(out)@.len() as int, final(out)@.len() as int).contains(x)
                <==> is_completion(x, old(cur)@, n as nat, k as nat, start as nat),
        lex_sorted(seq_views(final(out)@).subrange(old(out)@.len() as int, final(out)@.len() as int)),
    decreases k - old(cur)@.len(),
{
    let ghost c0 = cur@;
    let ghost o0 = seq_views(out@);
    if cur.len() == k {
        out.push(cur.clone());
        proof {
            let added = seq_views(out@).subrange(o0.len() as int, out@.len() as int);
            assert(seq_views(out@) =~= o0.push(c0));
            assert(added =~= seq![c0]);
            assert(seq_views(out@).subrange(0, o0.len() as int) =~= o0);
            assert forall|x: Seq<usize>| #[trigger] added.contains(x) <==> is_completion(x, c0, n as nat, k as nat, start as nat) by {
                if added.contains(x) {
                    assert(x == added[0]);
                    assert(c0 + Seq::<usize>::empty() =~= c0);
                    assert(nondecreasing_in(Seq::<usize>::empty(), start as nat, n as nat));
                }
                if is_completion(x, c0, n as nat, k as nat, start as nat) {
                    let t = choose|t: Seq<usize>| #![trigger c0 + t] x == c0 + t && t.len() + c0.len() == k && nondecreasing_in(t, start as nat, n as nat);
                    assert(t.len() == 0);
                    assert(x =~= c0);
                    assert(added[0] == x);
                }
            }
        }
        return;
    }
    let mut i: usize = start;
    while i < n
        invariant
            c0.len() < k || start >= n,
            c0.len() != k,
            c0 == old(cur)@,
            cur@ == c0,
            start <= i,
            o0.len() <= out@.len(),
            seq_views(out@).subrange(0, o0.len() as int) == o0,
            forall|x: Seq<usize>|
                #[trigger] seq_views(out@).subrange(o0.len() as int, out@.len() as int).contains(x)
                    <==> (is_completion(x, c0, n as nat, k as nat, start as nat) && x[c0.len() as int] < i),
            lex_sorted(seq_views(out@).subrange(o0.len() as int, out@.len() as int)),
        decreases n - i,
    {
        assert(c0.len() < k);
        let ghost before = seq_views(out@);
        cur.push(i);
        let ghost c1 = cur@;
        assert(c1 == c0.push(i));
        cwr(n, k, i, cur, out);
        cur.pop();
        proof {
            assert(cur@ =~= c0);
            let after = seq_views(out@);
            let old_part = before.subrange(o0.len() as int, before.len() as int);
            let block = after.subrange(before.len() as int, after.len() as int);
            let all_part = after.subrange(o0.len() as int, after.len() as int);
            assert(after.subrange(0, before.len() as int) == before);
            assert(all_part =~= old_part + block);
            assert(after.subrange(0, o0.len() as int) =~= before.subrange(0, o0.len() as int));
            // What the block holds.
            assert forall|x: Seq<usize>| block.contains(x) implies is_completion(x, c0, n as nat, k as nat, start as nat) && x[c0.len() as int] == i by {
                assert(is_completion(x, c1, n as nat, k as nat, i as nat));
                let t = choose|t: Seq<usize>| #![trigger c1 + t] x == c1 + t && t.len() + c1.len() == k && nondecreasing_in(t, i as nat, n as nat);
                let t2 = seq![i] + t;
                assert(x =~= c0 + t2);
                assert(nondecreasing_in(t2, start as nat, n as nat)) by {
                    assert forall|a: int| 0 <= a < t2.len() implies start <= #[trigger] t2[a] < n by {
                        if a > 0 {
                            assert(t2[a] == t[a - 1]);
                        }
                    }
                    assert forall|a: int, b: int| 0 <= a < b < t2.len() implies #[trigger] t2[a] <= #[trigger] t2[b] by {
                        if a > 0 {
                            assert(t2[a] == t[a - 1]);
                            assert(t2[b] == t[b - 1]);
                        } else {
                            assert(t2[b] == t[b - 1]);
                            assert(i <= t[b - 1]);
                        }
                    }
                }
                assert(x[c0.len() as int] == t2[0]);
            }
            assert forall|x: Seq<usize>| is_completion(x, c0, n as nat, k as nat, start as nat) && x[c0.len() as int] == i implies block.contains(x) by {
                let t2 = choose|t: Seq<usize>| #![trigger c0 + t] x == c0 + t && t.len() + c0.len() == k && nondecreasing_in(t, start as nat, n as nat);
                assert(t2.len() > 0);
                assert(t2[0] == x[c0.len() as int]);
                let t = t2.drop_first();
                assert(x =~= c1 + t);
                assert(nondecreasing_in(t, i as nat, n as nat)) by {
                    assert forall|a: int| 0 <= a < t.len() implies i <= #[trigger] t[a] < n by {
                        assert(t[a] == t2[a + 1]);
                        assert(t2[0] <= t2[a + 1]);
                    }
                    assert forall|a: int, b: int| 0 <= a < b < t.len() implies #[trigger] t[a] <= #[trigger] t[b] by {
                        assert(t[a] == t2[a + 1]);
                        assert(t[b] == t2[b + 1]);
                    }
                }
                assert(is_completion(x, c1, n as nat, k as nat, i as nat));
            }
            // The characterisation of everything added so far.
            assert forall|x: Seq<usize>| #[trigger] all_part.contains(x) <==> (is_completion(x, c0, n as nat, k as nat, start as nat) && x[c0.len() as int] < i + 1) by {
                if all_part.contains(x) {
                    let a = choose|a: int| 0 <= a < all_part.len() && all_part[a] == x;
                    if a < old_part.len() {
                        assert(old_part[a] == x);
                        assert(old_part.contains(x));
                    } else {
                        assert(block[a - old_part.len()] == x);
                        assert(block.contains(x));
                    }
                }
                if is_completion(x, c0, n as nat, k as nat, start as nat) && x[c0.len() as int] < i + 1 {
                    if x[c0.len() as int] < i {
                        assert(old_part.contains(x));
                        let a = choose|a: int| 0 <= a < old_part.len() && old_part[a] == x;
                        assert(all_part[a] == x);
                    } else {
                        assert(block.contains(x));
                        let a = choose|a: int| 0 <= a < block.len() && block[a] == x;
                        assert(all_part[a + old_part.len()] == x);
                    }
                }
            }
            // Sortedness across the two parts.
            assert forall|a: int, b: int| 0 <= a < b < all_part.len() implies lex_lt(#[trigger] all_part[a], #[trigger] all_part[b]) by {
                if b < old_part.len() {
                    assert(all_part[a] == old_part[a]);
                    assert(all_part[b] == old_part[b]);
                } else if a >= old_part.len() {
                    assert(all_part[a] == block[a - old_part.len()]);
                    assert(all_part[b] == block[b - old_part.len()]);
                } else {
                    let x = all_part[a];
                    let y = all_part[b];
                    assert(old_part[a] == x);
                    assert(old_part.contains(x));
                    assert(block[b - old_part.len()] == y);
                    assert(block.contains(y));
                    let tx = choose|t: Seq<usize>| #![trigger c0 + t] x == c0 + t && t.len() + c0.len() == k && nondecreasing_in(t, start as nat, n as nat);
                    let ty = choose|t: Seq<usize>| #![trigger c0 + t] y == c0 + t && t.len() + c0.len() == k && nondecreasing_in(t, start as nat, n as nat);
                    assert(x.subrange(0, c0.len() as int) =~= c0);
                    assert(y.subrange(0, c0.len() as int) =~= c0);
                    lemma_lex_first_difference(x, y, c0.len() as int);
                }
            }
        }
        i = i + 1;
    }
    proof {
        let added = seq_views(out@).subrange(o0.len() as int, out@.len() as int);
        assert forall|x: Seq<usize>| #[trigger] added.contains(x) <==> is_completion(x, c0, n as nat, k as nat, start as nat) by {
            if is_completion(x, c0, n as nat, k as nat, start as nat) {
                let t = choose|t: Seq<usize>| #![trigger c0 + t] x == c0 + t && t.len() + c0.len() == k && nondecreasing_in(t, start as nat, n as nat);
                assert(t.len() > 0);
                assert(x[c0.len() as int] == t[0]);
            }
        }
    }
}

/// The factor that variable number `idx` stands for: `y(k-idx-1)` below `ny`,
/// `u(k-(idx-ny)-1)` from `ny` on.
pub open spec fn atom_term(idx: nat, ny: nat) -> SymbolView {
    if idx < ny {
        (seq!['y'], idx + 1, 1nat)
    } else {
        (seq!['u'], (idx - ny + 1) as nat, 1nat)
    }
}

/// The regressor of a monomial: its factors multiplied from left to right; the
/// constant regressor (no term) for the empty monomial.
pub open spec fn mono_regressor(mono: Seq<usize>, ny: nat) -> Seq<SymbolView>
    decreases mono.len(),
{
    if mono.len() == 0 {
        Seq::<SymbolView>::empty()
    } else if mono.len() == 1 {
        seq![atom_term(mono[0] as nat, ny)]
    } else {
        product_view(mono_regressor(mono.drop_last(), ny), seq![atom_term(mono.last() as nat, ny)])
    }
}

/// The numbering of `atom` has room for `idx`.
pub open spec fn atom_in_range(idx: usize, ny: usize) -> bool {
    idx < ny || idx - ny < usize::MAX
}

/// The lag variable number `idx`: `y(k-idx-1)` for `idx < ny`, else `u(k-(idx-ny)-1)`.
pub fn atom(idx: usize, ny: usize, _nu: usize) -> (r: Regressor)
    requires
        atom_in_range(idx, ny),
    ensures
        r@ == seq![atom_term(idx as nat, ny as nat)],
{
    proof {
        reveal_strlit("y");
        reveal_strlit("u");
        assert("y"@ =~= seq!['y']);
        assert("u"@ =~= seq!['u']);
    }
    if idx < ny {
        Regressor::new("y", idx + 1)
    } else {
        Regressor::new("u", idx - ny + 1)
    }
}

/// The regressor of a monomial has the monomial's length as degree.
pub proof fn lemma_mono_regressor_degree(mono: Seq<usize>, ny: nat)
    ensures
        degree(mono_regressor(mono, ny)) == mono.len(),
    decreases mono.len(),
{
    lemma_additive_weights(Seq::<char>::empty(), 0);
    if mono.len() == 0 {
    } else if mono.len() == 1 {
        lemma_single_factor(atom_term(mono[0] as nat, ny));
    } else {
        lemma_mono_regressor_degree(mono.drop_last(), ny);
        lemma_single_factor(atom_term(mono.last() as nat, ny));
        lemma_product_weight(
            mono_regressor(mono.drop_last(), ny),
            seq![atom_term(mono.last() as nat, ny)],
            degree_weight(),
        );
    }
}

/// The product of the variables that `mono` lists; the constant regressor (no term)
/// when it lists none.
pub fn reg_from_mono(mono: &[usize], ny: usize, nu: usize) -> (r: Regressor)
    requires
        forall|j: int| 0 <= j < mono@.len() ==> atom_in_range(#[trigger] mono@[j], ny),
    ensures
        r@ == mono_regressor(mono@, ny as nat),
{
    if mono.len() == 0 {
        let r = Regressor::from(Vec::<Symbol>::new());
        assert(views(Seq::<Symbol>::empty()) =~= Seq::<SymbolView>::empty());
        assert(sorted_view(Seq::<SymbolView>::empty()) == Seq::<SymbolView>::empty()) by {
            crate::sorting::lemma_sorted_view_unique(
                Seq::<SymbolView>::empty(),
                Seq::<SymbolView>::empty(),
            );
        }
        return r;
    }
    let mut r = atom(mono[0], ny, nu);
    assert(mono@.take(1) =~= seq![mono@[0]]);
    let mut j: usize = 1;
    while j < mono.len()
        invariant
            1 <= j <= mono@.len(),
            forall|q: int| 0 <= q < mono@.len() ==> atom_in_range(#[trigger] mono@[q], ny),
            r@ == mono_regressor(mono@.take(j as int), ny as nat),
        decreases mono.len() - j,
    {
        let a = atom(mono[j], ny, nu);
        proof {
            lemma_mono_regressor_degree(mono@.take(j as int), ny as nat);
            lemma_single_factor(atom_term(mono@[j as int] as nat, ny as nat));
            lemma_product_fits_by_degree(r@, a@);
            let t = mono@.take(j + 1);
            assert(t.drop_last() =~= mono@.take(j as int));
            assert(t.last() == mono@[j as int]);
        }
        r = &r * &a;
        j = j + 1;
    }
    assert(mono@.take(j as int) =~= mono@);
    r
}

/// The regressors of a list of monomials.
pub open spec fn mono_regressors(monos: Seq<Seq<usize>>, ny: nat) -> Seq<Seq<SymbolView>> {
    monos.map_values(|m: Seq<usize>| mono_regressor(m, ny))
}

/// Every monomial over the `ny + nu` lag variables of degree `0..=degree`, with the
/// constant (empty) monomial first, then by degree and lexicographically; and the
/// regressor of each.
pub fn gen_candidates(ny: usize, nu: usize, degree: usize) -> (res: (Vec<Regressor>, Vec<Vec<usize>>))
    requires
        ny + nu <= usize::MAX,
    ensures
        forall|x: Seq<usize>|
            #[trigger] seq_views(res.1@).contains(x) <==> (nondecreasing_in(x, 0, (ny + nu) as nat)
                && x.len() <= degree),
        graded_sorted(seq_views(res.1@)),
        crate::candidates::regressor_views(res.0@) == mono_regressors(seq_views(res.1@), ny as nat),
{
    let n_vars = ny + nu;
    let mut monos: Vec<Vec<usize>> = Vec::new();
    monos.push(Vec::new());
    proof {
        assert(seq_views(monos@) =~= seq![Seq::<usize>::empty()]);
        assert forall|x: Seq<usize>|
            #[trigger] seq_views(monos@).contains(x) <==> (nondecreasing_in(x, 0, n_vars as nat)
                && x.len() <= 0) by {
            if x.len() == 0 {
                assert(x =~= Seq::<usize>::empty());
                assert(seq_views(monos@)[0] == x);
            }
        }
    }
    let mut d: usize = 0;
    while d < degree
        invariant
            d <= degree,
            n_vars == ny + nu,
            forall|x: Seq<usize>|
                #[trigger] seq_views(monos@).contains(x) <==> (nondecreasing_in(x, 0, n_vars as nat)
                    && x.len() <= d),
            graded_sorted(seq_views(monos@)),
        decreases degree - d,
    {
        d = d + 1;
        let mut cur: Vec<usize> = Vec::new();
        let ghost before = seq_views(monos@);
        cwr(n_vars, d, 0, &mut cur, &mut monos);
        proof {
            let after = seq_views(monos@);
            let block = after.subrange(before.len() as int, after.len() as int);
            assert(after.subrange(0, before.len() as int) == before);
            assert forall|x: Seq<usize>| block.contains(x) <==> (nondecreasing_in(x, 0, n_vars as nat)
                && x.len() == d) by {
                if block.contains(x) {
                    assert(is_completion(x, Seq::<usize>::empty(), n_vars as nat, d as nat, 0));
                    let t = choose|t: Seq<usize>| #![trigger Seq::<usize>::empty() + t] x == Seq::<usize>::empty() + t && t.len() + 0 == d && nondecreasing_in(t, 0, n_vars as nat);
                    assert(x =~= t);
                }
                if nondecreasing_in(x, 0, n_vars as nat) && x.len() == d {
                    assert(Seq::<usize>::empty() + x =~= x);
                    assert(is_completion(x, Seq::<usize>::empty(), n_vars as nat, d as nat, 0));
                }
            }
            assert forall|x: Seq<usize>|
                #[trigger] after.contains(x) <==> (nondecreasing_in(x, 0, n_vars as nat) && x.len()
                    <= d) by {
                if after.contains(x) {
                    let a = choose|a: int| 0 <= a < after.len() && after[a] == x;
                    if a < before.len() {
                        assert(before[a] == x);
                        assert(before.contains(x));
                    } else {
                        assert(block[a - before.len()] == x);
                        assert(block.contains(x));
                    }
                }
                if nondecreasing_in(x, 0, n_vars as nat) && x.len() <= d {
                    if x.len() < d {
                        assert(before.contains(x));
                        let a = choose|a: int| 0 <= a < before.len() && before[a] == x;
                        assert(after[a] == x);
                    } else {
                        assert(block.contains(x));
                        let a = choose|a: int| 0 <= a < block.len() && block[a] == x;
                        assert(after[a + before.len()] == x);
                    }
                }
            }
            assert forall|a: int, b: int| 0 <= a < b < after.len() implies graded_lt(#[trigger] after[a], #[trigger] after[b]) by {
                if b < before.len() {
                    assert(after[a] == before[a]);
                    assert(after[b] == before[b]);
                } else if a >= before.len() {
                    assert(after[a] == block[a - before.len()]);
                    assert(after[b] == block[b - before.len()]);
                } else {
                    assert(after[a] == before[a]);
                    assert(before.contains(after[a]));
                    assert(after[b] == block[b - before.len()]);
                    assert(block.contains(after[b]));
                }
            }
        }
    }
    let mut regs: Vec<Regressor> = Vec::new();
    let mut i: usize = 0;
    while i < monos.len()
        invariant
            i <= monos@.len(),
            n_vars == ny + nu,
            forall|x: Seq<usize>|
                #[trigger] seq_views(monos@).contains(x) ==> nondecreasing_in(x, 0, n_vars as nat),
            crate::candidates::regressor_views(regs@) == mono_regressors(seq_views(monos@), ny as nat).take(i as int),
        decreases monos.len() - i,
    {
        proof {
            assert(seq_views(monos@)[i as int] == monos@[i as int]@);
            assert(seq_views(monos@).contains(monos@[i as int]@));
            assert forall|j: int| 0 <= j < monos@[i as int]@.len() implies atom_in_range(#[trigger] monos@[i as int]@[j], ny) by {
                assert(monos@[i as int]@[j] < n_vars);
            }
        }
        let r = reg_from_mono(monos[i].as_slice(), ny, nu);
        let ghost before = regs@;
        regs.push(r);
        assert(crate::candidates::regressor_views(regs@) =~= crate::candidates::regressor_views(before).push(r@));
        assert(crate::candidates::regressor_views(regs@) =~= mono_regressors(seq_views(monos@), ny as nat).take(i + 1));
        i = i + 1;
    }
    assert(mono_regressors(seq_views(monos@), ny as nat).take(i as int) =~= mono_regressors(seq_views(monos@), ny as nat));
    (regs, monos)
}

/// The texts of the monomials' regressors, separated by `", "`.
pub fn labels(monos: &[Vec<usize>], ny: usize, nu: usize) -> (s: String)
    requires
        forall|m: int, j: int|
            0 <= m < monos@.len() && 0 <= j < monos@[m]@.len() ==> atom_in_range(#[trigger] monos@[m]@[j], ny),
    ensures
        s@ == join_texts(
            seq_views(monos@).map_values(|m: Seq<usize>| regressor_text(mono_regressor(m, ny as nat))),
            seq![',', ' '],
        ),
{
    let ghost parts = seq_views(monos@).map_values(|m: Seq<usize>| regressor_text(mono_regressor(m, ny as nat)));
    let mut out = String::new();
    let mut i: usize = 0;
    assert(parts.take(0) =~= Seq::<Seq<char>>::empty());
    while i < monos.len()
        invariant
            i <= monos@.len(),
            parts == seq_views(monos@).map_values(|m: Seq<usize>| regressor_text(mono_regressor(m, ny as nat))),
            forall|m: int, j: int|
                0 <= m < monos@.len() && 0 <= j < monos@[m]@.len() ==> atom_in_range(#[trigger] monos@[m]@[j], ny),
            out@ == join_texts(parts.take(i as int), seq![',', ' ']),
        decreases monos.len() - i,
    {
        let ghost before = out@;
        if i > 0 {
            out.append(", ");
            proof {
                reveal_strlit(", ");
            }
            assert(out@ =~= before + seq![',', ' ']);
        }
        let ghost mid = out@;
        assert forall|j: int| 0 <= j < monos@[i as int]@.len() implies atom_in_range(#[trigger] monos@[i as int]@[j], ny) by {
            assert(atom_in_range(monos@[i as int]@[j], ny));
        }
        let r = reg_from_mono(monos[i].as_slice(), ny, nu);
        let text = r.to_string();
        out.append(text.as_str());
        proof {
            let t = parts.take(i + 1);
            assert(t.drop_last() =~= parts.take(i as int));
            assert(t.last() == parts[i as int]);
            assert(parts[i as int] == regressor_text(mono_regressor(monos@[i as int]@, ny as nat)));
            if i == 0 {
                assert(out@ =~= text@);
            } else {
                assert(out@ =~= before + seq![',', ' '] + text@);
            }
        }
        i = i + 1;
    }
    assert(parts.take(i as int) =~= parts);
    out
}

} // verus!
