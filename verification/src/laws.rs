//! Properties of regressor products, equality, evaluation, text, the monomial
//! numbering, sample files and pruning that hold for all inputs of the stated shape.

use vstd::prelude::*;
use vstd::relations::sorted_by;
use crate::symbol::SymbolView;
use crate::layout::{is_least_window, term_window};
use crate::narmax_method::selection::{
    columns, drop_at, not_in, open_columns, other_than, trial_pending, without,
};
use crate::order::{name_lt, symbol_leq};
use crate::text::{decimal, digit_char, regressor_text, term_text};
use crate::monomials::{atom_term, lex_lt, mono_regressor};
use crate::dataset::{
    CARRIAGE_RETURN, COMMA, NEWLINE, fields_of, find_byte, lemma_find_byte, lines_of, row_columns,
};
use crate::sorting::{lemma_sorted_view_unique, sorted_view};
use crate::terms::{
    canonical, degree, degree_weight, distinct_keys, key_weight, lemma_additive_weights,
    lemma_canonical_unique, lemma_keyed_unique, lemma_product_canonical, lemma_product_keys, lemma_product_weight,
    lemma_regressor_eq_sorted, lemma_single_factor, lemma_sorted_canonical, positive_powers,
    power_of, product_view, regressor_eq, terms_within, weight,
};

verus! {

/// The degree of a product is the sum of the factors' degrees.
pub proof fn law_product_degree(a: Seq<SymbolView>, b: Seq<SymbolView>)
    ensures
        degree(product_view(a, b)) == degree(a) + degree(b),
{
    lemma_additive_weights(Seq::<char>::empty(), 0);
    lemma_product_weight(a, b, degree_weight());
}

/// In a product, the power of each variable at each lag is the sum of its powers in
/// the factors.
pub proof fn law_product_powers(a: Seq<SymbolView>, b: Seq<SymbolView>, name: Seq<char>, index: nat)
    ensures
        power_of(product_view(a, b), name, index) == power_of(a, name, index) + power_of(
            b,
            name,
            index,
        ),
{
    lemma_additive_weights(name, index);
    lemma_product_weight(a, b, key_weight(name, index));
}

/// A single factor of power one is canonical.
pub proof fn law_single_factor_canonical(name: Seq<char>, index: nat)
    ensures
        canonical(seq![(name, index, 1nat)]),
{
    lemma_single_factor((name, index, 1nat));
}

/// Multiplying a canonical regressor by factors of positive power gives a canonical
/// regressor.
pub proof fn law_product_canonical(a: Seq<SymbolView>, b: Seq<SymbolView>)
    requires
        canonical(a),
        positive_powers(b),
    ensures
        canonical(product_view(a, b)),
{
    lemma_product_canonical(a, b);
}

/// The product of regressors that each name every variable-lag pair at most once
/// (whatever the powers, zero included) does not depend on the order of the factors.
pub proof fn law_product_commutative(a: Seq<SymbolView>, b: Seq<SymbolView>)
    requires
        distinct_keys(a),
        distinct_keys(b),
    ensures
        product_view(a, b) == product_view(b, a),
{
    lemma_product_keys(a, b);
    lemma_product_keys(b, a);
    lemma_keyed_unique(product_view(a, b), product_view(b, a));
}

/// The product of regressors that each name every variable-lag pair at most once
/// (whatever the powers, zero included) does not depend on how the factors are grouped.
pub proof fn law_product_associative(a: Seq<SymbolView>, b: Seq<SymbolView>, c: Seq<SymbolView>)
    requires
        distinct_keys(a),
        distinct_keys(b),
        distinct_keys(c),
    ensures
        product_view(product_view(a, b), c) == product_view(a, product_view(b, c)),
{
    lemma_product_keys(a, b);
    lemma_product_keys(b, c);
    lemma_product_keys(product_view(a, b), c);
    lemma_product_keys(a, product_view(b, c));
    lemma_keyed_unique(product_view(product_view(a, b), c), product_view(a, product_view(b, c)));
}

/// Multiplying two powers of one variable at one lag adds the powers.
pub proof fn law_product_merges_powers(name: Seq<char>, index: nat, p: nat, q: nat)
    requires
        p >= 1,
        q >= 1,
    ensures
        product_view(seq![(name, index, p)], seq![(name, index, q)]) == seq![(name, index, p + q)],
{
    let a = seq![(name, index, p)];
    let b = seq![(name, index, q)];
    let c = seq![(name, index, p + q)];
    lemma_single_factor((name, index, p));
    lemma_single_factor((name, index, q));
    lemma_single_factor((name, index, p + q));
    lemma_product_canonical(a, b);
    assert forall|n: Seq<char>, i: nat| #[trigger] power_of(product_view(a, b), n, i) == power_of(c, n, i) by {
        lemma_additive_weights(n, i);
    }
    lemma_canonical_unique(product_view(a, b), c);
}

/// Regressor equality is an equivalence relation on all term lists, repeated terms
/// included: it is equality of the sets of terms between lists of one length. It holds
/// exactly when the one-way check (as many terms, every term of the left in the right)
/// holds in both directions.
pub proof fn law_regressor_eq_equivalence(a: Seq<SymbolView>, b: Seq<SymbolView>, c: Seq<SymbolView>)
    ensures
        regressor_eq(a, a),
        regressor_eq(a, b) <==> regressor_eq(b, a),
        regressor_eq(a, b) && regressor_eq(b, c) ==> regressor_eq(a, c),
        regressor_eq(a, b) <==> (a.len() == b.len() && a.to_set() == b.to_set()),
        regressor_eq(a, b) <==> (terms_within(a, b) && terms_within(b, a)),
{
    assert forall|i: int| 0 <= i < a.len() implies a.contains(#[trigger] a[i]) by {}
    if regressor_eq(a, b) && regressor_eq(b, c) {
        assert forall|i: int| 0 <= i < a.len() implies c.contains(#[trigger] a[i]) by {
            assert(b.contains(a[i]));
            let j = choose|j: int| 0 <= j < b.len() && b[j] == a[i];
            assert(c.contains(b[j]));
        }
        assert forall|k: int| 0 <= k < c.len() implies a.contains(#[trigger] c[k]) by {
            assert(b.contains(c[k]));
            let j = choose|j: int| 0 <= j < b.len() && b[j] == c[k];
            assert(a.contains(b[j]));
        }
    }
    if regressor_eq(a, b) {
        assert forall|x: SymbolView| a.to_set().contains(x) == b.to_set().contains(x) by {
            if a.contains(x) {
                let i = choose|i: int| 0 <= i < a.len() && a[i] == x;
                assert(b.contains(a[i]));
            }
            if b.contains(x) {
                let j = choose|j: int| 0 <= j < b.len() && b[j] == x;
                assert(a.contains(b[j]));
            }
        }
        assert(a.to_set() =~= b.to_set());
    }
    if a.len() == b.len() && a.to_set() == b.to_set() {
        assert forall|i: int| 0 <= i < a.len() implies b.contains(#[trigger] a[i]) by {
            assert(a.to_set().contains(a[i]));
        }
        assert forall|j: int| 0 <= j < b.len() implies a.contains(#[trigger] b[j]) by {
            assert(b.to_set().contains(b[j]));
        }
    }
}

/// On sorted term lists without repeated terms (which is what `new`, products and
/// `from` on distinct terms build), regressor equality is equality of the term lists.
pub proof fn law_regressor_eq_sorted(a: Seq<SymbolView>, b: Seq<SymbolView>)
    requires
        sorted_by(a, symbol_leq()),
        sorted_by(b, symbol_leq()),
        a.no_duplicates(),
        b.no_duplicates(),
    ensures
        regressor_eq(a, b) <==> a == b,
{
    lemma_regressor_eq_sorted(a, b);
}

/// Building a regressor from terms does not depend on the order of the terms.
pub proof fn law_from_order_insensitive(s: Seq<SymbolView>, t: Seq<SymbolView>)
    requires
        s.to_multiset() == t.to_multiset(),
    ensures
        sorted_view(s) == sorted_view(t),
{
    crate::order::lemma_symbol_le_total_ordering();
    s.lemma_sort_by_ensures(symbol_leq());
    lemma_sorted_view_unique(t, sorted_view(s));
}

/// Building a regressor from terms that are already in order keeps them as they are.
pub proof fn law_from_sorted_keeps_terms(s: Seq<SymbolView>)
    requires
        sorted_by(s, symbol_leq()),
    ensures
        sorted_view(s) == s,
{
    lemma_sorted_view_unique(s, s);
}

/// Terms with distinct variable-lag pairs and positive powers make a canonical regressor.
pub proof fn law_from_canonical(s: Seq<SymbolView>)
    requires
        distinct_keys(s),
        positive_powers(s),
    ensures
        canonical(sorted_view(s)),
{
    lemma_sorted_canonical(s);
}

/// Over buffers of one common length, the evaluation over whole buffers reads, for its
/// value number `i`, exactly the samples that the evaluation at instant `m + i` reads,
/// where `m` is the largest lag of the terms; those samples all lie in the buffers, and
/// the whole-buffer evaluation has `n - m` values.
pub proof fn law_layout_matches_positions(
    r: Seq<SymbolView>,
    lens: Seq<usize>,
    n: nat,
    m: nat,
    least: nat,
    i: nat,
)
    requires
        lens.len() == r.len(),
        forall|t: int| 0 <= t < lens.len() ==> #[trigger] lens[t] == n,
        forall|t: int| 0 <= t < r.len() ==> #[trigger] r[t].1 <= m,
        exists|t: int| 0 <= t < r.len() && #[trigger] r[t].1 == m,
        is_least_window(r, lens, least),
        i < least,
    ensures
        m <= n,
        least == n - m,
        forall|t: int|
            0 <= t < r.len() ==> (#[trigger] term_window(r, lens, t) - least) + i == (m + i) - r[t].1,
        forall|t: int| 0 <= t < r.len() ==> #[trigger] r[t].1 <= m + i && (m + i) - r[t].1 < lens[t],
{
    let top = choose|t: int| 0 <= t < r.len() && #[trigger] r[t].1 == m;
    assert(least <= term_window(r, lens, top));
    assert(m <= n);
    let w = choose|t: int| 0 <= t < r.len() && #[trigger] term_window(r, lens, t) == least;
    assert(r[w].1 <= m);
    assert(lens[w] == n);
    assert(least == n - m);
}

/// A removal that pruning makes takes out exactly one occurrence of the term at the
/// current position, keeps the others in order, and leaves at least one term.
pub proof fn law_pruning_removal(s: Seq<usize>, i: int)
    requires
        0 <= i < s.len(),
        s.len() > 1,
    ensures
        drop_at(s, i).len() == s.len() - 1,
        drop_at(s, i).len() >= 1,
        drop_at(s, i).to_multiset() == s.to_multiset().remove(s[i]),
        forall|j: int| 0 <= j < i ==> #[trigger] drop_at(s, i)[j] == s[j],
        forall|j: int| i <= j < s.len() - 1 ==> #[trigger] drop_at(s, i)[j] == s[j + 1],
{
    assert(drop_at(s, i) =~= s.remove(i));
    s.to_multiset_ensures();
}

/// Taking a newly selected column out of the open columns leaves the columns that the
/// extended selection does not hold: the open list kept by forward selection always
/// agrees with the one computed afresh.
pub proof fn law_open_columns_after_selection(m: nat, selected: Seq<usize>, j: usize)
    ensures
        without(open_columns(m, selected), j) == open_columns(m, selected.push(j)),
{
    lemma_filter_twice(columns(m), selected, j);
}

/// Filtering out the columns of `selected` and then `j` is filtering out those of
/// `selected.push(j)`, on every prefix.
proof fn lemma_filter_twice(c: Seq<usize>, selected: Seq<usize>, j: usize)
    ensures
        c.filter(not_in(selected)).filter(other_than(j)) == c.filter(not_in(selected.push(j))),
    decreases c.len(),
{
    reveal(Seq::filter);
    if c.len() > 0 {
        lemma_filter_twice(c.drop_last(), selected, j);
        let x = c.last();
        assert(selected.push(j).contains(x) <==> (selected.contains(x) || x == j)) by {
            if selected.push(j).contains(x) {
                let k = choose|k: int| 0 <= k < selected.push(j).len() && selected.push(j)[k] == x;
                if k < selected.len() {
                    assert(selected[k] == x);
                }
            }
            if selected.contains(x) {
                let k = choose|k: int| 0 <= k < selected.len() && selected[k] == x;
                assert(selected.push(j)[k] == x);
            }
            if x == j {
                assert(selected.push(j)[selected.len() as int] == x);
            }
        }
        let a = c.drop_last().filter(not_in(selected));
        if !selected.contains(x) {
            assert(c.filter(not_in(selected)) == a.push(x));
            assert(a.push(x).drop_last() =~= a);
        } else {
            assert(c.filter(not_in(selected)) == a);
        }
    } else {
        assert(c.filter(not_in(selected)) == c);
    }
}

/// Digit `d` is written as the ASCII digit of code `'0' + d`.
pub proof fn law_digit_chars(d: nat)
    requires
        d < 10,
    ensures
        digit_char(d) as int == '0' as int + d,
{
}

/// The number that a string of decimal digits reads as.
pub open spec fn digits_value(s: Seq<char>) -> int
    decreases s.len(),
{
    if s.len() == 0 {
        0
    } else {
        digits_value(s.drop_last()) * 10 + (s.last() as int - '0' as int)
    }
}

/// The decimal text of `n` is made of ASCII digits, has no leading zero, and reads
/// back as `n`.
pub proof fn law_decimal_reads_back(n: nat)
    ensures
        decimal(n).len() >= 1,
        forall|i: int| 0 <= i < decimal(n).len() ==> '0' as int <= #[trigger] decimal(n)[i] as int <= '9' as int,
        decimal(n)[0] == '0' ==> n == 0,
        digits_value(decimal(n)) == n,
    decreases n,
{
    if n < 10 {
        law_digit_chars(n);
        let d = decimal(n);
        assert(d.drop_last() =~= Seq::<char>::empty());
        assert(digits_value(d.drop_last()) == 0);
        assert(d.last() == digit_char(n));
        assert(digits_value(d) == digits_value(d.drop_last()) * 10 + (d.last() as int - '0' as int));
    } else {
        let q = n / 10;
        let r = n % 10;
        law_decimal_reads_back(q);
        law_digit_chars(r);
        let d = decimal(n);
        assert(d == decimal(q) + seq![digit_char(r)]);
        assert(d.drop_last() =~= decimal(q));
        assert(d[0] == decimal(q)[0]);
        assert(q >= 1);
        assert forall|i: int| 0 <= i < d.len() implies '0' as int <= #[trigger] d[i] as int <= '9' as int by {
            if i < decimal(q).len() {
                assert(d[i] == decimal(q)[i]);
            }
        }
        assert(d.last() == digit_char(r));
        assert(digits_value(d) == digits_value(d.drop_last()) * 10 + (d.last() as int - '0' as int));
        assert(digits_value(d) == q * 10 + r);
        assert(n == q * 10 + r);
    }
}

/// Variable numbers `0..ny` stand for `y(k-1), ..., y(k-ny)` and the numbers from
/// `ny` on for `u(k-1), u(k-2), ...`, each to the power one; distinct numbers stand
/// for distinct atoms.
pub proof fn law_atom_numbering(ny: nat, i: nat, j: nat)
    ensures
        i < ny ==> atom_term(i, ny) == (seq!['y'], i + 1, 1nat),
        i >= ny ==> atom_term(i, ny) == (seq!['u'], (i - ny + 1) as nat, 1nat),
        i != j ==> atom_term(i, ny) != atom_term(j, ny),
{
    if i != j && atom_term(i, ny) == atom_term(j, ny) {
        assert(atom_term(i, ny).0 == atom_term(j, ny).0);
        if i < ny && j >= ny {
            assert(seq!['y'][0] != seq!['u'][0]);
        } else if i >= ny && j < ny {
            assert(seq!['y'][0] != seq!['u'][0]);
        }
    }
}

/// A piece of text before the first `b` in `f + [b] + r` is `f` when `f` has no `b`.
proof fn lemma_find_first(f: Seq<u8>, b: u8, r: Seq<u8>)
    requires
        !f.contains(b),
    ensures
        find_byte(f + seq![b] + r, b) == f.len(),
        find_byte(f, b) == f.len(),
        (f + seq![b] + r).take(f.len() as int) == f,
        (f + seq![b] + r).skip(f.len() as int + 1) == r,
{
    let t = f + seq![b] + r;
    assert forall|k: int| 0 <= k < f.len() implies t[k] != b by {
        assert(t[k] == f[k]);
    }
    assert(t[f.len() as int] == b);
    lemma_find_byte(t, b, f.len() as int);
    lemma_find_byte(f, b, f.len() as int);
    assert(t.take(f.len() as int) =~= f);
    assert(t.skip(f.len() as int + 1) =~= r);
}

/// A line splits at its first comma: the text before it is the first field.
proof fn lemma_fields_split(f: Seq<u8>, r: Seq<u8>)
    requires
        !f.contains(COMMA),
    ensures
        fields_of(f + seq![COMMA] + r) == seq![f] + fields_of(r),
        fields_of(f) == seq![f],
{
    lemma_find_first(f, COMMA, r);
}

/// The input and output of a sample line are its second and third comma-separated
/// fields, whatever the first field (the index) holds and however long it is; further
/// fields are ignored. A line with fewer than two commas gives nothing.
pub proof fn law_row_columns_fields(f0: Seq<u8>, f1: Seq<u8>, f2: Seq<u8>, rest: Seq<u8>)
    requires
        !f0.contains(COMMA),
        !f1.contains(COMMA),
        !f2.contains(COMMA),
        rest.len() == 0 || rest[0] == COMMA,
    ensures
        row_columns(f0 + seq![COMMA] + f1 + seq![COMMA] + f2 + rest) == Some((f1, f2)),
        row_columns(f0) is None,
        row_columns(f0 + seq![COMMA] + f1) is None,
{
    let tail2 = f2 + rest;
    if rest.len() == 0 {
        assert(tail2 =~= f2);
        lemma_fields_split(f2, Seq::<u8>::empty());
    } else {
        assert(tail2 =~= f2 + seq![COMMA] + rest.skip(1));
        lemma_fields_split(f2, rest.skip(1));
    }
    assert(fields_of(tail2)[0] == f2);
    let tail1 = f1 + seq![COMMA] + tail2;
    lemma_fields_split(f1, tail2);
    let l = f0 + seq![COMMA] + f1 + seq![COMMA] + f2 + rest;
    assert(l =~= f0 + seq![COMMA] + tail1);
    lemma_fields_split(f0, tail1);
    assert(fields_of(l) == seq![f0] + (seq![f1] + fields_of(tail2)));
    assert(fields_of(l).len() >= 3);
    assert(fields_of(l)[1] == f1);
    assert(fields_of(l)[2] == f2);
    lemma_fields_split(f0, f1);
    lemma_fields_split(f1, Seq::<u8>::empty());
}

/// The text splits into lines at each line feed; a carriage return just before the
/// line feed is not part of the line, and a last line needs no line feed.
pub proof fn law_lines_split(l: Seq<u8>, rest: Seq<u8>)
    requires
        !l.contains(NEWLINE),
        l.len() == 0 || l.last() != CARRIAGE_RETURN,
    ensures
        lines_of(l + seq![NEWLINE] + rest) == seq![l] + lines_of(rest),
        lines_of(l + seq![CARRIAGE_RETURN, NEWLINE] + rest) == seq![l] + lines_of(rest),
        l.len() > 0 ==> lines_of(l) == seq![l],
        lines_of(Seq::<u8>::empty()) == Seq::<Seq<u8>>::empty(),
{
    lemma_find_first(l, NEWLINE, rest);
    let t = l + seq![NEWLINE] + rest;
    assert(t.len() > 0);
    let lc = l.push(CARRIAGE_RETURN);
    assert(!lc.contains(NEWLINE)) by {
        if lc.contains(NEWLINE) {
            let k = choose|k: int| 0 <= k < lc.len() && lc[k] == NEWLINE;
            if k < l.len() {
                assert(l[k] == lc[k]);
            }
        }
    }
    lemma_find_first(lc, NEWLINE, rest);
    assert(l + seq![CARRIAGE_RETURN, NEWLINE] + rest =~= lc + seq![NEWLINE] + rest);
    assert(lc.last() == CARRIAGE_RETURN);
    assert(lc.drop_last() =~= l);
}

/// While more than one term is selected, a pruning pass offers every position of the
/// selection for removal, from the first to the last, however many terms there are;
/// past the last position, or with a single term left, it offers none.
pub proof fn law_pruning_offers_every_position(sel: Seq<usize>, k: nat, removed: bool)
    ensures
        k < sel.len() && sel.len() > 1 ==> trial_pending((sel, k, removed)),
        k >= sel.len() ==> !trial_pending((sel, k, removed)),
        sel.len() <= 1 ==> !trial_pending((sel, k, removed)),
{
}

/// A factor is written `name(k-lag)^power`: the name, `(k`, then `-` and the lag in
/// decimal unless the lag is zero, then `)`, then `^` and the power in decimal unless
/// the power is one.
pub proof fn law_term_text_layout(name: Seq<char>, lag: nat, power: nat)
    ensures
        lag > 0 && power != 1 ==> term_text((name, lag, power)) == name + seq!['(', 'k', '-'] + decimal(lag)
            + seq![')', '^'] + decimal(power),
        lag > 0 && power == 1 ==> term_text((name, lag, power)) == name + seq!['(', 'k', '-'] + decimal(lag)
            + seq![')'],
        lag == 0 && power != 1 ==> term_text((name, lag, power)) == name + seq!['(', 'k', ')', '^']
            + decimal(power),
        lag == 0 && power == 1 ==> term_text((name, lag, power)) == name + seq!['(', 'k', ')'],
{
    let t = (name, lag, power);
    if lag > 0 && power != 1 {
        assert(term_text(t) =~= name + seq!['(', 'k', '-'] + decimal(lag) + seq![')', '^'] + decimal(power));
    }
    if lag > 0 && power == 1 {
        assert(term_text(t) =~= name + seq!['(', 'k', '-'] + decimal(lag) + seq![')']);
    }
    if lag == 0 && power != 1 {
        assert(term_text(t) =~= name + seq!['(', 'k', ')', '^'] + decimal(power));
    }
    if lag == 0 && power == 1 {
        assert(term_text(t) =~= name + seq!['(', 'k', ')']);
    }
}

/// A regressor is written as its factors' texts in order, joined by `*`; a regressor
/// without factors is written as nothing.
pub proof fn law_regressor_text_join(ts: Seq<SymbolView>, t: SymbolView)
    ensures
        regressor_text(Seq::<SymbolView>::empty()) == Seq::<char>::empty(),
        regressor_text(seq![t]) == term_text(t),
        ts.len() > 0 ==> regressor_text(ts.push(t)) == regressor_text(ts) + seq!['*'] + term_text(t),
{
    assert(seq![t][0] == t);
    if ts.len() > 0 {
        assert(ts.push(t).drop_last() =~= ts);
    }
}

/// Filtering a strictly increasing sequence keeps it strictly increasing and keeps
/// exactly the elements that the predicate admits.
proof fn lemma_filter_increasing(s: Seq<usize>, p: spec_fn(usize) -> bool)
    requires
        forall|a: int, b: int| 0 <= a < b < s.len() ==> #[trigger] s[a] < #[trigger] s[b],
    ensures
        forall|a: int, b: int|
            0 <= a < b < s.filter(p).len() ==> #[trigger] s.filter(p)[a] < #[trigger] s.filter(p)[b],
        forall|x: usize| #[trigger] s.filter(p).contains(x) <==> (s.contains(x) && p(x)),
        forall|a: int| 0 <= a < s.filter(p).len() ==> s.contains(#[trigger] s.filter(p)[a]),
    decreases s.len(),
{
    reveal(Seq::filter);
    if s.len() > 0 {
        let d = s.drop_last();
        lemma_filter_increasing(d, p);
        let f = d.filter(p);
        let x = s.last();
        assert forall|a: int| 0 <= a < f.len() implies #[trigger] f[a] < x by {
            assert(d.contains(f[a]));
            let k = choose|k: int| 0 <= k < d.len() && d[k] == f[a];
            assert(s[k] == d[k]);
            assert(s[s.len() - 1] == x);
        }
        assert forall|y: usize| s.contains(y) <==> (d.contains(y) || y == x) by {
            if s.contains(y) {
                let k = choose|k: int| 0 <= k < s.len() && s[k] == y;
                if k < d.len() {
                    assert(d[k] == s[k]);
                }
            }
            if d.contains(y) {
                let k = choose|k: int| 0 <= k < d.len() && d[k] == y;
                assert(s[k] == d[k]);
            }
            if y == x {
                assert(s[s.len() - 1] == x);
            }
        }
        if p(x) {
            assert(s.filter(p) == f.push(x));
            assert forall|y: usize| f.push(x).contains(y) <==> (f.contains(y) || y == x) by {
                if f.push(x).contains(y) {
                    let k = choose|k: int| 0 <= k < f.push(x).len() && f.push(x)[k] == y;
                    if k < f.len() {
                        assert(f[k] == f.push(x)[k]);
                    }
                }
                if f.contains(y) {
                    let k = choose|k: int| 0 <= k < f.len() && f[k] == y;
                    assert(f.push(x)[k] == f[k]);
                }
                if y == x {
                    assert(f.push(x)[f.len() as int] == x);
                }
            }
            assert forall|a: int, b: int|
                0 <= a < b < f.push(x).len() implies #[trigger] f.push(x)[a] < #[trigger] f.push(x)[b] by {
                if b < f.len() {
                    assert(f.push(x)[a] == f[a] && f.push(x)[b] == f[b]);
                } else {
                    assert(f.push(x)[a] == f[a]);
                }
            }
            assert forall|a: int| 0 <= a < f.push(x).len() implies s.contains(#[trigger] f.push(x)[a]) by {
                if a < f.len() {
                    assert(f.push(x)[a] == f[a]);
                    assert(d.contains(f[a]));
                } else {
                    assert(s[s.len() - 1] == x);
                }
            }
        } else {
            assert(s.filter(p) == f);
            assert forall|a: int| 0 <= a < f.len() implies s.contains(#[trigger] f[a]) by {
                assert(d.contains(f[a]));
            }
        }
    }
}

/// The open columns are the columns below `m` that the selection does not hold, in
/// strictly increasing order; taking `j` out of a sequence keeps every other element.
pub proof fn law_open_columns_members(m: usize, selected: Seq<usize>, s: Seq<usize>, j: usize, x: usize)
    ensures
        open_columns(m as nat, selected).contains(x) <==> (x < m && !selected.contains(x)),
        forall|a: int, b: int|
            0 <= a < b < open_columns(m as nat, selected).len() ==> #[trigger] open_columns(m as nat, selected)[a]
                < #[trigger] open_columns(m as nat, selected)[b],
        without(s, j).contains(x) <==> (s.contains(x) && x != j),
{
    let c = columns(m as nat);
    assert forall|a: int, b: int| 0 <= a < b < c.len() implies #[trigger] c[a] < #[trigger] c[b] by {
        assert(c[a] == a as usize && c[b] == b as usize);
    }
    lemma_filter_increasing(c, not_in(selected));
    assert(c.contains(x) <==> x < m) by {
        if x < m {
            assert(c[x as int] == x);
        }
        if c.contains(x) {
            let k = choose|k: int| 0 <= k < c.len() && c[k] == x;
            assert(c[k] == k as usize);
        }
    }
    reveal(Seq::filter);
    if s.filter(other_than(j)).contains(x) {
        s.lemma_filter_contains_rev(other_than(j), x);
        let k = choose|k: int| 0 <= k < s.filter(other_than(j)).len() && s.filter(other_than(j))[k] == x;
        s.lemma_filter_pred(other_than(j), k);
    }
    if s.contains(x) && x != j {
        let k = choose|k: int| 0 <= k < s.len() && s[k] == x;
        s.lemma_filter_contains(other_than(j), k);
    }
}

/// The regressor of a monomial carries each variable of the numbering to the power of
/// the number of times the monomial lists it: variable `i` is the atom numbered `i`,
/// and its power in the product is the count of `i` in the monomial.
pub proof fn law_monomial_powers(mono: Seq<usize>, ny: nat, i: usize)
    ensures
        power_of(mono_regressor(mono, ny), atom_term(i as nat, ny).0, atom_term(i as nat, ny).1)
            == mono.to_multiset().count(i),
    decreases mono.len(),
{
    let key = key_weight(atom_term(i as nat, ny).0, atom_term(i as nat, ny).1);
    mono.to_multiset_ensures();
    if mono.len() == 0 {
        assert(!mono.contains(i));
    } else {
        let d = mono.drop_last();
        let x = mono.last();
        assert(mono =~= d.push(x));
        d.to_multiset_ensures();
        law_atom_numbering(ny, x as nat, i as nat);
        let a = atom_term(x as nat, ny);
        lemma_single_factor(a);
        assert(weight(seq![a], key) == key(a));
        assert(key(a) == if x == i { 1nat } else { 0nat }) by {
            if x != i {
                law_atom_numbering(ny, i as nat, x as nat);
                assert(atom_term(i as nat, ny).2 == 1 && a.2 == 1);
            }
        }
        if mono.len() == 1 {
            assert(d.len() == 0);
            assert(!d.contains(i));
            assert(mono_regressor(mono, ny) == seq![a]);
        } else {
            law_monomial_powers(d, ny, i);
            lemma_additive_weights(atom_term(i as nat, ny).0, atom_term(i as nat, ny).1);
            lemma_product_weight(mono_regressor(d, ny), seq![a], key);
        }
    }
}

/// `a` and `b` agree before position `p`, and at `p` either `a` has ended while `b`
/// goes on, or both go on and `a` holds the smaller index.
pub open spec fn first_difference(a: Seq<usize>, b: Seq<usize>, p: int) -> bool {
    &&& 0 <= p <= a.len()
    &&& p <= b.len()
    &&& a.take(p) == b.take(p)
    &&& ((p == a.len() && p < b.len()) || (p < a.len() && p < b.len() && a[p] < b[p]))
}

/// The monomial order is the lexicographic order: `a` comes before `b` exactly when
/// at their first difference `a` has ended or holds the smaller index.
pub proof fn law_lex_order(a: Seq<usize>, b: Seq<usize>)
    ensures
        lex_lt(a, b) <==> exists|p: int| #[trigger] first_difference(a, b, p),
    decreases a.len(),
{
    if a.len() == 0 {
        if b.len() > 0 {
            assert(a.take(0) =~= b.take(0));
            assert(first_difference(a, b, 0));
        }
    } else if b.len() == 0 {
        if exists|p: int| #[trigger] first_difference(a, b, p) {
            let p = choose|p: int| #[trigger] first_difference(a, b, p);
        }
    } else if a[0] != b[0] {
        if a[0] < b[0] {
            assert(a.take(0) =~= b.take(0));
            assert(first_difference(a, b, 0));
        }
        if exists|p: int| #[trigger] first_difference(a, b, p) {
            let p = choose|p: int| #[trigger] first_difference(a, b, p);
            if p > 0 {
                assert(a.take(p)[0] == b.take(p)[0]);
            }
        }
    } else {
        let a1 = a.drop_first();
        let b1 = b.drop_first();
        law_lex_order(a1, b1);
        if lex_lt(a1, b1) {
            let q = choose|q: int| #[trigger] first_difference(a1, b1, q);
            assert forall|k: int| 0 <= k < q + 1 implies #[trigger] a.take(q + 1)[k] == b.take(q + 1)[k] by {
                if k > 0 {
                    assert(a1.take(q)[k - 1] == b1.take(q)[k - 1]);
                }
            }
            assert(a.take(q + 1) =~= b.take(q + 1));
            assert(first_difference(a, b, q + 1));
        }
        if exists|p: int| #[trigger] first_difference(a, b, p) {
            let p = choose|p: int| #[trigger] first_difference(a, b, p);
            assert(p > 0);
            assert forall|k: int| 0 <= k < p - 1 implies #[trigger] a1.take(p - 1)[k] == b1.take(p - 1)[k] by {
                assert(a.take(p)[k + 1] == b.take(p)[k + 1]);
            }
            assert(a1.take(p - 1) =~= b1.take(p - 1));
            assert(first_difference(a1, b1, p - 1));
        }
    }
}

/// Names `a` and `b` agree before position `p`, and at `p` either `a` has ended while
/// `b` goes on, or both go on and `a` holds the character of smaller code.
pub open spec fn name_first_difference(a: Seq<char>, b: Seq<char>, p: int) -> bool {
    &&& 0 <= p <= a.len()
    &&& p <= b.len()
    &&& a.take(p) == b.take(p)
    &&& ((p == a.len() && p < b.len()) || (p < a.len() && p < b.len() && (a[p] as int) < (b[p] as int)))
}

/// Names are ordered lexicographically by character code, a proper prefix first, as
/// strings compare.
pub proof fn law_name_order(a: Seq<char>, b: Seq<char>)
    ensures
        name_lt(a, b) <==> exists|p: int| #[trigger] name_first_difference(a, b, p),
    decreases a.len(),
{
    if a.len() == 0 {
        if b.len() > 0 {
            assert(a.take(0) =~= b.take(0));
            assert(name_first_difference(a, b, 0));
        }
    } else if b.len() == 0 {
        if exists|p: int| #[trigger] name_first_difference(a, b, p) {
            let p = choose|p: int| #[trigger] name_first_difference(a, b, p);
        }
    } else if a[0] != b[0] {
        if (a[0] as int) < (b[0] as int) {
            assert(a.take(0) =~= b.take(0));
            assert(name_first_difference(a, b, 0));
        }
        if exists|p: int| #[trigger] name_first_difference(a, b, p) {
            let p = choose|p: int| #[trigger] name_first_difference(a, b, p);
            if p > 0 {
                assert(a.take(p)[0] == b.take(p)[0]);
            }
        }
    } else {
        let a1 = a.drop_first();
        let b1 = b.drop_first();
        law_name_order(a1, b1);
        if name_lt(a1, b1) {
            let q = choose|q: int| #[trigger] name_first_difference(a1, b1, q);
            assert forall|k: int| 0 <= k < q + 1 implies #[trigger] a.take(q + 1)[k] == b.take(q + 1)[k] by {
                if k > 0 {
                    assert(a1.take(q)[k - 1] == b1.take(q)[k - 1]);
                }
            }
            assert(a.take(q + 1) =~= b.take(q + 1));
            assert(name_first_difference(a, b, q + 1));
        }
        if exists|p: int| #[trigger] name_first_difference(a, b, p) {
            let p = choose|p: int| #[trigger] name_first_difference(a, b, p);
            assert(p > 0);
            assert forall|k: int| 0 <= k < p - 1 implies #[trigger] a1.take(p - 1)[k] == b1.take(p - 1)[k] by {
                assert(a.take(p)[k + 1] == b.take(p)[k + 1]);
            }
            assert(a1.take(p - 1) =~= b1.take(p - 1));
            assert(name_first_difference(a1, b1, p - 1));
        }
    }
}

} // verus!
