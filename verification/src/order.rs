//! The order in which a regressor keeps its symbols: by name (lexicographically,
//! character by character), then by lag, then by power.

use vstd::prelude::*;
use vstd::relations::total_ordering;
use crate::symbol::{Symbol, SymbolView};

verus! {

/// Strict lexicographic order on names: a proper prefix comes first.
pub open spec fn name_lt(a: Seq<char>, b: Seq<char>) -> bool
    decreases a.len(),
{
    if a.len() == 0 {
        b.len() > 0
    } else if b.len() == 0 {
        false
    } else if a[0] != b[0] {
        (a[0] as int) < (b[0] as int)
    } else {
        name_lt(a.drop_first(), b.drop_first())
    }
}

/// The variable and lag of a symbol, without its power.
pub open spec fn key_lt(x: SymbolView, y: SymbolView) -> bool {
    name_lt(x.0, y.0) || (x.0 == y.0 && x.1 < y.1)
}

/// Both symbols name the same variable at the same lag.
pub open spec fn same_key(x: SymbolView, y: SymbolView) -> bool {
    x.0 == y.0 && x.1 == y.1
}

/// Total order on symbols: name, then lag, then power.
pub open spec fn symbol_le(x: SymbolView, y: SymbolView) -> bool {
    name_lt(x.0, y.0) || (x.0 == y.0 && (x.1 < y.1 || (x.1 == y.1 && x.2 <= y.2)))
}

/// `symbol_le` as a relation, for sorting.
pub open spec fn symbol_leq() -> spec_fn(SymbolView, SymbolView) -> bool {
    |x: SymbolView, y: SymbolView| symbol_le(x, y)
}

/// No name comes before itself.
pub proof fn lemma_name_lt_irreflexive(a: Seq<char>)
    ensures
        !name_lt(a, a),
    decreases a.len(),
{
    if a.len() > 0 {
        lemma_name_lt_irreflexive(a.drop_first());
    }
}

/// Two names are never each before the other.
pub proof fn lemma_name_lt_asymmetric(a: Seq<char>, b: Seq<char>)
    ensures
        !(name_lt(a, b) && name_lt(b, a)),
    decreases a.len(),
{
    if a.len() > 0 && b.len() > 0 && a[0] == b[0] {
        lemma_name_lt_asymmetric(a.drop_first(), b.drop_first());
    }
}

/// The name order is transitive.
pub proof fn lemma_name_lt_transitive(a: Seq<char>, b: Seq<char>, c: Seq<char>)
    requires
        name_lt(a, b),
        name_lt(b, c),
    ensures
        name_lt(a, c),
    decreases a.len(),
{
    if a.len() > 0 && b.len() > 0 && c.len() > 0 && a[0] == b[0] && b[0] == c[0] {
        lemma_name_lt_transitive(a.drop_first(), b.drop_first(), c.drop_first());
    }
}

/// Of two different names, one comes first.
pub proof fn lemma_name_lt_total(a: Seq<char>, b: Seq<char>)
    ensures
        a == b || name_lt(a, b) || name_lt(b, a),
    decreases a.len(),
{
    if a.len() > 0 && b.len() > 0 {
        if a[0] == b[0] {
            lemma_name_lt_total(a.drop_first(), b.drop_first());
            if a.drop_first() == b.drop_first() {
                assert(a =~= seq![a[0]] + a.drop_first());
                assert(b =~= seq![b[0]] + b.drop_first());
            }
        } else {
            assert((a[0] as int) != (b[0] as int));
        }
    } else if a.len() == 0 && b.len() == 0 {
        assert(a =~= b);
    }
}

/// The order on symbols is a total order.
pub proof fn lemma_symbol_le_total_ordering()
    ensures
        total_ordering(symbol_leq()),
{
    assert forall|x: SymbolView| #[trigger] symbol_leq()(x, x) by {
        lemma_name_lt_irreflexive(x.0);
    }
    assert forall|x: SymbolView, y: SymbolView|
        #[trigger] symbol_leq()(x, y) && #[trigger] symbol_leq()(y, x) implies x == y by {
        lemma_name_lt_asymmetric(x.0, y.0);
        lemma_name_lt_irreflexive(x.0);
        lemma_name_lt_irreflexive(y.0);
    }
    assert forall|x: SymbolView, y: SymbolView, z: SymbolView|
        #[trigger] symbol_leq()(x, y) && #[trigger] symbol_leq()(y, z) implies symbol_leq()(x, z) by {
        if name_lt(x.0, y.0) && name_lt(y.0, z.0) {
            lemma_name_lt_transitive(x.0, y.0, z.0);
        }
    }
    assert forall|x: SymbolView, y: SymbolView|
        #[trigger] symbol_leq()(x, y) || #[trigger] symbol_leq()(y, x) by {
        lemma_name_lt_total(x.0, y.0);
    }
}

/// Whether `a` comes strictly before `b` in lexicographic order.
pub fn name_less(a: &str, b: &str) -> (r: bool)
    ensures
        r == name_lt(a@, b@),
{
    let la = a.unicode_len();
    let lb = b.unicode_len();
    let mut i: usize = 0;
    assert(a@.skip(0) =~= a@);
    assert(b@.skip(0) =~= b@);
    while i < la && i < lb
        invariant
            la == a@.len(),
            lb == b@.len(),
            i <= la,
            i <= lb,
            name_lt(a@, b@) == name_lt(a@.skip(i as int), b@.skip(i as int)),
        decreases la - i,
    {
        let ca = a.get_char(i);
        let cb = b.get_char(i);
        assert(a@.skip(i as int)[0] == ca);
        assert(b@.skip(i as int)[0] == cb);
        if ca != cb {
            return (ca as u32) < (cb as u32);
        }
        assert(a@.skip(i as int).drop_first() =~= a@.skip(i + 1));
        assert(b@.skip(i as int).drop_first() =~= b@.skip(i + 1));
        i = i + 1;
    }
    i < lb
}

/// Whether `a` comes no later than `b` in the order of symbols.
pub fn symbol_less_or_equal(a: &Symbol, b: &Symbol) -> (r: bool)
    ensures
        r == symbol_le(a@, b@),
{
    if name_less(a.name(), b.name()) {
        true
    } else if a.name_equals(b) {
        a.index() < b.index() || (a.index() == b.index() && a.power() <= b.power())
    } else {
        false
    }
}

} // verus!
