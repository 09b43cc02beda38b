//! Sorting symbols into the order of `order.rs`.

use vstd::prelude::*;
use vstd::relations::{sorted_by, total_ordering};
use vstd::seq_lib::lemma_sorted_unique;
use crate::symbol::{Symbol, SymbolView};
use crate::order::{lemma_symbol_le_total_ordering, symbol_le, symbol_leq, symbol_less_or_equal};

verus! {

broadcast use {vstd::seq_lib::group_to_multiset_ensures, vstd::multiset::group_multiset_axioms};

/// The values of a sequence of symbols.
pub open spec fn views(s: Seq<Symbol>) -> Seq<SymbolView> {
    s.map_values(|x: Symbol| x@)
}

/// The symbols of `s` in the order of `symbol_le`.
pub open spec fn sorted_view(s: Seq<SymbolView>) -> Seq<SymbolView> {
    s.sort_by(symbol_leq())
}

/// Inserting an element adds it to the multiset of the elements.
proof fn lemma_insert_to_multiset<A>(s: Seq<A>, i: int, x: A)
    requires
        0 <= i <= s.len(),
    ensures
        s.insert(i, x).to_multiset() =~= s.to_multiset().insert(x),
{
    let t = s.insert(i, x);
    assert(t.remove(i) =~= s);
    assert(t.to_multiset().remove(t[i]) =~= s.to_multiset());
    assert(t.contains(x));
}

/// A sorted sequence with the same symbols as `s` is the one `sorted_view` gives.
pub proof fn lemma_sorted_view_unique(s: Seq<SymbolView>, t: Seq<SymbolView>)
    requires
        sorted_by(t, symbol_leq()),
        t.to_multiset() == s.to_multiset(),
    ensures
        t == sorted_view(s),
{
    lemma_symbol_le_total_ordering();
    s.lemma_sort_by_ensures(symbol_leq());
    lemma_sorted_unique(t, sorted_view(s), symbol_leq());
}

/// Sorts the symbols: name, then lag, then power.
pub fn sort_symbols(v: Vec<Symbol>) -> (r: Vec<Symbol>)
    ensures
        views(r@) == sorted_view(views(v@)),
{
    let ghost orig = views(v@);
    let mut input = v;
    let mut res: Vec<Symbol> = Vec::new();
    proof {
        lemma_symbol_le_total_ordering();
        assert(views(res@) =~= Seq::<SymbolView>::empty());
    }
    while input.len() > 0
        invariant
            total_ordering(symbol_leq()),
            sorted_by(views(res@), symbol_leq()),
            views(res@).to_multiset().add(views(input@).to_multiset()) =~= orig.to_multiset(),
        decreases input.len(),
    {
        let ghost before_in = views(input@);
        let ghost before_res = views(res@);
        let x = input.pop().unwrap();
        assert(before_in =~= views(input@).push(x@));
        let mut pos: usize = 0;
        while pos < res.len() && symbol_less_or_equal(&res[pos], &x)
            invariant
                pos <= res.len(),
                forall|j: int| 0 <= j < pos ==> symbol_le(#[trigger] res@[j]@, x@),
            decreases res.len() - pos,
        {
            pos = pos + 1;
        }
        proof {
            let rv = views(res@);
            assert forall|j: int| pos <= j < rv.len() implies symbol_le(x@, #[trigger] rv[j]) by {
                assert(symbol_leq()(rv[pos as int], rv[j]) || pos == j);
                assert(!symbol_leq()(rv[pos as int], x@));
                assert(symbol_leq()(x@, rv[pos as int]));
            }
        }
        res.insert(pos, x);
        proof {
            let nv = views(res@);
            assert(nv =~= before_res.insert(pos as int, x@));
            lemma_insert_to_multiset(before_res, pos as int, x@);
            assert forall|i: int, j: int| 0 <= i < j < nv.len() implies symbol_leq()(
                #[trigger] nv[i],
                #[trigger] nv[j],
            ) by {
                if j < pos {
                } else if i > pos {
                    assert(nv[i] == before_res[i - 1]);
                    assert(nv[j] == before_res[j - 1]);
                } else if i == pos {
                    assert(nv[j] == before_res[j - 1]);
                } else if j == pos {
                } else {
                    assert(nv[j] == before_res[j - 1]);
                    assert(symbol_leq()(nv[i], x@));
                    assert(symbol_leq()(x@, nv[j]));
                }
            }
        }
    }
    proof {
        assert(views(input@) =~= Seq::<SymbolView>::empty());
        assert(views(input@).to_multiset() =~= vstd::multiset::Multiset::empty());
        assert(views(res@).to_multiset() =~= orig.to_multiset());
        lemma_sorted_view_unique(orig, views(res@));
    }
    res
}

} // verus!
