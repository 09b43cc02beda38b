//! A regressor: a product of lagged symbols, such as `y(k-1)^2*u(k-2)`.

use vstd::prelude::*;
use crate::symbol::{NameSource, Symbol, SymbolView};
use crate::sorting::{sort_symbols, sorted_view, views};
use crate::order::{lemma_symbol_le_total_ordering, same_key, symbol_leq};
use vstd::relations::sorted_by;
use crate::text::{push_term_text, regressor_text};
use crate::terms::{
    key_pos, lemma_key_pos, lemma_merge_all_prefix, merge_all, merge_in, product_fits,
    product_view, regressor_eq,
};

verus! {

/// A product of symbols. The terms are always kept in the order of `order::symbol_le`,
/// so two regressors without repeated terms are equal exactly when their term lists
/// are.
#[derive(Debug, Hash)]
pub struct Regressor {
    terms: Vec<Symbol>,
}

impl View for Regressor {
    type V = Seq<SymbolView>;

    closed spec fn view(&self) -> Seq<SymbolView> {
        views(self.terms@)
    }
}

impl Regressor {
    /// The terms are sorted.
    #[verifier::type_invariant]
    spec fn sorted_terms(self) -> bool {
        sorted_by(views(self.terms@), symbol_leq())
    }

    /// The single-factor regressor `name(k - index)`.
    pub fn new<N: NameSource>(name: N, index: usize) -> (r: Regressor)
        ensures
            r@ == seq![(name.name_view(), index as nat, 1nat)],
    {
        let mut terms: Vec<Symbol> = Vec::new();
        terms.push(Symbol::new(name, index, 1));
        assert(views(terms@).len() == 1);
        let r = Regressor { terms };
        assert(r@ =~= seq![(name.name_view(), index as nat, 1nat)]);
        r
    }

    pub fn terms(&self) -> (t: &[Symbol])
        ensures
            views(t@) == self@,
            sorted_by(self@, symbol_leq()),
    {
        proof {
            use_type_invariant(self);
        }
        self.terms.as_slice()
    }

    /// The product: each factor of `rhs`, in order, raises the power of the first
    /// factor of `self` with the same variable and lag, or is appended; the result
    /// is sorted.
    fn product(&self, rhs: &Regressor) -> (r: Regressor)
        requires
            product_fits(self@, rhs@),
        ensures
            r@ == product_view(self@, rhs@),
    {
        let ghost a = self@;
        let ghost b = rhs@;
        let mut combined: Vec<Symbol> = self.clone().terms;
        let mut j: usize = 0;
        assert(b.take(0) =~= Seq::<SymbolView>::empty());
        while j < rhs.terms.len()
            invariant
                j <= rhs.terms@.len(),
                a == self@,
                b == rhs@,
                b.len() == rhs.terms@.len(),
                product_fits(a, b),
                views(combined@) == merge_all(a, b.take(j as int)),
            decreases rhs.terms.len() - j,
        {
            let t = &rhs.terms[j];
            assert(t@ == b[j as int]);
            let ghost acc = views(combined@);
            let mut p: usize = 0;
            while p < combined.len() && !(combined[p].name_equals(t) && combined[p].index()
                == t.index())
                invariant
                    p <= combined@.len(),
                    acc == views(combined@),
                    forall|q: int| 0 <= q < p ==> !same_key(#[trigger] acc[q], t@),
                decreases combined.len() - p,
            {
                p = p + 1;
            }
            proof {
                lemma_key_pos(acc, t@);
                lemma_merge_all_prefix(a, b, j + 1);
                assert(b.take(j + 1).drop_last() =~= b.take(j as int));
                assert(b.take(j + 1).last() == t@);
                if p < acc.len() {
                    assert(same_key(acc[p as int], t@));
                    assert(key_pos(acc, t@) == p);
                } else {
                    assert(key_pos(acc, t@) < 0);
                }
            }
            let ghost merged = merge_in(acc, t@);
            assert(merged == merge_all(a, b.take(j + 1)));
            if p < combined.len() {
                assert(same_key(merged[p as int], merge_all(a, b)[p as int]));
                assert(merged[p as int].2 <= merge_all(a, b)[p as int].2);
                let new_power = combined[p].power() + t.power();
                let mut s = combined[p].clone();
                s.set_power(new_power);
                combined.set(p, s);
                assert(views(combined@) =~= merged);
            } else {
                let s = t.clone();
                combined.push(s);
                assert(views(combined@) =~= merged);
            }
            j = j + 1;
        }
        assert(b.take(j as int) =~= b);
        Regressor::from(combined)
    }

    /// The regressor as text: the terms `name(k-lag)^power` joined by `*`, where a
    /// zero lag is written `name(k)` and a power of one is left out.
    pub fn to_string(&self) -> (s: String)
        ensures
            s@ == regressor_text(self@),
    {
        let mut out = String::new();
        let mut i: usize = 0;
        proof {
            assert(self@.take(0) =~= Seq::<SymbolView>::empty());
        }
        while i < self.terms.len()
            invariant
                i <= self.terms@.len(),
                self@.len() == self.terms@.len(),
                out@ == regressor_text(self@.take(i as int)),
            decreases self.terms.len() - i,
        {
            let ghost before = out@;
            if i > 0 {
                out.append("*");
                proof {
                    reveal_strlit("*");
                }
                assert("*"@ =~= seq!['*']);
                assert(out@ =~= before + seq!['*']);
            }
            push_term_text(&mut out, &self.terms[i]);
            proof {
                let t = self@.take(i + 1);
                assert(t.drop_last() =~= self@.take(i as int));
                assert(t.last() == self.terms@[i as int]@);
                if i == 0 {
                    assert(before =~= Seq::<char>::empty());
                    assert(out@ =~= regressor_text(t));
                } else {
                    assert(out@ =~= regressor_text(t));
                }
            }
            i = i + 1;
        }
        assert(self@.take(i as int) =~= self@);
        out
    }

    /// Whether some term of `self` equals `s`.
    fn has_term(&self, s: &Symbol) -> (r: bool)
        ensures
            r == self@.contains(s@),
    {
        let mut i: usize = 0;
        while i < self.terms.len()
            invariant
                i <= self.terms@.len(),
                forall|j: int| 0 <= j < i ==> self.terms@[j]@ != s@,
            decreases self.terms.len() - i,
        {
            if self.terms[i] == *s {
                assert(self@[i as int] == s@);
                return true;
            }
            i = i + 1;
        }
        assert forall|j: int| 0 <= j < self@.len() implies self@[j] != s@ by {
            assert(self@[j] == self.terms@[j]@);
        }
        false
    }
}

impl From<Vec<Symbol>> for Regressor {
    /// The regressor whose terms are `terms`, sorted.
    fn from(terms: Vec<Symbol>) -> (r: Regressor)
        ensures
            r@ == sorted_view(views(terms@)),
    {
        let sorted = sort_symbols(terms);
        proof {
            lemma_symbol_le_total_ordering();
            views(terms@).lemma_sort_by_ensures(symbol_leq());
        }
        Regressor { terms: sorted }
    }
}

impl vstd::std_specs::convert::FromSpecImpl<Vec<Symbol>> for Regressor {
    open spec fn obeys_from_spec() -> bool {
        false
    }

    open spec fn from_spec(v: Vec<Symbol>) -> Regressor {
        arbitrary()
    }
}

impl Clone for Regressor {
    fn clone(&self) -> (r: Regressor)
        ensures
            r@ == self@,
    {
        proof {
            use_type_invariant(self);
        }
        let mut terms: Vec<Symbol> = Vec::new();
        let mut i: usize = 0;
        while i < self.terms.len()
            invariant
                i <= self.terms@.len(),
                views(terms@) == views(self.terms@).take(i as int),
            decreases self.terms.len() - i,
        {
            let c = self.terms[i].clone();
            assert(c@ == self.terms@[i as int]@);
            let ghost before = terms@;
            terms.push(c);
            assert(terms@ =~= before.push(c));
            assert(views(terms@) =~= views(before).push(c@));
            assert(views(terms@) =~= views(self.terms@).take(i + 1));
            i = i + 1;
        }
        assert(views(self.terms@).take(i as int) =~= views(self.terms@));
        Regressor { terms }
    }
}

impl PartialEq for Regressor {
    fn eq(&self, other: &Regressor) -> (r: bool) {
        if self.terms.len() != other.terms.len() {
            assert(self@.len() == self.terms@.len() && other@.len() == other.terms@.len());
            return false;
        }
        let mut i: usize = 0;
        while i < self.terms.len()
            invariant
                i <= self.terms@.len(),
                forall|j: int| 0 <= j < i ==> other@.contains(#[trigger] self@[j]),
            decreases self.terms.len() - i,
        {
            if !other.has_term(&self.terms[i]) {
                assert(self@[i as int] == self.terms@[i as int]@);
                return false;
            }
            i = i + 1;
        }
        let mut j: usize = 0;
        while j < other.terms.len()
            invariant
                j <= other.terms@.len(),
                forall|k: int| 0 <= k < j ==> self@.contains(#[trigger] other@[k]),
            decreases other.terms.len() - j,
        {
            if !self.has_term(&other.terms[j]) {
                assert(other@[j as int] == other.terms@[j as int]@);
                return false;
            }
            j = j + 1;
        }
        true
    }
}

impl Eq for Regressor {
}

impl vstd::std_specs::cmp::PartialEqSpecImpl for Regressor {
    open spec fn obeys_eq_spec() -> bool {
        true
    }

    open spec fn eq_spec(&self, other: &Regressor) -> bool {
        regressor_eq(self@, other@)
    }
}

impl<'a> std::ops::Mul<&'a Regressor> for &'a Regressor {
    type Output = Regressor;

    fn mul(self, rhs: &'a Regressor) -> (r: Regressor)
        ensures
            r@ == product_view(self@, rhs@),
    {
        self.product(rhs)
    }
}

impl<'a> vstd::std_specs::ops::MulSpecImpl<&'a Regressor> for &'a Regressor {
    open spec fn obeys_mul_spec() -> bool {
        false
    }

    open spec fn mul_req(self, rhs: &'a Regressor) -> bool {
        product_fits(self@, rhs@)
    }

    open spec fn mul_spec(self, rhs: &'a Regressor) -> Regressor {
        arbitrary()
    }
}

impl std::ops::Mul for Regressor {
    type Output = Regressor;

    fn mul(self, rhs: Regressor) -> (r: Regressor)
        ensures
            r@ == product_view(self@, rhs@),
    {
        self.product(&rhs)
    }
}

impl vstd::std_specs::ops::MulSpecImpl for Regressor {
    open spec fn obeys_mul_spec() -> bool {
        false
    }

    open spec fn mul_req(self, rhs: Regressor) -> bool {
        product_fits(self@, rhs@)
    }

    open spec fn mul_spec(self, rhs: Regressor) -> Regressor {
        arbitrary()
    }
}

} // verus!

pub use crate::candidates::build_regressors;
