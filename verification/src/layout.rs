//! Where the samples that evaluate a regressor come from. A symbol `name(k-index)`
//! evaluated on a buffer of `n` samples gives the first `n - index` of them (none when
//! `index > n`), each raised to its power; a regressor multiplies its terms' values
//! pointwise after aligning the ends of their windows; evaluated at one instant `k`, a
//! term reads sample `k - index`. This module computes those positions; the caller
//! reads the samples and multiplies.

use vstd::prelude::*;
use crate::regressor::Regressor;
use crate::symbol::SymbolView;

verus! {

/// The number of samples that a symbol of lag `index` leaves of a buffer of `n`.
pub open spec fn window_len(n: nat, index: nat) -> nat {
    if index <= n {
        (n - index) as nat
    } else {
        0
    }
}

/// The window length of term `t` of `r`, whose buffer holds `lens[t]` samples.
pub open spec fn term_window(r: Seq<SymbolView>, lens: Seq<usize>, t: int) -> nat {
    window_len(lens[t] as nat, r[t].1)
}

/// `least` is the shortest window of the terms of `r`.
pub open spec fn is_least_window(r: Seq<SymbolView>, lens: Seq<usize>, least: nat) -> bool {
    &&& forall|t: int| 0 <= t < r.len() ==> least <= #[trigger] term_window(r, lens, t)
    &&& exists|t: int| 0 <= t < r.len() && #[trigger] term_window(r, lens, t) == least
}

/// The number of samples that a symbol of lag `index` leaves of a buffer of `n`.
pub fn lagged_len(n: usize, index: usize) -> (l: usize)
    ensures
        l == window_len(n as nat, index as nat),
{
    if index <= n {
        n - index
    } else {
        0
    }
}

impl Regressor {
    /// The layout of the evaluation over whole buffers, term `t` reading a buffer of
    /// `lens[t]` samples: the length of the result (the shortest window of a term)
    /// and, for each term, the position in its buffer of the sample that enters the
    /// first value (its window shortened at the front to that length). `None` for a
    /// regressor without terms, whose evaluation is empty.
    pub fn eval_layout(&self, lens: &[usize]) -> (out: Option<(usize, Vec<usize>)>)
        requires
            lens@.len() == self@.len(),
        ensures
            out is None <==> self@.len() == 0,
            out matches Some((least, starts)) ==> is_least_window(self@, lens@, least as nat)
                && starts@.len() == self@.len() && forall|t: int|
                0 <= t < self@.len() ==> #[trigger] starts@[t] + least == term_window(self@, lens@, t),
    {
        let terms = self.terms();
        if terms.len() == 0 {
            return None;
        }
        proof {
            assert(terms@[0]@ == self@[0]);
        }
        let mut least = lagged_len(lens[0], terms[0].index());
        assert(term_window(self@, lens@, 0) == least);
        let mut t: usize = 1;
        while t < terms.len()
            invariant
                1 <= t <= terms@.len(),
                terms@.len() == self@.len(),
                lens@.len() == self@.len(),
                forall|q: int| 0 <= q < terms@.len() ==> #[trigger] terms@[q]@ == self@[q],
                forall|q: int| 0 <= q < t ==> least <= #[trigger] term_window(self@, lens@, q),
                exists|q: int| 0 <= q < t && #[trigger] term_window(self@, lens@, q) == least,
            decreases terms.len() - t,
        {
            let w = lagged_len(lens[t], terms[t].index());
            assert(w == term_window(self@, lens@, t as int));
            if w < least {
                least = w;
            }
            t = t + 1;
        }
        let mut starts: Vec<usize> = Vec::new();
        let mut q: usize = 0;
        while q < terms.len()
            invariant
                q <= terms@.len(),
                terms@.len() == self@.len(),
                lens@.len() == self@.len(),
                forall|q: int| 0 <= q < terms@.len() ==> #[trigger] terms@[q]@ == self@[q],
                is_least_window(self@, lens@, least as nat),
                starts@.len() == q,
                forall|p: int| 0 <= p < q ==> #[trigger] starts@[p] + least == term_window(self@, lens@, p),
            decreases terms.len() - q,
        {
            let w = lagged_len(lens[q], terms[q].index());
            assert(w == term_window(self@, lens@, q as int));
            starts.push(w - least);
            q = q + 1;
        }
        Some((least, starts))
    }

    /// The position that each term reads when the regressor is evaluated at instant
    /// `k`, term `t` reading a buffer of `lens[t]` samples: `k - index`. `None` when
    /// some term would read before the start or past the end of its buffer.
    pub fn sample_positions(&self, k: usize, lens: &[usize]) -> (out: Option<Vec<usize>>)
        requires
            lens@.len() == self@.len(),
        ensures
            out is Some <==> forall|t: int|
                0 <= t < self@.len() ==> #[trigger] self@[t].1 <= k && k - self@[t].1 < lens@[t],
            out matches Some(p) ==> p@.len() == self@.len() && forall|t: int|
                0 <= t < self@.len() ==> #[trigger] p@[t] == k - self@[t].1,
    {
        let terms = self.terms();
        let mut positions: Vec<usize> = Vec::new();
        let mut t: usize = 0;
        while t < terms.len()
            invariant
                t <= terms@.len(),
                terms@.len() == self@.len(),
                lens@.len() == self@.len(),
                forall|q: int| 0 <= q < terms@.len() ==> #[trigger] terms@[q]@ == self@[q],
                positions@.len() == t,
                forall|q: int|
                    0 <= q < t ==> #[trigger] self@[q].1 <= k && k - self@[q].1 < lens@[q] && positions@[q]
                        == k - self@[q].1,
            decreases terms.len() - t,
        {
            let index = terms[t].index();
            assert(index == self@[t as int].1);
            if index > k || k - index >= lens[t] {
                return None;
            }
            positions.push(k - index);
            t = t + 1;
        }
        Some(positions)
    }
}

} // verus!
