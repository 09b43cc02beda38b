//! The bookkeeping of forward selection and pruning: which candidate columns are
//! still open, which regressors a set of column indices names, and the order in
//! which a pruning pass tries to drop the selected terms. The scores that decide
//! between candidates are computed by the caller.

use vstd::prelude::*;
use crate::regressor::Regressor;

verus! {

/// The column indices `0, 1, ..., m - 1`.
pub open spec fn columns(m: nat) -> Seq<usize> {
    Seq::new(m, |j: int| j as usize)
}

/// The indices that `selected` does not hold.
pub open spec fn not_in(selected: Seq<usize>) -> spec_fn(usize) -> bool {
    |x: usize| !selected.contains(x)
}

/// The indices other than `j`.
pub open spec fn other_than(j: usize) -> spec_fn(usize) -> bool {
    |x: usize| x != j
}

/// The columns below `m` that `selected` does not hold, in increasing order.
pub open spec fn open_columns(m: nat, selected: Seq<usize>) -> Seq<usize> {
    columns(m).filter(not_in(selected))
}

/// `s` without any occurrence of `j`, the rest in order.
pub open spec fn without(s: Seq<usize>, j: usize) -> Seq<usize> {
    s.filter(other_than(j))
}

/// `s` with its element at position `i` taken out.
pub open spec fn drop_at(s: Seq<usize>, i: int) -> Seq<usize> {
    s.subrange(0, i) + s.subrange(i + 1, s.len() as int)
}

/// Whether `x` occurs in `s`.
fn holds(s: &[usize], x: usize) -> (b: bool)
    ensures
        b == s@.contains(x),
{
    let mut i: usize = 0;
    while i < s.len()
        invariant
            i <= s@.len(),
            forall|k: int| 0 <= k < i ==> s@[k] != x,
        decreases s.len() - i,
    {
        if s[i] == x {
            assert(s@[i as int] == x);
            return true;
        }
        i = i + 1;
    }
    false
}

/// The candidate columns `0..m` that are not yet selected, in increasing order.
pub fn unselected(m: usize, selected: &[usize]) -> (r: Vec<usize>)
    ensures
        r@ == open_columns(m as nat, selected@),
{
    let mut r: Vec<usize> = Vec::new();
    let mut j: usize = 0;
    while j < m
        invariant
            j <= m,
            r@ == columns(m as nat).take(j as int).filter(not_in(selected@)),
        decreases m - j,
    {
        let ghost before = columns(m as nat).take(j as int);
        let ghost after = columns(m as nat).take(j + 1);
        proof {
            assert(after.drop_last() =~= before);
            assert(after.last() == j);
            reveal(Seq::filter);
        }
        if !holds(selected, j) {
            r.push(j);
        }
        j = j + 1;
    }
    assert(columns(m as nat).take(m as int) =~= columns(m as nat));
    r
}

/// Takes every occurrence of `j` out of `indices`, keeping the rest in order.
pub fn drop_value(indices: &mut Vec<usize>, j: usize)
    ensures
        final(indices)@ == without(old(indices)@, j),
{
    let mut kept: Vec<usize> = Vec::new();
    let mut i: usize = 0;
    while i < indices.len()
        invariant
            i <= indices@.len(),
            indices@ == old(indices)@,
            kept@ == without(indices@.take(i as int), j),
        decreases indices.len() - i,
    {
        proof {
            assert(indices@.take(i + 1).drop_last() =~= indices@.take(i as int));
            assert(indices@.take(i + 1).last() == indices@[i as int]);
            reveal(Seq::filter);
        }
        if indices[i] != j {
            kept.push(indices[i]);
        }
        i = i + 1;
    }
    assert(indices@.take(indices@.len() as int) =~= indices@);
    *indices = kept;
}

/// The regressors that `indices` names, in the order of `indices`.
pub fn pick_regressors(regressors: &[Regressor], indices: &[usize]) -> (r: Vec<Regressor>)
    requires
        forall|k: int| 0 <= k < indices@.len() ==> #[trigger] indices@[k] < regressors@.len(),
    ensures
        r@.len() == indices@.len(),
        forall|k: int| 0 <= k < indices@.len() ==> #[trigger] r@[k]@ == regressors@[indices@[k] as int]@,
{
    let mut r: Vec<Regressor> = Vec::new();
    let mut k: usize = 0;
    while k < indices.len()
        invariant
            k <= indices@.len(),
            r@.len() == k,
            forall|k: int| 0 <= k < indices@.len() ==> #[trigger] indices@[k] < regressors@.len(),
            forall|q: int| 0 <= q < k ==> #[trigger] r@[q]@ == regressors@[indices@[q] as int]@,
        decreases indices.len() - k,
    {
        let c = regressors[indices[k]].clone();
        r.push(c);
        k = k + 1;
    }
    r
}

/// A pruning pass over the selected terms: each in turn is tried for removal, a
/// removal the caller accepts is made at once and the same position is tried again
/// (it now holds the next term), and a pass that removed something is followed by
/// another, until a whole pass removes nothing. One term is always kept.
pub struct Pruning {
    selected: Vec<usize>,
    position: usize,
    removed_any: bool,
}

impl View for Pruning {
    type V = (Seq<usize>, nat, bool);

    closed spec fn view(&self) -> (Seq<usize>, nat, bool) {
        (self.selected@, self.position as nat, self.removed_any)
    }
}

/// Whether the pass in state `s` has a term left to try.
pub open spec fn trial_pending(s: (Seq<usize>, nat, bool)) -> bool {
    s.1 < s.0.len() && s.0.len() > 1
}

impl Pruning {
    /// The start of pruning over `selected`.
    pub fn new(selected: Vec<usize>) -> (p: Pruning)
        ensures
            p@ == (selected@, 0nat, false),
    {
        Pruning { selected, position: 0, removed_any: false }
    }

    /// The selected terms as they stand.
    pub fn selected(&self) -> (s: &[usize])
        ensures
            s@ == self@.0,
    {
        self.selected.as_slice()
    }

    /// The next set of terms to try: the selection without the term at the current
    /// position. A pass that ends having removed something starts the next one; `None`
    /// when a whole pass has removed nothing (or one term is left), which ends the
    /// pruning.
    pub fn next_trial(&mut self) -> (t: Option<Vec<usize>>)
        ensures
            final(self)@.0 == old(self)@.0,
            trial_pending(old(self)@) ==> final(self)@ == old(self)@,
            !trial_pending(old(self)@) && old(self)@.2 ==> final(self)@ == (old(self)@.0, 0nat, false),
            !trial_pending(old(self)@) && !old(self)@.2 ==> final(self)@ == old(self)@,
            t is Some <==> trial_pending(final(self)@),
            t is Some ==> t->0@ == drop_at(final(self)@.0, final(self)@.1 as int),
    {
        if !(self.position < self.selected.len() && self.selected.len() > 1) {
            if self.removed_any {
                self.position = 0;
                self.removed_any = false;
            } else {
                return None;
            }
        }
        if self.position < self.selected.len() && self.selected.len() > 1 {
            let mut trial = self.selected.clone();
            let _ = trial.remove(self.position);
            assert(trial@ =~= drop_at(self.selected@, self.position as int));
            Some(trial)
        } else {
            None
        }
    }

    /// Records the caller's verdict on the pending trial: an accepted removal takes
    /// the term out and keeps the position; a rejected one moves on to the next term.
    /// Without a pending trial nothing changes.
    pub fn record(&mut self, accepted: bool)
        ensures
            trial_pending(old(self)@) && accepted ==> final(self)@ == (
                drop_at(old(self)@.0, old(self)@.1 as int),
                old(self)@.1,
                true,
            ),
            trial_pending(old(self)@) && !accepted ==> final(self)@ == (
                old(self)@.0,
                old(self)@.1 + 1,
                old(self)@.2,
            ),
            !trial_pending(old(self)@) ==> final(self)@ == old(self)@,
    {
        if self.position < self.selected.len() && self.selected.len() > 1 {
            if accepted {
                let _ = self.selected.remove(self.position);
                assert(self.selected@ =~= drop_at(old(self)@.0, old(self)@.1 as int));
                self.removed_any = true;
            } else {
                self.position = self.position + 1;
            }
        }
    }

    /// The selection that pruning has left.
    pub fn into_selected(self) -> (s: Vec<usize>)
        ensures
            s@ == self@.0,
    {
        self.selected
    }
}

/// Forward selection over the candidate columns `0..m`, choosing at most `limit` of
/// them: the columns chosen so far, in the order of choice, and the columns still open.
/// The caller scores the open columns and picks one.
pub struct ForwardSelection {
    columns: usize,
    limit: usize,
    chosen: Vec<usize>,
    open: Vec<usize>,
}

impl View for ForwardSelection {
    type V = (nat, nat, Seq<usize>, Seq<usize>);

    closed spec fn view(&self) -> (nat, nat, Seq<usize>, Seq<usize>) {
        (self.columns as nat, self.limit as nat, self.chosen@, self.open@)
    }
}

/// What every state of forward selection satisfies: the open columns are those not
/// chosen, no column is chosen twice, every chosen column is a candidate, and no more
/// than the limit are chosen.
pub open spec fn selection_invariant(s: (nat, nat, Seq<usize>, Seq<usize>)) -> bool {
    &&& s.3 == open_columns(s.0, s.2)
    &&& s.2.no_duplicates()
    &&& forall|i: int| 0 <= i < s.2.len() ==> #[trigger] s.2[i] < s.0
    &&& s.2.len() <= s.1
    &&& s.1 <= s.0
}

impl ForwardSelection {
    #[verifier::type_invariant]
    spec fn well_formed(self) -> bool {
        selection_invariant(self@)
    }

    /// The start of forward selection over `m` candidate columns choosing at most
    /// `limit` of them, or all of them when there are fewer.
    pub fn new(m: usize, limit: usize) -> (f: ForwardSelection)
        ensures
            f@ == (m as nat, if limit < m { limit as nat } else { m as nat }, Seq::<usize>::empty(), open_columns(m as nat, Seq::<usize>::empty())),
            selection_invariant(f@),
    {
        let bound = if limit < m {
            limit
        } else {
            m
        };
        let chosen: Vec<usize> = Vec::new();
        let open = unselected(m, chosen.as_slice());
        assert(chosen@ =~= Seq::<usize>::empty());
        ForwardSelection { columns: m, limit: bound, chosen, open }
    }

    /// The columns still open, in increasing order.
    pub fn open(&self) -> (o: &[usize])
        ensures
            o@ == self@.3,
            selection_invariant(self@),
    {
        proof {
            use_type_invariant(self);
        }
        self.open.as_slice()
    }

    /// The columns chosen so far, in the order of choice.
    pub fn chosen(&self) -> (c: &[usize])
        ensures
            c@ == self@.2,
            selection_invariant(self@),
    {
        proof {
            use_type_invariant(self);
        }
        self.chosen.as_slice()
    }

    /// Whether another column may be chosen: the limit is not reached and some
    /// column is open.
    pub fn can_continue(&self) -> (b: bool)
        ensures
            b == (self@.2.len() < self@.1 && self@.3.len() > 0),
    {
        self.chosen.len() < self.limit && self.open.len() > 0
    }

    /// Chooses column `j`, when it is open and the limit is not reached; otherwise
    /// nothing changes. Returns whether it was chosen.
    pub fn choose_column(&mut self, j: usize) -> (done: bool)
        ensures
            done == (old(self)@.3.contains(j) && old(self)@.2.len() < old(self)@.1),
            done ==> final(self)@ == (old(self)@.0, old(self)@.1, old(self)@.2.push(j), without(old(self)@.3, j)),
            !done ==> final(self)@ == old(self)@,
            selection_invariant(final(self)@),
    {
        proof {
            use_type_invariant(&*self);
        }
        if self.chosen.len() < self.limit && holds(self.open.as_slice(), j) {
            let ghost m = self.columns as nat;
            let ghost before = self.chosen@;
            proof {
                assert(columns(m).filter(not_in(before)).contains(j));
                columns(m).lemma_filter_contains_rev(not_in(before), j);
                let k = choose|k: int| 0 <= k < columns(m).len() && columns(m)[k] == j;
                assert(j < m);
                let q = choose|q: int| 0 <= q < open_columns(m, before).len() && open_columns(m, before)[q] == j;
                columns(m).lemma_filter_pred(not_in(before), q);
                assert(!before.contains(j));
                crate::laws::law_open_columns_after_selection(m, before, j);
            }
            let mut chosen = self.chosen.clone();
            chosen.push(j);
            let mut open = self.open.clone();
            drop_value(&mut open, j);
            proof {
                assert(chosen@ == before.push(j));
                assert(chosen@.no_duplicates()) by {
                    assert forall|a: int, b: int| 0 <= a < b < chosen@.len() implies chosen@[a] != chosen@[b] by {
                        if b == before.len() {
                            assert(before.contains(before[a]));
                        } else {
                            assert(chosen@[a] == before[a] && chosen@[b] == before[b]);
                        }
                    }
                }
                assert forall|i: int| 0 <= i < chosen@.len() implies #[trigger] chosen@[i] < m by {
                    if i < before.len() {
                        assert(chosen@[i] == before[i]);
                    }
                }
            }
            *self = ForwardSelection { columns: self.columns, limit: self.limit, chosen, open };
            true
        } else {
            false
        }
    }

    /// The columns chosen, in the order of choice.
    pub fn into_chosen(self) -> (c: Vec<usize>)
        ensures
            c@ == self@.2,
    {
        self.chosen
    }
}

} // verus!
