//! Writing regressors as text, such as `y(k-1)^2*u(k)`.

use vstd::prelude::*;
use crate::symbol::{Symbol, SymbolView};

verus! {

/// The decimal digit `d`.
pub open spec fn digit_char(d: nat) -> char {
    if d == 0 {
        '0'
    } else if d == 1 {
        '1'
    } else if d == 2 {
        '2'
    } else if d == 3 {
        '3'
    } else if d == 4 {
        '4'
    } else if d == 5 {
        '5'
    } else if d == 6 {
        '6'
    } else if d == 7 {
        '7'
    } else if d == 8 {
        '8'
    } else {
        '9'
    }
}

/// The decimal digits of `n`, without leading zeros.
pub open spec fn decimal(n: nat) -> Seq<char>
    decreases n,
{
    if n < 10 {
        seq![digit_char(n)]
    } else {
        decimal(n / 10) + seq![digit_char(n % 10)]
    }
}

/// `name(k)` or `name(k-lag)`, followed by `^power` unless the power is one.
pub open spec fn term_text(t: SymbolView) -> Seq<char> {
    t.0 + seq!['(', 'k'] + (if t.1 == 0 {
        Seq::<char>::empty()
    } else {
        seq!['-'] + decimal(t.1)
    }) + seq![')'] + (if t.2 == 1 {
        Seq::<char>::empty()
    } else {
        seq!['^'] + decimal(t.2)
    })
}

/// The terms' texts joined by `*`.
pub open spec fn regressor_text(ts: Seq<SymbolView>) -> Seq<char>
    decreases ts.len(),
{
    if ts.len() == 0 {
        Seq::<char>::empty()
    } else if ts.len() == 1 {
        term_text(ts[0])
    } else {
        regressor_text(ts.drop_last()) + seq!['*'] + term_text(ts.last())
    }
}

/// Texts joined by a separator.
pub open spec fn join_texts(parts: Seq<Seq<char>>, sep: Seq<char>) -> Seq<char>
    decreases parts.len(),
{
    if parts.len() == 0 {
        Seq::<char>::empty()
    } else if parts.len() == 1 {
        parts[0]
    } else {
        join_texts(parts.drop_last(), sep) + sep + parts.last()
    }
}

/// The decimal digit `d` as a string.
fn digit_str(d: usize) -> (s: &'static str)
    requires
        d < 10,
    ensures
        s@ == seq![digit_char(d as nat)],
{
    proof {
        reveal_strlit("0");
        reveal_strlit("1");
        reveal_strlit("2");
        reveal_strlit("3");
        reveal_strlit("4");
        reveal_strlit("5");
        reveal_strlit("6");
        reveal_strlit("7");
        reveal_strlit("8");
        reveal_strlit("9");
    }
    if d == 0 {
        "0"
    } else if d == 1 {
        "1"
    } else if d == 2 {
        "2"
    } else if d == 3 {
        "3"
    } else if d == 4 {
        "4"
    } else if d == 5 {
        "5"
    } else if d == 6 {
        "6"
    } else if d == 7 {
        "7"
    } else if d == 8 {
        "8"
    } else {
        "9"
    }
}

/// Appends the decimal digits of `n`.
pub fn push_decimal(out: &mut String, n: usize)
    ensures
        final(out)@ == old(out)@ + decimal(n as nat),
    decreases n,
{
    if n >= 10 {
        push_decimal(out, n / 10);
    }
    out.append(digit_str(n % 10));
    assert(out@ =~= old(out)@ + decimal(n as nat));
}

/// Appends the text of one term.
pub fn push_term_text(out: &mut String, t: &Symbol)
    ensures
        final(out)@ == old(out)@ + term_text(t@),
{
    proof {
        reveal_strlit("(k");
        reveal_strlit("-");
        reveal_strlit(")");
        reveal_strlit("^");
    }
    out.append(t.name());
    out.append("(k");
    if t.index() != 0 {
        out.append("-");
        push_decimal(out, t.index());
    }
    out.append(")");
    if t.power() != 1 {
        out.append("^");
        push_decimal(out, t.power());
    }
    assert(out@ =~= old(out)@ + term_text(t@));
}

} // verus!
