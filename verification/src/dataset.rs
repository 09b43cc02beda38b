//! The text layout of a sample file: one line per instant (lines end with `\n` or
//! `\r\n`, the last line ending is optional), comma-separated fields, the input in
//! the second field and the output in the third. Further fields are ignored. The
//! numbers themselves are read by the caller.

use vstd::prelude::*;

verus! {

/// The line feed byte.
pub const NEWLINE: u8 = 10u8;

/// The carriage return byte.
pub const CARRIAGE_RETURN: u8 = 13u8;

/// The field separator.
pub const COMMA: u8 = 44u8;

/// The position of the first `b` in `t`, or the length of `t` when there is none.
pub open spec fn find_byte(t: Seq<u8>, b: u8) -> nat
    decreases t.len(),
{
    if t.len() == 0 {
        0
    } else if t[0] == b {
        0
    } else {
        1 + find_byte(t.drop_first(), b)
    }
}

/// A line without the carriage return of a `\r\n` ending.
pub open spec fn strip_cr(l: Seq<u8>) -> Seq<u8> {
    if l.len() > 0 && l.last() == CARRIAGE_RETURN {
        l.drop_last()
    } else {
        l
    }
}

/// The lines of `t`: split at each `\n`, a `\r` just before it dropped; no line
/// after a final `\n`, and none at all in an empty text.
pub open spec fn lines_of(t: Seq<u8>) -> Seq<Seq<u8>>
    decreases t.len(),
{
    if t.len() == 0 {
        Seq::empty()
    } else {
        let i = find_byte(t, NEWLINE) as int;
        if i < t.len() {
            seq![strip_cr(t.take(i))] + lines_of(t.skip(i + 1))
        } else {
            seq![t]
        }
    }
}

/// The comma-separated fields of a line; a line without commas is one field.
pub open spec fn fields_of(l: Seq<u8>) -> Seq<Seq<u8>>
    decreases l.len(),
{
    let i = find_byte(l, COMMA) as int;
    if i < l.len() {
        seq![l.take(i)] + fields_of(l.skip(i + 1))
    } else {
        seq![l]
    }
}

/// The input and output fields of a line: its second and third fields, when it has
/// them.
pub open spec fn row_columns(l: Seq<u8>) -> Option<(Seq<u8>, Seq<u8>)> {
    let f = fields_of(l);
    if f.len() >= 3 {
        Some((f[1], f[2]))
    } else {
        None
    }
}

/// `i` is where `find_byte` stops: no `b` before it, and `b` or the end at it.
pub proof fn lemma_find_byte(t: Seq<u8>, b: u8, i: int)
    requires
        0 <= i <= t.len(),
        forall|k: int| 0 <= k < i ==> t[k] != b,
        i == t.len() || t[i] == b,
    ensures
        find_byte(t, b) == i,
    decreases i,
{
    if i > 0 {
        let d = t.drop_first();
        assert forall|k: int| 0 <= k < i - 1 implies d[k] != b by {
            assert(d[k] == t[k + 1]);
        }
        if i < t.len() {
            assert(d[i - 1] == t[i]);
        }
        lemma_find_byte(d, b, i - 1);
    }
}

/// The first `b` in `t[from..to]`, as a position of `t`, or `to` when there is none.
fn find_in(t: &[u8], from: usize, to: usize, b: u8) -> (i: usize)
    requires
        from <= to <= t@.len(),
    ensures
        from <= i <= to,
        i - from == find_byte(t@.subrange(from as int, to as int), b),
{
    let mut i = from;
    while i < to && t[i] != b
        invariant
            from <= i <= to,
            to <= t@.len(),
            forall|k: int| from <= k < i ==> t@[k] != b,
        decreases to - i,
    {
        i = i + 1;
    }
    proof {
        let s = t@.subrange(from as int, to as int);
        assert forall|k: int| 0 <= k < i - from implies s[k] != b by {
            assert(s[k] == t@[from + k]);
        }
        if i < to {
            assert(s[i - from] == t@[i as int]);
        }
        lemma_find_byte(s, b, i - from);
    }
    i
}

/// The bytes `t[from..to]`.
fn copy_range(t: &[u8], from: usize, to: usize) -> (v: Vec<u8>)
    requires
        from <= to <= t@.len(),
    ensures
        v@ == t@.subrange(from as int, to as int),
{
    let mut v: Vec<u8> = Vec::new();
    let mut i = from;
    while i < to
        invariant
            from <= i <= to,
            to <= t@.len(),
            v@ == t@.subrange(from as int, i as int),
        decreases to - i,
    {
        v.push(t[i]);
        i = i + 1;
        assert(v@ =~= t@.subrange(from as int, i as int));
    }
    v
}

/// The second and third fields of the line `t[from..to]`.
fn line_columns(t: &[u8], from: usize, to: usize) -> (r: Option<(Vec<u8>, Vec<u8>)>)
    requires
        from <= to <= t@.len(),
    ensures
        r is Some <==> row_columns(t@.subrange(from as int, to as int)) is Some,
        r matches Some((u, y)) ==> row_columns(t@.subrange(from as int, to as int)) == Some(
            (u@, y@),
        ),
{
    let ghost l = t@.subrange(from as int, to as int);
    let a = find_in(t, from, to, COMMA);
    if a == to {
        assert(fields_of(l) == seq![l]);
        return None;
    }
    let b = find_in(t, a + 1, to, COMMA);
    let c = if b < to {
        find_in(t, b + 1, to, COMMA)
    } else {
        to
    };
    proof {
        let l1 = l.skip(a - from + 1);
        assert(l.take(a - from) =~= t@.subrange(from as int, a as int));
        assert(l1 =~= t@.subrange(a + 1, to as int));
        assert(fields_of(l) == seq![l.take(a - from)] + fields_of(l1));
        if b < to {
            let l2 = l1.skip(b - a);
            assert(l1.take(b - a - 1) =~= t@.subrange(a + 1, b as int));
            assert(l2 =~= t@.subrange(b + 1, to as int));
            assert(fields_of(l1) == seq![l1.take(b - a - 1)] + fields_of(l2));
            if c < to {
                assert(l2.take(c - b - 1) =~= t@.subrange(b + 1, c as int));
                assert(fields_of(l2) == seq![l2.take(c - b - 1)] + fields_of(l2.skip(c - b)));
            } else {
                assert(fields_of(l2) == seq![l2]);
            }
            assert(fields_of(l)[1] == t@.subrange(a + 1, b as int));
            assert(fields_of(l)[2] == t@.subrange(b + 1, c as int));
        } else {
            assert(fields_of(l1) == seq![l1]);
            assert(fields_of(l).len() == 2);
        }
    }
    if b == to {
        return None;
    }
    let u = copy_range(t, a + 1, b);
    let y = copy_range(t, b + 1, c);
    Some((u, y))
}

/// The input and output fields of every line of `text`, in order; `None` when some
/// line has fewer than three fields.
pub fn sample_columns(text: &[u8]) -> (r: Option<Vec<(Vec<u8>, Vec<u8>)>>)
    ensures
        r is Some <==> forall|k: int|
            0 <= k < lines_of(text@).len() ==> #[trigger] row_columns(lines_of(text@)[k]) is Some,
        r matches Some(rows) ==> rows@.len() == lines_of(text@).len() && forall|k: int|
            0 <= k < rows@.len() ==> row_columns(lines_of(text@)[k]) == Some(
                (#[trigger] rows@[k].0@, rows@[k].1@),
            ),
{
    let n = text.len();
    let mut rows: Vec<(Vec<u8>, Vec<u8>)> = Vec::new();
    let mut pos: usize = 0;
    let ghost mut done: Seq<Seq<u8>> = Seq::empty();
    assert(text@.subrange(0, n as int) =~= text@);
    while pos < n
        invariant
            pos <= n,
            n == text@.len(),
            lines_of(text@) == done + lines_of(text@.subrange(pos as int, n as int)),
            rows@.len() == done.len(),
            forall|k: int|
                0 <= k < done.len() ==> row_columns(done[k]) == Some(
                    (#[trigger] rows@[k].0@, rows@[k].1@),
                ),
        decreases n - pos,
    {
        let ghost rest = text@.subrange(pos as int, n as int);
        let i = find_in(text, pos, n, NEWLINE);
        let end = if i < n && i > pos && text[i - 1] == CARRIAGE_RETURN {
            i - 1
        } else {
            i
        };
        let ghost line = text@.subrange(pos as int, end as int);
        proof {
            if i < n {
                assert(rest.take(i - pos) =~= text@.subrange(pos as int, i as int));
                assert(rest.skip(i - pos + 1) =~= text@.subrange(i + 1, n as int));
                if i > pos && text@[i - 1] == CARRIAGE_RETURN {
                    assert(text@.subrange(pos as int, i as int).drop_last() =~= line);
                }
                assert(strip_cr(rest.take(i - pos)) == line);
                assert(lines_of(rest) == seq![line] + lines_of(text@.subrange(i + 1, n as int)));
            } else {
                assert(line =~= rest);
                assert(lines_of(rest) == seq![line]);
                assert(text@.subrange(n as int, n as int) =~= Seq::<u8>::empty());
                assert(lines_of(text@.subrange(n as int, n as int)) == Seq::<Seq<u8>>::empty());
            }
        }
        let cols = line_columns(text, pos, end);
        match cols {
            None => {
                proof {
                    let k = done.len() as int;
                    assert(lines_of(text@)[k] == line);
                }
                return None;
            },
            Some(pair) => {
                rows.push(pair);
                proof {
                    done = done.push(line);
                }
            },
        }
        pos = if i < n {
            i + 1
        } else {
            n
        };
        proof {
            if pos == n {
                assert(text@.subrange(n as int, n as int) =~= Seq::<u8>::empty());
            }
            assert(lines_of(text@) =~= done + lines_of(text@.subrange(pos as int, n as int)));
        }
    }
    proof {
        assert(text@.subrange(n as int, n as int) =~= Seq::<u8>::empty());
        assert(done =~= lines_of(text@));
        assert forall|k: int| 0 <= k < done.len() implies #[trigger] row_columns(done[k]) is Some by {
            assert(row_columns(done[k]) == Some((rows@[k].0@, rows@[k].1@)));
        }
    }
    Some(rows)
}

} // verus!
