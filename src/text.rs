//! Characters and lines of a tool's text output.
use vstd::prelude::*;
use vstd::std_specs::iter::IteratorSpec;

verus! {

/// An ASCII whitespace character: space, tab, line feed, form feed or
/// carriage return.
pub open spec fn is_blank(c: char) -> bool {
    c == ' ' || c == '\t' || c == '\n' || c == '\x0C' || c == '\r'
}

/// The pieces of `s` between newline characters, from first to last; there
/// is always at least one, the last one being what follows the final newline.
pub open spec fn segments(s: Seq<char>) -> Seq<Seq<char>>
    decreases s.len(),
{
    if s.len() == 0 {
        seq![seq![]]
    } else {
        let r = segments(s.drop_last());
        if s.last() == '\n' {
            r.push(seq![])
        } else {
            r.update(r.len() - 1, r.last().push(s.last()))
        }
    }
}

/// A line without the carriage return that may end it.
pub open spec fn strip_cr(l: Seq<char>) -> Seq<char> {
    if l.len() > 0 && l.last() == '\r' {
        l.drop_last()
    } else {
        l
    }
}

/// The lines of `s`: split at each newline, a carriage return just before a
/// newline dropped, and no empty line after a final newline.
pub open spec fn lines_of(s: Seq<char>) -> Seq<Seq<char>> {
    let seg = segments(s);
    let done = seg.drop_last().map_values(|l: Seq<char>| strip_cr(l));
    if seg.last().len() == 0 {
        done
    } else {
        done.push(seg.last())
    }
}

/// The pieces of `s` that `spans` delimits, as start and end positions.
pub open spec fn spans_of(s: Seq<char>, spans: Seq<(usize, usize)>) -> Seq<Seq<char>> {
    spans.map_values(|p: (usize, usize)| s.subrange(p.0 as int, p.1 as int))
}

/// Every span lies within a text of length `len`.
pub open spec fn spans_within(len: nat, spans: Seq<(usize, usize)>) -> bool {
    forall|j: int| 0 <= j < spans.len() ==> #[trigger] spans[j].0 <= spans[j].1 <= len
}

proof fn lemma_segments_nonempty(s: Seq<char>)
    ensures
        segments(s).len() >= 1,
    decreases s.len(),
{
    if s.len() > 0 {
        lemma_segments_nonempty(s.drop_last());
    }
}

/// The characters of `s`, in order.
pub fn chars_of(s: &str) -> (r: Vec<char>)
    ensures
        r@ == s@,
{
    let mut it = s.chars();
    let mut r: Vec<char> = Vec::new();
    loop
        invariant
            it.obeys_prophetic_iter_laws(),
            r@ + it.remaining() == s@,
            it.decrease() is Some,
        ensures
            r@ == s@,
        decreases it.decrease()->0,
    {
        match it.next() {
            Some(c) => {
                r.push(c);
                assert(r@ + it.remaining() =~= s@);
            },
            None => {
                assert(r@ + it.remaining() =~= r@);
                break;
            },
        }
    }
    r
}

/// Start and end positions of each line of `c`.
pub fn line_spans(c: &Vec<char>) -> (r: Vec<(usize, usize)>)
    ensures
        spans_within(c@.len(), r@),
        spans_of(c@, r@) == lines_of(c@),
{
    let mut out: Vec<(usize, usize)> = Vec::new();
    let mut start: usize = 0;
    let mut i: usize = 0;
    while i < c.len()
        invariant
            start <= i <= c@.len(),
            spans_within(c@.len(), out@),
            segments(c@.take(i as int)).len() >= 1,
            spans_of(c@, out@) == segments(c@.take(i as int)).drop_last().map_values(
                |l: Seq<char>| strip_cr(l),
            ),
            segments(c@.take(i as int)).last() == c@.subrange(start as int, i as int),
        decreases c@.len() - i,
    {
        let ghost pre = c@.take(i as int);
        let ghost segs = segments(pre);
        let ghost prev = out@;
        proof {
            assert(c@.take(i + 1).drop_last() =~= pre);
            lemma_segments_nonempty(c@.take(i + 1));
        }
        if c[i] == '\n' {
            let end: usize = if i > start && c[i - 1] == '\r' {
                i - 1
            } else {
                i
            };
            out.push((start, end));
            proof {
                assert(c@.subrange(start as int, end as int) =~= strip_cr(
                    c@.subrange(start as int, i as int),
                ));
                assert(segments(c@.take(i + 1)) == segs.push(seq![]));
                assert(segs.push(seq![]).drop_last() =~= segs);
                assert(spans_of(c@, out@) =~= spans_of(c@, prev).push(
                    c@.subrange(start as int, end as int),
                ));
                assert(segs.map_values(|l: Seq<char>| strip_cr(l)) =~= segs.drop_last().map_values(
                    |l: Seq<char>| strip_cr(l),
                ).push(strip_cr(segs.last())));
                assert(c@.subrange(i + 1, i + 1) =~= Seq::<char>::empty());
            }
            start = i + 1;
        } else {
            proof {
                let next = segs.update(segs.len() - 1, segs.last().push(c@[i as int]));
                assert(segments(c@.take(i + 1)) == next);
                assert(next.drop_last() =~= segs.drop_last());
                assert(c@.subrange(start as int, i + 1) =~= c@.subrange(start as int, i as int).push(
                    c@[i as int],
                ));
            }
        }
        i = i + 1;
    }
    proof {
        assert(c@.take(i as int) =~= c@);
    }
    if start < c.len() {
        let ghost prev = out@;
        out.push((start, c.len()));
        assert(spans_of(c@, out@) =~= spans_of(c@, prev).push(
            c@.subrange(start as int, c@.len() as int),
        ));
    } else {
        assert(c@.subrange(start as int, c@.len() as int) =~= Seq::<char>::empty());
    }
    out
}

} // verus!
