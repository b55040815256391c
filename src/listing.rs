//! Reading the network manager's two tabular listings: the networks in
//! range and the saved connections.
use vstd::prelude::*;
use vstd::slice::slice_subrange;
use vstd::string::StrSliceExecFns;
use crate::select::ids_view;
use crate::text::{chars_of, is_blank, line_spans, lines_of, spans_of, spans_within};

verus! {

/// Why a listing could not be read.
#[derive(Clone, Copy, Debug, PartialEq, Eq, Structural)]
pub enum ListError {
    /// The listing has no header line.
    MissingHeader,
    /// The header of the scan listing has no identifier column.
    MissingIdColumn,
    /// The line at this index (the header being line 0) holds no whitespace
    /// to end its identifier.
    MalformedRecord(usize),
}

/// The identifier column's title as it stands in the scan listing's header,
/// with the space before it (which keeps a column whose title only ends the
/// same way from matching).
pub open spec fn id_title() -> Seq<char> {
    seq![' ', 'S', 'S', 'I', 'D']
}

/// What the scan listing shows where a network has no identifier.
pub open spec fn placeholder() -> Seq<char> {
    seq!['-', '-']
}

/// Whether the title stands in `h` at position `p`.
pub open spec fn title_at(h: Seq<char>, p: int) -> bool {
    0 <= p && p + 5 <= h.len() && h.subrange(p, p + 5) == id_title()
}

/// The first position at or after `p` where the title stands in `h`.
pub open spec fn title_from(h: Seq<char>, p: int) -> Option<int>
    decreases h.len() - p,
{
    if p < 0 || p + 5 > h.len() {
        None
    } else if title_at(h, p) {
        Some(p)
    } else {
        title_from(h, p + 1)
    }
}

/// Where the identifiers start in the lines under header `h`: one past the
/// first match of the title, that is, on the title's first letter.
pub open spec fn id_column(h: Seq<char>) -> Option<int> {
    match title_from(h, 0) {
        Some(p) => Some(p + 1),
        None => None,
    }
}

/// The end of the token of `l` that starts at `i`: the first whitespace at
/// or after `i`, or the end of the line.
pub open spec fn token_end(l: Seq<char>, i: int) -> int
    decreases l.len() - i,
{
    if i < 0 || i >= l.len() {
        l.len() as int
    } else if is_blank(l[i]) {
        i
    } else {
        token_end(l, i + 1)
    }
}

/// The identifier on data line `l` of the scan listing, when the
/// identifiers start at `start`; none when the line stops before the
/// column or the column holds the placeholder.
pub open spec fn scan_line_id(l: Seq<char>, start: int) -> Option<Seq<char>> {
    if l.len() <= start {
        None
    } else {
        let t = l.subrange(start, token_end(l, start));
        if t == placeholder() {
            None
        } else {
            Some(t)
        }
    }
}

/// The identifiers on data lines `ls`, in order.
pub open spec fn scan_ids(ls: Seq<Seq<char>>, start: int) -> Seq<Seq<char>>
    decreases ls.len(),
{
    if ls.len() == 0 {
        seq![]
    } else {
        let r = scan_ids(ls.drop_last(), start);
        match scan_line_id(ls.last(), start) {
            Some(t) => r.push(t),
            None => r,
        }
    }
}

/// What a scan listing `text` says: the identifiers of its data lines, or
/// why it cannot be read.
pub open spec fn scan_listing(text: Seq<char>) -> Result<Seq<Seq<char>>, ListError> {
    let ls = lines_of(text);
    if ls.len() == 0 {
        Err(ListError::MissingHeader)
    } else {
        match id_column(ls[0]) {
            Some(start) => Ok(scan_ids(ls.drop_first(), start)),
            None => Err(ListError::MissingIdColumn),
        }
    }
}

/// The identifier on data line `l` of the saved-connections listing: what
/// stands before its first whitespace; none if it has no whitespace.
pub open spec fn known_line_id(l: Seq<char>) -> Option<Seq<char>> {
    let e = token_end(l, 0);
    if e < l.len() {
        Some(l.subrange(0, e))
    } else {
        None
    }
}

/// The identifiers on data lines `ls`, or the index among them of the first
/// one that has none.
pub open spec fn known_ids(ls: Seq<Seq<char>>) -> Result<Seq<Seq<char>>, int>
    decreases ls.len(),
{
    if ls.len() == 0 {
        Ok(seq![])
    } else {
        match known_ids(ls.drop_last()) {
            Err(k) => Err(k),
            Ok(r) => match known_line_id(ls.last()) {
                Some(t) => Ok(r.push(t)),
                None => Err(ls.len() - 1),
            },
        }
    }
}

/// What a saved-connections listing `text` says: the identifiers of its data
/// lines, or the line that has none.
pub open spec fn known_listing(text: Seq<char>) -> Result<Seq<Seq<char>>, ListError> {
    let ls = lines_of(text);
    if ls.len() == 0 {
        Ok(seq![])
    } else {
        match known_ids(ls.drop_first()) {
            Ok(r) => Ok(r),
            Err(k) => Err(ListError::MalformedRecord((k + 1) as usize)),
        }
    }
}

/// The identifiers that a parse result holds.
pub open spec fn ids_result(r: Result<Vec<String>, ListError>) -> Result<Seq<Seq<char>>, ListError> {
    match r {
        Ok(v) => Ok(ids_view(v@)),
        Err(e) => Err(e),
    }
}

proof fn lemma_title_from(h: Seq<char>, i: int)
    ensures
        title_from(h, i) matches Some(q) ==> i <= q && title_at(h, q),
    decreases h.len() - i,
{
    if !(i < 0 || i + 5 > h.len()) && !title_at(h, i) {
        lemma_title_from(h, i + 1);
    }
}

/// A data line whose token at the identifier column is the placeholder
/// gives no identifier: the listing's identifiers are those of the other
/// lines.
pub proof fn lemma_placeholder_gives_no_id(h: Seq<char>, l: Seq<char>, p: int)
    requires
        id_column(h) == Some(p),
        p + 2 <= l.len(),
        l.subrange(p, p + 2) == placeholder(),
        p + 2 == l.len() || is_blank(l[p + 2]),
    ensures
        scan_line_id(l, p) is None,
        forall|ls: Seq<Seq<char>>| #[trigger] scan_ids(ls.push(l), p) == scan_ids(ls, p),
{
    lemma_title_from(h, 0);
    assert(l[p] == l.subrange(p, p + 2)[0] && l[p + 1] == l.subrange(p, p + 2)[1]);
    assert(token_end(l, p + 2) == p + 2);
    assert(token_end(l, p + 1) == p + 2);
    assert(token_end(l, p) == p + 2);
    assert forall|ls: Seq<Seq<char>>| #[trigger] scan_ids(ls.push(l), p) == scan_ids(ls, p) by {
        assert(ls.push(l).drop_last() =~= ls);
    }
}

/// A data line that stops before the identifier column gives no identifier:
/// the listing's identifiers are those of the other lines.
pub proof fn lemma_short_line_gives_no_id(h: Seq<char>, l: Seq<char>, p: int)
    requires
        id_column(h) == Some(p),
        l.len() < p,
    ensures
        scan_line_id(l, p) is None,
        forall|ls: Seq<Seq<char>>| #[trigger] scan_ids(ls.push(l), p) == scan_ids(ls, p),
{
    assert forall|ls: Seq<Seq<char>>| #[trigger] scan_ids(ls.push(l), p) == scan_ids(ls, p) by {
        assert(ls.push(l).drop_last() =~= ls);
    }
}

fn is_blank_char(c: char) -> (r: bool)
    ensures
        r == is_blank(c),
{
    c == ' ' || c == '\t' || c == '\n' || c == '\x0C' || c == '\r'
}

fn title_at_exec(h: &[char], p: usize) -> (r: bool)
    requires
        p + 5 <= h@.len(),
    ensures
        r == title_at(h@, p as int),
{
    let r = h[p] == ' ' && h[p + 1] == 'S' && h[p + 2] == 'S' && h[p + 3] == 'I' && h[p + 4] == 'D';
    proof {
        let w = h@.subrange(p as int, p + 5);
        if r {
            assert(w =~= id_title());
        } else {
            assert(w[0] == h@[p as int] && w[1] == h@[p + 1] && w[2] == h@[p + 2] && w[3] == h@[p
                + 3] && w[4] == h@[p + 4]);
            assert(id_title()[0] == ' ' && id_title()[1] == 'S' && id_title()[2] == 'S'
                && id_title()[3] == 'I' && id_title()[4] == 'D');
        }
    }
    r
}

/// The first position of the identifier column's title in header `h`.
fn title_position(h: &[char]) -> (r: Option<usize>)
    ensures
        match r {
            Some(p) => title_from(h@, 0) == Some(p as int) && p + 5 <= h@.len(),
            None => title_from(h@, 0) is None,
        },
{
    let mut p: usize = 0;
    while h.len() >= 5 && p <= h.len() - 5
        invariant
            p <= h@.len(),
            title_from(h@, 0) == title_from(h@, p as int),
        decreases h@.len() - p,
    {
        if title_at_exec(h, p) {
            return Some(p);
        }
        p = p + 1;
    }
    None
}

/// The end of the token of `l` that starts at `i`.
fn token_end_exec(l: &[char], i: usize) -> (r: usize)
    requires
        i <= l@.len(),
    ensures
        r as int == token_end(l@, i as int),
        i <= r <= l@.len(),
{
    let mut j: usize = i;
    while j < l.len()
        invariant
            i <= j <= l@.len(),
            token_end(l@, i as int) == token_end(l@, j as int),
        decreases l@.len() - j,
    {
        if is_blank_char(l[j]) {
            return j;
        }
        j = j + 1;
    }
    j
}

/// Whether `l[start..e]` is the placeholder.
fn is_placeholder(l: &[char], start: usize, e: usize) -> (r: bool)
    requires
        start <= e <= l@.len(),
    ensures
        r == (l@.subrange(start as int, e as int) == placeholder()),
{
    let r = e - start == 2 && l[start] == '-' && l[start + 1] == '-';
    proof {
        let t = l@.subrange(start as int, e as int);
        if r {
            assert(t =~= placeholder());
        } else if t.len() == 2 {
            assert(t[0] == l@[start as int] && t[1] == l@[start + 1]);
            assert(placeholder()[0] == '-' && placeholder()[1] == '-');
        }
    }
    r
}

/// Reads the wireless scan listing: the header locates the identifier
/// column, and each data line that reaches the column gives the token that
/// starts there, unless it is the placeholder.
pub fn parse_scan_listing(text: &str) -> (r: Result<Vec<String>, ListError>)
    ensures
        ids_result(r) == scan_listing(text@),
{
    let c = chars_of(text);
    let spans = line_spans(&c);
    let ghost ls = lines_of(c@);
    assert(ls == spans_of(c@, spans@));
    if spans.len() == 0 {
        return Err(ListError::MissingHeader);
    }
    let (ha, hb) = spans[0];
    let header = slice_subrange(c.as_slice(), ha, hb);
    assert(header@ == ls[0]);
    let start: usize = match title_position(header) {
        Some(p) => p + 1,
        None => {
            return Err(ListError::MissingIdColumn);
        },
    };
    let mut ids: Vec<String> = Vec::new();
    let mut k: usize = 1;
    while k < spans.len()
        invariant
            1 <= k <= spans@.len(),
            c@ == text@,
            ls == spans_of(c@, spans@),
            ls == lines_of(text@),
            spans_within(c@.len(), spans@),
            ids_view(ids@) == scan_ids(ls.subrange(1, k as int), start as int),
        decreases spans@.len() - k,
    {
        let (a, b) = spans[k];
        let line = slice_subrange(c.as_slice(), a, b);
        assert(line@ == ls[k as int]);
        let ghost prev = ids@;
        assert(ls.subrange(1, k + 1).drop_last() =~= ls.subrange(1, k as int));
        if line.len() > start {
            let e = token_end_exec(line, start);
            if !is_placeholder(line, start, e) {
                let id = text.substring_char(a + start, a + e).to_owned();
                assert(id@ =~= line@.subrange(start as int, e as int));
                ids.push(id);
                assert(ids_view(ids@) =~= ids_view(prev).push(id@));
            }
        }
        k = k + 1;
    }
    assert(ls.subrange(1, k as int) =~= ls.drop_first());
    Ok(ids)
}

/// Reads the saved-connections listing: each data line gives what stands
/// before its first whitespace; a data line without whitespace makes the
/// whole listing unreadable.
pub fn parse_known_listing(text: &str) -> (r: Result<Vec<String>, ListError>)
    ensures
        ids_result(r) == known_listing(text@),
{
    let c = chars_of(text);
    let spans = line_spans(&c);
    let ghost ls = lines_of(c@);
    assert(ls == spans_of(c@, spans@));
    let mut ids: Vec<String> = Vec::new();
    if spans.len() == 0 {
        assert(ids_view(ids@) =~= Seq::<Seq<char>>::empty());
        return Ok(ids);
    }
    let mut k: usize = 1;
    assert(ls.subrange(1, 1) =~= Seq::<Seq<char>>::empty());
    assert(ids_view(ids@) =~= Seq::<Seq<char>>::empty());
    while k < spans.len()
        invariant
            1 <= k <= spans@.len(),
            c@ == text@,
            ls == spans_of(c@, spans@),
            ls == lines_of(text@),
            spans_within(c@.len(), spans@),
            known_ids(ls.subrange(1, k as int)) == Ok::<Seq<Seq<char>>, int>(ids_view(ids@)),
        decreases spans@.len() - k,
    {
        let (a, b) = spans[k];
        let line = slice_subrange(c.as_slice(), a, b);
        assert(line@ == ls[k as int]);
        let ghost prev = ids@;
        assert(ls.subrange(1, k + 1).drop_last() =~= ls.subrange(1, k as int));
        let e = token_end_exec(line, 0);
        if e == line.len() {
            proof {
                assert(ls.subrange(1, k + 1).last() == line@);
                assert(known_line_id(line@) is None);
                assert(known_ids(ls.subrange(1, k + 1)) == Err::<Seq<Seq<char>>, int>(k - 1));
                assert(ls.drop_first().subrange(0, k as int) =~= ls.subrange(1, k + 1));
                lemma_known_ids_prefix_error(ls.drop_first(), k as int);
                assert(known_ids(ls.drop_first()) == Err::<Seq<Seq<char>>, int>(k - 1));
                assert(((k - 1) + 1) as usize == k);
            }
            return Err(ListError::MalformedRecord(k));
        }
        let id = text.substring_char(a, a + e).to_owned();
        assert(id@ =~= line@.subrange(0, e as int));
        ids.push(id);
        assert(ids_view(ids@) =~= ids_view(prev).push(id@));
        k = k + 1;
    }
    assert(ls.subrange(1, k as int) =~= ls.drop_first());
    Ok(ids)
}

/// An error among the first `n` data lines is the error of all of them.
proof fn lemma_known_ids_prefix_error(ls: Seq<Seq<char>>, n: int)
    requires
        0 <= n <= ls.len(),
        known_ids(ls.subrange(0, n)) is Err,
    ensures
        known_ids(ls) == known_ids(ls.subrange(0, n)),
    decreases ls.len(),
{
    if n < ls.len() {
        assert(ls.drop_last().subrange(0, n) =~= ls.subrange(0, n));
        lemma_known_ids_prefix_error(ls.drop_last(), n);
    } else {
        assert(ls.subrange(0, n) =~= ls);
    }
}

} // verus!
