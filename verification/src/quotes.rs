//! Finding the nearest quote pair around a selection.
use vstd::prelude::*;
use crate::editor::EditorSelection;
use crate::pairs::{Pair, DelimiterMatch, delimits};
use crate::brackets::u64_to_usize;
use crate::text::{
    CharTable,
    byte_offset,
    byte_len,
    char_width,
    char_width_exec,
    is_boundary,
    is_char_boundary,
    char_index,
    line_start_index,
    line_end_index,
    line_start,
    line_end,
    text_len,
    lemma_byte_offset_step,
    lemma_byte_offset_strict,
    lemma_byte_offset_bound,
    lemma_char_index,
    lemma_boundary,
    lemma_line_start,
    lemma_line_end,
};

verus! {

/// The start of the line `n` lines above the line that starts at index `m`
/// (or the start of `s`).
pub open spec fn lines_up(s: Seq<char>, m: int, n: nat) -> int
    decreases n,
{
    if n == 0 || m <= 0 {
        m
    } else {
        lines_up(s, line_start_index(s, m - 1), (n - 1) as nat)
    }
}

/// The end of the line `n` lines below the line that ends at index `m` (or
/// the end of `s`).
pub open spec fn lines_down(s: Seq<char>, m: int, n: nat) -> int
    decreases n,
{
    if n == 0 || m >= s.len() {
        m
    } else {
        lines_down(s, line_end_index(s, m + 1), (n - 1) as nat)
    }
}

proof fn lemma_lines_up(s: Seq<char>, m: int, n: nat)
    requires
        0 <= m <= s.len(),
    ensures
        0 <= lines_up(s, m, n) <= m,
    decreases n,
{
    if n > 0 && m > 0 {
        lemma_line_start(s, m - 1);
        lemma_lines_up(s, line_start_index(s, m - 1), (n - 1) as nat);
    }
}

proof fn lemma_lines_down(s: Seq<char>, m: int, n: nat)
    requires
        0 <= m <= s.len(),
    ensures
        m <= lines_down(s, m, n) <= s.len(),
    decreases n,
{
    if n > 0 && m < s.len() {
        lemma_line_end(s, m + 1);
        lemma_lines_down(s, line_end_index(s, m + 1), (n - 1) as nat);
    }
}

/// The character range searched first for quotes around the selection from
/// `start` to `end`: its lines widened by `tolerance` lines on each side.
pub open spec fn tolerant_lines(s: Seq<char>, start: int, end: int, tolerance: nat) -> (int, int) {
    (
        lines_up(s, line_start_index(s, char_index(s, start)), tolerance),
        lines_down(s, line_end_index(s, char_index(s, end)), tolerance),
    )
}

/// The byte range of the lines from `start` to `end`, widened by
/// `line_tolerance` lines above and below.
pub fn line_tolerant_range(text: &str, start: usize, end: usize, line_tolerance: usize) -> (r:
    Option<std::ops::Range<usize>>)
    requires
        is_boundary(text@, start as int),
        is_boundary(text@, end as int),
    ensures
        r matches Some(range) && range.start == byte_offset(
            text@,
            tolerant_lines(text@, start as int, end as int, line_tolerance as nat).0,
        ) && range.end == byte_offset(
            text@,
            tolerant_lines(text@, start as int, end as int, line_tolerance as nat).1,
        ),
        r matches Some(range) ==> range.start <= start && end <= range.end,
{
    let ghost s = text@;
    let ghost ms = char_index(s, start as int);
    let ghost me = char_index(s, end as int);
    let total = text_len(text);
    let selection_line_start = line_start(text, start);
    let selection_line_end = line_end(text, end);
    let mut range_start = selection_line_start;
    let mut range_end = selection_line_end;
    let ghost mut up = line_start_index(s, ms);
    let ghost mut down = line_end_index(s, me);
    proof {
        lemma_boundary(s, start as int);
        lemma_boundary(s, end as int);
        lemma_line_start(s, ms);
        lemma_line_end(s, me);
    }
    let mut count: usize = 0;
    while count < line_tolerance
        invariant
            s == text@,
            total == byte_len(s),
            count <= line_tolerance,
            0 <= up <= ms <= s.len(),
            up == 0 || s[up - 1] == '\n',
            range_start == byte_offset(s, up),
            lines_up(s, up, (line_tolerance - count) as nat) == lines_up(
                s,
                line_start_index(s, ms),
                line_tolerance as nat,
            ),
        ensures
            up == 0 || count == line_tolerance,
            0 <= up <= ms <= s.len(),
            range_start == byte_offset(s, up),
            lines_up(s, up, (line_tolerance - count) as nat) == lines_up(
                s,
                line_start_index(s, ms),
                line_tolerance as nat,
            ),
        decreases line_tolerance - count,
    {
        if range_start == 0 {
            proof {
                if up > 0 {
                    lemma_byte_offset_strict(s, 0, up);
                }
            }
            break ;
        }
        proof {
            lemma_byte_offset_step(s, up - 1);
            lemma_char_index(s, up - 1);
            lemma_line_start(s, up - 1);
        }
        range_start = line_start(text, range_start - 1);
        proof {
            up = line_start_index(s, up - 1);
        }
        count = count + 1;
    }
    let mut count: usize = 0;
    while count < line_tolerance
        invariant
            s == text@,
            total == byte_len(s),
            count <= line_tolerance,
            0 <= me <= down <= s.len(),
            down == s.len() || s[down] == '\n',
            range_end == byte_offset(s, down),
            lines_down(s, down, (line_tolerance - count) as nat) == lines_down(
                s,
                line_end_index(s, me),
                line_tolerance as nat,
            ),
        ensures
            down == s.len() || count == line_tolerance,
            0 <= me <= down <= s.len(),
            range_end == byte_offset(s, down),
            lines_down(s, down, (line_tolerance - count) as nat) == lines_down(
                s,
                line_end_index(s, me),
                line_tolerance as nat,
            ),
        decreases line_tolerance - count,
    {
        proof {
            assert(s.take(s.len() as int) =~= s);
            if down < s.len() {
                lemma_byte_offset_strict(s, down, s.len() as int);
            }
        }
        if range_end >= total {
            break ;
        }
        proof {
            lemma_byte_offset_step(s, down);
            lemma_char_index(s, down + 1);
            lemma_line_end(s, down + 1);
        }
        range_end = line_end(text, range_end + 1);
        proof {
            down = line_end_index(s, down + 1);
        }
        count = count + 1;
    }
    proof {
        lemma_line_start(s, ms);
        lemma_line_end(s, me);
        lemma_lines_up(s, up, (line_tolerance - count) as nat);
        lemma_lines_down(s, down, (line_tolerance - count) as nat);
        lemma_char_index(s, up);
        lemma_char_index(s, down);
        lemma_char_index(s, ms);
        lemma_char_index(s, me);
        if up < ms {
            lemma_byte_offset_strict(s, up, ms);
        }
        if me < down {
            lemma_byte_offset_strict(s, me, down);
        }
    }
    if is_char_boundary(text, range_start) && is_char_boundary(text, range_end) {
        Some(range_start..range_end)
    } else {
        None
    }
}

/// The state of a left-to-right scan for quotes: whether the previous
/// character escapes the next one, the index of a quote still open, and the
/// spans closed so far (as indices of their two quotes).
pub struct QuoteScan {
    pub escaped: bool,
    pub open: Option<int>,
    pub spans: Seq<(int, int)>,
}

/// One step of the scan for the quote `q` over the character `c` at `index`:
/// a backslash escapes the next character, and an unescaped quote opens a
/// span or closes the one that is open.
pub open spec fn quote_step(st: QuoteScan, c: char, index: int, q: char) -> QuoteScan {
    if st.escaped {
        QuoteScan { escaped: false, ..st }
    } else if c == '\\' {
        QuoteScan { escaped: true, ..st }
    } else if c != q {
        st
    } else {
        match st.open {
            Some(o) => QuoteScan { escaped: false, open: None, spans: st.spans.push((o, index)) },
            None => QuoteScan { escaped: false, open: Some(index), spans: st.spans },
        }
    }
}

/// The scan for the quote `q` over the characters of `s` from `lo` up to `i`.
pub open spec fn quote_scan(s: Seq<char>, lo: int, i: int, q: char) -> QuoteScan
    decreases i - lo,
{
    if i <= lo {
        QuoteScan { escaped: false, open: None, spans: seq![] }
    } else {
        quote_step(quote_scan(s, lo, i - 1, q), s[i - 1], i - 1, q)
    }
}

/// The span from quote index `o` to quote index `c` holds the selection
/// from `cursor` to `end`: the cursor lies after the opening quote and before
/// the end of the closing one, and the selection ends before the closing
/// quote.
pub open spec fn span_holds(s: Seq<char>, o: int, c: int, cursor: int, end: int) -> bool {
    cursor > byte_offset(s, o) && cursor < byte_offset(s, c) + char_width(s[c]) && end
        <= byte_offset(s, c)
}

/// The spans of `spans` that hold the selection, as delimiter matches.
pub open spec fn span_candidates(
    s: Seq<char>,
    spans: Seq<(int, int)>,
    pair: Pair,
    cursor: int,
    selection: EditorSelection,
) -> Seq<DelimiterMatch>
    decreases spans.len(),
{
    if spans.len() == 0 {
        seq![]
    } else {
        let (o, c) = spans.last();
        span_candidates(s, spans.drop_last(), pair, cursor, selection) + if span_holds(
            s,
            o,
            c,
            cursor,
            selection.end as int,
        ) {
            seq![
                DelimiterMatch {
                    open: byte_offset(s, o) as usize,
                    close: byte_offset(s, c) as usize,
                    pair,
                    selection,
                },
            ]
        } else {
            seq![]
        }
    }
}

/// The quote spans around the cursor within the characters `lo..hi`, for
/// each pair of `pairs` whose two delimiters are the same, in order.
pub open spec fn quote_candidates(
    s: Seq<char>,
    pairs: Seq<Pair>,
    lo: int,
    hi: int,
    cursor: int,
    selection: EditorSelection,
) -> Seq<DelimiterMatch>
    decreases pairs.len(),
{
    if pairs.len() == 0 {
        seq![]
    } else {
        let p = pairs.last();
        quote_candidates(s, pairs.drop_last(), lo, hi, cursor, selection) + if p.open == p.close {
            span_candidates(s, quote_scan(s, lo, hi, p.open).spans, p, cursor, selection)
        } else {
            seq![]
        }
    }
}

/// Keeps `best` unless `candidate` lies within it (or there is none).
pub open spec fn prefer_inner(best: Option<DelimiterMatch>, candidate: DelimiterMatch) -> Option<
    DelimiterMatch,
> {
    match best {
        None => Some(candidate),
        Some(b) => if candidate.open >= b.open && candidate.close <= b.close {
            Some(candidate)
        } else {
            best
        },
    }
}

/// The candidate that the search keeps: each later candidate that lies
/// within the kept one replaces it.
pub open spec fn best_candidate(candidates: Seq<DelimiterMatch>) -> Option<DelimiterMatch>
    decreases candidates.len(),
{
    if candidates.len() == 0 {
        None
    } else {
        prefer_inner(best_candidate(candidates.drop_last()), candidates.last())
    }
}

/// The innermost quote pair around the selection within the byte range
/// `lo..hi`.
pub open spec fn quote_in_range(
    s: Seq<char>,
    selection: EditorSelection,
    pairs: Seq<Pair>,
    lo: int,
    hi: int,
) -> Option<DelimiterMatch> {
    if selection.start > usize::MAX {
        None
    } else {
        best_candidate(
            quote_candidates(
                s,
                pairs,
                char_index(s, lo),
                char_index(s, hi),
                selection.start as int,
                selection,
            ),
        )
    }
}

proof fn lemma_best_candidate_append(a: Seq<DelimiterMatch>, b: Seq<DelimiterMatch>, x: DelimiterMatch)
    ensures
        best_candidate(a + b.push(x)) == prefer_inner(best_candidate(a + b), x),
{
    assert((a + b.push(x)).drop_last() =~= a + b);
}

/// Finds, among the pairs of `pairs` whose two delimiters are the same, the
/// innermost quote span within `range` that encloses the selection.
pub fn find_quote_in_range(
    text: &str,
    selection: EditorSelection,
    pairs: &[Pair],
    range: std::ops::Range<usize>,
) -> (r: Option<DelimiterMatch>)
    requires
        range.start <= range.end,
        is_boundary(text@, range.start as int),
        is_boundary(text@, range.end as int),
    ensures
        r == quote_in_range(text@, selection, pairs@, range.start as int, range.end as int),
{
    let cursor = u64_to_usize(selection.start)?;
    let table = CharTable::of(text);
    let ghost s = text@;
    let lo = table.index_of(range.start).unwrap();
    let hi = table.index_of(range.end).unwrap();
    proof {
        if hi < lo {
            lemma_byte_offset_strict(s, hi as int, lo as int);
        }
    }
    let mut best_match: Option<DelimiterMatch> = None;
    let mut p: usize = 0;
    while p < pairs.len()
        invariant
            table.describes(s),
            s == text@,
            lo <= hi <= s.len(),
            lo == char_index(s, range.start as int),
            hi == char_index(s, range.end as int),
            cursor == selection.start,
            p <= pairs@.len(),
            best_match == best_candidate(
                quote_candidates(s, pairs@.take(p as int), lo as int, hi as int, cursor as int, selection),
            ),
        decreases pairs@.len() - p,
    {
        let pair = pairs[p];
        assert(pairs@.take(p + 1).drop_last() =~= pairs@.take(p as int));
        assert(pairs@.take(p + 1).last() == pair);
        let ghost before = quote_candidates(
            s,
            pairs@.take(p as int),
            lo as int,
            hi as int,
            cursor as int,
            selection,
        );
        if pair.open != pair.close {
            assert(before + seq![] =~= before);
            p = p + 1;
            continue ;
        }
        let q = pair.open;
        let mut open: Option<usize> = None;
        let mut escaped = false;
        let mut i = lo;
        assert(before + seq![] =~= before);
        while i < hi
            invariant
                table.describes(s),
                s == text@,
                lo <= i <= hi <= s.len(),
                cursor == selection.start,
                q == pair.open,
                escaped == quote_scan(s, lo as int, i as int, q).escaped,
                match quote_scan(s, lo as int, i as int, q).open {
                    Some(o) => open matches Some(v) && v == byte_offset(s, o) && lo <= o < i,
                    None => open is None,
                },
                forall|k: int|
                    0 <= k < quote_scan(s, lo as int, i as int, q).spans.len() ==> {
                        let (o, c) = #[trigger] quote_scan(s, lo as int, i as int, q).spans[k];
                        lo <= o < c < i
                    },
                best_match == best_candidate(
                    before + span_candidates(
                        s,
                        quote_scan(s, lo as int, i as int, q).spans,
                        pair,
                        cursor as int,
                        selection,
                    ),
                ),
            decreases hi - i,
        {
            let index = table.offsets[i];
            let character = table.chars[i];
            let ghost st = quote_scan(s, lo as int, i as int, q);
            assert(quote_scan(s, lo as int, i + 1, q) == quote_step(st, character, i as int, q));
            if escaped {
                escaped = false;
                i = i + 1;
                continue ;
            }
            if character == '\\' {
                escaped = true;
                i = i + 1;
                continue ;
            }
            if character != q {
                i = i + 1;
                continue ;
            }
            match open {
                Some(open_index) => {
                    let ghost o = st.open->0;
                    proof {
                        lemma_byte_offset_step(s, i as int);
                        lemma_byte_offset_bound(s, i + 1);
                    }
                    let width = char_width_exec(character);
                    assert(table.offsets@[i + 1] == byte_offset(s, i + 1));
                    assert(open_index == byte_offset(s, o));
                    if cursor > open_index && cursor < index + width && selection.end <= index as u64 {
                        let candidate = DelimiterMatch {
                            open: open_index,
                            close: index,
                            pair,
                            selection,
                        };
                        let keep = match best_match {
                            None => true,
                            Some(current) => candidate.open >= current.open && candidate.close
                                <= current.close,
                        };
                        proof {
                            assert(span_candidates(s, st.spans.push((o, i as int)), pair, cursor as int, selection)
                                == span_candidates(s, st.spans, pair, cursor as int, selection).push(candidate)) by {
                                assert(st.spans.push((o, i as int)).drop_last() =~= st.spans);
                                assert(st.spans.push((o, i as int)).last() == (o, i as int));
                                assert(span_holds(s, o, i as int, cursor as int, selection.end as int));
                                assert(candidate.open == byte_offset(s, o) as usize);
                                assert(candidate.close == byte_offset(s, i as int) as usize);
                            }
                            lemma_best_candidate_append(before, span_candidates(s, st.spans, pair, cursor as int, selection), candidate);
                        }
                        if keep {
                            best_match = Some(candidate);
                        }
                    } else {
                        proof {
                            assert(st.spans.push((o, i as int)).drop_last() =~= st.spans);
                            assert(span_candidates(s, st.spans.push((o, i as int)), pair, cursor as int, selection)
                                =~= span_candidates(s, st.spans, pair, cursor as int, selection));
                        }
                    }
                    open = None;
                },
                None => {
                    open = Some(index);
                },
            }
            i = i + 1;
        }
        p = p + 1;
    }
    assert(pairs@.take(pairs@.len() as int) =~= pairs@);
    best_match
}

/// The nearest quote pair around `selection`: searched first within the
/// selection's lines widened by `tolerance` lines, then in the whole text.
pub open spec fn quotes_around(
    s: Seq<char>,
    selection: EditorSelection,
    pairs: Seq<Pair>,
    tolerance: nat,
) -> Option<DelimiterMatch> {
    let start = selection.start as int;
    let end = selection.end as int;
    if start > usize::MAX || end > usize::MAX || start > end || !is_boundary(s, start)
        || !is_boundary(s, end) {
        None
    } else {
        let (lo, hi) = tolerant_lines(s, start, end, tolerance);
        match quote_in_range(
            s,
            selection,
            pairs,
            byte_offset(s, lo) as int,
            byte_offset(s, hi) as int,
        ) {
            Some(m) => Some(m),
            None => quote_in_range(s, selection, pairs, 0, byte_len(s) as int),
        }
    }
}

/// Finds the nearest quote pair of `pairs` around `selection`, looking first
/// within `line_tolerance` lines of it.
pub fn find_quotes_around_selection(
    text: &str,
    selection: EditorSelection,
    pairs: &[Pair],
    line_tolerance: usize,
) -> (r: Option<DelimiterMatch>)
    ensures
        r == quotes_around(text@, selection, pairs@, line_tolerance as nat),
{
    let ghost s = text@;
    let start = u64_to_usize(selection.start)?;
    let end = u64_to_usize(selection.end)?;
    if start > end || !is_char_boundary(text, start) || !is_char_boundary(text, end) {
        return None;
    }
    let search_range = line_tolerant_range(text, start, end, line_tolerance)?;
    let ghost lines = tolerant_lines(s, start as int, end as int, line_tolerance as nat);
    proof {
        lemma_boundary(s, start as int);
        lemma_boundary(s, end as int);
        lemma_line_start(s, char_index(s, start as int));
        lemma_line_end(s, char_index(s, end as int));
        lemma_lines_up(s, line_start_index(s, char_index(s, start as int)), line_tolerance as nat);
        lemma_lines_down(s, line_end_index(s, char_index(s, end as int)), line_tolerance as nat);
        lemma_char_index(s, lines.0);
        lemma_char_index(s, lines.1);
        if lines.0 < lines.1 {
            lemma_byte_offset_strict(s, lines.0, lines.1);
        }
    }
    match find_quote_in_range(text, selection, pairs, search_range) {
        Some(found) => Some(found),
        None => {
            let total = text_len(text);
            proof {
                assert(s.take(0) =~= seq![]);
                assert(s.take(s.len() as int) =~= s);
                lemma_char_index(s, 0);
                lemma_char_index(s, s.len() as int);
            }
            find_quote_in_range(text, selection, pairs, 0..total)
        },
    }
}

/// `m` is a pair of equal quotes of `s` around the selection from `cursor`
/// to `end`: its opening quote starts before the cursor, its closing quote
/// ends after the cursor and starts at or after the selection's end.
pub open spec fn quotes_hold(s: Seq<char>, m: DelimiterMatch, cursor: int, end: int) -> bool {
    &&& delimits(s, m)
    &&& m.pair.open == m.pair.close
    &&& m.open < cursor
    &&& cursor < m.close + char_width(m.pair.close)
    &&& end <= m.close
}

/// A quote pair found around a selection lies on two equal quotes of the
/// text that enclose the whole selection.
pub proof fn lemma_quotes_around_delimits(
    s: Seq<char>,
    selection: EditorSelection,
    pairs: Seq<Pair>,
    tolerance: nat,
)
    requires
        byte_len(s) <= usize::MAX,
    ensures
        quotes_around(s, selection, pairs, tolerance) matches Some(m) ==> quotes_hold(
            s,
            m,
            selection.start as int,
            selection.end as int,
        ) && m.open < selection.start && selection.end <= m.close,
{
    let start = selection.start as int;
    let end = selection.end as int;
    if !(start > usize::MAX || end > usize::MAX || start > end || !is_boundary(s, start)
        || !is_boundary(s, end)) {
        let (lo, hi) = tolerant_lines(s, start, end, tolerance);
        lemma_boundary(s, start);
        lemma_boundary(s, end);
        lemma_line_start(s, char_index(s, start));
        lemma_line_end(s, char_index(s, end));
        lemma_lines_up(s, line_start_index(s, char_index(s, start)), tolerance);
        lemma_lines_down(s, line_end_index(s, char_index(s, end)), tolerance);
        lemma_char_index(s, lo);
        lemma_char_index(s, hi);
        lemma_char_index(s, 0);
        lemma_char_index(s, s.len() as int);
        assert(s.take(0) =~= seq![]);
        assert(s.take(s.len() as int) =~= s);
        lemma_quote_in_range_delimits(
            s,
            selection,
            pairs,
            byte_offset(s, lo) as int,
            byte_offset(s, hi) as int,
        );
        lemma_quote_in_range_delimits(s, selection, pairs, 0, byte_len(s) as int);
    }
}

pub proof fn lemma_quote_scan(s: Seq<char>, lo: int, i: int, q: char)
    requires
        0 <= lo,
        i <= s.len(),
    ensures
        quote_scan(s, lo, i, q).open matches Some(o) ==> lo <= o < i && s[o] == q,
        forall|k: int|
            0 <= k < quote_scan(s, lo, i, q).spans.len() ==> {
                let (o, c) = #[trigger] quote_scan(s, lo, i, q).spans[k];
                lo <= o < c < i && s[o] == q && s[c] == q
            },
    decreases i - lo,
{
    if i > lo {
        lemma_quote_scan(s, lo, i - 1, q);
        let st = quote_scan(s, lo, i - 1, q);
        if !st.escaped && s[i - 1] != '\\' && s[i - 1] == q && st.open is Some {
            let o = st.open->0;
            assert forall|k: int|
                0 <= k < quote_scan(s, lo, i, q).spans.len() implies {
                    let (o, c) = #[trigger] quote_scan(s, lo, i, q).spans[k];
                    lo <= o < c < i && s[o] == q && s[c] == q
                } by {
                if k < st.spans.len() {
                    assert(quote_scan(s, lo, i, q).spans[k] == st.spans[k]);
                }
            }
        }
    }
}

/// Every candidate of `spans` is a pair of equal quotes around the
/// selection.
proof fn lemma_span_candidates(
    s: Seq<char>,
    spans: Seq<(int, int)>,
    pair: Pair,
    cursor: int,
    selection: EditorSelection,
)
    requires
        byte_len(s) <= usize::MAX,
        pair.open == pair.close,
        forall|k: int|
            0 <= k < spans.len() ==> {
                let (o, c) = #[trigger] spans[k];
                0 <= o < c < s.len() && s[o] == pair.open && s[c] == pair.close
            },
    ensures
        forall|k: int|
            0 <= k < span_candidates(s, spans, pair, cursor, selection).len() ==> quotes_hold(
                s,
                #[trigger] span_candidates(s, spans, pair, cursor, selection)[k],
                cursor,
                selection.end as int,
            ),
    decreases spans.len(),
{
    if spans.len() > 0 {
        let rest = spans.drop_last();
        assert forall|k: int| 0 <= k < rest.len() implies {
            let (o, c) = #[trigger] rest[k];
            0 <= o < c < s.len() && s[o] == pair.open && s[c] == pair.close
        } by {
            assert(rest[k] == spans[k]);
        }
        lemma_span_candidates(s, rest, pair, cursor, selection);
        let (o, c) = spans.last();
        assert(spans.last() == spans[spans.len() - 1]);
        lemma_byte_offset_bound(s, o);
        lemma_byte_offset_bound(s, c);
        let prev = span_candidates(s, rest, pair, cursor, selection);
        let all = span_candidates(s, spans, pair, cursor, selection);
        assert forall|k: int| 0 <= k < all.len() implies quotes_hold(
            s,
            #[trigger] all[k],
            cursor,
            selection.end as int,
        ) by {
            if k < prev.len() {
                assert(all[k] == prev[k]);
            } else {
                assert(s[o] == all[k].pair.open && s[c] == all[k].pair.close);
            }
        }
    }
}

/// Every candidate is a pair of equal quotes around the selection.
proof fn lemma_quote_candidates(
    s: Seq<char>,
    pairs: Seq<Pair>,
    lo: int,
    hi: int,
    cursor: int,
    selection: EditorSelection,
)
    requires
        byte_len(s) <= usize::MAX,
        0 <= lo,
        hi <= s.len(),
    ensures
        forall|k: int|
            0 <= k < quote_candidates(s, pairs, lo, hi, cursor, selection).len() ==> quotes_hold(
                s,
                #[trigger] quote_candidates(s, pairs, lo, hi, cursor, selection)[k],
                cursor,
                selection.end as int,
            ),
    decreases pairs.len(),
{
    if pairs.len() > 0 {
        lemma_quote_candidates(s, pairs.drop_last(), lo, hi, cursor, selection);
        let p = pairs.last();
        let prev = quote_candidates(s, pairs.drop_last(), lo, hi, cursor, selection);
        let all = quote_candidates(s, pairs, lo, hi, cursor, selection);
        if p.open == p.close {
            let spans = quote_scan(s, lo, hi, p.open).spans;
            lemma_quote_scan(s, lo, hi, p.open);
            assert forall|k: int| 0 <= k < spans.len() implies {
                let (o, c) = #[trigger] spans[k];
                0 <= o < c < s.len() && s[o] == p.open && s[c] == p.close
            } by {
                let (o, c) = spans[k];
                assert(lo <= o < c < hi);
            }
            lemma_span_candidates(s, spans, p, cursor, selection);
            let extra = span_candidates(s, spans, p, cursor, selection);
            assert forall|k: int| 0 <= k < all.len() implies quotes_hold(
                s,
                #[trigger] all[k],
                cursor,
                selection.end as int,
            ) by {
                if k < prev.len() {
                    assert(all[k] == prev[k]);
                } else {
                    assert(all[k] == extra[k - prev.len()]);
                }
            }
        } else {
            assert forall|k: int| 0 <= k < all.len() implies quotes_hold(
                s,
                #[trigger] all[k],
                cursor,
                selection.end as int,
            ) by {
                assert(all[k] == prev[k]);
            }
        }
    }
}

/// `inner` lies within `outer`.
pub open spec fn lies_within(inner: DelimiterMatch, outer: DelimiterMatch) -> bool {
    inner.open >= outer.open && inner.close <= outer.close
}

/// The kept candidate is one of the candidates (there is one whenever there
/// are candidates), and it is innermost: every candidate that lies within it
/// has its very bounds.
pub proof fn lemma_best_candidate(candidates: Seq<DelimiterMatch>)
    ensures
        best_candidate(candidates) matches Some(m) ==> candidates.contains(m),
        candidates.len() > 0 ==> best_candidate(candidates) is Some,
        best_candidate(candidates) matches Some(m) ==> forall|k: int|
            0 <= k < candidates.len() && lies_within(#[trigger] candidates[k], m) ==> candidates[k].open
                == m.open && candidates[k].close == m.close,
    decreases candidates.len(),
{
    if candidates.len() > 0 {
        let rest = candidates.drop_last();
        let x = candidates.last();
        lemma_best_candidate(rest);
        if let Some(m) = best_candidate(candidates) {
            if m != x {
                let b = best_candidate(rest)->0;
                let k = choose|k: int| 0 <= k < rest.len() && rest[k] == b;
                assert(candidates[k] == b);
            } else {
                assert(candidates[candidates.len() - 1] == m);
            }
            assert forall|k: int|
                0 <= k < candidates.len() && lies_within(#[trigger] candidates[k], m) implies candidates[k].open
                == m.open && candidates[k].close == m.close by {
                if k < rest.len() {
                    assert(candidates[k] == rest[k]);
                }
            }
        }
    }
}

/// A quote pair found within a range lies on two equal quotes of the text
/// that enclose the selection, and no other candidate span lies strictly
/// within it.
pub proof fn lemma_quote_in_range_delimits(
    s: Seq<char>,
    selection: EditorSelection,
    pairs: Seq<Pair>,
    lo: int,
    hi: int,
)
    requires
        byte_len(s) <= usize::MAX,
        is_boundary(s, lo),
        is_boundary(s, hi),
    ensures
        quote_in_range(s, selection, pairs, lo, hi) matches Some(m) ==> quotes_hold(
            s,
            m,
            selection.start as int,
            selection.end as int,
        ),
{
    if selection.start <= usize::MAX {
        lemma_boundary(s, lo);
        lemma_boundary(s, hi);
        let cands = quote_candidates(
            s,
            pairs,
            char_index(s, lo),
            char_index(s, hi),
            selection.start as int,
            selection,
        );
        lemma_quote_candidates(
            s,
            pairs,
            char_index(s, lo),
            char_index(s, hi),
            selection.start as int,
            selection,
        );
        lemma_best_candidate(cands);
        if let Some(m) = best_candidate(cands) {
            let k = choose|k: int| 0 <= k < cands.len() && cands[k] == m;
            assert(quotes_hold(s, cands[k], selection.start as int, selection.end as int));
        }
    }
}

} // verus!
