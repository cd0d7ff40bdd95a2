//! Properties of the searches for delimiters, stated by counting and by the
//! positions of delimiters in the text.
use vstd::prelude::*;
use crate::editor::EditorSelection;
use crate::pairs::{Pair, DelimiterMatch, first_with_close, first_with_open};
use crate::brackets::{
    opening_bracket,
    open_scan,
    closing_index,
    closes_at,
    nesting,
    lemma_first_close_from,
};
use crate::commands::{fits, selected_content};
use crate::laws::{count_of, closers_of, opening_only, lemma_count_push};
use crate::text::{
    byte_offset,
    byte_len,
    char_width,
    char_index,
    is_boundary,
    line_start_index,
    line_end_index,
    lemma_line_start,
    lemma_line_end,
};
use crate::quotes::{
    quote_scan,
    span_candidates,
    quote_candidates,
    quote_in_range,
    quotes_around,
    lines_up,
    lines_down,
    tolerant_lines,
    lemma_best_candidate,
};

verus! {

proof fn lemma_count_last(t: Seq<char>, c: char)
    requires
        t.len() > 0,
    ensures
        count_of(t, c) == count_of(t.drop_last(), c) + (if t.last() == c {
            1nat
        } else {
            0nat
        }),
{
    assert(t.drop_last().push(t.last()) =~= t);
    lemma_count_push(t.drop_last(), t.last(), c);
}

/// How far `t` nests inside `pair` is its count of opening delimiters less
/// its count of closing ones.
proof fn lemma_nesting_counts(t: Seq<char>, pair: Pair)
    requires
        pair.open != pair.close,
    ensures
        nesting(t, pair) == count_of(t, pair.open) - count_of(t, pair.close),
    decreases t.len(),
{
    if t.len() > 0 {
        lemma_nesting_counts(t.drop_last(), pair);
        lemma_count_last(t, pair.open);
        lemma_count_last(t, pair.close);
    }
}

/// The closing bracket found for a pair balances the position it is looked
/// for from: the text from there up to the closing bracket holds as many
/// opening brackets of the pair as closing ones, at any depth, and no part
/// of it that starts there holds more closing brackets than opening ones.
pub proof fn law_closing_bracket_balances(s: Seq<char>, k: int, pair: Pair)
    requires
        0 <= k <= s.len(),
        pair.open != pair.close,
    ensures
        closing_index(s, k, pair) matches Some(j) ==> {
            &&& k <= j < s.len()
            &&& s[j] == pair.close
            &&& count_of(s.subrange(k, j), pair.open) == count_of(s.subrange(k, j), pair.close)
            &&& forall|l: int|
                k <= l <= j ==> count_of(#[trigger] s.subrange(k, l), pair.close) <= count_of(
                    s.subrange(k, l),
                    pair.open,
                )
            &&& forall|l: int|
                k <= l < j && #[trigger] s[l] == pair.close ==> count_of(
                    s.subrange(k, l),
                    pair.open,
                ) != count_of(s.subrange(k, l), pair.close)
        },
        closing_index(s, k, pair) is None ==> forall|j: int|
            k <= j < s.len() && #[trigger] s[j] == pair.close ==> count_of(
                s.subrange(k, j),
                pair.open,
            ) != count_of(s.subrange(k, j), pair.close),
{
    lemma_first_close_from(s, k, k, pair);
    assert forall|j: int| k <= j < s.len() implies #[trigger] nesting(s.subrange(k, j), pair)
        == count_of(s.subrange(k, j), pair.open) - count_of(s.subrange(k, j), pair.close) by {
        lemma_nesting_counts(s.subrange(k, j), pair);
    }
    assert forall|j: int| k <= j < s.len() && #[trigger] s[j] == pair.close && !closes_at(
        s,
        k,
        j,
        pair,
    ) implies count_of(s.subrange(k, j), pair.open) != count_of(s.subrange(k, j), pair.close) by {
        lemma_nesting_counts(s.subrange(k, j), pair);
    }
    if let Some(j) = closing_index(s, k, pair) {
        lemma_nesting_counts(s.subrange(k, j), pair);
        assert forall|l: int| k <= l <= j implies count_of(
            #[trigger] s.subrange(k, l),
            pair.close,
        ) <= count_of(s.subrange(k, l), pair.open) by {
            lemma_nesting_nonnegative(s, k, j, l, pair);
            lemma_nesting_counts(s.subrange(k, l), pair);
        }
    }
}

proof fn lemma_nesting_nonnegative(s: Seq<char>, k: int, j: int, l: int, pair: Pair)
    requires
        0 <= k <= l <= j < s.len(),
        forall|p: int| k <= p < j ==> !closes_at(s, k, p, pair),
    ensures
        nesting(s.subrange(k, l), pair) >= 0,
    decreases l - k,
{
    if l > k {
        lemma_nesting_nonnegative(s, k, j, l - 1, pair);
        assert(s.subrange(k, l).drop_last() =~= s.subrange(k, l - 1));
        assert(s.subrange(k, l).last() == s[l - 1]);
        assert(!closes_at(s, k, l - 1, pair));
    } else {
        assert(s.subrange(k, l).len() == 0);
    }
}

proof fn lemma_scan_reaches(s: Seq<char>, pairs: Seq<Pair>, b: int, n: int, stack: Seq<char>, i: int)
    requires
        0 <= i < n <= b <= s.len(),
        forall|c: char|
            #[trigger] opening_only(pairs, c) ==> count_of(stack, c) + count_of(s.subrange(n, b), c)
                == closers_of(s.subrange(n, b), pairs, c),
        opening_only(pairs, s[i]),
        count_of(s.subrange(i, b), s[i]) > closers_of(s.subrange(i, b), pairs, s[i]),
    ensures
        open_scan(s.take(n), pairs, stack) matches Some(j) && i <= j < n,
    decreases n,
{
    let t = s.take(n);
    assert(t.drop_last() =~= s.take(n - 1));
    let x = s[n - 1];
    assert(t.last() == x);
    let seg = s.subrange(n - 1, b);
    assert(seg.drop_first() =~= s.subrange(n, b));
    assert(seg[0] == x);
    if n - 1 == i {
        let c = s[i];
        assert(opening_only(pairs, c));
        assert(count_of(stack, c) == 0);
        if stack.len() > 0 && stack.last() == c {
            lemma_count_last(stack, c);
        }
    } else {
        match first_with_close(pairs, x) {
            Some(p) => {
                let next = stack.push(p.open);
                assert forall|c: char| #[trigger] opening_only(pairs, c) implies count_of(next, c)
                    + count_of(seg, c) == closers_of(seg, pairs, c) by {
                    lemma_count_push(stack, p.open, c);
                }
                lemma_scan_reaches(s, pairs, b, n - 1, next, i);
            },
            None => match first_with_open(pairs, x) {
                Some(p) => {
                    if stack.len() > 0 && stack.last() == x {
                        let next = stack.drop_last();
                        assert(next.push(x) =~= stack);
                        assert forall|c: char| #[trigger] opening_only(pairs, c) implies count_of(
                            next,
                            c,
                        ) + count_of(seg, c) == closers_of(seg, pairs, c) by {
                            lemma_count_push(next, x, c);
                        }
                        lemma_scan_reaches(s, pairs, b, n - 1, next, i);
                    }
                },
                None => {
                    lemma_scan_reaches(s, pairs, b, n - 1, stack, i);
                },
            },
        }
    }
}

/// The search for the opening bracket before index `b` finds one whenever
/// there is one left open there, whatever lies in between (newlines
/// included): if the opening bracket at `i` occurs from `i` up to `b` more
/// often than the closing brackets of its pair, the search finds an opening
/// bracket at `i` or after it.
pub proof fn law_opening_bracket_found(s: Seq<char>, b: int, pairs: Seq<Pair>, i: int)
    requires
        0 <= i < b <= s.len(),
        opening_only(pairs, s[i]),
        count_of(s.subrange(i, b), s[i]) > closers_of(s.subrange(i, b), pairs, s[i]),
    ensures
        opening_bracket(s, b, pairs) is Some,
        open_scan(s.take(b), pairs, seq![]) matches Some(j) && i <= j < b && s[j] == (
        opening_bracket(s, b, pairs)->0).1.open,
{
    let empty: Seq<char> = seq![];
    assert(s.subrange(b, b) =~= seq![]);
    assert forall|c: char| #[trigger] opening_only(pairs, c) implies count_of(empty, c) + count_of(
        s.subrange(b, b),
        c,
    ) == closers_of(s.subrange(b, b), pairs, c) by {}
    lemma_scan_reaches(s, pairs, b, b, empty, i);
    let j = open_scan(s.take(b), pairs, empty)->0;
    assert(s.take(b)[j] == s[j]);
    crate::brackets::lemma_open_scan(s.take(b), pairs, empty);
    crate::pairs::lemma_first_with(pairs, s[j], false);
}

/// Selecting content selects exactly the text between the delimiters, from
/// the end of the opening one to the start of the closing one; only a
/// selection that is that text already widens to the delimiters with it.
/// The direction of the selection is kept.
pub proof fn law_select_content(m: DelimiterMatch)
    requires
        fits(m),
        m.selection.start <= usize::MAX,
        m.selection.end <= usize::MAX,
    ensures
        ({
            let content_start = m.open + char_width(m.pair.open);
            let is_content = m.selection.start == content_start && m.selection.end == m.close;
            let r = selected_content(m);
            &&& r.reversed == m.selection.reversed
            &&& !is_content ==> r.start == content_start && r.end == m.close
            &&& is_content ==> r.start == m.open && r.end == m.close + char_width(m.pair.close)
        }),
{
}

/// The character at index `p` is escaped: a backslash that is not itself
/// escaped stands just before it, at or after index `lo`.
pub open spec fn escaped_at(s: Seq<char>, lo: int, p: int) -> bool
    decreases p - lo,
{
    if p <= lo {
        false
    } else {
        s[p - 1] == '\\' && !escaped_at(s, lo, p - 1)
    }
}

/// The indices from `lo` up to `i` that hold the quote `q` unescaped, in
/// order.
pub open spec fn unescaped_quotes(s: Seq<char>, lo: int, i: int, q: char) -> Seq<int>
    decreases i - lo,
{
    if i <= lo {
        seq![]
    } else {
        unescaped_quotes(s, lo, i - 1, q) + if s[i - 1] == q && q != '\\' && !escaped_at(
            s,
            lo,
            i - 1,
        ) {
            seq![i - 1]
        } else {
            seq![]
        }
    }
}

/// The quote spans are the unescaped quotes taken two by two: the `k`th span
/// runs from the `2k`th unescaped quote to the next one, so no closing quote
/// ever opens another span, and after an odd number of them the last one is
/// left open.
pub proof fn law_quote_spans_pair_up(s: Seq<char>, lo: int, i: int, q: char)
    requires
        0 <= lo,
        i <= s.len(),
    ensures
        ({
            let st = quote_scan(s, lo, i, q);
            let u = unescaped_quotes(s, lo, i, q);
            &&& st.escaped == escaped_at(s, lo, i)
            &&& st.spans.len() == u.len() / 2
            &&& forall|k: int|
                0 <= k < st.spans.len() ==> #[trigger] st.spans[k] == (u[2 * k], u[2 * k + 1])
            &&& st.open == if u.len() % 2 == 1 {
                Some(u[u.len() - 1])
            } else {
                None::<int>
            }
        }),
    decreases i - lo,
{
    if i > lo {
        law_quote_spans_pair_up(s, lo, i - 1, q);
        let prev = quote_scan(s, lo, i - 1, q);
        let up = unescaped_quotes(s, lo, i - 1, q);
        let st = quote_scan(s, lo, i, q);
        let u = unescaped_quotes(s, lo, i, q);
        let c = s[i - 1];
        if c == q && q != '\\' && !escaped_at(s, lo, i - 1) {
            assert(u == up.push(i - 1));
            assert(u[up.len() as int] == i - 1);
            assert forall|k: int| 0 <= k < up.len() implies #[trigger] u[k] == up[k] by {}
            if up.len() % 2 == 1 {
                assert(st.spans == prev.spans.push((up[up.len() - 1], i - 1)));
                assert forall|k: int| 0 <= k < st.spans.len() implies #[trigger] st.spans[k] == (
                    u[2 * k],
                    u[2 * k + 1],
                ) by {
                    if k < prev.spans.len() {
                        assert(st.spans[k] == prev.spans[k]);
                    }
                }
            } else {
                assert(st.spans == prev.spans);
            }
        } else {
            assert(u =~= up);
        }
    }
}

proof fn lemma_span_candidates_nonempty(
    s: Seq<char>,
    spans: Seq<(int, int)>,
    pair: Pair,
    cursor: int,
    selection: EditorSelection,
    k: int,
)
    requires
        0 <= k < spans.len(),
        cursor > byte_offset(s, spans[k].0),
        cursor <= byte_offset(s, spans[k].1),
        selection.end <= byte_offset(s, spans[k].1),
    ensures
        span_candidates(s, spans, pair, cursor, selection).len() > 0,
    decreases spans.len(),
{
    if k < spans.len() - 1 {
        assert(spans.drop_last()[k] == spans[k]);
        lemma_span_candidates_nonempty(s, spans.drop_last(), pair, cursor, selection, k);
    }
}

proof fn lemma_quote_candidates_nonempty(
    s: Seq<char>,
    pairs: Seq<Pair>,
    lo: int,
    hi: int,
    cursor: int,
    selection: EditorSelection,
    t: int,
)
    requires
        0 <= t < pairs.len(),
        pairs[t].open == pairs[t].close,
        span_candidates(s, quote_scan(s, lo, hi, pairs[t].open).spans, pairs[t], cursor, selection).len()
            > 0,
    ensures
        quote_candidates(s, pairs, lo, hi, cursor, selection).len() > 0,
    decreases pairs.len(),
{
    if t < pairs.len() - 1 {
        assert(pairs.drop_last()[t] == pairs[t]);
        lemma_quote_candidates_nonempty(s, pairs.drop_last(), lo, hi, cursor, selection, t);
    }
}

/// The quote search within a range finds a pair whenever the selection lies
/// in a quote span of one of the quote pairs there: after its opening quote,
/// and up to its closing quote (a cursor right before the closing quote
/// included).
pub proof fn law_quote_found_in_range(
    s: Seq<char>,
    selection: EditorSelection,
    pairs: Seq<Pair>,
    lo: int,
    hi: int,
    t: int,
    k: int,
)
    requires
        selection.start <= usize::MAX,
        is_boundary(s, lo),
        is_boundary(s, hi),
        0 <= t < pairs.len(),
        pairs[t].open == pairs[t].close,
        0 <= k,
        2 * k + 1 < unescaped_quotes(s, char_index(s, lo), char_index(s, hi), pairs[t].open).len(),
        ({
            let u = unescaped_quotes(s, char_index(s, lo), char_index(s, hi), pairs[t].open);
            &&& byte_offset(s, u[2 * k]) < selection.start
            &&& selection.start <= byte_offset(s, u[2 * k + 1])
            &&& selection.end <= byte_offset(s, u[2 * k + 1])
        }),
    ensures
        quote_in_range(s, selection, pairs, lo, hi) is Some,
{
    crate::text::lemma_boundary(s, lo);
    crate::text::lemma_boundary(s, hi);
    let a = char_index(s, lo);
    let b = char_index(s, hi);
    let q = pairs[t].open;
    law_quote_spans_pair_up(s, a, b, q);
    let spans = quote_scan(s, a, b, q).spans;
    assert(spans[k] == (
        unescaped_quotes(s, a, b, q)[2 * k],
        unescaped_quotes(s, a, b, q)[2 * k + 1],
    ));
    lemma_span_candidates_nonempty(s, spans, pairs[t], selection.start as int, selection, k);
    lemma_quote_candidates_nonempty(s, pairs, a, b, selection.start as int, selection, t);
    lemma_best_candidate(
        quote_candidates(s, pairs, a, b, selection.start as int, selection),
    );
}

/// Finding quotes around a selection is complete: when the selection lies
/// in a quote span of the whole text for one of the quote pairs (after the
/// opening quote, up to the closing one), a pair is found.
pub proof fn law_quotes_found(
    s: Seq<char>,
    selection: EditorSelection,
    pairs: Seq<Pair>,
    tolerance: nat,
    t: int,
    k: int,
)
    requires
        byte_len(s) <= usize::MAX,
        selection.start <= selection.end <= usize::MAX,
        is_boundary(s, selection.start as int),
        is_boundary(s, selection.end as int),
        0 <= t < pairs.len(),
        pairs[t].open == pairs[t].close,
        0 <= k,
        2 * k + 1 < unescaped_quotes(s, 0, s.len() as int, pairs[t].open).len(),
        ({
            let u = unescaped_quotes(s, 0, s.len() as int, pairs[t].open);
            &&& byte_offset(s, u[2 * k]) < selection.start
            &&& selection.start <= byte_offset(s, u[2 * k + 1])
            &&& selection.end <= byte_offset(s, u[2 * k + 1])
        }),
    ensures
        quotes_around(s, selection, pairs, tolerance) is Some,
{
    crate::text::lemma_char_index(s, 0);
    crate::text::lemma_char_index(s, s.len() as int);
    assert(s.take(0) =~= seq![]);
    assert(s.take(s.len() as int) =~= s);
    assert(byte_offset(s, 0) == 0);
    assert(byte_offset(s, s.len() as int) == byte_len(s));
    law_quote_found_in_range(s, selection, pairs, 0, byte_len(s) as int, t, k);
}

/// `m` is made of one of the spans of `spans`, for the pair `pair`.
pub open spec fn from_spans(s: Seq<char>, spans: Seq<(int, int)>, pair: Pair, m: DelimiterMatch) -> bool {
    exists|k: int|
        0 <= k < spans.len() && m.open == byte_offset(s, #[trigger] spans[k].0) as usize && m.close
            == byte_offset(s, spans[k].1) as usize && m.pair == pair
}

/// `m` is made of a quote span within `lo..hi` of one of the quote pairs of
/// `pairs`.
pub open spec fn from_quote_spans(
    s: Seq<char>,
    pairs: Seq<Pair>,
    lo: int,
    hi: int,
    m: DelimiterMatch,
) -> bool {
    exists|t: int|
        0 <= t < pairs.len() && #[trigger] pairs[t] == m.pair && pairs[t].open == pairs[t].close
            && from_spans(s, quote_scan(s, lo, hi, pairs[t].open).spans, pairs[t], m)
}

proof fn lemma_span_candidates_on_spans(
    s: Seq<char>,
    spans: Seq<(int, int)>,
    pair: Pair,
    cursor: int,
    selection: EditorSelection,
)
    ensures
        forall|i: int|
            0 <= i < span_candidates(s, spans, pair, cursor, selection).len() ==> from_spans(
                s,
                spans,
                pair,
                #[trigger] span_candidates(s, spans, pair, cursor, selection)[i],
            ),
    decreases spans.len(),
{
    if spans.len() > 0 {
        let rest = spans.drop_last();
        lemma_span_candidates_on_spans(s, rest, pair, cursor, selection);
        let prev = span_candidates(s, rest, pair, cursor, selection);
        let all = span_candidates(s, spans, pair, cursor, selection);
        assert forall|i: int| 0 <= i < all.len() implies from_spans(s, spans, pair, #[trigger] all[i]) by {
            if i < prev.len() {
                assert(all[i] == prev[i]);
                assert(from_spans(s, rest, pair, prev[i]));
                let k = choose|k: int|
                    0 <= k < rest.len() && prev[i].open == byte_offset(s, #[trigger] rest[k].0) as usize
                        && prev[i].close == byte_offset(s, rest[k].1) as usize && prev[i].pair == pair;
                assert(rest[k] == spans[k]);
            } else {
                let k = spans.len() - 1;
                assert(spans.last() == spans[k]);
            }
        }
    }
}

proof fn lemma_quote_candidates_on_spans(
    s: Seq<char>,
    pairs: Seq<Pair>,
    lo: int,
    hi: int,
    cursor: int,
    selection: EditorSelection,
)
    ensures
        forall|i: int|
            0 <= i < quote_candidates(s, pairs, lo, hi, cursor, selection).len() ==> from_quote_spans(
                s,
                pairs,
                lo,
                hi,
                #[trigger] quote_candidates(s, pairs, lo, hi, cursor, selection)[i],
            ),
    decreases pairs.len(),
{
    if pairs.len() > 0 {
        let rest = pairs.drop_last();
        lemma_quote_candidates_on_spans(s, rest, lo, hi, cursor, selection);
        let p = pairs.last();
        let tl = pairs.len() - 1;
        assert(pairs[tl] == p);
        let prev = quote_candidates(s, rest, lo, hi, cursor, selection);
        let all = quote_candidates(s, pairs, lo, hi, cursor, selection);
        assert forall|i: int| 0 <= i < all.len() implies from_quote_spans(
            s,
            pairs,
            lo,
            hi,
            #[trigger] all[i],
        ) by {
            if i < prev.len() {
                assert(all[i] == prev[i]);
                assert(from_quote_spans(s, rest, lo, hi, prev[i]));
                let t = choose|t: int|
                    0 <= t < rest.len() && #[trigger] rest[t] == prev[i].pair && rest[t].open
                        == rest[t].close && from_spans(
                        s,
                        quote_scan(s, lo, hi, rest[t].open).spans,
                        rest[t],
                        prev[i],
                    );
                assert(pairs[t] == rest[t]);
            } else {
                let spans = quote_scan(s, lo, hi, p.open).spans;
                lemma_span_candidates_on_spans(s, spans, p, cursor, selection);
                let extra = span_candidates(s, spans, p, cursor, selection);
                assert(all[i] == extra[i - prev.len()]);
                assert(from_spans(s, spans, p, extra[i - prev.len()]));
                assert(pairs[tl] == all[i].pair);
            }
        }
    }
}

/// `m` runs from the `2k`th quote of `u` to the next one.
pub open spec fn pairs_quotes(s: Seq<char>, u: Seq<int>, k: int, m: DelimiterMatch) -> bool {
    &&& 0 <= k
    &&& 2 * k + 1 < u.len()
    &&& m.open == byte_offset(s, u[2 * k])
    &&& m.close == byte_offset(s, u[2 * k + 1])
}

/// A quote pair found within a range is a quote span there: its opening and
/// closing quotes are the `2k`th and the next unescaped quote of its pair,
/// for some `k`.
pub proof fn law_quote_found_is_span(
    s: Seq<char>,
    selection: EditorSelection,
    pairs: Seq<Pair>,
    lo: int,
    hi: int,
)
    requires
        byte_len(s) <= usize::MAX,
        is_boundary(s, lo),
        is_boundary(s, hi),
    ensures
        quote_in_range(s, selection, pairs, lo, hi) matches Some(m) ==> {
            &&& pairs.contains(m.pair)
            &&& m.pair.open == m.pair.close
            &&& exists|k: int|
                #[trigger] pairs_quotes(
                    s,
                    unescaped_quotes(s, char_index(s, lo), char_index(s, hi), m.pair.open),
                    k,
                    m,
                )
        },
{
    if let Some(m) = quote_in_range(s, selection, pairs, lo, hi) {
        crate::text::lemma_boundary(s, lo);
        crate::text::lemma_boundary(s, hi);
        let a = char_index(s, lo);
        let b = char_index(s, hi);
        let cands = quote_candidates(s, pairs, a, b, selection.start as int, selection);
        lemma_best_candidate(cands);
        lemma_quote_candidates_on_spans(s, pairs, a, b, selection.start as int, selection);
        let i = choose|i: int| 0 <= i < cands.len() && cands[i] == m;
        assert(from_quote_spans(s, pairs, a, b, cands[i]));
        let t = choose|t: int|
            0 <= t < pairs.len() && #[trigger] pairs[t] == m.pair && pairs[t].open == pairs[t].close
                && from_spans(s, quote_scan(s, a, b, pairs[t].open).spans, pairs[t], m);
        let k = choose|k: int|
            0 <= k < quote_scan(s, a, b, m.pair.open).spans.len() && m.open == byte_offset(
                s,
                #[trigger] quote_scan(s, a, b, m.pair.open).spans[k].0,
            ) as usize && m.close == byte_offset(s, quote_scan(s, a, b, m.pair.open).spans[k].1)
                as usize && m.pair == pairs[t];
        let q = m.pair.open;
        law_quote_spans_pair_up(s, a, b, q);
        let spans = quote_scan(s, a, b, q).spans;
        let u = unescaped_quotes(s, a, b, q);
        assert(spans[k] == (u[2 * k], u[2 * k + 1]));
        crate::quotes::lemma_quote_scan(s, a, b, q);
        crate::text::lemma_byte_offset_bound(s, u[2 * k]);
        crate::text::lemma_byte_offset_bound(s, u[2 * k + 1]);
        assert(pairs.contains(m.pair)) by {
            assert(pairs[t] == m.pair);
        }
        assert(pairs_quotes(s, u, k, m));
    }
}

proof fn lemma_count_split(s: Seq<char>, a: int, b: int, c: int, x: char)
    requires
        0 <= a <= b <= c <= s.len(),
    ensures
        count_of(s.subrange(a, c), x) == count_of(s.subrange(a, b), x) + count_of(
            s.subrange(b, c),
            x,
        ),
    decreases c - b,
{
    if c == b {
        assert(s.subrange(b, c) =~= seq![]);
    } else {
        lemma_count_split(s, a, b, c - 1, x);
        assert(s.subrange(a, c) =~= s.subrange(a, c - 1).push(s[c - 1]));
        assert(s.subrange(b, c) =~= s.subrange(b, c - 1).push(s[c - 1]));
        lemma_count_push(s.subrange(a, c - 1), s[c - 1], x);
        lemma_count_push(s.subrange(b, c - 1), s[c - 1], x);
    }
}

proof fn lemma_count_none(s: Seq<char>, a: int, b: int, x: char)
    requires
        0 <= a <= b <= s.len(),
        forall|j: int| a <= j < b ==> #[trigger] s[j] != x,
    ensures
        count_of(s.subrange(a, b), x) == 0,
    decreases b - a,
{
    if b == a {
        assert(s.subrange(a, b) =~= seq![]);
    } else {
        lemma_count_none(s, a, b - 1, x);
        assert(s.subrange(a, b) =~= s.subrange(a, b - 1).push(s[b - 1]));
        lemma_count_push(s.subrange(a, b - 1), s[b - 1], x);
    }
}

proof fn lemma_count_one(s: Seq<char>, a: int, x: char)
    requires
        0 <= a < s.len(),
    ensures
        count_of(s.subrange(a, a + 1), x) == if s[a] == x {
            1nat
        } else {
            0nat
        },
{
    assert(s.subrange(a, a) =~= seq![]);
    assert(s.subrange(a, a + 1) =~= s.subrange(a, a).push(s[a]));
    lemma_count_push(s.subrange(a, a), s[a], x);
}

/// Going up `n` lines from the start of a line reaches the start of a line
/// with exactly `n` newlines in between, or as many as there are above (the
/// start of the text).
pub proof fn law_lines_up(s: Seq<char>, m: int, n: nat)
    requires
        0 <= m <= s.len(),
        m == 0 || s[m - 1] == '\n',
    ensures
        ({
            let r = lines_up(s, m, n);
            let above = count_of(s.subrange(0, m), '\n');
            &&& 0 <= r <= m
            &&& r == 0 || s[r - 1] == '\n'
            &&& count_of(s.subrange(r, m), '\n') == if n <= above {
                n as int
            } else {
                above as int
            }
        }),
    decreases n,
{
    if n == 0 || m <= 0 {
        assert(s.subrange(m, m) =~= seq![]);
        assert(s.subrange(0, 0) =~= seq![]);
    } else {
        let up = line_start_index(s, m - 1);
        lemma_line_start(s, m - 1);
        law_lines_up(s, up, (n - 1) as nat);
        let r = lines_up(s, m, n);
        lemma_count_split(s, r, up, m, '\n');
        lemma_count_split(s, up, m - 1, m, '\n');
        lemma_count_split(s, 0, up, m, '\n');
        lemma_count_none(s, up, m - 1, '\n');
        lemma_count_one(s, m - 1, '\n');
    }
}

/// Going down `n` lines from the end of a line reaches the end of a line
/// with exactly `n` newlines in between, or as many as there are below (the
/// end of the text).
pub proof fn law_lines_down(s: Seq<char>, m: int, n: nat)
    requires
        0 <= m <= s.len(),
        m == s.len() || s[m] == '\n',
    ensures
        ({
            let r = lines_down(s, m, n);
            let below = count_of(s.subrange(m, s.len() as int), '\n');
            &&& m <= r <= s.len()
            &&& r == s.len() || s[r] == '\n'
            &&& count_of(s.subrange(m, r), '\n') == if n <= below {
                n as int
            } else {
                below as int
            }
        }),
    decreases n,
{
    if n == 0 || m >= s.len() {
        assert(s.subrange(m, m) =~= seq![]);
    } else {
        let down = line_end_index(s, m + 1);
        lemma_line_end(s, m + 1);
        law_lines_down(s, down, (n - 1) as nat);
        let r = lines_down(s, m, n);
        lemma_count_split(s, m, down, r, '\n');
        lemma_count_split(s, m, m + 1, down, '\n');
        lemma_count_split(s, m, down, s.len() as int, '\n');
        lemma_count_none(s, m + 1, down, '\n');
        lemma_count_one(s, m, '\n');
    }
}

/// The lines searched first for quotes are those of the selection and
/// `tolerance` more on each side, as far as the text goes: the range starts
/// at a line start with `tolerance` newlines between it and the selection's
/// line (fewer only at the start of the text), and ends at a line end with
/// `tolerance` newlines between the selection's line and it (fewer only at
/// the end of the text).
pub proof fn law_tolerant_lines(s: Seq<char>, start: int, end: int, tolerance: nat)
    requires
        is_boundary(s, start),
        is_boundary(s, end),
    ensures
        ({
            let (a, b) = tolerant_lines(s, start, end, tolerance);
            let first = line_start_index(s, char_index(s, start));
            let last = line_end_index(s, char_index(s, end));
            let above = count_of(s.subrange(0, first), '\n');
            let below = count_of(s.subrange(last, s.len() as int), '\n');
            &&& 0 <= a <= first <= char_index(s, start)
            &&& char_index(s, end) <= last <= b <= s.len()
            &&& a == 0 || s[a - 1] == '\n'
            &&& b == s.len() || s[b] == '\n'
            &&& forall|j: int| first <= j < char_index(s, start) ==> #[trigger] s[j] != '\n'
            &&& forall|j: int| char_index(s, end) <= j < last ==> #[trigger] s[j] != '\n'
            &&& count_of(s.subrange(a, first), '\n') == if tolerance <= above {
                tolerance as int
            } else {
                above as int
            }
            &&& count_of(s.subrange(last, b), '\n') == if tolerance <= below {
                tolerance as int
            } else {
                below as int
            }
        }),
{
    crate::text::lemma_boundary(s, start);
    crate::text::lemma_boundary(s, end);
    let ms = char_index(s, start);
    let me = char_index(s, end);
    lemma_line_start(s, ms);
    lemma_line_end(s, me);
    law_lines_up(s, line_start_index(s, ms), tolerance);
    law_lines_down(s, line_end_index(s, me), tolerance);
}

} // verus!
