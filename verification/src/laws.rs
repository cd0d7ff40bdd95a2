//! Properties of the commands as a whole.
use vstd::prelude::*;
use crate::editor::{EditorSelection, EditView};
use crate::edits::remapped_selections;
use crate::pairs::{
    Pair,
    DelimiterMatch,
    delimits,
    next_pair,
    position_of,
    first_with_close,
    first_with_open,
    lemma_position_of,
    lemma_first_with,
};
use crate::brackets::{
    brackets_around,
    bracket_bounds,
    opening_bracket,
    open_scan,
    closing_index,
    first_close_from,
    closes_at,
    nesting,
    lemma_open_scan,
    lemma_brackets_around_delimits,
    found_at,
};
use crate::commands::{
    Replacement,
    selected_content,
    match_edits,
    edited_at,
    with_edit,
    replacement_pair,
    replacement_texts,
};
use crate::edits::{
    char_edit,
    remapped,
    remap_walk,
    shifted,
    stable_order,
    stable_order_prefix,
    insert_position,
    edit_starts,
    lemma_stable_order_prefix,
    lemma_stable_order_sorted,
    sorted_by_key,
};
use crate::text::{
    byte_len,
    byte_offset,
    char_width,
    char_index,
    is_word_char,
    word_start,
    word_end,
    lemma_byte_offset_step,
    lemma_byte_offset_strict,
    lemma_byte_offset_bound,
    lemma_char_index,
};

verus! {

/// The pair reached from `p` by cycling `n` times.
pub open spec fn cycled(pairs: Seq<Pair>, p: Pair, n: nat) -> Option<Pair>
    decreases n,
{
    if n == 0 {
        Some(p)
    } else {
        match cycled(pairs, p, (n - 1) as nat) {
            Some(q) => next_pair(pairs, q),
            None => None,
        }
    }
}

/// No pair occurs twice in `pairs`.
pub open spec fn distinct(pairs: Seq<Pair>) -> bool {
    forall|i: int, j: int| 0 <= i < j < pairs.len() ==> pairs[i] != pairs[j]
}

proof fn lemma_next_pair_distinct(pairs: Seq<Pair>, i: int)
    requires
        distinct(pairs),
        0 <= i < pairs.len(),
    ensures
        next_pair(pairs, pairs[i]) == Some(pairs[(i + 1) % (pairs.len() as int)]),
{
    lemma_position_of(pairs, pairs[i]);
    let k = position_of(pairs, pairs[i])->0;
    if k < i {
        assert(pairs[k] != pairs[i]);
    }
}

proof fn lemma_cycled_index(pairs: Seq<Pair>, i: int, n: nat)
    requires
        distinct(pairs),
        0 <= i < pairs.len(),
    ensures
        cycled(pairs, pairs[i], n) == Some(pairs[(i + n) % (pairs.len() as int)]),
    decreases n,
{
    let len = pairs.len() as int;
    if n > 0 {
        lemma_cycled_index(pairs, i, (n - 1) as nat);
        let k = (i + n - 1) % len;
        lemma_next_pair_distinct(pairs, k);
        assert((k + 1) % len == (i + n) % len) by (nonlinear_arith)
            requires
                k == (i + n - 1) % len,
                len > 0,
        {
            vstd::arithmetic::div_mod::lemma_add_mod_noop(i + n - 1, 1, len);
            vstd::arithmetic::div_mod::lemma_mod_twice(1, len);
        }
    } else {
        assert(i % len == i) by {
            vstd::arithmetic::div_mod::lemma_small_mod(i as nat, len as nat);
        }
    }
}

/// Swapping cycles through the pairs of the language: swapping a pair as
/// many times as there are (distinct) pairs gives it back, and each swap in
/// between gives the next pair of the list.
pub proof fn law_cycle_returns(pairs: Seq<Pair>, p: Pair)
    requires
        distinct(pairs),
        pairs.contains(p),
    ensures
        cycled(pairs, p, pairs.len()) == Some(p),
        forall|n: nat| #[trigger] cycled(pairs, p, n) is Some,
{
    let i = choose|i: int| 0 <= i < pairs.len() && pairs[i] == p;
    lemma_cycled_index(pairs, i, pairs.len());
    assert((i + pairs.len()) % (pairs.len() as int) == i) by {
        vstd::arithmetic::div_mod::lemma_mod_add_multiples_vanish(i, pairs.len() as int);
        vstd::arithmetic::div_mod::lemma_small_mod(i as nat, pairs.len());
    }
    assert forall|n: nat| #[trigger] cycled(pairs, p, n) is Some by {
        lemma_cycled_index(pairs, i, n);
    }
}

/// The selection of the content between the delimiters of `m`.
pub open spec fn content_selection(m: DelimiterMatch) -> EditorSelection {
    EditorSelection {
        start: (m.open + char_width(m.pair.open)) as u64,
        end: m.close as u64,
        reversed: m.selection.reversed,
    }
}

proof fn lemma_found_pair_differs(s: Seq<char>, pairs: Seq<Pair>, m: DelimiterMatch, i: int, j: int)
    requires
        found_at(s, pairs, m, i, j),
    ensures
        m.pair.open != m.pair.close,
{
    lemma_first_with(pairs, s[i], true);
    lemma_first_with(pairs, s[i], false);
    if m.pair.open == m.pair.close {
        let k = choose|k: int| 0 <= k < pairs.len() && pairs[k] == m.pair;
        assert(pairs[k].close == s[i]);
    }
}

proof fn lemma_content_bounds(s: Seq<char>, pairs: Seq<Pair>, m: DelimiterMatch, i: int, j: int)
    requires
        found_at(s, pairs, m, i, j),
        byte_len(s) <= usize::MAX,
        !is_word_char(m.pair.open),
        !is_word_char(m.pair.close),
    ensures
        byte_offset(s, i + 1) == m.open + char_width(m.pair.open),
        bracket_bounds(s, content_selection(m)) == Some(
            ((m.open + char_width(m.pair.open)) as usize, m.close),
        ),
        char_index(s, m.open + char_width(m.pair.open)) == i + 1,
        char_index(s, m.close as int) == j,
{
    lemma_byte_offset_step(s, i);
    lemma_byte_offset_bound(s, i + 1);
    lemma_byte_offset_bound(s, j);
    lemma_char_index(s, i + 1);
    lemma_char_index(s, j);
    if i + 1 < j {
        lemma_byte_offset_strict(s, i + 1, j);
    }
    assert(word_start(s, i + 1) == i + 1);
    assert(word_end(s, j) == j);
}

proof fn lemma_content_opening(s: Seq<char>, pairs: Seq<Pair>, m: DelimiterMatch, i: int, j: int)
    requires
        found_at(s, pairs, m, i, j),
    ensures
        opening_bracket(s, i + 1, pairs) == Some((m.open, m.pair)),
{
    let t = s.take(i + 1);
    assert(t.drop_last() =~= s.take(i));
    assert(t.last() == s[i]);
    assert(open_scan(t, pairs, seq![]) == Some(i));
}

proof fn lemma_content_closing(s: Seq<char>, pairs: Seq<Pair>, m: DelimiterMatch, i: int, j: int)
    requires
        found_at(s, pairs, m, i, j),
        m.pair.open != m.pair.close,
    ensures
        closing_index(s, j, m.pair) == Some(j),
{
    assert(s.subrange(j, j) =~= seq![]);
    assert(nesting(s.subrange(j, j), m.pair) == 0);
    assert(closes_at(s, j, j, m.pair));
}

/// Selecting twice widens to the whole pair: when the content of the
/// brackets found around a selection is selected, the same brackets are
/// found around that content, and selecting again selects the brackets with
/// their content. (The brackets must be no word characters, since a
/// selection is widened to the words it touches.)
pub proof fn law_select_twice_expands(s: Seq<char>, selection: EditorSelection, pairs: Seq<Pair>)
    requires
        byte_len(s) <= usize::MAX,
        brackets_around(s, selection, pairs) is Some,
        !is_word_char(brackets_around(s, selection, pairs)->0.pair.open),
        !is_word_char(brackets_around(s, selection, pairs)->0.pair.close),
    ensures
        ({
            let m = brackets_around(s, selection, pairs)->0;
            let inner = content_selection(m);
            &&& brackets_around(s, inner, pairs) == Some(DelimiterMatch { selection: inner, ..m })
            &&& selected_content(DelimiterMatch { selection: inner, ..m }) == EditorSelection {
                start: m.open as u64,
                end: (m.close + char_width(m.pair.close)) as u64,
                reversed: m.selection.reversed,
            }
        }),
{
    let m = brackets_around(s, selection, pairs)->0;
    let inner = content_selection(m);
    lemma_brackets_around_delimits(s, selection, pairs);
    let (i, j) = choose|i: int, j: int| found_at(s, pairs, m, i, j);
    lemma_found_pair_differs(s, pairs, m, i, j);
    lemma_content_bounds(s, pairs, m, i, j);
    lemma_content_opening(s, pairs, m, i, j);
    lemma_content_closing(s, pairs, m, i, j);
    let found = DelimiterMatch { selection: inner, ..m };
    lemma_byte_offset_bound(s, i + 1);
    assert(inner.start as usize == m.open + char_width(m.pair.open));
    assert(inner.end as usize == m.close);
    assert(selected_content(found).start == m.open as u64);
    assert(brackets_around(s, inner, pairs) == Some(found));
}

/// An edit keeps the length when its new text is as long as its range.
pub open spec fn keeps_length(e: EditView) -> bool {
    e.start <= e.end && byte_len(e.new_text) == e.end - e.start
}

proof fn lemma_walk_keeps(offset: u64, edits: Seq<EditView>, order: Seq<usize>)
    requires
        forall|k: int| 0 <= k < order.len() ==> #[trigger] order[k] < edits.len(),
        forall|k: int| 0 <= k < edits.len() ==> keeps_length(#[trigger] edits[k]),
        forall|k: int|
            0 <= k < edits.len() ==> !(#[trigger] edits[k].start < offset && offset
                < edits[k].end),
    ensures
        remap_walk(offset, edits, order, 0) == Ok::<u64, Seq<char>>(offset),
    decreases order.len(),
{
    if order.len() > 0 {
        let e = edits[order[0] as int];
        assert(keeps_length(e));
        if offset >= e.start && offset != e.start && offset >= e.end {
            assert forall|k: int| 0 <= k < order.drop_first().len() implies #[trigger] order.drop_first()[k]
                < edits.len() by {
                assert(order.drop_first()[k] == order[k + 1]);
            }
            lemma_walk_keeps(offset, edits, order.drop_first());
        }
    }
}

/// Edits that keep their lengths leave in place every offset that lies in
/// none of them, such as a cursor between brackets that are swapped.
pub proof fn law_remap_keeps_offsets(offset: u64, edits: Seq<EditView>)
    requires
        forall|k: int| 0 <= k < edits.len() ==> keeps_length(#[trigger] edits[k]),
        forall|k: int|
            0 <= k < edits.len() ==> !(#[trigger] edits[k].start < offset && offset
                < edits[k].end),
    ensures
        remapped(offset, edits) == Ok::<u64, Seq<char>>(offset),
{
    let keys = edit_starts(edits);
    lemma_stable_order_prefix(keys, keys.len() as int);
    lemma_walk_keeps(offset, edits, stable_order(keys));
}

proof fn lemma_walk_before(offset: u64, edits: Seq<EditView>, order: Seq<usize>)
    requires
        order.len() > 0 ==> order[0] < edits.len(),
        forall|k: int| 0 <= k < edits.len() ==> offset < #[trigger] edits[k].start,
    ensures
        remap_walk(offset, edits, order, 0) == Ok::<u64, Seq<char>>(offset),
{
}

/// Offsets before every edit stay where they are.
pub proof fn law_remap_before_edits(offset: u64, edits: Seq<EditView>)
    requires
        forall|k: int| 0 <= k < edits.len() ==> offset < #[trigger] edits[k].start,
    ensures
        remapped(offset, edits) == Ok::<u64, Seq<char>>(offset),
{
    let keys = edit_starts(edits);
    lemma_stable_order_prefix(keys, keys.len() as int);
    if stable_order(keys).len() > 0 {
        assert(stable_order(keys)[0] < keys.len());
    }
    lemma_walk_before(offset, edits, stable_order(keys));
}

/// Moving the selections keeps one selection per selection, each with its
/// direction.
pub proof fn law_remap_keeps_selections(selections: Seq<EditorSelection>, edits: Seq<EditView>)
    ensures
        remapped_selections(selections, edits) matches Ok(moved) ==> moved.len()
            == selections.len() && forall|k: int|
            0 <= k < selections.len() ==> #[trigger] moved[k].reversed == selections[k].reversed,
    decreases selections.len(),
{
    if selections.len() > 0 {
        law_remap_keeps_selections(selections.drop_last(), edits);
        if let Ok(moved) = remapped_selections(selections, edits) {
            let prev = remapped_selections(selections.drop_last(), edits)->Ok_0;
            assert forall|k: int| 0 <= k < selections.len() implies #[trigger] moved[k].reversed
                == selections[k].reversed by {
                if k < selections.len() - 1 {
                    assert(moved[k] == prev[k]);
                    assert(selections[k] == selections.drop_last()[k]);
                }
            }
        }
    }
}

/// `e` replaces the opening delimiter of `m` (the closing one when
/// `closing`) by the text that the replacement gives.
pub open spec fn delimiter_edit(
    e: EditView,
    m: DelimiterMatch,
    closing: bool,
    pairs: Seq<Pair>,
    replacement: Replacement,
) -> bool {
    let offset = if closing {
        m.close
    } else {
        m.open
    };
    let c = if closing {
        m.pair.close
    } else {
        m.pair.open
    };
    let texts = replacement_texts(replacement_pair(m, pairs, replacement)->0, replacement);
    &&& replacement_pair(m, pairs, replacement) is Some
    &&& e.start == offset
    &&& e.end == offset + char_width(c)
    &&& offset + char_width(c) <= u32::MAX
    &&& e.new_text == if closing {
        texts.1
    } else {
        texts.0
    }
}

/// `e` replaces a delimiter of one of the matches.
#[verifier::opaque]
pub open spec fn from_some_match(
    e: EditView,
    matches: Seq<DelimiterMatch>,
    pairs: Seq<Pair>,
    replacement: Replacement,
) -> bool {
    exists|k: int, closing: bool|
        0 <= k < matches.len() && #[trigger] delimiter_edit(e, matches[k], closing, pairs, replacement)
}

proof fn lemma_from_match(
    e: EditView,
    matches: Seq<DelimiterMatch>,
    k: int,
    closing: bool,
    pairs: Seq<Pair>,
    replacement: Replacement,
)
    requires
        0 <= k < matches.len(),
        delimiter_edit(e, matches[k], closing, pairs, replacement),
    ensures
        from_some_match(e, matches, pairs, replacement),
{
    reveal(from_some_match);
}

proof fn lemma_from_rest(
    e: EditView,
    matches: Seq<DelimiterMatch>,
    pairs: Seq<Pair>,
    replacement: Replacement,
)
    requires
        matches.len() > 0,
        from_some_match(e, matches.drop_last(), pairs, replacement),
    ensures
        from_some_match(e, matches, pairs, replacement),
{
    reveal(from_some_match);
    let (k, closing) = choose|k: int, closing: bool|
        0 <= k < matches.drop_last().len() && #[trigger] delimiter_edit(
            e,
            matches.drop_last()[k],
            closing,
            pairs,
            replacement,
        );
    assert(matches[k] == matches.drop_last()[k]);
    assert(delimiter_edit(e, matches[k], closing, pairs, replacement));
}

/// No two edits start at the same offset.
pub open spec fn distinct_starts(edits: Seq<EditView>) -> bool {
    forall|i: int, j: int| 0 <= i < j < edits.len() ==> #[trigger] edits[i].start != #[trigger] edits[j].start
}

/// Each delimiter of the matches is edited exactly once, and every edit
/// replaces a delimiter of some match by the replacement's text.
pub open spec fn edits_replace_delimiters(
    matches: Seq<DelimiterMatch>,
    pairs: Seq<Pair>,
    replacement: Replacement,
    edits: Seq<EditView>,
) -> bool {
    &&& distinct_starts(edits)
    &&& forall|k: int|
        0 <= k < matches.len() ==> edited_at(edits, #[trigger] matches[k].open as int) && edited_at(
            edits,
            matches[k].close as int,
        )
    &&& forall|i: int|
        0 <= i < edits.len() ==> from_some_match(#[trigger] edits[i], matches, pairs, replacement)
}

proof fn lemma_with_edit(edits: Seq<EditView>, offset: usize, c: char, text: Seq<char>)
    requires
        distinct_starts(edits),
    ensures
        with_edit(edits, offset, c, text) matches Ok(r) ==> {
            &&& distinct_starts(r)
            &&& edited_at(r, offset as int)
            &&& edits.len() <= r.len() <= edits.len() + 1
            &&& forall|i: int| 0 <= i < edits.len() ==> #[trigger] r[i] == edits[i]
            &&& r.len() == edits.len() + 1 ==> r[edits.len() as int] == char_edit(
                offset,
                c,
                text,
            )->Ok_0 && char_edit(offset, c, text) is Ok
        },
{
    if let Ok(r) = with_edit(edits, offset, c, text) {
        if !edited_at(edits, offset as int) {
            let e = char_edit(offset, c, text)->Ok_0;
            assert(r == edits.push(e));
            assert(e.start == offset);
            assert(r[edits.len() as int] == e);
            assert forall|i: int, j: int| 0 <= i < j < r.len() implies #[trigger] r[i].start
                != #[trigger] r[j].start by {
                if j == edits.len() {
                    assert(r[i] == edits[i]);
                    if edits[i].start == offset {
                        assert(edited_at(edits, offset as int));
                    }
                } else {
                    assert(r[i] == edits[i] && r[j] == edits[j]);
                }
            }
            assert(r[edits.len() as int].start == offset);
        }
    }
}

proof fn lemma_edited_at_grows(edits: Seq<EditView>, r: Seq<EditView>, o: int)
    requires
        edits.len() <= r.len(),
        forall|i: int| 0 <= i < edits.len() ==> #[trigger] r[i] == edits[i],
        edited_at(edits, o),
    ensures
        edited_at(r, o),
{
    let k = choose|k: int| 0 <= k < edits.len() && #[trigger] edits[k].start == o;
    assert(r[k] == edits[k]);
}

proof fn lemma_replace_step_skip(
    matches: Seq<DelimiterMatch>,
    pairs: Seq<Pair>,
    replacement: Replacement,
    prev: Seq<EditView>,
)
    requires
        matches.len() > 0,
        edits_replace_delimiters(matches.drop_last(), pairs, replacement, prev),
        edited_at(prev, matches.last().open as int),
        edited_at(prev, matches.last().close as int),
    ensures
        edits_replace_delimiters(matches, pairs, replacement, prev),
{
    let rest = matches.drop_last();
    let n = matches.len() - 1;
    assert forall|i: int| 0 <= i < prev.len() implies from_some_match(
        #[trigger] prev[i],
        matches,
        pairs,
        replacement,
    ) by {
        lemma_from_rest(prev[i], matches, pairs, replacement);
    }
    assert forall|k: int| 0 <= k < matches.len() implies edited_at(
        prev,
        #[trigger] matches[k].open as int,
    ) && edited_at(prev, matches[k].close as int) by {
        if k < n {
            assert(matches[k] == rest[k]);
        }
    }
}

proof fn lemma_replace_step_edit(
    matches: Seq<DelimiterMatch>,
    pairs: Seq<Pair>,
    replacement: Replacement,
    prev: Seq<EditView>,
    edits: Seq<EditView>,
)
    requires
        matches.len() > 0,
        edits_replace_delimiters(matches.drop_last(), pairs, replacement, prev),
        replacement_pair(matches.last(), pairs, replacement) is Some,
        ({
            let m = matches.last();
            let texts = replacement_texts(replacement_pair(m, pairs, replacement)->0, replacement);
            &&& with_edit(prev, m.open, m.pair.open, texts.0) is Ok
            &&& with_edit(
                with_edit(prev, m.open, m.pair.open, texts.0)->Ok_0,
                m.close,
                m.pair.close,
                texts.1,
            ) == Ok::<Seq<EditView>, Seq<char>>(edits)
        }),
    ensures
        edits_replace_delimiters(matches, pairs, replacement, edits),
{
    let rest = matches.drop_last();
    let m = matches.last();
    let n = matches.len() - 1;
    assert(matches[n] == m);
    let (open, close) = replacement_texts(replacement_pair(m, pairs, replacement)->0, replacement);
    lemma_with_edit(prev, m.open, m.pair.open, open);
    let with_open = with_edit(prev, m.open, m.pair.open, open)->Ok_0;
    lemma_with_edit(with_open, m.close, m.pair.close, close);
    assert forall|i: int| 0 <= i < prev.len() implies #[trigger] edits[i] == prev[i] by {
        assert(with_open[i] == prev[i]);
    }
    assert forall|k: int| 0 <= k < matches.len() implies edited_at(
        edits,
        #[trigger] matches[k].open as int,
    ) && edited_at(edits, matches[k].close as int) by {
        if k < n {
            assert(matches[k] == rest[k]);
            lemma_edited_at_grows(prev, edits, rest[k].open as int);
            lemma_edited_at_grows(prev, edits, rest[k].close as int);
        } else {
            lemma_edited_at_grows(with_open, edits, m.open as int);
        }
    }
    assert forall|i: int| 0 <= i < edits.len() implies from_some_match(
        #[trigger] edits[i],
        matches,
        pairs,
        replacement,
    ) by {
        if i < prev.len() {
            assert(edits[i] == prev[i]);
            lemma_from_rest(prev[i], matches, pairs, replacement);
        } else if i < with_open.len() {
            assert(edits[i] == with_open[i]);
            lemma_from_match(edits[i], matches, n, false, pairs, replacement);
        } else {
            lemma_from_match(edits[i], matches, n, true, pairs, replacement);
        }
    }
}

/// Replacing touches only the delimiters, each once: no two edits start at
/// the same offset, every delimiter of every match is edited, and every edit
/// replaces a delimiter of some match by the text of the replacement (nothing
/// when removing, the new pair's delimiter when changing or swapping).
pub proof fn law_edits_replace_delimiters(
    matches: Seq<DelimiterMatch>,
    pairs: Seq<Pair>,
    replacement: Replacement,
)
    ensures
        match_edits(matches, pairs, replacement) matches Ok(edits) ==> edits_replace_delimiters(
            matches,
            pairs,
            replacement,
            edits,
        ),
    decreases matches.len(),
{
    if matches.len() > 0 {
        let rest = matches.drop_last();
        law_edits_replace_delimiters(rest, pairs, replacement);
        if let Ok(edits) = match_edits(matches, pairs, replacement) {
            let prev = match_edits(rest, pairs, replacement)->Ok_0;
            let m = matches.last();
            if edited_at(prev, m.open as int) && edited_at(prev, m.close as int) {
                lemma_replace_step_skip(matches, pairs, replacement, prev);
            } else {
                lemma_replace_step_edit(matches, pairs, replacement, prev, edits);
            }
        }
    }
}

/// Removing a pair moves the offsets around it: those up to the opening
/// delimiter stay, those between the delimiters move back by the opening
/// delimiter's width, and those after the closing delimiter by both widths.
pub proof fn law_remove_moves_offsets(m: DelimiterMatch, pairs: Seq<Pair>, offset: u64)
    requires
        match_edits(seq![m], pairs, Replacement::Remove) is Ok,
        m.open + char_width(m.pair.open) <= m.close,
    ensures
        ({
            let edits = match_edits(seq![m], pairs, Replacement::Remove)->Ok_0;
            let wo = char_width(m.pair.open);
            let wc = char_width(m.pair.close);
            &&& offset <= m.open ==> remapped(offset, edits) == Ok::<u64, Seq<char>>(offset)
            &&& m.open + wo <= offset <= m.close ==> remapped(offset, edits) == Ok::<
                u64,
                Seq<char>,
            >((offset - wo) as u64)
            &&& m.close + wc <= offset ==> remapped(offset, edits) == Ok::<u64, Seq<char>>(
                (offset - wo - wc) as u64,
            )
        }),
{
    let ms = seq![m];
    let edits = match_edits(ms, pairs, Replacement::Remove)->Ok_0;
    assert(ms.drop_last() =~= seq![]);
    assert(ms.last() == m);
    let none: Seq<EditView> = seq![];
    assert(match_edits(ms.drop_last(), pairs, Replacement::Remove) == Ok::<Seq<EditView>, Seq<char>>(none));
    assert(!edited_at(none, m.open as int));
    let e0 = char_edit(m.open, m.pair.open, seq![])->Ok_0;
    let with_open = with_edit(none, m.open, m.pair.open, seq![])->Ok_0;
    assert(with_open == seq![e0]);
    assert(!edited_at(with_open, m.close as int)) by {
        if edited_at(with_open, m.close as int) {
            assert(with_open[0].start == m.close);
        }
    }
    let e1 = char_edit(m.close, m.pair.close, seq![])->Ok_0;
    assert(edits == seq![e0, e1]);
    assert(edits[0] == e0 && edits[1] == e1);
    assert(e0.new_text.len() == 0);
    assert(e1.new_text.len() == 0);
    assert(byte_len(e0.new_text) == 0);
    assert(byte_len(e1.new_text) == 0);
    let keys = edit_starts(edits);
    assert(keys[0] == e0.start && keys[1] == e1.start);
    assert(e0.start < e1.start);
    let p1 = stable_order_prefix(keys, 1);
    assert(stable_order_prefix(keys, 0) =~= seq![]);
    assert(p1 =~= seq![0usize]);
    assert(insert_position(p1, keys, keys[1]) == 1) by {
        assert(p1[0] == 0usize);
        assert(p1.drop_first() =~= seq![]);
        assert(insert_position(p1.drop_first(), keys, keys[1]) == 0);
    }
    assert(stable_order(keys) =~= seq![0usize, 1usize]);
    let order = stable_order(keys);
    let rest = order.drop_first();
    assert(rest =~= seq![1usize]);
    assert(rest.drop_first() =~= seq![]);
    let wo = char_width(m.pair.open);
    let wc = char_width(m.pair.close);
    assert(e0.start == m.open && e0.end == m.open + wo);
    assert(e1.start == m.close && e1.end == m.close + wc);
    if offset <= m.open {
        assert(remap_walk(offset, edits, order, 0) == Ok::<u64, Seq<char>>(offset));
    } else if m.open + wo <= offset <= m.close {
        assert(remap_walk(offset, edits, order, 0) == remap_walk(offset, edits, rest, -wo));
        assert(remap_walk(offset, edits, rest, -wo) == Ok::<u64, Seq<char>>((offset - wo) as u64));
    } else if m.close + wc <= offset {
        assert(remap_walk(offset, edits, order, 0) == remap_walk(offset, edits, rest, -wo));
        assert(remap_walk(offset, edits, rest, -wo) == remap_walk(
            offset,
            edits,
            rest.drop_first(),
            -wo - wc,
        ));
    }
}

/// The edits along `order` are well formed and come one after another: each
/// ends at or before the start of every later one.
pub open spec fn chained(edits: Seq<EditView>, order: Seq<usize>) -> bool {
    &&& forall|k: int| 0 <= k < order.len() ==> #[trigger] order[k] < edits.len()
    &&& forall|k: int| 0 <= k < edits.len() ==> #[trigger] edits[k].start <= edits[k].end
    &&& forall|i: int, j: int|
        0 <= i < j < order.len() ==> edits[#[trigger] order[i] as int].end
            <= edits[#[trigger] order[j] as int].start
}

proof fn lemma_chained_rest(edits: Seq<EditView>, order: Seq<usize>)
    requires
        chained(edits, order),
        order.len() > 0,
    ensures
        chained(edits, order.drop_first()),
        forall|k: int|
            0 <= k < order.drop_first().len() ==> edits[order[0] as int].end <= edits[
                #[trigger] order.drop_first()[k] as int].start,
{
    let rest = order.drop_first();
    assert forall|k: int| 0 <= k < rest.len() implies #[trigger] rest[k] < edits.len() by {
        assert(rest[k] == order[k + 1]);
    }
    assert forall|i: int, j: int| 0 <= i < j < rest.len() implies edits[#[trigger] rest[i] as int].end
        <= edits[#[trigger] rest[j] as int].start by {
        assert(rest[i] == order[i + 1] && rest[j] == order[j + 1]);
    }
    assert forall|k: int| 0 <= k < rest.len() implies edits[order[0] as int].end <= edits[
        #[trigger] rest[k] as int].start by {
        assert(rest[k] == order[k + 1]);
    }
}

/// Past the point `t`, where no edit along `order` starts earlier, an
/// offset never moves before `t` shifted by `delta`.
proof fn lemma_walk_lower(offset: u64, edits: Seq<EditView>, order: Seq<usize>, delta: int, t: int)
    requires
        chained(edits, order),
        forall|k: int| 0 <= k < order.len() ==> t <= edits[#[trigger] order[k] as int].start,
        t <= offset,
        remap_walk(offset, edits, order, delta) is Ok,
    ensures
        remap_walk(offset, edits, order, delta)->Ok_0 >= t + delta,
    decreases order.len(),
{
    if order.len() > 0 {
        let e = edits[order[0] as int];
        let new_len = byte_len(e.new_text);
        if offset >= e.start && offset != e.start && offset >= e.end {
            lemma_chained_rest(edits, order);
            lemma_walk_lower(
                offset,
                edits,
                order.drop_first(),
                delta + new_len - (e.end - e.start),
                e.end as int,
            );
        }
    }
}

proof fn lemma_walk_monotone(o1: u64, o2: u64, edits: Seq<EditView>, order: Seq<usize>, delta: int)
    requires
        chained(edits, order),
        o1 <= o2,
        remap_walk(o1, edits, order, delta) is Ok,
        remap_walk(o2, edits, order, delta) is Ok,
    ensures
        remap_walk(o1, edits, order, delta)->Ok_0 <= remap_walk(o2, edits, order, delta)->Ok_0,
    decreases order.len(),
{
    if order.len() > 0 {
        let e = edits[order[0] as int];
        let new_len = byte_len(e.new_text);
        let next = delta + new_len - (e.end - e.start);
        lemma_chained_rest(edits, order);
        if o2 >= e.start && o2 != e.start && o2 >= e.end {
            if o1 >= e.start && o1 != e.start && o1 >= e.end {
                lemma_walk_monotone(o1, o2, edits, order.drop_first(), next);
            } else {
                lemma_walk_lower(o2, edits, order.drop_first(), next, e.end as int);
            }
        }
    }
}

/// Moving offsets keeps their order when the edits are well formed, start
/// at distinct offsets and do not overlap: a selection whose start is at
/// most its end keeps it so.
pub proof fn law_remap_monotone(o1: u64, o2: u64, edits: Seq<EditView>)
    requires
        edits.len() <= usize::MAX,
        forall|k: int| 0 <= k < edits.len() ==> #[trigger] edits[k].start <= edits[k].end,
        forall|i: int, j: int|
            0 <= i < edits.len() && 0 <= j < edits.len() && i != j ==> #[trigger] edits[i].start
                != #[trigger] edits[j].start,
        forall|i: int, j: int|
            0 <= i < edits.len() && 0 <= j < edits.len() && i != j ==> #[trigger] edits[i].end
                <= #[trigger] edits[j].start || edits[j].end <= edits[i].start,
        o1 <= o2,
        remapped(o1, edits) is Ok,
        remapped(o2, edits) is Ok,
    ensures
        remapped(o1, edits)->Ok_0 <= remapped(o2, edits)->Ok_0,
{
    let keys = edit_starts(edits);
    let n = keys.len() as int;
    lemma_stable_order_prefix(keys, n);
    lemma_stable_order_sorted(keys, n);
    let order = stable_order(keys);
    assert forall|i: int, j: int| 0 <= i < j < order.len() implies edits[#[trigger] order[i] as int].end
        <= edits[#[trigger] order[j] as int].start by {
        let a = order[i] as int;
        let b = order[j] as int;
        assert(keys[a] <= keys[b]);
        assert(a != b);
        assert(keys[a] == edits[a].start && keys[b] == edits[b].start);
        assert(edits[a].start != edits[b].start);
        assert(edits[b].start <= edits[b].end);
    }
    lemma_walk_monotone(o1, o2, edits, order, 0);
}

/// No two edits overlap.
pub open spec fn edits_disjoint(edits: Seq<EditView>) -> bool {
    forall|i: int, j: int|
        0 <= i < edits.len() && 0 <= j < edits.len() && i != j ==> #[trigger] edits[i].end
            <= #[trigger] edits[j].start || edits[j].end <= edits[i].start
}

/// `e` covers exactly the character with index `t` of `s`.
pub open spec fn covers_char(s: Seq<char>, e: EditView, t: int) -> bool {
    0 <= t < s.len() && e.start == byte_offset(s, t) && e.end == byte_offset(s, t + 1)
}

proof fn lemma_edit_covers_char(
    s: Seq<char>,
    e: EditView,
    matches: Seq<DelimiterMatch>,
    pairs: Seq<Pair>,
    replacement: Replacement,
)
    requires
        from_some_match(e, matches, pairs, replacement),
        forall|k: int| 0 <= k < matches.len() ==> delimits(s, #[trigger] matches[k]),
    ensures
        exists|t: int| covers_char(s, e, t),
{
    reveal(from_some_match);
    let (k, closing) = choose|k: int, closing: bool|
        0 <= k < matches.len() && #[trigger] delimiter_edit(e, matches[k], closing, pairs, replacement);
    let m = matches[k];
    assert(delimits(s, m));
    let (i, j) = choose|i: int, j: int|
        0 <= i < j < s.len() && byte_offset(s, i) == m.open && byte_offset(s, j) == m.close
            && #[trigger] s[i] == m.pair.open && #[trigger] s[j] == m.pair.close;
    let t = if closing {
        j
    } else {
        i
    };
    lemma_byte_offset_step(s, t);
    assert(covers_char(s, e, t));
}

/// The edits for delimiters found in a text cover each one character of it,
/// each a different one, so no two of them overlap.
pub proof fn law_found_edits_disjoint(
    s: Seq<char>,
    matches: Seq<DelimiterMatch>,
    pairs: Seq<Pair>,
    replacement: Replacement,
)
    requires
        forall|k: int| 0 <= k < matches.len() ==> delimits(s, #[trigger] matches[k]),
    ensures
        match_edits(matches, pairs, replacement) matches Ok(edits) ==> edits_disjoint(edits)
            && distinct_starts(edits) && forall|k: int|
            0 <= k < matches.len() ==> edited_at(edits, #[trigger] matches[k].open as int)
                && edited_at(edits, matches[k].close as int),
{
    law_edits_replace_delimiters(matches, pairs, replacement);
    if let Ok(edits) = match_edits(matches, pairs, replacement) {
        assert forall|i: int, j: int|
            0 <= i < edits.len() && 0 <= j < edits.len() && i != j implies #[trigger] edits[i].end
            <= #[trigger] edits[j].start || edits[j].end <= edits[i].start by {
            lemma_edit_covers_char(s, edits[i], matches, pairs, replacement);
            lemma_edit_covers_char(s, edits[j], matches, pairs, replacement);
            let a = choose|t: int| covers_char(s, edits[i], t);
            let b = choose|t: int| covers_char(s, edits[j], t);
            if i < j {
                assert(edits[i].start != edits[j].start);
            } else {
                assert(edits[j].start != edits[i].start);
            }
            if a < b {
                if a + 1 < b {
                    lemma_byte_offset_strict(s, a + 1, b);
                }
            } else if b < a {
                if b + 1 < a {
                    lemma_byte_offset_strict(s, b + 1, a);
                }
            }
        }
    }
}

/// How often `c` occurs in `t`.
pub open spec fn count_of(t: Seq<char>, c: char) -> nat
    decreases t.len(),
{
    if t.len() == 0 {
        0
    } else {
        (if t[0] == c {
            1nat
        } else {
            0nat
        }) + count_of(t.drop_first(), c)
    }
}

/// How many characters of `t` close a pair (the first one of `pairs` that
/// they close) whose opening delimiter is `c`.
pub open spec fn closers_of(t: Seq<char>, pairs: Seq<Pair>, c: char) -> nat
    decreases t.len(),
{
    if t.len() == 0 {
        0
    } else {
        (if first_with_close(pairs, t[0]) matches Some(p) && p.open == c {
            1nat
        } else {
            0nat
        }) + closers_of(t.drop_first(), pairs, c)
    }
}

/// `c` opens a pair of `pairs` and closes none.
pub open spec fn opening_only(pairs: Seq<Pair>, c: char) -> bool {
    first_with_close(pairs, c) is None && first_with_open(pairs, c) is Some
}

pub proof fn lemma_count_push(t: Seq<char>, x: char, c: char)
    ensures
        count_of(t.push(x), c) == count_of(t, c) + (if x == c {
            1nat
        } else {
            0nat
        }),
    decreases t.len(),
{
    if t.len() > 0 {
        assert(t.push(x).drop_first() =~= t.drop_first().push(x));
        assert(t.push(x)[0] == t[0]);
        lemma_count_push(t.drop_first(), x, c);
    } else {
        assert(t.push(x).drop_first() =~= seq![]);
        assert(t.push(x)[0] == x);
        assert(count_of(t.push(x).drop_first(), c) == 0);
    }
}

proof fn lemma_scan_closes(s: Seq<char>, pairs: Seq<Pair>, b: int, n: int, stack: Seq<char>)
    requires
        0 <= n <= b <= s.len(),
        forall|c: char|
            #[trigger] opening_only(pairs, c) ==> count_of(stack, c) + count_of(s.subrange(n, b), c)
                == closers_of(s.subrange(n, b), pairs, c),
        forall|k: int, c: char|
            n <= k <= b && #[trigger] opening_only(pairs, c) ==> count_of(
                #[trigger] s.subrange(k, b),
                c,
            ) <= closers_of(s.subrange(k, b), pairs, c),
    ensures
        open_scan(s.take(n), pairs, stack) matches Some(i) ==> forall|k: int, c: char|
            i < k <= b && #[trigger] opening_only(pairs, c) ==> count_of(
                #[trigger] s.subrange(k, b),
                c,
            ) <= closers_of(s.subrange(k, b), pairs, c),
    decreases n,
{
    if n > 0 {
        let t = s.take(n);
        assert(t.drop_last() =~= s.take(n - 1));
        let x = s[n - 1];
        assert(t.last() == x);
        let seg = s.subrange(n - 1, b);
        assert(seg.drop_first() =~= s.subrange(n, b));
        assert(seg[0] == x);
        match first_with_close(pairs, x) {
            Some(p) => {
                let next = stack.push(p.open);
                assert forall|c: char| #[trigger] opening_only(pairs, c) implies count_of(next, c)
                    + count_of(seg, c) == closers_of(seg, pairs, c) by {
                    lemma_count_push(stack, p.open, c);
                }
                lemma_scan_closes(s, pairs, b, n - 1, next);
            },
            None => match first_with_open(pairs, x) {
                Some(p) => {
                    if stack.len() > 0 && stack.last() == x {
                        let next = stack.drop_last();
                        assert(next.push(x) =~= stack);
                        assert forall|c: char| #[trigger] opening_only(pairs, c) implies count_of(
                            next,
                            c,
                        ) + count_of(seg, c) == closers_of(seg, pairs, c) by {
                            lemma_count_push(next, x, c);
                        }
                        lemma_scan_closes(s, pairs, b, n - 1, next);
                    }
                },
                None => {
                    lemma_scan_closes(s, pairs, b, n - 1, stack);
                },
            },
        }
    }
}

/// The opening bracket found before the selection's start (index `b`) is
/// the innermost one left open: every opening bracket between it and the
/// selection is closed before the selection, since in each stretch of text
/// from after it up to the selection, no opening bracket occurs more often
/// than the closing brackets of its pair.
pub proof fn law_opening_is_innermost_open(s: Seq<char>, b: int, pairs: Seq<Pair>)
    requires
        0 <= b <= s.len(),
    ensures
        open_scan(s.take(b), pairs, seq![]) matches Some(i) ==> forall|k: int, c: char|
            i < k <= b && #[trigger] opening_only(pairs, c) ==> count_of(
                #[trigger] s.subrange(k, b),
                c,
            ) <= closers_of(s.subrange(k, b), pairs, c),
{
    assert(s.subrange(b, b) =~= seq![]);
    let empty: Seq<char> = seq![];
    assert forall|k: int, c: char|
        b <= k <= b && #[trigger] opening_only(pairs, c) implies count_of(
        #[trigger] s.subrange(k, b),
        c,
    ) <= closers_of(s.subrange(k, b), pairs, c) by {
        assert(s.subrange(k, b) =~= seq![]);
    }
    lemma_scan_closes(s, pairs, b, b, empty);
}

/// How much an edit changes the length of the text.
pub open spec fn length_change(e: EditView) -> int {
    byte_len(e.new_text) - (e.end - e.start)
}

/// The sum of the length changes of those of the first `n` edits that start
/// before `offset`.
pub open spec fn change_before(edits: Seq<EditView>, offset: int, n: int) -> int
    decreases n,
{
    if n <= 0 {
        0
    } else {
        change_before(edits, offset, n - 1) + if edits[n - 1].start < offset {
            length_change(edits[n - 1])
        } else {
            0
        }
    }
}

/// The same sum, taken over the edits in the order `order`.
pub open spec fn change_along(edits: Seq<EditView>, offset: int, order: Seq<usize>) -> int
    decreases order.len(),
{
    if order.len() == 0 {
        0
    } else {
        (if edits[order[0] as int].start < offset {
            length_change(edits[order[0] as int])
        } else {
            0
        }) + change_along(edits, offset, order.drop_first())
    }
}

proof fn lemma_change_along_insert(
    edits: Seq<EditView>,
    offset: int,
    order: Seq<usize>,
    p: int,
    x: usize,
)
    requires
        0 <= p <= order.len(),
    ensures
        change_along(edits, offset, order.insert(p, x)) == change_along(edits, offset, order) + (
        if edits[x as int].start < offset {
            length_change(edits[x as int])
        } else {
            0
        }),
    decreases p,
{
    let ins = order.insert(p, x);
    if p == 0 {
        assert(ins[0] == x);
        assert(ins.drop_first() =~= order);
    } else {
        assert(ins[0] == order[0]);
        assert(ins.drop_first() =~= order.drop_first().insert(p - 1, x));
        lemma_change_along_insert(edits, offset, order.drop_first(), p - 1, x);
    }
}

proof fn lemma_change_along_stable(edits: Seq<EditView>, offset: int, n: int)
    requires
        0 <= n <= edits.len(),
        edits.len() <= usize::MAX,
    ensures
        change_along(edits, offset, stable_order_prefix(edit_starts(edits), n)) == change_before(
            edits,
            offset,
            n,
        ),
    decreases n,
{
    let keys = edit_starts(edits);
    if n > 0 {
        lemma_change_along_stable(edits, offset, n - 1);
        let prev = stable_order_prefix(keys, n - 1);
        lemma_stable_order_prefix(keys, n - 1);
        crate::edits::lemma_insert_position(prev, keys, keys[n - 1]);
        let p = insert_position(prev, keys, keys[n - 1]);
        lemma_change_along_insert(edits, offset, prev, p, (n - 1) as usize);
    } else {
        assert(stable_order_prefix(keys, 0) =~= seq![]);
    }
}

proof fn lemma_change_along_zero(edits: Seq<EditView>, offset: int, order: Seq<usize>)
    requires
        forall|k: int| 0 <= k < order.len() ==> offset <= edits[#[trigger] order[k] as int].start,
    ensures
        change_along(edits, offset, order) == 0,
    decreases order.len(),
{
    if order.len() > 0 {
        assert forall|k: int| 0 <= k < order.drop_first().len() implies offset <= edits[
            #[trigger] order.drop_first()[k] as int].start by {
            assert(order.drop_first()[k] == order[k + 1]);
        }
        lemma_change_along_zero(edits, offset, order.drop_first());
    }
}

proof fn lemma_walk_closed(offset: u64, edits: Seq<EditView>, order: Seq<usize>, delta: int)
    requires
        chained(edits, order),
        forall|k: int|
            0 <= k < edits.len() ==> !(#[trigger] edits[k].start < offset && offset
                < edits[k].end),
        remap_walk(offset, edits, order, delta) is Ok,
    ensures
        remap_walk(offset, edits, order, delta)->Ok_0 == offset + delta + change_along(
            edits,
            offset as int,
            order,
        ),
    decreases order.len(),
{
    if order.len() > 0 {
        let e = edits[order[0] as int];
        lemma_chained_rest(edits, order);
        let rest = order.drop_first();
        assert(e.start <= e.end);
        if offset <= e.start {
            assert forall|k: int| 0 <= k < order.len() implies offset <= edits[
                #[trigger] order[k] as int].start by {
                if k > 0 {
                    assert(order[k] == rest[k - 1]);
                }
            }
            lemma_change_along_zero(edits, offset as int, order);
        } else {
            assert(offset >= e.end);
            lemma_walk_closed(offset, edits, rest, delta + length_change(e));
        }
    }
}

/// Where an offset goes, in closed form: for well-formed edits that start
/// at distinct offsets and do not overlap, an offset that lies inside none
/// of them moves by the sum of the length changes of the edits that start
/// before it.
pub proof fn law_remap_closed_form(offset: u64, edits: Seq<EditView>)
    requires
        edits.len() <= usize::MAX,
        forall|k: int| 0 <= k < edits.len() ==> #[trigger] edits[k].start <= edits[k].end,
        forall|i: int, j: int|
            0 <= i < edits.len() && 0 <= j < edits.len() && i != j ==> #[trigger] edits[i].start
                != #[trigger] edits[j].start,
        forall|i: int, j: int|
            0 <= i < edits.len() && 0 <= j < edits.len() && i != j ==> #[trigger] edits[i].end
                <= #[trigger] edits[j].start || edits[j].end <= edits[i].start,
        forall|k: int|
            0 <= k < edits.len() ==> !(#[trigger] edits[k].start < offset && offset
                < edits[k].end),
        remapped(offset, edits) is Ok,
    ensures
        remapped(offset, edits)->Ok_0 == offset + change_before(
            edits,
            offset as int,
            edits.len() as int,
        ),
{
    let keys = edit_starts(edits);
    let n = keys.len() as int;
    lemma_stable_order_prefix(keys, n);
    lemma_stable_order_sorted(keys, n);
    let order = stable_order(keys);
    assert forall|i: int, j: int| 0 <= i < j < order.len() implies edits[#[trigger] order[i] as int].end
        <= edits[#[trigger] order[j] as int].start by {
        let a = order[i] as int;
        let b = order[j] as int;
        assert(keys[a] <= keys[b]);
        assert(a != b);
        assert(keys[a] == edits[a].start && keys[b] == edits[b].start);
        assert(edits[a].start != edits[b].start);
        assert(edits[b].start <= edits[b].end);
    }
    lemma_walk_closed(offset, edits, order, 0);
    lemma_change_along_stable(edits, offset as int, n);
}

} // verus!
