//! Finding the nearest bracket pair around a selection.
use vstd::prelude::*;
use crate::editor::EditorSelection;
use crate::pairs::{
    Pair,
    DelimiterMatch,
    delimits,
    first_with_close,
    first_with_open,
    pair_with,
    lemma_first_with,
};
use crate::text::{
    CharTable,
    byte_offset,
    byte_len,
    is_boundary,
    is_char_boundary,
    char_index,
    word_start,
    word_end,
    previous_word_boundary,
    next_word_boundary,
    lemma_byte_offset_strict,
    lemma_byte_offset_bound,
    lemma_word_start,
    lemma_word_end,
};

verus! {

/// Scans `s` from its end towards its start with a stack of the opening
/// delimiters that the closing delimiters seen so far wait for; the result
/// is the index of the first opening delimiter that is not waited for.
pub open spec fn open_scan(s: Seq<char>, pairs: Seq<Pair>, stack: Seq<char>) -> Option<int>
    decreases s.len(),
{
    if s.len() == 0 {
        None
    } else {
        let c = s.last();
        match first_with_close(pairs, c) {
            Some(p) => open_scan(s.drop_last(), pairs, stack.push(p.open)),
            None => match first_with_open(pairs, c) {
                Some(p) => if stack.len() > 0 && stack.last() == c {
                    open_scan(s.drop_last(), pairs, stack.drop_last())
                } else {
                    Some(s.len() - 1)
                },
                None => open_scan(s.drop_last(), pairs, stack),
            },
        }
    }
}

/// The innermost unclosed opening delimiter before index `m` of `s`: its byte
/// offset and the first pair that it opens.
pub open spec fn opening_bracket(s: Seq<char>, m: int, pairs: Seq<Pair>) -> Option<(usize, Pair)> {
    match open_scan(s.take(m), pairs, seq![]) {
        Some(i) => Some((byte_offset(s, i) as usize, first_with_open(pairs, s[i])->0)),
        None => None,
    }
}

pub proof fn lemma_open_scan(s: Seq<char>, pairs: Seq<Pair>, stack: Seq<char>)
    ensures
        open_scan(s, pairs, stack) matches Some(i) ==> 0 <= i < s.len() && first_with_close(
            pairs,
            s[i],
        ) is None && first_with_open(pairs, s[i]) is Some,
    decreases s.len(),
{
    if s.len() > 0 {
        let c = s.last();
        match first_with_close(pairs, c) {
            Some(p) => {
                lemma_open_scan(s.drop_last(), pairs, stack.push(p.open));
            },
            None => match first_with_open(pairs, c) {
                Some(p) => {
                    lemma_open_scan(s.drop_last(), pairs, stack.drop_last());
                },
                None => {
                    lemma_open_scan(s.drop_last(), pairs, stack);
                },
            },
        }
    }
}

/// How far `t` nests inside `pair`: its opening delimiters less its closing
/// ones (a character that is the opening delimiter counts as opening).
pub open spec fn nesting(t: Seq<char>, pair: Pair) -> int
    decreases t.len(),
{
    if t.len() == 0 {
        0
    } else {
        let c = t.last();
        nesting(t.drop_last(), pair) + if c == pair.open {
            1int
        } else if c == pair.close {
            -1int
        } else {
            0int
        }
    }
}

/// Index `j` holds a closing delimiter of `pair` that closes at index `k`:
/// the text from `k` up to `j` is balanced.
pub open spec fn closes_at(s: Seq<char>, k: int, j: int, pair: Pair) -> bool {
    &&& k <= j < s.len()
    &&& s[j] == pair.close
    &&& s[j] != pair.open
    &&& nesting(s.subrange(k, j), pair) == 0
}

/// The first index from `i` on that closes at `k`.
pub open spec fn first_close_from(s: Seq<char>, k: int, i: int, pair: Pair) -> Option<int>
    decreases s.len() - i,
{
    if i < 0 || i >= s.len() {
        None
    } else if closes_at(s, k, i, pair) {
        Some(i)
    } else {
        first_close_from(s, k, i + 1, pair)
    }
}

/// The index of the closing delimiter of `pair` that matches the position
/// `k` of `s`.
pub open spec fn closing_index(s: Seq<char>, k: int, pair: Pair) -> Option<int> {
    first_close_from(s, k, k, pair)
}

pub proof fn lemma_first_close_from(s: Seq<char>, k: int, i: int, pair: Pair)
    requires
        0 <= i,
    ensures
        first_close_from(s, k, i, pair) matches Some(j) ==> i <= j && closes_at(s, k, j, pair)
            && forall|l: int| i <= l < j ==> !closes_at(s, k, l, pair),
        first_close_from(s, k, i, pair) is None ==> forall|l: int|
            i <= l < s.len() ==> !closes_at(s, k, l, pair),
    decreases s.len() - i,
{
    if i < s.len() && !closes_at(s, k, i, pair) {
        lemma_first_close_from(s, k, i + 1, pair);
    }
}

/// Finds the innermost opening bracket before `before_end` that no closing
/// bracket between it and `before_end` closes.
pub fn find_opening_bracket(text: &str, before_end: usize, pairs: &[Pair]) -> (r: Option<
    (usize, Pair),
>)
    requires
        is_boundary(text@, before_end as int),
    ensures
        r == opening_bracket(text@, char_index(text@, before_end as int), pairs@),
{
    let table = CharTable::of(text);
    let m = table.index_of(before_end).unwrap();
    let ghost s = text@;
    let mut stack: Vec<char> = Vec::new();
    let mut k = m;
    while k > 0
        invariant
            table.describes(s),
            s == text@,
            m <= s.len(),
            m == char_index(s, before_end as int),
            k <= m,
            open_scan(s.take(k as int), pairs@, stack@) == open_scan(
                s.take(m as int),
                pairs@,
                seq![],
            ),
        decreases k,
    {
        let i = k - 1;
        let character = table.chars[i];
        assert(s.take(k as int).drop_last() =~= s.take(i as int));
        assert(s.take(k as int).last() == character);
        match pair_with(pairs, character, true) {
            Some(pair) => {
                stack.push(pair.open);
            },
            None => match pair_with(pairs, character, false) {
                Some(pair) => {
                    if stack.len() > 0 && stack[stack.len() - 1] == character {
                        let ghost before = stack@;
                        stack.pop();
                        assert(stack@ =~= before.drop_last());
                    } else {
                        assert(open_scan(s.take(k as int), pairs@, stack@) == Some(i as int));
                        assert(s[i as int] == character);
                        return Some((table.offsets[i], pair));
                    }
                },
                None => {},
            },
        }
        k = i;
    }
    None
}

/// Finds the closing delimiter of `target_pair` that matches the position
/// `after_start`: the first one from there on before which the text is
/// balanced.
pub fn find_closing_bracket(text: &str, after_start: usize, target_pair: Pair) -> (r: Option<
    usize,
>)
    requires
        is_boundary(text@, after_start as int),
    ensures
        r == match closing_index(text@, char_index(text@, after_start as int), target_pair) {
            Some(j) => Some(byte_offset(text@, j) as usize),
            None => None,
        },
{
    let table = CharTable::of(text);
    let k = table.index_of(after_start).unwrap();
    let ghost s = text@;
    let n = table.chars.len();
    let mut depth: usize = 0;
    let mut i = k;
    assert(s.subrange(k as int, k as int).len() == 0);
    while i < n
        invariant
            table.describes(s),
            s == text@,
            n == s.len(),
            k == char_index(s, after_start as int),
            k <= i <= n,
            depth <= i - k,
            depth as int == nesting(s.subrange(k as int, i as int), target_pair),
            closing_index(s, k as int, target_pair) == first_close_from(
                s,
                k as int,
                i as int,
                target_pair,
            ),
        decreases n - i,
    {
        let character = table.chars[i];
        assert(s.subrange(k as int, i + 1).drop_last() =~= s.subrange(k as int, i as int));
        assert(s.subrange(k as int, i + 1).last() == character);
        if character == target_pair.open {
            depth += 1;
        } else if character == target_pair.close {
            if depth == 0 {
                assert(closes_at(s, k as int, i as int, target_pair));
                return Some(table.offsets[i]);
            }
            depth -= 1;
        }
        i = i + 1;
    }
    None
}

/// A `u64` as a `usize`, when it fits.
pub fn u64_to_usize(x: u64) -> (r: Option<usize>)
    ensures
        r is Some <==> x <= usize::MAX,
        r matches Some(v) ==> v == x,
{
    if x <= usize::MAX as u64 {
        Some(x as usize)
    } else {
        None
    }
}

/// The byte range that the search for brackets around a selection starts
/// from: the selection widened to the words it touches.
pub open spec fn bracket_bounds(s: Seq<char>, selection: EditorSelection) -> Option<(usize, usize)> {
    let start = selection.start as int;
    let end = selection.end as int;
    if start > usize::MAX || end > usize::MAX || start > end || !is_boundary(s, start)
        || !is_boundary(s, end) {
        None
    } else {
        Some(
            (
                byte_offset(s, word_start(s, char_index(s, start))) as usize,
                byte_offset(s, word_end(s, char_index(s, end))) as usize,
            ),
        )
    }
}

/// Widens a selection to the words at its ends; `None` when an end does not
/// fit in `usize`, the ends are reversed, or an end is no character boundary.
pub fn selection_bounds_for_brackets(text: &str, selection: EditorSelection) -> (r: Option<
    (usize, usize),
>)
    ensures
        r == bracket_bounds(text@, selection),
        r matches Some((b, a)) ==> b <= selection.start <= selection.end <= a && b == byte_offset(
            text@,
            word_start(text@, char_index(text@, selection.start as int)),
        ) && a == byte_offset(text@, word_end(text@, char_index(text@, selection.end as int))),
{
    let start = u64_to_usize(selection.start)?;
    let end = u64_to_usize(selection.end)?;
    if start > end || !is_char_boundary(text, start) || !is_char_boundary(text, end) {
        return None;
    }
    if start == end {
        let word_start = previous_word_boundary(text, start);
        let word_end = next_word_boundary(text, start);
        Some((word_start, word_end))
    } else {
        Some((previous_word_boundary(text, start), next_word_boundary(text, end)))
    }
}

/// The nearest bracket pair around `selection`.
pub open spec fn brackets_around(s: Seq<char>, selection: EditorSelection, pairs: Seq<Pair>) -> Option<
    DelimiterMatch,
> {
    match bracket_bounds(s, selection) {
        None => None,
        Some((before_end, after_start)) => match opening_bracket(
            s,
            char_index(s, before_end as int),
            pairs,
        ) {
            None => None,
            Some((open, pair)) => match closing_index(s, char_index(s, after_start as int), pair) {
                None => None,
                Some(j) => Some(
                    DelimiterMatch {
                        open,
                        close: byte_offset(s, j) as usize,
                        pair,
                        selection,
                    },
                ),
            },
        },
    }
}

/// Finds the nearest bracket pair of `pairs` around `selection`.
pub fn find_brackets_around_selection(
    text: &str,
    selection: EditorSelection,
    pairs: &[Pair],
) -> (r: Option<DelimiterMatch>)
    ensures
        r == brackets_around(text@, selection, pairs@),
{
    let (before_end, after_start) = selection_bounds_for_brackets(text, selection)?;
    proof {
        let s = text@;
        let m = char_index(s, selection.start as int);
        let e = char_index(s, selection.end as int);
        lemma_word_start(s, m);
        lemma_word_end(s, e);
        crate::text::lemma_char_index(s, word_start(s, m));
        crate::text::lemma_char_index(s, word_end(s, e));
    }
    let (open, pair) = find_opening_bracket(text, before_end, pairs)?;
    let close = find_closing_bracket(text, after_start, pair)?;
    Some(DelimiterMatch { open, close, pair, selection })
}

/// A pair found around a selection lies on a pair of delimiters of the text,
/// the opening one before the selection's start and the closing one after
/// its end.
pub proof fn lemma_brackets_around_delimits(s: Seq<char>, selection: EditorSelection, pairs: Seq<Pair>)
    requires
        byte_len(s) <= usize::MAX,
    ensures
        brackets_around(s, selection, pairs) matches Some(m) ==> delimits(s, m) && m.open
            < selection.start && selection.end <= m.close && exists|i: int, j: int|
            found_at(s, pairs, m, i, j),
{
    if let Some(m) = brackets_around(s, selection, pairs) {
        let start = selection.start as int;
        let end = selection.end as int;
        let ms = char_index(s, start);
        let me = char_index(s, end);
        crate::text::lemma_boundary(s, start);
        crate::text::lemma_boundary(s, end);
        if me < ms {
            lemma_byte_offset_strict(s, me, ms);
        }
        lemma_word_start(s, ms);
        lemma_word_end(s, me);
        let b = word_start(s, ms);
        let a = word_end(s, me);
        lemma_byte_offset_bound(s, b);
        lemma_byte_offset_bound(s, a);
        crate::text::lemma_char_index(s, b);
        crate::text::lemma_char_index(s, a);
        assert(char_index(s, byte_offset(s, b) as usize as int) == b);
        assert(char_index(s, byte_offset(s, a) as usize as int) == a);
        lemma_open_scan(s.take(b), pairs, seq![]);
        let i = open_scan(s.take(b), pairs, seq![])->0;
        assert(s.take(b)[i] == s[i]);
        lemma_first_with(pairs, s[i], false);
        let pair = first_with_open(pairs, s[i])->0;
        lemma_first_close_from(s, a, a, pair);
        let j = closing_index(s, a, pair)->0;
        lemma_byte_offset_bound(s, i);
        lemma_byte_offset_bound(s, j);
        lemma_byte_offset_strict(s, i, ms);
        if me < j {
            lemma_byte_offset_strict(s, me, j);
        }
        assert(found_at(s, pairs, m, i, j));
    }
}

/// `m` opens at index `i` and closes at index `j` of `s`, and its pair is the
/// first one that the character at `i` opens, which closes no pair.
pub open spec fn found_at(s: Seq<char>, pairs: Seq<Pair>, m: DelimiterMatch, i: int, j: int) -> bool {
    &&& 0 <= i < j < s.len()
    &&& byte_offset(s, i) == m.open
    &&& byte_offset(s, j) == m.close
    &&& s[i] == m.pair.open
    &&& s[j] == m.pair.close
    &&& first_with_close(pairs, s[i]) is None
    &&& first_with_open(pairs, s[i]) == Some(m.pair)
}

} // verus!
