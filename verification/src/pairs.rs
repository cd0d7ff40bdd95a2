//! Delimiter pairs and the delimiters found around a selection.
use vstd::prelude::*;
use crate::editor::{EditorSelection, EditorCommandContext, language_view};
use crate::text::{byte_offset, CharTable};
use crate::unicode::{unicode_lowercase, str_to_lowercase, char_to_string};
use vstd::string::StringExecFns;

verus! {

/// An opening and a closing delimiter.
#[derive(Clone, Copy, Debug, PartialEq, Eq, Structural)]
pub struct Pair {
    pub open: char,
    pub close: char,
}

impl Pair {
    /// A pair of two distinct delimiters, such as `(` and `)`.
    pub fn new(open: char, close: char) -> (pair: Self)
        ensures
            pair.open == open,
            pair.close == close,
    {
        Self { open, close }
    }

    /// A pair whose two delimiters are the same character, such as a quote.
    pub fn same(quote: char) -> (pair: Self)
        ensures
            pair.open == quote,
            pair.close == quote,
    {
        Self { open: quote, close: quote }
    }
}

/// A pair of delimiters found around a selection: the byte offsets of the
/// opening and of the closing delimiter.
#[derive(Clone, Copy, Debug, PartialEq, Eq, Structural)]
pub struct DelimiterMatch {
    pub open: usize,
    pub close: usize,
    pub pair: Pair,
    pub selection: EditorSelection,
}

/// `m` lies on a pair of delimiters of `s`: its opening delimiter starts at
/// `m.open`, its closing delimiter at `m.close`, the first before the second.
pub open spec fn delimits(s: Seq<char>, m: DelimiterMatch) -> bool {
    exists|i: int, j: int|
        0 <= i < j < s.len() && byte_offset(s, i) == m.open && byte_offset(s, j) == m.close
            && #[trigger] s[i] == m.pair.open && #[trigger] s[j] == m.pair.close
}

/// The closing delimiter of `p` when `closing`, else its opening one.
pub open spec fn delimiter(p: Pair, closing: bool) -> char {
    if closing {
        p.close
    } else {
        p.open
    }
}

/// The first pair of `pairs` whose closing (when `closing`) or opening
/// delimiter is `c`.
pub open spec fn first_with(pairs: Seq<Pair>, c: char, closing: bool) -> Option<Pair>
    decreases pairs.len(),
{
    if pairs.len() == 0 {
        None
    } else if delimiter(pairs[0], closing) == c {
        Some(pairs[0])
    } else {
        first_with(pairs.drop_first(), c, closing)
    }
}

/// The first pair of `pairs` whose closing delimiter is `c`.
pub open spec fn first_with_close(pairs: Seq<Pair>, c: char) -> Option<Pair> {
    first_with(pairs, c, true)
}

/// The first pair of `pairs` whose opening delimiter is `c`.
pub open spec fn first_with_open(pairs: Seq<Pair>, c: char) -> Option<Pair> {
    first_with(pairs, c, false)
}

pub proof fn lemma_first_with(pairs: Seq<Pair>, c: char, closing: bool)
    ensures
        first_with(pairs, c, closing) matches Some(p) ==> delimiter(p, closing) == c
            && pairs.contains(p),
        first_with(pairs, c, closing) is None ==> forall|i: int|
            0 <= i < pairs.len() ==> delimiter(#[trigger] pairs[i], closing) != c,
    decreases pairs.len(),
{
    if pairs.len() > 0 && delimiter(pairs[0], closing) != c {
        lemma_first_with(pairs.drop_first(), c, closing);
        if first_with(pairs, c, closing) is None {
            assert forall|i: int| 0 <= i < pairs.len() implies delimiter(
                #[trigger] pairs[i],
                closing,
            ) != c by {
                if i > 0 {
                    assert(pairs[i] == pairs.drop_first()[i - 1]);
                }
            }
        } else {
            let p = first_with(pairs, c, closing)->0;
            let j = choose|j: int| 0 <= j < pairs.drop_first().len() && pairs.drop_first()[j] == p;
            assert(pairs[j + 1] == p);
        }
    } else if pairs.len() > 0 {
        assert(pairs.contains(pairs[0]));
    }
}

/// The first pair of `pairs` whose closing (when `closing`) or opening
/// delimiter is `c`.
pub fn pair_with(pairs: &[Pair], c: char, closing: bool) -> (r: Option<Pair>)
    ensures
        r == first_with(pairs@, c, closing),
{
    let mut j: usize = 0;
    assert(pairs@.skip(0) =~= pairs@);
    while j < pairs.len()
        invariant
            j <= pairs@.len(),
            first_with(pairs@.skip(j as int), c, closing) == first_with(pairs@, c, closing),
        decreases pairs@.len() - j,
    {
        assert(pairs@.skip(j as int)[0] == pairs@[j as int]);
        assert(pairs@.skip(j as int).drop_first() =~= pairs@.skip(j + 1));
        let candidate = pairs[j];
        let found = if closing {
            candidate.close == c
        } else {
            candidate.open == c
        };
        if found {
            return Some(candidate);
        }
        j = j + 1;
    }
    None
}

/// The index of the first pair of `pairs` equal to `p`.
pub open spec fn position_of(pairs: Seq<Pair>, p: Pair) -> Option<int>
    decreases pairs.len(),
{
    if pairs.len() == 0 {
        None
    } else if pairs[0] == p {
        Some(0)
    } else {
        match position_of(pairs.drop_first(), p) {
            Some(i) => Some(i + 1),
            None => None,
        }
    }
}

/// The pair after `current` in `pairs`, the first one after the last.
pub open spec fn next_pair(pairs: Seq<Pair>, current: Pair) -> Option<Pair> {
    match position_of(pairs, current) {
        Some(i) => Some(pairs[(i + 1) % (pairs.len() as int)]),
        None => None,
    }
}

pub proof fn lemma_position_of(pairs: Seq<Pair>, p: Pair)
    ensures
        position_of(pairs, p) matches Some(i) ==> 0 <= i < pairs.len() && pairs[i] == p
            && forall|k: int| 0 <= k < i ==> #[trigger] pairs[k] != p,
        position_of(pairs, p) is None ==> forall|k: int| 0 <= k < pairs.len() ==> #[trigger] pairs[k] != p,
    decreases pairs.len(),
{
    if pairs.len() > 0 && pairs[0] != p {
        lemma_position_of(pairs.drop_first(), p);
        assert forall|k: int| 0 < k < pairs.len() implies #[trigger] pairs[k] == pairs.drop_first()[k - 1] by {}
    }
}

/// The pair after `current` in `pairs`, cycling to the first after the last;
/// `None` when `current` is not among `pairs`.
pub fn cycle_pair(current: Pair, pairs: &[Pair]) -> (r: Option<Pair>)
    ensures
        r == next_pair(pairs@, current),
{
    proof {
        lemma_position_of(pairs@, current);
    }
    let mut index: usize = 0;
    while index < pairs.len()
        invariant
            index <= pairs@.len(),
            forall|k: int| 0 <= k < index ==> #[trigger] pairs@[k] != current,
            position_of(pairs@, current) matches Some(i) ==> 0 <= i < pairs@.len() && pairs@[i] == current
                && forall|k: int| 0 <= k < i ==> #[trigger] pairs@[k] != current,
            position_of(pairs@, current) is None ==> forall|k: int|
                0 <= k < pairs@.len() ==> #[trigger] pairs@[k] != current,
        decreases pairs@.len() - index,
    {
        if pairs[index] == current {
            proof {
                if let Some(i) = position_of(pairs@, current) {
                    if i < index {
                        assert(pairs@[i] != current);
                    }
                    if index < i {
                        assert(pairs@[index as int] != current);
                    }
                }
            }
            return Some(pairs[(index + 1) % pairs.len()]);
        }
        index = index + 1;
    }
    proof {
        if let Some(i) = position_of(pairs@, current) {
            assert(pairs@[i] != current);
        }
    }
    None
}

/// `s` without its spaces and hyphens.
pub open spec fn without_separators(s: Seq<char>) -> Seq<char>
    decreases s.len(),
{
    if s.len() == 0 {
        seq![]
    } else {
        without_separators(s.drop_last()) + if s.last() == ' ' || s.last() == '-' {
            seq![]
        } else {
            seq![s.last()]
        }
    }
}

/// A language's name in lower case, without spaces and hyphens.
pub open spec fn normalized(language: Option<Seq<char>>) -> Option<Seq<char>> {
    match language {
        Some(l) => Some(without_separators(unicode_lowercase(l))),
        None => None,
    }
}

/// `text` without its spaces and hyphens.
pub fn strip_separators(text: &str) -> (r: String)
    ensures
        r@ == without_separators(text@),
{
    let table = CharTable::of(text);
    let mut result = String::new();
    let mut i: usize = 0;
    while i < table.chars.len()
        invariant
            table.describes(text@),
            i <= text@.len(),
            result@ == without_separators(text@.take(i as int)),
        decreases text@.len() - i,
    {
        let c = table.chars[i];
        assert(text@.take(i + 1).drop_last() =~= text@.take(i as int));
        assert(text@.take(i + 1).last() == c);
        if c != ' ' && c != '-' {
            let piece = char_to_string(c);
            result.append(piece.as_str());
        } else {
            assert(result@ + seq![] =~= result@);
        }
        i = i + 1;
    }
    assert(text@.take(text@.len() as int) =~= text@);
    result
}

/// The context's language in lower case, without spaces and hyphens.
pub fn normalized_language(context: &EditorCommandContext) -> (r: Option<String>)
    ensures
        match r {
            Some(v) => normalized(language_view(context.language)) == Some(v@),
            None => normalized(language_view(context.language)) is None,
        },
{
    match &context.language {
        None => None,
        Some(language) => {
            let lower = str_to_lowercase(language.as_str());
            Some(strip_separators(lower.as_str()))
        },
    }
}

/// `language` is `Some(name)`.
pub fn is_language(language: &Option<String>, name: &str) -> (r: bool)
    ensures
        r == (language_view(*language) == Some(name@)),
{
    match language {
        Some(l) => {
            let wanted = name.to_string();
            *l == wanted
        },
        None => false,
    }
}

/// The bracket pairs of a language, by its normalized name.
pub open spec fn bracket_pairs_for(language: Option<Seq<char>>) -> Seq<Pair> {
    if language == Some("json"@) {
        seq![Pair { open: '[', close: ']' }, Pair { open: '{', close: '}' }]
    } else if language == Some("css"@) || language == Some("html"@) {
        seq![Pair { open: '(', close: ')' }, Pair { open: '{', close: '}' }]
    } else if language == Some("typescript"@) || language == Some("typescriptreact"@) || language
        == Some("tsx"@) {
        seq![
            Pair { open: '(', close: ')' },
            Pair { open: '[', close: ']' },
            Pair { open: '{', close: '}' },
            Pair { open: '<', close: '>' },
        ]
    } else {
        seq![
            Pair { open: '(', close: ')' },
            Pair { open: '[', close: ']' },
            Pair { open: '{', close: '}' },
        ]
    }
}

/// The quote pairs of a language, by its normalized name.
pub open spec fn quote_pairs_for(language: Option<Seq<char>>) -> Seq<Pair> {
    if language == Some("javascript"@) || language == Some("typescript"@) || language == Some(
        "typescriptreact"@,
    ) || language == Some("tsx"@) {
        seq![
            Pair { open: '\'', close: '\'' },
            Pair { open: '"', close: '"' },
            Pair { open: '`', close: '`' },
        ]
    } else if language == Some("json"@) {
        seq![Pair { open: '"', close: '"' }]
    } else {
        seq![Pair { open: '"', close: '"' }, Pair { open: '\'', close: '\'' }]
    }
}

/// The bracket pairs of the context's language.
pub open spec fn context_brackets(context: EditorCommandContext) -> Seq<Pair> {
    bracket_pairs_for(normalized(language_view(context.language)))
}

/// The quote pairs of the context's language.
pub open spec fn context_quotes(context: EditorCommandContext) -> Seq<Pair> {
    quote_pairs_for(normalized(language_view(context.language)))
}

/// The bracket pairs that the context's language uses.
pub fn bracket_pairs(context: &EditorCommandContext) -> (pairs: Vec<Pair>)
    ensures
        pairs@ == context_brackets(*context),
{
    bracket_pairs_for_language(&normalized_language(context))
}

/// The bracket pairs of the language with the normalized name `language`.
pub fn bracket_pairs_for_language(language: &Option<String>) -> (pairs: Vec<Pair>)
    ensures
        pairs@ == bracket_pairs_for(language_view(*language)),
{
    let mut pairs: Vec<Pair> = Vec::new();
    if is_language(language, "json") {
        pairs.push(Pair::new('[', ']'));
        pairs.push(Pair::new('{', '}'));
    } else if is_language(language, "css") || is_language(language, "html") {
        pairs.push(Pair::new('(', ')'));
        pairs.push(Pair::new('{', '}'));
    } else if is_language(language, "typescript") || is_language(language, "typescriptreact")
        || is_language(language, "tsx") {
        pairs.push(Pair::new('(', ')'));
        pairs.push(Pair::new('[', ']'));
        pairs.push(Pair::new('{', '}'));
        pairs.push(Pair::new('<', '>'));
    } else {
        pairs.push(Pair::new('(', ')'));
        pairs.push(Pair::new('[', ']'));
        pairs.push(Pair::new('{', '}'));
    }
    pairs
}

/// The quote pairs that the context's language uses.
pub fn quote_pairs(context: &EditorCommandContext) -> (pairs: Vec<Pair>)
    ensures
        pairs@ == context_quotes(*context),
{
    quote_pairs_for_language(&normalized_language(context))
}

/// The quote pairs of the language with the normalized name `language`.
pub fn quote_pairs_for_language(language: &Option<String>) -> (pairs: Vec<Pair>)
    ensures
        pairs@ == quote_pairs_for(language_view(*language)),
{
    let mut pairs: Vec<Pair> = Vec::new();
    if is_language(language, "javascript") || is_language(language, "typescript")
        || is_language(language, "typescriptreact") || is_language(language, "tsx") {
        pairs.push(Pair::same('\''));
        pairs.push(Pair::same('"'));
        pairs.push(Pair::same('`'));
    } else if is_language(language, "json") {
        pairs.push(Pair::same('"'));
    } else {
        pairs.push(Pair::same('"'));
        pairs.push(Pair::same('\''));
    }
    pairs
}

} // verus!
