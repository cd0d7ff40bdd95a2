//! The commands: finding the delimiters around every selection and swapping,
//! removing, changing or selecting them.
use vstd::prelude::*;
use crate::editor::{
    EditorSelection,
    EditorEdit,
    EditView,
    EditorCommandContext,
    EditorCommandResult,
    ResultView,
    edits_view,
    outcome_view,
};
use crate::pairs::{
    Pair,
    DelimiterMatch,
    delimits,
    next_pair,
    cycle_pair,
    bracket_pairs,
    quote_pairs,
    context_brackets,
    context_quotes,
};
use crate::brackets::{brackets_around, find_brackets_around_selection, lemma_brackets_around_delimits};
use crate::quotes::{quotes_around, find_quotes_around_selection, lemma_quotes_around_delimits};
use crate::edits::{char_edit, edit_for_char, remapped_selections, remap_selections};
use crate::text::{byte_len, byte_offset, char_width, char_width_exec, text_len, lemma_byte_offset_step, lemma_byte_offset_bound};
use crate::unicode::char_to_string;
use crate::laws::{edits_disjoint, distinct_starts, law_found_edits_disjoint};

verus! {

/// How many lines above and below a selection the search for quotes looks
/// first.
pub const LINE_TOLERANCE: usize = 8;

/// What replaces a pair of delimiters: the next pair of the language, no
/// delimiters, or a given pair.
#[derive(Clone, Copy, Debug, PartialEq, Eq, Structural)]
pub enum Replacement {
    Cycle,
    Remove,
    Pair(Pair),
}

/// The brackets around each selection that has some, in the selections'
/// order.
pub open spec fn bracket_matches(s: Seq<char>, selections: Seq<EditorSelection>, pairs: Seq<Pair>) -> Seq<
    DelimiterMatch,
>
    decreases selections.len(),
{
    if selections.len() == 0 {
        seq![]
    } else {
        bracket_matches(s, selections.drop_last(), pairs) + match brackets_around(
            s,
            selections.last(),
            pairs,
        ) {
            Some(m) => seq![m],
            None => seq![],
        }
    }
}

/// The quotes around each selection that has some, in the selections' order.
pub open spec fn quote_matches(s: Seq<char>, selections: Seq<EditorSelection>, pairs: Seq<Pair>) -> Seq<
    DelimiterMatch,
>
    decreases selections.len(),
{
    if selections.len() == 0 {
        seq![]
    } else {
        quote_matches(s, selections.drop_last(), pairs) + match quotes_around(
            s,
            selections.last(),
            pairs,
            LINE_TOLERANCE as nat,
        ) {
            Some(m) => seq![m],
            None => seq![],
        }
    }
}

/// Finds the brackets around each selection of the context.
pub fn parse_brackets(context: &EditorCommandContext, pairs: &[Pair]) -> (r: Vec<DelimiterMatch>)
    ensures
        r@ == bracket_matches(context.text@, context.selections@, pairs@),
        forall|k: int| 0 <= k < r@.len() ==> delimits(context.text@, #[trigger] r@[k]),
        forall|k: int| 0 <= k < r@.len() ==> fits(#[trigger] r@[k]),
{
    let ghost s = context.text@;
    let total = text_len(context.text.as_str());
    let mut result: Vec<DelimiterMatch> = Vec::new();
    let mut i: usize = 0;
    while i < context.selections.len()
        invariant
            s == context.text@,
            total == byte_len(s),
            i <= context.selections@.len(),
            result@ == bracket_matches(s, context.selections@.take(i as int), pairs@),
            forall|k: int| 0 <= k < result@.len() ==> delimits(s, #[trigger] result@[k]),
            forall|k: int| 0 <= k < result@.len() ==> fits(#[trigger] result@[k]),
        decreases context.selections@.len() - i,
    {
        let selection = context.selections[i];
        assert(context.selections@.take(i + 1).drop_last() =~= context.selections@.take(i as int));
        assert(context.selections@.take(i + 1).last() == selection);
        proof {
            lemma_brackets_around_delimits(s, selection, pairs@);
        }
        match find_brackets_around_selection(context.text.as_str(), selection, pairs) {
            Some(found) => {
                proof {
                    lemma_delimits_fits(s, found);
                }
                result.push(found);
            },
            None => {
                assert(result@ + seq![] =~= result@);
            },
        }
        i = i + 1;
    }
    assert(context.selections@.take(context.selections@.len() as int) =~= context.selections@);
    result
}

/// Finds the quotes around each selection of the context.
pub fn parse_quotes(context: &EditorCommandContext, pairs: &[Pair]) -> (r: Vec<DelimiterMatch>)
    ensures
        r@ == quote_matches(context.text@, context.selections@, pairs@),
        forall|k: int| 0 <= k < r@.len() ==> delimits(context.text@, #[trigger] r@[k]),
        forall|k: int| 0 <= k < r@.len() ==> fits(#[trigger] r@[k]),
{
    let ghost s = context.text@;
    let total = text_len(context.text.as_str());
    let mut result: Vec<DelimiterMatch> = Vec::new();
    let mut i: usize = 0;
    while i < context.selections.len()
        invariant
            s == context.text@,
            total == byte_len(s),
            i <= context.selections@.len(),
            result@ == quote_matches(s, context.selections@.take(i as int), pairs@),
            forall|k: int| 0 <= k < result@.len() ==> delimits(s, #[trigger] result@[k]),
            forall|k: int| 0 <= k < result@.len() ==> fits(#[trigger] result@[k]),
        decreases context.selections@.len() - i,
    {
        let selection = context.selections[i];
        assert(context.selections@.take(i + 1).drop_last() =~= context.selections@.take(i as int));
        assert(context.selections@.take(i + 1).last() == selection);
        proof {
            lemma_quotes_around_delimits(s, selection, pairs@, LINE_TOLERANCE as nat);
        }
        match find_quotes_around_selection(context.text.as_str(), selection, pairs, LINE_TOLERANCE) {
            Some(found) => {
                proof {
                    lemma_delimits_fits(s, found);
                }
                result.push(found);
            },
            None => {
                assert(result@ + seq![] =~= result@);
            },
        }
        i = i + 1;
    }
    assert(context.selections@.take(context.selections@.len() as int) =~= context.selections@);
    result
}

/// The selection of a match's content: the text between its delimiters, or,
/// when the selection is that content already, the delimiters with it.
pub open spec fn selected_content(m: DelimiterMatch) -> EditorSelection {
    let content_start = m.open + char_width(m.pair.open);
    let content_end = m.close;
    if m.selection.start as usize == content_start && m.selection.end as usize == content_end {
        EditorSelection {
            start: m.open as u64,
            end: (m.close + char_width(m.pair.close)) as u64,
            reversed: m.selection.reversed,
        }
    } else {
        EditorSelection {
            start: content_start as u64,
            end: content_end as u64,
            reversed: m.selection.reversed,
        }
    }
}

/// The delimiters of `m` end within the range of `usize`.
pub open spec fn fits(m: DelimiterMatch) -> bool {
    m.open + char_width(m.pair.open) <= usize::MAX && m.close + char_width(m.pair.close)
        <= usize::MAX
}

/// A match on the delimiters of a text that fits in memory fits.
pub proof fn lemma_delimits_fits(s: Seq<char>, m: DelimiterMatch)
    requires
        delimits(s, m),
        byte_len(s) <= usize::MAX,
    ensures
        fits(m),
{
    let (i, j) = choose|i: int, j: int|
        0 <= i < j < s.len() && byte_offset(s, i) == m.open && byte_offset(s, j) == m.close
            && #[trigger] s[i] == m.pair.open && #[trigger] s[j] == m.pair.close;
    lemma_byte_offset_step(s, i);
    lemma_byte_offset_step(s, j);
    lemma_byte_offset_bound(s, i + 1);
    lemma_byte_offset_bound(s, j + 1);
}

/// The result of selecting the content of each match: no edits, one
/// selection per match.
pub open spec fn content_result(matches: Seq<DelimiterMatch>) -> Option<ResultView> {
    if matches.len() == 0 {
        None
    } else {
        Some(
            ResultView {
                edits: seq![],
                selections: Some(matches.map_values(|m: DelimiterMatch| selected_content(m))),
            },
        )
    }
}

/// Selects the content of each match, or the match with its delimiters when
/// its content is selected already.
pub fn select_content(matches: Vec<DelimiterMatch>) -> (r: Result<Option<EditorCommandResult>, String>)
    requires
        forall|k: int| 0 <= k < matches@.len() ==> fits(#[trigger] matches@[k]),
    ensures
        outcome_view(r) == Ok::<Option<ResultView>, Seq<char>>(content_result(matches@)),
{
    if matches.len() == 0 {
        return Ok(None);
    }
    let mut selections: Vec<EditorSelection> = Vec::new();
    let mut i: usize = 0;
    while i < matches.len()
        invariant
            i <= matches@.len(),
            forall|k: int| 0 <= k < matches@.len() ==> fits(#[trigger] matches@[k]),
            selections@ =~= matches@.take(i as int).map_values(|m: DelimiterMatch| selected_content(m)),
        decreases matches@.len() - i,
    {
        let delimiter_match = matches[i];
        assert(fits(matches@[i as int]));
        let content_start = delimiter_match.open + char_width_exec(delimiter_match.pair.open);
        let content_end = delimiter_match.close;
        let selection = if delimiter_match.selection.start as usize == content_start
            && delimiter_match.selection.end as usize == content_end {
            EditorSelection {
                start: delimiter_match.open as u64,
                end: (delimiter_match.close + char_width_exec(delimiter_match.pair.close)) as u64,
                reversed: delimiter_match.selection.reversed,
            }
        } else {
            EditorSelection {
                start: content_start as u64,
                end: content_end as u64,
                reversed: delimiter_match.selection.reversed,
            }
        };
        selections.push(selection);
        i = i + 1;
    }
    assert(matches@.take(matches@.len() as int) =~= matches@);
    let edits: Vec<EditorEdit> = Vec::new();
    assert(edits_view(edits@) =~= seq![]);
    Ok(Some(EditorCommandResult { edits, selections: Some(selections) }))
}

/// The pair that replaces the delimiters of `m`; `None` when the pair of `m`
/// cannot be cycled.
pub open spec fn replacement_pair(m: DelimiterMatch, pairs: Seq<Pair>, replacement: Replacement) -> Option<
    Pair,
> {
    match replacement {
        Replacement::Cycle => next_pair(pairs, m.pair),
        Replacement::Remove => Some(Pair { open: '\0', close: '\0' }),
        Replacement::Pair(p) => Some(p),
    }
}

/// The texts that replace the opening and the closing delimiter.
pub open spec fn replacement_texts(pair: Pair, replacement: Replacement) -> (Seq<char>, Seq<char>) {
    if replacement is Remove {
        (seq![], seq![])
    } else {
        (seq![pair.open], seq![pair.close])
    }
}

/// Some edit of `edits` starts at `offset`.
pub open spec fn edited_at(edits: Seq<EditView>, offset: int) -> bool {
    exists|k: int| 0 <= k < edits.len() && #[trigger] edits[k].start == offset
}

/// `edits` with the edit that replaces the delimiter `c` at `offset` by
/// `text`, unless an edit already starts there.
pub open spec fn with_edit(edits: Seq<EditView>, offset: usize, c: char, text: Seq<char>) -> Result<
    Seq<EditView>,
    Seq<char>,
> {
    if edited_at(edits, offset as int) {
        Ok(edits)
    } else {
        match char_edit(offset, c, text) {
            Ok(e) => Ok(edits.push(e)),
            Err(message) => Err(message),
        }
    }
}

/// One edit for each delimiter of the matches (a delimiter that several
/// matches share, such as a pair around two cursors, is edited once), or the
/// message of the first error.
pub open spec fn match_edits(matches: Seq<DelimiterMatch>, pairs: Seq<Pair>, replacement: Replacement) -> Result<
    Seq<EditView>,
    Seq<char>,
>
    decreases matches.len(),
{
    if matches.len() == 0 {
        Ok(seq![])
    } else {
        match match_edits(matches.drop_last(), pairs, replacement) {
            Err(e) => Err(e),
            Ok(prev) => {
                let m = matches.last();
                if edited_at(prev, m.open as int) && edited_at(prev, m.close as int) {
                    Ok(prev)
                } else {
                    match replacement_pair(m, pairs, replacement) {
                        None => Err("Unable to cycle delimiter pair"@),
                        Some(pair) => {
                            let (open, close) = replacement_texts(pair, replacement);
                            match with_edit(prev, m.open, m.pair.open, open) {
                                Err(e) => Err(e),
                                Ok(with_open) => with_edit(with_open, m.close, m.pair.close, close),
                            }
                        },
                    }
                }
            },
        }
    }
}

/// The result of replacing the delimiters of each match: the edits, and the
/// selections moved to where the edits leave them.
pub open spec fn replaced(matches: Seq<DelimiterMatch>, pairs: Seq<Pair>, replacement: Replacement) -> Result<
    Option<ResultView>,
    Seq<char>,
> {
    if matches.len() == 0 {
        Ok(None)
    } else {
        match match_edits(matches, pairs, replacement) {
            Err(e) => Err(e),
            Ok(edits) => match remapped_selections(
                matches.map_values(|m: DelimiterMatch| m.selection),
                edits,
            ) {
                Err(e) => Err(e),
                Ok(selections) => Ok(Some(ResultView { edits, selections: Some(selections) })),
            },
        }
    }
}

proof fn lemma_match_edits_err(
    matches: Seq<DelimiterMatch>,
    pairs: Seq<Pair>,
    replacement: Replacement,
    i: int,
)
    requires
        0 <= i < matches.len(),
        match_edits(matches.take(i + 1), pairs, replacement) is Err,
    ensures
        match_edits(matches, pairs, replacement) == match_edits(matches.take(i + 1), pairs, replacement),
    decreases matches.len() - i,
{
    if i + 1 < matches.len() {
        assert(matches.drop_last().take(i + 1) =~= matches.take(i + 1));
        lemma_match_edits_err(matches.drop_last(), pairs, replacement, i);
    } else {
        assert(matches.take(i + 1) =~= matches);
    }
}

/// Whether some edit of `edits` starts at `offset`.
pub fn edits_start_at(edits: &Vec<EditorEdit>, offset: usize) -> (r: bool)
    ensures
        r == edited_at(edits_view(edits@), offset as int),
{
    let mut k: usize = 0;
    while k < edits.len()
        invariant
            k <= edits@.len(),
            forall|j: int| 0 <= j < k ==> #[trigger] edits_view(edits@)[j].start != offset,
        decreases edits@.len() - k,
    {
        if edits[k].range.start as usize == offset {
            assert(edits_view(edits@)[k as int].start == offset);
            return true;
        }
        k = k + 1;
    }
    false
}

/// Replaces the delimiters of each match as `replacement` says (a delimiter
/// that several matches share is replaced once), and moves the selections
/// along.
pub fn replace_matches(matches: Vec<DelimiterMatch>, pairs: &[Pair], replacement: Replacement) -> (r:
    Result<Option<EditorCommandResult>, String>)
    ensures
        outcome_view(r) == replaced(matches@, pairs@, replacement),
{
    if matches.len() == 0 {
        return Ok(None);
    }
    let mut edits: Vec<EditorEdit> = Vec::new();
    let mut selections: Vec<EditorSelection> = Vec::new();
    let mut i: usize = 0;
    while i < matches.len()
        invariant
            i <= matches@.len(),
            selections@ =~= matches@.take(i as int).map_values(|m: DelimiterMatch| m.selection),
        decreases matches@.len() - i,
    {
        selections.push(matches[i].selection);
        i = i + 1;
    }
    assert(matches@.take(matches@.len() as int) =~= matches@);
    assert(edits_view(edits@) =~= seq![]);
    assert(matches@.take(0) =~= seq![]);
    let mut i: usize = 0;
    while i < matches.len()
        invariant
            i <= matches@.len(),
            match_edits(matches@.take(i as int), pairs@, replacement) == Ok::<
                Seq<EditView>,
                Seq<char>,
            >(edits_view(edits@)),
        decreases matches@.len() - i,
    {
        let delimiter_match = matches[i];
        assert(matches@.take(i + 1).drop_last() =~= matches@.take(i as int));
        assert(matches@.take(i + 1).last() == delimiter_match);
        let open_done = edits_start_at(&edits, delimiter_match.open);
        let close_done = edits_start_at(&edits, delimiter_match.close);
        if open_done && close_done {
            i = i + 1;
            continue ;
        }
        let pair = match replacement {
            Replacement::Cycle => match cycle_pair(delimiter_match.pair, pairs) {
                Some(pair) => pair,
                None => {
                    proof {
                        lemma_match_edits_err(matches@, pairs@, replacement, i as int);
                    }
                    return Err("Unable to cycle delimiter pair".to_string());
                },
            },
            Replacement::Remove => Pair::same('\0'),
            Replacement::Pair(pair) => pair,
        };
        let (open, close) = match replacement {
            Replacement::Remove => (String::new(), String::new()),
            _ => (char_to_string(pair.open), char_to_string(pair.close)),
        };
        if !open_done {
            match edit_for_char(delimiter_match.open, delimiter_match.pair.open, open) {
                Ok(edit) => {
                    let ghost before = edits_view(edits@);
                    edits.push(edit);
                    assert(edits_view(edits@) =~= before.push(edit@));
                },
                Err(message) => {
                    proof {
                        lemma_match_edits_err(matches@, pairs@, replacement, i as int);
                    }
                    return Err(message);
                },
            }
        }
        if !edits_start_at(&edits, delimiter_match.close) {
            match edit_for_char(delimiter_match.close, delimiter_match.pair.close, close) {
                Ok(edit) => {
                    let ghost before = edits_view(edits@);
                    edits.push(edit);
                    assert(edits_view(edits@) =~= before.push(edit@));
                },
                Err(message) => {
                    proof {
                        lemma_match_edits_err(matches@, pairs@, replacement, i as int);
                    }
                    return Err(message);
                },
            }
        }
        i = i + 1;
    }
    assert(matches@.take(matches@.len() as int) =~= matches@);
    let selections = match remap_selections(selections.as_slice(), edits.as_slice()) {
        Ok(v) => v,
        Err(message) => {
            return Err(message);
        },
    };
    Ok(Some(EditorCommandResult { edits, selections: Some(selections) }))
}

/// The brackets around the context's selections.
pub open spec fn found_brackets(context: EditorCommandContext) -> Seq<DelimiterMatch> {
    bracket_matches(context.text@, context.selections@, context_brackets(context))
}

/// The quotes around the context's selections.
pub open spec fn found_quotes(context: EditorCommandContext) -> Seq<DelimiterMatch> {
    quote_matches(context.text@, context.selections@, context_quotes(context))
}

/// Replaces the brackets around each selection.
pub fn replace_brackets(context: &EditorCommandContext, replacement: Replacement) -> (r: Result<
    Option<EditorCommandResult>,
    String,
>)
    ensures
        outcome_view(r) == replaced(found_brackets(*context), context_brackets(*context), replacement),
        r matches Ok(Some(result)) ==> edits_disjoint(result@.edits) && distinct_starts(
            result@.edits,
        ) && forall|k: int|
            0 <= k < found_brackets(*context).len() ==> edited_at(
                result@.edits,
                #[trigger] found_brackets(*context)[k].open as int,
            ) && edited_at(result@.edits, found_brackets(*context)[k].close as int),
{
    let pairs = bracket_pairs(context);
    let matches = parse_brackets(context, pairs.as_slice());
    proof {
        law_found_edits_disjoint(context.text@, matches@, pairs@, replacement);
    }
    replace_matches(matches, pairs.as_slice(), replacement)
}

/// Replaces the quotes around each selection.
pub fn replace_quotes(context: &EditorCommandContext, replacement: Replacement) -> (r: Result<
    Option<EditorCommandResult>,
    String,
>)
    ensures
        outcome_view(r) == replaced(found_quotes(*context), context_quotes(*context), replacement),
        r matches Ok(Some(result)) ==> edits_disjoint(result@.edits) && distinct_starts(
            result@.edits,
        ) && forall|k: int|
            0 <= k < found_quotes(*context).len() ==> edited_at(
                result@.edits,
                #[trigger] found_quotes(*context)[k].open as int,
            ) && edited_at(result@.edits, found_quotes(*context)[k].close as int),
{
    let pairs = quote_pairs(context);
    let matches = parse_quotes(context, pairs.as_slice());
    proof {
        law_found_edits_disjoint(context.text@, matches@, pairs@, replacement);
    }
    replace_matches(matches, pairs.as_slice(), replacement)
}

/// Selects the content of the brackets around each selection.
pub fn select_bracket_content(context: &EditorCommandContext) -> (r: Result<
    Option<EditorCommandResult>,
    String,
>)
    ensures
        outcome_view(r) == Ok::<Option<ResultView>, Seq<char>>(
            content_result(found_brackets(*context)),
        ),
{
    let pairs = bracket_pairs(context);
    select_content(parse_brackets(context, pairs.as_slice()))
}

/// Selects the content of the quotes around each selection.
pub fn select_quote_content(context: &EditorCommandContext) -> (r: Result<
    Option<EditorCommandResult>,
    String,
>)
    ensures
        outcome_view(r) == Ok::<Option<ResultView>, Seq<char>>(content_result(found_quotes(*context))),
{
    let pairs = quote_pairs(context);
    select_content(parse_quotes(context, pairs.as_slice()))
}

/// `command_id` names the command `name`.
pub fn is_command(command_id: &str, name: &str) -> (r: bool)
    ensures
        r == (command_id@ == name@),
{
    command_id.to_string() == name.to_string()
}

/// What the command `command_id` does in `context`; an unknown command does
/// nothing.
pub open spec fn command_outcome(command_id: Seq<char>, context: EditorCommandContext) -> Result<
    Option<ResultView>,
    Seq<char>,
> {
    let brackets = context_brackets(context);
    let quotes = context_quotes(context);
    if command_id == "bracketeer.swapBrackets"@ {
        replaced(found_brackets(context), brackets, Replacement::Cycle)
    } else if command_id == "bracketeer.removeBrackets"@ {
        replaced(found_brackets(context), brackets, Replacement::Remove)
    } else if command_id == "bracketeer.selectBracketContent"@ {
        Ok(content_result(found_brackets(context)))
    } else if command_id == "bracketeer.changeBracketsTo.parentheses"@ {
        replaced(found_brackets(context), brackets, Replacement::Pair(Pair { open: '(', close: ')' }))
    } else if command_id == "bracketeer.changeBracketsTo.square"@ {
        replaced(found_brackets(context), brackets, Replacement::Pair(Pair { open: '[', close: ']' }))
    } else if command_id == "bracketeer.changeBracketsTo.curly"@ {
        replaced(found_brackets(context), brackets, Replacement::Pair(Pair { open: '{', close: '}' }))
    } else if command_id == "bracketeer.changeBracketsTo.angle"@ {
        replaced(found_brackets(context), brackets, Replacement::Pair(Pair { open: '<', close: '>' }))
    } else if command_id == "bracketeer.swapQuotes"@ {
        replaced(found_quotes(context), quotes, Replacement::Cycle)
    } else if command_id == "bracketeer.removeQuotes"@ {
        replaced(found_quotes(context), quotes, Replacement::Remove)
    } else if command_id == "bracketeer.selectQuotesContent"@ {
        Ok(content_result(found_quotes(context)))
    } else if command_id == "bracketeer.changeQuotesTo.single"@ {
        replaced(found_quotes(context), quotes, Replacement::Pair(Pair { open: '\'', close: '\'' }))
    } else if command_id == "bracketeer.changeQuotesTo.double"@ {
        replaced(found_quotes(context), quotes, Replacement::Pair(Pair { open: '"', close: '"' }))
    } else if command_id == "bracketeer.changeQuotesTo.backtick"@ {
        replaced(found_quotes(context), quotes, Replacement::Pair(Pair { open: '`', close: '`' }))
    } else {
        Ok(None)
    }
}

/// Runs the editor command `command_id` on `context`.
pub fn run_editor_command(command_id: &str, context: &EditorCommandContext) -> (r: Result<
    Option<EditorCommandResult>,
    String,
>)
    ensures
        outcome_view(r) == command_outcome(command_id@, *context),
{
    if is_command(command_id, "bracketeer.swapBrackets") {
        replace_brackets(context, Replacement::Cycle)
    } else if is_command(command_id, "bracketeer.removeBrackets") {
        replace_brackets(context, Replacement::Remove)
    } else if is_command(command_id, "bracketeer.selectBracketContent") {
        select_bracket_content(context)
    } else if is_command(command_id, "bracketeer.changeBracketsTo.parentheses") {
        replace_brackets(context, Replacement::Pair(Pair::new('(', ')')))
    } else if is_command(command_id, "bracketeer.changeBracketsTo.square") {
        replace_brackets(context, Replacement::Pair(Pair::new('[', ']')))
    } else if is_command(command_id, "bracketeer.changeBracketsTo.curly") {
        replace_brackets(context, Replacement::Pair(Pair::new('{', '}')))
    } else if is_command(command_id, "bracketeer.changeBracketsTo.angle") {
        replace_brackets(context, Replacement::Pair(Pair::new('<', '>')))
    } else if is_command(command_id, "bracketeer.swapQuotes") {
        replace_quotes(context, Replacement::Cycle)
    } else if is_command(command_id, "bracketeer.removeQuotes") {
        replace_quotes(context, Replacement::Remove)
    } else if is_command(command_id, "bracketeer.selectQuotesContent") {
        select_quote_content(context)
    } else if is_command(command_id, "bracketeer.changeQuotesTo.single") {
        replace_quotes(context, Replacement::Pair(Pair::same('\'')))
    } else if is_command(command_id, "bracketeer.changeQuotesTo.double") {
        replace_quotes(context, Replacement::Pair(Pair::same('"')))
    } else if is_command(command_id, "bracketeer.changeQuotesTo.backtick") {
        replace_quotes(context, Replacement::Pair(Pair::same('`')))
    } else {
        Ok(None)
    }
}

} // verus!
