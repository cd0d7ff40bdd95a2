use bracketeer::brackets::{
    find_brackets_around_selection, find_closing_bracket, find_opening_bracket,
    selection_bounds_for_brackets, u64_to_usize,
};
use bracketeer::commands::{
    parse_brackets, parse_quotes, replace_matches, run_editor_command, select_content,
    select_quote_content, Replacement,
};
use bracketeer::editor::{EditorCommandContext, EditorCommandResult, EditorEdit, EditorSelection, Range};
use bracketeer::edits::{apply_delta, edit_for_char, order_by_start, remap_offset, remap_selections};
use bracketeer::pairs::{
    bracket_pairs, bracket_pairs_for_language, cycle_pair, normalized_language, quote_pairs,
    quote_pairs_for_language, strip_separators, DelimiterMatch, Pair,
};
use bracketeer::quotes::{find_quote_in_range, find_quotes_around_selection, line_tolerant_range};
use bracketeer::text::{
    char_width_exec, is_char_boundary, is_word_character, line_end, line_start, next_word_boundary,
    previous_word_boundary, text_len, CharTable,
};

fn selection(start: u64, end: u64) -> EditorSelection {
    EditorSelection { start, end, reversed: false }
}

fn context(text: &str, selections: Vec<EditorSelection>, language: Option<&str>) -> EditorCommandContext {
    EditorCommandContext {
        text: text.to_string(),
        selections,
        language: language.map(|l| l.to_string()),
        path: None,
    }
}

fn apply(text: &str, result: &EditorCommandResult) -> String {
    let mut output = text.to_string();
    let mut edits: Vec<&EditorEdit> = result.edits.iter().collect();
    edits.sort_by_key(|edit| edit.range.start);
    for edit in edits.into_iter().rev() {
        output.replace_range(edit.range.start as usize..edit.range.end as usize, &edit.new_text);
    }
    output
}

fn edit(start: u32, end: u32, new_text: &str) -> EditorEdit {
    EditorEdit { range: Range { start, end }, new_text: new_text.to_string() }
}

fn brackets() -> Vec<Pair> {
    vec![Pair::new('(', ')'), Pair::new('[', ']'), Pair::new('{', '}')]
}

#[test]
fn pair_constructors() {
    let p = Pair::new('(', ')');
    assert_eq!((p.open, p.close), ('(', ')'));
    let q = Pair::same('"');
    assert_eq!((q.open, q.close), ('"', '"'));
}

#[test]
fn cycling_visits_every_pair_and_returns() {
    let pairs = brackets();
    let mut current = Pair::new('(', ')');
    let mut seen = Vec::new();
    for _ in 0..pairs.len() {
        current = cycle_pair(current, &pairs).unwrap();
        seen.push(current.open);
    }
    assert_eq!(seen, vec!['[', '{', '(']);
    assert!(current == Pair::new('(', ')'));
    assert!(cycle_pair(Pair::new('<', '>'), &pairs).is_none());
}

#[test]
fn char_widths_follow_utf8() {
    assert_eq!(char_width_exec('a'), 1);
    assert_eq!(char_width_exec('é'), 2);
    assert_eq!(char_width_exec('€'), 3);
    assert_eq!(char_width_exec('😀'), 4);
}

#[test]
fn table_holds_chars_and_byte_offsets() {
    let table = CharTable::of("aé€b");
    assert_eq!(table.chars, vec!['a', 'é', '€', 'b']);
    assert_eq!(table.offsets, vec![0, 1, 3, 6, 7]);
    assert_eq!(table.index_of(3), Some(2));
    assert_eq!(table.index_of(2), None);
    assert_eq!(text_len("aé€b"), 7);
    assert!(is_char_boundary("aé€b", 7));
    assert!(!is_char_boundary("aé€b", 4));
    assert!(!is_char_boundary("aé€b", 8));
}

#[test]
fn word_characters_include_unicode_letters() {
    assert!(is_word_character('_'));
    assert!(is_word_character('a'));
    assert!(is_word_character('é'));
    assert!(is_word_character('7'));
    assert!(!is_word_character('('));
    assert!(!is_word_character(' '));
    assert!(is_word_character('ß'));
    assert!(!is_word_character('-'));
}

#[test]
fn word_boundaries_around_an_offset() {
    let text = "(fooé bar)";
    assert_eq!(previous_word_boundary(text, 3), 1);
    assert_eq!(next_word_boundary(text, 3), 6);
    assert_eq!(previous_word_boundary(text, 1), 1);
    assert_eq!(next_word_boundary(text, 10), 10);
    assert_eq!(next_word_boundary("abc", 1), 3);
}

#[test]
fn line_bounds_around_an_offset() {
    let text = "ab\ncd\nef";
    assert_eq!(line_start(text, 4), 3);
    assert_eq!(line_end(text, 4), 5);
    assert_eq!(line_start(text, 0), 0);
    assert_eq!(line_end(text, 6), 8);
    assert_eq!(line_start(text, 3), 3);
}

#[test]
fn tolerant_range_widens_by_lines() {
    let text = "a\nb\nc\nd\ne";
    assert_eq!(line_tolerant_range(text, 4, 4, 1), Some(2..7));
    assert_eq!(line_tolerant_range(text, 4, 4, 0), Some(4..5));
    assert_eq!(line_tolerant_range(text, 4, 4, 8), Some(0..9));
}

#[test]
fn bounds_widen_to_words() {
    let text = "foo(bar[baz])";
    assert_eq!(selection_bounds_for_brackets(text, selection(9, 9)), Some((8, 11)));
    assert_eq!(selection_bounds_for_brackets(text, selection(5, 9)), Some((4, 11)));
    assert_eq!(selection_bounds_for_brackets(text, selection(9, 5)), None);
    assert_eq!(selection_bounds_for_brackets(text, selection(99, 99)), None);
    assert_eq!(selection_bounds_for_brackets("é", selection(1, 1)), None);
    assert_eq!(u64_to_usize(7), Some(7));
}

#[test]
fn opening_bracket_skips_closed_pairs() {
    let pairs = brackets();
    let text = "f(a[b]c{d}e";
    assert_eq!(find_opening_bracket(text, 11, &pairs).map(|(o, p)| (o, p.open)), Some((1, '(')));
    assert_eq!(find_opening_bracket(text, 5, &pairs).map(|(o, p)| (o, p.open)), Some((3, '[')));
    assert_eq!(find_opening_bracket("abc", 3, &pairs), None);
    assert_eq!(find_opening_bracket("(]", 2, &pairs).map(|(o, _)| o), Some(0));
}

#[test]
fn closing_bracket_skips_nested_pairs() {
    let paren = Pair::new('(', ')');
    assert_eq!(find_closing_bracket("a(b)c)d", 0, paren), Some(5));
    assert_eq!(find_closing_bracket("a(b)c", 0, paren), None);
    assert_eq!(find_closing_bracket("'x'", 0, Pair::same('\'')), None);
}

#[test]
fn finds_innermost_brackets() {
    let found = find_brackets_around_selection("foo(bar[baz])", selection(9, 9), &brackets()).unwrap();
    assert_eq!((found.open, found.close, found.pair.open), (7, 11, '['));
    assert!(find_brackets_around_selection("no brackets", selection(3, 3), &brackets()).is_none());
}

#[test]
fn quotes_honour_escapes() {
    let text = r#"say "a \" b" now"#;
    let pairs = vec![Pair::same('"')];
    let found = find_quote_in_range(text, selection(6, 6), &pairs, 0..text.len()).unwrap();
    assert_eq!((found.open, found.close), (4, 11));
    assert!(find_quote_in_range(text, selection(14, 14), &pairs, 0..text.len()).is_none());
}

#[test]
fn quotes_prefer_inner_span() {
    let text = "\"a 'b' c\"";
    let pairs = vec![Pair::same('"'), Pair::same('\'')];
    let found = find_quotes_around_selection(text, selection(4, 4), &pairs, 8).unwrap();
    assert_eq!((found.open, found.close, found.pair.open), (3, 5, '\''));
    let outer = find_quotes_around_selection(text, selection(1, 1), &pairs, 8).unwrap();
    assert_eq!((outer.open, outer.close, outer.pair.open), (0, 8, '"'));
}

#[test]
fn quotes_found_beyond_the_line_tolerance() {
    let mut text = String::from("'");
    for _ in 0..12 {
        text.push_str("x\n");
    }
    text.push_str("y'");
    let pairs = vec![Pair::same('\'')];
    let cursor = (text.len() - 2) as u64;
    let found = find_quotes_around_selection(&text, selection(cursor, cursor), &pairs, 8).unwrap();
    assert_eq!((found.open, found.close), (0, text.len() - 1));
}

#[test]
fn edits_for_characters_and_their_errors() {
    let e = edit_for_char(3, 'é', String::from("x")).unwrap();
    assert_eq!((e.range.start, e.range.end, e.new_text.as_str()), (3, 5, "x"));
    assert_eq!(
        edit_for_char(u32::MAX as usize, '(', String::new()).err().unwrap(),
        "Delimiter range end exceeded u32"
    );
    assert_eq!(
        edit_for_char(u32::MAX as usize + 1, '(', String::new()).err().unwrap(),
        "Delimiter range start exceeded u32"
    );
    assert_eq!(
        edit_for_char(usize::MAX, '(', String::new()).err().unwrap(),
        "Delimiter range overflowed"
    );
}

#[test]
fn deltas_and_their_errors() {
    assert_eq!(apply_delta(5, -2), Ok(3));
    assert_eq!(apply_delta(5, 4), Ok(9));
    assert_eq!(apply_delta(0, -1), Err("Mapped selection offset underflowed".to_string()));
    assert_eq!(apply_delta(u64::MAX, 1), Err("Mapped selection offset overflowed".to_string()));
    assert_eq!(apply_delta(u64::MAX, i64::MIN), Ok(u64::MAX - (1u64 << 63)));
}

#[test]
fn edits_are_ordered_stably_by_start() {
    let edits = vec![edit(5, 6, ""), edit(1, 2, ""), edit(5, 5, "x"), edit(0, 1, "")];
    assert_eq!(order_by_start(&edits), vec![3, 1, 0, 2]);
}

#[test]
fn remapping_offsets() {
    let removal = vec![edit(6, 7, ""), edit(0, 1, "")];
    assert_eq!(remap_offset(3, &removal), Ok(2));
    assert_eq!(remap_offset(0, &removal), Ok(0));
    assert_eq!(remap_offset(7, &removal), Ok(5));
    let widening = vec![edit(2, 3, "xyz")];
    assert_eq!(remap_offset(1, &widening), Ok(1));
    assert_eq!(remap_offset(5, &widening), Ok(7));
    let inside = vec![edit(2, 5, "ab")];
    assert_eq!(remap_offset(3, &inside), Ok(4));
    let same_length = vec![edit(0, 1, "["), edit(4, 5, "]")];
    for offset in 0..6 {
        assert_eq!(remap_offset(offset, &same_length), Ok(offset));
    }
    let backwards = vec![edit(4, 2, "")];
    assert_eq!(remap_offset(5, &backwards), Err("Edit range end preceded start".to_string()));
    assert_eq!(remap_offset(1, &backwards), Ok(1));
}

#[test]
fn remapping_selections_keeps_order_and_direction() {
    let edits = vec![edit(0, 1, "")];
    let selections = vec![
        EditorSelection { start: 2, end: 4, reversed: true },
        EditorSelection { start: 1, end: 1, reversed: false },
    ];
    let moved = remap_selections(&selections, &edits).unwrap();
    assert_eq!(moved[0], EditorSelection { start: 1, end: 3, reversed: true });
    assert_eq!(moved[1], EditorSelection { start: 0, end: 0, reversed: false });
    let bad = vec![edit(3, 1, "")];
    assert_eq!(
        remap_selections(&selections, &bad).err().unwrap(),
        "Edit range end preceded start"
    );
}

#[test]
fn cycling_a_foreign_pair_fails() {
    let matches = vec![DelimiterMatch {
        open: 0,
        close: 1,
        pair: Pair::new('<', '>'),
        selection: selection(1, 1),
    }];
    assert_eq!(
        replace_matches(matches, &brackets(), Replacement::Cycle).err().unwrap(),
        "Unable to cycle delimiter pair"
    );
    assert!(replace_matches(Vec::new(), &brackets(), Replacement::Remove).unwrap().is_none());
}

#[test]
fn selecting_content_then_the_pair() {
    let m = DelimiterMatch { open: 0, close: 3, pair: Pair::new('(', ')'), selection: selection(2, 2) };
    let first = select_content(vec![m]).unwrap().unwrap();
    assert!(first.edits.is_empty());
    assert_eq!(first.selections.unwrap()[0], selection(1, 3));
    let again = DelimiterMatch { selection: selection(1, 3), ..m };
    let second = select_content(vec![again]).unwrap().unwrap();
    assert_eq!(second.selections.unwrap()[0], selection(0, 4));
    assert!(select_content(Vec::new()).unwrap().is_none());
}

#[test]
fn languages_are_normalized() {
    let c = context("", vec![], Some("Type Script-React"));
    assert_eq!(normalized_language(&c), Some("typescriptreact".to_string()));
    assert_eq!(normalized_language(&context("", vec![], None)), None);
    assert_eq!(normalized_language(&context("", vec![], Some("JSON"))), Some("json".to_string()));
    assert_eq!(strip_separators("a b-c"), "abc");
    assert_eq!(strip_separators("Type Script"), "TypeScript");
}

#[test]
fn pairs_depend_on_the_language() {
    let json = bracket_pairs(&context("", vec![], Some("JSON")));
    assert_eq!(json.iter().map(|p| p.open).collect::<String>(), "[{");
    let css = bracket_pairs(&context("", vec![], Some("CSS")));
    assert_eq!(css.iter().map(|p| p.open).collect::<String>(), "({");
    let tsx = bracket_pairs(&context("", vec![], Some("TSX")));
    assert_eq!(tsx.iter().map(|p| p.open).collect::<String>(), "([{<");
    let rust = bracket_pairs(&context("", vec![], Some("Rust")));
    assert_eq!(rust.iter().map(|p| p.open).collect::<String>(), "([{");
    let js = quote_pairs(&context("", vec![], Some("JavaScript")));
    assert_eq!(js.iter().map(|p| p.open).collect::<String>(), "'\"`");
    let json_quotes = quote_pairs(&context("", vec![], Some("JSON")));
    assert_eq!(json_quotes.iter().map(|p| p.open).collect::<String>(), "\"");
    let other = quote_pairs(&context("", vec![], None));
    assert_eq!(other.iter().map(|p| p.open).collect::<String>(), "\"'");
}

#[test]
fn pairs_by_normalized_name() {
    let json = bracket_pairs_for_language(&Some("json".to_string()));
    assert_eq!(json.iter().map(|p| p.close).collect::<String>(), "]}");
    let html = bracket_pairs_for_language(&Some("html".to_string()));
    assert_eq!(html.iter().map(|p| p.close).collect::<String>(), ")}");
    let upper = bracket_pairs_for_language(&Some("JSON".to_string()));
    assert_eq!(upper.iter().map(|p| p.close).collect::<String>(), ")]}");
    let ts = quote_pairs_for_language(&Some("typescriptreact".to_string()));
    assert_eq!(ts.iter().map(|p| p.close).collect::<String>(), "'\"`");
    let none = quote_pairs_for_language(&None);
    assert_eq!(none.iter().map(|p| p.close).collect::<String>(), "\"'");
}

#[test]
fn replacing_with_multibyte_delimiters() {
    let c = context("«a»", vec![selection(2, 2)], None);
    let pairs = vec![Pair::new('«', '»'), Pair::new('(', ')')];
    let found = parse_brackets(&c, &pairs);
    assert_eq!((found[0].open, found[0].close), (0, 3));
    let result = replace_matches(found, &pairs, Replacement::Cycle).unwrap().unwrap();
    assert_eq!(apply(&c.text, &result), "(a)");
    assert_eq!(result.selections.unwrap()[0], selection(1, 1));
}

#[test]
fn parses_every_selection() {
    let c = context("(a) [b] c", vec![selection(1, 1), selection(8, 8), selection(5, 5)], Some("Rust"));
    let found = parse_brackets(&c, &bracket_pairs(&c));
    assert_eq!(found.len(), 2);
    assert_eq!((found[0].open, found[1].open), (0, 4));
    let q = context("'a' \"b\"", vec![selection(1, 1), selection(5, 5)], None);
    let quotes = parse_quotes(&q, &quote_pairs(&q));
    assert_eq!(quotes.len(), 2);
    assert_eq!((quotes[0].pair.open, quotes[1].pair.open), ('\'', '"'));
}

#[test]
fn commands_change_remove_and_select() {
    let c = context("x = (a, 'b')", vec![selection(5, 5)], Some("JavaScript"));
    let curly = run_editor_command("bracketeer.changeBracketsTo.curly", &c).unwrap().unwrap();
    assert_eq!(apply(&c.text, &curly), "x = {a, 'b'}");
    let square = run_editor_command("bracketeer.changeBracketsTo.square", &c).unwrap().unwrap();
    assert_eq!(apply(&c.text, &square), "x = [a, 'b']");
    let angle = run_editor_command("bracketeer.changeBracketsTo.angle", &c).unwrap().unwrap();
    assert_eq!(apply(&c.text, &angle), "x = <a, 'b'>");
    let parens = run_editor_command("bracketeer.changeBracketsTo.parentheses", &c).unwrap().unwrap();
    assert_eq!(apply(&c.text, &parens), "x = (a, 'b')");
    let swapped = run_editor_command("bracketeer.swapBrackets", &c).unwrap().unwrap();
    assert_eq!(apply(&c.text, &swapped), "x = [a, 'b']");
    let removed = run_editor_command("bracketeer.removeBrackets", &c).unwrap().unwrap();
    assert_eq!(apply(&c.text, &removed), "x = a, 'b'");
    assert_eq!(removed.selections.unwrap()[0], selection(4, 4));
    let selected = run_editor_command("bracketeer.selectBracketContent", &c).unwrap().unwrap();
    assert_eq!(selected.selections.unwrap()[0], selection(5, 11));

    let q = context("x = 'b'", vec![selection(5, 5)], Some("JavaScript"));
    let backtick = run_editor_command("bracketeer.changeQuotesTo.backtick", &q).unwrap().unwrap();
    assert_eq!(apply(&q.text, &backtick), "x = `b`");
    let double = run_editor_command("bracketeer.changeQuotesTo.double", &q).unwrap().unwrap();
    assert_eq!(apply(&q.text, &double), "x = \"b\"");
    let single = run_editor_command("bracketeer.changeQuotesTo.single", &q).unwrap().unwrap();
    assert_eq!(apply(&q.text, &single), "x = 'b'");
    let swapped = run_editor_command("bracketeer.swapQuotes", &q).unwrap().unwrap();
    assert_eq!(apply(&q.text, &swapped), "x = \"b\"");
    let removed = run_editor_command("bracketeer.removeQuotes", &q).unwrap().unwrap();
    assert_eq!(apply(&q.text, &removed), "x = b");
    let content = run_editor_command("bracketeer.selectQuotesContent", &q).unwrap().unwrap();
    assert_eq!(content.selections.unwrap()[0], selection(5, 6));
}

#[test]
fn unknown_commands_and_misses_do_nothing() {
    let c = context("plain", vec![selection(2, 2)], None);
    assert!(run_editor_command("bracketeer.unknown", &c).unwrap().is_none());
    assert!(run_editor_command("bracketeer.swapBrackets", &c).unwrap().is_none());
    assert!(select_quote_content(&c).unwrap().is_none());
}

#[test]
fn swapping_preserves_a_cursor_between_swapped_pairs() {
    let c = context("a(b)c", vec![selection(2, 2), selection(4, 4)], None);
    let result = run_editor_command("bracketeer.swapBrackets", &c).unwrap().unwrap();
    let sels = result.selections.clone().unwrap();
    assert_eq!(apply(&c.text, &result), "a[b]c");
    assert_eq!(sels[0], selection(2, 2));
    assert_eq!(result.edits.len(), 2);
}

#[test]
fn quotes_must_enclose_the_whole_selection() {
    let pairs = vec![Pair::same('\'')];
    assert!(find_quotes_around_selection("'ab' cd", selection(1, 7), &pairs, 8).is_none());
    let found = find_quotes_around_selection("'ab' cd", selection(1, 3), &pairs, 8).unwrap();
    assert_eq!((found.open, found.close), (0, 3));
    let c = context("'ab' cd", vec![selection(1, 7)], None);
    assert!(run_editor_command("bracketeer.swapQuotes", &c).unwrap().is_none());
}

#[test]
fn two_cursors_in_one_pair_edit_it_once() {
    let c = context("(alpha)", vec![selection(2, 2), selection(3, 3)], Some("JavaScript"));
    let result = run_editor_command("bracketeer.removeBrackets", &c).unwrap().unwrap();
    assert_eq!(result.edits.len(), 2);
    assert_eq!(apply(&c.text, &result), "alpha");
    let sels = result.selections.unwrap();
    assert_eq!((sels[0].start, sels[0].end), (1, 1));
    assert_eq!((sels[1].start, sels[1].end), (2, 2));

    let swapped = run_editor_command("bracketeer.swapBrackets", &c).unwrap().unwrap();
    assert_eq!(swapped.edits.len(), 2);
    assert_eq!(apply(&c.text, &swapped), "[alpha]");

    let q = context("x = 'ab'", vec![selection(5, 5), selection(6, 6)], Some("JavaScript"));
    let removed = run_editor_command("bracketeer.removeQuotes", &q).unwrap().unwrap();
    assert_eq!(apply(&q.text, &removed), "x = ab");
    let sels = removed.selections.unwrap();
    assert_eq!((sels[0].start, sels[1].start), (4, 5));
}
