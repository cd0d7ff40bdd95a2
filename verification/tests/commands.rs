use bracketeer::commands::{replace_brackets, replace_quotes, select_bracket_content, Replacement};
use bracketeer::editor::{EditorCommandContext, EditorCommandResult, EditorSelection};

fn context(text: &str, selection: std::ops::Range<usize>, language: &str) -> EditorCommandContext {
    EditorCommandContext {
        text: text.to_string(),
        selections: vec![EditorSelection {
            start: selection.start as u64,
            end: selection.end as u64,
            reversed: false,
        }],
        language: Some(language.to_string()),
        path: None,
    }
}

fn apply(text: &str, result: EditorCommandResult) -> String {
    let mut output = text.to_string();
    let mut edits = result.edits;
    edits.sort_by_key(|edit| edit.range.start);
    for edit in edits.into_iter().rev() {
        output.replace_range(
            edit.range.start as usize..edit.range.end as usize,
            &edit.new_text,
        );
    }
    output
}

#[test]
fn swaps_nested_brackets() {
    let context = context("foo(bar[baz])", 8..8, "JavaScript");
    let result = replace_brackets(&context, Replacement::Cycle)
        .unwrap()
        .unwrap();
    assert_eq!(apply(&context.text, result), "foo(bar{baz})");
}

#[test]
fn preserves_cursor_between_empty_brackets_when_swapping() {
    let context = context("()", 1..1, "JavaScript");
    let result = replace_brackets(&context, Replacement::Cycle)
        .unwrap()
        .unwrap();
    let selections = result.selections.clone().unwrap();

    assert_eq!(apply(&context.text, result), "[]");
    assert_eq!(selections[0].start, 1);
    assert_eq!(selections[0].end, 1);
}

#[test]
fn removes_surrounding_brackets() {
    let context = context("foo(bar[baz])", 4..12, "JavaScript");
    let result = replace_brackets(&context, Replacement::Remove)
        .unwrap()
        .unwrap();
    assert_eq!(apply(&context.text, result), "foobar[baz]");
}

#[test]
fn remaps_cursor_when_removing_brackets() {
    let context = context("(alpha)", 3..3, "JavaScript");
    let result = replace_brackets(&context, Replacement::Remove)
        .unwrap()
        .unwrap();
    let selections = result.selections.clone().unwrap();

    assert_eq!(apply(&context.text, result), "alpha");
    assert_eq!(selections[0].start, 2);
    assert_eq!(selections[0].end, 2);
}

#[test]
fn selects_then_expands_bracket_content() {
    let first_context = context("(alpha)", 2..2, "JavaScript");
    let result = select_bracket_content(&first_context).unwrap().unwrap();
    let selections = result.selections.unwrap();
    assert_eq!(selections[0].start, 1);
    assert_eq!(selections[0].end, 6);

    let second_context = context("(alpha)", 1..6, "JavaScript");
    let result = select_bracket_content(&second_context).unwrap().unwrap();
    let selections = result.selections.unwrap();
    assert_eq!(selections[0].start, 0);
    assert_eq!(selections[0].end, 7);
}

#[test]
fn swaps_quotes() {
    let context = context("const x = 'value';", 12..12, "JavaScript");
    let result = replace_quotes(&context, Replacement::Cycle)
        .unwrap()
        .unwrap();
    assert_eq!(apply(&context.text, result), "const x = \"value\";");
}
