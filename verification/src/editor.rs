//! The values that the editor and the library exchange: selections, edits,
//! the context of a command and its result.
use vstd::prelude::*;

verus! {

/// A selection in the editor's buffer, by byte offsets.
#[derive(Clone, Copy, Debug, PartialEq, Eq, Structural)]
pub struct EditorSelection {
    pub start: u64,
    pub end: u64,
    pub reversed: bool,
}

/// A range of the buffer, by byte offsets.
#[derive(Clone, Copy, Debug, PartialEq, Eq, Structural)]
pub struct Range {
    pub start: u32,
    pub end: u32,
}

/// Replaces the bytes of `range` by `new_text`.
#[derive(Debug)]
pub struct EditorEdit {
    pub range: Range,
    pub new_text: String,
}

/// An edit as plain values.
pub struct EditView {
    pub start: u32,
    pub end: u32,
    pub new_text: Seq<char>,
}

impl View for EditorEdit {
    type V = EditView;

    open spec fn view(&self) -> EditView {
        EditView { start: self.range.start, end: self.range.end, new_text: self.new_text@ }
    }
}

/// The edits of a sequence as plain values.
pub open spec fn edits_view(edits: Seq<EditorEdit>) -> Seq<EditView> {
    edits.map_values(|e: EditorEdit| e@)
}

/// What a command reads: the buffer's text, its selections and its language.
#[derive(Debug)]
pub struct EditorCommandContext {
    pub text: String,
    pub selections: Vec<EditorSelection>,
    pub language: Option<String>,
    pub path: Option<String>,
}

/// The language of a context as plain characters.
pub open spec fn language_view(language: Option<String>) -> Option<Seq<char>> {
    match language {
        Some(l) => Some(l@),
        None => None,
    }
}

/// What a command hands back: the edits to make and the selections to set.
#[derive(Debug)]
pub struct EditorCommandResult {
    pub edits: Vec<EditorEdit>,
    pub selections: Option<Vec<EditorSelection>>,
}

/// A command's result as plain values.
pub struct ResultView {
    pub edits: Seq<EditView>,
    pub selections: Option<Seq<EditorSelection>>,
}

impl View for EditorCommandResult {
    type V = ResultView;

    open spec fn view(&self) -> ResultView {
        ResultView {
            edits: edits_view(self.edits@),
            selections: match self.selections {
                Some(s) => Some(s@),
                None => None,
            },
        }
    }
}

/// The result of an optional value as plain values.
pub open spec fn result_view(r: Option<EditorCommandResult>) -> Option<ResultView> {
    match r {
        Some(v) => Some(v@),
        None => None,
    }
}

/// What a command hands back as plain values: the result, or the message of
/// its error.
pub open spec fn outcome_view(r: Result<Option<EditorCommandResult>, String>) -> Result<
    Option<ResultView>,
    Seq<char>,
> {
    match r {
        Ok(v) => Ok(result_view(v)),
        Err(message) => Err(message@),
    }
}

} // verus!
