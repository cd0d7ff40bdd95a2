# bracketeer

Finds the nearest bracket or quote pair around each selection of an editor
buffer and swaps it for the next pair of the language, removes it, changes it
to a given pair, or selects its content (and, selected again, the pair with
its content). The library in `src/` is verified with Verus; `app/` is the Zed
extension around it.

- `src/text.rs`: a text as characters with byte offsets; word and line bounds.
- `src/brackets.rs`, `src/quotes.rs`: finding the pair around a selection.
- `src/edits.rs`: edits over single delimiters; moving offsets across edits.
- `src/pairs.rs`: delimiter pairs, cycling, the pairs of each language.
- `src/commands.rs`: the commands and their dispatch by name.
- `src/laws.rs`: properties of the commands as a whole.
- `src/unicode.rs`: trusted wrappers around std's Unicode routines.
