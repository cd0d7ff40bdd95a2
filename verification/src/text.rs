//! A model of a `str` as its characters together with the byte offset at
//! which each character starts, and the scans over it that look for word and
//! line boundaries.
use vstd::prelude::*;
use vstd::utf8::encode_utf8;
use vstd::utf8::encode_scalar;
use crate::unicode::{unicode_alphanumeric, char_is_alphanumeric};

verus! {

broadcast use vstd::utf8::char_is_scalar;

/// The number of bytes in the UTF-8 encoding of `c` (what `char::len_utf8` returns).
pub open spec fn char_width(c: char) -> nat {
    if (c as u32) <= 0x7F {
        1
    } else if (c as u32) <= 0x7FF {
        2
    } else if (c as u32) <= 0xFFFF {
        3
    } else {
        4
    }
}

/// The number of bytes in the UTF-8 encoding of `s`.
pub open spec fn byte_len(s: Seq<char>) -> nat
    decreases s.len(),
{
    if s.len() == 0 {
        0
    } else {
        byte_len(s.drop_last()) + char_width(s.last())
    }
}

/// The byte offset at which the character with index `k` of `s` starts
/// (the length of `s` in bytes when `k == s.len()`).
pub open spec fn byte_offset(s: Seq<char>, k: int) -> nat {
    byte_len(s.take(k))
}

/// `b` is a character boundary of `s`: a byte offset at which a character
/// starts, or the end of `s`.
pub open spec fn is_boundary(s: Seq<char>, b: int) -> bool {
    exists|k: int| 0 <= k <= s.len() && #[trigger] byte_offset(s, k) == b
}

/// The index of the character that starts at the boundary `b`.
pub open spec fn char_index(s: Seq<char>, b: int) -> int {
    choose|k: int| 0 <= k <= s.len() && #[trigger] byte_offset(s, k) == b
}

/// The byte offset of the character after the one with index `k`.
pub proof fn lemma_byte_offset_step(s: Seq<char>, k: int)
    requires
        0 <= k < s.len(),
    ensures
        byte_offset(s, k + 1) == byte_offset(s, k) + char_width(s[k]),
{
    assert(s.take(k + 1).drop_last() =~= s.take(k));
}

/// Byte offsets grow strictly with the character index.
pub proof fn lemma_byte_offset_strict(s: Seq<char>, i: int, j: int)
    requires
        0 <= i < j <= s.len(),
    ensures
        byte_offset(s, i) < byte_offset(s, j),
    decreases j - i,
{
    lemma_byte_offset_step(s, j - 1);
    if i < j - 1 {
        lemma_byte_offset_strict(s, i, j - 1);
    }
}

/// Byte offsets never exceed the length in bytes.
pub proof fn lemma_byte_offset_bound(s: Seq<char>, i: int)
    requires
        0 <= i <= s.len(),
    ensures
        byte_offset(s, i) <= byte_len(s),
{
    assert(s.take(s.len() as int) =~= s);
    if i < s.len() {
        lemma_byte_offset_strict(s, i, s.len() as int);
    }
}

/// A boundary belongs to exactly one character index.
pub proof fn lemma_char_index(s: Seq<char>, k: int)
    requires
        0 <= k <= s.len(),
    ensures
        is_boundary(s, byte_offset(s, k) as int),
        char_index(s, byte_offset(s, k) as int) == k,
{
    let b = byte_offset(s, k) as int;
    assert(0 <= k <= s.len() && byte_offset(s, k) == b);
    let c = char_index(s, b);
    if c < k {
        lemma_byte_offset_strict(s, c, k);
    } else if k < c {
        lemma_byte_offset_strict(s, k, c);
    }
}

/// The index of a boundary lies within `s` and starts at that boundary.
pub proof fn lemma_boundary(s: Seq<char>, b: int)
    requires
        is_boundary(s, b),
    ensures
        0 <= char_index(s, b) <= s.len(),
        byte_offset(s, char_index(s, b)) == b,
{
}

proof fn lemma_encode_scalar_len(c: char)
    ensures
        encode_scalar(c as u32).len() == char_width(c),
{
}

proof fn lemma_byte_len_first(s: Seq<char>)
    requires
        s.len() > 0,
    ensures
        byte_len(s) == char_width(s[0]) + byte_len(s.drop_first()),
    decreases s.len(),
{
    if s.len() > 1 {
        lemma_byte_len_first(s.drop_last());
        assert(s.drop_last().drop_first() =~= s.drop_first().drop_last());
        assert(s.drop_first().last() == s.last());
        assert(s.drop_last()[0] == s[0]);
        assert(byte_len(s.drop_first()) == byte_len(s.drop_first().drop_last()) + char_width(
            s.last(),
        ));
    } else {
        assert(byte_len(s.drop_last()) == 0);
        assert(byte_len(s.drop_first()) == 0);
        assert(s.last() == s[0]);
    }
}

/// The model agrees with the UTF-8 encoding that `str` holds.
pub proof fn lemma_byte_len_encode(s: Seq<char>)
    ensures
        byte_len(s) == encode_utf8(s).len(),
    decreases s.len(),
{
    if s.len() > 0 {
        lemma_byte_len_first(s);
        lemma_byte_len_encode(s.drop_first());
        lemma_encode_scalar_len(s[0]);
    }
}

/// The characters of a text and the byte offset at which each starts.
pub struct CharTable {
    pub chars: Vec<char>,
    pub offsets: Vec<usize>,
}

impl CharTable {
    /// The table describes the text whose characters are `s`: `offsets`
    /// holds one entry per character and one for the end.
    pub open spec fn describes(&self, s: Seq<char>) -> bool {
        &&& self.chars@ == s
        &&& self.offsets@.len() == s.len() + 1
        &&& forall|k: int| 0 <= k <= s.len() ==> #[trigger] self.offsets@[k] == byte_offset(s, k)
    }

    /// Builds the table of `text`.
    pub fn of(text: &str) -> (table: CharTable)
        ensures
            table.describes(text@),
    {
        let total = text.as_bytes().len();
        proof {
            lemma_byte_len_encode(text@);
        }
        let mut chars: Vec<char> = Vec::new();
        let mut offsets: Vec<usize> = Vec::new();
        offsets.push(0);
        let mut offset: usize = 0;
        let mut it = text.chars();
        assert(text@.skip(0) =~= text@);
        loop
            invariant
                total == byte_len(text@),
                chars@.len() <= text@.len(),
                chars@ == text@.take(chars@.len() as int),
                vstd::std_specs::iter::IteratorSpec::remaining(&it) == text@.skip(chars@.len() as int),
                offsets@.len() == chars@.len() + 1,
                offset == byte_offset(text@, chars@.len() as int),
                forall|k: int|
                    0 <= k <= chars@.len() ==> #[trigger] offsets@[k] == byte_offset(text@, k),
            ensures
                chars@ == text@,
                offsets@.len() == chars@.len() + 1,
                forall|k: int|
                    0 <= k <= chars@.len() ==> #[trigger] offsets@[k] == byte_offset(text@, k),
            decreases text@.len() - chars@.len(),
        {
            let ghost n = chars@.len() as int;
            match it.next() {
                Some(c) => {
                    assert(n < text@.len());
                    assert(c == text@[n]);
                    proof {
                        lemma_byte_offset_step(text@, n);
                        lemma_byte_offset_bound(text@, n + 1);
                    }
                    offset = offset + char_width_exec(c);
                    chars.push(c);
                    offsets.push(offset);
                    assert(chars@ =~= text@.take(n + 1));
                    assert(text@.skip(n).drop_first() =~= text@.skip(n + 1));
                },
                None => {
                    assert(text@.skip(n).len() == 0);
                    assert(chars@ =~= text@);
                    break ;
                },
            }
        }
        CharTable { chars, offsets }
    }
}

impl CharTable {
    /// The table describes its own characters.
    pub open spec fn wf(&self) -> bool {
        self.describes(self.chars@)
    }

    /// The index of the character that starts at byte offset `b`, or `None`
    /// when `b` is not a character boundary.
    pub fn index_of(&self, b: usize) -> (r: Option<usize>)
        requires
            self.wf(),
        ensures
            r is Some <==> is_boundary(self.chars@, b as int),
            r matches Some(k) ==> k <= self.chars@.len() && byte_offset(self.chars@, k as int) == b
                && char_index(self.chars@, b as int) == k,
    {
        let ghost s = self.chars@;
        let n = self.offsets.len();
        let mut k: usize = 0;
        while k < n
            invariant
                self.wf(),
                s == self.chars@,
                n == s.len() + 1,
                0 <= k <= n,
                forall|j: int| 0 <= j < k ==> byte_offset(s, j) != b,
            decreases n - k,
        {
            if self.offsets[k] == b {
                proof {
                    lemma_char_index(s, k as int);
                }
                return Some(k);
            }
            k = k + 1;
        }
        proof {
            if is_boundary(s, b as int) {
                let j = choose|j: int| 0 <= j <= s.len() && #[trigger] byte_offset(s, j) == b;
                assert(byte_offset(s, j) != b);
            }
        }
        None
    }
}

/// Word characters: the underscore and Unicode letters and digits.
pub open spec fn is_word_char(c: char) -> bool {
    c == '_' || unicode_alphanumeric(c)
}

/// The index at which the run of word characters that ends at index `m`
/// begins (`m` itself when the character before `m` is no word character).
pub open spec fn word_start(s: Seq<char>, m: int) -> int
    decreases m,
{
    if 0 < m <= s.len() && is_word_char(s[m - 1]) {
        word_start(s, m - 1)
    } else {
        m
    }
}

/// The index at which the run of word characters that starts at index `m`
/// ends: the first index from `m` on that holds no word character, or the
/// end of `s`.
pub open spec fn word_end(s: Seq<char>, m: int) -> int
    decreases s.len() - m,
{
    if 0 <= m < s.len() && is_word_char(s[m]) {
        word_end(s, m + 1)
    } else {
        m
    }
}

/// The index at which the line holding index `m` starts: just after the
/// last newline before `m`, or 0.
pub open spec fn line_start_index(s: Seq<char>, m: int) -> int
    decreases m,
{
    if 0 < m <= s.len() && s[m - 1] != '\n' {
        line_start_index(s, m - 1)
    } else {
        m
    }
}

/// The index at which the line holding index `m` ends: the first newline
/// from `m` on, or the end of `s`.
pub open spec fn line_end_index(s: Seq<char>, m: int) -> int
    decreases s.len() - m,
{
    if 0 <= m < s.len() && s[m] != '\n' {
        line_end_index(s, m + 1)
    } else {
        m
    }
}

pub proof fn lemma_word_start(s: Seq<char>, m: int)
    requires
        0 <= m <= s.len(),
    ensures
        0 <= word_start(s, m) <= m,
        forall|j: int| word_start(s, m) <= j < m ==> is_word_char(#[trigger] s[j]),
        word_start(s, m) == 0 || !is_word_char(s[word_start(s, m) - 1]),
    decreases m,
{
    if 0 < m && is_word_char(s[m - 1]) {
        lemma_word_start(s, m - 1);
    }
}

pub proof fn lemma_word_end(s: Seq<char>, m: int)
    requires
        0 <= m <= s.len(),
    ensures
        m <= word_end(s, m) <= s.len(),
        forall|j: int| m <= j < word_end(s, m) ==> is_word_char(#[trigger] s[j]),
        word_end(s, m) == s.len() || !is_word_char(s[word_end(s, m)]),
    decreases s.len() - m,
{
    if m < s.len() && is_word_char(s[m]) {
        lemma_word_end(s, m + 1);
    }
}

pub proof fn lemma_line_start(s: Seq<char>, m: int)
    requires
        0 <= m <= s.len(),
    ensures
        0 <= line_start_index(s, m) <= m,
        forall|j: int| line_start_index(s, m) <= j < m ==> #[trigger] s[j] != '\n',
        line_start_index(s, m) == 0 || s[line_start_index(s, m) - 1] == '\n',
    decreases m,
{
    if 0 < m && s[m - 1] != '\n' {
        lemma_line_start(s, m - 1);
    }
}

pub proof fn lemma_line_end(s: Seq<char>, m: int)
    requires
        0 <= m <= s.len(),
    ensures
        m <= line_end_index(s, m) <= s.len(),
        forall|j: int| m <= j < line_end_index(s, m) ==> #[trigger] s[j] != '\n',
        line_end_index(s, m) == s.len() || s[line_end_index(s, m)] == '\n',
    decreases s.len() - m,
{
    if m < s.len() && s[m] != '\n' {
        lemma_line_end(s, m + 1);
    }
}

/// Whether `character` belongs to a word: `_` or a Unicode letter or digit.
pub fn is_word_character(character: char) -> (r: bool)
    ensures
        r == is_word_char(character),
{
    character == '_' || char_is_alphanumeric(character)
}

/// The byte offset at which the run of word characters that ends at
/// `offset` begins.
pub fn previous_word_boundary(text: &str, offset: usize) -> (boundary: usize)
    requires
        is_boundary(text@, offset as int),
    ensures
        boundary == byte_offset(text@, word_start(text@, char_index(text@, offset as int))),
        boundary <= offset,
{
    let table = CharTable::of(text);
    let m = table.index_of(offset).unwrap();
    let mut k = m;
    while k > 0 && is_word_character(table.chars[k - 1])
        invariant
            table.describes(text@),
            m <= text@.len(),
            0 <= k <= m,
            word_start(text@, k as int) == word_start(text@, m as int),
        decreases k,
    {
        k = k - 1;
    }
    proof {
        if k < m {
            lemma_byte_offset_strict(text@, k as int, m as int);
        }
    }
    table.offsets[k]
}

/// The byte offset at which the run of word characters that starts at
/// `offset` ends: the offset of the first character from `offset` on that is
/// no word character, or the length of `text`.
pub fn next_word_boundary(text: &str, offset: usize) -> (boundary: usize)
    requires
        is_boundary(text@, offset as int),
    ensures
        boundary == byte_offset(text@, word_end(text@, char_index(text@, offset as int))),
        offset <= boundary,
{
    let table = CharTable::of(text);
    let m = table.index_of(offset).unwrap();
    let n = table.chars.len();
    let mut k = m;
    while k < n && is_word_character(table.chars[k])
        invariant
            table.describes(text@),
            n == text@.len(),
            m <= k <= n,
            word_end(text@, k as int) == word_end(text@, m as int),
        decreases n - k,
    {
        k = k + 1;
    }
    proof {
        if m < k {
            lemma_byte_offset_strict(text@, m as int, k as int);
        }
    }
    table.offsets[k]
}

/// The byte offset at which the line holding `offset` starts.
pub fn line_start(text: &str, offset: usize) -> (start: usize)
    requires
        is_boundary(text@, offset as int),
    ensures
        start == byte_offset(text@, line_start_index(text@, char_index(text@, offset as int))),
        start <= offset,
{
    let table = CharTable::of(text);
    let m = table.index_of(offset).unwrap();
    let mut k = m;
    while k > 0 && table.chars[k - 1] != '\n'
        invariant
            table.describes(text@),
            m <= text@.len(),
            0 <= k <= m,
            line_start_index(text@, k as int) == line_start_index(text@, m as int),
        decreases k,
    {
        k = k - 1;
    }
    proof {
        if k < m {
            lemma_byte_offset_strict(text@, k as int, m as int);
        }
    }
    table.offsets[k]
}

/// The byte offset at which the line holding `offset` ends: the offset of
/// the first newline from `offset` on, or the length of `text`.
pub fn line_end(text: &str, offset: usize) -> (end: usize)
    requires
        is_boundary(text@, offset as int),
    ensures
        end == byte_offset(text@, line_end_index(text@, char_index(text@, offset as int))),
        offset <= end,
{
    let table = CharTable::of(text);
    let m = table.index_of(offset).unwrap();
    let n = table.chars.len();
    let mut k = m;
    while k < n && table.chars[k] != '\n'
        invariant
            table.describes(text@),
            n == text@.len(),
            m <= k <= n,
            line_end_index(text@, k as int) == line_end_index(text@, m as int),
        decreases n - k,
    {
        k = k + 1;
    }
    proof {
        if m < k {
            lemma_byte_offset_strict(text@, m as int, k as int);
        }
    }
    table.offsets[k]
}

/// The length of `text` in bytes.
pub fn text_len(text: &str) -> (n: usize)
    ensures
        n == byte_len(text@),
{
    proof {
        lemma_byte_len_encode(text@);
    }
    text.as_bytes().len()
}

/// Whether `offset` is a character boundary of `text`.
pub fn is_char_boundary(text: &str, offset: usize) -> (r: bool)
    ensures
        r == is_boundary(text@, offset as int),
{
    CharTable::of(text).index_of(offset).is_some()
}

/// The number of bytes in the UTF-8 encoding of `c`.
pub fn char_width_exec(c: char) -> (w: usize)
    ensures
        w == char_width(c),
{
    let v = c as u32;
    if v <= 0x7F {
        1
    } else if v <= 0x7FF {
        2
    } else if v <= 0xFFFF {
        3
    } else {
        4
    }
}

} // verus!
