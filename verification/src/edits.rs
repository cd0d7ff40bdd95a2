//! Edits that replace single delimiters, and how selections move when edits
//! are made.
use vstd::prelude::*;
use crate::editor::{EditorEdit, EditorSelection, EditView, Range, edits_view};
use crate::text::{byte_len, char_width, char_width_exec, text_len};

verus! {

/// The edit that replaces the delimiter `replaced` at byte `offset` by
/// `new_text`, or the message of the error when its range does not fit.
pub open spec fn char_edit(offset: usize, replaced: char, new_text: Seq<char>) -> Result<
    EditView,
    Seq<char>,
> {
    let end = offset + char_width(replaced);
    if end > usize::MAX {
        Err("Delimiter range overflowed"@)
    } else if offset > u32::MAX {
        Err("Delimiter range start exceeded u32"@)
    } else if end > u32::MAX {
        Err("Delimiter range end exceeded u32"@)
    } else {
        Ok(EditView { start: offset as u32, end: end as u32, new_text })
    }
}

/// An edit that replaces the character `replaced` at byte `offset` by
/// `new_text`.
pub fn edit_for_char(offset: usize, replaced: char, new_text: String) -> (r: Result<
    EditorEdit,
    String,
>)
    ensures
        match r {
            Ok(edit) => char_edit(offset, replaced, new_text@) == Ok::<EditView, Seq<char>>(edit@),
            Err(message) => char_edit(offset, replaced, new_text@) == Err::<EditView, Seq<char>>(
                message@,
            ),
        },
{
    let width = char_width_exec(replaced);
    if offset > usize::MAX - width {
        return Err("Delimiter range overflowed".to_string());
    }
    let end = offset + width;
    if offset > u32::MAX as usize {
        return Err("Delimiter range start exceeded u32".to_string());
    }
    if end > u32::MAX as usize {
        return Err("Delimiter range end exceeded u32".to_string());
    }
    Ok(EditorEdit { range: Range { start: offset as u32, end: end as u32 }, new_text })
}

/// `offset` moved by `delta`, or the message of the error when the result
/// leaves the range of `u64`.
pub open spec fn shifted(offset: u64, delta: int) -> Result<u64, Seq<char>> {
    if delta >= 0 {
        if offset + delta <= u64::MAX {
            Ok((offset + delta) as u64)
        } else {
            Err("Mapped selection offset overflowed"@)
        }
    } else {
        if offset + delta >= 0 {
            Ok((offset + delta) as u64)
        } else {
            Err("Mapped selection offset underflowed"@)
        }
    }
}

/// Moves `offset` by `delta`.
pub fn apply_delta(offset: u64, delta: i64) -> (r: Result<u64, String>)
    ensures
        match r {
            Ok(v) => shifted(offset, delta as int) == Ok::<u64, Seq<char>>(v),
            Err(message) => shifted(offset, delta as int) == Err::<u64, Seq<char>>(message@),
        },
{
    if delta >= 0 {
        let magnitude = delta as u64;
        if offset <= u64::MAX - magnitude {
            Ok(offset + magnitude)
        } else {
            Err("Mapped selection offset overflowed".to_string())
        }
    } else {
        let magnitude = (-(delta + 1)) as u64 + 1;
        if offset >= magnitude {
            Ok(offset - magnitude)
        } else {
            Err("Mapped selection offset underflowed".to_string())
        }
    }
}

/// Where a key goes among the indices `order`, which are sorted by their
/// keys: after every index whose key is at most `key`.
pub open spec fn insert_position(order: Seq<usize>, keys: Seq<u32>, key: u32) -> int
    decreases order.len(),
{
    if order.len() == 0 {
        0
    } else if keys[order[0] as int] > key {
        0
    } else {
        1 + insert_position(order.drop_first(), keys, key)
    }
}

/// The indices `0..n` ordered by their keys; indices with equal keys keep
/// their order (a stable sort).
pub open spec fn stable_order_prefix(keys: Seq<u32>, n: int) -> Seq<usize>
    decreases n,
{
    if n <= 0 {
        seq![]
    } else {
        let prev = stable_order_prefix(keys, n - 1);
        prev.insert(insert_position(prev, keys, keys[n - 1]), (n - 1) as usize)
    }
}

/// The indices of `keys` ordered by their keys, stably.
pub open spec fn stable_order(keys: Seq<u32>) -> Seq<usize> {
    stable_order_prefix(keys, keys.len() as int)
}

/// The start offsets of the edits.
pub open spec fn edit_starts(edits: Seq<EditView>) -> Seq<u32> {
    edits.map_values(|e: EditView| e.start)
}

pub proof fn lemma_insert_position(order: Seq<usize>, keys: Seq<u32>, key: u32)
    ensures
        0 <= insert_position(order, keys, key) <= order.len(),
    decreases order.len(),
{
    if order.len() > 0 && keys[order[0] as int] <= key {
        lemma_insert_position(order.drop_first(), keys, key);
    }
}

pub proof fn lemma_stable_order_prefix(keys: Seq<u32>, n: int)
    requires
        0 <= n <= keys.len(),
    ensures
        stable_order_prefix(keys, n).len() == n,
        forall|k: int|
            0 <= k < n ==> #[trigger] stable_order_prefix(keys, n)[k] < n,
    decreases n,
{
    if n > 0 {
        lemma_stable_order_prefix(keys, n - 1);
        let prev = stable_order_prefix(keys, n - 1);
        lemma_insert_position(prev, keys, keys[n - 1]);
        let p = insert_position(prev, keys, keys[n - 1]);
        assert forall|k: int| 0 <= k < n implies #[trigger] stable_order_prefix(keys, n)[k] < n by {
            if k < p {
                assert(stable_order_prefix(keys, n)[k] == prev[k]);
            } else if k > p {
                assert(stable_order_prefix(keys, n)[k] == prev[k - 1]);
            }
        }
    }
}

/// Indices into `keys` in an order that never decreases the key.
pub open spec fn sorted_by_key(order: Seq<usize>, keys: Seq<u32>) -> bool {
    forall|i: int, j: int|
        0 <= i < j < order.len() ==> keys[#[trigger] order[i] as int] <= keys[#[trigger] order[j] as int]
}

proof fn lemma_insert_position_sorted(order: Seq<usize>, keys: Seq<u32>, key: u32)
    requires
        sorted_by_key(order, keys),
    ensures
        0 <= insert_position(order, keys, key) <= order.len(),
        forall|k: int|
            0 <= k < insert_position(order, keys, key) ==> keys[#[trigger] order[k] as int] <= key,
        forall|k: int|
            insert_position(order, keys, key) <= k < order.len() ==> keys[#[trigger] order[k] as int]
                > key,
    decreases order.len(),
{
    lemma_insert_position(order, keys, key);
    if order.len() > 0 {
        let rest = order.drop_first();
        assert forall|i: int, j: int| 0 <= i < j < rest.len() implies keys[#[trigger] rest[i] as int]
            <= keys[#[trigger] rest[j] as int] by {
            assert(rest[i] == order[i + 1] && rest[j] == order[j + 1]);
            assert(keys[order[i + 1] as int] <= keys[order[j + 1] as int]);
        }
        lemma_insert_position_sorted(rest, keys, key);
        let p = insert_position(order, keys, key);
        if keys[order[0] as int] > key {
            assert forall|k: int| 0 <= k < order.len() implies keys[#[trigger] order[k] as int] > key by {
                if k > 0 {
                    assert(keys[order[0] as int] <= keys[order[k] as int]);
                }
            }
        } else {
            let q = insert_position(rest, keys, key);
            assert(p == q + 1);
            assert forall|k: int| 0 <= k < p implies keys[#[trigger] order[k] as int] <= key by {
                if k > 0 {
                    assert(order[k] == rest[k - 1]);
                    assert(keys[rest[k - 1] as int] <= key);
                }
            }
            assert forall|k: int| p <= k < order.len() implies keys[#[trigger] order[k] as int] > key by {
                assert(order[k] == rest[k - 1]);
                assert(keys[rest[k - 1] as int] > key);
            }
        }
    }
}

/// The stable order of the first `n` keys never decreases the key and holds
/// each index once.
pub proof fn lemma_stable_order_sorted(keys: Seq<u32>, n: int)
    requires
        0 <= n <= keys.len(),
        keys.len() <= usize::MAX,
    ensures
        sorted_by_key(stable_order_prefix(keys, n), keys),
        forall|i: int, j: int|
            0 <= i < j < n ==> #[trigger] stable_order_prefix(keys, n)[i]
                != #[trigger] stable_order_prefix(keys, n)[j],
    decreases n,
{
    lemma_stable_order_prefix(keys, n);
    if n > 0 {
        lemma_stable_order_sorted(keys, n - 1);
        lemma_stable_order_prefix(keys, n - 1);
        let prev = stable_order_prefix(keys, n - 1);
        let key = keys[n - 1];
        lemma_insert_position_sorted(prev, keys, key);
        let p = insert_position(prev, keys, key);
        let cur = stable_order_prefix(keys, n);
        let last = (n - 1) as usize;
        assert(cur == prev.insert(p, last));
        prev.insert_ensures(p, last);
        assert forall|k: int| p < k < n implies #[trigger] cur[k] == prev[k - 1] by {
            assert(prev.insert(p, last)[(k - 1) + 1] == prev[k - 1]);
        }
        assert forall|k: int| 0 <= k < p implies #[trigger] cur[k] == prev[k] by {}
        assert(cur[p] == last);
        assert(last as int == n - 1);
        assert forall|i: int, j: int| 0 <= i < j < cur.len() implies keys[#[trigger] cur[i] as int]
            <= keys[#[trigger] cur[j] as int] by {
            if j < p {
                assert(cur[i] == prev[i] && cur[j] == prev[j]);
                assert(keys[prev[i] as int] <= keys[prev[j] as int]);
            } else if j == p {
                assert(cur[i] == prev[i]);
                assert(keys[prev[i] as int] <= key);
            } else if i < p {
                assert(cur[i] == prev[i] && cur[j] == prev[j - 1]);
                assert(keys[prev[i] as int] <= key);
                assert(keys[prev[j - 1] as int] > key);
            } else if i == p {
                assert(cur[j] == prev[j - 1]);
                assert(keys[prev[j - 1] as int] > key);
            } else {
                assert(cur[i] == prev[i - 1] && cur[j] == prev[j - 1]);
                assert(keys[prev[i - 1] as int] <= keys[prev[j - 1] as int]);
            }
        }
        assert forall|i: int, j: int| 0 <= i < j < n implies #[trigger] cur[i] != #[trigger] cur[j] by {
            if j < p {
                assert(prev[i] != prev[j]);
            } else if j == p {
                assert(prev[i] < n - 1);
            } else if i < p {
                assert(prev[i] != prev[j - 1]);
            } else if i == p {
                assert(prev[j - 1] < n - 1);
            } else {
                assert(prev[i - 1] != prev[j - 1]);
            }
        }
    }
}

/// The indices of `edits` ordered by where the edits start, stably.
pub fn order_by_start(edits: &[EditorEdit]) -> (order: Vec<usize>)
    ensures
        order@ == stable_order(edit_starts(edits_view(edits@))),
        forall|k: int| 0 <= k < order@.len() ==> #[trigger] order@[k] < edits@.len(),
{
    let ghost keys = edit_starts(edits_view(edits@));
    let n = edits.len();
    let mut order: Vec<usize> = Vec::new();
    let mut i: usize = 0;
    while i < n
        invariant
            n == edits@.len(),
            keys.len() == n,
            keys == edit_starts(edits_view(edits@)),
            i <= n,
            order@ == stable_order_prefix(keys, i as int),
        decreases n - i,
    {
        proof {
            lemma_stable_order_prefix(keys, i as int);
        }
        let key = edits[i].range.start;
        assert(key == keys[i as int]);
        let mut j: usize = 0;
        assert(order@.skip(0) =~= order@);
        while j < order.len() && edits[order[j]].range.start <= key
            invariant
                n == edits@.len(),
                keys.len() == n,
                keys == edit_starts(edits_view(edits@)),
                i < n,
                order@.len() == i,
                forall|k: int| 0 <= k < i ==> #[trigger] order@[k] < i,
                j <= order@.len(),
                insert_position(order@, keys, key) == j + insert_position(order@.skip(j as int), keys, key),
            decreases order@.len() - j,
        {
            assert(order@.skip(j as int)[0] == order@[j as int]);
            assert(order@.skip(j as int).drop_first() =~= order@.skip(j + 1));
            assert(edits@[order@[j as int] as int]@.start == keys[order@[j as int] as int]);
            j = j + 1;
        }
        proof {
            if j < order@.len() {
                assert(order@.skip(j as int)[0] == order@[j as int]);
                assert(keys[order@[j as int] as int] == edits@[order@[j as int] as int]@.start);
            }
        }
        order.insert(j, i);
        i = i + 1;
    }
    proof {
        lemma_stable_order_prefix(keys, n as int);
    }
    order
}

/// Where `offset` goes when the edits are made, walking them in the order
/// `order` with the shift `delta` that the edits before it add up to: an
/// offset at an edit's start stays at its start, one inside an edit goes to
/// the end of its new text, and one past an edit moves by how much the edit
/// changes the length.
pub open spec fn remap_walk(offset: u64, edits: Seq<EditView>, order: Seq<usize>, delta: int) -> Result<
    u64,
    Seq<char>,
>
    decreases order.len(),
{
    if order.len() == 0 {
        shifted(offset, delta)
    } else {
        let e = edits[order[0] as int];
        let new_len = byte_len(e.new_text);
        let old_len = e.end - e.start;
        if offset < e.start {
            shifted(offset, delta)
        } else if e.end < e.start {
            Err("Edit range end preceded start"@)
        } else if offset == e.start {
            shifted(e.start as u64, delta)
        } else if offset < e.end {
            if e.start + new_len > u64::MAX {
                Err("Mapped selection offset overflowed"@)
            } else {
                shifted((e.start + new_len) as u64, delta)
            }
        } else if new_len > i64::MAX {
            Err("Edit replacement length exceeded i64"@)
        } else if delta + new_len - old_len < i64::MIN || delta + new_len - old_len > i64::MAX {
            Err("Selection offset delta overflowed"@)
        } else {
            remap_walk(offset, edits, order.drop_first(), delta + new_len - old_len)
        }
    }
}

/// Where `offset` goes when `edits` are made: the edits are walked in the
/// order of their starts.
pub open spec fn remapped(offset: u64, edits: Seq<EditView>) -> Result<u64, Seq<char>> {
    remap_walk(offset, edits, stable_order(edit_starts(edits)), 0)
}

/// Moves a byte offset of the buffer to where it stands once `edits` are
/// made.
pub fn remap_offset(offset: u64, edits: &[EditorEdit]) -> (r: Result<u64, String>)
    ensures
        match r {
            Ok(v) => remapped(offset, edits_view(edits@)) == Ok::<u64, Seq<char>>(v),
            Err(message) => remapped(offset, edits_view(edits@)) == Err::<u64, Seq<char>>(
                message@,
            ),
        },
{
    let ghost view = edits_view(edits@);
    let order = order_by_start(edits);
    let mut delta: i64 = 0;
    let mut j: usize = 0;
    assert(order@.skip(0) =~= order@);
    while j < order.len()
        invariant
            view == edits_view(edits@),
            order@ == stable_order(edit_starts(view)),
            forall|k: int| 0 <= k < order@.len() ==> #[trigger] order@[k] < edits@.len(),
            j <= order@.len(),
            remap_walk(offset, view, order@.skip(j as int), delta as int) == remapped(offset, view),
        decreases order@.len() - j,
    {
        let ghost rest = order@.skip(j as int);
        assert(rest[0] == order@[j as int]);
        assert(rest.drop_first() =~= order@.skip(j + 1));
        let edit = &edits[order[j]];
        assert(view[order@[j as int] as int] == edit@);
        let edit_start = edit.range.start as u64;
        let edit_end = edit.range.end as u64;
        if offset < edit_start {
            return apply_delta(offset, delta);
        }
        if edit_end < edit_start {
            return Err("Edit range end preceded start".to_string());
        }
        let old_len = edit_end - edit_start;
        let new_len = text_len(edit.new_text.as_str()) as u64;
        if offset == edit_start {
            return apply_delta(edit_start, delta);
        }
        if offset < edit_end {
            if new_len > u64::MAX - edit_start {
                return Err("Mapped selection offset overflowed".to_string());
            }
            return apply_delta(edit_start + new_len, delta);
        }
        if new_len > i64::MAX as u64 {
            return Err("Edit replacement length exceeded i64".to_string());
        }
        let change = new_len as i64 - old_len as i64;
        if (change > 0 && delta > i64::MAX - change) || (change < 0 && delta < i64::MIN - change) {
            return Err("Selection offset delta overflowed".to_string());
        }
        delta = delta + change;
        j = j + 1;
    }
    apply_delta(offset, delta)
}

/// The selections moved to where they stand once `edits` are made, or the
/// message of the first error.
pub open spec fn remapped_selections(selections: Seq<EditorSelection>, edits: Seq<EditView>) -> Result<
    Seq<EditorSelection>,
    Seq<char>,
>
    decreases selections.len(),
{
    if selections.len() == 0 {
        Ok(seq![])
    } else {
        match remapped_selections(selections.drop_last(), edits) {
            Err(e) => Err(e),
            Ok(prev) => {
                let selection = selections.last();
                match remapped(selection.start, edits) {
                    Err(e) => Err(e),
                    Ok(start) => match remapped(selection.end, edits) {
                        Err(e) => Err(e),
                        Ok(end) => Ok(
                            prev.push(EditorSelection { start, end, reversed: selection.reversed }),
                        ),
                    },
                }
            },
        }
    }
}

/// Moves each selection to where it stands once `edits` are made.
pub fn remap_selections(selections: &[EditorSelection], edits: &[EditorEdit]) -> (r: Result<
    Vec<EditorSelection>,
    String,
>)
    ensures
        match r {
            Ok(v) => remapped_selections(selections@, edits_view(edits@)) == Ok::<
                Seq<EditorSelection>,
                Seq<char>,
            >(v@),
            Err(message) => remapped_selections(selections@, edits_view(edits@)) == Err::<
                Seq<EditorSelection>,
                Seq<char>,
            >(message@),
        },
{
    let mut result: Vec<EditorSelection> = Vec::new();
    let mut i: usize = 0;
    while i < selections.len()
        invariant
            i <= selections@.len(),
            remapped_selections(selections@.take(i as int), edits_view(edits@)) == Ok::<
                Seq<EditorSelection>,
                Seq<char>,
            >(result@),
        decreases selections@.len() - i,
    {
        let selection = selections[i];
        assert(selections@.take(i + 1).drop_last() =~= selections@.take(i as int));
        assert(selections@.take(i + 1).last() == selection);
        let start = match remap_offset(selection.start, edits) {
            Ok(v) => v,
            Err(message) => {
                proof {
                    lemma_remapped_selections_err(selections@, edits_view(edits@), i as int);
                }
                return Err(message);
            },
        };
        let end = match remap_offset(selection.end, edits) {
            Ok(v) => v,
            Err(message) => {
                proof {
                    lemma_remapped_selections_err(selections@, edits_view(edits@), i as int);
                }
                return Err(message);
            },
        };
        result.push(EditorSelection { start, end, reversed: selection.reversed });
        i = i + 1;
    }
    assert(selections@.take(selections@.len() as int) =~= selections@);
    Ok(result)
}

/// An error at a prefix is the error of the whole.
proof fn lemma_remapped_selections_err(selections: Seq<EditorSelection>, edits: Seq<EditView>, i: int)
    requires
        0 <= i < selections.len(),
        remapped_selections(selections.take(i + 1), edits) is Err,
    ensures
        remapped_selections(selections, edits) == remapped_selections(selections.take(i + 1), edits),
    decreases selections.len() - i,
{
    if i + 1 < selections.len() {
        assert(selections.drop_last().take(i + 1) =~= selections.take(i + 1));
        lemma_remapped_selections_err(selections.drop_last(), edits, i);
    } else {
        assert(selections.take(i + 1) =~= selections);
    }
}

} // verus!
