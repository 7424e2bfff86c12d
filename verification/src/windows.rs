use vstd::prelude::*;

use crate::measure::{exceeds, fits, measures};
use crate::structs::UnitView;

verus! {

/// Whether the window of `text` that starts at `start` may end at `end`:
/// either it was measured and fits, and is the whole rest of the text or the
/// window one character longer was measured and does not fit; or it is one
/// character that by itself does not fit.
pub open spec fn is_window_end<F: Fn(&str) -> usize>(
    length_function: Option<F>,
    text: Seq<char>,
    size: usize,
    start: int,
    end: int,
) -> bool {
    &&& 0 <= start < end <= text.len()
    &&& {
        ||| fits(length_function, text.subrange(start, end), size) && (end == text.len()
            || exceeds(length_function, text.subrange(start, end + 1), size))
        ||| end == start + 1 && exceeds(length_function, text.subrange(start, end), size)
    }
}

/// Where the window after `[start, end)` starts: `overlap` characters before
/// `end`, and at least one character on.
pub open spec fn next_start(start: int, end: int, overlap: int) -> int {
    if end - overlap > start + 1 {
        end - overlap
    } else {
        start + 1
    }
}

/// Whether `unit` is a window of `text`, which begins at the global offset
/// `offset`: it holds the characters of its span and ends where a window may.
pub open spec fn is_window<F: Fn(&str) -> usize>(
    length_function: Option<F>,
    text: Seq<char>,
    size: usize,
    offset: int,
    unit: UnitView,
) -> bool {
    &&& unit.text == text.subrange(unit.start - offset, unit.end - offset)
    &&& is_window_end(length_function, text, size, unit.start - offset, unit.end - offset)
}

/// Whether window `k + 1` follows window `k`, which ends before `limit`.
pub open spec fn window_steps(units: Seq<UnitView>, k: int, overlap: int, limit: int) -> bool {
    &&& units[k].end < limit
    &&& units[k + 1].start == next_start(units[k].start, units[k].end, overlap)
}

/// Whether `units` are the windows of `text`, which begins at the global
/// offset `offset`: none for an empty text; else the first starts where the
/// text does, each next one where `next_start` says, and the last ends where
/// the text does.
pub open spec fn is_window_chunking<F: Fn(&str) -> usize>(
    length_function: Option<F>,
    text: Seq<char>,
    size: usize,
    overlap: usize,
    offset: int,
    units: Seq<UnitView>,
) -> bool {
    &&& (units.len() == 0) == (text.len() == 0)
    &&& units.len() > 0 ==> units.first().start == offset && units.last().end == offset
        + text.len()
    &&& forall|k: int|
        0 <= k < units.len() ==> is_window(length_function, text, size, offset, #[trigger] units[k])
    &&& forall|k: int|
        0 <= k < units.len() - 1 ==> #[trigger] window_steps(
            units,
            k,
            overlap as int,
            offset + text.len(),
        )
}

/// The length of a window under the default measure: `size` characters, one
/// if `size` is 0, fewer where only `left` characters are left.
pub open spec fn default_window_len(size: usize, left: int) -> int {
    if left <= size {
        left
    } else if size < 1 {
        1
    } else {
        size as int
    }
}

/// The windows of `text` from the character `start` on under the default
/// measure, which counts characters.
pub open spec fn default_windows_from(
    text: Seq<char>,
    size: usize,
    overlap: usize,
    offset: int,
    start: int,
) -> Seq<UnitView>
    decreases text.len() - start,
{
    if start < 0 || start >= text.len() {
        Seq::empty()
    } else {
        let end = start + default_window_len(size, text.len() - start);
        let unit = UnitView {
            text: text.subrange(start, end),
            start: offset + start,
            end: offset + end,
        };
        if end >= text.len() {
            seq![unit]
        } else {
            seq![unit] + default_windows_from(
                text,
                size,
                overlap,
                offset,
                next_start(start, end, overlap as int),
            )
        }
    }
}

/// The windows of `text` under the default measure.
pub open spec fn default_windows(
    text: Seq<char>,
    size: usize,
    overlap: usize,
    offset: int,
) -> Seq<UnitView> {
    default_windows_from(text, size, overlap, offset, 0)
}

/// Under the default measure a window ends `size` characters after its
/// start, one character after it if `size` is 0, and at the end of the text
/// if that comes first.
pub proof fn lemma_default_window_end<F: Fn(&str) -> usize>(
    text: Seq<char>,
    size: usize,
    start: int,
    end: int,
)
    ensures
        is_window_end(None::<F>, text, size, start, end) ==> 0 <= start < text.len() && end
            == start + default_window_len(size, text.len() - start),
        text.len() <= usize::MAX && 0 <= start < text.len() && end == start + default_window_len(
            size,
            text.len() - start,
        ) ==> is_window_end(None::<F>, text, size, start, end),
{
    let measure = None::<F>;
    if text.len() <= usize::MAX && 0 <= start < end <= text.len() {
        let window = text.subrange(start, end);
        let n = (end - start) as usize;
        assert(measures(measure, window, n));
        if end < text.len() {
            let longer = text.subrange(start, end + 1);
            assert(measures(measure, longer, (n + 1) as usize));
        }
    }
}

/// Under the default measure the windows from any of them on are those that
/// counting characters gives.
pub proof fn lemma_default_windows_from<F: Fn(&str) -> usize>(
    text: Seq<char>,
    size: usize,
    overlap: usize,
    offset: int,
    units: Seq<UnitView>,
    k: int,
)
    requires
        is_window_chunking(None::<F>, text, size, overlap, offset, units),
        0 <= k < units.len(),
    ensures
        units.skip(k) == default_windows_from(text, size, overlap, offset, units[k].start - offset),
    decreases units.len() - k,
{
    let unit = units[k];
    assert(is_window(None::<F>, text, size, offset, unit));
    lemma_default_window_end::<F>(text, size, unit.start - offset, unit.end - offset);
    if k < units.len() - 1 {
        assert(window_steps(units, k, overlap as int, offset + text.len()));
        lemma_default_windows_from::<F>(text, size, overlap, offset, units, k + 1);
        assert(units.skip(k) =~= seq![unit] + units.skip(k + 1));
    } else {
        assert(units.skip(k) =~= seq![unit]);
    }
}

/// Under the default measure the windows of a text are those that counting
/// characters gives.
pub proof fn lemma_default_windows<F: Fn(&str) -> usize>(
    text: Seq<char>,
    size: usize,
    overlap: usize,
    offset: int,
    units: Seq<UnitView>,
)
    requires
        is_window_chunking(None::<F>, text, size, overlap, offset, units),
    ensures
        units == default_windows(text, size, overlap, offset),
{
    if units.len() > 0 {
        lemma_default_windows_from::<F>(text, size, overlap, offset, units, 0);
        assert(units.skip(0) =~= units);
    } else {
        assert(units =~= default_windows(text, size, overlap, offset));
    }
}

} // verus!
