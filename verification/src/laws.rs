use vstd::prelude::*;

use crate::measure::{default_lens, exceeds, fits, measures};
use crate::packing::{
    fits_all, grown_to, lemma_grown_to_bounds, lemma_packed_windows_bounds, lemma_packed_within,
    next_window, packed_windows, window_stop, window_total,
};
use crate::paragraphs::{lemma_paragraph_units_in_order, paragraph_units};
use crate::range::{
    extract_range, lemma_extract_range_is_slice, lemma_prefix_len_monotone, lemma_segment_is_slice,
    prefix_len, total_len,
};
use crate::stream::{
    emitted, emitted_all, empty_result, is_advance, is_paragraph_chunking, is_paragraph_outcome,
    is_pull, is_segment_results, is_split_of, lemma_default_segment_results, Config, ProducerView,
};
use crate::structs::{ResultView, UnitView};
use crate::text::JOINER;
use crate::windows::{
    is_window, is_window_chunking, is_window_end, lemma_default_window_end, window_steps,
};

verus! {

/// A window holds as many characters as its span is long.
pub proof fn lemma_window_holds_its_span<F: Fn(&str) -> usize>(
    length_function: Option<F>,
    text: Seq<char>,
    size: usize,
    offset: int,
    unit: UnitView,
)
    requires
        is_window(length_function, text, size, offset, unit),
    ensures
        unit.text.len() == unit.end - unit.start,
        unit.start < unit.end,
{
}

/// Each window starts after the one before it, and not after that one's end:
/// the windows always move on and leave no gap.
pub proof fn lemma_windows_advance<F: Fn(&str) -> usize>(
    length_function: Option<F>,
    text: Seq<char>,
    size: usize,
    overlap: usize,
    offset: int,
    units: Seq<UnitView>,
    k: int,
)
    requires
        is_window_chunking(length_function, text, size, overlap, offset, units),
        0 <= k < units.len() - 1,
    ensures
        units[k].start < units[k + 1].start <= units[k].end,
{
    assert(window_steps(units, k, overlap as int, offset + text.len()));
    assert(is_window(length_function, text, size, offset, units[k]));
}

/// Every character of a text lies in one of its windows.
pub proof fn lemma_windows_cover<F: Fn(&str) -> usize>(
    length_function: Option<F>,
    text: Seq<char>,
    size: usize,
    overlap: usize,
    offset: int,
    units: Seq<UnitView>,
    position: int,
)
    requires
        is_window_chunking(length_function, text, size, overlap, offset, units),
        offset <= position < offset + text.len(),
    ensures
        exists|k: int|
            0 <= k < units.len() && (#[trigger] units[k]).start <= position < units[k].end,
{
    lemma_windows_cover_from(length_function, text, size, overlap, offset, units, position, 0);
}

/// Every character at or after the start of window `from` lies in a window.
proof fn lemma_windows_cover_from<F: Fn(&str) -> usize>(
    length_function: Option<F>,
    text: Seq<char>,
    size: usize,
    overlap: usize,
    offset: int,
    units: Seq<UnitView>,
    position: int,
    from: int,
)
    requires
        is_window_chunking(length_function, text, size, overlap, offset, units),
        0 <= from < units.len(),
        units[from].start <= position < offset + text.len(),
    ensures
        exists|k: int|
            0 <= k < units.len() && (#[trigger] units[k]).start <= position < units[k].end,
    decreases units.len() - from,
{
    if position < units[from].end {
    } else {
        assert(from < units.len() - 1);
        lemma_windows_advance(length_function, text, size, overlap, offset, units, from);
        lemma_windows_cover_from(
            length_function,
            text,
            size,
            overlap,
            offset,
            units,
            position,
            from + 1,
        );
    }
}

/// Under the default measure, with an overlap below the size bound, each
/// window but the last holds `size` characters and shares exactly `overlap`
/// of them with the window after it.
pub proof fn lemma_default_windows_overlap<F: Fn(&str) -> usize>(
    text: Seq<char>,
    size: usize,
    overlap: usize,
    offset: int,
    units: Seq<UnitView>,
    k: int,
)
    requires
        is_window_chunking(None::<F>, text, size, overlap, offset, units),
        overlap < size,
        0 <= k < units.len() - 1,
    ensures
        units[k].end - units[k].start == size,
        units[k].end - units[k + 1].start == overlap,
{
    assert(window_steps(units, k, overlap as int, offset + text.len()));
    assert(is_window(None::<F>, text, size, offset, units[k]));
    lemma_default_window_end::<F>(text, size, units[k].start - offset, units[k].end - offset);
}

/// Each window of a packing starts after the one before it.
pub proof fn lemma_packed_windows_advance(
    lens: Seq<usize>,
    joiner_len: usize,
    size: usize,
    overlap: usize,
    i: int,
    k: int,
)
    requires
        0 <= i,
        0 <= k < packed_windows(lens, joiner_len, size, overlap, i).len() - 1,
    ensures
        packed_windows(lens, joiner_len, size, overlap, i)[k].0 < packed_windows(
            lens,
            joiner_len,
            size,
            overlap,
            i,
        )[k + 1].0,
    decreases lens.len() - i,
{
    if i < lens.len() {
        lemma_grown_to_bounds(lens, joiner_len, size, i + 1, lens[i] as int);
        let j = window_stop(lens, joiner_len, size, i);
        let next = next_window(i, j, overlap as int);
        let rest = packed_windows(lens, joiner_len, size, overlap, next);
        let all = packed_windows(lens, joiner_len, size, overlap, i);
        assert(all == seq![(i, j)] + rest);
        assert(all[k + 1] == rest[k]);
        if k == 0 {
            lemma_packed_windows_bounds(lens, joiner_len, size, overlap, next);
        } else {
            assert(all[k] == rest[k - 1]);
            lemma_packed_windows_advance(lens, joiner_len, size, overlap, next, k - 1);
        }
    }
}

/// Paragraph units that fit as they are come out as they are: none merged,
/// none split.
pub proof fn lemma_fitting_units_stay<F: Fn(&str) -> usize>(
    length_function: Option<F>,
    text: Seq<char>,
    size: usize,
    overlap: usize,
    joiner_len: usize,
    fit_lens: Seq<usize>,
    pack_lens: Seq<usize>,
    units: Seq<UnitView>,
)
    requires
        is_paragraph_outcome(
            length_function,
            text,
            size,
            overlap,
            joiner_len,
            fit_lens,
            pack_lens,
            units,
        ),
        fits_all(fit_lens, joiner_len, size),
    ensures
        units == paragraph_units(text),
{
}

/// Under the default measure, a segment whose paragraphs fit as they are is
/// cut into just those paragraphs, at the segment's place in the input.
pub proof fn lemma_default_fitting_paragraphs<F: Fn(&str) -> usize>(
    config: Config,
    text: Seq<char>,
    offset: int,
    results: Seq<ResultView>,
)
    requires
        config.paragraphs,
        text.len() > 0,
        is_segment_results(None::<F>, config, text, offset, results),
        fits_all(default_lens(paragraph_units(text)), JOINER@.len() as usize, config.size),
    ensures
        results == emitted_all(paragraph_units(text), offset),
{
    lemma_default_segment_results::<F>(config, text, offset, results);
}

/// An empty segment has exactly one chunk: empty, and placed at the global
/// offset at which the segment stands.
pub proof fn lemma_empty_segment<F: Fn(&str) -> usize>(
    length_function: Option<F>,
    config: Config,
    offset: int,
    results: Seq<ResultView>,
)
    requires
        is_segment_results(length_function, config, Seq::<char>::empty(), offset, results),
    ensures
        results.len() == 1,
        results[0].text == seq![Seq::<char>::empty()],
        results[0].start == offset,
        results[0].end == offset,
{
}

/// Whether `result` holds, as its one text, the slice of the whole input
/// that its span names.
pub open spec fn is_slice_of(segments: Seq<Seq<char>>, result: ResultView) -> bool {
    &&& 0 <= result.start <= result.end <= total_len(segments)
    &&& result.text == seq![segments.flatten().subrange(result.start, result.end)]
}

/// The chunks of the segments from `done` on hold the slices that their spans
/// name.
proof fn lemma_window_results_are_slices_from<F: Fn(&str) -> usize>(
    length_function: Option<F>,
    config: Config,
    segments: Seq<Seq<char>>,
    done: int,
    results: Seq<ResultView>,
)
    requires
        !config.paragraphs,
        0 <= done <= segments.len(),
        is_split_of(
            length_function,
            config,
            segments.skip(done),
            prefix_len(segments, done),
            results,
        ),
    ensures
        forall|i: int| 0 <= i < results.len() ==> is_slice_of(segments, #[trigger] results[i]),
    decreases segments.len() - done,
{
    let rest = segments.skip(done);
    if rest.len() > 0 {
        let offset = prefix_len(segments, done);
        let text = segments[done];
        let k = choose|k: int|
            0 <= k <= results.len() && is_segment_results(
                length_function,
                config,
                rest[0],
                offset,
                #[trigger] results.take(k),
            ) && is_split_of(
                length_function,
                config,
                rest.drop_first(),
                offset + rest[0].len(),
                results.skip(k),
            );
        let head = results.take(k);
        assert(rest[0] == text);
        assert(rest.drop_first() =~= segments.skip(done + 1));
        lemma_window_results_are_slices_from(
            length_function,
            config,
            segments,
            done + 1,
            results.skip(k),
        );
        lemma_segment_is_slice(segments, done);
        lemma_prefix_len_monotone(segments, done + 1, segments.len() as int);
        let whole = segments.flatten();
        assert forall|i: int| 0 <= i < results.len() implies is_slice_of(
            segments,
            #[trigger] results[i],
        ) by {
            if i < k {
                assert(results[i] == head[i]);
                if text.len() == 0 {
                    assert(whole.subrange(offset, offset) =~= Seq::<char>::empty());
                    assert(is_segment_results(length_function, config, text, offset, head));
                    assert(head == seq![empty_result(offset)]);
                    assert(head.len() == 1);
                    assert(results[i] == empty_result(offset));
                    assert(results[i].text =~= seq![whole.subrange(offset, offset)]);
                } else {
                    let units = choose|units: Seq<UnitView>| #[trigger]
                        is_window_chunking(
                            length_function,
                            text,
                            config.size,
                            config.overlap,
                            offset,
                            units,
                        ) && head == emitted_all(units, 0);
                    assert(head.len() == units.len());
                    assert(is_window(length_function, text, config.size, offset, units[i]));
                    assert(head[i] == emitted(units[i], 0));
                    assert(text.subrange(units[i].start - offset, units[i].end - offset)
                        =~= whole.subrange(units[i].start, units[i].end));
                }
            } else {
                assert(results[i] == results.skip(k)[i - k]);
            }
        }
    }
}

/// Cut into windows, each chunk holds the slice of the whole input that its
/// span names.
pub proof fn lemma_window_results_are_slices<F: Fn(&str) -> usize>(
    length_function: Option<F>,
    config: Config,
    segments: Seq<Seq<char>>,
    results: Seq<ResultView>,
)
    requires
        !config.paragraphs,
        is_split_of(length_function, config, segments, 0, results),
    ensures
        forall|i: int| 0 <= i < results.len() ==> is_slice_of(segments, #[trigger] results[i]),
{
    assert(segments.skip(0) =~= segments);
    lemma_window_results_are_slices_from(length_function, config, segments, 0, results);
}

/// Cut into windows, the range of a chunk's span gives the chunk's text
/// back: the pieces of the range spell what the chunk holds.
pub proof fn lemma_range_of_window_is_its_text<F: Fn(&str) -> usize>(
    length_function: Option<F>,
    config: Config,
    segments: Seq<Seq<char>>,
    results: Seq<ResultView>,
    i: int,
)
    requires
        !config.paragraphs,
        is_split_of(length_function, config, segments, 0, results),
        0 <= i < results.len(),
    ensures
        extract_range(segments, results[i].start, Some(results[i].end)).flatten()
            == results[i].text.flatten(),
{
    lemma_window_results_are_slices(length_function, config, segments, results);
    assert(is_slice_of(segments, results[i]));
    lemma_extract_range_is_slice(segments, results[i].start, Some(results[i].end));
    results[i].text.lemma_flatten_singleton();
}

/// Every character at or after segment `done` lies in the span of a chunk of
/// the segments from `done` on.
proof fn lemma_split_covers_from<F: Fn(&str) -> usize>(
    length_function: Option<F>,
    config: Config,
    segments: Seq<Seq<char>>,
    done: int,
    results: Seq<ResultView>,
    position: int,
)
    requires
        !config.paragraphs,
        0 <= done <= segments.len(),
        is_split_of(
            length_function,
            config,
            segments.skip(done),
            prefix_len(segments, done),
            results,
        ),
        prefix_len(segments, done) <= position < total_len(segments),
    ensures
        exists|i: int|
            0 <= i < results.len() && (#[trigger] results[i]).start <= position < results[i].end,
    decreases segments.len() - done,
{
    let rest = segments.skip(done);
    assert(rest.len() > 0);
    let offset = prefix_len(segments, done);
    let text = segments[done];
    let k = choose|k: int|
        0 <= k <= results.len() && is_segment_results(
            length_function,
            config,
            rest[0],
            offset,
            #[trigger] results.take(k),
        ) && is_split_of(
            length_function,
            config,
            rest.drop_first(),
            offset + rest[0].len(),
            results.skip(k),
        );
    let head = results.take(k);
    assert(rest[0] == text);
    assert(rest.drop_first() =~= segments.skip(done + 1));
    if position < offset + text.len() {
        let units = choose|units: Seq<UnitView>| #[trigger]
            is_window_chunking(length_function, text, config.size, config.overlap, offset, units)
                && head == emitted_all(units, 0);
        assert(head.len() == units.len());
        lemma_windows_cover(
            length_function,
            text,
            config.size,
            config.overlap,
            offset,
            units,
            position,
        );
        let j = choose|j: int|
            0 <= j < units.len() && (#[trigger] units[j]).start <= position < units[j].end;
        assert(results[j] == head[j]);
        assert(head[j] == emitted(units[j], 0));
    } else {
        lemma_split_covers_from(
            length_function,
            config,
            segments,
            done + 1,
            results.skip(k),
            position,
        );
        let j = choose|j: int|
            0 <= j < results.skip(k).len() && (#[trigger] results.skip(k)[j]).start <= position
                < results.skip(k)[j].end;
        assert(results[k + j] == results.skip(k)[j]);
    }
}

/// Cut into windows, every character of the input lies in the span of some
/// chunk.
pub proof fn lemma_split_covers<F: Fn(&str) -> usize>(
    length_function: Option<F>,
    config: Config,
    segments: Seq<Seq<char>>,
    results: Seq<ResultView>,
    position: int,
)
    requires
        !config.paragraphs,
        is_split_of(length_function, config, segments, 0, results),
        0 <= position < total_len(segments),
    ensures
        exists|i: int|
            0 <= i < results.len() && (#[trigger] results[i]).start <= position < results[i].end,
{
    assert(segments.skip(0) =~= segments);
    lemma_split_covers_from(length_function, config, segments, 0, results, position);
}

/// Whether the measure never gives a window of `text` that starts at
/// `start` a smaller length than it gives a shorter one.
pub open spec fn is_monotone_from<F: Fn(&str) -> usize>(
    length_function: Option<F>,
    text: Seq<char>,
    start: int,
) -> bool {
    forall|a: int, b: int, m: usize, n: usize|
        0 <= start < a <= b <= text.len() && #[trigger] measures(
            length_function,
            text.subrange(start, a),
            m,
        ) && #[trigger] measures(length_function, text.subrange(start, b), n) ==> m <= n
}

/// Counting characters never gives a longer window a smaller length.
pub proof fn lemma_default_measure_is_monotone<F: Fn(&str) -> usize>(text: Seq<char>, start: int)
    ensures
        is_monotone_from(None::<F>, text, start),
{
}

/// Under a measure that never shrinks as a window grows, no window longer
/// than the one that was cut fits: a window is the largest that does, or one
/// character where none does.
pub proof fn lemma_window_end_is_largest<F: Fn(&str) -> usize>(
    length_function: Option<F>,
    text: Seq<char>,
    size: usize,
    start: int,
    end: int,
    longer: int,
)
    requires
        is_window_end(length_function, text, size, start, end),
        is_monotone_from(length_function, text, start),
        end < longer <= text.len(),
    ensures
        !fits(length_function, text.subrange(start, longer), size),
{
    if fits(length_function, text.subrange(start, longer), size) {
        let m = choose|m: usize| #[trigger]
            measures(length_function, text.subrange(start, longer), m) && m <= size;
        if end == start + 1 && exceeds(
            length_function,
            text.subrange(start, end),
            size,
        ) {
            let n = choose|n: usize| #[trigger]
                measures(length_function, text.subrange(start, end), n) && n > size;
            assert(n <= m);
        } else {
            let n = choose|n: usize| #[trigger]
                measures(length_function, text.subrange(start, end + 1), n) && n > size;
            assert(n <= m);
        }
    }
}

/// A window that grows from `j` stops at the last unit that still fits.
proof fn lemma_grown_to_is_largest(
    lens: Seq<usize>,
    joiner_len: usize,
    size: usize,
    i: int,
    j: int,
    total: int,
)
    requires
        0 <= i < j <= lens.len(),
        total == window_total(lens, joiner_len, i, j),
        j == i + 1 || total <= size,
    ensures
        j <= grown_to(lens, joiner_len, size, j, total) <= lens.len(),
        grown_to(lens, joiner_len, size, j, total) == i + 1 || window_total(
            lens,
            joiner_len,
            i,
            grown_to(lens, joiner_len, size, j, total),
        ) <= size,
        grown_to(lens, joiner_len, size, j, total) < lens.len() ==> window_total(
            lens,
            joiner_len,
            i,
            grown_to(lens, joiner_len, size, j, total) + 1,
        ) > size,
    decreases lens.len() - j,
{
    if j < lens.len() && total + joiner_len + lens[j] <= size {
        lemma_grown_to_is_largest(
            lens,
            joiner_len,
            size,
            i,
            j + 1,
            total + joiner_len + lens[j],
        );
    }
}

/// A window of a packing holds its first unit and as many more as fit: it
/// is one unit, or its units with the joiners between them measure at most
/// `size`; and with the unit after it, if there is one, they measure more.
pub proof fn lemma_window_stop_is_largest(
    lens: Seq<usize>,
    joiner_len: usize,
    size: usize,
    i: int,
)
    requires
        0 <= i < lens.len(),
    ensures
        i < window_stop(lens, joiner_len, size, i) <= lens.len(),
        window_stop(lens, joiner_len, size, i) == i + 1 || window_total(
            lens,
            joiner_len,
            i,
            window_stop(lens, joiner_len, size, i),
        ) <= size,
        window_stop(lens, joiner_len, size, i) < lens.len() ==> window_total(
            lens,
            joiner_len,
            i,
            window_stop(lens, joiner_len, size, i) + 1,
        ) > size,
{
    lemma_grown_to_is_largest(lens, joiner_len, size, i, i + 1, lens[i] as int);
}

/// The chunks of the segments from `done` on lie end to end from where
/// segment `done` begins to where the input ends.
proof fn lemma_split_is_contiguous_from<F: Fn(&str) -> usize>(
    length_function: Option<F>,
    config: Config,
    segments: Seq<Seq<char>>,
    done: int,
    results: Seq<ResultView>,
)
    requires
        !config.paragraphs,
        config.overlap == 0,
        0 <= done <= segments.len(),
        is_split_of(
            length_function,
            config,
            segments.skip(done),
            prefix_len(segments, done),
            results,
        ),
    ensures
        (results.len() == 0) == (done == segments.len()),
        results.len() > 0 ==> results.first().start == prefix_len(segments, done)
            && results.last().end == total_len(segments),
        forall|i: int|
            0 <= i < results.len() - 1 ==> (#[trigger] results[i]).end == results[i + 1].start,
    decreases segments.len() - done,
{
    let rest = segments.skip(done);
    if rest.len() > 0 {
        let offset = prefix_len(segments, done);
        let text = segments[done];
        let k = choose|k: int|
            0 <= k <= results.len() && is_segment_results(
                length_function,
                config,
                rest[0],
                offset,
                #[trigger] results.take(k),
            ) && is_split_of(
                length_function,
                config,
                rest.drop_first(),
                offset + rest[0].len(),
                results.skip(k),
            );
        let head = results.take(k);
        let tail = results.skip(k);
        assert(rest[0] == text);
        assert(rest.drop_first() =~= segments.skip(done + 1));
        lemma_split_is_contiguous_from(length_function, config, segments, done + 1, tail);
        assert(is_segment_results(length_function, config, text, offset, head));
        // The chunks of this segment begin where it does, follow each other
        // and end where it does.
        assert(head.len() > 0 && head.first().start == offset && head.last().end == offset
            + text.len() && (forall|i: int|
            0 <= i < head.len() - 1 ==> (#[trigger] head[i]).end == head[i + 1].start)) by {
            if text.len() == 0 {
                assert(head == seq![empty_result(offset)]);
            } else {
                let units = choose|units: Seq<UnitView>| #[trigger]
                    is_window_chunking(
                        length_function,
                        text,
                        config.size,
                        config.overlap,
                        offset,
                        units,
                    ) && head == emitted_all(units, 0);
                assert(head.len() == units.len());
                assert(head.first() == emitted(units.first(), 0));
                assert(head.last() == emitted(units.last(), 0));
                assert forall|i: int| 0 <= i < head.len() - 1 implies (#[trigger] head[i]).end
                    == head[i + 1].start by {
                    assert(window_steps(units, i, 0, offset + text.len()));
                    assert(is_window(length_function, text, config.size, offset, units[i]));
                    assert(head[i] == emitted(units[i], 0));
                    assert(head[i + 1] == emitted(units[i + 1], 0));
                }
            }
        }
        assert(results =~= head + tail);
        assert(results.first() == head.first());
        if tail.len() > 0 {
            assert(results.last() == tail.last());
            assert(tail.first() == results[k]);
        } else {
            assert(results.last() == head.last());
        }
        assert forall|i: int| 0 <= i < results.len() - 1 implies (#[trigger] results[i]).end
            == results[i + 1].start by {
            if i < k - 1 {
                assert(results[i] == head[i]);
                assert(results[i + 1] == head[i + 1]);
            } else if i == k - 1 {
                assert(results[i] == head.last());
                assert(results[i + 1] == tail.first());
            } else {
                assert(results[i] == tail[i - k]);
                assert(results[i + 1] == tail[i - k + 1]);
            }
        }
    }
}

/// Cut into windows without overlap, the chunks lie end to end over the
/// whole input: the first starts at 0, each next one where the one before it
/// ends, and the last ends where the input does.
pub proof fn lemma_split_is_contiguous<F: Fn(&str) -> usize>(
    length_function: Option<F>,
    config: Config,
    segments: Seq<Seq<char>>,
    results: Seq<ResultView>,
)
    requires
        !config.paragraphs,
        config.overlap == 0,
        is_split_of(length_function, config, segments, 0, results),
    ensures
        (results.len() == 0) == (segments.len() == 0),
        results.len() > 0 ==> results.first().start == 0 && results.last().end == total_len(
            segments,
        ),
        forall|i: int|
            0 <= i < results.len() - 1 ==> (#[trigger] results[i]).end == results[i + 1].start,
{
    assert(segments.skip(0) =~= segments);
    lemma_split_is_contiguous_from(length_function, config, segments, 0, results);
}

/// The spans of the chunks of the segments from `done` on lie between where
/// segment `done` begins and where the input ends.
proof fn lemma_results_are_spans_from<F: Fn(&str) -> usize>(
    length_function: Option<F>,
    config: Config,
    segments: Seq<Seq<char>>,
    done: int,
    results: Seq<ResultView>,
)
    requires
        0 <= done <= segments.len(),
        is_split_of(
            length_function,
            config,
            segments.skip(done),
            prefix_len(segments, done),
            results,
        ),
    ensures
        forall|i: int|
            0 <= i < results.len() ==> prefix_len(segments, done) <= (#[trigger] results[i]).start
                <= results[i].end <= total_len(segments) && results[i].text.len() == 1,
    decreases segments.len() - done,
{
    let rest = segments.skip(done);
    lemma_prefix_len_monotone(segments, 0, done);
    if rest.len() > 0 {
        let offset = prefix_len(segments, done);
        let text = segments[done];
        let k = choose|k: int|
            0 <= k <= results.len() && is_segment_results(
                length_function,
                config,
                rest[0],
                offset,
                #[trigger] results.take(k),
            ) && is_split_of(
                length_function,
                config,
                rest.drop_first(),
                offset + rest[0].len(),
                results.skip(k),
            );
        let head = results.take(k);
        assert(rest[0] == text);
        assert(rest.drop_first() =~= segments.skip(done + 1));
        lemma_results_are_spans_from(length_function, config, segments, done + 1, results.skip(k));
        lemma_prefix_len_monotone(segments, done, done + 1);
        lemma_prefix_len_monotone(segments, done + 1, segments.len() as int);
        assert(is_segment_results(length_function, config, text, offset, head));
        assert forall|i: int| 0 <= i < results.len() implies offset <= (#[trigger] results[i]).start
            <= results[i].end <= total_len(segments) && results[i].text.len() == 1 by {
            if i >= k {
                assert(results[i] == results.skip(k)[i - k]);
            } else {
                assert(results[i] == head[i]);
                if text.len() == 0 {
                    assert(head == seq![empty_result(offset)]);
                    assert(head.len() == 1);
                    assert(results[i] == empty_result(offset));
                } else if config.paragraphs {
                    let units = choose|units: Seq<UnitView>| #[trigger]
                        is_paragraph_chunking(
                            length_function,
                            text,
                            config.size,
                            config.overlap,
                            units,
                        ) && head == emitted_all(units, offset);
                    let (joiner_len, fit_lens, pack_lens) = choose|
                        joiner_len: usize,
                        fit_lens: Seq<usize>,
                        pack_lens: Seq<usize>,
                    | #[trigger]
                        is_paragraph_outcome(
                            length_function,
                            text,
                            config.size,
                            config.overlap,
                            joiner_len,
                            fit_lens,
                            pack_lens,
                            units,
                        );
                    lemma_paragraph_units_in_order(text);
                    lemma_packed_within(
                        paragraph_units(text),
                        pack_lens,
                        joiner_len,
                        config.size,
                        JOINER@,
                        config.overlap,
                        text.len() as int,
                    );
                    assert(head.len() == units.len());
                    assert(head[i] == emitted(units[i], offset));
                    assert(0 <= units[i].start <= units[i].end <= text.len());
                } else {
                    let units = choose|units: Seq<UnitView>| #[trigger]
                        is_window_chunking(
                            length_function,
                            text,
                            config.size,
                            config.overlap,
                            offset,
                            units,
                        ) && head == emitted_all(units, 0);
                    assert(head.len() == units.len());
                    assert(head[i] == emitted(units[i], 0));
                    assert(is_window(length_function, text, config.size, offset, units[i]));
                }
            }
        }
    }
}

/// Whatever the strategy, each chunk holds one text, and its span lies
/// within the input and does not end before it starts.
pub proof fn lemma_results_are_spans<F: Fn(&str) -> usize>(
    length_function: Option<F>,
    config: Config,
    segments: Seq<Seq<char>>,
    results: Seq<ResultView>,
)
    requires
        is_split_of(length_function, config, segments, 0, results),
    ensures
        forall|i: int|
            0 <= i < results.len() ==> 0 <= (#[trigger] results[i]).start <= results[i].end
                <= total_len(segments) && results[i].text.len() == 1,
{
    assert(segments.skip(0) =~= segments);
    lemma_results_are_spans_from(length_function, config, segments, 0, results);
}

/// A producer with nothing pending and no segment left hands out nothing,
/// and stays as it is: once exhausted, it is exhausted for good.
pub proof fn lemma_exhausted_stays_exhausted<F: Fn(&str) -> usize>(
    length_function: Option<F>,
    config: Config,
    before: ProducerView,
    handed: Option<ResultView>,
    after: ProducerView,
)
    requires
        before.pending.len() == 0,
        before.segments.len() == 0,
        is_pull(length_function, config, before, handed, after),
    ensures
        handed is None,
        after.pending.len() == 0,
        after.segments.len() == 0,
        after.offset == before.offset,
{
}

/// A pull never moves the producer back: the offset it has reached does
/// not shrink, and the segments left to it are the last of those it had.
pub proof fn lemma_pull_moves_forward<F: Fn(&str) -> usize>(
    length_function: Option<F>,
    config: Config,
    before: ProducerView,
    handed: Option<ResultView>,
    after: ProducerView,
)
    requires
        is_pull(length_function, config, before, handed, after),
    ensures
        before.offset <= after.offset,
        after.segments.len() <= before.segments.len(),
        after.segments == before.segments.skip(before.segments.len() - after.segments.len()),
{
    if before.pending.len() > 0 {
        assert(before.segments.skip(0) =~= before.segments);
    } else {
        let (skipped, results) = choose|skipped: int, results: Seq<ResultView>| #[trigger]
            is_advance(length_function, config, before, skipped, results, handed, after);
        lemma_prefix_len_monotone(before.segments, 0, skipped);
        lemma_prefix_len_monotone(before.segments, 0, skipped + 1);
        if handed is None {
            assert(after.segments =~= before.segments.skip(before.segments.len() as int));
        }
    }
}

} // verus!
