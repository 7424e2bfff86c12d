use vstd::prelude::*;
use vstd::string::{StrSliceExecFns, StringExecFns};

use crate::measure::{
    default_lens, exceeds, fits, is_measurement, is_total, lemma_default_measurement, measures,
};
use crate::packing::{
    fits_all, grown_to, joined, merged, merged_all, next_window, packed, packed_windows,
    unit_texts, window_stop, window_total,
};
use crate::paragraphs::{
    lemma_breaks_ordered, paragraph_breaks, paragraph_units, span_unit, spans_in_order,
    units_between,
};
use crate::structs::{unit_views, ChunkUnit};
use crate::text::{find_breaks, lemma_encode_concat, split_after, trim, utf8_len, PARAGRAPH_BREAK};
use crate::windows::{
    default_windows, is_window, is_window_chunking, is_window_end, lemma_default_windows,
    next_start, window_steps,
};

verus! {

/// The length of `text`: its number of characters, or what the caller's
/// measure returns for it.
pub fn get_length<F: Fn(&str) -> usize>(text: &str, length_function: &Option<F>) -> (n: usize)
    requires
        is_total(*length_function),
    ensures
        measures(*length_function, text@, n),
{
    match length_function {
        Some(f) => f(text),
        None => text.unicode_len(),
    }
}

/// Measures each unit once.
fn measure_units<F: Fn(&str) -> usize>(
    chunk_units: &[ChunkUnit],
    length_function: &Option<F>,
) -> (lens: Vec<usize>)
    requires
        is_total(*length_function),
    ensures
        is_measurement(*length_function, unit_views(chunk_units@), lens@),
{
    let mut lens: Vec<usize> = Vec::new();
    let mut k: usize = 0;
    while k < chunk_units.len()
        invariant
            is_total(*length_function),
            k <= chunk_units.len(),
            lens.len() == k,
            forall|i: int|
                0 <= i < k ==> measures(
                    *length_function,
                    unit_views(chunk_units@)[i].text,
                    #[trigger] lens[i],
                ),
        decreases chunk_units.len() - k,
    {
        let n = get_length(chunk_units[k].unit.as_str(), length_function);
        lens.push(n);
        k = k + 1;
    }
    lens
}

/// Adds the unit of one span, if it has one.
fn push_span_unit(
    units: &mut Vec<ChunkUnit>,
    piece: &str,
    start: usize,
    end: usize,
    Ghost(text): Ghost<Seq<char>>,
)
    requires
        piece@ == text.subrange(start as int, end as int),
    ensures
        unit_views(final(units)@) == unit_views(old(units)@) + span_unit(
            text,
            start as int,
            end as int,
        ),
{
    let unit = trim(piece);
    if !unit.is_empty() {
        units.push(ChunkUnit { unit: unit.to_owned(), start, end });
        assert(unit_views(units@) =~= unit_views(old(units)@) + span_unit(
            text,
            start as int,
            end as int,
        ));
    } else {
        assert(unit_views(units@) =~= unit_views(old(units)@) + span_unit(
            text,
            start as int,
            end as int,
        ));
    }
}

/// Splits `text` into its paragraph units: the spans between runs of two or
/// more newlines that hold more than white space. A unit's text is trimmed;
/// its span is that of the untrimmed paragraph, in characters from the start
/// of `text`.
pub fn get_units(text: &str) -> (units: Vec<ChunkUnit>)
    ensures
        unit_views(units@) == paragraph_units(text@),
{
    let ghost breaks = paragraph_breaks(text@);
    let text_len = text.unicode_len();
    let spans = find_breaks(PARAGRAPH_BREAK, text);
    let mut units: Vec<ChunkUnit> = Vec::new();
    let mut rest = text;
    let mut chars: usize = 0;
    let mut bytes: usize = 0;
    let mut k: usize = 0;
    proof {
        lemma_breaks_ordered(text@, 0);
        assert(text@.skip(0) =~= text@);
        assert(text@.take(0) =~= Seq::<char>::empty());
        assert(unit_views(units@) + units_between(text@, breaks, 0, 0) =~= paragraph_units(
            text@,
        ));
    }
    while k < spans.len()
        invariant
            breaks == paragraph_breaks(text@),
            spans_in_order(breaks, 0, text@.len() as int),
            text_len == text@.len(),
            spans@.len() == breaks.len(),
            forall|i: int|
                0 <= i < spans@.len() ==> (#[trigger] spans@[i]).0 == utf8_len(
                    text@.take(breaks[i].0),
                ) && spans@[i].1 == utf8_len(text@.take(breaks[i].1)),
            k <= spans.len(),
            chars <= text_len,
            k == 0 ==> chars == 0,
            k > 0 ==> chars == breaks[k - 1].1,
            rest@ == text@.skip(chars as int),
            bytes == utf8_len(text@.take(chars as int)),
            unit_views(units@) + units_between(text@, breaks, k as int, chars as int)
                == paragraph_units(text@),
        decreases spans.len() - k,
    {
        let span = spans[k];
        let ghost from = breaks[k as int].0;
        let ghost to = breaks[k as int].1;
        proof {
            if k > 0 {
                assert(breaks[k - 1].1 <= breaks[k as int].0);
            }
            assert(text@.take(from) =~= text@.take(chars as int) + text@.subrange(
                chars as int,
                from,
            ));
            lemma_encode_concat(text@.take(chars as int), text@.subrange(chars as int, from));
            assert(rest@.take(from - chars) =~= text@.subrange(chars as int, from));
            assert(text@.take(to) =~= text@.take(from) + text@.subrange(from, to));
            lemma_encode_concat(text@.take(from), text@.subrange(from, to));
        }
        let (piece, tail) = split_after(rest, span.0 - bytes, Ghost(from - chars));
        proof {
            assert(tail@ =~= text@.skip(from));
            assert(tail@.take(to - from) =~= text@.subrange(from, to));
        }
        let (gap, after) = split_after(tail, span.1 - span.0, Ghost(to - from));
        let piece_len = piece.unicode_len();
        let gap_len = gap.unicode_len();
        let ghost before = unit_views(units@);
        push_span_unit(&mut units, piece, chars, chars + piece_len, Ghost(text@));
        proof {
            assert(after@ =~= text@.skip(to));
            assert(before + (span_unit(text@, chars as int, from) + units_between(
                text@,
                breaks,
                k + 1,
                to,
            )) =~= (before + span_unit(text@, chars as int, from)) + units_between(
                text@,
                breaks,
                k + 1,
                to,
            ));
        }
        chars = chars + piece_len + gap_len;
        bytes = span.1;
        rest = after;
        k = k + 1;
    }
    proof {
        assert(rest@ =~= text@.subrange(chars as int, text_len as int));
    }
    let rest_len = rest.unicode_len();
    push_span_unit(&mut units, rest, chars, chars + rest_len, Ghost(text@));
    units
}

/// Says whether the units fit into one chunk as they are: each of them by
/// itself, and all of them with a joiner between each two. Every unit is
/// measured once.
pub fn can_fit_all_units<F: Fn(&str) -> usize>(
    chunk_units: &[ChunkUnit],
    length_function: &Option<F>,
    chunk_size: usize,
    joiner_len: usize,
) -> (fit: bool)
    requires
        is_total(*length_function),
    ensures
        exists|lens: Seq<usize>|
            #[trigger] is_measurement(*length_function, unit_views(chunk_units@), lens) && fit
                == fits_all(lens, joiner_len, chunk_size),
        *length_function is None ==> fit == fits_all(
            default_lens(unit_views(chunk_units@)),
            joiner_len,
            chunk_size,
        ),
{
    let lens = measure_units(chunk_units, length_function);
    proof {
        if *length_function is None {
            lemma_default_measurement::<F>(unit_views(chunk_units@), lens@);
        }
    }
    let n = lens.len();
    let mut each_fits = true;
    let mut over = false;
    let mut total: usize = 0;
    let mut k: usize = 0;
    while k < n
        invariant
            n == lens.len(),
            k <= n,
            each_fits == (forall|i: int| 0 <= i < k ==> #[trigger] lens[i] <= chunk_size),
            over ==> window_total(lens@, joiner_len, 0, k as int) > chunk_size,
            !over ==> total == window_total(lens@, joiner_len, 0, k as int) && total
                <= chunk_size,
        decreases n - k,
    {
        if lens[k] > chunk_size {
            each_fits = false;
        }
        if !over {
            let with_joiner = if k > 0 {
                total.checked_add(joiner_len)
            } else {
                Some(total)
            };
            let grown = match with_joiner {
                Some(sum) => sum.checked_add(lens[k]),
                None => None,
            };
            match grown {
                Some(sum) => {
                    if sum > chunk_size {
                        over = true;
                    } else {
                        total = sum;
                    }
                },
                None => {
                    over = true;
                },
            }
        }
        k = k + 1;
    }
    each_fits && !over
}

/// Finds by bisection where the window that starts at `start` ends.
fn window_end<F: Fn(&str) -> usize>(
    text: &str,
    text_len: usize,
    start: usize,
    chunk_size: usize,
    length_function: &Option<F>,
) -> (end: usize)
    requires
        is_total(*length_function),
        text_len == text@.len(),
        start < text_len,
    ensures
        is_window_end(*length_function, text@, chunk_size, start as int, end as int),
{
    // Every end up to `fit` that was measured fits, and `fit` is `start`
    // while none does; the end after `high` was measured and does not fit.
    let mut fit: usize = start;
    let mut high: usize = text_len;
    while fit < high
        invariant
            is_total(*length_function),
            text_len == text@.len(),
            start <= fit <= high <= text_len,
            start < text_len,
            high == text_len || exceeds(
                *length_function,
                text@.subrange(start as int, high + 1),
                chunk_size,
            ),
            fit == start || fits(
                *length_function,
                text@.subrange(start as int, fit as int),
                chunk_size,
            ),
        decreases high - fit,
    {
        let gap = high - fit;
        let mid = fit + gap / 2 + gap % 2;
        let len = get_length(text.substring_char(start, mid), length_function);
        if len <= chunk_size {
            fit = mid;
        } else {
            high = mid - 1;
        }
    }
    if fit == start {
        start + 1
    } else {
        fit
    }
}

/// Cuts `current_text` into windows of characters. A window ends where
/// bisection over the measure puts the largest end whose text measures at
/// most `chunk_size`; it holds at least one character, also where that one
/// character measures more. The window after it starts `chunk_overlap`
/// characters before that end, and at least one character after its own
/// start: an overlap as long as the window or longer moves on by one
/// character. Spans count from `start_offset`.
///
/// Bisection finds the largest end where the measure never shrinks as text
/// grows, as counting characters never does (`lemma_window_end_is_largest`).
pub fn chunk_by_character<F: Fn(&str) -> usize>(
    current_text: &str,
    chunk_size: usize,
    length_function: &Option<F>,
    chunk_overlap: usize,
    start_offset: usize,
) -> (chunks: Vec<ChunkUnit>)
    requires
        is_total(*length_function),
        start_offset + current_text@.len() <= usize::MAX,
    ensures
        is_window_chunking(
            *length_function,
            current_text@,
            chunk_size,
            chunk_overlap,
            start_offset as int,
            unit_views(chunks@),
        ),
        *length_function is None ==> unit_views(chunks@) == default_windows(
            current_text@,
            chunk_size,
            chunk_overlap,
            start_offset as int,
        ),
{
    let text_len = current_text.unicode_len();
    let mut chunks: Vec<ChunkUnit> = Vec::new();
    if text_len == 0 {
        assert(unit_views(chunks@) =~= default_windows(
            current_text@,
            chunk_size,
            chunk_overlap,
            start_offset as int,
        ));
        return chunks;
    }
    let ghost limit = start_offset + text_len;
    let mut start: usize = 0;
    loop
        invariant_except_break
            start < text_len,
            chunks.len() == 0 ==> start == 0,
            chunks.len() > 0 ==> unit_views(chunks@).last().end < limit && start_offset + start
                == next_start(
                unit_views(chunks@).last().start,
                unit_views(chunks@).last().end,
                chunk_overlap as int,
            ),
        invariant
            is_total(*length_function),
            text_len == current_text@.len(),
            limit == start_offset + text_len,
            limit <= usize::MAX,
            chunks.len() > 0 ==> unit_views(chunks@).first().start == start_offset,
            forall|k: int|
                0 <= k < chunks.len() ==> is_window(
                    *length_function,
                    current_text@,
                    chunk_size,
                    start_offset as int,
                    #[trigger] unit_views(chunks@)[k],
                ),
            forall|k: int|
                0 <= k < chunks.len() - 1 ==> #[trigger] window_steps(
                    unit_views(chunks@),
                    k,
                    chunk_overlap as int,
                    limit,
                ),
        ensures
            chunks.len() > 0,
            unit_views(chunks@).last().end == limit,
        decreases text_len - start,
    {
        let end = window_end(current_text, text_len, start, chunk_size, length_function);
        let unit = current_text.substring_char(start, end).to_owned();
        let ghost before = unit_views(chunks@);
        chunks.push(ChunkUnit { unit, start: start_offset + start, end: start_offset + end });
        proof {
            let after = unit_views(chunks@);
            assert(after =~= before.push(after.last()));
            assert forall|k: int| 0 <= k < after.len() - 1 implies #[trigger] window_steps(
                after,
                k,
                chunk_overlap as int,
                limit,
            ) by {
                if k < before.len() - 1 {
                    assert(window_steps(before, k, chunk_overlap as int, limit));
                }
            }
        }
        if end >= text_len {
            break;
        }
        if end - start > chunk_overlap && end - chunk_overlap > start + 1 {
            start = end - chunk_overlap;
        } else {
            start = start + 1;
        }
    }
    proof {
        if *length_function is None {
            lemma_default_windows::<F>(
                current_text@,
                chunk_size,
                chunk_overlap,
                start_offset as int,
                unit_views(chunks@),
            );
        }
    }
    chunks
}

/// Joins the texts of the units from `i` up to `j`.
fn join_units(chunk_units: &[ChunkUnit], i: usize, j: usize, joiner: &str) -> (text: String)
    requires
        i < j <= chunk_units.len(),
    ensures
        text@ == joined(unit_texts(unit_views(chunk_units@), i as int, j as int), joiner@),
{
    let ghost units = unit_views(chunk_units@);
    let mut text = chunk_units[i].unit.clone();
    let mut k: usize = i + 1;
    assert(unit_texts(units, i as int, k as int) =~= seq![units[i as int].text]);
    while k < j
        invariant
            i < k <= j <= chunk_units.len(),
            units == unit_views(chunk_units@),
            text@ == joined(unit_texts(units, i as int, k as int), joiner@),
        decreases j - k,
    {
        text.append(joiner);
        text.append(chunk_units[k].unit.as_str());
        proof {
            let grown = unit_texts(units, i as int, k + 1);
            assert(grown.drop_last() =~= unit_texts(units, i as int, k as int));
            assert(grown.last() == units[k as int].text);
        }
        k = k + 1;
    }
    text
}

/// Packs paragraph units into windows, greedily: each window takes its first
/// unit, whatever that measures, then each further unit while the texts with
/// the joiners between them still measure at most `chunk_size`. A unit that
/// alone measures more than `chunk_size` is thus a chunk by itself, not cut
/// further. The window after `[i, j)` starts `chunk_overlap` units before
/// `j`, and at least one unit after `i`. Each window becomes one unit: its
/// texts joined by `joiner`, from the start of its first unit to the end of
/// its last. Every unit is measured once.
pub fn chunk_by_greedy_sliding_window<F: Fn(&str) -> usize>(
    chunk_units: &[ChunkUnit],
    length_function: &Option<F>,
    joiner_len: usize,
    chunk_size: usize,
    joiner: &str,
    chunk_overlap: usize,
) -> (chunks: Vec<ChunkUnit>)
    requires
        is_total(*length_function),
    ensures
        exists|lens: Seq<usize>|
            #[trigger] is_measurement(*length_function, unit_views(chunk_units@), lens)
                && unit_views(chunks@) == packed(
                unit_views(chunk_units@),
                lens,
                joiner_len,
                chunk_size,
                joiner@,
                chunk_overlap,
            ),
        *length_function is None ==> unit_views(chunks@) == packed(
            unit_views(chunk_units@),
            default_lens(unit_views(chunk_units@)),
            joiner_len,
            chunk_size,
            joiner@,
            chunk_overlap,
        ),
{
    let ghost units = unit_views(chunk_units@);
    let lens = measure_units(chunk_units, length_function);
    proof {
        if *length_function is None {
            lemma_default_measurement::<F>(unit_views(chunk_units@), lens@);
        }
    }
    let n = chunk_units.len();
    let mut chunks: Vec<ChunkUnit> = Vec::new();
    let ghost mut done: Seq<(int, int)> = Seq::empty();
    let mut i: usize = 0;
    assert(unit_views(chunks@) =~= merged_all(units, joiner@, done));
    while i < n
        invariant
            n == chunk_units.len(),
            n == lens.len(),
            units == unit_views(chunk_units@),
            unit_views(chunks@) == merged_all(units, joiner@, done),
            done + packed_windows(lens@, joiner_len, chunk_size, chunk_overlap, i as int)
                == packed_windows(lens@, joiner_len, chunk_size, chunk_overlap, 0),
        decreases n - i,
    {
        let mut total: usize = lens[i];
        let mut j: usize = i + 1;
        while j < n
            invariant_except_break
                grown_to(lens@, joiner_len, chunk_size, j as int, total as int) == window_stop(
                    lens@,
                    joiner_len,
                    chunk_size,
                    i as int,
                ),
            invariant
                i < j <= n,
                n == lens.len(),
            ensures
                j == window_stop(lens@, joiner_len, chunk_size, i as int),
            decreases n - j,
        {
            let with_joiner = total.checked_add(joiner_len);
            let grown = match with_joiner {
                Some(sum) => sum.checked_add(lens[j]),
                None => None,
            };
            match grown {
                Some(sum) => {
                    if sum > chunk_size {
                        break;
                    }
                    total = sum;
                },
                None => {
                    break;
                },
            }
            j = j + 1;
        }
        let unit = join_units(chunk_units, i, j, joiner);
        let ghost before = chunks@;
        chunks.push(ChunkUnit { unit, start: chunk_units[i].start, end: chunk_units[j - 1].end });
        proof {
            let rest = packed_windows(
                lens@,
                joiner_len,
                chunk_size,
                chunk_overlap,
                next_window(i as int, j as int, chunk_overlap as int),
            );
            assert(packed_windows(lens@, joiner_len, chunk_size, chunk_overlap, i as int)
                == seq![(i as int, j as int)] + rest);
            assert(done.push((i as int, j as int)) + rest =~= done + (seq![(i as int, j as int)]
                + rest));
            assert(unit_views(chunks@) =~= unit_views(before).push(
                merged(units, joiner@, i as int, j as int),
            ));
            assert(merged_all(units, joiner@, done.push((i as int, j as int))) =~= merged_all(
                units,
                joiner@,
                done,
            ).push(merged(units, joiner@, i as int, j as int)));
            done = done.push((i as int, j as int));
        }
        if j - i > chunk_overlap && j - chunk_overlap > i + 1 {
            i = j - chunk_overlap;
        } else {
            i = i + 1;
        }
    }
    assert(done =~= packed_windows(lens@, joiner_len, chunk_size, chunk_overlap, 0));
    chunks
}

} // verus!
