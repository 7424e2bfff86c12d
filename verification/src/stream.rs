use vstd::prelude::*;

use crate::measure::{default_lens, is_measurement, lemma_default_measurement, measures};
use crate::packing::{fits_all, packed};
use crate::paragraphs::paragraph_units;
use crate::range::{lemma_prefix_len_first, prefix_len};
use crate::structs::{ResultView, UnitView};
use crate::text::JOINER;
use crate::windows::{default_windows, is_window_chunking, lemma_default_windows};

verus! {

/// The settings that decide how a segment is cut.
pub struct Config {
    /// The bound on a chunk's measured length.
    pub size: usize,
    /// How much of a chunk the next one repeats: characters between windows,
    /// units between packed paragraphs.
    pub overlap: usize,
    /// Whether segments are cut by paragraphs rather than by windows.
    pub paragraphs: bool,
}

/// The result that a unit becomes, its span moved by `base`.
pub open spec fn emitted(unit: UnitView, base: int) -> ResultView {
    ResultView { text: seq![unit.text], start: base + unit.start, end: base + unit.end }
}

/// The results that `units` become, in order.
pub open spec fn emitted_all(units: Seq<UnitView>, base: int) -> Seq<ResultView> {
    units.map_values(|u: UnitView| emitted(u, base))
}

/// The one result of an empty segment at the global offset `offset`.
pub open spec fn empty_result(offset: int) -> ResultView {
    ResultView { text: seq![Seq::<char>::empty()], start: offset, end: offset }
}

/// Whether `units` come of the paragraphs of `text` when the joiner measures
/// `joiner_len` and the paragraph units measure `fit_lens` where they are
/// tried as they are, `pack_lens` where they are packed: the paragraph units
/// themselves if those fit, else what packing makes of them.
pub open spec fn is_paragraph_outcome<F: Fn(&str) -> usize>(
    length_function: Option<F>,
    text: Seq<char>,
    size: usize,
    overlap: usize,
    joiner_len: usize,
    fit_lens: Seq<usize>,
    pack_lens: Seq<usize>,
    units: Seq<UnitView>,
) -> bool {
    &&& measures(length_function, JOINER@, joiner_len)
    &&& is_measurement(length_function, paragraph_units(text), fit_lens)
    &&& is_measurement(length_function, paragraph_units(text), pack_lens)
    &&& units == if fits_all(fit_lens, joiner_len, size) {
        paragraph_units(text)
    } else {
        packed(paragraph_units(text), pack_lens, joiner_len, size, JOINER@, overlap)
    }
}

/// Whether `units`, with spans inside the segment, are what the paragraph
/// strategy makes of the segment `text`.
pub open spec fn is_paragraph_chunking<F: Fn(&str) -> usize>(
    length_function: Option<F>,
    text: Seq<char>,
    size: usize,
    overlap: usize,
    units: Seq<UnitView>,
) -> bool {
    exists|joiner_len: usize, fit_lens: Seq<usize>, pack_lens: Seq<usize>| #[trigger]
        is_paragraph_outcome(
            length_function,
            text,
            size,
            overlap,
            joiner_len,
            fit_lens,
            pack_lens,
            units,
        )
}

/// Whether `results` are the chunks of the segment `text`, which begins at
/// the global offset `offset`: for an empty segment one empty chunk at that
/// offset; else its windows, or what the paragraph strategy makes of it,
/// moved to that offset.
pub open spec fn is_segment_results<F: Fn(&str) -> usize>(
    length_function: Option<F>,
    config: Config,
    text: Seq<char>,
    offset: int,
    results: Seq<ResultView>,
) -> bool {
    if text.len() == 0 {
        results == seq![empty_result(offset)]
    } else if config.paragraphs {
        exists|units: Seq<UnitView>| #[trigger]
            is_paragraph_chunking(length_function, text, config.size, config.overlap, units)
                && results == emitted_all(units, offset)
    } else {
        exists|units: Seq<UnitView>| #[trigger]
            is_window_chunking(
                length_function,
                text,
                config.size,
                config.overlap,
                offset,
                units,
            ) && results == emitted_all(units, 0)
    }
}

/// Whether `results` are the chunks of `segments`, segment after segment,
/// where the first segment begins at the global offset `offset`.
pub open spec fn is_split_of<F: Fn(&str) -> usize>(
    length_function: Option<F>,
    config: Config,
    segments: Seq<Seq<char>>,
    offset: int,
    results: Seq<ResultView>,
) -> bool
    decreases segments.len(),
{
    if segments.len() == 0 {
        results.len() == 0
    } else {
        exists|k: int|
            0 <= k <= results.len() && is_segment_results(
                length_function,
                config,
                segments[0],
                offset,
                #[trigger] results.take(k),
            ) && is_split_of(
                length_function,
                config,
                segments.drop_first(),
                offset + segments[0].len(),
                results.skip(k),
            )
    }
}

/// What a chunk producer stands for: the segments it has not cut yet, the
/// chunks it has cut and not handed out, and the global offset at which the
/// first of those segments begins.
pub struct ProducerView {
    pub segments: Seq<Seq<char>>,
    pub pending: Seq<ResultView>,
    pub offset: int,
}

/// Whether segment `i` of `segments`, the first of which begins at `offset`,
/// has no chunks.
pub open spec fn yields_nothing<F: Fn(&str) -> usize>(
    length_function: Option<F>,
    config: Config,
    segments: Seq<Seq<char>>,
    offset: int,
    i: int,
) -> bool {
    is_segment_results(
        length_function,
        config,
        segments[i],
        offset + prefix_len(segments, i),
        Seq::empty(),
    )
}

/// Whether a pull that finds no pending chunk may pass over `skipped`
/// segments, which have no chunks, and then either cut the next segment into
/// `results`, hand out the first of them and keep the others; or, where no
/// segment is left, hand out nothing.
pub open spec fn is_advance<F: Fn(&str) -> usize>(
    length_function: Option<F>,
    config: Config,
    before: ProducerView,
    skipped: int,
    results: Seq<ResultView>,
    handed: Option<ResultView>,
    after: ProducerView,
) -> bool {
    &&& 0 <= skipped <= before.segments.len()
    &&& forall|i: int|
        0 <= i < skipped ==> #[trigger] yields_nothing(
            length_function,
            config,
            before.segments,
            before.offset,
            i,
        )
    &&& match handed {
        Some(result) => {
            &&& skipped < before.segments.len()
            &&& is_segment_results(
                length_function,
                config,
                before.segments[skipped],
                before.offset + prefix_len(before.segments, skipped),
                results,
            )
            &&& results.len() > 0
            &&& result == results[0]
            &&& after.pending == results.skip(1)
            &&& after.segments == before.segments.skip(skipped + 1)
            &&& after.offset == before.offset + prefix_len(before.segments, skipped + 1)
        },
        None => {
            &&& skipped == before.segments.len()
            &&& after.pending.len() == 0
            &&& after.segments.len() == 0
            &&& after.offset == before.offset + prefix_len(before.segments, skipped)
        },
    }
}

/// Whether one pull takes the producer from `before` to `after` and hands
/// out `handed`: the first pending chunk where there is one; else the first
/// chunk of the next segment that has any, the rest of its chunks pending;
/// nothing once no segment with a chunk is left.
pub open spec fn is_pull<F: Fn(&str) -> usize>(
    length_function: Option<F>,
    config: Config,
    before: ProducerView,
    handed: Option<ResultView>,
    after: ProducerView,
) -> bool {
    if before.pending.len() > 0 {
        &&& handed == Some(before.pending[0])
        &&& after.pending == before.pending.skip(1)
        &&& after.segments == before.segments
        &&& after.offset == before.offset
    } else {
        exists|skipped: int, results: Seq<ResultView>| #[trigger]
            is_advance(length_function, config, before, skipped, results, handed, after)
    }
}

/// Whether `out` is what the producer may still hand out: its pending chunks,
/// then the chunks of its segments.
pub open spec fn yields<F: Fn(&str) -> usize>(
    length_function: Option<F>,
    config: Config,
    producer: ProducerView,
    out: Seq<ResultView>,
) -> bool {
    &&& producer.pending.len() <= out.len()
    &&& out.take(producer.pending.len() as int) == producer.pending
    &&& is_split_of(
        length_function,
        config,
        producer.segments,
        producer.offset,
        out.skip(producer.pending.len() as int),
    )
}

/// Segments without chunks add nothing to the chunks of those behind them.
pub proof fn lemma_split_after_skipped<F: Fn(&str) -> usize>(
    length_function: Option<F>,
    config: Config,
    segments: Seq<Seq<char>>,
    offset: int,
    skipped: int,
    out: Seq<ResultView>,
)
    requires
        0 <= skipped <= segments.len(),
        forall|i: int|
            0 <= i < skipped ==> #[trigger] yields_nothing(
                length_function,
                config,
                segments,
                offset,
                i,
            ),
        is_split_of(
            length_function,
            config,
            segments.skip(skipped),
            offset + prefix_len(segments, skipped),
            out,
        ),
    ensures
        is_split_of(length_function, config, segments, offset, out),
    decreases skipped,
{
    if skipped == 0 {
        assert(segments.skip(0) =~= segments);
    } else {
        let rest = segments.drop_first();
        let moved = offset + segments[0].len();
        assert forall|i: int| 0 <= i < skipped - 1 implies #[trigger] yields_nothing(
            length_function,
            config,
            rest,
            moved,
            i,
        ) by {
            assert(yields_nothing(length_function, config, segments, offset, i + 1));
            lemma_prefix_len_first(segments, i + 1);
        }
        lemma_prefix_len_first(segments, skipped);
        assert(rest.skip(skipped - 1) =~= segments.skip(skipped));
        lemma_split_after_skipped(length_function, config, rest, moved, skipped - 1, out);
        assert(yields_nothing(length_function, config, segments, offset, 0));
        assert(out.take(0) =~= Seq::empty());
        assert(out.skip(0) =~= out);
    }
}

/// What a pull hands out, and what the producer may hand out after it, is
/// together what it might hand out before.
pub proof fn lemma_pull_yields<F: Fn(&str) -> usize>(
    length_function: Option<F>,
    config: Config,
    before: ProducerView,
    handed: ResultView,
    after: ProducerView,
    rest: Seq<ResultView>,
)
    requires
        is_pull(length_function, config, before, Some(handed), after),
        yields(length_function, config, after, rest),
    ensures
        yields(length_function, config, before, seq![handed] + rest),
{
    let out = seq![handed] + rest;
    let kept = after.pending.len() as int;
    let tail = rest.skip(kept);
    if before.pending.len() > 0 {
        assert(before.pending =~= seq![handed] + after.pending);
        assert(out.take(before.pending.len() as int) =~= before.pending);
        assert(out.skip(before.pending.len() as int) =~= tail);
    } else {
        let (skipped, results) = choose|skipped: int, results: Seq<ResultView>| #[trigger]
            is_advance(length_function, config, before, skipped, results, Some(handed), after);
        assert(results =~= seq![handed] + rest.take(kept));
        assert(out =~= results + tail);
        let behind = before.segments.skip(skipped);
        assert(behind[0] == before.segments[skipped]);
        assert(behind.drop_first() =~= before.segments.skip(skipped + 1));
        assert(out.take(results.len() as int) =~= results);
        assert(out.skip(results.len() as int) =~= tail);
        assert(is_split_of(
            length_function,
            config,
            behind,
            before.offset + prefix_len(before.segments, skipped),
            out,
        ));
        lemma_split_after_skipped(
            length_function,
            config,
            before.segments,
            before.offset,
            skipped,
            out,
        );
        assert(out.take(0) =~= before.pending);
        assert(out.skip(0) =~= out);
    }
}

/// A producer whose pull hands out nothing had nothing left to hand out.
pub proof fn lemma_pull_none<F: Fn(&str) -> usize>(
    length_function: Option<F>,
    config: Config,
    before: ProducerView,
    after: ProducerView,
)
    requires
        is_pull(length_function, config, before, None, after),
    ensures
        yields(length_function, config, before, Seq::empty()),
{
    let (skipped, results) = choose|skipped: int, results: Seq<ResultView>| #[trigger]
        is_advance(length_function, config, before, skipped, results, None, after);
    let out = Seq::<ResultView>::empty();
    assert(before.segments.skip(skipped).len() == 0);
    lemma_split_after_skipped(
        length_function,
        config,
        before.segments,
        before.offset,
        skipped,
        out,
    );
    assert(out.take(0) =~= before.pending);
    assert(out.skip(0) =~= out);
}

/// What the paragraph strategy makes of the segment `text` under the
/// default measure: its paragraph units if they fit as they are, else what
/// packing makes of them.
pub open spec fn default_paragraph_chunking(
    text: Seq<char>,
    size: usize,
    overlap: usize,
) -> Seq<UnitView> {
    let units = paragraph_units(text);
    let joiner_len = JOINER@.len() as usize;
    if fits_all(default_lens(units), joiner_len, size) {
        units
    } else {
        packed(units, default_lens(units), joiner_len, size, JOINER@, overlap)
    }
}

/// The chunks of the segment `text`, which begins at the global offset
/// `offset`, under the default measure.
pub open spec fn default_segment_results(config: Config, text: Seq<char>, offset: int) -> Seq<
    ResultView,
> {
    if text.len() == 0 {
        seq![empty_result(offset)]
    } else if config.paragraphs {
        emitted_all(default_paragraph_chunking(text, config.size, config.overlap), offset)
    } else {
        emitted_all(default_windows(text, config.size, config.overlap, offset), 0)
    }
}

/// The chunks of `segments`, the first of which begins at the global offset
/// `offset`, under the default measure.
pub open spec fn default_split(config: Config, segments: Seq<Seq<char>>, offset: int) -> Seq<
    ResultView,
>
    decreases segments.len(),
{
    if segments.len() == 0 {
        Seq::empty()
    } else {
        default_segment_results(config, segments[0], offset) + default_split(
            config,
            segments.drop_first(),
            offset + segments[0].len(),
        )
    }
}

/// Under the default measure a segment has no other chunks than
/// `default_segment_results` names.
pub proof fn lemma_default_segment_results<F: Fn(&str) -> usize>(
    config: Config,
    text: Seq<char>,
    offset: int,
    results: Seq<ResultView>,
)
    requires
        is_segment_results(None::<F>, config, text, offset, results),
    ensures
        results == default_segment_results(config, text, offset),
{
    if text.len() == 0 {
    } else if config.paragraphs {
        let units = choose|units: Seq<UnitView>| #[trigger]
            is_paragraph_chunking(None::<F>, text, config.size, config.overlap, units) && results
                == emitted_all(units, offset);
        let (joiner_len, fit_lens, pack_lens) = choose|
            joiner_len: usize,
            fit_lens: Seq<usize>,
            pack_lens: Seq<usize>,
        | #[trigger]
            is_paragraph_outcome(
                None::<F>,
                text,
                config.size,
                config.overlap,
                joiner_len,
                fit_lens,
                pack_lens,
                units,
            );
        lemma_default_measurement::<F>(paragraph_units(text), fit_lens);
        lemma_default_measurement::<F>(paragraph_units(text), pack_lens);
    } else {
        let units = choose|units: Seq<UnitView>| #[trigger]
            is_window_chunking(None::<F>, text, config.size, config.overlap, offset, units)
                && results == emitted_all(units, 0);
        lemma_default_windows::<F>(text, config.size, config.overlap, offset, units);
    }
}

/// Under the default measure an input has no other chunks than
/// `default_split` names.
pub proof fn lemma_default_split<F: Fn(&str) -> usize>(
    config: Config,
    segments: Seq<Seq<char>>,
    offset: int,
    results: Seq<ResultView>,
)
    requires
        is_split_of(None::<F>, config, segments, offset, results),
    ensures
        results == default_split(config, segments, offset),
    decreases segments.len(),
{
    if segments.len() == 0 {
        assert(results =~= Seq::<ResultView>::empty());
    } else {
        let k = choose|k: int|
            0 <= k <= results.len() && is_segment_results(
                None::<F>,
                config,
                segments[0],
                offset,
                #[trigger] results.take(k),
            ) && is_split_of(
                None::<F>,
                config,
                segments.drop_first(),
                offset + segments[0].len(),
                results.skip(k),
            );
        lemma_default_segment_results::<F>(config, segments[0], offset, results.take(k));
        lemma_default_split::<F>(
            config,
            segments.drop_first(),
            offset + segments[0].len(),
            results.skip(k),
        );
        assert(results =~= results.take(k) + results.skip(k));
    }
}

/// What a producer has left to hand out under the default measure: its
/// pending chunks, then the chunks of its segments.
pub open spec fn default_remaining(config: Config, producer: ProducerView) -> Seq<ResultView> {
    producer.pending + default_split(config, producer.segments, producer.offset)
}

/// Under the default measure, segments without chunks can be left out of
/// the input.
pub proof fn lemma_default_split_after_skipped<F: Fn(&str) -> usize>(
    config: Config,
    segments: Seq<Seq<char>>,
    offset: int,
    skipped: int,
)
    requires
        0 <= skipped <= segments.len(),
        forall|i: int|
            0 <= i < skipped ==> #[trigger] yields_nothing(
                None::<F>,
                config,
                segments,
                offset,
                i,
            ),
    ensures
        default_split(config, segments, offset) == default_split(
            config,
            segments.skip(skipped),
            offset + prefix_len(segments, skipped),
        ),
    decreases skipped,
{
    if skipped == 0 {
        assert(segments.skip(0) =~= segments);
    } else {
        let rest = segments.drop_first();
        let moved = offset + segments[0].len();
        assert forall|i: int| 0 <= i < skipped - 1 implies #[trigger] yields_nothing(
            None::<F>,
            config,
            rest,
            moved,
            i,
        ) by {
            assert(yields_nothing(None::<F>, config, segments, offset, i + 1));
            lemma_prefix_len_first(segments, i + 1);
        }
        lemma_prefix_len_first(segments, skipped);
        assert(rest.skip(skipped - 1) =~= segments.skip(skipped));
        lemma_default_split_after_skipped::<F>(config, rest, moved, skipped - 1);
        assert(yields_nothing(None::<F>, config, segments, offset, 0));
        lemma_default_segment_results::<F>(config, segments[0], offset, Seq::empty());
        assert(Seq::<ResultView>::empty() + default_split(config, rest, moved) =~= default_split(
            config,
            rest,
            moved,
        ));
    }
}

/// Under the default measure, a pull hands out the first of what the
/// producer has left and leaves it the rest; it hands out nothing only when
/// nothing is left.
pub proof fn lemma_default_pull<F: Fn(&str) -> usize>(
    config: Config,
    before: ProducerView,
    handed: Option<ResultView>,
    after: ProducerView,
)
    requires
        is_pull(None::<F>, config, before, handed, after),
    ensures
        match handed {
            Some(result) => default_remaining(config, before) == seq![result] + default_remaining(
                config,
                after,
            ),
            None => default_remaining(config, before).len() == 0 && default_remaining(
                config,
                after,
            ).len() == 0,
        },
{
    let left = default_split(config, after.segments, after.offset);
    if before.pending.len() > 0 {
        assert(before.pending =~= seq![handed->0] + after.pending);
        assert(default_remaining(config, before) =~= seq![handed->0] + default_remaining(
            config,
            after,
        ));
    } else {
        let (skipped, results) = choose|skipped: int, results: Seq<ResultView>| #[trigger]
            is_advance(None::<F>, config, before, skipped, results, handed, after);
        lemma_default_split_after_skipped::<F>(config, before.segments, before.offset, skipped);
        let behind = before.segments.skip(skipped);
        match handed {
            Some(result) => {
                assert(behind[0] == before.segments[skipped]);
                assert(behind.drop_first() =~= after.segments);
                lemma_default_segment_results::<F>(
                    config,
                    behind[0],
                    before.offset + prefix_len(before.segments, skipped),
                    results,
                );
                assert(results =~= seq![result] + after.pending);
                assert(default_remaining(config, before) =~= seq![result] + default_remaining(
                    config,
                    after,
                ));
            },
            None => {
                assert(behind.len() == 0);
            },
        }
    }
}

} // verus!
