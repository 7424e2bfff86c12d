use std::collections::VecDeque;
use vstd::prelude::*;
use vstd::string::StrSliceExecFns;

use crate::measure::{is_measurement, is_total};
use crate::packing::{fits_all, lemma_packed_within, packed};
use crate::paragraphs::{lemma_paragraph_units_in_order, paragraph_units};
use crate::range::{lemma_prefix_len_first, lemma_prefix_len_monotone, prefix_len, total_len};
use crate::stream::{
    default_remaining, emitted, emitted_all, empty_result, is_advance, is_paragraph_chunking,
    is_paragraph_outcome, is_pull, is_segment_results, lemma_default_pull, yields_nothing, Config,
    ProducerView,
};
use crate::text::JOINER;
use crate::utils::{
    can_fit_all_units, chunk_by_character, chunk_by_greedy_sliding_window, get_length, get_units,
};
use crate::windows::is_window_chunking;

verus! {

/// How a segment is cut into chunks.
#[derive(Clone, Copy, Debug, PartialEq, Eq, Structural)]
pub enum ChunkStrategy {
    /// Windows of characters, each as long as the size bound allows.
    CharacterWindow,
    /// Paragraphs, packed greedily where they do not all fit at once.
    Paragraph,
}

/// A piece of one segment together with the span it was taken from.
#[derive(Clone, Debug, PartialEq, Eq)]
pub struct ChunkUnit {
    pub unit: String,
    pub start: usize,
    pub end: usize,
}

/// A chunk as it is handed out: its text and its span in the whole input.
#[derive(Clone, Debug, PartialEq, Eq)]
pub struct ChunkResult {
    pub text: Vec<String>,
    pub start: u32,
    pub end: u32,
}

/// What a `ChunkUnit` stands for: characters and a half-open span.
pub struct UnitView {
    pub text: Seq<char>,
    pub start: int,
    pub end: int,
}

/// What a `ChunkResult` stands for.
pub struct ResultView {
    pub text: Seq<Seq<char>>,
    pub start: int,
    pub end: int,
}

impl View for ChunkUnit {
    type V = UnitView;

    open spec fn view(&self) -> UnitView {
        UnitView { text: self.unit@, start: self.start as int, end: self.end as int }
    }
}

impl View for ChunkResult {
    type V = ResultView;

    open spec fn view(&self) -> ResultView {
        ResultView { text: texts(self.text@), start: self.start as int, end: self.end as int }
    }
}

/// The character sequences that a list of strings holds.
pub open spec fn texts(strings: Seq<String>) -> Seq<Seq<char>> {
    strings.map_values(|s: String| s@)
}

/// The views of a list of units.
pub open spec fn unit_views(units: Seq<ChunkUnit>) -> Seq<UnitView> {
    units.map_values(|u: ChunkUnit| u@)
}

/// The view of what a pull hands out.
pub open spec fn handed_view(result: Option<ChunkResult>) -> Option<ResultView> {
    match result {
        Some(chunk) => Some(chunk@),
        None => None,
    }
}

/// The views of a list of results.
pub open spec fn result_views(results: Seq<ChunkResult>) -> Seq<ResultView> {
    results.map_values(|r: ChunkResult| r@)
}

/// How the input is to be cut. What is left unset takes its default.
pub struct SplitOptions<F> {
    /// The bound on a chunk's measured length; 512 where unset.
    pub chunk_size: Option<u32>,
    /// How much of a chunk the next one repeats; 0 where unset. Windows of
    /// characters count it in characters, packed paragraphs in units.
    pub chunk_overlap: Option<u32>,
    /// The caller's measure of a text's length; the number of characters
    /// where unset.
    pub length_function: Option<F>,
    /// The strategy; windows of characters where unset.
    pub chunk_strategy: Option<ChunkStrategy>,
}

impl<F: Fn(&str) -> usize> SplitOptions<F> {
    /// The default options, spelled out.
    pub fn default() -> (options: Self)
        ensures
            options.chunk_size == Some(512u32),
            options.chunk_overlap == Some(0u32),
            options.length_function is None,
            options.chunk_strategy is None,
    {
        SplitOptions {
            chunk_size: Option::Some(512_u32),
            chunk_overlap: Option::Some(0_u32),
            length_function: Option::None,
            chunk_strategy: Option::None,
        }
    }
}

/// The settings that `options` stand for.
pub open spec fn config_of<F>(options: Option<SplitOptions<F>>) -> Config {
    match options {
        Some(set) => Config {
            size: match set.chunk_size {
                Some(size) => size as usize,
                None => 512,
            },
            overlap: match set.chunk_overlap {
                Some(overlap) => overlap as usize,
                None => 0,
            },
            paragraphs: set.chunk_strategy == Some(ChunkStrategy::Paragraph),
        },
        None => Config { size: 512, overlap: 0, paragraphs: false },
    }
}

/// The caller's measure in `options`, if there is one.
pub open spec fn measure_of<F>(options: Option<SplitOptions<F>>) -> Option<F> {
    match options {
        Some(set) => set.length_function,
        None => None,
    }
}

/// Produces the chunks of an input one by one, cutting each segment only
/// when its first chunk is asked for.
pub struct ChunkIterator<F> {
    text: VecDeque<String>,
    split_options: SplitOptions<F>,
    chunk_units: VecDeque<ChunkUnit>,
    chunk_unit_global_offset: u32,
    global_offset: u32,
    chunk_size: usize,
    chunk_overlap: usize,
}

impl<F: Fn(&str) -> usize> View for ChunkIterator<F> {
    type V = ProducerView;

    closed spec fn view(&self) -> ProducerView {
        ProducerView {
            segments: texts(self.text@),
            pending: emitted_all(
                unit_views(self.chunk_units@),
                self.chunk_unit_global_offset as int,
            ),
            offset: self.global_offset as int,
        }
    }
}

/// Moves the items of a list into a queue, in order.
fn into_queue<T>(items: Vec<T>) -> (queue: VecDeque<T>)
    ensures
        queue@ == items@,
{
    let mut items = items;
    let mut queue: VecDeque<T> = VecDeque::new();
    let ghost all = items@;
    while items.len() > 0
        invariant
            items@ + queue@ == all,
        decreases items.len(),
    {
        let ghost before = items@;
        let ghost queued = queue@;
        match items.pop() {
            Some(item) => {
                queue.push_front(item);
                assert(items@ + queue@ =~= before + queued);
            },
            None => {},
        }
    }
    assert(queue@ =~= items@ + queue@);
    queue
}

impl<F: Fn(&str) -> usize> ChunkIterator<F> {
    /// The settings this producer cuts by.
    pub closed spec fn config(&self) -> Config {
        Config {
            size: self.chunk_size,
            overlap: self.chunk_overlap,
            paragraphs: self.split_options.chunk_strategy == Some(ChunkStrategy::Paragraph),
        }
    }

    /// The caller's measure, if one is set.
    pub closed spec fn length_function(&self) -> Option<F> {
        self.split_options.length_function
    }

    /// Whether the producer is in order: its measure takes every text, the
    /// input still to come ends within `u32`, and no pending chunk reaches
    /// beyond what has been cut.
    pub closed spec fn wf(&self) -> bool {
        &&& is_total(self.split_options.length_function)
        &&& self.global_offset + total_len(texts(self.text@)) <= u32::MAX
        &&& forall|k: int|
            0 <= k < self.chunk_units@.len() ==> self.chunk_unit_global_offset + (
            #[trigger] self.chunk_units@[k]).start <= self.global_offset
                && self.chunk_unit_global_offset + self.chunk_units@[k].end <= self.global_offset
    }

    /// A producer over the segments `text`, with nothing cut yet.
    pub fn new(text: Vec<String>, split_options: Option<SplitOptions<F>>) -> (producer: Self)
        requires
            is_total(measure_of(split_options)),
            total_len(texts(text@)) <= u32::MAX,
        ensures
            producer.wf(),
            producer@ == (ProducerView {
                segments: texts(text@),
                pending: Seq::empty(),
                offset: 0,
            }),
            producer.config() == config_of(split_options),
            producer.length_function() == measure_of(split_options),
    {
        let split_options = match split_options {
            Some(set) => set,
            None => SplitOptions::default(),
        };
        let chunk_size = match split_options.chunk_size {
            Some(size) => size as usize,
            None => 512,
        };
        let chunk_overlap = match split_options.chunk_overlap {
            Some(overlap) => overlap as usize,
            None => 0,
        };
        let producer = ChunkIterator {
            text: into_queue(text),
            split_options,
            chunk_units: VecDeque::new(),
            chunk_unit_global_offset: 0,
            global_offset: 0,
            chunk_size,
            chunk_overlap,
        };
        assert(producer@.pending =~= Seq::empty());
        producer
    }

    /// The chunk of a unit, its span moved to global offsets.
    fn generate_chunk_result(&self, chunk_unit: ChunkUnit) -> (result: Option<ChunkResult>)
        requires
            self.chunk_unit_global_offset + chunk_unit.start <= u32::MAX,
            self.chunk_unit_global_offset + chunk_unit.end <= u32::MAX,
        ensures
            result matches Some(chunk) && chunk@ == emitted(
                chunk_unit@,
                self.chunk_unit_global_offset as int,
            ),
    {
        let start = self.chunk_unit_global_offset + chunk_unit.start as u32;
        let end = self.chunk_unit_global_offset + chunk_unit.end as u32;
        let chunk_result = ChunkResult { text: vec![chunk_unit.unit], start, end };
        assert(chunk_result@.text =~= seq![chunk_unit.unit@]);
        Some(chunk_result)
    }

    /// Whether this producer cuts by paragraphs.
    fn by_paragraphs(&self) -> (paragraphs: bool)
        ensures
            paragraphs == self.config().paragraphs,
    {
        match self.split_options.chunk_strategy {
            Some(ChunkStrategy::Paragraph) => true,
            _ => false,
        }
    }

    /// Cuts one segment that is not empty, by the producer's strategy, and
    /// says by how much the spans of its units are to be moved.
    fn cut(&self, current_text: &str) -> (cut: (Vec<ChunkUnit>, u32))
        requires
            self.wf(),
            current_text@.len() > 0,
            self.global_offset + current_text@.len() <= u32::MAX,
        ensures
            is_segment_results(
                self.length_function(),
                self.config(),
                current_text@,
                self.global_offset as int,
                emitted_all(unit_views(cut.0@), cut.1 as int),
            ),
            forall|k: int|
                0 <= k < cut.0@.len() ==> cut.1 + (#[trigger] cut.0@[k]).start
                    <= self.global_offset + current_text@.len() && cut.1 + cut.0@[k].end
                    <= self.global_offset + current_text@.len(),
    {
        if self.by_paragraphs() {
            let chunk_units = get_units(current_text);
            let joiner_len = get_length(JOINER, &self.split_options.length_function);
            let fit = can_fit_all_units(
                chunk_units.as_slice(),
                &self.split_options.length_function,
                self.chunk_size,
                joiner_len,
            );
            let ghost fit_lens = choose|lens: Seq<usize>| #[trigger]
                is_measurement(self.length_function(), unit_views(chunk_units@), lens) && fit
                    == fits_all(lens, joiner_len, self.chunk_size);
            proof {
                lemma_paragraph_units_in_order(current_text@);
            }
            if fit {
                proof {
                    assert(is_paragraph_outcome(
                        self.length_function(),
                        current_text@,
                        self.chunk_size,
                        self.chunk_overlap,
                        joiner_len,
                        fit_lens,
                        fit_lens,
                        unit_views(chunk_units@),
                    ));
                    assert(is_paragraph_chunking(
                        self.length_function(),
                        current_text@,
                        self.config().size,
                        self.config().overlap,
                        unit_views(chunk_units@),
                    ));
                    assert forall|k: int| 0 <= k < chunk_units@.len() implies (
                    #[trigger] chunk_units@[k]).start <= current_text@.len()
                        && chunk_units@[k].end <= current_text@.len() by {
                        assert(unit_views(chunk_units@)[k] == chunk_units@[k]@);
                    }
                }
                (chunk_units, self.global_offset)
            } else {
                let chunks = chunk_by_greedy_sliding_window(
                    chunk_units.as_slice(),
                    &self.split_options.length_function,
                    joiner_len,
                    self.chunk_size,
                    JOINER,
                    self.chunk_overlap,
                );
                proof {
                    let pack_lens = choose|lens: Seq<usize>| #[trigger]
                        is_measurement(self.length_function(), unit_views(chunk_units@), lens)
                            && unit_views(chunks@) == packed(
                            unit_views(chunk_units@),
                            lens,
                            joiner_len,
                            self.chunk_size,
                            JOINER@,
                            self.chunk_overlap,
                        );
                    assert(is_paragraph_outcome(
                        self.length_function(),
                        current_text@,
                        self.chunk_size,
                        self.chunk_overlap,
                        joiner_len,
                        fit_lens,
                        pack_lens,
                        unit_views(chunks@),
                    ));
                    assert(is_paragraph_chunking(
                        self.length_function(),
                        current_text@,
                        self.config().size,
                        self.config().overlap,
                        unit_views(chunks@),
                    ));
                    lemma_packed_within(
                        paragraph_units(current_text@),
                        pack_lens,
                        joiner_len,
                        self.chunk_size,
                        JOINER@,
                        self.chunk_overlap,
                        current_text@.len() as int,
                    );
                    assert forall|k: int| 0 <= k < chunks@.len() implies (
                    #[trigger] chunks@[k]).start <= current_text@.len() && chunks@[k].end
                        <= current_text@.len() by {
                        assert(unit_views(chunks@)[k] == chunks@[k]@);
                    }
                }
                (chunks, self.global_offset)
            }
        } else {
            let chunks = chunk_by_character(
                current_text,
                self.chunk_size,
                &self.split_options.length_function,
                self.chunk_overlap,
                self.global_offset as usize,
            );
            proof {
                assert(is_window_chunking(
                    self.length_function(),
                    current_text@,
                    self.config().size,
                    self.config().overlap,
                    self.global_offset as int,
                    unit_views(chunks@),
                ));
                assert forall|k: int| 0 <= k < chunks@.len() implies (
                #[trigger] chunks@[k]).start <= self.global_offset + current_text@.len()
                    && chunks@[k].end <= self.global_offset + current_text@.len() by {
                    assert(unit_views(chunks@)[k] == chunks@[k]@);
                }
            }
            (chunks, 0)
        }
    }

    /// Hands out the next chunk, or `None` once there is none left: the
    /// first pending chunk where there is one; else the first chunk of the
    /// next segment that has any, the others pending. A segment that is not
    /// empty and has no chunk, as one of white space has none under the
    /// paragraph strategy, is passed over.
    pub fn next(&mut self) -> (result: Option<ChunkResult>)
        requires
            old(self).wf(),
        ensures
            final(self).wf(),
            final(self).config() == old(self).config(),
            final(self).length_function() == old(self).length_function(),
            is_pull(
                old(self).length_function(),
                old(self).config(),
                old(self)@,
                handed_view(result),
                final(self)@,
            ),
            old(self).length_function() is None ==> match result {
                Some(chunk) => default_remaining(old(self).config(), old(self)@) == seq![chunk@]
                    + default_remaining(old(self).config(), final(self)@),
                None => default_remaining(old(self).config(), old(self)@).len() == 0,
            },
    {
        let ghost before = self@;
        let ghost config = self.config();
        let ghost measure = self.length_function();
        match self.chunk_units.pop_front() {
            Some(chunk_unit) => {
                let result = self.generate_chunk_result(chunk_unit);
                proof {
                    assert(before.pending[0] == emitted(
                        chunk_unit@,
                        self.chunk_unit_global_offset as int,
                    ));
                    assert(self@.pending =~= before.pending.skip(1));
                    assert(is_pull(measure, config, before, handed_view(result), self@));
                    if measure is None {
                        lemma_default_pull::<F>(config, before, handed_view(result), self@);
                    }
                }
                return result;
            },
            None => {},
        }
        let ghost mut skipped: int = 0;
        proof {
            assert(before.segments.skip(0) =~= before.segments);
            assert(before.pending.len() == 0);
        }
        loop
            invariant
                before == old(self)@,
                config == old(self).config(),
                measure == old(self).length_function(),
                self.wf(),
                self.config() == config,
                self.length_function() == measure,
                self.chunk_units@.len() == 0,
                before.pending.len() == 0,
                0 <= skipped <= before.segments.len(),
                texts(self.text@) == before.segments.skip(skipped),
                self.global_offset == before.offset + prefix_len(before.segments, skipped),
                forall|i: int|
                    0 <= i < skipped ==> #[trigger] yields_nothing(
                        measure,
                        config,
                        before.segments,
                        before.offset,
                        i,
                    ),
            decreases self.text@.len(),
        {
            let ghost segments = texts(self.text@);
            let current = self.text.pop_front();
            let current_text = match current {
                Some(text) => text,
                None => {
                    proof {
                        assert(self@.pending =~= Seq::empty());
                        assert(is_advance(
                            measure,
                            config,
                            before,
                            skipped,
                            Seq::empty(),
                            None,
                            self@,
                        ));
                        assert(is_pull(measure, config, before, handed_view(None), self@));
                        if measure is None {
                            lemma_default_pull::<F>(config, before, handed_view(None), self@);
                        }
                    }
                    return None;
                },
            };
            proof {
                assert(segments[0] == current_text@);
                assert(before.segments[skipped] == current_text@);
                assert(texts(self.text@) =~= segments.drop_first());
                assert(texts(self.text@) =~= before.segments.skip(skipped + 1));
                lemma_prefix_len_first(segments, segments.len() as int);
                lemma_prefix_len_monotone(segments.drop_first(), 0, segments.len() - 1);
            }
            if current_text.as_str().is_empty() {
                self.chunk_unit_global_offset = self.global_offset;
                let result = self.generate_chunk_result(
                    ChunkUnit { unit: String::new(), start: 0, end: 0 },
                );
                proof {
                    let results = seq![empty_result(self.global_offset as int)];
                    assert(self@.pending =~= results.skip(1));
                    assert(result->0@ == results[0]);
                    assert(is_advance(
                        measure,
                        config,
                        before,
                        skipped,
                        results,
                        Some(result->0@),
                        self@,
                    ));
                    assert(is_pull(measure, config, before, handed_view(result), self@));
                    if measure is None {
                        lemma_default_pull::<F>(config, before, handed_view(result), self@);
                    }
                }
                return result;
            }
            let (chunks, base) = self.cut(current_text.as_str());
            let ghost results = emitted_all(unit_views(chunks@), base as int);
            let len = current_text.as_str().unicode_len();
            self.chunk_unit_global_offset = base;
            self.global_offset = self.global_offset + len as u32;
            if chunks.len() > 0 {
                self.chunk_units = into_queue(chunks);
                let first = self.chunk_units.pop_front();
                match first {
                    Some(chunk_unit) => {
                        let result = self.generate_chunk_result(chunk_unit);
                        proof {
                            assert(results[0] == emitted(chunk_unit@, base as int));
                            assert(self@.pending =~= results.skip(1));
                            assert(is_advance(
                                measure,
                                config,
                                before,
                                skipped,
                                results,
                                Some(result->0@),
                                self@,
                            ));
                            assert(is_pull(measure, config, before, handed_view(result), self@));
                            if measure is None {
                                lemma_default_pull::<F>(config, before, handed_view(result), self@);
                            }
                        }
                        return result;
                    },
                    None => {},
                }
            }
            proof {
                assert(results =~= Seq::empty());
                assert(yields_nothing(measure, config, before.segments, before.offset, skipped));
                skipped = skipped + 1;
            }
        }
    }
}

} // verus!
