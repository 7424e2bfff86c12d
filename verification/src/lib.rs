pub mod laws;
pub mod measure;
pub mod packing;
pub mod paragraphs;
pub mod range;
pub mod stream;
pub mod structs;
pub mod text;
pub mod utils;
pub mod windows;

use vstd::prelude::*;
use vstd::string::StrSliceExecFns;

use crate::measure::is_total;
use crate::range::{
    extract_range, is_nonempty, lemma_first_reaching_skip, lemma_prefix_len_monotone, prefix_len,
    segment_end, total_len,
};
use crate::stream::{
    default_split, is_split_of, lemma_default_split, lemma_pull_none, lemma_pull_yields, yields,
    ProducerView,
};
use crate::structs::{
    config_of, measure_of, result_views, texts, ChunkIterator, ChunkResult, ResultView,
    SplitOptions,
};

verus! {

/// The start of a range: 0 where none is given.
pub open spec fn range_start(start: Option<u32>) -> int {
    match start {
        Some(s) => s as int,
        None => 0,
    }
}

/// The end of a range, unbounded where none is given.
pub open spec fn range_end(end: Option<u32>) -> Option<int> {
    match end {
        Some(e) => Some(e as int),
        None => None,
    }
}

/// Cuts the global character range from `start` to `end` out of `text`, the
/// segments of one input; see `extract_range`.
pub fn get_chunk(text: Vec<String>, start: Option<u32>, end: Option<u32>) -> (pieces: Vec<String>)
    ensures
        texts(pieces@) == extract_range(texts(text@), range_start(start), range_end(end)),
{
    let ghost segments = texts(text@);
    let n = text.len();
    let s: usize = match start {
        Some(v) => v as usize,
        None => 0,
    };
    let mut pieces: Vec<String> = Vec::new();
    assert(texts(pieces@) =~= Seq::<Seq<char>>::empty());
    if let Some(e) = end {
        if e < s as u32 {
            return pieces;
        }
    }
    // The segment in which the range starts.
    let mut start_index: usize = 0;
    let mut before: usize = 0;
    while start_index < n
        invariant
            n == text.len(),
            segments == texts(text@),
            start_index <= n,
            before == prefix_len(segments, start_index as int),
            before <= s,
            forall|k: int| 0 <= k < start_index ==> #[trigger] segment_end(segments, k) < s,
        ensures
            start_index < n ==> segment_end(segments, start_index as int) >= s,
        decreases n - start_index,
    {
        let len = text[start_index].as_str().unicode_len();
        assert(segments[start_index as int] == text[start_index as int]@);
        if len >= s - before {
            break;
        }
        before = before + len;
        start_index = start_index + 1;
    }
    proof {
        lemma_first_reaching_skip(segments, 0, start_index as int, s as int);
    }
    if start_index == n {
        return pieces;
    }
    let start_offset = s - before;
    // The segment in which it ends.
    let mut end_index: usize = start_index;
    let mut end_offset: usize = 0;
    let mut bounded = false;
    if let Some(end_value) = end {
        let e = end_value as usize;
        let mut before_end: usize = before;
        proof {
            assert forall|k: int| 0 <= k < start_index implies #[trigger] segment_end(
                segments,
                k,
            ) < e + 1 by {}
        }
        while end_index < n
            invariant_except_break
                before_end == prefix_len(segments, end_index as int),
                before_end <= e,
                !bounded,
            invariant
                n == text.len(),
                segments == texts(text@),
                start_index <= end_index <= n,
                forall|k: int| 0 <= k < end_index ==> #[trigger] segment_end(segments, k) < e + 1,
            ensures
                end_index <= n,
                bounded == (end_index < n),
                bounded ==> segment_end(segments, end_index as int) >= e + 1 && end_offset == e
                    - prefix_len(segments, end_index as int),
                forall|k: int| 0 <= k < end_index ==> #[trigger] segment_end(segments, k) < e + 1,
            decreases n - end_index,
        {
            let len = text[end_index].as_str().unicode_len();
            assert(segments[end_index as int] == text[end_index as int]@);
            if len > e - before_end {
                end_offset = e - before_end;
                bounded = true;
                break;
            }
            before_end = before_end + len;
            end_index = end_index + 1;
        }
        proof {
            lemma_first_reaching_skip(segments, 0, end_index as int, e + 1);
        }
    }
    if !bounded {
        end_index = n - 1;
        end_offset = text[end_index].as_str().unicode_len();
        assert(segments[end_index as int] == text[end_index as int]@);
    }
    assert(segments[start_index as int] == text[start_index as int]@);
    assert(segments[end_index as int] == text[end_index as int]@);
    if start_index == end_index {
        let piece = text[start_index].as_str().substring_char(start_offset, end_offset);
        pieces.push(piece.to_owned());
        assert(texts(pieces@) =~= seq![piece@]);
        return pieces;
    }
    let ghost keep = |piece: Seq<char>| is_nonempty(piece);
    let first_len = text[start_index].as_str().unicode_len();
    let first = text[start_index].as_str().substring_char(start_offset, first_len);
    let ghost all = seq![first@];
    proof {
        assert(all =~= Seq::<Seq<char>>::empty().push(first@));
        Seq::<Seq<char>>::empty().lemma_filter_push(first@, keep);
        assert(Seq::<Seq<char>>::empty().filter(keep) =~= Seq::<Seq<char>>::empty());
    }
    if !first.is_empty() {
        pieces.push(first.to_owned());
    }
    assert(texts(pieces@) =~= all.filter(keep));
    let mut k: usize = start_index + 1;
    while k < end_index
        invariant
            n == text.len(),
            segments == texts(text@),
            start_index < k <= end_index < n,
            all == seq![first@] + segments.subrange(start_index + 1, k as int),
            texts(pieces@) == all.filter(keep),
            forall|piece: Seq<char>| #[trigger] keep(piece) == is_nonempty(piece),
        decreases end_index - k,
    {
        let ghost prev = all;
        proof {
            all = all.push(segments[k as int]);
            assert(all =~= seq![first@] + segments.subrange(start_index + 1, k + 1));
            prev.lemma_filter_push(segments[k as int], keep);
            assert(segments[k as int] == text[k as int]@);
        }
        let ghost kept = pieces@;
        if !text[k].as_str().is_empty() {
            pieces.push(text[k].clone());
            assert(texts(pieces@) =~= texts(kept).push(segments[k as int]));
        }
        assert(texts(pieces@) == all.filter(keep));
        k = k + 1;
    }
    let last = text[end_index].as_str().substring_char(0, end_offset);
    proof {
        all.lemma_filter_push(last@, keep);
        assert(all.push(last@) =~= seq![first@] + segments.subrange(
            start_index + 1,
            end_index as int,
        ) + seq![last@]);
    }
    if !last.is_empty() {
        pieces.push(last.to_owned());
    }
    assert(texts(pieces@) =~= all.push(last@).filter(keep));
    pieces
}

/// Says whether the characters of `text` can be counted in `u32`, in which
/// chunks carry their offsets: what `iterate_chunks` and `split` ask of
/// their input.
pub fn offsets_fit(text: &[String]) -> (fit: bool)
    ensures
        fit == (total_len(texts(text@)) <= u32::MAX),
{
    let ghost segments = texts(text@);
    let n = text.len();
    let mut total: u32 = 0;
    let mut k: usize = 0;
    while k < n
        invariant
            n == text.len(),
            segments == texts(text@),
            k <= n,
            total == prefix_len(segments, k as int),
        decreases n - k,
    {
        let len = text[k].as_str().unicode_len();
        assert(segments[k as int] == text[k as int]@);
        if len > (u32::MAX - total) as usize {
            proof {
                lemma_prefix_len_monotone(segments, k + 1, n as int);
            }
            return false;
        }
        total = total + len as u32;
        k = k + 1;
    }
    true
}

/// A producer of the chunks of `text`, the segments of one input, under
/// `split_options`, or under the defaults where none are given.
pub fn iterate_chunks<F: Fn(&str) -> usize>(
    text: Vec<String>,
    split_options: Option<SplitOptions<F>>,
) -> (producer: ChunkIterator<F>)
    requires
        is_total(measure_of(split_options)),
        total_len(texts(text@)) <= u32::MAX,
    ensures
        producer.wf(),
        producer@ == (ProducerView { segments: texts(text@), pending: Seq::empty(), offset: 0 }),
        producer.config() == config_of(split_options),
        producer.length_function() == measure_of(split_options),
{
    ChunkIterator::new(text, split_options)
}

/// All chunks of `text`, the segments of one input, in order: what a
/// producer hands out until it has nothing left.
pub fn split<F: Fn(&str) -> usize>(text: Vec<String>, split_options: Option<SplitOptions<F>>) -> (
    chunks: Vec<ChunkResult>
)
    requires
        is_total(measure_of(split_options)),
        total_len(texts(text@)) <= u32::MAX,
    ensures
        is_split_of(
            measure_of(split_options),
            config_of(split_options),
            texts(text@),
            0,
            result_views(chunks@),
        ),
        measure_of(split_options) is None ==> result_views(chunks@) == default_split(
            config_of(split_options),
            texts(text@),
            0,
        ),
{
    let ghost measure = measure_of(split_options);
    let ghost config = config_of(split_options);
    let ghost segments = texts(text@);
    let mut chunk_iterator = iterate_chunks(text, split_options);
    let mut chunk_result: Vec<ChunkResult> = Vec::new();
    proof {
        assert forall|rest: Seq<ResultView>| #[trigger]
            yields(measure, config, chunk_iterator@, rest) implies is_split_of(
            measure,
            config,
            segments,
            0,
            result_views(chunk_result@) + rest,
        ) by {
            assert(rest.skip(0) =~= rest);
            assert(result_views(chunk_result@) + rest =~= rest);
        }
    }
    loop
        invariant_except_break
            forall|rest: Seq<ResultView>| #[trigger]
                yields(measure, config, chunk_iterator@, rest) ==> is_split_of(
                    measure,
                    config,
                    segments,
                    0,
                    result_views(chunk_result@) + rest,
                ),
        invariant
            chunk_iterator.wf(),
            chunk_iterator.config() == config,
            chunk_iterator.length_function() == measure,
        ensures
            is_split_of(measure, config, segments, 0, result_views(chunk_result@)),
        decreases chunk_iterator@.segments.len(), chunk_iterator@.pending.len(),
    {
        let ghost before = chunk_iterator@;
        let ghost done = result_views(chunk_result@);
        match chunk_iterator.next() {
            Some(chunk) => {
                chunk_result.push(chunk);
                proof {
                    assert(result_views(chunk_result@) =~= done.push(chunk@));
                    assert forall|rest: Seq<ResultView>| #[trigger]
                        yields(measure, config, chunk_iterator@, rest) implies is_split_of(
                        measure,
                        config,
                        segments,
                        0,
                        result_views(chunk_result@) + rest,
                    ) by {
                        lemma_pull_yields(
                            measure,
                            config,
                            before,
                            chunk@,
                            chunk_iterator@,
                            rest,
                        );
                        assert(done.push(chunk@) + rest =~= done + (seq![chunk@] + rest));
                    }
                }
            },
            None => {
                proof {
                    lemma_pull_none(measure, config, before, chunk_iterator@);
                    assert(done + Seq::<ResultView>::empty() =~= done);
                }
                break;
            },
        }
    }
    proof {
        if measure is None {
            lemma_default_split::<F>(config, segments, 0, result_views(chunk_result@));
        }
    }
    chunk_result
}

} // verus!
