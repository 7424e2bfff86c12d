use vstd::prelude::*;
use vstd::seq_lib::lemma_flatten_concat;

verus! {

/// The number of characters in the first `i` segments.
pub open spec fn prefix_len(segments: Seq<Seq<char>>, i: int) -> int
    decreases i,
{
    if i <= 0 {
        0
    } else {
        prefix_len(segments, i - 1) + segments[i - 1].len()
    }
}

/// The number of characters by the end of segment `k`.
pub open spec fn segment_end(segments: Seq<Seq<char>>, k: int) -> int {
    prefix_len(segments, k + 1)
}

/// The number of characters in all segments together.
pub open spec fn total_len(segments: Seq<Seq<char>>) -> int {
    prefix_len(segments, segments.len() as int)
}

/// The first segment at or after `from` by whose end at least `target`
/// characters have gone by; the number of segments where there is none.
pub open spec fn first_reaching(segments: Seq<Seq<char>>, from: int, target: int) -> int
    decreases segments.len() - from,
{
    if from >= segments.len() {
        segments.len() as int
    } else if segment_end(segments, from) >= target {
        from
    } else {
        first_reaching(segments, from + 1, target)
    }
}

/// Whether a piece of text holds at least one character.
pub open spec fn is_nonempty(piece: Seq<char>) -> bool {
    piece.len() > 0
}

/// The pieces of `segments` that lie in the global range from `start` up to
/// `end`, or up to the end of the input where `end` is `None` or beyond it.
///
/// The range starts in the first segment by whose end `start` characters have
/// gone by, and ends in the first segment that reaches past `end`. A range
/// within one segment is one piece, empty or not. A range over several
/// segments is the tail of the first, the segments between and the head of
/// the last, without the empty ones. A range that starts beyond the input, or
/// ends before it starts, has no pieces.
pub open spec fn extract_range(segments: Seq<Seq<char>>, start: int, end: Option<int>) -> Seq<
    Seq<char>,
> {
    let n = segments.len() as int;
    let start_index = first_reaching(segments, 0, start);
    if start_index >= n || (end matches Some(e) && e < start) {
        Seq::empty()
    } else {
        let start_offset = start - prefix_len(segments, start_index);
        let past = match end {
            Some(e) => first_reaching(segments, 0, e + 1),
            None => n,
        };
        let end_index = if past < n {
            past
        } else {
            n - 1
        };
        let end_offset = if past < n {
            end.unwrap() - prefix_len(segments, end_index)
        } else {
            segments[end_index].len() as int
        };
        if start_index == end_index {
            seq![segments[start_index].subrange(start_offset, end_offset)]
        } else {
            let first = segments[start_index].subrange(
                start_offset,
                segments[start_index].len() as int,
            );
            let between = segments.subrange(start_index + 1, end_index);
            let last = segments[end_index].subrange(0, end_offset);
            (seq![first] + between + seq![last]).filter(|piece: Seq<char>| is_nonempty(piece))
        }
    }
}

/// The running total over a list is its first segment's length and the
/// running total over the rest.
pub proof fn lemma_prefix_len_first(segments: Seq<Seq<char>>, i: int)
    requires
        1 <= i <= segments.len(),
    ensures
        prefix_len(segments, i) == segments[0].len() + prefix_len(segments.drop_first(), i - 1),
    decreases i,
{
    if i > 1 {
        lemma_prefix_len_first(segments, i - 1);
        assert(segments.drop_first()[i - 2] == segments[i - 1]);
    } else {
        assert(prefix_len(segments, 0) == 0);
        assert(prefix_len(segments.drop_first(), 0) == 0);
    }
}

/// Segments that all end before `target` is reached can be passed over.
pub proof fn lemma_first_reaching_skip(segments: Seq<Seq<char>>, from: int, to: int, target: int)
    requires
        0 <= from <= to <= segments.len(),
        forall|k: int| from <= k < to ==> #[trigger] segment_end(segments, k) < target,
    ensures
        first_reaching(segments, from, target) == first_reaching(segments, to, target),
    decreases to - from,
{
    if from < to {
        lemma_first_reaching_skip(segments, from + 1, to, target);
    }
}

/// The running total never shrinks.
pub proof fn lemma_prefix_len_monotone(segments: Seq<Seq<char>>, i: int, j: int)
    requires
        0 <= i <= j,
    ensures
        0 <= prefix_len(segments, i) <= prefix_len(segments, j),
    decreases j,
{
    if i < j {
        lemma_prefix_len_monotone(segments, i, j - 1);
    } else if i > 0 {
        lemma_prefix_len_monotone(segments, i - 1, i - 1);
        lemma_prefix_len_monotone(segments, 0, i - 1);
    }
}

/// What `first_reaching` finds is the first segment that reaches the target.
pub proof fn lemma_first_reaching_is_first(segments: Seq<Seq<char>>, from: int, target: int)
    requires
        0 <= from <= segments.len(),
    ensures
        from <= first_reaching(segments, from, target) <= segments.len(),
        first_reaching(segments, from, target) < segments.len() ==> segment_end(
            segments,
            first_reaching(segments, from, target),
        ) >= target,
        forall|k: int|
            from <= k < first_reaching(segments, from, target) ==> #[trigger] segment_end(
                segments,
                k,
            ) < target,
    decreases segments.len() - from,
{
    if from < segments.len() && segment_end(segments, from) < target {
        lemma_first_reaching_is_first(segments, from + 1, target);
    }
}

/// Leaving out the empty pieces does not change what the pieces spell.
pub proof fn lemma_flatten_nonempty(pieces: Seq<Seq<char>>)
    ensures
        pieces.filter(|piece: Seq<char>| is_nonempty(piece)).flatten() == pieces.flatten(),
    decreases pieces.len(),
{
    let keep = |piece: Seq<char>| is_nonempty(piece);
    if pieces.len() == 0 {
        pieces.lemma_filter_len(keep);
        assert(pieces.filter(keep) =~= pieces);
    } else {
        let front = pieces.drop_last();
        let last = pieces.last();
        lemma_flatten_nonempty(front);
        assert(pieces =~= front.push(last));
        front.lemma_filter_push(last, keep);
        front.lemma_flatten_push(last);
        front.filter(keep).lemma_flatten_push(last);
        assert(front.flatten() + last =~= pieces.flatten());
        if !keep(last) {
            assert(front.flatten() + last =~= front.flatten());
        }
    }
}

/// The first `i` segments spell as many characters as their running total.
pub proof fn lemma_flatten_prefix(segments: Seq<Seq<char>>, i: int)
    requires
        0 <= i <= segments.len(),
    ensures
        segments.take(i).flatten().len() == prefix_len(segments, i),
    decreases i,
{
    if i > 0 {
        lemma_flatten_prefix(segments, i - 1);
        assert(segments.take(i) =~= segments.take(i - 1).push(segments[i - 1]));
        segments.take(i - 1).lemma_flatten_push(segments[i - 1]);
    } else {
        assert(segments.take(0) =~= Seq::<Seq<char>>::empty());
    }
}

/// The segments from `i` up to `j` spell the part of the whole input between
/// the running totals at `i` and at `j`.
pub proof fn lemma_flatten_between(segments: Seq<Seq<char>>, i: int, j: int)
    requires
        0 <= i <= j <= segments.len(),
    ensures
        0 <= prefix_len(segments, i) <= prefix_len(segments, j) <= segments.flatten().len(),
        segments.flatten().len() == total_len(segments),
        segments.flatten().subrange(prefix_len(segments, i), prefix_len(segments, j))
            == segments.subrange(i, j).flatten(),
{
    let n = segments.len() as int;
    let head = segments.take(i);
    let mid = segments.subrange(i, j);
    let tail = segments.skip(j);
    lemma_flatten_prefix(segments, i);
    lemma_flatten_prefix(segments, j);
    lemma_flatten_prefix(segments, n);
    lemma_prefix_len_monotone(segments, i, j);
    lemma_prefix_len_monotone(segments, j, n);
    assert(segments.take(j) =~= head + mid);
    assert(segments =~= segments.take(j) + tail);
    assert(segments.take(n) =~= segments);
    lemma_flatten_concat(head, mid);
    lemma_flatten_concat(segments.take(j), tail);
    assert(segments.flatten() =~= head.flatten() + mid.flatten() + tail.flatten());
    assert(segments.flatten().subrange(prefix_len(segments, i), prefix_len(segments, j))
        =~= mid.flatten());
}

/// Segment `i` is the part of the whole input between the running totals
/// before and after it.
pub proof fn lemma_segment_is_slice(segments: Seq<Seq<char>>, i: int)
    requires
        0 <= i < segments.len(),
    ensures
        0 <= prefix_len(segments, i) <= prefix_len(segments, i + 1) <= segments.flatten().len(),
        segments[i] == segments.flatten().subrange(
            prefix_len(segments, i),
            prefix_len(segments, i + 1),
        ),
{
    lemma_flatten_between(segments, i, i + 1);
    lemma_flatten_between(segments, i + 1, segments.len() as int);
    let one = segments.subrange(i, i + 1);
    assert(one[0] == segments[i]);
    one.lemma_flatten_singleton();
}

/// Where a range ends in the whole input: at its end, or where the input
/// ends if that comes first or no end is set.
pub open spec fn clamped_end(segments: Seq<Seq<char>>, end: Option<int>) -> int {
    match end {
        Some(e) => if e < total_len(segments) {
            e
        } else {
            total_len(segments)
        },
        None => total_len(segments),
    }
}

/// The pieces of a range spell the slice of the whole input from the start
/// of the range to its end.
pub proof fn lemma_extract_range_is_slice(
    segments: Seq<Seq<char>>,
    start: int,
    end: Option<int>,
)
    requires
        0 <= start <= total_len(segments),
        end matches Some(e) ==> start <= e,
    ensures
        segments.flatten().len() == total_len(segments),
        extract_range(segments, start, end).flatten() == segments.flatten().subrange(
            start,
            clamped_end(segments, end),
        ),
{
    let n = segments.len() as int;
    let whole = segments.flatten();
    let stop = clamped_end(segments, end);
    lemma_flatten_between(segments, 0, n);
    if n == 0 {
        assert(extract_range(segments, start, end) =~= Seq::<Seq<char>>::empty());
        assert(whole.subrange(start, stop) =~= Seq::<char>::empty());
    } else {
        let start_index = first_reaching(segments, 0, start);
        lemma_first_reaching_is_first(segments, 0, start);
        if start_index >= n {
            assert(segment_end(segments, n - 1) < start);
        }
        assert(start_index < n);
        if start_index > 0 {
            assert(segment_end(segments, start_index - 1) < start);
        }
        let start_offset = start - prefix_len(segments, start_index);
        let past = match end {
            Some(e) => first_reaching(segments, 0, e + 1),
            None => n,
        };
        if let Some(e) = end {
            lemma_first_reaching_is_first(segments, 0, e + 1);
            if past < n {
                if past > 0 {
                    assert(segment_end(segments, past - 1) < e + 1);
                }
                if past < start_index {
                    assert(segment_end(segments, past) < start);
                }
                lemma_prefix_len_monotone(segments, past + 1, n);
            } else {
                assert(segment_end(segments, n - 1) < e + 1);
            }
        }
        let end_index = if past < n {
            past
        } else {
            n - 1
        };
        let end_offset = if past < n {
            end.unwrap() - prefix_len(segments, end_index)
        } else {
            segments[end_index].len() as int
        };
        assert(stop == prefix_len(segments, end_index) + end_offset);
        assert(start_index <= end_index);
        lemma_segment_is_slice(segments, start_index);
        lemma_segment_is_slice(segments, end_index);
        if start_index == end_index {
            let piece = segments[start_index].subrange(start_offset, end_offset);
            assert(extract_range(segments, start, end) == seq![piece]);
            seq![piece].lemma_flatten_singleton();
            assert(piece =~= whole.subrange(start, stop));
        } else {
            let first = segments[start_index].subrange(
                start_offset,
                segments[start_index].len() as int,
            );
            let mid = segments.subrange(start_index + 1, end_index);
            let last = segments[end_index].subrange(0, end_offset);
            let pieces = seq![first] + mid + seq![last];
            lemma_flatten_nonempty(pieces);
            lemma_flatten_concat(seq![first] + mid, seq![last]);
            lemma_flatten_concat(seq![first], mid);
            seq![first].lemma_flatten_singleton();
            seq![last].lemma_flatten_singleton();
            lemma_flatten_between(segments, start_index + 1, end_index);
            assert(pieces.flatten() =~= first + mid.flatten() + last);
            assert(first + mid.flatten() + last =~= whole.subrange(start, stop));
        }
    }
}

} // verus!
