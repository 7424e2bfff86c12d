use vstd::prelude::*;

use crate::structs::UnitView;
use crate::text::trimmed;

verus! {

/// Where the run of newlines that starts at `pos` ends; `pos` itself where
/// no newline stands there.
pub open spec fn run_end(text: Seq<char>, pos: int) -> int
    decreases text.len() - pos,
{
    if 0 <= pos < text.len() && text[pos] == '\n' {
        run_end(text, pos + 1)
    } else {
        pos
    }
}

/// The paragraph breaks of `text` from `pos` on, in order: each run of two or
/// more newlines, taken as long as it goes. `pos` does not stand inside a run.
pub open spec fn breaks_from(text: Seq<char>, pos: int) -> Seq<(int, int)>
    decreases text.len() - pos,
{
    if pos < 0 || pos >= text.len() {
        Seq::empty()
    } else if run_end(text, pos) >= pos + 2 {
        proof {
            lemma_run_end_bounds(text, pos);
        }
        seq![(pos, run_end(text, pos))] + breaks_from(text, run_end(text, pos))
    } else {
        breaks_from(text, pos + 1)
    }
}

/// The paragraph breaks of `text`, as half-open spans of character offsets:
/// its runs of two or more newlines (`lemma_breaks_are_runs`).
pub open spec fn paragraph_breaks(text: Seq<char>) -> Seq<(int, int)> {
    breaks_from(text, 0)
}

/// A run of newlines ends at or after its start, within the text.
pub proof fn lemma_run_end_bounds(text: Seq<char>, pos: int)
    requires
        0 <= pos <= text.len(),
    ensures
        pos <= run_end(text, pos) <= text.len(),
    decreases text.len() - pos,
{
    if pos < text.len() && text[pos] == '\n' {
        lemma_run_end_bounds(text, pos + 1);
    }
}

/// Whether `spans` lie between `lo` and `hi`, one after another, none empty.
pub open spec fn spans_in_order(spans: Seq<(int, int)>, lo: int, hi: int) -> bool {
    &&& forall|k: int|
        0 <= k < spans.len() ==> lo <= (#[trigger] spans[k]).0 < spans[k].1 <= hi
    &&& forall|j: int, k: int|
        0 <= j < k < spans.len() ==> (#[trigger] spans[j]).1 <= (#[trigger] spans[k]).0
}

/// Paragraph breaks lie within the text, one after another, none empty.
pub proof fn lemma_breaks_ordered(text: Seq<char>, pos: int)
    requires
        0 <= pos <= text.len(),
    ensures
        spans_in_order(breaks_from(text, pos), pos, text.len() as int),
    decreases text.len() - pos,
{
    if pos < text.len() {
        lemma_run_end_bounds(text, pos);
        let end = run_end(text, pos);
        let all = breaks_from(text, pos);
        if end >= pos + 2 {
            lemma_breaks_ordered(text, end);
            let rest = breaks_from(text, end);
            assert(all == seq![(pos, end)] + rest);
            assert forall|k: int| 0 <= k < all.len() implies pos <= (#[trigger] all[k]).0
                < all[k].1 <= text.len() by {
                if k > 0 {
                    assert(all[k] == rest[k - 1]);
                }
            }
            assert forall|j: int, k: int| 0 <= j < k < all.len() implies (#[trigger] all[j]).1 <= (
            #[trigger] all[k]).0 by {
                assert(all[k] == rest[k - 1]);
                if j > 0 {
                    assert(all[j] == rest[j - 1]);
                }
            }
        } else {
            lemma_breaks_ordered(text, pos + 1);
            assert(all == breaks_from(text, pos + 1));
        }
    }
}

/// The unit of the span from `from` up to `to`: its text without the white
/// space at its two ends, if anything is left of it.
pub open spec fn span_unit(text: Seq<char>, from: int, to: int) -> Seq<UnitView> {
    if trimmed(text.subrange(from, to)).len() > 0 {
        seq![UnitView { text: trimmed(text.subrange(from, to)), start: from, end: to }]
    } else {
        Seq::empty()
    }
}

/// The units of the spans that `breaks` leave from `from` on, where the
/// breaks before the `k`th lie behind `from`.
pub open spec fn units_between(
    text: Seq<char>,
    breaks: Seq<(int, int)>,
    k: int,
    from: int,
) -> Seq<UnitView>
    decreases breaks.len() - k,
{
    if k < 0 || k >= breaks.len() {
        span_unit(text, from, text.len() as int)
    } else {
        span_unit(text, from, breaks[k].0) + units_between(text, breaks, k + 1, breaks[k].1)
    }
}

/// The paragraph units of `text`: one for each span between two paragraph
/// breaks, or between a break and an end of the text, that holds more than
/// white space.
pub open spec fn paragraph_units(text: Seq<char>) -> Seq<UnitView> {
    units_between(text, paragraph_breaks(text), 0, 0)
}

/// Whether the spans of `units` lie between 0 and `limit`, none ending
/// before it starts.
pub open spec fn units_within(units: Seq<UnitView>, limit: int) -> bool {
    forall|k: int|
        0 <= k < units.len() ==> 0 <= (#[trigger] units[k]).start <= units[k].end <= limit
}

/// Whether the spans of `units` lie between `lo` and `hi`, one after
/// another, none ending before it starts.
pub open spec fn units_in_order(units: Seq<UnitView>, lo: int, hi: int) -> bool {
    &&& forall|k: int|
        0 <= k < units.len() ==> lo <= (#[trigger] units[k]).start <= units[k].end <= hi
    &&& forall|j: int, k: int|
        0 <= j < k < units.len() ==> (#[trigger] units[j]).end <= (#[trigger] units[k]).start
}

/// The units between paragraph breaks lie one after another within the text.
pub proof fn lemma_units_between_in_order(
    text: Seq<char>,
    breaks: Seq<(int, int)>,
    k: int,
    from: int,
)
    requires
        spans_in_order(breaks, 0, text.len() as int),
        0 <= k <= breaks.len(),
        0 <= from <= text.len(),
        k < breaks.len() ==> from <= breaks[k].0,
    ensures
        units_in_order(units_between(text, breaks, k, from), from, text.len() as int),
    decreases breaks.len() - k,
{
    if k < breaks.len() {
        if k + 1 < breaks.len() {
            assert(breaks[k].1 <= breaks[k + 1].0);
        }
        lemma_units_between_in_order(text, breaks, k + 1, breaks[k].1);
        let head = span_unit(text, from, breaks[k].0);
        let rest = units_between(text, breaks, k + 1, breaks[k].1);
        let all = units_between(text, breaks, k, from);
        assert(all == head + rest);
        assert forall|i: int| 0 <= i < all.len() implies from <= (#[trigger] all[i]).start
            <= all[i].end <= text.len() by {
            if i >= head.len() {
                assert(all[i] == rest[i - head.len()]);
            }
        }
        assert forall|i: int, j: int| 0 <= i < j < all.len() implies (#[trigger] all[i]).end <= (
        #[trigger] all[j]).start by {
            assert(all[j] == rest[j - head.len()]);
            if i >= head.len() {
                assert(all[i] == rest[i - head.len()]);
            }
        }
    }
}

/// Paragraph units lie one after another within the text.
pub proof fn lemma_paragraph_units_in_order(text: Seq<char>)
    ensures
        units_in_order(paragraph_units(text), 0, text.len() as int),
        units_within(paragraph_units(text), text.len() as int),
{
    lemma_breaks_ordered(text, 0);
    lemma_units_between_in_order(text, paragraph_breaks(text), 0, 0);
}

/// Whether the span from `from` up to `to` is a run of two or more newlines
/// of `text` with no newline before it and none after it.
pub open spec fn is_break(text: Seq<char>, from: int, to: int) -> bool {
    &&& 0 <= from
    &&& from + 2 <= to <= text.len()
    &&& forall|i: int| from <= i < to ==> text[i] == '\n'
    &&& from > 0 ==> text[from - 1] != '\n'
    &&& to < text.len() ==> text[to] != '\n'
}

/// A run of newlines holds newlines only and ends where no newline follows.
pub proof fn lemma_run_end_is_run(text: Seq<char>, pos: int)
    requires
        0 <= pos <= text.len(),
    ensures
        pos <= run_end(text, pos) <= text.len(),
        forall|i: int| pos <= i < run_end(text, pos) ==> text[i] == '\n',
        run_end(text, pos) < text.len() ==> text[run_end(text, pos)] != '\n',
    decreases text.len() - pos,
{
    if pos < text.len() && text[pos] == '\n' {
        lemma_run_end_is_run(text, pos + 1);
    }
}

/// From a place where no run of newlines is under way, the paragraph breaks
/// are the runs of two or more newlines that lie ahead, each as long as it
/// goes, and all of them.
pub proof fn lemma_breaks_from_are_runs(text: Seq<char>, pos: int)
    requires
        0 <= pos <= text.len(),
        0 < pos < text.len() ==> text[pos - 1] != '\n' || text[pos] != '\n',
    ensures
        forall|k: int|
            0 <= k < breaks_from(text, pos).len() ==> is_break(
                text,
                (#[trigger] breaks_from(text, pos)[k]).0,
                breaks_from(text, pos)[k].1,
            ),
        forall|from: int, to: int|
            pos <= from && is_break(text, from, to) ==> breaks_from(text, pos).contains(
                (from, to),
            ),
    decreases text.len() - pos,
{
    let all = breaks_from(text, pos);
    if pos < text.len() {
        lemma_run_end_is_run(text, pos);
        let end = run_end(text, pos);
        if end >= pos + 2 {
            lemma_breaks_from_are_runs(text, end);
            let rest = breaks_from(text, end);
            assert(all == seq![(pos, end)] + rest);
            assert forall|k: int| 0 <= k < all.len() implies is_break(
                text,
                (#[trigger] all[k]).0,
                all[k].1,
            ) by {
                if k > 0 {
                    assert(all[k] == rest[k - 1]);
                }
            }
            assert forall|from: int, to: int| pos <= from && is_break(
                text,
                from,
                to,
            ) implies all.contains((from, to)) by {
                if from == pos {
                    if to < end {
                        assert(text[to] == '\n');
                    } else if to > end {
                        assert(text[end] == '\n');
                    }
                    assert(all[0] == (from, to));
                } else {
                    if from < end {
                        assert(text[from - 1] == '\n');
                    }
                    assert(rest.contains((from, to)));
                    let k = choose|k: int| 0 <= k < rest.len() && rest[k] == (from, to);
                    assert(all[k + 1] == (from, to));
                }
            }
        } else {
            lemma_breaks_from_are_runs(text, pos + 1);
            assert(all == breaks_from(text, pos + 1));
            assert forall|from: int, to: int| pos <= from && is_break(
                text,
                from,
                to,
            ) implies all.contains((from, to)) by {
                if from == pos {
                    assert(text[pos] == '\n');
                    assert(text[pos + 1] == '\n');
                }
            }
        }
    }
}

/// The paragraph breaks of a text are its runs of two or more newlines, each
/// as long as it goes, and all of them.
pub proof fn lemma_breaks_are_runs(text: Seq<char>)
    ensures
        forall|k: int|
            0 <= k < paragraph_breaks(text).len() ==> is_break(
                text,
                (#[trigger] paragraph_breaks(text)[k]).0,
                paragraph_breaks(text)[k].1,
            ),
        forall|from: int, to: int|
            is_break(text, from, to) ==> paragraph_breaks(text).contains((from, to)),
{
    lemma_breaks_from_are_runs(text, 0);
}

} // verus!
