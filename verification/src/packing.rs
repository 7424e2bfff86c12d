use vstd::prelude::*;

use crate::paragraphs::{units_in_order, units_within};
use crate::structs::UnitView;

verus! {

/// The texts in `pieces`, with `joiner` between each two.
pub open spec fn joined(pieces: Seq<Seq<char>>, joiner: Seq<char>) -> Seq<char>
    decreases pieces.len(),
{
    if pieces.len() == 0 {
        Seq::empty()
    } else if pieces.len() == 1 {
        pieces[0]
    } else {
        joined(pieces.drop_last(), joiner) + joiner + pieces.last()
    }
}

/// The length of the units from `i` up to `j`, joined.
pub open spec fn window_total(lens: Seq<usize>, joiner_len: usize, i: int, j: int) -> int
    decreases j - i,
{
    if j <= i {
        0
    } else if j == i + 1 {
        lens[i] as int
    } else {
        window_total(lens, joiner_len, i, j - 1) + joiner_len + lens[j - 1]
    }
}

/// Whether units of the lengths `lens` need no packing: each is at most
/// `size` long, and so are all of them joined.
pub open spec fn fits_all(lens: Seq<usize>, joiner_len: usize, size: usize) -> bool {
    &&& forall|k: int| 0 <= k < lens.len() ==> #[trigger] lens[k] <= size
    &&& window_total(lens, joiner_len, 0, lens.len() as int) <= size
}

/// Where a window stops growing: it holds the units before `j`, which make
/// `total` with the joiners between them, and takes each further unit that
/// still fits with its joiner.
pub open spec fn grown_to(
    lens: Seq<usize>,
    joiner_len: usize,
    size: usize,
    j: int,
    total: int,
) -> int
    decreases lens.len() - j,
{
    if 0 <= j < lens.len() && total + joiner_len + lens[j] <= size {
        grown_to(lens, joiner_len, size, j + 1, total + joiner_len + lens[j])
    } else {
        j
    }
}

/// The end of the window that starts at unit `i`: that unit whatever its
/// length, then as many more as fit.
pub open spec fn window_stop(lens: Seq<usize>, joiner_len: usize, size: usize, i: int) -> int {
    grown_to(lens, joiner_len, size, i + 1, lens[i] as int)
}

/// Where the window after `[i, j)` starts: `overlap` units before `j`, and at
/// least one unit on.
pub open spec fn next_window(i: int, j: int, overlap: int) -> int {
    if j - overlap > i + 1 {
        j - overlap
    } else {
        i + 1
    }
}

/// The windows that greedy packing makes from unit `i` on.
pub open spec fn packed_windows(
    lens: Seq<usize>,
    joiner_len: usize,
    size: usize,
    overlap: usize,
    i: int,
) -> Seq<(int, int)>
    decreases lens.len() - i,
{
    if i < 0 || i >= lens.len() {
        Seq::empty()
    } else {
        proof {
            lemma_grown_to_bounds(lens, joiner_len, size, i + 1, lens[i] as int);
        }
        seq![(i, window_stop(lens, joiner_len, size, i))] + packed_windows(
            lens,
            joiner_len,
            size,
            overlap,
            next_window(i, window_stop(lens, joiner_len, size, i), overlap as int),
        )
    }
}

/// The texts of the units from `i` up to `j`.
pub open spec fn unit_texts(units: Seq<UnitView>, i: int, j: int) -> Seq<Seq<char>> {
    units.subrange(i, j).map_values(|u: UnitView| u.text)
}

/// The units from `i` up to `j` as one: their texts joined, from the start of
/// the first to the end of the last.
pub open spec fn merged(units: Seq<UnitView>, joiner: Seq<char>, i: int, j: int) -> UnitView {
    UnitView {
        text: joined(unit_texts(units, i, j), joiner),
        start: units[i].start,
        end: units[j - 1].end,
    }
}

/// The windows `windows` of `units`, each merged into a unit.
pub open spec fn merged_all(
    units: Seq<UnitView>,
    joiner: Seq<char>,
    windows: Seq<(int, int)>,
) -> Seq<UnitView> {
    windows.map_values(|w: (int, int)| merged(units, joiner, w.0, w.1))
}

/// What greedy packing makes of `units` whose lengths are `lens`.
pub open spec fn packed(
    units: Seq<UnitView>,
    lens: Seq<usize>,
    joiner_len: usize,
    size: usize,
    joiner: Seq<char>,
    overlap: usize,
) -> Seq<UnitView> {
    merged_all(units, joiner, packed_windows(lens, joiner_len, size, overlap, 0))
}

/// A window ends after its first unit, within the units.
pub proof fn lemma_grown_to_bounds(
    lens: Seq<usize>,
    joiner_len: usize,
    size: usize,
    j: int,
    total: int,
)
    requires
        0 <= j <= lens.len(),
    ensures
        j <= grown_to(lens, joiner_len, size, j, total) <= lens.len(),
    decreases lens.len() - j,
{
    if j < lens.len() && total + joiner_len + lens[j] <= size {
        lemma_grown_to_bounds(lens, joiner_len, size, j + 1, total + joiner_len + lens[j]);
    }
}

/// Each window of a packing holds at least one unit, and only units there are.
pub proof fn lemma_packed_windows_bounds(
    lens: Seq<usize>,
    joiner_len: usize,
    size: usize,
    overlap: usize,
    i: int,
)
    requires
        0 <= i,
    ensures
        forall|k: int|
            0 <= k < packed_windows(lens, joiner_len, size, overlap, i).len() ==> i <= (
            #[trigger] packed_windows(lens, joiner_len, size, overlap, i)[k]).0
                < packed_windows(lens, joiner_len, size, overlap, i)[k].1 <= lens.len(),
    decreases lens.len() - i,
{
    if i < lens.len() {
        lemma_grown_to_bounds(lens, joiner_len, size, i + 1, lens[i] as int);
        let j = window_stop(lens, joiner_len, size, i);
        let next = next_window(i, j, overlap as int);
        lemma_packed_windows_bounds(lens, joiner_len, size, overlap, next);
        let rest = packed_windows(lens, joiner_len, size, overlap, next);
        let all = packed_windows(lens, joiner_len, size, overlap, i);
        assert(all == seq![(i, j)] + rest);
        assert forall|k: int| 0 <= k < all.len() implies i <= (#[trigger] all[k]).0 < all[k].1
            <= lens.len() by {
            if k > 0 {
                assert(all[k] == rest[k - 1]);
            }
        }
    }
}

/// Packing units that lie one after another within a limit gives units
/// within that limit.
pub proof fn lemma_packed_within(
    units: Seq<UnitView>,
    lens: Seq<usize>,
    joiner_len: usize,
    size: usize,
    joiner: Seq<char>,
    overlap: usize,
    limit: int,
)
    requires
        units_in_order(units, 0, limit),
        lens.len() == units.len(),
    ensures
        units_within(packed(units, lens, joiner_len, size, joiner, overlap), limit),
{
    lemma_packed_windows_bounds(lens, joiner_len, size, overlap, 0);
    let windows = packed_windows(lens, joiner_len, size, overlap, 0);
    let all = packed(units, lens, joiner_len, size, joiner, overlap);
    assert forall|k: int| 0 <= k < all.len() implies 0 <= (#[trigger] all[k]).start
        <= all[k].end <= limit by {
        let w = windows[k];
        assert(all[k] == merged(units, joiner, w.0, w.1));
        assert(0 <= units[w.0].start <= units[w.0].end);
        assert(units[w.1 - 1].start <= units[w.1 - 1].end <= limit);
        if w.0 < w.1 - 1 {
            assert(units[w.0].end <= units[w.1 - 1].start);
        }
    }
}

} // verus!
