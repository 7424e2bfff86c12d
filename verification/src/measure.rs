use vstd::prelude::*;

use crate::structs::UnitView;

verus! {

/// Whether `n` is a length that the measure gives for `text`: the number of
/// its characters where no measure of the caller's is set, else what that
/// measure may return for it.
pub open spec fn measures<F: Fn(&str) -> usize>(
    length_function: Option<F>,
    text: Seq<char>,
    n: usize,
) -> bool {
    match length_function {
        Some(f) => exists|s: &str| s@ == text && #[trigger] call_ensures(f, (s,), n),
        None => n == text.len(),
    }
}

/// Whether the caller's measure, where one is set, takes every text.
pub open spec fn is_total<F: Fn(&str) -> usize>(length_function: Option<F>) -> bool {
    length_function matches Some(f) ==> forall|s: &str| #[trigger] call_requires(f, (s,))
}

/// Whether `lens` holds, unit by unit, a length that the measure gives for
/// the unit's text.
pub open spec fn is_measurement<F: Fn(&str) -> usize>(
    length_function: Option<F>,
    units: Seq<UnitView>,
    lens: Seq<usize>,
) -> bool {
    &&& lens.len() == units.len()
    &&& forall|k: int|
        0 <= k < units.len() ==> measures(length_function, units[k].text, #[trigger] lens[k])
}

/// The lengths that the default measure gives the units: their numbers of
/// characters.
pub open spec fn default_lens(units: Seq<UnitView>) -> Seq<usize> {
    units.map_values(|u: UnitView| u.text.len() as usize)
}

/// The default measure gives units no other lengths than their numbers of
/// characters.
pub proof fn lemma_default_measurement<F: Fn(&str) -> usize>(
    units: Seq<UnitView>,
    lens: Seq<usize>,
)
    requires
        is_measurement(None::<F>, units, lens),
    ensures
        lens == default_lens(units),
{
    assert(lens =~= default_lens(units));
}

/// Whether the measure gives `text` a length of at most `size`.
pub open spec fn fits<F: Fn(&str) -> usize>(
    length_function: Option<F>,
    text: Seq<char>,
    size: usize,
) -> bool {
    exists|n: usize| #[trigger] measures(length_function, text, n) && n <= size
}

/// Whether the measure gives `text` a length above `size`.
pub open spec fn exceeds<F: Fn(&str) -> usize>(
    length_function: Option<F>,
    text: Seq<char>,
    size: usize,
) -> bool {
    exists|n: usize| #[trigger] measures(length_function, text, n) && n > size
}

} // verus!
