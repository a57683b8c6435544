use vstd::prelude::*;

verus! {

/// The square pulse: `raised` on the cells `lower..upper`, `base` elsewhere.
pub open spec fn pulse_value<T>(i: int, lower: int, upper: int, base: T, raised: T) -> T {
    if lower <= i < upper {
        raised
    } else {
        base
    }
}

/// Builds a grid of `len` cells that holds `base` everywhere but on the
/// cells `lower..upper`, which hold `raised`.
///
/// This is the initial state of the wave runs: the grid is first set to the
/// background value and the slice `lower..upper` is then filled with the
/// pulse value. A slice outside the grid, or one whose start lies past its
/// end, is not a slice of the grid: such bounds are refused by `requires`.
pub fn square_pulse<T: Copy>(len: usize, lower: usize, upper: usize, base: T, raised: T) -> (grid:
    Vec<T>)
    requires
        lower <= upper <= len,
    ensures
        grid@.len() == len,
        forall|i: int|
            0 <= i < len ==> #[trigger] grid@[i] == pulse_value(i, lower as int, upper as int, base, raised),
        forall|i: int| 0 <= i < lower ==> #[trigger] grid@[i] == base,
        forall|i: int| lower <= i < upper ==> #[trigger] grid@[i] == raised,
        forall|i: int| upper <= i < len ==> #[trigger] grid@[i] == base,
{
    let mut grid: Vec<T> = Vec::new();
    let mut i: usize = 0;
    while i < len
        invariant
            i <= len,
            lower <= upper <= len,
            grid@.len() == i,
            forall|j: int|
                0 <= j < i ==> #[trigger] grid@[j] == pulse_value(j, lower as int, upper as int, base, raised),
        decreases len - i,
    {
        if lower <= i && i < upper {
            grid.push(raised);
        } else {
            grid.push(base);
        }
        i = i + 1;
    }
    grid
}

/// The pulse is `raised` on every cell from `lower` up to, not including,
/// `upper`, and `base` on every cell before `lower` and from `upper` on.
pub proof fn lemma_pulse_cells<T>(lower: int, upper: int, base: T, raised: T, i: int)
    requires
        0 <= lower <= upper,
        0 <= i,
    ensures
        i < lower ==> pulse_value(i, lower, upper, base, raised) == base,
        lower <= i < upper ==> pulse_value(i, lower, upper, base, raised) == raised,
        upper <= i ==> pulse_value(i, lower, upper, base, raised) == base,
{
}

} // verus!
