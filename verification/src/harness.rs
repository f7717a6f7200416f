//! The self-checking trial the command-line driver runs: generate a
//! deterministic array, sort it, and confirm the result is ordered.

use vstd::prelude::*;
use crate::rng::generate;
use crate::rng::generated_seq;
use crate::sort::is_sorted;
use crate::sort::selection_sort;
use crate::sort::sorted;

verus! {

/// Runs one trial of the given length: builds the seed-zero array,
/// sorts a copy of it, and checks the result. Returns the input, the
/// sorted output, and the outcome of the sortedness check — which is
/// always `true`, as the final clause states: the self-check cannot
/// fail.
pub fn test(length: usize) -> (r: (Vec<usize>, Vec<usize>, bool))
    ensures
        r.0@ == generated_seq(0, length, length as nat),
        r.1@.to_multiset() == r.0@.to_multiset(),
        sorted(r.1@),
        r.2 == true,
{
    let input = generate(length);
    let mut output = generate(length);
    selection_sort(&mut output);
    let ok = is_sorted(&output);
    (input, output, ok)
}

} // verus!
