//! Solid bits: every word all zeros, then all ones.

use vstd::prelude::*;

use crate::failure::{Failure, FailureBudget};
use crate::memory::{self, Memory, Monitor};
use crate::pattern::rounds::{self, run_rounds};

verus! {

/// The words written, in order.
pub open spec fn solid_words() -> Seq<u64> {
    seq![0x0000_0000_0000_0000u64, 0xFFFF_FFFF_FFFF_FFFFu64]
}

/// Run both rounds, with a chance to stop between them.
pub fn run<M: Memory, N: Monitor>(
    mem: &mut M,
    monitor: &mut N,
    parallel: bool,
    budget: &mut FailureBudget,
) -> (failures: Vec<Failure>)
    ensures
        final(mem).size() == old(mem).size(),
        final(mem).base() == old(mem).base(),
        memory::extends(old(mem).trace(), final(mem).trace()),
        memory::extends(old(monitor).log(), final(monitor).log()),
        memory::ran(
            rounds::rounds_script(solid_words(), old(mem).size(), 2),
            2,
            old(mem).base(),
            *old(budget),
            *final(budget),
            memory::since(old(mem).trace(), final(mem).trace()),
            memory::since(old(monitor).log(), final(monitor).log()),
            failures@,
        ),
        memory::heeds(
            rounds::rounds_script(solid_words(), old(mem).size(), 2),
            rounds::rounds_ends(solid_words(), old(mem).size()),
            2,
            false,
            old(mem).base(),
            old(budget).slots(),
            memory::since(old(mem).trace(), final(mem).trace()),
            memory::since(old(monitor).log(), final(monitor).log()),
        ),
{
    let words: Vec<u64> = vec![0x0000_0000_0000_0000, 0xFFFF_FFFF_FFFF_FFFF];
    assert(words@ =~= solid_words());
    run_rounds(mem, monitor, words.as_slice(), false, parallel, budget)
}

} // verus!
