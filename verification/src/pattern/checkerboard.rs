//! Checkerboard: alternating bits, then their inverse.

use vstd::prelude::*;

use crate::failure::{Failure, FailureBudget};
use crate::memory::{self, Memory, Monitor};
use crate::pattern::rounds::{self, run_rounds};

verus! {

/// The words written, in order.
pub open spec fn checker_words() -> Seq<u64> {
    seq![0xAAAA_AAAA_AAAA_AAAAu64, 0x5555_5555_5555_5555u64]
}

/// Run both rounds, with a chance to stop between them.
pub fn run<M: Memory, N: Monitor>(
    mem: &mut M,
    monitor: &mut N,
    parallel: bool,
    budget: &mut FailureBudget,
) -> (failures: Vec<Failure>)
    ensures
        final(mem).size() == old(mem).size(),
        final(mem).base() == old(mem).base(),
        memory::extends(old(mem).trace(), final(mem).trace()),
        memory::extends(old(monitor).log(), final(monitor).log()),
        memory::ran(
            rounds::rounds_script(checker_words(), old(mem).size(), 2),
            2,
            old(mem).base(),
            *old(budget),
            *final(budget),
            memory::since(old(mem).trace(), final(mem).trace()),
            memory::since(old(monitor).log(), final(monitor).log()),
            failures@,
        ),
        memory::heeds(
            rounds::rounds_script(checker_words(), old(mem).size(), 2),
            rounds::rounds_ends(checker_words(), old(mem).size()),
            2,
            false,
            old(mem).base(),
            old(budget).slots(),
            memory::since(old(mem).trace(), final(mem).trace()),
            memory::since(old(monitor).log(), final(monitor).log()),
        ),
{
    let words: Vec<u64> = vec![0xAAAA_AAAA_AAAA_AAAA, 0x5555_5555_5555_5555];
    assert(words@ =~= checker_words());
    run_rounds(mem, monitor, words.as_slice(), false, parallel, budget)
}

/// In each word neighbouring bits differ, and each bit differs between the two words.
pub proof fn law_bits_alternate(b: int)
    requires
        0 <= b < 64,
    ensures
        checker_words().len() == 2,
        crate::failure::bit(checker_words()[0], b) <==> b % 2 == 1,
        crate::failure::bit(checker_words()[1], b) <==> b % 2 == 0,
{
    let n = b as u64;
    assert(((0xAAAA_AAAA_AAAA_AAAAu64 >> n) & 1 == 1 <==> n % 2 == 1) && ((0x5555_5555_5555_5555u64
        >> n) & 1 == 1 <==> n % 2 == 0)) by (bit_vector)
        requires
            n < 64,
    ;
}

} // verus!
