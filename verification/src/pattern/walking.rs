//! Walking bits: one bit set, or one bit clear, at each position in turn.

use vstd::prelude::*;

use crate::failure::{Failure, FailureBudget};
use crate::memory::{self, Memory, Monitor};
use crate::pattern::rounds::{self, run_rounds};

verus! {

/// One bit set, walking from the lowest position to the highest.
pub open spec fn walking_ones() -> Seq<u64> {
    Seq::new(64, |b: int| 1u64 << (b as u64))
}

/// One bit clear, walking from the lowest position to the highest.
pub open spec fn walking_zeros() -> Seq<u64> {
    Seq::new(64, |b: int| !(1u64 << (b as u64)))
}

/// Run a round for each position with only that bit set.
pub fn run_ones<M: Memory, N: Monitor>(
    mem: &mut M,
    monitor: &mut N,
    parallel: bool,
    budget: &mut FailureBudget,
) -> (failures: Vec<Failure>)
    ensures
        final(mem).size() == old(mem).size(),
        final(mem).base() == old(mem).base(),
        memory::extends(old(mem).trace(), final(mem).trace()),
        memory::extends(old(monitor).log(), final(monitor).log()),
        memory::ran(
            rounds::rounds_script(walking_ones(), old(mem).size(), 64),
            64,
            old(mem).base(),
            *old(budget),
            *final(budget),
            memory::since(old(mem).trace(), final(mem).trace()),
            memory::since(old(monitor).log(), final(monitor).log()),
            failures@,
        ),
        memory::heeds(
            rounds::rounds_script(walking_ones(), old(mem).size(), 64),
            rounds::rounds_ends(walking_ones(), old(mem).size()),
            64,
            true,
            old(mem).base(),
            old(budget).slots(),
            memory::since(old(mem).trace(), final(mem).trace()),
            memory::since(old(monitor).log(), final(monitor).log()),
        ),
{
    let mut words: Vec<u64> = Vec::new();
    let mut bit: u64 = 0;
    while bit < 64
        invariant
            bit <= 64,
            words@.len() == bit,
            forall|b: int| 0 <= b < bit ==> #[trigger] words@[b] == 1u64 << (b as u64),
        decreases 64 - bit,
    {
        words.push(1u64 << bit);
        bit = bit + 1;
    }
    assert(words@ =~= walking_ones());
    run_rounds(mem, monitor, words.as_slice(), true, parallel, budget)
}

/// Run a round for each position with only that bit clear.
pub fn run_zeros<M: Memory, N: Monitor>(
    mem: &mut M,
    monitor: &mut N,
    parallel: bool,
    budget: &mut FailureBudget,
) -> (failures: Vec<Failure>)
    ensures
        final(mem).size() == old(mem).size(),
        final(mem).base() == old(mem).base(),
        memory::extends(old(mem).trace(), final(mem).trace()),
        memory::extends(old(monitor).log(), final(monitor).log()),
        memory::ran(
            rounds::rounds_script(walking_zeros(), old(mem).size(), 64),
            64,
            old(mem).base(),
            *old(budget),
            *final(budget),
            memory::since(old(mem).trace(), final(mem).trace()),
            memory::since(old(monitor).log(), final(monitor).log()),
            failures@,
        ),
        memory::heeds(
            rounds::rounds_script(walking_zeros(), old(mem).size(), 64),
            rounds::rounds_ends(walking_zeros(), old(mem).size()),
            64,
            true,
            old(mem).base(),
            old(budget).slots(),
            memory::since(old(mem).trace(), final(mem).trace()),
            memory::since(old(monitor).log(), final(monitor).log()),
        ),
{
    let mut words: Vec<u64> = Vec::new();
    let mut bit: u64 = 0;
    while bit < 64
        invariant
            bit <= 64,
            words@.len() == bit,
            forall|b: int| 0 <= b < bit ==> #[trigger] words@[b] == !(1u64 << (b as u64)),
        decreases 64 - bit,
    {
        words.push(!(1u64 << bit));
        bit = bit + 1;
    }
    assert(words@ =~= walking_zeros());
    run_rounds(mem, monitor, words.as_slice(), true, parallel, budget)
}

/// In the round of each position only the bit at that position is set, or only it is
/// clear.
pub proof fn law_one_bit_walks(round: int, b: int)
    requires
        0 <= round < 64,
        0 <= b < 64,
    ensures
        walking_ones().len() == 64,
        walking_zeros().len() == 64,
        crate::failure::bit(walking_ones()[round], b) <==> b == round,
        crate::failure::bit(walking_zeros()[round], b) <==> b != round,
{
    let r = round as u64;
    let n = b as u64;
    assert((((1u64 << r) >> n) & 1 == 1 <==> r == n) && (((!(1u64 << r)) >> n) & 1 == 1 <==> r
        != n)) by (bit_vector)
        requires
            r < 64,
            n < 64,
    ;
}

} // verus!
