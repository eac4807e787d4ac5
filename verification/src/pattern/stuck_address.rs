//! Stuck address: every word holds its own index, so two addresses that reach
//! the same cell disagree.

use vstd::prelude::*;

use crate::failure::{Failure, FailureBudget};
use crate::memory::{self, Memory, Monitor};
use crate::ops;

verus! {

/// How many steps the first sub-passes take, of which there is one.
pub open spec fn address_ends(len: int) -> spec_fn(int) -> int {
    |n: int| if n <= 0 { 0 } else { 2 * len }
}

/// Fill every word with its index, verify, then announce the sub-pass.
pub fn run<M: Memory, N: Monitor>(
    mem: &mut M,
    monitor: &mut N,
    parallel: bool,
    budget: &mut FailureBudget,
) -> (failures: Vec<Failure>)
    ensures
        final(mem).size() == old(mem).size(),
        final(mem).base() == old(mem).base(),
        memory::extends(old(mem).trace(), final(mem).trace()),
        memory::extends(old(monitor).log(), final(monitor).log()),
        memory::ran(
            ops::round_script(ops::indexed_words(), old(mem).size()),
            1,
            old(mem).base(),
            *old(budget),
            *final(budget),
            memory::since(old(mem).trace(), final(mem).trace()),
            memory::since(old(monitor).log(), final(monitor).log()),
            failures@,
        ),
        memory::heeds(
            ops::round_script(ops::indexed_words(), old(mem).size()),
            address_ends(old(mem).size()),
            1,
            false,
            old(mem).base(),
            old(budget).slots(),
            memory::since(old(mem).trace(), final(mem).trace()),
            memory::since(old(monitor).log(), final(monitor).log()),
        ),
{
    let ghost log0 = monitor.log();
    let ghost trace0 = mem.trace();
    let ghost budget0 = *budget;
    let count: usize = mem.word_count();
    let failures = ops::fill_verify_indexed(mem, monitor, parallel, budget);
    let ghost log1 = monitor.log();
    monitor.subpass();
    proof {
        let said = memory::since(log0, log1);
        ops::lemma_round_ran(
            ops::indexed_words(),
            count as int,
            mem.base(),
            parallel,
            budget0,
            *budget,
            memory::since(trace0, mem.trace()),
            said,
            failures@,
        );
        assert(monitor.log().take(log0.len() as int) =~= log1.take(log0.len() as int));
        let all = memory::since(log0, monitor.log());
        assert(all.drop_last() =~= said);
        let done = memory::since(trace0, mem.trace());
        let script = ops::round_script(ops::indexed_words(), count as int);
        let nothing = Seq::<memory::Access>::empty();
        let ends = address_ends(count as int);
        memory::lemma_may_begin(script, ends, mem.base(), budget0.slots());
        memory::lemma_quiet_obedient(said);
        memory::lemma_heeds_step(
            script,
            ends,
            1,
            false,
            mem.base(),
            budget0.slots(),
            nothing,
            Seq::empty(),
            0,
            done,
            said,
            Seq::empty(),
        );
        assert(nothing + done =~= done);
        assert(Seq::empty() + (said.push(memory::Signal::Subpass) + Seq::empty()) =~= all);
    }
    failures
}

} // verus!
