//! Fill-and-verify rounds: the whole memory is filled with one word, then
//! checked, once for each word of a list.

use vstd::prelude::*;

use crate::failure::{Failure, FailureBudget};
use crate::memory::{self, Memory, Monitor};
use crate::ops;

verus! {

broadcast use crate::memory::lemma_slots_nonnegative;

/// A round for each of the first `n` words.
pub open spec fn rounds_script(words: Seq<u64>, len: int, n: int) -> Seq<memory::Step>
    decreases n,
{
    if n <= 0 {
        Seq::empty()
    } else {
        rounds_script(words, len, n - 1) + ops::round_script(ops::constant_words(words[n - 1]), len)
    }
}

/// How many steps the first rounds take.
pub open spec fn rounds_ends(words: Seq<u64>, len: int) -> spec_fn(int) -> int {
    |n: int| rounds_script(words, len, n).len() as int
}

/// Each word adds its round to the script.
proof fn lemma_rounds_grow(words: Seq<u64>, len: int, m: int, n: int)
    requires
        0 <= m <= n,
    ensures
        rounds_script(words, len, m).len() <= rounds_script(words, len, n).len(),
        rounds_script(words, len, n) == rounds_script(words, len, m) + rounds_script(
            words,
            len,
            n,
        ).skip(rounds_script(words, len, m).len() as int),
    decreases n,
{
    let short = rounds_script(words, len, m);
    let long = rounds_script(words, len, n);
    if m == n {
        assert(long =~= short + long.skip(short.len() as int));
    } else {
        lemma_rounds_grow(words, len, m, n - 1);
        let middle = rounds_script(words, len, n - 1);
        assert(forall|k: int| 0 <= k < short.len() ==> #[trigger] long[k] == middle[k]);
        assert(forall|k: int|
            0 <= k < short.len() ==> #[trigger] middle[k] == (short + middle.skip(
                short.len() as int,
            ))[k]);
        assert(long =~= short + long.skip(short.len() as int));
    }
}

/// What is said during a round, which ends with the announcement of its end.
proof fn lemma_round_said(said: Seq<memory::Signal>)
    requires
        said.len() > 0,
        said.last() == memory::Signal::Subpass,
        memory::subpasses(said) == 1,
        !memory::quits(said),
    ensures
        memory::subpasses(said.drop_last()) == 0,
        !memory::quits(said.drop_last()),
        said == said.drop_last().push(memory::Signal::Subpass),
        memory::obedient(said),
{
    let one = seq![memory::Signal::Subpass];
    assert(said =~= said.drop_last() + one);
    memory::lemma_quits_concat(said.drop_last(), one);
    assert(said =~= said.drop_last().push(memory::Signal::Subpass));
    memory::lemma_quiet_obedient(said.drop_last());
}

/// Fill with `pattern`, verify within the budget, then announce the sub-pass.
pub fn fill_and_verify<M: Memory, N: Monitor>(
    mem: &mut M,
    monitor: &mut N,
    pattern: u64,
    parallel: bool,
    budget: &mut FailureBudget,
) -> (failures: Vec<Failure>)
    ensures
        final(mem).size() == old(mem).size(),
        final(mem).base() == old(mem).base(),
        memory::extends(old(mem).trace(), final(mem).trace()),
        memory::extends(old(monitor).log(), final(monitor).log()),
        final(monitor).log().last() == memory::Signal::Subpass,
        ops::round_ends(
            ops::constant_words(pattern),
            old(mem).size(),
            old(mem).base(),
            parallel,
            *old(budget),
            *final(budget),
            memory::since(old(mem).trace(), final(mem).trace()),
            memory::since(old(monitor).log(), final(monitor).log().drop_last()),
            failures@,
        ),
        memory::subpasses(memory::since(old(monitor).log(), final(monitor).log())) == 1,
        !memory::quits(memory::since(old(monitor).log(), final(monitor).log())),
        memory::ran(
            ops::round_script(ops::constant_words(pattern), old(mem).size()),
            1,
            old(mem).base(),
            *old(budget),
            *final(budget),
            memory::since(old(mem).trace(), final(mem).trace()),
            memory::since(old(monitor).log(), final(monitor).log()),
            failures@,
        ),
{
    let ghost log0 = monitor.log();
    let ghost len: int = mem.size();
    let ghost trace0 = mem.trace();
    let ghost budget0 = *budget;
    let count: usize = mem.word_count();
    let failures = ops::fill_verify_constant(mem, monitor, pattern, parallel, budget);
    let ghost log1 = monitor.log();
    monitor.subpass();
    proof {
        let said = memory::since(log0, log1);
        let done = memory::since(trace0, mem.trace());
        ops::lemma_round_ran(
            ops::constant_words(pattern),
            len,
            mem.base(),
            parallel,
            budget0,
            *budget,
            done,
            said,
            failures@,
        );
        assert(monitor.log().drop_last() =~= log1);
        assert(monitor.log().take(log0.len() as int) =~= log1.take(log0.len() as int));
        let all = memory::since(log0, monitor.log());
        assert(all.drop_last() =~= said);
        assert(all =~= said + seq![memory::Signal::Subpass]);
        memory::lemma_quits_concat(said, seq![memory::Signal::Subpass]);
    }
    failures
}

/// Run a round for each word of `words` in turn. Before each round, but for the
/// first unless `poll_first`, the run ends if the budget is used up or the
/// operator asks for a stop.
pub fn run_rounds<M: Memory, N: Monitor>(
    mem: &mut M,
    monitor: &mut N,
    words: &[u64],
    poll_first: bool,
    parallel: bool,
    budget: &mut FailureBudget,
) -> (failures: Vec<Failure>)
    ensures
        final(mem).size() == old(mem).size(),
        final(mem).base() == old(mem).base(),
        memory::extends(old(mem).trace(), final(mem).trace()),
        memory::extends(old(monitor).log(), final(monitor).log()),
        memory::ran(
            rounds_script(words@, old(mem).size(), words@.len() as int),
            words@.len() as int,
            old(mem).base(),
            *old(budget),
            *final(budget),
            memory::since(old(mem).trace(), final(mem).trace()),
            memory::since(old(monitor).log(), final(monitor).log()),
            failures@,
        ),
        memory::heeds(
            rounds_script(words@, old(mem).size(), words@.len() as int),
            rounds_ends(words@, old(mem).size()),
            words@.len() as int,
            poll_first,
            old(mem).base(),
            old(budget).slots(),
            memory::since(old(mem).trace(), final(mem).trace()),
            memory::since(old(monitor).log(), final(monitor).log()),
        ),
{
    let ghost trace0 = mem.trace();
    let ghost log0 = monitor.log();
    let ghost budget0 = *budget;
    let ghost slots = budget.slots();
    let ghost len = mem.size();
    let ghost base = mem.base();
    let ghost total = words@.len() as int;
    let ghost script = rounds_script(words@, len, total);
    let ghost ends = rounds_ends(words@, len);
    let mut failures: Vec<Failure> = Vec::new();
    let mut w: usize = 0;
    proof {
        memory::lemma_since_self(trace0);
        memory::lemma_since_self(log0);
        memory::lemma_ran_nothing(base, budget0);
        assert(failures@ =~= Seq::empty());
        memory::lemma_may_begin(script, ends, base, slots);
    }
    if words.len() == 0 {
        proof {
            memory::lemma_heeds_nothing(script, ends, total, poll_first, base, slots);
        }
        return failures;
    }
    if poll_first {
        let mut stop: bool = budget.is_exhausted();
        if !stop {
            stop = monitor.quit_requested();
            proof {
                let said = seq![memory::Signal::Poll { quit: stop }];
                memory::lemma_extends_push(log0, log0, said[0]);
                assert(memory::since(log0, monitor.log()) =~= said);
                memory::lemma_polled_first(script, ends, total, base, slots, stop);
                assert(memory::ran(
                    Seq::empty(),
                    0,
                    base,
                    budget0,
                    *budget,
                    Seq::empty(),
                    said,
                    failures@,
                ));
            }
        }
        if stop {
            proof {
                let said = memory::since(log0, monitor.log());
                memory::lemma_heeds_nothing(script, ends, total, poll_first, base, slots);
                memory::lemma_ran_early(
                    Seq::empty(),
                    script,
                    0,
                    total,
                    base,
                    budget0,
                    *budget,
                    Seq::empty(),
                    said,
                    failures@,
                );
                assert(Seq::<memory::Step>::empty() + script =~= script);
            }
            return failures;
        }
    }
    while w < words.len()
        invariant
            w <= words.len(),
            0 < words.len(),
            total == words@.len(),
            len == mem.size(),
            base == mem.base(),
            slots == budget0.slots(),
            script == rounds_script(words@, len, total),
            ends == rounds_ends(words@, len),
            trace0 == old(mem).trace(),
            log0 == old(monitor).log(),
            budget0 == *old(budget),
            len == old(mem).size(),
            base == old(mem).base(),
            memory::extends(trace0, mem.trace()),
            memory::extends(log0, monitor.log()),
            memory::subpasses(memory::since(log0, monitor.log())) == w,
            memory::ran(
                rounds_script(words@, len, w as int),
                w as int,
                base,
                budget0,
                *budget,
                memory::since(trace0, mem.trace()),
                memory::since(log0, monitor.log()),
                failures@,
            ),
            w < words.len() ==> memory::may_go_on(
                script,
                ends,
                poll_first,
                base,
                slots,
                memory::since(trace0, mem.trace()),
                memory::since(log0, monitor.log()),
                w as int,
            ),
            w == words.len() ==> memory::heeds(
                script,
                ends,
                total,
                poll_first,
                base,
                slots,
                memory::since(trace0, mem.trace()),
                memory::since(log0, monitor.log()),
            ),
        decreases words.len() - w,
    {
        let ghost log1 = monitor.log();
        let ghost trace1 = mem.trace();
        let ghost done1 = memory::since(trace0, trace1);
        let ghost said1 = memory::since(log0, log1);
        let ghost budget1 = *budget;
        let ghost kept1 = failures@;
        let mut found = fill_and_verify(mem, monitor, words[w], parallel, budget);
        let ghost fresh_kept = found@;
        failures.append(&mut found);
        let ghost log2 = monitor.log();
        let ghost fresh = memory::since(trace1, mem.trace());
        let ghost said = memory::since(log1, log2);
        let ghost quiet = said.drop_last();
        let ghost script2 = rounds_script(words@, len, w + 1);
        proof {
            let step = ops::round_script(ops::constant_words(words@[w as int]), len);
            memory::lemma_since_since(trace0, trace1, mem.trace());
            memory::lemma_since_since(log0, log1, log2);
            assert(failures@ =~= kept1 + fresh_kept);
            memory::lemma_ran_both(
                rounds_script(words@, len, w as int),
                w as int,
                step,
                1,
                base,
                budget0,
                budget1,
                *budget,
                done1,
                said1,
                kept1,
                fresh,
                said,
                fresh_kept,
            );
            lemma_rounds_grow(words@, len, w + 1, total);
            memory::lemma_mismatches_of_prefix(
                script2,
                script.skip(script2.len() as int),
                done1 + fresh,
                base,
            );
            lemma_round_said(said);
            assert forall|j: int| 0 <= j <= w implies 0 <= #[trigger] ends(j) <= ends(w as int) by {
                lemma_rounds_grow(words@, len, j, w as int);
            }
            memory::lemma_heeds_step(
                script,
                ends,
                total,
                poll_first,
                base,
                slots,
                done1,
                said1,
                w as int,
                fresh,
                quiet,
                Seq::empty(),
            );
            assert(quiet.push(memory::Signal::Subpass) + Seq::empty() =~= said);
        }
        w = w + 1;
        if w < words.len() {
            let mut stop: bool = budget.is_exhausted();
            if !stop {
                stop = monitor.quit_requested();
                proof {
                    let poll = memory::Signal::Poll { quit: stop };
                    let polls = seq![poll];
                    memory::lemma_extends_push(log0, log2, poll);
                    assert(quiet.push(memory::Signal::Subpass) + polls =~= said.push(poll));
                    assert(memory::since(log0, monitor.log()) =~= said1 + (quiet.push(
                        memory::Signal::Subpass,
                    ) + polls));
                    assert(memory::since(log0, monitor.log()) =~= memory::since(log0, log2)
                        + polls);
                    memory::lemma_subpasses_concat(memory::since(log0, log2), polls);
                    memory::lemma_quits_concat(memory::since(log0, log2), polls);
                    memory::lemma_polled_first(script, ends, total, base, slots, stop);
                    memory::lemma_heeds_step(
                        script,
                        ends,
                        total,
                        poll_first,
                        base,
                        slots,
                        done1,
                        said1,
                        w - 1,
                        fresh,
                        quiet,
                        polls,
                    );
                }
            }
            if stop {
                proof {
                    memory::lemma_ran_early(
                        script2,
                        script.skip(script2.len() as int),
                        w as int,
                        total - w,
                        base,
                        budget0,
                        *budget,
                        memory::since(trace0, mem.trace()),
                        memory::since(log0, monitor.log()),
                        failures@,
                    );
                }
                return failures;
            }
        }
    }
    failures
}

} // verus!
