//! What the patterns promise of memory: sound memory passes every pattern, and
//! memory with a stuck bit or with two addresses for one cell does not.

use vstd::prelude::*;

use crate::failure::{Failure, FailureBudget};
use crate::memory;
use crate::ops;
use crate::pattern::sweep::{CellOp, Direction};
use crate::pattern::{march, moving_inversions, random, rounds, sweep, Pattern};

verus! {

/// The word that a script leaves at an index, if it writes there.
pub open spec fn held(script: Seq<memory::Step>, index: int) -> Option<u64>
    decreases script.len(),
{
    if script.len() == 0 {
        None
    } else {
        match script.last() {
            memory::Step::Write { index: i, word } if i == index => Some(word),
            _ => held(script.drop_last(), index),
        }
    }
}

/// The word last stored at an index, if any was.
pub open spec fn stored(done: Seq<memory::Access>, index: int) -> Option<u64>
    decreases done.len(),
{
    if done.len() == 0 {
        None
    } else {
        match done.last() {
            memory::Access::Write { index: i, word } if i == index => Some(word),
            _ => stored(done.drop_last(), index),
        }
    }
}

/// Whether a script expects of each read what it wrote there last.
pub open spec fn consistent(script: Seq<memory::Step>) -> bool {
    forall|k: int|
        0 <= k < script.len() ==> match #[trigger] script[k] {
            memory::Step::Read { index, expected } => held(script.take(k), index) == Some(expected),
            _ => true,
        }
}

/// Whether memory was sound: each read of a cell that had been stored to gave
/// back the word stored last.
pub open spec fn faithful(done: Seq<memory::Access>) -> bool {
    forall|k: int|
        0 <= k < done.len() ==> match #[trigger] done[k] {
            memory::Access::Read { index, word } => stored(done.take(k), index) is Some ==> stored(
                done.take(k),
                index,
            ) == Some(word),
            _ => true,
        }
}

/// What has been stored is what the script wrote.
proof fn lemma_stored_is_held(script: Seq<memory::Step>, done: Seq<memory::Access>, index: int)
    requires
        memory::performs(script, done),
    ensures
        stored(done, index) == held(script.take(done.len() as int), index),
    decreases done.len(),
{
    if done.len() > 0 {
        let n = done.len() as int;
        let shorter = done.drop_last();
        assert(memory::performs(script, shorter)) by {
            assert forall|k: int| 0 <= k < shorter.len() implies memory::obeys(
                script[k],
                #[trigger] shorter[k],
            ) by {
                assert(memory::obeys(script[k], done[k]));
            }
        }
        lemma_stored_is_held(script, shorter, index);
        assert(script.take(n).drop_last() =~= script.take(n - 1));
        assert(memory::obeys(script[n - 1], done[n - 1]));
        assert(script.take(n).last() == script[n - 1]);
    }
}

/// Sound memory shows no mismatch on a script that expects what it wrote.
pub proof fn law_sound_memory_shows_no_mismatch(
    script: Seq<memory::Step>,
    done: Seq<memory::Access>,
    base: int,
)
    requires
        consistent(script),
        memory::performs(script, done),
        faithful(done),
    ensures
        memory::mismatches(script, done, base) == Seq::<Failure>::empty(),
    decreases done.len(),
{
    if done.len() > 0 {
        let n = done.len() as int;
        let shorter = done.drop_last();
        assert forall|k: int| 0 <= k < shorter.len() implies memory::obeys(
            script[k],
            #[trigger] shorter[k],
        ) by {
            assert(memory::obeys(script[k], done[k]));
        }
        assert(faithful(shorter)) by {
            assert forall|k: int| 0 <= k < shorter.len() implies match #[trigger] shorter[k] {
                memory::Access::Read { index, word } => stored(shorter.take(k), index) is Some
                    ==> stored(shorter.take(k), index) == Some(word),
                _ => true,
            } by {
                assert(shorter.take(k) =~= done.take(k));
                assert(shorter[k] == done[k]);
            }
        }
        law_sound_memory_shows_no_mismatch(script, shorter, base);
        assert(memory::obeys(script[n - 1], done[n - 1]));
        match script[n - 1] {
            memory::Step::Read { index, expected } => {
                lemma_stored_is_held(script, shorter, index);
                assert(done.take(n - 1) =~= shorter);
                assert(done[n - 1] is Read);
            },
            _ => {},
        }
        assert(memory::mismatches(script, done, base) =~= Seq::<Failure>::empty());
    }
}

/// A later part of a script overrides an earlier one.
proof fn lemma_held_concat(a: Seq<memory::Step>, b: Seq<memory::Step>, index: int)
    ensures
        held(a + b, index) == (if held(b, index) is Some {
            held(b, index)
        } else {
            held(a, index)
        }),
    decreases b.len(),
{
    if b.len() == 0 {
        assert(a + b =~= a);
    } else {
        assert((a + b).drop_last() =~= a + b.drop_last());
        lemma_held_concat(a, b.drop_last(), index);
    }
}

/// A script goes on being consistent if each read added expects what is held.
proof fn lemma_consistent_concat(a: Seq<memory::Step>, b: Seq<memory::Step>)
    requires
        consistent(a),
        forall|k: int|
            0 <= k < b.len() ==> match #[trigger] b[k] {
                memory::Step::Read { index, expected } => held(a + b.take(k), index) == Some(
                    expected,
                ),
                _ => true,
            },
    ensures
        consistent(a + b),
{
    let both = a + b;
    assert forall|k: int| 0 <= k < both.len() implies match #[trigger] both[k] {
        memory::Step::Read { index, expected } => held(both.take(k), index) == Some(expected),
        _ => true,
    } by {
        if k < a.len() {
            assert(both.take(k) =~= a.take(k));
            assert(both[k] == a[k]);
        } else {
            let j = k - a.len();
            assert(both.take(k) =~= a + b.take(j));
            assert(both[k] == b[j]);
        }
    }
}

/// A fill leaves its words behind.
proof fn lemma_fill_holds(words: spec_fn(int) -> u64, len: int, n: int, index: int)
    requires
        0 <= n <= len,
    ensures
        held(ops::fill_script(words, len).take(n), index) == (if 0 <= index < n {
            Some(words(index))
        } else {
            None
        }),
    decreases n,
{
    if n > 0 {
        lemma_fill_holds(words, len, n - 1, index);
        let fill = ops::fill_script(words, len);
        assert(fill.take(n).drop_last() =~= fill.take(n - 1));
    }
}

/// Reads leave nothing behind.
proof fn lemma_verify_holds_nothing(words: spec_fn(int) -> u64, len: int, n: int, index: int)
    requires
        0 <= n <= len,
    ensures
        held(ops::verify_script(words, len).take(n), index) == None::<u64>,
    decreases n,
{
    if n > 0 {
        lemma_verify_holds_nothing(words, len, n - 1, index);
        let check = ops::verify_script(words, len);
        assert(check.take(n).drop_last() =~= check.take(n - 1));
    }
}

/// A fill-and-verify round after a consistent script is consistent.
pub proof fn lemma_round_consistent(
    prior: Seq<memory::Step>,
    words: spec_fn(int) -> u64,
    len: int,
)
    requires
        0 <= len,
        consistent(prior),
    ensures
        consistent(prior + ops::round_script(words, len)),
{
    let fill = ops::fill_script(words, len);
    let check = ops::verify_script(words, len);
    lemma_consistent_concat(prior, fill);
    assert forall|k: int| 0 <= k < check.len() implies match #[trigger] check[k] {
        memory::Step::Read { index, expected } => held(prior + fill + check.take(k), index) == Some(
            expected,
        ),
        _ => true,
    } by {
        lemma_held_concat(prior + fill, check.take(k), k);
        lemma_verify_holds_nothing(words, len, k, k);
        lemma_held_concat(prior, fill, k);
        lemma_fill_holds(words, len, len, k);
        assert(fill.take(len) =~= fill);
    }
    lemma_consistent_concat(prior + fill, check);
    assert(prior + fill + check =~= prior + ops::round_script(words, len));
}

/// The word in a cell after the first `j` operations, when it was `before`.
pub open spec fn cell_after(ops: Seq<CellOp>, before: Option<u64>, j: int) -> Option<u64>
    decreases j,
{
    if j <= 0 {
        before
    } else {
        match ops[j - 1] {
            CellOp::Write(word) => Some(word),
            CellOp::Read(_) => cell_after(ops, before, j - 1),
        }
    }
}

/// Whether each read of an element expects what the cell then holds.
pub open spec fn ops_consistent(ops: Seq<CellOp>, before: Option<u64>) -> bool {
    forall|j: int|
        0 <= j < ops.len() ==> match #[trigger] ops[j] {
            CellOp::Read(expected) => cell_after(ops, before, j) == Some(expected),
            CellOp::Write(_) => true,
        }
}

/// What the operations at one cell leave there, and that they leave other cells
/// alone.
proof fn lemma_cell_holds(ops: Seq<CellOp>, at: int, j: int, index: int)
    requires
        0 <= j <= ops.len(),
    ensures
        index != at ==> held(sweep::cell_script(ops, at).take(j), index) == None::<u64>,
        held(sweep::cell_script(ops, at).take(j), at) == cell_after(ops, None, j),
    decreases j,
{
    if j > 0 {
        lemma_cell_holds(ops, at, j - 1, index);
        let script = sweep::cell_script(ops, at);
        assert(script.take(j).drop_last() =~= script.take(j - 1));
        assert(script.take(j).last() == sweep::cell_step(ops[j - 1], at));
    }
}

/// Operations after nothing, or after something.
proof fn lemma_cell_after(ops: Seq<CellOp>, before: Option<u64>, j: int)
    ensures
        cell_after(ops, before, j) == (if cell_after(ops, None, j) is Some {
            cell_after(ops, None, j)
        } else {
            before
        }),
    decreases j,
{
    if j > 0 {
        lemma_cell_after(ops, before, j - 1);
    }
}

/// A sweep over memory that holds `before` everywhere is consistent if its
/// operations are, and changes the cells visited only.
pub proof fn lemma_sweep_consistent(
    prior: Seq<memory::Step>,
    dir: Direction,
    ops: Seq<CellOp>,
    before: Option<u64>,
    len: int,
    n: int,
)
    requires
        0 <= n <= len,
        consistent(prior),
        ops_consistent(ops, before),
        forall|i: int| 0 <= i < len ==> #[trigger] held(prior, i) == before,
    ensures
        consistent(prior + sweep::sweep_script(dir, ops, len, n)),
        forall|k: int|
            0 <= k < len ==> held(
                prior + sweep::sweep_script(dir, ops, len, n),
                #[trigger] sweep::cell(dir, len, k),
            ) == (if k < n {
                cell_after(ops, before, ops.len() as int)
            } else {
                before
            }),
    decreases n,
{
    if n == 0 {
        assert(prior + sweep::sweep_script(dir, ops, len, 0) =~= prior);
    } else {
        lemma_sweep_consistent(prior, dir, ops, before, len, n - 1);
        let rest = prior + sweep::sweep_script(dir, ops, len, n - 1);
        let at = sweep::cell(dir, len, n - 1);
        let script = sweep::cell_script(ops, at);
        let all = prior + sweep::sweep_script(dir, ops, len, n);
        assert(rest + script =~= all);
        assert(held(rest, at) == before);
        assert forall|j: int| 0 <= j < script.len() implies match #[trigger] script[j] {
            memory::Step::Read { index, expected } => held(rest + script.take(j), index) == Some(
                expected,
            ),
            _ => true,
        } by {
            assert(script[j] == sweep::cell_step(ops[j], at));
            lemma_held_concat(rest, script.take(j), at);
            lemma_cell_holds(ops, at, j, at);
            lemma_cell_after(ops, before, j);
        }
        lemma_consistent_concat(rest, script);
        assert forall|k: int| 0 <= k < len implies held(
            all,
            #[trigger] sweep::cell(dir, len, k),
        ) == (if k < n {
            cell_after(ops, before, ops.len() as int)
        } else {
            before
        }) by {
            let index = sweep::cell(dir, len, k);
            lemma_held_concat(rest, script, index);
            lemma_cell_holds(ops, at, ops.len() as int, index);
            assert(script.take(ops.len() as int) =~= script);
            lemma_cell_after(ops, before, ops.len() as int);
        }
    }
}

/// A full sweep leaves the same word everywhere.
proof fn lemma_full_sweep(
    prior: Seq<memory::Step>,
    dir: Direction,
    ops: Seq<CellOp>,
    before: Option<u64>,
    len: int,
)
    requires
        0 <= len,
        consistent(prior),
        ops_consistent(ops, before),
        forall|i: int| 0 <= i < len ==> #[trigger] held(prior, i) == before,
    ensures
        consistent(prior + sweep::sweep_script(dir, ops, len, len)),
        forall|i: int|
            0 <= i < len ==> #[trigger] held(prior + sweep::sweep_script(dir, ops, len, len), i)
                == cell_after(ops, before, ops.len() as int),
{
    lemma_sweep_consistent(prior, dir, ops, before, len, len);
    let all = prior + sweep::sweep_script(dir, ops, len, len);
    assert forall|i: int| 0 <= i < len implies #[trigger] held(all, i) == cell_after(
        ops,
        before,
        ops.len() as int,
    ) by {
        let k = match dir {
            Direction::Ascending => i,
            Direction::Descending => len - 1 - i,
        };
        assert(sweep::cell(dir, len, k) == i);
    }
}

/// What the passes up to `n` leave everywhere.
pub open spec fn pass_after(passes: Seq<sweep::Pass>, n: int) -> Option<u64>
    decreases n,
{
    if n <= 0 {
        None
    } else {
        cell_after(passes[n - 1].ops, pass_after(passes, n - 1), passes[n - 1].ops.len() as int)
    }
}

/// Passes are consistent, one after the other, if each expects what the earlier
/// ones left.
pub proof fn lemma_passes_consistent(passes: Seq<sweep::Pass>, len: int, n: int)
    requires
        0 <= len,
        0 <= n <= passes.len(),
        forall|p: int|
            0 <= p < n ==> ops_consistent((#[trigger] passes[p]).ops, pass_after(passes, p)),
    ensures
        consistent(sweep::passes_script(passes, len, n)),
        forall|i: int|
            0 <= i < len ==> #[trigger] held(sweep::passes_script(passes, len, n), i) == pass_after(
                passes,
                n,
            ),
    decreases n,
{
    if n > 0 {
        lemma_passes_consistent(passes, len, n - 1);
        let prior = sweep::passes_script(passes, len, n - 1);
        assert(ops_consistent(passes[n - 1].ops, pass_after(passes, n - 1)));
        lemma_full_sweep(
            prior,
            passes[n - 1].dir,
            passes[n - 1].ops,
            pass_after(passes, n - 1),
            len,
        );
    }
}

/// The rounds of a word list are consistent.
pub proof fn lemma_rounds_consistent(words: Seq<u64>, len: int, n: int)
    requires
        0 <= len,
        0 <= n,
    ensures
        consistent(rounds::rounds_script(words, len, n)),
    decreases n,
{
    if n > 0 {
        lemma_rounds_consistent(words, len, n - 1);
        lemma_round_consistent(
            rounds::rounds_script(words, len, n - 1),
            ops::constant_words(words[n - 1]),
            len,
        );
    }
}

/// The March C- sequence expects of each read what it wrote there last.
pub proof fn lemma_march_consistent(len: int)
    requires
        0 <= len,
    ensures
        consistent(march::march_script(len)),
{
    let passes = march::march_passes();
    reveal_with_fuel(pass_after, 7);
    reveal_with_fuel(cell_after, 3);
    assert(pass_after(passes, 1) == Some(march::word_of(false)));
    assert(pass_after(passes, 2) == Some(march::word_of(true)));
    assert(pass_after(passes, 3) == Some(march::word_of(false)));
    assert(pass_after(passes, 4) == Some(march::word_of(true)));
    assert(pass_after(passes, 5) == Some(march::word_of(false)));
    lemma_passes_consistent(passes, len, 6);
}

/// The moving-inversions sequence expects of each read what it wrote there last.
pub proof fn lemma_inversions_consistent(len: int)
    requires
        0 <= len,
    ensures
        consistent(moving_inversions::inversion_script(len)),
{
    let passes = moving_inversions::inversion_passes();
    let a = moving_inversions::SEED_SOLID;
    let b = moving_inversions::SEED_CHECKER;
    reveal_with_fuel(cell_after, 3);
    assert(passes[0] == moving_inversions::seed_passes(a)[0]);
    assert(pass_after(passes, 1) == Some(a));
    assert(pass_after(passes, 2) == Some(!a));
    assert(pass_after(passes, 3) == Some(a));
    assert(pass_after(passes, 4) == Some(a));
    assert(pass_after(passes, 5) == Some(b));
    assert(pass_after(passes, 6) == Some(!b));
    assert(pass_after(passes, 7) == Some(b));
    lemma_passes_consistent(passes, len, 8);
}

/// The random rounds expect of each read what they wrote there last.
pub proof fn lemma_random_consistent(seed: u64, len: int, n: int)
    requires
        0 <= len,
        0 <= n,
    ensures
        consistent(random::random_script(seed, len, n)),
    decreases n,
{
    if n > 0 {
        lemma_random_consistent(seed, len, n - 1);
        lemma_round_consistent(
            random::random_script(seed, len, n - 1),
            random::pass_words(seed, n - 1),
            len,
        );
    }
}

/// Every pattern expects of each read what it wrote there last.
pub proof fn lemma_pattern_consistent(pattern: Pattern, len: int)
    requires
        0 <= len,
    ensures
        consistent(pattern.script(len)),
{
    match pattern {
        Pattern::SolidBits => {
            lemma_rounds_consistent(crate::pattern::solid::solid_words(), len, 2);
        },
        Pattern::WalkingOnes => {
            lemma_rounds_consistent(crate::pattern::walking::walking_ones(), len, 64);
        },
        Pattern::WalkingZeros => {
            lemma_rounds_consistent(crate::pattern::walking::walking_zeros(), len, 64);
        },
        Pattern::Checkerboard => {
            lemma_rounds_consistent(crate::pattern::checkerboard::checker_words(), len, 2);
        },
        Pattern::StuckAddress => {
            let nothing = Seq::<memory::Step>::empty();
            lemma_round_consistent(nothing, ops::indexed_words(), len);
            assert(nothing + ops::round_script(ops::indexed_words(), len) =~= ops::round_script(
                ops::indexed_words(),
                len,
            ));
        },
        Pattern::MarchCMinus => {
            lemma_march_consistent(len);
        },
    }
}

/// Sound memory passes every pattern.
pub proof fn law_sound_memory_passes(
    pattern: Pattern,
    len: int,
    done: Seq<memory::Access>,
    base: int,
)
    requires
        0 <= len,
        memory::performs(pattern.script(len), done),
        faithful(done),
    ensures
        memory::mismatches(pattern.script(len), done, base) == Seq::<Failure>::empty(),
{
    lemma_pattern_consistent(pattern, len);
    law_sound_memory_shows_no_mismatch(pattern.script(len), done, base);
}

/// The rounds of a word list stay within the memory.
proof fn lemma_rounds_within(words: Seq<u64>, len: int, n: int)
    requires
        0 <= len,
    ensures
        forall|k: int|
            0 <= k < rounds::rounds_script(words, len, n).len() ==> 0 <= memory::step_at(
                #[trigger] rounds::rounds_script(words, len, n)[k],
            ) < len,
    decreases n,
{
    if n > 0 {
        lemma_rounds_within(words, len, n - 1);
        let prior = rounds::rounds_script(words, len, n - 1);
        let round = ops::round_script(ops::constant_words(words[n - 1]), len);
        let all = rounds::rounds_script(words, len, n);
        assert forall|k: int| 0 <= k < all.len() implies 0 <= memory::step_at(#[trigger] all[k])
            < len by {
            if k < prior.len() {
                assert(all[k] == prior[k]);
            } else {
                assert(all[k] == round[k - prior.len()]);
            }
        }
    }
}

/// The random rounds stay within the memory.
proof fn lemma_random_within(seed: u64, len: int, n: int)
    requires
        0 <= len,
    ensures
        forall|k: int|
            0 <= k < random::random_script(seed, len, n).len() ==> 0 <= memory::step_at(
                #[trigger] random::random_script(seed, len, n)[k],
            ) < len,
    decreases n,
{
    if n > 0 {
        lemma_random_within(seed, len, n - 1);
        let prior = random::random_script(seed, len, n - 1);
        let round = ops::round_script(random::pass_words(seed, n - 1), len);
        let all = random::random_script(seed, len, n);
        assert(all == prior + round);
        assert forall|k: int| 0 <= k < all.len() implies 0 <= memory::step_at(#[trigger] all[k])
            < len by {
            if k < prior.len() {
                assert(all[k] == prior[k]);
            } else {
                assert(all[k] == round[k - prior.len()]);
            }
        }
    }
}

/// A sweep stays within the memory.
proof fn lemma_sweep_within(dir: Direction, ops: Seq<CellOp>, len: int, n: int)
    requires
        0 <= n <= len,
    ensures
        forall|k: int|
            0 <= k < sweep::sweep_script(dir, ops, len, n).len() ==> 0 <= memory::step_at(
                #[trigger] sweep::sweep_script(dir, ops, len, n)[k],
            ) < len,
    decreases n,
{
    if n > 0 {
        lemma_sweep_within(dir, ops, len, n - 1);
        let prior = sweep::sweep_script(dir, ops, len, n - 1);
        let at = sweep::cell(dir, len, n - 1);
        let cell = sweep::cell_script(ops, at);
        let all = sweep::sweep_script(dir, ops, len, n);
        assert forall|k: int| 0 <= k < all.len() implies 0 <= memory::step_at(#[trigger] all[k])
            < len by {
            if k < prior.len() {
                assert(all[k] == prior[k]);
            } else {
                assert(all[k] == cell[k - prior.len()]);
                assert(cell[k - prior.len()] == sweep::cell_step(ops[k - prior.len()], at));
            }
        }
    }
}

/// Passes stay within the memory.
proof fn lemma_passes_within(passes: Seq<sweep::Pass>, len: int, n: int)
    requires
        0 <= len,
    ensures
        forall|k: int|
            0 <= k < sweep::passes_script(passes, len, n).len() ==> 0 <= memory::step_at(
                #[trigger] sweep::passes_script(passes, len, n)[k],
            ) < len,
    decreases n,
{
    if n > 0 {
        lemma_passes_within(passes, len, n - 1);
        let last = passes[n - 1];
        lemma_sweep_within(last.dir, last.ops, len, len);
        let prior = sweep::passes_script(passes, len, n - 1);
        let tail = sweep::sweep_script(last.dir, last.ops, len, len);
        let all = sweep::passes_script(passes, len, n);
        assert forall|k: int| 0 <= k < all.len() implies 0 <= memory::step_at(#[trigger] all[k])
            < len by {
            if k < prior.len() {
                assert(all[k] == prior[k]);
            } else {
                assert(all[k] == tail[k - prior.len()]);
            }
        }
    }
}

/// Every pattern stays within the memory.
pub proof fn lemma_pattern_within(pattern: Pattern, len: int)
    requires
        0 <= len,
    ensures
        forall|k: int|
            0 <= k < pattern.script(len).len() ==> 0 <= memory::step_at(
                #[trigger] pattern.script(len)[k],
            ) < len,
{
    match pattern {
        Pattern::SolidBits => {
            lemma_rounds_within(crate::pattern::solid::solid_words(), len, 2);
        },
        Pattern::WalkingOnes => {
            lemma_rounds_within(crate::pattern::walking::walking_ones(), len, 64);
        },
        Pattern::WalkingZeros => {
            lemma_rounds_within(crate::pattern::walking::walking_zeros(), len, 64);
        },
        Pattern::Checkerboard => {
            lemma_rounds_within(crate::pattern::checkerboard::checker_words(), len, 2);
        },
        Pattern::StuckAddress => {},
        Pattern::MarchCMinus => {
            lemma_passes_within(march::march_passes(), len, 6);
        },
    }
}

/// What a run of a script that expects what it wrote says of each failure.
proof fn lemma_failure_tells(
    script: Seq<memory::Step>,
    passes: int,
    base: int,
    before: FailureBudget,
    after: FailureBudget,
    done: Seq<memory::Access>,
    signals: Seq<memory::Signal>,
    kept: Seq<Failure>,
    len: int,
    i: int,
) -> (k: int)
    requires
        memory::ran(script, passes, base, before, after, done, signals, kept),
        consistent(script),
        forall|k: int| 0 <= k < script.len() ==> 0 <= memory::step_at(#[trigger] script[k]) < len,
        0 <= base,
        base + 8 * len <= usize::MAX + 1,
        0 <= i < kept.len(),
    ensures
        0 <= k < done.len(),
        done[k] == (memory::Access::Read {
            index: kept[i].word_index as int,
            word: kept[i].actual,
        }),
        stored(done.take(k), kept[i].word_index as int) == Some(kept[i].expected),
        kept[i].actual != kept[i].expected,
        kept[i].word_index < len,
        kept[i].addr == base + 8 * kept[i].word_index,
{
    let at = memory::law_failures_are_the_wrong_reads(
        script,
        passes,
        base,
        before,
        after,
        done,
        signals,
        kept,
        len,
    );
    let k = at[i];
    assert(0 <= k < done.len());
    let prefix = done.take(k);
    assert forall|m: int| 0 <= m < prefix.len() implies memory::obeys(
        script[m],
        #[trigger] prefix[m],
    ) by {
        assert(memory::obeys(script[m], done[m]));
    }
    lemma_stored_is_held(script, prefix, kept[i].word_index as int);
    assert(script[k] == memory::Step::Read {
        index: kept[i].word_index as int,
        expected: kept[i].expected,
    });
    k
}

/// What each failure of a pattern says is true of the memory of `len` words at address
/// `base`: at some point of the run a load from the word with the index of the failure
/// gave back `actual`; the word last stored there before that was `expected`, and
/// another; and the failure is at the address of that word.
pub proof fn law_failure_tells_what_was_read(
    pattern: Pattern,
    len: int,
    base: int,
    before: FailureBudget,
    after: FailureBudget,
    done: Seq<memory::Access>,
    signals: Seq<memory::Signal>,
    kept: Seq<Failure>,
    i: int,
) -> (k: int)
    requires
        memory::ran(
            pattern.script(len),
            pattern.passes(),
            base,
            before,
            after,
            done,
            signals,
            kept,
        ),
        0 <= len,
        0 <= base,
        base + 8 * len <= usize::MAX + 1,
        0 <= i < kept.len(),
    ensures
        0 <= k < done.len(),
        done[k] == (memory::Access::Read {
            index: kept[i].word_index as int,
            word: kept[i].actual,
        }),
        stored(done.take(k), kept[i].word_index as int) == Some(kept[i].expected),
        kept[i].actual != kept[i].expected,
        kept[i].word_index < len,
        kept[i].addr == base + 8 * kept[i].word_index,
{
    lemma_pattern_consistent(pattern, len);
    lemma_pattern_within(pattern, len);
    lemma_failure_tells(
        pattern.script(len),
        pattern.passes(),
        base,
        before,
        after,
        done,
        signals,
        kept,
        len,
        i,
    )
}

/// What each failure of moving inversions says is true of the memory, as it is of the
/// patterns.
pub proof fn law_inversion_failure_tells_what_was_read(
    passes: int,
    len: int,
    base: int,
    before: FailureBudget,
    after: FailureBudget,
    done: Seq<memory::Access>,
    signals: Seq<memory::Signal>,
    kept: Seq<Failure>,
    i: int,
) -> (k: int)
    requires
        memory::ran(
            moving_inversions::inversion_script(len),
            passes,
            base,
            before,
            after,
            done,
            signals,
            kept,
        ),
        0 <= len,
        0 <= base,
        base + 8 * len <= usize::MAX + 1,
        0 <= i < kept.len(),
    ensures
        0 <= k < done.len(),
        done[k] == (memory::Access::Read {
            index: kept[i].word_index as int,
            word: kept[i].actual,
        }),
        stored(done.take(k), kept[i].word_index as int) == Some(kept[i].expected),
        kept[i].actual != kept[i].expected,
        kept[i].word_index < len,
        kept[i].addr == base + 8 * kept[i].word_index,
{
    lemma_inversions_consistent(len);
    lemma_passes_within(moving_inversions::inversion_passes(), len, 8);
    lemma_failure_tells(
        moving_inversions::inversion_script(len),
        passes,
        base,
        before,
        after,
        done,
        signals,
        kept,
        len,
        i,
    )
}

/// What each failure of the random rounds says is true of the memory, whatever the seed.
pub proof fn law_random_failure_tells_what_was_read(
    seed: u64,
    rounds: int,
    passes: int,
    len: int,
    base: int,
    before: FailureBudget,
    after: FailureBudget,
    done: Seq<memory::Access>,
    signals: Seq<memory::Signal>,
    kept: Seq<Failure>,
    i: int,
) -> (k: int)
    requires
        memory::ran(
            random::random_script(seed, len, rounds),
            passes,
            base,
            before,
            after,
            done,
            signals,
            kept,
        ),
        0 <= len,
        0 <= rounds,
        0 <= base,
        base + 8 * len <= usize::MAX + 1,
        0 <= i < kept.len(),
    ensures
        0 <= k < done.len(),
        done[k] == (memory::Access::Read {
            index: kept[i].word_index as int,
            word: kept[i].actual,
        }),
        stored(done.take(k), kept[i].word_index as int) == Some(kept[i].expected),
        kept[i].actual != kept[i].expected,
        kept[i].word_index < len,
        kept[i].addr == base + 8 * kept[i].word_index,
{
    lemma_random_consistent(seed, len, rounds);
    lemma_random_within(seed, len, rounds);
    lemma_failure_tells(
        random::random_script(seed, len, rounds),
        passes,
        base,
        before,
        after,
        done,
        signals,
        kept,
        len,
        i,
    )
}

/// A pattern run on memory whose words are all sound but one reports that word only, at
/// its own address.
pub proof fn law_pattern_reports_the_broken_word(
    pattern: Pattern,
    len: int,
    base: int,
    before: FailureBudget,
    after: FailureBudget,
    done: Seq<memory::Access>,
    signals: Seq<memory::Signal>,
    kept: Seq<Failure>,
    broken: int,
)
    requires
        memory::ran(
            pattern.script(len),
            pattern.passes(),
            base,
            before,
            after,
            done,
            signals,
            kept,
        ),
        0 <= len,
        0 <= base,
        base + 8 * len <= usize::MAX + 1,
        forall|k: int|
            0 <= k < done.len() ==> match #[trigger] done[k] {
                memory::Access::Read { index, word } => index != broken && stored(
                    done.take(k),
                    index,
                ) is Some ==> stored(done.take(k), index) == Some(word),
                _ => true,
            },
    ensures
        forall|i: int|
            0 <= i < kept.len() ==> (#[trigger] kept[i]).word_index == broken && kept[i].addr
                == base + 8 * broken,
{
    assert forall|i: int| 0 <= i < kept.len() implies (#[trigger] kept[i]).word_index == broken
        && kept[i].addr == base + 8 * broken by {
        let k = law_failure_tells_what_was_read(
            pattern,
            len,
            base,
            before,
            after,
            done,
            signals,
            kept,
            i,
        );
        assert(0 <= k < done.len());
        assert(done[k] == memory::Access::Read {
            index: kept[i].word_index as int,
            word: kept[i].actual,
        });
    }
}

/// Sound memory passes moving inversions.
pub proof fn law_sound_memory_passes_inversions(
    len: int,
    done: Seq<memory::Access>,
    base: int,
)
    requires
        0 <= len,
        memory::performs(moving_inversions::inversion_script(len), done),
        faithful(done),
    ensures
        memory::mismatches(moving_inversions::inversion_script(len), done, base) == Seq::<
            Failure,
        >::empty(),
{
    lemma_inversions_consistent(len);
    law_sound_memory_shows_no_mismatch(moving_inversions::inversion_script(len), done, base);
}

/// Sound memory passes the random rounds, whatever the seed.
pub proof fn law_sound_memory_passes_random(
    seed: u64,
    passes: int,
    len: int,
    done: Seq<memory::Access>,
    base: int,
)
    requires
        0 <= len,
        0 <= passes,
        memory::performs(random::random_script(seed, len, passes), done),
        faithful(done),
    ensures
        memory::mismatches(random::random_script(seed, len, passes), done, base) == Seq::<
            Failure,
        >::empty(),
{
    lemma_random_consistent(seed, len, passes);
    law_sound_memory_shows_no_mismatch(random::random_script(seed, len, passes), done, base);
}

/// A read that gave back another word than expected is reported.
pub proof fn lemma_wrong_read_is_reported(
    script: Seq<memory::Step>,
    done: Seq<memory::Access>,
    base: int,
    k: int,
)
    requires
        0 <= k < done.len(),
        done.len() <= script.len(),
        memory::mismatch(script[k], done[k], base).len() > 0,
    ensures
        memory::mismatches(script, done, base).len() > 0,
    decreases done.len(),
{
    if k < done.len() - 1 {
        lemma_wrong_read_is_reported(script, done.drop_last(), base, k);
    }
}

/// The rounds of a word list read each cell once for each word.
proof fn lemma_rounds_read(words: Seq<u64>, len: int, n: int, w: int, cell: int) -> (k: int)
    requires
        0 <= w < n,
        0 <= cell < len,
    ensures
        0 <= k < rounds::rounds_script(words, len, n).len(),
        rounds::rounds_script(words, len, n)[k] == (memory::Step::Read {
            index: cell,
            expected: words[w],
        }),
    decreases n,
{
    let prior = rounds::rounds_script(words, len, n - 1);
    let round = ops::round_script(ops::constant_words(words[n - 1]), len);
    if w == n - 1 {
        let k = prior.len() + len + cell;
        assert(rounds::rounds_script(words, len, n)[k] == round[len + cell]);
        assert(round[len + cell] == ops::verify_script(
            ops::constant_words(words[n - 1]),
            len,
        )[cell]);
        k
    } else {
        let k = lemma_rounds_read(words, len, n - 1, w, cell);
        assert(rounds::rounds_script(words, len, n)[k] == prior[k]);
        k
    }
}

/// A sweep applies each operation to each of the first `n` cells.
proof fn lemma_sweep_step(
    dir: Direction,
    ops: Seq<CellOp>,
    len: int,
    n: int,
    c: int,
    j: int,
) -> (k: int)
    requires
        0 <= c < n,
        0 <= j < ops.len(),
    ensures
        0 <= k < sweep::sweep_script(dir, ops, len, n).len(),
        sweep::sweep_script(dir, ops, len, n)[k] == sweep::cell_step(
            ops[j],
            sweep::cell(dir, len, c),
        ),
    decreases n,
{
    let prior = sweep::sweep_script(dir, ops, len, n - 1);
    let cell = sweep::cell_script(ops, sweep::cell(dir, len, n - 1));
    if c == n - 1 {
        let k = prior.len() + j;
        assert(sweep::sweep_script(dir, ops, len, n)[k] == cell[j]);
        k
    } else {
        let k = lemma_sweep_step(dir, ops, len, n - 1, c, j);
        assert(sweep::sweep_script(dir, ops, len, n)[k] == prior[k]);
        k
    }
}

/// Passes apply each operation of each pass to each cell.
proof fn lemma_passes_step(
    passes: Seq<sweep::Pass>,
    len: int,
    n: int,
    p: int,
    c: int,
    j: int,
) -> (k: int)
    requires
        0 <= p < n,
        0 <= c < len,
        0 <= j < passes[p].ops.len(),
    ensures
        0 <= k < sweep::passes_script(passes, len, n).len(),
        sweep::passes_script(passes, len, n)[k] == sweep::cell_step(
            passes[p].ops[j],
            sweep::cell(passes[p].dir, len, c),
        ),
    decreases n,
{
    let prior = sweep::passes_script(passes, len, n - 1);
    let last = passes[n - 1];
    let tail = sweep::sweep_script(last.dir, last.ops, len, len);
    if p == n - 1 {
        let t = lemma_sweep_step(last.dir, last.ops, len, len, c, j);
        let k = prior.len() + t;
        assert(sweep::passes_script(passes, len, n)[k] == tail[t]);
        k
    } else {
        let k = lemma_passes_step(passes, len, n - 1, p, c, j);
        assert(sweep::passes_script(passes, len, n)[k] == prior[k]);
        k
    }
}

/// The visit of the `c`-th cell in pass `p`: where in the script it begins, and
/// what has been done before it.
pub proof fn lemma_visit_at(passes: Seq<sweep::Pass>, len: int, n: int, p: int, c: int) -> (k: int)
    requires
        0 <= p < n,
        0 <= c < len,
        passes[p].ops.len() > 0,
    ensures
        0 <= k < sweep::passes_script(passes, len, n).len(),
        sweep::passes_script(passes, len, n)[k] == sweep::cell_step(
            passes[p].ops[0],
            sweep::cell(passes[p].dir, len, c),
        ),
        sweep::passes_script(passes, len, n).take(k) == sweep::passes_script(passes, len, p)
            + sweep::sweep_script(passes[p].dir, passes[p].ops, len, c),
{
    let script = sweep::passes_script(passes, len, n);
    let pass = passes[p];
    let prior = sweep::passes_script(passes, len, p);
    let upto = sweep::passes_script(passes, len, p + 1);
    let before = sweep::sweep_script(pass.dir, pass.ops, len, c);
    let with = sweep::sweep_script(pass.dir, pass.ops, len, c + 1);
    let whole = sweep::sweep_script(pass.dir, pass.ops, len, len);
    let cell = sweep::cell_script(pass.ops, sweep::cell(pass.dir, len, c));
    let k = prior.len() + before.len();
    assert(upto == prior + whole);
    assert(with == before + cell);
    sweep::lemma_passes_prefix(passes, len, p + 1, n);
    sweep::lemma_sweep_prefix(pass.dir, pass.ops, len, c + 1, len);
    assert(with[before.len() as int] == cell[0]);
    assert(upto[k as int] == whole[before.len() as int]);
    assert(script[k as int] == upto[k as int]);
    assert(script.take(k as int) =~= prior + before) by {
        assert forall|m: int| 0 <= m < k implies script[m] == (prior + before)[m] by {
            assert(script[m] == upto[m]);
            if m >= prior.len() {
                assert(whole[m - prior.len()] == with[m - prior.len()]);
            }
        }
    }
    k as int
}

/// Whether bit `b` of cell `cell` reads as `v`, whatever is stored there.
pub open spec fn stuck(done: Seq<memory::Access>, cell: int, b: int, v: bool) -> bool {
    forall|k: int|
        0 <= k < done.len() ==> match #[trigger] done[k] {
            memory::Access::Read { index, word } => index == cell ==> crate::failure::bit(word, b)
                == v,
            _ => true,
        }
}

/// A read of a stuck cell that expects the other bit value is a mismatch.
proof fn lemma_stuck_read(
    script: Seq<memory::Step>,
    done: Seq<memory::Access>,
    base: int,
    cell: int,
    b: int,
    v: bool,
    k: int,
    expected: u64,
)
    requires
        memory::performs(script, done),
        0 <= k < done.len(),
        script[k] == (memory::Step::Read { index: cell, expected }),
        crate::failure::bit(expected, b) != v,
        stuck(done, cell, b, v),
    ensures
        memory::mismatches(script, done, base).len() > 0,
{
    assert(memory::obeys(script[k], done[k]));
    lemma_wrong_read_is_reported(script, done, base, k);
}

/// The bits of the words that the patterns write.
pub proof fn lemma_pattern_bits(b: u64)
    requires
        b < 64,
    ensures
        !crate::failure::bit(0, b as int),
        crate::failure::bit(u64::MAX, b as int),
        crate::failure::bit(0xAAAA_AAAA_AAAA_AAAA, b as int) != crate::failure::bit(
            0x5555_5555_5555_5555,
            b as int,
        ),
        crate::failure::bit(1u64 << b, b as int),
        !crate::failure::bit(!(1u64 << b), b as int),
        b != 0 ==> !crate::failure::bit(1u64 << 0u64, b as int),
        b == 0 ==> !crate::failure::bit(1u64 << 1u64, b as int),
        b != 0 ==> crate::failure::bit(!(1u64 << 0u64), b as int),
        b == 0 ==> crate::failure::bit(!(1u64 << 1u64), b as int),
{
    assert((0u64 >> b) & 1 == 0) by (bit_vector);
    assert((0xFFFF_FFFF_FFFF_FFFFu64 >> b) & 1 == 1) by (bit_vector)
        requires
            b < 64,
    ;
    assert((0xAAAA_AAAA_AAAA_AAAAu64 >> b) & 1 == 1 <==> !((0x5555_5555_5555_5555u64 >> b) & 1
        == 1)) by (bit_vector)
        requires
            b < 64,
    ;
    assert(((1u64 << b) >> b) & 1 == 1 && !(((!(1u64 << b)) >> b) & 1 == 1)) by (bit_vector)
        requires
            b < 64,
    ;
    assert(b != 0 ==> !(((1u64 << 0u64) >> b) & 1 == 1) && ((!(1u64 << 0u64)) >> b) & 1 == 1)
        by (bit_vector)
        requires
            b < 64,
    ;
    assert(b == 0 ==> !(((1u64 << 1u64) >> b) & 1 == 1) && ((!(1u64 << 1u64)) >> b) & 1 == 1)
        by (bit_vector);
}

/// Every pattern that claims stuck-at faults finds a stuck bit: run to its end on
/// memory where one bit of one cell always reads the same, it reports a failure.
pub proof fn law_stuck_bit_is_found(
    pattern: Pattern,
    len: int,
    done: Seq<memory::Access>,
    base: int,
    cell: int,
    b: u64,
    v: bool,
)
    requires
        pattern.detects().contains(crate::pattern::metadata::FaultClass::StuckAt),
        0 <= cell < len,
        b < 64,
        memory::performs(pattern.script(len), done),
        done.len() == pattern.script(len).len(),
        stuck(done, cell, b as int, v),
    ensures
        memory::mismatches(pattern.script(len), done, base).len() > 0,
{
    lemma_pattern_bits(b);
    let script = pattern.script(len);
    match pattern {
        Pattern::SolidBits => {
            let words = crate::pattern::solid::solid_words();
            let w: int = if v {
                0
            } else {
                1
            };
            let k = lemma_rounds_read(words, len, 2, w, cell);
            lemma_stuck_read(script, done, base, cell, b as int, v, k, words[w]);
        },
        Pattern::Checkerboard => {
            let words = crate::pattern::checkerboard::checker_words();
            let w: int = if crate::failure::bit(words[0], b as int) != v {
                0
            } else {
                1
            };
            let k = lemma_rounds_read(words, len, 2, w, cell);
            lemma_stuck_read(script, done, base, cell, b as int, v, k, words[w]);
        },
        Pattern::WalkingOnes => {
            let words = crate::pattern::walking::walking_ones();
            let w: int = if !v {
                b as int
            } else if b == 0 {
                1
            } else {
                0
            };
            let k = lemma_rounds_read(words, len, 64, w, cell);
            lemma_stuck_read(script, done, base, cell, b as int, v, k, words[w]);
        },
        Pattern::WalkingZeros => {
            let words = crate::pattern::walking::walking_zeros();
            let w: int = if v {
                b as int
            } else if b == 0 {
                1
            } else {
                0
            };
            let k = lemma_rounds_read(words, len, 64, w, cell);
            lemma_stuck_read(script, done, base, cell, b as int, v, k, words[w]);
        },
        Pattern::MarchCMinus => {
            let passes = march::march_passes();
            let p: int = if v {
                1
            } else {
                2
            };
            let k = lemma_passes_step(passes, len, 6, p, cell, 0);
            lemma_stuck_read(
                script,
                done,
                base,
                cell,
                b as int,
                v,
                k,
                march::word_of(!v),
            );
        },
        Pattern::StuckAddress => {
            assert(pattern.detects()[0] == crate::pattern::metadata::FaultClass::AddressDecoder);
        },
    }
}

/// The word last stored at either of two indices, if any was.
pub open spec fn stored_at_either(done: Seq<memory::Access>, i: int, j: int) -> Option<u64>
    decreases done.len(),
{
    if done.len() == 0 {
        None
    } else {
        match done.last() {
            memory::Access::Write { index, word } if index == i || index == j => Some(word),
            _ => stored_at_either(done.drop_last(), i, j),
        }
    }
}

/// Whether two addresses reach the same cell: a read of either gives back what
/// was stored last at either.
pub open spec fn aliased(done: Seq<memory::Access>, i: int, j: int) -> bool {
    forall|k: int|
        0 <= k < done.len() ==> match #[trigger] done[k] {
            memory::Access::Read { index, word } => (index == i || index == j) && stored_at_either(
                done.take(k),
                i,
                j,
            ) is Some ==> stored_at_either(done.take(k), i, j) == Some(word),
            _ => true,
        }
}

/// The word that a script leaves at either of two indices, if it writes there.
spec fn held_at_either(script: Seq<memory::Step>, i: int, j: int) -> Option<u64>
    decreases script.len(),
{
    if script.len() == 0 {
        None
    } else {
        match script.last() {
            memory::Step::Write { index, word } if index == i || index == j => Some(word),
            _ => held_at_either(script.drop_last(), i, j),
        }
    }
}

/// What has been stored at two indices is what the script wrote there.
proof fn lemma_stored_at_either(
    script: Seq<memory::Step>,
    done: Seq<memory::Access>,
    i: int,
    j: int,
)
    requires
        memory::performs(script, done),
    ensures
        stored_at_either(done, i, j) == held_at_either(script.take(done.len() as int), i, j),
    decreases done.len(),
{
    if done.len() > 0 {
        let n = done.len() as int;
        let shorter = done.drop_last();
        assert forall|k: int| 0 <= k < shorter.len() implies memory::obeys(
            script[k],
            #[trigger] shorter[k],
        ) by {
            assert(memory::obeys(script[k], done[k]));
        }
        lemma_stored_at_either(script, shorter, i, j);
        assert(script.take(n).drop_last() =~= script.take(n - 1));
        assert(memory::obeys(script[n - 1], done[n - 1]));
        assert(script.take(n).last() == script[n - 1]);
    }
}

/// A read of an aliased cell that expects another word than the pair holds is a
/// mismatch.
proof fn lemma_aliased_read(
    script: Seq<memory::Step>,
    done: Seq<memory::Access>,
    base: int,
    i: int,
    j: int,
    k: int,
)
    requires
        memory::performs(script, done),
        0 <= k < done.len(),
        aliased(done, i, j),
        match script[k] {
            memory::Step::Read { index, expected } => (index == i || index == j)
                && held_at_either(script.take(k), i, j) is Some && held_at_either(
                script.take(k),
                i,
                j,
            ) != Some(expected),
            _ => false,
        },
    ensures
        memory::mismatches(script, done, base).len() > 0,
{
    assert(memory::obeys(script[k], done[k]));
    let prefix = done.take(k);
    assert forall|m: int| 0 <= m < prefix.len() implies memory::obeys(
        script[m],
        #[trigger] prefix[m],
    ) by {
        assert(memory::obeys(script[m], done[m]));
    }
    lemma_stored_at_either(script, prefix, i, j);
    lemma_wrong_read_is_reported(script, done, base, k);
}

/// A later part of a script overrides an earlier one at two indices too.
proof fn lemma_held_at_either_concat(a: Seq<memory::Step>, b: Seq<memory::Step>, i: int, j: int)
    ensures
        held_at_either(a + b, i, j) == (if held_at_either(b, i, j) is Some {
            held_at_either(b, i, j)
        } else {
            held_at_either(a, i, j)
        }),
    decreases b.len(),
{
    if b.len() == 0 {
        assert(a + b =~= a);
    } else {
        assert((a + b).drop_last() =~= a + b.drop_last());
        lemma_held_at_either_concat(a, b.drop_last(), i, j);
    }
}

/// After an ascending read-write sweep has passed the lower of two cells and not
/// yet reached the higher, the pair holds what the sweep writes.
proof fn lemma_sweep_between(read: u64, word: u64, len: int, n: int, i: int, j: int)
    requires
        0 <= i < n <= j < len,
    ensures
        held_at_either(
            sweep::sweep_script(
                Direction::Ascending,
                seq![CellOp::Read(read), CellOp::Write(word)],
                len,
                n,
            ),
            i,
            j,
        ) == Some(word),
    decreases n,
{
    let ops = seq![CellOp::Read(read), CellOp::Write(word)];
    let prior = sweep::sweep_script(Direction::Ascending, ops, len, n - 1);
    let cell = sweep::cell_script(ops, n - 1);
    lemma_held_at_either_concat(prior, cell, i, j);
    assert(cell.last() == memory::Step::Write { index: n - 1, word });
    assert(cell.drop_last().last() == memory::Step::Read { index: n - 1, expected: read });
    assert(cell.drop_last().drop_last() =~= Seq::empty());
    assert(held_at_either(cell.drop_last().drop_last(), i, j) == None::<u64>);
    assert(held_at_either(cell.drop_last(), i, j) == None::<u64>);
    if n - 1 > i {
        lemma_sweep_between(read, word, len, n - 1, i, j);
    }
}

/// After a fill with indices a pair of cells holds the higher index.
proof fn lemma_indexed_fill_between(len: int, n: int, i: int, j: int)
    requires
        0 <= i < j < n <= len,
    ensures
        held_at_either(ops::fill_script(ops::indexed_words(), len).take(n), i, j) == Some(j as u64),
    decreases n,
{
    let fill = ops::fill_script(ops::indexed_words(), len);
    assert(fill.take(n).drop_last() =~= fill.take(n - 1));
    assert(fill.take(n).last() == fill[n - 1]);
    if n - 1 > j {
        lemma_indexed_fill_between(len, n - 1, i, j);
    }
}

/// Every pattern that claims address decoder faults finds two addresses that
/// reach the same cell: run to its end on such memory, it reports a failure.
pub proof fn law_aliased_addresses_are_found(
    pattern: Pattern,
    len: int,
    done: Seq<memory::Access>,
    base: int,
    i: int,
    j: int,
)
    requires
        pattern.detects().contains(crate::pattern::metadata::FaultClass::AddressDecoder),
        0 <= i < j < len <= u64::MAX,
        memory::performs(pattern.script(len), done),
        done.len() == pattern.script(len).len(),
        aliased(done, i, j),
    ensures
        memory::mismatches(pattern.script(len), done, base).len() > 0,
{
    let script = pattern.script(len);
    match pattern {
        Pattern::StuckAddress => {
            let fill = ops::fill_script(ops::indexed_words(), len);
            let check = ops::verify_script(ops::indexed_words(), len);
            let k = len + i;
            assert(script[k] == check[i]);
            assert(script.take(k) =~= fill + check.take(i));
            lemma_held_at_either_concat(fill, check.take(i), i, j);
            lemma_check_holds_nothing(len, i, i, j);
            lemma_indexed_fill_between(len, len, i, j);
            assert(fill.take(len) =~= fill);
            lemma_aliased_read(script, done, base, i, j, k);
        },
        Pattern::MarchCMinus => {
            // The higher cell is read expecting zero after the lower one, which is
            // the same cell, was set.
            let passes = march::march_passes();
            let first = sweep::passes_script(passes, len, 1);
            let second = passes[1];
            let before = sweep::sweep_script(second.dir, second.ops, len, j);
            let k = lemma_visit_at(passes, len, 6, 1, j);
            lemma_held_at_either_concat(first, before, i, j);
            assert(second.ops =~= seq![
                CellOp::Read(march::word_of(false)),
                CellOp::Write(march::word_of(true)),
            ]);
            lemma_sweep_between(march::word_of(false), march::word_of(true), len, j, i, j);
            lemma_aliased_read(script, done, base, i, j, k);
        },
        Pattern::SolidBits => {
            assert(pattern.detects()[0] == crate::pattern::metadata::FaultClass::StuckAt);
        },
        _ => {
            assert(pattern.detects()[0] == crate::pattern::metadata::FaultClass::StuckAt);
            assert(pattern.detects()[1] == crate::pattern::metadata::FaultClass::Coupling);
        },
    }
}

/// Reads leave nothing at two indices either.
proof fn lemma_check_holds_nothing(len: int, n: int, i: int, j: int)
    requires
        0 <= n <= len,
    ensures
        held_at_either(ops::verify_script(ops::indexed_words(), len).take(n), i, j) == None::<u64>,
    decreases n,
{
    if n > 0 {
        lemma_check_holds_nothing(len, n - 1, i, j);
        let check = ops::verify_script(ops::indexed_words(), len);
        assert(check.take(n).drop_last() =~= check.take(n - 1));
        assert(check.take(n).last() == check[n - 1]);
    }
}

} // verus!
