//! One directional pass over a memory, cell by cell.
//!
//! A march or an inversion test applies all operations of one element to a cell
//! before it goes on to the next cell in address order. That order is what
//! exposes coupling and address decoder faults, so a sweep is strictly
//! sequential.

use vstd::prelude::*;

use crate::failure::{self, Failure, FailureBudget};
use crate::memory::{self, Memory, Monitor};
use crate::ops::CHUNK_WORDS;

verus! {

broadcast use crate::memory::lemma_slots_nonnegative;

/// Address traversal order.
#[derive(Debug, Clone, Copy, PartialEq, Eq, Structural)]
pub enum Direction {
    /// From the first word to the last.
    Ascending,
    /// From the last word to the first.
    Descending,
}

/// One operation applied to a cell.
#[derive(Debug, Clone, Copy, PartialEq, Eq, Structural)]
pub enum CellOp {
    /// Read the cell, expecting a word.
    Read(u64),
    /// Write a word to the cell.
    Write(u64),
}

/// Why a sweep ended.
#[derive(Debug, Clone, Copy, PartialEq, Eq, Structural)]
pub enum Stop {
    /// Every cell was visited, and the budget has slots left.
    Finished,
    /// The budget is used up.
    Exhausted,
    /// The operator asked for a stop.
    Quit,
}

/// How far a sweep came.
#[derive(Debug, Clone, Copy, PartialEq, Eq, Structural)]
pub struct SweepEnd {
    /// Cells visited.
    pub cells: usize,
    /// Why it went no further.
    pub stop: Stop,
}

/// The `k`-th cell of `len` that a sweep visits.
pub open spec fn cell(dir: Direction, len: int, k: int) -> int {
    match dir {
        Direction::Ascending => k,
        Direction::Descending => len - 1 - k,
    }
}

/// Whether a sweep reports and may stop after cell `i`.
pub open spec fn is_checkpoint(i: int) -> bool {
    i % (CHUNK_WORDS as int) == 0
}

/// The step that an operation prescribes at a cell.
pub open spec fn cell_step(op: CellOp, index: int) -> memory::Step {
    match op {
        CellOp::Read(expected) => memory::Step::Read { index, expected },
        CellOp::Write(word) => memory::Step::Write { index, word },
    }
}

/// All operations, in order, at one cell.
pub open spec fn cell_script(ops: Seq<CellOp>, index: int) -> Seq<memory::Step> {
    Seq::new(ops.len(), |j: int| cell_step(ops[j], index))
}

/// All operations at each of the first `n` cells of a sweep.
pub open spec fn sweep_script(
    dir: Direction,
    ops: Seq<CellOp>,
    len: int,
    n: int,
) -> Seq<memory::Step>
    decreases n,
{
    if n <= 0 {
        Seq::empty()
    } else {
        sweep_script(dir, ops, len, n - 1) + cell_script(ops, cell(dir, len, n - 1))
    }
}

/// What is said at the checkpoints among the first `n` cells while nobody asks
/// for a stop.
pub open spec fn checkpoint_signals(
    dir: Direction,
    len: int,
    n: int,
) -> Seq<memory::Signal>
    decreases n,
{
    if n <= 0 {
        Seq::empty()
    } else {
        let rest = checkpoint_signals(dir, len, n - 1);
        let i = cell(dir, len, n - 1);
        if is_checkpoint(i) {
            rest + seq![
                memory::Signal::Activity { index: i, total: len },
                memory::Signal::Poll { quit: false },
            ]
        } else {
            rest
        }
    }
}

/// How many mismatches the first `n` cells of a sweep showed.
pub open spec fn found_by(
    dir: Direction,
    ops: Seq<CellOp>,
    len: int,
    base: int,
    done: Seq<memory::Access>,
    n: int,
) -> int {
    let script = sweep_script(dir, ops, len, n);
    memory::mismatches(script, done.take(script.len() as int), base).len() as int
}

/// Whether a sweep that made the accesses `done` and the signals `signals`, with
/// `slots` in its budget, ended as it should: it visits cells in order until the
/// last, or until the first checkpoint at which the failures use up the budget or
/// the operator asks for a stop. It is finished only if slots are left at its end.
pub open spec fn sweep_ends(
    dir: Direction,
    ops: Seq<CellOp>,
    len: int,
    base: int,
    slots: int,
    done: Seq<memory::Access>,
    signals: Seq<memory::Signal>,
    end: SweepEnd,
) -> bool {
    let script = sweep_script(dir, ops, len, end.cells as int);
    let found = memory::mismatches(script, done, base).len();
    let last = cell(dir, len, end.cells - 1);
    &&& end.cells <= len
    &&& done.len() == script.len()
    &&& memory::performs(script, done)
    &&& forall|n: int|
        0 < n < end.cells && is_checkpoint(cell(dir, len, n - 1)) ==> #[trigger] found_by(
            dir,
            ops,
            len,
            base,
            done,
            n,
        ) < slots
    &&& match end.stop {
        Stop::Finished => {
            &&& end.cells == len
            &&& found < slots
            &&& signals == checkpoint_signals(dir, len, len)
        },
        Stop::Exhausted => {
            &&& found >= slots
            &&& {
                ||| end.cells == len && !(len > 0 && is_checkpoint(last)) && signals
                    == checkpoint_signals(dir, len, len)
                ||| end.cells > 0 && is_checkpoint(last) && signals == checkpoint_signals(
                    dir,
                    len,
                    end.cells - 1,
                )
            }
        },
        Stop::Quit => {
            &&& end.cells > 0
            &&& is_checkpoint(last)
            &&& found < slots
            &&& signals == checkpoint_signals(dir, len, end.cells - 1) + seq![
                memory::Signal::Activity { index: last, total: len },
                memory::Signal::Poll { quit: true },
            ]
        },
    }
}

/// Apply every operation to one cell, recording a [`Failure`] for each read that
/// gave back another word.
fn apply_cell<M: Memory>(
    mem: &mut M,
    index: usize,
    base_addr: usize,
    ops: &[CellOp],
    failures: &mut Vec<Failure>,
)
    requires
        index < old(mem).size(),
        base_addr == old(mem).base(),
        old(mem).base() + old(mem).size() * 8 <= usize::MAX + 1,
    ensures
        final(mem).size() == old(mem).size(),
        final(mem).base() == old(mem).base(),
        memory::extends(old(mem).trace(), final(mem).trace()),
        ({
            let script = cell_script(ops@, index as int);
            let done = memory::since(old(mem).trace(), final(mem).trace());
            &&& done.len() == script.len()
            &&& memory::performs(script, done)
            &&& final(failures)@ == old(failures)@ + memory::mismatches(
                script,
                done,
                old(mem).base(),
            )
        }),
{
    let ghost trace0 = mem.trace();
    let ghost failures0 = failures@;
    let ghost script = cell_script(ops@, index as int);
    let ghost size = mem.size();
    let ghost base = mem.base();
    let mut j: usize = 0;
    assert(trace0.take(trace0.len() as int) =~= trace0);
    while j < ops.len()
        invariant
            j <= ops.len(),
            mem.size() == size,
            mem.base() == base,
            index < size,
            base_addr == base,
            base + size * 8 <= usize::MAX + 1,
            script == cell_script(ops@, index as int),
            mem.trace().len() == trace0.len() + j,
            mem.trace().take(trace0.len() as int) == trace0,
            memory::performs(script, memory::since(trace0, mem.trace())),
            failures@ == failures0 + memory::mismatches(
                script,
                memory::since(trace0, mem.trace()),
                base,
            ),
        decreases ops.len() - j,
    {
        let ghost before = mem.trace();
        let ghost done = memory::since(trace0, before);
        let ghost kept = failures@;
        match ops[j] {
            CellOp::Read(expected) => {
                let actual: u64 = mem.read(index);
                if actual != expected {
                    failures.push(
                        Failure {
                            addr: base_addr + index * 8,
                            expected,
                            actual,
                            word_index: index,
                            phys_addr: None,
                        },
                    );
                }
            },
            CellOp::Write(word) => {
                mem.write(index, word);
            },
        }
        proof {
            let more = memory::since(trace0, mem.trace());
            assert(mem.trace().take(trace0.len() as int) =~= before.take(trace0.len() as int));
            assert(more =~= done.push(mem.trace().last()));
            assert(more.drop_last() =~= done);
            assert(script[j as int] == cell_step(ops@[j as int], index as int));
            assert forall|k: int| 0 <= k < more.len() implies memory::obeys(
                script[k],
                #[trigger] more[k],
            ) by {
                if k < done.len() {
                    assert(memory::obeys(script[k], done[k]));
                }
            }
            assert(failures@ =~= kept + memory::mismatch(
                script[j as int],
                more.last(),
                base,
            ));
            assert(failures@ =~= failures0 + memory::mismatches(script, more, base));
        }
        j = j + 1;
    }
    assert(failures@ == failures0 + memory::mismatches(
        script,
        memory::since(trace0, mem.trace()),
        base,
    ));
}

/// Each cell adds its operations to the script.
proof fn lemma_script_grows(dir: Direction, ops: Seq<CellOp>, len: int, m: int, n: int)
    requires
        0 <= m <= n,
    ensures
        sweep_script(dir, ops, len, m).len() <= sweep_script(dir, ops, len, n).len(),
        sweep_script(dir, ops, len, n).take(sweep_script(dir, ops, len, m).len() as int)
            == sweep_script(dir, ops, len, m),
    decreases n,
{
    let short = sweep_script(dir, ops, len, m);
    let long = sweep_script(dir, ops, len, n);
    if m == n {
        assert(long.take(short.len() as int) =~= short);
    } else {
        lemma_script_grows(dir, ops, len, m, n - 1);
        let middle = sweep_script(dir, ops, len, n - 1);
        assert(long.take(short.len() as int) =~= middle.take(short.len() as int));
    }
}

/// Going on does not change what the first cells of a sweep showed.
proof fn lemma_found_by_stable(
    dir: Direction,
    ops: Seq<CellOp>,
    len: int,
    base: int,
    done: Seq<memory::Access>,
    more: Seq<memory::Access>,
    n: int,
    m: int,
)
    requires
        0 <= m <= n,
        done.len() == sweep_script(dir, ops, len, n).len(),
    ensures
        found_by(dir, ops, len, base, done + more, m) == found_by(dir, ops, len, base, done, m),
{
    lemma_script_grows(dir, ops, len, m, n);
    let script = sweep_script(dir, ops, len, m);
    assert((done + more).take(script.len() as int) =~= done.take(script.len() as int));
}

/// Charge the failures recorded since `claimed` against the budget; those beyond
/// it are dropped. Returns true if the budget is used up.
fn cap_growth(failures: &mut Vec<Failure>, claimed: usize, budget: &mut FailureBudget) -> (used_up:
    bool)
    requires
        claimed <= old(failures)@.len(),
    ensures
        used_up == (final(budget).slots() == 0),
        ({
            let grown = old(failures)@.len() - claimed;
            let kept = failure::at_most(grown, old(budget).slots());
            &&& final(failures)@ == old(failures)@.take(claimed + kept)
            &&& final(budget).slots() == old(budget).slots() - kept
            &&& final(budget).has_overflowed() == (old(budget).has_overflowed() || grown
                > old(budget).slots())
        }),
{
    let grown: usize = failures.len() - claimed;
    if grown > 0 {
        let granted: usize = budget.claim(grown);
        if granted < grown {
            failures.truncate(claimed + granted);
            budget.mark_overflow();
        }
    }
    assert(old(failures)@ =~= old(failures)@.take(old(failures)@.len() as int));
    budget.is_exhausted()
}

/// Sweep the memory once, applying `ops` to each cell before going on to the
/// next, and record a [`Failure`] for each read that gave back another word.
///
/// Budget, activity and cancellation are checked after each cell at a chunk
/// boundary, so that a sweep over wholly bad memory does not record every word.
/// The end tells whether to stop: a stop was asked for, or the budget is used up.
pub fn sweep<M: Memory, N: Monitor>(
    mem: &mut M,
    monitor: &mut N,
    dir: Direction,
    ops: &[CellOp],
    failures: &mut Vec<Failure>,
    budget: &mut FailureBudget,
) -> (end: SweepEnd)
    ensures
        final(mem).size() == old(mem).size(),
        final(mem).base() == old(mem).base(),
        memory::extends(old(mem).trace(), final(mem).trace()),
        memory::extends(old(monitor).log(), final(monitor).log()),
        memory::extends(old(failures)@, final(failures)@),
        ({
            let len = old(mem).size();
            let done = memory::since(old(mem).trace(), final(mem).trace());
            &&& sweep_ends(
                dir,
                ops@,
                len,
                old(mem).base(),
                old(budget).slots(),
                done,
                memory::since(old(monitor).log(), final(monitor).log()),
                end,
            )
            &&& memory::settles(
                *old(budget),
                *final(budget),
                memory::mismatches(
                    sweep_script(dir, ops@, len, end.cells as int),
                    done,
                    old(mem).base(),
                ),
                memory::since(old(failures)@, final(failures)@),
            )
        }),
        end.stop == Stop::Finished ==> final(budget).slots() > 0,
        end.stop == Stop::Exhausted ==> final(budget).slots() == 0,
{
    let ghost trace0 = mem.trace();
    let ghost log0 = monitor.log();
    let ghost failures0 = failures@;
    let ghost budget0 = *budget;
    let len: usize = mem.word_count();
    let base_addr: usize = mem.base_addr();
    let ghost base = mem.base();
    let ghost slots = budget.slots();
    let mut claimed: usize = failures.len();
    let mut k: usize = 0;
    proof {
        assert(trace0.take(trace0.len() as int) =~= trace0);
        assert(log0.take(log0.len() as int) =~= log0);
        assert(failures0.take(failures0.len() as int) =~= failures0);
        assert(memory::since(trace0, trace0) =~= Seq::empty());
        assert(memory::since(log0, log0) =~= Seq::empty());
        assert(failures0 =~= failures0 + Seq::empty());
    }
    while k < len
        invariant
            k <= len,
            len == mem.size(),
            base == mem.base(),
            base_addr == base,
            base + len * 8 <= usize::MAX + 1,
            slots == budget0.slots(),
            trace0 == old(mem).trace(),
            log0 == old(monitor).log(),
            failures0 == old(failures)@,
            budget0 == *old(budget),
            len == old(mem).size(),
            base == old(mem).base(),
            memory::extends(trace0, mem.trace()),
            memory::extends(log0, monitor.log()),
            ({
                let script = sweep_script(dir, ops@, len as int, k as int);
                let done = memory::since(trace0, mem.trace());
                let found = memory::mismatches(script, done, base);
                &&& done.len() == script.len()
                &&& memory::performs(script, done)
                &&& failures@ == failures0 + found
                &&& failures0.len() <= claimed <= failures@.len()
                &&& claimed - failures0.len() == slots - budget.slots()
                &&& budget.has_overflowed() == budget0.has_overflowed()
                &&& forall|n: int|
                    0 < n <= k && is_checkpoint(cell(dir, len as int, n - 1))
                        ==> #[trigger] found_by(dir, ops@, len as int, base, done, n) < slots
            }),
            memory::since(log0, monitor.log()) == checkpoint_signals(
                dir,
                len as int,
                k as int,
            ),
        decreases len - k,
    {
        let i: usize = match dir {
            Direction::Ascending => k,
            Direction::Descending => len - 1 - k,
        };
        let ghost trace1 = mem.trace();
        let ghost done1 = memory::since(trace0, trace1);
        let ghost script1 = sweep_script(dir, ops@, len as int, k as int);
        let ghost log1 = monitor.log();
        apply_cell(mem, i, base_addr, ops, failures);
        let ghost script2 = sweep_script(dir, ops@, len as int, k + 1);
        let ghost done2 = memory::since(trace0, mem.trace());
        let ghost found2 = memory::mismatches(script2, done2, base);
        proof {
            let step = cell_script(ops@, i as int);
            let fresh = memory::since(trace1, mem.trace());
            assert(mem.trace() =~= trace1 + fresh);
            assert(done2 =~= done1 + fresh);
            assert(mem.trace().take(trace0.len() as int) =~= trace1.take(trace0.len() as int));
            memory::lemma_performs_concat(script1, done1, step, fresh);
            memory::lemma_mismatches_concat(script1, done1, step, fresh, base);
            assert(failures@ =~= failures0 + found2);
            assert forall|n: int|
                0 < n <= k && is_checkpoint(cell(dir, len as int, n - 1)) implies #[trigger] found_by(
                dir,
                ops@,
                len as int,
                base,
                done2,
                n,
            ) < slots by {
                lemma_found_by_stable(dir, ops@, len as int, base, done1, fresh, k as int, n);
                assert(found_by(dir, ops@, len as int, base, done1, n) < slots);
            }
            assert(done2.take(script2.len() as int) =~= done2);
            assert(found_by(dir, ops@, len as int, base, done2, k + 1) == found2.len());
        }
        if i % CHUNK_WORDS == 0 {
            let ghost recorded = failures@;
            if cap_growth(failures, claimed, budget) {
                proof {
                    assert(memory::since(failures0, failures@) =~= found2.take(slots));
                    assert(failures@.take(failures0.len() as int) =~= failures0);
                }
                return SweepEnd { cells: k + 1, stop: Stop::Exhausted };
            }
            assert(failures@ =~= recorded);
            claimed = failures.len();
            monitor.activity(i, len);
            let quit: bool = monitor.quit_requested();
            proof {
                let said = seq![
                    memory::Signal::Activity { index: i as int, total: len as int },
                    memory::Signal::Poll { quit },
                ];
                assert(monitor.log() =~= log1 + said);
                assert(memory::since(log0, monitor.log()) =~= memory::since(
                    log0,
                    log1,
                ) + said);
                assert(monitor.log().take(log0.len() as int) =~= log1.take(log0.len() as int));
            }
            if quit {
                proof {
                    assert(memory::since(failures0, failures@) =~= found2);
                    assert(found2 =~= found2.take(found2.len() as int));
                    assert(failures@.take(failures0.len() as int) =~= failures0);
                }
                return SweepEnd { cells: k + 1, stop: Stop::Quit };
            }
        }
        k = k + 1;
    }
    let ghost found = memory::mismatches(
        sweep_script(dir, ops@, len as int, len as int),
        memory::since(trace0, mem.trace()),
        base,
    );
    let used_up: bool = cap_growth(failures, claimed, budget);
    proof {
        assert(memory::since(failures0, failures@) =~= found.take(
            failure::at_most(found.len() as int, slots),
        ));
        assert(failures@.take(failures0.len() as int) =~= failures0);
        if len > 0 {
            let done = memory::since(trace0, mem.trace());
            assert(done.take(done.len() as int) =~= done);
            assert(found_by(dir, ops@, len as int, base, done, len as int) == found.len());
        }
    }
    if used_up {
        SweepEnd { cells: len, stop: Stop::Exhausted }
    } else {
        SweepEnd { cells: len, stop: Stop::Finished }
    }
}

/// A sweep: a traversal direction and the operations applied to each cell.
#[derive(Debug)]
pub struct Phase {
    /// Traversal order.
    pub dir: Direction,
    /// Operations at each cell, in order.
    pub ops: Vec<CellOp>,
}

/// What a [`Phase`] stands for.
#[verifier::ext_equal]
pub struct Pass {
    /// Traversal order.
    pub dir: Direction,
    /// Operations at each cell, in order.
    pub ops: Seq<CellOp>,
}

impl View for Phase {
    type V = Pass;

    open spec fn view(&self) -> Pass {
        Pass { dir: self.dir, ops: self.ops@ }
    }
}

/// What a list of phases stands for.
pub open spec fn passes_of(phases: Seq<Phase>) -> Seq<Pass> {
    Seq::new(phases.len(), |i: int| phases[i]@)
}

/// The full sweeps of the first `n` passes, one after the other.
pub open spec fn passes_script(passes: Seq<Pass>, len: int, n: int) -> Seq<memory::Step>
    decreases n,
{
    if n <= 0 {
        Seq::empty()
    } else {
        passes_script(passes, len, n - 1) + sweep_script(
            passes[n - 1].dir,
            passes[n - 1].ops,
            len,
            len,
        )
    }
}

/// How many steps the first passes take.
pub open spec fn passes_ends(passes: Seq<Pass>, len: int) -> spec_fn(int) -> int {
    |n: int| passes_script(passes, len, n).len() as int
}

/// Checkpoints that nobody stops at end no sub-pass and ask for no stop.
proof fn lemma_checkpoints_quiet(dir: Direction, len: int, n: int)
    ensures
        memory::subpasses(checkpoint_signals(dir, len, n)) == 0,
        !memory::quits(checkpoint_signals(dir, len, n)),
    decreases n,
{
    if n > 0 {
        lemma_checkpoints_quiet(dir, len, n - 1);
        let i = cell(dir, len, n - 1);
        let said = seq![
            memory::Signal::Activity { index: i, total: len },
            memory::Signal::Poll { quit: false },
        ];
        memory::lemma_subpasses_concat(checkpoint_signals(dir, len, n - 1), said);
        memory::lemma_quits_concat(checkpoint_signals(dir, len, n - 1), said);
        assert(said.drop_last().drop_last() =~= Seq::empty());
        assert(said.drop_last().last() == memory::Signal::Activity { index: i, total: len });
        assert(memory::subpasses(said.drop_last().drop_last()) == 0);
        assert(memory::subpasses(said.drop_last()) == 0);
        assert(memory::subpasses(said) == 0);
    }
}

/// A sweep that ended as it should is a run of its script in which no sub-pass
/// has been announced yet.
proof fn lemma_sweep_ran(
    dir: Direction,
    ops: Seq<CellOp>,
    len: int,
    base: int,
    before: FailureBudget,
    after: FailureBudget,
    done: Seq<memory::Access>,
    signals: Seq<memory::Signal>,
    kept: Seq<Failure>,
    end: SweepEnd,
)
    requires
        sweep_ends(dir, ops, len, base, before.slots(), done, signals, end),
        memory::settles(
            before,
            after,
            memory::mismatches(sweep_script(dir, ops, len, end.cells as int), done, base),
            kept,
        ),
    ensures
        memory::ran(
            sweep_script(dir, ops, len, len),
            0,
            base,
            before,
            after,
            done,
            signals,
            kept,
        ),
        memory::subpasses(signals) == 0,
        end.stop == Stop::Finished ==> done.len() == sweep_script(dir, ops, len, len).len()
            && !memory::quits(signals),
        end.stop == Stop::Exhausted ==> after.slots() == 0,
        end.stop == Stop::Quit ==> memory::quits(signals),
{
    let script = sweep_script(dir, ops, len, end.cells as int);
    let full = sweep_script(dir, ops, len, len);
    lemma_script_grows(dir, ops, len, end.cells as int, len);
    let more = full.skip(script.len() as int);
    assert(script + more =~= full);
    memory::lemma_mismatches_of_prefix(script, more, done, base);
    assert forall|k: int| 0 <= k < done.len() implies memory::obeys(full[k], #[trigger] done[k]) by {
        assert(memory::obeys(script[k], done[k]));
        assert(full[k] == script[k]);
    }
    lemma_checkpoints_quiet(dir, len, len);
    lemma_checkpoints_quiet(dir, len, end.cells - 1);
    if end.stop == Stop::Quit {
        let last = cell(dir, len, end.cells - 1);
        let said = seq![
            memory::Signal::Activity { index: last, total: len },
            memory::Signal::Poll { quit: true },
        ];
        memory::lemma_subpasses_concat(checkpoint_signals(dir, len, end.cells - 1), said);
        memory::lemma_quits_concat(checkpoint_signals(dir, len, end.cells - 1), said);
        assert(said.drop_last().drop_last() =~= Seq::empty());
        assert(said.drop_last().last() == memory::Signal::Activity { index: last, total: len });
        assert(memory::subpasses(said.drop_last().drop_last()) == 0);
        assert(memory::subpasses(said.drop_last()) == 0);
        assert(memory::subpasses(said) == 0);
        assert(said[1] == memory::Signal::Poll { quit: true });
    }
}

/// A sweep says nothing after it was asked to stop.
proof fn lemma_sweep_obedient(
    dir: Direction,
    ops: Seq<CellOp>,
    len: int,
    base: int,
    slots: int,
    done: Seq<memory::Access>,
    signals: Seq<memory::Signal>,
    end: SweepEnd,
)
    requires
        sweep_ends(dir, ops, len, base, slots, done, signals, end),
    ensures
        memory::obedient(signals.push(memory::Signal::Subpass)),
{
    let all = signals.push(memory::Signal::Subpass);
    let n: int = if end.stop == Stop::Quit || signals != checkpoint_signals(dir, len, len) {
        end.cells - 1
    } else {
        len
    };
    let quiet = checkpoint_signals(dir, len, n);
    lemma_checkpoints_quiet(dir, len, n);
    assert forall|k: int| #[trigger] memory::asks_stop(all, k) implies 0 < k == all.len() - 2
        && all[k - 1] is Activity by {
        if k < quiet.len() {
            assert(quiet[k] == memory::Signal::Poll { quit: true });
        }
    }
}

/// Run phases one after the other, each to its end before the next begins. The
/// operator hears of each phase that ended, and no phase begins after a stop was
/// asked for or once the budget is used up.
///
/// Returns how many phases were begun.
pub fn run_phases<M: Memory, N: Monitor>(
    mem: &mut M,
    monitor: &mut N,
    phases: &[Phase],
    failures: &mut Vec<Failure>,
    budget: &mut FailureBudget,
) -> (begun: usize)
    ensures
        final(mem).size() == old(mem).size(),
        final(mem).base() == old(mem).base(),
        memory::extends(old(mem).trace(), final(mem).trace()),
        memory::extends(old(monitor).log(), final(monitor).log()),
        memory::extends(old(failures)@, final(failures)@),
        begun <= phases@.len(),
        memory::subpasses(memory::since(old(monitor).log(), final(monitor).log())) == begun,
        memory::ran(
            passes_script(passes_of(phases@), old(mem).size(), phases@.len() as int),
            phases@.len() as int,
            old(mem).base(),
            *old(budget),
            *final(budget),
            memory::since(old(mem).trace(), final(mem).trace()),
            memory::since(old(monitor).log(), final(monitor).log()),
            memory::since(old(failures)@, final(failures)@),
        ),
        memory::heeds(
            passes_script(passes_of(phases@), old(mem).size(), phases@.len() as int),
            passes_ends(passes_of(phases@), old(mem).size()),
            phases@.len() as int,
            false,
            old(mem).base(),
            old(budget).slots(),
            memory::since(old(mem).trace(), final(mem).trace()),
            memory::since(old(monitor).log(), final(monitor).log()),
        ),
{
    let ghost trace0 = mem.trace();
    let ghost log0 = monitor.log();
    let ghost failures0 = failures@;
    let ghost budget0 = *budget;
    let ghost slots = budget.slots();
    let ghost len = mem.size();
    let ghost base = mem.base();
    let ghost passes = passes_of(phases@);
    let ghost total = phases@.len() as int;
    let ghost script = passes_script(passes, len, total);
    let ghost ends = passes_ends(passes, len);
    let mut p: usize = 0;
    proof {
        memory::lemma_since_self(trace0);
        memory::lemma_since_self(log0);
        memory::lemma_since_self(failures0);
        memory::lemma_ran_nothing(base, budget0);
        memory::lemma_may_begin(script, ends, base, slots);
        if total == 0 {
            memory::lemma_heeds_nothing(script, ends, total, false, base, slots);
        }
    }
    while p < phases.len()
        invariant
            p <= phases.len(),
            slots == budget0.slots(),
            script == passes_script(passes, len, total),
            ends == passes_ends(passes, len),
            p < phases.len() ==> memory::may_go_on(
                script,
                ends,
                false,
                base,
                slots,
                memory::since(trace0, mem.trace()),
                memory::since(log0, monitor.log()),
                p as int,
            ),
            p == phases.len() ==> memory::heeds(
                script,
                ends,
                total,
                false,
                base,
                slots,
                memory::since(trace0, mem.trace()),
                memory::since(log0, monitor.log()),
            ),
            passes == passes_of(phases@),
            total == phases@.len(),
            len == mem.size(),
            base == mem.base(),
            trace0 == old(mem).trace(),
            log0 == old(monitor).log(),
            failures0 == old(failures)@,
            budget0 == *old(budget),
            len == old(mem).size(),
            base == old(mem).base(),
            memory::extends(trace0, mem.trace()),
            memory::extends(log0, monitor.log()),
            memory::extends(failures0, failures@),
            memory::since(trace0, mem.trace()).len() == passes_script(passes, len, p as int).len(),
            memory::subpasses(memory::since(log0, monitor.log())) == p,
            memory::ran(
                passes_script(passes, len, p as int),
                p as int,
                base,
                budget0,
                *budget,
                memory::since(trace0, mem.trace()),
                memory::since(log0, monitor.log()),
                memory::since(failures0, failures@),
            ),
        decreases phases.len() - p,
    {
        let ghost trace1 = mem.trace();
        let ghost log1 = monitor.log();
        let ghost failures1 = failures@;
        let ghost budget1 = *budget;
        let phase = &phases[p];
        let end = sweep(mem, monitor, phase.dir, phase.ops.as_slice(), failures, budget);
        let ghost log2 = monitor.log();
        monitor.subpass();
        let ghost polled = end.stop == Stop::Finished;
        let stop: bool = match end.stop {
            Stop::Finished => monitor.quit_requested(),
            _ => true,
        };
        proof {
            let sweep_steps = sweep_script(phase.dir, phase.ops@, len, len);
            let fresh = memory::since(trace1, mem.trace());
            let said = memory::since(log1, log2);
            let kept = memory::since(failures1, failures@);
            assert(passes[p as int] == phase@);
            lemma_sweep_ran(
                phase.dir,
                phase.ops@,
                len,
                base,
                budget1,
                *budget,
                fresh,
                said,
                kept,
                end,
            );
            // The signals after the sweep: one sub-pass, and maybe a poll.
            let tail = memory::since(log2, monitor.log());
            if polled {
                assert(tail =~= seq![memory::Signal::Subpass, memory::Signal::Poll { quit: stop }]);
                assert(tail.drop_last() =~= seq![memory::Signal::Subpass]);
                assert(tail.drop_last().drop_last() =~= Seq::empty());
                assert(memory::subpasses(tail.drop_last().drop_last()) == 0);
                assert(memory::subpasses(tail.drop_last()) == 1);
                assert(memory::subpasses(tail) == 1);
                if stop {
                    assert(tail[1] == memory::Signal::Poll { quit: true });
                    assert(memory::quits(tail));
                }
            } else {
                assert(tail =~= seq![memory::Signal::Subpass]);
                assert(tail.drop_last() =~= Seq::empty());
                assert(memory::subpasses(tail.drop_last()) == 0);
                assert(memory::subpasses(tail) == 1);
            }
            assert(memory::extends(log2, monitor.log())) by {
                assert(monitor.log().take(log2.len() as int) =~= log2);
            }
            memory::lemma_since_since(log1, log2, monitor.log());
            memory::lemma_subpasses_concat(said, tail);
            memory::lemma_quits_concat(said, tail);
            let said_all = memory::since(log1, monitor.log());
            assert(memory::ran(
                sweep_steps,
                1,
                base,
                budget1,
                *budget,
                fresh,
                said_all,
                kept,
            ));
            memory::lemma_ran_both(
                passes_script(passes, len, p as int),
                p as int,
                sweep_steps,
                1,
                base,
                budget0,
                budget1,
                *budget,
                memory::since(trace0, trace1),
                memory::since(log0, log1),
                memory::since(failures0, failures1),
                fresh,
                said_all,
                kept,
            );
            memory::lemma_since_since(trace0, trace1, mem.trace());
            memory::lemma_since_since(log0, log1, monitor.log());
            memory::lemma_since_since(failures0, failures1, failures@);
            assert(passes_script(passes, len, p + 1) == passes_script(passes, len, p as int)
                + sweep_steps);
            let script2 = passes_script(passes, len, p + 1);
            let done2 = memory::since(trace0, mem.trace());
            lemma_passes_grow(passes, len, p + 1, total);
            memory::lemma_mismatches_of_prefix(
                script2,
                script.skip(script2.len() as int),
                done2,
                base,
            );
            assert forall|j: int| 0 <= j <= p implies 0 <= #[trigger] ends(j) <= ends(p as int) by {
                lemma_passes_grow(passes, len, j, p as int);
            }
            let polls = tail.drop_first();
            if polled {
                assert(polls =~= seq![memory::Signal::Poll { quit: stop }]);
            }
            assert(said.push(memory::Signal::Subpass) + polls =~= said + tail);
            lemma_sweep_obedient(
                phase.dir,
                phase.ops@,
                len,
                base,
                budget1.slots(),
                fresh,
                said,
                end,
            );
            memory::lemma_heeds_step(
                script,
                ends,
                total,
                false,
                base,
                slots,
                memory::since(trace0, trace1),
                memory::since(log0, log1),
                p as int,
                fresh,
                said,
                polls,
            );
            if stop {
                assert(memory::quits(memory::since(log0, monitor.log())) || budget.slots() == 0);
                memory::lemma_ran_early(
                    script2,
                    script.skip(script2.len() as int),
                    p + 1,
                    total - (p + 1),
                    base,
                    budget0,
                    *budget,
                    memory::since(trace0, mem.trace()),
                    memory::since(log0, monitor.log()),
                    memory::since(failures0, failures@),
                );
            }
        }
        p = p + 1;
        if stop {
            return p;
        }
    }
    p
}

/// Each pass adds its sweep to the script.
proof fn lemma_passes_grow(passes: Seq<Pass>, len: int, m: int, n: int)
    requires
        0 <= m <= n,
    ensures
        passes_script(passes, len, m).len() <= passes_script(passes, len, n).len(),
        passes_script(passes, len, n) == passes_script(passes, len, m) + passes_script(
            passes,
            len,
            n,
        ).skip(passes_script(passes, len, m).len() as int),
    decreases n,
{
    let short = passes_script(passes, len, m);
    let long = passes_script(passes, len, n);
    if m == n {
        assert(long =~= short + long.skip(short.len() as int));
    } else {
        lemma_passes_grow(passes, len, m, n - 1);
        let middle = passes_script(passes, len, n - 1);
        assert(forall|k: int| 0 <= k < short.len() ==> #[trigger] long[k] == middle[k]);
        assert(forall|k: int|
            0 <= k < short.len() ==> #[trigger] middle[k] == (short + middle.skip(
                short.len() as int,
            ))[k]);
        assert(long =~= short + long.skip(short.len() as int));
    }
}

/// A sweep makes as many accesses per cell as it has operations.
pub proof fn lemma_sweep_length(dir: Direction, ops: Seq<CellOp>, len: int, n: int)
    requires
        0 <= n,
    ensures
        sweep_script(dir, ops, len, n).len() == n * ops.len(),
        ops.len() == 1 ==> sweep_script(dir, ops, len, n).len() == n,
        ops.len() == 2 ==> sweep_script(dir, ops, len, n).len() == 2 * n,
    decreases n,
{
    if n > 0 {
        lemma_sweep_length(dir, ops, len, n - 1);
        assert(n * ops.len() == (n - 1) * ops.len() + ops.len()) by (nonlinear_arith);
    } else {
        assert(n * ops.len() == 0) by (nonlinear_arith)
            requires
                n == 0,
        ;
    }
}

/// The first cells of a sweep are swept alike whatever follows.
pub proof fn lemma_sweep_prefix(dir: Direction, ops: Seq<CellOp>, len: int, m: int, n: int)
    requires
        0 <= m <= n,
    ensures
        sweep_script(dir, ops, len, m).len() <= sweep_script(dir, ops, len, n).len(),
        forall|k: int|
            0 <= k < sweep_script(dir, ops, len, m).len() ==> #[trigger] sweep_script(
                dir,
                ops,
                len,
                n,
            )[k] == sweep_script(dir, ops, len, m)[k],
{
    lemma_script_grows(dir, ops, len, m, n);
    let short = sweep_script(dir, ops, len, m);
    let long = sweep_script(dir, ops, len, n);
    assert forall|k: int| 0 <= k < short.len() implies #[trigger] long[k] == short[k] by {
        assert(long.take(short.len() as int)[k] == short[k]);
    }
}

/// The first passes of a list are run alike whatever follows.
pub proof fn lemma_passes_prefix(passes: Seq<Pass>, len: int, m: int, n: int)
    requires
        0 <= m <= n,
    ensures
        passes_script(passes, len, m).len() <= passes_script(passes, len, n).len(),
        forall|k: int|
            0 <= k < passes_script(passes, len, m).len() ==> #[trigger] passes_script(
                passes,
                len,
                n,
            )[k] == passes_script(passes, len, m)[k],
{
    lemma_passes_grow(passes, len, m, n);
}

/// A sweep that is broken off ends at a checkpoint, and only because the failures use up
/// the budget or because a stop was asked for; one that is finished visited every cell
/// with room left in the budget.
pub proof fn law_sweep_ends_for_a_reason(
    dir: Direction,
    ops: Seq<CellOp>,
    len: int,
    base: int,
    slots: int,
    done: Seq<memory::Access>,
    signals: Seq<memory::Signal>,
    end: SweepEnd,
)
    requires
        0 <= len,
        sweep_ends(dir, ops, len, base, slots, done, signals, end),
    ensures
        ({
            let script = sweep_script(dir, ops, len, end.cells as int);
            let found = memory::mismatches(script, done, base).len();
            &&& end.cells < len ==> end.cells > 0 && cell(dir, len, end.cells - 1) % 65536 == 0
            &&& end.stop is Exhausted <==> found >= slots
            &&& end.stop is Quit ==> signals.len() > 0 && signals.last() == (memory::Signal::Poll {
                quit: true,
            })
            &&& end.stop is Finished ==> end.cells == len && !memory::quits(signals)
        }),
{
    lemma_checkpoints_quiet(dir, len, len);
}

/// A sweep goes through the memory upwards or downwards, one cell after the other.
pub proof fn law_cells_follow_each_other(len: int, k: int)
    requires
        0 <= k < len,
    ensures
        cell(Direction::Ascending, len, 0) == 0,
        cell(Direction::Descending, len, 0) == len - 1,
        cell(Direction::Ascending, len, k + 1) == cell(Direction::Ascending, len, k) + 1,
        cell(Direction::Descending, len, k + 1) == cell(Direction::Descending, len, k) - 1,
        cell(Direction::Descending, len, len - 1) == 0,
{
}

} // verus!
