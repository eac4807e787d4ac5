//! March C-: a systematic read/write sequence from the academic March test
//! family. A march applies each element's operations to every cell in address
//! order, completing one cell's element before advancing, which is what lets it
//! detect coupling and address decoder faults.
//!
//! ```text
//! M0: any(w0)     M1: up(r0,w1)    M2: up(r1,w0)
//! M3: down(r0,w1) M4: down(r1,w0)  M5: any(r0)
//! ```
//!
//! Coupling coverage assumes that ascending and descending traversal visits
//! physically adjacent cells. With scattered pages that holds only within a
//! page; stuck-at, transition and address decoder detection do not depend on
//! the layout.

use vstd::prelude::*;

use crate::failure::{Failure, FailureBudget};
use crate::memory::{self, Memory, Monitor};
use crate::pattern::sweep::{self, run_phases, CellOp, Direction, Phase};

verus! {

/// Sub-passes of the sequence: one per element.
pub const SUB_PASSES: u64 = 6;

/// The all-zero or all-one word that a cell state maps to.
pub open spec fn word_of(bit: bool) -> u64 {
    if bit {
        u64::MAX
    } else {
        0
    }
}

/// The all-zero or all-one word that a cell state maps to.
pub fn word(bit: bool) -> (w: u64)
    ensures
        w == word_of(bit),
{
    if bit {
        u64::MAX
    } else {
        0
    }
}

/// The elements of the sequence. Those without a prescribed direction ascend.
pub open spec fn march_passes() -> Seq<sweep::Pass> {
    let r0 = CellOp::Read(word_of(false));
    let r1 = CellOp::Read(word_of(true));
    let w0 = CellOp::Write(word_of(false));
    let w1 = CellOp::Write(word_of(true));
    seq![
        sweep::Pass { dir: Direction::Ascending, ops: seq![w0] },
        sweep::Pass { dir: Direction::Ascending, ops: seq![r0, w1] },
        sweep::Pass { dir: Direction::Ascending, ops: seq![r1, w0] },
        sweep::Pass { dir: Direction::Descending, ops: seq![r0, w1] },
        sweep::Pass { dir: Direction::Descending, ops: seq![r1, w0] },
        sweep::Pass { dir: Direction::Ascending, ops: seq![r0] },
    ]
}

/// The whole sequence over `len` words.
pub open spec fn march_script(len: int) -> Seq<memory::Step> {
    sweep::passes_script(march_passes(), len, 6)
}

/// The elements of the sequence.
pub fn elements() -> (phases: Vec<Phase>)
    ensures
        sweep::passes_of(phases@) == march_passes(),
        phases@.len() == 6,
{
    let r0 = CellOp::Read(word(false));
    let r1 = CellOp::Read(word(true));
    let w0 = CellOp::Write(word(false));
    let w1 = CellOp::Write(word(true));
    let phases = vec![
        Phase { dir: Direction::Ascending, ops: vec![w0] },
        Phase { dir: Direction::Ascending, ops: vec![r0, w1] },
        Phase { dir: Direction::Ascending, ops: vec![r1, w0] },
        Phase { dir: Direction::Descending, ops: vec![r0, w1] },
        Phase { dir: Direction::Descending, ops: vec![r1, w0] },
        Phase { dir: Direction::Ascending, ops: vec![r0] },
    ];
    assert(sweep::passes_of(phases@) =~~= march_passes());
    phases
}

/// Run the full sequence. Each element completes cell by cell in address order;
/// the operator hears of each element that ended.
pub fn run<M: Memory, N: Monitor>(
    mem: &mut M,
    monitor: &mut N,
    budget: &mut FailureBudget,
) -> (failures: Vec<Failure>)
    ensures
        final(mem).size() == old(mem).size(),
        final(mem).base() == old(mem).base(),
        memory::extends(old(mem).trace(), final(mem).trace()),
        memory::extends(old(monitor).log(), final(monitor).log()),
        memory::ran(
            march_script(old(mem).size()),
            SUB_PASSES as int,
            old(mem).base(),
            *old(budget),
            *final(budget),
            memory::since(old(mem).trace(), final(mem).trace()),
            memory::since(old(monitor).log(), final(monitor).log()),
            failures@,
        ),
        memory::heeds(
            march_script(old(mem).size()),
            sweep::passes_ends(march_passes(), old(mem).size()),
            SUB_PASSES as int,
            false,
            old(mem).base(),
            old(budget).slots(),
            memory::since(old(mem).trace(), final(mem).trace()),
            memory::since(old(monitor).log(), final(monitor).log()),
        ),
{
    let mut failures: Vec<Failure> = Vec::new();
    let phases = elements();
    let _ = run_phases(mem, monitor, phases.as_slice(), &mut failures, budget);
    proof {
        assert(memory::since(Seq::<Failure>::empty(), failures@) =~= failures@);
    }
    failures
}

/// The sequence makes ten accesses per word.
pub proof fn law_ten_accesses_per_word(len: int)
    requires
        0 <= len,
    ensures
        march_script(len).len() == 10 * len,
{
    reveal_with_fuel(sweep::passes_script, 7);
    let passes = march_passes();
    sweep::lemma_sweep_length(passes[0].dir, passes[0].ops, len, len);
    sweep::lemma_sweep_length(passes[1].dir, passes[1].ops, len, len);
    sweep::lemma_sweep_length(passes[2].dir, passes[2].ops, len, len);
    sweep::lemma_sweep_length(passes[3].dir, passes[3].ops, len, len);
    sweep::lemma_sweep_length(passes[4].dir, passes[4].ops, len, len);
    sweep::lemma_sweep_length(passes[5].dir, passes[5].ops, len, len);
}

} // verus!
