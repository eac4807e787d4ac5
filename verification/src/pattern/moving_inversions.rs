//! Moving inversions: fill the memory with a seed word, then sweep it forward
//! writing the inverse and backward writing the seed again, reading each cell
//! against its expected value before overwriting it.
//!
//! The directional read-then-write exposes transition faults, cells that will
//! not flip, and coupling between adjacent words that a bulk fill and verify
//! misses. Each seed runs four phases: fill, forward invert, backward invert and
//! a final check that the memory returned to the seed.

use vstd::prelude::*;

use crate::failure::{Failure, FailureBudget};
use crate::memory::{self, Memory, Monitor};
use crate::pattern::sweep::{self, run_phases, CellOp, Direction, Phase};

verus! {

/// The first seed: with its inverse, all zeros and all ones.
pub const SEED_SOLID: u64 = 0x0000_0000_0000_0000;

/// The second seed: with its inverse, the two checkerboards.
pub const SEED_CHECKER: u64 = 0xAAAA_AAAA_AAAA_AAAA;

/// Phases run per seed: fill, forward invert, backward invert, final check.
pub const PHASES_PER_SEED: u64 = 4;

/// Total sub-passes across every seed.
pub const SUB_PASSES: u64 = 8;

/// The four phases of one seed.
pub open spec fn seed_passes(seed: u64) -> Seq<sweep::Pass> {
    seq![
        sweep::Pass { dir: Direction::Ascending, ops: seq![CellOp::Write(seed)] },
        sweep::Pass {
            dir: Direction::Ascending,
            ops: seq![CellOp::Read(seed), CellOp::Write(!seed)],
        },
        sweep::Pass {
            dir: Direction::Descending,
            ops: seq![CellOp::Read(!seed), CellOp::Write(seed)],
        },
        sweep::Pass { dir: Direction::Ascending, ops: seq![CellOp::Read(seed)] },
    ]
}

/// The phases of every seed.
pub open spec fn inversion_passes() -> Seq<sweep::Pass> {
    seed_passes(SEED_SOLID) + seed_passes(SEED_CHECKER)
}

/// The whole sequence over `len` words.
pub open spec fn inversion_script(len: int) -> Seq<memory::Step> {
    sweep::passes_script(inversion_passes(), len, 8)
}

/// The phases of every seed.
pub fn phases() -> (phases: Vec<Phase>)
    ensures
        sweep::passes_of(phases@) == inversion_passes(),
        phases@.len() == 8,
{
    let mut all: Vec<Phase> = Vec::new();
    push_seed(&mut all, SEED_SOLID);
    push_seed(&mut all, SEED_CHECKER);
    assert(sweep::passes_of(all@) =~~= inversion_passes());
    all
}

fn push_seed(all: &mut Vec<Phase>, seed: u64)
    ensures
        final(all)@.len() == old(all)@.len() + 4,
        sweep::passes_of(final(all)@) == sweep::passes_of(old(all)@) + seed_passes(seed),
{
    let inverse: u64 = !seed;
    all.push(Phase { dir: Direction::Ascending, ops: vec![CellOp::Write(seed)] });
    all.push(
        Phase {
            dir: Direction::Ascending,
            ops: vec![CellOp::Read(seed), CellOp::Write(inverse)],
        },
    );
    all.push(
        Phase {
            dir: Direction::Descending,
            ops: vec![CellOp::Read(inverse), CellOp::Write(seed)],
        },
    );
    all.push(Phase { dir: Direction::Ascending, ops: vec![CellOp::Read(seed)] });
    assert(sweep::passes_of(all@) =~~= sweep::passes_of(old(all)@) + seed_passes(seed));
}

/// Run the full sequence. The operator hears of each phase that ended.
pub fn run<M: Memory, N: Monitor>(
    mem: &mut M,
    monitor: &mut N,
    budget: &mut FailureBudget,
) -> (failures: Vec<Failure>)
    ensures
        final(mem).size() == old(mem).size(),
        final(mem).base() == old(mem).base(),
        memory::extends(old(mem).trace(), final(mem).trace()),
        memory::extends(old(monitor).log(), final(monitor).log()),
        memory::ran(
            inversion_script(old(mem).size()),
            SUB_PASSES as int,
            old(mem).base(),
            *old(budget),
            *final(budget),
            memory::since(old(mem).trace(), final(mem).trace()),
            memory::since(old(monitor).log(), final(monitor).log()),
            failures@,
        ),
        memory::heeds(
            inversion_script(old(mem).size()),
            sweep::passes_ends(inversion_passes(), old(mem).size()),
            SUB_PASSES as int,
            false,
            old(mem).base(),
            old(budget).slots(),
            memory::since(old(mem).trace(), final(mem).trace()),
            memory::since(old(monitor).log(), final(monitor).log()),
        ),
{
    let mut failures: Vec<Failure> = Vec::new();
    let list = phases();
    let _ = run_phases(mem, monitor, list.as_slice(), &mut failures, budget);
    proof {
        assert(memory::since(Seq::<Failure>::empty(), failures@) =~= failures@);
    }
    failures
}

/// The seeds and their inverses are the words of the solid bits and of the checkerboard: in
/// each phase all bits, or every second one, are set, and every bit is both set and clear.
pub proof fn law_seeds_and_inverses(b: int)
    requires
        0 <= b < 64,
    ensures
        SEED_SOLID == crate::pattern::solid::solid_words()[0],
        !SEED_SOLID == crate::pattern::solid::solid_words()[1],
        SEED_CHECKER == crate::pattern::checkerboard::checker_words()[0],
        !SEED_CHECKER == crate::pattern::checkerboard::checker_words()[1],
        crate::failure::bit(SEED_CHECKER, b) <==> b % 2 == 1,
        crate::failure::bit(!SEED_CHECKER, b) <==> b % 2 == 0,
        inversion_passes().len() == SUB_PASSES,
{
    assert(!0u64 == 0xFFFF_FFFF_FFFF_FFFFu64 && !0xAAAA_AAAA_AAAA_AAAAu64
        == 0x5555_5555_5555_5555u64) by (bit_vector);
    crate::pattern::checkerboard::law_bits_alternate(b);
}

} // verus!
