//! Frame-hostage culling: steering allocation toward untested physical frames.
//!
//! Userspace cannot ask the kernel for specific frames, but it can refuse to give
//! back frames that it does not want served again. Before the test buffer is
//! allocated, available memory is swept, its frames are resolved, and the
//! untested ones are returned to the kernel while those already covered are held
//! hostage. The allocator then serves the frames just released to the test
//! buffer, and the hostages are let go.
//!
//! Culling granularity is one 2 MiB block: culling single pages would split huge
//! pages.

use vstd::prelude::*;

use crate::physmem::pfn::{self, contains_pfn, Pfn, PfnRange};
use crate::physmem::PAGE_BYTES_USIZE;

verus! {

/// Culling granularity: one transparent huge page.
pub const BLOCK_BYTES: usize = 2097152;

/// Frames per culling block.
pub const BLOCK_FRAMES: usize = 512;

/// How a swept region splits into hostage and fresh block runs.
///
/// Offsets and lengths are in bytes relative to the region base. Adjacent blocks
/// of the same kind form one run; the final block may be shorter.
#[derive(Debug, PartialEq, Eq)]
pub struct Partition {
    /// Runs of blocks whose every frame is already covered: keep mapped.
    pub hostages: Vec<(usize, usize)>,
    /// Runs of blocks with at least one untested or unresolved frame: return to
    /// the kernel.
    pub fresh: Vec<(usize, usize)>,
}

/// What a sweep accomplished, in bytes.
#[derive(Debug, Clone, Copy, PartialEq, Eq, Structural)]
pub struct SieveOutcome {
    /// Swept and resolved in total.
    pub swept: usize,
    /// Held hostage: previously covered.
    pub held: usize,
    /// Returned to the kernel for the test buffer to acquire again.
    pub released: usize,
}

/// Whether byte `x` lies in one of the runs.
pub open spec fn in_runs(runs: Seq<(usize, usize)>, x: int) -> bool {
    exists|i: int| 0 <= i < runs.len() && in_run(#[trigger] runs[i], x)
}

/// Whether byte `x` lies in a run of offset and length.
pub open spec fn in_run(run: (usize, usize), x: int) -> bool {
    run.0 <= x < run.0 + run.1
}

/// Runs in order, none empty, none touching the next.
pub open spec fn runs_apart(runs: Seq<(usize, usize)>) -> bool {
    &&& forall|i: int| 0 <= i < runs.len() ==> (#[trigger] runs[i]).1 > 0
    &&& forall|i: int, j: int|
        0 <= i < j < runs.len() ==> (#[trigger] runs[i]).0 + runs[i].1 < (#[trigger] runs[j]).0
}

/// Sum of the run lengths.
pub open spec fn run_bytes(runs: Seq<(usize, usize)>) -> int
    decreases runs.len(),
{
    if runs.len() == 0 {
        0
    } else {
        run_bytes(runs.drop_last()) + runs.last().1
    }
}

/// First frame of the block that frame `i` is in.
pub open spec fn block_start(i: int, frames_per_block: int) -> int {
    i - i % frames_per_block
}

/// Whether every frame of the block that frame `i` is in resolved and is covered.
pub open spec fn block_is_covered(
    pfns: Seq<u64>,
    covered: Seq<PfnRange>,
    frames_per_block: int,
    i: int,
) -> bool {
    let start = block_start(i, frames_per_block);
    forall|k: int|
        start <= k < start + frames_per_block && k < pfns.len() ==> #[trigger] pfns[k] != 0
            && pfn::covers(covered, pfns[k] as int)
}

/// Add a run after those already there, joined to the last if it touches it.
fn push_run(runs: &mut Vec<(usize, usize)>, offset: usize, len: usize)
    requires
        runs_apart(old(runs)@),
        len > 0,
        offset + len <= usize::MAX,
        forall|i: int|
            0 <= i < old(runs)@.len() ==> (#[trigger] old(runs)@[i]).0 + old(runs)@[i].1 <= offset,
    ensures
        runs_apart(final(runs)@),
        forall|i: int|
            0 <= i < final(runs)@.len() ==> (#[trigger] final(runs)@[i]).0 + final(runs)@[i].1
                <= offset + len,
        forall|x: int| #[trigger]
            in_runs(final(runs)@, x) <==> in_runs(old(runs)@, x) || offset <= x < offset + len,
        run_bytes(final(runs)@) == run_bytes(old(runs)@) + len,
{
    let ghost before = runs@;
    let n: usize = runs.len();
    if n > 0 && runs[n - 1].0 + runs[n - 1].1 == offset {
        let last = runs[n - 1];
        runs.set(n - 1, (last.0, last.1 + len));
        proof {
            assert(runs@.drop_last() =~= before.drop_last());
            assert forall|x: int| #[trigger]
                in_runs(runs@, x) <==> in_runs(before, x) || offset <= x < offset + len by {
                if in_runs(runs@, x) {
                    let i = choose|i: int| 0 <= i < runs@.len() && in_run(#[trigger] runs@[i], x);
                    if i < n - 1 {
                        assert(in_run(before[i], x));
                    } else if x < offset {
                        assert(in_run(before[n - 1], x));
                    }
                }
                if in_runs(before, x) {
                    let i = choose|i: int| 0 <= i < before.len() && in_run(#[trigger] before[i], x);
                    assert(in_run(runs@[i], x));
                }
                if offset <= x < offset + len {
                    assert(in_run(runs@[n - 1], x));
                }
            }
        }
    } else {
        runs.push((offset, len));
        proof {
            assert(runs@.drop_last() =~= before);
            assert forall|x: int| #[trigger]
                in_runs(runs@, x) <==> in_runs(before, x) || offset <= x < offset + len by {
                if in_runs(runs@, x) {
                    let i = choose|i: int| 0 <= i < runs@.len() && in_run(#[trigger] runs@[i], x);
                    if i < n {
                        assert(in_run(before[i], x));
                    }
                }
                if in_runs(before, x) {
                    let i = choose|i: int| 0 <= i < before.len() && in_run(#[trigger] before[i], x);
                    assert(in_run(runs@[i], x));
                }
                if offset <= x < offset + len {
                    assert(in_run(runs@[n as int], x));
                }
            }
        }
    }
}

/// The frames of a block share its first frame.
proof fn lemma_block_start(start: int, i: int, frames_per_block: int)
    requires
        0 < frames_per_block,
        0 <= start <= i < start + frames_per_block,
        start % frames_per_block == 0,
    ensures
        block_start(i, frames_per_block) == start,
{
    let d = i - start;
    vstd::arithmetic::div_mod::lemma_add_mod_noop(start, d, frames_per_block);
    vstd::arithmetic::div_mod::lemma_small_mod(d as nat, frames_per_block as nat);
    assert((0 + d) % frames_per_block == d);
}

/// The next block starts a block further on.
proof fn lemma_next_block(start: int, frames_per_block: int)
    requires
        0 < frames_per_block,
        start % frames_per_block == 0,
    ensures
        (start + frames_per_block) % frames_per_block == 0,
{
    vstd::arithmetic::div_mod::lemma_mod_add_multiples_vanish(start, frames_per_block);
    assert(frames_per_block + start == start + frames_per_block);
}

/// Whether the two kinds of runs split the first `n` frames of a region by
/// whether their block is covered.
pub open spec fn splits(
    pfns: Seq<u64>,
    covered: Seq<PfnRange>,
    frames_per_block: int,
    n: int,
    hostages: Seq<(usize, usize)>,
    fresh: Seq<(usize, usize)>,
) -> bool {
    &&& runs_apart(hostages)
    &&& runs_apart(fresh)
    &&& forall|x: int| #[trigger]
        in_runs(hostages, x) <==> 0 <= x < n * PAGE_BYTES_USIZE && block_is_covered(
            pfns,
            covered,
            frames_per_block,
            x / (PAGE_BYTES_USIZE as int),
        )
    &&& forall|x: int| #[trigger]
        in_runs(fresh, x) <==> 0 <= x < n * PAGE_BYTES_USIZE && !block_is_covered(
            pfns,
            covered,
            frames_per_block,
            x / (PAGE_BYTES_USIZE as int),
        )
    &&& run_bytes(hostages) + run_bytes(fresh) == n * PAGE_BYTES_USIZE
}

/// Split a swept region into hostage and fresh block runs.
///
/// `pfns` holds one entry per page in virtual order, zero where unresolved. A
/// block is a hostage only when every frame in it resolved and is covered:
/// holding a block with an untested frame would hide that frame from the test
/// buffer, which is worse than testing a covered one again.
pub fn partition_region(
    pfns: &[u64],
    covered: &[PfnRange],
    frames_per_block: usize,
) -> (partition: Partition)
    requires
        frames_per_block > 0,
        pfns@.len() * PAGE_BYTES_USIZE <= usize::MAX,
        pfn::ordered(covered@),
        pfn::all_bounded(covered@),
    ensures
        splits(
            pfns@,
            covered@,
            frames_per_block as int,
            pfns@.len() as int,
            partition.hostages@,
            partition.fresh@,
        ),
{
    let mut hostages: Vec<(usize, usize)> = Vec::new();
    let mut fresh: Vec<(usize, usize)> = Vec::new();
    let len: usize = pfns.len();
    let ghost fpb = frames_per_block as int;
    let mut start: usize = 0;
    while start < len
        invariant
            start <= len,
            len == pfns@.len(),
            len * PAGE_BYTES_USIZE <= usize::MAX,
            fpb == frames_per_block,
            fpb > 0,
            start < len ==> start as int % fpb == 0,
            pfn::ordered(covered@),
            pfn::all_bounded(covered@),
            splits(pfns@, covered@, fpb, start as int, hostages@, fresh@),
            forall|i: int|
                0 <= i < hostages@.len() ==> (#[trigger] hostages@[i]).0 + hostages@[i].1 <= start
                    * PAGE_BYTES_USIZE,
            forall|i: int|
                0 <= i < fresh@.len() ==> (#[trigger] fresh@[i]).0 + fresh@[i].1 <= start
                    * PAGE_BYTES_USIZE,
        decreases len - start,
    {
        let end: usize = if len - start <= frames_per_block {
            len
        } else {
            start + frames_per_block
        };
        let mut hostage: bool = true;
        let mut k: usize = start;
        while k < end
            invariant
                start <= k <= end <= len,
                len == pfns@.len(),
                pfn::ordered(covered@),
                pfn::all_bounded(covered@),
                hostage == (forall|m: int|
                    start <= m < k ==> #[trigger] pfns@[m] != 0 && pfn::covers(
                        covered@,
                        pfns@[m] as int,
                    )),
            decreases end - k,
        {
            let resolved: bool = pfns[k] != 0 && contains_pfn(covered, Pfn::new(pfns[k]));
            if !resolved {
                hostage = false;
            }
            k = k + 1;
        }
        let offset: usize = start * PAGE_BYTES_USIZE;
        let bytes: usize = (end - start) * PAGE_BYTES_USIZE;
        let ghost hostages1 = hostages@;
        let ghost fresh1 = fresh@;
        proof {
            assert forall|i: int| start <= i < end implies #[trigger] block_is_covered(
                pfns@,
                covered@,
                fpb,
                i,
            ) == hostage by {
                lemma_block_start(start as int, i, fpb);
            }
        }
        if hostage {
            push_run(&mut hostages, offset, bytes);
        } else {
            push_run(&mut fresh, offset, bytes);
        }
        proof {
            if end < len {
                lemma_next_block(start as int, fpb);
            }
            assert forall|x: int| #[trigger]
                in_runs(hostages@, x) <==> 0 <= x < end * PAGE_BYTES_USIZE && block_is_covered(
                    pfns@,
                    covered@,
                    fpb,
                    x / (PAGE_BYTES_USIZE as int),
                ) by {
                assert(in_runs(hostages1, x) <==> 0 <= x < start * PAGE_BYTES_USIZE
                    && block_is_covered(pfns@, covered@, fpb, x / (PAGE_BYTES_USIZE as int)));
                if offset <= x < offset + bytes {
                    let i = x / (PAGE_BYTES_USIZE as int);
                    assert(start <= i < end);
                    assert(block_is_covered(pfns@, covered@, fpb, i) == hostage);
                }
            }
            assert forall|x: int| #[trigger]
                in_runs(fresh@, x) <==> 0 <= x < end * PAGE_BYTES_USIZE && !block_is_covered(
                    pfns@,
                    covered@,
                    fpb,
                    x / (PAGE_BYTES_USIZE as int),
                ) by {
                assert(in_runs(fresh1, x) <==> 0 <= x < start * PAGE_BYTES_USIZE
                    && !block_is_covered(pfns@, covered@, fpb, x / (PAGE_BYTES_USIZE as int)));
                if offset <= x < offset + bytes {
                    let i = x / (PAGE_BYTES_USIZE as int);
                    assert(start <= i < end);
                    assert(block_is_covered(pfns@, covered@, fpb, i) == hostage);
                }
            }
        }
        start = end;
    }
    Partition { hostages, fresh }
}

/// What is available above the headroom, at most `max_sweep`, in whole blocks.
pub open spec fn swept_bytes(available: u64, headroom: u64, max_sweep: Option<usize>) -> int {
    let room = if available >= headroom {
        available - headroom
    } else {
        0
    };
    let room = if room <= usize::MAX {
        room
    } else {
        usize::MAX as int
    };
    let limit = match max_sweep {
        Some(max) => if room <= max {
            room
        } else {
            max as int
        },
        None => room,
    };
    limit - limit % (BLOCK_BYTES as int)
}

/// How many bytes to sweep: what is available above the headroom, at most
/// `max_sweep`, in whole blocks.
pub fn sweep_target(available: u64, headroom: u64, max_sweep: Option<usize>) -> (target: usize)
    ensures
        target as int % (BLOCK_BYTES as int) == 0,
        target == swept_bytes(available, headroom, max_sweep),
{
    let room: u64 = available.saturating_sub(headroom);
    let mut target: usize = if room <= usize::MAX as u64 {
        room as usize
    } else {
        usize::MAX
    };
    if let Some(max) = max_sweep {
        if max < target {
            target = max;
        }
    }
    target - target % BLOCK_BYTES
}

/// Sum of the run lengths.
fn sum_runs(runs: &[(usize, usize)]) -> (sum: usize)
    requires
        run_bytes(runs@) <= usize::MAX,
    ensures
        sum == run_bytes(runs@),
{
    let mut sum: usize = 0;
    let mut i: usize = 0;
    while i < runs.len()
        invariant
            i <= runs@.len(),
            run_bytes(runs@) <= usize::MAX,
            sum == run_bytes(runs@.take(i as int)),
        decreases runs@.len() - i,
    {
        proof {
            assert(runs@.take(i + 1).drop_last() =~= runs@.take(i as int));
            lemma_run_bytes_prefix(runs@, i + 1);
        }
        sum = sum + runs[i].1;
        i = i + 1;
    }
    assert(runs@.take(runs@.len() as int) =~= runs@);
    sum
}

/// A prefix of the runs has no more bytes than all.
proof fn lemma_run_bytes_prefix(runs: Seq<(usize, usize)>, n: int)
    requires
        0 <= n <= runs.len(),
    ensures
        0 <= run_bytes(runs.take(n)) <= run_bytes(runs),
    decreases runs.len(),
{
    if n == runs.len() {
        assert(runs.take(n) =~= runs);
        if n > 0 {
            lemma_run_bytes_prefix(runs.drop_last(), n - 1);
            assert(runs.drop_last().take(n - 1) =~= runs.drop_last());
        }
    } else {
        lemma_run_bytes_prefix(runs.drop_last(), n);
        assert(runs.drop_last().take(n) =~= runs.take(n));
    }
}

impl Partition {
    /// What the sweep that this partition belongs to accomplished.
    pub fn outcome(&self) -> (outcome: SieveOutcome)
        requires
            run_bytes(self.hostages@) + run_bytes(self.fresh@) <= usize::MAX,
        ensures
            outcome.held == run_bytes(self.hostages@),
            outcome.released == run_bytes(self.fresh@),
            outcome.swept == outcome.held + outcome.released,
    {
        proof {
            lemma_run_bytes_prefix(self.hostages@, self.hostages@.len() as int);
            lemma_run_bytes_prefix(self.fresh@, self.fresh@.len() as int);
            assert(self.hostages@.take(self.hostages@.len() as int) =~= self.hostages@);
            assert(self.fresh@.take(self.fresh@.len() as int) =~= self.fresh@);
        }
        let held: usize = sum_runs(self.hostages.as_slice());
        let released: usize = sum_runs(self.fresh.as_slice());
        SieveOutcome { swept: held + released, held, released }
    }
}

/// A frame that no run has tested is never held back from the test buffer, and a
/// frame that could not be resolved is not either.
pub proof fn law_untested_frames_are_released(
    pfns: Seq<u64>,
    covered: Seq<PfnRange>,
    frames_per_block: int,
    hostages: Seq<(usize, usize)>,
    fresh: Seq<(usize, usize)>,
    i: int,
)
    requires
        0 < frames_per_block,
        splits(pfns, covered, frames_per_block, pfns.len() as int, hostages, fresh),
        0 <= i < pfns.len(),
        pfns[i] == 0 || !pfn::covers(covered, pfns[i] as int),
    ensures
        in_runs(fresh, i * PAGE_BYTES_USIZE),
        !in_runs(hostages, i * PAGE_BYTES_USIZE),
{
    let x = i * PAGE_BYTES_USIZE;
    assert(x / (PAGE_BYTES_USIZE as int) == i);
    vstd::arithmetic::div_mod::lemma_mod_bound(i, frames_per_block);
    let start = block_start(i, frames_per_block);
    assert(start <= i < start + frames_per_block);
    assert(in_runs(fresh, x) <==> 0 <= x < pfns.len() * PAGE_BYTES_USIZE && !block_is_covered(
        pfns,
        covered,
        frames_per_block,
        i,
    ));
    assert(in_runs(hostages, x) <==> 0 <= x < pfns.len() * PAGE_BYTES_USIZE && block_is_covered(
        pfns,
        covered,
        frames_per_block,
        i,
    ));
}

/// A block of frames is held back, all its bytes, if and only if each of its frames resolved
/// and is covered already; the blocks of the region are `frames_per_block` frames from its
/// start on, the last one maybe fewer. Every other byte of the region is released.
pub proof fn law_covered_blocks_are_held(
    pfns: Seq<u64>,
    covered: Seq<PfnRange>,
    frames_per_block: int,
    hostages: Seq<(usize, usize)>,
    fresh: Seq<(usize, usize)>,
    block: int,
    x: int,
)
    requires
        0 < frames_per_block,
        splits(pfns, covered, frames_per_block, pfns.len() as int, hostages, fresh),
        0 <= block,
        block * frames_per_block * 4096 <= x < (block * frames_per_block + frames_per_block) * 4096,
        x < pfns.len() * 4096,
    ensures
        in_runs(hostages, x) <==> forall|k: int|
            block * frames_per_block <= k < block * frames_per_block + frames_per_block && k
                < pfns.len() ==> #[trigger] pfns[k] != 0 && pfn::covers(covered, pfns[k] as int),
        in_runs(fresh, x) <==> !in_runs(hostages, x),
{
    let i = x / (PAGE_BYTES_USIZE as int);
    let start = block * frames_per_block;
    assert(start >= 0) by (nonlinear_arith)
        requires
            block >= 0,
            frames_per_block > 0,
            start == block * frames_per_block,
    ;
    vstd::arithmetic::div_mod::lemma_mod_multiples_basic(block, frames_per_block);
    assert(start <= i < start + frames_per_block);
    lemma_block_start(start, i, frames_per_block);
    assert(in_runs(hostages, x) <==> 0 <= x < pfns.len() * PAGE_BYTES_USIZE && block_is_covered(
        pfns,
        covered,
        frames_per_block,
        i,
    ));
    assert(in_runs(fresh, x) <==> 0 <= x < pfns.len() * PAGE_BYTES_USIZE && !block_is_covered(
        pfns,
        covered,
        frames_per_block,
        i,
    ));
}

/// A sweep leaves the headroom alone and stays within its limit, in whole blocks of 2 MiB;
/// and it takes as many of them as that allows.
pub proof fn law_sweep_keeps_the_headroom(available: u64, headroom: u64, max_sweep: Option<usize>)
    ensures
        ({
            let swept = swept_bytes(available, headroom, max_sweep);
            &&& 0 <= swept
            &&& swept % 2_097_152 == 0
            &&& swept > 0 ==> available - swept >= headroom
            &&& max_sweep matches Some(max) ==> swept <= max
            &&& available - (swept + 2_097_152) < headroom || swept + 2_097_152 > usize::MAX || (
            max_sweep matches Some(max) && swept + 2_097_152 > max)
        }),
{
}

} // verus!
