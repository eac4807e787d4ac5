//! Holding frames hostage, step by step.
//!
//! A sweep alternates between the system and decisions: what to reserve, what to give
//! back when the memory ran out, and which blocks to hold once their frames are known.
//! The decisions are here; the caller does what they ask for and reports what came of
//! it.

use crate::allocation::AllocError;
use crate::physmem::pfn::{self, PfnRange};
use crate::physmem::phys::IoFailure;
use crate::physmem::sieve::{self, partition_region, sweep_target, SieveOutcome, BLOCK_FRAMES};
use crate::physmem::PAGE_BYTES_USIZE;
use vstd::prelude::*;
use vstd::string::StringExecFns;

verus! {

/// Why no frames are held.
#[allow(inconsistent_fields)]
#[derive(Debug)]
pub enum SieveError {
    /// The reservation failed.
    Alloc { source: AllocError },
    /// The frames could not be looked up.
    Pagemap { source: IoFailure },
}

impl SieveError {
    /// How the error reads.
    pub open spec fn shown(&self) -> Seq<char> {
        match *self {
            SieveError::Alloc { source } => "sieve reservation failed: "@ + source.shown(),
            SieveError::Pagemap { source } => "sieve cannot resolve physical frames: "@
                + source.message@,
        }
    }

    /// How the error reads.
    pub fn to_string(&self) -> (s: String)
        ensures
            s@ == self.shown(),
    {
        let mut s = String::new();
        match self {
            SieveError::Alloc { source } => {
                s.append("sieve reservation failed: ");
                s.append(&source.to_string());
            },
            SieveError::Pagemap { source } => {
                s.append("sieve cannot resolve physical frames: ");
                s.append(&source.message);
            },
        }
        assert(s@ =~= self.shown());
        s
    }
}

/// What a sweep waits for.
#[derive(Debug, Clone, Copy, PartialEq, Eq, Structural)]
pub enum Awaited {
    /// That the pagemap is opened, before any memory is taken.
    Pagemap,
    /// That the reservation is made.
    Reservation,
    /// That the reservation is filled, as far as memory goes.
    Sweep,
    /// That the frames are read.
    Frames,
    /// Nothing: the sweep is over.
    Nothing,
}

/// A sweep and the blocks it holds. Runs are offsets and lengths in bytes within the
/// reservation.
#[derive(Debug)]
pub struct FrameSieve {
    /// Bytes to reserve.
    pub target: usize,
    /// Bytes that were filled.
    pub achieved: usize,
    pub awaited: Awaited,
    /// The runs that are held.
    pub hostages: Vec<(usize, usize)>,
}

impl FrameSieve {
    /// Whether the numbers fit together.
    pub open spec fn consistent(&self) -> bool {
        &&& self.achieved <= self.target
        &&& self.target as int % (PAGE_BYTES_USIZE as int) == 0
        &&& self.achieved as int % (PAGE_BYTES_USIZE as int) == 0
        &&& self.awaited == Awaited::Nothing || (self.target > 0 && self.hostages@.len() == 0)
        &&& self.awaited == Awaited::Frames ==> self.achieved > 0
    }

    /// Begin a sweep over what is available above the headroom, at most `max_sweep`
    /// bytes. If that is less than a block there is nothing to do.
    pub fn begin(available: Option<u64>, headroom: u64, max_sweep: Option<usize>) -> (sieve: Self)
        ensures
            sieve.consistent(),
            sieve.target == sieve::swept_bytes(
                match available {
                    Some(n) => n,
                    None => 0,
                },
                headroom,
                max_sweep,
            ),
            sieve.achieved == 0,
            sieve.hostages@.len() == 0,
            sieve.awaited == if sieve.target == 0 {
                Awaited::Nothing
            } else {
                Awaited::Pagemap
            },
    {
        let available: u64 = match available {
            Some(n) => n,
            None => 0,
        };
        let target: usize = sweep_target(available, headroom, max_sweep);
        let awaited = if target == 0 {
            Awaited::Nothing
        } else {
            Awaited::Pagemap
        };
        FrameSieve { target, achieved: 0, awaited, hostages: Vec::new() }
    }

    /// The pagemap was opened, or not. Returns how many bytes to reserve.
    pub fn opened(&mut self, opened: Result<(), IoFailure>) -> (r: Result<usize, SieveError>)
        requires
            old(self).consistent(),
            old(self).awaited == Awaited::Pagemap,
        ensures
            final(self).consistent(),
            final(self).target == old(self).target,
            final(self).achieved == old(self).achieved,
            final(self).hostages == old(self).hostages,
            match opened {
                Ok(_) => r == Ok::<usize, SieveError>(old(self).target) && final(self).awaited
                    == Awaited::Reservation,
                Err(source) => r == Err::<usize, SieveError>(SieveError::Pagemap { source })
                    && final(self).awaited == Awaited::Nothing,
            },
    {
        match opened {
            Ok(_) => {
                self.awaited = Awaited::Reservation;
                Ok(self.target)
            },
            Err(source) => {
                self.awaited = Awaited::Nothing;
                Err(SieveError::Pagemap { source })
            },
        }
    }

    /// The reservation was made, or not. Returns how many bytes to fill.
    pub fn reserved(&mut self, reserved: Result<(), AllocError>) -> (r: Result<usize, SieveError>)
        requires
            old(self).consistent(),
            old(self).awaited == Awaited::Reservation,
        ensures
            final(self).consistent(),
            final(self).target == old(self).target,
            final(self).achieved == old(self).achieved,
            final(self).hostages == old(self).hostages,
            match reserved {
                Ok(_) => r == Ok::<usize, SieveError>(old(self).target) && final(self).awaited
                    == Awaited::Sweep,
                Err(source) => r == Err::<usize, SieveError>(SieveError::Alloc { source })
                    && final(self).awaited == Awaited::Nothing,
            },
    {
        match reserved {
            Ok(_) => {
                self.awaited = Awaited::Sweep;
                Ok(self.target)
            },
            Err(source) => {
                self.awaited = Awaited::Nothing;
                Err(SieveError::Alloc { source })
            },
        }
    }

    /// The first `achieved` bytes were filled. Returns the runs to give back: what was
    /// not filled. Without any memory the sweep is over.
    pub fn swept(&mut self, achieved: usize) -> (release: Vec<(usize, usize)>)
        requires
            old(self).consistent(),
            old(self).awaited == Awaited::Sweep,
            achieved <= old(self).target,
            achieved as int % (PAGE_BYTES_USIZE as int) == 0,
        ensures
            final(self).consistent(),
            final(self).target == old(self).target,
            final(self).achieved == achieved,
            final(self).hostages == old(self).hostages,
            final(self).awaited == if achieved == 0 {
                Awaited::Nothing
            } else {
                Awaited::Frames
            },
            release@ == unfilled(old(self).target, achieved),
    {
        self.achieved = achieved;
        self.awaited = if achieved == 0 {
            Awaited::Nothing
        } else {
            Awaited::Frames
        };
        let mut release: Vec<(usize, usize)> = Vec::new();
        if achieved < self.target {
            release.push((achieved, self.target - achieved));
        }
        release
    }

    /// The outcome of a sweep that is over and got no memory. `None` while something is
    /// awaited, or if memory was swept.
    pub fn empty_outcome(&self) -> (outcome: Option<SieveOutcome>)
        ensures
            outcome == (if self.awaited == Awaited::Nothing && self.achieved == 0 {
                Some(SieveOutcome { swept: 0, held: 0, released: 0 })
            } else {
                None
            }),
    {
        if self.awaited == Awaited::Nothing && self.achieved == 0 {
            Some(SieveOutcome { swept: 0, held: 0, released: 0 })
        } else {
            None
        }
    }

    /// How many pages to look up.
    pub fn pages(&self) -> (pages: usize)
        ensures
            pages == self.achieved / PAGE_BYTES_USIZE,
    {
        self.achieved / PAGE_BYTES_USIZE
    }

    /// The frames were read, or not. Holds the blocks that are covered already and
    /// returns the runs to give back: the other blocks, or everything if the frames are
    /// not known, for culling is useless then.
    pub fn hold(&mut self, frames: Result<Vec<u64>, IoFailure>, covered: &[PfnRange]) -> (r: (
        Vec<(usize, usize)>,
        Result<SieveOutcome, SieveError>,
    ))
        requires
            old(self).consistent(),
            old(self).awaited == Awaited::Frames,
            frames matches Ok(pfns) ==> pfns@.len() * PAGE_BYTES_USIZE == old(self).achieved,
            pfn::ordered(covered@),
            pfn::all_bounded(covered@),
        ensures
            final(self).consistent(),
            final(self).target == old(self).target,
            final(self).achieved == old(self).achieved,
            final(self).awaited == Awaited::Nothing,
            match frames {
                Ok(pfns) => {
                    &&& sieve::splits(
                        pfns@,
                        covered@,
                        BLOCK_FRAMES as int,
                        pfns@.len() as int,
                        final(self).hostages@,
                        r.0@,
                    )
                    &&& r.1 == Ok::<SieveOutcome, SieveError>(
                        SieveOutcome {
                            swept: old(self).achieved,
                            held: sieve::run_bytes(final(self).hostages@) as usize,
                            released: sieve::run_bytes(r.0@) as usize,
                        },
                    )
                },
                Err(source) => {
                    &&& final(self).hostages@.len() == 0
                    &&& r.0@ == seq![(0usize, old(self).achieved)]
                    &&& r.1 == Err::<SieveOutcome, SieveError>(SieveError::Pagemap { source })
                },
            },
    {
        self.awaited = Awaited::Nothing;
        match frames {
            Ok(pfns) => {
                let partition = partition_region(&pfns, covered, BLOCK_FRAMES);
                let outcome = partition.outcome();
                self.hostages = partition.hostages;
                (partition.fresh, Ok(outcome))
            },
            Err(source) => {
                let mut release: Vec<(usize, usize)> = Vec::new();
                release.push((0, self.achieved));
                (release, Err(SieveError::Pagemap { source }))
            },
        }
    }
}

/// What was not filled.
pub open spec fn unfilled(target: usize, achieved: usize) -> Seq<(usize, usize)> {
    if achieved < target {
        seq![(achieved, (target - achieved) as usize)]
    } else {
        seq![]
    }
}

/// No byte of a reservation is lost: each is given back once, either as not filled or as
/// not covered, or else it is held.
pub proof fn law_every_byte_is_held_or_released(
    target: usize,
    achieved: usize,
    pfns: Seq<u64>,
    covered: Seq<PfnRange>,
    hostages: Seq<(usize, usize)>,
    fresh: Seq<(usize, usize)>,
    x: int,
)
    requires
        achieved <= target,
        pfns.len() * PAGE_BYTES_USIZE == achieved,
        sieve::splits(
            pfns,
            covered,
            BLOCK_FRAMES as int,
            pfns.len() as int,
            hostages,
            fresh,
        ),
    ensures
        0 <= x < target <==> sieve::in_runs(unfilled(target, achieved), x) || sieve::in_runs(
            fresh,
            x,
        ) || sieve::in_runs(hostages, x),
        !(sieve::in_runs(unfilled(target, achieved), x) && sieve::in_runs(fresh, x)),
        !(sieve::in_runs(unfilled(target, achieved), x) && sieve::in_runs(hostages, x)),
        !(sieve::in_runs(fresh, x) && sieve::in_runs(hostages, x)),
{
    let tail = unfilled(target, achieved);
    if achieved < target {
        assert(tail[0] == (achieved, (target - achieved) as usize));
        assert(sieve::in_runs(tail, x) <==> achieved <= x < target) by {
            if achieved <= x < target {
                assert(sieve::in_run(tail[0], x));
            }
        }
    }
}

/// What a sweep holds back are blocks of 2 MiB, counted from the start of the reservation,
/// whose frames are all known and covered already; every other byte that was filled is
/// given back.
pub proof fn law_covered_blocks_stay(
    pfns: Seq<u64>,
    covered: Seq<PfnRange>,
    hostages: Seq<(usize, usize)>,
    fresh: Seq<(usize, usize)>,
    block: int,
    x: int,
)
    requires
        sieve::splits(
            pfns,
            covered,
            BLOCK_FRAMES as int,
            pfns.len() as int,
            hostages,
            fresh,
        ),
        0 <= block,
        2_097_152 * block <= x < 2_097_152 * (block + 1),
        x < pfns.len() * 4096,
    ensures
        sieve::in_runs(hostages, x) <==> forall|k: int|
            512 * block <= k < 512 * (block + 1) && k < pfns.len() ==> #[trigger] pfns[k] != 0
                && pfn::covers(covered, pfns[k] as int),
        sieve::in_runs(fresh, x) <==> !sieve::in_runs(hostages, x),
{
    sieve::law_covered_blocks_are_held(pfns, covered, 512, hostages, fresh, block, x);
}

} // verus!
