//! What the failures of a run have in common: which bits flip, which always flip
//! the same way, and what kind of fault that points to.

use vstd::prelude::*;

use crate::failure::{self, bit_positions, Failure};
use crate::pattern::Pattern;
use crate::runner::{self, PassResult, PatternResult, RunResults};

verus! {

/// Aggregate bit-flip statistics across failures.
#[derive(Debug)]
pub struct BitErrorStats {
    /// Failures recorded.
    pub total_failures: usize,
    /// Lowest physical address with an error, if any address is known.
    pub lowest_phys: Option<u64>,
    /// Highest physical address with an error.
    pub highest_phys: Option<u64>,
    /// Which bit positions have ever flipped.
    pub union_xor_mask: u64,
    /// Count of flips per bit position (index 0 = bit 0).
    pub bit_positions: [u32; 64],
    /// Bits that flipped from 0 to 1 in every error.
    pub stuck_high_accum: Option<u64>,
    /// Bits that flipped from 1 to 0 in every error.
    pub stuck_low_accum: Option<u64>,
}

/// Classification of error patterns across all failures.
#[derive(Debug, PartialEq, Eq)]
pub enum ErrorClassification {
    /// No errors recorded.
    NoErrors,
    /// The same bit positions flip in every error: likely a hard stuck bit.
    StuckBit {
        /// The positions, ascending.
        positions: Vec<u8>,
    },
    /// Different bits flip across errors: coupling or disturbance faults.
    Coupling,
    /// Some bits are consistently stuck, but other bits flip too.
    Mixed,
}

/// The bits that a failure turned from 0 to 1.
pub open spec fn raised(f: Failure) -> u64 {
    f.actual & !f.expected
}

/// The bits that a failure turned from 1 to 0.
pub open spec fn lowered(f: Failure) -> u64 {
    f.expected & !f.actual
}

/// The bits that any of the failures flipped.
pub open spec fn flipped_by(h: Seq<Failure>) -> u64
    decreases h.len(),
{
    if h.len() == 0 {
        0
    } else {
        flipped_by(h.drop_last()) | h.last().spec_xor()
    }
}

/// How many of the failures flipped bit `b`.
pub open spec fn flips_of(h: Seq<Failure>, b: int) -> int
    decreases h.len(),
{
    if h.len() == 0 {
        0
    } else {
        flips_of(h.drop_last(), b) + (if failure::bit(h.last().spec_xor(), b) {
            1int
        } else {
            0int
        })
    }
}

/// The bits that all failures turned from 0 to 1, if there is a failure.
pub open spec fn always_raised(h: Seq<Failure>) -> Option<u64>
    decreases h.len(),
{
    if h.len() == 0 {
        None
    } else {
        match always_raised(h.drop_last()) {
            Some(mask) => Some(mask & raised(h.last())),
            None => Some(raised(h.last())),
        }
    }
}

/// The bits that all failures turned from 1 to 0, if there is a failure.
pub open spec fn always_lowered(h: Seq<Failure>) -> Option<u64>
    decreases h.len(),
{
    if h.len() == 0 {
        None
    } else {
        match always_lowered(h.drop_last()) {
            Some(mask) => Some(mask & lowered(h.last())),
            None => Some(lowered(h.last())),
        }
    }
}

/// Whether there are failures and each of them turned bit `b` from 0 to 1.
pub open spec fn raised_by_all(h: Seq<Failure>, b: int) -> bool {
    &&& h.len() > 0
    &&& forall|i: int|
        0 <= i < h.len() ==> !failure::bit((#[trigger] h[i]).expected, b) && failure::bit(
            h[i].actual,
            b,
        )
}

/// Whether there are failures and each of them turned bit `b` from 1 to 0.
pub open spec fn lowered_by_all(h: Seq<Failure>, b: int) -> bool {
    &&& h.len() > 0
    &&& forall|i: int|
        0 <= i < h.len() ==> failure::bit((#[trigger] h[i]).expected, b) && !failure::bit(
            h[i].actual,
            b,
        )
}

/// The smaller of a number that may not be there yet and another that may be
/// missing.
pub open spec fn lower_of(seen: Option<u64>, phys: Option<u64>) -> Option<u64> {
    match (seen, phys) {
        (Some(a), Some(b)) => Some(if a <= b {
            a
        } else {
            b
        }),
        (Some(a), None) => Some(a),
        (None, p) => p,
    }
}

/// The larger of a number that may not be there yet and another that may be
/// missing.
pub open spec fn higher_of(seen: Option<u64>, phys: Option<u64>) -> Option<u64> {
    match (seen, phys) {
        (Some(a), Some(b)) => Some(if a >= b {
            a
        } else {
            b
        }),
        (Some(a), None) => Some(a),
        (None, p) => p,
    }
}

/// The physical address of a failure, as a number.
pub open spec fn phys_of(f: Failure) -> Option<u64> {
    match f.phys_addr {
        Some(addr) => Some(addr.0),
        None => None,
    }
}

/// The lowest physical address among the failures, if any is known.
pub open spec fn lowest_phys_of(h: Seq<Failure>) -> Option<u64>
    decreases h.len(),
{
    if h.len() == 0 {
        None
    } else {
        lower_of(lowest_phys_of(h.drop_last()), phys_of(h.last()))
    }
}

/// The highest physical address among the failures, if any is known.
pub open spec fn highest_phys_of(h: Seq<Failure>) -> Option<u64>
    decreases h.len(),
{
    if h.len() == 0 {
        None
    } else {
        higher_of(highest_phys_of(h.drop_last()), phys_of(h.last()))
    }
}

/// A mask that may not be there yet: then no bit is in it.
pub open spec fn mask_or_none(mask: Option<u64>) -> u64 {
    match mask {
        Some(m) => m,
        None => 0,
    }
}

/// What failures with these statistics amount to.
pub open spec fn classified(total: int, stuck: u64, flipped: u64, c: ErrorClassification) -> bool {
    if total == 0 {
        c == ErrorClassification::NoErrors
    } else if stuck == 0 {
        c == ErrorClassification::Coupling
    } else if stuck == flipped {
        c matches ErrorClassification::StuckBit { positions } && positions@ == failure::set_bits(
            stuck,
        )
    } else {
        c == ErrorClassification::Mixed
    }
}

impl BitErrorStats {
    /// The bits that every failure recorded turned from 0 to 1, if there was one.
    pub open spec fn high(&self) -> Option<u64> {
        self.stuck_high_accum
    }

    /// The bits that every failure recorded turned from 1 to 0, if there was one.
    pub open spec fn low(&self) -> Option<u64> {
        self.stuck_low_accum
    }

    /// Whether these are the statistics of the failures `h`.
    pub open spec fn summarizes(&self, h: Seq<Failure>) -> bool {
        &&& self.total_failures == h.len()
        &&& self.union_xor_mask == flipped_by(h)
        &&& forall|b: int| 0 <= b < 64 ==> #[trigger] self.bit_positions@[b] == flips_of(h, b)
        &&& self.lowest_phys == lowest_phys_of(h)
        &&& self.highest_phys == highest_phys_of(h)
        &&& self.high() == always_raised(h)
        &&& self.low() == always_lowered(h)
    }

    /// The statistics of no failures.
    pub fn new() -> (stats: Self)
        ensures
            stats.summarizes(Seq::empty()),
    {
        BitErrorStats {
            total_failures: 0,
            lowest_phys: None,
            highest_phys: None,
            union_xor_mask: 0,
            bit_positions: [0;64],
            stuck_high_accum: None,
            stuck_low_accum: None,
        }
    }

    /// Add a failure to the statistics.
    pub fn record(&mut self, failure: &Failure)
        requires
            old(self).total_failures < usize::MAX,
            forall|b: int| 0 <= b < 64 ==> #[trigger] old(self).bit_positions@[b] < u32::MAX,
        ensures
            final(self).total_failures == old(self).total_failures + 1,
            final(self).union_xor_mask == old(self).union_xor_mask | failure.spec_xor(),
            forall|b: int|
                0 <= b < 64 ==> #[trigger] final(self).bit_positions@[b] == old(
                    self,
                ).bit_positions@[b] + (if failure::bit(failure.spec_xor(), b) {
                    1int
                } else {
                    0int
                }),
            final(self).lowest_phys == lower_of(old(self).lowest_phys, phys_of(*failure)),
            final(self).highest_phys == higher_of(old(self).highest_phys, phys_of(*failure)),
            final(self).high() == Some(
                match old(self).high() {
                    Some(mask) => mask & raised(*failure),
                    None => raised(*failure),
                },
            ),
            final(self).low() == Some(
                match old(self).low() {
                    Some(mask) => mask & lowered(*failure),
                    None => lowered(*failure),
                },
            ),
            forall|h: Seq<Failure>| #[trigger]
                old(self).summarizes(h) ==> final(self).summarizes(h.push(*failure)),
    {
        self.total_failures = self.total_failures + 1;
        if let Some(phys) = failure.phys_addr {
            let p: u64 = phys.0;
            self.lowest_phys = Some(
                match self.lowest_phys {
                    Some(prev) => if prev <= p {
                        prev
                    } else {
                        p
                    },
                    None => p,
                },
            );
            self.highest_phys = Some(
                match self.highest_phys {
                    Some(prev) => if prev >= p {
                        prev
                    } else {
                        p
                    },
                    None => p,
                },
            );
        }
        let xor: u64 = failure.xor();
        self.union_xor_mask = self.union_xor_mask | xor;
        let ghost before = *self;
        let mut i: usize = 0;
        while i < 64
            invariant
                i <= 64,
                self.total_failures == before.total_failures,
                self.lowest_phys == before.lowest_phys,
                self.highest_phys == before.highest_phys,
                self.union_xor_mask == before.union_xor_mask,
                self.stuck_high_accum == before.stuck_high_accum,
                self.stuck_low_accum == before.stuck_low_accum,
                forall|b: int| 0 <= b < 64 ==> #[trigger] before.bit_positions@[b] < u32::MAX,
                forall|b: int|
                    0 <= b < 64 ==> #[trigger] self.bit_positions@[b] == before.bit_positions@[b]
                        + (if b < i && failure::bit(xor, b) {
                        1int
                    } else {
                        0int
                    }),
            decreases 64 - i,
        {
            if (xor >> (i as u64)) & 1 == 1 {
                self.bit_positions[i] = self.bit_positions[i] + 1;
            }
            i = i + 1;
        }
        let up: u64 = failure.actual & !failure.expected;
        let down: u64 = failure.expected & !failure.actual;
        self.stuck_high_accum = Some(
            match self.stuck_high_accum {
                Some(prev) => prev & up,
                None => up,
            },
        );
        self.stuck_low_accum = Some(
            match self.stuck_low_accum {
                Some(prev) => prev & down,
                None => down,
            },
        );
        proof {
            assert forall|h: Seq<Failure>| #[trigger] old(self).summarizes(
                h,
            ) implies self.summarizes(h.push(*failure)) by {
                assert(h.push(*failure).drop_last() =~= h);
            }
        }
    }

    /// Bits that flipped from 0 to 1 in every single error.
    pub fn stuck_high_mask(&self) -> (mask: u64)
        ensures
            mask == mask_or_none(self.high()),
            forall|h: Seq<Failure>, b: int| #[trigger]
                self.summarizes(h) && 0 <= b < 64 ==> (#[trigger] failure::bit(mask, b)
                    <==> raised_by_all(h, b)),
    {
        proof {
            assert forall|h: Seq<Failure>, b: int| #[trigger]
                self.summarizes(h) && 0 <= b < 64 implies (#[trigger] failure::bit(
                mask_or_none(self.high()),
                b,
            ) <==> raised_by_all(h, b)) by {
                law_stuck_bits_are_those_of_all(h, b);
            }
        }
        match self.stuck_high_accum {
            Some(mask) => mask,
            None => 0,
        }
    }

    /// Bits that flipped from 1 to 0 in every single error.
    pub fn stuck_low_mask(&self) -> (mask: u64)
        ensures
            mask == mask_or_none(self.low()),
            forall|h: Seq<Failure>, b: int| #[trigger]
                self.summarizes(h) && 0 <= b < 64 ==> (#[trigger] failure::bit(mask, b)
                    <==> lowered_by_all(h, b)),
    {
        proof {
            assert forall|h: Seq<Failure>, b: int| #[trigger]
                self.summarizes(h) && 0 <= b < 64 implies (#[trigger] failure::bit(
                mask_or_none(self.low()),
                b,
            ) <==> lowered_by_all(h, b)) by {
                law_stuck_bits_are_those_of_all(h, b);
            }
        }
        match self.stuck_low_accum {
            Some(mask) => mask,
            None => 0,
        }
    }

    /// Classify the overall error pattern.
    pub fn classification(&self) -> (c: ErrorClassification)
        ensures
            classified(
                self.total_failures as int,
                mask_or_none(self.high()) | mask_or_none(self.low()),
                self.union_xor_mask,
                c,
            ),
    {
        if self.total_failures == 0 {
            return ErrorClassification::NoErrors;
        }
        let stuck_mask: u64 = self.stuck_high_mask() | self.stuck_low_mask();
        if stuck_mask == 0 {
            return ErrorClassification::Coupling;
        }
        // If the stuck mask accounts for all flipped bits, it is pure stuck-bit.
        if stuck_mask == self.union_xor_mask {
            return ErrorClassification::StuckBit { positions: bit_positions(stuck_mask) };
        }
        // Some bits are consistently stuck, others vary.
        ErrorClassification::Mixed
    }
}

impl Default for BitErrorStats {
    fn default() -> (stats: Self)
        ensures
            stats.summarizes(Seq::empty()),
    {
        Self::new()
    }
}

/// What the failures of a run have in common.
#[derive(Debug)]
pub struct ErrorAnalysis {
    /// What kind of fault they point to.
    pub classification: ErrorClassification,
    /// Which bit positions have ever flipped.
    pub union_xor_mask: u64,
    /// Lowest physical address with an error, if any address is known.
    pub lowest_phys: Option<u64>,
    /// Highest physical address with an error.
    pub highest_phys: Option<u64>,
    /// The positions that flipped, ascending, and how often.
    pub bit_positions: Vec<(u8, u32)>,
    /// The patterns that failed, in the order in which they first did, and how often.
    pub per_pattern_failures: Vec<(Pattern, usize)>,
}

/// The results of the patterns of the first `n` passes, in order.
pub open spec fn results_of(passes: Seq<PassResult>, n: int) -> Seq<PatternResult>
    decreases n,
{
    if n <= 0 {
        Seq::empty()
    } else {
        results_of(passes, n - 1) + passes[n - 1].pattern_results@
    }
}

/// The failures of several patterns, in order.
pub open spec fn failures_in(results: Seq<PatternResult>) -> Seq<Failure>
    decreases results.len(),
{
    if results.len() == 0 {
        Seq::empty()
    } else {
        failures_in(results.drop_last()) + results.last().failures@
    }
}

/// The patterns that failed, in the order in which they first did.
pub open spec fn failing(results: Seq<PatternResult>) -> Seq<Pattern>
    decreases results.len(),
{
    if results.len() == 0 {
        Seq::empty()
    } else {
        let rest = failing(results.drop_last());
        let last = results.last();
        if last.failures@.len() > 0 && !rest.contains(last.pattern) {
            rest.push(last.pattern)
        } else {
            rest
        }
    }
}

/// How many failures a pattern has in all.
pub open spec fn failures_of(results: Seq<PatternResult>, pattern: Pattern) -> int
    decreases results.len(),
{
    if results.len() == 0 {
        0
    } else {
        failures_of(results.drop_last(), pattern) + if results.last().pattern == pattern {
            results.last().failures@.len() as int
        } else {
            0
        }
    }
}

/// The patterns that failed and how often.
pub open spec fn tally_of(results: Seq<PatternResult>) -> Seq<(Pattern, usize)> {
    Seq::new(
        failing(results).len(),
        |i: int| (failing(results)[i], failures_of(results, failing(results)[i]) as usize),
    )
}

/// The positions below `n` that flipped and how often.
pub open spec fn flips_below(h: Seq<Failure>, n: int) -> Seq<(u8, u32)>
    decreases n,
{
    if n <= 0 {
        Seq::empty()
    } else {
        let rest = flips_below(h, n - 1);
        if flips_of(h, n - 1) > 0 {
            rest.push(((n - 1) as u8, flips_of(h, n - 1) as u32))
        } else {
            rest
        }
    }
}

impl ErrorAnalysis {
    /// Whether this is what the failures of the patterns have in common.
    pub open spec fn analyzes(&self, results: Seq<PatternResult>) -> bool {
        let h = failures_in(results);
        &&& classified(
            h.len() as int,
            mask_or_none(always_raised(h)) | mask_or_none(always_lowered(h)),
            flipped_by(h),
            self.classification,
        )
        &&& self.union_xor_mask == flipped_by(h)
        &&& self.lowest_phys == lowest_phys_of(h)
        &&& self.highest_phys == highest_phys_of(h)
        &&& self.bit_positions@ == flips_below(h, 64)
        &&& self.per_pattern_failures@ == tally_of(results)
    }
}

proof fn lemma_flips_bounded(h: Seq<Failure>, b: int)
    ensures
        0 <= flips_of(h, b) <= h.len(),
    decreases h.len(),
{
    if h.len() > 0 {
        lemma_flips_bounded(h.drop_last(), b);
    }
}

proof fn lemma_failures_of_bounded(results: Seq<PatternResult>, pattern: Pattern)
    ensures
        0 <= failures_of(results, pattern) <= failures_in(results).len(),
        !failing(results).contains(pattern) ==> failures_of(results, pattern) == 0,
    decreases results.len(),
{
    if results.len() > 0 {
        let rest = failing(results.drop_last());
        lemma_failures_of_bounded(results.drop_last(), pattern);
        if rest.contains(pattern) {
            let i = rest.index_of(pattern);
            assert(failing(results)[i] == pattern);
        } else if results.last().pattern == pattern && results.last().failures@.len() > 0 {
            assert(failing(results).last() == pattern);
        }
    }
}

proof fn lemma_failing_once(results: Seq<PatternResult>)
    ensures
        failing(results).no_duplicates(),
    decreases results.len(),
{
    if results.len() > 0 {
        lemma_failing_once(results.drop_last());
    }
}

proof fn lemma_pass_failures(passes: Seq<PassResult>, n: int)
    requires
        0 <= n <= passes.len(),
    ensures
        failures_in(results_of(passes, n)).len() == runner::pass_failures(passes, n),
    decreases n,
{
    if n > 0 {
        let last = passes[n - 1].pattern_results@;
        lemma_pass_failures(passes, n - 1);
        lemma_pattern_failures(results_of(passes, n - 1), last, last.len() as int);
        assert(last.take(last.len() as int) =~= last);
    }
}

proof fn lemma_pattern_failures(before: Seq<PatternResult>, results: Seq<PatternResult>, n: int)
    requires
        0 <= n <= results.len(),
    ensures
        failures_in(before + results.take(n)).len() == failures_in(before).len()
            + runner::pattern_failures(results, n),
    decreases n,
{
    if n > 0 {
        lemma_pattern_failures(before, results, n - 1);
        assert((before + results.take(n)).drop_last() =~= before + results.take(n - 1));
    } else {
        assert(before + results.take(n) =~= before);
    }
}

/// The number of failures of a run is that of the failures listed by all its patterns in all
/// its passes.
pub proof fn law_total_is_what_is_listed(passes: Seq<PassResult>)
    ensures
        runner::pass_failures(passes, passes.len() as int) == failures_in(
            results_of(passes, passes.len() as int),
        ).len(),
{
    lemma_pass_failures(passes, passes.len() as int);
}

/// The number of failures that a pattern has is that of the failures listed by its results
/// alone.
pub proof fn law_pattern_tally_is_its_own(results: Seq<PatternResult>, pattern: Pattern)
    ensures
        failures_of(results, pattern) == failures_in(
            results.filter(|r: PatternResult| r.pattern == pattern),
        ).len(),
        failing(results).contains(pattern) <==> failures_of(results, pattern) > 0,
    decreases results.len(),
{
    reveal(Seq::filter);
    let own = |r: PatternResult| r.pattern == pattern;
    lemma_failures_of_bounded(results, pattern);
    if results.len() > 0 {
        let rest = results.drop_last();
        law_pattern_tally_is_its_own(rest, pattern);
        lemma_failures_of_bounded(rest, pattern);
        let before = failing(rest);
        let all = failing(results);
        if own(results.last()) {
            let longer = results.filter(own);
            assert(longer.drop_last() =~= rest.filter(own));
        }
        if all.contains(pattern) {
            let i = all.index_of(pattern);
            if i < before.len() {
                assert(before[i] == pattern);
            }
        }
        if before.contains(pattern) {
            let i = before.index_of(pattern);
            assert(all[i] == pattern);
        }
    }
}

/// Add the failures of one more pattern.
fn tally_up(tally: &mut Vec<(Pattern, usize)>, result: &PatternResult, Ghost(seen): Ghost<
    Seq<PatternResult>,
>)
    requires
        old(tally)@ == tally_of(seen),
        failures_in(seen.push(*result)).len() <= usize::MAX,
    ensures
        final(tally)@ == tally_of(seen.push(*result)),
{
    let ghost now = seen.push(*result);
    let n: usize = result.failures.len();
    proof {
        assert(now.drop_last() =~= seen);
        lemma_failing_once(seen);
        assert forall|p: Pattern|
                0 <= #[trigger] failures_of(now, p) && failures_of(now, p) <= usize::MAX by {
            lemma_failures_of_bounded(now, p);
        }
        assert forall|p: Pattern|
                0 <= #[trigger] failures_of(seen, p) && failures_of(seen, p) <= usize::MAX by {
            lemma_failures_of_bounded(seen, p);
        }
    }
    if n == 0 {
        assert(tally@ =~= tally_of(now));
        return ;
    }
    let mut i: usize = 0;
    while i < tally.len()
        invariant
            i <= tally@.len(),
            tally@ == tally_of(seen),
            now == seen.push(*result),
            now.drop_last() == seen,
            n == result.failures@.len(),
            n > 0,
            failing(seen).no_duplicates(),
            forall|p: Pattern|
                0 <= #[trigger] failures_of(now, p) && failures_of(now, p) <= usize::MAX,
            forall|p: Pattern|
                0 <= #[trigger] failures_of(seen, p) && failures_of(seen, p) <= usize::MAX,
            forall|k: int| 0 <= k < i ==> failing(seen)[k] != result.pattern,
        decreases tally@.len() - i,
    {
        let (pattern, count) = tally[i];
        if pattern == result.pattern {
            assert(failing(seen)[i as int] == result.pattern);
            assert(failures_of(now, pattern) == failures_of(seen, pattern) + n);
            tally.set(i, (pattern, count + n));
            assert(failing(seen).contains(pattern));
            assert(tally@ =~= tally_of(now));
            return ;
        }
        i = i + 1;
    }
    proof {
        assert(!failing(seen).contains(result.pattern));
        lemma_failures_of_bounded(seen, result.pattern);
    }
    tally.push((result.pattern, n));
    assert(tally@ =~= tally_of(now));
}

impl BitErrorStats {
    /// The positions that flipped, ascending, and how often.
    fn flips(&self, Ghost(h): Ghost<Seq<Failure>>) -> (flips: Vec<(u8, u32)>)
        requires
            self.summarizes(h),
        ensures
            flips@ == flips_below(h, 64),
    {
        let mut flips: Vec<(u8, u32)> = Vec::new();
        let mut i: usize = 0;
        while i < 64
            invariant
                i <= 64,
                self.summarizes(h),
                flips@ == flips_below(h, i as int),
            decreases 64 - i,
        {
            let count: u32 = self.bit_positions[i];
            assert(self.bit_positions@[i as int] == flips_of(h, i as int));
            if count > 0 {
                flips.push((i as u8, count));
            }
            i = i + 1;
        }
        flips
    }
}

/// Find what the failures of a run have in common, if there are any.
pub fn analyze(results: &mut RunResults)
    requires
        runner::pass_failures(old(results).passes@, old(results).passes@.len() as int)
            <= u32::MAX,
    ensures
        final(results).passes == old(results).passes,
        final(results).config == old(results).config,
        final(results).elapsed == old(results).elapsed,
        final(results).total_failures == old(results).total_failures,
        final(results).coverage == old(results).coverage,
        final(results).error_analysis is None <==> runner::pass_failures(
            old(results).passes@,
            old(results).passes@.len() as int,
        ) == 0,
        final(results).error_analysis matches Some(a) ==> a.analyzes(
            results_of(old(results).passes@, old(results).passes@.len() as int),
        ),
{
    let mut stats = BitErrorStats::new();
    let mut tally: Vec<(Pattern, usize)> = Vec::new();
    let passes = &results.passes;
    let ghost total = runner::pass_failures(passes@, passes@.len() as int);
    assert(tally@ =~= tally_of(results_of(passes@, 0)));
    let mut p: usize = 0;
    while p < passes.len()
        invariant
            p <= passes@.len(),
            total == runner::pass_failures(passes@, passes@.len() as int),
            total <= u32::MAX,
            stats.summarizes(failures_in(results_of(passes@, p as int))),
            tally@ == tally_of(results_of(passes@, p as int)),
        decreases passes@.len() - p,
    {
        let patterns = &passes[p].pattern_results;
        let ghost before = results_of(passes@, p as int);
        proof {
            runner::lemma_pass_failures_grow(passes@, p + 1, passes@.len() as int);
            lemma_pass_failures(passes@, p as int);
            assert(before + patterns@.take(0) =~= before);
        }
        let mut i: usize = 0;
        while i < patterns.len()
            invariant
                i <= patterns@.len(),
                total <= u32::MAX,
                failures_in(before).len() + runner::pattern_failures(
                    patterns@,
                    patterns@.len() as int,
                ) <= total,
                stats.summarizes(failures_in(before + patterns@.take(i as int))),
                tally@ == tally_of(before + patterns@.take(i as int)),
            decreases patterns@.len() - i,
        {
            let result = &patterns[i];
            let ghost seen = before + patterns@.take(i as int);
            let ghost h = failures_in(seen);
            let ghost now = seen.push(*result);
            proof {
                runner::lemma_pattern_failures_grow(patterns@, i + 1, patterns@.len() as int);
                lemma_pattern_failures(before, patterns@, i as int);
                assert(now.drop_last() =~= seen);
                assert(now =~= before + patterns@.take(i + 1));
                assert(h + result.failures@.take(0) =~= h);
            }
            tally_up(&mut tally, result, Ghost(seen));
            let mut k: usize = 0;
            while k < result.failures.len()
                invariant
                    k <= result.failures@.len(),
                    total <= u32::MAX,
                    h.len() + result.failures@.len() <= total,
                    stats.summarizes(h + result.failures@.take(k as int)),
                decreases result.failures@.len() - k,
            {
                let ghost so_far = h + result.failures@.take(k as int);
                proof {
                    assert forall|b: int| 0 <= b < 64 implies #[trigger] stats.bit_positions@[b]
                        < u32::MAX by {
                        lemma_flips_bounded(so_far, b);
                    }
                    assert(so_far.push(result.failures@[k as int]) =~= h + result.failures@.take(
                        k + 1,
                    ));
                }
                stats.record(&result.failures[k]);
                k = k + 1;
            }
            assert(h + result.failures@.take(k as int) =~= failures_in(now));
            i = i + 1;
        }
        assert(before + patterns@.take(i as int) =~= results_of(passes@, p + 1));
        p = p + 1;
    }
    let ghost h = failures_in(results_of(passes@, passes@.len() as int));
    proof {
        lemma_pass_failures(passes@, passes@.len() as int);
    }
    if stats.total_failures == 0 {
        results.error_analysis = None;
    } else {
        let bit_positions = stats.flips(Ghost(h));
        results.error_analysis = Some(
            ErrorAnalysis {
                classification: stats.classification(),
                union_xor_mask: stats.union_xor_mask,
                lowest_phys: stats.lowest_phys,
                highest_phys: stats.highest_phys,
                bit_positions,
                per_pattern_failures: tally,
            },
        );
    }
}

/// Once a failure was recorded, the verdict is never that there were none.
pub proof fn law_recorded_failure_shows(stats: BitErrorStats, h: Seq<Failure>, c: ErrorClassification)
    requires
        stats.summarizes(h),
        h.len() > 0,
        classified(
            stats.total_failures as int,
            mask_or_none(stats.high()) | mask_or_none(stats.low()),
            stats.union_xor_mask,
            c,
        ),
    ensures
        c != ErrorClassification::NoErrors,
{
}

/// A bit that is stuck has flipped: the stuck masks only hold bits that some
/// failure flipped.
pub proof fn law_stuck_bits_have_flipped(h: Seq<Failure>)
    ensures
        (mask_or_none(always_raised(h)) | mask_or_none(always_lowered(h))) & !flipped_by(h) == 0,
    decreases h.len(),
{
    if h.len() == 0 {
        assert((0u64 | 0u64) & !0u64 == 0) by (bit_vector);
    } else {
        let rest = h.drop_last();
        law_stuck_bits_have_flipped(rest);
        let f = h.last();
        let e = f.expected;
        let a = f.actual;
        let u = flipped_by(rest);
        let hi = mask_or_none(always_raised(rest));
        let lo = mask_or_none(always_lowered(rest));
        if rest.len() == 0 {
            assert(((a & !e) | (e & !a)) & !(u | (e ^ a)) == 0) by (bit_vector);
        } else {
            assert(((hi & (a & !e)) | (lo & (e & !a))) & !(u | (e ^ a)) == 0) by (bit_vector);
            lemma_always_some(rest);
        }
    }
}

/// A bit is stuck high if and only if every failure, of at least one, turned it from
/// 0 to 1, and stuck low if and only if every one turned it from 1 to 0.
pub proof fn law_stuck_bits_are_those_of_all(h: Seq<Failure>, b: int)
    requires
        0 <= b < 64,
    ensures
        failure::bit(mask_or_none(always_raised(h)), b) <==> raised_by_all(h, b),
        failure::bit(mask_or_none(always_lowered(h)), b) <==> lowered_by_all(h, b),
    decreases h.len(),
{
    let n = b as u64;
    if h.len() == 0 {
        assert((0u64 >> n) & 1 == 0) by (bit_vector);
    } else {
        let rest = h.drop_last();
        law_stuck_bits_are_those_of_all(rest, b);
        lemma_always_some(rest);
        let e = h.last().expected;
        let a = h.last().actual;
        let hi = mask_or_none(always_raised(rest));
        let lo = mask_or_none(always_lowered(rest));
        assert((((a & !e) >> n) & 1 == 1 <==> !((e >> n) & 1 == 1) && (a >> n) & 1 == 1) && (((e
            & !a) >> n) & 1 == 1 <==> (e >> n) & 1 == 1 && !((a >> n) & 1 == 1)) && (((hi & (a
            & !e)) >> n) & 1 == 1 <==> (hi >> n) & 1 == 1 && ((a & !e) >> n) & 1 == 1) && (((lo
            & (e & !a)) >> n) & 1 == 1 <==> (lo >> n) & 1 == 1 && ((e & !a) >> n) & 1 == 1))
            by (bit_vector)
            requires
                n < 64,
        ;
        assert(h[h.len() - 1] == h.last());
        assert(forall|i: int| 0 <= i < rest.len() ==> #[trigger] rest[i] == h[i]);
        if raised_by_all(h, b) {
            assert(rest.len() > 0 ==> raised_by_all(rest, b));
        }
        if lowered_by_all(h, b) {
            assert(rest.len() > 0 ==> lowered_by_all(rest, b));
        }
        if rest.len() > 0 && raised_by_all(rest, b) {
            assert forall|i: int| 0 <= i < h.len() && failure::bit(a, b) && !failure::bit(e, b)
                implies !failure::bit((#[trigger] h[i]).expected, b) && failure::bit(
                h[i].actual,
                b,
            ) by {
                if i < rest.len() {
                    assert(rest[i] == h[i]);
                }
            }
        }
        if rest.len() > 0 && lowered_by_all(rest, b) {
            assert forall|i: int| 0 <= i < h.len() && failure::bit(e, b) && !failure::bit(a, b)
                implies failure::bit((#[trigger] h[i]).expected, b) && !failure::bit(
                h[i].actual,
                b,
            ) by {
                if i < rest.len() {
                    assert(rest[i] == h[i]);
                }
            }
        }
    }
}

/// No bit is stuck both ways.
pub proof fn law_stuck_masks_share_no_bit(h: Seq<Failure>)
    ensures
        mask_or_none(always_raised(h)) & mask_or_none(always_lowered(h)) == 0,
{
    if h.len() == 0 {
        assert(0u64 & 0u64 == 0) by (bit_vector);
    } else {
        lemma_always_some(h.drop_last());
        let e = h.last().expected;
        let a = h.last().actual;
        let hi = mask_or_none(always_raised(h.drop_last()));
        let lo = mask_or_none(always_lowered(h.drop_last()));
        assert((a & !e) & (e & !a) == 0 && (hi & (a & !e)) & (lo & (e & !a)) == 0)
            by (bit_vector);
    }
}

/// The stuck masks are there as soon as there is a failure.
proof fn lemma_always_some(h: Seq<Failure>)
    ensures
        h.len() > 0 <==> always_raised(h) is Some,
        h.len() > 0 <==> always_lowered(h) is Some,
{
    if h.len() > 0 {
        match always_raised(h.drop_last()) {
            _ => {},
        }
        match always_lowered(h.drop_last()) {
            _ => {},
        }
    }
}

/// Different words differ in some bit.
proof fn lemma_some_bit_differs(x: u64, y: u64) -> (b: int)
    requires
        x != y,
    ensures
        0 <= b < 64,
        failure::bit(x, b) != failure::bit(y, b),
    decreases x, y,
{
    let p = x >> 1u64;
    let q = y >> 1u64;
    assert(x == 2 * p + (x & 1) && y == 2 * q + (y & 1) && x >> 0u64 == x && y >> 0u64 == y
        && (x & 1 == 0 || x & 1 == 1) && (y & 1 == 0 || y & 1 == 1)) by (bit_vector)
        requires
            p == x >> 1u64,
            q == y >> 1u64,
    ;
    if x & 1 != y & 1 {
        0
    } else {
        let c = lemma_some_bit_differs(p, q);
        let n = c as u64;
        let m = (c + 1) as u64;
        assert((m < 64 ==> (p >> n) & 1 == (x >> m) & 1 && (q >> n) & 1 == (y >> m) & 1) && (m
            == 64 ==> (p >> n) & 1 == 0 && (q >> n) & 1 == 0)) by (bit_vector)
            requires
                m == n + 1,
                n < 64,
                p == x >> 1u64,
                q == y >> 1u64,
        ;
        c + 1
    }
}

/// Whether a failure flipped bit `b`: what came back differs there from what was
/// expected.
pub open spec fn flips(f: Failure, b: int) -> bool {
    failure::bit(f.expected, b) != failure::bit(f.actual, b)
}

/// A bit of the mask of a failure is set where the failure flipped it.
proof fn lemma_flips(f: Failure, b: int)
    requires
        0 <= b < 64,
    ensures
        failure::bit(f.spec_xor(), b) <==> flips(f, b),
{
    failure::lemma_xor_bit(f, b);
}

/// What a verdict on the failures says of them, whatever statistics it was made from.
proof fn lemma_verdict(h: Seq<Failure>, c: ErrorClassification)
    requires
        classified(
            h.len() as int,
            mask_or_none(always_raised(h)) | mask_or_none(always_lowered(h)),
            flipped_by(h),
            c,
        ),
    ensures
        c == ErrorClassification::NoErrors <==> h.len() == 0,
        h.len() > 0 ==> (c == ErrorClassification::Coupling <==> forall|b: int|
            0 <= b < 64 ==> !#[trigger] raised_by_all(h, b) && !lowered_by_all(h, b)),
        h.len() > 0 ==> (c == ErrorClassification::Mixed <==> {
            &&& exists|b: int| 0 <= b < 64 && (#[trigger] raised_by_all(h, b) || lowered_by_all(h, b))
            &&& exists|i: int, b: int|
                0 <= i < h.len() && 0 <= b < 64 && #[trigger] flips(h[i], b) && !raised_by_all(h, b)
                    && !lowered_by_all(h, b)
        }),
        h.len() > 0 ==> (c is StuckBit <==> {
            &&& exists|b: int| 0 <= b < 64 && (#[trigger] raised_by_all(h, b) || lowered_by_all(h, b))
            &&& forall|i: int, b: int|
                0 <= i < h.len() && 0 <= b < 64 && #[trigger] flips(h[i], b) ==> raised_by_all(h, b)
                    || lowered_by_all(h, b)
        }),
        c matches ErrorClassification::StuckBit { positions } ==> {
            &&& forall|b: u8| #[trigger]
                positions@.contains(b) <==> b < 64 && (raised_by_all(h, b as int) || lowered_by_all(
                    h,
                    b as int,
                ))
            &&& forall|i: int, j: int|
                0 <= i < j < positions@.len() ==> #[trigger] positions@[i] < #[trigger] positions@[j]
        },
{
    let hi = mask_or_none(always_raised(h));
    let lo = mask_or_none(always_lowered(h));
    let stuck = hi | lo;
    let flipped = flipped_by(h);
    assert forall|b: int| 0 <= b < 64 implies (#[trigger] failure::bit(stuck, b)
        <==> raised_by_all(h, b) || lowered_by_all(h, b)) by {
        law_stuck_bits_are_those_of_all(h, b);
        let n = b as u64;
        assert(((hi | lo) >> n) & 1 == 1 <==> (hi >> n) & 1 == 1 || (lo >> n) & 1 == 1)
            by (bit_vector);
    }
    assert forall|b: int| 0 <= b < 64 implies (#[trigger] failure::bit(flipped, b) <==> exists|i: int|
        0 <= i < h.len() && #[trigger] flips(h[i], b)) by {
        lemma_flipped_by_bit(h, b as u64);
        if failure::bit(flipped, b) {
            let i = choose|i: int|
                0 <= i < h.len() && failure::bit((#[trigger] h[i]).spec_xor(), b);
            lemma_flips(h[i], b);
            assert(flips(h[i], b));
        }
        if exists|i: int| 0 <= i < h.len() && #[trigger] flips(h[i], b) {
            let i = choose|i: int| 0 <= i < h.len() && #[trigger] flips(h[i], b);
            lemma_flips(h[i], b);
            assert(failure::bit(h[i].spec_xor(), b));
        }
    }
    if h.len() > 0 {
        assert forall|b: int| 0 <= b < 64 && (raised_by_all(h, b) || lowered_by_all(h, b)) implies
            #[trigger] failure::bit(flipped, b) by {
            assert(flips(h[0], b));
        }
        if stuck == 0 {
            assert forall|b: int| 0 <= b < 64 implies !#[trigger] raised_by_all(h, b)
                && !lowered_by_all(h, b) by {
                let n = b as u64;
                assert((0u64 >> n) & 1 == 0) by (bit_vector);
                assert(!failure::bit(stuck, b));
            }
        } else {
            let b = lemma_some_bit_differs(stuck, 0);
            let n = b as u64;
            assert((0u64 >> n) & 1 == 0) by (bit_vector);
            assert(failure::bit(stuck, b));
            assert(raised_by_all(h, b) || lowered_by_all(h, b));
        }
        if stuck != flipped {
            let b = lemma_some_bit_differs(stuck, flipped);
            assert(failure::bit(flipped, b) && !failure::bit(stuck, b));
            let i = choose|i: int| 0 <= i < h.len() && #[trigger] flips(h[i], b);
            assert(flips(h[i], b));
        } else {
            assert forall|i: int, b: int|
                0 <= i < h.len() && 0 <= b < 64 && #[trigger] flips(h[i], b) implies raised_by_all(
                h,
                b,
            ) || lowered_by_all(h, b) by {
                assert(failure::bit(flipped, b));
                assert(failure::bit(stuck, b));
            }
        }
    }
    failure::lemma_set_bits_below(stuck, 64);
    if let ErrorClassification::StuckBit { positions } = c {
        assert forall|b: u8| #[trigger] positions@.contains(b) <==> b < 64 && (raised_by_all(
            h,
            b as int,
        ) || lowered_by_all(h, b as int)) by {
            assert(failure::set_bits_below(stuck, 64).contains(b) <==> b < 64 && failure::bit(
                stuck,
                b as int,
            ));
        }
    }
}

/// The verdict, by the failures `h` that were recorded. There are no errors if and only
/// if nothing was recorded. Otherwise: it is coupling if and only if there is no bit that
/// every failure turned the same way; it is mixed if and only if there is one, and some
/// failure flipped a bit that not all turned the same way; it is a stuck bit if and only
/// if there is one and all that any failure flipped are such, and these are the positions,
/// ascending.
pub proof fn law_verdict_follows_the_failures(
    stats: BitErrorStats,
    h: Seq<Failure>,
    c: ErrorClassification,
)
    requires
        stats.summarizes(h),
        classified(
            stats.total_failures as int,
            mask_or_none(stats.high()) | mask_or_none(stats.low()),
            stats.union_xor_mask,
            c,
        ),
    ensures
        c == ErrorClassification::NoErrors <==> h.len() == 0,
        h.len() > 0 ==> (c == ErrorClassification::Coupling <==> forall|b: int|
            0 <= b < 64 ==> !#[trigger] raised_by_all(h, b) && !lowered_by_all(h, b)),
        h.len() > 0 ==> (c == ErrorClassification::Mixed <==> {
            &&& exists|b: int| 0 <= b < 64 && (#[trigger] raised_by_all(h, b) || lowered_by_all(h, b))
            &&& exists|i: int, b: int|
                0 <= i < h.len() && 0 <= b < 64 && #[trigger] flips(h[i], b) && !raised_by_all(h, b)
                    && !lowered_by_all(h, b)
        }),
        h.len() > 0 ==> (c is StuckBit <==> {
            &&& exists|b: int| 0 <= b < 64 && (#[trigger] raised_by_all(h, b) || lowered_by_all(h, b))
            &&& forall|i: int, b: int|
                0 <= i < h.len() && 0 <= b < 64 && #[trigger] flips(h[i], b) ==> raised_by_all(h, b)
                    || lowered_by_all(h, b)
        }),
        c matches ErrorClassification::StuckBit { positions } ==> {
            &&& forall|b: u8| #[trigger]
                positions@.contains(b) <==> b < 64 && (raised_by_all(h, b as int) || lowered_by_all(
                    h,
                    b as int,
                ))
            &&& forall|i: int, j: int|
                0 <= i < j < positions@.len() ==> #[trigger] positions@[i] < #[trigger] positions@[j]
        },
{
    lemma_verdict(h, c);
}

/// The verdict in an analysis, by the failures of the patterns analyzed: the same as
/// [`law_verdict_follows_the_failures`] says of statistics.
pub proof fn law_analysis_follows_the_failures(a: ErrorAnalysis, results: Seq<PatternResult>)
    requires
        a.analyzes(results),
    ensures
        ({
            let h = failures_in(results);
            let c = a.classification;
            &&& c == ErrorClassification::NoErrors <==> h.len() == 0
            &&& h.len() > 0 ==> (c == ErrorClassification::Coupling <==> forall|b: int|
                0 <= b < 64 ==> !#[trigger] raised_by_all(h, b) && !lowered_by_all(h, b))
            &&& h.len() > 0 ==> (c == ErrorClassification::Mixed <==> {
                &&& exists|b: int|
                    0 <= b < 64 && (#[trigger] raised_by_all(h, b) || lowered_by_all(h, b))
                &&& exists|i: int, b: int|
                    0 <= i < h.len() && 0 <= b < 64 && #[trigger] flips(h[i], b) && !raised_by_all(
                        h,
                        b,
                    ) && !lowered_by_all(h, b)
            })
        }),
        forall|b: int|
            0 <= b < 64 ==> (#[trigger] failure::bit(a.union_xor_mask, b) <==> exists|i: int|
                0 <= i < failures_in(results).len() && #[trigger] flips(failures_in(results)[i], b)),
{
    let h = failures_in(results);
    lemma_verdict(h, a.classification);
    assert forall|b: int| 0 <= b < 64 implies (#[trigger] failure::bit(a.union_xor_mask, b)
        <==> exists|i: int| 0 <= i < h.len() && #[trigger] flips(h[i], b)) by {
        lemma_flipped_by_bit(h, b as u64);
        if failure::bit(flipped_by(h), b) {
            let i = choose|i: int|
                0 <= i < h.len() && failure::bit((#[trigger] h[i]).spec_xor(), b);
            lemma_flips(h[i], b);
            assert(flips(h[i], b));
        }
        if exists|i: int| 0 <= i < h.len() && #[trigger] flips(h[i], b) {
            let i = choose|i: int| 0 <= i < h.len() && #[trigger] flips(h[i], b);
            lemma_flips(h[i], b);
            assert(failure::bit(h[i].spec_xor(), b));
        }
    }
}

/// How often a position flipped is the number of the failures that flipped it.
pub proof fn law_flips_are_counted(h: Seq<Failure>, b: int)
    requires
        0 <= b < 64,
    ensures
        flips_of(h, b) == h.filter(|f: Failure| flips(f, b)).len(),
    decreases h.len(),
{
    reveal(Seq::filter);
    if h.len() > 0 {
        law_flips_are_counted(h.drop_last(), b);
        lemma_flips(h.last(), b);
    }
}

/// The positions listed are those that flipped, each once, ascending, with the number of
/// failures that flipped it.
pub proof fn law_flipped_positions_are_listed(h: Seq<Failure>)
    requires
        h.len() <= u32::MAX,
    ensures
        forall|b: u8, n: u32| #[trigger]
            flips_below(h, 64).contains((b, n)) <==> b < 64 && n > 0 && n == h.filter(
                |f: Failure| flips(f, b as int),
            ).len(),
        forall|i: int, j: int|
            0 <= i < j < flips_below(h, 64).len() ==> (#[trigger] flips_below(h, 64)[i]).0 < (
            #[trigger] flips_below(h, 64)[j]).0,
{
    lemma_flips_below_listed(h, 64);
    assert forall|b: u8, n: u32| #[trigger] flips_below(h, 64).contains((b, n)) <==> b < 64 && n > 0
        && n == h.filter(|f: Failure| flips(f, b as int)).len() by {
        if b < 64 {
            law_flips_are_counted(h, b as int);
        }
    }
}

proof fn lemma_flips_below_listed(h: Seq<Failure>, m: int)
    requires
        h.len() <= u32::MAX,
        0 <= m <= 64,
    ensures
        forall|b: u8, n: u32| #[trigger]
            flips_below(h, m).contains((b, n)) <==> b < m && n > 0 && n == flips_of(h, b as int),
        forall|i: int, j: int|
            0 <= i < j < flips_below(h, m).len() ==> (#[trigger] flips_below(h, m)[i]).0 < (
            #[trigger] flips_below(h, m)[j]).0,
    decreases m,
{
    if m > 0 {
        lemma_flips_below_listed(h, m - 1);
        lemma_flips_bounded(h, m - 1);
        let rest = flips_below(h, m - 1);
        let all = flips_below(h, m);
        assert forall|i: int| 0 <= i < rest.len() implies (#[trigger] rest[i]).0 < m - 1 by {
            assert(rest.contains((rest[i].0, rest[i].1)));
        }
        assert forall|b: u8, n: u32| #[trigger] all.contains((b, n)) <==> b < m && n > 0 && n
            == flips_of(h, b as int) by {
            if rest.contains((b, n)) {
                let i = rest.index_of((b, n));
                assert(all[i] == (b, n));
            }
            if all.contains((b, n)) {
                let i = all.index_of((b, n));
                if i < rest.len() {
                    assert(rest[i] == (b, n));
                }
            }
            if b == m - 1 && n > 0 && n == flips_of(h, b as int) {
                assert(all.last() == (b, n));
            }
        }
    }
}

/// The lowest and the highest address are those of failures, no failure has a lower or a
/// higher one, and they are there as soon as one failure has an address.
pub proof fn law_addresses_are_bounds(h: Seq<Failure>)
    ensures
        lowest_phys_of(h) is None <==> forall|i: int|
            0 <= i < h.len() ==> (#[trigger] h[i]).phys_addr is None,
        highest_phys_of(h) is None <==> lowest_phys_of(h) is None,
        lowest_phys_of(h) matches Some(p) ==> {
            &&& exists|i: int|
                0 <= i < h.len() && (#[trigger] h[i]).phys_addr is Some && h[i].phys_addr->Some_0.0
                    == p
            &&& forall|i: int|
                0 <= i < h.len() && (#[trigger] h[i]).phys_addr is Some ==> p
                    <= h[i].phys_addr->Some_0.0
        },
        highest_phys_of(h) matches Some(p) ==> {
            &&& exists|i: int|
                0 <= i < h.len() && (#[trigger] h[i]).phys_addr is Some && h[i].phys_addr->Some_0.0
                    == p
            &&& forall|i: int|
                0 <= i < h.len() && (#[trigger] h[i]).phys_addr is Some ==> p
                    >= h[i].phys_addr->Some_0.0
        },
    decreases h.len(),
{
    if h.len() > 0 {
        let rest = h.drop_last();
        law_addresses_are_bounds(rest);
        assert(forall|i: int| 0 <= i < rest.len() ==> #[trigger] rest[i] == h[i]);
        assert(h[h.len() - 1] == h.last());
        assert forall|i: int| 0 <= i < rest.len() implies (#[trigger] h[i]) == rest[i] by {}
        if let Some(p) = lowest_phys_of(rest) {
            let i = choose|i: int|
                0 <= i < rest.len() && (#[trigger] rest[i]).phys_addr is Some
                    && rest[i].phys_addr->Some_0.0 == p;
            assert(h[i] == rest[i]);
        }
        if let Some(p) = highest_phys_of(rest) {
            let i = choose|i: int|
                0 <= i < rest.len() && (#[trigger] rest[i]).phys_addr is Some
                    && rest[i].phys_addr->Some_0.0 == p;
            assert(h[i] == rest[i]);
        }
    }
}

/// The positions of a stuck-bit verdict are exactly the bits that ever flipped.
pub proof fn law_stuck_positions_are_exhaustive(
    stats: BitErrorStats,
    h: Seq<Failure>,
    c: ErrorClassification,
    b: u8,
)
    requires
        stats.summarizes(h),
        classified(
            stats.total_failures as int,
            mask_or_none(stats.high()) | mask_or_none(stats.low()),
            stats.union_xor_mask,
            c,
        ),
    ensures
        c matches ErrorClassification::StuckBit { positions } ==> (positions@.contains(b) <==> b
            < 64 && failure::bit(flipped_by(h), b as int)),
{
    match c {
        ErrorClassification::StuckBit { positions } => {
            failure::lemma_set_bits_below(stats.union_xor_mask, 64);
        },
        _ => {},
    }
}

/// A bit has flipped if and only if some failure flipped it.
pub proof fn lemma_flipped_by_bit(h: Seq<Failure>, b: u64)
    requires
        b < 64,
    ensures
        failure::bit(flipped_by(h), b as int) <==> exists|i: int|
            0 <= i < h.len() && failure::bit((#[trigger] h[i]).spec_xor(), b as int),
    decreases h.len(),
{
    if h.len() == 0 {
        assert((0u64 >> b) & 1 == 0) by (bit_vector);
    } else {
        let rest = h.drop_last();
        lemma_flipped_by_bit(rest, b);
        let u = flipped_by(rest);
        let x = h.last().spec_xor();
        assert(((u | x) >> b) & 1 == 1 <==> (u >> b) & 1 == 1 || (x >> b) & 1 == 1)
            by (bit_vector);
        if failure::bit(u, b as int) {
            let i = choose|i: int|
                0 <= i < rest.len() && failure::bit((#[trigger] rest[i]).spec_xor(), b as int);
            assert(h[i] == rest[i]);
        }
        if exists|i: int|
            0 <= i < h.len() && failure::bit((#[trigger] h[i]).spec_xor(), b as int) {
            let i = choose|i: int|
                0 <= i < h.len() && failure::bit((#[trigger] h[i]).spec_xor(), b as int);
            if i < rest.len() {
                assert(rest[i] == h[i]);
            }
        }
    }
}

/// Whether two lists of failures have the same statistics.
pub open spec fn same_statistics(a: Seq<Failure>, b: Seq<Failure>) -> bool {
    &&& a.len() == b.len()
    &&& flipped_by(a) == flipped_by(b)
    &&& forall|p: int| #[trigger] flips_of(a, p) == flips_of(b, p)
    &&& lowest_phys_of(a) == lowest_phys_of(b)
    &&& highest_phys_of(a) == highest_phys_of(b)
    &&& always_raised(a) == always_raised(b)
    &&& always_lowered(a) == always_lowered(b)
}

/// What one failure more adds to the statistics.
proof fn lemma_one_more(h: Seq<Failure>, f: Failure)
    ensures
        flipped_by(h.push(f)) == flipped_by(h) | f.spec_xor(),
        forall|b: int| #[trigger]
            flips_of(h.push(f), b) == flips_of(h, b) + (if failure::bit(f.spec_xor(), b) {
                1int
            } else {
                0int
            }),
        lowest_phys_of(h.push(f)) == lower_of(lowest_phys_of(h), phys_of(f)),
        highest_phys_of(h.push(f)) == higher_of(highest_phys_of(h), phys_of(f)),
        always_raised(h.push(f)) == Some(
            match always_raised(h) {
                Some(mask) => mask & raised(f),
                None => raised(f),
            },
        ),
        always_lowered(h.push(f)) == Some(
            match always_lowered(h) {
                Some(mask) => mask & lowered(f),
                None => lowered(f),
            },
        ),
{
    assert(h.push(f).drop_last() =~= h);
}

/// Recording a failure earlier or last makes no difference.
proof fn lemma_record_last(h: Seq<Failure>, i: int)
    requires
        0 <= i < h.len(),
    ensures
        same_statistics(h, h.remove(i).push(h[i])),
    decreases h.len(),
{
    let x = h[i];
    let moved = h.remove(i).push(x);
    assert(moved.drop_last() =~= h.remove(i));
    if i == h.len() - 1 {
        assert(moved =~= h);
    } else {
        let rest = h.drop_last();
        let y = h.last();
        lemma_record_last(rest, i);
        let inner = rest.remove(i);
        assert(h =~= rest.push(y));
        assert(moved =~= inner.push(y).push(x));
        lemma_one_more(rest, y);
        lemma_one_more(inner, x);
        lemma_one_more(inner, y);
        lemma_one_more(inner.push(y), x);
        let u = flipped_by(inner);
        let p = x.spec_xor();
        let q = y.spec_xor();
        assert((u | p) | q == (u | q) | p) by (bit_vector);
        lemma_always_some(inner);
        let hi = mask_or_none(always_raised(inner));
        let lo = mask_or_none(always_lowered(inner));
        let rx = raised(x);
        let ry = raised(y);
        let lx = lowered(x);
        let ly = lowered(y);
        assert((hi & rx) & ry == (hi & ry) & rx && rx & ry == ry & rx) by (bit_vector);
        assert((lo & lx) & ly == (lo & ly) & lx && lx & ly == ly & lx) by (bit_vector);
        assert forall|b: int| #[trigger] flips_of(h, b) == flips_of(moved, b) by {
            assert(flips_of(rest, b) == flips_of(inner.push(x), b));
        }
    }
}

/// The statistics do not depend on the order in which failures were recorded.
pub proof fn law_order_does_not_matter(a: Seq<Failure>, b: Seq<Failure>)
    requires
        a.to_multiset() == b.to_multiset(),
    ensures
        same_statistics(a, b),
    decreases a.len(),
{
    broadcast use vstd::seq_lib::group_to_multiset_ensures;

    assert(a.len() == a.to_multiset().len());
    assert(b.len() == b.to_multiset().len());
    if a.len() > 0 {
        let x = a.last();
        assert(a.contains(x)) by {
            assert(a[a.len() - 1] == x);
        }
        assert(b.contains(x)) by {
            assert(b.to_multiset().count(x) > 0);
        }
        let i = choose|i: int| 0 <= i < b.len() && b[i] == x;
        assert(a.drop_last() =~= a.remove(a.len() - 1));
        assert(a.drop_last().to_multiset() =~= a.to_multiset().remove(x));
        assert(b.remove(i).to_multiset() =~= b.to_multiset().remove(x));
        law_order_does_not_matter(a.drop_last(), b.remove(i));
        lemma_record_last(b, i);
        let moved = b.remove(i).push(x);
        assert(moved.drop_last() =~= b.remove(i));
        assert forall|p: int| #[trigger] flips_of(a, p) == flips_of(b, p) by {
            assert(flips_of(a.drop_last(), p) == flips_of(b.remove(i), p));
            assert(flips_of(b, p) == flips_of(moved, p));
        }
    } else {
        assert(a =~= b);
    }
}

/// How many failures the first `n` of the patterns have in all.
pub open spec fn failures_of_all(
    results: Seq<PatternResult>,
    patterns: Seq<Pattern>,
    n: int,
) -> int
    decreases n,
{
    if n <= 0 {
        0
    } else {
        failures_of_all(results, patterns, n - 1) + failures_of(results, patterns[n - 1])
    }
}

/// A pattern that is not among the failing ones has no failures.
proof fn lemma_others_are_clean(results: Seq<PatternResult>)
    ensures
        forall|p: Pattern| !failing(results).contains(p) ==> #[trigger] failures_of(results, p) == 0,
    decreases results.len(),
{
    if results.len() > 0 {
        let before = results.drop_last();
        lemma_others_are_clean(before);
        let rest = failing(before);
        let all = failing(results);
        assert forall|p: Pattern| !all.contains(p) implies #[trigger] failures_of(results, p)
            == 0 by {
            if rest.contains(p) {
                let i = rest.index_of(p);
                assert(all[i] == p);
            }
            assert(failures_of(before, p) == 0);
            if results.last().pattern == p && results.last().failures@.len() > 0 {
                assert(all.last() == p);
            }
        }
    }
}

/// One more result adds to the sum if its pattern is among those that are summed up.
proof fn lemma_one_more_result(results: Seq<PatternResult>, patterns: Seq<Pattern>, n: int)
    requires
        results.len() > 0,
        0 <= n <= patterns.len(),
        patterns.no_duplicates(),
    ensures
        failures_of_all(results, patterns, n) == failures_of_all(results.drop_last(), patterns, n)
            + if patterns.take(n).contains(results.last().pattern) {
            results.last().failures@.len() as int
        } else {
            0
        },
    decreases n,
{
    let p = results.last().pattern;
    if n > 0 {
        lemma_one_more_result(results, patterns, n - 1);
        let shorter = patterns.take(n - 1);
        let longer = patterns.take(n);
        assert(longer =~= shorter.push(patterns[n - 1]));
        if shorter.contains(p) {
            let i = shorter.index_of(p);
            assert(longer[i] == p);
            assert(patterns[i] == p);
        } else if patterns[n - 1] == p {
            assert(longer[n - 1] == p);
        } else if longer.contains(p) {
            let i = longer.index_of(p);
            assert(shorter[i] == p);
        }
    }
}

/// The numbers per pattern add up to the number of failures.
pub proof fn law_tally_adds_up(results: Seq<PatternResult>)
    ensures
        failures_of_all(results, failing(results), failing(results).len() as int) == failures_in(
            results,
        ).len(),
    decreases results.len(),
{
    if results.len() > 0 {
        let before = results.drop_last();
        let last = results.last();
        let rest = failing(before);
        let all = failing(results);
        law_tally_adds_up(before);
        lemma_failing_once(before);
        lemma_others_are_clean(before);
        lemma_one_more_result(results, rest, rest.len() as int);
        assert(rest.take(rest.len() as int) =~= rest);
        if all != rest {
            assert(all =~= rest.push(last.pattern));
            lemma_same_patterns(results, all, rest, rest.len() as int);
            assert(failures_of(before, last.pattern) == 0);
        }
    }
}

proof fn lemma_same_patterns(
    results: Seq<PatternResult>,
    a: Seq<Pattern>,
    b: Seq<Pattern>,
    n: int,
)
    requires
        n <= a.len(),
        n <= b.len(),
        forall|i: int| 0 <= i < n ==> a[i] == b[i],
    ensures
        failures_of_all(results, a, n) == failures_of_all(results, b, n),
    decreases n,
{
    if n > 0 {
        lemma_same_patterns(results, a, b, n - 1);
    }
}

} // verus!
