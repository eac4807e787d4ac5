//! What a run was to do and what came of it.

use crate::edac::EccDelta;
use crate::error_analysis::ErrorAnalysis;
use crate::failure::Failure;
use crate::pattern::Pattern;
use crate::physmem::sysmem::Coverage;
use vstd::prelude::*;

verus! {

/// What a run is to do.
#[derive(Debug)]
pub struct RunConfig {
    /// How many bytes are tested.
    pub size: usize,
    pub passes: usize,
    pub patterns: Vec<Pattern>,
    /// How many threads there are.
    pub workers: usize,
}

/// What came of a pattern. The time is in nanoseconds.
#[derive(Debug)]
pub struct PatternResult {
    pub pattern: Pattern,
    pub failures: Vec<Failure>,
    pub elapsed: u64,
    pub bytes_processed: u64,
    /// Whether the pattern was broken off.
    pub interrupted: bool,
    /// Whether there were more failures than are listed.
    pub capped: bool,
}

/// What came of a pass.
#[derive(Debug)]
pub struct PassResult {
    pub pass_number: usize,
    pub pattern_results: Vec<PatternResult>,
    pub ecc_deltas: Vec<EccDelta>,
}

/// What came of a run. The time is in nanoseconds.
#[derive(Debug)]
pub struct RunResults {
    pub passes: Vec<PassResult>,
    pub config: RunConfig,
    pub elapsed: u64,
    pub total_failures: usize,
    pub coverage: Coverage,
    /// What the failures have in common, if there are any.
    pub error_analysis: Option<ErrorAnalysis>,
}

/// How many failures the first `n` patterns have.
pub open spec fn pattern_failures(results: Seq<PatternResult>, n: int) -> int
    decreases n,
{
    if n <= 0 {
        0
    } else {
        pattern_failures(results, n - 1) + results[n - 1].failures@.len()
    }
}

/// How many failures the first `n` passes have.
pub open spec fn pass_failures(passes: Seq<PassResult>, n: int) -> int
    decreases n,
{
    if n <= 0 {
        0
    } else {
        pass_failures(passes, n - 1) + pattern_failures(
            passes[n - 1].pattern_results@,
            passes[n - 1].pattern_results@.len() as int,
        )
    }
}

/// More of them have no fewer failures.
pub proof fn lemma_pattern_failures_grow(results: Seq<PatternResult>, k: int, n: int)
    requires
        k <= n,
    ensures
        0 <= pattern_failures(results, k) <= pattern_failures(results, n),
    decreases n,
{
    if n > 0 {
        if k < n {
            lemma_pattern_failures_grow(results, k, n - 1);
        } else {
            lemma_pattern_failures_grow(results, k - 1, n - 1);
        }
    }
}

/// More of them have no fewer failures.
pub proof fn lemma_pass_failures_grow(passes: Seq<PassResult>, k: int, n: int)
    requires
        k <= n,
    ensures
        0 <= pass_failures(passes, k) <= pass_failures(passes, n),
    decreases n,
{
    if n > 0 {
        let last = passes[n - 1].pattern_results@;
        lemma_pattern_failures_grow(last, 0, last.len() as int);
        if k < n {
            lemma_pass_failures_grow(passes, k, n - 1);
        } else {
            lemma_pass_failures_grow(passes, k - 1, n - 1);
        }
    }
}

/// Whether some pattern of a pass was broken off.
pub open spec fn pass_interrupted(pass: PassResult) -> bool {
    exists|i: int|
        0 <= i < pass.pattern_results@.len() && (#[trigger] pass.pattern_results@[i]).interrupted
}

impl RunResults {
    /// The results of passes that have ended. How much of the memory was covered
    /// and what the failures have in common is not known yet.
    pub fn from_passes(passes: Vec<PassResult>, config: RunConfig, elapsed: u64) -> (results: Self)
        requires
            pass_failures(passes@, passes@.len() as int) <= usize::MAX,
        ensures
            results.passes == passes,
            results.config == config,
            results.elapsed == elapsed,
            results.total_failures == pass_failures(passes@, passes@.len() as int),
            results.coverage == Coverage::Unavailable,
            results.error_analysis is None,
    {
        let mut total: usize = 0;
        let mut p: usize = 0;
        while p < passes.len()
            invariant
                p <= passes@.len(),
                pass_failures(passes@, passes@.len() as int) <= usize::MAX,
                total == pass_failures(passes@, p as int),
            decreases passes@.len() - p,
        {
            let results = &passes[p].pattern_results;
            let ghost before = total;
            proof {
                lemma_pass_failures_grow(passes@, p + 1, passes@.len() as int);
            }
            let mut i: usize = 0;
            while i < results.len()
                invariant
                    i <= results@.len(),
                    before + pattern_failures(results@, results@.len() as int) <= usize::MAX,
                    total == before + pattern_failures(results@, i as int),
                decreases results@.len() - i,
            {
                proof {
                    lemma_pattern_failures_grow(results@, i + 1, results@.len() as int);
                }
                total = total + results[i].failures.len();
                i = i + 1;
            }
            p = p + 1;
        }
        RunResults {
            passes,
            config,
            elapsed,
            total_failures: total,
            coverage: Coverage::Unavailable,
            error_analysis: None,
        }
    }

    /// Whether some pattern was broken off.
    pub open spec fn was_interrupted(&self) -> bool {
        any_interrupted(self.passes@)
    }

    /// Whether some pattern was broken off.
    pub fn interrupted(&self) -> (b: bool)
        ensures
            b == self.was_interrupted(),
    {
        passes_interrupted(&self.passes)
    }
}

/// Whether some pattern of a pass was broken off.
pub open spec fn any_interrupted(passes: Seq<PassResult>) -> bool {
    exists|p: int| 0 <= p < passes.len() && pass_interrupted(#[trigger] passes[p])
}

/// Whether some pattern of a pass was broken off.
pub fn passes_interrupted(passes: &[PassResult]) -> (b: bool)
    ensures
        b == any_interrupted(passes@),
{
    let mut p: usize = 0;
    while p < passes.len()
        invariant
            p <= passes@.len(),
            forall|k: int| 0 <= k < p ==> !pass_interrupted(#[trigger] passes@[k]),
        decreases passes@.len() - p,
    {
        let results = &passes[p].pattern_results;
        let mut i: usize = 0;
        while i < results.len()
            invariant
                i <= results@.len(),
                p < passes@.len(),
                *results == passes@[p as int].pattern_results,
                forall|k: int| 0 <= k < i ==> !(#[trigger] results@[k]).interrupted,
            decreases results@.len() - i,
        {
            if results[i].interrupted {
                assert(passes@[p as int].pattern_results@[i as int].interrupted);
                assert(pass_interrupted(passes@[p as int]));
                return true;
            }
            i = i + 1;
        }
        p = p + 1;
    }
    false
}

/// A run has no failures exactly if no pattern of any pass has one.
pub proof fn law_no_failure_is_passed_over(passes: Seq<PassResult>, n: int)
    requires
        0 <= n <= passes.len(),
    ensures
        pass_failures(passes, n) == 0 <==> forall|p: int, i: int|
            0 <= p < n && 0 <= i < passes[p].pattern_results@.len() ==> (
            #[trigger] passes[p].pattern_results@[i]).failures@.len() == 0,
    decreases n,
{
    if n > 0 {
        law_no_failure_is_passed_over(passes, n - 1);
        let last = passes[n - 1].pattern_results@;
        lemma_pass_failures_grow(passes, 0, n - 1);
        lemma_no_pattern_failure(last, last.len() as int);
        if forall|p: int, i: int|
            0 <= p < n && 0 <= i < passes[p].pattern_results@.len() ==> (
            #[trigger] passes[p].pattern_results@[i]).failures@.len() == 0 {
            assert forall|i: int| 0 <= i < last.len() implies (#[trigger] last[i]).failures@.len()
                == 0 by {
                assert(passes[n - 1].pattern_results@[i].failures@.len() == 0);
            }
        }
    }
}

proof fn lemma_no_pattern_failure(results: Seq<PatternResult>, n: int)
    requires
        0 <= n <= results.len(),
    ensures
        0 <= pattern_failures(results, n),
        pattern_failures(results, n) == 0 <==> forall|i: int|
            0 <= i < n ==> (#[trigger] results[i]).failures@.len() == 0,
    decreases n,
{
    if n > 0 {
        lemma_no_pattern_failure(results, n - 1);
        if forall|i: int| 0 <= i < n ==> (#[trigger] results[i]).failures@.len() == 0 {
            assert(results[n - 1].failures@.len() == 0);
        }
    }
}

/// Failures that a pattern finds more raise the count of the run by as many.
pub proof fn law_every_failure_counts(
    one: Seq<PatternResult>,
    two: Seq<PatternResult>,
    n: int,
    k: int,
)
    requires
        0 <= k < n,
        forall|i: int|
            0 <= i < n && i != k ==> (#[trigger] one[i]).failures@.len()
                == two[i].failures@.len(),
    ensures
        pattern_failures(two, n) - pattern_failures(one, n) == two[k].failures@.len()
            - one[k].failures@.len(),
    decreases n,
{
    if k < n - 1 {
        law_every_failure_counts(one, two, n - 1, k);
        assert(one[n - 1].failures@.len() == two[n - 1].failures@.len());
    } else {
        lemma_same_counts(one, two, n - 1);
    }
}

proof fn lemma_same_counts(one: Seq<PatternResult>, two: Seq<PatternResult>, n: int)
    requires
        forall|i: int|
            0 <= i < n ==> (#[trigger] one[i]).failures@.len() == two[i].failures@.len(),
    ensures
        pattern_failures(one, n) == pattern_failures(two, n),
    decreases n,
{
    if n > 0 {
        lemma_same_counts(one, two, n - 1);
        assert(one[n - 1].failures@.len() == two[n - 1].failures@.len());
    }
}

/// A run was interrupted exactly if some pattern of some pass was broken off.
pub proof fn law_any_break_interrupts_the_run(results: RunResults)
    ensures
        results.was_interrupted() <==> exists|p: int, i: int|
            0 <= p < results.passes@.len() && 0 <= i < results.passes@[p].pattern_results@.len()
                && (#[trigger] results.passes@[p].pattern_results@[i]).interrupted,
{
    if results.was_interrupted() {
        let p = choose|p: int|
            0 <= p < results.passes@.len() && pass_interrupted(#[trigger] results.passes@[p]);
        let i = choose|i: int|
            0 <= i < results.passes@[p].pattern_results@.len() && (
            #[trigger] results.passes@[p].pattern_results@[i]).interrupted;
        assert(results.passes@[p].pattern_results@[i].interrupted);
    }
    if exists|p: int, i: int|
        0 <= p < results.passes@.len() && 0 <= i < results.passes@[p].pattern_results@.len() && (
        #[trigger] results.passes@[p].pattern_results@[i]).interrupted {
        let (p, i) = choose|p: int, i: int|
            0 <= p < results.passes@.len() && 0 <= i < results.passes@[p].pattern_results@.len()
                && (#[trigger] results.passes@[p].pattern_results@[i]).interrupted;
        assert(pass_interrupted(results.passes@[p]));
    }
}

} // verus!
