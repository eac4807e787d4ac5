//! The test patterns: what each does to a memory, what it finds, and how long it
//! takes.

use vstd::prelude::*;

use crate::failure::{Failure, FailureBudget};
use crate::memory::{self, Memory, Monitor};
use crate::ops;

pub mod checkerboard;
pub mod march;
pub mod metadata;
pub mod moving_inversions;
pub mod random;
pub mod rounds;
pub mod solid;
pub mod stuck_address;
pub mod sweep;
pub mod walking;

use metadata::{Complexity, FaultClass, PatternMetadata, PatternTier};

verus! {

/// All supported test patterns.
#[derive(Debug, Clone, Copy, PartialEq, Eq, Structural)]
pub enum Pattern {
    /// All zeros, then all ones.
    SolidBits,
    /// One bit set, at each position in turn.
    WalkingOnes,
    /// One bit clear, at each position in turn.
    WalkingZeros,
    /// Alternating bits, then their inverse.
    Checkerboard,
    /// Every word holds its own index.
    StuckAddress,
    /// The March C- sequence.
    MarchCMinus,
}

impl Pattern {
    /// Every pattern, in order.
    pub open spec fn every() -> Seq<Pattern> {
        seq![
            Pattern::SolidBits,
            Pattern::WalkingOnes,
            Pattern::WalkingZeros,
            Pattern::Checkerboard,
            Pattern::StuckAddress,
            Pattern::MarchCMinus,
        ]
    }

    /// Every pattern, in order.
    pub fn all() -> (patterns: Vec<Pattern>)
        ensures
            patterns@ == Self::every(),
    {
        let patterns = vec![
            Pattern::SolidBits,
            Pattern::WalkingOnes,
            Pattern::WalkingZeros,
            Pattern::Checkerboard,
            Pattern::StuckAddress,
            Pattern::MarchCMinus,
        ];
        assert(patterns@ =~= Self::every());
        patterns
    }

    /// What the pattern does to a memory of `len` words.
    pub open spec fn script(self, len: int) -> Seq<memory::Step> {
        match self {
            Pattern::SolidBits => rounds::rounds_script(solid::solid_words(), len, 2),
            Pattern::WalkingOnes => rounds::rounds_script(walking::walking_ones(), len, 64),
            Pattern::WalkingZeros => rounds::rounds_script(walking::walking_zeros(), len, 64),
            Pattern::Checkerboard => rounds::rounds_script(checkerboard::checker_words(), len, 2),
            Pattern::StuckAddress => ops::round_script(ops::indexed_words(), len),
            Pattern::MarchCMinus => march::march_script(len),
        }
    }

    /// Number of sub-passes that the pattern performs.
    pub open spec fn passes(self) -> int {
        match self {
            Pattern::SolidBits | Pattern::Checkerboard => 2,
            Pattern::WalkingOnes | Pattern::WalkingZeros => 64,
            Pattern::StuckAddress => 1,
            Pattern::MarchCMinus => 6,
        }
    }

    /// How many steps the first sub-passes of the pattern take over `len` words.
    pub open spec fn ends(self, len: int) -> spec_fn(int) -> int {
        match self {
            Pattern::SolidBits => rounds::rounds_ends(solid::solid_words(), len),
            Pattern::WalkingOnes => rounds::rounds_ends(walking::walking_ones(), len),
            Pattern::WalkingZeros => rounds::rounds_ends(walking::walking_zeros(), len),
            Pattern::Checkerboard => rounds::rounds_ends(checkerboard::checker_words(), len),
            Pattern::StuckAddress => stuck_address::address_ends(len),
            Pattern::MarchCMinus => sweep::passes_ends(march::march_passes(), len),
        }
    }

    /// Whether the pattern asks before its first sub-pass too whether to stop.
    pub open spec fn polls_first(self) -> bool {
        self == Pattern::WalkingOnes || self == Pattern::WalkingZeros
    }

    /// Number of sub-passes that the pattern performs. Used to size the inner
    /// progress bar.
    pub fn sub_passes(&self) -> (n: u64)
        ensures
            n == self.passes(),
    {
        match self {
            Pattern::SolidBits | Pattern::Checkerboard => 2,
            Pattern::WalkingOnes | Pattern::WalkingZeros => 64,
            Pattern::StuckAddress => 1,
            Pattern::MarchCMinus => march::SUB_PASSES,
        }
    }

    /// The fault classes that the pattern is designed to detect.
    pub open spec fn detects(self) -> Seq<FaultClass> {
        match self {
            Pattern::SolidBits => seq![FaultClass::StuckAt],
            Pattern::WalkingOnes | Pattern::WalkingZeros | Pattern::Checkerboard => seq![
                FaultClass::StuckAt,
                FaultClass::Coupling,
            ],
            Pattern::StuckAddress => seq![FaultClass::AddressDecoder],
            Pattern::MarchCMinus => seq![
                FaultClass::StuckAt,
                FaultClass::Transition,
                FaultClass::AddressDecoder,
                FaultClass::Coupling,
            ],
        }
    }

    /// The pattern's cost relative to the size of the memory.
    pub open spec fn cost(self) -> Complexity {
        match self {
            Pattern::SolidBits | Pattern::Checkerboard | Pattern::StuckAddress => Complexity::Linear,
            Pattern::WalkingOnes | Pattern::WalkingZeros => Complexity::LinearK(64),
            Pattern::MarchCMinus => Complexity::LinearK(10),
        }
    }

    /// The preset tiers that hold the pattern.
    pub open spec fn in_tiers(self) -> Seq<PatternTier> {
        match self {
            Pattern::SolidBits | Pattern::Checkerboard | Pattern::StuckAddress => seq![
                PatternTier::Quick,
                PatternTier::Standard,
                PatternTier::Thorough,
            ],
            Pattern::WalkingOnes | Pattern::WalkingZeros | Pattern::MarchCMinus => seq![
                PatternTier::Standard,
                PatternTier::Thorough,
            ],
        }
    }

    /// The pattern's fault coverage, cost and tier membership.
    pub fn metadata(&self) -> (m: PatternMetadata)
        ensures
            m.fault_classes@ == self.detects(),
            m.complexity == self.cost(),
            !m.requires_physical_order,
            !m.is_destructive,
            m.tiers@ == self.in_tiers(),
    {
        let fault_classes: Vec<FaultClass> = match self {
            Pattern::SolidBits => vec![FaultClass::StuckAt],
            // Walking bits stress data-line shorts on top of stuck bits by
            // driving one hot bit against all its neighbors.
            Pattern::WalkingOnes | Pattern::WalkingZeros | Pattern::Checkerboard => vec![
                FaultClass::StuckAt,
                FaultClass::Coupling,
            ],
            Pattern::StuckAddress => vec![FaultClass::AddressDecoder],
            Pattern::MarchCMinus => vec![
                FaultClass::StuckAt,
                FaultClass::Transition,
                FaultClass::AddressDecoder,
                FaultClass::Coupling,
            ],
        };
        let complexity = match self {
            Pattern::SolidBits | Pattern::Checkerboard | Pattern::StuckAddress => Complexity::Linear,
            Pattern::WalkingOnes | Pattern::WalkingZeros => Complexity::LinearK(64),
            Pattern::MarchCMinus => Complexity::LinearK(10),
        };
        let tiers: Vec<PatternTier> = match self {
            Pattern::SolidBits | Pattern::Checkerboard | Pattern::StuckAddress => vec![
                PatternTier::Quick,
                PatternTier::Standard,
                PatternTier::Thorough,
            ],
            Pattern::WalkingOnes | Pattern::WalkingZeros | Pattern::MarchCMinus => vec![
                PatternTier::Standard,
                PatternTier::Thorough,
            ],
        };
        assert(fault_classes@ =~= self.detects());
        assert(tiers@ =~= self.in_tiers());
        PatternMetadata {
            fault_classes,
            complexity,
            requires_physical_order: false,
            is_destructive: false,
            tiers,
        }
    }

    /// The pattern's name.
    pub open spec fn name(self) -> Seq<char> {
        match self {
            Pattern::SolidBits => "Solid Bits"@,
            Pattern::WalkingOnes => "Walking Ones"@,
            Pattern::WalkingZeros => "Walking Zeros"@,
            Pattern::Checkerboard => "Checkerboard"@,
            Pattern::StuckAddress => "Stuck Address"@,
            Pattern::MarchCMinus => "March C-"@,
        }
    }

    /// The pattern's name.
    pub fn label(&self) -> (label: &'static str)
        ensures
            label@ == self.name(),
    {
        match self {
            Pattern::SolidBits => "Solid Bits",
            Pattern::WalkingOnes => "Walking Ones",
            Pattern::WalkingZeros => "Walking Zeros",
            Pattern::Checkerboard => "Checkerboard",
            Pattern::StuckAddress => "Stuck Address",
            Pattern::MarchCMinus => "March C-",
        }
    }

    /// The pattern's name.
    pub fn to_string(&self) -> (s: String)
        ensures
            s@ == self.name(),
    {
        self.label().to_owned()
    }
}

/// What a run tells the seeded pattern.
#[derive(Debug, Clone, Copy, PartialEq, Eq, Structural)]
pub struct PatternConfig {
    /// The seed of the first round.
    pub random_seed: u64,
    /// How many rounds there are.
    pub random_passes: usize,
}

/// Run a test pattern on a memory, returning the failures found, as many as the
/// budget holds.
///
/// The operator hears of each sub-pass that ended and of the progress within it,
/// and may ask for a stop; once the budget is used up the pattern stops early.
/// `parallel` says whether the memory is one of several that are tested side by side:
/// then the operator hears of the progress of checks too, and not of fills alone. A
/// march is strictly sequential either way.
pub fn run_pattern<M: Memory, N: Monitor>(
    pattern: Pattern,
    mem: &mut M,
    monitor: &mut N,
    parallel: bool,
    budget: &mut FailureBudget,
) -> (failures: Vec<Failure>)
    ensures
        final(mem).size() == old(mem).size(),
        final(mem).base() == old(mem).base(),
        memory::extends(old(mem).trace(), final(mem).trace()),
        memory::extends(old(monitor).log(), final(monitor).log()),
        memory::ran(
            pattern.script(old(mem).size()),
            pattern.passes(),
            old(mem).base(),
            *old(budget),
            *final(budget),
            memory::since(old(mem).trace(), final(mem).trace()),
            memory::since(old(monitor).log(), final(monitor).log()),
            failures@,
        ),
        memory::heeds(
            pattern.script(old(mem).size()),
            pattern.ends(old(mem).size()),
            pattern.passes(),
            pattern.polls_first(),
            old(mem).base(),
            old(budget).slots(),
            memory::since(old(mem).trace(), final(mem).trace()),
            memory::since(old(monitor).log(), final(monitor).log()),
        ),
{
    match pattern {
        Pattern::SolidBits => solid::run(mem, monitor, parallel, budget),
        Pattern::WalkingOnes => walking::run_ones(mem, monitor, parallel, budget),
        Pattern::WalkingZeros => walking::run_zeros(mem, monitor, parallel, budget),
        Pattern::Checkerboard => checkerboard::run(mem, monitor, parallel, budget),
        Pattern::StuckAddress => stuck_address::run(mem, monitor, parallel, budget),
        Pattern::MarchCMinus => march::run(mem, monitor, budget),
    }
}

/// Tiers are cumulative: what is in the quick tier is in the standard tier, and
/// what is in the standard tier is in the thorough tier.
pub proof fn law_tiers_are_cumulative(pattern: Pattern)
    ensures
        pattern.in_tiers().contains(PatternTier::Quick) ==> pattern.in_tiers().contains(
            PatternTier::Standard,
        ),
        pattern.in_tiers().contains(PatternTier::Standard) ==> pattern.in_tiers().contains(
            PatternTier::Thorough,
        ),
{
    let tiers = pattern.in_tiers();
    assert(tiers[tiers.len() - 1] == PatternTier::Thorough);
    assert(tiers[tiers.len() - 2] == PatternTier::Standard);
}

/// Every pattern is listed, once.
pub proof fn law_every_pattern_is_listed(pattern: Pattern)
    ensures
        Pattern::every().contains(pattern),
        Pattern::every().no_duplicates(),
{
    let every = Pattern::every();
    assert(every[0] == Pattern::SolidBits);
    assert(every[1] == Pattern::WalkingOnes);
    assert(every[2] == Pattern::WalkingZeros);
    assert(every[3] == Pattern::Checkerboard);
    assert(every[4] == Pattern::StuckAddress);
    assert(every[5] == Pattern::MarchCMinus);
}

/// No two patterns have the same name.
pub proof fn law_names_differ(one: Pattern, two: Pattern)
    requires
        one != two,
    ensures
        one.name() != two.name(),
{
    reveal_strlit("Solid Bits");
    reveal_strlit("Walking Ones");
    reveal_strlit("Walking Zeros");
    reveal_strlit("Checkerboard");
    reveal_strlit("Stuck Address");
    reveal_strlit("March C-");
    assert("Solid Bits"@.len() == 10);
    assert("Walking Ones"@.len() == 12);
    assert("Walking Zeros"@.len() == 13);
    assert("Checkerboard"@.len() == 12);
    assert("Stuck Address"@.len() == 13);
    assert("March C-"@.len() == 8);
    assert("Walking Ones"@[0] != "Checkerboard"@[0]);
    assert("Walking Zeros"@[0] != "Stuck Address"@[0]);
}

/// Every pattern but the one on addresses claims to find stuck bits; address faults are
/// claimed by that one and the march, transition faults by the march alone, and coupling
/// by the walking bits, the checkerboard and the march. None claims more.
pub proof fn law_claims_of_the_patterns(pattern: Pattern)
    ensures
        pattern.detects().contains(FaultClass::StuckAt) <==> pattern != Pattern::StuckAddress,
        pattern.detects().contains(FaultClass::AddressDecoder) <==> pattern
            == Pattern::StuckAddress || pattern == Pattern::MarchCMinus,
        pattern.detects().contains(FaultClass::Transition) <==> pattern == Pattern::MarchCMinus,
        pattern.detects().contains(FaultClass::Coupling) <==> pattern != Pattern::SolidBits
            && pattern != Pattern::StuckAddress,
        !pattern.detects().contains(FaultClass::Retention),
        !pattern.detects().contains(FaultClass::RowDisturbance),
{
    let faults = pattern.detects();
    if pattern == Pattern::StuckAddress {
        assert(faults[0] == FaultClass::AddressDecoder);
    } else {
        assert(faults[0] == FaultClass::StuckAt);
        if pattern == Pattern::MarchCMinus {
            assert(faults[1] == FaultClass::Transition);
            assert(faults[2] == FaultClass::AddressDecoder);
            assert(faults[3] == FaultClass::Coupling);
        } else if pattern != Pattern::SolidBits {
            assert(faults[1] == FaultClass::Coupling);
        }
    }
}

/// The quick tier holds exactly the patterns that take a few passes; the others hold all,
/// and none is destructive.
pub proof fn law_quick_tier_is_cheap(pattern: Pattern)
    ensures
        pattern.in_tiers().contains(PatternTier::Quick) <==> pattern.cost() is Linear,
        pattern.in_tiers().contains(PatternTier::Standard),
        pattern.in_tiers().contains(PatternTier::Thorough),
        !pattern.in_tiers().contains(PatternTier::Destructive),
{
    let tiers = pattern.in_tiers();
    assert(tiers[tiers.len() - 1] == PatternTier::Thorough);
    assert(tiers[tiers.len() - 2] == PatternTier::Standard);
    if pattern.cost() is Linear {
        assert(tiers[0] == PatternTier::Quick);
    }
}

/// A round writes and reads every word once.
proof fn lemma_rounds_length(words: Seq<u64>, len: int, n: int)
    requires
        0 <= len,
        0 <= n,
    ensures
        rounds::rounds_script(words, len, n).len() == 2 * len * n,
    decreases n,
{
    if n > 0 {
        lemma_rounds_length(words, len, n - 1);
        assert(2 * len * n == 2 * len * (n - 1) + 2 * len) by (nonlinear_arith);
    } else {
        assert(2 * len * n == 0) by (nonlinear_arith)
            requires
                n == 0,
        ;
    }
}

/// Sub-pass by sub-pass a pattern goes through all it does: none is done before the first,
/// and all of it by the last. How often each word is read or written in all is fixed by
/// the pattern.
pub proof fn law_sub_passes_make_up_the_pattern(pattern: Pattern, len: int)
    requires
        0 <= len,
    ensures
        (pattern.ends(len))(0) == 0,
        (pattern.ends(len))(pattern.passes()) == pattern.script(len).len(),
        pattern.script(len).len() == len * match pattern {
            Pattern::SolidBits | Pattern::Checkerboard => 4int,
            Pattern::WalkingOnes | Pattern::WalkingZeros => 128,
            Pattern::StuckAddress => 2,
            Pattern::MarchCMinus => 10,
        },
{
    lemma_rounds_length(solid::solid_words(), len, 2);
    lemma_rounds_length(walking::walking_ones(), len, 64);
    lemma_rounds_length(walking::walking_zeros(), len, 64);
    lemma_rounds_length(checkerboard::checker_words(), len, 2);
    march::law_ten_accesses_per_word(len);
}

} // verus!
