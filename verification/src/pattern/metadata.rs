//! What each pattern detects and how expensive it is to run.

use vstd::prelude::*;

verus! {

/// A class of DRAM fault that a pattern is designed to detect.
///
/// The four academic coupling sub-types are one variant, since a field tester
/// acts on all of them the same way.
#[derive(Debug, Clone, Copy, PartialEq, Eq, Hash, Structural)]
pub enum FaultClass {
    /// Cell permanently stuck at 0 or 1 regardless of writes.
    StuckAt,
    /// Cell fails to make a commanded transition.
    Transition,
    /// A transition or state in one cell disturbs an adjacent cell.
    Coupling,
    /// Address decoder maps several addresses to one cell, or a cell to none.
    AddressDecoder,
    /// Cell loses its charge before the controller refreshes it.
    Retention,
    /// Rapid activation of an aggressor row flips bits in a victim row.
    RowDisturbance,
}

impl FaultClass {
    /// Human-readable name.
    pub open spec fn name(self) -> Seq<char> {
        match self {
            FaultClass::StuckAt => "Stuck-At"@,
            FaultClass::Transition => "Transition"@,
            FaultClass::Coupling => "Coupling"@,
            FaultClass::AddressDecoder => "Address Decoder"@,
            FaultClass::Retention => "Retention"@,
            FaultClass::RowDisturbance => "Row Disturbance"@,
        }
    }

    /// Human-readable name for display.
    pub fn label(self) -> (label: &'static str)
        ensures
            label@ == self.name(),
    {
        match self {
            FaultClass::StuckAt => "Stuck-At",
            FaultClass::Transition => "Transition",
            FaultClass::Coupling => "Coupling",
            FaultClass::AddressDecoder => "Address Decoder",
            FaultClass::Retention => "Retention",
            FaultClass::RowDisturbance => "Row Disturbance",
        }
    }
}

/// Time complexity of a pattern relative to buffer size `n`.
#[derive(Debug, Clone, Copy, PartialEq, Eq, Structural)]
pub enum Complexity {
    /// O(n): one pass, or a fixed small number of passes.
    Linear,
    /// O(k*n): `k` passes over the whole buffer.
    LinearK(u8),
    /// O(n^2): exhaustive coupling tests.
    Quadratic,
}

/// Preset tier that a pattern takes part in.
///
/// Tiers are cumulative: thorough is a superset of standard, which is a superset
/// of quick. Destructive is orthogonal: opt-in patterns that may induce errors as
/// a side effect and are never run implicitly.
#[derive(Debug, Clone, Copy, PartialEq, Eq, Hash, Structural)]
pub enum PatternTier {
    /// Fast sanity check after boot or in CI.
    Quick,
    /// Default diagnostic run.
    Standard,
    /// Full trusted suite.
    Thorough,
    /// Opt-in patterns that may deliberately induce errors.
    Destructive,
}

/// Description of a pattern's fault coverage and cost.
#[derive(Debug, PartialEq, Eq)]
pub struct PatternMetadata {
    /// Fault classes that the pattern is designed to detect.
    pub fault_classes: Vec<FaultClass>,
    /// Time complexity relative to buffer size.
    pub complexity: Complexity,
    /// Whether physical address ordering is required for full effectiveness.
    pub requires_physical_order: bool,
    /// Whether the pattern may induce errors as a side effect.
    pub is_destructive: bool,
    /// Preset tiers that hold this pattern.
    pub tiers: Vec<PatternTier>,
}

} // verus!
