//! What happens during a run, as it is announced to those who show it.

use crate::dimm::DimmTopology;
use crate::edac::EccDelta;
use crate::failure::Failure;
use crate::pattern::Pattern;
use crate::physmem::phys::MapStats;
use vstd::prelude::*;

verus! {

/// How serious a log message is.
#[derive(Debug, Clone, Copy, PartialEq, Eq, Structural)]
pub enum LogLevel {
    Error,
    Warn,
    Info,
    Debug,
    Trace,
}

impl LogLevel {
    /// The name of the level.
    pub open spec fn name(self) -> Seq<char> {
        match self {
            LogLevel::Error => "ERROR"@,
            LogLevel::Warn => "WARN"@,
            LogLevel::Info => "INFO"@,
            LogLevel::Debug => "DEBUG"@,
            LogLevel::Trace => "TRACE"@,
        }
    }

    /// The name of the level.
    pub fn label(&self) -> (label: &'static str)
        ensures
            label@ == self.name(),
    {
        match self {
            LogLevel::Error => "ERROR",
            LogLevel::Warn => "WARN",
            LogLevel::Info => "INFO",
            LogLevel::Debug => "DEBUG",
            LogLevel::Trace => "TRACE",
        }
    }
}

/// Something to tell the operator.
#[derive(Debug)]
pub struct Notice {
    pub level: LogLevel,
    pub text: String,
}

impl View for Notice {
    type V = (LogLevel, Seq<char>);

    open spec fn view(&self) -> (LogLevel, Seq<char>) {
        (self.level, self.text@)
    }
}

/// What several notices say.
pub open spec fn notice_views(notices: Seq<Notice>) -> Seq<(LogLevel, Seq<char>)> {
    Seq::new(notices.len(), |i: int| notices[i]@)
}

/// The events at the beginning of a run: that it begins, and then what is known of
/// the addresses and the modules.
pub fn opening_events(
    size: usize,
    passes: usize,
    patterns: Vec<Pattern>,
    regions: usize,
    parallel: bool,
    stats: Option<MapStats>,
    topology: Option<DimmTopology>,
) -> (events: Vec<RunEvent>)
    ensures
        events@ == seq![RunEvent::RunStart { size, passes, patterns, regions, parallel }] + (
        match stats {
            Some(stats) => seq![RunEvent::MapInfo { stats }],
            None => seq![],
        }) + (match topology {
            Some(topology) => seq![RunEvent::DimmInfo { topology }],
            None => seq![],
        }),
{
    let mut events: Vec<RunEvent> = Vec::new();
    events.push(RunEvent::RunStart { size, passes, patterns, regions, parallel });
    if let Some(stats) = stats {
        events.push(RunEvent::MapInfo { stats });
    }
    if let Some(topology) = topology {
        events.push(RunEvent::DimmInfo { topology });
    }
    events
}

/// An event of a run.
#[derive(Debug)]
pub enum RunEvent {
    /// The run begins.
    RunStart {
        size: usize,
        passes: usize,
        patterns: Vec<Pattern>,
        regions: usize,
        parallel: bool,
    },
    /// The physical addresses of the memory are known.
    MapInfo { stats: MapStats },
    /// The memory modules are known.
    DimmInfo { topology: DimmTopology },
    /// Something happened in a region.
    Region(usize, RegionEvent),
    /// A message was logged.
    Log {
        level: LogLevel,
        target: String,
        message: String,
        fields: Vec<(String, String)>,
    },
    /// The run is over.
    RunComplete,
}

impl RunEvent {
    /// Whether no event follows this one.
    pub fn ends_run(&self) -> (last: bool)
        ensures
            last == (*self is RunComplete),
    {
        matches!(self, RunEvent::RunComplete)
    }
}

/// An event within a region. Times are in nanoseconds.
#[allow(inconsistent_fields)]
#[derive(Debug)]
pub enum RegionEvent {
    /// A pass begins.
    PassStart { pass: usize, total_passes: usize },
    /// A pattern begins.
    TestStart { pattern: Pattern, pass: usize },
    /// A part of a pattern is done.
    Progress { pattern: Pattern, pass: usize, sub_pass: u64, total: u64 },
    /// A pattern is done.
    TestComplete {
        pattern: Pattern,
        pass: usize,
        elapsed: u64,
        bytes: u64,
        failures: Vec<Failure>,
    },
    /// A pass is done.
    PassComplete { pass: usize, failures: usize, elapsed: u64 },
    /// Error counters went up during a pass.
    EccDeltas { pass: usize, deltas: Vec<EccDelta> },
}

} // verus!
