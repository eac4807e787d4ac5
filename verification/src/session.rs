//! A run without a display, from its first event to its results.

use crate::error_analysis::{self, analyze};
use crate::events::RunEvent;
use crate::headless::{self, HeadlessPrinter};
use crate::ndjson::{self, Event, NdjsonEventWriter};
use crate::output::OutputPlan;
use crate::physmem::lifecycle::{self, finalize_coverage, CoverageCtx, Finalized};
use crate::physmem::pfn::PfnRange;
use crate::physmem::sysmem::Coverage;
use crate::runner::{self, PassResult, RunConfig, RunResults};
use crate::units::Units;
use vstd::prelude::*;

verus! {

/// Where the events of a run go: to people, to the stream on the standard output, and
/// to the stream in a file.
pub struct HeadlessOutput<U> {
    pub printer: HeadlessPrinter<U>,
    pub stdout: Option<NdjsonEventWriter>,
    pub file: Option<NdjsonEventWriter>,
    /// Nothing is shown to people.
    pub suppress_human: bool,
}

/// What an event brings about.
#[derive(Debug)]
pub struct Routed {
    /// The line for the stream on the standard output.
    pub stdout: Option<Event>,
    /// The line for the stream in a file.
    pub file: Option<Event>,
    /// No event follows.
    pub last: bool,
}

/// Whether `line` is what a stream writes of an event.
pub open spec fn streamed(
    stream: Option<NdjsonEventWriter>,
    event: RunEvent,
    line: Option<Event>,
) -> bool {
    match stream {
        Some(w) => {
            &&& line is None <==> w.broken_pipe || event is RunComplete
            &&& line matches Some(e) ==> ndjson::projects(event, e)
        },
        None => line is None,
    }
}

/// The line that ends a stream.
pub open spec fn totals(
    stream: Option<NdjsonEventWriter>,
    passes: usize,
    results: RunResults,
) -> Option<Event> {
    match stream {
        Some(w) => if w.broken_pipe {
            None
        } else {
            Some(
                Event::RunComplete {
                    passes,
                    total_failures: results.total_failures,
                    duration: results.elapsed,
                },
            )
        },
        None => None,
    }
}

fn stream_line(stream: &Option<NdjsonEventWriter>, event: &RunEvent) -> (line: Option<Event>)
    ensures
        streamed(*stream, *event, line),
{
    match stream {
        Some(w) => w.handle_event(event),
        None => None,
    }
}

fn last_line(stream: &Option<NdjsonEventWriter>, passes: usize, results: &RunResults) -> (line:
    Option<Event>)
    ensures
        line == totals(*stream, passes, *results),
{
    match stream {
        Some(w) => w.write_run_complete(passes, results.total_failures, results.elapsed),
        None => None,
    }
}

impl<U: Units> HeadlessOutput<U> {
    /// The outputs of a plan, and the line that each stream begins with.
    pub fn new(plan: &OutputPlan, units: U) -> (r: (Self, Option<Event>, Option<Event>))
        ensures
            r.0.printer.out@ == Seq::<char>::empty(),
            r.0.printer.units == units,
            r.0.printer.total_passes == 0,
            r.0.suppress_human == plan.suppress_human,
            r.0.stdout == if plan.json_to_stdout {
                Some(NdjsonEventWriter { broken_pipe: false })
            } else {
                None
            },
            r.0.file == if plan.events_to_file {
                Some(NdjsonEventWriter { broken_pipe: false })
            } else {
                None
            },
            r.1 == if plan.json_to_stdout {
                Some(Event::Header { schema_version: ndjson::SCHEMA_VERSION })
            } else {
                None
            },
            r.2 == if plan.events_to_file {
                Some(Event::Header { schema_version: ndjson::SCHEMA_VERSION })
            } else {
                None
            },
    {
        let printer = HeadlessPrinter::new(units);
        let (stdout, stdout_header) = if plan.json_to_stdout {
            let (w, header) = NdjsonEventWriter::new();
            (Some(w), Some(header))
        } else {
            (None, None)
        };
        let (file, file_header) = if plan.events_to_file {
            let (w, header) = NdjsonEventWriter::new();
            (Some(w), Some(header))
        } else {
            (None, None)
        };
        (
            HeadlessOutput { printer, stdout, file, suppress_human: plan.suppress_human },
            stdout_header,
            file_header,
        )
    }

    /// Show an event and find out what the streams write of it.
    pub fn route(&mut self, event: &RunEvent) -> (routed: Routed)
        ensures
            final(self).stdout == old(self).stdout,
            final(self).file == old(self).file,
            final(self).suppress_human == old(self).suppress_human,
            final(self).printer.units == old(self).printer.units,
            old(self).suppress_human ==> final(self).printer == old(self).printer,
            !old(self).suppress_human ==> {
                &&& final(self).printer.out@ == old(self).printer.out@ + headless::event_text(
                    old(self).printer.units,
                    old(self).printer.total_passes,
                    *event,
                )
                &&& final(self).printer.total_passes == headless::passes_after(
                    old(self).printer.total_passes,
                    *event,
                )
            },
            streamed(old(self).stdout, *event, routed.stdout),
            streamed(old(self).file, *event, routed.file),
            routed.last == (*event is RunComplete),
    {
        if !self.suppress_human {
            self.printer.handle_event(event);
        }
        Routed {
            stdout: stream_line(&self.stdout, event),
            file: stream_line(&self.file, event),
            last: event.ends_run(),
        }
    }

    /// What the streams write once the results are known.
    pub fn finish(&self, passes: usize, results: &RunResults) -> (lines: (
        Option<Event>,
        Option<Event>,
    ))
        ensures
            lines.0 == totals(self.stdout, passes, *results),
            lines.1 == totals(self.file, passes, *results),
    {
        (
            last_line(&self.stdout, passes, results),
            last_line(&self.file, passes, results),
        )
    }
}

/// A step of a run.
#[derive(Debug, Clone, Copy, PartialEq, Eq, Structural)]
pub enum RunStep {
    /// Send the events that open the run.
    Announce,
    /// Begin the stream on the standard output.
    OpenStdoutStream,
    /// Create the file and begin the stream in it.
    OpenEventsFile,
    /// Send log messages as events from now on.
    ForwardLogs,
    /// Begin to take events.
    StartConsumer,
    /// Run the patterns.
    RunPatterns,
    /// Send the event that ends the run.
    AnnounceEnd,
    /// Wait until all events are taken.
    JoinConsumer,
    /// Send no log messages any more.
    StopForwarding,
    /// Put the results together.
    Conclude,
    /// End the stream on the standard output.
    EndStdoutStream,
    /// End the stream in the file.
    EndEventsFile,
    /// Show the results.
    Render,
}

/// A step that is taken only under a condition.
pub open spec fn only_if(condition: bool, step: RunStep) -> Seq<RunStep> {
    if condition {
        seq![step]
    } else {
        seq![]
    }
}

/// The steps of a run, in order. A run over physical addresses opens its outputs before
/// it announces itself, so that what goes wrong there comes first.
pub open spec fn steps_of(plan: OutputPlan, devmem: bool) -> Seq<RunStep> {
    let active = plan.json_to_stdout || plan.events_to_file;
    only_if(!devmem, RunStep::Announce) + only_if(
        plan.json_to_stdout,
        RunStep::OpenStdoutStream,
    ) + only_if(plan.events_to_file, RunStep::OpenEventsFile) + only_if(
        active,
        RunStep::ForwardLogs,
    ) + only_if(devmem, RunStep::Announce) + seq![
        RunStep::StartConsumer,
        RunStep::RunPatterns,
        RunStep::AnnounceEnd,
        RunStep::JoinConsumer,
    ] + only_if(active, RunStep::StopForwarding) + seq![RunStep::Conclude] + only_if(
        plan.json_to_stdout,
        RunStep::EndStdoutStream,
    ) + only_if(plan.events_to_file, RunStep::EndEventsFile) + seq![RunStep::Render]
}

/// The steps of a run, in order.
pub fn run_steps(plan: &OutputPlan, devmem: bool) -> (steps: Vec<RunStep>)
    ensures
        steps@ == steps_of(*plan, devmem),
{
    let active = plan.ndjson_active();
    let mut steps: Vec<RunStep> = Vec::new();
    if !devmem {
        steps.push(RunStep::Announce);
    }
    if plan.json_to_stdout {
        steps.push(RunStep::OpenStdoutStream);
    }
    if plan.events_to_file {
        steps.push(RunStep::OpenEventsFile);
    }
    if active {
        steps.push(RunStep::ForwardLogs);
    }
    if devmem {
        steps.push(RunStep::Announce);
    }
    steps.push(RunStep::StartConsumer);
    steps.push(RunStep::RunPatterns);
    steps.push(RunStep::AnnounceEnd);
    steps.push(RunStep::JoinConsumer);
    if active {
        steps.push(RunStep::StopForwarding);
    }
    steps.push(RunStep::Conclude);
    if plan.json_to_stdout {
        steps.push(RunStep::EndStdoutStream);
    }
    if plan.events_to_file {
        steps.push(RunStep::EndEventsFile);
    }
    steps.push(RunStep::Render);
    assert(steps@ =~= steps_of(*plan, devmem));
    steps
}

/// Log messages are sent as events exactly if there is a stream, from before the
/// patterns run until every event has been taken.
pub proof fn law_logs_reach_the_stream(plan: OutputPlan, devmem: bool, i: int, j: int)
    requires
        0 <= i < steps_of(plan, devmem).len(),
        0 <= j < steps_of(plan, devmem).len(),
    ensures
        steps_of(plan, devmem).contains(RunStep::ForwardLogs) <==> plan.json_to_stdout
            || plan.events_to_file,
        steps_of(plan, devmem).contains(RunStep::StopForwarding) <==> plan.json_to_stdout
            || plan.events_to_file,
        steps_of(plan, devmem)[i] == RunStep::ForwardLogs && steps_of(plan, devmem)[j]
            == RunStep::RunPatterns ==> i < j,
        steps_of(plan, devmem)[i] == RunStep::JoinConsumer && steps_of(plan, devmem)[j]
            == RunStep::StopForwarding ==> i < j,
{
    let steps = steps_of(plan, devmem);
    let active = plan.json_to_stdout || plan.events_to_file;
    let opened = only_if(!devmem, RunStep::Announce) + only_if(
        plan.json_to_stdout,
        RunStep::OpenStdoutStream,
    ) + only_if(plan.events_to_file, RunStep::OpenEventsFile);
    let before = opened.len();
    if active {
        assert(steps[before as int] == RunStep::ForwardLogs);
        let stop = before + 1 + only_if(devmem, RunStep::Announce).len() + 4;
        assert(steps[stop as int] == RunStep::StopForwarding);
    }
}

/// Whether `results` are those of finished passes with their analysis and the coverage
/// given.
pub open spec fn gathers(
    results: RunResults,
    passes: Vec<PassResult>,
    config: RunConfig,
    elapsed: u64,
    coverage: Coverage,
) -> bool {
    let failures = runner::pass_failures(passes@, passes@.len() as int);
    &&& results.passes == passes
    &&& results.config == config
    &&& results.elapsed == elapsed
    &&& results.total_failures == failures
    &&& results.coverage == coverage
    &&& results.error_analysis is None <==> failures == 0
    &&& results.error_analysis matches Some(a) ==> a.analyzes(
        error_analysis::results_of(passes@, passes@.len() as int),
    )
}

/// Whether a run was recorded: `done` is what is left to do, and `results` are the
/// results `gathered` with what the run contributed.
pub open spec fn concludes(
    gathered: RunResults,
    results: RunResults,
    ctx: Option<CoverageCtx>,
    run_ranges: Option<Vec<PfnRange>>,
    now: jiff::Timestamp,
    done: Finalized,
) -> bool {
    &&& results.passes == gathered.passes
    &&& results.config == gathered.config
    &&& results.elapsed == gathered.elapsed
    &&& results.total_failures == gathered.total_failures
    &&& results.error_analysis == gathered.error_analysis
    &&& lifecycle::warned(done.warning) == lifecycle::omission(
        ctx,
        run_ranges,
        gathered.was_interrupted(),
    )
    &&& match run_ranges {
        Some(ranges) => if gathered.was_interrupted() {
            done.covered is None && done.to_save is None && results.coverage == gathered.coverage
        } else {
            match ctx {
                Some(c) => {
                    &&& done.to_save matches Some(saved)
                    &&& done.covered matches Some(covered)
                    &&& saved.path == c.path
                    &&& covered@ == saved.store.ranges@
                    &&& lifecycle::recorded(
                        c.store,
                        saved.store,
                        ranges@,
                        gathered,
                        now,
                        results.coverage,
                    )
                },
                None => done.covered == run_ranges && done.to_save is None && results.coverage
                    == gathered.coverage,
            }
        },
        None => done.covered is None && done.to_save is None && results.coverage
            == gathered.coverage,
    }
}

/// Whether a run was gathered and recorded.
pub open spec fn executed(
    passes: Vec<PassResult>,
    config: RunConfig,
    elapsed: u64,
    coverage: Coverage,
    ctx: Option<CoverageCtx>,
    run_ranges: Option<Vec<PfnRange>>,
    now: jiff::Timestamp,
    r: (RunResults, Finalized),
) -> bool {
    exists|gathered: RunResults| #[trigger]
        concludes(gathered, r.0, ctx, run_ranges, now, r.1) && gathers(
            gathered,
            passes,
            config,
            elapsed,
            coverage,
        )
}

/// Put the results of a run together: count and analyse the failures, and record the
/// run in the store, if there is one.
pub fn execute_run(
    passes: Vec<PassResult>,
    config: RunConfig,
    elapsed: u64,
    coverage: Coverage,
    ctx: Option<CoverageCtx>,
    run_ranges: Option<Vec<PfnRange>>,
    now: jiff::Timestamp,
) -> (r: (RunResults, Finalized))
    requires
        runner::pass_failures(passes@, passes@.len() as int) <= u32::MAX,
        !runner::any_interrupted(passes@) ==> (ctx matches Some(c) ==> (run_ranges matches Some(
            ranges,
        ) ==> lifecycle::recordable(c.store, ranges@))),
    ensures
        executed(passes, config, elapsed, coverage, ctx, run_ranges, now, r),
{
    let mut results = RunResults::from_passes(passes, config, elapsed);
    results.coverage = coverage;
    analyze(&mut results);
    let ghost gathered = results;
    assert(gathers(gathered, passes, config, elapsed, coverage));
    let done = finalize_coverage(ctx, run_ranges, &mut results, now);
    let r = (results, done);
    assert(concludes(gathered, r.0, ctx, run_ranges, now, r.1));
    r
}

/// The place of a step in a run, if it is taken.
pub open spec fn taken_at(plan: OutputPlan, devmem: bool, step: RunStep, i: int) -> bool {
    0 <= i < steps_of(plan, devmem).len() && steps_of(plan, devmem)[i] == step
}

/// The steps of a run are taken in order: the outputs are open and the consumer listens
/// before the patterns run; the end is announced after that, and all events are
/// taken before the results are put together; then the streams end, and the results are
/// shown last.
pub proof fn law_steps_are_in_order(plan: OutputPlan, devmem: bool, i: int, j: int)
    ensures
        taken_at(plan, devmem, RunStep::Announce, i) && taken_at(
            plan,
            devmem,
            RunStep::StartConsumer,
            j,
        ) ==> i < j,
        taken_at(plan, devmem, RunStep::OpenStdoutStream, i) && taken_at(
            plan,
            devmem,
            RunStep::StartConsumer,
            j,
        ) ==> i < j,
        taken_at(plan, devmem, RunStep::OpenEventsFile, i) && taken_at(
            plan,
            devmem,
            RunStep::StartConsumer,
            j,
        ) ==> i < j,
        taken_at(plan, devmem, RunStep::StartConsumer, i) && taken_at(
            plan,
            devmem,
            RunStep::RunPatterns,
            j,
        ) ==> i < j,
        taken_at(plan, devmem, RunStep::RunPatterns, i) && taken_at(
            plan,
            devmem,
            RunStep::AnnounceEnd,
            j,
        ) ==> i < j,
        taken_at(plan, devmem, RunStep::AnnounceEnd, i) && taken_at(
            plan,
            devmem,
            RunStep::JoinConsumer,
            j,
        ) ==> i < j,
        taken_at(plan, devmem, RunStep::JoinConsumer, i) && taken_at(
            plan,
            devmem,
            RunStep::Conclude,
            j,
        ) ==> i < j,
        taken_at(plan, devmem, RunStep::Conclude, i) && taken_at(
            plan,
            devmem,
            RunStep::EndStdoutStream,
            j,
        ) ==> i < j,
        taken_at(plan, devmem, RunStep::Conclude, i) && taken_at(
            plan,
            devmem,
            RunStep::EndEventsFile,
            j,
        ) ==> i < j,
        devmem && taken_at(plan, devmem, RunStep::OpenEventsFile, i) && taken_at(
            plan,
            devmem,
            RunStep::Announce,
            j,
        ) ==> i < j,
        !devmem && taken_at(plan, devmem, RunStep::Announce, i) ==> i == 0,
        steps_of(plan, devmem).last() == RunStep::Render,
{
}

/// No step is taken twice.
pub proof fn law_no_step_is_repeated(
    plan: OutputPlan,
    devmem: bool,
    step: RunStep,
    i: int,
    j: int,
)
    requires
        taken_at(plan, devmem, step, i),
        taken_at(plan, devmem, step, j),
    ensures
        i == j,
{
}

/// Which steps a run takes: a stream is begun and ended exactly if there is one, and
/// everything else is done in every run.
pub proof fn law_steps_follow_the_plan(plan: OutputPlan, devmem: bool)
    ensures
        steps_of(plan, devmem).contains(RunStep::OpenStdoutStream) <==> plan.json_to_stdout,
        steps_of(plan, devmem).contains(RunStep::EndStdoutStream) <==> plan.json_to_stdout,
        steps_of(plan, devmem).contains(RunStep::OpenEventsFile) <==> plan.events_to_file,
        steps_of(plan, devmem).contains(RunStep::EndEventsFile) <==> plan.events_to_file,
        steps_of(plan, devmem).contains(RunStep::Announce),
        steps_of(plan, devmem).contains(RunStep::StartConsumer),
        steps_of(plan, devmem).contains(RunStep::RunPatterns),
        steps_of(plan, devmem).contains(RunStep::AnnounceEnd),
        steps_of(plan, devmem).contains(RunStep::JoinConsumer),
        steps_of(plan, devmem).contains(RunStep::Conclude),
        steps_of(plan, devmem).contains(RunStep::Render),
{
    let steps = steps_of(plan, devmem);
    let out: int = if plan.json_to_stdout {
        1
    } else {
        0
    };
    let file: int = if plan.events_to_file {
        1
    } else {
        0
    };
    let active: int = if plan.json_to_stdout || plan.events_to_file {
        1
    } else {
        0
    };
    let first: int = if devmem {
        0
    } else {
        1
    };
    if plan.json_to_stdout {
        assert(steps[first] == RunStep::OpenStdoutStream);
    }
    if plan.events_to_file {
        assert(steps[first + out] == RunStep::OpenEventsFile);
    }
    if devmem {
        assert(steps[out + file + active] == RunStep::Announce);
    } else {
        assert(steps[0] == RunStep::Announce);
    }
    let start = 1 + out + file + active;
    assert(steps[start] == RunStep::StartConsumer);
    assert(steps[start + 1] == RunStep::RunPatterns);
    assert(steps[start + 2] == RunStep::AnnounceEnd);
    assert(steps[start + 3] == RunStep::JoinConsumer);
    assert(steps[start + 4 + active] == RunStep::Conclude);
    if plan.json_to_stdout {
        assert(steps[start + 5 + active] == RunStep::EndStdoutStream);
    }
    if plan.events_to_file {
        assert(steps[start + 5 + active + out] == RunStep::EndEventsFile);
    }
    assert(steps[start + 5 + active + out + file] == RunStep::Render);
}

/// What a finished run yields: the passes as they were, every failure counted, an analysis
/// exactly if there are failures; and a store is saved exactly if there is one, the
/// addresses are known and nothing was broken off.
pub proof fn law_finished_run_is_recorded(
    passes: Vec<PassResult>,
    config: RunConfig,
    elapsed: u64,
    coverage: Coverage,
    ctx: Option<CoverageCtx>,
    run_ranges: Option<Vec<PfnRange>>,
    now: jiff::Timestamp,
    r: (RunResults, Finalized),
)
    requires
        executed(passes, config, elapsed, coverage, ctx, run_ranges, now, r),
    ensures
        r.0.passes == passes,
        r.0.config == config,
        r.0.elapsed == elapsed,
        r.0.total_failures == runner::pass_failures(passes@, passes@.len() as int),
        r.0.error_analysis is Some <==> r.0.total_failures > 0,
        r.1.to_save is Some <==> ctx is Some && run_ranges is Some && !runner::any_interrupted(
            passes@,
        ),
        r.1.covered is Some <==> run_ranges is Some && !runner::any_interrupted(passes@),
        r.1.to_save is None ==> r.0.coverage == coverage,
        r.1.to_save matches Some(saved) ==> (ctx matches Some(c) && saved.path == c.path
            && saved.store.runs@.len() == c.store.runs@.len() + 1
            && saved.store.runs@.last().failures == r.0.total_failures),
{
    let gathered = choose|gathered: RunResults| #[trigger]
        concludes(gathered, r.0, ctx, run_ranges, now, r.1) && gathers(
            gathered,
            passes,
            config,
            elapsed,
            coverage,
        );
    runner::lemma_pass_failures_grow(passes@, 0, passes@.len() as int);
}

/// A stream gets a line for every event but the end of the run, until its reader is gone;
/// the line about the end comes with the results.
pub proof fn law_stream_follows_the_run(
    stream: Option<NdjsonEventWriter>,
    event: RunEvent,
    line: Option<Event>,
    passes: usize,
    results: RunResults,
)
    requires
        streamed(stream, event, line),
    ensures
        stream is None ==> line is None && totals(stream, passes, results) is None,
        stream matches Some(w) ==> {
            &&& w.broken_pipe ==> line is None && totals(stream, passes, results) is None
            &&& !w.broken_pipe ==> (line is Some <==> !(event is RunComplete))
            &&& !w.broken_pipe ==> (totals(stream, passes, results) matches Some(
                Event::RunComplete { passes: told, total_failures, duration },
            ) && told == passes && total_failures == results.total_failures && duration
                == results.elapsed)
        },
{
}

} // verus!
