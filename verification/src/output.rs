//! Where the output of a run goes.

use crate::cli::{ColorMode, OutputConfig, OutputFormat, TuiMode};
use crate::pattern::Pattern;
use crate::physmem::sysmem::Coverage;
use crate::results::render::{self, JsonRenderer, ResultsRenderer, TableRenderer};
use crate::results::{document, json, serial, CoverageDoc, PassDoc, ResultsDoc};
use crate::runner::{self, RunResults};
use crate::units::Units;
use vstd::prelude::*;

verus! {

/// Which outputs are active during a run.
#[derive(Debug, Clone, Copy, PartialEq, Eq, Structural)]
pub struct OutputPlan {
    /// The event stream goes to the standard output.
    pub json_to_stdout: bool,
    /// The event stream goes to a file.
    pub events_to_file: bool,
    /// Nothing but JSON goes to the standard output.
    pub suppress_human: bool,
}

impl OutputPlan {
    /// The outputs that the flags ask for. With a file for the events the stream
    /// does not also go to the standard output.
    pub fn new(output: &OutputConfig) -> (plan: Self)
        ensures
            plan.json_to_stdout == (output.format == OutputFormat::Json && output.events_file
                is None),
            plan.events_to_file == (output.events_file is Some),
            plan.suppress_human == (output.format == OutputFormat::Json),
    {
        let json = matches!(output.format, OutputFormat::Json);
        OutputPlan {
            json_to_stdout: json && output.events_file.is_none(),
            events_to_file: output.events_file.is_some(),
            suppress_human: json,
        }
    }

    /// Whether there is an event stream, so that log messages belong into it.
    pub fn ndjson_active(&self) -> (active: bool)
        ensures
            active == (self.json_to_stdout || self.events_to_file),
    {
        self.json_to_stdout || self.events_to_file
    }
}

/// Whether the full-screen display is used.
pub fn use_tui(mode: TuiMode, stdout_is_terminal: bool) -> (tui: bool)
    ensures
        tui == match mode {
            TuiMode::Always => true,
            TuiMode::Never => false,
            TuiMode::Auto => stdout_is_terminal,
        },
{
    match mode {
        TuiMode::Always => true,
        TuiMode::Never => false,
        TuiMode::Auto => stdout_is_terminal,
    }
}

/// Whether colors are to be forced on or off; `None` leaves it to the terminal.
pub fn color_override(color_enabled: bool, mode: ColorMode) -> (forced: Option<bool>)
    ensures
        forced == if !color_enabled {
            Some(false)
        } else if mode == ColorMode::Always {
            Some(true)
        } else {
            None
        },
{
    if !color_enabled {
        Some(false)
    } else if matches!(mode, ColorMode::Always) {
        Some(true)
    } else {
        None
    }
}

/// The patterns to run: those that were chosen, or all.
pub fn chosen_patterns(chosen: Vec<Pattern>) -> (patterns: Vec<Pattern>)
    ensures
        patterns@ == if chosen@.len() == 0 {
            Pattern::every()
        } else {
            chosen@
        },
{
    if chosen.len() == 0 {
        Pattern::all()
    } else {
        chosen
    }
}

/// Whether everything in the results that is added up can be.
pub open spec fn is_countable(results: RunResults) -> bool {
    &&& forall|i: int|
        0 <= i < results.passes@.len() ==> runner::pattern_failures(
            (#[trigger] results.passes@[i]).pattern_results@,
            results.passes@[i].pattern_results@.len() as int,
        ) <= u64::MAX
    &&& results.coverage matches Coverage::Measured { gap: Some(gap), .. } ==> gap.sum() <= u64::MAX
}

/// The document of countable results is countable.
proof fn lemma_document_is_countable<U: Units>(doc: ResultsDoc, results: RunResults, units: U)
    requires
        doc.json.shape() == document::run_shape(results, units),
        is_countable(results),
    ensures
        render::is_countable(doc),
{
    document::law_document_reads_back(doc, results, units);
    let passes = json::items_in(json::member(doc.root(), "passes"@));
    assert forall|i: int| 0 <= i < passes.len() implies (PassDoc {
        json: &#[trigger] passes[i],
    }).failures() <= u64::MAX by {
        assert(document::reads_as_pass(passes[i], results.passes@[i], units));
        assert(runner::pattern_failures(
            results.passes@[i].pattern_results@,
            results.passes@[i].pattern_results@.len() as int,
        ) <= u64::MAX);
    }
    let cov = json::member(doc.root(), "coverage"@)->0;
    assert(document::reads_as_coverage(cov, results.coverage));
    assert(render::gap_is_countable(CoverageDoc { json: &cov }));
}

/// Whether a text is how the results read in a format.
pub open spec fn is_report<U: Units>(
    format: OutputFormat,
    results: RunResults,
    units: U,
    full_table: bool,
    text: Seq<char>,
) -> bool {
    match format {
        OutputFormat::Json => text == serial::pretty_text(
            serial::tree_of(document::run_shape(results, units)),
        ) + "\n"@,
        OutputFormat::Table => exists|doc: ResultsDoc|
            {
                &&& doc.json.shape() == document::run_shape(results, units)
                &&& text == #[trigger] render::table_text(units, full_table, doc)
            },
    }
}

/// How the results read in the format that was asked for. The table is in full if
/// nothing has been shown yet.
pub fn render_results<U: Units>(
    output: &OutputConfig,
    results: &RunResults,
    units: U,
    full_table: bool,
) -> (text: String)
    requires
        output.format == OutputFormat::Table ==> is_countable(*results),
    ensures
        is_report(output.format, *results, units, full_table, text@),
{
    let doc = ResultsDoc::from_results(results, &units);
    match output.format {
        OutputFormat::Json => JsonRenderer.render(&doc),
        OutputFormat::Table => {
            proof {
                lemma_document_is_countable(doc, *results, units);
            }
            let renderer = if full_table {
                TableRenderer::full(units)
            } else {
                TableRenderer::new(units)
            };
            renderer.render(&doc)
        },
    }
}

} // verus!
