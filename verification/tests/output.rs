//! Where the output of a run goes.

use ferrite::cli::{ColorMode, OutputConfig, OutputFormat, TuiMode};
use ferrite::output::{chosen_patterns, color_override, render_results, use_tui, OutputPlan};
use ferrite::pattern::Pattern;
use ferrite::runner::{RunConfig, RunResults};
use ferrite::units::PlainUnits;

fn clean_results() -> RunResults {
    let config = RunConfig {
        size: 4096,
        passes: 1,
        patterns: vec![Pattern::SolidBits],
        workers: 1,
    };
    RunResults::from_passes(vec![], config, 0)
}

#[test]
fn table_format_selects_table_renderer() {
    let text = render_results(
        &output(OutputFormat::Table, None),
        &clean_results(),
        PlainUnits,
        false,
    );
    // Human table output is not valid JSON.
    assert!(serde_json::from_str::<serde_json::Value>(&text).is_err());
    assert!(text.contains("All tests passed"));
}

#[test]
fn json_format_selects_json_renderer() {
    let results = clean_results();
    let text = render_results(&output(OutputFormat::Json, None), &results, PlainUnits, false);
    // JSON output parses as a JSON object; table output would not.
    let value: serde_json::Value = serde_json::from_str(&text).unwrap();
    assert!(value.is_object());
    assert_eq!(value["total_failures"], 0);
}

fn output(format: OutputFormat, events_file: Option<&str>) -> OutputConfig {
    OutputConfig {
        format,
        events_file: events_file.map(str::to_owned),
        color_enabled: false,
    }
}

#[test]
fn events_go_to_one_place() {
    let plan = OutputPlan::new(&output(OutputFormat::Json, None));
    assert!(plan.json_to_stdout && !plan.events_to_file && plan.ndjson_active());
    let plan = OutputPlan::new(&output(OutputFormat::Json, Some("events")));
    assert!(!plan.json_to_stdout && plan.events_to_file && plan.ndjson_active());
    let plan = OutputPlan::new(&output(OutputFormat::Table, Some("events")));
    assert!(!plan.json_to_stdout && plan.events_to_file && plan.ndjson_active());
    let plan = OutputPlan::new(&output(OutputFormat::Table, None));
    assert!(!plan.ndjson_active());
}

#[test]
fn the_terminal_decides_where_nothing_is_chosen() {
    assert!(use_tui(TuiMode::Always, false));
    assert!(!use_tui(TuiMode::Never, true));
    assert!(use_tui(TuiMode::Auto, true));
    assert!(!use_tui(TuiMode::Auto, false));
    assert_eq!(color_override(false, ColorMode::Always), Some(false));
    assert_eq!(color_override(true, ColorMode::Always), Some(true));
    assert_eq!(color_override(true, ColorMode::Auto), None);
}

#[test]
fn every_pattern_runs_where_none_is_chosen() {
    assert_eq!(chosen_patterns(vec![]), Pattern::all());
    assert_eq!(chosen_patterns(vec![Pattern::SolidBits]), [Pattern::SolidBits]);
}
