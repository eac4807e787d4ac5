//! The results of a run, written as a document.

use super::json::{self, list, object, put, Json, Shape};
use super::{CoverageDoc, ErrorAnalysisDoc, PassDoc, PatternDoc, ResultsDoc};
use crate::edac::EccDelta;
use crate::error_analysis::{ErrorAnalysis, ErrorClassification};
use crate::failure::Failure;
use crate::pattern::Pattern;
use crate::physmem::gap::GapReport;
use crate::physmem::sysmem::{Coverage, Cumulative, RamSource};
use crate::runner::{self, PassResult, PatternResult, RunConfig, RunResults};
use crate::text;
use crate::units::Units;
use vstd::prelude::*;

verus! {

/// Texts as values.
pub open spec fn text_shapes(texts: Seq<Seq<char>>) -> Seq<Shape> {
    Seq::new(texts.len(), |i: int| Shape::Text(texts[i]))
}

/// A list of texts.
pub fn texts_json(texts: &Vec<String>) -> (node: Json)
    ensures
        node.shape() == Shape::List(text_shapes(text::string_texts(texts@))),
{
    let mut items: Vec<Json> = Vec::new();
    let mut i: usize = 0;
    while i < texts.len()
        invariant
            i <= texts@.len(),
            items@.len() == i,
            forall|k: int|
                0 <= k < i ==> (#[trigger] items@[k]).shape() == Shape::Text(texts@[k]@),
        decreases texts@.len() - i,
    {
        items.push(Json::Text(texts[i].clone()));
        i = i + 1;
    }
    assert(json::item_shapes(items@) =~= text_shapes(text::string_texts(texts@)));
    list(items)
}

/// A change of error counters as an object; the label is left out if there is none.
pub open spec fn delta_shape(delta: EccDelta) -> Shape {
    Shape::Object(
        seq![
            ("mc"@, Shape::Unsigned(delta.mc as u64)),
            ("dimm_index"@, Shape::Unsigned(delta.dimm_index as u64)),
        ] + (match delta.label {
            Some(label) => seq![("label"@, Shape::Text(label@))],
            None => seq![],
        }) + seq![
            ("ce_delta"@, Shape::Unsigned(delta.ce_delta)),
            ("ue_delta"@, Shape::Unsigned(delta.ue_delta)),
        ],
    )
}

/// Changes of error counters as values.
pub open spec fn delta_shapes(deltas: Seq<EccDelta>) -> Seq<Shape> {
    Seq::new(deltas.len(), |i: int| delta_shape(deltas[i]))
}

fn delta_json(delta: &EccDelta) -> (node: Json)
    ensures
        node.shape() == delta_shape(*delta),
{
    let mut pairs: Vec<(String, Json)> = Vec::new();
    put(&mut pairs, "mc", Json::Unsigned(delta.mc as u64));
    put(&mut pairs, "dimm_index", Json::Unsigned(delta.dimm_index as u64));
    if let Some(label) = &delta.label {
        put(&mut pairs, "label", Json::Text(label.clone()));
    }
    put(&mut pairs, "ce_delta", Json::Unsigned(delta.ce_delta));
    put(&mut pairs, "ue_delta", Json::Unsigned(delta.ue_delta));
    assert(json::pair_shapes(pairs@) =~= delta_shape(*delta)->Object_0);
    object(pairs)
}

/// A list of changes of error counters.
pub fn deltas_json(deltas: &Vec<EccDelta>) -> (node: Json)
    ensures
        node.shape() == Shape::List(delta_shapes(deltas@)),
{
    let mut items: Vec<Json> = Vec::new();
    let mut i: usize = 0;
    while i < deltas.len()
        invariant
            i <= deltas@.len(),
            items@.len() == i,
            forall|k: int| 0 <= k < i ==> (#[trigger] items@[k]).shape() == delta_shape(deltas@[k]),
        decreases deltas@.len() - i,
    {
        items.push(delta_json(&deltas[i]));
        i = i + 1;
    }
    assert(json::item_shapes(items@) =~= delta_shapes(deltas@));
    list(items)
}

/// A failure as an object; an address that is not known is null.
pub open spec fn failure_shape(f: Failure) -> Shape {
    Shape::Object(
        seq![
            ("addr"@, Shape::Unsigned(f.addr as u64)),
            ("expected"@, Shape::Unsigned(f.expected)),
            ("actual"@, Shape::Unsigned(f.actual)),
            ("word_index"@, Shape::Unsigned(f.word_index as u64)),
            (
                "phys_addr"@,
                match f.phys_addr {
                    Some(p) => Shape::Text(p.shown()),
                    None => Shape::Null,
                },
            ),
        ],
    )
}

fn failure_json(f: &Failure) -> (node: Json)
    ensures
        node.shape() == failure_shape(*f),
{
    let mut pairs: Vec<(String, Json)> = Vec::new();
    put(&mut pairs, "addr", Json::Unsigned(f.addr as u64));
    put(&mut pairs, "expected", Json::Unsigned(f.expected));
    put(&mut pairs, "actual", Json::Unsigned(f.actual));
    put(&mut pairs, "word_index", Json::Unsigned(f.word_index as u64));
    let phys = match f.phys_addr {
        Some(p) => Json::Text(p.to_string()),
        None => Json::Null,
    };
    put(&mut pairs, "phys_addr", phys);
    assert(json::pair_shapes(pairs@) =~= failure_shape(*f)->Object_0);
    object(pairs)
}

/// Failures as values.
pub open spec fn failure_shapes(failures: Seq<Failure>) -> Seq<Shape> {
    Seq::new(failures.len(), |i: int| failure_shape(failures[i]))
}

fn failures_json(failures: &Vec<Failure>) -> (node: Json)
    ensures
        node.shape() == Shape::List(failure_shapes(failures@)),
{
    let mut items: Vec<Json> = Vec::new();
    let mut i: usize = 0;
    while i < failures.len()
        invariant
            i <= failures@.len(),
            items@.len() == i,
            forall|k: int|
                0 <= k < i ==> (#[trigger] items@[k]).shape() == failure_shape(failures@[k]),
        decreases failures@.len() - i,
    {
        items.push(failure_json(&failures[i]));
        i = i + 1;
    }
    assert(json::item_shapes(items@) =~= failure_shapes(failures@));
    list(items)
}

/// The name under which a document lists a pattern.
pub open spec fn pattern_key(pattern: Pattern) -> Seq<char> {
    match pattern {
        Pattern::SolidBits => "SolidBits"@,
        Pattern::WalkingOnes => "WalkingOnes"@,
        Pattern::WalkingZeros => "WalkingZeros"@,
        Pattern::Checkerboard => "Checkerboard"@,
        Pattern::StuckAddress => "StuckAddress"@,
        Pattern::MarchCMinus => "MarchCMinus"@,
    }
}

fn pattern_json(pattern: Pattern) -> (node: Json)
    ensures
        node.shape() == Shape::Text(pattern_key(pattern)),
{
    let name = match pattern {
        Pattern::SolidBits => "SolidBits",
        Pattern::WalkingOnes => "WalkingOnes",
        Pattern::WalkingZeros => "WalkingZeros",
        Pattern::Checkerboard => "Checkerboard",
        Pattern::StuckAddress => "StuckAddress",
        Pattern::MarchCMinus => "MarchCMinus",
    };
    Json::Text(name.to_owned())
}

/// What came of a pattern, as an object.
pub open spec fn result_shape<U: Units>(result: PatternResult, units: U) -> Shape {
    Shape::Object(
        seq![
            ("pattern"@, Shape::Text(pattern_key(result.pattern))),
            ("failures"@, Shape::List(failure_shapes(result.failures@))),
            ("elapsed"@, Shape::Number(units.millis_number_text(result.elapsed))),
            ("bytes_processed"@, Shape::Unsigned(result.bytes_processed)),
            ("interrupted"@, Shape::Bool(result.interrupted)),
            ("capped"@, Shape::Bool(result.capped)),
        ],
    )
}

fn result_json<U: Units>(result: &PatternResult, units: &U) -> (node: Json)
    ensures
        node.shape() == result_shape(*result, *units),
{
    let mut pairs: Vec<(String, Json)> = Vec::new();
    put(&mut pairs, "pattern", pattern_json(result.pattern));
    put(&mut pairs, "failures", failures_json(&result.failures));
    put(&mut pairs, "elapsed", Json::Number(units.millis_number(result.elapsed)));
    put(&mut pairs, "bytes_processed", Json::Unsigned(result.bytes_processed));
    put(&mut pairs, "interrupted", Json::Bool(result.interrupted));
    put(&mut pairs, "capped", Json::Bool(result.capped));
    assert(json::pair_shapes(pairs@) =~= result_shape(*result, *units)->Object_0);
    object(pairs)
}

/// What came of several patterns, as values.
pub open spec fn result_shapes<U: Units>(results: Seq<PatternResult>, units: U) -> Seq<Shape> {
    Seq::new(results.len(), |i: int| result_shape(results[i], units))
}

fn results_json<U: Units>(results: &Vec<PatternResult>, units: &U) -> (node: Json)
    ensures
        node.shape() == Shape::List(result_shapes(results@, *units)),
{
    let mut items: Vec<Json> = Vec::new();
    let mut i: usize = 0;
    while i < results.len()
        invariant
            i <= results@.len(),
            items@.len() == i,
            forall|k: int|
                0 <= k < i ==> (#[trigger] items@[k]).shape() == result_shape(results@[k], *units),
        decreases results@.len() - i,
    {
        items.push(result_json(&results[i], units));
        i = i + 1;
    }
    assert(json::item_shapes(items@) =~= result_shapes(results@, *units));
    list(items)
}

/// A pass as an object.
pub open spec fn pass_shape<U: Units>(pass: PassResult, units: U) -> Shape {
    Shape::Object(
        seq![
            ("pass_number"@, Shape::Unsigned(pass.pass_number as u64)),
            ("pattern_results"@, Shape::List(result_shapes(pass.pattern_results@, units))),
            ("ecc_deltas"@, Shape::List(delta_shapes(pass.ecc_deltas@))),
        ],
    )
}

fn pass_json<U: Units>(pass: &PassResult, units: &U) -> (node: Json)
    ensures
        node.shape() == pass_shape(*pass, *units),
{
    let mut pairs: Vec<(String, Json)> = Vec::new();
    put(&mut pairs, "pass_number", Json::Unsigned(pass.pass_number as u64));
    put(&mut pairs, "pattern_results", results_json(&pass.pattern_results, units));
    put(&mut pairs, "ecc_deltas", deltas_json(&pass.ecc_deltas));
    assert(json::pair_shapes(pairs@) =~= pass_shape(*pass, *units)->Object_0);
    object(pairs)
}

/// Passes as values.
pub open spec fn pass_shapes<U: Units>(passes: Seq<PassResult>, units: U) -> Seq<Shape> {
    Seq::new(passes.len(), |i: int| pass_shape(passes[i], units))
}

fn passes_json<U: Units>(passes: &Vec<PassResult>, units: &U) -> (node: Json)
    ensures
        node.shape() == Shape::List(pass_shapes(passes@, *units)),
{
    let mut items: Vec<Json> = Vec::new();
    let mut i: usize = 0;
    while i < passes.len()
        invariant
            i <= passes@.len(),
            items@.len() == i,
            forall|k: int|
                0 <= k < i ==> (#[trigger] items@[k]).shape() == pass_shape(passes@[k], *units),
        decreases passes@.len() - i,
    {
        items.push(pass_json(&passes[i], units));
        i = i + 1;
    }
    assert(json::item_shapes(items@) =~= pass_shapes(passes@, *units));
    list(items)
}

/// Patterns as values.
pub open spec fn pattern_shapes(patterns: Seq<Pattern>) -> Seq<Shape> {
    Seq::new(patterns.len(), |i: int| Shape::Text(pattern_key(patterns[i])))
}

/// What a run was to do, as an object.
pub open spec fn config_shape(config: RunConfig) -> Shape {
    Shape::Object(
        seq![
            ("size"@, Shape::Unsigned(config.size as u64)),
            ("passes"@, Shape::Unsigned(config.passes as u64)),
            ("patterns"@, Shape::List(pattern_shapes(config.patterns@))),
            ("workers"@, Shape::Unsigned(config.workers as u64)),
        ],
    )
}

fn config_json(config: &RunConfig) -> (node: Json)
    ensures
        node.shape() == config_shape(*config),
{
    let patterns = &config.patterns;
    let mut items: Vec<Json> = Vec::new();
    let mut i: usize = 0;
    while i < patterns.len()
        invariant
            i <= patterns@.len(),
            items@.len() == i,
            forall|k: int|
                0 <= k < i ==> (#[trigger] items@[k]).shape() == Shape::Text(
                    pattern_key(patterns@[k]),
                ),
        decreases patterns@.len() - i,
    {
        items.push(pattern_json(patterns[i]));
        i = i + 1;
    }
    assert(json::item_shapes(items@) =~= pattern_shapes(patterns@));
    let mut pairs: Vec<(String, Json)> = Vec::new();
    put(&mut pairs, "size", Json::Unsigned(config.size as u64));
    put(&mut pairs, "passes", Json::Unsigned(config.passes as u64));
    put(&mut pairs, "patterns", list(items));
    put(&mut pairs, "workers", Json::Unsigned(config.workers as u64));
    assert(json::pair_shapes(pairs@) =~= config_shape(*config)->Object_0);
    object(pairs)
}

/// What was covered over several runs, as an object.
pub open spec fn cumulative_shape(c: Cumulative) -> Shape {
    Shape::Object(
        seq![
            ("new_bytes"@, Shape::Unsigned(c.new_bytes)),
            ("cumulative_bytes"@, Shape::Unsigned(c.cumulative_bytes)),
            ("runs"@, Shape::Unsigned(c.runs)),
        ],
    )
}

fn cumulative_json(c: &Cumulative) -> (node: Json)
    ensures
        node.shape() == cumulative_shape(*c),
{
    let mut pairs: Vec<(String, Json)> = Vec::new();
    put(&mut pairs, "new_bytes", Json::Unsigned(c.new_bytes));
    put(&mut pairs, "cumulative_bytes", Json::Unsigned(c.cumulative_bytes));
    put(&mut pairs, "runs", Json::Unsigned(c.runs));
    assert(json::pair_shapes(pairs@) =~= cumulative_shape(*c)->Object_0);
    object(pairs)
}

/// What the untested memory is, as an object; the class that is not known is left
/// out if it is empty.
pub open spec fn gap_shape(gap: GapReport) -> Shape {
    Shape::Object(
        seq![
            ("free_bytes"@, Shape::Unsigned(gap.free_bytes)),
            ("reclaimable_bytes"@, Shape::Unsigned(gap.reclaimable_bytes)),
            ("in_use_bytes"@, Shape::Unsigned(gap.in_use_bytes)),
            ("unreachable_bytes"@, Shape::Unsigned(gap.unreachable_bytes)),
        ] + if gap.unknown_bytes == 0 {
            seq![]
        } else {
            seq![("unknown_bytes"@, Shape::Unsigned(gap.unknown_bytes))]
        },
    )
}

/// What the untested memory is, as an object.
pub fn gap_json(gap: &GapReport) -> (node: Json)
    ensures
        node.shape() == gap_shape(*gap),
{
    let mut pairs: Vec<(String, Json)> = Vec::new();
    put(&mut pairs, "free_bytes", Json::Unsigned(gap.free_bytes));
    put(&mut pairs, "reclaimable_bytes", Json::Unsigned(gap.reclaimable_bytes));
    put(&mut pairs, "in_use_bytes", Json::Unsigned(gap.in_use_bytes));
    put(&mut pairs, "unreachable_bytes", Json::Unsigned(gap.unreachable_bytes));
    if gap.unknown_bytes != 0 {
        put(&mut pairs, "unknown_bytes", Json::Unsigned(gap.unknown_bytes));
    }
    assert(json::pair_shapes(pairs@) =~= gap_shape(*gap)->Object_0);
    object(pairs)
}

/// How much of the memory was tested, as an object.
pub open spec fn coverage_shape(coverage: Coverage) -> Shape {
    Shape::Object(
        match coverage {
            Coverage::Unavailable => seq![("status"@, Shape::Text("unavailable"@))],
            Coverage::Measured { tested_bytes, total_bytes, source, cumulative, gap } => seq![
                ("status"@, Shape::Text("measured"@)),
                ("tested_bytes"@, Shape::Unsigned(tested_bytes)),
                ("total_bytes"@, Shape::Unsigned(total_bytes)),
                (
                    "source"@,
                    Shape::Text(
                        match source {
                            RamSource::ProcIomem => "proc_iomem"@,
                            RamSource::MemTotal => "mem_total"@,
                        },
                    ),
                ),
            ] + (match cumulative {
                Some(c) => seq![("cumulative"@, cumulative_shape(c))],
                None => seq![],
            }) + (match gap {
                Some(g) => seq![("gap"@, gap_shape(g))],
                None => seq![],
            }),
        },
    )
}

fn coverage_json(coverage: &Coverage) -> (node: Json)
    ensures
        node.shape() == coverage_shape(*coverage),
{
    let mut pairs: Vec<(String, Json)> = Vec::new();
    match coverage {
        Coverage::Unavailable => {
            put(&mut pairs, "status", Json::Text("unavailable".to_owned()));
        },
        Coverage::Measured { tested_bytes, total_bytes, source, cumulative, gap } => {
            put(&mut pairs, "status", Json::Text("measured".to_owned()));
            put(&mut pairs, "tested_bytes", Json::Unsigned(*tested_bytes));
            put(&mut pairs, "total_bytes", Json::Unsigned(*total_bytes));
            let origin = match source {
                RamSource::ProcIomem => "proc_iomem",
                RamSource::MemTotal => "mem_total",
            };
            put(&mut pairs, "source", Json::Text(origin.to_owned()));
            if let Some(c) = cumulative {
                put(&mut pairs, "cumulative", cumulative_json(c));
            }
            if let Some(g) = gap {
                put(&mut pairs, "gap", gap_json(g));
            }
        },
    }
    assert(json::pair_shapes(pairs@) =~= coverage_shape(*coverage)->Object_0);
    object(pairs)
}

/// Bit positions as values.
pub open spec fn position_shapes(positions: Seq<u8>) -> Seq<Shape> {
    Seq::new(positions.len(), |i: int| Shape::Unsigned(positions[i] as u64))
}

/// The kind of errors as a value.
pub open spec fn kind_shape(kind: ErrorClassification) -> Shape {
    match kind {
        ErrorClassification::NoErrors => Shape::Text("NoErrors"@),
        ErrorClassification::StuckBit { positions } => Shape::Object(
            seq![
                (
                    "StuckBit"@,
                    Shape::Object(
                        seq![("positions"@, Shape::List(position_shapes(positions@)))],
                    ),
                ),
            ],
        ),
        ErrorClassification::Coupling => Shape::Text("Coupling"@),
        ErrorClassification::Mixed => Shape::Text("Mixed"@),
    }
}

fn kind_json(kind: &ErrorClassification) -> (node: Json)
    ensures
        node.shape() == kind_shape(*kind),
{
    match kind {
        ErrorClassification::NoErrors => Json::Text("NoErrors".to_owned()),
        ErrorClassification::StuckBit { positions } => {
            let mut items: Vec<Json> = Vec::new();
            let mut i: usize = 0;
            while i < positions.len()
                invariant
                    i <= positions@.len(),
                    items@.len() == i,
                    forall|k: int|
                        0 <= k < i ==> (#[trigger] items@[k]).shape() == Shape::Unsigned(
                            positions@[k] as u64,
                        ),
                decreases positions@.len() - i,
            {
                items.push(Json::Unsigned(positions[i] as u64));
                i = i + 1;
            }
            assert(json::item_shapes(items@) =~= position_shapes(positions@));
            let mut inner: Vec<(String, Json)> = Vec::new();
            put(&mut inner, "positions", list(items));
            assert(json::pair_shapes(inner@) =~= seq![
                ("positions"@, Shape::List(position_shapes(positions@))),
            ]);
            let mut pairs: Vec<(String, Json)> = Vec::new();
            put(&mut pairs, "StuckBit", object(inner));
            assert(json::pair_shapes(pairs@) =~= kind_shape(*kind)->Object_0);
            object(pairs)
        },
        ErrorClassification::Coupling => Json::Text("Coupling".to_owned()),
        ErrorClassification::Mixed => Json::Text("Mixed".to_owned()),
    }
}

/// An address that may not be known, as a value.
pub open spec fn address_shape(address: Option<u64>) -> Shape {
    match address {
        Some(a) => Shape::Unsigned(a),
        None => Shape::Null,
    }
}

fn address_json(address: Option<u64>) -> (node: Json)
    ensures
        node.shape() == address_shape(address),
{
    match address {
        Some(a) => Json::Unsigned(a),
        None => Json::Null,
    }
}

/// Positions that flipped and how often, as values.
pub open spec fn flip_shapes(flips: Seq<(u8, u32)>) -> Seq<Shape> {
    Seq::new(
        flips.len(),
        |i: int|
            Shape::List(
                seq![Shape::Unsigned(flips[i].0 as u64), Shape::Unsigned(flips[i].1 as u64)],
            ),
    )
}

fn flips_json(flips: &Vec<(u8, u32)>) -> (node: Json)
    ensures
        node.shape() == Shape::List(flip_shapes(flips@)),
{
    let mut items: Vec<Json> = Vec::new();
    let mut i: usize = 0;
    while i < flips.len()
        invariant
            i <= flips@.len(),
            items@.len() == i,
            forall|k: int|
                0 <= k < i ==> (#[trigger] items@[k]).shape() == flip_shapes(flips@)[k],
        decreases flips@.len() - i,
    {
        let (position, count) = flips[i];
        let mut pair: Vec<Json> = Vec::new();
        pair.push(Json::Unsigned(position as u64));
        pair.push(Json::Unsigned(count as u64));
        assert(json::item_shapes(pair@) =~= seq![
            Shape::Unsigned(position as u64),
            Shape::Unsigned(count as u64),
        ]);
        items.push(list(pair));
        i = i + 1;
    }
    assert(json::item_shapes(items@) =~= flip_shapes(flips@));
    list(items)
}

/// Patterns that failed and how often, as values.
pub open spec fn tally_shapes(tally: Seq<(Pattern, usize)>) -> Seq<Shape> {
    Seq::new(
        tally.len(),
        |i: int|
            Shape::List(
                seq![
                    Shape::Text(pattern_key(tally[i].0)),
                    Shape::Unsigned(tally[i].1 as u64),
                ],
            ),
    )
}

fn tally_json(tally: &Vec<(Pattern, usize)>) -> (node: Json)
    ensures
        node.shape() == Shape::List(tally_shapes(tally@)),
{
    let mut items: Vec<Json> = Vec::new();
    let mut i: usize = 0;
    while i < tally.len()
        invariant
            i <= tally@.len(),
            items@.len() == i,
            forall|k: int|
                0 <= k < i ==> (#[trigger] items@[k]).shape() == tally_shapes(tally@)[k],
        decreases tally@.len() - i,
    {
        let (pattern, count) = tally[i];
        let mut pair: Vec<Json> = Vec::new();
        pair.push(pattern_json(pattern));
        pair.push(Json::Unsigned(count as u64));
        assert(json::item_shapes(pair@) =~= seq![
            Shape::Text(pattern_key(pattern)),
            Shape::Unsigned(count as u64),
        ]);
        items.push(list(pair));
        i = i + 1;
    }
    assert(json::item_shapes(items@) =~= tally_shapes(tally@));
    list(items)
}

/// What the failures have in common, as an object.
pub open spec fn analysis_shape(a: ErrorAnalysis) -> Shape {
    Shape::Object(
        seq![
            ("classification"@, kind_shape(a.classification)),
            ("union_xor_mask"@, Shape::Unsigned(a.union_xor_mask)),
            ("lowest_phys"@, address_shape(a.lowest_phys)),
            ("highest_phys"@, address_shape(a.highest_phys)),
            ("bit_positions"@, Shape::List(flip_shapes(a.bit_positions@))),
            ("per_pattern_failures"@, Shape::List(tally_shapes(a.per_pattern_failures@))),
        ],
    )
}

fn analysis_json(a: &ErrorAnalysis) -> (node: Json)
    ensures
        node.shape() == analysis_shape(*a),
{
    let mut pairs: Vec<(String, Json)> = Vec::new();
    put(&mut pairs, "classification", kind_json(&a.classification));
    put(&mut pairs, "union_xor_mask", Json::Unsigned(a.union_xor_mask));
    put(&mut pairs, "lowest_phys", address_json(a.lowest_phys));
    put(&mut pairs, "highest_phys", address_json(a.highest_phys));
    put(&mut pairs, "bit_positions", flips_json(&a.bit_positions));
    put(&mut pairs, "per_pattern_failures", tally_json(&a.per_pattern_failures));
    assert(json::pair_shapes(pairs@) =~= analysis_shape(*a)->Object_0);
    object(pairs)
}

/// The results of a run as an object. Times are numbers in milliseconds; the analysis
/// is left out if there is none.
pub open spec fn run_shape<U: Units>(results: RunResults, units: U) -> Shape {
    Shape::Object(
        seq![
            ("passes"@, Shape::List(pass_shapes(results.passes@, units))),
            ("config"@, config_shape(results.config)),
            ("elapsed"@, Shape::Number(units.millis_number_text(results.elapsed))),
            ("total_failures"@, Shape::Unsigned(results.total_failures as u64)),
            ("coverage"@, coverage_shape(results.coverage)),
        ] + (match results.error_analysis {
            Some(a) => seq![("error_analysis"@, analysis_shape(a))],
            None => seq![],
        }),
    )
}

impl ResultsDoc {
    /// The document of a run that has ended.
    #[must_use]
    pub fn from_results<U: Units>(results: &RunResults, units: &U) -> (doc: Self)
        ensures
            doc.json.shape() == run_shape(*results, *units),
    {
        let mut pairs: Vec<(String, Json)> = Vec::new();
        put(&mut pairs, "passes", passes_json(&results.passes, units));
        put(&mut pairs, "config", config_json(&results.config));
        put(&mut pairs, "elapsed", Json::Number(units.millis_number(results.elapsed)));
        put(&mut pairs, "total_failures", Json::Unsigned(results.total_failures as u64));
        put(&mut pairs, "coverage", coverage_json(&results.coverage));
        if let Some(a) = &results.error_analysis {
            put(&mut pairs, "error_analysis", analysis_json(a));
        }
        assert(json::pair_shapes(pairs@) =~= run_shape(*results, *units)->Object_0);
        ResultsDoc { json: object(pairs) }
    }
}

/// Whether a value reads as what came of a pattern.
pub open spec fn reads_as_result<U: Units>(node: Json, result: PatternResult, units: U) -> bool {
    let doc = PatternDoc { json: &node };
    &&& doc.name() == pattern_key(result.pattern)
    &&& reads_as_time(json::member(Some(node), "elapsed"@), result.elapsed, units)
    &&& json::unsigned_or_zero(json::member(Some(node), "bytes_processed"@))
        == result.bytes_processed
    &&& super::failures_listed(node) == result.failures@.len()
    &&& json::is_true(json::member(Some(node), "interrupted"@)) == result.interrupted
    &&& json::is_true(json::member(Some(node), "capped"@)) == result.capped
}

/// Whether a value reads as a time.
pub open spec fn reads_as_time<U: Units>(node: Option<Json>, nanos: u64, units: U) -> bool {
    node matches Some(Json::Number(s)) && s@ == units.millis_number_text(nanos)
}

/// Whether a value reads as a pass.
pub open spec fn reads_as_pass<U: Units>(node: Json, pass: PassResult, units: U) -> bool {
    let doc = PassDoc { json: &node };
    &&& json::unsigned_or_zero(json::member(Some(node), "pass_number"@)) == pass.pass_number
    &&& doc.patterns().len() == pass.pattern_results@.len()
    &&& forall|i: int|
        0 <= i < doc.patterns().len() ==> reads_as_result(
            #[trigger] doc.patterns()[i],
            pass.pattern_results@[i],
            units,
        )
    &&& doc.failures() == runner::pattern_failures(
        pass.pattern_results@,
        pass.pattern_results@.len() as int,
    )
}

/// Whether a value reads as what a run was to do.
pub open spec fn reads_as_config(node: Option<Json>, config: RunConfig) -> bool {
    &&& json::unsigned_or_zero(json::member(node, "size"@)) == config.size
    &&& json::unsigned_or_zero(json::member(node, "passes"@)) == config.passes
    &&& json::unsigned_in(json::member(node, "workers"@)) == Some(config.workers as u64)
}

/// Whether a value reads as what was covered over several runs.
pub open spec fn reads_as_cumulative(node: Option<Json>, c: Cumulative) -> bool {
    &&& json::is_object(node)
    &&& json::unsigned_or_zero(json::member(node, "new_bytes"@)) == c.new_bytes
    &&& json::unsigned_or_zero(json::member(node, "cumulative_bytes"@)) == c.cumulative_bytes
    &&& json::unsigned_or_zero(json::member(node, "runs"@)) == c.runs
}

/// Whether a value reads as what the untested memory is.
pub open spec fn reads_as_gap(node: Option<Json>, gap: GapReport) -> bool {
    &&& json::is_object(node)
    &&& json::unsigned_or_zero(json::member(node, "free_bytes"@)) == gap.free_bytes
    &&& json::unsigned_or_zero(json::member(node, "reclaimable_bytes"@)) == gap.reclaimable_bytes
    &&& json::unsigned_or_zero(json::member(node, "in_use_bytes"@)) == gap.in_use_bytes
    &&& json::unsigned_or_zero(json::member(node, "unreachable_bytes"@)) == gap.unreachable_bytes
    &&& json::unsigned_or_zero(json::member(node, "unknown_bytes"@)) == gap.unknown_bytes
}

/// Whether a value reads as how much of the memory was tested.
pub open spec fn reads_as_coverage(node: Json, coverage: Coverage) -> bool {
    let doc = CoverageDoc { json: &node };
    let measured = json::text_in(doc.at("status"@)) == Some("measured"@);
    match coverage {
        Coverage::Unavailable => {
            &&& !measured
            &&& !json::is_object(doc.at("cumulative"@))
            &&& !json::is_object(doc.at("gap"@))
        },
        Coverage::Measured { tested_bytes, total_bytes, source, cumulative, gap } => {
            &&& measured
            &&& json::unsigned_or_zero(doc.at("tested_bytes"@)) == tested_bytes
            &&& json::unsigned_or_zero(doc.at("total_bytes"@)) == total_bytes
            &&& doc.source() == match source {
                RamSource::ProcIomem => "/proc/iomem"@,
                RamSource::MemTotal => "MemTotal estimate"@,
            }
            &&& match cumulative {
                Some(c) => reads_as_cumulative(doc.at("cumulative"@), c),
                None => !json::is_object(doc.at("cumulative"@)),
            }
            &&& match gap {
                Some(g) => reads_as_gap(doc.at("gap"@), g),
                None => !json::is_object(doc.at("gap"@)),
            }
        },
    }
}

/// The counts of patterns under the names that a document gives them.
pub open spec fn named_tally(tally: Seq<(Pattern, usize)>) -> Seq<(Seq<char>, u64)> {
    Seq::new(tally.len(), |i: int| (pattern_key(tally[i].0), tally[i].1 as u64))
}

/// The kind of errors in words.
pub open spec fn kind_text(kind: ErrorClassification) -> Seq<char> {
    match kind {
        ErrorClassification::NoErrors => "no errors"@,
        ErrorClassification::StuckBit { positions } => "stuck bit(s): "@ + text::joined(
            Seq::new(
                positions@.len(),
                |i: int| "bit "@ + text::decimal(positions@[i] as int),
            ),
        ),
        ErrorClassification::Coupling => "coupling/disturbance errors"@,
        ErrorClassification::Mixed => "mixed (stuck + coupling)"@,
    }
}

/// Whether a value reads as what the failures have in common.
pub open spec fn reads_as_analysis(node: Json, a: ErrorAnalysis) -> bool {
    let doc = ErrorAnalysisDoc { json: &node };
    let bits = json::items_in(doc.at("bit_positions"@));
    let names = json::items_in(doc.at("per_pattern_failures"@));
    &&& doc.kind() == kind_text(a.classification)
    &&& json::unsigned_or_zero(doc.at("union_xor_mask"@)) == a.union_xor_mask
    &&& json::unsigned_in(doc.at("lowest_phys"@)) == a.lowest_phys
    &&& json::unsigned_in(doc.at("highest_phys"@)) == a.highest_phys
    &&& super::counted_bits(bits, bits.len() as int) == a.bit_positions@
    &&& super::counted_names(names, names.len() as int) == named_tally(a.per_pattern_failures@)
}

/// What is written in the document of a run is read from it again: the passes and what
/// came of each pattern, the configuration, the time, the number of failures, the
/// coverage and the analysis.
pub proof fn law_document_reads_back<U: Units>(doc: ResultsDoc, results: RunResults, units: U)
    requires
        doc.json.shape() == run_shape(results, units),
    ensures
        json::unsigned_or_zero(json::member(doc.root(), "total_failures"@))
            == results.total_failures,
        reads_as_time(json::member(doc.root(), "elapsed"@), results.elapsed, units),
        json::items_in(json::member(doc.root(), "passes"@)).len() == results.passes@.len(),
        forall|i: int|
            0 <= i < results.passes@.len() ==> reads_as_pass(
                #[trigger] json::items_in(json::member(doc.root(), "passes"@))[i],
                results.passes@[i],
                units,
            ),
        reads_as_config(json::member(doc.root(), "config"@), results.config),
        json::member(doc.root(), "coverage"@) matches Some(c) && json::is_object(Some(c))
            && reads_as_coverage(c, results.coverage),
        json::is_object(json::member(doc.root(), "error_analysis"@))
            <==> results.error_analysis is Some,
        results.error_analysis matches Some(a) ==> (json::member(doc.root(), "error_analysis"@)
            matches Some(node) && reads_as_analysis(node, a)),
{
    reveal_strlit("passes");
    reveal_strlit("config");
    reveal_strlit("elapsed");
    reveal_strlit("total_failures");
    reveal_strlit("coverage");
    reveal_strlit("error_analysis");
    assert("passes"@.len() == 6);
    assert("config"@.len() == 6);
    assert("elapsed"@.len() == 7);
    assert("total_failures"@.len() == 14);
    assert("coverage"@.len() == 8);
    assert("error_analysis"@.len() == 14);
    assert("passes"@[0] != "config"@[0]);
    assert("total_failures"@[0] != "error_analysis"@[0]);
    let pairs = doc.json.shape()->Object_0;
    assert(pairs[0].0 == "passes"@);
    assert(pairs[1].0 == "config"@);
    assert(pairs[2].0 == "elapsed"@);
    assert(pairs[3].0 == "total_failures"@);
    assert(pairs[4].0 == "coverage"@);
    json::lemma_found_at(doc.json, 0);
    json::lemma_found_at(doc.json, 1);
    json::lemma_found_at(doc.json, 2);
    json::lemma_found_at(doc.json, 3);
    json::lemma_found_at(doc.json, 4);
    let passes = json::member(doc.root(), "passes"@)->0;
    json::lemma_items_by_shape(passes);
    let items = json::items_in(Some(passes));
    assert(items.len() == json::item_shapes(items).len());
    assert forall|i: int| 0 <= i < results.passes@.len() implies reads_as_pass(
        #[trigger] items[i],
        results.passes@[i],
        units,
    ) by {
        assert(json::item_shapes(items)[i] == items[i].shape());
        lemma_pass_reads_back(items[i], results.passes@[i], units);
    }
    lemma_config_reads_back(json::member(doc.root(), "config"@)->0, results.config);
    lemma_coverage_reads_back(json::member(doc.root(), "coverage"@)->0, results.coverage);
    if let Some(a) = results.error_analysis {
        assert(pairs[5].0 == "error_analysis"@);
        json::lemma_found_at(doc.json, 5);
        lemma_analysis_reads_back(json::member(doc.root(), "error_analysis"@)->0, a);
    } else {
        assert(pairs.len() == 5);
        json::lemma_not_found(doc.json, "error_analysis"@);
    }
}

/// Whether a value reads as a change of error counters: of which module, by how much each
/// of the two went up, and the label if and only if there is one.
pub open spec fn reads_as_delta(node: Json, delta: EccDelta) -> bool {
    &&& json::unsigned_in(json::member(Some(node), "mc"@)) == Some(delta.mc as u64)
    &&& json::unsigned_in(json::member(Some(node), "dimm_index"@)) == Some(delta.dimm_index as u64)
    &&& json::unsigned_in(json::member(Some(node), "ce_delta"@)) == Some(delta.ce_delta)
    &&& json::unsigned_in(json::member(Some(node), "ue_delta"@)) == Some(delta.ue_delta)
    &&& match delta.label {
        Some(label) => json::text_in(json::member(Some(node), "label"@)) == Some(label@),
        None => json::member(Some(node), "label"@) is None,
    }
}

/// The object of a change of error counters reads as that change.
pub proof fn lemma_delta_reads_back(node: Json, delta: EccDelta)
    requires
        node.shape() == delta_shape(delta),
    ensures
        reads_as_delta(node, delta),
{
    reveal_strlit("mc");
    reveal_strlit("dimm_index");
    reveal_strlit("label");
    reveal_strlit("ce_delta");
    reveal_strlit("ue_delta");
    assert("mc"@.len() == 2);
    assert("dimm_index"@.len() == 10);
    assert("label"@.len() == 5);
    assert("ce_delta"@.len() == 8);
    assert("ue_delta"@.len() == 8);
    assert("ce_delta"@[0] != "ue_delta"@[0]);
    let pairs = node.shape()->Object_0;
    if delta.label is Some {
        assert(pairs[0].0 == "mc"@);
        assert(pairs[1].0 == "dimm_index"@);
        assert(pairs[2].0 == "label"@);
        assert(pairs[3].0 == "ce_delta"@);
        assert(pairs[4].0 == "ue_delta"@);
        json::lemma_found_at(node, 0);
        json::lemma_found_at(node, 1);
        json::lemma_found_at(node, 2);
        json::lemma_found_at(node, 3);
        json::lemma_found_at(node, 4);
    } else {
        assert(pairs[0].0 == "mc"@);
        assert(pairs[1].0 == "dimm_index"@);
        assert(pairs[2].0 == "ce_delta"@);
        assert(pairs[3].0 == "ue_delta"@);
        assert(pairs.len() == 4);
        json::lemma_found_at(node, 0);
        json::lemma_found_at(node, 1);
        json::lemma_found_at(node, 2);
        json::lemma_found_at(node, 3);
        json::lemma_not_found(node, "label"@);
    }
}

/// Whether a value reads as the failure in a document: each word under its own name, and
/// the physical address as text, or null if it is not known.
pub open spec fn reads_as_failure(node: Json, f: Failure) -> bool {
    &&& json::unsigned_in(json::member(Some(node), "addr"@)) == Some(f.addr as u64)
    &&& json::unsigned_in(json::member(Some(node), "expected"@)) == Some(f.expected)
    &&& json::unsigned_in(json::member(Some(node), "actual"@)) == Some(f.actual)
    &&& json::unsigned_in(json::member(Some(node), "word_index"@)) == Some(f.word_index as u64)
    &&& match f.phys_addr {
        Some(p) => {
            &&& json::text_in(json::member(Some(node), "phys_addr"@)) matches Some(s)
            &&& s.len() > 2 && s[0] == '0' && s[1] == 'x' && text::digits_value(s.skip(2), 16)
                == Some(p.0 as int)
        },
        None => json::member(Some(node), "phys_addr"@) == Some(Json::Null),
    }
}

proof fn lemma_failure_reads_back(node: Json, f: Failure)
    requires
        node.shape() == failure_shape(f),
    ensures
        reads_as_failure(node, f),
{
    reveal_strlit("addr");
    reveal_strlit("expected");
    reveal_strlit("actual");
    reveal_strlit("word_index");
    reveal_strlit("phys_addr");
    assert("addr"@.len() == 4);
    assert("expected"@.len() == 8);
    assert("actual"@.len() == 6);
    assert("word_index"@.len() == 10);
    assert("phys_addr"@.len() == 9);
    let pairs = node.shape()->Object_0;
    assert(pairs[0].0 == "addr"@);
    assert(pairs[1].0 == "expected"@);
    assert(pairs[2].0 == "actual"@);
    assert(pairs[3].0 == "word_index"@);
    assert(pairs[4].0 == "phys_addr"@);
    json::lemma_found_at(node, 0);
    json::lemma_found_at(node, 1);
    json::lemma_found_at(node, 2);
    json::lemma_found_at(node, 3);
    json::lemma_found_at(node, 4);
    if let Some(p) = f.phys_addr {
        reveal_strlit("0x");
        text::law_digits_read_back(p.0 as int, 16);
        assert(p.shown().skip(2) =~= text::hex(p.0 as int));
    }
}

/// What came of a pattern stands in its object with every failure, in order, each as it
/// was found.
pub proof fn law_failures_stand_in_the_document<U: Units>(
    node: Json,
    result: PatternResult,
    units: U,
)
    requires
        node.shape() == result_shape(result, units),
    ensures
        reads_as_result(node, result, units),
        json::items_in(json::member(Some(node), "failures"@)).len() == result.failures@.len(),
        forall|i: int|
            0 <= i < result.failures@.len() ==> reads_as_failure(
                #[trigger] json::items_in(json::member(Some(node), "failures"@))[i],
                result.failures@[i],
            ),
{
    lemma_result_reads_back(node, result, units);
    reveal_strlit("pattern");
    reveal_strlit("failures");
    assert("pattern"@.len() == 7);
    assert("failures"@.len() == 8);
    let pairs = node.shape()->Object_0;
    assert(pairs[0].0 == "pattern"@);
    assert(pairs[1].0 == "failures"@);
    json::lemma_found_at(node, 1);
    let found = json::member(Some(node), "failures"@)->0;
    json::lemma_items_by_shape(found);
    let items = json::items_in(Some(found));
    assert(json::item_shapes(items).len() == result.failures@.len());
    assert forall|i: int| 0 <= i < result.failures@.len() implies reads_as_failure(
        #[trigger] items[i],
        result.failures@[i],
    ) by {
        assert(json::item_shapes(items)[i] == failure_shapes(result.failures@)[i]);
        lemma_failure_reads_back(items[i], result.failures@[i]);
    }
}

proof fn lemma_result_reads_back<U: Units>(node: Json, result: PatternResult, units: U)
    requires
        node.shape() == result_shape(result, units),
    ensures
        reads_as_result(node, result, units),
{
    reveal_strlit("pattern");
    reveal_strlit("failures");
    reveal_strlit("elapsed");
    reveal_strlit("bytes_processed");
    reveal_strlit("interrupted");
    reveal_strlit("capped");
    assert("pattern"@.len() == 7);
    assert("failures"@.len() == 8);
    assert("elapsed"@.len() == 7);
    assert("bytes_processed"@.len() == 15);
    assert("interrupted"@.len() == 11);
    assert("capped"@.len() == 6);
    assert("pattern"@[0] != "elapsed"@[0]);
    let pairs = node.shape()->Object_0;
    assert(pairs[0].0 == "pattern"@);
    assert(pairs[1].0 == "failures"@);
    assert(pairs[2].0 == "elapsed"@);
    assert(pairs[3].0 == "bytes_processed"@);
    assert(pairs[4].0 == "interrupted"@);
    assert(pairs[5].0 == "capped"@);
    json::lemma_found_at(node, 0);
    json::lemma_found_at(node, 1);
    json::lemma_found_at(node, 2);
    json::lemma_found_at(node, 3);
    json::lemma_found_at(node, 4);
    json::lemma_found_at(node, 5);
    let failures = json::member(Some(node), "failures"@)->0;
    json::lemma_items_by_shape(failures);
    assert(json::item_shapes(json::items_in(Some(failures))).len() == result.failures@.len());
}

proof fn lemma_pass_reads_back<U: Units>(node: Json, pass: PassResult, units: U)
    requires
        node.shape() == pass_shape(pass, units),
    ensures
        reads_as_pass(node, pass, units),
{
    reveal_strlit("pass_number");
    reveal_strlit("pattern_results");
    reveal_strlit("ecc_deltas");
    assert("pass_number"@.len() == 11);
    assert("pattern_results"@.len() == 15);
    assert("ecc_deltas"@.len() == 10);
    let pairs = node.shape()->Object_0;
    assert(pairs[0].0 == "pass_number"@);
    assert(pairs[1].0 == "pattern_results"@);
    assert(pairs[2].0 == "ecc_deltas"@);
    json::lemma_found_at(node, 0);
    json::lemma_found_at(node, 1);
    let list = json::member(Some(node), "pattern_results"@)->0;
    json::lemma_items_by_shape(list);
    let doc = PassDoc { json: &node };
    let items = doc.patterns();
    let results = pass.pattern_results@;
    assert(json::item_shapes(items).len() == results.len());
    assert forall|i: int| 0 <= i < items.len() implies reads_as_result(
        #[trigger] items[i],
        results[i],
        units,
    ) by {
        assert(json::item_shapes(items)[i] == items[i].shape());
        lemma_result_reads_back(items[i], results[i], units);
    }
    lemma_failures_read_back(items, results, units, results.len() as int);
}

proof fn lemma_failures_read_back<U: Units>(
    items: Seq<Json>,
    results: Seq<PatternResult>,
    units: U,
    n: int,
)
    requires
        0 <= n <= items.len(),
        items.len() == results.len(),
        forall|i: int|
            0 <= i < items.len() ==> reads_as_result(#[trigger] items[i], results[i], units),
    ensures
        super::failures_among(items, n) == runner::pattern_failures(results, n),
    decreases n,
{
    if n > 0 {
        lemma_failures_read_back(items, results, units, n - 1);
        assert(reads_as_result(items[n - 1], results[n - 1], units));
    }
}

proof fn lemma_config_reads_back(node: Json, config: RunConfig)
    requires
        node.shape() == config_shape(config),
    ensures
        reads_as_config(Some(node), config),
{
    reveal_strlit("size");
    reveal_strlit("passes");
    reveal_strlit("patterns");
    reveal_strlit("workers");
    assert("size"@.len() == 4);
    assert("passes"@.len() == 6);
    assert("patterns"@.len() == 8);
    assert("workers"@.len() == 7);
    let pairs = node.shape()->Object_0;
    assert(pairs[0].0 == "size"@);
    assert(pairs[1].0 == "passes"@);
    assert(pairs[2].0 == "patterns"@);
    assert(pairs[3].0 == "workers"@);
    json::lemma_found_at(node, 0);
    json::lemma_found_at(node, 1);
    json::lemma_found_at(node, 3);
}

proof fn lemma_cumulative_reads_back(node: Json, c: Cumulative)
    requires
        node.shape() == cumulative_shape(c),
    ensures
        reads_as_cumulative(Some(node), c),
{
    reveal_strlit("new_bytes");
    reveal_strlit("cumulative_bytes");
    reveal_strlit("runs");
    assert("new_bytes"@.len() == 9);
    assert("cumulative_bytes"@.len() == 16);
    assert("runs"@.len() == 4);
    let pairs = node.shape()->Object_0;
    assert(pairs[0].0 == "new_bytes"@);
    assert(pairs[1].0 == "cumulative_bytes"@);
    assert(pairs[2].0 == "runs"@);
    json::lemma_found_at(node, 0);
    json::lemma_found_at(node, 1);
    json::lemma_found_at(node, 2);
}

proof fn lemma_gap_reads_back(node: Json, gap: GapReport)
    requires
        node.shape() == gap_shape(gap),
    ensures
        reads_as_gap(Some(node), gap),
{
    reveal_strlit("free_bytes");
    reveal_strlit("reclaimable_bytes");
    reveal_strlit("in_use_bytes");
    reveal_strlit("unreachable_bytes");
    reveal_strlit("unknown_bytes");
    assert("free_bytes"@.len() == 10);
    assert("reclaimable_bytes"@.len() == 17);
    assert("in_use_bytes"@.len() == 12);
    assert("unreachable_bytes"@.len() == 17);
    assert("unknown_bytes"@.len() == 13);
    assert("reclaimable_bytes"@[0] != "unreachable_bytes"@[0]);
    let pairs = node.shape()->Object_0;
    assert(pairs[0].0 == "free_bytes"@);
    assert(pairs[1].0 == "reclaimable_bytes"@);
    assert(pairs[2].0 == "in_use_bytes"@);
    assert(pairs[3].0 == "unreachable_bytes"@);
    json::lemma_found_at(node, 0);
    json::lemma_found_at(node, 1);
    json::lemma_found_at(node, 2);
    json::lemma_found_at(node, 3);
    if gap.unknown_bytes == 0 {
        json::lemma_not_found(node, "unknown_bytes"@);
    } else {
        json::lemma_found_at(node, 4);
    }
}

proof fn lemma_coverage_reads_back(node: Json, coverage: Coverage)
    requires
        node.shape() == coverage_shape(coverage),
    ensures
        reads_as_coverage(node, coverage),
{
    reveal_strlit("status");
    reveal_strlit("tested_bytes");
    reveal_strlit("total_bytes");
    reveal_strlit("source");
    reveal_strlit("cumulative");
    reveal_strlit("gap");
    reveal_strlit("measured");
    reveal_strlit("unavailable");
    reveal_strlit("proc_iomem");
    reveal_strlit("mem_total");
    assert("status"@.len() == 6);
    assert("tested_bytes"@.len() == 12);
    assert("total_bytes"@.len() == 11);
    assert("source"@.len() == 6);
    assert("cumulative"@.len() == 10);
    assert("gap"@.len() == 3);
    assert("measured"@.len() == 8);
    assert("unavailable"@.len() == 11);
    assert("proc_iomem"@.len() == 10);
    assert("mem_total"@.len() == 9);
    assert("status"@[1] != "source"@[1]);
    let pairs = node.shape()->Object_0;
    assert(pairs[0].0 == "status"@);
    json::lemma_found_at(node, 0);
    if let Coverage::Measured { cumulative, gap, .. } = coverage {
        assert(pairs[1].0 == "tested_bytes"@);
        assert(pairs[2].0 == "total_bytes"@);
        assert(pairs[3].0 == "source"@);
        json::lemma_found_at(node, 1);
        json::lemma_found_at(node, 2);
        json::lemma_found_at(node, 3);
        if let Some(c) = cumulative {
            assert(pairs[4].0 == "cumulative"@);
            json::lemma_found_at(node, 4);
            lemma_cumulative_reads_back(json::member(Some(node), "cumulative"@)->0, c);
        } else {
            assert(gap is Some ==> pairs.len() == 5 && pairs[4].0 == "gap"@);
            assert(gap is None ==> pairs.len() == 4);
            json::lemma_not_found(node, "cumulative"@);
        }
        if let Some(g) = gap {
            assert(pairs.last().0 == "gap"@);
            json::lemma_found_at(node, pairs.len() - 1);
            lemma_gap_reads_back(json::member(Some(node), "gap"@)->0, g);
        } else {
            json::lemma_not_found(node, "gap"@);
        }
    } else {
        json::lemma_not_found(node, "cumulative"@);
        json::lemma_not_found(node, "gap"@);
    }
}

proof fn lemma_flips_read_back(items: Seq<Json>, flips: Seq<(u8, u32)>, n: int)
    requires
        0 <= n <= flips.len(),
        json::item_shapes(items) == flip_shapes(flips),
    ensures
        super::counted_bits(items, n) == flips.take(n),
    decreases n,
{
    if n > 0 {
        lemma_flips_read_back(items, flips, n - 1);
        assert(json::item_shapes(items).len() == flips.len());
        let entry = items[n - 1];
        assert(entry.shape() == flip_shapes(flips)[n - 1]);
        json::lemma_items_by_shape(entry);
        let pair = json::items_in(Some(entry));
        assert(json::item_shapes(pair).len() == 2);
        assert(json::item_shapes(pair)[0] == pair[0].shape());
        assert(json::item_shapes(pair)[1] == pair[1].shape());
        assert(super::counted_bit(entry) == Some(flips[n - 1]));
        assert(flips.take(n) =~= flips.take(n - 1).push(flips[n - 1]));
    } else {
        assert(flips.take(n) =~= seq![]);
    }
}

proof fn lemma_tally_reads_back(items: Seq<Json>, tally: Seq<(Pattern, usize)>, n: int)
    requires
        0 <= n <= tally.len(),
        json::item_shapes(items) == tally_shapes(tally),
    ensures
        super::counted_names(items, n) == named_tally(tally).take(n),
    decreases n,
{
    if n > 0 {
        lemma_tally_reads_back(items, tally, n - 1);
        assert(json::item_shapes(items).len() == tally.len());
        let entry = items[n - 1];
        assert(entry.shape() == tally_shapes(tally)[n - 1]);
        json::lemma_items_by_shape(entry);
        let pair = json::items_in(Some(entry));
        assert(json::item_shapes(pair).len() == 2);
        assert(json::item_shapes(pair)[0] == pair[0].shape());
        assert(json::item_shapes(pair)[1] == pair[1].shape());
        assert(super::counted_name(entry) == Some(named_tally(tally)[n - 1]));
        assert(named_tally(tally).take(n) =~= named_tally(tally).take(n - 1).push(
            named_tally(tally)[n - 1],
        ));
    } else {
        assert(named_tally(tally).take(n) =~= seq![]);
    }
}

proof fn lemma_positions_read_back(items: Seq<Json>, positions: Seq<u8>, n: int)
    requires
        0 <= n <= positions.len(),
        json::item_shapes(items) == position_shapes(positions),
    ensures
        super::positions_shown(items, n) == Seq::new(
            n as nat,
            |i: int| "bit "@ + text::decimal(positions[i] as int),
        ),
    decreases n,
{
    let shown = Seq::new(n as nat, |i: int| "bit "@ + text::decimal(positions[i] as int));
    if n > 0 {
        lemma_positions_read_back(items, positions, n - 1);
        assert(json::item_shapes(items).len() == positions.len());
        assert(items[n - 1].shape() == position_shapes(positions)[n - 1]);
        assert(json::unsigned_in(Some(items[n - 1])) == Some(positions[n - 1] as u64));
        assert(super::positions_shown(items, n) =~= shown);
    } else {
        assert(super::positions_shown(items, n) =~= shown);
    }
}

proof fn lemma_kind_reads_back(node: Json, kind: ErrorClassification)
    requires
        json::member(Some(node), "classification"@) matches Some(c) && c.shape() == kind_shape(kind),
    ensures
        (ErrorAnalysisDoc { json: &node }).kind() == kind_text(kind),
{
    let doc = ErrorAnalysisDoc { json: &node };
    let value = json::member(Some(node), "classification"@)->0;
    reveal_strlit("NoErrors");
    reveal_strlit("Coupling");
    reveal_strlit("Mixed");
    assert("NoErrors"@.len() == 8);
    assert("Coupling"@.len() == 8);
    assert("Mixed"@.len() == 5);
    assert("NoErrors"@[0] != "Coupling"@[0]);
    if let ErrorClassification::StuckBit { positions } = kind {
        json::lemma_found_at(value, 0);
        let inner = json::member(Some(value), "StuckBit"@)->0;
        json::lemma_found_at(inner, 0);
        let list = json::member(Some(inner), "positions"@)->0;
        json::lemma_items_by_shape(list);
        let items = json::items_in(Some(list));
        assert(json::item_shapes(items).len() == positions@.len());
        lemma_positions_read_back(items, positions@, positions@.len() as int);
        assert(doc.stuck_positions() == Some(list));
    }
}

proof fn lemma_analysis_reads_back(node: Json, a: ErrorAnalysis)
    requires
        node.shape() == analysis_shape(a),
    ensures
        reads_as_analysis(node, a),
{
    reveal_strlit("classification");
    reveal_strlit("union_xor_mask");
    reveal_strlit("lowest_phys");
    reveal_strlit("highest_phys");
    reveal_strlit("bit_positions");
    reveal_strlit("per_pattern_failures");
    assert("classification"@.len() == 14);
    assert("union_xor_mask"@.len() == 14);
    assert("lowest_phys"@.len() == 11);
    assert("highest_phys"@.len() == 12);
    assert("bit_positions"@.len() == 13);
    assert("per_pattern_failures"@.len() == 20);
    assert("classification"@[0] != "union_xor_mask"@[0]);
    let pairs = node.shape()->Object_0;
    assert(pairs[0].0 == "classification"@);
    assert(pairs[1].0 == "union_xor_mask"@);
    assert(pairs[2].0 == "lowest_phys"@);
    assert(pairs[3].0 == "highest_phys"@);
    assert(pairs[4].0 == "bit_positions"@);
    assert(pairs[5].0 == "per_pattern_failures"@);
    json::lemma_found_at(node, 0);
    json::lemma_found_at(node, 1);
    json::lemma_found_at(node, 2);
    json::lemma_found_at(node, 3);
    json::lemma_found_at(node, 4);
    json::lemma_found_at(node, 5);
    lemma_kind_reads_back(node, a.classification);
    let bits = json::member(Some(node), "bit_positions"@)->0;
    json::lemma_items_by_shape(bits);
    let bit_items = json::items_in(Some(bits));
    assert(json::item_shapes(bit_items).len() == a.bit_positions@.len());
    lemma_flips_read_back(bit_items, a.bit_positions@, a.bit_positions@.len() as int);
    assert(a.bit_positions@.take(a.bit_positions@.len() as int) =~= a.bit_positions@);
    let names = json::member(Some(node), "per_pattern_failures"@)->0;
    json::lemma_items_by_shape(names);
    let name_items = json::items_in(Some(names));
    let tally = a.per_pattern_failures@;
    assert(json::item_shapes(name_items).len() == tally.len());
    lemma_tally_reads_back(name_items, tally, tally.len() as int);
    assert(named_tally(tally).take(tally.len() as int) =~= named_tally(tally));
}

/// The changes of the error counters stand with the pass in which they came.
pub proof fn law_counter_changes_stand_with_the_pass<U: Units>(
    node: Json,
    pass: PassResult,
    units: U,
)
    requires
        node.shape() == pass_shape(pass, units),
    ensures
        reads_as_pass(node, pass, units),
        json::items_in(json::member(Some(node), "ecc_deltas"@)).len() == pass.ecc_deltas@.len(),
        forall|i: int|
            0 <= i < pass.ecc_deltas@.len() ==> reads_as_delta(
                #[trigger] json::items_in(json::member(Some(node), "ecc_deltas"@))[i],
                pass.ecc_deltas@[i],
            ),
{
    lemma_pass_reads_back(node, pass, units);
    reveal_strlit("pass_number");
    reveal_strlit("pattern_results");
    reveal_strlit("ecc_deltas");
    assert("pass_number"@.len() == 11);
    assert("pattern_results"@.len() == 15);
    assert("ecc_deltas"@.len() == 10);
    let pairs = node.shape()->Object_0;
    assert(pairs[0].0 == "pass_number"@);
    assert(pairs[1].0 == "pattern_results"@);
    assert(pairs[2].0 == "ecc_deltas"@);
    json::lemma_found_at(node, 2);
    let found = json::member(Some(node), "ecc_deltas"@)->0;
    json::lemma_items_by_shape(found);
    let items = json::items_in(Some(found));
    assert(json::item_shapes(items).len() == pass.ecc_deltas@.len());
    assert forall|i: int| 0 <= i < pass.ecc_deltas@.len() implies reads_as_delta(
        #[trigger] items[i],
        pass.ecc_deltas@[i],
    ) by {
        assert(json::item_shapes(items)[i] == delta_shapes(pass.ecc_deltas@)[i]);
        lemma_delta_reads_back(items[i], pass.ecc_deltas@[i]);
    }
}

/// The patterns of a run stand in order under its configuration.
pub proof fn law_patterns_stand_in_the_configuration(node: Json, config: RunConfig)
    requires
        node.shape() == config_shape(config),
    ensures
        reads_as_config(Some(node), config),
        json::items_in(json::member(Some(node), "patterns"@)).len() == config.patterns@.len(),
        forall|i: int|
            0 <= i < config.patterns@.len() ==> json::text_in(
                Some(#[trigger] json::items_in(json::member(Some(node), "patterns"@))[i]),
            ) == Some(pattern_key(config.patterns@[i])),
{
    lemma_config_reads_back(node, config);
    reveal_strlit("size");
    reveal_strlit("passes");
    reveal_strlit("patterns");
    assert("size"@.len() == 4);
    assert("passes"@.len() == 6);
    assert("patterns"@.len() == 8);
    let pairs = node.shape()->Object_0;
    assert(pairs[0].0 == "size"@);
    assert(pairs[1].0 == "passes"@);
    assert(pairs[2].0 == "patterns"@);
    json::lemma_found_at(node, 2);
    let found = json::member(Some(node), "patterns"@)->0;
    json::lemma_items_by_shape(found);
    let items = json::items_in(Some(found));
    assert(json::item_shapes(items).len() == config.patterns@.len());
    assert forall|i: int| 0 <= i < config.patterns@.len() implies json::text_in(
        Some(#[trigger] items[i]),
    ) == Some(pattern_key(config.patterns@[i])) by {
        assert(json::item_shapes(items)[i] == pattern_shapes(config.patterns@)[i]);
        assert(items[i].shape() == Shape::Text(pattern_key(config.patterns@[i])));
    }
}

/// What a pattern is listed under follows its name: it begins with the name's first word,
/// and goes on with the first letter of the second if there is one. So no two patterns
/// are listed alike.
pub proof fn law_key_follows_the_name(pattern: Pattern)
    ensures
        match text::split_at_first(pattern.name(), ' ') {
            Some((first, second)) => pattern_key(pattern).take(first.len() as int) == first
                && pattern_key(pattern)[first.len() as int] == second[0],
            None => pattern_key(pattern) == pattern.name(),
        },
        forall|other: Pattern| other != pattern ==> #[trigger] pattern_key(other) != pattern_key(
            pattern,
        ),
{
    reveal_strlit("SolidBits");
    reveal_strlit("WalkingOnes");
    reveal_strlit("WalkingZeros");
    reveal_strlit("Checkerboard");
    reveal_strlit("StuckAddress");
    reveal_strlit("MarchCMinus");
    assert("SolidBits"@.len() == 9);
    assert("WalkingOnes"@.len() == 11);
    assert("WalkingZeros"@.len() == 12);
    assert("Checkerboard"@.len() == 12);
    assert("StuckAddress"@.len() == 12);
    assert("MarchCMinus"@.len() == 11);
    assert("WalkingOnes"@[0] != "MarchCMinus"@[0]);
    assert("WalkingZeros"@[0] == 'W');
    assert("Checkerboard"@[0] == 'C');
    assert("StuckAddress"@[0] == 'S');
    lemma_key_begins(pattern);
}

proof fn lemma_key_begins(pattern: Pattern)
    ensures
        match text::split_at_first(pattern.name(), ' ') {
            Some((first, second)) => pattern_key(pattern).take(first.len() as int) == first
                && pattern_key(pattern)[first.len() as int] == second[0],
            None => pattern_key(pattern) == pattern.name(),
        },
{
    match pattern {
        Pattern::SolidBits => {
            reveal_strlit("Solid");
            reveal_strlit("Bits");
            reveal_strlit("Solid Bits");
            reveal_strlit("SolidBits");
            assert("Solid Bits"@ =~= "Solid"@ + seq![' '] + "Bits"@);
            text::law_split_at_first("Solid"@, ' ', "Bits"@);
            assert("SolidBits"@.take(5) =~= "Solid"@);
        },
        Pattern::WalkingOnes => {
            reveal_strlit("Walking");
            reveal_strlit("Ones");
            reveal_strlit("Walking Ones");
            reveal_strlit("WalkingOnes");
            assert("Walking Ones"@ =~= "Walking"@ + seq![' '] + "Ones"@);
            text::law_split_at_first("Walking"@, ' ', "Ones"@);
            assert("WalkingOnes"@.take(7) =~= "Walking"@);
        },
        Pattern::WalkingZeros => {
            reveal_strlit("Walking");
            reveal_strlit("Zeros");
            reveal_strlit("Walking Zeros");
            reveal_strlit("WalkingZeros");
            assert("Walking Zeros"@ =~= "Walking"@ + seq![' '] + "Zeros"@);
            text::law_split_at_first("Walking"@, ' ', "Zeros"@);
            assert("WalkingZeros"@.take(7) =~= "Walking"@);
        },
        Pattern::Checkerboard => {
            reveal_strlit("Checkerboard");
            text::lemma_position_of("Checkerboard"@, ' ', 0);
            assert("Checkerboard"@.len() == 12);
            assert forall|i: int| 0 <= i < 12 implies #[trigger] "Checkerboard"@[i] != ' ' by {}
        },
        Pattern::StuckAddress => {
            reveal_strlit("Stuck");
            reveal_strlit("Address");
            reveal_strlit("Stuck Address");
            reveal_strlit("StuckAddress");
            assert("Stuck Address"@ =~= "Stuck"@ + seq![' '] + "Address"@);
            text::law_split_at_first("Stuck"@, ' ', "Address"@);
            assert("StuckAddress"@.take(5) =~= "Stuck"@);
        },
        Pattern::MarchCMinus => {
            reveal_strlit("March");
            reveal_strlit("C-");
            reveal_strlit("March C-");
            reveal_strlit("MarchCMinus");
            assert("March C-"@ =~= "March"@ + seq![' '] + "C-"@);
            text::law_split_at_first("March"@, ' ', "C-"@);
            assert("MarchCMinus"@.take(5) =~= "March"@);
        },
    }
}

/// The words that stand for the kind of errors.
pub proof fn law_kind_is_named(node: Json, kind: ErrorClassification)
    requires
        node.shape() == kind_shape(kind),
    ensures
        kind is NoErrors ==> json::text_in(Some(node)) == Some("NoErrors"@),
        kind is Coupling ==> json::text_in(Some(node)) == Some("Coupling"@),
        kind is Mixed ==> json::text_in(Some(node)) == Some("Mixed"@),
        kind matches ErrorClassification::StuckBit { positions } ==> {
            let listed = json::items_in(
                json::member(json::member(Some(node), "StuckBit"@), "positions"@),
            );
            &&& listed.len() == positions@.len()
            &&& forall|i: int|
                0 <= i < listed.len() ==> json::unsigned_in(Some(#[trigger] listed[i])) == Some(
                    positions@[i] as u64,
                )
        },
{
    if let ErrorClassification::StuckBit { positions } = kind {
        json::lemma_found_at(node, 0);
        let inner = json::member(Some(node), "StuckBit"@)->0;
        json::lemma_found_at(inner, 0);
        let list = json::member(Some(inner), "positions"@)->0;
        json::lemma_items_by_shape(list);
        let items = json::items_in(Some(list));
        assert(json::item_shapes(items).len() == positions@.len());
        assert forall|i: int| 0 <= i < items.len() implies json::unsigned_in(
            Some(#[trigger] items[i]),
        ) == Some(positions@[i] as u64) by {
            assert(json::item_shapes(items)[i] == position_shapes(positions@)[i]);
            assert(items[i].shape() == Shape::Unsigned(positions@[i] as u64));
        }
    }
}

/// The words that stand for whether coverage was measured, and against what.
pub proof fn law_coverage_is_named(node: Json, coverage: Coverage)
    requires
        node.shape() == coverage_shape(coverage),
    ensures
        coverage is Unavailable ==> json::text_in(json::member(Some(node), "status"@)) == Some(
            "unavailable"@,
        ),
        coverage matches Coverage::Measured { tested_bytes, total_bytes, source, .. } ==> {
            &&& json::text_in(json::member(Some(node), "status"@)) == Some("measured"@)
            &&& json::unsigned_in(json::member(Some(node), "tested_bytes"@)) == Some(tested_bytes)
            &&& json::unsigned_in(json::member(Some(node), "total_bytes"@)) == Some(total_bytes)
            &&& source is ProcIomem ==> json::text_in(json::member(Some(node), "source"@)) == Some(
                "proc_iomem"@,
            )
            &&& source is MemTotal ==> json::text_in(json::member(Some(node), "source"@)) == Some(
                "mem_total"@,
            )
        },
{
    reveal_strlit("status");
    reveal_strlit("tested_bytes");
    reveal_strlit("total_bytes");
    reveal_strlit("source");
    assert("status"@.len() == 6);
    assert("tested_bytes"@.len() == 12);
    assert("total_bytes"@.len() == 11);
    assert("source"@.len() == 6);
    assert("status"@[1] != "source"@[1]);
    let pairs = node.shape()->Object_0;
    assert(pairs[0].0 == "status"@);
    json::lemma_found_at(node, 0);
    if coverage is Measured {
        assert(pairs[1].0 == "tested_bytes"@);
        assert(pairs[2].0 == "total_bytes"@);
        assert(pairs[3].0 == "source"@);
        json::lemma_found_at(node, 1);
        json::lemma_found_at(node, 2);
        json::lemma_found_at(node, 3);
    }
}

} // verus!
