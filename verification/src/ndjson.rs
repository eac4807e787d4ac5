//! The event stream: what of a run is written, one JSON object to a line, for
//! programs that read it.
//!
//! The stream is versioned. Events of a run are projected onto it, so that they
//! can change without changing what readers see.

use crate::clock::{self, timestamp_text};
use crate::dimm::DimmTopology;
use crate::edac::EccDelta;
use crate::events::{LogLevel, RegionEvent, RunEvent};
use crate::failure::{self, Failure};
use crate::pattern::Pattern;
use crate::physmem::phys::MapStats;
use crate::results::document::{self, deltas_json, texts_json};
use crate::results::json::{self, list, object, put, Json, Shape};
use crate::results::serial::{self, compact};
use crate::text::{self, hex16_string, same_text};
use crate::units::Units;
use vstd::prelude::*;
use vstd::string::StringExecFns;

verus! {

/// The version of the stream.
pub const SCHEMA_VERSION: u32 = 1;

/// A line of the stream. Times are in nanoseconds here and are written in
/// milliseconds.
#[allow(inconsistent_fields)]
#[derive(Debug)]
pub enum Event {
    Header { schema_version: u32 },
    RunStart {
        size: usize,
        passes: usize,
        patterns: Vec<String>,
        regions: usize,
        parallel: bool,
    },
    MapInfo {
        total_pages: usize,
        huge_pages: usize,
        thp_pages: usize,
        hwpoison_pages: usize,
        unevictable_pages: usize,
    },
    DimmInfo { dimm_count: usize },
    PassStart { region: usize, pass: usize, total_passes: usize },
    TestStart { region: usize, pattern: String, pass: usize },
    Progress {
        region: usize,
        pattern: String,
        pass: usize,
        sub_pass: u64,
        total_sub_passes: u64,
    },
    TestPass {
        region: usize,
        pattern: String,
        pass: usize,
        duration: u64,
        bytes_processed: u64,
    },
    TestFail {
        region: usize,
        pattern: String,
        pass: usize,
        duration: u64,
        bytes_processed: u64,
        failures: Vec<FailureRecord>,
    },
    PassComplete { region: usize, pass: usize, failures: usize, duration: u64 },
    EccDeltas { region: usize, pass: usize, deltas: Vec<EccDelta> },
    /// The fields are left out if there are none.
    Log {
        level: &'static str,
        target: String,
        message: String,
        fields: Option<Vec<(String, String)>>,
    },
    RunComplete { passes: usize, total_failures: usize, duration: u64 },
}

/// A failure in the stream. Addresses and words are in hexadecimal.
#[derive(Debug)]
pub struct FailureRecord {
    pub addr: String,
    pub phys_addr: Option<String>,
    pub expected: String,
    pub actual: String,
    pub xor: String,
    pub flipped_bits: u32,
    pub word_index: usize,
}

/// A word with `0x` in front and sixteen digits.
pub open spec fn word_text(n: int) -> Seq<char> {
    "0x"@ + text::hex16(n)
}

fn show_word(n: u64) -> (s: String)
    ensures
        s@ == word_text(n as int),
{
    let mut s = String::new();
    s.append("0x");
    s.append(&hex16_string(n));
    assert(s@ =~= word_text(n as int));
    s
}

impl FailureRecord {
    /// Whether this is the record of `f`.
    pub open spec fn records(&self, f: Failure) -> bool {
        &&& self.addr@ == word_text(f.addr as int)
        &&& text::optional(self.phys_addr) == match f.phys_addr {
            Some(p) => Some(p.shown()),
            None => None,
        }
        &&& self.expected@ == word_text(f.expected as int)
        &&& self.actual@ == word_text(f.actual as int)
        &&& self.xor@ == word_text(f.spec_xor() as int)
        &&& self.flipped_bits == failure::set_bits(f.spec_xor()).len()
        &&& self.word_index == f.word_index
    }

    /// The record of a failure.
    pub fn from(f: &Failure) -> (record: Self)
        ensures
            record.records(*f),
    {
        FailureRecord {
            addr: show_word(f.addr as u64),
            phys_addr: match f.phys_addr {
                Some(p) => Some(p.to_string()),
                None => None,
            },
            expected: show_word(f.expected),
            actual: show_word(f.actual),
            xor: show_word(f.xor()),
            flipped_bits: f.flipped_bits(),
            word_index: f.word_index,
        }
    }
}

/// The names of patterns.
pub open spec fn pattern_names(patterns: Seq<Pattern>) -> Seq<Seq<char>> {
    Seq::new(patterns.len(), |i: int| patterns[i].name())
}

/// Whether `e` is the line for an event within a region.
pub open spec fn projects_region(region: usize, event: RegionEvent, e: Event) -> bool {
    match event {
        RegionEvent::PassStart { pass, total_passes } => e == (Event::PassStart {
            region,
            pass,
            total_passes,
        }),
        RegionEvent::TestStart { pattern, pass } => {
            &&& e matches Event::TestStart { region: r, pattern: name, pass: p }
            &&& r == region
            &&& name@ == pattern.name()
            &&& p == pass
        },
        RegionEvent::Progress { pattern, pass, sub_pass, total } => {
            &&& e matches Event::Progress {
                region: r,
                pattern: name,
                pass: p,
                sub_pass: s,
                total_sub_passes: t,
            }
            &&& r == region
            &&& name@ == pattern.name()
            &&& p == pass
            &&& s == sub_pass
            &&& t == total
        },
        RegionEvent::TestComplete { pattern, pass, elapsed, bytes, failures } => if failures@.len()
            == 0 {
            &&& e matches Event::TestPass {
                region: r,
                pattern: name,
                pass: p,
                duration: d,
                bytes_processed: b,
            }
            &&& r == region
            &&& name@ == pattern.name()
            &&& p == pass
            &&& d == elapsed
            &&& b == bytes
        } else {
            &&& e matches Event::TestFail {
                region: r,
                pattern: name,
                pass: p,
                duration: d,
                bytes_processed: b,
                failures: records,
            }
            &&& r == region
            &&& name@ == pattern.name()
            &&& p == pass
            &&& d == elapsed
            &&& b == bytes
            &&& records@.len() == failures@.len()
            &&& forall|i: int|
                0 <= i < records@.len() ==> (#[trigger] records@[i]).records(failures@[i])
        },
        RegionEvent::PassComplete { pass, failures, elapsed } => e == (Event::PassComplete {
            region,
            pass,
            failures,
            duration: elapsed,
        }),
        RegionEvent::EccDeltas { pass, deltas } => {
            &&& e matches Event::EccDeltas { region: r, pass: p, deltas: d }
            &&& r == region
            &&& p == pass
            &&& d@ == deltas@
        },
    }
}

/// Whether `e` is the line for an event.
pub open spec fn projects(event: RunEvent, e: Event) -> bool {
    match event {
        RunEvent::RunStart { size, passes, patterns, regions, parallel } => {
            &&& e matches Event::RunStart {
                size: s,
                passes: p,
                patterns: names,
                regions: r,
                parallel: par,
            }
            &&& s == size
            &&& p == passes
            &&& text::string_texts(names@) == pattern_names(patterns@)
            &&& r == regions
            &&& par == parallel
        },
        RunEvent::MapInfo { stats } => e == (Event::MapInfo {
            total_pages: stats.total_pages,
            huge_pages: stats.huge_pages,
            thp_pages: stats.thp_pages,
            hwpoison_pages: stats.hwpoison_pages,
            unevictable_pages: stats.unevictable_pages,
        }),
        RunEvent::DimmInfo { topology } => e == (Event::DimmInfo {
            dimm_count: topology.dimms@.len() as usize,
        }),
        RunEvent::Region(region, region_event) => projects_region(region, region_event, e),
        RunEvent::Log { level, target, message, fields } => {
            &&& e matches Event::Log { level: l, target: t, message: m, fields: f }
            &&& l@ == level.name()
            &&& t == target
            &&& m == message
            &&& f is None <==> fields@.len() == 0
            &&& f matches Some(pairs) ==> pairs@ == fields@
        },
        RunEvent::RunComplete => false,
    }
}

/// The line for an event within a region.
fn project_region(region: usize, event: &RegionEvent) -> (e: Event)
    ensures
        projects_region(region, *event, e),
{
    match event {
        RegionEvent::PassStart { pass, total_passes } => Event::PassStart {
            region,
            pass: *pass,
            total_passes: *total_passes,
        },
        RegionEvent::TestStart { pattern, pass } => Event::TestStart {
            region,
            pattern: pattern.to_string(),
            pass: *pass,
        },
        RegionEvent::Progress { pattern, pass, sub_pass, total } => Event::Progress {
            region,
            pattern: pattern.to_string(),
            pass: *pass,
            sub_pass: *sub_pass,
            total_sub_passes: *total,
        },
        RegionEvent::TestComplete { pattern, pass, elapsed, bytes, failures } => {
            if failures.len() == 0 {
                return Event::TestPass {
                    region,
                    pattern: pattern.to_string(),
                    pass: *pass,
                    duration: *elapsed,
                    bytes_processed: *bytes,
                };
            }
            let mut records: Vec<FailureRecord> = Vec::new();
            let mut i: usize = 0;
            while i < failures.len()
                invariant
                    i <= failures@.len(),
                    records@.len() == i,
                    forall|k: int| 0 <= k < i ==> (#[trigger] records@[k]).records(failures@[k]),
                decreases failures@.len() - i,
            {
                records.push(FailureRecord::from(&failures[i]));
                i = i + 1;
            }
            Event::TestFail {
                region,
                pattern: pattern.to_string(),
                pass: *pass,
                duration: *elapsed,
                bytes_processed: *bytes,
                failures: records,
            }
        },
        RegionEvent::PassComplete { pass, failures, elapsed } => Event::PassComplete {
            region,
            pass: *pass,
            failures: *failures,
            duration: *elapsed,
        },
        RegionEvent::EccDeltas { pass, deltas } => {
            let mut copies: Vec<EccDelta> = Vec::new();
            let mut i: usize = 0;
            while i < deltas.len()
                invariant
                    i <= deltas@.len(),
                    copies@ =~= deltas@.take(i as int),
                decreases deltas@.len() - i,
            {
                copies.push(deltas[i].clone());
                i = i + 1;
            }
            assert(copies@ =~= deltas@);
            Event::EccDeltas { region, pass: *pass, deltas: copies }
        },
    }
}

/// The line for an event, if the stream has one. The end of a run has none: it is
/// written with the totals once these are known.
pub fn project(event: &RunEvent) -> (line: Option<Event>)
    ensures
        line is None <==> *event is RunComplete,
        line matches Some(e) ==> projects(*event, e),
{
    match event {
        RunEvent::RunStart { size, passes, patterns, regions, parallel } => {
            let mut names: Vec<String> = Vec::new();
            let mut i: usize = 0;
            while i < patterns.len()
                invariant
                    i <= patterns@.len(),
                    names@.len() == i,
                    forall|k: int| 0 <= k < i ==> (#[trigger] names@[k])@ == patterns@[k].name(),
                decreases patterns@.len() - i,
            {
                names.push(patterns[i].to_string());
                i = i + 1;
            }
            assert(text::string_texts(names@) =~= pattern_names(patterns@));
            Some(
                Event::RunStart {
                    size: *size,
                    passes: *passes,
                    patterns: names,
                    regions: *regions,
                    parallel: *parallel,
                },
            )
        },
        RunEvent::MapInfo { stats } => Some(
            Event::MapInfo {
                total_pages: stats.total_pages,
                huge_pages: stats.huge_pages,
                thp_pages: stats.thp_pages,
                hwpoison_pages: stats.hwpoison_pages,
                unevictable_pages: stats.unevictable_pages,
            },
        ),
        RunEvent::DimmInfo { topology } => Some(
            Event::DimmInfo { dimm_count: topology.dimms.len() },
        ),
        RunEvent::Region(region, region_event) => Some(project_region(*region, region_event)),
        RunEvent::Log { level, target, message, fields } => {
            let fields = if fields.len() == 0 {
                None
            } else {
                let mut copies: Vec<(String, String)> = Vec::new();
                let mut i: usize = 0;
                while i < fields.len()
                    invariant
                        i <= fields@.len(),
                        copies@ =~= fields@.take(i as int),
                    decreases fields@.len() - i,
                {
                    copies.push((fields[i].0.clone(), fields[i].1.clone()));
                    i = i + 1;
                }
                assert(copies@ =~= fields@);
                Some(copies)
            };
            Some(
                Event::Log {
                    level: level.label(),
                    target: target.clone(),
                    message: message.clone(),
                    fields,
                },
            )
        },
        RunEvent::RunComplete => None,
    }
}

impl FailureRecord {
    /// The record as an object; the physical address is left out if it is not known.
    pub open spec fn shape(&self) -> Shape {
        Shape::Object(
            seq![("addr"@, Shape::Text(self.addr@))] + (match self.phys_addr {
                Some(p) => seq![("phys_addr"@, Shape::Text(p@))],
                None => seq![],
            }) + seq![
                ("expected"@, Shape::Text(self.expected@)),
                ("actual"@, Shape::Text(self.actual@)),
                ("xor"@, Shape::Text(self.xor@)),
                ("flipped_bits"@, Shape::Unsigned(self.flipped_bits as u64)),
                ("word_index"@, Shape::Unsigned(self.word_index as u64)),
            ],
        )
    }

    /// The record as an object.
    pub fn to_json(&self) -> (node: Json)
        ensures
            node.shape() == self.shape(),
    {
        let mut pairs: Vec<(String, Json)> = Vec::new();
        put(&mut pairs, "addr", Json::Text(self.addr.clone()));
        if let Some(p) = &self.phys_addr {
            put(&mut pairs, "phys_addr", Json::Text(p.clone()));
        }
        put(&mut pairs, "expected", Json::Text(self.expected.clone()));
        put(&mut pairs, "actual", Json::Text(self.actual.clone()));
        put(&mut pairs, "xor", Json::Text(self.xor.clone()));
        put(&mut pairs, "flipped_bits", Json::Unsigned(self.flipped_bits as u64));
        put(&mut pairs, "word_index", Json::Unsigned(self.word_index as u64));
        assert(json::pair_shapes(pairs@) =~= self.shape()->Object_0);
        object(pairs)
    }
}

/// Records as values.
pub open spec fn record_shapes(records: Seq<FailureRecord>) -> Seq<Shape> {
    Seq::new(records.len(), |i: int| records[i].shape())
}

fn records_json(records: &Vec<FailureRecord>) -> (node: Json)
    ensures
        node.shape() == Shape::List(record_shapes(records@)),
{
    let mut items: Vec<Json> = Vec::new();
    let mut i: usize = 0;
    while i < records.len()
        invariant
            i <= records@.len(),
            items@.len() == i,
            forall|k: int| 0 <= k < i ==> (#[trigger] items@[k]).shape() == records@[k].shape(),
        decreases records@.len() - i,
    {
        items.push(records[i].to_json());
        i = i + 1;
    }
    assert(json::item_shapes(items@) =~= record_shapes(records@));
    list(items)
}

/// The fields of a message as an object.
pub open spec fn field_shapes(fields: Seq<(String, String)>) -> Seq<(Seq<char>, Shape)> {
    Seq::new(fields.len(), |i: int| (fields[i].0@, Shape::Text(fields[i].1@)))
}

fn fields_json(fields: &Vec<(String, String)>) -> (node: Json)
    ensures
        node.shape() == Shape::Object(field_shapes(fields@)),
{
    let mut pairs: Vec<(String, Json)> = Vec::new();
    let mut i: usize = 0;
    while i < fields.len()
        invariant
            i <= fields@.len(),
            json::pair_shapes(pairs@) =~= field_shapes(fields@).take(i as int),
        decreases fields@.len() - i,
    {
        put(&mut pairs, &fields[i].0, Json::Text(fields[i].1.clone()));
        i = i + 1;
    }
    assert(json::pair_shapes(pairs@) =~= field_shapes(fields@));
    object(pairs)
}

impl Event {
    /// The name of the line and what it says, but for the time: pairs in the order in
    /// which they are listed here. A duration is a number in milliseconds.
    pub open spec fn pairs<U: Units>(self, units: U) -> Seq<(Seq<char>, Shape)> {
        match self {
            Event::Header { schema_version } => seq![
                ("event"@, Shape::Text("header"@)),
                ("schema_version"@, Shape::Unsigned(schema_version as u64)),
            ],
            Event::RunStart { size, passes, patterns, regions, parallel } => seq![
                ("event"@, Shape::Text("run_start"@)),
                ("size"@, Shape::Unsigned(size as u64)),
                ("passes"@, Shape::Unsigned(passes as u64)),
                ("patterns"@, Shape::List(document::text_shapes(text::string_texts(patterns@)))),
                ("regions"@, Shape::Unsigned(regions as u64)),
                ("parallel"@, Shape::Bool(parallel)),
            ],
            Event::MapInfo { total_pages, huge_pages, thp_pages, hwpoison_pages, unevictable_pages } => seq![
                ("event"@, Shape::Text("map_info"@)),
                ("total_pages"@, Shape::Unsigned(total_pages as u64)),
                ("huge_pages"@, Shape::Unsigned(huge_pages as u64)),
                ("thp_pages"@, Shape::Unsigned(thp_pages as u64)),
                ("hwpoison_pages"@, Shape::Unsigned(hwpoison_pages as u64)),
                ("unevictable_pages"@, Shape::Unsigned(unevictable_pages as u64)),
            ],
            Event::DimmInfo { dimm_count } => seq![
                ("event"@, Shape::Text("dimm_info"@)),
                ("dimm_count"@, Shape::Unsigned(dimm_count as u64)),
            ],
            Event::PassStart { region, pass, total_passes } => seq![
                ("event"@, Shape::Text("pass_start"@)),
                ("region"@, Shape::Unsigned(region as u64)),
                ("pass"@, Shape::Unsigned(pass as u64)),
                ("total_passes"@, Shape::Unsigned(total_passes as u64)),
            ],
            Event::TestStart { region, pattern, pass } => seq![
                ("event"@, Shape::Text("test_start"@)),
                ("region"@, Shape::Unsigned(region as u64)),
                ("pattern"@, Shape::Text(pattern@)),
                ("pass"@, Shape::Unsigned(pass as u64)),
            ],
            Event::Progress { region, pattern, pass, sub_pass, total_sub_passes } => seq![
                ("event"@, Shape::Text("progress"@)),
                ("region"@, Shape::Unsigned(region as u64)),
                ("pattern"@, Shape::Text(pattern@)),
                ("pass"@, Shape::Unsigned(pass as u64)),
                ("sub_pass"@, Shape::Unsigned(sub_pass)),
                ("total_sub_passes"@, Shape::Unsigned(total_sub_passes)),
            ],
            Event::TestPass { region, pattern, pass, bytes_processed, duration } => seq![
                ("event"@, Shape::Text("test_pass"@)),
                ("region"@, Shape::Unsigned(region as u64)),
                ("pattern"@, Shape::Text(pattern@)),
                ("pass"@, Shape::Unsigned(pass as u64)),
                ("duration_ms"@, Shape::Number(units.millis_number_text(duration))),
                ("bytes_processed"@, Shape::Unsigned(bytes_processed)),
            ],
            Event::TestFail { region, pattern, pass, bytes_processed, failures, duration } => seq![
                ("event"@, Shape::Text("test_fail"@)),
                ("region"@, Shape::Unsigned(region as u64)),
                ("pattern"@, Shape::Text(pattern@)),
                ("pass"@, Shape::Unsigned(pass as u64)),
                ("duration_ms"@, Shape::Number(units.millis_number_text(duration))),
                ("bytes_processed"@, Shape::Unsigned(bytes_processed)),
                ("failures"@, Shape::List(record_shapes(failures@))),
            ],
            Event::PassComplete { region, pass, failures, duration } => seq![
                ("event"@, Shape::Text("pass_complete"@)),
                ("region"@, Shape::Unsigned(region as u64)),
                ("pass"@, Shape::Unsigned(pass as u64)),
                ("failures"@, Shape::Unsigned(failures as u64)),
                ("duration_ms"@, Shape::Number(units.millis_number_text(duration))),
            ],
            Event::EccDeltas { region, pass, deltas } => seq![
                ("event"@, Shape::Text("ecc_deltas"@)),
                ("region"@, Shape::Unsigned(region as u64)),
                ("pass"@, Shape::Unsigned(pass as u64)),
                ("deltas"@, Shape::List(document::delta_shapes(deltas@))),
            ],
            Event::Log { level, target, message, fields } => seq![
                ("event"@, Shape::Text("log"@)),
                ("level"@, Shape::Text(level@)),
                ("target"@, Shape::Text(target@)),
                ("message"@, Shape::Text(message@)),
            ] + (match fields {
                Some(fields) => seq![("fields"@, Shape::Object(field_shapes(fields@)))],
                None => seq![],
            }),
            Event::RunComplete { passes, total_failures, duration } => seq![
                ("event"@, Shape::Text("run_complete"@)),
                ("passes"@, Shape::Unsigned(passes as u64)),
                ("total_failures"@, Shape::Unsigned(total_failures as u64)),
                ("duration_ms"@, Shape::Number(units.millis_number_text(duration))),
            ],
        }
    }

    /// Whether a text is the line as it is written at a point in time.
    pub open spec fn is_line<U: Units>(self, now: jiff::Timestamp, units: U, text: Seq<char>) -> bool {
        exists|time: Seq<char>| #[trigger]
            clock::timestamp_in(time) == Some(now) && text == serial::compact_text(
                serial::tree_of(self.shape(time, units)),
            )
    }

    /// What the line is, with the text of the time.
    pub open spec fn shape<U: Units>(self, time: Seq<char>, units: U) -> Shape {
        Shape::Object(self.pairs(units).push(("timestamp"@, Shape::Text(time))))
    }

    /// The line as it is written now.
    pub fn to_line<U: Units>(&self, now: &jiff::Timestamp, units: &U) -> (line: String)
        ensures
            self.is_line(*now, *units, line@),
    {
        compact(&self.to_json(timestamp_text(now), units))
    }

    /// The line as an object.
    pub fn to_json<U: Units>(&self, timestamp: String, units: &U) -> (node: Json)
        ensures
            node.shape() == self.shape(timestamp@, *units),
    {
        let mut pairs: Vec<(String, Json)> = Vec::new();
        assert(json::pair_shapes(pairs@) =~= seq![]);
        match self {
            Event::Header { schema_version } => {
                put(&mut pairs, "event", Json::Text("header".to_owned()));
                put(&mut pairs, "schema_version", Json::Unsigned(*schema_version as u64));
                assert(json::pair_shapes(pairs@) =~= self.pairs(*units));
            },
            Event::RunStart { size, passes, patterns, regions, parallel } => {
                put(&mut pairs, "event", Json::Text("run_start".to_owned()));
                put(&mut pairs, "size", Json::Unsigned(*size as u64));
                put(&mut pairs, "passes", Json::Unsigned(*passes as u64));
                put(&mut pairs, "patterns", texts_json(patterns));
                put(&mut pairs, "regions", Json::Unsigned(*regions as u64));
                put(&mut pairs, "parallel", Json::Bool(*parallel));
                assert(json::pair_shapes(pairs@) =~= self.pairs(*units));
            },
            Event::MapInfo { total_pages, huge_pages, thp_pages, hwpoison_pages, unevictable_pages } => {
                put(&mut pairs, "event", Json::Text("map_info".to_owned()));
                put(&mut pairs, "total_pages", Json::Unsigned(*total_pages as u64));
                put(&mut pairs, "huge_pages", Json::Unsigned(*huge_pages as u64));
                put(&mut pairs, "thp_pages", Json::Unsigned(*thp_pages as u64));
                put(&mut pairs, "hwpoison_pages", Json::Unsigned(*hwpoison_pages as u64));
                put(&mut pairs, "unevictable_pages", Json::Unsigned(*unevictable_pages as u64));
                assert(json::pair_shapes(pairs@) =~= self.pairs(*units));
            },
            Event::DimmInfo { dimm_count } => {
                put(&mut pairs, "event", Json::Text("dimm_info".to_owned()));
                put(&mut pairs, "dimm_count", Json::Unsigned(*dimm_count as u64));
                assert(json::pair_shapes(pairs@) =~= self.pairs(*units));
            },
            Event::PassStart { region, pass, total_passes } => {
                put(&mut pairs, "event", Json::Text("pass_start".to_owned()));
                put(&mut pairs, "region", Json::Unsigned(*region as u64));
                put(&mut pairs, "pass", Json::Unsigned(*pass as u64));
                put(&mut pairs, "total_passes", Json::Unsigned(*total_passes as u64));
                assert(json::pair_shapes(pairs@) =~= self.pairs(*units));
            },
            Event::TestStart { region, pattern, pass } => {
                put(&mut pairs, "event", Json::Text("test_start".to_owned()));
                put(&mut pairs, "region", Json::Unsigned(*region as u64));
                put(&mut pairs, "pattern", Json::Text(pattern.clone()));
                put(&mut pairs, "pass", Json::Unsigned(*pass as u64));
                assert(json::pair_shapes(pairs@) =~= self.pairs(*units));
            },
            Event::Progress { region, pattern, pass, sub_pass, total_sub_passes } => {
                put(&mut pairs, "event", Json::Text("progress".to_owned()));
                put(&mut pairs, "region", Json::Unsigned(*region as u64));
                put(&mut pairs, "pattern", Json::Text(pattern.clone()));
                put(&mut pairs, "pass", Json::Unsigned(*pass as u64));
                put(&mut pairs, "sub_pass", Json::Unsigned(*sub_pass));
                put(&mut pairs, "total_sub_passes", Json::Unsigned(*total_sub_passes));
                assert(json::pair_shapes(pairs@) =~= self.pairs(*units));
            },
            Event::TestPass { region, pattern, pass, bytes_processed, duration } => {
                put(&mut pairs, "event", Json::Text("test_pass".to_owned()));
                put(&mut pairs, "region", Json::Unsigned(*region as u64));
                put(&mut pairs, "pattern", Json::Text(pattern.clone()));
                put(&mut pairs, "pass", Json::Unsigned(*pass as u64));
                put(&mut pairs, "duration_ms", Json::Number(units.millis_number(*duration)));
                put(&mut pairs, "bytes_processed", Json::Unsigned(*bytes_processed));
                assert(json::pair_shapes(pairs@) =~= self.pairs(*units));
            },
            Event::TestFail { region, pattern, pass, bytes_processed, failures, duration } => {
                put(&mut pairs, "event", Json::Text("test_fail".to_owned()));
                put(&mut pairs, "region", Json::Unsigned(*region as u64));
                put(&mut pairs, "pattern", Json::Text(pattern.clone()));
                put(&mut pairs, "pass", Json::Unsigned(*pass as u64));
                put(&mut pairs, "duration_ms", Json::Number(units.millis_number(*duration)));
                put(&mut pairs, "bytes_processed", Json::Unsigned(*bytes_processed));
                put(&mut pairs, "failures", records_json(failures));
                assert(json::pair_shapes(pairs@) =~= self.pairs(*units));
            },
            Event::PassComplete { region, pass, failures, duration } => {
                put(&mut pairs, "event", Json::Text("pass_complete".to_owned()));
                put(&mut pairs, "region", Json::Unsigned(*region as u64));
                put(&mut pairs, "pass", Json::Unsigned(*pass as u64));
                put(&mut pairs, "failures", Json::Unsigned(*failures as u64));
                put(&mut pairs, "duration_ms", Json::Number(units.millis_number(*duration)));
                assert(json::pair_shapes(pairs@) =~= self.pairs(*units));
            },
            Event::EccDeltas { region, pass, deltas } => {
                put(&mut pairs, "event", Json::Text("ecc_deltas".to_owned()));
                put(&mut pairs, "region", Json::Unsigned(*region as u64));
                put(&mut pairs, "pass", Json::Unsigned(*pass as u64));
                put(&mut pairs, "deltas", deltas_json(deltas));
                assert(json::pair_shapes(pairs@) =~= self.pairs(*units));
            },
            Event::Log { level, target, message, fields } => {
                put(&mut pairs, "event", Json::Text("log".to_owned()));
                put(&mut pairs, "level", Json::Text((*level).to_owned()));
                put(&mut pairs, "target", Json::Text(target.clone()));
                put(&mut pairs, "message", Json::Text(message.clone()));
                if let Some(fields) = fields {
                    put(&mut pairs, "fields", fields_json(fields));
                }
                assert(json::pair_shapes(pairs@) =~= self.pairs(*units));
            },
            Event::RunComplete { passes, total_failures, duration } => {
                put(&mut pairs, "event", Json::Text("run_complete".to_owned()));
                put(&mut pairs, "passes", Json::Unsigned(*passes as u64));
                put(&mut pairs, "total_failures", Json::Unsigned(*total_failures as u64));
                put(&mut pairs, "duration_ms", Json::Number(units.millis_number(*duration)));
                assert(json::pair_shapes(pairs@) =~= self.pairs(*units));
            },
        }
        put(&mut pairs, "timestamp", Json::Text(timestamp));
        object(pairs)
    }
}

/// Whether a value is the text of a word: `0x` and then the sixteen hexadecimal digits that
/// stand for it.
pub open spec fn reads_as_word(node: Option<Json>, word: u64) -> bool {
    json::text_in(node) matches Some(s) && s.len() == 18 && s[0] == '0' && s[1] == 'x'
        && text::digits_value(s.skip(2), 16) == Some(word as int)
}

proof fn lemma_word_reads_back(node: Option<Json>, word: u64)
    requires
        json::text_in(node) == Some(word_text(word as int)),
    ensures
        reads_as_word(node, word),
{
    reveal_strlit("0x");
    text::law_hex16_reads_back(word);
    let s = word_text(word as int);
    assert(s.skip(2) =~= text::hex16(word as int));
}

/// Whether a value reads as the failure: each word and address under its own name, the
/// number of bits that differ, the index, and the physical address if and only if it is
/// known.
pub open spec fn reads_as_failure(node: Json, f: Failure) -> bool {
    &&& reads_as_word(json::member(Some(node), "addr"@), f.addr as u64)
    &&& reads_as_word(json::member(Some(node), "expected"@), f.expected)
    &&& reads_as_word(json::member(Some(node), "actual"@), f.actual)
    &&& reads_as_word(json::member(Some(node), "xor"@), f.expected ^ f.actual)
    &&& json::unsigned_in(json::member(Some(node), "flipped_bits"@)) matches Some(n) && n
        == Seq::new(64, |b: int| b).filter(
        |b: int| failure::bit(f.expected, b) != failure::bit(f.actual, b),
    ).len()
    &&& json::unsigned_in(json::member(Some(node), "word_index"@)) == Some(f.word_index as u64)
    &&& match f.phys_addr {
        Some(p) => {
            &&& json::text_in(json::member(Some(node), "phys_addr"@)) matches Some(s)
            &&& s.len() > 2 && s[0] == '0' && s[1] == 'x' && text::digits_value(s.skip(2), 16)
                == Some(p.0 as int)
        },
        None => json::member(Some(node), "phys_addr"@) is None,
    }
}

/// The object of a failure reads as the failure.
pub proof fn law_record_reads_back(record: FailureRecord, f: Failure, node: Json)
    requires
        record.records(f),
        node.shape() == record.shape(),
    ensures
        reads_as_failure(node, f),
{
    reveal_strlit("addr");
    reveal_strlit("phys_addr");
    reveal_strlit("expected");
    reveal_strlit("actual");
    reveal_strlit("xor");
    reveal_strlit("flipped_bits");
    reveal_strlit("word_index");
    assert("addr"@.len() == 4);
    assert("phys_addr"@.len() == 9);
    assert("expected"@.len() == 8);
    assert("actual"@.len() == 6);
    assert("xor"@.len() == 3);
    assert("flipped_bits"@.len() == 12);
    assert("word_index"@.len() == 10);
    let pairs = node.shape()->Object_0;
    if let Some(p) = f.phys_addr {
        assert(pairs[0].0 == "addr"@);
        assert(pairs[1].0 == "phys_addr"@);
        assert(pairs[2].0 == "expected"@);
        assert(pairs[3].0 == "actual"@);
        assert(pairs[4].0 == "xor"@);
        assert(pairs[5].0 == "flipped_bits"@);
        assert(pairs[6].0 == "word_index"@);
        json::lemma_found_at(node, 0);
        json::lemma_found_at(node, 1);
        json::lemma_found_at(node, 2);
        json::lemma_found_at(node, 3);
        json::lemma_found_at(node, 4);
        json::lemma_found_at(node, 5);
        json::lemma_found_at(node, 6);
        reveal_strlit("0x");
        text::law_digits_read_back(p.0 as int, 16);
        assert(p.shown().skip(2) =~= text::hex(p.0 as int));
    } else {
        assert(pairs[0].0 == "addr"@);
        assert(pairs[1].0 == "expected"@);
        assert(pairs[2].0 == "actual"@);
        assert(pairs[3].0 == "xor"@);
        assert(pairs[4].0 == "flipped_bits"@);
        assert(pairs[5].0 == "word_index"@);
        assert(pairs.len() == 6);
        json::lemma_found_at(node, 0);
        json::lemma_found_at(node, 1);
        json::lemma_found_at(node, 2);
        json::lemma_found_at(node, 3);
        json::lemma_found_at(node, 4);
        json::lemma_found_at(node, 5);
        json::lemma_not_found(node, "phys_addr"@);
    }
    lemma_word_reads_back(json::member(Some(node), "addr"@), f.addr as u64);
    lemma_word_reads_back(json::member(Some(node), "expected"@), f.expected);
    lemma_word_reads_back(json::member(Some(node), "actual"@), f.actual);
    lemma_word_reads_back(json::member(Some(node), "xor"@), f.expected ^ f.actual);
    failure::law_flipped_bits_are_counted(f);
}

/// The line of a pattern that found failures, looked up by its keys: where and when it was
/// found, and in the list of failures, at the same place, an object that reads as each.
pub proof fn law_failed_test_is_told<U: Units>(
    region: usize,
    pattern: Pattern,
    pass: usize,
    elapsed: u64,
    bytes: u64,
    failures: Vec<Failure>,
    e: Event,
    node: Json,
    time: Seq<char>,
    units: U,
)
    requires
        projects(RunEvent::Region(region, RegionEvent::TestComplete { pattern, pass, elapsed, bytes, failures }), e),
        node.shape() == e.shape(time, units),
        failures@.len() > 0,
    ensures
        json::text_in(json::member(Some(node), "event"@)) == Some("test_fail"@),
        json::text_in(json::member(Some(node), "timestamp"@)) == Some(time),
        json::unsigned_in(json::member(Some(node), "region"@)) == Some(region as u64),
        json::text_in(json::member(Some(node), "pattern"@)) == Some(pattern.name()),
        json::unsigned_in(json::member(Some(node), "pass"@)) == Some(pass as u64),
        document::reads_as_time(json::member(Some(node), "duration_ms"@), elapsed, units),
        json::unsigned_in(json::member(Some(node), "bytes_processed"@)) == Some(bytes as u64),
        json::items_in(json::member(Some(node), "failures"@)).len() == failures@.len(),
        forall|i: int|
            0 <= i < failures@.len() ==> reads_as_failure(
                #[trigger] json::items_in(json::member(Some(node), "failures"@))[i],
                failures@[i],
            ),
{
    reveal_strlit("event");
    reveal_strlit("region");
    reveal_strlit("pattern");
    reveal_strlit("pass");
    reveal_strlit("duration_ms");
    reveal_strlit("bytes_processed");
    reveal_strlit("failures");
    reveal_strlit("timestamp");
    assert("event"@.len() == 5);
    assert("region"@.len() == 6);
    assert("pattern"@.len() == 7);
    assert("pass"@.len() == 4);
    assert("duration_ms"@.len() == 11);
    assert("bytes_processed"@.len() == 15);
    assert("failures"@.len() == 8);
    assert("timestamp"@.len() == 9);
    reveal_strlit("test_fail");
    let pairs = node.shape()->Object_0;
    assert(pairs[0].0 == "event"@);
    assert(pairs[1].0 == "region"@);
    assert(pairs[2].0 == "pattern"@);
    assert(pairs[3].0 == "pass"@);
    assert(pairs[4].0 == "duration_ms"@);
    assert(pairs[5].0 == "bytes_processed"@);
    assert(pairs[6].0 == "failures"@);
    assert(pairs[7].0 == "timestamp"@);
    json::lemma_found_at(node, 0);
    json::lemma_found_at(node, 1);
    json::lemma_found_at(node, 2);
    json::lemma_found_at(node, 3);
    json::lemma_found_at(node, 4);
    json::lemma_found_at(node, 5);
    json::lemma_found_at(node, 6);
    json::lemma_found_at(node, 7);
    let found = json::member(Some(node), "failures"@)->0;
    json::lemma_items_by_shape(found);
    let items = json::items_in(Some(found));
    let records = e->TestFail_failures@;
    assert(json::item_shapes(items).len() == records.len());
    assert forall|i: int| 0 <= i < failures@.len() implies reads_as_failure(
        #[trigger] items[i],
        failures@[i],
    ) by {
        assert(json::item_shapes(items)[i] == record_shapes(records)[i]);
        assert(records[i].records(failures@[i]));
        law_record_reads_back(records[i], failures@[i], items[i]);
    }
}

/// The line of a pattern that found nothing, looked up by its keys.
pub proof fn law_passed_test_is_told<U: Units>(
    region: usize,
    pattern: Pattern,
    pass: usize,
    elapsed: u64,
    bytes: u64,
    failures: Vec<Failure>,
    e: Event,
    node: Json,
    time: Seq<char>,
    units: U,
)
    requires
        projects(RunEvent::Region(region, RegionEvent::TestComplete { pattern, pass, elapsed, bytes, failures }), e),
        node.shape() == e.shape(time, units),
        failures@.len() == 0,
    ensures
        json::text_in(json::member(Some(node), "event"@)) == Some("test_pass"@),
        json::text_in(json::member(Some(node), "timestamp"@)) == Some(time),
        json::unsigned_in(json::member(Some(node), "region"@)) == Some(region as u64),
        json::text_in(json::member(Some(node), "pattern"@)) == Some(pattern.name()),
        json::unsigned_in(json::member(Some(node), "pass"@)) == Some(pass as u64),
        document::reads_as_time(json::member(Some(node), "duration_ms"@), elapsed, units),
        json::unsigned_in(json::member(Some(node), "bytes_processed"@)) == Some(bytes as u64),
{
    reveal_strlit("event");
    reveal_strlit("region");
    reveal_strlit("pattern");
    reveal_strlit("pass");
    reveal_strlit("duration_ms");
    reveal_strlit("bytes_processed");
    reveal_strlit("timestamp");
    assert("event"@.len() == 5);
    assert("region"@.len() == 6);
    assert("pattern"@.len() == 7);
    assert("pass"@.len() == 4);
    assert("duration_ms"@.len() == 11);
    assert("bytes_processed"@.len() == 15);
    assert("timestamp"@.len() == 9);
    reveal_strlit("test_pass");
    let pairs = node.shape()->Object_0;
    assert(pairs[0].0 == "event"@);
    assert(pairs[1].0 == "region"@);
    assert(pairs[2].0 == "pattern"@);
    assert(pairs[3].0 == "pass"@);
    assert(pairs[4].0 == "duration_ms"@);
    assert(pairs[5].0 == "bytes_processed"@);
    assert(pairs[6].0 == "timestamp"@);
    json::lemma_found_at(node, 0);
    json::lemma_found_at(node, 1);
    json::lemma_found_at(node, 2);
    json::lemma_found_at(node, 3);
    json::lemma_found_at(node, 4);
    json::lemma_found_at(node, 5);
    json::lemma_found_at(node, 6);
}

/// The line of a pass that begins, looked up by its keys.
pub proof fn law_pass_start_is_told<U: Units>(
    region: usize,
    pass: usize,
    total_passes: usize,
    e: Event,
    node: Json,
    time: Seq<char>,
    units: U,
)
    requires
        projects(RunEvent::Region(region, RegionEvent::PassStart { pass, total_passes }), e),
        node.shape() == e.shape(time, units),
    ensures
        json::text_in(json::member(Some(node), "event"@)) == Some("pass_start"@),
        json::text_in(json::member(Some(node), "timestamp"@)) == Some(time),
        json::unsigned_in(json::member(Some(node), "region"@)) == Some(region as u64),
        json::unsigned_in(json::member(Some(node), "pass"@)) == Some(pass as u64),
        json::unsigned_in(json::member(Some(node), "total_passes"@)) == Some(total_passes as u64),
{
    reveal_strlit("event");
    reveal_strlit("region");
    reveal_strlit("pass");
    reveal_strlit("total_passes");
    reveal_strlit("timestamp");
    assert("event"@.len() == 5);
    assert("region"@.len() == 6);
    assert("pass"@.len() == 4);
    assert("total_passes"@.len() == 12);
    assert("timestamp"@.len() == 9);
    reveal_strlit("pass_start");
    let pairs = node.shape()->Object_0;
    assert(pairs[0].0 == "event"@);
    assert(pairs[1].0 == "region"@);
    assert(pairs[2].0 == "pass"@);
    assert(pairs[3].0 == "total_passes"@);
    assert(pairs[4].0 == "timestamp"@);
    json::lemma_found_at(node, 0);
    json::lemma_found_at(node, 1);
    json::lemma_found_at(node, 2);
    json::lemma_found_at(node, 3);
    json::lemma_found_at(node, 4);
}

/// The line of a pattern that begins, looked up by its keys.
pub proof fn law_test_start_is_told<U: Units>(
    region: usize,
    pattern: Pattern,
    pass: usize,
    e: Event,
    node: Json,
    time: Seq<char>,
    units: U,
)
    requires
        projects(RunEvent::Region(region, RegionEvent::TestStart { pattern, pass }), e),
        node.shape() == e.shape(time, units),
    ensures
        json::text_in(json::member(Some(node), "event"@)) == Some("test_start"@),
        json::text_in(json::member(Some(node), "timestamp"@)) == Some(time),
        json::unsigned_in(json::member(Some(node), "region"@)) == Some(region as u64),
        json::text_in(json::member(Some(node), "pattern"@)) == Some(pattern.name()),
        json::unsigned_in(json::member(Some(node), "pass"@)) == Some(pass as u64),
{
    reveal_strlit("event");
    reveal_strlit("region");
    reveal_strlit("pattern");
    reveal_strlit("pass");
    reveal_strlit("timestamp");
    assert("event"@.len() == 5);
    assert("region"@.len() == 6);
    assert("pattern"@.len() == 7);
    assert("pass"@.len() == 4);
    assert("timestamp"@.len() == 9);
    reveal_strlit("test_start");
    let pairs = node.shape()->Object_0;
    assert(pairs[0].0 == "event"@);
    assert(pairs[1].0 == "region"@);
    assert(pairs[2].0 == "pattern"@);
    assert(pairs[3].0 == "pass"@);
    assert(pairs[4].0 == "timestamp"@);
    json::lemma_found_at(node, 0);
    json::lemma_found_at(node, 1);
    json::lemma_found_at(node, 2);
    json::lemma_found_at(node, 3);
    json::lemma_found_at(node, 4);
}

/// The line of a part of a pattern that is done, looked up by its keys.
pub proof fn law_progress_is_told<U: Units>(
    region: usize,
    pattern: Pattern,
    pass: usize,
    sub_pass: u64,
    total: u64,
    e: Event,
    node: Json,
    time: Seq<char>,
    units: U,
)
    requires
        projects(RunEvent::Region(region, RegionEvent::Progress { pattern, pass, sub_pass, total }), e),
        node.shape() == e.shape(time, units),
    ensures
        json::text_in(json::member(Some(node), "event"@)) == Some("progress"@),
        json::text_in(json::member(Some(node), "timestamp"@)) == Some(time),
        json::unsigned_in(json::member(Some(node), "region"@)) == Some(region as u64),
        json::text_in(json::member(Some(node), "pattern"@)) == Some(pattern.name()),
        json::unsigned_in(json::member(Some(node), "pass"@)) == Some(pass as u64),
        json::unsigned_in(json::member(Some(node), "sub_pass"@)) == Some(sub_pass as u64),
        json::unsigned_in(json::member(Some(node), "total_sub_passes"@)) == Some(total as u64),
{
    reveal_strlit("event");
    reveal_strlit("region");
    reveal_strlit("pattern");
    reveal_strlit("pass");
    reveal_strlit("sub_pass");
    reveal_strlit("total_sub_passes");
    reveal_strlit("timestamp");
    assert("event"@.len() == 5);
    assert("region"@.len() == 6);
    assert("pattern"@.len() == 7);
    assert("pass"@.len() == 4);
    assert("sub_pass"@.len() == 8);
    assert("total_sub_passes"@.len() == 16);
    assert("timestamp"@.len() == 9);
    reveal_strlit("progress");
    let pairs = node.shape()->Object_0;
    assert(pairs[0].0 == "event"@);
    assert(pairs[1].0 == "region"@);
    assert(pairs[2].0 == "pattern"@);
    assert(pairs[3].0 == "pass"@);
    assert(pairs[4].0 == "sub_pass"@);
    assert(pairs[5].0 == "total_sub_passes"@);
    assert(pairs[6].0 == "timestamp"@);
    json::lemma_found_at(node, 0);
    json::lemma_found_at(node, 1);
    json::lemma_found_at(node, 2);
    json::lemma_found_at(node, 3);
    json::lemma_found_at(node, 4);
    json::lemma_found_at(node, 5);
    json::lemma_found_at(node, 6);
}

/// The line of a pass that is done, looked up by its keys.
pub proof fn law_pass_end_is_told<U: Units>(
    region: usize,
    pass: usize,
    failures: usize,
    elapsed: u64,
    e: Event,
    node: Json,
    time: Seq<char>,
    units: U,
)
    requires
        projects(RunEvent::Region(region, RegionEvent::PassComplete { pass, failures, elapsed }), e),
        node.shape() == e.shape(time, units),
    ensures
        json::text_in(json::member(Some(node), "event"@)) == Some("pass_complete"@),
        json::text_in(json::member(Some(node), "timestamp"@)) == Some(time),
        json::unsigned_in(json::member(Some(node), "region"@)) == Some(region as u64),
        json::unsigned_in(json::member(Some(node), "pass"@)) == Some(pass as u64),
        json::unsigned_in(json::member(Some(node), "failures"@)) == Some(failures as u64),
        document::reads_as_time(json::member(Some(node), "duration_ms"@), elapsed, units),
{
    reveal_strlit("event");
    reveal_strlit("region");
    reveal_strlit("pass");
    reveal_strlit("failures");
    reveal_strlit("duration_ms");
    reveal_strlit("timestamp");
    assert("event"@.len() == 5);
    assert("region"@.len() == 6);
    assert("pass"@.len() == 4);
    assert("failures"@.len() == 8);
    assert("duration_ms"@.len() == 11);
    assert("timestamp"@.len() == 9);
    reveal_strlit("pass_complete");
    let pairs = node.shape()->Object_0;
    assert(pairs[0].0 == "event"@);
    assert(pairs[1].0 == "region"@);
    assert(pairs[2].0 == "pass"@);
    assert(pairs[3].0 == "failures"@);
    assert(pairs[4].0 == "duration_ms"@);
    assert(pairs[5].0 == "timestamp"@);
    json::lemma_found_at(node, 0);
    json::lemma_found_at(node, 1);
    json::lemma_found_at(node, 2);
    json::lemma_found_at(node, 3);
    json::lemma_found_at(node, 4);
    json::lemma_found_at(node, 5);
}

/// The line of error counters that went up, looked up by its keys: an object for each, at
/// the same place.
pub proof fn law_counter_changes_are_told<U: Units>(
    region: usize,
    pass: usize,
    deltas: Vec<EccDelta>,
    e: Event,
    node: Json,
    time: Seq<char>,
    units: U,
)
    requires
        projects(RunEvent::Region(region, RegionEvent::EccDeltas { pass, deltas }), e),
        node.shape() == e.shape(time, units),
    ensures
        json::text_in(json::member(Some(node), "event"@)) == Some("ecc_deltas"@),
        json::text_in(json::member(Some(node), "timestamp"@)) == Some(time),
        json::unsigned_in(json::member(Some(node), "region"@)) == Some(region as u64),
        json::unsigned_in(json::member(Some(node), "pass"@)) == Some(pass as u64),
        json::items_in(json::member(Some(node), "deltas"@)).len() == deltas@.len(),
        forall|i: int|
            0 <= i < deltas@.len() ==> document::reads_as_delta(
                #[trigger] json::items_in(json::member(Some(node), "deltas"@))[i],
                deltas@[i],
            ),
{
    reveal_strlit("event");
    reveal_strlit("region");
    reveal_strlit("pass");
    reveal_strlit("deltas");
    reveal_strlit("timestamp");
    assert("event"@.len() == 5);
    assert("region"@.len() == 6);
    assert("pass"@.len() == 4);
    assert("deltas"@.len() == 6);
    assert("timestamp"@.len() == 9);
    assert("region"@[0] != "deltas"@[0]);
    reveal_strlit("ecc_deltas");
    let pairs = node.shape()->Object_0;
    assert(pairs[0].0 == "event"@);
    assert(pairs[1].0 == "region"@);
    assert(pairs[2].0 == "pass"@);
    assert(pairs[3].0 == "deltas"@);
    assert(pairs[4].0 == "timestamp"@);
    json::lemma_found_at(node, 0);
    json::lemma_found_at(node, 1);
    json::lemma_found_at(node, 2);
    json::lemma_found_at(node, 3);
    json::lemma_found_at(node, 4);
    let found = json::member(Some(node), "deltas"@)->0;
    json::lemma_items_by_shape(found);
    let items = json::items_in(Some(found));
    assert(json::item_shapes(items).len() == deltas@.len());
    assert forall|i: int| 0 <= i < deltas@.len() implies document::reads_as_delta(
        #[trigger] items[i],
        deltas@[i],
    ) by {
        assert(json::item_shapes(items)[i] == document::delta_shapes(deltas@)[i]);
        document::lemma_delta_reads_back(items[i], deltas@[i]);
    }
}

/// The line of a run that begins, looked up by its keys.
pub proof fn law_run_start_is_told<U: Units>(
    size: usize,
    passes: usize,
    patterns: Vec<Pattern>,
    regions: usize,
    parallel: bool,
    e: Event,
    node: Json,
    time: Seq<char>,
    units: U,
)
    requires
        projects(RunEvent::RunStart { size, passes, patterns, regions, parallel }, e),
        node.shape() == e.shape(time, units),
    ensures
        json::text_in(json::member(Some(node), "event"@)) == Some("run_start"@),
        json::text_in(json::member(Some(node), "timestamp"@)) == Some(time),
        json::unsigned_in(json::member(Some(node), "size"@)) == Some(size as u64),
        json::unsigned_in(json::member(Some(node), "passes"@)) == Some(passes as u64),
        json::unsigned_in(json::member(Some(node), "regions"@)) == Some(regions as u64),
        json::member(Some(node), "parallel"@) == Some(Json::Bool(parallel)),
        json::items_in(json::member(Some(node), "patterns"@)).len() == patterns@.len(),
        forall|i: int|
            0 <= i < patterns@.len() ==> json::text_in(
                Some(#[trigger] json::items_in(json::member(Some(node), "patterns"@))[i]),
            ) == Some(patterns@[i].name()),
{
    reveal_strlit("event");
    reveal_strlit("size");
    reveal_strlit("passes");
    reveal_strlit("patterns");
    reveal_strlit("regions");
    reveal_strlit("parallel");
    reveal_strlit("timestamp");
    assert("event"@.len() == 5);
    assert("size"@.len() == 4);
    assert("passes"@.len() == 6);
    assert("patterns"@.len() == 8);
    assert("regions"@.len() == 7);
    assert("parallel"@.len() == 8);
    assert("timestamp"@.len() == 9);
    assert("patterns"@[2] != "parallel"@[2]);
    reveal_strlit("run_start");
    let pairs = node.shape()->Object_0;
    assert(pairs[0].0 == "event"@);
    assert(pairs[1].0 == "size"@);
    assert(pairs[2].0 == "passes"@);
    assert(pairs[3].0 == "patterns"@);
    assert(pairs[4].0 == "regions"@);
    assert(pairs[5].0 == "parallel"@);
    assert(pairs[6].0 == "timestamp"@);
    json::lemma_found_at(node, 0);
    json::lemma_found_at(node, 1);
    json::lemma_found_at(node, 2);
    json::lemma_found_at(node, 3);
    json::lemma_found_at(node, 4);
    json::lemma_found_at(node, 5);
    json::lemma_found_at(node, 6);
    let found = json::member(Some(node), "patterns"@)->0;
    json::lemma_items_by_shape(found);
    let items = json::items_in(Some(found));
    let names = e->RunStart_patterns@;
    assert(text::string_texts(names).len() == patterns@.len());
    assert(json::item_shapes(items).len() == patterns@.len());
    assert forall|i: int| 0 <= i < patterns@.len() implies json::text_in(
        Some(#[trigger] items[i]),
    ) == Some(patterns@[i].name()) by {
        assert(json::item_shapes(items)[i] == document::text_shapes(text::string_texts(names))[i]);
        assert(text::string_texts(names)[i] == pattern_names(patterns@)[i]);
    }
}

/// The line of the physical addresses, looked up by its keys.
pub proof fn law_map_is_told<U: Units>(
    stats: MapStats,
    e: Event,
    node: Json,
    time: Seq<char>,
    units: U,
)
    requires
        projects(RunEvent::MapInfo { stats }, e),
        node.shape() == e.shape(time, units),
    ensures
        json::text_in(json::member(Some(node), "event"@)) == Some("map_info"@),
        json::text_in(json::member(Some(node), "timestamp"@)) == Some(time),
        json::unsigned_in(json::member(Some(node), "total_pages"@)) == Some(stats.total_pages as u64),
        json::unsigned_in(json::member(Some(node), "huge_pages"@)) == Some(stats.huge_pages as u64),
        json::unsigned_in(json::member(Some(node), "thp_pages"@)) == Some(stats.thp_pages as u64),
        json::unsigned_in(json::member(Some(node), "hwpoison_pages"@)) == Some(stats.hwpoison_pages as u64),
        json::unsigned_in(json::member(Some(node), "unevictable_pages"@)) == Some(stats.unevictable_pages as u64),
{
    reveal_strlit("event");
    reveal_strlit("total_pages");
    reveal_strlit("huge_pages");
    reveal_strlit("thp_pages");
    reveal_strlit("hwpoison_pages");
    reveal_strlit("unevictable_pages");
    reveal_strlit("timestamp");
    assert("event"@.len() == 5);
    assert("total_pages"@.len() == 11);
    assert("huge_pages"@.len() == 10);
    assert("thp_pages"@.len() == 9);
    assert("hwpoison_pages"@.len() == 14);
    assert("unevictable_pages"@.len() == 17);
    assert("timestamp"@.len() == 9);
    assert("thp_pages"@[1] != "timestamp"@[1]);
    reveal_strlit("map_info");
    let pairs = node.shape()->Object_0;
    assert(pairs[0].0 == "event"@);
    assert(pairs[1].0 == "total_pages"@);
    assert(pairs[2].0 == "huge_pages"@);
    assert(pairs[3].0 == "thp_pages"@);
    assert(pairs[4].0 == "hwpoison_pages"@);
    assert(pairs[5].0 == "unevictable_pages"@);
    assert(pairs[6].0 == "timestamp"@);
    json::lemma_found_at(node, 0);
    json::lemma_found_at(node, 1);
    json::lemma_found_at(node, 2);
    json::lemma_found_at(node, 3);
    json::lemma_found_at(node, 4);
    json::lemma_found_at(node, 5);
    json::lemma_found_at(node, 6);
}

/// The line of the memory modules, looked up by its keys.
pub proof fn law_modules_are_told<U: Units>(
    topology: DimmTopology,
    e: Event,
    node: Json,
    time: Seq<char>,
    units: U,
)
    requires
        projects(RunEvent::DimmInfo { topology }, e),
        topology.dimms@.len() <= usize::MAX,
        node.shape() == e.shape(time, units),
    ensures
        json::text_in(json::member(Some(node), "event"@)) == Some("dimm_info"@),
        json::text_in(json::member(Some(node), "timestamp"@)) == Some(time),
        json::unsigned_in(json::member(Some(node), "dimm_count"@)) == Some(topology.dimms@.len() as u64),
{
    reveal_strlit("event");
    reveal_strlit("dimm_count");
    reveal_strlit("timestamp");
    assert("event"@.len() == 5);
    assert("dimm_count"@.len() == 10);
    assert("timestamp"@.len() == 9);
    reveal_strlit("dimm_info");
    let pairs = node.shape()->Object_0;
    assert(pairs[0].0 == "event"@);
    assert(pairs[1].0 == "dimm_count"@);
    assert(pairs[2].0 == "timestamp"@);
    json::lemma_found_at(node, 0);
    json::lemma_found_at(node, 1);
    json::lemma_found_at(node, 2);
}

/// The line of a run that is over, looked up by its keys.
pub proof fn law_run_end_is_told<U: Units>(
    passes: usize,
    total_failures: usize,
    elapsed: u64,
    node: Json,
    time: Seq<char>,
    units: U,
)
    requires
        node.shape() == (Event::RunComplete { passes, total_failures, duration: elapsed }).shape(time, units),
    ensures
        json::text_in(json::member(Some(node), "event"@)) == Some("run_complete"@),
        json::text_in(json::member(Some(node), "timestamp"@)) == Some(time),
        json::unsigned_in(json::member(Some(node), "passes"@)) == Some(passes as u64),
        json::unsigned_in(json::member(Some(node), "total_failures"@)) == Some(total_failures as u64),
        document::reads_as_time(json::member(Some(node), "duration_ms"@), elapsed, units),
{
    reveal_strlit("event");
    reveal_strlit("passes");
    reveal_strlit("total_failures");
    reveal_strlit("duration_ms");
    reveal_strlit("timestamp");
    assert("event"@.len() == 5);
    assert("passes"@.len() == 6);
    assert("total_failures"@.len() == 14);
    assert("duration_ms"@.len() == 11);
    assert("timestamp"@.len() == 9);
    reveal_strlit("run_complete");
    let pairs = node.shape()->Object_0;
    assert(pairs[0].0 == "event"@);
    assert(pairs[1].0 == "passes"@);
    assert(pairs[2].0 == "total_failures"@);
    assert(pairs[3].0 == "duration_ms"@);
    assert(pairs[4].0 == "timestamp"@);
    json::lemma_found_at(node, 0);
    json::lemma_found_at(node, 1);
    json::lemma_found_at(node, 2);
    json::lemma_found_at(node, 3);
    json::lemma_found_at(node, 4);
}

/// The first line, looked up by its keys.
pub proof fn law_header_is_told<U: Units>(
    schema_version: u32,
    node: Json,
    time: Seq<char>,
    units: U,
)
    requires
        node.shape() == (Event::Header { schema_version }).shape(time, units),
    ensures
        json::text_in(json::member(Some(node), "event"@)) == Some("header"@),
        json::text_in(json::member(Some(node), "timestamp"@)) == Some(time),
        json::unsigned_in(json::member(Some(node), "schema_version"@)) == Some(schema_version as u64),
        SCHEMA_VERSION == 1,
{
    reveal_strlit("event");
    reveal_strlit("schema_version");
    reveal_strlit("timestamp");
    assert("event"@.len() == 5);
    assert("schema_version"@.len() == 14);
    assert("timestamp"@.len() == 9);
    reveal_strlit("header");
    let pairs = node.shape()->Object_0;
    assert(pairs[0].0 == "event"@);
    assert(pairs[1].0 == "schema_version"@);
    assert(pairs[2].0 == "timestamp"@);
    json::lemma_found_at(node, 0);
    json::lemma_found_at(node, 1);
    json::lemma_found_at(node, 2);
}

/// The line of a message, looked up by its keys: its level, where it comes from, what it
/// says, and its fields in order under their names; no member for them if there are none.
pub proof fn law_message_is_told<U: Units>(
    level: LogLevel,
    target: String,
    message: String,
    fields: Vec<(String, String)>,
    e: Event,
    node: Json,
    time: Seq<char>,
    units: U,
)
    requires
        projects(RunEvent::Log { level, target, message, fields }, e),
        node.shape() == e.shape(time, units),
    ensures
        json::text_in(json::member(Some(node), "event"@)) == Some("log"@),
        json::text_in(json::member(Some(node), "timestamp"@)) == Some(time),
        json::text_in(json::member(Some(node), "level"@)) == Some(level.name()),
        json::text_in(json::member(Some(node), "target"@)) == Some(target@),
        json::text_in(json::member(Some(node), "message"@)) == Some(message@),
        fields@.len() == 0 <==> json::member(Some(node), "fields"@) is None,
        fields@.len() > 0 ==> {
            &&& json::member(Some(node), "fields"@) matches Some(Json::Object(pairs))
            &&& pairs@.len() == fields@.len()
            &&& forall|i: int|
                0 <= i < fields@.len() ==> (#[trigger] pairs@[i]).0@ == fields@[i].0@
                    && json::text_in(Some(pairs@[i].1)) == Some(fields@[i].1@)
        },
{
    reveal_strlit("event");
    reveal_strlit("level");
    reveal_strlit("target");
    reveal_strlit("message");
    reveal_strlit("fields");
    reveal_strlit("timestamp");
    assert("event"@.len() == 5);
    assert("level"@.len() == 5);
    assert("target"@.len() == 6);
    assert("message"@.len() == 7);
    assert("fields"@.len() == 6);
    assert("timestamp"@.len() == 9);
    assert("event"@[0] != "level"@[0]);
    assert("target"@[0] != "fields"@[0]);
    let pairs = node.shape()->Object_0;
    assert(pairs[0].0 == "event"@);
    assert(pairs[1].0 == "level"@);
    assert(pairs[2].0 == "target"@);
    assert(pairs[3].0 == "message"@);
    json::lemma_found_at(node, 0);
    json::lemma_found_at(node, 1);
    json::lemma_found_at(node, 2);
    json::lemma_found_at(node, 3);
    if fields@.len() == 0 {
        assert(pairs.len() == 5);
        assert(pairs[4].0 == "timestamp"@);
        json::lemma_found_at(node, 4);
        json::lemma_not_found(node, "fields"@);
    } else {
        assert(pairs[4].0 == "fields"@);
        assert(pairs[5].0 == "timestamp"@);
        json::lemma_found_at(node, 4);
        json::lemma_found_at(node, 5);
        let held = json::member(Some(node), "fields"@)->0;
        let shapes = field_shapes(fields@);
        assert(held.shape() == Shape::Object(shapes));
        if let Json::Object(inner) = held {
            assert(held.shape()->Object_0 =~= json::pair_shapes(inner@));
            assert forall|i: int| 0 <= i < fields@.len() implies (#[trigger] inner@[i]).0@
                == fields@[i].0@ && json::text_in(Some(inner@[i].1)) == Some(fields@[i].1@) by {
                assert(json::pair_shapes(inner@)[i] == shapes[i]);
            }
        }
    }
}

/// What came of an attempt to write.
#[derive(Debug)]
pub enum WriteOutcome {
    Written,
    /// No one reads any more.
    PipeClosed,
    /// Something else went wrong.
    Failed(String),
}

/// A step of writing a line.
#[derive(Debug, Clone, Copy, PartialEq, Eq, Structural)]
pub enum WriteStep {
    Event,
    Newline,
    Flush,
}

/// The state of a stream.
#[derive(Debug)]
pub struct NdjsonEventWriter {
    /// Whether no one reads any more.
    pub broken_pipe: bool,
}

/// What is said of a failed step.
pub open spec fn failure_notice(step: WriteStep, cause: Seq<char>) -> Seq<char> {
    (match step {
        WriteStep::Event => "warning: failed to write JSON event: "@,
        WriteStep::Newline => "warning: failed to write JSON newline: "@,
        WriteStep::Flush => "warning: failed to flush JSON output: "@,
    }) + cause
}

impl NdjsonEventWriter {
    /// A new stream, and its first line.
    #[must_use]
    pub fn new() -> (r: (Self, Event))
        ensures
            !r.0.broken_pipe,
            r.1 == (Event::Header { schema_version: SCHEMA_VERSION }),
    {
        (
            NdjsonEventWriter { broken_pipe: false },
            Event::Header { schema_version: SCHEMA_VERSION },
        )
    }

    /// Whether a path stands for the standard output.
    pub fn is_stdout(path: &str) -> (stdout: bool)
        ensures
            stdout == (path@.len() == 0 || path@ == "-"@),
    {
        let empty = same_text(path, "");
        proof {
            reveal_strlit("");
            assert(path@.len() == 0 <==> path@ =~= ""@);
        }
        empty || same_text(path, "-")
    }

    /// The line to write for an event, if any: none once no one reads.
    pub fn handle_event(&self, event: &RunEvent) -> (line: Option<Event>)
        ensures
            line is None <==> self.broken_pipe || *event is RunComplete,
            line matches Some(e) ==> projects(*event, e),
    {
        if self.broken_pipe {
            None
        } else {
            project(event)
        }
    }

    /// The line to write at the end of a run, if any: none once no one reads.
    pub fn write_run_complete(&self, passes: usize, total_failures: usize, elapsed: u64) -> (line:
        Option<Event>)
        ensures
            line == if self.broken_pipe {
                None
            } else {
                Some(Event::RunComplete { passes, total_failures, duration: elapsed })
            },
    {
        if self.broken_pipe {
            None
        } else {
            Some(Event::RunComplete { passes, total_failures, duration: elapsed })
        }
    }

    /// Take note of what came of a step. Returns what to tell the operator, if
    /// anything; the line is given up then. Once no one reads, it stays so.
    pub fn note(&mut self, step: WriteStep, outcome: WriteOutcome) -> (notice: Option<String>)
        ensures
            final(self).broken_pipe == (old(self).broken_pipe || outcome is PipeClosed),
            notice is None <==> outcome is Written,
            notice matches Some(s) ==> s@ == match outcome {
                WriteOutcome::Failed(cause) => failure_notice(step, cause@),
                _ => "warning: JSON output pipe closed; no further events will be written"@,
            },
    {
        match outcome {
            WriteOutcome::Written => None,
            WriteOutcome::PipeClosed => {
                self.broken_pipe = true;
                Some(
                    "warning: JSON output pipe closed; no further events will be written".to_owned(),
                )
            },
            WriteOutcome::Failed(cause) => {
                let mut s = String::new();
                match step {
                    WriteStep::Event => {
                        s.append("warning: failed to write JSON event: ");
                    },
                    WriteStep::Newline => {
                        s.append("warning: failed to write JSON newline: ");
                    },
                    WriteStep::Flush => {
                        s.append("warning: failed to flush JSON output: ");
                    },
                }
                s.append(&cause);
                assert(s@ =~= failure_notice(step, cause@));
                Some(s)
            },
        }
    }
}

} // verus!
