//! Results for a reader: lines of text with what happened, and a table at the
//! end.

use super::json::{self, Json};
use super::serial::{self, pretty};
use super::{CoverageDoc, ErrorAnalysisDoc, PassDoc, PatternDoc, ResultsDoc};
use crate::physmem::gap::GapReport;
use crate::style::{self, bold, green, red, yellow};
use crate::text::{
    self, align_left, align_right, decimal_string, hex16_string, hex_string, join,
};
use crate::units::Units;
use vstd::prelude::*;
use vstd::string::StringExecFns;

verus! {

/// The line about one pattern.
pub open spec fn pattern_line(
    name: Seq<char>,
    elapsed: Seq<char>,
    rate: Seq<char>,
    failure_count: u64,
    count: Seq<char>,
    interrupted: bool,
    capped: bool,
) -> Seq<char> {
    let suffix = if interrupted {
        "  (interrupted)"@
    } else {
        Seq::empty()
    };
    let columns = " "@ + text::left_aligned(name, 20) + " "@ + text::right_aligned(elapsed, 10)
        + "  "@ + rate;
    if failure_count == 0 {
        let label = if interrupted {
            style::in_bold(style::in_yellow("INTR"@))
        } else {
            style::in_green("PASS"@)
        };
        "  "@ + label + columns + suffix + "\n"@
    } else {
        let found = if capped {
            count + "+ failures, capped at --max-errors"@
        } else {
            count + " failures"@
        };
        "  "@ + style::in_bold(style::in_red("FAIL"@)) + columns + "  ("@ + found + ")"@ + suffix
            + "\n"@
    }
}

/// The line about one pattern: whether it passed, how long it took, how fast it
/// was, and how many failures it found. A clean result of a pattern that was
/// broken off does not count as passed. When more failures were found than
/// kept, the count says so.
pub fn write_pattern_result_line(
    name: &str,
    elapsed: &str,
    rate: &str,
    failure_count: u64,
    count: &str,
    interrupted: bool,
    capped: bool,
) -> (line: String)
    ensures
        line@ == pattern_line(
            name@,
            elapsed@,
            rate@,
            failure_count,
            count@,
            interrupted,
            capped,
        ),
{
    let mut s = String::new();
    s.append("  ");
    if failure_count == 0 {
        if interrupted {
            s.append(&bold(&yellow("INTR")));
        } else {
            s.append(&green("PASS"));
        }
    } else {
        s.append(&bold(&red("FAIL")));
    }
    s.append(" ");
    s.append(&align_left(name, 20));
    s.append(" ");
    s.append(&align_right(elapsed, 10));
    s.append("  ");
    s.append(rate);
    if failure_count > 0 {
        s.append("  (");
        s.append(count);
        if capped {
            s.append("+ failures, capped at --max-errors");
        } else {
            s.append(" failures");
        }
        s.append(")");
    }
    if interrupted {
        s.append("  (interrupted)");
    }
    s.append("\n");
    assert(s@ =~= pattern_line(
        name@,
        elapsed@,
        rate@,
        failure_count,
        count@,
        interrupted,
        capped,
    ));
    s
}

/// The line about one pass, and an empty line.
pub open spec fn pass_line(
    pass_number: u64,
    total_passes: u64,
    failures: u64,
    count: Seq<char>,
) -> Seq<char> {
    let verdict = if failures == 0 {
        style::in_green("all patterns passed"@)
    } else {
        style::in_bold(style::in_red(count + " total failure(s)"@))
    };
    "  Pass "@ + text::decimal(pass_number as int) + "/"@ + text::decimal(total_passes as int) + ": "@
        + verdict + "\n\n"@
}

/// The line about one pass, and an empty line.
pub fn write_pass_summary_line(
    pass_number: u64,
    total_passes: u64,
    failures: u64,
    count: &str,
) -> (line: String)
    ensures
        line@ == pass_line(pass_number, total_passes, failures, count@),
{
    let mut s = String::new();
    s.append("  Pass ");
    s.append(&decimal_string(pass_number));
    s.append("/");
    s.append(&decimal_string(total_passes));
    s.append(": ");
    if failures == 0 {
        s.append(&green("all patterns passed"));
    } else {
        let mut found = String::new();
        found.append(count);
        found.append(" total failure(s)");
        assert(found@ =~= count@ + " total failure(s)"@);
        s.append(&bold(&red(&found)));
    }
    s.append("\n\n");
    assert(s@ =~= pass_line(pass_number, total_passes, failures, count@));
    s
}

/// The last line.
pub open spec fn verdict_line(
    total_failures: u64,
    count: Seq<char>,
    suffix: Option<Seq<char>>,
) -> Seq<char> {
    let verdict = if total_failures == 0 {
        style::in_bold(style::in_green("All tests passed."@))
    } else {
        style::in_bold(style::in_red(count + " failure(s) detected."@))
    };
    let remark = match suffix {
        Some(s) => " ("@ + s + ")"@,
        None => Seq::empty(),
    };
    verdict + remark + "\n"@
}

/// A remark, if there is one.
pub open spec fn remark_of(suffix: Option<&str>) -> Option<Seq<char>> {
    match suffix {
        Some(s) => Some(s@),
        None => None,
    }
}

/// The last line: whether all passed, with a remark in brackets if there is one.
pub fn write_verdict_line(total_failures: u64, count: &str, suffix: Option<&str>) -> (line: String)
    ensures
        line@ == verdict_line(total_failures, count@, remark_of(suffix)),
{
    let mut s = String::new();
    if total_failures == 0 {
        s.append(&bold(&green("All tests passed.")));
    } else {
        let mut found = String::new();
        found.append(count);
        found.append(" failure(s) detected.");
        assert(found@ =~= count@ + " failure(s) detected."@);
        s.append(&bold(&red(&found)));
    }
    match suffix {
        Some(remark) => {
            s.append(" (");
            s.append(remark);
            s.append(")");
        },
        None => {},
    }
    s.append("\n");
    assert(s@ =~= verdict_line(total_failures, count@, remark_of(suffix)));
    s
}

/// The line about the untested memory.
pub open spec fn gap_line<U: Units>(units: U, gap: GapReport) -> Seq<char> {
    let unknown = if gap.unknown_bytes > 0 {
        " + "@ + units.size_text(gap.unknown_bytes) + " unknown"@
    } else {
        Seq::empty()
    };
    "  Untested:  "@ + units.size_text(gap.sum() as u64) + " = "@ + units.size_text(gap.free_bytes)
        + " free + "@ + units.size_text(gap.reclaimable_bytes) + " reclaimable + "@
        + units.size_text(gap.in_use_bytes) + " in-use + "@ + units.size_text(gap.unreachable_bytes)
        + " unreachable"@ + unknown + "\n"@
}

/// The line about the untested memory, class by class. What is not known is left
/// out if there is none.
pub fn write_gap_line<U: Units>(units: &U, gap: &GapReport) -> (line: String)
    requires
        gap.sum() <= u64::MAX,
    ensures
        line@ == gap_line(*units, *gap),
{
    let mut s = String::new();
    s.append("  Untested:  ");
    s.append(&units.size(gap.total_bytes()));
    s.append(" = ");
    s.append(&units.size(gap.free_bytes));
    s.append(" free + ");
    s.append(&units.size(gap.reclaimable_bytes));
    s.append(" reclaimable + ");
    s.append(&units.size(gap.in_use_bytes));
    s.append(" in-use + ");
    s.append(&units.size(gap.unreachable_bytes));
    s.append(" unreachable");
    if gap.unknown_bytes > 0 {
        s.append(" + ");
        s.append(&units.size(gap.unknown_bytes));
        s.append(" unknown");
    }
    s.append("\n");
    assert(s@ =~= gap_line(*units, *gap));
    s
}

/// The line about an optional gap report.
pub open spec fn optional_gap_line<U: Units>(units: U, gap: Option<GapReport>) -> Seq<char> {
    match gap {
        Some(g) => gap_line(units, g),
        None => Seq::empty(),
    }
}

/// The report when there is nothing new to test.
pub open spec fn ceiling_text<U: Units>(
    units: U,
    cumulative_bytes: u64,
    installed_bytes: u64,
    runs: u64,
    gap: Option<GapReport>,
) -> Seq<char> {
    "Nothing new to test: every acquirable frame is already covered.\n\nPhysical coverage\n  Cumulative: "@
        + units.size_text(cumulative_bytes) + " ("@ + units.percent_text(
        cumulative_bytes,
        installed_bytes,
    ) + ") across "@ + text::decimal(runs as int) + " run(s)\n"@ + optional_gap_line(units, gap)
        + "\nCoverage is at its ceiling for this boot; reboot to reshuffle occupancy and reach untested frames.\n"@
}

/// The report when there is nothing new to test: what was covered over all runs,
/// what the rest is, and what to do to get at it.
pub fn render_ceiling_report<U: Units>(
    units: &U,
    cumulative_bytes: u64,
    installed_bytes: u64,
    runs: u64,
    gap: Option<GapReport>,
) -> (report: String)
    requires
        gap matches Some(g) ==> g.sum() <= u64::MAX,
    ensures
        report@ == ceiling_text(*units, cumulative_bytes, installed_bytes, runs, gap),
{
    let mut s = String::new();
    s.append(
        "Nothing new to test: every acquirable frame is already covered.\n\nPhysical coverage\n  Cumulative: ",
    );
    s.append(&units.size(cumulative_bytes));
    s.append(" (");
    s.append(&units.percent(cumulative_bytes, installed_bytes));
    s.append(") across ");
    s.append(&decimal_string(runs));
    s.append(" run(s)\n");
    match &gap {
        Some(g) => {
            s.append(&write_gap_line(units, g));
        },
        None => {},
    }
    s.append(
        "\nCoverage is at its ceiling for this boot; reboot to reshuffle occupancy and reach untested frames.\n",
    );
    assert(s@ =~= ceiling_text(*units, cumulative_bytes, installed_bytes, runs, gap));
    s
}

/// The numbers about untested memory that a document holds.
pub open spec fn gap_in(cov: CoverageDoc) -> Option<GapReport> {
    if json::is_object(cov.at("gap"@)) {
        let gap = super::GapDoc { json: &cov.at("gap"@)->0 };
        Some(
            GapReport {
                free_bytes: gap.bytes("free_bytes"@),
                reclaimable_bytes: gap.bytes("reclaimable_bytes"@),
                in_use_bytes: gap.bytes("in_use_bytes"@),
                unreachable_bytes: gap.bytes("unreachable_bytes"@),
                unknown_bytes: gap.bytes("unknown_bytes"@),
            },
        )
    } else {
        None
    }
}

/// The lines about several runs, if these were recorded.
pub open spec fn cumulative_lines<U: Units>(units: U, cov: CoverageDoc) -> Seq<char> {
    if json::is_object(cov.at("cumulative"@)) {
        let cum = cov.at("cumulative"@);
        let total = json::unsigned_or_zero(cov.at("total_bytes"@));
        let covered = json::unsigned_or_zero(json::member(cum, "cumulative_bytes"@));
        "  New:       "@ + units.size_text(json::unsigned_or_zero(json::member(cum, "new_bytes"@)))
            + " this run\n  Cumulative: "@ + units.size_text(covered) + " ("@ + units.percent_text(
            covered,
            total,
        ) + ") across "@ + text::decimal(
            json::unsigned_or_zero(json::member(cum, "runs"@)) as int,
        ) + " run(s)\n"@
    } else {
        Seq::empty()
    }
}

/// The block about how much of the memory was tested.
pub open spec fn coverage_block<U: Units>(units: U, cov: CoverageDoc) -> Seq<char> {
    if json::text_in(cov.at("status"@)) != Some("measured"@) {
        "\nPhysical coverage\n  unavailable (no physical address resolution)\n"@
    } else {
        let tested = json::unsigned_or_zero(cov.at("tested_bytes"@));
        let total = json::unsigned_or_zero(cov.at("total_bytes"@));
        "\nPhysical coverage\n  Tested:    "@ + units.size_text(tested) + "\n  Installed: "@
            + units.size_text(total) + "  ("@ + cov.source() + ")\n  Coverage:  "@
            + units.percent_text(tested, total) + "\n"@ + cumulative_lines(units, cov)
            + optional_gap_line(units, gap_in(cov))
    }
}

/// Whether the untested bytes in a document can be added up.
pub open spec fn gap_is_countable(cov: CoverageDoc) -> bool {
    gap_in(cov) matches Some(gap) ==> gap.sum() <= u64::MAX
}

/// The block about how much of the memory was tested.
pub fn render_coverage<U: Units>(units: &U, cov: &CoverageDoc<'_>) -> (block: String)
    requires
        gap_is_countable(*cov),
    ensures
        block@ == coverage_block(*units, *cov),
{
    let mut s = String::new();
    if !cov.is_measured() {
        s.append("\nPhysical coverage\n  unavailable (no physical address resolution)\n");
        assert(s@ =~= coverage_block(*units, *cov));
        return s;
    }
    let tested = cov.tested_bytes();
    let total = cov.total_bytes();
    s.append("\nPhysical coverage\n  Tested:    ");
    s.append(&units.size(tested));
    s.append("\n  Installed: ");
    s.append(&units.size(total));
    s.append("  (");
    s.append(cov.source_label());
    s.append(")\n  Coverage:  ");
    s.append(&units.percent(tested, total));
    s.append("\n");
    let ghost head = s@;
    match cov.cumulative() {
        Some(cum) => {
            let covered = cum.cumulative_bytes();
            s.append("  New:       ");
            s.append(&units.size(cum.new_bytes()));
            s.append(" this run\n  Cumulative: ");
            s.append(&units.size(covered));
            s.append(" (");
            s.append(&units.percent(covered, cum.installed_bytes));
            s.append(") across ");
            s.append(&decimal_string(cum.runs()));
            s.append(" run(s)\n");
        },
        None => {},
    }
    assert(s@ =~= head + cumulative_lines(*units, *cov));
    let ghost upper = s@;
    match cov.gap() {
        Some(gap) => {
            let report = GapReport {
                free_bytes: gap.free_bytes(),
                reclaimable_bytes: gap.reclaimable_bytes(),
                in_use_bytes: gap.in_use_bytes(),
                unreachable_bytes: gap.unreachable_bytes(),
                unknown_bytes: gap.unknown_bytes(),
            };
            assert(gap_in(*cov) == Some(report));
            s.append(&write_gap_line(units, &report));
        },
        None => {},
    }
    assert(s@ =~= upper + optional_gap_line(*units, gap_in(*cov)));
    assert(s@ =~= coverage_block(*units, *cov));
    s
}

/// The line about a pattern in a document.
pub open spec fn pattern_text<U: Units>(units: U, pattern: Json) -> Seq<char> {
    let doc = PatternDoc { json: &pattern };
    let elapsed = json::member(Some(pattern), "elapsed"@);
    let failures = super::failures_listed(pattern) as u64;
    pattern_line(
        doc.name(),
        units.elapsed_text(elapsed),
        units.rate_text(
            json::unsigned_or_zero(json::member(Some(pattern), "bytes_processed"@)),
            elapsed,
        ),
        failures,
        units.count_text(failures),
        json::is_true(json::member(Some(pattern), "interrupted"@)),
        json::is_true(json::member(Some(pattern), "capped"@)),
    )
}

/// The lines about the first `n` patterns in a document.
pub open spec fn pattern_texts<U: Units>(units: U, patterns: Seq<Json>, n: int) -> Seq<char>
    decreases n,
{
    if n <= 0 {
        Seq::empty()
    } else {
        pattern_texts(units, patterns, n - 1) + pattern_text(units, patterns[n - 1])
    }
}

/// The lines about a pass in a document.
pub open spec fn pass_text<U: Units>(units: U, total_passes: u64, pass: Json) -> Seq<char> {
    let doc = PassDoc { json: &pass };
    let failures = doc.failures() as u64;
    pattern_texts(units, doc.patterns(), doc.patterns().len() as int) + pass_line(
        json::unsigned_or_zero(json::member(Some(pass), "pass_number"@)),
        total_passes,
        failures,
        units.count_text(failures),
    )
}

/// The lines about the first `n` passes in a document.
pub open spec fn pass_texts<U: Units>(
    units: U,
    total_passes: u64,
    passes: Seq<Json>,
    n: int,
) -> Seq<char>
    decreases n,
{
    if n <= 0 {
        Seq::empty()
    } else {
        pass_texts(units, total_passes, passes, n - 1) + pass_text(
            units,
            total_passes,
            passes[n - 1],
        )
    }
}

/// The lines about a pass.
fn render_pass<U: Units>(units: &U, total_passes: u64, pass: &PassDoc<'_>) -> (s: String)
    requires
        pass.failures() <= u64::MAX,
    ensures
        s@ == pass_text(*units, total_passes, *pass.json),
{
    let patterns = pass.pattern_results();
    let ghost all = pass.patterns();
    let mut s = String::new();
    let mut i: usize = 0;
    while i < patterns.len()
        invariant
            i <= patterns@.len(),
            patterns@.len() == all.len(),
            forall|k: int| 0 <= k < patterns@.len() ==> *(#[trigger] patterns@[k]).json == all[k],
            s@ == pattern_texts(*units, all, i as int),
        decreases patterns@.len() - i,
    {
        let p = &patterns[i];
        assert(*p.json == all[i as int]);
        let failures = p.failure_count();
        let elapsed = units.elapsed(p.elapsed());
        let rate = units.rate(p.bytes_processed(), p.elapsed());
        let line = write_pattern_result_line(
            p.pattern_name(),
            &elapsed,
            &rate,
            failures,
            &units.count(failures),
            p.interrupted(),
            p.capped(),
        );
        assert(line@ == pattern_text(*units, all[i as int]));
        s.append(&line);
        i = i + 1;
    }
    let failures = pass.total_failures();
    s.append(
        &write_pass_summary_line(pass.pass_number(), total_passes, failures, &units.count(failures)),
    );
    s
}

/// The bits and how often each flipped, in words.
pub open spec fn flips_shown<U: Units>(units: U, flips: Seq<(u8, u32)>) -> Seq<Seq<char>> {
    Seq::new(
        flips.len(),
        |i: int|
            "bit "@ + text::decimal(flips[i].0 as int) + " ("@ + units.count_text(
                flips[i].1 as u64,
            ) + "x)"@,
    )
}

/// The patterns and how many failures each found, in words.
pub open spec fn shares_shown<U: Units>(units: U, shares: Seq<(Seq<char>, u64)>) -> Seq<Seq<char>> {
    Seq::new(shares.len(), |i: int| shares[i].0 + ": "@ + units.count_text(shares[i].1))
}

/// The block about the kind of errors.
pub open spec fn analysis_block<U: Units>(units: U, ea: ErrorAnalysisDoc) -> Seq<char> {
    let head = "\n  Error analysis: "@ + ea.kind() + "\n  Affected bits: 0x"@ + text::hex16(
        json::unsigned_or_zero(ea.at("union_xor_mask"@)) as int,
    ) + "\n"@;
    let flips = if ea.flips().len() > 0 {
        "  Bit flip counts: "@ + text::joined(flips_shown(units, ea.flips())) + "\n"@
    } else {
        Seq::empty()
    };
    let range = match (
        json::unsigned_in(ea.at("lowest_phys"@)),
        json::unsigned_in(ea.at("highest_phys"@)),
    ) {
        (Some(lo), Some(hi)) => "  Physical address range: 0x"@ + text::hex(lo as int) + " -- 0x"@
            + text::hex(hi as int) + "\n"@,
        _ => Seq::empty(),
    };
    let shares = if ea.per_pattern().len() > 0 {
        "  Per-pattern failures: "@ + text::joined(shares_shown(units, ea.per_pattern())) + "\n"@
    } else {
        Seq::empty()
    };
    head + flips + range + shares
}

/// The bits and how often each flipped, in words.
fn show_flips<U: Units>(units: &U, flips: &[(u8, u32)]) -> (s: String)
    ensures
        s@ == text::joined(flips_shown(*units, flips@)),
{
    let mut parts: Vec<String> = Vec::new();
    let mut i: usize = 0;
    while i < flips.len()
        invariant
            i <= flips@.len(),
            parts@.len() == i,
            forall|k: int| 0 <= k < i ==> (#[trigger] parts@[k])@ == flips_shown(*units, flips@)[k],
        decreases flips@.len() - i,
    {
        let mut part = String::new();
        part.append("bit ");
        part.append(&decimal_string(flips[i].0 as u64));
        part.append(" (");
        part.append(&units.count(flips[i].1 as u64));
        part.append("x)");
        assert(part@ =~= flips_shown(*units, flips@)[i as int]);
        parts.push(part);
        i = i + 1;
    }
    assert(text::string_texts(parts@) =~= flips_shown(*units, flips@));
    join(&parts)
}

/// The patterns and how many failures each found, in words.
fn show_shares<U: Units>(units: &U, shares: &[(String, u64)]) -> (s: String)
    ensures
        s@ == text::joined(shares_shown(*units, super::named_counts(shares@))),
{
    let ghost all = super::named_counts(shares@);
    let mut parts: Vec<String> = Vec::new();
    let mut i: usize = 0;
    while i < shares.len()
        invariant
            i <= shares@.len(),
            all == super::named_counts(shares@),
            parts@.len() == i,
            forall|k: int| 0 <= k < i ==> (#[trigger] parts@[k])@ == shares_shown(*units, all)[k],
        decreases shares@.len() - i,
    {
        let mut part = String::new();
        part.append(&shares[i].0);
        part.append(": ");
        part.append(&units.count(shares[i].1));
        assert(part@ =~= shares_shown(*units, all)[i as int]);
        parts.push(part);
        i = i + 1;
    }
    assert(text::string_texts(parts@) =~= shares_shown(*units, all));
    join(&parts)
}

/// The block about the kind of errors: which bits flipped and how often, where,
/// and which pattern found how many.
pub fn render_analysis<U: Units>(units: &U, ea: &ErrorAnalysisDoc<'_>) -> (block: String)
    ensures
        block@ == analysis_block(*units, *ea),
{
    let mut s = String::new();
    s.append("\n  Error analysis: ");
    s.append(&ea.classification_str());
    s.append("\n  Affected bits: 0x");
    s.append(&hex16_string(ea.union_xor_mask()));
    s.append("\n");
    let flips = ea.bit_positions();
    if flips.len() > 0 {
        s.append("  Bit flip counts: ");
        s.append(&show_flips(units, &flips));
        s.append("\n");
    }
    match (ea.lowest_phys(), ea.highest_phys()) {
        (Some(lo), Some(hi)) => {
            s.append("  Physical address range: 0x");
            s.append(&hex_string(lo));
            s.append(" -- 0x");
            s.append(&hex_string(hi));
            s.append("\n");
        },
        _ => {},
    }
    let shares = ea.per_pattern_failures();
    assert(super::named_counts(shares@).len() == shares@.len());
    if shares.len() > 0 {
        s.append("  Per-pattern failures: ");
        s.append(&show_shares(units, &shares));
        s.append("\n");
    }
    assert(s@ =~= analysis_block(*units, *ea));
    s
}

/// Whether everything in a document that is added up can be.
pub open spec fn is_countable(doc: ResultsDoc) -> bool {
    let passes = json::items_in(json::member(doc.root(), "passes"@));
    &&& forall|i: int|
        0 <= i < passes.len() ==> (PassDoc { json: &#[trigger] passes[i] }).failures() <= u64::MAX
    &&& json::is_object(json::member(doc.root(), "coverage"@)) ==> gap_is_countable(
        CoverageDoc { json: &json::member(doc.root(), "coverage"@)->0 },
    )
}

/// Whether the failures of a pass can be added up.
fn pass_is_countable(pass: &PassDoc<'_>) -> (countable: bool)
    ensures
        countable == (pass.failures() <= u64::MAX),
{
    let patterns = pass.pattern_results();
    let ghost all = pass.patterns();
    let mut n: u64 = 0;
    let mut i: usize = 0;
    while i < patterns.len()
        invariant
            i <= patterns@.len(),
            all == pass.patterns(),
            patterns@.len() == all.len(),
            forall|k: int| 0 <= k < patterns@.len() ==> *(#[trigger] patterns@[k]).json == all[k],
            n == super::failures_among(all, i as int),
        decreases patterns@.len() - i,
    {
        assert(*patterns@[i as int].json == all[i as int]);
        match n.checked_add(patterns[i].failure_count()) {
            Some(sum) => {
                n = sum;
            },
            None => {
                proof {
                    super::lemma_failures_grow(all, i + 1, all.len() as int);
                }
                return false;
            },
        }
        i = i + 1;
    }
    true
}

/// Whether everything in a document that is added up can be. A document of a run
/// always is; one from a file may not be.
pub fn document_is_countable(doc: &ResultsDoc) -> (countable: bool)
    ensures
        countable == is_countable(*doc),
{
    let passes = doc.passes();
    let ghost all = json::items_in(json::member(doc.root(), "passes"@));
    let mut i: usize = 0;
    while i < passes.len()
        invariant
            i <= passes@.len(),
            all == json::items_in(json::member(doc.root(), "passes"@)),
            passes@.len() == all.len(),
            forall|k: int| 0 <= k < passes@.len() ==> *(#[trigger] passes@[k]).json == all[k],
            forall|k: int|
                0 <= k < i ==> (PassDoc { json: &#[trigger] all[k] }).failures() <= u64::MAX,
        decreases passes@.len() - i,
    {
        assert(PassDoc { json: &all[i as int] } == passes@[i as int]);
        if !pass_is_countable(&passes[i]) {
            return false;
        }
        i = i + 1;
    }
    match doc.coverage() {
        Some(cov) => match cov.gap() {
            Some(gap) => {
                let sum: u128 = gap.free_bytes() as u128 + gap.reclaimable_bytes() as u128
                    + gap.in_use_bytes() as u128 + gap.unreachable_bytes() as u128
                    + gap.unknown_bytes() as u128;
                sum <= u64::MAX as u128
            },
            None => true,
        },
        None => true,
    }
}

/// Something that writes a results document for a reader.
pub trait ResultsRenderer {
    /// Whether the document can be written.
    spec fn accepts(&self, doc: ResultsDoc) -> bool;

    /// How the document reads.
    spec fn rendered(&self, doc: ResultsDoc) -> Seq<char>;

    /// Write the document.
    fn render(&self, doc: &ResultsDoc) -> (s: String)
        requires
            self.accepts(*doc),
        ensures
            s@ == self.rendered(*doc),
    ;
}

/// The whole document, over several lines.
#[derive(Debug)]
pub struct JsonRenderer;

impl ResultsRenderer for JsonRenderer {
    open spec fn accepts(&self, doc: ResultsDoc) -> bool {
        true
    }

    open spec fn rendered(&self, doc: ResultsDoc) -> Seq<char> {
        serial::pretty_text(serial::tree_of(doc.json.shape())) + "\n"@
    }

    fn render(&self, doc: &ResultsDoc) -> (s: String) {
        let mut s = pretty(&doc.json);
        s.append("\n");
        s
    }
}

/// A summary with the kind of errors, the coverage and the verdict; in full also
/// with a line for every pattern and pass.
#[derive(Debug)]
pub struct TableRenderer<U> {
    pub units: U,
    pub full: bool,
}

/// The table of a document.
pub open spec fn table_text<U: Units>(units: U, full: bool, doc: ResultsDoc) -> Seq<char> {
    let passes = json::items_in(json::member(doc.root(), "passes"@));
    let total_passes = json::unsigned_or_zero(
        json::member(json::member(doc.root(), "config"@), "passes"@),
    );
    let detail = if full {
        pass_texts(units, total_passes, passes, passes.len() as int)
    } else {
        Seq::empty()
    };
    let ea = json::member(doc.root(), "error_analysis"@);
    let analysis = if json::is_object(ea) {
        analysis_block(units, ErrorAnalysisDoc { json: &ea->0 })
    } else {
        Seq::empty()
    };
    let cov = json::member(doc.root(), "coverage"@);
    let coverage = if json::is_object(cov) {
        coverage_block(units, CoverageDoc { json: &cov->0 })
    } else {
        Seq::empty()
    };
    let failures = json::unsigned_or_zero(json::member(doc.root(), "total_failures"@));
    detail + analysis + coverage + "\n"@ + verdict_line(
        failures,
        units.count_text(failures),
        Some(units.elapsed_text(json::member(doc.root(), "elapsed"@))),
    )
}

impl<U: Units> TableRenderer<U> {
    /// A summary, for when every pattern has been shown as it ended.
    #[must_use]
    pub fn new(units: U) -> (renderer: Self)
        ensures
            renderer == (TableRenderer { units, full: false }),
    {
        TableRenderer { units, full: false }
    }

    /// Everything, for when nothing has been shown yet.
    #[must_use]
    pub fn full(units: U) -> (renderer: Self)
        ensures
            renderer == (TableRenderer { units, full: true }),
    {
        TableRenderer { units, full: true }
    }
}

impl<U: Units> ResultsRenderer for TableRenderer<U> {
    open spec fn accepts(&self, doc: ResultsDoc) -> bool {
        is_countable(doc)
    }

    open spec fn rendered(&self, doc: ResultsDoc) -> Seq<char> {
        table_text(self.units, self.full, doc)
    }

    fn render(&self, doc: &ResultsDoc) -> (s: String) {
        let mut s = String::new();
        if self.full {
            let total_passes = doc.config().passes();
            let passes = doc.passes();
            let ghost all = json::items_in(json::member(doc.root(), "passes"@));
            let mut i: usize = 0;
            while i < passes.len()
                invariant
                    i <= passes@.len(),
                    is_countable(*doc),
                    all == json::items_in(json::member(doc.root(), "passes"@)),
                    passes@.len() == all.len(),
                    forall|k: int|
                        0 <= k < passes@.len() ==> *(#[trigger] passes@[k]).json == all[k],
                    s@ == pass_texts(self.units, total_passes, all, i as int),
                decreases passes@.len() - i,
            {
                assert(*passes@[i as int].json == all[i as int]);
                assert(PassDoc { json: &all[i as int] } == passes@[i as int]);
                s.append(&render_pass(&self.units, total_passes, &passes[i]));
                i = i + 1;
            }
        }
        if let Some(ea) = doc.error_analysis() {
            s.append(&render_analysis(&self.units, &ea));
        }
        if let Some(cov) = doc.coverage() {
            s.append(&render_coverage(&self.units, &cov));
        }
        s.append("\n");
        let failures = doc.total_failures();
        let elapsed = self.units.elapsed(doc.elapsed());
        s.append(&write_verdict_line(failures, &self.units.count(failures), Some(&elapsed)));
        assert(s@ =~= table_text(self.units, self.full, *doc));
        s
    }
}

/// A text in color holds the text.
pub proof fn lemma_colors_hold(s: Seq<char>)
    ensures
        text::holds_text(style::in_green(s), s),
        text::holds_text(style::in_red(s), s),
        text::holds_text(style::in_bold(style::in_green(s)), s),
        text::holds_text(style::in_bold(style::in_red(s)), s),
        text::holds_text(style::in_bold(style::in_yellow(s)), s),
{
    text::lemma_holds_itself(s);
    style::law_emphasis_keeps_the_text(s, s);
    style::law_emphasis_keeps_the_text(style::in_green(s), s);
    style::law_emphasis_keeps_the_text(style::in_red(s), s);
    style::law_emphasis_keeps_the_text(style::in_yellow(s), s);
}

/// The line about a pattern says that it passed exactly if it found nothing and ran to
/// its end, names the pattern, and tells how long it took, how fast it was and how many
/// failures it found.
pub proof fn law_pattern_line_tells_the_result(
    name: Seq<char>,
    elapsed: Seq<char>,
    rate: Seq<char>,
    failure_count: u64,
    count: Seq<char>,
    interrupted: bool,
    capped: bool,
)
    ensures
        ({
            let line = pattern_line(
                name,
                elapsed,
                rate,
                failure_count,
                count,
                interrupted,
                capped,
            );
            &&& text::holds_text(line, name)
            &&& text::holds_text(line, elapsed)
            &&& text::holds_text(line, rate)
            &&& failure_count == 0 && !interrupted ==> text::holds_text(line, "PASS"@)
            &&& failure_count == 0 && interrupted ==> text::holds_text(line, "INTR"@)
            &&& failure_count > 0 ==> text::holds_text(line, "FAIL"@)
            &&& failure_count > 0 && !capped ==> text::holds_text(line, count + " failures"@)
            &&& failure_count > 0 && capped ==> text::holds_text(
                line,
                count + "+ failures, capped at --max-errors"@,
            )
            &&& interrupted ==> text::holds_text(line, "  (interrupted)"@)
        }),
{
    let line = pattern_line(name, elapsed, rate, failure_count, count, interrupted, capped);
    let suffix = if interrupted {
        "  (interrupted)"@
    } else {
        Seq::empty()
    };
    let left = text::left_aligned(name, 20);
    let right = text::right_aligned(elapsed, 10);
    let columns = " "@ + left + " "@ + right + "  "@ + rate;
    text::lemma_text_grows(name, text::blanks(20 - name.len()));
    text::lemma_text_grows(text::blanks(10 - elapsed.len()), elapsed);
    text::lemma_text_grows(" "@, left);
    text::lemma_text_grows(" "@ + left, " "@);
    text::lemma_text_grows(" "@ + left + " "@, right);
    text::lemma_text_grows(" "@ + left + " "@ + right, "  "@);
    text::lemma_text_grows(" "@ + left + " "@ + right + "  "@, rate);
    lemma_colors_hold("PASS"@);
    lemma_colors_hold("INTR"@);
    lemma_colors_hold("FAIL"@);
    let label = if failure_count > 0 {
        style::in_bold(style::in_red("FAIL"@))
    } else if interrupted {
        style::in_bold(style::in_yellow("INTR"@))
    } else {
        style::in_green("PASS"@)
    };
    let head = "  "@ + label + columns;
    text::lemma_text_grows("  "@, label);
    text::lemma_text_grows("  "@ + label, columns);
    if failure_count == 0 {
        text::lemma_text_grows(head, suffix);
        text::lemma_text_grows(head + suffix, "\n"@);
    } else {
        let found = if capped {
            count + "+ failures, capped at --max-errors"@
        } else {
            count + " failures"@
        };
        text::lemma_text_grows(head, "  ("@);
        text::lemma_text_grows(head + "  ("@, found);
        text::lemma_text_grows(head + "  ("@ + found, ")"@);
        text::lemma_text_grows(head + "  ("@ + found + ")"@, suffix);
        text::lemma_text_grows(head + "  ("@ + found + ")"@ + suffix, "\n"@);
    }
}

/// The line about a pass says which of how many it was, and that all passed exactly if it
/// had no failures; else it tells how many.
pub proof fn law_pass_line_tells_the_result(
    pass_number: u64,
    total_passes: u64,
    failures: u64,
    count: Seq<char>,
)
    ensures
        ({
            let line = pass_line(pass_number, total_passes, failures, count);
            &&& text::holds_text(
                line,
                text::decimal(pass_number as int) + "/"@ + text::decimal(total_passes as int),
            )
            &&& failures == 0 ==> text::holds_text(line, "all patterns passed"@)
            &&& failures > 0 ==> text::holds_text(line, count + " total failure(s)"@)
        }),
{
    let verdict = if failures == 0 {
        style::in_green("all patterns passed"@)
    } else {
        style::in_bold(style::in_red(count + " total failure(s)"@))
    };
    let pass = text::decimal(pass_number as int);
    let of = text::decimal(total_passes as int);
    let head = "  Pass "@ + pass + "/"@ + of;
    text::lemma_holds_pieces("  Pass "@, pass, "/"@, of);
    lemma_colors_hold("all patterns passed"@);
    lemma_colors_hold(count + " total failure(s)"@);
    text::lemma_text_grows(head, ": "@);
    text::lemma_text_grows(head + ": "@, verdict);
    text::lemma_text_grows(head + ": "@ + verdict, "\n\n"@);
}

/// The last line says that all passed exactly if nothing failed; else it tells how many
/// failures there were. A remark stands in brackets.
pub proof fn law_verdict_line_tells_the_result(
    total_failures: u64,
    count: Seq<char>,
    suffix: Option<Seq<char>>,
)
    ensures
        ({
            let line = verdict_line(total_failures, count, suffix);
            &&& total_failures == 0 ==> text::holds_text(line, "All tests passed."@)
            &&& total_failures > 0 ==> text::holds_text(line, count + " failure(s) detected."@)
            &&& suffix matches Some(s) ==> text::holds_text(line, " ("@ + s + ")"@)
        }),
{
    let verdict = if total_failures == 0 {
        style::in_bold(style::in_green("All tests passed."@))
    } else {
        style::in_bold(style::in_red(count + " failure(s) detected."@))
    };
    let remark = match suffix {
        Some(s) => " ("@ + s + ")"@,
        None => Seq::empty(),
    };
    lemma_colors_hold("All tests passed."@);
    lemma_colors_hold(count + " failure(s) detected."@);
    text::lemma_text_grows(verdict, remark);
    text::lemma_text_grows(verdict + remark, "\n"@);
}

/// The line about the untested memory tells the whole and each class by its name; what is
/// not known is told if there is any.
pub proof fn law_gap_line_tells_each_class<U: Units>(units: U, gap: GapReport)
    ensures
        ({
            let line = gap_line(units, gap);
            &&& text::holds_text(line, "  Untested:  "@ + units.size_text(gap.sum() as u64))
            &&& text::holds_text(line, units.size_text(gap.free_bytes) + " free + "@)
            &&& text::holds_text(line, units.size_text(gap.reclaimable_bytes) + " reclaimable + "@)
            &&& text::holds_text(line, units.size_text(gap.in_use_bytes) + " in-use + "@)
            &&& text::holds_text(line, units.size_text(gap.unreachable_bytes) + " unreachable"@)
            &&& gap.unknown_bytes > 0 ==> text::holds_text(
                line,
                " + "@ + units.size_text(gap.unknown_bytes) + " unknown"@,
            )
        }),
{
    let free = units.size_text(gap.free_bytes);
    let reclaimable = units.size_text(gap.reclaimable_bytes);
    let in_use = units.size_text(gap.in_use_bytes);
    let unreachable = units.size_text(gap.unreachable_bytes);
    let unknown = if gap.unknown_bytes > 0 {
        " + "@ + units.size_text(gap.unknown_bytes) + " unknown"@
    } else {
        Seq::empty()
    };
    let none = Seq::<char>::empty();
    let l0 = "  Untested:  "@ + units.size_text(gap.sum() as u64);
    let l1 = l0 + " = "@;
    let l2 = l1 + free;
    let l3 = l2 + " free + "@;
    let l4 = l3 + reclaimable;
    let l5 = l4 + " reclaimable + "@;
    let l6 = l5 + in_use;
    let l7 = l6 + " in-use + "@;
    let l8 = l7 + unreachable;
    let l9 = l8 + " unreachable"@;
    text::lemma_text_grows(l0, " = "@);
    text::lemma_text_grows(l1, free);
    text::lemma_text_grows(l2, " free + "@);
    text::lemma_holds_pieces(l1, free, " free + "@, none);
    text::lemma_text_grows(l3, reclaimable);
    text::lemma_text_grows(l4, " reclaimable + "@);
    text::lemma_holds_pieces(l3, reclaimable, " reclaimable + "@, none);
    text::lemma_text_grows(l5, in_use);
    text::lemma_text_grows(l6, " in-use + "@);
    text::lemma_holds_pieces(l5, in_use, " in-use + "@, none);
    text::lemma_text_grows(l7, unreachable);
    text::lemma_text_grows(l8, " unreachable"@);
    text::lemma_holds_pieces(l7, unreachable, " unreachable"@, none);
    text::lemma_text_grows(l9, unknown);
    text::lemma_text_grows(l9 + unknown, "\n"@);
}

/// The report of a ceiling tells what was covered, of how much, over how many runs, and
/// what the rest is.
pub proof fn law_ceiling_report_tells_what_was_covered<U: Units>(
    units: U,
    cumulative_bytes: u64,
    installed_bytes: u64,
    runs: u64,
    gap: Option<GapReport>,
)
    ensures
        ({
            let report = ceiling_text(units, cumulative_bytes, installed_bytes, runs, gap);
            &&& text::holds_text(
                report,
                units.size_text(cumulative_bytes) + " ("@ + units.percent_text(
                    cumulative_bytes,
                    installed_bytes,
                ),
            )
            &&& text::holds_text(
                report,
                ") across "@ + text::decimal(runs as int) + " run(s)\n"@,
            )
            &&& gap matches Some(g) ==> text::holds_text(report, gap_line(units, g))
        }),
{
    let head =
        "Nothing new to test: every acquirable frame is already covered.\n\nPhysical coverage\n  Cumulative: "@;
    let covered = units.size_text(cumulative_bytes);
    let part = units.percent_text(cumulative_bytes, installed_bytes);
    let l1 = head + covered + " ("@ + part;
    let l2 = l1 + ") across "@ + text::decimal(runs as int) + " run(s)\n"@;
    let line = optional_gap_line(units, gap);
    text::lemma_holds_pieces(head, covered, " ("@, part);
    text::lemma_text_grows(l1, ") across "@);
    text::lemma_text_grows(l1 + ") across "@, text::decimal(runs as int));
    text::lemma_text_grows(l1 + ") across "@ + text::decimal(runs as int), " run(s)\n"@);
    text::lemma_holds_pieces(l1, ") across "@, text::decimal(runs as int), " run(s)\n"@);
    text::lemma_text_grows(l2, line);
    text::lemma_text_grows(
        l2 + line,
        "\nCoverage is at its ceiling for this boot; reboot to reshuffle occupancy and reach untested frames.\n"@,
    );
}

/// The block about coverage tells what was tested and what is installed, and how much the
/// one is of the other; and what the rest is, if it is known.
pub proof fn law_coverage_block_tells_the_numbers<U: Units>(units: U, cov: CoverageDoc)
    requires
        json::text_in(cov.at("status"@)) == Some("measured"@),
    ensures
        ({
            let block = coverage_block(units, cov);
            let tested = json::unsigned_or_zero(cov.at("tested_bytes"@));
            let total = json::unsigned_or_zero(cov.at("total_bytes"@));
            &&& text::holds_text(
                block,
                "\nPhysical coverage\n  Tested:    "@ + units.size_text(tested),
            )
            &&& text::holds_text(block, "\n  Installed: "@ + units.size_text(total))
            &&& text::holds_text(
                block,
                ")\n  Coverage:  "@ + units.percent_text(tested, total) + "\n"@,
            )
            &&& text::holds_text(block, cumulative_lines(units, cov))
            &&& gap_in(cov) matches Some(g) ==> text::holds_text(block, gap_line(units, g))
        }),
{
    let tested = json::unsigned_or_zero(cov.at("tested_bytes"@));
    let total = json::unsigned_or_zero(cov.at("total_bytes"@));
    let several = cumulative_lines(units, cov);
    let gap = optional_gap_line(units, gap_in(cov));
    let none = Seq::<char>::empty();
    let installed = units.size_text(total);
    let part = units.percent_text(tested, total);
    let l0 = "\nPhysical coverage\n  Tested:    "@ + units.size_text(tested);
    let l1 = l0 + "\n  Installed: "@;
    let l2 = l1 + installed;
    let l3 = l2 + "  ("@;
    let l4 = l3 + cov.source();
    let l5 = l4 + ")\n  Coverage:  "@;
    let l6 = l5 + part;
    let l7 = l6 + "\n"@;
    text::lemma_text_grows(l0, "\n  Installed: "@);
    text::lemma_text_grows(l1, installed);
    text::lemma_holds_pieces(l0, "\n  Installed: "@, installed, none);
    text::lemma_text_grows(l2, "  ("@);
    text::lemma_text_grows(l3, cov.source());
    text::lemma_text_grows(l4, ")\n  Coverage:  "@);
    text::lemma_text_grows(l5, part);
    text::lemma_text_grows(l6, "\n"@);
    text::lemma_holds_pieces(l4, ")\n  Coverage:  "@, part, "\n"@);
    text::lemma_text_grows(l7, several);
    text::lemma_text_grows(l7 + several, gap);
}

/// The lines about several runs tell what this one added, what all covered, how much that
/// is of the memory, and how many there were.
pub proof fn law_cumulative_lines_tell_the_numbers<U: Units>(units: U, cov: CoverageDoc)
    requires
        json::is_object(cov.at("cumulative"@)),
    ensures
        ({
            let lines = cumulative_lines(units, cov);
            let cum = cov.at("cumulative"@);
            let covered = json::unsigned_or_zero(json::member(cum, "cumulative_bytes"@));
            let total = json::unsigned_or_zero(cov.at("total_bytes"@));
            &&& text::holds_text(
                lines,
                "  New:       "@ + units.size_text(
                    json::unsigned_or_zero(json::member(cum, "new_bytes"@)),
                ),
            )
            &&& text::holds_text(lines, " this run\n  Cumulative: "@ + units.size_text(covered))
            &&& text::holds_text(lines, " ("@ + units.percent_text(covered, total))
            &&& text::holds_text(
                lines,
                ") across "@ + text::decimal(
                    json::unsigned_or_zero(json::member(cum, "runs"@)) as int,
                ) + " run(s)\n"@,
            )
        }),
{
    let cum = cov.at("cumulative"@);
    let covered = json::unsigned_or_zero(json::member(cum, "cumulative_bytes"@));
    let total = json::unsigned_or_zero(cov.at("total_bytes"@));
    let size = units.size_text(covered);
    let part = units.percent_text(covered, total);
    let runs = text::decimal(json::unsigned_or_zero(json::member(cum, "runs"@)) as int);
    let none = Seq::<char>::empty();
    let l0 = "  New:       "@ + units.size_text(
        json::unsigned_or_zero(json::member(cum, "new_bytes"@)),
    );
    let l1 = l0 + " this run\n  Cumulative: "@;
    let l2 = l1 + size;
    let l3 = l2 + " ("@;
    let l4 = l3 + part;
    let l5 = l4 + ") across "@;
    let l6 = l5 + runs;
    text::lemma_text_grows(l0, " this run\n  Cumulative: "@);
    text::lemma_text_grows(l1, size);
    text::lemma_holds_pieces(l0, " this run\n  Cumulative: "@, size, none);
    text::lemma_text_grows(l2, " ("@);
    text::lemma_text_grows(l3, part);
    text::lemma_holds_pieces(l2, " ("@, part, none);
    text::lemma_text_grows(l4, ") across "@);
    text::lemma_text_grows(l5, runs);
    text::lemma_text_grows(l6, " run(s)\n"@);
    text::lemma_holds_pieces(l4, ") across "@, runs, " run(s)\n"@);
}

/// The block about the errors tells their kind, the bits that were wrong, how often each
/// was, the lowest and the highest address and what each pattern found.
pub proof fn law_analysis_block_tells_the_errors<U: Units>(units: U, ea: ErrorAnalysisDoc)
    ensures
        ({
            let block = analysis_block(units, ea);
            &&& text::holds_text(block, "\n  Error analysis: "@ + ea.kind())
            &&& text::holds_text(
                block,
                "\n  Affected bits: 0x"@ + text::hex16(
                    json::unsigned_or_zero(ea.at("union_xor_mask"@)) as int,
                ) + "\n"@,
            )
            &&& forall|i: int|
                0 <= i < ea.flips().len() ==> text::holds_text(
                    block,
                    "bit "@ + text::decimal((#[trigger] ea.flips()[i]).0 as int) + " ("@
                        + units.count_text(ea.flips()[i].1 as u64) + "x)"@,
                )
            &&& json::unsigned_in(ea.at("lowest_phys"@)) matches Some(lo) ==> (json::unsigned_in(
                ea.at("highest_phys"@),
            ) matches Some(hi) ==> text::holds_text(
                block,
                text::hex(lo as int) + " -- 0x"@ + text::hex(hi as int),
            ))
            &&& forall|i: int|
                0 <= i < ea.per_pattern().len() ==> text::holds_text(
                    block,
                    (#[trigger] ea.per_pattern()[i]).0 + ": "@ + units.count_text(
                        ea.per_pattern()[i].1,
                    ),
                )
        }),
{
    let block = analysis_block(units, ea);
    let flip_texts = flips_shown(units, ea.flips());
    let share_texts = shares_shown(units, ea.per_pattern());
    let flips = if ea.flips().len() > 0 {
        "  Bit flip counts: "@ + text::joined(flip_texts) + "\n"@
    } else {
        Seq::empty()
    };
    let range = match (
        json::unsigned_in(ea.at("lowest_phys"@)),
        json::unsigned_in(ea.at("highest_phys"@)),
    ) {
        (Some(lo), Some(hi)) => "  Physical address range: 0x"@ + text::hex(lo as int) + " -- 0x"@
            + text::hex(hi as int) + "\n"@,
        _ => Seq::empty(),
    };
    let shares = if ea.per_pattern().len() > 0 {
        "  Per-pattern failures: "@ + text::joined(share_texts) + "\n"@
    } else {
        Seq::empty()
    };
    let mask = text::hex16(json::unsigned_or_zero(ea.at("union_xor_mask"@)) as int);
    let l0 = "\n  Error analysis: "@ + ea.kind();
    let l1 = l0 + "\n  Affected bits: 0x"@;
    let l2 = l1 + mask;
    let head = l2 + "\n"@;
    text::lemma_text_grows(l0, "\n  Affected bits: 0x"@);
    text::lemma_text_grows(l1, mask);
    text::lemma_text_grows(l2, "\n"@);
    text::lemma_holds_pieces(l0, "\n  Affected bits: 0x"@, mask, "\n"@);
    text::lemma_text_grows(head, flips);
    text::lemma_text_grows(head + flips, range);
    text::lemma_text_grows(head + flips + range, shares);
    assert(block == head + flips + range + shares);
    assert forall|i: int| 0 <= i < ea.flips().len() implies text::holds_text(
        block,
        "bit "@ + text::decimal((#[trigger] ea.flips()[i]).0 as int) + " ("@ + units.count_text(
            ea.flips()[i].1 as u64,
        ) + "x)"@,
    ) by {
        text::law_joined_texts_are_held(flip_texts, i);
        text::lemma_text_grows("  Bit flip counts: "@, text::joined(flip_texts));
        text::lemma_text_grows("  Bit flip counts: "@ + text::joined(flip_texts), "\n"@);
        assert(text::holds_text(flips, flip_texts[i]));
    }
    if let Some(lo) = json::unsigned_in(ea.at("lowest_phys"@)) {
        if let Some(hi) = json::unsigned_in(ea.at("highest_phys"@)) {
            let front = "  Physical address range: 0x"@;
            let from = text::hex(lo as int);
            let to = text::hex(hi as int);
            text::lemma_holds_pieces(front, from, " -- 0x"@, to);
            text::lemma_text_grows(front + from + " -- 0x"@ + to, "\n"@);
            assert(text::holds_text(range, from + " -- 0x"@ + to));
        }
    }
    assert forall|i: int| 0 <= i < ea.per_pattern().len() implies text::holds_text(
        block,
        (#[trigger] ea.per_pattern()[i]).0 + ": "@ + units.count_text(ea.per_pattern()[i].1),
    ) by {
        text::law_joined_texts_are_held(share_texts, i);
        text::lemma_text_grows("  Per-pattern failures: "@, text::joined(share_texts));
        text::lemma_text_grows("  Per-pattern failures: "@ + text::joined(share_texts), "\n"@);
        assert(text::holds_text(shares, share_texts[i]));
    }
}

/// The lines about patterns hold the line of each.
proof fn lemma_each_pattern_has_its_line<U: Units>(units: U, patterns: Seq<Json>, n: int, i: int)
    requires
        0 <= i < n,
    ensures
        text::holds_text(pattern_texts(units, patterns, n), pattern_text(units, patterns[i])),
    decreases n,
{
    text::lemma_text_grows(
        pattern_texts(units, patterns, n - 1),
        pattern_text(units, patterns[n - 1]),
    );
    if i < n - 1 {
        lemma_each_pattern_has_its_line(units, patterns, n - 1, i);
    }
}

/// The lines about passes hold those of each.
proof fn lemma_each_pass_has_its_lines<U: Units>(
    units: U,
    total_passes: u64,
    passes: Seq<Json>,
    n: int,
    i: int,
)
    requires
        0 <= i < n,
    ensures
        text::holds_text(
            pass_texts(units, total_passes, passes, n),
            pass_text(units, total_passes, passes[i]),
        ),
    decreases n,
{
    text::lemma_text_grows(
        pass_texts(units, total_passes, passes, n - 1),
        pass_text(units, total_passes, passes[n - 1]),
    );
    if i < n - 1 {
        lemma_each_pass_has_its_lines(units, total_passes, passes, n - 1, i);
    }
}

/// What is said about a pass holds a line for each of its patterns and one for itself.
pub proof fn law_every_pattern_has_its_line<U: Units>(units: U, total_passes: u64, pass: Json)
    ensures
        ({
            let doc = PassDoc { json: &pass };
            let said = pass_text(units, total_passes, pass);
            &&& forall|i: int|
                0 <= i < doc.patterns().len() ==> text::holds_text(
                    said,
                    pattern_text(units, #[trigger] doc.patterns()[i]),
                )
            &&& text::holds_text(
                said,
                pass_line(
                    json::unsigned_or_zero(json::member(Some(pass), "pass_number"@)),
                    total_passes,
                    doc.failures() as u64,
                    units.count_text(doc.failures() as u64),
                ),
            )
        }),
{
    let doc = PassDoc { json: &pass };
    let failures = doc.failures() as u64;
    let n = doc.patterns().len() as int;
    let line = pass_line(
        json::unsigned_or_zero(json::member(Some(pass), "pass_number"@)),
        total_passes,
        failures,
        units.count_text(failures),
    );
    text::lemma_text_grows(pattern_texts(units, doc.patterns(), n), line);
    assert forall|i: int| 0 <= i < doc.patterns().len() implies text::holds_text(
        pass_text(units, total_passes, pass),
        pattern_text(units, #[trigger] doc.patterns()[i]),
    ) by {
        lemma_each_pattern_has_its_line(units, doc.patterns(), n, i);
    }
}

/// A table holds the verdict, and what the document says of the errors and of the
/// coverage; in full also what is said about every pass.
pub proof fn law_table_holds_the_document<U: Units>(units: U, full: bool, doc: ResultsDoc)
    ensures
        ({
            let table = table_text(units, full, doc);
            let passes = json::items_in(json::member(doc.root(), "passes"@));
            let ea = json::member(doc.root(), "error_analysis"@);
            let cov = json::member(doc.root(), "coverage"@);
            let failures = json::unsigned_or_zero(json::member(doc.root(), "total_failures"@));
            &&& full ==> forall|i: int|
                0 <= i < passes.len() ==> text::holds_text(
                    table,
                    pass_text(
                        units,
                        json::unsigned_or_zero(
                            json::member(json::member(doc.root(), "config"@), "passes"@),
                        ),
                        #[trigger] passes[i],
                    ),
                )
            &&& json::is_object(ea) ==> text::holds_text(
                table,
                analysis_block(units, ErrorAnalysisDoc { json: &ea->0 }),
            )
            &&& json::is_object(cov) ==> text::holds_text(
                table,
                coverage_block(units, CoverageDoc { json: &cov->0 }),
            )
            &&& text::holds_text(
                table,
                verdict_line(
                    failures,
                    units.count_text(failures),
                    Some(units.elapsed_text(json::member(doc.root(), "elapsed"@))),
                ),
            )
        }),
{
    let table = table_text(units, full, doc);
    let passes = json::items_in(json::member(doc.root(), "passes"@));
    let total_passes = json::unsigned_or_zero(
        json::member(json::member(doc.root(), "config"@), "passes"@),
    );
    let detail = if full {
        pass_texts(units, total_passes, passes, passes.len() as int)
    } else {
        Seq::empty()
    };
    let ea = json::member(doc.root(), "error_analysis"@);
    let analysis = if json::is_object(ea) {
        analysis_block(units, ErrorAnalysisDoc { json: &ea->0 })
    } else {
        Seq::empty()
    };
    let cov = json::member(doc.root(), "coverage"@);
    let coverage = if json::is_object(cov) {
        coverage_block(units, CoverageDoc { json: &cov->0 })
    } else {
        Seq::empty()
    };
    let failures = json::unsigned_or_zero(json::member(doc.root(), "total_failures"@));
    let verdict = verdict_line(
        failures,
        units.count_text(failures),
        Some(units.elapsed_text(json::member(doc.root(), "elapsed"@))),
    );
    text::lemma_text_grows(detail, analysis);
    text::lemma_text_grows(detail + analysis, coverage);
    text::lemma_text_grows(detail + analysis + coverage, "\n"@);
    text::lemma_text_grows(detail + analysis + coverage + "\n"@, verdict);
    if full {
        assert forall|i: int| 0 <= i < passes.len() implies text::holds_text(
            table,
            pass_text(units, total_passes, #[trigger] passes[i]),
        ) by {
            lemma_each_pass_has_its_lines(units, total_passes, passes, passes.len() as int, i);
        }
    }
}

} // verus!
