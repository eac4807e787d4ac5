//! A run shown as lines of text while it goes on.

use crate::dimm::{DimmEntry, DimmTopology};
use crate::edac::EccDelta;
use crate::events::{RegionEvent, RunEvent};
use crate::failure::Failure;
use crate::pattern::Pattern;
use crate::physmem::phys::MapStats;
use crate::results::render::{self, write_pass_summary_line, write_verdict_line};
use crate::style::{self, bold, green, red, yellow};
use crate::text::{self, align_left, align_right, decimal_string, join};
use crate::units::Units;
use vstd::prelude::*;
use vstd::string::StringExecFns;

verus! {

/// How many failures of a pattern are shown one by one.
pub const SHOWN_FAILURES: usize = 5;

/// A number and what it counts.
pub open spec fn counted(n: int, what: Seq<char>) -> Seq<char> {
    text::decimal(n) + what
}

fn count_of(n: u64, what: &str) -> (s: String)
    ensures
        s@ == counted(n as int, what@),
{
    let mut s = String::new();
    s.append(&decimal_string(n));
    s.append(what);
    assert(s@ =~= counted(n as int, what@));
    s
}

/// The lines of the first `n` failures.
pub open spec fn failure_lines(failures: Seq<Failure>, n: int) -> Seq<char>
    decreases n,
{
    if n <= 0 {
        Seq::empty()
    } else {
        failure_lines(failures, n - 1) + "       "@ + failures[n - 1].line() + "\n"@
    }
}

/// At most `limit` failures, one to a line, and how many more there are.
pub open spec fn truncated_text(failures: Seq<Failure>, limit: int) -> Seq<char> {
    let shown = if failures.len() < limit {
        failures.len() as int
    } else {
        limit
    };
    failure_lines(failures, shown) + if failures.len() > shown {
        "       ...+"@ + text::decimal(failures.len() - shown) + " more"@
    } else {
        Seq::empty()
    }
}

/// At most `limit` failures, one to a line, and how many more there are.
pub fn truncated(failures: &[Failure], limit: usize) -> (s: String)
    ensures
        s@ == truncated_text(failures@, limit as int),
{
    let total: usize = failures.len();
    let shown: usize = if total < limit {
        total
    } else {
        limit
    };
    let mut s = String::new();
    let mut i: usize = 0;
    while i < shown
        invariant
            i <= shown <= failures@.len(),
            s@ == failure_lines(failures@, i as int),
        decreases shown - i,
    {
        let ghost before = s@;
        s.append("       ");
        s.append(&failures[i].to_string());
        s.append("\n");
        assert(s@ =~= before + "       "@ + failures@[i as int].line() + "\n"@);
        i = i + 1;
    }
    if total > shown {
        s.append("       ...+");
        s.append(&decimal_string((total - shown) as u64));
        s.append(" more");
    }
    assert(s@ =~= truncated_text(failures@, limit as int));
    s
}

/// The first line of a run.
pub open spec fn banner_text<U: Units>(
    units: U,
    size: usize,
    passes: usize,
    pattern_count: int,
    parallel: bool,
) -> Seq<char> {
    style::in_bold("ferrite"@) + " Testing "@ + units.rounded_size_text(size as u64) + " across "@
        + text::decimal(passes as int) + " pass(es) with "@ + text::decimal(pattern_count)
        + " pattern(s)"@ + (if parallel {
        Seq::empty()
    } else {
        "  (sequential)"@
    }) + "\n"@
}

/// What is said about the pages.
pub open spec fn map_parts(stats: MapStats) -> Seq<Seq<char>> {
    let total = seq![counted(stats.total_pages as int, " pages mapped"@)];
    let thp = if stats.thp_pages > 0 {
        seq![counted(stats.thp_pages as int, " THP"@)]
    } else {
        seq![]
    };
    let huge = if stats.huge_pages > 0 {
        seq![counted(stats.huge_pages as int, " huge"@)]
    } else {
        seq![]
    };
    let poisoned = if stats.hwpoison_pages > 0 {
        seq![counted(stats.hwpoison_pages as int, " "@) + style::in_red("hw-poisoned"@)]
    } else {
        seq![]
    };
    total + thp + huge + poisoned
}

/// The line about the pages.
pub open spec fn map_line(stats: MapStats) -> Seq<char> {
    "  Physical address map: "@ + text::joined(map_parts(stats)) + "\n"@
}

/// The lines of the first `n` memory modules.
pub open spec fn dimm_lines(dimms: Seq<DimmEntry>, n: int) -> Seq<char>
    decreases n,
{
    if n <= 0 {
        Seq::empty()
    } else {
        dimm_lines(dimms, n - 1) + "    "@ + dimms[n - 1].shown() + "\n"@
    }
}

/// The line about a pattern that is done, and the first failures.
pub open spec fn test_text<U: Units>(
    units: U,
    pattern: Pattern,
    elapsed: u64,
    bytes: u64,
    failures: Seq<Failure>,
) -> Seq<char> {
    let columns = " "@ + text::left_aligned(pattern.name(), 20) + " "@ + text::right_aligned(
        units.millis_text(elapsed),
        8,
    ) + "ms  "@ + units.throughput_text(bytes, elapsed);
    if failures.len() == 0 {
        "  "@ + style::in_green("PASS"@) + columns + "\n"@
    } else {
        "  "@ + style::in_bold(style::in_red("FAIL"@)) + columns + "  ("@ + text::decimal(
            failures.len() as int,
        ) + " failures)\n"@ + truncated_text(failures, SHOWN_FAILURES as int)
    }
}

/// What is said about the error counters of a module.
pub open spec fn ecc_parts(delta: EccDelta) -> Seq<Seq<char>> {
    let corrected = if delta.ce_delta > 0 {
        seq![counted(delta.ce_delta as int, " correctable"@)]
    } else {
        seq![]
    };
    let uncorrected = if delta.ue_delta > 0 {
        seq![
            counted(delta.ue_delta as int, " "@) + style::in_bold(style::in_red("uncorrectable"@)),
        ]
    } else {
        seq![]
    };
    corrected + uncorrected
}

/// The line about the error counters of a module.
pub open spec fn ecc_line(pass: usize, delta: EccDelta) -> Seq<char> {
    let label = match delta.label {
        Some(label) => label@,
        None => "mc"@ + text::decimal(delta.mc as int) + "/dimm"@ + text::decimal(
            delta.dimm_index as int,
        ),
    };
    "  "@ + style::in_bold(style::in_yellow("ECC"@)) + " ECC pass "@ + text::decimal(pass as int)
        + ": "@ + text::joined(ecc_parts(delta)) + " on "@ + label + "\n"@
}

/// The lines about the error counters of the first `n` modules.
pub open spec fn ecc_lines(pass: usize, deltas: Seq<EccDelta>, n: int) -> Seq<char>
    decreases n,
{
    if n <= 0 {
        Seq::empty()
    } else {
        ecc_lines(pass, deltas, n - 1) + ecc_line(pass, deltas[n - 1])
    }
}

/// What is shown of an event in a run of so many passes.
pub open spec fn event_text<U: Units>(units: U, total_passes: usize, event: RunEvent) -> Seq<char> {
    match event {
        RunEvent::RunStart { size, passes, patterns, parallel, .. } => banner_text(
            units,
            size,
            passes,
            patterns@.len() as int,
            parallel,
        ),
        RunEvent::MapInfo { stats } => map_line(stats),
        RunEvent::DimmInfo { topology } => "  Installed DIMMs:\n"@ + dimm_lines(
            topology.dimms@,
            topology.dimms@.len() as int,
        ),
        RunEvent::Region(_, region_event) => match region_event {
            RegionEvent::TestComplete { pattern, elapsed, bytes, failures, .. } => test_text(
                units,
                pattern,
                elapsed,
                bytes,
                failures@,
            ),
            RegionEvent::EccDeltas { pass, deltas } => ecc_lines(
                pass,
                deltas@,
                deltas@.len() as int,
            ),
            RegionEvent::PassComplete { pass, failures, .. } => render::pass_line(
                pass as u64,
                total_passes as u64,
                failures as u64,
                text::decimal(failures as int),
            ),
            _ => Seq::empty(),
        },
        _ => Seq::empty(),
    }
}

/// How many passes the run has, once the event was seen.
pub open spec fn passes_after(total_passes: usize, event: RunEvent) -> usize {
    match event {
        RunEvent::RunStart { passes, .. } => passes,
        _ => total_passes,
    }
}

/// Shows a run as lines of text.
pub struct HeadlessPrinter<U> {
    /// What was shown and not yet taken away.
    pub out: String,
    pub units: U,
    /// How many passes the run has.
    pub total_passes: usize,
}

impl<U: Units> HeadlessPrinter<U> {
    /// A printer that has shown nothing.
    pub fn new(units: U) -> (printer: Self)
        ensures
            printer.out@ == Seq::<char>::empty(),
            printer.units == units,
            printer.total_passes == 0,
    {
        HeadlessPrinter { out: String::new(), units, total_passes: 0 }
    }

    /// What the first `n` events add, and how many passes there are then.
    pub open spec fn shown(units: U, total_passes: usize, events: Seq<RunEvent>, n: int) -> (Seq<
        char,
    >, usize)
        decreases n,
    {
        if n <= 0 {
            (Seq::empty(), total_passes)
        } else {
            let (text, passes) = Self::shown(units, total_passes, events, n - 1);
            (
                text + event_text(units, passes, events[n - 1]),
                passes_after(passes, events[n - 1]),
            )
        }
    }

    /// Show events until the run is over or there are no more. Returns how many
    /// were shown.
    pub fn consume(&mut self, events: &[RunEvent]) -> (n: usize)
        ensures
            n <= events@.len(),
            forall|k: int| 0 <= k < n - 1 ==> !(#[trigger] events@[k] is RunComplete),
            n < events@.len() ==> n > 0 && events@[n - 1] is RunComplete,
            final(self).units == old(self).units,
            (final(self).out@, final(self).total_passes) == ({
                let (text, passes) = Self::shown(
                    old(self).units,
                    old(self).total_passes,
                    events@,
                    n as int,
                );
                (old(self).out@ + text, passes)
            }),
    {
        let ghost out0 = self.out@;
        let ghost passes0 = self.total_passes;
        let mut i: usize = 0;
        assert(out0 + Seq::<char>::empty() =~= out0);
        while i < events.len()
            invariant
                i <= events@.len(),
                out0 == old(self).out@,
                passes0 == old(self).total_passes,
                self.units == old(self).units,
                self.out@ == out0 + Self::shown(self.units, passes0, events@, i as int).0,
                self.total_passes == Self::shown(self.units, passes0, events@, i as int).1,
                forall|k: int| 0 <= k < i ==> !(#[trigger] events@[k] is RunComplete),
            decreases events@.len() - i,
        {
            let ghost before = Self::shown(self.units, passes0, events@, i as int).0;
            self.handle_event(&events[i]);
            assert(self.out@ =~= out0 + Self::shown(self.units, passes0, events@, i + 1).0);
            i = i + 1;
            if events[i - 1].ends_run() {
                return i;
            }
        }
        i
    }

    /// Show one event.
    pub fn handle_event(&mut self, event: &RunEvent)
        ensures
            final(self).out@ == old(self).out@ + event_text(
                old(self).units,
                old(self).total_passes,
                *event,
            ),
            final(self).total_passes == passes_after(old(self).total_passes, *event),
            final(self).units == old(self).units,
    {
        let ghost before = self.out@;
        match event {
            RunEvent::RunStart { size, passes, patterns, parallel, .. } => {
                self.total_passes = *passes;
                self.print_banner(*size, *passes, patterns.len(), *parallel);
            },
            RunEvent::MapInfo { stats } => {
                self.print_map_info(stats);
            },
            RunEvent::DimmInfo { topology } => {
                self.print_dimm_info(topology);
            },
            RunEvent::Region(_, region_event) => match region_event {
                RegionEvent::TestComplete { pattern, elapsed, bytes, failures, .. } => {
                    self.print_test_result(*pattern, *elapsed, *bytes, failures);
                },
                RegionEvent::EccDeltas { pass, deltas } => {
                    self.print_ecc_deltas(*pass, deltas);
                },
                RegionEvent::PassComplete { pass, failures, .. } => {
                    let line = write_pass_summary_line(
                        *pass as u64,
                        self.total_passes as u64,
                        *failures as u64,
                        &decimal_string(*failures as u64),
                    );
                    self.out.append(&line);
                },
                _ => {
                    assert(before + Seq::<char>::empty() =~= before);
                },
            },
            _ => {
                assert(before + Seq::<char>::empty() =~= before);
            },
        }
    }

    /// Show the verdict.
    pub fn print_final_result(&mut self, total_failures: usize)
        ensures
            final(self).out@ == old(self).out@ + render::verdict_line(
                total_failures as u64,
                text::decimal(total_failures as int),
                None,
            ),
            final(self).units == old(self).units,
            final(self).total_passes == old(self).total_passes,
    {
        let line = write_verdict_line(
            total_failures as u64,
            &decimal_string(total_failures as u64),
            None,
        );
        self.out.append(&line);
    }

    fn print_banner(&mut self, size: usize, passes: usize, pattern_count: usize, parallel: bool)
        ensures
            final(self).out@ == old(self).out@ + banner_text(
                old(self).units,
                size,
                passes,
                pattern_count as int,
                parallel,
            ),
            final(self).units == old(self).units,
            final(self).total_passes == old(self).total_passes,
    {
        let mut s = bold("ferrite");
        s.append(" Testing ");
        s.append(&self.units.rounded_size(size as u64));
        s.append(" across ");
        s.append(&decimal_string(passes as u64));
        s.append(" pass(es) with ");
        s.append(&decimal_string(pattern_count as u64));
        s.append(" pattern(s)");
        if !parallel {
            s.append("  (sequential)");
        }
        s.append("\n");
        assert(s@ =~= banner_text(self.units, size, passes, pattern_count as int, parallel));
        self.out.append(&s);
    }

    fn print_map_info(&mut self, stats: &MapStats)
        ensures
            final(self).out@ == old(self).out@ + map_line(*stats),
            final(self).units == old(self).units,
            final(self).total_passes == old(self).total_passes,
    {
        let mut parts: Vec<String> = Vec::new();
        parts.push(count_of(stats.total_pages as u64, " pages mapped"));
        if stats.thp_pages > 0 {
            parts.push(count_of(stats.thp_pages as u64, " THP"));
        }
        if stats.huge_pages > 0 {
            parts.push(count_of(stats.huge_pages as u64, " huge"));
        }
        if stats.hwpoison_pages > 0 {
            let mut part = count_of(stats.hwpoison_pages as u64, " ");
            part.append(&red("hw-poisoned"));
            parts.push(part);
        }
        assert(text::string_texts(parts@) =~= map_parts(*stats));
        let mut s = String::new();
        s.append("  Physical address map: ");
        s.append(&join(&parts));
        s.append("\n");
        assert(s@ =~= map_line(*stats));
        self.out.append(&s);
    }

    fn print_dimm_info(&mut self, topology: &DimmTopology)
        ensures
            final(self).out@ == old(self).out@ + ("  Installed DIMMs:\n"@ + dimm_lines(
                topology.dimms@,
                topology.dimms@.len() as int,
            )),
            final(self).units == old(self).units,
            final(self).total_passes == old(self).total_passes,
    {
        let mut s = String::new();
        s.append("  Installed DIMMs:\n");
        let ghost head = "  Installed DIMMs:\n"@;
        let mut i: usize = 0;
        assert(s@ =~= head + dimm_lines(topology.dimms@, 0));
        while i < topology.dimms.len()
            invariant
                i <= topology.dimms@.len(),
                s@ == head + dimm_lines(topology.dimms@, i as int),
            decreases topology.dimms@.len() - i,
        {
            let ghost before = s@;
            s.append("    ");
            s.append(&topology.dimms[i].to_string());
            s.append("\n");
            assert(s@ =~= head + dimm_lines(topology.dimms@, i + 1));
            i = i + 1;
        }
        self.out.append(&s);
    }

    fn print_test_result(&mut self, pattern: Pattern, elapsed: u64, bytes: u64, failures: &[Failure])
        ensures
            final(self).out@ == old(self).out@ + test_text(
                old(self).units,
                pattern,
                elapsed,
                bytes,
                failures@,
            ),
            final(self).units == old(self).units,
            final(self).total_passes == old(self).total_passes,
    {
        let mut s = String::new();
        s.append("  ");
        if failures.len() == 0 {
            s.append(&green("PASS"));
        } else {
            s.append(&bold(&red("FAIL")));
        }
        s.append(" ");
        s.append(&align_left(pattern.label(), 20));
        s.append(" ");
        s.append(&align_right(&self.units.millis(elapsed), 8));
        s.append("ms  ");
        s.append(&self.units.throughput(bytes, elapsed));
        if failures.len() == 0 {
            s.append("\n");
        } else {
            s.append("  (");
            s.append(&decimal_string(failures.len() as u64));
            s.append(" failures)\n");
            s.append(&truncated(failures, SHOWN_FAILURES));
        }
        assert(s@ =~= test_text(self.units, pattern, elapsed, bytes, failures@));
        self.out.append(&s);
    }

    fn print_ecc_deltas(&mut self, pass: usize, deltas: &[EccDelta])
        ensures
            final(self).out@ == old(self).out@ + ecc_lines(pass, deltas@, deltas@.len() as int),
            final(self).units == old(self).units,
            final(self).total_passes == old(self).total_passes,
    {
        let mut s = String::new();
        let mut i: usize = 0;
        while i < deltas.len()
            invariant
                i <= deltas@.len(),
                s@ == ecc_lines(pass, deltas@, i as int),
            decreases deltas@.len() - i,
        {
            let line = show_ecc_delta(pass, &deltas[i]);
            s.append(&line);
            i = i + 1;
        }
        self.out.append(&s);
    }
}

/// The line about the error counters of a module.
fn show_ecc_delta(pass: usize, delta: &EccDelta) -> (line: String)
    ensures
        line@ == ecc_line(pass, *delta),
{
    let mut parts: Vec<String> = Vec::new();
    if delta.ce_delta > 0 {
        parts.push(count_of(delta.ce_delta, " correctable"));
    }
    if delta.ue_delta > 0 {
        let mut part = count_of(delta.ue_delta, " ");
        part.append(&bold(&red("uncorrectable")));
        parts.push(part);
    }
    assert(text::string_texts(parts@) =~= ecc_parts(*delta));
    let mut s = String::new();
    s.append("  ");
    s.append(&bold(&yellow("ECC")));
    s.append(" ECC pass ");
    s.append(&decimal_string(pass as u64));
    s.append(": ");
    s.append(&join(&parts));
    s.append(" on ");
    match &delta.label {
        Some(label) => {
            s.append(label);
        },
        None => {
            s.append("mc");
            s.append(&decimal_string(delta.mc as u64));
            s.append("/dimm");
            s.append(&decimal_string(delta.dimm_index as u64));
        },
    }
    s.append("\n");
    assert(s@ =~= ecc_line(pass, *delta));
    s
}

/// The lines of failures hold the line of each.
proof fn lemma_lines_hold_each(failures: Seq<Failure>, n: int, i: int)
    requires
        0 <= i < n,
    ensures
        text::holds_text(failure_lines(failures, n), failures[i].line() + "\n"@),
    decreases n,
{
    let before = failure_lines(failures, n - 1);
    let line = failures[n - 1].line();
    text::lemma_text_grows(before, "       "@);
    text::lemma_text_grows(before + "       "@, line);
    text::lemma_text_grows(before + "       "@ + line, "\n"@);
    if i < n - 1 {
        lemma_lines_hold_each(failures, n - 1, i);
    } else {
        text::lemma_holds_pieces(before + "       "@, line, "\n"@, Seq::empty());
    }
}

/// Of a list of failures the first ones are shown, a line each, as many as allowed; if
/// there are more, it is told how many, and if there are none, nothing is shown.
pub proof fn law_first_failures_are_shown(failures: Seq<Failure>, limit: int)
    requires
        0 <= limit,
    ensures
        forall|i: int|
            0 <= i < failures.len() && i < limit ==> text::holds_text(
                truncated_text(failures, limit),
                (#[trigger] failures[i]).line() + "\n"@,
            ),
        failures.len() > limit ==> text::holds_text(
            truncated_text(failures, limit),
            "...+"@ + text::decimal(failures.len() - limit) + " more"@,
        ),
        failures.len() <= limit ==> truncated_text(failures, limit) == failure_lines(
            failures,
            failures.len() as int,
        ),
        failures.len() == 0 ==> truncated_text(failures, limit).len() == 0,
{
    let shown = if failures.len() < limit {
        failures.len() as int
    } else {
        limit
    };
    let lines = failure_lines(failures, shown);
    let rest = if failures.len() > shown {
        "       ...+"@ + text::decimal(failures.len() - shown) + " more"@
    } else {
        Seq::empty()
    };
    text::lemma_text_grows(lines, rest);
    assert forall|i: int| 0 <= i < failures.len() && i < limit implies text::holds_text(
        truncated_text(failures, limit),
        (#[trigger] failures[i]).line() + "\n"@,
    ) by {
        lemma_lines_hold_each(failures, shown, i);
    }
    if failures.len() > limit {
        let many = text::decimal(failures.len() - limit);
        assert("       ...+"@ =~= "       "@ + "...+"@) by {
            reveal_strlit("       ...+");
            reveal_strlit("       ");
            reveal_strlit("...+");
        }
        text::lemma_holds_pieces("       "@, "...+"@, many, " more"@);
    } else {
        assert(lines + Seq::<char>::empty() =~= lines);
    }
}

/// What is shown of a pattern that is done says that it passed exactly if it found
/// nothing; else it tells how many failures there are and shows the first ones.
pub proof fn law_test_text_tells_the_result<U: Units>(
    units: U,
    pattern: Pattern,
    elapsed: u64,
    bytes: u64,
    failures: Seq<Failure>,
)
    ensures
        ({
            let shown = test_text(units, pattern, elapsed, bytes, failures);
            &&& text::holds_text(shown, pattern.name())
            &&& text::holds_text(shown, units.millis_text(elapsed))
            &&& text::holds_text(shown, units.throughput_text(bytes, elapsed))
            &&& failures.len() == 0 ==> text::holds_text(shown, "PASS"@)
            &&& failures.len() > 0 ==> text::holds_text(shown, "FAIL"@)
            &&& failures.len() > 0 ==> text::holds_text(
                shown,
                "  ("@ + text::decimal(failures.len() as int) + " failures)\n"@,
            )
            &&& failures.len() > 0 ==> text::holds_text(
                shown,
                truncated_text(failures, 5),
            )
        }),
{
    let time = units.millis_text(elapsed);
    let rate = units.throughput_text(bytes, elapsed);
    let left = text::left_aligned(pattern.name(), 20);
    let right = text::right_aligned(time, 8);
    let columns = " "@ + left + " "@ + right + "ms  "@ + rate;
    text::lemma_text_grows(pattern.name(), text::blanks(20 - pattern.name().len()));
    text::lemma_text_grows(text::blanks(8 - time.len()), time);
    text::lemma_text_grows(" "@, left);
    text::lemma_text_grows(" "@ + left, " "@);
    text::lemma_text_grows(" "@ + left + " "@, right);
    text::lemma_text_grows(" "@ + left + " "@ + right, "ms  "@);
    text::lemma_text_grows(" "@ + left + " "@ + right + "ms  "@, rate);
    render::lemma_colors_hold("PASS"@);
    render::lemma_colors_hold("FAIL"@);
    let label = if failures.len() == 0 {
        style::in_green("PASS"@)
    } else {
        style::in_bold(style::in_red("FAIL"@))
    };
    let head = "  "@ + label + columns;
    text::lemma_text_grows("  "@, label);
    text::lemma_text_grows("  "@ + label, columns);
    if failures.len() == 0 {
        text::lemma_text_grows(head, "\n"@);
    } else {
        let many = text::decimal(failures.len() as int);
        let lines = truncated_text(failures, SHOWN_FAILURES as int);
        text::lemma_text_grows(head, "  ("@);
        text::lemma_text_grows(head + "  ("@, many);
        text::lemma_text_grows(head + "  ("@ + many, " failures)\n"@);
        text::lemma_holds_pieces(head, "  ("@, many, " failures)\n"@);
        text::lemma_text_grows(head + "  ("@ + many + " failures)\n"@, lines);
    }
}

/// The line about the pages tells how many there are, and of each kind how many if there
/// are any.
pub proof fn law_map_line_tells_the_pages(stats: MapStats)
    ensures
        text::holds_text(map_line(stats), counted(stats.total_pages as int, " pages mapped"@)),
        stats.thp_pages > 0 ==> text::holds_text(
            map_line(stats),
            counted(stats.thp_pages as int, " THP"@),
        ),
        stats.huge_pages > 0 ==> text::holds_text(
            map_line(stats),
            counted(stats.huge_pages as int, " huge"@),
        ),
        stats.hwpoison_pages > 0 ==> text::holds_text(
            map_line(stats),
            counted(stats.hwpoison_pages as int, " "@) + style::in_red("hw-poisoned"@),
        ),
{
    let parts = map_parts(stats);
    let list = text::joined(parts);
    text::lemma_text_grows("  Physical address map: "@, list);
    text::lemma_text_grows("  Physical address map: "@ + list, "\n"@);
    let thp: int = if stats.thp_pages > 0 {
        1
    } else {
        0
    };
    let huge: int = if stats.huge_pages > 0 {
        1
    } else {
        0
    };
    text::law_joined_texts_are_held(parts, 0);
    assert(parts[0] == counted(stats.total_pages as int, " pages mapped"@));
    if stats.thp_pages > 0 {
        text::law_joined_texts_are_held(parts, 1);
        assert(parts[1] == counted(stats.thp_pages as int, " THP"@));
    }
    if stats.huge_pages > 0 {
        text::law_joined_texts_are_held(parts, 1 + thp);
        assert(parts[1 + thp] == counted(stats.huge_pages as int, " huge"@));
    }
    if stats.hwpoison_pages > 0 {
        text::law_joined_texts_are_held(parts, 1 + thp + huge);
        assert(parts[1 + thp + huge] == counted(stats.hwpoison_pages as int, " "@)
            + style::in_red("hw-poisoned"@));
    }
}

/// The line about a module's error counters tells the pass, the module, and by how much
/// each counter went up, if it did.
pub proof fn law_counter_line_tells_the_rises(pass: usize, delta: EccDelta)
    ensures
        text::holds_text(ecc_line(pass, delta), " ECC pass "@ + text::decimal(pass as int) + ": "@),
        delta.ce_delta > 0 ==> text::holds_text(
            ecc_line(pass, delta),
            counted(delta.ce_delta as int, " correctable"@),
        ),
        delta.ue_delta > 0 ==> text::holds_text(
            ecc_line(pass, delta),
            counted(delta.ue_delta as int, " "@) + style::in_bold(
                style::in_red("uncorrectable"@),
            ),
        ),
        delta.label matches Some(label) ==> text::holds_text(
            ecc_line(pass, delta),
            " on "@ + label@ + "\n"@,
        ),
        delta.label is None ==> text::holds_text(
            ecc_line(pass, delta),
            "mc"@ + text::decimal(delta.mc as int) + "/dimm"@ + text::decimal(
                delta.dimm_index as int,
            ),
        ),
{
    let label = match delta.label {
        Some(label) => label@,
        None => "mc"@ + text::decimal(delta.mc as int) + "/dimm"@ + text::decimal(
            delta.dimm_index as int,
        ),
    };
    let parts = ecc_parts(delta);
    let list = text::joined(parts);
    let number = text::decimal(pass as int);
    let l0 = "  "@ + style::in_bold(style::in_yellow("ECC"@));
    let l1 = l0 + " ECC pass "@;
    let l2 = l1 + number;
    let l3 = l2 + ": "@;
    let l4 = l3 + list;
    let l5 = l4 + " on "@;
    let l6 = l5 + label;
    text::lemma_holds_pieces(l0, " ECC pass "@, number, ": "@);
    text::lemma_text_grows(l3, list);
    text::lemma_text_grows(l4, " on "@);
    text::lemma_text_grows(l5, label);
    text::lemma_text_grows(l6, "\n"@);
    text::lemma_holds_pieces(l4, " on "@, label, "\n"@);
    let corrected: int = if delta.ce_delta > 0 {
        1
    } else {
        0
    };
    if delta.ce_delta > 0 {
        text::law_joined_texts_are_held(parts, 0);
        assert(parts[0] == counted(delta.ce_delta as int, " correctable"@));
    }
    if delta.ue_delta > 0 {
        text::law_joined_texts_are_held(parts, corrected);
        assert(parts[corrected] == counted(delta.ue_delta as int, " "@) + style::in_bold(
            style::in_red("uncorrectable"@),
        ));
    }
}

/// The lines about the error counters hold the line of each module.
pub proof fn law_every_counter_is_shown(pass: usize, deltas: Seq<EccDelta>, n: int, i: int)
    requires
        0 <= i < n,
    ensures
        text::holds_text(ecc_lines(pass, deltas, n), ecc_line(pass, deltas[i])),
    decreases n,
{
    text::lemma_text_grows(ecc_lines(pass, deltas, n - 1), ecc_line(pass, deltas[n - 1]));
    if i < n - 1 {
        law_every_counter_is_shown(pass, deltas, n - 1, i);
    }
}

/// The lines about the modules hold the line of each.
pub proof fn law_every_module_is_shown(dimms: Seq<DimmEntry>, n: int, i: int)
    requires
        0 <= i < n,
    ensures
        text::holds_text(dimm_lines(dimms, n), dimms[i].shown() + "\n"@),
    decreases n,
{
    let before = dimm_lines(dimms, n - 1);
    let line = dimms[n - 1].shown();
    text::lemma_text_grows(before, "    "@);
    text::lemma_text_grows(before + "    "@, line);
    text::lemma_text_grows(before + "    "@ + line, "\n"@);
    if i < n - 1 {
        law_every_module_is_shown(dimms, n - 1, i);
    } else {
        text::lemma_holds_pieces(before + "    "@, line, "\n"@, Seq::empty());
    }
}

/// The first line of a run tells how much is tested, in how many passes, with how many
/// patterns, and if that is done by one thread.
pub proof fn law_banner_tells_the_run<U: Units>(
    units: U,
    size: usize,
    passes: usize,
    pattern_count: int,
    parallel: bool,
)
    ensures
        ({
            let line = banner_text(units, size, passes, pattern_count, parallel);
            &&& text::holds_text(line, " Testing "@ + units.rounded_size_text(size as u64))
            &&& text::holds_text(line, " across "@ + text::decimal(passes as int) + " pass(es) with "@)
            &&& text::holds_text(line, text::decimal(pattern_count) + " pattern(s)"@)
            &&& !parallel ==> text::holds_text(line, "  (sequential)"@)
        }),
{
    let bytes = units.rounded_size_text(size as u64);
    let many = text::decimal(passes as int);
    let count = text::decimal(pattern_count);
    let how = if parallel {
        Seq::empty()
    } else {
        "  (sequential)"@
    };
    let none = Seq::<char>::empty();
    let l0 = style::in_bold("ferrite"@);
    let l1 = l0 + " Testing "@ + bytes;
    let l2 = l1 + " across "@;
    let l3 = l2 + many;
    let l4 = l3 + " pass(es) with "@;
    let l5 = l4 + count;
    let l6 = l5 + " pattern(s)"@;
    text::lemma_holds_pieces(l0, " Testing "@, bytes, none);
    text::lemma_text_grows(l1, " across "@);
    text::lemma_text_grows(l2, many);
    text::lemma_text_grows(l3, " pass(es) with "@);
    text::lemma_holds_pieces(l1, " across "@, many, " pass(es) with "@);
    text::lemma_text_grows(l4, count);
    text::lemma_text_grows(l5, " pattern(s)"@);
    text::lemma_holds_pieces(l4, count, " pattern(s)"@, none);
    text::lemma_text_grows(l6, how);
    text::lemma_text_grows(l6 + how, "\n"@);
}

/// Passes are shown as so many of those that the run was begun with, whatever happens in
/// between.
pub proof fn law_passes_are_those_of_the_run<U: Units>(
    units: U,
    total_passes: usize,
    events: Seq<RunEvent>,
    k: int,
    n: int,
)
    requires
        0 <= k < n <= events.len(),
        events[k] is RunStart,
        forall|i: int| k < i < n ==> !(#[trigger] events[i] is RunStart),
    ensures
        events[k] matches RunEvent::RunStart { passes, .. } && HeadlessPrinter::<U>::shown(
            units,
            total_passes,
            events,
            n,
        ).1 == passes,
    decreases n,
{
    if n > k + 1 {
        law_passes_are_those_of_the_run(units, total_passes, events, k, n - 1);
        assert(!(events[n - 1] is RunStart));
    }
}

} // verus!
