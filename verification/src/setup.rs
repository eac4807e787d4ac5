//! Getting ready for a run: what follows from how the steps of it went.

use crate::allocation::{AllocError, AllocOutcome};
use crate::cli::{self, is_cull_ceiling, report_alloc_outcome, SizeSpec};
use crate::events::{LogLevel, Notice};
use crate::physmem::hold::SieveError;
use crate::physmem::pfn::PfnRange;
use crate::physmem::phys::{MapStats, PhysError};
use crate::text;
use crate::units::Units;
use vstd::prelude::*;
use vstd::string::StringExecFns;

verus! {

/// What follows from an allocation.
#[derive(Debug)]
pub enum SetupDecision {
    /// Go on, and tell the operator if less was met than asked for.
    Proceed { notice: Option<Notice> },
    /// Everything within reach has been tested.
    CullCeiling,
    /// Give up, with advice if there is any.
    Fail { hint: Option<&'static str>, error: AllocError },
}

/// What follows from an allocation. That nothing was left is no failure if the covered
/// frames were held back.
pub fn after_allocation<U: Units>(
    units: &U,
    sieve_active: bool,
    allocated: Result<AllocOutcome, AllocError>,
    size: SizeSpec,
) -> (decision: SetupDecision)
    ensures
        match allocated {
            Ok(outcome) => {
                &&& decision matches SetupDecision::Proceed { notice }
                &&& notice is None <==> outcome.stop is Completed
                &&& notice matches Some(n) ==> n@ == (
                    if outcome.stop is HeadroomFloor && size == SizeSpec::Max {
                        LogLevel::Info
                    } else {
                        LogLevel::Warn
                    },
                    cli::outcome_text(*units, outcome),
                )
            },
            Err(e) => if sieve_active && e is Exhausted {
                decision is CullCeiling
            } else {
                &&& decision matches SetupDecision::Fail { hint, error }
                &&& error == e
                &&& hint is Some <==> e.remedy() is Some
                &&& hint matches Some(h) ==> e.remedy() == Some(h@)
            },
        },
{
    match allocated {
        Ok(outcome) => SetupDecision::Proceed {
            notice: report_alloc_outcome(units, &outcome, size),
        },
        Err(e) => if is_cull_ceiling(sieve_active, &e) {
            SetupDecision::CullCeiling
        } else {
            let hint = e.help();
            SetupDecision::Fail { hint, error: e }
        },
    }
}

/// What to tell the operator if there is nothing to cull against; the sweep is left out
/// then.
pub fn sieve_skipped(covered: &[PfnRange]) -> (notice: Option<Notice>)
    ensures
        notice is Some <==> covered@.len() == 0,
        notice matches Some(n) ==> n@ == (
            LogLevel::Info,
            "--cull: no prior coverage to cull against; skipping sieve"@,
        ),
{
    if covered.len() == 0 {
        Some(
            Notice {
                level: LogLevel::Info,
                text: "--cull: no prior coverage to cull against; skipping sieve".to_owned(),
            },
        )
    } else {
        None
    }
}

/// What to tell the operator of a sweep that failed; the run goes on without it.
pub fn sieve_failed(error: &SieveError) -> (notice: Notice)
    ensures
        notice@ == (
            LogLevel::Warn,
            "--cull sieve failed ("@ + error.shown() + "); continuing without culling"@,
        ),
{
    let mut s = String::new();
    s.append("--cull sieve failed (");
    s.append(&error.to_string());
    s.append("); continuing without culling");
    assert(s@ =~= "--cull sieve failed ("@ + error.shown() + "); continuing without culling"@);
    Notice { level: LogLevel::Warn, text: s }
}

/// A notice with named values.
#[derive(Debug)]
pub struct DetailedNotice {
    pub notice: Notice,
    pub fields: Vec<(&'static str, String)>,
}

/// The names and values of fields.
pub open spec fn field_texts(fields: Seq<(&'static str, String)>) -> Seq<(Seq<char>, Seq<char>)> {
    Seq::new(fields.len(), |i: int| (fields[i].0@, fields[i].1@))
}

/// What to tell the operator of the address map.
pub fn report_map<U: Units>(units: &U, stats: &MapStats) -> (report: DetailedNotice)
    ensures
        report.notice@ == (LogLevel::Info, "physical address map built"@),
        field_texts(report.fields@) == seq![
            ("pages"@, units.count_text(stats.total_pages as u64)),
            ("thp"@, units.count_text(stats.thp_pages as u64)),
            ("huge"@, units.count_text(stats.huge_pages as u64)),
            ("hwpoison"@, units.count_text(stats.hwpoison_pages as u64)),
        ],
{
    let mut fields: Vec<(&'static str, String)> = Vec::new();
    fields.push(("pages", units.count(stats.total_pages as u64)));
    fields.push(("thp", units.count(stats.thp_pages as u64)));
    fields.push(("huge", units.count(stats.huge_pages as u64)));
    fields.push(("hwpoison", units.count(stats.hwpoison_pages as u64)));
    assert(field_texts(fields@) =~= seq![
        ("pages"@, units.count_text(stats.total_pages as u64)),
        ("thp"@, units.count_text(stats.thp_pages as u64)),
        ("huge"@, units.count_text(stats.huge_pages as u64)),
        ("hwpoison"@, units.count_text(stats.hwpoison_pages as u64)),
    ]);
    DetailedNotice {
        notice: Notice { level: LogLevel::Info, text: "physical address map built".to_owned() },
        fields,
    }
}

/// What to tell the operator of how many pages have changed their address: nothing if
/// none has.
pub fn report_stability<U: Units>(units: &U, changed: Result<usize, PhysError>) -> (report: Option<
    DetailedNotice,
>)
    ensures
        report is None <==> changed == Ok::<usize, PhysError>(0),
        report matches Some(d) ==> match changed {
            Ok(n) => d.notice@ == (LogLevel::Warn, "pages changed physical address after locking"@)
                && field_texts(d.fields@) == seq![("changed"@, units.count_text(n as u64))],
            Err(e) => d.notice@ == (LogLevel::Warn, "PFN stability check failed: "@ + e.shown())
                && d.fields@.len() == 0,
        },
{
    match changed {
        Ok(n) => {
            if n == 0 {
                return None;
            }
            let mut fields: Vec<(&'static str, String)> = Vec::new();
            fields.push(("changed", units.count(n as u64)));
            assert(field_texts(fields@) =~= seq![("changed"@, units.count_text(n as u64))]);
            Some(
                DetailedNotice {
                    notice: Notice {
                        level: LogLevel::Warn,
                        text: "pages changed physical address after locking".to_owned(),
                    },
                    fields,
                },
            )
        },
        Err(e) => {
            let mut s = String::new();
            s.append("PFN stability check failed: ");
            s.append(&e.to_string());
            assert(s@ =~= "PFN stability check failed: "@ + e.shown());
            Some(
                DetailedNotice {
                    notice: Notice { level: LogLevel::Warn, text: s },
                    fields: Vec::new(),
                },
            )
        },
    }
}

} // verus!
