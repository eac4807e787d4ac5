//! From a finished run to the coverage store: which runs count, and what is
//! reported of them.

use crate::events::{LogLevel, Notice};
use crate::pattern::Pattern;
use crate::physmem::coverage::{self, CoverageStore, Fingerprint};
use crate::physmem::gap::GapReport;
use crate::physmem::pfn::{self, PfnRange};
use crate::physmem::sysmem::{Coverage, Cumulative};
use crate::physmem::PAGE_BYTES;
use crate::results::render::{self, render_ceiling_report};
use crate::runner::RunResults;
use crate::text::{self, decimal_string};
use crate::units::Units;
use vstd::prelude::*;
use vstd::string::StringExecFns;

verus! {

/// A coverage store and where it is kept.
pub struct CoverageCtx {
    pub store: CoverageStore,
    pub path: String,
}

/// Why a coverage store cannot be used.
#[derive(Debug, Clone, Copy, PartialEq, Eq, Structural)]
pub enum OpenError {
    /// Addresses are not to be resolved, and coverage needs them.
    NoPhys,
    /// The memory of the machine cannot be told from another's.
    NoFingerprint,
}

impl OpenError {
    /// The message of the error.
    pub fn label(&self) -> (label: &'static str)
        ensures
            label@ == match *self {
                OpenError::NoPhys =>
                    "--coverage-file requires physical address resolution (remove --no-phys)"@,
                OpenError::NoFingerprint =>
                    "cannot fingerprint machine memory for coverage tracking"@,
            },
    {
        match self {
            OpenError::NoPhys =>
                "--coverage-file requires physical address resolution (remove --no-phys)",
            OpenError::NoFingerprint => "cannot fingerprint machine memory for coverage tracking",
        }
    }
}

impl CoverageCtx {
    /// Which machine the store has to belong to, if one is asked for: an error if
    /// coverage cannot be tracked.
    pub fn required_fingerprint(
        coverage_file: Option<&str>,
        no_phys: bool,
        fingerprint: Option<Fingerprint>,
    ) -> (r: Result<Option<Fingerprint>, OpenError>)
        ensures
            r == if coverage_file is None {
                Ok::<Option<Fingerprint>, OpenError>(None)
            } else if no_phys {
                Err(OpenError::NoPhys)
            } else if fingerprint is None {
                Err(OpenError::NoFingerprint)
            } else {
                Ok(fingerprint)
            },
    {
        if coverage_file.is_none() {
            return Ok(None);
        }
        if no_phys {
            return Err(OpenError::NoPhys);
        }
        match fingerprint {
            Some(f) => Ok(Some(f)),
            None => Err(OpenError::NoFingerprint),
        }
    }

    /// The store that was loaded from `path`, or a new one if there was none.
    pub fn open(path: String, fingerprint: Fingerprint, loaded: Option<CoverageStore>) -> (ctx: Self)
        ensures
            ctx.path == path,
            loaded matches Some(store) ==> ctx.store == store,
            loaded is None ==> ctx.store.version == coverage::STORE_VERSION && ctx.store.fingerprint
                == fingerprint && ctx.store.runs@.len() == 0 && ctx.store.ranges@.len() == 0
                && ctx.store.well_formed(),
    {
        let store = match loaded {
            Some(store) => store,
            None => CoverageStore::new(fingerprint),
        };
        CoverageCtx { store, path }
    }
}

/// A copy of ranges.
pub fn copy_ranges(ranges: &[PfnRange]) -> (copy: Vec<PfnRange>)
    ensures
        copy@ == ranges@,
{
    let mut copy: Vec<PfnRange> = Vec::new();
    let mut i: usize = 0;
    while i < ranges.len()
        invariant
            i <= ranges@.len(),
            copy@ =~= ranges@.take(i as int),
        decreases ranges@.len() - i,
    {
        copy.push(ranges[i]);
        i = i + 1;
    }
    assert(copy@ =~= ranges@);
    copy
}

/// The frames to hold back from the allocator, if that is asked for: those that
/// earlier runs covered, or none without a store.
#[must_use]
pub fn cull_ranges(cull: bool, ctx: Option<&CoverageCtx>) -> (ranges: Option<Vec<PfnRange>>)
    ensures
        ranges is Some <==> cull,
        ranges matches Some(r) ==> r@ == match ctx {
            Some(c) => c.store.ranges@,
            None => Seq::empty(),
        },
{
    if !cull {
        return None;
    }
    match ctx {
        Some(c) => Some(copy_ranges(&c.store.ranges)),
        None => Some(Vec::new()),
    }
}

/// What is left to do with a finished run.
pub struct Finalized {
    /// The frames that count as covered, for a look at the rest.
    pub covered: Option<Vec<PfnRange>>,
    /// The store with the run in it, to be saved.
    pub to_save: Option<CoverageCtx>,
    /// What to tell the operator.
    pub warning: Option<&'static str>,
}

/// The names of patterns.
pub open spec fn names_of(patterns: Seq<Pattern>) -> Seq<Seq<char>> {
    Seq::new(patterns.len(), |i: int| patterns[i].name())
}

fn pattern_names(patterns: &[Pattern]) -> (names: Vec<String>)
    ensures
        text::string_texts(names@) == names_of(patterns@),
{
    let mut names: Vec<String> = Vec::new();
    let mut i: usize = 0;
    while i < patterns.len()
        invariant
            i <= patterns@.len(),
            names@.len() == i,
            forall|k: int| 0 <= k < i ==> (#[trigger] names@[k])@ == patterns@[k].name(),
        decreases patterns@.len() - i,
    {
        names.push(patterns[i].to_string());
        i = i + 1;
    }
    assert(text::string_texts(names@) =~= names_of(patterns@));
    names
}

/// Whether a run with these frames can be recorded in the store.
pub open spec fn recordable(store: CoverageStore, ranges: Seq<PfnRange>) -> bool {
    &&& store.well_formed()
    &&& pfn::all_bounded(ranges)
    &&& pfn::all_nonempty(ranges)
    &&& coverage::countable(ranges)
    &&& pfn::frames(store.ranges@).union(pfn::frames(ranges)).len() * PAGE_BYTES <= u64::MAX
}

/// Whether every range ends within the physical address space.
pub open spec fn addressable(ranges: Seq<PfnRange>) -> bool {
    forall|i: int| 0 <= i < ranges.len() ==> (#[trigger] ranges[i]).hi() <= u64::MAX / PAGE_BYTES
}

/// Frames within the physical address space can be counted in bytes.
proof fn lemma_addressable_frames(a: Seq<PfnRange>, b: Seq<PfnRange>)
    requires
        addressable(a),
        addressable(b),
    ensures
        pfn::frames(a).union(pfn::frames(b)).len() * PAGE_BYTES <= u64::MAX,
{
    let limit: int = (u64::MAX / PAGE_BYTES) as int;
    let all = pfn::frames(a).union(pfn::frames(b));
    let below = vstd::set_lib::set_int_range(0, limit);
    vstd::set_lib::lemma_int_range(0, limit);
    assert forall|p: int| all.contains(p) implies #[trigger] below.contains(p) by {
        if pfn::covers(a, p) {
            let i = choose|i: int| 0 <= i < a.len() && #[trigger] a[i].holds(p);
            assert(a[i].hi() <= limit);
        } else {
            let i = choose|i: int| 0 <= i < b.len() && #[trigger] b[i].holds(p);
            assert(b[i].hi() <= limit);
        }
    }
    vstd::set_lib::lemma_len_subset(all, below);
}

fn check_addressable(ranges: &[PfnRange]) -> (b: bool)
    ensures
        b == (addressable(ranges@) && pfn::all_nonempty(ranges@)),
{
    let limit: u64 = u64::MAX / PAGE_BYTES;
    let mut i: usize = 0;
    while i < ranges.len()
        invariant
            i <= ranges@.len(),
            limit == u64::MAX / PAGE_BYTES,
            forall|k: int| 0 <= k < i ==> (#[trigger] ranges@[k]).hi() <= limit,
            forall|k: int| 0 <= k < i ==> (#[trigger] ranges@[k]).count > 0,
        decreases ranges@.len() - i,
    {
        let range = ranges[i];
        if range.count == 0 || range.start.0 > limit || range.count > limit - range.start.0 {
            assert(ranges@[i as int].hi() > limit || ranges@[i as int].count == 0);
            return false;
        }
        i = i + 1;
    }
    true
}

fn check_apart(ranges: &[PfnRange]) -> (b: bool)
    requires
        addressable(ranges@),
        pfn::all_nonempty(ranges@),
    ensures
        b == pfn::apart(ranges@),
{
    let mut i: usize = 1;
    while i < ranges.len()
        invariant
            1 <= i,
            addressable(ranges@),
            pfn::all_nonempty(ranges@),
            forall|a: int, b: int|
                0 <= a < b < i && b < ranges@.len() ==> (#[trigger] ranges@[a]).hi() < (
                #[trigger] ranges@[b]).lo(),
        decreases ranges@.len() - i,
    {
        let before = ranges[i - 1];
        let range = ranges[i];
        assert(ranges@[i - 1].hi() <= u64::MAX / PAGE_BYTES);
        if before.start.0 + before.count >= range.start.0 {
            assert(ranges@[i - 1].hi() >= ranges@[i as int].lo());
            return false;
        }
        proof {
            assert forall|a: int, b: int| 0 <= a < b < i + 1 && b < ranges@.len() implies (
            #[trigger] ranges@[a]).hi() < (#[trigger] ranges@[b]).lo() by {
                if b == i && a < i - 1 {
                    assert(ranges@[a].hi() < ranges@[i - 1].lo());
                    assert(ranges@[i - 1].count > 0);
                }
            }
        }
        i = i + 1;
    }
    true
}

fn check_countable(ranges: &[PfnRange]) -> (b: bool)
    requires
        addressable(ranges@),
    ensures
        b == coverage::countable(ranges@),
{
    let limit: u64 = u64::MAX / PAGE_BYTES;
    let mut sum: u64 = 0;
    let mut i: usize = 0;
    assert(ranges@.take(0) =~= Seq::empty());
    while i < ranges.len()
        invariant
            i <= ranges@.len(),
            limit == u64::MAX / PAGE_BYTES,
            addressable(ranges@),
            sum <= limit,
            sum == pfn::total(ranges@.take(i as int)),
        decreases ranges@.len() - i,
    {
        let count: u64 = ranges[i].count;
        proof {
            assert(ranges@[i as int].hi() <= limit);
            assert(ranges@.take(i + 1).drop_last() =~= ranges@.take(i as int));
            pfn::lemma_total_prefix(ranges@, i + 1);
        }
        if count > limit - sum {
            assert(pfn::total(ranges@.take(i + 1)) > limit);
            return false;
        }
        sum = sum + count;
        i = i + 1;
    }
    assert(ranges@.take(ranges@.len() as int) =~= ranges@);
    true
}

/// Whether a store and the frames of a run are as they should be: within the
/// physical address space, nothing empty, the store's ranges sorted and merged.
/// Such a run can be recorded.
pub fn is_recordable(store: &CoverageStore, ranges: &[PfnRange]) -> (b: bool)
    ensures
        b == (addressable(store.ranges@) && pfn::canonical(store.ranges@) && addressable(ranges@)
            && pfn::all_nonempty(ranges@) && coverage::countable(ranges@)),
        b ==> recordable(*store, ranges@),
{
    if !check_addressable(&store.ranges) || !check_addressable(ranges) {
        return false;
    }
    if !check_apart(&store.ranges) || !check_countable(ranges) {
        return false;
    }
    proof {
        let limit: int = (u64::MAX / PAGE_BYTES) as int;
        lemma_addressable_frames(store.ranges@, ranges@);
        assert(pfn::ordered(store.ranges@)) by {
            assert forall|i: int, j: int| 0 <= i < j < store.ranges@.len() implies (
            #[trigger] store.ranges@[i]).hi() <= (#[trigger] store.ranges@[j]).lo() by {
                assert(store.ranges@[i].hi() < store.ranges@[j].lo());
            }
        }
        pfn::lemma_total_below(store.ranges@, limit);
    }
    true
}

/// Whether `after` is `before` with a run over `ranges` recorded, and `c` is what
/// the run contributed.
pub open spec fn records_run(
    before: CoverageStore,
    after: CoverageStore,
    ranges: Seq<PfnRange>,
    results: RunResults,
    now: jiff::Timestamp,
    c: Cumulative,
) -> bool {
    &&& after.well_formed()
    &&& after.version == before.version
    &&& after.fingerprint == before.fingerprint
    &&& pfn::is_union(after.ranges@, before.ranges@, ranges)
    &&& c.new_bytes == pfn::frames(ranges).difference(pfn::frames(before.ranges@)).len()
        * PAGE_BYTES
    &&& c.cumulative_bytes == pfn::total(after.ranges@) * PAGE_BYTES
    &&& c.runs == before.runs@.len() + 1
    &&& after.runs@.len() == before.runs@.len() + 1
    &&& after.runs@.drop_last() == before.runs@
    &&& {
        let record = after.runs@.last();
        &&& record.timestamp == now
        &&& text::string_texts(record.patterns@) == names_of(results.config.patterns@)
        &&& record.passes == results.config.passes
        &&& record.tested_bytes == pfn::total(ranges) * PAGE_BYTES
        &&& record.new_bytes == c.new_bytes
        &&& record.failures == results.total_failures
    }
}

/// Whether `after` is `before` with the run recorded, and `shown` is the coverage
/// of the run with what it contributed added.
pub open spec fn recorded(
    before: CoverageStore,
    after: CoverageStore,
    ranges: Seq<PfnRange>,
    results: RunResults,
    now: jiff::Timestamp,
    shown: Coverage,
) -> bool {
    exists|c: Cumulative| #[trigger]
        records_run(before, after, ranges, results, now, c) && shown
            == results.coverage.with_cumulative(c)
}

/// What the operator is told of a store that a run is not recorded in.
pub open spec fn omission(
    ctx: Option<CoverageCtx>,
    run_ranges: Option<Vec<PfnRange>>,
    interrupted: bool,
) -> Option<Seq<char>> {
    if ctx is None {
        None
    } else if run_ranges is None {
        Some("coverage store not updated: physical address resolution unavailable"@)
    } else if interrupted {
        Some("coverage store not updated: run was interrupted"@)
    } else {
        None
    }
}

/// What a warning says.
pub open spec fn warned(warning: Option<&str>) -> Option<Seq<char>> {
    match warning {
        Some(text) => Some(text@),
        None => None,
    }
}

/// Record a finished run in the store, if there is one, and add to the results
/// what was covered over all runs. A run whose addresses are not known, or that
/// was broken off, does not count: its frames were not tested by every pattern.
pub fn finalize_coverage(
    ctx: Option<CoverageCtx>,
    run_ranges: Option<Vec<PfnRange>>,
    results: &mut RunResults,
    now: jiff::Timestamp,
) -> (done: Finalized)
    requires
        !old(results).was_interrupted() ==> (ctx matches Some(c) ==> (run_ranges matches Some(r)
            ==> recordable(c.store, r@))),
    ensures
        run_ranges is None || old(results).was_interrupted() ==> {
            &&& done.covered is None
            &&& done.to_save is None
            &&& *final(results) == *old(results)
        },
        !old(results).was_interrupted() ==> (run_ranges matches Some(r) ==> {
            &&& ctx is None ==> done.covered == run_ranges && done.to_save is None
                && *final(results) == *old(results)
            &&& ctx matches Some(c) ==> {
                &&& done.to_save matches Some(saved)
                &&& saved.path == c.path
                &&& done.covered matches Some(covered)
                &&& covered@ == saved.store.ranges@
                &&& recorded(
                    c.store,
                    saved.store,
                    r@,
                    *old(results),
                    now,
                    final(results).coverage,
                )
                &&& final(results).passes == old(results).passes
                &&& final(results).config == old(results).config
                &&& final(results).elapsed == old(results).elapsed
                &&& final(results).total_failures == old(results).total_failures
                &&& final(results).error_analysis == old(results).error_analysis
            }
        }),
        warned(done.warning) == omission(ctx, run_ranges, old(results).was_interrupted()),
{
    let ranges = match run_ranges {
        Some(ranges) => ranges,
        None => {
            let warning = if ctx.is_some() {
                Some("coverage store not updated: physical address resolution unavailable")
            } else {
                None
            };
            return Finalized { covered: None, to_save: None, warning };
        },
    };
    if results.interrupted() {
        let warning = if ctx.is_some() {
            Some("coverage store not updated: run was interrupted")
        } else {
            None
        };
        return Finalized { covered: None, to_save: None, warning };
    }
    let mut ctx = match ctx {
        Some(ctx) => ctx,
        None => {
            return Finalized { covered: Some(ranges), to_save: None, warning: None };
        },
    };
    let ghost before = ctx.store;
    let patterns = pattern_names(&results.config.patterns);
    let delta = ctx.store.record_run(
        &ranges,
        now,
        patterns,
        results.config.passes,
        results.total_failures as u64,
    );
    let cumulative = Cumulative {
        new_bytes: delta.new_bytes,
        cumulative_bytes: delta.cumulative_bytes,
        runs: delta.runs,
    };
    proof {
        let after = ctx.store;
        assert(after.runs@.drop_last() =~= before.runs@);
        pfn::lemma_total_prefix(ranges@, 0);
        assert(records_run(before, after, ranges@, *old(results), now, cumulative));
    }
    results.coverage.attach_cumulative(cumulative);
    let covered = copy_ranges(&ctx.store.ranges);
    Finalized { covered: Some(covered), to_save: Some(ctx), warning: None }
}

/// Add to the results what the untested memory is, if it was looked up.
pub fn attach_gap_classification(report: Option<GapReport>, results: &mut RunResults)
    ensures
        final(results).coverage == match report {
            Some(r) => old(results).coverage.with_gap(r),
            None => old(results).coverage,
        },
        final(results).passes == old(results).passes,
        final(results).config == old(results).config,
        final(results).elapsed == old(results).elapsed,
        final(results).total_failures == old(results).total_failures,
        final(results).error_analysis == old(results).error_analysis,
{
    if let Some(r) = report {
        results.coverage.attach_gap(r);
    }
}

/// What was covered over all runs: the bytes and how many runs; nothing without a
/// store.
pub fn recorded_so_far(ctx: Option<&CoverageCtx>) -> (r: (u64, u64))
    requires
        ctx matches Some(c) ==> c.store.well_formed(),
    ensures
        r == match ctx {
            Some(c) => (
                (pfn::total(c.store.ranges@) * PAGE_BYTES) as u64,
                c.store.runs@.len() as u64,
            ),
            None => (0u64, 0u64),
        },
{
    match ctx {
        Some(c) => (c.store.covered_bytes(), c.store.runs.len() as u64),
        None => (0, 0),
    }
}

/// What is said when a store is opened: what earlier runs covered, or that it is new.
pub open spec fn opening_text<U: Units>(
    units: U,
    path: Seq<char>,
    loaded: bool,
    covered: u64,
    runs: u64,
    installed: u64,
) -> Seq<char> {
    if loaded {
        "cumulative coverage: "@ + units.size_text(covered) + " / "@ + units.size_text(installed)
            + " ("@ + units.rounded_percent_text(covered, installed) + ") across "@
            + text::decimal(runs as int) + " previous run(s)"@
    } else {
        "starting new coverage file: "@ + path
    }
}

/// Say what a store that was just opened holds.
pub fn report_opening<U: Units>(
    units: &U,
    ctx: &CoverageCtx,
    loaded: bool,
    installed: u64,
) -> (notice: Notice)
    requires
        ctx.store.well_formed(),
    ensures
        notice@ == (
            LogLevel::Info,
            opening_text(
                *units,
                ctx.path@,
                loaded,
                (pfn::total(ctx.store.ranges@) * PAGE_BYTES) as u64,
                ctx.store.runs@.len() as u64,
                installed,
            ),
        ),
{
    let mut text = String::new();
    if loaded {
        let covered = ctx.store.covered_bytes();
        text.append("cumulative coverage: ");
        text.append(&units.size(covered));
        text.append(" / ");
        text.append(&units.size(installed));
        text.append(" (");
        text.append(&units.rounded_percent(covered, installed));
        text.append(") across ");
        text.append(&decimal_string(ctx.store.runs.len() as u64));
        text.append(" previous run(s)");
    } else {
        text.append("starting new coverage file: ");
        text.append(&ctx.path);
    }
    assert(text@ =~= opening_text(
        *units,
        ctx.path@,
        loaded,
        (pfn::total(ctx.store.ranges@) * PAGE_BYTES) as u64,
        ctx.store.runs@.len() as u64,
        installed,
    ));
    Notice { level: LogLevel::Info, text }
}

/// Say that there is nothing left to test: in the log always, and in a report if the
/// output is for people.
pub fn report_cull_ceiling<U: Units>(
    units: &U,
    ctx: Option<&CoverageCtx>,
    installed: u64,
    gap: Option<GapReport>,
    render_table: bool,
) -> (r: (Notice, Option<String>))
    requires
        ctx matches Some(c) ==> c.store.well_formed(),
        gap matches Some(g) ==> g.sum() <= u64::MAX,
    ensures
        r.0@ == (
            LogLevel::Info,
            "--cull: nothing new to test; every acquirable frame is already covered on this boot"@,
        ),
        r.1 is Some <==> render_table,
        r.1 matches Some(report) ==> report@ == (match ctx {
            Some(c) => render::ceiling_text(
                *units,
                (pfn::total(c.store.ranges@) * PAGE_BYTES) as u64,
                installed,
                c.store.runs@.len() as u64,
                gap,
            ),
            None => render::ceiling_text(*units, 0, installed, 0, gap),
        }),
{
    let notice = Notice {
        level: LogLevel::Info,
        text: "--cull: nothing new to test; every acquirable frame is already covered on this boot".to_owned(),
    };
    if !render_table {
        return (notice, None);
    }
    let (cumulative, runs) = recorded_so_far(ctx);
    (notice, Some(render_ceiling_report(units, cumulative, installed, runs, gap)))
}

/// A recorded run adds its frames to those covered and takes none away; what it added and
/// what was covered before make up what is covered now; and the store keeps the earlier
/// records and tells of this run what it was and how many failures it found.
pub proof fn law_recorded_run_adds_up(
    before: CoverageStore,
    after: CoverageStore,
    ranges: Seq<PfnRange>,
    results: RunResults,
    now: jiff::Timestamp,
    c: Cumulative,
)
    requires
        before.well_formed(),
        records_run(before, after, ranges, results, now, c),
    ensures
        forall|p: int|
            #![trigger pfn::covers(after.ranges@, p)]
            pfn::covers(after.ranges@, p) <==> pfn::covers(before.ranges@, p) || pfn::covers(
                ranges,
                p,
            ),
        c.cumulative_bytes == pfn::frames(before.ranges@).len() * 4096 + c.new_bytes,
        c.cumulative_bytes == pfn::frames(after.ranges@).len() * 4096,
        c.runs == after.runs@.len(),
        forall|i: int|
            0 <= i < before.runs@.len() ==> #[trigger] after.runs@[i] == before.runs@[i],
        after.runs@[before.runs@.len() as int].timestamp == now,
        after.runs@[before.runs@.len() as int].passes == results.config.passes,
        after.runs@[before.runs@.len() as int].new_bytes == c.new_bytes,
        after.runs@[before.runs@.len() as int].tested_bytes == pfn::total(ranges) * 4096,
        pfn::disjoint(ranges) ==> after.runs@[before.runs@.len() as int].tested_bytes
            == pfn::frames(ranges).len() * 4096,
        after.runs@[before.runs@.len() as int].failures == results.total_failures,
        after.runs@[before.runs@.len() as int].patterns@.len() == results.config.patterns@.len(),
        forall|i: int|
            0 <= i < results.config.patterns@.len() ==> (#[trigger] after.runs@[before.runs@.len() as int].patterns@[i])@
                == results.config.patterns@[i].name(),
{
    let old_frames = pfn::frames(before.ranges@);
    let new_frames = pfn::frames(ranges).difference(old_frames);
    pfn::lemma_ordered_is_disjoint(before.ranges@);
    pfn::lemma_total_counts_frames(before.ranges@);
    pfn::lemma_ordered_is_disjoint(after.ranges@);
    pfn::lemma_total_counts_frames(after.ranges@);
    assert(pfn::frames(after.ranges@) =~= old_frames + new_frames) by {
        assert forall|p: int| pfn::frames(after.ranges@).contains(p) <==> (old_frames
            + new_frames).contains(p) by {
            assert(pfn::covers(after.ranges@, p) <==> pfn::covers(before.ranges@, p)
                || pfn::covers(ranges, p));
        }
    }
    assert(new_frames.finite()) by {
        assert(new_frames.subset_of(pfn::frames(after.ranges@)));
        vstd::set_lib::lemma_set_subset_finite(pfn::frames(after.ranges@), new_frames);
    }
    vstd::set_lib::lemma_set_disjoint_lens(old_frames, new_frames);
    if pfn::disjoint(ranges) {
        pfn::lemma_total_counts_frames(ranges);
    }
    assert forall|i: int| 0 <= i < before.runs@.len() implies #[trigger] after.runs@[i]
        == before.runs@[i] by {
        assert(after.runs@.drop_last()[i] == before.runs@[i]);
    }
    let record = after.runs@.last();
    assert(text::string_texts(record.patterns@).len() == names_of(results.config.patterns@).len());
    assert forall|i: int| 0 <= i < results.config.patterns@.len() implies (
    #[trigger] record.patterns@[i])@ == results.config.patterns@[i].name() by {
        assert(text::string_texts(record.patterns@)[i] == names_of(results.config.patterns@)[i]);
    }
}

/// A run that was broken off, or whose addresses are not known, changes nothing that is
/// covered, and the operator of a store is told so.
pub proof fn law_omitted_run_is_told(
    ctx: Option<CoverageCtx>,
    run_ranges: Option<Vec<PfnRange>>,
    interrupted: bool,
)
    ensures
        omission(ctx, run_ranges, interrupted) is Some <==> ctx is Some && (run_ranges is None
            || interrupted),
{
}

/// What is said of a store that was loaded tells what is covered of how much, and by how
/// many runs.
pub proof fn law_opening_tells_what_is_covered<U: Units>(
    units: U,
    path: Seq<char>,
    covered: u64,
    runs: u64,
    installed: u64,
)
    ensures
        ({
            let said = opening_text(units, path, true, covered, runs, installed);
            &&& text::holds_text(
                said,
                units.size_text(covered) + " / "@ + units.size_text(installed),
            )
            &&& text::holds_text(said, " ("@ + units.rounded_percent_text(covered, installed))
            &&& text::holds_text(said, text::decimal(runs as int) + " previous run(s)"@)
        }),
        text::holds_text(opening_text(units, path, false, covered, runs, installed), path),
{
    let none = Seq::<char>::empty();
    let head = "cumulative coverage: "@;
    let met = units.size_text(covered);
    let all = units.size_text(installed);
    let part = units.rounded_percent_text(covered, installed);
    let many = text::decimal(runs as int);
    let l1 = head + met + " / "@ + all;
    let l2 = l1 + " ("@ + part;
    let l3 = l2 + ") across "@;
    text::lemma_holds_pieces(head, met, " / "@, all);
    text::lemma_text_grows(l1, " ("@);
    text::lemma_text_grows(l1 + " ("@, part);
    text::lemma_holds_pieces(l1, " ("@, part, none);
    text::lemma_text_grows(l2, ") across "@);
    text::lemma_text_grows(l3, many);
    text::lemma_text_grows(l3 + many, " previous run(s)"@);
    text::lemma_holds_pieces(l3, many, " previous run(s)"@, none);
    text::lemma_text_grows("starting new coverage file: "@, path);
}

} // verus!
