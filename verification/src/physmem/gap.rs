//! Gap classification: explaining the untested remainder of installed RAM.
//!
//! Every System RAM frame outside the covered set goes to the bucket of what
//! userspace could do about it: acquirable right now, reclaimable under
//! pressure, in use by other processes, or unreachable by design.

use vstd::prelude::*;

use crate::physmem::kpageflags::{
    KPageFlags, KPF_ANON, KPF_BUDDY, KPF_HWPOISON, KPF_LRU, KPF_NOPAGE, KPF_OFFLINE, KPF_PGTABLE,
    KPF_SLAB, KPF_SWAPBACKED, READ_BATCH_FRAMES,
};
use crate::physmem::pfn::{self, is_ordered, subtract_ranges, Pfn, PfnRange};
use crate::physmem::PAGE_BYTES;

verus! {

/// What an untested physical frame is doing, and therefore whether another run
/// could reach it.
#[derive(Debug, Clone, Copy, PartialEq, Eq, Structural)]
pub enum FrameClass {
    /// In the buddy allocator: acquirable right now.
    Free,
    /// File-backed page cache: acquirable under allocation pressure.
    Reclaimable,
    /// Anonymous or shmem memory of other processes: freed by stopping services
    /// or rebooting.
    InUse,
    /// Kernel text and data, slab, page tables, reserved, poisoned, offline:
    /// unreachable from userspace by design.
    Unreachable,
}

/// The flags that put a frame out of reach whatever else is set.
pub const KPF_OUT_OF_REACH: u64 = KPF_NOPAGE | KPF_OFFLINE | KPF_HWPOISON | KPF_SLAB | KPF_PGTABLE;

/// The flags of memory that another process uses.
pub const KPF_USED: u64 = KPF_ANON | KPF_SWAPBACKED;

/// The class of a frame with these flags.
pub open spec fn class_of(flags: KPageFlags) -> FrameClass {
    if flags.has_any(KPF_OUT_OF_REACH) {
        FrameClass::Unreachable
    } else if flags.has(KPF_BUDDY) {
        FrameClass::Free
    } else if flags.has_any(KPF_USED) {
        FrameClass::InUse
    } else if flags.has(KPF_LRU) {
        FrameClass::Reclaimable
    } else {
        FrameClass::Unreachable
    }
}

/// Classify one frame by its flags.
pub fn classify(flags: KPageFlags) -> (class: FrameClass)
    ensures
        class == class_of(flags),
{
    if flags.intersects(KPF_OUT_OF_REACH) {
        FrameClass::Unreachable
    } else if flags.contains(KPF_BUDDY) {
        FrameClass::Free
    } else if flags.intersects(KPF_USED) {
        FrameClass::InUse
    } else if flags.contains(KPF_LRU) {
        FrameClass::Reclaimable
    } else {
        // Kernel text and data, reserved and driver pages show no public flags.
        FrameClass::Unreachable
    }
}

/// A frame marked as poisoned is out of reach, whatever else its flags say.
pub proof fn law_poison_trumps_everything(flags: KPageFlags)
    requires
        flags.has_any(KPF_HWPOISON),
    ensures
        class_of(flags) == FrameClass::Unreachable,
{
    let raw = flags.raw;
    assert(raw & 0x8_0000u64 != 0 ==> raw & (0x10_0000u64 | 0x80_0000u64 | 0x8_0000u64 | 0x80u64
        | 0x400_0000u64) != 0) by (bit_vector);
}

/// Byte totals per [`FrameClass`] over the untested remainder.
#[derive(Debug, Clone, Copy, PartialEq, Eq, Structural)]
pub struct GapReport {
    /// In the buddy allocator.
    pub free_bytes: u64,
    /// File-backed page cache.
    pub reclaimable_bytes: u64,
    /// In use by other processes.
    pub in_use_bytes: u64,
    /// Unreachable from userspace by design.
    pub unreachable_bytes: u64,
    /// Frames whose flags could not be read.
    pub unknown_bytes: u64,
}

impl Default for GapReport {
    fn default() -> (report: Self)
        ensures
            report == GapReport::nothing(),
    {
        GapReport {
            free_bytes: 0,
            reclaimable_bytes: 0,
            in_use_bytes: 0,
            unreachable_bytes: 0,
            unknown_bytes: 0,
        }
    }
}

impl GapReport {
    /// Nothing untested.
    pub open spec fn nothing() -> GapReport {
        GapReport {
            free_bytes: 0,
            reclaimable_bytes: 0,
            in_use_bytes: 0,
            unreachable_bytes: 0,
            unknown_bytes: 0,
        }
    }

    /// Sum over all classes.
    pub open spec fn sum(self) -> int {
        self.free_bytes + self.reclaimable_bytes + self.in_use_bytes + self.unreachable_bytes
            + self.unknown_bytes
    }

    /// Total untested bytes across all classes.
    pub fn total_bytes(&self) -> (total: u64)
        requires
            self.sum() <= u64::MAX,
        ensures
            total == self.sum(),
    {
        self.free_bytes + self.reclaimable_bytes + self.in_use_bytes + self.unreachable_bytes
            + self.unknown_bytes
    }

    /// The report with one frame more in `class`.
    pub open spec fn with_frame(self, class: FrameClass) -> GapReport {
        match class {
            FrameClass::Free => GapReport {
                free_bytes: (self.free_bytes + PAGE_BYTES) as u64,
                ..self
            },
            FrameClass::Reclaimable => GapReport {
                reclaimable_bytes: (self.reclaimable_bytes + PAGE_BYTES) as u64,
                ..self
            },
            FrameClass::InUse => GapReport {
                in_use_bytes: (self.in_use_bytes + PAGE_BYTES) as u64,
                ..self
            },
            FrameClass::Unreachable => GapReport {
                unreachable_bytes: (self.unreachable_bytes + PAGE_BYTES) as u64,
                ..self
            },
        }
    }

    /// Count one frame of `class`.
    pub fn count_frame(&mut self, class: FrameClass)
        requires
            old(self).sum() + PAGE_BYTES <= u64::MAX,
        ensures
            *final(self) == old(self).with_frame(class),
            final(self).sum() == old(self).sum() + PAGE_BYTES,
    {
        match class {
            FrameClass::Free => {
                self.free_bytes = self.free_bytes + PAGE_BYTES;
            },
            FrameClass::Reclaimable => {
                self.reclaimable_bytes = self.reclaimable_bytes + PAGE_BYTES;
            },
            FrameClass::InUse => {
                self.in_use_bytes = self.in_use_bytes + PAGE_BYTES;
            },
            FrameClass::Unreachable => {
                self.unreachable_bytes = self.unreachable_bytes + PAGE_BYTES;
            },
        }
    }
}

/// The frames that lie wholly in the inclusive byte range, if there are any.
pub open spec fn whole_frames(start: u64, end: u64) -> Option<PfnRange> {
    let first = (start + PAGE_BYTES - 1) / (PAGE_BYTES as int);
    let last = (end + 1) / (PAGE_BYTES as int);
    if last > first {
        Some(PfnRange { start: Pfn(first as u64), count: (last - first) as u64 })
    } else {
        None
    }
}

/// The frames of each of the first `n` byte ranges that has any.
pub open spec fn whole_frames_of(ranges: Seq<(u64, u64)>, n: int) -> Seq<PfnRange>
    decreases n,
{
    if n <= 0 {
        Seq::empty()
    } else {
        match whole_frames(ranges[n - 1].0, ranges[n - 1].1) {
            Some(range) => whole_frames_of(ranges, n - 1).push(range),
            None => whole_frames_of(ranges, n - 1),
        }
    }
}

/// A frame counts as RAM if and only if all its bytes do.
pub proof fn law_whole_frames(start: u64, end: u64, p: int)
    requires
        end < u64::MAX,
        0 <= p,
    ensures
        (match whole_frames(start, end) {
            Some(range) => range.holds(p) && range.bounded(),
            None => false,
        }) <==> start <= p * PAGE_BYTES && (p + 1) * PAGE_BYTES <= end + 1,
{
}

/// Convert inclusive System RAM byte ranges, as parsed from `/proc/iomem`, into
/// the frame ranges that they fully contain.
pub fn ram_pfn_ranges(ranges: &[(u64, u64)]) -> (frames: Vec<PfnRange>)
    requires
        forall|i: int| 0 <= i < ranges@.len() ==> (#[trigger] ranges@[i]).1 < u64::MAX,
    ensures
        frames@ == whole_frames_of(ranges@, ranges@.len() as int),
        pfn::all_bounded(frames@),
        pfn::all_nonempty(frames@),
{
    let mut frames: Vec<PfnRange> = Vec::new();
    let mut i: usize = 0;
    while i < ranges.len()
        invariant
            i <= ranges@.len(),
            forall|i: int| 0 <= i < ranges@.len() ==> (#[trigger] ranges@[i]).1 < u64::MAX,
            frames@ == whole_frames_of(ranges@, i as int),
            pfn::all_bounded(frames@),
            pfn::all_nonempty(frames@),
        decreases ranges@.len() - i,
    {
        let start: u64 = ranges[i].0;
        let end: u64 = ranges[i].1;
        assert(ranges@[i as int].1 < u64::MAX);
        let first: u64 = if start % PAGE_BYTES == 0 {
            start / PAGE_BYTES
        } else {
            start / PAGE_BYTES + 1
        };
        assert(first == (start + PAGE_BYTES - 1) / (PAGE_BYTES as int));
        let last: u64 = (end + 1) / PAGE_BYTES;
        if last > first {
            frames.push(PfnRange { start: Pfn(first), count: last - first });
        }
        i = i + 1;
    }
    frames
}

/// One attempt to read flag words.
#[verifier::ext_equal]
pub struct FlagRead {
    /// Frames asked for.
    pub range: PfnRange,
    /// Their flag words, if they could be read.
    pub words: Option<Seq<u64>>,
}

/// The words that came back, if any did.
pub open spec fn seen(words: Option<Vec<u64>>) -> Option<Seq<u64>> {
    match words {
        Some(v) => Some(v@),
        None => None,
    }
}

/// Where flag words come from.
///
/// Nothing is promised of the words, nor of whether they can be read. Each source
/// says for itself what `reads` is, unless it is ordinary Rust code.
pub trait FlagSource {
    /// Every read so far, oldest first.
    open spec fn reads(&self) -> Seq<FlagRead> {
        Seq::empty()
    }

    /// The flag words of `range`, one per frame, or `None` if they cannot be
    /// read.
    fn read(&mut self, range: PfnRange) -> (words: Option<Vec<u64>>)
        ensures
            final(self).reads() == old(self).reads().push(
                FlagRead { range, words: seen(words) },
            ),
            words matches Some(v) ==> v@.len() == range.count,
    ;
}

/// Flag words held in memory: those of consecutive frames from `base`.
pub struct FlagTable {
    base: Pfn,
    words: Vec<u64>,
    reads: Ghost<Seq<FlagRead>>,
}

impl FlagTable {
    /// First frame of the table.
    pub closed spec fn first(&self) -> int {
        self.base.0 as int
    }

    /// The flag words, from the first frame on.
    pub closed spec fn contents(&self) -> Seq<u64> {
        self.words@
    }

    /// The words of the frames from `base` on.
    pub fn new(base: Pfn, words: Vec<u64>) -> (table: Self)
        ensures
            table.first() == base.0,
            table.contents() == words@,
            table.reads() == Seq::<FlagRead>::empty(),
    {
        FlagTable { base, words, reads: Ghost(Seq::empty()) }
    }
}

impl FlagSource for FlagTable {
    closed spec fn reads(&self) -> Seq<FlagRead> {
        self.reads@
    }

    /// The table's words where it has all that are asked for.
    fn read(&mut self, range: PfnRange) -> (words: Option<Vec<u64>>)
        ensures
            final(self).first() == old(self).first(),
            final(self).contents() == old(self).contents(),
            words is Some <==> old(self).first() <= range.lo() && range.hi() <= old(self).first()
                + old(self).contents().len(),
            words matches Some(v) ==> v@ == old(self).contents().subrange(
                range.lo() - old(self).first(),
                range.hi() - old(self).first(),
            ),
    {
        let held: usize = self.words.len();
        let mut found: Option<Vec<u64>> = None;
        if self.base.0 <= range.start.0 {
            let skip: u64 = range.start.0 - self.base.0;
            if skip <= held as u64 && range.count <= held as u64 - skip {
                let mut v: Vec<u64> = Vec::new();
                let mut i: usize = 0;
                while i < range.count as usize
                    invariant
                        i <= range.count,
                        range.count <= held - skip,
                        skip <= held,
                        held == self.words@.len(),
                        v@ =~= self.words@.subrange(skip as int, skip + i),
                    decreases range.count - i,
                {
                    v.push(self.words[skip as usize + i]);
                    i = i + 1;
                }
                found = Some(v);
            }
        }
        self.reads = Ghost(
            self.reads@.push(
                FlagRead { range, words: seen(found) },
            ),
        );
        found
    }
}

/// The batches that cover the first `n` frames of a gap.
pub open spec fn batches(gap: PfnRange, n: int) -> Seq<PfnRange>
    decreases n,
{
    if n <= 0 {
        Seq::empty()
    } else {
        let from = ((n - 1) / (READ_BATCH_FRAMES as int)) * READ_BATCH_FRAMES;
        batches(gap, from).push(
            PfnRange { start: Pfn((gap.start.0 + from) as u64), count: (n - from) as u64 },
        )
    }
}

/// The batches that cover the first `n` gaps.
pub open spec fn all_batches(gaps: Seq<PfnRange>, n: int) -> Seq<PfnRange>
    decreases n,
{
    if n <= 0 {
        Seq::empty()
    } else {
        all_batches(gaps, n - 1) + batches(gaps[n - 1], gaps[n - 1].count as int)
    }
}

/// A report with the first `n` of `words` counted in.
pub open spec fn count_words(report: GapReport, words: Seq<u64>, n: int) -> GapReport
    decreases n,
{
    if n <= 0 {
        report
    } else {
        count_words(report, words, n - 1).with_frame(class_of(KPageFlags { raw: words[n - 1] }))
    }
}

/// A report with one read counted in.
pub open spec fn count_read(report: GapReport, read: FlagRead) -> GapReport {
    match read.words {
        Some(words) => count_words(report, words, words.len() as int),
        None => GapReport {
            unknown_bytes: (report.unknown_bytes + read.range.count * PAGE_BYTES) as u64,
            ..report
        },
    }
}

/// The report of a sequence of reads.
pub open spec fn report_of(reads: Seq<FlagRead>) -> GapReport
    decreases reads.len(),
{
    if reads.len() == 0 {
        GapReport::nothing()
    } else {
        count_read(report_of(reads.drop_last()), reads.last())
    }
}

/// The ranges that were asked for.
pub open spec fn asked(reads: Seq<FlagRead>) -> Seq<PfnRange> {
    Seq::new(reads.len(), |i: int| reads[i].range)
}

/// Whether each read that gave words gave one for each frame asked for.
pub open spec fn whole(reads: Seq<FlagRead>) -> bool {
    forall|i: int|
        0 <= i < reads.len() ==> ((#[trigger] reads[i]).words matches Some(words) ==> words.len()
            == reads[i].range.count)
}

/// Reads in two goes: the report counts both.
proof fn lemma_report_push(reads: Seq<FlagRead>, read: FlagRead)
    ensures
        report_of(reads.push(read)) == count_read(report_of(reads), read),
        asked(reads.push(read)) == asked(reads).push(read.range),
{
    assert(reads.push(read).drop_last() =~= reads);
    assert(asked(reads.push(read)) =~= asked(reads).push(read.range));
}

/// Classify every frame in `gaps`, reading flag words in batches. Frames whose
/// words cannot be read count as unknown.
///
/// Each gap is read front to back, [`READ_BATCH_FRAMES`] frames at a time.
pub fn classify_gaps<S: FlagSource>(gaps: &[PfnRange], source: &mut S) -> (report: GapReport)
    requires
        pfn::all_bounded(gaps@),
        pfn::total(gaps@) * PAGE_BYTES <= u64::MAX,
    ensures
        crate::memory::extends(old(source).reads(), final(source).reads()),
        asked(crate::memory::since(old(source).reads(), final(source).reads())) == all_batches(
            gaps@,
            gaps@.len() as int,
        ),
        whole(crate::memory::since(old(source).reads(), final(source).reads())),
        report == report_of(crate::memory::since(old(source).reads(), final(source).reads())),
        report.sum() == pfn::total(gaps@) * PAGE_BYTES,
{
    let ghost reads0 = source.reads();
    let mut report = GapReport::default();
    let mut g: usize = 0;
    proof {
        crate::memory::lemma_since_self(reads0);
        assert(asked(Seq::empty()) =~= all_batches(gaps@, 0));
        assert(gaps@.take(0) =~= Seq::empty());
    }
    while g < gaps.len()
        invariant
            g <= gaps@.len(),
            pfn::all_bounded(gaps@),
            pfn::total(gaps@) * PAGE_BYTES <= u64::MAX,
            reads0 == old(source).reads(),
            crate::memory::extends(reads0, source.reads()),
            asked(crate::memory::since(reads0, source.reads())) == all_batches(gaps@, g as int),
            whole(crate::memory::since(reads0, source.reads())),
            report == report_of(crate::memory::since(reads0, source.reads())),
            report.sum() == pfn::total(gaps@.take(g as int)) * PAGE_BYTES,
        decreases gaps@.len() - g,
    {
        let gap = gaps[g];
        assert(gaps@[g as int].bounded());
        let ghost before = pfn::total(gaps@.take(g as int));
        proof {
            assert(gaps@.take(g + 1).drop_last() =~= gaps@.take(g as int));
            pfn::lemma_total_prefix(gaps@, g + 1);
        }
        let mut offset: u64 = 0;
        assert(all_batches(gaps@, g as int) + batches(gap, 0) =~= all_batches(gaps@, g as int));
        while offset < gap.count
            invariant
                offset <= gap.count,
                offset < gap.count ==> offset % READ_BATCH_FRAMES == 0,
                gap.bounded(),
                gap == gaps@[g as int],
                g < gaps@.len(),
                (before + gap.count) * PAGE_BYTES <= u64::MAX,
                reads0 == old(source).reads(),
                crate::memory::extends(reads0, source.reads()),
                asked(crate::memory::since(reads0, source.reads())) == all_batches(
                    gaps@,
                    g as int,
                ) + batches(gap, offset as int),
                whole(crate::memory::since(reads0, source.reads())),
                report == report_of(crate::memory::since(reads0, source.reads())),
                report.sum() == (before + offset) * PAGE_BYTES,
            decreases gap.count - offset,
        {
            let left: u64 = gap.count - offset;
            let count: u64 = if READ_BATCH_FRAMES <= left {
                READ_BATCH_FRAMES
            } else {
                left
            };
            let range = PfnRange { start: Pfn(gap.start.0 + offset), count };
            let ghost reads1 = source.reads();
            let ghost report1 = report;
            match source.read(range) {
                Some(words) => {
                    let mut w: usize = 0;
                    while w < words.len()
                        invariant
                            w <= words@.len(),
                            words@.len() == count,
                            offset + count <= gap.count,
                            (before + gap.count) * PAGE_BYTES <= u64::MAX,
                            report == count_words(report1, words@, w as int),
                            report.sum() == (before + offset + w) * PAGE_BYTES,
                        decreases words@.len() - w,
                    {
                        report.count_frame(classify(KPageFlags::from_bits_retain(words[w])));
                        w = w + 1;
                    }
                },
                None => {
                    report.unknown_bytes = report.unknown_bytes + count * PAGE_BYTES;
                },
            }
            proof {
                let done1 = crate::memory::since(reads0, reads1);
                let done2 = crate::memory::since(reads0, source.reads());
                assert(done2 =~= done1.push(source.reads().last()));
                assert(source.reads().take(reads0.len() as int) =~= reads1.take(
                    reads0.len() as int,
                ));
                lemma_report_push(done1, source.reads().last());
                assert((offset + count - 1) / (READ_BATCH_FRAMES as int) * READ_BATCH_FRAMES
                    == offset);
                assert(batches(gap, offset + count) == batches(gap, offset as int).push(range));
                assert(all_batches(gaps@, g as int) + batches(gap, offset + count) =~= (all_batches(
                    gaps@,
                    g as int,
                ) + batches(gap, offset as int)).push(range));
            }
            offset = offset + count;
        }
        g = g + 1;
    }
    assert(gaps@.take(gaps@.len() as int) =~= gaps@);
    report
}

/// Whether the ranges of System RAM and the covered frames are sorted, so that
/// one can be taken from the other.
pub open spec fn classifiable(system_ram: Seq<(u64, u64)>, covered: Seq<PfnRange>) -> bool {
    &&& forall|i: int| 0 <= i < system_ram.len() ==> (#[trigger] system_ram[i]).1 < u64::MAX
    &&& pfn::ordered(whole_frames_of(system_ram, system_ram.len() as int))
    &&& pfn::ordered(covered)
    &&& pfn::all_bounded(covered)
}

/// Whether the ranges of System RAM and the covered frames are sorted, so that
/// one can be taken from the other.
pub fn is_classifiable(system_ram: &[(u64, u64)], covered: &[PfnRange]) -> (b: bool)
    ensures
        b == classifiable(system_ram@, covered@),
{
    let mut i: usize = 0;
    while i < system_ram.len()
        invariant
            i <= system_ram@.len(),
            forall|k: int| 0 <= k < i ==> (#[trigger] system_ram@[k]).1 < u64::MAX,
        decreases system_ram@.len() - i,
    {
        if system_ram[i].1 == u64::MAX {
            assert(system_ram@[i as int].1 == u64::MAX);
            return false;
        }
        i = i + 1;
    }
    is_ordered(&ram_pfn_ranges(system_ram)) && is_ordered(covered)
}

/// Classify every System RAM frame outside `covered`, given the inclusive byte
/// ranges of System RAM. `None` when no whole frame of RAM is known, as it is
/// without the privilege to see physical addresses.
pub fn classify_system_gaps<S: FlagSource>(
    system_ram: &[(u64, u64)],
    covered: &[PfnRange],
    source: &mut S,
) -> (report: Option<GapReport>)
    requires
        classifiable(system_ram@, covered@),
    ensures
        ({
            let universe = whole_frames_of(system_ram@, system_ram@.len() as int);
            let reads = crate::memory::since(old(source).reads(), final(source).reads());
            &&& report is None <==> universe.len() == 0
            &&& report is None ==> final(source).reads() == old(source).reads()
            &&& report matches Some(r) ==> crate::memory::extends(
                old(source).reads(),
                final(source).reads(),
            ) && r == report_of(reads) && exists|gaps: Seq<PfnRange>| #[trigger]
                pfn::is_difference(gaps, universe, covered@) && asked(reads) == all_batches(
                    gaps,
                    gaps.len() as int,
                ) && r.sum() == pfn::total(gaps) * PAGE_BYTES
            &&& report matches Some(r) ==> r.sum() <= u64::MAX
        }),
{
    let universe = ram_pfn_ranges(system_ram);
    if universe.len() == 0 {
        return None;
    }
    let gaps = subtract_ranges(&universe, covered);
    proof {
        lemma_ram_total(system_ram@, universe@, gaps@, covered@);
    }
    Some(classify_gaps(&gaps, source))
}

/// Frames of byte-addressed RAM have a countable number of bytes.
proof fn lemma_ram_total(
    system_ram: Seq<(u64, u64)>,
    universe: Seq<PfnRange>,
    gaps: Seq<PfnRange>,
    covered: Seq<PfnRange>,
)
    requires
        forall|i: int| 0 <= i < system_ram.len() ==> (#[trigger] system_ram[i]).1 < u64::MAX,
        universe == whole_frames_of(system_ram, system_ram.len() as int),
        pfn::ordered(universe),
        pfn::is_difference(gaps, universe, covered),
    ensures
        pfn::total(gaps) * PAGE_BYTES <= u64::MAX,
{
    let limit: int = (u64::MAX / PAGE_BYTES) as int;
    assert forall|k: int| 0 <= k < universe.len() implies (#[trigger] universe[k]).hi() <= limit by {
        lemma_whole_frames_end(system_ram, system_ram.len() as int, k);
    }
    assert forall|k: int| 0 <= k < gaps.len() implies (#[trigger] gaps[k]).hi() <= limit by {
        let p = gaps[k].hi() - 1;
        assert(gaps[k].count > 0);
        assert(gaps[k].holds(p));
        assert(pfn::covers(gaps, p));
        assert(pfn::covers(universe, p));
        let u = choose|u: int| 0 <= u < universe.len() && #[trigger] universe[u].holds(p);
        assert(universe[u].hi() <= limit);
    }
    pfn::lemma_total_below(gaps, limit);
}

/// The frames of RAM end below the end of the address space.
proof fn lemma_whole_frames_end(ranges: Seq<(u64, u64)>, n: int, k: int)
    requires
        0 <= n <= ranges.len(),
        forall|i: int| 0 <= i < ranges.len() ==> (#[trigger] ranges[i]).1 < u64::MAX,
        0 <= k < whole_frames_of(ranges, n).len(),
    ensures
        whole_frames_of(ranges, n)[k].hi() <= u64::MAX / PAGE_BYTES,
    decreases n,
{
    if n > 0 {
        assert(ranges[n - 1].1 < u64::MAX);
        let rest = whole_frames_of(ranges, n - 1);
        if k < rest.len() {
            lemma_whole_frames_end(ranges, n - 1, k);
        }
    }
}

/// The report accounts for every untested byte: the classes add up to the bytes
/// of the gaps, whatever the flag words were.
pub proof fn law_report_accounts_for_every_read(reads: Seq<FlagRead>)
    requires
        forall|i: int|
            0 <= i < reads.len() ==> ((#[trigger] reads[i]).words matches Some(words) ==> words.len()
                == reads[i].range.count),
        pfn::total(asked(reads)) * PAGE_BYTES <= u64::MAX,
    ensures
        report_of(reads).sum() == pfn::total(asked(reads)) * PAGE_BYTES,
    decreases reads.len(),
{
    if reads.len() > 0 {
        let rest = reads.drop_last();
        assert(asked(reads).drop_last() =~= asked(rest));
        assert forall|i: int| 0 <= i < rest.len() implies ((#[trigger] rest[i]).words matches Some(
            words,
        ) ==> words.len() == rest[i].range.count) by {
            assert(rest[i] == reads[i]);
        }
        law_report_accounts_for_every_read(rest);
        let read = reads.last();
        assert(reads[reads.len() - 1] == read);
        match read.words {
            Some(words) => {
                lemma_count_words_sum(report_of(rest), words, words.len() as int);
            },
            None => {},
        }
    }
}

/// Each word counted adds a frame to the sum.
proof fn lemma_count_words_sum(report: GapReport, words: Seq<u64>, n: int)
    requires
        0 <= n <= words.len(),
        report.sum() + n * PAGE_BYTES <= u64::MAX,
    ensures
        count_words(report, words, n).sum() == report.sum() + n * PAGE_BYTES,
    decreases n,
{
    if n > 0 {
        lemma_count_words_sum(report, words, n - 1);
    }
}

/// The class of a frame, by the numbers of the bits that the kernel sets for it. It is out
/// of reach if it is slab (7), poisoned (19), no page at all (20), offline (23) or a page
/// table (26); free if it is not and is with the buddy allocator (10); in use if it is
/// none of these and is anonymous (12) or backed by swap (14); reclaimable if it is none of
/// these either and is on a list of least recently used pages (5); and out of reach again
/// without any of them.
pub proof fn law_frame_classes(flags: KPageFlags)
    ensures
        ({
            let set = |b: int| crate::failure::bit(flags.raw, b);
            let lost = set(7) || set(19) || set(20) || set(23) || set(26);
            let class = class_of(flags);
            &&& class == FrameClass::Free <==> !lost && set(10)
            &&& class == FrameClass::InUse <==> !lost && !set(10) && (set(12) || set(14))
            &&& class == FrameClass::Reclaimable <==> !lost && !set(10) && !set(12) && !set(14)
                && set(5)
            &&& class == FrameClass::Unreachable <==> lost || !set(10) && !set(12) && !set(14)
                && !set(5)
        }),
{
    let raw = flags.raw;
    assert((raw & (0x10_0000u64 | 0x80_0000u64 | 0x8_0000u64 | 0x80u64 | 0x400_0000u64) != 0 <==> ((
    raw >> 7u64) & 1 == 1 || (raw >> 19u64) & 1 == 1 || (raw >> 20u64) & 1 == 1 || (raw >> 23u64)
        & 1 == 1 || (raw >> 26u64) & 1 == 1)) && (raw & 0x400u64 == 0x400u64 <==> (raw >> 10u64) & 1
        == 1) && (raw & (0x1000u64 | 0x4000u64) != 0 <==> ((raw >> 12u64) & 1 == 1 || (raw >> 14u64)
        & 1 == 1)) && (raw & 0x20u64 == 0x20u64 <==> (raw >> 5u64) & 1 == 1)) by (bit_vector);
}

/// All flag words that came back, in order.
pub open spec fn words_read(reads: Seq<FlagRead>) -> Seq<u64>
    decreases reads.len(),
{
    if reads.len() == 0 {
        Seq::empty()
    } else {
        words_read(reads.drop_last()) + match reads.last().words {
            Some(words) => words,
            None => Seq::empty(),
        }
    }
}

/// How many frames no flag words came back for.
pub open spec fn frames_unread(reads: Seq<FlagRead>) -> int
    decreases reads.len(),
{
    if reads.len() == 0 {
        0
    } else {
        frames_unread(reads.drop_last()) + match reads.last().words {
            Some(_) => 0,
            None => reads.last().range.count as int,
        }
    }
}

/// How many of the flag words are of a frame of the class.
pub open spec fn of_class(words: Seq<u64>, class: FrameClass) -> int {
    words.filter(|w: u64| class_of(KPageFlags { raw: w }) == class).len() as int
}

/// A report counts frames: of each class, 4096 bytes for each flag word of such a frame
/// that came back, and as unknown 4096 bytes for each frame that none came back for.
pub proof fn law_report_counts_frames(reads: Seq<FlagRead>)
    requires
        whole(reads),
        pfn::total(asked(reads)) * PAGE_BYTES <= u64::MAX,
    ensures
        report_of(reads).free_bytes == 4096 * of_class(words_read(reads), FrameClass::Free),
        report_of(reads).reclaimable_bytes == 4096 * of_class(
            words_read(reads),
            FrameClass::Reclaimable,
        ),
        report_of(reads).in_use_bytes == 4096 * of_class(words_read(reads), FrameClass::InUse),
        report_of(reads).unreachable_bytes == 4096 * of_class(
            words_read(reads),
            FrameClass::Unreachable,
        ),
        report_of(reads).unknown_bytes == 4096 * frames_unread(reads),
    decreases reads.len(),
{
    reveal(Seq::filter);
    if reads.len() > 0 {
        let rest = reads.drop_last();
        assert(asked(reads).drop_last() =~= asked(rest));
        assert forall|i: int| 0 <= i < rest.len() implies ((#[trigger] rest[i]).words matches Some(
            words,
        ) ==> words.len() == rest[i].range.count) by {
            assert(rest[i] == reads[i]);
        }
        law_report_accounts_for_every_read(reads);
        law_report_accounts_for_every_read(rest);
        law_report_counts_frames(rest);
        let read = reads.last();
        assert(reads[reads.len() - 1] == read);
        match read.words {
            Some(words) => {
                lemma_words_counted(
                    report_of(rest),
                    words_read(rest),
                    words,
                    words.len() as int,
                );
                assert(words.take(words.len() as int) =~= words);
            },
            None => {
                assert(words_read(reads) =~= words_read(rest));
            },
        }
    }
}

/// Words counted one after the other add to the class that each belongs to.
proof fn lemma_words_counted(report: GapReport, before: Seq<u64>, words: Seq<u64>, n: int)
    requires
        0 <= n <= words.len(),
        report.sum() + n * PAGE_BYTES <= u64::MAX,
        report.free_bytes == 4096 * of_class(before, FrameClass::Free),
        report.reclaimable_bytes == 4096 * of_class(before, FrameClass::Reclaimable),
        report.in_use_bytes == 4096 * of_class(before, FrameClass::InUse),
        report.unreachable_bytes == 4096 * of_class(before, FrameClass::Unreachable),
    ensures
        ({
            let after = count_words(report, words, n);
            let all = before + words.take(n);
            &&& after.free_bytes == 4096 * of_class(all, FrameClass::Free)
            &&& after.reclaimable_bytes == 4096 * of_class(all, FrameClass::Reclaimable)
            &&& after.in_use_bytes == 4096 * of_class(all, FrameClass::InUse)
            &&& after.unreachable_bytes == 4096 * of_class(all, FrameClass::Unreachable)
            &&& after.unknown_bytes == report.unknown_bytes
        }),
    decreases n,
{
    reveal(Seq::filter);
    if n > 0 {
        lemma_words_counted(report, before, words, n - 1);
        lemma_count_words_sum(report, words, n - 1);
        let all = before + words.take(n);
        assert(all.drop_last() =~= before + words.take(n - 1));
        assert(all.last() == words[n - 1]);
    } else {
        assert(before + words.take(0) =~= before);
    }
}

/// The batches of a gap lie in it, and are not too large to read at once.
proof fn lemma_batches(gap: PfnRange, n: int, p: int)
    requires
        0 <= n <= gap.count,
        gap.bounded(),
    ensures
        pfn::covers(batches(gap, n), p) <==> gap.lo() <= p < gap.lo() + n,
        forall|i: int|
            0 <= i < batches(gap, n).len() ==> 0 < (#[trigger] batches(gap, n)[i]).count <= 65536,
    decreases n,
{
    if n > 0 {
        let from = ((n - 1) / (READ_BATCH_FRAMES as int)) * READ_BATCH_FRAMES;
        assert(0 <= from < n && n - from <= 65536);
        lemma_batches(gap, from, p);
        let rest = batches(gap, from);
        let all = batches(gap, n);
        let last = all[all.len() - 1];
        assert(all.drop_last() =~= rest);
        if pfn::covers(rest, p) {
            let i = choose|i: int| 0 <= i < rest.len() && #[trigger] rest[i].holds(p);
            assert(all[i].holds(p));
        }
        if pfn::covers(all, p) {
            let i = choose|i: int| 0 <= i < all.len() && #[trigger] all[i].holds(p);
            if i < rest.len() {
                assert(rest[i].holds(p));
            }
        }
        if gap.lo() + from <= p < gap.lo() + n {
            assert(last.holds(p));
        }
        assert forall|i: int| 0 <= i < all.len() implies 0 < (#[trigger] all[i]).count <= 65536 by {
            if i < rest.len() {
                assert(all[i] == rest[i]);
            }
        }
    }
}

/// What is read are the gaps: a frame is in one of the batches if and only if it is in one
/// of the gaps, and no batch is larger than 65536 frames.
pub proof fn law_every_gap_is_read(gaps: Seq<PfnRange>, n: int, p: int)
    requires
        0 <= n <= gaps.len(),
        pfn::all_bounded(gaps),
    ensures
        pfn::covers(all_batches(gaps, n), p) <==> pfn::covers(gaps.take(n), p),
        forall|i: int|
            0 <= i < all_batches(gaps, n).len() ==> 0 < (#[trigger] all_batches(gaps, n)[i]).count
                <= 65536,
    decreases n,
{
    if n > 0 {
        law_every_gap_is_read(gaps, n - 1, p);
        let gap = gaps[n - 1];
        assert(gap.bounded());
        lemma_batches(gap, gap.count as int, p);
        let rest = all_batches(gaps, n - 1);
        let tail = batches(gap, gap.count as int);
        let all = all_batches(gaps, n);
        let seen = gaps.take(n);
        let seen0 = gaps.take(n - 1);
        if pfn::covers(all, p) {
            let i = choose|i: int| 0 <= i < all.len() && #[trigger] all[i].holds(p);
            if i < rest.len() {
                assert(rest[i].holds(p));
                let j = choose|j: int| 0 <= j < seen0.len() && #[trigger] seen0[j].holds(p);
                assert(seen[j].holds(p));
            } else {
                assert(tail[i - rest.len()].holds(p));
                assert(seen[n - 1].holds(p));
            }
        }
        if pfn::covers(seen, p) {
            let j = choose|j: int| 0 <= j < seen.len() && #[trigger] seen[j].holds(p);
            if j < n - 1 {
                assert(seen0[j].holds(p));
                let i = choose|i: int| 0 <= i < rest.len() && #[trigger] rest[i].holds(p);
                assert(all[i].holds(p));
            } else {
                assert(gap.holds(p));
                let i = choose|i: int| 0 <= i < tail.len() && #[trigger] tail[i].holds(p);
                assert(all[rest.len() + i].holds(p));
            }
        }
        assert forall|i: int| 0 <= i < all.len() implies 0 < (#[trigger] all[i]).count <= 65536 by {
            if i < rest.len() {
                assert(all[i] == rest[i]);
            } else {
                assert(all[i] == tail[i - rest.len()]);
            }
        }
    }
}

/// The frames of several ranges of bytes are the whole frames of each.
pub proof fn law_every_range_gives_its_frames(ranges: Seq<(u64, u64)>, n: int, p: int)
    requires
        0 <= n <= ranges.len(),
    ensures
        pfn::covers(whole_frames_of(ranges, n), p) <==> exists|i: int|
            0 <= i < n && (whole_frames((#[trigger] ranges[i]).0, ranges[i].1) matches Some(
                range,
            ) && range.holds(p)),
    decreases n,
{
    let all = whole_frames_of(ranges, n);
    if n > 0 {
        law_every_range_gives_its_frames(ranges, n - 1, p);
        let before = whole_frames_of(ranges, n - 1);
        if pfn::covers(all, p) {
            let k = choose|k: int| 0 <= k < all.len() && (#[trigger] all[k]).holds(p);
            if k < before.len() {
                assert(before[k] == all[k]);
                assert(pfn::covers(before, p));
            } else {
                assert(whole_frames(ranges[n - 1].0, ranges[n - 1].1) == Some(all[k]));
            }
        }
        if exists|i: int|
            0 <= i < n && (whole_frames((#[trigger] ranges[i]).0, ranges[i].1) matches Some(range)
                && range.holds(p)) {
            let i = choose|i: int|
                0 <= i < n && (whole_frames((#[trigger] ranges[i]).0, ranges[i].1) matches Some(
                    range,
                ) && range.holds(p));
            if i < n - 1 {
                assert(pfn::covers(before, p));
                let k = choose|k: int| 0 <= k < before.len() && (#[trigger] before[k]).holds(p);
                assert(all[k] == before[k]);
            } else {
                assert(all.last() == whole_frames(ranges[i].0, ranges[i].1)->0);
                assert(all[all.len() - 1].holds(p));
            }
        }
    }
}

} // verus!
