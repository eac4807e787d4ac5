//! Page frame numbers and the range algebra over them.
//!
//! A [`Pfn`] is a page-granular frame index, the unit every PFN-indexed kernel
//! interface speaks. It is a separate type from
//! [`PhysAddr`](crate::physmem::phys::PhysAddr), a byte-granular physical
//! address: the two mix only through [`Pfn::to_addr`] and [`Pfn::from_addr`].
//! Zero is a valid frame.
//!
//! The functions over [`PfnRange`] lists are set operations. A list stands for
//! the set of frames that [`covers`] says it covers; every contract below says
//! what happens to that set, and what shape the resulting list has.

use vstd::prelude::*;
use vstd::set_lib::set_int_range;

use crate::physmem::phys::PhysAddr;
use crate::physmem::PAGE_BYTES;

verus! {

/// A page frame number: the page-granular index used by `/proc/self/pagemap`
/// and `/proc/kpageflags`. Zero is a valid frame.
#[derive(Debug, Clone, Copy, PartialEq, Eq, PartialOrd, Ord, Hash, Structural)]
pub struct Pfn(pub u64);

impl Pfn {
    /// Wrap a raw frame number.
    pub fn new(raw: u64) -> (pfn: Self)
        ensures
            pfn.0 == raw,
    {
        Pfn(raw)
    }

    /// The raw frame number.
    pub fn get(self) -> (raw: u64)
        ensures
            raw == self.0,
    {
        self.0
    }

    /// The byte-granular physical address of this frame's first byte.
    pub fn to_addr(self) -> (addr: PhysAddr)
        requires
            self.0 * PAGE_BYTES <= u64::MAX,
        ensures
            addr.0 == self.0 * PAGE_BYTES,
    {
        PhysAddr(self.0 * PAGE_BYTES)
    }

    /// The frame containing a byte-granular physical address.
    pub fn from_addr(addr: PhysAddr) -> (pfn: Self)
        ensures
            pfn.0 == addr.0 / PAGE_BYTES,
            pfn.0 * PAGE_BYTES <= addr.0 < (pfn.0 + 1) * PAGE_BYTES,
    {
        Pfn(addr.0 / PAGE_BYTES)
    }

    /// Byte offset of this frame's entry in `/proc/kpageflags`, which holds
    /// eight bytes per frame.
    pub fn kpageflags_offset(self) -> (offset: u64)
        requires
            self.0 * 8 <= u64::MAX,
        ensures
            offset == self.0 * 8,
    {
        self.0 * 8
    }
}

impl core::ops::Add<u64> for Pfn {
    type Output = Pfn;

    fn add(self, frames: u64) -> (sum: Pfn) {
        Pfn(self.0 + frames)
    }
}

impl vstd::std_specs::ops::AddSpecImpl<u64> for Pfn {
    open spec fn obeys_add_spec() -> bool {
        true
    }

    open spec fn add_req(self, rhs: u64) -> bool {
        self.0 + rhs <= u64::MAX
    }

    open spec fn add_spec(self, rhs: u64) -> Pfn {
        Pfn((self.0 + rhs) as u64)
    }
}

impl core::ops::Sub<Pfn> for Pfn {
    type Output = u64;

    /// Frame distance between two frames.
    fn sub(self, other: Pfn) -> (distance: u64) {
        self.0 - other.0
    }
}

impl vstd::std_specs::ops::SubSpecImpl<Pfn> for Pfn {
    open spec fn obeys_sub_spec() -> bool {
        true
    }

    open spec fn sub_req(self, rhs: Pfn) -> bool {
        self.0 >= rhs.0
    }

    open spec fn sub_spec(self, rhs: Pfn) -> u64 {
        (self.0 - rhs.0) as u64
    }
}

/// A contiguous run of physical page frames: `[start, start + count)`.
#[derive(Debug, Clone, Copy, PartialEq, Eq, Structural)]
pub struct PfnRange {
    /// First frame of the run.
    pub start: Pfn,
    /// Number of frames in the run.
    pub count: u64,
}

impl PfnRange {
    /// First frame.
    pub open spec fn lo(self) -> int {
        self.start.0 as int
    }

    /// One past the last frame.
    pub open spec fn hi(self) -> int {
        self.start.0 + self.count
    }

    /// Whether frame `p` lies in the run.
    pub open spec fn holds(self, p: int) -> bool {
        self.lo() <= p < self.hi()
    }

    /// Whether the exclusive end is itself a frame number.
    pub open spec fn bounded(self) -> bool {
        self.hi() <= u64::MAX
    }

    /// The exclusive end frame (`start + count`).
    pub fn end(self) -> (end: Pfn)
        requires
            self.bounded(),
        ensures
            end.0 == self.hi(),
    {
        Pfn(self.start.0 + self.count)
    }
}

/// Whether frame `p` lies in one of `ranges`.
pub open spec fn covers(ranges: Seq<PfnRange>, p: int) -> bool {
    exists|i: int| 0 <= i < ranges.len() && #[trigger] ranges[i].holds(p)
}

/// The set of frames that `ranges` covers.
pub open spec fn frames(ranges: Seq<PfnRange>) -> Set<int> {
    Set::new(|p: int| covers(ranges, p))
}

/// Every range ends at a frame number.
pub open spec fn all_bounded(ranges: Seq<PfnRange>) -> bool {
    forall|i: int| 0 <= i < ranges.len() ==> (#[trigger] ranges[i]).bounded()
}

/// No range is empty.
pub open spec fn all_nonempty(ranges: Seq<PfnRange>) -> bool {
    forall|i: int| 0 <= i < ranges.len() ==> (#[trigger] ranges[i]).count > 0
}

/// Sorted by frame, and no two ranges overlap.
pub open spec fn ordered(ranges: Seq<PfnRange>) -> bool {
    forall|i: int, j: int|
        0 <= i < j < ranges.len() ==> (#[trigger] ranges[i]).hi() <= (#[trigger] ranges[j]).lo()
}

/// Sorted by frame, with at least one frame missing between two ranges.
pub open spec fn apart(ranges: Seq<PfnRange>) -> bool {
    forall|i: int, j: int|
        0 <= i < j < ranges.len() ==> (#[trigger] ranges[i]).hi() < (#[trigger] ranges[j]).lo()
}

/// No frame is covered by two ranges of the list.
pub open spec fn disjoint(ranges: Seq<PfnRange>) -> bool {
    forall|i: int, j: int, p: int|
        0 <= i < j < ranges.len() && #[trigger] ranges[i].holds(p) ==> !#[trigger] ranges[j].holds(
            p,
        )
}

/// The one way to write a set of frames: sorted, merged, nothing empty.
pub open spec fn canonical(ranges: Seq<PfnRange>) -> bool {
    apart(ranges) && all_nonempty(ranges)
}

/// Whether the ranges are sorted and none runs past the last frame or into the
/// next range.
pub fn is_ordered(ranges: &[PfnRange]) -> (b: bool)
    ensures
        b == (ordered(ranges@) && all_bounded(ranges@)),
{
    let mut i: usize = 0;
    while i < ranges.len()
        invariant
            i <= ranges@.len(),
            forall|k: int| 0 <= k < i ==> (#[trigger] ranges@[k]).bounded(),
            forall|k: int, l: int|
                0 <= k < l < i ==> (#[trigger] ranges@[k]).hi() <= (#[trigger] ranges@[l]).lo(),
        decreases ranges@.len() - i,
    {
        let range = ranges[i];
        if range.start.0.checked_add(range.count).is_none() {
            assert(!ranges@[i as int].bounded());
            return false;
        }
        if i > 0 && ranges[i - 1].end().0 > range.start.0 {
            assert(ranges@[i - 1].hi() > ranges@[i as int].lo());
            return false;
        }
        assert forall|k: int| 0 <= k < i implies (#[trigger] ranges@[k]).hi()
            <= ranges@[i as int].lo() by {
            if k < i - 1 {
                assert(ranges@[k].hi() <= ranges@[i - 1].lo());
            }
        }
        i = i + 1;
    }
    true
}

/// Sum of the range lengths.
pub open spec fn total(ranges: Seq<PfnRange>) -> int
    decreases ranges.len(),
{
    if ranges.len() == 0 {
        0
    } else {
        total(ranges.drop_last()) + ranges.last().count
    }
}

/// A list with one more range covers what it covered and that range.
proof fn lemma_covers_push(ranges: Seq<PfnRange>, r: PfnRange)
    ensures
        forall|p: int| #[trigger]
            covers(ranges.push(r), p) <==> covers(ranges, p) || r.holds(p),
{
    let longer = ranges.push(r);
    assert forall|p: int| #[trigger] covers(longer, p) <==> covers(ranges, p) || r.holds(p) by {
        if covers(longer, p) {
            let i = choose|i: int| 0 <= i < longer.len() && #[trigger] longer[i].holds(p);
            if i < ranges.len() {
                assert(ranges[i].holds(p));
            }
        }
        if covers(ranges, p) {
            let i = choose|i: int| 0 <= i < ranges.len() && #[trigger] ranges[i].holds(p);
            assert(longer[i].holds(p));
        }
        if r.holds(p) {
            assert(longer[ranges.len() as int].holds(p));
        }
    }
}

/// Growing the last range of a list to `r` adds exactly what `r` adds.
proof fn lemma_covers_grow_last(ranges: Seq<PfnRange>, r: PfnRange)
    requires
        ranges.len() > 0,
        forall|p: int| ranges.last().holds(p) ==> #[trigger] r.holds(p),
    ensures
        forall|p: int| #[trigger]
            covers(ranges.update(ranges.len() - 1, r), p) <==> covers(ranges, p) || r.holds(p),
{
    let grown = ranges.update(ranges.len() - 1, r);
    assert forall|p: int| #[trigger] covers(grown, p) <==> covers(ranges, p) || r.holds(p) by {
        if covers(grown, p) {
            let i = choose|i: int| 0 <= i < grown.len() && #[trigger] grown[i].holds(p);
            if i < ranges.len() - 1 {
                assert(ranges[i].holds(p));
            }
        }
        if covers(ranges, p) {
            let i = choose|i: int| 0 <= i < ranges.len() && #[trigger] ranges[i].holds(p);
            assert(grown[i].holds(p));
        }
        if r.holds(p) {
            assert(grown[ranges.len() - 1].holds(p));
        }
    }
}

/// For a list whose ranges do not overlap, the lengths add up to the number of
/// frames covered.
pub proof fn lemma_total_counts_frames(ranges: Seq<PfnRange>)
    requires
        disjoint(ranges),
    ensures
        frames(ranges).finite(),
        frames(ranges).len() == total(ranges),
    decreases ranges.len(),
{
    if ranges.len() == 0 {
        assert(frames(ranges) =~= Set::empty());
    } else {
        let rest = ranges.drop_last();
        let last = ranges.last();
        assert(disjoint(rest)) by {
            assert forall|i: int, j: int, p: int|
                0 <= i < j < rest.len() && #[trigger] rest[i].holds(
                    p,
                ) implies !#[trigger] rest[j].holds(p) by {
                assert(ranges[i].holds(p));
                assert(ranges[j].holds(p) == rest[j].holds(p));
            }
        }
        lemma_total_counts_frames(rest);
        let tail = set_int_range(last.lo(), last.hi());
        vstd::set_lib::lemma_int_range(last.lo(), last.hi());
        assert(frames(rest).disjoint(tail)) by {
            assert forall|p: int| !(frames(rest).contains(p) && tail.contains(p)) by {
                if frames(rest).contains(p) && tail.contains(p) {
                    let i = choose|i: int| 0 <= i < rest.len() && #[trigger] rest[i].holds(p);
                    assert(ranges[i].holds(p));
                    assert(ranges[ranges.len() - 1].holds(p));
                }
            }
        }
        lemma_covers_push(rest, last);
        assert(rest.push(last) =~= ranges);
        assert(frames(ranges) =~= frames(rest).union(tail)) by {
            assert forall|p: int|
                frames(ranges).contains(p) <==> frames(rest).union(tail).contains(p) by {
                assert(covers(rest.push(last), p) <==> covers(rest, p) || last.holds(p));
            }
        }
        vstd::set_lib::lemma_set_disjoint_lens(frames(rest), tail);
    }
}

/// A sorted list without overlap has no frame twice.
pub proof fn lemma_ordered_is_disjoint(ranges: Seq<PfnRange>)
    requires
        ordered(ranges),
    ensures
        disjoint(ranges),
{
    assert forall|i: int, j: int, p: int|
        0 <= i < j < ranges.len() && #[trigger] ranges[i].holds(
            p,
        ) implies !#[trigger] ranges[j].holds(p) by {
        assert(ranges[i].hi() <= ranges[j].lo());
    }
}

/// Two canonical lists that cover the same frames are the same list.
pub proof fn lemma_canonical_unique(a: Seq<PfnRange>, b: Seq<PfnRange>)
    requires
        canonical(a),
        canonical(b),
        forall|p: int| #[trigger] covers(a, p) <==> covers(b, p),
    ensures
        a == b,
    decreases a.len(),
{
    if a.len() == 0 {
        if b.len() > 0 {
            assert(b[0].holds(b[0].lo()));
            assert(covers(b, b[0].lo()));
            assert(covers(a, b[0].lo()));
        }
        assert(a =~= b);
    } else {
        assert(a[0].holds(a[0].lo()));
        assert(covers(a, a[0].lo()));
        assert(b.len() > 0);
        let x = a.last();
        let y = b.last();
        let a1 = a.drop_last();
        let b1 = b.drop_last();
        // Both lists end at the same frame.
        assert(a[a.len() - 1].holds(x.hi() - 1));
        assert(covers(a, x.hi() - 1));
        assert(covers(b, x.hi() - 1));
        let i = choose|i: int| 0 <= i < b.len() && #[trigger] b[i].holds(x.hi() - 1);
        assert(i < b.len() - 1 ==> b[i].hi() < b[b.len() - 1].lo());
        assert(x.hi() <= y.hi());
        assert(b[b.len() - 1].holds(y.hi() - 1));
        assert(covers(b, y.hi() - 1));
        assert(covers(a, y.hi() - 1));
        let j = choose|j: int| 0 <= j < a.len() && #[trigger] a[j].holds(y.hi() - 1);
        assert(j < a.len() - 1 ==> a[j].hi() < a[a.len() - 1].lo());
        assert(x.hi() == y.hi());
        // And the last runs start at the same frame: the frame before either
        // start is not covered.
        lemma_gap_before_last(a);
        lemma_gap_before_last(b);
        if x.lo() < y.lo() {
            assert(a[a.len() - 1].holds(y.lo() - 1));
            assert(covers(a, y.lo() - 1));
            assert(false);
        }
        if y.lo() < x.lo() {
            assert(b[b.len() - 1].holds(x.lo() - 1));
            assert(covers(b, x.lo() - 1));
            assert(false);
        }
        assert(x == y);
        assert(canonical(a1)) by {
            assert forall|i: int, j: int| 0 <= i < j < a1.len() implies (
            #[trigger] a1[i]).hi() < (#[trigger] a1[j]).lo() by {
                assert(a[i].hi() < a[j].lo());
            }
            assert forall|i: int| 0 <= i < a1.len() implies (#[trigger] a1[i]).count > 0 by {
                assert(a[i].count > 0);
            }
        }
        assert(canonical(b1)) by {
            assert forall|i: int, j: int| 0 <= i < j < b1.len() implies (
            #[trigger] b1[i]).hi() < (#[trigger] b1[j]).lo() by {
                assert(b[i].hi() < b[j].lo());
            }
            assert forall|i: int| 0 <= i < b1.len() implies (#[trigger] b1[i]).count > 0 by {
                assert(b[i].count > 0);
            }
        }
        lemma_covers_push(a1, x);
        lemma_covers_push(b1, y);
        assert(a1.push(x) =~= a);
        assert(b1.push(y) =~= b);
        assert forall|p: int| #[trigger] covers(a1, p) <==> covers(b1, p) by {
            assert(covers(a1.push(x), p) <==> covers(a1, p) || x.holds(p));
            assert(covers(b1.push(y), p) <==> covers(b1, p) || y.holds(p));
            lemma_last_is_new(a);
            lemma_last_is_new(b);
        }
        lemma_canonical_unique(a1, b1);
        assert(a =~= b);
    }
}

/// In a list with gaps between its ranges, the frame just before the last
/// range is not covered.
proof fn lemma_gap_before_last(ranges: Seq<PfnRange>)
    requires
        apart(ranges),
        ranges.len() > 0,
    ensures
        !covers(ranges, ranges.last().lo() - 1),
{
    let p = ranges.last().lo() - 1;
    if covers(ranges, p) {
        let i = choose|i: int| 0 <= i < ranges.len() && #[trigger] ranges[i].holds(p);
        if i < ranges.len() - 1 {
            assert(ranges[i].hi() < ranges[ranges.len() - 1].lo());
        }
    }
}

/// In a sorted list no earlier range holds a frame of the last one.
proof fn lemma_last_is_new(ranges: Seq<PfnRange>)
    requires
        apart(ranges),
        ranges.len() > 0,
    ensures
        forall|p: int|
            ranges.last().holds(p) ==> !#[trigger] covers(ranges.drop_last(), p),
{
    assert forall|p: int| ranges.last().holds(p) implies !#[trigger] covers(
        ranges.drop_last(),
        p,
    ) by {
        let rest = ranges.drop_last();
        if covers(rest, p) {
            let i = choose|i: int| 0 <= i < rest.len() && #[trigger] rest[i].holds(p);
            assert(ranges[i].hi() < ranges[ranges.len() - 1].lo());
        }
    }
}

/// Sort pairs with `<[T]>::sort_unstable` of std: afterwards the same pairs
/// stand in ascending order of their first component, then of their second,
/// which is how std orders tuples.
#[verifier::external_body]
fn sort_pairs(pairs: &mut Vec<(u64, u64)>)
    ensures
        final(pairs)@.to_multiset() == old(pairs)@.to_multiset(),
        forall|i: int, j: int|
            0 <= i < j < final(pairs)@.len() ==> (#[trigger] final(pairs)@[i]).0 < (
            #[trigger] final(pairs)@[j]).0 || (final(pairs)@[i].0 == final(pairs)@[j].0
                && final(pairs)@[i].1 <= final(pairs)@[j].1),
{
    pairs.sort_unstable()
}

/// The range that a `(start, count)` pair stands for.
spec fn range_of(pair: (u64, u64)) -> PfnRange {
    PfnRange { start: Pfn(pair.0), count: pair.1 }
}

/// Whether one of the pairs, read as ranges, holds frame `p`.
spec fn pair_covers(pairs: Seq<(u64, u64)>, p: int) -> bool {
    exists|i: int| 0 <= i < pairs.len() && range_of(#[trigger] pairs[i]).holds(p)
}

/// Merge `(start, count)` pairs into sorted ranges that neither overlap nor
/// touch.
///
/// The pairs either leave frame zero out or all end at a frame number: then
/// the length of every merged run is a `u64`.
fn coalesce(pairs: Vec<(u64, u64)>) -> (merged: Vec<PfnRange>)
    requires
        ({
            ||| forall|i: int|
                0 <= i < pairs@.len() ==> 1 <= (#[trigger] pairs@[i]).0 && range_of(pairs@[i]).hi()
                    <= u64::MAX + 1
            ||| forall|i: int| 0 <= i < pairs@.len() ==> range_of(#[trigger] pairs@[i]).bounded()
        }),
    ensures
        apart(merged@),
        forall|p: int| #[trigger] covers(merged@, p) <==> pair_covers(pairs@, p),
        (forall|i: int| 0 <= i < pairs@.len() ==> (#[trigger] pairs@[i]).1 > 0) ==> all_nonempty(
            merged@,
        ),
        (forall|i: int| 0 <= i < pairs@.len() ==> range_of(#[trigger] pairs@[i]).bounded())
            ==> all_bounded(merged@),
{
    let ghost given = pairs@;
    let ghost positive = forall|i: int| 0 <= i < given.len() ==> (#[trigger] given[i]).1 > 0;
    let ghost in_bounds = forall|i: int|
        0 <= i < given.len() ==> range_of(#[trigger] given[i]).bounded();
    let ghost no_zero = forall|i: int|
        0 <= i < given.len() ==> 1 <= (#[trigger] given[i]).0 && range_of(given[i]).hi()
            <= u64::MAX + 1;
    let mut all = pairs;
    sort_pairs(&mut all);
    let ghost sorted = all@;
    proof {
        broadcast use vstd::seq_lib::group_to_multiset_ensures;

        assert forall|i: int| 0 <= i < sorted.len() implies given.contains(#[trigger] sorted[i]) by {
            assert(sorted.contains(sorted[i]));
            assert(sorted.to_multiset().count(sorted[i]) > 0);
        }
        assert forall|i: int| 0 <= i < given.len() implies sorted.contains(#[trigger] given[i]) by {
            assert(given.contains(given[i]));
            assert(given.to_multiset().count(given[i]) > 0);
        }
    }
    let mut merged: Vec<PfnRange> = Vec::with_capacity(all.len());
    let mut i: usize = 0;
    while i < all.len()
        invariant
            i <= all.len(),
            all@ == sorted,
            forall|k: int| 0 <= k < sorted.len() ==> given.contains(#[trigger] sorted[k]),
            forall|k: int, l: int|
                0 <= k < l < sorted.len() ==> (#[trigger] sorted[k]).0 <= (#[trigger] sorted[l]).0,
            positive == (forall|i: int| 0 <= i < given.len() ==> (#[trigger] given[i]).1 > 0),
            in_bounds == (forall|i: int|
                0 <= i < given.len() ==> range_of(#[trigger] given[i]).bounded()),
            no_zero == (forall|i: int|
                0 <= i < given.len() ==> 1 <= (#[trigger] given[i]).0 && range_of(given[i]).hi()
                    <= u64::MAX + 1),
            no_zero || in_bounds,
            apart(merged@),
            positive ==> all_nonempty(merged@),
            forall|k: int|
                0 <= k < merged@.len() ==> (in_bounds ==> (#[trigger] merged@[k]).bounded())
                    && (no_zero ==> 1 <= merged@[k].lo() && merged@[k].hi() <= u64::MAX + 1),
            i == 0 <==> merged@.len() == 0,
            i > 0 ==> merged@.last().lo() <= sorted[i - 1].0,
            forall|p: int| #[trigger]
                covers(merged@, p) <==> pair_covers(sorted.take(i as int), p),
        decreases all.len() - i,
    {
        let start: u64 = all[i].0;
        let count: u64 = all[i].1;
        let ghost before = merged@;
        let ghost r = range_of(sorted[i as int]);
        assert(r == PfnRange { start: Pfn(start), count });
        assert(given.contains(sorted[i as int]));
        proof {
            lemma_pair_covers_step(sorted, i as int);
        }
        let n = merged.len();
        if n > 0 && start - merged[n - 1].start.0 <= merged[n - 1].count {
            let last = merged[n - 1];
            let offset: u64 = start - last.start.0;
            let ghost grown_hi = if last.hi() < r.hi() { r.hi() } else { last.hi() };
            assert(grown_hi - last.lo() <= u64::MAX);
            if last.count - offset < count {
                let grown = PfnRange { start: last.start, count: offset + count };
                merged.set(n - 1, grown);
                proof {
                    lemma_covers_grow_last(before, grown);
                    assert(merged@ == before.update(before.len() - 1, grown));
                    assert forall|p: int| #[trigger]
                        covers(merged@, p) <==> pair_covers(sorted.take(i + 1), p) by {
                        assert(covers(before, p) || grown.holds(p) <==> covers(before, p)
                            || r.holds(p)) by {
                            if last.holds(p) {
                                assert(before[before.len() - 1].holds(p));
                            }
                        }
                    }
                }
            } else {
                proof {
                    assert forall|p: int| #[trigger]
                        covers(merged@, p) <==> pair_covers(sorted.take(i + 1), p) by {
                        if r.holds(p) {
                            assert(before[before.len() - 1].holds(p));
                        }
                    }
                }
            }
        } else {
            let fresh = PfnRange { start: Pfn(start), count };
            merged.push(fresh);
            proof {
                lemma_covers_push(before, fresh);
            }
        }
        i = i + 1;
    }
    proof {
        assert(sorted.take(sorted.len() as int) =~= sorted);
        assert forall|p: int| #[trigger] covers(merged@, p) <==> pair_covers(given, p) by {
            if pair_covers(sorted, p) {
                let k = choose|k: int|
                    0 <= k < sorted.len() && range_of(#[trigger] sorted[k]).holds(p);
                let l = choose|l: int| 0 <= l < given.len() && given[l] == sorted[k];
                assert(range_of(given[l]).holds(p));
            }
            if pair_covers(given, p) {
                let k = choose|k: int|
                    0 <= k < given.len() && range_of(#[trigger] given[k]).holds(p);
                assert(sorted.contains(given[k]));
                let l = choose|l: int| 0 <= l < sorted.len() && sorted[l] == given[k];
                assert(range_of(sorted[l]).holds(p));
            }
        }
    }
    merged
}

/// One more pair covers what the earlier ones did and its own frames.
proof fn lemma_pair_covers_step(pairs: Seq<(u64, u64)>, i: int)
    requires
        0 <= i < pairs.len(),
    ensures
        forall|p: int| #[trigger]
            pair_covers(pairs.take(i + 1), p) <==> pair_covers(pairs.take(i), p) || range_of(
                pairs[i],
            ).holds(p),
{
    let short = pairs.take(i);
    let long = pairs.take(i + 1);
    assert forall|p: int| #[trigger]
        pair_covers(long, p) <==> pair_covers(short, p) || range_of(pairs[i]).holds(p) by {
        if pair_covers(long, p) {
            let k = choose|k: int| 0 <= k < long.len() && range_of(#[trigger] long[k]).holds(p);
            if k < i {
                assert(range_of(short[k]).holds(p));
            }
        }
        if pair_covers(short, p) {
            let k = choose|k: int| 0 <= k < short.len() && range_of(#[trigger] short[k]).holds(p);
            assert(range_of(long[k]).holds(p));
        }
        if range_of(pairs[i]).holds(p) {
            assert(range_of(long[i]).holds(p));
        }
    }
}

/// Whether `p` is a resolved frame of a raw list: listed, and not the zero that
/// stands for unresolved.
pub open spec fn resolves(pfns: Seq<u64>, p: int) -> bool {
    p != 0 && exists|i: int| 0 <= i < pfns.len() && #[trigger] pfns[i] == p
}

/// Whether `ranges` is the canonical list of the resolved frames of `pfns`.
pub open spec fn is_compaction(ranges: Seq<PfnRange>, pfns: Seq<u64>) -> bool {
    &&& canonical(ranges)
    &&& forall|p: int| #[trigger] covers(ranges, p) <==> resolves(pfns, p)
}

/// Compact a raw frame list, as pagemap resolution produces it with zero for
/// unresolved, into sorted, disjoint, merged ranges.
pub fn compact_pfns(pfns: &[u64]) -> (ranges: Vec<PfnRange>)
    ensures
        is_compaction(ranges@, pfns@),
        (forall|i: int| 0 <= i < pfns@.len() ==> #[trigger] pfns@[i] < u64::MAX) ==> all_bounded(
            ranges@,
        ),
{
    let mut pairs: Vec<(u64, u64)> = Vec::new();
    let mut i: usize = 0;
    while i < pfns.len()
        invariant
            i <= pfns.len(),
            forall|k: int|
                0 <= k < pairs@.len() ==> (#[trigger] pairs@[k]).0 != 0 && pairs@[k].1 == 1
                    && exists|j: int| 0 <= j < i && #[trigger] pfns@[j] == pairs@[k].0,
            forall|j: int|
                0 <= j < i && #[trigger] pfns@[j] != 0 ==> pairs@.contains((pfns@[j], 1u64)),
        decreases pfns.len() - i,
    {
        let ghost before = pairs@;
        if pfns[i] != 0 {
            pairs.push((pfns[i], 1));
            assert(pairs@[pairs@.len() - 1] == (pfns@[i as int], 1u64));
        }
        assert forall|j: int| 0 <= j < i + 1 && #[trigger] pfns@[j] != 0 implies pairs@.contains(
            (pfns@[j], 1u64),
        ) by {
            if j < i {
                let k = choose|k: int| 0 <= k < before.len() && before[k] == (pfns@[j], 1u64);
                assert(pairs@[k] == (pfns@[j], 1u64));
            }
        }
        i = i + 1;
    }
    let ghost given = pairs@;
    let ranges = coalesce(pairs);
    proof {
        assert forall|p: int| #[trigger] covers(ranges@, p) <==> resolves(pfns@, p) by {
            if covers(ranges@, p) {
                let k = choose|k: int|
                    0 <= k < given.len() && range_of(#[trigger] given[k]).holds(p);
                assert(given[k].0 == p);
            }
            if resolves(pfns@, p) {
                let j = choose|j: int| 0 <= j < pfns@.len() && #[trigger] pfns@[j] == p;
                let k = choose|k: int| 0 <= k < given.len() && given[k] == (pfns@[j], 1u64);
                assert(range_of(given[k]).holds(p));
            }
        }
    }
    ranges
}

/// Total frames covered by a compacted range list.
pub fn total_frames(ranges: &[PfnRange]) -> (sum: u64)
    requires
        total(ranges@) <= u64::MAX,
    ensures
        sum == total(ranges@),
        disjoint(ranges@) ==> sum == frames(ranges@).len(),
{
    let mut sum: u64 = 0;
    let mut i: usize = 0;
    while i < ranges.len()
        invariant
            i <= ranges.len(),
            sum == total(ranges@.take(i as int)),
            total(ranges@) <= u64::MAX,
        decreases ranges.len() - i,
    {
        proof {
            assert(ranges@.take(i + 1).drop_last() =~= ranges@.take(i as int));
            lemma_total_prefix(ranges@, i + 1);
        }
        sum = sum + ranges[i].count;
        i = i + 1;
    }
    proof {
        assert(ranges@.take(ranges@.len() as int) =~= ranges@);
        if disjoint(ranges@) {
            lemma_total_counts_frames(ranges@);
        }
    }
    sum
}

/// A prefix of a list is no longer than the list.
pub proof fn lemma_total_prefix(ranges: Seq<PfnRange>, n: int)
    requires
        0 <= n <= ranges.len(),
    ensures
        0 <= total(ranges.take(n)) <= total(ranges),
    decreases ranges.len(),
{
    if n == ranges.len() {
        assert(ranges.take(n) =~= ranges);
        if n > 0 {
            lemma_total_prefix(ranges.drop_last(), n - 1);
            assert(ranges.drop_last().take(n - 1) =~= ranges.drop_last());
        }
    } else {
        lemma_total_prefix(ranges.drop_last(), n);
        assert(ranges.drop_last().take(n) =~= ranges.take(n));
    }
}

/// Whether `merged` is the union of `base` and `added`, written out sorted with
/// overlapping and touching runs merged.
pub open spec fn is_union(
    merged: Seq<PfnRange>,
    base: Seq<PfnRange>,
    added: Seq<PfnRange>,
) -> bool {
    &&& apart(merged)
    &&& all_bounded(merged)
    &&& all_nonempty(base) && all_nonempty(added) ==> all_nonempty(merged)
    &&& forall|p: int| #[trigger] covers(merged, p) <==> covers(base, p) || covers(added, p)
}

/// Unite `added` with `base`, whose ranges do not overlap. Returns the merged
/// ranges and how many frames of `added` were not already present.
pub fn merge_ranges(base: &[PfnRange], added: &[PfnRange]) -> (result: (Vec<PfnRange>, u64))
    requires
        all_bounded(base@),
        all_bounded(added@),
        disjoint(base@),
    ensures
        is_union(result.0@, base@, added@),
        result.1 == total(result.0@) - total(base@),
        frames(added@).difference(frames(base@)).finite(),
        result.1 == frames(added@).difference(frames(base@)).len(),
{
    let mut pairs: Vec<(u64, u64)> = Vec::new();
    let mut i: usize = 0;
    while i < base.len()
        invariant
            i <= base.len(),
            pairs@.len() == i,
            forall|k: int| 0 <= k < i ==> range_of(#[trigger] pairs@[k]) == base@[k],
        decreases base.len() - i,
    {
        pairs.push((base[i].start.0, base[i].count));
        i = i + 1;
    }
    let mut j: usize = 0;
    while j < added.len()
        invariant
            j <= added.len(),
            pairs@.len() == base@.len() + j,
            forall|k: int| 0 <= k < base@.len() ==> range_of(#[trigger] pairs@[k]) == base@[k],
            forall|k: int|
                base@.len() <= k < pairs@.len() ==> range_of(#[trigger] pairs@[k]) == added@[k
                    - base@.len()],
        decreases added.len() - j,
    {
        pairs.push((added[j].start.0, added[j].count));
        j = j + 1;
    }
    let ghost given = pairs@;
    proof {
        assert forall|k: int| 0 <= k < given.len() implies range_of(#[trigger] given[k]).bounded() by {
            if k < base@.len() {
                assert(base@[k].bounded());
            } else {
                assert(added@[k - base@.len()].bounded());
            }
        }
    }
    let merged = coalesce(pairs);
    proof {
        assert forall|p: int| #[trigger]
            covers(merged@, p) <==> covers(base@, p) || covers(added@, p) by {
            if covers(merged@, p) {
                let k = choose|k: int|
                    0 <= k < given.len() && range_of(#[trigger] given[k]).holds(p);
                if k < base@.len() {
                    assert(base@[k].holds(p));
                } else {
                    assert(added@[k - base@.len()].holds(p));
                }
            }
            if covers(base@, p) {
                let k = choose|k: int| 0 <= k < base@.len() && #[trigger] base@[k].holds(p);
                assert(range_of(given[k]).holds(p));
            }
            if covers(added@, p) {
                let k = choose|k: int| 0 <= k < added@.len() && #[trigger] added@[k].holds(p);
                assert(range_of(given[base@.len() + k]).holds(p));
            }
        }
        assert(all_nonempty(base@) && all_nonempty(added@) ==> all_nonempty(merged@)) by {
            if all_nonempty(base@) && all_nonempty(added@) {
                assert forall|k: int| 0 <= k < given.len() implies (#[trigger] given[k]).1 > 0 by {
                    if k < base@.len() {
                        assert(base@[k].count > 0);
                    } else {
                        assert(added@[k - base@.len()].count > 0);
                    }
                }
            }
        }
        lemma_ordered_is_disjoint(merged@);
        lemma_total_counts_frames(merged@);
        lemma_total_counts_frames(base@);
        lemma_total_bound(merged@);
        let extra = frames(added@).difference(frames(base@));
        assert(frames(merged@) =~= frames(base@).union(extra)) by {
            assert forall|p: int|
                frames(merged@).contains(p) <==> frames(base@).union(extra).contains(p) by {
                assert(covers(merged@, p) <==> covers(base@, p) || covers(added@, p));
            }
        }
        assert(extra =~= frames(merged@).difference(frames(base@)));
        assert(frames(base@).disjoint(extra));
        vstd::set_lib::lemma_set_disjoint_lens(frames(base@), extra);
    }
    let after: u64 = total_frames(&merged);
    let prior: u64 = total_frames(base);
    (merged, after - prior)
}

/// Sorted ranges that all end at a frame number have a countable total.
proof fn lemma_total_bound(ranges: Seq<PfnRange>)
    requires
        ordered(ranges),
        all_bounded(ranges),
    ensures
        0 <= total(ranges),
        ranges.len() > 0 ==> total(ranges) <= ranges.last().hi(),
        total(ranges) <= u64::MAX,
    decreases ranges.len(),
{
    if ranges.len() > 0 {
        let rest = ranges.drop_last();
        assert forall|i: int, j: int| 0 <= i < j < rest.len() implies (#[trigger] rest[i]).hi() <= (
        #[trigger] rest[j]).lo() by {
            assert(ranges[i].hi() <= ranges[j].lo());
        }
        assert forall|i: int| 0 <= i < rest.len() implies (#[trigger] rest[i]).bounded() by {
            assert(ranges[i].bounded());
        }
        lemma_total_bound(rest);
        assert(ranges[ranges.len() - 1].bounded());
        if rest.len() > 0 {
            assert(ranges[rest.len() - 1].hi() <= ranges[ranges.len() - 1].lo());
        }
    }
}

/// Sorted ranges that end below a limit have no more frames than that.
pub proof fn lemma_total_below(ranges: Seq<PfnRange>, limit: int)
    requires
        ordered(ranges),
        0 <= limit,
        forall|i: int| 0 <= i < ranges.len() ==> (#[trigger] ranges[i]).hi() <= limit,
    ensures
        0 <= total(ranges) <= limit,
        ranges.len() > 0 ==> total(ranges) <= ranges.last().hi(),
    decreases ranges.len(),
{
    if ranges.len() > 0 {
        let rest = ranges.drop_last();
        assert forall|i: int, j: int| 0 <= i < j < rest.len() implies (#[trigger] rest[i]).hi() <= (
        #[trigger] rest[j]).lo() by {
            assert(ranges[i].hi() <= ranges[j].lo());
        }
        assert forall|i: int| 0 <= i < rest.len() implies (#[trigger] rest[i]).hi() <= limit by {
            assert(ranges[i].hi() <= limit);
        }
        lemma_total_below(rest, limit);
        assert(ranges[ranges.len() - 1].hi() <= limit);
        if rest.len() > 0 {
            assert(ranges[rest.len() - 1].hi() <= ranges[ranges.len() - 1].lo());
        }
    }
}

/// The same frames, sorted and merged, with nothing empty. `None` if a range runs
/// past the last frame.
pub fn tidied(ranges: &[PfnRange]) -> (tidy: Option<Vec<PfnRange>>)
    ensures
        tidy is Some <==> all_bounded(ranges@),
        tidy matches Some(t) ==> canonical(t@) && all_bounded(t@),
        tidy matches Some(t) ==> forall|p: int| #[trigger] covers(t@, p) <==> covers(ranges@, p),
        tidy matches Some(t) ==> (canonical(ranges@) ==> t@ == ranges@),
{
    let mut filled: Vec<PfnRange> = Vec::new();
    let mut i: usize = 0;
    while i < ranges.len()
        invariant
            i <= ranges@.len(),
            forall|k: int| 0 <= k < i ==> (#[trigger] ranges@[k]).bounded(),
            all_bounded(filled@),
            all_nonempty(filled@),
            forall|p: int| #[trigger] covers(filled@, p) <==> covers(ranges@.take(i as int), p),
        decreases ranges@.len() - i,
    {
        let range = ranges[i];
        if range.start.0.checked_add(range.count).is_none() {
            assert(!ranges@[i as int].bounded());
            return None;
        }
        let ghost before = filled@;
        if range.count > 0 {
            filled.push(range);
        }
        proof {
            let seen = ranges@.take(i as int);
            let more = ranges@.take(i + 1);
            assert(more =~= seen.push(range));
            lemma_covers_push(before, range);
            lemma_covers_push(seen, range);
            assert forall|p: int| #[trigger] covers(filled@, p) <==> covers(more, p) by {
                assert(covers(before, p) <==> covers(seen, p));
            }
        }
        i = i + 1;
    }
    assert(ranges@.take(ranges@.len() as int) =~= ranges@);
    let none: Vec<PfnRange> = Vec::new();
    let (tidy, _) = merge_ranges(&none, &filled);
    proof {
        assert forall|p: int| #[trigger] covers(tidy@, p) <==> covers(ranges@, p) by {
            assert(covers(tidy@, p) <==> covers(none@, p) || covers(filled@, p));
            assert(covers(filled@, p) <==> covers(ranges@, p));
        }
        if canonical(ranges@) {
            lemma_canonical_unique(tidy@, ranges@);
        }
    }
    Some(tidy)
}

/// Whether `out` is `universe` without `covered`, sorted and with nothing
/// empty. Where neither argument has ranges that touch or are empty, the result
/// has none that touch.
pub open spec fn is_difference(
    out: Seq<PfnRange>,
    universe: Seq<PfnRange>,
    covered: Seq<PfnRange>,
) -> bool {
    &&& ordered(out)
    &&& all_bounded(out)
    &&& all_nonempty(out)
    &&& apart(universe) && all_nonempty(covered) ==> apart(out)
    &&& forall|p: int| #[trigger] covers(out, p) <==> covers(universe, p) && !covers(covered, p)
}

/// The frames of `universe` not present in `covered`, both sorted and without
/// overlap.
pub fn subtract_ranges(universe: &[PfnRange], covered: &[PfnRange]) -> (out: Vec<PfnRange>)
    requires
        ordered(universe@),
        all_bounded(universe@),
        ordered(covered@),
        all_bounded(covered@),
    ensures
        is_difference(out@, universe@, covered@),
{
    let mut out: Vec<PfnRange> = Vec::new();
    let mut next: usize = 0;
    let mut u: usize = 0;
    while u < universe.len()
        invariant
            u <= universe.len(),
            next <= covered.len(),
            ordered(universe@),
            all_bounded(universe@),
            ordered(covered@),
            all_bounded(covered@),
            ordered(out@),
            all_bounded(out@),
            all_nonempty(out@),
            apart(universe@) && all_nonempty(covered@) ==> apart(out@),
            // What was skipped in `covered` ends before anything still to come.
            forall|k: int, l: int|
                0 <= k < next && u <= l < universe@.len() ==> (#[trigger] covered@[k]).hi() <= (
                #[trigger] universe@[l]).lo() || universe@[l].count == 0,
            forall|k: int|
                0 <= k < out@.len() ==> u > 0 && (#[trigger] out@[k]).hi() <= universe@[u - 1].hi(),
            forall|p: int| #[trigger]
                covers(out@, p) <==> covers(universe@.take(u as int), p) && !covers(covered@, p),
        decreases universe.len() - u,
    {
        let whole = universe[u];
        let end: u64 = whole.end().0;
        let mut start: u64 = whole.start.0;
        while start < end
            invariant
                u < universe.len(),
                whole == universe@[u as int],
                end == whole.hi(),
                whole.lo() <= start,
                start <= end || next < covered.len() && start == covered@[next as int].hi(),
                next <= covered.len(),
                ordered(universe@),
                all_bounded(universe@),
                ordered(covered@),
                all_bounded(covered@),
                ordered(out@),
                all_bounded(out@),
                all_nonempty(out@),
                forall|k: int|
                    0 <= k < out@.len() ==> (#[trigger] out@[k]).hi() <= start && out@[k].hi()
                        <= end,
                apart(universe@) && all_nonempty(covered@) ==> apart(out@),
                apart(universe@) && all_nonempty(covered@) && out@.len() > 0 && start < end
                    ==> out@.last().hi() < start,
                forall|k: int| 0 <= k < next ==> (#[trigger] covered@[k]).hi() <= start || start >= end,
                forall|k: int, l: int|
                    0 <= k < next && u < l < universe@.len() ==> (#[trigger] covered@[k]).hi() <= (
                    #[trigger] universe@[l]).lo() || universe@[l].count == 0,
                forall|p: int| #[trigger]
                    covers(out@, p) <==> (covers(universe@.take(u as int), p) || whole.lo() <= p
                        < start && p < end) && !covers(covered@, p),
            decreases
                    (if start < end {
                        end - start
                    } else {
                        0
                    }),
        {
            let ghost entry = start;
            while next < covered.len() && covered[next].end().0 <= start
                invariant
                    next <= covered.len(),
                    all_bounded(covered@),
                    u < universe.len(),
                    whole == universe@[u as int],
                    end == whole.hi(),
                    start < end,
                    ordered(universe@),
                    forall|k: int| 0 <= k < next ==> (#[trigger] covered@[k]).hi() <= start,
                decreases covered.len() - next,
            {
                next = next + 1;
            }
            proof {
                assert forall|k: int, l: int| 0 <= k < next && u < l < universe@.len() implies (
                #[trigger] covered@[k]).hi() <= (#[trigger] universe@[l]).lo()
                    || universe@[l].count == 0 by {
                    assert(universe@[u as int].hi() <= universe@[l].lo());
                }
            }
            let ghost before = out@;
            if next < covered.len() && covered[next].start.0 < end {
                let c = covered[next];
                assert(c.bounded());
                if c.start.0 > start {
                    let piece = PfnRange { start: Pfn(start), count: c.start.0 - start };
                    out.push(piece);
                    proof {
                        lemma_covers_push(before, piece);
                        lemma_first_uncovered(covered@, next as int, entry as int, c.lo());
                    }
                }
                proof {
                    assert forall|p: int| #[trigger]
                        covers(out@, p) <==> (covers(universe@.take(u as int), p) || whole.lo()
                            <= p < c.hi() && p < end) && !covers(covered@, p) by {
                        if c.holds(p) {
                            assert(covered@[next as int].holds(p));
                        }
                        assert(covers(out@, p) <==> covers(before, p) || entry <= p < c.lo());
                    }
                }
                start = c.end().0;
            } else {
                let piece = PfnRange { start: Pfn(start), count: end - start };
                out.push(piece);
                proof {
                    lemma_covers_push(before, piece);
                    lemma_first_uncovered(covered@, next as int, entry as int, end as int);
                }
                start = end;
            }
        }
        proof {
            let more = universe@.take(u + 1);
            assert(more =~= universe@.take(u as int).push(whole));
            lemma_covers_push(universe@.take(u as int), whole);
            assert forall|p: int| #[trigger]
                covers(out@, p) <==> covers(more, p) && !covers(covered@, p) by {
                assert(covers(universe@.take(u as int).push(whole), p) <==> covers(
                    universe@.take(u as int),
                    p,
                ) || whole.holds(p));
            }
        }
        u = u + 1;
        proof {
            if u < universe.len() {
                assert(universe@[u - 1].hi() <= universe@[u as int].lo());
            }
        }
    }
    proof {
        assert(universe@.take(universe@.len() as int) =~= universe@);
    }
    out
}

/// Between the cursor and the start of the next covered range nothing is
/// covered.
proof fn lemma_first_uncovered(covered: Seq<PfnRange>, next: int, from: int, to: int)
    requires
        ordered(covered),
        0 <= next <= covered.len(),
        forall|k: int| 0 <= k < next ==> (#[trigger] covered[k]).hi() <= from,
        next < covered.len() ==> to <= covered[next].lo(),
    ensures
        forall|p: int| from <= p < to ==> !#[trigger] covers(covered, p),
{
    assert forall|p: int| from <= p < to implies !#[trigger] covers(covered, p) by {
        if covers(covered, p) {
            let k = choose|k: int| 0 <= k < covered.len() && #[trigger] covered[k].holds(p);
            if k > next {
                assert(covered[next].hi() <= covered[k].lo());
            }
        }
    }
}

/// Whether `pfn` falls inside any of the sorted, non-overlapping `ranges`.
pub fn contains_pfn(ranges: &[PfnRange], pfn: Pfn) -> (found: bool)
    requires
        ordered(ranges@),
        all_bounded(ranges@),
    ensures
        found == covers(ranges@, pfn.0 as int),
{
    let mut low: usize = 0;
    let mut high: usize = ranges.len();
    while low < high
        invariant
            low <= high <= ranges.len(),
            ordered(ranges@),
            all_bounded(ranges@),
            forall|i: int| 0 <= i < low ==> !#[trigger] ranges@[i].holds(pfn.0 as int),
            forall|i: int|
                high <= i < ranges@.len() ==> !#[trigger] ranges@[i].holds(pfn.0 as int),
        decreases high - low,
    {
        let mid: usize = low + (high - low) / 2;
        let range = ranges[mid];
        assert(range.bounded());
        if pfn.0 < range.start.0 {
            proof {
                assert forall|i: int| mid <= i < ranges@.len() implies !#[trigger] ranges@[i].holds(
                    pfn.0 as int,
                ) by {
                    if mid < i {
                        assert(ranges@[mid as int].hi() <= ranges@[i].lo());
                    }
                }
            }
            high = mid;
        } else if pfn.0 >= range.end().0 {
            proof {
                assert forall|i: int| 0 <= i < mid + 1 implies !#[trigger] ranges@[i].holds(
                    pfn.0 as int,
                ) by {
                    if i < mid {
                        assert(ranges@[i].hi() <= ranges@[mid as int].lo());
                    }
                }
            }
            low = mid + 1;
        } else {
            assert(ranges@[mid as int].holds(pfn.0 as int));
            return true;
        }
    }
    false
}

/// The frame of a frame's own address is that frame.
pub proof fn law_addr_round_trip(pfn: Pfn, addr: PhysAddr)
    requires
        addr.0 == pfn.0 * PAGE_BYTES,
    ensures
        addr.0 / PAGE_BYTES == pfn.0,
{
}

/// The ranges compacted from a raw list have as many frames as the list has
/// distinct resolved ones.
pub proof fn law_compaction_counts_distinct(ranges: Seq<PfnRange>, pfns: Seq<u64>)
    requires
        is_compaction(ranges, pfns),
    ensures
        Set::new(|p: int| resolves(pfns, p)).finite(),
        total(ranges) == Set::new(|p: int| resolves(pfns, p)).len(),
{
    lemma_ordered_is_disjoint(ranges);
    lemma_total_counts_frames(ranges);
    assert(frames(ranges) =~= Set::new(|p: int| resolves(pfns, p)));
}

/// A list compacts to one result, whatever the order of its entries and however
/// often each occurs.
pub proof fn law_compaction_unique(
    a: Seq<PfnRange>,
    b: Seq<PfnRange>,
    pfns: Seq<u64>,
    other: Seq<u64>,
)
    requires
        is_compaction(a, pfns),
        is_compaction(b, other),
        forall|p: int| #[trigger] resolves(pfns, p) <==> resolves(other, p),
    ensures
        a == b,
{
    assert forall|p: int| #[trigger] covers(a, p) <==> covers(b, p) by {
        assert(resolves(pfns, p) <==> resolves(other, p));
    }
    lemma_canonical_unique(a, b);
}

/// Uniting a canonical list with itself gives it back, with nothing new.
pub proof fn law_merge_idempotent(merged: Seq<PfnRange>, ranges: Seq<PfnRange>)
    requires
        canonical(ranges),
        is_union(merged, ranges, ranges),
    ensures
        merged == ranges,
        total(merged) - total(ranges) == 0,
{
    lemma_canonical_unique(merged, ranges);
}

/// The union does not depend on which list is the base.
pub proof fn law_merge_commutes(
    one: Seq<PfnRange>,
    two: Seq<PfnRange>,
    a: Seq<PfnRange>,
    b: Seq<PfnRange>,
)
    requires
        all_nonempty(a),
        all_nonempty(b),
        is_union(one, a, b),
        is_union(two, b, a),
    ensures
        one == two,
{
    assert forall|p: int| #[trigger] covers(one, p) <==> covers(two, p) by {
        assert(covers(one, p) <==> covers(a, p) || covers(b, p));
        assert(covers(two, p) <==> covers(b, p) || covers(a, p));
    }
    lemma_canonical_unique(one, two);
}

/// Three lists unite to the same result in either grouping.
pub proof fn law_merge_associates(
    ab: Seq<PfnRange>,
    ab_c: Seq<PfnRange>,
    bc: Seq<PfnRange>,
    a_bc: Seq<PfnRange>,
    a: Seq<PfnRange>,
    b: Seq<PfnRange>,
    c: Seq<PfnRange>,
)
    requires
        all_nonempty(a),
        all_nonempty(b),
        all_nonempty(c),
        is_union(ab, a, b),
        is_union(ab_c, ab, c),
        is_union(bc, b, c),
        is_union(a_bc, a, bc),
    ensures
        ab_c == a_bc,
{
    assert forall|p: int| #[trigger] covers(ab_c, p) <==> covers(a_bc, p) by {
        assert(covers(ab, p) <==> covers(a, p) || covers(b, p));
        assert(covers(bc, p) <==> covers(b, p) || covers(c, p));
    }
    lemma_canonical_unique(ab_c, a_bc);
}

/// A merge never loses a frame, and the count of covered frames never falls.
pub proof fn law_merge_keeps_frames(
    merged: Seq<PfnRange>,
    base: Seq<PfnRange>,
    added: Seq<PfnRange>,
)
    requires
        disjoint(base),
        is_union(merged, base, added),
    ensures
        frames(base).subset_of(frames(merged)),
        frames(added).subset_of(frames(merged)),
        total(base) <= total(merged),
{
    lemma_ordered_is_disjoint(merged);
    lemma_total_counts_frames(merged);
    lemma_total_counts_frames(base);
    assert(frames(base).subset_of(frames(merged))) by {
        assert forall|p: int| frames(base).contains(p) implies frames(merged).contains(p) by {
            assert(covers(merged, p) <==> covers(base, p) || covers(added, p));
        }
    }
    assert(frames(added).subset_of(frames(merged))) by {
        assert forall|p: int| frames(added).contains(p) implies frames(merged).contains(p) by {
            assert(covers(merged, p) <==> covers(base, p) || covers(added, p));
        }
    }
    vstd::set_lib::lemma_len_subset(frames(base), frames(merged));
}

/// Uniting what is left of a list with what was taken out of it gives the union
/// of the two back.
pub proof fn law_subtract_then_merge(
    left: Seq<PfnRange>,
    merged: Seq<PfnRange>,
    union: Seq<PfnRange>,
    universe: Seq<PfnRange>,
    covered: Seq<PfnRange>,
)
    requires
        all_nonempty(universe),
        all_nonempty(covered),
        is_difference(left, universe, covered),
        is_union(merged, left, covered),
        is_union(union, universe, covered),
    ensures
        merged == union,
{
    assert forall|p: int| #[trigger] covers(merged, p) <==> covers(union, p) by {
        assert(covers(left, p) <==> covers(universe, p) && !covers(covered, p));
        assert(covers(union, p) <==> covers(universe, p) || covers(covered, p));
    }
    lemma_canonical_unique(merged, union);
}

/// Nothing is left of a list once everything in it is covered.
pub proof fn law_subtract_covered_is_empty(
    left: Seq<PfnRange>,
    universe: Seq<PfnRange>,
    covered: Seq<PfnRange>,
)
    requires
        is_difference(left, universe, covered),
        forall|p: int| #[trigger] covers(universe, p) ==> covers(covered, p),
    ensures
        left.len() == 0,
{
    if left.len() > 0 {
        let p = left[0].lo();
        assert(left[0].count > 0);
        assert(left[0].holds(p));
        assert(covers(left, p));
        assert(covers(universe, p));
    }
}

/// The zero that stands for unresolved is no frame: it never counts as covered.
pub proof fn law_unresolved_is_not_covered(ranges: Seq<PfnRange>, pfns: Seq<u64>, i: int)
    requires
        is_compaction(ranges, pfns),
        0 <= i < pfns.len(),
    ensures
        !covers(ranges, 0),
        pfns[i] != 0 ==> covers(ranges, pfns[i] as int),
{
    assert(covers(ranges, 0) <==> resolves(pfns, 0));
    assert(covers(ranges, pfns[i] as int) <==> resolves(pfns, pfns[i] as int));
}

} // verus!
