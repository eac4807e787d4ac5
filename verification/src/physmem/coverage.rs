//! Cross-run physical coverage.
//!
//! A coverage store accumulates the set of physical frames that completed runs
//! have tested, so that consecutive runs can report cumulative coverage and how
//! much new physical memory each contributed. It is bound to a machine
//! fingerprint; a mismatch means that the memory configuration changed and the
//! old map is meaningless.

use vstd::prelude::*;
use vstd::string::StringExecFns;

use crate::bytes::{self, byte_of};
use crate::physmem::pfn::{self, merge_ranges, total_frames, PfnRange};
use crate::physmem::PAGE_BYTES;
use crate::text::{self, decimal_string};

verus! {

/// Current on-disk schema version.
pub const STORE_VERSION: u32 = 1;

/// Start value of the FNV-1a hash.
pub const FNV_OFFSET: u64 = 0xcbf2_9ce4_8422_2325;

/// Multiplier of the FNV-1a hash.
pub const FNV_PRIME: u64 = 0x0000_0100_0000_01b3;

/// Identity of the machine's physical memory layout. A coverage store only
/// merges runs taken under an identical fingerprint.
#[derive(Debug, Clone, Copy, PartialEq, Eq, Structural)]
pub struct Fingerprint {
    /// `MemTotal` in bytes.
    pub mem_total: u64,
    /// FNV-1a hash of the "System RAM" `(start, end)` ranges of `/proc/iomem`.
    pub iomem_hash: u64,
}

/// One completed run merged into the store.
#[derive(Debug, PartialEq, Eq)]
pub struct RunRecord {
    /// When the run was recorded.
    pub timestamp: jiff::Timestamp,
    /// Names of the patterns run.
    pub patterns: Vec<String>,
    /// Passes over the memory.
    pub passes: usize,
    /// Bytes of the frames tested.
    pub tested_bytes: u64,
    /// Bytes of the frames that no earlier run had tested.
    pub new_bytes: u64,
    /// Failures found.
    pub failures: u64,
}

/// What a run contributed, relative to the store's prior contents.
#[derive(Debug, Clone, Copy, PartialEq, Eq, Structural)]
pub struct RunDelta {
    /// Bytes of the frames that no earlier run had tested.
    pub new_bytes: u64,
    /// Bytes of all frames tested so far.
    pub cumulative_bytes: u64,
    /// Runs recorded so far.
    pub runs: u64,
}

/// Why a store could not be used.
#[derive(Debug, PartialEq, Eq)]
pub enum CoverageError {
    /// The file could not be read.
    Read {
        /// What the system says of it.
        message: String,
    },
    /// The file could not be written.
    Write {
        /// What the system says of it.
        message: String,
    },
    /// The file does not hold a store.
    Parse {
        /// What is wrong with it.
        message: String,
    },
    /// The file has another schema version.
    VersionMismatch {
        /// Its version.
        found: u32,
    },
    /// The file belongs to another memory configuration.
    FingerprintMismatch,
}

impl CoverageError {
    /// How the error reads.
    pub open spec fn shown(&self) -> Seq<char> {
        match self {
            CoverageError::Read { message } => "failed to read coverage file: "@ + message@,
            CoverageError::Write { message } => "failed to write coverage file: "@ + message@,
            CoverageError::Parse { message } => "coverage file is not valid JSON: "@ + message@,
            CoverageError::VersionMismatch { found } => "coverage file schema version "@
                + text::decimal(*found as int) + " is not supported (expected "@ + text::decimal(
                STORE_VERSION as int,
            ) + ")"@,
            CoverageError::FingerprintMismatch =>
                "coverage file belongs to a different memory configuration (fingerprint mismatch) -- delete it or point --coverage-file elsewhere"@,
        }
    }

    /// How the error reads.
    pub fn to_string(&self) -> (s: String)
        ensures
            s@ == self.shown(),
    {
        let mut s = String::new();
        match self {
            CoverageError::Read { message } => {
                s.append("failed to read coverage file: ");
                s.append(message);
            },
            CoverageError::Write { message } => {
                s.append("failed to write coverage file: ");
                s.append(message);
            },
            CoverageError::Parse { message } => {
                s.append("coverage file is not valid JSON: ");
                s.append(message);
            },
            CoverageError::VersionMismatch { found } => {
                s.append("coverage file schema version ");
                s.append(&decimal_string(*found as u64));
                s.append(" is not supported (expected ");
                s.append(&decimal_string(STORE_VERSION as u64));
                s.append(")");
            },
            CoverageError::FingerprintMismatch => {
                s.append(
                    "coverage file belongs to a different memory configuration (fingerprint mismatch) -- delete it or point --coverage-file elsewhere",
                );
            },
        }
        assert(s@ =~= self.shown());
        s
    }
}

/// The hash after one byte more.
pub open spec fn fnv_byte(hash: u64, byte: u8) -> u64 {
    (hash ^ (byte as u64)).wrapping_mul(FNV_PRIME)
}

/// The hash after `n` bytes more.
pub open spec fn fnv_bytes(hash: u64, input: Seq<u8>, n: int) -> u64
    decreases n,
{
    if n <= 0 {
        hash
    } else {
        fnv_byte(fnv_bytes(hash, input, n - 1), input[n - 1])
    }
}

/// The hash of the first `n` pairs, each number by its bytes, lowest first.
pub open spec fn fnv_pairs(pairs: Seq<(u64, u64)>, n: int) -> u64
    decreases n,
{
    if n <= 0 {
        FNV_OFFSET
    } else {
        fnv_bytes(
            fnv_bytes(fnv_pairs(pairs, n - 1), bytes::le_bytes(pairs[n - 1].0), 8),
            bytes::le_bytes(pairs[n - 1].1),
            8,
        )
    }
}

fn mix(hash: u64, value: u64) -> (mixed: u64)
    ensures
        mixed == fnv_bytes(hash, bytes::le_bytes(value), 8),
{
    let mut mixed: u64 = hash;
    let mut i: usize = 0;
    while i < 8
        invariant
            i <= 8,
            mixed == fnv_bytes(hash, bytes::le_bytes(value), i as int),
        decreases 8 - i,
    {
        let byte: u64 = byte_of(value, i) as u64;
        mixed = (mixed ^ byte).wrapping_mul(FNV_PRIME);
        i = i + 1;
    }
    mixed
}

/// The fingerprint of a machine with these System RAM ranges.
pub fn fingerprint_from(mem_total: u64, system_ram: &[(u64, u64)]) -> (fingerprint: Fingerprint)
    ensures
        fingerprint.mem_total == mem_total,
        fingerprint.iomem_hash == fnv_pairs(system_ram@, system_ram@.len() as int),
{
    let mut hash: u64 = FNV_OFFSET;
    let mut i: usize = 0;
    while i < system_ram.len()
        invariant
            i <= system_ram@.len(),
            hash == fnv_pairs(system_ram@, i as int),
        decreases system_ram@.len() - i,
    {
        hash = mix(hash, system_ram[i].0);
        hash = mix(hash, system_ram[i].1);
        i = i + 1;
    }
    Fingerprint { mem_total, iomem_hash: hash }
}

/// Persistent cumulative coverage: every frame that a completed run has tested.
#[derive(Debug, PartialEq, Eq)]
pub struct CoverageStore {
    /// Schema version.
    pub version: u32,
    /// The machine that the store belongs to.
    pub fingerprint: Fingerprint,
    /// The runs recorded, oldest first.
    pub runs: Vec<RunRecord>,
    /// The frames covered: sorted, disjoint, non-adjacent ranges.
    pub ranges: Vec<PfnRange>,
}

/// Whether the frames of `ranges` have a countable number of bytes.
pub open spec fn countable(ranges: Seq<PfnRange>) -> bool {
    pfn::total(ranges) * PAGE_BYTES <= u64::MAX
}

impl CoverageStore {
    /// The ranges are sorted, disjoint and non-adjacent, none is empty, and their
    /// bytes can be counted.
    pub open spec fn well_formed(&self) -> bool {
        &&& pfn::canonical(self.ranges@)
        &&& pfn::all_bounded(self.ranges@)
        &&& countable(self.ranges@)
    }

    /// An empty store bound to `fingerprint`.
    pub fn new(fingerprint: Fingerprint) -> (store: Self)
        ensures
            store.version == STORE_VERSION,
            store.fingerprint == fingerprint,
            store.runs@.len() == 0,
            store.ranges@.len() == 0,
            store.well_formed(),
    {
        CoverageStore {
            version: STORE_VERSION,
            fingerprint,
            runs: Vec::new(),
            ranges: Vec::new(),
        }
    }

    /// Accept a store that was read back, if it has the supported schema version
    /// and belongs to this machine. The version is looked at first.
    pub fn accept(self, fingerprint: Fingerprint) -> (r: Result<Self, CoverageError>)
        ensures
            self.version != STORE_VERSION ==> r == Err::<Self, CoverageError>(
                CoverageError::VersionMismatch { found: self.version },
            ),
            self.version == STORE_VERSION && self.fingerprint != fingerprint ==> r == Err::<
                Self,
                CoverageError,
            >(CoverageError::FingerprintMismatch),
            self.version == STORE_VERSION && self.fingerprint == fingerprint ==> r == Ok::<
                Self,
                CoverageError,
            >(self),
    {
        if self.version != STORE_VERSION {
            return Err(CoverageError::VersionMismatch { found: self.version });
        }
        if self.fingerprint != fingerprint {
            return Err(CoverageError::FingerprintMismatch);
        }
        Ok(self)
    }

    /// Merge a completed run's tested ranges into the store and append a run
    /// record. Returns what this run contributed.
    pub fn record_run(
        &mut self,
        tested: &[PfnRange],
        timestamp: jiff::Timestamp,
        patterns: Vec<String>,
        passes: usize,
        failures: u64,
    ) -> (delta: RunDelta)
        requires
            old(self).well_formed(),
            pfn::all_bounded(tested@),
            pfn::all_nonempty(tested@),
            countable(tested@),
            pfn::frames(old(self).ranges@).union(pfn::frames(tested@)).len() * PAGE_BYTES
                <= u64::MAX,
        ensures
            final(self).well_formed(),
            final(self).version == old(self).version,
            final(self).fingerprint == old(self).fingerprint,
            pfn::is_union(final(self).ranges@, old(self).ranges@, tested@),
            delta.new_bytes == (pfn::total(final(self).ranges@) - pfn::total(old(self).ranges@))
                * PAGE_BYTES,
            delta.new_bytes == pfn::frames(tested@).difference(
                pfn::frames(old(self).ranges@),
            ).len() * PAGE_BYTES,
            delta.cumulative_bytes == pfn::total(final(self).ranges@) * PAGE_BYTES,
            delta.runs == final(self).runs@.len(),
            final(self).runs@ == old(self).runs@.push(
                RunRecord {
                    timestamp,
                    patterns,
                    passes,
                    tested_bytes: (pfn::total(tested@) * PAGE_BYTES) as u64,
                    new_bytes: delta.new_bytes,
                    failures,
                },
            ),
    {
        proof {
            pfn::lemma_ordered_is_disjoint(self.ranges@);
        }
        let (merged, new_frames) = merge_ranges(self.ranges.as_slice(), tested);
        proof {
            pfn::lemma_ordered_is_disjoint(merged@);
            pfn::lemma_total_counts_frames(merged@);
            let both = pfn::frames(self.ranges@).union(pfn::frames(tested@));
            assert(pfn::frames(merged@) =~= both) by {
                assert forall|p: int| pfn::frames(merged@).contains(p) <==> both.contains(p) by {
                    assert(pfn::covers(merged@, p) <==> pfn::covers(self.ranges@, p)
                        || pfn::covers(tested@, p));
                }
            }
            pfn::lemma_total_prefix(tested@, 0);
            pfn::lemma_total_prefix(self.ranges@, 0);
        }
        self.ranges = merged;
        let new_bytes: u64 = new_frames * PAGE_BYTES;
        let tested_bytes: u64 = total_frames(tested) * PAGE_BYTES;
        self.runs.push(
            RunRecord { timestamp, patterns, passes, tested_bytes, new_bytes, failures },
        );
        RunDelta {
            new_bytes,
            cumulative_bytes: self.covered_bytes(),
            runs: self.runs.len() as u64,
        }
    }

    /// Cumulative covered bytes.
    pub fn covered_bytes(&self) -> (bytes: u64)
        requires
            self.well_formed(),
        ensures
            bytes == pfn::total(self.ranges@) * PAGE_BYTES,
            bytes == pfn::frames(self.ranges@).len() * PAGE_BYTES,
    {
        proof {
            pfn::lemma_ordered_is_disjoint(self.ranges@);
            pfn::lemma_total_prefix(self.ranges@, 0);
        }
        total_frames(self.ranges.as_slice()) * PAGE_BYTES
    }
}

/// Recording the same frames a second time contributes nothing new.
pub proof fn law_rerun_adds_nothing(
    ranges: Seq<PfnRange>,
    tested: Seq<PfnRange>,
    after: Seq<PfnRange>,
    again: Seq<PfnRange>,
)
    requires
        pfn::canonical(ranges),
        pfn::all_nonempty(tested),
        pfn::is_union(after, ranges, tested),
        pfn::is_union(again, after, tested),
    ensures
        again == after,
{
    assert forall|p: int| #[trigger] pfn::covers(again, p) <==> pfn::covers(after, p) by {
        assert(pfn::covers(after, p) <==> pfn::covers(ranges, p) || pfn::covers(tested, p));
        assert(pfn::covers(again, p) <==> pfn::covers(after, p) || pfn::covers(tested, p));
    }
    pfn::lemma_canonical_unique(again, after);
}

/// The order in which two runs are recorded does not change what is covered.
pub proof fn law_run_order_does_not_matter(
    ranges: Seq<PfnRange>,
    a: Seq<PfnRange>,
    b: Seq<PfnRange>,
    after_a: Seq<PfnRange>,
    after_ab: Seq<PfnRange>,
    after_b: Seq<PfnRange>,
    after_ba: Seq<PfnRange>,
)
    requires
        pfn::canonical(ranges),
        pfn::all_nonempty(a),
        pfn::all_nonempty(b),
        pfn::is_union(after_a, ranges, a),
        pfn::is_union(after_ab, after_a, b),
        pfn::is_union(after_b, ranges, b),
        pfn::is_union(after_ba, after_b, a),
    ensures
        after_ab == after_ba,
{
    assert forall|p: int| #[trigger] pfn::covers(after_ab, p) <==> pfn::covers(after_ba, p) by {
        assert(pfn::covers(after_a, p) <==> pfn::covers(ranges, p) || pfn::covers(a, p));
        assert(pfn::covers(after_b, p) <==> pfn::covers(ranges, p) || pfn::covers(b, p));
        assert(pfn::covers(after_ba, p) <==> pfn::covers(after_b, p) || pfn::covers(a, p));
    }
    pfn::lemma_canonical_unique(after_ab, after_ba);
}

/// One more byte is mixed in without loss: what goes in can be told from what comes out.
proof fn lemma_byte_is_not_lost(a: u64, b: u64)
    requires
        a.wrapping_mul(FNV_PRIME) == b.wrapping_mul(FNV_PRIME),
    ensures
        a == b,
{
    // The multiplier has an inverse modulo 2^64.
    let x: int = a as int;
    let y: int = b as int;
    let d = x - y;
    let t = (x * 0x100_0000_01b3) / 0x1_0000_0000_0000_0000 - (y * 0x100_0000_01b3)
        / 0x1_0000_0000_0000_0000;
    assert(d * 0x100_0000_01b3 == t * 0x1_0000_0000_0000_0000);
    let u = t * 0xce96_5057_aff6_957b - d * 887285111055;
    assert(0x100_0000_01b3 * 0xce96_5057_aff6_957b == 887285111055 * 0x1_0000_0000_0000_0000 + 1);
    assert(d == u * 0x1_0000_0000_0000_0000);
}

/// The same bytes keep two hashes apart.
proof fn lemma_hashes_stay_apart(one: u64, two: u64, input: Seq<u8>, n: int)
    requires
        one != two,
    ensures
        fnv_bytes(one, input, n) != fnv_bytes(two, input, n),
    decreases n,
{
    if n > 0 {
        lemma_hashes_stay_apart(one, two, input, n - 1);
        let a = fnv_bytes(one, input, n - 1);
        let b = fnv_bytes(two, input, n - 1);
        let byte = input[n - 1] as u64;
        assert(a ^ byte == b ^ byte ==> a == b) by (bit_vector);
        if fnv_bytes(one, input, n) == fnv_bytes(two, input, n) {
            lemma_byte_is_not_lost(a ^ byte, b ^ byte);
        }
    }
}

/// Whether two numbers differ in their `j`-th byte and in no other.
pub open spec fn differ_in_byte(a: u64, b: u64, j: int) -> bool {
    &&& 0 <= j < 8
    &&& bytes::le_bytes(a)[j] != bytes::le_bytes(b)[j]
    &&& forall|k: int|
        0 <= k < 8 && k != j ==> #[trigger] bytes::le_bytes(a)[k] == bytes::le_bytes(b)[k]
}

proof fn lemma_same_bytes(hash: u64, one: Seq<u8>, two: Seq<u8>, n: int)
    requires
        forall|k: int| 0 <= k < n ==> #[trigger] one[k] == two[k],
    ensures
        fnv_bytes(hash, one, n) == fnv_bytes(hash, two, n),
    decreases n,
{
    if n > 0 {
        lemma_same_bytes(hash, one, two, n - 1);
        assert(one[n - 1] == two[n - 1]);
    }
}

proof fn lemma_one_byte_shows(hash: u64, a: u64, b: u64, j: int, n: int)
    requires
        differ_in_byte(a, b, j),
        j < n <= 8,
    ensures
        fnv_bytes(hash, bytes::le_bytes(a), n) != fnv_bytes(hash, bytes::le_bytes(b), n),
    decreases n,
{
    let one = bytes::le_bytes(a);
    let two = bytes::le_bytes(b);
    let x = fnv_bytes(hash, one, n - 1);
    let y = fnv_bytes(hash, two, n - 1);
    let p = one[n - 1] as u64;
    let q = two[n - 1] as u64;
    assert(x ^ p == y ^ q && (x == y || p == q) ==> x == y && p == q) by (bit_vector);
    if j == n - 1 {
        lemma_same_bytes(hash, one, two, n - 1);
    } else {
        lemma_one_byte_shows(hash, a, b, j, n - 1);
        assert(one[n - 1] == two[n - 1]);
    }
    if fnv_bytes(hash, one, n) == fnv_bytes(hash, two, n) {
        lemma_byte_is_not_lost(x ^ p, y ^ q);
    }
}

/// Memory layouts that differ in one byte of one bound have different fingerprints: the
/// start and the end of every range count.
pub proof fn law_changed_layout_is_noticed(
    one: Seq<(u64, u64)>,
    two: Seq<(u64, u64)>,
    n: int,
    i: int,
    j: int,
)
    requires
        0 <= i < n,
        forall|k: int| 0 <= k < n && k != i ==> #[trigger] one[k] == two[k],
        (one[i].0 == two[i].0 && differ_in_byte(one[i].1, two[i].1, j)) || (one[i].1 == two[i].1
            && differ_in_byte(one[i].0, two[i].0, j)),
    ensures
        fnv_pairs(one, n) != fnv_pairs(two, n),
    decreases n,
{
    if i < n - 1 {
        law_changed_layout_is_noticed(one, two, n - 1, i, j);
        assert(one[n - 1] == two[n - 1]);
        let a = fnv_pairs(one, n - 1);
        let b = fnv_pairs(two, n - 1);
        let start = bytes::le_bytes(one[n - 1].0);
        lemma_hashes_stay_apart(a, b, start, 8);
        lemma_hashes_stay_apart(
            fnv_bytes(a, start, 8),
            fnv_bytes(b, start, 8),
            bytes::le_bytes(one[n - 1].1),
            8,
        );
    } else {
        lemma_same_pairs(one, two, n - 1);
        let hash = fnv_pairs(one, n - 1);
        if one[i].0 == two[i].0 {
            lemma_one_byte_shows(
                fnv_bytes(hash, bytes::le_bytes(one[i].0), 8),
                one[i].1,
                two[i].1,
                j,
                8,
            );
        } else {
            lemma_one_byte_shows(hash, one[i].0, two[i].0, j, 8);
            lemma_hashes_stay_apart(
                fnv_bytes(hash, bytes::le_bytes(one[i].0), 8),
                fnv_bytes(hash, bytes::le_bytes(two[i].0), 8),
                bytes::le_bytes(one[i].1),
                8,
            );
        }
    }
}

proof fn lemma_same_pairs(one: Seq<(u64, u64)>, two: Seq<(u64, u64)>, n: int)
    requires
        forall|k: int| 0 <= k < n ==> #[trigger] one[k] == two[k],
    ensures
        fnv_pairs(one, n) == fnv_pairs(two, n),
    decreases n,
{
    if n > 0 {
        lemma_same_pairs(one, two, n - 1);
        assert(one[n - 1] == two[n - 1]);
    }
}

/// A hash begins with the offset of FNV-1a, and each number adds its eight bytes, lowest
/// first: mixed in by exclusive or and then multiplied by the prime of FNV-1a.
pub proof fn law_hash_is_fnv(pairs: Seq<(u64, u64)>, hash: u64, word: u64, i: int)
    requires
        0 <= i < 8,
    ensures
        fnv_pairs(pairs, 0) == 0xcbf2_9ce4_8422_2325,
        fnv_bytes(hash, bytes::le_bytes(word), i + 1) == ((fnv_bytes(
            hash,
            bytes::le_bytes(word),
            i,
        ) ^ (bytes::le_bytes(word)[i] as u64)) * 0x100_0000_01b3) % 0x1_0000_0000_0000_0000,
{
}

proof fn lemma_bytes_go_on(hash: u64, stream: Seq<u8>, at: int, part: Seq<u8>, n: int)
    requires
        0 <= at,
        0 <= n,
        forall|k: int| 0 <= k < n ==> #[trigger] part[k] == stream[at + k],
    ensures
        fnv_bytes(hash, stream, at + n) == fnv_bytes(fnv_bytes(hash, stream, at), part, n),
    decreases n,
{
    if n > 0 {
        lemma_bytes_go_on(hash, stream, at, part, n - 1);
        assert(part[n - 1] == stream[at + (n - 1)]);
    }
}

/// The fingerprint hashes the bounds as one stream of bytes: of each range the start and
/// then the end, range after range.
pub proof fn law_bounds_are_hashed_in_order(pairs: Seq<(u64, u64)>, stream: Seq<u8>, n: int)
    requires
        0 <= n,
        forall|i: int, k: int|
            0 <= i < n && 0 <= k < 8 ==> #[trigger] bytes::le_bytes(pairs[i].0)[k] == stream[16 * i
                + k],
        forall|i: int, k: int|
            0 <= i < n && 0 <= k < 8 ==> #[trigger] bytes::le_bytes(pairs[i].1)[k] == stream[16 * i
                + 8 + k],
    ensures
        fnv_pairs(pairs, n) == fnv_bytes(0xcbf2_9ce4_8422_2325, stream, 16 * n),
    decreases n,
{
    if n > 0 {
        let at = 16 * (n - 1);
        law_bounds_are_hashed_in_order(pairs, stream, n - 1);
        let start = bytes::le_bytes(pairs[n - 1].0);
        let end = bytes::le_bytes(pairs[n - 1].1);
        assert forall|k: int| 0 <= k < 8 implies #[trigger] start[k] == stream[at + k] by {
            assert(bytes::le_bytes(pairs[n - 1].0)[k] == stream[16 * (n - 1) + k]);
        }
        assert forall|k: int| 0 <= k < 8 implies #[trigger] end[k] == stream[at + 8 + k] by {
            assert(bytes::le_bytes(pairs[n - 1].1)[k] == stream[16 * (n - 1) + 8 + k]);
        }
        lemma_bytes_go_on(0xcbf2_9ce4_8422_2325, stream, at, start, 8);
        lemma_bytes_go_on(0xcbf2_9ce4_8422_2325, stream, at + 8, end, 8);
    }
}

} // verus!
