//! The [`Failure`] record, one mismatched word, and the budget that bounds how
//! many of them a pattern may collect.

use vstd::prelude::*;
use vstd::string::StringExecFns;

use crate::physmem::phys::PhysAddr;
use crate::text::{decimal_string, hex16_string};

verus! {

/// A single test failure record.
#[derive(Debug, Clone, Copy, PartialEq, Eq, Structural)]
pub struct Failure {
    /// Virtual address of the failing word.
    pub addr: usize,
    /// Expected value.
    pub expected: u64,
    /// Actual value read back.
    pub actual: u64,
    /// Word index within the buffer.
    pub word_index: usize,
    /// Physical address, if resolved via pagemap.
    pub phys_addr: Option<PhysAddr>,
}

/// Whether bit `i` of `x` is set.
pub open spec fn bit(x: u64, i: int) -> bool {
    (x >> (i as u64)) & 1 == 1
}

/// The positions below `n` at which `x` has a bit set, in ascending order.
pub open spec fn set_bits_below(x: u64, n: int) -> Seq<u8>
    decreases n,
{
    if n <= 0 {
        Seq::empty()
    } else if bit(x, n - 1) {
        set_bits_below(x, n - 1).push((n - 1) as u8)
    } else {
        set_bits_below(x, n - 1)
    }
}

/// The positions at which `x` has a bit set, in ascending order.
pub open spec fn set_bits(x: u64) -> Seq<u8> {
    set_bits_below(x, 64)
}

/// [`set_bits_below`] lists each set position once, and nothing else.
pub proof fn lemma_set_bits_below(x: u64, n: int)
    requires
        0 <= n <= 64,
    ensures
        set_bits_below(x, n).len() <= n,
        forall|i: int, j: int|
            0 <= i < j < set_bits_below(x, n).len() ==> (#[trigger] set_bits_below(x, n)[i]) < (
            #[trigger] set_bits_below(x, n)[j]),
        forall|b: u8| #[trigger] set_bits_below(x, n).contains(b) <==> b < n && bit(x, b as int),
    decreases n,
{
    if n > 0 {
        lemma_set_bits_below(x, n - 1);
        let shorter = set_bits_below(x, n - 1);
        let longer = set_bits_below(x, n);
        assert forall|i: int| 0 <= i < shorter.len() implies (#[trigger] shorter[i]) < n - 1 by {
            assert(shorter.contains(shorter[i]));
        }
        assert forall|b: u8| #[trigger] longer.contains(b) <==> b < n && bit(x, b as int) by {
            if bit(x, n - 1) {
                if longer.contains(b) {
                    let i = choose|i: int| 0 <= i < longer.len() && longer[i] == b;
                    if i < shorter.len() {
                        assert(shorter.contains(b)) by {
                            assert(shorter[i] == b);
                        }
                    }
                }
                if b < n && bit(x, b as int) {
                    if b == n - 1 {
                        assert(longer[longer.len() - 1] == b);
                    } else {
                        assert(shorter.contains(b));
                        let i = choose|i: int| 0 <= i < shorter.len() && shorter[i] == b;
                        assert(longer[i] == b);
                    }
                }
            } else {
                assert(longer == shorter);
                assert(shorter.contains(b) <==> b < n - 1 && bit(x, b as int));
            }
        }
    }
}

/// The set bits of `x`, in ascending order.
pub fn bit_positions(x: u64) -> (positions: Vec<u8>)
    ensures
        positions@ == set_bits(x),
{
    let mut positions: Vec<u8> = Vec::new();
    let mut i: u8 = 0;
    while i < 64
        invariant
            i <= 64,
            positions@ == set_bits_below(x, i as int),
        decreases 64 - i,
    {
        if (x >> (i as u64)) & 1 == 1 {
            positions.push(i);
        }
        i = i + 1;
    }
    positions
}

impl Failure {
    /// The bits that differ between expected and actual.
    pub open spec fn spec_xor(self) -> u64 {
        self.expected ^ self.actual
    }

    /// The bits that differ between expected and actual.
    pub fn xor(&self) -> (mask: u64)
        ensures
            mask == self.spec_xor(),
    {
        self.expected ^ self.actual
    }

    /// How many bits differ between expected and actual.
    pub fn flipped_bits(&self) -> (n: u32)
        ensures
            n == set_bits(self.spec_xor()).len(),
            n <= 64,
    {
        let x: u64 = self.xor();
        proof {
            lemma_set_bits_below(x, 64);
        }
        let mut n: u32 = 0;
        let mut i: u64 = 0;
        while i < 64
            invariant
                i <= 64,
                n <= i,
                n == set_bits_below(x, i as int).len(),
            decreases 64 - i,
        {
            if (x >> i) & 1 == 1 {
                n = n + 1;
            }
            i = i + 1;
        }
        n
    }

    /// Bit positions (0-63) that differ between expected and actual, in
    /// ascending order.
    pub fn flipped_bit_indices(&self) -> (positions: Vec<u8>)
        ensures
            positions@ == set_bits(self.spec_xor()),
            forall|b: u8| #[trigger]
                positions@.contains(b) <==> b < 64 && bit(self.spec_xor(), b as int),
    {
        proof {
            lemma_set_bits_below(self.spec_xor(), 64);
        }
        bit_positions(self.xor())
    }

    /// The line that reports this failure.
    pub open spec fn line(self) -> Seq<char> {
        "FAIL  addr=0x"@ + crate::text::hex16(self.addr as int) + (match self.phys_addr {
            Some(phys) => "  phys="@ + phys.shown(),
            None => Seq::empty(),
        }) + "  expected=0x"@ + crate::text::hex16(self.expected as int) + "  actual=0x"@
            + crate::text::hex16(self.actual as int) + "  xor=0x"@ + crate::text::hex16(
            self.spec_xor() as int,
        ) + " ("@ + crate::text::decimal(set_bits(self.spec_xor()).len() as int) + " bit(s))"@
    }

    /// The line that reports this failure.
    pub fn to_string(&self) -> (s: String)
        ensures
            s@ == self.line(),
    {
        let mut s = String::new();
        s.append("FAIL  addr=0x");
        s.append(&hex16_string(self.addr as u64));
        if let Some(phys) = self.phys_addr {
            s.append("  phys=");
            s.append(&phys.to_string());
        }
        s.append("  expected=0x");
        s.append(&hex16_string(self.expected));
        s.append("  actual=0x");
        s.append(&hex16_string(self.actual));
        s.append("  xor=0x");
        s.append(&hex16_string(self.xor()));
        s.append(" (");
        s.append(&decimal_string(self.flipped_bits() as u64));
        s.append(" bit(s))");
        assert(s@ =~= self.line());
        s
    }
}

/// The number of flipped bits is the number of positions listed, and never more
/// than a word has bits.
pub proof fn law_flipped_bits_match_indices(f: Failure)
    ensures
        set_bits(f.spec_xor()).len() <= 64,
        forall|i: int|
            0 <= i < set_bits(f.spec_xor()).len() ==> bit(
                f.spec_xor(),
                (#[trigger] set_bits(f.spec_xor())[i]) as int,
            ),
        set_bits(f.spec_xor()).no_duplicates(),
{
    let x = f.spec_xor();
    lemma_set_bits_below(x, 64);
    assert forall|i: int| 0 <= i < set_bits(x).len() implies bit(
        x,
        (#[trigger] set_bits(x)[i]) as int,
    ) by {
        assert(set_bits(x).contains(set_bits(x)[i]));
    }
}

/// A bit is set in the mask of a failure where what came back differs from what was
/// expected.
pub proof fn lemma_xor_bit(f: Failure, b: int)
    requires
        0 <= b < 64,
    ensures
        bit(f.spec_xor(), b) <==> bit(f.expected, b) != bit(f.actual, b),
{
    let e = f.expected;
    let a = f.actual;
    let n = b as u64;
    assert(((e ^ a) >> n) & 1 == 1 <==> !((e >> n) & 1 == 1 <==> (a >> n) & 1 == 1))
        by (bit_vector);
}

/// The number of flipped bits is the number of positions, of the 64 of a word, at which
/// what came back differs from what was expected.
pub proof fn law_flipped_bits_are_counted(f: Failure)
    ensures
        set_bits(f.spec_xor()).len() == Seq::new(64, |b: int| b).filter(
            |b: int| bit(f.expected, b) != bit(f.actual, b),
        ).len(),
{
    lemma_flipped_below(f, 64);
}

proof fn lemma_flipped_below(f: Failure, n: int)
    requires
        0 <= n <= 64,
    ensures
        set_bits_below(f.spec_xor(), n).len() == Seq::new(n as nat, |b: int| b).filter(
            |b: int| bit(f.expected, b) != bit(f.actual, b),
        ).len(),
    decreases n,
{
    reveal(Seq::filter);
    let all = Seq::new(n as nat, |b: int| b);
    if n > 0 {
        lemma_flipped_below(f, n - 1);
        lemma_xor_bit(f, n - 1);
        assert(all.drop_last() =~= Seq::new((n - 1) as nat, |b: int| b));
        assert(all.last() == n - 1);
    }
}

/// A cap on how many [`Failure`] records a single pattern run may collect.
///
/// On catastrophically bad memory a pattern would otherwise materialize one
/// record per failing word and exhaust RAM. The verify paths claim against this
/// budget as they go and truncate their contribution once the cap is reached.
///
/// A budget is created per pattern and shared by all its sub-passes.
#[derive(Debug)]
pub struct FailureBudget {
    /// Slots still available. `usize::MAX` means unlimited.
    remaining: usize,
    /// Set once the cap dropped at least one failure.
    dropped: bool,
}

/// The smaller of two counts.
pub open spec fn at_most(n: int, limit: int) -> int {
    if n <= limit {
        n
    } else {
        limit
    }
}

/// What a budget makes of a batch of failures: as many as it has slots are kept, the
/// slots are used up, and a failure dropped is remembered.
pub open spec fn capped(
    before: FailureBudget,
    after: FailureBudget,
    batch: Seq<Failure>,
    kept: Seq<Failure>,
) -> bool {
    &&& kept == batch.take(at_most(batch.len() as int, before.slots()))
    &&& after.slots() == before.slots() - kept.len()
    &&& after.has_overflowed() == (before.has_overflowed() || batch.len() > before.slots())
}

/// The first `n` batches, one after the other.
pub open spec fn joined(batches: Seq<Seq<Failure>>, n: int) -> Seq<Failure>
    decreases n,
{
    if n <= 0 {
        Seq::empty()
    } else {
        joined(batches, n - 1) + batches[n - 1]
    }
}

/// Batches are served in turn: of all that they hold, a budget keeps as much as it has
/// slots, the first of it first and each batch up to some point. It overflows if and
/// only if there is more than it has slots, and is used up if and only if there is as
/// much.
pub proof fn law_batches_are_served_in_turn(
    budgets: Seq<FailureBudget>,
    batches: Seq<Seq<Failure>>,
    kept: Seq<Seq<Failure>>,
)
    requires
        budgets.len() == batches.len() + 1,
        kept.len() == batches.len(),
        !budgets[0].has_overflowed(),
        forall|i: int|
            0 <= i < batches.len() ==> capped(
                budgets[i],
                budgets[i + 1],
                #[trigger] batches[i],
                kept[i],
            ),
    ensures
        ({
            let max = budgets[0].slots();
            let all = joined(batches, batches.len() as int);
            &&& joined(kept, kept.len() as int) == all.take(at_most(all.len() as int, max))
            &&& forall|i: int|
                0 <= i < kept.len() ==> (#[trigger] kept[i]).len() <= batches[i].len() && kept[i]
                    == batches[i].take(kept[i].len() as int)
            &&& budgets.last().has_overflowed() <==> all.len() > max
            &&& budgets.last().slots() == 0 <==> all.len() >= max
        }),
{
    lemma_slots_range(budgets[0]);
    lemma_served(budgets, batches, kept, batches.len() as int);
    assert forall|i: int| 0 <= i < kept.len() implies (#[trigger] kept[i]).len()
        <= batches[i].len() && kept[i] == batches[i].take(kept[i].len() as int) by {
        assert(capped(budgets[i], budgets[i + 1], batches[i], kept[i]));
        lemma_slots_range(budgets[i]);
    }
}

/// What has been served after `n` batches.
proof fn lemma_served(
    budgets: Seq<FailureBudget>,
    batches: Seq<Seq<Failure>>,
    kept: Seq<Seq<Failure>>,
    n: int,
)
    requires
        0 <= n <= batches.len(),
        budgets.len() == batches.len() + 1,
        kept.len() == batches.len(),
        !budgets[0].has_overflowed(),
        forall|i: int|
            0 <= i < batches.len() ==> capped(
                budgets[i],
                budgets[i + 1],
                #[trigger] batches[i],
                kept[i],
            ),
    ensures
        capped(budgets[0], budgets[n], joined(batches, n), joined(kept, n)),
    decreases n,
{
    lemma_slots_range(budgets[0]);
    if n == 0 {
        assert(joined(batches, 0).take(0) =~= joined(kept, 0));
    } else {
        lemma_served(budgets, batches, kept, n - 1);
        lemma_slots_range(budgets[n - 1]);
        assert(capped(budgets[n - 1], budgets[n], batches[n - 1], kept[n - 1]));
        let before = joined(batches, n - 1);
        let all = joined(batches, n);
        let max = budgets[0].slots();
        if before.len() > max {
            assert(joined(kept, n) =~= all.take(at_most(all.len() as int, max)));
        } else {
            assert(joined(kept, n - 1) =~= before);
            assert(joined(kept, n) =~= all.take(at_most(all.len() as int, max)));
        }
    }
}

/// The slots of a budget are a count.
pub proof fn lemma_slots_range(budget: FailureBudget)
    ensures
        0 <= budget.slots() <= usize::MAX,
{
}

impl FailureBudget {
    /// Slots still available.
    pub closed spec fn slots(&self) -> int {
        self.remaining as int
    }

    /// Whether the cap has dropped a failure.
    pub closed spec fn has_overflowed(&self) -> bool {
        self.dropped
    }

    /// Cap collection at `max` records. `max == 0` means unlimited.
    pub fn new(max: usize) -> (budget: Self)
        ensures
            budget.slots() == (if max == 0 {
                usize::MAX as int
            } else {
                max as int
            }),
            !budget.has_overflowed(),
    {
        FailureBudget {
            remaining: if max == 0 {
                usize::MAX
            } else {
                max
            },
            dropped: false,
        }
    }

    /// An unlimited budget that never caps.
    pub fn unlimited() -> (budget: Self)
        ensures
            budget.slots() == usize::MAX,
            !budget.has_overflowed(),
    {
        Self::new(0)
    }

    /// True once the cap has been hit and at least one failure was dropped.
    pub fn overflowed(&self) -> (b: bool)
        ensures
            b == self.has_overflowed(),
    {
        self.dropped
    }

    /// True when no slots remain, so callers can skip further verify work.
    pub fn is_exhausted(&self) -> (b: bool)
        ensures
            b == (self.slots() == 0),
    {
        self.remaining == 0
    }

    /// Truncate an independent batch of `failures` to the slots still available,
    /// marking the budget overflowed if any were dropped.
    pub fn cap(&mut self, failures: &mut Vec<Failure>)
        ensures
            capped(*old(self), *final(self), old(failures)@, final(failures)@),
    {
        let want: usize = failures.len();
        if want == 0 {
            assert(failures@ =~= failures@.take(0));
            return;
        }
        let granted: usize = self.claim(want);
        if granted < want {
            failures.truncate(granted);
            self.mark_overflow();
        }
        assert(failures@ =~= old(failures)@.take(granted as int));
    }

    /// Claim up to `want` slots, returning how many were granted.
    pub fn claim(&mut self, want: usize) -> (granted: usize)
        ensures
            granted == at_most(want as int, old(self).slots()),
            final(self).slots() == old(self).slots() - granted,
            final(self).has_overflowed() == old(self).has_overflowed(),
    {
        let granted: usize = if want <= self.remaining {
            want
        } else {
            self.remaining
        };
        self.remaining = self.remaining - granted;
        granted
    }

    /// Record that the cap dropped at least one failure.
    pub fn mark_overflow(&mut self)
        ensures
            final(self).slots() == old(self).slots(),
            final(self).has_overflowed(),
    {
        self.dropped = true;
    }
}

/// The line about a failure tells the address, what was expected, what was read, and in
/// which bits the two differ.
pub proof fn law_line_tells_the_failure(f: Failure)
    ensures
        crate::text::holds_text(f.line(), "FAIL  addr=0x"@ + crate::text::hex16(f.addr as int)),
        crate::text::holds_text(
            f.line(),
            "  expected=0x"@ + crate::text::hex16(f.expected as int),
        ),
        crate::text::holds_text(f.line(), "  actual=0x"@ + crate::text::hex16(f.actual as int)),
        crate::text::holds_text(
            f.line(),
            "  xor=0x"@ + crate::text::hex16((f.expected ^ f.actual) as int),
        ),
        crate::text::holds_text(
            f.line(),
            " ("@ + crate::text::decimal(set_bits(f.expected ^ f.actual).len() as int)
                + " bit(s))"@,
        ),
        f.phys_addr matches Some(phys) ==> crate::text::holds_text(
            f.line(),
            "  phys="@ + phys.shown(),
        ),
{
    let none = Seq::<char>::empty();
    let phys = match f.phys_addr {
        Some(phys) => "  phys="@ + phys.shown(),
        None => Seq::empty(),
    };
    let expected = crate::text::hex16(f.expected as int);
    let actual = crate::text::hex16(f.actual as int);
    let xor = crate::text::hex16(f.spec_xor() as int);
    let bits = crate::text::decimal(set_bits(f.spec_xor()).len() as int);
    let l0 = "FAIL  addr=0x"@ + crate::text::hex16(f.addr as int);
    let l1 = l0 + phys;
    let l2 = l1 + "  expected=0x"@;
    let l3 = l2 + expected;
    let l4 = l3 + "  actual=0x"@;
    let l5 = l4 + actual;
    let l6 = l5 + "  xor=0x"@;
    let l7 = l6 + xor;
    let l8 = l7 + " ("@;
    let l9 = l8 + bits;
    crate::text::lemma_text_grows(l0, phys);
    crate::text::lemma_text_grows(l1, "  expected=0x"@);
    crate::text::lemma_text_grows(l2, expected);
    crate::text::lemma_holds_pieces(l1, "  expected=0x"@, expected, none);
    crate::text::lemma_text_grows(l3, "  actual=0x"@);
    crate::text::lemma_text_grows(l4, actual);
    crate::text::lemma_holds_pieces(l3, "  actual=0x"@, actual, none);
    crate::text::lemma_text_grows(l5, "  xor=0x"@);
    crate::text::lemma_text_grows(l6, xor);
    crate::text::lemma_holds_pieces(l5, "  xor=0x"@, xor, none);
    crate::text::lemma_text_grows(l7, " ("@);
    crate::text::lemma_text_grows(l8, bits);
    crate::text::lemma_text_grows(l9, " bit(s))"@);
    crate::text::lemma_holds_pieces(l7, " ("@, bits, " bit(s))"@);
}

} // verus!
