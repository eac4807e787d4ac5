//! Eight words at a time, as a 512-bit register holds them.
//!
//! A block of eight words is first compared as a whole; records are only built
//! for a block that differs, which on healthy hardware is almost never.

use vstd::prelude::*;

use crate::failure::Failure;
use crate::ops::scalar;

verus! {

/// Words per register.
pub const LANES: usize = 8;

/// Write `pattern` to every word.
pub fn fill_nt(buf: &mut [u64], pattern: u64)
    ensures
        final(buf)@ == Seq::new(old(buf)@.len(), scalar::same(pattern)),
{
    scalar::fill_constant(buf, pattern)
}

/// Write each word's index, counted from `start`, as its value.
pub fn fill_nt_indexed(buf: &mut [u64], start: usize)
    requires
        start + old(buf)@.len() <= usize::MAX + 1,
    ensures
        final(buf)@ == Seq::new(old(buf)@.len(), scalar::counting(start as int)),
{
    scalar::fill_indexed(buf, start)
}

/// Equal words add no record.
proof fn lemma_equal_words_skip(
    words: Seq<u64>,
    expected: spec_fn(int) -> u64,
    base: int,
    start: int,
    from: int,
    to: int,
)
    requires
        0 <= from <= to,
        forall|i: int| from <= i < to ==> #[trigger] words[i] == expected(i),
    ensures
        scalar::word_failures(words, expected, base, start, to) == scalar::word_failures(
            words,
            expected,
            base,
            start,
            from,
        ),
    decreases to,
{
    if from < to {
        lemma_equal_words_skip(words, expected, base, start, from, to - 1);
        assert(words[to - 1] == expected(to - 1));
    }
}

/// List the words that differ from `pattern`. `word_off` is the index of the
/// first word in the whole buffer, whose first word is at `base_addr`.
pub fn verify_avx512(
    buf: &[u64],
    pattern: u64,
    base_addr: usize,
    word_off: usize,
) -> (failures: Vec<Failure>)
    requires
        base_addr + (word_off + buf@.len()) * 8 <= usize::MAX + 1,
    ensures
        failures@ == scalar::word_failures(
            buf@,
            scalar::same(pattern),
            base_addr + word_off * 8,
            word_off as int,
            buf@.len() as int,
        ),
{
    let len: usize = buf.len();
    let ghost expected = scalar::same(pattern);
    let ghost base = base_addr + word_off * 8;
    let mut failures: Vec<Failure> = Vec::new();
    let mut i: usize = 0;
    while i < len
        invariant
            i <= len,
            len == buf@.len(),
            base_addr + (word_off + len) * 8 <= usize::MAX + 1,
            base == base_addr + word_off * 8,
            expected == scalar::same(pattern),
            failures@ == scalar::word_failures(buf@, expected, base, word_off as int, i as int),
        decreases len - i,
    {
        let end: usize = if len - i < LANES {
            len
        } else {
            i + LANES
        };
        let mut equal: bool = true;
        let mut j: usize = i;
        while j < end
            invariant
                i <= j <= end <= len,
                len == buf@.len(),
                equal == (forall|k: int| i <= k < j ==> #[trigger] buf@[k] == pattern),
            decreases end - j,
        {
            if buf[j] != pattern {
                equal = false;
            }
            j = j + 1;
        }
        if equal {
            proof {
                lemma_equal_words_skip(
                    buf@,
                    expected,
                    base,
                    word_off as int,
                    i as int,
                    end as int,
                );
            }
        } else {
            let mut k: usize = i;
            while k < end
                invariant
                    i <= k <= end <= len,
                    len == buf@.len(),
                    base_addr + (word_off + len) * 8 <= usize::MAX + 1,
                    base == base_addr + word_off * 8,
                    expected == scalar::same(pattern),
                    failures@ == scalar::word_failures(
                        buf@,
                        expected,
                        base,
                        word_off as int,
                        k as int,
                    ),
                decreases end - k,
            {
                let actual: u64 = buf[k];
                if actual != pattern {
                    let word_index: usize = word_off + k;
                    failures.push(
                        Failure {
                            addr: base_addr + word_index * 8,
                            expected: pattern,
                            actual,
                            word_index,
                            phys_addr: None,
                        },
                    );
                }
                k = k + 1;
            }
        }
        i = end;
    }
    failures
}

/// List the words that differ from their index in the whole buffer, whose first
/// word is at `base_addr`.
pub fn verify_indexed_avx512(
    buf: &[u64],
    base_addr: usize,
    word_off: usize,
) -> (failures: Vec<Failure>)
    requires
        base_addr + (word_off + buf@.len()) * 8 <= usize::MAX + 1,
    ensures
        failures@ == scalar::word_failures(
            buf@,
            scalar::counting(word_off as int),
            base_addr + word_off * 8,
            word_off as int,
            buf@.len() as int,
        ),
{
    let len: usize = buf.len();
    let ghost expected = scalar::counting(word_off as int);
    let ghost base = base_addr + word_off * 8;
    let mut failures: Vec<Failure> = Vec::new();
    let mut i: usize = 0;
    while i < len
        invariant
            i <= len,
            len == buf@.len(),
            base_addr + (word_off + len) * 8 <= usize::MAX + 1,
            base == base_addr + word_off * 8,
            expected == scalar::counting(word_off as int),
            failures@ == scalar::word_failures(buf@, expected, base, word_off as int, i as int),
        decreases len - i,
    {
        let end: usize = if len - i < LANES {
            len
        } else {
            i + LANES
        };
        let mut equal: bool = true;
        let mut j: usize = i;
        while j < end
            invariant
                i <= j <= end <= len,
                len == buf@.len(),
                base_addr + (word_off + len) * 8 <= usize::MAX + 1,
                expected == scalar::counting(word_off as int),
                equal == (forall|k: int| i <= k < j ==> #[trigger] buf@[k] == expected(k)),
            decreases end - j,
        {
            if buf[j] != (word_off + j) as u64 {
                assert(buf@[j as int] != expected(j as int));
                equal = false;
            }
            j = j + 1;
        }
        if equal {
            proof {
                lemma_equal_words_skip(
                    buf@,
                    expected,
                    base,
                    word_off as int,
                    i as int,
                    end as int,
                );
            }
        } else {
            let mut k: usize = i;
            while k < end
                invariant
                    i <= k <= end <= len,
                    len == buf@.len(),
                    base_addr + (word_off + len) * 8 <= usize::MAX + 1,
                    base == base_addr + word_off * 8,
                    expected == scalar::counting(word_off as int),
                    failures@ == scalar::word_failures(
                        buf@,
                        expected,
                        base,
                        word_off as int,
                        k as int,
                    ),
                decreases end - k,
            {
                let word_index: usize = word_off + k;
                let actual: u64 = buf[k];
                if actual != word_index as u64 {
                    failures.push(
                        Failure {
                            addr: base_addr + word_index * 8,
                            expected: word_index as u64,
                            actual,
                            word_index,
                            phys_addr: None,
                        },
                    );
                }
                k = k + 1;
            }
        }
        i = end;
    }
    failures
}

} // verus!
