//! Word by word over a slice: fill it, or list what is not as it should be.

use vstd::prelude::*;

use crate::failure::Failure;

verus! {

/// The records of the words among the first `n` that differ from `expected`,
/// with the slice starting at address `base` and at word `start` of the whole
/// buffer.
pub open spec fn word_failures(
    words: Seq<u64>,
    expected: spec_fn(int) -> u64,
    base: int,
    start: int,
    n: int,
) -> Seq<Failure>
    decreases n,
{
    if n <= 0 {
        Seq::empty()
    } else {
        let rest = word_failures(words, expected, base, start, n - 1);
        let i = n - 1;
        if words[i] == expected(i) {
            rest
        } else {
            rest.push(
                Failure {
                    addr: (base + i * 8) as usize,
                    expected: expected(i),
                    actual: words[i],
                    word_index: (start + i) as usize,
                    phys_addr: None,
                },
            )
        }
    }
}

/// The same word at each index.
pub open spec fn same(word: u64) -> spec_fn(int) -> u64 {
    |i: int| word
}

/// Each index, counted from `start`, as a word.
pub open spec fn counting(start: int) -> spec_fn(int) -> u64 {
    |i: int| (start + i) as u64
}

/// Write `pattern` to every word.
pub fn fill_constant(buf: &mut [u64], pattern: u64)
    ensures
        final(buf)@ == Seq::new(old(buf)@.len(), same(pattern)),
{
    let len: usize = buf.len();
    let mut i: usize = 0;
    while i < len
        invariant
            i <= len,
            len == buf@.len(),
            len == old(buf)@.len(),
            forall|k: int| 0 <= k < i ==> #[trigger] buf@[k] == pattern,
        decreases len - i,
    {
        buf[i] = pattern;
        i = i + 1;
    }
    assert(buf@ =~= Seq::new(old(buf)@.len(), same(pattern)));
}

/// List the words that differ from `pattern`.
///
/// `word_start` is added to each record's word index, so that callers can pass
/// the offset of a chunk.
pub fn verify_constant(
    buf: &[u64],
    pattern: u64,
    base_addr: usize,
    word_start: usize,
) -> (failures: Vec<Failure>)
    requires
        base_addr + buf@.len() * 8 <= usize::MAX + 1,
        word_start + buf@.len() <= usize::MAX + 1,
    ensures
        failures@ == word_failures(
            buf@,
            same(pattern),
            base_addr as int,
            word_start as int,
            buf@.len() as int,
        ),
{
    let mut failures: Vec<Failure> = Vec::new();
    let mut i: usize = 0;
    while i < buf.len()
        invariant
            i <= buf@.len(),
            base_addr + buf@.len() * 8 <= usize::MAX + 1,
            word_start + buf@.len() <= usize::MAX + 1,
            failures@ == word_failures(
                buf@,
                same(pattern),
                base_addr as int,
                word_start as int,
                i as int,
            ),
        decreases buf@.len() - i,
    {
        let actual: u64 = buf[i];
        if actual != pattern {
            failures.push(
                Failure {
                    addr: base_addr + i * 8,
                    expected: pattern,
                    actual,
                    word_index: word_start + i,
                    phys_addr: None,
                },
            );
        }
        i = i + 1;
    }
    failures
}

/// Write each word's index, counted from `start`, as its value.
pub fn fill_indexed(buf: &mut [u64], start: usize)
    requires
        start + old(buf)@.len() <= usize::MAX + 1,
    ensures
        final(buf)@ == Seq::new(old(buf)@.len(), counting(start as int)),
{
    let len: usize = buf.len();
    let mut i: usize = 0;
    while i < len
        invariant
            i <= len,
            len == buf@.len(),
            len == old(buf)@.len(),
            start + len <= usize::MAX + 1,
            forall|k: int| 0 <= k < i ==> #[trigger] buf@[k] == (start + k) as u64,
        decreases len - i,
    {
        buf[i] = (start + i) as u64;
        i = i + 1;
    }
    assert(buf@ =~= Seq::new(old(buf)@.len(), counting(start as int)));
}

/// List the words that differ from their index, counted from `start`.
pub fn verify_indexed(buf: &[u64], base_addr: usize, start: usize) -> (failures: Vec<Failure>)
    requires
        base_addr + buf@.len() * 8 <= usize::MAX + 1,
        start + buf@.len() <= usize::MAX + 1,
    ensures
        failures@ == word_failures(
            buf@,
            counting(start as int),
            base_addr as int,
            start as int,
            buf@.len() as int,
        ),
{
    let mut failures: Vec<Failure> = Vec::new();
    let mut i: usize = 0;
    while i < buf.len()
        invariant
            i <= buf@.len(),
            base_addr + buf@.len() * 8 <= usize::MAX + 1,
            start + buf@.len() <= usize::MAX + 1,
            failures@ == word_failures(
                buf@,
                counting(start as int),
                base_addr as int,
                start as int,
                i as int,
            ),
        decreases buf@.len() - i,
    {
        let expected: u64 = (start + i) as u64;
        let actual: u64 = buf[i];
        if actual != expected {
            failures.push(
                Failure {
                    addr: base_addr + i * 8,
                    expected,
                    actual,
                    word_index: start + i,
                    phys_addr: None,
                },
            );
        }
        i = i + 1;
    }
    failures
}

/// A slice filled with a word has no word that differs from it.
pub proof fn law_filled_slice_verifies(expected: spec_fn(int) -> u64, len: nat, base: int, start: int, n: int)
    requires
        0 <= n <= len,
    ensures
        word_failures(Seq::new(len, expected), expected, base, start, n) == Seq::<Failure>::empty(),
    decreases n,
{
    if n > 0 {
        law_filled_slice_verifies(expected, len, base, start, n - 1);
    }
}

/// There is a record for exactly each word that differs, in address order.
pub proof fn law_one_record_per_difference(
    words: Seq<u64>,
    expected: spec_fn(int) -> u64,
    base: int,
    start: int,
    n: int,
)
    requires
        0 <= n <= words.len(),
        0 <= start,
        start + words.len() <= usize::MAX + 1,
    ensures
        word_failures(words, expected, base, start, n).len() <= n,
        forall|k: int|
            0 <= k < word_failures(words, expected, base, start, n).len() ==> {
                let f = #[trigger] word_failures(words, expected, base, start, n)[k];
                let i = f.word_index - start;
                &&& 0 <= i < n && f.actual == words[i] && f.expected == expected(i) && f.actual
                    != f.expected
                &&& 0 <= base && base + 8 * words.len() <= usize::MAX + 1 ==> f.addr == base + 8 * i
            },
        forall|i: int|
            0 <= i < n && #[trigger] words[i] != expected(i) ==> exists|k: int|
                0 <= k < word_failures(words, expected, base, start, n).len()
                    && #[trigger] word_failures(words, expected, base, start, n)[k].word_index
                    == start + i,
        forall|k: int, l: int|
            0 <= k < l < word_failures(words, expected, base, start, n).len() ==> (
            #[trigger] word_failures(words, expected, base, start, n)[k]).word_index < (
            #[trigger] word_failures(words, expected, base, start, n)[l]).word_index,
    decreases n,
{
    if n > 0 {
        law_one_record_per_difference(words, expected, base, start, n - 1);
        let rest = word_failures(words, expected, base, start, n - 1);
        let all = word_failures(words, expected, base, start, n);
        assert forall|k: int| 0 <= k < all.len() implies {
            let f = #[trigger] all[k];
            let i = f.word_index - start;
            &&& 0 <= i < n && f.actual == words[i] && f.expected == expected(i) && f.actual
                != f.expected
            &&& 0 <= base && base + 8 * words.len() <= usize::MAX + 1 ==> f.addr == base + 8 * i
        } by {
            if k < rest.len() {
                assert(all[k] == rest[k]);
            }
        }
        assert forall|i: int| 0 <= i < n && #[trigger] words[i] != expected(i) implies exists|k: int|
            0 <= k < all.len() && #[trigger] all[k].word_index == start + i by {
            if i < n - 1 {
                let k = choose|k: int|
                    0 <= k < rest.len() && #[trigger] rest[k].word_index == start + i;
                assert(all[k].word_index == start + i);
            } else {
                assert(all[all.len() - 1].word_index == start + i);
            }
        }
        assert forall|k: int, l: int| 0 <= k < l < all.len() implies (
        #[trigger] all[k]).word_index < (#[trigger] all[l]).word_index by {
            assert(all[k] == rest[k]);
            if l < rest.len() {
                assert(all[l] == rest[l]);
            }
        }
    }
}

} // verus!
