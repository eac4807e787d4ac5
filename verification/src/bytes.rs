//! Little-endian words in a byte buffer.

use vstd::prelude::*;

verus! {

/// The word whose bytes, lowest first, stand at `at`.
pub open spec fn le_word(bytes: Seq<u8>, at: int) -> u64 {
    (bytes[at] + bytes[at + 1] * 0x100 + bytes[at + 2] * 0x1_0000 + bytes[at + 3] * 0x100_0000
        + bytes[at + 4] * 0x1_0000_0000 + bytes[at + 5] * 0x100_0000_0000 + bytes[at + 6]
        * 0x1_0000_0000_0000 + bytes[at + 7] * 0x100_0000_0000_0000) as u64
}

/// Every whole word of `bytes`; bytes after the last whole word count for
/// nothing.
pub open spec fn le_words(bytes: Seq<u8>) -> Seq<u64> {
    Seq::new(bytes.len() / 8, |i: int| le_word(bytes, i * 8))
}

/// The word whose bytes, lowest first, stand at `at`.
pub fn read_le_word(bytes: &[u8], at: usize) -> (word: u64)
    requires
        at + 8 <= bytes@.len(),
    ensures
        word == le_word(bytes@, at as int),
{
    bytes[at] as u64 + bytes[at + 1] as u64 * 0x100 + bytes[at + 2] as u64 * 0x1_0000
        + bytes[at + 3] as u64 * 0x100_0000 + bytes[at + 4] as u64 * 0x1_0000_0000
        + bytes[at + 5] as u64 * 0x100_0000_0000 + bytes[at + 6] as u64 * 0x1_0000_0000_0000
        + bytes[at + 7] as u64 * 0x100_0000_0000_0000
}

/// Every whole word of `bytes`.
pub fn read_le_words(bytes: &[u8]) -> (words: Vec<u64>)
    ensures
        words@ == le_words(bytes@),
{
    let len: usize = bytes.len();
    let count: usize = len / 8;
    let mut words: Vec<u64> = Vec::new();
    let mut i: usize = 0;
    while i < count
        invariant
            i <= count,
            len == bytes@.len(),
            count == len / 8,
            words@.len() == i,
            forall|k: int| 0 <= k < i ==> #[trigger] words@[k] == le_word(bytes@, k * 8),
        decreases count - i,
    {
        words.push(read_le_word(bytes, i * 8));
        i = i + 1;
    }
    assert(words@ =~= le_words(bytes@));
    words
}

/// The bytes of a word, lowest first.
pub open spec fn le_bytes(word: u64) -> Seq<u8> {
    Seq::new(8, |i: int| ((word >> ((8 * i) as u64)) & 0xff) as u8)
}

/// The `i`-th byte of a word, lowest first.
pub fn byte_of(word: u64, i: usize) -> (b: u8)
    requires
        i < 8,
    ensures
        b == le_bytes(word)[i as int],
{
    let shift: u64 = 8 * i as u64;
    let low: u64 = (word >> shift) & 0xff;
    assert((word >> shift) & 0xff <= 0xff) by (bit_vector);
    low as u8
}

/// A word taken apart into bytes is put together again.
pub proof fn law_word_reads_back(word: u64)
    ensures
        le_bytes(word).len() == 8,
        le_word(le_bytes(word), 0) == word,
{
    let b = le_bytes(word);
    assert(word == ((word >> 0u64) & 0xff) as u8 + ((word >> 8u64) & 0xff) as u8 * 0x100 + ((word
        >> 16u64) & 0xff) as u8 * 0x1_0000 + ((word >> 24u64) & 0xff) as u8 * 0x100_0000 + ((word
        >> 32u64) & 0xff) as u8 * 0x1_0000_0000 + ((word >> 40u64) & 0xff) as u8 * 0x100_0000_0000
        + ((word >> 48u64) & 0xff) as u8 * 0x1_0000_0000_0000 + ((word >> 56u64) & 0xff) as u8
        * 0x100_0000_0000_0000) by (bit_vector);
}

/// Words stand one behind the other, eight bytes each, and only what is no whole word is
/// left over.
pub proof fn law_words_stand_in_a_row(front: Seq<u8>, word: u64, behind: Seq<u8>)
    requires
        front.len() % 8 == 0,
    ensures
        le_words(front + le_bytes(word) + behind).len() == le_words(front).len() + 1
            + behind.len() / 8,
        le_words(front + le_bytes(word) + behind)[le_words(front).len() as int] == word,
{
    let all = front + le_bytes(word) + behind;
    let at = front.len() as int;
    law_word_reads_back(word);
    let b = le_bytes(word);
    assert(all[at] == b[0] && all[at + 1] == b[1] && all[at + 2] == b[2] && all[at + 3] == b[3]
        && all[at + 4] == b[4] && all[at + 5] == b[5] && all[at + 6] == b[6] && all[at + 7]
        == b[7]);
    assert(le_word(all, at) == le_word(b, 0));
    assert((at / 8) * 8 == at);
}

} // verus!
