//! The word-level routines, exposed for benchmark targets.

use vstd::prelude::*;

use crate::failure::Failure;
use crate::ops::scalar;

verus! {

/// Write `pattern` to every word.
pub fn scalar_fill_constant(buf: &mut [u64], pattern: u64)
    ensures
        final(buf)@ == Seq::new(old(buf)@.len(), scalar::same(pattern)),
{
    scalar::fill_constant(buf, pattern);
}

/// Write each word's index, counted from `start`, as its value.
pub fn scalar_fill_indexed(buf: &mut [u64], start: usize)
    requires
        start + old(buf)@.len() <= usize::MAX + 1,
    ensures
        final(buf)@ == Seq::new(old(buf)@.len(), scalar::counting(start as int)),
{
    scalar::fill_indexed(buf, start);
}

/// List the words that differ from `pattern`.
pub fn scalar_verify_constant(
    buf: &[u64],
    pattern: u64,
    base_addr: usize,
    word_start: usize,
) -> (failures: Vec<Failure>)
    requires
        base_addr + buf@.len() * 8 <= usize::MAX + 1,
        word_start + buf@.len() <= usize::MAX + 1,
    ensures
        failures@ == scalar::word_failures(
            buf@,
            scalar::same(pattern),
            base_addr as int,
            word_start as int,
            buf@.len() as int,
        ),
{
    scalar::verify_constant(buf, pattern, base_addr, word_start)
}

/// List the words that differ from their index, counted from `start`.
pub fn scalar_verify_indexed(
    buf: &[u64],
    base_addr: usize,
    start: usize,
) -> (failures: Vec<Failure>)
    requires
        base_addr + buf@.len() * 8 <= usize::MAX + 1,
        start + buf@.len() <= usize::MAX + 1,
    ensures
        failures@ == scalar::word_failures(
            buf@,
            scalar::counting(start as int),
            base_addr as int,
            start as int,
            buf@.len() as int,
        ),
{
    scalar::verify_indexed(buf, base_addr, start)
}

} // verus!
