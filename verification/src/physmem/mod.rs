//! Physical memory: page frames, their addresses, and what is known of them.

use crate::text::{self, chars_of, parse_number, split_once, strip_prefix, trim};
use vstd::prelude::*;

pub mod coverage;
pub mod devmem;
pub mod gap;
pub mod hold;
pub mod kpageflags;
pub mod lifecycle;
pub mod pfn;
pub mod phys;
pub mod sieve;
pub mod store_file;
pub mod sysmem;

verus! {

/// Bytes per page frame.
pub const PAGE_BYTES: u64 = 4096;

/// Bytes per page frame, as a length of memory.
pub const PAGE_BYTES_USIZE: usize = 4096;

/// The hexadecimal number that a text gives. A `0x` in front is passed over if
/// it is allowed.
pub open spec fn hex_in(s: Seq<char>, allow_prefix: bool) -> Option<int> {
    if allow_prefix && (text::begins_with(s, "0x"@) || text::begins_with(s, "0X"@)) {
        text::number_up_to(s.skip(2), 16, u64::MAX as int)
    } else {
        text::number_up_to(s, 16, u64::MAX as int)
    }
}

/// The two hexadecimal numbers on either side of the first hyphen.
pub open spec fn hex_range_in(s: Seq<char>, allow_prefix: bool) -> Option<(int, int)> {
    match text::split_at_first(s, '-') {
        Some((start, end)) => match (
            hex_in(text::trimmed(start), allow_prefix),
            hex_in(text::trimmed(end), allow_prefix),
        ) {
            (Some(a), Some(b)) => Some((a, b)),
            _ => None,
        },
        None => None,
    }
}

/// Read a hexadecimal number.
pub(crate) fn hex_of(s: &[char], allow_prefix: bool) -> (n: Option<u64>)
    ensures
        n is Some <==> hex_in(s@, allow_prefix) is Some,
        n matches Some(v) ==> hex_in(s@, allow_prefix) == Some(v as int),
{
    if allow_prefix {
        proof {
            reveal_strlit("0x");
            reveal_strlit("0X");
        }
        if let Some(digits) = strip_prefix(s, "0x") {
            return parse_number(&digits, 16);
        }
        if let Some(digits) = strip_prefix(s, "0X") {
            return parse_number(&digits, 16);
        }
    }
    parse_number(s, 16)
}

/// Read a hexadecimal number, with a `0x` in front if that is allowed.
#[must_use]
pub fn parse_hex(s: &str, allow_prefix: bool) -> (n: Option<u64>)
    ensures
        n is Some <==> hex_in(s@, allow_prefix) is Some,
        n matches Some(v) ==> hex_in(s@, allow_prefix) == Some(v as int),
{
    hex_of(&chars_of(s), allow_prefix)
}

/// Read two hexadecimal numbers with a hyphen between them. Nothing is said of
/// their order.
#[must_use]
pub fn parse_hex_range(s: &str, allow_prefix: bool) -> (range: Option<(u64, u64)>)
    ensures
        range is Some <==> hex_range_in(s@, allow_prefix) is Some,
        range matches Some(r) ==> hex_range_in(s@, allow_prefix) == Some((r.0 as int, r.1 as int)),
{
    match split_once(&chars_of(s), '-') {
        Some((start, end)) => {
            let a = hex_of(&trim(&start), allow_prefix);
            let b = hex_of(&trim(&end), allow_prefix);
            match (a, b) {
                (Some(a), Some(b)) => Some((a, b)),
                _ => None,
            }
        },
        None => None,
    }
}

/// An address that is written in hexadecimal reads back as itself, with `0x` in front where
/// that is allowed and without it in any case.
pub proof fn law_hex_reads_back(n: u64, allow_prefix: bool)
    ensures
        hex_in(text::hex(n as int), allow_prefix) == Some(n as int),
        hex_in("0x"@ + text::hex(n as int), true) == Some(n as int),
        hex_in("0X"@ + text::hex(n as int), true) == Some(n as int),
        text::trimmed(text::hex(n as int)) == text::hex(n as int),
        text::trimmed("0x"@ + text::hex(n as int)) == "0x"@ + text::hex(n as int),
{
    reveal_strlit("0x");
    reveal_strlit("0X");
    let s = text::hex(n as int);
    text::lemma_hex_digits(n as int);
    text::law_digits_read_back(n as int, 16);
    assert(48 <= s[0] as int <= 57 || 97 <= s[0] as int <= 102);
    assert(48 <= s[s.len() - 1] as int <= 57 || 97 <= s[s.len() - 1] as int <= 102);
    text::lemma_trimmed_whole(s);
    let low = "0x"@ + s;
    let up = "0X"@ + s;
    assert(low.take(2) =~= "0x"@);
    assert(up.take(2) =~= "0X"@);
    assert(low.skip(2) =~= s);
    assert(up.skip(2) =~= s);
    text::lemma_trimmed_whole(low);
    if s.len() >= 2 {
        assert(48 <= s[1] as int <= 57 || 97 <= s[1] as int <= 102);
        assert(s.take(2)[1] != "0x"@[1]);
        assert(s.take(2)[1] != "0X"@[1]);
    }
}

/// A range of addresses that is written in hexadecimal, with a hyphen between its ends,
/// reads back as itself.
pub proof fn law_hex_range_reads_back(start: u64, end: u64, allow_prefix: bool)
    ensures
        hex_range_in(
            text::hex(start as int) + seq!['-'] + text::hex(end as int),
            allow_prefix,
        ) == Some((start as int, end as int)),
        hex_range_in(
            "0x"@ + text::hex(start as int) + seq!['-'] + ("0x"@ + text::hex(end as int)),
            true,
        ) == Some((start as int, end as int)),
{
    reveal_strlit("0x");
    text::lemma_hex_digits(start as int);
    law_hex_reads_back(start, allow_prefix);
    law_hex_reads_back(end, allow_prefix);
    let a = text::hex(start as int);
    text::law_split_at_first(a, '-', text::hex(end as int));
    let prefixed = "0x"@ + a;
    assert forall|i: int| 0 <= i < prefixed.len() implies #[trigger] prefixed[i] != '-' by {
        if i >= 2 {
            assert(prefixed[i] == a[i - 2]);
        }
    }
    text::law_split_at_first(prefixed, '-', "0x"@ + text::hex(end as int));
}

} // verus!
