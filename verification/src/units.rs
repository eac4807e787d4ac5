//! How quantities are written for a reader.

use crate::results::json::{self, Json};
use crate::text::{self, decimal_string, pad_zeros};
use vstd::prelude::*;
use vstd::string::StringExecFns;

verus! {

/// A way to write quantities.
///
/// Each way says for itself how its texts read, unless it is ordinary Rust code.
pub trait Units {
    /// How a number of bytes reads.
    open spec fn size_text(&self, bytes: u64) -> Seq<char> {
        Seq::empty()
    }

    /// How a number of bytes reads, to one place.
    open spec fn rounded_size_text(&self, bytes: u64) -> Seq<char> {
        Seq::empty()
    }

    /// How a number of things reads.
    open spec fn count_text(&self, n: u64) -> Seq<char> {
        Seq::empty()
    }

    /// How a part of a whole reads.
    open spec fn percent_text(&self, part: u64, whole: u64) -> Seq<char> {
        Seq::empty()
    }

    /// How a part of a whole reads, to one place.
    open spec fn rounded_percent_text(&self, part: u64, whole: u64) -> Seq<char> {
        Seq::empty()
    }

    /// How a time reads that stands in a document in milliseconds.
    open spec fn elapsed_text(&self, elapsed: Option<Json>) -> Seq<char> {
        Seq::empty()
    }

    /// How bytes over such a time read.
    open spec fn rate_text(&self, bytes: u64, elapsed: Option<Json>) -> Seq<char> {
        Seq::empty()
    }

    /// How a time in nanoseconds reads, in milliseconds.
    open spec fn millis_text(&self, nanos: u64) -> Seq<char> {
        Seq::empty()
    }

    /// How bytes over such a time read.
    open spec fn throughput_text(&self, bytes: u64, nanos: u64) -> Seq<char> {
        Seq::empty()
    }

    /// A time in milliseconds, as a number is written in JSON.
    open spec fn millis_number_text(&self, nanos: u64) -> Seq<char> {
        Seq::empty()
    }

    /// Write a number of bytes.
    fn size(&self, bytes: u64) -> (s: String)
        ensures
            s@ == self.size_text(bytes),
    ;

    /// Write a number of bytes, to one place.
    fn rounded_size(&self, bytes: u64) -> (s: String)
        ensures
            s@ == self.rounded_size_text(bytes),
    ;

    /// Write a number of things.
    fn count(&self, n: u64) -> (s: String)
        ensures
            s@ == self.count_text(n),
    ;

    /// Write a part of a whole.
    fn percent(&self, part: u64, whole: u64) -> (s: String)
        ensures
            s@ == self.percent_text(part, whole),
    ;

    /// Write a part of a whole, to one place.
    fn rounded_percent(&self, part: u64, whole: u64) -> (s: String)
        ensures
            s@ == self.rounded_percent_text(part, whole),
    ;

    /// Write a time that stands in a document in milliseconds.
    fn elapsed(&self, elapsed: Option<&Json>) -> (s: String)
        ensures
            s@ == self.elapsed_text(json::node_of(elapsed)),
    ;

    /// Write bytes over such a time.
    fn rate(&self, bytes: u64, elapsed: Option<&Json>) -> (s: String)
        ensures
            s@ == self.rate_text(bytes, json::node_of(elapsed)),
    ;

    /// Write a time in nanoseconds, in milliseconds.
    fn millis(&self, nanos: u64) -> (s: String)
        ensures
            s@ == self.millis_text(nanos),
    ;

    /// Write bytes over such a time.
    fn throughput(&self, bytes: u64, nanos: u64) -> (s: String)
        ensures
            s@ == self.throughput_text(bytes, nanos),
    ;

    /// A time in milliseconds, as a number is written in JSON.
    fn millis_number(&self, nanos: u64) -> (s: String)
        ensures
            s@ == self.millis_number_text(nanos),
    ;
}

/// Quantities in whole numbers, for logs and tools that read them back.
#[derive(Debug, Clone, Copy)]
pub struct PlainUnits;

/// The number of milliseconds that stands in a document, as it is written.
pub open spec fn written_millis(elapsed: Option<Json>) -> Seq<char> {
    match elapsed {
        Some(Json::Unsigned(n)) => text::decimal(n as int),
        Some(Json::Number(s)) => s@,
        _ => "0"@,
    }
}

impl PlainUnits {
    /// A number and its unit.
    fn with_unit(n: u64, unit: &str) -> (s: String)
        ensures
            s@ == text::decimal(n as int) + unit@,
    {
        let mut s = String::new();
        s.append(&decimal_string(n));
        s.append(unit);
        assert(s@ =~= text::decimal(n as int) + unit@);
        s
    }

    /// The number of milliseconds that stands in a document.
    fn written(elapsed: Option<&Json>) -> (s: String)
        ensures
            s@ == written_millis(json::node_of(elapsed)),
    {
        match elapsed {
            Some(Json::Unsigned(n)) => decimal_string(*n),
            Some(Json::Number(s)) => s.clone(),
            _ => "0".to_owned(),
        }
    }
}

impl Units for PlainUnits {
    open spec fn size_text(&self, bytes: u64) -> Seq<char> {
        text::decimal(bytes as int) + " B"@
    }

    open spec fn rounded_size_text(&self, bytes: u64) -> Seq<char> {
        self.size_text(bytes)
    }

    open spec fn count_text(&self, n: u64) -> Seq<char> {
        text::decimal(n as int)
    }

    open spec fn percent_text(&self, part: u64, whole: u64) -> Seq<char> {
        text::decimal(part as int) + " of "@ + text::decimal(whole as int)
    }

    open spec fn rounded_percent_text(&self, part: u64, whole: u64) -> Seq<char> {
        self.percent_text(part, whole)
    }

    open spec fn elapsed_text(&self, elapsed: Option<Json>) -> Seq<char> {
        written_millis(elapsed) + " ms"@
    }

    open spec fn rate_text(&self, bytes: u64, elapsed: Option<Json>) -> Seq<char> {
        text::decimal(bytes as int) + " B in "@ + written_millis(elapsed) + " ms"@
    }

    open spec fn millis_text(&self, nanos: u64) -> Seq<char> {
        text::decimal(nanos as int / 1_000_000)
    }

    open spec fn throughput_text(&self, bytes: u64, nanos: u64) -> Seq<char> {
        text::decimal(bytes as int) + " B in "@ + text::decimal(nanos as int) + " ns"@
    }

    open spec fn millis_number_text(&self, nanos: u64) -> Seq<char> {
        text::decimal(nanos as int / 1_000_000) + "."@ + text::zero_padded(
            text::decimal(nanos as int % 1_000_000),
            6,
        )
    }

    fn size(&self, bytes: u64) -> (s: String) {
        Self::with_unit(bytes, " B")
    }

    fn rounded_size(&self, bytes: u64) -> (s: String) {
        self.size(bytes)
    }

    fn count(&self, n: u64) -> (s: String) {
        decimal_string(n)
    }

    fn percent(&self, part: u64, whole: u64) -> (s: String) {
        let mut s = Self::with_unit(part, " of ");
        s.append(&decimal_string(whole));
        s
    }

    fn rounded_percent(&self, part: u64, whole: u64) -> (s: String) {
        self.percent(part, whole)
    }

    fn elapsed(&self, elapsed: Option<&Json>) -> (s: String) {
        let mut s = Self::written(elapsed);
        s.append(" ms");
        s
    }

    fn rate(&self, bytes: u64, elapsed: Option<&Json>) -> (s: String) {
        let mut s = Self::with_unit(bytes, " B in ");
        s.append(&Self::written(elapsed));
        s.append(" ms");
        assert(s@ =~= self.rate_text(bytes, json::node_of(elapsed)));
        s
    }

    fn millis(&self, nanos: u64) -> (s: String) {
        decimal_string(nanos / 1_000_000)
    }

    fn throughput(&self, bytes: u64, nanos: u64) -> (s: String) {
        let mut s = Self::with_unit(bytes, " B in ");
        s.append(&decimal_string(nanos));
        s.append(" ns");
        assert(s@ =~= self.throughput_text(bytes, nanos));
        s
    }

    fn millis_number(&self, nanos: u64) -> (s: String) {
        let mut s = decimal_string(nanos / 1_000_000);
        s.append(".");
        s.append(&pad_zeros(&decimal_string(nanos % 1_000_000), 6));
        assert(s@ =~= self.millis_number_text(nanos));
        s
    }
}

/// Plain milliseconds are whole ones, what is left over of a time cut off; as a number in a
/// document they are followed by the rest in nanoseconds, six digits of it, so that the
/// time can be told from it.
pub proof fn law_plain_time_reads_back(nanos: u64)
    ensures
        text::number_in(PlainUnits.millis_text(nanos), 10) matches Some(ms) && ms * 1_000_000
            <= nanos < (ms + 1) * 1_000_000,
        text::split_at_first(PlainUnits.millis_number_text(nanos), '.') matches Some((ms, rest))
            && rest.len() == 6 && (text::digits_value(ms, 10) matches Some(a)
            && text::digits_value(rest, 10) matches Some(b) && a * 1_000_000 + b == nanos),
{
    let ms = nanos as int / 1_000_000;
    let rest = nanos as int % 1_000_000;
    let whole = text::decimal(ms);
    text::lemma_decimal_digits(ms);
    text::law_digits_read_back(ms, 10);
    assert(48 <= whole[0] as int <= 57);
    text::law_digits_read_back(rest, 10);
    text::lemma_six_digits(rest);
    let part = text::decimal(rest);
    let padded = text::zero_padded(part, 6);
    if part.len() < 6 {
        text::lemma_zeros_in_front(part, (6 - part.len()) as nat, 10);
    }
    reveal_strlit(".");
    assert("."@ =~= seq!['.']);
    assert forall|i: int| 0 <= i < whole.len() implies #[trigger] whole[i] != '.' by {
        assert(48 <= whole[i] as int <= 57);
    }
    text::law_split_at_first(whole, '.', padded);
}

/// Plain quantities are the numbers themselves, with a unit behind them.
pub proof fn law_plain_quantities_read_back(n: u64, whole: u64)
    ensures
        text::words_from(PlainUnits.size_text(n), 0) == seq![text::decimal(n as int), "B"@],
        text::words_from(PlainUnits.percent_text(n, whole), 0) == seq![
            text::decimal(n as int),
            "of"@,
            text::decimal(whole as int),
        ],
        PlainUnits.rounded_size_text(n) == PlainUnits.size_text(n),
        PlainUnits.rounded_percent_text(n, whole) == PlainUnits.percent_text(n, whole),
        text::digits_value(PlainUnits.count_text(n), 10) == Some(n as int),
{
    let s = text::decimal(n as int);
    let t = text::decimal(whole as int);
    text::lemma_decimal_digits(n as int);
    text::lemma_decimal_digits(whole as int);
    text::law_digits_read_back(n as int, 10);
    assert forall|i: int| 0 <= i < s.len() implies !text::is_blank(#[trigger] s[i]) by {
        assert(48 <= s[i] as int <= 57);
    }
    assert forall|i: int| 0 <= i < t.len() implies !text::is_blank(#[trigger] t[i]) by {
        assert(48 <= t[i] as int <= 57);
    }
    reveal_strlit(" B");
    reveal_strlit("B");
    reveal_strlit(" of ");
    reveal_strlit("of");
    assert(" B"@ =~= seq![' '] + "B"@);
    assert(s + " B"@ =~= s + seq![' '] + "B"@);
    text::law_words_follow_each_other(s, ' ', "B"@);
    text::law_words_follow_each_other("B"@, ' ', s);
    assert(text::words_from(s + " B"@, 0) =~= seq![s, "B"@]);
    let rest = "of"@ + seq![' '] + t;
    assert(s + " of "@ + t =~= s + seq![' '] + rest);
    text::law_words_follow_each_other(s, ' ', rest);
    text::law_words_follow_each_other("of"@, ' ', t);
    text::law_words_follow_each_other(t, ' ', s);
    assert(text::words_from(s + " of "@ + t, 0) =~= seq![s, "of"@, t]);
}

} // verus!
