//! The results of a run as a document, and what can be read from it.
//!
//! A document comes from a run that has just ended or from a file of an earlier
//! one, so everything in it may be missing.

use crate::physmem::phys::{IoFailure, IoKind};
use crate::text::{self, decimal_string, join, same_text};
use vstd::prelude::*;
use vstd::string::StringExecFns;

pub mod document;
pub mod json;
pub mod render;
pub mod serial;

use json::{
    as_flag, as_list, as_object, as_text, as_unsigned, as_unsigned_or_zero, get, Json,
};
use serial::read_json;

verus! {

/// The results of a run.
#[derive(Debug)]
pub struct ResultsDoc {
    pub json: Json,
}

impl ResultsDoc {
    /// The whole document.
    pub open spec fn root(&self) -> Option<Json> {
        Some(self.json)
    }

    /// The document that a JSON value is.
    #[must_use]
    pub fn from_json(json: Json) -> (doc: Self)
        ensures
            doc.json == json,
    {
        ResultsDoc { json }
    }

    /// The document that a file tells, given what came of reading it.
    pub fn from_file(contents: Result<String, IoFailure>) -> (r: Result<Self, IoFailure>)
        ensures
            match contents {
                Ok(text) => match serial::told_in(text@) {
                    Ok(tree) => r matches Ok(doc) && serial::shows(doc.json, tree),
                    Err(complaint) => r matches Err(e) && e.kind == IoKind::InvalidData
                        && e.message@ == complaint,
                },
                Err(e) => r == Err::<Self, IoFailure>(e),
            },
    {
        match contents {
            Ok(text) => match read_json(&text) {
                Ok(json) => Ok(ResultsDoc { json }),
                Err(message) => Err(IoFailure { kind: IoKind::InvalidData, message }),
            },
            Err(e) => Err(e),
        }
    }

    /// How many failures there were in all.
    #[must_use]
    pub fn total_failures(&self) -> (n: u64)
        ensures
            n == json::unsigned_or_zero(json::member(self.root(), "total_failures"@)),
    {
        as_unsigned_or_zero(get(Some(&self.json), "total_failures"))
    }

    /// How long the run took, as it stands in the document.
    #[must_use]
    pub fn elapsed(&self) -> (node: Option<&Json>)
        ensures
            json::node_of(node) == json::member(self.root(), "elapsed"@),
    {
        get(Some(&self.json), "elapsed")
    }

    /// The passes.
    pub fn passes(&self) -> (passes: Vec<PassDoc<'_>>)
        ensures
            passes@.len() == json::items_in(json::member(self.root(), "passes"@)).len(),
            forall|i: int|
                0 <= i < passes@.len() ==> *(#[trigger] passes@[i]).json == json::items_in(
                    json::member(self.root(), "passes"@),
                )[i],
    {
        let mut passes: Vec<PassDoc<'_>> = Vec::new();
        if let Some(items) = as_list(get(Some(&self.json), "passes")) {
            let mut i: usize = 0;
            while i < items.len()
                invariant
                    i <= items@.len(),
                    passes@.len() == i,
                    forall|k: int| 0 <= k < i ==> *(#[trigger] passes@[k]).json == items@[k],
                decreases items@.len() - i,
            {
                passes.push(PassDoc { json: &items[i] });
                i = i + 1;
            }
        }
        passes
    }

    /// What kind of errors there were, if the document says.
    #[must_use]
    pub fn error_analysis(&self) -> (analysis: Option<ErrorAnalysisDoc<'_>>)
        ensures
            analysis is Some <==> json::is_object(json::member(self.root(), "error_analysis"@)),
            analysis matches Some(a) ==> Some(*a.json) == json::member(
                self.root(),
                "error_analysis"@,
            ),
    {
        match as_object(get(Some(&self.json), "error_analysis")) {
            Some(json) => Some(ErrorAnalysisDoc { json }),
            None => None,
        }
    }

    /// What the run was to do.
    #[must_use]
    pub fn config(&self) -> (config: ConfigDoc<'_>)
        ensures
            json::node_of(config.json) == json::member(self.root(), "config"@),
    {
        ConfigDoc { json: get(Some(&self.json), "config") }
    }

    /// How much of the memory was tested, if the document says.
    #[must_use]
    pub fn coverage(&self) -> (coverage: Option<CoverageDoc<'_>>)
        ensures
            coverage is Some <==> json::is_object(json::member(self.root(), "coverage"@)),
            coverage matches Some(c) ==> Some(*c.json) == json::member(self.root(), "coverage"@),
    {
        match as_object(get(Some(&self.json), "coverage")) {
            Some(json) => Some(CoverageDoc { json }),
            None => None,
        }
    }

    /// The JSON value of the document.
    #[must_use]
    pub fn as_value(&self) -> (json: &Json)
        ensures
            *json == self.json,
    {
        &self.json
    }
}

/// One pass of a run.
#[derive(Debug)]
pub struct PassDoc<'a> {
    pub json: &'a Json,
}

/// How many failures a pattern's results list.
pub open spec fn failures_listed(pattern: Json) -> int {
    json::items_in(json::member(Some(pattern), "failures"@)).len() as int
}

/// How many failures the first `n` patterns' results list.
pub open spec fn failures_among(patterns: Seq<Json>, n: int) -> int
    decreases n,
{
    if n <= 0 {
        0
    } else {
        failures_among(patterns, n - 1) + failures_listed(patterns[n - 1])
    }
}

/// More patterns have no fewer failures.
pub proof fn lemma_failures_grow(patterns: Seq<Json>, k: int, n: int)
    requires
        k <= n,
    ensures
        failures_among(patterns, k) <= failures_among(patterns, n),
    decreases n - k,
{
    if k < n {
        lemma_failures_grow(patterns, k, n - 1);
    }
}

impl<'a> PassDoc<'a> {
    /// The results of the patterns.
    pub open spec fn patterns(&self) -> Seq<Json> {
        json::items_in(json::member(Some(*self.json), "pattern_results"@))
    }

    /// How many failures there were in the pass.
    pub open spec fn failures(&self) -> int {
        failures_among(self.patterns(), self.patterns().len() as int)
    }

    /// The number of the pass.
    #[must_use]
    pub fn pass_number(&self) -> (n: u64)
        ensures
            n == json::unsigned_or_zero(json::member(Some(*self.json), "pass_number"@)),
    {
        as_unsigned_or_zero(get(Some(self.json), "pass_number"))
    }

    /// How many failures there were in the pass.
    #[must_use]
    pub fn total_failures(&self) -> (n: u64)
        requires
            self.failures() <= u64::MAX,
        ensures
            n == self.failures(),
    {
        let patterns = self.pattern_results();
        let ghost all = self.patterns();
        let mut n: u64 = 0;
        let mut i: usize = 0;
        while i < patterns.len()
            invariant
                i <= patterns@.len(),
                all == self.patterns(),
                patterns@.len() == all.len(),
                forall|k: int| 0 <= k < patterns@.len() ==> *(#[trigger] patterns@[k]).json
                    == all[k],
                self.failures() <= u64::MAX,
                n == failures_among(all, i as int),
            decreases patterns@.len() - i,
        {
            proof {
                lemma_failures_grow(all, i + 1, all.len() as int);
                assert(*patterns@[i as int].json == all[i as int]);
            }
            n = n + patterns[i].failure_count();
            i = i + 1;
        }
        n
    }

    /// The results of the patterns.
    pub fn pattern_results(&self) -> (patterns: Vec<PatternDoc<'a>>)
        ensures
            patterns@.len() == self.patterns().len(),
            forall|i: int|
                0 <= i < patterns@.len() ==> *(#[trigger] patterns@[i]).json == self.patterns()[i],
    {
        let mut patterns: Vec<PatternDoc<'a>> = Vec::new();
        if let Some(items) = as_list(get(Some(self.json), "pattern_results")) {
            let mut i: usize = 0;
            while i < items.len()
                invariant
                    i <= items@.len(),
                    patterns@.len() == i,
                    forall|k: int| 0 <= k < i ==> *(#[trigger] patterns@[k]).json == items@[k],
                decreases items@.len() - i,
            {
                patterns.push(PatternDoc { json: &items[i] });
                i = i + 1;
            }
        }
        patterns
    }
}

/// The results of one pattern.
#[derive(Debug)]
pub struct PatternDoc<'a> {
    pub json: &'a Json,
}

impl PatternDoc<'_> {
    /// The name of the pattern.
    pub open spec fn name(&self) -> Seq<char> {
        match json::text_in(json::member(Some(*self.json), "pattern"@)) {
            Some(s) => s,
            None => "unknown"@,
        }
    }

    /// The name of the pattern.
    #[must_use]
    pub fn pattern_name(&self) -> (name: &str)
        ensures
            name@ == self.name(),
    {
        match as_text(get(Some(self.json), "pattern")) {
            Some(s) => s,
            None => "unknown",
        }
    }

    /// How long the pattern took, as it stands in the document.
    #[must_use]
    pub fn elapsed(&self) -> (node: Option<&Json>)
        ensures
            json::node_of(node) == json::member(Some(*self.json), "elapsed"@),
    {
        get(Some(self.json), "elapsed")
    }

    /// How many bytes were processed.
    #[must_use]
    pub fn bytes_processed(&self) -> (n: u64)
        ensures
            n == json::unsigned_or_zero(json::member(Some(*self.json), "bytes_processed"@)),
    {
        as_unsigned_or_zero(get(Some(self.json), "bytes_processed"))
    }

    /// How many failures are listed.
    #[must_use]
    pub fn failure_count(&self) -> (n: u64)
        ensures
            n == failures_listed(*self.json),
    {
        match as_list(get(Some(self.json), "failures")) {
            Some(items) => items.len() as u64,
            None => 0,
        }
    }

    /// Whether the pattern was broken off.
    #[must_use]
    pub fn interrupted(&self) -> (b: bool)
        ensures
            b == json::is_true(json::member(Some(*self.json), "interrupted"@)),
    {
        as_flag(get(Some(self.json), "interrupted"))
    }

    /// Whether there were more failures than are listed.
    #[must_use]
    pub fn capped(&self) -> (b: bool)
        ensures
            b == json::is_true(json::member(Some(*self.json), "capped"@)),
    {
        as_flag(get(Some(self.json), "capped"))
    }
}

/// What a run was to do.
#[derive(Debug)]
pub struct ConfigDoc<'a> {
    pub json: Option<&'a Json>,
}

impl ConfigDoc<'_> {
    /// How many bytes were to be tested.
    #[must_use]
    pub fn size(&self) -> (n: u64)
        ensures
            n == json::unsigned_or_zero(json::member(json::node_of(self.json), "size"@)),
    {
        as_unsigned_or_zero(get(self.json, "size"))
    }

    /// How many passes there were to be.
    #[must_use]
    pub fn passes(&self) -> (n: u64)
        ensures
            n == json::unsigned_or_zero(json::member(json::node_of(self.json), "passes"@)),
    {
        as_unsigned_or_zero(get(self.json, "passes"))
    }

    /// How many threads there were; one if the document does not say.
    #[must_use]
    pub fn workers(&self) -> (n: u64)
        ensures
            n == match json::unsigned_in(json::member(json::node_of(self.json), "workers"@)) {
                Some(n) => n,
                None => 1,
            },
    {
        match as_unsigned(get(self.json, "workers")) {
            Some(n) => n,
            None => 1,
        }
    }
}

/// How much of the memory was tested.
#[derive(Debug)]
pub struct CoverageDoc<'a> {
    pub json: &'a Json,
}

impl CoverageDoc<'_> {
    /// The value that stands with a key.
    pub open spec fn at(&self, key: Seq<char>) -> Option<Json> {
        json::member(Some(*self.json), key)
    }

    /// Whether it was measured.
    #[must_use]
    pub fn is_measured(&self) -> (b: bool)
        ensures
            b == (json::text_in(self.at("status"@)) == Some("measured"@)),
    {
        match as_text(get(Some(self.json), "status")) {
            Some(s) => same_text(s, "measured"),
            None => false,
        }
    }

    /// How many bytes were tested.
    #[must_use]
    pub fn tested_bytes(&self) -> (n: u64)
        ensures
            n == json::unsigned_or_zero(self.at("tested_bytes"@)),
    {
        as_unsigned_or_zero(get(Some(self.json), "tested_bytes"))
    }

    /// How many bytes are installed.
    #[must_use]
    pub fn total_bytes(&self) -> (n: u64)
        ensures
            n == json::unsigned_or_zero(self.at("total_bytes"@)),
    {
        as_unsigned_or_zero(get(Some(self.json), "total_bytes"))
    }

    /// Where the number of installed bytes comes from.
    pub open spec fn source(&self) -> Seq<char> {
        if json::text_in(self.at("source"@)) == Some("proc_iomem"@) {
            "/proc/iomem"@
        } else {
            "MemTotal estimate"@
        }
    }

    /// Where the number of installed bytes comes from.
    #[must_use]
    pub fn source_label(&self) -> (label: &'static str)
        ensures
            label@ == self.source(),
    {
        let from_iomem = match as_text(get(Some(self.json), "source")) {
            Some(s) => same_text(s, "proc_iomem"),
            None => false,
        };
        if from_iomem {
            "/proc/iomem"
        } else {
            "MemTotal estimate"
        }
    }

    /// What was covered over several runs, if that was recorded.
    #[must_use]
    pub fn cumulative(&self) -> (cumulative: Option<CumulativeDoc<'_>>)
        ensures
            cumulative is Some <==> json::is_object(self.at("cumulative"@)),
            cumulative matches Some(c) ==> Some(*c.json) == self.at("cumulative"@)
                && c.installed_bytes == json::unsigned_or_zero(self.at("total_bytes"@)),
    {
        match as_object(get(Some(self.json), "cumulative")) {
            Some(json) => Some(CumulativeDoc { json, installed_bytes: self.total_bytes() }),
            None => None,
        }
    }

    /// What the untested memory is, if that was looked up.
    #[must_use]
    pub fn gap(&self) -> (gap: Option<GapDoc<'_>>)
        ensures
            gap is Some <==> json::is_object(self.at("gap"@)),
            gap matches Some(g) ==> Some(*g.json) == self.at("gap"@),
    {
        match as_object(get(Some(self.json), "gap")) {
            Some(json) => Some(GapDoc { json }),
            None => None,
        }
    }
}

/// What the untested memory is.
#[derive(Debug)]
pub struct GapDoc<'a> {
    pub json: &'a Json,
}

impl GapDoc<'_> {
    /// The number that stands with a key; zero if there is none.
    pub open spec fn bytes(&self, key: Seq<char>) -> u64 {
        json::unsigned_or_zero(json::member(Some(*self.json), key))
    }

    /// The sum of all classes.
    pub open spec fn sum(&self) -> int {
        self.bytes("free_bytes"@) + self.bytes("reclaimable_bytes"@) + self.bytes("in_use_bytes"@)
            + self.bytes("unreachable_bytes"@) + self.bytes("unknown_bytes"@)
    }

    /// Bytes in free frames.
    #[must_use]
    pub fn free_bytes(&self) -> (n: u64)
        ensures
            n == self.bytes("free_bytes"@),
    {
        as_unsigned_or_zero(get(Some(self.json), "free_bytes"))
    }

    /// Bytes in frames that could be freed.
    #[must_use]
    pub fn reclaimable_bytes(&self) -> (n: u64)
        ensures
            n == self.bytes("reclaimable_bytes"@),
    {
        as_unsigned_or_zero(get(Some(self.json), "reclaimable_bytes"))
    }

    /// Bytes in frames in use.
    #[must_use]
    pub fn in_use_bytes(&self) -> (n: u64)
        ensures
            n == self.bytes("in_use_bytes"@),
    {
        as_unsigned_or_zero(get(Some(self.json), "in_use_bytes"))
    }

    /// Bytes in frames that no test can reach.
    #[must_use]
    pub fn unreachable_bytes(&self) -> (n: u64)
        ensures
            n == self.bytes("unreachable_bytes"@),
    {
        as_unsigned_or_zero(get(Some(self.json), "unreachable_bytes"))
    }

    /// Bytes in frames whose flags could not be read.
    #[must_use]
    pub fn unknown_bytes(&self) -> (n: u64)
        ensures
            n == self.bytes("unknown_bytes"@),
    {
        as_unsigned_or_zero(get(Some(self.json), "unknown_bytes"))
    }

    /// All untested bytes.
    #[must_use]
    pub fn total_bytes(&self) -> (n: u64)
        requires
            self.sum() <= u64::MAX,
        ensures
            n == self.sum(),
    {
        self.free_bytes() + self.reclaimable_bytes() + self.in_use_bytes() + self.unreachable_bytes()
            + self.unknown_bytes()
    }
}

/// What was covered over several runs.
#[derive(Debug)]
pub struct CumulativeDoc<'a> {
    pub json: &'a Json,
    /// How many bytes are installed.
    pub installed_bytes: u64,
}

impl CumulativeDoc<'_> {
    /// The number that stands with a key; zero if there is none.
    pub open spec fn number(&self, key: Seq<char>) -> u64 {
        json::unsigned_or_zero(json::member(Some(*self.json), key))
    }

    /// Bytes that no run before had covered.
    #[must_use]
    pub fn new_bytes(&self) -> (n: u64)
        ensures
            n == self.number("new_bytes"@),
    {
        as_unsigned_or_zero(get(Some(self.json), "new_bytes"))
    }

    /// Bytes that some run covered.
    #[must_use]
    pub fn cumulative_bytes(&self) -> (n: u64)
        ensures
            n == self.number("cumulative_bytes"@),
    {
        as_unsigned_or_zero(get(Some(self.json), "cumulative_bytes"))
    }

    /// How many runs there were.
    #[must_use]
    pub fn runs(&self) -> (n: u64)
        ensures
            n == self.number("runs"@),
    {
        as_unsigned_or_zero(get(Some(self.json), "runs"))
    }
}

/// What kind of errors there were.
#[derive(Debug)]
pub struct ErrorAnalysisDoc<'a> {
    pub json: &'a Json,
}

/// The stuck positions among the first `n` values, in words.
pub open spec fn positions_shown(items: Seq<Json>, n: int) -> Seq<Seq<char>>
    decreases n,
{
    if n <= 0 {
        Seq::empty()
    } else {
        let rest = positions_shown(items, n - 1);
        match json::unsigned_in(Some(items[n - 1])) {
            Some(p) => rest.push("bit "@ + text::decimal(p as int)),
            None => rest,
        }
    }
}

/// The name and the count that a pair holds, if it does.
pub open spec fn counted_name(entry: Json) -> Option<(Seq<char>, u64)> {
    let items = json::items_in(Some(entry));
    if items.len() >= 2 {
        match (json::text_in(Some(items[0])), json::unsigned_in(Some(items[1]))) {
            (Some(name), Some(count)) => Some((name, count)),
            _ => None,
        }
    } else {
        None
    }
}

/// The names and counts among the first `n` values.
pub open spec fn counted_names(items: Seq<Json>, n: int) -> Seq<(Seq<char>, u64)>
    decreases n,
{
    if n <= 0 {
        Seq::empty()
    } else {
        let rest = counted_names(items, n - 1);
        match counted_name(items[n - 1]) {
            Some(pair) => rest.push(pair),
            None => rest,
        }
    }
}

/// The names and counts of a list of pairs.
pub open spec fn named_counts(pairs: Seq<(String, u64)>) -> Seq<(Seq<char>, u64)> {
    Seq::new(pairs.len(), |i: int| (pairs[i].0@, pairs[i].1))
}

/// The bit and the count that a pair holds, if it does, cut to their widths.
pub open spec fn counted_bit(entry: Json) -> Option<(u8, u32)> {
    let items = json::items_in(Some(entry));
    if items.len() >= 2 {
        match (json::unsigned_in(Some(items[0])), json::unsigned_in(Some(items[1]))) {
            (Some(position), Some(count)) => Some((position as u8, count as u32)),
            _ => None,
        }
    } else {
        None
    }
}

/// The bits and counts among the first `n` values.
pub open spec fn counted_bits(items: Seq<Json>, n: int) -> Seq<(u8, u32)>
    decreases n,
{
    if n <= 0 {
        Seq::empty()
    } else {
        let rest = counted_bits(items, n - 1);
        match counted_bit(items[n - 1]) {
            Some(pair) => rest.push(pair),
            None => rest,
        }
    }
}

impl ErrorAnalysisDoc<'_> {
    /// The value that stands with a key.
    pub open spec fn at(&self, key: Seq<char>) -> Option<Json> {
        json::member(Some(*self.json), key)
    }

    /// The positions of stuck bits, if the errors are of that kind.
    pub open spec fn stuck_positions(&self) -> Option<Json> {
        json::member(json::member(self.at("classification"@), "StuckBit"@), "positions"@)
    }

    /// The kind of errors in words.
    pub open spec fn kind(&self) -> Seq<char> {
        if self.stuck_positions() matches Some(Json::List(_)) {
            let items = json::items_in(self.stuck_positions());
            "stuck bit(s): "@ + text::joined(positions_shown(items, items.len() as int))
        } else {
            match json::text_in(self.at("classification"@)) {
                Some(s) => if s == "Coupling"@ {
                    "coupling/disturbance errors"@
                } else if s == "Mixed"@ {
                    "mixed (stuck + coupling)"@
                } else if s == "NoErrors"@ {
                    "no errors"@
                } else {
                    s
                },
                None => "unknown"@,
            }
        }
    }

    /// The kind of errors in words.
    #[must_use]
    pub fn classification_str(&self) -> (s: String)
        ensures
            s@ == self.kind(),
    {
        let classification = get(Some(self.json), "classification");
        if let Some(items) = as_list(get(get(classification, "StuckBit"), "positions")) {
            let mut parts: Vec<String> = Vec::new();
            let mut i: usize = 0;
            assert(text::string_texts(parts@) =~= positions_shown(items@, 0));
            while i < items.len()
                invariant
                    i <= items@.len(),
                    text::string_texts(parts@) == positions_shown(items@, i as int),
                decreases items@.len() - i,
            {
                if let Some(p) = as_unsigned(Some(&items[i])) {
                    let mut part = String::new();
                    part.append("bit ");
                    part.append(&decimal_string(p));
                    let ghost shown = part@;
                    let ghost before = parts@;
                    assert(shown =~= "bit "@ + text::decimal(p as int));
                    parts.push(part);
                    assert(text::string_texts(parts@) =~= text::string_texts(before).push(shown));
                }
                i = i + 1;
            }
            let mut s = String::new();
            s.append("stuck bit(s): ");
            s.append(&join(&parts));
            assert(s@ =~= self.kind());
            return s;
        }
        match as_text(classification) {
            Some(s) => if same_text(s, "Coupling") {
                "coupling/disturbance errors".to_owned()
            } else if same_text(s, "Mixed") {
                "mixed (stuck + coupling)".to_owned()
            } else if same_text(s, "NoErrors") {
                "no errors".to_owned()
            } else {
                s.to_owned()
            },
            None => "unknown".to_owned(),
        }
    }

    /// The bits that ever flipped.
    #[must_use]
    pub fn union_xor_mask(&self) -> (n: u64)
        ensures
            n == json::unsigned_or_zero(self.at("union_xor_mask"@)),
    {
        as_unsigned_or_zero(get(Some(self.json), "union_xor_mask"))
    }

    /// The lowest physical address with an error.
    #[must_use]
    pub fn lowest_phys(&self) -> (n: Option<u64>)
        ensures
            n == json::unsigned_in(self.at("lowest_phys"@)),
    {
        as_unsigned(get(Some(self.json), "lowest_phys"))
    }

    /// The highest physical address with an error.
    #[must_use]
    pub fn highest_phys(&self) -> (n: Option<u64>)
        ensures
            n == json::unsigned_in(self.at("highest_phys"@)),
    {
        as_unsigned(get(Some(self.json), "highest_phys"))
    }

    /// How many failures each pattern found.
    pub open spec fn per_pattern(&self) -> Seq<(Seq<char>, u64)> {
        let items = json::items_in(self.at("per_pattern_failures"@));
        counted_names(items, items.len() as int)
    }

    /// How many failures each pattern found. Entries of another form are passed
    /// over.
    #[must_use]
    pub fn per_pattern_failures(&self) -> (pairs: Vec<(String, u64)>)
        ensures
            named_counts(pairs@) == self.per_pattern(),
    {
        let mut pairs: Vec<(String, u64)> = Vec::new();
        assert(named_counts(pairs@) =~= Seq::empty());
        if let Some(items) = as_list(get(Some(self.json), "per_pattern_failures")) {
            let mut i: usize = 0;
            while i < items.len()
                invariant
                    i <= items@.len(),
                    named_counts(pairs@) == counted_names(items@, i as int),
                decreases items@.len() - i,
            {
                if let Some(entry) = as_list(Some(&items[i])) {
                    if entry.len() >= 2 {
                        let name = as_text(Some(&entry[0]));
                        let count = as_unsigned(Some(&entry[1]));
                        if let (Some(name), Some(count)) = (name, count) {
                            let ghost before = pairs@;
                            pairs.push((name.to_owned(), count));
                            assert(named_counts(pairs@) =~= named_counts(before).push(
                                (name@, count),
                            ));
                        }
                    }
                }
                i = i + 1;
            }
        }
        pairs
    }

    /// How often each bit flipped.
    pub open spec fn flips(&self) -> Seq<(u8, u32)> {
        let items = json::items_in(self.at("bit_positions"@));
        counted_bits(items, items.len() as int)
    }

    /// How often each bit flipped. Entries of another form are passed over.
    #[must_use]
    pub fn bit_positions(&self) -> (pairs: Vec<(u8, u32)>)
        ensures
            pairs@ == self.flips(),
    {
        let mut pairs: Vec<(u8, u32)> = Vec::new();
        if let Some(items) = as_list(get(Some(self.json), "bit_positions")) {
            let mut i: usize = 0;
            while i < items.len()
                invariant
                    i <= items@.len(),
                    pairs@ == counted_bits(items@, i as int),
                decreases items@.len() - i,
            {
                if let Some(entry) = as_list(Some(&items[i])) {
                    if entry.len() >= 2 {
                        let position = as_unsigned(Some(&entry[0]));
                        let count = as_unsigned(Some(&entry[1]));
                        if let (Some(position), Some(count)) = (position, count) {
                            pairs.push((position as u8, count as u32));
                        }
                    }
                }
                i = i + 1;
            }
        }
        pairs
    }
}

} // verus!
