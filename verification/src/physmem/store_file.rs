//! The coverage store as it stands in a file.

use crate::clock::{self, parse_timestamp, timestamp_text};
use crate::physmem::coverage::{CoverageError, CoverageStore, Fingerprint, RunRecord};
use crate::physmem::pfn::{Pfn, PfnRange};
use crate::physmem::phys::{IoFailure, IoKind};
use crate::results::document::{self, texts_json};
use crate::results::json::{self, as_list, as_text, as_unsigned, get, list, object, put, Json, Shape};
use crate::results::serial::{self, ordered, read_json, Tree};
use crate::text;
use vstd::prelude::*;

verus! {

/// What a run record says.
pub struct RunView {
    pub timestamp: jiff::Timestamp,
    pub patterns: Seq<Seq<char>>,
    pub passes: usize,
    pub tested_bytes: u64,
    pub new_bytes: u64,
    pub failures: u64,
}

impl View for RunRecord {
    type V = RunView;

    open spec fn view(&self) -> RunView {
        RunView {
            timestamp: self.timestamp,
            patterns: text::string_texts(self.patterns@),
            passes: self.passes,
            tested_bytes: self.tested_bytes,
            new_bytes: self.new_bytes,
            failures: self.failures,
        }
    }
}

/// What several run records say.
pub open spec fn run_views(runs: Seq<RunRecord>) -> Seq<RunView> {
    Seq::new(runs.len(), |i: int| runs[i]@)
}

/// What a store says.
pub struct StoreView {
    pub version: u32,
    pub fingerprint: Fingerprint,
    pub runs: Seq<RunView>,
    pub ranges: Seq<PfnRange>,
}

impl View for CoverageStore {
    type V = StoreView;

    open spec fn view(&self) -> StoreView {
        StoreView {
            version: self.version,
            fingerprint: self.fingerprint,
            runs: run_views(self.runs@),
            ranges: self.ranges@,
        }
    }
}

/// Where a value of a record stands: with its key in an object, or at its place in a
/// list of all the values that the record has.
pub struct Slot {
    pub key: Seq<char>,
    pub place: int,
    pub of: int,
}

/// The slot with this key, in place `place` of `of`.
pub open spec fn slot(key: Seq<char>, place: int, of: int) -> Slot {
    Slot { key, place, of }
}

/// The value that stands in a slot.
pub open spec fn value_at(node: Json, slot: Slot) -> Option<Json> {
    match node {
        Json::List(items) => if 0 <= slot.place < slot.of == items@.len() {
            Some(items@[slot.place])
        } else {
            None
        },
        _ => json::member(Some(node), slot.key),
    }
}

fn find_value<'a>(node: &'a Json, key: &str, place: usize, of: usize) -> (found: Option<&'a Json>)
    ensures
        json::node_of(found) == value_at(*node, slot(key@, place as int, of as int)),
{
    match node {
        Json::List(items) => if place < of && items.len() == of {
            Some(&items[place])
        } else {
            None
        },
        _ => get(Some(node), key),
    }
}

/// The number that stands in a slot, if it is no larger than `max`.
pub open spec fn number_at(node: Json, slot: Slot, max: int) -> Option<u64> {
    match json::unsigned_in(value_at(node, slot)) {
        Some(n) => if n <= max {
            Some(n)
        } else {
            None
        },
        None => None,
    }
}

fn read_number(node: &Json, key: &str, place: usize, of: usize, max: u64) -> (n: Option<u64>)
    ensures
        n == number_at(*node, slot(key@, place as int, of as int), max as int),
{
    match as_unsigned(find_value(node, key, place, of)) {
        Some(n) => if n <= max {
            Some(n)
        } else {
            None
        },
        None => None,
    }
}

/// The fingerprint that a value holds, if it holds one.
pub open spec fn fingerprint_in(node: Json) -> Option<Fingerprint> {
    match (
        number_at(node, slot("mem_total"@, 0, 2), u64::MAX as int),
        number_at(node, slot("iomem_hash"@, 1, 2), u64::MAX as int),
    ) {
        (Some(mem_total), Some(iomem_hash)) => Some(Fingerprint { mem_total, iomem_hash }),
        _ => None,
    }
}

fn read_fingerprint(node: &Json) -> (fingerprint: Option<Fingerprint>)
    ensures
        fingerprint == fingerprint_in(*node),
{
    match (read_number(node, "mem_total", 0, 2, u64::MAX), read_number(node, "iomem_hash", 1, 2, u64::MAX)) {
        (Some(mem_total), Some(iomem_hash)) => Some(Fingerprint { mem_total, iomem_hash }),
        _ => None,
    }
}

/// The range of frames that a value holds, if it holds one.
pub open spec fn range_in(node: Json) -> Option<PfnRange> {
    match (
        number_at(node, slot("start"@, 0, 2), u64::MAX as int),
        number_at(node, slot("count"@, 1, 2), u64::MAX as int),
    ) {
        (Some(start), Some(count)) => Some(PfnRange { start: Pfn(start), count }),
        _ => None,
    }
}

/// The ranges that the first `n` values hold, if each holds one.
pub open spec fn ranges_in(items: Seq<Json>, n: int) -> Option<Seq<PfnRange>>
    decreases n,
{
    if n <= 0 {
        Some(Seq::empty())
    } else {
        match (ranges_in(items, n - 1), range_in(items[n - 1])) {
            (Some(rest), Some(range)) => Some(rest.push(range)),
            _ => None,
        }
    }
}

proof fn lemma_ranges_fail(items: Seq<Json>, k: int, n: int)
    requires
        k <= n,
        ranges_in(items, k) is None,
    ensures
        ranges_in(items, n) is None,
    decreases n - k,
{
    if k < n {
        lemma_ranges_fail(items, k, n - 1);
    }
}

fn read_ranges(items: &Vec<Json>) -> (ranges: Option<Vec<PfnRange>>)
    ensures
        ranges is Some <==> ranges_in(items@, items@.len() as int) is Some,
        ranges matches Some(r) ==> ranges_in(items@, items@.len() as int) == Some(r@),
{
    let mut ranges: Vec<PfnRange> = Vec::new();
    let mut i: usize = 0;
    while i < items.len()
        invariant
            i <= items@.len(),
            ranges_in(items@, i as int) == Some(ranges@),
        decreases items@.len() - i,
    {
        match (read_number(&items[i], "start", 0, 2, u64::MAX), read_number(&items[i], "count", 1, 2, u64::MAX)) {
            (Some(start), Some(count)) => {
                ranges.push(PfnRange { start: Pfn(start), count });
            },
            _ => {
                proof {
                    lemma_ranges_fail(items@, i + 1, items@.len() as int);
                }
                return None;
            },
        }
        i = i + 1;
    }
    Some(ranges)
}

/// The texts that the first `n` values are, if each is one.
pub open spec fn texts_in(items: Seq<Json>, n: int) -> Option<Seq<Seq<char>>>
    decreases n,
{
    if n <= 0 {
        Some(Seq::empty())
    } else {
        match (texts_in(items, n - 1), json::text_in(Some(items[n - 1]))) {
            (Some(rest), Some(s)) => Some(rest.push(s)),
            _ => None,
        }
    }
}

proof fn lemma_texts_fail(items: Seq<Json>, k: int, n: int)
    requires
        k <= n,
        texts_in(items, k) is None,
    ensures
        texts_in(items, n) is None,
    decreases n - k,
{
    if k < n {
        lemma_texts_fail(items, k, n - 1);
    }
}

fn read_texts(items: &Vec<Json>) -> (texts: Option<Vec<String>>)
    ensures
        texts is Some <==> texts_in(items@, items@.len() as int) is Some,
        texts matches Some(t) ==> texts_in(items@, items@.len() as int) == Some(
            text::string_texts(t@),
        ),
{
    let mut texts: Vec<String> = Vec::new();
    let mut i: usize = 0;
    assert(text::string_texts(texts@) =~= seq![]);
    while i < items.len()
        invariant
            i <= items@.len(),
            texts_in(items@, i as int) == Some(text::string_texts(texts@)),
        decreases items@.len() - i,
    {
        let ghost before = text::string_texts(texts@);
        match as_text(Some(&items[i])) {
            Some(s) => {
                texts.push(s.to_owned());
                assert(text::string_texts(texts@) =~= before.push(s@));
            },
            None => {
                proof {
                    lemma_texts_fail(items@, i + 1, items@.len() as int);
                }
                return None;
            },
        }
        i = i + 1;
    }
    Some(texts)
}

/// The values of a list that stands in a slot, if one does.
pub open spec fn list_at(node: Json, slot: Slot) -> Option<Seq<Json>> {
    match value_at(node, slot) {
        Some(Json::List(items)) => Some(items@),
        _ => None,
    }
}

/// The texts of a list that stands in a slot, if one does.
pub open spec fn texts_at(node: Json, slot: Slot) -> Option<Seq<Seq<char>>> {
    match list_at(node, slot) {
        Some(items) => texts_in(items, items.len() as int),
        None => None,
    }
}

/// The time that stands in a slot, if one does.
pub open spec fn timestamp_at(node: Json, slot: Slot) -> Option<jiff::Timestamp> {
    match json::text_in(value_at(node, slot)) {
        Some(s) => clock::timestamp_in(s),
        None => None,
    }
}

/// The run record that a value holds, if it holds one.
pub open spec fn run_in(node: Json) -> Option<RunView> {
    match (
        timestamp_at(node, slot("timestamp"@, 0, 6)),
        texts_at(node, slot("patterns"@, 1, 6)),
        number_at(node, slot("passes"@, 2, 6), usize::MAX as int),
        number_at(node, slot("tested_bytes"@, 3, 6), u64::MAX as int),
        number_at(node, slot("new_bytes"@, 4, 6), u64::MAX as int),
        number_at(node, slot("failures"@, 5, 6), u64::MAX as int),
    ) {
        (
            Some(timestamp),
            Some(patterns),
            Some(passes),
            Some(tested_bytes),
            Some(new_bytes),
            Some(failures),
        ) => Some(
            RunView {
                timestamp,
                patterns,
                passes: passes as usize,
                tested_bytes,
                new_bytes,
                failures,
            },
        ),
        _ => None,
    }
}

fn read_run(node: &Json) -> (run: Option<RunRecord>)
    ensures
        run is Some <==> run_in(*node) is Some,
        run matches Some(r) ==> run_in(*node) == Some(r@),
{
    let timestamp = match as_text(find_value(node, "timestamp", 0, 6)) {
        Some(s) => parse_timestamp(s),
        None => None,
    };
    let patterns = match as_list(find_value(node, "patterns", 1, 6)) {
        Some(items) => read_texts(items),
        None => None,
    };
    let passes = read_number(node, "passes", 2, 6, usize::MAX as u64);
    let tested = read_number(node, "tested_bytes", 3, 6, u64::MAX);
    let fresh = read_number(node, "new_bytes", 4, 6, u64::MAX);
    let failed = read_number(node, "failures", 5, 6, u64::MAX);
    assert(timestamp == timestamp_at(*node, slot("timestamp"@, 0, 6)));
    assert(patterns is Some <==> texts_at(*node, slot("patterns"@, 1, 6)) is Some);
    match (timestamp, patterns, passes, tested, fresh, failed) {
        (
            Some(timestamp),
            Some(patterns),
            Some(passes),
            Some(tested_bytes),
            Some(new_bytes),
            Some(failures),
        ) => Some(
            RunRecord {
                timestamp,
                patterns,
                passes: passes as usize,
                tested_bytes,
                new_bytes,
                failures,
            },
        ),
        _ => None,
    }
}

/// The run records that the first `n` values hold, if each holds one.
pub open spec fn runs_in(items: Seq<Json>, n: int) -> Option<Seq<RunView>>
    decreases n,
{
    if n <= 0 {
        Some(Seq::empty())
    } else {
        match (runs_in(items, n - 1), run_in(items[n - 1])) {
            (Some(rest), Some(run)) => Some(rest.push(run)),
            _ => None,
        }
    }
}

proof fn lemma_runs_fail(items: Seq<Json>, k: int, n: int)
    requires
        k <= n,
        runs_in(items, k) is None,
    ensures
        runs_in(items, n) is None,
    decreases n - k,
{
    if k < n {
        lemma_runs_fail(items, k, n - 1);
    }
}

fn read_runs(items: &Vec<Json>) -> (runs: Option<Vec<RunRecord>>)
    ensures
        runs is Some <==> runs_in(items@, items@.len() as int) is Some,
        runs matches Some(r) ==> runs_in(items@, items@.len() as int) == Some(run_views(r@)),
{
    let mut runs: Vec<RunRecord> = Vec::new();
    let mut i: usize = 0;
    assert(run_views(runs@) =~= seq![]);
    while i < items.len()
        invariant
            i <= items@.len(),
            runs_in(items@, i as int) == Some(run_views(runs@)),
        decreases items@.len() - i,
    {
        let ghost before = run_views(runs@);
        match read_run(&items[i]) {
            Some(run) => {
                runs.push(run);
                assert(run_views(runs@) =~= before.push(run@));
            },
            None => {
                proof {
                    lemma_runs_fail(items@, i + 1, items@.len() as int);
                }
                return None;
            },
        }
        i = i + 1;
    }
    Some(runs)
}

/// The store that a value holds, if it holds one. Keys that a store does not have are
/// passed over. A store, and each record in it, may also be a list of its values.
pub open spec fn store_in(node: Json) -> Option<StoreView> {
    let fingerprint = match value_at(node, slot("fingerprint"@, 1, 4)) {
        Some(f) => fingerprint_in(f),
        None => None,
    };
    let runs = match list_at(node, slot("runs"@, 2, 4)) {
        Some(items) => runs_in(items, items.len() as int),
        None => None,
    };
    let ranges = match list_at(node, slot("ranges"@, 3, 4)) {
        Some(items) => ranges_in(items, items.len() as int),
        None => None,
    };
    match (number_at(node, slot("version"@, 0, 4), u32::MAX as int), fingerprint, runs, ranges) {
        (Some(version), Some(fingerprint), Some(runs), Some(ranges)) => Some(
            StoreView { version: version as u32, fingerprint, runs, ranges },
        ),
        _ => None,
    }
}

fn read_store(node: &Json) -> (store: Option<CoverageStore>)
    ensures
        store is Some <==> store_in(*node) is Some,
        store matches Some(s) ==> store_in(*node) == Some(s@),
{
    let version = read_number(node, "version", 0, 4, u32::MAX as u64);
    let fingerprint = match find_value(node, "fingerprint", 1, 4) {
        Some(f) => read_fingerprint(f),
        None => None,
    };
    let runs = match as_list(find_value(node, "runs", 2, 4)) {
        Some(items) => read_runs(items),
        None => None,
    };
    let ranges = match as_list(find_value(node, "ranges", 3, 4)) {
        Some(items) => read_ranges(items),
        None => None,
    };
    match (version, fingerprint, runs, ranges) {
        (Some(version), Some(fingerprint), Some(runs), Some(ranges)) => Some(
            CoverageStore { version: version as u32, fingerprint, runs, ranges },
        ),
        _ => None,
    }
}

/// A fingerprint as it is written.
pub open spec fn fingerprint_shape(fingerprint: Fingerprint) -> Shape {
    Shape::Object(
        seq![
            ("mem_total"@, Shape::Unsigned(fingerprint.mem_total)),
            ("iomem_hash"@, Shape::Unsigned(fingerprint.iomem_hash)),
        ],
    )
}

/// A range as it is written.
pub open spec fn range_shape(range: PfnRange) -> Shape {
    Shape::Object(
        seq![
            ("start"@, Shape::Unsigned(range.start.0)),
            ("count"@, Shape::Unsigned(range.count)),
        ],
    )
}

/// Whether a shape is a run record as it is written. The time is some text that tells
/// it.
pub open spec fn writes_run(shape: Shape, run: RunView) -> bool {
    exists|time: Seq<char>|
        clock::timestamp_in(time) == Some(run.timestamp) && shape == run_shape(run, time)
}

/// A run record as it is written, with the text of its time.
pub open spec fn run_shape(run: RunView, time: Seq<char>) -> Shape {
    Shape::Object(
        seq![
            ("timestamp"@, Shape::Text(time)),
            ("patterns"@, Shape::List(document::text_shapes(run.patterns))),
            ("passes"@, Shape::Unsigned(run.passes as u64)),
            ("tested_bytes"@, Shape::Unsigned(run.tested_bytes)),
            ("new_bytes"@, Shape::Unsigned(run.new_bytes)),
            ("failures"@, Shape::Unsigned(run.failures)),
        ],
    )
}

/// Whether a shape is a store as it is written.
pub open spec fn writes_store(shape: Shape, store: StoreView) -> bool {
    exists|runs: Seq<Shape>, ranges: Seq<Shape>|
        {
            &&& runs.len() == store.runs.len()
            &&& forall|i: int|
                0 <= i < runs.len() ==> #[trigger] writes_run(runs[i], store.runs[i])
            &&& ranges == Seq::new(store.ranges.len(), |i: int| range_shape(store.ranges[i]))
            &&& shape == #[trigger] store_shape(store, runs, ranges)
        }
}

/// A store as it is written, with its runs and ranges.
pub open spec fn store_shape(store: StoreView, runs: Seq<Shape>, ranges: Seq<Shape>) -> Shape {
    Shape::Object(
        seq![
            ("version"@, Shape::Unsigned(store.version as u64)),
            ("fingerprint"@, fingerprint_shape(store.fingerprint)),
            ("runs"@, Shape::List(runs)),
            ("ranges"@, Shape::List(ranges)),
        ],
    )
}

fn run_json(run: &RunRecord) -> (node: Json)
    ensures
        writes_run(node.shape(), run@),
{
    let time = timestamp_text(&run.timestamp);
    let ghost text = time@;
    let mut pairs: Vec<(String, Json)> = Vec::new();
    put(&mut pairs, "timestamp", Json::Text(time));
    put(&mut pairs, "patterns", texts_json(&run.patterns));
    put(&mut pairs, "passes", Json::Unsigned(run.passes as u64));
    put(&mut pairs, "tested_bytes", Json::Unsigned(run.tested_bytes));
    put(&mut pairs, "new_bytes", Json::Unsigned(run.new_bytes));
    put(&mut pairs, "failures", Json::Unsigned(run.failures));
    assert(json::pair_shapes(pairs@) =~= run_shape(run@, text)->Object_0);
    object(pairs)
}

/// A range as an object.
pub fn range_json(range: &PfnRange) -> (node: Json)
    ensures
        node.shape() == range_shape(*range),
{
    let mut pairs: Vec<(String, Json)> = Vec::new();
    put(&mut pairs, "start", Json::Unsigned(range.start.0));
    put(&mut pairs, "count", Json::Unsigned(range.count));
    assert(json::pair_shapes(pairs@) =~= range_shape(*range)->Object_0);
    object(pairs)
}

impl CoverageStore {
    /// The store as it is written to a file.
    pub fn to_json(&self) -> (node: Json)
        ensures
            writes_store(node.shape(), self@),
    {
        let mut runs: Vec<Json> = Vec::new();
        let mut i: usize = 0;
        while i < self.runs.len()
            invariant
                i <= self.runs@.len(),
                runs@.len() == i,
                forall|k: int|
                    0 <= k < i ==> writes_run((#[trigger] runs@[k]).shape(), self.runs@[k]@),
            decreases self.runs@.len() - i,
        {
            runs.push(run_json(&self.runs[i]));
            i = i + 1;
        }
        let mut ranges: Vec<Json> = Vec::new();
        let mut k: usize = 0;
        while k < self.ranges.len()
            invariant
                k <= self.ranges@.len(),
                ranges@.len() == k,
                forall|j: int|
                    0 <= j < k ==> (#[trigger] ranges@[j]).shape() == range_shape(self.ranges@[j]),
            decreases self.ranges@.len() - k,
        {
            ranges.push(range_json(&self.ranges[k]));
            k = k + 1;
        }
        let ghost run_shapes = json::item_shapes(runs@);
        let ghost range_shapes = json::item_shapes(ranges@);
        let mut inner: Vec<(String, Json)> = Vec::new();
        put(&mut inner, "mem_total", Json::Unsigned(self.fingerprint.mem_total));
        put(&mut inner, "iomem_hash", Json::Unsigned(self.fingerprint.iomem_hash));
        assert(json::pair_shapes(inner@) =~= fingerprint_shape(self.fingerprint)->Object_0);
        let mut pairs: Vec<(String, Json)> = Vec::new();
        put(&mut pairs, "version", Json::Unsigned(self.version as u64));
        put(&mut pairs, "fingerprint", object(inner));
        put(&mut pairs, "runs", list(runs));
        put(&mut pairs, "ranges", list(ranges));
        proof {
            assert(json::pair_shapes(pairs@) =~= store_shape(
                self@,
                run_shapes,
                range_shapes,
            )->Object_0);
            assert(range_shapes =~= Seq::new(
                self.ranges@.len(),
                |j: int| range_shape(self@.ranges[j]),
            ));
            assert forall|j: int| 0 <= j < run_shapes.len() implies #[trigger] writes_run(
                run_shapes[j],
                self@.runs[j],
            ) by {
                assert(writes_run(runs@[j].shape(), self.runs@[j]@));
            }
        }
        object(pairs)
    }

    /// Take a store from a document: it must be a store, have the supported schema
    /// version, and belong to this machine, which is looked at in this order.
    pub fn from_json(node: &Json, fingerprint: Fingerprint) -> (r: Result<Self, CoverageError>)
        ensures
            accepted(
                store_in(*node),
                fingerprint,
                match r {
                    Ok(store) => Ok(Some(store)),
                    Err(e) => Err(e),
                },
            ),
    {
        match read_store(node) {
            Some(store) => store.accept(fingerprint),
            None => Err(
                CoverageError::Parse { message: "it holds no coverage store".to_owned() },
            ),
        }
    }

    /// What to write to a file.
    pub fn save(&self) -> (text: String)
        ensures
            writes_text(text@, self@),
    {
        ordered(&self.to_json())
    }

    /// Load the store from a file, given what came of reading it. Without a file there
    /// is no store. What was saved is loaded again.
    pub fn load(contents: Result<StoreText, IoFailure>, fingerprint: Fingerprint) -> (r: Result<
        Option<Self>,
        CoverageError,
    >)
        ensures
            match contents {
                Ok(file) => match (file.complaint, serial::told_in(file.text@)) {
                    (Some(complaint), _) => r matches Err(CoverageError::Parse { message })
                        && message == complaint,
                    (None, Ok(tree)) => accepted(store_told(tree), fingerprint, r),
                    (None, Err(complaint)) => r matches Err(CoverageError::Parse { message })
                        && message@ == complaint,
                },
                Err(e) => if e.kind == IoKind::NotFound {
                    r == Ok::<Option<Self>, CoverageError>(None)
                } else {
                    r == Err::<Option<Self>, CoverageError>(
                        CoverageError::Read { message: e.message },
                    )
                },
            },
            contents matches Ok(file) ==> (file.complaint is None ==> forall|store: StoreView|
                #[trigger] writes_text(file.text@, store) ==> accepted(
                    Some(store),
                    fingerprint,
                    r,
                )),
    {
        match contents {
            Ok(file) => {
                if let Some(complaint) = file.complaint {
                    return Err(CoverageError::Parse { message: complaint });
                }
                match read_json(&file.text) {
                    Ok(node) => {
                        proof {
                            let tree = serial::told_in(file.text@)->Ok_0;
                            let other = choose|node: Json| serial::shows(node, tree);
                            assert(serial::shows(node, tree));
                            lemma_alike_stores(node, other, tree);
                            assert forall|store: StoreView| #[trigger]
                                writes_text(file.text@, store) implies store_in(node) == Some(
                                store,
                            ) by {
                                lemma_saved_reads_back(node, file.text@, store);
                            }
                        }
                        match Self::from_json(&node, fingerprint) {
                            Ok(store) => Ok(Some(store)),
                            Err(e) => Err(e),
                        }
                    },
                    Err(complaint) => {
                        proof {
                            assert forall|store: StoreView| #[trigger]
                                writes_text(file.text@, store) implies false by {
                                let put = choose|node: Json|
                                    {
                                        &&& writes_store(#[trigger] node.shape(), store)
                                        &&& file.text@ == serial::ordered_text(node.shape())
                                    };
                                lemma_store_is_tidy(put.shape(), store);
                            }
                        }
                        Err(CoverageError::Parse { message: complaint })
                    },
                }
            },
            Err(e) => if e.kind == IoKind::NotFound {
                Ok(None)
            } else {
                Err(CoverageError::Read { message: e.message })
            },
        }
    }
}

/// The text of a store file, and what a reading of it field by field complained of, if
/// it did. Such a reading notices a field that stands twice, of which a document keeps
/// the last only.
#[derive(Debug)]
pub struct StoreText {
    pub text: String,
    pub complaint: Option<String>,
}

/// Whether `r` is what becomes of what was found in a file, on the machine with this
/// fingerprint.
pub open spec fn accepted(
    found: Option<StoreView>,
    fingerprint: Fingerprint,
    r: Result<Option<CoverageStore>, CoverageError>,
) -> bool {
    match found {
        None => r matches Err(CoverageError::Parse { message }) && message@
            == "it holds no coverage store"@,
        Some(s) => if s.version != crate::physmem::coverage::STORE_VERSION {
            r == Err::<Option<CoverageStore>, CoverageError>(
                CoverageError::VersionMismatch { found: s.version },
            )
        } else if s.fingerprint != fingerprint {
            r == Err::<Option<CoverageStore>, CoverageError>(CoverageError::FingerprintMismatch)
        } else {
            r matches Ok(Some(store)) && store@ == s
        },
    }
}

/// Whether a text is a store as it is written.
pub open spec fn writes_text(text: Seq<char>, store: StoreView) -> bool {
    exists|node: Json|
        {
            &&& writes_store(#[trigger] node.shape(), store)
            &&& text == serial::ordered_text(node.shape())
        }
}

/// The store that a text tells, if it tells one. The order of the keys does not matter.
pub open spec fn store_told(tree: Tree) -> Option<StoreView> {
    store_in(choose|node: Json| serial::shows(node, tree))
}

/// What the value in a slot shows.
spec fn tree_at(tree: Tree, slot: Slot) -> Tree {
    match tree {
        Tree::List(trees) => trees[slot.place],
        Tree::Object(members) => members[slot.key],
        _ => tree,
    }
}

/// Whether there is a value in a slot, and what it shows, can be told from what the
/// document shows.
proof fn lemma_value_shown(node: Json, tree: Tree, slot: Slot)
    requires
        serial::shows(node, tree),
    ensures
        value_at(node, slot) is Some <==> match tree {
            Tree::List(trees) => 0 <= slot.place < slot.of == trees.len(),
            Tree::Object(members) => members.dom().contains(slot.key),
            _ => false,
        },
        value_at(node, slot) matches Some(v) ==> serial::shows(v, tree_at(tree, slot)),
{
    serial::lemma_member_shown(node, tree, slot.key);
}

/// A number in a slot is the same in documents that show the same.
proof fn lemma_alike_number(a: Json, b: Json, tree: Tree, slot: Slot, max: int)
    requires
        serial::shows(a, tree),
        serial::shows(b, tree),
    ensures
        number_at(a, slot, max) == number_at(b, slot, max),
{
    lemma_value_shown(a, tree, slot);
    lemma_value_shown(b, tree, slot);
}

/// The values of a list in a slot show the same in documents that show the same.
proof fn lemma_alike_list(a: Json, b: Json, tree: Tree, slot: Slot)
    requires
        serial::shows(a, tree),
        serial::shows(b, tree),
    ensures
        list_at(a, slot) is Some <==> list_at(b, slot) is Some,
        list_at(a, slot) is Some ==> alike_items(
            list_at(a, slot)->0,
            list_at(b, slot)->0,
            tree_at(tree, slot)->List_0,
        ),
{
    lemma_value_shown(a, tree, slot);
    lemma_value_shown(b, tree, slot);
}

/// Whether the values of two lists show the same.
spec fn alike_items(a: Seq<Json>, b: Seq<Json>, trees: Seq<Tree>) -> bool {
    &&& a.len() == trees.len()
    &&& b.len() == trees.len()
    &&& forall|i: int|
        0 <= i < trees.len() ==> serial::shows(a[i], #[trigger] trees[i]) && serial::shows(
            b[i],
            trees[i],
        )
}

proof fn lemma_alike_ranges(a: Seq<Json>, b: Seq<Json>, trees: Seq<Tree>, n: int)
    requires
        alike_items(a, b, trees),
        n <= trees.len(),
    ensures
        ranges_in(a, n) == ranges_in(b, n),
    decreases n,
{
    if n > 0 {
        lemma_alike_ranges(a, b, trees, n - 1);
        let tree = trees[n - 1];
        lemma_alike_number(a[n - 1], b[n - 1], tree, slot("start"@, 0, 2), u64::MAX as int);
        lemma_alike_number(a[n - 1], b[n - 1], tree, slot("count"@, 1, 2), u64::MAX as int);
    }
}

proof fn lemma_alike_texts(a: Seq<Json>, b: Seq<Json>, trees: Seq<Tree>, n: int)
    requires
        alike_items(a, b, trees),
        n <= trees.len(),
    ensures
        texts_in(a, n) == texts_in(b, n),
    decreases n,
{
    if n > 0 {
        lemma_alike_texts(a, b, trees, n - 1);
        let tree = trees[n - 1];
        assert(serial::shows(a[n - 1], tree) && serial::shows(b[n - 1], tree));
    }
}

proof fn lemma_alike_run(a: Json, b: Json, tree: Tree)
    requires
        serial::shows(a, tree),
        serial::shows(b, tree),
    ensures
        run_in(a) == run_in(b),
{
    lemma_value_shown(a, tree, slot("timestamp"@, 0, 6));
    lemma_value_shown(b, tree, slot("timestamp"@, 0, 6));
    lemma_alike_list(a, b, tree, slot("patterns"@, 1, 6));
    if list_at(a, slot("patterns"@, 1, 6)) is Some {
        let trees = tree_at(tree, slot("patterns"@, 1, 6))->List_0;
        lemma_alike_texts(
            list_at(a, slot("patterns"@, 1, 6))->0,
            list_at(b, slot("patterns"@, 1, 6))->0,
            trees,
            trees.len() as int,
        );
    }
    lemma_alike_number(a, b, tree, slot("passes"@, 2, 6), usize::MAX as int);
    lemma_alike_number(a, b, tree, slot("tested_bytes"@, 3, 6), u64::MAX as int);
    lemma_alike_number(a, b, tree, slot("new_bytes"@, 4, 6), u64::MAX as int);
    lemma_alike_number(a, b, tree, slot("failures"@, 5, 6), u64::MAX as int);
}

proof fn lemma_alike_runs(a: Seq<Json>, b: Seq<Json>, trees: Seq<Tree>, n: int)
    requires
        alike_items(a, b, trees),
        n <= trees.len(),
    ensures
        runs_in(a, n) == runs_in(b, n),
    decreases n,
{
    if n > 0 {
        lemma_alike_runs(a, b, trees, n - 1);
        let tree = trees[n - 1];
        lemma_alike_run(a[n - 1], b[n - 1], tree);
    }
}

/// Documents that show the same hold the same store.
proof fn lemma_alike_stores(a: Json, b: Json, tree: Tree)
    requires
        serial::shows(a, tree),
        serial::shows(b, tree),
    ensures
        store_in(a) == store_in(b),
{
    lemma_alike_number(a, b, tree, slot("version"@, 0, 4), u32::MAX as int);
    lemma_value_shown(a, tree, slot("fingerprint"@, 1, 4));
    lemma_value_shown(b, tree, slot("fingerprint"@, 1, 4));
    if value_at(a, slot("fingerprint"@, 1, 4)) is Some {
        let f = value_at(a, slot("fingerprint"@, 1, 4))->0;
        let g = value_at(b, slot("fingerprint"@, 1, 4))->0;
        let inner = tree_at(tree, slot("fingerprint"@, 1, 4));
        lemma_alike_number(f, g, inner, slot("mem_total"@, 0, 2), u64::MAX as int);
        lemma_alike_number(f, g, inner, slot("iomem_hash"@, 1, 2), u64::MAX as int);
    }
    lemma_alike_list(a, b, tree, slot("runs"@, 2, 4));
    if list_at(a, slot("runs"@, 2, 4)) is Some {
        let trees = tree_at(tree, slot("runs"@, 2, 4))->List_0;
        lemma_alike_runs(
            list_at(a, slot("runs"@, 2, 4))->0,
            list_at(b, slot("runs"@, 2, 4))->0,
            trees,
            trees.len() as int,
        );
    }
    lemma_alike_list(a, b, tree, slot("ranges"@, 3, 4));
    if list_at(a, slot("ranges"@, 3, 4)) is Some {
        let trees = tree_at(tree, slot("ranges"@, 3, 4))->List_0;
        lemma_alike_ranges(
            list_at(a, slot("ranges"@, 3, 4))->0,
            list_at(b, slot("ranges"@, 3, 4))->0,
            trees,
            trees.len() as int,
        );
    }
}

proof fn lemma_fingerprint_reads_back(node: Json, fingerprint: Fingerprint)
    requires
        node.shape() == fingerprint_shape(fingerprint),
    ensures
        fingerprint_in(node) == Some(fingerprint),
{
    reveal_strlit("mem_total");
    reveal_strlit("iomem_hash");
    assert("mem_total"@.len() == 9);
    assert("iomem_hash"@.len() == 10);
    let pairs = node.shape()->Object_0;
    assert(pairs[0].0 == "mem_total"@);
    assert(pairs[1].0 == "iomem_hash"@);
    json::lemma_found_at(node, 0);
    json::lemma_found_at(node, 1);
}

proof fn lemma_range_reads_back(node: Json, range: PfnRange)
    requires
        node.shape() == range_shape(range),
    ensures
        range_in(node) == Some(range),
{
    reveal_strlit("start");
    reveal_strlit("count");
    assert("start"@[0] != "count"@[0]);
    let pairs = node.shape()->Object_0;
    assert(pairs[0].0 == "start"@);
    assert(pairs[1].0 == "count"@);
    json::lemma_found_at(node, 0);
    json::lemma_found_at(node, 1);
}

proof fn lemma_ranges_read_back(items: Seq<Json>, ranges: Seq<PfnRange>, n: int)
    requires
        0 <= n <= ranges.len(),
        items.len() == ranges.len(),
        forall|i: int| 0 <= i < items.len() ==> (#[trigger] items[i]).shape() == range_shape(
            ranges[i],
        ),
    ensures
        ranges_in(items, n) == Some(ranges.take(n)),
    decreases n,
{
    if n > 0 {
        lemma_ranges_read_back(items, ranges, n - 1);
        assert(items[n - 1].shape() == range_shape(ranges[n - 1]));
        lemma_range_reads_back(items[n - 1], ranges[n - 1]);
        assert(ranges.take(n) =~= ranges.take(n - 1).push(ranges[n - 1]));
    } else {
        assert(ranges.take(n) =~= seq![]);
    }
}

proof fn lemma_texts_read_back(items: Seq<Json>, texts: Seq<Seq<char>>, n: int)
    requires
        0 <= n <= texts.len(),
        json::item_shapes(items) == document::text_shapes(texts),
    ensures
        texts_in(items, n) == Some(texts.take(n)),
    decreases n,
{
    if n > 0 {
        lemma_texts_read_back(items, texts, n - 1);
        assert(json::item_shapes(items).len() == texts.len());
        assert(items[n - 1].shape() == document::text_shapes(texts)[n - 1]);
        assert(json::text_in(Some(items[n - 1])) == Some(texts[n - 1]));
        assert(texts.take(n) =~= texts.take(n - 1).push(texts[n - 1]));
    } else {
        assert(texts.take(n) =~= seq![]);
    }
}

proof fn lemma_run_reads_back(node: Json, run: RunView)
    requires
        writes_run(node.shape(), run),
    ensures
        run_in(node) == Some(run),
{
    let time = choose|time: Seq<char>|
        clock::timestamp_in(time) == Some(run.timestamp) && node.shape() == run_shape(run, time);
    reveal_strlit("timestamp");
    reveal_strlit("patterns");
    reveal_strlit("passes");
    reveal_strlit("tested_bytes");
    reveal_strlit("new_bytes");
    reveal_strlit("failures");
    assert("timestamp"@.len() == 9);
    assert("patterns"@.len() == 8);
    assert("passes"@.len() == 6);
    assert("tested_bytes"@.len() == 12);
    assert("new_bytes"@.len() == 9);
    assert("failures"@.len() == 8);
    assert("timestamp"@[0] != "new_bytes"@[0]);
    assert("patterns"@[0] != "failures"@[0]);
    let pairs = node.shape()->Object_0;
    assert(pairs[0].0 == "timestamp"@);
    assert(pairs[1].0 == "patterns"@);
    assert(pairs[2].0 == "passes"@);
    assert(pairs[3].0 == "tested_bytes"@);
    assert(pairs[4].0 == "new_bytes"@);
    assert(pairs[5].0 == "failures"@);
    json::lemma_found_at(node, 0);
    json::lemma_found_at(node, 1);
    json::lemma_found_at(node, 2);
    json::lemma_found_at(node, 3);
    json::lemma_found_at(node, 4);
    json::lemma_found_at(node, 5);
    let patterns = value_at(node, slot("patterns"@, 1, 6))->0;
    json::lemma_items_by_shape(patterns);
    let items = json::items_in(Some(patterns));
    assert(json::item_shapes(items).len() == run.patterns.len());
    lemma_texts_read_back(items, run.patterns, run.patterns.len() as int);
    assert(run.patterns.take(run.patterns.len() as int) =~= run.patterns);
}

proof fn lemma_runs_read_back(items: Seq<Json>, runs: Seq<RunView>, n: int)
    requires
        0 <= n <= runs.len(),
        items.len() == runs.len(),
        forall|i: int| 0 <= i < items.len() ==> writes_run((#[trigger] items[i]).shape(), runs[i]),
    ensures
        runs_in(items, n) == Some(runs.take(n)),
    decreases n,
{
    if n > 0 {
        lemma_runs_read_back(items, runs, n - 1);
        assert(writes_run(items[n - 1].shape(), runs[n - 1]));
        lemma_run_reads_back(items[n - 1], runs[n - 1]);
        assert(runs.take(n) =~= runs.take(n - 1).push(runs[n - 1]));
    } else {
        assert(runs.take(n) =~= seq![]);
    }
}

/// A store that was written is read again as it was.
pub proof fn law_saved_store_loads(node: Json, store: StoreView)
    requires
        writes_store(node.shape(), store),
    ensures
        store_in(node) == Some(store),
{
    let (runs, ranges) = choose|runs: Seq<Shape>, ranges: Seq<Shape>|
        {
            &&& runs.len() == store.runs.len()
            &&& forall|i: int|
                0 <= i < runs.len() ==> #[trigger] writes_run(runs[i], store.runs[i])
            &&& ranges == Seq::new(store.ranges.len(), |i: int| range_shape(store.ranges[i]))
            &&& node.shape() == #[trigger] store_shape(store, runs, ranges)
        };
    reveal_strlit("version");
    reveal_strlit("fingerprint");
    reveal_strlit("runs");
    reveal_strlit("ranges");
    assert("version"@.len() == 7);
    assert("fingerprint"@.len() == 11);
    assert("runs"@.len() == 4);
    assert("ranges"@.len() == 6);
    let pairs = node.shape()->Object_0;
    assert(pairs[0].0 == "version"@);
    assert(pairs[1].0 == "fingerprint"@);
    assert(pairs[2].0 == "runs"@);
    assert(pairs[3].0 == "ranges"@);
    json::lemma_found_at(node, 0);
    json::lemma_found_at(node, 1);
    json::lemma_found_at(node, 2);
    json::lemma_found_at(node, 3);
    lemma_fingerprint_reads_back(
        value_at(node, slot("fingerprint"@, 1, 4))->0,
        store.fingerprint,
    );
    let run_list = value_at(node, slot("runs"@, 2, 4))->0;
    json::lemma_items_by_shape(run_list);
    let run_items = json::items_in(Some(run_list));
    assert(json::item_shapes(run_items).len() == runs.len());
    assert forall|i: int| 0 <= i < run_items.len() implies writes_run(
        (#[trigger] run_items[i]).shape(),
        store.runs[i],
    ) by {
        assert(json::item_shapes(run_items)[i] == runs[i]);
        assert(writes_run(runs[i], store.runs[i]));
    }
    lemma_runs_read_back(run_items, store.runs, store.runs.len() as int);
    assert(store.runs.take(store.runs.len() as int) =~= store.runs);
    let range_list = value_at(node, slot("ranges"@, 3, 4))->0;
    json::lemma_items_by_shape(range_list);
    let range_items = json::items_in(Some(range_list));
    assert(json::item_shapes(range_items).len() == ranges.len());
    assert forall|i: int| 0 <= i < range_items.len() implies (#[trigger] range_items[i]).shape()
        == range_shape(store.ranges[i]) by {
        assert(json::item_shapes(range_items)[i] == ranges[i]);
    }
    lemma_ranges_read_back(range_items, store.ranges, store.ranges.len() as int);
    assert(store.ranges.take(store.ranges.len() as int) =~= store.ranges);
}

/// A store has no key twice in an object and is not nested deep.
proof fn lemma_store_is_tidy(shape: Shape, store: StoreView)
    requires
        writes_store(shape, store),
    ensures
        serial::is_tidy(shape, serial::MAX_DEPTH as int),
{
    let (runs, ranges) = choose|runs: Seq<Shape>, ranges: Seq<Shape>|
        {
            &&& runs.len() == store.runs.len()
            &&& forall|i: int|
                0 <= i < runs.len() ==> #[trigger] writes_run(runs[i], store.runs[i])
            &&& ranges == Seq::new(store.ranges.len(), |i: int| range_shape(store.ranges[i]))
            &&& shape == #[trigger] store_shape(store, runs, ranges)
        };
    let depth = serial::MAX_DEPTH as int;
    reveal_strlit("version");
    reveal_strlit("fingerprint");
    reveal_strlit("runs");
    reveal_strlit("ranges");
    assert("version"@.len() == 7);
    assert("fingerprint"@.len() == 11);
    assert("runs"@.len() == 4);
    assert("ranges"@.len() == 6);
    assert(serial::is_tidy(fingerprint_shape(store.fingerprint), depth - 1)) by {
        reveal_strlit("mem_total");
        reveal_strlit("iomem_hash");
        assert("mem_total"@.len() == 9);
        assert("iomem_hash"@.len() == 10);
        reveal_with_fuel(serial::is_tidy, 2);
    }
    assert forall|i: int| 0 <= i < runs.len() implies serial::is_tidy(
        #[trigger] runs[i],
        depth - 2,
    ) by {
        assert(writes_run(runs[i], store.runs[i]));
        lemma_run_is_tidy(runs[i], store.runs[i], depth - 2);
    }
    assert(serial::is_tidy(Shape::List(runs), depth - 1));
    assert forall|i: int| 0 <= i < ranges.len() implies serial::is_tidy(
        #[trigger] ranges[i],
        depth - 2,
    ) by {
        reveal_strlit("start");
        reveal_strlit("count");
        assert("start"@[0] != "count"@[0]);
        assert(ranges[i] == range_shape(store.ranges[i]));
        reveal_with_fuel(serial::is_tidy, 2);
    }
    assert(serial::is_tidy(Shape::List(ranges), depth - 1));
    reveal_with_fuel(serial::is_tidy, 2);
}

proof fn lemma_run_is_tidy(shape: Shape, run: RunView, depth: int)
    requires
        writes_run(shape, run),
        depth >= 2,
    ensures
        serial::is_tidy(shape, depth),
{
    let time = choose|time: Seq<char>|
        clock::timestamp_in(time) == Some(run.timestamp) && shape == run_shape(run, time);
    reveal_strlit("timestamp");
    reveal_strlit("patterns");
    reveal_strlit("passes");
    reveal_strlit("tested_bytes");
    reveal_strlit("new_bytes");
    reveal_strlit("failures");
    assert("timestamp"@.len() == 9);
    assert("patterns"@.len() == 8);
    assert("passes"@.len() == 6);
    assert("tested_bytes"@.len() == 12);
    assert("new_bytes"@.len() == 9);
    assert("failures"@.len() == 8);
    assert("timestamp"@[0] != "new_bytes"@[0]);
    assert("patterns"@[0] != "failures"@[0]);
    let texts = document::text_shapes(run.patterns);
    assert forall|i: int| 0 <= i < texts.len() implies serial::is_tidy(
        #[trigger] texts[i],
        depth - 2,
    ) by {
        assert(texts[i] is Text);
    }
    assert(serial::is_tidy(Shape::List(texts), depth - 1));
    reveal_with_fuel(serial::is_tidy, 2);
}

/// The document read from the text of a store holds the store.
proof fn lemma_saved_reads_back(node: Json, text: Seq<char>, store: StoreView)
    requires
        writes_text(text, store),
        forall|shape: Shape| #[trigger]
            serial::ordered_text(shape) == text && serial::is_tidy(
                shape,
                serial::MAX_DEPTH as int,
            ) ==> serial::shows(node, serial::tree_of(shape)),
    ensures
        store_in(node) == Some(store),
{
    let put = choose|node: Json|
        {
            &&& writes_store(#[trigger] node.shape(), store)
            &&& text == serial::ordered_text(node.shape())
        };
    let tree = serial::tree_of(put.shape());
    lemma_store_is_tidy(put.shape(), store);
    serial::law_tidy_document_is_told(put, serial::MAX_DEPTH as int);
    lemma_alike_stores(node, put, tree);
    law_saved_store_loads(put, store);
}

/// Whether a value holds a run record, each thing under its name.
pub open spec fn tells_run(node: Json, run: RunView) -> bool {
    &&& json::text_in(json::member(Some(node), "timestamp"@)) matches Some(time)
        && clock::timestamp_in(time) == Some(run.timestamp)
    &&& json::unsigned_in(json::member(Some(node), "passes"@)) == Some(run.passes as u64)
    &&& json::unsigned_in(json::member(Some(node), "tested_bytes"@)) == Some(run.tested_bytes)
    &&& json::unsigned_in(json::member(Some(node), "new_bytes"@)) == Some(run.new_bytes)
    &&& json::unsigned_in(json::member(Some(node), "failures"@)) == Some(run.failures)
    &&& json::items_in(json::member(Some(node), "patterns"@)).len() == run.patterns.len()
    &&& forall|i: int|
        0 <= i < run.patterns.len() ==> json::text_in(
            Some(#[trigger] json::items_in(json::member(Some(node), "patterns"@))[i]),
        ) == Some(run.patterns[i])
}

/// Whether a value holds a range of frames: the first frame and how many there are.
pub open spec fn tells_range(node: Json, range: PfnRange) -> bool {
    &&& json::unsigned_in(json::member(Some(node), "start"@)) == Some(range.start.0)
    &&& json::unsigned_in(json::member(Some(node), "count"@)) == Some(range.count)
}

proof fn lemma_run_is_told(node: Json, run: RunView)
    requires
        writes_run(node.shape(), run),
    ensures
        tells_run(node, run),
{
    let time = choose|time: Seq<char>|
        clock::timestamp_in(time) == Some(run.timestamp) && node.shape() == run_shape(run, time);
    reveal_strlit("timestamp");
    reveal_strlit("patterns");
    reveal_strlit("passes");
    reveal_strlit("tested_bytes");
    reveal_strlit("new_bytes");
    reveal_strlit("failures");
    assert("timestamp"@.len() == 9);
    assert("patterns"@.len() == 8);
    assert("passes"@.len() == 6);
    assert("tested_bytes"@.len() == 12);
    assert("new_bytes"@.len() == 9);
    assert("failures"@.len() == 8);
    assert("timestamp"@[0] != "new_bytes"@[0]);
    assert("patterns"@[0] != "failures"@[0]);
    let pairs = node.shape()->Object_0;
    assert(pairs[0].0 == "timestamp"@);
    assert(pairs[1].0 == "patterns"@);
    assert(pairs[2].0 == "passes"@);
    assert(pairs[3].0 == "tested_bytes"@);
    assert(pairs[4].0 == "new_bytes"@);
    assert(pairs[5].0 == "failures"@);
    json::lemma_found_at(node, 0);
    json::lemma_found_at(node, 1);
    json::lemma_found_at(node, 2);
    json::lemma_found_at(node, 3);
    json::lemma_found_at(node, 4);
    json::lemma_found_at(node, 5);
    let found = json::member(Some(node), "patterns"@)->0;
    json::lemma_items_by_shape(found);
    let items = json::items_in(Some(found));
    assert(json::item_shapes(items).len() == run.patterns.len());
    assert forall|i: int| 0 <= i < run.patterns.len() implies json::text_in(
        Some(#[trigger] items[i]),
    ) == Some(run.patterns[i]) by {
        assert(json::item_shapes(items)[i] == document::text_shapes(run.patterns)[i]);
        assert(items[i].shape() == Shape::Text(run.patterns[i]));
    }
}

proof fn lemma_range_is_told(node: Json, range: PfnRange)
    requires
        node.shape() == range_shape(range),
    ensures
        tells_range(node, range),
{
    reveal_strlit("start");
    reveal_strlit("count");
    assert("start"@[0] != "count"@[0]);
    let pairs = node.shape()->Object_0;
    assert(pairs[0].0 == "start"@);
    assert(pairs[1].0 == "count"@);
    json::lemma_found_at(node, 0);
    json::lemma_found_at(node, 1);
}

/// In a store that was written everything stands under its name: the version, the machine,
/// the runs in order and the ranges in order.
pub proof fn law_store_stands_under_its_names(node: Json, store: StoreView)
    requires
        writes_store(node.shape(), store),
    ensures
        json::unsigned_in(json::member(Some(node), "version"@)) == Some(store.version as u64),
        json::unsigned_in(
            json::member(json::member(Some(node), "fingerprint"@), "mem_total"@),
        ) == Some(store.fingerprint.mem_total),
        json::unsigned_in(
            json::member(json::member(Some(node), "fingerprint"@), "iomem_hash"@),
        ) == Some(store.fingerprint.iomem_hash),
        json::items_in(json::member(Some(node), "runs"@)).len() == store.runs.len(),
        forall|i: int|
            0 <= i < store.runs.len() ==> tells_run(
                #[trigger] json::items_in(json::member(Some(node), "runs"@))[i],
                store.runs[i],
            ),
        json::items_in(json::member(Some(node), "ranges"@)).len() == store.ranges.len(),
        forall|i: int|
            0 <= i < store.ranges.len() ==> tells_range(
                #[trigger] json::items_in(json::member(Some(node), "ranges"@))[i],
                store.ranges[i],
            ),
{
    let (runs, ranges) = choose|runs: Seq<Shape>, ranges: Seq<Shape>|
        {
            &&& runs.len() == store.runs.len()
            &&& forall|i: int|
                0 <= i < runs.len() ==> #[trigger] writes_run(runs[i], store.runs[i])
            &&& ranges == Seq::new(store.ranges.len(), |i: int| range_shape(store.ranges[i]))
            &&& node.shape() == #[trigger] store_shape(store, runs, ranges)
        };
    reveal_strlit("version");
    reveal_strlit("fingerprint");
    reveal_strlit("runs");
    reveal_strlit("ranges");
    reveal_strlit("mem_total");
    reveal_strlit("iomem_hash");
    assert("version"@.len() == 7);
    assert("fingerprint"@.len() == 11);
    assert("runs"@.len() == 4);
    assert("ranges"@.len() == 6);
    assert("mem_total"@.len() == 9);
    assert("iomem_hash"@.len() == 10);
    let pairs = node.shape()->Object_0;
    assert(pairs[0].0 == "version"@);
    assert(pairs[1].0 == "fingerprint"@);
    assert(pairs[2].0 == "runs"@);
    assert(pairs[3].0 == "ranges"@);
    json::lemma_found_at(node, 0);
    json::lemma_found_at(node, 1);
    json::lemma_found_at(node, 2);
    json::lemma_found_at(node, 3);
    let machine = json::member(Some(node), "fingerprint"@)->0;
    let inner = machine.shape()->Object_0;
    assert(inner[0].0 == "mem_total"@);
    assert(inner[1].0 == "iomem_hash"@);
    json::lemma_found_at(machine, 0);
    json::lemma_found_at(machine, 1);
    let run_list = json::member(Some(node), "runs"@)->0;
    json::lemma_items_by_shape(run_list);
    let run_items = json::items_in(Some(run_list));
    assert(json::item_shapes(run_items).len() == runs.len());
    assert forall|i: int| 0 <= i < store.runs.len() implies tells_run(
        #[trigger] run_items[i],
        store.runs[i],
    ) by {
        assert(json::item_shapes(run_items)[i] == runs[i]);
        assert(writes_run(runs[i], store.runs[i]));
        lemma_run_is_told(run_items[i], store.runs[i]);
    }
    let range_list = json::member(Some(node), "ranges"@)->0;
    json::lemma_items_by_shape(range_list);
    let range_items = json::items_in(Some(range_list));
    assert(json::item_shapes(range_items).len() == ranges.len());
    assert forall|i: int| 0 <= i < store.ranges.len() implies tells_range(
        #[trigger] range_items[i],
        store.ranges[i],
    ) by {
        assert(json::item_shapes(range_items)[i] == ranges[i]);
        lemma_range_is_told(range_items[i], store.ranges[i]);
    }
}

/// A store is taken exactly if it has the supported version and belongs to this machine:
/// then it is the one that was found, and else the reason is told.
pub proof fn law_only_own_stores_are_taken(
    found: StoreView,
    fingerprint: Fingerprint,
    r: Result<Option<CoverageStore>, CoverageError>,
)
    requires
        accepted(Some(found), fingerprint, r),
    ensures
        r is Ok <==> found.version == 1 && found.fingerprint.mem_total == fingerprint.mem_total
            && found.fingerprint.iomem_hash == fingerprint.iomem_hash,
        r matches Ok(taken) ==> (taken matches Some(store) && store@ == found),
        r matches Err(CoverageError::VersionMismatch { found: version }) ==> version
            == found.version && version != 1,
        r matches Err(CoverageError::FingerprintMismatch) ==> found.fingerprint != fingerprint,
{
}

} // verus!
