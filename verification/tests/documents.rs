//! What is written to files and read from them again.

use ferrite::edac::EccDelta;
use ferrite::physmem::coverage::{fingerprint_from, CoverageError, CoverageStore, Fingerprint};
use ferrite::physmem::gap::GapReport;
use ferrite::physmem::pfn::{Pfn, PfnRange};
use ferrite::physmem::phys::{IoFailure, IoKind};
use ferrite::physmem::store_file::{range_json, StoreText};
use ferrite::results::document::{deltas_json, gap_json, texts_json};
use ferrite::results::json::{as_flag, as_list, as_text, as_unsigned, as_unsigned_or_zero, get, Json};
use ferrite::results::serial::{compact, pretty, read_json};

fn number(node: &Json, key: &str) -> Option<u64> {
    as_unsigned(get(Some(node), key))
}

fn r(start: u64, count: u64) -> PfnRange {
    PfnRange {
        start: Pfn(start),
        count,
    }
}

fn fp() -> Fingerprint {
    fingerprint_from(32_000_000_000, &[(0x1000, 0xffff_ffff)])
}

/// A file whose fields nobody complains of.
fn file(text: &str) -> Result<StoreText, IoFailure> {
    Ok(StoreText {
        text: text.to_owned(),
        complaint: None,
    })
}

#[test]
fn gap_serializes_named_fields_and_omits_zero_unknown() {
    let report = GapReport {
        free_bytes: 4096,
        reclaimable_bytes: 8192,
        in_use_bytes: 0,
        unreachable_bytes: 4096,
        unknown_bytes: 0,
    };
    let json = gap_json(&report);
    assert_eq!(number(&json, "free_bytes"), Some(4096));
    assert_eq!(number(&json, "reclaimable_bytes"), Some(8192));
    assert_eq!(number(&json, "in_use_bytes"), Some(0));
    assert_eq!(number(&json, "unreachable_bytes"), Some(4096));
    assert!(get(Some(&json), "unknown_bytes").is_none());
}

#[test]
fn gap_serializes_nonzero_unknown() {
    let report = GapReport {
        unknown_bytes: 4096,
        ..GapReport::default()
    };
    assert_eq!(number(&gap_json(&report), "unknown_bytes"), Some(4096));
}

#[test]
fn ecc_delta_serialization() {
    let deltas = vec![
        EccDelta {
            mc: 0,
            dimm_index: 1,
            label: Some("DIMM_A1".to_owned()),
            ce_delta: 3,
            ue_delta: 0,
        },
        EccDelta {
            mc: 0,
            dimm_index: 0,
            label: None,
            ce_delta: 0,
            ue_delta: 1,
        },
    ];
    let json = deltas_json(&deltas);
    let items = as_list(Some(&json)).unwrap();
    assert_eq!(as_text(get(Some(&items[0]), "label")), Some("DIMM_A1"));
    // A label that is missing is left out.
    assert!(get(Some(&items[1]), "label").is_none());
    assert!(compact(&items[0]).contains("\"label\":\"DIMM_A1\""));
}

#[test]
fn serializes_transparently_as_bare_u64() {
    let json = range_json(&r(42, 1));
    assert!(matches!(get(Some(&json), "start"), Some(Json::Unsigned(42))));
}

#[test]
fn range_serializes_with_bare_u64_start() {
    let json = range_json(&r(5, 3));
    assert_eq!(number(&json, "start"), Some(5));
    assert_eq!(number(&json, "count"), Some(3));
}

#[test]
fn coverage_save_load_roundtrip() {
    let mut store = CoverageStore::new(fp());
    let now: jiff::Timestamp = "2026-04-08T21:53:42.123456789Z".parse().unwrap();
    store.record_run(&[r(5, 5)], now, vec!["checkerboard".to_owned()], 2, 0);
    let loaded = CoverageStore::load(file(&store.save()), fp()).unwrap().unwrap();
    assert_eq!(loaded, store);
    assert_eq!(loaded.runs[0].timestamp, now);
}

#[test]
fn names_that_need_escapes_are_loaded_again() {
    let mut store = CoverageStore::new(fp());
    let names = vec!["a \"b\" \\ c".to_owned(), "\u{1}\n\u{e9}".to_owned(), String::new()];
    store.record_run(&[r(5, 5), r(20, 1)], jiff::Timestamp::UNIX_EPOCH, names, 2, 7);
    store.record_run(&[r(90, 1)], jiff::Timestamp::UNIX_EPOCH, vec![], 1, 0);
    let loaded = CoverageStore::load(file(&store.save()), fp()).unwrap().unwrap();
    assert_eq!(loaded, store);
}

#[test]
fn a_complaint_about_the_fields_is_a_parse_error() {
    let complaint = "duplicate field `version` at line 1 column 23";
    let contents = Ok(StoreText {
        text: CoverageStore::new(fp()).save(),
        complaint: Some(complaint.to_owned()),
    });
    assert_eq!(
        CoverageStore::load(contents, fp()),
        Err(CoverageError::Parse {
            message: complaint.to_owned()
        })
    );
}

#[test]
fn a_time_is_written_in_full() {
    let mut store = CoverageStore::new(fp());
    store.record_run(&[r(5, 5)], jiff::Timestamp::UNIX_EPOCH, vec![], 1, 0);
    let json = store.to_json();
    let runs = as_list(get(Some(&json), "runs")).unwrap();
    assert_eq!(as_text(get(Some(&runs[0]), "timestamp")), Some("1970-01-01T00:00:00Z"));
}

#[test]
fn another_machine_does_not_load() {
    let json = CoverageStore::new(fp()).to_json();
    let other = fingerprint_from(16_000_000_000, &[(0x1000, 0xffff)]);
    assert_eq!(
        CoverageStore::from_json(&json, other),
        Err(CoverageError::FingerprintMismatch)
    );
    assert_eq!(
        CoverageStore::load(file(&CoverageStore::new(fp()).save()), other),
        Err(CoverageError::FingerprintMismatch)
    );
}

#[test]
fn another_version_does_not_load() {
    let mut store = CoverageStore::new(fp());
    store.version = 999;
    let other = fingerprint_from(16_000_000_000, &[(0x1000, 0xffff)]);
    assert_eq!(
        CoverageStore::from_json(&store.to_json(), other),
        Err(CoverageError::VersionMismatch { found: 999 })
    );
}

#[test]
fn coverage_missing_file_loads_none() {
    let missing = IoFailure {
        kind: IoKind::NotFound,
        message: "No such file or directory (os error 2)".to_owned(),
    };
    assert_eq!(CoverageStore::load(Err(missing), fp()), Ok(None));
}

#[test]
fn load_dir_path_returns_read_error() {
    let directory = IoFailure {
        kind: IoKind::Other,
        message: "Is a directory (os error 21)".to_owned(),
    };
    let Err(e) = CoverageStore::load(Err(directory), fp()) else {
        panic!("expected read error");
    };
    assert_eq!(
        e,
        CoverageError::Read {
            message: "Is a directory (os error 21)".to_owned()
        }
    );
}

#[test]
fn coverage_corrupt_json_is_parse_error() {
    let Err(e) = CoverageStore::load(file("{not json"), fp()) else {
        panic!("expected parse error");
    };
    assert!(matches!(e, CoverageError::Parse { .. }));
    assert!(e.to_string().ends_with("key must be a string at line 1 column 2"));
}

#[test]
fn what_holds_no_store_is_a_parse_error() {
    let texts = [
        "[]",
        "{}",
        r#"{"version":1}"#,
        r#"{"version":-1,"fingerprint":{"mem_total":1,"iomem_hash":2},"runs":[],"ranges":[]}"#,
        r#"{"version":4294967296,"fingerprint":{"mem_total":1,"iomem_hash":2},"runs":[],"ranges":[]}"#,
        r#"{"version":1,"fingerprint":{"mem_total":1},"runs":[],"ranges":[]}"#,
        r#"{"version":1,"fingerprint":{"mem_total":1,"iomem_hash":2},"runs":[{}],"ranges":[]}"#,
        r#"{"version":1,"fingerprint":{"mem_total":1,"iomem_hash":2},"runs":[],"ranges":[5]}"#,
        r#"{"version":1,"fingerprint":{"mem_total":1,"iomem_hash":2},"runs":{},"ranges":[]}"#,
    ];
    for text in texts {
        let error = CoverageStore::load(file(text), fp()).unwrap_err();
        assert_eq!(
            error.to_string(),
            "coverage file is not valid JSON: it holds no coverage store"
        );
    }
}

#[test]
fn a_time_that_is_none_is_a_parse_error() {
    let run = |time: &str| {
        format!(
            r#"{{"version":1,"fingerprint":{{"mem_total":1,"iomem_hash":2}},"runs":[{{"timestamp":"{time}",
            "patterns":["a"],"passes":1,"tested_bytes":2,"new_bytes":3,"failures":4}}],"ranges":[]}}"#
        )
    };
    let fingerprint = Fingerprint {
        mem_total: 1,
        iomem_hash: 2,
    };
    let load = |text: &str| {
        CoverageStore::load(file(text), fingerprint).map(|loaded| loaded.unwrap())
    };
    assert!(load(&run("yesterday")).is_err());
    let store = load(&run("2024-06-01T00:00:00Z")).unwrap();
    assert_eq!(store.runs[0].patterns, ["a"]);
    assert_eq!(store.runs[0].failures, 4);
}

#[test]
fn a_record_may_be_a_list_of_its_values() {
    let fingerprint = Fingerprint {
        mem_total: 1,
        iomem_hash: 2,
    };
    let load = |text: &str| {
        CoverageStore::load(file(text), fingerprint).map(|loaded| loaded.unwrap())
    };
    let named = load(
        r#"{"version":1,"fingerprint":{"mem_total":1,"iomem_hash":2},"runs":[{"timestamp":
        "2024-06-01T00:00:00Z","patterns":["a"],"passes":5,"tested_bytes":6,"new_bytes":7,
        "failures":8}],"ranges":[{"start":3,"count":4}]}"#,
    )
    .unwrap();
    let listed =
        load(r#"[1,[1,2],[["2024-06-01T00:00:00Z",["a"],5,6,7,8]],[[3,4]]]"#).unwrap();
    assert_eq!(listed, named);
    // All of them, and no more.
    assert!(load("[1,[1,2],[],[]]").is_ok());
    assert!(load("[1,[1,2],[]]").is_err());
    assert!(load("[1,[1,2],[],[],0]").is_err());
    assert!(load("[1,[1],[],[]]").is_err());
    assert!(load("[1,[1,2],[],[[3]]]").is_err());
    assert!(load("[1,[1,2],[],[[3,4,5]]]").is_err());
}

#[test]
fn keys_that_are_unknown_are_passed_over() {
    let Json::Object(mut pairs) = CoverageStore::new(fp()).to_json() else {
        panic!("a store is an object");
    };
    pairs.push(("comment".to_owned(), Json::Bool(true)));
    assert!(CoverageStore::from_json(&Json::Object(pairs), fp()).is_ok());
}

#[test]
fn values_are_looked_up_by_key() {
    let json = read_json(r#"{"a":[1,"x"],"b":true,"c":1.5,"d":null}"#).unwrap();
    let a = as_list(get(Some(&json), "a")).unwrap();
    assert_eq!(as_unsigned(Some(&a[0])), Some(1));
    assert_eq!(as_text(Some(&a[1])), Some("x"));
    assert!(as_flag(get(Some(&json), "b")));
    assert_eq!(as_unsigned(get(Some(&json), "c")), None);
    assert_eq!(as_unsigned_or_zero(get(Some(&json), "c")), 0);
    assert!(!as_flag(get(Some(&json), "d")));
    assert!(get(Some(&json), "e").is_none());
    assert!(get(get(Some(&json), "e"), "f").is_none());
    let texts = texts_json(&vec!["p".to_owned(), "q".to_owned()]);
    assert_eq!(as_list(Some(&texts)).unwrap().len(), 2);
}

#[test]
fn text_survives_writing_and_reading() {
    let text = "tab\t quote\" backslash\\ newline\n nul\0 \u{e9}\u{1f600}";
    let json = Json::List(vec![Json::Text(text.to_owned()), Json::Unsigned(u64::MAX), Json::Null]);
    for written in [compact(&json), pretty(&json)] {
        let again = read_json(&written).unwrap();
        let items = as_list(Some(&again)).unwrap();
        assert_eq!(as_text(Some(&items[0])), Some(text));
        assert_eq!(as_unsigned(Some(&items[1])), Some(u64::MAX));
        assert!(matches!(items[2], Json::Null));
    }
}

#[test]
fn nesting_is_read_up_to_a_depth() {
    let nested = |depth: usize| (0..depth).fold(Json::Null, |inner, _| Json::List(vec![inner]));
    assert!(read_json(&compact(&nested(127))).is_ok());
    assert!(read_json(&compact(&nested(128))).is_err());
}

#[test]
fn the_text_of_a_store_is_compact() {
    let fingerprint = Fingerprint {
        mem_total: 1,
        iomem_hash: 2,
    };
    let mut store = CoverageStore::new(fingerprint);
    store.record_run(
        &[r(5, 3)],
        jiff::Timestamp::UNIX_EPOCH,
        vec!["Solid Bits".to_owned()],
        2,
        0,
    );
    assert_eq!(
        store.save(),
        "{\"version\":1,\"fingerprint\":{\"mem_total\":1,\"iomem_hash\":2},\
         \"runs\":[{\"timestamp\":\"1970-01-01T00:00:00Z\",\"patterns\":[\"Solid Bits\"],\
         \"passes\":2,\"tested_bytes\":12288,\"new_bytes\":12288,\"failures\":0}],\
         \"ranges\":[{\"start\":5,\"count\":3}]}"
    );
}
