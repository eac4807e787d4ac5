//! Error counters of memory modules.

use ferrite::edac::{
    read_trimmed, read_u64_file, try_read_csrow_api, try_read_dimm_api, ControllerDir, DimmEdac,
    EdacSnapshot, SysDir, SysFile,
};

fn make_snapshot(dimms: Vec<(usize, usize, u64, u64)>) -> EdacSnapshot {
    EdacSnapshot {
        dimms: dimms
            .into_iter()
            .map(|(mc, idx, ce, ue)| DimmEdac {
                mc,
                dimm_index: idx,
                label: None,
                location: None,
                ce_count: ce,
                ue_count: ue,
            })
            .collect(),
    }
}

#[test]
fn delta_detects_increase() {
    let before = make_snapshot(vec![(0, 0, 5, 0), (0, 1, 0, 0)]);
    let after = make_snapshot(vec![(0, 0, 8, 0), (0, 1, 0, 1)]);
    let deltas = before.delta(&after);
    assert_eq!(deltas.len(), 2);
    assert_eq!(deltas[0].ce_delta, 3);
    assert_eq!(deltas[0].ue_delta, 0);
    assert_eq!(deltas[1].ce_delta, 0);
    assert_eq!(deltas[1].ue_delta, 1);
}

#[test]
fn delta_ignores_unchanged() {
    let before = make_snapshot(vec![(0, 0, 5, 0)]);
    let after = make_snapshot(vec![(0, 0, 5, 0)]);
    let deltas = before.delta(&after);
    assert!(deltas.is_empty());
}

#[test]
fn delta_handles_missing_dimm() {
    let before = make_snapshot(vec![(0, 0, 5, 0)]);
    let after = make_snapshot(vec![(0, 0, 6, 0), (0, 1, 1, 0)]);
    let deltas = before.delta(&after);
    // Only mc0/dimm0 has a match; dimm1 is new and has no before counterpart
    assert_eq!(deltas.len(), 1);
    assert_eq!(deltas[0].dimm_index, 0);
}

#[test]
fn counters_that_fall_are_unchanged() {
    let before = make_snapshot(vec![(0, 0, 5, 7), (1, 0, 1, 1)]);
    let after = make_snapshot(vec![(0, 0, 3, 2), (1, 0, 1, 4)]);
    let deltas = before.delta(&after);
    assert_eq!(deltas.len(), 1);
    assert_eq!((deltas[0].mc, deltas[0].ce_delta, deltas[0].ue_delta), (1, 0, 3));
    assert!(before.delta(&before).is_empty());
}

#[test]
fn delta_carries_the_later_label() {
    let before = make_snapshot(vec![(0, 0, 5, 0)]);
    let mut after = make_snapshot(vec![(0, 0, 6, 0)]);
    after.dimms[0].label = Some("DIMM_A1".to_owned());
    let deltas = before.delta(&after);
    assert_eq!(deltas[0].label, Some("DIMM_A1".to_owned()));
}

#[test]
fn read_u64_file_valid() {
    assert_eq!(read_u64_file(Some("42\n")), Some(42));
}

#[test]
fn read_u64_file_invalid() {
    assert_eq!(read_u64_file(Some("not_a_number\n")), None);
}

#[test]
fn read_u64_file_missing() {
    assert_eq!(read_u64_file(None), None);
}

#[test]
fn read_trimmed_non_empty() {
    assert_eq!(read_trimmed(Some("  DIMM_A1  \n")), Some("DIMM_A1".to_owned()));
}

#[test]
fn read_trimmed_empty_returns_none() {
    assert_eq!(read_trimmed(Some("  \n")), None);
}

#[test]
fn capture_returns_none_without_edac() {
    // Without the directory there is nothing to read
    let result = EdacSnapshot::capture(None);
    assert!(result.is_none());
}

fn file(name: &str, contents: &str) -> SysFile {
    SysFile {
        name: name.to_owned(),
        contents: Some(contents.to_owned()),
    }
}

fn dir(name: &str, files: Vec<SysFile>) -> SysDir {
    SysDir {
        name: name.to_owned(),
        files,
    }
}

fn dimm_dir(idx: usize, ce: u64, ue: u64, label: Option<&str>, location: Option<&str>) -> SysDir {
    let mut files = vec![
        file("dimm_ce_count", &format!("{ce}\n")),
        file("dimm_ue_count", &format!("{ue}\n")),
    ];
    if let Some(l) = label {
        files.push(file("dimm_label", &format!("{l}\n")));
    }
    if let Some(loc) = location {
        files.push(file("dimm_location", &format!("{loc}\n")));
    }
    dir(&format!("dimm{idx}"), files)
}

#[test]
fn reads_single_dimm() {
    let mc = vec![dimm_dir(0, 5, 1, Some("DIMM_A1"), Some("channel 0 slot 0"))];
    let mut dimms = Vec::new();
    let found = try_read_dimm_api(Some(&mc), 0, &mut dimms);
    assert!(found);
    assert_eq!(dimms.len(), 1);
    assert_eq!(dimms[0].mc, 0);
    assert_eq!(dimms[0].dimm_index, 0);
    assert_eq!(dimms[0].ce_count, 5);
    assert_eq!(dimms[0].ue_count, 1);
    assert_eq!(dimms[0].label, Some("DIMM_A1".to_owned()));
    assert_eq!(dimms[0].location, Some("channel 0 slot 0".to_owned()));
}

#[test]
fn reads_multiple_dimms() {
    let mc = vec![
        dimm_dir(0, 0, 0, None, None),
        dimm_dir(1, 3, 0, Some("DIMM_B1"), None),
    ];
    let mut dimms = Vec::new();
    try_read_dimm_api(Some(&mc), 0, &mut dimms);
    assert_eq!(dimms.len(), 2);
    assert_eq!(dimms[0].dimm_index, 0);
    assert_eq!(dimms[1].dimm_index, 1);
    assert_eq!(dimms[1].ce_count, 3);
}

#[test]
fn skips_non_dimm_entries() {
    let mc = vec![dimm_dir(0, 0, 0, None, None), dir("some_other_dir", vec![])];
    let mut dimms = Vec::new();
    try_read_dimm_api(Some(&mc), 0, &mut dimms);
    assert_eq!(dimms.len(), 1);
}

#[test]
fn returns_false_for_empty_mc() {
    let mc = vec![];
    let mut dimms = Vec::new();
    assert!(!try_read_dimm_api(Some(&mc), 0, &mut dimms));
    assert!(!try_read_dimm_api(None, 0, &mut dimms));
}

#[test]
fn missing_count_files_default_to_zero() {
    let mc = vec![dir("dimm0", vec![])];
    let mut dimms = Vec::new();
    try_read_dimm_api(Some(&mc), 0, &mut dimms);
    assert_eq!(dimms.len(), 1);
    assert_eq!(dimms[0].ce_count, 0);
    assert_eq!(dimms[0].ue_count, 0);
}

#[test]
fn entries_come_in_the_order_of_their_names() {
    let mc = vec![
        dimm_dir(2, 0, 0, None, None),
        dimm_dir(10, 0, 0, None, None),
        dimm_dir(1, 0, 0, None, None),
    ];
    let mut dimms = Vec::new();
    try_read_dimm_api(Some(&mc), 7, &mut dimms);
    let order: Vec<usize> = dimms.iter().map(|d| d.dimm_index).collect();
    assert_eq!(order, vec![1, 10, 2]);
    assert_eq!(dimms[0].mc, 7);
}

fn csrow_dir(csrow: usize, channels: &[(u64, Option<&str>)], ue: u64) -> SysDir {
    let mut files = vec![file("ue_count", &format!("{ue}\n"))];
    for (ch, (ce, label)) in channels.iter().enumerate() {
        files.push(file(&format!("ch{ch}_ce_count"), &format!("{ce}\n")));
        if let Some(l) = label {
            files.push(file(&format!("ch{ch}_dimm_label"), &format!("{l}\n")));
        }
    }
    dir(&format!("csrow{csrow}"), files)
}

#[test]
fn reads_single_csrow_single_channel() {
    let mc = vec![csrow_dir(0, &[(3, Some("DIMM_A1"))], 1)];
    let mut dimms = Vec::new();
    try_read_csrow_api(Some(&mc), 0, &mut dimms);
    assert_eq!(dimms.len(), 1);
    assert_eq!(dimms[0].mc, 0);
    assert_eq!(dimms[0].ce_count, 3);
    assert_eq!(dimms[0].ue_count, 1);
    assert_eq!(dimms[0].label, Some("DIMM_A1".to_owned()));
    assert_eq!(dimms[0].location, Some("csrow0 channel 0".to_owned()));
}

#[test]
fn reads_multi_channel_csrow() {
    let mc = vec![csrow_dir(0, &[(1, None), (2, Some("CH_B"))], 0)];
    let mut dimms = Vec::new();
    try_read_csrow_api(Some(&mc), 0, &mut dimms);
    assert_eq!(dimms.len(), 2);
    assert_eq!(dimms[0].ce_count, 1);
    assert_eq!(dimms[0].location, Some("csrow0 channel 0".to_owned()));
    assert_eq!(dimms[1].ce_count, 2);
    assert_eq!(dimms[1].label, Some("CH_B".to_owned()));
}

#[test]
fn skips_non_csrow_entries() {
    let mc = vec![csrow_dir(0, &[(0, None)], 0), dir("not_a_csrow", vec![])];
    let mut dimms = Vec::new();
    try_read_csrow_api(Some(&mc), 0, &mut dimms);
    assert_eq!(dimms.len(), 1);
}

#[test]
fn empty_mc_produces_no_dimms() {
    let mc = vec![];
    let mut dimms = Vec::new();
    try_read_csrow_api(Some(&mc), 0, &mut dimms);
    assert!(dimms.is_empty());
}

#[test]
fn rows_are_counted_through() {
    let mc = vec![
        csrow_dir(1, &[(1, None), (2, None)], 0),
        csrow_dir(0, &[(3, None), (4, None)], 0),
    ];
    let mut dimms = Vec::new();
    try_read_csrow_api(Some(&mc), 0, &mut dimms);
    let seen: Vec<(usize, u64)> = dimms.iter().map(|d| (d.dimm_index, d.ce_count)).collect();
    assert_eq!(seen, vec![(0, 3), (1, 4), (2, 1), (3, 2)]);
}

#[test]
fn channels_end_at_the_first_gap_or_at_eight() {
    let mut gap = csrow_dir(0, &[(1, None)], 0);
    gap.files.push(file("ch2_ce_count", "5"));
    let mut dimms = Vec::new();
    try_read_csrow_api(Some(&vec![gap]), 0, &mut dimms);
    assert_eq!(dimms.len(), 1);

    let many: Vec<(u64, Option<&str>)> = (0..10).map(|i| (i, None)).collect();
    let mut dimms = Vec::new();
    try_read_csrow_api(Some(&vec![csrow_dir(0, &many, 0)]), 0, &mut dimms);
    assert_eq!(dimms.len(), 8);
}

#[test]
fn unreadable_counter_still_makes_a_channel() {
    let row = dir(
        "csrow0",
        vec![SysFile {
            name: "ch0_ce_count".to_owned(),
            contents: None,
        }],
    );
    let mut dimms = Vec::new();
    try_read_csrow_api(Some(&vec![row]), 0, &mut dimms);
    assert_eq!(dimms.len(), 1);
    assert_eq!(dimms[0].ce_count, 0);
}

#[test]
fn capture_walks_the_controllers_in_order() {
    let controllers = vec![
        ControllerDir {
            name: "mc1".to_owned(),
            entries: Some(vec![csrow_dir(0, &[(9, None)], 0)]),
        },
        ControllerDir {
            name: "mc0".to_owned(),
            entries: Some(vec![dimm_dir(0, 1, 0, None, None), csrow_dir(0, &[(5, None)], 0)]),
        },
    ];
    let snapshot = EdacSnapshot::capture(Some(controllers)).unwrap();
    let seen: Vec<(usize, u64)> = snapshot.dimms.iter().map(|d| (d.mc, d.ce_count)).collect();
    // Modules with their own directories make the rows of that controller moot.
    assert_eq!(seen, vec![(0, 1), (1, 9)]);
}

#[test]
fn capture_passes_over_what_is_no_controller() {
    for name in ["mc1", "mcx", "mc", "power"] {
        let controllers = vec![
            ControllerDir {
                name: name.to_owned(),
                entries: None,
            },
            ControllerDir {
                name: "mc0".to_owned(),
                entries: Some(vec![dimm_dir(0, 7, 3, None, None)]),
            },
        ];
        let snapshot = EdacSnapshot::capture(Some(controllers)).unwrap();
        assert_eq!(snapshot.dimms.len(), 1);
        assert_eq!(snapshot.dimms[0].mc, 0);
        assert_eq!(snapshot.dimms[0].dimm_index, 0);
        assert_eq!(snapshot.dimms[0].ce_count, 7);
        assert_eq!(snapshot.dimms[0].ue_count, 3);
    }
}

#[test]
fn capture_ignores_modules_outside_a_controller() {
    let controllers = vec![ControllerDir {
        name: "power".to_owned(),
        entries: Some(vec![dimm_dir(0, 1, 0, None, None)]),
    }];
    assert!(EdacSnapshot::capture(Some(controllers)).is_none());
}

#[test]
fn capture_without_modules_is_none() {
    assert!(EdacSnapshot::capture(None).is_none());
    assert!(EdacSnapshot::capture(Some(vec![])).is_none());
    let controllers = vec![ControllerDir {
        name: "mc0".to_owned(),
        entries: Some(vec![]),
    }];
    assert!(EdacSnapshot::capture(Some(controllers)).is_none());
}
