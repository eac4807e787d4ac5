//! Memory modules from both sides.

use ferrite::dimm::{find_smbios_match, match_by_location, DimmEntry, DimmInfo, DimmTopology};
use ferrite::edac::{ControllerDir, DimmEdac, EdacSnapshot, SysDir, SysFile};

fn edac_dimm(mc: usize, idx: usize, label: Option<&str>, location: Option<&str>) -> DimmEdac {
    DimmEdac {
        mc,
        dimm_index: idx,
        label: label.map(str::to_owned),
        location: location.map(str::to_owned),
        ce_count: 0,
        ue_count: 0,
    }
}

fn smbios_dimm(device_locator: &str, bank_locator: &str) -> DimmInfo {
    DimmInfo {
        handle: 0,
        device_locator: device_locator.to_owned(),
        bank_locator: bank_locator.to_owned(),
        manufacturer: Some("TestMfr".to_owned()),
        serial_number: None,
        part_number: None,
        size_mb: 8192,
        memory_type: "DDR5".to_owned(),
        speed_mhz: 4800,
    }
}

#[test]
fn match_by_label() {
    let edac = edac_dimm(0, 0, Some("DIMM_A1"), None);
    let smbios = vec![
        smbios_dimm("DIMM_B1", "BANK 1"),
        smbios_dimm("DIMM_A1", "BANK 0"),
    ];
    let used = vec![false, false];
    assert_eq!(find_smbios_match(&edac, &smbios, &used), Some(1));
}

#[test]
fn match_by_location_substring() {
    let edac = edac_dimm(0, 0, None, Some("channel 0 slot 0"));
    let smbios = vec![
        smbios_dimm("DIMM_B1", "P0_Node0_Channel1_Dimm0"),
        smbios_dimm("DIMM_A1", "P0_Node0_Channel0_Dimm0"),
    ];
    let used = vec![false, false];
    // "channel 0 slot 0" doesn't substring-match "P0_Node0_Channel0_Dimm0"
    // This is a known limitation -- exact substring matching is imperfect
    assert_eq!(find_smbios_match(&edac, &smbios, &used), None);
}

#[test]
fn no_match_returns_none() {
    let edac = edac_dimm(0, 0, None, None);
    let smbios = vec![smbios_dimm("DIMM_A1", "BANK 0")];
    let used = vec![false];
    assert_eq!(find_smbios_match(&edac, &smbios, &used), None);
}

#[test]
fn display_full_entry() {
    let entry = DimmEntry {
        edac: Some(edac_dimm(0, 0, None, Some("channel 0 slot 0"))),
        smbios: Some(smbios_dimm("DIMM_A1", "BANK 0")),
    };
    let s = entry.to_string();
    assert!(s.contains("DIMM_A1"));
    assert!(s.contains("TestMfr"));
    assert!(s.contains("channel 0 slot 0"));
}

#[test]
fn display_smbios_only_with_manufacturer() {
    let entry = DimmEntry {
        edac: None,
        smbios: Some(smbios_dimm("DIMM_B1", "BANK 1")),
    };
    let s = entry.to_string();
    assert!(s.contains("DIMM_B1"));
    assert!(s.contains("TestMfr"));
    assert!(s.contains("8192MB"));
}

#[test]
fn display_smbios_only_without_manufacturer() {
    let mut info = smbios_dimm("DIMM_C1", "BANK 2");
    info.manufacturer = None;
    let entry = DimmEntry {
        edac: None,
        smbios: Some(info),
    };
    let s = entry.to_string();
    assert_eq!(s, "DIMM_C1");
}

#[test]
fn display_edac_only_with_location_and_label() {
    let entry = DimmEntry {
        edac: Some(edac_dimm(1, 2, Some("DIMM_X"), Some("channel 1 slot 0"))),
        smbios: None,
    };
    let s = entry.to_string();
    assert!(s.contains("mc1/dimm2"));
    assert!(s.contains("channel 1 slot 0"));
    assert!(s.contains("DIMM_X"));
}

#[test]
fn display_edac_only_no_label_no_location() {
    let entry = DimmEntry {
        edac: Some(edac_dimm(0, 3, None, None)),
        smbios: None,
    };
    assert_eq!(entry.to_string(), "mc0/dimm3");
}

#[test]
fn display_neither() {
    let entry = DimmEntry {
        edac: None,
        smbios: None,
    };
    assert_eq!(entry.to_string(), "(unknown)");
}

fn make_edac(dimms: Vec<DimmEdac>) -> EdacSnapshot {
    EdacSnapshot { dimms }
}

#[test]
fn none_none_returns_none() {
    assert!(DimmTopology::merge(None, None).is_none());
}

#[test]
fn edac_only() {
    let edac = make_edac(vec![edac_dimm(0, 0, Some("DIMM_A1"), None)]);
    let topo = DimmTopology::merge(Some(edac), None).unwrap();
    assert_eq!(topo.dimms.len(), 1);
    assert!(topo.dimms[0].edac.is_some());
    assert!(topo.dimms[0].smbios.is_none());
}

#[test]
fn smbios_only() {
    let smbios = vec![smbios_dimm("DIMM_A1", "BANK 0")];
    let topo = DimmTopology::merge(None, Some(smbios)).unwrap();
    assert_eq!(topo.dimms.len(), 1);
    assert!(topo.dimms[0].edac.is_none());
    assert!(topo.dimms[0].smbios.is_some());
}

#[test]
fn matched_merge() {
    let edac = make_edac(vec![edac_dimm(0, 0, Some("DIMM_A1"), None)]);
    let smbios = vec![smbios_dimm("DIMM_A1", "BANK 0")];
    let topo = DimmTopology::merge(Some(edac), Some(smbios)).unwrap();
    assert_eq!(topo.dimms.len(), 1);
    assert!(topo.dimms[0].edac.is_some());
    assert!(topo.dimms[0].smbios.is_some());
}

#[test]
fn unmatched_entries_kept() {
    let edac = make_edac(vec![edac_dimm(0, 0, None, None)]);
    let smbios = vec![smbios_dimm("DIMM_A1", "BANK 0")];
    let topo = DimmTopology::merge(Some(edac), Some(smbios)).unwrap();
    // EDAC entry unmatched + SMBIOS entry unmatched = 2 entries
    assert_eq!(topo.dimms.len(), 2);
}

#[test]
fn partial_match_preserves_all() {
    let edac = make_edac(vec![
        edac_dimm(0, 0, Some("DIMM_A1"), None),
        edac_dimm(0, 1, None, None),
    ]);
    let smbios = vec![
        smbios_dimm("DIMM_A1", "BANK 0"),
        smbios_dimm("DIMM_B1", "BANK 1"),
    ];
    let topo = DimmTopology::merge(Some(edac), Some(smbios)).unwrap();
    // DIMM_A1 matched, edac dimm1 unmatched, DIMM_B1 unmatched = 3
    assert_eq!(topo.dimms.len(), 3);
}

#[test]
fn match_skips_used_slots() {
    let edac = edac_dimm(0, 0, Some("DIMM_A1"), None);
    let smbios = vec![
        smbios_dimm("DIMM_A1", "BANK 0"),
        smbios_dimm("DIMM_A1", "BANK 1"), // duplicate label
    ];
    // First slot is already used
    let used = vec![true, false];
    assert_eq!(find_smbios_match(&edac, &smbios, &used), Some(1));
}

#[test]
fn match_by_bank_locator_substring() {
    let edac = edac_dimm(0, 0, None, Some("BANK 0"));
    let smbios = vec![
        smbios_dimm("DIMM_B1", "BANK 1"),
        smbios_dimm("DIMM_A1", "BANK 0"),
    ];
    let used = vec![false, false];
    assert_eq!(find_smbios_match(&edac, &smbios, &used), Some(1));
}

#[test]
fn display_full_entry_without_manufacturer() {
    let mut info = smbios_dimm("DIMM_A1", "BANK 0");
    info.manufacturer = None;
    let entry = DimmEntry {
        edac: Some(edac_dimm(0, 0, None, Some("channel 0 slot 0"))),
        smbios: Some(info),
    };
    let s = entry.to_string();
    // Should show device_locator and location but no manufacturer block
    assert!(s.contains("DIMM_A1"));
    assert!(s.contains("channel 0 slot 0"));
    assert!(!s.contains("TestMfr"));
}

#[test]
fn label_wins_over_location() {
    let edac = edac_dimm(0, 0, Some("DIMM_B1"), Some("BANK 0"));
    let smbios = vec![
        smbios_dimm("DIMM_A1", "BANK 0"),
        smbios_dimm("DIMM_B1", "BANK 1"),
    ];
    assert_eq!(find_smbios_match(&edac, &smbios, &[false, false]), Some(1));
    // With its own slot taken, the location decides.
    assert_eq!(find_smbios_match(&edac, &smbios, &[false, true]), Some(0));
}

#[test]
fn location_matches_either_way_and_in_any_case() {
    let smbios = vec![smbios_dimm("A", ""), smbios_dimm("B", "Node0 CHANNEL 1 here")];
    let edac = edac_dimm(0, 0, None, Some("channel 1"));
    assert_eq!(find_smbios_match(&edac, &smbios, &[false, false]), Some(1));
    let smbios = vec![smbios_dimm("A", "\u{c4}B")];
    let edac = edac_dimm(0, 0, None, Some("x \u{e4}b y"));
    assert_eq!(find_smbios_match(&edac, &smbios, &[false]), Some(0));
}

#[test]
fn lowered_locations_are_compared_as_they_are() {
    let banks = vec!["".to_owned(), "bank 1".to_owned(), "bank 10".to_owned()];
    assert_eq!(match_by_location("bank 10", &banks, &[false, false, false]), Some(1));
    assert_eq!(match_by_location("bank 10", &banks, &[false, true, false]), Some(2));
    assert_eq!(match_by_location("BANK 10", &banks, &[false, false, false]), None);
}

#[test]
fn entries_in_words() {
    let entry = DimmEntry {
        edac: Some(edac_dimm(0, 0, None, Some("channel 0 slot 0"))),
        smbios: Some(smbios_dimm("DIMM_A1", "BANK 0")),
    };
    assert_eq!(entry.to_string(), "DIMM_A1 (TestMfr 8192MB DDR5-4800) [channel 0 slot 0]");
    let entry = DimmEntry { edac: None, smbios: Some(smbios_dimm("DIMM_B1", "BANK 1")) };
    assert_eq!(entry.to_string(), "DIMM_B1 (TestMfr 8192MB DDR5)");
    let entry = DimmEntry {
        edac: Some(edac_dimm(1, 2, Some("DIMM_X"), Some("channel 1 slot 0"))),
        smbios: None,
    };
    assert_eq!(entry.to_string(), "mc1/dimm2 [channel 1 slot 0] (DIMM_X)");
}

#[test]
fn topology_from_both_sources() {
    let controllers = vec![ControllerDir {
        name: "mc0".to_owned(),
        entries: Some(vec![SysDir {
            name: "dimm0".to_owned(),
            files: vec![SysFile {
                name: "dimm_label".to_owned(),
                contents: Some("DIMM_A1\n".to_owned()),
            }],
        }]),
    }];
    let slots = vec![smbios_dimm("DIMM_A1", "BANK 0"), smbios_dimm("DIMM_B1", "BANK 1")];
    let topo = DimmTopology::build(Some(controllers), Some(slots)).unwrap();
    assert_eq!(topo.dimms.len(), 2);
    assert!(topo.dimms[0].edac.is_some() && topo.dimms[0].smbios.is_some());
    assert!(topo.dimms[1].edac.is_none() && topo.dimms[1].smbios.is_some());
    assert!(DimmTopology::build(None, None).is_none());
    assert!(DimmTopology::build(None, Some(vec![])).is_none());
}

#[test]
fn topology_passes_over_what_is_no_controller() {
    let module = SysDir {
        name: "dimm0".to_owned(),
        files: vec![],
    };
    let controllers = vec![
        ControllerDir {
            name: "mc0".to_owned(),
            entries: Some(vec![module]),
        },
        ControllerDir {
            name: "power".to_owned(),
            entries: Some(vec![]),
        },
    ];
    let topo = DimmTopology::build(Some(controllers), None).unwrap();
    assert_eq!(topo.dimms.len(), 1);
    assert_eq!(topo.dimms[0].edac.as_ref().unwrap().dimm_index, 0);
}
