use fast_util::addresses::board_type_for_address;
use fast_util::catalog::{build_catalog, parse_firmware_name, FirmwareFile};

fn file(name: &str, path: &str) -> FirmwareFile {
    FirmwareFile {
        name: name.to_string(),
        path: path.to_string(),
    }
}

#[test]
fn fixture_catalog_contents() {
    let files = vec![
        file("A_EXP_firmware_v_1_5.txt", "p1"),
        file("A_EXP_firmware_v_2_0.txt", "p2"),
    ];
    let c = build_catalog(&files);
    assert_eq!(c.lookup_path("A_EXP", "1.05"), Some("p1".to_string()));
    assert_eq!(c.lookup_path("A_EXP", "2.00"), Some("p2".to_string()));
    assert_eq!(c.lookup_path("A_EXP", "1.06"), None);
    assert_eq!(c.lookup_path("B_EXP", "1.05"), None);
    let versions = c.available_versions("A_EXP").unwrap();
    assert_eq!(versions, vec!["1.05".to_string(), "2.00".to_string()]);
    assert_eq!(c.available_versions("B_EXP"), None);
}

#[test]
fn catalog_construction_is_deterministic() {
    let files = vec![
        file("A_EXP_firmware_v_1_5.txt", "p1"),
        file("A_EXP_firmware_v_2_0.txt", "p2"),
        file("FP-CPU-2000_NET_firmware_v_2_28.txt", "p3"),
    ];
    let c1 = build_catalog(&files);
    let c2 = build_catalog(&files);
    assert_eq!(c1.lookup_path("A_EXP", "1.05"), c2.lookup_path("A_EXP", "1.05"));
    assert_eq!(
        c1.available_versions("A_EXP"),
        c2.available_versions("A_EXP")
    );
    assert_eq!(
        c1.lookup_path("FP-CPU-2000_NET", "2.28"),
        c2.lookup_path("FP-CPU-2000_NET", "2.28")
    );
}

#[test]
fn first_file_wins_for_duplicate_version() {
    let files = vec![
        file("A_EXP_firmware_v_1_5.txt", "first"),
        file("A_EXP_firmware_v_1_5.txt", "second"),
    ];
    let c = build_catalog(&files);
    assert_eq!(c.lookup_path("A_EXP", "1.05"), Some("first".to_string()));
}

#[test]
fn malformed_names_are_skipped() {
    let files = vec![
        file("A_EXP_firmware_1_5.txt", "p1"),
        file("A_EXP_firmware_v_x_5.txt", "p2"),
        file("A_EXP_firmware_v_1_5.dat", "p3"),
        file("noextension", "p4"),
        file("AEXPfirmware_v_1_5.txt", "p5"),
        file("A_EXP_firmware_v_1_5_beta.txt", "p6"),
    ];
    let c = build_catalog(&files);
    assert_eq!(c.lookup_path("A_EXP", "1.05"), None);
    assert_eq!(c.available_versions("A_EXP"), None);
}

#[test]
fn versions_listed_sorted_as_text() {
    let files = vec![
        file("A_EXP_firmware_v_2_0.txt", "p2"),
        file("A_EXP_firmware_v_1_5.txt", "p1"),
        file("A_EXP_firmware_v_1_12.txt", "p3"),
    ];
    let c = build_catalog(&files);
    let versions = c.available_versions("A_EXP").unwrap();
    assert_eq!(
        versions,
        vec!["1.05".to_string(), "1.12".to_string(), "2.00".to_string()]
    );
}

#[test]
fn firmware_name_parses() {
    let (board, proto, maj, min) =
        parse_firmware_name("FP-EXP-0091_EXP_firmware_v_0_91.txt").unwrap();
    assert_eq!(board, "FP-EXP-0091");
    assert_eq!(proto, "EXP");
    assert_eq!(maj, 0);
    assert_eq!(min, 91);
}

#[test]
fn firmware_name_extension_case_insensitive() {
    assert!(parse_firmware_name("A_EXP_firmware_v_1_5.TXT").is_some());
    assert!(parse_firmware_name("A_EXP_firmware_v_1_5.txt.bak").is_none());
}

#[test]
fn address_table_lookup() {
    assert_eq!(
        board_type_for_address("88"),
        Some("FP-EXP-0091".to_string())
    );
    assert_eq!(
        board_type_for_address("48"),
        Some("FP-CPU-2000".to_string())
    );
    assert_eq!(
        board_type_for_address("8a"),
        Some("FP-EXP-0091".to_string())
    );
    assert_eq!(
        board_type_for_address("d0"),
        Some("FP-EXP-0051".to_string())
    );
    assert_eq!(board_type_for_address("ZZ"), None);
    assert_eq!(board_type_for_address(""), None);
}
