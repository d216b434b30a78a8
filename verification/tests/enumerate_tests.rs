use fast_util::catalog::{build_catalog, FirmwareFile};
use fast_util::enumerate::exp_board_from_reply;

fn catalog_with(names: &[(&str, &str)]) -> fast_util::catalog::Catalog {
    let files: Vec<FirmwareFile> = names
        .iter()
        .map(|(n, p)| FirmwareFile {
            name: n.to_string(),
            path: p.to_string(),
        })
        .collect();
    build_catalog(&files)
}

#[test]
fn board_record_from_identity_reply() {
    let c = catalog_with(&[("FP-EXP-0091_EXP_firmware_v_0_91.txt", "p1")]);
    let b = exp_board_from_reply(&c, "88", "FP-EXP-0091", "ID:EXP FP-EXP-0091 0.48").unwrap();
    assert_eq!(b.address, "88");
    assert_eq!(b.board_name, "FP-EXP-0091");
    assert_eq!(b.version, "0.48");
    assert_eq!(b.available_versions, Some(vec!["0.91".to_string()]));
}

#[test]
fn board_record_falls_back_to_table_type() {
    // The device reports a name the catalog does not know; the address
    // table's board type resolves the versions instead.
    let c = catalog_with(&[("FP-EXP-0091_EXP_firmware_v_0_91.txt", "p1")]);
    let b = exp_board_from_reply(&c, "88", "FP-EXP-0091", "ID:EXP OddName 0.48").unwrap();
    assert_eq!(b.board_name, "OddName");
    assert_eq!(b.available_versions, Some(vec!["0.91".to_string()]));
}

#[test]
fn board_record_without_catalog_entry() {
    let c = catalog_with(&[]);
    let b = exp_board_from_reply(&c, "88", "FP-EXP-0091", "ID:EXP FP-EXP-0091 0.48").unwrap();
    assert_eq!(b.available_versions, None);
}

#[test]
fn no_board_record_from_silence() {
    let c = catalog_with(&[]);
    assert!(exp_board_from_reply(&c, "88", "FP-EXP-0091", "").is_none());
    assert!(exp_board_from_reply(&c, "88", "FP-EXP-0091", "garbage").is_none());
}
