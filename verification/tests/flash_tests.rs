use fast_util::catalog::{build_catalog, Catalog, FirmwareFile};
use fast_util::enumerate::{
    broadcast_command, ea_command, exp_id_command, net_id_command, net_node_command, net_scan_stop,
};
use fast_util::flash::{
    bootloader_poll_step, id_poll_done, plan_exp_update, plan_net_update, split_records,
    verify_id_response, FlashError, PollVerdict, StreamProgress, VerifyOutcome,
    BOOT_ACK_DEADLINE_MS, VERIFY_DEADLINE_MS,
};

fn exp_catalog() -> Catalog {
    build_catalog(&vec![FirmwareFile {
        name: "FP-EXP-0091_EXP_firmware_v_0_91.txt".to_string(),
        path: "/fw/FP-EXP-0091_EXP_firmware_v_0_91.txt".to_string(),
    }])
}

fn net_catalog() -> Catalog {
    build_catalog(&vec![FirmwareFile {
        name: "FP-CPU-2000_NET_firmware_v_2_28.txt".to_string(),
        path: "/fw/FP-CPU-2000_NET_firmware_v_2_28.txt".to_string(),
    }])
}

#[test]
fn command_text() {
    assert_eq!(exp_id_command("88"), "ID@88:\r");
    assert_eq!(ea_command("88"), "ea:88\r");
    assert_eq!(net_id_command(), "ID:\r");
    assert_eq!(net_node_command(3), "NN:03\r");
    assert_eq!(net_node_command(12), "NN:12\r");
    assert_eq!(broadcast_command(), "bn:aa55\r");
}

#[test]
fn net_scan_stop_rule() {
    assert!(net_scan_stop(""));
    assert!(net_scan_stop("junk !Node Not Found! junk"));
    assert!(!net_scan_stop("NN:00,Neuron,2.28"));
}

#[test]
fn exp_plan_resolves_catalog_file() {
    let c = exp_catalog();
    let plan = plan_exp_update(&c, "88", "0.91").unwrap();
    assert_eq!(plan.select_cmd.as_deref(), Some("ea:88\r"));
    assert_eq!(plan.file_path, "/fw/FP-EXP-0091_EXP_firmware_v_0_91.txt");
    assert_eq!(plan.pacing_ms, 200);
    assert_eq!(plan.ack_token, "!BL2040:02");
    assert_eq!(plan.id_cmd, "ID@88:\r");
    assert_eq!(plan.id_prefix, "ID:EXP");
    assert_eq!(plan.expected_board, "FP-EXP-0091");
    assert_eq!(plan.expected_version, "0.91");
    assert!(!plan.strip_major_zeros);
    assert!(plan.broadcast_cmd.is_none());
}

#[test]
fn exp_plan_unknown_address() {
    let c = exp_catalog();
    match plan_exp_update(&c, "ZZ", "0.91") {
        Err(FlashError::UnknownBoardAddress { address }) => assert_eq!(address, "ZZ"),
        other => panic!("expected UnknownBoardAddress, got {:?}", other),
    }
}

#[test]
fn exp_plan_firmware_not_found_reports_available() {
    let c = exp_catalog();
    match plan_exp_update(&c, "88", "9.99") {
        Err(FlashError::FirmwareNotFound { key, available }) => {
            assert_eq!(key, "FP-EXP-0091_EXP");
            assert_eq!(available, Some(vec!["0.91".to_string()]));
        }
        other => panic!("expected FirmwareNotFound, got {:?}", other),
    }
}

#[test]
fn exp_plan_firmware_not_found_without_key() {
    let c = exp_catalog();
    match plan_exp_update(&c, "48", "1.00") {
        Err(FlashError::FirmwareNotFound { key, available }) => {
            assert_eq!(key, "FP-CPU-2000_EXP");
            assert_eq!(available, None);
        }
        other => panic!("expected FirmwareNotFound, got {:?}", other),
    }
}

#[test]
fn net_plan_uses_fixed_key() {
    let c = net_catalog();
    let plan = plan_net_update(&c, "2.28").unwrap();
    assert!(plan.select_cmd.is_none());
    assert_eq!(plan.pacing_ms, 400);
    assert_eq!(plan.ack_token, "!B:02");
    assert_eq!(plan.id_cmd, "ID:\r");
    assert_eq!(plan.id_prefix, "ID:NET");
    assert_eq!(plan.expected_board, "FP-CPU-2000");
    assert_eq!(plan.expected_version, "2.28");
    assert!(plan.strip_major_zeros);
    assert_eq!(plan.broadcast_cmd.as_deref(), Some("bn:aa55\r"));
}

#[test]
fn net_plan_normalizes_version() {
    let c = net_catalog();
    let plan = plan_net_update(&c, "2.28").unwrap();
    assert_eq!(plan.expected_version, "2.28");
    let files = vec![FirmwareFile {
        name: "FP-CPU-2000_NET_firmware_v_2_8.txt".to_string(),
        path: "p".to_string(),
    }];
    let c2 = build_catalog(&files);
    let plan2 = plan_net_update(&c2, "2.8").unwrap();
    assert_eq!(plan2.expected_version, "2.08");
}

#[test]
fn records_preserve_bytes() {
    let data: Vec<u8> = b"line one\rline two\rtail".to_vec();
    let records = split_records(&data);
    assert_eq!(records.len(), 3);
    assert_eq!(records[0], b"line one\r".to_vec());
    assert_eq!(records[1], b"line two\r".to_vec());
    assert_eq!(records[2], b"tail".to_vec());
    let total: usize = records.iter().map(|r| r.len()).sum();
    assert_eq!(total, data.len());
    let rejoined: Vec<u8> = records.concat();
    assert_eq!(rejoined, data);
}

#[test]
fn records_of_terminated_image() {
    let data: Vec<u8> = b"a\rb\r".to_vec();
    let records = split_records(&data);
    assert_eq!(records, vec![b"a\r".to_vec(), b"b\r".to_vec()]);
    assert!(split_records(&Vec::new()).is_empty());
}

#[test]
fn progress_saturates() {
    let mut p = StreamProgress::new(10);
    p.record_sent(4);
    p.record_sent(3);
    assert_eq!(p.bytes_sent, 7);
    assert_eq!(p.total_bytes, 10);
    let mut q = StreamProgress::new(0);
    q.record_sent(u64::MAX);
    q.record_sent(1);
    assert_eq!(q.bytes_sent, u64::MAX);
}

#[test]
fn bootloader_poll_verdicts() {
    assert_eq!(
        bootloader_poll_step("noise !BL2040:02 done", "!BL2040:02", 100, BOOT_ACK_DEADLINE_MS),
        PollVerdict::AckSeen
    );
    assert_eq!(
        bootloader_poll_step("nothing yet", "!BL2040:02", 100, BOOT_ACK_DEADLINE_MS),
        PollVerdict::KeepWaiting
    );
    assert_eq!(
        bootloader_poll_step("nothing yet", "!BL2040:02", 30000, BOOT_ACK_DEADLINE_MS),
        PollVerdict::DeadlineExpired
    );
    assert_eq!(
        bootloader_poll_step("x!B:02y", "!B:02", 0, BOOT_ACK_DEADLINE_MS),
        PollVerdict::AckSeen
    );
}

#[test]
fn id_poll_stops_on_line_break_or_deadline() {
    assert!(id_poll_done("ID:EXP x 1\r", 0, VERIFY_DEADLINE_MS));
    assert!(id_poll_done("partial", VERIFY_DEADLINE_MS, VERIFY_DEADLINE_MS));
    assert!(!id_poll_done("partial", 10, VERIFY_DEADLINE_MS));
}

#[test]
fn verify_accepts_exact_identity() {
    let outcome = verify_id_response(
        "junk\r\nID:EXP FP-EXP-0091 0.91\r\n",
        "ID:EXP",
        "FP-EXP-0091",
        "0.91",
        false,
    );
    assert_eq!(outcome, VerifyOutcome::Verified);
}

#[test]
fn verify_cleans_trailing_noise_from_version() {
    let outcome = verify_id_response("ID:EXP FP-EXP-0091 0.91;", "ID:EXP", "FP-EXP-0091", "0.91", false);
    assert_eq!(outcome, VerifyOutcome::Verified);
}

#[test]
fn verify_strips_major_zeros_for_net() {
    let outcome = verify_id_response(
        "ID:NET FP-CPU-2000 02.28\r",
        "ID:NET",
        "FP-CPU-2000",
        "2.28",
        true,
    );
    assert_eq!(outcome, VerifyOutcome::Verified);
}

#[test]
fn verify_reports_version_mismatch() {
    match verify_id_response(
        "ID:EXP FP-EXP-0091 0.48\r",
        "ID:EXP",
        "FP-EXP-0091",
        "0.91",
        false,
    ) {
        VerifyOutcome::Mismatch {
            board_ok,
            version_ok,
            board,
            version,
            ..
        } => {
            assert!(board_ok);
            assert!(!version_ok);
            assert_eq!(board, "FP-EXP-0091");
            assert_eq!(version, "0.48");
        }
        other => panic!("expected Mismatch, got {:?}", other),
    }
}

#[test]
fn verify_reports_board_mismatch() {
    match verify_id_response("ID:EXP FP-EXP-0061 0.91\r", "ID:EXP", "FP-EXP-0091", "0.91", false) {
        VerifyOutcome::Mismatch { board_ok, version_ok, .. } => {
            assert!(!board_ok);
            assert!(version_ok);
        }
        other => panic!("expected Mismatch, got {:?}", other),
    }
}

#[test]
fn verify_reports_unparseable_line() {
    match verify_id_response("ID:EXP shortline\r", "ID:EXP", "FP-EXP-0091", "0.91", false) {
        VerifyOutcome::UnparseableLine { line } => assert_eq!(line, "ID:EXP shortline"),
        other => panic!("expected UnparseableLine, got {:?}", other),
    }
}

#[test]
fn verify_reports_missing_id_line() {
    assert_eq!(
        verify_id_response("no identity here\r", "ID:EXP", "FP-EXP-0091", "0.91", false),
        VerifyOutcome::NoIdLine
    );
}

/// A scripted serial endpoint: consumes writes, replies with queued text.
struct FakeChannel {
    written: Vec<u8>,
    replies: Vec<String>,
}

impl FakeChannel {
    fn new(replies: Vec<String>) -> Self {
        FakeChannel {
            written: Vec::new(),
            replies,
        }
    }

    fn write(&mut self, bytes: &[u8]) {
        self.written.extend_from_slice(bytes);
    }

    fn read(&mut self) -> String {
        if self.replies.is_empty() {
            String::new()
        } else {
            self.replies.remove(0)
        }
    }
}

fn run_simulated_exp_flash(catalog: &Catalog, image: &[u8], device_version: &str) -> (VerifyOutcome, u64) {
    let plan = plan_exp_update(catalog, "88", "0.91").unwrap();
    let device_line = format!("ID:EXP FP-EXP-0091 {}\r", device_version);
    let mut channel = FakeChannel::new(vec!["!BL2040:02".to_string(), device_line]);

    if let Some(select) = &plan.select_cmd {
        channel.write(select.as_bytes());
    }

    let records = split_records(&image.to_vec());
    let mut progress = StreamProgress::new(image.len() as u64);
    for record in &records {
        channel.write(record);
        progress.record_sent(record.len() as u64);
        // pacing: plan.pacing_ms would be slept here by a real driver
    }

    let mut accumulated = String::new();
    let mut elapsed: u64 = 0;
    loop {
        match bootloader_poll_step(&accumulated, &plan.ack_token, elapsed, BOOT_ACK_DEADLINE_MS) {
            PollVerdict::AckSeen | PollVerdict::DeadlineExpired => break,
            PollVerdict::KeepWaiting => {
                accumulated.push_str(&channel.read());
                elapsed += 50;
            }
        }
    }

    channel.write(plan.id_cmd.as_bytes());
    let mut id_resp = String::new();
    let mut verify_elapsed: u64 = 0;
    while !id_poll_done(&id_resp, verify_elapsed, VERIFY_DEADLINE_MS) {
        id_resp.push_str(&channel.read());
        verify_elapsed += 50;
    }

    let outcome = verify_id_response(
        &id_resp,
        &plan.id_prefix,
        &plan.expected_board,
        &plan.expected_version,
        plan.strip_major_zeros,
    );
    (outcome, progress.bytes_sent)
}

#[test]
fn simulated_flash_verifies_matching_device() {
    let c = exp_catalog();
    let image = b"record one\rrecord two\rrecord three\r";
    let (outcome, sent) = run_simulated_exp_flash(&c, image, "0.91");
    assert_eq!(outcome, VerifyOutcome::Verified);
    assert_eq!(sent, image.len() as u64);
}

#[test]
fn simulated_flash_reports_altered_version() {
    let c = exp_catalog();
    let image = b"record one\rrecord two\r";
    let (outcome, sent) = run_simulated_exp_flash(&c, image, "0.90");
    assert_eq!(sent, image.len() as u64);
    match outcome {
        VerifyOutcome::Mismatch { version_ok, .. } => assert!(!version_ok),
        other => panic!("altering the echoed version must not verify: {:?}", other),
    }
}
