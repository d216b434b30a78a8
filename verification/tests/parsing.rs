use fast_util::boards::Protocol;
use fast_util::parse::{parse_id_response, parse_nn_response, parse_protocol};

#[test]
fn protocol_from_net_reply() {
    assert_eq!(
        parse_protocol("ID:NET FP-CPU-2000 2.28"),
        Some(Protocol::NET)
    );
}

#[test]
fn protocol_from_exp_reply() {
    assert_eq!(
        parse_protocol("ID:EXP FP-EXP-0091 0.48"),
        Some(Protocol::EXP)
    );
}

#[test]
fn protocol_token_is_case_insensitive() {
    assert_eq!(parse_protocol("ID:net something"), Some(Protocol::NET));
    assert_eq!(parse_protocol("ID:exp board"), Some(Protocol::EXP));
}

#[test]
fn protocol_tolerates_leading_noise() {
    assert_eq!(parse_protocol("garbage ID: NET rest"), Some(Protocol::NET));
}

#[test]
fn protocol_absent_without_marker() {
    assert_eq!(parse_protocol("hello world"), None);
    assert_eq!(parse_protocol(""), None);
}

#[test]
fn protocol_rejects_unknown_token() {
    assert_eq!(parse_protocol("ID:USB something"), None);
}

#[test]
fn id_line_comma_tolerant() {
    let (proto, board, version) = parse_id_response("ID:EXP, FP-EXP-0091 v0.48").unwrap();
    assert_eq!(proto, "EXP");
    assert_eq!(board, "FP-EXP-0091");
    assert_eq!(version, "v0.48");
    assert!(!proto.is_empty() && !board.is_empty() && !version.is_empty());
}

#[test]
fn id_line_plain() {
    let (proto, board, version) = parse_id_response("ID:NET FP-CPU-2000 2.28").unwrap();
    assert_eq!(proto, "NET");
    assert_eq!(board, "FP-CPU-2000");
    assert_eq!(version, "2.28");
}

#[test]
fn id_line_needs_three_tokens() {
    assert_eq!(parse_id_response("ID:EXP onlyboard"), None);
    assert_eq!(parse_id_response("no marker here"), None);
}

#[test]
fn nn_record_with_extra_fields() {
    let info = parse_nn_response("...NN:03,Node3,2.10,5,6\r").unwrap();
    assert_eq!(info.node_id, "03");
    assert_eq!(info.node_name, "Node3");
    assert_eq!(info.firmware, "2.10");
    assert_eq!(info.extra_fields, vec!["5".to_string(), "6".to_string()]);
}

#[test]
fn nn_record_without_extra_fields() {
    let info = parse_nn_response("NN:00,Neuron,2.28\r").unwrap();
    assert_eq!(info.node_id, "00");
    assert_eq!(info.node_name, "Neuron");
    assert_eq!(info.firmware, "2.28");
    assert!(info.extra_fields.is_empty());
}

#[test]
fn nn_record_uses_last_marker() {
    let info = parse_nn_response("NN:01,Stale,0.1\r\njunk NN:03,Node3,2.10\r").unwrap();
    assert_eq!(info.node_id, "03");
    assert_eq!(info.node_name, "Node3");
}

#[test]
fn nn_record_needs_three_fields() {
    assert_eq!(parse_nn_response("NN:03,Node3"), None);
    assert_eq!(parse_nn_response("no marker"), None);
}

#[test]
fn nn_record_trims_fields() {
    let info = parse_nn_response("NN: 03 , Node3 , 2.10 \r").unwrap();
    assert_eq!(info.node_id, "03");
    assert_eq!(info.node_name, "Node3");
    assert_eq!(info.firmware, "2.10");
}
