use fast_util::boards::Protocol;
use fast_util::discovery::{classify_ports, select_ports, PortProbe};

fn probe(name: &str, reply: Option<&str>) -> PortProbe {
    PortProbe {
        name: name.to_string(),
        reply: reply.map(|r| r.to_string()),
    }
}

#[test]
fn silent_port_is_not_classified() {
    let probes = vec![
        probe("COM1", None),
        probe("COM2", Some("ID:NET FP-CPU-2000 2.28")),
    ];
    let classified = classify_ports(&probes);
    assert_eq!(classified.len(), 1);
    assert_eq!(classified[0].0, "COM2");
    assert_eq!(classified[0].1, Protocol::NET);
    assert!(classified.iter().all(|(name, _)| name != "COM1"));
}

#[test]
fn discovery_is_deterministic() {
    let probes = vec![
        probe("COM1", None),
        probe("COM2", Some("ID:NET FP-CPU-2000 2.28")),
        probe("COM3", Some("ID:EXP FP-EXP-0091 0.48")),
        probe("COM4", Some("noise")),
    ];
    let first = classify_ports(&probes);
    let second = classify_ports(&probes);
    assert_eq!(first, second);
}

#[test]
fn unparseable_reply_is_not_classified() {
    let probes = vec![probe("COM5", Some("hello"))];
    assert!(classify_ports(&probes).is_empty());
}

#[test]
fn ports_classified_in_probe_order() {
    let probes = vec![
        probe("A", Some("ID:EXP x 1")),
        probe("B", Some("ID:NET y 2")),
        probe("C", Some("ID:EXP z 3")),
    ];
    let classified = classify_ports(&probes);
    let names: Vec<&str> = classified.iter().map(|(n, _)| n.as_str()).collect();
    assert_eq!(names, vec!["A", "B", "C"]);
}

#[test]
fn select_first_of_each_kind() {
    let classified = vec![
        ("A".to_string(), Protocol::EXP),
        ("B".to_string(), Protocol::NET),
        ("C".to_string(), Protocol::EXP),
        ("D".to_string(), Protocol::NET),
    ];
    let (net, exp) = select_ports(&classified).unwrap();
    assert_eq!(net, "B");
    assert_eq!(exp, "A");
}

#[test]
fn select_needs_both_kinds() {
    let only_net = vec![("A".to_string(), Protocol::NET)];
    assert!(select_ports(&only_net).is_none());
    let only_exp = vec![("A".to_string(), Protocol::EXP)];
    assert!(select_ports(&only_exp).is_none());
    assert!(select_ports(&Vec::new()).is_none());
}
