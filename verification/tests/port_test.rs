use veilstrike::error::ScanError;
use veilstrike::fanout::{ProbeKind, ScanStep};
use veilstrike::tcp_udp::{
    contains_port, extract_ips_from_csv, hosts_in, plan_port_scans, port_file, port_file_exists,
    probe_address, run_conditional_port_scans, save_ports_to_file, scan_and_save_ports, PortFile,
    PortOutcome, PortPlan, PortScan, PortSet, LAST_PORT, TCP_TIMEOUT_MS, UDP_TIMEOUT_MS,
};

fn hosts_named(items: &[&str]) -> Vec<String> {
    items.iter().map(|s| s.to_string()).collect()
}

#[test]
fn host_with_only_port_22_open_gets_one_line() {
    let outcome = scan_and_save_ports("192.0.2.10", &vec![22]);
    assert_eq!(
        outcome,
        PortOutcome::Save(PortFile {
            path: "Ports/192.0.2.10.txt".to_string(),
            content: "22\n".to_string(),
        })
    );
}

#[test]
fn host_without_open_ports_is_not_saved() {
    assert_eq!(scan_and_save_ports("192.0.2.10", &Vec::new()), PortOutcome::NoOpenPorts);
    // Port 0 is outside the range that is probed.
    assert_eq!(scan_and_save_ports("192.0.2.10", &vec![0]), PortOutcome::NoOpenPorts);
}

#[test]
fn open_ports_are_saved_in_rising_order_each_once() {
    let outcome = scan_and_save_ports("2001:db8::5", &vec![65535, 443, 1, 443, 8080]);
    assert_eq!(
        outcome,
        PortOutcome::Save(PortFile {
            path: "Ports/2001:db8::5.txt".to_string(),
            content: "1\n443\n8080\n65535\n".to_string(),
        })
    );
}

#[test]
fn port_scan_probes_every_port_once_within_capacity() {
    let mut scan = PortScan::begin("192.0.2.10", 1000, false).unwrap();
    let mut in_flight: Vec<(usize, u16)> = Vec::new();
    let mut probed: u32 = 0;
    let mut most: usize = 0;
    loop {
        match scan.next_step() {
            ScanStep::Probe(task) => {
                assert_eq!(task.kind, ProbeKind::Tcp);
                assert_eq!(task.target, "192.0.2.10");
                let port = task.port.unwrap();
                assert_eq!(port as usize, task.index + 1);
                probed += 1;
                in_flight.push((task.index, port));
                most = most.max(in_flight.len());
                assert!(in_flight.len() <= 1000);
            }
            ScanStep::Await => {
                // The probe started last comes back first.
                let (index, port) = in_flight.pop().unwrap();
                assert!(scan.complete(index, port == 22 || port == 60000));
                assert!(!scan.complete(index, true));
            }
            ScanStep::Finished => break,
        }
    }
    assert!(in_flight.is_empty());
    assert!(scan.is_finished());
    assert_eq!(probed, 65535);
    assert_eq!(most, 1000);
    assert_eq!(scan.open_count(), 2);
    let set = scan.finish();
    assert_eq!(set.host, "192.0.2.10");
    let mut ports = set.ports.clone();
    ports.sort();
    assert_eq!(ports, vec![22, 60000]);
    match set.outcome() {
        PortOutcome::Save(file) => assert_eq!(file.content.lines().count(), 2),
        PortOutcome::NoOpenPorts => panic!("two ports are open"),
    }
}

#[test]
fn udp_scan_makes_udp_probes() {
    let mut scan = PortScan::begin("192.0.2.10", 1, true).unwrap();
    match scan.next_step() {
        ScanStep::Probe(task) => {
            assert_eq!(task.kind, ProbeKind::Udp);
            assert_eq!(task.port, Some(1));
        }
        other => panic!("expected a probe, got {:?}", other),
    }
    assert!(matches!(scan.next_step(), ScanStep::Await));
    assert!(!scan.is_finished());
}

#[test]
fn port_scan_without_a_slot_is_a_usage_error() {
    assert!(matches!(PortScan::begin("192.0.2.10", 0, false), Err(ScanError::Usage(_))));
}

#[test]
fn port_set_without_ports_is_not_persisted() {
    let set = PortSet { host: "192.0.2.1".to_string(), ports: Vec::new() };
    assert_eq!(set.outcome(), PortOutcome::NoOpenPorts);
    let set = PortSet { host: "192.0.2.1".to_string(), ports: vec![443, 80] };
    assert_eq!(
        set.outcome(),
        PortOutcome::Save(PortFile {
            path: "Ports/192.0.2.1.txt".to_string(),
            content: "443\n80\n".to_string()
        })
    );
}

#[test]
fn port_file_lines_are_decimal() {
    let file = save_ports_to_file("h", &vec![1, 10, 100, 1000, 10000, 65535, 0, 9, 19, 90]);
    assert_eq!(file.path, "Ports/h.txt");
    assert_eq!(file.content, "1\n10\n100\n1000\n10000\n65535\n0\n9\n19\n90\n");
    assert_eq!(save_ports_to_file("h", &Vec::new()).content, "");
}

#[test]
fn port_file_path_and_probe_address() {
    assert_eq!(port_file("198.51.100.1"), "Ports/198.51.100.1.txt");
    assert_eq!(probe_address("198.51.100.1", 8080), "198.51.100.1:8080");
    assert_eq!(LAST_PORT, 65535);
    assert_eq!(TCP_TIMEOUT_MS, 800);
    assert_eq!(UDP_TIMEOUT_MS, 1000);
}

#[test]
fn port_file_exists_only_for_the_exact_path() {
    let present = hosts_named(&["Ports/198.51.100.1.txt", "Ports/readme"]);
    assert!(port_file_exists("198.51.100.1", &present));
    assert!(!port_file_exists("198.51.100.10", &present));
    assert!(!port_file_exists("198.51.100", &present));
    assert!(!port_file_exists("198.51.100.1", &Vec::new()));
}

#[test]
fn scanned_host_is_skipped() {
    let hosts = hosts_named(&["198.51.100.1", "198.51.100.2", "198.51.100.3"]);
    let present = hosts_named(&["Ports/198.51.100.2.txt"]);
    let plan = plan_port_scans(&hosts, &present);
    assert_eq!(
        plan,
        PortPlan {
            scan: hosts_named(&["198.51.100.1", "198.51.100.3"]),
            skipped: hosts_named(&["198.51.100.2"]),
        }
    );
}

#[test]
fn rerun_after_every_host_was_scanned_scans_nothing() {
    let table = b"Subdomain,IP Addresses\nwww.example.com,198.51.100.1\nmail.example.com,\"198.51.100.2, 198.51.100.1\"\n";
    let first = run_conditional_port_scans(table, &Vec::new()).unwrap();
    assert_eq!(first.scan, hosts_named(&["198.51.100.1", "198.51.100.2"]));
    assert!(first.skipped.is_empty());
    let present: Vec<String> = first.scan.iter().map(|h| port_file(h)).collect();
    let second = run_conditional_port_scans(table, &present).unwrap();
    assert!(second.scan.is_empty());
    assert_eq!(second.skipped, hosts_named(&["198.51.100.1", "198.51.100.2"]));
}

#[test]
fn hosts_are_split_trimmed_and_named_once() {
    let table = b"Subdomain,IP Addresses\na.example.com,\"192.0.2.1,  192.0.2.2 ,,192.0.2.1\"\nb.example.com,192.0.2.3\nc.example.com,192.0.2.2\n";
    assert_eq!(
        extract_ips_from_csv(table),
        Ok(hosts_named(&["192.0.2.1", "192.0.2.2", "192.0.2.3"]))
    );
}

#[test]
fn table_without_rows_names_no_host() {
    assert_eq!(extract_ips_from_csv(b"Subdomain,IP Addresses\n"), Ok(Vec::new()));
    assert_eq!(extract_ips_from_csv(b""), Ok(Vec::new()));
}

#[test]
fn one_column_table_names_no_host() {
    assert_eq!(extract_ips_from_csv(b"Subdomain\na.example.com\nb.example.com\n"), Ok(Vec::new()));
}

#[test]
fn broken_record_stops_the_extraction() {
    let table = b"Subdomain,IP Addresses\na.example.com,192.0.2.1\nb.example.com\nc.example.com,192.0.2.3\n";
    match extract_ips_from_csv(table) {
        Err(ScanError::Parse { index, detail }) => {
            assert_eq!(index, 1);
            assert!(detail.contains("found record with 1 fields"), "{}", detail);
        }
        other => panic!("expected a parse error, got {:?}", other),
    }
    assert!(matches!(
        run_conditional_port_scans(table, &Vec::new()),
        Err(ScanError::Parse { index: 1, .. })
    ));
}

#[test]
fn hosts_in_reads_the_second_field_only() {
    let records = vec![
        Ok(hosts_named(&["192.0.2.9", "192.0.2.1", "192.0.2.8"])),
        Ok(hosts_named(&["only"])),
        Ok(hosts_named(&["x", " 192.0.2.2 , 192.0.2.1 "])),
    ];
    assert_eq!(hosts_in(&records), Ok(hosts_named(&["192.0.2.1", "192.0.2.2"])));
    let broken = vec![Ok(hosts_named(&["x", "192.0.2.1"])), Err("bad".to_string())];
    assert_eq!(
        hosts_in(&broken),
        Err(ScanError::Parse { index: 1, detail: "bad".to_string() })
    );
}

#[test]
fn contains_port_finds_members() {
    assert!(contains_port(&vec![1, 22, 443], 22));
    assert!(!contains_port(&vec![1, 22, 443], 23));
    assert!(!contains_port(&Vec::new(), 1));
}
