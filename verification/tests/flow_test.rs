use veilstrike::fanout::ScanStep;
use veilstrike::recon::{
    discover_subdomains, lookup_in, render_addresses, Reported, ResolutionRecord, SubdomainScan,
};
use veilstrike::sink::{read_table, validate_table};
use veilstrike::tcp_udp::{extract_ips_from_csv, port_file, run_conditional_port_scans};
use veilstrike::text::{join, split_tokens, to_chars};
use veilstrike::utils::write_recon_to_csv;

fn resolved(name: &str, addresses: &[&str]) -> ResolutionRecord {
    ResolutionRecord {
        subdomain: name.to_string(),
        addresses: addresses.iter().map(|a| a.to_string()).collect(),
    }
}

#[test]
fn hosts_read_from_the_table_are_the_addresses_written() {
    let resolver = vec![
        resolved("www.example.net", &["203.0.113.5", "2001:db8::5"]),
        resolved("api.example.net", &["203.0.113.6"]),
        resolved("cdn.example.net", &["203.0.113.5", "203.0.113.7"]),
    ];
    let d = discover_subdomains("example.net", "www\napi\nnone\ncdn\n", &resolver).unwrap();
    assert_eq!(d.found, 3);
    assert_eq!(
        extract_ips_from_csv(&d.table),
        Ok(vec![
            "203.0.113.5".to_string(),
            "2001:db8::5".to_string(),
            "203.0.113.6".to_string(),
            "203.0.113.7".to_string(),
        ])
    );
}

#[test]
fn address_cell_splits_back_into_its_addresses() {
    let addresses: Vec<String> =
        vec!["198.51.100.1".into(), "::1".into(), "fe80::1%eth0".into(), "10.0.0.1".into()];
    let cell = render_addresses(&addresses);
    assert_eq!(split_tokens(&to_chars(&cell), ','), addresses);
}

#[test]
fn split_pieces_joined_give_the_text_back() {
    for text in ["", ",", "a", "a,b", ",a,,b,", " a , b "] {
        let pieces: Vec<String> = text.split(',').map(|p| p.to_string()).collect();
        assert_eq!(join(&pieces, ","), text);
    }
}

#[test]
fn enumeration_then_planning_then_rerun() {
    let resolver = vec![resolved("www.example.net", &["203.0.113.5"]), resolved("api.example.net", &["203.0.113.6"])];
    let d = discover_subdomains("example.net", "www\napi\n", &resolver).unwrap();
    let first = run_conditional_port_scans(&d.table, &Vec::new()).unwrap();
    assert_eq!(first.scan, vec!["203.0.113.5", "203.0.113.6"]);
    // One host was scanned and has its file: only the other is left.
    let present = vec![port_file("203.0.113.5")];
    let second = run_conditional_port_scans(&d.table, &present).unwrap();
    assert_eq!(second.scan, vec!["203.0.113.6"]);
    assert_eq!(second.skipped, vec!["203.0.113.5"]);
}

#[test]
fn written_table_reads_back_row_for_row() {
    let results = vec![
        resolved("a.example.net", &["203.0.113.1", "203.0.113.2"]),
        resolved("quote\"d.example.net", &["203.0.113.3"]),
        resolved("multi\nline.example.net", &[]),
    ];
    let table = write_recon_to_csv(&results).unwrap();
    let records = read_table(&table);
    assert_eq!(
        records,
        vec![
            Ok(vec!["a.example.net".to_string(), "203.0.113.1, 203.0.113.2".to_string()]),
            Ok(vec!["quote\"d.example.net".to_string(), "203.0.113.3".to_string()]),
            Ok(vec!["multi\nline.example.net".to_string(), "".to_string()]),
        ]
    );
    assert_eq!(validate_table(&table, 2), Ok(3));
}

#[test]
fn table_that_is_not_text_is_reported() {
    let table = b"Subdomain,IP Addresses\na,\xff\xfe\n";
    match validate_table(table, 2) {
        Err(veilstrike::error::ScanError::Parse { index, detail }) => {
            assert_eq!(index, 0);
            assert!(detail.contains("CSV parse error"), "{}", detail);
        }
        other => panic!("expected a parse error, got {:?}", other),
    }
}

fn rows_reported_in(order: &[usize]) -> Vec<Vec<u8>> {
    let resolver = vec![
        resolved("a.example.net", &["203.0.113.1"]),
        resolved("c.example.net", &["203.0.113.3", "203.0.113.4"]),
        resolved("d.example.net", &["203.0.113.1"]),
    ];
    let labels: Vec<String> = ["a", "b", "c", "d"].iter().map(|l| l.to_string()).collect();
    let (mut scan, _) = SubdomainScan::begin("example.net", labels, 4).unwrap();
    let mut names = Vec::new();
    while let ScanStep::Probe(task) = scan.next_step() {
        names.push(task.target);
    }
    let mut rows = Vec::new();
    for &index in order {
        let lookup = lookup_in(&resolver, &names[index]);
        if let Reported::Hit(bytes) = scan.complete(index, &lookup).unwrap() {
            rows.push(bytes);
        }
    }
    assert!(matches!(scan.next_step(), ScanStep::Finished));
    assert_eq!(scan.found(), rows.len());
    rows
}

#[test]
fn completion_order_changes_only_the_order_of_rows() {
    let in_label_order = rows_reported_in(&[0, 1, 2, 3]);
    assert_eq!(
        in_label_order,
        vec![
            b"a.example.net,203.0.113.1\n".to_vec(),
            b"c.example.net,\"203.0.113.3, 203.0.113.4\"\n".to_vec(),
            b"d.example.net,203.0.113.1\n".to_vec(),
        ]
    );
    let shuffled = rows_reported_in(&[3, 2, 1, 0]);
    assert_eq!(shuffled.len(), 3);
    assert_eq!(shuffled[0], b"d.example.net,203.0.113.1\n".to_vec());
    let mut sorted = shuffled.clone();
    sorted.sort();
    let mut expected = in_label_order.clone();
    expected.sort();
    assert_eq!(sorted, expected);
}
