use std::path::PathBuf;
use veilstrike::orchestrator::{Event, Phase, TargetKind};
use veilstrike::error::ScanError;
use veilstrike::target::{Target, TargetType};

#[test]
fn both_url_and_ip_is_rejected() {
    let r = Target::new_from_args(
        Some("https://example.com".to_string()),
        Some("192.0.2.1".to_string()),
        None,
        true,
        false,
    );
    assert_eq!(r.unwrap_err(), "Provide exactly one of --url, --ip, or --repo");
}

#[test]
fn no_argument_is_rejected() {
    let r = Target::new_from_args(None, None, None, false, false);
    assert_eq!(r.unwrap_err(), "Provide exactly one of --url, --ip, or --repo");
}

#[test]
fn all_three_arguments_are_rejected() {
    let r = Target::new_from_args(
        Some("https://example.com".to_string()),
        Some("192.0.2.1".to_string()),
        Some(PathBuf::from("/tmp")),
        true,
        true,
    );
    assert_eq!(r.unwrap_err(), "Provide exactly one of --url, --ip, or --repo");
}

#[test]
fn url_has_to_begin_with_http() {
    let ok = Target::new_from_args(Some("http://example.com".to_string()), None, None, false, false);
    match ok.unwrap().target_type {
        TargetType::Url(u) => assert_eq!(u, "http://example.com"),
        other => panic!("unexpected target {:?}", other),
    }
    let bad = Target::new_from_args(Some("ftp://example.com".to_string()), None, None, false, false);
    assert_eq!(bad.unwrap_err(), "Invalid URL");
    let short = Target::new_from_args(Some("htt".to_string()), None, None, false, false);
    assert_eq!(short.unwrap_err(), "Invalid URL");
}

#[test]
fn malformed_url_is_rejected() {
    for text in ["http", "httpfoo", "http://", "https://", "http:", "https:///", "http//example.com"] {
        let r = Target::new_from_args(Some(text.to_string()), None, None, true, true);
        assert_eq!(r.unwrap_err(), "Invalid URL", "{}", text);
    }
    // A host is not enough without the prefix.
    let r = Target::new_from_args(Some("ftp://example.com/".to_string()), None, None, false, false);
    assert_eq!(r.unwrap_err(), "Invalid URL");
}

#[test]
fn well_formed_url_is_accepted_as_given() {
    for text in ["http://example.com", "https://www.example.co.uk/path?q=1", "http://192.0.2.1:8080/"] {
        match Target::new_from_args(Some(text.to_string()), None, None, false, false) {
            Ok(Target { target_type: TargetType::Url(u) }) => assert_eq!(u, text),
            other => panic!("{} was not accepted: {:?}", text, other),
        }
    }
}

#[test]
fn checked_arguments_are_classified_by_what_the_checks_found() {
    let url = || Some("https://example.com".to_string());
    assert!(Target::from_checked_args(url(), None, None, true, false, false).is_ok());
    assert_eq!(
        Target::from_checked_args(url(), None, None, false, false, false).unwrap_err(),
        "Invalid URL"
    );
    assert_eq!(
        Target::from_checked_args(Some("gopher://x".to_string()), None, None, true, false, false)
            .unwrap_err(),
        "Invalid URL"
    );
    assert!(Target::from_checked_args(None, Some("192.0.2.1".to_string()), None, false, true, false).is_ok());
    assert_eq!(
        Target::from_checked_args(None, Some("192.0.2.1".to_string()), None, true, false, true)
            .unwrap_err(),
        "Invalid IP address"
    );
    assert_eq!(
        Target::from_checked_args(url(), Some("192.0.2.1".to_string()), None, true, true, true)
            .unwrap_err(),
        "Provide exactly one of --url, --ip, or --repo"
    );
}

#[test]
fn address_has_to_parse() {
    let ok = Target::new_from_args(None, Some("2001:db8::1".to_string()), None, true, false);
    match ok.unwrap().target_type {
        TargetType::Ip(i) => assert_eq!(i, "2001:db8::1"),
        other => panic!("unexpected target {:?}", other),
    }
    let bad = Target::new_from_args(None, Some("999.1.1.1".to_string()), None, false, false);
    assert_eq!(bad.unwrap_err(), "Invalid IP address");
}

#[test]
fn repository_has_to_be_a_directory() {
    let ok = Target::new_from_args(None, None, Some(PathBuf::from("/srv/code")), false, true);
    match ok.unwrap().target_type {
        TargetType::Repo(p) => assert_eq!(p, PathBuf::from("/srv/code")),
        other => panic!("unexpected target {:?}", other),
    }
    let bad = Target::new_from_args(None, None, Some(PathBuf::from("/nowhere")), false, false);
    assert_eq!(bad.unwrap_err(), "Invalid or non-existent repo path");
}

#[test]
fn target_kind_follows_the_variant() {
    let t = Target { target_type: TargetType::Ip("192.0.2.1".to_string()) };
    assert_eq!(t.kind(), TargetKind::Ip);
    let t = Target { target_type: TargetType::Url("http://x.example".to_string()) };
    assert_eq!(t.kind(), TargetKind::Url);
    let t = Target { target_type: TargetType::Repo(PathBuf::from(".")) };
    assert_eq!(t.kind(), TargetKind::Repo);
}

#[test]
fn url_run_passes_through_every_phase() {
    let mut phase = Phase::Idle;
    phase = phase.advance(Event::Begun);
    assert_eq!(phase, Phase::ResolvingTarget);
    phase = phase.advance(Event::Resolved(TargetKind::Url));
    assert_eq!(phase, Phase::EnumeratingSubdomains);
    phase = phase.advance(Event::Completed);
    assert_eq!(phase, Phase::ExtractingHosts);
    phase = phase.advance(Event::Completed);
    assert_eq!(phase, Phase::ScanningPorts);
    assert!(!phase.is_over());
    phase = phase.advance(Event::Completed);
    assert_eq!(phase, Phase::Done);
    assert!(phase.is_over());
}

#[test]
fn address_run_goes_straight_to_the_port_scan() {
    let phase = Phase::Idle.advance(Event::Begun).advance(Event::Resolved(TargetKind::Ip));
    assert_eq!(phase, Phase::ScanningPorts);
    assert_eq!(phase.advance(Event::Completed), Phase::Done);
}

#[test]
fn repository_run_is_done_at_once() {
    let phase = Phase::Idle.advance(Event::Begun).advance(Event::Resolved(TargetKind::Repo));
    assert_eq!(phase, Phase::Done);
}

#[test]
fn usage_error_fails_the_run_before_any_phase_of_work() {
    let rejected = Target::new_from_args(
        Some("https://example.com".to_string()),
        Some("192.0.2.1".to_string()),
        None,
        true,
        false,
    )
    .unwrap_err();
    let phase = Phase::Idle.advance(Event::Begun).advance(Event::Broke(ScanError::Usage(rejected)));
    assert_eq!(
        phase,
        Phase::Failed(ScanError::Usage("Provide exactly one of --url, --ip, or --repo".to_string()))
    );
    assert!(phase.is_over());
}

#[test]
fn failed_run_keeps_its_first_error() {
    let phase = Phase::EnumeratingSubdomains.advance(Event::Broke(ScanError::Io("wordlist unreadable".to_string())));
    let phase = phase.advance(Event::Broke(ScanError::Io("later".to_string())));
    let phase = phase.advance(Event::Completed);
    assert_eq!(phase, Phase::Failed(ScanError::Io("wordlist unreadable".to_string())));
}

#[test]
fn event_out_of_place_changes_nothing() {
    assert_eq!(Phase::Idle.advance(Event::Completed), Phase::Idle);
    assert_eq!(Phase::ScanningPorts.advance(Event::Begun), Phase::ScanningPorts);
    assert_eq!(Phase::ExtractingHosts.advance(Event::Resolved(TargetKind::Url)), Phase::ExtractingHosts);
    assert_eq!(Phase::Done.advance(Event::Begun), Phase::Done);
}
