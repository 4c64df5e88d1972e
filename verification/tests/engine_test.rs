use veilstrike::error::ScanError;
use veilstrike::fanout::{FanOut, Step};
use veilstrike::limiter::{Limiter, DNS_CAPACITY, PORT_CAPACITY};
use veilstrike::sink::{check_records, read_table, validate_table, Sink};
use veilstrike::text::{
    contains_text, copy_strings, from_chars, is_whitespace, join, render_number, split_tokens,
    starts_with, to_chars, trim_bounds,
};

fn fields(items: &[&str]) -> Vec<String> {
    items.iter().map(|s| s.to_string()).collect()
}

#[test]
fn limiter_never_exceeds_its_capacity() {
    let mut limiter = Limiter::new(3);
    assert_eq!(limiter.capacity(), 3);
    assert_eq!(limiter.in_flight(), 0);
    assert!(limiter.try_acquire());
    assert!(limiter.try_acquire());
    assert!(limiter.try_acquire());
    assert_eq!(limiter.in_flight(), 3);
    assert!(!limiter.try_acquire());
    assert!(!limiter.try_acquire());
    assert_eq!(limiter.in_flight(), 3);
    limiter.release();
    assert_eq!(limiter.in_flight(), 2);
    assert!(limiter.try_acquire());
    assert!(!limiter.try_acquire());
    assert_eq!(limiter.in_flight(), 3);
}

#[test]
fn limiter_without_slots_grants_nothing() {
    let mut limiter = Limiter::new(0);
    assert!(!limiter.try_acquire());
    assert_eq!(limiter.in_flight(), 0);
}

#[test]
fn configured_capacities() {
    assert_eq!(DNS_CAPACITY, 600);
    assert_eq!(PORT_CAPACITY, 1000);
}

#[test]
fn engine_keeps_in_flight_within_capacity() {
    let mut run = FanOut::new(3, 10).unwrap();
    assert_eq!(run.slots(), 3);
    assert_eq!(run.task_count(), 10);
    let mut waiting: Vec<usize> = Vec::new();
    let mut started: Vec<usize> = Vec::new();
    let mut ended: Vec<usize> = Vec::new();
    let mut turn = 0usize;
    loop {
        assert!(run.in_flight_now() <= 3);
        assert_eq!(run.in_flight_now(), waiting.len());
        match run.next_step() {
            Step::Start(i) => {
                assert!(run.awaits(i));
                started.push(i);
                waiting.push(i);
            }
            Step::Await => {
                assert!(!waiting.is_empty());
                // Tasks end in an order of their own.
                let pick = turn % waiting.len();
                turn += 1;
                let i = waiting.remove(pick);
                assert!(run.complete(i));
                assert!(!run.awaits(i));
                ended.push(i);
            }
            Step::Finished => break,
        }
    }
    assert_eq!(started, (0..10).collect::<Vec<usize>>());
    assert_eq!(run.started(), 10);
    assert_eq!(run.in_flight_now(), 0);
    ended.sort();
    assert_eq!(ended, (0..10).collect::<Vec<usize>>());
    assert_eq!(run.next_step(), Step::Finished);
}

#[test]
fn engine_waits_when_saturated() {
    let mut run = FanOut::new(1, 2).unwrap();
    assert_eq!(run.next_step(), Step::Start(0));
    assert_eq!(run.next_step(), Step::Await);
    assert_eq!(run.next_step(), Step::Await);
    assert!(run.complete(0));
    assert_eq!(run.next_step(), Step::Start(1));
    assert_eq!(run.next_step(), Step::Await);
    assert!(!run.is_finished());
    assert!(run.complete(1));
    assert!(run.is_finished());
    assert_eq!(run.next_step(), Step::Finished);
}

#[test]
fn engine_turns_down_reports_for_tasks_not_in_flight() {
    let mut run = FanOut::new(2, 3).unwrap();
    assert!(!run.complete(0));
    assert_eq!(run.next_step(), Step::Start(0));
    assert!(!run.complete(1));
    assert!(!run.complete(3));
    assert!(run.complete(0));
    assert!(!run.complete(0));
    assert_eq!(run.in_flight_now(), 0);
}

#[test]
fn engine_without_tasks_is_finished() {
    let mut run = FanOut::new(5, 0).unwrap();
    assert_eq!(run.next_step(), Step::Finished);
}

#[test]
fn engine_needs_a_slot() {
    assert!(FanOut::new(0, 5).is_none());
    assert!(FanOut::new(0, 0).is_none());
}

#[test]
fn sink_round_trip_passes_validation() {
    let (mut sink, mut table) = Sink::open(fields(&["Subdomain", "IP Addresses"])).unwrap();
    assert_eq!(sink.width(), 2);
    let n = 250usize;
    for i in 0..n {
        let row = vec![format!("host{}.example.com", i), format!("192.0.2.{}, 198.51.100.{}", i % 250, i % 250)];
        let bytes = sink.write_row(&row).unwrap();
        table.extend_from_slice(&bytes);
    }
    assert_eq!(sink.written(), n);
    assert_eq!(sink.validate(&table), Ok(n));
    let records = read_table(&table);
    assert_eq!(records.len(), n);
    assert_eq!(records[7], Ok(fields(&["host7.example.com", "192.0.2.7, 198.51.100.7"])));
    assert_eq!(check_records(&records, 2), Ok(n));
}

#[test]
fn sink_quotes_what_needs_quoting() {
    let (mut sink, header) = Sink::open(fields(&["a", "b"])).unwrap();
    assert_eq!(header, b"a,b\n".to_vec());
    assert_eq!(sink.write_row(&fields(&["x", "1, 2"])), Ok(b"x,\"1, 2\"\n".to_vec()));
    assert_eq!(sink.write_row(&fields(&["say \"hi\"", "line\nbreak"])), Ok(b"\"say \"\"hi\"\"\",\"line\nbreak\"\n".to_vec()));
    assert_eq!(sink.write_row(&fields(&["", ""])), Ok(b",\n".to_vec()));
    assert_eq!(sink.written(), 3);
}

#[test]
fn sink_turns_away_a_row_of_another_width() {
    let (mut sink, _) = Sink::open(fields(&["Subdomain", "IP Addresses"])).unwrap();
    sink.write_row(&fields(&["a.example.com", "192.0.2.1"])).unwrap();
    assert_eq!(
        sink.write_row(&fields(&["b.example.com"])),
        Err(ScanError::Validation { index: 1, fields: 1 })
    );
    assert_eq!(
        sink.write_row(&fields(&["b.example.com", "192.0.2.2", "extra"])),
        Err(ScanError::Validation { index: 1, fields: 3 })
    );
    assert_eq!(sink.written(), 1);
    assert!(sink.write_row(&fields(&["b.example.com", "192.0.2.2"])).is_ok());
    assert_eq!(sink.written(), 2);
}

#[test]
fn accept_maps_the_encoder_outcome() {
    let (mut sink, _) = Sink::open(fields(&["a", "b"])).unwrap();
    let row = fields(&["x", "y"]);
    assert_eq!(sink.accept(&row, Ok(b"anything".to_vec())), Ok(b"anything".to_vec()));
    assert_eq!(sink.written(), 1);
    let failure = csv::Error::from(std::io::Error::new(std::io::ErrorKind::Other, "disk full"));
    assert_eq!(sink.accept(&row, Err(failure)), Err(ScanError::Io("disk full".to_string())));
    assert_eq!(sink.written(), 1);
    let refused = Sink::with_header(
        fields(&["a"]),
        Err(csv::Error::from(std::io::Error::new(std::io::ErrorKind::Other, "no space"))),
    );
    assert!(matches!(refused, Err(ScanError::Io(m)) if m == "no space"));
}

#[test]
fn validation_reports_the_first_row_of_wrong_width() {
    let table = b"a,b,c\n1,2,3\n4,5,6\n";
    assert_eq!(validate_table(table, 2), Err(ScanError::Validation { index: 0, fields: 3 }));
    assert_eq!(validate_table(table, 3), Ok(2));
}

#[test]
fn validation_reports_a_record_that_differs_from_the_header() {
    let table = b"Subdomain,IP Addresses\na,1\nb,2,3\nc,4\n";
    match validate_table(table, 2) {
        Err(ScanError::Parse { index, detail }) => {
            assert_eq!(index, 1);
            assert!(detail.contains("found record with 3 fields"), "{}", detail);
        }
        other => panic!("expected a parse error, got {:?}", other),
    }
}

#[test]
fn validation_of_an_empty_table_counts_nothing() {
    assert_eq!(validate_table(b"", 2), Ok(0));
    assert_eq!(validate_table(b"Subdomain,IP Addresses\n", 2), Ok(0));
}

#[test]
fn check_records_finds_the_first_fault() {
    let good = vec![Ok(fields(&["a", "1"])), Ok(fields(&["b", "2"]))];
    assert_eq!(check_records(&good, 2), Ok(2));
    assert_eq!(check_records(&Vec::new(), 2), Ok(0));
    let short = vec![Ok(fields(&["a", "1"])), Ok(fields(&["b"])), Err("late".to_string())];
    assert_eq!(check_records(&short, 2), Err(ScanError::Validation { index: 1, fields: 1 }));
    let broken = vec![Err("early".to_string()), Ok(fields(&["b"]))];
    assert_eq!(
        check_records(&broken, 2),
        Err(ScanError::Parse { index: 0, detail: "early".to_string() })
    );
}

#[test]
fn error_messages() {
    assert_eq!(
        ScanError::Validation { index: 0, fields: 3 }.message(),
        "CSV validation error: record 2 has 3 fields"
    );
    assert_eq!(
        ScanError::Validation { index: 98, fields: 10 }.message(),
        "CSV validation error: record 100 has 10 fields"
    );
    assert_eq!(
        ScanError::Parse { index: 5, detail: "bad quote".to_string() }.message(),
        "CSV parsing error at record 7: bad quote"
    );
    assert_eq!(ScanError::Usage("Invalid URL".to_string()).message(), "Invalid URL");
    assert_eq!(ScanError::Io("cannot create output".to_string()).message(), "cannot create output");
}

#[test]
fn numbers_are_rendered_in_decimal() {
    assert_eq!(render_number(0), "0");
    assert_eq!(render_number(9), "9");
    assert_eq!(render_number(10), "10");
    assert_eq!(render_number(65535), "65535");
    assert_eq!(render_number(1_000_000_007), "1000000007");
    assert_eq!(render_number(u128::MAX), "340282366920938463463374607431768211455");
}

#[test]
fn chars_round_trip() {
    let chars = to_chars("héllo, wörld");
    assert_eq!(chars.len(), 12);
    assert_eq!(from_chars(&chars, 0, chars.len()), "héllo, wörld");
    assert_eq!(from_chars(&chars, 7, 12), "wörld");
    assert_eq!(from_chars(&chars, 3, 3), "");
}

#[test]
fn trimming_finds_the_inner_bounds() {
    let chars = to_chars("  \t ab c \r\n");
    assert_eq!(trim_bounds(&chars, 0, chars.len()), (4, 8));
    assert_eq!(trim_bounds(&chars, 5, 7), (5, 6));
    let blank = to_chars(" \u{2028}\u{0085} ");
    let (a, b) = trim_bounds(&blank, 0, blank.len());
    assert_eq!(a, b);
}

#[test]
fn white_space_is_the_unicode_property() {
    for c in ['\t', '\n', '\u{0B}', '\u{0C}', '\r', ' ', '\u{85}', '\u{A0}', '\u{1680}', '\u{2000}', '\u{200A}', '\u{2028}', '\u{2029}', '\u{202F}', '\u{205F}', '\u{3000}'] {
        assert!(is_whitespace(c), "{:?}", c);
    }
    for c in ['a', '0', '\u{08}', '\u{0E}', '\u{200B}', '\u{180E}', '\u{FEFF}', '_'] {
        assert!(!is_whitespace(c), "{:?}", c);
    }
    let mut c = 0u32;
    while c < 0x11000 {
        if let Some(ch) = char::from_u32(c) {
            assert_eq!(is_whitespace(ch), ch.is_whitespace(), "{:?}", ch);
        }
        c += 1;
    }
}

#[test]
fn tokens_are_split_trimmed_and_kept_if_not_blank() {
    assert_eq!(split_tokens(&to_chars("a, b ,,c,"), ','), fields(&["a", "b", "c"]));
    assert_eq!(split_tokens(&to_chars(""), ','), Vec::<String>::new());
    assert_eq!(split_tokens(&to_chars(" , ,"), ','), Vec::<String>::new());
    assert_eq!(split_tokens(&to_chars("no separator"), ','), fields(&["no separator"]));
}

#[test]
fn join_puts_the_separator_between_neighbours() {
    assert_eq!(join(&fields(&["a", "b", "c"]), "--"), "a--b--c");
    assert_eq!(join(&fields(&["", ""]), ","), ",");
    assert_eq!(join(&fields(&["solo"]), ", "), "solo");
    assert_eq!(join(&Vec::new(), ", "), "");
}

#[test]
fn prefix_and_membership() {
    assert!(starts_with("https://x", "http"));
    assert!(starts_with("http", "http"));
    assert!(starts_with("anything", ""));
    assert!(!starts_with("htt", "http"));
    assert!(!starts_with("xhttp", "http"));
    let list = fields(&["a", "b"]);
    assert!(contains_text(&list, &"b".to_string()));
    assert!(!contains_text(&list, &"c".to_string()));
    assert_eq!(copy_strings(&list), list);
}
