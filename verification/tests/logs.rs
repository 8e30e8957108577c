use openvpn_mgmt::addr::IpAddress;
use openvpn_mgmt::envelope::{has_complete_zones, SyslogEnvelope};
use openvpn_mgmt::error::Error;
use openvpn_mgmt::logs::{
    filter_entries, filter_from_logs, parse_event, resolve_instant, scan_line, AuthQuery, LogEntry,
    LogEvent, LogScanner, Timestamp,
};

const BODY: &str = "openvpn server 'ovpns1' user 'alice' address '10.0.0.5:55555' - connected";

fn noon() -> Timestamp {
    Timestamp { secs: 1677672000, nanos: 0 }
}

fn envelope(secs: Option<i64>, nanos: Option<u32>, msg: &str) -> SyslogEnvelope {
    SyslogEnvelope { timestamp: secs, timestamp_nanos: nanos, msg: msg.to_string() }
}

fn entry(event: LogEvent, user: &str, server: &str, last: u8) -> LogEntry {
    LogEntry {
        event,
        time: noon(),
        ip: IpAddress::V4([10, 0, 0, last]),
        port: 1000 + last as u16,
        user: user.to_string(),
        server: server.to_string(),
    }
}

fn query(server: Option<&str>, user: Option<&str>, event: Option<&str>) -> AuthQuery {
    AuthQuery {
        server: server.map(|s| s.to_string()),
        user: user.map(|s| s.to_string()),
        event: event.map(|s| s.to_string()),
    }
}

fn chars(text: &str) -> Vec<char> {
    text.chars().collect()
}

#[test]
fn event_words_are_known() {
    assert_eq!(LogEvent::from_str("connecting"), Ok(LogEvent::Connecting));
    assert_eq!(LogEvent::from_str("connected"), Ok(LogEvent::Connected));
    assert_eq!(LogEvent::from_str("disconnected"), Ok(LogEvent::Disconnected));
}

#[test]
fn other_words_are_unknown_events() {
    for word in ["", "bogus", "Connected", "connected ", " connected", "connect", "disconnecting"] {
        assert_eq!(LogEvent::from_str(word), Err(Error::UnknownEvent));
    }
}

#[test]
fn connected_message_round_trip() {
    let entry = parse_event(BODY, noon()).unwrap();
    assert_eq!(
        entry,
        LogEntry {
            event: LogEvent::Connected,
            time: Timestamp { secs: 1677672000, nanos: 0 },
            ip: IpAddress::V4([10, 0, 0, 5]),
            port: 55555,
            user: "alice".to_string(),
            server: "ovpns1".to_string(),
        }
    );
}

#[test]
fn each_event_word_is_decoded() {
    let connecting = "openvpn server 'ovpns2' user 'bob' address '192.168.1.7:1194' - connecting";
    let entry = parse_event(connecting, Timestamp { secs: 5, nanos: 7 }).unwrap();
    assert_eq!(entry.event, LogEvent::Connecting);
    assert_eq!(entry.time, Timestamp { secs: 5, nanos: 7 });
    assert_eq!(entry.ip, IpAddress::V4([192, 168, 1, 7]));
    assert_eq!(entry.port, 1194);
    assert_eq!(entry.user, "bob");
    assert_eq!(entry.server, "ovpns2");
    let disconnected = "openvpn server 'ovpns2' user 'bob' address '192.168.1.7:1194' - disconnected";
    assert_eq!(parse_event(disconnected, noon()).unwrap().event, LogEvent::Disconnected);
}

#[test]
fn unknown_event_word_fails() {
    let body = "openvpn server 'ovpns1' user 'alice' address '10.0.0.5:55555' - bogus";
    assert_eq!(parse_event(body, noon()), Err(Error::UnknownEvent));
}

#[test]
fn other_word_counts_are_malformed() {
    for body in [
        "",
        "connected",
        "openvpn server 'ovpns1' user 'alice' address '10.0.0.5:55555' connected",
        "openvpn server 'ovpns1' user 'alice' address '10.0.0.5:55555' - connected ",
        "openvpn server 'ovpns1' user 'alice' address '10.0.0.5:55555' -  connected",
        " openvpn server 'ovpns1' user 'alice' address '10.0.0.5:55555' - connected",
        "openvpn server 'ovpns1' user 'alice smith' address '10.0.0.5:55555' - connected",
        "a b c d e f g h i j",
    ] {
        assert_eq!(parse_event(body, noon()), Err(Error::MalformedMessage), "{}", body);
    }
}

#[test]
fn bad_address_fails() {
    for body in [
        "openvpn server 'ovpns1' user 'alice' address '10.0.0.5' - connected",
        "openvpn server 'ovpns1' user 'alice' address '10.0.0.555:1' - connected",
        "openvpn server 'ovpns1' user 'alice' address '' - connected",
        "openvpn server 'ovpns1' user 'alice' address 'host:1' - connected",
        "openvpn server 'ovpns1' user 'alice' address '10.0.0.5:99999' - connected",
    ] {
        assert_eq!(parse_event(body, noon()), Err(Error::BadAddress), "{}", body);
    }
}

#[test]
fn bad_address_comes_before_unknown_event() {
    let body = "openvpn server 'ovpns1' user 'alice' address 'nowhere' - bogus";
    assert_eq!(parse_event(body, noon()), Err(Error::BadAddress));
}

#[test]
fn quotes_are_stripped_at_both_ends_only() {
    let body = "x y ''ov'pn'' z alice a 1.2.3.4:5 - connected";
    let entry = parse_event(body, noon()).unwrap();
    assert_eq!(entry.server, "ov'pn");
    assert_eq!(entry.user, "alice");
    assert_eq!(entry.port, 5);
}

#[test]
fn timestamps_that_name_an_instant_resolve() {
    assert_eq!(resolve_instant(Some(0), Some(0)), Ok(Timestamp { secs: 0, nanos: 0 }));
    assert_eq!(
        resolve_instant(Some(1677672000), Some(999_999_999)),
        Ok(Timestamp { secs: 1677672000, nanos: 999_999_999 })
    );
    assert_eq!(resolve_instant(Some(-1), Some(5)), Ok(Timestamp { secs: -1, nanos: 5 }));
    assert_eq!(
        resolve_instant(Some(59), Some(1_500_000_000)),
        Ok(Timestamp { secs: 59, nanos: 1_500_000_000 })
    );
}

#[test]
fn other_timestamps_are_bad() {
    assert_eq!(resolve_instant(None, Some(0)), Err(Error::BadTimestamp));
    assert_eq!(resolve_instant(Some(0), None), Err(Error::BadTimestamp));
    assert_eq!(resolve_instant(None, None), Err(Error::BadTimestamp));
    assert_eq!(resolve_instant(Some(i64::MAX), Some(0)), Err(Error::BadTimestamp));
    assert_eq!(resolve_instant(Some(i64::MIN), Some(0)), Err(Error::BadTimestamp));
    assert_eq!(resolve_instant(Some(0), Some(2_000_000_000)), Err(Error::BadTimestamp));
    assert_eq!(resolve_instant(Some(58), Some(1_500_000_000)), Err(Error::BadTimestamp));
}

#[test]
fn envelope_gives_the_entry() {
    let entry = LogEntry::try_from(&envelope(Some(1677672000), Some(250), BODY)).unwrap();
    assert_eq!(entry.time, Timestamp { secs: 1677672000, nanos: 250 });
    assert_eq!(entry.event, LogEvent::Connected);
    assert_eq!(entry.user, "alice");
}

#[test]
fn bad_timestamp_comes_before_everything_else() {
    assert_eq!(LogEntry::try_from(&envelope(None, Some(0), "bogus")), Err(Error::BadTimestamp));
    assert_eq!(LogEntry::try_from(&envelope(Some(0), None, BODY)), Err(Error::BadTimestamp));
    assert_eq!(
        LogEntry::try_from(&envelope(Some(i64::MAX), Some(0), BODY)),
        Err(Error::BadTimestamp)
    );
    assert_eq!(
        LogEntry::try_from(&envelope(Some(0), Some(0), "bogus")),
        Err(Error::MalformedMessage)
    );
}

#[test]
fn log_line_gives_the_entry() {
    let line = format!("<30>1 2023-03-01T12:00:00.5+00:00 fw openvpn 1234 - - {}\n", BODY);
    let entry = scan_line(&line).unwrap().unwrap();
    assert_eq!(
        entry,
        LogEntry {
            event: LogEvent::Connected,
            time: Timestamp { secs: 1677672000, nanos: 500_000_000 },
            ip: IpAddress::V4([10, 0, 0, 5]),
            port: 55555,
            user: "alice".to_string(),
            server: "ovpns1".to_string(),
        }
    );
}

#[test]
fn time_zone_of_the_line_is_taken_into_account() {
    let line = format!("<30>1 2023-03-01T14:00:00+02:00 fw openvpn 1234 - - {}", BODY);
    assert_eq!(scan_line(&line).unwrap().unwrap().time, noon());
    let zulu = format!("<30>1 2023-03-01T12:00:00Z fw openvpn 1234 - - {}", BODY);
    assert_eq!(scan_line(&zulu).unwrap().unwrap().time, noon());
    let west = format!("<30>1 2023-03-01T07:00:00-05:00 fw openvpn 1234 - - {}", BODY);
    assert_eq!(scan_line(&west).unwrap().unwrap().time, noon());
}

#[test]
fn lines_that_report_no_event_are_passed_over() {
    assert_eq!(scan_line(""), Ok(None));
    assert_eq!(scan_line("<30>1 2023-03-01T12:00:00Z fw openvpn 1 - - peer pruned\n"), Ok(None));
    assert_eq!(scan_line("not a syslog line at all"), Ok(None));
    assert_eq!(scan_line("connected to nothing"), Ok(None));
}

#[test]
fn candidate_that_is_no_syslog_message_fails() {
    assert_eq!(scan_line("peer connected"), Err(Error::BadEnvelope));
    assert_eq!(scan_line("connected"), Err(Error::BadEnvelope));
    assert_eq!(scan_line("<30>1 2023-13-01T12:00:00Z fw openvpn 1 - - x connected"), Err(Error::BadEnvelope));
}

#[test]
fn candidate_with_a_cut_time_zone_fails() {
    assert_eq!(scan_line("<30>1 2023-03-01T12:00:00+0 connected"), Err(Error::BadEnvelope));
    assert!(!has_complete_zones(&chars("<30>1 2023-03-01T12:00:00+0")));
    assert!(!has_complete_zones(&chars("<30>1 2023-03-01T12:00:00-")));
    assert!(!has_complete_zones(&chars("<30>1 2023-03-01T12:00:00+0é:00 x")));
    assert!(has_complete_zones(&chars("<30>1 2023-03-01T12:00:00+00:00 fw app 1 - - 5-1")));
    assert!(has_complete_zones(&chars("<30>1 - fw app 1 - - 5-1")));
    assert!(has_complete_zones(&chars("")));
}

#[test]
fn candidate_without_timestamp_fails() {
    let line = format!("<30>1 - fw openvpn 1234 - - {}", BODY);
    assert_eq!(scan_line(&line), Err(Error::BadTimestamp));
}

#[test]
fn candidate_with_another_body_fails() {
    assert_eq!(
        scan_line("<30>1 2023-03-01T12:00:00Z fw openvpn 1 - - client connected"),
        Err(Error::MalformedMessage)
    );
    let line = "<30>1 2023-03-01T12:00:00Z fw openvpn 1 - - openvpn server 'a' user 'b' address 'c' - connected";
    assert_eq!(scan_line(line), Err(Error::BadAddress));
}

#[test]
fn scan_keeps_the_events_in_file_order() {
    let log = vec![
        format!("<30>1 2023-03-01T12:00:00Z fw openvpn 1 - - {}\n", BODY),
        "<30>1 2023-03-01T12:00:01Z fw openvpn 1 - - cache pruned\n".to_string(),
        "<30>1 2023-03-01T12:00:02Z fw openvpn 1 - - openvpn server 'ovpns1' user 'alice' address '10.0.0.5:55555' - disconnected\n".to_string(),
    ];
    let history = filter_from_logs(&log).unwrap();
    assert_eq!(history.len(), 2);
    assert_eq!(history[0].event, LogEvent::Connected);
    assert_eq!(history[0].time.secs, 1677672000);
    assert_eq!(history[1].event, LogEvent::Disconnected);
    assert_eq!(history[1].time.secs, 1677672002);
}

#[test]
fn scan_of_nothing_is_empty() {
    assert_eq!(filter_from_logs(&Vec::new()), Ok(Vec::new()));
    assert_eq!(filter_from_logs(&vec!["\n".to_string(), "x\n".to_string()]), Ok(Vec::new()));
}

#[test]
fn scan_fails_with_the_first_failure() {
    let log = vec![
        format!("<30>1 2023-03-01T12:00:00Z fw openvpn 1 - - {}\n", BODY),
        "<30>1 2023-03-01T12:00:01Z fw openvpn 1 - - somebody connected\n".to_string(),
        "garbage connected\n".to_string(),
    ];
    assert_eq!(filter_from_logs(&log), Err(Error::MalformedMessage));
}

#[test]
fn filter_by_server_keeps_the_order() {
    let history = vec![
        entry(LogEvent::Connecting, "alice", "ovpns1", 1),
        entry(LogEvent::Connected, "bob", "ovpns2", 2),
        entry(LogEvent::Connected, "alice", "ovpns1", 3),
        entry(LogEvent::Disconnected, "carol", "ovpns3", 4),
        entry(LogEvent::Disconnected, "alice", "ovpns1", 5),
    ];
    let kept = filter_entries(&history, &query(Some("ovpns1"), None, None)).unwrap();
    assert_eq!(
        kept,
        vec![
            entry(LogEvent::Connecting, "alice", "ovpns1", 1),
            entry(LogEvent::Connected, "alice", "ovpns1", 3),
            entry(LogEvent::Disconnected, "alice", "ovpns1", 5),
        ]
    );
}

#[test]
fn filter_by_user_and_event() {
    let history = vec![
        entry(LogEvent::Connecting, "alice", "ovpns1", 1),
        entry(LogEvent::Connected, "bob", "ovpns1", 2),
        entry(LogEvent::Connected, "alice", "ovpns2", 3),
        entry(LogEvent::Disconnected, "alice", "ovpns1", 4),
    ];
    let by_user = filter_entries(&history, &query(None, Some("alice"), None)).unwrap();
    assert_eq!(by_user.len(), 3);
    let by_event = filter_entries(&history, &query(None, None, Some("connected"))).unwrap();
    assert_eq!(
        by_event,
        vec![entry(LogEvent::Connected, "bob", "ovpns1", 2), entry(LogEvent::Connected, "alice", "ovpns2", 3)]
    );
    let by_all = filter_entries(&history, &query(Some("ovpns2"), Some("alice"), Some("connected"))).unwrap();
    assert_eq!(by_all, vec![entry(LogEvent::Connected, "alice", "ovpns2", 3)]);
    let none = filter_entries(&history, &query(Some("ovpns9"), None, None)).unwrap();
    assert!(none.is_empty());
}

#[test]
fn open_query_keeps_everything() {
    let history = vec![
        entry(LogEvent::Connecting, "alice", "ovpns1", 1),
        entry(LogEvent::Connected, "bob", "ovpns2", 2),
    ];
    let kept = filter_entries(&history, &query(None, None, None)).unwrap();
    assert_eq!(kept, history);
}

#[test]
fn query_for_an_unknown_event_fails() {
    let history = vec![entry(LogEvent::Connecting, "alice", "ovpns1", 1)];
    assert_eq!(
        filter_entries(&history, &query(Some("ovpns1"), None, Some("bogus"))),
        Err(Error::UnknownEvent)
    );
    assert_eq!(filter_entries(&Vec::new(), &query(None, None, Some(""))), Err(Error::UnknownEvent));
}

#[test]
fn peer_with_an_ipv6_address_is_decoded() {
    let body = "openvpn server 'ovpns1' user 'alice' address '[2001:db8::5]:55555' - connected";
    let entry = parse_event(body, noon()).unwrap();
    assert_eq!(entry.ip, IpAddress::V6([0x2001, 0xdb8, 0, 0, 0, 0, 0, 5]));
    assert_eq!(entry.port, 55555);
}

#[test]
fn scanner_takes_lines_one_at_a_time() {
    let mut scanner = LogScanner::new();
    assert!(!scanner.has_failed());
    scanner = scanner.feed(&format!("<30>1 2023-03-01T12:00:00Z fw openvpn 1 - - {}\n", BODY));
    scanner = scanner.feed("<30>1 2023-03-01T12:00:01Z fw openvpn 1 - - cache pruned\n");
    scanner = scanner.feed("\n");
    assert!(!scanner.has_failed());
    let history = scanner.finish().unwrap();
    assert_eq!(history.len(), 1);
    assert_eq!(history[0].user, "alice");
    assert_eq!(LogScanner::new().finish(), Ok(Vec::new()));
}

#[test]
fn scanner_stays_failed() {
    let mut scanner = LogScanner::new();
    scanner = scanner.feed("garbage connected\n");
    assert!(scanner.has_failed());
    scanner = scanner.feed(&format!("<30>1 2023-03-01T12:00:00Z fw openvpn 1 - - {}\n", BODY));
    scanner = scanner.feed("<30>1 - fw openvpn 1 - - x connected\n");
    assert!(scanner.has_failed());
    assert_eq!(scanner.finish(), Err(Error::BadEnvelope));
}

#[test]
fn damaged_lines_fail_or_pass_but_never_more() {
    let base: Vec<char> =
        format!("<30>1 2023-03-01T12:00:00.25+01:00 fw openvpn 1234 - - {}", BODY).chars().collect();
    let fill = ['+', '-', 'é', ' ', '0', 'Z', ':', '.', 'T', '€'];
    let mut seen_ok = 0;
    let mut seen_err = 0;
    for cut in 0..=base.len() {
        let mut lines: Vec<String> = Vec::new();
        let head: String = base[..cut].iter().collect();
        lines.push(head.clone());
        lines.push(format!("{} connected", head));
        lines.push(format!("{}connected", head));
        for c in fill {
            let tail: String = base[cut..].iter().collect();
            lines.push(format!("{}{}{}", head, c, tail));
            if cut < base.len() {
                let after: String = base[cut + 1..].iter().collect();
                lines.push(format!("{}{}{}", head, c, after));
                lines.push(format!("{}{}{}{}", head, c, c, after));
            }
        }
        for line in lines {
            match scan_line(&line) {
                Ok(_) => seen_ok += 1,
                Err(_) => seen_err += 1,
            }
        }
    }
    assert!(seen_ok > 0);
    assert!(seen_err > 0);
}

#[test]
fn time_zone_forms_of_the_transport() {
    let cases = [
        ("2023-03-01T12:00:00Z", Some(1677672000)),
        ("2023-03-01T12:00:00+00:00", Some(1677672000)),
        ("2023-03-01T13:30:00+01:30", Some(1677672000)),
        ("2023-03-01T12:00:00-00:00", Some(1677672000)),
        ("2023-03-01T12:00:00+0000", None),
        ("2023-03-01T12:00:00+00", None),
        ("2023-03-01T12:00:00+", None),
        ("2023-03-01T12:00:00-", None),
        ("2023-03-01T12:00:00+1", None),
        ("2023-03-01T12:00:00+é0:00", None),
        ("2023-03-01T12:00:00+00é00", None),
        ("2023-03-01T12:00:00+00:é0", None),
        ("2023-03-01T12:00:00", None),
        ("2023-03-01T12:00:00.+01:00", None),
    ];
    for (stamp, secs) in cases {
        let line = format!("<30>1 {} fw openvpn 1234 - - {}", stamp, BODY);
        let found = scan_line(&line).ok().flatten().map(|entry| entry.time.secs);
        assert_eq!(found, secs, "{}", stamp);
    }
}
