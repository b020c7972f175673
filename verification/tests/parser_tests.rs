use waterpistol::parser::{LineError, LogField, ParseError};
use waterpistol::parser::count_started_users;
use waterpistol::report::{GatlingReport, RequestErrorStats, RequestStats, UserStats};

#[test]
fn it_works() {
    let string = "\
RUN\tSimulation\tsimulation\t1680605882911\tfoobar\t3.9.2
USER\tVisit Homepage\tSTART\t1680605883404
USER\tVisit Homepage\tSTART\t1680605883428
USER\tVisit Homepage\tSTART\t1680605883454
REQUEST\t\thome_page\t1680605883428\t1680605883518\tOK\t 
REQUEST\t\thome_page\t1680605883400\t1680605883512\tOK";

    let record = GatlingReport::from_log_text(string).unwrap();

    let expected = GatlingReport {
        name: "foobar".to_string(),
        version: "3.9.2".to_string(),
        requests_ok: 2,
        requests_nok: 0,
        request_stats: vec![RequestStats {
            name: "home_page".into(),
            avg: 101,
            max: 112,
            min: 90,
            p95: 112,
            count: 2,
            errors: vec![],
        }],
        user_stats: vec![UserStats {
            name: "Visit Homepage".into(),
            count: 3,
        }],
    };

    assert_eq!(record, expected);
}

#[test]
fn it_works_with_errors() {
    let string = "\
RUN\tSimulation\tsimulation\t1680605882911\tfoobar\t3.9.2
USER\tVisit Homepage\tSTART\t1680605883404
USER\tVisit Homepage\tSTART\t1680605883428
USER\tVisit Homepage\tSTART\t1680605883454
REQUEST\t\thome_page\t1680605883428\t1680605883518\tBLAH\t 
REQUEST\t\thome_page\t1680605883400\t1680605883512\tOK";

    let record = GatlingReport::from_log_text(string).unwrap();

    let expected = GatlingReport {
        name: "foobar".to_string(),
        version: "3.9.2".to_string(),
        requests_ok: 1,
        requests_nok: 1,
        request_stats: vec![RequestStats {
            name: "home_page".into(),
            avg: 101,
            max: 112,
            min: 90,
            p95: 112,
            count: 2,
            errors: vec![RequestErrorStats {
                name: "BLAH".into(),
                count: 1,
            }],
        }],
        user_stats: vec![UserStats {
            name: "Visit Homepage".into(),
            count: 3,
        }],
    };

    assert_eq!(record, expected);
}

#[test]
fn empty_log_is_a_malformed_header() {
    assert_eq!(GatlingReport::from_log_text(""), Err(ParseError::MalformedHeader));
}

#[test]
fn short_header_is_malformed() {
    let log = "RUN\tSimulation\tsimulation\t1680605882911\tfoobar";
    assert_eq!(GatlingReport::from_log_text(log), Err(ParseError::MalformedHeader));
}

#[test]
fn missing_request_result_is_reported_with_its_line() {
    let log = "\
RUN\tSimulation\tsimulation\t1680605882911\tfoobar\t3.9.2
REQUEST\t\thome_page\t100\t200";
    assert_eq!(
        GatlingReport::from_log_text(log),
        Err(ParseError::BadRecord {
            line: 1,
            error: LineError::MissingField(LogField::RequestResult)
        })
    );
}

#[test]
fn non_numeric_start_is_a_bad_number() {
    let log = "\
RUN\tSimulation\tsimulation\t1680605882911\tfoobar\t3.9.2
REQUEST\t\thome_page\tabc\t200\tOK";
    assert_eq!(
        GatlingReport::from_log_text(log),
        Err(ParseError::BadRecord {
            line: 1,
            error: LineError::BadNumber(LogField::StartMillis)
        })
    );
}

#[test]
fn an_overflowing_timestamp_is_a_bad_number() {
    let log = "\
RUN\tSimulation\tsimulation\t1680605882911\tfoobar\t3.9.2
REQUEST\t\thome_page\t100\t18446744073709551616\tOK";
    assert_eq!(
        GatlingReport::from_log_text(log),
        Err(ParseError::BadRecord {
            line: 1,
            error: LineError::BadNumber(LogField::EndMillis)
        })
    );
}

#[test]
fn a_user_record_without_a_status_is_malformed() {
    let log = "\
RUN\tSimulation\tsimulation\t1680605882911\tfoobar\t3.9.2
USER\tVisit Homepage";
    assert_eq!(
        GatlingReport::from_log_text(log),
        Err(ParseError::BadRecord {
            line: 1,
            error: LineError::MissingField(LogField::JourneyStatus)
        })
    );
}

#[test]
fn end_before_start_fails_the_record() {
    let log = "\
RUN\tSimulation\tsimulation\t1680605882911\tfoobar\t3.9.2
REQUEST\t\thome_page\t300\t200\tOK";
    assert_eq!(
        GatlingReport::from_log_text(log),
        Err(ParseError::BadRecord {
            line: 1,
            error: LineError::BadTimeOrder
        })
    );
}

#[test]
fn unknown_tags_and_stop_events_are_ignored() {
    let log = "\
RUN\tSimulation\tsimulation\t1680605882911\tfoobar\t3.9.2
GROUP\tsomething\telse
USER\tVisit Homepage\tSTOP\t1680605883404
USER\tVisit Homepage\tSTART\t1680605883404";
    let record = GatlingReport::from_log_text(log).unwrap();
    assert_eq!(record.requests_ok, 0);
    assert_eq!(record.requests_nok, 0);
    assert_eq!(record.request_stats, vec![]);
    assert_eq!(
        record.user_stats,
        vec![UserStats { name: "Visit Homepage".into(), count: 1 }]
    );
}

#[test]
fn two_requests_two_names() {
    let log = "\
RUN\tSimulation\tsimulation\t1680605882911\tfoobar\t3.9.2
REQUEST\t\tlogin\t100\t150\tOK
REQUEST\t\thome\t100\t120\tKO
REQUEST\t\tlogin\t200\t220\tKO";
    let record = GatlingReport::from_log_text(log).unwrap();
    assert_eq!(record.requests_ok, 1);
    assert_eq!(record.requests_nok, 2);
    assert_eq!(record.request_stats.len(), 2);
    let login = &record.request_stats[0];
    assert_eq!(login.name, "login");
    assert_eq!(login.count, 2);
    assert_eq!(login.min, 20);
    assert_eq!(login.max, 50);
    assert_eq!(login.avg, 35);
    assert_eq!(login.p95, 50);
    assert_eq!(
        login.errors,
        vec![RequestErrorStats { name: "KO".into(), count: 1 }]
    );
    let home = &record.request_stats[1];
    assert_eq!(home.name, "home");
    assert_eq!(home.count, 1);
    assert_eq!(home.p95, 20);
}

#[test]
fn p95_uses_the_nearest_rank_zero_indexed_formula() {
    // Twenty samples with durations 1..=20: the index is (20 * 95) / 100 = 19,
    // so p95 is the largest sample; the mean of 210 truncates to 10.
    let mut log = String::from("RUN\tSimulation\tsimulation\t1\tfoobar\t3.9.2");
    for d in 1..=20u64 {
        log.push_str(&format!("\nREQUEST\t\tload\t100\t{}\tOK", 100 + d));
    }
    let record = GatlingReport::from_log_text(&log).unwrap();
    let stats = &record.request_stats[0];
    assert_eq!(stats.count, 20);
    assert_eq!(stats.min, 1);
    assert_eq!(stats.max, 20);
    assert_eq!(stats.avg, 10);
    assert_eq!(stats.p95, 20);

    // One sample: the index is 0 and the only sample is the p95.
    let single = "RUN\tS\ts\t1\tn\tv\nREQUEST\t\tone\t0\t7\tOK";
    let record = GatlingReport::from_log_text(single).unwrap();
    assert_eq!(record.request_stats[0].p95, 7);
}

#[test]
fn counts_started_users_ignoring_stop_lines() {
    let log = "\
RUN\tSimulation\tsimulation\t1680605882911\tfoobar\t3.9.2
USER\tVisit Homepage\tSTART\t1
USER\tVisit Homepage\tSTART\t2
USER\tVisit Homepage\tSTOP\t3
USER\tVisit Homepage\tSTART\t4";
    assert_eq!(count_started_users(log), 3);
}

#[test]
fn counts_started_users_on_a_partial_trailing_line() {
    let log = "USER\ta\tSTART\t1\nUSER\tb\tSTA";
    assert_eq!(count_started_users(log), 1);
}
