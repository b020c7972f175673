use waterpistol::config::Param;
use waterpistol::error::Error;
use waterpistol::models::{set_visibility, Testrun};
use waterpistol::orchestrator::{done_record, initial_record};
use waterpistol::registry::{
    completed_entry, finalize_listing, heal_record, is_staging_name, plan_visibility_update,
    sort_by_date, staging_entry,
};
use waterpistol::report::{GatlingReport, TestrunStatus, TestrunVisibilityStatus};

fn small_report() -> GatlingReport {
    GatlingReport {
        name: "foobar".to_string(),
        version: "3.9.2".to_string(),
        requests_ok: 1,
        requests_nok: 0,
        request_stats: vec![],
        user_stats: vec![],
    }
}

fn run_named(name: &str, date: &str) -> Testrun {
    Testrun {
        creation_date: date.to_string(),
        name: name.to_string(),
        progress: None,
        data: None,
    }
}

#[test]
fn staging_names_follow_the_reserved_prefix() {
    assert!(is_staging_name("running-1234"));
    assert!(!is_staging_name("1234"));
    assert!(!is_staging_name("run"));
}

#[test]
fn a_good_record_is_taken_as_it_stands() {
    let record = initial_record(vec![Param { name: "users".into(), value: "10".into() }]);
    let text = record.to_json();
    let (healed, rewrite) = heal_record(Some(&text), None);
    assert_eq!(healed, record);
    assert!(!rewrite);
}

#[test]
fn a_missing_record_is_rebuilt_from_the_raw_log() {
    let log = "RUN\tSimulation\tsimulation\t1680605882911\tfoobar\t3.9.2\n\
               REQUEST\t\thome_page\t100\t200\tOK"
        .to_string();
    let (healed, rewrite) = heal_record(None, Some(&log));
    assert!(rewrite);
    assert_eq!(healed.status, TestrunStatus::Unknown);
    let stats = healed.statistics.unwrap();
    assert_eq!(stats.name, "foobar");
    assert_eq!(stats.requests_ok, 1);
}

#[test]
fn a_corrupt_record_without_a_log_becomes_the_default() {
    let broken = "{\"datum\":".to_string();
    let (healed, rewrite) = heal_record(Some(&broken), None);
    assert!(rewrite);
    assert_eq!(healed.status, TestrunStatus::Unknown);
    assert_eq!(healed.statistics, None);
    assert_eq!(healed.custom_params, vec![]);
    assert_eq!(healed.visibility_status, TestrunVisibilityStatus::Visible);
}

#[test]
fn hidden_runs_are_left_out_of_the_listing() {
    let mut record = initial_record(vec![]);
    set_visibility(&mut record, TestrunVisibilityStatus::Hidden);
    assert_eq!(record.status, TestrunStatus::Running);
    assert_eq!(record.statistics, None);
    assert!(
        completed_entry("abc".to_string(), record, Some("2023-01-01".to_string())).is_none()
    );
}

#[test]
fn visible_runs_get_their_creation_date_or_the_sentinel() {
    let record = done_record(vec![], small_report(), Some(5));
    let entry = completed_entry("abc".to_string(), record.clone(), None).unwrap();
    assert_eq!(entry.creation_date, "1970-01-01T12:00:00");
    assert_eq!(entry.name, "abc");
    assert_eq!(entry.progress, None);
    let entry2 = completed_entry("abc".to_string(), record, Some("2023-05-01".to_string())).unwrap();
    assert_eq!(entry2.creation_date, "2023-05-01");
}

#[test]
fn a_started_run_lists_as_running_then_done_after_promotion() {
    let params = vec![Param { name: "users".into(), value: "10".into() }];
    let started = initial_record(params.clone());
    let staged_text = started.to_json();
    let log = "USER\ta\tSTART\t1\nUSER\tb\tSTART\t2".to_string();
    let entry = staging_entry("running-tok".to_string(), Some(&staged_text), Some(&log)).unwrap();
    assert_eq!(entry.creation_date, "");
    assert_eq!(entry.progress, Some(2));
    let data = entry.data.unwrap();
    assert_eq!(data.status, TestrunStatus::Running);
    assert_eq!(data.statistics, None);

    let promoted = done_record(params, small_report(), Some(9));
    let done_text = promoted.to_json();
    let (read_back, rewrite) = heal_record(Some(&done_text), None);
    assert!(!rewrite);
    assert_eq!(read_back.status, TestrunStatus::Done);
    assert_eq!(read_back.statistics.as_ref().unwrap().name, "foobar");
    let listed = completed_entry("tok".to_string(), read_back, Some("2023-05-01".to_string()))
        .unwrap();
    assert_eq!(listed.name, "tok");
    assert_eq!(listed.data.unwrap().status, TestrunStatus::Done);
}

#[test]
fn a_staging_directory_without_a_record_is_skipped() {
    assert!(staging_entry("running-x".to_string(), None, None).is_none());
    let broken = "nope".to_string();
    assert!(staging_entry("running-x".to_string(), Some(&broken), None).is_none());
}

#[test]
fn visibility_updates_fail_on_missing_or_corrupt_runs() {
    let good = initial_record(vec![]).to_json();
    let broken = "{\"datum\":".to_string();
    assert_eq!(
        plan_visibility_update(false, true, Some(&good), TestrunVisibilityStatus::Hidden),
        Err(Error::NotFound)
    );
    assert_eq!(
        plan_visibility_update(true, false, None, TestrunVisibilityStatus::Hidden),
        Err(Error::NotFound)
    );
    assert_eq!(
        plan_visibility_update(true, true, None, TestrunVisibilityStatus::Hidden),
        Err(Error::Io)
    );
    assert_eq!(
        plan_visibility_update(true, true, Some(&broken), TestrunVisibilityStatus::Hidden),
        Err(Error::Serde)
    );
    let updated =
        plan_visibility_update(true, true, Some(&good), TestrunVisibilityStatus::Hidden).unwrap();
    assert_eq!(updated.visibility_status, TestrunVisibilityStatus::Hidden);
    assert_eq!(updated.status, TestrunStatus::Running);
    assert_eq!(Error::NotFound.message(), "Not Found");
}

#[test]
fn sorting_is_by_creation_date_and_stable() {
    let a = run_named("a", "2023-03-01");
    let b = run_named("b", "2023-01-01");
    let c = run_named("c", "2023-02-01");
    let d = run_named("d", "2023-01-01");
    let sorted = sort_by_date(vec![a, b, c, d]);
    let names: Vec<&str> = sorted.iter().map(|t| t.name.as_str()).collect();
    assert_eq!(names, vec!["b", "d", "c", "a"]);
}

#[test]
fn listing_shows_inflight_first_then_newest_completed() {
    let old = run_named("old", "2023-01-01");
    let new = run_named("new", "2023-02-01");
    let flight = run_named("running-x", "");
    let listing = finalize_listing(vec![old, new], vec![flight]);
    let names: Vec<&str> = listing.iter().map(|t| t.name.as_str()).collect();
    assert_eq!(names, vec!["running-x", "new", "old"]);
}
