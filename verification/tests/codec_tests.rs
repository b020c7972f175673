use waterpistol::config::Param;
use waterpistol::report::{
    GatlingReport, RequestErrorStats, RequestStats, TestrunData, TestrunStatus,
    TestrunVisibilityStatus, UserStats,
};

fn sample_report() -> GatlingReport {
    GatlingReport {
        name: "foobar".to_string(),
        version: "3.9.2".to_string(),
        requests_ok: 2,
        requests_nok: 1,
        request_stats: vec![RequestStats {
            name: "home_page".into(),
            avg: 101,
            max: 112,
            min: 90,
            p95: 112,
            count: 2,
            errors: vec![RequestErrorStats { name: "BLAH".into(), count: 1 }],
        }],
        user_stats: vec![UserStats { name: "Visit Homepage".into(), count: 3 }],
    }
}

#[test]
fn round_trip_of_a_running_record() {
    let record = TestrunData {
        datum: None,
        status: TestrunStatus::Running,
        custom_params: vec![Param { name: "users".into(), value: "10".into() }],
        statistics: None,
        visibility_status: TestrunVisibilityStatus::Visible,
    };
    let text = record.to_json();
    let back = TestrunData::from_json(text.as_str()).unwrap();
    assert_eq!(back, record);
}

#[test]
fn round_trip_of_a_done_record() {
    let record = TestrunData {
        datum: Some(1680605882911),
        status: TestrunStatus::Done,
        custom_params: vec![
            Param { name: "users".into(), value: "10".into() },
            Param { name: "ramp".into(), value: "60".into() },
        ],
        statistics: Some(sample_report()),
        visibility_status: TestrunVisibilityStatus::Hidden,
    };
    let text = record.to_json();
    let back = TestrunData::from_json(text.as_str()).unwrap();
    assert_eq!(back, record);
}

#[test]
fn round_trip_with_awkward_characters_and_a_negative_time() {
    let record = TestrunData {
        datum: Some(-42),
        status: TestrunStatus::Unknown,
        custom_params: vec![Param {
            name: "quote\"back\\slash".into(),
            value: "tab\there\nand a line".into(),
        }],
        statistics: None,
        visibility_status: TestrunVisibilityStatus::Visible,
    };
    let text = record.to_json();
    let back = TestrunData::from_json(text.as_str()).unwrap();
    assert_eq!(back, record);
}

#[test]
fn written_record_is_the_expected_json_text() {
    let record = TestrunData {
        datum: None,
        status: TestrunStatus::Running,
        custom_params: vec![],
        statistics: None,
        visibility_status: TestrunVisibilityStatus::Visible,
    };
    assert_eq!(
        record.to_json(),
        "{\"datum\":null,\"status\":\"Running\",\"custom_params\":{},\
         \"statistics\":null,\"visibility_status\":\"Visible\"}"
    );
}

#[test]
fn written_record_is_valid_json_for_other_readers() {
    let record = TestrunData {
        datum: Some(7),
        status: TestrunStatus::Done,
        custom_params: vec![Param { name: "users".into(), value: "10".into() }],
        statistics: Some(sample_report()),
        visibility_status: TestrunVisibilityStatus::Visible,
    };
    let text = record.to_json();
    let value: serde_json::Value = serde_json::from_str(text.as_str()).unwrap();
    assert_eq!(value["datum"], serde_json::Value::from(7u64));
    assert_eq!(value["status"], serde_json::Value::from("Done"));
    assert_eq!(value["custom_params"]["users"], serde_json::Value::from("10"));
    assert_eq!(value["statistics"]["name"], serde_json::Value::from("foobar"));
    assert_eq!(value["statistics"]["requests_ok"], serde_json::Value::from(2u64));
    assert_eq!(
        value["statistics"]["request_stats"][0]["p95"],
        serde_json::Value::from(112u64)
    );
    assert_eq!(value["visibility_status"], serde_json::Value::from("Visible"));
}

#[test]
fn garbage_and_trailing_text_are_rejected() {
    assert_eq!(TestrunData::from_json(""), None);
    assert_eq!(TestrunData::from_json("{}"), None);
    assert_eq!(TestrunData::from_json("not json at all"), None);
    let record = TestrunData {
        datum: None,
        status: TestrunStatus::Unknown,
        custom_params: vec![],
        statistics: None,
        visibility_status: TestrunVisibilityStatus::Visible,
    };
    let mut text = record.to_json();
    assert!(TestrunData::from_json(text.as_str()).is_some());
    text.push('x');
    assert_eq!(TestrunData::from_json(text.as_str()), None);
}
