use waterpistol::config::{normalize_params, AppConfig, Param, SimulationConfig};
use waterpistol::models::{archive_mime_ok, RunTestParam};
use waterpistol::num::parse_u64_str;
use waterpistol::orchestrator::{build_command_args, staging_dir_name, RunPlan};
use waterpistol::report::TestrunStatus;

fn config() -> AppConfig {
    AppConfig {
        simulation: SimulationConfig {
            simulation_class: "com.example.BasicSimulation".to_string(),
            params: vec![
                Param { name: "users".into(), value: "1".into() },
                Param { name: "ramp".into(), value: "10".into() },
                Param { name: "secret".into(), value: "x".into() },
            ],
        },
    }
}

#[test]
fn command_line_forwards_only_recognized_parameters() {
    let cfg = config();
    let custom = vec![
        Param { name: "ramp".into(), value: "60".into() },
        Param { name: "bogus".into(), value: "nope".into() },
        Param { name: "users".into(), value: "10".into() },
    ];
    let args = build_command_args(&cfg, "smoke test", &custom, "/tmp/results/running-1");
    assert_eq!(
        args,
        vec![
            "gatling:test".to_string(),
            "-Dgatling.simulationClass=com.example.BasicSimulation".to_string(),
            "-Dgatling.runDescription=smoke test".to_string(),
            "-Dgatling.resultsFolder=/tmp/results/running-1".to_string(),
            "-Dusers=10".to_string(),
            "-Dramp=60".to_string(),
        ]
    );
}

#[test]
fn get_param_returns_the_schema_default() {
    let cfg = config();
    assert_eq!(cfg.get_param("ramp"), Some("10".to_string()));
    assert_eq!(cfg.get_param("missing"), None);
}

#[test]
fn staging_names_carry_the_token() {
    assert_eq!(staging_dir_name("abc-123"), "running-abc-123");
}

#[test]
fn a_plan_has_a_fresh_token_and_a_running_record() {
    let param = RunTestParam {
        description: "d".to_string(),
        custom_params: vec![Param { name: "users".into(), value: "10".into() }],
    };
    let plan = RunPlan::new(&param);
    assert_eq!(plan.token.len(), 36);
    assert_eq!(plan.staging_dir, format!("running-{}", plan.token));
    let record = waterpistol::report::TestrunData::from_json(plan.record_text.as_str()).unwrap();
    assert_eq!(record.status, TestrunStatus::Running);
    assert_eq!(record.statistics, None);
    assert_eq!(record.custom_params, param.custom_params);

    let other = RunPlan::new(&param);
    assert_ne!(other.token, plan.token);
}

#[test]
fn duplicate_parameters_collapse_like_a_map() {
    let ps = vec![
        Param { name: "users".into(), value: "1".into() },
        Param { name: "ramp".into(), value: "2".into() },
        Param { name: "users".into(), value: "3".into() },
    ];
    let collapsed = normalize_params(&ps);
    assert_eq!(
        collapsed,
        vec![
            Param { name: "users".into(), value: "3".into() },
            Param { name: "ramp".into(), value: "2".into() },
        ]
    );
    // A list that already is a mapping is left as it stands.
    assert_eq!(normalize_params(&collapsed), collapsed);
}

#[test]
fn a_plan_collapses_duplicate_parameters() {
    let param = RunTestParam {
        description: "d".to_string(),
        custom_params: vec![
            Param { name: "users".into(), value: "1".into() },
            Param { name: "users".into(), value: "9".into() },
        ],
    };
    let plan = RunPlan::new(&param);
    let record = waterpistol::report::TestrunData::from_json(plan.record_text.as_str()).unwrap();
    assert_eq!(
        record.custom_params,
        vec![Param { name: "users".into(), value: "9".into() }]
    );
}

#[test]
fn only_gzip_archives_are_accepted() {
    assert!(archive_mime_ok("application/gzip"));
    assert!(archive_mime_ok("application/x-gzip"));
    assert!(!archive_mime_ok("application/zip"));
    assert!(!archive_mime_ok("text/plain"));
}

#[test]
fn decimal_parsing_accepts_the_largest_word_and_rejects_overflow() {
    assert_eq!(parse_u64_str("0"), Some(0));
    assert_eq!(parse_u64_str("18446744073709551615"), Some(u64::MAX));
    assert_eq!(parse_u64_str("18446744073709551616"), None);
    assert_eq!(parse_u64_str(""), None);
    assert_eq!(parse_u64_str("12a"), None);
    assert_eq!(parse_u64_str("-1"), None);
}
