//! The run lifecycle's decisions: minting a fresh run token, naming its
//! staging directory, the records written at start and at completion, and
//! the external tool's command line. The surrounding process work — spawning
//! the tool, waiting, renaming the staging directory — is carried out by the
//! caller with the values planned here.

use vstd::prelude::*;
use crate::codec::enc_record;
use crate::config::AppConfig;
use crate::config::AppConfigV;
use crate::config::Param;
use crate::config::ParamV;
use crate::config::find_param;
use crate::config::lookup_param;
use crate::config::normalize_params;
use crate::config::params_wf;
use crate::config::spec_normalize;
use crate::models::RunTestParam;
use crate::report::GatlingReport;
use crate::report::GatlingReportV;
use crate::report::TestrunData;
use crate::report::TestrunDataV;
use crate::report::TestrunStatus;
use crate::report::TestrunVisibilityStatus;
use crate::report::record_wf;

verus! {

/// Relies on uuid::Uuid::new_v4 and its display form: a freshly drawn
/// random identifier, rendered hyphenated and lowercase, 36 characters.
#[verifier::external_body]
fn uuid_hyphenated() -> (r: String)
    ensures
        r@.len() == 36,
{
    format!("{}", uuid::Uuid::new_v4())
}

/// The staging directory name for a token: the reserved prefix marks the
/// run as still executing.
pub open spec fn spec_staging_dir_name(token: Seq<char>) -> Seq<char> {
    "running-"@ + token
}

/// The name of the staging directory for `token`.
pub fn staging_dir_name(token: &str) -> (r: String)
    ensures
        r@ == spec_staging_dir_name(token@),
{
    let mut r = "running-".to_owned();
    r.append(token);
    r
}

/// The record written when a run starts: running, with the launch
/// parameters, and with no statistics yet.
pub open spec fn spec_initial_record(ps: Seq<ParamV>) -> TestrunDataV {
    TestrunDataV {
        datum: None,
        status: TestrunStatus::Running,
        custom_params: ps,
        statistics: None,
        visibility_status: TestrunVisibilityStatus::Visible,
    }
}

/// Builds the start-of-run record. The parameters must already form a
/// mapping (`params_wf`); `RunPlan::new` normalizes arbitrary input first.
pub fn initial_record(params: Vec<Param>) -> (r: TestrunData)
    requires
        params_wf(params.deep_view()),
    ensures
        r@ == spec_initial_record(params.deep_view()),
        record_wf(r@),
        params_wf(r@.custom_params),
{
    let r = TestrunData {
        datum: None,
        status: TestrunStatus::Running,
        custom_params: params,
        statistics: None,
        visibility_status: TestrunVisibilityStatus::Visible,
    };
    proof {
        assert(r@ =~~= spec_initial_record(r.custom_params.deep_view()));
    }
    r
}

/// The record written once the run's directory has been promoted: done,
/// with the parsed statistics, and with the time they became available.
pub open spec fn spec_done_record(
    ps: Seq<ParamV>,
    stats: GatlingReportV,
    datum: Option<i64>,
) -> TestrunDataV {
    TestrunDataV {
        datum: datum,
        status: TestrunStatus::Done,
        custom_params: ps,
        statistics: Some(stats),
        visibility_status: TestrunVisibilityStatus::Visible,
    }
}

/// Builds the end-of-run record. As with `initial_record`, the parameters
/// must already form a mapping (`params_wf`).
pub fn done_record(params: Vec<Param>, statistics: GatlingReport, datum: Option<i64>) -> (r:
    TestrunData)
    requires
        params_wf(params.deep_view()),
    ensures
        r@ == spec_done_record(params.deep_view(), statistics@, datum),
        record_wf(r@),
        params_wf(r@.custom_params),
{
    let ghost sv = statistics@;
    let r = TestrunData {
        datum,
        status: TestrunStatus::Done,
        custom_params: params,
        statistics: Some(statistics),
        visibility_status: TestrunVisibilityStatus::Visible,
    };
    proof {
        assert(r@ =~~= spec_done_record(r.custom_params.deep_view(), sv, datum));
    }
    r
}

/// The `-D<name>=<value>` flags for the user parameters that the schema
/// recognizes, in schema order, each with the value the caller supplied.
pub open spec fn spec_forwarded(schema: Seq<ParamV>, custom: Seq<ParamV>) -> Seq<Seq<char>>
    decreases schema.len(),
{
    if schema.len() == 0 {
        Seq::empty()
    } else {
        let rest = spec_forwarded(schema.drop_last(), custom);
        match find_param(custom, schema.last().name) {
            Some(v) => rest.push("-D"@ + schema.last().name + "="@ + v),
            None => rest,
        }
    }
}

/// The full command line handed to the external tool: its subcommand, the
/// simulation class, the run description, the staging directory to write
/// results into, then one flag per recognized parameter.
pub open spec fn spec_command_args(
    cfg: AppConfigV,
    description: Seq<char>,
    custom: Seq<ParamV>,
    results_dir: Seq<char>,
) -> Seq<Seq<char>> {
    seq![
        "gatling:test"@,
        "-Dgatling.simulationClass="@ + cfg.simulation.simulation_class,
        "-Dgatling.runDescription="@ + description,
        "-Dgatling.resultsFolder="@ + results_dir,
    ] + spec_forwarded(cfg.simulation.params, custom)
}

/// Builds the external tool's arguments, matching `spec_command_args`.
pub fn build_command_args(
    config: &AppConfig,
    description: &str,
    custom_params: &Vec<Param>,
    results_dir: &str,
) -> (r: Vec<String>)
    ensures
        r.deep_view() == spec_command_args(
            config@,
            description@,
            custom_params.deep_view(),
            results_dir@,
        ),
{
    let ghost schema = config@.simulation.params;
    let ghost custom = custom_params.deep_view();
    let mut args: Vec<String> = Vec::new();
    args.push("gatling:test".to_owned());
    let mut a1 = "-Dgatling.simulationClass=".to_owned();
    a1.append(config.simulation.simulation_class.as_str());
    args.push(a1);
    let mut a2 = "-Dgatling.runDescription=".to_owned();
    a2.append(description);
    args.push(a2);
    let mut a3 = "-Dgatling.resultsFolder=".to_owned();
    a3.append(results_dir);
    args.push(a3);
    let ghost base = args.deep_view();
    proof {
        assert(base =~~= seq![
            "gatling:test"@,
            "-Dgatling.simulationClass="@ + config@.simulation.simulation_class,
            "-Dgatling.runDescription="@ + description@,
            "-Dgatling.resultsFolder="@ + results_dir@,
        ]);
        assert(schema.take(0) =~= Seq::<ParamV>::empty());
        assert(args.deep_view() =~~= base + spec_forwarded(schema.take(0), custom));
    }
    let n = config.simulation.params.len();
    let mut i: usize = 0;
    while i < n
        invariant
            0 <= i <= n,
            n == config.simulation.params.len(),
            schema == config@.simulation.params,
            custom == custom_params.deep_view(),
            args.deep_view() == base + spec_forwarded(schema.take(i as int), custom),
        decreases n - i,
    {
        let ghost prev = args.deep_view();
        proof {
            assert(schema[i as int] == config.simulation.params@[i as int]@);
            assert(schema.take(i + 1).drop_last() =~= schema.take(i as int));
            assert(schema.take(i + 1).last() == schema[i as int]);
        }
        match lookup_param(custom_params, config.simulation.params[i].name.as_str()) {
            Some(v) => {
                let mut flag = "-D".to_owned();
                flag.append(config.simulation.params[i].name.as_str());
                flag.append("=");
                flag.append(v.as_str());
                args.push(flag);
                proof {
                    assert(args.deep_view() =~~= prev.push(
                        "-D"@ + schema[i as int].name + "="@ + v@,
                    ));
                    assert(args.deep_view() =~~= base + spec_forwarded(schema.take(i + 1), custom));
                }
            },
            None => {
                proof {
                    assert(args.deep_view() =~~= base + spec_forwarded(schema.take(i + 1), custom));
                }
            },
        }
        i += 1;
    }
    proof {
        assert(schema.take(n as int) =~= schema);
    }
    args
}

/// Everything decided when a run is accepted: its fresh token, the staging
/// directory's name, and the initial record's on-disk text.
pub struct RunPlan {
    pub token: String,
    pub staging_dir: String,
    pub record_text: String,
}

impl RunPlan {
    /// The plan for one accepted run. The token is freshly drawn, so two
    /// plans rarely collide; the staging name marks the run as in flight;
    /// the record text is the initial record, running with the mapping the
    /// caller's parameters denote (a repeated name keeps its last value, as
    /// a map would).
    pub fn new(param: &RunTestParam) -> (r: RunPlan)
        ensures
            r.token@.len() == 36,
            r.staging_dir@ == spec_staging_dir_name(r.token@),
            r.record_text@ == enc_record(
                spec_initial_record(spec_normalize(param.custom_params.deep_view())),
            ),
            params_wf(spec_normalize(param.custom_params.deep_view())),
    {
        let token = uuid_hyphenated();
        let staging_dir = staging_dir_name(token.as_str());
        let record = initial_record(normalize_params(&param.custom_params));
        let record_text = record.to_json();
        RunPlan { token, staging_dir, record_text }
    }
}

/// A copy of a parameter list, value for value.
pub fn clone_params(ps: &Vec<Param>) -> (r: Vec<Param>)
    ensures
        r.deep_view() == ps.deep_view(),
{
    let mut out: Vec<Param> = Vec::new();
    let n = ps.len();
    let mut i: usize = 0;
    proof {
        assert(out.deep_view() =~= ps.deep_view().take(0));
    }
    while i < n
        invariant
            0 <= i <= n,
            n == ps.len(),
            out.deep_view() == ps.deep_view().take(i as int),
        decreases n - i,
    {
        let ghost prev = out.deep_view();
        let p = Param { name: ps[i].name.clone(), value: ps[i].value.clone() };
        out.push(p);
        proof {
            assert(ps.deep_view()[i as int] == ps@[i as int]@);
            assert(out.deep_view() =~~= prev.push(ps@[i as int]@));
            assert(out.deep_view() =~~= ps.deep_view().take(i + 1));
        }
        i += 1;
    }
    proof {
        assert(ps.deep_view().take(n as int) =~= ps.deep_view());
    }
    out
}

} // verus!
