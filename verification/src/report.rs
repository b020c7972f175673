//! The records this system persists and serves: per-run status records and
//! the aggregated report derived from one run's event log, together with the
//! mathematical views that the contracts speak of.

use vstd::prelude::*;
use crate::config::Param;
use crate::config::ParamV;

verus! {

/// Lifecycle state of a run. It only ever moves forward, from `Unknown` or
/// `Running` to `Done`.
#[derive(Debug, Clone, PartialEq, Eq, Structural)]
pub enum TestrunStatus {
    Unknown,
    Running,
    Done,
}

impl Default for TestrunStatus {
    fn default() -> (r: Self)
        ensures
            r == TestrunStatus::Unknown,
    {
        TestrunStatus::Unknown
    }
}

/// Whether a run appears in listings. Purely cosmetic; no run semantics
/// depend on it.
#[derive(Debug, Clone, PartialEq, Eq, Structural)]
pub enum TestrunVisibilityStatus {
    Visible,
    Hidden,
}

impl Default for TestrunVisibilityStatus {
    fn default() -> (r: Self)
        ensures
            r == TestrunVisibilityStatus::Visible,
    {
        TestrunVisibilityStatus::Visible
    }
}

/// One error token observed for a request, with how often it was seen.
#[derive(Debug, Clone, PartialEq, Eq)]
pub struct RequestErrorStats {
    pub name: String,
    pub count: u64,
}

#[verifier::ext_equal]
pub struct RequestErrorStatsV {
    pub name: Seq<char>,
    pub count: u64,
}

impl View for RequestErrorStats {
    type V = RequestErrorStatsV;

    open spec fn view(&self) -> RequestErrorStatsV {
        RequestErrorStatsV { name: self.name@, count: self.count }
    }
}

impl DeepView for RequestErrorStats {
    type V = RequestErrorStatsV;

    open spec fn deep_view(&self) -> RequestErrorStatsV {
        self.view()
    }
}

/// Latency statistics for one request name.
#[derive(Debug, Clone, PartialEq, Eq)]
pub struct RequestStats {
    pub name: String,
    pub avg: u64,
    pub max: u64,
    pub min: u64,
    pub p95: u64,
    pub count: u64,
    pub errors: Vec<RequestErrorStats>,
}

#[verifier::ext_equal]
pub struct RequestStatsV {
    pub name: Seq<char>,
    pub avg: u64,
    pub max: u64,
    pub min: u64,
    pub p95: u64,
    pub count: u64,
    pub errors: Seq<RequestErrorStatsV>,
}

impl View for RequestStats {
    type V = RequestStatsV;

    open spec fn view(&self) -> RequestStatsV {
        RequestStatsV {
            name: self.name@,
            avg: self.avg,
            max: self.max,
            min: self.min,
            p95: self.p95,
            count: self.count,
            errors: self.errors.deep_view(),
        }
    }
}

impl DeepView for RequestStats {
    type V = RequestStatsV;

    open spec fn deep_view(&self) -> RequestStatsV {
        self.view()
    }
}

/// Start events counted for one journey name.
#[derive(Debug, Clone, PartialEq, Eq)]
pub struct UserStats {
    pub name: String,
    pub count: u64,
}

#[verifier::ext_equal]
pub struct UserStatsV {
    pub name: Seq<char>,
    pub count: u64,
}

impl View for UserStats {
    type V = UserStatsV;

    open spec fn view(&self) -> UserStatsV {
        UserStatsV { name: self.name@, count: self.count }
    }
}

impl DeepView for UserStats {
    type V = UserStatsV;

    open spec fn deep_view(&self) -> UserStatsV {
        self.view()
    }
}

/// The aggregate derived from one run's event log.
#[derive(Debug, Clone, PartialEq, Eq)]
pub struct GatlingReport {
    pub name: String,
    pub version: String,
    pub requests_ok: u64,
    pub requests_nok: u64,
    pub request_stats: Vec<RequestStats>,
    pub user_stats: Vec<UserStats>,
}

#[verifier::ext_equal]
pub struct GatlingReportV {
    pub name: Seq<char>,
    pub version: Seq<char>,
    pub requests_ok: u64,
    pub requests_nok: u64,
    pub request_stats: Seq<RequestStatsV>,
    pub user_stats: Seq<UserStatsV>,
}

impl View for GatlingReport {
    type V = GatlingReportV;

    open spec fn view(&self) -> GatlingReportV {
        GatlingReportV {
            name: self.name@,
            version: self.version@,
            requests_ok: self.requests_ok,
            requests_nok: self.requests_nok,
            request_stats: self.request_stats.deep_view(),
            user_stats: self.user_stats.deep_view(),
        }
    }
}

impl DeepView for GatlingReport {
    type V = GatlingReportV;

    open spec fn deep_view(&self) -> GatlingReportV {
        self.view()
    }
}

/// The record persisted beside each run: when its statistics became
/// available (milliseconds since the epoch; `None` while running), its
/// lifecycle status, the parameters it was launched with, the aggregated
/// statistics once done, and its listing visibility.
#[derive(Debug, Clone, PartialEq, Eq)]
pub struct TestrunData {
    pub datum: Option<i64>,
    pub status: TestrunStatus,
    pub custom_params: Vec<Param>,
    pub statistics: Option<GatlingReport>,
    pub visibility_status: TestrunVisibilityStatus,
}

#[verifier::ext_equal]
pub struct TestrunDataV {
    pub datum: Option<i64>,
    pub status: TestrunStatus,
    pub custom_params: Seq<ParamV>,
    pub statistics: Option<GatlingReportV>,
    pub visibility_status: TestrunVisibilityStatus,
}

impl View for TestrunData {
    type V = TestrunDataV;

    open spec fn view(&self) -> TestrunDataV {
        TestrunDataV {
            datum: self.datum,
            status: self.status,
            custom_params: self.custom_params.deep_view(),
            statistics: match self.statistics {
                Some(ref r) => Some(r.deep_view()),
                None => None,
            },
            visibility_status: self.visibility_status,
        }
    }
}

impl DeepView for TestrunData {
    type V = TestrunDataV;

    open spec fn deep_view(&self) -> TestrunDataV {
        self.view()
    }
}

/// A record knowing nothing about a run: the fallback when a run directory
/// carries no readable record.
impl Default for TestrunData {
    fn default() -> (r: Self)
        ensures
            r@.datum == None::<i64>,
            r@.status == TestrunStatus::Unknown,
            r@.custom_params == Seq::<ParamV>::empty(),
            r@.statistics == None::<GatlingReportV>,
            r@.visibility_status == TestrunVisibilityStatus::Visible,
    {
        let r = TestrunData {
            datum: None,
            status: TestrunStatus::Unknown,
            custom_params: Vec::new(),
            statistics: None,
            visibility_status: TestrunVisibilityStatus::Visible,
        };
        proof {
            assert(r@.custom_params =~= Seq::<ParamV>::empty());
        }
        r
    }
}

/// The invariant every record obeys on disk: statistics are present exactly
/// once the run is done.
pub open spec fn record_wf(d: TestrunDataV) -> bool {
    (d.statistics is Some) <==> d.status == TestrunStatus::Done
}

} // verus!
