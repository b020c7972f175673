//! The values exchanged between the core and its callers: one row of the
//! run listing, the request bodies of the outward-facing operations, and the
//! application's shared state.

use vstd::prelude::*;
use crate::config::AppConfig;
use crate::config::Param;
use crate::config::ParamV;
use crate::report::TestrunData;
use crate::report::TestrunDataV;
use crate::report::TestrunVisibilityStatus;
use crate::text::str_eq;

verus! {

/// One row of the run listing: the run's directory name, when it was
/// created, its best-effort progress while still executing, and its record.
#[derive(Debug, Clone)]
pub struct Testrun {
    pub creation_date: String,
    pub name: String,
    pub progress: Option<u64>,
    pub data: Option<TestrunData>,
}

#[verifier::ext_equal]
pub struct TestrunV {
    pub creation_date: Seq<char>,
    pub name: Seq<char>,
    pub progress: Option<u64>,
    pub data: Option<TestrunDataV>,
}

impl View for Testrun {
    type V = TestrunV;

    open spec fn view(&self) -> TestrunV {
        TestrunV {
            creation_date: self.creation_date@,
            name: self.name@,
            progress: self.progress,
            data: match self.data {
                Some(ref d) => Some(d.deep_view()),
                None => None,
            },
        }
    }
}

impl DeepView for Testrun {
    type V = TestrunV;

    open spec fn deep_view(&self) -> TestrunV {
        self.view()
    }
}

/// A named test suite.
#[derive(Debug, Clone)]
pub struct Testsuite {
    pub name: String,
}

/// What a caller supplies to start a run: a free-form description and the
/// parameters to launch with.
#[derive(Debug, Clone)]
pub struct RunTestParam {
    pub description: String,
    pub custom_params: Vec<Param>,
}

/// A requested change to a run's record; only the visibility can change.
#[derive(Debug, Clone)]
pub struct UpdateTestrunData {
    pub visibility_status: Option<TestrunVisibilityStatus>,
}

/// An uploaded test-suite archive: its name, its declared media type, and
/// its raw bytes.
#[derive(Debug, Clone)]
pub struct UploadTestsuite {
    pub file_name: String,
    pub mime_type: String,
    pub data: Vec<u8>,
}

/// Whether an uploaded archive's declared media type is one this system
/// unpacks.
pub fn archive_mime_ok(mime: &str) -> (r: bool)
    ensures
        r == (mime@ == "application/gzip"@ || mime@ == "application/x-gzip"@),
{
    str_eq(mime, "application/gzip") || str_eq(mime, "application/x-gzip")
}

/// Overall health of the system's external prerequisites.
#[derive(Debug, Clone, PartialEq, Eq, Structural)]
pub enum SystemStatus {
    Healthy,
    Unhealthy,
}

/// What a health probe reports.
#[derive(Debug, Clone)]
pub struct SystemStatusResponse {
    pub overall: SystemStatus,
    pub maven_output: Option<String>,
    pub java_version: Option<String>,
}

/// The application's shared state: where suites live, where permanent run
/// directories live, and the tool schema.
#[derive(Debug, Clone)]
pub struct AppState {
    pub data_dir: String,
    pub result_dir: String,
    pub app_config: AppConfig,
}

/// Replaces only the record's visibility; every other field keeps its
/// value.
pub fn set_visibility(data: &mut TestrunData, v: TestrunVisibilityStatus)
    ensures
        final(data)@ == (TestrunDataV { visibility_status: v, ..old(data)@ }),
{
    data.visibility_status = v;
    proof {
        assert(data@ =~~= (TestrunDataV { visibility_status: v, ..old(data)@ }));
    }
}

} // verus!
