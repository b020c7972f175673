//! The event-log parser: one pass over the tab-separated lines of the test
//! tool's native log, aggregating per-request latency samples, per-request
//! error counts and per-journey start counts, exactly as the events appear.

use vstd::prelude::*;
use crate::num::dec_value;
use crate::num::is_digit_seq;
use crate::num::parse_u64_str;
use crate::report::GatlingReport;
use crate::report::GatlingReportV;
use crate::report::RequestErrorStats;
use crate::report::RequestErrorStatsV;
use crate::report::RequestStats;
use crate::report::RequestStatsV;
use crate::report::UserStats;
use crate::report::UserStatsV;
use crate::stats::compute_request_stats;
use crate::stats::spec_request_stats;
use crate::text::has_substring;
use crate::text::lines_of;
use crate::text::split_lines;
use crate::text::split_on;
use crate::text::split_str;
use crate::text::str_eq;
use crate::text::contains_sub;

verus! {

/// A field of a log record, for naming what a malformed record lacks.
#[derive(Debug, Clone, Copy, PartialEq, Eq, Structural)]
pub enum LogField {
    Group,
    RequestName,
    StartMillis,
    EndMillis,
    RequestResult,
    Journey,
    JourneyStatus,
}

/// What is wrong with one log record.
#[derive(Debug, Clone, Copy, PartialEq, Eq, Structural)]
pub enum LineError {
    MissingField(LogField),
    BadNumber(LogField),
    BadTimeOrder,
}

/// Why a log failed to parse: a header with too few fields, or a malformed
/// record, identified by its zero-based line number in the log.
#[derive(Debug, Clone, Copy, PartialEq, Eq, Structural)]
pub enum ParseError {
    MalformedHeader,
    BadRecord { line: usize, error: LineError },
}

/// What one log record means.
pub enum EventV {
    Request { name: Seq<char>, duration: u64, ok: bool, result: Seq<char> },
    UserStart { journey: Seq<char> },
    Other,
}

/// The meaning of one record line. Fields are read left to right and the
/// first problem is reported: for a `REQUEST` record the group field, the
/// request name, the two timestamps (each must be a decimal fitting a
/// machine word, and the end must not precede the start), then the result
/// token; for a `USER` record the journey name and its status token, where
/// only `START` counts and any other token is ignored. Records under any
/// other tag are ignored.
pub open spec fn classify_line(line: Seq<char>) -> Result<EventV, LineError> {
    let f = split_on(line, '\t');
    if f[0] == "REQUEST"@ {
        if f.len() < 2 {
            Err(LineError::MissingField(LogField::Group))
        } else if f.len() < 3 {
            Err(LineError::MissingField(LogField::RequestName))
        } else if f.len() < 4 {
            Err(LineError::MissingField(LogField::StartMillis))
        } else if !(is_digit_seq(f[3]) && dec_value(f[3]) <= u64::MAX as int) {
            Err(LineError::BadNumber(LogField::StartMillis))
        } else if f.len() < 5 {
            Err(LineError::MissingField(LogField::EndMillis))
        } else if !(is_digit_seq(f[4]) && dec_value(f[4]) <= u64::MAX as int) {
            Err(LineError::BadNumber(LogField::EndMillis))
        } else if dec_value(f[4]) < dec_value(f[3]) {
            Err(LineError::BadTimeOrder)
        } else if f.len() < 6 {
            Err(LineError::MissingField(LogField::RequestResult))
        } else {
            Ok(
                EventV::Request {
                    name: f[2],
                    duration: (dec_value(f[4]) - dec_value(f[3])) as u64,
                    ok: f[5] == "OK"@,
                    result: f[5],
                },
            )
        }
    } else if f[0] == "USER"@ {
        if f.len() < 2 {
            Err(LineError::MissingField(LogField::Journey))
        } else if f.len() < 3 {
            Err(LineError::MissingField(LogField::JourneyStatus))
        } else if f[2] == "START"@ {
            Ok(EventV::UserStart { journey: f[1] })
        } else {
            Ok(EventV::Other)
        }
    } else {
        Ok(EventV::Other)
    }
}

/// What one log record means, carrying the owned field values.
pub enum Event {
    Request { name: String, duration: u64, ok: bool, result: String },
    UserStart { journey: String },
    Other,
}

impl View for Event {
    type V = EventV;

    open spec fn view(&self) -> EventV {
        match self {
            Event::Request { name, duration, ok, result } => EventV::Request {
                name: name@,
                duration: *duration,
                ok: *ok,
                result: result@,
            },
            Event::UserStart { journey } => EventV::UserStart { journey: journey@ },
            Event::Other => EventV::Other,
        }
    }
}

/// Reads one record line, matching `classify_line` on the view.
pub fn classify_exec(line: &str) -> (r: Result<Event, LineError>)
    ensures
        match r {
            Ok(ev) => classify_line(line@) == Ok::<EventV, LineError>(ev@),
            Err(e) => classify_line(line@) == Err::<EventV, LineError>(e),
        },
{
    let fields = split_str(line, '\t');
    let ghost f = split_on(line@, '\t');
    proof {
        crate::text::lemma_split_on_len(line@, '\t');
        assert(fields.deep_view() == f);
        assert(forall|k: int| 0 <= k < fields@.len() ==> #[trigger] fields@[k]@ == f[k]);
    }
    if str_eq(fields[0].as_str(), "REQUEST") {
        if fields.len() < 2 {
            return Err(LineError::MissingField(LogField::Group));
        }
        if fields.len() < 3 {
            return Err(LineError::MissingField(LogField::RequestName));
        }
        if fields.len() < 4 {
            return Err(LineError::MissingField(LogField::StartMillis));
        }
        proof {
            crate::num::lemma_dec_value_nonneg(f[3]);
        }
        let start = match parse_u64_str(fields[3].as_str()) {
            Some(v) => v,
            None => {
                return Err(LineError::BadNumber(LogField::StartMillis));
            },
        };
        if fields.len() < 5 {
            return Err(LineError::MissingField(LogField::EndMillis));
        }
        proof {
            crate::num::lemma_dec_value_nonneg(f[4]);
        }
        let end = match parse_u64_str(fields[4].as_str()) {
            Some(v) => v,
            None => {
                return Err(LineError::BadNumber(LogField::EndMillis));
            },
        };
        if end < start {
            return Err(LineError::BadTimeOrder);
        }
        if fields.len() < 6 {
            return Err(LineError::MissingField(LogField::RequestResult));
        }
        let ok = str_eq(fields[5].as_str(), "OK");
        let name = fields[2].clone();
        let result = fields[5].clone();
        Ok(Event::Request { name, duration: end - start, ok, result })
    } else if str_eq(fields[0].as_str(), "USER") {
        if fields.len() < 2 {
            return Err(LineError::MissingField(LogField::Journey));
        }
        if fields.len() < 3 {
            return Err(LineError::MissingField(LogField::JourneyStatus));
        }
        if str_eq(fields[2].as_str(), "START") {
            let journey = fields[1].clone();
            Ok(Event::UserStart { journey })
        } else {
            Ok(Event::Other)
        }
    } else {
        Ok(Event::Other)
    }
}

/// Per-request state during the single pass: the samples and error counts
/// seen so far, in order of first appearance.
#[verifier::ext_equal]
pub struct ReqAccV {
    pub name: Seq<char>,
    pub samples: Seq<u64>,
    pub errors: Seq<RequestErrorStatsV>,
}

/// The whole accumulated state after some prefix of the log.
#[verifier::ext_equal]
pub struct AccV {
    pub ok: u64,
    pub nok: u64,
    pub reqs: Seq<ReqAccV>,
    pub users: Seq<UserStatsV>,
}

pub open spec fn find_req_from(reqs: Seq<ReqAccV>, name: Seq<char>, i: int) -> Option<int>
    decreases reqs.len() - i,
{
    if i < 0 || i >= reqs.len() {
        None
    } else if reqs[i].name == name {
        Some(i)
    } else {
        find_req_from(reqs, name, i + 1)
    }
}

pub open spec fn find_err_from(errs: Seq<RequestErrorStatsV>, name: Seq<char>, i: int) -> Option<
    int,
>
    decreases errs.len() - i,
{
    if i < 0 || i >= errs.len() {
        None
    } else if errs[i].name == name {
        Some(i)
    } else {
        find_err_from(errs, name, i + 1)
    }
}

pub open spec fn find_user_from(users: Seq<UserStatsV>, name: Seq<char>, i: int) -> Option<int>
    decreases users.len() - i,
{
    if i < 0 || i >= users.len() {
        None
    } else if users[i].name == name {
        Some(i)
    } else {
        find_user_from(users, name, i + 1)
    }
}

/// One more occurrence of the error token `result`: bump its count, or add
/// it with count one on first sight.
pub open spec fn upd_errors(errs: Seq<RequestErrorStatsV>, result: Seq<char>) -> Seq<
    RequestErrorStatsV,
> {
    match find_err_from(errs, result, 0) {
        None => errs.push(RequestErrorStatsV { name: result, count: 1 }),
        Some(k) => errs.update(
            k,
            RequestErrorStatsV { name: errs[k].name, count: (errs[k].count + 1) as u64 },
        ),
    }
}

/// One more request event for `name`: its duration joins that name's
/// samples whatever the result, and a non-`OK` result is counted as an
/// error.
pub open spec fn upd_reqs(
    reqs: Seq<ReqAccV>,
    name: Seq<char>,
    duration: u64,
    ok: bool,
    result: Seq<char>,
) -> Seq<ReqAccV> {
    match find_req_from(reqs, name, 0) {
        None => reqs.push(
            ReqAccV {
                name: name,
                samples: seq![duration],
                errors: if ok {
                    Seq::<RequestErrorStatsV>::empty()
                } else {
                    seq![RequestErrorStatsV { name: result, count: 1 }]
                },
            },
        ),
        Some(k) => reqs.update(
            k,
            ReqAccV {
                name: reqs[k].name,
                samples: reqs[k].samples.push(duration),
                errors: if ok {
                    reqs[k].errors
                } else {
                    upd_errors(reqs[k].errors, result)
                },
            },
        ),
    }
}

/// One more start event for `journey`.
pub open spec fn upd_users(users: Seq<UserStatsV>, journey: Seq<char>) -> Seq<UserStatsV> {
    match find_user_from(users, journey, 0) {
        None => users.push(UserStatsV { name: journey, count: 1 }),
        Some(k) => users.update(
            k,
            UserStatsV { name: users[k].name, count: (users[k].count + 1) as u64 },
        ),
    }
}

/// The accumulated state after one more record.
pub open spec fn step_acc(acc: AccV, ev: EventV) -> AccV {
    match ev {
        EventV::Request { name, duration, ok, result } => AccV {
            ok: if ok {
                (acc.ok + 1) as u64
            } else {
                acc.ok
            },
            nok: if ok {
                acc.nok
            } else {
                (acc.nok + 1) as u64
            },
            reqs: upd_reqs(acc.reqs, name, duration, ok, result),
            users: acc.users,
        },
        EventV::UserStart { journey } => AccV {
            ok: acc.ok,
            nok: acc.nok,
            reqs: acc.reqs,
            users: upd_users(acc.users, journey),
        },
        EventV::Other => acc,
    }
}

pub open spec fn empty_acc() -> AccV {
    AccV { ok: 0, nok: 0, reqs: Seq::empty(), users: Seq::empty() }
}

/// The accumulated state after the first `i` lines of the log (line zero is
/// the header and carries no events), or the first malformed record.
pub open spec fn fold_acc(lines: Seq<Seq<char>>, i: int) -> Result<AccV, ParseError>
    decreases i,
{
    if i <= 1 {
        Ok(empty_acc())
    } else {
        match fold_acc(lines, i - 1) {
            Err(e) => Err(e),
            Ok(acc) => match classify_line(lines[i - 1]) {
                Err(le) => Err(ParseError::BadRecord { line: (i - 1) as usize, error: le }),
                Ok(ev) => Ok(step_acc(acc, ev)),
            },
        }
    }
}

/// Every count in the state is covered by the `m` records folded so far.
pub open spec fn acc_bounded(acc: AccV, m: int) -> bool {
    &&& acc.ok >= 0
    &&& acc.nok >= 0
    &&& acc.ok + acc.nok <= m
    &&& forall|k: int|
        0 <= k < acc.users.len() ==> 1 <= (#[trigger] acc.users[k]).count <= m
    &&& forall|k: int|
        0 <= k < acc.reqs.len() ==> 1 <= (#[trigger] acc.reqs[k]).samples.len() <= m
    &&& forall|k: int, j: int|
        0 <= k < acc.reqs.len() && 0 <= j < acc.reqs[k].errors.len() ==> 1 <= (
        #[trigger] acc.reqs[k].errors[j]).count <= m
}

proof fn lemma_step_bounded(acc: AccV, ev: EventV, m: int)
    requires
        acc_bounded(acc, m),
        0 <= m,
        m + 1 <= u64::MAX as int,
    ensures
        acc_bounded(step_acc(acc, ev), m + 1),
{
    match ev {
        EventV::Request { name, duration, ok, result } => {
            let reqs2 = upd_reqs(acc.reqs, name, duration, ok, result);
            match find_req_from(acc.reqs, name, 0) {
                None => {
                    assert forall|k: int| 0 <= k < reqs2.len() implies 1 <= (
                    #[trigger] reqs2[k]).samples.len() <= m + 1 by {
                        if k < acc.reqs.len() {
                            assert(acc_bounded(acc, m));
                        }
                    }
                    assert forall|k: int, j: int|
                        0 <= k < reqs2.len() && 0 <= j < reqs2[k].errors.len() implies 1 <= (
                    #[trigger] reqs2[k].errors[j]).count <= m + 1 by {
                        if k < acc.reqs.len() {
                            assert(acc_bounded(acc, m));
                        }
                    }
                },
                Some(k0) => {
                    lemma_find_req_from_range(acc.reqs, name, 0);
                    assert forall|k: int| 0 <= k < reqs2.len() implies 1 <= (
                    #[trigger] reqs2[k]).samples.len() <= m + 1 by {
                        assert(acc_bounded(acc, m));
                        if k != k0 {
                            assert(reqs2[k] == acc.reqs[k]);
                        }
                    }
                    assert forall|k: int, j: int|
                        0 <= k < reqs2.len() && 0 <= j < reqs2[k].errors.len() implies 1 <= (
                    #[trigger] reqs2[k].errors[j]).count <= m + 1 by {
                        assert(acc_bounded(acc, m));
                        if k != k0 {
                            assert(reqs2[k] == acc.reqs[k]);
                        } else {
                            let errs = acc.reqs[k0].errors;
                            if !ok {
                                match find_err_from(errs, result, 0) {
                                    None => {
                                        if j < errs.len() {
                                            assert(reqs2[k].errors[j] == errs[j]);
                                        }
                                    },
                                    Some(j0) => {
                                        lemma_find_err_from_range(errs, result, 0);
                                        if j != j0 {
                                            assert(reqs2[k].errors[j] == errs[j]);
                                        }
                                    },
                                }
                            }
                        }
                    }
                },
            }
        },
        EventV::UserStart { journey } => {
            let users2 = upd_users(acc.users, journey);
            match find_user_from(acc.users, journey, 0) {
                None => {
                    assert forall|k: int| 0 <= k < users2.len() implies 1 <= (
                    #[trigger] users2[k]).count <= m + 1 by {
                        if k < acc.users.len() {
                            assert(acc_bounded(acc, m));
                        }
                    }
                },
                Some(k0) => {
                    lemma_find_user_from_range(acc.users, journey, 0);
                    assert forall|k: int| 0 <= k < users2.len() implies 1 <= (
                    #[trigger] users2[k]).count <= m + 1 by {
                        assert(acc_bounded(acc, m));
                        if k != k0 {
                            assert(users2[k] == acc.users[k]);
                        }
                    }
                },
            }
        },
        EventV::Other => {},
    }
}

proof fn lemma_find_req_from_range(reqs: Seq<ReqAccV>, name: Seq<char>, i: int)
    requires
        0 <= i,
    ensures
        match find_req_from(reqs, name, i) {
            Some(k) => i <= k < reqs.len() && reqs[k].name == name,
            None => true,
        },
    decreases reqs.len() - i,
{
    if i < reqs.len() && !(reqs[i].name == name) {
        lemma_find_req_from_range(reqs, name, i + 1);
    }
}

proof fn lemma_find_err_from_range(errs: Seq<RequestErrorStatsV>, name: Seq<char>, i: int)
    requires
        0 <= i,
    ensures
        match find_err_from(errs, name, i) {
            Some(k) => i <= k < errs.len() && errs[k].name == name,
            None => true,
        },
    decreases errs.len() - i,
{
    if i < errs.len() && !(errs[i].name == name) {
        lemma_find_err_from_range(errs, name, i + 1);
    }
}

proof fn lemma_find_user_from_range(users: Seq<UserStatsV>, name: Seq<char>, i: int)
    requires
        0 <= i,
    ensures
        match find_user_from(users, name, i) {
            Some(k) => i <= k < users.len() && users[k].name == name,
            None => true,
        },
    decreases users.len() - i,
{
    if i < users.len() && !(users[i].name == name) {
        lemma_find_user_from_range(users, name, i + 1);
    }
}

/// Counts in a well-formed fold never outrun the number of records read.
pub proof fn lemma_fold_bounded(lines: Seq<Seq<char>>, i: int)
    requires
        1 <= i,
        i - 1 <= u64::MAX as int,
    ensures
        match fold_acc(lines, i) {
            Ok(acc) => acc_bounded(acc, i - 1),
            Err(e) => true,
        },
    decreases i,
{
    if i == 1 {
    } else {
        lemma_fold_bounded(lines, i - 1);
        match fold_acc(lines, i - 1) {
            Ok(acc) => {
                match classify_line(lines[i - 1]) {
                    Ok(ev) => {
                        lemma_step_bounded(acc, ev, i - 2);
                    },
                    Err(_) => {},
                }
            },
            Err(_) => {},
        }
    }
}

/// Once a malformed record is hit, the fold stays at that error.
pub proof fn lemma_fold_err(lines: Seq<Seq<char>>, i: int, j: int)
    requires
        1 <= i <= j,
        fold_acc(lines, i) is Err,
    ensures
        fold_acc(lines, j) == fold_acc(lines, i),
    decreases j - i,
{
    if i < j {
        lemma_fold_err(lines, i, j - 1);
    }
}

/// The report read off the header fields and the final accumulated state:
/// the statistics of each request name in order of first appearance.
pub open spec fn report_of_acc(header_fields: Seq<Seq<char>>, acc: AccV) -> GatlingReportV {
    GatlingReportV {
        name: header_fields[4],
        version: header_fields[5],
        requests_ok: acc.ok,
        requests_nok: acc.nok,
        request_stats: acc.reqs.map_values(
            |r: ReqAccV| spec_request_stats(r.name, r.samples, r.errors),
        ),
        user_stats: acc.users,
    }
}

/// What parsing a whole log yields. The first line is the header whose
/// fifth and sixth tab-separated fields name the report and the tool
/// version; a header with fewer fields, or no line at all, is malformed.
/// Every further line is folded in order, and the first malformed record
/// aborts the parse.
pub open spec fn spec_parse_log(text: Seq<char>) -> Result<GatlingReportV, ParseError> {
    let lines = lines_of(text);
    if lines.len() == 0 {
        Err(ParseError::MalformedHeader)
    } else if split_on(lines[0], '\t').len() < 6 {
        Err(ParseError::MalformedHeader)
    } else {
        match fold_acc(lines, lines.len() as int) {
            Err(e) => Err(e),
            Ok(acc) => Ok(report_of_acc(split_on(lines[0], '\t'), acc)),
        }
    }
}

/// Parsing succeeds exactly when the log has a header line with at least
/// six tab-separated fields and every further line classifies without
/// error.
pub proof fn lemma_parse_succeeds_iff(text: Seq<char>)
    ensures
        spec_parse_log(text) is Ok <==> {
            let lines = lines_of(text);
            &&& lines.len() > 0
            &&& split_on(lines[0], '\t').len() >= 6
            &&& forall|i: int| 1 <= i < lines.len() ==> (classify_line(#[trigger] lines[i]) is Ok)
        },
{
    let lines = lines_of(text);
    if lines.len() > 0 && split_on(lines[0], '\t').len() >= 6 {
        lemma_fold_ok_iff(lines, lines.len() as int);
    }
}

/// The fold over the first `i` lines succeeds exactly when each of them
/// classifies without error.
proof fn lemma_fold_ok_iff(lines: Seq<Seq<char>>, i: int)
    requires
        1 <= i,
    ensures
        fold_acc(lines, i) is Ok <==> forall|k: int|
            1 <= k < i ==> (classify_line(#[trigger] lines[k]) is Ok),
    decreases i,
{
    if i > 1 {
        lemma_fold_ok_iff(lines, i - 1);
    }
}

/// How many of the first `i` lines are request records with an `OK`
/// result.
pub open spec fn spec_ok_requests(lines: Seq<Seq<char>>, i: int) -> int
    decreases i,
{
    if i <= 1 {
        0
    } else {
        spec_ok_requests(lines, i - 1) + match classify_line(lines[i - 1]) {
            Ok(ev) => match ev {
                EventV::Request { name, duration, ok, result } => if ok {
                    1int
                } else {
                    0int
                },
                _ => 0int,
            },
            Err(_) => 0int,
        }
    }
}

/// How many of the first `i` lines are request records with any other
/// result.
pub open spec fn spec_nok_requests(lines: Seq<Seq<char>>, i: int) -> int
    decreases i,
{
    if i <= 1 {
        0
    } else {
        spec_nok_requests(lines, i - 1) + match classify_line(lines[i - 1]) {
            Ok(ev) => match ev {
                EventV::Request { name, duration, ok, result } => if ok {
                    0int
                } else {
                    1int
                },
                _ => 0int,
            },
            Err(_) => 0int,
        }
    }
}

proof fn lemma_fold_counts(lines: Seq<Seq<char>>, i: int)
    requires
        1 <= i,
        i - 1 <= u64::MAX as int,
    ensures
        match fold_acc(lines, i) {
            Ok(acc) => acc.ok == spec_ok_requests(lines, i) && acc.nok == spec_nok_requests(
                lines,
                i,
            ),
            Err(_) => true,
        },
    decreases i,
{
    if i > 1 {
        lemma_fold_counts(lines, i - 1);
        lemma_fold_bounded(lines, i - 1);
    }
}

/// In a successful report, the success and failure counters are exactly
/// the numbers of `OK` and non-`OK` request records in the log.
pub proof fn lemma_report_counts(text: Seq<char>)
    requires
        spec_parse_log(text) is Ok,
        lines_of(text).len() <= u64::MAX as int + 1,
    ensures
        spec_parse_log(text)->Ok_0.requests_ok == spec_ok_requests(
            lines_of(text),
            lines_of(text).len() as int,
        ),
        spec_parse_log(text)->Ok_0.requests_nok == spec_nok_requests(
            lines_of(text),
            lines_of(text).len() as int,
        ),
{
    lemma_fold_counts(lines_of(text), lines_of(text).len() as int);
}

/// The request names of the first `i` lines' request records, in order of
/// appearance, one entry per record.
pub open spec fn spec_req_names(lines: Seq<Seq<char>>, i: int) -> Seq<Seq<char>>
    decreases i,
{
    if i <= 1 {
        Seq::empty()
    } else {
        spec_req_names(lines, i - 1) + match classify_line(lines[i - 1]) {
            Ok(ev) => match ev {
                EventV::Request { name, duration, ok, result } => seq![name],
                _ => Seq::<Seq<char>>::empty(),
            },
            Err(_) => Seq::<Seq<char>>::empty(),
        }
    }
}

/// The durations of the request records for `name` among the first `i`
/// lines, in order of appearance.
pub open spec fn spec_durations_for(lines: Seq<Seq<char>>, i: int, name: Seq<char>) -> Seq<u64>
    decreases i,
{
    if i <= 1 {
        Seq::empty()
    } else {
        spec_durations_for(lines, i - 1, name) + match classify_line(lines[i - 1]) {
            Ok(ev) => match ev {
                EventV::Request { name: n, duration, ok, result } => if n == name {
                    seq![duration]
                } else {
                    Seq::<u64>::empty()
                },
                _ => Seq::<u64>::empty(),
            },
            Err(_) => Seq::<u64>::empty(),
        }
    }
}

/// The journey names of the first `i` lines' start records, in order of
/// appearance.
pub open spec fn spec_journeys(lines: Seq<Seq<char>>, i: int) -> Seq<Seq<char>>
    decreases i,
{
    if i <= 1 {
        Seq::empty()
    } else {
        spec_journeys(lines, i - 1) + match classify_line(lines[i - 1]) {
            Ok(ev) => match ev {
                EventV::UserStart { journey } => seq![journey],
                _ => Seq::<Seq<char>>::empty(),
            },
            Err(_) => Seq::<Seq<char>>::empty(),
        }
    }
}

/// How many of the first `i` lines start an iteration of `journey`.
pub open spec fn spec_user_starts(lines: Seq<Seq<char>>, i: int, journey: Seq<char>) -> int
    decreases i,
{
    if i <= 1 {
        0
    } else {
        spec_user_starts(lines, i - 1, journey) + match classify_line(lines[i - 1]) {
            Ok(ev) => match ev {
                EventV::UserStart { journey: j } => if j == journey {
                    1int
                } else {
                    0int
                },
                _ => 0int,
            },
            Err(_) => 0int,
        }
    }
}

/// The non-`OK` result tokens of the request records for `name` among the
/// first `i` lines, in order of appearance.
pub open spec fn spec_error_tokens(lines: Seq<Seq<char>>, i: int, name: Seq<char>) -> Seq<Seq<char>>
    decreases i,
{
    if i <= 1 {
        Seq::empty()
    } else {
        spec_error_tokens(lines, i - 1, name) + match classify_line(lines[i - 1]) {
            Ok(ev) => match ev {
                EventV::Request { name: n, duration, ok, result } => if n == name && !ok {
                    seq![result]
                } else {
                    Seq::<Seq<char>>::empty()
                },
                _ => Seq::<Seq<char>>::empty(),
            },
            Err(_) => Seq::<Seq<char>>::empty(),
        }
    }
}

/// How often the request records for `name` among the first `i` lines
/// failed with exactly the token `tok`.
pub open spec fn spec_error_count(lines: Seq<Seq<char>>, i: int, name: Seq<char>, tok: Seq<char>) -> int
    decreases i,
{
    if i <= 1 {
        0
    } else {
        spec_error_count(lines, i - 1, name, tok) + match classify_line(lines[i - 1]) {
            Ok(ev) => match ev {
                EventV::Request { name: n, duration, ok, result } => if n == name && !ok && result
                    == tok {
                    1int
                } else {
                    0int
                },
                _ => 0int,
            },
            Err(_) => 0int,
        }
    }
}

/// The distinct values of `s`, each at its first appearance.
pub open spec fn dedup_first(s: Seq<Seq<char>>) -> Seq<Seq<char>>
    decreases s.len(),
{
    if s.len() == 0 {
        Seq::empty()
    } else {
        let d = dedup_first(s.drop_last());
        if s.drop_last().contains(s.last()) {
            d
        } else {
            d.push(s.last())
        }
    }
}

/// Keeping first appearances loses no value and repeats none.
pub proof fn lemma_dedup_first_props(s: Seq<Seq<char>>)
    ensures
        dedup_first(s).no_duplicates(),
        forall|x: Seq<char>| dedup_first(s).contains(x) <==> s.contains(x),
    decreases s.len(),
{
    if s.len() > 0 {
        lemma_dedup_first_props(s.drop_last());
        assert forall|x: Seq<char>| s.contains(x) implies dedup_first(s).contains(x) by {
            let d = dedup_first(s.drop_last());
            let w = choose|w: int| 0 <= w < s.len() && (#[trigger] s[w]) == x;
            if w < s.len() - 1 {
                assert(s.drop_last()[w] == x);
                assert(s.drop_last().contains(x));
                assert(d.contains(x));
                if !s.drop_last().contains(s.last()) {
                    let u = choose|u: int| 0 <= u < d.len() && (#[trigger] d[u]) == x;
                    assert(d.push(s.last())[u] == x);
                }
            } else {
                assert(s.last() == x);
                if !s.drop_last().contains(s.last()) {
                    assert(dedup_first(s)[dedup_first(s).len() - 1] == x);
                }
            }
        }
        assert forall|x: Seq<char>| dedup_first(s).contains(x) implies s.contains(x) by {
            if s.drop_last().contains(x) {
                let w = choose|w: int| 0 <= w < s.drop_last().len() && (#[trigger] s.drop_last()[w]) == x;
                assert(s[w] == x);
            }
        }
    }
}

proof fn lemma_durations_unseen(lines: Seq<Seq<char>>, i: int, name: Seq<char>)
    requires
        !spec_req_names(lines, i).contains(name),
    ensures
        spec_durations_for(lines, i, name) == Seq::<u64>::empty(),
    decreases i,
{
    if i > 1 {
        assert forall|x: Seq<char>| spec_req_names(lines, i - 1).contains(x) implies spec_req_names(
            lines,
            i,
        ).contains(x) by {
            let w = choose|w: int|
                0 <= w < spec_req_names(lines, i - 1).len() && (#[trigger] spec_req_names(lines, i - 1)[w]) == x;
            assert(spec_req_names(lines, i)[w] == x);
        }
        lemma_durations_unseen(lines, i - 1, name);
        match classify_line(lines[i - 1]) {
            Ok(ev) => match ev {
                EventV::Request { name: n, duration, ok, result } => {
                    assert(spec_req_names(lines, i).last() == n);
                    assert(spec_req_names(lines, i).contains(n));
                    assert(n != name);
                    assert(spec_durations_for(lines, i, name) =~= spec_durations_for(
                        lines,
                        i - 1,
                        name,
                    ));
                },
                _ => {
                    assert(spec_durations_for(lines, i, name) =~= spec_durations_for(
                        lines,
                        i - 1,
                        name,
                    ));
                },
            },
            Err(_) => {
                assert(spec_durations_for(lines, i, name) =~= spec_durations_for(
                    lines,
                    i - 1,
                    name,
                ));
            },
        }
    } else {
        assert(spec_durations_for(lines, i, name) =~= Seq::<u64>::empty());
    }
}

proof fn lemma_starts_unseen(lines: Seq<Seq<char>>, i: int, journey: Seq<char>)
    requires
        !spec_journeys(lines, i).contains(journey),
    ensures
        spec_user_starts(lines, i, journey) == 0,
    decreases i,
{
    if i > 1 {
        assert forall|x: Seq<char>| spec_journeys(lines, i - 1).contains(x) implies spec_journeys(
            lines,
            i,
        ).contains(x) by {
            let w = choose|w: int|
                0 <= w < spec_journeys(lines, i - 1).len() && (#[trigger] spec_journeys(lines, i - 1)[w]) == x;
            assert(spec_journeys(lines, i)[w] == x);
        }
        lemma_starts_unseen(lines, i - 1, journey);
        match classify_line(lines[i - 1]) {
            Ok(ev) => match ev {
                EventV::UserStart { journey: j } => {
                    assert(spec_journeys(lines, i).last() == j);
                    assert(spec_journeys(lines, i).contains(j));
                },
                _ => {},
            },
            Err(_) => {},
        }
    }
}

proof fn lemma_error_tokens_unseen(lines: Seq<Seq<char>>, i: int, name: Seq<char>)
    requires
        !spec_req_names(lines, i).contains(name),
    ensures
        spec_error_tokens(lines, i, name) == Seq::<Seq<char>>::empty(),
    decreases i,
{
    if i > 1 {
        assert forall|x: Seq<char>| spec_req_names(lines, i - 1).contains(x) implies spec_req_names(
            lines,
            i,
        ).contains(x) by {
            let w = choose|w: int|
                0 <= w < spec_req_names(lines, i - 1).len() && (#[trigger] spec_req_names(
                    lines,
                    i - 1,
                )[w]) == x;
            assert(spec_req_names(lines, i)[w] == x);
        }
        lemma_error_tokens_unseen(lines, i - 1, name);
        match classify_line(lines[i - 1]) {
            Ok(ev) => match ev {
                EventV::Request { name: n, duration, ok, result } => {
                    assert(spec_req_names(lines, i).last() == n);
                    assert(spec_req_names(lines, i).contains(n));
                    assert(n != name);
                    assert(spec_error_tokens(lines, i, name) =~= spec_error_tokens(
                        lines,
                        i - 1,
                        name,
                    ));
                },
                _ => {
                    assert(spec_error_tokens(lines, i, name) =~= spec_error_tokens(
                        lines,
                        i - 1,
                        name,
                    ));
                },
            },
            Err(_) => {
                assert(spec_error_tokens(lines, i, name) =~= spec_error_tokens(
                    lines,
                    i - 1,
                    name,
                ));
            },
        }
    } else {
        assert(spec_error_tokens(lines, i, name) =~= Seq::<Seq<char>>::empty());
    }
}

proof fn lemma_error_count_unseen(lines: Seq<Seq<char>>, i: int, name: Seq<char>, tok: Seq<char>)
    requires
        !spec_error_tokens(lines, i, name).contains(tok),
    ensures
        spec_error_count(lines, i, name, tok) == 0,
    decreases i,
{
    if i > 1 {
        assert forall|x: Seq<char>|
            spec_error_tokens(lines, i - 1, name).contains(x) implies spec_error_tokens(
            lines,
            i,
            name,
        ).contains(x) by {
            let w = choose|w: int|
                0 <= w < spec_error_tokens(lines, i - 1, name).len() && (#[trigger] spec_error_tokens(
                    lines,
                    i - 1,
                    name,
                )[w]) == x;
            assert(spec_error_tokens(lines, i, name)[w] == x);
        }
        lemma_error_count_unseen(lines, i - 1, name, tok);
        match classify_line(lines[i - 1]) {
            Ok(ev) => match ev {
                EventV::Request { name: n, duration, ok, result } => {
                    if n == name && !ok {
                        assert(spec_error_tokens(lines, i, name).last() == result);
                        assert(spec_error_tokens(lines, i, name).contains(result));
                        assert(result != tok);
                    }
                },
                _ => {},
            },
            Err(_) => {},
        }
    }
}

/// What the accumulated state looks like after `i` lines: one request entry
/// per distinct request name in order of first appearance, holding exactly
/// that name's durations in order and one error entry per distinct failure
/// token with its occurrence count; and one journey entry per distinct
/// journey, holding its start count.
pub open spec fn acc_shaped(lines: Seq<Seq<char>>, i: int, acc: AccV) -> bool {
    &&& acc.reqs.map_values(|r: ReqAccV| r.name) == dedup_first(spec_req_names(lines, i))
    &&& forall|k: int|
        0 <= k < acc.reqs.len() ==> (#[trigger] acc.reqs[k]).samples == spec_durations_for(
            lines,
            i,
            acc.reqs[k].name,
        )
    &&& forall|k: int|
        0 <= k < acc.reqs.len() ==> (#[trigger] acc.reqs[k]).errors.map_values(
            |x: RequestErrorStatsV| x.name,
        ) == dedup_first(spec_error_tokens(lines, i, acc.reqs[k].name))
    &&& forall|k: int, j: int|
        0 <= k < acc.reqs.len() && 0 <= j < acc.reqs[k].errors.len() ==> (
        #[trigger] acc.reqs[k].errors[j]).count == spec_error_count(
            lines,
            i,
            acc.reqs[k].name,
            acc.reqs[k].errors[j].name,
        )
    &&& acc.users.map_values(|u: UserStatsV| u.name) == dedup_first(spec_journeys(lines, i))
    &&& forall|k: int|
        0 <= k < acc.users.len() ==> (#[trigger] acc.users[k]).count == spec_user_starts(
            lines,
            i,
            acc.users[k].name,
        )
}

proof fn lemma_fold_shape(lines: Seq<Seq<char>>, i: int)
    requires
        1 <= i,
        i - 1 <= u64::MAX as int,
    ensures
        match fold_acc(lines, i) {
            Ok(acc) => acc_shaped(lines, i, acc),
            Err(_) => true,
        },
    decreases i,
{
    if i == 1 {
        match fold_acc(lines, i) {
            Ok(acc) => {
                assert(acc.reqs.map_values(|r: ReqAccV| r.name) =~= dedup_first(
                    spec_req_names(lines, i),
                ));
                assert(acc.users.map_values(|u: UserStatsV| u.name) =~= dedup_first(
                    spec_journeys(lines, i),
                ));
            },
            Err(_) => {},
        }
    } else {
        lemma_fold_shape(lines, i - 1);
        lemma_fold_bounded(lines, i - 1);
        match fold_acc(lines, i - 1) {
            Err(_) => {},
            Ok(acc) => {
                match classify_line(lines[i - 1]) {
                    Err(_) => {},
                    Ok(ev) => {
                        lemma_step_shape(lines, i, acc, ev);
                    },
                }
            },
        }
    }
}

proof fn lemma_step_shape(lines: Seq<Seq<char>>, i: int, acc: AccV, ev: EventV)
    requires
        2 <= i,
        i - 1 <= u64::MAX as int,
        classify_line(lines[i - 1]) == Ok::<EventV, LineError>(ev),
        acc_shaped(lines, i - 1, acc),
        acc_bounded(acc, i - 2),
    ensures
        acc_shaped(lines, i, step_acc(acc, ev)),
{
    let next = step_acc(acc, ev);
    let names0 = spec_req_names(lines, i - 1);
    let names1 = spec_req_names(lines, i);
    let journeys0 = spec_journeys(lines, i - 1);
    let journeys1 = spec_journeys(lines, i);
    lemma_dedup_first_props(names0);
    lemma_dedup_first_props(journeys0);
    match ev {
        EventV::Request { name, duration, ok, result } => {
            assert(names1 =~= names0.push(name));
            assert(names1.drop_last() =~= names0);
            assert(journeys1 =~= journeys0);
            assert(forall|j: Seq<char>| #[trigger]
                spec_user_starts(lines, i, j) == spec_user_starts(lines, i - 1, j));
            assert forall|nm: Seq<char>| nm != name implies #[trigger] spec_durations_for(
                lines,
                i,
                nm,
            ) == spec_durations_for(lines, i - 1, nm) by {
                assert(spec_durations_for(lines, i, nm) =~= spec_durations_for(lines, i - 1, nm));
            }
            assert(spec_durations_for(lines, i, name) =~= spec_durations_for(
                lines,
                i - 1,
                name,
            ).push(duration));
            assert forall|nm: Seq<char>| nm != name implies #[trigger] spec_error_tokens(
                lines,
                i,
                nm,
            ) == spec_error_tokens(lines, i - 1, nm) by {
                assert(spec_error_tokens(lines, i, nm) =~= spec_error_tokens(lines, i - 1, nm));
            }
            assert(forall|nm: Seq<char>, tok: Seq<char>|
                nm != name ==> #[trigger] spec_error_count(lines, i, nm, tok) == spec_error_count(
                    lines,
                    i - 1,
                    nm,
                    tok,
                ));
            if ok {
                assert(spec_error_tokens(lines, i, name) =~= spec_error_tokens(
                    lines,
                    i - 1,
                    name,
                ));
                assert(forall|tok: Seq<char>| #[trigger]
                    spec_error_count(lines, i, name, tok) == spec_error_count(
                        lines,
                        i - 1,
                        name,
                        tok,
                    ));
            } else {
                assert(spec_error_tokens(lines, i, name) =~= spec_error_tokens(
                    lines,
                    i - 1,
                    name,
                ).push(result));
                assert(forall|tok: Seq<char>|
                    tok != result ==> #[trigger] spec_error_count(lines, i, name, tok)
                        == spec_error_count(lines, i - 1, name, tok));
                assert(spec_error_count(lines, i, name, result) == spec_error_count(
                    lines,
                    i - 1,
                    name,
                    result,
                ) + 1);
            }
            lemma_dedup_first_props(spec_error_tokens(lines, i - 1, name));
            let old_names = acc.reqs.map_values(|r: ReqAccV| r.name);
            match find_req_from(acc.reqs, name, 0) {
                None => {
                    lemma_find_req_none(acc.reqs, name, 0);
                    assert(!old_names.contains(name)) by {
                        if old_names.contains(name) {
                            let w = choose|w: int|
                                0 <= w < old_names.len() && (#[trigger] old_names[w]) == name;
                            assert(acc.reqs[w].name == name);
                        }
                    }
                    assert(!names0.contains(name));
                    lemma_durations_unseen(lines, i - 1, name);
                    lemma_error_tokens_unseen(lines, i - 1, name);
                    assert(dedup_first(names1) =~= dedup_first(names0).push(name));
                    assert(next.reqs.map_values(|r: ReqAccV| r.name) =~= old_names.push(name));
                    assert(next.reqs.last().samples =~= spec_durations_for(lines, i, name));
                    assert forall|k: int| 0 <= k < next.reqs.len() implies (
                    #[trigger] next.reqs[k]).errors.map_values(|x: RequestErrorStatsV| x.name)
                        == dedup_first(spec_error_tokens(lines, i, next.reqs[k].name)) by {
                        if k < acc.reqs.len() {
                            assert(next.reqs[k] == acc.reqs[k]);
                            assert(old_names[k] == acc.reqs[k].name);
                            assert(acc.reqs[k].name != name);
                        } else {
                            assert(next.reqs[k] == next.reqs.last());
                            if ok {
                                assert(spec_error_tokens(lines, i, name) =~= Seq::<
                                    Seq<char>,
                                >::empty());
                                assert(next.reqs[k].errors.map_values(
                                    |x: RequestErrorStatsV| x.name,
                                ) =~= dedup_first(spec_error_tokens(lines, i, name)));
                            } else {
                                assert(spec_error_tokens(lines, i, name) =~= Seq::<
                                    Seq<char>,
                                >::empty().push(result));
                                assert(spec_error_tokens(lines, i, name).drop_last() =~= Seq::<
                                    Seq<char>,
                                >::empty());
                                assert(dedup_first(spec_error_tokens(lines, i, name)) =~= Seq::<
                                    Seq<char>,
                                >::empty().push(result));
                                assert(next.reqs[k].errors.map_values(
                                    |x: RequestErrorStatsV| x.name,
                                ) =~= Seq::<Seq<char>>::empty().push(result));
                            }
                        }
                    }
                    assert forall|k: int, j: int|
                        0 <= k < next.reqs.len() && 0 <= j < next.reqs[k].errors.len() implies (
                    #[trigger] next.reqs[k].errors[j]).count == spec_error_count(
                        lines,
                        i,
                        next.reqs[k].name,
                        next.reqs[k].errors[j].name,
                    ) by {
                        if k < acc.reqs.len() {
                            assert(next.reqs[k] == acc.reqs[k]);
                            assert(old_names[k] == acc.reqs[k].name);
                            assert(acc.reqs[k].name != name);
                            assert(acc.reqs[k].errors[j].count == spec_error_count(
                                lines,
                                i - 1,
                                acc.reqs[k].name,
                                acc.reqs[k].errors[j].name,
                            ));
                        } else {
                            assert(next.reqs[k] == next.reqs.last());
                            assert(!ok);
                            assert(j == 0);
                            assert(next.reqs[k].errors[0].name == result);
                            lemma_error_count_unseen(lines, i - 1, name, result);
                            assert(spec_error_count(lines, i, name, result) == 1);
                        }
                    }
                },
                Some(k0) => {
                    lemma_find_req_from_range(acc.reqs, name, 0);
                    assert(old_names[k0] == name);
                    assert(old_names.contains(name));
                    assert(names0.contains(name));
                    assert(dedup_first(names1) =~= dedup_first(names0));
                    assert(next.reqs.map_values(|r: ReqAccV| r.name) =~= old_names);
                    assert forall|k: int| 0 <= k < next.reqs.len() implies (
                    #[trigger] next.reqs[k]).samples == spec_durations_for(
                        lines,
                        i,
                        next.reqs[k].name,
                    ) by {
                        if k == k0 {
                            assert(next.reqs[k].samples =~= spec_durations_for(lines, i, name));
                        } else {
                            assert(next.reqs[k] == acc.reqs[k]);
                            assert(dedup_first(names0).no_duplicates());
                            assert(old_names[k] != old_names[k0]);
                            assert(acc.reqs[k].name != name);
                        }
                    }
                    let errs = acc.reqs[k0].errors;
                    let toks0 = spec_error_tokens(lines, i - 1, name);
                    assert(errs.map_values(|x: RequestErrorStatsV| x.name) == dedup_first(toks0));
                    if !ok {
                        match find_err_from(errs, result, 0) {
                            None => {
                                lemma_find_err_none(errs, result, 0);
                                assert(!errs.map_values(|x: RequestErrorStatsV| x.name).contains(
                                    result,
                                )) by {
                                    let em = errs.map_values(|x: RequestErrorStatsV| x.name);
                                    if em.contains(result) {
                                        let w = choose|w: int|
                                            0 <= w < em.len() && (#[trigger] em[w]) == result;
                                        assert(errs[w].name == result);
                                    }
                                }
                                assert(!toks0.contains(result));
                                lemma_error_count_unseen(lines, i - 1, name, result);
                                assert(spec_error_tokens(lines, i, name).drop_last() =~= toks0);
                                assert(dedup_first(spec_error_tokens(lines, i, name))
                                    =~= dedup_first(toks0).push(result));
                            },
                            Some(j0) => {
                                lemma_find_err_from_range(errs, result, 0);
                                assert(errs[j0].name == result);
                                assert(errs.map_values(|x: RequestErrorStatsV| x.name)[j0]
                                    == result);
                                assert(errs.map_values(|x: RequestErrorStatsV| x.name).contains(
                                    result,
                                ));
                                assert(toks0.contains(result));
                                assert(spec_error_tokens(lines, i, name).drop_last() =~= toks0);
                                assert(dedup_first(spec_error_tokens(lines, i, name))
                                    =~= dedup_first(toks0));
                            },
                        }
                    }
                    assert forall|k: int| 0 <= k < next.reqs.len() implies (
                    #[trigger] next.reqs[k]).errors.map_values(|x: RequestErrorStatsV| x.name)
                        == dedup_first(spec_error_tokens(lines, i, next.reqs[k].name)) by {
                        if k == k0 {
                            if ok {
                                assert(next.reqs[k].errors == errs);
                            } else {
                                match find_err_from(errs, result, 0) {
                                    None => {
                                        assert(next.reqs[k].errors.map_values(
                                            |x: RequestErrorStatsV| x.name,
                                        ) =~= errs.map_values(|x: RequestErrorStatsV| x.name).push(
                                            result,
                                        ));
                                    },
                                    Some(j0) => {
                                        assert(next.reqs[k].errors.map_values(
                                            |x: RequestErrorStatsV| x.name,
                                        ) =~= errs.map_values(|x: RequestErrorStatsV| x.name));
                                    },
                                }
                            }
                        } else {
                            assert(next.reqs[k] == acc.reqs[k]);
                            assert(dedup_first(names0).no_duplicates());
                            assert(old_names[k] != old_names[k0]);
                            assert(acc.reqs[k].name != name);
                        }
                    }
                    assert forall|k: int, j: int|
                        0 <= k < next.reqs.len() && 0 <= j < next.reqs[k].errors.len() implies (
                    #[trigger] next.reqs[k].errors[j]).count == spec_error_count(
                        lines,
                        i,
                        next.reqs[k].name,
                        next.reqs[k].errors[j].name,
                    ) by {
                        if k == k0 {
                            if ok {
                                assert(next.reqs[k].errors == errs);
                                assert(errs[j].count == spec_error_count(
                                    lines,
                                    i - 1,
                                    name,
                                    errs[j].name,
                                ));
                            } else {
                                lemma_dedup_first_props(toks0);
                                match find_err_from(errs, result, 0) {
                                    None => {
                                        if j < errs.len() {
                                            assert(next.reqs[k].errors[j] == errs[j]);
                                            assert(errs[j].name != result);
                                            assert(errs[j].count == spec_error_count(
                                                lines,
                                                i - 1,
                                                name,
                                                errs[j].name,
                                            ));
                                        } else {
                                            assert(next.reqs[k].errors[j].name == result);
                                            assert(next.reqs[k].errors[j].count == 1);
                                            assert(spec_error_count(lines, i, name, result) == 1);
                                        }
                                    },
                                    Some(j0) => {
                                        let em = errs.map_values(
                                            |x: RequestErrorStatsV| x.name,
                                        );
                                        assert(em.no_duplicates());
                                        if j == j0 {
                                            assert(next.reqs[k].errors[j].name == result);
                                            assert(errs[j0].count == spec_error_count(
                                                lines,
                                                i - 1,
                                                name,
                                                result,
                                            ));
                                        } else {
                                            assert(next.reqs[k].errors[j] == errs[j]);
                                            assert(em[j] != em[j0]);
                                            assert(errs[j].name != result);
                                            assert(errs[j].count == spec_error_count(
                                                lines,
                                                i - 1,
                                                name,
                                                errs[j].name,
                                            ));
                                        }
                                    },
                                }
                            }
                        } else {
                            assert(next.reqs[k] == acc.reqs[k]);
                            assert(dedup_first(names0).no_duplicates());
                            assert(old_names[k] != old_names[k0]);
                            assert(acc.reqs[k].name != name);
                            assert(acc.reqs[k].errors[j].count == spec_error_count(
                                lines,
                                i - 1,
                                acc.reqs[k].name,
                                acc.reqs[k].errors[j].name,
                            ));
                        }
                    }
                },
            }
        },
        EventV::UserStart { journey } => {
            assert(journeys1 =~= journeys0.push(journey));
            assert(journeys1.drop_last() =~= journeys0);
            assert(names1 =~= names0);
            assert forall|nm: Seq<char>| #[trigger] spec_durations_for(lines, i, nm)
                == spec_durations_for(lines, i - 1, nm) by {
                assert(spec_durations_for(lines, i, nm) =~= spec_durations_for(lines, i - 1, nm));
            }
            assert forall|nm: Seq<char>| #[trigger] spec_error_tokens(lines, i, nm)
                == spec_error_tokens(lines, i - 1, nm) by {
                assert(spec_error_tokens(lines, i, nm) =~= spec_error_tokens(lines, i - 1, nm));
            }
            assert(forall|nm: Seq<char>, tok: Seq<char>| #[trigger]
                spec_error_count(lines, i, nm, tok) == spec_error_count(lines, i - 1, nm, tok));
            assert(forall|j: Seq<char>|
                j != journey ==> #[trigger] spec_user_starts(lines, i, j) == spec_user_starts(
                    lines,
                    i - 1,
                    j,
                ));
            assert(spec_user_starts(lines, i, journey) == spec_user_starts(lines, i - 1, journey)
                + 1);
            let old_names = acc.users.map_values(|u: UserStatsV| u.name);
            match find_user_from(acc.users, journey, 0) {
                None => {
                    lemma_find_user_none(acc.users, journey, 0);
                    assert(!old_names.contains(journey)) by {
                        if old_names.contains(journey) {
                            let w = choose|w: int|
                                0 <= w < old_names.len() && (#[trigger] old_names[w]) == journey;
                            assert(acc.users[w].name == journey);
                        }
                    }
                    assert(!journeys0.contains(journey));
                    lemma_starts_unseen(lines, i - 1, journey);
                    assert(dedup_first(journeys1) =~= dedup_first(journeys0).push(journey));
                    assert(next.users.map_values(|u: UserStatsV| u.name) =~= old_names.push(
                        journey,
                    ));
                },
                Some(k0) => {
                    lemma_find_user_from_range(acc.users, journey, 0);
                    assert(old_names[k0] == journey);
                    assert(old_names.contains(journey));
                    assert(journeys0.contains(journey));
                    assert(dedup_first(journeys1) =~= dedup_first(journeys0));
                    assert(next.users.map_values(|u: UserStatsV| u.name) =~= old_names);
                    assert forall|k: int| 0 <= k < next.users.len() implies (
                    #[trigger] next.users[k]).count == spec_user_starts(
                        lines,
                        i,
                        next.users[k].name,
                    ) by {
                        if k == k0 {
                        } else {
                            assert(next.users[k] == acc.users[k]);
                            assert(dedup_first(journeys0).no_duplicates());
                            assert(old_names[k] != old_names[k0]);
                            assert(acc.users[k].name != journey);
                        }
                    }
                },
            }
        },
        EventV::Other => {
            assert(names1 =~= names0);
            assert(journeys1 =~= journeys0);
            assert forall|nm: Seq<char>| #[trigger] spec_error_tokens(lines, i, nm)
                == spec_error_tokens(lines, i - 1, nm) by {
                assert(spec_error_tokens(lines, i, nm) =~= spec_error_tokens(lines, i - 1, nm));
            }
            assert(forall|nm: Seq<char>, tok: Seq<char>| #[trigger]
                spec_error_count(lines, i, nm, tok) == spec_error_count(lines, i - 1, nm, tok));
            assert forall|nm: Seq<char>| #[trigger] spec_durations_for(lines, i, nm)
                == spec_durations_for(lines, i - 1, nm) by {
                assert(spec_durations_for(lines, i, nm) =~= spec_durations_for(lines, i - 1, nm));
            }
            assert(forall|j: Seq<char>| #[trigger]
                spec_user_starts(lines, i, j) == spec_user_starts(lines, i - 1, j));
        },
    }
}

proof fn lemma_find_req_none(reqs: Seq<ReqAccV>, name: Seq<char>, i: int)
    requires
        0 <= i,
        find_req_from(reqs, name, i) is None,
    ensures
        forall|k: int| i <= k < reqs.len() ==> (#[trigger] reqs[k]).name != name,
    decreases reqs.len() - i,
{
    if i < reqs.len() {
        lemma_find_req_none(reqs, name, i + 1);
    }
}

proof fn lemma_find_err_none(errs: Seq<RequestErrorStatsV>, name: Seq<char>, i: int)
    requires
        0 <= i,
        find_err_from(errs, name, i) is None,
    ensures
        forall|k: int| i <= k < errs.len() ==> (#[trigger] errs[k]).name != name,
    decreases errs.len() - i,
{
    if i < errs.len() {
        lemma_find_err_none(errs, name, i + 1);
    }
}

proof fn lemma_find_user_none(users: Seq<UserStatsV>, name: Seq<char>, i: int)
    requires
        0 <= i,
        find_user_from(users, name, i) is None,
    ensures
        forall|k: int| i <= k < users.len() ==> (#[trigger] users[k]).name != name,
    decreases users.len() - i,
{
    if i < users.len() {
        lemma_find_user_none(users, name, i + 1);
    }
}

/// In a successful report there is one statistics entry per distinct
/// request name, in order of first appearance, computed exactly from that
/// name's durations in order of appearance; and one journey entry per
/// distinct journey, in order of first appearance, counting its starts.
pub proof fn lemma_report_structure(text: Seq<char>)
    requires
        spec_parse_log(text) is Ok,
        lines_of(text).len() <= u64::MAX as int + 1,
    ensures
        ({
            let lines = lines_of(text);
            let n = lines.len() as int;
            let rep = spec_parse_log(text)->Ok_0;
            &&& rep.request_stats.map_values(|r: RequestStatsV| r.name) == dedup_first(
                spec_req_names(lines, n),
            )
            &&& forall|k: int|
                0 <= k < rep.request_stats.len() ==> (#[trigger] rep.request_stats[k])
                    == spec_request_stats(
                    rep.request_stats[k].name,
                    spec_durations_for(lines, n, rep.request_stats[k].name),
                    rep.request_stats[k].errors,
                )
            &&& forall|k: int|
                0 <= k < rep.request_stats.len() ==> (#[trigger] rep.request_stats[k]).errors.map_values(
                    |x: RequestErrorStatsV| x.name,
                ) == dedup_first(spec_error_tokens(lines, n, rep.request_stats[k].name))
            &&& forall|k: int, j: int|
                0 <= k < rep.request_stats.len() && 0 <= j < rep.request_stats[k].errors.len()
                    ==> (#[trigger] rep.request_stats[k].errors[j]).count == spec_error_count(
                    lines,
                    n,
                    rep.request_stats[k].name,
                    rep.request_stats[k].errors[j].name,
                )
            &&& rep.user_stats.map_values(|u: UserStatsV| u.name) == dedup_first(
                spec_journeys(lines, n),
            )
            &&& forall|k: int|
                0 <= k < rep.user_stats.len() ==> (#[trigger] rep.user_stats[k]).count
                    == spec_user_starts(lines, n, rep.user_stats[k].name)
        }),
{
    let lines = lines_of(text);
    let n = lines.len() as int;
    lemma_fold_shape(lines, n);
    let acc = fold_acc(lines, n)->Ok_0;
    let rep = spec_parse_log(text)->Ok_0;
    assert(rep.request_stats == acc.reqs.map_values(
        |r: ReqAccV| spec_request_stats(r.name, r.samples, r.errors),
    ));
    assert(rep.request_stats.map_values(|r: RequestStatsV| r.name) =~~= acc.reqs.map_values(
        |r: ReqAccV| r.name,
    ));
    assert forall|k: int| 0 <= k < rep.request_stats.len() implies (
    #[trigger] rep.request_stats[k]) == spec_request_stats(
        rep.request_stats[k].name,
        spec_durations_for(lines, n, rep.request_stats[k].name),
        rep.request_stats[k].errors,
    ) by {
        assert(rep.request_stats[k] == spec_request_stats(
            acc.reqs[k].name,
            acc.reqs[k].samples,
            acc.reqs[k].errors,
        ));
        assert(acc.reqs[k].samples == spec_durations_for(lines, n, acc.reqs[k].name));
    }
    assert forall|k: int| 0 <= k < rep.request_stats.len() implies (
    #[trigger] rep.request_stats[k]).errors.map_values(|x: RequestErrorStatsV| x.name)
        == dedup_first(spec_error_tokens(lines, n, rep.request_stats[k].name)) by {
        assert(rep.request_stats[k] == spec_request_stats(
            acc.reqs[k].name,
            acc.reqs[k].samples,
            acc.reqs[k].errors,
        ));
        assert(rep.request_stats[k].errors == acc.reqs[k].errors);
        assert(rep.request_stats[k].name == acc.reqs[k].name);
    }
    assert forall|k: int, j: int|
        0 <= k < rep.request_stats.len() && 0 <= j < rep.request_stats[k].errors.len() implies (
    #[trigger] rep.request_stats[k].errors[j]).count == spec_error_count(
        lines,
        n,
        rep.request_stats[k].name,
        rep.request_stats[k].errors[j].name,
    ) by {
        assert(rep.request_stats[k] == spec_request_stats(
            acc.reqs[k].name,
            acc.reqs[k].samples,
            acc.reqs[k].errors,
        ));
        assert(rep.request_stats[k].errors == acc.reqs[k].errors);
        assert(rep.request_stats[k].name == acc.reqs[k].name);
        assert(acc.reqs[k].errors[j].count == spec_error_count(
            lines,
            n,
            acc.reqs[k].name,
            acc.reqs[k].errors[j].name,
        ));
    }
}

/// For every log whose parse succeeds, the report's name and tool version
/// are the fifth and sixth tab-separated fields of the header line.
pub proof fn lemma_report_header_fields(text: Seq<char>)
    requires
        spec_parse_log(text) is Ok,
    ensures
        lines_of(text).len() > 0,
        split_on(lines_of(text)[0], '\t').len() >= 6,
        spec_parse_log(text)->Ok_0.name == split_on(lines_of(text)[0], '\t')[4],
        spec_parse_log(text)->Ok_0.version == split_on(lines_of(text)[0], '\t')[5],
{
}

/// A line that reports a started journey iteration: it contains both the
/// `USER` tag and the `START` token somewhere.
pub open spec fn is_start_line(l: Seq<char>) -> bool {
    has_substring(l, "USER"@) && has_substring(l, "START"@)
}

/// How many lines of the log report a started journey iteration.
pub open spec fn spec_count_started(text: Seq<char>) -> int {
    lines_of(text).filter(|l: Seq<char>| is_start_line(l)).len() as int
}

/// Counts the lines of a (possibly still growing) log that report a started
/// journey iteration. Lines that are partial or otherwise malformed simply
/// do not match and are not counted.
#[verifier::loop_isolation(false)]
pub fn count_started_users(text: &str) -> (r: u64)
    ensures
        r == spec_count_started(text@),
{
    let ghost pred = |l: Seq<char>| is_start_line(l);
    let lines = split_lines(text);
    let ghost ls = lines_of(text@);
    let n = lines.len();
    let mut count: u64 = 0;
    let mut i: usize = 0;
    proof {
        reveal(Seq::filter);
        assert(ls.take(0) =~= Seq::<Seq<char>>::empty());
    }
    while i < n
        invariant
            0 <= i <= n,
            count <= i,
            count == ls.take(i as int).filter(pred).len(),
        decreases n - i,
    {
        proof {
            assert(lines@[i as int]@ == ls[i as int]);
        }
        let hit = contains_sub(lines[i].as_str(), "USER") && contains_sub(
            lines[i].as_str(),
            "START",
        );
        proof {
            reveal(Seq::filter);
            assert(ls.take(i + 1).drop_last() =~= ls.take(i as int));
            assert(ls.take(i + 1).last() == ls[i as int]);
            assert(hit == pred(ls[i as int]));
        }
        if hit {
            count = count + 1;
        }
        i += 1;
    }
    proof {
        assert(ls.take(n as int) =~= ls);
    }
    count
}

/// Per-request accumulator, carrying the owned values.
pub struct ReqAcc {
    pub name: String,
    pub samples: Vec<u64>,
    pub errors: Vec<RequestErrorStats>,
}

impl View for ReqAcc {
    type V = ReqAccV;

    open spec fn view(&self) -> ReqAccV {
        ReqAccV { name: self.name@, samples: self.samples@, errors: self.errors.deep_view() }
    }
}

impl DeepView for ReqAcc {
    type V = ReqAccV;

    open spec fn deep_view(&self) -> ReqAccV {
        self.view()
    }
}

fn find_req_exec(reqs: &Vec<ReqAcc>, name: &str) -> (r: Option<usize>)
    ensures
        match r {
            Some(k) => find_req_from(reqs.deep_view(), name@, 0) == Some(k as int),
            None => find_req_from(reqs.deep_view(), name@, 0) is None,
        },
{
    let ghost rv = reqs.deep_view();
    let n = reqs.len();
    let mut i: usize = 0;
    while i < n
        invariant
            0 <= i <= n,
            n == reqs.len(),
            rv == reqs.deep_view(),
            find_req_from(rv, name@, 0) == find_req_from(rv, name@, i as int),
        decreases n - i,
    {
        proof {
            assert(rv[i as int] == reqs@[i as int]@);
        }
        if str_eq(reqs[i].name.as_str(), name) {
            return Some(i);
        }
        i += 1;
    }
    None
}

fn find_err_exec(errs: &Vec<RequestErrorStats>, name: &str) -> (r: Option<usize>)
    ensures
        match r {
            Some(k) => find_err_from(errs.deep_view(), name@, 0) == Some(k as int),
            None => find_err_from(errs.deep_view(), name@, 0) is None,
        },
{
    let ghost ev = errs.deep_view();
    let n = errs.len();
    let mut i: usize = 0;
    while i < n
        invariant
            0 <= i <= n,
            n == errs.len(),
            ev == errs.deep_view(),
            find_err_from(ev, name@, 0) == find_err_from(ev, name@, i as int),
        decreases n - i,
    {
        proof {
            assert(ev[i as int] == errs@[i as int]@);
        }
        if str_eq(errs[i].name.as_str(), name) {
            return Some(i);
        }
        i += 1;
    }
    None
}

fn find_user_exec(users: &Vec<UserStats>, name: &str) -> (r: Option<usize>)
    ensures
        match r {
            Some(k) => find_user_from(users.deep_view(), name@, 0) == Some(k as int),
            None => find_user_from(users.deep_view(), name@, 0) is None,
        },
{
    let ghost uv = users.deep_view();
    let n = users.len();
    let mut i: usize = 0;
    while i < n
        invariant
            0 <= i <= n,
            n == users.len(),
            uv == users.deep_view(),
            find_user_from(uv, name@, 0) == find_user_from(uv, name@, i as int),
        decreases n - i,
    {
        proof {
            assert(uv[i as int] == users@[i as int]@);
        }
        if str_eq(users[i].name.as_str(), name) {
            return Some(i);
        }
        i += 1;
    }
    None
}

impl GatlingReport {
    /// Parses a whole event log, given as text, into the aggregated report,
    /// exactly as `spec_parse_log` describes.
    #[verifier::loop_isolation(false)]
    pub fn from_log_text(text: &str) -> (r: Result<GatlingReport, ParseError>)
        ensures
            match r {
                Ok(rep) => spec_parse_log(text@) == Ok::<GatlingReportV, ParseError>(rep@),
                Err(e) => spec_parse_log(text@) == Err::<GatlingReportV, ParseError>(e),
            },
    {
        let lines = split_lines(text);
        let ghost ls = lines_of(text@);
        proof {
            assert(lines.deep_view() == ls);
            assert(forall|k: int| 0 <= k < lines@.len() ==> #[trigger] lines@[k]@ == ls[k]);
        }
        let n = lines.len();
        if n == 0 {
            return Err(ParseError::MalformedHeader);
        }
        let hf = split_str(lines[0].as_str(), '\t');
        proof {
            assert(hf.deep_view() == split_on(ls[0], '\t'));
            assert(forall|k: int| 0 <= k < hf@.len() ==> #[trigger] hf@[k]@ == split_on(
                ls[0],
                '\t',
            )[k]);
        }
        if hf.len() < 6 {
            return Err(ParseError::MalformedHeader);
        }
        let mut okc: u64 = 0;
        let mut nokc: u64 = 0;
        let mut reqs: Vec<ReqAcc> = Vec::new();
        let mut users: Vec<UserStats> = Vec::new();
        let mut i: usize = 1;
        proof {
            assert(reqs.deep_view() =~= Seq::<ReqAccV>::empty());
            assert(users.deep_view() =~= Seq::<UserStatsV>::empty());
            assert(fold_acc(ls, 1) == Ok::<AccV, ParseError>(
                AccV { ok: 0, nok: 0, reqs: reqs.deep_view(), users: users.deep_view() },
            ));
        }
        while i < n
            invariant
                1 <= i <= n,
                n == lines.len(),
                n == ls.len(),
                lines.deep_view() == ls,
                fold_acc(ls, i as int) == Ok::<AccV, ParseError>(
                    AccV { ok: okc, nok: nokc, reqs: reqs.deep_view(), users: users.deep_view() },
                ),
            decreases n - i,
        {
            let ghost acc = AccV {
                ok: okc,
                nok: nokc,
                reqs: reqs.deep_view(),
                users: users.deep_view(),
            };
            proof {
                lemma_fold_bounded(ls, i as int);
                assert(acc_bounded(acc, i - 1));
                assert(lines@[i as int]@ == ls[i as int]);
            }
            let ev = match classify_exec(lines[i].as_str()) {
                Ok(ev) => ev,
                Err(e) => {
                    proof {
                        assert(fold_acc(ls, i + 1) == Err::<AccV, ParseError>(
                            ParseError::BadRecord { line: i, error: e },
                        ));
                        lemma_fold_err(ls, i + 1, n as int);
                    }
                    return Err(ParseError::BadRecord { line: i, error: e });
                },
            };
            match ev {
                Event::Request { name, duration, ok, result } => {
                    if ok {
                        okc = okc + 1;
                    } else {
                        nokc = nokc + 1;
                    }
                    match find_req_exec(&reqs, name.as_str()) {
                        None => {
                            let ghost old_reqs = reqs.deep_view();
                            let mut samples: Vec<u64> = Vec::new();
                            samples.push(duration);
                            let mut errors: Vec<RequestErrorStats> = Vec::new();
                            if !ok {
                                errors.push(RequestErrorStats { name: result, count: 1 });
                            }
                            let ghost entry_v = ReqAccV {
                                name: name@,
                                samples: samples@,
                                errors: errors.deep_view(),
                            };
                            reqs.push(ReqAcc { name, samples, errors });
                            proof {
                                assert(samples@ =~= seq![duration]);
                                assert(entry_v.errors =~~= if ok {
                                    Seq::<RequestErrorStatsV>::empty()
                                } else {
                                    seq![RequestErrorStatsV { name: result@, count: 1u64 }]
                                });
                                assert(reqs.deep_view() =~~= old_reqs.push(entry_v));
                                assert(reqs.deep_view() =~~= upd_reqs(
                                    acc.reqs,
                                    name@,
                                    duration,
                                    ok,
                                    result@,
                                ));
                            }
                        },
                        Some(k) => {
                            let ghost old_reqs = reqs.deep_view();
                            proof {
                                lemma_find_req_from_range(old_reqs, name@, 0);
                            }
                            let mut entry = reqs.remove(k);
                            let ghost old_entry = entry@;
                            entry.samples.push(duration);
                            if !ok {
                                match find_err_exec(&entry.errors, result.as_str()) {
                                    None => {
                                        let ghost old_errs = entry.errors.deep_view();
                                        entry.errors.push(
                                            RequestErrorStats { name: result, count: 1 },
                                        );
                                        proof {
                                            assert(entry.errors.deep_view() =~~= old_errs.push(
                                                RequestErrorStatsV { name: result@, count: 1u64 },
                                            ));
                                        }
                                    },
                                    Some(j) => {
                                        let ghost old_errs = entry.errors.deep_view();
                                        proof {
                                            lemma_find_err_from_range(old_errs, result@, 0);
                                            assert(old_errs[j as int] == entry.errors@[j as int]@);
                                        }
                                        let mut er = entry.errors.remove(j);
                                        er.count = er.count + 1;
                                        entry.errors.insert(j, er);
                                        proof {
                                            assert(entry.errors.deep_view() =~~= upd_errors(
                                                old_errs,
                                                result@,
                                            ));
                                        }
                                    },
                                }
                            }
                            reqs.insert(k, entry);
                            proof {
                                assert(entry@.samples =~= old_entry.samples.push(duration));
                                assert(reqs.deep_view() =~~= old_reqs.update(k as int, entry@));
                                assert(reqs.deep_view() =~~= upd_reqs(
                                    acc.reqs,
                                    name@,
                                    duration,
                                    ok,
                                    result@,
                                ));
                            }
                        },
                    }
                },
                Event::UserStart { journey } => {
                    match find_user_exec(&users, journey.as_str()) {
                        None => {
                            let ghost old_users = users.deep_view();
                            users.push(UserStats { name: journey, count: 1 });
                            proof {
                                assert(users.deep_view() =~~= upd_users(old_users, journey@));
                            }
                        },
                        Some(k) => {
                            let ghost old_users = users.deep_view();
                            proof {
                                lemma_find_user_from_range(old_users, journey@, 0);
                                assert(old_users[k as int] == users@[k as int]@);
                            }
                            let mut u = users.remove(k);
                            u.count = u.count + 1;
                            users.insert(k, u);
                            proof {
                                assert(users.deep_view() =~~= upd_users(old_users, journey@));
                            }
                        },
                    }
                },
                Event::Other => {},
            }
            proof {
                assert(AccV {
                    ok: okc,
                    nok: nokc,
                    reqs: reqs.deep_view(),
                    users: users.deep_view(),
                } =~~= step_acc(acc, ev@));
            }
            i += 1;
        }
        let ghost acc = AccV { ok: okc, nok: nokc, reqs: reqs.deep_view(), users: users.deep_view() };
        proof {
            lemma_fold_bounded(ls, n as int);
            assert(acc_bounded(acc, n - 1));
        }
        let ghost all_reqs = reqs.deep_view();
        let total_reqs = reqs.len();
        proof {
            assert(all_reqs.len() == total_reqs as int);
            assert(all_reqs.len() <= usize::MAX as int);
        }
        let mut stats: Vec<RequestStats> = Vec::new();
        let mut done: usize = 0;
        proof {
            assert(all_reqs.take(0).map_values(
                |r: ReqAccV| spec_request_stats(r.name, r.samples, r.errors),
            ) =~~= stats.deep_view());
        }
        while reqs.len() > 0
            invariant
                0 <= done <= all_reqs.len(),
                reqs.deep_view() == all_reqs.skip(done as int),
                stats.deep_view() == all_reqs.take(done as int).map_values(
                    |r: ReqAccV| spec_request_stats(r.name, r.samples, r.errors),
                ),
                forall|k: int|
                    0 <= k < all_reqs.len() ==> 1 <= (#[trigger] all_reqs[k]).samples.len(),
            decreases reqs.len(),
        {
            proof {
                assert(reqs.deep_view().len() == reqs@.len());
                assert(all_reqs.skip(done as int).len() == all_reqs.len() - done);
                assert(done < all_reqs.len());
            }
            let ghost before = reqs.deep_view();
            let ghost before_e = reqs@;
            let entry = reqs.remove(0);
            proof {
                assert(entry@ == before[0]);
                assert(before[0] == all_reqs[done as int]);
                before_e.remove_ensures(0);
                assert forall|t: int| 0 <= t < reqs.deep_view().len() implies reqs.deep_view()[t]
                    == all_reqs[done + 1 + t] by {
                    assert(reqs@[t] == before_e[t + 1]);
                    assert(before[t + 1] == all_reqs[done + 1 + t]);
                }
                assert(reqs.deep_view() =~~= all_reqs.skip(done + 1));
            }
            let ghost stats_prev = stats.deep_view();
            let rs = compute_request_stats(entry.name, &entry.samples, entry.errors);
            stats.push(rs);
            proof {
                assert(stats.deep_view() =~~= stats_prev.push(rs@));
                assert(all_reqs.take(done + 1).drop_last() =~= all_reqs.take(done as int));
                assert(all_reqs.take(done + 1).last() == all_reqs[done as int]);
                assert(stats.deep_view() =~~= all_reqs.take(done + 1).map_values(
                    |r: ReqAccV| spec_request_stats(r.name, r.samples, r.errors),
                ));
            }
            done = done + 1;
        }
        proof {
            assert(all_reqs.take(done as int) =~~= all_reqs);
        }
        let name = hf[4].clone();
        let version = hf[5].clone();
        let report = GatlingReport {
            name,
            version,
            requests_ok: okc,
            requests_nok: nokc,
            request_stats: stats,
            user_stats: users,
        };
        proof {
            assert(report@ =~~= report_of_acc(split_on(ls[0], '\t'), acc));
        }
        Ok(report)
    }
}

} // verus!
