//! The run registry's decisions: healing a run directory whose record is
//! missing or corrupt, turning scanned directories into listing rows,
//! filtering hidden runs, and the final ordering of the listing. The caller
//! scans the directories and reads the files; every choice about what the
//! listing shows is made — and proved — here.

use vstd::prelude::*;
use vstd::relations::sorted_by;
use crate::codec::dec_record;
use crate::error::Error;
use crate::codec::enc_record;
use crate::codec::lemma_record_round_trip;
use crate::config::ParamV;
use crate::models::Testrun;
use crate::models::TestrunV;
use crate::orchestrator::spec_done_record;
use crate::orchestrator::spec_initial_record;
use crate::parser::count_started_users;
use crate::parser::spec_count_started;
use crate::parser::spec_parse_log;
use crate::report::GatlingReport;
use crate::report::GatlingReportV;
use crate::report::TestrunData;
use crate::report::TestrunDataV;
use crate::report::TestrunStatus;
use crate::report::TestrunVisibilityStatus;
use crate::text::lex_le;
use crate::text::lex_le_str;
use crate::text::str_starts_with;

verus! {

/// Whether a directory name follows the staging convention, and so belongs
/// to a run that has not been promoted yet.
pub fn is_staging_name(name: &str) -> (r: bool)
    ensures
        r == "running-"@.is_prefix_of(name@),
{
    str_starts_with(name, "running-")
}

/// What a run directory's record should be, given what could be read from
/// it: a record that decodes is taken as it stands; otherwise a minimal
/// record is synthesized, with statistics re-derived from the raw log when
/// one is present and parses, and the caller is told to persist it.
pub open spec fn spec_heal(
    record_text: Option<Seq<char>>,
    log_text: Option<Seq<char>>,
) -> (TestrunDataV, bool) {
    if record_text is Some && dec_record(record_text->0) is Some {
        (dec_record(record_text->0)->0, false)
    } else {
        let stats = if log_text is Some {
            match spec_parse_log(log_text->0) {
                Ok(g) => Some(g),
                Err(_) => None,
            }
        } else {
            None
        };
        (
            TestrunDataV {
                datum: None,
                status: TestrunStatus::Unknown,
                custom_params: Seq::empty(),
                statistics: stats,
                visibility_status: TestrunVisibilityStatus::Visible,
            },
            true,
        )
    }
}

/// Heals one run directory's record, matching `spec_heal`; the flag says
/// whether the result must be written back.
pub fn heal_record(record_text: Option<&String>, log_text: Option<&String>) -> (r: (
    TestrunData,
    bool,
))
    ensures
        ({
            let rt = match record_text {
                Some(t) => Some(t@),
                None => None::<Seq<char>>,
            };
            let lt = match log_text {
                Some(l) => Some(l@),
                None => None::<Seq<char>>,
            };
            &&& r.0@ == spec_heal(rt, lt).0
            &&& r.1 == spec_heal(rt, lt).1
        }),
{
    if let Some(t) = record_text {
        if let Some(d) = TestrunData::from_json(t.as_str()) {
            return (d, false);
        }
    }
    let stats = match log_text {
        Some(l) => match GatlingReport::from_log_text(l.as_str()) {
            Ok(g) => Some(g),
            Err(_) => None,
        },
        None => None,
    };
    let d = TestrunData {
        datum: None,
        status: TestrunStatus::Unknown,
        custom_params: Vec::new(),
        statistics: stats,
        visibility_status: TestrunVisibilityStatus::Visible,
    };
    proof {
        assert(d@.custom_params =~= Seq::<ParamV>::empty());
    }
    (d, true)
}

/// The sentinel shown when a run directory's creation time is unknown.
pub open spec fn spec_epoch_sentinel() -> Seq<char> {
    "1970-01-01T12:00:00"@
}

/// The listing row for a promoted run, unless the run is hidden: its
/// creation time (or the epoch sentinel), its token, no progress figure,
/// and its record.
pub open spec fn spec_completed_entry(
    name: Seq<char>,
    d: TestrunDataV,
    created: Option<Seq<char>>,
) -> Option<TestrunV> {
    if d.visibility_status == TestrunVisibilityStatus::Hidden {
        None
    } else {
        Some(
            TestrunV {
                creation_date: match created {
                    Some(c) => c,
                    None => spec_epoch_sentinel(),
                },
                name: name,
                progress: None,
                data: Some(d),
            },
        )
    }
}

/// Builds the listing row for a promoted run, matching
/// `spec_completed_entry`.
pub fn completed_entry(name: String, data: TestrunData, created: Option<String>) -> (r: Option<
    Testrun,
>)
    ensures
        ({
            let cv = match created {
                Some(ref c) => Some(c@),
                None => None::<Seq<char>>,
            };
            match r {
                Some(t) => spec_completed_entry(name@, data@, cv) == Some(t@),
                None => spec_completed_entry(name@, data@, cv) is None,
            }
        }),
{
    match data.visibility_status {
        TestrunVisibilityStatus::Hidden => None,
        TestrunVisibilityStatus::Visible => {
            let creation_date = match created {
                Some(c) => c,
                None => "1970-01-01T12:00:00".to_owned(),
            };
            let t = Testrun { creation_date, name, progress: None, data: Some(data) };
            Some(t)
        },
    }
}

/// The listing row for a run still in its staging directory: no creation
/// time, a progress figure counted from whatever log exists, and its
/// record; a staging directory whose record cannot be read is skipped.
pub open spec fn spec_staging_entry(
    name: Seq<char>,
    record_text: Option<Seq<char>>,
    log_text: Option<Seq<char>>,
) -> Option<TestrunV> {
    match record_text {
        None => None,
        Some(t) => match dec_record(t) {
            None => None,
            Some(d) => Some(
                TestrunV {
                    creation_date: Seq::empty(),
                    name: name,
                    progress: match log_text {
                        Some(l) => Some(spec_count_started(l) as u64),
                        None => None,
                    },
                    data: Some(d),
                },
            ),
        },
    }
}

/// Builds the listing row for an in-flight run, matching
/// `spec_staging_entry`.
pub fn staging_entry(name: String, record_text: Option<&String>, log_text: Option<&String>) -> (r:
    Option<Testrun>)
    ensures
        ({
            let rt = match record_text {
                Some(t) => Some(t@),
                None => None::<Seq<char>>,
            };
            let lt = match log_text {
                Some(l) => Some(l@),
                None => None::<Seq<char>>,
            };
            match r {
                Some(t) => spec_staging_entry(name@, rt, lt) == Some(t@),
                None => spec_staging_entry(name@, rt, lt) is None,
            }
        }),
{
    let text = match record_text {
        Some(t) => t,
        None => {
            return None;
        },
    };
    let data = match TestrunData::from_json(text.as_str()) {
        Some(d) => d,
        None => {
            return None;
        },
    };
    let progress = match log_text {
        Some(l) => Some(count_started_users(l.as_str())),
        None => None,
    };
    let t = Testrun { creation_date: String::new(), name, progress, data: Some(data) };
    Some(t)
}

/// Listing order on rows: by creation time, lexicographically.
pub open spec fn run_le(a: TestrunV, b: TestrunV) -> bool {
    lex_le(a.creation_date, b.creation_date)
}

/// `x` placed after every row it does not precede, scanning from the
/// right: a stable insertion.
pub open spec fn insert_run(s: Seq<TestrunV>, x: TestrunV) -> Seq<TestrunV>
    decreases s.len(),
{
    if s.len() == 0 {
        seq![x]
    } else if run_le(s.last(), x) {
        s.push(x)
    } else {
        insert_run(s.drop_last(), x).push(s.last())
    }
}

/// The rows in listing order, by stable insertion: rows with equal
/// creation times keep their relative order.
pub open spec fn sort_runs(s: Seq<TestrunV>) -> Seq<TestrunV>
    decreases s.len(),
{
    if s.len() == 0 {
        Seq::empty()
    } else {
        insert_run(sort_runs(s.drop_last()), s.last())
    }
}

proof fn lemma_insert_run_at(s: Seq<TestrunV>, x: TestrunV, k: int)
    requires
        0 <= k <= s.len(),
        forall|j: int| k <= j < s.len() ==> !run_le(#[trigger] s[j], x),
        k > 0 ==> run_le(s[k - 1], x),
    ensures
        insert_run(s, x) == s.insert(k, x),
    decreases s.len(),
{
    if s.len() == 0 {
        assert(insert_run(s, x) =~= s.insert(0, x));
    } else if k == s.len() {
        assert(run_le(s.last(), x));
        assert(insert_run(s, x) =~= s.insert(k, x));
    } else {
        assert(!run_le(s[s.len() - 1], x));
        lemma_insert_run_at(s.drop_last(), x, k);
        assert(insert_run(s, x) == insert_run(s.drop_last(), x).push(s.last()));
        assert(s.drop_last().insert(k, x).push(s.last()) =~= s.insert(k, x));
    }
}

/// Listing order as a relation, for stating sortedness.
pub open spec fn runs_leq() -> spec_fn(TestrunV, TestrunV) -> bool {
    |a: TestrunV, b: TestrunV| run_le(a, b)
}

proof fn lemma_insert_run_sorted(s: Seq<TestrunV>, x: TestrunV)
    requires
        sorted_by(s, runs_leq()),
    ensures
        sorted_by(insert_run(s, x), runs_leq()),
    decreases s.len(),
{
    broadcast use vstd::seq_lib::group_to_multiset_ensures;

    if s.len() == 0 {
    } else if run_le(s.last(), x) {
        assert forall|a: int, b: int| 0 <= a < b < s.push(x).len() implies #[trigger] runs_leq()(
            s.push(x)[a],
            s.push(x)[b],
        ) by {
            if b == s.len() {
                if a < s.len() - 1 {
                    assert(runs_leq()(s[a], s[s.len() - 1]));
                    lemma_run_le_trans(s[a], s[s.len() - 1], x);
                }
            }
        }
    } else {
        assert(sorted_by(s.drop_last(), runs_leq()));
        lemma_insert_run_sorted(s.drop_last(), x);
        lemma_insert_run_multiset(s.drop_last(), x);
        let inner = insert_run(s.drop_last(), x);
        crate::text::lemma_lex_le_total(s.last().creation_date, x.creation_date);
        assert(run_le(x, s.last()));
        assert forall|a: int, b: int| 0 <= a < b < inner.push(s.last()).len() implies #[trigger] runs_leq()(
            inner.push(s.last())[a],
            inner.push(s.last())[b],
        ) by {
            if b == inner.len() {
                let e = inner[a];
                assert(inner.to_multiset().contains(e));
                assert(s.drop_last().to_multiset().insert(x).contains(e));
                if e == x {
                } else if s.drop_last().to_multiset().contains(e) {
                    assert(s.drop_last().contains(e));
                    let w = choose|w: int|
                        0 <= w < s.drop_last().len() && (#[trigger] s.drop_last()[w]) == e;
                    assert(runs_leq()(s[w], s[s.len() - 1]));
                }
            }
        }
    }
}

proof fn lemma_run_le_trans(a: TestrunV, b: TestrunV, c: TestrunV)
    requires
        run_le(a, b),
        run_le(b, c),
    ensures
        run_le(a, c),
{
    lemma_lex_le_trans(a.creation_date, b.creation_date, c.creation_date);
}

proof fn lemma_lex_le_trans(a: Seq<char>, b: Seq<char>, c: Seq<char>)
    requires
        lex_le(a, b),
        lex_le(b, c),
    ensures
        lex_le(a, c),
    decreases a.len(),
{
    if a.len() > 0 && b.len() > 0 && c.len() > 0 && a[0] == b[0] && b[0] == c[0] {
        lemma_lex_le_trans(a.drop_first(), b.drop_first(), c.drop_first());
    }
}

/// The completed section of the listing really is in creation order.
pub proof fn lemma_sort_runs_sorted(s: Seq<TestrunV>)
    ensures
        sorted_by(sort_runs(s), runs_leq()),
    decreases s.len(),
{
    if s.len() > 0 {
        lemma_sort_runs_sorted(s.drop_last());
        lemma_insert_run_sorted(sort_runs(s.drop_last()), s.last());
    }
}

/// Sorting does not add, drop or duplicate rows.
pub proof fn lemma_sort_runs_multiset(s: Seq<TestrunV>)
    ensures
        sort_runs(s).len() == s.len(),
        sort_runs(s).to_multiset() == s.to_multiset(),
    decreases s.len(),
{
    broadcast use vstd::seq_lib::group_to_multiset_ensures;

    if s.len() > 0 {
        lemma_sort_runs_multiset(s.drop_last());
        lemma_insert_run_multiset(sort_runs(s.drop_last()), s.last());
        assert(s.drop_last().push(s.last()) =~= s);
        assert(s.to_multiset() =~= s.drop_last().to_multiset().insert(s.last()));
    }
}

proof fn lemma_insert_run_multiset(s: Seq<TestrunV>, x: TestrunV)
    ensures
        insert_run(s, x).len() == s.len() + 1,
        insert_run(s, x).to_multiset() == s.to_multiset().insert(x),
    decreases s.len(),
{
    broadcast use vstd::seq_lib::group_to_multiset_ensures;

    if s.len() == 0 {
        assert(insert_run(s, x) =~= Seq::<TestrunV>::empty().push(x));
        assert(insert_run(s, x).to_multiset() =~= s.to_multiset().insert(x));
    } else if run_le(s.last(), x) {
        assert(insert_run(s, x).to_multiset() =~= s.to_multiset().insert(x));
    } else {
        lemma_insert_run_multiset(s.drop_last(), x);
        let inner = insert_run(s.drop_last(), x);
        assert(inner.push(s.last()).to_multiset() =~= inner.to_multiset().insert(s.last()));
        assert(s.drop_last().push(s.last()) =~= s);
        assert(s.to_multiset() =~= s.drop_last().to_multiset().insert(s.last()));
        assert(inner.to_multiset().insert(s.last()) =~= s.drop_last().to_multiset().insert(
            x,
        ).insert(s.last()));
        assert(s.to_multiset().insert(x) =~= s.drop_last().to_multiset().insert(s.last()).insert(
            x,
        ));
        assert(s.drop_last().to_multiset().insert(x).insert(s.last()) =~= s.drop_last().to_multiset().insert(
            s.last(),
        ).insert(x));
    }
}

/// Sorts the completed rows by creation time, matching `sort_runs`.
#[verifier::loop_isolation(false)]
pub fn sort_by_date(runs: Vec<Testrun>) -> (r: Vec<Testrun>)
    ensures
        r.deep_view() == sort_runs(runs.deep_view()),
{
    let ghost rv = runs.deep_view();
    let mut rest = runs;
    let mut out: Vec<Testrun> = Vec::new();
    let ghost mut done: int = 0;
    proof {
        assert(rv.take(0) =~= Seq::<TestrunV>::empty());
        assert(rest.deep_view() =~~= rv.skip(0));
    }
    while rest.len() > 0
        invariant
            0 <= done <= rv.len(),
            rest.deep_view() == rv.skip(done),
            out@.len() == done,
            out.deep_view() == sort_runs(rv.take(done)),
        decreases rest@.len(),
    {
        proof {
            assert(rest.deep_view().len() == rest@.len());
            assert(rv.skip(done).len() == rv.len() - done);
        }
        let ghost before_e = rest@;
        let ghost before = rest.deep_view();
        let x = rest.remove(0);
        proof {
            assert(x@ == before[0]);
            assert(before[0] == rv[done]);
            before_e.remove_ensures(0);
            assert forall|t: int| 0 <= t < rest.deep_view().len() implies rest.deep_view()[t]
                == rv[done + 1 + t] by {
                assert(rest@[t] == before_e[t + 1]);
                assert(before[t + 1] == rv[done + 1 + t]);
            }
            assert(rest.deep_view() =~~= rv.skip(done + 1));
        }
        let ghost xv = x@;
        let mut k: usize = out.len();
        let mut stop: bool = false;
        while !stop && k > 0
            invariant
                0 <= k <= out@.len(),
                forall|j: int| k <= j < out@.len() ==> !run_le(#[trigger] out.deep_view()[j], xv),
                stop ==> (k > 0 && run_le(out.deep_view()[k - 1], xv)),
            decreases k, (if stop { 0int } else { 1int }),
        {
            proof {
                assert(out.deep_view()[k - 1] == out@[k - 1]@);
            }
            if lex_le_str(out[k - 1].creation_date.as_str(), x.creation_date.as_str()) {
                stop = true;
            } else {
                k -= 1;
            }
        }
        let ghost prev = out.deep_view();
        out.insert(k, x);
        proof {
            lemma_insert_run_at(prev, xv, k as int);
            assert(out.deep_view() =~~= prev.insert(k as int, xv));
            assert(rv.take(done + 1).drop_last() =~= rv.take(done));
            assert(rv.take(done + 1).last() == rv[done]);
            assert(out.deep_view() =~~= sort_runs(rv.take(done + 1)));
        }
        proof {
            done = done + 1;
        }
    }
    proof {
        assert(rv.take(done) =~= rv);
    }
    out
}

/// The final listing: completed rows sorted by creation time, the in-flight
/// rows appended, and the whole reversed — so the in-flight runs come
/// first, then the newest completed runs.
#[verifier::loop_isolation(false)]
pub fn finalize_listing(completed: Vec<Testrun>, staging: Vec<Testrun>) -> (r: Vec<Testrun>)
    ensures
        r.deep_view() == (sort_runs(completed.deep_view()) + staging.deep_view()).reverse(),
{
    let ghost cv = completed.deep_view();
    let ghost sv = staging.deep_view();
    let mut all = sort_by_date(completed);
    let mut staging = staging;
    let ghost mut done: int = 0;
    proof {
        assert(all.deep_view() =~~= sort_runs(cv) + sv.take(0));
    }
    while staging.len() > 0
        invariant
            0 <= done <= sv.len(),
            staging.deep_view() == sv.skip(done),
            all.deep_view() == sort_runs(cv) + sv.take(done),
        decreases staging@.len(),
    {
        proof {
            assert(staging.deep_view().len() == staging@.len());
            assert(sv.skip(done).len() == sv.len() - done);
        }
        let ghost before_e = staging@;
        let ghost before = staging.deep_view();
        let e = staging.remove(0);
        proof {
            assert(e@ == before[0]);
            assert(before[0] == sv[done]);
            before_e.remove_ensures(0);
            assert forall|t: int| 0 <= t < staging.deep_view().len() implies staging.deep_view()[t]
                == sv[done + 1 + t] by {
                assert(staging@[t] == before_e[t + 1]);
                assert(before[t + 1] == sv[done + 1 + t]);
            }
            assert(staging.deep_view() =~~= sv.skip(done + 1));
        }
        let ghost prev = all.deep_view();
        all.push(e);
        proof {
            assert(all.deep_view() =~~= prev.push(sv[done]));
            assert(sv.take(done + 1).drop_last() =~= sv.take(done));
            assert(sv.take(done + 1).last() == sv[done]);
            assert((sort_runs(cv) + sv.take(done)).push(sv[done]) =~~= sort_runs(cv) + sv.take(
                done + 1,
            ));
        }
        proof {
            done = done + 1;
        }
    }
    proof {
        assert(sv.take(done) =~= sv);
    }
    let ghost full = all.deep_view();
    let mut out: Vec<Testrun> = Vec::new();
    proof {
        assert(full.skip(all@.len() as int) =~= Seq::<TestrunV>::empty());
        assert(out.deep_view() =~~= full.skip(all@.len() as int).reverse());
    }
    while all.len() > 0
        invariant
            all@.len() <= full.len(),
            all.deep_view() == full.take(all@.len() as int),
            out.deep_view() == full.skip(all@.len() as int).reverse(),
        decreases all@.len(),
    {
        let ghost k = all@.len() as int;
        proof {
            assert(full.skip(k).len() == full.len() - k);
            assert(out.deep_view().len() == full.len() - k);
        }
        let ghost before_dv = all.deep_view();
        let e = match all.pop() {
            Some(e) => e,
            None => {
                proof {
                    assert(false);
                }
                return out;
            },
        };
        proof {
            assert(e@ == all@.push(e)[k - 1]@);
            assert(e@ == before_dv[k - 1]);
            assert(before_dv[k - 1] == full[k - 1]);
            assert(all.deep_view() =~~= before_dv.drop_last());
            assert(before_dv.drop_last() =~~= full.take(k - 1));
        }
        let ghost prev = out.deep_view();
        out.push(e);
        proof {
            assert(out.deep_view() =~~= prev.push(full[k - 1]));
            assert forall|j: int| 0 <= j < out.deep_view().len() implies out.deep_view()[j]
                == full.skip(k - 1).reverse()[j] by {
                assert(full.skip(k - 1).reverse()[j] == full.skip(k - 1)[full.len() - (k - 1) - 1
                    - j]);
                assert(full.skip(k - 1)[full.len() - (k - 1) - 1 - j] == full[full.len() - 1 - j]);
                if j < prev.len() {
                    assert(prev[j] == full.skip(k).reverse()[j]);
                    assert(full.skip(k).reverse()[j] == full.skip(k)[full.len() - k - 1 - j]);
                    assert(full.skip(k)[full.len() - k - 1 - j] == full[full.len() - 1 - j]);
                }
            }
            assert(out.deep_view() =~~= full.skip(k - 1).reverse());
        }
    }
    proof {
        assert(full.take(0) =~= Seq::<TestrunV>::empty());
        assert(full.skip(0) =~= full);
        assert(out.deep_view() =~~= full.reverse());
        assert(full =~~= sort_runs(cv) + sv);
    }
    out
}

/// What changing a run's visibility comes to, given what could be read: a
/// run whose directory or record file does not exist is `NotFound`, a
/// record file that exists but could not be read is an I/O failure, a
/// record that does not decode is a decode failure, and otherwise the
/// record is returned with only its visibility replaced, ready to be
/// written back — each outcome exactly when its case holds.
pub fn plan_visibility_update(
    dir_exists: bool,
    record_exists: bool,
    record_text: Option<&String>,
    v: TestrunVisibilityStatus,
) -> (r: Result<TestrunData, Error>)
    ensures
        ({
            let rt = match record_text {
                Some(t) => Some(t@),
                None => None::<Seq<char>>,
            };
            &&& (r == Err::<TestrunData, Error>(Error::NotFound) <==> (!dir_exists
                || !record_exists))
            &&& (r == Err::<TestrunData, Error>(Error::Io) <==> (dir_exists && record_exists
                && rt is None))
            &&& (r == Err::<TestrunData, Error>(Error::Serde) <==> (dir_exists && record_exists
                && rt is Some && dec_record(rt->0) is None))
            &&& (r is Ok <==> (dir_exists && record_exists && rt is Some && dec_record(
                rt->0,
            ) is Some))
            &&& (r is Ok ==> r->Ok_0@ == (TestrunDataV {
                visibility_status: v,
                ..dec_record(rt->0)->0
            }))
        }),
{
    if !dir_exists || !record_exists {
        return Err(Error::NotFound);
    }
    let text = match record_text {
        Some(t) => t,
        None => {
            return Err(Error::Io);
        },
    };
    let mut data = match TestrunData::from_json(text.as_str()) {
        Some(d) => d,
        None => {
            return Err(Error::Serde);
        },
    };
    crate::models::set_visibility(&mut data, v);
    Ok(data)
}

/// A run is hidden exactly when the listing has no row for it.
pub proof fn lemma_hidden_not_listed(name: Seq<char>, d: TestrunDataV, created: Option<Seq<char>>)
    ensures
        (d.visibility_status == TestrunVisibilityStatus::Hidden) <==> (spec_completed_entry(
            name,
            d,
            created,
        ) is None),
{
}

/// Hiding a run removes it from the listing and touches nothing else in
/// its record.
pub proof fn lemma_set_hidden_removes(name: Seq<char>, d: TestrunDataV, created: Option<Seq<char>>)
    ensures
        ({
            let d2 = TestrunDataV { visibility_status: TestrunVisibilityStatus::Hidden, ..d };
            &&& spec_completed_entry(name, d2, created) is None
            &&& d2.datum == d.datum
            &&& d2.status == d.status
            &&& d2.custom_params == d.custom_params
            &&& d2.statistics == d.statistics
        }),
{
}

/// A run whose staging directory holds the record the orchestrator wrote at
/// start shows up among the in-flight rows as running, with no statistics.
pub proof fn lemma_started_run_listed(
    name: Seq<char>,
    ps: Seq<ParamV>,
    log_text: Option<Seq<char>>,
)
    ensures
        ({
            let e = spec_staging_entry(name, Some(enc_record(spec_initial_record(ps))), log_text);
            &&& e is Some
            &&& e->0.name == name
            &&& e->0.data == Some(spec_initial_record(ps))
            &&& e->0.data->0.status == TestrunStatus::Running
            &&& e->0.data->0.statistics is None
        }),
{
    lemma_record_round_trip(spec_initial_record(ps));
}

/// Once promotion has written the final record, the run's row in the
/// permanent section reads back as done, carrying the parsed statistics.
pub proof fn lemma_promoted_run_listed(
    name: Seq<char>,
    ps: Seq<ParamV>,
    stats: GatlingReportV,
    datum: Option<i64>,
    created: Option<Seq<char>>,
)
    ensures
        dec_record(enc_record(spec_done_record(ps, stats, datum))) == Some(
            spec_done_record(ps, stats, datum),
        ),
        ({
            let e = spec_completed_entry(name, spec_done_record(ps, stats, datum), created);
            &&& e is Some
            &&& e->0.name == name
            &&& e->0.data->0.status == TestrunStatus::Done
            &&& e->0.data->0.statistics == Some(stats)
        }),
{
    lemma_record_round_trip(spec_done_record(ps, stats, datum));
}

/// The in-flight rows come first in the final listing, and the completed
/// rows follow newest first: position `j` from the end of the appended
/// in-flight section is position `j` of the listing.
pub proof fn lemma_inflight_first(c: Seq<TestrunV>, st: Seq<TestrunV>)
    ensures
        ({
            let out = (sort_runs(c) + st).reverse();
            &&& out.len() == sort_runs(c).len() + st.len()
            &&& forall|j: int| 0 <= j < st.len() ==> out[j] == st[st.len() - 1 - j]
            &&& forall|j: int|
                st.len() <= j < out.len() ==> out[j] == sort_runs(c)[out.len() - 1 - j]
        }),
{
    let merged = sort_runs(c) + st;
    let out = merged.reverse();
    assert forall|j: int| 0 <= j < st.len() implies out[j] == st[st.len() - 1 - j] by {
        assert(out[j] == merged[merged.len() - 1 - j]);
    }
    assert forall|j: int| st.len() <= j < out.len() implies out[j] == sort_runs(c)[out.len() - 1
        - j] by {
        assert(out[j] == merged[merged.len() - 1 - j]);
    }
}

/// The final listing holds exactly the completed rows that are not hidden
/// and the in-flight rows: nothing else appears, and nothing is lost.
pub proof fn lemma_listing_membership(c: Seq<TestrunV>, st: Seq<TestrunV>, x: TestrunV)
    ensures
        (sort_runs(c) + st).reverse().contains(x) <==> (c.contains(x) || st.contains(x)),
{
    broadcast use vstd::seq_lib::group_to_multiset_ensures;

    let merged = sort_runs(c) + st;
    lemma_sort_runs_multiset(c);
    merged.lemma_reverse_to_multiset();
    vstd::seq_lib::lemma_multiset_commutative(sort_runs(c), st);
    assert(merged.reverse().to_multiset() == c.to_multiset().add(st.to_multiset()));
    assert(merged.reverse().contains(x) <==> merged.reverse().to_multiset().count(x) > 0);
    assert(c.contains(x) <==> c.to_multiset().count(x) > 0);
    assert(st.contains(x) <==> st.to_multiset().count(x) > 0);
}

} // verus!
