//! Latency statistics for one request name: the samples are sorted
//! ascending, and minimum, maximum, truncated mean and the nearest-rank 95th
//! percentile are read off the sorted sequence.

use vstd::prelude::*;
use vstd::relations::sorted_by;
use crate::report::RequestErrorStats;
use crate::report::RequestErrorStatsV;
use crate::report::RequestStats;
use crate::report::RequestStatsV;

verus! {

broadcast use vstd::seq_lib::group_seq_lib_default;

/// Ascending order on samples.
pub open spec fn leq_u64() -> spec_fn(u64, u64) -> bool {
    |x: u64, y: u64| x <= y
}

/// `x` placed into `s` after every element it is greater than or equal to,
/// scanning from the right; on a sorted sequence this is a stable insertion.
pub open spec fn insert_sorted(s: Seq<u64>, x: u64) -> Seq<u64>
    decreases s.len(),
{
    if s.len() == 0 {
        seq![x]
    } else if s.last() <= x {
        s.push(x)
    } else {
        insert_sorted(s.drop_last(), x).push(s.last())
    }
}

/// The samples in ascending order, by repeated insertion.
pub open spec fn sort_spec(s: Seq<u64>) -> Seq<u64>
    decreases s.len(),
{
    if s.len() == 0 {
        Seq::<u64>::empty()
    } else {
        insert_sorted(sort_spec(s.drop_last()), s.last())
    }
}

/// The sum of the samples.
pub open spec fn sum_of(s: Seq<u64>) -> int
    decreases s.len(),
{
    if s.len() == 0 {
        0
    } else {
        sum_of(s.drop_last()) + s.last()
    }
}

pub proof fn lemma_insert_sorted_props(s: Seq<u64>, x: u64)
    ensures
        insert_sorted(s, x).len() == s.len() + 1,
        insert_sorted(s, x).to_multiset() == s.to_multiset().insert(x),
        sorted_by(s, leq_u64()) ==> sorted_by(insert_sorted(s, x), leq_u64()),
    decreases s.len(),
{
    broadcast use vstd::seq_lib::group_to_multiset_ensures;

    if s.len() == 0 {
        assert(insert_sorted(s, x) =~= Seq::<u64>::empty().push(x));
        assert(insert_sorted(s, x).to_multiset() =~= s.to_multiset().insert(x));
    } else if s.last() <= x {
        assert(insert_sorted(s, x).to_multiset() =~= s.to_multiset().insert(x));
        if sorted_by(s, leq_u64()) {
            assert forall|i: int, j: int|
                0 <= i < j < s.push(x).len() implies #[trigger] leq_u64()(
                s.push(x)[i],
                s.push(x)[j],
            ) by {
                if j < s.len() {
                } else {
                    if i < s.len() - 1 {
                        assert(leq_u64()(s[i], s[s.len() - 1]));
                    }
                }
            }
        }
    } else {
        lemma_insert_sorted_props(s.drop_last(), x);
        let inner = insert_sorted(s.drop_last(), x);
        assert(insert_sorted(s, x) == inner.push(s.last()));
        assert(inner.push(s.last()).to_multiset() =~= inner.to_multiset().insert(s.last()));
        assert(s.drop_last().push(s.last()) =~= s);
        assert(s.to_multiset() =~= s.drop_last().to_multiset().insert(s.last()));
        assert(inner.to_multiset().insert(s.last()) =~= s.drop_last().to_multiset().insert(
            x,
        ).insert(s.last()));
        assert(s.to_multiset().insert(x) =~= s.drop_last().to_multiset().insert(s.last()).insert(
            x,
        ));
        assert(s.drop_last().to_multiset().insert(x).insert(s.last()) =~= s.drop_last().to_multiset().insert(
            s.last(),
        ).insert(x));
        if sorted_by(s, leq_u64()) {
            assert(sorted_by(s.drop_last(), leq_u64()));
            assert(sorted_by(inner, leq_u64()));
            // Everything in `inner` is at most `s.last()`: it is either an
            // element of `s.drop_last()` or `x`, and `x < s.last()` here.
            assert forall|i: int, j: int|
                0 <= i < j < inner.push(s.last()).len() implies #[trigger] leq_u64()(
                inner.push(s.last())[i],
                inner.push(s.last())[j],
            ) by {
                if j == inner.len() {
                    let e = inner[i];
                    assert(inner.to_multiset().contains(e));
                    assert(s.drop_last().to_multiset().insert(x).contains(e));
                    if e == x {
                        assert(e <= s.last());
                    } else if s.drop_last().to_multiset().contains(e) {
                        assert(s.drop_last().contains(e));
                        let w = choose|w: int|
                            0 <= w < s.drop_last().len() && s.drop_last()[w] == e;
                        assert(leq_u64()(s[w], s[s.len() - 1]));
                    }
                }
            }
        }
    }
}

/// The specified sort really sorts: the result is ascending and a
/// permutation of the input.
pub proof fn lemma_sort_spec_props(s: Seq<u64>)
    ensures
        sort_spec(s).len() == s.len(),
        sort_spec(s).to_multiset() == s.to_multiset(),
        sorted_by(sort_spec(s), leq_u64()),
    decreases s.len(),
{
    broadcast use vstd::seq_lib::group_to_multiset_ensures;

    if s.len() == 0 {
    } else {
        lemma_sort_spec_props(s.drop_last());
        lemma_insert_sorted_props(sort_spec(s.drop_last()), s.last());
        assert(s.drop_last().push(s.last()) =~= s);
        assert(s.to_multiset() =~= s.drop_last().to_multiset().insert(s.last()));
    }
}

/// The statistics derived from the (non-empty) duration samples of one
/// request name: `min`, `max` and `p95` read off the ascending samples,
/// `avg` the truncated mean, `p95` by the nearest-rank, zero-indexed formula
/// `floor(count * 95 / 100)` with `0` as the out-of-range fallback.
pub open spec fn spec_request_stats(
    name: Seq<char>,
    samples: Seq<u64>,
    errors: Seq<RequestErrorStatsV>,
) -> RequestStatsV
    recommends
        samples.len() > 0,
{
    let sorted = sort_spec(samples);
    let c = samples.len() as int;
    let pi = (c * 95) / 100;
    RequestStatsV {
        name: name,
        avg: (sum_of(samples) / c) as u64,
        max: sorted[c - 1],
        min: sorted[0],
        p95: if pi < c {
            sorted[pi]
        } else {
            0
        },
        count: c as u64,
        errors: errors,
    }
}

/// The statistics bound the samples: every sample lies between `min` and
/// `max`, both of which are samples themselves, and for a non-empty sample
/// set the percentile index is always in range, so the zero fallback is
/// never what is reported.
pub proof fn lemma_request_stats_bounds(
    name: Seq<char>,
    samples: Seq<u64>,
    errors: Seq<RequestErrorStatsV>,
)
    requires
        samples.len() > 0,
    ensures
        ({
            let r = spec_request_stats(name, samples, errors);
            &&& forall|k: int| 0 <= k < samples.len() ==> r.min <= #[trigger] samples[k] <= r.max
            &&& samples.contains(r.min)
            &&& samples.contains(r.max)
            &&& r.p95 == sort_spec(samples)[(samples.len() * 95) as int / 100]
            &&& samples.contains(r.p95)
        }),
{
    broadcast use vstd::seq_lib::group_to_multiset_ensures;

    let r = spec_request_stats(name, samples, errors);
    let sorted = sort_spec(samples);
    let c = samples.len() as int;
    lemma_sort_spec_props(samples);
    assert((c * 95) / 100 < c) by {
        vstd::arithmetic::div_mod::lemma_fundamental_div_mod(c * 95, 100);
        assert(c * 95 < 100 * c) by (nonlinear_arith)
            requires
                c >= 1,
        ;
    }
    assert(0 <= (c * 95) / 100) by {
        vstd::arithmetic::div_mod::lemma_div_is_ordered(0, c * 95, 100);
    }
    assert forall|k: int| 0 <= k < samples.len() implies r.min <= #[trigger] samples[k]
        <= r.max by {
        assert(samples.contains(samples[k]));
        assert(sorted.to_multiset().contains(samples[k]));
        assert(sorted.contains(samples[k]));
        let w = choose|w: int| 0 <= w < sorted.len() && (#[trigger] sorted[w]) == samples[k];
        if w > 0 {
            assert(leq_u64()(sorted[0], sorted[w]));
        }
        if w < sorted.len() - 1 {
            assert(leq_u64()(sorted[w], sorted[sorted.len() - 1]));
        }
    }
    assert forall|w: int| 0 <= w < sorted.len() implies samples.contains(#[trigger] sorted[w]) by {
        assert(sorted.contains(sorted[w]));
        assert(sorted.to_multiset().count(sorted[w]) > 0);
        assert(samples.to_multiset().count(sorted[w]) > 0);
    }
    assert(samples.contains(sorted[0]));
    assert(samples.contains(sorted[c - 1]));
    assert(samples.contains(sorted[(c * 95) / 100]));
}

/// The sum of `n` samples is at most `n` times the largest sample value.
proof fn lemma_sum_bound(s: Seq<u64>)
    ensures
        0 <= sum_of(s) <= s.len() * u64::MAX,
    decreases s.len(),
{
    if s.len() > 0 {
        lemma_sum_bound(s.drop_last());
        assert((s.len() - 1) * u64::MAX + u64::MAX == s.len() * u64::MAX) by (nonlinear_arith);
    }
}

/// The samples in ascending order.
pub fn sort_u64(samples: &Vec<u64>) -> (r: Vec<u64>)
    ensures
        r@ == sort_spec(samples@),
{
    let n = samples.len();
    let mut out: Vec<u64> = Vec::new();
    let mut i: usize = 0;
    proof {
        assert(samples@.take(0) =~= Seq::<u64>::empty());
    }
    while i < n
        invariant
            0 <= i <= n,
            n == samples.len(),
            out@ == sort_spec(samples@.take(i as int)),
            out.len() == i,
        decreases n - i,
    {
        proof {
            lemma_sort_spec_props(samples@.take(i as int));
        }
        let x = samples[i];
        let mut k: usize = out.len();
        while k > 0 && out[k - 1] > x
            invariant
                0 <= k <= out.len(),
                forall|j: int| k <= j < out.len() ==> out@[j] > x,
            decreases k,
        {
            k -= 1;
        }
        let ghost prev = out@;
        out.insert(k, x);
        proof {
            lemma_insert_sorted_at(prev, x, k as int);
            assert(samples@.take(i + 1).drop_last() =~= samples@.take(i as int));
            assert(samples@.take(i + 1).last() == samples@[i as int]);
            assert(out@ == sort_spec(samples@.take(i + 1)));
        }
        i += 1;
    }
    proof {
        assert(samples@.take(n as int) =~= samples@);
    }
    out
}

/// Inserting `x` right before the suffix of elements greater than `x` is
/// what `insert_sorted` does.
proof fn lemma_insert_sorted_at(s: Seq<u64>, x: u64, k: int)
    requires
        0 <= k <= s.len(),
        forall|j: int| k <= j < s.len() ==> s[j] > x,
        k > 0 ==> s[k - 1] <= x,
    ensures
        insert_sorted(s, x) == s.insert(k, x),
    decreases s.len(),
{
    if s.len() == 0 {
        assert(insert_sorted(s, x) =~= s.insert(0, x));
    } else if k == s.len() {
        assert(s.last() <= x);
        assert(insert_sorted(s, x) =~= s.insert(k, x));
    } else {
        assert(s[s.len() - 1] > x);
        lemma_insert_sorted_at(s.drop_last(), x, k);
        assert(insert_sorted(s, x) == insert_sorted(s.drop_last(), x).push(s.last()));
        assert(s.drop_last().insert(k, x).push(s.last()) =~= s.insert(k, x));
    }
}

/// The statistics of one request name, from its name, its duration samples
/// in order of appearance, and its error statistics.
pub fn compute_request_stats(name: String, samples: &Vec<u64>, errors: Vec<RequestErrorStats>) -> (r:
    RequestStats)
    requires
        samples@.len() > 0,
    ensures
        r@ == spec_request_stats(name@, samples@, errors.deep_view()),
{
    let n = samples.len();
    let mut total: u128 = 0;
    let mut i: usize = 0;
    proof {
        assert(samples@.take(0) =~= Seq::<u64>::empty());
    }
    while i < n
        invariant
            0 <= i <= n,
            n == samples.len(),
            total == sum_of(samples@.take(i as int)),
            total <= i * (u64::MAX as int),
        decreases n - i,
    {
        proof {
            assert(samples@.take(i + 1).drop_last() =~= samples@.take(i as int));
            assert(samples@.take(i + 1).last() == samples@[i as int]);
            assert((i + 1) * (u64::MAX as int) == i * (u64::MAX as int) + u64::MAX as int)
                by (nonlinear_arith);
        }
        total = total + samples[i] as u128;
        i += 1;
    }
    proof {
        assert(samples@.take(n as int) =~= samples@);
    }
    let sorted = sort_u64(samples);
    proof {
        lemma_sort_spec_props(samples@);
    }
    let count = n as u64;
    let avg_wide: u128 = total / (n as u128);
    proof {
        lemma_sum_bound(samples@);
        assert(sum_of(samples@) / (n as int) <= u64::MAX as int) by {
            vstd::arithmetic::div_mod::lemma_div_is_ordered(
                sum_of(samples@),
                n as int * (u64::MAX as int),
                n as int,
            );
            vstd::arithmetic::div_mod::lemma_div_by_multiple(u64::MAX as int, n as int);
        }
    }
    let avg = avg_wide as u64;
    let pi_wide: u128 = (n as u128) * 95 / 100;
    proof {
        assert((n as int) * 95 / 100 < n as int) by {
            vstd::arithmetic::div_mod::lemma_fundamental_div_mod((n as int) * 95, 100);
            assert((n as int) * 95 < 100 * (n as int)) by (nonlinear_arith)
                requires
                    n >= 1,
            ;
        }
    }
    let pi = pi_wide as usize;
    let p95 = if pi < n {
        sorted[pi]
    } else {
        0
    };
    let min = sorted[0];
    let max = sorted[n - 1];
    RequestStats { name, avg, max, min, p95, count, errors }
}

} // verus!
