//! Grouping records by endpoint and summarising each group and the whole run.

use crate::percentile::{get_percentile, lemma_sorted_values, percentile_of, sort_ascending, sorted_values};
use crate::record::{
    instant_of, is_error, is_error_status, malformed_field, record_ok, validate_records, ReportError,
    Stats,
};
use crate::window::{window_nanos, window_seconds, window_seconds_of};
use rayon::iter::{IntoParallelRefIterator, ParallelIterator};
use vstd::arithmetic::div_mod::{lemma_div_multiples_vanish_fancy, lemma_fundamental_div_mod};
use vstd::prelude::*;

verus! {

/// Distinct endpoint names, in order of first appearance.
pub open spec fn names_in_order(recs: Seq<Stats>) -> Seq<Seq<char>>
    decreases recs.len(),
{
    if recs.len() == 0 {
        Seq::empty()
    } else {
        let prev = names_in_order(recs.drop_last());
        if prev.contains(recs.last().name@) {
            prev
        } else {
            prev.push(recs.last().name@)
        }
    }
}

/// Latencies of the records named `name`, in input order.
pub open spec fn latencies_named(recs: Seq<Stats>, name: Seq<char>) -> Seq<u128>
    decreases recs.len(),
{
    if recs.len() == 0 {
        Seq::empty()
    } else {
        let prev = latencies_named(recs.drop_last(), name);
        if recs.last().name@ == name {
            prev.push(recs.last().latency)
        } else {
            prev
        }
    }
}

/// Statuses of the records named `name`, in input order.
pub open spec fn statuses_named(recs: Seq<Stats>, name: Seq<char>) -> Seq<u16>
    decreases recs.len(),
{
    if recs.len() == 0 {
        Seq::empty()
    } else {
        let prev = statuses_named(recs.drop_last(), name);
        if recs.last().name@ == name {
            prev.push(recs.last().status)
        } else {
            prev
        }
    }
}

/// How many of the statuses mark an error.
pub open spec fn errors_in(s: Seq<u16>) -> nat
    decreases s.len(),
{
    if s.len() == 0 {
        0
    } else {
        errors_in(s.drop_last()) + if is_error_status(s.last()) {
            1nat
        } else {
            0nat
        }
    }
}

/// The sum of the values.
pub open spec fn sum_of(s: Seq<u128>) -> int
    decreases s.len(),
{
    if s.len() == 0 {
        0
    } else {
        sum_of(s.drop_last()) + s.last()
    }
}

/// The sizes of the groups of the given names, added up.
pub open spec fn count_over(recs: Seq<Stats>, names: Seq<Seq<char>>) -> int
    decreases names.len(),
{
    if names.len() == 0 {
        0
    } else {
        count_over(recs, names.drop_last()) + latencies_named(recs, names.last()).len()
    }
}

/// The error counts of the groups of the given names, added up.
pub open spec fn errors_over(recs: Seq<Stats>, names: Seq<Seq<char>>) -> int
    decreases names.len(),
{
    if names.len() == 0 {
        0
    } else {
        errors_over(recs, names.drop_last()) + errors_in(statuses_named(recs, names.last()))
    }
}

/// The statistics of one endpoint. Latencies are in milliseconds; the rates
/// are left to the caller, from `count`, `error_count` and the window.
#[derive(Clone, Debug)]
pub struct EndpointSummary {
    pub name: String,
    pub count: usize,
    pub min: u128,
    pub avg: u128,
    pub max: u128,
    pub p90: u128,
    pub p95: u128,
    pub p99: u128,
    pub error_count: usize,
}

/// The statistics of the whole run.
#[derive(Clone, Copy, Debug, PartialEq, Eq, Structural)]
pub struct GlobalSummary {
    pub window_seconds: u128,
    pub total_count: usize,
    pub total_error_count: usize,
}

/// One summary per endpoint, in order of first appearance, and the total.
#[derive(Clone, Debug)]
pub struct Report {
    pub endpoints: Vec<EndpointSummary>,
    pub global: GlobalSummary,
}

/// `e` summarises the group `name` with these latencies and statuses.
pub open spec fn summary_of(
    e: EndpointSummary,
    name: Seq<char>,
    lat: Seq<u128>,
    st: Seq<u16>,
) -> bool {
    let s = sorted_values(lat);
    &&& e.name@ == name
    &&& e.count == lat.len()
    &&& e.min == s[0]
    &&& e.max == s[lat.len() - 1]
    &&& e.avg == sum_of(lat) / lat.len() as int
    &&& e.p90 == percentile_of(s, 90)
    &&& e.p95 == percentile_of(s, 95)
    &&& e.p99 == percentile_of(s, 99)
    &&& e.error_count == errors_in(st)
}

/// `rep` is the report of the records over a window of `secs` seconds.
pub open spec fn report_of(recs: Seq<Stats>, rep: Report, secs: int) -> bool {
    let names = names_in_order(recs);
    &&& rep.global.window_seconds == secs
    &&& rep.global.total_count == recs.len()
    &&& rep.global.total_error_count == errors_over(recs, names)
    &&& rep.endpoints@.len() == names.len()
    &&& forall|i: int|
        0 <= i < names.len() ==> summary_of(
            #[trigger] rep.endpoints@[i],
            names[i],
            latencies_named(recs, names[i]),
            statuses_named(recs, names[i]),
        )
}

/// The first malformed record is the one that `e` reports.
pub open spec fn reports_first_malformed(recs: Seq<Stats>, e: ReportError) -> bool {
    e matches ReportError::MalformedRecord { field, position } && position < recs.len()
        && !record_ok(recs[position as int]) && field == malformed_field(recs[position as int])
        && forall|k: int| 0 <= k < position ==> record_ok(#[trigger] recs[k])
}

/// Every record is well formed.
pub open spec fn all_records_ok(recs: Seq<Stats>) -> bool {
    forall|k: int| 0 <= k < recs.len() ==> record_ok(#[trigger] recs[k])
}

/// The window of well-formed, non-empty records, in whole seconds, when positive.
pub open spec fn run_window(recs: Seq<Stats>) -> Option<int> {
    window_seconds_of(
        window_nanos(
            instant_of(recs[0].timestamp@).unwrap(),
            recs[0].latency,
            instant_of(recs.last().timestamp@).unwrap(),
        ),
    )
}

proof fn lemma_push_drop(recs: Seq<Stats>, r: Stats)
    ensures
        recs.push(r).drop_last() == recs,
        recs.push(r).last() == r,
{
    assert(recs.push(r).drop_last() =~= recs);
}

/// A group has as many statuses as latencies.
proof fn lemma_named_lengths(recs: Seq<Stats>, name: Seq<char>)
    ensures
        latencies_named(recs, name).len() == statuses_named(recs, name).len(),
        errors_in(statuses_named(recs, name)) <= statuses_named(recs, name).len(),
    decreases recs.len(),
{
    if recs.len() > 0 {
        lemma_named_lengths(recs.drop_last(), name);
        let st = statuses_named(recs, name);
        if st.len() > 0 {
            lemma_errors_bounded(st);
        }
    }
}

proof fn lemma_errors_bounded(s: Seq<u16>)
    ensures
        errors_in(s) <= s.len(),
    decreases s.len(),
{
    if s.len() > 0 {
        lemma_errors_bounded(s.drop_last());
    }
}

/// The names are distinct, and the name of every record is among them;
/// a name is among them exactly when its group is not empty.
proof fn lemma_names(recs: Seq<Stats>)
    ensures
        names_in_order(recs).no_duplicates(),
        forall|k: int| 0 <= k < recs.len() ==> names_in_order(recs).contains(#[trigger] recs[k].name@),
        forall|n: Seq<char>|
            #![trigger latencies_named(recs, n)]
            names_in_order(recs).contains(n) <==> latencies_named(recs, n).len() > 0,
    decreases recs.len(),
{
    if recs.len() > 0 {
        let prev = recs.drop_last();
        let r = recs.last();
        let pn = names_in_order(prev);
        lemma_names(prev);
        assert forall|x: Seq<char>|
            names_in_order(recs).contains(x) <==> (pn.contains(x) || x == r.name@) by {
            if !pn.contains(r.name@) {
                assert(names_in_order(recs) == pn.push(r.name@));
                if pn.contains(x) {
                    let k = choose|k: int| 0 <= k < pn.len() && pn[k] == x;
                    assert(pn.push(r.name@)[k] == x);
                }
                if x == r.name@ {
                    assert(pn.push(r.name@)[pn.len() as int] == x);
                }
                if names_in_order(recs).contains(x) {
                    let k = choose|k: int| 0 <= k < pn.len() + 1 && pn.push(r.name@)[k] == x;
                    if k < pn.len() {
                        assert(pn[k] == x);
                    }
                }
            }
        }
        if !pn.contains(r.name@) {
            assert forall|a: int, b: int|
                0 <= a < b < pn.len() + 1 implies pn.push(r.name@)[a] != pn.push(r.name@)[b] by {
                if b == pn.len() {
                    assert(pn[a] == pn.push(r.name@)[a]);
                }
            }
        }
        assert forall|k: int| 0 <= k < recs.len() implies names_in_order(recs).contains(
            #[trigger] recs[k].name@,
        ) by {
            if k < recs.len() - 1 {
                assert(prev[k] == recs[k]);
                assert(pn.contains(prev[k].name@));
            }
        }
        assert forall|n: Seq<char>| #![trigger latencies_named(recs, n)]
            names_in_order(recs).contains(n) <==> latencies_named(recs, n).len() > 0 by {
            assert(latencies_named(prev, n).len() > 0 <==> pn.contains(n));
        }
    }
}

/// Adding one record adds one to the count of its own group only.
proof fn lemma_count_push(recs: Seq<Stats>, r: Stats, names: Seq<Seq<char>>)
    requires
        names.no_duplicates(),
    ensures
        count_over(recs.push(r), names) == count_over(recs, names) + if names.contains(r.name@) {
            1int
        } else {
            0int
        },
        errors_over(recs.push(r), names) == errors_over(recs, names) + if names.contains(r.name@)
            && is_error_status(r.status) {
            1int
        } else {
            0int
        },
    decreases names.len(),
{
    lemma_push_drop(recs, r);
    if names.len() > 0 {
        let init = names.drop_last();
        assert(init.no_duplicates());
        lemma_count_push(recs, r, init);
        let st = statuses_named(recs, names.last());
        let st2 = statuses_named(recs.push(r), names.last());
        if names.last() == r.name@ {
            assert(st2 == st.push(r.status));
            assert(st.push(r.status).drop_last() =~= st);
            assert(!init.contains(r.name@));
        } else {
            assert(names.contains(r.name@) ==> init.contains(r.name@)) by {
                if names.contains(r.name@) {
                    let k = choose|k: int| 0 <= k < names.len() && names[k] == r.name@;
                    assert(init[k] == r.name@);
                }
            }
            assert(init.contains(r.name@) ==> names.contains(r.name@)) by {
                if init.contains(r.name@) {
                    let k = choose|k: int| 0 <= k < init.len() && init[k] == r.name@;
                    assert(names[k] == r.name@);
                }
            }
        }
    }
}

/// Grouping is a partition: the names are distinct, every record's name is
/// one of them, and the group sizes add up to the number of records.
pub proof fn lemma_grouping_is_partition(recs: Seq<Stats>)
    ensures
        names_in_order(recs).no_duplicates(),
        forall|k: int| 0 <= k < recs.len() ==> names_in_order(recs).contains(#[trigger] recs[k].name@),
        count_over(recs, names_in_order(recs)) == recs.len(),
    decreases recs.len(),
{
    lemma_names(recs);
    if recs.len() > 0 {
        let prev = recs.drop_last();
        let r = recs.last();
        assert(prev.push(r) =~= recs);
        lemma_grouping_is_partition(prev);
        let names = names_in_order(prev);
        lemma_count_push(prev, r, names);
        if !names.contains(r.name@) {
            lemma_names(prev);
            assert(latencies_named(prev, r.name@).len() == 0);
            assert(names.push(r.name@).drop_last() =~= names);
        }
    }
}

/// The error total of all groups is at most the number of records.
pub proof fn lemma_errors_at_most_count(recs: Seq<Stats>, names: Seq<Seq<char>>)
    ensures
        errors_over(recs, names) <= count_over(recs, names),
    decreases names.len(),
{
    if names.len() > 0 {
        lemma_errors_at_most_count(recs, names.drop_last());
        lemma_named_lengths(recs, names.last());
    }
}

/// Where no record has an error status, no group and no total counts an error.
pub proof fn lemma_no_errors(recs: Seq<Stats>)
    requires
        forall|k: int| 0 <= k < recs.len() ==> !is_error_status(#[trigger] recs[k].status),
    ensures
        forall|n: Seq<char>| errors_in(#[trigger] statuses_named(recs, n)) == 0,
        errors_over(recs, names_in_order(recs)) == 0,
    decreases recs.len(),
{
    if recs.len() > 0 {
        let prev = recs.drop_last();
        assert forall|k: int| 0 <= k < prev.len() implies !is_error_status(
            #[trigger] prev[k].status,
        ) by {
            assert(prev[k] == recs[k]);
        }
        lemma_no_errors(prev);
        assert forall|n: Seq<char>| errors_in(#[trigger] statuses_named(recs, n)) == 0 by {
            let st = statuses_named(prev, n);
            if recs.last().name@ == n {
                assert(st.push(recs.last().status).drop_last() =~= st);
            }
        }
    }
    lemma_zero_errors_over(recs, names_in_order(recs));
}

proof fn lemma_zero_errors_over(recs: Seq<Stats>, names: Seq<Seq<char>>)
    requires
        forall|n: Seq<char>| errors_in(#[trigger] statuses_named(recs, n)) == 0,
    ensures
        errors_over(recs, names) == 0,
    decreases names.len(),
{
    if names.len() > 0 {
        lemma_zero_errors_over(recs, names.drop_last());
        assert(errors_in(statuses_named(recs, names.last())) == 0);
    }
}

/// The records of one endpoint: its name, latencies and statuses.
struct Group {
    name: String,
    latencies: Vec<u128>,
    statuses: Vec<u16>,
}

spec fn groups_match(recs: Seq<Stats>, gs: Seq<Group>) -> bool {
    let names = names_in_order(recs);
    &&& gs.len() == names.len()
    &&& forall|g: int|
        0 <= g < gs.len() ==> {
            &&& (#[trigger] gs[g]).name@ == names[g]
            &&& gs[g].latencies@ == latencies_named(recs, names[g])
            &&& gs[g].statuses@ == statuses_named(recs, names[g])
        }
}

/// Partitions the records by name in one pass, groups in order of first appearance.
fn group_records(records: &Vec<Stats>) -> (groups: Vec<Group>)
    ensures
        groups_match(records@, groups@),
{
    let mut groups: Vec<Group> = Vec::new();
    let mut i: usize = 0;
    assert(records@.subrange(0, 0) =~= Seq::<Stats>::empty());
    while i < records.len()
        invariant
            i <= records@.len(),
            groups_match(records@.subrange(0, i as int), groups@),
        decreases records@.len() - i,
    {
        let rec = &records[i];
        let ghost prev = records@.subrange(0, i as int);
        let ghost next = records@.subrange(0, i + 1);
        proof {
            assert(prev.push(records@[i as int]) =~= next);
            lemma_push_drop(prev, records@[i as int]);
            lemma_names(prev);
        }
        let mut j: usize = 0;
        while j < groups.len() && !(groups[j].name == rec.name)
            invariant
                j <= groups@.len(),
                forall|m: int| 0 <= m < j ==> (#[trigger] groups@[m]).name@ != rec.name@,
            decreases groups@.len() - j,
        {
            j = j + 1;
        }
        let ghost old_groups = groups@;
        if j < groups.len() {
            groups[j].latencies.push(rec.latency);
            groups[j].statuses.push(rec.status);
            proof {
                assert(names_in_order(prev).contains(rec.name@)) by {
                    assert(names_in_order(prev)[j as int] == rec.name@);
                }
                assert forall|g: int| 0 <= g < groups@.len() && g != j implies (#[trigger] groups@[
                    g
                ]).name@ != rec.name@ by {
                    assert(names_in_order(prev)[g] != names_in_order(prev)[j as int]);
                }
                assert(names_in_order(next) == names_in_order(prev));
                assert forall|g: int| 0 <= g < groups@.len() implies {
                    &&& (#[trigger] groups@[g]).name@ == names_in_order(next)[g]
                    &&& groups@[g].latencies@ == latencies_named(next, names_in_order(next)[g])
                    &&& groups@[g].statuses@ == statuses_named(next, names_in_order(next)[g])
                } by {
                    if g != j {
                        assert(groups@[g] == old_groups[g]);
                    }
                }
            }
        } else {
            proof {
                assert forall|g: int| 0 <= g < groups@.len() implies (#[trigger] groups@[
                    g
                ]).name@ != rec.name@ by {}
                assert(!names_in_order(prev).contains(rec.name@)) by {
                    if names_in_order(prev).contains(rec.name@) {
                        let k = choose|k: int|
                            0 <= k < names_in_order(prev).len() && names_in_order(prev)[k]
                                == rec.name@;
                        assert(groups@[k].name@ == names_in_order(prev)[k]);
                    }
                }
                assert(latencies_named(prev, rec.name@).len() == 0);
                assert(statuses_named(prev, rec.name@).len() == 0) by {
                    lemma_named_lengths(prev, rec.name@);
                }
                assert(seq![rec.latency] =~= latencies_named(prev, rec.name@).push(rec.latency));
                assert(seq![rec.status] =~= statuses_named(prev, rec.name@).push(rec.status));
            }
            groups.push(
                Group { name: rec.name.clone(), latencies: vec![rec.latency], statuses: vec![rec.status] },
            );
            proof {
                assert(names_in_order(next) == names_in_order(prev).push(rec.name@));
                assert forall|g: int| 0 <= g < groups@.len() implies {
                    &&& (#[trigger] groups@[g]).name@ == names_in_order(next)[g]
                    &&& groups@[g].latencies@ == latencies_named(next, names_in_order(next)[g])
                    &&& groups@[g].statuses@ == statuses_named(next, names_in_order(next)[g])
                } by {
                    if g < old_groups.len() {
                        assert(groups@[g] == old_groups[g]);
                        assert(old_groups[g].name@ != rec.name@);
                    }
                }
            }
        }
        i = i + 1;
    }
    assert(records@.subrange(0, records@.len() as int) =~= records@);
    groups
}

/// Relies on rayon's `par_iter`, `filter` and `count`: how many statuses pass
/// `is_error`.
#[verifier::external_body]
fn count_errors(statuses: &Vec<u16>) -> (r: usize)
    ensures
        r == errors_in(statuses@),
{
    statuses.par_iter().filter(|s| is_error(**s)).count()
}

/// The mean of the values, rounded down, computed without overflow.
pub fn mean_floor(values: &Vec<u128>) -> (r: u128)
    requires
        values@.len() > 0,
    ensures
        r == sum_of(values@) / values@.len() as int,
{
    let n: u128 = values.len() as u128;
    let mut q: u128 = 0;
    let mut rem: u128 = 0;
    let mut i: usize = 0;
    assert(values@.subrange(0, 0) =~= Seq::<u128>::empty());
    while i < values.len()
        invariant
            n == values@.len(),
            n > 0,
            i <= n,
            rem < n,
            q * n + rem == sum_of(values@.subrange(0, i as int)),
            sum_of(values@.subrange(0, i as int)) <= i * (u128::MAX as int),
        decreases values@.len() - i,
    {
        let x = values[i];
        let qx = x / n;
        let rx = x % n;
        let ghost prefix = values@.subrange(0, i as int);
        let ghost next = values@.subrange(0, i + 1);
        proof {
            assert(next.drop_last() =~= prefix);
            lemma_fundamental_div_mod(x as int, n as int);
            assert(sum_of(next) == sum_of(prefix) + x);
            assert(sum_of(next) <= (i + 1) * (u128::MAX as int)) by (nonlinear_arith)
                requires
                    sum_of(next) == sum_of(prefix) + x,
                    sum_of(prefix) <= i * (u128::MAX as int),
                    x <= u128::MAX,
            ;
            assert((i + 1) * (u128::MAX as int) <= n * (u128::MAX as int)) by (nonlinear_arith)
                requires
                    i + 1 <= n,
            ;
        }
        let s: u128 = rem + rx;
        let ghost nq: int = if s >= n {
            q + qx + 1
        } else {
            q + qx
        };
        let ghost nr: int = if s >= n {
            s - n
        } else {
            s as int
        };
        proof {
            assert(nq * n + nr == sum_of(next)) by (nonlinear_arith)
                requires
                    q * n + rem == sum_of(prefix),
                    x == n * qx + rx,
                    sum_of(next) == sum_of(prefix) + x,
                    s == rem + rx,
                    nq == (if s >= n { q + qx + 1 } else { q + qx }),
                    nr == (if s >= n { s - n } else { s as int }),
            ;
            assert(nq <= u128::MAX) by (nonlinear_arith)
                requires
                    nq * n + nr == sum_of(next),
                    sum_of(next) <= n * (u128::MAX as int),
                    nr >= 0,
                    n > 0,
            ;
        }
        if s >= n {
            q = q + qx + 1;
            rem = s - n;
        } else {
            q = q + qx;
            rem = s;
        }
        i = i + 1;
    }
    proof {
        assert(values@.subrange(0, values@.len() as int) =~= values@);
        assert(q * n == n * q) by (nonlinear_arith);
        lemma_div_multiples_vanish_fancy(q as int, rem as int, n as int);
    }
    q
}

/// Summarises one endpoint from its latencies and statuses: count, min,
/// floor mean, max, the 90th, 95th and 99th nearest-rank percentiles and
/// the error count. Fails where there are no latencies.
pub fn summarize_endpoint(name: &String, latencies: &Vec<u128>, statuses: &Vec<u16>) -> (r: Result<
    EndpointSummary,
    ReportError,
>)
    ensures
        latencies@.len() == 0 ==> r matches Err(ReportError::InsufficientData),
        latencies@.len() > 0 ==> (r matches Ok(e) && summary_of(e, name@, latencies@, statuses@)),
{
    if latencies.len() == 0 {
        return Err(ReportError::InsufficientData);
    }
    let mut sorted = latencies.clone();
    assert(sorted@ =~= latencies@);
    sort_ascending(&mut sorted);
    proof {
        lemma_sorted_values(latencies@);
    }
    let n = sorted.len();
    let min = sorted[0];
    let max = sorted[n - 1];
    let p90 = get_percentile(&sorted, 90);
    let p95 = get_percentile(&sorted, 95);
    let p99 = get_percentile(&sorted, 99);
    let avg = mean_floor(latencies);
    let error_count = count_errors(statuses);
    Ok(
        EndpointSummary {
            name: name.clone(),
            count: latencies.len(),
            min,
            avg,
            max,
            p90,
            p95,
            p99,
            error_count,
        },
    )
}

/// Aggregates a run: fails on no records, on the first malformed record and
/// on a window under one second; otherwise summarises every endpoint, in
/// order of first appearance, and the whole run.
pub fn aggregate(records: &Vec<Stats>) -> (r: Result<Report, ReportError>)
    ensures
        records@.len() == 0 ==> r matches Err(ReportError::EmptyInput),
        records@.len() > 0 && !all_records_ok(records@) ==> (r matches Err(e)
            && reports_first_malformed(records@, e)),
        records@.len() > 0 && all_records_ok(records@) && run_window(records@) is None ==> r matches Err(
            ReportError::DegenerateWindow,
        ),
        records@.len() > 0 && all_records_ok(records@) ==> (run_window(records@) matches Some(secs)
            ==> (r matches Ok(rep) && report_of(records@, rep, secs))),
{
    if records.len() == 0 {
        return Err(ReportError::EmptyInput);
    }
    match validate_records(records) {
        Ok(()) => {},
        Err(e) => {
            return Err(e);
        },
    }
    let last_index = records.len() - 1;
    proof {
        assert(record_ok(records@[0]));
        assert(record_ok(records@[last_index as int]));
    }
    let first = records[0].instant().unwrap();
    let last = records[last_index].instant().unwrap();
    let secs = match window_seconds(first, records[0].latency, last) {
        Ok(s) => s,
        Err(e) => {
            return Err(e);
        },
    };
    let groups = group_records(records);
    let ghost recs = records@;
    let ghost names = names_in_order(recs);
    proof {
        lemma_grouping_is_partition(recs);
        lemma_names(recs);
        assert(names.take(0) =~= Seq::<Seq<char>>::empty());
    }
    let mut endpoints: Vec<EndpointSummary> = Vec::new();
    let mut total_errors: u128 = 0;
    let mut g: usize = 0;
    while g < groups.len()
        invariant
            groups_match(recs, groups@),
            names == names_in_order(recs),
            forall|n: Seq<char>|
                #![trigger latencies_named(recs, n)]
                names.contains(n) <==> latencies_named(recs, n).len() > 0,
            g <= groups@.len(),
            endpoints@.len() == g,
            forall|i: int|
                0 <= i < g ==> summary_of(
                    #[trigger] endpoints@[i],
                    names[i],
                    latencies_named(recs, names[i]),
                    statuses_named(recs, names[i]),
                ),
            total_errors == errors_over(recs, names.take(g as int)),
            total_errors <= g * (usize::MAX as int),
        decreases groups@.len() - g,
    {
        let group = &groups[g];
        proof {
            assert(names.contains(names[g as int]));
            assert(names.take(g + 1).drop_last() =~= names.take(g as int));
            assert(names.take(g + 1).last() == names[g as int]);
        }
        match summarize_endpoint(&group.name, &group.latencies, &group.statuses) {
            Ok(e) => {
                total_errors = total_errors + e.error_count as u128;
                endpoints.push(e);
            },
            Err(e) => {
                return Err(e);
            },
        }
        g = g + 1;
    }
    proof {
        assert(names.take(names.len() as int) =~= names);
        lemma_errors_at_most_count(recs, names);
    }
    Ok(
        Report {
            endpoints,
            global: GlobalSummary {
                window_seconds: secs,
                total_count: records.len(),
                total_error_count: total_errors as usize,
            },
        },
    )
}

/// A report is fully determined by the records: two reports that both
/// summarise the same records over the same window agree value for value
/// and endpoint for endpoint.
pub proof fn lemma_report_determined(recs: Seq<Stats>, secs: int, a: Report, b: Report)
    requires
        report_of(recs, a, secs),
        report_of(recs, b, secs),
    ensures
        a.global == b.global,
        a.endpoints@.len() == b.endpoints@.len(),
        forall|i: int|
            0 <= i < a.endpoints@.len() ==> {
                let x = #[trigger] a.endpoints@[i];
                let y = b.endpoints@[i];
                &&& x.name@ == y.name@
                &&& x.count == y.count
                &&& x.min == y.min
                &&& x.avg == y.avg
                &&& x.max == y.max
                &&& x.p90 == y.p90
                &&& x.p95 == y.p95
                &&& x.p99 == y.p99
                &&& x.error_count == y.error_count
            },
{
    let names = names_in_order(recs);
    assert forall|i: int| 0 <= i < a.endpoints@.len() implies a.endpoints@[i].name@
        == b.endpoints@[i].name@ by {
        assert(summary_of(
            a.endpoints@[i],
            names[i],
            latencies_named(recs, names[i]),
            statuses_named(recs, names[i]),
        ));
        assert(summary_of(
            b.endpoints@[i],
            names[i],
            latencies_named(recs, names[i]),
            statuses_named(recs, names[i]),
        ));
    }
}

/// The counts of the endpoint summaries, added up.
pub open spec fn endpoint_count_sum(es: Seq<EndpointSummary>) -> int
    decreases es.len(),
{
    if es.len() == 0 {
        0
    } else {
        endpoint_count_sum(es.drop_last()) + es.last().count
    }
}

/// The error counts of the endpoint summaries, added up.
pub open spec fn endpoint_error_sum(es: Seq<EndpointSummary>) -> int
    decreases es.len(),
{
    if es.len() == 0 {
        0
    } else {
        endpoint_error_sum(es.drop_last()) + es.last().error_count
    }
}

proof fn lemma_sums_prefix(
    recs: Seq<Stats>,
    es: Seq<EndpointSummary>,
    names: Seq<Seq<char>>,
    k: int,
)
    requires
        es.len() == names.len(),
        0 <= k <= es.len(),
        forall|i: int|
            0 <= i < names.len() ==> summary_of(
                #[trigger] es[i],
                names[i],
                latencies_named(recs, names[i]),
                statuses_named(recs, names[i]),
            ),
    ensures
        endpoint_count_sum(es.take(k)) == count_over(recs, names.take(k)),
        endpoint_error_sum(es.take(k)) == errors_over(recs, names.take(k)),
    decreases k,
{
    if k > 0 {
        lemma_sums_prefix(recs, es, names, k - 1);
        assert(es.take(k).drop_last() =~= es.take(k - 1));
        assert(names.take(k).drop_last() =~= names.take(k - 1));
        assert(summary_of(
            es[k - 1],
            names[k - 1],
            latencies_named(recs, names[k - 1]),
            statuses_named(recs, names[k - 1]),
        ));
    }
}

/// In a report, every record is counted in exactly one endpoint: the
/// endpoint counts add up to the total count, and the endpoint error counts
/// to the total error count.
pub proof fn lemma_report_totals(recs: Seq<Stats>, rep: Report, secs: int)
    requires
        report_of(recs, rep, secs),
    ensures
        endpoint_count_sum(rep.endpoints@) == rep.global.total_count,
        endpoint_error_sum(rep.endpoints@) == rep.global.total_error_count,
{
    let names = names_in_order(recs);
    lemma_grouping_is_partition(recs);
    lemma_sums_prefix(recs, rep.endpoints@, names, names.len() as int);
    assert(rep.endpoints@.take(names.len() as int) =~= rep.endpoints@);
    assert(names.take(names.len() as int) =~= names);
}

/// A report of records none of which has an error status counts no error,
/// per endpoint or in total.
pub proof fn lemma_report_without_errors(recs: Seq<Stats>, rep: Report, secs: int)
    requires
        report_of(recs, rep, secs),
        forall|k: int| 0 <= k < recs.len() ==> !is_error_status(#[trigger] recs[k].status),
    ensures
        rep.global.total_error_count == 0,
        forall|i: int| 0 <= i < rep.endpoints@.len() ==> (#[trigger] rep.endpoints@[i]).error_count == 0,
{
    lemma_no_errors(recs);
    let names = names_in_order(recs);
    assert forall|i: int| 0 <= i < rep.endpoints@.len() implies (
    #[trigger] rep.endpoints@[i]).error_count == 0 by {
        assert(errors_in(statuses_named(recs, names[i])) == 0);
    }
}

} // verus!
