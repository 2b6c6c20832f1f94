//! Nearest-rank percentiles over latency values.

use crate::record::ReportError;
use vstd::prelude::*;
use vstd::relations::sorted_by;

verus! {

/// The values in ascending order.
pub open spec fn sorted_values(s: Seq<u128>) -> Seq<u128> {
    s.sort_by(|a: u128, b: u128| a <= b)
}

/// Every element is at most every later one.
pub open spec fn is_ascending(s: Seq<u128>) -> bool {
    forall|i: int, j: int| 0 <= i <= j < s.len() ==> s[i] <= s[j]
}

/// The nearest-rank index of percentile `p` among `len` values: with
/// `rank = p * len / 100`, index 0 when the rank is 0, else `rank - 1`.
pub open spec fn rank_index(p: int, len: int) -> int {
    if p * len / 100 == 0 {
        0
    } else {
        p * len / 100 - 1
    }
}

/// Percentile `p` of values already in ascending order.
pub open spec fn percentile_of(sorted: Seq<u128>, p: int) -> u128 {
    sorted[rank_index(p, sorted.len() as int)]
}

/// Relies on std's `slice::sort`: the same values, in ascending order.
#[verifier::external_body]
pub(crate) fn sort_ascending(v: &mut Vec<u128>)
    ensures
        final(v)@ == sorted_values(old(v)@),
{
    v.sort();
}

/// The sorted sequence holds the same values as the input, as many, in
/// ascending order.
pub proof fn lemma_sorted_values(s: Seq<u128>)
    ensures
        sorted_values(s).len() == s.len(),
        is_ascending(sorted_values(s)),
        sorted_values(s).to_multiset() == s.to_multiset(),
        forall|x: u128| #[trigger] sorted_values(s).contains(x) <==> s.contains(x),
{
    let leq = |a: u128, b: u128| a <= b;
    assert(vstd::relations::total_ordering(leq));
    s.lemma_sort_by_ensures(leq);
    let t = sorted_values(s);
    s.to_multiset_ensures();
    t.to_multiset_ensures();
    assert(sorted_by(t, leq));
    assert forall|i: int, j: int| 0 <= i <= j < t.len() implies t[i] <= t[j] by {
        if i < j {
            assert(leq(t[i], t[j]));
        }
    }
    assert forall|x: u128| #[trigger] t.contains(x) <==> s.contains(x) by {
        assert(t.to_multiset().count(x) == s.to_multiset().count(x));
    }
}

/// The rank index of any percentile from 1 to 99 lies within a non-empty
/// sequence, and grows with the percentile.
pub proof fn lemma_rank_index_bounds(p: int, q: int, len: int)
    requires
        1 <= p <= q <= 99,
        len > 0,
    ensures
        0 <= rank_index(p, len) < len,
        rank_index(p, len) <= rank_index(q, len),
{
    assert(p * len <= q * len) by (nonlinear_arith)
        requires
            p <= q,
            len > 0,
    ;
    assert(q * len <= 100 * len) by (nonlinear_arith)
        requires
            q <= 99,
            len > 0,
    ;
    assert(p * len >= 0) by (nonlinear_arith)
        requires
            p >= 1,
            len > 0,
    ;
    vstd::arithmetic::div_mod::lemma_div_is_ordered(p * len, q * len, 100);
    vstd::arithmetic::div_mod::lemma_div_is_ordered(q * len, 100 * len, 100);
    vstd::arithmetic::div_mod::lemma_div_by_multiple(len, 100);
    assert(100 * len == len * 100);
}

/// A percentile from 1 to 99 of a non-empty sequence is one of its values.
pub proof fn lemma_percentile_is_member(values: Seq<u128>, p: int)
    requires
        values.len() > 0,
        1 <= p <= 99,
    ensures
        values.contains(percentile_of(sorted_values(values), p)),
{
    lemma_sorted_values(values);
    lemma_rank_index_bounds(p, p, values.len() as int);
    let t = sorted_values(values);
    assert(t.contains(t[rank_index(p, t.len() as int)]));
}

/// For fixed values, a higher percentile is never a smaller value.
pub proof fn lemma_percentile_monotone(values: Seq<u128>, p: int, q: int)
    requires
        values.len() > 0,
        1 <= p <= q <= 99,
    ensures
        percentile_of(sorted_values(values), p) <= percentile_of(sorted_values(values), q),
{
    lemma_sorted_values(values);
    let len = values.len() as int;
    lemma_rank_index_bounds(p, q, len);
    lemma_rank_index_bounds(q, q, len);
    let t = sorted_values(values);
    assert(t[rank_index(p, len)] <= t[rank_index(q, len)]);
}

/// In ascending order the first value is the minimum and the last the
/// maximum of the values, and every percentile lies between them.
pub proof fn lemma_sorted_extremes(values: Seq<u128>, p: int)
    requires
        values.len() > 0,
        1 <= p <= 99,
    ensures
        values.contains(sorted_values(values)[0]),
        values.contains(sorted_values(values)[values.len() - 1]),
        forall|x: u128|
            values.contains(x) ==> sorted_values(values)[0] <= x && x <= sorted_values(
                values,
            )[values.len() - 1],
        sorted_values(values)[0] <= percentile_of(sorted_values(values), p),
        percentile_of(sorted_values(values), p) <= sorted_values(values)[values.len() - 1],
{
    lemma_sorted_values(values);
    lemma_rank_index_bounds(p, p, values.len() as int);
    let t = sorted_values(values);
    assert(t.contains(t[0]));
    assert(t.contains(t[t.len() - 1]));
    assert forall|x: u128| values.contains(x) implies t[0] <= x && x <= t[t.len() - 1] by {
        assert(t.contains(x));
        let k = choose|k: int| 0 <= k < t.len() && t[k] == x;
        assert(t[0] <= t[k]);
        assert(t[k] <= t[t.len() - 1]);
    }
}

/// The value at the nearest-rank index of percentile `p` in a vector that the
/// caller has sorted.
pub fn get_percentile(sorted_vector: &Vec<u128>, p: usize) -> (r: u128)
    requires
        sorted_vector@.len() > 0,
        1 <= p <= 99,
    ensures
        r == percentile_of(sorted_vector@, p as int),
{
    let len = sorted_vector.len();
    proof {
        lemma_rank_index_bounds(p as int, p as int, len as int);
    }
    assert((p as u128) * (len as u128) <= 99 * 0xffff_ffff_ffff_ffffu128) by (nonlinear_arith)
        requires
            p <= 99,
            len as int <= 0xffff_ffff_ffff_ffff,
    ;
    let rank: u128 = (p as u128) * (len as u128) / 100;
    if rank == 0 {
        sorted_vector[0]
    } else {
        sorted_vector[(rank - 1) as usize]
    }
}

/// Percentile `p` of the values under the nearest-rank rule: the values are
/// sorted, then indexed by `get_percentile`. Fails on an empty sequence.
pub fn percentile(values: &Vec<u128>, p: usize) -> (r: Result<u128, ReportError>)
    requires
        1 <= p <= 99,
    ensures
        values@.len() == 0 ==> r == Err::<u128, ReportError>(ReportError::InsufficientData),
        values@.len() > 0 ==> r == Ok::<u128, ReportError>(
            percentile_of(sorted_values(values@), p as int),
        ),
{
    if values.len() == 0 {
        return Err(ReportError::InsufficientData);
    }
    let mut sorted = values.clone();
    assert(sorted@ =~= values@);
    sort_ascending(&mut sorted);
    proof {
        lemma_sorted_values(values@);
    }
    Ok(get_percentile(&sorted, p))
}

} // verus!
