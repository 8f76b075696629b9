//! What the numbers of a report say of the measurements themselves.

use vstd::multiset::Multiset;
use vstd::prelude::*;

use crate::stats::{
    ascending, law_ascending_is_the_sorted_arrangement, lemma_order_is_complete, median_round,
    report, round_p50, rounds_view, stable_order, summarize, total_bytes, Report, Summary,
};

verus! {

/// Counting what meets a condition does not depend on the order.
proof fn lemma_filter_multiset<A>(values: Seq<A>, keep: spec_fn(A) -> bool)
    ensures
        values.filter(keep).to_multiset() == values.to_multiset().filter(keep),
        values.filter(keep).len() == values.to_multiset().filter(keep).len(),
    decreases values.len(),
{
    broadcast use vstd::multiset::group_multiset_axioms;

    values.filter(keep).to_multiset_ensures();
    if values.len() == 0 {
        reveal(Seq::filter);
        values.to_multiset_ensures();
        assert(values.filter(keep).to_multiset() =~= values.to_multiset().filter(keep)) by {
            assert(values.to_multiset() =~= Multiset::<A>::empty());
        }
    } else {
        let earlier = values.drop_last();
        let last = values.last();
        lemma_filter_multiset(earlier, keep);
        assert(earlier.push(last) =~= values);
        earlier.lemma_filter_push(last, keep);
        vstd::seq_lib::to_multiset_build(earlier, last);
        if keep(last) {
            vstd::seq_lib::to_multiset_build(earlier.filter(keep), last);
        }
        assert(values.filter(keep).to_multiset() =~= values.to_multiset().filter(keep));
    }
}

/// What all meets a condition is kept as a whole.
proof fn lemma_filter_keeps_all<A>(values: Seq<A>, keep: spec_fn(A) -> bool)
    requires
        forall|i: int| 0 <= i < values.len() ==> keep(#[trigger] values[i]),
    ensures
        values.filter(keep) == values,
    decreases values.len(),
{
    reveal(Seq::filter);
    if values.len() > 0 {
        let earlier = values.drop_last();
        assert forall|i: int| 0 <= i < earlier.len() implies keep(#[trigger] earlier[i]) by {
            assert(keep(values[i]));
        }
        lemma_filter_keeps_all(earlier, keep);
        assert(keep(values[values.len() - 1]));
        assert(earlier.push(values.last()) =~= values);
    }
}

/// What nothing meets keeps nothing.
proof fn lemma_filter_keeps_none<A>(values: Seq<A>, keep: spec_fn(A) -> bool)
    requires
        forall|i: int| 0 <= i < values.len() ==> !keep(#[trigger] values[i]),
    ensures
        values.filter(keep).len() == 0,
    decreases values.len(),
{
    reveal(Seq::filter);
    if values.len() > 0 {
        let earlier = values.drop_last();
        assert forall|i: int| 0 <= i < earlier.len() implies !keep(#[trigger] earlier[i]) by {
            assert(!keep(values[i]));
        }
        lemma_filter_keeps_none(earlier, keep);
        assert(!keep(values[values.len() - 1]));
    }
}

/// The value at `rank` of the ascending arrangement has `rank` others at or below it and the
/// rest at or above it.
proof fn lemma_rank(latencies: Seq<u128>, rank: int)
    requires
        0 <= rank < latencies.len(),
    ensures
        latencies.contains(ascending(latencies)[rank]),
        latencies.filter(|x: u128| x <= ascending(latencies)[rank]).len() >= rank + 1,
        latencies.filter(|x: u128| x >= ascending(latencies)[rank]).len() >= latencies.len() - rank,
{
    let sorted = ascending(latencies);
    let leq = |a: u128, b: u128| a <= b;
    law_ascending_is_the_sorted_arrangement(latencies, sorted);
    let value = sorted[rank];
    let low = |x: u128| x <= value;
    let high = |x: u128| x >= value;
    assert forall|i: int, j: int| 0 <= i <= j < sorted.len() implies sorted[i] <= sorted[j] by {
        if i < j {
            assert(leq(sorted[i], sorted[j]));
        }
    }
    let head = sorted.take(rank + 1);
    let tail = sorted.skip(rank);
    assert(head + sorted.skip(rank + 1) =~= sorted);
    assert(sorted.take(rank) + tail =~= sorted);
    assert forall|i: int| 0 <= i < head.len() implies low(#[trigger] head[i]) by {
        assert(sorted[i] <= sorted[rank]);
    }
    assert forall|i: int| 0 <= i < tail.len() implies high(#[trigger] tail[i]) by {
        assert(sorted[rank] <= sorted[rank + i]);
    }
    lemma_filter_keeps_all(head, low);
    lemma_filter_keeps_all(tail, high);
    Seq::filter_distributes_over_add(head, sorted.skip(rank + 1), low);
    Seq::filter_distributes_over_add(sorted.take(rank), tail, high);
    lemma_filter_multiset(sorted, low);
    lemma_filter_multiset(latencies, low);
    lemma_filter_multiset(sorted, high);
    lemma_filter_multiset(latencies, high);
    sorted.to_multiset_ensures();
    latencies.to_multiset_ensures();
    assert(sorted.contains(value));
    assert(latencies.to_multiset().count(value) > 0);
}

/// `summarize` picks its numbers by rank, counted on the latencies themselves. The minimum and
/// the maximum are measured and bound all latencies. Each percentile is measured; the latencies
/// at or below it are more than its share of all, rounded down, and those at or above it make up
/// at least the rest.
pub proof fn law_summary_counts(latencies: &[u128], summary: Summary)
    requires
        0 < latencies@.len(),
        call_ensures(summarize, (latencies,), summary),
    ensures
        latencies@.contains(summary.min),
        latencies@.contains(summary.p50),
        latencies@.contains(summary.p95),
        latencies@.contains(summary.p99),
        latencies@.contains(summary.max),
        forall|i: int|
            0 <= i < latencies@.len() ==> summary.min <= #[trigger] latencies@[i] <= summary.max,
        latencies@.filter(|x: u128| x <= summary.p50).len() >= latencies@.len() / 2 + 1,
        latencies@.filter(|x: u128| x >= summary.p50).len() >= latencies@.len() - latencies@.len()
            / 2,
        latencies@.filter(|x: u128| x <= summary.p95).len() >= latencies@.len() * 95 / 100 + 1,
        latencies@.filter(|x: u128| x >= summary.p95).len() >= latencies@.len() - latencies@.len()
            * 95 / 100,
        latencies@.filter(|x: u128| x <= summary.p99).len() >= latencies@.len() * 99 / 100 + 1,
        latencies@.filter(|x: u128| x >= summary.p99).len() >= latencies@.len() - latencies@.len()
            * 99 / 100,
{
    let count = latencies@.len() as int;
    lemma_rank(latencies@, count / 2);
    lemma_rank(latencies@, count * 95 / 100);
    lemma_rank(latencies@, count * 99 / 100);
    lemma_rank(latencies@, 0);
    lemma_rank(latencies@, count - 1);
    let low = |x: u128| x >= summary.min;
    let high = |x: u128| x <= summary.max;
    lemma_all_kept(latencies@, low);
    lemma_all_kept(latencies@, high);
    assert forall|i: int| 0 <= i < count implies summary.min <= #[trigger] latencies@[i]
        <= summary.max by {
        assert(low(latencies@[i]));
        assert(high(latencies@[i]));
    }
}

/// Where as many values are kept as there are, each of them meets the condition.
proof fn lemma_all_kept<A>(values: Seq<A>, keep: spec_fn(A) -> bool)
    requires
        values.filter(keep).len() >= values.len(),
    ensures
        forall|i: int| 0 <= i < values.len() ==> keep(#[trigger] values[i]),
    decreases values.len(),
{
    reveal(Seq::filter);
    if values.len() > 0 {
        let earlier = values.drop_last();
        earlier.lemma_filter_len(keep);
        lemma_all_kept(earlier, keep);
        assert forall|i: int| 0 <= i < values.len() implies keep(#[trigger] values[i]) by {
            if i < earlier.len() {
                assert(keep(earlier[i]));
            }
        }
    }
}

/// `round_p50` gives the same number as the summary of the round, and it lies in the middle of
/// the latencies themselves.
pub proof fn law_round_p50_counts(latencies: &[u128], p50: u128, summary: Summary)
    requires
        0 < latencies@.len(),
        call_ensures(round_p50, (latencies,), p50),
        call_ensures(summarize, (latencies,), summary),
    ensures
        p50 == summary.p50,
        latencies@.contains(p50),
        latencies@.filter(|x: u128| x <= p50).len() >= latencies@.len() / 2 + 1,
        latencies@.filter(|x: u128| x >= p50).len() >= latencies@.len() - latencies@.len() / 2,
{
    lemma_rank(latencies@, latencies@.len() as int / 2);
}

/// Measuring the same latencies in another order changes no number of their summary.
pub proof fn law_summaries_ignore_order(
    left: &[u128],
    right: &[u128],
    left_summary: Summary,
    right_summary: Summary,
)
    requires
        left@.to_multiset() == right@.to_multiset(),
        call_ensures(summarize, (left,), left_summary),
        call_ensures(summarize, (right,), right_summary),
    ensures
        left_summary == right_summary,
{
    crate::stats::law_summary_ignores_order(left@, right@);
}

/// The rounds that come before a round: those with a smaller key, and those with the same key
/// that stand in front of it. `median_round` picks the round that has just half of all rounds,
/// rounded down, before it.
pub proof fn law_median_counts(keys: &[u64], median: usize)
    requires
        0 < keys@.len(),
        call_ensures(median_round, (keys,), median),
    ensures
        median < keys@.len(),
        Seq::new(keys@.len(), |i: int| i).filter(
            |i: int|
                keys@[i] < keys@[median as int] || (keys@[i] == keys@[median as int] && i < median),
        ).len() == keys@.len() / 2,
{
    let count = keys@.len() as int;
    let order = stable_order(keys@);
    let half = count / 2;
    let all = Seq::new(keys@.len(), |i: int| i);
    let before = |i: int|
        keys@[i] < keys@[median as int] || (keys@[i] == keys@[median as int] && i < median);
    lemma_order_is_complete(keys@, order);
    assert(order[half] == median);
    let head = order.take(half);
    let tail = order.skip(half);
    assert(head + tail =~= order);
    assert forall|i: int| 0 <= i < head.len() implies before(#[trigger] head[i]) by {
        assert(head[i] == order[i]);
        assert(keys@[order[i]] < keys@[order[half]] || keys@[order[i]] == keys@[order[half]]
            && order[i] < order[half]);
    }
    assert forall|i: int| 0 <= i < tail.len() implies !before(#[trigger] tail[i]) by {
        assert(tail[i] == order[half + i]);
        if i > 0 {
            assert(keys@[order[half]] < keys@[order[half + i]] || keys@[order[half]]
                == keys@[order[half + i]] && order[half] < order[half + i]);
        }
    }
    lemma_filter_keeps_all(head, before);
    lemma_filter_keeps_none(tail, before);
    Seq::filter_distributes_over_add(head, tail, before);
    assert(order.filter(before).len() == half);
    assert(all.to_multiset() =~= order.to_multiset()) by {
        assert(all.no_duplicates());
        all.lemma_multiset_has_no_duplicates();
        order.lemma_multiset_has_no_duplicates();
        all.to_multiset_ensures();
        order.to_multiset_ensures();
        assert forall|x: int| #[trigger]
            all.to_multiset().count(x) == order.to_multiset().count(x) by {
            assert(all.contains(x) <==> 0 <= x < count) by {
                if 0 <= x < count {
                    assert(all[x] == x);
                }
            }
            assert(order.contains(x) <==> 0 <= x < count);
        }
    }
    lemma_filter_multiset(order, before);
    lemma_filter_multiset(all, before);
}

/// A report is on the round that `median_round` picks from the keys, and its numbers are those
/// that `summarize` gives for that round's latencies.
pub proof fn law_report_is_on_the_median_round(
    rounds: &[Vec<u128>],
    keys: &[u64],
    result: Report,
    median: usize,
    latencies: &[u128],
    summary: Summary,
)
    requires
        0 < keys@.len() == rounds@.len(),
        call_ensures(report, (rounds, keys), result),
        call_ensures(median_round, (keys,), median),
        latencies@ == rounds@[median as int]@,
        call_ensures(summarize, (latencies,), summary),
    ensures
        result.median == median,
        result.summary == summary,
{
    assert(rounds_view(rounds@)[median as int] == latencies@);
}

/// A round moves every message twice, there and back.
pub proof fn law_bytes_go_both_ways(msg_size: usize, count: usize, total: u64)
    requires
        call_ensures(total_bytes, (msg_size, count), total),
    ensures
        total == msg_size * count + msg_size * count,
{
    assert(msg_size * count * 2 == msg_size * count + msg_size * count) by (nonlinear_arith);
}

} // verus!
