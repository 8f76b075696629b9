//! What a benchmark reports of its measurements.

use vstd::prelude::*;
use vstd::relations::{sorted_by, total_ordering};
use vstd::seq_lib::lemma_sorted_unique;
use vstd::set_lib::{lemma_int_range, lemma_subset_equality, set_int_range};

verus! {

/// Values in ascending order.
pub open spec fn ascending(values: Seq<u128>) -> Seq<u128> {
    values.sort_by(|a: u128, b: u128| a <= b)
}

/// `slice::sort` of std, for 128-bit integers: afterwards the same values stand in ascending
/// order.
#[verifier::external_body]
fn sort_ascending(values: &mut Vec<u128>)
    ensures
        sorted_by(final(values)@, |a: u128, b: u128| a <= b),
        final(values)@.to_multiset() == old(values)@.to_multiset(),
{
    values.sort();
}

/// The only ascending arrangement of some values is `ascending`.
pub proof fn law_ascending_is_the_sorted_arrangement(values: Seq<u128>, sorted: Seq<u128>)
    ensures
        sorted == ascending(values) <==> {
            &&& sorted_by(sorted, |a: u128, b: u128| a <= b)
            &&& sorted.to_multiset() == values.to_multiset()
        },
        ascending(values).len() == values.len(),
{
    let leq = |a: u128, b: u128| a <= b;
    assert(total_ordering(leq));
    values.lemma_sort_by_ensures(leq);
    values.to_multiset_ensures();
    ascending(values).to_multiset_ensures();
    if sorted_by(sorted, leq) && sorted.to_multiset() == values.to_multiset() {
        lemma_sorted_unique(sorted, ascending(values), leq);
    }
}

/// The values of `latencies` in ascending order.
fn sorted_copy(latencies: &[u128]) -> (sorted: Vec<u128>)
    ensures
        sorted@ == ascending(latencies@),
        sorted@.len() == latencies@.len(),
{
    let mut sorted: Vec<u128> = vstd::slice::slice_to_vec(latencies);
    sort_ascending(&mut sorted);
    proof {
        law_ascending_is_the_sorted_arrangement(latencies@, sorted@);
    }
    sorted
}

/// Round-trip times, in nanoseconds, of one round.
#[derive(Debug, Clone, Copy, PartialEq, Eq, Structural)]
pub struct Summary {
    pub min: u128,
    pub p50: u128,
    pub p95: u128,
    pub p99: u128,
    pub max: u128,
}

/// The summary of a round's latencies.
pub open spec fn summary_of(latencies: Seq<u128>) -> Summary {
    let sorted = ascending(latencies);
    let count = latencies.len() as int;
    Summary {
        min: sorted[0],
        p50: sorted[count / 2],
        p95: sorted[count * 95 / 100],
        p99: sorted[count * 99 / 100],
        max: sorted[count - 1],
    }
}

/// Summarises the latencies of a round.
pub fn summarize(latencies: &[u128]) -> (summary: Summary)
    requires
        0 < latencies@.len(),
        latencies@.len() * 99 <= usize::MAX,
    ensures
        summary == summary_of(latencies@),
{
    let count: usize = latencies.len();
    let sorted: Vec<u128> = sorted_copy(latencies);
    Summary {
        min: sorted[0],
        p50: sorted[count / 2],
        p95: sorted[count * 95 / 100],
        p99: sorted[count * 99 / 100],
        max: sorted[count - 1],
    }
}

/// The median latency of a round.
pub fn round_p50(latencies: &[u128]) -> (p50: u128)
    requires
        0 < latencies@.len(),
    ensures
        p50 == ascending(latencies@)[latencies@.len() as int / 2],
{
    let sorted: Vec<u128> = sorted_copy(latencies);
    sorted[latencies.len() / 2]
}

/// The bytes that a round moves, there and back.
pub fn total_bytes(msg_size: usize, count: usize) -> (total: u64)
    requires
        msg_size * count * 2 <= u64::MAX,
    ensures
        total == msg_size * count * 2,
{
    assert(msg_size * count <= msg_size * count * 2) by (nonlinear_arith);
    msg_size as u64 * count as u64 * 2
}

/// The numbers of a summary rise from the minimum to the maximum, and each of them was measured.
pub proof fn law_summary_rises(latencies: Seq<u128>)
    requires
        0 < latencies.len(),
    ensures
        summary_of(latencies).min <= summary_of(latencies).p50 <= summary_of(latencies).p95
            <= summary_of(latencies).p99 <= summary_of(latencies).max,
        latencies.contains(summary_of(latencies).min),
        latencies.contains(summary_of(latencies).p50),
        latencies.contains(summary_of(latencies).p95),
        latencies.contains(summary_of(latencies).p99),
        latencies.contains(summary_of(latencies).max),
        forall|i: int|
            0 <= i < latencies.len() ==> summary_of(latencies).min <= #[trigger] latencies[i]
                <= summary_of(latencies).max,
{
    let sorted = ascending(latencies);
    let count = latencies.len() as int;
    let leq = |a: u128, b: u128| a <= b;
    law_ascending_is_the_sorted_arrangement(latencies, sorted);
    assert forall|i: int, j: int| 0 <= i <= j < count implies sorted[i] <= sorted[j] by {
        if i < j {
            assert(leq(sorted[i], sorted[j]));
        }
    }
    assert forall|x: u128| sorted.contains(x) <==> latencies.contains(x) by {
        sorted.to_multiset_ensures();
        latencies.to_multiset_ensures();
        assert(sorted.to_multiset().count(x) == latencies.to_multiset().count(x));
    }
    assert(0 <= count / 2 <= count * 95 / 100 <= count * 99 / 100 <= count - 1);
    assert forall|i: int| 0 <= i < count implies latencies.contains(#[trigger] sorted[i]) by {
        assert(sorted.contains(sorted[i]));
    }
    assert forall|i: int| 0 <= i < count implies sorted[0] <= #[trigger] latencies[i]
        <= sorted[count - 1] by {
        assert(latencies.contains(latencies[i]));
        let j = choose|j: int| 0 <= j < sorted.len() && sorted[j] == latencies[i];
        assert(sorted[0] <= sorted[j] <= sorted[count - 1]);
    }
}

/// A summary does not depend on the order in which the latencies were measured.
pub proof fn law_summary_ignores_order(left: Seq<u128>, right: Seq<u128>)
    requires
        left.to_multiset() == right.to_multiset(),
    ensures
        summary_of(left) == summary_of(right),
{
    law_ascending_is_the_sorted_arrangement(left, ascending(left));
    law_ascending_is_the_sorted_arrangement(right, ascending(left));
    left.to_multiset_ensures();
    right.to_multiset_ensures();
}

/// A key with the index that it stands at, as one number: ordered by the key, and by the index
/// where keys are equal.
spec fn packed(key: u64, index: int) -> int {
    key * 0x1_0000_0000_0000_0000 + index
}

/// `order` lists all the indices of `keys` from the smallest key to the largest, equal keys in
/// the order in which they stand.
pub open spec fn is_stable_order(keys: Seq<u64>, order: Seq<int>) -> bool {
    &&& order.len() == keys.len()
    &&& forall|i: int| 0 <= i < order.len() ==> 0 <= #[trigger] order[i] < keys.len()
    &&& forall|i: int, j: int|
        0 <= i < j < order.len() ==> {
            ||| keys[#[trigger] order[i]] < keys[#[trigger] order[j]]
            ||| keys[order[i]] == keys[order[j]] && order[i] < order[j]
        }
}

/// Sorting keys packed with their indices leaves the indices in stable order.
proof fn lemma_sorted_ranks(
    keys: Seq<u64>,
    unsorted: Seq<u128>,
    sorted: Seq<u128>,
    order: Seq<int>,
)
    requires
        keys.len() <= 0x1_0000_0000_0000_0000,
        unsorted.len() == keys.len(),
        forall|j: int| 0 <= j < keys.len() ==> #[trigger] unsorted[j] == packed(keys[j], j),
        sorted_by(sorted, |a: u128, b: u128| a <= b),
        sorted.to_multiset() == unsorted.to_multiset(),
        order.len() == keys.len(),
        forall|j: int|
            0 <= j < keys.len() ==> #[trigger] order[j] == sorted[j] as int
                % 0x1_0000_0000_0000_0000,
    ensures
        sorted.len() == keys.len(),
        is_stable_order(keys, order),
{
    let leq = |a: u128, b: u128| a <= b;
    unsorted.to_multiset_ensures();
    sorted.to_multiset_ensures();
    assert(unsorted.no_duplicates()) by {
        assert forall|i: int, j: int|
            0 <= i < unsorted.len() && 0 <= j < unsorted.len() && i != j implies unsorted[i]
            != unsorted[j] by {
            assert(unsorted[i] == packed(keys[i], i));
            assert(unsorted[j] == packed(keys[j], j));
        }
    }
    unsorted.lemma_multiset_has_no_duplicates();
    sorted.lemma_multiset_has_no_duplicates_conv();
    assert forall|j: int| 0 <= j < keys.len() implies 0 <= #[trigger] order[j] < keys.len()
        && sorted[j] == packed(keys[order[j]], order[j]) by {
        assert(sorted.contains(sorted[j]));
        assert(sorted.to_multiset().count(sorted[j]) > 0);
        assert(unsorted.contains(sorted[j]));
        let k = choose|k: int| 0 <= k < unsorted.len() && unsorted[k] == sorted[j];
        assert(unsorted[k] == packed(keys[k], k));
    }
    assert forall|i: int, j: int| 0 <= i < j < order.len() implies {
        ||| keys[#[trigger] order[i]] < keys[#[trigger] order[j]]
        ||| keys[order[i]] == keys[order[j]] && order[i] < order[j]
    } by {
        assert(leq(sorted[i], sorted[j]));
        assert(sorted[i] != sorted[j]);
    }
}

/// The indices of `keys` in stable order.
pub open spec fn stable_order(keys: Seq<u64>) -> Seq<int> {
    choose|order: Seq<int>| is_stable_order(keys, order)
}

/// The index that stands in the middle of the stable order.
pub open spec fn median_index(keys: Seq<u64>) -> int {
    stable_order(keys)[keys.len() as int / 2]
}

/// The round whose key stands in the middle when rounds are ordered by their keys, equal keys
/// in the order of the rounds. A key stands for a round's throughput.
pub fn median_round(keys: &[u64]) -> (median: usize)
    requires
        0 < keys@.len(),
    ensures
        is_stable_order(keys@, stable_order(keys@)),
        median == median_index(keys@),
        median < keys@.len(),
{
    let count: usize = keys.len();
    let mut ranked: Vec<u128> = Vec::new();
    let mut i: usize = 0;
    while i < count
        invariant
            i <= count,
            count == keys@.len(),
            ranked@.len() == i,
            forall|j: int| 0 <= j < i ==> #[trigger] ranked@[j] == packed(keys@[j], j),
        decreases count - i,
    {
        ranked.push(keys[i] as u128 * 0x1_0000_0000_0000_0000 + i as u128);
        i = i + 1;
    }
    let ghost unsorted = ranked@;
    sort_ascending(&mut ranked);
    let ghost order = Seq::new(count as nat, |j: int| ranked@[j] as int % 0x1_0000_0000_0000_0000);
    proof {
        lemma_sorted_ranks(keys@, unsorted, ranked@, order);
    }
    let middle: u128 = ranked[count / 2];
    let median: usize = (middle % 0x1_0000_0000_0000_0000) as usize;
    proof {
        assert(median == order[count as int / 2]);
        law_stable_order_is_unique(keys@, order, stable_order(keys@));
    }
    median
}

/// A stable order holds every index once.
pub proof fn lemma_order_is_complete(keys: Seq<u64>, order: Seq<int>)
    requires
        is_stable_order(keys, order),
    ensures
        order.no_duplicates(),
        forall|x: int| order.contains(x) <==> 0 <= x < keys.len(),
{
    assert forall|i: int, j: int|
        0 <= i < order.len() && 0 <= j < order.len() && i != j implies order[i] != order[j] by {
        if i < j {
            assert(order[i] != order[j]);
        } else {
            assert(order[j] != order[i]);
        }
    }
    let indices = set_int_range(0, keys.len() as int);
    lemma_int_range(0, keys.len() as int);
    order.unique_seq_to_set();
    assert(order.to_set().subset_of(indices));
    lemma_subset_equality(order.to_set(), indices);
    assert forall|x: int| order.contains(x) <==> 0 <= x < keys.len() by {
        assert(order.to_set().contains(x) <==> indices.contains(x));
    }
}

/// There is only one stable order. So `median_round` has only one answer.
pub proof fn law_stable_order_is_unique(keys: Seq<u64>, left: Seq<int>, right: Seq<int>)
    requires
        is_stable_order(keys, left),
        is_stable_order(keys, right),
    ensures
        left == right,
{
    let leq = |a: int, b: int| keys[a] < keys[b] || (keys[a] == keys[b] && a <= b);
    assert(total_ordering(leq));
    lemma_order_is_complete(keys, left);
    lemma_order_is_complete(keys, right);
    left.lemma_multiset_has_no_duplicates();
    right.lemma_multiset_has_no_duplicates();
    left.to_multiset_ensures();
    right.to_multiset_ensures();
    assert forall|x: int| #[trigger]
        left.to_multiset().count(x) == right.to_multiset().count(x) by {
        assert(left.contains(x) <==> right.contains(x));
    }
    assert(left.to_multiset() =~= right.to_multiset());
    assert(sorted_by(left, leq));
    assert(sorted_by(right, leq));
    lemma_sorted_unique(left, right, leq);
}

/// What a client reports of its rounds.
#[derive(Debug, Clone, Copy, PartialEq, Eq, Structural)]
pub struct Report {
    /// The round that stands for all.
    pub median: usize,
    /// The latencies of that round.
    pub summary: Summary,
}

/// The report on rounds with these latencies and keys: the round with the median key stands for
/// all, and the summary is that of its latencies.
pub open spec fn report_of(latencies: Seq<Seq<u128>>, keys: Seq<u64>) -> Report {
    Report {
        median: median_index(keys) as usize,
        summary: summary_of(latencies[median_index(keys)]),
    }
}

/// The latencies of rounds, as sequences.
pub open spec fn rounds_view(rounds: Seq<Vec<u128>>) -> Seq<Seq<u128>> {
    rounds.map_values(|round: Vec<u128>| round@)
}

/// Reports on rounds. Round `i` has the latencies `rounds[i]` and the key `keys[i]`.
pub fn report(rounds: &[Vec<u128>], keys: &[u64]) -> (report: Report)
    requires
        0 < rounds@.len(),
        keys@.len() == rounds@.len(),
        forall|i: int|
            0 <= i < rounds@.len() ==> 0 < (#[trigger] rounds@[i])@.len() && rounds@[i]@.len() * 99
                <= usize::MAX,
    ensures
        report == report_of(rounds_view(rounds@), keys@),
        report.median == median_index(keys@),
        report.median < rounds@.len(),
{
    let median: usize = median_round(keys);
    assert(rounds_view(rounds@)[median as int] == rounds@[median as int]@);
    let summary: Summary = summarize(rounds[median].as_slice());
    Report { median, summary }
}

} // verus!
