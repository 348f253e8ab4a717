//! Medians that pull a unit towards its nets and its critical arcs.

use vstd::prelude::*;
use vstd::relations::{sorted_by, total_ordering};
use vstd::seq_lib::lemma_sorted_unique;

use crate::model::Point;
use crate::net_span::{along, Axis};
use crate::ordered::{sort_keys, OrderedKey, OrderedMap};

verus! {

/// The nearest value between the bounds.
pub open spec fn clamped(value: int, lower: int, upper: int) -> int {
    if value < lower {
        lower
    } else if value > upper {
        upper
    } else {
        value
    }
}

/// Both ends of every interval.
pub open spec fn interval_ends(intervals: Seq<(i64, i64)>) -> Seq<i64>
    decreases intervals.len(),
{
    if intervals.len() == 0 {
        Seq::empty()
    } else {
        interval_ends(intervals.drop_last()).push(intervals.last().0).push(intervals.last().1)
    }
}

/// The values in increasing order.
pub open spec fn in_order(values: Seq<i64>) -> Seq<i64> {
    values.sort_by(|a: i64, b: i64| a <= b)
}

/// The coordinate of the device nearest to the current one between the middle
/// pair of the sorted ends.
pub open spec fn interval_median(intervals: Seq<(i64, i64)>, current: u32, extent: u32) -> Option<
    u32,
> {
    let count = intervals.len() as int;
    if count == 0 || 2 * count > usize::MAX {
        None
    } else {
        let sorted = in_order(interval_ends(intervals));
        Some(
            clamped(
                clamped(current as int, sorted[count - 1] as int, sorted[count] as int),
                0,
                extent - 1,
            ) as u32,
        )
    }
}

/// Distance of a coordinate from an interval.
pub open spec fn interval_gap(interval: (i64, i64), at: int) -> int {
    if at < interval.0 {
        interval.0 - at
    } else if at > interval.1 {
        at - interval.1
    } else {
        0
    }
}

/// Sum of the distances of a coordinate from the intervals.
pub open spec fn total_gap(intervals: Seq<(i64, i64)>, at: int) -> int
    decreases intervals.len(),
{
    if intervals.len() == 0 {
        0
    } else {
        total_gap(intervals.drop_last(), at) + interval_gap(intervals.last(), at)
    }
}

/// Distance of a coordinate from a value.
pub open spec fn value_gap(value: i64, at: int) -> int {
    if at < value {
        value - at
    } else {
        at - value
    }
}

/// Sum of the distances of a coordinate from the values.
spec fn spread(values: Seq<i64>, at: int) -> int
    decreases values.len(),
{
    if values.len() == 0 {
        0
    } else {
        spread(values.drop_last(), at) + value_gap(values.last(), at)
    }
}

proof fn lemma_order()
    ensures
        total_ordering(|a: i64, b: i64| a <= b),
{
}

/// Sorting keeps the values.
proof fn lemma_in_order(values: Seq<i64>)
    ensures
        in_order(values).to_multiset() == values.to_multiset(),
        in_order(values).len() == values.len(),
        forall|i: int, j: int|
            0 <= i <= j < values.len() ==> #[trigger] in_order(values)[i] <= #[trigger] in_order(
                values,
            )[j],
{
    lemma_order();
    values.lemma_sort_by_ensures(|a: i64, b: i64| a <= b);
    broadcast use vstd::seq_lib::group_to_multiset_ensures;

    assert(in_order(values).to_multiset().len() == values.to_multiset().len());
    let leq = |a: i64, b: i64| a <= b;
    assert(sorted_by(in_order(values), leq));
    assert forall|i: int, j: int| 0 <= i <= j < values.len() implies #[trigger] in_order(values)[i]
        <= #[trigger] in_order(values)[j] by {
        if i < j {
            assert(leq(in_order(values)[i], in_order(values)[j]));
        }
    }
}

/// There are two ends for every interval.
proof fn lemma_ends(intervals: Seq<(i64, i64)>)
    ensures
        interval_ends(intervals).len() == 2 * intervals.len(),
    decreases intervals.len(),
{
    if intervals.len() > 0 {
        lemma_ends(intervals.drop_last());
    }
}

/// A value can be taken out of the sum.
proof fn lemma_spread_remove(values: Seq<i64>, index: int, at: int)
    requires
        0 <= index < values.len(),
    ensures
        spread(values, at) == spread(values.remove(index), at) + value_gap(values[index], at),
    decreases values.len(),
{
    if index == values.len() - 1 {
        assert(values.remove(index) =~= values.drop_last());
    } else {
        lemma_spread_remove(values.drop_last(), index, at);
        assert(values.remove(index).drop_last() =~= values.drop_last().remove(index));
        assert(values.remove(index).last() == values.last());
    }
}

/// The sum does not depend on the order of the values.
proof fn lemma_spread_permuted(a: Seq<i64>, b: Seq<i64>, at: int)
    requires
        a.to_multiset() == b.to_multiset(),
    ensures
        spread(a, at) == spread(b, at),
    decreases a.len(),
{
    broadcast use vstd::seq_lib::group_to_multiset_ensures;

    a.to_multiset_ensures();
    b.to_multiset_ensures();
    assert(a.len() == b.len());
    if a.len() > 0 {
        let k = crate::ordered::lemma_counterpart(a, b, a.len() - 1);
        lemma_spread_remove(b, k, at);
        assert(a.drop_last() =~= a.remove(a.len() - 1));
        lemma_spread_permuted(a.drop_last(), b.remove(k), at);
    }
}

/// Nearer to the middle of sorted values, the sum of distances is no greater.
proof fn lemma_spread_falls(sorted: Seq<i64>, half: int, far: int, near: int)
    requires
        half >= 0,
        sorted.len() == 2 * half,
        forall|i: int, j: int|
            0 <= i <= j < sorted.len() ==> #[trigger] sorted[i] <= #[trigger] sorted[j],
        half > 0 ==> (far <= near <= sorted[half]) || (far >= near >= sorted[half - 1]),
    ensures
        spread(sorted, near) <= spread(sorted, far),
    decreases half,
{
    if half > 0 {
        let inner = sorted.remove(0).drop_last();
        lemma_spread_remove(sorted, 0, near);
        lemma_spread_remove(sorted, 0, far);
        assert(inner.len() == 2 * (half - 1));
        assert forall|i: int| 0 <= i < inner.len() implies #[trigger] inner[i] == sorted[i
            + 1] by {}
        assert forall|i: int, j: int| 0 <= i <= j < inner.len() implies #[trigger] inner[i]
            <= #[trigger] inner[j] by {
            assert(sorted[i + 1] <= sorted[j + 1]);
        }
        if half > 1 {
            assert(inner[half - 1] == sorted[half]);
            assert(inner[half - 2] == sorted[half - 1]);
        }
        lemma_spread_falls(inner, half - 1, far, near);
        assert(sorted.remove(0).last() == sorted.last());
        assert(sorted[0] <= sorted[half - 1]);
        assert(sorted[half] <= sorted[sorted.len() - 1]);
    }
}

/// Twice the distance from the intervals is the distance from their ends but
/// for the lengths of the intervals.
proof fn lemma_gap_of_ends(intervals: Seq<(i64, i64)>, a: int, b: int)
    requires
        forall|i: int|
            0 <= i < intervals.len() ==> (#[trigger] intervals[i]).0 <= intervals[i].1,
    ensures
        2 * (total_gap(intervals, a) - total_gap(intervals, b)) == spread(
            interval_ends(intervals),
            a,
        ) - spread(interval_ends(intervals), b),
    decreases intervals.len(),
{
    if intervals.len() > 0 {
        let rest = intervals.drop_last();
        assert forall|i: int| 0 <= i < rest.len() implies (#[trigger] rest[i]).0 <= rest[i].1 by {
            assert(rest[i] == intervals[i]);
        }
        lemma_gap_of_ends(rest, a, b);
        let last = intervals.last();
        assert(intervals[intervals.len() - 1].0 <= intervals[intervals.len() - 1].1);
        let ends = interval_ends(intervals);
        assert(ends.drop_last() =~= interval_ends(rest).push(last.0));
        assert(ends.drop_last().drop_last() =~= interval_ends(rest));
        assert(ends.last() == last.1 && ends.drop_last().last() == last.0);
        assert forall|at: int| #[trigger]
            spread(ends, at) == spread(interval_ends(rest), at) + value_gap(last.0, at)
                + value_gap(last.1, at) by {
            assert(spread(ends, at) == spread(ends.drop_last(), at) + value_gap(last.1, at));
            assert(spread(ends.drop_last(), at) == spread(ends.drop_last().drop_last(), at)
                + value_gap(last.0, at));
        }
        assert(spread(ends, a) - spread(ends, b) == spread(interval_ends(rest), a) - spread(
            interval_ends(rest),
            b,
        ) + value_gap(last.0, a) + value_gap(last.1, a) - value_gap(last.0, b) - value_gap(
            last.1,
            b,
        ));
    }
}

/// No coordinate of the device is nearer to the intervals, summed up, than
/// their median.
pub proof fn interval_median_is_nearest(
    intervals: Seq<(i64, i64)>,
    current: u32,
    extent: u32,
    other: u32,
)
    requires
        current < extent,
        other < extent,
        forall|i: int|
            0 <= i < intervals.len() ==> (#[trigger] intervals[i]).0 <= intervals[i].1,
    ensures
        interval_median(intervals, current, extent) matches Some(median) ==> median < extent
            && total_gap(intervals, median as int) <= total_gap(intervals, other as int),
{
    if interval_median(intervals, current, extent) is Some {
        let half = intervals.len() as int;
        let ends = interval_ends(intervals);
        let sorted = in_order(ends);
        lemma_ends(intervals);
        lemma_in_order(ends);
        let median = interval_median(intervals, current, extent)->0;
        assert(sorted[half - 1] <= sorted[half]);
        lemma_spread_permuted(sorted, ends, median as int);
        lemma_spread_permuted(sorted, ends, other as int);
        lemma_spread_falls(sorted, half, other as int, median as int);
        lemma_gap_of_ends(intervals, median as int, other as int);
    }
}

/// The least of the coordinates between the middle pair of the sorted ends
/// that is nearest to the current one.
pub fn detailed_interval_median(intervals: &[(i64, i64)], current: u32, extent: u32) -> (result:
    Option<u32>)
    requires
        extent > 0,
    ensures
        result == interval_median(intervals@, current, extent),
{
    if intervals.len() == 0 || intervals.len() > usize::MAX / 2 {
        return None;
    }
    let mut endpoints: Vec<i64> = Vec::new();
    let mut index: usize = 0;
    while index < intervals.len()
        invariant
            index <= intervals@.len(),
            endpoints@ == interval_ends(intervals@.take(index as int)),
        decreases intervals@.len() - index,
    {
        endpoints.push(intervals[index].0);
        endpoints.push(intervals[index].1);
        proof {
            assert(intervals@.take(index + 1).drop_last() =~= intervals@.take(index as int));
        }
        index = index + 1;
    }
    assert(intervals@.take(index as int) =~= intervals@);
    let ghost listed = endpoints@;
    sort_keys(&mut endpoints);
    proof {
        lemma_ends(intervals@);
        lemma_order();
        lemma_in_order(listed);
        listed.lemma_sort_by_ensures(|a: i64, b: i64| a <= b);
        let leq = |a: i64, b: i64| a <= b;
        assert(sorted_by(endpoints@, leq)) by {
            assert forall|i: int, j: int| 0 <= i < j < endpoints@.len() implies #[trigger] leq(
                endpoints@[i],
                endpoints@[j],
            ) by {
                assert(endpoints@[i].rank() <= endpoints@[j].rank());
            }
        }
        lemma_sorted_unique(endpoints@, in_order(listed), leq);
    }
    let lower: i64 = endpoints[intervals.len() - 1];
    let upper: i64 = endpoints[intervals.len()];
    assert(in_order(listed)[intervals@.len() - 1] <= in_order(listed)[intervals@.len() as int]);
    let here: i64 = current as i64;
    let last: i64 = extent as i64 - 1;
    let mut coordinate: i64 = here;
    if coordinate < lower {
        coordinate = lower;
    } else if coordinate > upper {
        coordinate = upper;
    }
    if coordinate < 0 {
        coordinate = 0;
    } else if coordinate > last {
        coordinate = last;
    }
    Some(coordinate as u32)
}

/// A point that pulls with a weight.
#[derive(Clone, Copy, Debug, PartialEq, Eq, Structural)]
pub struct TimingPull {
    /// Where the unit's origin is pulled to.
    pub point: Point,
    /// How strongly.
    pub weight: u64,
}

/// Sum of the weights at coordinates up to a bound.
pub open spec fn weight_up_to(pulls: Seq<TimingPull>, axis: Axis, bound: int) -> int
    decreases pulls.len(),
{
    if pulls.len() == 0 {
        0
    } else {
        weight_up_to(pulls.drop_last(), axis, bound) + if along(pulls.last().point, axis)
            <= bound {
            pulls.last().weight as int
        } else {
            0
        }
    }
}

/// Sum of the weights at one coordinate.
pub open spec fn weight_at(pulls: Seq<TimingPull>, axis: Axis, coordinate: int) -> int {
    weight_up_to(pulls, axis, coordinate) - weight_up_to(pulls, axis, coordinate - 1)
}

/// Sum of all weights.
pub open spec fn whole_weight(pulls: Seq<TimingPull>) -> int
    decreases pulls.len(),
{
    if pulls.len() == 0 {
        0
    } else {
        whole_weight(pulls.drop_last()) + pulls.last().weight
    }
}

/// Some pull has the coordinate.
pub open spec fn pulls_to(pulls: Seq<TimingPull>, axis: Axis, coordinate: u32) -> bool {
    exists|i: int| 0 <= i < pulls.len() && along((#[trigger] pulls[i]).point, axis) == coordinate
}

/// The least coordinate of a pull up to which at least half of the weight lies.
pub open spec fn is_weighted_median(
    pulls: Seq<TimingPull>,
    axis: Axis,
    result: Option<u32>,
) -> bool {
    match result {
        None => pulls.len() == 0,
        Some(median) => {
            &&& pulls_to(pulls, axis, median)
            &&& 2 * weight_up_to(pulls, axis, median as int) >= whole_weight(pulls)
            &&& forall|c: u32|
                c < median && #[trigger] pulls_to(pulls, axis, c) ==> 2 * weight_up_to(
                    pulls,
                    axis,
                    c as int,
                ) < whole_weight(pulls)
        },
    }
}

/// Weighted medians are unique.
pub proof fn weighted_median_is_unique(
    pulls: Seq<TimingPull>,
    axis: Axis,
    a: Option<u32>,
    b: Option<u32>,
)
    requires
        is_weighted_median(pulls, axis, a),
        is_weighted_median(pulls, axis, b),
    ensures
        a == b,
{
    if a is Some && b is Some {
        if a->0 < b->0 {
            assert(pulls_to(pulls, axis, a->0));
        } else if b->0 < a->0 {
            assert(pulls_to(pulls, axis, b->0));
        }
    } else if a is Some {
        let i = choose|i: int|
            0 <= i < pulls.len() && along((#[trigger] pulls[i]).point, axis) == a->0;
        assert(pulls.len() > 0);
    } else if b is Some {
        let i = choose|i: int|
            0 <= i < pulls.len() && along((#[trigger] pulls[i]).point, axis) == b->0;
        assert(pulls.len() > 0);
    }
}

/// Weights add up to what a u128 can hold.
proof fn lemma_weight_bounds(pulls: Seq<TimingPull>, axis: Axis, a: int, b: int)
    requires
        a <= b,
    ensures
        0 <= weight_up_to(pulls, axis, a) <= weight_up_to(pulls, axis, b) <= whole_weight(pulls)
            <= pulls.len() * u64::MAX,
        (forall|i: int|
            0 <= i < pulls.len() ==> along((#[trigger] pulls[i]).point, axis) <= a || along(
                pulls[i].point,
                axis,
            ) > b) ==> weight_up_to(pulls, axis, a) == weight_up_to(pulls, axis, b),
        (forall|i: int| 0 <= i < pulls.len() ==> along((#[trigger] pulls[i]).point, axis) <= b)
            ==> weight_up_to(pulls, axis, b) == whole_weight(pulls),
        (forall|i: int| 0 <= i < pulls.len() ==> along((#[trigger] pulls[i]).point, axis) > a)
            ==> weight_up_to(pulls, axis, a) == 0,
    decreases pulls.len(),
{
    if pulls.len() > 0 {
        let rest = pulls.drop_last();
        lemma_weight_bounds(rest, axis, a, b);
        assert(pulls.len() * u64::MAX == rest.len() * u64::MAX + u64::MAX) by (nonlinear_arith)
            requires
                pulls.len() == rest.len() + 1,
        ;
        assert(pulls[pulls.len() - 1] == pulls.last());
        assert forall|i: int| 0 <= i < rest.len() implies #[trigger] rest[i] == pulls[i] by {}
        if forall|i: int|
            0 <= i < pulls.len() ==> along((#[trigger] pulls[i]).point, axis) <= a || along(
                pulls[i].point,
                axis,
            ) > b {
            assert forall|i: int| 0 <= i < rest.len() implies along(
                (#[trigger] rest[i]).point,
                axis,
            ) <= a || along(rest[i].point, axis) > b by {
                assert(rest[i] == pulls[i]);
            }
        }
        if forall|i: int| 0 <= i < pulls.len() ==> along((#[trigger] pulls[i]).point, axis) <= b {
            assert forall|i: int| 0 <= i < rest.len() implies along(
                (#[trigger] rest[i]).point,
                axis,
            ) <= b by {
                assert(rest[i] == pulls[i]);
            }
        }
        if forall|i: int| 0 <= i < pulls.len() ==> along((#[trigger] pulls[i]).point, axis) > a {
            assert forall|i: int| 0 <= i < rest.len() implies along(
                (#[trigger] rest[i]).point,
                axis,
            ) > a by {
                assert(rest[i] == pulls[i]);
            }
        }
    }
}

/// The coordinate of a point along an axis.
pub fn coordinate_along(point: Point, axis: Axis) -> (result: u32)
    ensures
        result == along(point, axis),
{
    match axis {
        Axis::Column => point.x,
        Axis::Row => point.y,
    }
}

/// The weights are those of the first pulls.
spec fn sums_pulls(pulls: Seq<TimingPull>, axis: Axis, weights: OrderedMap<u32, u128>) -> bool {
    &&& weights.wf()
    &&& forall|c: u32| #[trigger] weights@.contains_key(c) <==> pulls_to(pulls, axis, c)
    &&& forall|c: u32| #[trigger]
        weights@.contains_key(c) ==> weights@[c] == weight_at(pulls, axis, c as int)
}

/// One more pull adds its weight.
proof fn lemma_pull_added(
    pulls: Seq<TimingPull>,
    axis: Axis,
    before: OrderedMap<u32, u128>,
    after: OrderedMap<u32, u128>,
    next: TimingPull,
)
    requires
        sums_pulls(pulls, axis, before),
        pulls.len() < usize::MAX,
        after.wf(),
        ({
            let c = along(next.point, axis);
            let known = if before@.contains_key(c) {
                before@[c] as int
            } else {
                0
            };
            after@ == before@.insert(c, (known + next.weight) as u128)
        }),
    ensures
        sums_pulls(pulls.push(next), axis, after),
{
    let longer = pulls.push(next);
    let here = along(next.point, axis);
    assert(longer.drop_last() =~= pulls);
    assert forall|c: u32| #[trigger] after@.contains_key(c) <==> pulls_to(longer, axis, c) by {
        if pulls_to(pulls, axis, c) {
            let i = choose|i: int|
                0 <= i < pulls.len() && along((#[trigger] pulls[i]).point, axis) == c;
            assert(along(longer[i].point, axis) == c);
        }
        if c == here {
            assert(along(longer[pulls.len() as int].point, axis) == c);
        }
        if pulls_to(longer, axis, c) && c != here {
            let i = choose|i: int|
                0 <= i < longer.len() && along((#[trigger] longer[i]).point, axis) == c;
            assert(along(pulls[i].point, axis) == c);
        }
        assert(before@.contains_key(c) <==> pulls_to(pulls, axis, c));
    }
    assert forall|c: u32| #[trigger] after@.contains_key(c) implies after@[c] == weight_at(
        longer,
        axis,
        c as int,
    ) by {
        lemma_weight_bounds(pulls, axis, c - 1, c as int);
        assert(pulls.len() * u64::MAX + u64::MAX <= u128::MAX) by (nonlinear_arith)
            requires
                pulls.len() < usize::MAX,
        ;
        if !before@.contains_key(c) {
            assert(c == here);
            assert(!pulls_to(pulls, axis, c));
            assert forall|i: int| 0 <= i < pulls.len() implies along(
                (#[trigger] pulls[i]).point,
                axis,
            ) <= c - 1 || along(pulls[i].point, axis) > c by {
                if along(pulls[i].point, axis) == c {
                    assert(pulls_to(pulls, axis, c));
                }
            }
        }
    }
}

/// The least coordinate of a pull up to which at least half of the weight lies.
pub fn weighted_median_coordinate(pulls: &Vec<TimingPull>, axis: Axis) -> (result: Option<u32>)
    ensures
        is_weighted_median(pulls@, axis, result),
{
    let mut weights: OrderedMap<u32, u128> = OrderedMap::new();
    let mut total: u128 = 0;
    let mut index: usize = 0;
    assert(pulls@.take(0) =~= Seq::<TimingPull>::empty());
    while index < pulls.len()
        invariant
            index <= pulls@.len(),
            sums_pulls(pulls@.take(index as int), axis, weights),
            total == whole_weight(pulls@.take(index as int)),
        decreases pulls@.len() - index,
    {
        let pull = pulls[index];
        let coordinate: u32 = coordinate_along(pull.point, axis);
        let ghost done = pulls@.take(index as int);
        let ghost before = weights;
        proof {
            lemma_weight_bounds(done, axis, coordinate - 1, coordinate as int);
            assert(done.len() * u64::MAX + u64::MAX <= u128::MAX) by (nonlinear_arith)
                requires
                    done.len() < usize::MAX,
            ;
            assert(pulls@.take(index + 1) =~= done.push(pull));
            assert(pulls@.take(index + 1).drop_last() =~= done);
        }
        let known: u128 = match weights.get(coordinate) {
            Some(weight) => *weight,
            None => 0,
        };
        weights.insert(coordinate, known + pull.weight as u128);
        total = total + pull.weight as u128;
        proof {
            lemma_pull_added(done, axis, before, weights, pull);
        }
        index = index + 1;
    }
    assert(pulls@.take(index as int) =~= pulls@);
    let threshold: u128 = total / 2 + total % 2;
    let mut cumulative: u128 = 0;
    let mut at: usize = 0;
    let ghost keys = weights.ordered();
    proof {
        if keys.len() > 0 {
            assert forall|i: int| 0 <= i < pulls@.len() implies along(
                (#[trigger] pulls@[i]).point,
                axis,
            ) > keys[0] - 1 by {
                lemma_pull_listed(pulls@, axis, weights, i);
                let k = weights.key_index(along(pulls@[i].point, axis));
                if k > 0 {
                    assert(keys[0].rank() < keys[k].rank());
                }
            }
            lemma_weight_bounds(pulls@, axis, keys[0] - 1, keys[0] - 1);
        }
    }
    while at < weights.len()
        invariant
            at <= keys.len(),
            keys == weights.ordered(),
            sums_pulls(pulls@, axis, weights),
            total == whole_weight(pulls@),
            threshold == total / 2 + total % 2,
            at == 0 ==> cumulative == 0,
            at > 0 ==> cumulative == weight_up_to(pulls@, axis, keys[at - 1] as int),
            at == 0 && keys.len() > 0 ==> weight_up_to(pulls@, axis, keys[0] - 1) == 0,
            forall|i: int|
                0 <= i < at ==> 2 * weight_up_to(
                    pulls@,
                    axis,
                    (#[trigger] keys[i]) as int,
                ) < total,
        decreases keys.len() - at,
    {
        let coordinate: u32 = weights.key_at(at);
        let weight: u128 = *weights.value_at(at);
        proof {
            weights.entry(at as int);
            assert(weights@.contains_key(coordinate));
            if at > 0 {
                assert(keys[at - 1].rank() < keys[at as int].rank());
                assert forall|i: int| 0 <= i < pulls@.len() implies along(
                    (#[trigger] pulls@[i]).point,
                    axis,
                ) <= keys[at - 1] || along(pulls@[i].point, axis) > coordinate - 1 by {
                    lemma_pull_listed(pulls@, axis, weights, i);
                    let k = weights.key_index(along(pulls@[i].point, axis));
                    if k < at - 1 {
                        assert(keys[k].rank() < keys[at - 1].rank());
                    } else if k > at {
                        assert(keys[at as int].rank() < keys[k].rank());
                    }
                }
                lemma_weight_bounds(pulls@, axis, keys[at - 1] as int, coordinate - 1);
            }
            lemma_weight_bounds(pulls@, axis, coordinate - 1, coordinate as int);
        }
        cumulative = cumulative + weight;
        if cumulative >= threshold {
            proof {
                assert forall|c: u32|
                    c < coordinate && #[trigger] pulls_to(pulls@, axis, c) implies 2 * weight_up_to(
                    pulls@,
                    axis,
                    c as int,
                ) < whole_weight(pulls@) by {
                    assert(weights@.contains_key(c));
                    let k = weights.key_index(c);
                    if k > at {
                        assert(keys[at as int].rank() < keys[k].rank());
                    }
                    assert(2 * weight_up_to(pulls@, axis, keys[k] as int) < total);
                }
            }
            return Some(coordinate);
        }
        at = at + 1;
    }
    proof {
        if pulls@.len() > 0 {
            lemma_pull_listed(pulls@, axis, weights, 0);
            let k = weights.key_index(along(pulls@[0].point, axis));
            let last = keys[keys.len() - 1];
            assert forall|i: int| 0 <= i < pulls@.len() implies along(
                (#[trigger] pulls@[i]).point,
                axis,
            ) <= last by {
                lemma_pull_listed(pulls@, axis, weights, i);
                let k = weights.key_index(along(pulls@[i].point, axis));
                if k < keys.len() - 1 {
                    assert(keys[k].rank() < keys[keys.len() - 1].rank());
                }
            }
            lemma_weight_bounds(pulls@, axis, last as int, last as int);
            assert(2 * weight_up_to(pulls@, axis, keys[keys.len() - 1] as int) < total);
        }
    }
    None
}

/// The coordinate of a pull is listed.
proof fn lemma_pull_listed(
    pulls: Seq<TimingPull>,
    axis: Axis,
    weights: OrderedMap<u32, u128>,
    index: int,
)
    requires
        sums_pulls(pulls, axis, weights),
        0 <= index < pulls.len(),
    ensures
        weights@.contains_key(along(pulls[index].point, axis)),
{
    assert(pulls_to(pulls, axis, along(pulls[index].point, axis)));
}

} // verus!
