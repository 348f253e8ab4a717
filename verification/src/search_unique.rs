//! A search has one answer.

use vstd::prelude::*;

use crate::connection::{hold_answer, setup_answer, timing_corridor, unreachable_in};
use crate::hold::{hold_problem, HoldProblem, HoldQueueEntry};
use crate::hold_course::{is_least, lemma_traces_unique, HoldPoint};
use crate::model::{PipId, WireId};
use crate::ordered::{
    lemma_increasing_is_canonical, OrderedKey, OrderedSet,
};
use crate::search::{
    space_of, MetResources, RouteQuery, RouteQueueEntry, RouteSearch, SearchSpace,
};
use crate::search_course::{comes_first, leads_back, RouteLabel, SearchPoint};

verus! {

/// Two answers name the same path, or none.
pub open spec fn same_path(
    a: Option<(Vec<WireId>, Vec<PipId>)>,
    b: Option<(Vec<WireId>, Vec<PipId>)>,
) -> bool {
    match (a, b) {
        (Some(p), Some(q)) => p.0@ == q.0@ && p.1@ == q.1@,
        (None, None) => true,
        _ => false,
    }
}

/// Both sets hold the same members in the same order.
pub open spec fn same_members<K: OrderedKey>(a: &OrderedSet<K>, b: &OrderedSet<K>) -> bool {
    a@ == b@ && a.ordered() == b.ordered()
}

/// Ordered sets of the same members list them in the same order.
pub proof fn lemma_same_members<K: OrderedKey>(a: &OrderedSet<K>, b: &OrderedSet<K>)
    requires
        a.wf(),
        b.wf(),
        a@ == b@,
    ensures
        same_members(a, b),
{
    assert forall|k: K| a.ordered().to_set().contains(k) == b.ordered().to_set().contains(k) by {
        a.membership(k);
        b.membership(k);
    }
    assert(a.ordered().to_set() =~= b.ordered().to_set());
    lemma_increasing_is_canonical(a.ordered(), b.ordered());
}

/// One entry comes first.
proof fn lemma_first_entry(
    queue: vstd::multiset::Multiset<RouteQueueEntry>,
    a: RouteQueueEntry,
    b: RouteQueueEntry,
)
    requires
        comes_first(queue, a),
        comes_first(queue, b),
    ensures
        a == b,
{
    assert(a.rank() <= b.rank());
    assert(b.rank() <= a.rank());
    RouteQueueEntry::rank_is_injective(a, b);
}

/// One way leads back from a wire.
proof fn lemma_back_unique(
    labels: Map<WireId, RouteLabel>,
    a: (Seq<WireId>, Seq<PipId>),
    b: (Seq<WireId>, Seq<PipId>),
    count: int,
)
    requires
        leads_back(labels, a.0, a.1),
        leads_back(labels, b.0, b.1),
        a.0[0] == b.0[0],
        0 <= count < a.0.len(),
    ensures
        count < b.0.len(),
        forall|i: int| 0 <= i <= count ==> #[trigger] a.0[i] == b.0[i],
        forall|i: int| 0 <= i < count ==> #[trigger] a.1[i] == b.1[i],
    decreases count,
{
    if count > 0 {
        lemma_back_unique(labels, a, b, count - 1);
        let i = count - 1;
        assert(a.1[i] == a.1[i]);
        assert(labels[a.0[i]].previous == Some((a.0[i + 1], a.1[i])));
        assert(a.0[i] == b.0[i]);
        if b.0.len() == count {
            assert(b.0.last() == b.0[i]);
        }
        assert(b.1[i] == b.1[i]);
        assert(labels[b.0[i]].previous == Some((b.0[i + 1], b.1[i])));
    }
}

impl RouteSearch {
    /// Two courses of one search agree as far as the shorter one goes.
    proof fn lemma_course_unique(
        &self,
        space: SearchSpace<'_>,
        starts: Seq<WireId>,
        a: (Seq<SearchPoint>, Seq<RouteQueueEntry>),
        b: (Seq<SearchPoint>, Seq<RouteQueueEntry>),
        count: int,
    )
        requires
            self.is_course(space, starts, a.0, a.1),
            self.is_course(space, starts, b.0, b.1),
            0 <= count <= a.1.len(),
            count <= b.1.len(),
        ensures
            a.0[count] == b.0[count],
        decreases count,
    {
        if count > 0 {
            self.lemma_course_unique(space, starts, a, b, count - 1);
            assert(self.is_step_at(space, a.0, a.1, count - 1));
            assert(self.is_step_at(space, b.0, b.1, count - 1));
            lemma_first_entry(a.0[count - 1].queue, a.1[count - 1], b.1[count - 1]);
        }
    }

    /// The shorter of two courses that end with an answer is the whole of the other.
    proof fn lemma_answer_unique(
        &self,
        space: SearchSpace<'_>,
        starts: Seq<WireId>,
        a: (Seq<SearchPoint>, Seq<RouteQueueEntry>),
        b: (Seq<SearchPoint>, Seq<RouteQueueEntry>),
        first: Option<(Vec<WireId>, Vec<PipId>)>,
        second: Option<(Vec<WireId>, Vec<PipId>)>,
    )
        requires
            self.is_course(space, starts, a.0, a.1),
            self.is_course(space, starts, b.0, b.1),
            a.1.len() <= b.1.len(),
            self.is_end(space, a.0.last(), first),
            self.is_end(space, b.0.last(), second),
        ensures
            same_path(first, second),
    {
        broadcast use vstd::multiset::group_multiset_axioms;

        let count = a.1.len() as int;
        self.lemma_course_unique(space, starts, a, b, count);
        let point = a.0.last();
        if count < b.1.len() {
            assert(self.is_step_at(space, b.0, b.1, count));
            assert(comes_first(point.queue, b.1[count]));
            if first is Some {
                let entry = choose|entry: RouteQueueEntry| #[trigger]
                    comes_first(point.queue, entry) && self.is_current(point, entry) && entry.wire
                        == space.query.goal.0;
                lemma_first_entry(point.queue, entry, b.1[count]);
            }
        } else {
            assert(b.0.last() == point);
            if first is Some {
                let entry = choose|entry: RouteQueueEntry| #[trigger]
                    comes_first(point.queue, entry) && self.is_current(point, entry) && entry.wire
                        == space.query.goal.0;
                assert(point.queue.contains(entry));
            }
            if second is Some {
                let entry = choose|entry: RouteQueueEntry| #[trigger]
                    comes_first(point.queue, entry) && self.is_current(point, entry) && entry.wire
                        == space.query.goal.0;
                assert(point.queue.contains(entry));
            }
            if first is Some && second is Some {
                let p = ((first->0).0@, (first->0).1@);
                let q = ((second->0).0@, (second->0).1@);
                lemma_back_unique(point.labels, p, q, p.0.len() - 1);
                lemma_back_unique(point.labels, q, p, q.0.len() - 1);
                assert(p.0 =~= q.0);
                assert(p.1 =~= q.1);
            }
        }
    }

    /// A search has one answer, whatever else its state holds.
    pub proof fn lemma_searches_unique(
        &self,
        other: &RouteSearch,
        space: SearchSpace<'_>,
        starts: Seq<WireId>,
        first: Option<(Vec<WireId>, Vec<PipId>)>,
        second: Option<(Vec<WireId>, Vec<PipId>)>,
        met: MetResources,
        also: MetResources,
    )
        requires
            self.same_estimates(other),
            self.searches(space, starts, first, met),
            other.searches(space, starts, second, also),
        ensures
            same_path(first, second),
    {
        other.lemma_same_searches(self, space, starts, second, also);
        let a = choose|points: Seq<SearchPoint>, entries: Seq<RouteQueueEntry>|
            {
                &&& #[trigger] self.is_course(space, starts, points, entries)
                &&& self.is_end(space, points.last(), first)
                &&& self.meets_all(space, points, entries, met)
            };
        let b = choose|points: Seq<SearchPoint>, entries: Seq<RouteQueueEntry>|
            {
                &&& #[trigger] self.is_course(space, starts, points, entries)
                &&& self.is_end(space, points.last(), second)
                &&& self.meets_all(space, points, entries, also)
            };
        if a.1.len() <= b.1.len() {
            self.lemma_answer_unique(space, starts, a, b, first, second);
        } else {
            self.lemma_answer_unique(space, starts, b, a, second, first);
        }
    }
}

/// One entry is least.
proof fn lemma_least_entry(
    queue: vstd::multiset::Multiset<HoldQueueEntry>,
    a: HoldQueueEntry,
    b: HoldQueueEntry,
)
    requires
        is_least(queue, a),
        is_least(queue, b),
    ensures
        a == b,
{
    assert(a.rank() <= b.rank());
    assert(b.rank() <= a.rank());
    HoldQueueEntry::rank_is_injective(a, b);
}

impl<'a> HoldProblem<'a> {
    /// Two courses of one hold search agree as far as the shorter one goes.
    proof fn lemma_course_unique(
        &self,
        starts: Seq<WireId>,
        a: (Seq<HoldPoint>, Seq<HoldQueueEntry>),
        b: (Seq<HoldPoint>, Seq<HoldQueueEntry>),
        count: int,
    )
        requires
            self.is_course(starts, a.0, a.1),
            self.is_course(starts, b.0, b.1),
            0 <= count <= a.1.len(),
            count <= b.1.len(),
        ensures
            a.0[count] == b.0[count],
        decreases count,
    {
        if count > 0 {
            self.lemma_course_unique(starts, a, b, count - 1);
            assert(self.is_step_at(a.0, a.1, count - 1));
            assert(self.is_step_at(b.0, b.1, count - 1));
            lemma_least_entry(a.0[count - 1].queue, a.1[count - 1], b.1[count - 1]);
        }
    }

    /// The shorter of two courses that end with an answer is the whole of the other.
    proof fn lemma_answer_unique(
        &self,
        starts: Seq<WireId>,
        a: (Seq<HoldPoint>, Seq<HoldQueueEntry>),
        b: (Seq<HoldPoint>, Seq<HoldQueueEntry>),
        first: Option<(Vec<WireId>, Vec<PipId>)>,
        second: Option<(Vec<WireId>, Vec<PipId>)>,
    )
        requires
            self.is_course(starts, a.0, a.1),
            self.is_course(starts, b.0, b.1),
            a.1.len() <= b.1.len(),
            self.is_end(a.0.last(), first),
            self.is_end(b.0.last(), second),
        ensures
            same_path(first, second),
    {
        broadcast use vstd::multiset::group_multiset_axioms;

        let count = a.1.len() as int;
        self.lemma_course_unique(starts, a, b, count);
        let point = a.0.last();
        if count < b.1.len() {
            assert(self.is_step_at(b.0, b.1, count));
            assert(is_least(point.queue, b.1[count]));
            if first is Some {
                let path = first->0;
                let entry = choose|entry: HoldQueueEntry| #[trigger]
                    is_least(point.queue, entry) && self.delivers(
                        point,
                        entry,
                        path.0@,
                        path.1@,
                    );
                lemma_least_entry(point.queue, entry, b.1[count]);
                assert(self.delivers(point, b.1[count], path.0@, path.1@));
            }
        } else {
            assert(b.0.last() == point);
            if first is Some {
                let path = first->0;
                let entry = choose|entry: HoldQueueEntry| #[trigger]
                    is_least(point.queue, entry) && self.delivers(
                        point,
                        entry,
                        path.0@,
                        path.1@,
                    );
                assert(point.queue.contains(entry));
                if second is Some {
                    let also = second->0;
                    let other = choose|other: HoldQueueEntry| #[trigger]
                        is_least(point.queue, other) && self.delivers(
                            point,
                            other,
                            also.0@,
                            also.1@,
                        );
                    lemma_least_entry(point.queue, entry, other);
                    lemma_traces_unique(
                        point.visits,
                        entry.state,
                        (path.0@, path.1@),
                        (also.0@, also.1@),
                    );
                }
            } else if second is Some {
                let also = second->0;
                let other = choose|other: HoldQueueEntry| #[trigger]
                    is_least(point.queue, other) && self.delivers(
                        point,
                        other,
                        also.0@,
                        also.1@,
                    );
                assert(point.queue.contains(other));
            }
        }
    }

    /// A hold search has one answer.
    pub proof fn lemma_searches_unique(
        &self,
        starts: Seq<WireId>,
        first: Option<(Vec<WireId>, Vec<PipId>)>,
        second: Option<(Vec<WireId>, Vec<PipId>)>,
        met: MetResources,
        also: MetResources,
    )
        requires
            self.searches(starts, first, met),
            self.searches(starts, second, also),
        ensures
            same_path(first, second),
    {
        let a = choose|points: Seq<HoldPoint>, entries: Seq<HoldQueueEntry>|
            {
                &&& #[trigger] self.is_course(starts, points, entries)
                &&& self.is_end(points.last(), first)
                &&& self.meets_all(points, entries, met)
            };
        let b = choose|points: Seq<HoldPoint>, entries: Seq<HoldQueueEntry>|
            {
                &&& #[trigger] self.is_course(starts, points, entries)
                &&& self.is_end(points.last(), second)
                &&& self.meets_all(points, entries, also)
            };
        if a.1.len() <= b.1.len() {
            self.lemma_answer_unique(starts, a, b, first, second);
        } else {
            self.lemma_answer_unique(starts, b, a, second, first);
        }
    }
}

/// A search without a minimum arrival has one answer.
pub proof fn lemma_setup_unique(
    a: RouteSearch,
    b: RouteSearch,
    query: RouteQuery<'_>,
    starts: &OrderedSet<WireId>,
    others: &OrderedSet<WireId>,
    avoid: Option<&OrderedSet<WireId>>,
    spare: Option<&OrderedSet<WireId>>,
    first: Option<(Vec<WireId>, Vec<PipId>)>,
    second: Option<(Vec<WireId>, Vec<PipId>)>,
    met: MetResources,
    also: MetResources,
)
    requires
        a.same_estimates(&b),
        same_members(starts, others),
        match (avoid, spare) {
            (Some(x), Some(y)) => x@ == y@,
            (None, None) => true,
            _ => false,
        },
        setup_answer(a, query, starts, avoid, first, met),
        setup_answer(b, query, others, spare, second, also),
    ensures
        same_path(first, second),
{
    let narrow = Some(timing_corridor(query, starts@));
    assert(space_of(query, starts, avoid, None) == space_of(query, others, spare, None));
    assert(space_of(query, starts, avoid, narrow) == space_of(query, others, spare, narrow));
    let space = if query.criticality == 0 || unreachable_in(
        space_of(query, starts, avoid, narrow),
    ) {
        space_of(query, starts, avoid, None)
    } else {
        space_of(query, starts, avoid, narrow)
    };
    a.lemma_searches_unique(&b, space, starts.ordered(), first, second, met, also);
}

/// A search with a minimum arrival has one answer.
pub proof fn lemma_hold_unique(
    query: RouteQuery<'_>,
    starts: &OrderedSet<WireId>,
    others: &OrderedSet<WireId>,
    minimum_arrival_ps: u64,
    first: Option<(Vec<WireId>, Vec<PipId>)>,
    second: Option<(Vec<WireId>, Vec<PipId>)>,
    met: MetResources,
    also: MetResources,
)
    requires
        same_members(starts, others),
        hold_answer(query, starts, minimum_arrival_ps, first, met),
        hold_answer(query, others, minimum_arrival_ps, second, also),
    ensures
        same_path(first, second),
{
    if let Some(costs) = query.costs {
        let problem = hold_problem(query, starts, costs, minimum_arrival_ps);
        assert(problem == hold_problem(query, others, costs, minimum_arrival_ps));
        problem.lemma_searches_unique(starts.ordered(), first, second, met, also);
    }
}

} // verus!
