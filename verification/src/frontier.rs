//! What a route search knows between two steps, and what follows from it.

use vstd::prelude::*;

use crate::model::{PipId, WireId};
use crate::search::{RouteQuery, RouteQueueEntry, RouteSearch, SearchSpace};

verus! {

/// A chain of previous wires leads from a wire to a tree wire in some number of steps.
pub open spec fn depth_is(previous: Seq<u32>, wire: int, depth: nat) -> bool
    decreases depth,
{
    &&& 0 <= wire < previous.len()
    &&& if previous[wire] == u32::MAX {
        depth == 0
    } else {
        depth > 0 && depth_is(previous, previous[wire] as int, (depth - 1) as nat)
    }
}

/// A chain has one length.
pub proof fn lemma_depth_unique(previous: Seq<u32>, wire: int, a: nat, b: nat)
    requires
        depth_is(previous, wire, a),
        depth_is(previous, wire, b),
    ensures
        a == b,
    decreases a,
{
    if previous[wire] != u32::MAX {
        lemma_depth_unique(previous, previous[wire] as int, (a - 1) as nat, (b - 1) as nat);
    }
}

impl RouteSearch {
    /// The current search has reached the wire.
    pub open spec fn reached(&self, wire: int) -> bool {
        self.seen@[wire] == self.epoch
    }

    /// The label of one wire is no worse than that of another.
    pub open spec fn label_at_most(&self, a: int, b: int) -> bool {
        ||| self.distance@[a] < self.distance@[b]
        ||| self.distance@[a] == self.distance@[b] && self.arrival_ps@[a] <= self.arrival_ps@[b]
    }

    /// Frontier entry of a wire under its present label.
    pub open spec fn entry_of(&self, query: RouteQuery<'_>, wire: int) -> RouteQueueEntry {
        RouteQueueEntry {
            estimate: self.whole_estimate(query, self.distance@[wire] as int, wire) as u32,
            distance: self.distance@[wire],
            arrival_ps: self.arrival_ps@[wire],
            wire: wire as u32,
        }
    }

    /// The wire is a seed, or a hop of the space leads to it from a wire with no worse label.
    pub open spec fn linked(&self, space: SearchSpace<'_>, wire: int) -> bool {
        let to = WireId(wire as usize);
        if self.previous_wire@[wire] == u32::MAX {
            space.seed(to) && self.distance@[wire] == space.query.start_cost(to)
        } else {
            let from = self.previous_wire@[wire] as int;
            let pip = PipId(self.previous_pip@[wire] as usize);
            &&& 0 <= from < self.seen@.len()
            &&& self.reached(from)
            &&& space.hop(WireId(from as usize), pip, to)
            &&& self.label_at_most(from, wire)
            &&& space.query.has_fixed_costs() ==> space.query.relax(
                self.distance@[from] as int,
                pip,
                to,
            ) <= self.distance@[wire]
        }
    }

    /// The chain of previous wires ends at a tree wire.
    pub open spec fn anchored(&self, wire: int) -> bool {
        exists|depth: nat| depth_is(self.previous_wire@, wire, depth)
    }

    /// One listed hop of a wire has been followed, if the space allows it.
    pub open spec fn hop_done(&self, space: SearchSpace<'_>, wire: int, index: int) -> bool {
        let hop = space.query.graph.device.neighbors@[wire]@[index];
        space.hop(WireId(wire as usize), hop.1, hop.0) ==> {
            &&& self.reached(hop.0.0 as int)
            &&& space.query.has_fixed_costs() ==> self.distance@[hop.0.0 as int]
                <= space.query.relax(self.distance@[wire] as int, hop.1, hop.0)
        }
    }

    /// The first hops of a wire have been followed.
    pub open spec fn hops_done(&self, space: SearchSpace<'_>, wire: int, count: int) -> bool {
        forall|index: int| 0 <= index < count ==> #[trigger] self.hop_done(space, wire, index)
    }

    /// Every hop of the wire has been followed, and the wire is not the goal.
    pub open spec fn expanded(&self, space: SearchSpace<'_>, wire: int) -> bool {
        &&& wire != space.query.goal.0
        &&& self.hops_done(space, wire, space.query.graph.device.neighbors@[wire]@.len() as int)
    }

    /// The wire waits in the queue under its present label.
    pub open spec fn pending(&self, query: RouteQuery<'_>, wire: int) -> bool {
        self.queue@.contains(self.entry_of(query, wire))
    }

    /// The wire waits or has been expanded.
    pub open spec fn handled(&self, space: SearchSpace<'_>, wire: int) -> bool {
        self.pending(space.query, wire) || self.expanded(space, wire)
    }

    /// Every reached wire but one waits or has been expanded.
    pub open spec fn covered(&self, space: SearchSpace<'_>, except: int) -> bool {
        forall|w: int|
            0 <= w < self.seen@.len() && w != except && self.reached(w) ==> #[trigger] self.handled(
                space,
                w,
            )
    }

    /// Every queued entry carries the estimate of its distance.
    pub open spec fn queue_ok(&self, query: RouteQuery<'_>) -> bool {
        forall|e: RouteQueueEntry| #[trigger]
            self.queue@.contains(e) ==> e.wire < self.seen@.len() && e.estimate
                == self.whole_estimate(query, e.distance as int, e.wire as int)
    }

    /// Seeds are reached at their own cost.
    pub open spec fn seeded(&self, space: SearchSpace<'_>) -> bool {
        forall|w: int|
            0 <= w < self.seen@.len() && #[trigger] space.seed(WireId(w as usize)) ==> {
                &&& self.reached(w)
                &&& self.previous_wire@[w] == u32::MAX
            }
    }

    /// Every reached wire is linked and anchored, and the marks say which wires are closed.
    pub open spec fn sound(&self, space: SearchSpace<'_>) -> bool {
        &&& self.wf(space.query.graph.device.wires@.len() as int)
        &&& space.query.wf()
        &&& space.starts.subset_of(space.closed_wires)
        &&& self.queue_ok(space.query)
        &&& forall|w: int|
            0 <= w < self.seen@.len() && self.reached(w) ==> #[trigger] self.linked(space, w)
        &&& forall|w: int|
            0 <= w < self.seen@.len() && self.reached(w) ==> #[trigger] self.anchored(w)
        &&& forall|w: int|
            0 <= w < self.seen@.len() ==> (#[trigger] self.start_mark@[w] == self.epoch
                <==> space.closed_wires.contains(WireId(w as usize)))
    }

    /// What a wire still has to give: its label, or more than any label.
    pub open spec fn potential_at(&self, wire: int) -> nat {
        if self.reached(wire) {
            (self.distance@[wire] * 0x1_0000_0000 + self.arrival_ps@[wire]) as nat
        } else {
            0x1_0000_0000_0000_0000
        }
    }

    /// Sum of what the first wires still have to give.
    pub open spec fn potential(&self, count: int) -> nat
        decreases count,
    {
        if count <= 0 {
            0
        } else {
            self.potential(count - 1) + self.potential_at(count - 1)
        }
    }

    /// Replacing one label by a better one lowers the sum.
    pub proof fn lemma_potential(before: RouteSearch, after: RouteSearch, wire: int, count: int)
        requires
            0 <= wire,
            forall|w: int|
                0 <= w < count && w != wire ==> #[trigger] after.potential_at(w)
                    == before.potential_at(w),
            after.potential_at(wire) < before.potential_at(wire),
        ensures
            wire < count ==> after.potential(count) < before.potential(count),
            wire >= count ==> after.potential(count) == before.potential(count),
        decreases count,
    {
        if count > 0 {
            Self::lemma_potential(before, after, wire, count - 1);
            if count - 1 != wire {
                assert(after.potential_at(count - 1) == before.potential_at(count - 1));
            }
        }
    }

    /// The chain of a wire with a better label does not pass the wire that is hung elsewhere.
    proof fn lemma_chain_avoids(
        &self,
        space: SearchSpace<'_>,
        wire: int,
        depth: nat,
        moved: int,
        parent: u32,
    )
        requires
            self.sound(space),
            0 <= wire < self.seen@.len(),
            0 <= moved < self.seen@.len(),
            self.reached(wire),
            depth_is(self.previous_wire@, wire, depth),
            self.reached(moved) ==> !self.label_at_most(moved, wire),
        ensures
            depth_is(self.previous_wire@.update(moved, parent), wire, depth),
        decreases depth,
    {
        assert(wire != moved);
        if self.previous_wire@[wire] != u32::MAX {
            let up = self.previous_wire@[wire] as int;
            assert(self.linked(space, wire));
            self.lemma_chain_avoids(space, up, (depth - 1) as nat, moved, parent);
        }
    }

    /// Hanging one wire elsewhere keeps every chain finite.
    proof fn lemma_rehang(
        previous: Seq<u32>,
        wire: int,
        depth: nat,
        moved: int,
        parent: u32,
        moved_depth: nat,
    ) -> (new_depth: nat)
        requires
            depth_is(previous, wire, depth),
            0 <= moved < previous.len(),
            depth_is(previous.update(moved, parent), moved, moved_depth),
        ensures
            depth_is(previous.update(moved, parent), wire, new_depth),
        decreases depth,
    {
        if wire == moved {
            moved_depth
        } else if previous[wire] == u32::MAX {
            0
        } else {
            let up = Self::lemma_rehang(
                previous,
                previous[wire] as int,
                (depth - 1) as nat,
                moved,
                parent,
                moved_depth,
            );
            (up + 1) as nat
        }
    }

    /// Giving one wire a better label by a hop from a reached wire keeps the search sound.
    pub proof fn lemma_relaxed(
        before: RouteSearch,
        after: RouteSearch,
        space: SearchSpace<'_>,
        from: int,
        pip: PipId,
        to: int,
        except: int,
    )
        requires
            before.sound(space),
            before.seeded(space),
            before.covered(space, except),
            0 <= from < before.seen@.len(),
            0 <= to < before.seen@.len(),
            before.reached(from),
            space.hop(WireId(from as usize), pip, WireId(to as usize)),
            after.epoch == before.epoch,
            after.start_mark == before.start_mark,
            after.estimate_base_delay_ps == before.estimate_base_delay_ps,
            after.estimate_delay_per_tile_ps == before.estimate_delay_per_tile_ps,
            after.seen@ == before.seen@.update(to, before.epoch),
            after.distance@ == before.distance@.update(to, after.distance@[to]),
            after.arrival_ps@ == before.arrival_ps@.update(to, after.arrival_ps@[to]),
            after.previous_wire@ == before.previous_wire@.update(to, from as u32),
            after.previous_pip@ == before.previous_pip@.update(to, pip.0 as u32),
            after.queue.wf(),
            after.queue@ == before.queue@.insert(after.entry_of(space.query, to)),
            before.reached(to) ==> (after.distance@[to] < before.distance@[to] || (
            after.distance@[to] == before.distance@[to] && after.arrival_ps@[to]
                < before.arrival_ps@[to])),
            after.label_at_most(from, to),
            from != to,
            space.query.has_fixed_costs() ==> space.query.relax(
                before.distance@[from] as int,
                pip,
                WireId(to as usize),
            ) == after.distance@[to],
        ensures
            after.sound(space),
            after.seeded(space),
            after.covered(space, except),
            after.potential(before.seen@.len() as int) < before.potential(
                before.seen@.len() as int,
            ),
    {
        broadcast use vstd::multiset::group_multiset_axioms;

        let n = before.seen@.len() as int;
        let query = space.query;
        space.query.graph.device.lemma_listed(WireId(from as usize), pip, WireId(to as usize));
        assert(WireId(to as usize).0 == to);
        assert(WireId(from as usize).0 == from);
        // The new parent's chain does not pass the moved wire.
        assert(before.anchored(from));
        let depth = choose|depth: nat| depth_is(before.previous_wire@, from, depth);
        before.lemma_chain_avoids(space, from, depth, to, from as u32);
        assert(depth_is(after.previous_wire@, from, depth));
        assert(depth_is(after.previous_wire@, to, (depth + 1) as nat));
        assert forall|w: int| 0 <= w < n && after.reached(w) implies #[trigger] after.anchored(w) by {
            if w != to {
                assert(before.reached(w));
                assert(before.anchored(w));
                let old_depth = choose|depth: nat| depth_is(before.previous_wire@, w, depth);
                let new_depth = Self::lemma_rehang(
                    before.previous_wire@,
                    w,
                    old_depth,
                    to,
                    from as u32,
                    (depth + 1) as nat,
                );
            }
        }
        assert forall|w: int| 0 <= w < n && after.reached(w) implies #[trigger] after.linked(
            space,
            w,
        ) by {
            if w != to {
                assert(before.reached(w));
                assert(before.linked(space, w));
                if before.previous_wire@[w] != u32::MAX {
                    let up = before.previous_wire@[w] as int;
                    let hop_pip = PipId(before.previous_pip@[w] as usize);
                    if up == to {
                        query.lemma_relax_monotone(
                            after.distance@[to] as int,
                            before.distance@[to] as int,
                            hop_pip,
                            WireId(w as usize),
                        );
                    }
                }
            }
        }
        assert forall|e: RouteQueueEntry| #[trigger] after.queue@.contains(e) implies e.wire
            < after.seen@.len() && e.estimate == after.whole_estimate(
            query,
            e.distance as int,
            e.wire as int,
        ) by {
            if e != after.entry_of(query, to) {
                assert(before.queue@.contains(e));
            }
        }
        assert forall|w: int| 0 <= w < n && w != except && after.reached(w) implies #[trigger] after.handled(
            space,
            w,
        ) by {
            if w == to {
                assert(after.pending(query, w));
            } else {
                assert(before.reached(w));
                assert(before.handled(space, w));
                if before.pending(query, w) {
                    assert(after.entry_of(query, w) == before.entry_of(query, w));
                    assert(after.pending(query, w));
                } else {
                    Self::lemma_hops_kept(
                        before,
                        after,
                        space,
                        w,
                        to,
                        query.graph.device.neighbors@[w]@.len() as int,
                    );
                }
            }
        }
        assert forall|w: int| 0 <= w < n && #[trigger] space.seed(WireId(w as usize)) implies {
            &&& after.reached(w)
            &&& after.previous_wire@[w] == u32::MAX
        } by {
            assert(space.closed_wires.contains(WireId(w as usize)));
            assert(w != to);
        }
        assert forall|w: int| 0 <= w < n && w != to implies #[trigger] after.potential_at(w)
            == before.potential_at(w) by {
        }
        Self::lemma_potential(before, after, to, n);
    }

    /// Followed hops stay followed while labels only improve.
    pub proof fn lemma_hops_kept(
        before: RouteSearch,
        after: RouteSearch,
        space: SearchSpace<'_>,
        wire: int,
        to: int,
        count: int,
    )
        requires
            before.sound(space),
            0 <= wire < before.seen@.len(),
            0 <= to < before.seen@.len(),
            wire != to,
            0 <= count <= space.query.graph.device.neighbors@[wire]@.len(),
            before.hops_done(space, wire, count),
            after.epoch == before.epoch,
            after.seen@ == before.seen@.update(to, before.epoch),
            after.distance@ == before.distance@.update(to, after.distance@[to]),
            before.reached(to) ==> after.distance@[to] <= before.distance@[to],
        ensures
            after.hops_done(space, wire, count),
    {
        assert forall|index: int| 0 <= index < count implies #[trigger] after.hop_done(
            space,
            wire,
            index,
        ) by {
            assert(before.hop_done(space, wire, index));
            space.query.graph.device.lemma_hop(WireId(wire as usize), index);
        }
    }

    /// From a queue whose least entry is the goal, every walk to the goal passes a
    /// wire at which it looked no better than the goal does now.
    pub proof fn lemma_walk_is_no_better(
        &self,
        space: SearchSpace<'_>,
        wires: Seq<WireId>,
        pips: Seq<PipId>,
        index: int,
    ) -> (witness: int)
        requires
            self.sound(space),
            self.seeded(space),
            self.covered(space, -1),
            space.query.has_fixed_costs(),
            space.is_walk(wires, pips),
            wires.last() == space.query.goal,
            0 <= index < wires.len(),
            wires[index].0 < self.seen@.len(),
            self.reached(wires[index].0 as int),
            self.distance@[wires[index].0 as int] <= space.walk_cost(wires, pips, index),
            self.reached(space.query.goal.0 as int),
            forall|e: RouteQueueEntry| #[trigger]
                self.queue@.contains(e) ==> self.entry_of(
                    space.query,
                    space.query.goal.0 as int,
                ).estimate <= e.estimate,
        ensures
            0 <= witness < wires.len(),
            self.whole_estimate(
                space.query,
                self.distance@[space.query.goal.0 as int] as int,
                space.query.goal.0 as int,
            ) <= self.whole_estimate(
                space.query,
                space.walk_cost(wires, pips, witness),
                wires[witness].0 as int,
            ),
        decreases wires.len() - index,
    {
        let query = space.query;
        let wire = wires[index].0 as int;
        assert(self.handled(space, wire));
        if self.expanded(space, wire) {
            assert(index < pips.len()) by {
                if index == wires.len() - 1 {
                    assert(wires[index] == wires.last());
                }
            }
            assert(space.hop(wires[index], pips[index], wires[index + 1]));
            query.graph.device.lemma_listed(wires[index], pips[index], wires[index + 1]);
            let k = query.graph.device.neighbors@[wire]@.index_of((wires[index + 1], pips[index]));
            assert(self.hop_done(space, wire, k));
            assert(WireId(wire as usize) == wires[index]);
            query.lemma_relax_monotone(
                self.distance@[wire] as int,
                space.walk_cost(wires, pips, index),
                pips[index],
                wires[index + 1],
            );
            self.lemma_walk_is_no_better(space, wires, pips, index + 1)
        } else {
            assert(self.pending(query, wire));
            assert(self.queue@.contains(self.entry_of(query, wire)));
            index
        }
    }

    /// Once nothing waits, every wire of every walk has been reached and expanded.
    pub proof fn lemma_walk_is_reached(
        &self,
        space: SearchSpace<'_>,
        wires: Seq<WireId>,
        pips: Seq<PipId>,
        index: int,
    )
        requires
            self.sound(space),
            self.seeded(space),
            self.covered(space, -1),
            self.queue@.len() == 0,
            space.is_walk(wires, pips),
            0 <= index < wires.len(),
            wires[0].0 < self.seen@.len(),
        ensures
            wires[index].0 < self.seen@.len(),
            self.reached(wires[index].0 as int),
            wires[index] != space.query.goal,
        decreases index,
    {
        broadcast use vstd::multiset::group_multiset_axioms;

        let query = space.query;
        if index == 0 {
            assert(WireId((wires[0].0 as int) as usize) == wires[0]);
        } else {
            self.lemma_walk_is_reached(space, wires, pips, index - 1);
            let wire = wires[index - 1].0 as int;
            assert(self.handled(space, wire));
            self.lemma_nothing_waits(query, wire);
            assert(space.hop(wires[index - 1], pips[index - 1], wires[index]));
            query.graph.device.lemma_listed(wires[index - 1], pips[index - 1], wires[index]);
            let k = query.graph.device.neighbors@[wire]@.index_of((wires[index], pips[index - 1]));
            assert(self.hop_done(space, wire, k));
            assert(WireId(wire as usize) == wires[index - 1]);
        }
        let wire = wires[index].0 as int;
        assert(self.handled(space, wire));
        self.lemma_nothing_waits(query, wire);
    }

    /// Taking an entry out of the queue changes nothing else.
    pub open spec fn popped_from(&self, before: RouteSearch, entry: RouteQueueEntry) -> bool {
        &&& self.epoch == before.epoch
        &&& self.seen == before.seen
        &&& self.start_mark == before.start_mark
        &&& self.distance == before.distance
        &&& self.arrival_ps == before.arrival_ps
        &&& self.previous_wire == before.previous_wire
        &&& self.previous_pip == before.previous_pip
        &&& self.same_settings(&before)
        &&& self.queue.wf()
        &&& before.queue@.contains(entry)
        &&& self.queue@ == before.queue@.remove(entry)
    }

    /// Taking an entry out keeps the search sound and the sum of its labels.
    pub proof fn lemma_popped(&self, after: RouteSearch, space: SearchSpace<'_>, entry: RouteQueueEntry)
        requires
            self.sound(space),
            self.seeded(space),
            after.popped_from(*self, entry),
        ensures
            after.sound(space),
            after.seeded(space),
            entry.wire < self.seen@.len(),
            entry.estimate == self.whole_estimate(
                space.query,
                entry.distance as int,
                entry.wire as int,
            ),
            after.queue@.len() < self.queue@.len(),
    {
        broadcast use vstd::multiset::group_multiset_axioms;

        assert forall|e: RouteQueueEntry| #[trigger] after.queue@.contains(e) implies e.wire
            < after.seen@.len() && e.estimate == after.whole_estimate(
            space.query,
            e.distance as int,
            e.wire as int,
        ) by {
            assert(self.queue@.contains(e));
        }
        assert forall|w: int| 0 <= w < after.seen@.len() && after.reached(w) implies #[trigger] after.linked(
            space,
            w,
        ) by {
            assert(self.reached(w));
            assert(self.linked(space, w));
        }
        assert forall|w: int| 0 <= w < after.seen@.len() && after.reached(w) implies #[trigger] after.anchored(
            w,
        ) by {
            assert(self.reached(w));
            assert(self.anchored(w));
        }
        assert(after.queue@.insert(entry) =~= self.queue@);
        assert(after.queue@.insert(entry).len() == after.queue@.len() + 1);
    }

    /// Taking an entry out leaves every other wire waiting or expanded.
    pub proof fn lemma_taken(&self, after: RouteSearch, space: SearchSpace<'_>, entry: RouteQueueEntry)
        requires
            self.sound(space),
            self.covered(space, -1),
            after.popped_from(*self, entry),
            entry.wire < self.seen@.len(),
        ensures
            after.covered(space, entry.wire as int),
            entry != self.entry_of(space.query, entry.wire as int) ==> after.covered(space, -1),
    {
        broadcast use vstd::multiset::group_multiset_axioms;

        assert forall|w: int|
            0 <= w < after.seen@.len() && after.reached(w) && (w != entry.wire || entry
                != self.entry_of(space.query, entry.wire as int)) implies #[trigger] after.handled(
            space,
            w,
        ) by {
            assert(self.reached(w));
            assert(self.handled(space, w));
            assert(after.entry_of(space.query, w) == self.entry_of(space.query, w));
            if self.pending(space.query, w) {
                assert(self.entry_of(space.query, w) != entry);
                assert(after.pending(space.query, w));
            } else {
                assert forall|index: int|
                    0 <= index
                        < space.query.graph.device.neighbors@[w]@.len() implies #[trigger] after.hop_done(
                    space,
                    w,
                    index,
                ) by {
                    assert(self.hop_done(space, w, index));
                }
            }
        }
    }

    /// Taking an entry out keeps the sum of the labels.
    pub proof fn lemma_same_potential(&self, after: RouteSearch, count: int)
        requires
            after.epoch == self.epoch,
            after.seen == self.seen,
            after.distance == self.distance,
            after.arrival_ps == self.arrival_ps,
        ensures
            after.potential(count) == self.potential(count),
        decreases count,
    {
        if count > 0 {
            self.lemma_same_potential(after, count - 1);
        }
    }

    /// An empty queue holds no entry.
    proof fn lemma_nothing_waits(&self, query: RouteQuery<'_>, wire: int)
        requires
            self.queue@.len() == 0,
        ensures
            !self.pending(query, wire),
    {
        broadcast use vstd::multiset::group_multiset_axioms;

        if self.pending(query, wire) {
            let e = self.entry_of(query, wire);
            assert(self.queue@.remove(e).insert(e) =~= self.queue@);
            assert(self.queue@.remove(e).insert(e).len() == self.queue@.remove(e).len() + 1);
        }
    }
}

impl<'a> RouteQuery<'a> {
    /// A cheaper route stays no dearer after one hop.
    pub proof fn lemma_relax_monotone(&self, cheap: int, dear: int, pip: PipId, to: WireId)
        requires
            cheap <= dear,
        ensures
            self.relax(cheap, pip, to) <= self.relax(dear, pip, to),
    {
    }
}

} // verus!
