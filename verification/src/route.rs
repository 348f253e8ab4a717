//! Routed arcs of one net and the resources they share.

use vstd::prelude::*;

use crate::cost::clip_u32;
use crate::device::Device;
use crate::model::{CellPinId, NetId, PipId, WireId};
use crate::ordered::{
    OrderedKey, OrderedMap, copy_keys, lemma_counterpart, lemma_lex_irreflexive, lemma_lex_total, lemma_lex_transitive, lemma_mapped_multiset, lemma_move_multiset, lex_before, lex_precedes, same_keys,
};

verus! {

/// One ordered driver-to-endpoint route.
///
/// Logical sink arcs carry the sink. An arc without a sink is architecture
/// topology that no design edge needs.
#[derive(Clone, Debug, PartialEq, Eq)]
pub struct RouteArc {
    /// Logical sink reached by this arc, when it represents a design edge.
    pub sink: Option<CellPinId>,
    /// Wires ordered from the placed driver to the endpoint.
    pub wires: Vec<WireId>,
    /// PIPs ordered from the placed driver to the endpoint. PIP `i` connects
    /// `wires[i]` to `wires[i + 1]`.
    pub pips: Vec<PipId>,
}

impl RouteArc {
    /// One PIP leads from each wire to the next, from the driver on, and no wire repeats.
    pub open spec fn is_path(&self, device: &Device, driver: WireId) -> bool {
        &&& self.wires@.len() == self.pips@.len() + 1
        &&& self.wires@[0] == driver
        &&& self.wires@.no_duplicates()
        &&& forall|i: int|
            0 <= i < self.pips@.len() ==> device.leads(
                self.wires@[i],
                #[trigger] self.pips@[i],
                self.wires@[i + 1],
            )
    }

    /// The two arcs have the same sink, wires, and PIPs.
    pub open spec fn same(&self, other: &RouteArc) -> bool {
        &&& self.sink == other.sink
        &&& self.wires@ == other.wires@
        &&& self.pips@ == other.pips@
    }

    /// Whether the two arcs have the same sink, wires, and PIPs.
    pub fn equals(&self, other: &RouteArc) -> (result: bool)
        ensures
            result == self.same(other),
    {
        let sinks = match (self.sink, other.sink) {
            (None, None) => true,
            (Some(a), Some(b)) => a == b,
            _ => false,
        };
        sinks && same_keys(&self.wires, &other.wires) && same_keys(&self.pips, &other.pips)
    }

    /// A copy of the arc.
    pub fn copied(&self) -> (result: Self)
        ensures
            result.same(self),
    {
        RouteArc {
            sink: self.sink,
            wires: copy_keys(&self.wires),
            pips: copy_keys(&self.pips),
        }
    }
}

/// Position of a sink in the arc order; arcs without a sink come first.
pub open spec fn sink_rank(sink: Option<CellPinId>) -> int {
    match sink {
        Some(pin) => pin.0 as int,
        None => -1,
    }
}

/// The first arc comes before the second: by sink, then wires, then PIPs.
pub open spec fn arc_before(a: RouteArc, b: RouteArc) -> bool {
    ||| sink_rank(a.sink) < sink_rank(b.sink)
    ||| sink_rank(a.sink) == sink_rank(b.sink) && lex_before(a.wires@, b.wires@)
    ||| sink_rank(a.sink) == sink_rank(b.sink) && a.wires@ == b.wires@ && lex_before(
        a.pips@,
        b.pips@,
    )
}

/// No arc stands behind an arc that should come after it.
pub open spec fn arcs_sorted(arcs: Seq<RouteArc>) -> bool {
    forall|i: int, j: int|
        0 <= i < j < arcs.len() ==> !arc_before(#[trigger] arcs[j], #[trigger] arcs[i])
}

/// Whether the first arc comes before the second.
fn arc_precedes(a: &RouteArc, b: &RouteArc) -> (result: bool)
    ensures
        result == arc_before(*a, *b),
{
    proof {
        lemma_lex_irreflexive(a.wires@);
        lemma_lex_total(a.wires@, b.wires@);
    }
    match (a.sink, b.sink) {
        (None, Some(_)) => return true,
        (Some(_), None) => return false,
        (None, None) => {},
        (Some(left), Some(right)) => {
            if left.0 != right.0 {
                return left.0 < right.0;
            }
        },
    }
    if lex_precedes(&a.wires, &b.wires) {
        return true;
    }
    if lex_precedes(&b.wires, &a.wires) {
        proof {
            if a.wires@ == b.wires@ {
                lemma_lex_irreflexive(a.wires@);
            }
        }
        return false;
    }
    lex_precedes(&a.pips, &b.pips)
}

/// Arc order is transitive.
proof fn lemma_arc_transitive(a: RouteArc, b: RouteArc, c: RouteArc)
    requires
        !arc_before(b, a),
        !arc_before(c, b),
    ensures
        !arc_before(c, a),
{
    if arc_before(c, a) {
        lemma_lex_total(a.wires@, b.wires@);
        lemma_lex_total(b.wires@, c.wires@);
        lemma_lex_total(a.pips@, b.pips@);
        lemma_lex_total(b.pips@, c.pips@);
        lemma_lex_irreflexive(a.wires@);
        lemma_lex_irreflexive(a.pips@);
        if lex_before(a.wires@, b.wires@) && lex_before(b.wires@, c.wires@) {
            lemma_lex_transitive(a.wires@, b.wires@, c.wires@);
        }
        if lex_before(a.wires@, c.wires@) && lex_before(c.wires@, a.wires@) {
            lemma_lex_transitive(a.wires@, c.wires@, a.wires@);
        }
        if lex_before(a.pips@, b.pips@) && lex_before(b.pips@, c.pips@) {
            lemma_lex_transitive(a.pips@, b.pips@, c.pips@);
        }
        if lex_before(a.pips@, c.pips@) && lex_before(c.pips@, a.pips@) {
            lemma_lex_transitive(a.pips@, c.pips@, a.pips@);
        }
    }
}

/// Arc order is asymmetric.
proof fn lemma_arc_asymmetric(a: RouteArc, b: RouteArc)
    requires
        arc_before(a, b),
    ensures
        !arc_before(b, a),
{
    lemma_lex_irreflexive(a.wires@);
    lemma_lex_irreflexive(a.pips@);
    if lex_before(a.wires@, b.wires@) && lex_before(b.wires@, a.wires@) {
        lemma_lex_transitive(a.wires@, b.wires@, a.wires@);
    }
    if lex_before(a.pips@, b.pips@) && lex_before(b.pips@, a.pips@) {
        lemma_lex_transitive(a.pips@, b.pips@, a.pips@);
    }
}

/// Puts arcs in arc order.
fn sort_arcs(arcs: &mut Vec<RouteArc>)
    ensures
        arcs_sorted(final(arcs)@),
        final(arcs)@.to_multiset() == old(arcs)@.to_multiset(),
        final(arcs)@.len() == old(arcs)@.len(),
{
    let mut done: usize = 0;
    while done < arcs.len()
        invariant
            done <= arcs@.len(),
            arcs_sorted(arcs@.take(done as int)),
            arcs@.to_multiset() == old(arcs)@.to_multiset(),
            arcs@.len() == old(arcs)@.len(),
        decreases arcs@.len() - done,
    {
        let mut place: usize = done;
        let ghost current = arcs@[done as int];
        while place > 0 && arc_precedes(&arcs[done], &arcs[place - 1])
            invariant
                place <= done < arcs@.len(),
                current == arcs@[done as int],
                arcs_sorted(arcs@.take(done as int)),
                forall|i: int|
                    place <= i < done ==> arc_before(current, #[trigger] arcs@[i]),
            decreases place,
        {
            place = place - 1;
        }
        let ghost before = arcs@;
        let arc = arcs.remove(done);
        arcs.insert(place, arc);
        proof {
            lemma_move_multiset(before, done as int, place as int);
            let after = arcs@;
            assert(after =~= before.remove(done as int).insert(place as int, current));
            assert forall|i: int| 0 <= i < place implies !arc_before(
                current,
                #[trigger] before[i],
            ) by {
                assert(!arc_before(current, before[place - 1]));
                if i < place - 1 {
                    let sorted = before.take(done as int);
                    assert(!arc_before(sorted[place - 1], sorted[i]));
                    lemma_arc_transitive(before[i], before[place - 1], current);
                }
            }
            let sorted = before.take(done as int);
            let longer = after.take(done + 1);
            assert forall|i: int, j: int| 0 <= i < j < longer.len() implies !arc_before(
                #[trigger] longer[j],
                #[trigger] longer[i],
            ) by {
                let a = if i < place { i } else { i - 1 };
                let b = if j < place { j } else { j - 1 };
                if i == place {
                    assert(longer[j] == before[b]);
                    assert(arc_before(current, before[b]));
                    lemma_arc_asymmetric(current, before[b]);
                } else if j == place {
                    assert(longer[i] == before[i]);
                    assert(!arc_before(current, before[i]));
                } else {
                    assert(longer[i] == sorted[a]);
                    assert(longer[j] == sorted[b]);
                }
            }
        }
        done = done + 1;
    }
    assert(arcs@.take(arcs@.len() as int) =~= arcs@);
}

/// Number of times the arcs use a wire.
pub open spec fn wire_uses(arcs: Seq<RouteArc>, wire: WireId) -> nat
    decreases arcs.len(),
{
    if arcs.len() == 0 {
        0
    } else {
        wire_uses(arcs.drop_last(), wire) + arcs.last().wires@.to_multiset().count(wire)
    }
}

/// Number of times the arcs use a PIP.
pub open spec fn pip_uses(arcs: Seq<RouteArc>, pip: PipId) -> nat
    decreases arcs.len(),
{
    if arcs.len() == 0 {
        0
    } else {
        pip_uses(arcs.drop_last(), pip) + arcs.last().pips@.to_multiset().count(pip)
    }
}

/// A wire has uses exactly where some arc passes it.
pub proof fn lemma_wire_uses(arcs: Seq<RouteArc>, wire: WireId)
    ensures
        wire_uses(arcs, wire) > 0 <==> exists|i: int|
            0 <= i < arcs.len() && (#[trigger] arcs[i]).wires@.contains(wire),
    decreases arcs.len(),
{
    if arcs.len() > 0 {
        let rest = arcs.drop_last();
        lemma_wire_uses(rest, wire);
        arcs.last().wires@.to_multiset_ensures();
        if wire_uses(rest, wire) > 0 {
            let i = choose|i: int|
                0 <= i < rest.len() && (#[trigger] rest[i]).wires@.contains(wire);
            assert(arcs[i].wires@.contains(wire));
        }
        if arcs.last().wires@.contains(wire) {
            assert(arcs[arcs.len() - 1].wires@.contains(wire));
        }
        if exists|i: int| 0 <= i < arcs.len() && (#[trigger] arcs[i]).wires@.contains(wire) {
            let i = choose|i: int|
                0 <= i < arcs.len() && (#[trigger] arcs[i]).wires@.contains(wire);
            if i < rest.len() {
                assert(rest[i].wires@.contains(wire));
            }
        }
    }
}

/// A PIP has uses exactly where some arc passes it.
pub proof fn lemma_pip_uses(arcs: Seq<RouteArc>, pip: PipId)
    ensures
        pip_uses(arcs, pip) > 0 <==> exists|i: int|
            0 <= i < arcs.len() && (#[trigger] arcs[i]).pips@.contains(pip),
    decreases arcs.len(),
{
    if arcs.len() > 0 {
        let rest = arcs.drop_last();
        lemma_pip_uses(rest, pip);
        arcs.last().pips@.to_multiset_ensures();
        if pip_uses(rest, pip) > 0 {
            let i = choose|i: int|
                0 <= i < rest.len() && (#[trigger] rest[i]).pips@.contains(pip);
            assert(arcs[i].pips@.contains(pip));
        }
        if arcs.last().pips@.contains(pip) {
            assert(arcs[arcs.len() - 1].pips@.contains(pip));
        }
        if exists|i: int| 0 <= i < arcs.len() && (#[trigger] arcs[i]).pips@.contains(pip) {
            let i = choose|i: int|
                0 <= i < arcs.len() && (#[trigger] arcs[i]).pips@.contains(pip);
            if i < rest.len() {
                assert(rest[i].pips@.contains(pip));
            }
        }
    }
}

/// A table holds every used key with its number of uses.
pub open spec fn counts_uses<K: OrderedKey>(
    table: OrderedMap<K, u32>,
    uses: spec_fn(K) -> nat,
) -> bool {
    &&& table.wf()
    &&& forall|k: K| #[trigger]
        table@.contains_key(k) <==> uses(k) > 0
    &&& forall|k: K| #[trigger]
        table@.contains_key(k) ==> table@[k] == clip_u32(uses(k) as int)
}

/// Counts every key of a list.
fn count_all<K: OrderedKey>(
    table: &mut OrderedMap<K, u32>,
    keys: &Vec<K>,
    Ghost(uses): Ghost<spec_fn(K) -> nat>,
)
    requires
        counts_uses(*old(table), uses),
    ensures
        counts_uses(*final(table), |k: K| uses(k) + keys@.to_multiset().count(k)),
{
    broadcast use vstd::multiset::group_multiset_axioms;

    let mut index: usize = 0;
    proof {
        keys@.take(0).to_multiset_ensures();
        assert(keys@.take(0).to_multiset() =~= vstd::multiset::Multiset::<K>::empty());
    }
    while index < keys.len()
        invariant
            index <= keys@.len(),
            counts_uses(
                *table,
                |k: K| uses(k) + keys@.take(index as int).to_multiset().count(k),
            ),
        decreases keys@.len() - index,
    {
        let key = keys[index];
        let ghost before = keys@.take(index as int);
        let ghost earlier = table@;
        let count: u32 = match table.get(key) {
            Some(count) => *count,
            None => 0,
        };
        table.insert(key, count.saturating_add(1));
        proof {
            before.to_multiset_ensures();
            assert(keys@.take(index + 1) =~= before.push(key));
            assert(keys@.take(index + 1).to_multiset() =~= before.to_multiset().insert(key));
            let now = |k: K| uses(k) + keys@.take(index + 1).to_multiset().count(k);
            let was = |k: K| uses(k) + before.to_multiset().count(k);
            assert forall|k: K| #[trigger] table@.contains_key(k) <==> now(k) > 0 by {
                assert(earlier.contains_key(k) <==> was(k) > 0);
            }
            assert forall|k: K| #[trigger] table@.contains_key(k) implies table@[k] == clip_u32(
                now(k) as int,
            ) by {
                assert(earlier.contains_key(k) <==> was(k) > 0);
                if earlier.contains_key(k) {
                    assert(earlier[k] == clip_u32(was(k) as int));
                }
            }
        }
        index = index + 1;
    }
    assert(keys@.take(keys@.len() as int) =~= keys@);
}

/// Counts the uses of every wire and PIP of some arcs.
pub fn route_resource_refs(arcs: &Vec<RouteArc>) -> (result: (
    OrderedMap<WireId, u32>,
    OrderedMap<PipId, u32>,
))
    ensures
        counts_uses(result.0, |w: WireId| wire_uses(arcs@, w)),
        counts_uses(result.1, |p: PipId| pip_uses(arcs@, p)),
{
    let mut wire_refs: OrderedMap<WireId, u32> = OrderedMap::new();
    let mut pip_refs: OrderedMap<PipId, u32> = OrderedMap::new();
    let mut index: usize = 0;
    while index < arcs.len()
        invariant
            index <= arcs@.len(),
            counts_uses(wire_refs, |w: WireId| wire_uses(arcs@.take(index as int), w)),
            counts_uses(pip_refs, |p: PipId| pip_uses(arcs@.take(index as int), p)),
        decreases arcs@.len() - index,
    {
        let ghost before = arcs@.take(index as int);
        let ghost after = arcs@.take(index + 1);
        proof {
            assert(after.drop_last() =~= before);
        }
        count_all(
            &mut wire_refs,
            &arcs[index].wires,
            Ghost(|w: WireId| wire_uses(before, w)),
        );
        count_all(&mut pip_refs, &arcs[index].pips, Ghost(|p: PipId| pip_uses(before, p)));
        proof {
            let wires_a = |w: WireId|
                (|w: WireId| wire_uses(before, w))(w) + arcs@[index as int].wires@.to_multiset().count(
                    w,
                );
            let wires_b = |w: WireId| wire_uses(after, w);
            assert forall|w: WireId| wires_a(w) == #[trigger] wires_b(w) by {}
            lemma_same_uses(wire_refs, wires_a, wires_b);
            let pips_a = |p: PipId|
                (|p: PipId| pip_uses(before, p))(p) + arcs@[index as int].pips@.to_multiset().count(
                    p,
                );
            let pips_b = |p: PipId| pip_uses(after, p);
            assert forall|p: PipId| pips_a(p) == #[trigger] pips_b(p) by {}
            lemma_same_uses(pip_refs, pips_a, pips_b);
        }
        index = index + 1;
    }
    assert(arcs@.take(arcs@.len() as int) =~= arcs@);
    (wire_refs, pip_refs)
}

/// A table counts any function with the same values.
proof fn lemma_same_uses<K: OrderedKey>(
    table: OrderedMap<K, u32>,
    a: spec_fn(K) -> nat,
    b: spec_fn(K) -> nat,
)
    requires
        counts_uses(table, a),
        forall|k: K| a(k) == #[trigger] b(k),
    ensures
        counts_uses(table, b),
{
    assert forall|k: K| #[trigger] table@.contains_key(k) <==> b(k) > 0 by {
        assert(a(k) == b(k));
    }
    assert forall|k: K| #[trigger] table@.contains_key(k) implies table@[k] == clip_u32(
        b(k) as int,
    ) by {
        assert(a(k) == b(k));
    }
}

/// Per-sink routes and shared-resource reference counts for one logical net.
#[derive(Clone, Debug, PartialEq, Eq)]
pub struct NetRoute {
    /// Logical net represented by these arcs.
    pub net: NetId,
    /// Canonical driver-to-endpoint arcs, ordered by logical sink then path.
    pub arcs: Vec<RouteArc>,
    /// Number of uses of each wire.
    pub wire_refs: OrderedMap<WireId, u32>,
    /// Number of uses of each PIP.
    pub pip_refs: OrderedMap<PipId, u32>,
}

impl NetRoute {
    /// The reference tables are ordered.
    pub open spec fn wf(&self) -> bool {
        self.wire_refs.wf() && self.pip_refs.wf()
    }

    /// The reference counts are those of the arcs.
    pub open spec fn is_fresh(&self) -> bool {
        &&& counts_uses(self.wire_refs, |w: WireId| wire_uses(self.arcs@, w))
        &&& counts_uses(self.pip_refs, |p: PipId| pip_uses(self.arcs@, p))
    }

    /// The net occupies the wire.
    pub open spec fn has_wire(&self, wire: WireId) -> bool {
        self.wire_refs@.contains_key(wire)
    }

    /// The net enables the PIP.
    pub open spec fn has_pip(&self, pip: PipId) -> bool {
        self.pip_refs@.contains_key(pip)
    }

    /// A fresh route has the wires and the PIPs that its arcs pass.
    pub proof fn lemma_resources(&self)
        requires
            self.is_fresh(),
        ensures
            forall|w: WireId| #[trigger]
                self.has_wire(w) <==> exists|i: int|
                    0 <= i < self.arcs@.len() && (#[trigger] self.arcs@[i]).wires@.contains(w),
            forall|p: PipId| #[trigger]
                self.has_pip(p) <==> exists|i: int|
                    0 <= i < self.arcs@.len() && (#[trigger] self.arcs@[i]).pips@.contains(p),
    {
        let wires = |w: WireId| wire_uses(self.arcs@, w);
        let pips = |p: PipId| pip_uses(self.arcs@, p);
        assert forall|w: WireId| #[trigger] self.has_wire(w) <==> exists|i: int|
            0 <= i < self.arcs@.len() && (#[trigger] self.arcs@[i]).wires@.contains(w) by {
            lemma_wire_uses(self.arcs@, w);
            assert(self.wire_refs@.contains_key(w) <==> wires(w) > 0);
        }
        assert forall|p: PipId| #[trigger] self.has_pip(p) <==> exists|i: int|
            0 <= i < self.arcs@.len() && (#[trigger] self.arcs@[i]).pips@.contains(p) by {
            lemma_pip_uses(self.arcs@, p);
            assert(self.pip_refs@.contains_key(p) <==> pips(p) > 0);
        }
    }

    /// The table names a PIP where its keys do.
    pub proof fn lemma_listed_pip(&self, pip: PipId)
        requires
            self.wf(),
        ensures
            self.pip_refs.ordered().contains(pip) <==> self.has_pip(pip),
    {
        if self.pip_refs.ordered().contains(pip) {
            self.pip_refs.entry(self.pip_refs.ordered().index_of(pip));
        }
        if self.has_pip(pip) {
            let i = self.pip_refs.key_index(pip);
            assert(self.pip_refs.ordered()[i] == pip);
        }
    }

    /// Some arc leads to the sink.
    pub open spec fn reaches(&self, sink: CellPinId) -> bool {
        exists|i: int| 0 <= i < self.arcs@.len() && (#[trigger] self.arcs@[i]).sink == Some(sink)
    }

    /// Both routes serve one net by the same arcs in the same order.
    pub open spec fn same_arcs(&self, other: &NetRoute) -> bool {
        &&& self.net == other.net
        &&& self.arcs@.len() == other.arcs@.len()
        &&& forall|i: int|
            0 <= i < self.arcs@.len() ==> (#[trigger] self.arcs@[i]).same(&other.arcs@[i])
    }

    /// Whether both routes serve one net by the same arcs in the same order.
    pub fn equals(&self, other: &NetRoute) -> (result: bool)
        ensures
            result == self.same_arcs(other),
    {
        if self.net != other.net || self.arcs.len() != other.arcs.len() {
            return false;
        }
        let mut index: usize = 0;
        while index < self.arcs.len()
            invariant
                index <= self.arcs@.len(),
                self.arcs@.len() == other.arcs@.len(),
                forall|i: int|
                    0 <= i < index ==> (#[trigger] self.arcs@[i]).same(&other.arcs@[i]),
            decreases self.arcs@.len() - index,
        {
            if !self.arcs[index].equals(&other.arcs[index]) {
                assert(!self.arcs@[index as int].same(&other.arcs@[index as int]));
                return false;
            }
            index = index + 1;
        }
        true
    }

    /// Builds a route and derives its shared-resource reference counts.
    pub fn new(net: NetId, arcs: Vec<RouteArc>) -> (result: Self)
        ensures
            result.net == net,
            result.is_fresh(),
            arcs_sorted(result.arcs@),
            result.arcs@.to_multiset() == arcs@.to_multiset(),
            arc_values(result.arcs@).to_multiset() == arc_values(arcs@).to_multiset(),
            result.arcs@.len() == arcs@.len(),
            forall|arc: RouteArc| #[trigger] result.arcs@.contains(arc) <==> arcs@.contains(arc),
    {
        let ghost given = arcs@;
        let mut arcs = arcs;
        sort_arcs(&mut arcs);
        proof {
            lemma_mapped_multiset(
                arcs@,
                given,
                |arc: RouteArc| (arc.sink, arc.wires@, arc.pips@),
            );
            given.to_multiset_ensures();
            arcs@.to_multiset_ensures();
            assert forall|arc: RouteArc| #[trigger] arcs@.contains(arc) <==> given.contains(arc) by {
                assert(arcs@.to_multiset().count(arc) == given.to_multiset().count(arc));
            }
        }
        let refs = route_resource_refs(&arcs);
        NetRoute { net, arcs, wire_refs: refs.0, pip_refs: refs.1 }
    }

    /// Unique occupied wires in stable ID order.
    pub fn wires(&self) -> (result: &[WireId])
        ensures
            result@ == self.wire_refs.ordered(),
    {
        self.wire_refs.keys()
    }

    /// Unique enabled PIPs in stable ID order.
    pub fn pips(&self) -> (result: &[PipId])
        ensures
            result@ == self.pip_refs.ordered(),
    {
        self.pip_refs.keys()
    }

    /// Number of arcs sharing `wire` inside this net.
    pub fn wire_ref_count(&self, wire: WireId) -> (result: u32)
        requires
            self.wf(),
        ensures
            result == if self.wire_refs@.contains_key(wire) {
                self.wire_refs@[wire]
            } else {
                0
            },
            self.is_fresh() ==> result == clip_u32(wire_uses(self.arcs@, wire) as int),
    {
        match self.wire_refs.get(wire) {
            Some(count) => *count,
            None => 0,
        }
    }

    /// Number of arcs sharing `pip` inside this net.
    pub fn pip_ref_count(&self, pip: PipId) -> (result: u32)
        requires
            self.wf(),
        ensures
            result == if self.pip_refs@.contains_key(pip) {
                self.pip_refs@[pip]
            } else {
                0
            },
            self.is_fresh() ==> result == clip_u32(pip_uses(self.arcs@, pip) as int),
    {
        match self.pip_refs.get(pip) {
            Some(count) => *count,
            None => 0,
        }
    }

    /// Finds the route arc for one logical sink.
    pub fn arc(&self, sink: CellPinId) -> (result: Option<&RouteArc>)
        ensures
            result is Some <==> self.reaches(sink),
            result matches Some(arc) ==> exists|i: int|
                0 <= i < self.arcs@.len() && #[trigger] self.arcs@[i] == *arc && arc.sink == Some(
                    sink,
                ) && forall|j: int| 0 <= j < i ==> (#[trigger] self.arcs@[j]).sink != Some(sink),
    {
        let mut index: usize = 0;
        while index < self.arcs.len()
            invariant
                index <= self.arcs@.len(),
                forall|j: int| 0 <= j < index ==> (#[trigger] self.arcs@[j]).sink != Some(sink),
            decreases self.arcs@.len() - index,
        {
            if let Some(pin) = self.arcs[index].sink {
                if pin == sink {
                    return Some(&self.arcs[index]);
                }
            }
            index = index + 1;
        }
        None
    }
}

/// What each arc holds.
pub open spec fn arc_values(arcs: Seq<RouteArc>) -> Seq<
    (Option<CellPinId>, Seq<WireId>, Seq<PipId>),
> {
    arcs.map_values(|arc: RouteArc| (arc.sink, arc.wires@, arc.pips@))
}

/// Two routes that [`NetRoute::new`] builds of the same arcs, given in whatever
/// order, hold the same arcs in the same order and count the same uses.
pub proof fn the_order_of_arcs_does_not_matter(a: NetRoute, b: NetRoute)
    requires
        a.net == b.net,
        a.is_fresh(),
        b.is_fresh(),
        arcs_sorted(a.arcs@),
        arcs_sorted(b.arcs@),
        arc_values(a.arcs@).to_multiset() == arc_values(b.arcs@).to_multiset(),
    ensures
        a.same_arcs(&b),
        a.wire_refs@ == b.wire_refs@,
        a.pip_refs@ == b.pip_refs@,
{
    lemma_sorted_is_canonical(a.arcs@, b.arcs@);
    assert forall|w: WireId| wire_uses(a.arcs@, w) == wire_uses(b.arcs@, w) by {
        lemma_same_wire_uses(a.arcs@, b.arcs@, w);
    }
    assert forall|p: PipId| pip_uses(a.arcs@, p) == pip_uses(b.arcs@, p) by {
        lemma_same_pip_uses(a.arcs@, b.arcs@, p);
    }
    assert forall|w: WireId| #[trigger] a.wire_refs@.contains_key(w) <==> b.wire_refs@.contains_key(
        w,
    ) by {}
    assert forall|p: PipId| #[trigger] a.pip_refs@.contains_key(p) <==> b.pip_refs@.contains_key(
        p,
    ) by {}
    assert(a.wire_refs@ =~= b.wire_refs@);
    assert(a.pip_refs@ =~= b.pip_refs@);
}

/// Sorted arcs with the same values stand in the same order.
proof fn lemma_sorted_is_canonical(a: Seq<RouteArc>, b: Seq<RouteArc>)
    requires
        arcs_sorted(a),
        arcs_sorted(b),
        arc_values(a).to_multiset() == arc_values(b).to_multiset(),
    ensures
        a.len() == b.len(),
        forall|i: int| 0 <= i < a.len() ==> (#[trigger] a[i]).same(&b[i]),
    decreases a.len(),
{
    broadcast use vstd::multiset::group_multiset_axioms;

    let x = arc_values(a);
    let y = arc_values(b);
    x.to_multiset_ensures();
    y.to_multiset_ensures();
    assert(a.len() == b.len());
    if a.len() > 0 {
        let last = a.len() - 1;
        let j = lemma_counterpart(x, y, last);
        let k = lemma_counterpart(y, x, last);
        assert(b[j].same(&a[last]));
        assert(a[k].same(&b[last]));
        lemma_arc_total(a[last], b[last]);
        assert(a[last].same(&b[last])) by {
            if j < last {
                assert(!arc_before(b[last], b[j]));
            }
            if k < last {
                assert(!arc_before(a[last], a[k]));
            }
        }
        vstd::seq_lib::to_multiset_remove(x, last);
        vstd::seq_lib::to_multiset_remove(y, last);
        assert(arc_values(a.drop_last()) =~= x.remove(last));
        assert(arc_values(b.drop_last()) =~= y.remove(last));
        lemma_sorted_is_canonical(a.drop_last(), b.drop_last());
        assert forall|i: int| 0 <= i < a.len() implies (#[trigger] a[i]).same(&b[i]) by {
            if i < last {
                assert(a.drop_last()[i].same(&b.drop_last()[i]));
            }
        }
    }
}

/// Arcs of which neither comes first are the same.
proof fn lemma_arc_total(a: RouteArc, b: RouteArc)
    ensures
        a.same(&b) || arc_before(a, b) || arc_before(b, a),
{
    lemma_lex_total(a.wires@, b.wires@);
    lemma_lex_total(a.pips@, b.pips@);
}

/// The same arcs use a wire as often.
proof fn lemma_same_wire_uses(a: Seq<RouteArc>, b: Seq<RouteArc>, wire: WireId)
    requires
        a.len() == b.len(),
        forall|i: int| 0 <= i < a.len() ==> (#[trigger] a[i]).same(&b[i]),
    ensures
        wire_uses(a, wire) == wire_uses(b, wire),
    decreases a.len(),
{
    if a.len() > 0 {
        assert(a[a.len() - 1].same(&b[b.len() - 1]));
        assert forall|i: int| 0 <= i < a.len() - 1 implies (#[trigger] a.drop_last()[i]).same(
            &b.drop_last()[i],
        ) by {
            assert(a[i].same(&b[i]));
        }
        lemma_same_wire_uses(a.drop_last(), b.drop_last(), wire);
    }
}

/// The same arcs use a PIP as often.
proof fn lemma_same_pip_uses(a: Seq<RouteArc>, b: Seq<RouteArc>, pip: PipId)
    requires
        a.len() == b.len(),
        forall|i: int| 0 <= i < a.len() ==> (#[trigger] a[i]).same(&b[i]),
    ensures
        pip_uses(a, pip) == pip_uses(b, pip),
    decreases a.len(),
{
    if a.len() > 0 {
        assert(a[a.len() - 1].same(&b[b.len() - 1]));
        assert forall|i: int| 0 <= i < a.len() - 1 implies (#[trigger] a.drop_last()[i]).same(
            &b.drop_last()[i],
        ) by {
            assert(a[i].same(&b[i]));
        }
        lemma_same_pip_uses(a.drop_last(), b.drop_last(), pip);
    }
}

} // verus!
