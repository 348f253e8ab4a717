//! Connected components of a sparse system, and where rigid members lie.

use vstd::prelude::*;

use crate::model::{CellId, Point};
use crate::ordered::{increasing, OrderedSet};
use crate::refiner::PlacementRefiner;
use crate::row_cost::bel_point;
use crate::unit_list::is_covered;
use crate::units::row_fits;

verus! {

/// One of the lists names the other vertex.
pub open spec fn is_linked(adjacency: Seq<Vec<usize>>, a: usize, b: usize) -> bool {
    a < adjacency.len() && adjacency[a as int]@.contains(b)
}

/// Each vertex of the path is linked to the next.
pub open spec fn is_path(adjacency: Seq<Vec<usize>>, path: Seq<usize>) -> bool {
    &&& path.len() > 0
    &&& forall|i: int|
        0 <= i < path.len() - 1 ==> is_linked(adjacency, #[trigger] path[i], path[i + 1])
}

/// A path leads from one vertex to the other.
pub open spec fn is_connected(adjacency: Seq<Vec<usize>>, a: usize, b: usize) -> bool {
    exists|path: Seq<usize>| #[trigger]
        is_path(adjacency, path) && path[0] == a && path.last() == b
}

/// The lists name vertices, and each link goes both ways.
pub open spec fn is_symmetric(adjacency: Seq<Vec<usize>>) -> bool {
    &&& forall|a: usize, b: usize| #[trigger]
        is_linked(adjacency, a, b) ==> b < adjacency.len() && is_linked(adjacency, b, a)
}

/// Some vertex that the vertex is connected to is anchored.
pub open spec fn is_held(adjacency: Seq<Vec<usize>>, anchored: Seq<bool>, vertex: usize) -> bool {
    exists|v: usize| #[trigger]
        is_connected(adjacency, vertex, v) && v < anchored.len() && anchored[v as int]
}

/// The list holds what is connected to its vertices, in increasing order.
pub open spec fn is_component(adjacency: Seq<Vec<usize>>, component: Seq<usize>) -> bool {
    &&& component.len() > 0
    &&& increasing(component)
    &&& forall|v: usize| #[trigger]
        component.contains(v) <==> is_connected(adjacency, component[0], v)
}

/// A vertex is connected to itself.
proof fn lemma_connected_self(adjacency: Seq<Vec<usize>>, a: usize)
    ensures
        is_connected(adjacency, a, a),
{
    let path = seq![a];
    assert(is_path(adjacency, path) && path[0] == a && path.last() == a);
}

/// One more link makes a longer path.
proof fn lemma_connected_next(adjacency: Seq<Vec<usize>>, a: usize, b: usize, c: usize)
    requires
        is_connected(adjacency, a, b),
        is_linked(adjacency, b, c),
    ensures
        is_connected(adjacency, a, c),
{
    let path = choose|path: Seq<usize>| #[trigger]
        is_path(adjacency, path) && path[0] == a && path.last() == b;
    let longer = path.push(c);
    assert forall|i: int| 0 <= i < longer.len() - 1 implies is_linked(
        adjacency,
        #[trigger] longer[i],
        longer[i + 1],
    ) by {
        if i < path.len() - 1 {
            assert(is_linked(adjacency, path[i], path[i + 1]));
        }
    }
    assert(is_path(adjacency, longer) && longer[0] == a && longer.last() == c);
}

/// Paths lead on to one another.
proof fn lemma_connected_on(adjacency: Seq<Vec<usize>>, a: usize, b: usize, path: Seq<usize>)
    requires
        is_connected(adjacency, a, b),
        is_path(adjacency, path),
        path[0] == b,
    ensures
        is_connected(adjacency, a, path.last()),
    decreases path.len(),
{
    if path.len() > 1 {
        let shorter = path.drop_last();
        assert forall|i: int| 0 <= i < shorter.len() - 1 implies is_linked(
            adjacency,
            #[trigger] shorter[i],
            shorter[i + 1],
        ) by {
            assert(is_linked(adjacency, path[i], path[i + 1]));
        }
        lemma_connected_on(adjacency, a, b, shorter);
        assert(is_linked(adjacency, path[path.len() - 2], path[path.len() - 1]));
        lemma_connected_next(adjacency, a, shorter.last(), path.last());
    } else {
        assert(path.last() == b);
    }
}

/// Connection is transitive.
proof fn lemma_connected_trans(adjacency: Seq<Vec<usize>>, a: usize, b: usize, c: usize)
    requires
        is_connected(adjacency, a, b),
        is_connected(adjacency, b, c),
    ensures
        is_connected(adjacency, a, c),
{
    let path = choose|path: Seq<usize>| #[trigger]
        is_path(adjacency, path) && path[0] == b && path.last() == c;
    lemma_connected_on(adjacency, a, b, path);
}

/// Paths can be walked backwards.
proof fn lemma_connected_back(adjacency: Seq<Vec<usize>>, a: usize, b: usize)
    requires
        is_symmetric(adjacency),
        is_connected(adjacency, a, b),
    ensures
        is_connected(adjacency, b, a),
{
    let path = choose|path: Seq<usize>| #[trigger]
        is_path(adjacency, path) && path[0] == a && path.last() == b;
    let back = path.reverse();
    assert forall|i: int| 0 <= i < back.len() - 1 implies is_linked(
        adjacency,
        #[trigger] back[i],
        back[i + 1],
    ) by {
        let k = path.len() - 2 - i;
        assert(is_linked(adjacency, path[k], path[k + 1]));
        assert(back[i] == path[k + 1]);
        assert(back[i + 1] == path[k]);
    }
    assert(is_path(adjacency, back) && back[0] == b && back.last() == a);
}

/// A set that its links do not leave holds every path that starts in it.
proof fn lemma_closed(adjacency: Seq<Vec<usize>>, set: Set<usize>, path: Seq<usize>)
    requires
        is_path(adjacency, path),
        set.contains(path[0]),
        forall|a: usize, b: usize|
            set.contains(a) && #[trigger] is_linked(adjacency, a, b) ==> set.contains(b),
    ensures
        set.contains(path.last()),
    decreases path.len(),
{
    if path.len() > 1 {
        let shorter = path.drop_last();
        assert forall|i: int| 0 <= i < shorter.len() - 1 implies is_linked(
            adjacency,
            #[trigger] shorter[i],
            shorter[i + 1],
        ) by {
            assert(is_linked(adjacency, path[i], path[i + 1]));
        }
        lemma_closed(adjacency, set, shorter);
        assert(is_linked(adjacency, path[path.len() - 2], path[path.len() - 1]));
    }
}

/// Everything that the vertex is connected to.
fn collect_component(adjacency: &Vec<Vec<usize>>, start: usize) -> (result: OrderedSet<usize>)
    requires
        is_symmetric(adjacency@),
        start < adjacency@.len(),
    ensures
        result.wf(),
        forall|v: usize| #[trigger]
            result@.contains(v) <==> is_connected(adjacency@, start, v),
        forall|v: usize| #[trigger] result@.contains(v) ==> v < adjacency@.len(),
{
    let mut found: OrderedSet<usize> = OrderedSet::new();
    let mut pending: Vec<usize> = Vec::new();
    let _ = found.insert(start);
    pending.push(start);
    proof {
        lemma_connected_self(adjacency@, start);
        assert(pending@ =~= seq![start]);
        assert forall|v: usize| pending@.contains(v) <==> v == start by {
            if v == start {
                assert(pending@[0] == v);
            }
        }
        assert(adjacency.len() == adjacency@.len());
    }
    let ghost mut done: Set<usize> = Set::empty();
    while pending.len() > 0
        invariant
            is_symmetric(adjacency@),
            start < adjacency@.len(),
            found.wf(),
            found@.contains(start),
            forall|v: usize| #[trigger]
                found@.contains(v) ==> v < adjacency@.len() && is_connected(adjacency@, start, v),
            forall|v: usize| #[trigger]
                found@.contains(v) <==> done.contains(v) || pending@.contains(v),
            forall|a: usize, b: usize|
                done.contains(a) && #[trigger] is_linked(adjacency@, a, b) ==> found@.contains(b),
            forall|i: int| 0 <= i < pending@.len() ==> !done.contains(#[trigger] pending@[i]),
            pending@.no_duplicates(),
            done.finite(),
            forall|v: usize| #[trigger] done.contains(v) ==> v < adjacency@.len(),
            adjacency@.len() <= usize::MAX,
        decreases adjacency@.len() - done.len(),
    {
        let last: usize = pending.len() - 1;
        let vertex: usize = pending[last];
        let ghost queue = pending@;
        proof {
            assert(pending@.contains(vertex));
            assert(found@.contains(vertex));
            assert(!done.contains(pending@[last as int]));
        }
        pending.pop();
        let list = &adjacency[vertex];
        let ghost begin = pending@;
        proof {
            assert forall|v: usize| queue.contains(v) <==> begin.contains(v) || v == vertex by {
                if queue.contains(v) && v != vertex {
                    let k = queue.index_of(v);
                    assert(begin[k] == v);
                }
                if begin.contains(v) {
                    let k = begin.index_of(v);
                    assert(queue[k] == v);
                }
            }
            assert(!begin.contains(vertex)) by {
                if begin.contains(vertex) {
                    let k = begin.index_of(vertex);
                    assert(queue[k] == queue[last as int]);
                }
            }
        }
        let mut at: usize = 0;
        while at < list.len()
            invariant
                at <= list@.len(),
                vertex < adjacency@.len(),
                *list == adjacency@[vertex as int],
                is_symmetric(adjacency@),
                found.wf(),
                found@.contains(start),
                found@.contains(vertex),
                !done.contains(vertex),
                !pending@.contains(vertex),
                forall|v: usize| #[trigger]
                    found@.contains(v) ==> v < adjacency@.len() && is_connected(
                        adjacency@,
                        start,
                        v,
                    ),
                forall|v: usize| #[trigger]
                    found@.contains(v) <==> done.contains(v) || pending@.contains(v) || v
                        == vertex,
                forall|a: usize, b: usize|
                    done.contains(a) && #[trigger] is_linked(adjacency@, a, b) ==> found@.contains(
                        b,
                    ),
                forall|k: int| 0 <= k < at ==> found@.contains(#[trigger] list@[k]),
                forall|i: int| 0 <= i < pending@.len() ==> !done.contains(#[trigger] pending@[i]),
                pending@.no_duplicates(),
            decreases list@.len() - at,
        {
            let other: usize = list[at];
            proof {
                assert(list@.contains(other));
                assert(is_linked(adjacency@, vertex, other));
                lemma_connected_next(adjacency@, start, vertex, other);
            }
            let ghost before = pending@;
            let fresh = found.insert(other);
            if fresh {
                pending.push(other);
                proof {
                    assert forall|v: usize|
                        pending@.contains(v) <==> before.contains(v) || v == other by {
                        if before.contains(v) {
                            let k = before.index_of(v);
                            assert(pending@[k] == v);
                        }
                        if v == other {
                            assert(pending@[before.len() as int] == v);
                        }
                        if pending@.contains(v) && v != other {
                            let k = pending@.index_of(v);
                            assert(before[k] == v);
                        }
                    }
                    assert(!before.contains(other));
                    assert(pending@.no_duplicates()) by {
                        assert forall|i: int, j: int|
                            0 <= i < pending@.len() && 0 <= j < pending@.len() && i
                                != j implies pending@[i] != pending@[j] by {
                            if i == before.len() {
                                assert(before.contains(pending@[j]));
                            } else if j == before.len() {
                                assert(before.contains(pending@[i]));
                            }
                        }
                    }
                }
            }
            at = at + 1;
        }
        proof {
            let more = done.insert(vertex);
            assert forall|a: usize, b: usize|
                more.contains(a) && #[trigger] is_linked(
                    adjacency@,
                    a,
                    b,
                ) implies found@.contains(b) by {
                if a == vertex {
                    let k = list@.index_of(b);
                    assert(list@[k] == b);
                }
            }
            assert forall|i: int| 0 <= i < pending@.len() implies !more.contains(
                #[trigger] pending@[i],
            ) by {
                assert(pending@.contains(pending@[i]));
            }
            lemma_bounded_set(more, adjacency@.len() as int);
            done = more;
        }
    }
    proof {
        assert forall|v: usize| #[trigger] is_connected(adjacency@, start, v) implies found@.contains(
            v,
        ) by {
            let path = choose|path: Seq<usize>| #[trigger]
                is_path(adjacency@, path) && path[0] == start && path.last() == v;
            assert forall|a: usize, b: usize|
                found@.contains(a) && #[trigger] is_linked(
                    adjacency@,
                    a,
                    b,
                ) implies found@.contains(b) by {
                assert(done.contains(a));
            }
            lemma_closed(adjacency@, found@, path);
        }
    }
    found
}

/// A set of numbers below a bound is no larger than the bound.
proof fn lemma_bounded_set(set: Set<usize>, bound: int)
    requires
        set.finite(),
        0 <= bound <= usize::MAX,
        forall|v: usize| #[trigger] set.contains(v) ==> v < bound,
    ensures
        set.len() <= bound,
{
    let numbers = set.map(|v: usize| v as int);
    assert(set.map(|v: usize| v as int).len() == set.len()) by {
        vstd::set_lib::lemma_map_size(set, numbers, |v: usize| v as int);
    }
    let all = vstd::set_lib::set_int_range(0, bound);
    vstd::set_lib::lemma_int_range(0, bound);
    assert(numbers.subset_of(all)) by {
        assert forall|n: int| numbers.contains(n) implies all.contains(n) by {
            let v = choose|v: usize| set.contains(v) && n == v as int;
        }
    }
    vstd::set_lib::lemma_len_subset(numbers, all);
}

/// The vertex is in one of the components.
pub open spec fn in_component(components: Seq<Vec<usize>>, vertex: usize) -> bool {
    exists|i: int| 0 <= i < components.len() && (#[trigger] components[i])@.contains(vertex)
}

/// Components without an anchored vertex, in the order of their least vertices.
pub fn floating_components(adjacency: &Vec<Vec<usize>>, anchored: &Vec<bool>) -> (result: Vec<
    Vec<usize>,
>)
    requires
        is_symmetric(adjacency@),
        anchored@.len() == adjacency@.len(),
    ensures
        forall|i: int|
            0 <= i < result@.len() ==> is_component(adjacency@, (#[trigger] result@[i])@),
        forall|i: int, j: int|
            0 <= i < j < result@.len() ==> (#[trigger] result@[i])@[0] < (#[trigger] result@[j])@[0],
        forall|v: usize|
            v < adjacency@.len() ==> (#[trigger] in_component(result@, v) <==> !is_held(
                adjacency@,
                anchored@,
                v,
            )),
{
    let mut components: Vec<Vec<usize>> = Vec::new();
    let mut visited: OrderedSet<usize> = OrderedSet::new();
    let mut start: usize = 0;
    while start < adjacency.len()
        invariant
            start <= adjacency@.len(),
            is_symmetric(adjacency@),
            anchored@.len() == adjacency@.len(),
            visited.wf(),
            forall|a: usize, b: usize|
                visited@.contains(a) && #[trigger] is_connected(
                    adjacency@,
                    a,
                    b,
                ) ==> visited@.contains(b),
            forall|v: usize| #[trigger] visited@.contains(v) <== v < start,
            forall|i: int|
                0 <= i < components@.len() ==> is_component(
                    adjacency@,
                    (#[trigger] components@[i])@,
                ) && components@[i]@[0] < start,
            forall|i: int, j: int|
                0 <= i < j < components@.len() ==> (#[trigger] components@[i])@[0] < (
                #[trigger] components@[j])@[0],
            forall|v: usize| #[trigger] visited@.contains(v) ==> v < adjacency@.len(),
            forall|v: usize|
                visited@.contains(v) ==> (#[trigger] in_component(components@, v) <==> !is_held(
                    adjacency@,
                    anchored@,
                    v,
                )),
            forall|v: usize| #[trigger] in_component(components@, v) ==> visited@.contains(v),
        decreases adjacency@.len() - start,
    {
        if !visited.contains(start) {
            let found = collect_component(adjacency, start);
            let ghost known = visited@;
            let ghost before = components@;
            let members = found.as_slice();
            let mut held = false;
            let mut component: Vec<usize> = Vec::new();
            let mut at: usize = 0;
            while at < members.len()
                invariant
                    at <= members@.len(),
                    found.wf(),
                    members@ == found.ordered(),
                    anchored@.len() == adjacency@.len(),
                    visited.wf(),
                    forall|v: usize| #[trigger] found@.contains(v) ==> v < adjacency@.len(),
                    component@ == members@.take(at as int),
                    held <==> exists|k: int|
                        0 <= k < at && anchored@[#[trigger] members@[k] as int],
                    forall|v: usize| #[trigger]
                        visited@.contains(v) <==> known.contains(v) || component@.contains(v),
                decreases members@.len() - at,
            {
                let vertex: usize = members[at];
                let ghost shorter = component@;
                proof {
                    found.membership(vertex);
                    assert(found.ordered().contains(vertex));
                    assert(found@.contains(vertex));
                }
                if anchored[vertex] {
                    held = true;
                    assert(anchored@[members@[at as int] as int]);
                }
                let _ = visited.insert(vertex);
                component.push(vertex);
                proof {
                    assert(component@ =~= members@.take(at + 1));
                    assert forall|v: usize| #[trigger]
                        visited@.contains(v) <==> known.contains(v) || component@.contains(v) by {
                        if shorter.contains(v) {
                            let k = shorter.index_of(v);
                            assert(component@[k] == v);
                        }
                        if v == vertex {
                            assert(component@[shorter.len() as int] == v);
                        }
                        if component@.contains(v) && v != vertex {
                            let k = component@.index_of(v);
                            assert(shorter[k] == v);
                        }
                    }
                }
                at = at + 1;
            }
            proof {
                assert(component@ =~= members@);
                assert forall|v: usize| component@.contains(v) <==> found@.contains(v) by {
                    found.membership(v);
                }
                assert forall|v: usize| #[trigger] component@.contains(v) <==> is_connected(
                    adjacency@,
                    start,
                    v,
                ) by {
                    assert(found@.contains(v) <==> is_connected(adjacency@, start, v));
                }
                lemma_connected_self(adjacency@, start);
                assert(component@.contains(start));
                lemma_fresh_component(adjacency@, known, component@, start);
                assert(is_component(adjacency@, component@));
                lemma_component_held(adjacency@, anchored@, component@, start, held);
            }
            let ghost component_ghost = component@;
            if !held {
                components.push(component);
            }
            proof {
                assert forall|a: usize, b: usize|
                    visited@.contains(a) && #[trigger] is_connected(
                        adjacency@,
                        a,
                        b,
                    ) implies visited@.contains(b) by {
                    if !known.contains(a) {
                        assert(is_connected(adjacency@, start, a));
                        lemma_connected_trans(adjacency@, start, a, b);
                    }
                }
                assert forall|v: usize| #[trigger] visited@.contains(v) implies v
                    < adjacency@.len() by {
                    if !known.contains(v) {
                        assert(found@.contains(v));
                    }
                }
                assert forall|v: usize| visited@.contains(v) implies (#[trigger] in_component(
                    components@,
                    v,
                ) <==> !is_held(adjacency@, anchored@, v)) by {
                    if in_component(before, v) {
                        assert(known.contains(v));
                        let i = choose|i: int|
                            0 <= i < before.len() && (#[trigger] before[i])@.contains(v);
                        assert(components@[i]@.contains(v));
                    }
                    if in_component(components@, v) {
                        let i = choose|i: int|
                            0 <= i < components@.len() && (#[trigger] components@[i])@.contains(v);
                        if i < before.len() {
                            assert(before[i]@.contains(v));
                            assert(in_component(before, v));
                        } else {
                            assert(component_ghost.contains(v));
                        }
                    }
                    if known.contains(v) {
                        assert(in_component(before, v) <==> !is_held(adjacency@, anchored@, v));
                        if component_ghost.contains(v) {
                            lemma_connected_back(adjacency@, start, v);
                            assert(known.contains(start));
                        }
                    } else {
                        assert(component_ghost.contains(v));
                        assert(found@.contains(v));
                        assert(is_held(adjacency@, anchored@, v) == held);
                        if !held {
                            assert(components@[before.len() as int]@.contains(v));
                        }
                    }
                }
                assert forall|v: usize| #[trigger] in_component(
                    components@,
                    v,
                ) implies visited@.contains(v) by {
                    let i = choose|i: int|
                        0 <= i < components@.len() && (#[trigger] components@[i])@.contains(v);
                    if i < before.len() {
                        assert(in_component(before, v));
                    }
                }
            }
        }
        start = start + 1;
    }
    components
}

/// The least vertex of a new component is the first not seen before.
proof fn lemma_fresh_component(
    adjacency: Seq<Vec<usize>>,
    known: Set<usize>,
    component: Seq<usize>,
    start: usize,
)
    requires
        is_symmetric(adjacency),
        increasing(component),
        !known.contains(start),
        forall|v: usize| #[trigger] known.contains(v) <== v < start,
        forall|a: usize, b: usize|
            known.contains(a) && #[trigger] is_connected(adjacency, a, b) ==> known.contains(b),
        forall|v: usize| #[trigger]
            component.contains(v) <==> is_connected(adjacency, start, v),
        component.contains(start),
    ensures
        component.len() > 0,
        component[0] == start,
{
    let k = component.index_of(start);
    if k > 0 {
        assert(crate::ordered::OrderedKey::rank(component[0]) < crate::ordered::OrderedKey::rank(
            component[k],
        ));
        let least = component[0];
        assert(component.contains(least));
        lemma_connected_back(adjacency, start, least);
        assert(known.contains(least));
    }
}

/// All vertices of a component are held, or none.
proof fn lemma_component_held(
    adjacency: Seq<Vec<usize>>,
    anchored: Seq<bool>,
    component: Seq<usize>,
    start: usize,
    held: bool,
)
    requires
        is_symmetric(adjacency),
        anchored.len() == adjacency.len(),
        forall|v: usize| #[trigger] component.contains(v) <==> is_connected(adjacency, start, v),
        forall|v: usize| #[trigger] component.contains(v) ==> v < adjacency.len(),
        held <==> exists|k: int|
            0 <= k < component.len() && anchored[#[trigger] component[k] as int],
    ensures
        forall|v: usize| #[trigger]
            component.contains(v) ==> is_held(adjacency, anchored, v) == held,
{
    assert forall|v: usize| #[trigger] component.contains(v) implies is_held(
        adjacency,
        anchored,
        v,
    ) == held by {
        if held {
            let k = choose|k: int|
                0 <= k < component.len() && anchored[#[trigger] component[k] as int];
            let other = component[k];
            assert(component.contains(other));
            lemma_connected_back(adjacency, start, v);
            lemma_connected_trans(adjacency, v, start, other);
            assert(is_connected(adjacency, v, other) && anchored[other as int]);
        }
        if is_held(adjacency, anchored, v) {
            let other = choose|w: usize| #[trigger]
                is_connected(adjacency, v, w) && w < anchored.len() && anchored[w as int];
            lemma_connected_trans(adjacency, start, v, other);
            assert(component.contains(other));
            let k = component.index_of(other);
            assert(anchored[component[k] as int]);
        }
    }
}

/// Where a cell lies in its unit.
#[derive(Clone, Copy, Debug, PartialEq, Eq, Structural)]
pub struct RigidCell {
    /// Position of the unit.
    pub unit: usize,
    /// Column of the cell in the unit's rows.
    pub column: usize,
    /// Columns to the right of the unit's first cell.
    pub dx: i64,
    /// Rows below the unit's first cell.
    pub dy: i64,
    /// Where the cell stands, if the unit has one choice.
    pub fixed: Option<Point>,
}

/// The cell lies there in its unit, by the unit's first row.
pub open spec fn is_rigid_cell(
    refiner: PlacementRefiner<'_>,
    cell: CellId,
    found: RigidCell,
) -> bool {
    let unit = refiner.units@[found.unit as int];
    let row = unit.choices.row(0);
    let origin = bel_point(refiner.graph.device, row[0]);
    let point = bel_point(refiner.graph.device, row[found.column as int]);
    &&& found.unit < refiner.units@.len()
    &&& found.column < unit.cells@.len()
    &&& unit.cells@[found.column as int] == cell
    &&& found.dx == point.x - origin.x
    &&& found.dy == point.y - origin.y
    &&& found.fixed == if unit.choices.count() == 1 {
        Some(point)
    } else {
        None
    }
}

impl<'a> PlacementRefiner<'a> {
    /// Where every cell lies in its unit.
    pub fn rigid_cells(&self) -> (result: Vec<RigidCell>)
        requires
            self.wf(),
            forall|u: int|
                0 <= u < self.units@.len() ==> (#[trigger] self.units@[u]).choices.count() > 0,
        ensures
            result@.len() == self.graph.design.cells@.len(),
            forall|c: int|
                0 <= c < result@.len() ==> is_rigid_cell(
                    *self,
                    CellId(c as usize),
                    #[trigger] result@[c],
                ),
    {
        let design = self.graph.design();
        let device = self.graph.device();
        let mut result: Vec<RigidCell> = Vec::new();
        let mut cell: usize = 0;
        while cell < design.cells.len()
            invariant
                cell <= design.cells@.len(),
                self.wf(),
                design == self.graph.design,
                device == self.graph.device,
                forall|u: int|
                    0 <= u < self.units@.len() ==> (#[trigger] self.units@[u]).choices.count()
                        > 0,
                result@.len() == cell,
                forall|c: int|
                    0 <= c < result@.len() ==> is_rigid_cell(
                        *self,
                        CellId(c as usize),
                        #[trigger] result@[c],
                    ),
            decreases design.cells@.len() - cell,
        {
            assert(is_covered(self.units@, CellId(cell)));
            if let Some(unit) = self.find_unit(CellId(cell)) {
                let members = &self.units[unit];
                if let Some(column) = crate::connection_cost::find_column(
                    &members.cells,
                    CellId(cell),
                ) {
                    proof {
                        assert(self.units@[unit as int].wf(self.graph, self.constraints));
                        assert(self.units@[unit as int].choices.count() > 0);
                        assert(row_fits(
                            self.graph,
                            self.constraints,
                            members.cells@,
                            members.choices.row(0),
                        ));
                        assert(crate::candidates::can_hold(
                            self.graph,
                            self.constraints,
                            members.cells@[0],
                            members.choices.row(0)[0],
                        ));
                        assert(crate::candidates::can_hold(
                            self.graph,
                            self.constraints,
                            members.cells@[column as int],
                            members.choices.row(0)[column as int],
                        ));
                    }
                    let row = members.choices.assignment(0);
                    let origin = device.bels[row[0].0].point;
                    let point = device.bels[row[column].0].point;
                    let fixed: Option<Point> = if members.choices.len() == 1 {
                        Some(point)
                    } else {
                        None
                    };
                    result.push(
                        RigidCell {
                            unit,
                            column,
                            dx: point.x as i64 - origin.x as i64,
                            dy: point.y as i64 - origin.y as i64,
                            fixed,
                        },
                    );
                }
            }
            cell = cell + 1;
        }
        result
    }
}

} // verus!
