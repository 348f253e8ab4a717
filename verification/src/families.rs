//! Families of units that may exchange their places.

use vstd::prelude::*;

use crate::candidates::{
    can_hold, find_shapes, has_own_binding, lemma_shape_holds, offers_shape, same_shapes,
    shapes_alike, shapes_of, PinShape,
};
use crate::device::UnifiedGraph;
use crate::model::{BelId, CellId, PinChoice, ResourceKind};
use crate::ordered::lemma_increasing_is_canonical;
use crate::placement_constraints::{shares_allocation, PlacementConstraints};
use crate::units::{PlacementChoices, PlacementUnit};

verus! {

/// Some binding names a pin of the cell on a single BEL.
pub open spec fn is_bound(
    graph: UnifiedGraph<'_>,
    constraints: &PlacementConstraints,
    cell: CellId,
) -> bool {
    exists|k: int, b: BelId|
        #![trigger constraints.pin_bindings@.contains_key(
            PinChoice { pin: graph.design.cells@[cell.0 as int].pins@[k], bel: b },
        )]
        0 <= k < graph.design.cells@[cell.0 as int].pins@.len()
            && constraints.pin_bindings@.contains_key(
            PinChoice { pin: graph.design.cells@[cell.0 as int].pins@[k], bel: b },
        )
}

/// Both cells are of one class and ask for the same pins in the same order.
pub open spec fn cells_alike(
    graph: UnifiedGraph<'_>,
    constraints: &PlacementConstraints,
    a: CellId,
    b: CellId,
) -> bool {
    &&& graph.design.cells@[a.0 as int].kind == graph.design.cells@[b.0 as int].kind
    &&& exists|x: Seq<PinShape>, y: Seq<PinShape>|
        #[trigger] shapes_of(graph, constraints, a, x) && #[trigger] shapes_of(
            graph,
            constraints,
            b,
            y,
        ) && shapes_alike(x, y)
}

/// The units belong together: single cells that ask alike and have no binding of
/// their own, or groups whose tables were told to be one.
pub open spec fn joins(
    graph: UnifiedGraph<'_>,
    constraints: &PlacementConstraints,
    a: PlacementUnit,
    b: PlacementUnit,
    told: bool,
) -> bool {
    match (a.choices, b.choices) {
        (PlacementChoices::SingleCell(_), PlacementChoices::SingleCell(_)) => {
            &&& !is_bound(graph, constraints, a.cells@[0])
            &&& !is_bound(graph, constraints, b.cells@[0])
            &&& cells_alike(graph, constraints, a.cells@[0], b.cells@[0])
        },
        (PlacementChoices::Shared(_), PlacementChoices::Shared(_)) => told,
        _ => false,
    }
}

/// The family of the unit is its first unit that the unit joins, else the unit itself.
pub open spec fn is_family(
    graph: UnifiedGraph<'_>,
    constraints: &PlacementConstraints,
    units: Seq<PlacementUnit>,
    told: Set<(int, int)>,
    families: Seq<usize>,
    u: int,
) -> bool {
    let family = families[u] as int;
    &&& family <= u
    &&& family < u ==> families[family] == family && joins(
        graph,
        constraints,
        units[family],
        units[u],
        told.contains((family, u)),
    )
    &&& forall|h: int|
        0 <= h < family && #[trigger] families[h] == h ==> !joins(
            graph,
            constraints,
            units[h],
            units[u],
            told.contains((h, u)),
        )
}

/// The families that follow from what was told of the tables of groups. Tables
/// that were told to be one are equal.
pub open spec fn are_told(
    graph: UnifiedGraph<'_>,
    constraints: &PlacementConstraints,
    units: Seq<PlacementUnit>,
    told: Set<(int, int)>,
    families: Seq<usize>,
) -> bool {
    &&& families.len() == units.len()
    &&& forall|h: int, u: int|
        0 <= h < u < units.len() && #[trigger] told.contains((h, u)) ==> units[h].choices
            == units[u].choices
    &&& forall|u: int|
        0 <= u < units.len() ==> #[trigger] is_family(
            graph,
            constraints,
            units,
            told,
            families,
            u,
        )
}

/// The families that follow from whether groups hold one table.
pub open spec fn are_families(
    graph: UnifiedGraph<'_>,
    constraints: &PlacementConstraints,
    units: Seq<PlacementUnit>,
    families: Seq<usize>,
) -> bool {
    exists|told: Set<(int, int)>| #[trigger] are_told(graph, constraints, units, told, families)
}

/// Both offer the same rows.
pub open spec fn same_rows(a: PlacementChoices, b: PlacementChoices) -> bool {
    &&& a.count() == b.count()
    &&& forall|i: int| 0 <= i < a.count() ==> #[trigger] a.row(i) == b.row(i)
}

/// Units that belong together offer the same rows.
proof fn lemma_joined_rows(
    graph: UnifiedGraph<'_>,
    constraints: &PlacementConstraints,
    a: PlacementUnit,
    b: PlacementUnit,
    told: bool,
)
    requires
        graph.wf(),
        a.wf(graph, constraints),
        b.wf(graph, constraints),
        told ==> a.choices == b.choices,
        joins(graph, constraints, a, b, told),
    ensures
        same_rows(a.choices, b.choices),
{
    if let (PlacementChoices::SingleCell(x), PlacementChoices::SingleCell(y)) = (
        a.choices,
        b.choices,
    ) {
        let c = a.cells@[0];
        let d = b.cells@[0];
        let (s, t) = choose|s: Seq<PinShape>, t: Seq<PinShape>|
            #[trigger] shapes_of(graph, constraints, c, s) && #[trigger] shapes_of(
                graph,
                constraints,
                d,
                t,
            ) && shapes_alike(s, t);
        let kind = graph.design.cells@[c.0 as int].kind;
        assert forall|bel: BelId| #[trigger] x@.contains(bel) <==> y@.contains(bel) by {
            lemma_shape_holds(graph, constraints, c, s, bel);
            lemma_shape_holds(graph, constraints, d, t, bel);
            lemma_alike_offers(graph, kind, s, t, bel);
            lemma_alike_offers(graph, kind, t, s, bel);
            assert(x@.contains(bel) <==> can_hold(graph, constraints, c, bel));
            assert(y@.contains(bel) <==> can_hold(graph, constraints, d, bel));
        }
        assert(x@.to_set() =~= y@.to_set());
        lemma_increasing_is_canonical(x@, y@);
        assert forall|i: int| 0 <= i < a.choices.count() implies #[trigger] a.choices.row(i)
            == b.choices.row(i) by {
            assert(x@[i] == y@[i]);
        }
    }
}

/// What offers a shape offers one that is alike.
proof fn lemma_alike_offers(
    graph: UnifiedGraph<'_>,
    kind: ResourceKind,
    a: Seq<PinShape>,
    b: Seq<PinShape>,
    bel: BelId,
)
    requires
        shapes_alike(a, b),
    ensures
        offers_shape(graph, kind, a, bel) ==> offers_shape(graph, kind, b, bel),
{
    if offers_shape(graph, kind, a, bel) {
        assert forall|k: int| 0 <= k < b.len() implies graph.first_match(
            graph.device.bels@[bel.0 as int].pins@,
            (#[trigger] b[k]).name@,
            b[k].direction,
        ) is Some by {
            assert(a[k].name@ == b[k].name@);
        }
    }
}

/// Units of one family offer the same rows.
pub proof fn lemma_family_rows(
    graph: UnifiedGraph<'_>,
    constraints: &PlacementConstraints,
    units: Seq<PlacementUnit>,
    families: Seq<usize>,
    u: int,
    v: int,
)
    requires
        graph.wf(),
        forall|i: int| 0 <= i < units.len() ==> (#[trigger] units[i]).wf(graph, constraints),
        are_families(graph, constraints, units, families),
        0 <= u < units.len(),
        0 <= v < units.len(),
        families[u] == families[v],
    ensures
        same_rows(units[u].choices, units[v].choices),
{
    let told = choose|told: Set<(int, int)>| #[trigger]
        are_told(graph, constraints, units, told, families);
    let f = families[u] as int;
    assert(is_family(graph, constraints, units, told, families, u));
    assert(is_family(graph, constraints, units, told, families, v));
    if f < u {
        lemma_joined_rows(graph, constraints, units[f], units[u], told.contains((f, u)));
    }
    if f < v {
        lemma_joined_rows(graph, constraints, units[f], units[v], told.contains((f, v)));
    }
    let head = units[f].choices;
    assert forall|i: int| 0 <= i < units[u].choices.count() implies #[trigger] units[u].choices.row(
        i,
    ) == units[v].choices.row(i) by {
        assert(head.row(i) == units[u].choices.row(i));
        assert(head.row(i) == units[v].choices.row(i));
    }
}

/// The first family whose answer is yes, else the unit itself.
pub fn first_told(heads: &Vec<usize>, answers: &Vec<bool>, unit: usize) -> (result: usize)
    requires
        heads@.len() == answers@.len(),
    ensures
        match first_yes(answers@) {
            Some(at) => result == heads@[at],
            None => result == unit,
        },
{
    let mut at: usize = 0;
    while at < answers.len()
        invariant
            at <= answers@.len(),
            heads@.len() == answers@.len(),
            forall|k: int| 0 <= k < at ==> !(#[trigger] answers@[k]),
        decreases answers@.len() - at,
    {
        if answers[at] {
            proof {
                lemma_first_yes(answers@, at as int);
            }
            return heads[at];
        }
        at = at + 1;
    }
    proof {
        lemma_first_yes(answers@, at as int);
    }
    unit
}

/// Index of the first yes.
pub open spec fn first_yes(answers: Seq<bool>) -> Option<int>
    decreases answers.len(),
{
    if answers.len() == 0 {
        None
    } else {
        match first_yes(answers.drop_last()) {
            Some(at) => Some(at),
            None => if answers.last() {
                Some(answers.len() - 1)
            } else {
                None
            },
        }
    }
}

/// Behind noes alone comes the first yes, or the end.
proof fn lemma_first_yes(answers: Seq<bool>, at: int)
    requires
        0 <= at <= answers.len(),
        forall|k: int| 0 <= k < at ==> !(#[trigger] answers[k]),
        at < answers.len() ==> answers[at],
    ensures
        first_yes(answers) == if at < answers.len() {
            Some(at)
        } else {
            None
        },
    decreases answers.len(),
{
    if answers.len() > 0 {
        let rest = answers.drop_last();
        if at < answers.len() - 1 {
            lemma_first_yes(rest, at);
        } else {
            lemma_first_yes(rest, rest.len() as int);
        }
    }
}

/// Shapes that a single cell without a binding of its own asks for.
fn unit_shapes(
    graph: &UnifiedGraph<'_>,
    constraints: &PlacementConstraints,
    unit: &PlacementUnit,
) -> (result: Option<Vec<PinShape>>)
    requires
        graph.wf(),
        constraints.wf(),
        unit.wf(*graph, constraints),
    ensures
        shapes_known(*graph, constraints, *unit, result),
{
    match &unit.choices {
        PlacementChoices::Shared(_) => None,
        PlacementChoices::SingleCell(_) => {
            let cell = unit.cells[0];
            assert(unit.cells@[0] == cell);
            if has_own_binding(graph, constraints, cell) {
                None
            } else {
                Some(find_shapes(graph, constraints, cell))
            }
        },
    }
}

/// Shapes of one cell are alike in whatever way they are listed.
proof fn lemma_shapes_unique(
    graph: UnifiedGraph<'_>,
    constraints: &PlacementConstraints,
    cell: CellId,
    a: Seq<PinShape>,
    b: Seq<PinShape>,
)
    requires
        shapes_of(graph, constraints, cell, a),
        shapes_of(graph, constraints, cell, b),
    ensures
        shapes_alike(a, b),
{
    let pins = graph.design.cells@[cell.0 as int].pins@;
    assert forall|k: int| 0 <= k < a.len() implies (#[trigger] a[k]).name@ == b[k].name@
        && a[k].direction == b[k].direction by {
        let pin = pins[k];
    }
}

/// Whether the units belong together, and what was told of their tables.
fn asks_join(
    graph: &UnifiedGraph<'_>,
    constraints: &PlacementConstraints,
    a: &PlacementUnit,
    b: &PlacementUnit,
    a_shapes: &Option<Vec<PinShape>>,
    b_shapes: &Option<Vec<PinShape>>,
) -> (result: bool)
    requires
        a.wf(*graph, constraints),
        b.wf(*graph, constraints),
        shapes_known(*graph, constraints, *a, *a_shapes),
        shapes_known(*graph, constraints, *b, *b_shapes),
    ensures
        result == joins(*graph, constraints, *a, *b, result),
        result && a.choices is Shared ==> a.choices == b.choices,
{
    match (a_shapes, b_shapes) {
        (Some(x), Some(y)) => {
            let kinds = graph.design().cells[a.cells[0].0].kind
                == graph.design().cells[b.cells[0].0].kind;
            let alike = kinds && same_shapes(x, y);
            proof {
                if kinds && cells_alike(*graph, constraints, a.cells@[0], b.cells@[0]) {
                    let (s, t) = choose|s: Seq<PinShape>, t: Seq<PinShape>|
                        #[trigger] shapes_of(*graph, constraints, a.cells@[0], s)
                            && #[trigger] shapes_of(*graph, constraints, b.cells@[0], t)
                            && shapes_alike(s, t);
                    lemma_shapes_unique(*graph, constraints, a.cells@[0], x@, s);
                    lemma_shapes_unique(*graph, constraints, b.cells@[0], t, y@);
                    assert forall|k: int| 0 <= k < x@.len() implies (#[trigger] x@[k]).name@
                        == y@[k].name@ && x@[k].direction == y@[k].direction by {
                        assert(s[k].name@ == t[k].name@);
                        assert(t[k].name@ == y@[k].name@);
                    }
                }
            }
            alike
        },
        _ => match (&a.choices, &b.choices) {
            (PlacementChoices::Shared(x), PlacementChoices::Shared(y)) => shares_allocation(x, y),
            _ => false,
        },
    }
}

/// Groups the units by their choices. A family is named by its first unit.
pub(crate) fn group_families(
    graph: &UnifiedGraph<'_>,
    constraints: &PlacementConstraints,
    units: &Vec<PlacementUnit>,
) -> (result: Vec<usize>)
    requires
        graph.wf(),
        constraints.wf(),
        forall|u: int| 0 <= u < units@.len() ==> (#[trigger] units@[u]).wf(*graph, constraints),
    ensures
        are_families(*graph, constraints, units@, result@),
{
    let ghost mut told: Set<(int, int)> = Set::empty();
    let mut families: Vec<usize> = Vec::new();
    let mut heads: Vec<usize> = Vec::new();
    let mut shapes: Vec<Option<Vec<PinShape>>> = Vec::new();
    let mut index: usize = 0;
    while index < units.len()
        invariant
            index <= units@.len(),
            graph.wf(),
            constraints.wf(),
            forall|u: int|
                0 <= u < units@.len() ==> (#[trigger] units@[u]).wf(*graph, constraints),
            families@.len() == index,
            heads@.len() == shapes@.len(),
            forall|k: int|
                0 <= k < heads@.len() ==> (#[trigger] heads@[k]) < index
                    && families@[heads@[k] as int] == heads@[k] && shapes_known(
                    *graph,
                    constraints,
                    units@[heads@[k] as int],
                    shapes@[k],
                ),
            forall|k: int, l: int|
                0 <= k < l < heads@.len() ==> #[trigger] heads@[k] < #[trigger] heads@[l],
            forall|h: int|
                0 <= h < index && #[trigger] families@[h] == h ==> heads@.contains(h as usize),
            forall|h: int, u: int|
                #[trigger] told.contains((h, u)) ==> 0 <= h < u < index && units@[h].choices
                    == units@[u].choices,
            forall|u: int|
                0 <= u < index ==> #[trigger] is_family(
                    *graph,
                    constraints,
                    units@,
                    told,
                    families@,
                    u,
                ),
        decreases units@.len() - index,
    {
        let unit = &units[index];
        assert(units@[index as int].wf(*graph, constraints));
        let own = unit_shapes(graph, constraints, unit);
        let mut answers: Vec<bool> = Vec::new();
        while answers.len() < heads.len()
            invariant
                answers@.len() <= heads@.len(),
                heads@.len() == shapes@.len(),
                index < units@.len(),
                graph.wf(),
                *unit == units@[index as int],
                forall|u: int|
                    0 <= u < units@.len() ==> (#[trigger] units@[u]).wf(*graph, constraints),
                forall|k: int|
                    0 <= k < heads@.len() ==> (#[trigger] heads@[k]) < index && shapes_known(
                        *graph,
                        constraints,
                        units@[heads@[k] as int],
                        shapes@[k],
                    ),
                shapes_known(*graph, constraints, *unit, own),
                forall|k: int|
                    0 <= k < answers@.len() ==> (#[trigger] answers@[k]) == joins(
                        *graph,
                        constraints,
                        units@[heads@[k] as int],
                        *unit,
                        answers@[k],
                    ) && (answers@[k] && units@[heads@[k] as int].choices is Shared ==> units@[
                        heads@[k] as int
                    ].choices == unit.choices),
            decreases heads@.len() - answers@.len(),
        {
            let at: usize = answers.len();
            assert(heads@[at as int] < index);
            let head = &units[heads[at]];
            assert(units@[heads@[at as int] as int].wf(*graph, constraints));
            assert(units@[index as int].wf(*graph, constraints));
            let answer = asks_join(graph, constraints, head, unit, &shapes[at], &own);
            answers.push(answer);
        }
        let family: usize = first_told(&heads, &answers, index);
        let ghost before = families@;
        let ghost earlier = told;
        let ghost first = heads@;
        families.push(family);
        if family == index {
            heads.push(index);
            shapes.push(own);
        }
        proof {
            let u = index as int;
            let found = first_yes(answers@);
            lemma_yes(answers@);
            if let Some(at) = found {
                assert(heads@[at] == first[at]);
                assert(first[at] < index);
                if units@[family as int].choices is Shared {
                    told = told.insert((family as int, u));
                }
            }
            assert forall|w: int| 0 <= w <= index implies #[trigger] is_family(
                *graph,
                constraints,
                units@,
                told,
                families@,
                w,
            ) by {
                if w < index {
                    assert(is_family(*graph, constraints, units@, earlier, before, w));
                    assert(families@[w] == before[w]);
                    assert forall|h: int|
                        0 <= h < families@[w] && #[trigger] families@[h] == h implies !joins(
                        *graph,
                        constraints,
                        units@[h],
                        units@[w],
                        told.contains((h, w)),
                    ) by {
                        assert(before[h] == h);
                        assert(told.contains((h, w)) == earlier.contains((h, w)));
                    }
                    assert(told.contains((before[w] as int, w)) == earlier.contains(
                        (before[w] as int, w),
                    ));
                } else {
                    assert forall|h: int|
                        0 <= h < family && #[trigger] families@[h] == h implies !joins(
                        *graph,
                        constraints,
                        units@[h],
                        units@[u],
                        told.contains((h, u)),
                    ) by {
                        assert(before[h] == h);
                        let k = first.index_of(h as usize);
                        assert(first[k] == h);
                        assert(answers@[k] == joins(
                            *graph,
                            constraints,
                            units@[first[k] as int],
                            units@[u],
                            answers@[k],
                        ));
                        assert(!answers@[k]) by {
                            if let Some(at) = found {
                                if at <= k {
                                    if at < k {
                                        assert(first[at] < first[k]);
                                    }
                                }
                            }
                        }
                        assert(!earlier.contains((h, u)));
                    }
                    if let Some(at) = found {
                        assert(answers@[at]);
                        assert(before[first[at] as int] == first[at]);
                    }
                }
            }
            assert forall|k: int| 0 <= k < heads@.len() implies (#[trigger] heads@[k]) < index + 1
                && families@[heads@[k] as int] == heads@[k] && shapes_known(
                *graph,
                constraints,
                units@[heads@[k] as int],
                shapes@[k],
            ) by {
                if k < first.len() {
                    assert(heads@[k] == first[k]);
                    assert(before[first[k] as int] == first[k]);
                }
            }
            assert forall|h: int| 0 <= h < index + 1 && #[trigger] families@[h]
                == h implies heads@.contains(h as usize) by {
                if h < index {
                    assert(before[h] == h);
                    let k = first.index_of(h as usize);
                    assert(heads@[k] == h);
                } else {
                    assert(heads@[first.len() as int] == h);
                }
            }
        }
        index = index + 1;
    }
    proof {
        assert(are_told(*graph, constraints, units@, told, families@));
    }
    families
}

/// The shapes are those of a single cell without a binding of its own.
spec fn shapes_known(
    graph: UnifiedGraph<'_>,
    constraints: &PlacementConstraints,
    unit: PlacementUnit,
    shapes: Option<Vec<PinShape>>,
) -> bool {
    match shapes {
        Some(shapes) => unit.choices is SingleCell && !is_bound(
            graph,
            constraints,
            unit.cells@[0],
        ) && shapes_of(graph, constraints, unit.cells@[0], shapes@),
        None => unit.choices is SingleCell ==> is_bound(graph, constraints, unit.cells@[0]),
    }
}

/// The first yes is one, and no yes comes before it.
proof fn lemma_yes(answers: Seq<bool>)
    ensures
        match first_yes(answers) {
            Some(at) => 0 <= at < answers.len() && answers[at] && forall|k: int|
                0 <= k < at ==> !(#[trigger] answers[k]),
            None => forall|k: int| 0 <= k < answers.len() ==> !(#[trigger] answers[k]),
        },
    decreases answers.len(),
{
    if answers.len() > 0 {
        let rest = answers.drop_last();
        lemma_yes(rest);
        assert forall|k: int| 0 <= k < rest.len() implies rest[k] == #[trigger] answers[k] by {}
    }
}

} // verus!
