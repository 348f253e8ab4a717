//! How far legalization moved the cells from where they were drawn to.

use vstd::prelude::*;

use crate::device::UnifiedGraph;
use crate::model::{BelId, Point, ResourceKind};
use crate::placement_constraints::PlacementConstraints;
use crate::refiner::PlacementRefiner;
use crate::row_cost::{bel_point, placed_on_device};
use crate::units::{row_fits, PlacementUnit};

verus! {

/// Where one cell was drawn to, and where it came to stand.
#[derive(Clone, Copy, Debug, PartialEq, Eq, Structural)]
pub struct Displacement {
    /// Tile it was drawn to.
    pub target: Point,
    /// Tile it stands on.
    pub legalized: Point,
}

/// A coordinate shifted as far as a member lies from its origin, where it is one.
pub open spec fn carried(target: u32, member: u32, origin: u32) -> Option<u32> {
    let value = target + member - origin;
    if 0 <= value <= u32::MAX {
        Some(value as u32)
    } else {
        None
    }
}

/// Displacement of one cell of a unit. The members of a unit keep the offsets
/// of its first row, so a rigid macro is never split.
pub open spec fn displaced(
    graph: UnifiedGraph<'_>,
    unit: PlacementUnit,
    target: Point,
    placed: Seq<Option<BelId>>,
    kind: Option<ResourceKind>,
    member: int,
) -> Option<Displacement> {
    let row = unit.choices.row(0);
    let origin = bel_point(graph.device, row[0]);
    let reference = bel_point(graph.device, row[member]);
    let cell = unit.cells@[member];
    if kind is Some && graph.design.cells@[cell.0 as int].kind != kind->0 {
        None
    } else {
        match (
            carried(target.x, reference.x, origin.x),
            carried(target.y, reference.y, origin.y),
            placed[cell.0 as int],
        ) {
            (Some(x), Some(y), Some(bel)) => Some(
                Displacement { target: Point { x, y }, legalized: bel_point(graph.device, bel) },
            ),
            _ => None,
        }
    }
}

/// Displacements of the first cells of a unit.
pub open spec fn unit_displacements(
    graph: UnifiedGraph<'_>,
    unit: PlacementUnit,
    target: Point,
    placed: Seq<Option<BelId>>,
    kind: Option<ResourceKind>,
    count: int,
) -> Seq<Displacement>
    decreases count,
{
    if count <= 0 {
        Seq::empty()
    } else {
        let rest = unit_displacements(graph, unit, target, placed, kind, count - 1);
        match displaced(graph, unit, target, placed, kind, count - 1) {
            Some(found) => rest.push(found),
            None => rest,
        }
    }
}

/// Displacements of the cells of the first units.
pub open spec fn all_displacements(
    graph: UnifiedGraph<'_>,
    units: Seq<PlacementUnit>,
    targets: Seq<Point>,
    placed: Seq<Option<BelId>>,
    kind: Option<ResourceKind>,
    count: int,
) -> Seq<Displacement>
    decreases count,
{
    if count <= 0 {
        Seq::empty()
    } else {
        let unit = units[count - 1];
        all_displacements(graph, units, targets, placed, kind, count - 1) + unit_displacements(
            graph,
            unit,
            targets[count - 1],
            placed,
            kind,
            unit.cells@.len() as int,
        )
    }
}

/// A coordinate shifted as far as a member lies from its origin.
fn carry(target: u32, member: u32, origin: u32) -> (result: Option<u32>)
    ensures
        result == carried(target, member, origin),
{
    let value: i64 = target as i64 + member as i64 - origin as i64;
    if 0 <= value && value <= u32::MAX as i64 {
        Some(value as u32)
    } else {
        None
    }
}

/// Compares where cells were drawn to with where they stand.
fn compare_points(
    graph: &UnifiedGraph<'_>,
    units: &Vec<PlacementUnit>,
    targets: &Vec<Point>,
    placed: &Vec<Option<BelId>>,
    kind: Option<ResourceKind>,
    Ghost(constraints): Ghost<&PlacementConstraints>,
) -> (result: Vec<Displacement>)
    requires
        graph.wf(),
        forall|u: int| 0 <= u < units@.len() ==> (#[trigger] units@[u]).wf(*graph, constraints),
        forall|u: int| 0 <= u < units@.len() ==> (#[trigger] units@[u]).choices.count() > 0,
        targets@.len() == units@.len(),
        placed@.len() == graph.design.cells@.len(),
        placed_on_device(graph.device, placed@),
    ensures
        result@ == all_displacements(
            *graph,
            units@,
            targets@,
            placed@,
            kind,
            units@.len() as int,
        ),
{
    let design = graph.design();
    let device = graph.device();
    let mut found: Vec<Displacement> = Vec::new();
    let mut index: usize = 0;
    while index < units.len()
        invariant
            index <= units@.len(),
            graph.wf(),
            design == graph.design,
            device == graph.device,
            forall|u: int|
                0 <= u < units@.len() ==> (#[trigger] units@[u]).wf(*graph, constraints),
            forall|u: int| 0 <= u < units@.len() ==> (#[trigger] units@[u]).choices.count() > 0,
            targets@.len() == units@.len(),
            placed@.len() == graph.design.cells@.len(),
            placed_on_device(graph.device, placed@),
            found@ == all_displacements(
                *graph,
                units@,
                targets@,
                placed@,
                kind,
                index as int,
            ),
        decreases units@.len() - index,
    {
        let unit = &units[index];
        let target = targets[index];
        proof {
            assert(units@[index as int].wf(*graph, constraints));
            assert(units@[index as int].choices.count() > 0);
            assert(row_fits(*graph, constraints, unit.cells@, unit.choices.row(0)));
        }
        let row = unit.choices.assignment(0);
        proof {
            assert(crate::candidates::can_hold(*graph, constraints, unit.cells@[0], row@[0]));
        }
        let origin = device.bels[row[0].0].point;
        let ghost before = found@;
        let mut at: usize = 0;
        assert(before + Seq::<Displacement>::empty() =~= before);
        while at < unit.cells.len()
            invariant
                at <= unit.cells@.len(),
                index < units@.len(),
                *unit == units@[index as int],
                unit.wf(*graph, constraints),
                row_fits(*graph, constraints, unit.cells@, row@),
                row@ == unit.choices.row(0),
                graph.wf(),
                design == graph.design,
                device == graph.device,
                origin == bel_point(device, row@[0]),
                placed@.len() == graph.design.cells@.len(),
                placed_on_device(graph.device, placed@),
                found@ == before + unit_displacements(
                    *graph,
                    *unit,
                    target,
                    placed@,
                    kind,
                    at as int,
                ),
            decreases unit.cells@.len() - at,
        {
            let cell = unit.cells[at];
            proof {
                assert(unit.cells@[at as int].0 < graph.design.cells@.len());
                assert(crate::candidates::can_hold(
                    *graph,
                    constraints,
                    unit.cells@[at as int],
                    row@[at as int],
                ));
            }
            let reference = device.bels[row[at].0].point;
            let counts = match kind {
                Some(kind) => design.cells[cell.0].kind == kind,
                None => true,
            };
            let ghost rest = unit_displacements(
                *graph,
                *unit,
                target,
                placed@,
                kind,
                at as int,
            );
            if counts {
                match (
                    carry(target.x, reference.x, origin.x),
                    carry(target.y, reference.y, origin.y),
                    placed[cell.0],
                ) {
                    (Some(x), Some(y), Some(bel)) => {
                        let one = Displacement {
                            target: Point { x, y },
                            legalized: device.bels[bel.0].point,
                        };
                        found.push(one);
                        assert(found@ =~= before + rest.push(one));
                    },
                    _ => {},
                }
            }
            at = at + 1;
        }
        index = index + 1;
    }
    found
}

impl<'a> PlacementRefiner<'a> {
    /// Compares the rounded continuous solution with the legal projection, for
    /// the cells of one kind or for all.
    pub fn legalization_displacements(
        &self,
        targets: &Vec<Point>,
        placed: &Vec<Option<BelId>>,
        kind: Option<ResourceKind>,
    ) -> (result: Vec<Displacement>)
        requires
            self.wf(),
            forall|u: int|
                0 <= u < self.units@.len() ==> (#[trigger] self.units@[u]).choices.count() > 0,
            targets@.len() == self.units@.len(),
            placed@.len() == self.graph.design.cells@.len(),
            placed_on_device(self.graph.device, placed@),
        ensures
            result@ == all_displacements(
                self.graph,
                self.units@,
                targets@,
                placed@,
                kind,
                self.units@.len() as int,
            ),
    {
        compare_points(
            &self.graph,
            &self.units,
            targets,
            placed,
            kind,
            Ghost(self.constraints),
        )
    }
}

} // verus!
