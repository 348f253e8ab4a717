//! Failures, each with the responsible object.

use vstd::prelude::*;
use vstd::string::*;

use crate::model::{BelId, CellId, CellPinId, ModelError, NetId};
use crate::text::{append_decimal, decimal_text};

verus! {

/// Placement or routing failure with the responsible object identified.
#[allow(inconsistent_fields)]
#[derive(Clone, Debug, PartialEq, Eq)]
pub enum PnrError {
    /// Logical or physical model was invalid.
    Model(ModelError),
    /// No compatible unoccupied BEL exists.
    NoBel {
        /// Cell that could not be placed.
        cell: String,
    },
    /// A target packer supplied a malformed or incompatible atomic group.
    InvalidPlacementConstraint {
        /// Group index in the placement constraints.
        group: usize,
        /// Specific invariant that failed.
        reason: String,
    },
    /// A target packer supplied an invalid candidate-specific pin binding.
    InvalidPinBinding {
        /// Logical pin being overridden.
        pin: CellPinId,
        /// BEL choice for which the override applies.
        bel: BelId,
        /// Specific invariant that failed.
        reason: String,
    },
    /// A target packer supplied an invalid BEL-independent pin-name binding.
    InvalidPinNameBinding {
        /// Logical pin being overridden.
        pin: CellPinId,
        /// Requested physical pin name.
        name: String,
        /// Specific invariant that failed.
        reason: String,
    },
    /// A target supplied a malformed immutable route tree.
    InvalidRoutingConstraint {
        /// Logical net named by the constraint.
        net: NetId,
        /// Specific invariant that failed.
        reason: String,
    },
    /// A target supplied an invalid device-wide routing restriction.
    InvalidRoutingRestriction {
        /// Specific invariant that failed.
        reason: String,
    },
    /// Target timing costs did not match the routed design or device.
    InvalidRoutingCosts {
        /// Specific invariant that failed.
        reason: String,
    },
    /// A supplied placement was incomplete, incompatible, or overlapping.
    InvalidPlacement {
        /// Specific invariant that failed.
        reason: String,
    },
    /// Internal or externally supplied placement omitted a cell.
    MissingPlacement {
        /// Missing cell ID.
        cell: CellId,
    },
    /// No capacity-respecting directed route exists.
    Unroutable {
        /// Net that could not be connected.
        net: String,
        /// Logical driver and its bound physical wire.
        driver: String,
        /// Logical sink and its bound physical wire.
        sink: String,
    },
    /// Negotiated routing did not remove all resource overuse.
    CongestionNotResolved {
        /// Routing iterations attempted.
        iterations: u32,
        /// Wires still over capacity.
        overused_wires: usize,
        /// PIPs still over capacity.
        overused_pips: usize,
    },
    /// A completed route contained a cycle or disconnected component.
    RouteIsNotTree {
        /// Logical net whose physical route was malformed.
        net: NetId,
        /// Unique wires in the route.
        wires: usize,
        /// Unique PIPs in the route.
        pips: usize,
    },
}

impl ModelError {
    /// Text of the failure.
    pub open spec fn text(&self) -> Seq<char> {
        match *self {
            ModelError::UnknownCell(cell) => "unknown cell "@ + decimal_text(cell.0 as nat),
            ModelError::UnknownCellPin(pin) => "unknown cell pin "@ + decimal_text(pin.0 as nat),
            ModelError::ConnectedCellPin(pin) => "cell pin "@ + decimal_text(pin.0 as nat)
                + " is already connected"@,
            ModelError::UnknownBel(bel) => "unknown BEL "@ + decimal_text(bel.0 as nat),
            ModelError::UnknownWire(wire) => "unknown wire "@ + decimal_text(wire.0 as nat),
            ModelError::InvalidExtent => "device extent is empty or too large"@,
            ModelError::OutsideDevice(point) => "point ("@ + decimal_text(point.x as nat) + ", "@
                + decimal_text(point.y as nat) + ") is outside the device"@,
            ModelError::TooManyResources => "too many resources"@,
            ModelError::UnboundCellPin(pin, bel) => "cell pin "@ + decimal_text(pin.0 as nat)
                + " has no pin on BEL "@ + decimal_text(bel.0 as nat),
        }
    }

    /// Text of the failure.
    pub fn message(&self) -> (result: String)
        ensures
            result@ == self.text(),
    {
        let mut text = String::new();
        match *self {
            ModelError::UnknownCell(cell) => {
                text.append("unknown cell ");
                append_decimal(&mut text, cell.0 as u64);
            },
            ModelError::UnknownCellPin(pin) => {
                text.append("unknown cell pin ");
                append_decimal(&mut text, pin.0 as u64);
            },
            ModelError::ConnectedCellPin(pin) => {
                text.append("cell pin ");
                append_decimal(&mut text, pin.0 as u64);
                text.append(" is already connected");
            },
            ModelError::UnknownBel(bel) => {
                text.append("unknown BEL ");
                append_decimal(&mut text, bel.0 as u64);
            },
            ModelError::UnknownWire(wire) => {
                text.append("unknown wire ");
                append_decimal(&mut text, wire.0 as u64);
            },
            ModelError::InvalidExtent => {
                text.append("device extent is empty or too large");
            },
            ModelError::OutsideDevice(point) => {
                text.append("point (");
                append_decimal(&mut text, point.x as u64);
                text.append(", ");
                append_decimal(&mut text, point.y as u64);
                text.append(") is outside the device");
            },
            ModelError::TooManyResources => {
                text.append("too many resources");
            },
            ModelError::UnboundCellPin(pin, bel) => {
                text.append("cell pin ");
                append_decimal(&mut text, pin.0 as u64);
                text.append(" has no pin on BEL ");
                append_decimal(&mut text, bel.0 as u64);
            },
        }
        assert(text@ =~= self.text());
        text
    }
}

impl PnrError {
    /// Text of the failure.
    pub open spec fn text(&self) -> Seq<char> {
        match *self {
            PnrError::Model(error) => "invalid problem graph: "@ + error.text(),
            PnrError::NoBel { cell } => "no compatible free BEL for cell `"@ + cell@ + "`"@,
            PnrError::InvalidPlacementConstraint { group, reason } =>
                "invalid placement constraint group "@ + decimal_text(group as nat) + ": "@
                + reason@,
            PnrError::InvalidPinBinding { pin, bel, reason } =>
                "invalid physical pin binding for pin "@ + decimal_text(pin.0 as nat) + " on BEL "@
                + decimal_text(bel.0 as nat) + ": "@ + reason@,
            PnrError::InvalidPinNameBinding { pin, name, reason } =>
                "invalid physical pin-name binding for pin "@ + decimal_text(pin.0 as nat)
                + " as `"@ + name@ + "`: "@ + reason@,
            PnrError::InvalidRoutingConstraint { net, reason } =>
                "invalid routing constraint for net "@ + decimal_text(net.0 as nat) + ": "@
                + reason@,
            PnrError::InvalidRoutingRestriction { reason } => "invalid routing restriction: "@
                + reason@,
            PnrError::InvalidRoutingCosts { reason } => "invalid routing costs: "@ + reason@,
            PnrError::InvalidPlacement { reason } => "invalid placement: "@ + reason@,
            PnrError::MissingPlacement { cell } => "placement is missing cell ID "@ + decimal_text(
                cell.0 as nat,
            ),
            PnrError::Unroutable { net, driver, sink } => "net `"@ + net@
                + "` is unroutable from "@ + driver@ + " to "@ + sink@,
            PnrError::CongestionNotResolved { iterations, overused_wires, overused_pips } =>
                "routing congestion remains after "@ + decimal_text(iterations as nat)
                + " iterations: "@ + decimal_text(overused_wires as nat) + " overused wires, "@
                + decimal_text(overused_pips as nat) + " overused PIPs"@,
            PnrError::RouteIsNotTree { net, wires, pips } => "route for net "@ + decimal_text(
                net.0 as nat,
            ) + " is not a tree: "@ + decimal_text(wires as nat) + " wires, "@ + decimal_text(
                pips as nat,
            ) + " PIPs"@,
        }
    }

    /// Text of the failure.
    pub fn message(&self) -> (result: String)
        ensures
            result@ == self.text(),
    {
        let mut text = String::new();
        match self {
            PnrError::Model(error) => {
                text.append("invalid problem graph: ");
                text.append(error.message().as_str());
            },
            PnrError::NoBel { cell } => {
                text.append("no compatible free BEL for cell `");
                text.append(cell.as_str());
                text.append("`");
            },
            PnrError::InvalidPlacementConstraint { group, reason } => {
                text.append("invalid placement constraint group ");
                append_decimal(&mut text, *group as u64);
                text.append(": ");
                text.append(reason.as_str());
            },
            PnrError::InvalidPinBinding { pin, bel, reason } => {
                text.append("invalid physical pin binding for pin ");
                append_decimal(&mut text, pin.0 as u64);
                text.append(" on BEL ");
                append_decimal(&mut text, bel.0 as u64);
                text.append(": ");
                text.append(reason.as_str());
            },
            PnrError::InvalidPinNameBinding { pin, name, reason } => {
                text.append("invalid physical pin-name binding for pin ");
                append_decimal(&mut text, pin.0 as u64);
                text.append(" as `");
                text.append(name.as_str());
                text.append("`: ");
                text.append(reason.as_str());
            },
            PnrError::InvalidRoutingConstraint { net, reason } => {
                text.append("invalid routing constraint for net ");
                append_decimal(&mut text, net.0 as u64);
                text.append(": ");
                text.append(reason.as_str());
            },
            PnrError::InvalidRoutingRestriction { reason } => {
                text.append("invalid routing restriction: ");
                text.append(reason.as_str());
            },
            PnrError::InvalidRoutingCosts { reason } => {
                text.append("invalid routing costs: ");
                text.append(reason.as_str());
            },
            PnrError::InvalidPlacement { reason } => {
                text.append("invalid placement: ");
                text.append(reason.as_str());
            },
            PnrError::MissingPlacement { cell } => {
                text.append("placement is missing cell ID ");
                append_decimal(&mut text, cell.0 as u64);
            },
            PnrError::Unroutable { net, driver, sink } => {
                text.append("net `");
                text.append(net.as_str());
                text.append("` is unroutable from ");
                text.append(driver.as_str());
                text.append(" to ");
                text.append(sink.as_str());
            },
            PnrError::CongestionNotResolved { iterations, overused_wires, overused_pips } => {
                text.append("routing congestion remains after ");
                append_decimal(&mut text, *iterations as u64);
                text.append(" iterations: ");
                append_decimal(&mut text, *overused_wires as u64);
                text.append(" overused wires, ");
                append_decimal(&mut text, *overused_pips as u64);
                text.append(" overused PIPs");
            },
            PnrError::RouteIsNotTree { net, wires, pips } => {
                text.append("route for net ");
                append_decimal(&mut text, net.0 as u64);
                text.append(" is not a tree: ");
                append_decimal(&mut text, *wires as u64);
                text.append(" wires, ");
                append_decimal(&mut text, *pips as u64);
                text.append(" PIPs");
            },
        }
        assert(text@ =~= self.text());
        text
    }
}

} // verus!
