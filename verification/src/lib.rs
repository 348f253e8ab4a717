//! Deterministic placement and routing over one Cell/Net to BEL/Wire/PIP graph.

use vstd::prelude::*;

pub mod anchor_laws;
pub mod bbox;
pub mod bbox_cache;
pub mod best_laws;
pub mod bin_sums;
pub mod bound_laws;
pub mod candidates;
pub mod cell_moves;
pub mod cell_refine;
pub mod choice_laws;
pub mod cohort_unique;
pub mod components;
pub mod conflicts;
pub mod connection;
pub mod connection_cost;
pub mod connection_move;
pub mod cost;
pub mod cost_validation;
pub mod course;
pub mod cycles;
pub mod decompose;
pub mod demand_bins;
pub mod demand_boxes;
pub mod demand_laws;
pub mod detail;
pub mod detail_accept;
pub mod detail_costs;
pub mod detail_moves;
pub mod detail_pick;
pub mod detail_state;
pub mod detail_step;
pub mod device;
pub mod displacement;
pub mod eco;
pub mod eco_nets;
pub mod eco_stage;
pub mod edit_laws;
pub mod error;
pub mod families;
pub mod finish;
pub mod form_laws;
pub mod frontier;
pub mod full_bindings;
pub mod greedy;
pub mod growth_model;
pub mod growth_unique;
pub mod hold;
pub mod hold_course;
pub mod hold_laws;
pub mod incidents;
pub mod legality;
pub mod legality_laws;
pub mod limits;
pub mod link_laws;
pub mod local_delay;
pub mod medians;
pub mod metrics;
pub mod model;
pub mod move_laws;
pub mod nearest;
pub mod negotiate;
pub mod negotiation;
pub mod negotiation_laws;
pub mod negotiation_unique;
pub mod neighbors;
pub mod net_growth;
pub mod net_router;
pub mod net_routing;
pub mod net_span;
pub mod net_state;
pub mod occupancy;
pub mod order_laws;
pub mod ordered;
pub mod owners;
pub mod ownership;
pub mod partial;
pub mod place;
pub mod placement;
pub mod placement_constraints;
pub mod placement_edit;
pub mod placement_state;
pub mod placing;
pub mod placing_laws;
pub mod polish;
pub mod polish_attempt;
pub mod polish_laws;
pub mod polish_queue;
pub mod polish_subscriptions;
pub mod predicted;
pub mod predicted_laws;
pub mod projected_cost;
pub mod projection;
pub mod projection_laws;
pub mod pull_laws;
pub mod queue;
pub mod ranking;
pub mod refine;
pub mod refine_laws;
pub mod refine_passes;
pub mod refine_unique;
pub mod refiner;
pub mod release;
pub mod release_laws;
pub mod retain;
pub mod route;
pub mod route_shape;
pub mod router_laws;
pub mod routing;
pub mod routing_constraints;
pub mod routing_costs;
pub mod routing_demand;
pub mod row_cost;
pub mod search;
pub mod search_course;
pub mod search_unique;
pub mod slots;
pub mod spatial;
pub mod stage_unique;
pub mod stages;
pub mod standing;
pub mod start;
pub mod step_laws;
pub mod sweep_unique;
pub mod target_laws;
pub mod targets;
pub mod text;
pub mod timing_laws;
pub mod tree;
pub mod trial;
pub mod turn_unique;
pub mod unit_list;
pub mod units;
pub mod usage;
pub mod usage_model;
pub mod validation;
pub mod victims;
pub mod workspace;

verus! {

} // verus!
