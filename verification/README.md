# texo-pnr

Deterministic placement and routing for FPGA-like devices, written in Verus.

`src/` is the library. Its types model a logical design (`model.rs`) and a
physical device (`device.rs`); everything else works on those two.

- Routing: `search.rs`, `hold.rs` and `connection.rs` find one connection,
  `net_growth.rs`, `net_router.rs` and `net_routing.rs` one net, and
  `negotiate.rs` a whole design by negotiated congestion. `eco.rs` and
  `eco_nets.rs` improve single connections and cohorts of nets of a legal
  implementation without touching the rest, and the `polish*` modules improve
  its connections one after the other until none has a turn to come.
  `search_course.rs`, `hold_course.rs`, `growth_model.rs` and `course.rs` say
  what a search, a hold search, a net and a negotiation go through from
  beginning to end; `search_unique.rs`, `growth_unique.rs`,
  `cohort_unique.rs` and `negotiation_unique.rs` prove that each of them, a
  cohort, and the routing of a whole design come to one result.
- Placement: `units.rs` and `unit_list.rs` hold the legal assignments,
  `usage.rs` and `legality.rs` decide which of them go together, `greedy.rs`
  places units, `refine.rs` and `refine_passes.rs` refine them. `limits.rs` and
  `full_bindings.rs` hold the laws of limited refinement and of full bindings.
- Timing-driven moves: `connection_move.rs`, `cell_moves.rs` and
  `cell_refine.rs` propose moves of one unit; the `detail*` modules and
  `predicted.rs` refine all units against wirelength and predicted timing.

`app/` holds what is floating point or talks to the world: the analytical
solver, demand maps, register clustering and diagnostic output.

`tests/` runs the library on concrete designs.
