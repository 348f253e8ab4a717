//! Integer cost arithmetic of the router.

use vstd::prelude::*;

verus! {

/// Scale of net and sink criticalities: the most critical arc has this value.
pub const ROUTING_CRITICALITY_SCALE: u64 = 64;

/// Default routing delay quantum in picoseconds.
///
/// Detailed timing nets may pass a finer quantum.
pub const ROUTING_DELAY_QUANTUM_PS: u64 = 50;

/// Width in picoseconds of one hold-routing delay bucket.
pub const HOLD_DELAY_QUANTUM_PS: u64 = 50;

/// Quotient rounded up.
pub open spec fn ceil_div(value: int, divisor: int) -> int {
    (value + divisor - 1) / divisor
}

/// A value clipped to the range of `u64`.
pub open spec fn clip_u64(value: int) -> int {
    if value > u64::MAX {
        u64::MAX as int
    } else {
        value
    }
}

/// A value clipped to the range of `u32`.
pub open spec fn clip_u32(value: int) -> int {
    if value > u32::MAX {
        u32::MAX as int
    } else {
        value
    }
}

/// The larger of two integers.
pub open spec fn larger(a: int, b: int) -> int {
    if a >= b {
        a
    } else {
        b
    }
}

/// The rounded-up quotient is the only integer between the exact quotient and one above it.
pub proof fn lemma_ceil_div(value: int, divisor: int)
    requires
        value >= 0,
        divisor > 0,
    ensures
        value % divisor == 0 ==> ceil_div(value, divisor) == value / divisor,
        value % divisor != 0 ==> ceil_div(value, divisor) == value / divisor + 1,
        0 <= ceil_div(value, divisor) <= value,
{
    let q = value / divisor;
    let r = value % divisor;
    vstd::arithmetic::div_mod::lemma_fundamental_div_mod(value, divisor);
    assert(0 <= r < divisor);
    assert(value == q * divisor + r) by (nonlinear_arith)
        requires
            value == divisor * q + r,
    ;
    if r == 0 {
        vstd::arithmetic::div_mod::lemma_fundamental_div_mod_converse(
            value + divisor - 1,
            divisor,
            q,
            divisor - 1,
        );
    } else {
        assert((q + 1) * divisor == q * divisor + divisor) by (nonlinear_arith);
        vstd::arithmetic::div_mod::lemma_fundamental_div_mod_converse(
            value + divisor - 1,
            divisor,
            q + 1,
            r - 1,
        );
    }
    assert(divisor * q >= q) by (nonlinear_arith)
        requires
            divisor >= 1,
            q >= 0,
    ;
    vstd::arithmetic::div_mod::lemma_div_pos_is_pos(value, divisor);
}

/// Rounding up keeps the order of its first argument.
pub proof fn lemma_ceil_div_monotone(small: int, large: int, divisor: int)
    requires
        0 <= small <= large,
        divisor > 0,
    ensures
        ceil_div(small, divisor) <= ceil_div(large, divisor),
{
    vstd::arithmetic::div_mod::lemma_div_is_ordered(
        small + divisor - 1,
        large + divisor - 1,
        divisor,
    );
}

/// Quotient rounded up.
pub fn div_ceil(value: u64, divisor: u64) -> (result: u64)
    requires
        divisor > 0,
    ensures
        result == ceil_div(value as int, divisor as int),
{
    proof {
        lemma_ceil_div(value as int, divisor as int);
    }
    if value % divisor == 0 {
        value / divisor
    } else {
        value / divisor + 1
    }
}

/// Product clipped to the range of `u64`.
pub fn saturating_product(a: u64, b: u64) -> (result: u64)
    ensures
        result == clip_u64(a * b),
{
    match a.checked_mul(b) {
        Some(product) => product,
        None => u64::MAX,
    }
}

/// A value clipped to the range of `u32`.
pub fn saturating_u32(value: u64) -> (result: u32)
    ensures
        result == clip_u32(value as int),
{
    if value > 0xffff_ffff {
        u32::MAX
    } else {
        value as u32
    }
}

/// A route delay or cost in the compact form of the search frontier.
pub fn compact_route_value(value: u64) -> (result: u32)
    requires
        value <= u32::MAX,
    ensures
        result == value,
{
    value as u32
}

/// A routing resource index in the compact form of the search frontier.
pub fn compact_route_index(index: usize) -> (result: u32)
    requires
        index <= u32::MAX,
    ensures
        result == index,
{
    index as u32
}

/// Delay cost of starting from a tree wire with one arrival.
pub open spec fn tree_cost(arrival_ps: int, criticality: int, delay_quantum_ps: int) -> int {
    if criticality == 0 {
        0
    } else {
        ceil_div(arrival_ps, delay_quantum_ps)
    }
}

/// Congestion scaled from default quanta to the quanta in use.
pub open spec fn congestion_price(congestion: int, delay_quantum_ps: int) -> int {
    clip_u64(congestion * ceil_div(ROUTING_DELAY_QUANTUM_PS as int, delay_quantum_ps))
}

/// Cost of one PIP under independent rounding of every PIP delay.
pub open spec fn step_cost(
    pip_delay_ps: int,
    criticality: int,
    congestion: int,
    delay_quantum_ps: int,
) -> int {
    let base = if criticality == 0 {
        1
    } else {
        larger(ceil_div(pip_delay_ps, delay_quantum_ps), 1)
    };
    clip_u64(base + congestion_price(congestion, delay_quantum_ps))
}

/// Share of the unit hop cost that a partly critical arc still pays.
pub open spec fn hop_bias(criticality: int, delay_quantum_ps: int) -> int {
    ceil_div(
        (ROUTING_CRITICALITY_SCALE - criticality) * ROUTING_DELAY_QUANTUM_PS,
        ROUTING_CRITICALITY_SCALE * delay_quantum_ps,
    )
}

/// Cost of one PIP under rounding of the accumulated arrival.
pub open spec fn transition_cost(
    arrival_ps: int,
    next_arrival_ps: int,
    criticality: int,
    congestion: int,
    delay_quantum_ps: int,
) -> int {
    if criticality == 0 {
        clip_u64(1 + congestion_price(congestion, delay_quantum_ps))
    } else {
        let increment = larger(
            tree_cost(next_arrival_ps, criticality, delay_quantum_ps) - tree_cost(
                arrival_ps,
                criticality,
                delay_quantum_ps,
            ),
            0,
        );
        clip_u64(
            clip_u64(increment + hop_bias(criticality, delay_quantum_ps)) + congestion_price(
                congestion,
                delay_quantum_ps,
            ),
        )
    }
}

/// Delay cost of starting from a tree wire: the full arrival for every timed sink.
///
/// Criticality controls routing order and hop bias; discounting the delay here
/// would make a late branch of a shared tree look cheap.
pub fn timing_tree_cost(arrival_ps: u64, criticality: u64, delay_quantum_ps: u64) -> (result: u64)
    requires
        criticality != 0 ==> delay_quantum_ps > 0,
    ensures
        result == tree_cost(arrival_ps as int, criticality as int, delay_quantum_ps as int),
{
    if criticality == 0 {
        0
    } else {
        div_ceil(arrival_ps, delay_quantum_ps)
    }
}

/// Cost of one PIP under independent rounding of every PIP delay.
pub fn routing_step_cost(
    pip_delay_ps: u32,
    criticality: u64,
    congestion: u64,
    delay_quantum_ps: u64,
) -> (result: u64)
    requires
        delay_quantum_ps > 0,
    ensures
        result == step_cost(
            pip_delay_ps as int,
            criticality as int,
            congestion as int,
            delay_quantum_ps as int,
        ),
        result >= 1,
{
    let congestion_scale: u64 = div_ceil(ROUTING_DELAY_QUANTUM_PS, delay_quantum_ps);
    let price: u64 = saturating_product(congestion, congestion_scale);
    proof {
        lemma_ceil_div(ROUTING_DELAY_QUANTUM_PS as int, delay_quantum_ps as int);
        assert(congestion * congestion_scale >= 0) by (nonlinear_arith)
            requires
                congestion >= 0,
                congestion_scale >= 0,
        ;
    }
    if criticality == 0 {
        let unit: u64 = 1;
        return unit.saturating_add(price);
    }
    let delay: u64 = div_ceil(pip_delay_ps as u64, delay_quantum_ps);
    let base: u64 = if delay > 1 {
        delay
    } else {
        1
    };
    base.saturating_add(price)
}

/// Cost of one PIP under rounding of the accumulated arrival, so that a chain
/// of short PIPs is not rounded up once for each of them.
pub fn routing_transition_cost(
    arrival_ps: u64,
    next_arrival_ps: u64,
    criticality: u64,
    congestion: u64,
    delay_quantum_ps: u64,
) -> (result: u64)
    requires
        delay_quantum_ps > 0,
        criticality <= ROUTING_CRITICALITY_SCALE,
        criticality != 0 ==> ROUTING_CRITICALITY_SCALE * delay_quantum_ps <= u64::MAX,
    ensures
        result == transition_cost(
            arrival_ps as int,
            next_arrival_ps as int,
            criticality as int,
            congestion as int,
            delay_quantum_ps as int,
        ),
{
    let congestion_scale: u64 = div_ceil(ROUTING_DELAY_QUANTUM_PS, delay_quantum_ps);
    let price: u64 = saturating_product(congestion, congestion_scale);
    if criticality == 0 {
        let unit: u64 = 1;
        return unit.saturating_add(price);
    }
    let next_cost: u64 = timing_tree_cost(next_arrival_ps, criticality, delay_quantum_ps);
    let this_cost: u64 = timing_tree_cost(arrival_ps, criticality, delay_quantum_ps);
    let increment: u64 = next_cost.saturating_sub(this_cost);
    let bias: u64 = div_ceil(
        (ROUTING_CRITICALITY_SCALE - criticality) * ROUTING_DELAY_QUANTUM_PS,
        ROUTING_CRITICALITY_SCALE * delay_quantum_ps,
    );
    increment.saturating_add(bias).saturating_add(price)
}

/// Users above capacity if one more user were added, with the occupancy held in sixteen bits.
pub open spec fn prospective_overuse(occupancy: int, capacity: int) -> int {
    let used = if occupancy >= u16::MAX {
        u16::MAX as int
    } else {
        occupancy + 1
    };
    larger(used - capacity, 0)
}

/// Negotiated price of one more user of a resource.
pub open spec fn negotiated_price(
    occupancy: int,
    capacity: int,
    history: int,
    present: int,
) -> int {
    history + present * prospective_overuse(occupancy, capacity)
}

/// Negotiated price of one more user of a resource.
pub fn congestion_cost(occupancy: u16, capacity: u16, history: u32, present: u32) -> (result: u64)
    ensures
        result == negotiated_price(
            occupancy as int,
            capacity as int,
            history as int,
            present as int,
        ),
{
    let overuse: u16 = occupancy.saturating_add(1).saturating_sub(capacity);
    proof {
        let a = present as int;
        let b = overuse as int;
        assert(0 <= a * b <= 0xffff_ffff * 0xffff) by (nonlinear_arith)
            requires
                0 <= a <= 0xffff_ffff,
                0 <= b <= 0xffff,
        ;
    }
    history as u64 + present as u64 * overuse as u64
}

/// Negotiated price in the compact form that the congestion tables hold.
pub fn cached_congestion_cost(
    occupancy: u16,
    capacity: u16,
    history: u32,
    present: u32,
) -> (result: u32)
    requires
        negotiated_price(occupancy as int, capacity as int, history as int, present as int)
            <= u32::MAX,
    ensures
        result == negotiated_price(
            occupancy as int,
            capacity as int,
            history as int,
            present as int,
        ),
{
    congestion_cost(occupancy, capacity, history, present) as u32
}

/// Delay bucket of a hold-routing state: all sufficient arrivals share the last bucket.
pub open spec fn hold_bucket(arrival_ps: int, minimum_arrival_ps: int) -> int {
    if arrival_ps >= minimum_arrival_ps {
        clip_u32(ceil_div(minimum_arrival_ps, HOLD_DELAY_QUANTUM_PS as int))
    } else if arrival_ps / HOLD_DELAY_QUANTUM_PS as int <= u32::MAX {
        arrival_ps / HOLD_DELAY_QUANTUM_PS as int
    } else {
        u32::MAX - 1
    }
}

/// Delay bucket of a hold-routing state.
pub fn hold_delay_bucket(arrival_ps: u64, minimum_arrival_ps: u64) -> (result: u32)
    ensures
        result == hold_bucket(arrival_ps as int, minimum_arrival_ps as int),
{
    if arrival_ps >= minimum_arrival_ps {
        return saturating_u32(div_ceil(minimum_arrival_ps, HOLD_DELAY_QUANTUM_PS));
    }
    let bucket: u64 = arrival_ps / HOLD_DELAY_QUANTUM_PS;
    if bucket <= 0xffff_ffff {
        bucket as u32
    } else {
        u32::MAX - 1
    }
}

/// A longer PIP never costs less, and a more congested one never costs less.
pub proof fn step_cost_is_monotone(
    delay_ps: int,
    more_delay_ps: int,
    criticality: int,
    congestion: int,
    more_congestion: int,
    delay_quantum_ps: int,
)
    requires
        0 <= delay_ps <= more_delay_ps,
        0 <= congestion <= more_congestion,
        0 < delay_quantum_ps,
    ensures
        1 <= step_cost(delay_ps, criticality, congestion, delay_quantum_ps) <= step_cost(
            more_delay_ps,
            criticality,
            more_congestion,
            delay_quantum_ps,
        ),
{
    let scale = ceil_div(ROUTING_DELAY_QUANTUM_PS as int, delay_quantum_ps);
    lemma_ceil_div(ROUTING_DELAY_QUANTUM_PS as int, delay_quantum_ps);
    lemma_ceil_div_monotone(delay_ps, more_delay_ps, delay_quantum_ps);
    assert(0 <= congestion * scale <= more_congestion * scale) by (nonlinear_arith)
        requires
            0 <= congestion <= more_congestion,
            scale >= 0,
    ;
}

/// The delay part of a chain of transitions is the delay of the whole chain:
/// rounding happens once, not once for each PIP.
pub proof fn transition_costs_telescope(
    arrival_ps: int,
    middle_ps: int,
    last_ps: int,
    criticality: int,
    delay_quantum_ps: int,
)
    requires
        0 <= arrival_ps <= middle_ps <= last_ps,
        criticality != 0,
        delay_quantum_ps > 0,
    ensures
        larger(
            tree_cost(middle_ps, criticality, delay_quantum_ps) - tree_cost(
                arrival_ps,
                criticality,
                delay_quantum_ps,
            ),
            0,
        ) + larger(
            tree_cost(last_ps, criticality, delay_quantum_ps) - tree_cost(
                middle_ps,
                criticality,
                delay_quantum_ps,
            ),
            0,
        ) == larger(
            tree_cost(last_ps, criticality, delay_quantum_ps) - tree_cost(
                arrival_ps,
                criticality,
                delay_quantum_ps,
            ),
            0,
        ),
{
    lemma_ceil_div_monotone(arrival_ps, middle_ps, delay_quantum_ps);
    lemma_ceil_div_monotone(middle_ps, last_ps, delay_quantum_ps);
}

} // verus!
