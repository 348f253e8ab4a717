//! Cheapest short walks between nearby wires.

use vstd::prelude::*;

use crate::cost::clip_u64;
use crate::device::{Device, UnifiedGraph};
use crate::model::{PipId, WireId};
use crate::ordered::OrderedMap;

verus! {

/// Hops of the longest walk that is considered.
pub const MAX_LOCAL_HOPS: usize = 16;

/// Prices of hops.
pub trait HopPrices {
    /// Price of entering a wire by a PIP; none where that is not allowed.
    spec fn hop(&self, pip: PipId, to: WireId) -> Option<int>;

    /// Wires and PIPs of the device can be priced.
    spec fn prices(&self, device: &Device) -> bool;

    /// Prices are not negative.
    proof fn hop_range(&self, pip: PipId, to: WireId)
        ensures
            self.hop(pip, to) matches Some(price) ==> 0 <= price <= u64::MAX,
    ;

    /// Price of entering a wire by a PIP; none where that is not allowed.
    fn find_hop(&self, pip: PipId, to: WireId, device: &Device) -> (result: Option<u64>)
        requires
            self.prices(device),
            device.wf(),
            pip.0 < device.pips@.len(),
            to.0 < device.wires@.len(),
        ensures
            match result {
                Some(price) => self.hop(pip, to) == Some(price as int),
                None => self.hop(pip, to) is None,
            },
    ;
}

/// The hop is one of the device and allowed.
pub open spec fn takes_step<P: HopPrices>(
    device: &Device,
    prices: &P,
    from: WireId,
    pip: PipId,
    to: WireId,
) -> bool {
    device.leads(from, pip, to) && prices.hop(pip, to) is Some
}

/// The wires are passed one after the other by allowed hops, from a source on.
pub open spec fn is_local_walk<P: HopPrices>(
    device: &Device,
    prices: &P,
    sources: Set<WireId>,
    wires: Seq<WireId>,
    pips: Seq<PipId>,
) -> bool {
    &&& wires.len() == pips.len() + 1
    &&& sources.contains(wires[0])
    &&& forall|i: int|
        0 <= i < pips.len() ==> takes_step(
            device,
            prices,
            wires[i],
            #[trigger] pips[i],
            wires[i + 1],
        )
}

/// Price of a walk.
pub open spec fn walk_price<P: HopPrices>(
    prices: &P,
    wires: Seq<WireId>,
    pips: Seq<PipId>,
) -> int
    decreases pips.len(),
{
    if pips.len() == 0 {
        0
    } else {
        walk_price(prices, wires.drop_last(), pips.drop_last()) + prices.hop(
            pips.last(),
            wires.last(),
        )->0
    }
}

/// Walks of at most so many hops end on the wire.
pub open spec fn ends_within<P: HopPrices>(
    device: &Device,
    prices: &P,
    sources: Set<WireId>,
    hops: int,
    wire: WireId,
    wires: Seq<WireId>,
    pips: Seq<PipId>,
) -> bool {
    &&& is_local_walk(device, prices, sources, wires, pips)
    &&& pips.len() <= hops
    &&& wires.last() == wire
}

/// The price is that of a cheapest walk of at most so many hops to the wire.
pub open spec fn is_least_price<P: HopPrices>(
    device: &Device,
    prices: &P,
    sources: Set<WireId>,
    hops: int,
    wire: WireId,
    price: int,
) -> bool {
    &&& exists|wires: Seq<WireId>, pips: Seq<PipId>|
        #[trigger] ends_within(device, prices, sources, hops, wire, wires, pips) && clip_u64(
            walk_price(prices, wires, pips),
        ) == price
    &&& forall|wires: Seq<WireId>, pips: Seq<PipId>| #[trigger]
        ends_within(device, prices, sources, hops, wire, wires, pips) ==> price <= clip_u64(
            walk_price(prices, wires, pips),
        )
}

/// The table holds the least price of every wire that walks of so many hops reach.
pub open spec fn is_layer<P: HopPrices>(
    device: &Device,
    prices: &P,
    sources: Set<WireId>,
    hops: int,
    table: Map<WireId, u64>,
) -> bool {
    &&& forall|w: WireId| #[trigger]
        table.contains_key(w) ==> w.0 < device.wires@.len() && is_least_price(
            device,
            prices,
            sources,
            hops,
            w,
            table[w] as int,
        )
    &&& forall|w: WireId, wires: Seq<WireId>, pips: Seq<PipId>| #[trigger]
        ends_within(device, prices, sources, hops, w, wires, pips) ==> table.contains_key(w)
}

/// Prices of walks are not negative.
proof fn lemma_walk_price_range<P: HopPrices>(
    device: &Device,
    prices: &P,
    sources: Set<WireId>,
    wires: Seq<WireId>,
    pips: Seq<PipId>,
)
    requires
        is_local_walk(device, prices, sources, wires, pips),
    ensures
        walk_price(prices, wires, pips) >= 0,
    decreases pips.len(),
{
    if pips.len() > 0 {
        lemma_walk_prefix(device, prices, sources, wires, pips);
        lemma_walk_price_range(device, prices, sources, wires.drop_last(), pips.drop_last());
        prices.hop_range(pips.last(), wires.last());
        assert(takes_step(
            device,
            prices,
            wires[pips.len() - 1],
            pips[pips.len() - 1],
            wires[pips.len() as int],
        ));
    }
}

/// A walk without its last hop is a walk.
proof fn lemma_walk_prefix<P: HopPrices>(
    device: &Device,
    prices: &P,
    sources: Set<WireId>,
    wires: Seq<WireId>,
    pips: Seq<PipId>,
)
    requires
        is_local_walk(device, prices, sources, wires, pips),
        pips.len() > 0,
    ensures
        is_local_walk(device, prices, sources, wires.drop_last(), pips.drop_last()),
        takes_step(
            device,
            prices,
            wires.drop_last().last(),
            pips.last(),
            wires.last(),
        ),
{
    let shorter = wires.drop_last();
    let fewer = pips.drop_last();
    assert forall|i: int| 0 <= i < fewer.len() implies takes_step(
        device,
        prices,
        shorter[i],
        #[trigger] fewer[i],
        shorter[i + 1],
    ) by {
        assert(takes_step(device, prices, wires[i], pips[i], wires[i + 1]));
    }
    let last = pips.len() - 1;
    assert(takes_step(device, prices, wires[last], pips[last], wires[last + 1]));
}

/// A walk with one more allowed hop is a walk.
proof fn lemma_walk_grows<P: HopPrices>(
    device: &Device,
    prices: &P,
    sources: Set<WireId>,
    wires: Seq<WireId>,
    pips: Seq<PipId>,
    pip: PipId,
    to: WireId,
)
    requires
        is_local_walk(device, prices, sources, wires, pips),
        takes_step(device, prices, wires.last(), pip, to),
    ensures
        is_local_walk(device, prices, sources, wires.push(to), pips.push(pip)),
        walk_price(prices, wires.push(to), pips.push(pip)) == walk_price(prices, wires, pips)
            + prices.hop(pip, to)->0,
{
    let longer = wires.push(to);
    let more = pips.push(pip);
    assert forall|i: int| 0 <= i < more.len() implies takes_step(
        device,
        prices,
        longer[i],
        #[trigger] more[i],
        longer[i + 1],
    ) by {
        if i < pips.len() {
            assert(takes_step(device, prices, wires[i], pips[i], wires[i + 1]));
        }
    }
    assert(longer.drop_last() =~= wires);
    assert(more.drop_last() =~= pips);
}

/// The table holds, for every wire, the price of some walk of one hop more and
/// no more than the earlier table.
spec fn is_progress<P: HopPrices>(
    device: &Device,
    prices: &P,
    sources: Set<WireId>,
    hops: int,
    earlier: Map<WireId, u64>,
    table: Map<WireId, u64>,
) -> bool {
    &&& forall|w: WireId| #[trigger]
        table.contains_key(w) ==> w.0 < device.wires@.len() && exists|
            wires: Seq<WireId>,
            pips: Seq<PipId>,
        |
            #[trigger] ends_within(device, prices, sources, hops + 1, w, wires, pips) && clip_u64(
                walk_price(prices, wires, pips),
            ) == table[w]
    &&& forall|w: WireId| #[trigger]
        earlier.contains_key(w) ==> table.contains_key(w) && table[w] <= earlier[w]
}

/// The table knows every hop from the wire.
spec fn knows_hops<P: HopPrices>(
    device: &Device,
    prices: &P,
    earlier: Map<WireId, u64>,
    table: Map<WireId, u64>,
    from: WireId,
    count: int,
) -> bool {
    forall|k: int|
        0 <= k < count ==> hop_known(
            prices,
            earlier,
            table,
            from,
            #[trigger] device.neighbors@[from.0 as int]@[k],
        )
}

/// The table knows the price of going on by the hop.
spec fn hop_known<P: HopPrices>(
    prices: &P,
    earlier: Map<WireId, u64>,
    table: Map<WireId, u64>,
    from: WireId,
    hop: (WireId, PipId),
) -> bool {
    prices.hop(hop.1, hop.0) matches Some(price) ==> table.contains_key(hop.0) && table[hop.0]
        <= clip_u64(earlier[from] + price)
}

/// Enters the hops from one wire.
fn extend_from<P: HopPrices>(
    graph: &UnifiedGraph<'_>,
    prices: &P,
    from: WireId,
    earlier: &OrderedMap<WireId, u64>,
    table: &mut OrderedMap<WireId, u64>,
    Ghost(sources): Ghost<Set<WireId>>,
    Ghost(hops): Ghost<int>,
    Ghost(done): Ghost<Set<WireId>>,
)
    requires
        graph.wf(),
        prices.prices(graph.device),
        earlier.wf(),
        old(table).wf(),
        earlier@.contains_key(from),
        0 <= hops,
        is_layer(graph.device, prices, sources, hops, earlier@),
        is_progress(graph.device, prices, sources, hops, earlier@, old(table)@),
        forall|w: WireId| #[trigger]
            done.contains(w) ==> earlier@.contains_key(w) && knows_hops(
                graph.device,
                prices,
                earlier@,
                old(table)@,
                w,
                graph.device.neighbors@[w.0 as int]@.len() as int,
            ),
    ensures
        final(table).wf(),
        is_progress(graph.device, prices, sources, hops, earlier@, final(table)@),
        forall|w: WireId| #[trigger]
            done.insert(from).contains(w) ==> knows_hops(
                graph.device,
                prices,
                earlier@,
                final(table)@,
                w,
                graph.device.neighbors@[w.0 as int]@.len() as int,
            ),
{
    let device = graph.device();
    let price: u64 = match earlier.get(from) {
        Some(price) => *price,
        None => 0,
    };
    assert(from.0 < device.wires@.len());
    let list = &device.neighbors[from.0];
    let mut at: usize = 0;
    while at < list.len()
        invariant
            at <= list@.len(),
            graph.wf(),
            device == graph.device,
            prices.prices(device),
            earlier.wf(),
            table.wf(),
            earlier@.contains_key(from),
            from.0 < device.wires@.len(),
            *list == device.neighbors@[from.0 as int],
            price == earlier@[from],
            0 <= hops,
            is_layer(device, prices, sources, hops, earlier@),
            is_progress(device, prices, sources, hops, earlier@, table@),
            knows_hops(device, prices, earlier@, table@, from, at as int),
            forall|w: WireId| #[trigger]
                done.contains(w) ==> earlier@.contains_key(w) && knows_hops(
                    device,
                    prices,
                    earlier@,
                    table@,
                    w,
                    device.neighbors@[w.0 as int]@.len() as int,
                ),
        decreases list@.len() - at,
    {
        let (to, pip) = list[at];
        let ghost before = table@;
        proof {
            device.lemma_hop(from, at as int);
            prices.hop_range(pip, to);
        }
        if let Some(step) = prices.find_hop(pip, to, device) {
            let next: u64 = price.saturating_add(step);
            let better = match table.get(to) {
                Some(known) => next < *known,
                None => true,
            };
            if better {
                table.insert(to, next);
            }
            proof {
                assert forall|w: WireId| #[trigger] table@.contains_key(w) implies w.0
                    < device.wires@.len() && exists|wires: Seq<WireId>, pips: Seq<PipId>|
                    #[trigger] ends_within(device, prices, sources, hops + 1, w, wires, pips)
                        && clip_u64(walk_price(prices, wires, pips)) == table@[w] by {
                    if w == to && better {
                        assert(is_least_price(
                            device,
                            prices,
                            sources,
                            hops,
                            from,
                            earlier@[from] as int,
                        ));
                        let (wires, pips) = choose|wires: Seq<WireId>, pips: Seq<PipId>|
                            #[trigger] ends_within(
                                device,
                                prices,
                                sources,
                                hops,
                                from,
                                wires,
                                pips,
                            ) && clip_u64(walk_price(prices, wires, pips)) == earlier@[from] as int;
                        assert(takes_step(device, prices, from, pip, to));
                        lemma_walk_price_range(device, prices, sources, wires, pips);
                        lemma_walk_grows(device, prices, sources, wires, pips, pip, to);
                        assert(ends_within(
                            device,
                            prices,
                            sources,
                            hops + 1,
                            to,
                            wires.push(to),
                            pips.push(pip),
                        ));
                    } else {
                        assert(before.contains_key(w));
                    }
                }
                assert forall|w: WireId| #[trigger] done.contains(w) implies knows_hops(
                    device,
                    prices,
                    earlier@,
                    table@,
                    w,
                    device.neighbors@[w.0 as int]@.len() as int,
                ) by {
                    assert(knows_hops(
                        device,
                        prices,
                        earlier@,
                        before,
                        w,
                        device.neighbors@[w.0 as int]@.len() as int,
                    ));
                    lemma_knows_better(
                        device,
                        prices,
                        earlier@,
                        before,
                        table@,
                        w,
                        device.neighbors@[w.0 as int]@.len() as int,
                    );
                }
                lemma_knows_better(device, prices, earlier@, before, table@, from, at as int);
                assert(hop_known(
                    prices,
                    earlier@,
                    table@,
                    from,
                    device.neighbors@[from.0 as int]@[at as int],
                ));
            }
        }
        at = at + 1;
    }
}

/// A table with lower prices knows what the earlier one knew.
proof fn lemma_knows_better<P: HopPrices>(
    device: &Device,
    prices: &P,
    earlier: Map<WireId, u64>,
    before: Map<WireId, u64>,
    after: Map<WireId, u64>,
    from: WireId,
    count: int,
)
    requires
        knows_hops(device, prices, earlier, before, from, count),
        forall|w: WireId| #[trigger]
            before.contains_key(w) ==> after.contains_key(w) && after[w] <= before[w],
    ensures
        knows_hops(device, prices, earlier, after, from, count),
{
    assert forall|k: int| 0 <= k < count implies hop_known(
        prices,
        earlier,
        after,
        from,
        #[trigger] device.neighbors@[from.0 as int]@[k],
    ) by {
        let hop = device.neighbors@[from.0 as int]@[k];
        assert(hop_known(prices, earlier, before, from, hop));
        if prices.hop(hop.1, hop.0) is Some {
            assert(before.contains_key(hop.0));
        }
    }
}

/// A table that knows every hop from every wire of a layer is the next layer.
proof fn lemma_next_layer<P: HopPrices>(
    device: &Device,
    prices: &P,
    sources: Set<WireId>,
    hops: int,
    earlier: Map<WireId, u64>,
    table: Map<WireId, u64>,
)
    requires
        device.wf(),
        0 <= hops,
        is_layer(device, prices, sources, hops, earlier),
        is_progress(device, prices, sources, hops, earlier, table),
        forall|w: WireId| #[trigger]
            earlier.contains_key(w) ==> knows_hops(
                device,
                prices,
                earlier,
                table,
                w,
                device.neighbors@[w.0 as int]@.len() as int,
            ),
    ensures
        is_layer(device, prices, sources, hops + 1, table),
{
    assert forall|w: WireId, wires: Seq<WireId>, pips: Seq<PipId>| #[trigger]
        ends_within(device, prices, sources, hops + 1, w, wires, pips) implies table.contains_key(w)
        && table[w] <= clip_u64(walk_price(prices, wires, pips)) by {
        if pips.len() <= hops {
            assert(ends_within(device, prices, sources, hops, w, wires, pips));
            assert(earlier.contains_key(w));
            assert(is_least_price(device, prices, sources, hops, w, earlier[w] as int));
        } else {
            lemma_walk_prefix(device, prices, sources, wires, pips);
            let shorter = wires.drop_last();
            let fewer = pips.drop_last();
            let from = shorter.last();
            let pip = pips.last();
            assert(ends_within(device, prices, sources, hops, from, shorter, fewer));
            assert(earlier.contains_key(from));
            assert(is_least_price(device, prices, sources, hops, from, earlier[from] as int));
            device.lemma_listed(from, pip, w);
            let list = device.neighbors@[from.0 as int]@;
            let k = list.index_of((w, pip));
            assert(device.neighbors@[from.0 as int]@[k] == (w, pip));
            assert(knows_hops(device, prices, earlier, table, from, list.len() as int));
            assert(hop_known(prices, earlier, table, from, device.neighbors@[from.0 as int]@[k]));
            prices.hop_range(pip, w);
            lemma_walk_price_range(device, prices, sources, shorter, fewer);
        }
    }
    assert forall|w: WireId| #[trigger] table.contains_key(w) implies w.0 < device.wires@.len()
        && is_least_price(device, prices, sources, hops + 1, w, table[w] as int) by {}
}

/// Least price of walks of few hops from the sources to the goal.
pub fn least_price<P: HopPrices>(
    graph: &UnifiedGraph<'_>,
    prices: &P,
    sources: &Vec<WireId>,
    goal: WireId,
) -> (result: Option<u64>)
    requires
        graph.wf(),
        prices.prices(graph.device),
        forall|i: int|
            0 <= i < sources@.len() ==> (#[trigger] sources@[i]).0 < graph.device.wires@.len(),
    ensures
        match result {
            Some(price) => is_least_price(
                graph.device,
                prices,
                sources@.to_set(),
                MAX_LOCAL_HOPS as int,
                goal,
                price as int,
            ),
            None => forall|wires: Seq<WireId>, pips: Seq<PipId>| !#[trigger]
                ends_within(
                    graph.device,
                    prices,
                    sources@.to_set(),
                    MAX_LOCAL_HOPS as int,
                    goal,
                    wires,
                    pips,
                ),
        },
{
    let device = graph.device();
    let ghost starts = sources@.to_set();
    let mut table: OrderedMap<WireId, u64> = OrderedMap::new();
    let mut at: usize = 0;
    while at < sources.len()
        invariant
            at <= sources@.len(),
            table.wf(),
            forall|i: int|
                0 <= i < sources@.len() ==> (#[trigger] sources@[i]).0 < device.wires@.len(),
            forall|w: WireId| #[trigger]
                table@.contains_key(w) <==> sources@.take(at as int).to_set().contains(w),
            forall|w: WireId| #[trigger] table@.contains_key(w) ==> table@[w] == 0,
        decreases sources@.len() - at,
    {
        proof {
            crate::ordered::lemma_take_step(sources@, at as int);
        }
        table.insert(sources[at], 0);
        at = at + 1;
    }
    proof {
        assert(sources@.take(at as int) =~= sources@);
        lemma_first_layer(device, prices, starts, table@);
    }
    let mut hops: usize = 0;
    while hops < MAX_LOCAL_HOPS
        invariant
            hops <= MAX_LOCAL_HOPS,
            graph.wf(),
            device == graph.device,
            prices.prices(device),
            table.wf(),
            is_layer(device, prices, starts, hops as int, table@),
        decreases MAX_LOCAL_HOPS - hops,
    {
        let mut next = table.copied();
        let ghost mut done: Set<WireId> = Set::empty();
        proof {
            assert forall|w: WireId| #[trigger] next@.contains_key(w) implies w.0
                < device.wires@.len() && exists|wires: Seq<WireId>, pips: Seq<PipId>|
                #[trigger] ends_within(device, prices, starts, hops + 1, w, wires, pips)
                    && clip_u64(walk_price(prices, wires, pips)) == next@[w] by {
                assert(is_least_price(device, prices, starts, hops as int, w, table@[w] as int));
                let (wires, pips) = choose|wires: Seq<WireId>, pips: Seq<PipId>|
                    #[trigger] ends_within(device, prices, starts, hops as int, w, wires, pips)
                        && clip_u64(walk_price(prices, wires, pips)) == table@[w] as int;
                assert(ends_within(device, prices, starts, hops + 1, w, wires, pips));
            }
        }
        let mut index: usize = 0;
        while index < table.len()
            invariant
                index <= table.ordered().len(),
                graph.wf(),
                device == graph.device,
                prices.prices(device),
                table.wf(),
                next.wf(),
                is_layer(device, prices, starts, hops as int, table@),
                is_progress(device, prices, starts, hops as int, table@, next@),
                forall|w: WireId| #[trigger]
                    done.contains(w) <==> table.ordered().take(index as int).to_set().contains(w),
                forall|w: WireId| #[trigger]
                    done.contains(w) ==> table@.contains_key(w) && knows_hops(
                        device,
                        prices,
                        table@,
                        next@,
                        w,
                        device.neighbors@[w.0 as int]@.len() as int,
                    ),
            decreases table.ordered().len() - index,
        {
            let wire = table.key_at(index);
            proof {
                table.entry(index as int);
                crate::ordered::lemma_take_step(table.ordered(), index as int);
            }
            extend_from(
                graph,
                prices,
                wire,
                &table,
                &mut next,
                Ghost(starts),
                Ghost(hops as int),
                Ghost(done),
            );
            proof {
                done = done.insert(wire);
            }
            index = index + 1;
        }
        proof {
            assert(table.ordered().take(index as int) =~= table.ordered());
            table.lemma_size();
            assert forall|w: WireId| #[trigger] table@.contains_key(w) implies knows_hops(
                device,
                prices,
                table@,
                next@,
                w,
                device.neighbors@[w.0 as int]@.len() as int,
            ) by {
                assert(table@.dom().contains(w));
                assert(done.contains(w));
            }
            lemma_next_layer(device, prices, starts, hops as int, table@, next@);
        }
        table = next;
        hops = hops + 1;
    }
    match table.get(goal) {
        Some(price) => Some(*price),
        None => None,
    }
}

/// The sources at no price are the layer of no hops.
proof fn lemma_first_layer<P: HopPrices>(
    device: &Device,
    prices: &P,
    sources: Set<WireId>,
    table: Map<WireId, u64>,
)
    requires
        forall|w: WireId| #[trigger] table.contains_key(w) <==> sources.contains(w),
        forall|w: WireId| #[trigger] table.contains_key(w) ==> table[w] == 0,
        forall|w: WireId| #[trigger] sources.contains(w) ==> w.0 < device.wires@.len(),
    ensures
        is_layer(device, prices, sources, 0, table),
{
    assert forall|w: WireId| #[trigger] table.contains_key(w) implies w.0 < device.wires@.len()
        && is_least_price(device, prices, sources, 0, w, table[w] as int) by {
        let wires = seq![w];
        let pips = Seq::<PipId>::empty();
        assert(ends_within(device, prices, sources, 0, w, wires, pips));
        assert(walk_price(prices, wires, pips) == 0);
        assert forall|other: Seq<WireId>, others: Seq<PipId>| #[trigger]
            ends_within(device, prices, sources, 0, w, other, others) implies 0 <= clip_u64(
            walk_price(prices, other, others),
        ) by {
            assert(walk_price(prices, other, others) == 0);
        }
    }
    assert forall|w: WireId, wires: Seq<WireId>, pips: Seq<PipId>| #[trigger]
        ends_within(device, prices, sources, 0, w, wires, pips) implies table.contains_key(w) by {
        assert(wires[0] == w);
    }
}

} // verus!
