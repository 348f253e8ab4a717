//! Immutable route trees and forbidden PIPs.

use std::sync::Arc;

use vstd::prelude::*;

use crate::model::{NetId, PipId};
use crate::ordered::{lemma_take_step, OrderedMap, OrderedSet};
use crate::route::NetRoute;
use crate::routing_costs::share;
use crate::search::blocked_in;

verus! {

/// Target-supplied immutable portions of logical net trees.
///
/// This is used for architecture resources whose legal topology cannot be
/// discovered from local congestion costs alone, such as a primary clock
/// spine. The router grows any still-unconnected sinks from the locked tree
/// and accounts for every fixed wire and PIP normally.
#[derive(Clone, Debug, PartialEq, Eq)]
pub struct RoutingConstraints {
    /// Immutable route of each constrained net.
    pub routes: OrderedMap<NetId, Arc<NetRoute>>,
    /// Forbidden PIPs.
    pub blocked_pips: OrderedSet<PipId>,
    /// Forbidden PIPs, sixty-four to a word, once there are any.
    pub blocked_pip_words: Option<Vec<u64>>,
}

/// Words of a table of forbidden PIPs.
pub open spec fn words_of(words: Option<Vec<u64>>) -> Seq<u64> {
    match words {
        Some(words) => words@,
        None => Seq::empty(),
    }
}

impl RoutingConstraints {
    /// The tables are ordered, and the words hold exactly the forbidden PIPs.
    pub open spec fn wf(&self) -> bool {
        &&& self.routes.wf()
        &&& forall|n: NetId| #[trigger]
            self.routes@.contains_key(n) ==> self.routes@[n].wf()
        &&& self.blocked_pips.wf()
        &&& forall|p: PipId|
            self.blocked_pips@.contains(p) <==> #[trigger] blocked_in(
                words_of(self.blocked_pip_words),
                p,
            )
    }

    /// Creates an unconstrained routing problem.
    pub fn new() -> (result: Self)
        ensures
            result.wf(),
            result.routes@ == Map::<NetId, Arc<NetRoute>>::empty(),
            result.blocked_pips@ == Set::<PipId>::empty(),
            result.blocked_pip_words is None,
    {
        RoutingConstraints {
            routes: OrderedMap::new(),
            blocked_pips: OrderedSet::new(),
            blocked_pip_words: None,
        }
    }

    /// Both hold the same routes and forbid the same PIPs.
    pub open spec fn same(&self, other: &RoutingConstraints) -> bool {
        &&& self.routes@ == other.routes@
        &&& self.blocked_pips@ == other.blocked_pips@
        &&& words_of(self.blocked_pip_words) == words_of(other.blocked_pip_words)
    }

    /// A copy of the constraints; the routes are shared.
    pub fn copied(&self) -> (result: Self)
        requires
            self.wf(),
        ensures
            result.wf(),
            result.same(self),
    {
        let mut routes: OrderedMap<NetId, Arc<NetRoute>> = OrderedMap::new();
        let mut index: usize = 0;
        while index < self.routes.len()
            invariant
                index <= self.routes.ordered().len(),
                self.routes.wf(),
                routes.wf(),
                forall|n: NetId| #[trigger]
                    routes@.contains_key(n) <==> self.routes.ordered().take(
                        index as int,
                    ).to_set().contains(n),
                forall|n: NetId| #[trigger]
                    routes@.contains_key(n) ==> self.routes@.contains_key(n) && routes@[n]
                        == self.routes@[n],
            decreases self.routes.ordered().len() - index,
        {
            let net = self.routes.key_at(index);
            proof {
                self.routes.entry(index as int);
                lemma_take_step(self.routes.ordered(), index as int);
            }
            routes.insert(net, share(self.routes.value_at(index)));
            index = index + 1;
        }
        proof {
            self.routes.lemma_size();
            assert(self.routes.ordered().take(index as int) =~= self.routes.ordered());
            assert forall|n: NetId| routes@.contains_key(n) <==> self.routes@.contains_key(n) by {
                assert(self.routes@.dom().contains(n) <==> self.routes.ordered().to_set().contains(
                    n,
                ));
            }
            assert(routes@ =~= self.routes@);
        }
        let blocked_pip_words = match &self.blocked_pip_words {
            None => None,
            Some(words) => {
                let mut copy: Vec<u64> = Vec::new();
                let mut at: usize = 0;
                while at < words.len()
                    invariant
                        at <= words@.len(),
                        copy@ == words@.take(at as int),
                    decreases words@.len() - at,
                {
                    copy.push(words[at]);
                    assert(words@.take(at + 1) =~= words@.take(at as int).push(words@[at as int]));
                    at = at + 1;
                }
                assert(words@.take(at as int) =~= words@);
                Some(copy)
            },
        };
        let result = RoutingConstraints {
            routes,
            blocked_pips: self.blocked_pips.copied(),
            blocked_pip_words,
        };
        proof {
            assert(words_of(result.blocked_pip_words) == words_of(self.blocked_pip_words));
            assert forall|n: NetId| #[trigger] result.routes@.contains_key(n) implies result.routes@[n].wf() by {
                assert(self.routes@.contains_key(n));
            }
        }
        result
    }

    /// Sets the immutable route tree for one logical net.
    pub fn add_route(&mut self, route: Arc<NetRoute>)
        requires
            old(self).wf(),
            route.wf(),
        ensures
            final(self).wf(),
            final(self).routes@ == old(self).routes@.insert(route.net, route),
            final(self).blocked_pips == old(self).blocked_pips,
            final(self).blocked_pip_words == old(self).blocked_pip_words,
    {
        let net = route.net;
        self.routes.insert(net, route);
    }

    /// Immutable route trees indexed by logical net.
    pub fn routes(&self) -> (result: &OrderedMap<NetId, Arc<NetRoute>>)
        ensures
            *result == self.routes,
    {
        &self.routes
    }

    /// Prevents the router from using target-defined illegal PIPs.
    pub fn block_pips(&mut self, pips: &[PipId])
        requires
            old(self).wf(),
        ensures
            final(self).wf(),
            final(self).routes == old(self).routes,
            final(self).blocked_pips@ == old(self).blocked_pips@.union(pips@.to_set()),
            pips@.len() == 0 ==> final(self).blocked_pip_words == old(self).blocked_pip_words,
            pips@.len() > 0 ==> final(self).blocked_pip_words is Some,
    {
        if pips.len() == 0 {
            assert(self.blocked_pips@ =~= old(self).blocked_pips@.union(pips@.to_set()));
            return ;
        }
        let mut words: Vec<u64> = match self.blocked_pip_words.take() {
            Some(words) => words,
            None => Vec::new(),
        };
        assert(words@ =~= words_of(old(self).blocked_pip_words));
        let mut index: usize = 0;
        proof {
            assert(pips@.take(0).to_set() =~= Set::<PipId>::empty());
            assert(self.blocked_pips@ =~= old(self).blocked_pips@.union(pips@.take(0).to_set()));
        }
        while index < pips.len()
            invariant
                index <= pips@.len(),
                self.routes == old(self).routes,
                self.blocked_pips.wf(),
                self.blocked_pips@ == old(self).blocked_pips@.union(
                    pips@.take(index as int).to_set(),
                ),
                forall|p: PipId|
                    self.blocked_pips@.contains(p) <==> #[trigger] blocked_in(words@, p),
            decreases pips@.len() - index,
        {
            let pip = pips[index];
            let ghost earlier = self.blocked_pips@;
            self.blocked_pips.insert(pip);
            block_word(&mut words, pip);
            proof {
                crate::ordered::lemma_take_step(pips@, index as int);
                assert(self.blocked_pips@ =~= old(self).blocked_pips@.union(
                    pips@.take(index + 1).to_set(),
                ));
            }
            index = index + 1;
        }
        proof {
            assert(pips@.take(index as int) =~= pips@);
        }
        self.blocked_pip_words = Some(words);
    }

    /// PIPs unavailable in this placement-specific routing problem.
    pub fn blocked_pips(&self) -> (result: &OrderedSet<PipId>)
        ensures
            *result == self.blocked_pips,
    {
        &self.blocked_pips
    }

    /// Forbidden PIPs, sixty-four to a word.
    pub fn blocked_pip_words(&self) -> (result: &[u64])
        ensures
            result@ == words_of(self.blocked_pip_words),
    {
        match &self.blocked_pip_words {
            Some(words) => words.as_slice(),
            None => {
                let empty: &[u64] = &[];
                assert(empty@ =~= Seq::<u64>::empty());
                empty
            },
        }
    }
}

/// Sets the bit of one PIP.
fn block_word(words: &mut Vec<u64>, pip: PipId)
    ensures
        forall|p: PipId| #[trigger] blocked_in(final(words)@, p) <==> (blocked_in(old(words)@, p) || p == pip),
{
    let word: usize = pip.0 / 64;
    let ghost before = words@;
    while words.len() <= word
        invariant
            before.len() <= words@.len(),
            before.len() <= words@.len() <= word + 1 || words@.len() == before.len(),
            forall|i: int| 0 <= i < before.len() ==> words@[i] == before[i],
            forall|i: int| before.len() <= i < words@.len() ==> words@[i] == 0,
        decreases word + 1 - words@.len(),
    {
        words.push(0);
    }
    let bit: u64 = 1u64 << ((pip.0 % 64) as u64);
    let old_word: u64 = words[word];
    let ghost middle = words@;
    words.set(word, old_word | bit);
    proof {
        assert forall|p: PipId| #[trigger] blocked_in(words@, p) <==> (blocked_in(before, p) || p
            == pip) by {
            let at = (p.0 / 64) as int;
            let shift = (p.0 % 64) as u64;
            let own = (pip.0 % 64) as u64;
            assert(at < middle.len() && at >= before.len() ==> middle[at] == 0);
            lemma_or_bit(old_word, own, shift);
            lemma_zero_bit(shift);
            if at == word && shift == own {
                assert(p.0 == 64 * (p.0 / 64) + p.0 % 64);
                assert(pip.0 == 64 * (pip.0 / 64) + pip.0 % 64);
                assert(p == pip);
            }
        }
    }
}

/// Setting one bit adds that bit alone.
proof fn lemma_or_bit(word: u64, set: u64, asked: u64)
    requires
        set < 64,
        asked < 64,
    ensures
        ((word | (1u64 << set)) & (1u64 << asked)) != 0 <==> ((word & (1u64 << asked)) != 0 || set
            == asked),
{
    assert(((word | (1u64 << set)) & (1u64 << asked)) != 0 <==> ((word & (1u64 << asked)) != 0
        || set == asked)) by (bit_vector)
        requires
            set < 64,
            asked < 64,
    ;
}

/// No bit of zero is set.
proof fn lemma_zero_bit(asked: u64)
    ensures
        (0u64 & (1u64 << asked)) == 0,
{
    assert((0u64 & (1u64 << asked)) == 0) by (bit_vector);
}

} // verus!
