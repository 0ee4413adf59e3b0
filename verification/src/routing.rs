//! What the neighbours advertise and what this relay has chosen.
use crate::relay;
use crate::relay::to_relay_number;
use std::collections::HashMap;
use vstd::prelude::*;

verus! {

#[derive(Debug, Clone, Copy, PartialEq, Eq, Structural)]
pub struct RouteEntry {
    pub path_cost: u32,
    pub depth: u16,
}

#[derive(Debug, Clone, Copy, PartialEq, Eq, Structural)]
pub struct NeighborMetrics {
    pub path_cost: u32,
    pub depth: u16,
}

impl Default for RouteEntry {
    fn default() -> (res: Self)
        ensures
            res == (RouteEntry { path_cost: 0, depth: 0 }),
    {
        RouteEntry { path_cost: 0, depth: 0 }
    }
}

impl Default for NeighborMetrics {
    fn default() -> (res: Self)
        ensures
            res == (NeighborMetrics { path_cost: 0, depth: 0 }),
    {
        NeighborMetrics { path_cost: 0, depth: 0 }
    }
}

#[derive(Debug)]
pub struct TrickleRouteSelector {
    local_route: Option<RouteEntry>,
    neighbors: HashMap<u32, NeighborMetrics>,
}

impl Default for TrickleRouteSelector {
    fn default() -> (res: Self)
        ensures
            res.local() is None,
            res.heard() == Map::<[u8; 4], NeighborMetrics>::empty(),
    {
        TrickleRouteSelector::new()
    }
}

impl TrickleRouteSelector {
    /// The route of this relay.
    pub closed spec fn local(&self) -> Option<RouteEntry> {
        self.local_route
    }

    /// The last beacon of each neighbour.
    pub closed spec fn heard(&self) -> Map<[u8; 4], NeighborMetrics> {
        Map::new(
            |id: [u8; 4]| self.neighbors@.contains_key(relay::relay_number(id) as u32),
            |id: [u8; 4]| self.neighbors@[relay::relay_number(id) as u32],
        )
    }

    pub fn new() -> (res: Self)
        ensures
            res.local() is None,
            res.heard() == Map::<[u8; 4], NeighborMetrics>::empty(),
    {
        let res = TrickleRouteSelector { local_route: None, neighbors: HashMap::new() };
        assert(res.heard() =~= Map::<[u8; 4], NeighborMetrics>::empty());
        res
    }

    pub fn set_local_route(&mut self, entry: Option<RouteEntry>)
        ensures
            final(self).local() == entry,
            final(self).heard() == old(self).heard(),
    {
        self.local_route = entry;
    }

    pub fn local_route(&self) -> (res: Option<RouteEntry>)
        ensures
            res == self.local(),
    {
        self.local_route
    }

    /// Records what a neighbour advertises.
    pub fn on_beacon(&mut self, relay_id: [u8; 4], path_cost: u32, depth: u16)
        ensures
            final(self).local() == old(self).local(),
            final(self).heard() == old(self).heard().insert(
                relay_id,
                NeighborMetrics { path_cost, depth },
            ),
    {
        let number: u32 = to_relay_number(&relay_id);
        self.neighbors.insert(number, NeighborMetrics { path_cost, depth });
        proof {
            assert forall|id: [u8; 4]| relay::relay_number(id) as u32 == number implies id
                == relay_id by {
                relay::relay_number_is_injective(id, relay_id);
            }
            assert(self.heard() =~= old(self).heard().insert(
                relay_id,
                NeighborMetrics { path_cost, depth },
            ));
        }
    }

    pub fn neighbor_metrics(&self, relay_id: &[u8; 4]) -> (res: Option<NeighborMetrics>)
        ensures
            res == if self.heard().contains_key(*relay_id) {
                Some(self.heard()[*relay_id])
            } else {
                None
            },
    {
        let number: u32 = to_relay_number(relay_id);
        match self.neighbors.get(&number) {
            Some(metrics) => Some(*metrics),
            None => None,
        }
    }

    /// Forgets the local route and all neighbours.
    pub fn reset(&mut self)
        ensures
            final(self).local() is None,
            final(self).heard() == Map::<[u8; 4], NeighborMetrics>::empty(),
    {
        self.local_route = None;
        self.neighbors.clear();
        assert(self.heard() =~= Map::<[u8; 4], NeighborMetrics>::empty());
    }
}

} // verus!
