//! The state every robot shares: the map, what the scouts have reported,
//! where each robot stands, what the collectors are after, and the totals
//! brought back to the base.

use crate::map::{Cell, Pos, ResourceKind, TileMap};
use crate::positions::PosMap;
use crate::robot::RobotKind;
use std::collections::HashMap;
use vstd::prelude::*;

verus! {

pub struct SharedWorld {
    pub map: TileMap,
    /// What the scouts have reported of each tile, as last reported or
    /// updated by a collection.
    pub known_cells: PosMap<Cell>,
    pub robot_positions: HashMap<usize, Pos>,
    /// Stores the kind of each robot by id, used for rendering.
    pub robot_kinds: HashMap<usize, RobotKind>,
    pub energy_collected: u32,
    pub crystal_collected: u32,
    /// Maps each collector id to the resource position it has been dispatched to.
    /// A collector absent from this map is considered free and eligible for dispatch.
    pub collector_targets: HashMap<usize, Pos>,
}

/// The total collected so far of `kind`.
pub open spec fn collected_of(w: SharedWorld, kind: ResourceKind) -> int {
    match kind {
        ResourceKind::Energy => w.energy_collected as int,
        ResourceKind::Crystal => w.crystal_collected as int,
    }
}

/// `a` and `b` agree on everything but the collector targets.
pub open spec fn same_but_targets(a: SharedWorld, b: SharedWorld) -> bool {
    &&& a.map == b.map
    &&& a.known_cells@ == b.known_cells@
    &&& a.robot_positions@ == b.robot_positions@
    &&& a.robot_kinds@ == b.robot_kinds@
    &&& a.energy_collected == b.energy_collected
    &&& a.crystal_collected == b.crystal_collected
}

/// Assigning a collector and then freeing it leaves the dispatch table as
/// freeing it alone would: no trace of the assignment remains.
pub proof fn law_free_after_assign(targets: Map<usize, Pos>, id: usize, target: Pos)
    ensures
        targets.insert(id, target).remove(id) == targets.remove(id),
{
    assert(targets.insert(id, target).remove(id) =~= targets.remove(id));
}

impl SharedWorld {
    /// A world on `map` where nothing is known yet, no robot is placed, no
    /// collector is dispatched and nothing has been collected.
    pub fn new(map: TileMap) -> (r: Self)
        ensures
            r.map == map,
            r.known_cells@ == Map::<Pos, Cell>::empty(),
            r.robot_positions@ == Map::<usize, Pos>::empty(),
            r.robot_kinds@ == Map::<usize, RobotKind>::empty(),
            r.energy_collected == 0,
            r.crystal_collected == 0,
            r.collector_targets@ == Map::<usize, Pos>::empty(),
    {
        SharedWorld {
            map,
            known_cells: PosMap::new(),
            robot_positions: HashMap::new(),
            robot_kinds: HashMap::new(),
            energy_collected: 0,
            crystal_collected: 0,
            collector_targets: HashMap::new(),
        }
    }

    /// Assign a collector to a target resource position.
    pub fn assign_collector(&mut self, id: usize, target: Pos)
        ensures
            final(self).collector_targets@ == old(self).collector_targets@.insert(id, target),
            same_but_targets(*final(self), *old(self)),
    {
        self.collector_targets.insert(id, target);
    }

    /// Mark a collector as free (no active target).
    pub fn free_collector(&mut self, id: usize)
        ensures
            final(self).collector_targets@ == old(self).collector_targets@.remove(id),
            same_but_targets(*final(self), *old(self)),
    {
        self.collector_targets.remove(&id);
    }

    /// Increment the running total for the given resource kind. The total
    /// must not overflow.
    pub fn record_collection(&mut self, kind: ResourceKind, amount: u32)
        requires
            collected_of(*old(self), kind) + amount <= u32::MAX,
        ensures
            collected_of(*final(self), kind) == collected_of(*old(self), kind) + amount,
            forall|other: ResourceKind|
                other != kind ==> collected_of(*final(self), other) == collected_of(
                    *old(self),
                    other,
                ),
            final(self).map == old(self).map,
            final(self).known_cells@ == old(self).known_cells@,
            final(self).robot_positions@ == old(self).robot_positions@,
            final(self).robot_kinds@ == old(self).robot_kinds@,
            final(self).collector_targets@ == old(self).collector_targets@,
    {
        match kind {
            ResourceKind::Energy => self.energy_collected = self.energy_collected + amount,
            ResourceKind::Crystal => self.crystal_collected = self.crystal_collected + amount,
        }
    }
}

} // verus!
