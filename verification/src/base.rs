//! How the base takes in the robots' reports.

use crate::robot::RobotMessage;
use crate::world::{collected_of, SharedWorld};
use vstd::prelude::*;

verus! {

/// A report may be applied without overflowing a total.
pub open spec fn applicable(world: SharedWorld, msg: RobotMessage) -> bool {
    match msg {
        RobotMessage::Collected { kind, amount } => collected_of(world, kind) + amount <= u32::MAX,
        _ => true,
    }
}

/// `w1` is `w0` with the report `msg` taken in: a discovery records what the
/// tile holds, a collection adds to the total of its kind, and an idle
/// collector changes nothing.
pub open spec fn applied(w0: SharedWorld, msg: RobotMessage, w1: SharedWorld) -> bool {
    &&& w1.map == w0.map
    &&& w1.robot_positions@ == w0.robot_positions@
    &&& w1.robot_kinds@ == w0.robot_kinds@
    &&& w1.collector_targets@ == w0.collector_targets@
    &&& match msg {
        RobotMessage::Discovered { pos, cell } => {
            &&& w1.known_cells@ == w0.known_cells@.insert(pos, cell)
            &&& w1.energy_collected == w0.energy_collected
            &&& w1.crystal_collected == w0.crystal_collected
        },
        RobotMessage::Collected { kind, amount } => {
            &&& w1.known_cells@ == w0.known_cells@
            &&& collected_of(w1, kind) == collected_of(w0, kind) + amount
            &&& forall|other| other != kind ==> collected_of(w1, other) == collected_of(w0, other)
        },
        RobotMessage::CollectorIdle(_) => {
            &&& w1.known_cells@ == w0.known_cells@
            &&& w1.energy_collected == w0.energy_collected
            &&& w1.crystal_collected == w0.crystal_collected
        },
    }
}

/// Applies one report to the shared world: a discovery records what the
/// tile holds, a collection adds to the total of its kind, and an idle
/// collector changes nothing (its target was already released).
pub fn apply_message(world: &mut SharedWorld, msg: RobotMessage)
    requires
        applicable(*old(world), msg),
    ensures
        applied(*old(world), msg, *final(world)),
{
    match msg {
        RobotMessage::Discovered { pos, cell } => {
            world.known_cells.insert(pos, cell);
        },
        RobotMessage::Collected { kind, amount } => {
            world.record_collection(kind, amount);
        },
        RobotMessage::CollectorIdle(_) => {},
    }
}

/// The base records every discovery as reported, whatever the tile holds:
/// afterwards the known copy of the reported tile is what the report carries,
/// the known copy of every other tile is as before, and the totals are
/// untouched.
pub proof fn law_discovery_is_recorded(
    w0: SharedWorld,
    pos: crate::map::Pos,
    cell: crate::map::Cell,
    w1: SharedWorld,
    q: crate::map::Pos,
)
    requires
        applied(w0, RobotMessage::Discovered { pos, cell }, w1),
    ensures
        w1.known_cells@.contains_key(pos),
        w1.known_cells@[pos] == cell,
        q != pos ==> (w1.known_cells@.contains_key(q) <==> w0.known_cells@.contains_key(q)),
        q != pos && w0.known_cells@.contains_key(q) ==> w1.known_cells@[q] == w0.known_cells@[q],
        w1.energy_collected == w0.energy_collected,
        w1.crystal_collected == w0.crystal_collected,
{
}

} // verus!
