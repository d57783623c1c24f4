use crate::game::ecs::components::moveable::mesh_any_of_kind;
use crate::game::ecs::components::moveable::CollisionMesh;
use crate::protocol::packets::spawn_entity::EntityKind;
use vstd::prelude::*;

verus! {

/// The hit points a health pack gives back.
pub const HEALTH_PACK_HEAL: u32 = 50;

/// The player (entity bits) who picks up a health pack: the closest player,
/// when the pack touches a player. The pack leaves the world exactly when
/// someone picks it up.
pub fn health_pack_picked_by(mesh: &CollisionMesh, closest_player: Option<u64>) -> (r: Option<u64>)
    ensures
        r == (if mesh_any_of_kind(*mesh, EntityKind::Player) {
            closest_player
        } else {
            None
        }),
{
    if mesh.any_of_kind(EntityKind::Player) {
        closest_player
    } else {
        None
    }
}

/// A player's hit points after picking up a health pack: `HEALTH_PACK_HEAL`
/// more, but no more than `max`.
pub fn healed_health(health: u32, max: u32) -> (r: u32)
    ensures
        r == (if health + HEALTH_PACK_HEAL <= max {
            health + HEALTH_PACK_HEAL
        } else {
            max as int
        }),
{
    let raised = health.saturating_add(HEALTH_PACK_HEAL);
    if raised > max {
        max
    } else {
        raised
    }
}

/// Healing never goes beyond the maximum, and never lowers hit points that
/// were within it.
pub proof fn lemma_healed_within_max(health: u32, max: u32)
    requires
        health <= max,
    ensures
        health <= (if health + HEALTH_PACK_HEAL <= max {
            health + HEALTH_PACK_HEAL
        } else {
            max as int
        }) <= max,
{
}

} // verus!
