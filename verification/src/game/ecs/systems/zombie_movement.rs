use crate::game::ecs::components::moveable::mesh_any_of_kind;
use crate::game::ecs::components::moveable::CollisionMesh;
use crate::protocol::packets::spawn_entity::EntityKind;
use vstd::prelude::*;

verus! {

/// Whether `i` is the first index of a smallest key among `candidates`.
pub open spec fn is_first_min(candidates: Seq<(u64, i64)>, i: int) -> bool {
    &&& 0 <= i < candidates.len()
    &&& forall|j: int| 0 <= j < candidates.len() ==> candidates[i].1 <= #[trigger] candidates[j].1
    &&& forall|j: int| 0 <= j < i ==> candidates[i].1 < #[trigger] candidates[j].1
}

/// The entity (bits) of the closest candidate: each candidate is an entity
/// with its squared distance, cut to an integer. Of several equally close
/// candidates the first one wins; with no candidate there is no entity.
pub fn get_closest_entity(candidates: &Vec<(u64, i64)>) -> (r: Option<u64>)
    ensures
        candidates@.len() == 0 <==> r is None,
        r matches Some(e) ==> exists|i: int| is_first_min(candidates@, i) && candidates@[i].0 == e,
{
    if candidates.len() == 0 {
        return None;
    }
    let mut best: usize = 0;
    let mut i: usize = 1;
    while i < candidates.len()
        invariant
            1 <= i <= candidates@.len(),
            best < i,
            forall|j: int| 0 <= j < i ==> candidates@[best as int].1 <= #[trigger] candidates@[j].1,
            forall|j: int| 0 <= j < best ==> candidates@[best as int].1 < #[trigger] candidates@[j].1,
        decreases candidates@.len() - i,
    {
        if candidates[i].1 < candidates[best].1 {
            best = i;
        }
        i += 1;
    }
    proof {
        assert(is_first_min(candidates@, best as int));
    }
    Some(candidates[best].0)
}

/// Only one candidate can be the first closest one.
pub proof fn lemma_first_min_unique(candidates: Seq<(u64, i64)>, i: int, j: int)
    requires
        is_first_min(candidates, i),
        is_first_min(candidates, j),
    ensures
        i == j,
{
    if i < j {
        assert(candidates[j].1 < candidates[i].1);
    } else if j < i {
        assert(candidates[i].1 < candidates[j].1);
    }
}

/// What one collision pass does to a zombie.
#[derive(Debug, Clone, Copy, PartialEq, Eq, Structural)]
pub struct ZombieHit {
    /// The zombie's hit points afterwards.
    pub health: u32,
    /// Whether the zombie dies and leaves the world.
    pub removed: bool,
    /// The player (entity bits) who earns the points for the kill.
    pub credited_player: Option<u64>,
    /// The player (entity bits) who loses hit points to the zombie.
    pub damaged_player: Option<u64>,
}

/// The hit points a bullet takes from a zombie.
pub const BULLET_DAMAGE: u32 = 25;

/// The hit points a zombie takes from a player it touches.
pub const ZOMBIE_DAMAGE: u32 = 10;

/// The points a player earns for a kill.
pub const KILL_SCORE: u32 = 100;

/// The hit points a zombie keeps after the pass: a bullet's touch costs
/// `BULLET_DAMAGE`, down to zero.
pub open spec fn zombie_health_after(mesh: CollisionMesh, health: u32) -> u32 {
    if mesh_any_of_kind(mesh, EntityKind::Bullet) {
        if health >= BULLET_DAMAGE {
            (health - BULLET_DAMAGE) as u32
        } else {
            0
        }
    } else {
        health
    }
}

/// Whether the pass kills the zombie: a bullet brought it to zero hit points.
pub open spec fn zombie_killed(mesh: CollisionMesh, health: u32) -> bool {
    mesh_any_of_kind(mesh, EntityKind::Bullet) && zombie_health_after(mesh, health) == 0
}

/// The decisions of the zombie collision system for one zombie: `mesh` and
/// `health` are the zombie's; `bullet_owner` is the player whose bullet lies
/// closest, if that bullet and its player were found; `closest_player` is
/// the player closest to the zombie. A killed zombie whose killer was not
/// found is left in the world and hurts no one this pass.
pub fn zombie_collision_outcome(
    mesh: &CollisionMesh,
    health: u32,
    bullet_owner: Option<u64>,
    closest_player: Option<u64>,
) -> (r: ZombieHit)
    ensures
        r.health == zombie_health_after(*mesh, health),
        r.removed == (zombie_killed(*mesh, health) && bullet_owner is Some),
        r.credited_player == (if r.removed {
            bullet_owner
        } else {
            None
        }),
        r.damaged_player == (if mesh_any_of_kind(*mesh, EntityKind::Player) && !(zombie_killed(
            *mesh,
            health,
        ) && bullet_owner is None) {
            closest_player
        } else {
            None
        }),
{
    let mut result = ZombieHit { health, removed: false, credited_player: None, damaged_player: None };
    if mesh.any_of_kind(EntityKind::Bullet) {
        result.health = health.saturating_sub(BULLET_DAMAGE);
        if result.health == 0 {
            match bullet_owner {
                Some(player) => {
                    result.removed = true;
                    result.credited_player = Some(player);
                },
                None => {
                    return result;
                },
            }
        }
    }
    if mesh.any_of_kind(EntityKind::Player) {
        result.damaged_player = closest_player;
    }
    result
}

/// A player's hit points after a zombie's touch.
pub fn player_health_after_touch(health: u32) -> (r: u32)
    ensures
        r == (if health >= ZOMBIE_DAMAGE {
            health - ZOMBIE_DAMAGE
        } else {
            0
        }),
{
    health.saturating_sub(ZOMBIE_DAMAGE)
}

/// A player's score after a kill; the score must have room for the points.
pub fn score_after_kill(score: u32) -> (r: u32)
    requires
        score + KILL_SCORE <= u32::MAX,
    ensures
        r == score + KILL_SCORE,
{
    score + KILL_SCORE
}

/// A pass takes 25 hit points (down to zero) from a zombie that a bullet
/// touched, however many of its sides record the bullet, and none from a
/// zombie that no bullet touched; the zombie dies exactly when a bullet
/// touched it with at most 25 hit points left.
pub proof fn lemma_bullet_damage_once_per_pass(mesh: CollisionMesh, health: u32)
    ensures
        (mesh.top == Some(EntityKind::Bullet) || mesh.bottom == Some(EntityKind::Bullet) || mesh.left
            == Some(EntityKind::Bullet) || mesh.right == Some(EntityKind::Bullet)) ==> zombie_health_after(
            mesh,
            health,
        ) == (if health >= 25 {
            health - 25
        } else {
            0
        }),
        !(mesh.top == Some(EntityKind::Bullet) || mesh.bottom == Some(EntityKind::Bullet) || mesh.left
            == Some(EntityKind::Bullet) || mesh.right == Some(EntityKind::Bullet))
            ==> zombie_health_after(mesh, health) == health,
        zombie_killed(mesh, health) <==> ((mesh.top == Some(EntityKind::Bullet) || mesh.bottom == Some(
            EntityKind::Bullet,
        ) || mesh.left == Some(EntityKind::Bullet) || mesh.right == Some(EntityKind::Bullet))
            && health <= 25),
{
}

} // verus!
