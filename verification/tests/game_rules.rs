use zomb8::game::ecs::components::animation::{
    advance_frame, AnimState, PlayerAnimState, ZombieAnimState,
};
use zomb8::game::ecs::components::health::Health;
use zomb8::game::ecs::components::moveable::CollisionMesh;
use zomb8::game::ecs::components::score::Score;
use zomb8::game::ecs::entities::bullet::LinkedPlayerId;
use zomb8::game::ecs::systems::collision::{collision_pairs, contact_mesh, Axis};
use zomb8::game::ecs::systems::healthpack_update::{healed_health, health_pack_picked_by};
use zomb8::game::ecs::systems::input::{get_input_map, input_direction};
use zomb8::game::ecs::systems::zombie_movement::{
    get_closest_entity, player_health_after_touch, score_after_kill, zombie_collision_outcome,
    ZombieHit,
};
use zomb8::game::game::audio_manager::SoundKind;
use zomb8::protocol::network_id::ProtocolNetworkId;
use zomb8::protocol::packets::input::InputMap;
use zomb8::protocol::packets::spawn_entity::EntityKind;

fn mesh(
    top: Option<EntityKind>,
    bottom: Option<EntityKind>,
    left: Option<EntityKind>,
    right: Option<EntityKind>,
) -> CollisionMesh {
    CollisionMesh { top, bottom, left, right }
}

fn sides(m: &CollisionMesh) -> [Option<EntityKind>; 4] {
    [m.top, m.bottom, m.left, m.right]
}

#[test]
fn health_and_score_getters() {
    assert_eq!(Health(42).get(), 42);
    assert_eq!(Score(700).get(), 700);
    assert_eq!(LinkedPlayerId(ProtocolNetworkId(3)).0, ProtocolNetworkId(3));
}

#[test]
fn mesh_default_is_empty() {
    let m = CollisionMesh::default();
    assert!(!m.any());
    assert_eq!(sides(&m), [None; 4]);
}

#[test]
fn mesh_invert_swaps_sides_and_relabels() {
    let m = mesh(Some(EntityKind::Tile), None, None, Some(EntityKind::Zombie));
    let inv = CollisionMesh::invert(&m, EntityKind::Player);
    assert_eq!(sides(&inv), [None, Some(EntityKind::Player), Some(EntityKind::Player), None]);
    // Inverting twice puts every contact back on its side.
    let back = CollisionMesh::invert(&inv, EntityKind::Bullet);
    assert_eq!(sides(&back), [Some(EntityKind::Bullet), None, None, Some(EntityKind::Bullet)]);
    assert_eq!(inv.any(), m.any());
    assert!(inv.any_of_kind(EntityKind::Player));
}

#[test]
fn mesh_reset_forgets_everything() {
    let mut m = mesh(Some(EntityKind::Tile), Some(EntityKind::Tile), None, None);
    m.reset();
    assert!(!m.any());
}

#[test]
fn mesh_update_prefers_the_new_contacts() {
    let mut m = mesh(Some(EntityKind::Tile), None, Some(EntityKind::Zombie), None);
    let other = mesh(Some(EntityKind::Bullet), Some(EntityKind::Player), None, None);
    m.update(&other);
    assert_eq!(
        sides(&m),
        [Some(EntityKind::Bullet), Some(EntityKind::Player), Some(EntityKind::Zombie), None]
    );
    // Updating again with the same contacts changes nothing.
    let once = sides(&m);
    m.update(&other);
    assert_eq!(sides(&m), once);
    // An empty mesh updated with another becomes that other.
    let mut e = CollisionMesh::default();
    e.update(&other);
    assert_eq!(sides(&e), sides(&other));
}

#[test]
fn mesh_any_of_kind() {
    let m = mesh(None, None, None, Some(EntityKind::HealthPack));
    assert!(m.any());
    assert!(m.any_of_kind(EntityKind::HealthPack));
    assert!(!m.any_of_kind(EntityKind::Tile));
    assert!(!CollisionMesh::default().any_of_kind(EntityKind::Tile));
}

#[test]
fn collision_pairs_drop_reverses_and_self_pairs() {
    let overlaps = vec![(1, 2), (2, 1), (3, 3), (1, 3), (3, 1), (1, 2)];
    assert_eq!(collision_pairs(&overlaps), vec![(1, 2), (1, 3), (1, 2)]);
    assert!(collision_pairs(&vec![]).is_empty());
}

#[test]
fn contact_mesh_sides() {
    let k = EntityKind::Tile;
    assert_eq!(sides(&contact_mesh(Axis::X, true, k)), [None, None, None, Some(k)]);
    assert_eq!(sides(&contact_mesh(Axis::X, false, k)), [None, None, Some(k), None]);
    assert_eq!(sides(&contact_mesh(Axis::Y, true, k)), [Some(k), None, None, None]);
    assert_eq!(sides(&contact_mesh(Axis::Y, false, k)), [None, Some(k), None, None]);
}

#[test]
fn closest_entity_first_minimum_wins() {
    assert_eq!(get_closest_entity(&vec![]), None);
    assert_eq!(get_closest_entity(&vec![(7, 40), (8, 10), (9, 10), (10, 30)]), Some(8));
    assert_eq!(get_closest_entity(&vec![(1, -5)]), Some(1));
}

#[test]
fn zombie_hit_by_bullet_loses_health() {
    let m = mesh(Some(EntityKind::Bullet), None, None, None);
    let r = zombie_collision_outcome(&m, 50, Some(1), Some(2));
    assert_eq!(
        r,
        ZombieHit { health: 25, removed: false, credited_player: None, damaged_player: None }
    );
}

#[test]
fn zombie_killed_credits_the_shooter() {
    let m = mesh(None, Some(EntityKind::Bullet), None, None);
    let r = zombie_collision_outcome(&m, 20, Some(4), None);
    assert_eq!(
        r,
        ZombieHit { health: 0, removed: true, credited_player: Some(4), damaged_player: None }
    );
}

#[test]
fn zombie_killed_without_known_shooter_stays() {
    let m = mesh(Some(EntityKind::Bullet), None, Some(EntityKind::Player), None);
    let r = zombie_collision_outcome(&m, 25, None, Some(6));
    // The pass stops for this zombie: it stays, and hurts no one.
    assert_eq!(
        r,
        ZombieHit { health: 0, removed: false, credited_player: None, damaged_player: None }
    );
}

#[test]
fn zombie_touching_player_hurts_closest_player() {
    let m = mesh(None, None, Some(EntityKind::Player), None);
    let r = zombie_collision_outcome(&m, 50, None, Some(6));
    assert_eq!(
        r,
        ZombieHit { health: 50, removed: false, credited_player: None, damaged_player: Some(6) }
    );
    let killed_and_touching = mesh(Some(EntityKind::Bullet), None, Some(EntityKind::Player), None);
    let r = zombie_collision_outcome(&killed_and_touching, 10, Some(3), Some(6));
    assert_eq!(
        r,
        ZombieHit { health: 0, removed: true, credited_player: Some(3), damaged_player: Some(6) }
    );
}

#[test]
fn player_damage_and_score() {
    assert_eq!(player_health_after_touch(100), 90);
    assert_eq!(player_health_after_touch(4), 0);
    assert_eq!(score_after_kill(0), 100);
    assert_eq!(score_after_kill(250), 350);
}

#[test]
fn health_pack_rules() {
    let touching = mesh(None, None, None, Some(EntityKind::Player));
    assert_eq!(health_pack_picked_by(&touching, Some(5)), Some(5));
    assert_eq!(health_pack_picked_by(&touching, None), None);
    assert_eq!(health_pack_picked_by(&CollisionMesh::default(), Some(5)), None);
    assert_eq!(healed_health(10, 100), 60);
    assert_eq!(healed_health(80, 100), 100);
    assert_eq!(healed_health(u32::MAX, u32::MAX), u32::MAX);
    assert_eq!(healed_health(120, 100), 100);
}

#[test]
fn input_map_from_keys() {
    let m = get_input_map(true, false, false, true, false, false, false, false);
    assert_eq!(m, InputMap { up: true, down: true, left: false, right: false });
    let m = get_input_map(false, false, false, false, false, true, true, false);
    assert_eq!(m, InputMap { up: false, down: false, left: true, right: true });
}

#[test]
fn input_direction_steps() {
    let none = InputMap::zero();
    assert_eq!(input_direction(&none), (0, 0));
    let up_right = InputMap { up: true, down: false, left: false, right: true };
    assert_eq!(input_direction(&up_right), (1, -1));
    let all = InputMap { up: true, down: true, left: true, right: true };
    assert_eq!(input_direction(&all), (0, 0));
    let down_left = InputMap { up: false, down: true, left: true, right: false };
    assert_eq!(input_direction(&down_left), (-1, 1));
}

#[test]
fn animation_states() {
    assert_eq!(PlayerAnimState::default(), PlayerAnimState::Idle);
    assert_eq!(PlayerAnimState::Idle.get_max_frame(), 0);
    assert_eq!(PlayerAnimState::Run.get_max_frame(), 3);
    assert_eq!(PlayerAnimState::Run.get_y_pos(), 0);
    assert_eq!(ZombieAnimState::default(), ZombieAnimState::Spawn);
    assert_eq!(ZombieAnimState::Spawn.get_y_pos(), 8);
    assert_eq!(ZombieAnimState::Run.get_y_pos(), 0);
    assert_eq!(ZombieAnimState::Spawn.get_max_frame(), 3);
}

#[test]
fn animation_frames_cycle() {
    assert_eq!(advance_frame(0, 3), 1);
    assert_eq!(advance_frame(2, 3), 3);
    assert_eq!(advance_frame(3, 3), 0);
    assert_eq!(advance_frame(0, 0), 0);
    let mut frame = 0;
    for _ in 0..8 {
        frame = advance_frame(frame, 3);
        assert!(frame <= 3);
    }
    assert_eq!(frame, 0);
}

#[test]
fn sound_kinds_are_distinct() {
    assert_ne!(SoundKind::Explosion, SoundKind::Shoot);
    assert_eq!(SoundKind::Hit, SoundKind::Hit);
}
