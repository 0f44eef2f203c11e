use ashenveil::streaming::ChunkManager;
use bevy::ecs::entity::Entity;

fn entities(base: u32, n: u32) -> Vec<Entity> {
    (0..n).map(|i| Entity::from_raw(base + i)).collect()
}

fn keys(m: &ChunkManager) -> Vec<(i32, i32)> {
    m.loaded.iter().map(|e| e.0).collect()
}

fn record(m: &mut ChunkManager, spawn: &[(i32, i32)], base: u32) {
    for (k, &c) in spawn.iter().enumerate() {
        m.insert_loaded(c, entities(base + 10 * k as u32, 2));
    }
}

#[test]
fn default_manager_is_empty() {
    let m = ChunkManager::default();
    assert!(m.loaded.is_empty());
    assert!(m.spawn_queue.is_empty());
    assert_eq!(m.last_cam_chunk, None);
    assert_eq!(m.spawns_per_frame, 3);
}

#[test]
fn first_frame_queues_view_and_spawns_nearest() {
    let mut m = ChunkManager::default();
    assert!(m.frame_in_range((0, 0)));
    let plan = m.update_chunks((0, 0));
    assert!(plan.despawn.is_empty());
    assert_eq!(plan.spawn, vec![(0, 0), (0, -1), (-1, 0)]);
    assert_eq!(m.last_cam_chunk, Some((0, 0)));
    assert_eq!(m.spawn_queue.len(), 81 - 3);
    let q: Vec<(i32, i32)> = m.spawn_queue.iter().copied().collect();
    assert_eq!(&q[..5], &[(1, 0), (0, 1), (-1, -1), (1, -1), (-1, 1)]);
    for w in q.windows(2) {
        let d = |c: (i32, i32)| c.0 * c.0 + c.1 * c.1;
        assert!(d(w[0]) <= d(w[1]));
    }
    assert_eq!(*q.last().unwrap(), (4, 4));
    assert!(m.loaded.is_empty());
}

#[test]
fn dead_zone_frame_only_drains_queue() {
    let mut m = ChunkManager::default();
    let plan = m.update_chunks((0, 0));
    record(&mut m, &plan.spawn, 100);
    assert_eq!(keys(&m), vec![(0, 0), (0, -1), (-1, 0)]);
    let plan2 = m.update_chunks((0, 0));
    assert!(plan2.despawn.is_empty());
    assert_eq!(plan2.spawn, vec![(1, 0), (0, 1), (-1, -1)]);
    assert_eq!(m.spawn_queue.len(), 81 - 6);
    assert_eq!(keys(&m), vec![(0, 0), (0, -1), (-1, 0)]);
}

#[test]
fn moving_away_unloads_and_requeues_nearest_first() {
    let mut m = ChunkManager::default();
    let plan = m.update_chunks((0, 0));
    record(&mut m, &plan.spawn, 100);
    let plan = m.update_chunks((0, 0));
    record(&mut m, &plan.spawn, 200);
    assert_eq!(m.loaded.len(), 6);
    let plan = m.update_chunks((10, 0));
    assert_eq!(plan.despawn.len(), 6);
    assert_eq!(plan.despawn[0], entities(100, 2));
    assert!(m.loaded.is_empty());
    assert_eq!(plan.spawn, vec![(10, 0), (10, -1), (9, 0)]);
    assert_eq!(m.spawn_queue.len(), 75 + 81 - 3);
    assert_eq!(m.last_cam_chunk, Some((10, 0)));
}

#[test]
fn small_move_keeps_chunks_in_view() {
    let mut m = ChunkManager::default();
    let plan = m.update_chunks((0, 0));
    record(&mut m, &plan.spawn, 100);
    let plan = m.update_chunks((4, 0));
    // (-1, 0) is five chunks from x = 4: out of view; the others stay.
    assert_eq!(plan.despawn, vec![entities(120, 2)]);
    assert_eq!(keys(&m)[..2], [(0, 0), (0, -1)]);
    // Queued chunks keep their relative order among equal distances.
    assert_eq!(plan.spawn, vec![(4, 0), (3, 0), (4, -1)]);
}

#[test]
fn zero_budget_spawns_nothing() {
    let mut m = ChunkManager::default();
    m.spawns_per_frame = 0;
    let plan = m.update_chunks((2, 3));
    assert!(plan.spawn.is_empty());
    assert_eq!(m.spawn_queue.len(), 81);
    assert_eq!(m.spawn_queue[0], (2, 3));
}

#[test]
fn drain_skips_loaded_chunks() {
    let mut m = ChunkManager::default();
    m.spawn_queue.push_back((0, 0));
    m.spawn_queue.push_back((1, 0));
    m.spawn_queue.push_back((2, 0));
    m.insert_loaded((1, 0), entities(5, 1));
    let spawn = m.drain_spawn_queue();
    assert_eq!(spawn, vec![(0, 0), (2, 0)]);
    assert!(m.spawn_queue.is_empty());
}

#[test]
fn insert_loaded_replaces_existing_record() {
    let mut m = ChunkManager::default();
    m.insert_loaded((3, 3), entities(1, 2));
    m.insert_loaded((4, 4), entities(10, 1));
    m.insert_loaded((3, 3), entities(20, 3));
    assert_eq!(keys(&m), vec![(3, 3), (4, 4)]);
    assert_eq!(m.loaded[0].1, entities(20, 3));
    assert!(m.is_loaded((4, 4)));
    assert!(!m.is_loaded((5, 5)));
}

#[test]
fn queued_lookup() {
    let mut m = ChunkManager::default();
    m.update_chunks((0, 0));
    assert!(m.is_queued((4, 4)));
    assert!(!m.is_queued((0, 0)));
    assert!(!m.is_queued((5, 0)));
}

#[test]
fn frame_range_refuses_overflowing_camera() {
    let m = ChunkManager::default();
    assert!(!m.frame_in_range((i32::MAX, 0)));
    assert!(!m.frame_in_range((0, i32::MIN + 3)));
    assert!(m.frame_in_range((i32::MAX - 4, i32::MIN + 4)));
    let mut far = ChunkManager::default();
    far.spawn_queue.push_back((50000, 0));
    assert!(!far.frame_in_range((0, 0)));
    assert!(far.frame_in_range((49999, 0)));
    let mut same = ChunkManager::default();
    same.last_cam_chunk = Some((i32::MAX, 0));
    // Still in the dead zone: only the camera chunk itself is compared.
    assert!(same.frame_in_range((i32::MAX, 0)));
    assert!(!same.frame_in_range((-1, 0)));
}

#[test]
fn drain_skips_repeats_in_the_queue() {
    let mut m = ChunkManager::default();
    for c in [(0, 0), (1, 0), (0, 0), (2, 0)] {
        m.spawn_queue.push_back(c);
    }
    let spawn = m.drain_spawn_queue();
    // The repeated (0, 0) is skipped but still uses one unit of the budget.
    assert_eq!(spawn, vec![(0, 0), (1, 0)]);
    assert_eq!(m.spawn_queue.iter().copied().collect::<Vec<_>>(), vec![(2, 0)]);
}

#[test]
fn queue_stays_apart_from_loaded_chunks() {
    let mut m = ChunkManager::default();
    for cam in [(0, 0), (0, 0), (1, 0), (6, 2), (6, 2), (5, 3)] {
        let plan = m.update_chunks(cam);
        record(&mut m, &plan.spawn, 1000);
        let q: Vec<(i32, i32)> = m.spawn_queue.iter().copied().collect();
        for (i, c) in q.iter().enumerate() {
            assert!(!m.is_loaded(*c));
            assert!(!q[..i].contains(c));
        }
    }
}
