use game_core::physics::{collider_pairs, collision_events, OnCollisionStart};

fn overlaps(a: (f32, f32), ra: f32, b: (f32, f32), rb: f32) -> bool {
    let dx = a.0 - b.0;
    let dy = a.1 - b.1;
    (dx * dx + dy * dy).sqrt() < ra + rb
}

#[test]
fn pairs_of_small_sets() {
    assert!(collider_pairs(0).is_empty());
    assert!(collider_pairs(1).is_empty());
    assert_eq!(collider_pairs(2), vec![(0, 1)]);
    assert_eq!(collider_pairs(3), vec![(0, 1), (0, 2), (1, 2)]);
}

#[test]
fn each_unordered_pair_once() {
    for n in 0..12usize {
        let pairs = collider_pairs(n);
        assert_eq!(pairs.len(), n * n.saturating_sub(1) / 2);
        for i in 0..n {
            for j in 0..n {
                let count = pairs.iter().filter(|p| **p == (i, j)).count();
                assert_eq!(count, if i < j { 1 } else { 0 });
            }
        }
    }
}

#[test]
fn one_enabled_side_gets_one_event() {
    let pairs = collider_pairs(2);
    let overlapping = vec![overlaps((0.0, 0.0), 1.0, (1.5, 0.0), 1.0)];
    assert_eq!(overlapping, vec![true]);
    let events = collision_events(&pairs, &overlapping, &vec![true, false]);
    assert_eq!(events, vec![OnCollisionStart { target: 0, collider: 1 }]);
    let events = collision_events(&pairs, &overlapping, &vec![false, true]);
    assert_eq!(events, vec![OnCollisionStart { target: 1, collider: 0 }]);
}

#[test]
fn no_enabled_side_gets_no_event() {
    let pairs = collider_pairs(2);
    let events = collision_events(&pairs, &vec![true], &vec![false, false]);
    assert!(events.is_empty());
}

#[test]
fn both_enabled_sides_get_one_event_each() {
    let pairs = collider_pairs(2);
    let events = collision_events(&pairs, &vec![true], &vec![true, true]);
    assert_eq!(
        events,
        vec![
            OnCollisionStart { target: 0, collider: 1 },
            OnCollisionStart { target: 1, collider: 0 },
        ]
    );
}

#[test]
fn separate_colliders_get_no_event() {
    let pairs = collider_pairs(2);
    let overlapping = vec![overlaps((0.0, 0.0), 1.0, (2.0, 0.0), 1.0)];
    assert_eq!(overlapping, vec![false]);
    assert!(collision_events(&pairs, &overlapping, &vec![true, true]).is_empty());
}

#[test]
fn three_overlapping_all_enabled() {
    let n = 3;
    let pairs = collider_pairs(n);
    let overlapping = vec![true; pairs.len()];
    let events = collision_events(&pairs, &overlapping, &vec![true; n]);
    assert_eq!(events.len(), 6);
    for e in &events {
        assert_ne!(e.target, e.collider);
    }
    for t in 0..n {
        for o in 0..n {
            let count = events.iter().filter(|e| e.target == t && e.collider == o).count();
            assert_eq!(count, if t != o { 1 } else { 0 });
        }
    }
}

#[test]
fn only_overlapping_pairs_report() {
    let pairs = collider_pairs(3);
    let overlapping = vec![false, true, false];
    let events = collision_events(&pairs, &overlapping, &vec![true, true, true]);
    assert_eq!(
        events,
        vec![
            OnCollisionStart { target: 0, collider: 2 },
            OnCollisionStart { target: 2, collider: 0 },
        ]
    );
}
