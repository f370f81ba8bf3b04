use aurora::ray::{RayIdAllocator, RaySeenCache};
use aurora::pointer::Pointer;

#[test]
fn ray_ids_are_unique_and_increasing() {
    let mut alloc = RayIdAllocator::new();
    let a = alloc.next_ray_id();
    let b = alloc.next_ray_id();
    let c = alloc.next_ray_id();
    assert_eq!((a, b, c), (0, 1, 2));
}

#[test]
fn cache_reports_repeated_rays_per_worker() {
    let mut cache = RaySeenCache::new(3);

    // a fresh slot has seen nothing
    assert!(!cache.ray_previously_visited(0, 7));
    // the same ray again: recognised, the test can be skipped
    assert!(cache.ray_previously_visited(0, 7));
    // another worker has its own slot
    assert!(!cache.ray_previously_visited(1, 7));
    // a new ray overwrites the slot
    assert!(!cache.ray_previously_visited(0, 8));
    // and the old ray is no longer remembered
    assert!(!cache.ray_previously_visited(0, 7));
}

#[test]
fn pointer_shares_a_value() {
    let p = Pointer::new(41usize);
    let q = p.clone();
    assert_eq!(*p.get(), 41);
    assert_eq!(*q.get(), 41);
}
