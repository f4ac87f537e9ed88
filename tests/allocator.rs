use freelist::{calculate_new_capacity_default, Freelist, FreelistError, GrowthPolicy};

struct Entity {
    _a: i32,
    _b: i32,
    _c: i32,
}

struct SmallEntity {
    _a: i16,
    _b: i16,
    _c: i16,
}

/// Grows to twice the capacity, or to the request when that is more.
struct Doubling;

impl GrowthPolicy for Doubling {
    fn proposal(&self, current_capacity: usize, requested_minimum: usize) -> usize {
        std::cmp::max(current_capacity * 2, current_capacity + requested_minimum)
    }

    fn new_capacity(&self, current_capacity: usize, requested_minimum: usize) -> usize {
        self.proposal(current_capacity, requested_minimum)
    }
}

/// Never grows.
struct Frozen;

impl GrowthPolicy for Frozen {
    fn proposal(&self, current_capacity: usize, _requested_minimum: usize) -> usize {
        current_capacity
    }

    fn new_capacity(&self, current_capacity: usize, requested_minimum: usize) -> usize {
        self.proposal(current_capacity, requested_minimum)
    }
}

fn bytes_balance(fl: &Freelist<Entity>) -> bool {
    fl.free_bytes() + fl.used_bytes() == fl.capacity_bytes()
}

#[test]
fn fresh_instance_is_empty() {
    let fl = Freelist::<Entity>::new().unwrap();
    assert_eq!(fl.capacity_blocks(), 0);
    assert_eq!(fl.used_blocks(), 0);
    assert_eq!(fl.free_blocks(), 0);
    assert_eq!(fl.capacity_bytes(), 0);
    assert!(!fl.has_free_block());
}

#[test]
fn construction_depends_on_element_size() {
    assert_eq!(Freelist::<u32>::new().err(), Some(FreelistError::Construction));
    assert_eq!(Freelist::<SmallEntity>::new().err(), Some(FreelistError::Construction));
    assert!(Freelist::<u64>::new().is_ok());
    assert!(Freelist::<Entity>::new().is_ok());
    assert!(Freelist::<[u8; 8]>::new().is_ok());
    assert_eq!(Freelist::<[u8; 7]>::new().err(), Some(FreelistError::Construction));
}

#[test]
fn bytes_balance_after_each_operation() {
    let mut fl = Freelist::<Entity>::new().unwrap();
    assert!(bytes_balance(&fl));
    fl.reserve_exact(100).unwrap();
    assert!(bytes_balance(&fl));
    assert_eq!(fl.capacity_bytes(), 1200);
    fl.allocate(30).unwrap();
    assert!(bytes_balance(&fl));
    assert_eq!(fl.used_bytes(), 360);
    assert_eq!(fl.free_bytes(), 840);
    fl.allocate(90).unwrap();
    assert!(bytes_balance(&fl));
    fl.release(0, 30).unwrap();
    assert!(bytes_balance(&fl));
    assert_eq!(fl.used_bytes(), 90 * 12);
}

#[test]
fn allocations_are_disjoint() {
    let mut fl = Freelist::<Entity>::new().unwrap();
    fl.reserve_exact(100).unwrap();
    let counts = [10usize, 25, 5, 40, 20];
    let mut ranges = Vec::new();
    for &n in counts.iter() {
        let start = fl.allocate(n).unwrap();
        ranges.push((start, start + n));
    }
    for i in 0..ranges.len() {
        for j in (i + 1)..ranges.len() {
            let (a, b) = ranges[i];
            let (c, d) = ranges[j];
            assert!(b <= c || d <= a);
        }
    }
    assert_eq!(fl.used_blocks(), 100);
    assert!(!fl.has_free_block());
}

#[test]
fn reserve_is_monotone() {
    let mut fl = Freelist::<Entity>::new().unwrap();
    fl.reserve_exact(40).unwrap();
    assert_eq!(fl.capacity_blocks(), 40);
    fl.reserve_exact(90).unwrap();
    assert_eq!(fl.capacity_blocks(), 90);
    fl.reserve_exact(60).unwrap();
    assert_eq!(fl.capacity_blocks(), 90);
    fl.reserve_exact(90).unwrap();
    assert_eq!(fl.capacity_blocks(), 90);
    assert_eq!(fl.free_blocks(), 90);
}

#[test]
fn release_merges_touching_runs() {
    let mut fl = Freelist::<Entity>::new().unwrap();
    fl.reserve_exact(100).unwrap();
    assert_eq!(fl.allocate(30), Ok(0));
    assert_eq!(fl.allocate(70), Ok(30));
    fl.release(0, 30).unwrap();
    fl.release(30, 70).unwrap();
    assert_eq!(fl.used_blocks(), 0);
    // One run of all 100 slots serves the request without growing.
    assert_eq!(fl.allocate(100), Ok(0));
    assert_eq!(fl.capacity_blocks(), 100);
}

#[test]
fn release_merges_with_both_neighbours() {
    let mut fl = Freelist::<Entity>::new().unwrap();
    fl.reserve_exact(30).unwrap();
    assert_eq!(fl.allocate(10), Ok(0));
    assert_eq!(fl.allocate(10), Ok(10));
    assert_eq!(fl.allocate(10), Ok(20));
    fl.release(0, 10).unwrap();
    fl.release(20, 10).unwrap();
    fl.release(10, 10).unwrap();
    assert_eq!(fl.allocate(30), Ok(0));
    assert_eq!(fl.capacity_blocks(), 30);
}

#[test]
fn scenario_reserve_then_allocate() {
    let mut fl = Freelist::<Entity>::new().unwrap();
    assert_eq!(fl.type_size_bytes(), 12);
    fl.reserve_exact(100).unwrap();
    assert_eq!(fl.capacity_blocks(), 100);
    assert!(fl.has_free_block());
    assert_eq!(fl.free_blocks(), 100);
    assert_eq!(fl.allocate(30), Ok(0));
    assert_eq!(fl.used_blocks(), 30);
    assert_eq!(fl.free_blocks(), 70);
    assert_eq!(fl.allocate(70), Ok(30));
    assert_eq!(fl.used_blocks(), 100);
    assert!(!fl.has_free_block());
}

#[test]
fn exhausted_growth_fails() {
    let mut fl = Freelist::<Entity>::new().unwrap();
    assert_eq!(fl.allocate(5), Err(FreelistError::Capacity));
    assert_eq!(fl.used_blocks(), 0);
    assert_eq!(fl.capacity_blocks(), 0);

    fl.reserve_exact(10).unwrap();
    assert_eq!(fl.allocate(100), Err(FreelistError::Capacity));
    assert_eq!(fl.used_blocks(), 0);
    // Two growths by half: 10 -> 15 -> 22.
    assert_eq!(fl.capacity_blocks(), 22);
    assert_eq!(fl.free_blocks(), 22);
}

#[test]
fn frozen_policy_fails_at_once() {
    let mut fl = Freelist::<Entity, Frozen>::with_growth_policy(Frozen).unwrap();
    fl.reserve_exact(10).unwrap();
    assert_eq!(fl.allocate(4), Ok(0));
    assert_eq!(fl.allocate(7), Err(FreelistError::Capacity));
    assert_eq!(fl.used_blocks(), 4);
    assert_eq!(fl.capacity_blocks(), 10);
}

#[test]
fn growth_appends_a_run_after_used_slots() {
    let mut fl = Freelist::<Entity>::new().unwrap();
    fl.reserve_exact(100).unwrap();
    assert_eq!(fl.allocate(100), Ok(0));
    assert_eq!(fl.allocate(30), Ok(100));
    assert_eq!(fl.capacity_blocks(), 150);
    assert_eq!(fl.used_blocks(), 130);
    assert_eq!(fl.free_blocks(), 20);
}

#[test]
fn growth_extends_the_last_run() {
    let mut fl = Freelist::<Entity>::new().unwrap();
    fl.reserve_exact(10).unwrap();
    assert_eq!(fl.allocate(5), Ok(0));
    // The run [5, 10) grows with the arena: 10 -> 15 -> 22.
    assert_eq!(fl.allocate(12), Ok(5));
    assert_eq!(fl.capacity_blocks(), 22);
    assert_eq!(fl.used_blocks(), 17);
}

#[test]
fn first_fit_takes_the_earliest_run() {
    let mut fl = Freelist::<Entity>::new().unwrap();
    fl.reserve_exact(60).unwrap();
    for i in 0..6 {
        assert_eq!(fl.allocate(10), Ok(i * 10));
    }
    fl.release(0, 10).unwrap();
    fl.release(20, 20).unwrap();
    fl.release(50, 10).unwrap();
    assert_eq!(fl.allocate(15), Ok(20));
    assert_eq!(fl.allocate(5), Ok(0));
    assert_eq!(fl.allocate(10), Ok(50));
}

#[test]
fn custom_policy_grows_to_the_request() {
    let mut fl = Freelist::<Entity, Doubling>::with_growth_policy(Doubling).unwrap();
    assert_eq!(fl.allocate(7), Ok(0));
    assert_eq!(fl.capacity_blocks(), 7);
    assert_eq!(fl.allocate(3), Ok(7));
    assert_eq!(fl.capacity_blocks(), 14);
    fl.set_growth_policy(Doubling);
    assert_eq!(fl.used_blocks(), 10);
}

#[test]
fn release_rejects_ranges_not_in_use() {
    let mut fl = Freelist::<Entity>::new().unwrap();
    fl.reserve_exact(50).unwrap();
    assert_eq!(fl.allocate(20), Ok(0));
    assert_eq!(fl.release(10, 20), Err(FreelistError::Overlap));
    assert_eq!(fl.release(30, 5), Err(FreelistError::Overlap));
    assert_eq!(fl.release(45, 10), Err(FreelistError::Overlap));
    assert_eq!(fl.release(60, 1), Err(FreelistError::Overlap));
    assert_eq!(fl.used_blocks(), 20);
    assert_eq!(fl.release(5, 0), Ok(()));
    assert_eq!(fl.release(5, 10), Ok(()));
    assert_eq!(fl.release(5, 1), Err(FreelistError::Overlap));
    assert_eq!(fl.used_blocks(), 10);
}

#[test]
fn reserve_beyond_header_indices_fails() {
    let mut fl = Freelist::<Entity>::new().unwrap();
    let too_many = u32::MAX as usize + 1;
    assert_eq!(fl.reserve_exact(too_many), Err(FreelistError::CapacityOverflow));
    assert_eq!(fl.capacity_blocks(), 0);
}

#[test]
fn default_growth_is_half_again() {
    assert_eq!(calculate_new_capacity_default(100, 500), 150);
    assert_eq!(calculate_new_capacity_default(1, 0), 1);
    assert_eq!(calculate_new_capacity_default(0, 10), 0);
    assert_eq!(calculate_new_capacity_default(usize::MAX, 0), usize::MAX);
}

#[test]
fn growth_follows_the_proposal() {
    let mut fl = Freelist::<Entity>::new().unwrap();
    assert_eq!(fl.grow_to_proposal(0), Err(FreelistError::Capacity));
    assert_eq!(fl.grow_to_proposal(50), Ok(()));
    assert_eq!(fl.capacity_blocks(), 50);
    assert_eq!(fl.free_blocks(), 50);
    assert_eq!(fl.grow_to_proposal(40), Err(FreelistError::Capacity));
    assert_eq!(fl.grow_to_proposal(50), Err(FreelistError::Capacity));
    assert_eq!(
        fl.grow_to_proposal(u32::MAX as usize + 1),
        Err(FreelistError::CapacityOverflow)
    );
    assert_eq!(fl.capacity_blocks(), 50);
    // The free run [0, 50) ends at the capacity, so it is extended.
    assert_eq!(fl.grow_to_proposal(80), Ok(()));
    assert_eq!(fl.allocate(80), Ok(0));
}

#[test]
fn merge_refuses_runs_that_do_not_touch() {
    let mut fl = Freelist::<Entity>::new().unwrap();
    fl.reserve_exact(30).unwrap();
    assert_eq!(fl.allocate(10), Ok(0));
    assert_eq!(fl.allocate(10), Ok(10));
    assert_eq!(fl.allocate(10), Ok(20));
    fl.release(0, 10).unwrap();
    fl.release(20, 10).unwrap();
    assert!(!fl.attempt_merge(0, 20));
    assert!(!fl.attempt_merge(20, 0));
    assert_eq!(fl.free_blocks(), 20);
    assert_eq!(fl.allocate(10), Ok(0));
    assert_eq!(fl.allocate(10), Ok(20));
    assert!(!fl.has_free_block());
}
