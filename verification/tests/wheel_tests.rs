use timing_wheel::HierarchicalTimingWheel;
use timing_wheel::ScheduleError;
use timing_wheel::hierarchical;

#[test]
fn test_single_timer_exact_tick() {
    let mut timing_wheel = HierarchicalTimingWheel::new(1, 16, 10);
    let (level, slot) = timing_wheel.schedule(1, "A").unwrap();
    assert_eq!(level, 0);
    assert_eq!(slot, 1);
    assert_eq!(timing_wheel.tick(1), vec!["A"]);
}

#[test]
fn test_delay_zero() {
    let mut timing_wheel = HierarchicalTimingWheel::new(1, 16, 10);
    let (level, slot) = timing_wheel.schedule(0, "A").unwrap();
    assert_eq!(level, 0);
    assert_eq!(slot, 1);
    assert_eq!(timing_wheel.tick(1), vec!["A"]);
}

#[test]
fn test_timer_rounding_up_delay() {
    let mut timing_wheel = HierarchicalTimingWheel::new(1, 16, 10);
    let (level, slot) = timing_wheel.schedule(9, "B").unwrap();
    assert_eq!(level, 0);
    assert_eq!(slot, 9);
    for _ in 0..8 {
        assert_eq!(timing_wheel.tick(1), Vec::<&str>::new());
    }
    assert_eq!(timing_wheel.tick(1), Vec::<&str>::from(["B"]));
}

#[test]
fn test_multiple_timers_same_slot() {
    let mut timing_wheel = HierarchicalTimingWheel::new(1, 16, 10);
    let (level, slot) = timing_wheel.schedule(1, "A").unwrap();
    assert_eq!(level, 0);
    assert_eq!(slot, 1);
    let (level, slot) = timing_wheel.schedule(1, "B").unwrap();
    assert_eq!(level, 0);
    assert_eq!(slot, 1);
    let mut out = timing_wheel.tick(1);
    out.sort();
    assert_eq!(out, vec!["A", "B"]);
}

#[test]
fn test_overflow() {
    let mut timing_wheel = HierarchicalTimingWheel::new(1, 16, 10);
    match timing_wheel.schedule(10, "X") {
        Ok(_) => panic!("Expected Err"),
        _ => {}
    }
}

#[test]
fn test_exact_boundary_between_levels() {
    let mut wheel = HierarchicalTimingWheel::new(3, 16, 10);

    let (level, slot) = wheel.schedule(9, "L0").unwrap();
    assert_eq!(level, 0);
    assert_eq!(slot, 9);

    let (level, slot) = wheel.schedule(10, "L1").unwrap();
    assert_eq!(level, 1);
    assert_eq!(slot, 1);

    let (level, slot) = wheel.schedule(99, "L2").unwrap();
    assert_eq!(level, 1);
    assert_eq!(slot, 9);

    let (level, slot) = wheel.schedule(100, "L3").unwrap();
    assert_eq!(level, 2);
    assert_eq!(slot, 1);

    let (level, slot) = wheel.schedule(999, "L4").unwrap();
    assert_eq!(level, 2);
    assert_eq!(slot, 9);

    assert!(wheel.tick(8).is_empty());

    let timers = wheel.tick(1);
    assert_eq!(timers, vec!["L0"]);
    let timers = wheel.tick(1);
    assert_eq!(timers, vec!["L1"]);

    assert!(wheel.tick(88).is_empty());

    let timers = wheel.tick(1);
    assert_eq!(timers, vec!["L2"]);
    let timers = wheel.tick(1);
    assert_eq!(timers, vec!["L3"]);

    assert!(wheel.tick(898).is_empty());

    let timers = wheel.tick(1);
    assert_eq!(timers, vec!["L4"]);
}

#[test]
fn exact_delay_firing_fine_level() {
    // A payload with delay d fires on the d-th tick and not before.
    for d in 1..10usize {
        let mut wheel = hierarchical(1, 4, 10);
        wheel.schedule(d, "timer").unwrap();
        for _ in 0..d - 1 {
            assert!(wheel.tick(1).is_empty());
        }
        assert_eq!(wheel.tick(1), vec!["timer"]);
        assert!(wheel.tick(25).is_empty());
    }
}

#[test]
fn cascade_fires_at_exact_tick() {
    // A payload placed at a coarse level still fires at exactly its delay
    // when ticked one step at a time.
    let mut wheel = hierarchical(3, 16, 10);
    let (level, _) = wheel.schedule(100, "cascade").unwrap();
    assert_eq!(level, 2);
    for _ in 0..99 {
        assert!(wheel.tick(1).is_empty());
    }
    assert_eq!(wheel.tick(1), vec!["cascade"]);
    assert!(wheel.tick(200).is_empty());
}

#[test]
fn cascade_fires_at_exact_tick_mid_level() {
    let mut wheel = hierarchical(3, 16, 10);
    let (level, _) = wheel.schedule(37, "mid").unwrap();
    assert_eq!(level, 1);
    for _ in 0..36 {
        assert!(wheel.tick(1).is_empty());
    }
    assert_eq!(wheel.tick(1), vec!["mid"]);
}

#[test]
fn zero_delay_equals_delay_one() {
    let mut zero = hierarchical(2, 4, 10);
    let mut one = hierarchical(2, 4, 10);
    assert_eq!(zero.schedule(0, "t").unwrap(), one.schedule(1, "t").unwrap());
    assert_eq!(zero.tick(1), vec!["t"]);
    assert_eq!(one.tick(1), vec!["t"]);
    assert!(zero.tick(30).is_empty());
    assert!(one.tick(30).is_empty());
}

#[test]
fn same_slot_batch_preserves_order() {
    let mut wheel = hierarchical(2, 4, 10);
    let first = wheel.schedule(5, "first").unwrap();
    let second = wheel.schedule(5, "second").unwrap();
    assert_eq!(first, second);
    assert!(wheel.tick(4).is_empty());
    assert_eq!(wheel.tick(1), vec!["first", "second"]);
}

#[test]
fn same_slot_batch_coarse_level() {
    let mut wheel = hierarchical(3, 16, 10);
    let first = wheel.schedule(100, "a").unwrap();
    let second = wheel.schedule(100, "b").unwrap();
    assert_eq!(first, (2, 1));
    assert_eq!(second, (2, 1));
    assert!(wheel.tick(99).is_empty());
    assert_eq!(wheel.tick(1), vec!["a", "b"]);
}

#[test]
fn level_slot_addressing() {
    let mut wheel = hierarchical(3, 16, 10);
    assert_eq!(wheel.schedule(9, 0u64).unwrap(), (0, 9));
    assert_eq!(wheel.schedule(10, 1u64).unwrap(), (1, 1));
    assert_eq!(wheel.schedule(99, 2u64).unwrap(), (1, 9));
    assert_eq!(wheel.schedule(100, 3u64).unwrap(), (2, 1));
    assert_eq!(wheel.schedule(999, 4u64).unwrap(), (2, 9));
    assert!(matches!(wheel.schedule(1000, 5u64), Err(ScheduleError::DelayTooLarge)));
}

#[test]
fn multi_step_tick_equivalence() {
    let mut batch = hierarchical(2, 4, 10);
    let mut single = hierarchical(2, 4, 10);
    for (d, name) in [(1usize, "a"), (2, "b"), (2, "c"), (5, "d"), (17, "e")] {
        batch.schedule(d, name).unwrap();
        single.schedule(d, name).unwrap();
    }
    let all_at_once = batch.tick(20);
    let mut one_by_one = Vec::new();
    for _ in 0..20 {
        one_by_one.extend(single.tick(1));
    }
    assert_eq!(all_at_once, vec!["a", "b", "c", "d", "e"]);
    assert_eq!(all_at_once, one_by_one);
}

#[test]
fn boundary_rejection_at_topmost_capacity() {
    // Exactly the topmost capacity is rejected; one less is accepted at the
    // topmost level.
    let mut wheel = hierarchical(3, 4, 10);
    assert!(matches!(wheel.schedule(1000, "no"), Err(ScheduleError::DelayTooLarge)));
    let (level, slot) = wheel.schedule(999, "yes").unwrap();
    assert_eq!(level, 2);
    assert_eq!(slot, 9);
    assert!(wheel.tick(998).is_empty());
    assert_eq!(wheel.tick(1), vec!["yes"]);
}

#[test]
fn minimal_slots_per_level() {
    // The smallest meaningful configuration: two slots per level.
    let mut wheel = hierarchical(3, 2, 2);
    let (level, slot) = wheel.schedule(7, "last").unwrap();
    assert_eq!(level, 2);
    assert_eq!(slot, 1);
    assert!(wheel.tick(6).is_empty());
    assert_eq!(wheel.tick(1), vec!["last"]);
}

#[test]
fn repeated_rotations_fire_in_turn() {
    let mut wheel = hierarchical(2, 4, 10);
    wheel.schedule(3, 30u32).unwrap();
    wheel.schedule(13, 130u32).unwrap();
    wheel.schedule(23, 230u32).unwrap();
    assert_eq!(wheel.tick(3), vec![30]);
    assert_eq!(wheel.tick(10), vec![130]);
    assert_eq!(wheel.tick(10), vec![230]);
    assert!(wheel.tick(50).is_empty());
}
