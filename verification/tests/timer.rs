use cache_aware_router::eviction_timer::{EvictionTimer, TimerStep};

#[test]
fn an_interval_of_zero_has_no_timer() {
    assert!(EvictionTimer::new(0).is_none());
}

#[test]
fn a_timer_asks_for_an_eviction_every_interval() {
    let mut timer = EvictionTimer::new(2).unwrap();
    let mut steps = Vec::new();
    for _ in 0..12 {
        steps.push(timer.step(false));
    }
    for (n, step) in steps.iter().enumerate() {
        let expected = if (n + 1) % 4 == 0 { TimerStep::Evict } else { TimerStep::Wait };
        assert_eq!(*step, expected, "tick {}", n + 1);
    }
}

#[test]
fn a_shutdown_stops_the_timer_at_once() {
    let mut timer = EvictionTimer::new(1).unwrap();
    assert_eq!(timer.step(false), TimerStep::Wait);
    assert_eq!(timer.step(true), TimerStep::Stop);
    assert_eq!(timer.step(false), TimerStep::Evict);
}

#[test]
fn the_longest_interval_does_not_overflow() {
    let mut timer = EvictionTimer::new(u64::MAX).unwrap();
    assert_eq!(timer.step(false), TimerStep::Wait);
}
