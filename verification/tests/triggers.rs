use gmcl_speech::triggers::{cooldown_wait, Triggers, SECOND};
use std::time::Duration;

fn key(s: &str) -> String {
    s.to_string()
}

#[test]
fn fires_when_the_cooldown_is_over() {
    let mut t: Triggers<f32> = Triggers::new();
    assert!(t.register(key("jump"), 0.5, Some(SECOND / 2), 10 * SECOND));
    assert!(t.fire(&key("jump"), 10 * SECOND));
    assert!(!t.fire(&key("jump"), 10 * SECOND));
    assert!(!t.fire(&key("jump"), 10 * SECOND + SECOND / 2 - 1));
    assert!(t.fire(&key("jump"), 10 * SECOND + SECOND / 2));
}

#[test]
fn a_long_cooldown_counts_from_a_second_before() {
    let mut t: Triggers<f32> = Triggers::new();
    t.register(key("jump"), 3.0, Some(3 * SECOND), 10 * SECOND);
    assert!(!t.fire(&key("jump"), 10 * SECOND));
    assert!(!t.fire(&key("jump"), 12 * SECOND - 1));
    assert!(t.fire(&key("jump"), 12 * SECOND));
}

#[test]
fn registering_again_starts_afresh() {
    let mut t: Triggers<f32> = Triggers::new();
    t.register(key("jump"), 0.5, Some(SECOND / 2), 10 * SECOND);
    assert!(t.fire(&key("jump"), 10 * SECOND));
    t.register(key("jump"), 0.25, Some(SECOND / 4), 10 * SECOND + 1);
    assert!(t.fire(&key("jump"), 10 * SECOND + 1));
    assert_eq!(t.list(), vec![(key("jump"), 0.25)]);
}

#[test]
fn a_clock_that_goes_back_counts_as_no_time() {
    let mut t: Triggers<f32> = Triggers::new();
    t.register(key("a"), 0.0, Some(0), 10 * SECOND);
    t.register(key("b"), 0.5, Some(1), 10 * SECOND);
    assert!(t.fire(&key("a"), SECOND));
    assert!(!t.fire(&key("b"), SECOND));
}

#[test]
fn never_reached_never_fires() {
    let mut t: Triggers<f32> = Triggers::new();
    t.register(key("jump"), f32::NAN, None, SECOND);
    assert!(!t.fire(&key("jump"), u64::MAX));
}

#[test]
fn unknown_and_empty_phrases_do_nothing() {
    let mut t: Triggers<f32> = Triggers::new();
    assert!(!t.register(key(""), 0.5, Some(0), SECOND));
    assert!(!t.fire(&key(""), SECOND));
    assert!(!t.fire(&key("jump"), SECOND));
    assert!(t.list().is_empty());
}

#[test]
fn removing_undoes_registering() {
    let mut t: Triggers<f32> = Triggers::new();
    t.register(key("a"), 1.0, Some(0), SECOND);
    t.register(key("b"), 2.0, Some(0), SECOND);
    t.register(key("c"), 3.0, Some(0), SECOND);
    t.unregister(&key("b"));
    t.unregister(&key("z"));
    assert!(!t.fire(&key("b"), 5 * SECOND));
    assert!(t.fire(&key("a"), 5 * SECOND));
    assert!(t.fire(&key("c"), 5 * SECOND));
    let mut rows = t.list();
    rows.sort_by(|x, y| x.0.cmp(&y.0));
    assert_eq!(rows, vec![(key("a"), 1.0), (key("c"), 3.0)]);
}

#[test]
fn firing_leaves_other_triggers() {
    let mut t: Triggers<f32> = Triggers::new();
    t.register(key("a"), 1.0, Some(SECOND), 5 * SECOND);
    t.register(key("b"), 1.0, Some(SECOND), 5 * SECOND);
    assert!(t.fire(&key("a"), 5 * SECOND));
    assert!(t.fire(&key("b"), 5 * SECOND));
}

#[test]
fn cooldown_wait_is_the_threshold() {
    assert_eq!(cooldown_wait(&|c: u64, n: u64| n >= c, 7), Some(7));
    assert_eq!(cooldown_wait(&|_c: u64, _n: u64| true, 7), Some(0));
    assert_eq!(cooldown_wait(&|_c: u64, _n: u64| false, 7), None);
    assert_eq!(cooldown_wait(&|c: u64, n: u64| n == c, u64::MAX), Some(u64::MAX));
}

#[test]
fn cooldown_wait_of_seconds_in_single_precision() {
    let reached = |c: f32, n: u64| Duration::from_nanos(n).as_secs_f32() >= c;
    for c in [0.5f32, 0.1, 1.0, 2.75, 30.0, 0.0, -1.0] {
        let w = cooldown_wait(&reached, c).unwrap();
        assert!(reached(c, w));
        assert!(w == 0 || !reached(c, w - 1));
        for n in [0, 1, 499_999_999, 500_000_000, 1_000_000_000, 2_750_000_000, 60_000_000_000] {
            assert_eq!(reached(c, n), n >= w, "{c} {n}");
        }
    }
    for c in [f32::NAN, f32::INFINITY] {
        assert_eq!(cooldown_wait(&reached, c), None);
    }
}
