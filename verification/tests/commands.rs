use gmcl_speech::commands::{
    add_trigger, callback_index, cooldown_source, remove_trigger, CooldownSource,
    DEFAULT_COOLDOWN_MILLIS,
};
use gmcl_speech::triggers::{Triggers, SECOND};

#[test]
fn the_cooldown_may_be_left_out() {
    assert_eq!(cooldown_source(1, false), CooldownSource::Default);
    assert_eq!(cooldown_source(2, true), CooldownSource::Default);
    assert_eq!(cooldown_source(2, false), CooldownSource::SecondArgument);
    assert_eq!(cooldown_source(3, false), CooldownSource::SecondArgument);
    assert_eq!(cooldown_source(3, true), CooldownSource::SecondArgument);
    assert_eq!(DEFAULT_COOLDOWN_MILLIS as f32 / 1000.0, 0.5);
}

#[test]
fn the_callback_comes_last() {
    assert_eq!(callback_index(1, false, false), None);
    assert_eq!(callback_index(2, true, false), Some(2));
    assert_eq!(callback_index(2, false, false), None);
    assert_eq!(callback_index(3, false, true), Some(3));
    assert_eq!(callback_index(3, false, false), None);
    assert_eq!(callback_index(3, true, false), None);
    assert_eq!(callback_index(4, false, true), Some(3));
}

#[test]
fn add_trigger_registers_the_normal_form() {
    let mut t: Triggers<f32> = Triggers::new();
    let r = add_trigger(&mut t, "  Hello, WORLD ", 0.25, &|_c: f32, n: u64| n >= 5, Some(3), SECOND);
    assert_eq!(r, Some(("hello world".to_string(), 3)));
    assert_eq!(t.list(), vec![("hello world".to_string(), 0.25)]);
    assert!(t.fire(&"hello world".to_string(), SECOND));
}

#[test]
fn the_cooldown_reported_is_the_one_kept() {
    let mut t: Triggers<u64> = Triggers::new();
    let reached = |c: u64, n: u64| n >= c;
    add_trigger(&mut t, "short", 5, &reached, Some(2), SECOND);
    add_trigger(&mut t, "long", 900, &reached, Some(2), SECOND);
    for (phrase, cooldown) in t.list() {
        assert!(t.fire(&phrase, 2 * SECOND));
        assert!(!t.fire(&phrase, 2 * SECOND + cooldown - 1));
        assert!(t.fire(&phrase, 2 * SECOND + cooldown));
    }
}

#[test]
fn add_trigger_refuses_an_empty_phrase() {
    let mut t: Triggers<f32> = Triggers::new();
    assert_eq!(add_trigger(&mut t, "?!", 0.25, &|_c: f32, _n: u64| true, Some(3), SECOND), None);
    assert!(t.list().is_empty());
}

#[test]
fn add_trigger_refuses_a_missing_callback() {
    let mut t: Triggers<f32> = Triggers::new();
    assert_eq!(add_trigger(&mut t, "go", 0.25, &|_c: f32, _n: u64| true, None, SECOND), None);
    assert!(t.list().is_empty());
}

#[test]
fn remove_trigger_normalises_its_phrase() {
    let mut t: Triggers<f32> = Triggers::new();
    add_trigger(&mut t, "go", 0.25, &|_c: f32, _n: u64| true, Some(2), SECOND);
    add_trigger(&mut t, "stop now", 0.25, &|_c: f32, _n: u64| true, Some(2), SECOND);
    assert_eq!(remove_trigger(&mut t, "Stop, NOW"), "stop now");
    assert_eq!(t.list(), vec![("go".to_string(), 0.25)]);
    assert_eq!(remove_trigger(&mut t, "never"), "never");
    assert_eq!(t.list().len(), 1);
}
