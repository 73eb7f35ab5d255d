use gmcl_speech::commands::add_trigger;
use gmcl_speech::matcher::{fire_all, try_fire, Clock, Listener};
use gmcl_speech::queue::EventQueue;
use gmcl_speech::triggers::{Triggers, SECOND};
use std::cell::Cell;

fn table(phrases: &[&str], wait: u64) -> Triggers<f32> {
    let mut t: Triggers<f32> = Triggers::new();
    for p in phrases {
        assert!(add_trigger(&mut t, p, 0.0, &|_c: f32, n: u64| n >= wait, Some(3), 10 * SECOND).is_some());
    }
    t
}

fn drain(q: &mut Option<EventQueue>) -> Vec<String> {
    let mut out = Vec::new();
    while let Some(e) = q.as_mut().unwrap().pop() {
        out.push(e.phrase);
    }
    out
}

#[test]
fn try_fire_normalises_its_key() {
    let mut t = table(&["Open, Door"], SECOND);
    let mut q = Some(EventQueue::new());
    try_fire(&mut t, &mut q, "OPEN -- door!", 10 * SECOND);
    try_fire(&mut t, &mut q, "open door", 11 * SECOND - 1);
    try_fire(&mut t, &mut q, "open", 20 * SECOND);
    try_fire(&mut t, &mut q, "?!", 20 * SECOND);
    try_fire(&mut t, &mut q, "open door", 11 * SECOND);
    assert_eq!(drain(&mut q), vec!["open door", "open door"]);
}

#[test]
fn firing_without_a_queue_still_starts_the_cooldown() {
    let mut t = table(&["jump"], SECOND);
    let mut none: Option<EventQueue> = None;
    try_fire(&mut t, &mut none, "jump", 10 * SECOND);
    assert!(none.is_none());
    let mut q = Some(EventQueue::new());
    try_fire(&mut t, &mut q, "jump", 10 * SECOND + 1);
    assert!(drain(&mut q).is_empty());
}

#[test]
fn words_and_bigrams_are_tried() {
    let mut l = Listener::new();
    assert_eq!(
        l.keys("Open the door."),
        vec!["open", "the", "open the", "door", "the door"]
    );
    assert_eq!(l.keys("-- now"), vec!["now", "door now"]);
    assert!(l.keys("...").is_empty());
    assert_eq!(l.keys("go"), vec!["go", "now go"]);
}

#[test]
fn hearing_in_parts_is_hearing_at_once() {
    let text = "one two three, four five";
    let mut whole = Listener::new();
    let all = whole.keys(text);
    for cut in [0, 4, 8, 15, 20, text.len()] {
        let mut parts = Listener::new();
        let mut keys = parts.keys(&text[..cut]);
        keys.extend(parts.keys(&text[cut..]));
        assert_eq!(keys, all);
    }
}

#[test]
fn hearing_dispatches_words_and_bigrams() {
    let mut t = table(&["door", "Open Door", "window"], SECOND);
    let mut q = Some(EventQueue::new());
    let mut l = Listener::new();
    l.hear("please OPEN", &mut t, &mut q, &mut Clock::new(|| 10 * SECOND));
    l.hear("Door! door", &mut t, &mut q, &mut Clock::new(|| 10 * SECOND));
    assert_eq!(drain(&mut q), vec!["door", "open door"]);
}

#[test]
fn a_bigram_may_begin_in_an_earlier_text() {
    let mut t = table(&["open door"], 0);
    let mut q = Some(EventQueue::new());
    let mut l = Listener::new();
    l.hear("Please open", &mut t, &mut q, &mut Clock::new(|| 10 * SECOND));
    l.hear("...", &mut t, &mut q, &mut Clock::new(|| 10 * SECOND));
    l.hear("DOOR now", &mut t, &mut q, &mut Clock::new(|| 10 * SECOND));
    assert_eq!(drain(&mut q), vec!["open door"]);
}

#[test]
fn each_key_has_its_own_time() {
    let mut t = table(&["go"], SECOND);
    let mut q = Some(EventQueue::new());
    let mut l = Listener::new();
    let time = Cell::new(10 * SECOND);
    let mut clock = Clock::new(|| {
        let now = time.get();
        time.set(now + SECOND / 2);
        now
    });
    // The keys are go, go, go go: half a second apart.
    l.hear("go go", &mut t, &mut q, &mut clock);
    assert_eq!(drain(&mut q), vec!["go"]);
    assert_eq!(time.get(), 10 * SECOND + 3 * (SECOND / 2));
    l.hear("go", &mut t, &mut q, &mut clock);
    assert_eq!(drain(&mut q), vec!["go"]);
}

#[test]
fn the_cooldown_is_kept_over_a_course() {
    let mut t = table(&["go", "stop"], SECOND);
    let mut q = Some(EventQueue::new());
    let mut fired: Vec<u64> = Vec::new();
    for i in 0..50u64 {
        let now = 10 * SECOND + i * 300_000_000;
        let keys = vec!["go".to_string(), "stop".to_string(), "go now".to_string()];
        fire_all(&mut t, &mut q, &keys, &mut Clock::new(|| now));
        for p in drain(&mut q) {
            if p == "go" {
                fired.push(now);
            }
        }
    }
    assert_eq!(fired.len(), 13);
    for pair in fired.windows(2) {
        assert!(pair[1] - pair[0] >= SECOND);
    }
}

#[test]
fn the_cooldown_is_kept_when_the_clock_goes_back() {
    let mut t = table(&["go"], SECOND);
    let mut q = Some(EventQueue::new());
    let mut fired: Vec<u64> = Vec::new();
    for now in [20, 10, 20, 21, 5, 21, 22].map(|n| n * SECOND) {
        try_fire(&mut t, &mut q, "go", now);
        if !drain(&mut q).is_empty() {
            fired.push(now);
        }
    }
    assert_eq!(fired, vec![20 * SECOND, 21 * SECOND, 22 * SECOND]);
}

#[test]
fn a_clock_shows_what_its_source_gives() {
    let time = Cell::new(7);
    let mut clock = Clock::new(|| {
        time.set(time.get() + 1);
        time.get()
    });
    assert_eq!(clock.read(), 8);
    assert_eq!(clock.read(), 9);
}

#[test]
fn a_zero_wait_fires_every_time() {
    let mut t = table(&["go"], 0);
    let mut q = Some(EventQueue::new());
    let mut l = Listener::new();
    l.hear("go go", &mut t, &mut q, &mut Clock::new(|| 10 * SECOND));
    assert_eq!(drain(&mut q), vec!["go", "go"]);
}

#[test]
fn a_phrase_beyond_ascii_is_dispatched() {
    let mut t = table(&["ÖFFNE TÜR"], 0);
    let mut q = Some(EventQueue::new());
    let mut l = Listener::new();
    l.hear("öffne Tür!", &mut t, &mut q, &mut Clock::new(|| 10 * SECOND));
    assert_eq!(drain(&mut q), vec!["öffne tür"]);
}
